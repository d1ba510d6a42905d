use textcore::{image_file_name, image_source, list_item_prefix, place_image, ImageSource};

#[test]
fn test_list_item_prefix() {
    assert_eq!(list_item_prefix(0, true, 0), "1. ");
    assert_eq!(list_item_prefix(1, true, 0), "2. ");
    assert_eq!(list_item_prefix(2, true, 0), "3. ");
    assert_eq!(list_item_prefix(10, true, 0), "11. ");
    assert_eq!(list_item_prefix(0, true, 1), "A. ");
    assert_eq!(list_item_prefix(1, true, 1), "B. ");
    assert_eq!(list_item_prefix(2, true, 1), "C. ");
    assert_eq!(list_item_prefix(0, true, 2), "a. ");
    assert_eq!(list_item_prefix(1, true, 2), "b. ");
    assert_eq!(list_item_prefix(6, true, 2), "g. ");
    assert_eq!(list_item_prefix(0, true, 1), "A. ");
    assert_eq!(list_item_prefix(0, true, 2), "a. ");
    assert_eq!(list_item_prefix(0, false, 0), "• ");
    assert_eq!(list_item_prefix(0, false, 1), "◦ ");
    assert_eq!(list_item_prefix(0, false, 2), "▪ ");
    assert_eq!(list_item_prefix(0, false, 3), "‣ ");
    assert_eq!(list_item_prefix(0, false, 4), "⁃ ");
}

#[test]
fn list_numbers_run_on_and_letters_start_over() {
    assert_eq!(list_item_prefix(99, true, 0), "100. ");
    assert_eq!(list_item_prefix(1233, true, 0), "1234. ");
    assert_eq!(list_item_prefix(25, true, 1), "Z. ");
    assert_eq!(list_item_prefix(26, true, 1), "A. ");
    assert_eq!(list_item_prefix(27, true, 5), "b. ");
    // Every depth past the fourth keeps the last bullet, whatever the index.
    assert_eq!(list_item_prefix(3, false, 9), "⁃ ");
    assert_eq!(list_item_prefix(usize::MAX - 1, true, 0), format!("{}. ", usize::MAX));
}

fn source(url: &str, base: Option<&str>) -> ImageSource {
    image_source(url, base)
}

#[test]
fn test_image_source_without_a_base_reaches_nothing_on_disk() {
    fn assert_uri(url: &str) {
        match source(url, None) {
            ImageSource::Uri(uri) => assert_eq!(uri, url),
            other => panic!("expected Uri for {url:?}, got {other:?}"),
        }
    }
    assert_uri("https://example.com/logo.png");
    assert_uri("http://example.com/logo.png");
    assert_uri("data:image/png;base64,iVBORw0KGgo=");

    // Every one of these names a file, and without a base none of them is
    // allowed to reach it.
    assert_uri("website/public/logo.svg");
    assert_uri("./images/a.png");
    assert_uri("../images/a.png");
    assert_uri("/absolute/path/logo.svg");
    assert_uri("file:///absolute/path/logo.svg");
    assert_uri(r"C:\images\logo.png");
    assert_uri("docs/a:b.png");
}

#[test]
fn test_image_source_with_a_base_reads_paths_from_disk() {
    let base = Some("/docs/adr");
    fn assert_path(url: &str, base: Option<&str>, expected: &str) {
        match source(url, base) {
            ImageSource::Path(path) => assert_eq!(path, expected),
            other => panic!("expected Path for {url:?}, got {other:?}"),
        }
    }
    fn assert_uri(url: &str, base: Option<&str>) {
        match source(url, base) {
            ImageSource::Uri(uri) => assert_eq!(uri, url),
            other => panic!("expected Uri for {url:?}, got {other:?}"),
        }
    }

    // A relative path is resolved against the document's own directory.
    assert_path("diagrams/flow.svg", base, "/docs/adr/diagrams/flow.svg");
    assert_path("./a.png", base, "/docs/adr/./a.png");
    assert_path("../a.png", base, "/docs/adr/../a.png");

    // An absolute path, with or without a scheme, is taken as it is.
    assert_path("/absolute/logo.svg", base, "/absolute/logo.svg");
    assert_path("file:///absolute/logo.svg", base, "/absolute/logo.svg");

    // What the machine can fetch or decode on its own is still fetched.
    assert_uri("https://example.com/logo.png", base);
    assert_uri("http://example.com/logo.png", base);
    assert_uri("data:image/png;base64,iVBORw0KGgo=", base);
}

#[test]
fn a_file_url_loses_its_scheme_and_nothing_else() {
    assert_eq!(image_file_name("file:///a/b.png"), "/a/b.png");
    assert_eq!(image_file_name("file://relative.png"), "relative.png");
    assert_eq!(image_file_name("files/a.png"), "files/a.png");
    assert_eq!(image_file_name("FILE:///a.png"), "FILE:///a.png");
    assert_eq!(image_file_name("file:/"), "file:/");
}

#[test]
fn a_scheme_must_lead_the_url_to_count() {
    match source("images/http://x.png", Some("/d")) {
        ImageSource::Path(path) => assert_eq!(path, "/d/images/http://x.png"),
        other => panic!("expected a path, got {other:?}"),
    }
    match source("HTTP://example.com/a.png", Some("/d")) {
        ImageSource::Path(_) => {}
        other => panic!("a scheme is matched as written, got {other:?}"),
    }
}

#[test]
fn an_absolute_name_is_placed_as_it_is_and_a_relative_one_against_the_base() {
    assert_eq!(place_image("/docs", "/a/b.png".to_string(), true), ImageSource::Path("/a/b.png".to_string()));
    assert_eq!(place_image("/docs", "b.png".to_string(), false), ImageSource::Path("/docs/b.png".to_string()));
    match place_image("/docs/adr", "./x/y.png".to_string(), false) {
        ImageSource::Path(path) => assert!(path.ends_with("./x/y.png")),
        other => panic!("expected a path, got {other:?}"),
    }
}
