use pixelcreep::file_types::{
    image_extensions, is_supported_extension, is_supported_file_name, is_supported_image, label_for_file_name,
    label_for_path, selection_for_file_name, selection_from_path,
};

#[test]
fn image_extensions_list() {
    assert_eq!(
        image_extensions(),
        vec!["avif", "bmp", "gif", "heic", "heif", "ico", "jpeg", "jpg", "png", "tif", "tiff", "webp"]
    );
}

#[test]
fn supported_images_by_extension_any_case() {
    assert!(is_supported_image("/photos/cat.png"));
    assert!(is_supported_image("/photos/cat.PNG"));
    assert!(is_supported_image("dog.JpEg"));
    assert!(is_supported_image("/a/b.c/d.tiff"));
    assert!(!is_supported_image("/photos/notes.txt"));
    assert!(!is_supported_image("/photos/png"));
    assert!(!is_supported_image("/photos/.png"));
    assert!(!is_supported_image("/photos/.."));
    assert!(!is_supported_image(""));
    assert!(is_supported_image("/photos/x.png/"));
}

#[test]
fn supported_extension_and_file_name() {
    assert!(is_supported_extension("WEBP"));
    assert!(!is_supported_extension("webpp"));
    assert!(!is_supported_extension(""));
    assert!(is_supported_file_name(Some("a.gif")));
    assert!(!is_supported_file_name(Some("gif")));
    assert!(!is_supported_file_name(Some("a.")));
    assert!(!is_supported_file_name(None));
}

#[test]
fn selection_labels_with_the_file_name() {
    let sel = selection_from_path("/home/me/Pictures/sunset.JPG".to_string()).unwrap();
    assert_eq!(sel.path, "/home/me/Pictures/sunset.JPG");
    assert_eq!(sel.label, "sunset.JPG");
    assert!(selection_from_path("/home/me/readme.md".to_string()).is_none());
}

#[test]
fn selection_for_a_given_name() {
    let sel = selection_for_file_name("/x/y.bmp".to_string(), Some("y.bmp")).unwrap();
    assert_eq!(sel.label, "y.bmp");
    assert!(selection_for_file_name("/x/y".to_string(), Some("y")).is_none());
    assert_eq!(label_for_file_name(None), "Image");
    assert_eq!(label_for_file_name(Some("z.png")), "z.png");
}

#[test]
fn file_name_skips_trailing_separators_and_dots() {
    assert!(is_supported_image("/x/a.png/"));
    assert!(is_supported_image("foo.png/."));
    assert!(is_supported_image("foo.png/.//"));
    assert!(!is_supported_image("/x/a.png/.."));
    assert!(!is_supported_image("/"));
    assert!(!is_supported_image("."));
    assert_eq!(label_for_path("/x/a.png/"), "a.png");
    assert_eq!(label_for_path("foo.txt/."), "foo.txt");
    assert_eq!(label_for_path("/x/.."), "Image");
    let sel = selection_from_path("/pics/b.JPG//".to_string()).unwrap();
    assert_eq!(sel.label, "b.JPG");
    assert_eq!(sel.path, "/pics/b.JPG//");
}
