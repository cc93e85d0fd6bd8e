use std::path::Path;

use pixelcreep::config::{clean_recent_images, config_path, record_recent_image, AppConfig, RECENT_IMAGE_LIMIT};

fn path(value: &str) -> String {
    value.to_string()
}

#[test]
fn record_recent_image_dedupes_and_moves_to_top() {
    let paths = vec![path("/a.png"), path("/b.png"), path("/c.png")];

    assert_eq!(
        record_recent_image(&paths, "/b.png"),
        vec![path("/b.png"), path("/a.png"), path("/c.png")]
    );
}

#[test]
fn record_recent_image_caps_to_limit() {
    let paths = vec![path("/1.png"), path("/2.png"), path("/3.png"), path("/4.png"), path("/5.png")];

    assert_eq!(
        record_recent_image(&paths, "/6.png"),
        vec![path("/6.png"), path("/1.png"), path("/2.png"), path("/3.png"), path("/4.png")]
    );
}

#[test]
fn clean_recent_images_filters_invalid_and_duplicates() {
    let paths = vec![path("/missing.png"), path("/a.png"), path("/a.png"), path("/b.txt"), path("/c.png")];

    assert_eq!(
        clean_recent_images(&paths, |path: &String| Path::new(path).extension().is_some_and(|ext| ext == "png")
            && !path.contains("missing")),
        vec![path("/a.png"), path("/c.png")]
    );
}

#[test]
fn clean_stops_at_the_limit() {
    let paths: Vec<String> = (0..8).map(|i| format!("/{i}.png")).collect();
    let mut asked = std::cell::Cell::new(0);
    let cleaned = clean_recent_images(&paths, |_p: &String| {
        asked.set(asked.get() + 1);
        true
    });
    assert_eq!(cleaned.len(), RECENT_IMAGE_LIMIT);
    assert_eq!(cleaned, paths[..5].to_vec());
    assert_eq!(*asked.get_mut(), 5);
}

#[test]
fn app_config_clean_reports_changes() {
    let mut config = AppConfig { recent_images: vec![path("/a.png"), path("/notes.txt"), path("/b.JPG")] };
    let changed = config.clean_recent_images(&|_p: &String| true);
    assert!(changed);
    assert_eq!(config.recent_images, vec![path("/a.png"), path("/b.JPG")]);
    let changed = config.clean_recent_images(&|_p: &String| true);
    assert!(!changed);
    let changed = config.clean_recent_images(&|p: &String| p != "/a.png");
    assert!(changed);
    assert_eq!(config.recent_images, vec![path("/b.JPG")]);
}

#[test]
fn app_config_records_and_defaults() {
    let mut config = AppConfig::default();
    assert!(config.recent_images.is_empty());
    config.record_recent_image("/x.png");
    config.record_recent_image("/y.png");
    config.record_recent_image("/x.png");
    assert_eq!(config.recent_images, vec![path("/x.png"), path("/y.png")]);
}

#[test]
fn config_path_joins_the_settings_file() {
    assert_eq!(
        config_path(Some("/home/u/.config/pixelcreep")),
        Some(path("/home/u/.config/pixelcreep/config.json"))
    );
    assert_eq!(config_path(Some("settings/")), Some(path("settings/config.json")));
    assert_eq!(config_path(Some("")), Some(path("config.json")));
    assert_eq!(config_path(None), None);
}

#[test]
fn record_recent_image_compares_paths_by_components() {
    let paths = vec![path("/x//a.png"), path("/y.png")];
    assert_eq!(
        record_recent_image(&paths, "/x/a.png"),
        vec![path("/x/a.png"), path("/y.png")]
    );
    let paths = vec![path("/x/./a.png/"), path("/x/b.png")];
    assert_eq!(
        record_recent_image(&paths, "/x/a.png"),
        vec![path("/x/a.png"), path("/x/b.png")]
    );
}

#[test]
fn clean_recent_images_drops_second_spellings_of_a_path() {
    let paths = vec![path("/a.png"), path("/a.png/"), path("/./a.png"), path("/b.png"), path("b.png")];
    assert_eq!(
        clean_recent_images(&paths, |_p: &String| true),
        vec![path("/a.png"), path("/b.png"), path("b.png")]
    );
}

#[test]
fn app_config_record_twice_and_clean_twice_change_nothing() {
    let mut config = AppConfig::default();
    config.record_recent_image("/x/a.png");
    config.record_recent_image("/x/b.png");
    config.record_recent_image("/x/a.png");
    let once = config.recent_images.clone();
    config.record_recent_image("/x/a.png");
    assert_eq!(config.recent_images, once);
    assert_eq!(once, vec![path("/x/a.png"), path("/x/b.png")]);
    let cleaned = clean_recent_images(&once, |p: &String| p.ends_with(".png"));
    assert_eq!(clean_recent_images(&cleaned, |p: &String| p.ends_with(".png")), cleaned);
}
