use pixelcreep::editor_state::{DecodedImage, EditorState, PreviewFreshness};
use pixelcreep::render_queue::{doc_dims, rgba_len, InboxState, WorkItem};
use pixelcreep::status::bytes_to_mb;

fn image(n: usize) -> DecodedImage {
    DecodedImage { rgba: vec![7; n], width: 1, height: (n / 4) as u32 }
}

#[test]
fn editor_starts_empty() {
    let s = EditorState::default();
    assert!(!s.is_loaded());
    assert_eq!(s.source_epoch(), 0);
    assert_eq!(s.preview_epoch(), 0);
    assert_eq!(s.width(), 0);
}

#[test]
fn load_and_clear_make_earlier_requests_stale() {
    let mut s = EditorState::default();
    let e0 = s.source_epoch();
    s.load(image(8));
    assert!(s.is_loaded());
    assert_eq!(s.height(), 2);
    assert_eq!(s.source().len(), 8);
    assert!(s.is_source_stale(e0));
    let e1 = s.source_epoch();
    assert!(!s.is_source_stale(e1));
    s.clear();
    assert!(!s.is_loaded());
    assert!(s.is_source_stale(e1));
    assert_eq!(s.width(), 0);
}

#[test]
fn latest_preview_supersedes_earlier_ones() {
    let mut s = EditorState::default();
    assert_eq!(s.preview_ticket(PreviewFreshness::RequireLatest), None);
    s.load(image(4));
    let t1 = s.preview_ticket(PreviewFreshness::RequireLatest).unwrap();
    assert!(s.is_current(t1.0, t1.1));
    let t2 = s.preview_ticket(PreviewFreshness::AllowSuperseded).unwrap();
    assert_eq!(t1, t2);
    let t3 = s.preview_ticket(PreviewFreshness::RequireLatest).unwrap();
    assert!(!s.is_current(t1.0, t1.1));
    assert!(s.is_current(t3.0, t3.1));
    assert!(s.is_preview_stale(t1.1));
    assert_eq!(s.bump_preview_epoch(), t3.1 + 1);
}

#[test]
fn inbox_prefers_sort_and_drops_older_previews() {
    let mut inbox: InboxState<u32, &str> = InboxState::new();
    assert!(inbox.take_work().is_none());
    inbox.post_preview(1);
    inbox.post_preview(2);
    match inbox.take_work() {
        Some(WorkItem::Preview(p)) => assert_eq!(p, 2),
        _ => panic!("expected the latest preview"),
    }
    inbox.post_preview(3);
    inbox.post_sort("sort");
    inbox.post_preview(4);
    match inbox.take_work() {
        Some(WorkItem::Sort(s)) => assert_eq!(s, "sort"),
        _ => panic!("expected the sort"),
    }
    assert!(inbox.take_work().is_none());
}

#[test]
fn document_dimensions() {
    assert_eq!(doc_dims(0, 30, 20), (30, 20));
    assert_eq!(doc_dims(1, 30, 20), (20, 30));
    assert_eq!(doc_dims(2, 30, 20), (20, 20));
    assert_eq!(doc_dims(2, 10, 20), (10, 10));
    assert_eq!(doc_dims(7, 30, 20), (30, 20));
    assert_eq!(rgba_len(3, 2), Some(24));
    assert_eq!(rgba_len(0, 9), Some(0));
}

#[test]
fn megabytes_round_up() {
    assert_eq!(bytes_to_mb(0), 0);
    assert_eq!(bytes_to_mb(1), 1);
    assert_eq!(bytes_to_mb(1024 * 1024), 1);
    assert_eq!(bytes_to_mb(1024 * 1024 + 1), 2);
    assert_eq!(bytes_to_mb(u64::MAX), u64::MAX / (1024 * 1024) + 1);
}

#[test]
fn worker_admits_current_previews_and_sorts_of_a_loaded_image() {
    let mut s = EditorState::default();
    assert!(!s.admits_work(None));
    assert!(!s.admits_work(Some((0, 0))));
    s.load(image(8));
    let ticket = s.preview_ticket(PreviewFreshness::RequireLatest).unwrap();
    assert!(s.admits_work(Some(ticket)));
    assert!(s.admits_work(None));
    let newer = s.preview_ticket(PreviewFreshness::RequireLatest).unwrap();
    assert!(!s.admits_work(Some(ticket)));
    assert!(s.admits_work(Some(newer)));
    s.load(image(4));
    assert!(!s.admits_work(Some(newer)));
    assert!(s.admits_work(None));
}

#[test]
fn source_epoch_is_stale_after_every_count_of_loads() {
    let mut s = EditorState::default();
    let e = s.source_epoch();
    assert!(!s.is_source_stale(e));
    for k in 1..50 {
        if k % 2 == 0 {
            s.load(image(4));
        } else {
            s.clear();
        }
        assert!(s.is_source_stale(e));
    }
}
