use std::collections::HashSet;

use pixelcreep::pixel::Rgba;
use pixelcreep::portal_sort::{
    find_next_candidates, portal_sort, portal_step, PortalDirection, PortalSortParams, PortalSortStats,
};

#[test]
fn portal_sort_runs_on_tiny_image() {
    let mut rgba = vec![10, 10, 10, 255, 20, 20, 20, 255, 30, 30, 30, 255, 40, 40, 40, 255];
    let stats = portal_sort(
        &mut rgba,
        2,
        2,
        PortalSortParams {
            max_iterations: 5,
            dist: 2,
            margin: 30,
            mark_seeds: false,
            direction: PortalDirection::Down,
        },
    );
    assert!(stats.iterations > 0);
}

fn px(v: u8) -> Rgba {
    Rgba { r: v, g: v, b: v, a: 255 }
}

#[test]
fn portal_sort_only_moves_pixels() {
    let mut rgba: Vec<u8> = Vec::new();
    for i in 0..36u8 {
        let v = (i * 37) % 251;
        rgba.extend_from_slice(&[v, 255 - v, v / 2, i]);
    }
    let mut before: Vec<[u8; 4]> = rgba.chunks(4).map(|c| [c[0], c[1], c[2], c[3]]).collect();
    let stats = portal_sort(
        &mut rgba,
        6,
        6,
        PortalSortParams { max_iterations: 50, dist: 4, margin: 255, mark_seeds: false, direction: PortalDirection::Right },
    );
    let mut after: Vec<[u8; 4]> = rgba.chunks(4).map(|c| [c[0], c[1], c[2], c[3]]).collect();
    before.sort();
    after.sort();
    assert_eq!(before, after);
    assert!(stats.iterations >= 1 && stats.iterations <= 50);
    assert!(stats.traversed <= 36);
}

#[test]
fn portal_sort_leaves_short_buffers() {
    let mut rgba = vec![1, 2, 3, 4, 5, 6, 7, 8];
    let stats = portal_sort(&mut rgba, 2, 2, PortalSortParams::default());
    assert_eq!(rgba, vec![1, 2, 3, 4, 5, 6, 7, 8]);
    assert_eq!(stats, PortalSortStats::default());
    let mut empty: Vec<u8> = Vec::new();
    let stats = portal_sort(&mut empty, 0, 5, PortalSortParams::default());
    assert_eq!(stats, PortalSortStats { iterations: 0, traversed: 0 });
}

#[test]
fn portal_defaults() {
    let p = PortalSortParams::default();
    assert_eq!(p.max_iterations, 2000);
    assert_eq!(p.dist, 200);
    assert_eq!(p.margin, 50);
    assert!(!p.mark_seeds);
    assert_eq!(p.direction, PortalDirection::Down);
    assert_eq!(PortalDirection::default(), PortalDirection::Down);
}

#[test]
fn portal_step_sorts_a_downward_walk() {
    // 2 x 3 image; walk down column 0 from the top, three pixels.
    let mut img = vec![px(90), px(1), px(30), px(2), px(60), px(3)];
    let mut visited = HashSet::new();
    let params = PortalSortParams { max_iterations: 1, dist: 3, margin: 40, mark_seeds: false, direction: PortalDirection::Down };
    let cands = portal_step(&mut img, 0, 2, 6, params, &mut visited).unwrap();
    assert_eq!(img, vec![px(30), px(1), px(60), px(2), px(90), px(3)]);
    assert_eq!(visited, [0usize, 2, 4].into_iter().collect::<HashSet<usize>>());
    // Last sorted colour is 90: nothing unvisited lies within 40 of it.
    assert!(cands.is_empty());
}

#[test]
fn portal_step_marks_the_seed() {
    let mut img = vec![px(50), px(40), px(30), px(20)];
    let mut visited = HashSet::new();
    let params = PortalSortParams { max_iterations: 1, dist: 2, margin: 15, mark_seeds: true, direction: PortalDirection::Left };
    let cands = portal_step(&mut img, 3, 4, 4, params, &mut visited).unwrap();
    // Walk left from 3: pixels 3 and 2 ([20, 30]); sorted [20, 30]; the seed turns red.
    assert_eq!(img, vec![px(50), px(40), px(30), Rgba { r: 255, g: 0, b: 0, a: 255 }]);
    // Last sorted colour 30; unvisited within 15: pixel 1 (40).
    assert_eq!(cands, vec![1]);
}

#[test]
fn portal_step_from_visited_seed_does_nothing() {
    let mut img = vec![px(5), px(6)];
    let mut visited: HashSet<usize> = [1usize].into_iter().collect();
    let params = PortalSortParams { max_iterations: 1, dist: 2, margin: 15, mark_seeds: false, direction: PortalDirection::Right };
    assert!(portal_step(&mut img, 1, 2, 2, params, &mut visited).is_none());
    assert_eq!(img, vec![px(5), px(6)]);
}

#[test]
fn portal_walk_stays_in_its_row() {
    let mut img = vec![px(9), px(8), px(7), px(6)];
    let mut visited = HashSet::new();
    let params = PortalSortParams { max_iterations: 1, dist: 5, margin: 1, mark_seeds: false, direction: PortalDirection::Right };
    portal_step(&mut img, 0, 2, 4, params, &mut visited).unwrap();
    assert_eq!(img, vec![px(8), px(9), px(7), px(6)]);
    assert_eq!(visited.len(), 2);
}

#[test]
fn candidates_skip_visited_and_far_pixels() {
    let img = vec![px(10), px(12), px(50), px(14)];
    let visited: HashSet<usize> = [3usize].into_iter().collect();
    assert_eq!(find_next_candidates(&img, 4, px(11), 3, &visited), vec![0, 1]);
    assert_eq!(find_next_candidates(&img, 4, px(11), 1, &visited), Vec::<usize>::new());
}
