use everytree::layout::{left_budget, lone_file, positive_end, split_point, Detail, View};
use everytree::model::{Builder, ROOT};
use std::sync::atomic::AtomicBool;

#[test]
fn folder_views_cover_all_children_and_sum_their_bytes() {
    let mut b = Builder::default();
    let p = b.folder("C:").unwrap();
    for size in [50, 30, 15, 5, 0, 0] {
        b.add_file(p, "f", Some(size)).unwrap();
    }
    let data = b.finish(&AtomicBool::new(false), |_, _, _| {}).unwrap();
    let all = View::folder(&data, p);
    assert_eq!(all, View { parent: p, start: 0, end: 6 });
    assert!(!all.is_group(&data));
    assert_eq!(all.bytes(&data), 100);
    let part = View { parent: p, start: 1, end: 3 };
    assert!(part.is_group(&data));
    assert_eq!(part.bytes(&data), 45);
    assert_eq!(positive_end(&data, all), 4);
    let positive = View { parent: p, start: 0, end: 4 };
    let m = split_point(&data, positive);
    assert_eq!(m, 1);
    let left = View { parent: p, start: 0, end: m };
    let right = View { parent: p, start: m, end: 4 };
    assert_eq!(left.bytes(&data) + right.bytes(&data), positive.bytes(&data));
    assert_eq!(View::folder(&data, ROOT).end, 1);
}

#[test]
fn split_moves_left_when_that_is_nearer_half() {
    let mut b = Builder::default();
    let p = b.folder("C:").unwrap();
    for size in [40, 35, 25] {
        b.add_file(p, "f", Some(size)).unwrap();
    }
    let data = b.finish(&AtomicBool::new(false), |_, _, _| {}).unwrap();
    // Half of 100 is 50: 40 is nearer than 75.
    assert_eq!(split_point(&data, View { parent: p, start: 0, end: 3 }), 1);
    // Within 35 + 25, half is 30: the first child alone is nearest.
    assert_eq!(split_point(&data, View { parent: p, start: 1, end: 3 }), 2);
}

#[test]
fn detail_labels() {
    assert_eq!(Detail::Balanced.label(), "Balanced");
    assert_eq!(Detail::Fine.label(), "Fine");
    assert_eq!(Detail::Pixel.label(), "Pixel");
    assert_eq!(Detail::default(), Detail::Fine);
}

#[test]
fn a_lone_file_gets_one_tile_and_shares_stay_inside_the_budget() {
    assert_eq!(left_budget(100, 90, true, false), 1);
    assert_eq!(left_budget(100, 10, false, true), 99);
    assert_eq!(left_budget(100, 0, false, false), 1);
    assert_eq!(left_budget(100, 250, false, false), 99);
    assert_eq!(left_budget(100, 40, false, false), 40);
    assert_eq!(left_budget(2, 1, true, true), 1);
}

#[test]
fn lone_files_are_single_file_views() {
    let mut b = Builder::default();
    let d = b.folder("C:\\d").unwrap();
    b.add_file(d, "inner", Some(3)).unwrap();
    let c = b.folder("C:").unwrap();
    b.add_file(c, "big", Some(100)).unwrap();
    let data = b.finish(&AtomicBool::new(false), |_, _, _| {}).unwrap();
    let all = View::folder(&data, c);
    assert_eq!(all.end, 2);
    assert!(lone_file(&data, View { parent: c, start: 0, end: 1 }));
    assert!(!lone_file(&data, View { parent: c, start: 1, end: 2 }));
    assert!(!lone_file(&data, all));
}
