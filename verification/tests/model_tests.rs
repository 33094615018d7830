use everytree::model::{Builder, Directory, Node, ROOT};
use std::sync::atomic::AtomicBool;

#[test]
fn compact_nodes_and_exact_totals() {
    assert_eq!(std::mem::size_of::<Node>(), 24);
    assert_eq!(std::mem::size_of::<Directory>(), 12);
    let mut b = Builder::default();
    let a = b.folder("C:\\Users\\Example").unwrap();
    let c = b.folder("C:\\Users\\Example\\child").unwrap();
    b.add_file(a, "zero", Some(0)).unwrap();
    b.add_file(a, "unknown", None).unwrap();
    b.add_file(c, "large.bin", Some(9_007_199_254_740_993))
        .unwrap();
    let d = b.finish(&AtomicBool::new(false), |_, _, _| {}).unwrap();
    assert_eq!(d.node(ROOT).bytes, 9_007_199_254_740_993);
    assert_eq!(d.file_count(ROOT), 3);
    assert!(d.node(a).size_unknown());
    assert_eq!(d.path(c), "C:\\Users\\Example\\child");
    assert_eq!(d.range_bytes(a, 0, d.child_ids(a).len()), d.node(a).bytes);
}

#[test]
fn folder_metadata_stays_correct_with_interleaved_files_and_empty_folders() {
    let mut b = Builder::default();
    let root_file = b.add_file(ROOT, "root.bin", Some(7)).unwrap();
    let a = b.folder("C:\\a").unwrap();
    let first = b.add_file(a, "first", Some(11)).unwrap();
    let empty = b.folder("C:\\empty").unwrap();
    let nested = b.folder("C:\\a\\nested").unwrap();
    let unknown = b.add_file(nested, "unknown", None).unwrap();
    let last = b.add_file(a, "last", Some(13)).unwrap();
    let d = b.finish(&AtomicBool::new(false), |_, _, _| {}).unwrap();
    assert_eq!(d.folder_count(), 4);
    assert_eq!(d.file_count(ROOT), 4);
    assert_eq!(d.file_count(a), 3);
    assert_eq!(d.file_count(nested), 1);
    assert_eq!(d.file_count(empty), 0);
    assert_eq!(d.child_ids(a), [last, first, nested]);
    assert_eq!(d.child_prefix_bytes(a), [13, 24, 24]);
    assert_eq!(d.node(ROOT).bytes, 31);
    assert_eq!(d.node(a).bytes, 24);
    assert!(d.node(a).size_unknown());
    assert!(!d.node(empty).size_unknown());
    for id in [root_file, first, unknown, last] {
        assert_eq!(d.file_count(id), 1);
        assert!(d.child_ids(id).is_empty());
        assert!(d.child_prefix_bytes(id).is_empty());
        assert_eq!(d.range_bytes(id, 0, 0), 0);
    }
    assert!(d.child_ids(empty).is_empty());
    assert!(d.child_prefix_bytes(empty).is_empty());
}

#[test]
fn paths_handle_unc_unicode_and_distinct_case() {
    let mut b = Builder::default();
    let unc = b.folder("\\\\server\\share\\日本語").unwrap();
    let a = b.folder("C:\\Case").unwrap();
    let other = b.folder("C:\\case").unwrap();
    assert_ne!(a, other);
    let id = b.add_file(unc, "写真.jpg", Some(42)).unwrap();
    let d = b.finish(&AtomicBool::new(false), |_, _, _| {}).unwrap();
    assert_eq!(d.path(id), "\\\\server\\share\\日本語\\写真.jpg");
}

#[test]
fn children_sorted_and_prefix_ranges_match() {
    let mut b = Builder::default();
    let p = b.folder("C:").unwrap();
    for size in [5, 0, 21, 1, 8] {
        b.add_file(p, "x", Some(size)).unwrap();
    }
    let d = b.finish(&AtomicBool::new(false), |_, _, _| {}).unwrap();
    let sizes: Vec<_> = d.child_ids(p).iter().map(|id| d.node(*id).bytes).collect();
    assert_eq!(sizes, [21, 8, 5, 1, 0]);
    assert_eq!(d.range_bytes(p, 1, 4), 14);
}

#[test]
fn drive_root_path_gets_a_trailing_backslash() {
    let mut b = Builder::default();
    let drive = b.folder("D:").unwrap();
    let deeper = b.folder("D:\\x\\").unwrap();
    let d = b.finish(&AtomicBool::new(false), |_, _, _| {}).unwrap();
    assert_eq!(d.path(drive), "D:\\");
    assert_eq!(d.path(deeper), "D:\\x");
    assert_eq!(d.path(ROOT), "All indexed files");
}

#[test]
fn same_folder_path_gives_the_same_id() {
    let mut b = Builder::default();
    let a = b.folder("C:\\Users\\x").unwrap();
    let again = b.folder("C:\\Users\\x\\\\").unwrap();
    assert_eq!(a, again);
    assert_eq!(b.folder("").unwrap(), ROOT);
    assert_eq!(b.folder("\\\\").unwrap(), ROOT);
}

#[test]
fn ancestors_run_from_the_root_to_the_record() {
    let mut b = Builder::default();
    let a = b.folder("C:\\a").unwrap();
    let c = b.folder("C:\\a\\b\\c").unwrap();
    let f = b.add_file(c, "f", Some(1)).unwrap();
    let d = b.finish(&AtomicBool::new(false), |_, _, _| {}).unwrap();
    let chain = d.ancestors(f);
    assert_eq!(chain.first(), Some(&ROOT));
    assert_eq!(chain.last(), Some(&f));
    assert!(chain.contains(&a));
    assert!(chain.contains(&c));
    assert_eq!(chain.len(), 6);
    assert_eq!(d.ancestors(ROOT), vec![ROOT]);
}

#[test]
fn names_come_back_from_the_pool() {
    let mut b = Builder::default();
    let a = b.folder("C:\\Ünïcödé").unwrap();
    let f = b.add_file(a, "файл.txt", Some(3)).unwrap();
    let d = b.finish(&AtomicBool::new(false), |_, _, _| {}).unwrap();
    assert_eq!(d.name(f), "файл.txt");
    assert_eq!(d.name(a), "Ünïcödé");
    assert_eq!(d.name(ROOT), "All indexed files");
}

#[test]
fn a_filename_too_long_is_refused() {
    let mut b = Builder::default();
    let long = "x".repeat(70_000);
    let e = b.add_file(ROOT, &long, Some(1)).unwrap_err();
    assert_eq!(e, "A filename is too long to represent.");
    let e = b.folder(&format!("C:\\{long}")).unwrap_err();
    assert_eq!(e, "A filename is too long to represent.");
}

#[test]
fn cancel_stops_finishing() {
    let mut b = Builder::default();
    b.add_file(ROOT, "a", Some(1)).unwrap();
    let r = b.finish(&AtomicBool::new(true), |_, _, _| {});
    assert_eq!(r.err(), Some("Cancelled".to_string()));
}

#[test]
fn totals_that_overflow_are_refused() {
    let mut b = Builder::default();
    b.add_file(ROOT, "a", Some(u64::MAX)).unwrap();
    b.add_file(ROOT, "b", Some(1)).unwrap();
    let r = b.finish(&AtomicBool::new(false), |_, _, _| {});
    assert_eq!(r.err(), Some("The total byte count overflowed u64.".to_string()));
}

#[test]
fn finish_reports_its_stages() {
    let mut b = Builder::default();
    b.add_file(ROOT, "a", Some(1)).unwrap();
    let stages = std::cell::RefCell::new(Vec::new());
    b.finish(&AtomicBool::new(false), |stage, _, _| {
        stages.borrow_mut().push(stage.to_string())
    })
    .unwrap();
    let stages = stages.into_inner();
    assert_eq!(stages[0], "Adding folder totals");
    assert_eq!(stages[1], "Building child index");
    assert_eq!(stages[2], "Sorting folders by size");
}

#[test]
fn equal_sizes_are_ordered_by_id_and_ranges_sum() {
    let mut b = Builder::default();
    let p = b.folder("E:").unwrap();
    let x = b.add_file(p, "x", Some(4)).unwrap();
    let y = b.add_file(p, "y", Some(4)).unwrap();
    let z = b.add_file(p, "z", Some(9)).unwrap();
    let d = b.finish(&AtomicBool::new(false), |_, _, _| {}).unwrap();
    assert_eq!(d.child_ids(p), [z, x, y]);
    assert_eq!(d.range_bytes(p, 0, 3), 17);
    assert_eq!(d.range_bytes(p, 1, 3), 8);
    assert_eq!(d.range_bytes(p, 2, 2), 0);
    assert_eq!(d.node(p).bytes, 17);
}

#[test]
fn the_root_counts_every_file_once() {
    let mut b = Builder::new(10);
    let deep = b.folder("E:\\a\\b\\c").unwrap();
    let side = b.folder("E:\\a\\side").unwrap();
    b.folder("E:\\empty").unwrap();
    for _ in 0..4 {
        b.add_file(deep, "x", Some(2)).unwrap();
    }
    b.add_file(side, "y", None).unwrap();
    b.add_file(ROOT, "z", Some(1)).unwrap();
    let d = b.finish(&AtomicBool::new(false), |_, _, _| {}).unwrap();
    assert_eq!(d.file_count(ROOT), 6);
    assert_eq!(d.folder_count(), 6);
}

#[test]
fn samples_hold_the_files_asked_for() {
    for (files, flat) in [(0, false), (1, true), (300, false), (2000, true)] {
        let d = everytree::model::synthetic(files, flat, &AtomicBool::new(false), |_, _, _| {}).unwrap();
        assert_eq!(d.file_count(ROOT) as usize, files);
        assert!(d.synthetic);
    }
}

#[test]
fn a_folder_path_names_one_folder_however_it_is_reached() {
    let mut b = Builder::default();
    let deep = b.folder("C:\\x\\y\\z").unwrap();
    let y = b.folder("C:\\x\\y").unwrap();
    let again = b.folder("C:\\x\\y\\z\\\\").unwrap();
    let x = b.folder("C:\\x").unwrap();
    assert_eq!(deep, again);
    let d = b.finish(&AtomicBool::new(false), |_, _, _| {}).unwrap();
    assert_eq!(d.folder_count(), 4);
    assert_eq!(d.node(deep).parent, y);
    assert_eq!(d.node(y).parent, x);
    assert_eq!(d.path(deep), "C:\\x\\y\\z");
}
