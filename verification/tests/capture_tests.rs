use everytree::everything::{moved_too_far, search_text, settled_error, TOO_RAPID};
use everytree::ingest::{after_page, PageStep, MOVED};
use everytree::model::{synthetic, Builder, ROOT};
use std::sync::atomic::AtomicBool;

#[test]
fn a_page_that_reaches_the_total_ends_the_capture() {
    assert_eq!(after_page(16, 8, 24, 16, 2, 2), PageStep::Done);
    assert_eq!(after_page(usize::MAX - 1, 5, usize::MAX, 0, 0, 1), PageStep::Done);
}

#[test]
fn a_page_no_larger_than_the_overlap_means_the_index_moved() {
    assert_eq!(after_page(6, 2, 24, 8, 2, 2), PageStep::Moved);
}

#[test]
fn a_page_with_nothing_new_behind_the_cursor_means_the_index_moved() {
    assert_eq!(after_page(0, 8, 24, 8, 8, 2), PageStep::Moved);
    assert_eq!(after_page(0, 8, 24, 8, 7, 2), PageStep::Onward(8));
}

#[test]
fn a_page_short_of_the_total_goes_on_from_its_end() {
    assert_eq!(after_page(6, 8, 24, 8, 2, 2), PageStep::Onward(14));
}

#[test]
fn only_a_moved_index_is_tried_again() {
    assert!(moved_too_far(&Err(MOVED.to_string())));
    assert!(!moved_too_far(&Err("Cancelled".to_string())));
}

#[test]
fn a_second_move_reads_as_too_rapid() {
    assert_eq!(settled_error(MOVED.to_string()), TOO_RAPID);
    assert_eq!(settled_error("Cancelled".to_string()), "Cancelled");
}

#[test]
fn unicode_white_space_is_trimmed_from_the_query() {
    assert_eq!(search_text("\u{3000} x y\u{85}\t"), "file: <x y>");
    assert_eq!(search_text("\u{2028}\n "), "file:");
    assert_eq!(search_text("\u{200B}x"), "file: <\u{200B}x>");
}

#[test]
fn a_nested_folder_sits_under_the_folder_of_its_parent_path() {
    let mut b = Builder::default();
    let nested = b.folder("C:\\a\\nested").unwrap();
    let a = b.folder("C:\\a").unwrap();
    let drive = b.folder("C:").unwrap();
    let d = b.finish(&AtomicBool::new(false), |_, _, _| {}).unwrap();
    assert_eq!(d.node(nested).parent, a);
    assert_eq!(d.node(a).parent, drive);
    assert_eq!(d.node(drive).parent, ROOT);
    assert_eq!(d.name(nested), "nested");
}

#[test]
fn a_network_share_is_one_root_folder() {
    let mut b = Builder::default();
    let x = b.folder("\\\\server\\share\\x").unwrap();
    let share = b.folder("\\\\server\\share").unwrap();
    let d = b.finish(&AtomicBool::new(false), |_, _, _| {}).unwrap();
    assert_eq!(d.node(x).parent, share);
    assert_eq!(d.node(share).parent, ROOT);
    assert_eq!(d.name(share), "\\\\server\\share");
    assert_eq!(d.folder_count(), 2);
}

fn expected_sample_bytes(files: usize, flat: bool) -> u64 {
    let folders = (files / 256).clamp(8, 200_000);
    let mut seed: u64 = 0x123456789abcdef;
    let mut total: u64 = 0;
    for i in 0..files {
        seed ^= seed << 13;
        seed ^= seed >> 7;
        seed ^= seed << 17;
        let kind = if flat { i % 8 } else { (i % folders) % 8 };
        let weight = match kind {
            1 => 64,
            2 | 4 => 16,
            3 => 8,
            5 => 2,
            _ => 1,
        };
        total += if i % 997 == 0 {
            (seed % 8000 + 500) * 1_048_576
        } else {
            (seed % 500_000 + 256) * weight
        };
    }
    total
}

#[test]
fn sample_sizes_follow_the_generator() {
    for (files, flat) in [(1, true), (10, true), (300, false), (2000, false)] {
        let d = synthetic(files, flat, &AtomicBool::new(false), |_, _, _| {}).unwrap();
        assert_eq!(d.node(ROOT).bytes, expected_sample_bytes(files, flat));
        assert!(d.node(ROOT).bytes >= 256 * files as u64);
        assert_eq!(d.unknown_sizes, 0);
        assert!(!d.node(ROOT).size_unknown());
    }
}

#[test]
fn a_flat_sample_keeps_every_file_in_one_folder() {
    let d = synthetic(50, true, &AtomicBool::new(false), |_, _, _| {}).unwrap();
    let folder = d.child_ids(ROOT)[0];
    let folder = d.child_ids(folder)[0];
    assert_eq!(d.child_ids(folder).len(), 50);
    assert_eq!(d.name(folder), "One million siblings");
}

#[test]
fn a_mixed_sample_spreads_files_over_its_batches() {
    let d = synthetic(0, false, &AtomicBool::new(false), |_, _, _| {}).unwrap();
    assert_eq!(d.folder_count(), 25);
    let files = 3000;
    let d = synthetic(files, false, &AtomicBool::new(false), |_, _, _| {}).unwrap();
    let folders = d.folder_count() + 1;
    assert_eq!(d.nodes.len(), folders + files);
    let batches = (files / 256).clamp(8, 200_000);
    for i in [0usize, 1, 7, 11, 12, 2999] {
        let id = (folders + i) as u32;
        let k = i % batches;
        let kinds = ["Projects", "Video", "Games", "Photos", "Archives", "Applications", "Documents", "Cache"];
        assert_eq!(
            d.path(d.node(id).parent),
            format!("DEMO:\\{}\\Collection {:04}\\Batch {:03}", kinds[k % 8], k / 128, k % 128)
        );
        assert!(d.name(id).starts_with(&format!("file_{i:08}.")));
        assert!(d.node(id).bytes >= 256);
    }
}

#[test]
fn a_flat_sample_has_two_folders() {
    let d = synthetic(20, true, &AtomicBool::new(false), |_, _, _| {}).unwrap();
    assert_eq!(d.folder_count(), 2);
    let id = (d.folder_count() + 1 + 5) as u32;
    assert_eq!(d.path(d.node(id).parent), "DEMO:\\One million siblings");
}
