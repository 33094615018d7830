use everytree::model::{synthetic, Builder, Dataset, ROOT};
use std::sync::atomic::AtomicBool;

fn sample() -> Dataset {
    let mut b = Builder::default();
    let a = b.folder("C:\\a").unwrap();
    let nested = b.folder("C:\\a\\nested").unwrap();
    b.add_file(a, "first", Some(11)).unwrap();
    b.add_file(a, "second", Some(11)).unwrap();
    b.add_file(nested, "third", Some(5)).unwrap();
    b.add_file(ROOT, "root.bin", Some(7)).unwrap();
    b.finish(&AtomicBool::new(false), |_, _, _| {}).unwrap()
}

#[test]
fn finished_hierarchies_are_well_formed() {
    assert!(sample().well_formed());
    assert!(Builder::default().finish(&AtomicBool::new(false), |_, _, _| {}).unwrap().well_formed());
    assert!(synthetic(500, false, &AtomicBool::new(false), |_, _, _| {}).unwrap().well_formed());
}

#[test]
fn a_wrong_running_total_is_not_well_formed() {
    let mut d = sample();
    d.prefix_bytes[0] += 1;
    assert!(!d.well_formed());
}

#[test]
fn a_wrong_folder_size_is_not_well_formed() {
    let mut d = sample();
    d.nodes[ROOT as usize].bytes += 1;
    assert!(!d.well_formed());
}

#[test]
fn children_out_of_order_are_not_well_formed() {
    let mut d = sample();
    let (first, count) = {
        let x = d.directories[d.nodes[ROOT as usize].directory as usize];
        (x.child_start as usize, x.child_count as usize)
    };
    assert_eq!(count, 2);
    d.children.swap(first, first + 1);
    assert!(!d.well_formed());
}

#[test]
fn a_child_listed_twice_is_not_well_formed() {
    let mut d = sample();
    let last = d.children.len() - 1;
    d.children[last] = d.children[last - 1];
    assert!(!d.well_formed());
}

#[test]
fn a_parent_after_its_child_is_not_well_formed() {
    let mut d = sample();
    let last = d.nodes.len() - 1;
    d.nodes[1].parent = last as u32;
    assert!(!d.well_formed());
}

#[test]
fn a_name_outside_the_pool_is_not_well_formed() {
    let mut d = sample();
    d.nodes[1].name_offset = d.names.len() as u32;
    assert!(!d.well_formed());
}

#[test]
fn a_folder_without_metadata_is_not_well_formed() {
    let mut d = sample();
    d.nodes[ROOT as usize].directory = d.directories.len() as u32;
    assert!(!d.well_formed());
}
