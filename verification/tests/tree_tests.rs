use everytree::model::Builder;
use everytree::tree::Tree;
use std::sync::atomic::AtomicBool;

#[test]
fn expansion_and_reveal_preserve_order_without_materializing_rows() {
    let mut b = Builder::new(100_000);
    let folder = b.folder("C:\\big").unwrap();
    let nested = b.folder("C:\\big\\nested").unwrap();
    let target = b.add_file(nested, "target", Some(999_999)).unwrap();
    for _ in 0..100_000 {
        b.add_file(folder, "file", Some(1)).unwrap();
    }
    let data = b.finish(&AtomicBool::new(false), |_, _, _| {}).unwrap();
    let mut tree = Tree::new(&data);
    assert_eq!(tree.len, 2); // drive and its folder
    let row = tree.reveal_entry(&data, target).unwrap();
    assert_eq!(tree.row(&data, row), Some((target, 3)));
    assert_eq!(tree.len, 100_004);
    assert!(tree.span_count() < 10);
    let big_row = tree.row_of(&data, folder).unwrap();
    assert_eq!(tree.row(&data, big_row).unwrap().0, folder);
    tree.toggle(&data, folder);
    assert_eq!(tree.len, 2);
    assert!(tree.row_of(&data, target).is_none());
}

#[test]
fn toggling_twice_restores_the_rows() {
    let mut b = Builder::default();
    let a = b.folder("C:\\a").unwrap();
    let inner = b.folder("C:\\a\\inner").unwrap();
    for name in ["x", "y", "z"] {
        b.add_file(inner, name, Some(2)).unwrap();
    }
    b.add_file(a, "w", Some(1)).unwrap();
    let data = b.finish(&AtomicBool::new(false), |_, _, _| {}).unwrap();
    let mut tree = Tree::new(&data);
    let before: Vec<_> = (0..tree.len).map(|i| tree.row(&data, i)).collect();
    assert_eq!(before.len(), 2);
    assert!(!tree.is_expanded(a));
    tree.toggle(&data, a);
    assert!(tree.is_expanded(a));
    assert_eq!(tree.len, 4);
    assert_eq!(tree.row(&data, 2), Some((inner, 2)));
    tree.toggle(&data, inner);
    assert_eq!(tree.len, 7);
    tree.toggle(&data, inner);
    tree.toggle(&data, a);
    let after: Vec<_> = (0..tree.len).map(|i| tree.row(&data, i)).collect();
    assert_eq!(before, after);
    assert_eq!(tree.row(&data, tree.len), None);
}

#[test]
fn rows_and_row_of_agree() {
    let mut b = Builder::default();
    let a = b.folder("C:\\a").unwrap();
    let c = b.folder("C:\\a\\c").unwrap();
    let f = b.add_file(c, "f", Some(5)).unwrap();
    b.add_file(a, "g", Some(1)).unwrap();
    let data = b.finish(&AtomicBool::new(false), |_, _, _| {}).unwrap();
    let mut tree = Tree::new(&data);
    tree.reveal_entry(&data, f).unwrap();
    for i in 0..tree.len {
        let (id, _) = tree.row(&data, i).unwrap();
        assert_eq!(tree.row_of(&data, id), Some(i));
    }
    assert_eq!(tree.reveal_entry(&data, 0), None);
    assert!(tree.is_expanded(0));
}

#[test]
fn the_row_count_matches_the_rows_and_bounds_the_runs() {
    let mut b = Builder::default();
    let a = b.folder("C:\\a").unwrap();
    let inner = b.folder("C:\\a\\inner").unwrap();
    b.add_file(inner, "x", Some(2)).unwrap();
    b.add_file(a, "w", Some(1)).unwrap();
    let data = b.finish(&AtomicBool::new(false), |_, _, _| {}).unwrap();
    let mut tree = Tree::new(&data);
    assert_eq!(tree.row_count(), tree.len);
    assert!(tree.span_count() <= tree.row_count());
    tree.toggle(&data, a);
    assert_eq!(tree.row_count(), 4);
    assert!(tree.row(&data, tree.row_count() - 1).is_some());
    assert!(tree.span_count() <= tree.row_count());
}
