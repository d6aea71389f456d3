use dust::sizes::{calculate_folders_size, get_folder_size};
use dust::tree::FsTree;

fn seg(s: &str) -> Vec<u8> {
    s.as_bytes().to_vec()
}

#[test]
fn single_root_exact_sum() {
    let mut t = FsTree::new_root(true);
    let d = t.add_entry(0, seg("data"), true, 0, true).unwrap();
    t.add_entry(d, seg("a"), false, 100, true).unwrap();
    t.add_entry(d, seg("b"), false, 200, true).unwrap();
    let sub = t.add_entry(d, seg("deep"), true, 0, true).unwrap();
    t.add_entry(sub, seg("c"), false, 300, true).unwrap();
    assert_eq!(get_folder_size(&t, d), 600);
}

#[test]
fn disjoint_roots_sum_and_reorder() {
    let mut t = FsTree::new_root(true);
    let a = t.add_entry(0, seg("a"), true, 0, true).unwrap();
    t.add_entry(a, seg("x"), false, 11, true).unwrap();
    let b = t.add_entry(0, seg("b"), true, 0, true).unwrap();
    t.add_entry(b, seg("y"), false, 22, true).unwrap();
    let c = t.add_entry(0, seg("c"), true, 0, true).unwrap();
    t.add_entry(c, seg("z"), false, 33, true).unwrap();
    assert_eq!(get_folder_size(&t, a), 11);
    assert_eq!(get_folder_size(&t, b), 22);
    assert_eq!(get_folder_size(&t, c), 33);
    assert_eq!(calculate_folders_size(&t, &vec![a, b, c]), 66);
    assert_eq!(calculate_folders_size(&t, &vec![c, a, b]), 66);
    assert_eq!(calculate_folders_size(&t, &vec![b, c, a]), 66);
}

#[test]
fn empty_directory_is_zero() {
    let mut t = FsTree::new_root(true);
    let d = t.add_entry(0, seg("empty"), true, 0, true).unwrap();
    assert_eq!(get_folder_size(&t, d), 0);
    assert_eq!(calculate_folders_size(&t, &Vec::new()), 0);
}

#[test]
fn unreadable_entries_contribute_zero() {
    let mut t = FsTree::new_root(true);
    let d = t.add_entry(0, seg("odd"), true, 0, true).unwrap();
    t.add_entry(d, seg("ghostly"), false, 500, false).unwrap();
    let locked = t.add_entry(d, seg("locked"), true, 0, false).unwrap();
    t.add_entry(locked, seg("hidden"), false, 900, true).unwrap();
    assert_eq!(get_folder_size(&t, d), 0);
}

#[test]
fn partial_readability_counts_what_it_can() {
    let mut t = FsTree::new_root(true);
    let d = t.add_entry(0, seg("mix"), true, 0, true).unwrap();
    t.add_entry(d, seg("ok"), false, 40, true).unwrap();
    t.add_entry(d, seg("bad"), false, 60, false).unwrap();
    assert_eq!(get_folder_size(&t, d), 40);
}

#[test]
fn whole_tree_size_from_the_root() {
    let mut t = FsTree::new_root(true);
    t.add_entry(0, seg("top"), false, 1, true).unwrap();
    let d = t.add_entry(0, seg("dir"), true, 0, true).unwrap();
    t.add_entry(d, seg("inner"), false, 2, true).unwrap();
    assert_eq!(get_folder_size(&t, 0), 3);
}

#[test]
fn saturation_at_the_maximum() {
    let mut t = FsTree::new_root(true);
    let d = t.add_entry(0, seg("huge"), true, 0, true).unwrap();
    t.add_entry(d, seg("a"), false, u64::MAX, true).unwrap();
    t.add_entry(d, seg("b"), false, 1, true).unwrap();
    assert_eq!(get_folder_size(&t, d), u64::MAX);
}
