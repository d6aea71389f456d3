use dust::matcher::PathMatcher;
use dust::scanner::collect_matching_folders;
use dust::tree::{node_path, FsTree};

fn seg(s: &str) -> Vec<u8> {
    s.as_bytes().to_vec()
}

fn add_dir(t: &mut FsTree, parent: usize, name: &str) -> usize {
    t.add_entry(parent, seg(name), true, 0, true).unwrap()
}

fn add_file(t: &mut FsTree, parent: usize, name: &str, size: u64) -> usize {
    t.add_entry(parent, seg(name), false, size, true).unwrap()
}

fn sorted(mut v: Vec<usize>) -> Vec<usize> {
    v.sort();
    v
}

#[test]
fn end_to_end_nested_artifacts() {
    // /proj with /proj/src/obj, /proj/obj/bin and /proj/README.md:
    // the scan reports src/obj and obj, never obj/bin or the README.
    let mut t = FsTree::new_root(true);
    let src = add_dir(&mut t, 0, "src");
    let obj = add_dir(&mut t, 0, "obj");
    add_file(&mut t, 0, "README.md", 10);
    let src_obj = add_dir(&mut t, src, "obj");
    add_dir(&mut t, obj, "bin");
    let m = PathMatcher::defaults();
    let found = collect_matching_folders(&t, &m);
    assert_eq!(sorted(found.clone()), sorted(vec![src_obj, obj]));
    assert_eq!(node_path(&t, src_obj), vec![seg("src"), seg("obj")]);
    assert_eq!(node_path(&t, obj), vec![seg("obj")]);
}

#[test]
fn scan_is_idempotent() {
    let mut t = FsTree::new_root(true);
    let a = add_dir(&mut t, 0, "a");
    add_dir(&mut t, a, "bin");
    add_dir(&mut t, 0, "node_modules");
    let m = PathMatcher::defaults();
    let first = collect_matching_folders(&t, &m);
    let second = collect_matching_folders(&t, &m);
    assert_eq!(sorted(first), sorted(second));
}

#[test]
fn matching_is_case_insensitive() {
    let mut t = FsTree::new_root(true);
    let upper = add_dir(&mut t, 0, "BIN");
    let mixed = add_dir(&mut t, 0, "Node_Modules");
    let m = PathMatcher::defaults();
    let found = collect_matching_folders(&t, &m);
    assert_eq!(sorted(found), sorted(vec![upper, mixed]));
}

#[test]
fn no_result_is_prefix_of_another() {
    let mut t = FsTree::new_root(true);
    let a = add_dir(&mut t, 0, "a");
    let a_obj = add_dir(&mut t, a, "obj");
    add_dir(&mut t, a_obj, "bin");
    let b = add_dir(&mut t, 0, "bin");
    add_dir(&mut t, b, "obj");
    let m = PathMatcher::defaults();
    let found = collect_matching_folders(&t, &m);
    let paths: Vec<Vec<Vec<u8>>> = found.iter().map(|&i| node_path(&t, i)).collect();
    for (x, p) in paths.iter().enumerate() {
        for (y, q) in paths.iter().enumerate() {
            if x != y {
                assert!(!(p.len() <= q.len() && q[..p.len()] == p[..]));
            }
        }
    }
    assert_eq!(sorted(found), sorted(vec![a_obj, b]));
}

#[test]
fn unreadable_directory_is_skipped() {
    let mut t = FsTree::new_root(true);
    let locked = t.add_entry(0, seg("locked"), true, 0, false).unwrap();
    t.add_entry(locked, seg("bin"), true, 0, true).unwrap();
    let visible = add_dir(&mut t, 0, "obj");
    let m = PathMatcher::defaults();
    let found = collect_matching_folders(&t, &m);
    assert_eq!(found, vec![visible]);
}

#[test]
fn root_itself_never_matches() {
    // Even when every child is a file, a matching child directory is the
    // only thing ever reported; the root (index 0) is not.
    let mut t = FsTree::new_root(true);
    let bin = add_dir(&mut t, 0, "bin");
    let m = PathMatcher::defaults();
    let found = collect_matching_folders(&t, &m);
    assert!(!found.contains(&0));
    assert_eq!(found, vec![bin]);
}

#[test]
fn files_named_like_artifacts_are_ignored() {
    let mut t = FsTree::new_root(true);
    add_file(&mut t, 0, "bin", 5);
    add_file(&mut t, 0, "obj", 7);
    let m = PathMatcher::defaults();
    let found = collect_matching_folders(&t, &m);
    assert!(found.is_empty());
}

#[test]
fn duplicate_sibling_names_are_rejected_by_the_builder() {
    let mut t = FsTree::new_root(true);
    add_dir(&mut t, 0, "src");
    assert!(t.add_entry(0, seg("src"), true, 0, true).is_none());
    assert!(t.add_entry(7, seg("late"), true, 0, true).is_none());
}
