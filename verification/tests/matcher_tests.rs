use dust::matcher::PathMatcher;

fn seg(s: &str) -> Vec<u8> {
    s.as_bytes().to_vec()
}

#[test]
fn default_names_match_case_insensitively() {
    let m = PathMatcher::defaults();
    assert!(m.matches_name(&seg("bin")));
    assert!(m.matches_name(&seg("BIN")));
    assert!(m.matches_name(&seg("Obj")));
    assert!(m.matches_name(&seg("node_modules")));
    assert!(m.matches_name(&seg("NODE_MODULES")));
}

#[test]
fn other_names_do_not_match() {
    let m = PathMatcher::defaults();
    assert!(!m.matches_name(&seg("")));
    assert!(!m.matches_name(&seg("binx")));
    assert!(!m.matches_name(&seg("srcbin")));
    assert!(!m.matches_name(&seg("objects")));
    assert!(!m.matches_name(&seg("node-modules")));
}

#[test]
fn only_the_final_segment_decides() {
    let m = PathMatcher::defaults();
    assert!(m.matches(&vec![seg("src"), seg("obj")]));
    assert!(m.matches(&vec![seg("obj")]));
    assert!(!m.matches(&vec![seg("obj"), seg("src")]));
    assert!(!m.matches(&Vec::new()));
}

#[test]
fn custom_names() {
    let m = PathMatcher::new(vec![seg("target"), seg("dist")]);
    assert!(m.matches_name(&seg("Target")));
    assert!(m.matches_name(&seg("dist")));
    assert!(!m.matches_name(&seg("bin")));
}
