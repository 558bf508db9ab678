use pathquery::checkers::Checker;
use pathquery::fs_tree::FsNode;

fn node(path: &str, is_dir: bool, is_symlink: bool) -> FsNode {
    FsNode { path: path.as_bytes().to_vec(), is_dir, is_symlink, children: vec![] }
}

#[test]
fn test_is_hidden() {
    assert!(Checker::Hidden.is_legit(&node(".test", false, false)));
}

#[test]
fn test_is_not_hidden() {
    assert_eq!(Checker::Hidden.is_legit(&node("test/test", false, false)), false);
}

#[test]
fn hidden_final_component_only() {
    assert!(Checker::Hidden.is_legit(&node("/a/b/.c", false, false)));
    assert!(Checker::Hidden.is_legit(&node("/a/.hidden.txt", false, false)));
    assert!(!Checker::Hidden.is_legit(&node("/a/.b/c", false, false)));
    assert!(!Checker::Hidden.is_legit(&node("", false, false)));
    assert!(Checker::Hidden.is_legit(&node(".b.txt", false, false)));
}

#[test]
fn hidden_ignores_trailing_separators() {
    assert!(Checker::Hidden.is_legit(&node("a/.b/", true, false)));
    assert!(Checker::Hidden.is_legit(&node("a/.b///", true, false)));
    assert!(!Checker::Hidden.is_legit(&node("a/b/", true, false)));
    assert!(!Checker::Hidden.is_legit(&node("/", true, false)));
    assert!(!Checker::Hidden.is_legit(&node("///", true, false)));
}

#[test]
fn hidden_dot_components_have_no_stem() {
    assert!(!Checker::Hidden.is_legit(&node(".", true, false)));
    assert!(!Checker::Hidden.is_legit(&node("..", true, false)));
    assert!(!Checker::Hidden.is_legit(&node("a/..", true, false)));
    assert!(!Checker::Hidden.is_legit(&node("a/../", true, false)));
    assert!(Checker::Hidden.is_legit(&node("...", true, false)));
    assert!(Checker::Hidden.is_legit(&node("..a", true, false)));
}

#[test]
fn ignore_exact_membership() {
    let ignore = Checker::Ignore {
        paths: vec![b"/skip/me".to_vec(), b"/also/skip".to_vec()],
    };
    assert!(ignore.is_legit(&node("/skip/me", true, false)));
    assert!(ignore.is_legit(&node("/also/skip", false, false)));
    assert!(!ignore.is_legit(&node("/skip/me/child", false, false)));
    assert!(!ignore.is_legit(&node("/skip", true, false)));
}

#[test]
fn symlink_checker_reads_metadata() {
    assert!(Checker::Symlink.is_legit(&node("/any", true, true)));
    assert!(!Checker::Symlink.is_legit(&node("/any", true, false)));
}

#[test]
fn bundle_accepts_files_and_suffixed_dirs() {
    assert!(Checker::Bundle.is_legit(&node("/r/a.txt", false, false)));
    assert!(Checker::Bundle.is_legit(&node("/Applications/Books.app", true, false)));
    assert!(!Checker::Bundle.is_legit(&node("/r/sub", true, false)));
    assert!(!Checker::Bundle.is_legit(&node("/r/app", true, false)));
}
