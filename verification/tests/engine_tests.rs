use pathquery::cache::CacheManager;
use pathquery::checkers::Checker;
use pathquery::framing::decode_all;
use pathquery::fs_tree::FsNode;
use pathquery::matcher::{Matcher, SubstringMatcher};
use pathquery::query::{Config, QueryProcessor};
use pathquery::walker::walk;

fn file(path: &str) -> FsNode {
    FsNode { path: path.as_bytes().to_vec(), is_dir: false, is_symlink: false, children: vec![] }
}

fn dir(path: &str, children: Vec<FsNode>) -> FsNode {
    FsNode { path: path.as_bytes().to_vec(), is_dir: true, is_symlink: false, children }
}

fn config(ignore: Vec<&str>) -> Config {
    Config {
        ignore_paths: ignore.iter().map(|s| s.as_bytes().to_vec()).collect(),
        cached_roots: vec![],
        updated_roots: vec![],
    }
}

fn walked(processor: &QueryProcessor, root: FsNode) -> Vec<Vec<u8>> {
    processor.recursively_iterate(root)
}

#[test]
fn substring_matcher_behaviour() {
    let m = SubstringMatcher {};
    assert!(m.match_query(&b"a".to_vec(), &b"/top/a.txt".to_vec()));
    assert!(!m.match_query(&b"a".to_vec(), &b"/top/sub/c.txt".to_vec()));
    assert!(m.match_query(&b"".to_vec(), &b"/anything".to_vec()));
    assert!(!m.match_query(&b"longer".to_vec(), &b"bit".to_vec()));
    assert!(m.match_query(&b"c.txt".to_vec(), &b"/top/sub/c.txt".to_vec()));
}

#[test]
fn walk_single_leaf_yields_itself() {
    let qp = QueryProcessor::new(config(vec![]));
    let res = walked(&qp, file("/r/plain.txt"));
    assert_eq!(res, vec![b"/r/plain.txt".to_vec()]);
}

#[test]
fn walk_hidden_leaf_yields_nothing() {
    let qp = QueryProcessor::new(config(vec![]));
    let res = walked(&qp, file("/r/.hidden.txt"));
    assert_eq!(res, Vec::<Vec<u8>>::new());
}

#[test]
fn walk_emits_bundle_dirs_without_descending() {
    let qp = QueryProcessor::new(config(vec![]));
    let tree = dir(
        "/apps",
        vec![
            dir("/apps/Books.app", vec![file("/apps/Books.app/inner.bin")]),
            file("/apps/readme.txt"),
        ],
    );
    let mut res = walked(&qp, tree);
    res.sort();
    assert_eq!(res, vec![b"/apps/Books.app".to_vec(), b"/apps/readme.txt".to_vec()]);
}

#[test]
fn walk_prunes_hidden_subtree_whole() {
    let qp = QueryProcessor::new(config(vec![]));
    let tree = dir(
        "/r",
        vec![
            dir("/r/.git", vec![file("/r/.git/object")]),
            dir("/r/src", vec![file("/r/src/lib.rs")]),
        ],
    );
    let res = walked(&qp, tree);
    assert_eq!(res, vec![b"/r/src/lib.rs".to_vec()]);
}

#[test]
fn walk_prunes_ignored_and_symlinks_when_configured() {
    let qp = QueryProcessor::new(config(vec!["/r/skip"]));
    let mut link = file("/r/link.txt");
    link.is_symlink = true;
    let tree = dir(
        "/r",
        vec![
            dir("/r/skip", vec![file("/r/skip/a.txt")]),
            link,
            file("/r/keep.txt"),
        ],
    );
    let res = walked(&qp, tree);
    assert_eq!(res, vec![b"/r/keep.txt".to_vec()]);
}

#[test]
fn walk_twice_same_tree_same_result() {
    let qp = QueryProcessor::new(config(vec![]));
    let make = || {
        dir(
            "/r",
            vec![file("/r/a.txt"), dir("/r/sub", vec![file("/r/sub/b.txt")]), file("/r/.h")],
        )
    };
    let first = walked(&qp, make());
    let second = walked(&qp, make());
    assert_eq!(first, second);
}

#[test]
fn walk_standalone_matches_processor_walk() {
    let terms = vec![Checker::Hidden];
    let res = walk(&Checker::Bundle, &terms, file("/r/plain.txt"));
    assert_eq!(res, vec![b"/r/plain.txt".to_vec()]);
}

#[test]
fn test_walk_dir_single() {
    let processor = QueryProcessor::new(config(vec![]));
    let single_entry = dir("/System/Applications/Books.app", vec![]);
    let expected = b"/System/Applications/Books.app".to_vec();
    let res = processor.recursively_iterate(single_entry);
    assert_eq!(&expected, &res[0]);
}

#[test]
fn test_walk_dir_inside_book() {
    let processor = QueryProcessor::new(config(vec![]));
    let apps: Vec<FsNode> = (0..52)
        .map(|i| dir(&format!("/System/Applications/App{}.app", i), vec![]))
        .collect();
    let content = dir("/System/Applications", apps);
    let res = processor.recursively_iterate(content);
    assert_eq!(52, res.len());
}

#[test]
fn cache_write_then_read_round_trips() {
    let mut cache = CacheManager::new();
    assert!(cache.read_all().is_empty());
    let services = vec![
        pathquery::service::Service::new(b"/x".to_vec()),
        pathquery::service::Service::new(b"/y/z".to_vec()),
    ];
    let bytes = cache.write_all(&services).unwrap();
    assert_eq!(cache.read_all(), bytes);
    assert_eq!(decode_all(&bytes).unwrap(), vec![b"/x".to_vec(), b"/y/z".to_vec()]);
}

#[test]
fn cache_write_oversized_leaves_old_snapshot() {
    let mut cache = CacheManager::new();
    let small = vec![pathquery::service::Service::new(b"/ok".to_vec())];
    let old_bytes = cache.write_all(&small).unwrap();
    let huge = vec![pathquery::service::Service::new(vec![1u8; 65536])];
    assert!(cache.write_all(&huge).is_err());
    assert_eq!(cache.read_all(), old_bytes);
}

#[test]
fn query_end_to_end_updated_root() {
    // updated root with a plain file, a hidden file, and a subdirectory:
    // the hidden file falls to the Hidden checker, the subdirectory's file
    // falls to the matcher, not to the walk structure.
    let qp = QueryProcessor::new(config(vec![]));
    let tree = dir(
        "/top",
        vec![
            file("/top/a.txt"),
            file("/top/.b.txt"),
            dir("/top/sub", vec![file("/top/sub/c.txt")]),
        ],
    );
    let mut cache = CacheManager::new();
    let response = qp
        .query(&b"a".to_vec(), &SubstringMatcher {}, vec![], vec![tree], &mut cache)
        .unwrap();
    let records = decode_all(&response).unwrap();
    assert_eq!(records, vec![b"/top/a.txt".to_vec()]);
}

#[test]
fn query_no_cross_branch_deduplication() {
    // the same path surfaces from the cached branch and the updated branch:
    // the response carries it twice, once per branch.
    let qp = QueryProcessor::new(config(vec![]));
    let mut cache = CacheManager::new();
    let response = qp
        .query(
            &b"x".to_vec(),
            &SubstringMatcher {},
            vec![file("/shared/x.txt")],
            vec![file("/shared/x.txt")],
            &mut cache,
        )
        .unwrap();
    let records = decode_all(&response).unwrap();
    assert_eq!(records, vec![b"/shared/x.txt".to_vec(), b"/shared/x.txt".to_vec()]);
}

#[test]
fn query_miss_populates_cache_with_whole_walk() {
    // the persisted snapshot holds the whole walk of the cached roots,
    // unfiltered by the request.
    let qp = QueryProcessor::new(config(vec![]));
    let root = dir("/r", vec![file("/r/a.txt"), file("/r/b.bin")]);
    let mut cache = CacheManager::new();
    let response = qp
        .query(&b"a.txt".to_vec(), &SubstringMatcher {}, vec![root], vec![], &mut cache)
        .unwrap();
    assert_eq!(decode_all(&response).unwrap(), vec![b"/r/a.txt".to_vec()]);
    let blob = cache.read_all();
    assert_eq!(
        decode_all(&blob).unwrap(),
        vec![b"/r/a.txt".to_vec(), b"/r/b.bin".to_vec()]
    );
}

#[test]
fn query_hit_does_not_rewalk_cached_roots() {
    // first query populates the cache; the second passes entirely different
    // cached-root snapshots and still answers from the old snapshot, so no
    // cached root was re-walked.
    let qp = QueryProcessor::new(config(vec![]));
    let mut cache = CacheManager::new();
    let first_root = dir("/r", vec![file("/r/a.txt"), file("/r/b.bin")]);
    qp.query(&b"".to_vec(), &SubstringMatcher {}, vec![first_root], vec![], &mut cache)
        .unwrap();
    let changed_root = dir("/r", vec![file("/r/new.txt")]);
    let response = qp
        .query(&b"".to_vec(), &SubstringMatcher {}, vec![changed_root], vec![], &mut cache)
        .unwrap();
    assert_eq!(
        decode_all(&response).unwrap(),
        vec![b"/r/a.txt".to_vec(), b"/r/b.bin".to_vec()]
    );
    // the cache itself is unchanged by the hit
    assert_eq!(
        decode_all(&cache.read_all()).unwrap(),
        vec![b"/r/a.txt".to_vec(), b"/r/b.bin".to_vec()]
    );
}

#[test]
fn query_oversized_updated_path_is_encode_error() {
    let qp = QueryProcessor::new(config(vec![]));
    let mut cache = CacheManager::new();
    let long_name = vec![b'x'; 70000];
    let long_path = String::from_utf8(long_name).unwrap();
    let r = qp.query(
        &b"x".to_vec(),
        &SubstringMatcher {},
        vec![],
        vec![file(&long_path)],
        &mut cache,
    );
    assert!(r.is_err());
}

#[test]
fn query_corrupt_cache_is_decode_error() {
    let qp = QueryProcessor::new(config(vec![]));
    // a blob whose record declares more bytes than follow
    let mut cache = CacheManager::from_blob(vec![0, 9, 1]);
    let r = qp.query(&b"".to_vec(), &SubstringMatcher {}, vec![], vec![], &mut cache);
    assert!(r.is_err());
}
