use dirtar::request::{resolve_tail, validate_request, within_root, InvalidRequestError};
use dirtar::walk::{classify_entry, name_le, sort_children, Child, ChildKind, WalkError, WalkStep, Walker};

fn admitted() -> dirtar::request::ArchiveRequest {
    dirtar::request::validate_request(&Vec::new(), Some(Vec::new()), true).unwrap()
}

fn segs(p: &[&str]) -> Vec<Vec<u8>> {
    p.iter().map(|s| s.as_bytes().to_vec()).collect()
}

#[test]
fn dot_dot_above_root_is_refused() {
    assert_eq!(resolve_tail(b"..").unwrap_err(), InvalidRequestError::OutsideRoot);
    assert_eq!(resolve_tail(b"../etc").unwrap_err(), InvalidRequestError::OutsideRoot);
    assert_eq!(resolve_tail(b"a/../../etc").unwrap_err(), InvalidRequestError::OutsideRoot);
    assert_eq!(resolve_tail(b"a/b/../../..").unwrap_err(), InvalidRequestError::OutsideRoot);
}

#[test]
fn tail_is_normalised() {
    assert_eq!(resolve_tail(b"a/./b//").unwrap(), segs(&["a", "b"]));
    assert_eq!(resolve_tail(b"a/b/../c").unwrap(), segs(&["a", "c"]));
    assert_eq!(resolve_tail(b"").unwrap(), segs(&[]));
    assert_eq!(resolve_tail(b"a/..").unwrap(), segs(&[]));
    assert_eq!(resolve_tail(b"...").unwrap(), segs(&["..."]));
}

#[test]
fn resolved_directory_must_stay_in_root() {
    let root = segs(&["srv", "www"]);
    assert!(within_root(&root, &segs(&["srv", "www"])));
    assert!(within_root(&root, &segs(&["srv", "www", "a"])));
    assert!(!within_root(&root, &segs(&["srv"])));
    assert!(!within_root(&root, &segs(&["srv", "wwwx"])));
    assert_eq!(
        validate_request(&root, Some(segs(&["etc"])), true).err(),
        Some(InvalidRequestError::OutsideRoot)
    );
    assert_eq!(validate_request(&root, None, true).err(), Some(InvalidRequestError::NotFound));
    assert_eq!(
        validate_request(&root, Some(segs(&["srv", "www", "f"])), false).err(),
        Some(InvalidRequestError::NotADirectory)
    );
    let req = validate_request(&root, Some(segs(&["srv", "www", "d"])), true).unwrap();
    assert_eq!(req.path(), &segs(&["srv", "www", "d"]));
}

fn child(name: &str, kind: ChildKind) -> Child {
    Child { name: name.as_bytes().to_vec(), kind, size: 1, mtime: 2, mode: 0o644 }
}

#[test]
fn names_sort_by_bytes() {
    assert!(name_le(&b"a".to_vec(), &b"b".to_vec()));
    assert!(name_le(&b"a".to_vec(), &b"a".to_vec()));
    assert!(name_le(&b"a".to_vec(), &b"ab".to_vec()));
    assert!(!name_le(&b"b".to_vec(), &b"ab".to_vec()));
    assert!(name_le(&b"B".to_vec(), &b"a".to_vec()));
    let sorted = sort_children(vec![
        child("c", ChildKind::File),
        child("a", ChildKind::Directory),
        child("b.txt", ChildKind::File),
        child("B", ChildKind::File),
    ]);
    let names: Vec<Vec<u8>> = sorted.into_iter().map(|c| c.name).collect();
    assert_eq!(names, segs(&["B", "a", "b.txt", "c"]));
}

#[test]
fn walk_is_depth_first_by_name() {
    let mut w = Walker::new(&admitted());
    let mut order = Vec::new();
    loop {
        match w.next().unwrap() {
            WalkStep::Done => break,
            WalkStep::List(p) => {
                let kids = match &p[..] {
                    b"" => vec![child("z", ChildKind::File), child("d", ChildKind::Directory)],
                    b"d" => vec![child("y", ChildKind::File), child("b", ChildKind::File)],
                    _ => panic!("unexpected listing"),
                };
                w.add_listing(kids).unwrap();
            }
            WalkStep::Entry(e) => order.push(String::from_utf8(e.path).unwrap()),
        }
    }
    assert_eq!(order, vec!["d", "d/b", "d/y", "z"]);
}

#[test]
fn walk_errors() {
    let mut w = Walker::new(&admitted());
    assert_eq!(w.add_listing(Vec::new()).unwrap_err(), WalkError::OutOfOrder);
    assert!(matches!(w.next().unwrap(), WalkStep::List(_)));
    assert_eq!(w.next().err(), Some(WalkError::OutOfOrder));
    assert_eq!(
        w.add_listing(vec![child("a", ChildKind::File), child("l", ChildKind::Other)]).unwrap_err(),
        WalkError::UnsupportedEntry
    );
    let mut w = Walker::new(&admitted());
    w.next().unwrap();
    assert_eq!(w.add_listing(vec![child("a/b", ChildKind::File)]).unwrap_err(), WalkError::InvalidName);
    let mut w = Walker::new(&admitted());
    w.next().unwrap();
    assert_eq!(w.add_listing(vec![child("..", ChildKind::Directory)]).unwrap_err(), WalkError::InvalidName);
    let mut w = Walker::new(&admitted());
    w.next().unwrap();
    w.add_listing(Vec::new()).unwrap();
    assert!(matches!(w.next().unwrap(), WalkStep::Done));
}

#[test]
fn listing_order_ignores_read_order() {
    let names = ["m", "a", "zz", "b", "ab"];
    let forward: Vec<Child> = names.iter().map(|n| child(n, ChildKind::File)).collect();
    let backward: Vec<Child> = names.iter().rev().map(|n| child(n, ChildKind::File)).collect();
    let a: Vec<Vec<u8>> = sort_children(forward).into_iter().map(|c| c.name).collect();
    let b: Vec<Vec<u8>> = sort_children(backward).into_iter().map(|c| c.name).collect();
    assert_eq!(a, b);
    assert_eq!(a, segs(&["a", "ab", "b", "m", "zz"]));
}

#[test]
fn links_are_followed_only_inside_and_never_upward() {
    let root = segs(&["srv", "a"]);
    let parent = segs(&["srv", "a", "d"]);
    let inside_file = segs(&["srv", "a", "f"]);
    let outside = segs(&["etc", "passwd"]);
    let sibling_dir = segs(&["srv", "a", "e"]);
    assert_eq!(classify_entry(true, &root, &parent, &inside_file, ChildKind::File), ChildKind::File);
    assert_eq!(classify_entry(true, &root, &parent, &outside, ChildKind::File), ChildKind::Other);
    assert_eq!(classify_entry(true, &root, &parent, &sibling_dir, ChildKind::Directory), ChildKind::Directory);
    assert_eq!(classify_entry(true, &root, &parent, &root, ChildKind::Directory), ChildKind::Other);
    assert_eq!(classify_entry(true, &root, &parent, &parent, ChildKind::Directory), ChildKind::Other);
    assert_eq!(classify_entry(false, &root, &parent, &outside, ChildKind::File), ChildKind::File);
}

#[test]
fn add_listing_error_leaves_queue_and_clears_request() {
    let mut w = Walker::new(&admitted());
    w.next().unwrap();
    assert_eq!(w.add_listing(vec![child("bad/name", ChildKind::File)]).unwrap_err(), WalkError::InvalidName);
    assert!(matches!(w.next().unwrap(), WalkStep::Done));
}
