//! Path grammar and navigation.

use xenstored::path::Path;

#[test]
#[should_panic]
fn empty_path() {
    Path::try_from(0, "").unwrap();
}

#[test]
#[should_panic]
fn doubled_slash() {
    Path::try_from(0, "/root//bar").unwrap();
}

#[test]
#[should_panic]
fn trailing_slash() {
    Path::try_from(0, "/root/").unwrap();
}

#[test]
#[should_panic]
fn long_relative() {
    let mut s = String::new();
    for _ in 0..(2048 + 1) {
        s.push('a');
    }

    Path::try_from(1, &s).unwrap();
}

#[test]
fn max_relative() {
    let mut s = String::new();
    for _ in 0..2048 {
        s.push('a');
    }

    Path::try_from(1, &s).unwrap();
}

#[test]
#[should_panic]
fn long_absolute() {
    let mut s = String::from("/");
    for _ in 1..(3072 + 1) {
        s.push('a');
    }

    Path::try_from(1, &s).unwrap();
}

#[test]
fn max_absolute() {
    let mut s = String::from("/");
    for _ in 1..3072 {
        s.push('a');
    }

    Path::try_from(1, &s).unwrap();
}

#[test]
fn path_is_child() {
    let root = Path::try_from(0, "/").unwrap();
    let child = Path::try_from(0, "/root/filesystem/test").unwrap();
    let parent = child.parent().unwrap();
    let grandparent = parent.parent().unwrap();

    assert_eq!(child.is_child(&parent), true);
    assert_eq!(parent.is_child(&child), false);

    assert_eq!(child.is_child(&grandparent), true);
    assert_eq!(child.is_child(&root), true);
}

#[test]
fn path_iterator() {
    let path = Path::try_from(0, "/root/filesystem/test").unwrap();
    let mut iter = path.into_iter();

    assert_eq!(
        iter.next(),
        Some(Path::try_from(0, "/root/filesystem/test").unwrap())
    );
    assert_eq!(
        iter.next(),
        Some(Path::try_from(0, "/root/filesystem").unwrap())
    );
    assert_eq!(iter.next(), Some(Path::try_from(0, "/root").unwrap()));
    assert_eq!(iter.next(), Some(Path::try_from(0, "/").unwrap()));
    assert_eq!(iter.next().is_none(), true);
}

#[test]
fn relative_paths_live_under_the_domain_home() {
    let p = Path::try_from(7, "foo/bar").unwrap();
    let q = Path::try_from(0, "/local/domain/7/foo/bar").unwrap();
    assert_eq!(p, q);
    assert_eq!(p.render(), "/local/domain/7/foo/bar");
}

#[test]
fn render_root() {
    let root = Path::try_from(0, "/").unwrap();
    assert_eq!(root.render(), "/");
    assert!(root.is_root());
    assert!(root.basename().is_none());
    assert!(root.parent().is_none());
}

#[test]
fn basename_and_push() {
    let p = Path::try_from(0, "/a/b").unwrap();
    assert_eq!(p.basename().unwrap(), "b");
    let q = p.push("c");
    assert_eq!(q.render(), "/a/b/c");
    assert_eq!(q.depth(), 3);
    assert_eq!(q.component(0), "a");
}

#[test]
fn get_domain_path_components() {
    let p = xenstored::path::get_domain_path(3);
    assert_eq!(p.render(), "/local/domain/3");
}

#[test]
fn is_child() {
    let root = Path::try_from(0, "/").unwrap();
    let child = Path::try_from(0, "/root/filesystem/test").unwrap();
    let parent = child.parent().unwrap();
    let grandparent = parent.parent().unwrap();

    assert_eq!(child.is_child(&parent), true);
    assert_eq!(parent.is_child(&child), false);

    assert_eq!(child.is_child(&grandparent), true);
    assert_eq!(child.is_child(&root), true);
}

#[test]
fn iterator() {
    let path = Path::try_from(0, "/root/filesystem/test").unwrap();
    let mut iter = path.into_iter();

    assert_eq!(
        iter.next(),
        Some(Path::try_from(0, "/root/filesystem/test").unwrap())
    );
    assert_eq!(
        iter.next(),
        Some(Path::try_from(0, "/root/filesystem").unwrap())
    );
    assert_eq!(iter.next(), Some(Path::try_from(0, "/root").unwrap()));
    assert_eq!(iter.next(), Some(Path::try_from(0, "/").unwrap()));
    assert_eq!(iter.next().is_none(), true);
}
