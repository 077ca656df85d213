use tar_minimal::paths::{components, join, resolved_components, within};

fn comps(p: &[u8]) -> Vec<Vec<u8>> {
    components(p)
}

#[test]
fn join_cases() {
    assert_eq!(join(b"/tmp/out", b"a/b"), b"/tmp/out/a/b".to_vec());
    assert_eq!(join(b"/tmp/out/", b"a"), b"/tmp/out/a".to_vec());
    assert_eq!(join(b"", b"a"), b"a".to_vec());
    assert_eq!(join(b"/tmp/out", b"/etc"), b"/etc".to_vec());
    assert_eq!(join(b"out", b""), b"out/".to_vec());
}

#[test]
fn components_cases() {
    assert_eq!(comps(b"/a//b/./c/"), vec![b"/".to_vec(), b"a".to_vec(), b"b".to_vec(), b"c".to_vec()]);
    assert_eq!(comps(b"./a"), vec![b".".to_vec(), b"a".to_vec()]);
    assert_eq!(comps(b"."), vec![b".".to_vec()]);
    assert_eq!(comps(b".a/.."), vec![b".a".to_vec(), b"..".to_vec()]);
    assert_eq!(comps(b"a/./"), vec![b"a".to_vec()]);
    assert!(comps(b"").is_empty());
}

#[test]
fn resolved_components_cases() {
    assert_eq!(resolved_components(b"/a/../b"), vec![b"/".to_vec(), b"b".to_vec()]);
    assert_eq!(resolved_components(b"/.."), vec![b"/".to_vec()]);
    assert_eq!(resolved_components(b"../a/.."), vec![b"..".to_vec()]);
    assert_eq!(resolved_components(b"a/../../b"), vec![b"..".to_vec(), b"b".to_vec()]);
    assert_eq!(resolved_components(b"./x/./y"), vec![b"x".to_vec(), b"y".to_vec()]);
}

#[test]
fn within_cases() {
    assert!(within(b"/tmp/out/x", b"/tmp/out"));
    assert!(within(b"/tmp//out/./x", b"/tmp/out/"));
    assert!(!within(b"/tmp/outside", b"/tmp/out"));
    assert!(!within(b"/etc/passwd", b"out"));
    assert!(within(b"anything", b""));
    assert!(within(b"a", b"./a"));
    assert!(!within(b"/tmp/x/out/../evil.txt", b"/tmp/x/out"));
    assert!(within(b"/tmp/x/out/a/../b", b"/tmp/x/out"));
    assert!(!within(b"out/..", b"out"));
    assert!(!within(b"/etc/passwd", b"."));
    assert!(!within(b"./../x", b"."));
    assert!(!within(b"../x", b""));
    assert!(!within(b"a/../../x", b"a/.."));
    assert!(!within(b"../../x", b".."));
    assert!(within(b"../x", b".."));
    assert!(!within(b"out", b"/"));
    assert!(within(b"/etc", b"/"));
}

#[test]
fn plain_relative_join_stays_under_base() {
    for base in [&b"/tmp/out"[..], b"/tmp/out/", b"/", b"", b".", b"./x", b"rel", b"../up"] {
        for name in [&b"a"[..], b"", b"./b", b"x//y", b".hidden/z"] {
            assert!(within(&join(base, name), base));
        }
    }
}
