use vhost_router::label::{is_token, same_bytes};
use vhost_router::router::Router;
use vhost_router::segments::normalize;

fn router() -> Router<u32> {
    let mut builder = Router::builder();
    assert!(!builder.push(b"localhost", b"", 1));
    assert!(!builder.push(b"localhost", b"/subdir/", 2));
    assert!(!builder.push(b"localhost", b"/subdir/subsub", 3));
    assert!(!builder.push(b"example.com", b"/", 4));
    assert!(builder.push(b"example.com", b"", 5));
    assert!(builder.push(b"localhost", b"subdir", 6));
    builder.build()
}

#[test]
fn router_finds_the_longest_path() {
    let router = router();
    assert_eq!(router.lookup(b"localhost", b"/"), Some((&1, Some(&b"/"[..]))));
    assert_eq!(router.lookup(b"localhost", b""), Some((&1, None)));
    assert_eq!(router.lookup(b"localhost", b"/file"), Some((&1, Some(&b"/file"[..]))));
    assert_eq!(router.lookup(b"localhost", b"/subdir"), Some((&6, None)));
    assert_eq!(router.lookup(b"localhost", b"/subdir/"), Some((&6, Some(&b"/"[..]))));
    assert_eq!(router.lookup(b"localhost", b"/subdir_xyz"), Some((&1, Some(&b"/subdir_xyz"[..]))));
    assert_eq!(router.lookup(b"localhost", b"/subdir/subsub/xyz"), Some((&3, Some(&b"/xyz"[..]))));
    assert_eq!(router.lookup(b"example.com", b"/a/b"), Some((&5, Some(&b"/a/b"[..]))));
}

#[test]
fn router_keeps_the_tail_byte_for_byte() {
    let router = router();
    assert_eq!(
        router.lookup(b"localhost", b"//subdir///xyz//"),
        Some((&6, Some(&b"///xyz//"[..])))
    );
    assert_eq!(
        router.lookup(b"localhost", b"/subdir/xyz"),
        Some((&6, Some(&b"/xyz"[..])))
    );
    assert_eq!(
        router.lookup(b"localhost", b"///subdir//subsub"),
        Some((&3, None))
    );
}

#[test]
fn router_knows_no_other_hosts() {
    let router = router();
    assert_eq!(router.lookup(b"example.net", b"/"), None);
    assert_eq!(router.lookup(b"local", b"/"), None);
    assert_eq!(router.lookup(b"localhost/subdir", b"/"), None);
    assert_eq!(router.lookup(b"", b"/localhost"), None);
    assert_eq!(router.lookup(b"subdir", b"/"), None);
}

#[test]
fn try_push_tells_what_push_would() {
    let mut builder = Router::builder();
    assert_eq!(builder.try_push(b"host", b"/a//b/", 1u8), Some(false));
    assert_eq!(builder.try_push(b"host", b"a/b", 2u8), Some(true));
    let router = builder.build();
    assert_eq!(router.lookup(b"host", b"/a/b/c"), Some((&2, Some(&b"/c"[..]))));
    assert_eq!(router.lookup(b"host", b"/a"), None);
}

#[test]
fn tokens_are_single_segments() {
    assert!(is_token(b"example.com"));
    assert!(is_token(b"[::1]:8080"));
    assert!(!is_token(b""));
    assert!(!is_token(b"a/b"));
    assert!(!is_token(b"/"));
}

#[test]
fn bytes_are_compared_one_by_one() {
    assert!(same_bytes(b"", b""));
    assert!(same_bytes(b"abc", b"abc"));
    assert!(!same_bytes(b"abc", b"abd"));
    assert!(!same_bytes(b"abc", b"ab"));
}

#[test]
fn normalize_leaves_one_separator_between_segments() {
    assert_eq!(normalize(b""), b"");
    assert_eq!(normalize(b"///"), b"");
    assert_eq!(normalize(b"/a//bc/"), b"a/bc");
    assert_eq!(normalize(b"a/bc"), b"a/bc");
}
