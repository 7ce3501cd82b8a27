use vlur::runtimepath::RuntimePath;
use vlur::runtimepath::package_filter;
use vlur::runtimepath::strip_prefix;

#[test]
fn runtimepath_new() {
    let rtp = RuntimePath::new("/foo/bar,/baz/foobar,/foo/bar/after,/baz/foobar/after");
    assert_eq!(rtp.split_pos(), 20);
}

#[test]
fn runtimepath_new_without_after() {
    let rtp = RuntimePath::new("/foo/bar,/baz/foobar");
    assert_eq!(rtp.split_pos(), 20);
}

#[test]
fn runtimepath_new_only_after() {
    let rtp = RuntimePath::new("/foo/bar/after,/baz/foobar/after");
    assert_eq!(rtp.split_pos(), 0);
}

#[test]
fn runtimepath_package_filter() {
    assert!(package_filter("start/foo"));
    assert!(package_filter("start/foo/after"));
    assert!(package_filter("pack/pkg/start/plg"));
    assert!(package_filter("pack/pkg/start/plg/after"));
    assert!(!package_filter("opt/foo"));
    assert!(!package_filter("pack/pkg/opt/plg"));
    assert!(!package_filter("query/vim"));
    assert!(!package_filter("pack/pkg/start/plg/after/foo/bar"));
}

#[test]
fn runtimepath_push() {
    let mut rtp = RuntimePath::new("/foo/bar,/foo/bar/after");
    assert_eq!(rtp.split_pos(), 8);
    rtp.push("/baz", false);
    rtp.push("/baz/after", true);
    assert_eq!(rtp.render().as_str(), "/baz,/foo/bar,/foo/bar/after,/baz/after");
    assert_eq!(rtp.split_pos(), 13);

    let mut rtp = RuntimePath::new("");
    rtp.push("/baz", false);
    assert_eq!(rtp.render().as_str(), "/baz");
    assert_eq!(rtp.split_pos(), 4);

    let mut rtp = RuntimePath::new("");
    rtp.push("/baz/after", true);
    assert_eq!(rtp.render().as_str(), "/baz/after");
    assert_eq!(rtp.split_pos(), 0);
}

#[test]
fn runtimepath_add_assign() {
    let mut rtp = RuntimePath::new("/foo/bar,/foo/bar/after");
    assert_eq!(rtp.split_pos(), 8);

    let other = RuntimePath::new("/path");
    assert_eq!(other.split_pos(), 5);
    rtp.merge(&other);
    assert_eq!(rtp.render().as_str(), "/path,/foo/bar,/foo/bar/after");
    assert_eq!(rtp.split_pos(), 14);

    let other = RuntimePath::new("/baz,/baz/after");
    assert_eq!(other.split_pos(), 4);
    rtp.merge(&other);
    assert_eq!(
        rtp.render().as_str(),
        "/baz,/path,/foo/bar,/foo/bar/after,/baz/after"
    );
    assert_eq!(rtp.split_pos(), 19);
}

#[test]
fn strip_prefix_for_windows() {
    assert!(strip_prefix("foo", "").is_some());
    assert_eq!(
        strip_prefix("/foo/bar/baz", "/foo"),
        Some("bar/baz".to_string())
    );
    assert_eq!(
        strip_prefix("C:\\Users\\foo\\some/path", "\\\\?\\C:\\Users\\"),
        Some("foo/some/path".to_string())
    );
    assert_eq!(
        strip_prefix("\\\\?\\C:\\Users\\foo\\some\\path", "C:/Users/"),
        Some("foo/some/path".to_string())
    );
}

// Merging B and then C into A puts C's primary entries ahead of B's and
// A's, and C's overlay entries after B's and A's.
#[test]
fn merge_priority_order() {
    let mut a = RuntimePath::new("a1,a1/after");
    let b = RuntimePath::new("b1,b1/after");
    let c = RuntimePath::new("c1,c1/after");
    a.merge(&b);
    a.merge(&c);
    assert_eq!(a.render().as_str(), "c1,b1,a1,a1/after,b1/after,c1/after");
}

// Pushing an empty entry changes nothing, for either region.
#[test]
fn push_empty_is_noop() {
    let mut rtp = RuntimePath::new("/foo,/foo/after");
    rtp.push("", false);
    rtp.push("", true);
    assert_eq!(rtp.render().as_str(), "/foo,/foo/after");
    assert_eq!(rtp.split_pos(), 4);

    let mut empty = RuntimePath::new("");
    empty.push("", true);
    assert_eq!(empty.render().as_str(), "");
}

#[test]
fn strip_prefix_mismatch() {
    assert_eq!(strip_prefix("/foo/bar", "/baz"), None);
    assert_eq!(strip_prefix("/foo", "/foo/bar/baz"), None);
}

#[test]
fn text_split_and_join() {
    let parts = vlur::text::split_on("a,,b", ',');
    assert_eq!(parts.len(), 3);
    assert_eq!(parts[0].as_str(), "a");
    assert_eq!(parts[1].as_str(), "");
    assert_eq!(parts[2].as_str(), "b");
    let joined = vlur::text::join_with(&parts, ',');
    assert_eq!(joined.as_str(), "a,,b");
}

// Parsing a serialized value and rendering it back is the identity.
#[test]
fn parse_render_round_trip() {
    for s in [
        "/foo/bar,/baz/foobar,/foo/bar/after,/baz/foobar/after",
        "/a,,b",
        "/only",
    ] {
        assert_eq!(RuntimePath::new(s).render().as_str(), s);
    }
}
