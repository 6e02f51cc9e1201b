use std::cmp::Ordering;

use server::route::{compare_bytes, compare_text, HttpMethod, RequestPath, RouteKey};

#[test]
fn bytes_compare_lexicographically() {
    assert_eq!(compare_bytes(b"a", b"b"), Ordering::Less);
    assert_eq!(compare_bytes(b"b", b"a"), Ordering::Greater);
    assert_eq!(compare_bytes(b"", b"a"), Ordering::Less);
    assert_eq!(compare_bytes(b"ab", b"a"), Ordering::Greater);
    assert_eq!(compare_bytes(b"abc", b"abc"), Ordering::Equal);
    assert_eq!(compare_bytes(b"", b""), Ordering::Equal);
    assert_eq!(compare_bytes(b"abd", b"abc"), Ordering::Greater);
}

#[test]
fn text_compares_as_str_does() {
    let words = ["", "GET", "POST", "DELETE", "get", "/networks", "/networks/", "/Networks", "é", "e"];
    for a in words.iter() {
        for b in words.iter() {
            assert_eq!(compare_text(a, b), a.cmp(b));
        }
    }
}

#[test]
fn methods_order_by_name() {
    let get = HttpMethod::new("GET");
    let post = HttpMethod::new("POST");
    assert_eq!(get.compare(&post), Ordering::Less);
    assert_eq!(post.compare(&get), Ordering::Greater);
    assert_eq!(get.compare(&HttpMethod::new("GET")), Ordering::Equal);
    assert_eq!(get.partial_cmp(&post), Some(Ordering::Less));
    assert!(get == HttpMethod::new("GET"));
    assert!(get != post);
    assert_eq!(get.as_str(), "GET");
}

#[test]
fn keys_order_by_method_then_path() {
    let a = RouteKey::new("GET", "/z");
    let b = RouteKey::new("POST", "/a");
    let c = RouteKey::new("GET", "/a");
    assert_eq!(a.compare(&b), Ordering::Less);
    assert_eq!(c.compare(&a), Ordering::Less);
    assert_eq!(a.compare(&c), Ordering::Greater);
    assert_eq!(a.compare(&RouteKey::new("GET", "/z")), Ordering::Equal);
    assert_eq!(RequestPath::new("/networks").as_str(), "/networks");
}
