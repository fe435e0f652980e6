use webstorage::{
    compare_keys, get_origin_as_string, KeyOrder, Locator, StorageManager, StorageReply,
    StorageRequest,
};

const A: &str = "https://a.example/";
const B: &str = "https://b.example/";

fn s(x: &str) -> String {
    x.to_string()
}

#[test]
fn scenario_set_get_remove() {
    let mut m = StorageManager::new();
    assert_eq!(m.set_item(A, s("x"), s("1")), (true, None));
    assert_eq!(m.set_item(A, s("x"), s("1")), (false, None));
    assert_eq!(m.set_item(A, s("x"), s("2")), (true, Some(s("1"))));
    assert_eq!(m.get_item(A, "x"), Some(s("2")));
    assert_eq!(m.remove_item(A, "x"), (true, Some(s("2"))));
    assert_eq!(m.length(A), 0);
}

#[test]
fn writes_stay_in_their_origin() {
    let mut m = StorageManager::new();
    assert_eq!(m.set_item(B, s("k"), s("b")), (true, None));
    assert_eq!(m.set_item(A, s("k"), s("a")), (true, None));
    assert_eq!(m.get_item(B, "k"), Some(s("b")));
    assert_eq!(m.get_item(A, "k"), Some(s("a")));
    assert_eq!(m.remove_item(A, "k"), (true, Some(s("a"))));
    assert_eq!(m.get_item(B, "k"), Some(s("b")));
    m.set_item(A, s("k"), s("a"));
    assert!(m.clear(A));
    assert_eq!(m.length(B), 1);
    assert_eq!(m.get_item("http://a.example/", "k"), None);
    assert_eq!(m.get_item("https://a.example:8443/", "k"), None);
}

#[test]
fn set_twice_same_value() {
    let mut m = StorageManager::new();
    assert_eq!(m.set_item(A, s("k"), s("v")), (true, None));
    assert_eq!(m.set_item(A, s("k"), s("v")), (false, None));
    assert_eq!(m.get_item(A, "k"), Some(s("v")));
    assert_eq!(m.length(A), 1);
}

#[test]
fn set_then_get() {
    let mut m = StorageManager::new();
    m.set_item(A, s("name"), s("value"));
    assert_eq!(m.get_item(A, "name"), Some(s("value")));
    m.set_item(A, s(""), s(""));
    assert_eq!(m.get_item(A, ""), Some(s("")));
    assert_eq!(m.length(A), 2);
}

#[test]
fn get_on_missing_origin_and_key() {
    let mut m = StorageManager::new();
    assert_eq!(m.get_item(A, "x"), None);
    assert_eq!(m.length(A), 0);
    assert_eq!(m.key(A, 0), None);
    m.set_item(A, s("x"), s("1"));
    assert_eq!(m.get_item(A, "y"), None);
}

#[test]
fn remove_absent_key() {
    let mut m = StorageManager::new();
    assert_eq!(m.remove_item(A, "x"), (false, None));
    assert_eq!(m.length(A), 0);
    m.set_item(A, s("y"), s("1"));
    assert_eq!(m.remove_item(A, "x"), (false, None));
    assert_eq!(m.length(A), 1);
    assert_eq!(m.get_item(A, "y"), Some(s("1")));
}

#[test]
fn clear_never_written_and_non_empty() {
    let mut m = StorageManager::new();
    assert!(!m.clear(A));
    assert_eq!(m.length(A), 0);
    m.set_item(A, s("a"), s("1"));
    m.set_item(A, s("b"), s("2"));
    assert!(m.clear(A));
    assert_eq!(m.length(A), 0);
    assert_eq!(m.get_item(A, "a"), None);
    assert!(!m.clear(A));
}

#[test]
fn keys_listed_in_ascending_order() {
    let mut m = StorageManager::new();
    for k in ["pear", "apple", "zebra", "Apple", "app", "é", ""] {
        m.set_item(A, s(k), s("v"));
    }
    let n = m.length(A);
    assert_eq!(n, 7);
    let keys: Vec<String> = (0..n).map(|i| m.key(A, i).unwrap()).collect();
    assert_eq!(keys, vec![s(""), s("Apple"), s("app"), s("apple"), s("pear"), s("zebra"), s("é")]);
    for i in 1..n {
        assert!(keys[i - 1] < keys[i]);
    }
    assert_eq!(m.key(A, n), None);
    assert_eq!(m.key(B, 0), None);
}

#[test]
fn key_order_after_removal() {
    let mut m = StorageManager::new();
    m.set_item(A, s("c"), s("3"));
    m.set_item(A, s("a"), s("1"));
    m.set_item(A, s("b"), s("2"));
    m.remove_item(A, "b");
    assert_eq!(m.key(A, 0), Some(s("a")));
    assert_eq!(m.key(A, 1), Some(s("c")));
    assert_eq!(m.key(A, 2), None);
}

#[test]
fn many_origins() {
    let mut m = StorageManager::new();
    for i in 0..50u32 {
        let o = format!("http://h{}.example/", (i * 37) % 50);
        m.set_item(&o, s("k"), format!("{}", i));
    }
    for i in 0..50u32 {
        let o = format!("http://h{}.example/", (i * 37) % 50);
        assert_eq!(m.get_item(&o, "k"), Some(format!("{}", i)));
        assert_eq!(m.length(&o), 1);
    }
}

#[test]
fn compare_keys_order() {
    assert!(matches!(compare_keys("a", "b"), KeyOrder::Less));
    assert!(matches!(compare_keys("b", "a"), KeyOrder::Greater));
    assert!(matches!(compare_keys("ab", "ab"), KeyOrder::Equal));
    assert!(matches!(compare_keys("a", "ab"), KeyOrder::Less));
    assert!(matches!(compare_keys("", ""), KeyOrder::Equal));
    assert!(matches!(compare_keys("z", "é"), KeyOrder::Less));
    assert!(matches!(compare_keys("\u{FFFF}", "\u{10000}"), KeyOrder::Less));
}

#[test]
fn origin_without_port() {
    let l = Locator { scheme: s("https"), host: Some(s("a.example")), port: None };
    assert_eq!(get_origin_as_string(&l), "https://a.example/");
}

#[test]
fn origin_with_port() {
    let l = Locator { scheme: s("http"), host: Some(s("localhost")), port: Some(8080) };
    assert_eq!(get_origin_as_string(&l), "http://localhost:8080/");
    let l = Locator { scheme: s("http"), host: Some(s("h")), port: Some(0) };
    assert_eq!(get_origin_as_string(&l), "http://h:0/");
    let l = Locator { scheme: s("ws"), host: Some(s("h")), port: Some(65535) };
    assert_eq!(get_origin_as_string(&l), "ws://h:65535/");
    let l = Locator { scheme: s("http"), host: Some(s("h")), port: Some(7) };
    assert_eq!(get_origin_as_string(&l), "http://h:7/");
}

#[test]
fn origin_without_host() {
    let l = Locator { scheme: s("file"), host: None, port: None };
    assert_eq!(get_origin_as_string(&l), "file:///");
    let l = Locator { scheme: s("x"), host: None, port: Some(10) };
    assert_eq!(get_origin_as_string(&l), "x://:10/");
}

#[test]
fn handle_serves_until_exit() {
    let mut m = StorageManager::new();
    assert!(m.is_running());
    let r = m.handle(StorageRequest::SetItem(s(A), s("x"), s("1")));
    assert!(matches!(r, Some(StorageReply::SetItem(true, None))));
    let r = m.handle(StorageRequest::SetItem(s(A), s("x"), s("1")));
    assert!(matches!(r, Some(StorageReply::SetItem(false, None))));
    let r = m.handle(StorageRequest::Length(s(A)));
    assert!(matches!(r, Some(StorageReply::Length(1))));
    match m.handle(StorageRequest::Key(s(A), 0)) {
        Some(StorageReply::Key(Some(k))) => assert_eq!(k, "x"),
        _ => panic!("unexpected reply"),
    }
    match m.handle(StorageRequest::GetItem(s(A), s("x"))) {
        Some(StorageReply::GetItem(Some(v))) => assert_eq!(v, "1"),
        _ => panic!("unexpected reply"),
    }
    match m.handle(StorageRequest::RemoveItem(s(A), s("x"))) {
        Some(StorageReply::RemoveItem(true, Some(v))) => assert_eq!(v, "1"),
        _ => panic!("unexpected reply"),
    }
    let r = m.handle(StorageRequest::Clear(s(A)));
    assert!(matches!(r, Some(StorageReply::Clear(false))));
    assert!(m.handle(StorageRequest::Exit).is_none());
    assert!(!m.is_running());
    assert!(m.handle(StorageRequest::Length(s(A))).is_none());
    assert!(m.handle(StorageRequest::SetItem(s(A), s("y"), s("2"))).is_none());
    assert!(!m.is_running());
    assert_eq!(m.length(A), 0);
}
