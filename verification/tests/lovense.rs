use edge_relay::lovense::{utoken, Callback, QrRequest, Toy, Toys, QR_URL};

fn toy(name: &str, id: &str, status: i32) -> Toy {
    Toy { name: name.to_string(), id: id.to_string(), status }
}

fn callback(uid: &str, toys: Vec<(&str, Toy)>) -> Callback {
    let mut map = Toys::new();
    for (k, t) in toys {
        map.insert(k.to_string(), t);
    }
    Callback { uid: uid.to_string(), domain: None, https_port: None, toys: map }
}

#[test]
fn utoken_is_md5_hex_of_uid_then_salt() {
    let expected = format!("{:x}", md5::compute("gfsalt"));
    assert_eq!(utoken("gf", "salt"), expected);
}

#[test]
fn utoken_is_32_hex_chars() {
    let t = utoken("anything", "pepper");
    assert_eq!(t.len(), 32);
    assert!(t.chars().all(|c| c.is_ascii_hexdigit() && !c.is_uppercase()));
}

#[test]
fn utoken_matches_known_md5_vector() {
    // md5("abc") == 900150983cd24fb0d6963f7d28e17f72
    assert_eq!(utoken("a", "bc"), "900150983cd24fb0d6963f7d28e17f72");
}

#[test]
fn utoken_depends_on_full_concatenation() {
    assert_ne!(utoken("a", "b"), utoken("a", "c"));
    assert_ne!(utoken("a", "b"), utoken("c", "b"));
    assert_ne!(utoken("a", "b"), utoken("b", "a"));
    assert_eq!(utoken("a", "b"), utoken("ab", ""));
}

#[test]
fn qr_request_has_expected_shape() {
    let r = QrRequest::new("TOK", "gf", "telegram", "salt");
    assert_eq!(r.token, "TOK");
    assert_eq!(r.uid, "gf");
    assert_eq!(r.uname, "telegram");
    assert_eq!(r.v, 2);
    assert_eq!(r.utoken, utoken("gf", "salt"));
}

#[test]
fn qr_url_is_get_qr_endpoint() {
    assert_eq!(QR_URL, "https://api.lovense.com/api/lan/getQrCode");
}

#[test]
fn parses_callback_with_online_toy() {
    let mut cb = callback("gf", vec![("abc", toy("max", "abc", 1))]);
    cb.domain = Some("192-168-1-44.lovense.club".to_string());
    cb.https_port = Some("34568".to_string());
    assert_eq!(cb.uid, "gf");
    assert_eq!(cb.domain.as_deref(), Some("192-168-1-44.lovense.club"));
    assert_eq!(cb.https_port.as_deref(), Some("34568"));
    assert_eq!(cb.online_toys().len(), 1);
    assert_eq!(cb.online_toys()[0].name, "max");
    assert_eq!(cb.online_toys()[0].id, "abc");
}

#[test]
fn online_toys_filters_offline() {
    let cb = callback("x", vec![("a", toy("lush", "a", 0)), ("b", toy("max", "b", 1))]);
    assert_eq!(cb.toys.len(), 2);
    let online = cb.online_toys();
    assert_eq!(online.len(), 1);
    assert_eq!(online[0].id, "b");
}

#[test]
fn online_toys_empty_when_all_offline() {
    let cb = callback("x", vec![("a", toy("", "", 0))]);
    assert!(cb.online_toys().is_empty());
}

#[test]
fn callback_tolerates_missing_optional_fields() {
    let cb = callback("x", vec![]);
    assert_eq!(cb.uid, "x");
    assert!(cb.domain.is_none());
    assert!(cb.https_port.is_none());
    assert!(cb.toys.is_empty());
    assert!(cb.online_toys().is_empty());
}

#[test]
fn toy_defaults_fill_missing_fields() {
    let cb = callback("x", vec![("k", toy("", "", 1))]);
    let t = cb.toys.get("k").unwrap();
    assert_eq!(t.name, "");
    assert_eq!(t.id, "");
    assert_eq!(t.status, 1);
}

#[test]
fn online_toys_ignores_other_status_values() {
    let cb = callback(
        "x",
        vec![("a", toy("a", "a", 2)), ("b", toy("b", "b", -1)), ("c", toy("c", "c", 1)), ("d", toy("d", "d", 1))],
    );
    let ids: Vec<&str> = cb.online_toys().iter().map(|t| t.id.as_str()).collect();
    assert_eq!(ids, vec!["c", "d"]);
}

#[test]
fn inserting_an_existing_key_replaces_its_toy() {
    let mut toys = Toys::new();
    toys.insert("k".to_string(), toy("old", "k", 0));
    toys.insert("j".to_string(), toy("other", "j", 0));
    toys.insert("k".to_string(), toy("new", "k", 1));
    assert_eq!(toys.len(), 2);
    assert_eq!(toys.get("k").unwrap().name, "new");
    assert_eq!(toys.get("j").unwrap().name, "other");
    assert!(toys.get("missing").is_none());
    let copy = toys.clone();
    assert_eq!(copy, toys);
}

#[test]
fn utoken_hashes_utf8_bytes() {
    let expected = format!("{:x}", md5::compute("ü".as_bytes()));
    assert_eq!(utoken("", "ü"), expected);
    assert_eq!(utoken("ü", ""), expected);
    // md5("") == d41d8cd98f00b204e9800998ecf8427e
    assert_eq!(utoken("", ""), "d41d8cd98f00b204e9800998ecf8427e");
}

#[test]
fn callbacks_with_the_same_toys_compare_equal_in_any_order() {
    let a = callback("x", vec![("a", toy("lush", "a", 0)), ("b", toy("max", "b", 1))]);
    let b = callback("x", vec![("b", toy("max", "b", 1)), ("a", toy("lush", "a", 0))]);
    assert_eq!(a, b);
    assert_eq!(a.toys, b.toys);
    let c = callback("x", vec![("b", toy("max", "b", 0)), ("a", toy("lush", "a", 0))]);
    assert_ne!(a, c);
    let d = callback("x", vec![("a", toy("lush", "a", 0))]);
    assert_ne!(a, d);
    let e = callback("x", vec![("a", toy("lush", "a", 0)), ("c", toy("max", "b", 1))]);
    assert_ne!(a, e);
}
