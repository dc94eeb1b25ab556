use servo_components::origin::{
    next_opaque_id, starts_with, string_is, OpaqueIds, Origin, OriginRepresentation,
    OriginTainted, UrlParts,
};
use servo_components::string_map::StringMap;

fn url(scheme: &str, host: Option<&str>, port: Option<u16>, path: &str, serialization: &str) -> UrlParts {
    UrlParts {
        scheme: scheme.to_string(),
        host: host.map(|h| h.to_string()),
        port,
        path: path.to_string(),
        serialization: serialization.to_string(),
    }
}

fn https(host: &str) -> UrlParts {
    url("https", Some(host), Some(443), "/", &format!("https://{}/", host))
}

fn tuple_of(o: &Origin) -> Option<(String, String, u16)> {
    let mut r = o.repr();
    while let OriginRepresentation::Alias(inner) = r {
        r = inner;
    }
    match r {
        OriginRepresentation::Tuple { scheme, host, port } => Some((scheme.clone(), host.clone(), *port)),
        _ => None,
    }
}

#[test]
fn http_urls_have_tuple_origins() {
    let mut ids = OpaqueIds::new();
    let a = Origin::from_url(&https("a.test"), &mut ids);
    let b = Origin::from_url(&https("a.test"), &mut ids);
    let c = Origin::from_url(&https("b.test"), &mut ids);
    assert_eq!(tuple_of(&a), Some(("https".to_string(), "a.test".to_string(), 443)));
    assert!(a.same_origin(&b));
    assert!(!a.same_origin(&c));
    // No opaque identifier was used up.
    assert_eq!(next_opaque_id(&mut ids), 0);
}

#[test]
fn other_schemes_get_fresh_opaque_origins() {
    let mut ids = OpaqueIds::new();
    let data = url("data", None, None, "text/plain,x", "data:text/plain,x");
    let a = Origin::from_url(&data, &mut ids);
    let b = Origin::from_url(&data, &mut ids);
    assert!(tuple_of(&a).is_none());
    assert!(!a.same_origin(&b));
    assert!(a.same_origin(&a));
    assert!(matches!(a.repr(), OriginRepresentation::OpaqueIdentifier { id: 0, .. }));
    assert!(matches!(b.repr(), OriginRepresentation::OpaqueIdentifier { id: 1, .. }));
}

#[test]
fn blob_urls_have_the_origin_of_their_inner_url() {
    let mut ids = OpaqueIds::new();
    let blob = url(
        "blob",
        None,
        None,
        "https://a.test/2b7c9e1e-7d7a-4d0c-8d55-1c4b5d7b0f11",
        "blob:https://a.test/2b7c9e1e-7d7a-4d0c-8d55-1c4b5d7b0f11",
    );
    let o = Origin::from_url(&blob, &mut ids);
    assert_eq!(tuple_of(&o), Some(("https".to_string(), "a.test".to_string(), 443)));
    assert!(o.same_origin(&Origin::from_url(&https("a.test"), &mut ids)));
    // The inner URL may serialize longer than the blob URL's path.
    let short = url("blob", None, None, "http://1", "blob:http://1");
    let o = Origin::from_url(&short, &mut ids);
    assert_eq!(tuple_of(&o), Some(("http".to_string(), "0.0.0.1".to_string(), 80)));
    let nested = url("blob", None, None, "blob:https://a.test/x", "blob:blob:https://a.test/x");
    let o = Origin::from_url(&nested, &mut ids);
    assert_eq!(tuple_of(&o), Some(("https".to_string(), "a.test".to_string(), 443)));
    let bad = url("blob", None, None, "not a url", "blob:not a url");
    let o = Origin::from_url(&bad, &mut ids);
    assert!(tuple_of(&o).is_none());
}

#[test]
fn aliases_are_the_same_origin() {
    let mut ids = OpaqueIds::new();
    let a = Origin::from_url(&https("a.test"), &mut ids);
    let alias = a.alias();
    assert!(alias.same_origin(&a));
    assert!(a.same_origin(&alias.alias()));
    let opaque = Origin::opaque_identifier(&https("a.test"), &mut ids);
    assert!(opaque.alias().same_origin(&opaque));
    assert!(!opaque.same_origin(&a));
}

#[test]
fn tainted_data_is_only_for_its_origin() {
    let mut ids = OpaqueIds::new();
    let a = Origin::from_url(&https("a.test"), &mut ids);
    let b = Origin::from_url(&https("b.test"), &mut ids);
    let mut t = OriginTainted::new(Origin::from_url(&https("a.test"), &mut ids), 42);
    assert_eq!(t.access(&a), Some(&42));
    assert_eq!(t.access(&b), None);
    t.taint(&https("a.test"), &mut ids);
    assert_eq!(t.access(&a), None);
    let later = Origin::opaque_identifier(&https("a.test"), &mut ids);
    assert_eq!(t.access(&later), None);
    assert_eq!(t.access(&b.alias()), None);
    assert_eq!(*t.bypass_same_origin_check(), 42);
}

#[test]
fn string_helpers() {
    assert!(starts_with("target5", "target"));
    assert!(!starts_with("tar", "target"));
    assert!(starts_with("x", ""));
    assert!(string_is(&"abc".to_string(), "abc"));
    assert!(!string_is(&"abc".to_string(), "ab"));
}

#[test]
fn string_maps_keep_one_value_per_key() {
    let mut m = StringMap::new();
    assert!(m.is_empty());
    m.insert("a".to_string(), 1);
    m.insert("b".to_string(), 2);
    m.insert("a".to_string(), 3);
    assert_eq!(m.len(), 2);
    assert_eq!(m.get(&"a".to_string()), Some(&3));
    assert!(m.contains_key(&"b".to_string()));
    assert_eq!(m.remove(&"b".to_string()), Some(2));
    assert_eq!(m.remove(&"b".to_string()), None);
    assert!(!m.contains_key(&"b".to_string()));
    assert_eq!(m.len(), 1);
}

#[test]
fn origins_of_gopher_urls_need_a_host_and_port() {
    let mut ids = OpaqueIds::new();
    let no_port = url("gopher", Some("a.test"), None, "/", "gopher://a.test/");
    assert!(Origin::from_url_checked(&no_port, &mut ids).is_none());
    let wrapped = url("blob", None, None, "gopher://a.test/", "blob:gopher://a.test/");
    assert!(Origin::from_url_checked(&wrapped, &mut ids).is_none());
    let with_port = url("gopher", Some("a.test"), Some(70), "/", "gopher://a.test:70/");
    let o = Origin::from_url_checked(&with_port, &mut ids).unwrap();
    assert_eq!(tuple_of(&o), Some(("gopher".to_string(), "a.test".to_string(), 70)));
    let data = url("data", None, None, "x", "data:x");
    let o = Origin::from_url_checked(&data, &mut ids).unwrap();
    assert!(matches!(o.repr(), OriginRepresentation::OpaqueIdentifier { id: 0, .. }));
}
