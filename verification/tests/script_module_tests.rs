use servo_components::script_module::{
    decode_source, link_descendants, script_src, Destination, DescendantFetch, ExceptionValue,
    FetchMetadata, Metadata, ModuleContext, ModuleEffect, ModuleError, ModuleMap, ModuleOwner,
    ModuleStatus, ModuleTree, ParserMetadata, Referrer, SpecifierError,
};

fn s(x: &str) -> String {
    x.to_string()
}

#[test]
fn statuses_are_ordered_as_declared() {
    assert!(ModuleStatus::Initial.is_before(&ModuleStatus::Fetching));
    assert!(ModuleStatus::FetchFailed.is_before(&ModuleStatus::FetchingDescendants));
    assert!(ModuleStatus::FetchingDescendants.is_before(&ModuleStatus::Finished));
    assert!(!ModuleStatus::Finished.is_before(&ModuleStatus::Finished));
    assert!(!ModuleStatus::Finished.is_before(&ModuleStatus::Initial));
}

#[test]
fn module_errors_compare_by_kind() {
    let net = ModuleError::Network(s("a"));
    let net2 = ModuleError::Network(s("b"));
    let exc = ModuleError::RawException(ExceptionValue::Thrown(1));
    assert!(net.eq(&net2));
    assert!(!net.eq(&exc));
    assert!(net.is_greater(&exc));
    assert!(!exc.is_greater(&net));
    assert!(!net.is_greater(&net2));
    assert!(matches!(net.clone(), ModuleError::Network(m) if m == "a"));
}

#[test]
fn module_tree_starts_empty_and_keeps_descendants_once() {
    let mut tree = ModuleTree::new(s("https://a.test/m.js"));
    assert_eq!(tree.get_status(), ModuleStatus::Initial);
    assert!(tree.get_promise().is_none());
    assert!(tree.get_record().is_none());
    assert!(tree.get_error().is_none());
    assert!(tree.get_text().is_empty());
    tree.set_status(ModuleStatus::Fetching);
    tree.set_promise(4);
    tree.set_record(5);
    tree.set_text(s("export default 1;"));
    assert_eq!(tree.get_status(), ModuleStatus::Fetching);
    assert_eq!(tree.get_promise(), Some(4));
    assert_eq!(tree.get_record(), Some(5));
    assert_eq!(tree.get_text(), "export default 1;");
    tree.append_descendant_urls(&vec![s("a"), s("b")]);
    tree.append_descendant_urls(&vec![s("b"), s("c")]);
    assert_eq!(tree.get_descendant_urls(), &vec![s("a"), s("b"), s("c")]);
}

#[test]
fn module_specifiers_resolve_like_urls() {
    let base = s("https://a.test/dir/main.js");
    assert_eq!(
        ModuleTree::resolve_module_specifier(&base, &s("./x.js")).ok(),
        Some(s("https://a.test/dir/x.js"))
    );
    assert_eq!(
        ModuleTree::resolve_module_specifier(&base, &s("../y.js")).ok(),
        Some(s("https://a.test/y.js"))
    );
    assert_eq!(
        ModuleTree::resolve_module_specifier(&base, &s("/z.js")).ok(),
        Some(s("https://a.test/z.js"))
    );
    // An absolute URL is taken as it is, serialized by the parser.
    assert_eq!(
        ModuleTree::resolve_module_specifier(&base, &s("HTTPS://B.test")).ok(),
        Some(s("https://b.test/"))
    );
    assert!(matches!(
        ModuleTree::resolve_module_specifier(&base, &s("lodash")),
        Err(SpecifierError::InvalidDomainCharacter)
    ));
    assert!(matches!(
        ModuleTree::resolve_module_specifier(&s("not a base"), &s("./x.js")),
        Err(SpecifierError::Url(_))
    ));
}

#[test]
fn requested_specifiers_resolve_to_a_set_of_urls() {
    let tree = ModuleTree::new(s("https://a.test/main.js"));
    let base = s("https://a.test/main.js");
    let urls = tree
        .resolve_requested_module_specifiers(&vec![s("./a.js"), s("/a.js"), s("./b.js")], &base)
        .ok()
        .unwrap();
    assert_eq!(urls, vec![s("https://a.test/a.js"), s("https://a.test/b.js")]);
    let err = tree.resolve_requested_module_specifiers(&vec![s("./a.js"), s("bare")], &base);
    assert!(matches!(
        err,
        Err(ModuleError::RawException(ExceptionValue::TypeError(m))) if m == "Wrong module specifier"
    ));
}

#[test]
fn module_map_stores_trees_by_url() {
    let mut map = ModuleMap::new();
    assert!(map.get(&s("u")).is_none());
    assert!(map.status_of(&s("u")).is_none());
    let mut tree = ModuleTree::new(s("u"));
    tree.set_status(ModuleStatus::Finished);
    map.set(s("u"), tree);
    assert_eq!(map.status_of(&s("u")), Some(ModuleStatus::Finished));
    let taken = map.take(&s("u")).unwrap();
    assert_eq!(taken.get_status(), ModuleStatus::Finished);
    assert!(map.get(&s("u")).is_none());
}

#[test]
fn a_new_module_is_fetched_once() {
    let mut map = ModuleMap::new();
    let owner = ModuleOwner::Window { script: 1, global: 2 };
    let (p, effects) = map.fetch_single_module_script(
        owner,
        s("https://a.test/m.js"),
        Destination::Script,
        Referrer::Client,
        ParserMetadata::NotParserInserted,
        true,
        10,
    );
    assert_eq!(p, 10);
    assert!(effects.iter().any(|e| matches!(e, ModuleEffect::Fetch { url, .. } if url == "https://a.test/m.js")));
    assert_eq!(map.status_of(&s("https://a.test/m.js")), Some(ModuleStatus::Fetching));
    // Asked again while it is fetched: the same promise, no new fetch.
    let (p2, effects2) = map.fetch_single_module_script(
        owner,
        s("https://a.test/m.js"),
        Destination::Script,
        Referrer::Client,
        ParserMetadata::NotParserInserted,
        true,
        11,
    );
    assert_eq!(p2, 10);
    assert!(!effects2.iter().any(|e| matches!(e, ModuleEffect::Fetch { .. })));
}

#[test]
fn linking_waits_for_all_descendants() {
    assert!(link_descendants(&vec![], 1, 2).is_none());
    let ds = vec![
        DescendantFetch::Existing { promise: 5, resolve: false },
        DescendantFetch::Settled { promise: 6, rejected: true },
    ];
    let (all, effect) = link_descendants(&ds, 1, 2).unwrap();
    assert_eq!(all, 2);
    assert!(matches!(effect, ModuleEffect::WaitForAll { all: 2, promises, then: 1 } if promises == vec![5, 6]));
}

fn metadata(status: Option<u16>) -> Metadata {
    Metadata { final_url: s("https://a.test/m.js"), charset: None, status }
}

#[test]
fn responses_fail_without_a_success_code() {
    let owner = ModuleOwner::Worker { worker: 1, global: 2 };
    let mut ctx = ModuleContext::new(owner, s("https://a.test/m.js"), Destination::Worker);
    ctx.process_response(Ok(FetchMetadata::Unfiltered(metadata(Some(200)))));
    assert!(ctx.status.is_ok());
    ctx.process_response_chunk(vec![1, 2]);
    ctx.process_response_chunk(vec![3]);
    assert_eq!(ctx.data, vec![1, 2, 3]);
    ctx.process_response(Ok(FetchMetadata::Filtered(metadata(Some(404)))));
    assert_eq!(ctx.status, Err(s("HTTP error code 404")));
    ctx.process_response_chunk(vec![4]);
    assert_eq!(ctx.data, vec![1, 2, 3]);
    ctx.process_response(Ok(FetchMetadata::Unfiltered(metadata(None))));
    assert_eq!(ctx.status, Err(s("No http status code received")));
    ctx.process_response(Err(s("network down")));
    assert!(ctx.metadata.is_none());
    assert_eq!(ctx.status, Err(s("No http status code received")));
}

#[test]
fn bodies_are_decoded_in_their_charset() {
    assert_eq!(decode_source(&Some(s("latin1")), &vec![0x63, 0x61, 0x66, 0xE9]), "caf\u{e9}");
    assert_eq!(decode_source(&None, &vec![0x63, 0xC3, 0xA9]), "c\u{e9}");
    assert_eq!(decode_source(&Some(s("no such charset")), &vec![0xFF]), "\u{FFFD}");
}

#[test]
fn script_src_resolves_against_the_base() {
    let base = s("https://a.test/dir/page.html");
    assert_eq!(script_src(&Some(s("m.js")), &base), Some(s("https://a.test/dir/m.js")));
    assert_eq!(script_src(&None, &base), None);
    assert_eq!(script_src(&Some(s("https://[bad")), &base), None);
}
