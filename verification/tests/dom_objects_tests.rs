use servo_components::browsing_context::{BrowsingContext, SessionHistoryEntry};
use servo_components::event_target::{
    prepare_dispatch, EventFlags, CompiledEventListener, DispatchError, EventTarget, HandlerId,
    InlineEventListener, ListenerId, ListenerPhase,
};
use servo_components::fragment::{
    BaseFragment, BaseFragmentInfo, FragmentFlags, HoistedSharedFragment, HtmlElementInfo,
    LayoutNodeInfo, PhysicalRect, PseudoElement, PseudoElementChain, Tag,
};
use servo_components::realms::{AlreadyInRealm, EnteredRealm, InRealm};
use servo_components::settings_stack::{
    entry_global, is_execution_stack_empty, ScriptSettingsStack, StackEntry, StackEntryKind,
};
use servo_components::shared_workers::{
    shared_worker_request, SharedWorkerError, SharedWorkerManager, StringOrWorkerOptions,
};
use servo_components::webcrypto::{
    get_random_values, is_integer_buffer, random_uuid, ArrayType, CryptoError, InterfaceError,
    PromiseState, RTCRtpSender,
};

fn ty(s: &str) -> String {
    s.to_string()
}

#[test]
fn adding_a_listener_twice_adds_it_once() {
    let mut target = EventTarget::new_inherited();
    assert!(!target.has_handlers());
    target.add_event_listener(ty("click"), Some(ListenerId(1)), false);
    target.add_event_listener(ty("click"), Some(ListenerId(1)), false);
    target.add_event_listener(ty("click"), Some(ListenerId(1)), true);
    target.add_event_listener(ty("click"), None, false);
    assert!(target.has_handlers());
    let all = target.get_listeners(&ty("click"), &vec![]).unwrap();
    assert_eq!(all, vec![CompiledEventListener::Listener(ListenerId(1)), CompiledEventListener::Listener(ListenerId(1))]);
    let capturing = target.get_listeners_for(&ty("click"), ListenerPhase::Capturing, &vec![]).unwrap();
    assert_eq!(capturing, vec![CompiledEventListener::Listener(ListenerId(1))]);
    assert!(target.get_listeners(&ty("keydown"), &vec![]).is_none());
}

#[test]
fn removing_a_listener_undoes_adding_it() {
    let mut target = EventTarget::new_inherited();
    target.add_event_listener(ty("load"), Some(ListenerId(1)), false);
    target.add_event_listener(ty("load"), Some(ListenerId(2)), false);
    target.remove_event_listener(ty("load"), Some(ListenerId(1)), true);
    target.remove_event_listener(ty("load"), Some(ListenerId(1)), false);
    let all = target.get_listeners(&ty("load"), &vec![]).unwrap();
    assert_eq!(all, vec![CompiledEventListener::Listener(ListenerId(2))]);
}

#[test]
fn inline_handlers_are_compiled_when_read() {
    let mut target = EventTarget::new_inherited();
    target.add_event_listener(ty("click"), Some(ListenerId(5)), false);
    target.set_event_handler_uncompiled(ty("https://a.test/"), 3, ty("click"), ty("go()"));
    let pending = target.pending_compilations(&ty("click"), None);
    assert_eq!(pending, vec![(ty("go()"), ty("https://a.test/"), 3)]);
    assert_eq!(target.pending_inline_source(&ty("click")), Some((ty("go()"), ty("https://a.test/"), 3)));
    let all = target.get_listeners(&ty("click"), &vec![Some(HandlerId(9))]).unwrap();
    assert_eq!(all, vec![CompiledEventListener::Listener(ListenerId(5)), CompiledEventListener::Handler(HandlerId(9))]);
    // The source was taken: nothing is pending any more.
    assert!(target.pending_compilations(&ty("click"), None).is_empty());
}

#[test]
fn an_inline_handler_that_does_not_compile_is_dropped() {
    let mut target = EventTarget::new_inherited();
    target.set_event_handler_uncompiled(ty("u"), 1, ty("error"), ty("!"));
    let all = target.get_listeners(&ty("error"), &vec![None]).unwrap();
    assert!(all.is_empty());
    assert!(target.get_listeners(&ty("error"), &vec![]).unwrap().is_empty());
}

#[test]
fn inline_handler_set_then_cleared() {
    let mut target = EventTarget::new_inherited();
    target.set_event_handler_common(ty("click"), Some(HandlerId(4)));
    assert_eq!(target.get_event_handler_common(&ty("click"), None), Some(HandlerId(4)));
    target.set_inline_event_listener(ty("click"), Some(InlineEventListener::Compiled(HandlerId(6))));
    assert_eq!(target.get_event_handler_common(&ty("click"), None), Some(HandlerId(6)));
    target.set_event_handler_common(ty("click"), None);
    assert_eq!(target.get_event_handler_common(&ty("click"), None), None);
    assert!(target.has_handlers());
}

#[test]
fn dispatch_refuses_events_in_flight_or_uninitialized() {
    let mut busy = EventFlags { dispatching: true, initialized: true, trusted: true };
    assert_eq!(prepare_dispatch(&mut busy), Err(DispatchError::InvalidState));
    assert!(busy.trusted && busy.dispatching && busy.initialized);
    let mut fresh = EventFlags { dispatching: false, initialized: false, trusted: true };
    assert_eq!(prepare_dispatch(&mut fresh), Err(DispatchError::InvalidState));
    assert!(fresh.trusted && !fresh.initialized);
    let mut ready = EventFlags { dispatching: false, initialized: true, trusted: true };
    assert_eq!(prepare_dispatch(&mut ready), Ok(()));
    assert!(!ready.trusted && ready.initialized && !ready.dispatching);
}

#[test]
fn shared_workers_are_reused_by_url_and_name() {
    let mut manager = SharedWorkerManager::new();
    let origin = ty("https://a.test");
    let (s1, i1, started1) = manager.create_worker(origin.clone(), ty("w.js"), ty("n"), 100, false);
    assert_eq!((s1, i1, started1), (100, 0, true));
    let (s2, i2, started2) = manager.create_worker(origin.clone(), ty("w.js"), ty("n"), 200, false);
    assert_eq!((s2, i2, started2), (100, 0, false));
    let (s3, i3, started3) = manager.create_worker(origin.clone(), ty("w.js"), ty("other"), 300, false);
    assert_eq!((s3, i3, started3), (300, 1, true));
    manager.set_closing(&origin, 0, true);
    let (s4, i4, started4) = manager.create_worker(origin.clone(), ty("w.js"), ty("n"), 400, false);
    assert_eq!((s4, i4, started4), (400, 2, true));
    assert!(!manager.release_reference(&origin, 0));
    assert!(manager.release_reference(&origin, 0));
    assert!(manager.release_reference(&origin, 1));
    // A worker started closing is not connected to.
    let (s5, i5, started5) = manager.create_worker(origin.clone(), ty("c.js"), ty("n"), 500, true);
    assert_eq!((s5, i5, started5), (500, 3, true));
    let (s6, i6, started6) = manager.create_worker(origin.clone(), ty("c.js"), ty("n"), 600, false);
    assert_eq!((s6, i6, started6), (600, 4, true));
}

#[test]
fn shared_worker_constructor_resolves_the_script_url() {
    let base = ty("https://a.test/dir/page.html");
    let ok = shared_worker_request(&base, ty("worker.js"), StringOrWorkerOptions::String(ty("n")));
    assert_eq!(ok, Ok((ty("worker.js"), ty("n"))));
    let ok = shared_worker_request(&base, ty("w.js"), StringOrWorkerOptions::WorkerOptions { name: ty("m") });
    assert_eq!(ok, Ok((ty("w.js"), ty("m"))));
    let bad = shared_worker_request(&base, ty("https://[bad"), StringOrWorkerOptions::String(ty("n")));
    assert_eq!(bad, Err(SharedWorkerError::Syntax));
    let bad_base = shared_worker_request(&ty("not a url"), ty("w.js"), StringOrWorkerOptions::String(ty("n")));
    assert_eq!(bad_base, Err(SharedWorkerError::Syntax));
}

#[test]
fn entry_settings_object_is_the_topmost_candidate() {
    let mut stack = ScriptSettingsStack::new();
    assert!(stack.is_empty());
    assert!(stack.entry_settings_object().is_none());
    assert!(stack.incumbent_settings_object().is_none());
    stack.push_candidate("a");
    stack.push("b");
    assert_eq!(stack.entry_settings_object(), Some(&"a"));
    assert_eq!(stack.incumbent_settings_object(), Some(&"b"));
    stack.push_candidate("c");
    assert_eq!(stack.entry_settings_object(), Some(&"c"));
    stack.pop_incumbent_settings_object();
    stack.pop_incumbent_settings_object();
    assert_eq!(stack.incumbent_settings_object(), Some(&"a"));
    assert!(!stack.is_empty());
}

#[test]
fn entry_global_is_the_topmost_entry() {
    let stack = vec![
        StackEntry { global: 1, kind: StackEntryKind::Entry },
        StackEntry { global: 2, kind: StackEntryKind::Entry },
        StackEntry { global: 3, kind: StackEntryKind::Incumbent },
    ];
    assert_eq!(*entry_global(&stack), 2);
    assert!(!is_execution_stack_empty(&stack));
    let empty: Vec<StackEntry<u8>> = vec![];
    assert!(is_execution_stack_empty(&empty));
}

#[test]
fn random_values_only_for_small_integer_arrays() {
    let mut data = vec![0u8; 16];
    assert_eq!(
        get_random_values(ArrayType::Float32, &mut data),
        Err(InterfaceError::TypeMismatch(CryptoError::NonIntegerBuffer))
    );
    assert_eq!(data, vec![0u8; 16]);
    let mut big = vec![0u8; 65537];
    assert_eq!(
        get_random_values(ArrayType::Uint8, &mut big),
        Err(InterfaceError::QuotaExceeded(CryptoError::InputTooLong))
    );
    let mut edge = vec![0u8; 65536];
    assert_eq!(get_random_values(ArrayType::Int32, &mut edge), Ok(()));
    assert_eq!(edge.len(), 65536);
    assert!(edge.iter().any(|b| *b != 0));
    assert!(is_integer_buffer(ArrayType::BigUint64));
    assert!(is_integer_buffer(ArrayType::Uint8Clamped));
    assert!(!is_integer_buffer(ArrayType::Float64));
    assert!(!is_integer_buffer(ArrayType::Int64));
}

#[test]
fn crypto_errors_have_messages() {
    assert_eq!(CryptoError::NonIntegerBuffer.into_string(), "Non-integer buffer provided");
    assert_eq!(CryptoError::InputTooLong.into_string(), "Input buffer exceeded 64kb");
    assert_eq!(CryptoError::RandomGenerationFailed.into_string(), "Failed to generate random values");
}

#[test]
fn random_uuids_are_version_four() {
    let a = random_uuid().unwrap();
    let b = random_uuid().unwrap();
    assert_eq!(a.len(), 36);
    assert_ne!(a, b);
    for (i, c) in a.chars().enumerate() {
        if i == 8 || i == 13 || i == 18 || i == 23 {
            assert_eq!(c, '-');
        } else {
            assert!(c.is_ascii_hexdigit() && !c.is_ascii_uppercase());
        }
    }
    assert_eq!(a.chars().nth(14), Some('4'));
    assert!("89ab".contains(a.chars().nth(19).unwrap()));
}

#[test]
fn rtp_sender_parameters_are_empty() {
    let sender = RTCRtpSender::new();
    let p = sender.get_parameters();
    assert!(p.encodings.is_empty());
    assert!(p.transaction_id.is_empty());
    assert!(p.parent.codecs.is_empty());
    assert!(p.parent.rtcp.cname.is_none());
    assert_eq!(sender.set_parameters(&p), PromiseState::Resolved);
}

fn chain(primary: Option<PseudoElement>, secondary: Option<PseudoElement>) -> PseudoElementChain {
    PseudoElementChain { primary, secondary }
}

#[test]
fn fragments_of_anonymous_boxes_are_anonymous() {
    let node = LayoutNodeInfo {
        opaque_id: 7,
        pseudo_element_chain: chain(Some(PseudoElement::Before), Some(PseudoElement::ServoAnonymousTableCell)),
        html_element: None,
    };
    let info = BaseFragmentInfo::from_node(&node);
    assert_eq!(info, BaseFragmentInfo::anonymous());
    assert!(BaseFragment::from_info(info).is_anonymous());
    assert!(BaseFragment::anonymous().is_anonymous());
}

#[test]
fn fragments_take_the_flags_of_their_element() {
    let node = LayoutNodeInfo {
        opaque_id: 8,
        pseudo_element_chain: chain(Some(PseudoElement::ServoAnonymousBox), Some(PseudoElement::Marker)),
        html_element: Some(HtmlElementInfo { is_body_element_of_html_element_root: false, local_name: ty("td"), is_root: true }),
    };
    let info = BaseFragmentInfo::from_node(&node);
    assert_eq!(info.tag, Some(Tag { node: 8, pseudo_element_chain: node.pseudo_element_chain }));
    assert!(info.flags.is_table_th_or_td_element);
    assert!(info.flags.is_root_element);
    assert!(!info.flags.is_br_element);
    let br = LayoutNodeInfo {
        opaque_id: 9,
        pseudo_element_chain: chain(None, None),
        html_element: Some(HtmlElementInfo { is_body_element_of_html_element_root: true, local_name: ty("br"), is_root: false }),
    };
    let flags = BaseFragmentInfo::from_node(&br).flags;
    assert!(flags.is_br_element && flags.is_body_element_of_html_element_root);
    assert!(!flags.is_table_th_or_td_element);
    let testing = BaseFragmentInfo::new_for_testing(3);
    assert_eq!(testing.tag.unwrap().node, 3);
    assert_eq!(testing.flags, FragmentFlags::empty());
    assert_eq!(chain(Some(PseudoElement::After), None).innermost(), Some(PseudoElement::After));
}

#[test]
fn hoisted_fragment_keeps_its_static_position() {
    let rect = PhysicalRect { x: 1, y: 2, width: 3, height: 4 };
    let h = HoistedSharedFragment::new(rect);
    assert_eq!(h.original_static_position_rect, rect);
}

#[test]
fn browsing_context_shows_its_active_document() {
    let (mut ctx, cross_origin_parent): (BrowsingContext<&str, u8, u8>, bool) = BrowsingContext::new(Some(1), Some(4));
    assert!(!cross_origin_parent);
    ctx.init("doc");
    assert_eq!(*ctx.active_document(), "doc");
    assert_eq!(ctx.frame_element(), Some(&1));
    let entry: SessionHistoryEntry<&str, u8> = SessionHistoryEntry::new("d");
    assert!(entry.children.is_empty());
}

#[test]
fn realm_tokens() {
    let already = AlreadyInRealm::assert_realm();
    assert!(matches!(InRealm::already(&already), InRealm::Already(_)));
    let entered = EnteredRealm { global: 3 };
    assert!(matches!(InRealm::entered(&entered), InRealm::Entered(e) if e.global == 3));
}
