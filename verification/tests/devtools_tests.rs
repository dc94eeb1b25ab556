use servo_components::devtools_actors::{
    AccessibleActor, AccessibleWalkerActor, ActorEntry, ActorError, ActorRegistry,
    BrowsingContextActor, ParentAccessibilityActor, PauseActor, Reply, ThreadActor,
};
use servo_components::devtools_client::{
    as_str, frame_packet, get, handle_packet, is_packet_ok, parse_packet_size, read_header_byte, DevtoolUpdate,
    HeaderStep, Json, Level, OutgoingPacket, PacketOutcome,
};

fn st(s: &str) -> Json {
    Json::Str(s.to_string())
}

fn obj(entries: Vec<(&str, Json)>) -> Json {
    Json::Object(entries.into_iter().map(|(k, v)| (k.to_string(), v)).collect())
}

fn num(n: u64) -> Json {
    Json::Number(Some(n))
}

#[test]
fn packets_are_framed_with_their_length() {
    assert_eq!(frame_packet(&b"{}".to_vec()), b"2:{}".to_vec());
    let payload = vec![b'x'; 1234];
    let framed = frame_packet(&payload);
    assert_eq!(&framed[..5], b"1234:");
    assert_eq!(framed.len(), 1239);
    assert_eq!(frame_packet(&vec![]), b"0:".to_vec());
}

#[test]
fn packet_sizes_are_read_back() {
    assert_eq!(parse_packet_size(&b"1234".to_vec()), Some(1234));
    assert_eq!(parse_packet_size(&b"+7".to_vec()), Some(7));
    assert_eq!(parse_packet_size(&b"".to_vec()), None);
    assert_eq!(parse_packet_size(&b"1a".to_vec()), None);
    assert_eq!(parse_packet_size(&b"-1".to_vec()), None);
    assert_eq!(parse_packet_size(&b"99999999999999999999999".to_vec()), None);
    let mut digits = Vec::new();
    assert!(matches!(read_header_byte(&mut digits, b'4'), HeaderStep::More));
    assert!(matches!(read_header_byte(&mut digits, b'2'), HeaderStep::More));
    assert!(matches!(read_header_byte(&mut digits, b':'), HeaderStep::Size(42)));
    let mut bad = b"x".to_vec();
    assert!(matches!(read_header_byte(&mut bad, b':'), HeaderStep::Malformed));
}

#[test]
fn the_root_greeting_is_answered() {
    let greeting = obj(vec![("from", st("root")), ("applicationType", st("browser"))]);
    match handle_packet(&greeting) {
        PacketOutcome::Send(sends) => {
            assert_eq!(sends.len(), 5);
            assert!(matches!(&sends[0], OutgoingPacket::Connect { frontend_version, to } if frontend_version == "144.0" && to == "root"));
            assert!(matches!(&sends[1], OutgoingPacket::GetRoot { to } if to == "root"));
            assert!(matches!(&sends[2], OutgoingPacket::ListTabs { to } if to == "root"));
            assert!(matches!(&sends[3], OutgoingPacket::GetTab { browser_id: 1, to } if to == "root"));
            assert!(matches!(&sends[4], OutgoingPacket::GetCachedMessages { message_types, to }
                if to == "console4" && *message_types == vec!["LogMessage".to_string(), "PageError".to_string(), "ConsoleAPI".to_string()]));
        },
        _ => panic!("expected packets to send"),
    }
    let other = obj(vec![("from", st("root")), ("tabs", Json::Array(vec![]))]);
    assert!(matches!(handle_packet(&other), PacketOutcome::Send(s) if s.is_empty()));
}

#[test]
fn console_packets_print_their_messages() {
    let packet = obj(vec![("from", st("console4")), ("messages", Json::Array(vec![st("a")]))]);
    assert!(matches!(handle_packet(&packet), PacketOutcome::Print(Some(m)) if m.len() == 1));
    let empty = obj(vec![("from", st("console4"))]);
    assert!(matches!(handle_packet(&empty), PacketOutcome::Print(None)));
    let unknown = obj(vec![("from", st("inspector"))]);
    assert!(matches!(handle_packet(&unknown), PacketOutcome::Ignore));
}

#[test]
fn target_packets_become_console_logs() {
    let console_message = obj(vec![
        ("level", st("warn")),
        ("filename", st("file:///tmp/devtool.html")),
        ("line_number", num(2)),
        ("column_number", num(8)),
        ("arguments", Json::Array(vec![st("hello there")])),
    ]);
    let page_error = obj(vec![(
        "pageError",
        obj(vec![
            ("errorMessage", st("a is not defined")),
            ("sourceName", st("file:///tmp/devtool.html")),
            ("lineNumber", num(3)),
            ("columnNumber", num(1)),
            ("warning", Json::Bool(false)),
        ]),
    )]);
    let packet = obj(vec![
        ("from", st("target5")),
        ("type", st("resources-available-array")),
        (
            "array",
            Json::Array(vec![
                Json::Array(vec![st("console-message"), Json::Array(vec![console_message])]),
                Json::Array(vec![st("error-message"), Json::Array(vec![page_error])]),
                Json::Array(vec![st("other"), Json::Array(vec![])]),
            ]),
        ),
    ]);
    match handle_packet(&packet) {
        PacketOutcome::Updates(updates) => {
            assert_eq!(updates.len(), 2);
            match &updates[0] {
                DevtoolUpdate::ConsoleLog(l) => {
                    assert_eq!(l.message, "hello there");
                    assert!(matches!(l.level, Level::Warn));
                    assert_eq!(l.filename, "file:///tmp/devtool.html");
                    assert_eq!((l.line_number, l.column), (2, 8));
                },
                _ => panic!("expected a console log"),
            }
            match &updates[1] {
                DevtoolUpdate::ConsoleLog(l) => {
                    assert_eq!(l.message, "a is not defined");
                    assert!(matches!(l.level, Level::Error));
                    assert_eq!((l.line_number, l.column), (3, 1));
                },
                _ => panic!("expected a console log"),
            }
        },
        _ => panic!("expected updates"),
    }
    let other_type = obj(vec![("from", st("target5")), ("type", st("frameUpdate"))]);
    assert!(matches!(handle_packet(&other_type), PacketOutcome::Updates(u) if u.is_empty()));
}

#[test]
fn json_members_are_looked_up_by_key() {
    let o = obj(vec![("a", st("x")), ("a", st("y"))]);
    assert_eq!(as_str(get(&o, "a")).map(|s| s.as_str()), Some("x"));
    assert!(get(&o, "b").is_none());
    assert!(get(&st("a"), "a").is_none());
}

fn accessible_of(registry: &ActorRegistry, name: &str) -> AccessibleActor {
    match registry.find(&name.to_string()) {
        Some(ActorEntry::Accessible(a)) => AccessibleActor {
            name: a.name.clone(),
            role: a.role.clone(),
            level: a.level.clone(),
            acc_name: a.acc_name.clone(),
            child_count: a.child_count,
            node_actor: servo_components::devtools_actors::NodeActor::BrowsingContextRoot(String::new()),
        },
        _ => panic!("no accessible named {}", name),
    }
}

#[test]
fn actors_get_numbered_names() {
    let mut registry = ActorRegistry::new();
    assert_eq!(registry.new_name("thread"), "thread0");
    let accessible = AccessibleActor::register(&mut registry, "browsing-context3".to_string());
    assert_eq!(accessible, "accessible1");
    let walker = AccessibleWalkerActor::register(&mut registry, "browsing-context3".to_string());
    assert_eq!(walker, "accessible-walker3");
    assert!(registry.find(&"accessible2".to_string()).is_some());
    let parent = ParentAccessibilityActor::register(&mut registry);
    assert_eq!(parent, "parent-accessibility4");
    assert!(registry.find(&"nothing".to_string()).is_none());
}

#[test]
fn accessible_actors_answer_their_messages() {
    let mut registry = ActorRegistry::new();
    let name = AccessibleActor::register(&mut registry, "bc".to_string());
    let a = accessible_of(&registry, &name);
    assert!(matches!(a.handle_message("audit"), Ok(Reply::Audit { from }) if from == name));
    assert!(matches!(a.handle_message("hydrate"), Ok(Reply::Hydrate { from }) if from == name));
    assert!(matches!(a.handle_message("getRelations"), Ok(Reply::GetRelations { .. })));
    assert!(matches!(a.handle_message("bogus"), Err(ActorError::UnrecognizedPacketType)));
    let m = a.encode();
    assert_eq!(m.actor, name);
    assert!(m.role.is_empty() && m.level.is_none() && m.name.is_none());
    assert!(!m.use_child_target_to_fetch_children);
    assert_eq!(m.child_count, 0);
    assert!(matches!(m.checks, Json::Object(ref o) if o.is_empty()));
}

#[test]
fn the_root_accessible_names_its_documents_root_node() {
    let mut registry = ActorRegistry::new();
    registry.register(
        "bc".to_string(),
        ActorEntry::BrowsingContext(BrowsingContextActor { name: "bc".to_string(), root_node: Some("node7".to_string()) }),
    );
    let name = AccessibleActor::register(&mut registry, "bc".to_string());
    match registry.find(&name) {
        Some(ActorEntry::Accessible(a)) => assert_eq!(a.node_actor(&registry), "node7"),
        _ => panic!("no accessible"),
    }
}

#[test]
fn the_walker_lists_its_children() {
    let mut registry = ActorRegistry::new();
    let name = AccessibleWalkerActor::register(&mut registry, "bc".to_string());
    let reply = match registry.find(&name) {
        Some(ActorEntry::AccessibleWalker(w)) => {
            assert!(matches!(w.handle_message(&registry, "hideTabbingOrder"), Ok(Reply::HideTabbingOrder { .. })));
            assert!(matches!(w.handle_message(&registry, "highlightAccessible"), Ok(Reply::Unhighlight { .. })));
            assert!(matches!(w.handle_message(&registry, "unhighlight"), Ok(Reply::Unhighlight { .. })));
            assert!(matches!(w.handle_message(&registry, "x"), Err(ActorError::UnrecognizedPacketType)));
            w.handle_message(&registry, "children")
        },
        _ => panic!("no walker"),
    };
    match reply {
        Ok(Reply::Children { from, children }) => {
            assert_eq!(from, name);
            assert_eq!(children.len(), 1);
            assert_eq!(children[0].actor, "accessible0");
        },
        _ => panic!("expected children"),
    }
}

#[test]
fn parent_accessibility_bootstraps() {
    let mut registry = ActorRegistry::new();
    let name = ParentAccessibilityActor::register(&mut registry);
    let p = ParentAccessibilityActor { name: name.clone() };
    assert!(matches!(p.handle_message("bootstrap", false),
        Ok(Reply::Bootstrap { from, can_be_enabled: true, can_be_disabled: false }) if from == name));
    assert!(matches!(p.handle_message("bootstrap", true),
        Ok(Reply::Bootstrap { can_be_enabled: false, can_be_disabled: true, .. })));
    assert!(matches!(p.handle_message("enable", true), Err(ActorError::UnrecognizedPacketType)));
}

#[test]
fn attaching_a_thread_pauses_it() {
    let mut registry = ActorRegistry::new();
    let thread = ThreadActor { name: "thread1".to_string() };
    let (handled, reply) = thread.handle_message(&mut registry, "attach");
    assert!(handled);
    match reply {
        Some(Reply::Paused { from, actor, why }) => {
            assert_eq!(from, "thread1");
            assert_eq!(actor, "pause0");
            assert_eq!(why, "attached");
        },
        _ => panic!("expected a pause"),
    }
    assert!(matches!(registry.find(&"pause0".to_string()), Some(ActorEntry::Pause(_))));
    let (handled, reply) = thread.handle_message(&mut registry, "reconfigure");
    assert!(handled && matches!(reply, Some(Reply::Reconfigure { from }) if from == "thread1"));
    let (handled, reply) = thread.handle_message(&mut registry, "sources");
    assert!(handled && reply.is_none());
    let (handled, reply) = thread.handle_message(&mut registry, "resume");
    assert!(!handled && reply.is_none());
    assert!(!PauseActor { name: "pause0".to_string() }.handle_message("resume"));
}

#[test]
fn malformed_packets_are_recognized() {
    assert!(is_packet_ok(&obj(vec![("from", st("root"))])));
    assert!(!is_packet_ok(&obj(vec![("to", st("root"))])));
    assert!(!is_packet_ok(&obj(vec![("from", num(1))])));
    assert!(!is_packet_ok(&obj(vec![("from", st("console1")), ("messages", st("x"))])));
    assert!(is_packet_ok(&obj(vec![("from", st("console1"))])));
    let bad_message = obj(vec![("level", st("log"))]);
    let packet = obj(vec![
        ("from", st("target1")),
        ("type", st("resources-available-array")),
        ("array", Json::Array(vec![Json::Array(vec![st("console-message"), Json::Array(vec![bad_message])])])),
    ]);
    assert!(!is_packet_ok(&packet));
    let unknown_kind = obj(vec![
        ("from", st("target1")),
        ("type", st("resources-available-array")),
        ("array", Json::Array(vec![Json::Array(vec![st("network-event")])])),
    ]);
    assert!(is_packet_ok(&unknown_kind));
    assert!(!is_packet_ok(&obj(vec![("from", st("target1")), ("type", num(3))])));
}
