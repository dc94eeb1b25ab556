use servo_components::dom_tree::{Attr, Dom, NodeKind, QualName};
use servo_components::html_sink::{
    adopt_fragment_children, can_move_children, find_document_element, is_op_valid, process_op, NextParserState,
    NodeMap, NodeOrText, ParseNode, ParserOperation, QuirksMode, SerializeEvent, ServoAttribute,
    ServoNodeOrText, Sink, TraversalScope,
};

const HTML: &str = "http://www.w3.org/1999/xhtml";

fn name(local: &str) -> QualName {
    QualName { ns: HTML.to_string(), local: local.to_string() }
}

fn attr(n: &str, v: &str) -> ServoAttribute {
    ServoAttribute { name: QualName { ns: String::new(), local: n.to_string() }, value: v.to_string() }
}

fn describe(events: &[SerializeEvent]) -> Vec<String> {
    events
        .iter()
        .map(|e| match e {
            SerializeEvent::StartElem(q, attrs) => {
                let a: Vec<String> = attrs.iter().map(|a| format!("{}={}", a.name.local, a.value)).collect();
                format!("<{} {}>", q.local, a.join(" "))
            },
            SerializeEvent::EndElem(q) => format!("</{}>", q.local),
            SerializeEvent::Text(t) => format!("text:{}", t),
            SerializeEvent::Comment(c) => format!("comment:{}", c),
            SerializeEvent::Doctype(d) => format!("doctype:{}", d),
            SerializeEvent::ProcessingInstruction(t, d) => format!("pi:{}:{}", t, d),
        })
        .collect()
}

fn build(sink: &mut Sink) -> (Dom, NodeMap, Vec<Option<usize>>) {
    let mut dom = Dom::new_document();
    let mut nodes = NodeMap::new();
    let mut prepared = Vec::new();
    for op in sink.take_ops() {
        prepared.push(process_op(&mut dom, &mut nodes, op));
    }
    (dom, nodes, prepared)
}

#[test]
fn the_sink_queues_what_the_parser_builds() {
    let mut sink = Sink::new();
    let doc = sink.get_document();
    assert_eq!(doc.id, 0);
    sink.append_doctype_to_document("html".to_string(), String::new(), String::new());
    let html = sink.create_element(name("html"), vec![]);
    sink.append(doc, NodeOrText::AppendNode(html));
    let body = sink.create_element(name("body"), vec![attr("class", "x")]);
    sink.append(html, NodeOrText::AppendNode(body));
    sink.append(body, NodeOrText::AppendText("hi".to_string()));
    let comment = sink.create_comment("note".to_string());
    sink.append(body, NodeOrText::AppendNode(comment));
    sink.add_attrs_if_missing(body, vec![attr("class", "y"), attr("id", "b")]);
    sink.set_quirks_mode(QuirksMode::NoQuirks);
    assert!(sink.same_node(body, body));
    assert!(!sink.same_node(body, html));
    assert_eq!(sink.elem_name(body).local, "body");
    let ops = sink.take_ops();
    assert!(matches!(ops[0], ParserOperation::AppendDoctypeToDocument(..)));
    assert!(matches!(ops[1], ParserOperation::CreateElement(_, _, id) if id == html.id));
    assert!(sink.take_ops().is_empty());
}

#[test]
fn applied_operations_build_and_serialize_a_document() {
    let mut sink = Sink::new();
    let doc = sink.get_document();
    sink.append_doctype_to_document("html".to_string(), String::new(), String::new());
    let html = sink.create_element(name("html"), vec![]);
    sink.append(doc, NodeOrText::AppendNode(html));
    let body = sink.create_element(name("body"), vec![attr("class", "x")]);
    sink.append(html, NodeOrText::AppendNode(body));
    sink.append(body, NodeOrText::AppendText("hi".to_string()));
    let comment = sink.create_comment("note".to_string());
    sink.append(body, NodeOrText::AppendNode(comment));
    sink.add_attrs_if_missing(body, vec![attr("class", "y"), attr("id", "b")]);
    let (dom, _nodes, _) = build(&mut sink);
    let events = dom.serialize(0, TraversalScope::ChildrenOnly);
    assert_eq!(
        describe(&events),
        vec![
            "doctype:html",
            "<html >",
            "<body class=x id=b>",
            "text:hi",
            "comment:note",
            "</body>",
            "</html>",
        ]
    );
}

#[test]
fn inserting_before_a_sibling_and_removing() {
    let mut sink = Sink::new();
    let doc = sink.get_document();
    let div = sink.create_element(name("div"), vec![]);
    sink.append(doc, NodeOrText::AppendNode(div));
    let b = sink.create_element(name("b"), vec![]);
    sink.append(div, NodeOrText::AppendNode(b));
    let i = sink.create_element(name("i"), vec![]);
    // A node that was appended has no parent the parser knows of: the new
    // node is handed back.
    assert!(matches!(sink.append_before_sibling(b, NodeOrText::AppendNode(i)), Err(NodeOrText::AppendNode(n)) if n == i));
    assert!(sink.append_before_sibling(doc, NodeOrText::AppendText("x".to_string())).is_err());
    let (mut dom, mut nodes, _) = build(&mut sink);
    process_op(&mut dom, &mut nodes, ParserOperation::Insert(div.id, Some(b.id), ServoNodeOrText::Node(i.id)));
    process_op(&mut dom, &mut nodes, ParserOperation::Insert(div.id, Some(b.id), ServoNodeOrText::Text("t".to_string())));
    let events = dom.serialize(0, TraversalScope::ChildrenOnly);
    assert_eq!(describe(&events), vec!["<div >", "<i >", "</i>", "text:t", "<b >", "</b>", "</div>"]);
    let i_node = nodes.get(i.id).unwrap();
    process_op(&mut dom, &mut nodes, ParserOperation::RemoveFromParent(i.id));
    let events = dom.serialize(0, TraversalScope::ChildrenOnly);
    assert_eq!(describe(&events), vec!["<div >", "text:t", "<b >", "</b>", "</div>"]);
    let alone = dom.serialize(i_node, TraversalScope::IncludeNode);
    assert_eq!(describe(&alone), vec!["<i >", "</i>"]);
}

#[test]
fn children_are_moved_to_a_new_parent() {
    let mut sink = Sink::new();
    let doc = sink.get_document();
    let a = sink.create_element(name("a"), vec![]);
    sink.append(doc, NodeOrText::AppendNode(a));
    let p = sink.create_element(name("p"), vec![]);
    sink.append(a, NodeOrText::AppendNode(p));
    sink.append(p, NodeOrText::AppendText("1".to_string()));
    let em = sink.create_element(name("em"), vec![]);
    sink.append(p, NodeOrText::AppendNode(em));
    let span = sink.create_element(name("span"), vec![]);
    sink.append(a, NodeOrText::AppendNode(span));
    sink.reparent_children(p, span);
    let (dom, _, _) = build(&mut sink);
    let events = dom.serialize(0, TraversalScope::ChildrenOnly);
    assert_eq!(
        describe(&events),
        vec!["<a >", "<p >", "</p>", "<span >", "text:1", "<em >", "</em>", "</span>", "</a>"]
    );
}

#[test]
fn completed_scripts_are_prepared() {
    let mut sink = Sink::new();
    let doc = sink.get_document();
    let script = sink.create_element(name("script"), vec![]);
    sink.append(doc, NodeOrText::AppendNode(script));
    assert_eq!(sink.complete_script(script), NextParserState::Continue);
    let (dom, nodes, prepared) = build(&mut sink);
    let node = nodes.get(script.id).unwrap();
    assert_eq!(prepared.last().unwrap(), &Some(node));
    assert!(matches!(dom.node_kind(node), NodeKind::Element { already_started: false, .. }));
    let mut sink = Sink::new();
    let doc = sink.get_document();
    let div = sink.create_element(name("div"), vec![]);
    sink.append(doc, NodeOrText::AppendNode(div));
    sink.complete_script(div);
    let (_, _, prepared) = build(&mut sink);
    assert_eq!(prepared.last().unwrap(), &None);
}

#[test]
fn template_contents_are_serialized_in_place_of_children() {
    let mut sink = Sink::new();
    let doc = sink.get_document();
    let template = sink.create_element(name("template"), vec![]);
    sink.append(doc, NodeOrText::AppendNode(template));
    let contents = sink.get_template_contents(template);
    sink.append(contents, NodeOrText::AppendText("inside".to_string()));
    let (dom, _, _) = build(&mut sink);
    let events = dom.serialize(0, TraversalScope::ChildrenOnly);
    assert_eq!(describe(&events), vec!["<template >", "text:inside", "</template>"]);
}

#[test]
fn the_node_tree_refuses_cycles() {
    let mut dom = Dom::new_document();
    let a = dom.add_node(NodeKind::Element {
        qual_name: name("a"),
        attrs: vec![Attr { name: QualName { ns: String::new(), local: "k".to_string() }, value: "v".to_string() }],
        template_contents: None,
        already_started: false,
    });
    let b = dom.add_node(NodeKind::Text("t".to_string()));
    dom.append_child(0, a);
    dom.append_child(a, b);
    assert_eq!(dom.children(0), &vec![a]);
    assert_eq!(dom.first_child(a), Some(b));
    assert_eq!(dom.position_in_parent(b), Some((a, 0)));
    assert!(dom.is_inclusive_ancestor(0, b));
    assert!(dom.is_inclusive_ancestor(a, a));
    assert!(!dom.is_inclusive_ancestor(b, a));
    assert!(!dom.can_append(a, 0));
    assert!(!dom.can_append(b, a));
    dom.detach(b);
    assert_eq!(dom.first_child(a), None);
    assert_eq!(dom.position_in_parent(b), None);
}

fn element(local: &str) -> NodeKind {
    NodeKind::Element { qual_name: name(local), attrs: vec![], template_contents: None, already_started: false }
}

#[test]
fn a_parsed_fragment_moves_into_its_output() {
    let mut dom = Dom::new_document();
    let comment = dom.add_node(NodeKind::Comment("c".to_string()));
    dom.append_child(0, comment);
    let html = dom.add_node(element("html"));
    dom.append_child(0, html);
    let p = dom.add_node(element("p"));
    let t = dom.add_node(NodeKind::Text("x".to_string()));
    dom.append_child(html, p);
    dom.append_child(html, t);
    let output = dom.add_node(element("div"));
    assert_eq!(find_document_element(&dom, 0), Some(html));
    // A document may not take the text child; the output may take both.
    assert!(!can_move_children(&dom, html, 0));
    assert!(!can_move_children(&dom, html, p));
    assert!(can_move_children(&dom, html, output));
    adopt_fragment_children(&mut dom, 0, output);
    assert_eq!(dom.children(output), &vec![p, t]);
    assert!(dom.children(html).is_empty());
    let empty = Dom::new_document();
    assert_eq!(find_document_element(&empty, 0), None);
}

#[test]
fn operations_the_tree_refuses_are_recognized() {
    let mut sink = Sink::new();
    let doc = sink.get_document();
    let div = sink.create_element(name("div"), vec![]);
    assert!(sink.knows(div));
    assert!(sink.has_name(div));
    assert!(!sink.has_name(doc));
    assert!(!sink.knows(ParseNode { id: 99 }));
    let text = sink.create_comment("c".to_string());
    sink.append(doc, NodeOrText::AppendNode(div));
    sink.append(div, NodeOrText::AppendNode(text));
    let (mut dom, mut nodes, _) = build(&mut sink);
    // The document cannot go into its own element.
    assert!(!is_op_valid(&dom, &nodes, &ParserOperation::Insert(div.id, None, ServoNodeOrText::Node(doc.id))));
    // Text does not go straight into a document.
    assert!(!is_op_valid(&dom, &nodes, &ParserOperation::Insert(doc.id, None, ServoNodeOrText::Text("t".to_string()))));
    assert!(is_op_valid(&dom, &nodes, &ParserOperation::Insert(div.id, None, ServoNodeOrText::Text("t".to_string()))));
    // Ids the parser never made.
    assert!(!is_op_valid(&dom, &nodes, &ParserOperation::RemoveFromParent(42)));
    assert!(!is_op_valid(&dom, &nodes, &ParserOperation::AddAttrsIfMissing(text.id, vec![])));
    assert!(is_op_valid(&dom, &nodes, &ParserOperation::AddAttrsIfMissing(div.id, vec![])));
    assert!(!is_op_valid(&dom, &nodes, &ParserOperation::ReparentChild(div.id, div.id)));
    // Only a template has template contents.
    assert!(!is_op_valid(&dom, &nodes, &ParserOperation::GetTemplateContents(div.id, 50)));
    let op = ParserOperation::Insert(div.id, Some(text.id), ServoNodeOrText::Text("x".to_string()));
    assert!(is_op_valid(&dom, &nodes, &op));
    process_op(&mut dom, &mut nodes, op);
    assert_eq!(describe(&dom.serialize(0, TraversalScope::ChildrenOnly)), vec!["<div >", "text:x", "comment:c", "</div>"]);
    // The document may not take the div's text child.
    assert!(!is_op_valid(&dom, &nodes, &ParserOperation::ReparentChild(div.id, doc.id)));
}

#[test]
fn reparenting_moves_every_child_in_order() {
    let mut sink = Sink::new();
    let doc = sink.get_document();
    let div = sink.create_element(name("div"), vec![]);
    let span = sink.create_element(name("span"), vec![]);
    let c1 = sink.create_comment("one".to_string());
    let c2 = sink.create_comment("two".to_string());
    sink.append(doc, NodeOrText::AppendNode(div));
    sink.append(div, NodeOrText::AppendNode(c1));
    sink.append(div, NodeOrText::AppendNode(c2));
    sink.append(div, NodeOrText::AppendNode(span));
    let (mut dom, mut nodes, _) = build(&mut sink);
    // The span may not take itself.
    assert!(!is_op_valid(&dom, &nodes, &ParserOperation::ReparentChild(div.id, span.id)));
    let op = ParserOperation::ReparentChild(div.id, doc.id);
    assert!(is_op_valid(&dom, &nodes, &op));
    assert_eq!(process_op(&mut dom, &mut nodes, op), None);
    assert_eq!(
        describe(&dom.serialize(0, TraversalScope::ChildrenOnly)),
        vec!["<div >", "</div>", "comment:one", "comment:two", "<span >", "</span>"]
    );
}
