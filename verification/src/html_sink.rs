//! The HTML tree sink: the parser's view of the tree it builds (nodes by
//! id, with element names and parents) and the queue of operations that
//! build the document; the operations applied to a node tree; and the
//! serialization of a node tree.
use vstd::prelude::*;
use crate::dom_tree::{Attr, Dom, NodeKind, QualName, qual_name_eq, is_template_name, is_script_name, index_in};

verus! {

/// A node or a text, handed to an insertion.
pub enum ServoNodeOrText {
    Node(usize),
    Text(String),
}

/// An attribute, as the parser makes it.
pub struct ServoAttribute {
    pub name: QualName,
    pub value: String,
}

/// An operation on the document, queued by the parser.
pub enum ParserOperation {
    GetTemplateContents(usize, usize),
    CreateElement(QualName, Vec<ServoAttribute>, usize),
    CreateComment(String, usize),
    Insert(usize, Option<usize>, ServoNodeOrText),
    AppendDoctypeToDocument(String, String, String),
    AddAttrsIfMissing(usize, Vec<ServoAttribute>),
    RemoveFromParent(usize),
    MarkScriptAlreadyStarted(usize),
    CompleteScript(usize),
    ReparentChild(usize, usize),
}

/// A node as the parser knows it: by id.
#[derive(Clone, Copy, PartialEq, Eq, Structural, Debug)]
pub struct ParseNode {
    pub id: usize,
}

/// What the parser knows of a node: its name (for an element) and parent.
pub struct ParseNodeData {
    pub qual_name: Option<QualName>,
    pub parent: Option<usize>,
}

/// A node or a text, as the parser hands it to the sink.
pub enum NodeOrText {
    AppendNode(ParseNode),
    AppendText(String),
}

/// The quirks mode of a document.
#[derive(Clone, Copy, PartialEq, Eq, Structural, Debug)]
pub enum QuirksMode {
    Quirks,
    LimitedQuirks,
    NoQuirks,
}

/// What the parser does next after a script.
#[derive(Clone, Copy, PartialEq, Eq, Structural, Debug)]
pub enum NextParserState {
    Continue,
    Suspend,
}

/// The tree sink: the data of each node by id (the document is node 0), the
/// queued operations, and the document's quirks mode once set.
pub struct Sink {
    parse_data: Vec<ParseNodeData>,
    ops: Vec<ParserOperation>,
    quirks_mode: Option<QuirksMode>,
}

impl Sink {
    pub closed spec fn data(&self) -> Seq<ParseNodeData> {
        self.parse_data@
    }

    pub closed spec fn queued(&self) -> Seq<ParserOperation> {
        self.ops@
    }

    pub closed spec fn quirks(&self) -> Option<QuirksMode> {
        self.quirks_mode
    }

    /// A sink knowing only the document.
    pub fn new() -> (s: Sink)
        ensures
            s.data().len() == 1,
            s.data()[0].qual_name is None,
            s.data()[0].parent is None,
            s.queued().len() == 0,
            s.quirks() is None,
    {
        let mut parse_data: Vec<ParseNodeData> = Vec::new();
        parse_data.push(ParseNodeData { qual_name: None, parent: None });
        Sink { parse_data, ops: Vec::new(), quirks_mode: None }
    }

    /// The queued operations, handed out; the queue becomes empty.
    pub fn take_ops(&mut self) -> (ops: Vec<ParserOperation>)
        ensures
            ops@ == old(self).queued(),
            final(self).queued().len() == 0,
            final(self).data() == old(self).data(),
            final(self).quirks() == old(self).quirks(),
    {
        let mut ops: Vec<ParserOperation> = Vec::new();
        std::mem::swap(&mut ops, &mut self.ops);
        ops
    }

    /// A new node, with no name and no parent.
    fn new_parse_node(&mut self) -> (n: ParseNode)
        ensures
            n.id == old(self).data().len(),
            final(self).data() == old(self).data().push(ParseNodeData { qual_name: None, parent: None }),
            final(self).queued() == old(self).queued(),
            final(self).quirks() == old(self).quirks(),
    {
        let id = self.parse_data.len();
        self.parse_data.push(ParseNodeData { qual_name: None, parent: None });
        ParseNode { id }
    }

    fn enqueue(&mut self, op: ParserOperation)
        ensures
            final(self).queued() == old(self).queued().push(op),
            final(self).data() == old(self).data(),
            final(self).quirks() == old(self).quirks(),
    {
        self.ops.push(op);
    }

    /// Whether the sink made node `n` (the document included).
    pub fn knows(&self, n: ParseNode) -> (b: bool)
        ensures
            b == (n.id < self.data().len()),
    {
        n.id < self.parse_data.len()
    }

    /// Whether node `n` is one the sink made as an element, with a name.
    pub fn has_name(&self, n: ParseNode) -> (b: bool)
        ensures
            b == (n.id < self.data().len() && self.data()[n.id as int].qual_name is Some),
    {
        n.id < self.parse_data.len() && self.parse_data[n.id].qual_name.is_some()
    }

    /// The document.
    pub fn get_document(&mut self) -> (n: ParseNode)
        ensures
            n.id == 0,
            *final(self) == *old(self),
    {
        ParseNode { id: 0 }
    }

    /// The contents of a template: a new node, for which the operation that
    /// gets the template's contents is queued.
    pub fn get_template_contents(&mut self, target: ParseNode) -> (contents: ParseNode)
        ensures
            contents.id == old(self).data().len(),
            final(self).data() == old(self).data().push(ParseNodeData { qual_name: None, parent: None }),
            final(self).queued() == old(self).queued().push(ParserOperation::GetTemplateContents(target.id, contents.id)),
            final(self).quirks() == old(self).quirks(),
    {
        let contents = self.new_parse_node();
        self.enqueue(ParserOperation::GetTemplateContents(target.id, contents.id));
        contents
    }

    /// Whether the two nodes are the same node.
    pub fn same_node(&self, x: ParseNode, y: ParseNode) -> (b: bool)
        ensures
            b == (x == y),
    {
        x == y
    }

    /// The name of an element.
    pub fn elem_name(&self, target: ParseNode) -> (name: QualName)
        requires
            target.id < self.data().len(),
            self.data()[target.id as int].qual_name is Some,
        ensures
            qual_name_eq(name, self.data()[target.id as int].qual_name->0),
    {
        match &self.parse_data[target.id].qual_name {
            Some(q) => QualName { ns: q.ns.clone(), local: q.local.clone() },
            None => QualName { ns: String::new(), local: String::new() },
        }
    }

    /// A new element: a new node with the name, for which the operation that
    /// creates the element is queued.
    pub fn create_element(&mut self, name: QualName, attrs: Vec<ServoAttribute>) -> (n: ParseNode)
        ensures
            n.id == old(self).data().len(),
            final(self).data().len() == old(self).data().len() + 1,
            final(self).data().take(n.id as int) == old(self).data(),
            final(self).data()[n.id as int].parent is None,
            final(self).data()[n.id as int].qual_name matches Some(q) && qual_name_eq(q, name),
            final(self).queued().len() == old(self).queued().len() + 1,
            final(self).queued().take(old(self).queued().len() as int) == old(self).queued(),
            final(self).queued().last() matches ParserOperation::CreateElement(q, a, id)
                && q == name && a == attrs && id == n.id,
            final(self).quirks() == old(self).quirks(),
    {
        let node = self.new_parse_node();
        let copy = QualName { ns: name.ns.clone(), local: name.local.clone() };
        self.parse_data.set(node.id, ParseNodeData { qual_name: Some(copy), parent: None });
        self.enqueue(ParserOperation::CreateElement(name, attrs, node.id));
        proof {
            assert(self.data().take(node.id as int) =~= old(self).data());
            assert(self.queued().take(old(self).queued().len() as int) =~= old(self).queued());
        }
        node
    }

    /// A new comment: a new node, for which the operation that creates the
    /// comment is queued.
    pub fn create_comment(&mut self, text: String) -> (n: ParseNode)
        ensures
            n.id == old(self).data().len(),
            final(self).data() == old(self).data().push(ParseNodeData { qual_name: None, parent: None }),
            final(self).queued() == old(self).queued().push(ParserOperation::CreateComment(text, n.id)),
            final(self).quirks() == old(self).quirks(),
    {
        let node = self.new_parse_node();
        self.enqueue(ParserOperation::CreateComment(text, node.id));
        node
    }

    /// Inserts before `sibling`: without a parent for the sibling, the node
    /// or text is handed back; else a node gets the sibling's parent as its
    /// parent, and the insertion is queued.
    pub fn append_before_sibling(&mut self, sibling: ParseNode, new_node: NodeOrText) -> (r: Result<(), NodeOrText>)
        requires
            sibling.id < old(self).data().len(),
            new_node matches NodeOrText::AppendNode(n) ==> n.id < old(self).data().len(),
        ensures
            final(self).quirks() == old(self).quirks(),
            match old(self).data()[sibling.id as int].parent {
                None => r == Err::<(), NodeOrText>(new_node) && *final(self) == *old(self),
                Some(p) => {
                    &&& r is Ok
                    &&& final(self).data() == match new_node {
                        NodeOrText::AppendNode(n) => old(self).data().update(
                            n.id as int,
                            ParseNodeData { qual_name: old(self).data()[n.id as int].qual_name, parent: Some(p) },
                        ),
                        NodeOrText::AppendText(_) => old(self).data(),
                    }
                    &&& final(self).queued() == old(self).queued().push(
                        ParserOperation::Insert(
                            p,
                            Some(sibling.id),
                            match new_node {
                                NodeOrText::AppendNode(n) => ServoNodeOrText::Node(n.id),
                                NodeOrText::AppendText(t) => ServoNodeOrText::Text(t),
                            },
                        ),
                    )
                },
            },
    {
        let parent = match self.parse_data[sibling.id].parent {
            Some(p) => p,
            None => return Err(new_node),
        };
        let child = match new_node {
            NodeOrText::AppendNode(n) => {
                let name = self.take_name(n.id);
                self.parse_data.set(n.id, ParseNodeData { qual_name: name, parent: Some(parent) });
                ServoNodeOrText::Node(n.id)
            },
            NodeOrText::AppendText(t) => ServoNodeOrText::Text(t),
        };
        self.enqueue(ParserOperation::Insert(parent, Some(sibling.id), child));
        Ok(())
    }

    /// Takes the name of node `id` out of its data (which is then replaced).
    fn take_name(&mut self, id: usize) -> (q: Option<QualName>)
        requires
            id < old(self).data().len(),
        ensures
            q == old(self).data()[id as int].qual_name,
            final(self).data().len() == old(self).data().len(),
            forall|k: int| 0 <= k < old(self).data().len() && k != id ==> final(self).data()[k] == old(self).data()[k],
            final(self).queued() == old(self).queued(),
            final(self).quirks() == old(self).quirks(),
    {
        let mut d = ParseNodeData { qual_name: None, parent: None };
        let slot = &mut self.parse_data[id];
        std::mem::swap(slot, &mut d);
        d.qual_name
    }

    /// Parse errors are not acted on.
    pub fn parse_error(&mut self, msg: &str)
        ensures
            *final(self) == *old(self),
    {
    }

    /// Sets the document's quirks mode.
    pub fn set_quirks_mode(&mut self, mode: QuirksMode)
        ensures
            final(self).quirks() == Some(mode),
            final(self).data() == old(self).data(),
            final(self).queued() == old(self).queued(),
    {
        self.quirks_mode = Some(mode);
    }

    /// Appends a node or text to `parent`: the insertion is queued (the
    /// node's parent is not recorded).
    pub fn append(&mut self, parent: ParseNode, child: NodeOrText)
        ensures
            final(self).data() == old(self).data(),
            final(self).quirks() == old(self).quirks(),
            final(self).queued() == old(self).queued().push(
                ParserOperation::Insert(
                    parent.id,
                    None,
                    match child {
                        NodeOrText::AppendNode(n) => ServoNodeOrText::Node(n.id),
                        NodeOrText::AppendText(t) => ServoNodeOrText::Text(t),
                    },
                ),
            ),
    {
        let child = match child {
            NodeOrText::AppendNode(n) => ServoNodeOrText::Node(n.id),
            NodeOrText::AppendText(t) => ServoNodeOrText::Text(t),
        };
        self.enqueue(ParserOperation::Insert(parent.id, None, child));
    }

    pub fn append_doctype_to_document(&mut self, name: String, public_id: String, system_id: String)
        ensures
            final(self).data() == old(self).data(),
            final(self).quirks() == old(self).quirks(),
            final(self).queued() == old(self).queued().push(
                ParserOperation::AppendDoctypeToDocument(name, public_id, system_id),
            ),
    {
        self.enqueue(ParserOperation::AppendDoctypeToDocument(name, public_id, system_id));
    }

    pub fn add_attrs_if_missing(&mut self, target: ParseNode, attrs: Vec<ServoAttribute>)
        ensures
            final(self).data() == old(self).data(),
            final(self).quirks() == old(self).quirks(),
            final(self).queued() == old(self).queued().push(
                ParserOperation::AddAttrsIfMissing(target.id, attrs),
            ),
    {
        self.enqueue(ParserOperation::AddAttrsIfMissing(target.id, attrs));
    }

    /// The node loses its parent; its removal is queued.
    pub fn remove_from_parent(&mut self, target: ParseNode)
        requires
            target.id < old(self).data().len(),
        ensures
            final(self).quirks() == old(self).quirks(),
            final(self).data() == old(self).data().update(
                target.id as int,
                ParseNodeData { qual_name: old(self).data()[target.id as int].qual_name, parent: None },
            ),
            final(self).queued() == old(self).queued().push(ParserOperation::RemoveFromParent(target.id)),
    {
        let name = self.take_name(target.id);
        self.parse_data.set(target.id, ParseNodeData { qual_name: name, parent: None });
        proof {
            assert(self.data() =~= old(self).data().update(
                target.id as int,
                ParseNodeData { qual_name: old(self).data()[target.id as int].qual_name, parent: None },
            ));
        }
        self.enqueue(ParserOperation::RemoveFromParent(target.id));
    }

    pub fn mark_script_already_started(&mut self, node: ParseNode)
        ensures
            final(self).data() == old(self).data(),
            final(self).quirks() == old(self).quirks(),
            final(self).queued() == old(self).queued().push(ParserOperation::MarkScriptAlreadyStarted(node.id)),
    {
        self.enqueue(ParserOperation::MarkScriptAlreadyStarted(node.id));
    }

    /// The script is complete: its completion is queued and parsing goes on.
    pub fn complete_script(&mut self, node: ParseNode) -> (s: NextParserState)
        ensures
            s == NextParserState::Continue,
            final(self).data() == old(self).data(),
            final(self).quirks() == old(self).quirks(),
            final(self).queued() == old(self).queued().push(ParserOperation::CompleteScript(node.id)),
    {
        self.enqueue(ParserOperation::CompleteScript(node.id));
        NextParserState::Continue
    }

    /// The children of `node` get `new_parent` as their parent; the moving
    /// of the children is queued.
    pub fn reparent_children(&mut self, node: ParseNode, new_parent: ParseNode)
        ensures
            final(self).quirks() == old(self).quirks(),
            final(self).data().len() == old(self).data().len(),
            forall|k: int| 0 <= k < old(self).data().len() ==> {
                let d0 = old(self).data()[k];
                let d1 = #[trigger] final(self).data()[k];
                &&& d1.qual_name == d0.qual_name
                &&& d1.parent == if d0.parent == Some(node.id) { Some(new_parent.id) } else { d0.parent }
            },
            final(self).queued() == old(self).queued().push(ParserOperation::ReparentChild(node.id, new_parent.id)),
    {
        let n = self.parse_data.len();
        let mut k: usize = 0;
        while k < n
            invariant
                n == old(self).data().len(),
                n == self.data().len(),
                k <= n,
                self.queued() == old(self).queued(),
                self.quirks() == old(self).quirks(),
                forall|j: int| 0 <= j < n ==> {
                    let d0 = old(self).data()[j];
                    let d1 = #[trigger] self.data()[j];
                    &&& d1.qual_name == d0.qual_name
                    &&& d1.parent == if j < k && d0.parent == Some(node.id) { Some(new_parent.id) } else { d0.parent }
                },
            decreases n - k,
        {
            if self.parse_data[k].parent == Some(node.id) {
                let name = self.take_name(k);
                self.parse_data.set(k, ParseNodeData { qual_name: name, parent: Some(new_parent.id) });
            }
            k = k + 1;
        }
        self.enqueue(ParserOperation::ReparentChild(node.id, new_parent.id));
    }
}


/// The node of the tree that each parser id stands for.
pub struct NodeMap {
    slots: Vec<Option<usize>>,
}

impl NodeMap {
    pub closed spec fn at(&self, id: int) -> Option<usize> {
        if 0 <= id < self.slots@.len() {
            self.slots@[id]
        } else {
            None
        }
    }

    /// Parser id 0 stands for node 0, the document.
    pub fn new() -> (m: NodeMap)
        ensures
            m.at(0) == Some(0usize),
            forall|id: int| id != 0 ==> m.at(id) is None,
    {
        let mut slots: Vec<Option<usize>> = Vec::new();
        slots.push(Some(0));
        NodeMap { slots }
    }

    pub fn get(&self, id: usize) -> (r: Option<usize>)
        ensures
            r == self.at(id as int),
    {
        if id < self.slots.len() {
            self.slots[id]
        } else {
            None
        }
    }

    /// Makes `id` stand for node `v`; returns what it stood for before.
    pub fn insert(&mut self, id: usize, v: usize) -> (prev: Option<usize>)
        ensures
            prev == old(self).at(id as int),
            final(self).at(id as int) == Some(v),
            forall|k: int| k != id ==> #[trigger] final(self).at(k) == old(self).at(k),
    {
        let ghost s0 = self.slots@;
        while self.slots.len() <= id
            invariant
                s0 == old(self).slots@,
                s0.len() <= self.slots@.len(),
                forall|k: int| 0 <= k < s0.len() ==> self.slots@[k] == s0[k],
                forall|k: int| s0.len() <= k < self.slots@.len() ==> self.slots@[k] is None,
            decreases id + 1 - self.slots@.len(),
        {
            self.slots.push(None);
        }
        proof {
            assert forall|k: int| #[trigger] self.at(k) == old(self).at(k) by {
                if 0 <= k < s0.len() {
                    assert(self.slots@[k] == s0[k]);
                }
            }
        }
        let prev = self.slots[id];
        self.slots.set(id, Some(v));
        prev
    }
}

/// Every id stands for a node of `dom`.
pub open spec fn ids_in(nodes: NodeMap, dom: Dom) -> bool {
    forall|id: int| #[trigger] nodes.at(id) matches Some(n) ==> n < dom.len()
}

/// The attributes after each attribute of `new` is added in turn, unless
/// one of its name is there already.
pub open spec fn with_attrs(a0: Seq<Attr>, new: Seq<ServoAttribute>) -> Seq<Attr>
    decreases new.len(),
{
    if new.len() == 0 {
        a0
    } else {
        let a = with_attrs(a0, new.drop_last());
        let x = new.last();
        if crate::dom_tree::has_attr(a, x.name) {
            a
        } else {
            a.push(Attr { name: x.name, value: x.value })
        }
    }
}

/// Adds the parser's attributes to element `n`, each unless there.
fn add_attrs(dom: &mut Dom, n: usize, attrs: Vec<ServoAttribute>)
    requires
        old(dom).wf(),
        n < old(dom).len(),
        old(dom).kind(n as int) is Element,
    ensures
        final(dom).wf(),
        final(dom).len() == old(dom).len(),
        forall|m: int| 0 <= m < old(dom).len() ==> #[trigger] final(dom).kids(m) == old(dom).kids(m),
        forall|m: int| 0 <= m < old(dom).len() && m != n ==> #[trigger] final(dom).kind(m) == old(dom).kind(m),
        ({
            let k0 = old(dom).kind(n as int);
            let k1 = final(dom).kind(n as int);
            &&& k1 is Element
            &&& k1->qual_name == k0->qual_name
            &&& k1->template_contents == k0->template_contents
            &&& k1->already_started == k0->already_started
            &&& k1->attrs@ == with_attrs(k0->attrs@, attrs@)
        }),
{
    let ghost all = attrs@;
    let total = attrs.len();
    let mut rest = attrs;
    let mut i: usize = 0;
    proof {
        assert(all.take(0) =~= Seq::<ServoAttribute>::empty());
        assert(rest@ =~= all.subrange(0, total as int));
    }
    while i < total
        invariant
            total == all.len(),
            i <= total,
            rest@ == all.subrange(i as int, total as int),
            n < dom.len(),
            dom.wf(),
            dom.len() == old(dom).len(),
            forall|m: int| 0 <= m < old(dom).len() ==> #[trigger] dom.kids(m) == old(dom).kids(m),
            forall|m: int| 0 <= m < old(dom).len() && m != n ==> #[trigger] dom.kind(m) == old(dom).kind(m),
            ({
                let k0 = old(dom).kind(n as int);
                let k1 = dom.kind(n as int);
                &&& k1 is Element
                &&& k1->qual_name == k0->qual_name
                &&& k1->template_contents == k0->template_contents
                &&& k1->already_started == k0->already_started
                &&& k1->attrs@ == with_attrs(k0->attrs@, all.take(i as int))
            }),
        decreases total - i,
    {
        let a = rest.remove(0);
        let ghost before = *dom;
        proof {
            assert(a == all[i as int]);
            assert(all.take(i + 1).drop_last() =~= all.take(i as int));
            assert(rest@ =~= all.subrange(i + 1, total as int));
        }
        dom.set_attribute_from_parser(n, Attr { name: a.name, value: a.value });
        proof {
            assert forall|m: int| 0 <= m < old(dom).len() implies #[trigger] dom.kids(m) == old(dom).kids(m) by {
                assert(before.kids(m) == old(dom).kids(m));
            }
            assert forall|m: int| 0 <= m < old(dom).len() && m != n implies #[trigger] dom.kind(m) == old(dom).kind(m) by {
                assert(before.kind(m) == old(dom).kind(m));
            }
        }
        i = i + 1;
    }
    proof {
        assert(all.take(total as int) =~= all);
    }
}


/// The kinds of node a text can be inserted into.
pub open spec fn text_parent(k: NodeKind) -> bool {
    k is DocumentFragment || k is Element
}

/// What an operation needs: the document at id 0; the ids it names stand
/// for nodes; a template for template contents, whose contents id is new;
/// an element for attributes; a valid insertion (see
/// [`Dom::insertion_valid`]); two different nodes for moving children.
pub open spec fn op_valid(dom: Dom, nodes: NodeMap, op: ParserOperation) -> bool {
    &&& nodes.at(0) matches Some(d) && dom.kind(d as int) is Document
    &&& match op {
        ParserOperation::GetTemplateContents(target, contents) => nodes.at(target as int) matches Some(t)
            && dom.kind(t as int) matches NodeKind::Element { qual_name, .. } && is_template_name(qual_name)
            && nodes.at(contents as int) is None,
        ParserOperation::CreateElement(..) => true,
        ParserOperation::CreateComment(..) => true,
        ParserOperation::Insert(parent, reference, new_node) => {
            &&& nodes.at(parent as int) is Some
            &&& reference matches Some(r) ==> nodes.at(r as int) is Some
            &&& {
                let p = nodes.at(parent as int)->0 as int;
                let r = match reference {
                    Some(x) => Some(nodes.at(x as int)->0),
                    None => None,
                };
                match new_node {
                    ServoNodeOrText::Node(n) => nodes.at(n as int) is Some && dom.insertion_valid(
                        p,
                        nodes.at(n as int)->0 as int,
                        r,
                    ),
                    ServoNodeOrText::Text(_) => text_parent(dom.kind(p)) && (r matches Some(x)
                        ==> dom.kids(p).contains(x)),
                }
            }
        },
        ParserOperation::AppendDoctypeToDocument(..) => true,
        ParserOperation::AddAttrsIfMissing(id, _) => nodes.at(id as int) matches Some(t) && dom.kind(
            t as int,
        ) is Element,
        ParserOperation::RemoveFromParent(target) => nodes.at(target as int) is Some,
        ParserOperation::MarkScriptAlreadyStarted(n) => nodes.at(n as int) is Some,
        ParserOperation::CompleteScript(n) => nodes.at(n as int) is Some,
        ParserOperation::ReparentChild(n, p) => nodes.at(n as int) is Some && nodes.at(p as int) is Some
            && nodes.at(n as int) != nodes.at(p as int) && children_movable(
            dom,
            nodes.at(n as int)->0 as int,
            nodes.at(p as int)->0 as int,
        ),
    }
}

/// Every child of node `x` may be appended to node `p` (see
/// [`Dom::insertion_valid`]).
pub open spec fn children_movable(dom: Dom, x: int, p: int) -> bool {
    forall|j: int| 0 <= j < dom.kids(x).len() ==> dom.insertion_valid(p, #[trigger] dom.kids(x)[j] as int, None)
}

/// Whether every child of node `x` may be appended to node `p`.
pub fn can_move_children(dom: &Dom, x: usize, p: usize) -> (b: bool)
    requires
        dom.wf(),
        x < dom.len(),
        p < dom.len(),
    ensures
        b == children_movable(*dom, x as int, p as int),
{
    let ks = dom.children(x);
    let n = ks.len();
    let mut j: usize = 0;
    proof {
        dom.lemma_kids_in_range(x as int);
    }
    while j < n
        invariant
            ks@ == dom.kids(x as int),
            n == ks@.len(),
            j <= n,
            dom.wf(),
            p < dom.len(),
            forall|i: int| 0 <= i < n ==> #[trigger] ks@[i] < dom.len(),
            forall|i: int| 0 <= i < j ==> dom.insertion_valid(p as int, #[trigger] ks@[i] as int, None),
        decreases n - j,
    {
        if !dom.can_append(p, ks[j]) {
            return false;
        }
        j = j + 1;
    }
    true
}

/// Whether node `n` is a script element.
pub open spec fn is_script(dom: Dom, n: int) -> bool {
    dom.kind(n) matches NodeKind::Element { qual_name, .. } && is_script_name(qual_name)
}

fn is_script_node(dom: &Dom, n: usize) -> (b: bool)
    requires
        n < dom.len(),
    ensures
        b == is_script(*dom, n as int),
{
    match dom.node_kind(n) {
        NodeKind::Element { qual_name, .. } => {
            let r = crate::origin::string_is(&qual_name.ns, "http://www.w3.org/1999/xhtml")
                && crate::origin::string_is(&qual_name.local, "script");
            r
        },
        _ => false,
    }
}

/// The kids of every node are as before, but for the nodes `ex`.
pub open spec fn kids_same_but(d0: Dom, d1: Dom, ex: Set<int>) -> bool {
    forall|m: int| 0 <= m < d0.len() && !ex.contains(m) ==> #[trigger] d1.kids(m) == d0.kids(m)
}

/// The kind of every node is as before, but for the nodes `ex`.
pub open spec fn kinds_same_but(d0: Dom, d1: Dom, ex: Set<int>) -> bool {
    forall|m: int| 0 <= m < d0.len() && !ex.contains(m) ==> #[trigger] d1.kind(m) == d0.kind(m)
}


/// `n1` is `n0` with `id` standing for `v`.
pub open spec fn ids_set(n0: NodeMap, n1: NodeMap, id: int, v: usize) -> bool {
    &&& n1.at(id) == Some(v)
    &&& forall|k: int| k != id ==> #[trigger] n1.at(k) == n0.at(k)
}

/// A new node `x` of kind `k` was added to `d0`, giving `d1`; nothing else
/// changed.
pub open spec fn node_added(d0: Dom, d1: Dom, x: int, k: NodeKind) -> bool {
    &&& x == d0.len()
    &&& d1.len() == d0.len() + 1
    &&& d1.kind(x) == k
    &&& d1.kids(x).len() == 0
    &&& kids_same_but(d0, d1, Set::empty())
    &&& kinds_same_but(d0, d1, Set::empty())
}

/// The children of `p` after `c` is inserted before `r` (last for `None`),
/// `c` having been taken out of its parent first.
pub open spec fn inserted_kids(d0: Dom, p: int, c: int, r: Option<usize>) -> Seq<usize> {
    let k1 = d0.kids_without(c, p);
    match r {
        Some(x) => k1.insert(index_in(k1, x), c as usize),
        None => k1.push(c as usize),
    }
}

/// `d1` is `d0` after node `c` is inserted into `p` before `r`.
pub open spec fn insertion_done(d0: Dom, d1: Dom, p: int, c: int, r: Option<usize>) -> bool {
    &&& d1.len() == d0.len()
    &&& d1.kids(p) == inserted_kids(d0, p, c, r)
    &&& forall|m: int| 0 <= m < d0.len() && m != p ==> #[trigger] d1.kids(m) == d0.kids_without(c, m)
    &&& kinds_same_but(d0, d1, Set::empty())
}

/// What the operation did to the tree `d0` and the ids `n0`, giving `d1`
/// and `n1`; `prepare` is the script element whose script must be prepared.
pub open spec fn op_done(
    d0: Dom,
    n0: NodeMap,
    op: ParserOperation,
    d1: Dom,
    n1: NodeMap,
    prepare: Option<usize>,
) -> bool {
    match op {
        ParserOperation::GetTemplateContents(target, contents) => {
            let t = n0.at(target as int)->0 as int;
            let tc = d0.kind(t)->template_contents;
            let f: usize = match tc {
                Some(x) => x,
                None => d0.len() as usize,
            };
            &&& prepare is None
            &&& ids_set(n0, n1, contents as int, f)
            &&& match tc {
                Some(_) => d1.len() == d0.len() && kids_same_but(d0, d1, Set::empty()) && kinds_same_but(d0, d1, Set::empty()),
                None => {
                    &&& d1.len() == d0.len() + 1
                    &&& d1.kind(f as int) == NodeKind::DocumentFragment
                    &&& d1.kids(f as int).len() == 0
                    &&& kids_same_but(d0, d1, Set::empty())
                    &&& kinds_same_but(d0, d1, set![t])
                    &&& d1.kind(t) is Element
                    &&& d1.kind(t)->qual_name == d0.kind(t)->qual_name
                    &&& d1.kind(t)->attrs == d0.kind(t)->attrs
                    &&& d1.kind(t)->already_started == d0.kind(t)->already_started
                    &&& d1.kind(t)->template_contents == Some(f)
                },
            }
        },
        ParserOperation::CreateElement(name, attrs, id) => {
            let e = d0.len() as int;
            &&& prepare is None
            &&& ids_set(n0, n1, id as int, e as usize)
            &&& d1.len() == d0.len() + 1
            &&& d1.kids(e).len() == 0
            &&& kids_same_but(d0, d1, Set::empty())
            &&& kinds_same_but(d0, d1, Set::empty())
            &&& d1.kind(e) matches NodeKind::Element { qual_name, attrs: a, template_contents, already_started }
                && qual_name == name && a@ == with_attrs(Seq::empty(), attrs@) && template_contents is None
                && !already_started
        },
        ParserOperation::CreateComment(text, id) => {
            &&& prepare is None
            &&& ids_set(n0, n1, id as int, d0.len() as usize)
            &&& node_added(d0, d1, d0.len() as int, NodeKind::Comment(text))
        },
        ParserOperation::Insert(parent, reference, new_node) => {
            let p = n0.at(parent as int)->0 as int;
            let r = match reference {
                Some(x) => Some(n0.at(x as int)->0),
                None => None,
            };
            &&& prepare is None
            &&& n1 == n0
            &&& match new_node {
                ServoNodeOrText::Node(n) => insertion_done(d0, d1, p, n0.at(n as int)->0 as int, r),
                ServoNodeOrText::Text(text) => {
                    let x = d0.len() as int;
                    &&& d1.len() == d0.len() + 1
                    &&& d1.kind(x) == NodeKind::Text(text)
                    &&& d1.kids(x).len() == 0
                    &&& kinds_same_but(d0, d1, Set::empty())
                    &&& d1.kids(p) == match r {
                        Some(y) => d0.kids(p).insert(index_in(d0.kids(p), y), x as usize),
                        None => d0.kids(p).push(x as usize),
                    }
                    &&& kids_same_but(d0, d1, set![p])
                },
            }
        },
        ParserOperation::AppendDoctypeToDocument(name, public_id, system_id) => {
            let doc = n0.at(0)->0 as int;
            let x = d0.len() as int;
            &&& prepare is None
            &&& n1 == n0
            &&& d1.len() == d0.len() + 1
            &&& d1.kind(x) == NodeKind::Doctype { name, public_id, system_id }
            &&& d1.kids(x).len() == 0
            &&& kinds_same_but(d0, d1, Set::empty())
            &&& d1.kids(doc) == d0.kids(doc).push(x as usize)
            &&& kids_same_but(d0, d1, set![doc])
        },
        ParserOperation::AddAttrsIfMissing(id, attrs) => {
            let t = n0.at(id as int)->0 as int;
            &&& prepare is None
            &&& n1 == n0
            &&& d1.len() == d0.len()
            &&& kids_same_but(d0, d1, Set::empty())
            &&& kinds_same_but(d0, d1, set![t])
            &&& d1.kind(t) is Element
            &&& d1.kind(t)->qual_name == d0.kind(t)->qual_name
            &&& d1.kind(t)->template_contents == d0.kind(t)->template_contents
            &&& d1.kind(t)->already_started == d0.kind(t)->already_started
            &&& d1.kind(t)->attrs@ == with_attrs(d0.kind(t)->attrs@, attrs@)
        },
        ParserOperation::RemoveFromParent(target) => {
            let c = n0.at(target as int)->0 as int;
            &&& prepare is None
            &&& n1 == n0
            &&& d1.len() == d0.len()
            &&& d1.detached(c)
            &&& forall|m: int| 0 <= m < d0.len() ==> #[trigger] d1.kids(m) == d0.kids_without(c, m)
            &&& kinds_same_but(d0, d1, Set::empty())
        },
        ParserOperation::MarkScriptAlreadyStarted(node) => {
            let x = n0.at(node as int)->0 as int;
            &&& prepare is None
            &&& n1 == n0
            &&& d1.len() == d0.len()
            &&& kids_same_but(d0, d1, Set::empty())
            &&& if is_script(d0, x) {
                &&& kinds_same_but(d0, d1, set![x])
                &&& d1.kind(x) is Element
                &&& d1.kind(x)->qual_name == d0.kind(x)->qual_name
                &&& d1.kind(x)->attrs == d0.kind(x)->attrs
                &&& d1.kind(x)->template_contents == d0.kind(x)->template_contents
                &&& d1.kind(x)->already_started
            } else {
                kinds_same_but(d0, d1, Set::empty())
            }
        },
        ParserOperation::CompleteScript(node) => {
            let x = n0.at(node as int)->0;
            &&& n1 == n0
            &&& d1.len() == d0.len()
            &&& kids_same_but(d0, d1, Set::empty())
            &&& kinds_same_but(d0, d1, Set::empty())
            &&& prepare == if is_script(d0, x as int) { Some(x) } else { None }
        },
        ParserOperation::ReparentChild(node, new_parent) => {
            let x = n0.at(node as int)->0 as int;
            let p = n0.at(new_parent as int)->0 as int;
            let ks = d0.kids(x);
            &&& prepare is None
            &&& n1 == n0
            &&& d1.len() == d0.len()
            &&& kinds_same_but(d0, d1, Set::empty())
            &&& kids_same_but(d0, d1, set![x, p])
            &&& d1.kids(x).len() == 0
            &&& d1.kids(p) == d0.kids(p) + ks
        },
    }
}


/// The position among the children `ks` of the first element, from `k` on.
pub open spec fn first_element_from(dom: Dom, ks: Seq<usize>, k: int) -> Option<int>
    decreases ks.len() - k,
{
    if k < 0 || k >= ks.len() {
        None
    } else if dom.kind(ks[k] as int) is Element {
        Some(k)
    } else {
        first_element_from(dom, ks, k + 1)
    }
}

/// The document element of the document `doc`: its first element child.
pub open spec fn document_element(dom: Dom, doc: int) -> Option<int> {
    match first_element_from(dom, dom.kids(doc), 0) {
        Some(k) => Some(dom.kids(doc)[k] as int),
        None => None,
    }
}

/// The document element of the document `doc`, if it has one.
pub fn find_document_element(dom: &Dom, doc: usize) -> (r: Option<usize>)
    requires
        dom.wf(),
        doc < dom.len(),
    ensures
        match r {
            Some(e) => document_element(*dom, doc as int) == Some(e as int) && e < dom.len(),
            None => document_element(*dom, doc as int) is None,
        },
{
    let ks = dom.children(doc);
    let n = ks.len();
    let mut k: usize = 0;
    proof {
        dom.lemma_kids_in_range(doc as int);
    }
    while k < n
        invariant
            dom.wf(),
            doc < dom.len(),
            ks@ == dom.kids(doc as int),
            n == ks@.len(),
            k <= n,
            forall|i: int| 0 <= i < n ==> #[trigger] ks@[i] < dom.len(),
            first_element_from(*dom, ks@, 0) == first_element_from(*dom, ks@, k as int),
        decreases n - k,
    {
        let c = ks[k];
        match dom.node_kind(c) {
            NodeKind::Element { .. } => {
                return Some(c);
            },
            _ => {},
        }
        k = k + 1;
    }
    None
}

/// Parsing an HTML fragment, step 14: the children of the document element
/// of the document `doc` that the fragment was parsed into move, in order,
/// to the end of `output`'s; each must be one that `output` may take.
pub fn adopt_fragment_children(dom: &mut Dom, doc: usize, output: usize)
    requires
        old(dom).wf(),
        doc < old(dom).len(),
        output < old(dom).len(),
        document_element(*old(dom), doc as int) matches Some(e) && e != output && children_movable(
            *old(dom),
            e,
            output as int,
        ),
    ensures
        final(dom).wf(),
        final(dom).len() == old(dom).len(),
        kinds_same_but(*old(dom), *final(dom), Set::empty()),
        ({
            let e = document_element(*old(dom), doc as int)->0;
            let ks = old(dom).kids(e);
            &&& kids_same_but(*old(dom), *final(dom), set![e, output as int])
            &&& final(dom).kids(e).len() == 0
            &&& final(dom).kids(output as int) == old(dom).kids(output as int) + ks
        }),
{
    let e = find_document_element(dom, doc).unwrap();
    move_children(dom, e, output);
    proof {
        let ks = old(dom).kids(e as int);
        let k = choose|k: int| 0 <= k <= ks.len() && dom.kids(e as int) == ks.skip(k)
            && dom.kids(output as int) == old(dom).kids(output as int) + ks.take(k) && (k < ks.len()
            ==> !old(dom).insertion_valid(output as int, ks[k] as int, None)) && forall|j: int|
            0 <= j < k ==> old(dom).insertion_valid(output as int, #[trigger] ks[j] as int, None);
        if k < ks.len() {
            assert(old(dom).insertion_valid(output as int, ks[k] as int, None));
        }
        assert(ks.take(k) =~= ks);
    }
}

/// Moves the children of node `x`, in order, to the end of node `p`'s,
/// stopping at the first that may not be appended to `p` (in the tree as
/// it was: the moves do not change what `p` may take).
fn move_children(dom: &mut Dom, x: usize, p: usize)
    requires
        old(dom).wf(),
        x < old(dom).len(),
        p < old(dom).len(),
        x != p,
    ensures
        final(dom).wf(),
        final(dom).len() == old(dom).len(),
        kinds_same_but(*old(dom), *final(dom), Set::empty()),
        kids_same_but(*old(dom), *final(dom), set![x as int, p as int]),
        ({
            let ks = old(dom).kids(x as int);
            exists|k: int| 0 <= k <= ks.len() && final(dom).kids(x as int) == ks.skip(k) && final(dom).kids(p as int)
                == old(dom).kids(p as int) + ks.take(k) && (k < ks.len() ==> !old(dom).insertion_valid(
                p as int,
                ks[k] as int,
                None,
            )) && forall|j: int| 0 <= j < k ==> old(dom).insertion_valid(p as int, #[trigger] ks[j] as int, None)
        }),
{
    let ghost d0 = *dom;
    let ghost ks = d0.kids(x as int);
    let ghost mut k: int = 0;
    proof {
        assert(ks.skip(0) =~= ks);
        assert(d0.kids(p as int) + ks.take(0) =~= d0.kids(p as int));
    }
    loop
        invariant
            dom.wf(),
            x < dom.len(),
            p < dom.len(),
            x != p,
            dom.len() == d0.len(),
            kinds_same_but(d0, *dom, Set::empty()),
            kids_same_but(d0, *dom, set![x as int, p as int]),
            0 <= k <= ks.len(),
            dom.kids(x as int) == ks.skip(k),
            dom.kids(p as int) == d0.kids(p as int) + ks.take(k),
            dom.ancestors(p as int, dom.len()) == d0.ancestors(p as int, d0.len()),
            forall|j: int| 0 <= j < k ==> d0.insertion_valid(p as int, #[trigger] ks[j] as int, None),
        ensures
            dom.wf(),
            dom.len() == d0.len(),
            kinds_same_but(d0, *dom, Set::empty()),
            kids_same_but(d0, *dom, set![x as int, p as int]),
            0 <= k <= ks.len(),
            dom.kids(x as int) == ks.skip(k),
            dom.kids(p as int) == d0.kids(p as int) + ks.take(k),
            k < ks.len() ==> !d0.insertion_valid(p as int, ks[k] as int, None),
            forall|j: int| 0 <= j < k ==> d0.insertion_valid(p as int, #[trigger] ks[j] as int, None),
        decreases dom.kids(x as int).len(),
    {
        match dom.first_child(x) {
            None => {
                proof {
                    assert(ks.skip(k).len() == 0);
                }
                break ;
            },
            Some(c) => {
                proof {
                    assert(ks.skip(k)[0] == ks[k]);
                    assert(dom.insertion_valid(p as int, c as int, None) == d0.insertion_valid(p as int, c as int, None)) by {
                        assert(dom.kind(p as int) == d0.kind(p as int));
                        assert(dom.kind(c as int) == d0.kind(c as int));
                    }
                }
                if !dom.can_append(p, c) {
                    break ;
                }
                let ghost before = *dom;
                proof {
                    before.lemma_parent_of_child(x as int, 0, c as int);
                }
                dom.append_child(p, c);
                proof {
                    assert(before.kids_without(c as int, x as int) == before.kids(x as int).remove(0));
                    assert(before.kids_without(c as int, p as int) == before.kids(p as int));
                    assert(dom.kids(x as int) =~= ks.skip(k + 1));
                    assert(dom.kids(p as int) =~= d0.kids(p as int) + ks.take(k + 1));
                    assert forall|m: int| 0 <= m < d0.len() && !set![x as int, p as int].contains(m) implies #[trigger] dom.kids(m) == d0.kids(m) by {
                        assert(before.kids(m) == d0.kids(m));
                        assert(before.kids_without(c as int, m) == before.kids(m));
                    }
                    assert forall|m: int| 0 <= m < d0.len() implies #[trigger] dom.kind(m) == d0.kind(m) by {
                        assert(before.kind(m) == d0.kind(m));
                    }
                    k = k + 1;
                }
            },
        }
    }
}


/// Whether `x` is among the children of node `p`.
fn has_child(dom: &Dom, p: usize, x: usize) -> (b: bool)
    requires
        p < dom.len(),
    ensures
        b == dom.kids(p as int).contains(x),
{
    let ks = dom.children(p);
    let n = ks.len();
    let mut i: usize = 0;
    while i < n
        invariant
            ks@ == dom.kids(p as int),
            n == ks@.len(),
            i <= n,
            forall|k: int| 0 <= k < i ==> ks@[k] != x,
        decreases n - i,
    {
        if ks[i] == x {
            return true;
        }
        i = i + 1;
    }
    false
}

/// Whether an operation can be applied (see [`op_valid`]), as
/// [`process_op`] requires.
pub fn is_op_valid(dom: &Dom, nodes: &NodeMap, op: &ParserOperation) -> (b: bool)
    requires
        dom.wf(),
        ids_in(*nodes, *dom),
    ensures
        b == op_valid(*dom, *nodes, *op),
{
    let document = match nodes.get(0) {
        Some(d) => d,
        None => return false,
    };
    proof {
        assert(nodes.at(0) matches Some(d) && d < dom.len());
    }
    match dom.node_kind(document) {
        NodeKind::Document => {},
        _ => return false,
    }
    match op {
        ParserOperation::GetTemplateContents(target, contents) => {
            let t = match nodes.get(*target) {
                Some(t) => t,
                None => return false,
            };
            proof {
                assert(nodes.at(*target as int) matches Some(x) && x < dom.len());
            }
            let is_template = match dom.node_kind(t) {
                NodeKind::Element { qual_name, .. } => crate::origin::string_is(
                    &qual_name.ns,
                    "http://www.w3.org/1999/xhtml",
                ) && crate::origin::string_is(&qual_name.local, "template"),
                _ => false,
            };
            is_template && nodes.get(*contents).is_none()
        },
        ParserOperation::CreateElement(..) => true,
        ParserOperation::CreateComment(..) => true,
        ParserOperation::Insert(parent, reference, new_node) => {
            let p = match nodes.get(*parent) {
                Some(p) => p,
                None => return false,
            };
            proof {
                assert(nodes.at(*parent as int) matches Some(x) && x < dom.len());
            }
            let r = match reference {
                Some(x) => match nodes.get(*x) {
                    Some(rn) => Some(rn),
                    None => return false,
                },
                None => None,
            };
            match new_node {
                ServoNodeOrText::Node(n) => {
                    let c = match nodes.get(*n) {
                        Some(c) => c,
                        None => return false,
                    };
                    proof {
                        assert(nodes.at(*n as int) matches Some(x) && x < dom.len());
                    }
                    if !dom.can_append(p, c) {
                        return false;
                    }
                    match r {
                        Some(x) => x != c && has_child(dom, p, x),
                        None => true,
                    }
                },
                ServoNodeOrText::Text(_) => {
                    let parent_ok = match dom.node_kind(p) {
                        NodeKind::DocumentFragment => true,
                        NodeKind::Element { .. } => true,
                        _ => false,
                    };
                    parent_ok && match r {
                        Some(x) => has_child(dom, p, x),
                        None => true,
                    }
                },
            }
        },
        ParserOperation::AppendDoctypeToDocument(..) => true,
        ParserOperation::AddAttrsIfMissing(id, _) => match nodes.get(*id) {
            Some(t) => {
                proof {
                    assert(nodes.at(*id as int) matches Some(x) && x < dom.len());
                }
                match dom.node_kind(t) {
                    NodeKind::Element { .. } => true,
                    _ => false,
                }
            },
            None => false,
        },
        ParserOperation::RemoveFromParent(target) => nodes.get(*target).is_some(),
        ParserOperation::MarkScriptAlreadyStarted(n) => nodes.get(*n).is_some(),
        ParserOperation::CompleteScript(n) => nodes.get(*n).is_some(),
        ParserOperation::ReparentChild(n, p) => match (nodes.get(*n), nodes.get(*p)) {
            (Some(a), Some(b)) => a != b && can_move_children(dom, a, b),
            _ => false,
        },
    }
}

/// Applies one queued operation to the tree `dom`, whose nodes the parser
/// ids in `nodes` stand for (see [`op_done`]). Returns the script element
/// whose script must now be prepared, if any. Reparenting moves all the
/// node's children, in order, to the end of the new parent's; each must be
/// one that the new parent may take (see [`children_movable`]).
pub fn process_op(dom: &mut Dom, nodes: &mut NodeMap, op: ParserOperation) -> (prepare: Option<usize>)
    requires
        old(dom).wf(),
        ids_in(*old(nodes), *old(dom)),
        op_valid(*old(dom), *old(nodes), op),
    ensures
        final(dom).wf(),
        ids_in(*final(nodes), *final(dom)),
        op_done(*old(dom), *old(nodes), op, *final(dom), *final(nodes), prepare),
{
    let document = nodes.get(0).unwrap();
    proof {
        assert(document < dom.len());
    }
    match op {
        ParserOperation::GetTemplateContents(target, contents) => {
            let t = nodes.get(target).unwrap();
            let f = dom.template_content(t);
            let prev = nodes.insert(contents, f);
            proof {
                assert forall|id: int| #[trigger] nodes.at(id) is Some implies nodes.at(id)->0 < dom.len() by {
                    if id != contents as int {
                        assert(nodes.at(id) == old(nodes).at(id));
                    }
                }
            }
            None
        },
        ParserOperation::CreateElement(name, attrs, id) => {
            let elem = dom.add_node(
                NodeKind::Element { qual_name: name, attrs: Vec::new(), template_contents: None, already_started: false },
            );
            let ghost d1 = *dom;
            add_attrs(dom, elem, attrs);
            nodes.insert(id, elem);
            proof {
                assert(with_attrs(Seq::<Attr>::empty(), attrs@) == with_attrs(d1.kind(elem as int)->attrs@, attrs@)) by {
                    assert(d1.kind(elem as int)->attrs@ =~= Seq::<Attr>::empty());
                }
                assert forall|m: int| 0 <= m < old(dom).len() implies #[trigger] dom.kids(m) == old(dom).kids(m) by {
                    assert(d1.kids(m) == old(dom).kids(m));
                }
                assert forall|m: int| 0 <= m < old(dom).len() implies #[trigger] dom.kind(m) == old(dom).kind(m) by {
                    assert(d1.kids(m) == old(dom).kids(m));
                    assert(d1.kind(m) == old(dom).kind(m));
                }
                assert(dom.kids(elem as int) == d1.kids(elem as int));
                assert forall|i: int| #[trigger] nodes.at(i) is Some implies nodes.at(i)->0 < dom.len() by {
                    if i != id as int {
                        assert(nodes.at(i) == old(nodes).at(i));
                    }
                }
            }
            None
        },
        ParserOperation::CreateComment(text, id) => {
            let c = dom.add_node(NodeKind::Comment(text));
            nodes.insert(id, c);
            proof {
                assert forall|i: int| #[trigger] nodes.at(i) is Some implies nodes.at(i)->0 < dom.len() by {
                    if i != id as int {
                        assert(nodes.at(i) == old(nodes).at(i));
                    }
                }
            }
            None
        },
        ParserOperation::Insert(parent, reference, new_node) => {
            let p = nodes.get(parent).unwrap();
            let r = match reference {
                Some(x) => Some(nodes.get(x).unwrap()),
                None => None,
            };
            match new_node {
                ServoNodeOrText::Node(n) => {
                    let c = nodes.get(n).unwrap();
                    dom.insert_before(p, c, r);
                },
                ServoNodeOrText::Text(text) => {
                    let x = dom.add_node(NodeKind::Text(text));
                    let ghost d1 = *dom;
                    proof {
                        assert(d1.kids(p as int) == old(dom).kids(p as int));
                        old(dom).lemma_kids_in_range(p as int);
                        d1.lemma_childless_not_ancestor(p as int, d1.len(), x as int);
                        if let Some(y) = r {
                            assert(old(dom).kids(p as int).contains(y));
                        }
                        assert(d1.parent_of(x as int) is None) by {
                            if exists|q: int, i: int| #[trigger] d1.child_at(q, i, x as int) {
                                let (q, i) = choose|q: int, i: int| #[trigger] d1.child_at(q, i, x as int);
                                assert(d1.kids(q)[i] != x);
                            }
                        }
                        assert forall|m: int| 0 <= m < d1.len() implies #[trigger] d1.kids_without(x as int, m) == d1.kids(m) by {}
                    }
                    dom.insert_before(p, x, r);
                    proof {
                        assert forall|m: int| 0 <= m < old(dom).len() && !set![p as int].contains(m) implies #[trigger] dom.kids(m) == old(dom).kids(m) by {
                            assert(d1.kids(m) == old(dom).kids(m));
                        }
                        assert forall|m: int| 0 <= m < old(dom).len() implies #[trigger] dom.kind(m) == old(dom).kind(m) by {
                            assert(d1.kids(m) == old(dom).kids(m));
                            assert(d1.kind(m) == old(dom).kind(m));
                        }
                        assert(dom.kids(x as int) == d1.kids_without(x as int, x as int));
                    }
                },
            }
            None
        },
        ParserOperation::AppendDoctypeToDocument(name, public_id, system_id) => {
            let x = dom.add_node(NodeKind::Doctype { name, public_id, system_id });
            let ghost d1 = *dom;
            proof {
                d1.lemma_childless_not_ancestor(document as int, d1.len(), x as int);
                assert(d1.kids(document as int) == old(dom).kids(document as int));
                assert(d1.parent_of(x as int) is None) by {
                    if exists|q: int, i: int| #[trigger] d1.child_at(q, i, x as int) {
                        let (q, i) = choose|q: int, i: int| #[trigger] d1.child_at(q, i, x as int);
                        assert(d1.kids(q)[i] != x);
                    }
                }
            }
            dom.append_child(document, x);
            proof {
                assert forall|m: int| 0 <= m < old(dom).len() && !set![document as int].contains(m) implies #[trigger] dom.kids(m) == old(dom).kids(m) by {
                    assert(d1.kids(m) == old(dom).kids(m));
                }
                assert forall|m: int| 0 <= m < old(dom).len() implies #[trigger] dom.kind(m) == old(dom).kind(m) by {
                    assert(d1.kids(m) == old(dom).kids(m));
                    assert(d1.kind(m) == old(dom).kind(m));
                }
                assert(dom.kids(x as int) == d1.kids_without(x as int, x as int));
            }
            None
        },
        ParserOperation::AddAttrsIfMissing(id, attrs) => {
            let t = nodes.get(id).unwrap();
            add_attrs(dom, t, attrs);
            None
        },
        ParserOperation::RemoveFromParent(target) => {
            let c = nodes.get(target).unwrap();
            dom.detach(c);
            None
        },
        ParserOperation::MarkScriptAlreadyStarted(node) => {
            let x = nodes.get(node).unwrap();
            if is_script_node(dom, x) {
                dom.mark_already_started(x);
            }
            None
        },
        ParserOperation::CompleteScript(node) => {
            let x = nodes.get(node).unwrap();
            if is_script_node(dom, x) {
                Some(x)
            } else {
                None
            }
        },
        ParserOperation::ReparentChild(node, new_parent) => {
            let x = nodes.get(node).unwrap();
            let p = nodes.get(new_parent).unwrap();
            move_children(dom, x, p);
            proof {
                let ks = old(dom).kids(x as int);
                let k = choose|k: int| 0 <= k <= ks.len() && dom.kids(x as int) == ks.skip(k)
                    && dom.kids(p as int) == old(dom).kids(p as int) + ks.take(k) && (k < ks.len()
                    ==> !old(dom).insertion_valid(p as int, ks[k] as int, None)) && forall|j: int|
                    0 <= j < k ==> old(dom).insertion_valid(p as int, #[trigger] ks[j] as int, None);
                if k < ks.len() {
                    assert(old(dom).insertion_valid(p as int, ks[k] as int, None));
                }
                assert(ks.take(k) =~= ks);
                assert(dom.kids(x as int).len() == 0);
            }
            None
        },
    }
}


/// Whether a node is serialized with itself or only its children.
#[derive(Clone, Copy, PartialEq, Eq, Structural, Debug)]
pub enum TraversalScope {
    IncludeNode,
    ChildrenOnly,
}

/// A call that serializing makes on the serializer.
pub enum SerializeEvent {
    StartElem(QualName, Vec<Attr>),
    EndElem(QualName),
    Text(String),
    Comment(String),
    Doctype(String),
    ProcessingInstruction(String, String),
}

/// The mathematical value of a serializer call.
pub enum EventView {
    StartElem(Seq<char>, Seq<char>, Seq<(Seq<char>, Seq<char>, Seq<char>)>),
    EndElem(Seq<char>, Seq<char>),
    Text(Seq<char>),
    Comment(Seq<char>),
    Doctype(Seq<char>),
    ProcessingInstruction(Seq<char>, Seq<char>),
}

pub open spec fn attrs_view(a: Seq<Attr>) -> Seq<(Seq<char>, Seq<char>, Seq<char>)> {
    a.map_values(|x: Attr| (x.name.ns@, x.name.local@, x.value@))
}

pub open spec fn event_view(e: SerializeEvent) -> EventView {
    match e {
        SerializeEvent::StartElem(q, a) => EventView::StartElem(q.ns@, q.local@, attrs_view(a@)),
        SerializeEvent::EndElem(q) => EventView::EndElem(q.ns@, q.local@),
        SerializeEvent::Text(s) => EventView::Text(s@),
        SerializeEvent::Comment(s) => EventView::Comment(s@),
        SerializeEvent::Doctype(s) => EventView::Doctype(s@),
        SerializeEvent::ProcessingInstruction(a, b) => EventView::ProcessingInstruction(a@, b@),
    }
}

pub open spec fn events_view(es: Seq<SerializeEvent>) -> Seq<EventView> {
    es.map_values(|e: SerializeEvent| event_view(e))
}

/// The children whose serialization makes up an element's: those of its
/// contents for a template element (none before its contents are made).
pub open spec fn serialized_children(d: Dom, n: int) -> Seq<usize> {
    match d.kind(n) {
        NodeKind::Element { qual_name, template_contents, .. } => if is_template_name(qual_name) {
            match template_contents {
                Some(f) => d.kids(f as int),
                None => Seq::empty(),
            }
        } else {
            d.kids(n)
        },
        _ => d.kids(n),
    }
}

/// The serializer calls for node `n` (the node itself, or its children
/// only), following children at most `fuel` levels deep.
pub open spec fn serialization(d: Dom, n: int, scope: TraversalScope, fuel: nat) -> Seq<EventView>
    decreases fuel, 0nat,
{
    if fuel == 0 {
        Seq::empty()
    } else {
        match d.kind(n) {
            NodeKind::Element { qual_name, attrs, .. } => {
                let inner = serialization_list(d, serialized_children(d, n), (fuel - 1) as nat);
                if scope == TraversalScope::IncludeNode {
                    seq![EventView::StartElem(qual_name.ns@, qual_name.local@, attrs_view(attrs@))] + inner
                        + seq![EventView::EndElem(qual_name.ns@, qual_name.local@)]
                } else {
                    inner
                }
            },
            NodeKind::Document => if scope == TraversalScope::ChildrenOnly {
                serialization_list(d, d.kids(n), (fuel - 1) as nat)
            } else {
                Seq::empty()
            },
            NodeKind::Doctype { name, .. } => if scope == TraversalScope::IncludeNode {
                seq![EventView::Doctype(name@)]
            } else {
                Seq::empty()
            },
            NodeKind::Text(s) => if scope == TraversalScope::IncludeNode {
                seq![EventView::Text(s@)]
            } else {
                Seq::empty()
            },
            NodeKind::Comment(s) => if scope == TraversalScope::IncludeNode {
                seq![EventView::Comment(s@)]
            } else {
                Seq::empty()
            },
            NodeKind::ProcessingInstruction { target, data } => if scope == TraversalScope::IncludeNode {
                seq![EventView::ProcessingInstruction(target@, data@)]
            } else {
                Seq::empty()
            },
            NodeKind::DocumentFragment => Seq::empty(),
        }
    }
}

/// The serializer calls for the nodes `ks`, each with itself, in order.
pub open spec fn serialization_list(d: Dom, ks: Seq<usize>, fuel: nat) -> Seq<EventView>
    decreases fuel, ks.len() + 1,
{
    if ks.len() == 0 {
        Seq::empty()
    } else {
        serialization_list(d, ks.drop_last(), fuel) + serialization(
            d,
            ks.last() as int,
            TraversalScope::IncludeNode,
            fuel,
        )
    }
}

/// Document nodes are nobody's children.
pub open spec fn documents_detached(d: Dom) -> bool {
    forall|m: int| 0 <= m < d.len() && (#[trigger] d.kind(m)) is Document ==> d.detached(m)
}

fn copy_qual_name(q: &QualName) -> (c: QualName)
    ensures
        c.ns@ == q.ns@,
        c.local@ == q.local@,
{
    QualName { ns: q.ns.clone(), local: q.local.clone() }
}

fn copy_attrs(a: &Vec<Attr>) -> (c: Vec<Attr>)
    ensures
        attrs_view(c@) == attrs_view(a@),
{
    let mut out: Vec<Attr> = Vec::new();
    let n = a.len();
    let mut i: usize = 0;
    while i < n
        invariant
            n == a@.len(),
            i <= n,
            attrs_view(out@) == attrs_view(a@.take(i as int)),
        decreases n - i,
    {
        let ghost before = out@;
        out.push(Attr { name: copy_qual_name(&a[i].name), value: a[i].value.clone() });
        proof {
            assert(attrs_view(out@) =~= attrs_view(before).push((a@[i as int].name.ns@, a@[i as int].name.local@, a@[i as int].value@)));
            assert(attrs_view(a@.take(i + 1)) =~= attrs_view(a@.take(i as int)).push((a@[i as int].name.ns@, a@[i as int].name.local@, a@[i as int].value@)));
        }
        i = i + 1;
    }
    proof {
        assert(a@.take(n as int) =~= a@);
    }
    out
}

fn push_event(out: &mut Vec<SerializeEvent>, e: SerializeEvent)
    ensures
        events_view(final(out)@) == events_view(old(out)@).push(event_view(e)),
{
    out.push(e);
    proof {
        assert(events_view(out@) =~= events_view(old(out)@).push(event_view(e)));
    }
}

/// Appends the serializer calls for node `n` (see [`serialization`]).
fn serialize_into(d: &Dom, n: usize, scope: TraversalScope, fuel: usize, out: &mut Vec<SerializeEvent>)
    requires
        d.wf(),
        n < d.len(),
        documents_detached(*d),
        scope == TraversalScope::IncludeNode ==> !(d.kind(n as int) is Document),
    ensures
        events_view(final(out)@) == events_view(old(out)@) + serialization(*d, n as int, scope, fuel as nat),
    decreases fuel, 0nat,
{
    let ghost e0 = events_view(out@);
    if fuel == 0 {
        proof {
            assert(events_view(out@) =~= e0 + Seq::<EventView>::empty());
        }
        return ;
    }
    match d.node_kind(n) {
        NodeKind::Element { qual_name, attrs, template_contents, .. } => {
            if scope == TraversalScope::IncludeNode {
                push_event(out, SerializeEvent::StartElem(copy_qual_name(qual_name), copy_attrs(attrs)));
            }
            let ghost e1 = events_view(out@);
            let is_template = crate::origin::string_is(&qual_name.ns, "http://www.w3.org/1999/xhtml")
                && crate::origin::string_is(&qual_name.local, "template");
            let source = if is_template {
                *template_contents
            } else {
                Some(n)
            };
            proof {
                d.lemma_contents_in_range(n as int);
            }
            match source {
                Some(k) => serialize_children(d, k, fuel - 1, out),
                None => {
                    proof {
                        assert(serialization_list(*d, Seq::empty(), (fuel - 1) as nat) == Seq::<EventView>::empty());
                        assert(events_view(out@) =~= e1 + Seq::<EventView>::empty());
                    }
                },
            }
            let ghost e2 = events_view(out@);
            if scope == TraversalScope::IncludeNode {
                push_event(out, SerializeEvent::EndElem(copy_qual_name(qual_name)));
            }
            proof {
                let inner = serialization_list(*d, serialized_children(*d, n as int), (fuel - 1) as nat);
                assert(e2 == e1 + inner);
                if scope == TraversalScope::IncludeNode {
                    assert(events_view(out@) =~= e0 + (seq![EventView::StartElem(qual_name.ns@, qual_name.local@, attrs_view(attrs@))] + inner
                        + seq![EventView::EndElem(qual_name.ns@, qual_name.local@)]));
                } else {
                    assert(events_view(out@) =~= e0 + inner);
                }
            }
        },
        NodeKind::Document => {
            if scope == TraversalScope::ChildrenOnly {
                serialize_children(d, n, fuel - 1, out);
            } else {
                proof {
                    assert(events_view(out@) =~= e0 + Seq::<EventView>::empty());
                }
            }
        },
        NodeKind::Doctype { name, .. } => {
            if scope == TraversalScope::IncludeNode {
                push_event(out, SerializeEvent::Doctype(name.clone()));
            }
            proof {
                assert(events_view(out@) =~= e0 + serialization(*d, n as int, scope, fuel as nat));
            }
        },
        NodeKind::Text(s) => {
            if scope == TraversalScope::IncludeNode {
                push_event(out, SerializeEvent::Text(s.clone()));
            }
            proof {
                assert(events_view(out@) =~= e0 + serialization(*d, n as int, scope, fuel as nat));
            }
        },
        NodeKind::Comment(s) => {
            if scope == TraversalScope::IncludeNode {
                push_event(out, SerializeEvent::Comment(s.clone()));
            }
            proof {
                assert(events_view(out@) =~= e0 + serialization(*d, n as int, scope, fuel as nat));
            }
        },
        NodeKind::ProcessingInstruction { target, data } => {
            if scope == TraversalScope::IncludeNode {
                push_event(out, SerializeEvent::ProcessingInstruction(target.clone(), data.clone()));
            }
            proof {
                assert(events_view(out@) =~= e0 + serialization(*d, n as int, scope, fuel as nat));
            }
        },
        NodeKind::DocumentFragment => {
            proof {
                assert(events_view(out@) =~= e0 + Seq::<EventView>::empty());
            }
        },
    }
}

/// Appends the serializer calls for the children of node `k`, each with
/// itself, in order.
fn serialize_children(d: &Dom, k: usize, fuel: usize, out: &mut Vec<SerializeEvent>)
    requires
        d.wf(),
        k < d.len(),
        documents_detached(*d),
    ensures
        events_view(final(out)@) == events_view(old(out)@) + serialization_list(*d, d.kids(k as int), fuel as nat),
    decreases fuel, 1nat,
{
    let children = d.children(k);
    let ghost ks = d.kids(k as int);
    let ghost e0 = events_view(out@);
    let cnt = children.len();
    let mut i: usize = 0;
    proof {
        d.lemma_kids_in_range(k as int);
        assert(ks.take(0) =~= Seq::<usize>::empty());
        assert(events_view(out@) =~= e0 + Seq::<EventView>::empty());
    }
    while i < cnt
        invariant
            d.wf(),
            k < d.len(),
            documents_detached(*d),
            children@ == ks,
            ks == d.kids(k as int),
            cnt == ks.len(),
            i <= cnt,
            forall|j: int| 0 <= j < ks.len() ==> #[trigger] ks[j] < d.len(),
            events_view(out@) == e0 + serialization_list(*d, ks.take(i as int), fuel as nat),
        decreases cnt - i,
    {
        let c = children[i];
        proof {
            assert(ks.take(i + 1).drop_last() =~= ks.take(i as int));
            assert(ks.take(i + 1).last() == c);
            assert(d.kids(k as int)[i as int] == c);
            if d.kind(c as int) is Document {
                assert(d.detached(c as int));
                assert(d.kids(k as int)[i as int] != c);
            }
        }
        let ghost before = events_view(out@);
        serialize_into(d, c, TraversalScope::IncludeNode, fuel, out);
        proof {
            assert(events_view(out@) =~= e0 + serialization_list(*d, ks.take(i + 1), fuel as nat));
        }
        i = i + 1;
    }
    proof {
        assert(ks.take(cnt as int) =~= ks);
    }
}

impl Dom {
    /// The serializer calls for node `n`: the node itself (not a document)
    /// or its children only (see [`serialization`], followed as deep as the
    /// tree has nodes).
    pub fn serialize(&self, n: usize, scope: TraversalScope) -> (r: Vec<SerializeEvent>)
        requires
            self.wf(),
            n < self.len(),
            documents_detached(*self),
            scope == TraversalScope::IncludeNode ==> !(self.kind(n as int) is Document),
        ensures
            events_view(r@) == serialization(*self, n as int, scope, self.len()),
    {
        let mut out: Vec<SerializeEvent> = Vec::new();
        proof {
            assert(events_view(out@) =~= Seq::<EventView>::empty());
        }
        serialize_into(self, n, scope, self.node_count(), &mut out);
        proof {
            assert(events_view(out@) =~= Seq::<EventView>::empty() + serialization(*self, n as int, scope, self.len()));
        }
        out
    }
}
} // verus!
