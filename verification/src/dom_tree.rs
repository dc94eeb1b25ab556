//! The library's own model of a document's node tree: nodes in an arena,
//! each with its kind and the ordered list of its children; a node is the
//! child of at most one node, at one place.
use vstd::prelude::*;

verus! {

/// A namespace-qualified name.
pub struct QualName {
    pub ns: String,
    pub local: String,
}

/// An attribute: its name and value.
pub struct Attr {
    pub name: QualName,
    pub value: String,
}

/// What a node is.
pub enum NodeKind {
    Document,
    DocumentFragment,
    Doctype { name: String, public_id: String, system_id: String },
    /// An element: its name, attributes, the contents fragment of a
    /// template element once made, and whether it is a script that was
    /// marked as already started.
    Element { qual_name: QualName, attrs: Vec<Attr>, template_contents: Option<usize>, already_started: bool },
    Text(String),
    Comment(String),
    ProcessingInstruction { target: String, data: String },
}

pub struct DomNode {
    pub kind: NodeKind,
    pub children: Vec<usize>,
}

/// A node tree.
pub struct Dom {
    nodes: Vec<DomNode>,
    /// A rank for each node, greater for a child than for its parent, so
    /// that following parents always ends.
    rank: Ghost<Seq<nat>>,
}

pub open spec fn qual_name_eq(a: QualName, b: QualName) -> bool {
    a.ns@ == b.ns@ && a.local@ == b.local@
}

pub open spec fn html_ns() -> Seq<char> {
    "http://www.w3.org/1999/xhtml"@
}

/// The contents fragment of a template element, if any, is one of the
/// first `len` nodes.
pub open spec fn contents_in(k: NodeKind, len: nat) -> bool {
    k matches NodeKind::Element { template_contents: Some(f), .. } ==> f < len
}

/// An element is a template element: `template` in the HTML namespace.
pub open spec fn is_template_name(n: QualName) -> bool {
    n.ns@ == html_ns() && n.local@ == "template"@
}

/// An element is a script element: `script` in the HTML namespace.
pub open spec fn is_script_name(n: QualName) -> bool {
    n.ns@ == html_ns() && n.local@ == "script"@
}

impl Dom {
    pub closed spec fn len(&self) -> nat {
        self.nodes@.len()
    }

    /// The children of node `n`, in order.
    pub closed spec fn kids(&self, n: int) -> Seq<usize> {
        self.nodes@[n].children@
    }

    /// What node `n` is.
    pub closed spec fn kind(&self, n: int) -> NodeKind {
        self.nodes@[n].kind
    }

    /// Every child is a node, and a node is a child at most once, of at most
    /// one node; no node is its own ancestor (a child ranks above its
    /// parent).
    pub closed spec fn wf(&self) -> bool {
        &&& self.rank@.len() == self.nodes@.len()
        &&& forall|n: int, i: int|
            0 <= n < self.nodes@.len() && 0 <= i < self.nodes@[n].children@.len() ==> (
            #[trigger] self.nodes@[n].children@[i]) < self.nodes@.len()
                && self.rank@[self.nodes@[n].children@[i] as int] > self.rank@[n]
        &&& forall|n1: int, i: int, n2: int, j: int|
            0 <= n1 < self.nodes@.len() && 0 <= i < self.nodes@[n1].children@.len() && 0 <= n2
                < self.nodes@.len() && 0 <= j < self.nodes@[n2].children@.len() && (
            #[trigger] self.nodes@[n1].children@[i]) == (#[trigger] self.nodes@[n2].children@[j])
                ==> n1 == n2 && i == j
        &&& forall|n: int| 0 <= n < self.nodes@.len() ==> contents_in(#[trigger] self.nodes@[n].kind, self.nodes@.len())
    }

    /// Node `c` is nobody's child.
    pub open spec fn detached(&self, c: int) -> bool {
        forall|n: int, i: int|
            0 <= n < self.len() && 0 <= i < self.kids(n).len() ==> #[trigger] self.kids(n)[i] != c
    }

    /// Node `c` is the `i`-th child of node `p`.
    pub open spec fn child_at(&self, p: int, i: int, c: int) -> bool {
        0 <= p < self.len() && 0 <= i < self.kids(p).len() && self.kids(p)[i] == c
    }

    /// The parent of node `c`, if it has one.
    pub open spec fn parent_of(&self, c: int) -> Option<int> {
        if exists|p: int, i: int| #[trigger] self.child_at(p, i, c) {
            let (p, i) = choose|p: int, i: int| #[trigger] self.child_at(p, i, c);
            Some(p)
        } else {
            None
        }
    }

    /// A tree holding only a document node (node 0).
    pub fn new_document() -> (d: Dom)
        ensures
            d.wf(),
            d.len() == 1,
            d.kind(0) == NodeKind::Document,
            d.kids(0).len() == 0,
    {
        let mut nodes: Vec<DomNode> = Vec::new();
        nodes.push(DomNode { kind: NodeKind::Document, children: Vec::new() });
        let ghost r: Seq<nat> = Seq::empty().push(0nat);
        Dom { nodes, rank: Ghost(r) }
    }

    pub fn node_count(&self) -> (n: usize)
        ensures
            n == self.len(),
    {
        self.nodes.len()
    }

    /// Adds a node with no parent and no children; returns it.
    pub fn add_node(&mut self, kind: NodeKind) -> (n: usize)
        requires
            old(self).wf(),
            contents_in(kind, old(self).len() + 1),
        ensures
            final(self).wf(),
            n == old(self).len(),
            final(self).len() == old(self).len() + 1,
            final(self).kind(n as int) == kind,
            final(self).kids(n as int).len() == 0,
            final(self).detached(n as int),
            forall|m: int| 0 <= m < old(self).len() ==> #[trigger] final(self).kids(m) == old(self).kids(m),
            forall|m: int| 0 <= m < old(self).len() ==> #[trigger] final(self).kind(m) == old(self).kind(m),
    {
        let n = self.nodes.len();
        self.nodes.push(DomNode { kind, children: Vec::new() });
        proof {
            self.rank@ = self.rank@.push(0nat);
            assert forall|m: int| 0 <= m < old(self).len() implies #[trigger] self.kids(m) == old(self).kids(m) by {
                assert(self.nodes@[m] == old(self).nodes@[m]);
            }
            assert forall|m: int| 0 <= m < old(self).len() implies #[trigger] self.kind(m) == old(self).kind(m) by {
                assert(self.nodes@[m] == old(self).nodes@[m]);
            }
            assert forall|a: int, i: int|
                0 <= a < self.nodes@.len() && 0 <= i < self.nodes@[a].children@.len() implies (
                #[trigger] self.nodes@[a].children@[i]) < self.nodes@.len()
                    && self.rank@[self.nodes@[a].children@[i] as int] > self.rank@[a] by {
                assert(self.nodes@[a] == old(self).nodes@[a]);
            }
            assert forall|n1: int, i: int, n2: int, j: int|
                0 <= n1 < self.nodes@.len() && 0 <= i < self.nodes@[n1].children@.len() && 0 <= n2
                    < self.nodes@.len() && 0 <= j < self.nodes@[n2].children@.len() && (
                #[trigger] self.nodes@[n1].children@[i]) == (#[trigger] self.nodes@[n2].children@[j])
                    implies n1 == n2 && i == j by {
                assert(self.nodes@[n1] == old(self).nodes@[n1]);
                assert(self.nodes@[n2] == old(self).nodes@[n2]);
            }
            assert forall|m: int, i: int|
                0 <= m < self.len() && 0 <= i < self.kids(m).len() implies #[trigger] self.kids(m)[i] != n by {
                assert(self.nodes@[m] == old(self).nodes@[m]);
            }
        }
        n
    }

    /// What node `n` is.
    pub fn node_kind(&self, n: usize) -> (k: &NodeKind)
        requires
            n < self.len(),
        ensures
            *k == self.kind(n as int),
    {
        &self.nodes[n].kind
    }

    /// The children of node `n`.
    pub fn children(&self, n: usize) -> (c: &Vec<usize>)
        requires
            n < self.len(),
        ensures
            c@ == self.kids(n as int),
    {
        &self.nodes[n].children
    }

    /// The first child of node `n`, if any.
    pub fn first_child(&self, n: usize) -> (c: Option<usize>)
        requires
            self.wf(),
            n < self.len(),
        ensures
            match c {
                Some(x) => self.kids(n as int).len() > 0 && x == self.kids(n as int)[0] && x < self.len(),
                None => self.kids(n as int).len() == 0,
            },
    {
        if self.nodes[n].children.len() == 0 {
            None
        } else {
            Some(self.nodes[n].children[0])
        }
    }

    /// The parent of node `c` and the place of `c` among its children.
    pub fn position_in_parent(&self, c: usize) -> (r: Option<(usize, usize)>)
        requires
            self.wf(),
        ensures
            match r {
                Some((p, i)) => self.child_at(p as int, i as int, c as int) && self.parent_of(c as int)
                    == Some(p as int),
                None => self.detached(c as int) && self.parent_of(c as int) is None,
            },
    {
        let n = self.nodes.len();
        let mut p: usize = 0;
        while p < n
            invariant
                n == self.nodes@.len(),
                p <= n,
                self.wf(),
                forall|q: int, i: int| 0 <= q < p && 0 <= i < self.kids(q).len() ==> #[trigger] self.kids(q)[i] != c,
            decreases n - p,
        {
            let k = self.nodes[p].children.len();
            let mut i: usize = 0;
            while i < k
                invariant
                    n == self.nodes@.len(),
                    p < n,
                    k == self.kids(p as int).len(),
                    i <= k,
                    self.wf(),
                    forall|j: int| 0 <= j < i ==> self.kids(p as int)[j] != c,
                decreases k - i,
            {
                if self.nodes[p].children[i] == c {
                    proof {
                        assert(self.child_at(p as int, i as int, c as int));
                        let (pp, ii) = choose|pp: int, ii: int| #[trigger] self.child_at(pp, ii, c as int);
                        assert(self.nodes@[pp].children@[ii] == self.nodes@[p as int].children@[i as int]);
                    }
                    return Some((p, i));
                }
                i = i + 1;
            }
            p = p + 1;
        }
        proof {
            if exists|q: int, i: int| #[trigger] self.child_at(q, i, c as int) {
                let (q, i) = choose|q: int, i: int| #[trigger] self.child_at(q, i, c as int);
                assert(self.kids(q)[i] != c);
            }
        }
        None
    }

    /// Removes the `i`-th child of node `p`, which becomes detached.
    pub fn remove_at(&mut self, p: usize, i: usize)
        requires
            old(self).wf(),
            p < old(self).len(),
            i < old(self).kids(p as int).len(),
        ensures
            final(self).wf(),
            final(self).len() == old(self).len(),
            final(self).kids(p as int) == old(self).kids(p as int).remove(i as int),
            final(self).detached(old(self).kids(p as int)[i as int] as int),
            forall|m: int| 0 <= m < old(self).len() && m != p ==> #[trigger] final(self).kids(m) == old(self).kids(m),
            forall|m: int| 0 <= m < old(self).len() ==> #[trigger] final(self).kind(m) == old(self).kind(m),
    {
        let ghost c = self.nodes@[p as int].children@[i as int];
        self.nodes[p].children.remove(i);
        proof {
            let o = old(self).nodes@;
            let s = self.nodes@;
            assert forall|m: int| 0 <= m < o.len() && m != p implies #[trigger] self.kids(m) == old(self).kids(m) by {
                assert(s[m] == o[m]);
            }
            assert forall|m: int| 0 <= m < o.len() implies #[trigger] self.kind(m) == old(self).kind(m) by {
                assert(s[m].kind == o[m].kind);
            }
            // positions in the new lists map to positions in the old ones
            assert forall|m: int, j: int| 0 <= m < s.len() && 0 <= j < s[m].children@.len() implies
                (m != p && s[m].children@[j] == o[m].children@[j]) || (m == p && s[m].children@[j] == o[m].children@[if j < i { j } else { j + 1 }]) by {
                if m != p {
                    assert(s[m] == o[m]);
                }
            }
            assert forall|a: int, j: int|
                0 <= a < s.len() && 0 <= j < s[a].children@.len() implies (
                #[trigger] s[a].children@[j]) < s.len() && self.rank@[s[a].children@[j] as int] > self.rank@[a] by {
                let jj = if a == p && j >= i { j + 1 } else { j };
                assert(s[a].children@[j] == o[a].children@[jj]);
            }
            assert forall|n1: int, a: int, n2: int, b: int|
                0 <= n1 < s.len() && 0 <= a < s[n1].children@.len() && 0 <= n2 < s.len() && 0 <= b
                    < s[n2].children@.len() && (#[trigger] s[n1].children@[a]) == (
                #[trigger] s[n2].children@[b]) implies n1 == n2 && a == b by {
                let aa = if n1 == p && a >= i { a + 1 } else { a };
                let bb = if n2 == p && b >= i { b + 1 } else { b };
                assert(s[n1].children@[a] == o[n1].children@[aa]);
                assert(s[n2].children@[b] == o[n2].children@[bb]);
            }
            assert forall|m: int, j: int|
                0 <= m < self.len() && 0 <= j < self.kids(m).len() implies #[trigger] self.kids(m)[j] != c by {
                let jj = if m == p && j >= i { j + 1 } else { j };
                assert(s[m].children@[j] == o[m].children@[jj]);
                assert(o[p as int].children@[i as int] == c);
            }
        }
    }

    /// Makes the detached node `c` the `i`-th child of node `p`.
    pub fn insert_at(&mut self, p: usize, i: usize, c: usize)
        requires
            old(self).wf(),
            p < old(self).len(),
            c < old(self).len(),
            i <= old(self).kids(p as int).len(),
            old(self).detached(c as int),
            !old(self).ancestors(p as int, old(self).len()).contains(c as int),
        ensures
            final(self).wf(),
            final(self).len() == old(self).len(),
            final(self).kids(p as int) == old(self).kids(p as int).insert(i as int, c),
            forall|m: int| 0 <= m < old(self).len() && m != p ==> #[trigger] final(self).kids(m) == old(self).kids(m),
            forall|m: int| 0 <= m < old(self).len() ==> #[trigger] final(self).kind(m) == old(self).kind(m),
    {
        self.nodes[p].children.insert(i, c);
        proof {
            let d0 = *old(self);
            let len = d0.len();
            let r0 = d0.rank@;
            let rp = r0[p as int];
            self.rank@ = Seq::new(
                len,
                |m: int| if d0.ancestors(m, len).contains(c as int) { r0[m] + rp + 1 } else { r0[m] },
            );
            d0.lemma_chain_ranks(c as int, len);
            assert(d0.ancestors(c as int, len)[0] == c as int);
            assert(d0.ancestors(c as int, len).contains(c as int));
            let o = old(self).nodes@;
            let s = self.nodes@;
            assert forall|m: int| 0 <= m < o.len() && m != p implies #[trigger] self.kids(m) == old(self).kids(m) by {
                assert(s[m] == o[m]);
            }
            assert forall|m: int| 0 <= m < o.len() implies #[trigger] self.kind(m) == old(self).kind(m) by {
                assert(s[m].kind == o[m].kind);
            }
            assert forall|a: int, j: int|
                0 <= a < s.len() && 0 <= j < s[a].children@.len() implies (
                #[trigger] s[a].children@[j]) < s.len() && self.rank@[s[a].children@[j] as int] > self.rank@[a] by {
                if a != p {
                    assert(s[a] == o[a]);
                    assert(d0.kids(a)[j] != c) by {
                        assert(d0.detached(c as int));
                    }
                    d0.lemma_child_chain(a, j, c as int);
                    assert(o[a].children@[j] < o.len() && r0[o[a].children@[j] as int] > r0[a]);
                } else if j != i {
                    let jj = if j < i { j } else { j - 1 };
                    assert(s[a].children@[j] == o[a].children@[jj]);
                    assert(d0.kids(a)[jj] != c) by {
                        assert(d0.detached(c as int));
                    }
                    d0.lemma_child_chain(a, jj, c as int);
                    assert(o[a].children@[jj] < o.len() && r0[o[a].children@[jj] as int] > r0[a]);
                }
            }
            assert forall|n1: int, a: int, n2: int, b: int|
                0 <= n1 < s.len() && 0 <= a < s[n1].children@.len() && 0 <= n2 < s.len() && 0 <= b
                    < s[n2].children@.len() && (#[trigger] s[n1].children@[a]) == (
                #[trigger] s[n2].children@[b]) implies n1 == n2 && a == b by {
                let is_new1 = n1 == p && a == i;
                let is_new2 = n2 == p && b == i;
                let aa = if n1 == p && a > i { a - 1 } else { a };
                let bb = if n2 == p && b > i { b - 1 } else { b };
                if !is_new1 {
                    if n1 != p {
                        assert(s[n1] == o[n1]);
                    }
                    assert(s[n1].children@[a] == o[n1].children@[aa]);
                    assert(old(self).kids(n1)[aa] != c);
                }
                if !is_new2 {
                    if n2 != p {
                        assert(s[n2] == o[n2]);
                    }
                    assert(s[n2].children@[b] == o[n2].children@[bb]);
                    assert(old(self).kids(n2)[bb] != c);
                }
            }
        }
    }
}


/// The index of `x` in `s`.
pub open spec fn index_in(s: Seq<usize>, x: usize) -> int {
    choose|i: int| 0 <= i < s.len() && s[i] == x
}

impl Dom {
    /// The children of each node after `c` leaves its parent, if it has one.
    pub open spec fn kids_without(&self, c: int, n: int) -> Seq<usize> {
        match self.parent_of(c) {
            Some(q) => if n == q {
                self.kids(q).remove(index_in(self.kids(q), c as usize))
            } else {
                self.kids(n)
            },
            None => self.kids(n),
        }
    }

    /// The inclusive ancestors of `n`, following parents at most `fuel`
    /// times.
    pub open spec fn ancestors(&self, n: int, fuel: nat) -> Seq<int>
        decreases fuel,
    {
        if fuel == 0 {
            seq![n]
        } else {
            match self.parent_of(n) {
                Some(p) => seq![n] + self.ancestors(p, (fuel - 1) as nat),
                None => seq![n],
            }
        }
    }

    /// Whether inserting node `c` into node `p` before `r` (at the end for
    /// `None`) is valid: `p` is a document, fragment or element that does not
    /// have `c` among its inclusive ancestors; `c` is not a document, a text
    /// does not go into a document and a doctype only goes into one; `r` is
    /// a child of `p`, other than `c`.
    pub open spec fn insertion_valid(&self, p: int, c: int, r: Option<usize>) -> bool {
        &&& 0 <= p < self.len()
        &&& 0 <= c < self.len()
        &&& (self.kind(p) is Document || self.kind(p) is DocumentFragment || self.kind(p) is Element)
        &&& !self.ancestors(p, self.len()).contains(c)
        &&& !(self.kind(c) is Document)
        &&& (self.kind(c) is Text ==> !(self.kind(p) is Document))
        &&& (self.kind(c) is Doctype ==> self.kind(p) is Document)
        &&& match r {
            Some(x) => x != c && self.kids(p).contains(x),
            None => true,
        }
    }

    /// Takes node `c` out of its parent's children, if it has a parent.
    pub fn detach(&mut self, c: usize)
        requires
            old(self).wf(),
            c < old(self).len(),
        ensures
            final(self).wf(),
            final(self).len() == old(self).len(),
            final(self).detached(c as int),
            forall|m: int| 0 <= m < old(self).len() ==> #[trigger] final(self).kids(m) == old(self).kids_without(c as int, m),
            forall|m: int| 0 <= m < old(self).len() ==> #[trigger] final(self).kind(m) == old(self).kind(m),
    {
        match self.position_in_parent(c) {
            Some((p, i)) => {
                proof {
                    let s = self.kids(p as int);
                    assert(s[i as int] == c);
                    let k = index_in(s, c);
                    assert(s[k] == c);
                    assert(self.nodes@[p as int].children@[k] == self.nodes@[p as int].children@[i as int]);
                }
                self.remove_at(p, i);
            },
            None => {},
        }
    }

    /// Inserts node `c` into node `p` before its child `r` (last for `None`),
    /// after taking `c` out of its parent (DOM `insertBefore`).
    pub fn insert_before(&mut self, p: usize, c: usize, r: Option<usize>)
        requires
            old(self).wf(),
            old(self).insertion_valid(p as int, c as int, r),
        ensures
            final(self).wf(),
            final(self).len() == old(self).len(),
            final(self).kids(p as int) == {
                let k1 = old(self).kids_without(c as int, p as int);
                match r {
                    Some(x) => k1.insert(index_in(k1, x), c),
                    None => k1.push(c),
                }
            },
            forall|m: int| 0 <= m < old(self).len() && m != p ==> #[trigger] final(self).kids(m) == old(self).kids_without(c as int, m),
            forall|m: int| 0 <= m < old(self).len() ==> #[trigger] final(self).kind(m) == old(self).kind(m),
    {
        proof {
            assert(old(self).ancestors(p as int, old(self).len())[0] == p as int);
        }
        self.detach(c);
        proof {
            lemma_detach_keeps_chain(*old(self), *self, c as int, c as int, p as int, old(self).len());
        }
        let ghost k1 = self.kids(p as int);
        let pos: usize = match r {
            Some(x) => {
                let kids = &self.nodes[p].children;
                let n = kids.len();
                let mut i: usize = 0;
                proof {
                    assert(old(self).kids(p as int).contains(x));
                    let j = choose|j: int| 0 <= j < old(self).kids(p as int).len() && old(self).kids(p as int)[j] == x;
                    // x survives the detaching of c, which is another node
                    if old(self).parent_of(c as int) == Some(p as int) {
                        let s = old(self).kids(p as int);
                        let ci = index_in(s, c);
                        assert(s[ci] == c);
                        let jj = if j < ci { j } else { j - 1 };
                        assert(j != ci);
                        assert(k1[jj] == x);
                    } else {
                        assert(k1[j] == x);
                    }
                }
                while i < n
                    invariant
                        n == k1.len(),
                        kids@ == k1,
                        i <= n,
                        k1.contains(x),
                        forall|j: int| 0 <= j < i ==> k1[j] != x,
                    ensures
                        i <= n,
                        forall|j: int| 0 <= j < i ==> k1[j] != x,
                        i < n ==> k1[i as int] == x,
                    decreases n - i,
                {
                    if kids[i] == x {
                        break ;
                    }
                    i = i + 1;
                }
                proof {
                    if i == n {
                        let j = choose|j: int| 0 <= j < k1.len() && k1[j] == x;
                        assert(k1[j] != x);
                    }
                    assert(k1[i as int] == x);
                    let k = index_in(k1, x);
                    assert(k1[k] == x);
                    assert(self.nodes@[p as int].children@[k] == self.nodes@[p as int].children@[i as int]);
                }
                i
            },
            None => self.nodes[p].children.len(),
        };
        self.insert_at(p, pos, c);
    }

    /// Appends node `c` to the children of node `p` (DOM `appendChild`).
    pub fn append_child(&mut self, p: usize, c: usize)
        requires
            old(self).wf(),
            old(self).insertion_valid(p as int, c as int, None),
        ensures
            final(self).wf(),
            final(self).len() == old(self).len(),
            final(self).kids(p as int) == old(self).kids_without(c as int, p as int).push(c),
            forall|m: int| 0 <= m < old(self).len() && m != p ==> #[trigger] final(self).kids(m) == old(self).kids_without(c as int, m),
            forall|m: int| 0 <= m < old(self).len() ==> #[trigger] final(self).kind(m) == old(self).kind(m),
            final(self).ancestors(p as int, final(self).len()) == old(self).ancestors(p as int, old(self).len()),
    {
        self.insert_before(p, c, None);
        proof {
            lemma_detach_keeps_chain(*old(self), *self, c as int, p as int, p as int, old(self).len());
        }
    }
}


/// Whether `attrs` has an attribute named `name`.
pub open spec fn has_attr(attrs: Seq<Attr>, name: QualName) -> bool {
    exists|i: int| 0 <= i < attrs.len() && qual_name_eq(#[trigger] attrs[i].name, name)
}

fn same_qual_name(a: &QualName, b: &QualName) -> (r: bool)
    ensures
        r == qual_name_eq(*a, *b),
{
    a.ns == b.ns && a.local == b.local
}

impl Dom {
    /// Changes what node `n` is, keeping the tree.
    fn replace_kind(&mut self, n: usize, kind: NodeKind) -> (old_kind: NodeKind)
        requires
            old(self).wf(),
            n < old(self).len(),
            contents_in(kind, old(self).len()),
        ensures
            final(self).wf(),
            final(self).len() == old(self).len(),
            old_kind == old(self).kind(n as int),
            final(self).kind(n as int) == kind,
            forall|m: int| 0 <= m < old(self).len() ==> #[trigger] final(self).kids(m) == old(self).kids(m),
            forall|m: int| 0 <= m < old(self).len() && m != n ==> #[trigger] final(self).kind(m) == old(self).kind(m),
    {
        let mut old_kind = kind;
        let node = &mut self.nodes[n];
        std::mem::swap(&mut node.kind, &mut old_kind);
        proof {
            let o = old(self).nodes@;
            let s = self.nodes@;
            assert forall|m: int| 0 <= m < o.len() implies #[trigger] self.kids(m) == old(self).kids(m) by {
                if m != n {
                    assert(s[m] == o[m]);
                }
            }
            assert forall|m: int| 0 <= m < o.len() && m != n implies #[trigger] self.kind(m) == old(self).kind(m) by {
                assert(s[m] == o[m]);
            }
            assert forall|a: int, j: int|
                0 <= a < s.len() && 0 <= j < s[a].children@.len() implies (
                #[trigger] s[a].children@[j]) < s.len() by {
                assert(s[a].children@ == o[a].children@);
            }
            assert forall|n1: int, a: int, n2: int, b: int|
                0 <= n1 < s.len() && 0 <= a < s[n1].children@.len() && 0 <= n2 < s.len() && 0 <= b
                    < s[n2].children@.len() && (#[trigger] s[n1].children@[a]) == (
                #[trigger] s[n2].children@[b]) implies n1 == n2 && a == b by {
                assert(s[n1].children@ == o[n1].children@);
                assert(s[n2].children@ == o[n2].children@);
            }
            assert forall|m: int| 0 <= m < s.len() implies contents_in(#[trigger] s[m].kind, s.len()) by {
                if m != n {
                    assert(s[m] == o[m]);
                }
            }
        }
        old_kind
    }

    /// Adds an attribute from the parser to element `n`, unless the element
    /// already has an attribute of that name.
    pub fn set_attribute_from_parser(&mut self, n: usize, attr: Attr)
        requires
            old(self).wf(),
            n < old(self).len(),
            old(self).kind(n as int) is Element,
        ensures
            final(self).wf(),
            final(self).len() == old(self).len(),
            forall|m: int| 0 <= m < old(self).len() ==> #[trigger] final(self).kids(m) == old(self).kids(m),
            forall|m: int| 0 <= m < old(self).len() && m != n ==> #[trigger] final(self).kind(m) == old(self).kind(m),
            ({
                let k0 = old(self).kind(n as int);
                let k1 = final(self).kind(n as int);
                &&& k1 is Element
                &&& k1->qual_name == k0->qual_name
                &&& k1->template_contents == k0->template_contents
                &&& k1->already_started == k0->already_started
                &&& k1->attrs@ == if has_attr(k0->attrs@, attr.name) {
                    k0->attrs@
                } else {
                    k0->attrs@.push(attr)
                }
            }),
    {
        let placeholder = NodeKind::Document;
        let k = self.replace_kind(n, placeholder);
        match k {
            NodeKind::Element { qual_name, mut attrs, template_contents, already_started } => {
                let cnt = attrs.len();
                let mut i: usize = 0;
                let mut found = false;
                while i < cnt
                    invariant
                        cnt == attrs@.len(),
                        i <= cnt,
                        found == exists|j: int| 0 <= j < i && qual_name_eq(#[trigger] attrs@[j].name, attr.name),
                    decreases cnt - i,
                {
                    if same_qual_name(&attrs[i].name, &attr.name) {
                        found = true;
                    }
                    i = i + 1;
                }
                if !found {
                    attrs.push(attr);
                }
                self.replace_kind(n, NodeKind::Element { qual_name, attrs, template_contents, already_started });
            },
            _ => {},
        }
    }

    /// Marks script element `n` as already started.
    pub fn mark_already_started(&mut self, n: usize)
        requires
            old(self).wf(),
            n < old(self).len(),
            old(self).kind(n as int) is Element,
        ensures
            final(self).wf(),
            final(self).len() == old(self).len(),
            forall|m: int| 0 <= m < old(self).len() ==> #[trigger] final(self).kids(m) == old(self).kids(m),
            forall|m: int| 0 <= m < old(self).len() && m != n ==> #[trigger] final(self).kind(m) == old(self).kind(m),
            ({
                let k0 = old(self).kind(n as int);
                let k1 = final(self).kind(n as int);
                &&& k1 is Element
                &&& k1->qual_name == k0->qual_name
                &&& k1->template_contents == k0->template_contents
                &&& k1->attrs == k0->attrs
                &&& k1->already_started
            }),
    {
        let placeholder = NodeKind::Document;
        let k = self.replace_kind(n, placeholder);
        match k {
            NodeKind::Element { qual_name, attrs, template_contents, .. } => {
                self.replace_kind(n, NodeKind::Element { qual_name, attrs, template_contents, already_started: true });
            },
            _ => {},
        }
    }

    /// The contents fragment of template element `n`, made (detached, empty)
    /// on first use.
    pub fn template_content(&mut self, n: usize) -> (f: usize)
        requires
            old(self).wf(),
            n < old(self).len(),
            old(self).kind(n as int) is Element,
        ensures
            final(self).wf(),
            f < final(self).len(),
            forall|m: int| 0 <= m < old(self).len() ==> #[trigger] final(self).kids(m) == old(self).kids(m),
            forall|m: int| 0 <= m < old(self).len() && m != n ==> #[trigger] final(self).kind(m) == old(self).kind(m),
            match old(self).kind(n as int)->template_contents {
                Some(x) => f == x && final(self).len() == old(self).len() && final(self).kind(n as int) == old(self).kind(n as int),
                None => {
                    &&& f == old(self).len()
                    &&& final(self).len() == old(self).len() + 1
                    &&& final(self).kind(f as int) == NodeKind::DocumentFragment
                    &&& final(self).kids(f as int).len() == 0
                    &&& final(self).detached(f as int)
                    &&& {
                        let k0 = old(self).kind(n as int);
                        let k1 = final(self).kind(n as int);
                        &&& k1 is Element
                        &&& k1->qual_name == k0->qual_name
                        &&& k1->attrs == k0->attrs
                        &&& k1->already_started == k0->already_started
                        &&& k1->template_contents == Some(f)
                    }
                },
            },
    {
        let existing = match &self.nodes[n].kind {
            NodeKind::Element { template_contents, .. } => *template_contents,
            _ => None,
        };
        match existing {
            Some(x) => x,
            None => {
                let f = self.add_node(NodeKind::DocumentFragment);
                let ghost d1 = *self;
                let placeholder = NodeKind::Document;
                let k = self.replace_kind(n, placeholder);
                let ghost d2 = *self;
                match k {
                    NodeKind::Element { qual_name, attrs, already_started, .. } => {
                        self.replace_kind(n, NodeKind::Element { qual_name, attrs, template_contents: Some(f), already_started });
                    },
                    _ => {},
                }
                proof {
                    assert forall|m: int| 0 <= m < old(self).len() implies #[trigger] self.kids(m) == old(self).kids(m) by {
                        assert(d1.kids(m) == old(self).kids(m));
                        assert(d2.kids(m) == d1.kids(m));
                    }
                    assert forall|m: int| 0 <= m < old(self).len() && m != n implies #[trigger] self.kind(m) == old(self).kind(m) by {
                        assert(d1.kids(m) == old(self).kids(m));
                        assert(d1.kind(m) == old(self).kind(m));
                        assert(d2.kind(m) == d1.kind(m));
                    }
                    assert(d1.kids(n as int) == old(self).kids(n as int));
                    assert(d1.kind(n as int) == old(self).kind(n as int));
                    assert(self.kind(f as int) == d2.kind(f as int));
                    assert(d1.kids(f as int).len() == 0);
                    assert(d2.kids(f as int) == d1.kids(f as int));
                    assert(d2.kind(f as int) == d1.kind(f as int));
                    assert forall|a: int, i: int| 0 <= a < self.len() && 0 <= i < self.kids(a).len() implies #[trigger] self.kids(a)[i] != f by {
                        if a < old(self).len() {
                            assert(d1.kids(a) == old(self).kids(a));
                            assert(d2.kids(a) == d1.kids(a));
                            assert(d1.kids(a)[i] != f);
                        } else {
                            assert(a == f);
                        }
                    }
                }
                f
            },
        }
    }
}


impl Dom {
    /// Whether `c` is among the inclusive ancestors of `n` (see
    /// [`Dom::ancestors`]).
    pub fn is_inclusive_ancestor(&self, c: usize, n: usize) -> (b: bool)
        requires
            self.wf(),
            n < self.len(),
        ensures
            b == self.ancestors(n as int, self.len()).contains(c as int),
    {
        let total = self.nodes.len();
        let mut cur = n;
        let mut k: usize = 0;
        let ghost mut prefix: Seq<int> = Seq::empty();
        while k < total
            invariant
                self.wf(),
                total == self.len(),
                k <= total,
                cur < total,
                self.ancestors(n as int, self.len()) == prefix + self.ancestors(cur as int, (total - k) as nat),
                !prefix.contains(c as int),
            decreases total - k,
        {
            if cur == c {
                proof {
                    let rest = self.ancestors(cur as int, (total - k) as nat);
                    assert(rest[0] == cur as int);
                    let all = prefix + rest;
                    assert(all[prefix.len() as int] == c as int);
                }
                return true;
            }
            match self.position_in_parent(cur) {
                Some((q, _)) => {
                    proof {
                        let rest_f = (total - k) as nat;
                        assert(self.ancestors(cur as int, rest_f) == seq![cur as int] + self.ancestors(q as int, (rest_f - 1) as nat));
                        assert(prefix + (seq![cur as int] + self.ancestors(q as int, (rest_f - 1) as nat)) =~= (prefix.push(cur as int)) + self.ancestors(q as int, (rest_f - 1) as nat));
                        assert(!prefix.push(cur as int).contains(c as int)) by {
                            if prefix.push(cur as int).contains(c as int) {
                                let j = choose|j: int| 0 <= j < prefix.push(cur as int).len() && prefix.push(cur as int)[j] == c as int;
                                if j < prefix.len() {
                                    assert(prefix[j] == c as int);
                                }
                            }
                        }
                        prefix = prefix.push(cur as int);
                    }
                    cur = q;
                },
                None => {
                    proof {
                        let rest = self.ancestors(cur as int, (total - k) as nat);
                        if total - k > 0 {
                            assert(rest == seq![cur as int]);
                        } else {
                            assert(rest == seq![cur as int]);
                        }
                        let all = prefix + rest;
                        if all.contains(c as int) {
                            let j = choose|j: int| 0 <= j < all.len() && all[j] == c as int;
                            if j < prefix.len() {
                                assert(prefix[j] == c as int);
                            } else {
                                assert(all[j] == rest[j - prefix.len()]);
                            }
                        }
                    }
                    return false;
                },
            }
            k = k + 1;
        }
        proof {
            let rest = self.ancestors(cur as int, 0);
            assert(rest == seq![cur as int]);
            let all = prefix + rest;
            assert(all[prefix.len() as int] == cur as int);
            if all.contains(c as int) {
                let j = choose|j: int| 0 <= j < all.len() && all[j] == c as int;
                if j < prefix.len() {
                    assert(prefix[j] == c as int);
                } else {
                    assert(all[j] == rest[j - prefix.len()]);
                }
            }
        }
        cur == c
    }

    /// Whether appending node `c` to node `p` is valid (see
    /// [`Dom::insertion_valid`]).
    pub fn can_append(&self, p: usize, c: usize) -> (b: bool)
        requires
            self.wf(),
            p < self.len(),
            c < self.len(),
        ensures
            b == self.insertion_valid(p as int, c as int, None),
    {
        let pk = match &self.nodes[p].kind {
            NodeKind::Document => 0u8,
            NodeKind::DocumentFragment => 1u8,
            NodeKind::Element { .. } => 2u8,
            _ => 3u8,
        };
        if pk == 3 {
            return false;
        }
        if self.is_inclusive_ancestor(c, p) {
            return false;
        }
        match &self.nodes[c].kind {
            NodeKind::Document => false,
            NodeKind::Text(_) => pk != 0,
            NodeKind::Doctype { .. } => pk == 0,
            _ => true,
        }
    }
}


impl Dom {
    /// The `i`-th child of `p` has `p` as its parent, at index `i`.
    pub proof fn lemma_parent_of_child(&self, p: int, i: int, c: int)
        requires
            self.wf(),
            self.child_at(p, i, c),
        ensures
            self.parent_of(c) == Some(p),
            index_in(self.kids(p), c as usize) == i,
    {
        let (pp, ii) = choose|pp: int, ii: int| #[trigger] self.child_at(pp, ii, c);
        assert(self.nodes@[pp].children@[ii] == self.nodes@[p].children@[i]);
        let k = index_in(self.kids(p), c as usize);
        assert(self.kids(p)[k] == c as usize);
        assert(self.nodes@[p].children@[k] == self.nodes@[p].children@[i]);
    }

    /// A node without children is no inclusive ancestor of another node.
    pub proof fn lemma_childless_not_ancestor(&self, x: int, f: nat, y: int)
        requires
            self.wf(),
            0 <= y < self.len(),
            self.kids(y).len() == 0,
            y != x,
        ensures
            !self.ancestors(x, f).contains(y),
        decreases f,
    {
        if f > 0 {
            match self.parent_of(x) {
                Some(p) => {
                    let (pp, ii) = choose|pp: int, ii: int| #[trigger] self.child_at(pp, ii, x);
                    assert(self.child_at(pp, ii, x));
                    assert(p == pp);
                    assert(p != y);
                    self.lemma_childless_not_ancestor(p, (f - 1) as nat, y);
                    let s = seq![x] + self.ancestors(p, (f - 1) as nat);
                    if s.contains(y) {
                        let j = choose|j: int| 0 <= j < s.len() && s[j] == y;
                        if j > 0 {
                            assert(self.ancestors(p, (f - 1) as nat)[j - 1] == y);
                        }
                    }
                },
                None => {},
            }
        }
    }
}


impl Dom {
    /// The children of a node are nodes.
    pub proof fn lemma_kids_in_range(&self, p: int)
        requires
            self.wf(),
            0 <= p < self.len(),
        ensures
            forall|i: int| 0 <= i < self.kids(p).len() ==> #[trigger] self.kids(p)[i] < self.len(),
    {
        assert forall|i: int| 0 <= i < self.kids(p).len() implies #[trigger] self.kids(p)[i] < self.len() by {
            assert(self.nodes@[p].children@[i] < self.nodes@.len());
        }
    }
}


impl Dom {
    /// The contents fragment of a template element is a node.
    pub proof fn lemma_contents_in_range(&self, n: int)
        requires
            self.wf(),
            0 <= n < self.len(),
        ensures
            contents_in(self.kind(n), self.len()),
    {
        assert(contents_in(self.nodes@[n].kind, self.nodes@.len()));
    }
}


impl Dom {
    /// Following parents from `n` comes, within `f` steps, to a node that
    /// has no parent.
    pub open spec fn reaches_root(&self, n: int, f: nat) -> bool
        decreases f,
    {
        match self.parent_of(n) {
            None => true,
            Some(q) => f > 0 && self.reaches_root(q, (f - 1) as nat),
        }
    }

    proof fn lemma_parent_ranks_lower(&self, n: int)
        requires
            self.wf(),
            0 <= n < self.len(),
        ensures
            self.parent_of(n) matches Some(q) ==> 0 <= q < self.len() && self.rank@[q] < self.rank@[n],
    {
        if exists|p: int, i: int| #[trigger] self.child_at(p, i, n) {
            let (p, i) = choose|p: int, i: int| #[trigger] self.child_at(p, i, n);
            assert(self.child_at(p, i, n));
            assert(self.nodes@[p].children@[i] == n);
        }
    }

    proof fn lemma_reaches_root_mono(&self, n: int, f: nat, g: nat)
        requires
            self.reaches_root(n, f),
            f <= g,
        ensures
            self.reaches_root(n, g),
            self.ancestors(n, g) == self.ancestors(n, f),
        decreases f,
    {
        match self.parent_of(n) {
            None => {},
            Some(q) => {
                self.lemma_reaches_root_mono(q, (f - 1) as nat, (g - 1) as nat);
            },
        }
    }

    proof fn lemma_reaches_root_len(&self, n: int, g: nat)
        requires
            self.reaches_root(n, g),
        ensures
            self.ancestors(n, g).len() >= 1,
            self.ancestors(n, g).len() <= g + 1,
            self.reaches_root(n, (self.ancestors(n, g).len() - 1) as nat),
        decreases g,
    {
        match self.parent_of(n) {
            None => {},
            Some(q) => {
                self.lemma_reaches_root_len(q, (g - 1) as nat);
            },
        }
    }

    proof fn lemma_rank_reaches_root(&self, n: int)
        requires
            self.wf(),
            0 <= n < self.len(),
        ensures
            self.reaches_root(n, self.rank@[n]),
        decreases self.rank@[n],
    {
        self.lemma_parent_ranks_lower(n);
        match self.parent_of(n) {
            None => {},
            Some(q) => {
                self.lemma_rank_reaches_root(q);
                self.lemma_reaches_root_mono(q, self.rank@[q], (self.rank@[n] - 1) as nat);
            },
        }
    }

    proof fn lemma_chain_ranks(&self, n: int, f: nat)
        requires
            self.wf(),
            0 <= n < self.len(),
        ensures
            self.ancestors(n, f).len() >= 1,
            self.ancestors(n, f)[0] == n,
            forall|j: int|
                0 <= j < self.ancestors(n, f).len() ==> 0 <= #[trigger] self.ancestors(n, f)[j] < self.len(),
            forall|i: int, j: int|
                0 <= i < j < self.ancestors(n, f).len() ==> self.rank@[#[trigger] self.ancestors(n, f)[i]]
                    > self.rank@[#[trigger] self.ancestors(n, f)[j]],
        decreases f,
    {
        self.lemma_parent_ranks_lower(n);
        if f > 0 {
            match self.parent_of(n) {
                None => {},
                Some(q) => {
                    self.lemma_chain_ranks(q, (f - 1) as nat);
                    let t = self.ancestors(q, (f - 1) as nat);
                    let s = self.ancestors(n, f);
                    assert(s == seq![n] + t);
                    assert forall|j: int| 0 <= j < s.len() implies 0 <= #[trigger] s[j] < self.len() by {
                        if j > 0 {
                            assert(s[j] == t[j - 1]);
                        }
                    }
                    assert forall|i: int, j: int| 0 <= i < j < s.len() implies self.rank@[#[trigger] s[i]]
                        > self.rank@[#[trigger] s[j]] by {
                        assert(s[j] == t[j - 1]);
                        if i > 0 {
                            assert(s[i] == t[i - 1]);
                        } else if j - 1 > 0 {
                            assert(self.rank@[t[0]] > self.rank@[t[j - 1]]);
                        }
                    }
                },
            }
        }
    }

    proof fn lemma_chain_short(&self, n: int, f: nat)
        requires
            self.wf(),
            0 <= n < self.len(),
        ensures
            self.ancestors(n, f).len() <= self.len(),
    {
        self.lemma_chain_ranks(n, f);
        let s = self.ancestors(n, f);
        assert(s.no_duplicates()) by {
            assert forall|i: int, j: int| 0 <= i < s.len() && 0 <= j < s.len() && i != j implies s[i] != s[j] by {
                if i < j {
                    assert(self.rank@[s[i]] > self.rank@[s[j]]);
                } else {
                    assert(self.rank@[s[j]] > self.rank@[s[i]]);
                }
            }
        }
        s.unique_seq_to_set();
        vstd::set_lib::lemma_int_range(0, self.len() as int);
        let r = vstd::set_lib::set_int_range(0, self.len() as int);
        assert forall|x: int| s.to_set().contains(x) implies r.contains(x) by {
            assert(s.contains(x));
            let j = choose|j: int| 0 <= j < s.len() && s[j] == x;
            assert(0 <= s[j] < self.len());
        }
        vstd::set_lib::lemma_len_subset(s.to_set(), r);
    }

    /// With enough fuel, the inclusive ancestors of `n` are the whole chain
    /// up to a node without a parent.
    proof fn lemma_chain_settled(&self, n: int, f: nat)
        requires
            self.wf(),
            0 <= n < self.len(),
            f + 1 >= self.len(),
        ensures
            self.reaches_root(n, f),
            self.ancestors(n, f) == self.ancestors(n, self.rank@[n]),
    {
        let r = self.rank@[n];
        self.lemma_rank_reaches_root(n);
        self.lemma_reaches_root_len(n, r);
        self.lemma_chain_short(n, r);
        let k = (self.ancestors(n, r).len() - 1) as nat;
        self.lemma_reaches_root_mono(n, k, r);
        self.lemma_reaches_root_mono(n, k, f);
    }

    /// No node is its own proper ancestor: following parents from a node
    /// never comes back to it.
    pub proof fn lemma_acyclic(&self, n: int, f: nat)
        requires
            self.wf(),
            0 <= n < self.len(),
        ensures
            forall|j: int| 0 < j < self.ancestors(n, f).len() ==> #[trigger] self.ancestors(n, f)[j] != n,
    {
        self.lemma_chain_ranks(n, f);
        assert forall|j: int| 0 < j < self.ancestors(n, f).len() implies #[trigger] self.ancestors(n, f)[j] != n by {
            assert(self.rank@[self.ancestors(n, f)[0]] > self.rank@[self.ancestors(n, f)[j]]);
        }
    }

    /// A child's inclusive ancestors contain a node other than itself
    /// exactly when its parent's do.
    proof fn lemma_child_chain(&self, a: int, j: int, c: int)
        requires
            self.wf(),
            0 <= a < self.len(),
            0 <= j < self.kids(a).len(),
            self.kids(a)[j] != c,
        ensures
            self.ancestors(self.kids(a)[j] as int, self.len()).contains(c) == self.ancestors(a, self.len()).contains(c),
    {
        let k = self.kids(a)[j] as int;
        assert(self.nodes@[a].children@[j] == k);
        self.lemma_parent_of_child(a, j, k);
        let len = self.len();
        let t = self.ancestors(a, (len - 1) as nat);
        assert(self.ancestors(k, len) == seq![k] + t);
        self.lemma_chain_settled(a, (len - 1) as nat);
        self.lemma_chain_settled(a, len);
        let s = seq![k] + t;
        if s.contains(c) {
            let x = choose|x: int| 0 <= x < s.len() && s[x] == c;
            assert(x > 0);
            assert(t[x - 1] == c);
        }
        if t.contains(c) {
            let x = choose|x: int| 0 <= x < t.len() && t[x] == c;
            assert(s[x + 1] == c);
        }
    }
}

/// Children after `c` leaves its parent, and maybe joins the end of `p`'s.
pub open spec fn moved_kids(d0: Dom, d1: Dom, c: int, p: int) -> bool {
    forall|x: int|
        0 <= x < d0.len() ==> #[trigger] d1.kids(x) == d0.kids_without(c, x) || (x == p && d1.kids(x)
            == d0.kids_without(c, x).push(c as usize))
}

/// After `c` leaves its parent (and maybe joins another), every other node
/// keeps its parent.
proof fn lemma_detach_keeps_parents(d0: Dom, d1: Dom, c: int, p: int, m: int)
    requires
        d0.wf(),
        d1.wf(),
        d1.len() == d0.len(),
        0 <= c < d0.len(),
        c <= usize::MAX,
        0 <= m < d0.len(),
        m != c,
        moved_kids(d0, d1, c, p),
    ensures
        d1.parent_of(m) == d0.parent_of(m),
{
    if exists|p: int, i: int| #[trigger] d0.child_at(p, i, m) {
        let (a, i) = choose|p: int, i: int| #[trigger] d0.child_at(p, i, m);
        d0.lemma_parent_of_child(a, i, m);
        if exists|p: int, i: int| #[trigger] d0.child_at(p, i, c) {
            let (q, ci) = choose|p: int, i: int| #[trigger] d0.child_at(p, i, c);
            d0.lemma_parent_of_child(q, ci, c);
            if q == a {
                assert(i != ci);
                let ii = if i < ci { i } else { i - 1 };
                assert(d0.kids_without(c, a) == d0.kids(a).remove(ci));
                assert(d0.kids_without(c, a)[ii] == m);
                assert(d1.kids(a)[ii] == m);
                d1.lemma_parent_of_child(a, ii, m);
            } else {
                assert(d0.kids_without(c, a) == d0.kids(a));
                assert(d1.kids(a)[i] == m);
                d1.lemma_parent_of_child(a, i, m);
            }
        } else {
            assert(d0.kids_without(c, a) == d0.kids(a));
            assert(d1.kids(a)[i] == m);
            d1.lemma_parent_of_child(a, i, m);
        }
    } else {
        if exists|p: int, i: int| #[trigger] d1.child_at(p, i, m) {
            let (b, j) = choose|p: int, i: int| #[trigger] d1.child_at(p, i, m);
            assert(d1.child_at(b, j, m));
            let kw = d0.kids_without(c, b);
            assert(j < kw.len() && kw[j] == m) by {
                assert(d1.kids(b) == kw || (b == p && d1.kids(b) == kw.push(c as usize)));
                if d1.kids(b) != kw {
                    assert(d1.kids(b) == kw.push(c as usize));
                    if j == kw.len() {
                        assert(d1.kids(b)[j] == c as usize);
                        assert((c as usize) as int == c);
                        assert(false);
                    }
                    assert(d1.kids(b)[j] == kw[j]);
                }
            }
            if exists|p: int, i: int| #[trigger] d0.child_at(p, i, c) {
                let (q, ci) = choose|p: int, i: int| #[trigger] d0.child_at(p, i, c);
                d0.lemma_parent_of_child(q, ci, c);
                if b == q {
                    let jj = if j < ci { j } else { j + 1 };
                    assert(d0.kids(b).remove(ci)[j] == d0.kids(b)[jj]);
                    assert(d0.child_at(b, jj, m));
                } else {
                    assert(d0.child_at(b, j, m));
                }
            } else {
                assert(d0.child_at(b, j, m));
            }
        }
    }
}

/// After `c` leaves its parent (and maybe joins another), a node whose
/// inclusive ancestors do not include `c` keeps them.
proof fn lemma_detach_keeps_chain(d0: Dom, d1: Dom, c: int, p: int, n: int, f: nat)
    requires
        d0.wf(),
        d1.wf(),
        d1.len() == d0.len(),
        0 <= c < d0.len(),
        c <= usize::MAX,
        0 <= n < d0.len(),
        moved_kids(d0, d1, c, p),
        !d0.ancestors(n, f).contains(c),
    ensures
        d1.ancestors(n, f) == d0.ancestors(n, f),
    decreases f,
{
    d0.lemma_chain_ranks(n, f);
    assert(d0.ancestors(n, f)[0] == n);
    lemma_detach_keeps_parents(d0, d1, c, p, n);
    if f > 0 {
        d0.lemma_parent_ranks_lower(n);
        match d0.parent_of(n) {
            Some(q) => {
                let t = d0.ancestors(q, (f - 1) as nat);
                let s = seq![n] + t;
                assert(d0.ancestors(n, f) == s);
                assert(!t.contains(c)) by {
                    if t.contains(c) {
                        let x = choose|x: int| 0 <= x < t.len() && t[x] == c;
                        assert(s[x + 1] == c);
                    }
                }
                lemma_detach_keeps_chain(d0, d1, c, p, q, (f - 1) as nat);
            },
            None => {},
        }
    }
}

} // verus!
