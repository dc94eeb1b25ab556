//! Memory reports: the tree that aggregates reports by path and the
//! accounting that turns a batch of reports into a printable forest.
use vstd::prelude::*;
use vstd::string::StringExecFns;

verus! {

/// The abstract shape of a `ReportsTree`: sizes and counts as integers,
/// path segments as character sequences, children in order.
pub struct ReportNode {
    pub size: nat,
    pub count: nat,
    pub seg: Seq<char>,
    pub children: Seq<ReportNode>,
}

/// A collection of one or more reports with the same initial path segment.
pub struct ReportsTree {
    /// For leaf nodes, the sum of the sizes of all reports that mapped to this location.
    /// For interior nodes (once sizes are computed), the sum of the sizes of all children.
    pub size: usize,
    /// For leaf nodes, the count of all reports that mapped to this location.
    pub count: u32,
    /// The segment from the report path that maps to this node.
    pub path_seg: String,
    /// Child nodes.
    pub children: Vec<ReportsTree>,
}

pub open spec fn tree_view(t: ReportsTree) -> ReportNode
    decreases t,
{
    ReportNode {
        size: t.size as nat,
        count: t.count as nat,
        seg: t.path_seg@,
        children: trees_view(t.children@),
    }
}

pub open spec fn trees_view(s: Seq<ReportsTree>) -> Seq<ReportNode>
    decreases s,
{
    if s.len() == 0 {
        Seq::empty()
    } else {
        trees_view(s.subrange(0, s.len() - 1)).push(tree_view(s[s.len() - 1]))
    }
}


pub proof fn lemma_trees_view(s: Seq<ReportsTree>)
    ensures
        trees_view(s).len() == s.len(),
        forall|i: int| 0 <= i < s.len() ==> #[trigger] trees_view(s)[i] == tree_view(s[i]),
    decreases s.len(),
{
    if s.len() > 0 {
        lemma_trees_view(s.subrange(0, s.len() - 1));
        assert forall|i: int| 0 <= i < s.len() implies #[trigger] trees_view(s)[i] == tree_view(
            s[i],
        ) by {
            if i < s.len() - 1 {
                assert(s.subrange(0, s.len() - 1)[i] == s[i]);
            }
        }
    }
}

/// The view of a sequence of trees is the pointwise view.
pub proof fn lemma_trees_view_ext(s: Seq<ReportsTree>, v: Seq<ReportNode>)
    requires
        v.len() == s.len(),
        forall|i: int| 0 <= i < s.len() ==> #[trigger] v[i] == tree_view(s[i]),
    ensures
        trees_view(s) == v,
{
    lemma_trees_view(s);
    assert(trees_view(s) =~= v);
}

/// No two children share a path segment.
pub open spec fn distinct_segs(children: Seq<ReportNode>) -> bool {
    forall|i: int, j: int|
        0 <= i < children.len() && 0 <= j < children.len() && i != j
            ==> #[trigger] children[i].seg != #[trigger] children[j].seg
}

/// Every node's children have pairwise distinct path segments.
pub open spec fn node_wf(n: ReportNode) -> bool
    decreases n,
{
    &&& distinct_segs(n.children)
    &&& all_wf(n.children)
}

/// Every node in the sequence is well formed.
pub open spec fn all_wf(s: Seq<ReportNode>) -> bool
    decreases s,
{
    if s.len() == 0 {
        true
    } else {
        all_wf(s.subrange(0, s.len() - 1)) && node_wf(s[s.len() - 1])
    }
}

pub proof fn lemma_all_wf(s: Seq<ReportNode>)
    ensures
        all_wf(s) <==> forall|i: int| 0 <= i < s.len() ==> #[trigger] node_wf(s[i]),
    decreases s.len(),
{
    if s.len() > 0 {
        let t = s.subrange(0, s.len() - 1);
        lemma_all_wf(t);
        if forall|i: int| 0 <= i < s.len() ==> #[trigger] node_wf(s[i]) {
            assert forall|i: int| 0 <= i < t.len() implies #[trigger] node_wf(t[i]) by {
                assert(t[i] == s[i]);
            }
            assert(node_wf(s[s.len() - 1]));
            assert(all_wf(t));
        }
        if all_wf(s) {
            assert forall|i: int| 0 <= i < s.len() implies #[trigger] node_wf(s[i]) by {
                if i < s.len() - 1 {
                    assert(t[i] == s[i]);
                }
            }
        }
    }
}

pub open spec fn has_seg(children: Seq<ReportNode>, seg: Seq<char>) -> bool {
    exists|i: int| 0 <= i < children.len() && #[trigger] children[i].seg == seg
}

/// The index of the child with path segment `seg` (meaningful when `has_seg`).
pub open spec fn seg_index(children: Seq<ReportNode>, seg: Seq<char>) -> int {
    choose|i: int| 0 <= i < children.len() && #[trigger] children[i].seg == seg
}

/// The node reached from `n` by following the path segments `p`.
pub open spec fn lookup(n: ReportNode, p: Seq<Seq<char>>) -> Option<ReportNode>
    decreases p.len(),
{
    if p.len() == 0 {
        Some(n)
    } else if has_seg(n.children, p[0]) {
        lookup(n.children[seg_index(n.children, p[0])], p.drop_first())
    } else {
        None
    }
}

/// The (size, count) recorded at path `p` below `n`, if that node exists.
pub open spec fn info_at(n: ReportNode, p: Seq<Seq<char>>) -> Option<(int, int)> {
    match lookup(n, p) {
        Some(m) => Some((m.size as int, m.count as int)),
        None => None,
    }
}

pub open spec fn size_or_zero(i: Option<(int, int)>) -> int {
    match i {
        Some(x) => x.0,
        None => 0,
    }
}

pub open spec fn count_or_zero(i: Option<(int, int)>) -> int {
    match i {
        Some(x) => x.1,
        None => 0,
    }
}

/// `p` is a prefix of `q` (possibly equal to it).
pub open spec fn is_prefix_of(p: Seq<Seq<char>>, q: Seq<Seq<char>>) -> bool {
    p.len() <= q.len() && q.subrange(0, p.len() as int) == p
}

/// What inserting a report of `size` at `path` does to the entry at `p`:
/// the entry at `path` gains the size and one more report; entries on the
/// way to it are created (empty) when missing; everything else is unchanged.
pub open spec fn info_after_insert(
    old_info: Option<(int, int)>,
    p: Seq<Seq<char>>,
    path: Seq<Seq<char>>,
    size: int,
) -> Option<(int, int)> {
    if p == path {
        Some((size_or_zero(old_info) + size, count_or_zero(old_info) + 1))
    } else if is_prefix_of(p, path) {
        match old_info {
            Some(x) => Some(x),
            None => Some((0, 0)),
        }
    } else {
        old_info
    }
}

/// The tree `n` after a report of `size` is inserted at path `p`: the node
/// at `p` gains the size and one more report; a child missing on the way is
/// created empty and comes after its existing siblings, which keep their
/// order.
pub open spec fn inserted(n: ReportNode, p: Seq<Seq<char>>, size: nat) -> ReportNode
    decreases p.len(),
{
    if p.len() == 0 {
        ReportNode { size: n.size + size, count: n.count + 1, seg: n.seg, children: n.children }
    } else if has_seg(n.children, p[0]) {
        let i = seg_index(n.children, p[0]);
        ReportNode {
            size: n.size,
            count: n.count,
            seg: n.seg,
            children: n.children.update(i, inserted(n.children[i], p.drop_first(), size)),
        }
    } else {
        let fresh = ReportNode { size: 0, count: 0, seg: p[0], children: Seq::empty() };
        ReportNode {
            size: n.size,
            count: n.count,
            seg: n.seg,
            children: n.children.push(inserted(fresh, p.drop_first(), size)),
        }
    }
}

pub open spec fn seg_path(path: Seq<String>) -> Seq<Seq<char>> {
    path.map_values(|s: String| s@)
}

impl ReportsTree {
    /// A tree with a single, empty node.
    pub fn new(path_seg: String) -> (t: ReportsTree)
        ensures
            tree_view(t) == (ReportNode {
                size: 0,
                count: 0,
                seg: path_seg@,
                children: Seq::empty(),
            }),
    {
        let t = ReportsTree { size: 0, count: 0, path_seg, children: Vec::new() };
        proof {
            lemma_trees_view(t.children@);
            assert(trees_view(t.children@) =~= Seq::<ReportNode>::empty());
        }
        t
    }

    /// Searches the children for a path segment match and returns its index.
    pub fn find_child(&self, path_seg: &String) -> (res: Option<usize>)
        ensures
            match res {
                Some(i) => {
                    &&& i < self.children@.len()
                    &&& self.children@[i as int].path_seg@ == path_seg@
                    &&& forall|j: int| 0 <= j < i ==> self.children@[j].path_seg@ != path_seg@
                },
                None => forall|j: int|
                    0 <= j < self.children@.len() ==> self.children@[j].path_seg@ != path_seg@,
            },
    {
        position_of_seg(&self.children, path_seg)
    }
}

/// The index of the first tree whose path segment is `seg`.
fn position_of_seg(trees: &Vec<ReportsTree>, seg: &String) -> (res: Option<usize>)
    ensures
        match res {
            Some(i) => {
                &&& i < trees@.len()
                &&& trees@[i as int].path_seg@ == seg@
                &&& forall|j: int| 0 <= j < i ==> trees@[j].path_seg@ != seg@
            },
            None => forall|j: int| 0 <= j < trees@.len() ==> trees@[j].path_seg@ != seg@,
        },
{
    let n = trees.len();
    let mut i: usize = 0;
    while i < n
        invariant
            n == trees@.len(),
            i <= n,
            forall|j: int| 0 <= j < i ==> trees@[j].path_seg@ != seg@,
        decreases n - i,
    {
        if trees[i].path_seg == *seg {
            return Some(i);
        }
        i = i + 1;
    }
    None
}

pub proof fn lemma_wf_child(n: ReportNode, a: int)
    requires
        node_wf(n),
        0 <= a < n.children.len(),
    ensures
        node_wf(n.children[a]),
{
    lemma_all_wf(n.children);
}

/// Two non-empty sequences with the same head and the same tail are equal.
pub proof fn lemma_cons_eq<A>(p: Seq<A>, r: Seq<A>)
    requires
        p.len() > 0,
        r.len() > 0,
        p[0] == r[0],
        p.drop_first() == r.drop_first(),
    ensures
        p == r,
{
    let pd = p.drop_first();
    let rd = r.drop_first();
    assert(pd.len() == p.len() - 1);
    assert(rd.len() == r.len() - 1);
    assert(pd.len() == rd.len());
    assert forall|j: int| 0 <= j < p.len() implies p[j] == r[j] by {
        if j > 0 {
            assert(p[j] == p.drop_first()[j - 1]);
            assert(r[j] == r.drop_first()[j - 1]);
        }
    }
    assert(p =~= r);
}

/// Under distinct segments, a child with segment `seg` at index `i` is the
/// one `seg_index` picks.
pub proof fn lemma_seg_index_unique(children: Seq<ReportNode>, i: int)
    requires
        distinct_segs(children),
        0 <= i < children.len(),
    ensures
        has_seg(children, children[i].seg),
        seg_index(children, children[i].seg) == i,
{
    let seg = children[i].seg;
    assert(has_seg(children, seg));
    let j = seg_index(children, seg);
    assert(children[j].seg == seg);
}

/// One step of insertion: the child at index `i` of `old` (or a fresh,
/// empty child appended at the end) is replaced by `cnew`, which satisfies the
/// insertion law for the rest of the path; then `new` satisfies the law for
/// the whole path.
pub proof fn lemma_insert_step(
    old: ReportNode,
    new: ReportNode,
    i: int,
    cold: ReportNode,
    cnew: ReportNode,
    rest: Seq<Seq<char>>,
    size: int,
    fresh: bool,
)
    requires
        rest.len() > 0,
        node_wf(old),
        node_wf(cnew),
        cold.seg == rest[0],
        cnew.seg == rest[0],
        new.size == old.size,
        new.count == old.count,
        new.seg == old.seg,
        fresh ==> (!has_seg(old.children, rest[0]) && i == old.children.len() && cold == (
        ReportNode { size: 0, count: 0, seg: rest[0], children: Seq::empty() })
            && new.children == old.children.push(cnew)),
        !fresh ==> (0 <= i < old.children.len() && old.children[i] == cold && new.children
            == old.children.update(i, cnew)),
        forall|q: Seq<Seq<char>>|
            #[trigger] info_at(cnew, q) == info_after_insert(
                info_at(cold, q),
                q,
                rest.drop_first(),
                size,
            ),
    ensures
        node_wf(new),
        forall|p: Seq<Seq<char>>|
            #[trigger] info_at(new, p) == info_after_insert(info_at(old, p), p, rest, size),
{
    let seg = rest[0];
    assert(new.children[i] == cnew);
    assert(distinct_segs(new.children)) by {
        assert forall|a: int, b: int|
            0 <= a < new.children.len() && 0 <= b < new.children.len() && a != b implies #[trigger] new.children[a].seg
            != #[trigger] new.children[b].seg by {
            if a != i && b != i {
                assert(new.children[a] == old.children[a]);
                assert(new.children[b] == old.children[b]);
            } else if a == i {
                assert(new.children[b] == old.children[b]);
                if !fresh {
                    assert(old.children[i].seg == seg);
                }
            } else {
                assert(new.children[a] == old.children[a]);
                if !fresh {
                    assert(old.children[i].seg == seg);
                }
            }
        }
    }
    assert forall|a: int| 0 <= a < new.children.len() implies #[trigger] node_wf(
        new.children[a],
    ) by {
        if a != i {
            assert(new.children[a] == old.children[a]);
            lemma_wf_child(old, a);
        }
    }
    lemma_all_wf(new.children);
    assert forall|p: Seq<Seq<char>>| #[trigger]
        info_at(new, p) == info_after_insert(info_at(old, p), p, rest, size) by {
        lemma_insert_step_at(old, new, i, cold, cnew, rest, size, fresh, p);
    }
}

/// The pointwise part of `lemma_insert_step`.
proof fn lemma_insert_step_at(
    old: ReportNode,
    new: ReportNode,
    i: int,
    cold: ReportNode,
    cnew: ReportNode,
    rest: Seq<Seq<char>>,
    size: int,
    fresh: bool,
    p: Seq<Seq<char>>,
)
    requires
        rest.len() > 0,
        node_wf(old),
        node_wf(new),
        cold.seg == rest[0],
        cnew.seg == rest[0],
        new.size == old.size,
        new.count == old.count,
        new.seg == old.seg,
        0 <= i < new.children.len(),
        new.children[i] == cnew,
        fresh ==> (!has_seg(old.children, rest[0]) && i == old.children.len() && cold == (
        ReportNode { size: 0, count: 0, seg: rest[0], children: Seq::empty() })
            && new.children == old.children.push(cnew)),
        !fresh ==> (0 <= i < old.children.len() && old.children[i] == cold && new.children
            == old.children.update(i, cnew)),
        forall|q: Seq<Seq<char>>|
            #[trigger] info_at(cnew, q) == info_after_insert(
                info_at(cold, q),
                q,
                rest.drop_first(),
                size,
            ),
    ensures
        info_at(new, p) == info_after_insert(info_at(old, p), p, rest, size),
{
    let seg = rest[0];
    lemma_seg_index_unique(new.children, i);
    if p.len() == 0 {
        assert(info_at(old, p) == Some((old.size as int, old.count as int)));
        assert(is_prefix_of(p, rest)) by {
            assert(rest.subrange(0, 0) =~= p);
        }
        assert(p != rest);
    } else if p[0] == seg {
        let q = p.drop_first();
        let rq = rest.drop_first();
        assert(lookup(new, p) == lookup(cnew, q));
        assert(info_at(new, p) == info_at(cnew, q));
        assert(info_at(cnew, q) == info_after_insert(info_at(cold, q), q, rq, size));
        assert((p == rest) == (q == rq)) by {
            if q == rq {
                lemma_cons_eq(p, rest);
            }
        }
        assert(is_prefix_of(p, rest) == is_prefix_of(q, rq)) by {
            if is_prefix_of(q, rq) {
                assert forall|j: int| 0 <= j < p.len() implies #[trigger] rest.subrange(
                    0,
                    p.len() as int,
                )[j] == p[j] by {
                    if j > 0 {
                        assert(p[j] == q[j - 1]);
                        assert(rq.subrange(0, q.len() as int)[j - 1] == rq[j - 1]);
                    }
                }
                assert(rest.subrange(0, p.len() as int) =~= p);
            }
            if is_prefix_of(p, rest) {
                assert(rq.subrange(0, q.len() as int) =~= rest.subrange(
                    0,
                    p.len() as int,
                ).drop_first());
            }
        }
        if fresh {
            assert(info_at(old, p) == None::<(int, int)>);
            if q.len() == 0 {
                assert(info_at(cold, q) == Some((0int, 0int)));
                assert(is_prefix_of(p, rest)) by {
                    assert(rest.subrange(0, 1) =~= p);
                }
            } else {
                assert(!has_seg(cold.children, q[0]));
                assert(info_at(cold, q) == None::<(int, int)>);
            }
        } else {
            lemma_seg_index_unique(old.children, i);
            assert(lookup(old, p) == lookup(cold, q));
            assert(info_at(old, p) == info_at(cold, q));
        }
    } else {
        assert(p != rest);
        assert(!is_prefix_of(p, rest)) by {
            if is_prefix_of(p, rest) {
                assert(rest.subrange(0, p.len() as int)[0] == rest[0]);
            }
        }
        if has_seg(old.children, p[0]) {
            let j = seg_index(old.children, p[0]);
            assert(j != i || fresh);
            assert(new.children[j] == old.children[j]);
            lemma_seg_index_unique(new.children, j);
            assert(has_seg(new.children, p[0]));
        } else {
            assert(!has_seg(new.children, p[0])) by {
                if has_seg(new.children, p[0]) {
                    let j = seg_index(new.children, p[0]);
                    assert(j != i);
                    assert(new.children[j] == old.children[j]);
                }
            }
        }
    }
}

impl ReportsTree {
    /// Inserts the remainder `path[k..]` with `size` below this node, adding
    /// any nodes as necessary.
    fn insert_from(&mut self, path: &[String], k: usize, size: usize)
        requires
            k <= path@.len(),
            node_wf(tree_view(*old(self))),
            size_or_zero(info_at(tree_view(*old(self)), seg_path(path@.skip(k as int)))) + size
                <= usize::MAX,
            count_or_zero(info_at(tree_view(*old(self)), seg_path(path@.skip(k as int)))) + 1
                <= u32::MAX,
        ensures
            node_wf(tree_view(*final(self))),
            tree_view(*final(self)).seg == tree_view(*old(self)).seg,
            tree_view(*final(self)) == inserted(tree_view(*old(self)), seg_path(path@.skip(k as int)), size as nat),
            forall|p: Seq<Seq<char>>| #[trigger]
                info_at(tree_view(*final(self)), p) == info_after_insert(
                    info_at(tree_view(*old(self)), p),
                    p,
                    seg_path(path@.skip(k as int)),
                    size as int,
                ),
        decreases path@.len() - k,
    {
        let ghost old_view = tree_view(*self);
        let ghost rest = seg_path(path@.skip(k as int));
        if k == path.len() {
            assert(rest =~= Seq::<Seq<char>>::empty());
            self.size = self.size + size;
            self.count = self.count + 1;
            proof {
                lemma_trees_view(self.children@);
                lemma_trees_view(old(self).children@);
                assert(tree_view(*self).children == old_view.children);
                assert(tree_view(*self) == inserted(old_view, rest, size as nat));
                assert forall|p: Seq<Seq<char>>| #[trigger]
                    info_at(tree_view(*self), p) == info_after_insert(
                        info_at(old_view, p),
                        p,
                        rest,
                        size as int,
                    ) by {
                    if p.len() > 0 {
                        assert(!is_prefix_of(p, rest));
                        assert(lookup(tree_view(*self), p) == lookup(old_view, p));
                    } else {
                        assert(p =~= rest);
                    }
                }
            }
            return;
        }
        proof {
            assert(rest.len() > 0);
            assert(rest[0] == path@[k as int]@);
            lemma_trees_view(self.children@);
        }
        let found = position_of_seg(&self.children, &path[k]);
        let fresh = found.is_none();
        let i = match found {
            Some(i) => i,
            None => {
                let t = ReportsTree::new(path[k].clone());
                self.children.push(t);
                self.children.len() - 1
            },
        };
        let ghost mid_children = self.children@;
        proof {
            lemma_trees_view(self.children@);
            if !fresh {
                lemma_seg_index_unique(old_view.children, i as int);
            } else {
                assert(!has_seg(old_view.children, rest[0])) by {
                    if has_seg(old_view.children, rest[0]) {
                        let j = seg_index(old_view.children, rest[0]);
                        assert(old_view.children[j] == tree_view(old(self).children@[j]));
                    }
                }
            }
        }
        let mut child = self.children.remove(i);
        let ghost cold = tree_view(child);
        proof {
            let rq = seg_path(path@.skip(k as int + 1));
            assert(rq =~= rest.drop_first());
            if !fresh {
                assert(cold == old_view.children[i as int]);
                lemma_wf_child(old_view, i as int);
                assert(lookup(old_view, rest) == lookup(cold, rest.drop_first()));
            } else {
                assert(node_wf(cold)) by {
                    assert(cold.children =~= Seq::<ReportNode>::empty());
                    lemma_all_wf(cold.children);
                }
                if rq.len() > 0 {
                    assert(!has_seg(cold.children, rq[0]));
                }
            }
        }
        child.insert_from(path, k + 1, size);
        let ghost cnew = tree_view(child);
        self.children.insert(i, child);
        proof {
            assert(seg_path(path@.skip(k as int + 1)) =~= rest.drop_first());
            assert(self.children@ =~= mid_children.update(i as int, child));
            let new_view = tree_view(*self);
            if fresh {
                let v = old_view.children.push(cnew);
                assert forall|j: int| 0 <= j < self.children@.len() implies #[trigger] v[j]
                    == tree_view(self.children@[j]) by {
                    if j < old_view.children.len() {
                        assert(self.children@[j] == old(self).children@[j]);
                    }
                }
                lemma_trees_view_ext(self.children@, v);
            } else {
                let v = old_view.children.update(i as int, cnew);
                assert forall|j: int| 0 <= j < self.children@.len() implies #[trigger] v[j]
                    == tree_view(self.children@[j]) by {
                    if j != i {
                        assert(self.children@[j] == old(self).children@[j]);
                    }
                }
                lemma_trees_view_ext(self.children@, v);
            }
            lemma_insert_step(
                old_view,
                new_view,
                i as int,
                cold,
                cnew,
                rest,
                size as int,
                fresh,
            );
            assert(new_view == inserted(old_view, rest, size as nat));
        }
    }

    /// Inserts the path and size into the tree, adding any nodes as necessary:
    /// the node at `path` gains `size` and one more report, every other
    /// recorded size and count stays as it was.
    pub fn insert(&mut self, path: &[String], size: usize)
        requires
            node_wf(tree_view(*old(self))),
            size_or_zero(info_at(tree_view(*old(self)), seg_path(path@))) + size <= usize::MAX,
            count_or_zero(info_at(tree_view(*old(self)), seg_path(path@))) + 1 <= u32::MAX,
        ensures
            node_wf(tree_view(*final(self))),
            tree_view(*final(self)).seg == tree_view(*old(self)).seg,
            tree_view(*final(self)) == inserted(tree_view(*old(self)), seg_path(path@), size as nat),
            forall|p: Seq<Seq<char>>| #[trigger]
                info_at(tree_view(*final(self)), p) == info_after_insert(
                    info_at(tree_view(*old(self)), p),
                    p,
                    seg_path(path@),
                    size as int,
                ),
    {
        assert(path@.skip(0) =~= path@);
        self.insert_from(path, 0, size);
    }
}

/// The size a node stands for once interior sizes are computed: a leaf's own
/// size, or the sum over its children.
pub open spec fn node_total(n: ReportNode) -> nat
    decreases n,
{
    if n.children.len() == 0 {
        n.size
    } else {
        sum_totals(n.children)
    }
}

pub open spec fn sum_totals(s: Seq<ReportNode>) -> nat
    decreases s,
{
    if s.len() == 0 {
        0
    } else {
        sum_totals(s.subrange(0, s.len() - 1)) + node_total(s[s.len() - 1])
    }
}

/// Only leaves carry a size of their own (interior nodes are still zero).
pub open spec fn leaf_sized(n: ReportNode) -> bool
    decreases n,
{
    &&& (n.children.len() > 0 ==> n.size == 0)
    &&& all_leaf_sized(n.children)
}

pub open spec fn all_leaf_sized(s: Seq<ReportNode>) -> bool
    decreases s,
{
    if s.len() == 0 {
        true
    } else {
        all_leaf_sized(s.subrange(0, s.len() - 1)) && leaf_sized(s[s.len() - 1])
    }
}

/// Inserts `x` into `sorted` after every element (from the back) that is at
/// least as large: the step of a stable sort by decreasing size.
pub open spec fn insert_by_size(sorted: Seq<ReportNode>, x: ReportNode) -> Seq<ReportNode>
    decreases sorted.len(),
{
    if sorted.len() == 0 {
        seq![x]
    } else if sorted[sorted.len() - 1].size >= x.size {
        sorted.push(x)
    } else {
        insert_by_size(sorted.subrange(0, sorted.len() - 1), x).push(sorted[sorted.len() - 1])
    }
}

/// The stable sort of `s` by decreasing size.
pub open spec fn sort_by_size(s: Seq<ReportNode>) -> Seq<ReportNode>
    decreases s.len(),
{
    if s.len() == 0 {
        s
    } else {
        insert_by_size(sort_by_size(s.subrange(0, s.len() - 1)), s[s.len() - 1])
    }
}

/// A node after its interior sizes are filled in and every list of children
/// is stably sorted by decreasing size.
pub open spec fn processed(n: ReportNode) -> ReportNode
    decreases n,
{
    if n.children.len() == 0 {
        n
    } else {
        ReportNode {
            size: sum_totals(n.children),
            count: n.count,
            seg: n.seg,
            children: sort_by_size(processed_all(n.children)),
        }
    }
}

pub open spec fn processed_all(s: Seq<ReportNode>) -> Seq<ReportNode>
    decreases s,
{
    if s.len() == 0 {
        s
    } else {
        processed_all(s.subrange(0, s.len() - 1)).push(processed(s[s.len() - 1]))
    }
}

/// Prefix sums of child totals never exceed the full sum.
pub proof fn lemma_sum_totals_prefix(s: Seq<ReportNode>, k: int)
    requires
        0 <= k <= s.len(),
    ensures
        sum_totals(s.subrange(0, k)) <= sum_totals(s),
    decreases s.len() - k,
{
    if k < s.len() {
        lemma_sum_totals_prefix(s, k + 1);
        assert(s.subrange(0, k + 1).subrange(0, k) =~= s.subrange(0, k));
    } else {
        assert(s.subrange(0, k) =~= s);
    }
}

pub proof fn lemma_all_leaf_sized(s: Seq<ReportNode>)
    ensures
        all_leaf_sized(s) <==> forall|i: int| 0 <= i < s.len() ==> #[trigger] leaf_sized(s[i]),
    decreases s.len(),
{
    if s.len() > 0 {
        let t = s.subrange(0, s.len() - 1);
        lemma_all_leaf_sized(t);
        if forall|i: int| 0 <= i < s.len() ==> #[trigger] leaf_sized(s[i]) {
            assert forall|i: int| 0 <= i < t.len() implies #[trigger] leaf_sized(t[i]) by {
                assert(t[i] == s[i]);
            }
            assert(leaf_sized(s[s.len() - 1]));
        }
        if all_leaf_sized(s) {
            assert forall|i: int| 0 <= i < s.len() implies #[trigger] leaf_sized(s[i]) by {
                if i < s.len() - 1 {
                    assert(t[i] == s[i]);
                }
            }
        }
    }
}

/// Finds where `x` goes in `v` (from the back, past every smaller element)
/// and inserts it there.
fn insert_by_decreasing_size(v: &mut Vec<ReportsTree>, x: ReportsTree)
    ensures
        trees_view(final(v)@) == insert_by_size(trees_view(old(v)@), tree_view(x)),
{
    let ghost sv = trees_view(v@);
    let ghost xv = tree_view(x);
    proof {
        lemma_trees_view(v@);
    }
    let mut j: usize = v.len();
    proof {
        assert(sv.subrange(0, sv.len() as int) =~= sv);
        assert(insert_by_size(sv, xv) =~= insert_by_size(sv.subrange(0, j as int), xv)
            + sv.subrange(j as int, sv.len() as int));
    }
    while j > 0 && v[j - 1].size < x.size
        invariant
            j <= v@.len(),
            v@ == old(v)@,
            xv == tree_view(x),
            sv == trees_view(v@),
            sv.len() == v@.len(),
            forall|i: int| 0 <= i < v@.len() ==> #[trigger] sv[i] == tree_view(v@[i]),
            insert_by_size(sv, xv) == insert_by_size(sv.subrange(0, j as int), xv) + sv.subrange(
                j as int,
                sv.len() as int,
            ),
        decreases j,
    {
        proof {
            let a = sv.subrange(0, j as int);
            assert(a[a.len() - 1] == sv[j - 1]);
            assert(sv[j - 1].size < xv.size);
            assert(a.subrange(0, a.len() - 1) =~= sv.subrange(0, j - 1));
            assert(insert_by_size(a, xv) == insert_by_size(sv.subrange(0, j - 1), xv).push(
                sv[j - 1],
            ));
            assert(sv.subrange(j - 1, sv.len() as int) =~= seq![sv[j - 1]] + sv.subrange(
                j as int,
                sv.len() as int,
            ));
            assert(insert_by_size(sv.subrange(0, j - 1), xv).push(sv[j - 1]) + sv.subrange(
                j as int,
                sv.len() as int,
            ) =~= insert_by_size(sv.subrange(0, j - 1), xv) + sv.subrange(
                j - 1,
                sv.len() as int,
            ));
        }
        j = j - 1;
    }
    proof {
        let a = sv.subrange(0, j as int);
        if j > 0 {
            assert(a[a.len() - 1] == sv[j - 1]);
            assert(insert_by_size(a, xv) == a.push(xv));
        } else {
            assert(insert_by_size(a, xv) == seq![xv]);
        }
        assert(insert_by_size(sv, xv) =~= a.push(xv) + sv.subrange(j as int, sv.len() as int));
    }
    v.insert(j, x);
    proof {
        let a = sv.subrange(0, j as int);
        let w = a.push(xv) + sv.subrange(j as int, sv.len() as int);
        assert forall|i: int| 0 <= i < v@.len() implies #[trigger] w[i] == tree_view(v@[i]) by {
            if i < j {
                assert(v@[i] == old(v)@[i]);
            } else if i > j {
                assert(v@[i] == old(v)@[i - 1]);
            }
        }
        lemma_trees_view_ext(v@, w);
    }
}

impl ReportsTree {
    /// Fills in sizes for interior nodes and sorts every list of children by
    /// decreasing size (stably). Returns the size of this node afterwards.
    /// Should only be done once all the reports have been inserted.
    pub fn compute_interior_node_sizes_and_sort(&mut self) -> (res: usize)
        requires
            leaf_sized(tree_view(*old(self))),
            node_total(tree_view(*old(self))) <= usize::MAX,
        ensures
            tree_view(*final(self)) == processed(tree_view(*old(self))),
            res == node_total(tree_view(*old(self))),
        decreases *old(self),
    {
        let ghost orig = *self;
        let ghost ov = tree_view(*self);
        if self.children.len() == 0 {
            proof {
                lemma_trees_view(self.children@);
            }
            return self.size;
        }
        proof {
            lemma_trees_view(self.children@);
            lemma_all_leaf_sized(ov.children);
            lemma_sum_totals_prefix(ov.children, 0);
        }
        let mut rest: Vec<ReportsTree> = Vec::new();
        std::mem::swap(&mut rest, &mut self.children);
        let mut sorted: Vec<ReportsTree> = Vec::new();
        let mut total: usize = 0;
        let n = rest.len();
        let mut k: usize = 0;
        proof {
            lemma_trees_view(sorted@);
            assert(ov.children.subrange(0, 0) =~= Seq::<ReportNode>::empty());
            assert(rest@.subrange(0, n as int) =~= rest@);
        }
        while k < n
            invariant
                orig == *old(self),
                ov == tree_view(orig),
                n == orig.children@.len(),
                n == ov.children.len(),
                k <= n,
                rest@ =~= orig.children@.subrange(k as int, n as int),
                forall|i: int| 0 <= i < n ==> #[trigger] ov.children[i] == tree_view(orig.children@[i]),
                forall|i: int| 0 <= i < n ==> #[trigger] leaf_sized(ov.children[i]),
                trees_view(sorted@) == sort_by_size(processed_all(ov.children.subrange(0, k as int))),
                total == sum_totals(ov.children.subrange(0, k as int)),
                sum_totals(ov.children) <= usize::MAX,
                self.size == ov.size,
                self.count == ov.count,
                self.path_seg@ == ov.seg,
            decreases n - k,
        {
            let mut child = rest.remove(0);
            proof {
                assert(child == orig.children@[k as int]);
                assert(tree_view(child) == ov.children[k as int]);
                lemma_sum_totals_prefix(ov.children, k as int + 1);
                let pre = ov.children.subrange(0, k as int + 1);
                assert(pre.subrange(0, k as int) =~= ov.children.subrange(0, k as int));
                assert(pre[k as int] == ov.children[k as int]);
                assert(sum_totals(pre) == total + node_total(ov.children[k as int]));
                assert(decreases_to!(orig => orig.children));
                assert(decreases_to!(orig.children => orig.children@));
                assert(decreases_to!(orig.children@ => orig.children@[k as int]));
                assert(decreases_to!(orig => child));
            }
            let r = child.compute_interior_node_sizes_and_sort();
            total = total + r;
            insert_by_decreasing_size(&mut sorted, child);
            proof {
                let pre = ov.children.subrange(0, k as int + 1);
                assert(pre.subrange(0, k as int) =~= ov.children.subrange(0, k as int));
                assert(processed_all(pre) == processed_all(ov.children.subrange(0, k as int)).push(
                    processed(ov.children[k as int]),
                ));
                let pa = processed_all(pre);
                assert(pa.subrange(0, pa.len() - 1) =~= processed_all(
                    ov.children.subrange(0, k as int),
                ));
                assert(rest@ =~= orig.children@.subrange(k as int + 1, n as int));
            }
            k = k + 1;
        }
        proof {
            assert(ov.children.subrange(0, n as int) =~= ov.children);
            assert(ov.size == 0);
        }
        self.children = sorted;
        self.size = total;
        proof {
            lemma_trees_view(self.children@);
        }
        total
    }
}

/// A collection of `ReportsTree`s with distinct root segments: the data from
/// many memory reports in a form that is good to print.
pub struct ReportsForest {
    pub trees: Vec<ReportsTree>,
}

/// The forest seen as the children of a nameless, empty root.
pub open spec fn forest_root(f: ReportsForest) -> ReportNode {
    ReportNode { size: 0, count: 0, seg: Seq::empty(), children: trees_view(f.trees@) }
}

/// The forest's trees are well formed and have distinct root segments.
pub open spec fn forest_wf(f: ReportsForest) -> bool {
    node_wf(forest_root(f))
}

/// The (size, count) recorded at the (non-empty) path `p` of the forest.
pub open spec fn forest_info(f: ReportsForest, p: Seq<Seq<char>>) -> Option<(int, int)> {
    if p.len() == 0 {
        None
    } else {
        info_at(forest_root(f), p)
    }
}

impl ReportsForest {
    pub fn new() -> (f: ReportsForest)
        ensures
            forest_wf(f),
            forall|p: Seq<Seq<char>>| #[trigger] forest_info(f, p) == None::<(int, int)>,
    {
        let f = ReportsForest { trees: Vec::new() };
        proof {
            lemma_trees_view(f.trees@);
            lemma_all_wf(forest_root(f).children);
            assert forall|p: Seq<Seq<char>>| #[trigger] forest_info(f, p) == None::<(int, int)> by {
                if p.len() > 0 {
                    assert(!has_seg(forest_root(f).children, p[0]));
                }
            }
        }
        f
    }

    /// Inserts the path and size into the forest, adding any trees and nodes
    /// as necessary. The path's first segment picks the tree.
    pub fn insert(&mut self, path: &[String], size: usize)
        requires
            path@.len() >= 1,
            forest_wf(*old(self)),
            size_or_zero(forest_info(*old(self), seg_path(path@))) + size <= usize::MAX,
            count_or_zero(forest_info(*old(self), seg_path(path@))) + 1 <= u32::MAX,
        ensures
            forest_wf(*final(self)),
            forest_root(*final(self)) == inserted(forest_root(*old(self)), seg_path(path@), size as nat),
            forall|p: Seq<Seq<char>>|
                p.len() > 0 ==> #[trigger] forest_info(*final(self), p) == info_after_insert(
                    forest_info(*old(self), p),
                    p,
                    seg_path(path@),
                    size as int,
                ),
    {
        let ghost old_root = forest_root(*self);
        let ghost rest = seg_path(path@);
        proof {
            lemma_trees_view(self.trees@);
            assert(rest[0] == path@[0]@);
        }
        let n = self.trees.len();
        let found = position_of_seg(&self.trees, &path[0]);
        let fresh = found.is_none();
        let i = match found {
            Some(i) => i,
            None => n,
        };
        if fresh {
            let t = ReportsTree::new(path[0].clone());
            self.trees.push(t);
        }
        let ghost mid = self.trees@;
        proof {
            lemma_trees_view(self.trees@);
            if !fresh {
                lemma_seg_index_unique(old_root.children, i as int);
            } else {
                assert(!has_seg(old_root.children, rest[0])) by {
                    if has_seg(old_root.children, rest[0]) {
                        let j = seg_index(old_root.children, rest[0]);
                        assert(old_root.children[j] == tree_view(old(self).trees@[j]));
                    }
                }
            }
        }
        let mut t = self.trees.remove(i);
        let ghost cold = tree_view(t);
        proof {
            let rq = seg_path(path@.skip(1));
            assert(rq =~= rest.drop_first());
            if !fresh {
                assert(cold == old_root.children[i as int]);
                lemma_wf_child(old_root, i as int);
                assert(lookup(old_root, rest) == lookup(cold, rest.drop_first()));
            } else {
                assert(node_wf(cold)) by {
                    assert(cold.children =~= Seq::<ReportNode>::empty());
                    lemma_all_wf(cold.children);
                }
                if rq.len() > 0 {
                    assert(!has_seg(cold.children, rq[0]));
                }
            }
        }
        t.insert_from(path, 1, size);
        let ghost cnew = tree_view(t);
        self.trees.insert(i, t);
        proof {
            assert(seg_path(path@.skip(1)) =~= rest.drop_first());
            assert(self.trees@ =~= mid.update(i as int, t));
            let new_root = forest_root(*self);
            if fresh {
                let v = old_root.children.push(cnew);
                assert forall|j: int| 0 <= j < self.trees@.len() implies #[trigger] v[j]
                    == tree_view(self.trees@[j]) by {
                    if j < old_root.children.len() {
                        assert(self.trees@[j] == old(self).trees@[j]);
                    }
                }
                lemma_trees_view_ext(self.trees@, v);
            } else {
                let v = old_root.children.update(i as int, cnew);
                assert forall|j: int| 0 <= j < self.trees@.len() implies #[trigger] v[j]
                    == tree_view(self.trees@[j]) by {
                    if j != i {
                        assert(self.trees@[j] == old(self).trees@[j]);
                    }
                }
                lemma_trees_view_ext(self.trees@, v);
            }
            lemma_insert_step(old_root, new_root, i as int, cold, cnew, rest, size as int, fresh);
            assert(new_root == inserted(old_root, rest, size as nat));
            assert forall|p: Seq<Seq<char>>|
                p.len() > 0 implies #[trigger] forest_info(*self, p) == info_after_insert(
                    forest_info(*old(self), p),
                    p,
                    rest,
                    size as int,
                ) by {
                assert(info_at(new_root, p) == info_after_insert(
                    info_at(old_root, p),
                    p,
                    rest,
                    size as int,
                ));
            }
        }
    }
}

/// The children are in order of decreasing size.
pub open spec fn sorted_by_size(s: Seq<ReportNode>) -> bool {
    forall|i: int, j: int| 0 <= i < j < s.len() ==> #[trigger] s[i].size >= #[trigger] s[j].size
}

pub proof fn lemma_insert_by_size(sorted: Seq<ReportNode>, x: ReportNode)
    ensures
        insert_by_size(sorted, x).to_multiset() == sorted.to_multiset().insert(x),
        insert_by_size(sorted, x).len() == sorted.len() + 1,
        sorted_by_size(sorted) ==> sorted_by_size(insert_by_size(sorted, x)),
    decreases sorted.len(),
{
    broadcast use vstd::seq_lib::group_to_multiset_ensures;

    if sorted.len() == 0 {
        assert(seq![x] =~= Seq::<ReportNode>::empty().push(x));
    } else {
        let last = sorted[sorted.len() - 1];
        let init = sorted.subrange(0, sorted.len() - 1);
        assert(sorted =~= init.push(last));
        if last.size >= x.size {
        } else {
            lemma_insert_by_size(init, x);
            let r = insert_by_size(init, x);
            assert(r.push(last).to_multiset() =~= r.to_multiset().insert(last));
            assert(init.push(last).to_multiset() =~= init.to_multiset().insert(last));
            assert(sorted.to_multiset().insert(x) =~= init.to_multiset().insert(x).insert(last));
            if sorted_by_size(sorted) {
                assert(sorted_by_size(init));
                assert forall|i: int, j: int|
                    0 <= i < j < r.push(last).len() implies #[trigger] r.push(last)[i].size
                    >= #[trigger] r.push(last)[j].size by {
                    if j == r.len() {
                        // every element of r is x or an element of init, all at least last
                        let e = r[i];
                        assert(r.to_multiset().contains(e));
                        assert(init.to_multiset().insert(x).contains(e));
                        if e != x {
                            assert(init.to_multiset().contains(e));
                            assert(init.contains(e));
                            let k = choose|k: int| 0 <= k < init.len() && init[k] == e;
                            assert(sorted[k] == e);
                            assert(sorted[sorted.len() - 1] == last);
                        }
                    }
                }
            }
        }
    }
}

/// Sorting by size keeps exactly the same children.
pub proof fn lemma_sort_by_size(s: Seq<ReportNode>)
    ensures
        sort_by_size(s).to_multiset() == s.to_multiset(),
        sort_by_size(s).len() == s.len(),
        sorted_by_size(sort_by_size(s)),
    decreases s.len(),
{
    broadcast use vstd::seq_lib::group_to_multiset_ensures;

    if s.len() > 0 {
        let init = s.subrange(0, s.len() - 1);
        lemma_sort_by_size(init);
        lemma_insert_by_size(sort_by_size(init), s[s.len() - 1]);
        assert(s =~= init.push(s[s.len() - 1]));
    }
}

/// Processing a tree leaves its root with the total of its reports, and its
/// children sorted by decreasing size, being exactly the processed children.
pub proof fn lemma_processed_shape(n: ReportNode)
    ensures
        processed(n).size == node_total(n),
        processed(n).count == n.count,
        processed(n).seg == n.seg,
        processed(n).children.len() == n.children.len(),
        sorted_by_size(processed(n).children),
        processed(n).children.to_multiset() == processed_all(n.children).to_multiset(),
{
    lemma_processed_all(n.children);
    if n.children.len() > 0 {
        lemma_sort_by_size(processed_all(n.children));
    }
}

pub proof fn lemma_processed_all(s: Seq<ReportNode>)
    ensures
        processed_all(s).len() == s.len(),
        forall|i: int| 0 <= i < s.len() ==> #[trigger] processed_all(s)[i] == processed(s[i]),
    decreases s.len(),
{
    if s.len() > 0 {
        let init = s.subrange(0, s.len() - 1);
        lemma_processed_all(init);
        assert forall|i: int| 0 <= i < s.len() implies #[trigger] processed_all(s)[i] == processed(
            s[i],
        ) by {
            if i < s.len() - 1 {
                assert(init[i] == s[i]);
            }
        }
    }
}

/// One line of the printed report: a node at a depth, or a blank separator.
pub enum ReportLine {
    Node { depth: usize, size: usize, path_seg: String, count: u32 },
    Blank,
}

pub enum LineView {
    Node { depth: nat, size: nat, seg: Seq<char>, count: nat },
    Blank,
}

pub open spec fn line_view(l: ReportLine) -> LineView {
    match l {
        ReportLine::Node { depth, size, path_seg, count } => LineView::Node {
            depth: depth as nat,
            size: size as nat,
            seg: path_seg@,
            count: count as nat,
        },
        ReportLine::Blank => LineView::Blank,
    }
}

pub open spec fn lines_view(s: Seq<ReportLine>) -> Seq<LineView> {
    s.map_values(|l: ReportLine| line_view(l))
}

/// The lines printed for `n` at `depth`: the node itself, then each child
/// one level deeper, in order (a preorder walk).
pub open spec fn tree_lines(n: ReportNode, depth: nat) -> Seq<LineView>
    decreases n,
{
    seq![LineView::Node { depth, size: n.size, seg: n.seg, count: n.count }] + all_lines(
        n.children,
        depth + 1,
    )
}

pub open spec fn all_lines(s: Seq<ReportNode>, depth: nat) -> Seq<LineView>
    decreases s,
{
    if s.len() == 0 {
        Seq::empty()
    } else {
        all_lines(s.subrange(0, s.len() - 1), depth) + tree_lines(s[s.len() - 1], depth)
    }
}

/// The number of levels below `n`.
pub open spec fn height(n: ReportNode) -> nat
    decreases n,
{
    if n.children.len() == 0 {
        0
    } else {
        1 + max_height(n.children)
    }
}

pub open spec fn max_height(s: Seq<ReportNode>) -> nat
    decreases s,
{
    if s.len() == 0 {
        0
    } else {
        let a = max_height(s.subrange(0, s.len() - 1));
        let b = height(s[s.len() - 1]);
        if a >= b {
            a
        } else {
            b
        }
    }
}

/// Interior nodes record no reports of their own.
pub open spec fn interiors_uncounted(n: ReportNode) -> bool
    decreases n,
{
    &&& (n.children.len() > 0 ==> n.count == 0)
    &&& all_interiors_uncounted(n.children)
}

pub open spec fn all_interiors_uncounted(s: Seq<ReportNode>) -> bool
    decreases s,
{
    if s.len() == 0 {
        true
    } else {
        all_interiors_uncounted(s.subrange(0, s.len() - 1)) && interiors_uncounted(
            s[s.len() - 1],
        )
    }
}

pub proof fn lemma_max_height(s: Seq<ReportNode>, k: int)
    requires
        0 <= k < s.len(),
    ensures
        height(s[k]) <= max_height(s),
        max_height(s.subrange(0, k)) <= max_height(s),
    decreases s.len(),
{
    let init = s.subrange(0, s.len() - 1);
    if k < s.len() - 1 {
        lemma_max_height(init, k);
        assert(init[k] == s[k]);
        assert(init.subrange(0, k) =~= s.subrange(0, k));
    } else {
        assert(init =~= s.subrange(0, k));
    }
}

pub proof fn lemma_all_interiors_uncounted(s: Seq<ReportNode>, k: int)
    requires
        0 <= k < s.len(),
        all_interiors_uncounted(s),
    ensures
        interiors_uncounted(s[k]),
    decreases s.len(),
{
    let init = s.subrange(0, s.len() - 1);
    if k < s.len() - 1 {
        lemma_all_interiors_uncounted(init, k);
        assert(init[k] == s[k]);
    }
}

impl ReportsTree {
    /// Appends the lines that print this tree at `depth` to `out`.
    pub fn print(&self, depth: usize, out: &mut Vec<ReportLine>)
        requires
            interiors_uncounted(tree_view(*self)),
            depth + height(tree_view(*self)) <= usize::MAX,
        ensures
            lines_view(final(out)@) == lines_view(old(out)@) + tree_lines(
                tree_view(*self),
                depth as nat,
            ),
        decreases self,
    {
        let ghost v = tree_view(*self);
        proof {
            lemma_trees_view(self.children@);
        }
        out.push(
            ReportLine::Node {
                depth,
                size: self.size,
                path_seg: self.path_seg.clone(),
                count: self.count,
            },
        );
        let ghost start = lines_view(out@);
        proof {
            assert(start =~= lines_view(old(out)@) + seq![
                LineView::Node { depth: depth as nat, size: v.size, seg: v.seg, count: v.count },
            ]);
            assert(v.children.subrange(0, 0) =~= Seq::<ReportNode>::empty());
            assert(start =~= start + all_lines(v.children.subrange(0, 0), depth as nat + 1));
        }
        let n = self.children.len();
        let mut i: usize = 0;
        while i < n
            invariant
                n == self.children@.len(),
                n == v.children.len(),
                i <= n,
                v == tree_view(*self),
                forall|j: int| 0 <= j < n ==> #[trigger] v.children[j] == tree_view(self.children@[j]),
                interiors_uncounted(v),
                depth + height(v) <= usize::MAX,
                lines_view(out@) == start + all_lines(v.children.subrange(0, i as int), depth as nat + 1),
            decreases n - i,
        {
            proof {
                lemma_max_height(v.children, i as int);
                lemma_all_interiors_uncounted(v.children, i as int);
                assert(decreases_to!(self => self.children));
                assert(decreases_to!(self.children => self.children@));
                assert(decreases_to!(self.children@ => self.children@[i as int]));
            }
            self.children[i].print(depth + 1, out);
            proof {
                let pre = v.children.subrange(0, i as int + 1);
                assert(pre.subrange(0, i as int) =~= v.children.subrange(0, i as int));
                assert(pre[i as int] == v.children[i as int]);
                assert(all_lines(pre, depth as nat + 1) == all_lines(
                    v.children.subrange(0, i as int),
                    depth as nat + 1,
                ) + tree_lines(v.children[i as int], depth as nat + 1));
            }
            i = i + 1;
        }
        proof {
            assert(v.children.subrange(0, n as int) =~= v.children);
        }
    }
}

/// Lexicographic order on character sequences (code point by code point),
/// which is the order of `str` comparison since UTF-8 preserves it.
pub open spec fn seq_less(a: Seq<char>, b: Seq<char>) -> bool
    decreases a.len(),
{
    if a.len() == 0 {
        b.len() > 0
    } else if b.len() == 0 {
        false
    } else if a[0] != b[0] {
        (a[0] as u32) < (b[0] as u32)
    } else {
        seq_less(a.drop_first(), b.drop_first())
    }
}

/// Whether `a` sorts before `b` lexicographically.
pub fn str_less(a: &String, b: &String) -> (r: bool)
    ensures
        r == seq_less(a@, b@),
{
    let sa = a.as_str();
    let sb = b.as_str();
    let la = sa.unicode_len();
    let lb = sb.unicode_len();
    let mut i: usize = 0;
    proof {
        assert(a@.skip(0) =~= a@);
        assert(b@.skip(0) =~= b@);
    }
    while i < la && i < lb
        invariant
            la == a@.len(),
            lb == b@.len(),
            sa@ == a@,
            sb@ == b@,
            i <= la,
            i <= lb,
            seq_less(a@, b@) == seq_less(a@.skip(i as int), b@.skip(i as int)),
        decreases la - i,
    {
        let ca = sa.get_char(i);
        let cb = sb.get_char(i);
        proof {
            assert(a@.skip(i as int)[0] == ca);
            assert(b@.skip(i as int)[0] == cb);
            assert(a@.skip(i as int).drop_first() =~= a@.skip(i as int + 1));
            assert(b@.skip(i as int).drop_first() =~= b@.skip(i as int + 1));
        }
        if ca != cb {
            return (ca as u32) < (cb as u32);
        }
        i = i + 1;
    }
    la < lb
}

/// The order in which the forest prints its trees: trees with children come
/// before single-node trees; otherwise alphabetical by root segment.
pub open spec fn forest_before(a: ReportNode, b: ReportNode) -> bool {
    if a.children.len() == 0 && b.children.len() != 0 {
        false
    } else if a.children.len() != 0 && b.children.len() == 0 {
        true
    } else {
        seq_less(a.seg, b.seg)
    }
}

/// Inserts `x` after every element (from the back) that it does not sort
/// before: the step of a stable sort in forest order.
pub open spec fn insert_by_forest_order(sorted: Seq<ReportNode>, x: ReportNode) -> Seq<ReportNode>
    decreases sorted.len(),
{
    if sorted.len() == 0 {
        seq![x]
    } else if !forest_before(x, sorted[sorted.len() - 1]) {
        sorted.push(x)
    } else {
        insert_by_forest_order(sorted.subrange(0, sorted.len() - 1), x).push(
            sorted[sorted.len() - 1],
        )
    }
}

pub open spec fn sort_forest(s: Seq<ReportNode>) -> Seq<ReportNode>
    decreases s.len(),
{
    if s.len() == 0 {
        s
    } else {
        insert_by_forest_order(sort_forest(s.subrange(0, s.len() - 1)), s[s.len() - 1])
    }
}

/// The lines printed for a sorted forest: each tree, followed by a blank
/// line when it has children.
pub open spec fn forest_lines(s: Seq<ReportNode>) -> Seq<LineView>
    decreases s.len(),
{
    if s.len() == 0 {
        Seq::empty()
    } else {
        let last = s[s.len() - 1];
        forest_lines(s.subrange(0, s.len() - 1)) + tree_lines(last, 0) + if last.children.len()
            > 0 {
            seq![LineView::Blank]
        } else {
            Seq::empty()
        }
    }
}

fn tree_before(a: &ReportsTree, b: &ReportsTree) -> (r: bool)
    ensures
        r == forest_before(tree_view(*a), tree_view(*b)),
{
    proof {
        lemma_trees_view(a.children@);
        lemma_trees_view(b.children@);
    }
    if a.children.len() == 0 && b.children.len() != 0 {
        false
    } else if a.children.len() != 0 && b.children.len() == 0 {
        true
    } else {
        str_less(&a.path_seg, &b.path_seg)
    }
}

fn insert_in_forest_order(v: &mut Vec<ReportsTree>, x: ReportsTree)
    ensures
        trees_view(final(v)@) == insert_by_forest_order(trees_view(old(v)@), tree_view(x)),
{
    let ghost sv = trees_view(v@);
    let ghost xv = tree_view(x);
    proof {
        lemma_trees_view(v@);
    }
    let mut j: usize = v.len();
    proof {
        assert(sv.subrange(0, sv.len() as int) =~= sv);
        assert(insert_by_forest_order(sv, xv) =~= insert_by_forest_order(
            sv.subrange(0, j as int),
            xv,
        ) + sv.subrange(j as int, sv.len() as int));
    }
    while j > 0 && tree_before(&x, &v[j - 1])
        invariant
            j <= v@.len(),
            v@ == old(v)@,
            xv == tree_view(x),
            sv == trees_view(v@),
            sv.len() == v@.len(),
            forall|i: int| 0 <= i < v@.len() ==> #[trigger] sv[i] == tree_view(v@[i]),
            insert_by_forest_order(sv, xv) == insert_by_forest_order(sv.subrange(0, j as int), xv)
                + sv.subrange(j as int, sv.len() as int),
        decreases j,
    {
        proof {
            let a = sv.subrange(0, j as int);
            assert(a[a.len() - 1] == sv[j - 1]);
            assert(forest_before(xv, sv[j - 1]));
            assert(a.subrange(0, a.len() - 1) =~= sv.subrange(0, j - 1));
            assert(insert_by_forest_order(a, xv) == insert_by_forest_order(
                sv.subrange(0, j - 1),
                xv,
            ).push(sv[j - 1]));
            assert(insert_by_forest_order(sv.subrange(0, j - 1), xv).push(sv[j - 1]) + sv.subrange(
                j as int,
                sv.len() as int,
            ) =~= insert_by_forest_order(sv.subrange(0, j - 1), xv) + sv.subrange(
                j - 1,
                sv.len() as int,
            ));
        }
        j = j - 1;
    }
    proof {
        let a = sv.subrange(0, j as int);
        if j > 0 {
            assert(a[a.len() - 1] == sv[j - 1]);
            assert(insert_by_forest_order(a, xv) == a.push(xv));
        } else {
            assert(insert_by_forest_order(a, xv) == seq![xv]);
        }
        assert(insert_by_forest_order(sv, xv) =~= a.push(xv) + sv.subrange(
            j as int,
            sv.len() as int,
        ));
    }
    v.insert(j, x);
    proof {
        let a = sv.subrange(0, j as int);
        let w = a.push(xv) + sv.subrange(j as int, sv.len() as int);
        assert forall|i: int| 0 <= i < v@.len() implies #[trigger] w[i] == tree_view(v@[i]) by {
            if i < j {
                assert(v@[i] == old(v)@[i]);
            } else if i > j {
                assert(v@[i] == old(v)@[i - 1]);
            }
        }
        lemma_trees_view_ext(v@, w);
    }
}

/// A tree that printing accepts: only leaves carry sizes, the total fits,
/// and once processed no interior node records reports and the height
/// fits.
pub open spec fn tree_printable(t: ReportNode) -> bool {
    &&& leaf_sized(t)
    &&& node_total(t) <= usize::MAX
    &&& interiors_uncounted(processed(t))
    &&& height(processed(t)) <= usize::MAX
}

impl ReportsTree {
    /// A copy of the tree.
    fn copy(&self) -> (c: ReportsTree)
        ensures
            tree_view(c) == tree_view(*self),
        decreases *self,
    {
        let n = self.children.len();
        let mut children: Vec<ReportsTree> = Vec::new();
        let mut k: usize = 0;
        while k < n
            invariant
                n == self.children@.len(),
                k <= n,
                children@.len() == k,
                forall|i: int| 0 <= i < k ==> #[trigger] tree_view(children@[i]) == tree_view(
                    self.children@[i],
                ),
            decreases n - k,
        {
            proof {
                assert(decreases_to!(*self => self.children));
                assert(decreases_to!(self.children => self.children@));
                assert(decreases_to!(self.children@ => self.children@[k as int]));
            }
            let c = self.children[k].copy();
            children.push(c);
            k = k + 1;
        }
        proof {
            lemma_trees_view(children@);
            lemma_trees_view(self.children@);
            assert(trees_view(children@) =~= trees_view(self.children@));
        }
        ReportsTree {
            size: self.size,
            count: self.count,
            path_seg: self.path_seg.clone(),
            children,
        }
    }

    /// Whether only leaves carry a size (see [`leaf_sized`]).
    fn is_leaf_sized(&self) -> (b: bool)
        ensures
            b == leaf_sized(tree_view(*self)),
        decreases *self,
    {
        let ghost ov = tree_view(*self);
        proof {
            lemma_trees_view(self.children@);
            lemma_all_leaf_sized(ov.children);
        }
        if self.children.len() > 0 && self.size != 0 {
            return false;
        }
        let n = self.children.len();
        let mut k: usize = 0;
        while k < n
            invariant
                ov == tree_view(*self),
                n == self.children@.len(),
                n == ov.children.len(),
                k <= n,
                forall|i: int| 0 <= i < n ==> #[trigger] ov.children[i] == tree_view(self.children@[i]),
                forall|i: int| 0 <= i < k ==> #[trigger] leaf_sized(ov.children[i]),
                all_leaf_sized(ov.children) <==> forall|i: int| 0 <= i < n ==> #[trigger] leaf_sized(
                    ov.children[i],
                ),
            decreases n - k,
        {
            proof {
                assert(decreases_to!(*self => self.children));
                assert(decreases_to!(self.children => self.children@));
                assert(decreases_to!(self.children@ => self.children@[k as int]));
            }
            if !self.children[k].is_leaf_sized() {
                proof {
                    assert(!leaf_sized(ov.children[k as int]));
                }
                return false;
            }
            k = k + 1;
        }
        true
    }

    /// The total size of the tree (see [`node_total`]), when it fits.
    fn checked_total(&self) -> (r: Option<usize>)
        ensures
            match r {
                Some(t) => t == node_total(tree_view(*self)),
                None => node_total(tree_view(*self)) > usize::MAX,
            },
        decreases *self,
    {
        let ghost ov = tree_view(*self);
        proof {
            lemma_trees_view(self.children@);
        }
        if self.children.len() == 0 {
            return Some(self.size);
        }
        let n = self.children.len();
        let mut k: usize = 0;
        let mut total: usize = 0;
        proof {
            assert(ov.children.subrange(0, 0) =~= Seq::<ReportNode>::empty());
        }
        while k < n
            invariant
                ov == tree_view(*self),
                n == self.children@.len(),
                n == ov.children.len(),
                n > 0,
                k <= n,
                forall|i: int| 0 <= i < n ==> #[trigger] ov.children[i] == tree_view(self.children@[i]),
                total == sum_totals(ov.children.subrange(0, k as int)),
                node_total(ov) == sum_totals(ov.children),
            decreases n - k,
        {
            proof {
                assert(decreases_to!(*self => self.children));
                assert(decreases_to!(self.children => self.children@));
                assert(decreases_to!(self.children@ => self.children@[k as int]));
                let pre = ov.children.subrange(0, k as int + 1);
                assert(pre.subrange(0, k as int) =~= ov.children.subrange(0, k as int));
                assert(pre[k as int] == ov.children[k as int]);
                lemma_sum_totals_prefix(ov.children, k as int + 1);
            }
            match self.children[k].checked_total() {
                Some(t) => match total.checked_add(t) {
                    Some(s) => {
                        total = s;
                    },
                    None => {
                        return None;
                    },
                },
                None => {
                    return None;
                },
            }
            k = k + 1;
        }
        proof {
            assert(ov.children.subrange(0, n as int) =~= ov.children);
        }
        Some(total)
    }

    /// Whether no interior node records reports (see [`interiors_uncounted`]).
    fn is_interiors_uncounted(&self) -> (b: bool)
        ensures
            b == interiors_uncounted(tree_view(*self)),
        decreases *self,
    {
        let ghost ov = tree_view(*self);
        proof {
            lemma_trees_view(self.children@);
        }
        if self.children.len() > 0 && self.count != 0 {
            return false;
        }
        let n = self.children.len();
        let mut k: usize = 0;
        proof {
            assert(ov.children.subrange(0, 0) =~= Seq::<ReportNode>::empty());
        }
        while k < n
            invariant
                ov == tree_view(*self),
                n == self.children@.len(),
                n == ov.children.len(),
                k <= n,
                forall|i: int| 0 <= i < n ==> #[trigger] ov.children[i] == tree_view(self.children@[i]),
                all_interiors_uncounted(ov.children.subrange(0, k as int)),
            decreases n - k,
        {
            proof {
                assert(decreases_to!(*self => self.children));
                assert(decreases_to!(self.children => self.children@));
                assert(decreases_to!(self.children@ => self.children@[k as int]));
                let pre = ov.children.subrange(0, k as int + 1);
                assert(pre.subrange(0, k as int) =~= ov.children.subrange(0, k as int));
                assert(pre[k as int] == ov.children[k as int]);
            }
            if !self.children[k].is_interiors_uncounted() {
                proof {
                    if all_interiors_uncounted(ov.children) {
                        lemma_all_interiors_uncounted(ov.children, k as int);
                    }
                }
                return false;
            }
            k = k + 1;
        }
        proof {
            assert(ov.children.subrange(0, n as int) =~= ov.children);
        }
        true
    }

    /// The height of the tree (see [`height`]), when it fits.
    fn checked_height(&self) -> (r: Option<usize>)
        ensures
            match r {
                Some(h) => h == height(tree_view(*self)),
                None => height(tree_view(*self)) > usize::MAX,
            },
        decreases *self,
    {
        let ghost ov = tree_view(*self);
        proof {
            lemma_trees_view(self.children@);
        }
        if self.children.len() == 0 {
            return Some(0);
        }
        let n = self.children.len();
        let mut k: usize = 0;
        let mut m: usize = 0;
        proof {
            assert(ov.children.subrange(0, 0) =~= Seq::<ReportNode>::empty());
        }
        while k < n
            invariant
                ov == tree_view(*self),
                n == self.children@.len(),
                n == ov.children.len(),
                n > 0,
                k <= n,
                forall|i: int| 0 <= i < n ==> #[trigger] ov.children[i] == tree_view(self.children@[i]),
                m == max_height(ov.children.subrange(0, k as int)),
                height(ov) == 1 + max_height(ov.children),
            decreases n - k,
        {
            proof {
                assert(decreases_to!(*self => self.children));
                assert(decreases_to!(self.children => self.children@));
                assert(decreases_to!(self.children@ => self.children@[k as int]));
                let pre = ov.children.subrange(0, k as int + 1);
                assert(pre.subrange(0, k as int) =~= ov.children.subrange(0, k as int));
                assert(pre[k as int] == ov.children[k as int]);
                lemma_max_height(ov.children, k as int);
            }
            match self.children[k].checked_height() {
                Some(h) => {
                    if h > m {
                        m = h;
                    }
                },
                None => {
                    return None;
                },
            }
            k = k + 1;
        }
        proof {
            assert(ov.children.subrange(0, n as int) =~= ov.children);
        }
        m.checked_add(1)
    }
}

impl ReportsForest {
    /// Whether the forest can be printed (see [`tree_printable`]), as
    /// [`ReportsForest::print`] requires.
    pub fn printable(&self) -> (b: bool)
        ensures
            b == forall|i: int| 0 <= i < self.trees@.len() ==> tree_printable(
                tree_view(#[trigger] self.trees@[i]),
            ),
    {
        let n = self.trees.len();
        let mut k: usize = 0;
        while k < n
            invariant
                n == self.trees@.len(),
                k <= n,
                forall|i: int| 0 <= i < k ==> tree_printable(tree_view(#[trigger] self.trees@[i])),
            decreases n - k,
        {
            let t = &self.trees[k];
            if !t.is_leaf_sized() {
                return false;
            }
            if t.checked_total().is_none() {
                return false;
            }
            let mut c = t.copy();
            c.compute_interior_node_sizes_and_sort();
            if !c.is_interiors_uncounted() {
                return false;
            }
            if c.checked_height().is_none() {
                return false;
            }
            k = k + 1;
        }
        true
    }
}

impl ReportsForest {
    /// Fills in the sizes of interior nodes, sorts every tree, puts the trees
    /// in printing order (trees with children first, then alphabetical) and
    /// returns the lines that print the forest.
    pub fn print(&mut self) -> (lines: Vec<ReportLine>)
        requires
            forall|i: int|
                0 <= i < old(self).trees@.len() ==> tree_printable(tree_view(#[trigger] old(self).trees@[i])),
        ensures
            trees_view(final(self).trees@) == sort_forest(processed_all(trees_view(old(self).trees@))),
            lines_view(lines@) == forest_lines(
                sort_forest(processed_all(trees_view(old(self).trees@))),
            ),
            forall|i: int, j: int|
                0 <= i < j < final(self).trees@.len() && (#[trigger] trees_view(final(self).trees@)[i]).children.len() == 0
                    ==> (#[trigger] trees_view(final(self).trees@)[j]).children.len() == 0,
            forall|i: int, j: int|
                0 <= i < j < final(self).trees@.len() && ((#[trigger] trees_view(final(self).trees@)[i]).children.len() == 0)
                    == ((#[trigger] trees_view(final(self).trees@)[j]).children.len() == 0) ==> !seq_less(
                    trees_view(final(self).trees@)[j].seg,
                    trees_view(final(self).trees@)[i].seg,
                ),
    {
        let ghost ov = trees_view(self.trees@);
        proof {
            lemma_trees_view(self.trees@);
        }
        let mut rest: Vec<ReportsTree> = Vec::new();
        std::mem::swap(&mut rest, &mut self.trees);
        let ghost orig = rest@;
        let n = rest.len();
        let mut sorted: Vec<ReportsTree> = Vec::new();
        let mut k: usize = 0;
        proof {
            lemma_trees_view(sorted@);
            assert(ov.subrange(0, 0) =~= Seq::<ReportNode>::empty());
            assert(rest@.subrange(0, n as int) =~= rest@);
        }
        while k < n
            invariant
                n == orig.len(),
                n == ov.len(),
                k <= n,
                rest@ =~= orig.subrange(k as int, n as int),
                forall|i: int| 0 <= i < n ==> #[trigger] ov[i] == tree_view(orig[i]),
                forall|i: int|
                    0 <= i < n ==> {
                        let t = tree_view(#[trigger] orig[i]);
                        &&& leaf_sized(t)
                        &&& node_total(t) <= usize::MAX
                    },
                trees_view(sorted@) == sort_forest(processed_all(ov.subrange(0, k as int))),
            decreases n - k,
        {
            let mut t = rest.remove(0);
            proof {
                assert(t == orig[k as int]);
            }
            t.compute_interior_node_sizes_and_sort();
            insert_in_forest_order(&mut sorted, t);
            proof {
                let pre = ov.subrange(0, k as int + 1);
                assert(pre.subrange(0, k as int) =~= ov.subrange(0, k as int));
                assert(pre[k as int] == ov[k as int]);
                let pa = processed_all(pre);
                assert(pa.subrange(0, pa.len() - 1) =~= processed_all(ov.subrange(0, k as int)));
                assert(rest@ =~= orig.subrange(k as int + 1, n as int));
            }
            k = k + 1;
        }
        proof {
            assert(ov.subrange(0, n as int) =~= ov);
        }
        self.trees = sorted;
        let ghost sv = trees_view(self.trees@);
        let mut lines: Vec<ReportLine> = Vec::new();
        let m = self.trees.len();
        proof {
            lemma_trees_view(self.trees@);
            lemma_processed_all(ov);
            lemma_sort_forest_elements(processed_all(ov));
            lemma_forest_print_order(processed_all(ov));
            assert forall|j: int| 0 <= j < m implies interiors_uncounted(#[trigger] sv[j])
                && height(sv[j]) <= usize::MAX by {
                assert(processed_all(ov).contains(sv[j]));
                let k = choose|k: int| 0 <= k < n && processed_all(ov)[k] == sv[j];
                assert(processed_all(ov)[k] == processed(ov[k]));
                assert(ov[k] == tree_view(orig[k]));
            }
            assert(sv.subrange(0, 0) =~= Seq::<ReportNode>::empty());
            assert(lines_view(lines@) =~= Seq::<LineView>::empty());
        }
        let mut i: usize = 0;
        while i < m
            invariant
                m == self.trees@.len(),
                m == sv.len(),
                sv == trees_view(self.trees@),
                i <= m,
                forall|j: int| 0 <= j < m ==> #[trigger] sv[j] == tree_view(self.trees@[j]),
                forall|j: int|
                    0 <= j < m ==> interiors_uncounted(#[trigger] sv[j]) && height(sv[j])
                        <= usize::MAX,
                lines_view(lines@) == forest_lines(sv.subrange(0, i as int)),
            decreases m - i,
        {
            proof {
                assert(sv[i as int] == tree_view(self.trees@[i as int]));
                assert(interiors_uncounted(sv[i as int]));
            }
            self.trees[i].print(0, &mut lines);
            if self.trees[i].children.len() > 0 {
                lines.push(ReportLine::Blank);
            }
            proof {
                lemma_trees_view(self.trees@[i as int].children@);
                let pre = sv.subrange(0, i as int + 1);
                assert(pre.subrange(0, i as int) =~= sv.subrange(0, i as int));
                assert(pre[i as int] == sv[i as int]);
                assert(lines_view(lines@) =~= forest_lines(pre));
            }
            i = i + 1;
        }
        proof {
            assert(sv.subrange(0, m as int) =~= sv);
        }
        lines
    }
}

/// No tree of `r` sorts, in forest order, before a tree that comes
/// earlier.
pub open spec fn forest_sorted(r: Seq<ReportNode>) -> bool {
    forall|i: int, j: int| 0 <= i < j < r.len() ==> !forest_before(#[trigger] r[j], #[trigger] r[i])
}

proof fn lemma_char_code_injective(c: char, d: char)
    requires
        c != d,
    ensures
        (c as u32) != (d as u32),
{
}

proof fn lemma_seq_less_irreflexive(a: Seq<char>)
    ensures
        !seq_less(a, a),
    decreases a.len(),
{
    if a.len() > 0 {
        lemma_seq_less_irreflexive(a.drop_first());
    }
}

proof fn lemma_seq_less_transitive(a: Seq<char>, b: Seq<char>, c: Seq<char>)
    requires
        seq_less(a, b),
        seq_less(b, c),
    ensures
        seq_less(a, c),
    decreases a.len(),
{
    if a.len() > 0 && b.len() > 0 && c.len() > 0 {
        if a[0] == b[0] && b[0] == c[0] {
            lemma_seq_less_transitive(a.drop_first(), b.drop_first(), c.drop_first());
        }
    }
}

proof fn lemma_seq_less_total(a: Seq<char>, b: Seq<char>)
    requires
        a != b,
    ensures
        seq_less(a, b) || seq_less(b, a),
    decreases a.len(),
{
    if a.len() > 0 && b.len() > 0 {
        if a[0] == b[0] {
            if a.drop_first() == b.drop_first() {
                assert(a =~= seq![a[0]] + a.drop_first());
                assert(b =~= seq![b[0]] + b.drop_first());
            }
            lemma_seq_less_total(a.drop_first(), b.drop_first());
        } else {
            lemma_char_code_injective(a[0], b[0]);
        }
    } else if a.len() == 0 && b.len() == 0 {
        assert(a =~= b);
    }
}

proof fn lemma_forest_before_asymmetric(x: ReportNode, y: ReportNode)
    requires
        forest_before(x, y),
    ensures
        !forest_before(y, x),
{
    if seq_less(x.seg, y.seg) && seq_less(y.seg, x.seg) {
        lemma_seq_less_transitive(x.seg, y.seg, x.seg);
        lemma_seq_less_irreflexive(x.seg);
    }
}

/// Not sorting before is transitive.
proof fn lemma_forest_before_negative_transitive(x: ReportNode, y: ReportNode, z: ReportNode)
    requires
        !forest_before(x, y),
        !forest_before(y, z),
    ensures
        !forest_before(x, z),
{
    if forest_before(x, z) {
        // the kinds line up, so the segments must
        if x.seg != y.seg {
            lemma_seq_less_total(x.seg, y.seg);
        }
        if y.seg != z.seg {
            lemma_seq_less_total(y.seg, z.seg);
        }
        if x.children.len() == 0 && y.children.len() == 0 && z.children.len() == 0 || x.children.len()
            != 0 && y.children.len() != 0 && z.children.len() != 0 {
            if seq_less(z.seg, y.seg) && seq_less(y.seg, x.seg) {
                lemma_seq_less_transitive(z.seg, y.seg, x.seg);
            }
            if seq_less(z.seg, x.seg) {
                lemma_seq_less_transitive(x.seg, z.seg, x.seg);
                lemma_seq_less_irreflexive(x.seg);
            }
        }
    }
}

proof fn lemma_insert_forest_sorted(sorted: Seq<ReportNode>, x: ReportNode)
    requires
        forest_sorted(sorted),
    ensures
        forest_sorted(insert_by_forest_order(sorted, x)),
    decreases sorted.len(),
{
    let r = insert_by_forest_order(sorted, x);
    lemma_insert_forest_elements(sorted, x);
    if sorted.len() > 0 {
        let n = sorted.len() - 1;
        let last = sorted[n];
        let init = sorted.subrange(0, n);
        if !forest_before(x, last) {
            assert forall|i: int, j: int| 0 <= i < j < r.len() implies !forest_before(#[trigger] r[j], #[trigger] r[i]) by {
                if j == sorted.len() {
                    if i < n {
                        assert(!forest_before(last, sorted[i]));
                        lemma_forest_before_negative_transitive(x, last, sorted[i]);
                    }
                    assert(r[i] == sorted[i]);
                } else {
                    assert(r[i] == sorted[i] && r[j] == sorted[j]);
                }
            }
        } else {
            assert(forest_sorted(init)) by {
                assert forall|i: int, j: int| 0 <= i < j < init.len() implies !forest_before(#[trigger] init[j], #[trigger] init[i]) by {
                    assert(init[i] == sorted[i] && init[j] == sorted[j]);
                }
            }
            lemma_insert_forest_sorted(init, x);
            lemma_insert_forest_elements(init, x);
            let r0 = insert_by_forest_order(init, x);
            assert(r == r0.push(last));
            lemma_forest_before_asymmetric(x, last);
            assert forall|i: int, j: int| 0 <= i < j < r.len() implies !forest_before(#[trigger] r[j], #[trigger] r[i]) by {
                assert(r[i] == r0[i]);
                if j == n + 1 {
                    assert(r[j] == last);
                    if r0[i] != x {
                        let k = choose|k: int| 0 <= k < init.len() && init[k] == r0[i];
                        assert(sorted[k] == init[k]);
                        assert(!forest_before(sorted[n], sorted[k]));
                    }
                } else {
                    assert(r[j] == r0[j]);
                }
            }
        }
    }
}

proof fn lemma_sort_forest_sorted(s: Seq<ReportNode>)
    ensures
        forest_sorted(sort_forest(s)),
    decreases s.len(),
{
    if s.len() > 0 {
        lemma_sort_forest_sorted(s.subrange(0, s.len() - 1));
        lemma_insert_forest_sorted(sort_forest(s.subrange(0, s.len() - 1)), s[s.len() - 1]);
    }
}

/// The order in which a forest prints its trees: every tree that has
/// children comes before every single-node tree, and trees of the same kind
/// come in alphabetical order of their root segments.
pub proof fn lemma_forest_print_order(s: Seq<ReportNode>)
    ensures
        forall|i: int, j: int|
            0 <= i < j < sort_forest(s).len() && (#[trigger] sort_forest(s)[i]).children.len() == 0
                ==> (#[trigger] sort_forest(s)[j]).children.len() == 0,
        forall|i: int, j: int|
            0 <= i < j < sort_forest(s).len() && ((#[trigger] sort_forest(s)[i]).children.len() == 0)
                == ((#[trigger] sort_forest(s)[j]).children.len() == 0) ==> !seq_less(
                sort_forest(s)[j].seg,
                sort_forest(s)[i].seg,
            ),
{
    lemma_sort_forest_sorted(s);
    let r = sort_forest(s);
    assert forall|i: int, j: int| 0 <= i < j < r.len() && (#[trigger] r[i]).children.len() == 0 implies (
    #[trigger] r[j]).children.len() == 0 by {
        assert(!forest_before(r[j], r[i]));
    }
    assert forall|i: int, j: int|
        0 <= i < j < r.len() && ((#[trigger] r[i]).children.len() == 0) == ((#[trigger] r[j]).children.len() == 0)
            implies !seq_less(r[j].seg, r[i].seg) by {
        assert(!forest_before(r[j], r[i]));
    }
}

/// Every element of the sorted forest is an element of the input.
pub proof fn lemma_sort_forest_elements(s: Seq<ReportNode>)
    ensures
        sort_forest(s).len() == s.len(),
        forall|i: int| 0 <= i < s.len() ==> s.contains(#[trigger] sort_forest(s)[i]),
    decreases s.len(),
{
    if s.len() > 0 {
        let init = s.subrange(0, s.len() - 1);
        lemma_sort_forest_elements(init);
        lemma_insert_forest_elements(sort_forest(init), s[s.len() - 1]);
        assert forall|i: int| 0 <= i < s.len() implies s.contains(#[trigger] sort_forest(s)[i]) by {
            let e = sort_forest(s)[i];
            if e != s[s.len() - 1] {
                let k = choose|k: int| 0 <= k < init.len() && sort_forest(init)[k] == e;
                assert(init.contains(e));
                let m = choose|m: int| 0 <= m < init.len() && init[m] == e;
                assert(s[m] == e);
            } else {
                assert(s[s.len() - 1] == e);
            }
        }
    }
}

pub proof fn lemma_insert_forest_elements(sorted: Seq<ReportNode>, x: ReportNode)
    ensures
        insert_by_forest_order(sorted, x).len() == sorted.len() + 1,
        forall|i: int|
            0 <= i < sorted.len() + 1 ==> #[trigger] insert_by_forest_order(sorted, x)[i] == x
                || exists|k: int| 0 <= k < sorted.len() && sorted[k] == insert_by_forest_order(sorted, x)[i],
    decreases sorted.len(),
{
    if sorted.len() > 0 {
        let init = sorted.subrange(0, sorted.len() - 1);
        lemma_insert_forest_elements(init, x);
        let r = insert_by_forest_order(sorted, x);
        assert forall|i: int| 0 <= i < sorted.len() + 1 implies #[trigger] r[i] == x
            || exists|k: int| 0 <= k < sorted.len() && sorted[k] == r[i] by {
            if forest_before(x, sorted[sorted.len() - 1]) {
                if i < sorted.len() {
                    let r0 = insert_by_forest_order(init, x);
                    assert(r[i] == r0[i]);
                    if r0[i] != x {
                        let k = choose|k: int| 0 <= k < init.len() && init[k] == r0[i];
                        assert(sorted[k] == r[i]);
                    }
                } else {
                    assert(sorted[sorted.len() - 1] == r[i]);
                }
            } else {
                if i < sorted.len() {
                    assert(sorted[i] == r[i]);
                }
            }
        }
    }
}

/// What a memory report measures.
#[derive(Debug)]
pub enum ReportKind {
    ExplicitJemallocHeapSize,
    ExplicitSystemHeapSize,
    ExplicitNonHeapSize,
    ExplicitUnknownLocationSize,
    NonExplicitSize,
}

/// A single memory report: a path of segments, a kind and a size in bytes.
#[derive(Debug)]
pub struct Report {
    pub path: Vec<String>,
    pub kind: ReportKind,
    pub size: usize,
}

pub open spec fn is_explicit(k: ReportKind) -> bool {
    !(k is NonExplicitSize)
}

/// The path under which a report is inserted: explicit reports go below
/// "explicit".
pub open spec fn report_path(r: Report) -> Seq<Seq<char>> {
    if is_explicit(r.kind) {
        seq!["explicit"@] + seg_path(r.path@)
    } else {
        seg_path(r.path@)
    }
}

/// The forest entry at `p` after inserting the reports `rs` in order into an
/// empty forest.
pub open spec fn reports_info(rs: Seq<Report>, p: Seq<Seq<char>>) -> Option<(int, int)>
    decreases rs.len(),
{
    if rs.len() == 0 {
        None
    } else {
        let last = rs[rs.len() - 1];
        info_after_insert(
            reports_info(rs.subrange(0, rs.len() - 1), p),
            p,
            report_path(last),
            last.size as int,
        )
    }
}

pub open spec fn sum_sizes(rs: Seq<Report>) -> nat
    decreases rs.len(),
{
    if rs.len() == 0 {
        0
    } else {
        sum_sizes(rs.subrange(0, rs.len() - 1)) + rs[rs.len() - 1].size as nat
    }
}

/// The total size of the reports of one heap kind (jemalloc when `jemalloc`,
/// the system heap otherwise).
pub open spec fn heap_reported(rs: Seq<Report>, jemalloc: bool) -> nat
    decreases rs.len(),
{
    if rs.len() == 0 {
        0
    } else {
        let last = rs[rs.len() - 1];
        let add: nat = if (jemalloc && last.kind is ExplicitJemallocHeapSize) || (!jemalloc
            && last.kind is ExplicitSystemHeapSize) {
            last.size as nat
        } else {
            0
        };
        heap_reported(rs.subrange(0, rs.len() - 1), jemalloc) + add
    }
}

/// The size of the (last) report whose inserted path is exactly `[name]`.
pub open spec fn heap_allocated(rs: Seq<Report>, name: Seq<char>) -> Option<nat>
    decreases rs.len(),
{
    if rs.len() == 0 {
        None
    } else {
        let last = rs[rs.len() - 1];
        if report_path(last) == seq![name] {
            Some(last.size as nat)
        } else {
            heap_allocated(rs.subrange(0, rs.len() - 1), name)
        }
    }
}

/// At most one report has the inserted path `[name]`.
pub open spec fn heap_unique(rs: Seq<Report>, name: Seq<char>) -> bool {
    forall|i: int, j: int|
        0 <= i < rs.len() && 0 <= j < rs.len() && report_path(#[trigger] rs[i]) == seq![name]
            && report_path(#[trigger] rs[j]) == seq![name] ==> i == j
}

pub open spec fn jemalloc_allocated_name() -> Seq<char> {
    "jemalloc-heap-allocated"@
}

pub open spec fn system_allocated_name() -> Seq<char> {
    "system-heap-allocated"@
}

pub open spec fn jemalloc_unclassified_path() -> Seq<Seq<char>> {
    seq!["explicit"@, "jemalloc-heap-unclassified"@]
}

pub open spec fn system_unclassified_path() -> Seq<Seq<char>> {
    seq!["explicit"@, "system-heap-unclassified"@]
}

/// The size of the unclassified part of a heap, when its total was reported.
pub open spec fn unclassified(rs: Seq<Report>, jemalloc: bool) -> Option<int> {
    let name = if jemalloc {
        jemalloc_allocated_name()
    } else {
        system_allocated_name()
    };
    match heap_allocated(rs, name) {
        Some(a) => Some(a - heap_reported(rs, jemalloc)),
        None => None,
    }
}

pub open spec fn unclassified_or_zero(rs: Seq<Report>, jemalloc: bool) -> int {
    match unclassified(rs, jemalloc) {
        Some(u) => u,
        None => 0,
    }
}

pub open spec fn info_after_maybe_insert(
    i: Option<(int, int)>,
    p: Seq<Seq<char>>,
    path: Seq<Seq<char>>,
    size: Option<int>,
) -> Option<(int, int)> {
    match size {
        Some(s) => info_after_insert(i, p, path, s),
        None => i,
    }
}

/// The forest entry at `p` once all reports are in and the unclassified
/// parts of both heaps are added.
pub open spec fn summary_info(rs: Seq<Report>, p: Seq<Seq<char>>) -> Option<(int, int)> {
    info_after_maybe_insert(
        info_after_maybe_insert(
            reports_info(rs, p),
            p,
            jemalloc_unclassified_path(),
            unclassified(rs, true),
        ),
        p,
        system_unclassified_path(),
        unclassified(rs, false),
    )
}

/// The batch of reports that the summary accepts: every inserted path is
/// non-empty, each heap total is reported at most once and is at least what
/// the explicit reports of that heap add up to, and no size or count
/// overflows.
pub open spec fn reports_summarizable(rs: Seq<Report>) -> bool {
    &&& forall|i: int| 0 <= i < rs.len() ==> report_path(#[trigger] rs[i]).len() >= 1
    &&& heap_unique(rs, jemalloc_allocated_name())
    &&& heap_unique(rs, system_allocated_name())
    &&& unclassified(rs, true) matches Some(u) ==> u >= 0
    &&& unclassified(rs, false) matches Some(u) ==> u >= 0
    &&& sum_sizes(rs) + unclassified_or_zero(rs, true) + unclassified_or_zero(rs, false)
        <= usize::MAX
    &&& rs.len() + 2 <= u32::MAX
}

/// An inserted size and count never exceed the total size and the number of
/// reports inserted so far.
pub proof fn lemma_reports_info_bound(rs: Seq<Report>, p: Seq<Seq<char>>)
    ensures
        size_or_zero(reports_info(rs, p)) <= sum_sizes(rs),
        count_or_zero(reports_info(rs, p)) <= rs.len(),
        size_or_zero(reports_info(rs, p)) >= 0,
        count_or_zero(reports_info(rs, p)) >= 0,
    decreases rs.len(),
{
    if rs.len() > 0 {
        lemma_reports_info_bound(rs.subrange(0, rs.len() - 1), p);
    }
}

pub proof fn lemma_sum_sizes_prefix(rs: Seq<Report>, k: int)
    requires
        0 <= k <= rs.len(),
    ensures
        sum_sizes(rs.subrange(0, k)) <= sum_sizes(rs),
        heap_reported(rs, true) <= sum_sizes(rs),
        heap_reported(rs, false) <= sum_sizes(rs),
    decreases rs.len() - k,
{
    if k < rs.len() {
        lemma_sum_sizes_prefix(rs, k + 1);
        assert(rs.subrange(0, k + 1).subrange(0, k) =~= rs.subrange(0, k));
    } else {
        assert(rs.subrange(0, k) =~= rs);
        lemma_heap_reported_bound(rs);
    }
}

pub proof fn lemma_heap_reported_bound(rs: Seq<Report>)
    ensures
        heap_reported(rs, true) <= sum_sizes(rs),
        heap_reported(rs, false) <= sum_sizes(rs),
    decreases rs.len(),
{
    if rs.len() > 0 {
        lemma_heap_reported_bound(rs.subrange(0, rs.len() - 1));
    }
}

/// The path a report is inserted under: "explicit" first for explicit kinds.
fn inserted_path(r: &Report) -> (path: Vec<String>)
    ensures
        seg_path(path@) == report_path(*r),
{
    let mut path: Vec<String> = Vec::new();
    let explicit = match r.kind {
        ReportKind::NonExplicitSize => false,
        _ => true,
    };
    if explicit {
        path.push(String::from_str("explicit"));
    }
    let ghost start = seg_path(path@);
    let n = r.path.len();
    let mut i: usize = 0;
    proof {
        assert(seg_path(r.path@.subrange(0, 0)) =~= Seq::<Seq<char>>::empty());
        assert(start =~= start + seg_path(r.path@.subrange(0, 0)));
    }
    while i < n
        invariant
            n == r.path@.len(),
            i <= n,
            seg_path(path@) == start + seg_path(r.path@.subrange(0, i as int)),
        decreases n - i,
    {
        let ghost before = path@;
        path.push(r.path[i].clone());
        proof {
            assert(path@ =~= before.push(r.path@[i as int]));
            assert(seg_path(path@) =~= seg_path(before).push(r.path@[i as int]@));
            assert(seg_path(r.path@.subrange(0, i as int + 1)) =~= seg_path(
                r.path@.subrange(0, i as int),
            ).push(r.path@[i as int]@));
            assert(seg_path(path@) =~= start + seg_path(r.path@.subrange(0, i as int + 1)));
        }
        i = i + 1;
    }
    proof {
        assert(r.path@.subrange(0, n as int) =~= r.path@);
        if explicit {
            assert(start =~= seq!["explicit"@]);
        } else {
            assert(start =~= Seq::<Seq<char>>::empty());
        }
        assert(seg_path(path@) =~= report_path(*r));
    }
    path
}

pub proof fn lemma_info_after_insert_bound(
    i: Option<(int, int)>,
    p: Seq<Seq<char>>,
    path: Seq<Seq<char>>,
    s: int,
)
    requires
        s >= 0,
        size_or_zero(i) >= 0,
        count_or_zero(i) >= 0,
    ensures
        size_or_zero(info_after_insert(i, p, path, s)) <= size_or_zero(i) + s,
        count_or_zero(info_after_insert(i, p, path, s)) <= count_or_zero(i) + 1,
        size_or_zero(info_after_insert(i, p, path, s)) >= 0,
        count_or_zero(info_after_insert(i, p, path, s)) >= 0,
{
}

/// Whether a batch of reports can be summarized (see
/// [`reports_summarizable`]), as [`summarize_reports`] requires.
pub fn summarizable(reports: &Vec<Report>) -> (b: bool)
    ensures
        b == reports_summarizable(reports@),
{
    let ghost rs = reports@;
    let n = reports.len();
    let mut i: usize = 0;
    let mut total: usize = 0;
    let mut jemalloc_reported: usize = 0;
    let mut system_reported: usize = 0;
    let mut jemalloc_allocated: Option<usize> = None;
    let mut system_allocated: Option<usize> = None;
    let ghost mut jemalloc_at: int = 0;
    let ghost mut system_at: int = 0;
    let jemalloc_name = String::from_str("jemalloc-heap-allocated");
    let system_name = String::from_str("system-heap-allocated");
    proof {
        reveal_strlit("jemalloc-heap-allocated");
        reveal_strlit("system-heap-allocated");
        assert(jemalloc_allocated_name().len() != system_allocated_name().len());
        assert(rs.subrange(0, 0) =~= Seq::<Report>::empty());
    }
    while i < n
        invariant
            rs == reports@,
            n == rs.len(),
            i <= n,
            jemalloc_name@ == jemalloc_allocated_name(),
            system_name@ == system_allocated_name(),
            jemalloc_allocated_name() != system_allocated_name(),
            forall|k: int| 0 <= k < i ==> report_path(#[trigger] rs[k]).len() >= 1,
            heap_unique(rs.subrange(0, i as int), jemalloc_allocated_name()),
            heap_unique(rs.subrange(0, i as int), system_allocated_name()),
            total == sum_sizes(rs.subrange(0, i as int)),
            jemalloc_reported == heap_reported(rs.subrange(0, i as int), true),
            system_reported == heap_reported(rs.subrange(0, i as int), false),
            match jemalloc_allocated {
                Some(a) => heap_allocated(rs.subrange(0, i as int), jemalloc_allocated_name())
                    == Some(a as nat) && 0 <= jemalloc_at < i && report_path(rs[jemalloc_at])
                    == seq![jemalloc_allocated_name()],
                None => heap_allocated(rs.subrange(0, i as int), jemalloc_allocated_name()) is None
                    && forall|k: int| 0 <= k < i ==> report_path(#[trigger] rs[k]) != seq![
                    jemalloc_allocated_name(),
                ],
            },
            match system_allocated {
                Some(a) => heap_allocated(rs.subrange(0, i as int), system_allocated_name())
                    == Some(a as nat) && 0 <= system_at < i && report_path(rs[system_at])
                    == seq![system_allocated_name()],
                None => heap_allocated(rs.subrange(0, i as int), system_allocated_name()) is None
                    && forall|k: int| 0 <= k < i ==> report_path(#[trigger] rs[k]) != seq![
                    system_allocated_name(),
                ],
            },
        decreases n - i,
    {
        let r = &reports[i];
        let ghost pre = rs.subrange(0, i as int);
        let ghost post = rs.subrange(0, i as int + 1);
        proof {
            assert(post.subrange(0, i as int) =~= pre);
            assert(post[i as int] == *r);
            lemma_heap_reported_bound(post);
            lemma_sum_sizes_prefix(rs, i as int + 1);
        }
        let path = inserted_path(r);
        if path.len() == 0 {
            return false;
        }
        proof {
            assert(seg_path(path@)[0] == path@[0]@);
            if path@.len() == 1 {
                assert(report_path(*r) =~= seq![path@[0]@]);
            }
        }
        let is_jemalloc = path.len() == 1 && path[0] == jemalloc_name;
        let is_system = path.len() == 1 && path[0] == system_name;
        if is_jemalloc {
            if jemalloc_allocated.is_some() {
                return false;
            }
            jemalloc_allocated = Some(r.size);
            proof {
                jemalloc_at = i as int;
            }
        }
        if is_system {
            if system_allocated.is_some() {
                return false;
            }
            system_allocated = Some(r.size);
            proof {
                system_at = i as int;
            }
        }
        proof {
            if report_path(*r) == seq![jemalloc_allocated_name()] {
                assert(path@.len() == 1);
            }
            if report_path(*r) == seq![system_allocated_name()] {
                assert(path@.len() == 1);
            }
        }
        match total.checked_add(r.size) {
            Some(t) => {
                total = t;
            },
            None => {
                return false;
            },
        }
        match r.kind {
            ReportKind::ExplicitJemallocHeapSize => {
                jemalloc_reported = jemalloc_reported + r.size;
            },
            ReportKind::ExplicitSystemHeapSize => {
                system_reported = system_reported + r.size;
            },
            _ => {},
        }
        i = i + 1;
    }
    proof {
        assert(rs.subrange(0, n as int) =~= rs);
        lemma_heap_reported_bound(rs);
    }
    let mut extra: usize = 0;
    match jemalloc_allocated {
        Some(a) => {
            if a < jemalloc_reported {
                return false;
            }
            extra = a - jemalloc_reported;
        },
        None => {},
    }
    match system_allocated {
        Some(a) => {
            if a < system_reported {
                return false;
            }
            match extra.checked_add(a - system_reported) {
                Some(e) => {
                    extra = e;
                },
                None => {
                    return false;
                },
            }
        },
        None => {},
    }
    let fits = match total.checked_add(extra) {
        Some(_) => true,
        None => false,
    };
    fits && n <= 4294967293
}

/// Turns a batch of reports into the forest that summarizes them: explicit
/// reports go below "explicit", and for each heap whose total was reported
/// (as "jemalloc-heap-allocated" or "system-heap-allocated") the part no
/// explicit report accounts for is added as "explicit/...-heap-unclassified".
pub fn summarize_reports(reports: &Vec<Report>) -> (forest: ReportsForest)
    requires
        reports_summarizable(reports@),
    ensures
        forest_wf(forest),
        forall|p: Seq<Seq<char>>|
            p.len() > 0 ==> #[trigger] forest_info(forest, p) == summary_info(reports@, p),
{
    let ghost rs = reports@;
    let mut forest = ReportsForest::new();
    let mut jemalloc_reported: usize = 0;
    let mut system_reported: usize = 0;
    let mut jemalloc_allocated: Option<usize> = None;
    let mut system_allocated: Option<usize> = None;
    let jemalloc_name = String::from_str("jemalloc-heap-allocated");
    let system_name = String::from_str("system-heap-allocated");
    let n = reports.len();
    let mut i: usize = 0;
    proof {
        assert(rs.subrange(0, 0) =~= Seq::<Report>::empty());
        reveal_strlit("jemalloc-heap-allocated");
        reveal_strlit("system-heap-allocated");
        assert(jemalloc_allocated_name().len() != system_allocated_name().len());
    }
    while i < n
        invariant
            rs == reports@,
            n == rs.len(),
            i <= n,
            reports_summarizable(rs),
            jemalloc_name@ == jemalloc_allocated_name(),
            system_name@ == system_allocated_name(),
            jemalloc_allocated_name() != system_allocated_name(),
            forest_wf(forest),
            forall|p: Seq<Seq<char>>|
                p.len() > 0 ==> #[trigger] forest_info(forest, p) == reports_info(
                    rs.subrange(0, i as int),
                    p,
                ),
            jemalloc_reported == heap_reported(rs.subrange(0, i as int), true),
            system_reported == heap_reported(rs.subrange(0, i as int), false),
            match jemalloc_allocated {
                Some(a) => heap_allocated(rs.subrange(0, i as int), jemalloc_allocated_name())
                    == Some(a as nat),
                None => heap_allocated(rs.subrange(0, i as int), jemalloc_allocated_name()) is None,
            },
            match system_allocated {
                Some(a) => heap_allocated(rs.subrange(0, i as int), system_allocated_name())
                    == Some(a as nat),
                None => heap_allocated(rs.subrange(0, i as int), system_allocated_name()) is None,
            },
        decreases n - i,
    {
        let r = &reports[i];
        let ghost pre = rs.subrange(0, i as int);
        let ghost post = rs.subrange(0, i as int + 1);
        proof {
            assert(post.subrange(0, i as int) =~= pre);
            assert(post[i as int] == *r);
            lemma_sum_sizes_prefix(rs, i as int + 1);
            lemma_heap_reported_bound(post);
            lemma_reports_info_bound(pre, report_path(*r));
            assert(report_path(rs[i as int]).len() >= 1);
        }
        let path = inserted_path(r);
        match r.kind {
            ReportKind::ExplicitJemallocHeapSize => {
                jemalloc_reported = jemalloc_reported + r.size;
            },
            ReportKind::ExplicitSystemHeapSize => {
                system_reported = system_reported + r.size;
            },
            _ => {},
        }
        if path.len() == 1 {
            if path[0] == jemalloc_name {
                jemalloc_allocated = Some(r.size);
            } else if path[0] == system_name {
                system_allocated = Some(r.size);
            }
        }
        proof {
            assert(seg_path(path@)[0] == path@[0]@);
            if path@.len() == 1 {
                assert(report_path(*r) =~= seq![path@[0]@]);
            }
            if report_path(*r) == seq![jemalloc_allocated_name()] {
                assert(path@.len() == 1);
            }
            if report_path(*r) == seq![system_allocated_name()] {
                assert(path@.len() == 1);
            }
        }
        forest.insert(&path, r.size);
        proof {
            assert forall|p: Seq<Seq<char>>|
                p.len() > 0 implies #[trigger] forest_info(forest, p) == reports_info(post, p) by {
                assert(reports_info(post, p) == info_after_insert(
                    reports_info(pre, p),
                    p,
                    report_path(*r),
                    r.size as int,
                ));
            }
        }
        i = i + 1;
    }
    proof {
        assert(rs.subrange(0, n as int) =~= rs);
        lemma_heap_reported_bound(rs);
    }
    let ghost after_reports = forest;
    if let Some(allocated) = jemalloc_allocated {
        let mut path: Vec<String> = Vec::new();
        path.push(String::from_str("explicit"));
        path.push(String::from_str("jemalloc-heap-unclassified"));
        proof {
            assert(seg_path(path@) =~= jemalloc_unclassified_path());
            lemma_reports_info_bound(rs, jemalloc_unclassified_path());
        }
        forest.insert(&path, allocated - jemalloc_reported);
    }
    let ghost after_jemalloc = forest;
    proof {
        assert forall|p: Seq<Seq<char>>|
            p.len() > 0 implies #[trigger] forest_info(forest, p) == info_after_maybe_insert(
                reports_info(rs, p),
                p,
                jemalloc_unclassified_path(),
                unclassified(rs, true),
            ) by {
            assert(forest_info(after_reports, p) == reports_info(rs, p));
        }
    }
    if let Some(allocated) = system_allocated {
        let mut path: Vec<String> = Vec::new();
        path.push(String::from_str("explicit"));
        path.push(String::from_str("system-heap-unclassified"));
        proof {
            let sp = system_unclassified_path();
            assert(seg_path(path@) =~= sp);
            lemma_reports_info_bound(rs, sp);
            let i0 = reports_info(rs, sp);
            assert(forest_info(after_jemalloc, sp) == info_after_maybe_insert(
                i0,
                sp,
                jemalloc_unclassified_path(),
                unclassified(rs, true),
            ));
            if unclassified(rs, true) is Some {
                lemma_info_after_insert_bound(
                    i0,
                    sp,
                    jemalloc_unclassified_path(),
                    unclassified_or_zero(rs, true),
                );
            }
        }
        forest.insert(&path, allocated - system_reported);
    }
    proof {
        assert forall|p: Seq<Seq<char>>|
            p.len() > 0 implies #[trigger] forest_info(forest, p) == summary_info(rs, p) by {
            assert(forest_info(after_jemalloc, p) == info_after_maybe_insert(
                reports_info(rs, p),
                p,
                jemalloc_unclassified_path(),
                unclassified(rs, true),
            ));
        }
    }
    forest
}

/// The memory reports a reporter sent back, for the process `pid`.
pub struct ReportsResponse {
    pub pid: u32,
    pub reports: Vec<Report>,
}

/// All reports of one process, with a hint telling the main process apart.
pub struct MemoryReport {
    pub pid: u32,
    pub reports: Vec<Report>,
    pub is_main_process: bool,
}

/// The reports of the responses for `pid`, concatenated in response order.
pub open spec fn reports_for_pid(rs: Seq<ReportsResponse>, pid: u32) -> Seq<Report>
    decreases rs.len(),
{
    if rs.len() == 0 {
        Seq::empty()
    } else {
        let last = rs[rs.len() - 1];
        reports_for_pid(rs.subrange(0, rs.len() - 1), pid) + if last.pid == pid {
            last.reports@
        } else {
            Seq::empty()
        }
    }
}

pub open spec fn has_pid(rs: Seq<ReportsResponse>, pid: u32) -> bool {
    exists|i: int| 0 <= i < rs.len() && #[trigger] rs[i].pid == pid
}

/// Groups the reporters' responses by process: one entry per process that
/// answered, holding all of that process's reports in order, and flagged as
/// the main process when its pid is `main_pid`.
pub fn group_reports_by_pid(responses: Vec<ReportsResponse>, main_pid: u32) -> (res: Vec<
    MemoryReport,
>)
    ensures
        forall|i: int, j: int|
            0 <= i < j < res@.len() ==> #[trigger] res@[i].pid != #[trigger] res@[j].pid,
        forall|i: int|
            0 <= i < res@.len() ==> has_pid(responses@, #[trigger] res@[i].pid) && res@[i].reports@
                == reports_for_pid(responses@, res@[i].pid) && res@[i].is_main_process == (
            res@[i].pid == main_pid),
        forall|pid: u32|
            #[trigger] has_pid(responses@, pid) ==> exists|i: int|
                0 <= i < res@.len() && res@[i].pid == pid,
{
    let ghost rs = responses@;
    let mut responses = responses;
    let mut res: Vec<MemoryReport> = Vec::new();
    let n = responses.len();
    let mut k: usize = 0;
    while k < n
        invariant
            n == rs.len(),
            k <= n,
            responses@ =~= rs.subrange(k as int, n as int),
            forall|i: int, j: int|
                0 <= i < j < res@.len() ==> #[trigger] res@[i].pid != #[trigger] res@[j].pid,
            forall|i: int|
                0 <= i < res@.len() ==> has_pid(rs.subrange(0, k as int), #[trigger] res@[i].pid)
                    && res@[i].reports@ == reports_for_pid(rs.subrange(0, k as int), res@[i].pid)
                    && res@[i].is_main_process == (res@[i].pid == main_pid),
            forall|pid: u32|
                #[trigger] has_pid(rs.subrange(0, k as int), pid) ==> exists|i: int|
                    0 <= i < res@.len() && res@[i].pid == pid,
        decreases n - k,
    {
        let mut response = responses.remove(0);
        let ghost pre = rs.subrange(0, k as int);
        let ghost post = rs.subrange(0, k as int + 1);
        let ghost old_res = res@;
        proof {
            assert(response == rs[k as int]);
            assert(post.subrange(0, k as int) =~= pre);
            assert(post[k as int] == response);
        }
        let m = res.len();
        let found = find_pid(&res, response.pid);
        let j = match found {
            Some(j) => j,
            None => m,
        };
        if j < m {
            let mut entry = res.remove(j);
            entry.reports.append(&mut response.reports);
            res.insert(j, entry);
        } else {
            let pid = response.pid;
            res.push(MemoryReport {
                pid,
                reports: response.reports,
                is_main_process: pid == main_pid,
            });
        }
        proof {
            assert forall|pid: u32| #[trigger] reports_for_pid(post, pid) == reports_for_pid(pre, pid)
                + (if rs[k as int].pid == pid { rs[k as int].reports@ } else { Seq::empty() }) by {
            }
            assert forall|pid: u32| #[trigger] has_pid(post, pid) <==> has_pid(pre, pid) || pid
                == rs[k as int].pid by {
                if has_pid(pre, pid) {
                    let a = choose|a: int| 0 <= a < pre.len() && #[trigger] pre[a].pid == pid;
                    assert(post[a] == pre[a]);
                }
                if has_pid(post, pid) && pid != rs[k as int].pid {
                    let a = choose|a: int| 0 <= a < post.len() && #[trigger] post[a].pid == pid;
                    assert(pre[a] == post[a]);
                }
                if pid == rs[k as int].pid {
                    assert(post[k as int].pid == pid);
                }
            }
            if j < m {
                assert(res@.len() == old_res.len());
                assert(old_res[j as int].pid == rs[k as int].pid);
                assert forall|i: int| 0 <= i < res@.len() && i != j implies #[trigger] res@[i]
                    == old_res[i] by {}
                assert(res@[j as int].pid == old_res[j as int].pid);
                assert(res@[j as int].reports@ == old_res[j as int].reports@ + rs[k as int].reports@);
                assert(res@[j as int].is_main_process == old_res[j as int].is_main_process);
                assert forall|a: int, b: int|
                    0 <= a < b < res@.len() implies #[trigger] res@[a].pid != #[trigger] res@[b].pid by {
                    assert(res@[a].pid == old_res[a].pid);
                    assert(res@[b].pid == old_res[b].pid);
                }
                assert forall|i: int|
                    0 <= i < res@.len() implies has_pid(post, #[trigger] res@[i].pid)
                        && res@[i].reports@ == reports_for_pid(post, res@[i].pid)
                        && res@[i].is_main_process == (res@[i].pid == main_pid) by {
                    if i != j {
                        assert(old_res[i].pid != rs[k as int].pid);
                        assert(reports_for_pid(post, res@[i].pid) =~= reports_for_pid(pre, res@[i].pid));
                    } else {
                        assert(reports_for_pid(post, res@[i].pid) =~= reports_for_pid(pre, res@[i].pid) + rs[k as int].reports@);
                    }
                }
            } else {
                assert(forall|i: int| 0 <= i < old_res.len() ==> old_res[i].pid != rs[k as int].pid);
                assert(res@[m as int].pid == rs[k as int].pid);
                assert(!has_pid(pre, rs[k as int].pid)) by {
                    if has_pid(pre, rs[k as int].pid) {
                        let e = choose|e: int| 0 <= e < old_res.len() && old_res[e].pid == rs[k as int].pid;
                    }
                }
                assert(reports_for_pid(pre, rs[k as int].pid) =~= Seq::<Report>::empty()) by {
                    lemma_reports_for_absent_pid(pre, rs[k as int].pid);
                }
                assert forall|i: int|
                    0 <= i < res@.len() implies has_pid(post, #[trigger] res@[i].pid)
                        && res@[i].reports@ == reports_for_pid(post, res@[i].pid)
                        && res@[i].is_main_process == (res@[i].pid == main_pid) by {
                    if i < m {
                        assert(res@[i] == old_res[i]);
                        assert(reports_for_pid(post, res@[i].pid) =~= reports_for_pid(pre, res@[i].pid));
                    } else {
                        assert(reports_for_pid(post, res@[i].pid) =~= reports_for_pid(pre, res@[i].pid) + rs[k as int].reports@);
                    }
                }
            }
            assert(res@[j as int].pid == rs[k as int].pid);
            assert forall|pid: u32| #[trigger] has_pid(post, pid) implies exists|i: int|
                0 <= i < res@.len() && res@[i].pid == pid by {
                if pid != rs[k as int].pid {
                    assert(has_pid(pre, pid));
                    let e = choose|e: int| 0 <= e < old_res.len() && old_res[e].pid == pid;
                    assert(res@[e].pid == old_res[e].pid);
                }
            }
            assert(responses@ =~= rs.subrange(k as int + 1, n as int));
        }
        k = k + 1;
    }
    proof {
        assert(rs.subrange(0, n as int) =~= rs);
    }
    res
}

fn find_pid(res: &Vec<MemoryReport>, pid: u32) -> (r: Option<usize>)
    ensures
        match r {
            Some(j) => j < res@.len() && res@[j as int].pid == pid,
            None => forall|i: int| 0 <= i < res@.len() ==> res@[i].pid != pid,
        },
{
    let m = res.len();
    let mut j: usize = 0;
    while j < m
        invariant
            m == res@.len(),
            j <= m,
            forall|i: int| 0 <= i < j ==> res@[i].pid != pid,
        decreases m - j,
    {
        if res[j].pid == pid {
            return Some(j);
        }
        j = j + 1;
    }
    None
}

pub proof fn lemma_reports_for_absent_pid(rs: Seq<ReportsResponse>, pid: u32)
    requires
        !has_pid(rs, pid),
    ensures
        reports_for_pid(rs, pid) == Seq::<Report>::empty(),
    decreases rs.len(),
{
    if rs.len() > 0 {
        let init = rs.subrange(0, rs.len() - 1);
        assert(!has_pid(init, pid)) by {
            if has_pid(init, pid) {
                let a = choose|a: int| 0 <= a < init.len() && #[trigger] init[a].pid == pid;
                assert(rs[a] == init[a]);
            }
        }
        lemma_reports_for_absent_pid(init, pid);
        assert(rs[rs.len() - 1].pid != pid);
        assert(reports_for_pid(rs, pid) =~= Seq::<Report>::empty());
    }
}

/// The registered memory reporters, by name (no name twice).
pub struct ReporterRegistry<R> {
    entries: Vec<(String, R)>,
}

pub open spec fn names_of<R>(s: Seq<(String, R)>) -> Seq<Seq<char>> {
    s.map_values(|e: (String, R)| e.0@)
}

impl<R> ReporterRegistry<R> {
    /// The names of the registered reporters, in registration order.
    pub closed spec fn names(&self) -> Seq<Seq<char>> {
        names_of(self.entries@)
    }

    /// The reporter registered under `name`.
    pub closed spec fn reporter(&self, name: Seq<char>) -> R {
        self.entries@[names_of(self.entries@).index_of(name)].1
    }

    pub closed spec fn wf(&self) -> bool {
        names_of(self.entries@).no_duplicates()
    }

    pub fn new() -> (r: Self)
        ensures
            r.wf(),
            r.names() == Seq::<Seq<char>>::empty(),
    {
        let r = ReporterRegistry { entries: Vec::new() };
        assert(r.names() =~= Seq::<Seq<char>>::empty());
        r
    }

    pub fn len(&self) -> (n: usize)
        ensures
            n == self.names().len(),
    {
        self.entries.len()
    }

    /// The registered reporters with their names, in registration order.
    pub fn reporters(&self) -> (e: &Vec<(String, R)>)
        requires
            self.wf(),
        ensures
            names_of(e@) == self.names(),
            forall|i: int| 0 <= i < e@.len() ==> #[trigger] e@[i].1 == self.reporter(e@[i].0@),
    {
        proof {
            let ns = names_of(self.entries@);
            assert forall|i: int| 0 <= i < self.entries@.len() implies #[trigger] self.entries@[i].1
                == self.reporter(self.entries@[i].0@) by {
                assert(ns[i] == self.entries@[i].0@);
                assert(ns.contains(ns[i]));
                assert(ns.index_of(ns[i]) == i) by {
                    let k = ns.index_of(ns[i]);
                    assert(ns[k] == ns[i]);
                }
            }
        }
        &self.entries
    }

    fn position(&self, name: &String) -> (r: Option<usize>)
        ensures
            match r {
                Some(i) => i < self.entries@.len() && self.entries@[i as int].0@ == name@,
                None => !self.names().contains(name@),
            },
    {
        let n = self.entries.len();
        let mut i: usize = 0;
        while i < n
            invariant
                n == self.entries@.len(),
                i <= n,
                forall|j: int| 0 <= j < i ==> self.entries@[j].0@ != name@,
            decreases n - i,
        {
            if self.entries[i].0 == *name {
                return Some(i);
            }
            i = i + 1;
        }
        proof {
            if self.names().contains(name@) {
                let j = choose|j: int| 0 <= j < n && self.names()[j] == name@;
                assert(self.entries@[j].0@ == name@);
            }
        }
        None
    }

    /// Whether a reporter is registered under `name`.
    pub fn contains(&self, name: &String) -> (b: bool)
        ensures
            b == self.names().contains(name@),
    {
        match self.position(name) {
            Some(i) => {
                assert(self.names()[i as int] == name@);
                true
            },
            None => false,
        }
    }

    /// Registers `reporter` under a name that is not in use yet.
    pub fn register(&mut self, name: String, reporter: R)
        requires
            old(self).wf(),
            !old(self).names().contains(name@),
        ensures
            final(self).wf(),
            final(self).names() == old(self).names().push(name@),
            final(self).reporter(name@) == reporter,
            forall|m: Seq<char>|
                #[trigger] old(self).names().contains(m) ==> final(self).reporter(m) == old(
                    self,
                ).reporter(m),
    {
        let ghost old_names = self.names();
        let ghost nm = name@;
        self.entries.push((name, reporter));
        proof {
            assert(self.names() =~= old_names.push(nm));
            let ns = self.names();
            assert(ns.no_duplicates()) by {
                assert forall|a: int, b: int|
                    0 <= a < ns.len() && 0 <= b < ns.len() && a != b implies ns[a] != ns[b] by {
                    if a == ns.len() - 1 {
                        assert(old_names.contains(ns[b]) || b == a);
                    } else if b == ns.len() - 1 {
                        assert(old_names[a] == ns[a]);
                    } else {
                        assert(old_names[a] == ns[a] && old_names[b] == ns[b]);
                    }
                }
            }
            assert(ns[ns.len() - 1] == nm);
            assert(ns.contains(nm));
            assert(ns.index_of(nm) == ns.len() - 1) by {
                let k = ns.index_of(nm);
                assert(ns[k] == nm);
            }
            assert forall|m: Seq<char>|
                #[trigger] old(self).names().contains(m) implies self.reporter(m) == old(
                    self,
                ).reporter(m) by {
                let k = old_names.index_of(m);
                assert(old_names[k] == m);
                assert(ns[k] == m);
                assert(ns.index_of(m) == k) by {
                    let k2 = ns.index_of(m);
                    assert(ns[k2] == m);
                }
            }
        }
    }

    /// Removes the reporter registered under `name` (which must be in use)
    /// and returns it.
    pub fn unregister(&mut self, name: &String) -> (r: R)
        requires
            old(self).wf(),
            old(self).names().contains(name@),
        ensures
            final(self).wf(),
            r == old(self).reporter(name@),
            final(self).names() == old(self).names().remove(old(self).names().index_of(name@)),
            forall|m: Seq<char>|
                #[trigger] final(self).names().contains(m) ==> final(self).reporter(m) == old(
                    self,
                ).reporter(m),
    {
        let ghost old_names = self.names();
        let i = self.position(name).unwrap();
        proof {
            let k = old_names.index_of(name@);
            assert(old_names[k] == name@);
            assert(old_names[i as int] == name@);
        }
        let (_, r) = self.entries.remove(i);
        proof {
            let ns = self.names();
            assert(ns =~= old_names.remove(i as int));
            assert forall|m: Seq<char>|
                #[trigger] ns.contains(m) implies self.reporter(m) == old(self).reporter(m) by {
                let k = ns.index_of(m);
                assert(ns[k] == m);
                let ko = if k < i {
                    k
                } else {
                    k + 1
                };
                assert(old_names[ko] == m);
                assert(old_names.index_of(m) == ko) by {
                    let k2 = old_names.index_of(m);
                    assert(old_names[k2] == m);
                }
            }
            assert(ns.no_duplicates()) by {
                assert forall|a: int, b: int|
                    0 <= a < ns.len() && 0 <= b < ns.len() && a != b implies ns[a] != ns[b] by {
                    let ao = if a < i { a } else { a + 1 };
                    let bo = if b < i { b } else { b + 1 };
                    assert(ns[a] == old_names[ao]);
                    assert(ns[b] == old_names[bo]);
                }
            }
        }
        r
    }
}

/// A message to the memory profiler.
pub enum ProfilerMsg<R, S> {
    /// Register a reporter under a name that must not be in use.
    RegisterReporter(String, R),
    /// Unregister the reporter registered under a name that must be in use.
    UnregisterReporter(String),
    /// Collect the reports of every reporter and send them back on the channel.
    Report(S),
    /// Collect the reports of every reporter and print them.
    Print,
    /// Stop the profiler.
    Exit,
}

/// What the profiler does after handling a message.
pub enum ProfilerAction<S> {
    /// Keep waiting for messages.
    Continue,
    /// Collect the reports and send them on the channel, then notify the timer.
    SendReports(S),
    /// Collect the reports and print them, then notify the timer.
    PrintReports,
    /// Stop.
    Exit,
}

/// Handles one message: registrations change the registry; reports and
/// printing are handed back as actions; `Exit` stops the profiler.
pub fn handle_msg<R, S>(registry: &mut ReporterRegistry<R>, msg: ProfilerMsg<R, S>) -> (act:
    ProfilerAction<S>)
    requires
        old(registry).wf(),
        msg matches ProfilerMsg::RegisterReporter(name, _) ==> !old(registry).names().contains(
            name@,
        ),
        msg matches ProfilerMsg::UnregisterReporter(name) ==> old(registry).names().contains(
            name@,
        ),
    ensures
        final(registry).wf(),
        match msg {
            ProfilerMsg::RegisterReporter(name, r) => {
                &&& final(registry).names() == old(registry).names().push(name@)
                &&& final(registry).reporter(name@) == r
                &&& forall|m: Seq<char>|
                    #[trigger] old(registry).names().contains(m) ==> final(registry).reporter(m)
                        == old(registry).reporter(m)
                &&& act is Continue
            },
            ProfilerMsg::UnregisterReporter(name) => {
                &&& final(registry).names() == old(registry).names().remove(
                    old(registry).names().index_of(name@),
                )
                &&& forall|m: Seq<char>|
                    #[trigger] final(registry).names().contains(m) ==> final(registry).reporter(m)
                        == old(registry).reporter(m)
                &&& act is Continue
            },
            ProfilerMsg::Report(s) => *final(registry) == *old(registry) && act
                == ProfilerAction::SendReports(s),
            ProfilerMsg::Print => *final(registry) == *old(registry) && act is PrintReports,
            ProfilerMsg::Exit => *final(registry) == *old(registry) && act is Exit,
        },
{
    match msg {
        ProfilerMsg::RegisterReporter(name, reporter) => {
            registry.register(name, reporter);
            ProfilerAction::Continue
        },
        ProfilerMsg::UnregisterReporter(name) => {
            let _ = registry.unregister(&name);
            ProfilerAction::Continue
        },
        ProfilerMsg::Report(sender) => ProfilerAction::SendReports(sender),
        ProfilerMsg::Print => ProfilerAction::PrintReports,
        ProfilerMsg::Exit => ProfilerAction::Exit,
    }
}

/// Registering a reporter under a new name and then unregistering that name
/// gives back the registry's names and each of their reporters.
pub proof fn lemma_register_then_unregister<R>(
    r0: ReporterRegistry<R>,
    r1: ReporterRegistry<R>,
    r2: ReporterRegistry<R>,
    name: Seq<char>,
    reporter: R,
)
    requires
        !r0.names().contains(name),
        r1.names() == r0.names().push(name),
        r1.reporter(name) == reporter,
        forall|m: Seq<char>| #[trigger] r0.names().contains(m) ==> r1.reporter(m) == r0.reporter(m),
        r2.names() == r1.names().remove(r1.names().index_of(name)),
        forall|m: Seq<char>| #[trigger] r2.names().contains(m) ==> r2.reporter(m) == r1.reporter(m),
    ensures
        r2.names() == r0.names(),
        forall|m: Seq<char>| #[trigger] r2.names().contains(m) ==> r2.reporter(m) == r0.reporter(m),
{
    let n = r0.names().len() as int;
    assert(r1.names()[n] == name);
    assert(r1.names().index_of(name) == n) by {
        let k = r1.names().index_of(name);
        assert(r1.names().contains(name));
        assert(r1.names()[k] == name);
        if k < n {
            assert(r0.names()[k] == name);
            assert(r0.names().contains(name));
        }
    }
    assert(r2.names() =~= r0.names());
}

/// The reports WebRender makes of its own memory: fonts, images and display
/// lists, each on the jemalloc heap below "webrender".
pub fn webrender_memory_reports(fonts: usize, images: usize, display_list: usize) -> (v: Vec<Report>)
    ensures
        v@.len() == 3,
        report_path(v@[0]) == seq!["explicit"@, "webrender"@, "fonts"@],
        report_path(v@[1]) == seq!["explicit"@, "webrender"@, "images"@],
        report_path(v@[2]) == seq!["explicit"@, "webrender"@, "display-list"@],
        v@[0].kind is ExplicitJemallocHeapSize && v@[0].size == fonts,
        v@[1].kind is ExplicitJemallocHeapSize && v@[1].size == images,
        v@[2].kind is ExplicitJemallocHeapSize && v@[2].size == display_list,
{
    let mut v: Vec<Report> = Vec::new();
    let mut p0: Vec<String> = Vec::new();
    p0.push(String::from_str("webrender"));
    p0.push(String::from_str("fonts"));
    let mut p1: Vec<String> = Vec::new();
    p1.push(String::from_str("webrender"));
    p1.push(String::from_str("images"));
    let mut p2: Vec<String> = Vec::new();
    p2.push(String::from_str("webrender"));
    p2.push(String::from_str("display-list"));
    v.push(Report { path: p0, kind: ReportKind::ExplicitJemallocHeapSize, size: fonts });
    v.push(Report { path: p1, kind: ReportKind::ExplicitJemallocHeapSize, size: images });
    v.push(Report { path: p2, kind: ReportKind::ExplicitJemallocHeapSize, size: display_list });
    proof {
        assert(report_path(v@[0]) =~= seq!["explicit"@, "webrender"@, "fonts"@]);
        assert(report_path(v@[1]) =~= seq!["explicit"@, "webrender"@, "images"@]);
        assert(report_path(v@[2]) =~= seq!["explicit"@, "webrender"@, "display-list"@]);
    }
    v
}

} // verus!
