//! Frames: a tree of active frames, each with its browsing context, and a
//! flat cache of inactive frames that can be found again by pipeline.
use vstd::prelude::*;

verus! {

/// Identifies a pipeline (the document loaded in a browsing context).
#[derive(Clone, Copy, PartialEq, Eq, Structural, Debug)]
pub struct PipelineId(pub u32);

/// Identifies a subpage (an iframe) of a pipeline.
#[derive(Clone, Copy, PartialEq, Eq, Structural, Debug)]
pub struct SubpageId(pub u32);

/// A frame in the frame tree: the active pipeline and subpage of its
/// browsing context, the context itself, and the child frames.
pub struct Frame<C> {
    pub pipeline: PipelineId,
    pub subpage: Option<SubpageId>,
    pub context: C,
    pub children: Vec<Frame<C>>,
}

/// The abstract shape of a frame.
pub struct FrameView<C> {
    pub pipeline: PipelineId,
    pub subpage: Option<SubpageId>,
    pub context: C,
    pub children: Seq<FrameView<C>>,
}

pub open spec fn frame_view<C>(f: Frame<C>) -> FrameView<C>
    decreases f,
{
    FrameView {
        pipeline: f.pipeline,
        subpage: f.subpage,
        context: f.context,
        children: frames_view(f.children@),
    }
}

pub open spec fn frames_view<C>(s: Seq<Frame<C>>) -> Seq<FrameView<C>>
    decreases s,
{
    if s.len() == 0 {
        Seq::empty()
    } else {
        frames_view(s.subrange(0, s.len() - 1)).push(frame_view(s[s.len() - 1]))
    }
}

pub proof fn lemma_frames_view<C>(s: Seq<Frame<C>>)
    ensures
        frames_view(s).len() == s.len(),
        forall|i: int| 0 <= i < s.len() ==> #[trigger] frames_view(s)[i] == frame_view(s[i]),
    decreases s.len(),
{
    if s.len() > 0 {
        lemma_frames_view(s.subrange(0, s.len() - 1));
        assert forall|i: int| 0 <= i < s.len() implies #[trigger] frames_view(s)[i] == frame_view(
            s[i],
        ) by {
            if i < s.len() - 1 {
                assert(s.subrange(0, s.len() - 1)[i] == s[i]);
            }
        }
    }
}

pub proof fn lemma_frames_view_ext<C>(s: Seq<Frame<C>>, v: Seq<FrameView<C>>)
    requires
        v.len() == s.len(),
        forall|i: int| 0 <= i < s.len() ==> #[trigger] v[i] == frame_view(s[i]),
    ensures
        frames_view(s) == v,
{
    lemma_frames_view(s);
    assert(frames_view(s) =~= v);
}

/// The first frame, in preorder, whose pipeline is `id`.
pub open spec fn find_frame<C>(f: FrameView<C>, id: PipelineId) -> Option<FrameView<C>>
    decreases f,
{
    if f.pipeline == id {
        Some(f)
    } else {
        find_in_frames(f.children, id)
    }
}

pub open spec fn find_in_frames<C>(s: Seq<FrameView<C>>, id: PipelineId) -> Option<
    FrameView<C>,
>
    decreases s,
{
    if s.len() == 0 {
        None
    } else {
        match find_frame(s[0], id) {
            Some(x) => Some(x),
            None => find_in_frames(s.drop_first(), id),
        }
    }
}

/// The child of the first frame (in preorder) whose pipeline is `id` that
/// shows subpage `sub`; the search stops at that frame.
pub open spec fn find_subframe<C>(f: FrameView<C>, id: PipelineId, sub: SubpageId) -> Option<
    FrameView<C>,
>
    decreases f,
{
    if f.pipeline == id {
        first_with_subpage(f.children, sub)
    } else {
        find_subframe_in(f.children, id, sub)
    }
}

pub open spec fn find_subframe_in<C>(s: Seq<FrameView<C>>, id: PipelineId, sub: SubpageId) -> Option<
    FrameView<C>,
>
    decreases s,
{
    if s.len() == 0 {
        None
    } else {
        match find_subframe(s[0], id, sub) {
            Some(x) => Some(x),
            None => find_subframe_in(s.drop_first(), id, sub),
        }
    }
}

pub open spec fn first_with_subpage<C>(s: Seq<FrameView<C>>, sub: SubpageId) -> Option<
    FrameView<C>,
>
    decreases s.len(),
{
    if s.len() == 0 {
        None
    } else if s[0].subpage == Some(sub) {
        Some(s[0])
    } else {
        first_with_subpage(s.drop_first(), sub)
    }
}

/// The pipelines of a frame and all its descendants, in preorder.
pub open spec fn pipelines<C>(f: FrameView<C>) -> Seq<PipelineId>
    decreases f,
{
    seq![f.pipeline] + pipelines_in(f.children)
}

pub open spec fn pipelines_in<C>(s: Seq<FrameView<C>>) -> Seq<PipelineId>
    decreases s,
{
    if s.len() == 0 {
        Seq::empty()
    } else {
        pipelines(s[0]) + pipelines_in(s.drop_first())
    }
}

pub proof fn lemma_skip_step<A>(s: Seq<A>, i: int)
    requires
        0 <= i < s.len(),
    ensures
        s.skip(i).len() > 0,
        s.skip(i)[0] == s[i],
        s.skip(i).drop_first() == s.skip(i + 1),
{
    assert(s.skip(i).drop_first() =~= s.skip(i + 1));
}

impl<C> Frame<C> {
    /// Creates a new frame for a browsing context showing `pipeline`.
    pub fn new(pipeline: PipelineId, subpage: Option<SubpageId>, context: C) -> (f: Frame<C>)
        ensures
            frame_view(f) == (FrameView {
                pipeline,
                subpage,
                context,
                children: Seq::<FrameView<C>>::empty(),
            }),
    {
        let f = Frame { pipeline, subpage, context, children: Vec::new() };
        proof {
            lemma_frames_view(f.children@);
            assert(frames_view(f.children@) =~= Seq::<FrameView<C>>::empty());
        }
        f
    }

    /// The first frame (in preorder) whose pipeline is `id`.
    pub fn find(&self, id: PipelineId) -> (r: Option<&Frame<C>>)
        ensures
            match r {
                Some(g) => find_frame(frame_view(*self), id) == Some(frame_view(*g)),
                None => find_frame(frame_view(*self), id) is None,
            },
        decreases self,
    {
        let ghost v = frame_view(*self);
        proof {
            lemma_frames_view(self.children@);
        }
        if self.pipeline == id {
            return Some(self);
        }
        let n = self.children.len();
        let mut i: usize = 0;
        proof {
            assert(v.children.skip(0) =~= v.children);
        }
        while i < n
            invariant
                n == self.children@.len(),
                n == v.children.len(),
                i <= n,
                v == frame_view(*self),
                forall|j: int| 0 <= j < n ==> #[trigger] v.children[j] == frame_view(self.children@[j]),
                find_frame(v, id) == find_in_frames(v.children.skip(i as int), id),
            decreases n - i,
        {
            proof {
                lemma_skip_step(v.children, i as int);
                assert(decreases_to!(self => self.children));
                assert(decreases_to!(self.children => self.children@));
                assert(decreases_to!(self.children@ => self.children@[i as int]));
            }
            let r = self.children[i].find(id);
            if r.is_some() {
                return r;
            }
            i = i + 1;
        }
        None
    }

    /// The child showing subpage `sub` of the first frame (in preorder)
    /// whose pipeline is `id`.
    pub fn find_by_subframe(&self, id: PipelineId, sub: SubpageId) -> (r: Option<&Frame<C>>)
        ensures
            match r {
                Some(g) => find_subframe(frame_view(*self), id, sub) == Some(frame_view(*g)),
                None => find_subframe(frame_view(*self), id, sub) is None,
            },
        decreases self,
    {
        let ghost v = frame_view(*self);
        proof {
            lemma_frames_view(self.children@);
            assert(v.children.skip(0) =~= v.children);
        }
        let n = self.children.len();
        if self.pipeline == id {
            let mut i: usize = 0;
            while i < n
                invariant
                    n == self.children@.len(),
                    n == v.children.len(),
                    i <= n,
                    v == frame_view(*self),
                    v.pipeline == id,
                    forall|j: int| 0 <= j < n ==> #[trigger] v.children[j] == frame_view(self.children@[j]),
                    first_with_subpage(v.children, sub) == first_with_subpage(
                        v.children.skip(i as int),
                        sub,
                    ),
                decreases n - i,
            {
                proof {
                    lemma_skip_step(v.children, i as int);
                }
                if self.children[i].subpage == Some(sub) {
                    return Some(&self.children[i]);
                }
                i = i + 1;
            }
            return None;
        }
        let mut i: usize = 0;
        while i < n
            invariant
                n == self.children@.len(),
                n == v.children.len(),
                i <= n,
                v == frame_view(*self),
                v.pipeline != id,
                forall|j: int| 0 <= j < n ==> #[trigger] v.children[j] == frame_view(self.children@[j]),
                find_subframe(v, id, sub) == find_subframe_in(v.children.skip(i as int), id, sub),
            decreases n - i,
        {
            proof {
                lemma_skip_step(v.children, i as int);
                assert(decreases_to!(self => self.children));
                assert(decreases_to!(self.children => self.children@));
                assert(decreases_to!(self.children@ => self.children@[i as int]));
            }
            let r = self.children[i].find_by_subframe(id, sub);
            if r.is_some() {
                return r;
            }
            i = i + 1;
        }
        None
    }

    /// The pipelines of this frame and all its descendants, in preorder (the
    /// order in which their windows are visited).
    pub fn pipelines(&self) -> (v: Vec<PipelineId>)
        ensures
            v@ == pipelines(frame_view(*self)),
    {
        let mut out = Vec::new();
        self.collect_pipelines(&mut out);
        assert(out@ =~= pipelines(frame_view(*self)));
        out
    }

    fn collect_pipelines(&self, out: &mut Vec<PipelineId>)
        ensures
            final(out)@ == old(out)@ + pipelines(frame_view(*self)),
        decreases self,
    {
        let ghost v = frame_view(*self);
        proof {
            lemma_frames_view(self.children@);
            assert(v.children.skip(0) =~= v.children);
        }
        out.push(self.pipeline);
        let ghost start = out@;
        let n = self.children.len();
        let mut i: usize = 0;
        while i < n
            invariant
                n == self.children@.len(),
                n == v.children.len(),
                i <= n,
                v == frame_view(*self),
                forall|j: int| 0 <= j < n ==> #[trigger] v.children[j] == frame_view(self.children@[j]),
                start == old(out)@.push(v.pipeline),
                out@ + pipelines_in(v.children.skip(i as int)) == start + pipelines_in(v.children),
            decreases n - i,
        {
            proof {
                lemma_skip_step(v.children, i as int);
                assert(decreases_to!(self => self.children));
                assert(decreases_to!(self.children => self.children@));
                assert(decreases_to!(self.children@ => self.children@[i as int]));
            }
            let ghost before = out@;
            self.children[i].collect_pipelines(out);
            proof {
                let sk = v.children.skip(i as int);
                assert(pipelines_in(sk) == pipelines(sk[0]) + pipelines_in(sk.drop_first()));
                assert(before + pipelines_in(sk) =~= out@ + pipelines_in(v.children.skip(i as int + 1)));
            }
            i = i + 1;
        }
        proof {
            assert(v.children.skip(n as int) =~= Seq::<FrameView<C>>::empty());
            assert(pipelines(v) =~= seq![v.pipeline] + pipelines_in(v.children));
            assert(out@ =~= old(out)@ + pipelines(v));
        }
    }
}

/// The frame with `x` appended to the children of the first frame (in
/// preorder) whose pipeline is `id`; `None` when there is no such frame.
pub open spec fn attach<C>(f: FrameView<C>, id: PipelineId, x: FrameView<C>) -> Option<
    FrameView<C>,
>
    decreases f,
{
    if f.pipeline == id {
        Some(FrameView { children: f.children.push(x), ..f })
    } else {
        match attach_in(f.children, id, x) {
            Some(cs) => Some(FrameView { children: cs, ..f }),
            None => None,
        }
    }
}

pub open spec fn attach_in<C>(s: Seq<FrameView<C>>, id: PipelineId, x: FrameView<C>) -> Option<
    Seq<FrameView<C>>,
>
    decreases s,
{
    if s.len() == 0 {
        None
    } else {
        match attach(s[0], id, x) {
            Some(c) => Some(s.update(0, c)),
            None => match attach_in(s.drop_first(), id, x) {
                Some(rest) => Some(seq![s[0]] + rest),
                None => None,
            },
        }
    }
}

/// A frame can be attached below `id` exactly when a frame with pipeline `id`
/// is there.
pub proof fn lemma_attach_iff_found<C>(f: FrameView<C>, id: PipelineId, x: FrameView<C>)
    ensures
        attach(f, id, x) is Some <==> find_frame(f, id) is Some,
    decreases f,
{
    if f.pipeline != id {
        lemma_attach_in_iff_found(f.children, id, x);
    }
}

pub proof fn lemma_attach_in_iff_found<C>(s: Seq<FrameView<C>>, id: PipelineId, x: FrameView<C>)
    ensures
        attach_in(s, id, x) is Some <==> find_in_frames(s, id) is Some,
    decreases s,
{
    if s.len() > 0 {
        lemma_attach_iff_found(s[0], id, x);
        lemma_attach_in_iff_found(s.drop_first(), id, x);
    }
}

/// Where the first frame (in preorder) below `f` whose pipeline is `id` sits
/// among the direct children, if it is one of them.
pub open spec fn direct_index<C>(s: Seq<FrameView<C>>, id: PipelineId) -> int
    decreases s.len(),
{
    if s.len() == 0 {
        -1
    } else if s[0].pipeline == id {
        0
    } else {
        let k = direct_index(s.drop_first(), id);
        if k < 0 {
            -1
        } else {
            k + 1
        }
    }
}

/// Removing the frame with pipeline `id` from below `f`: the first direct
/// child with that pipeline if there is one, else the first match found in
/// the children in order. Returns the new frame and the removed one.
pub open spec fn remove_below<C>(f: FrameView<C>, id: PipelineId) -> (FrameView<C>, Option<
    FrameView<C>,
>)
    decreases f,
{
    let k = direct_index(f.children, id);
    if k >= 0 {
        (FrameView { children: f.children.remove(k), ..f }, Some(f.children[k]))
    } else {
        let (cs, r) = remove_in(f.children, id);
        (FrameView { children: cs, ..f }, r)
    }
}

pub open spec fn remove_in<C>(s: Seq<FrameView<C>>, id: PipelineId) -> (Seq<FrameView<C>>, Option<
    FrameView<C>,
>)
    decreases s,
{
    if s.len() == 0 {
        (s, None)
    } else {
        let (c, r) = remove_below(s[0], id);
        if r is Some {
            (s.update(0, c), r)
        } else {
            let (rest, r2) = remove_in(s.drop_first(), id);
            (seq![s[0]] + rest, r2)
        }
    }
}

pub proof fn lemma_direct_index<C>(s: Seq<FrameView<C>>, id: PipelineId)
    ensures
        -1 <= direct_index(s, id) < s.len(),
        direct_index(s, id) >= 0 ==> s[direct_index(s, id)].pipeline == id,
        forall|j: int|
            0 <= j < s.len() && (direct_index(s, id) < 0 || j < direct_index(s, id))
                ==> #[trigger] s[j].pipeline != id,
    decreases s.len(),
{
    if s.len() > 0 {
        lemma_direct_index(s.drop_first(), id);
        assert forall|j: int|
            0 <= j < s.len() && (direct_index(s, id) < 0 || j < direct_index(s, id))
                implies #[trigger] s[j].pipeline != id by {
            if j > 0 {
                assert(s[j] == s.drop_first()[j - 1]);
            }
        }
    }
}

/// Something is removed below `f` exactly when some proper descendant has
/// pipeline `id`.
pub proof fn lemma_remove_some_iff<C>(f: FrameView<C>, id: PipelineId)
    ensures
        remove_below(f, id).1 is Some <==> find_in_frames(f.children, id) is Some,
    decreases f,
{
    lemma_direct_index(f.children, id);
    lemma_remove_in_some_iff(f.children, id);
    lemma_find_in_frames_some_iff(f.children, id);
    if direct_index(f.children, id) >= 0 {
        let d = direct_index(f.children, id);
        assert(find_frame(f.children[d], id) is Some);
    } else {
        if find_in_frames(f.children, id) is Some {
            let j = choose|j: int|
                0 <= j < f.children.len() && #[trigger] find_frame(f.children[j], id) is Some;
            assert(f.children[j].pipeline != id);
            assert(find_in_frames(f.children[j].children, id) is Some);
            assert(remove_below(f.children[j], id).1 is Some) by {
                assert(decreases_to!(f => f.children));
                assert(decreases_to!(f.children => f.children[j]));
                lemma_remove_some_iff(f.children[j], id);
            }
        }
        if remove_in(f.children, id).1 is Some {
            let j = choose|j: int|
                0 <= j < f.children.len() && #[trigger] remove_below(f.children[j], id).1 is Some;
            assert(decreases_to!(f => f.children));
            assert(decreases_to!(f.children => f.children[j]));
            lemma_remove_some_iff(f.children[j], id);
            assert(find_frame(f.children[j], id) is Some);
        }
    }
}

pub proof fn lemma_remove_in_some_iff<C>(s: Seq<FrameView<C>>, id: PipelineId)
    ensures
        remove_in(s, id).1 is Some <==> exists|j: int|
            0 <= j < s.len() && #[trigger] remove_below(s[j], id).1 is Some,
    decreases s.len(),
{
    if s.len() > 0 {
        lemma_remove_in_some_iff(s.drop_first(), id);
        if exists|j: int| 0 <= j < s.len() && #[trigger] remove_below(s[j], id).1 is Some {
            let j = choose|j: int| 0 <= j < s.len() && #[trigger] remove_below(s[j], id).1 is Some;
            if j > 0 {
                assert(s.drop_first()[j - 1] == s[j]);
                assert(remove_below(s.drop_first()[j - 1], id).1 is Some);
            }
        }
        if remove_below(s[0], id).1 is Some {
            assert(remove_below(s[0], id).1 is Some);
        }
        if remove_in(s.drop_first(), id).1 is Some {
            let j = choose|j: int|
                0 <= j < s.drop_first().len() && #[trigger] remove_below(s.drop_first()[j], id).1 is Some;
            assert(s[j + 1] == s.drop_first()[j]);
            assert(remove_below(s[j + 1], id).1 is Some);
        }
    }
}

pub proof fn lemma_find_in_frames_some_iff<C>(s: Seq<FrameView<C>>, id: PipelineId)
    ensures
        find_in_frames(s, id) is Some <==> exists|j: int|
            0 <= j < s.len() && #[trigger] find_frame(s[j], id) is Some,
    decreases s.len(),
{
    if s.len() > 0 {
        lemma_find_in_frames_some_iff(s.drop_first(), id);
        if exists|j: int| 0 <= j < s.len() && #[trigger] find_frame(s[j], id) is Some {
            let j = choose|j: int| 0 <= j < s.len() && #[trigger] find_frame(s[j], id) is Some;
            if j > 0 {
                assert(s.drop_first()[j - 1] == s[j]);
                assert(find_frame(s.drop_first()[j - 1], id) is Some);
            }
        }
        if find_frame(s[0], id) is Some {
            assert(find_frame(s[0], id) is Some);
        }
        if find_in_frames(s.drop_first(), id) is Some {
            let j = choose|j: int|
                0 <= j < s.drop_first().len() && #[trigger] find_frame(s.drop_first()[j], id) is Some;
            assert(s[j + 1] == s.drop_first()[j]);
            assert(find_frame(s[j + 1], id) is Some);
        }
    }
}

impl<C> Frame<C> {
    /// Whether some proper descendant of this frame has pipeline `id`.
    pub fn has_descendant(&self, id: PipelineId) -> (b: bool)
        ensures
            b == find_in_frames(frame_view(*self).children, id) is Some,
    {
        let ghost v = frame_view(*self);
        proof {
            lemma_frames_view(self.children@);
            assert(v.children.skip(0) =~= v.children);
        }
        let n = self.children.len();
        let mut i: usize = 0;
        while i < n
            invariant
                n == self.children@.len(),
                n == v.children.len(),
                i <= n,
                v == frame_view(*self),
                forall|j: int| 0 <= j < n ==> #[trigger] v.children[j] == frame_view(self.children@[j]),
                find_in_frames(v.children, id) == find_in_frames(v.children.skip(i as int), id),
            decreases n - i,
        {
            proof {
                lemma_skip_step(v.children, i as int);
            }
            if self.children[i].find(id).is_some() {
                return true;
            }
            i = i + 1;
        }
        proof {
            assert(v.children.skip(n as int) =~= Seq::<FrameView<C>>::empty());
        }
        false
    }

    /// Appends `x` to the children of the first frame (in preorder) whose
    /// pipeline is `id`; hands `x` back when there is no such frame.
    pub fn attach(&mut self, id: PipelineId, x: Frame<C>) -> (r: Result<(), Frame<C>>)
        ensures
            match r {
                Ok(()) => attach(frame_view(*old(self)), id, frame_view(x)) == Some(
                    frame_view(*final(self)),
                ),
                Err(y) => attach(frame_view(*old(self)), id, frame_view(x)) is None && y == x
                    && *final(self) == *old(self),
            },
        decreases *old(self),
    {
        let ghost v = frame_view(*self);
        let ghost xv = frame_view(x);
        proof {
            lemma_frames_view(self.children@);
        }
        if self.pipeline == id {
            self.children.push(x);
            proof {
                let w = v.children.push(xv);
                assert forall|j: int| 0 <= j < self.children@.len() implies #[trigger] w[j]
                    == frame_view(self.children@[j]) by {
                    if j < v.children.len() {
                        assert(self.children@[j] == old(self).children@[j]);
                    }
                }
                lemma_frames_view_ext(self.children@, w);
            }
            return Ok(());
        }
        let n = self.children.len();
        let mut i: usize = 0;
        proof {
            assert(v.children.skip(0) =~= v.children);
            assert(v.children.subrange(0, 0) =~= Seq::<FrameView<C>>::empty());
        }
        while i < n
            invariant
                v == frame_view(*self),
                v.pipeline != id,
                n == self.children@.len(),
                n == v.children.len(),
                i <= n,
                forall|j: int| 0 <= j < n ==> #[trigger] v.children[j] == frame_view(self.children@[j]),
                attach_in(v.children, id, xv) == match attach_in(v.children.skip(i as int), id, xv) {
                    Some(rest) => Some(v.children.subrange(0, i as int) + rest),
                    None => None::<Seq<FrameView<C>>>,
                },
            ensures
                i <= n,
                i < n ==> find_frame(v.children[i as int], id) is Some,
                attach_in(v.children, id, xv) == match attach_in(v.children.skip(i as int), id, xv) {
                    Some(rest) => Some(v.children.subrange(0, i as int) + rest),
                    None => None::<Seq<FrameView<C>>>,
                },
            decreases n - i,
        {
            proof {
                lemma_skip_step(v.children, i as int);
            }
            if self.children[i].find(id).is_some() {
                break;
            }
            proof {
                let sk = v.children.skip(i as int);
                lemma_attach_iff_found(sk[0], id, xv);
                match attach_in(sk.drop_first(), id, xv) {
                    Some(rest) => {
                        assert(v.children.subrange(0, i as int) + (seq![sk[0]] + rest)
                            =~= v.children.subrange(0, i as int + 1) + rest);
                    },
                    None => {},
                }
            }
            i = i + 1;
        }
        if i == n {
            proof {
                assert(v.children.skip(n as int) =~= Seq::<FrameView<C>>::empty());
            }
            return Err(x);
        }
        let ghost orig = *self;
        proof {
            lemma_skip_step(v.children, i as int);
            lemma_attach_iff_found(v.children[i as int], id, xv);
            assert(decreases_to!(orig => orig.children));
            assert(decreases_to!(orig.children => orig.children@));
            assert(decreases_to!(orig.children@ => orig.children@[i as int]));
        }
        let mut child = self.children.remove(i);
        let r = child.attach(id, x);
        let ghost cv = frame_view(child);
        self.children.insert(i, child);
        proof {
            assert(r is Ok);
            let sk = v.children.skip(i as int);
            assert(attach(sk[0], id, xv) == Some(cv));
            assert(attach_in(sk, id, xv) == Some(sk.update(0, cv)));
            let w = v.children.update(i as int, cv);
            assert(v.children.subrange(0, i as int) + sk.update(0, cv) =~= w);
            assert forall|j: int| 0 <= j < self.children@.len() implies #[trigger] w[j]
                == frame_view(self.children@[j]) by {
                if j != i {
                    assert(self.children@[j] == orig.children@[j]);
                }
            }
            lemma_frames_view_ext(self.children@, w);
        }
        Ok(())
    }

    /// Removes the frame with pipeline `id` from below this one: a direct
    /// child first, else the first match found in the children in order.
    pub fn remove_child(&mut self, id: PipelineId) -> (r: Option<Frame<C>>)
        ensures
            remove_below(frame_view(*old(self)), id) == (frame_view(*final(self)), match r {
                Some(g) => Some(frame_view(g)),
                None => None::<FrameView<C>>,
            }),
            r is None ==> *final(self) == *old(self),
        decreases *old(self),
    {
        let ghost v = frame_view(*self);
        proof {
            lemma_frames_view(self.children@);
            lemma_direct_index(v.children, id);
        }
        let n = self.children.len();
        let mut k: usize = 0;
        while k < n
            invariant
                n == self.children@.len(),
                n == v.children.len(),
                v == frame_view(*self),
                k <= n,
                forall|j: int| 0 <= j < n ==> #[trigger] v.children[j] == frame_view(self.children@[j]),
                forall|j: int| 0 <= j < k ==> #[trigger] self.children@[j].pipeline != id,
            ensures
                k <= n,
                forall|j: int| 0 <= j < k ==> #[trigger] self.children@[j].pipeline != id,
                k < n ==> self.children@[k as int].pipeline == id,
            decreases n - k,
        {
            if self.children[k].pipeline == id {
                break;
            }
            k = k + 1;
        }
        if k < n {
            let ghost orig = *self;
            proof {
                assert(self.children@[k as int].pipeline == id);
                assert(direct_index(v.children, id) == k) by {
                    let d = direct_index(v.children, id);
                    if d < 0 || d > k {
                        assert(v.children[k as int].pipeline != id);
                    }
                    if 0 <= d < k {
                        assert(v.children[d].pipeline == id);
                    }
                }
            }
            let removed = self.children.remove(k);
            proof {
                let w = v.children.remove(k as int);
                assert forall|j: int| 0 <= j < self.children@.len() implies #[trigger] w[j]
                    == frame_view(self.children@[j]) by {
                    if j < k {
                        assert(self.children@[j] == orig.children@[j]);
                    } else {
                        assert(self.children@[j] == orig.children@[j + 1]);
                    }
                }
                lemma_frames_view_ext(self.children@, w);
            }
            return Some(removed);
        }
        proof {
            assert(direct_index(v.children, id) < 0) by {
                let d = direct_index(v.children, id);
                if d >= 0 {
                    assert(v.children[d].pipeline == id);
                    assert(self.children@[d].pipeline == id);
                }
            }
            assert(v.children.skip(0) =~= v.children);
            assert(v.children.subrange(0, 0) =~= Seq::<FrameView<C>>::empty());
        }
        let mut i: usize = 0;
        while i < n
            invariant
                v == frame_view(*self),
                direct_index(v.children, id) < 0,
                n == self.children@.len(),
                n == v.children.len(),
                i <= n,
                forall|j: int| 0 <= j < n ==> #[trigger] v.children[j] == frame_view(self.children@[j]),
                remove_in(v.children, id) == (v.children.subrange(0, i as int) + remove_in(
                    v.children.skip(i as int),
                    id,
                ).0, remove_in(v.children.skip(i as int), id).1),
            ensures
                i <= n,
                i < n ==> find_in_frames(v.children[i as int].children, id) is Some,
                remove_in(v.children, id) == (v.children.subrange(0, i as int) + remove_in(
                    v.children.skip(i as int),
                    id,
                ).0, remove_in(v.children.skip(i as int), id).1),
            decreases n - i,
        {
            proof {
                lemma_skip_step(v.children, i as int);
            }
            if self.children[i].has_descendant(id) {
                break;
            }
            proof {
                let sk = v.children.skip(i as int);
                lemma_remove_some_iff(sk[0], id);
                let (rest, r2) = remove_in(sk.drop_first(), id);
                assert(v.children.subrange(0, i as int) + (seq![sk[0]] + rest)
                    =~= v.children.subrange(0, i as int + 1) + rest);
            }
            i = i + 1;
        }
        if i == n {
            proof {
                assert(v.children.skip(n as int) =~= Seq::<FrameView<C>>::empty());
                assert(v.children.subrange(0, n as int) =~= v.children);
            }
            return None;
        }
        let ghost orig = *self;
        proof {
            lemma_skip_step(v.children, i as int);
            lemma_remove_some_iff(v.children[i as int], id);
            assert(decreases_to!(orig => orig.children));
            assert(decreases_to!(orig.children => orig.children@));
            assert(decreases_to!(orig.children@ => orig.children@[i as int]));
        }
        let mut child = self.children.remove(i);
        let ghost cv0 = frame_view(child);
        let r = child.remove_child(id);
        let ghost cv = frame_view(child);
        self.children.insert(i, child);
        proof {
            let sk = v.children.skip(i as int);
            assert(sk[0] == cv0);
            assert(r is Some);
            assert(remove_in(sk, id) == (sk.update(0, cv), remove_below(cv0, id).1));
            let w = v.children.update(i as int, cv);
            assert(v.children.subrange(0, i as int) + sk.update(0, cv) =~= w);
            assert forall|j: int| 0 <= j < self.children@.len() implies #[trigger] w[j]
                == frame_view(self.children@[j]) by {
                if j != i {
                    assert(self.children@[j] == orig.children@[j]);
                }
            }
            lemma_frames_view_ext(self.children@, w);
        }
        r
    }
}

/// When nothing is removed, the frame is unchanged.
pub proof fn lemma_remove_none_unchanged<C>(f: FrameView<C>, id: PipelineId)
    ensures
        remove_below(f, id).1 is None ==> remove_below(f, id).0 == f,
    decreases f,
{
    if direct_index(f.children, id) < 0 {
        lemma_remove_in_none_unchanged(f.children, id);
    }
}

pub proof fn lemma_remove_in_none_unchanged<C>(s: Seq<FrameView<C>>, id: PipelineId)
    ensures
        remove_in(s, id).1 is None ==> remove_in(s, id).0 == s,
    decreases s,
{
    if s.len() > 0 {
        lemma_remove_none_unchanged(s[0], id);
        lemma_remove_in_none_unchanged(s.drop_first(), id);
        if remove_in(s, id).1 is None {
            assert(seq![s[0]] + s.drop_first() =~= s);
        }
    }
}

/// A tree of active frames.
pub struct FrameTree<C> {
    pub root_frame: Option<Frame<C>>,
}

pub open spec fn tree_root<C>(t: FrameTree<C>) -> Option<FrameView<C>> {
    match t.root_frame {
        Some(f) => Some(frame_view(f)),
        None => None,
    }
}

impl<C> FrameTree<C> {
    pub fn new() -> (t: FrameTree<C>)
        ensures
            tree_root(t) is None,
    {
        FrameTree { root_frame: None }
    }

    /// Whether there is a root frame.
    pub fn has_root(&self) -> (b: bool)
        ensures
            b == tree_root(*self) is Some,
    {
        self.root_frame.is_some()
    }

    /// The browsing context at the root of the tree, if there is one.
    pub fn root_context(&self) -> (c: Option<&C>)
        ensures
            match tree_root(*self) {
                Some(r) => c == Some(&r.context),
                None => c is None,
            },
    {
        match &self.root_frame {
            Some(f) => Some(&f.context),
            None => None,
        }
    }

    /// A matching frame: with `sub`, the child showing that subpage of the
    /// first frame with pipeline `id`; without, the first frame with `id`.
    pub fn find(&self, id: PipelineId, sub: Option<SubpageId>) -> (r: Option<&Frame<C>>)
        ensures
            match tree_root(*self) {
                None => r is None,
                Some(root) => match r {
                    Some(g) => Some(frame_view(*g)) == match sub {
                        Some(s) => find_subframe(root, id, s),
                        None => find_frame(root, id),
                    },
                    None => match sub {
                        Some(s) => find_subframe(root, id, s) is None,
                        None => find_frame(root, id) is None,
                    },
                },
            },
    {
        match &self.root_frame {
            None => None,
            Some(frame) => match sub {
                Some(s) => frame.find_by_subframe(id, s),
                None => frame.find(id),
            },
        }
    }

    /// The first frame with pipeline `id`, which must be in the tree.
    pub fn get(&self, id: PipelineId) -> (f: &Frame<C>)
        requires
            tree_root(*self) matches Some(root) && find_frame(root, id) is Some,
        ensures
            Some(frame_view(*f)) == find_frame(tree_root(*self)->0, id),
    {
        self.find(id, None).unwrap()
    }

    /// Adds a frame, as the root when there is none (then no parent may be
    /// given), otherwise below the first frame whose pipeline is `parent`
    /// (which must be given and be in the tree).
    pub fn add(&mut self, frame: Frame<C>, parent: Option<PipelineId>)
        requires
            tree_root(*old(self)) is None ==> parent is None,
            tree_root(*old(self)) matches Some(root) ==> (parent matches Some(p) && find_frame(
                root,
                p,
            ) is Some),
        ensures
            match tree_root(*old(self)) {
                None => tree_root(*final(self)) == Some(frame_view(frame)),
                Some(root) => tree_root(*final(self)) == attach(
                    root,
                    parent->0,
                    frame_view(frame),
                ),
            },
    {
        if self.root_frame.is_none() {
            self.root_frame = Some(frame);
            return;
        }
        let parent_id = parent.unwrap();
        let mut root = self.root_frame.take().unwrap();
        proof {
            lemma_attach_iff_found(frame_view(root), parent_id, frame_view(frame));
        }
        let r = root.attach(parent_id, frame);
        self.root_frame = Some(root);
    }

    /// Removes and returns the frame with pipeline `id`: the root itself when
    /// it has that pipeline, otherwise as `Frame::remove_child` finds it.
    pub fn maybe_remove(&mut self, id: PipelineId) -> (r: Option<Frame<C>>)
        ensures
            match tree_root(*old(self)) {
                None => r is None && tree_root(*final(self)) is None,
                Some(root) => if root.pipeline == id {
                    tree_root(*final(self)) is None && (r matches Some(g) && frame_view(g) == root)
                } else {
                    tree_root(*final(self)) == Some(remove_below(root, id).0) && match r {
                        Some(g) => remove_below(root, id).1 == Some(frame_view(g)),
                        None => remove_below(root, id).1 is None,
                    }
                },
            },
    {
        match self.root_frame.take() {
            None => None,
            Some(mut root) => {
                if root.pipeline == id {
                    Some(root)
                } else {
                    let removed = root.remove_child(id);
                    self.root_frame = Some(root);
                    removed
                }
            },
        }
    }

    /// Removes and returns the frame with pipeline `id`, which must be found.
    pub fn remove(&mut self, id: PipelineId) -> (f: Frame<C>)
        requires
            tree_root(*old(self)) matches Some(root) && (root.pipeline == id || remove_below(
                root,
                id,
            ).1 is Some),
        ensures
            match tree_root(*old(self)) {
                Some(root) => if root.pipeline == id {
                    tree_root(*final(self)) is None && frame_view(f) == root
                } else {
                    tree_root(*final(self)) == Some(remove_below(root, id).0) && remove_below(
                        root,
                        id,
                    ).1 == Some(frame_view(f))
                },
                None => false,
            },
    {
        self.maybe_remove(id).unwrap()
    }

    /// The pipelines of every frame in the tree, in preorder (the order in
    /// which their windows are visited).
    pub fn pipelines(&self) -> (v: Vec<PipelineId>)
        ensures
            match tree_root(*self) {
                Some(root) => v@ == pipelines(root),
                None => v@.len() == 0,
            },
    {
        match &self.root_frame {
            Some(f) => f.pipelines(),
            None => Vec::new(),
        }
    }
}

/// An inactive frame, with no tree structure: its pipeline, the pipelines of
/// its children, and its browsing context.
pub struct CachedFrame<C> {
    pub pipeline: PipelineId,
    pub children: Vec<PipelineId>,
    pub context: C,
}

/// The cached frames a frame and its descendants become, in preorder.
pub open spec fn cached_entries<C>(f: FrameView<C>) -> Seq<(PipelineId, Seq<PipelineId>, C)>
    decreases f,
{
    seq![(f.pipeline, child_pipelines(f.children), f.context)] + cached_entries_in(f.children)
}

pub open spec fn cached_entries_in<C>(s: Seq<FrameView<C>>) -> Seq<
    (PipelineId, Seq<PipelineId>, C),
>
    decreases s,
{
    if s.len() == 0 {
        Seq::empty()
    } else {
        cached_entries(s[0]) + cached_entries_in(s.drop_first())
    }
}

pub open spec fn child_pipelines<C>(s: Seq<FrameView<C>>) -> Seq<PipelineId> {
    s.map_values(|c: FrameView<C>| c.pipeline)
}

pub open spec fn cached_view<C>(c: CachedFrame<C>) -> (PipelineId, Seq<PipelineId>, C) {
    (c.pipeline, c.children@, c.context)
}

/// A cache of inactive frames.
pub struct FrameCache<C> {
    pub cache: Vec<CachedFrame<C>>,
}

pub open spec fn cache_view<C>(c: FrameCache<C>) -> Seq<(PipelineId, Seq<PipelineId>, C)> {
    c.cache@.map_values(|e: CachedFrame<C>| cached_view(e))
}

impl<C> FrameCache<C> {
    pub fn new() -> (c: FrameCache<C>)
        ensures
            cache_view(c) == Seq::<(PipelineId, Seq<PipelineId>, C)>::empty(),
    {
        let c = FrameCache { cache: Vec::new() };
        assert(cache_view(c) =~= Seq::<(PipelineId, Seq<PipelineId>, C)>::empty());
        c
    }

    pub fn empty(&self) -> (b: bool)
        ensures
            b == (cache_view(*self).len() == 0),
    {
        self.cache.len() == 0
    }

    /// Caches this frame and, recursively, all of its descendant frames, in
    /// preorder.
    pub fn add(&mut self, frame: Frame<C>)
        ensures
            cache_view(*final(self)) == cache_view(*old(self)) + cached_entries(frame_view(frame)),
        decreases frame,
    {
        let ghost fv = frame_view(frame);
        let ghost orig = frame;
        proof {
            lemma_frames_view(frame.children@);
        }
        let Frame { pipeline, subpage, context, children } = frame;
        let n = children.len();
        let mut child_ids: Vec<PipelineId> = Vec::new();
        let mut i: usize = 0;
        while i < n
            invariant
                n == children@.len(),
                n == fv.children.len(),
                i <= n,
                children == orig.children,
                forall|j: int| 0 <= j < n ==> #[trigger] fv.children[j] == frame_view(children@[j]),
                child_ids@ == child_pipelines(fv.children.subrange(0, i as int)),
            decreases n - i,
        {
            child_ids.push(children[i].pipeline);
            proof {
                assert(child_pipelines(fv.children.subrange(0, i as int + 1)) =~= child_pipelines(
                    fv.children.subrange(0, i as int),
                ).push(fv.children[i as int].pipeline));
            }
            i = i + 1;
        }
        proof {
            assert(fv.children.subrange(0, n as int) =~= fv.children);
        }
        self.cache.push(CachedFrame { pipeline, children: child_ids, context });
        proof {
            assert(cache_view(*self) =~= cache_view(*old(self)).push(
                (fv.pipeline, child_pipelines(fv.children), fv.context),
            ));
            assert(fv.children.skip(0) =~= fv.children);
        }
        let ghost start = cache_view(*self);
        let mut rest = children;
        let mut k: usize = 0;
        while k < n
            invariant
                orig == frame,
                n == orig.children@.len(),
                n == fv.children.len(),
                k <= n,
                rest@ =~= orig.children@.subrange(k as int, n as int),
                forall|j: int| 0 <= j < n ==> #[trigger] fv.children[j] == frame_view(orig.children@[j]),
                cache_view(*self) + cached_entries_in(fv.children.skip(k as int)) == start
                    + cached_entries_in(fv.children),
            decreases n - k,
        {
            let child = rest.remove(0);
            proof {
                assert(child == orig.children@[k as int]);
                lemma_skip_step(fv.children, k as int);
                assert(decreases_to!(orig => orig.children));
                assert(decreases_to!(orig.children => orig.children@));
                assert(decreases_to!(orig.children@ => orig.children@[k as int]));
            }
            let ghost before = cache_view(*self);
            self.add(child);
            proof {
                let sk = fv.children.skip(k as int);
                assert(cached_entries_in(sk) == cached_entries(sk[0]) + cached_entries_in(
                    sk.drop_first(),
                ));
                assert(before + cached_entries_in(sk) =~= cache_view(*self) + cached_entries_in(
                    fv.children.skip(k as int + 1),
                ));
                assert(rest@ =~= orig.children@.subrange(k as int + 1, n as int));
            }
            k = k + 1;
        }
        proof {
            assert(fv.children.skip(n as int) =~= Seq::<FrameView<C>>::empty());
            assert(cache_view(*self) =~= cache_view(*old(self)) + cached_entries(fv));
        }
    }

    fn position(&self, pipeline: PipelineId) -> (r: Option<usize>)
        ensures
            match r {
                Some(i) => i < self.cache@.len() && self.cache@[i as int].pipeline == pipeline
                    && forall|j: int| 0 <= j < i ==> #[trigger] self.cache@[j].pipeline != pipeline,
                None => forall|j: int|
                    0 <= j < self.cache@.len() ==> #[trigger] self.cache@[j].pipeline != pipeline,
            },
    {
        let n = self.cache.len();
        let mut i: usize = 0;
        while i < n
            invariant
                n == self.cache@.len(),
                i <= n,
                forall|j: int| 0 <= j < i ==> #[trigger] self.cache@[j].pipeline != pipeline,
            decreases n - i,
        {
            if self.cache[i].pipeline == pipeline {
                return Some(i);
            }
            i = i + 1;
        }
        None
    }

    /// Removes the first cached frame with this pipeline and returns it.
    pub fn remove(&mut self, pipeline: PipelineId) -> (r: Option<CachedFrame<C>>)
        ensures
            match r {
                Some(c) => exists|i: int|
                    0 <= i < old(self).cache@.len() && old(self).cache@[i] == c && c.pipeline
                        == pipeline && (forall|j: int|
                        0 <= j < i ==> #[trigger] old(self).cache@[j].pipeline != pipeline)
                        && final(self).cache@ == old(self).cache@.remove(i),
                None => *final(self) == *old(self) && forall|j: int|
                    0 <= j < old(self).cache@.len() ==> #[trigger] old(self).cache@[j].pipeline
                        != pipeline,
            },
    {
        match self.position(pipeline) {
            Some(i) => {
                let c = self.cache.remove(i);
                Some(c)
            },
            None => None,
        }
    }

    /// The first cached frame with this pipeline.
    pub fn find(&self, pipeline: PipelineId) -> (r: Option<&CachedFrame<C>>)
        ensures
            match r {
                Some(c) => exists|i: int|
                    0 <= i < self.cache@.len() && self.cache@[i] == *c && c.pipeline == pipeline
                        && forall|j: int| 0 <= j < i ==> #[trigger] self.cache@[j].pipeline != pipeline,
                None => forall|j: int|
                    0 <= j < self.cache@.len() ==> #[trigger] self.cache@[j].pipeline != pipeline,
            },
    {
        match self.position(pipeline) {
            Some(i) => Some(&self.cache[i]),
            None => None,
        }
    }
}

} // verus!
