//! Event targets: the listeners registered for each event type, inline
//! event handlers (compiled on first use), and the listeners an event
//! dispatch calls, in order and filtered by phase.
use vstd::prelude::*;
use crate::string_map::StringMap;

verus! {

/// The phase of an event that a listener listens in.
#[derive(Clone, Copy, PartialEq, Eq, Structural, Debug)]
pub enum ListenerPhase {
    Capturing,
    Bubbling,
}

/// Identifies an event-listener callback object.
#[derive(Clone, Copy, PartialEq, Eq, Structural, Debug)]
pub struct ListenerId(pub u64);

/// Identifies a compiled event-handler function.
#[derive(Clone, Copy, PartialEq, Eq, Structural, Debug)]
pub struct HandlerId(pub u64);

/// An inline event handler: source text not compiled yet (with the URL and
/// line it comes from; `None` once the source was taken for compiling), or
/// a compiled handler.
pub enum InlineEventListener {
    Uncompiled(Option<(String, String, usize)>),
    Compiled(HandlerId),
}

/// A listener added with `addEventListener`, or the inline handler.
pub enum EventListenerType {
    Additive(ListenerId),
    Inline(InlineEventListener),
}

/// A listener ready to be called.
#[derive(Clone, Copy, PartialEq, Eq, Structural, Debug)]
pub enum CompiledEventListener {
    Listener(ListenerId),
    Handler(HandlerId),
}

pub struct EventListenerEntry {
    pub phase: ListenerPhase,
    pub listener: EventListenerType,
}

/// The listeners of one event type, in the order they were added.
pub struct EventListeners {
    pub num_uncompiled: usize,
    pub listeners: Vec<EventListenerEntry>,
}

/// The listeners of an event target, by event type.
pub struct EventTarget {
    handlers: StringMap<EventListeners>,
}

pub open spec fn phase_matches(phase: Option<ListenerPhase>, e: EventListenerEntry) -> bool {
    phase is None || phase == Some(e.phase)
}

pub open spec fn is_uncompiled(e: EventListenerEntry) -> bool {
    e.listener matches EventListenerType::Inline(InlineEventListener::Uncompiled(_))
}

/// The entry after its source was taken for compiling.
pub open spec fn source_taken(e: EventListenerEntry) -> EventListenerEntry {
    EventListenerEntry {
        phase: e.phase,
        listener: EventListenerType::Inline(InlineEventListener::Uncompiled(None)),
    }
}

/// How many inline handlers among `entries` listen in `phase` and wait to
/// be compiled.
pub open spec fn pending(entries: Seq<EventListenerEntry>, phase: Option<ListenerPhase>) -> nat
    decreases entries.len(),
{
    if entries.len() == 0 {
        0
    } else {
        pending(entries.drop_last(), phase) + if phase_matches(phase, entries.last())
            && is_uncompiled(entries.last()) {
            1nat
        } else {
            0nat
        }
    }
}

/// No inline handler in `phase` has already had its source taken.
pub open spec fn sources_present(entries: Seq<EventListenerEntry>, phase: Option<ListenerPhase>) -> bool {
    forall|i: int|
        0 <= i < entries.len() && phase_matches(phase, #[trigger] entries[i]) ==> !(
        entries[i].listener matches EventListenerType::Inline(
            InlineEventListener::Uncompiled(None),
        ))
}

/// The listeners of `entries` in `phase` (all phases for `None`), in order,
/// and the entries that remain. `compiled` holds, in order, what compiling
/// each uncompiled inline handler in `phase` gave; one that did not compile
/// is left out and its entry removed; one that did keeps its entry, whose
/// source is then taken.
pub open spec fn collect(
    entries: Seq<EventListenerEntry>,
    phase: Option<ListenerPhase>,
    compiled: Seq<Option<HandlerId>>,
) -> (Seq<CompiledEventListener>, Seq<EventListenerEntry>)
    decreases entries.len(),
{
    if entries.len() == 0 {
        (Seq::empty(), Seq::empty())
    } else {
        let init = entries.drop_last();
        let e = entries.last();
        let r = collect(init, phase, compiled);
        if !phase_matches(phase, e) {
            (r.0, r.1.push(e))
        } else {
            match e.listener {
                EventListenerType::Additive(id) => (
                    r.0.push(CompiledEventListener::Listener(id)),
                    r.1.push(e),
                ),
                EventListenerType::Inline(InlineEventListener::Compiled(h)) => (
                    r.0.push(CompiledEventListener::Handler(h)),
                    r.1.push(e),
                ),
                EventListenerType::Inline(InlineEventListener::Uncompiled(_)) => {
                    match compiled[pending(init, phase) as int] {
                        Some(h) => (
                            r.0.push(CompiledEventListener::Handler(h)),
                            r.1.push(source_taken(e)),
                        ),
                        None => r,
                    }
                },
            }
        }
    }
}

/// The index of the first inline entry.
pub open spec fn first_inline(entries: Seq<EventListenerEntry>) -> Option<int> {
    if exists|i: int| 0 <= i < entries.len() && (#[trigger] entries[i]).listener is Inline {
        Some(
            choose|i: int|
                0 <= i < entries.len() && (#[trigger] entries[i]).listener is Inline && forall|
                    j: int,
                |
                    0 <= j < i ==> !((#[trigger] entries[j]).listener is Inline),
        )
    } else {
        None
    }
}

/// The entries after the inline handler is set to `listener` (removed for
/// `None`): the first inline entry is replaced or removed; without one, a
/// new bubbling entry comes last.
pub open spec fn set_inline(
    entries: Seq<EventListenerEntry>,
    listener: Option<InlineEventListener>,
) -> Seq<EventListenerEntry> {
    match first_inline(entries) {
        Some(i) => match listener {
            Some(l) => entries.update(
                i,
                EventListenerEntry { phase: entries[i].phase, listener: EventListenerType::Inline(l) },
            ),
            None => entries.remove(i),
        },
        None => match listener {
            Some(l) => entries.push(
                EventListenerEntry {
                    phase: ListenerPhase::Bubbling,
                    listener: EventListenerType::Inline(l),
                },
            ),
            None => entries,
        },
    }
}

pub open spec fn additive_entry(phase: ListenerPhase, id: ListenerId) -> EventListenerEntry {
    EventListenerEntry { phase, listener: EventListenerType::Additive(id) }
}

pub open spec fn phase_of(capture: bool) -> ListenerPhase {
    if capture {
        ListenerPhase::Capturing
    } else {
        ListenerPhase::Bubbling
    }
}

/// Whether `e` is the entry that adding listener `id` in `phase` makes.
fn is_additive_entry(e: &EventListenerEntry, phase: ListenerPhase, id: ListenerId) -> (r: bool)
    ensures
        r == (*e == additive_entry(phase, id)),
{
    match &e.listener {
        EventListenerType::Additive(x) => e.phase == phase && *x == id,
        _ => false,
    }
}

impl EventListeners {
    fn empty() -> (l: EventListeners)
        ensures
            l.listeners@.len() == 0,
            l.num_uncompiled == 0,
    {
        EventListeners { listeners: Vec::new(), num_uncompiled: 0 }
    }
}


/// The index of the first inline entry of `entries`.
fn first_inline_index(entries: &Vec<EventListenerEntry>) -> (r: Option<usize>)
    ensures
        match r {
            Some(i) => first_inline(entries@) == Some(i as int) && i < entries@.len(),
            None => first_inline(entries@) is None,
        },
{
    let n = entries.len();
    let mut i: usize = 0;
    while i < n
        invariant
            n == entries@.len(),
            i <= n,
            forall|j: int| 0 <= j < i ==> !((#[trigger] entries@[j]).listener is Inline),
        decreases n - i,
    {
        if let EventListenerType::Inline(_) = &entries[i].listener {
            proof {
                let s = entries@;
                assert(s[i as int].listener is Inline);
                let k = choose|k: int|
                    0 <= k < s.len() && (#[trigger] s[k]).listener is Inline && forall|j: int|
                        0 <= j < k ==> !((#[trigger] s[j]).listener is Inline);
                assert(k == i as int) by {
                    if k < i {
                        assert(!(s[k].listener is Inline));
                    }
                    if k > i {
                        assert(!(s[i as int].listener is Inline));
                    }
                }
            }
            return Some(i);
        }
        i = i + 1;
    }
    None
}

/// Sets the inline handler among `entries` (see [`set_inline`]).
fn set_inline_in(entries: &mut Vec<EventListenerEntry>, listener: Option<InlineEventListener>)
    ensures
        final(entries)@ == set_inline(old(entries)@, listener),
{
    match first_inline_index(entries) {
        Some(idx) => {
            match listener {
                Some(l) => {
                    let phase = entries[idx].phase;
                    entries.set(idx, EventListenerEntry { phase, listener: EventListenerType::Inline(l) });
                },
                None => {
                    entries.remove(idx);
                },
            }
        },
        None => {
            match listener {
                Some(l) => {
                    entries.push(
                        EventListenerEntry {
                            phase: ListenerPhase::Bubbling,
                            listener: EventListenerType::Inline(l),
                        },
                    );
                },
                None => {},
            }
        },
    }
}


proof fn lemma_pending_monotone(s: Seq<EventListenerEntry>, phase: Option<ListenerPhase>, j: int, m: int)
    requires
        0 <= j <= m <= s.len(),
    ensures
        pending(s.take(j), phase) <= pending(s.take(m), phase),
    decreases m - j,
{
    if j < m {
        lemma_pending_monotone(s, phase, j, m - 1);
        assert(s.take(m).drop_last() =~= s.take(m - 1));
    }
}

/// Collects the listeners of `entries` in `phase` (see [`collect`]).
fn collect_in(
    entries: Vec<EventListenerEntry>,
    phase: Option<ListenerPhase>,
    compiled: &Vec<Option<HandlerId>>,
) -> (r: (Vec<CompiledEventListener>, Vec<EventListenerEntry>))
    requires
        compiled@.len() == pending(entries@, phase),
        sources_present(entries@, phase),
    ensures
        (r.0@, r.1@) == collect(entries@, phase, compiled@),
{
    let ghost s = entries@;
    let n = entries.len();
    let mut src = entries;
    let mut out: Vec<CompiledEventListener> = Vec::new();
    let mut kept: Vec<EventListenerEntry> = Vec::new();
    let mut k: usize = 0;
    let mut i: usize = 0;
    let clen = compiled.len();
    proof {
        assert(s.take(0) =~= Seq::<EventListenerEntry>::empty());
        assert(s.subrange(0, n as int) =~= s);
    }
    while i < n
        invariant
            n == s.len(),
            i <= n,
            src@ == s.subrange(i as int, n as int),
            (out@, kept@) == collect(s.take(i as int), phase, compiled@),
            k == pending(s.take(i as int), phase),
            compiled@.len() == pending(s, phase),
            clen == compiled@.len(),
            sources_present(s, phase),
        decreases n - i,
    {
        let e = src.remove(0);
        proof {
            assert(e == s[i as int]);
            assert(s.take(i + 1).drop_last() =~= s.take(i as int));
            assert(s.take(i + 1).last() == s[i as int]);
            assert(src@ =~= s.subrange(i + 1, n as int));
            lemma_pending_monotone(s, phase, i + 1, n as int);
            assert(s.take(n as int) =~= s);
        }
        let matches = match phase {
            None => true,
            Some(p) => p == e.phase,
        };
        if !matches {
            kept.push(e);
        } else {
            match &e.listener {
                EventListenerType::Additive(id) => {
                    out.push(CompiledEventListener::Listener(*id));
                    kept.push(e);
                },
                EventListenerType::Inline(InlineEventListener::Compiled(h)) => {
                    out.push(CompiledEventListener::Handler(*h));
                    kept.push(e);
                },
                EventListenerType::Inline(InlineEventListener::Uncompiled(_)) => {
                    proof {
                        assert(k + 1 == pending(s.take(i + 1), phase));
                    }
                    match compiled[k] {
                        Some(h) => {
                            out.push(CompiledEventListener::Handler(h));
                            kept.push(
                                EventListenerEntry {
                                    phase: e.phase,
                                    listener: EventListenerType::Inline(
                                        InlineEventListener::Uncompiled(None),
                                    ),
                                },
                            );
                        },
                        None => {},
                    }
                    k = k + 1;
                },
            }
        }
        i = i + 1;
    }
    proof {
        assert(s.take(n as int) =~= s);
    }
    (out, kept)
}


/// The entries registered for `ty` in `m` (none when the type has no entry).
pub open spec fn entries_of(m: Map<Seq<char>, Seq<EventListenerEntry>>, ty: Seq<char>) -> Seq<EventListenerEntry> {
    if m.contains_key(ty) {
        m[ty]
    } else {
        Seq::empty()
    }
}

/// The entries after listener `id` is added in `phase`: it comes last,
/// unless the same listener is already there in the same phase.
pub open spec fn add_additive(entries: Seq<EventListenerEntry>, phase: ListenerPhase, id: ListenerId) -> Seq<EventListenerEntry> {
    if entries.contains(additive_entry(phase, id)) {
        entries
    } else {
        entries.push(additive_entry(phase, id))
    }
}

/// The entries after listener `id` is removed from `phase`: its entry, if
/// any, leaves.
pub open spec fn remove_additive(entries: Seq<EventListenerEntry>, phase: ListenerPhase, id: ListenerId) -> Seq<EventListenerEntry> {
    match entries.index_of_first(additive_entry(phase, id)) {
        Some(i) => entries.remove(i),
        None => entries,
    }
}

/// No listener added with `addEventListener` occurs twice among `s`.
#[verifier::opaque]
pub open spec fn no_repeated_listeners(s: Seq<EventListenerEntry>) -> bool {
    forall|i: int, j: int|
        0 <= i < j < s.len() && (#[trigger] s[i]).listener is Additive ==> s[i] != #[trigger] s[j]
}

proof fn lemma_add_keeps_no_repeats(s: Seq<EventListenerEntry>, phase: ListenerPhase, id: ListenerId)
    requires
        no_repeated_listeners(s),
    ensures
        no_repeated_listeners(add_additive(s, phase, id)),
        add_additive(s, phase, id).contains(additive_entry(phase, id)),
{
    reveal(no_repeated_listeners);
    let e = additive_entry(phase, id);
    let t = add_additive(s, phase, id);
    if !s.contains(e) {
        assert(t[s.len() as int] == e);
        assert forall|i: int, j: int|
            0 <= i < j < t.len() && (#[trigger] t[i]).listener is Additive implies t[i] != #[trigger] t[j] by {
            if j == s.len() {
                assert(s[i] == t[i]);
                if t[i] == e {
                    assert(s.contains(e));
                }
            } else {
                assert(s[i] == t[i] && s[j] == t[j]);
            }
        }
    }
}

proof fn lemma_remove_at_keeps_no_repeats(s: Seq<EventListenerEntry>, k: int)
    requires
        no_repeated_listeners(s),
        0 <= k < s.len(),
    ensures
        no_repeated_listeners(s.remove(k)),
{
    reveal(no_repeated_listeners);
    let t = s.remove(k);
    assert forall|i: int, j: int|
        0 <= i < j < t.len() && (#[trigger] t[i]).listener is Additive implies t[i] != #[trigger] t[j] by {
        let a = if i < k { i } else { i + 1 };
        let b = if j < k { j } else { j + 1 };
        assert(t[i] == s[a] && t[j] == s[b] && a < b);
    }
}

proof fn lemma_update_inline_keeps_no_repeats(s: Seq<EventListenerEntry>, k: int, x: EventListenerEntry)
    requires
        no_repeated_listeners(s),
        0 <= k < s.len(),
        x.listener is Inline,
    ensures
        no_repeated_listeners(s.update(k, x)),
{
    reveal(no_repeated_listeners);
    let t = s.update(k, x);
    assert forall|i: int, j: int|
        0 <= i < j < t.len() && (#[trigger] t[i]).listener is Additive implies t[i] != #[trigger] t[j] by {
        assert(i != k);
        assert(t[i] == s[i]);
        if j != k {
            assert(t[j] == s[j]);
        }
    }
}

proof fn lemma_push_inline_keeps_no_repeats(s: Seq<EventListenerEntry>, x: EventListenerEntry)
    requires
        no_repeated_listeners(s),
        x.listener is Inline,
    ensures
        no_repeated_listeners(s.push(x)),
{
    reveal(no_repeated_listeners);
    let t = s.push(x);
    assert forall|i: int, j: int|
        0 <= i < j < t.len() && (#[trigger] t[i]).listener is Additive implies t[i] != #[trigger] t[j] by {
        assert(t[i] == s[i]);
        if j < s.len() {
            assert(t[j] == s[j]);
        }
    }
}

proof fn lemma_first_inline_exists(s: Seq<EventListenerEntry>, k: int)
    requires
        0 <= k < s.len(),
        s[k].listener is Inline,
    ensures
        exists|i: int|
            0 <= i < s.len() && (#[trigger] s[i]).listener is Inline && forall|j: int|
                0 <= j < i ==> !((#[trigger] s[j]).listener is Inline),
    decreases k,
{
    if exists|j: int| 0 <= j < k && (#[trigger] s[j]).listener is Inline {
        let j = choose|j: int| 0 <= j < k && (#[trigger] s[j]).listener is Inline;
        lemma_first_inline_exists(s, j);
    }
}

proof fn lemma_first_inline_in_range(s: Seq<EventListenerEntry>)
    ensures
        first_inline(s) matches Some(i) ==> 0 <= i < s.len(),
{
    if exists|i: int| 0 <= i < s.len() && (#[trigger] s[i]).listener is Inline {
        let k = choose|i: int| 0 <= i < s.len() && (#[trigger] s[i]).listener is Inline;
        lemma_first_inline_exists(s, k);
    }
}

proof fn lemma_set_inline_keeps_no_repeats(s: Seq<EventListenerEntry>, listener: Option<InlineEventListener>)
    requires
        no_repeated_listeners(s),
    ensures
        no_repeated_listeners(set_inline(s, listener)),
{
    lemma_first_inline_in_range(s);
    match first_inline(s) {
        Some(i) => {
            match listener {
                Some(l) => lemma_update_inline_keeps_no_repeats(
                    s,
                    i,
                    EventListenerEntry { phase: s[i].phase, listener: EventListenerType::Inline(l) },
                ),
                None => lemma_remove_at_keeps_no_repeats(s, i),
            }
        },
        None => match listener {
            Some(l) => lemma_push_inline_keeps_no_repeats(
                s,
                EventListenerEntry { phase: ListenerPhase::Bubbling, listener: EventListenerType::Inline(l) },
            ),
            None => {},
        },
    }
}

proof fn lemma_remove_keeps_no_repeats(s: Seq<EventListenerEntry>, phase: ListenerPhase, id: ListenerId)
    requires
        no_repeated_listeners(s),
    ensures
        no_repeated_listeners(remove_additive(s, phase, id)),
{
    s.index_of_first_ensures(additive_entry(phase, id));
    match s.index_of_first(additive_entry(phase, id)) {
        Some(k) => lemma_remove_at_keeps_no_repeats(s, k),
        None => {},
    }
}

proof fn lemma_collect_keeps_no_repeats(
    s: Seq<EventListenerEntry>,
    phase: Option<ListenerPhase>,
    compiled: Seq<Option<HandlerId>>,
)
    requires
        no_repeated_listeners(s),
    ensures
        no_repeated_listeners(collect(s, phase, compiled).1),
        forall|k: int|
            0 <= k < collect(s, phase, compiled).1.len() && (#[trigger] collect(s, phase, compiled).1[k]).listener is Additive
                ==> s.contains(collect(s, phase, compiled).1[k]),
    decreases s.len(),
{
    reveal(no_repeated_listeners);
    if s.len() > 0 {
        let init = s.drop_last();
        let e = s.last();
        assert forall|i: int, j: int|
            0 <= i < j < init.len() && (#[trigger] init[i]).listener is Additive implies init[i] != #[trigger] init[j] by {
            assert(init[i] == s[i] && init[j] == s[j]);
        }
        lemma_collect_keeps_no_repeats(init, phase, compiled);
        let r = collect(init, phase, compiled).1;
        let t = collect(s, phase, compiled).1;
        assert forall|k: int| 0 <= k < r.len() && (#[trigger] r[k]).listener is Additive implies s.contains(r[k]) by {
            let w = choose|w: int| 0 <= w < init.len() && init[w] == r[k];
            assert(s[w] == r[k]);
        }
        if t.len() == r.len() + 1 {
            assert(t.drop_last() =~= r) by {
                if !phase_matches(phase, e) {
                } else {
                    match e.listener {
                        EventListenerType::Additive(_) => {},
                        EventListenerType::Inline(InlineEventListener::Compiled(_)) => {},
                        EventListenerType::Inline(InlineEventListener::Uncompiled(_)) => {},
                    }
                }
            }
            let x = t.last();
            assert(x == e || (x == source_taken(e) && x.listener is Inline));
            assert forall|i: int, j: int|
                0 <= i < j < t.len() && (#[trigger] t[i]).listener is Additive implies t[i] != #[trigger] t[j] by {
                assert(t[i] == r[i]);
                if j < r.len() {
                    assert(t[j] == r[j]);
                } else if x.listener is Additive {
                    assert(x == e);
                    let w = choose|w: int| 0 <= w < init.len() && init[w] == r[i];
                    assert(s[w] == r[i]);
                    assert(s[w] != s[s.len() - 1]);
                }
            }
            assert forall|k: int| 0 <= k < t.len() && (#[trigger] t[k]).listener is Additive implies s.contains(t[k]) by {
                if k < r.len() {
                    assert(t[k] == r[k]);
                } else {
                    assert(t[k] == e);
                    assert(s[s.len() - 1] == e);
                }
            }
        } else {
            assert(t == r);
        }
    }
}

proof fn lemma_inline_result_keeps_no_repeats(s: Seq<EventListenerEntry>, compiled: Option<HandlerId>)
    requires
        no_repeated_listeners(s),
    ensures
        no_repeated_listeners(inline_result(s, compiled).1),
{
    lemma_first_inline_in_range(s);
    match first_inline(s) {
        None => {},
        Some(i) => {
            match s[i].listener {
                EventListenerType::Inline(InlineEventListener::Compiled(_)) => {},
                _ => match compiled {
                    Some(_) => lemma_update_inline_keeps_no_repeats(s, i, source_taken(s[i])),
                    None => lemma_remove_at_keeps_no_repeats(s, i),
                },
            }
        },
    }
}

/// Adding a listener twice leaves it among the listeners of its event type
/// exactly once, and no other listener comes to occur twice.
pub proof fn lemma_added_twice_occurs_once(entries: Seq<EventListenerEntry>, phase: ListenerPhase, id: ListenerId)
    requires
        no_repeated_listeners(entries),
    ensures
        ({
            let s = add_additive(add_additive(entries, phase, id), phase, id);
            &&& s.contains(additive_entry(phase, id))
            &&& forall|i: int, j: int|
                0 <= i < j < s.len() && #[trigger] s[i] == additive_entry(phase, id) ==> #[trigger] s[j] != additive_entry(phase, id)
            &&& no_repeated_listeners(s)
        }),
{
    reveal(no_repeated_listeners);
    lemma_add_keeps_no_repeats(entries, phase, id);
    lemma_add_keeps_no_repeats(add_additive(entries, phase, id), phase, id);
}

impl EventTarget {
    /// The map is well formed and no type has a listener twice.
    pub closed spec fn wf(&self) -> bool {
        &&& self.handlers.wf()
        &&& forall|ty: Seq<char>| #[trigger] self.handlers@.contains_key(ty) ==> no_repeated_listeners(self.handlers@[ty].listeners@)
    }

    /// Under a well-formed target, no event type has a listener twice.
    pub proof fn lemma_no_repeated_listeners(&self)
        requires
            self.wf(),
        ensures
            forall|ty: Seq<char>| #[trigger] self.listeners().contains_key(ty) ==> no_repeated_listeners(self.listeners()[ty]),
    {
    }

    /// The listener entries of each event type that has had any.
    pub closed spec fn listeners(&self) -> Map<Seq<char>, Seq<EventListenerEntry>> {
        self.handlers@.map_values(|l: EventListeners| l.listeners@)
    }

    /// A target with no listeners.
    pub fn new_inherited() -> (t: EventTarget)
        ensures
            t.wf(),
            t.listeners() == Map::<Seq<char>, Seq<EventListenerEntry>>::empty(),
    {
        let t = EventTarget { handlers: StringMap::new() };
        assert(t.listeners() =~= Map::<Seq<char>, Seq<EventListenerEntry>>::empty());
        t
    }

    /// Whether any event type has had listeners.
    pub fn has_handlers(&self) -> (b: bool)
        requires
            self.wf(),
        ensures
            b == (self.listeners() != Map::<Seq<char>, Seq<EventListenerEntry>>::empty()),
    {
        let e = self.handlers.is_empty();
        proof {
            if !e {
                assert(exists|k: Seq<char>| self.handlers@.contains_key(k)) by {
                    if !(exists|k: Seq<char>| self.handlers@.contains_key(k)) {
                        assert(self.handlers@ =~= Map::<Seq<char>, EventListeners>::empty());
                    }
                }
                let k = choose|k: Seq<char>| self.handlers@.contains_key(k);
                assert(self.listeners().contains_key(k));
            } else {
                assert(self.listeners() =~= Map::<Seq<char>, Seq<EventListenerEntry>>::empty());
            }
        }
        !e
    }

    /// Takes the listeners of `ty` out (empty ones when it has none).
    fn take_entries(&mut self, ty: &String) -> (r: EventListeners)
        requires
            old(self).wf(),
        ensures
            final(self).wf(),
            final(self).listeners() == old(self).listeners().remove(ty@),
            r.listeners@ == entries_of(old(self).listeners(), ty@),
            no_repeated_listeners(r.listeners@),
    {
        let r = match self.handlers.remove(ty) {
            Some(l) => l,
            None => EventListeners::empty(),
        };
        proof {
            reveal(no_repeated_listeners);
            assert(self.listeners() =~= old(self).listeners().remove(ty@));
        }
        r
    }

    /// Puts the listeners of `ty` back.
    fn put_entries(&mut self, ty: String, l: EventListeners)
        requires
            old(self).wf(),
            no_repeated_listeners(l.listeners@),
        ensures
            final(self).wf(),
            final(self).listeners() == old(self).listeners().insert(ty@, l.listeners@),
    {
        let ghost k = ty@;
        let ghost v = l.listeners@;
        self.handlers.insert(ty, l);
        proof {
            assert(self.listeners() =~= old(self).listeners().insert(k, v));
        }
    }

    /// Sets the inline event handler of `ty` (removes it for `None`); the
    /// type then has an entry, though maybe no listeners.
    pub fn set_inline_event_listener(&mut self, ty: String, listener: Option<InlineEventListener>)
        requires
            old(self).wf(),
        ensures
            final(self).wf(),
            final(self).listeners() == old(self).listeners().insert(
                ty@,
                set_inline(entries_of(old(self).listeners(), ty@), listener),
            ),
    {
        let mut entries = self.take_entries(&ty);
        proof {
            lemma_set_inline_keeps_no_repeats(entries.listeners@, listener);
        }
        set_inline_in(&mut entries.listeners, listener);
        self.put_entries(ty, entries);
        proof {
            assert(self.listeners() =~= old(self).listeners().insert(
                ty@,
                set_inline(entries_of(old(self).listeners(), ty@), listener),
            ));
        }
    }

    /// Sets the inline handler of `ty` to source text not compiled yet.
    pub fn set_event_handler_uncompiled(&mut self, url: String, line: usize, ty: String, source: String)
        requires
            old(self).wf(),
        ensures
            final(self).wf(),
            final(self).listeners() == old(self).listeners().insert(
                ty@,
                set_inline(
                    entries_of(old(self).listeners(), ty@),
                    Some(InlineEventListener::Uncompiled(Some((source, url, line)))),
                ),
            ),
    {
        self.set_inline_event_listener(
            ty,
            Some(InlineEventListener::Uncompiled(Some((source, url, line)))),
        );
    }

    /// Sets the inline handler of `ty` to a compiled handler (removes it for
    /// `None`).
    pub fn set_event_handler_common(&mut self, ty: String, listener: Option<HandlerId>)
        requires
            old(self).wf(),
        ensures
            final(self).wf(),
            final(self).listeners() == old(self).listeners().insert(
                ty@,
                set_inline(
                    entries_of(old(self).listeners(), ty@),
                    match listener {
                        Some(h) => Some(InlineEventListener::Compiled(h)),
                        None => None,
                    },
                ),
            ),
    {
        let event_listener = match listener {
            Some(h) => Some(InlineEventListener::Compiled(h)),
            None => None,
        };
        self.set_inline_event_listener(ty, event_listener);
    }

    /// `addEventListener`: adds the listener for `ty` in the capturing or
    /// bubbling phase, unless it is already there; nothing for `None`.
    pub fn add_event_listener(&mut self, ty: String, listener: Option<ListenerId>, capture: bool)
        requires
            old(self).wf(),
        ensures
            final(self).wf(),
            final(self).listeners() == match listener {
                Some(id) => old(self).listeners().insert(
                    ty@,
                    add_additive(entries_of(old(self).listeners(), ty@), phase_of(capture), id),
                ),
                None => old(self).listeners(),
            },
    {
        match listener {
            Some(id) => {
                let mut entries = self.take_entries(&ty);
                let phase = if capture {
                    ListenerPhase::Capturing
                } else {
                    ListenerPhase::Bubbling
                };
                let ghost s0 = entries.listeners@;
                proof {
                    lemma_add_keeps_no_repeats(s0, phase, id);
                }
                let n = entries.listeners.len();
                let mut i: usize = 0;
                let mut found = false;
                while i < n
                    invariant
                        n == entries.listeners@.len(),
                        i <= n,
                        found == exists|j: int|
                            0 <= j < i && entries.listeners@[j] == additive_entry(phase, id),
                    decreases n - i,
                {
                    if is_additive_entry(&entries.listeners[i], phase, id) {
                        found = true;
                    }
                    i = i + 1;
                }
                proof {
                    let s = entries.listeners@;
                    if s.contains(additive_entry(phase, id)) {
                        let j = choose|j: int| 0 <= j < s.len() && s[j] == additive_entry(phase, id);
                        assert(found);
                    }
                }
                if !found {
                    entries.listeners.push(
                        EventListenerEntry { phase, listener: EventListenerType::Additive(id) },
                    );
                }
                proof {
                    assert(entries.listeners@ =~= add_additive(s0, phase, id));
                }
                self.put_entries(ty, entries);
                proof {
                    assert(self.listeners() =~= old(self).listeners().insert(
                        ty@,
                        add_additive(entries_of(old(self).listeners(), ty@), phase_of(capture), id),
                    ));
                }
            },
            None => {},
        }
    }

    /// `removeEventListener`: removes the listener of `ty` from the capturing
    /// or bubbling phase, if it is there; nothing for `None`.
    pub fn remove_event_listener(&mut self, ty: String, listener: Option<ListenerId>, capture: bool)
        requires
            old(self).wf(),
        ensures
            final(self).wf(),
            final(self).listeners() == match listener {
                Some(id) => if old(self).listeners().contains_key(ty@) {
                    old(self).listeners().insert(
                        ty@,
                        remove_additive(old(self).listeners()[ty@], phase_of(capture), id),
                    )
                } else {
                    old(self).listeners()
                },
                None => old(self).listeners(),
            },
    {
        match listener {
            Some(id) => {
                if !self.handlers.contains_key(&ty) {
                    return ;
                }
                let mut entries = self.take_entries(&ty);
                let phase = if capture {
                    ListenerPhase::Capturing
                } else {
                    ListenerPhase::Bubbling
                };
                let ghost s = entries.listeners@;
                let n = entries.listeners.len();
                let mut i: usize = 0;
                let mut pos: Option<usize> = None;
                while i < n
                    invariant
                        n == s.len(),
                        s == entries.listeners@,
                        i <= n,
                        match pos {
                            Some(p) => p < i && s[p as int] == additive_entry(phase, id)
                                && forall|j: int| 0 <= j < p ==> s[j] != additive_entry(phase, id),
                            None => forall|j: int| 0 <= j < i ==> s[j] != additive_entry(phase, id),
                        },
                    decreases n - i,
                {
                    if pos.is_none() && is_additive_entry(&entries.listeners[i], phase, id) {
                        pos = Some(i);
                    }
                    i = i + 1;
                }
                proof {
                    s.index_of_first_ensures(additive_entry(phase, id));
                    match pos {
                        Some(p) => {
                            assert(s.contains(additive_entry(phase, id)));
                            let f = s.index_of_first(additive_entry(phase, id))->0;
                            assert(f == p as int) by {
                                if f < p {
                                    assert(s[f] != additive_entry(phase, id));
                                }
                                if f > p {
                                    assert(s[p as int] != additive_entry(phase, id));
                                }
                            }
                        },
                        None => {
                            if s.contains(additive_entry(phase, id)) {
                                let j = choose|j: int| 0 <= j < s.len() && s[j] == additive_entry(phase, id);
                                assert(s[j] != additive_entry(phase, id));
                            }
                        },
                    }
                }
                match pos {
                    Some(p) => {
                        entries.listeners.remove(p);
                    },
                    None => {},
                }
                proof {
                    lemma_remove_keeps_no_repeats(s, phase, id);
                    assert(entries.listeners@ =~= remove_additive(s, phase, id));
                }
                self.put_entries(ty, entries);
                proof {
                    assert(self.listeners() =~= old(self).listeners().insert(
                        ty@,
                        remove_additive(old(self).listeners()[ty@], phase_of(capture), id),
                    ));
                }
            },
            None => {},
        }
    }
}


/// The source, URL and line of each inline handler among `entries` that
/// listens in `phase` and waits to be compiled, in order.
pub open spec fn pending_sources(entries: Seq<EventListenerEntry>, phase: Option<ListenerPhase>) -> Seq<(Seq<char>, Seq<char>, usize)>
    decreases entries.len(),
{
    if entries.len() == 0 {
        Seq::empty()
    } else {
        let r = pending_sources(entries.drop_last(), phase);
        let e = entries.last();
        if phase_matches(phase, e) {
            match e.listener {
                EventListenerType::Inline(InlineEventListener::Uncompiled(Some(src))) => r.push(
                    (src.0@, src.1@, src.2),
                ),
                _ => r,
            }
        } else {
            r
        }
    }
}

/// Compiling each source that [`pending_sources`] lists gives exactly the
/// outcomes that [`collect`] takes.
pub proof fn lemma_pending_sources_len(entries: Seq<EventListenerEntry>, phase: Option<ListenerPhase>)
    requires
        sources_present(entries, phase),
    ensures
        pending_sources(entries, phase).len() == pending(entries, phase),
    decreases entries.len(),
{
    if entries.len() > 0 {
        let init = entries.drop_last();
        assert(sources_present(init, phase)) by {
            assert forall|i: int| 0 <= i < init.len() && phase_matches(phase, #[trigger] init[i])
                implies !(init[i].listener matches EventListenerType::Inline(
                InlineEventListener::Uncompiled(None),
            )) by {
                assert(init[i] == entries[i]);
            }
        }
        lemma_pending_sources_len(init, phase);
        assert(entries.last() == entries[entries.len() - 1]);
    }
}

fn sources_of(entries: &Vec<EventListenerEntry>, phase: Option<ListenerPhase>) -> (r: Vec<(String, String, usize)>)
    ensures
        r@.map_values(|x: (String, String, usize)| (x.0@, x.1@, x.2)) == pending_sources(entries@, phase),
{
    let ghost s = entries@;
    let n = entries.len();
    let mut out: Vec<(String, String, usize)> = Vec::new();
    let mut i: usize = 0;
    proof {
        assert(s.take(0) =~= Seq::<EventListenerEntry>::empty());
        assert(out@.map_values(|x: (String, String, usize)| (x.0@, x.1@, x.2)) =~= Seq::<(Seq<char>, Seq<char>, usize)>::empty());
    }
    while i < n
        invariant
            n == s.len(),
            s == entries@,
            i <= n,
            out@.map_values(|x: (String, String, usize)| (x.0@, x.1@, x.2)) == pending_sources(
                s.take(i as int),
                phase,
            ),
        decreases n - i,
    {
        let ghost before = out@;
        proof {
            assert(s.take(i + 1).drop_last() =~= s.take(i as int));
            assert(s.take(i + 1).last() == s[i as int]);
        }
        let e = &entries[i];
        let matches = match phase {
            None => true,
            Some(p) => p == e.phase,
        };
        if matches {
            match &e.listener {
                EventListenerType::Inline(InlineEventListener::Uncompiled(Some(src))) => {
                    out.push((src.0.clone(), src.1.clone(), src.2));
                    proof {
                        assert(out@.map_values(|x: (String, String, usize)| (x.0@, x.1@, x.2))
                            =~= before.map_values(|x: (String, String, usize)| (x.0@, x.1@, x.2)).push(
                            (src.0@, src.1@, src.2),
                        ));
                    }
                },
                _ => {},
            }
        }
        i = i + 1;
    }
    proof {
        assert(s.take(n as int) =~= s);
    }
    out
}

impl EventTarget {
    /// The source, URL and line of each inline handler of `ty` in `phase`
    /// (all phases for `None`) that must be compiled before its listeners
    /// are gathered, in order.
    pub fn pending_compilations(&self, ty: &String, phase: Option<ListenerPhase>) -> (r: Vec<(String, String, usize)>)
        requires
            self.wf(),
        ensures
            r@.map_values(|x: (String, String, usize)| (x.0@, x.1@, x.2)) == pending_sources(
                entries_of(self.listeners(), ty@),
                phase,
            ),
    {
        match self.handlers.get(ty) {
            Some(l) => sources_of(&l.listeners, phase),
            None => {
                let v: Vec<(String, String, usize)> = Vec::new();
                proof {
                    assert(v@.map_values(|x: (String, String, usize)| (x.0@, x.1@, x.2)) =~= Seq::<(Seq<char>, Seq<char>, usize)>::empty());
                }
                v
            },
        }
    }

    fn listeners_in(&mut self, ty: &String, phase: Option<ListenerPhase>, compiled: &Vec<Option<HandlerId>>) -> (r: Option<Vec<CompiledEventListener>>)
        requires
            old(self).wf(),
            old(self).listeners().contains_key(ty@) ==> {
                &&& compiled@.len() == pending(old(self).listeners()[ty@], phase)
                &&& sources_present(old(self).listeners()[ty@], phase)
            },
        ensures
            final(self).wf(),
            match r {
                Some(v) => {
                    let c = collect(old(self).listeners()[ty@], phase, compiled@);
                    &&& old(self).listeners().contains_key(ty@)
                    &&& v@ == c.0
                    &&& final(self).listeners() == old(self).listeners().insert(ty@, c.1)
                },
                None => !old(self).listeners().contains_key(ty@) && final(self).listeners()
                    == old(self).listeners(),
            },
    {
        if !self.handlers.contains_key(ty) {
            return None;
        }
        let entries = self.take_entries(ty);
        proof {
            lemma_collect_keeps_no_repeats(entries.listeners@, phase, compiled@);
        }
        let (out, kept) = collect_in(entries.listeners, phase, compiled);
        self.put_entries(ty.clone(), EventListeners { num_uncompiled: entries.num_uncompiled, listeners: kept });
        proof {
            let c = collect(old(self).listeners()[ty@], phase, compiled@);
            assert(self.listeners() =~= old(self).listeners().insert(ty@, c.1));
        }
        Some(out)
    }

    /// The listeners of `ty` in all phases, in order, when the type has an
    /// entry; `compiled` holds what compiling each handler of
    /// [`pending_compilations`] gave (see [`collect`]).
    pub fn get_listeners(&mut self, ty: &String, compiled: &Vec<Option<HandlerId>>) -> (r: Option<Vec<CompiledEventListener>>)
        requires
            old(self).wf(),
            old(self).listeners().contains_key(ty@) ==> {
                &&& compiled@.len() == pending(old(self).listeners()[ty@], None)
                &&& sources_present(old(self).listeners()[ty@], None)
            },
        ensures
            final(self).wf(),
            match r {
                Some(v) => {
                    let c = collect(old(self).listeners()[ty@], None, compiled@);
                    &&& old(self).listeners().contains_key(ty@)
                    &&& v@ == c.0
                    &&& final(self).listeners() == old(self).listeners().insert(ty@, c.1)
                },
                None => !old(self).listeners().contains_key(ty@) && final(self).listeners()
                    == old(self).listeners(),
            },
    {
        self.listeners_in(ty, None, compiled)
    }

    /// The listeners of `ty` in `desired_phase`, in order, when the type has
    /// an entry (see [`get_listeners`]).
    pub fn get_listeners_for(&mut self, ty: &String, desired_phase: ListenerPhase, compiled: &Vec<Option<HandlerId>>) -> (r: Option<Vec<CompiledEventListener>>)
        requires
            old(self).wf(),
            old(self).listeners().contains_key(ty@) ==> {
                &&& compiled@.len() == pending(old(self).listeners()[ty@], Some(desired_phase))
                &&& sources_present(old(self).listeners()[ty@], Some(desired_phase))
            },
        ensures
            final(self).wf(),
            match r {
                Some(v) => {
                    let c = collect(old(self).listeners()[ty@], Some(desired_phase), compiled@);
                    &&& old(self).listeners().contains_key(ty@)
                    &&& v@ == c.0
                    &&& final(self).listeners() == old(self).listeners().insert(ty@, c.1)
                },
                None => !old(self).listeners().contains_key(ty@) && final(self).listeners()
                    == old(self).listeners(),
            },
    {
        self.listeners_in(ty, Some(desired_phase), compiled)
    }
}


/// What reading the inline handler of `entries` gives, and the entries
/// after: the first inline entry's compiled handler; for source text, what
/// compiling it gave (`compiled`), its source being taken, and the entry
/// removed when it did not compile.
pub open spec fn inline_result(entries: Seq<EventListenerEntry>, compiled: Option<HandlerId>) -> (Option<HandlerId>, Seq<EventListenerEntry>) {
    match first_inline(entries) {
        None => (None, entries),
        Some(i) => match entries[i].listener {
            EventListenerType::Inline(InlineEventListener::Compiled(h)) => (Some(h), entries),
            _ => match compiled {
                Some(h) => (Some(h), entries.update(i, source_taken(entries[i]))),
                None => (None, entries.remove(i)),
            },
        },
    }
}

/// The first inline entry, if it is source text, still has its source.
pub open spec fn inline_source_present(entries: Seq<EventListenerEntry>) -> bool {
    first_inline(entries) matches Some(i) ==> !(entries[i].listener matches EventListenerType::Inline(
        InlineEventListener::Uncompiled(None),
    ))
}

/// The source, URL and line of the first inline entry, when it is source
/// text still to be compiled.
pub open spec fn inline_source(entries: Seq<EventListenerEntry>) -> Option<(Seq<char>, Seq<char>, usize)> {
    match first_inline(entries) {
        Some(i) => match entries[i].listener {
            EventListenerType::Inline(InlineEventListener::Uncompiled(Some(src))) => Some(
                (src.0@, src.1@, src.2),
            ),
            _ => None,
        },
        None => None,
    }
}

impl EventTarget {
    /// The source of the inline handler of `ty` that must be compiled before
    /// [`get_event_handler_common`] reads it, if any.
    pub fn pending_inline_source(&self, ty: &String) -> (r: Option<(String, String, usize)>)
        requires
            self.wf(),
        ensures
            match r {
                Some(x) => inline_source(entries_of(self.listeners(), ty@)) == Some(
                    (x.0@, x.1@, x.2),
                ),
                None => inline_source(entries_of(self.listeners(), ty@)) is None,
            },
    {
        match self.handlers.get(ty) {
            None => None,
            Some(l) => match first_inline_index(&l.listeners) {
                None => None,
                Some(i) => match &l.listeners[i].listener {
                    EventListenerType::Inline(InlineEventListener::Uncompiled(Some(src))) => Some(
                        (src.0.clone(), src.1.clone(), src.2),
                    ),
                    _ => None,
                },
            },
        }
    }

    /// The inline handler of `ty`, if any (see [`inline_result`]); `compiled`
    /// is what compiling the source of [`pending_inline_source`] gave.
    pub fn get_event_handler_common(&mut self, ty: &String, compiled: Option<HandlerId>) -> (r: Option<HandlerId>)
        requires
            old(self).wf(),
            inline_source_present(entries_of(old(self).listeners(), ty@)),
        ensures
            final(self).wf(),
            old(self).listeners().contains_key(ty@) ==> {
                let ir = inline_result(old(self).listeners()[ty@], compiled);
                &&& r == ir.0
                &&& final(self).listeners() == old(self).listeners().insert(ty@, ir.1)
            },
            !old(self).listeners().contains_key(ty@) ==> r is None && final(self).listeners()
                == old(self).listeners(),
    {
        if !self.handlers.contains_key(ty) {
            return None;
        }
        let mut entries = self.take_entries(ty);
        let ghost s = entries.listeners@;
        proof {
            lemma_inline_result_keeps_no_repeats(s, compiled);
        }
        let r = match first_inline_index(&entries.listeners) {
            None => None,
            Some(i) => {
                let compiled_handler = match &entries.listeners[i].listener {
                    EventListenerType::Inline(InlineEventListener::Compiled(h)) => Some(Some(*h)),
                    _ => None,
                };
                match compiled_handler {
                    Some(h) => h,
                    None => {
                        let phase = entries.listeners[i].phase;
                        match compiled {
                            Some(h) => {
                                entries.listeners.set(
                                    i,
                                    EventListenerEntry {
                                        phase,
                                        listener: EventListenerType::Inline(
                                            InlineEventListener::Uncompiled(None),
                                        ),
                                    },
                                );
                                Some(h)
                            },
                            None => {
                                entries.listeners.remove(i);
                                None
                            },
                        }
                    },
                }
            },
        };
        proof {
            assert(entries.listeners@ == inline_result(s, compiled).1);
        }
        self.put_entries(ty.clone(), entries);
        proof {
            let ir = inline_result(s, compiled);
            assert(self.listeners() =~= old(self).listeners().insert(ty@, ir.1));
        }
        r
    }
}


/// Why `dispatchEvent` refuses an event.
#[derive(Clone, Copy, PartialEq, Eq, Structural, Debug)]
pub enum DispatchError {
    InvalidState,
}

/// What `dispatchEvent` reads and sets of an event: whether it is being
/// dispatched, whether it was initialized, and whether it is trusted.
#[derive(Clone, Copy, PartialEq, Eq, Structural, Debug)]
pub struct EventFlags {
    pub dispatching: bool,
    pub initialized: bool,
    pub trusted: bool,
}

/// The step of `dispatchEvent` before the dispatch itself: an event that is
/// being dispatched, or was not initialized, is refused and left as it is;
/// any other is marked untrusted and may be dispatched.
pub fn prepare_dispatch(event: &mut EventFlags) -> (r: Result<(), DispatchError>)
    ensures
        r is Err <==> (old(event).dispatching || !old(event).initialized),
        r is Err ==> r == Err::<(), DispatchError>(DispatchError::InvalidState) && *final(event) == *old(event),
        r is Ok ==> *final(event) == (EventFlags { trusted: false, ..*old(event) }),
{
    if event.dispatching || !event.initialized {
        return Err(DispatchError::InvalidState);
    }
    event.trusted = false;
    Ok(())
}

/// Setting an inline handler on a type that has none makes it a bubbling
/// listener: gathering the bubbling listeners (or those of every phase)
/// then gives what it gave before followed by the handler, and gathering
/// the capturing listeners gives what it gave before.
pub proof fn lemma_new_inline_handler_bubbles(
    entries: Seq<EventListenerEntry>,
    h: HandlerId,
    compiled: Seq<Option<HandlerId>>,
)
    requires
        first_inline(entries) is None,
    ensures
        ({
            let after = set_inline(entries, Some(InlineEventListener::Compiled(h)));
            &&& collect(after, Some(ListenerPhase::Bubbling), compiled).0 == collect(
                entries,
                Some(ListenerPhase::Bubbling),
                compiled,
            ).0.push(CompiledEventListener::Handler(h))
            &&& collect(after, None, compiled).0 == collect(entries, None, compiled).0.push(
                CompiledEventListener::Handler(h),
            )
            &&& collect(after, Some(ListenerPhase::Capturing), compiled).0 == collect(
                entries,
                Some(ListenerPhase::Capturing),
                compiled,
            ).0
        }),
{
    let after = set_inline(entries, Some(InlineEventListener::Compiled(h)));
    assert(after.drop_last() =~= entries);
    assert(after.last().phase == ListenerPhase::Bubbling);
}

/// Adding a listener that is already there changes nothing, so adding twice
/// is adding once.
pub proof fn lemma_add_listener_idempotent(entries: Seq<EventListenerEntry>, phase: ListenerPhase, id: ListenerId)
    ensures
        add_additive(add_additive(entries, phase, id), phase, id) == add_additive(entries, phase, id),
{
    let e = additive_entry(phase, id);
    if !entries.contains(e) {
        let s = entries.push(e);
        assert(s[entries.len() as int] == e);
        assert(s.contains(e));
    }
}

/// Removing a listener right after adding it (when it was not there) gives
/// back the entries as they were.
pub proof fn lemma_remove_undoes_add(entries: Seq<EventListenerEntry>, phase: ListenerPhase, id: ListenerId)
    requires
        !entries.contains(additive_entry(phase, id)),
    ensures
        remove_additive(add_additive(entries, phase, id), phase, id) == entries,
{
    let e = additive_entry(phase, id);
    let s = entries.push(e);
    assert(s[entries.len() as int] == e);
    s.index_of_first_ensures(e);
    let i = s.index_of_first(e)->0;
    assert(i == entries.len()) by {
        if i < entries.len() {
            assert(s[i] == entries[i]);
            assert(entries.contains(e));
        }
    }
    assert(s.remove(i) =~= entries);
}

/// Setting an inline handler where there was none, then removing it, gives
/// back the entries as they were.
pub proof fn lemma_inline_set_then_cleared(entries: Seq<EventListenerEntry>, l: InlineEventListener)
    requires
        first_inline(entries) is None,
    ensures
        set_inline(set_inline(entries, Some(l)), None) == entries,
{
    let s = entries.push(
        EventListenerEntry { phase: ListenerPhase::Bubbling, listener: EventListenerType::Inline(l) },
    );
    let n = entries.len() as int;
    assert(s[n].listener is Inline);
    assert forall|j: int| 0 <= j < n implies !((#[trigger] s[j]).listener is Inline) by {
        assert(s[j] == entries[j]);
        if s[j].listener is Inline {
            assert(exists|i: int| 0 <= i < entries.len() && (#[trigger] entries[i]).listener is Inline);
        }
    }
    let k = choose|i: int|
        0 <= i < s.len() && (#[trigger] s[i]).listener is Inline && forall|j: int|
            0 <= j < i ==> !((#[trigger] s[j]).listener is Inline);
    assert(k == n) by {
        if k < n {
            assert(!(s[k].listener is Inline));
        }
    }
    assert(s.remove(n) =~= entries);
}

} // verus!
