//! Devtools actors of the accessibility panel and of script threads: the
//! registry that names and finds them, and the reply each gives to each
//! message.
use vstd::prelude::*;
use vstd::string::StringExecFns;
use crate::string_map::StringMap;
use crate::devtools_client::Json;

verus! {

/// What an accessible's node actor is: the root node of a browsing context
/// (by the browsing context actor's name), or a node.
pub enum NodeActor {
    BrowsingContextRoot(String),
    Node(String),
}

/// An accessible object.
pub struct AccessibleActor {
    pub name: String,
    pub role: String,
    pub level: Option<String>,
    pub acc_name: Option<String>,
    pub child_count: u32,
    pub node_actor: NodeActor,
}

/// The walker over accessible objects: the names of its children.
pub struct AccessibleWalkerActor {
    pub name: String,
    pub children: Vec<String>,
}

/// The accessibility actor of the parent process.
pub struct ParentAccessibilityActor {
    pub name: String,
}

/// The actor of a script thread.
pub struct ThreadActor {
    pub name: String,
}

/// The actor of a paused thread.
pub struct PauseActor {
    pub name: String,
}

/// What the registry knows of a browsing context actor: the name of its
/// root node's actor, once there is one.
pub struct BrowsingContextActor {
    pub name: String,
    pub root_node: Option<String>,
}

/// An actor of the registry.
pub enum ActorEntry {
    Accessible(AccessibleActor),
    AccessibleWalker(AccessibleWalkerActor),
    ParentAccessibility(ParentAccessibilityActor),
    Thread(ThreadActor),
    Pause(PauseActor),
    BrowsingContext(BrowsingContextActor),
}

/// The registry of actors: each by its name, and the number that the next
/// new name ends with.
pub struct ActorRegistry {
    actors: StringMap<ActorEntry>,
    next: u64,
}

impl ActorRegistry {
    /// The map is well formed, and no registered name has the form of a name
    /// that the registry is still to make.
    pub closed spec fn wf(&self) -> bool {
        &&& self.actors.wf()
        &&& forall|key: Seq<char>| #[trigger] self.actors@.contains_key(key) ==> not_future_name(key, self.next)
    }

    pub closed spec fn actors_view(&self) -> Map<Seq<char>, ActorEntry> {
        self.actors@
    }

    pub closed spec fn next_view(&self) -> u64 {
        self.next
    }

    pub fn new() -> (r: ActorRegistry)
        ensures
            r.wf(),
            r.actors_view() == Map::<Seq<char>, ActorEntry>::empty(),
            r.next_view() == 0,
    {
        ActorRegistry { actors: StringMap::new(), next: 0 }
    }

    /// A new actor name: the prefix (which does not end with a digit) and
    /// the next number. No registered actor has it.
    pub fn new_name(&mut self, prefix: &str) -> (name: String)
        requires
            old(self).next_view() < u64::MAX,
            !ends_with_digit(prefix@),
        ensures
            name@ == prefix@ + crate::script_module::decimal(old(self).next_view() as nat),
            final(self).next_view() == old(self).next_view() + 1,
            final(self).actors_view() == old(self).actors_view(),
            old(self).wf() ==> final(self).wf(),
            old(self).wf() ==> !old(self).actors_view().contains_key(name@),
            not_future_name(name@, final(self).next_view()),
    {
        let mut name = String::from_str(prefix);
        crate::script_module::push_decimal(&mut name, self.next);
        let ghost n = self.next;
        self.next = self.next + 1;
        proof {
            let d = prefix@ + crate::script_module::decimal(n as nat);
            assert(name@ == d);
            if old(self).wf() && old(self).actors_view().contains_key(name@) {
                assert(not_future_name(name@, n));
                assert(name@ != prefix@ + crate::script_module::decimal(n as nat));
            }
            assert forall|p: Seq<char>, k: nat|
                !ends_with_digit(p) && k >= self.next implies name@ != #[trigger] (p
                    + crate::script_module::decimal(k)) by {
                if name@ == p + crate::script_module::decimal(k) {
                    lemma_name_number_unique(prefix@, n as nat, p, k);
                }
            }
        }
        name
    }

    /// Registers an actor under `name`, which must not have the form of a
    /// name that the registry is still to make.
    pub fn register(&mut self, name: String, actor: ActorEntry)
        requires
            old(self).wf(),
            not_future_name(name@, old(self).next_view()),
        ensures
            final(self).wf(),
            final(self).actors_view() == old(self).actors_view().insert(name@, actor),
            final(self).next_view() == old(self).next_view(),
    {
        self.actors.insert(name, actor);
    }

    /// The actor named `name`, if any.
    pub fn find(&self, name: &String) -> (r: Option<&ActorEntry>)
        requires
            self.wf(),
        ensures
            match r {
                Some(a) => self.actors_view().contains_key(name@) && *a == self.actors_view()[name@],
                None => !self.actors_view().contains_key(name@),
            },
    {
        self.actors.get(name)
    }
}

/// What an accessible object says of itself in replies.
pub struct AccessibleActorMsg {
    pub actor: String,
    pub role: String,
    pub level: Option<String>,
    pub name: Option<String>,
    pub use_child_target_to_fetch_children: bool,
    pub child_count: u32,
    /// The accessibility checks of the object: always an empty object.
    pub checks: Json,
}

pub open spec fn opt_view(s: Option<String>) -> Option<Seq<char>> {
    match s {
        Some(x) => Some(x@),
        None => None,
    }
}

/// `m` is what accessible object `a` says of itself.
pub open spec fn encodes(m: AccessibleActorMsg, a: AccessibleActor) -> bool {
    &&& m.actor@ == a.name@
    &&& m.role@ == a.role@
    &&& opt_view(m.level) == opt_view(a.level)
    &&& opt_view(m.name) == opt_view(a.acc_name)
    &&& !m.use_child_target_to_fetch_children
    &&& m.child_count == a.child_count
    &&& m.checks matches Json::Object(o) && o@.len() == 0
}

fn copy_opt(s: &Option<String>) -> (c: Option<String>)
    ensures
        opt_view(c) == opt_view(*s),
{
    match s {
        Some(x) => Some(x.clone()),
        None => None,
    }
}

/// A reply of an actor.
pub enum Reply {
    Audit { from: String },
    Hydrate { from: String },
    GetRelations { from: String },
    HideTabbingOrder { from: String },
    Children { from: String, children: Vec<AccessibleActorMsg> },
    Unhighlight { from: String },
    Bootstrap { from: String, can_be_enabled: bool, can_be_disabled: bool },
    Paused { from: String, actor: String, why: String },
    Reconfigure { from: String },
}

/// Why an actor does not handle a message.
#[derive(Clone, Copy, PartialEq, Eq, Structural, Debug)]
pub enum ActorError {
    UnrecognizedPacketType,
}

/// The name of the root node's actor of the browsing context that
/// accessible object `a` stands for, when the registry `actors` knows one.
pub open spec fn root_node_of(a: AccessibleActor, actors: Map<Seq<char>, ActorEntry>) -> Option<Seq<char>> {
    match a.node_actor {
        NodeActor::BrowsingContextRoot(bc) => if actors.contains_key(bc@) {
            match actors[bc@] {
                ActorEntry::BrowsingContext(b) => match b.root_node {
                    Some(root) => Some(root@),
                    None => None,
                },
                _ => None,
            }
        } else {
            None
        },
        NodeActor::Node(_) => None,
    }
}

impl AccessibleActor {
    /// What the accessible object says of itself.
    pub fn encode(&self) -> (m: AccessibleActorMsg)
        ensures
            encodes(m, *self),
    {
        AccessibleActorMsg {
            actor: self.name.clone(),
            role: self.role.clone(),
            level: copy_opt(&self.level),
            name: copy_opt(&self.acc_name),
            use_child_target_to_fetch_children: false,
            child_count: self.child_count,
            checks: Json::Object(Vec::new()),
        }
    }

    /// The actor of the accessible object's node: the root node of its
    /// browsing context.
    pub fn node_actor(&self, registry: &ActorRegistry) -> (r: String)
        requires
            registry.wf(),
            root_node_of(*self, registry.actors_view()) is Some,
        ensures
            r@ == root_node_of(*self, registry.actors_view())->0,
    {
        match &self.node_actor {
            NodeActor::BrowsingContextRoot(browsing_context) => {
                match registry.find(browsing_context) {
                    Some(ActorEntry::BrowsingContext(b)) => {
                        match &b.root_node {
                            Some(root) => root.clone(),
                            None => String::new(),
                        }
                    },
                    _ => String::new(),
                }
            },
            NodeActor::Node(_) => String::new(),
        }
    }

    /// Registers a new accessible object for the root of the browsing
    /// context actor named `browsing_context`, with an empty role, no level
    /// or name and no children; returns its name.
    pub fn register(registry: &mut ActorRegistry, browsing_context: String) -> (name: String)
        requires
            old(registry).wf(),
            old(registry).next_view() < u64::MAX,
        ensures
            final(registry).wf(),
            name@ == "accessible"@ + crate::script_module::decimal(old(registry).next_view() as nat),
            final(registry).next_view() == old(registry).next_view() + 1,
            !old(registry).actors_view().contains_key(name@),
            final(registry).actors_view().contains_key(name@),
            final(registry).actors_view() == old(registry).actors_view().insert(name@, final(registry).actors_view()[name@]),
            final(registry).actors_view()[name@] matches ActorEntry::Accessible(a) && a.name@ == name@ && a.role@.len() == 0
                && a.level is None && a.acc_name is None && a.child_count == 0 && (a.node_actor matches NodeActor::BrowsingContextRoot(bc)
                && bc == browsing_context),
    {
        proof {
            reveal_strlit("accessible");
            assert("accessible"@.last() == 'e');
        }
        let name = registry.new_name("accessible");
        let actor = AccessibleActor {
            name: name.clone(),
            role: String::new(),
            level: None,
            acc_name: None,
            child_count: 0,
            node_actor: NodeActor::BrowsingContextRoot(browsing_context),
        };
        registry.register(name.clone(), ActorEntry::Accessible(actor));
        name
    }

    /// The reply to a message: `audit` (no audit), `hydrate` (no
    /// properties) and `getRelations` (no relations); others are not
    /// recognized.
    pub fn handle_message(&self, msg_type: &str) -> (r: Result<Reply, ActorError>)
        ensures
            msg_type@ == "audit"@ ==> (r matches Ok(Reply::Audit { from }) && from@ == self.name@),
            msg_type@ == "hydrate"@ ==> (r matches Ok(Reply::Hydrate { from }) && from@ == self.name@),
            msg_type@ == "getRelations"@ ==> (r matches Ok(Reply::GetRelations { from }) && from@ == self.name@),
            msg_type@ != "audit"@ && msg_type@ != "hydrate"@ && msg_type@ != "getRelations"@ ==> r == Err::<Reply, ActorError>(ActorError::UnrecognizedPacketType),
    {
        proof {
            reveal_strlit("audit");
            assert("audit"@.len() == 5);
            reveal_strlit("hydrate");
            assert("hydrate"@.len() == 7);
            reveal_strlit("getRelations");
            assert("getRelations"@.len() == 12);
        }
        let t = String::from_str(msg_type);
        if crate::origin::string_is(&t, "audit") {
            Ok(Reply::Audit { from: self.name.clone() })
        } else if crate::origin::string_is(&t, "hydrate") {
            Ok(Reply::Hydrate { from: self.name.clone() })
        } else if crate::origin::string_is(&t, "getRelations") {
            Ok(Reply::GetRelations { from: self.name.clone() })
        } else {
            Err(ActorError::UnrecognizedPacketType)
        }
    }
}

impl AccessibleWalkerActor {
    /// Registers a new walker whose one child is a new accessible object for
    /// the browsing context actor named `browsing_context_actor`; returns the
    /// walker's name.
    pub fn register(registry: &mut ActorRegistry, browsing_context_actor: String) -> (name: String)
        requires
            old(registry).wf(),
            old(registry).next_view() < u64::MAX - 1,
        ensures
            final(registry).wf(),
            name@ == "accessible-walker"@ + crate::script_module::decimal(old(registry).next_view() as nat + 1),
            final(registry).next_view() == old(registry).next_view() + 2,
            final(registry).actors_view().contains_key(name@),
            ({
                let child = "accessible"@ + crate::script_module::decimal(old(registry).next_view() as nat);
                &&& !old(registry).actors_view().contains_key(child)
                &&& !old(registry).actors_view().contains_key(name@)
                &&& child != name@
                &&& final(registry).actors_view().contains_key(child)
                &&& final(registry).actors_view() == old(registry).actors_view().insert(child, final(registry).actors_view()[child]).insert(name@, final(registry).actors_view()[name@])
                &&& final(registry).actors_view()[child] matches ActorEntry::Accessible(a) && (a.node_actor matches NodeActor::BrowsingContextRoot(bc)
                    && bc == browsing_context_actor)
                &&& final(registry).actors_view()[name@] matches ActorEntry::AccessibleWalker(w) && w.name@ == name@
                    && w.children@.len() == 1 && w.children@[0]@ == child
            }),
    {
        let document_accessible = AccessibleActor::register(registry, browsing_context_actor);
        let ghost mid = registry.actors_view();
        proof {
            reveal_strlit("accessible-walker");
            assert("accessible-walker"@.last() == 'r');
        }
        let name = registry.new_name("accessible-walker");
        let mut children: Vec<String> = Vec::new();
        children.push(document_accessible);
        let actor = AccessibleWalkerActor { name: name.clone(), children };
        registry.register(name.clone(), ActorEntry::AccessibleWalker(actor));
        proof {
            let child = "accessible"@ + crate::script_module::decimal(old(registry).next_view() as nat);
            lemma_names_differ(old(registry).next_view() as nat);
            assert(name@ != child);
        }
        name
    }

    /// The reply to a message: `hideTabbingOrder`, `children` (what each
    /// child says of itself), `unhighlight` and `highlightAccessible`;
    /// others are not recognized.
    pub fn handle_message(&self, registry: &ActorRegistry, msg_type: &str) -> (r: Result<Reply, ActorError>)
        requires
            registry.wf(),
            msg_type@ == "children"@ ==> forall|i: int| 0 <= i < self.children@.len() ==> registry.actors_view().contains_key(#[trigger] self.children@[i]@)
                && registry.actors_view()[self.children@[i]@] is Accessible,
        ensures
            msg_type@ == "hideTabbingOrder"@ ==> (r matches Ok(Reply::HideTabbingOrder { from }) && from@ == self.name@),
            msg_type@ == "children"@ ==> (r matches Ok(Reply::Children { from, children }) && from@ == self.name@
                && children@.len() == self.children@.len() && forall|i: int| 0 <= i < children@.len() ==> encodes(#[trigger] children@[i], registry.actors_view()[self.children@[i]@]->Accessible_0)),
            msg_type@ == "unhighlight"@ || msg_type@ == "highlightAccessible"@ ==> (r matches Ok(Reply::Unhighlight { from }) && from@ == self.name@),
            msg_type@ != "hideTabbingOrder"@ && msg_type@ != "children"@ && msg_type@ != "unhighlight"@ && msg_type@ != "highlightAccessible"@
                ==> r == Err::<Reply, ActorError>(ActorError::UnrecognizedPacketType),
    {
        proof {
            reveal_strlit("hideTabbingOrder");
            assert("hideTabbingOrder"@.len() == 16);
            reveal_strlit("children");
            assert("children"@.len() == 8);
            reveal_strlit("unhighlight");
            assert("unhighlight"@.len() == 11);
            reveal_strlit("highlightAccessible");
            assert("highlightAccessible"@.len() == 19);
        }
        let t = String::from_str(msg_type);
        if crate::origin::string_is(&t, "hideTabbingOrder") {
            Ok(Reply::HideTabbingOrder { from: self.name.clone() })
        } else if crate::origin::string_is(&t, "children") {
            let mut out: Vec<AccessibleActorMsg> = Vec::new();
            let n = self.children.len();
            let mut i: usize = 0;
            while i < n
                invariant
                    n == self.children@.len(),
                    i <= n,
                    registry.wf(),
                    forall|k: int| 0 <= k < self.children@.len() ==> registry.actors_view().contains_key(#[trigger] self.children@[k]@)
                        && registry.actors_view()[self.children@[k]@] is Accessible,
                    out@.len() == i,
                    forall|k: int| 0 <= k < i ==> encodes(#[trigger] out@[k], registry.actors_view()[self.children@[k]@]->Accessible_0),
                decreases n - i,
            {
                let c = &self.children[i];
                proof {
                    assert(registry.actors_view()[self.children@[i as int]@] is Accessible);
                }
                match registry.find(c) {
                    Some(ActorEntry::Accessible(a)) => {
                        out.push(a.encode());
                    },
                    _ => {
                        // not reached: every child is an accessible object
                        out.push(AccessibleActorMsg {
                            actor: String::new(),
                            role: String::new(),
                            level: None,
                            name: None,
                            use_child_target_to_fetch_children: false,
                            child_count: 0,
                            checks: Json::Object(Vec::new()),
                        });
                    },
                }
                i = i + 1;
            }
            Ok(Reply::Children { from: self.name.clone(), children: out })
        } else if crate::origin::string_is(&t, "unhighlight") || crate::origin::string_is(&t, "highlightAccessible") {
            Ok(Reply::Unhighlight { from: self.name.clone() })
        } else {
            Err(ActorError::UnrecognizedPacketType)
        }
    }
}

impl ParentAccessibilityActor {
    /// Registers a new parent accessibility actor; returns its name.
    pub fn register(registry: &mut ActorRegistry) -> (name: String)
        requires
            old(registry).wf(),
            old(registry).next_view() < u64::MAX,
        ensures
            final(registry).wf(),
            name@ == "parent-accessibility"@ + crate::script_module::decimal(old(registry).next_view() as nat),
            final(registry).next_view() == old(registry).next_view() + 1,
            final(registry).actors_view().contains_key(name@),
            !old(registry).actors_view().contains_key(name@),
            final(registry).actors_view()[name@] matches ActorEntry::ParentAccessibility(p) && p.name@ == name@,
            final(registry).actors_view() == old(registry).actors_view().insert(name@, final(registry).actors_view()[name@]),
    {
        proof {
            reveal_strlit("parent-accessibility");
            assert("parent-accessibility"@.last() == 'y');
        }
        let name = registry.new_name("parent-accessibility");
        registry.register(name.clone(), ActorEntry::ParentAccessibility(ParentAccessibilityActor { name: name.clone() }));
        name
    }

    /// The reply to a message: `bootstrap` tells whether accessibility can
    /// be enabled (when it is not) and disabled (when it is); others,
    /// `enable` and `disable` among them, are not recognized.
    pub fn handle_message(&self, msg_type: &str, accessibility_enabled: bool) -> (r: Result<Reply, ActorError>)
        ensures
            msg_type@ == "bootstrap"@ ==> (r matches Ok(Reply::Bootstrap { from, can_be_enabled, can_be_disabled }) && from@ == self.name@
                && can_be_enabled == !accessibility_enabled && can_be_disabled == accessibility_enabled),
            msg_type@ != "bootstrap"@ ==> r == Err::<Reply, ActorError>(ActorError::UnrecognizedPacketType),
    {
        let t = String::from_str(msg_type);
        if crate::origin::string_is(&t, "bootstrap") {
            Ok(Reply::Bootstrap {
                from: self.name.clone(),
                can_be_enabled: !accessibility_enabled,
                can_be_disabled: accessibility_enabled,
            })
        } else {
            Err(ActorError::UnrecognizedPacketType)
        }
    }
}

impl ThreadActor {
    /// The reply to a message and whether the message was handled:
    /// `attach` registers a new pause actor and replies that the thread is
    /// paused, attached, at it; `reconfigure` is answered; `sources` is
    /// handled without a reply; others are not handled.
    pub fn handle_message(&self, registry: &mut ActorRegistry, msg_type: &str) -> (r: (bool, Option<Reply>))
        requires
            old(registry).wf(),
            old(registry).next_view() < u64::MAX,
        ensures
            final(registry).wf(),
            msg_type@ == "attach"@ ==> {
                let pause = "pause"@ + crate::script_module::decimal(old(registry).next_view() as nat);
                &&& r.0
                &&& r.1 matches Some(Reply::Paused { from, actor, why }) && from@ == self.name@ && actor@ == pause && why@ == "attached"@
                &&& final(registry).next_view() == old(registry).next_view() + 1
                &&& !old(registry).actors_view().contains_key(pause)
                &&& final(registry).actors_view().contains_key(pause)
                &&& final(registry).actors_view()[pause] matches ActorEntry::Pause(p) && p.name@ == pause
                &&& final(registry).actors_view() == old(registry).actors_view().insert(pause, final(registry).actors_view()[pause])
            },
            msg_type@ != "attach"@ ==> final(registry).actors_view() == old(registry).actors_view()
                && final(registry).next_view() == old(registry).next_view(),
            msg_type@ == "reconfigure"@ ==> r.0 && (r.1 matches Some(Reply::Reconfigure { from }) && from@ == self.name@),
            msg_type@ == "sources"@ ==> r.0 && r.1 is None,
            msg_type@ != "attach"@ && msg_type@ != "reconfigure"@ && msg_type@ != "sources"@ ==> !r.0 && r.1 is None,
    {
        proof {
            reveal_strlit("attach");
            assert("attach"@.len() == 6);
            reveal_strlit("reconfigure");
            assert("reconfigure"@.len() == 11);
            reveal_strlit("sources");
            assert("sources"@.len() == 7);
        }
        let t = String::from_str(msg_type);
        if crate::origin::string_is(&t, "attach") {
            proof {
                reveal_strlit("pause");
                assert("pause"@.last() == 'e');
            }
            let pause_name = registry.new_name("pause");
            registry.register(pause_name.clone(), ActorEntry::Pause(PauseActor { name: pause_name.clone() }));
            (true, Some(Reply::Paused { from: self.name.clone(), actor: pause_name, why: String::from_str("attached") }))
        } else if crate::origin::string_is(&t, "reconfigure") {
            (true, Some(Reply::Reconfigure { from: self.name.clone() }))
        } else if crate::origin::string_is(&t, "sources") {
            (true, None)
        } else {
            (false, None)
        }
    }
}

impl PauseActor {
    /// A pause actor handles no message.
    pub fn handle_message(&self, msg_type: &str) -> (handled: bool)
        ensures
            !handled,
    {
        false
    }
}

/// Whether `p` ends with a decimal digit.
pub open spec fn ends_with_digit(p: Seq<char>) -> bool {
    p.len() > 0 && '0' <= p.last() && p.last() <= '9'
}

/// `name` is not of the form of a name that a registry whose next number is
/// `next` will make: a prefix not ending with a digit and a number from
/// `next` on.
pub open spec fn not_future_name(name: Seq<char>, next: u64) -> bool {
    forall|p: Seq<char>, k: nat|
        !ends_with_digit(p) && k >= next ==> name != #[trigger] (p + crate::script_module::decimal(k))
}

/// The digits of a number are digits.
pub proof fn lemma_decimal_digits(n: nat)
    ensures
        crate::script_module::decimal(n).len() > 0,
        forall|i: int| 0 <= i < crate::script_module::decimal(n).len() ==> '0' <= #[trigger] crate::script_module::decimal(n)[i]
            && crate::script_module::decimal(n)[i] <= '9',
    decreases n,
{
    if n >= 10 {
        lemma_decimal_digits(n / 10);
        let d = crate::script_module::decimal(n / 10);
        assert forall|i: int| 0 <= i < crate::script_module::decimal(n).len() implies '0' <= #[trigger] crate::script_module::decimal(n)[i]
            && crate::script_module::decimal(n)[i] <= '9' by {
            if i < d.len() {
                assert(crate::script_module::decimal(n)[i] == d[i]);
            }
        }
    }
}

/// Different numbers have different digits.
pub proof fn lemma_decimal_injective(a: nat, b: nat)
    requires
        crate::script_module::decimal(a) == crate::script_module::decimal(b),
    ensures
        a == b,
    decreases a,
{
    lemma_decimal_digits(a);
    lemma_decimal_digits(b);
    let da = crate::script_module::decimal(a);
    let db = crate::script_module::decimal(b);
    if a < 10 && b < 10 {
        assert(da[0] == db[0]);
    } else if a < 10 {
        lemma_decimal_digits(b / 10);
        assert(db.len() >= 2);
    } else if b < 10 {
        lemma_decimal_digits(a / 10);
        assert(da.len() >= 2);
    } else {
        assert(da.last() == db.last());
        assert(da.drop_last() =~= crate::script_module::decimal(a / 10));
        assert(db.drop_last() =~= crate::script_module::decimal(b / 10));
        lemma_decimal_injective(a / 10, b / 10);
        assert(a % 10 == b % 10);
    }
}

/// A name made of a prefix that does not end with a digit and a number
/// determines the number.
pub proof fn lemma_name_number_unique(p: Seq<char>, a: nat, q: Seq<char>, b: nat)
    requires
        !ends_with_digit(p),
        !ends_with_digit(q),
        p + crate::script_module::decimal(a) == q + crate::script_module::decimal(b),
    ensures
        a == b,
{
    let da = crate::script_module::decimal(a);
    let db = crate::script_module::decimal(b);
    let s = p + da;
    lemma_decimal_digits(a);
    lemma_decimal_digits(b);
    let l = s.len();
    if da.len() < db.len() {
        let i = l - da.len() - 1;
        assert(p.len() > 0);
        assert(s[i] == p.last());
        assert((q + db)[i] == db[i - q.len()]);
    } else if db.len() < da.len() {
        let i = l - db.len() - 1;
        assert(q.len() > 0);
        assert((q + db)[i] == q.last());
        assert(s[i] == da[i - p.len()]);
    } else {
        assert(da =~= s.subrange(p.len() as int, l as int));
        assert(db =~= (q + db).subrange(q.len() as int, l as int));
        lemma_decimal_injective(a, b);
    }
}

/// An actor registered under a name is what the registry finds under that
/// name afterwards, and the other names find what they found before.
pub proof fn lemma_register_then_find(actors: Map<Seq<char>, ActorEntry>, name: Seq<char>, actor: ActorEntry, other: Seq<char>)
    requires
        other != name,
    ensures
        actors.insert(name, actor).contains_key(name),
        actors.insert(name, actor)[name] == actor,
        actors.insert(name, actor).contains_key(other) == actors.contains_key(other),
        actors.contains_key(other) ==> actors.insert(name, actor)[other] == actors[other],
{
}

/// Names made from different prefixes and numbers differ.
pub proof fn lemma_names_differ(n: nat)
    ensures
        "accessible-walker"@ + crate::script_module::decimal(n + 1) != "accessible"@
            + crate::script_module::decimal(n),
{
    reveal_strlit("accessible-walker");
    reveal_strlit("accessible");
    crate::script_module::lemma_decimal_starts_with_digit(n);
    crate::script_module::lemma_decimal_starts_with_digit(n + 1);
    let a = "accessible-walker"@ + crate::script_module::decimal(n + 1);
    let b = "accessible"@ + crate::script_module::decimal(n);
    assert(a[10] == '-');
    assert(crate::script_module::decimal(n).len() > 0);
    assert(b[10] == crate::script_module::decimal(n)[0]);
}

} // verus!
