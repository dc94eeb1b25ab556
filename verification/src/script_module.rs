//! Module scripts: the module map and the state of each module tree, the
//! resolution of module specifiers, and the decisions of the fetch,
//! descendant-fetch and finish algorithms. What the algorithms do to
//! promises, the network and the JavaScript engine is handed back as
//! effects; what the engine or the network answered is handed in.
use vstd::prelude::*;
use vstd::string::StringExecFns;
use crate::origin::{parse_url, url_parse, join_url, url_join, starts_with};
use crate::string_map::StringMap;

verus! {

/// Where a module tree is in its life.
#[derive(Clone, Copy, PartialEq, Eq, Structural, Debug)]
pub enum ModuleStatus {
    Initial,
    Fetching,
    FetchFailed,
    FetchingDescendants,
    Finished,
}

/// The position of a status in the order the statuses are declared in.
pub open spec fn status_rank(s: ModuleStatus) -> int {
    match s {
        ModuleStatus::Initial => 0,
        ModuleStatus::Fetching => 1,
        ModuleStatus::FetchFailed => 2,
        ModuleStatus::FetchingDescendants => 3,
        ModuleStatus::Finished => 4,
    }
}

impl ModuleStatus {
    fn rank(&self) -> (r: u8)
        ensures
            r == status_rank(*self),
    {
        match self {
            ModuleStatus::Initial => 0,
            ModuleStatus::Fetching => 1,
            ModuleStatus::FetchFailed => 2,
            ModuleStatus::FetchingDescendants => 3,
            ModuleStatus::Finished => 4,
        }
    }

    /// Whether this status comes before `other` (`<` on statuses).
    pub fn is_before(&self, other: &ModuleStatus) -> (b: bool)
        ensures
            b == (status_rank(*self) < status_rank(*other)),
    {
        self.rank() < other.rank()
    }
}

/// A value the JavaScript engine threw: a type error made here, with its
/// message, or another exception, by identity.
pub enum ExceptionValue {
    TypeError(String),
    Thrown(u64),
}

/// Why a module failed: a network error (with its message), or an
/// exception.
pub enum ModuleError {
    Network(String),
    RawException(ExceptionValue),
}

/// Module errors are ordered by kind only: any network error comes after
/// any exception; errors of one kind are equal.
pub open spec fn error_rank(e: ModuleError) -> int {
    match e {
        ModuleError::Network(_) => 1,
        ModuleError::RawException(_) => 0,
    }
}

impl ModuleError {
    /// Equality of module errors: of the same kind.
    pub fn eq(&self, other: &ModuleError) -> (b: bool)
        ensures
            b == (error_rank(*self) == error_rank(*other)),
    {
        match (self, other) {
            (ModuleError::Network(_), ModuleError::RawException(_)) | (
                ModuleError::RawException(_),
                ModuleError::Network(_),
            ) => false,
            _ => true,
        }
    }

    /// Whether this error comes after `other` in the order of errors.
    pub fn is_greater(&self, other: &ModuleError) -> (b: bool)
        ensures
            b == (error_rank(*self) > error_rank(*other)),
    {
        match (self, other) {
            (ModuleError::Network(_), ModuleError::RawException(_)) => true,
            _ => false,
        }
    }

    /// A copy of the error.
    pub fn clone(&self) -> (c: ModuleError)
        ensures
            c == *self,
    {
        match self {
            ModuleError::Network(m) => ModuleError::Network(m.clone()),
            ModuleError::RawException(ExceptionValue::TypeError(m)) => ModuleError::RawException(
                ExceptionValue::TypeError(m.clone()),
            ),
            ModuleError::RawException(ExceptionValue::Thrown(x)) => ModuleError::RawException(
                ExceptionValue::Thrown(*x),
            ),
        }
    }
}

fn clone_error(e: &Option<ModuleError>) -> (c: Option<ModuleError>)
    ensures
        c == *e,
{
    match e {
        Some(x) => Some(x.clone()),
        None => None,
    }
}

/// The state of one module: its URL and source text, the compiled module
/// record (by identity), its status, the URLs of its descendants, its
/// error, and the promise settled when it is fetched (by identity).
pub struct ModuleTree {
    url: String,
    text: String,
    record: Option<u64>,
    status: ModuleStatus,
    descendant_urls: Vec<String>,
    error: Option<ModuleError>,
    promise: Option<u64>,
}

pub open spec fn seq_views(v: Seq<String>) -> Seq<Seq<char>> {
    v.map_values(|s: String| s@)
}

impl ModuleTree {
    pub closed spec fn url_view(&self) -> Seq<char> {
        self.url@
    }

    pub closed spec fn text_view(&self) -> Seq<char> {
        self.text@
    }

    pub closed spec fn record_view(&self) -> Option<u64> {
        self.record
    }

    pub closed spec fn status_view(&self) -> ModuleStatus {
        self.status
    }

    /// The URLs of the module's descendants: each once.
    pub closed spec fn descendants(&self) -> Set<Seq<char>> {
        seq_views(self.descendant_urls@).to_set()
    }

    pub closed spec fn error_view(&self) -> Option<ModuleError> {
        self.error
    }

    pub closed spec fn promise_view(&self) -> Option<u64> {
        self.promise
    }

    pub closed spec fn descendant_seq(&self) -> Seq<Seq<char>> {
        seq_views(self.descendant_urls@)
    }

    /// The descendant URLs are held without repeats.
    pub closed spec fn wf(&self) -> bool {
        seq_views(self.descendant_urls@).no_duplicates()
    }

    /// A module tree for `url`, in its initial state.
    pub fn new(url: String) -> (t: ModuleTree)
        ensures
            t.wf(),
            t.url_view() == url@,
            t.text_view() == Seq::<char>::empty(),
            t.record_view() is None,
            t.status_view() == ModuleStatus::Initial,
            t.descendants() == Set::<Seq<char>>::empty(),
            t.error_view() is None,
            t.promise_view() is None,
    {
        let t = ModuleTree {
            url,
            text: String::new(),
            record: None,
            status: ModuleStatus::Initial,
            descendant_urls: Vec::new(),
            error: None,
            promise: None,
        };
        proof {
            assert(seq_views(t.descendant_urls@) =~= Seq::<Seq<char>>::empty());
            assert(t.descendants() =~= Set::<Seq<char>>::empty());
        }
        t
    }

    pub fn get_promise(&self) -> (p: Option<u64>)
        ensures
            p == self.promise_view(),
    {
        self.promise
    }

    pub fn set_promise(&mut self, promise: u64)
        ensures
            final(self).promise_view() == Some(promise),
            final(self).url_view() == old(self).url_view(),
            final(self).text_view() == old(self).text_view(),
            final(self).record_view() == old(self).record_view(),
            final(self).status_view() == old(self).status_view(),
            final(self).descendant_seq() == old(self).descendant_seq(),
            final(self).error_view() == old(self).error_view(),
            final(self).wf() == old(self).wf(),
    {
        self.promise = Some(promise);
    }

    pub fn get_status(&self) -> (s: ModuleStatus)
        ensures
            s == self.status_view(),
    {
        self.status
    }

    pub fn set_status(&mut self, status: ModuleStatus)
        ensures
            final(self).status_view() == status,
            final(self).url_view() == old(self).url_view(),
            final(self).text_view() == old(self).text_view(),
            final(self).record_view() == old(self).record_view(),
            final(self).descendant_seq() == old(self).descendant_seq(),
            final(self).error_view() == old(self).error_view(),
            final(self).promise_view() == old(self).promise_view(),
            final(self).wf() == old(self).wf(),
    {
        self.status = status;
    }

    pub fn get_record(&self) -> (r: Option<u64>)
        ensures
            r == self.record_view(),
    {
        self.record
    }

    pub fn set_record(&mut self, record: u64)
        ensures
            final(self).record_view() == Some(record),
            final(self).url_view() == old(self).url_view(),
            final(self).text_view() == old(self).text_view(),
            final(self).status_view() == old(self).status_view(),
            final(self).descendant_seq() == old(self).descendant_seq(),
            final(self).error_view() == old(self).error_view(),
            final(self).promise_view() == old(self).promise_view(),
            final(self).wf() == old(self).wf(),
    {
        self.record = Some(record);
    }

    pub fn get_error(&self) -> (e: &Option<ModuleError>)
        ensures
            *e == self.error_view(),
    {
        &self.error
    }

    pub fn set_error(&mut self, error: Option<ModuleError>)
        ensures
            final(self).error_view() == error,
            final(self).url_view() == old(self).url_view(),
            final(self).text_view() == old(self).text_view(),
            final(self).record_view() == old(self).record_view(),
            final(self).status_view() == old(self).status_view(),
            final(self).descendant_seq() == old(self).descendant_seq(),
            final(self).promise_view() == old(self).promise_view(),
            final(self).wf() == old(self).wf(),
    {
        self.error = error;
    }

    pub fn get_text(&self) -> (t: &String)
        ensures
            t@ == self.text_view(),
    {
        &self.text
    }

    pub fn set_text(&mut self, module_text: String)
        ensures
            final(self).text_view() == module_text@,
            final(self).url_view() == old(self).url_view(),
            final(self).record_view() == old(self).record_view(),
            final(self).status_view() == old(self).status_view(),
            final(self).descendant_seq() == old(self).descendant_seq(),
            final(self).error_view() == old(self).error_view(),
            final(self).promise_view() == old(self).promise_view(),
            final(self).wf() == old(self).wf(),
    {
        self.text = module_text;
    }

    pub fn get_descendant_urls(&self) -> (d: &Vec<String>)
        ensures
            seq_views(d@) == self.descendant_seq(),
    {
        &self.descendant_urls
    }

    /// Adds the URLs to the descendants (each once).
    pub fn append_descendant_urls(&mut self, descendant_urls: &Vec<String>)
        requires
            old(self).wf(),
        ensures
            final(self).wf(),
            final(self).descendants() == old(self).descendants() + seq_views(
                descendant_urls@,
            ).to_set(),
            final(self).url_view() == old(self).url_view(),
            final(self).text_view() == old(self).text_view(),
            final(self).record_view() == old(self).record_view(),
            final(self).status_view() == old(self).status_view(),
            final(self).error_view() == old(self).error_view(),
            final(self).promise_view() == old(self).promise_view(),
    {
        let n = descendant_urls.len();
        let mut i: usize = 0;
        while i < n
            invariant
                n == descendant_urls@.len(),
                i <= n,
                self.wf(),
                self.descendants() == old(self).descendants() + seq_views(
                    descendant_urls@.take(i as int),
                ).to_set(),
                self.url_view() == old(self).url_view(),
                self.text_view() == old(self).text_view(),
                self.record_view() == old(self).record_view(),
                self.status_view() == old(self).status_view(),
                self.error_view() == old(self).error_view(),
                self.promise_view() == old(self).promise_view(),
            decreases n - i,
        {
            let u = &descendant_urls[i];
            let ghost before = self.descendant_urls@;
            proof {
                assert(seq_views(descendant_urls@.take(i + 1)) =~= seq_views(
                    descendant_urls@.take(i as int),
                ).push(u@));
            }
            if !contains_string(&self.descendant_urls, u) {
                self.descendant_urls.push(u.clone());
                proof {
                    let vs = seq_views(self.descendant_urls@);
                    assert(vs =~= seq_views(before).push(u@));
                    assert(vs.no_duplicates()) by {
                        assert forall|a: int, b: int|
                            0 <= a < vs.len() && 0 <= b < vs.len() && a != b implies vs[a]
                            != vs[b] by {
                            if a < before.len() && b < before.len() {
                                assert(vs[a] == seq_views(before)[a]);
                                assert(vs[b] == seq_views(before)[b]);
                            } else if a < before.len() {
                                assert(seq_views(before)[a] == vs[a]);
                                assert(seq_views(before).contains(vs[a]));
                            } else if b < before.len() {
                                assert(seq_views(before)[b] == vs[b]);
                                assert(seq_views(before).contains(vs[b]));
                            }
                        }
                    }
                    lemma_push_to_set(seq_views(before), u@);
                }
            } else {
                proof {
                    assert(seq_views(before).to_set().contains(u@));
                }
            }
            proof {
                lemma_push_to_set(seq_views(descendant_urls@.take(i as int)), u@);
                assert(self.descendants() =~= old(self).descendants() + seq_views(
                    descendant_urls@.take(i + 1),
                ).to_set());
            }
            i = i + 1;
        }
        proof {
            assert(descendant_urls@.take(n as int) =~= descendant_urls@);
        }
    }
}


proof fn lemma_push_to_set(s: Seq<Seq<char>>, x: Seq<char>)
    ensures
        s.push(x).to_set() == s.to_set().insert(x),
{
    assert(s.push(x) =~= s + seq![x]);
    Seq::lemma_to_set_insert_commutes(s, x);
}

/// Whether `v` holds a string equal to `s`.
pub fn contains_string(v: &Vec<String>, s: &String) -> (b: bool)
    ensures
        b == seq_views(v@).contains(s@),
{
    let n = v.len();
    let mut i: usize = 0;
    while i < n
        invariant
            n == v@.len(),
            i <= n,
            forall|j: int| 0 <= j < i ==> v@[j]@ != s@,
        decreases n - i,
    {
        if v[i] == *s {
            proof {
                assert(seq_views(v@)[i as int] == s@);
            }
            return true;
        }
        i = i + 1;
    }
    proof {
        if seq_views(v@).contains(s@) {
            let j = choose|j: int| 0 <= j < seq_views(v@).len() && seq_views(v@)[j] == s@;
            assert(v@[j]@ == s@);
        }
    }
    false
}


/// The module trees of a global, by URL.
pub struct ModuleMap {
    trees: StringMap<ModuleTree>,
}

/// The error of the module at `url` in `m`, if it is there and has one.
pub open spec fn error_at(m: Map<Seq<char>, ModuleTree>, url: Seq<char>) -> Option<ModuleError> {
    if m.contains_key(url) {
        m[url].error_view()
    } else {
        None
    }
}

/// The greatest error among the modules at the first `k` URLs of `ds` in
/// `m`, walking them in order; a later error of the same rank takes the
/// place of an earlier one.
pub open spec fn parse_error_scan(m: Map<Seq<char>, ModuleTree>, ds: Seq<Seq<char>>, k: nat) -> Option<ModuleError>
    decreases k,
{
    if k == 0 {
        None
    } else {
        let b = parse_error_scan(m, ds, (k - 1) as nat);
        match error_at(m, ds[k - 1]) {
            None => b,
            Some(e) => match b {
                None => Some(e),
                Some(x) => if error_rank(x) > error_rank(e) {
                    Some(x)
                } else {
                    Some(e)
                },
            },
        }
    }
}

/// The first parse error of `tree` that the algorithm finds: without a
/// record, the tree's own error; else the greatest error among its
/// descendants in `m`, walked in the order they were added (see
/// [`parse_error_scan`]).
pub open spec fn first_parse_error(m: Map<Seq<char>, ModuleTree>, tree: ModuleTree) -> Option<ModuleError> {
    if tree.record_view() is None {
        tree.error_view()
    } else {
        parse_error_scan(m, tree.descendant_seq(), tree.descendant_seq().len())
    }
}

/// Whether `r` is the first parse error of `tree` (the finding-the-first-
/// parse-error algorithm): without a record, the tree's own error; else the
/// greatest error among its descendants in `m`, `None` when none has one.
/// Among equal errors the descendants are walked in no fixed order.
pub open spec fn is_first_parse_error(
    m: Map<Seq<char>, ModuleTree>,
    tree: ModuleTree,
    r: Option<ModuleError>,
) -> bool {
    if tree.record_view() is None {
        r == tree.error_view()
    } else {
        match r {
            None => forall|d: Seq<char>| #[trigger]
                tree.descendants().contains(d) ==> error_at(m, d) is None,
            Some(e) => {
                &&& exists|d: Seq<char>| #[trigger]
                    tree.descendants().contains(d) && error_at(m, d) == Some(e)
                &&& forall|d: Seq<char>| #[trigger]
                    tree.descendants().contains(d) && error_at(m, d) is Some ==> error_rank(
                        error_at(m, d)->0,
                    ) <= error_rank(e)
            },
        }
    }
}

impl ModuleMap {
    pub closed spec fn wf(&self) -> bool {
        &&& self.trees.wf()
        &&& forall|u: Seq<char>| #[trigger] self.trees@.contains_key(u) ==> self.trees@[u].wf()
    }

    /// The module tree of each URL.
    pub closed spec fn view_map(&self) -> Map<Seq<char>, ModuleTree> {
        self.trees@
    }

    pub fn new() -> (m: ModuleMap)
        ensures
            m.wf(),
            m.view_map() == Map::<Seq<char>, ModuleTree>::empty(),
    {
        ModuleMap { trees: StringMap::new() }
    }

    pub fn get(&self, url: &String) -> (r: Option<&ModuleTree>)
        requires
            self.wf(),
        ensures
            match r {
                Some(t) => self.view_map().contains_key(url@) && *t == self.view_map()[url@]
                    && t.wf(),
                None => !self.view_map().contains_key(url@),
            },
    {
        self.trees.get(url)
    }

    /// Puts the tree of `url` in the map, in place of any there.
    pub fn set(&mut self, url: String, tree: ModuleTree)
        requires
            old(self).wf(),
            tree.wf(),
        ensures
            final(self).wf(),
            final(self).view_map() == old(self).view_map().insert(url@, tree),
    {
        self.trees.insert(url, tree);
    }

    /// Takes the tree of `url` out of the map.
    pub fn take(&mut self, url: &String) -> (r: Option<ModuleTree>)
        requires
            old(self).wf(),
        ensures
            final(self).wf(),
            final(self).view_map() == old(self).view_map().remove(url@),
            match r {
                Some(t) => old(self).view_map().contains_key(url@) && t == old(
                    self,
                ).view_map()[url@] && t.wf(),
                None => !old(self).view_map().contains_key(url@),
            },
    {
        self.trees.remove(url)
    }

    /// The status of the module at `url`, if it is there.
    pub fn status_of(&self, url: &String) -> (r: Option<ModuleStatus>)
        requires
            self.wf(),
        ensures
            match r {
                Some(s) => self.view_map().contains_key(url@) && s == self.view_map()[url@].status_view(),
                None => !self.view_map().contains_key(url@),
            },
    {
        match self.trees.get(url) {
            Some(t) => Some(t.get_status()),
            None => None,
        }
    }
}

impl ModuleTree {
    /// Finding the first parse error of `module_tree` (see
    /// [`is_first_parse_error`]).
    pub fn find_first_parse_error(module_map: &ModuleMap, module_tree: &ModuleTree) -> (r: Option<ModuleError>)
        requires
            module_map.wf(),
        ensures
            r == first_parse_error(module_map.view_map(), *module_tree),
            is_first_parse_error(module_map.view_map(), *module_tree, r),
    {
        if module_tree.get_record().is_none() {
            return clone_error(module_tree.get_error());
        }
        let urls = module_tree.get_descendant_urls();
        let ghost ds = module_tree.descendant_seq();
        let ghost m = module_map.view_map();
        let n = urls.len();
        let mut best: Option<ModuleError> = None;
        let mut i: usize = 0;
        while i < n
            invariant
                n == urls@.len(),
                i <= n,
                seq_views(urls@) == ds,
                module_map.wf(),
                m == module_map.view_map(),
                best == parse_error_scan(m, ds, i as nat),
                match best {
                    None => forall|j: int| 0 <= j < i ==> error_at(m, #[trigger] ds[j]) is None,
                    Some(e) => {
                        &&& exists|j: int| 0 <= j < i && error_at(m, #[trigger] ds[j]) == Some(e)
                        &&& forall|j: int|
                            0 <= j < i && error_at(m, #[trigger] ds[j]) is Some ==> error_rank(
                                error_at(m, ds[j])->0,
                            ) <= error_rank(e)
                    },
                },
            decreases n - i,
        {
            proof {
                assert(ds[i as int] == urls@[i as int]@);
            }
            match module_map.get(&urls[i]) {
                Some(t) => {
                    match t.get_error() {
                        Some(e) => {
                            let take = match &best {
                                None => true,
                                Some(b) => !b.is_greater(e),
                            };
                            if take {
                                best = Some(e.clone());
                            }
                        },
                        None => {},
                    }
                },
                None => {},
            }
            i = i + 1;
        }
        proof {
            if best is None {
                assert forall|d: Seq<char>| #[trigger]
                    module_tree.descendants().contains(d) implies error_at(m, d) is None by {
                    let j = choose|j: int| 0 <= j < ds.len() && ds[j] == d;
                    assert(error_at(m, ds[j]) is None);
                }
            } else {
                let e = best->0;
                let j = choose|j: int| 0 <= j < n && error_at(m, #[trigger] ds[j]) == Some(e);
                assert(module_tree.descendants().contains(ds[j]));
                assert forall|d: Seq<char>| #[trigger]
                    module_tree.descendants().contains(d) && error_at(m, d) is Some implies error_rank(
                        error_at(m, d)->0,
                    ) <= error_rank(e) by {
                    let k = choose|k: int| 0 <= k < ds.len() && ds[k] == d;
                    assert(error_at(m, ds[k]) is Some);
                }
            }
        }
        best
    }
}


/// Why a module specifier does not resolve.
pub enum SpecifierError {
    /// A bare specifier: not a URL, and not starting with "/", "./" or "../".
    InvalidDomainCharacter,
    /// The relative specifier does not resolve against the base URL.
    Url(url::ParseError),
}

/// Whether `s` starts with "/", "./" or "../".
pub open spec fn is_path_relative(s: Seq<char>) -> bool {
    ||| (1 <= s.len() && s.subrange(0, 1) == "/"@)
    ||| (2 <= s.len() && s.subrange(0, 2) == "./"@)
    ||| (3 <= s.len() && s.subrange(0, 3) == "../"@)
}

/// What resolving a module specifier gives: the specifier itself when it is
/// an absolute URL; else, for a specifier starting with "/", "./" or "../",
/// the specifier resolved against `base`; else nothing.
pub open spec fn resolved_specifier(base: Seq<char>, specifier: Seq<char>) -> Option<Seq<char>> {
    if url_parse(specifier) is Some {
        Some(url_parse(specifier)->0.serialization)
    } else if is_path_relative(specifier) {
        url_join(base, specifier)
    } else {
        None
    }
}

impl ModuleTree {
    /// Resolving a module specifier against the base URL `url` (see
    /// [`resolved_specifier`]); a bare specifier is refused with
    /// `InvalidDomainCharacter`.
    pub fn resolve_module_specifier(url: &String, specifier: &String) -> (r: Result<String, SpecifierError>)
        ensures
            match r {
                Ok(s) => resolved_specifier(url@, specifier@) == Some(s@),
                Err(SpecifierError::InvalidDomainCharacter) => url_parse(specifier@) is None
                    && !is_path_relative(specifier@),
                Err(SpecifierError::Url(_)) => url_parse(specifier@) is None && is_path_relative(
                    specifier@,
                ) && url_join(url@, specifier@) is None,
            },
    {
        // Step 1.
        if let Some(parsed) = parse_url(specifier.as_str()) {
            return Ok(parsed.serialization);
        }
        // Step 2.
        if !starts_with(specifier.as_str(), "/") && !starts_with(specifier.as_str(), "./")
            && !starts_with(specifier.as_str(), "../") {
            proof {
                reveal_strlit("/");
                reveal_strlit("./");
                reveal_strlit("../");
            }
            return Err(SpecifierError::InvalidDomainCharacter);
        }
        proof {
            reveal_strlit("/");
            reveal_strlit("./");
            reveal_strlit("../");
        }
        // Step 3.
        match join_url(url.as_str(), specifier.as_str()) {
            Ok(s) => Ok(s),
            Err(e) => Err(SpecifierError::Url(e)),
        }
    }
}

/// The message of the type error a module gets when one of its specifiers
/// does not resolve.
pub open spec fn msg_wrong_specifier() -> Seq<char> {
    "Wrong module specifier"@
}

/// The URLs that `specifiers` resolve to against `base`, in order, each
/// once; `None` if one of them does not resolve.
pub open spec fn resolved_all(base: Seq<char>, specifiers: Seq<Seq<char>>) -> Option<Seq<Seq<char>>>
    decreases specifiers.len(),
{
    if specifiers.len() == 0 {
        Some(Seq::empty())
    } else {
        match resolved_all(base, specifiers.drop_last()) {
            None => None,
            Some(urls) => match resolved_specifier(base, specifiers.last()) {
                None => None,
                Some(u) => if urls.contains(u) {
                    Some(urls)
                } else {
                    Some(urls.push(u))
                },
            },
        }
    }
}

impl ModuleTree {
    /// Resolves the specifiers that a module requests (as the script engine
    /// reports them) against `base_url`: the set of their URLs, or a type
    /// error "Wrong module specifier" when one does not resolve.
    pub fn resolve_requested_module_specifiers(
        &self,
        specifiers: &Vec<String>,
        base_url: &String,
    ) -> (r: Result<Vec<String>, ModuleError>)
        ensures
            match r {
                Ok(urls) => resolved_all(base_url@, seq_views(specifiers@)) == Some(
                    seq_views(urls@),
                ),
                Err(e) => resolved_all(base_url@, seq_views(specifiers@)) is None && (e matches ModuleError::RawException(
                    ExceptionValue::TypeError(m),
                ) && m@ == msg_wrong_specifier()),
            },
    {
        let ghost ss = seq_views(specifiers@);
        let n = specifiers.len();
        let mut urls: Vec<String> = Vec::new();
        let mut i: usize = 0;
        proof {
            assert(ss.take(0) =~= Seq::<Seq<char>>::empty());
            assert(seq_views(urls@) =~= Seq::<Seq<char>>::empty());
        }
        while i < n
            invariant
                n == specifiers@.len(),
                ss == seq_views(specifiers@),
                i <= n,
                resolved_all(base_url@, ss.take(i as int)) == Some(seq_views(urls@)),
            decreases n - i,
        {
            proof {
                assert(ss.take(i + 1).drop_last() =~= ss.take(i as int));
                assert(ss.take(i + 1).last() == specifiers@[i as int]@);
            }
            match ModuleTree::resolve_module_specifier(base_url, &specifiers[i]) {
                Ok(u) => {
                    if !contains_string(&urls, &u) {
                        let ghost before = urls@;
                        urls.push(u);
                        proof {
                            assert(seq_views(urls@) =~= seq_views(before).push(urls@.last()@));
                        }
                    }
                },
                Err(_) => {
                    proof {
                        let k = i as int + 1;
                        lemma_resolved_all_none_extends(base_url@, ss, k, n as int);
                        assert(ss.take(n as int) =~= ss);
                    }
                    return Err(
                        ModuleError::RawException(
                            ExceptionValue::TypeError(String::from_str("Wrong module specifier")),
                        ),
                    );
                },
            }
            i = i + 1;
        }
        proof {
            assert(ss.take(n as int) =~= ss);
        }
        Ok(urls)
    }
}

proof fn lemma_resolved_all_none_extends(base: Seq<char>, ss: Seq<Seq<char>>, k: int, n: int)
    requires
        0 <= k <= n <= ss.len(),
        resolved_all(base, ss.take(k)) is None,
    ensures
        resolved_all(base, ss.take(n)) is None,
    decreases n - k,
{
    if k < n {
        assert(ss.take(k + 1).drop_last() =~= ss.take(k));
        lemma_resolved_all_none_extends(base, ss, k + 1, n);
    }
}


proof fn lemma_resolved_all_distinct(base: Seq<char>, ss: Seq<Seq<char>>)
    requires
        resolved_all(base, ss) is Some,
    ensures
        resolved_all(base, ss)->0.no_duplicates(),
    decreases ss.len(),
{
    if ss.len() > 0 {
        lemma_resolved_all_distinct(base, ss.drop_last());
        let urls = resolved_all(base, ss.drop_last())->0;
        let u = resolved_specifier(base, ss.last())->0;
        if !urls.contains(u) {
            let r = urls.push(u);
            assert forall|a: int, b: int| 0 <= a < r.len() && 0 <= b < r.len() && a != b implies r[a] != r[b] by {
                if a == urls.len() {
                    assert(urls[b] == r[b]);
                } else if b == urls.len() {
                    assert(urls[a] == r[a]);
                }
            }
        }
    }
}

/// The URLs of `urls` that are not in `visited`, in order.
pub open spec fn unvisited(urls: Seq<Seq<char>>, visited: Seq<Seq<char>>) -> Seq<Seq<char>>
    decreases urls.len(),
{
    if urls.len() == 0 {
        Seq::empty()
    } else {
        let r = unvisited(urls.drop_last(), visited);
        if visited.contains(urls.last()) {
            r
        } else {
            r.push(urls.last())
        }
    }
}

proof fn lemma_unvisited_sub(urls: Seq<Seq<char>>, visited: Seq<Seq<char>>, x: Seq<char>)
    requires
        unvisited(urls, visited).contains(x),
    ensures
        urls.contains(x),
        !visited.contains(x),
    decreases urls.len(),
{
    if urls.len() > 0 {
        let r = unvisited(urls.drop_last(), visited);
        if r.contains(x) {
            lemma_unvisited_sub(urls.drop_last(), visited, x);
            let j = choose|j: int| 0 <= j < urls.drop_last().len() && urls.drop_last()[j] == x;
            assert(urls[j] == x);
        } else {
            let s = r.push(urls.last());
            let j = choose|j: int| 0 <= j < s.len() && s[j] == x;
            assert(j == r.len());
            assert(urls[urls.len() - 1] == x);
        }
    }
}

impl ModuleTree {
    /// Step 5 of fetching the descendants of a module: the URLs its requested
    /// specifiers resolve to (see [`resolve_requested_module_specifiers`]) that
    /// are not visited yet, in order; they become visited.
    pub fn resolve_requested_modules(
        &self,
        specifiers: &Vec<String>,
        base_url: &String,
        visited: &mut Vec<String>,
    ) -> (r: Result<Vec<String>, ModuleError>)
        requires
            self.status_view() != ModuleStatus::Initial,
            self.status_view() != ModuleStatus::Fetching,
            self.record_view() is Some,
        ensures
            match r {
                Ok(urls) => {
                    &&& resolved_all(base_url@, seq_views(specifiers@)) is Some
                    &&& seq_views(urls@) == unvisited(
                        resolved_all(base_url@, seq_views(specifiers@))->0,
                        seq_views(old(visited)@),
                    )
                    &&& seq_views(final(visited)@) == seq_views(old(visited)@) + seq_views(urls@)
                },
                Err(e) => {
                    &&& resolved_all(base_url@, seq_views(specifiers@)) is None
                    &&& e matches ModuleError::RawException(ExceptionValue::TypeError(m))
                        && m@ == msg_wrong_specifier()
                    &&& final(visited)@ == old(visited)@
                },
            },
    {
        let parsed = self.resolve_requested_module_specifiers(specifiers, base_url);
        match parsed {
            Err(e) => Err(e),
            Ok(parsed_urls) => {
                let ghost all = seq_views(parsed_urls@);
                let ghost v0 = seq_views(visited@);
                proof {
                    lemma_resolved_all_distinct(base_url@, seq_views(specifiers@));
                }
                let n = parsed_urls.len();
                let mut out: Vec<String> = Vec::new();
                let mut i: usize = 0;
                proof {
                    assert(all.take(0) =~= Seq::<Seq<char>>::empty());
                    assert(seq_views(out@) =~= Seq::<Seq<char>>::empty());
                    assert(seq_views(visited@) =~= v0 + seq_views(out@));
                }
                while i < n
                    invariant
                        n == parsed_urls@.len(),
                        all == seq_views(parsed_urls@),
                        all.no_duplicates(),
                        i <= n,
                        seq_views(out@) == unvisited(all.take(i as int), v0),
                        seq_views(visited@) == v0 + seq_views(out@),
                    decreases n - i,
                {
                    let u = &parsed_urls[i];
                    proof {
                        assert(all.take(i + 1).drop_last() =~= all.take(i as int));
                        assert(all.take(i + 1).last() == u@);
                        assert(all[i as int] == u@);
                    }
                    let seen = contains_string(visited, u);
                    proof {
                        let w = seq_views(visited@);
                        if v0.contains(u@) {
                            let j0 = choose|j: int| 0 <= j < v0.len() && v0[j] == u@;
                            assert(w[j0] == u@);
                        } else if seen {
                            // u@ would then be among the URLs added so far
                            let j = choose|j: int| 0 <= j < w.len() && w[j] == u@;
                            assert(j >= v0.len());
                            assert(seq_views(out@)[j - v0.len()] == u@);
                            assert(seq_views(out@).contains(u@));
                            lemma_unvisited_sub(all.take(i as int), v0, u@);
                            let k = choose|k: int| 0 <= k < all.take(i as int).len() && all.take(i as int)[k] == u@;
                            assert(all[k] == all[i as int]);
                        }
                    }
                    if !seen {
                        let ghost bo = out@;
                        let ghost bv = visited@;
                        visited.push(u.clone());
                        out.push(u.clone());
                        proof {
                            assert(seq_views(out@) =~= seq_views(bo).push(u@));
                            assert(seq_views(visited@) =~= seq_views(bv).push(u@));
                            assert(seq_views(visited@) =~= v0 + seq_views(out@));
                        }
                    }
                    i = i + 1;
                }
                proof {
                    assert(all.take(n as int) =~= all);
                }
                Ok(out)
            },
        }
    }
}


/// Who a module is loaded for: a worker, or a script element of a window;
/// each with the global object it belongs to.
#[derive(Clone, Copy, PartialEq, Eq, Structural, Debug)]
pub enum ModuleOwner {
    Worker { worker: u64, global: u64 },
    Window { script: u64, global: u64 },
}

pub open spec fn owner_global(o: ModuleOwner) -> u64 {
    match o {
        ModuleOwner::Worker { global, .. } => global,
        ModuleOwner::Window { global, .. } => global,
    }
}

impl ModuleOwner {
    /// The global object of the owner.
    pub fn global(&self) -> (g: u64)
        ensures
            g == owner_global(*self),
    {
        match self {
            ModuleOwner::Worker { global, .. } => *global,
            ModuleOwner::Window { global, .. } => *global,
        }
    }
}

/// A promise reaction that runs its task once.
pub struct ModuleHandler<T> {
    task: Option<T>,
}

impl<T> ModuleHandler<T> {
    pub closed spec fn pending_task(&self) -> Option<T> {
        self.task
    }

    /// A handler that will run `task`.
    pub fn new(task: T) -> (h: ModuleHandler<T>)
        ensures
            h.pending_task() == Some(task),
    {
        ModuleHandler { task: Some(task) }
    }

    /// The promise settled: hands out the task to run; it runs only once.
    pub fn callback(&mut self) -> (task: T)
        requires
            old(self).pending_task() is Some,
        ensures
            task == old(self).pending_task()->0,
            final(self).pending_task() is None,
    {
        self.task.take().unwrap()
    }
}

/// What a request is for.
#[derive(Clone, Copy, PartialEq, Eq, Structural, Debug)]
pub enum Destination {
    Script,
    Worker,
    SharedWorker,
    Other,
}

#[derive(Clone, Copy, PartialEq, Eq, Structural, Debug)]
pub enum RequestMode {
    SameOrigin,
    NoCors,
}

#[derive(Clone, Copy, PartialEq, Eq, Structural, Debug)]
pub enum Referrer {
    NoReferrer,
    Client,
}

#[derive(Clone, Copy, PartialEq, Eq, Structural, Debug)]
pub enum ParserMetadata {
    ParserInserted,
    NotParserInserted,
}

/// Work that the module algorithms hand to the script thread.
pub enum ModuleEffect {
    /// When `promise` settles, finish loading `url` for `owner`.
    AppendHandler { promise: u64, owner: ModuleOwner, url: String },
    /// Make promise `promise`; when it settles, finish loading `url` (the
    /// inline script for `None`) for `owner`.
    NewPromise { promise: u64, owner: ModuleOwner, finish_url: Option<String> },
    /// Fetch `url` for the owner's document.
    Fetch {
        url: String,
        destination: Destination,
        referrer: Referrer,
        parser_metadata: ParserMetadata,
        mode: RequestMode,
    },
    /// Resolve the promise.
    Resolve(u64),
    /// Make promise `promise`, already rejected or resolved.
    NewSettled { promise: u64, rejected: bool },
    /// Make promise `all` that waits for all of `promises`; when it settles,
    /// resolve (or reject) promise `then` alike.
    WaitForAll { all: u64, promises: Vec<u64>, then: u64 },
}

/// The request mode of a fetch: same-origin for a top-level worker script,
/// else no-cors.
pub open spec fn request_mode(destination: Destination, top_level: bool) -> RequestMode {
    if (destination == Destination::Worker || destination == Destination::SharedWorker) && top_level {
        RequestMode::SameOrigin
    } else {
        RequestMode::NoCors
    }
}

/// `t` is the tree that a new fetch of `url` puts in the module map.
pub open spec fn is_fetching_tree(t: ModuleTree, url: Seq<char>, promise: u64) -> bool {
    &&& t.wf()
    &&& t.url_view() == url
    &&& t.text_view() == Seq::<char>::empty()
    &&& t.record_view() is None
    &&& t.status_view() == ModuleStatus::Fetching
    &&& t.descendants() == Set::<Seq<char>>::empty()
    &&& t.error_view() is None
    &&& t.promise_view() == Some(promise)
}

pub open spec fn is_append_handler(e: ModuleEffect, p: u64, owner: ModuleOwner, url: Seq<char>) -> bool {
    e matches ModuleEffect::AppendHandler { promise, owner: o, url: u } && promise == p && o == owner
        && u@ == url
}

pub open spec fn is_new_promise(e: ModuleEffect, p: u64, owner: ModuleOwner, url: Option<Seq<char>>) -> bool {
    e matches ModuleEffect::NewPromise { promise, owner: o, finish_url: u } && promise == p && o == owner
        && match (u, url) {
        (Some(a), Some(b)) => a@ == b,
        (None, None) => true,
        _ => false,
    }
}

pub open spec fn is_fetch(
    e: ModuleEffect,
    url: Seq<char>,
    destination: Destination,
    referrer: Referrer,
    parser_metadata: ParserMetadata,
    mode: RequestMode,
) -> bool {
    e matches ModuleEffect::Fetch { url: u, destination: d, referrer: r, parser_metadata: pm, mode: md }
        && u@ == url && d == destination && r == referrer && pm == parser_metadata && md == mode
}

/// Whether a fetch of a module in the map with this status waits for (or
/// reuses) the fetch under way.
pub open spec fn reuses_fetch(s: ModuleStatus) -> bool {
    s == ModuleStatus::Fetching || s == ModuleStatus::FetchingDescendants || s
        == ModuleStatus::Finished
}

/// The effects of a new fetch of `url`: the new promise, and the fetch
/// itself when the owner is a script element of a window.
pub open spec fn new_fetch_effects(
    es: Seq<ModuleEffect>,
    owner: ModuleOwner,
    url: Seq<char>,
    destination: Destination,
    referrer: Referrer,
    parser_metadata: ParserMetadata,
    top_level: bool,
    new_promise: u64,
) -> bool {
    &&& es.len() == if owner is Window { 2int } else { 1int }
    &&& is_new_promise(es[0], new_promise, owner, Some(url))
    &&& owner is Window ==> is_fetch(
        es[1],
        url,
        destination,
        referrer,
        parser_metadata,
        request_mode(destination, top_level),
    )
}

impl ModuleMap {
    /// Fetching a single module script: a module already in the map gets a
    /// handler appended to its promise; when it is being fetched (or its
    /// descendants are) or is finished, its promise is the result. Otherwise
    /// a new tree for `url`, being fetched, with promise `new_promise`, takes
    /// its place, and the fetch starts (for a window's script element).
    pub fn fetch_single_module_script(
        &mut self,
        owner: ModuleOwner,
        url: String,
        destination: Destination,
        referrer: Referrer,
        parser_metadata: ParserMetadata,
        top_level_module_fetch: bool,
        new_promise: u64,
    ) -> (r: (u64, Vec<ModuleEffect>))
        requires
            old(self).wf(),
            old(self).view_map().contains_key(url@) ==> old(self).view_map()[url@].promise_view() is Some,
        ensures
            final(self).wf(),
            ({
                let m = old(self).view_map();
                if m.contains_key(url@) && reuses_fetch(m[url@].status_view()) {
                    &&& r.0 == m[url@].promise_view()->0
                    &&& r.1@.len() == 1
                    &&& is_append_handler(r.1@[0], r.0, owner, url@)
                    &&& final(self).view_map() == m
                } else {
                    let k: int = if m.contains_key(url@) { 1 } else { 0 };
                    &&& r.0 == new_promise
                    &&& m.contains_key(url@) ==> is_append_handler(
                        r.1@[0],
                        m[url@].promise_view()->0,
                        owner,
                        url@,
                    )
                    &&& r.1@.len() >= k
                    &&& new_fetch_effects(
                        r.1@.skip(k),
                        owner,
                        url@,
                        destination,
                        referrer,
                        parser_metadata,
                        top_level_module_fetch,
                        new_promise,
                    )
                    &&& final(self).view_map().contains_key(url@)
                    &&& is_fetching_tree(final(self).view_map()[url@], url@, new_promise)
                    &&& final(self).view_map().remove(url@) == m.remove(url@)
                }
            }),
    {
        let mut effects: Vec<ModuleEffect> = Vec::new();
        // Step 1.
        match self.get(&url) {
            Some(tree) => {
                let status = tree.get_status();
                let promise = tree.get_promise().unwrap();
                effects.push(ModuleEffect::AppendHandler { promise, owner, url: url.clone() });
                // Step 2 and 3.
                if status == ModuleStatus::Fetching || status == ModuleStatus::FetchingDescendants
                    || status == ModuleStatus::Finished {
                    return (promise, effects);
                }
            },
            None => {},
        }
        let ghost k: int = effects@.len() as int;
        let mut module_tree = ModuleTree::new(url.clone());
        module_tree.set_status(ModuleStatus::Fetching);
        effects.push(ModuleEffect::NewPromise { promise: new_promise, owner, finish_url: Some(url.clone()) });
        module_tree.set_promise(new_promise);
        // Step 4.
        self.set(url.clone(), module_tree);
        // Step 5-6.
        let mode = match destination {
            Destination::Worker | Destination::SharedWorker => {
                if top_level_module_fetch {
                    RequestMode::SameOrigin
                } else {
                    RequestMode::NoCors
                }
            },
            _ => RequestMode::NoCors,
        };
        // Step 7-8.
        match owner {
            ModuleOwner::Window { .. } => {
                effects.push(
                    ModuleEffect::Fetch { url: url.clone(), destination, referrer, parser_metadata, mode },
                );
            },
            ModuleOwner::Worker { .. } => {},
        }
        proof {
            assert(self.view_map().remove(url@) =~= old(self).view_map().remove(url@));
        }
        (new_promise, effects)
    }
}


/// How the promise for one descendant was had.
pub enum DescendantFetch {
    /// The module is in the map with this promise; `resolve` tells whether
    /// the promise is resolved now.
    Existing { promise: u64, resolve: bool },
    /// The module is in the map without a promise: a new promise, settled
    /// (rejected when the module has an error).
    Settled { promise: u64, rejected: bool },
    /// The module is fetched anew (see `fetch_single_module_script`).
    Fetched { promise: u64, effects: Vec<ModuleEffect> },
}

/// The module at `d` in `m` has got as far as fetching its descendants.
pub open spec fn reached_descendants(m: Map<Seq<char>, ModuleTree>, d: Seq<char>) -> bool {
    m.contains_key(d) && status_rank(m[d].status_view()) >= status_rank(
        ModuleStatus::FetchingDescendants,
    )
}

/// Whether a module in the map whose promise is `p` has its promise
/// resolved when it is met again as a descendant: when it failed or is
/// finished, or when it and all its descendants (those not in the map count
/// as not there yet) are fetching their descendants.
pub open spec fn resolves_again(m: Map<Seq<char>, ModuleTree>, t: ModuleTree) -> bool {
    match t.status_view() {
        ModuleStatus::Initial | ModuleStatus::Fetching => false,
        ModuleStatus::FetchingDescendants => forall|d: Seq<char>| #[trigger]
            t.descendants().contains(d) ==> reached_descendants(m, d),
        ModuleStatus::FetchFailed | ModuleStatus::Finished => true,
    }
}

/// `f` is how the descendant `u` is had, given the module map `m` before and
/// the promise `fresh` for a new promise.
pub open spec fn descendant_fetch_is(
    m: Map<Seq<char>, ModuleTree>,
    owner: ModuleOwner,
    destination: Destination,
    u: Seq<char>,
    fresh: u64,
    f: DescendantFetch,
) -> bool {
    if m.contains_key(u) {
        match m[u].promise_view() {
            Some(p) => f == DescendantFetch::Existing { promise: p, resolve: resolves_again(m, m[u]) },
            None => f == DescendantFetch::Settled { promise: fresh, rejected: m[u].error_view() is Some },
        }
    } else {
        f matches DescendantFetch::Fetched { promise, effects } && promise == fresh
            && new_fetch_effects(
            effects@,
            owner,
            u,
            destination,
            Referrer::Client,
            ParserMetadata::NotParserInserted,
            true,
            fresh,
        )
    }
}

/// `f` is how the descendant `u` was had, stated over the module map `m`
/// after the descendants were fetched; `was_present` tells whether `u` was
/// in the map before.
pub open spec fn descendant_fetched(
    m: Map<Seq<char>, ModuleTree>,
    was_present: bool,
    owner: ModuleOwner,
    destination: Destination,
    u: Seq<char>,
    fresh: u64,
    f: DescendantFetch,
) -> bool {
    if was_present {
        match m[u].promise_view() {
            Some(p) => f == DescendantFetch::Existing { promise: p, resolve: resolves_again(m, m[u]) },
            None => f == DescendantFetch::Settled { promise: fresh, rejected: m[u].error_view() is Some },
        }
    } else {
        &&& f matches DescendantFetch::Fetched { promise, effects } && promise == fresh
            && new_fetch_effects(
            effects@,
            owner,
            u,
            destination,
            Referrer::Client,
            ParserMetadata::NotParserInserted,
            true,
            fresh,
        )
        &&& m.contains_key(u)
        &&& is_fetching_tree(m[u], u, fresh)
    }
}

impl ModuleMap {
    /// Whether every descendant of `tree` is in the map and fetching its
    /// descendants, failed or finished.
    fn all_reached_descendants(&self, tree: &ModuleTree) -> (b: bool)
        requires
            self.wf(),
        ensures
            b == forall|d: Seq<char>| #[trigger]
                tree.descendants().contains(d) ==> reached_descendants(self.view_map(), d),
    {
        let urls = tree.get_descendant_urls();
        let ghost ds = tree.descendant_seq();
        let n = urls.len();
        let mut i: usize = 0;
        while i < n
            invariant
                n == urls@.len(),
                seq_views(urls@) == ds,
                ds == tree.descendant_seq(),
                i <= n,
                self.wf(),
                forall|j: int| 0 <= j < i ==> reached_descendants(self.view_map(), #[trigger] ds[j]),
            decreases n - i,
        {
            proof {
                assert(ds[i as int] == urls@[i as int]@);
            }
            let ok = match self.status_of(&urls[i]) {
                Some(s) => !s.is_before(&ModuleStatus::FetchingDescendants),
                None => false,
            };
            if !ok {
                proof {
                    assert(ds.contains(ds[i as int]));
                    assert(tree.descendants().contains(ds[i as int]));
                }
                return false;
            }
            i = i + 1;
        }
        proof {
            assert forall|d: Seq<char>| #[trigger]
                tree.descendants().contains(d) implies reached_descendants(self.view_map(), d) by {
                let j = choose|j: int| 0 <= j < ds.len() && ds[j] == d;
                assert(reached_descendants(self.view_map(), ds[j]));
            }
        }
        true
    }

    /// The loop of fetching the descendants of a module: for each requested
    /// URL (not visited before), how its promise is had (see
    /// [`descendant_fetch_is`]); the `k`-th new promise is
    /// `first_new_promise + k`. Modules fetched anew join the map.
    pub fn fetch_requested_urls(
        &mut self,
        owner: ModuleOwner,
        requested: &Vec<String>,
        destination: Destination,
        first_new_promise: u64,
    ) -> (r: Vec<DescendantFetch>)
        requires
            old(self).wf(),
            seq_views(requested@).no_duplicates(),
            first_new_promise + requested@.len() <= u64::MAX,
        ensures
            final(self).wf(),
            r@.len() == requested@.len(),
            forall|k: int|
                0 <= k < r@.len() ==> descendant_fetch_is(
                    old(self).view_map(),
                    owner,
                    destination,
                    #[trigger] requested@[k]@,
                    (first_new_promise + k) as u64,
                    r@[k],
                ),
            forall|u: Seq<char>| #[trigger]
                old(self).view_map().contains_key(u) ==> final(self).view_map().contains_key(u)
                    && final(self).view_map()[u] == old(self).view_map()[u],
            forall|k: int|
                0 <= k < requested@.len() && !old(self).view_map().contains_key(
                    #[trigger] requested@[k]@,
                ) ==> final(self).view_map().contains_key(requested@[k]@) && is_fetching_tree(
                    final(self).view_map()[requested@[k]@],
                    requested@[k]@,
                    (first_new_promise + k) as u64,
                ),
            forall|u: Seq<char>| #[trigger]
                final(self).view_map().contains_key(u) ==> old(self).view_map().contains_key(u)
                    || seq_views(requested@).contains(u),
            forall|k: int|
                0 <= k < r@.len() ==> descendant_fetched(
                    final(self).view_map(),
                    old(self).view_map().contains_key(requested@[k]@),
                    owner,
                    destination,
                    #[trigger] requested@[k]@,
                    (first_new_promise + k) as u64,
                    r@[k],
                ),
    {
        let ghost m1 = self.view_map();
        let ghost rs = seq_views(requested@);
        let n = requested.len();
        let mut out: Vec<DescendantFetch> = Vec::new();
        let mut i: usize = 0;
        while i < n
            invariant
                n == requested@.len(),
                rs == seq_views(requested@),
                rs.no_duplicates(),
                first_new_promise + n <= u64::MAX,
                i <= n,
                self.wf(),
                out@.len() == i,
                forall|k: int|
                    0 <= k < i ==> descendant_fetch_is(
                        m1,
                        owner,
                        destination,
                        #[trigger] requested@[k]@,
                        (first_new_promise + k) as u64,
                        out@[k],
                    ),
                forall|u: Seq<char>| #[trigger]
                    m1.contains_key(u) ==> self.view_map().contains_key(u) && self.view_map()[u]
                        == m1[u],
                forall|k: int|
                    0 <= k < i && !m1.contains_key(#[trigger] requested@[k]@)
                        ==> self.view_map().contains_key(requested@[k]@) && is_fetching_tree(
                        self.view_map()[requested@[k]@],
                        requested@[k]@,
                        (first_new_promise + k) as u64,
                    ),
                forall|u: Seq<char>| #[trigger]
                    self.view_map().contains_key(u) ==> m1.contains_key(u) || exists|k: int|
                        0 <= k < i && rs[k] == u,
            decreases n - i,
        {
            let u = &requested[i];
            let fresh: u64 = first_new_promise + i as u64;
            proof {
                assert(rs[i as int] == u@);
                // the URL was not fetched anew earlier in this loop
                if !m1.contains_key(u@) && self.view_map().contains_key(u@) {
                    let k = choose|k: int| 0 <= k < i && rs[k] == u@;
                    assert(rs[k] == rs[i as int]);
                }
            }
            let f = match self.get(u) {
                Some(tree) => {
                    match tree.get_promise() {
                        Some(p) => {
                            let resolve = match tree.get_status() {
                                ModuleStatus::Initial | ModuleStatus::Fetching => false,
                                ModuleStatus::FetchingDescendants => self.all_reached_descendants(tree),
                                ModuleStatus::FetchFailed | ModuleStatus::Finished => true,
                            };
                            proof {
                                let cur = self.view_map();
                                // new trees are fetching, so they count as not there
                                assert forall|d: Seq<char>| #[trigger]
                                    reached_descendants(cur, d) == reached_descendants(m1, d) by {
                                    if cur.contains_key(d) && !m1.contains_key(d) {
                                        let k = choose|k: int| 0 <= k < i && rs[k] == d;
                                        assert(requested@[k]@ == d);
                                        assert(is_fetching_tree(cur[requested@[k]@], requested@[k]@, (first_new_promise + k) as u64));
                                    }
                                }
                            }
                            DescendantFetch::Existing { promise: p, resolve }
                        },
                        None => DescendantFetch::Settled { promise: fresh, rejected: tree.get_error().is_some() },
                    }
                },
                None => {
                    let ghost before = self.view_map();
                    let (p, effects) = self.fetch_single_module_script(
                        owner,
                        u.clone(),
                        destination,
                        Referrer::Client,
                        ParserMetadata::NotParserInserted,
                        true,
                        fresh,
                    );
                    proof {
                        assert(effects@.skip(0) =~= effects@);
                        assert(!before.contains_key(u@));
                        assert forall|w: Seq<char>| #[trigger]
                            before.contains_key(w) implies self.view_map().contains_key(w)
                                && self.view_map()[w] == before[w] by {
                            assert(w != u@);
                            assert(before.remove(u@).contains_key(w));
                            assert(self.view_map().remove(u@).contains_key(w));
                            assert(self.view_map().remove(u@)[w] == before.remove(u@)[w]);
                        }
                        assert forall|w: Seq<char>| #[trigger]
                            self.view_map().contains_key(w) implies before.contains_key(w) || w == u@ by {
                            if w != u@ {
                                assert(self.view_map().remove(u@).contains_key(w));
                            }
                        }
                    }
                    DescendantFetch::Fetched { promise: p, effects }
                },
            };
            out.push(f);
            proof {
                assert forall|k: int|
                    0 <= k < i + 1 && !m1.contains_key(#[trigger] requested@[k]@)
                        implies self.view_map().contains_key(requested@[k]@) && is_fetching_tree(
                        self.view_map()[requested@[k]@],
                        requested@[k]@,
                        (first_new_promise + k) as u64,
                    ) by {
                    if k < i {
                        assert(rs[k] != rs[i as int]);
                    }
                }
                assert forall|w: Seq<char>| #[trigger]
                    self.view_map().contains_key(w) implies m1.contains_key(w) || exists|k: int|
                        0 <= k < i + 1 && rs[k] == w by {
                    if !m1.contains_key(w) && w == u@ {
                        assert(rs[i as int] == w);
                    }
                }
            }
            i = i + 1;
        }
        proof {
            assert forall|w: Seq<char>| #[trigger]
                self.view_map().contains_key(w) implies m1.contains_key(w) || rs.contains(w) by {
                if !m1.contains_key(w) {
                    let k = choose|k: int| 0 <= k < n && rs[k] == w;
                    assert(rs[k] == w);
                }
            }
            let fm = self.view_map();
            assert forall|d: Seq<char>| #[trigger] reached_descendants(fm, d) == reached_descendants(m1, d) by {
                if fm.contains_key(d) && !m1.contains_key(d) {
                    let k = choose|k: int| 0 <= k < n && rs[k] == d;
                    assert(requested@[k]@ == d);
                    assert(is_fetching_tree(fm[requested@[k]@], requested@[k]@, (first_new_promise + k) as u64));
                }
            }
            assert forall|k: int| 0 <= k < out@.len() implies descendant_fetched(
                    fm,
                    m1.contains_key(requested@[k]@),
                    owner,
                    destination,
                    #[trigger] requested@[k]@,
                    (first_new_promise + k) as u64,
                    out@[k],
                ) by {
                let u = requested@[k]@;
                assert(descendant_fetch_is(m1, owner, destination, u, (first_new_promise + k) as u64, out@[k]));
                if m1.contains_key(u) {
                    assert(fm[u] == m1[u]);
                    assert(resolves_again(fm, fm[u]) == resolves_again(m1, m1[u]));
                }
            }
        }
        out
    }
}


impl ModuleTree {
    /// The first steps of fetching the descendants of this module: its status
    /// becomes `FetchingDescendants`, its requested modules are resolved (see
    /// [`ModuleTree::resolve_requested_modules`]) and the new ones become
    /// its descendants.
    pub fn start_descendants(
        &mut self,
        specifiers: &Vec<String>,
        base_url: &String,
        visited: &mut Vec<String>,
    ) -> (r: Result<Vec<String>, ModuleError>)
        requires
            old(self).wf(),
            old(self).record_view() is Some,
        ensures
            final(self).wf(),
            final(self).status_view() == ModuleStatus::FetchingDescendants,
            final(self).url_view() == old(self).url_view(),
            final(self).text_view() == old(self).text_view(),
            final(self).record_view() == old(self).record_view(),
            final(self).error_view() == old(self).error_view(),
            final(self).promise_view() == old(self).promise_view(),
            match r {
                Ok(urls) => {
                    &&& resolved_all(base_url@, seq_views(specifiers@)) is Some
                    &&& seq_views(urls@) == unvisited(
                        resolved_all(base_url@, seq_views(specifiers@))->0,
                        seq_views(old(visited)@),
                    )
                    &&& seq_views(urls@).no_duplicates()
                    &&& seq_views(final(visited)@) == seq_views(old(visited)@) + seq_views(urls@)
                    &&& final(self).descendants() == old(self).descendants() + seq_views(urls@).to_set()
                },
                Err(e) => {
                    &&& resolved_all(base_url@, seq_views(specifiers@)) is None
                    &&& e matches ModuleError::RawException(ExceptionValue::TypeError(m))
                        && m@ == msg_wrong_specifier()
                    &&& final(visited)@ == old(visited)@
                    &&& final(self).descendants() == old(self).descendants()
                },
            },
    {
        self.set_status(ModuleStatus::FetchingDescendants);
        let requested = self.resolve_requested_modules(specifiers, base_url, visited);
        match requested {
            Ok(urls) => {
                proof {
                    lemma_resolved_all_distinct(base_url@, seq_views(specifiers@));
                    lemma_unvisited_distinct(
                        resolved_all(base_url@, seq_views(specifiers@))->0,
                        seq_views(old(visited)@),
                    );
                }
                self.append_descendant_urls(&urls);
                Ok(urls)
            },
            Err(e) => Err(e),
        }
    }
}

proof fn lemma_unvisited_distinct(urls: Seq<Seq<char>>, visited: Seq<Seq<char>>)
    requires
        urls.no_duplicates(),
    ensures
        unvisited(urls, visited).no_duplicates(),
    decreases urls.len(),
{
    if urls.len() > 0 {
        let init = urls.drop_last();
        assert(init.no_duplicates()) by {
            assert forall|a: int, b: int| 0 <= a < init.len() && 0 <= b < init.len() && a != b implies init[a] != init[b] by {
                assert(init[a] == urls[a]);
                assert(init[b] == urls[b]);
            }
        }
        lemma_unvisited_distinct(init, visited);
        let r = unvisited(init, visited);
        if !visited.contains(urls.last()) {
            let s = r.push(urls.last());
            assert forall|a: int, b: int| 0 <= a < s.len() && 0 <= b < s.len() && a != b implies s[a] != s[b] by {
                if a < r.len() && b < r.len() {
                    assert(s[a] == r[a]);
                    assert(s[b] == r[b]);
                } else if s[a] == s[b] {
                    let o = if a == r.len() { b } else { a };
                    assert(s[o] == r[o]);
                    assert(r.contains(s[o]));
                    lemma_unvisited_sub(init, visited, s[o]);
                    let j = choose|j: int| 0 <= j < init.len() && init[j] == s[o];
                    assert(urls[j] == urls[urls.len() - 1]);
                }
            }
        }
    }
}

/// The promise of each way a descendant was had.
pub open spec fn fetch_promise(f: DescendantFetch) -> u64 {
    match f {
        DescendantFetch::Existing { promise, .. } => promise,
        DescendantFetch::Settled { promise, .. } => promise,
        DescendantFetch::Fetched { promise, .. } => promise,
    }
}

/// Links the descendants of a module (steps 1 to 3 of fetching the
/// descendants of and linking a module script): with descendants, a new
/// promise `all_promise` waits for all their promises and then settles the
/// module's promise `tree_promise` alike; it is returned with that effect.
pub fn link_descendants(descendants: &Vec<DescendantFetch>, tree_promise: u64, all_promise: u64) -> (r: Option<(u64, ModuleEffect)>)
    ensures
        descendants@.len() == 0 <==> r is None,
        r matches Some(x) ==> x.0 == all_promise && (x.1 matches ModuleEffect::WaitForAll { all, promises, then }
            && all == all_promise && then == tree_promise && promises@ == descendants@.map_values(
            |f: DescendantFetch| fetch_promise(f),
        )),
{
    if descendants.len() == 0 {
        return None;
    }
    let mut promises: Vec<u64> = Vec::new();
    let n = descendants.len();
    let mut i: usize = 0;
    while i < n
        invariant
            n == descendants@.len(),
            i <= n,
            promises@ == descendants@.take(i as int).map_values(|f: DescendantFetch| fetch_promise(f)),
        decreases n - i,
    {
        let p = match &descendants[i] {
            DescendantFetch::Existing { promise, .. } => *promise,
            DescendantFetch::Settled { promise, .. } => *promise,
            DescendantFetch::Fetched { promise, .. } => *promise,
        };
        promises.push(p);
        proof {
            assert(descendants@.take(i + 1).map_values(|f: DescendantFetch| fetch_promise(f)) =~= descendants@.take(i as int).map_values(|f: DescendantFetch| fetch_promise(f)).push(p));
        }
        i = i + 1;
    }
    proof {
        assert(descendants@.take(n as int) =~= descendants@);
    }
    Some((all_promise, ModuleEffect::WaitForAll { all: all_promise, promises, then: tree_promise }))
}


proof fn lemma_requested_len(base: Seq<char>, ss: Seq<Seq<char>>, visited: Seq<Seq<char>>)
    requires
        resolved_all(base, ss) is Some,
    ensures
        unvisited(resolved_all(base, ss)->0, visited).len() <= ss.len(),
    decreases ss.len(),
{
    lemma_resolved_len(base, ss);
    lemma_unvisited_len(resolved_all(base, ss)->0, visited);
}

proof fn lemma_resolved_len(base: Seq<char>, ss: Seq<Seq<char>>)
    requires
        resolved_all(base, ss) is Some,
    ensures
        resolved_all(base, ss)->0.len() <= ss.len(),
    decreases ss.len(),
{
    if ss.len() > 0 {
        lemma_resolved_len(base, ss.drop_last());
    }
}

proof fn lemma_unvisited_len(urls: Seq<Seq<char>>, visited: Seq<Seq<char>>)
    ensures
        unvisited(urls, visited).len() <= urls.len(),
    decreases urls.len(),
{
    if urls.len() > 0 {
        lemma_unvisited_len(urls.drop_last(), visited);
    }
}

/// The URLs that fetching the descendants of a module requests: those its
/// specifiers resolve to that were not visited (see
/// [`ModuleTree::resolve_requested_modules`]).
pub open spec fn requested_urls(base: Seq<char>, specifiers: Seq<Seq<char>>, visited: Seq<Seq<char>>) -> Seq<Seq<char>> {
    unvisited(resolved_all(base, specifiers)->0, visited)
}

/// What fetching the descendants of a module and linking them did, stated
/// over the module map `m` after it: `r.0` is the link (see
/// [`link_descendants`]), `r.1` how each requested URL was had.
pub open spec fn descendants_linked(
    m: Map<Seq<char>, ModuleTree>,
    was_present: spec_fn(Seq<char>) -> bool,
    owner: ModuleOwner,
    destination: Destination,
    req: Seq<Seq<char>>,
    first_new_promise: u64,
    tree_promise: u64,
    all_promise: u64,
    r: (Option<(u64, ModuleEffect)>, Vec<DescendantFetch>),
) -> bool {
    &&& r.1@.len() == req.len()
    &&& forall|k: int|
        0 <= k < req.len() ==> descendant_fetched(
            m,
            was_present(#[trigger] req[k]),
            owner,
            destination,
            req[k],
            (first_new_promise + k) as u64,
            r.1@[k],
        )
    &&& (req.len() == 0 <==> r.0 is None)
    &&& r.0 matches Some(x) ==> x.0 == all_promise && (x.1 matches ModuleEffect::WaitForAll { all, promises, then }
        && all == all_promise && then == tree_promise && promises@ == r.1@.map_values(
        |f: DescendantFetch| fetch_promise(f),
    ))
}

impl ModuleMap {
    /// Fetching the descendants of the module at `url` in the map, and
    /// linking them (the fetch-the-descendants-of-and-link algorithm, steps
    /// 1-3): see [`ModuleTree::start_descendants`],
    /// [`ModuleMap::fetch_requested_urls`] and [`link_descendants`]. When the
    /// specifiers do not resolve, the module gets the error and nothing is
    /// fetched.
    pub fn fetch_module_descendants_and_link(
        &mut self,
        owner: ModuleOwner,
        url: &String,
        specifiers: &Vec<String>,
        base_url: &String,
        destination: Destination,
        visited: Vec<String>,
        first_new_promise: u64,
        all_promise: u64,
    ) -> (r: (Option<(u64, ModuleEffect)>, Vec<DescendantFetch>))
        requires
            old(self).wf(),
            old(self).view_map().contains_key(url@),
            old(self).view_map()[url@].record_view() is Some,
            old(self).view_map()[url@].promise_view() is Some,
            first_new_promise + specifiers@.len() <= u64::MAX,
        ensures
            final(self).wf(),
            ({
                let t0 = old(self).view_map()[url@];
                let m = final(self).view_map();
                let ok = resolved_all(base_url@, seq_views(specifiers@)) is Some;
                let req = requested_urls(base_url@, seq_views(specifiers@), seq_views(visited@));
                &&& m.contains_key(url@)
                &&& m[url@].status_view() == ModuleStatus::FetchingDescendants
                &&& m[url@].url_view() == t0.url_view()
                &&& m[url@].text_view() == t0.text_view()
                &&& m[url@].record_view() == t0.record_view()
                &&& m[url@].promise_view() == t0.promise_view()
                &&& if ok {
                    &&& m[url@].error_view() == t0.error_view()
                    &&& m[url@].descendants() == t0.descendants() + req.to_set()
                    &&& descendants_linked(
                        m,
                        |u: Seq<char>| old(self).view_map().contains_key(u),
                        owner,
                        destination,
                        req,
                        first_new_promise,
                        t0.promise_view()->0,
                        all_promise,
                        r,
                    )
                    &&& forall|u: Seq<char>| #[trigger]
                        old(self).view_map().contains_key(u) && u != url@ ==> m.contains_key(u)
                            && m[u] == old(self).view_map()[u]
                    &&& forall|u: Seq<char>| #[trigger]
                        m.contains_key(u) ==> old(self).view_map().contains_key(u) || req.contains(u)
                } else {
                    &&& m[url@].error_view() matches Some(ModuleError::RawException(ExceptionValue::TypeError(msg)))
                        && msg@ == msg_wrong_specifier()
                    &&& m[url@].descendants() == t0.descendants()
                    &&& r.0 is None
                    &&& r.1@.len() == 0
                    &&& m.remove(url@) == old(self).view_map().remove(url@)
                }
            }),
    {
        let ghost m0 = self.view_map();
        let mut tree = self.take(url).unwrap();
        let tree_promise = tree.get_promise().unwrap();
        let ghost v0 = seq_views(visited@);
        let mut visited = visited;
        let started = tree.start_descendants(specifiers, base_url, &mut visited);
        match started {
            Err(e) => {
                tree.set_error(Some(e));
                self.set(url.clone(), tree);
                proof {
                    assert(self.view_map().remove(url@) =~= m0.remove(url@));
                }
                (None, Vec::new())
            },
            Ok(urls) => {
                proof {
                    lemma_requested_len(base_url@, seq_views(specifiers@), v0);
                }
                self.set(url.clone(), tree);
                let ghost mid = self.view_map();
                proof {
                    assert forall|u: Seq<char>| mid.contains_key(u) == m0.contains_key(u) by {}
                }
                let descs = self.fetch_requested_urls(owner, &urls, destination, first_new_promise);
                let link = link_descendants(&descs, tree_promise, all_promise);
                proof {
                    let m = self.view_map();
                    let req = seq_views(urls@);
                    assert forall|k: int| 0 <= k < req.len() implies descendant_fetched(
                            m,
                            m0.contains_key(#[trigger] req[k]),
                            owner,
                            destination,
                            req[k],
                            (first_new_promise + k) as u64,
                            descs@[k],
                        ) by {
                        assert(req[k] == urls@[k]@);
                        assert(mid.contains_key(urls@[k]@) == m0.contains_key(urls@[k]@));
                    }
                    assert forall|u: Seq<char>| #[trigger]
                        m.contains_key(u) implies m0.contains_key(u) || req.contains(u) by {
                        if !mid.contains_key(u) {
                            assert(seq_views(urls@).contains(u));
                        }
                    }
                    assert forall|u: Seq<char>| #[trigger]
                        m0.contains_key(u) && u != url@ implies m.contains_key(u) && m[u] == m0[u] by {
                        assert(mid.contains_key(u));
                        assert(mid[u] == m0[u]);
                    }
                }
                (link, descs)
            },
        }
    }
}


/// What compiling a module script gives, given what the script engine's
/// compilation gave (`compiled`: the record, or the exception thrown): the
/// record, unless compilation threw or one of the requested specifiers does
/// not resolve.
pub open spec fn compile_result(
    compiled: Result<u64, ExceptionValue>,
    specifiers: Seq<Seq<char>>,
    base_url: Seq<char>,
    r: Result<u64, ModuleError>,
) -> bool {
    match compiled {
        Err(x) => r == Err::<u64, ModuleError>(ModuleError::RawException(x)),
        Ok(rec) => if resolved_all(base_url, specifiers) is Some {
            r == Ok::<u64, ModuleError>(rec)
        } else {
            r matches Err(ModuleError::RawException(ExceptionValue::TypeError(m))) && m@
                == msg_wrong_specifier()
        },
    }
}

impl ModuleTree {
    /// Creating a module script, steps 7-11 (see [`compile_result`]).
    pub fn compile_module_script(
        &self,
        compiled: Result<u64, ExceptionValue>,
        specifiers: &Vec<String>,
        base_url: &String,
    ) -> (r: Result<u64, ModuleError>)
        ensures
            compile_result(compiled, seq_views(specifiers@), base_url@, r),
    {
        match compiled {
            Err(x) => Err(ModuleError::RawException(x)),
            Ok(rec) => match self.resolve_requested_module_specifiers(specifiers, base_url) {
                Ok(_) => Ok(rec),
                Err(e) => Err(e),
            },
        }
    }
}

impl ModuleMap {
    /// Fetching the descendants of a module that is not in the map (an
    /// inline module), and linking them; as
    /// [`ModuleMap::fetch_module_descendants_and_link`].
    pub fn fetch_tree_descendants_and_link(
        &mut self,
        owner: ModuleOwner,
        tree: &mut ModuleTree,
        specifiers: &Vec<String>,
        base_url: &String,
        destination: Destination,
        visited: Vec<String>,
        first_new_promise: u64,
        all_promise: u64,
    ) -> (r: (Option<(u64, ModuleEffect)>, Vec<DescendantFetch>))
        requires
            old(self).wf(),
            old(tree).wf(),
            old(tree).record_view() is Some,
            old(tree).promise_view() is Some,
            first_new_promise + specifiers@.len() <= u64::MAX,
        ensures
            final(self).wf(),
            final(tree).wf(),
            final(tree).status_view() == ModuleStatus::FetchingDescendants,
            final(tree).url_view() == old(tree).url_view(),
            final(tree).text_view() == old(tree).text_view(),
            final(tree).record_view() == old(tree).record_view(),
            final(tree).promise_view() == old(tree).promise_view(),
            ({
                let m = final(self).view_map();
                let req = requested_urls(base_url@, seq_views(specifiers@), seq_views(visited@));
                if resolved_all(base_url@, seq_views(specifiers@)) is Some {
                    &&& final(tree).error_view() == old(tree).error_view()
                    &&& final(tree).descendants() == old(tree).descendants() + req.to_set()
                    &&& descendants_linked(
                        m,
                        |u: Seq<char>| old(self).view_map().contains_key(u),
                        owner,
                        destination,
                        req,
                        first_new_promise,
                        old(tree).promise_view()->0,
                        all_promise,
                        r,
                    )
                    &&& forall|u: Seq<char>| #[trigger]
                        old(self).view_map().contains_key(u) ==> m.contains_key(u) && m[u] == old(
                            self,
                        ).view_map()[u]
                    &&& forall|u: Seq<char>| #[trigger]
                        m.contains_key(u) ==> old(self).view_map().contains_key(u) || req.contains(u)
                } else {
                    &&& final(tree).error_view() matches Some(ModuleError::RawException(ExceptionValue::TypeError(msg)))
                        && msg@ == msg_wrong_specifier()
                    &&& final(tree).descendants() == old(tree).descendants()
                    &&& r.0 is None
                    &&& r.1@.len() == 0
                    &&& m == old(self).view_map()
                }
            }),
    {
        let tree_promise = tree.get_promise().unwrap();
        let ghost v0 = seq_views(visited@);
        let mut visited = visited;
        match tree.start_descendants(specifiers, base_url, &mut visited) {
            Err(e) => {
                tree.set_error(Some(e));
                (None, Vec::new())
            },
            Ok(urls) => {
                proof {
                    lemma_requested_len(base_url@, seq_views(specifiers@), v0);
                }
                let descs = self.fetch_requested_urls(owner, &urls, destination, first_new_promise);
                let link = link_descendants(&descs, tree_promise, all_promise);
                proof {
                    let req = seq_views(urls@);
                    assert forall|k: int| 0 <= k < req.len() implies descendant_fetched(
                            self.view_map(),
                            old(self).view_map().contains_key(#[trigger] req[k]),
                            owner,
                            destination,
                            req[k],
                            (first_new_promise + k) as u64,
                            descs@[k],
                        ) by {
                        assert(req[k] == urls@[k]@);
                    }
                }
                (link, descs)
            },
        }
    }
}


/// The inline module trees of a global, by script id.
pub struct InlineModuleMap {
    trees: StringMap<ModuleTree>,
}

impl InlineModuleMap {
    pub closed spec fn wf(&self) -> bool {
        &&& self.trees.wf()
        &&& forall|u: Seq<char>| #[trigger] self.trees@.contains_key(u) ==> self.trees@[u].wf()
    }

    pub closed spec fn view_map(&self) -> Map<Seq<char>, ModuleTree> {
        self.trees@
    }

    pub fn new() -> (m: InlineModuleMap)
        ensures
            m.wf(),
            m.view_map() == Map::<Seq<char>, ModuleTree>::empty(),
    {
        InlineModuleMap { trees: StringMap::new() }
    }

    pub fn get(&self, script_id: &String) -> (r: Option<&ModuleTree>)
        requires
            self.wf(),
        ensures
            match r {
                Some(t) => self.view_map().contains_key(script_id@) && *t == self.view_map()[script_id@]
                    && t.wf(),
                None => !self.view_map().contains_key(script_id@),
            },
    {
        self.trees.get(script_id)
    }

    pub fn set(&mut self, script_id: String, tree: ModuleTree)
        requires
            old(self).wf(),
            tree.wf(),
        ensures
            final(self).wf(),
            final(self).view_map() == old(self).view_map().insert(script_id@, tree),
    {
        self.trees.insert(script_id, tree);
    }

    pub fn take(&mut self, script_id: &String) -> (r: Option<ModuleTree>)
        requires
            old(self).wf(),
        ensures
            final(self).wf(),
            final(self).view_map() == old(self).view_map().remove(script_id@),
            match r {
                Some(t) => old(self).view_map().contains_key(script_id@) && t == old(
                    self,
                ).view_map()[script_id@] && t.wf(),
                None => !old(self).view_map().contains_key(script_id@),
            },
    {
        self.trees.remove(script_id)
    }
}

/// Fetching an inline module script graph: a new tree for `url` with
/// promise `new_promise` (which finishes the inline script when settled) is
/// compiled (see [`compile_result`]); compiled, its descendants are fetched
/// and linked (see [`ModuleMap::fetch_tree_descendants_and_link`]), else it
/// gets the error. The tree goes in the inline module map under
/// `script_id`; its promise is resolved unless it waits for descendants.
pub fn fetch_inline_module_script(
    module_map: &mut ModuleMap,
    inline_map: &mut InlineModuleMap,
    owner: ModuleOwner,
    url: String,
    script_id: String,
    compiled: Result<u64, ExceptionValue>,
    specifiers: &Vec<String>,
    base_url: &String,
    new_promise: u64,
    first_new_promise: u64,
    all_promise: u64,
) -> (r: (Vec<ModuleEffect>, Vec<DescendantFetch>))
    requires
        old(module_map).wf(),
        old(inline_map).wf(),
        first_new_promise + specifiers@.len() <= u64::MAX,
    ensures
        final(module_map).wf(),
        final(inline_map).wf(),
        final(inline_map).view_map().remove(script_id@) == old(inline_map).view_map().remove(script_id@),
        final(inline_map).view_map().contains_key(script_id@),
        ({
            let t = final(inline_map).view_map()[script_id@];
            let ok = compiled is Ok && resolved_all(base_url@, seq_views(specifiers@)) is Some;
            let req = requested_urls(base_url@, seq_views(specifiers@), Seq::empty());
            &&& t.wf()
            &&& t.url_view() == url@
            &&& t.text_view() == Seq::<char>::empty()
            &&& t.promise_view() == Some(new_promise)
            &&& r.0@.len() >= 1
            &&& is_new_promise(r.0@[0], new_promise, owner, None)
            &&& if ok {
                &&& t.record_view() == Some(compiled->Ok_0)
                &&& t.status_view() == ModuleStatus::FetchingDescendants
                &&& t.error_view() is None
                &&& t.descendants() == req.to_set()
                &&& r.1@.len() == req.len()
                &&& forall|k: int|
                    0 <= k < req.len() ==> descendant_fetched(
                        final(module_map).view_map(),
                        old(module_map).view_map().contains_key(#[trigger] req[k]),
                        owner,
                        Destination::Script,
                        req[k],
                        (first_new_promise + k) as u64,
                        r.1@[k],
                    )
                &&& forall|u: Seq<char>| #[trigger]
                    old(module_map).view_map().contains_key(u) ==> final(module_map).view_map().contains_key(u)
                        && final(module_map).view_map()[u] == old(module_map).view_map()[u]
                &&& forall|u: Seq<char>| #[trigger]
                    final(module_map).view_map().contains_key(u) ==> old(module_map).view_map().contains_key(u)
                        || req.contains(u)
                &&& r.0@.len() == 2
                &&& if req.len() == 0 {
                    r.0@[1] == ModuleEffect::Resolve(new_promise)
                } else {
                    r.0@[1] matches ModuleEffect::WaitForAll { all, promises, then } && all == all_promise
                        && then == new_promise && promises@ == r.1@.map_values(
                        |f: DescendantFetch| fetch_promise(f),
                    )
                }
            } else {
                &&& t.record_view() is None
                &&& t.status_view() == ModuleStatus::Initial
                &&& compile_result(compiled, seq_views(specifiers@), base_url@, Err(t.error_view()->0))
                &&& t.error_view() is Some
                &&& t.descendants() == Set::<Seq<char>>::empty()
                &&& r.1@.len() == 0
                &&& final(module_map).view_map() == old(module_map).view_map()
                &&& r.0@.len() == 2
                &&& r.0@[1] == ModuleEffect::Resolve(new_promise)
            }
        }),
{
    let mut effects: Vec<ModuleEffect> = Vec::new();
    let mut module_tree = ModuleTree::new(url);
    effects.push(ModuleEffect::NewPromise { promise: new_promise, owner, finish_url: None });
    module_tree.set_promise(new_promise);
    let compiled_module = module_tree.compile_module_script(compiled, specifiers, base_url);
    match compiled_module {
        Ok(record) => {
            module_tree.set_record(record);
            let no_visited: Vec<String> = Vec::new();
            proof {
                assert(seq_views(no_visited@) =~= Seq::<Seq<char>>::empty());
            }
            let (link, descs) = module_map.fetch_tree_descendants_and_link(
                owner,
                &mut module_tree,
                specifiers,
                base_url,
                Destination::Script,
                no_visited,
                first_new_promise,
                all_promise,
            );
            proof {
                assert(module_tree.descendants() =~= requested_urls(base_url@, seq_views(specifiers@), Seq::empty()).to_set());
            }
            inline_map.set(script_id, module_tree);
            match link {
                Some((_all, wait)) => {
                    effects.push(wait);
                },
                None => {
                    effects.push(ModuleEffect::Resolve(new_promise));
                },
            }
            proof {
                assert(inline_map.view_map().remove(script_id@) =~= old(inline_map).view_map().remove(script_id@));
            }
            (effects, descs)
        },
        Err(exception) => {
            module_tree.set_error(Some(exception));
            inline_map.set(script_id, module_tree);
            effects.push(ModuleEffect::Resolve(new_promise));
            proof {
                assert(inline_map.view_map().remove(script_id@) =~= old(inline_map).view_map().remove(script_id@));
            }
            (effects, Vec::new())
        },
    }
}


/// Fetching an external module script tree: a single fetch of `url`, with
/// the client as referrer, not parser-inserted, as a top-level fetch.
pub fn fetch_external_module_script(
    module_map: &mut ModuleMap,
    owner: ModuleOwner,
    url: String,
    destination: Destination,
    new_promise: u64,
) -> (r: (u64, Vec<ModuleEffect>))
    requires
        old(module_map).wf(),
        old(module_map).view_map().contains_key(url@) ==> old(module_map).view_map()[url@].promise_view() is Some,
    ensures
        final(module_map).wf(),
        ({
            let m = old(module_map).view_map();
            if m.contains_key(url@) && reuses_fetch(m[url@].status_view()) {
                &&& r.0 == m[url@].promise_view()->0
                &&& r.1@.len() == 1
                &&& is_append_handler(r.1@[0], r.0, owner, url@)
                &&& final(module_map).view_map() == m
            } else {
                let k: int = if m.contains_key(url@) { 1 } else { 0 };
                &&& r.0 == new_promise
                &&& m.contains_key(url@) ==> is_append_handler(
                    r.1@[0],
                    m[url@].promise_view()->0,
                    owner,
                    url@,
                )
                &&& r.1@.len() >= k
                &&& new_fetch_effects(
                    r.1@.skip(k),
                    owner,
                    url@,
                    destination,
                    Referrer::Client,
                    ParserMetadata::NotParserInserted,
                    true,
                    new_promise,
                )
                &&& final(module_map).view_map().contains_key(url@)
                &&& is_fetching_tree(final(module_map).view_map()[url@], url@, new_promise)
                &&& final(module_map).view_map().remove(url@) == m.remove(url@)
            }
        }),
{
    module_map.fetch_single_module_script(
        owner,
        url,
        destination,
        Referrer::Client,
        ParserMetadata::NotParserInserted,
        true,
        new_promise,
    )
}

/// The internal module script graph fetching procedure: `url` must have
/// been visited; then a single fetch of it.
pub fn perform_internal_module_script_fetch(
    module_map: &mut ModuleMap,
    owner: ModuleOwner,
    url: String,
    destination: Destination,
    visited: &Vec<String>,
    referrer: Referrer,
    parser_metadata: ParserMetadata,
    top_level_module_fetch: bool,
    new_promise: u64,
) -> (r: (u64, Vec<ModuleEffect>))
    requires
        old(module_map).wf(),
        seq_views(visited@).contains(url@),
        old(module_map).view_map().contains_key(url@) ==> old(module_map).view_map()[url@].promise_view() is Some,
    ensures
        final(module_map).wf(),
        ({
            let m = old(module_map).view_map();
            if m.contains_key(url@) && reuses_fetch(m[url@].status_view()) {
                &&& r.0 == m[url@].promise_view()->0
                &&& r.1@.len() == 1
                &&& is_append_handler(r.1@[0], r.0, owner, url@)
                &&& final(module_map).view_map() == m
            } else {
                let k: int = if m.contains_key(url@) { 1 } else { 0 };
                &&& r.0 == new_promise
                &&& m.contains_key(url@) ==> is_append_handler(
                    r.1@[0],
                    m[url@].promise_view()->0,
                    owner,
                    url@,
                )
                &&& r.1@.len() >= k
                &&& new_fetch_effects(
                    r.1@.skip(k),
                    owner,
                    url@,
                    destination,
                    referrer,
                    parser_metadata,
                    top_level_module_fetch,
                    new_promise,
                )
                &&& final(module_map).view_map().contains_key(url@)
                &&& is_fetching_tree(final(module_map).view_map()[url@], url@, new_promise)
                &&& final(module_map).view_map().remove(url@) == m.remove(url@)
            }
        }),
{
    module_map.fetch_single_module_script(
        owner,
        url,
        destination,
        referrer,
        parser_metadata,
        top_level_module_fetch,
        new_promise,
    )
}

/// The decimal digits of `n`.
pub open spec fn decimal(n: nat) -> Seq<char>
    decreases n,
{
    if n < 10 {
        seq![digit_char(n)]
    } else {
        decimal(n / 10).push(digit_char(n % 10))
    }
}

pub open spec fn digit_char(d: nat) -> char {
    if d == 0 { '0' } else if d == 1 { '1' } else if d == 2 { '2' } else if d == 3 { '3' } else if d
        == 4 { '4' } else if d == 5 { '5' } else if d == 6 { '6' } else if d == 7 { '7' } else if d
        == 8 { '8' } else { '9' }
}

fn digit_str(d: u64) -> (s: &'static str)
    requires
        d < 10,
    ensures
        s@ == seq![digit_char(d as nat)],
{
    proof {
        reveal_strlit("0");
        reveal_strlit("1");
        reveal_strlit("2");
        reveal_strlit("3");
        reveal_strlit("4");
        reveal_strlit("5");
        reveal_strlit("6");
        reveal_strlit("7");
        reveal_strlit("8");
        reveal_strlit("9");
    }
    if d == 0 { "0" } else if d == 1 { "1" } else if d == 2 { "2" } else if d == 3 { "3" } else if d
        == 4 { "4" } else if d == 5 { "5" } else if d == 6 { "6" } else if d == 7 { "7" } else if d
        == 8 { "8" } else { "9" }
}

/// Appends the decimal digits of `n` to `s`.
pub(crate) fn push_decimal(s: &mut String, n: u64)
    ensures
        final(s)@ == old(s)@ + decimal(n as nat),
    decreases n,
{
    if n < 10 {
        s.append(digit_str(n));
    } else {
        push_decimal(s, n / 10);
        s.append(digit_str(n % 10));
    }
}

/// The decimal digits of a number are not empty and begin with a digit.
pub proof fn lemma_decimal_starts_with_digit(n: nat)
    ensures
        decimal(n).len() > 0,
        '0' <= decimal(n)[0] <= '9',
    decreases n,
{
    if n >= 10 {
        lemma_decimal_starts_with_digit(n / 10);
    }
}

/// The status of a response: an error when there is no HTTP status code
/// (code 0), none for codes 200 to 299, else the error "HTTP error code "
/// and the code.
pub open spec fn response_status(code: u16) -> Option<Seq<char>> {
    if code == 0 {
        Some("No http status code received"@)
    } else if 200 <= code <= 299 {
        None
    } else {
        Some("HTTP error code "@ + decimal(code as nat))
    }
}

/// What a response's metadata holds that module loading reads.
pub struct Metadata {
    pub final_url: String,
    pub charset: Option<String>,
    /// The HTTP status code, if any.
    pub status: Option<u16>,
}

/// Response metadata, unfiltered or filtered (with the metadata under the
/// filter).
pub enum FetchMetadata {
    Unfiltered(Metadata),
    Filtered(Metadata),
}

/// The state of loading one external module script.
pub struct ModuleContext {
    pub owner: ModuleOwner,
    pub data: Vec<u8>,
    pub metadata: Option<Metadata>,
    pub url: String,
    pub destination: Destination,
    /// `Err` with the network error's message when the request failed.
    pub status: Result<(), String>,
}

impl ModuleContext {
    /// The context of a new fetch of `url`.
    pub fn new(owner: ModuleOwner, url: String, destination: Destination) -> (c: ModuleContext)
        ensures
            c.owner == owner,
            c.url == url,
            c.destination == destination,
            c.data@.len() == 0,
            c.metadata is None,
            c.status is Ok,
    {
        ModuleContext { owner, data: Vec::new(), metadata: None, url, destination, status: Ok(()) }
    }

    /// The response's metadata arrived: it is kept, and the status follows
    /// its HTTP status code (see [`response_status`]; no metadata or no code
    /// counts as code 0).
    pub fn process_response(&mut self, metadata: Result<FetchMetadata, String>)
        ensures
            final(self).owner == old(self).owner,
            final(self).url == old(self).url,
            final(self).destination == old(self).destination,
            final(self).data == old(self).data,
            final(self).metadata == match metadata {
                Ok(FetchMetadata::Unfiltered(m)) => Some(m),
                Ok(FetchMetadata::Filtered(m)) => Some(m),
                Err(_) => None::<Metadata>,
            },
            ({
                let code: u16 = match final(self).metadata {
                    Some(m) => match m.status {
                        Some(c) => c,
                        None => 0,
                    },
                    None => 0,
                };
                match response_status(code) {
                    None => final(self).status is Ok,
                    Some(msg) => final(self).status matches Err(e) && e@ == msg,
                }
            }),
    {
        self.metadata = match metadata {
            Ok(FetchMetadata::Unfiltered(m)) => Some(m),
            Ok(FetchMetadata::Filtered(m)) => Some(m),
            Err(_) => None,
        };
        let status_code: u16 = match &self.metadata {
            Some(m) => match m.status {
                Some(c) => c,
                None => 0,
            },
            None => 0,
        };
        self.status = if status_code == 0 {
            Err(String::from_str("No http status code received"))
        } else if 200 <= status_code && status_code <= 299 {
            Ok(())
        } else {
            let mut msg = String::from_str("HTTP error code ");
            push_decimal(&mut msg, status_code as u64);
            Err(msg)
        };
    }

    /// A chunk of the body arrived: it is kept while the status is fine.
    pub fn process_response_chunk(&mut self, chunk: Vec<u8>)
        ensures
            final(self).data@ == if old(self).status is Ok {
                old(self).data@ + chunk@
            } else {
                old(self).data@
            },
            final(self).owner == old(self).owner,
            final(self).url == old(self).url,
            final(self).destination == old(self).destination,
            final(self).metadata == old(self).metadata,
            final(self).status == old(self).status,
    {
        if self.status.is_ok() {
            let mut chunk = chunk;
            self.data.append(&mut chunk);
        }
    }
}


/// Whether `encoding_rs` knows `label` as the label of an encoding.
pub uninterp spec fn encoding_label_known(label: Seq<char>) -> bool;

/// What decoding `bytes` with the encoding labelled `label` gives.
pub uninterp spec fn decoded_with_label(label: Seq<char>, bytes: Seq<u8>) -> Seq<char>;

/// What decoding `bytes` as UTF-8 gives.
pub uninterp spec fn utf8_decoded(bytes: Seq<u8>) -> Seq<char>;

/// Whether `encoding_rs::Encoding::for_label` finds an encoding for the
/// label.
#[verifier::external_body]
fn label_known(label: &str) -> (b: bool)
    ensures
        b == encoding_label_known(label@),
{
    encoding_rs::Encoding::for_label(label.as_bytes()).is_some()
}

/// Decodes `bytes` with `encoding_rs::Encoding::decode`, in the encoding
/// that `encoding_rs::Encoding::for_label` finds for `label`.
#[verifier::external_body]
fn decode_with_label(label: &str, bytes: &[u8]) -> (s: String)
    requires
        encoding_label_known(label@),
    ensures
        s@ == decoded_with_label(label@, bytes@),
{
    encoding_rs::Encoding::for_label(label.as_bytes()).unwrap().decode(bytes).0.into_owned()
}

/// Decodes `bytes` as UTF-8 with `encoding_rs::Encoding::decode`.
#[verifier::external_body]
fn decode_utf8(bytes: &[u8]) -> (s: String)
    ensures
        s@ == utf8_decoded(bytes@),
{
    encoding_rs::UTF_8.decode(bytes).0.into_owned()
}

/// The source text of a response body: decoded in the encoding its charset
/// names, or as UTF-8 when there is none that is known.
pub open spec fn source_text(charset: Option<String>, data: Seq<u8>) -> Seq<char> {
    match charset {
        Some(c) => if encoding_label_known(c@) {
            decoded_with_label(c@, data)
        } else {
            utf8_decoded(data)
        },
        None => utf8_decoded(data),
    }
}

/// Decodes a response body (see [`source_text`]).
pub fn decode_source(charset: &Option<String>, data: &Vec<u8>) -> (s: String)
    ensures
        s@ == source_text(*charset, data@),
{
    match charset {
        Some(c) => {
            if label_known(c.as_str()) {
                decode_with_label(c.as_str(), data.as_slice())
            } else {
                decode_utf8(data.as_slice())
            }
        },
        None => decode_utf8(data.as_slice()),
    }
}

/// Why the load of a module failed, if it did: the response's error, else
/// the context's status.
pub open spec fn load_error(response: Result<(), String>, status: Result<(), String>) -> Option<Seq<char>> {
    match response {
        Err(e) => Some(e@),
        Ok(_) => match status {
            Err(e) => Some(e@),
            Ok(_) => None,
        },
    }
}

impl ModuleContext {
    /// The response ended (fetching a single module script, steps 8-14).
    /// Failed: the module's status becomes `FetchFailed`, it gets the
    /// network error and its promise is resolved. Else its text is the
    /// decoded body (see [`source_text`]) and it is compiled (see
    /// [`compile_result`]); on an error it gets the error and its promise is
    /// resolved; compiled, it gets the record and its descendants are fetched
    /// and linked with the module's URL visited (see
    /// [`ModuleMap::fetch_module_descendants_and_link`]); its promise is
    /// resolved when it has none.
    pub fn process_response_eof(
        &mut self,
        response: Result<(), String>,
        module_map: &mut ModuleMap,
        compiled: Result<u64, ExceptionValue>,
        specifiers: &Vec<String>,
        base_url: &String,
        first_new_promise: u64,
        all_promise: u64,
    ) -> (r: (Vec<ModuleEffect>, Vec<DescendantFetch>))
        requires
            old(module_map).wf(),
            old(module_map).view_map().contains_key(old(self).url@),
            old(module_map).view_map()[old(self).url@].promise_view() is Some,
            load_error(response, old(self).status) is None ==> old(self).metadata is Some,
            first_new_promise + specifiers@.len() <= u64::MAX,
        ensures
            final(module_map).wf(),
            final(self).url == old(self).url,
            final(self).owner == old(self).owner,
            ({
                let url = old(self).url@;
                let t0 = old(module_map).view_map()[url];
                let p = t0.promise_view()->0;
                let m = final(module_map).view_map();
                let t = m[url];
                &&& m.contains_key(url)
                &&& t.promise_view() == t0.promise_view()
                &&& t.url_view() == t0.url_view()
                &&& match load_error(response, old(self).status) {
                    Some(e) => {
                        &&& t.status_view() == ModuleStatus::FetchFailed
                        &&& t.error_view() matches Some(ModuleError::Network(x)) && x@ == e
                        &&& t.record_view() == t0.record_view()
                        &&& t.text_view() == t0.text_view()
                        &&& t.descendants() == t0.descendants()
                        &&& m.remove(url) == old(module_map).view_map().remove(url)
                        &&& r.0@ == seq![ModuleEffect::Resolve(p)]
                        &&& r.1@.len() == 0
                    },
                    None => {
                        &&& t.text_view() == source_text(old(self).metadata->0.charset, old(self).data@)
                        &&& final(self).metadata is None
                        &&& if compiled is Ok && resolved_all(base_url@, seq_views(specifiers@)) is Some {
                            let req = requested_urls(base_url@, seq_views(specifiers@), seq![url]);
                            &&& t.record_view() == Some(compiled->Ok_0)
                            &&& t.status_view() == ModuleStatus::FetchingDescendants
                            &&& t.error_view() == t0.error_view()
                            &&& t.descendants() == t0.descendants() + req.to_set()
                            &&& r.1@.len() == req.len()
                            &&& forall|k: int|
                                0 <= k < req.len() ==> descendant_fetched(
                                    m,
                                    old(module_map).view_map().contains_key(#[trigger] req[k]),
                                    old(self).owner,
                                    old(self).destination,
                                    req[k],
                                    (first_new_promise + k) as u64,
                                    r.1@[k],
                                )
                            &&& forall|u: Seq<char>| #[trigger]
                                old(module_map).view_map().contains_key(u) && u != url ==> m.contains_key(u)
                                    && m[u] == old(module_map).view_map()[u]
                            &&& forall|u: Seq<char>| #[trigger]
                                m.contains_key(u) ==> old(module_map).view_map().contains_key(u) || req.contains(u)
                            &&& r.0@.len() == 1
                            &&& if req.len() == 0 {
                                r.0@[0] == ModuleEffect::Resolve(p)
                            } else {
                                r.0@[0] matches ModuleEffect::WaitForAll { all, promises, then } && all
                                    == all_promise && then == p && promises@ == r.1@.map_values(
                                    |f: DescendantFetch| fetch_promise(f),
                                )
                            }
                        } else {
                            &&& t.record_view() == t0.record_view()
                            &&& t.status_view() == t0.status_view()
                            &&& t.error_view() is Some
                            &&& compile_result(compiled, seq_views(specifiers@), base_url@, Err(t.error_view()->0))
                            &&& t.descendants() == t0.descendants()
                            &&& m.remove(url) == old(module_map).view_map().remove(url)
                            &&& r.0@ == seq![ModuleEffect::Resolve(p)]
                            &&& r.1@.len() == 0
                        }
                    },
                }
            }),
    {
        let mut effects: Vec<ModuleEffect> = Vec::new();
        let failure: Option<String> = match response {
            Err(e) => Some(e),
            Ok(_) => match &self.status {
                Err(e) => Some(e.clone()),
                Ok(_) => None,
            },
        };
        let mut module_tree = module_map.take(&self.url).unwrap();
        let promise = module_tree.get_promise().unwrap();
        match failure {
            Some(err) => {
                // Step 9.
                module_tree.set_status(ModuleStatus::FetchFailed);
                module_tree.set_error(Some(ModuleError::Network(err)));
                module_map.set(self.url.clone(), module_tree);
                effects.push(ModuleEffect::Resolve(promise));
                proof {
                    assert(module_map.view_map().remove(self.url@) =~= old(module_map).view_map().remove(self.url@));
                    assert(effects@ =~= seq![ModuleEffect::Resolve(promise)]);
                }
                (effects, Vec::new())
            },
            None => {
                let meta = self.metadata.take().unwrap();
                let text = decode_source(&meta.charset, &self.data);
                // Step 14.
                module_tree.set_text(text);
                let compiled_module = module_tree.compile_module_script(compiled, specifiers, base_url);
                match compiled_module {
                    Err(exception) => {
                        module_tree.set_error(Some(exception));
                        module_map.set(self.url.clone(), module_tree);
                        effects.push(ModuleEffect::Resolve(promise));
                        proof {
                            assert(module_map.view_map().remove(self.url@) =~= old(module_map).view_map().remove(self.url@));
                            assert(effects@ =~= seq![ModuleEffect::Resolve(promise)]);
                        }
                        (effects, Vec::new())
                    },
                    Ok(record) => {
                        module_tree.set_record(record);
                        module_map.set(self.url.clone(), module_tree);
                        let ghost mid = module_map.view_map();
                        let mut visited: Vec<String> = Vec::new();
                        visited.push(self.url.clone());
                        proof {
                            assert(seq_views(visited@) =~= seq![self.url@]);
                        }
                        let (link, descs) = module_map.fetch_module_descendants_and_link(
                            self.owner,
                            &self.url,
                            specifiers,
                            base_url,
                            self.destination,
                            visited,
                            first_new_promise,
                            all_promise,
                        );
                        match link {
                            Some((_all, wait)) => {
                                effects.push(wait);
                            },
                            None => {
                                effects.push(ModuleEffect::Resolve(promise));
                            },
                        }
                        proof {
                            let m = module_map.view_map();
                            let url = self.url@;
                            assert forall|u: Seq<char>| mid.contains_key(u) == old(module_map).view_map().contains_key(u) by {}
                            assert forall|u: Seq<char>| #[trigger]
                                old(module_map).view_map().contains_key(u) && u != url implies m.contains_key(u)
                                    && m[u] == old(module_map).view_map()[u] by {
                                assert(mid.contains_key(u) && mid[u] == old(module_map).view_map()[u]);
                            }
                            let req = requested_urls(base_url@, seq_views(specifiers@), seq![url]);
                            assert forall|k: int| 0 <= k < req.len() implies descendant_fetched(
                                    m,
                                    old(module_map).view_map().contains_key(#[trigger] req[k]),
                                    self.owner,
                                    self.destination,
                                    req[k],
                                    (first_new_promise + k) as u64,
                                    descs@[k],
                                ) by {
                                assert(mid.contains_key(req[k]) == old(module_map).view_map().contains_key(req[k]));
                            }
                        }
                        (effects, descs)
                    },
                }
            },
        }
    }
}


/// What module loading reads of a script element.
pub struct ScriptElementInfo {
    /// The element's src URL, resolved (see [`script_src`]).
    pub src: Option<String>,
    pub script_id: String,
    /// The base URL of the element's document.
    pub base_url: String,
    pub is_async: bool,
    pub parser_inserted: bool,
    pub non_blocking: bool,
}

/// The element's `src` attribute resolved against the document's base URL;
/// `None` without the attribute or when it does not resolve.
pub fn script_src(src_attr: &Option<String>, base_url: &String) -> (r: Option<String>)
    ensures
        match src_attr {
            None => r is None,
            Some(a) => match url_join(base_url@, a@) {
                Some(u) => r matches Some(s) && s@ == u,
                None => r is None,
            },
        },
{
    match src_attr {
        None => None,
        Some(a) => match join_url(base_url.as_str(), a.as_str()) {
            Ok(u) => Some(u),
            Err(_) => None,
        },
    }
}

/// The result of loading a module script: its source text, URL and whether
/// it is external; or the network error's message.
pub enum ScriptLoad {
    Loaded { text: String, url: String, external: bool },
    NetworkError(String),
}

/// What finishing a module load hands to the document.
pub enum ScriptEffect {
    /// The deferred script is loaded.
    DeferredScriptLoaded(ScriptLoad),
    /// The in-order as-soon-as-possible script is loaded.
    AsapInOrderScriptLoaded(ScriptLoad),
    /// The as-soon-as-possible script is loaded.
    AsapScriptLoaded(ScriptLoad),
    /// The document's load of this script URL is finished.
    FinishLoad(String),
}

/// Whether some descendant of `t` in `m` has not got as far as failing or
/// finishing its fetch.
pub open spec fn any_fetching(m: Map<Seq<char>, ModuleTree>, t: ModuleTree) -> bool {
    exists|d: Seq<char>| #[trigger]
        t.descendants().contains(d) && status_rank(m[d].status_view()) < status_rank(
            ModuleStatus::FetchFailed,
        )
}

/// `l` is the load of the script: the error of a network failure, else its
/// text, URL and whether it is external.
pub open spec fn is_load(l: ScriptLoad, err: Option<ModuleError>, text: Seq<char>, url: Seq<char>, external: bool) -> bool {
    match err {
        Some(ModuleError::Network(e)) => l matches ScriptLoad::NetworkError(x) && x@ == e@,
        _ => l matches ScriptLoad::Loaded { text: tx, url: u, external: ex } && tx@ == text && u@ == url
            && ex == external,
    }
}

/// The effects of a finished load: the script is handed over as deferred
/// (not async, parser-inserted), in-order (not async, blocking) or as soon as
/// possible, and the document's load of the script finishes.
pub open spec fn finish_effects(
    es: Seq<ScriptEffect>,
    script: ScriptElementInfo,
    err: Option<ModuleError>,
    text: Seq<char>,
) -> bool {
    let url = match script.src {
        Some(s) => s@,
        None => script.base_url@,
    };
    let external = script.src is Some;
    &&& es.len() == 2
    &&& if !script.is_async && script.parser_inserted {
        es[0] matches ScriptEffect::DeferredScriptLoaded(l) && is_load(l, err, text, url, external)
    } else if !script.is_async && !script.non_blocking {
        es[0] matches ScriptEffect::AsapInOrderScriptLoaded(l) && is_load(l, err, text, url, external)
    } else {
        es[0] matches ScriptEffect::AsapScriptLoaded(l) && is_load(l, err, text, url, external)
    }
    &&& es[1] matches ScriptEffect::FinishLoad(u) && u@ == url
}

/// The error a finished module has: that of its first parse error; without
/// one, the exception that instantiating its record threw, if any.
pub open spec fn finished_error(
    t0: ModuleTree,
    err: Option<ModuleError>,
    instantiated: Result<(), ExceptionValue>,
) -> Option<ModuleError> {
    match err {
        Some(e) => Some(e),
        None => if t0.record_view() is Some && instantiated is Err {
            Some(ModuleError::RawException(instantiated->Err_0))
        } else {
            t0.error_view()
        },
    }
}

/// What finishing the module load of `t0` did: nothing while a descendant is
/// still being fetched; else the tree `t` is finished and, when the load is
/// that of `module_url`, it gets its error (see [`finished_error`]) and the
/// effects are those of a finished load (see [`finish_effects`]).
pub open spec fn finish_result(
    m: Map<Seq<char>, ModuleTree>,
    t0: ModuleTree,
    t: ModuleTree,
    module_url: Option<String>,
    script: ScriptElementInfo,
    instantiated: Result<(), ExceptionValue>,
    r: Seq<ScriptEffect>,
) -> bool {
    if any_fetching(m, t0) {
        t == t0 && r.len() == 0
    } else {
        &&& t.status_view() == ModuleStatus::Finished
        &&& t.url_view() == t0.url_view()
        &&& t.text_view() == t0.text_view()
        &&& t.record_view() == t0.record_view()
        &&& t.promise_view() == t0.promise_view()
        &&& t.descendants() == t0.descendants()
        &&& if opt_string_eq(script.src, module_url) {
            let err = first_parse_error(m, t0);
            &&& is_first_parse_error(m, t0, err)
            &&& t.error_view() == finished_error(t0, err, instantiated)
            &&& finish_effects(r, script, err, t0.text_view())
        } else {
            t.error_view() == t0.error_view() && r.len() == 0
        }
    }
}

pub open spec fn opt_string_eq(a: Option<String>, b: Option<String>) -> bool {
    match (a, b) {
        (Some(x), Some(y)) => x@ == y@,
        (None, None) => true,
        _ => false,
    }
}

fn opt_string_equal(a: &Option<String>, b: &Option<String>) -> (r: bool)
    ensures
        r == opt_string_eq(*a, *b),
{
    match (a, b) {
        (Some(x), Some(y)) => *x == *y,
        (None, None) => true,
        _ => false,
    }
}

fn copy_exception(x: &ExceptionValue) -> (c: ExceptionValue)
    ensures
        c == *x,
{
    match x {
        ExceptionValue::TypeError(m) => ExceptionValue::TypeError(m.clone()),
        ExceptionValue::Thrown(v) => ExceptionValue::Thrown(*v),
    }
}

fn load_of(err: &Option<ModuleError>, text: &String, url: &String, external: bool) -> (l: ScriptLoad)
    ensures
        is_load(l, *err, text@, url@, external),
{
    match err {
        Some(ModuleError::Network(e)) => ScriptLoad::NetworkError(e.clone()),
        _ => ScriptLoad::Loaded { text: text.clone(), url: url.clone(), external },
    }
}

impl ModuleMap {
    /// Whether some descendant of `tree` has not got as far as failing or
    /// finishing its fetch.
    fn is_any_fetching(&self, tree: &ModuleTree) -> (b: bool)
        requires
            self.wf(),
            forall|d: Seq<char>| #[trigger] tree.descendants().contains(d) ==> self.view_map().contains_key(d),
        ensures
            b == any_fetching(self.view_map(), *tree),
    {
        let urls = tree.get_descendant_urls();
        let ghost ds = tree.descendant_seq();
        let n = urls.len();
        let mut i: usize = 0;
        while i < n
            invariant
                n == urls@.len(),
                seq_views(urls@) == ds,
                ds == tree.descendant_seq(),
                i <= n,
                self.wf(),
                forall|d: Seq<char>| #[trigger] tree.descendants().contains(d) ==> self.view_map().contains_key(d),
                forall|j: int| 0 <= j < i ==> status_rank(self.view_map()[#[trigger] ds[j]].status_view()) >= status_rank(ModuleStatus::FetchFailed),
            decreases n - i,
        {
            proof {
                assert(ds[i as int] == urls@[i as int]@);
                assert(ds.contains(ds[i as int]));
                assert(tree.descendants().contains(ds[i as int]));
            }
            let s = self.status_of(&urls[i]).unwrap();
            if s.is_before(&ModuleStatus::FetchFailed) {
                return true;
            }
            i = i + 1;
        }
        proof {
            if any_fetching(self.view_map(), *tree) {
                let d = choose|d: Seq<char>| #[trigger] tree.descendants().contains(d) && status_rank(self.view_map()[d].status_view()) < status_rank(ModuleStatus::FetchFailed);
                let j = choose|j: int| 0 <= j < ds.len() && ds[j] == d;
                assert(status_rank(self.view_map()[ds[j]].status_view()) >= status_rank(ModuleStatus::FetchFailed));
            }
        }
        false
    }
}

/// Finishes a module tree whose descendants are all fetched, given its
/// first parse error `err`.
fn apply_finish(
    tree: &mut ModuleTree,
    err: Option<ModuleError>,
    module_url: &Option<String>,
    script: &ScriptElementInfo,
    instantiated: &Result<(), ExceptionValue>,
) -> (r: Vec<ScriptEffect>)
    requires
        old(tree).wf(),
    ensures
        final(tree).wf(),
        final(tree).status_view() == ModuleStatus::Finished,
        final(tree).url_view() == old(tree).url_view(),
        final(tree).text_view() == old(tree).text_view(),
        final(tree).record_view() == old(tree).record_view(),
        final(tree).promise_view() == old(tree).promise_view(),
        final(tree).descendants() == old(tree).descendants(),
        if opt_string_eq(script.src, *module_url) {
            final(tree).error_view() == finished_error(*old(tree), err, *instantiated)
                && finish_effects(r@, *script, err, old(tree).text_view())
        } else {
            final(tree).error_view() == old(tree).error_view() && r@.len() == 0
        },
{
    let mut effects: Vec<ScriptEffect> = Vec::new();
    tree.set_status(ModuleStatus::Finished);
    if !opt_string_equal(&script.src, module_url) {
        return effects;
    }
    match &err {
        None => {
            if tree.get_record().is_some() {
                match instantiated {
                    Err(x) => {
                        let e = ModuleError::RawException(copy_exception(x));
                        tree.set_error(Some(e));
                    },
                    Ok(_) => {},
                }
            }
        },
        Some(e) => {
            tree.set_error(Some(e.clone()));
        },
    }
    let (url, external) = match &script.src {
        Some(s) => (s.clone(), true),
        None => (script.base_url.clone(), false),
    };
    let load = load_of(&err, tree.get_text(), &url, external);
    if !script.is_async && script.parser_inserted {
        effects.push(ScriptEffect::DeferredScriptLoaded(load));
    } else if !script.is_async && !script.non_blocking {
        effects.push(ScriptEffect::AsapInOrderScriptLoaded(load));
    } else {
        effects.push(ScriptEffect::AsapScriptLoaded(load));
    }
    effects.push(ScriptEffect::FinishLoad(url));
    effects
}

/// Every descendant of `t` is in `m`.
pub open spec fn descendants_known(m: Map<Seq<char>, ModuleTree>, t: ModuleTree) -> bool {
    forall|d: Seq<char>| #[trigger] t.descendants().contains(d) ==> m.contains_key(d)
}

impl ModuleOwner {
    /// Fetching the descendants of and linking a module script, steps 4-7,
    /// for a window's script element (see [`finish_result`]): the tree is the
    /// one of the element's src URL in the module map, or, for an inline
    /// script, the one of its id in the inline module map. `instantiated` is
    /// what instantiating the tree's record gave.
    pub fn finish_module_load(
        &self,
        module_url: &Option<String>,
        script: &ScriptElementInfo,
        module_map: &mut ModuleMap,
        inline_map: &mut InlineModuleMap,
        instantiated: &Result<(), ExceptionValue>,
    ) -> (r: Vec<ScriptEffect>)
        requires
            *self is Window,
            old(module_map).wf(),
            old(inline_map).wf(),
            match script.src {
                Some(s) => old(module_map).view_map().contains_key(s@) && descendants_known(
                    old(module_map).view_map(),
                    old(module_map).view_map()[s@],
                ),
                None => old(inline_map).view_map().contains_key(script.script_id@)
                    && descendants_known(
                    old(module_map).view_map(),
                    old(inline_map).view_map()[script.script_id@],
                ),
            },
        ensures
            final(module_map).wf(),
            final(inline_map).wf(),
            match script.src {
                Some(s) => {
                    &&& final(module_map).view_map().contains_key(s@)
                    &&& finish_result(
                        old(module_map).view_map(),
                        old(module_map).view_map()[s@],
                        final(module_map).view_map()[s@],
                        *module_url,
                        *script,
                        *instantiated,
                        r@,
                    )
                    &&& final(module_map).view_map().remove(s@) == old(module_map).view_map().remove(s@)
                    &&& final(inline_map).view_map() == old(inline_map).view_map()
                },
                None => {
                    let id = script.script_id@;
                    &&& final(inline_map).view_map().contains_key(id)
                    &&& finish_result(
                        old(module_map).view_map(),
                        old(inline_map).view_map()[id],
                        final(inline_map).view_map()[id],
                        *module_url,
                        *script,
                        *instantiated,
                        r@,
                    )
                    &&& final(inline_map).view_map().remove(id) == old(inline_map).view_map().remove(id)
                    &&& final(module_map).view_map() == old(module_map).view_map()
                },
            },
    {
        match &script.src {
            Some(src) => {
                let tree_ref = module_map.get(src).unwrap();
                if module_map.is_any_fetching(tree_ref) {
                    return Vec::new();
                }
                let err = ModuleTree::find_first_parse_error(module_map, tree_ref);
                let mut tree = module_map.take(src).unwrap();
                let effects = apply_finish(&mut tree, err, module_url, script, instantiated);
                module_map.set(src.clone(), tree);
                proof {
                    assert(module_map.view_map().remove(src@) =~= old(module_map).view_map().remove(src@));
                }
                effects
            },
            None => {
                let tree_ref = inline_map.get(&script.script_id).unwrap();
                if module_map.is_any_fetching(tree_ref) {
                    return Vec::new();
                }
                let err = ModuleTree::find_first_parse_error(module_map, tree_ref);
                let mut tree = inline_map.take(&script.script_id).unwrap();
                let effects = apply_finish(&mut tree, err, module_url, script, instantiated);
                inline_map.set(script.script_id.clone(), tree);
                proof {
                    assert(inline_map.view_map().remove(script.script_id@) =~= old(inline_map).view_map().remove(script.script_id@));
                }
                effects
            },
        }
    }
}


/// The order of statuses is a strict total order.
pub proof fn lemma_status_order(a: ModuleStatus, b: ModuleStatus, c: ModuleStatus)
    ensures
        !(status_rank(a) < status_rank(a)),
        status_rank(a) < status_rank(b) && status_rank(b) < status_rank(c) ==> status_rank(a) < status_rank(c),
        a != b ==> (status_rank(a) < status_rank(b) || status_rank(b) < status_rank(a)),
{
}

/// Module errors are equal exactly when neither comes after the other, and
/// a network error comes after every exception.
pub proof fn lemma_error_order(a: ModuleError, b: ModuleError)
    ensures
        (error_rank(a) == error_rank(b)) <==> !(error_rank(a) > error_rank(b)) && !(error_rank(b) > error_rank(a)),
        a is Network && b is RawException ==> error_rank(a) > error_rank(b),
{
}

/// A module that a fetch put in the map is reused by a second fetch of the
/// same URL, which gets the first fetch's promise.
pub proof fn lemma_refetch_reuses_promise(t: ModuleTree, url: Seq<char>, promise: u64)
    requires
        is_fetching_tree(t, url, promise),
    ensures
        reuses_fetch(t.status_view()),
        t.promise_view() == Some(promise),
{
}

} // verus!
