//! Origins of URLs (tuple origins, opaque origins and aliases), and data
//! that only a caller of the same origin may read.
use vstd::prelude::*;
use vstd::string::StrSliceExecFns;
use vstd::string::StringExecFns;

verus! {

/// The parts of a parsed URL that origins are made of.
pub struct UrlParts {
    pub scheme: String,
    /// The serialized host (IPv6 addresses in brackets), if any.
    pub host: Option<String>,
    /// The explicit port, else the default port of a scheme that has one.
    pub port: Option<u16>,
    pub path: String,
    /// The whole URL, serialized.
    pub serialization: String,
}

/// The mathematical value of [`UrlParts`].
pub struct UrlView {
    pub scheme: Seq<char>,
    pub host: Option<Seq<char>>,
    pub port: Option<u16>,
    pub path: Seq<char>,
    pub serialization: Seq<char>,
}

pub open spec fn opt_string_view(s: Option<String>) -> Option<Seq<char>> {
    match s {
        Some(x) => Some(x@),
        None => None,
    }
}

impl View for UrlParts {
    type V = UrlView;

    open spec fn view(&self) -> UrlView {
        UrlView {
            scheme: self.scheme@,
            host: opt_string_view(self.host),
            port: self.port,
            path: self.path@,
            serialization: self.serialization@,
        }
    }
}

/// What the URL parser makes of a string: `None` where it fails.
pub uninterp spec fn url_parse(input: Seq<char>) -> Option<UrlView>;

/// Schemes with a default port; the parser refuses their URLs without a host.
pub open spec fn has_default_port(scheme: Seq<char>) -> bool {
    scheme == "http"@ || scheme == "https"@ || scheme == "ws"@ || scheme == "wss"@ || scheme
        == "ftp"@
}

/// Parses `input` with `url::Url::parse`. The result is what the parser
/// returns (`None` on a parse error); a URL whose scheme has a default
/// port always has a host and a port.
#[verifier::external_body]
pub(crate) fn parse_url(input: &str) -> (r: Option<UrlParts>)
    ensures
        match r {
            Some(u) => url_parse(input@) == Some(u@),
            None => url_parse(input@) is None,
        },
        r matches Some(u) ==> (has_default_port(u.scheme@) ==> u.host is Some && u.port is Some),
{
    match url::Url::parse(input) {
        Ok(u) => Some(
            UrlParts {
                scheme: u.scheme().to_string(),
                host: u.host_str().map(|h| h.to_string()),
                port: u.port_or_known_default(),
                path: u.path().to_string(),
                serialization: u.as_str().to_string(),
            },
        ),
        Err(_) => None,
    }
}

/// A URL parse error of the `url` crate.
#[verifier::external_type_specification]
#[verifier::external_body]
pub struct ExUrlParseError(url::ParseError);

/// What resolving `input` against the URL `base` gives (its serialization),
/// `None` where the base or the input does not parse.
pub uninterp spec fn url_join(base: Seq<char>, input: Seq<char>) -> Option<Seq<char>>;

/// Parses `base` with `url::Url::parse` and resolves `input` against it
/// with `url::Url::join`; the result is the serialization of the joined URL,
/// or the parser's error.
#[verifier::external_body]
pub(crate) fn join_url(base: &str, input: &str) -> (r: Result<String, url::ParseError>)
    ensures
        match r {
            Ok(s) => url_join(base@, input@) == Some(s@),
            Err(_) => url_join(base@, input@) is None,
        },
{
    match url::Url::parse(base) {
        Ok(b) => match b.join(input) {
            Ok(u) => Ok(u.as_str().to_string()),
            Err(e) => Err(e),
        },
        Err(e) => Err(e),
    }
}

/// Whether `s` starts with `prefix`.
pub fn starts_with(s: &str, prefix: &str) -> (b: bool)
    ensures
        b == (prefix@.len() <= s@.len() && s@.subrange(0, prefix@.len() as int) == prefix@),
{
    let n = s.unicode_len();
    let m = prefix.unicode_len();
    if m > n {
        return false;
    }
    let mut i: usize = 0;
    while i < m
        invariant
            n == s@.len(),
            m == prefix@.len(),
            m <= n,
            i <= m,
            forall|j: int| 0 <= j < i ==> s@[j] == prefix@[j],
        decreases m - i,
    {
        if s.get_char(i) != prefix.get_char(i) {
            proof {
                assert(s@.subrange(0, m as int)[i as int] != prefix@[i as int]);
            }
            return false;
        }
        i = i + 1;
    }
    proof {
        assert(s@.subrange(0, m as int) =~= prefix@);
    }
    true
}

/// Hands out identifiers for opaque origins, each once. Identifiers are
/// unique among those one counter hands out; origins that must all be
/// told apart take their identifiers from one counter.
pub struct OpaqueIds {
    next: u64,
}

impl OpaqueIds {
    pub fn new() -> (ids: OpaqueIds)
        ensures
            ids.next_id() == 0,
            ids.issued() == Set::<u64>::empty(),
    {
        let ids = OpaqueIds { next: 0 };
        assert(ids.issued() =~= Set::<u64>::empty());
        ids
    }

    /// The identifier that the next call of [`next_opaque_id`] hands out.
    pub closed spec fn next_id(&self) -> nat {
        self.next as nat
    }

    /// The identifiers this counter has handed out.
    pub closed spec fn issued(&self) -> Set<u64> {
        Set::new(|x: u64| x < self.next)
    }

    pub fn can_issue(&self) -> (b: bool)
        ensures
            b == (self.next_id() < u64::MAX),
    {
        self.next < u64::MAX
    }
}

/// Hands out the next opaque identifier.
pub fn next_opaque_id(ids: &mut OpaqueIds) -> (id: u64)
    requires
        old(ids).next_id() < u64::MAX,
    ensures
        id == old(ids).next_id(),
        final(ids).next_id() == old(ids).next_id() + 1,
        !old(ids).issued().contains(id),
        final(ids).issued() == old(ids).issued().insert(id),
{
    let cur_id = ids.next;
    ids.next = ids.next + 1;
    assert(ids.issued() =~= old(ids).issued().insert(cur_id));
    cur_id
}

/// How an origin is represented: an opaque identifier, a
/// (scheme, host, port) tuple, or an alias of another origin.
pub enum OriginRepresentation {
    OpaqueIdentifier { id: u64, debug_repr: String },
    Tuple { scheme: String, host: String, port: u16 },
    Alias(Box<OriginRepresentation>),
}

/// An origin with its aliases resolved.
pub enum OriginValue {
    Opaque(u64),
    Tuple(Seq<char>, Seq<char>, u16),
}

pub open spec fn dealias(r: OriginRepresentation) -> OriginValue
    decreases r,
{
    match r {
        OriginRepresentation::OpaqueIdentifier { id, .. } => OriginValue::Opaque(id),
        OriginRepresentation::Tuple { scheme, host, port } => OriginValue::Tuple(
            scheme@,
            host@,
            port,
        ),
        OriginRepresentation::Alias(inner) => dealias(*inner),
    }
}

/// A representation of an origin. Origins are made only by
/// [`Origin::from_url`], [`Origin::opaque_identifier`] and
/// [`Origin::alias`], so every opaque origin has an identifier that a
/// counter handed out.
pub struct Origin {
    repr: OriginRepresentation,
}

impl Origin {
    /// How this origin is represented.
    pub closed spec fn representation(&self) -> OriginRepresentation {
        self.repr
    }

    /// How this origin is represented.
    pub fn repr(&self) -> (r: &OriginRepresentation)
        ensures
            *r == self.representation(),
    {
        &self.repr
    }
}

impl View for Origin {
    type V = OriginValue;

    closed spec fn view(&self) -> OriginValue {
        dealias(self.repr)
    }
}

/// The origin stands for what its representation resolves to.
pub proof fn lemma_origin_view(o: Origin)
    ensures
        o@ == dealias(o.representation()),
{
}

/// Whether two origins are the same: two opaque origins with the same
/// identifier, or two tuple origins with equal parts.
pub open spec fn same_origin_spec(a: OriginValue, b: OriginValue) -> bool {
    match (a, b) {
        (OriginValue::Opaque(x), OriginValue::Opaque(y)) => x == y,
        (OriginValue::Tuple(s1, h1, p1), OriginValue::Tuple(s2, h2, p2)) => s1 == s2 && h1 == h2
            && p1 == p2,
        _ => false,
    }
}

/// Schemes whose URLs have a tuple origin.
pub open spec fn is_tuple_scheme(scheme: Seq<char>) -> bool {
    scheme == "ftp"@ || scheme == "gopher"@ || scheme == "http"@ || scheme == "https"@ || scheme
        == "ws"@ || scheme == "wss"@
}

/// Whether `s` holds exactly the text `lit`.
pub fn string_is(s: &String, lit: &str) -> (b: bool)
    ensures
        b == (s@ == lit@),
{
    *s == String::from_str(lit)
}

fn is_tuple_scheme_exec(scheme: &String) -> (b: bool)
    ensures
        b == is_tuple_scheme(scheme@),
{
    string_is(scheme, "ftp") || string_is(scheme, "gopher") || string_is(scheme, "http")
        || string_is(scheme, "https") || string_is(scheme, "ws") || string_is(scheme, "wss")
}

fn is_blob_scheme(scheme: &String) -> (b: bool)
    ensures
        b == (scheme@ == "blob"@),
{
    string_is(scheme, "blob")
}

/// The origin of a URL whose blob wrappers are resolved: a tuple origin
/// for a tuple scheme with a host and a port, else an opaque origin.
pub open spec fn direct_origin_is(u: UrlView, o: OriginValue, id: u64) -> bool {
    if is_tuple_scheme(u.scheme) && u.host is Some && u.port is Some {
        o == OriginValue::Tuple(u.scheme, u.host->0, u.port->0)
    } else {
        o == OriginValue::Opaque(id)
    }
}

/// The URL whose origin a URL has: for a blob URL, that of the URL its
/// path parses to (when it parses), followed for at most `n` blob wrappers.
pub open spec fn origin_source(u: UrlView, n: nat) -> UrlView
    decreases n,
{
    if n > 0 && u.scheme == "blob"@ && url_parse(u.path) is Some {
        origin_source(url_parse(u.path)->0, (n - 1) as nat)
    } else {
        u
    }
}

/// A URL whose origin can be made: when the URL whose origin it has (see
/// [`origin_source`]) has a tuple scheme, that URL has a host and a port.
pub open spec fn origin_source_complete(u: UrlView) -> bool {
    let s = origin_source(u, u.serialization.len());
    is_tuple_scheme(s.scheme) ==> s.host is Some && s.port is Some
}

/// The URL whose origin `url` has (see [`origin_source`]).
fn source_url(url: &UrlParts) -> (src: UrlParts)
    ensures
        src@ == origin_source(url@, url@.serialization.len()),
{
    let mut cur = UrlParts {
        scheme: url.scheme.clone(),
        host: url.host.clone(),
        port: url.port,
        path: url.path.clone(),
        serialization: url.serialization.clone(),
    };
    let mut fuel: usize = url.serialization.as_str().unicode_len();
    loop
        invariant
            origin_source(cur@, fuel as nat) == origin_source(url@, url@.serialization.len()),
        ensures
            origin_source(cur@, fuel as nat) == cur@,
            origin_source(cur@, fuel as nat) == origin_source(url@, url@.serialization.len()),
        decreases fuel,
    {
        if fuel == 0 || !is_blob_scheme(&cur.scheme) {
            break ;
        }
        match parse_url(cur.path.as_str()) {
            Some(inner) => {
                cur = inner;
                fuel = fuel - 1;
            },
            None => {
                break ;
            },
        }
    }
    cur
}

impl Origin {
    /// The origin of `url`. A blob URL has the origin of the URL its path
    /// parses to, or an opaque origin when that does not parse; URLs of the
    /// schemes ftp, gopher, http, https, ws and wss have a tuple origin of
    /// their scheme, host and port (which they must have); others get a
    /// fresh opaque origin. Blob wrappers are followed at most as many times
    /// as the URL has characters.
    pub fn from_url(url: &UrlParts, ids: &mut OpaqueIds) -> (o: Origin)
        requires
            old(ids).next_id() < u64::MAX,
            origin_source_complete(url@),
        ensures
            direct_origin_is(
                origin_source(url@, url@.serialization.len()),
                o@,
                old(ids).next_id() as u64,
            ),
            final(ids).next_id() == if o@ is Opaque {
                old(ids).next_id() + 1
            } else {
                old(ids).next_id()
            },
            o@ is Opaque ==> !old(ids).issued().contains(old(ids).next_id() as u64),
            final(ids).issued() == if o@ is Opaque {
                old(ids).issued().insert(old(ids).next_id() as u64)
            } else {
                old(ids).issued()
            },
    {
        let cur = source_url(url);
        if is_tuple_scheme_exec(&cur.scheme) {
            match (&cur.host, cur.port) {
                (Some(h), Some(p)) => {
                    return Origin {
                        repr: OriginRepresentation::Tuple {
                            scheme: cur.scheme.clone(),
                            host: h.clone(),
                            port: p,
                        },
                    };
                },
                _ => {},
            }
        }
        Origin::opaque_identifier(&cur, ids)
    }

    /// The origin of `url` (see [`Origin::from_url`]), or `None` when it
    /// cannot be made: when the URL whose origin it has has a tuple scheme
    /// but no host or no port (the parser makes such URLs only for gopher).
    pub fn from_url_checked(url: &UrlParts, ids: &mut OpaqueIds) -> (o: Option<Origin>)
        requires
            old(ids).next_id() < u64::MAX,
        ensures
            o is Some <==> origin_source_complete(url@),
            o matches Some(x) ==> direct_origin_is(
                origin_source(url@, url@.serialization.len()),
                x@,
                old(ids).next_id() as u64,
            ),
            o matches Some(x) && x@ is Opaque ==> final(ids).next_id() == old(ids).next_id() + 1,
            o matches Some(x) && x@ is Tuple ==> final(ids).next_id() == old(ids).next_id(),
            o is None ==> final(ids).next_id() == old(ids).next_id(),
            o matches Some(x) && x@ is Opaque ==> !old(ids).issued().contains(old(ids).next_id() as u64)
                && final(ids).issued() == old(ids).issued().insert(old(ids).next_id() as u64),
            !(o matches Some(x) && x@ is Opaque) ==> final(ids).issued() == old(ids).issued(),
    {
        let src = source_url(url);
        let complete = !is_tuple_scheme_exec(&src.scheme) || (src.host.is_some() && src.port.is_some());
        if complete {
            Some(Origin::from_url(url, ids))
        } else {
            None
        }
    }

    /// A fresh opaque origin; the URL serves only for debugging output.
    pub fn opaque_identifier(url: &UrlParts, ids: &mut OpaqueIds) -> (o: Origin)
        requires
            old(ids).next_id() < u64::MAX,
        ensures
            o@ == OriginValue::Opaque(old(ids).next_id() as u64),
            final(ids).next_id() == old(ids).next_id() + 1,
            !old(ids).issued().contains(old(ids).next_id() as u64),
            final(ids).issued() == old(ids).issued().insert(old(ids).next_id() as u64),
    {
        let id = next_opaque_id(ids);
        Origin {
            repr: OriginRepresentation::OpaqueIdentifier {
                id,
                debug_repr: url.serialization.clone(),
            },
        }
    }

    /// An alias of this origin, the same origin as it.
    pub fn alias(&self) -> (o: Origin)
        ensures
            o@ == self@,
            o.representation() == OriginRepresentation::Alias(Box::new(self.representation())),
    {
        Origin { repr: OriginRepresentation::Alias(Box::new(copy_repr(&self.repr))) }
    }

    /// Whether the two origins are the same origin.
    pub fn same_origin(&self, other: &Origin) -> (b: bool)
        ensures
            b == same_origin_spec(self@, other@),
    {
        let a = dealiased(&self.repr);
        let b = dealiased(&other.repr);
        match (a, b) {
            (
                OriginRepresentation::OpaqueIdentifier { id: id1, .. },
                OriginRepresentation::OpaqueIdentifier { id: id2, .. },
            ) => *id1 == *id2,
            (
                OriginRepresentation::Tuple { scheme: scheme1, host: host1, port: port1 },
                OriginRepresentation::Tuple { scheme: scheme2, host: host2, port: port2 },
            ) => *scheme1 == *scheme2 && *host1 == *host2 && *port1 == *port2,
            _ => false,
        }
    }
}

/// The representation that an alias chain ends in.
fn dealiased(r: &OriginRepresentation) -> (d: &OriginRepresentation)
    ensures
        !(d is Alias),
        dealias(*d) == dealias(*r),
    decreases r,
{
    match r {
        OriginRepresentation::Alias(inner) => dealiased(inner),
        _ => r,
    }
}

fn copy_repr(r: &OriginRepresentation) -> (c: OriginRepresentation)
    ensures
        c == *r,
    decreases r,
{
    match r {
        OriginRepresentation::OpaqueIdentifier { id, debug_repr } => {
            OriginRepresentation::OpaqueIdentifier { id: *id, debug_repr: debug_repr.clone() }
        },
        OriginRepresentation::Tuple { scheme, host, port } => OriginRepresentation::Tuple {
            scheme: scheme.clone(),
            host: host.clone(),
            port: *port,
        },
        OriginRepresentation::Alias(inner) => OriginRepresentation::Alias(
            Box::new(copy_repr(inner)),
        ),
    }
}

/// The tuple origin of a URL (scheme, host, port), or `None` when its
/// origin is opaque (see [`Origin::from_url`]).
pub open spec fn tuple_origin_of(u: UrlView) -> Option<(Seq<char>, Seq<char>, u16)> {
    let src = origin_source(u, u.serialization.len());
    if is_tuple_scheme(src.scheme) && src.host is Some && src.port is Some {
        Some((src.scheme, src.host->0, src.port->0))
    } else {
        None
    }
}

/// The string parses to a URL whose origin can be made.
pub open spec fn url_origin_ok(a: Seq<char>) -> bool {
    url_parse(a) matches Some(u) && origin_source_complete(u)
}

/// Two URL strings have the same origin when each origin is made afresh:
/// both have tuple origins, and these agree.
pub open spec fn urls_same_origin_spec(a: Seq<char>, b: Seq<char>) -> bool {
    tuple_origin_of(url_parse(a)->0) is Some && tuple_origin_of(url_parse(a)->0) == tuple_origin_of(url_parse(b)->0)
}

/// Whether the URLs `a` and `b` have the same origin, each origin made
/// afresh: both have tuple origins, and these agree (an opaque origin made
/// afresh is the same origin as no other). `None` when either does not
/// parse, or its origin cannot be made.
pub fn urls_same_origin(a: &str, b: &str, ids: &mut OpaqueIds) -> (r: Option<bool>)
    requires
        old(ids).next_id() + 1 < u64::MAX,
    ensures
        r is Some <==> url_origin_ok(a@) && url_origin_ok(b@),
        r matches Some(x) ==> x == urls_same_origin_spec(a@, b@),
        final(ids).next_id() <= old(ids).next_id() + 2,
{
    let ua = match parse_url(a) {
        Some(u) => u,
        None => return None,
    };
    let ub = match parse_url(b) {
        Some(u) => u,
        None => return None,
    };
    let ghost n0 = ids.next_id();
    let oa = match Origin::from_url_checked(&ua, ids) {
        Some(o) => o,
        None => return None,
    };
    let ghost n1 = ids.next_id();
    let ob = match Origin::from_url_checked(&ub, ids) {
        Some(o) => o,
        None => return None,
    };
    let r = oa.same_origin(&ob);
    proof {
        if oa@ is Opaque && ob@ is Opaque {
            assert(n1 == n0 + 1);
        }
    }
    Some(r)
}

/// Data associated with an origin: only callers of the same origin may
/// read it.
pub struct OriginTainted<T> {
    origin: Origin,
    data: T,
}

impl<T> OriginTainted<T> {
    /// The origin the data is associated with.
    pub closed spec fn origin_view(&self) -> OriginValue {
        self.origin@
    }

    /// The data.
    pub closed spec fn data_view(&self) -> T {
        self.data
    }

    /// Associates `data` with `origin`.
    pub fn new(origin: Origin, data: T) -> (t: OriginTainted<T>)
        ensures
            t.origin_view() == origin@,
            t.data_view() == data,
    {
        OriginTainted { origin, data }
    }

    /// Taints the data so that it is cross-origin to every origin: its
    /// origin becomes an opaque one whose identifier the counter had not
    /// handed out before (the URL serves only for debugging output). See
    /// [`lemma_fresh_opaque_cross_origin`].
    pub fn taint(&mut self, other: &UrlParts, ids: &mut OpaqueIds)
        requires
            old(ids).next_id() < u64::MAX,
        ensures
            final(self).origin_view() == OriginValue::Opaque(old(ids).next_id() as u64),
            final(self).data_view() == old(self).data_view(),
            final(ids).next_id() == old(ids).next_id() + 1,
            !old(ids).issued().contains(old(ids).next_id() as u64),
            final(ids).issued() == old(ids).issued().insert(old(ids).next_id() as u64),
    {
        self.origin = Origin::opaque_identifier(other, ids);
    }

    /// The data, when `other` is the same origin as the data's.
    pub fn access(&self, other: &Origin) -> (r: Option<&T>)
        ensures
            match r {
                Some(d) => same_origin_spec(self.origin_view(), other@) && *d == self.data_view(),
                None => !same_origin_spec(self.origin_view(), other@),
            },
    {
        if self.origin.same_origin(other) {
            return Some(&self.data);
        }
        None
    }

    /// The data, without any origin check.
    pub fn bypass_same_origin_check(&self) -> (d: &T)
        ensures
            *d == self.data_view(),
    {
        &self.data
    }
}


/// Being the same origin is an equivalence: reflexive, symmetric and
/// transitive.
pub proof fn lemma_same_origin_equivalence(a: OriginValue, b: OriginValue, c: OriginValue)
    ensures
        same_origin_spec(a, a),
        same_origin_spec(a, b) ==> same_origin_spec(b, a),
        same_origin_spec(a, b) && same_origin_spec(b, c) ==> same_origin_spec(a, c),
{
}

/// An opaque origin is the same origin only as an origin with its own
/// identifier, so origins with fresh identifiers are cross-origin to all
/// others.
pub proof fn lemma_opaque_same_only_as_itself(id: u64, v: OriginValue)
    ensures
        same_origin_spec(OriginValue::Opaque(id), v) <==> v == OriginValue::Opaque(id),
{
}

/// An opaque origin whose identifier a counter hands out fresh is
/// cross-origin to every tuple origin and to every opaque origin whose
/// identifier that counter handed out: tainted data is cross-origin to every
/// origin made through the same counter (see [`OriginTainted::taint`]), and
/// two opaque origins made through one counter differ.
pub proof fn lemma_fresh_opaque_cross_origin(issued: Set<u64>, n: u64, v: OriginValue)
    requires
        !issued.contains(n),
        v is Tuple || (v matches OriginValue::Opaque(id) && issued.contains(id)),
    ensures
        !same_origin_spec(OriginValue::Opaque(n), v),
        !same_origin_spec(v, OriginValue::Opaque(n)),
{
}

/// Two tuple origins are the same origin exactly when scheme, host and port
/// agree.
pub proof fn lemma_tuple_same_origin(s1: Seq<char>, h1: Seq<char>, p1: u16, s2: Seq<char>, h2: Seq<char>, p2: u16)
    ensures
        same_origin_spec(OriginValue::Tuple(s1, h1, p1), OriginValue::Tuple(s2, h2, p2)) <==> (s1
            == s2 && h1 == h2 && p1 == p2),
{
}

} // verus!
