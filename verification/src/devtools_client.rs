//! The devtools client of the shell: the framing of packets on the wire
//! ("length:payload"), and what the client does with each packet the
//! devtools server sends: which packets it answers with, and the console
//! messages it hands to the shell.
use vstd::prelude::*;
use vstd::string::StringExecFns;

verus! {

/// A JSON value. A number is kept as its value when it is an unsigned
/// integer that fits 64 bits, else as `None`.
pub enum Json {
    Null,
    Bool(bool),
    Number(Option<u64>),
    Str(String),
    Array(Vec<Json>),
    Object(Vec<(String, Json)>),
}


/// How serious a console message is.
#[derive(Clone, Copy, PartialEq, Eq, Structural, Debug)]
pub enum Level {
    Info,
    Warn,
    Error,
}

/// A console message for the shell.
pub struct ConsoleLog {
    pub message: String,
    pub level: Level,
    pub filename: String,
    pub column: u32,
    pub line_number: u32,
}

/// What the client hands to the shell.
pub enum DevtoolUpdate {
    ConsoleLog(ConsoleLog),
    Navigate,
}

/// The value of `key` in the entries of an object (the first entry with
/// that key).
pub open spec fn obj_get(o: Seq<(String, Json)>, key: Seq<char>) -> Option<Json>
    decreases o.len(),
{
    if o.len() == 0 {
        None
    } else if o[0].0@ == key {
        Some(o[0].1)
    } else {
        obj_get(o.drop_first(), key)
    }
}

/// The member `key` of a JSON value, when it is an object that has one.
pub open spec fn member(j: Json, key: Seq<char>) -> Option<Json> {
    match j {
        Json::Object(o) => obj_get(o@, key),
        _ => None,
    }
}

pub open spec fn str_of(j: Option<Json>) -> Option<Seq<char>> {
    match j {
        Some(Json::Str(s)) => Some(s@),
        _ => None,
    }
}

pub open spec fn u64_of(j: Option<Json>) -> Option<u64> {
    match j {
        Some(Json::Number(Some(n))) => Some(n),
        _ => None,
    }
}

pub open spec fn array_of(j: Option<Json>) -> Option<Seq<Json>> {
    match j {
        Some(Json::Array(a)) => Some(a@),
        _ => None,
    }
}

pub open spec fn bool_of(j: Option<Json>) -> Option<bool> {
    match j {
        Some(Json::Bool(b)) => Some(b),
        _ => None,
    }
}

/// The member `key` of `j` (see [`member`]).
pub fn get<'a>(j: &'a Json, key: &str) -> (r: Option<&'a Json>)
    ensures
        match r {
            Some(v) => member(*j, key@) == Some(*v),
            None => member(*j, key@) is None,
        },
{
    match j {
        Json::Object(o) => {
            let n = o.len();
            let mut i: usize = 0;
            let ghost s = o@;
            proof {
                assert(s.skip(0) =~= s);
                assert(*j == Json::Object(*o));
            }
            while i < n
                invariant
                    n == s.len(),
                    s == o@,
                    *j == Json::Object(*o),
                    i <= n,
                    obj_get(s, key@) == obj_get(s.skip(i as int), key@),
                decreases n - i,
            {
                proof {
                    assert(s.skip(i as int)[0] == s[i as int]);
                    assert(s.skip(i as int).drop_first() =~= s.skip(i + 1));
                }
                if crate::origin::string_is(&o[i].0, key) {
                    proof {
                        assert(obj_get(s.skip(i as int), key@) == Some(s[i as int].1));
                        assert(member(*j, key@) == obj_get(s, key@));
                    }
                    return Some(&o[i].1);
                }
                i = i + 1;
            }
            proof {
                assert(s.skip(n as int).len() == 0);
                assert(obj_get(s.skip(n as int), key@) is None);
                assert(member(*j, key@) == obj_get(s, key@));
            }
            None
        },
        _ => None,
    }
}


pub fn as_str(j: Option<&Json>) -> (r: Option<&String>)
    ensures
        match r {
            Some(s) => str_of(match j { Some(x) => Some(*x), None => None }) == Some(s@),
            None => str_of(match j { Some(x) => Some(*x), None => None }) is None,
        },
{
    match j {
        Some(Json::Str(s)) => Some(s),
        _ => None,
    }
}

pub open spec fn deref_opt(j: Option<&Json>) -> Option<Json> {
    match j {
        Some(x) => Some(*x),
        None => None,
    }
}

pub fn as_u64(j: Option<&Json>) -> (r: Option<u64>)
    ensures
        r == u64_of(deref_opt(j)),
{
    match j {
        Some(Json::Number(Some(n))) => Some(*n),
        _ => None,
    }
}

pub fn as_bool(j: Option<&Json>) -> (r: Option<bool>)
    ensures
        r == bool_of(deref_opt(j)),
{
    match j {
        Some(Json::Bool(b)) => Some(*b),
        _ => None,
    }
}

pub fn as_array(j: Option<&Json>) -> (r: Option<&Vec<Json>>)
    ensures
        match r {
            Some(a) => array_of(deref_opt(j)) == Some(a@),
            None => array_of(deref_opt(j)) is None,
        },
{
    match j {
        Some(Json::Array(a)) => Some(a),
        _ => None,
    }
}

/// The level a console message names: "warn" and "error", else info.
pub open spec fn level_from(s: Seq<char>) -> Level {
    if s == "warn"@ {
        Level::Warn
    } else if s == "error"@ {
        Level::Error
    } else {
        Level::Info
    }
}

/// The level of a console message: `error` is an error, `warn` a warning,
/// and any other level string is information.
pub proof fn lemma_console_levels(s: Seq<char>)
    ensures
        (level_from(s) == Level::Error) == (s == "error"@),
        (level_from(s) == Level::Warn) == (s == "warn"@),
        (level_from(s) == Level::Info) == (s != "error"@ && s != "warn"@),
{
    reveal_strlit("error");
    reveal_strlit("warn");
    assert("error"@.len() != "warn"@.len());
}

/// The mathematical value of a console message.
pub struct LogView {
    pub message: Seq<char>,
    pub level: Level,
    pub filename: Seq<char>,
    pub column: u32,
    pub line_number: u32,
}

pub open spec fn log_view(l: ConsoleLog) -> LogView {
    LogView {
        message: l.message@,
        level: l.level,
        filename: l.filename@,
        column: l.column,
        line_number: l.line_number,
    }
}

/// A console message of the server: an object with a level, file name,
/// line and column numbers and at least one argument, the first a string.
pub open spec fn console_msg_ok(m: Json) -> bool {
    &&& str_of(member(m, "level"@)) is Some
    &&& str_of(member(m, "filename"@)) is Some
    &&& u64_of(member(m, "line_number"@)) is Some
    &&& u64_of(member(m, "column_number"@)) is Some
    &&& array_of(member(m, "arguments"@)) matches Some(a) && a.len() > 0 && a[0] is Str
}

/// The console message of the shell for a console message of the server:
/// its first argument, level, file name, column and line (both taken
/// modulo 2^32).
pub open spec fn console_log_view(m: Json) -> LogView {
    LogView {
        message: array_of(member(m, "arguments"@))->0[0]->Str_0@,
        level: level_from(str_of(member(m, "level"@))->0),
        filename: str_of(member(m, "filename"@))->0,
        column: u64_of(member(m, "column_number"@))->0 as u32,
        line_number: u64_of(member(m, "line_number"@))->0 as u32,
    }
}

/// An error message of the server: an object whose page error is an object
/// with a warning flag, source name, line and column numbers and message.
pub open spec fn error_msg_ok(m: Json) -> bool {
    &&& member(m, "pageError"@) matches Some(e) && {
        &&& e is Object
        &&& bool_of(member(e, "warning"@)) is Some
        &&& str_of(member(e, "sourceName"@)) is Some
        &&& u64_of(member(e, "lineNumber"@)) is Some
        &&& u64_of(member(e, "columnNumber"@)) is Some
        &&& str_of(member(e, "errorMessage"@)) is Some
    }
}

/// The console message of the shell for an error message of the server: a
/// warning or an error.
pub open spec fn error_log_view(m: Json) -> LogView {
    let e = member(m, "pageError"@)->0;
    LogView {
        message: str_of(member(e, "errorMessage"@))->0,
        level: if bool_of(member(e, "warning"@))->0 { Level::Warn } else { Level::Error },
        filename: str_of(member(e, "sourceName"@))->0,
        column: u64_of(member(e, "columnNumber"@))->0 as u32,
        line_number: u64_of(member(e, "lineNumber"@))->0 as u32,
    }
}

fn level_of(s: &String) -> (l: Level)
    ensures
        l == level_from(s@),
{
    if crate::origin::string_is(s, "warn") {
        Level::Warn
    } else if crate::origin::string_is(s, "error") {
        Level::Error
    } else {
        Level::Info
    }
}

/// The console message of the shell for a console message of the server.
pub fn console_log_from(m: &Json) -> (l: ConsoleLog)
    requires
        console_msg_ok(*m),
    ensures
        log_view(l) == console_log_view(*m),
        (l.level == Level::Error) == (str_of(member(*m, "level"@))->0 == "error"@),
        (l.level == Level::Warn) == (str_of(member(*m, "level"@))->0 == "warn"@),
        (l.level == Level::Info) == (str_of(member(*m, "level"@))->0 != "error"@ && str_of(
            member(*m, "level"@),
        )->0 != "warn"@),
{
    proof {
        lemma_console_levels(str_of(member(*m, "level"@))->0);
    }
    let level = level_of(as_str(get(m, "level")).unwrap());
    let filename = as_str(get(m, "filename")).unwrap();
    let line_number = as_u64(get(m, "line_number")).unwrap();
    let column_number = as_u64(get(m, "column_number")).unwrap();
    let args = as_array(get(m, "arguments")).unwrap();
    let message = as_str(Some(&args[0])).unwrap();
    ConsoleLog {
        filename: filename.clone(),
        line_number: line_number as u32,
        column: column_number as u32,
        message: message.clone(),
        level,
    }
}

/// The console message of the shell for an error message of the server.
pub fn error_log_from(m: &Json) -> (l: ConsoleLog)
    requires
        error_msg_ok(*m),
    ensures
        log_view(l) == error_log_view(*m),
{
    let e = get(m, "pageError").unwrap();
    let level = if as_bool(get(e, "warning")).unwrap() {
        Level::Warn
    } else {
        Level::Error
    };
    let filename = as_str(get(e, "sourceName")).unwrap();
    let line_number = as_u64(get(e, "lineNumber")).unwrap();
    let column_number = as_u64(get(e, "columnNumber")).unwrap();
    let message = as_str(get(e, "errorMessage")).unwrap();
    ConsoleLog {
        filename: filename.clone(),
        line_number: line_number as u32,
        column: column_number as u32,
        message: message.clone(),
        level,
    }
}


/// One entry of a resources array: an array whose first element is the
/// kind; the console and error entries hold their messages, well formed,
/// in their second element.
pub open spec fn resource_ok(r: Json) -> bool {
    r matches Json::Array(a) && a@.len() >= 1 && a@[0] is Str && {
        let kind = a@[0]->Str_0@;
        &&& kind == "console-message"@ ==> a@.len() >= 2 && (a@[1] matches Json::Array(xs) && forall|i: int|
            0 <= i < xs@.len() ==> console_msg_ok(#[trigger] xs@[i]))
        &&& kind == "error-message"@ ==> a@.len() >= 2 && (a@[1] matches Json::Array(xs) && forall|i: int|
            0 <= i < xs@.len() ==> error_msg_ok(#[trigger] xs@[i]))
    }
}

/// A packet of a target: its type, when present, is a string; a resources
/// array, when the type announces one and it is present, is an array of
/// well-formed entries.
pub open spec fn target_packet_ok(p: Json) -> bool {
    &&& member(p, "type"@) is Some ==> str_of(member(p, "type"@)) is Some
    &&& (str_of(member(p, "type"@)) == Some("resources-available-array"@) && member(p, "array"@) is Some)
        ==> (array_of(member(p, "array"@)) is Some && forall|i: int|
        0 <= i < array_of(member(p, "array"@))->0.len() ==> resource_ok(
            #[trigger] array_of(member(p, "array"@))->0[i],
        ))
}

/// The console messages of the shell for the messages `xs` of one entry.
pub open spec fn console_logs(xs: Seq<Json>) -> Seq<LogView>
    decreases xs.len(),
{
    if xs.len() == 0 {
        Seq::empty()
    } else {
        console_logs(xs.drop_last()).push(console_log_view(xs.last()))
    }
}

pub open spec fn error_logs(xs: Seq<Json>) -> Seq<LogView>
    decreases xs.len(),
{
    if xs.len() == 0 {
        Seq::empty()
    } else {
        error_logs(xs.drop_last()).push(error_log_view(xs.last()))
    }
}

/// The console messages for one entry of a resources array: those of its
/// console or error messages; none for other kinds.
pub open spec fn resource_logs(r: Json) -> Seq<LogView> {
    let a = r->Array_0@;
    let kind = a[0]->Str_0@;
    if kind == "console-message"@ {
        console_logs(a[1]->Array_0@)
    } else if kind == "error-message"@ {
        error_logs(a[1]->Array_0@)
    } else {
        Seq::empty()
    }
}

pub open spec fn resources_logs(rs: Seq<Json>) -> Seq<LogView>
    decreases rs.len(),
{
    if rs.len() == 0 {
        Seq::empty()
    } else {
        resources_logs(rs.drop_last()) + resource_logs(rs.last())
    }
}

/// The console messages of the shell for a packet of a target: for a
/// resources array, those of its entries in order; none otherwise.
pub open spec fn target_logs(p: Json) -> Seq<LogView> {
    if str_of(member(p, "type"@)) == Some("resources-available-array"@) && member(p, "array"@) is Some {
        resources_logs(array_of(member(p, "array"@))->0)
    } else {
        Seq::empty()
    }
}

pub open spec fn update_log(u: DevtoolUpdate) -> LogView {
    match u {
        DevtoolUpdate::ConsoleLog(l) => log_view(l),
        DevtoolUpdate::Navigate => LogView { message: Seq::empty(), level: Level::Info, filename: Seq::empty(), column: 0, line_number: 0 },
    }
}

/// The messages of the shell among `us`, in order; each update is one.
pub open spec fn updates_logs(us: Seq<DevtoolUpdate>) -> Seq<LogView> {
    us.map_values(|u: DevtoolUpdate| update_log(u))
}

fn push_update(out: &mut Vec<DevtoolUpdate>, l: ConsoleLog)
    ensures
        updates_logs(final(out)@) == updates_logs(old(out)@).push(log_view(l)),
        forall|i: int| 0 <= i < old(out)@.len() ==> final(out)@[i] == old(out)@[i],
        final(out)@.len() == old(out)@.len() + 1,
        final(out)@.last() is ConsoleLog,
{
    out.push(DevtoolUpdate::ConsoleLog(l));
    proof {
        assert(updates_logs(out@) =~= updates_logs(old(out)@).push(log_view(l)));
    }
}

/// Appends the console messages for one entry of a resources array.
fn push_resource_logs(r: &Json, out: &mut Vec<DevtoolUpdate>)
    requires
        resource_ok(*r),
    ensures
        updates_logs(final(out)@) == updates_logs(old(out)@) + resource_logs(*r),
        forall|i: int| 0 <= i < final(out)@.len() ==> (#[trigger] final(out)@[i] is ConsoleLog) || i < old(out)@.len() && final(out)@[i] == old(out)@[i],
{
    let a = match r {
        Json::Array(a) => a,
        _ => {
            return ;
        },
    };
    let kind = as_str(Some(&a[0])).unwrap();
    let is_console = crate::origin::string_is(kind, "console-message");
    let is_error = crate::origin::string_is(kind, "error-message");
    let ghost u0 = updates_logs(out@);
    let ghost o0 = out@;
    if !is_console && !is_error {
        proof {
            assert(updates_logs(out@) =~= u0 + Seq::<LogView>::empty());
        }
        return ;
    }
    let xs = as_array(Some(&a[1])).unwrap();
    let n = xs.len();
    let mut i: usize = 0;
    proof {
        assert(xs@.take(0) =~= Seq::<Json>::empty());
        assert(updates_logs(out@) =~= u0 + Seq::<LogView>::empty());
    }
    while i < n
        invariant
            n == xs@.len(),
            i <= n,
            is_console || is_error,
            is_console ==> forall|k: int| 0 <= k < xs@.len() ==> console_msg_ok(#[trigger] xs@[k]),
            !is_console && is_error ==> forall|k: int| 0 <= k < xs@.len() ==> error_msg_ok(#[trigger] xs@[k]),
            is_console ==> updates_logs(out@) == u0 + console_logs(xs@.take(i as int)),
            !is_console ==> updates_logs(out@) == u0 + error_logs(xs@.take(i as int)),
            forall|k: int| 0 <= k < out@.len() ==> (#[trigger] out@[k] is ConsoleLog) || k < o0.len() && out@[k] == o0[k],
        decreases n - i,
    {
        proof {
            assert(xs@.take(i + 1).drop_last() =~= xs@.take(i as int));
            assert(xs@.take(i + 1).last() == xs@[i as int]);
        }
        let ghost before = out@;
        let l = if is_console {
            console_log_from(&xs[i])
        } else {
            error_log_from(&xs[i])
        };
        push_update(out, l);
        proof {
            assert forall|k: int| 0 <= k < out@.len() implies (#[trigger] out@[k] is ConsoleLog) || k < o0.len() && out@[k] == o0[k] by {
                if k < before.len() {
                    assert(out@[k] == before[k]);
                }
            }
        }
        i = i + 1;
    }
    proof {
        assert(xs@.take(n as int) =~= xs@);
    }
}

/// A packet of a target: the console messages it carries for the shell
/// (see [`target_logs`]).
pub fn handle_target_packet(packet: &Json) -> (updates: Vec<DevtoolUpdate>)
    requires
        target_packet_ok(*packet),
    ensures
        updates_logs(updates@) == target_logs(*packet),
        forall|i: int| 0 <= i < updates@.len() ==> #[trigger] updates@[i] is ConsoleLog,
{
    let mut out: Vec<DevtoolUpdate> = Vec::new();
    proof {
        assert(updates_logs(out@) =~= Seq::<LogView>::empty());
        reveal_strlit("resources-available-array");
    }
    let ty = get(packet, "type");
    match ty {
        None => {
            return out;
        },
        Some(_) => {
            let tys = as_str(ty).unwrap();
            if !crate::origin::string_is(tys, "resources-available-array") {
                return out;
            }
            proof {
                assert(str_of(member(*packet, "type"@)) == Some(tys@));
            }
        },
    }
    let messages = match get(packet, "array") {
        Some(m) => m,
        None => {
            return out;
        },
    };
    let rs = as_array(Some(messages)).unwrap();
    proof {
        assert(member(*packet, "array"@) == Some(*messages));
        assert(array_of(member(*packet, "array"@)) == Some(rs@));
        assert(str_of(member(*packet, "type"@)) == Some("resources-available-array"@));
        assert(target_packet_ok(*packet));
        assert forall|k: int| 0 <= k < rs@.len() implies resource_ok(#[trigger] rs@[k]) by {
            let arr = array_of(member(*packet, "array"@))->0;
            assert(arr == rs@);
            assert(resource_ok(arr[k]));
        }
    }
    let n = rs.len();
    let mut i: usize = 0;
    proof {
        assert(rs@.take(0) =~= Seq::<Json>::empty());
    }
    while i < n
        invariant
            n == rs@.len(),
            i <= n,
            forall|k: int| 0 <= k < rs@.len() ==> resource_ok(#[trigger] rs@[k]),
            updates_logs(out@) == resources_logs(rs@.take(i as int)),
            forall|k: int| 0 <= k < out@.len() ==> #[trigger] out@[k] is ConsoleLog,
        decreases n - i,
    {
        proof {
            assert(rs@.take(i + 1).drop_last() =~= rs@.take(i as int));
            assert(rs@.take(i + 1).last() == rs@[i as int]);
        }
        push_resource_logs(&rs[i], &mut out);
        i = i + 1;
    }
    proof {
        assert(rs@.take(n as int) =~= rs@);
    }
    out
}


/// A packet the client sends to the server.
pub enum OutgoingPacket {
    Connect { frontend_version: String, to: String },
    GetRoot { to: String },
    ListTabs { to: String },
    GetTab { browser_id: u32, to: String },
    GetCachedMessages { message_types: Vec<String>, to: String },
}

/// The packets the client answers the root actor's greeting with: connect,
/// get the root, list the tabs, get tab 1 (all to "root"), and get the
/// cached log, page-error and console-API messages of "console4".
pub open spec fn greeting_answer(ps: Seq<OutgoingPacket>) -> bool {
    &&& ps.len() == 5
    &&& ps[0] matches OutgoingPacket::Connect { frontend_version, to } && frontend_version@ == "144.0"@
        && to@ == "root"@
    &&& ps[1] matches OutgoingPacket::GetRoot { to } && to@ == "root"@
    &&& ps[2] matches OutgoingPacket::ListTabs { to } && to@ == "root"@
    &&& ps[3] matches OutgoingPacket::GetTab { browser_id, to } && browser_id == 1 && to@ == "root"@
    &&& ps[4] matches OutgoingPacket::GetCachedMessages { message_types, to } && to@ == "console4"@
        && message_types@.len() == 3 && message_types@[0]@ == "LogMessage"@ && message_types@[1]@
        == "PageError"@ && message_types@[2]@ == "ConsoleAPI"@
}

pub open spec fn has_member(p: Json, key: Seq<char>) -> bool {
    member(p, key) is Some
}

/// A packet of the root actor: answered (see [`greeting_answer`]) when it
/// has an application type; else nothing.
pub fn handle_root_packet(packet: &Json) -> (sends: Vec<OutgoingPacket>)
    ensures
        has_member(*packet, "applicationType"@) ==> greeting_answer(sends@),
        !has_member(*packet, "applicationType"@) ==> sends@.len() == 0,
{
    let mut sends: Vec<OutgoingPacket> = Vec::new();
    if get(packet, "applicationType").is_some() {
        sends.push(OutgoingPacket::Connect {
            frontend_version: String::from_str("144.0"),
            to: String::from_str("root"),
        });
        sends.push(OutgoingPacket::GetRoot { to: String::from_str("root") });
        sends.push(OutgoingPacket::ListTabs { to: String::from_str("root") });
        sends.push(OutgoingPacket::GetTab { browser_id: 1, to: String::from_str("root") });
        let mut types: Vec<String> = Vec::new();
        types.push(String::from_str("LogMessage"));
        types.push(String::from_str("PageError"));
        types.push(String::from_str("ConsoleAPI"));
        sends.push(OutgoingPacket::GetCachedMessages { message_types: types, to: String::from_str("console4") });
    }
    sends
}

/// A packet of a console actor: its messages (which the shell prints), when
/// it has any; they are an array.
pub fn handle_console_packet(packet: &Json) -> (messages: Option<&Vec<Json>>)
    requires
        has_member(*packet, "messages"@) ==> array_of(member(*packet, "messages"@)) is Some,
    ensures
        match messages {
            Some(m) => array_of(member(*packet, "messages"@)) == Some(m@),
            None => !has_member(*packet, "messages"@),
        },
{
    let m = get(packet, "messages");
    match m {
        None => None,
        Some(_) => Some(as_array(m).unwrap()),
    }
}

/// What the client does with a packet.
pub enum PacketOutcome<'a> {
    /// Send these packets.
    Send(Vec<OutgoingPacket>),
    /// Print these console messages (if any).
    Print(Option<&'a Vec<Json>>),
    /// Hand these updates to the shell.
    Updates(Vec<DevtoolUpdate>),
    /// Nothing.
    Ignore,
}

/// Whether `s` starts with `prefix`.
pub open spec fn has_prefix(s: Seq<char>, prefix: Seq<char>) -> bool {
    prefix.len() <= s.len() && s.subrange(0, prefix.len() as int) == prefix
}

/// A packet of the server: it comes from a string actor name; packets of a
/// console and of a target are well formed.
pub open spec fn packet_ok(p: Json) -> bool {
    &&& str_of(member(p, "from"@)) is Some
    &&& {
        let from = str_of(member(p, "from"@))->0;
        &&& from != "root"@ && has_prefix(from, "console"@) ==> (has_member(p, "messages"@) ==> array_of(member(p, "messages"@)) is Some)
        &&& from != "root"@ && !has_prefix(from, "console"@) && has_prefix(from, "target"@) ==> target_packet_ok(p)
    }
}

/// A packet of the server, by the actor it comes from: the root actor's is
/// answered, a console's messages are printed, a target's console
/// messages go to the shell; others are ignored.
pub fn handle_packet<'a>(packet: &'a Json) -> (r: PacketOutcome<'a>)
    requires
        packet_ok(*packet),
    ensures
        ({
            let from = str_of(member(*packet, "from"@))->0;
            if from == "root"@ {
                r matches PacketOutcome::Send(s) && (has_member(*packet, "applicationType"@) ==> greeting_answer(s@))
                    && (!has_member(*packet, "applicationType"@) ==> s@.len() == 0)
            } else if has_prefix(from, "console"@) {
                r matches PacketOutcome::Print(m) && match m {
                    Some(x) => array_of(member(*packet, "messages"@)) == Some(x@),
                    None => !has_member(*packet, "messages"@),
                }
            } else if has_prefix(from, "target"@) {
                r matches PacketOutcome::Updates(us) && updates_logs(us@) == target_logs(*packet)
                    && forall|i: int| 0 <= i < us@.len() ==> #[trigger] us@[i] is ConsoleLog
            } else {
                r is Ignore
            }
        }),
{
    let from = as_str(get(packet, "from")).unwrap();
    if crate::origin::string_is(from, "root") {
        return PacketOutcome::Send(handle_root_packet(packet));
    }
    if crate::origin::starts_with(from.as_str(), "console") {
        return PacketOutcome::Print(handle_console_packet(packet));
    }
    if crate::origin::starts_with(from.as_str(), "target") {
        return PacketOutcome::Updates(handle_target_packet(packet));
    }
    PacketOutcome::Ignore
}


fn is_console_msg_ok(m: &Json) -> (b: bool)
    ensures
        b == console_msg_ok(*m),
{
    if as_str(get(m, "level")).is_none() || as_str(get(m, "filename")).is_none() {
        return false;
    }
    if as_u64(get(m, "line_number")).is_none() || as_u64(get(m, "column_number")).is_none() {
        return false;
    }
    match as_array(get(m, "arguments")) {
        Some(a) => a.len() > 0 && match &a[0] {
            Json::Str(_) => true,
            _ => false,
        },
        None => false,
    }
}

fn is_error_msg_ok(m: &Json) -> (b: bool)
    ensures
        b == error_msg_ok(*m),
{
    match get(m, "pageError") {
        Some(e) => {
            let is_object = match e {
                Json::Object(_) => true,
                _ => false,
            };
            is_object && as_bool(get(e, "warning")).is_some() && as_str(get(e, "sourceName")).is_some()
                && as_u64(get(e, "lineNumber")).is_some() && as_u64(get(e, "columnNumber")).is_some()
                && as_str(get(e, "errorMessage")).is_some()
        },
        None => false,
    }
}

fn all_console_msgs_ok(xs: &Vec<Json>) -> (b: bool)
    ensures
        b == forall|i: int| 0 <= i < xs@.len() ==> console_msg_ok(#[trigger] xs@[i]),
{
    let n = xs.len();
    let mut i: usize = 0;
    while i < n
        invariant
            n == xs@.len(),
            i <= n,
            forall|k: int| 0 <= k < i ==> console_msg_ok(#[trigger] xs@[k]),
        decreases n - i,
    {
        if !is_console_msg_ok(&xs[i]) {
            return false;
        }
        i = i + 1;
    }
    true
}

fn all_error_msgs_ok(xs: &Vec<Json>) -> (b: bool)
    ensures
        b == forall|i: int| 0 <= i < xs@.len() ==> error_msg_ok(#[trigger] xs@[i]),
{
    let n = xs.len();
    let mut i: usize = 0;
    while i < n
        invariant
            n == xs@.len(),
            i <= n,
            forall|k: int| 0 <= k < i ==> error_msg_ok(#[trigger] xs@[k]),
        decreases n - i,
    {
        if !is_error_msg_ok(&xs[i]) {
            return false;
        }
        i = i + 1;
    }
    true
}

fn is_resource_ok(r: &Json) -> (b: bool)
    ensures
        b == resource_ok(*r),
{
    proof {
        reveal_strlit("console-message");
        reveal_strlit("error-message");
        assert("console-message"@.len() == 15);
        assert("error-message"@.len() == 13);
    }
    match r {
        Json::Array(a) => {
            if a.len() == 0 {
                return false;
            }
            match &a[0] {
                Json::Str(kind) => {
                    if crate::origin::string_is(kind, "console-message") {
                        a.len() >= 2 && match &a[1] {
                            Json::Array(xs) => all_console_msgs_ok(xs),
                            _ => false,
                        }
                    } else if crate::origin::string_is(kind, "error-message") {
                        a.len() >= 2 && match &a[1] {
                            Json::Array(xs) => all_error_msgs_ok(xs),
                            _ => false,
                        }
                    } else {
                        true
                    }
                },
                _ => false,
            }
        },
        _ => false,
    }
}

fn is_target_packet_ok(p: &Json) -> (b: bool)
    ensures
        b == target_packet_ok(*p),
{
    let t = get(p, "type");
    if t.is_some() && as_str(t).is_none() {
        return false;
    }
    let announces = match as_str(t) {
        Some(s) => crate::origin::string_is(s, "resources-available-array"),
        None => false,
    };
    if !announces || get(p, "array").is_none() {
        return true;
    }
    match as_array(get(p, "array")) {
        Some(arr) => {
            let n = arr.len();
            let mut i: usize = 0;
            while i < n
                invariant
                    n == arr@.len(),
                    i <= n,
                    array_of(member(*p, "array"@)) == Some(arr@),
                    str_of(member(*p, "type"@)) == Some("resources-available-array"@),
                    forall|k: int| 0 <= k < i ==> resource_ok(#[trigger] arr@[k]),
                decreases n - i,
            {
                if !is_resource_ok(&arr[i]) {
                    proof {
                        assert(!resource_ok(array_of(member(*p, "array"@))->0[i as int]));
                    }
                    return false;
                }
                i = i + 1;
            }
            true
        },
        None => false,
    }
}

/// Whether a packet of the server is well formed (see [`packet_ok`]), as
/// [`handle_packet`] requires.
pub fn is_packet_ok(packet: &Json) -> (b: bool)
    ensures
        b == packet_ok(*packet),
{
    match as_str(get(packet, "from")) {
        None => false,
        Some(from) => {
            let root = crate::origin::string_is(from, "root");
            if !root && crate::origin::starts_with(from.as_str(), "console") {
                get(packet, "messages").is_none() || as_array(get(packet, "messages")).is_some()
            } else if !root && crate::origin::starts_with(from.as_str(), "target") {
                is_target_packet_ok(packet)
            } else {
                true
            }
        },
    }
}

/// The ASCII decimal digits of `n`.
pub open spec fn decimal_bytes(n: nat) -> Seq<u8>
    decreases n,
{
    if n < 10 {
        seq![(48 + n) as u8]
    } else {
        decimal_bytes(n / 10).push((48 + n % 10) as u8)
    }
}

pub open spec fn is_digit(b: u8) -> bool {
    48 <= b <= 57
}

/// The number that the ASCII digits `ds` write.
pub open spec fn digits_value(ds: Seq<u8>) -> nat
    decreases ds.len(),
{
    if ds.len() == 0 {
        0
    } else {
        digits_value(ds.drop_last()) * 10 + (ds.last() - 48) as nat
    }
}

/// The digits of a size, after an optional plus sign.
pub open spec fn size_digits(ds: Seq<u8>) -> Seq<u8> {
    if ds.len() > 0 && ds[0] == 43 {
        ds.drop_first()
    } else {
        ds
    }
}

/// The size that the text `ds` before the colon of a packet gives: an
/// optional plus sign, then at least one ASCII digit, of a value that fits
/// a `usize`; `None` for any other text.
pub open spec fn packet_size(ds: Seq<u8>) -> Option<usize> {
    let body = size_digits(ds);
    if body.len() > 0 && (forall|i: int| 0 <= i < body.len() ==> is_digit(#[trigger] body[i]))
        && digits_value(body) <= usize::MAX {
        Some(digits_value(body) as usize)
    } else {
        None
    }
}

proof fn lemma_digits_value_monotone(ds: Seq<u8>, k: int)
    requires
        0 <= k <= ds.len(),
        forall|i: int| 0 <= i < ds.len() ==> is_digit(#[trigger] ds[i]),
    ensures
        digits_value(ds.take(k)) <= digits_value(ds),
    decreases ds.len() - k,
{
    if k == ds.len() {
        assert(ds.take(k) =~= ds);
    } else {
        lemma_digits_value_monotone(ds, k + 1);
        assert(ds.take(k + 1).drop_last() =~= ds.take(k));
        assert(ds.take(k + 1).last() == ds[k]);
        assert(digits_value(ds.take(k)) <= digits_value(ds.take(k + 1))) by (nonlinear_arith)
            requires
                digits_value(ds.take(k + 1)) == digits_value(ds.take(k)) * 10 + (ds[k] - 48) as nat,
                48 <= ds[k],
        ;
    }
}

/// The size of a packet from the text before its colon (see
/// [`packet_size`]).
pub fn parse_packet_size(ds: &Vec<u8>) -> (r: Option<usize>)
    ensures
        r == packet_size(ds@),
{
    let n = ds.len();
    let start: usize = if n > 0 && ds[0] == 43 { 1 } else { 0 };
    let ghost body = size_digits(ds@);
    proof {
        assert(body =~= ds@.subrange(start as int, n as int));
    }
    if start >= n {
        proof {
            assert(body.len() == 0);
        }
        return None;
    }
    let mut value: usize = 0;
    let mut i: usize = start;
    while i < n
        invariant
            n == ds@.len(),
            start <= i <= n,
            start < n,
            body == ds@.subrange(start as int, n as int),
            body == size_digits(ds@),
            forall|j: int| 0 <= j < i - start ==> is_digit(#[trigger] body[j]),
            value as nat == digits_value(body.take(i - start)),
        decreases n - i,
    {
        let b = ds[i];
        proof {
            assert(body[i - start] == b);
            assert(body.take(i - start + 1).drop_last() =~= body.take(i - start));
            assert(body.take(i - start + 1).last() == b);
        }
        if b < 48 || b > 57 {
            proof {
                assert(!is_digit(body[i - start]));
            }
            return None;
        }
        let next = match value.checked_mul(10) {
            Some(v) => v.checked_add((b - 48) as usize),
            None => None,
        };
        match next {
            Some(v) => {
                value = v;
            },
            None => {
                proof {
                    let k = i - start + 1;
                    assert(digits_value(body.take(k)) == digits_value(body.take(i - start)) * 10 + (b - 48) as nat);
                    assert(digits_value(body.take(k)) > usize::MAX);
                    // the value only grows with more digits
                    if forall|j: int| 0 <= j < body.len() ==> is_digit(#[trigger] body[j]) {
                        lemma_digits_value_monotone(body, k);
                    }
                }
                return None;
            },
        }
        i = i + 1;
    }
    proof {
        assert(body.take(n - start) =~= body);
    }
    Some(value)
}

/// The framing of a packet on the wire: its length in bytes, in decimal,
/// a colon, then the packet.
pub open spec fn framed(payload: Seq<u8>) -> Seq<u8> {
    decimal_bytes(payload.len()) + seq![58u8] + payload
}

fn push_decimal_bytes(out: &mut Vec<u8>, n: usize)
    ensures
        final(out)@ == old(out)@ + decimal_bytes(n as nat),
    decreases n,
{
    if n < 10 {
        out.push((48 + n) as u8);
        proof {
            assert(final(out)@ =~= old(out)@ + decimal_bytes(n as nat));
        }
    } else {
        push_decimal_bytes(out, n / 10);
        out.push((48 + n % 10) as u8);
        proof {
            assert(decimal_bytes(n as nat) == decimal_bytes((n / 10) as nat).push((48 + n % 10) as u8));
        }
    }
}

/// The bytes that sending `payload` writes (see [`framed`]).
pub fn frame_packet(payload: &Vec<u8>) -> (r: Vec<u8>)
    ensures
        r@ == framed(payload@),
{
    let mut out: Vec<u8> = Vec::new();
    push_decimal_bytes(&mut out, payload.len());
    out.push(58);
    let n = payload.len();
    let mut i: usize = 0;
    let ghost head = out@;
    while i < n
        invariant
            n == payload@.len(),
            i <= n,
            out@ == head + payload@.take(i as int),
        decreases n - i,
    {
        out.push(payload[i]);
        proof {
            assert(payload@.take(i + 1) =~= payload@.take(i as int).push(payload@[i as int]));
        }
        i = i + 1;
    }
    proof {
        assert(payload@.take(n as int) =~= payload@);
        assert(head =~= decimal_bytes(payload@.len()) + seq![58u8]);
    }
    out
}

/// Where reading the text before a packet's colon has got.
pub enum HeaderStep {
    /// More bytes of the size are needed.
    More,
    /// The colon came: the packet has this many bytes.
    Size(usize),
    /// The colon came after text that is no size.
    Malformed,
}

/// Reading a packet, one byte of its header at a time: a colon ends the
/// header (see [`packet_size`]); any other byte is kept in `digits`.
pub fn read_header_byte(digits: &mut Vec<u8>, byte: u8) -> (r: HeaderStep)
    ensures
        byte == 58 ==> final(digits)@ == old(digits)@ && match packet_size(old(digits)@) {
            Some(n) => r == HeaderStep::Size(n),
            None => r is Malformed,
        },
        byte != 58 ==> final(digits)@ == old(digits)@.push(byte) && r is More,
{
    if byte == 58 {
        match parse_packet_size(digits) {
            Some(n) => HeaderStep::Size(n),
            None => HeaderStep::Malformed,
        }
    } else {
        digits.push(byte);
        HeaderStep::More
    }
}

proof fn lemma_decimal_digits(n: nat)
    ensures
        decimal_bytes(n).len() > 0,
        forall|i: int| 0 <= i < decimal_bytes(n).len() ==> is_digit(#[trigger] decimal_bytes(n)[i]),
        digits_value(decimal_bytes(n)) == n,
    decreases n,
{
    if n < 10 {
        let t = decimal_bytes(n);
        assert(((48 + n) as u8) as int == 48 + n);
        assert(t.drop_last() =~= Seq::<u8>::empty());
        assert(t[0] == (48 + n) as u8);
        assert(digits_value(Seq::<u8>::empty()) == 0);
        assert(digits_value(t) == digits_value(t.drop_last()) * 10 + (t.last() - 48) as nat);
    } else {
        lemma_decimal_digits(n / 10);
        let s = decimal_bytes(n / 10);
        let t = s.push((48 + n % 10) as u8);
        assert(((48 + n % 10) as u8) as int == 48 + n % 10);
        assert(t.drop_last() =~= s);
        assert(digits_value(t) == digits_value(s) * 10 + (n % 10));
        assert(n == (n / 10) * 10 + n % 10) by (nonlinear_arith);
        assert forall|i: int| 0 <= i < t.len() implies is_digit(#[trigger] t[i]) by {
            if i < s.len() {
                assert(t[i] == s[i]);
            }
        }
    }
}

/// Reading back the framing of a packet gives its length: the text before
/// the colon is the decimal length, which parses to the length.
pub proof fn lemma_frame_roundtrip(payload: Seq<u8>)
    requires
        payload.len() <= usize::MAX,
    ensures
        framed(payload) == decimal_bytes(payload.len()) + seq![58u8] + payload,
        !decimal_bytes(payload.len()).contains(58u8),
        packet_size(decimal_bytes(payload.len())) == Some(payload.len() as usize),
{
    let ds = decimal_bytes(payload.len());
    lemma_decimal_digits(payload.len());
    assert(ds[0] != 43u8);
    assert(size_digits(ds) == ds);
    if ds.contains(58u8) {
        let j = choose|j: int| 0 <= j < ds.len() && ds[j] == 58u8;
        assert(is_digit(ds[j]));
    }
}

} // verus!
