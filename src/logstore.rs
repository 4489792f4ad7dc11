//! The append-only audit and event logs: the kinds of audit event, the text of
//! one record, the timestamp format, and reading back the latest records.
use vstd::prelude::*;

use crate::codec::{
    lemma_delims_one_line, lemma_join_front, lemma_join_one_line, lemma_no_newline_char,
    lemma_no_newline_concat,
    delim_2, delim_3, delim_bar, has_sub, join_spec, join_with, lemma_delims_head_unique,
    lemma_split_concat, lemma_split_free, newline, same_text, split_on, split_spec, string_of,
    views,
};

verus! {

/// The paths of the files the server keeps: audit log, event log and rules.
pub struct LogFiles {
    pub audit_file: String,
    pub event_file: String,
    pub rules_file: String,
}

/// The kinds of administrative and session actions that the audit log records.
#[derive(Clone, Copy, Debug, PartialEq, Eq, Structural)]
pub enum AuditEventType {
    AudEnable,
    AudDisable,
    SenEnable,
    SenDisable,
    UserLogon,
    FailLogon,
    NetSenConn,
    NetSenDisconn,
    HostSenConn,
    HostSenDisconn,
    RulesUpdate,
    AudLogAccess,
    EvtLogAccess,
    ServOff,
    ServOn,
}

/// The name under which an audit event kind is written.
pub open spec fn kind_text(k: AuditEventType) -> Seq<char> {
    match k {
        AuditEventType::AudEnable => "AudEnable"@,
        AuditEventType::AudDisable => "AudDisable"@,
        AuditEventType::SenEnable => "SenEnable"@,
        AuditEventType::SenDisable => "SenDisable"@,
        AuditEventType::UserLogon => "UserLogon"@,
        AuditEventType::FailLogon => "FailLogon"@,
        AuditEventType::NetSenConn => "NetSenConn"@,
        AuditEventType::NetSenDisconn => "NetSenDisconn"@,
        AuditEventType::HostSenConn => "HostSenConn"@,
        AuditEventType::HostSenDisconn => "HostSenDisconn"@,
        AuditEventType::RulesUpdate => "RulesUpdate"@,
        AuditEventType::AudLogAccess => "AudLogAccess"@,
        AuditEventType::EvtLogAccess => "EvtLogAccess"@,
        AuditEventType::ServOff => "ServOff"@,
        AuditEventType::ServOn => "ServOn"@,
    }
}

impl AuditEventType {
    /// The name under which this kind is written.
    pub fn to_text(&self) -> (r: &'static str)
        ensures
            r@ == kind_text(*self),
    {
        match self {
            AuditEventType::AudEnable => "AudEnable",
            AuditEventType::AudDisable => "AudDisable",
            AuditEventType::SenEnable => "SenEnable",
            AuditEventType::SenDisable => "SenDisable",
            AuditEventType::UserLogon => "UserLogon",
            AuditEventType::FailLogon => "FailLogon",
            AuditEventType::NetSenConn => "NetSenConn",
            AuditEventType::NetSenDisconn => "NetSenDisconn",
            AuditEventType::HostSenConn => "HostSenConn",
            AuditEventType::HostSenDisconn => "HostSenDisconn",
            AuditEventType::RulesUpdate => "RulesUpdate",
            AuditEventType::AudLogAccess => "AudLogAccess",
            AuditEventType::EvtLogAccess => "EvtLogAccess",
            AuditEventType::ServOff => "ServOff",
            AuditEventType::ServOn => "ServOn",
        }
    }
}

/// A local calendar date and time of day.
#[derive(Clone, Copy, Debug, PartialEq, Eq, Structural)]
pub struct CivilTime {
    pub year: i32,
    pub month: u32,
    pub day: u32,
    pub hour: u32,
    pub minute: u32,
    pub second: u32,
}

impl CivilTime {
    /// Every field in its calendar range.
    pub open spec fn valid(&self) -> bool {
        &&& 1 <= self.month <= 12
        &&& 1 <= self.day <= 31
        &&& self.hour < 24
        &&& self.minute < 60
        &&& self.second < 60
        &&& -1_000_000 < self.year < 1_000_000
    }
}

/// Relies on `chrono::DateTime::from_timestamp` and `chrono::DateTime::with_timezone`
/// with `chrono::Local`: the local calendar time of a Unix time in seconds, when
/// chrono can represent it, which it can for every time from 1970 through the
/// year 9999. Which local time comes out depends on the machine's time zone.
#[verifier::external_body]
pub(crate) fn local_time(unix_secs: i64) -> (r: Option<CivilTime>)
    ensures
        r matches Some(t) ==> t.valid(),
        0 <= unix_secs <= 253_402_300_799 ==> r is Some,
{
    chrono::DateTime::from_timestamp(unix_secs, 0).map(|d| {
        let l = d.with_timezone(&chrono::Local);
        CivilTime {
            year: chrono::Datelike::year(&l),
            month: chrono::Datelike::month(&l),
            day: chrono::Datelike::day(&l),
            hour: chrono::Timelike::hour(&l),
            minute: chrono::Timelike::minute(&l),
            second: chrono::Timelike::second(&l),
        }
    })
}

/// The decimal digit of a value below ten.
pub open spec fn digit(n: nat) -> char {
    seq!['0', '1', '2', '3', '4', '5', '6', '7', '8', '9'][n as int]
}

/// The decimal text of `n`, zero-padded on the left to at least `width` digits.
pub open spec fn decimal(n: nat, width: nat) -> Seq<char>
    decreases width, n,
{
    if n < 10 && width <= 1 {
        seq![digit(n)]
    } else {
        decimal(n / 10, if width > 0 { (width - 1) as nat } else { 0 }) + seq![digit(n % 10)]
    }
}

/// The year as the timestamp writes it: four digits at least, and a sign
/// outside the years 0 to 9999.
pub open spec fn year_text(y: int) -> Seq<char> {
    if y < 0 {
        seq!['-'] + decimal((-y) as nat, 4)
    } else if y > 9999 {
        seq!['+'] + decimal(y as nat, 4)
    } else {
        decimal(y as nat, 4)
    }
}

/// `DD-MM-YYYY HH:MM:SS`.
pub open spec fn timestamp_text(t: CivilTime) -> Seq<char> {
    decimal(t.day as nat, 2) + seq!['-'] + decimal(t.month as nat, 2) + seq!['-'] + year_text(
        t.year as int,
    ) + seq![' '] + decimal(t.hour as nat, 2) + seq![':'] + decimal(t.minute as nat, 2) + seq![
        ':',
    ] + decimal(t.second as nat, 2)
}

fn push_decimal(out: &mut Vec<char>, n: u32, width: u32)
    requires
        width <= 10,
    ensures
        final(out)@ == old(out)@ + decimal(n as nat, width as nat),
    decreases width, n,
{
    let digits = vec!['0', '1', '2', '3', '4', '5', '6', '7', '8', '9'];
    assert(digits@ =~= seq!['0', '1', '2', '3', '4', '5', '6', '7', '8', '9']);
    if n < 10 && width <= 1 {
        out.push(digits[n as usize]);
    } else {
        push_decimal(out, n / 10, if width > 0 { width - 1 } else { 0 });
        out.push(digits[(n % 10) as usize]);
    }
}

/// The timestamp of a log record, `DD-MM-YYYY HH:MM:SS`.
pub fn format_timestamp(t: &CivilTime) -> (r: String)
    ensures
        r@ == timestamp_text(*t),
{
    let mut out: Vec<char> = Vec::new();
    push_decimal(&mut out, t.day, 2);
    out.push('-');
    push_decimal(&mut out, t.month, 2);
    out.push('-');
    if t.year < 0 {
        out.push('-');
        let y: i64 = -(t.year as i64);
        push_decimal(&mut out, y as u32, 4);
    } else if t.year > 9999 {
        out.push('+');
        push_decimal(&mut out, t.year as u32, 4);
    } else {
        push_decimal(&mut out, t.year as u32, 4);
    }
    out.push(' ');
    push_decimal(&mut out, t.hour, 2);
    out.push(':');
    push_decimal(&mut out, t.minute, 2);
    out.push(':');
    push_decimal(&mut out, t.second, 2);
    assert(out@ =~= timestamp_text(*t));
    string_of(out.as_slice())
}

/// An audit record before it is stamped with the time: the host it concerns,
/// the user, the kind of event and a free-text message.
pub struct AuditRecord {
    pub host: String,
    pub user: String,
    pub kind: AuditEventType,
    pub message: String,
}

/// The fields of an audit line: time, host, user, kind, message.
pub open spec fn audit_fields(
    t: CivilTime,
    host: Seq<char>,
    user: Seq<char>,
    kind: AuditEventType,
    message: Seq<char>,
) -> Seq<Seq<char>> {
    seq![timestamp_text(t), host, user, kind_text(kind), message]
}

/// One line of the audit log, with its line break.
pub open spec fn audit_line_spec(
    t: CivilTime,
    host: Seq<char>,
    user: Seq<char>,
    kind: AuditEventType,
    message: Seq<char>,
) -> Seq<char> {
    join_spec(audit_fields(t, host, user, kind, message), delim_bar()) + newline()
}

/// The line to append to the audit log for an event at local time `t`, or
/// `None` when auditing is switched off and nothing is to be written.
pub fn write_audit_event(
    t: &CivilTime,
    host: &str,
    user: &str,
    event_type: AuditEventType,
    message: &str,
    audit_status: bool,
) -> (r: Option<String>)
    ensures
        audit_status <==> r is Some,
        r matches Some(line) ==> line@ == audit_line_spec(*t, host@, user@, event_type, message@),
{
    if !audit_status {
        return None;
    }
    let mut fields: Vec<String> = Vec::new();
    fields.push(format_timestamp(t));
    fields.push(String::from_str(host));
    fields.push(String::from_str(user));
    fields.push(String::from_str(event_type.to_text()));
    fields.push(String::from_str(message));
    assert(views(fields@) =~= audit_fields(*t, host@, user@, event_type, message@));
    let mut line = join_with(&fields, "[:|:]");
    line.append("\n");
    Some(line)
}

/// The level tag that an event line carries.
pub open spec fn level_tag(is_net_level: bool) -> Seq<char> {
    if is_net_level {
        "network"@
    } else {
        "host"@
    }
}

/// One line of the event log, with its line break: time, sensor name, level
/// tag and rule hash.
pub open spec fn event_line_spec(
    t: CivilTime,
    host: Seq<char>,
    rule_hash: Seq<char>,
    is_net_level: bool,
) -> Seq<char> {
    join_spec(seq![timestamp_text(t), host, level_tag(is_net_level), rule_hash], delim_2())
        + newline()
}

/// The line to append to the event log for a rule match at local time `t`.
pub fn write_security_event(t: &CivilTime, host: &str, rule_hash: &str, is_net_level: bool) -> (r:
    String)
    ensures
        r@ == event_line_spec(*t, host@, rule_hash@, is_net_level),
{
    let mut fields: Vec<String> = Vec::new();
    fields.push(format_timestamp(t));
    fields.push(String::from_str(host));
    if is_net_level {
        fields.push(String::from_str("network"));
    } else {
        fields.push(String::from_str("host"));
    }
    fields.push(String::from_str(rule_hash));
    assert(views(fields@) =~= seq![timestamp_text(*t), host@, level_tag(is_net_level), rule_hash@]);
    let mut line = join_with(&fields, "[:2:]");
    line.append("\n");
    line
}

/// The lines that are not empty, in order.
pub open spec fn nonempty_lines(lines: Seq<Seq<char>>) -> Seq<Seq<char>>
    decreases lines.len(),
{
    if lines.len() == 0 {
        Seq::empty()
    } else if lines.last().len() == 0 {
        nonempty_lines(lines.drop_last())
    } else {
        nonempty_lines(lines.drop_last()).push(lines.last())
    }
}

/// The last `n` items of `s`, or all of them when there are fewer.
pub open spec fn last_n<A>(s: Seq<A>, n: nat) -> Seq<A> {
    if s.len() <= n {
        s
    } else {
        s.subrange(s.len() - n, s.len() as int)
    }
}

/// The records of a log, in order: its non-empty lines.
pub open spec fn records_spec(content: Seq<char>) -> Seq<Seq<char>> {
    nonempty_lines(split_spec(content, newline()))
}

/// The last `n` records of a log, in the order they were written. A log of fewer
/// than `n` records gives all of them; a longer one exactly its last `n`.
pub fn tail(content: &str, n: usize) -> (r: Vec<String>)
    ensures
        views(r@) == last_n(records_spec(content@), n as nat),
        records_spec(content@).len() < n ==> views(r@) == records_spec(content@),
        records_spec(content@).len() >= n ==> views(r@).len() == n && views(r@)
            == records_spec(content@).subrange(
            records_spec(content@).len() - n,
            records_spec(content@).len() as int,
        ),
{
    let recs = records(content);
    let ghost all = views(recs@);
    let start: usize = if recs.len() <= n { 0 } else { recs.len() - n };
    let mut out: Vec<String> = Vec::new();
    let mut j: usize = start;
    while j < recs.len()
        invariant
            start <= j <= recs@.len(),
            all == views(recs@),
            views(out@) == all.subrange(start as int, j as int),
        decreases recs@.len() - j,
    {
        let ghost before = views(out@);
        out.push(recs[j].clone());
        assert(views(out@) =~= before.push(recs@[j as int]@));
        assert(views(out@) =~= all.subrange(start as int, j + 1));
        j = j + 1;
    }
    out
}

/// The records of a log: its non-empty lines, in order.
pub fn records(content: &str) -> (r: Vec<String>)
    ensures
        views(r@) == records_spec(content@),
{
    proof {
        reveal_strlit("\n");
    }
    let lines = split_on(content, "\n");
    let ghost lv = views(lines@);
    let mut recs: Vec<String> = Vec::new();
    let mut i: usize = 0;
    while i < lines.len()
        invariant
            i <= lines@.len(),
            lv == views(lines@),
            views(recs@) == nonempty_lines(lv.subrange(0, i as int)),
        decreases lines@.len() - i,
    {
        let ghost sub = lv.subrange(0, i + 1);
        assert(sub.drop_last() =~= lv.subrange(0, i as int));
        assert(sub.last() == lines@[i as int]@);
        if !lines[i].as_str().is_empty() {
            let ghost before = views(recs@);
            recs.push(lines[i].clone());
            assert(views(recs@) =~= before.push(lines@[i as int]@));
        }
        i = i + 1;
    }
    assert(lv.subrange(0, i as int) =~= lv);
    recs
}

/// The sensor name that an event line carries: its second field.
pub open spec fn event_host(line: Seq<char>) -> Option<Seq<char>> {
    let fields = split_spec(split_spec(line, delim_3())[0], delim_2());
    if fields.len() >= 2 {
        Some(fields[1])
    } else {
        None
    }
}

/// The records among these lines whose sensor name is `host`, in order.
pub open spec fn records_of(recs: Seq<Seq<char>>, host: Seq<char>) -> Seq<Seq<char>>
    decreases recs.len(),
{
    if recs.len() == 0 {
        Seq::empty()
    } else if event_host(recs.last()) == Some(host) {
        records_of(recs.drop_last(), host).push(recs.last())
    } else {
        records_of(recs.drop_last(), host)
    }
}

fn event_host_of(line: &str) -> (r: Option<String>)
    ensures
        match r {
            Some(h) => event_host(line@) == Some(h@),
            None => event_host(line@) is None,
        },
{
    proof {
        reveal_strlit("[:3:]");
        reveal_strlit("[:2:]");
    }
    let outer = split_on(line, "[:3:]");
    assert(views(outer@).len() >= 1) by {
        crate::codec::lemma_join_split(line@, delim_3());
    }
    let mut fields = split_on(outer[0].as_str(), "[:2:]");
    if fields.len() >= 2 {
        let ghost fv = views(fields@);
        fields.truncate(2);
        let h = fields.pop().unwrap();
        assert(h@ == fv[1]);
        Some(h)
    } else {
        None
    }
}

/// The latest records of the event log, at most `n`: of every sensor when
/// `sensor_hostname` is empty, else of the sensor of that name alone.
pub fn get_latest_event_messages(content: &str, sensor_hostname: &str, n: usize) -> (r: Vec<
    String,
>)
    ensures
        sensor_hostname@.len() == 0 ==> views(r@) == last_n(records_spec(content@), n as nat),
        sensor_hostname@.len() > 0 ==> views(r@) == last_n(
            records_of(records_spec(content@), sensor_hostname@),
            n as nat,
        ),
{
    let recs = records(content);
    let ghost all = views(recs@);
    if sensor_hostname.is_empty() {
        return tail(content, n);
    }
    let mut picked: Vec<String> = Vec::new();
    let mut i: usize = 0;
    while i < recs.len()
        invariant
            i <= recs@.len(),
            all == views(recs@),
            views(picked@) == records_of(all.subrange(0, i as int), sensor_hostname@),
        decreases recs@.len() - i,
    {
        let ghost sub = all.subrange(0, i + 1);
        assert(sub.drop_last() =~= all.subrange(0, i as int));
        assert(sub.last() == recs@[i as int]@);
        match event_host_of(recs[i].as_str()) {
            Some(h) => {
                if same_text(h.as_str(), sensor_hostname) {
                    let ghost before = views(picked@);
                    picked.push(recs[i].clone());
                    assert(views(picked@) =~= before.push(recs@[i as int]@));
                }
            },
            None => {},
        }
        i = i + 1;
    }
    assert(all.subrange(0, i as int) =~= all);
    let ghost mine = views(picked@);
    let start: usize = if picked.len() <= n { 0 } else { picked.len() - n };
    let mut out: Vec<String> = Vec::new();
    let mut j: usize = start;
    while j < picked.len()
        invariant
            start <= j <= picked@.len(),
            mine == views(picked@),
            views(out@) == mine.subrange(start as int, j as int),
        decreases picked@.len() - j,
    {
        let ghost before = views(out@);
        out.push(picked[j].clone());
        assert(views(out@) =~= before.push(picked@[j as int]@));
        assert(views(out@) =~= mine.subrange(start as int, j + 1));
        j = j + 1;
    }
    assert(mine.subrange(0, mine.len() as int) =~= mine);
    out
}

/// The ten latest records of the audit log, in order.
pub fn get_10_latest_audit_messages(content: &str) -> (r: Vec<String>)
    ensures
        views(r@) == last_n(records_spec(content@), 10),
{
    tail(content, 10)
}

/// The ten latest records of the event log, in order: of every sensor when
/// `sensor_hostname` is empty, else of that sensor alone.
pub fn get_10_latest_event_messages(content: &str, sensor_hostname: &str) -> (r: Vec<String>)
    ensures
        sensor_hostname@.len() == 0 ==> views(r@) == last_n(records_spec(content@), 10),
        sensor_hostname@.len() > 0 ==> views(r@) == last_n(
            records_of(records_spec(content@), sensor_hostname@),
            10,
        ),
{
    get_latest_event_messages(content, sensor_hostname, 10)
}

/// Switches auditing on or off, and gives the audit record of the change,
/// which is written whatever the new state.
pub fn change_audit_status(audit_status: &mut bool, host: &str, user: &str) -> (r: (
    bool,
    AuditRecord,
))
    ensures
        *final(audit_status) == !*old(audit_status),
        r.0 == *final(audit_status),
        r.1.host@ == host@,
        r.1.user@ == user@,
        r.1.kind == if r.0 {
            AuditEventType::AudEnable
        } else {
            AuditEventType::AudDisable
        },
        r.1.message@ == if r.0 {
            "Audit enabled"@
        } else {
            "Audit disabled"@
        },
{
    *audit_status = !*audit_status;
    let rec = if *audit_status {
        AuditRecord {
            host: String::from_str(host),
            user: String::from_str(user),
            kind: AuditEventType::AudEnable,
            message: String::from_str("Audit enabled"),
        }
    } else {
        AuditRecord {
            host: String::from_str(host),
            user: String::from_str(user),
            kind: AuditEventType::AudDisable,
            message: String::from_str("Audit disabled"),
        }
    };
    (*audit_status, rec)
}

/// The audit line for a record stamped with the local time of `unix_secs`:
/// `None` when auditing is off or the time cannot be represented.
pub fn audit_line_at(unix_secs: i64, rec: &AuditRecord, audit_status: bool) -> (r: Option<String>)
    ensures
        !audit_status ==> r is None,
        audit_status && 0 <= unix_secs <= 253_402_300_799 ==> r is Some,
        r matches Some(line) ==> exists|t: CivilTime|
            t.valid() && line@ == audit_line_spec(t, rec.host@, rec.user@, rec.kind, rec.message@),
{
    if !audit_status {
        return None;
    }
    match local_time(unix_secs) {
        Some(t) => write_audit_event(
            &t,
            rec.host.as_str(),
            rec.user.as_str(),
            rec.kind,
            rec.message.as_str(),
            true,
        ),
        None => None,
    }
}

/// A log built by appending these records, each with its line break.
pub open spec fn appended(recs: Seq<Seq<char>>) -> Seq<char>
    decreases recs.len(),
{
    if recs.len() == 0 {
        Seq::empty()
    } else {
        appended(recs.drop_last()) + recs.last() + newline()
    }
}

/// Appending one record of one line to a log that is empty or ends with a
/// line break adds exactly that record.
pub proof fn lemma_append_record(content: Seq<char>, line: Seq<char>)
    requires
        content.len() == 0 || content.last() == '\n',
        line.len() > 0,
        !has_sub(line, newline()),
    ensures
        records_spec(content + line + newline()) == records_spec(content).push(line),
        (content + line + newline()).last() == '\n',
{
    reveal_strlit("\n");
    lemma_delims_head_unique();
    let nl = newline();
    let e = Seq::<char>::empty();
    assert(!has_sub(e, nl));
    lemma_split_free(e, nl);
    lemma_split_free(line, nl);
    lemma_split_concat(line, nl, e);
    assert(line + nl + e =~= line + nl);
    let tail = seq![line, e];
    assert(seq![line] + seq![e] =~= tail);
    assert(split_spec(line + nl, nl) == tail);
    if content.len() == 0 {
        assert(content + line + nl =~= line + nl);
        assert(split_spec(content + line + nl, nl) == tail);
        assert(content =~= e);
        assert(split_spec(content, nl) == seq![e]);
        assert(content =~= e);
        assert(tail.drop_last() =~= seq![line]);
        assert(seq![line].drop_last() =~= Seq::<Seq<char>>::empty());
        assert(seq![e].drop_last() =~= Seq::<Seq<char>>::empty());
        assert(seq![e].last() == e);
        assert(nonempty_lines(seq![e]) == nonempty_lines(Seq::<Seq<char>>::empty()));
        assert(tail.last() == e);
        assert(nonempty_lines(tail) == nonempty_lines(seq![line]));
        assert(seq![line].last() == line);
        assert(nonempty_lines(seq![line]) == nonempty_lines(Seq::<Seq<char>>::empty()).push(line));
    } else {
        let c = content.drop_last();
        assert(c + nl =~= content);
        assert(content + line + nl =~= c + nl + (line + nl));
        lemma_split_concat(c, nl, line + nl);
        lemma_split_concat(c, nl, e);
        assert(c + nl + e =~= content);
        let xs = split_spec(c, nl);
        assert(split_spec(content + line + nl, nl) == xs + tail);
        assert(split_spec(content, nl) == xs + seq![e]);
        assert((xs + tail).drop_last() =~= xs.push(line));
        assert(xs.push(line).drop_last() =~= xs);
        assert((xs + seq![e]).drop_last() =~= xs);
        assert((xs + tail).last() == e);
        assert(nonempty_lines(xs + tail) == nonempty_lines(xs.push(line)));
        assert(xs.push(line).last() == line);
        assert(nonempty_lines(xs.push(line)) == nonempty_lines(xs).push(line));
        assert((xs + seq![e]).last() == e);
        assert(nonempty_lines(xs + seq![e]) == nonempty_lines(xs));
    }
}

/// However the appends of several writers are ordered, a log built by
/// appending whole one-line records holds exactly those records, one per
/// append, in the order they were appended.
pub proof fn lemma_appends_give_records(recs: Seq<Seq<char>>)
    requires
        forall|k: int| 0 <= k < recs.len() ==> (#[trigger] recs[k]).len() > 0 && !has_sub(
            recs[k],
            newline(),
        ),
    ensures
        records_spec(appended(recs)) == recs,
        appended(recs).len() == 0 || appended(recs).last() == '\n',
    decreases recs.len(),
{
    if recs.len() == 0 {
        reveal_strlit("\n");
        let e = Seq::<char>::empty();
        assert(!has_sub(e, newline()));
        lemma_split_free(e, newline());
        assert(seq![e].drop_last() =~= Seq::<Seq<char>>::empty());
        assert(seq![e].last() == e);
        assert(appended(recs) == e);
        assert(nonempty_lines(seq![e]) == nonempty_lines(Seq::<Seq<char>>::empty()));
        assert(records_spec(e) =~= recs);
    } else {
        let init = recs.drop_last();
        assert forall|k: int| 0 <= k < init.len() implies (#[trigger] init[k]).len() > 0 && !has_sub(
            init[k],
            newline(),
        ) by {
            assert(init[k] == recs[k]);
        }
        lemma_appends_give_records(init);
        lemma_append_record(appended(init), recs.last());
        assert(init.push(recs.last()) =~= recs);
    }
}

proof fn lemma_decimal_one_line(n: nat, width: nat)
    ensures
        decimal(n, width).len() > 0,
        forall|i: int| 0 <= i < decimal(n, width).len() ==> #[trigger] decimal(n, width)[i] != '\n',
    decreases width, n,
{
    let ds = seq!['0', '1', '2', '3', '4', '5', '6', '7', '8', '9'];
    assert forall|k: int| 0 <= k < 10 implies #[trigger] ds[k] != '\n' by {}
    if n < 10 && width <= 1 {
        assert(digit(n) == ds[n as int]);
    } else {
        let w = if width > 0 { (width - 1) as nat } else { 0 };
        lemma_decimal_one_line(n / 10, w);
        assert(digit(n % 10) == ds[(n % 10) as int]);
        let d = decimal(n, width);
        let a = decimal(n / 10, w);
        assert forall|i: int| 0 <= i < d.len() implies #[trigger] d[i] != '\n' by {
            if i < a.len() {
                assert(d[i] == a[i]);
            }
        }
    }
}

proof fn lemma_timestamp_one_line(t: CivilTime)
    ensures
        timestamp_text(t).len() > 0,
        !has_sub(timestamp_text(t), newline()),
{
    lemma_decimal_one_line(t.day as nat, 2);
    lemma_decimal_one_line(t.month as nat, 2);
    lemma_decimal_one_line(t.hour as nat, 2);
    lemma_decimal_one_line(t.minute as nat, 2);
    lemma_decimal_one_line(t.second as nat, 2);
    let y = t.year as int;
    lemma_decimal_one_line((-y) as nat, 4);
    lemma_decimal_one_line(y as nat, 4);
    let yt = year_text(y);
    assert forall|i: int| 0 <= i < yt.len() implies #[trigger] yt[i] != '\n' by {
        if y < 0 {
            if i > 0 {
                assert(yt[i] == decimal((-y) as nat, 4)[i - 1]);
            }
        } else if y > 9999 {
            if i > 0 {
                assert(yt[i] == decimal(y as nat, 4)[i - 1]);
            }
        }
    }
    lemma_no_newline_char(yt);
    lemma_no_newline_char(decimal(t.day as nat, 2));
    lemma_no_newline_char(decimal(t.month as nat, 2));
    lemma_no_newline_char(decimal(t.hour as nat, 2));
    lemma_no_newline_char(decimal(t.minute as nat, 2));
    lemma_no_newline_char(decimal(t.second as nat, 2));
    lemma_no_newline_char(seq!['-']);
    lemma_no_newline_char(seq![' ']);
    lemma_no_newline_char(seq![':']);
    let p1 = decimal(t.day as nat, 2) + seq!['-'];
    lemma_no_newline_concat(decimal(t.day as nat, 2), seq!['-']);
    let p2 = p1 + decimal(t.month as nat, 2);
    lemma_no_newline_concat(p1, decimal(t.month as nat, 2));
    let p3 = p2 + seq!['-'];
    lemma_no_newline_concat(p2, seq!['-']);
    let p4 = p3 + yt;
    lemma_no_newline_concat(p3, yt);
    let p5 = p4 + seq![' '];
    lemma_no_newline_concat(p4, seq![' ']);
    let p6 = p5 + decimal(t.hour as nat, 2);
    lemma_no_newline_concat(p5, decimal(t.hour as nat, 2));
    let p7 = p6 + seq![':'];
    lemma_no_newline_concat(p6, seq![':']);
    let p8 = p7 + decimal(t.minute as nat, 2);
    lemma_no_newline_concat(p7, decimal(t.minute as nat, 2));
    let p9 = p8 + seq![':'];
    lemma_no_newline_concat(p8, seq![':']);
    lemma_no_newline_concat(p9, decimal(t.second as nat, 2));
}

proof fn lemma_kind_one_line(k: AuditEventType)
    ensures
        !has_sub(kind_text(k), newline()),
{
    reveal_strlit("AudEnable");
    reveal_strlit("AudDisable");
    reveal_strlit("SenEnable");
    reveal_strlit("SenDisable");
    reveal_strlit("UserLogon");
    reveal_strlit("FailLogon");
    reveal_strlit("NetSenConn");
    reveal_strlit("NetSenDisconn");
    reveal_strlit("HostSenConn");
    reveal_strlit("HostSenDisconn");
    reveal_strlit("RulesUpdate");
    reveal_strlit("AudLogAccess");
    reveal_strlit("EvtLogAccess");
    reveal_strlit("ServOff");
    reveal_strlit("ServOn");
    let t = kind_text(k);
    assert forall|i: int| 0 <= i < t.len() implies #[trigger] t[i] != '\n' by {}
    lemma_no_newline_char(t);
}

/// The text of an audit record, without its line break.
pub open spec fn audit_body(
    t: CivilTime,
    host: Seq<char>,
    user: Seq<char>,
    kind: AuditEventType,
    message: Seq<char>,
) -> Seq<char> {
    join_spec(audit_fields(t, host, user, kind, message), delim_bar())
}

/// An audit line is one record on one line: a non-empty text without a
/// line break, then a line break, as long as host, user and message hold
/// no line break. Appended by any number of writers, such lines therefore
/// give one record each (`lemma_appends_give_records`).
pub proof fn lemma_audit_line_one_line(
    t: CivilTime,
    host: Seq<char>,
    user: Seq<char>,
    kind: AuditEventType,
    message: Seq<char>,
)
    requires
        !has_sub(host, newline()),
        !has_sub(user, newline()),
        !has_sub(message, newline()),
    ensures
        audit_line_spec(t, host, user, kind, message) == audit_body(t, host, user, kind, message)
            + newline(),
        audit_body(t, host, user, kind, message).len() > 0,
        !has_sub(audit_body(t, host, user, kind, message), newline()),
{
    lemma_timestamp_one_line(t);
    lemma_kind_one_line(kind);
    lemma_delims_one_line();
    let fs = audit_fields(t, host, user, kind, message);
    assert forall|k: int| 0 <= k < fs.len() implies !has_sub(#[trigger] fs[k], newline()) by {}
    lemma_join_one_line(fs, delim_bar());
    lemma_join_front(fs, delim_bar());
}

/// The text of an event record, without its line break.
pub open spec fn event_body(t: CivilTime, host: Seq<char>, rule_hash: Seq<char>, is_net_level: bool) -> Seq<
    char,
> {
    join_spec(seq![timestamp_text(t), host, level_tag(is_net_level), rule_hash], delim_2())
}

/// An event line is one record on one line, as long as the sensor name and
/// the rule hash hold no line break.
pub proof fn lemma_event_line_one_line(
    t: CivilTime,
    host: Seq<char>,
    rule_hash: Seq<char>,
    is_net_level: bool,
)
    requires
        !has_sub(host, newline()),
        !has_sub(rule_hash, newline()),
    ensures
        event_line_spec(t, host, rule_hash, is_net_level) == event_body(
            t,
            host,
            rule_hash,
            is_net_level,
        ) + newline(),
        event_body(t, host, rule_hash, is_net_level).len() > 0,
        !has_sub(event_body(t, host, rule_hash, is_net_level), newline()),
{
    lemma_timestamp_one_line(t);
    reveal_strlit("network");
    reveal_strlit("host");
    let tag = level_tag(is_net_level);
    assert forall|i: int| 0 <= i < tag.len() implies #[trigger] tag[i] != '\n' by {}
    lemma_no_newline_char(tag);
    lemma_delims_one_line();
    let fs = seq![timestamp_text(t), host, tag, rule_hash];
    assert forall|k: int| 0 <= k < fs.len() implies !has_sub(#[trigger] fs[k], newline()) by {}
    lemma_join_one_line(fs, delim_2());
    lemma_join_front(fs, delim_2());
}

/// The audit lines of these calls, in the order the writers appended them.
pub open spec fn audit_log_of(calls: Seq<(CivilTime, Seq<char>, Seq<char>, AuditEventType, Seq<char>)>) -> Seq<
    char,
>
    decreases calls.len(),
{
    if calls.len() == 0 {
        Seq::empty()
    } else {
        let c = calls.last();
        audit_log_of(calls.drop_last()) + audit_line_spec(c.0, c.1, c.2, c.3, c.4)
    }
}

/// A log that starts empty and to which writers append, in any order, the
/// lines of N audit calls holds exactly N records: each the whole record of
/// one call, in the order of the appends.
pub proof fn lemma_audit_appends_give_records(
    calls: Seq<(CivilTime, Seq<char>, Seq<char>, AuditEventType, Seq<char>)>,
)
    requires
        forall|k: int|
            0 <= k < calls.len() ==> !has_sub((#[trigger] calls[k]).1, newline()) && !has_sub(
                calls[k].2,
                newline(),
            ) && !has_sub(calls[k].4, newline()),
    ensures
        records_spec(audit_log_of(calls)) == calls.map_values(
            |c: (CivilTime, Seq<char>, Seq<char>, AuditEventType, Seq<char>)|
                audit_body(c.0, c.1, c.2, c.3, c.4),
        ),
    decreases calls.len(),
{
    let bodies = calls.map_values(
        |c: (CivilTime, Seq<char>, Seq<char>, AuditEventType, Seq<char>)|
            audit_body(c.0, c.1, c.2, c.3, c.4),
    );
    lemma_log_is_appended(calls);
    assert forall|k: int| 0 <= k < bodies.len() implies (#[trigger] bodies[k]).len() > 0 && !has_sub(
        bodies[k],
        newline(),
    ) by {
        let c = calls[k];
        lemma_audit_line_one_line(c.0, c.1, c.2, c.3, c.4);
    }
    lemma_appends_give_records(bodies);
}

proof fn lemma_log_is_appended(calls: Seq<(CivilTime, Seq<char>, Seq<char>, AuditEventType, Seq<char>)>)
    requires
        forall|k: int|
            0 <= k < calls.len() ==> !has_sub((#[trigger] calls[k]).1, newline()) && !has_sub(
                calls[k].2,
                newline(),
            ) && !has_sub(calls[k].4, newline()),
    ensures
        audit_log_of(calls) == appended(
            calls.map_values(
                |c: (CivilTime, Seq<char>, Seq<char>, AuditEventType, Seq<char>)|
                    audit_body(c.0, c.1, c.2, c.3, c.4),
            ),
        ),
    decreases calls.len(),
{
    if calls.len() > 0 {
        let init = calls.drop_last();
        assert forall|k: int| 0 <= k < init.len() implies !has_sub((#[trigger] init[k]).1, newline())
            && !has_sub(init[k].2, newline()) && !has_sub(init[k].4, newline()) by {
            assert(init[k] == calls[k]);
        }
        lemma_log_is_appended(init);
        let f = |c: (CivilTime, Seq<char>, Seq<char>, AuditEventType, Seq<char>)|
            audit_body(c.0, c.1, c.2, c.3, c.4);
        assert(calls.map_values(f).drop_last() =~= init.map_values(f));
        let c = calls.last();
        lemma_audit_line_one_line(c.0, c.1, c.2, c.3, c.4);
        assert(audit_log_of(init) + (audit_body(c.0, c.1, c.2, c.3, c.4) + newline()) =~= audit_log_of(
            init,
        ) + audit_body(c.0, c.1, c.2, c.3, c.4) + newline());
    }
}

} // verus!
