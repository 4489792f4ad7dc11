//! The control loop: the single consumer of the connections' notifications,
//! and the only writer of registry changes and log records.
use vstd::prelude::*;

use crate::codec::{chars_of, same_text};
use crate::logstore::{
    event_line_spec, local_time, write_security_event, AuditEventType, AuditRecord, CivilTime,
};
use crate::protocol::Notification;
use crate::registry::{Registry, SessionView};

verus! {

/// A rule match to be written to the event log.
pub struct SecurityRecord {
    pub unix_time: i64,
    pub host: String,
    pub is_net_level: bool,
    pub hash: String,
}

/// What the control loop is to do after one notification.
pub struct Effects {
    /// The audit record to write, if any.
    pub audit: Option<AuditRecord>,
    /// The security event to write, if any.
    pub event: Option<SecurityRecord>,
    /// Whether the loop ends.
    pub stop: bool,
}

/// A decimal digit.
pub open spec fn is_digit(c: char) -> bool {
    '0' as u32 <= c as u32 <= '9' as u32
}

/// The value of a text of decimal digits.
pub open spec fn digits_value(s: Seq<char>) -> int
    decreases s.len(),
{
    if s.len() == 0 {
        0
    } else {
        digits_value(s.drop_last()) * 10 + (s.last() as u32 - '0' as u32)
    }
}

/// A Unix time as a sensor reports it: one or more decimal digits, of a value
/// that fits an `i64`.
pub open spec fn unix_time_spec(s: Seq<char>) -> Option<i64> {
    if s.len() > 0 && (forall|i: int| 0 <= i < s.len() ==> is_digit(#[trigger] s[i]))
        && digits_value(s) <= i64::MAX {
        Some(digits_value(s) as i64)
    } else {
        None
    }
}

proof fn lemma_digits_value_nonneg(s: Seq<char>)
    requires
        forall|i: int| 0 <= i < s.len() ==> is_digit(#[trigger] s[i]),
    ensures
        digits_value(s) >= 0,
    decreases s.len(),
{
    if s.len() > 0 {
        lemma_digits_value_nonneg(s.drop_last());
    }
}

proof fn lemma_digits_value_grows(s: Seq<char>, j: int)
    requires
        0 <= j <= s.len(),
        forall|i: int| 0 <= i < s.len() ==> is_digit(#[trigger] s[i]),
    ensures
        digits_value(s.subrange(0, j)) <= digits_value(s),
    decreases s.len() - j,
{
    if j < s.len() {
        assert(s.drop_last().subrange(0, j) =~= s.subrange(0, j));
        lemma_digits_value_grows(s.drop_last(), j);
        lemma_digits_value_nonneg(s.drop_last());
    } else {
        assert(s.subrange(0, j) =~= s);
    }
}

/// Reads the Unix time of an event report.
pub fn parse_unix_time(s: &str) -> (r: Option<i64>)
    ensures
        r == unix_time_spec(s@),
{
    let cs = chars_of(s);
    if cs.len() == 0 {
        return None;
    }
    let mut v: i64 = 0;
    let mut i: usize = 0;
    while i < cs.len()
        invariant
            cs@ == s@,
            i <= cs@.len(),
            forall|k: int| 0 <= k < i ==> is_digit(#[trigger] cs@[k]),
            v as int == digits_value(cs@.subrange(0, i as int)),
            v >= 0,
        decreases cs@.len() - i,
    {
        let c = cs[i];
        assert(cs@.subrange(0, i + 1).drop_last() =~= cs@.subrange(0, i as int));
        let code = c as u32;
        if !('0' as u32 <= code && code <= '9' as u32) {
            assert(!is_digit(s@[i as int]));
            return None;
        }
        let d = (code - '0' as u32) as i64;
        if v > (i64::MAX - d) / 10 {
            proof {
                assert(forall|k: int| 0 <= k < i + 1 ==> is_digit(#[trigger] cs@[k]));
                if forall|k: int| 0 <= k < cs@.len() ==> is_digit(#[trigger] cs@[k]) {
                    lemma_digits_value_grows(cs@, i + 1);
                }
                assert(v * 10 + d > i64::MAX) by (nonlinear_arith)
                    requires
                        v > (i64::MAX - d) / 10,
                        0 <= d <= 9,
                ;
            }
            return None;
        }
        v = v * 10 + d;
        i = i + 1;
    }
    assert(cs@.subrange(0, i as int) =~= cs@);
    Some(v)
}

/// The audit record of a sensor's connection or disconnection.
fn session_record(name: &String, user: &String, level: &String, connected: bool) -> (r: AuditRecord)
    ensures
        r.host@ == name@,
        r.user@ == user@,
        r.kind == session_kind(level@, connected),
        r.message@ == session_message(level@, connected),
{
    let is_net = same_text(level.as_str(), "net");
    let kind = if connected {
        if is_net {
            AuditEventType::NetSenConn
        } else {
            AuditEventType::HostSenConn
        }
    } else {
        if is_net {
            AuditEventType::NetSenDisconn
        } else {
            AuditEventType::HostSenDisconn
        }
    };
    let mut message = if connected {
        String::from_str("Sensor connected. Type - ")
    } else {
        String::from_str("Sensor disconnected. Type - ")
    };
    message.append(level.as_str());
    AuditRecord { host: name.clone(), user: user.clone(), kind, message }
}

/// The audit kind of a sensor's connection or disconnection.
pub open spec fn session_kind(level: Seq<char>, connected: bool) -> AuditEventType {
    if level == "net"@ {
        if connected {
            AuditEventType::NetSenConn
        } else {
            AuditEventType::NetSenDisconn
        }
    } else {
        if connected {
            AuditEventType::HostSenConn
        } else {
            AuditEventType::HostSenDisconn
        }
    }
}

/// The audit message of a sensor's connection or disconnection.
pub open spec fn session_message(level: Seq<char>, connected: bool) -> Seq<char> {
    if connected {
        "Sensor connected. Type - "@ + level
    } else {
        "Sensor disconnected. Type - "@ + level
    }
}

/// Acts on one notification: registers or drops sessions, and says which
/// audit record and which security event are to be written, and whether the
/// loop ends.
///
/// An event report becomes a security event only while its sensor's session
/// has capture enabled and its time reads as a Unix time; the registry is
/// the one place where that is decided.
pub fn process<T>(
    registry: &mut Registry<T>,
    n: Notification<T>,
    operator_host: &str,
    operator_user: &str,
) -> (r: Effects)
    requires
        old(registry).wf(),
    ensures
        final(registry).wf(),
        r.stop <==> n is Stop,
        match n {
            Notification::Init { addr, name, level, user, .. } => {
                &&& final(registry)@ == old(registry)@.insert(
                    addr@,
                    SessionView {
                        name: name@,
                        level: level@,
                        user: user@,
                        capture_enabled: true,
                    },
                )
                &&& r.event is None
                &&& r.audit matches Some(a)
                &&& a.host@ == name@ && a.user@ == user@
                &&& a.kind == session_kind(level@, true)
                &&& a.message@ == session_message(level@, true)
            },
            Notification::Disconnect { addr, name, level, user } => {
                &&& final(registry)@ == old(registry)@.remove(addr@)
                &&& r.event is None
                &&& r.audit matches Some(a)
                &&& a.host@ == name@ && a.user@ == user@
                &&& a.kind == session_kind(level@, false)
                &&& a.message@ == session_message(level@, false)
            },
            Notification::RulesRequested { name, user, level } => {
                &&& final(registry)@ == old(registry)@
                &&& r.event is None
                &&& r.audit matches Some(a)
                &&& a.host@ == name@ && a.user@ == user@
                &&& a.kind == AuditEventType::RulesUpdate
                &&& a.message@ == "Rules updated - "@ + level@ + " level"@
            },
            Notification::EventReported { addr, hash, time, name, level } => {
                &&& final(registry)@ == old(registry)@
                &&& r.audit is None
                &&& if old(registry)@.contains_key(addr@) && old(registry)@[addr@].capture_enabled
                    && unix_time_spec(time@) is Some {
                    &&& r.event matches Some(e)
                    &&& e.unix_time == unix_time_spec(time@)->0
                    &&& e.host@ == name@ && e.hash@ == hash@
                    &&& e.is_net_level == (level@ == "net"@)
                } else {
                    r.event is None
                }
            },
            Notification::Stop => {
                &&& final(registry)@ == old(registry)@
                &&& r.event is None
                &&& r.audit matches Some(a)
                &&& a.host@ == operator_host@ && a.user@ == operator_user@
                &&& a.kind == AuditEventType::ServOff
                &&& a.message@ == "Management server turned off"@
            },
        },
{
    match n {
        Notification::Init { addr, name, level, user, outbound } => {
            let rec = session_record(&name, &user, &level, true);
            registry.insert(addr, name, level, user, outbound);
            Effects { audit: Some(rec), event: None, stop: false }
        },
        Notification::Disconnect { addr, name, level, user } => {
            let _ = registry.remove(addr.as_str());
            let rec = session_record(&name, &user, &level, false);
            Effects { audit: Some(rec), event: None, stop: false }
        },
        Notification::RulesRequested { name, user, level } => {
            let mut message = String::from_str("Rules updated - ");
            message.append(level.as_str());
            message.append(" level");
            let rec = AuditRecord { host: name, user, kind: AuditEventType::RulesUpdate, message };
            Effects { audit: Some(rec), event: None, stop: false }
        },
        Notification::EventReported { addr, hash, time, name, level } => {
            let enabled = registry.capture_enabled(addr.as_str());
            let event = match (enabled, parse_unix_time(time.as_str())) {
                (Some(true), Some(t)) => Some(
                    SecurityRecord {
                        unix_time: t,
                        host: name,
                        is_net_level: same_text(level.as_str(), "net"),
                        hash,
                    },
                ),
                _ => None,
            };
            Effects { audit: None, event, stop: false }
        },
        Notification::Stop => {
            let rec = AuditRecord {
                host: String::from_str(operator_host),
                user: String::from_str(operator_user),
                kind: AuditEventType::ServOff,
                message: String::from_str("Management server turned off"),
            };
            Effects { audit: Some(rec), event: None, stop: true }
        },
    }
}

/// The event line of a security record, stamped with the local time of its
/// Unix time; `None` when that time cannot be represented.
pub fn security_line(rec: &SecurityRecord) -> (r: Option<String>)
    ensures
        0 <= rec.unix_time <= 253_402_300_799 ==> r is Some,
        r matches Some(line) ==> exists|t: CivilTime|
            t.valid() && line@ == event_line_spec(t, rec.host@, rec.hash@, rec.is_net_level),
{
    match local_time(rec.unix_time) {
        Some(t) => Some(write_security_event(&t, rec.host.as_str(), rec.hash.as_str(), rec.is_net_level)),
        None => None,
    }
}

} // verus!
