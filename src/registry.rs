//! The session registry: one entry per connected sensor, keyed by its peer
//! address, each holding the outbound channel of its connection.
use vstd::prelude::*;

use crate::codec::same_text;
use crate::logstore::{AuditEventType, AuditRecord};

verus! {

/// One live sensor connection: its name, level and user as the handshake gave
/// them, whether its events are captured, and the channel to its connection.
pub struct Session<T> {
    pub name: String,
    pub level: String,
    pub user: String,
    pub capture_enabled: bool,
    pub outbound: T,
}

/// What a session holds, as text; the channel is left out.
pub struct SessionView {
    pub name: Seq<char>,
    pub level: Seq<char>,
    pub user: Seq<char>,
    pub capture_enabled: bool,
}

/// The view of a session.
pub open spec fn session_view<T>(s: Session<T>) -> SessionView {
    SessionView {
        name: s.name@,
        level: s.level@,
        user: s.user@,
        capture_enabled: s.capture_enabled,
    }
}

/// The address of an entry.
pub open spec fn entry_key<T>(e: (String, Session<T>)) -> Seq<char> {
    e.0@
}

/// No address appears twice among the entries.
pub open spec fn keys_unique<T>(s: Seq<(String, Session<T>)>) -> bool {
    forall|i: int, j: int|
        0 <= i < s.len() && 0 <= j < s.len() && i != j ==> entry_key(#[trigger] s[i])
            != entry_key(#[trigger] s[j])
}

/// Some entry has this address.
pub open spec fn has_key<T>(s: Seq<(String, Session<T>)>, k: Seq<char>) -> bool {
    exists|i: int| 0 <= i < s.len() && entry_key(#[trigger] s[i]) == k
}

/// The entries as a map from address to session view.
pub open spec fn entries_view<T>(s: Seq<(String, Session<T>)>) -> Map<Seq<char>, SessionView> {
    Map::new(
        |k: Seq<char>| has_key(s, k),
        |k: Seq<char>|
            session_view(s[choose|i: int| 0 <= i < s.len() && entry_key(#[trigger] s[i]) == k].1),
    )
}

/// The channel of the entry with this address.
pub open spec fn entries_channel<T>(s: Seq<(String, Session<T>)>, k: Seq<char>) -> T {
    s[choose|i: int| 0 <= i < s.len() && entry_key(#[trigger] s[i]) == k].1.outbound
}

proof fn lemma_channel_at<T>(s: Seq<(String, Session<T>)>, i: int)
    requires
        keys_unique(s),
        0 <= i < s.len(),
    ensures
        entries_channel(s, entry_key(s[i])) == s[i].1.outbound,
{
    let k = entry_key(s[i]);
    assert(has_key(s, k));
    let j = choose|j: int| 0 <= j < s.len() && entry_key(#[trigger] s[j]) == k;
    assert(j == i);
}

proof fn lemma_view_at<T>(s: Seq<(String, Session<T>)>, i: int)
    requires
        keys_unique(s),
        0 <= i < s.len(),
    ensures
        entries_view(s).contains_key(entry_key(s[i])),
        entries_view(s)[entry_key(s[i])] == session_view(s[i].1),
{
    let k = entry_key(s[i]);
    assert(has_key(s, k));
    let j = choose|j: int| 0 <= j < s.len() && entry_key(#[trigger] s[j]) == k;
    assert(j == i);
}

proof fn lemma_view_push<T>(s: Seq<(String, Session<T>)>, e: (String, Session<T>))
    requires
        keys_unique(s),
        !has_key(s, entry_key(e)),
    ensures
        keys_unique(s.push(e)),
        entries_view(s.push(e)) == entries_view(s).insert(entry_key(e), session_view(e.1)),
{
    let t = s.push(e);
    assert forall|i: int, j: int|
        0 <= i < t.len() && 0 <= j < t.len() && i != j implies entry_key(#[trigger] t[i])
        != entry_key(#[trigger] t[j]) by {
        if i < s.len() && j < s.len() {
            assert(t[i] == s[i] && t[j] == s[j]);
        } else if i < s.len() {
            assert(t[i] == s[i]);
        } else if j < s.len() {
            assert(t[j] == s[j]);
        }
    }
    let m = entries_view(s).insert(entry_key(e), session_view(e.1));
    assert forall|k: Seq<char>| #[trigger] entries_view(t).contains_key(k) == m.contains_key(k) by {
        if has_key(t, k) && k != entry_key(e) {
            let i = choose|i: int| 0 <= i < t.len() && entry_key(#[trigger] t[i]) == k;
            assert(i < s.len());
            assert(t[i] == s[i]);
        }
        if has_key(s, k) {
            let i = choose|i: int| 0 <= i < s.len() && entry_key(#[trigger] s[i]) == k;
            assert(t[i] == s[i]);
        }
        if k == entry_key(e) {
            assert(t[s.len() as int] == e);
        }
    }
    assert forall|k: Seq<char>| #[trigger] entries_view(t).contains_key(k) implies entries_view(t)[k]
        == m[k] by {
        let i = choose|i: int| 0 <= i < t.len() && entry_key(#[trigger] t[i]) == k;
        lemma_view_at(t, i);
        if i < s.len() {
            assert(t[i] == s[i]);
            lemma_view_at(s, i);
        }
    }
    assert(entries_view(t) =~= m);
}

proof fn lemma_view_remove<T>(s: Seq<(String, Session<T>)>, i: int)
    requires
        keys_unique(s),
        0 <= i < s.len(),
    ensures
        keys_unique(s.remove(i)),
        !has_key(s.remove(i), entry_key(s[i])),
        entries_view(s.remove(i)) == entries_view(s).remove(entry_key(s[i])),
{
    let t = s.remove(i);
    let key = entry_key(s[i]);
    assert forall|a: int| 0 <= a < t.len() implies #[trigger] t[a] == s[if a < i {
        a
    } else {
        a + 1
    }] by {}
    assert forall|a: int, b: int|
        0 <= a < t.len() && 0 <= b < t.len() && a != b implies entry_key(#[trigger] t[a])
        != entry_key(#[trigger] t[b]) by {
        let a2 = if a < i { a } else { a + 1 };
        let b2 = if b < i { b } else { b + 1 };
        assert(t[a] == s[a2] && t[b] == s[b2]);
    }
    if has_key(t, key) {
        let a = choose|a: int| 0 <= a < t.len() && entry_key(#[trigger] t[a]) == key;
        let a2 = if a < i { a } else { a + 1 };
        assert(t[a] == s[a2]);
    }
    let m = entries_view(s).remove(key);
    assert forall|k: Seq<char>| #[trigger] entries_view(t).contains_key(k) == m.contains_key(k) by {
        if has_key(t, k) {
            let a = choose|a: int| 0 <= a < t.len() && entry_key(#[trigger] t[a]) == k;
            let a2 = if a < i { a } else { a + 1 };
            assert(t[a] == s[a2]);
        }
        if has_key(s, k) && k != key {
            let a2 = choose|a: int| 0 <= a < s.len() && entry_key(#[trigger] s[a]) == k;
            let a = if a2 < i { a2 } else { a2 - 1 };
            assert(t[a] == s[a2]);
        }
    }
    assert forall|k: Seq<char>| #[trigger] entries_view(t).contains_key(k) implies entries_view(t)[k]
        == m[k] by {
        let a = choose|a: int| 0 <= a < t.len() && entry_key(#[trigger] t[a]) == k;
        let a2 = if a < i { a } else { a + 1 };
        assert(t[a] == s[a2]);
        lemma_view_at(t, a);
        lemma_view_at(s, a2);
    }
    assert(entries_view(t) =~= m);
}

/// A sensor as the registry lists it.
pub struct SensorInfo {
    pub address: String,
    pub name: String,
    pub level: String,
    pub capture_enabled: bool,
}

/// The live sessions, at most one per peer address.
pub struct Registry<T> {
    entries: Vec<(String, Session<T>)>,
}

impl<T> View for Registry<T> {
    type V = Map<Seq<char>, SessionView>;

    closed spec fn view(&self) -> Map<Seq<char>, SessionView> {
        entries_view(self.entries@)
    }
}

impl<T> Registry<T> {
    /// No address appears twice.
    pub closed spec fn wf(&self) -> bool {
        keys_unique(self.entries@)
    }

    /// The outbound channel of the session of this address.
    pub closed spec fn channel_of(&self, addr: Seq<char>) -> T {
        entries_channel(self.entries@, addr)
    }

    /// An empty registry.
    pub fn new() -> (r: Self)
        ensures
            r.wf(),
            r@ == Map::<Seq<char>, SessionView>::empty(),
    {
        let r = Registry { entries: Vec::new() };
        assert(r@ =~= Map::<Seq<char>, SessionView>::empty());
        r
    }

    fn find(&self, addr: &str) -> (r: Option<usize>)
        requires
            self.wf(),
        ensures
            match r {
                Some(i) => i < self.entries@.len() && entry_key(self.entries@[i as int]) == addr@,
                None => !has_key(self.entries@, addr@),
            },
    {
        let mut i: usize = 0;
        while i < self.entries.len()
            invariant
                i <= self.entries@.len(),
                forall|j: int| 0 <= j < i ==> entry_key(#[trigger] self.entries@[j]) != addr@,
            decreases self.entries@.len() - i,
        {
            if same_text(self.entries[i].0.as_str(), addr) {
                return Some(i);
            }
            i = i + 1;
        }
        None
    }

    /// Registers the session of a sensor that completed its handshake, with
    /// capture enabled; an entry of the same address is replaced.
    pub fn insert(&mut self, addr: String, name: String, level: String, user: String, outbound: T)
        requires
            old(self).wf(),
        ensures
            final(self).wf(),
            final(self)@ == old(self)@.insert(
                addr@,
                SessionView { name: name@, level: level@, user: user@, capture_enabled: true },
            ),
            final(self).channel_of(addr@) == outbound,
    {
        let ghost key = addr@;
        let ghost sv = SessionView { name: name@, level: level@, user: user@, capture_enabled: true };
        match self.find(addr.as_str()) {
            Some(i) => {
                proof {
                    lemma_view_remove(self.entries@, i as int);
                }
                self.entries.remove(i);
                assert(self@ == old(self)@.remove(key));
            },
            None => {
                assert(self@ == old(self)@.remove(key)) by {
                    assert(!self@.contains_key(key));
                    assert(self@ =~= self@.remove(key));
                }
            },
        }
        let e = (addr, Session { name, level, user, capture_enabled: true, outbound });
        proof {
            lemma_view_push(self.entries@, e);
        }
        self.entries.push(e);
        proof {
            lemma_channel_at(self.entries@, self.entries@.len() - 1);
        }
        assert(self@ =~= old(self)@.insert(key, sv));
    }

    /// Drops the session of an address, handing back what it held.
    pub fn remove(&mut self, addr: &str) -> (r: Option<Session<T>>)
        requires
            old(self).wf(),
        ensures
            final(self).wf(),
            final(self)@ == old(self)@.remove(addr@),
            r is Some <==> old(self)@.contains_key(addr@),
            r matches Some(s) ==> session_view(s) == old(self)@[addr@],
    {
        match self.find(addr) {
            Some(i) => {
                proof {
                    lemma_view_remove(self.entries@, i as int);
                    lemma_view_at(self.entries@, i as int);
                }
                let e = self.entries.remove(i);
                Some(e.1)
            },
            None => {
                assert(self@ =~= old(self)@.remove(addr@));
                None
            },
        }
    }

    /// Whether the session of an address has capture enabled; `None` when no
    /// session has that address.
    pub fn capture_enabled(&self, addr: &str) -> (r: Option<bool>)
        requires
            self.wf(),
        ensures
            r == if self@.contains_key(addr@) {
                Some(self@[addr@].capture_enabled)
            } else {
                None
            },
    {
        match self.find(addr) {
            Some(i) => {
                proof {
                    lemma_view_at(self.entries@, i as int);
                }
                Some(self.entries[i].1.capture_enabled)
            },
            None => None,
        }
    }

    /// The outbound channel of the session of an address.
    pub fn outbound(&self, addr: &str) -> (r: Option<&T>)
        requires
            self.wf(),
        ensures
            r is Some <==> self@.contains_key(addr@),
            r matches Some(c) ==> *c == self.channel_of(addr@),
    {
        match self.find(addr) {
            Some(i) => {
                proof {
                    lemma_view_at(self.entries@, i as int);
                    lemma_channel_at(self.entries@, i as int);
                }
                Some(&self.entries[i].1.outbound)
            },
            None => None,
        }
    }

    /// A snapshot of the live sessions: one item per address.
    pub fn list(&self) -> (r: Vec<SensorInfo>)
        requires
            self.wf(),
        ensures
            forall|i: int|
                0 <= i < r@.len() ==> self@.contains_key((#[trigger] r@[i]).address@) && self@[r@[i].address@]
                    == (SessionView {
                    name: r@[i].name@,
                    level: r@[i].level@,
                    user: self@[r@[i].address@].user,
                    capture_enabled: r@[i].capture_enabled,
                }),
            forall|k: Seq<char>|
                #[trigger] self@.contains_key(k) ==> exists|i: int|
                    0 <= i < r@.len() && (#[trigger] r@[i]).address@ == k,
            forall|i: int, j: int|
                0 <= i < r@.len() && 0 <= j < r@.len() && i != j ==> (#[trigger] r@[i]).address@
                    != (#[trigger] r@[j]).address@,
    {
        let mut out: Vec<SensorInfo> = Vec::new();
        let mut i: usize = 0;
        while i < self.entries.len()
            invariant
                self.wf(),
                i <= self.entries@.len(),
                out@.len() == i,
                forall|a: int|
                    0 <= a < i ==> (#[trigger] out@[a]).address@ == entry_key(self.entries@[a])
                        && out@[a].name@ == self.entries@[a].1.name@ && out@[a].level@
                        == self.entries@[a].1.level@ && out@[a].capture_enabled
                        == self.entries@[a].1.capture_enabled,
            decreases self.entries@.len() - i,
        {
            let e = &self.entries[i];
            out.push(
                SensorInfo {
                    address: e.0.clone(),
                    name: e.1.name.clone(),
                    level: e.1.level.clone(),
                    capture_enabled: e.1.capture_enabled,
                },
            );
            i = i + 1;
        }
        proof {
            assert forall|a: int| 0 <= a < out@.len() implies self@.contains_key(
                (#[trigger] out@[a]).address@,
            ) && self@[out@[a].address@] == (SessionView {
                name: out@[a].name@,
                level: out@[a].level@,
                user: self@[out@[a].address@].user,
                capture_enabled: out@[a].capture_enabled,
            }) by {
                lemma_view_at(self.entries@, a);
            }
            assert forall|k: Seq<char>| #[trigger] self@.contains_key(k) implies exists|a: int|
                0 <= a < out@.len() && (#[trigger] out@[a]).address@ == k by {
                let a = choose|a: int|
                    0 <= a < self.entries@.len() && entry_key(#[trigger] self.entries@[a]) == k;
                assert(out@[a].address@ == k);
            }
        }
        out
    }

    /// Toggles whether the events of the sensor at `addr` are captured, and
    /// gives the new state with the one audit record of the change, or `None`
    /// when no session has that address.
    pub fn toggle_capture(&mut self, addr: &str, operator_user: &str) -> (r: Option<
        (bool, AuditRecord),
    >)
        requires
            old(self).wf(),
        ensures
            final(self).wf(),
            r is Some <==> old(self)@.contains_key(addr@),
            r is None ==> final(self)@ == old(self)@,
            r matches Some((on, rec)) ==> {
                &&& on == !old(self)@[addr@].capture_enabled
                &&& final(self)@ == toggled(old(self)@, addr@)
                &&& rec.host@ == old(self)@[addr@].name
                &&& rec.user@ == operator_user@
                &&& rec.kind == if on {
                    AuditEventType::SenEnable
                } else {
                    AuditEventType::SenDisable
                }
                &&& rec.message@ == if on {
                    "Event logging enabled"@
                } else {
                    "Event logging disabled"@
                }
            },
    {
        match self.find(addr) {
            Some(i) => {
                let ghost key = addr@;
                proof {
                    lemma_view_at(self.entries@, i as int);
                    lemma_view_remove(self.entries@, i as int);
                }
                let (a, s) = self.entries.remove(i);
                let on = !s.capture_enabled;
                let host = s.name.clone();
                let e = (
                    a,
                    Session {
                        name: s.name,
                        level: s.level,
                        user: s.user,
                        capture_enabled: on,
                        outbound: s.outbound,
                    },
                );
                proof {
                    lemma_view_push(self.entries@, e);
                }
                self.entries.push(e);
                assert(self@ =~= old(self)@.insert(
                    key,
                    SessionView { capture_enabled: on, ..old(self)@[key] },
                ));
                let rec = if on {
                    AuditRecord {
                        host,
                        user: String::from_str(operator_user),
                        kind: AuditEventType::SenEnable,
                        message: String::from_str("Event logging enabled"),
                    }
                } else {
                    AuditRecord {
                        host,
                        user: String::from_str(operator_user),
                        kind: AuditEventType::SenDisable,
                        message: String::from_str("Event logging disabled"),
                    }
                };
                Some((on, rec))
            },
            None => None,
        }
    }
}

/// A snapshot of the live sensors: address, name, level and capture state.
pub fn get_sensor_list<T>(registry: &Registry<T>) -> (r: Vec<SensorInfo>)
    requires
        registry.wf(),
    ensures
        forall|i: int|
            0 <= i < r@.len() ==> registry@.contains_key((#[trigger] r@[i]).address@)
                && registry@[r@[i].address@].name == r@[i].name@ && registry@[r@[i].address@].level
                == r@[i].level@ && registry@[r@[i].address@].capture_enabled
                == r@[i].capture_enabled,
        forall|k: Seq<char>|
            #[trigger] registry@.contains_key(k) ==> exists|i: int|
                0 <= i < r@.len() && (#[trigger] r@[i]).address@ == k,
        forall|i: int, j: int|
            0 <= i < r@.len() && 0 <= j < r@.len() && i != j ==> (#[trigger] r@[i]).address@
                != (#[trigger] r@[j]).address@,
{
    registry.list()
}

/// The registry with the capture of the session at `addr` switched over.
pub open spec fn toggled(m: Map<Seq<char>, SessionView>, addr: Seq<char>) -> Map<
    Seq<char>,
    SessionView,
> {
    m.insert(addr, SessionView { capture_enabled: !m[addr].capture_enabled, ..m[addr] })
}

/// A session that `insert` registers is there, with capture enabled, and
/// with the name, level and user it was given.
pub proof fn lemma_inserted_session_listed(
    m: Map<Seq<char>, SessionView>,
    addr: Seq<char>,
    name: Seq<char>,
    level: Seq<char>,
    user: Seq<char>,
)
    ensures
        m.insert(
            addr,
            SessionView { name, level, user, capture_enabled: true },
        ).contains_key(addr),
        m.insert(addr, SessionView { name, level, user, capture_enabled: true })[addr]
            == (SessionView { name, level, user, capture_enabled: true }),
{
}

/// Switching the capture of a session twice gives the registry back, and
/// each switch changes the flag of that session alone.
pub proof fn lemma_toggle_twice(m: Map<Seq<char>, SessionView>, addr: Seq<char>)
    requires
        m.contains_key(addr),
    ensures
        toggled(toggled(m, addr), addr) == m,
        toggled(m, addr)[addr].capture_enabled == !m[addr].capture_enabled,
        forall|k: Seq<char>| k != addr ==> #[trigger] toggled(m, addr).contains_key(k) == m.contains_key(k),
{
    assert(toggled(toggled(m, addr), addr) =~= m);
}

/// Toggles whether the events of the sensor at `sensor_ip` are captured, on
/// behalf of `operator_user`: the new state and the one audit record of the
/// change, or `None` when no sensor has that address.
pub fn change_sensor_state<T>(sensor_ip: &str, registry: &mut Registry<T>, operator_user: &str) -> (r:
    Option<(bool, AuditRecord)>)
    requires
        old(registry).wf(),
    ensures
        final(registry).wf(),
        r is Some <==> old(registry)@.contains_key(sensor_ip@),
        r is None ==> final(registry)@ == old(registry)@,
        r matches Some((on, rec)) ==> {
            &&& on == !old(registry)@[sensor_ip@].capture_enabled
            &&& final(registry)@ == toggled(old(registry)@, sensor_ip@)
            &&& rec.host@ == old(registry)@[sensor_ip@].name
            &&& rec.user@ == operator_user@
            &&& rec.kind == if on {
                AuditEventType::SenEnable
            } else {
                AuditEventType::SenDisable
            }
        },
{
    registry.toggle_capture(sensor_ip, operator_user)
}

} // verus!
