//! The per-connection protocol: a sensor's handshake, its commands, and the
//! notifications that its connection hands to the control loop.
use vstd::prelude::*;

use crate::codec::{delim_1, delim_3, same_text, split_on, split_spec, views};

verus! {

/// What a connection tells the control loop, which alone acts on it.
pub enum Notification<T> {
    /// A sensor completed its handshake; `outbound` is its connection's channel.
    Init { addr: String, name: String, level: String, user: String, outbound: T },
    /// The sensor's socket closed.
    Disconnect { addr: String, name: String, level: String, user: String },
    /// The sensor was sent the rules of its level.
    RulesRequested { name: String, user: String, level: String },
    /// The sensor reported a match of the rule with this hash at this Unix time.
    EventReported { addr: String, hash: String, time: String, name: String, level: String },
    /// The operator stopped the server.
    Stop,
}

/// Where a connection stands.
pub enum ConnState {
    /// Waiting for the sensor's handshake.
    Handshake,
    /// Registered under the name, level and user that the handshake gave.
    Active { name: String, level: String, user: String },
    /// The connection is over.
    Closed,
}

/// What the connection's task is to do after an input.
pub enum Step<T> {
    /// Nothing.
    Nothing,
    /// Hand this notification to the control loop.
    Notify(Notification<T>),
    /// Send the sensor the rules of this level, then, if that succeeded, hand
    /// the notification to the control loop.
    SendRules { level: String, then: Notification<T> },
    /// Drop the connection without a word to the control loop.
    Drop,
}

/// One accepted sensor connection.
pub struct Connection<T> {
    pub addr: String,
    pub state: ConnState,
    pub outbound: Option<T>,
}

/// The literal command by which a sensor asks for its rules.
pub open spec fn cmd_update() -> Seq<char> {
    "update"@
}

/// The literal command that opens an event report.
pub open spec fn cmd_event() -> Seq<char> {
    "event"@
}

impl<T> Connection<T> {
    /// The channel is held exactly until the handshake hands it on.
    pub open spec fn wf(&self) -> bool {
        self.state is Handshake <==> self.outbound is Some
    }

    /// A connection from `addr` that waits for its handshake; `outbound` is
    /// the channel through which the registry will reach it.
    pub fn new(addr: String, outbound: T) -> (r: Self)
        ensures
            r.wf(),
            r.addr == addr,
            r.state is Handshake,
    {
        Connection { addr, state: ConnState::Handshake, outbound: Some(outbound) }
    }

    /// Handles one message read from the sensor.
    ///
    /// Waiting for the handshake, a message `name[:1:]level[:1:]user` (more
    /// fields are ignored) makes the connection active and registers the
    /// session through an `Init` notification; any other message drops it.
    /// Active, `update` asks for the rules of the session's level and
    /// `event[:3:]<hash>[:3:]<time>...` reports a match; other messages are
    /// ignored.
    pub fn on_message(&mut self, msg: &str) -> (r: Step<T>)
        requires
            old(self).wf(),
        ensures
            final(self).wf(),
            final(self).addr == old(self).addr,
            old(self).state is Handshake ==> {
                let parts = split_spec(msg@, delim_1());
                if parts.len() >= 3 {
                    &&& final(self).state matches ConnState::Active { name, level, user }
                    &&& name@ == parts[0] && level@ == parts[1] && user@ == parts[2]
                    &&& r matches Step::Notify(
                        Notification::Init { addr, name: n, level: l, user: u, .. },
                    )
                    &&& addr@ == old(self).addr@
                    &&& n@ == parts[0] && l@ == parts[1] && u@ == parts[2]
                } else {
                    final(self).state is Closed && r is Drop
                }
            },
            old(self).state matches ConnState::Active { name, level, user } ==> {
                let cmd = split_spec(msg@, delim_3());
                &&& final(self).state == old(self).state
                &&& if cmd[0] == cmd_update() {
                    &&& r matches Step::SendRules { level: l, then }
                    &&& l@ == level@
                    &&& then matches Notification::RulesRequested { name: n, user: u, level: lv }
                    &&& n@ == name@ && u@ == user@ && lv@ == level@
                } else if cmd[0] == cmd_event() && cmd.len() >= 3 {
                    &&& r matches Step::Notify(
                        Notification::EventReported { addr, hash, time, name: n, level: lv },
                    )
                    &&& addr@ == old(self).addr@ && hash@ == cmd[1] && time@ == cmd[2]
                    &&& n@ == name@ && lv@ == level@
                } else {
                    r is Nothing
                }
            },
            old(self).state is Closed ==> final(self).state is Closed && r is Nothing,
    {
        proof {
            reveal_strlit("[:1:]");
            reveal_strlit("[:3:]");
        }
        match &self.state {
            ConnState::Handshake => {
                let mut parts = split_on(msg, "[:1:]");
                if parts.len() >= 3 {
                    let ghost pv = views(parts@);
                    parts.truncate(3);
                    let user = parts.pop().unwrap();
                    let level = parts.pop().unwrap();
                    let name = parts.pop().unwrap();
                    assert(name@ == pv[0] && level@ == pv[1] && user@ == pv[2]);
                    let outbound = self.outbound.take().unwrap();
                    self.state = ConnState::Active {
                        name: name.clone(),
                        level: level.clone(),
                        user: user.clone(),
                    };
                    Step::Notify(
                        Notification::Init { addr: self.addr.clone(), name, level, user, outbound },
                    )
                } else {
                    self.outbound = None;
                    self.state = ConnState::Closed;
                    Step::Drop
                }
            },
            ConnState::Active { name, level, user } => {
                let cmd = split_on(msg, "[:3:]");
                assert(views(cmd@).len() >= 1) by {
                    crate::codec::lemma_join_split(msg@, delim_3());
                }
                if same_text(cmd[0].as_str(), "update") {
                    Step::SendRules {
                        level: level.clone(),
                        then: Notification::RulesRequested {
                            name: name.clone(),
                            user: user.clone(),
                            level: level.clone(),
                        },
                    }
                } else if same_text(cmd[0].as_str(), "event") && cmd.len() >= 3 {
                    Step::Notify(
                        Notification::EventReported {
                            addr: self.addr.clone(),
                            hash: cmd[1].clone(),
                            time: cmd[2].clone(),
                            name: name.clone(),
                            level: level.clone(),
                        },
                    )
                } else {
                    Step::Nothing
                }
            },
            ConnState::Closed => Step::Nothing,
        }
    }

    /// Handles a read of zero bytes: the sensor closed its socket. An active
    /// connection reports its disconnection; one still waiting for its
    /// handshake ends silently.
    pub fn on_closed(&mut self) -> (r: Step<T>)
        requires
            old(self).wf(),
        ensures
            final(self).wf(),
            final(self).addr == old(self).addr,
            final(self).state is Closed,
            old(self).state matches ConnState::Active { name, level, user } ==> {
                &&& r matches Step::Notify(
                    Notification::Disconnect { addr, name: n, level: l, user: u },
                )
                &&& addr@ == old(self).addr@ && n@ == name@ && l@ == level@ && u@ == user@
            },
            !(old(self).state is Active) ==> r is Nothing,
    {
        let r = match &self.state {
            ConnState::Active { name, level, user } => Step::Notify(
                Notification::Disconnect {
                    addr: self.addr.clone(),
                    name: name.clone(),
                    level: level.clone(),
                    user: user.clone(),
                },
            ),
            _ => Step::Nothing,
        };
        self.outbound = None;
        self.state = ConnState::Closed;
        r
    }
}

} // verus!
