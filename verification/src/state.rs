//! The server registry: one entry per live listening address, each holding
//! the close-signal sender and the latest throughput sample.

use crate::addr::sock_text;
use crate::addr::SocketAddress;
use crate::addr::format_socket_addr;
use crate::addr::IpAddress;
use crate::text::format_usize;
use crate::text::numeral_of;
use vstd::map::*;
use vstd::prelude::*;

verus! {

/// A control message for a running server.
pub enum ControlInfo {
    Close,
    IpScope(Vec<IpAddress>),
    Ip(IpAddress),
}

/// A throughput sample: accepted connections in the last second, and when.
pub enum StateInfo {
    Sum(u32, String),
}

#[verifier::external_type_specification]
#[verifier::external_body]
#[verifier::reject_recursive_types(T)]
pub struct ExSender<T>(tokio::sync::oneshot::Sender<T>);

/// Relies on tokio's `oneshot::Sender::send`: it consumes the sender and
/// reports whether the receiving half was still alive, handing the message
/// back otherwise; which of the two happens depends on the peer and is not
/// promised.
#[verifier::external_body]
fn send_control(c: tokio::sync::oneshot::Sender<ControlInfo>, o: ControlInfo) -> (r: Result<
    (),
    ControlInfo,
>)
    ensures
        r matches Err(m) ==> m == o,
{
    c.send(o)
}

/// The registry's record of one server.
pub struct ServerState {
    pub server: SocketAddress,
    pub c: tokio::sync::oneshot::Sender<ControlInfo>,
    pub velocity: u32,
    pub date_time: String,
    pub ip_scope: Vec<IpAddress>,
}

/// What the registry knows of a server, besides its address.
pub ghost struct EntryView {
    pub velocity: u32,
    pub date_time: Seq<char>,
}

impl ServerState {
    pub open spec fn entry_view(&self) -> EntryView {
        EntryView { velocity: self.velocity, date_time: self.date_time@ }
    }

    pub fn new(server: SocketAddress, c: tokio::sync::oneshot::Sender<ControlInfo>) -> (r: Self)
        ensures
            r.server == server,
            r.velocity == 0,
            r.date_time@ == Seq::<char>::empty(),
            r.ip_scope@ == Seq::<IpAddress>::empty(),
    {
        Self { server, c, velocity: 0, date_time: String::new(), ip_scope: Vec::new() }
    }

    pub fn set_velocity(&mut self, velocity: u32)
        ensures
            *final (self) == (ServerState { velocity, ..*old(self) }),
    {
        self.velocity = velocity;
    }

    /// Fire the close signal, consuming the one-shot sender; whether it
    /// arrives depends on the receiving server still running, and a refused
    /// message comes back whole.
    pub fn send(self, o: ControlInfo) -> (r: Result<(), ControlInfo>)
        ensures
            r matches Err(m) ==> m == o,
    {
        send_control(self.c, o)
    }
}

/// The registry: its entries, keyed by their unique listening addresses.
pub struct Registry {
    pub entries: Vec<ServerState>,
}

/// The map a sequence of records denotes.
pub open spec fn map_of(s: Seq<ServerState>) -> Map<SocketAddress, EntryView>
    decreases s.len(),
{
    if s.len() == 0 {
        Map::empty()
    } else {
        map_of(s.drop_last()).insert(s.last().server, s.last().entry_view())
    }
}

impl View for Registry {
    type V = Map<SocketAddress, EntryView>;

    open spec fn view(&self) -> Map<SocketAddress, EntryView> {
        map_of(self.entries@)
    }
}

pub open spec fn distinct_servers(s: Seq<ServerState>) -> bool {
    forall|i: int, j: int|
        0 <= i < s.len() && 0 <= j < s.len() && i != j ==> (#[trigger] s[i].server) != (
        #[trigger] s[j].server)
}

proof fn lemma_map_of_absent(s: Seq<ServerState>, a: SocketAddress)
    requires
        forall|i: int| 0 <= i < s.len() ==> (#[trigger] s[i].server) != a,
    ensures
        !map_of(s).contains_key(a),
    decreases s.len(),
{
    if s.len() > 0 {
        lemma_map_of_absent(s.drop_last(), a);
    }
}

proof fn lemma_map_of_index(s: Seq<ServerState>, i: int)
    requires
        distinct_servers(s),
        0 <= i < s.len(),
    ensures
        map_of(s).contains_key(s[i].server),
        map_of(s)[s[i].server] == s[i].entry_view(),
    decreases s.len(),
{
    if i == s.len() - 1 {
    } else {
        assert(forall|t: int|
            0 <= t < s.drop_last().len() ==> #[trigger] s.drop_last()[t] == s[t]);
        lemma_map_of_index(s.drop_last(), i);
        assert(s.last().server != s[i].server);
    }
}

proof fn lemma_map_of_remove(s: Seq<ServerState>, i: int)
    requires
        distinct_servers(s),
        0 <= i < s.len(),
    ensures
        map_of(s.remove(i)) == map_of(s).remove(s[i].server),
    decreases s.len(),
{
    let a = s[i].server;
    if i == s.len() - 1 {
        assert(s.remove(i) =~= s.drop_last());
        assert(forall|t: int|
            0 <= t < s.drop_last().len() ==> (#[trigger] s.drop_last()[t].server) != a);
        lemma_map_of_absent(s.drop_last(), a);
        assert(map_of(s.drop_last()) =~= map_of(s).remove(a));
    } else {
        assert(forall|t: int|
            0 <= t < s.drop_last().len() ==> #[trigger] s.drop_last()[t] == s[t]);
        lemma_map_of_remove(s.drop_last(), i);
        assert(s.remove(i).drop_last() =~= s.drop_last().remove(i));
        assert(s.remove(i).last() == s.last());
        assert(s.last().server != a);
        assert(map_of(s.remove(i)) == map_of(s.drop_last().remove(i)).insert(
            s.last().server,
            s.last().entry_view(),
        ));
        assert(map_of(s.drop_last()).remove(a).insert(s.last().server, s.last().entry_view())
            =~= map_of(s.drop_last()).insert(s.last().server, s.last().entry_view()).remove(a));
    }
}

proof fn lemma_distinct_remove(s: Seq<ServerState>, i: int)
    requires
        distinct_servers(s),
        0 <= i < s.len(),
    ensures
        distinct_servers(s.remove(i)),
{
    assert forall|t1: int, t2: int|
        0 <= t1 < s.remove(i).len() && 0 <= t2 < s.remove(i).len() && t1 != t2 implies (
    #[trigger] s.remove(i)[t1].server) != (#[trigger] s.remove(i)[t2].server) by {
        let u1 = if t1 < i {
            t1
        } else {
            t1 + 1
        };
        let u2 = if t2 < i {
            t2
        } else {
            t2 + 1
        };
        assert(s.remove(i)[t1] == s[u1]);
        assert(s.remove(i)[t2] == s[u2]);
    }
}

proof fn lemma_map_of_update(s: Seq<ServerState>, i: int, e: ServerState)
    requires
        distinct_servers(s),
        0 <= i < s.len(),
        e.server == s[i].server,
    ensures
        map_of(s.update(i, e)) == map_of(s).insert(e.server, e.entry_view()),
    decreases s.len(),
{
    if i == s.len() - 1 {
        assert(s.update(i, e).drop_last() =~= s.drop_last());
        assert(s.update(i, e).last() == e);
        assert(map_of(s.drop_last()).insert(e.server, e.entry_view()) =~= map_of(
            s.drop_last(),
        ).insert(s.last().server, s.last().entry_view()).insert(e.server, e.entry_view()));
    } else {
        assert(forall|t: int|
            0 <= t < s.drop_last().len() ==> #[trigger] s.drop_last()[t] == s[t]);
        lemma_map_of_update(s.drop_last(), i, e);
        assert(s.update(i, e).drop_last() =~= s.drop_last().update(i, e));
        assert(s.update(i, e).last() == s.last());
        assert(s.last().server != e.server);
        assert(map_of(s.drop_last()).insert(e.server, e.entry_view()).insert(
            s.last().server,
            s.last().entry_view(),
        ) =~= map_of(s.drop_last()).insert(s.last().server, s.last().entry_view()).insert(
            e.server,
            e.entry_view(),
        ));
    }
}

impl Registry {
    /// No two entries share a listening address.
    pub open spec fn inv(&self) -> bool {
        distinct_servers(self.entries@)
    }

    pub fn new() -> (r: Self)
        ensures
            r.inv(),
            r@ == Map::<SocketAddress, EntryView>::empty(),
    {
        Self { entries: Vec::new() }
    }

    fn position_of(&self, server: &SocketAddress) -> (r: Option<usize>)
        ensures
            match r {
                Option::Some(i) => i < self.entries@.len() && self.entries@[i as int].server
                    == *server,
                Option::None => forall|i: int|
                    0 <= i < self.entries@.len() ==> (#[trigger] self.entries@[i].server)
                        != *server,
            },
    {
        let mut i: usize = 0;
        while i < self.entries.len()
            invariant
                i <= self.entries@.len(),
                forall|t: int|
                    0 <= t < i ==> (#[trigger] self.entries@[t].server) != *server,
            decreases self.entries@.len() - i,
        {
            if self.entries[i].server == *server {
                return Some(i);
            }
            i += 1;
        }
        None
    }

    /// Record a server, replacing any record already keyed by its address.
    pub fn add_state(&mut self, ss: ServerState)
        requires
            old(self).inv(),
        ensures
            final (self).inv(),
            final (self)@ == old(self)@.insert(ss.server, ss.entry_view()),
    {
        let pos = self.position_of(&ss.server);
        match pos {
            Some(i) => {
                proof {
                    lemma_map_of_update(self.entries@, i as int, ss);
                }
                self.entries[i] = ss;
            },
            None => {
                proof {
                    lemma_map_of_absent(self.entries@, ss.server);
                    assert(self.entries@.push(ss).drop_last() =~= self.entries@);
                }
                self.entries.push(ss);
            },
        }
    }

    /// Take a server's record out, if its address is present.
    pub fn remove_state(&mut self, server: &SocketAddress) -> (r: Option<ServerState>)
        requires
            old(self).inv(),
        ensures
            final (self).inv(),
            final (self)@ == old(self)@.remove(*server),
            r is Some <==> old(self)@.contains_key(*server),
            r matches Some(ss) ==> ss.server == *server && ss.entry_view() == old(self)@[*server],
    {
        let pos = self.position_of(&server);
        match pos {
            Some(i) => {
                proof {
                    lemma_map_of_index(self.entries@, i as int);
                    lemma_map_of_remove(self.entries@, i as int);
                }
                let ss = self.entries.remove(i);
                Some(ss)
            },
            None => {
                proof {
                    lemma_map_of_absent(self.entries@, *server);
                    assert(old(self)@.remove(*server) =~= old(self)@);
                }
                None
            },
        }
    }

    /// Record a fresh server under its address: the registry half of taking
    /// a new listener into service.
    pub fn hold(
        &mut self,
        server: SocketAddress,
        c: tokio::sync::oneshot::Sender<ControlInfo>,
    )
        requires
            old(self).inv(),
        ensures
            final (self).inv(),
            final (self)@ == old(self)@.insert(
                server,
                (EntryView { velocity: 0, date_time: Seq::empty() }),
            ),
    {
        let ss = ServerState::new(server, c);
        self.add_state(ss);
    }

    /// Store a throughput sample for a server, if it is still registered.
    pub fn update_state(&mut self, server: &SocketAddress, velocity: u32, date_time: String)
        requires
            old(self).inv(),
        ensures
            final (self).inv(),
            old(self)@.contains_key(*server) ==> final (self)@ == old(self)@.insert(
                *server,
                (EntryView { velocity, date_time: date_time@ }),
            ),
            !old(self)@.contains_key(*server) ==> final (self)@ == old(self)@,
    {
        let pos = self.position_of(&server);
        match pos {
            Some(i) => {
                proof {
                    lemma_map_of_index(self.entries@, i as int);
                    lemma_map_of_remove(self.entries@, i as int);
                    lemma_distinct_remove(self.entries@, i as int);
                }
                let mut ss = self.entries.remove(i);
                ss.velocity = velocity;
                ss.date_time = date_time;
                self.add_state(ss);
                proof {
                    assert(final (self)@ =~= old(self)@.insert(
                        *server,
                        (EntryView { velocity, date_time: final (self)@[*server].date_time }),
                    ));
                }
            },
            None => {
                proof {
                    lemma_map_of_absent(self.entries@, *server);
                }
            },
        }
    }
}

/// One line of a state report: the address, its velocity, and the sample's
/// time when one has arrived.
pub open spec fn line_of(a: SocketAddress, e: EntryView) -> Seq<char> {
    sock_text(a) + ",velocity:"@ + numeral_of(e.velocity as nat) + (if e.date_time.len() > 0 {
        " ["@ + e.date_time + "]"@
    } else {
        Seq::<char>::empty()
    })
}

/// The lines of the whole report, each preceded by one space.
pub open spec fn lines_cat(s: Seq<ServerState>) -> Seq<char>
    decreases s.len(),
{
    if s.len() == 0 {
        Seq::empty()
    } else {
        lines_cat(s.drop_last()) + " "@ + line_of(s.last().server, s.last().entry_view())
    }
}

/// A state query's answer: `ok `, then the one line of the queried address
/// if it is registered, nothing more otherwise.
pub open spec fn state_text(m: Map<SocketAddress, EntryView>, a: SocketAddress) -> Seq<char> {
    "ok "@ + (if m.contains_key(a) {
        line_of(a, m[a])
    } else {
        Seq::<char>::empty()
    })
}

impl Registry {
    fn append_line(out: &mut String, a: &SocketAddress, velocity: u32, date_time: &String)
        ensures
            final (out)@ == old(out)@ + line_of(
                *a,
                (EntryView { velocity, date_time: date_time@ }),
            ),
    {
        proof {
            reveal_strlit(",velocity:");
            reveal_strlit(" [");
            reveal_strlit("]");
        }
        let addr_text = format_socket_addr(a);
        out.append(addr_text.as_str());
        out.append(",velocity:");
        let v = format_usize(velocity as usize);
        out.append(v.as_str());
        if date_time.as_str().unicode_len() > 0 {
            out.append(" [");
            out.append(date_time.as_str());
            out.append("]");
        }
        proof {
            assert(out@ =~= old(out)@ + line_of(
                *a,
                (EntryView { velocity, date_time: date_time@ }),
            ));
        }
    }

    /// Report every registered server on one line: `ok`, then per server its
    /// address, velocity and latest sample time.
    pub fn list(&self) -> (r: String)
        ensures
            r@ == "ok"@ + lines_cat(self.entries@),
    {
        proof {
            reveal_strlit("ok");
            reveal_strlit(" ");
        }
        let mut out = "ok".to_owned();
        let mut i: usize = 0;
        while i < self.entries.len()
            invariant
                i <= self.entries@.len(),
                out@ == "ok"@ + lines_cat(self.entries@.take(i as int)),
            decreases self.entries@.len() - i,
        {
            proof {
                reveal_strlit(" ");
            }
            out.append(" ");
            let e = &self.entries[i];
            Self::append_line(&mut out, &e.server, e.velocity, &e.date_time);
            proof {
                assert(self.entries@.take(i + 1).drop_last() =~= self.entries@.take(i as int));
                assert(self.entries@.take(i + 1).last() == self.entries@[i as int]);
                assert(out@ =~= "ok"@ + lines_cat(self.entries@.take(i + 1)));
            }
            i += 1;
        }
        proof {
            assert(self.entries@.take(self.entries@.len() as int) =~= self.entries@);
        }
        out
    }

    /// Report one server: `ok ` and its line, or `ok ` alone when the
    /// address is not registered.
    pub fn state_string(&self, server: &SocketAddress) -> (r: String)
        requires
            self.inv(),
        ensures
            r@ == state_text(self@, *server),
    {
        proof {
            reveal_strlit("ok ");
        }
        let mut out = "ok ".to_owned();
        let pos = self.position_of(server);
        match pos {
            Some(i) => {
                proof {
                    lemma_map_of_index(self.entries@, i as int);
                }
                let e = &self.entries[i];
                Self::append_line(&mut out, &e.server, e.velocity, &e.date_time);
                proof {
                    assert(out@ =~= state_text(self@, *server));
                }
            },
            None => {
                proof {
                    lemma_map_of_absent(self.entries@, *server);
                    assert(out@ =~= state_text(self@, *server));
                }
            },
        }
        out
    }

    /// Remove a server's record and fire its close signal. The record goes
    /// exactly when the address was present; the call reports success only
    /// when, additionally, the server was still listening for the signal.
    pub fn shutdown(&mut self, server: &SocketAddress) -> (r: bool)
        requires
            old(self).inv(),
        ensures
            final (self).inv(),
            final (self)@ == old(self)@.remove(*server),
            !old(self)@.contains_key(*server) ==> r == false,
    {
        match self.remove_state(server) {
            Some(ss) => ss.send(ControlInfo::Close).is_ok(),
            None => false,
        }
    }
}

/// Shutting a server down removes exactly its record, so a state query for
/// that address afterwards answers `ok ` with an empty body — whether or not
/// the address had been registered.
pub proof fn shutdown_then_state_empty(m: Map<SocketAddress, EntryView>, a: SocketAddress)
    ensures
        !m.remove(a).contains_key(a),
        state_text(m.remove(a), a) == "ok "@,
{
    assert(state_text(m.remove(a), a) =~= "ok "@);
}

} // verus!
