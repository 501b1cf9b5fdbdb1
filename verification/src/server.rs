//! The verified half of the accept loop: who may connect, and how accepted
//! connections are counted into throughput samples. The socket work around
//! these decisions lives outside the library.

use crate::addr::IpAddress;
use crate::remote::Remote;
use vstd::prelude::*;

verus! {

/// Whether an allow-set turns an address away: an empty set admits every
/// address, a nonempty one exactly its members.
pub open spec fn rejects(scope: Seq<IpAddress>, ip: IpAddress) -> bool {
    !(scope.len() == 0 || scope.contains(ip))
}

/// A server's allow-set.
#[derive(Debug)]
pub struct IpScope {
    pub list: Vec<IpAddress>,
}

impl IpScope {
    pub fn new() -> (r: Self)
        ensures
            r.list@ == Seq::<IpAddress>::empty(),
    {
        Self { list: Vec::new() }
    }

    /// Replace the allow-set.
    pub fn set_ip_scope(&mut self, ipscope: &Vec<IpAddress>)
        ensures
            final (self).list@ == ipscope@,
    {
        self.list.clear();
        let mut i: usize = 0;
        while i < ipscope.len()
            invariant
                i <= ipscope@.len(),
                self.list@ == ipscope@.take(i as int),
            decreases ipscope@.len() - i,
        {
            self.list.push(ipscope[i]);
            proof {
                assert(self.list@ =~= ipscope@.take(i + 1));
            }
            i += 1;
        }
        proof {
            assert(ipscope@.take(ipscope@.len() as int) =~= ipscope@);
        }
    }

    /// Union one address into the allow-set.
    pub fn add_ip_scope(&mut self, ip: IpAddress)
        ensures
            final (self).list@ == old(self).list@.push(ip),
    {
        self.list.push(ip);
    }

    /// Turn an address away exactly when the allow-set is nonempty and does
    /// not hold it.
    pub fn reject_ip(&self, ip: IpAddress) -> (r: bool)
        ensures
            r == rejects(self.list@, ip),
    {
        if self.list.len() == 0 {
            return false;
        }
        let mut i: usize = 0;
        while i < self.list.len()
            invariant
                i <= self.list@.len(),
                forall|t: int| 0 <= t < i ==> self.list@[t] != ip,
            decreases self.list@.len() - i,
        {
            if self.list[i] == ip {
                return false;
            }
            i += 1;
        }
        true
    }
}

/// The allow-set rule in both directions: an empty set admits every address;
/// a nonempty one admits exactly the listed addresses.
pub proof fn admission_rule(scope: Seq<IpAddress>, ip: IpAddress)
    ensures
        scope.len() == 0 ==> !rejects(scope, ip),
        scope.len() > 0 ==> (rejects(scope, ip) <==> !scope.contains(ip)),
{
}

/// The per-second acceptance counter behind the velocity samples.
#[derive(Clone, Copy, Debug)]
pub struct TickCounter {
    pub n: u32,
}

impl TickCounter {
    pub fn new() -> (r: Self)
        ensures
            r.n == 0,
    {
        Self { n: 0 }
    }

    /// Count one accepted connection.
    pub fn on_accept(&mut self)
        ensures
            final (self).n == if old(self).n < u32::MAX {
                old(self).n + 1
            } else {
                u32::MAX as int
            },
    {
        if self.n < u32::MAX {
            self.n = self.n + 1;
        }
    }

    /// Whether a sample is due at a tick: only when anything was counted.
    pub fn should_sample(&self) -> (r: bool)
        ensures
            r == (self.n > 0),
    {
        self.n > 0
    }

    /// A sample was offered: the count starts over only if it was taken, and
    /// otherwise accumulates into the next tick.
    pub fn on_sample(&mut self, sent: bool)
        ensures
            sent ==> final (self).n == 0,
            !sent ==> *final (self) == *old(self),
    {
        if sent {
            self.n = 0;
        }
    }
}

/// A client-side connection plan: the chosen upstream and the retry budget.
#[derive(Debug)]
pub struct Client {
    pub remote: Remote,
    pub send_count: u16,
}

impl Client {
    pub fn new(remote: Remote) -> (r: Self)
        ensures
            r.remote == remote,
            r.send_count == 0,
    {
        Self { remote, send_count: 0 }
    }

    pub fn send_count(&self) -> (r: u16)
        ensures
            r == self.send_count,
    {
        self.send_count
    }

    pub fn set_send_count(&mut self, send_count: u16)
        ensures
            *final (self) == (Client { send_count, ..*old(self) }),
    {
        self.send_count = send_count;
    }

    /// How many connection attempts the plan allows: at least one.
    pub fn attempts(&self) -> (r: u16)
        ensures
            r == if self.send_count > 1 {
                self.send_count
            } else {
                1u16
            },
    {
        if self.send_count > 1 {
            self.send_count
        } else {
            1
        }
    }
}

/// A plain per-connection service: it wraps the function that answers one
/// connection's requests.
#[derive(Clone, Debug)]
pub struct Service<T> {
    pub func: T,
}

impl<T> Service<T> {
    pub fn new(func: T) -> (r: Self)
        ensures
            r.func == func,
    {
        Self { func }
    }
}

} // verus!
