//! Weighted round-robin routing: the frozen route description, the stateful
//! target selector, and the per-direction accounting hook.

use crate::addr::find_in;
use crate::protoc::Protoc;
use vstd::prelude::*;
use vstd::string::StrSliceExecFns;

verus! {

/// A route: a listening side and one or more weighted upstream targets,
/// frozen once the sentence that defines it is accepted.
#[derive(Debug)]
pub struct RouteInfo {
    pub server_protoc: Protoc,
    pub server_addr: String,
    pub remote_protoc: Protoc,
    pub remote_addrs: Vec<String>,
    pub proportion: Vec<usize>,
}

/// The mathematical content of a route.
pub ghost struct RouteInfoView {
    pub server_protoc: Protoc,
    pub server_addr: Seq<char>,
    pub remote_protoc: Protoc,
    pub remote_addrs: Seq<Seq<char>>,
    pub proportion: Seq<usize>,
}

impl View for RouteInfo {
    type V = RouteInfoView;

    open spec fn view(&self) -> RouteInfoView {
        RouteInfoView {
            server_protoc: self.server_protoc,
            server_addr: self.server_addr@,
            remote_protoc: self.remote_protoc,
            remote_addrs: self.remote_addrs.deep_view(),
            proportion: self.proportion@,
        }
    }
}

impl RouteInfo {
    pub fn new(
        server_protoc: Protoc,
        server_addr: String,
        remote_protoc: Protoc,
        remote_addrs: Vec<String>,
        proportion: Vec<usize>,
    ) -> (r: Self)
        ensures
            r.server_protoc == server_protoc,
            r.server_addr == server_addr,
            r.remote_protoc == remote_protoc,
            r.remote_addrs == remote_addrs,
            r.proportion == proportion,
    {
        Self { server_protoc, server_addr, remote_protoc, remote_addrs, proportion }
    }
}

/// A per-direction data hook: it only counts the bytes that pass.
#[derive(Clone, Copy, Debug)]
pub struct RouteR {
    sum: usize,
}

impl RouteR {
    pub fn new() -> (r: Self)
        ensures
            r.spec_sum() == 0,
    {
        Self { sum: 0 }
    }

    /// The bytes seen so far.
    pub closed spec fn spec_sum(&self) -> usize {
        self.sum
    }

    pub fn sum(&self) -> (r: usize)
        ensures
            r == self.spec_sum(),
    {
        self.sum
    }

    /// Account a chunk and pass it on unchanged: what goes to the opposite
    /// stream is exactly what was read.
    pub fn data(&mut self, buf: &mut Vec<u8>)
        ensures
            final (buf)@ == old(buf)@,
            final (self).spec_sum() == if old(self).spec_sum() + old(buf)@.len() <= usize::MAX {
                old(self).spec_sum() + old(buf)@.len()
            } else {
                usize::MAX as int
            },
    {
        if buf.len() <= usize::MAX - self.sum {
            self.sum = self.sum + buf.len();
        } else {
            self.sum = usize::MAX;
        }
    }

    /// Account the final chunk of a direction; the buffer again passes
    /// unchanged.
    pub fn enddata(&mut self, buf: &mut Vec<u8>)
        ensures
            final (buf)@ == old(buf)@,
            final (self).spec_sum() == if old(self).spec_sum() + old(buf)@.len() <= usize::MAX {
                old(self).spec_sum() + old(buf)@.len()
            } else {
                usize::MAX as int
            },
    {
        self.data(buf);
    }
}

impl crate::pdtrait::FuncR for RouteR {
    fn data(&mut self, buf: &mut Vec<u8>) {
        RouteR::data(self, buf);
    }

    fn enddata(&mut self, buf: &mut Vec<u8>) {
        RouteR::enddata(self, buf);
    }
}

/// The host part of a target: everything before the first colon.
pub open spec fn host_prefix(t: Seq<char>) -> Seq<char> {
    t.take(find_in(t, ':'))
}

/// The stateful weighted round-robin selector: the targets, a cursor, and the
/// index schedule the weights expand to.
pub struct RouteAlg {
    pub targets: Vec<String>,
    pub cursor: usize,
    pub schedule: Vec<usize>,
}

impl RouteAlg {
    /// Every schedule entry indexes a target, and the cursor stays inside a
    /// nonempty schedule.
    pub open spec fn wf(&self) -> bool {
        &&& forall|i: int|
            0 <= i < self.schedule@.len() ==> #[trigger] self.schedule@[i] < self.targets@.len()
        &&& (self.schedule@.len() > 0 ==> self.cursor < self.schedule@.len())
    }

    pub fn new(targets: Vec<String>, schedule: Vec<usize>) -> (r: Self)
        requires
            forall|i: int| 0 <= i < schedule@.len() ==> #[trigger] schedule@[i] < targets@.len(),
        ensures
            r.wf(),
            r.targets == targets,
            r.schedule == schedule,
            r.cursor == 0,
    {
        let r = Self { targets, cursor: 0, schedule };
        r
    }

    /// Select the next target, in schedule order, and advance the cursor; an
    /// empty schedule selects nothing and the selector is inert.
    pub fn addr(&mut self) -> (r: Option<(String, String)>)
        requires
            old(self).wf(),
        ensures
            final (self).wf(),
            final (self).targets == old(self).targets,
            final (self).schedule == old(self).schedule,
            old(self).schedule@.len() == 0 ==> r is None && *final (self) == *old(self),
            old(self).schedule@.len() > 0 ==> (r matches Some(p)
                && p.0@ == old(self).targets@[old(self).schedule@[old(self).cursor as int] as int]@
                && p.1@ == host_prefix(p.0@) && final (self).cursor == (old(self).cursor + 1) % (
            old(self).schedule@.len() as int)),
    {
        if self.schedule.len() == 0 {
            return None;
        }
        let idx = self.schedule[self.cursor];
        let s = self.targets[idx].clone();
        self.cursor = (self.cursor + 1) % self.schedule.len();
        let j = crate::addr::find_char(s.as_str(), ':');
        let h = s.as_str().substring_char(0, j).to_owned();
        proof {
            assert(h@ =~= host_prefix(s@));
        }
        Some((s, h))
    }
}

} // verus!
