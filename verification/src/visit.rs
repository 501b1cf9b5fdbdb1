//! Transparent visit forwarding: the frozen visit description, its accounting
//! hook, and the selector that derives the upstream from the host header of
//! the first buffered request.

use crate::addr::find_in;
use crate::http::http_host;
use crate::http::parse_http_host;
use crate::protoc::Protoc;
use crate::remote::into_str;
use crate::remote::lossy_chars;
use crate::remote::Remote;
use vstd::prelude::*;

verus! {

/// A visit: a listening side whose upstream is chosen per connection.
#[derive(Debug)]
pub struct VisitInfo {
    pub server_protoc: Protoc,
    pub server_addr: String,
    pub remote_protoc: Protoc,
}

/// The mathematical content of a visit.
pub ghost struct VisitInfoView {
    pub server_protoc: Protoc,
    pub server_addr: Seq<char>,
    pub remote_protoc: Protoc,
}

impl View for VisitInfo {
    type V = VisitInfoView;

    open spec fn view(&self) -> VisitInfoView {
        VisitInfoView {
            server_protoc: self.server_protoc,
            server_addr: self.server_addr@,
            remote_protoc: self.remote_protoc,
        }
    }
}

impl VisitInfo {
    pub fn new(server_protoc: Protoc, server_addr: String, remote_protoc: Protoc) -> (r: Self)
        ensures
            r.server_protoc == server_protoc,
            r.server_addr == server_addr,
            r.remote_protoc == remote_protoc,
    {
        Self { server_protoc, server_addr, remote_protoc }
    }
}

/// A per-direction data hook for visits; it only counts the bytes that pass.
#[derive(Clone, Copy, Debug)]
pub struct VisitR {
    sum: usize,
}

impl VisitR {
    pub fn new() -> (r: Self)
        ensures
            r.spec_sum() == 0,
    {
        Self { sum: 0 }
    }

    /// The bytes seen so far.
    pub closed spec fn spec_sum(&self) -> usize {
        self.sum
    }

    pub fn sum(&self) -> (r: usize)
        ensures
            r == self.spec_sum(),
    {
        self.sum
    }

    /// Account a chunk and pass it on unchanged.
    pub fn data(&mut self, buf: &mut Vec<u8>)
        ensures
            final (buf)@ == old(buf)@,
            final (self).spec_sum() == if old(self).spec_sum() + old(buf)@.len() <= usize::MAX {
                old(self).spec_sum() + old(buf)@.len()
            } else {
                usize::MAX as int
            },
    {
        if buf.len() <= usize::MAX - self.sum {
            self.sum = self.sum + buf.len();
        } else {
            self.sum = usize::MAX;
        }
    }

    /// Account the final chunk of a direction; the buffer passes unchanged.
    pub fn enddata(&mut self, buf: &mut Vec<u8>)
        ensures
            final (buf)@ == old(buf)@,
            final (self).spec_sum() == if old(self).spec_sum() + old(buf)@.len() <= usize::MAX {
                old(self).spec_sum() + old(buf)@.len()
            } else {
                usize::MAX as int
            },
    {
        self.data(buf);
    }
}

impl crate::pdtrait::FuncR for VisitR {
    fn data(&mut self, buf: &mut Vec<u8>) {
        VisitR::data(self, buf);
    }

    fn enddata(&mut self, buf: &mut Vec<u8>) {
        VisitR::enddata(self, buf);
    }
}

/// The target a visit derives from a host: the host itself when it already
/// carries a port, else the conventional port of the remote protocol.
pub open spec fn derived_target(p: Protoc, host: Seq<char>) -> Seq<char> {
    if find_in(host, ':') < host.len() {
        host
    } else if p == Protoc::HTTP {
        host + ":443"@
    } else {
        host + ":80"@
    }
}

/// The per-connection selector of a visit: it reads the host header out of
/// the first buffered bytes.
#[derive(Clone, Copy, Debug)]
pub struct VisitFinder(pub Protoc);

impl VisitFinder {
    /// Derive the upstream from the first buffered bytes: none when the head
    /// does not parse, names no host, or the visit's protocol does not route.
    pub fn get(&self, buf: &Vec<u8>) -> (r: Option<Remote>)
        ensures
            match http_host(buf@) {
                Option::None => r is None,
                Option::Some(hb) => {
                    if self.0 == Protoc::HTTP || self.0 == Protoc::HTTPPT {
                        r matches Some(rem) && rem.protoc == self.0 && rem.host@ == lossy_chars(hb)
                            && rem.target@ == derived_target(self.0, lossy_chars(hb))
                    } else {
                        r is None
                    }
                },
            },
    {
        let hb = match parse_http_host(buf.as_slice()) {
            Some(h) => h,
            None => {
                return None;
            },
        };
        let host = into_str(hb.as_slice());
        if !(matches!(self.0, Protoc::HTTP) || matches!(self.0, Protoc::HTTPPT)) {
            return None;
        }
        let j = crate::addr::find_char(host.as_str(), ':');
        let target: String = if j < host.as_str().unicode_len() {
            let t = host.clone();
            proof {
                assert(t@ == derived_target(self.0, host@));
            }
            t
        } else if matches!(self.0, Protoc::HTTP) {
            let t = host.clone().concat(":443");
            proof {
                reveal_strlit(":443");
            }
            t
        } else {
            let t = host.clone().concat(":80");
            proof {
                reveal_strlit(":80");
            }
            t
        };
        Some(Remote::new(self.0, target, host))
    }
}

/// A visit's per-connection package: the selector and the two direction
/// hooks the outer accept loop clones for each plain connection.
#[derive(Clone, Debug)]
pub struct Visit<T> {
    pub visit: VisitFinder,
    pub server_data_func: T,
    pub remote_data_func: T,
}

impl<T> Visit<T> {
    pub fn new(visit: VisitFinder, server_data_func: T, remote_data_func: T) -> (r: Self)
        ensures
            r.visit == visit,
            r.server_data_func == server_data_func,
            r.remote_data_func == remote_data_func,
    {
        Self { visit, server_data_func, remote_data_func }
    }
}

} // verus!
