//! The control-plane dispatcher: one configuration sentence in, one outcome
//! out, with the lifecycle effects on the registry and the certificate store.
//!
//! While the process waits for its first certificate, the dispatcher is in
//! safe mode: every sentence but a well-formed certificate one is answered
//! with the must-be-certificate outcome and has no effect at all.

use crate::addr::parse_socket_addr;
use crate::addr::sock_of;
use crate::cert::CertStore;
use crate::route::RouteInfo;
use crate::rule::parse_rule;
use crate::rule::RuleType;
use crate::rule::RuleView;
use crate::state::lines_cat;
use crate::state::state_text;
use crate::state::ControlInfo;
use crate::state::Registry;
use crate::state::ServerState;
use crate::visit::VisitInfo;
use vstd::prelude::*;

verus! {

/// The exact outcome strings of the control plane, by code: accepted, a
/// malformed sentence, an unknown protocol, a bad address, the safe-mode
/// refusal, a certificate failure, a started server, and a failed shutdown.
/// Codes outside the table read as the malformed-sentence text.
pub open spec fn outcome_view(n: u8) -> Seq<char> {
    if n == 0 {
        "ok"@
    } else if n == 2 {
        "protocol error"@
    } else if n == 3 {
        "SocketAddr error"@
    } else if n == 4 {
        "must be certificate sentence"@
    } else if n == 5 {
        "certificate error"@
    } else if n == 6 {
        "server is starting up..."@
    } else if n == 7 {
        "shutdown error"@
    } else {
        "configuration sentences error"@
    }
}

/// The outcome string for a code.
pub fn outcome_text(n: u8) -> (r: String)
    ensures
        r@ == outcome_view(n),
{
    proof {
        reveal_strlit("ok");
        reveal_strlit("protocol error");
        reveal_strlit("SocketAddr error");
        reveal_strlit("must be certificate sentence");
        reveal_strlit("certificate error");
        reveal_strlit("server is starting up...");
        reveal_strlit("shutdown error");
        reveal_strlit("configuration sentences error");
    }
    if n == 0 {
        "ok".to_owned()
    } else if n == 2 {
        "protocol error".to_owned()
    } else if n == 3 {
        "SocketAddr error".to_owned()
    } else if n == 4 {
        "must be certificate sentence".to_owned()
    } else if n == 5 {
        "certificate error".to_owned()
    } else if n == 6 {
        "server is starting up...".to_owned()
    } else if n == 7 {
        "shutdown error".to_owned()
    } else {
        "configuration sentences error".to_owned()
    }
}

/// A server the dispatcher asks to be started, on its own runtime.
pub enum StartAction {
    Route(RouteInfo),
    Visit(VisitInfo),
}

/// What one sentence asks of the surroundings: answer the client, start a
/// server and answer, or read a certificate file and come back with the
/// bytes.
pub enum Step {
    Reply(String),
    Start(String, StartAction),
    NeedFile(String, String),
}

/// The reply to a state query: one server's line when the token names a
/// registered address, the whole list otherwise.
pub open spec fn state_reply(reg: Registry, q: Option<Seq<char>>) -> Seq<char> {
    match q {
        Option::Some(a) => {
            if sock_of(a) is Some {
                state_text(reg@, sock_of(a)->0)
            } else {
                "ok"@ + lines_cat(reg.entries@)
            }
        },
        Option::None => "ok"@ + lines_cat(reg.entries@),
    }
}

/// The control plane's own state: the safe-mode flag, the server registry,
/// the certificate store, and the record of the control listener itself,
/// whose close signal a certificate installation fires.
pub struct ControlPlane {
    pub safe: bool,
    pub registry: Registry,
    pub certs: CertStore,
    pub current: Option<ServerState>,
}

impl ControlPlane {
    pub open spec fn inv(&self) -> bool {
        self.registry.inv() && self.certs.inv()
    }

    pub fn new(safe: bool) -> (r: Self)
        ensures
            r.inv(),
            r.safe == safe,
            r.registry@ == crate::state::map_of(Seq::<ServerState>::empty()),
            r.certs.blobs() == Seq::<Seq<u8>>::empty(),
            r.certs.installed() is None,
            r.current is None,
    {
        Self { safe, registry: Registry::new(), certs: CertStore::new(), current: None }
    }

    /// Leave safe mode: fire the control listener's close signal, if the
    /// mode was on and the listener's record is held here.
    fn send_stop(&mut self)
        ensures
            final (self).safe == false,
            final (self).registry == old(self).registry,
            final (self).certs == old(self).certs,
            old(self).safe ==> final (self).current is None,
            !old(self).safe ==> *final (self) == *old(self),
    {
        if self.safe {
            let cur = self.current.take();
            match cur {
                Some(c) => {
                    let _ = c.send(ControlInfo::Close);
                },
                None => {},
            }
            self.safe = false;
        }
    }

    /// Handle one configuration sentence. Every sentence leaves the
    /// certificate store alone; installing goes through `handle_cert_file`
    /// once the archive's bytes are in hand. In safe mode everything but a
    /// certificate sentence is answered with the must-be-certificate outcome
    /// and changes nothing.
    pub fn handle_cfg(&mut self, s: String) -> (r: Step)
        requires
            old(self).inv(),
        ensures
            final (self).inv(),
            final (self).certs == old(self).certs,
            old(self).safe && !(parse_rule(s@) is CertificateF) && !(parse_rule(s@)
                is CertificateS) ==> *final (self) == *old(self) && (r matches Step::Reply(t) && t@
                == outcome_view(4)),
            parse_rule(s@) matches RuleView::CertificateF(p, w) ==> (*final (self) == *old(self)
                && (r matches Step::NeedFile(a, b) && a@ == p && b@ == w)),
            parse_rule(s@) is CertificateS ==> ((r matches Step::Reply(t) && t@ == outcome_view(0))
                && final (self).safe == false && final (self).registry == old(self).registry && (
            old(self).safe ==> final (self).current is None) && (!old(self).safe ==> final (
            self).current == old(self).current)),
            parse_rule(s@) matches RuleView::Route(o) ==> (old(self).safe || (*final (self)
                == *old(self) && (r matches Step::Start(t, act) && t@ == outcome_view(6) && (
            act matches StartAction::Route(ri) && ri@ == o)))),
            parse_rule(s@) matches RuleView::Visit(o) ==> (old(self).safe || (*final (self)
                == *old(self) && (r matches Step::Start(t, act) && t@ == outcome_view(6) && (
            act matches StartAction::Visit(vi) && vi@ == o)))),
            parse_rule(s@) matches RuleView::State(q) ==> (old(self).safe || (*final (self)
                == *old(self) && (r matches Step::Reply(t) && t@ == state_reply(
                old(self).registry,
                q,
            )))),
            parse_rule(s@) matches RuleView::Shutdown(a) ==> (old(self).safe || (final (self).safe
                == old(self).safe && final (self).current == old(self).current && final (
            self).certs == old(self).certs && (match sock_of(a) {
                Option::Some(ad) => final (self).registry@ == old(self).registry@.remove(ad) && (
                r matches Step::Reply(t) && (t@ == outcome_view(0) || t@ == outcome_view(7))) && (
                !old(self).registry@.contains_key(ad) ==> (r matches Step::Reply(t) && t@
                    == outcome_view(7))),
                Option::None => *final (self) == *old(self) && (r matches Step::Reply(t) && t@
                    == outcome_view(7)),
            }))),
            parse_rule(s@) matches RuleView::Fail(n) ==> (old(self).safe || (*final (self) == *old(
                self,
            ) && (r matches Step::Reply(t) && t@ == outcome_view(n)))),
    {
        let rule = RuleType::from(s);
        match rule {
            RuleType::Route(o) => {
                if self.safe {
                    return Step::Reply(outcome_text(4));
                }
                Step::Start(outcome_text(6), StartAction::Route(o))
            },
            RuleType::Visit(o) => {
                if self.safe {
                    return Step::Reply(outcome_text(4));
                }
                Step::Start(outcome_text(6), StartAction::Visit(o))
            },
            RuleType::CertificateF(a, b) => Step::NeedFile(a, b),
            RuleType::CertificateS(_, _) => {
                // retrieving a certificate over a socket is reserved; the
                // stub succeeds without touching the store
                self.send_stop();
                Step::Reply(outcome_text(0))
            },
            RuleType::State(q) => {
                if self.safe {
                    return Step::Reply(outcome_text(4));
                }
                match q {
                    Some(tok) => match parse_socket_addr(tok.as_str()) {
                        Some(ad) => Step::Reply(self.registry.state_string(&ad)),
                        None => Step::Reply(self.registry.list()),
                    },
                    None => Step::Reply(self.registry.list()),
                }
            },
            RuleType::Shutdown(a) => {
                if self.safe {
                    return Step::Reply(outcome_text(4));
                }
                match parse_socket_addr(a.as_str()) {
                    Some(ad) => {
                        if self.registry.shutdown(&ad) {
                            Step::Reply(outcome_text(0))
                        } else {
                            Step::Reply(outcome_text(7))
                        }
                    },
                    None => Step::Reply(outcome_text(7)),
                }
            },
            RuleType::Fail(n) => {
                if self.safe {
                    return Step::Reply(outcome_text(4));
                }
                Step::Reply(outcome_text(n))
            },
        }
    }

    /// Install a certificate from a file's bytes, or from the failure to
    /// read them: the store grows exactly when the archive opens under the
    /// password, and a success in safe mode restarts the control listener.
    pub fn handle_cert_file(&mut self, data: Option<Vec<u8>>, pwd: &str) -> (r: String)
        requires
            old(self).inv(),
        ensures
            final (self).inv(),
            final (self).registry == old(self).registry,
            match data {
                Option::Some(d) => {
                    if crate::cert::pkcs12_ok(d@, pwd@) {
                        r@ == outcome_view(0) && final (self).certs.blobs() == old(
                            self,
                        ).certs.blobs().push(d@) && final (self).certs.installed() is Some && final (
                        self).safe == false && (old(self).safe ==> final (self).current is None)
                    } else {
                        r@ == outcome_view(5) && *final (self) == *old(self)
                    }
                },
                Option::None => r@ == outcome_view(5) && *final (self) == *old(self),
            },
    {
        match data {
            Some(d) => {
                match self.certs.build_identity(d.as_slice(), pwd) {
                    Ok(_) => {
                        self.send_stop();
                        outcome_text(0)
                    },
                    Err(_) => outcome_text(5),
                }
            },
            None => outcome_text(5),
        }
    }
}

} // verus!