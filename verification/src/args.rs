//! The startup arguments, as plain text fields with their readings.

use crate::addr::ip_of;
use crate::addr::IpAddress;
use crate::protoc::str_eq;
use crate::text::split_of;
use crate::text::split_on;
use vstd::prelude::*;

verus! {

/// The arguments the process starts with: the control socket, the addresses
/// allowed to configure, and the two yes-or-no switches.
#[derive(Debug)]
pub struct Args {
    pub socket: String,
    pub ipscope: String,
    pub cfgtool: String,
    pub socsafe: String,
}

/// The addresses a comma-joined list names; tokens that name none are
/// dropped.
pub open spec fn ips_of(ts: Seq<Seq<char>>) -> Seq<IpAddress>
    decreases ts.len(),
{
    if ts.len() == 0 {
        Seq::empty()
    } else {
        ips_of(ts.drop_last()) + (match ip_of(ts.last()) {
            Option::Some(ip) => seq![ip],
            Option::None => Seq::empty(),
        })
    }
}

impl Args {
    pub fn socket(&self) -> (r: &str)
        ensures
            r@ == self.socket@,
    {
        self.socket.as_str()
    }

    /// Whether the interactive configuration tool is asked for.
    pub fn is_tool(&self) -> (r: bool)
        ensures
            r == (self.cfgtool@ == "yes"@),
    {
        proof {
            reveal_strlit("yes");
        }
        str_eq(self.cfgtool.as_str(), "yes")
    }

    /// Whether the control plane runs over TLS: anything but `no` turns it
    /// on.
    pub fn is_safe(&self) -> (r: bool)
        ensures
            r == (self.socsafe@ != "no"@),
    {
        proof {
            reveal_strlit("no");
        }
        !str_eq(self.socsafe.as_str(), "no")
    }

    /// The allowed addresses the comma-joined list names.
    pub fn ipscope(&self) -> (r: Vec<IpAddress>)
        ensures
            r@ == ips_of(split_of(self.ipscope@, ',')),
    {
        let ts = split_on(self.ipscope.as_str(), ',');
        let mut out: Vec<IpAddress> = Vec::new();
        let mut i: usize = 0;
        while i < ts.len()
            invariant
                i <= ts@.len(),
                ts.deep_view() == split_of(self.ipscope@, ','),
                out@ == ips_of(ts.deep_view().take(i as int)),
            decreases ts@.len() - i,
        {
            proof {
                assert(ts.deep_view()[i as int] == ts@[i as int]@);
                assert(ts.deep_view().take(i + 1).drop_last() =~= ts.deep_view().take(i as int));
                assert(ts.deep_view().take(i + 1).last() == ts.deep_view()[i as int]);
            }
            match crate::addr::parse_ip(ts[i].as_str()) {
                Some(ip) => {
                    out.push(ip);
                    proof {
                        assert(out@ =~= ips_of(ts.deep_view().take(i + 1)));
                    }
                },
                None => {
                    proof {
                        assert(out@ =~= ips_of(ts.deep_view().take(i + 1)));
                    }
                },
            }
            i += 1;
        }
        proof {
            assert(ts.deep_view().take(ts.deep_view().len() as int) =~= ts.deep_view());
        }
        out
    }
}

/// The arguments' default values: a control socket on an ephemeral local
/// port, configuration allowed from the local host only, and both switches
/// off. The surroundings may override any of them before `build` runs.
pub fn init() -> (r: Args)
    ensures
        r.socket@ == "127.0.0.1:0"@,
        r.ipscope@ == "127.0.0.1,::1"@,
        r.cfgtool@ == "no"@,
        r.socsafe@ == "no"@,
{
    Args {
        socket: "127.0.0.1:0".to_owned(),
        ipscope: "127.0.0.1,::1".to_owned(),
        cfgtool: "no".to_owned(),
        socsafe: "no".to_owned(),
    }
}

} // verus!
