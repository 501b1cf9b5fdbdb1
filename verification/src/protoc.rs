//! The protocol names a configuration sentence may use.

use vstd::prelude::*;
use vstd::string::StrSliceExecFns;

verus! {

/// A transfer protocol, for the listening side or the upstream side.
#[derive(Clone, Copy, Debug, PartialEq, Eq, Structural)]
pub enum Protoc {
    TCP,
    TLS,
    UDP,
    HTTP,
    HTTPPT,
}

/// Character-for-character string equality.
pub fn str_eq(a: &str, b: &str) -> (r: bool)
    ensures
        r == (a@ == b@),
{
    let n = a.unicode_len();
    if n != b.unicode_len() {
        proof {
            assert(a@ =~= b@ ==> a@.len() == b@.len());
        }
        return false;
    }
    let mut i: usize = 0;
    while i < n
        invariant
            n == a@.len() && n == b@.len(),
            i <= n,
            forall|t: int| 0 <= t < i ==> a@[t] == b@[t],
        decreases n - i,
    {
        if a.get_char(i) != b.get_char(i) {
            proof {
                assert(a@[i as int] != b@[i as int]);
            }
            return false;
        }
        i += 1;
    }
    proof {
        assert(a@ =~= b@);
    }
    true
}

/// The protocol a token names, if any.
pub open spec fn protoc_of(s: Seq<char>) -> Option<Protoc> {
    if s == "http"@ {
        Some(Protoc::HTTP)
    } else if s == "http_pt"@ {
        Some(Protoc::HTTPPT)
    } else if s == "tcp"@ {
        Some(Protoc::TCP)
    } else if s == "tls"@ {
        Some(Protoc::TLS)
    } else if s == "udp"@ {
        Some(Protoc::UDP)
    } else {
        None
    }
}

/// The token that names a protocol.
pub open spec fn protoc_text(p: Protoc) -> Seq<char> {
    match p {
        Protoc::HTTP => "http"@,
        Protoc::HTTPPT => "http_pt"@,
        Protoc::TCP => "tcp"@,
        Protoc::TLS => "tls"@,
        Protoc::UDP => "udp"@,
    }
}

/// Protocol names denote distinct protocols, and each name reads back.
pub proof fn lemma_protoc_text_reads_back(p: Protoc)
    ensures
        protoc_of(protoc_text(p)) == Some(p),
{
    reveal_strlit("http");
    reveal_strlit("http_pt");
    reveal_strlit("tcp");
    reveal_strlit("tls");
    reveal_strlit("udp");
    assert("http"@.len() == 4 && "http_pt"@.len() == 7 && "tcp"@.len() == 3 && "tls"@.len() == 3
        && "udp"@.len() == 3);
    assert("tcp"@[0] == 't' && "tls"@[1] == 'l' && "tcp"@[1] == 'c' && "udp"@[0] == 'u');
    assert("tcp"@ != "tls"@ && "tcp"@ != "udp"@ && "tls"@ != "udp"@);
}

/// Turn a protocol token into the protocol it names.
pub fn to_protoc(s: &str) -> (r: Option<Protoc>)
    ensures
        r == protoc_of(s@),
{
    proof {
        reveal_strlit("http");
        reveal_strlit("http_pt");
        reveal_strlit("tcp");
        reveal_strlit("tls");
        reveal_strlit("udp");
    }
    if str_eq(s, "http") {
        Some(Protoc::HTTP)
    } else if str_eq(s, "http_pt") {
        Some(Protoc::HTTPPT)
    } else if str_eq(s, "tcp") {
        Some(Protoc::TCP)
    } else if str_eq(s, "tls") {
        Some(Protoc::TLS)
    } else if str_eq(s, "udp") {
        Some(Protoc::UDP)
    } else {
        None
    }
}

} // verus!
