//! The upstream chosen for one accepted connection, and the byte-to-text
//! conversion the control plane applies to what clients send.

use crate::protoc::Protoc;
use vstd::prelude::*;

verus! {

/// The upstream for one connection: a protocol, a `host:port` target, and the
/// bare host name used for the TLS handshake.
#[derive(Debug)]
pub struct Remote {
    pub protoc: Protoc,
    pub target: String,
    pub host: String,
}

impl Remote {
    pub fn new(protoc: Protoc, target: String, host: String) -> (r: Self)
        ensures
            r.protoc == protoc,
            r.target == target,
            r.host == host,
    {
        Self { protoc, target, host }
    }

    pub fn protoc(&self) -> (r: Protoc)
        ensures
            r == self.protoc,
    {
        self.protoc
    }

    pub fn target(&self) -> (r: &String)
        ensures
            r == self.target,
    {
        &self.target
    }

    pub fn host(&self) -> (r: &String)
        ensures
            r == self.host,
    {
        &self.host
    }
}

/// The characters that a byte string reads as, with every ill-formed sequence
/// replaced by the replacement character.
pub uninterp spec fn lossy_chars(b: Seq<u8>) -> Seq<char>;

/// Relies on `String::from_utf8_lossy`: the result depends on the bytes
/// alone; well-formed input passes through unchanged, so on valid UTF-8 the
/// characters are exactly the decoding of the bytes; and since every
/// character comes from at least one input byte — a decoded character from
/// its own encoding, a replacement character from an ill-formed sequence of
/// at least one byte — the result never has more characters than the input
/// has bytes.
#[verifier::external_body]
pub(crate) fn into_str(buf: &[u8]) -> (r: String)
    ensures
        r@ == lossy_chars(buf@),
        r@.len() <= buf@.len(),
        vstd::utf8::valid_utf8(buf@) ==> r@ == vstd::utf8::decode_utf8(buf@),
{
    String::from_utf8_lossy(buf).into_owned()
}

} // verus!
