//! The server's side of the keepalive: a ping is answered with a pong.

use vstd::prelude::*;

verus! {

/// The bytes of `PING`.
pub open spec fn ping_bytes() -> Seq<u8> {
    seq![0x50u8, 0x49u8, 0x4eu8, 0x47u8]
}

/// The bytes of `PONG`.
pub open spec fn pong_bytes() -> Seq<u8> {
    seq![0x50u8, 0x4fu8, 0x4eu8, 0x47u8]
}

/// The reply to a received payload: `PONG` to exactly `PING`, nothing to
/// anything else.
pub fn reply_to(payload: &[u8]) -> (r: Option<Vec<u8>>)
    ensures
        r is Some <==> payload@ == ping_bytes(),
        r matches Some(v) ==> v@ == pong_bytes(),
{
    if payload.len() == 4 && payload[0] == 0x50 && payload[1] == 0x49 && payload[2] == 0x4e
        && payload[3] == 0x47 {
        assert(payload@ =~= ping_bytes());
        let v: Vec<u8> = vec![0x50u8, 0x4fu8, 0x4eu8, 0x47u8];
        assert(v@ =~= pong_bytes());
        Some(v)
    } else {
        assert(payload@ != ping_bytes() ) by {
            if payload@ == ping_bytes() {
                assert(payload@.len() == 4);
            }
        }
        None
    }
}

} // verus!
