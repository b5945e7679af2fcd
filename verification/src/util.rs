//! Small display utilities.

use vstd::prelude::*;

use crate::digits::dec_seq;
use crate::digits::u64_to_dec;

verus! {

/// The scale on which `b` bytes are reported: the largest power of 1000
/// (up to terabytes) by which `b` divides to something above 10.
pub open spec fn spec_unit_index(b: nat) -> nat {
    if b / 1000000000000 > 10 {
        4
    } else if b / 1000000000 > 10 {
        3
    } else if b / 1000000 > 10 {
        2
    } else if b / 1000 > 10 {
        1
    } else {
        0
    }
}

/// The unit name at each scale.
pub open spec fn spec_unit_name(k: nat) -> Seq<char> {
    if k == 4 {
        "TB"@
    } else if k == 3 {
        "GB"@
    } else if k == 2 {
        "MB"@
    } else if k == 1 {
        "KB"@
    } else {
        "bytes"@
    }
}

/// 1000 to the power `k`, for the scales in use.
pub open spec fn spec_pow1000(k: nat) -> nat {
    if k == 4 {
        1000000000000
    } else if k == 3 {
        1000000000
    } else if k == 2 {
        1000000
    } else if k == 1 {
        1000
    } else {
        1
    }
}

/// `b` bytes written on its scale: the scaled value, a space, the unit.
pub open spec fn spec_humanize(b: nat) -> Seq<char> {
    dec_seq(b / spec_pow1000(spec_unit_index(b))) + " "@ + spec_unit_name(spec_unit_index(b))
}

/// A byte count as a short human-readable size.
pub fn humanize_bytes(bytes: u64) -> (r: String)
    ensures
        r@ == spec_humanize(bytes as nat),
{
    proof {
        reveal_strlit(" ");
        reveal_strlit("bytes");
        reveal_strlit("KB");
        reveal_strlit("MB");
        reveal_strlit("GB");
        reveal_strlit("TB");
    }
    if bytes / 1000000000000 > 10 {
        let r = u64_to_dec(bytes / 1000000000000).concat(" ").concat("TB");
        proof {
            assert(r@ =~= spec_humanize(bytes as nat));
        }
        r
    } else if bytes / 1000000000 > 10 {
        let r = u64_to_dec(bytes / 1000000000).concat(" ").concat("GB");
        proof {
            assert(r@ =~= spec_humanize(bytes as nat));
        }
        r
    } else if bytes / 1000000 > 10 {
        let r = u64_to_dec(bytes / 1000000).concat(" ").concat("MB");
        proof {
            assert(r@ =~= spec_humanize(bytes as nat));
        }
        r
    } else if bytes / 1000 > 10 {
        let r = u64_to_dec(bytes / 1000).concat(" ").concat("KB");
        proof {
            assert(r@ =~= spec_humanize(bytes as nat));
        }
        r
    } else {
        let r = u64_to_dec(bytes).concat(" ").concat("bytes");
        proof {
            assert(r@ =~= spec_humanize(bytes as nat));
        }
        r
    }
}

} // verus!
