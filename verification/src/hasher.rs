//! A seeded, order-sensitive byte hash used for bucket routing.
//!
//! The hash is a pure function of the seed and the byte sequence: the
//! seed's 8 little-endian bytes are mixed first, then the data bytes in
//! order. No distribution quality is claimed beyond being usable for
//! coarse routing.

use vstd::prelude::*;

use crate::codec::u64_le_bytes;

verus! {

/// The modulus of the mixing recurrence: `u64::MAX`, so the running
/// state always fits in 64 bits.
pub open spec fn hash_modulus() -> int {
    0xffff_ffff_ffff_ffff
}

/// One step of the mixing recurrence on state `n` with previous byte
/// `prev` and next byte `d`.
pub open spec fn mix_step(n: int, prev: u8, d: u8) -> int {
    ((n + 11) * ((d as int) + 13) + ((d ^ prev) as int)) % hash_modulus()
}

/// Folds the mixing recurrence over `s`, byte by byte, starting from
/// `state` (the running value and the previous byte).
pub open spec fn mix(state: (int, u8), s: Seq<u8>) -> (int, u8)
    decreases s.len(),
{
    if s.len() == 0 {
        state
    } else {
        let prefix = mix(state, s.drop_last());
        (mix_step(prefix.0, prefix.1, s.last()), s.last())
    }
}

/// The hash of `data` under `seed`: the recurrence folded over the
/// seed's little-endian bytes and then the data bytes.
pub open spec fn hash_spec(seed: u64, data: Seq<u8>) -> u64 {
    mix((0, 0), u64_le_bytes(seed) + data).0 as u64
}

/// Mixing distributes over concatenation: folding `a + b` is folding
/// `b` from the state reached after `a`.
pub proof fn lemma_mix_append(state: (int, u8), a: Seq<u8>, b: Seq<u8>)
    ensures
        mix(state, a + b) == mix(mix(state, a), b),
    decreases b.len(),
{
    if b.len() == 0 {
        assert(a + b =~= a);
    } else {
        lemma_mix_append(state, a, b.drop_last());
        assert((a + b).drop_last() =~= a + b.drop_last());
        assert((a + b).last() == b.last());
    }
}

/// Runs the mixing recurrence over `data` starting from `(n, prev)`.
fn mix_bytes(n: u64, prev: u8, data: &[u8]) -> (r: (u64, u8))
    requires
        n < hash_modulus(),
    ensures
        (r.0 as int, r.1) == mix((n as int, prev), data@),
        r.0 < hash_modulus(),
{
    let mut cn: u64 = n;
    let mut cp: u8 = prev;
    let mut i: usize = 0;
    while i < data.len()
        invariant
            i <= data@.len(),
            cn < hash_modulus(),
            (cn as int, cp) == mix((n as int, prev), data@.take(i as int)),
        decreases data@.len() - i,
    {
        let d = data[i];
        proof {
            assert((cn as int + 11) * (d as int + 13) <= 0x1_0000_0000_0000_000a * 268)
                by (nonlinear_arith)
                requires
                    cn <= 0xffff_ffff_ffff_fffe,
                    d <= 255,
            ;
        }
        let big: u128 = ((cn as u128) + 11) * ((d as u128) + 13) + ((d ^ cp) as u128);
        cn = (big % 0xffff_ffff_ffff_ffffu128) as u64;
        cp = d;
        proof {
            assert(data@.take(i as int + 1).drop_last() =~= data@.take(i as int));
            assert(data@.take(i as int + 1).last() == data@[i as int]);
        }
        i = i + 1;
    }
    proof {
        assert(data@.take(data@.len() as int) =~= data@);
    }
    (cn, cp)
}

/// The seeded hash of a byte sequence: deterministic, sensitive to byte
/// content and byte order.
pub fn hash(seed: u64, data: &[u8]) -> (r: u64)
    ensures
        r == hash_spec(seed, data@),
{
    let mut sb: Vec<u8> = Vec::new();
    crate::codec::Blob::write_u64(&mut sb, seed);
    let st = mix_bytes(0, 0, sb.as_slice());
    let r = mix_bytes(st.0, st.1, data);
    proof {
        lemma_mix_append((0, 0), u64_le_bytes(seed), data@);
    }
    r.0
}

} // verus!
