//! Choosing an id that is not in use: a randomly drawn version-4 UUID is kept
//! unless it is already taken, in which case the first free one of a fixed
//! numbered family of version-4 UUIDs is taken instead. Some member of the
//! family is always free, since there are more members than ids in use.

use vstd::prelude::*;
use crate::infra::is_v4;

verus! {

/// Member `k` of the numbered family: the version field reads 4, the variant
/// field reads binary 10, and `k` (below 2^64) fills bits 0 to 61 and 64 to
/// 65.
pub open spec fn numbered_v4(k: u128) -> u128 {
    0x0000_0000_0000_4000_8000_0000_0000_0000u128 | ((k >> 62u128) << 64u128) | (k & 0x3fff_ffff_ffff_ffffu128)
}

proof fn lemma_numbered_v4_bits(k: u128)
    requires
        k >> 64u128 == 0,
    ensures
        (numbered_v4(k) >> 76u128) & 0xfu128 == 4,
        (numbered_v4(k) >> 62u128) & 0x3u128 == 2,
{
    assert((((0x0000_0000_0000_4000_8000_0000_0000_0000u128 | ((k >> 62u128) << 64u128) | (k
        & 0x3fff_ffff_ffff_ffffu128)) >> 76u128) & 0xfu128 == 4) && (((0x0000_0000_0000_4000_8000_0000_0000_0000u128
        | ((k >> 62u128) << 64u128) | (k & 0x3fff_ffff_ffff_ffffu128)) >> 62u128) & 0x3u128 == 2)) by (bit_vector)
        requires
            k >> 64u128 == 0,
    ;
}

proof fn lemma_numbered_v4_injective(a: u128, b: u128)
    requires
        a >> 64u128 == 0,
        b >> 64u128 == 0,
        numbered_v4(a) == numbered_v4(b),
    ensures
        a == b,
{
    assert(a == b) by (bit_vector)
        requires
            a >> 64u128 == 0,
            b >> 64u128 == 0,
            0x0000_0000_0000_4000_8000_0000_0000_0000u128 | ((a >> 62u128) << 64u128) | (a & 0x3fff_ffff_ffff_ffffu128)
                == 0x0000_0000_0000_4000_8000_0000_0000_0000u128 | ((b >> 62u128) << 64u128) | (b
                & 0x3fff_ffff_ffff_ffffu128),
    ;
}

/// When the first `n` members of the family are all in `used`, `used` holds
/// at least `n` items.
proof fn lemma_family_fits(used: Seq<u128>, n: nat)
    requires
        n <= 0x1_0000_0000_0000_0000,
        forall|j: int| 0 <= j < n ==> used.contains(#[trigger] numbered_v4(j as u128)),
    ensures
        n <= used.len(),
{
    let cs = Seq::new(n, |j: int| numbered_v4(j as u128));
    assert forall|i: int, j: int| 0 <= i < cs.len() && 0 <= j < cs.len() && i != j implies cs[i] != cs[j] by {
        if cs[i] == cs[j] {
            let iu: u128 = i as u128;
            let ju: u128 = j as u128;
            assert(iu >> 64u128 == 0 && ju >> 64u128 == 0) by (bit_vector)
                requires
                    iu <= 0xffff_ffff_ffff_ffffu128,
                    ju <= 0xffff_ffff_ffff_ffffu128,
            ;
            lemma_numbered_v4_injective(iu, ju);
        }
    }
    cs.unique_seq_to_set();
    assert forall|x: u128| cs.to_set().contains(x) implies used.to_set().contains(x) by {
        let j = choose|j: int| 0 <= j < cs.len() && cs[j] == x;
        assert(used.contains(numbered_v4(j as u128)));
    }
    vstd::seq_lib::seq_to_set_is_finite(used);
    vstd::set_lib::lemma_len_subset(cs.to_set(), used.to_set());
    used.lemma_cardinality_of_set();
}

/// Whether `v` holds `x`.
fn holds_value(v: &Vec<u128>, x: u128) -> (r: bool)
    ensures
        r == v@.contains(x),
{
    let n = v.len();
    let mut i: usize = 0;
    while i < n
        invariant
            n == v@.len(),
            i <= n,
            forall|k: int| 0 <= k < i ==> v@[k] != x,
        decreases n - i,
    {
        if v[i] == x {
            return true;
        }
        i = i + 1;
    }
    false
}

/// An id that `used` does not hold: `drawn` itself when it is free, else the
/// first free member of the numbered family. Either way a version-4 UUID.
pub fn fresh_id(used: &Vec<u128>, drawn: u128) -> (r: u128)
    requires
        is_v4(drawn),
    ensures
        is_v4(r),
        !used@.contains(r),
        !used@.contains(drawn) ==> r == drawn,
{
    if !holds_value(used, drawn) {
        return drawn;
    }
    let n: usize = used.len();
    let mut k: usize = 0;
    loop
        invariant
            n == used@.len(),
            used@.contains(drawn),
            k <= used@.len(),
            forall|j: int| 0 <= j < k ==> used@.contains(#[trigger] numbered_v4(j as u128)),
        decreases used@.len() - k,
    {
        let kk: u128 = k as u128;
        let c: u128 = 0x0000_0000_0000_4000_8000_0000_0000_0000u128 | ((kk >> 62u128) << 64u128) | (kk
            & 0x3fff_ffff_ffff_ffffu128);
        assert(c == numbered_v4(k as u128));
        if !holds_value(used, c) {
            proof {
                assert(kk >> 64u128 == 0) by (bit_vector)
                    requires
                        kk <= 0xffff_ffff_ffff_ffffu128,
                ;
                lemma_numbered_v4_bits(kk);
            }
            return c;
        }
        proof {
            lemma_family_fits(used@, (k + 1) as nat);
        }
        k = k + 1;
    }
}

} // verus!
