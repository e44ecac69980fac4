//! Which engine tables are taken, byte by byte.

use vstd::arithmetic::power2::pow2;
use vstd::bits::{lemma_u64_pow2_no_overflow, lemma_u64_shl_is_mul};
use vstd::prelude::*;

use crate::bytes::{number, words_are_numbers};
use crate::hwlm::confirm::{
    bucket_ok, bucket_slot_ok, bucket_start, chain_count, chain_ok, chain_slot_ok, chain_start,
    confirm_ok, hash_bits,
};
use crate::hwlm::fdr::{body_fault, domain_mask_of, domain_of, fdr_fault};
use crate::hwlm::noodle::nood_fault;
use crate::hwlm::teddy::{masks_of, teddy_body_fault, teddy_fault};

verus! {

/// Record `n` of a chain that starts at `li` is the last one: all records up
/// to it are inside the table, and it is the first that does not go on.
pub open spec fn ends_with(b: Seq<u8>, li: int, n: int) -> bool {
    &&& 0 <= n
    &&& li + 32 * n + 32 <= b.len()
    &&& b[li + 32 * n + 30] == 0
    &&& forall|i: int| 0 <= i < n ==> b[#[trigger] (li + 32 * i) + 30] != 0
}

/// A chain has an end inside the table.
pub open spec fn has_end(b: Seq<u8>, li: int) -> bool {
    exists|n: int| #[trigger] ends_with(b, li, n)
}

proof fn lemma_chain_ends(b: Seq<u8>, li: int)
    requires
        0 <= li,
    ensures
        chain_ok(b, li) <==> has_end(b, li),
    decreases b.len() - li,
{
    if li + 32 <= b.len() {
        lemma_chain_ends(b, li + 32);
        if b[li + 30] == 0 {
            assert(ends_with(b, li, 0));
        } else {
            if has_end(b, li + 32) {
                let n = choose|n: int| #[trigger] ends_with(b, li + 32, n);
                assert forall|i: int| 0 <= i < n + 1 implies b[#[trigger] (li + 32 * i) + 30] != 0 by {
                    if i > 0 {
                        assert(b[((li + 32) + 32 * (i - 1)) + 30] != 0);
                    }
                }
                assert(ends_with(b, li, n + 1));
            }
            if has_end(b, li) {
                let n = choose|n: int| #[trigger] ends_with(b, li, n);
                assert forall|i: int| 0 <= i < n - 1 implies b[#[trigger] ((li + 32) + 32 * i) + 30]
                    != 0 by {
                    assert(b[(li + 32 * (i + 1)) + 30] != 0);
                }
                assert(n > 0);
                assert(ends_with(b, li + 32, n - 1));
            }
        }
    } else if has_end(b, li) {
        let n = choose|n: int| #[trigger] ends_with(b, li, n);
        assert(false);
    }
}

/// Chain `c` of the confirm structure at `at` is empty or has an end.
pub open spec fn chain_is_whole(b: Seq<u8>, at: int, c: int) -> bool {
    let start = number(b, at + 32 + 4 * c, 4);
    start == 0 || has_end(b, at + start)
}

/// The confirm structure at `at` is inside the table, with a word for each of
/// its chains and all their records. One without a hash, or with a hash of 64
/// bits and more, has no chains.
pub open spec fn confirm_is_whole(b: Seq<u8>, at: int) -> bool {
    let bits = number(b, at + 16, 4);
    &&& at + 32 <= b.len()
    &&& 0 < bits < 64 ==> {
        &&& at + 32 + 4 * pow2(bits) <= b.len()
        &&& forall|c: int| 0 <= c < pow2(bits) ==> #[trigger] chain_is_whole(b, at, c)
    }
}

/// Bucket `k` is empty or has a whole confirm structure.
pub open spec fn bucket_is_whole(b: Seq<u8>, conf: int, k: int) -> bool {
    let start = number(b, conf + 4 * k, 4);
    start == 0 || confirm_is_whole(b, conf + start)
}

/// Each of the eight buckets is empty or has a whole confirm structure.
pub open spec fn buckets_are_whole(b: Seq<u8>, conf: int) -> bool {
    forall|k: int| 0 <= k < 8 ==> #[trigger] bucket_is_whole(b, conf, k)
}

proof fn lemma_shift(n: u64)
    requires
        n < 64,
    ensures
        (1u64 << n) == pow2(n as nat),
{
    lemma_u64_pow2_no_overflow(n as nat);
    lemma_u64_shl_is_mul(1, n);
}

proof fn lemma_confirm(b: Seq<u8>, at: int)
    requires
        0 <= at,
    ensures
        bucket_ok(b, at) <==> confirm_is_whole(b, at),
{
    words_are_numbers(b, at + 16);
    let bits = number(b, at + 16, 4);
    if at + 32 <= b.len() && 0 < bits < 64 {
        lemma_shift(bits as u64);
        assert(chain_count(b, at) == pow2(bits));
        assert forall|c: int| 0 <= c < pow2(bits) implies #[trigger] chain_slot_ok(b, at, c)
            == chain_is_whole(b, at, c) by {
            words_are_numbers(b, at + 32 + 4 * c);
            lemma_chain_ends(b, at + chain_start(b, at, c));
        }
        if forall|c: int| 0 <= c < pow2(bits) ==> #[trigger] chain_is_whole(b, at, c) {
            assert forall|c: int| 0 <= c < chain_count(b, at) implies #[trigger] chain_slot_ok(
                b,
                at,
                c,
            ) by {
                assert(chain_is_whole(b, at, c));
            }
        }
        if forall|c: int| 0 <= c < pow2(bits) ==> #[trigger] chain_slot_ok(b, at, c) {
            assert forall|c: int| 0 <= c < pow2(bits) implies #[trigger] chain_is_whole(b, at, c) by {
                assert(chain_slot_ok(b, at, c));
            }
        }
    }
}

proof fn lemma_buckets(b: Seq<u8>, conf: int)
    requires
        0 <= conf,
        conf + 32 <= b.len(),
    ensures
        confirm_ok(b, conf) <==> buckets_are_whole(b, conf),
{
    assert forall|k: int| 0 <= k < 8 implies #[trigger] bucket_slot_ok(b, conf, k)
        == bucket_is_whole(b, conf, k) by {
        words_are_numbers(b, conf + 4 * k);
        lemma_confirm(b, conf + bucket_start(b, conf, k));
    }
    if buckets_are_whole(b, conf) {
        assert forall|k: int| 0 <= k < 8 implies #[trigger] bucket_slot_ok(b, conf, k) by {
            assert(bucket_is_whole(b, conf, k));
        }
    }
    if confirm_ok(b, conf) {
        assert forall|k: int| 0 <= k < 8 implies #[trigger] bucket_is_whole(b, conf, k) by {
            assert(bucket_slot_ok(b, conf, k));
        }
    }
}

/// An FDR table is taken exactly if its stride is one of three, its hash has 9
/// to 15 bits and a mask that fits them, its parts follow each other and fit
/// into it, and each bucket has a whole confirm structure or none.
pub proof fn fdr_tables_are_taken(b: Seq<u8>)
    ensures
        body_fault(b) is None <==> {
            let conf = number(b, 16, 4) as int;
            let flood = number(b, 20, 4) as int;
            &&& b.len() >= 48
            &&& b[24] == 1 || b[24] == 2 || b[24] == 4
            &&& 9 <= b[25] <= 15
            &&& number(b, 26, 2) + 1 == pow2(b[25] as nat)
            &&& 64 + 8 * pow2(b[25] as nat) <= conf
            &&& conf + 32 <= flood
            &&& flood + 1024 + 208 <= b.len()
            &&& buckets_are_whole(b, conf)
        },
{
    words_are_numbers(b, 16);
    words_are_numbers(b, 20);
    words_are_numbers(b, 26);
    if domain_of(b) < 64 {
        lemma_shift(domain_of(b) as u64);
    }
    if crate::hwlm::fdr::conf_of(b) + 32 <= b.len() {
        lemma_buckets(b, crate::hwlm::fdr::conf_of(b));
    }
}

/// A Teddy table is taken exactly if its tables of nibbles and its confirm
/// structures are inside it, and the latter are whole. It has one table of
/// nibbles for engines 11 and 12, and one more for each two engines further.
pub proof fn teddy_tables_are_taken(b: Seq<u8>)
    requires
        11 <= number(b, 0, 4) <= 18,
    ensures
        masks_of(b) == 1 <==> number(b, 0, 4) <= 12,
        masks_of(b) == 2 <==> 13 <= number(b, 0, 4) <= 14,
        masks_of(b) == 3 <==> 15 <= number(b, 0, 4) <= 16,
        masks_of(b) == 4 <==> 17 <= number(b, 0, 4),
        teddy_body_fault(b) is None <==> {
            let conf = number(b, 16, 4) as int;
            &&& b.len() >= 20
            &&& 64 + 32 * masks_of(b) <= conf
            &&& conf + 32 <= b.len()
            &&& buckets_are_whole(b, conf)
        },
{
    words_are_numbers(b, 0);
    words_are_numbers(b, 16);
    let conf = crate::hwlm::teddy::teddy_conf_of(b);
    if conf + 32 <= b.len() {
        lemma_buckets(b, conf);
    }
}

/// A table is as long as its header says. Bytes behind it do not matter, and
/// one that is longer than the bytes there are is not taken.
pub proof fn tables_are_cut_to_size(bytes: Seq<u8>)
    ensures
        fdr_fault(bytes) is None <==> {
            &&& bytes.len() >= 64
            &&& number(bytes, 0, 4) == 0
            &&& number(bytes, 4, 4) <= bytes.len()
            &&& body_fault(bytes.take(number(bytes, 4, 4) as int)) is None
        },
        teddy_fault(bytes) is None <==> {
            &&& bytes.len() >= 8
            &&& 11 <= number(bytes, 0, 4) <= 18
            &&& number(bytes, 4, 4) <= bytes.len()
            &&& teddy_body_fault(bytes.take(number(bytes, 4, 4) as int)) is None
        },
{
    words_are_numbers(bytes, 0);
    words_are_numbers(bytes, 4);
}

/// A noodle table is taken exactly if its mask covers one to eight bytes and
/// its key lies under the mask: the last byte if it is one, two bytes further
/// in front if they are two.
pub proof fn noodle_tables_are_taken(b: Seq<u8>)
    ensures
        nood_fault(b) is None <==> {
            &&& b.len() >= 32
            &&& 1 <= b[24] <= 8
            &&& b[27] != 0 ==> b[25] == 1
            &&& b[27] == 0 ==> 2 <= b[25] <= b[24] + 1
        },
{
}

} // verus!
