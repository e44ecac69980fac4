//! What the header of a bytecode says, byte by byte.

use vstd::prelude::*;

use crate::bytes::{number, words_are_numbers};
use crate::rose::{
    foreign_machinery, literal_fault, nfa_start, outfix_fault, RoseEngine, RoseError,
};

verus! {

/// The number in the four bytes at `off`.
pub open spec fn word(bc: Seq<u8>, off: int) -> nat {
    number(bc, off, 4)
}

/// A scan for literals takes exactly the bytecodes that hold a whole header,
/// are in block mode, have a runtime that needs no more than literals, and
/// have none of the parts that such a scan cannot run: an anchored matcher, an
/// end-of-data matcher, a table of long literals, NFAs, a program for the end
/// of data, anchored literals.
pub proof fn literal_bytecodes_are_taken(bc: Seq<u8>)
    ensures
        literal_fault(bc) is None <==> {
            &&& bc.len() >= 404
            &&& word(bc, 12) == 1
            &&& bc[4] == 0 || bc[4] == 1
            &&& word(bc, 88) == 0
            &&& word(bc, 92) == 0
            &&& word(bc, 108) == 0
            &&& word(bc, 148) == 0
            &&& word(bc, 156) == 0
            &&& word(bc, 184) == 0
            &&& word(bc, 268) == 0
        },
{
    words_are_numbers(bc, 12);
    words_are_numbers(bc, 88);
    words_are_numbers(bc, 92);
    words_are_numbers(bc, 108);
    words_are_numbers(bc, 148);
    words_are_numbers(bc, 156);
    words_are_numbers(bc, 184);
    words_are_numbers(bc, 268);
}

/// A scan for literals and outfixes takes exactly the bytecodes that hold a
/// whole header, are in block mode, have a runtime of that kind, have no
/// anchored matcher, end-of-data matcher, table of long literals, program for
/// the end of data, anchored or delayed literals, and whose NFA queues, if
/// there are any, reach at least to the end of the outfixes.
pub proof fn outfix_bytecodes_are_taken(bc: Seq<u8>)
    ensures
        outfix_fault(bc) is None <==> {
            &&& bc.len() >= 404
            &&& word(bc, 12) == 1
            &&& bc[4] == 0 || bc[4] == 2
            &&& word(bc, 88) == 0
            &&& word(bc, 92) == 0
            &&& word(bc, 108) == 0
            &&& word(bc, 184) == 0
            &&& word(bc, 268) == 0
            &&& word(bc, 260) == 0
            &&& word(bc, 156) == 0 || word(bc, 400) <= word(bc, 156)
        },
{
    words_are_numbers(bc, 12);
    words_are_numbers(bc, 88);
    words_are_numbers(bc, 92);
    words_are_numbers(bc, 108);
    words_are_numbers(bc, 156);
    words_are_numbers(bc, 184);
    words_are_numbers(bc, 260);
    words_are_numbers(bc, 268);
    words_are_numbers(bc, 400);
}

/// A bytecode that a scan for literals does not take is refused for what is
/// wrong with it: for its length before its mode, for its mode before its
/// runtime, and for its parts last.
pub proof fn refusals_name_their_reason(bc: Seq<u8>)
    ensures
        bc.len() < 404 ==> literal_fault(bc) == Some(RoseError::Truncated) && outfix_fault(bc)
            == Some(RoseError::Truncated),
        bc.len() >= 404 && word(bc, 12) != 1 ==> literal_fault(bc) == Some(
            RoseError::NotBlockMode(word(bc, 12) as u32),
        ) && outfix_fault(bc) == Some(RoseError::NotBlockMode(word(bc, 12) as u32)),
        bc.len() >= 404 && word(bc, 12) == 1 && bc[4] > 1 ==> literal_fault(bc) == Some(
            RoseError::UnsupportedRuntime(bc[4]),
        ),
        bc.len() >= 404 && word(bc, 12) == 1 && bc[4] != 0 && bc[4] != 2 ==> outfix_fault(bc)
            == Some(RoseError::UnsupportedRuntime(bc[4])),
        bc.len() >= 404 && word(bc, 12) == 1 && bc[4] <= 1 && literal_fault(bc) is Some
            ==> literal_fault(bc)->0 is NeedsFullRose,
        ({
            let what = foreign_machinery(bc);
            &&& what == Some("anchored-matcher") <==> word(bc, 88) != 0
            &&& what == Some("eod-matcher") ==> word(bc, 92) != 0
            &&& what == Some("long-literal-table") ==> word(bc, 108) != 0
            &&& what == Some("nfa-active-array") ==> word(bc, 148) != 0
            &&& what == Some("nfa-queues") ==> word(bc, 156) != 0
            &&& what == Some("eod-program") ==> word(bc, 184) != 0
            &&& what == Some("anchored-literals") ==> word(bc, 268) != 0
        }),
{
    words_are_numbers(bc, 12);
    words_are_numbers(bc, 88);
    words_are_numbers(bc, 92);
    words_are_numbers(bc, 108);
    words_are_numbers(bc, 148);
    words_are_numbers(bc, 156);
    words_are_numbers(bc, 184);
    words_are_numbers(bc, 268);
    reveal_strlit("anchored-matcher");
    reveal_strlit("eod-matcher");
    reveal_strlit("long-literal-table");
    reveal_strlit("nfa-active-array");
    reveal_strlit("nfa-queues");
    reveal_strlit("eod-program");
    reveal_strlit("anchored-literals");
    assert("eod-matcher"@[4] != "eod-program"@[4]);
}

/// Where each field of the header stands.
pub proof fn header_fields_are_numbers(rose: &RoseEngine, bc: Seq<u8>)
    requires
        rose.reads(bc),
    ensures
        rose.pure_literal == bc[0],
        rose.runtime_impl == bc[4],
        rose.mode == word(bc, 12),
        rose.small_write_offset == word(bc, 84),
        rose.fmatcher_offset == word(bc, 96),
        rose.delay_program_offset == word(bc, 140),
        rose.floating_min_lit_match_offset == word(bc, 232),
        rose.nfa_info_offset == word(bc, 236),
        rose.initial_groups == number(bc, 240, 8),
        rose.floating_group_mask == number(bc, 248, 8),
        rose.size == word(bc, 256),
        rose.delay_count == word(bc, 260),
        rose.total_num_literals == word(bc, 388),
        rose.outfix_begin_queue == word(bc, 396),
        rose.outfix_end_queue == word(bc, 400),
{
    words_are_numbers(bc, 12);
    words_are_numbers(bc, 84);
    words_are_numbers(bc, 96);
    words_are_numbers(bc, 140);
    words_are_numbers(bc, 232);
    words_are_numbers(bc, 236);
    words_are_numbers(bc, 240);
    words_are_numbers(bc, 248);
    words_are_numbers(bc, 256);
    words_are_numbers(bc, 260);
    words_are_numbers(bc, 388);
    words_are_numbers(bc, 396);
    words_are_numbers(bc, 400);
}

/// Delayed literal `x` has its program where the entry `x` of a table says,
/// and has none exactly where that entry is not in the bytecode.
pub proof fn delayed_literals_have_programs(rose: &RoseEngine, bc: Seq<u8>, x: u32)
    requires
        rose.reads(bc),
    ensures
        rose.delayed_program(x) is Ok <==> word(bc, 140) + 4 * x + 4 <= bc.len(),
        rose.delayed_program(x) is Ok ==> rose.delayed_program(x)->Ok_0 == word(
            bc,
            word(bc, 140) + 4 * x,
        ),
{
    words_are_numbers(bc, 140);
    words_are_numbers(bc, word(bc, 140) + 4 * x);
}

/// The NFA of queue `q` starts where the record of the queue, one of twenty
/// bytes each, says.
pub proof fn queues_have_nfas(rose: &RoseEngine, bc: Seq<u8>, q: u32)
    requires
        rose.reads(bc),
    ensures
        ({
            let info = word(bc, 236) + 20 * q;
            let r = nfa_start(bc, rose.nfa_info_offset, q);
            &&& r is Ok <==> info + 4 <= bc.len() && word(bc, info) <= bc.len()
            &&& r is Ok ==> r->Ok_0 == word(bc, info)
        }),
{
    words_are_numbers(bc, 236);
    words_are_numbers(bc, word(bc, 236) + 20 * q);
}

/// The table of the floating matcher is all that stands 256 bytes or more
/// behind the offset that the header gives for the matcher; its first byte is
/// its type, and an FDR table is one of type 12.
pub proof fn floating_table_follows_its_header(rose: &RoseEngine, bc: Seq<u8>)
    requires
        rose.reads(bc),
    ensures
        ({
            let at = word(bc, 96) as int;
            &&& rose.hwlm_type() is Ok <==> 0 < at < bc.len()
            &&& rose.hwlm_type() is Ok ==> rose.hwlm_type()->Ok_0 == bc[at]
            &&& rose.matcher_table() is Ok <==> 0 < at && at + 256 <= bc.len()
            &&& rose.fdr_table() is Ok <==> 0 < at && at + 256 <= bc.len() && bc[at] == 12
            &&& at == 0 ==> rose.hwlm_type() == Err::<u8, RoseError>(RoseError::NoFloatingMatcher)
            &&& 0 < at < bc.len() && bc[at] != 12 ==> rose.fdr_table() == Err::<Seq<u8>, RoseError>(
                RoseError::NotFdr(bc[at]),
            )
        }),
        forall|i: int|
            #![trigger rose.matcher_table()->Ok_0[i]]
            rose.matcher_table() is Ok && 0 <= i < bc.len() - word(bc, 96) - 256
                ==> rose.matcher_table()->Ok_0[i] == bc[word(bc, 96) + 256 + i],
        rose.matcher_table() is Ok ==> rose.matcher_table()->Ok_0.len() == bc.len() - word(bc, 96)
            - 256,
        rose.fdr_table() is Ok ==> rose.fdr_table() == rose.matcher_table(),
{
    words_are_numbers(bc, 96);
}

} // verus!
