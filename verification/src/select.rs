//! Greedy budget-constrained selection of ranked masks.
//!
//! The ranked sequence is walked once, in order.  A candidate is taken when
//! its size still fits into the remaining budget, and skipped otherwise; a
//! later, smaller mask may still fit after a larger one was skipped.  This
//! first-fit-by-cost pass deliberately trades optimal packing for a single
//! linear walk over an already cost-sorted sequence.

use vstd::prelude::*;

use crate::counts::MaskCounts;
use crate::counts::ReadError;
use crate::counts::all_ok;
use crate::counts::generate_masks_from_bufreader;
use crate::counts::words_of;
use crate::rank::ComputedMask;
use crate::rank::MaskRec;
use crate::rank::recs_of;
use crate::rank::sort_masks;
use crate::rank::sorted_by_cost;
use crate::rank::surviving_recs;

verus! {

/// The greedy selection: the subsequence of `ranked` a first-fit walk takes,
/// together with the total size it consumes.
pub open spec fn select_spec(ranked: Seq<MaskRec>, budget: nat) -> (Seq<MaskRec>, nat)
    decreases ranked.len(),
{
    if ranked.len() == 0 {
        (Seq::empty(), 0nat)
    } else {
        let prior = select_spec(ranked.drop_last(), budget);
        let e = ranked.last();
        if prior.1 + e.size <= budget {
            (prior.0.push(e), prior.1 + e.size)
        } else {
            prior
        }
    }
}

/// The cumulative size of a greedy selection never exceeds the budget, for
/// any budget, including a budget of zero.
pub proof fn lemma_select_within_budget(ranked: Seq<MaskRec>, budget: nat)
    ensures
        select_spec(ranked, budget).1 <= budget,
    decreases ranked.len(),
{
    if ranked.len() > 0 {
        lemma_select_within_budget(ranked.drop_last(), budget);
    }
}

/// Walks the ranked sequence once and keeps every record that still fits
/// into the budget.  Returns the selection, in ranked order, and the total
/// size it consumes, which never exceeds the budget.
pub fn select_masks(ranked: &Vec<ComputedMask>, budget: usize) -> (r: (Vec<ComputedMask>, usize))
    ensures
        recs_of(r.0@) == select_spec(recs_of(ranked@), budget as nat).0,
        r.1 as nat == select_spec(recs_of(ranked@), budget as nat).1,
        r.1 <= budget,
{
    let ghost all = recs_of(ranked@);
    let mut selected: Vec<ComputedMask> = Vec::new();
    let mut used: usize = 0;
    let n = ranked.len();
    proof {
        assert(all.take(0) =~= Seq::<MaskRec>::empty());
        assert(recs_of(selected@) =~= Seq::<MaskRec>::empty());
    }
    let mut i: usize = 0;
    #[verifier::loop_isolation(false)]
    while i < n
        invariant
            i <= n,
            used <= budget,
            recs_of(selected@) == select_spec(all.take(i as int), budget as nat).0,
            used as nat == select_spec(all.take(i as int), budget as nat).1,
        decreases n - i,
    {
        let candidate = &ranked[i];
        proof {
            assert(all.take(i + 1).drop_last() =~= all.take(i as int));
            assert(all.take(i + 1).last() == candidate@);
        }
        if candidate.size <= budget - used {
            let taken = ComputedMask {
                mask: candidate.mask.clone(),
                size: candidate.size,
                count: candidate.count,
            };
            proof {
                assert(taken@ == candidate@);
            }
            selected.push(taken);
            used = used + candidate.size;
            proof {
                assert(recs_of(selected@) =~= select_spec(all.take(i + 1), budget as nat).0);
            }
        }
        i = i + 1;
    }
    proof {
        assert(all.take(n as int) =~= all);
    }
    (selected, used)
}

/// Runs the whole pipeline on the lines of a word list: classification and
/// counting, ranking under the ceiling, then greedy selection with the same
/// value as the budget.  A failed read is fatal and is returned at once.
pub fn parse_lines(lines: &Vec<Result<String, ReadError>>, maximum_size: usize) -> (r: Result<
    (Vec<ComputedMask>, usize),
    ReadError,
>)
    ensures
        all_ok(lines@) ==> (r matches Ok(out) && out.1 <= maximum_size && exists|
            mc: MaskCounts,
            ranked: Seq<MaskRec>,
        |
            #![trigger mc.wf(), sorted_by_cost(ranked)]
            {
                &&& mc.wf()
                &&& mc.counts_words(words_of(lines@))
                &&& ranked.to_multiset() == surviving_recs(mc@, maximum_size as nat).to_multiset()
                &&& sorted_by_cost(ranked)
                &&& recs_of(out.0@) == select_spec(ranked, maximum_size as nat).0
                &&& out.1 as nat == select_spec(ranked, maximum_size as nat).1
            }),
        !all_ok(lines@) ==> (r matches Err(e) && exists|j: int|
            #![auto]
            {
                &&& 0 <= j < lines@.len()
                &&& lines@[j] is Err
                &&& (forall|k: int| 0 <= k < j ==> (#[trigger] lines@[k]) is Ok)
                &&& e == lines@[j]->Err_0
            }),
{
    let mask_map = match generate_masks_from_bufreader(lines) {
        Ok(mask_map) => mask_map,
        Err(e) => {
            return Err(e);
        },
    };
    let ranked = sort_masks(&mask_map, maximum_size);
    let (selected, used_space) = select_masks(&ranked, maximum_size);
    proof {
        assert(mask_map.wf() && mask_map.counts_words(words_of(lines@)) && recs_of(ranked@)
            .to_multiset() == surviving_recs(mask_map@, maximum_size as nat).to_multiset()
            && sorted_by_cost(recs_of(ranked@)));
    }
    Ok((selected, used_space))
}

} // verus!
