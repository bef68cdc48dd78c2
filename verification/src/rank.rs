//! Ranking of counted masks by occurrence density.
//!
//! Every mask whose exact keyspace size stays within the ceiling becomes a
//! record, and the records are ordered by descending cost, where the cost of
//! a record is the ratio count / size.  The comparison is carried out in
//! exact integer arithmetic on cross products, so no precision is lost even
//! for keyspaces far beyond what a double could represent.

use vstd::prelude::*;
use vstd::multiset::Multiset;

use crate::counts::MaskCounts;
use crate::mask::compute_mask_size;
use crate::mask::lemma_mask_size_pos;
use crate::mask::mask_size_of;
use crate::mask::valid_mask;

verus! {

/// A surviving mask together with its exact keyspace size and its
/// occurrence count.  The cost of the record is the ratio count / size,
/// represented exactly by the two integers rather than by a float.
#[derive(Debug)]
pub struct ComputedMask {
    pub mask: String,
    pub size: usize,
    pub count: usize,
}

/// The mathematical content of a `ComputedMask`.
pub ghost struct MaskRec {
    pub mask: Seq<char>,
    pub size: nat,
    pub count: nat,
}

impl View for ComputedMask {
    type V = MaskRec;

    open spec fn view(&self) -> MaskRec {
        MaskRec { mask: self.mask@, size: self.size as nat, count: self.count as nat }
    }
}

/// The cost of `a` is at least the cost of `b`: count_a / size_a >=
/// count_b / size_b, stated as a cross product so that it is exact.
pub open spec fn cost_ge(a: MaskRec, b: MaskRec) -> bool {
    a.count * b.size >= b.count * a.size
}

/// Descending cost order, with the order among exact cost ties left open.
pub open spec fn sorted_by_cost(s: Seq<MaskRec>) -> bool {
    forall|i: int, j: int| 0 <= i < j < s.len() ==> cost_ge(#[trigger] s[i], #[trigger] s[j])
}

pub proof fn lemma_cost_ge_total(a: MaskRec, b: MaskRec)
    ensures
        cost_ge(a, b) || cost_ge(b, a),
{
}

pub proof fn lemma_cost_ge_trans(a: MaskRec, b: MaskRec, c: MaskRec)
    by (nonlinear_arith)
    requires
        b.size >= 1,
        cost_ge(a, b),
        cost_ge(b, c),
    ensures
        cost_ge(a, c),
{
}

/// The views of the elements of a vector of records.
pub open spec fn recs_of(v: Seq<ComputedMask>) -> Seq<MaskRec> {
    v.map_values(|c: ComputedMask| c@)
}

/// The records that survive the ceiling, in the enumeration order of the
/// count mapping: one record per mask whose exact size stays within
/// `ceiling`, carrying that size and the mask's occurrence count.
pub open spec fn surviving_recs(entries: Seq<(Seq<char>, nat)>, ceiling: nat) -> Seq<MaskRec>
    decreases entries.len(),
{
    if entries.len() == 0 {
        Seq::empty()
    } else {
        let rest = surviving_recs(entries.drop_last(), ceiling);
        let e = entries.last();
        if mask_size_of(e.0) <= ceiling {
            rest.push(MaskRec { mask: e.0, size: mask_size_of(e.0), count: e.1 })
        } else {
            rest
        }
    }
}

/// Two rankings of the same count mapping under the same ceiling hold the
/// same records: the outcome is one multiset, whatever order ties take.
pub proof fn lemma_rank_deterministic(
    r1: Seq<MaskRec>,
    r2: Seq<MaskRec>,
    entries: Seq<(Seq<char>, nat)>,
    ceiling: nat,
)
    requires
        r1.to_multiset() == surviving_recs(entries, ceiling).to_multiset(),
        r2.to_multiset() == surviving_recs(entries, ceiling).to_multiset(),
    ensures
        r1.to_multiset() == r2.to_multiset(),
{
}

/// True when the cost of `a` is at least the cost of `b`, decided on exact
/// cross products widened to 128 bits so the multiplication cannot overflow.
fn cost_ge_exec(a: &ComputedMask, b: &ComputedMask) -> (r: bool)
    ensures
        r == cost_ge(a@, b@),
{
    proof {
        assert((a.count as int) * (b.size as int) <= u128::MAX && (b.count as int) * (a.size as int)
            <= u128::MAX) by (nonlinear_arith)
            requires
                0 <= a.count as int <= u64::MAX,
                0 <= b.count as int <= u64::MAX,
                0 <= a.size as int <= u64::MAX,
                0 <= b.size as int <= u64::MAX,
        ;
    }
    let lhs = (a.count as u128) * (b.size as u128);
    let rhs = (b.count as u128) * (a.size as u128);
    lhs >= rhs
}

/// Builds the ranked sequence: every mask of the counting whose exact size
/// stays within `maximum_size`, as a record, in descending cost order.
pub fn sort_masks(masks_counts: &MaskCounts, maximum_size: usize) -> (r: Vec<ComputedMask>)
    requires
        masks_counts.wf(),
    ensures
        recs_of(r@).to_multiset() == surviving_recs(masks_counts@, maximum_size as nat)
            .to_multiset(),
        sorted_by_cost(recs_of(r@)),
        forall|i: int| 0 <= i < r@.len() ==> (#[trigger] r@[i])@.size >= 1,
{
    let n = masks_counts.entries.len();
    let mut survivors: Vec<ComputedMask> = Vec::new();
    proof {
        assert(masks_counts@.take(0) =~= Seq::<(Seq<char>, nat)>::empty());
        assert(recs_of(survivors@) =~= Seq::<MaskRec>::empty());
    }
    let mut i: usize = 0;
    #[verifier::loop_isolation(false)]
    while i < n
        invariant
            i <= n,
            recs_of(survivors@) =~= surviving_recs(masks_counts@.take(i as int), maximum_size as nat),
            forall|k: int| 0 <= k < survivors@.len() ==> (#[trigger] survivors@[k])@.size >= 1,
        decreases n - i,
    {
        let entry = &masks_counts.entries[i];
        let mask_count = entry.1;
        proof {
            assert(masks_counts@[i as int].0 == entry.0@);
            assert(masks_counts@.take(i + 1).drop_last() =~= masks_counts@.take(i as int));
        }
        match compute_mask_size(entry.0.as_str(), maximum_size) {
            Some(mask_size) => {
                proof {
                    lemma_mask_size_pos(entry.0@);
                }
                let rec = ComputedMask { mask: entry.0.clone(), size: mask_size, count: mask_count };
                survivors.push(rec);
                proof {
                    assert(recs_of(survivors@) =~= surviving_recs(
                        masks_counts@.take(i + 1),
                        maximum_size as nat,
                    ));
                }
            },
            None => {
                proof {
                    assert(recs_of(survivors@) =~= surviving_recs(
                        masks_counts@.take(i + 1),
                        maximum_size as nat,
                    ));
                }
            },
        }
        i = i + 1;
    }
    proof {
        assert(masks_counts@.take(n as int) =~= masks_counts@);
    }
    insertion_sort(survivors)
}

/// Sorts records into descending cost order, keeping the multiset of
/// records exactly as it was.
fn insertion_sort(input: Vec<ComputedMask>) -> (r: Vec<ComputedMask>)
    requires
        forall|i: int| 0 <= i < input@.len() ==> (#[trigger] input@[i])@.size >= 1,
    ensures
        recs_of(r@).to_multiset() == recs_of(input@).to_multiset(),
        sorted_by_cost(recs_of(r@)),
        forall|i: int| 0 <= i < r@.len() ==> (#[trigger] r@[i])@.size >= 1,
{
    broadcast use vstd::seq_lib::group_to_multiset_ensures;

    let mut rest = input;
    let mut sorted: Vec<ComputedMask> = Vec::new();
    proof {
        assert(recs_of(sorted@) =~= Seq::<MaskRec>::empty());
    }
    #[verifier::loop_isolation(false)]
    while rest.len() > 0
        invariant
            recs_of(sorted@).to_multiset().add(recs_of(rest@).to_multiset()) == recs_of(input@)
                .to_multiset(),
            sorted_by_cost(recs_of(sorted@)),
            forall|i: int| 0 <= i < sorted@.len() ==> (#[trigger] sorted@[i])@.size >= 1,
            forall|i: int| 0 <= i < rest@.len() ==> (#[trigger] rest@[i])@.size >= 1,
        decreases rest@.len(),
    {
        let ghost rest_pre = rest@;
        let x = rest.pop().unwrap();
        proof {
            assert(rest_pre.drop_last().push(x) =~= rest_pre);
            assert(recs_of(rest_pre.drop_last()).push(x@) =~= recs_of(rest_pre));
            assert(recs_of(rest_pre).to_multiset() == recs_of(rest@).to_multiset().insert(x@));
        }
        let m = sorted.len();
        let mut j: usize = 0;
        #[verifier::loop_isolation(false)]
        while j < m && cost_ge_exec(&sorted[j], &x)
            invariant
                j <= m,
                forall|k: int| 0 <= k < j ==> cost_ge(#[trigger] recs_of(sorted@)[k], x@),
            decreases m - j,
        {
            proof {
                assert(recs_of(sorted@)[j as int] == sorted@[j as int]@);
            }
            j = j + 1;
        }
        proof {
            if j < m {
                let s = recs_of(sorted@);
                assert(s[j as int] == sorted@[j as int]@);
                assert(cost_ge(x@, s[j as int])) by {
                    lemma_cost_ge_total(x@, s[j as int]);
                }
                assert forall|k: int| j <= k < m implies cost_ge(x@, #[trigger] s[k]) by {
                    if k > j {
                        assert(cost_ge(s[j as int], s[k]));
                        lemma_cost_ge_trans(x@, s[j as int], s[k]);
                    }
                }
            }
        }
        let ghost sorted_pre = sorted@;
        sorted.insert(j, x);
        proof {
            assert(sorted@ =~= sorted_pre.insert(j as int, x));
            assert(recs_of(sorted@) =~= recs_of(sorted_pre).insert(j as int, x@));
            vstd::seq_lib::to_multiset_insert(recs_of(sorted_pre), j as int, x@);
            assert forall|a: int, b: int|
                0 <= a < b < sorted@.len() implies cost_ge(
                (#[trigger] recs_of(sorted@)[a]),
                (#[trigger] recs_of(sorted@)[b]),
            ) by {
                let s = recs_of(sorted@);
                let pre = recs_of(sorted_pre);
                if b < j {
                    assert(s[a] == pre[a] && s[b] == pre[b]);
                } else if a > j {
                    assert(s[a] == pre[a - 1] && s[b] == pre[b - 1]);
                } else if a == j && b > j {
                    assert(s[a] == x@ && s[b] == pre[b - 1]);
                } else if b == j {
                    assert(s[a] == pre[a] && s[b] == x@);
                } else {
                    // a < j < b
                    assert(s[a] == pre[a] && s[b] == pre[b - 1]);
                }
            }
            assert(recs_of(sorted@).to_multiset().add(recs_of(rest@).to_multiset())
                =~= recs_of(input@).to_multiset());
        }
    }
    proof {
        assert(recs_of(rest@).to_multiset() =~= Multiset::<MaskRec>::empty());
        assert(recs_of(sorted@).to_multiset() == recs_of(input@).to_multiset());
    }
    sorted
}

} // verus!
