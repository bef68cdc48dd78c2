//! Aggregation of classified words into per-mask occurrence counts.

use vstd::prelude::*;

use crate::mask::generate_mask;
use crate::mask::lemma_mask_of_valid;
use crate::mask::mask_of;
use crate::mask::valid_mask;
use crate::mask::valid_word;

verus! {

/// The line source itself failed: a fatal condition, propagated immediately,
/// as opposed to a classification failure, which only skips one word.
#[derive(Debug)]
pub struct ReadError {
    pub message: String,
}

/// A word is counted toward mask `m` when it classifies successfully to `m`
/// and is not empty (empty words contribute no signal and are excluded).
pub open spec fn counts_toward(w: Seq<char>, m: Seq<char>) -> bool {
    valid_word(w) && w.len() > 0 && mask_of(w) == m
}

/// How many words of `words` are counted toward mask `m`.
pub open spec fn mask_count_in(words: Seq<Seq<char>>, m: Seq<char>) -> nat
    decreases words.len(),
{
    if words.len() == 0 {
        0
    } else {
        mask_count_in(words.drop_last(), m) + if counts_toward(words.last(), m) {
            1nat
        } else {
            0nat
        }
    }
}

pub proof fn lemma_mask_count_push(words: Seq<Seq<char>>, w: Seq<char>, m: Seq<char>)
    ensures
        mask_count_in(words.push(w), m) == mask_count_in(words, m) + if counts_toward(w, m) {
            1nat
        } else {
            0nat
        },
{
    assert(words.push(w).drop_last() =~= words);
}

pub proof fn lemma_mask_count_le_len(words: Seq<Seq<char>>, m: Seq<char>)
    ensures
        mask_count_in(words, m) <= words.len(),
    decreases words.len(),
{
    if words.len() > 0 {
        lemma_mask_count_le_len(words.drop_last(), m);
    }
}

/// A mapping from mask to occurrence count, with every key a distinct,
/// non-empty, well-formed mask and every count at least one.
#[derive(Debug)]
pub struct MaskCounts {
    pub entries: Vec<(String, usize)>,
}

impl View for MaskCounts {
    type V = Seq<(Seq<char>, nat)>;

    open spec fn view(&self) -> Seq<(Seq<char>, nat)> {
        self.entries@.map_values(|e: (String, usize)| (e.0@, e.1 as nat))
    }
}

impl MaskCounts {
    /// Keys are distinct, non-empty, well-formed masks; counts are positive.
    pub open spec fn wf(self) -> bool {
        &&& (forall|i: int, j: int|
            0 <= i < j < self@.len() ==> #[trigger] self@[i].0 != #[trigger] self@[j].0)
        &&& (forall|i: int|
            0 <= i < self@.len() ==> {
                &&& valid_mask((#[trigger] self@[i]).0)
                &&& self@[i].0.len() > 0
                &&& self@[i].1 >= 1
            })
    }

    pub open spec fn contains_mask(self, m: Seq<char>) -> bool {
        exists|i: int| 0 <= i < self@.len() && (#[trigger] self@[i]).0 == m
    }

    /// The mapping holds exactly the per-mask occurrence counts of `words`.
    pub open spec fn counts_words(self, words: Seq<Seq<char>>) -> bool {
        &&& (forall|i: int|
            0 <= i < self@.len() ==> (#[trigger] self@[i]).1 == mask_count_in(words, self@[i].0))
        &&& (forall|m: Seq<char>| #[trigger] mask_count_in(words, m) > 0 ==> self.contains_mask(m))
    }

    pub fn len(&self) -> (n: usize)
        ensures
            n == self@.len(),
    {
        self.entries.len()
    }

    /// The occurrence count recorded for a mask, or `None` when the mask
    /// never occurred.
    pub fn get(&self, mask: &str) -> (r: Option<usize>)
        ensures
            match r {
                Some(c) => exists|i: int|
                    0 <= i < self@.len() && (#[trigger] self@[i]) == (mask@, c as nat),
                None => !self.contains_mask(mask@),
            },
    {
        let key = mask.to_owned();
        let n = self.entries.len();
        let mut k: usize = 0;
        while k < n
            invariant
                k <= n,
                n == self@.len(),
                key@ == mask@,
                forall|i: int| 0 <= i < k ==> (#[trigger] self@[i]).0 != mask@,
            decreases n - k,
        {
            if self.entries[k].0 == key {
                let c = self.entries[k].1;
                proof {
                    assert(self@[k as int] == (mask@, c as nat));
                }
                return Some(c);
            }
            k = k + 1;
        }
        None
    }

    /// Records one more occurrence of the word `w` (a ghost value), whose
    /// mask is the string `m`.
    fn bump(&mut self, m: String, Ghost(words): Ghost<Seq<Seq<char>>>, Ghost(w): Ghost<Seq<char>>)
        requires
            old(self).wf(),
            old(self).counts_words(words),
            counts_toward(w, m@),
            words.len() < usize::MAX,
        ensures
            final(self).wf(),
            final(self).counts_words(words.push(w)),
    {
        proof {
            lemma_mask_of_valid(w);
        }
        let n = self.entries.len();
        let mut k: usize = 0;
        #[verifier::loop_isolation(false)]
        while k < n
            invariant
                k <= n,
                *self == *old(self),
                forall|i: int| 0 <= i < k ==> (#[trigger] self@[i]).0 != m@,
            decreases n - k,
        {
            if self.entries[k].0 == m {
                let c = self.entries[k].1;
                proof {
                    lemma_mask_count_le_len(words, m@);
                    assert(self@[k as int].0 == m@);
                    assert(c == mask_count_in(words, m@));
                }
                self.entries[k] = (m, c + 1);
                proof {
                    assert(self@ =~= old(self)@.update(k as int, (mask_of(w), (c + 1) as nat)));
                    lemma_counts_after_update(*old(self), *self, words, w, k as int);
                }
                return ;
            }
            k = k + 1;
        }
        proof {
            assert(!old(self).contains_mask(m@));
            assert(mask_count_in(words, m@) == 0) by {
                if mask_count_in(words, m@) > 0 {
                    assert(old(self).contains_mask(m@));
                }
            }
        }
        self.entries.push((m, 1));
        proof {
            assert(self@ =~= old(self)@.push((mask_of(w), 1nat)));
            lemma_counts_after_append(*old(self), *self, words, w);
        }
    }
}

proof fn lemma_counts_after_update(
    prev: MaskCounts,
    cur: MaskCounts,
    words: Seq<Seq<char>>,
    w: Seq<char>,
    k: int,
)
    requires
        prev.wf(),
        prev.counts_words(words),
        counts_toward(w, mask_of(w)),
        0 <= k < prev@.len(),
        prev@[k].0 == mask_of(w),
        cur@ == prev@.update(k, (mask_of(w), (prev@[k].1 + 1) as nat)),
    ensures
        cur.wf(),
        cur.counts_words(words.push(w)),
{
    let m0 = mask_of(w);
    assert forall|i: int| 0 <= i < cur@.len() implies (#[trigger] cur@[i]).1 == mask_count_in(
        words.push(w),
        cur@[i].0,
    ) by {
        lemma_mask_count_push(words, w, cur@[i].0);
        if i != k {
            assert(cur@[i] == prev@[i]);
            assert(prev@[i].0 != m0);
            assert(!counts_toward(w, cur@[i].0));
        }
    }
    assert forall|m: Seq<char>| #[trigger] mask_count_in(words.push(w), m) > 0 implies
        cur.contains_mask(m) by {
        lemma_mask_count_push(words, w, m);
        if counts_toward(w, m) {
            assert(m == m0);
            assert(cur@[k].0 == m);
        } else {
            assert(mask_count_in(words, m) > 0);
            let i = choose|i: int| 0 <= i < prev@.len() && (#[trigger] prev@[i]).0 == m;
            assert(cur@[i].0 == m);
        }
    }
}

proof fn lemma_counts_after_append(
    prev: MaskCounts,
    cur: MaskCounts,
    words: Seq<Seq<char>>,
    w: Seq<char>,
)
    requires
        prev.wf(),
        prev.counts_words(words),
        counts_toward(w, mask_of(w)),
        valid_mask(mask_of(w)),
        mask_count_in(words, mask_of(w)) == 0,
        cur@ == prev@.push((mask_of(w), 1nat)),
    ensures
        cur.wf(),
        cur.counts_words(words.push(w)),
{
    let m0 = mask_of(w);
    let last = prev@.len() as int;
    assert forall|i: int| 0 <= i < cur@.len() implies (#[trigger] cur@[i]).1 == mask_count_in(
        words.push(w),
        cur@[i].0,
    ) by {
        lemma_mask_count_push(words, w, cur@[i].0);
        if i < last {
            assert(cur@[i] == prev@[i]);
            if prev@[i].0 == m0 {
                assert(prev@[i].1 == mask_count_in(words, m0));
            }
            assert(prev@[i].0 != m0);
            assert(!counts_toward(w, cur@[i].0));
        }
    }
    assert forall|m: Seq<char>| #[trigger] mask_count_in(words.push(w), m) > 0 implies
        cur.contains_mask(m) by {
        lemma_mask_count_push(words, w, m);
        if counts_toward(w, m) {
            assert(cur@[last].0 == m);
        } else {
            assert(mask_count_in(words, m) > 0);
            let i = choose|i: int| 0 <= i < prev@.len() && (#[trigger] prev@[i]).0 == m;
            assert(cur@[i].0 == m);
        }
    }
    assert forall|i: int, j: int| 0 <= i < j < cur@.len() implies #[trigger] cur@[i].0
        != #[trigger] cur@[j].0 by {
        if j == last {
            if prev@[i].0 == m0 {
                assert(prev@[i].1 == mask_count_in(words, m0));
                assert(prev@[i].1 >= 1);
            }
        }
    }
}

/// Skipping a word that is counted toward no mask leaves every count as it
/// was.
proof fn lemma_counts_skip(mc: MaskCounts, words: Seq<Seq<char>>, w: Seq<char>)
    requires
        mc.counts_words(words),
        !(valid_word(w) && w.len() > 0),
    ensures
        mc.counts_words(words.push(w)),
{
    assert forall|i: int| 0 <= i < mc@.len() implies (#[trigger] mc@[i]).1 == mask_count_in(
        words.push(w),
        mc@[i].0,
    ) by {
        lemma_mask_count_push(words, w, mc@[i].0);
    }
    assert forall|m: Seq<char>| #[trigger] mask_count_in(words.push(w), m) > 0 implies
        mc.contains_mask(m) by {
        lemma_mask_count_push(words, w, m);
    }
}

pub open spec fn all_ok(lines: Seq<Result<String, ReadError>>) -> bool {
    forall|i: int| 0 <= i < lines.len() ==> (#[trigger] lines[i]) is Ok
}

/// The words carried by a sequence of successful reads.
pub open spec fn words_of(lines: Seq<Result<String, ReadError>>) -> Seq<Seq<char>> {
    lines.map_values(|l: Result<String, ReadError>| l->Ok_0@)
}

proof fn lemma_words_of_take_push(lines: Seq<Result<String, ReadError>>, i: int)
    requires
        0 <= i < lines.len(),
    ensures
        words_of(lines.take(i + 1)) =~= words_of(lines.take(i)).push(lines[i]->Ok_0@),
{
}

/// Consumes the lines a buffered reader produced, classifies each word, and
/// counts occurrences per mask.  A failed read is fatal and is returned at
/// once; a word that fails classification, or is empty, is skipped.
pub fn generate_masks_from_bufreader(lines: &Vec<Result<String, ReadError>>) -> (r: Result<
    MaskCounts,
    ReadError,
>)
    ensures
        all_ok(lines@) ==> (r matches Ok(mc) && mc.wf() && mc.counts_words(words_of(lines@))),
        !all_ok(lines@) ==> (r matches Err(e) && exists|j: int|
            #![auto]
            {
                &&& 0 <= j < lines@.len()
                &&& lines@[j] is Err
                &&& (forall|k: int| 0 <= k < j ==> (#[trigger] lines@[k]) is Ok)
                &&& e == lines@[j]->Err_0
            }),
{
    let mut mc = MaskCounts { entries: Vec::new() };
    let n = lines.len();
    proof {
        assert(lines@.take(0) =~= Seq::<Result<String, ReadError>>::empty());
        assert(words_of(lines@.take(0)) =~= Seq::<Seq<char>>::empty());
    }
    let mut i: usize = 0;
    while i < n
        invariant
            i <= n,
            n == lines@.len(),
            forall|k: int| 0 <= k < i ==> (#[trigger] lines@[k]) is Ok,
            mc.wf(),
            mc.counts_words(words_of(lines@.take(i as int))),
        decreases n - i,
    {
        let ghost words = words_of(lines@.take(i as int));
        proof {
            lemma_words_of_take_push(lines@, i as int);
            assert(words.len() == i);
        }
        match &lines[i] {
            Err(e) => {
                let out = ReadError { message: e.message.clone() };
                proof {
                    assert(lines@[i as int] is Err);
                    assert(!all_ok(lines@));
                    assert(out == lines@[i as int]->Err_0);
                }
                return Err(out);
            },
            Ok(word) => {
                let ghost w = word@;
                match generate_mask(word.as_str()) {
                    Err(_) => {
                        proof {
                            lemma_counts_skip(mc, words, w);
                        }
                    },
                    Ok(m) => {
                        if !m.as_str().is_empty() {
                            mc.bump(m, Ghost(words), Ghost(w));
                        } else {
                            proof {
                                lemma_counts_skip(mc, words, w);
                            }
                        }
                    },
                }
            },
        }
        i = i + 1;
    }
    proof {
        assert(lines@.take(n as int) =~= lines@);
    }
    Ok(mc)
}

} // verus!
