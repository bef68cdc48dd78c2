//! Classification of words into character-class masks, and exact keyspace
//! size computation for a mask.

use vstd::prelude::*;

verus! {

pub open spec fn is_lower_char(c: char) -> bool {
    97 <= c as u32 && c as u32 <= 122
}

pub open spec fn is_upper_char(c: char) -> bool {
    65 <= c as u32 && c as u32 <= 90
}

pub open spec fn is_digit_char(c: char) -> bool {
    48 <= c as u32 && c as u32 <= 57
}

/// The special-symbol class: every printable ASCII character that is not a
/// letter or a digit.  There are 33 such characters, space included.
pub open spec fn is_special_char(c: char) -> bool {
    32 <= c as u32 && c as u32 <= 126 && !is_lower_char(c) && !is_upper_char(c)
        && !is_digit_char(c)
}

/// A character the classifier accepts: a member of one of the four classes,
/// which together cover exactly the printable ASCII range.
pub open spec fn is_word_char(c: char) -> bool {
    is_lower_char(c) || is_upper_char(c) || is_digit_char(c) || is_special_char(c)
}

/// The mask symbol standing for the class of an accepted character.
pub open spec fn class_symbol(c: char) -> char {
    if is_lower_char(c) {
        'l'
    } else if is_upper_char(c) {
        'u'
    } else if is_digit_char(c) {
        'd'
    } else {
        's'
    }
}

pub open spec fn valid_word(w: Seq<char>) -> bool {
    forall|i: int| 0 <= i < w.len() ==> is_word_char(#[trigger] w[i])
}

/// The mask of a word: one class symbol per character position.
pub open spec fn mask_of(w: Seq<char>) -> Seq<char> {
    Seq::new(w.len(), |i: int| class_symbol(w[i]))
}

/// A word contains a character outside the printable ASCII alphabet.
/// Classification fails with that character wrapped in this error.
/// New failure kinds may be added in future revisions; match with a
/// fallback arm.
#[derive(Debug, Clone, Copy, PartialEq)]
#[non_exhaustive]
pub enum MaskError {
    InvalidCharacter(char),
}

/// Classifies a word into its mask, or reports the first character that
/// belongs to no class.
pub fn generate_mask(word: &str) -> (r: Result<String, MaskError>)
    ensures
        valid_word(word@) ==> (r matches Ok(m) && m@ == mask_of(word@)),
        !valid_word(word@) ==> (r matches Err(e) && exists|j: int|
            {
                &&& 0 <= j < word@.len()
                &&& !is_word_char(#[trigger] word@[j])
                &&& (forall|k: int| 0 <= k < j ==> is_word_char(#[trigger] word@[k]))
                &&& e == MaskError::InvalidCharacter(word@[j])
            }),
{
    let len = word.unicode_len();
    let mut mask = String::new();
    let mut i: usize = 0;
    while i < len
        invariant
            i <= len,
            len == word@.len(),
            forall|k: int| 0 <= k < i ==> is_word_char(#[trigger] word@[k]),
            mask@ =~= mask_of(word@.take(i as int)),
        decreases len - i,
    {
        let c = word.get_char(i);
        let u = c as u32;
        proof {
            reveal_strlit("l");
            reveal_strlit("u");
            reveal_strlit("d");
            reveal_strlit("s");
        }
        if 97 <= u && u <= 122 {
            mask.append("l");
        } else if 65 <= u && u <= 90 {
            mask.append("u");
        } else if 48 <= u && u <= 57 {
            mask.append("d");
        } else if 32 <= u && u <= 126 {
            mask.append("s");
        } else {
            proof {
                assert(!is_word_char(word@[i as int]));
            }
            return Err(MaskError::InvalidCharacter(c));
        }
        proof {
            assert(mask@ =~= mask_of(word@.take(i as int)).push(class_symbol(word@[i as int])));
            assert(mask_of(word@.take(i + 1)) =~= mask_of(word@.take(i as int)).push(
                class_symbol(word@[i as int]),
            ));
        }
        i = i + 1;
    }
    proof {
        assert(word@.take(len as int) =~= word@);
    }
    Ok(mask)
}

/// A symbol that can appear in a mask.
pub open spec fn is_mask_char(c: char) -> bool {
    c == 'l' || c == 'u' || c == 'd' || c == 's'
}

pub open spec fn valid_mask(m: Seq<char>) -> bool {
    forall|i: int| 0 <= i < m.len() ==> is_mask_char(#[trigger] m[i])
}

/// How many characters each class admits: 26 letters of either case,
/// 10 digits, 33 special symbols.
pub open spec fn class_cardinality(c: char) -> nat {
    if c == 'l' {
        26
    } else if c == 'u' {
        26
    } else if c == 'd' {
        10
    } else {
        33
    }
}

/// The exact keyspace size of a mask: the product over all positions of
/// that position's class cardinality.  The empty mask has size 1.
pub open spec fn mask_size_of(m: Seq<char>) -> nat
    decreases m.len(),
{
    if m.len() == 0 {
        1
    } else {
        mask_size_of(m.drop_last()) * class_cardinality(m.last())
    }
}

pub proof fn lemma_mask_size_pos(m: Seq<char>)
    ensures
        mask_size_of(m) >= 1,
    decreases m.len(),
{
    if m.len() > 0 {
        lemma_mask_size_pos(m.drop_last());
        assert(mask_size_of(m.drop_last()) * class_cardinality(m.last()) >= 1) by (nonlinear_arith)
            requires
                mask_size_of(m.drop_last()) >= 1,
                class_cardinality(m.last()) >= 10,
        ;
    }
}

/// A prefix of a mask never has a larger size than the whole mask.
pub proof fn lemma_mask_size_prefix_le(m: Seq<char>, j: int)
    requires
        0 <= j <= m.len(),
    ensures
        mask_size_of(m.take(j)) <= mask_size_of(m),
    decreases m.len() - j,
{
    if j < m.len() {
        lemma_mask_size_prefix_le(m, j + 1);
        let p = m.take(j + 1);
        assert(p.drop_last() =~= m.take(j));
        assert(p.last() == m[j]);
        lemma_mask_size_pos(m.take(j));
        assert(mask_size_of(m.take(j)) <= mask_size_of(m.take(j)) * class_cardinality(m[j]))
            by (nonlinear_arith)
            requires
                mask_size_of(m.take(j)) >= 1,
                class_cardinality(m[j]) >= 10,
        ;
    } else {
        assert(m.take(j) =~= m);
    }
}

/// The mask of any acceptable word is a valid mask.
pub proof fn lemma_mask_of_valid(w: Seq<char>)
    requires
        valid_word(w),
    ensures
        valid_mask(mask_of(w)),
{
}

/// The keyspace size of a classified word depends only on the mask, never on
/// which word produced it: two words with equal masks have equal sizes.
pub proof fn lemma_size_depends_only_on_mask(w1: Seq<char>, w2: Seq<char>)
    requires
        valid_word(w1),
        valid_word(w2),
        mask_of(w1) == mask_of(w2),
    ensures
        mask_size_of(mask_of(w1)) == mask_size_of(mask_of(w2)),
{
}

/// Computes the exact keyspace size of a mask, in integer arithmetic, or
/// `None` when the true product strictly exceeds `maximum_size`.  A mask is
/// either kept with its exact size or dropped entirely; the size is never
/// clamped.
pub fn compute_mask_size(mask: &str, maximum_size: usize) -> (r: Option<usize>)
    requires
        valid_mask(mask@),
    ensures
        mask_size_of(mask@) <= maximum_size ==> (r matches Some(s) && s == mask_size_of(mask@)),
        mask_size_of(mask@) > maximum_size ==> r is None,
{
    if maximum_size == 0 {
        proof {
            lemma_mask_size_pos(mask@);
        }
        return None;
    }
    let len = mask.unicode_len();
    let mut result: usize = 1;
    let mut i: usize = 0;
    while i < len
        invariant
            i <= len,
            len == mask@.len(),
            valid_mask(mask@),
            result == mask_size_of(mask@.take(i as int)),
            result <= maximum_size,
        decreases len - i,
    {
        let c = mask.get_char(i);
        let multiplier: usize = if c == 'l' {
            26
        } else if c == 'u' {
            26
        } else if c == 'd' {
            10
        } else {
            33
        };
        proof {
            assert(is_mask_char(mask@[i as int]));
            assert(multiplier == class_cardinality(mask@[i as int]));
            assert(mask@.take(i + 1).drop_last() =~= mask@.take(i as int));
            assert(mask@.take(i + 1).last() == mask@[i as int]);
        }
        if (maximum_size / multiplier) < result {
            proof {
                assert(mask_size_of(mask@.take(i + 1)) > maximum_size) by (nonlinear_arith)
                    requires
                        mask_size_of(mask@.take(i + 1)) == result * multiplier,
                        maximum_size / multiplier < result,
                        multiplier >= 10,
                ;
                lemma_mask_size_prefix_le(mask@, i + 1);
            }
            return None;
        }
        proof {
            assert(result * multiplier <= maximum_size) by (nonlinear_arith)
                requires
                    result <= maximum_size / multiplier,
                    multiplier >= 10,
                    maximum_size >= 0,
            ;
        }
        result = result * multiplier;
        i = i + 1;
    }
    proof {
        assert(mask@.take(len as int) =~= mask@);
    }
    Some(result)
}

} // verus!

