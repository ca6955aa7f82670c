//! The order of generators: by their state words, lexicographically, then by
//! their position in the state. It agrees with the derived `Ord`.

use core::cmp::Ordering;
use vstd::prelude::*;
use vstd::std_specs::cmp::{PartialOrdSpec, PartialOrdSpecImpl};

use crate::model::{
    lemma_first_difference_at, lemma_first_difference_order, state_less, STATE_WORDS,
};
use crate::mt19937::MT19937;

verus! {

impl PartialOrd for MT19937 {
    /// Always `Some`: the generators' order, by state words, then position.
    fn partial_cmp(&self, other: &Self) -> (r: Option<Ordering>) {
        let i = self.first_difference(other);
        let a = self.state();
        let b = other.state();
        let pa = self.position();
        let pb = other.position();
        proof {
            lemma_first_difference_at(a@, b@, i);
        }
        if i < STATE_WORDS {
            if a[i] < b[i] {
                Some(Ordering::Less)
            } else {
                Some(Ordering::Greater)
            }
        } else if pa < pb {
            Some(Ordering::Less)
        } else if pa == pb {
            Some(Ordering::Equal)
        } else {
            Some(Ordering::Greater)
        }
    }
}

impl PartialOrdSpecImpl for MT19937 {
    open spec fn obeys_partial_cmp_spec() -> bool {
        true
    }

    open spec fn partial_cmp_spec(&self, other: &Self) -> Option<Ordering> {
        if state_less(self@, other@) {
            Some(Ordering::Less)
        } else if self@ == other@ {
            Some(Ordering::Equal)
        } else {
            Some(Ordering::Greater)
        }
    }
}

/// Generators whose state words differ are ordered by the first word at
/// which they differ, whatever their positions: the one with the smaller word
/// there comes first.
pub proof fn lemma_partial_cmp_first_difference(a: MT19937, b: MT19937, i: int)
    requires
        a@.wf(),
        b@.wf(),
        0 <= i < STATE_WORDS,
        forall|k: int| 0 <= k < i ==> a@.words[k] == b@.words[k],
        a@.words[i] != b@.words[i],
    ensures
        PartialOrdSpec::partial_cmp_spec(&a, &b) == (if a@.words[i] < b@.words[i] {
            Some(Ordering::Less)
        } else {
            Some(Ordering::Greater)
        }),
        PartialOrdSpec::partial_cmp_spec(&b, &a) == (if b@.words[i] < a@.words[i] {
            Some(Ordering::Less)
        } else {
            Some(Ordering::Greater)
        }),
{
    lemma_first_difference_order(a@.words, b@.words, i);
    assert(a@.words != b@.words);
    assert(a@ != b@);
}

/// Generators with the same state words are ordered by their positions.
pub proof fn lemma_partial_cmp_same_words(a: MT19937, b: MT19937)
    requires
        a@.wf(),
        b@.wf(),
        a@.words == b@.words,
    ensures
        PartialOrdSpec::partial_cmp_spec(&a, &b) == (if a@.idx < b@.idx {
            Some(Ordering::Less)
        } else if a@.idx == b@.idx {
            Some(Ordering::Equal)
        } else {
            Some(Ordering::Greater)
        }),
{
    lemma_first_difference_order(a@.words, b@.words, 624);
}

} // verus!
