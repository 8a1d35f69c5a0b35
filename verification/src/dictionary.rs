//! Dictionary filter: reduce a raw word list to the five-letter isograms,
//! the only words that can take part in a valid twenty-five-letter solution.

use vstd::prelude::*;

verus! {

/// The word repeats no letter.
pub open spec fn spec_is_isogram(w: Seq<u8>) -> bool {
    w.no_duplicates()
}

/// The word can take part in a solution: five letters, none repeated.
pub open spec fn spec_is_candidate(w: Seq<u8>) -> bool {
    w.len() == 5 && spec_is_isogram(w)
}

/// A word is a candidate exactly when it has length five and five distinct
/// letters.
pub proof fn lemma_candidate_distinct_letters(w: Seq<u8>)
    ensures
        spec_is_candidate(w) <==> (w.len() == 5 && w.to_set().len() == 5),
{
    if w.no_duplicates() {
        w.unique_seq_to_set();
    }
    if w.to_set().len() == w.len() {
        w.lemma_no_dup_set_cardinality();
    }
}

/// Answers whether the word is a five-letter isogram.
pub fn is_isogram5(w: &Vec<u8>) -> (r: bool)
    ensures
        r == spec_is_candidate(w@),
{
    if w.len() != 5 {
        return false;
    }
    let mut i: usize = 0;
    while i < 5
        invariant
            i <= 5,
            w.len() == 5,
            forall|p: int, q: int| 0 <= p < q < w@.len() && p < i ==> w@[p] != w@[q],
        decreases 5 - i,
    {
        let mut j: usize = i + 1;
        while j < 5
            invariant
                i < j <= 5,
                w.len() == 5,
                forall|q: int| i < q < j ==> w@[i as int] != w@[q],
            decreases 5 - j,
        {
            if w[i] == w[j] {
                return false;
            }
            j += 1;
        }
        i += 1;
    }
    true
}

/// Keeps exactly the words that are five-letter isograms, in input order.
pub fn make_dictionary(all_words: &Vec<Vec<u8>>) -> (r: Vec<Vec<u8>>)
    ensures
        r.deep_view() == all_words.deep_view().filter(|w: Seq<u8>| spec_is_candidate(w)),
{
    let ghost pred = |w: Seq<u8>| spec_is_candidate(w);
    let ghost full = all_words.deep_view();
    let mut r: Vec<Vec<u8>> = Vec::new();
    let mut i: usize = 0;
    while i < all_words.len()
        invariant
            i <= all_words.len(),
            pred == (|w: Seq<u8>| spec_is_candidate(w)),
            full == all_words.deep_view(),
            full.len() == all_words.len(),
            r.deep_view() == full.take(i as int).filter(pred),
        decreases all_words.len() - i,
    {
        let ghost prefix = full.take(i as int);
        let ghost old_r = r.deep_view();
        let w = &all_words[i];
        proof {
            assert(full[i as int] =~= w@);
            crate::seqs::lemma_filter_push(prefix, full[i as int], pred);
            assert(full.take(i + 1) =~= prefix.push(full[i as int]));
        }
        let keep = is_isogram5(w);
        if keep {
            let c = w.clone();
            proof {
                assert forall|k: int| 0 <= k < c@.len() implies c@[k] == w@[k] by {
                    assert(cloned::<u8>(w@[k], c@[k]));
                }
                assert(c@ =~= w@);
            }
            r.push(c);
            proof {
                assert(r.deep_view() =~~= old_r.push(full[i as int]));
                assert(r.deep_view() == full.take(i + 1).filter(pred));
            }
        } else {
            proof {
                assert(r.deep_view() == full.take(i + 1).filter(pred));
            }
        }
        i += 1;
    }
    proof {
        assert(full.take(all_words.len() as int) =~= full);
    }
    r
}

} // verus!
