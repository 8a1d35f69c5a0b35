//! Backtracking search: extend a partial solution word by word, always moving
//! forward through the dictionary, pruning candidates that share a letter
//! with the words already chosen, and emitting every complete five-word
//! solution exactly once, in depth-first order.

use vstd::prelude::*;

use crate::letters::{all_lower, word_letters, word_lower, words_letters, Letters};
use crate::seqs::lemma_filter_push;

verus! {

broadcast use vstd::prelude::Seq::lemma_filter_len;

/// The candidate word shares no letter with the words already chosen.
pub open spec fn letters_disjoint(w: Seq<u8>, chosen: Seq<Seq<u8>>) -> bool {
    word_letters(w).disjoint(words_letters(chosen))
}

/// The words of the dictionary that may extend the partial solution `chosen`:
/// those sharing no letter with it, in dictionary order.
pub open spec fn eligible_spec(chosen: Seq<Seq<u8>>, dict: Seq<Seq<u8>>) -> Seq<Seq<u8>> {
    dict.filter(|w: Seq<u8>| letters_disjoint(w, chosen))
}

/// The sequence of solutions the search emits when the words of `chosen` have
/// already been picked and `dict` is what remains of the dictionary, in the
/// order the depth-first search finds them.
pub open spec fn search_spec(chosen: Seq<Seq<u8>>, dict: Seq<Seq<u8>>) -> Seq<Seq<Seq<u8>>>
    decreases 5 - chosen.len(), dict.len() + 1,
{
    if chosen.len() >= 5 {
        seq![chosen]
    } else {
        branches_spec(chosen, eligible_spec(chosen, dict))
    }
}

/// One branch per eligible word: pick it, then search what follows it.
pub open spec fn branches_spec(chosen: Seq<Seq<u8>>, elig: Seq<Seq<u8>>) -> Seq<Seq<Seq<u8>>>
    decreases 5 - chosen.len(), elig.len(),
{
    if chosen.len() >= 5 || elig.len() == 0 {
        Seq::empty()
    } else {
        search_spec(chosen.push(elig.first()), elig.drop_first()) + branches_spec(
            chosen,
            elig.drop_first(),
        )
    }
}

/// Copies one word.
fn clone_word(w: &Vec<u8>) -> (r: Vec<u8>)
    ensures
        r@ == w@,
{
    let c = w.clone();
    proof {
        assert forall|k: int| 0 <= k < c@.len() implies c@[k] == w@[k] by {
            assert(cloned::<u8>(w@[k], c@[k]));
        }
        assert(c@ =~= w@);
    }
    c
}

/// Copies a word list.
fn copy_words(v: &Vec<Vec<u8>>) -> (r: Vec<Vec<u8>>)
    ensures
        r.deep_view() == v.deep_view(),
{
    let mut r: Vec<Vec<u8>> = Vec::new();
    let mut i: usize = 0;
    while i < v.len()
        invariant
            i <= v.len(),
            v.deep_view().len() == v.len(),
            r.deep_view() == v.deep_view().take(i as int),
        decreases v.len() - i,
    {
        let ghost old_r = r.deep_view();
        let c = clone_word(&v[i]);
        proof {
            assert(c@ =~= v.deep_view()[i as int]);
        }
        r.push(c);
        proof {
            assert(r.deep_view() =~~= old_r.push(v.deep_view()[i as int]));
            assert(v.deep_view().take(i + 1) =~= v.deep_view().take(i as int).push(
                v.deep_view()[i as int],
            ));
        }
        i += 1;
    }
    proof {
        assert(v.deep_view().take(v.len() as int) =~= v.deep_view());
    }
    r
}

/// Copies the words of `v` from position `start` on.
fn suffix_from(v: &Vec<Vec<u8>>, start: usize) -> (r: Vec<Vec<u8>>)
    requires
        start <= v.len(),
    ensures
        r.deep_view() == v.deep_view().skip(start as int),
{
    let mut r: Vec<Vec<u8>> = Vec::new();
    let mut i: usize = start;
    while i < v.len()
        invariant
            start <= i <= v.len(),
            v.deep_view().len() == v.len(),
            r.deep_view() == v.deep_view().subrange(start as int, i as int),
        decreases v.len() - i,
    {
        let ghost old_r = r.deep_view();
        let c = clone_word(&v[i]);
        proof {
            assert(c@ =~= v.deep_view()[i as int]);
        }
        r.push(c);
        proof {
            assert(r.deep_view() =~~= old_r.push(v.deep_view()[i as int]));
            assert(v.deep_view().subrange(start as int, i + 1) =~= v.deep_view().subrange(
                start as int,
                i as int,
            ).push(v.deep_view()[i as int]));
        }
        i += 1;
    }
    proof {
        assert(v.deep_view().subrange(start as int, v.len() as int) =~= v.deep_view().skip(
            start as int,
        ));
    }
    r
}

/// Answers whether the word shares no letter with the given letter set.
fn shares_no_letter<L: Letters>(invalid: &L, w: &Vec<u8>) -> (r: bool)
    requires
        word_lower(w@),
    ensures
        r == word_letters(w@).disjoint(invalid.letters()),
{
    let mut j: usize = 0;
    while j < w.len()
        invariant
            j <= w.len(),
            word_lower(w@),
            forall|k: int| 0 <= k < j ==> !invalid.letters().contains(#[trigger] w@[k]),
        decreases w.len() - j,
    {
        if invalid.contains(w[j]) {
            proof {
                assert(word_letters(w@).contains(w@[j as int]));
            }
            return false;
        }
        j += 1;
    }
    proof {
        assert forall|c: u8| word_letters(w@).contains(c) implies !invalid.letters().contains(
            c,
        ) by {
            let k = choose|k: int| 0 <= k < w@.len() && w@[k] == c;
            assert(!invalid.letters().contains(w@[k]));
        }
    }
    true
}

/// Keeps exactly the dictionary words that share no letter with the already
/// chosen words, in dictionary order.
pub fn find_possible_next_words<L: Letters>(words: &Vec<Vec<u8>>, dictionary: &Vec<Vec<u8>>) -> (r:
    Vec<Vec<u8>>)
    requires
        all_lower(words.deep_view()),
        all_lower(dictionary.deep_view()),
    ensures
        r.deep_view() == eligible_spec(words.deep_view(), dictionary.deep_view()),
        all_lower(r.deep_view()),
{
    let invalid = L::new(words);
    let ghost chosen = words.deep_view();
    let ghost dict = dictionary.deep_view();
    let ghost pred = |w: Seq<u8>| letters_disjoint(w, chosen);
    let mut r: Vec<Vec<u8>> = Vec::new();
    proof {
        assert(r.deep_view() =~= dict.take(0).filter(pred));
    }
    let mut i: usize = 0;
    while i < dictionary.len()
        invariant
            i <= dictionary.len(),
            pred == (|w: Seq<u8>| letters_disjoint(w, chosen)),
            dict == dictionary.deep_view(),
            dict.len() == dictionary.len(),
            all_lower(dict),
            invalid.letters() == words_letters(chosen),
            r.deep_view() == dict.take(i as int).filter(pred),
            all_lower(r.deep_view()),
        decreases dictionary.len() - i,
    {
        let ghost prefix = dict.take(i as int);
        let ghost old_r = r.deep_view();
        let w = &dictionary[i];
        proof {
            assert(dict[i as int] =~= w@);
            assert(word_lower(dict[i as int]));
            lemma_filter_push(prefix, dict[i as int], pred);
            assert(dict.take(i + 1) =~= prefix.push(dict[i as int]));
        }
        if shares_no_letter::<L>(&invalid, w) {
            let c = clone_word(w);
            r.push(c);
            proof {
                assert(r.deep_view() =~~= old_r.push(dict[i as int]));
                assert(r.deep_view() == dict.take(i + 1).filter(pred));
                assert forall|k: int| 0 <= k < r.deep_view().len() implies word_lower(
                    #[trigger] r.deep_view()[k],
                ) by {
                    if k < old_r.len() {
                        assert(word_lower(old_r[k]));
                    }
                }
            }
        } else {
            proof {
                assert(r.deep_view() == dict.take(i + 1).filter(pred));
            }
        }
        i += 1;
    }
    proof {
        assert(dict.take(dictionary.len() as int) =~= dict);
    }
    r
}

/// Emits, in depth-first order, every solution that extends the partial
/// solution `words` with words drawn, left to right, from `dictionary`.
pub fn find_answers<L: Letters>(words: Vec<Vec<u8>>, dictionary: &Vec<Vec<u8>>) -> (r: Vec<
    Vec<Vec<u8>>,
>)
    requires
        words.len() <= 5,
        all_lower(words.deep_view()),
        all_lower(dictionary.deep_view()),
    ensures
        r.deep_view() == search_spec(words.deep_view(), dictionary.deep_view()),
    decreases 5 - words.len(),
{
    let ghost chosen = words.deep_view();
    let ghost dict = dictionary.deep_view();
    if words.len() == 5 {
        let mut r: Vec<Vec<Vec<u8>>> = Vec::new();
        r.push(words);
        proof {
            assert(r.deep_view() =~~= seq![chosen]);
        }
        r
    } else {
        let elig = find_possible_next_words::<L>(&words, dictionary);
        let ghost evw = elig.deep_view();
        let mut r: Vec<Vec<Vec<u8>>> = Vec::new();
        proof {
            assert(evw.skip(0) =~= evw);
        }
        let mut i: usize = 0;
        while i < elig.len()
            invariant
                i <= elig.len(),
                words.len() < 5,
                chosen == words.deep_view(),
                all_lower(chosen),
                evw == elig.deep_view(),
                evw.len() == elig.len(),
                all_lower(evw),
                r.deep_view() + branches_spec(chosen, evw.skip(i as int)) == branches_spec(
                    chosen,
                    evw,
                ),
            decreases elig.len() - i,
        {
            let ghost rem = evw.skip(i as int);
            let ghost old_r = r.deep_view();
            let mut a = copy_words(&words);
            let c = clone_word(&elig[i]);
            proof {
                assert(c@ =~= evw[i as int]);
            }
            a.push(c);
            proof {
                assert(a.deep_view() =~~= chosen.push(evw[i as int]));
                assert(word_lower(evw[i as int]));
                assert forall|k: int| 0 <= k < a.deep_view().len() implies word_lower(
                    #[trigger] a.deep_view()[k],
                ) by {}
            }
            let rest = suffix_from(&elig, i + 1);
            proof {
                assert forall|k: int| 0 <= k < rest.deep_view().len() implies word_lower(
                    #[trigger] rest.deep_view()[k],
                ) by {
                    assert(rest.deep_view()[k] == evw[k + i + 1]);
                }
            }
            let mut sub = find_answers::<L>(a, &rest);
            proof {
                assert(rem.first() == evw[i as int]);
                assert(rem.drop_first() =~= evw.skip(i + 1));
                assert(branches_spec(chosen, rem) == search_spec(chosen.push(evw[i as int]), evw.skip(
                    i + 1,
                )) + branches_spec(chosen, evw.skip(i + 1)));
            }
            r.append(&mut sub);
            proof {
                assert(r.deep_view() =~~= old_r + search_spec(chosen.push(evw[i as int]), evw.skip(
                    i + 1,
                )));
                assert(r.deep_view() + branches_spec(chosen, evw.skip(i + 1)) =~= old_r + (
                search_spec(chosen.push(evw[i as int]), evw.skip(i + 1)) + branches_spec(
                    chosen,
                    evw.skip(i + 1),
                )));
            }
            i += 1;
        }
        proof {
            assert(evw.skip(evw.len() as int) =~= Seq::<Seq<u8>>::empty());
            assert(branches_spec(chosen, Seq::<Seq<u8>>::empty()) == Seq::<Seq<Seq<u8>>>::empty());
            assert(r.deep_view() + Seq::<Seq<Seq<u8>>>::empty() =~= r.deep_view());
            assert(r.deep_view() == branches_spec(chosen, evw));
        }
        r
    }
}

/// Emits at most `limit` solutions: the first ones of `find_answers`, in the
/// same depth-first order. Branches past the limit are never explored, so a
/// caller wanting only a few solutions does not pay for the whole search.
pub fn find_answers_up_to<L: Letters>(
    words: Vec<Vec<u8>>,
    dictionary: &Vec<Vec<u8>>,
    limit: usize,
) -> (r: Vec<Vec<Vec<u8>>>)
    requires
        words.len() <= 5,
        all_lower(words.deep_view()),
        all_lower(dictionary.deep_view()),
    ensures
        limit <= search_spec(words.deep_view(), dictionary.deep_view()).len() ==> r.deep_view()
            == search_spec(words.deep_view(), dictionary.deep_view()).take(limit as int),
        limit > search_spec(words.deep_view(), dictionary.deep_view()).len() ==> r.deep_view()
            == search_spec(words.deep_view(), dictionary.deep_view()),
    decreases 5 - words.len(),
{
    let ghost chosen = words.deep_view();
    let ghost dict = dictionary.deep_view();
    if words.len() == 5 {
        let mut r: Vec<Vec<Vec<u8>>> = Vec::new();
        if limit > 0 {
            r.push(words);
            proof {
                assert(r.deep_view() =~~= seq![chosen]);
                assert(seq![chosen].take(1) =~= seq![chosen]);
            }
        } else {
            proof {
                assert(r.deep_view() =~= seq![chosen].take(0));
            }
        }
        r
    } else {
        let elig = find_possible_next_words::<L>(&words, dictionary);
        let ghost evw = elig.deep_view();
        let ghost total = branches_spec(chosen, evw);
        let mut r: Vec<Vec<Vec<u8>>> = Vec::new();
        proof {
            assert(evw.skip(0) =~= evw);
            assert(r.deep_view() =~= total.take(0));
        }
        let mut i: usize = 0;
        while i < elig.len() && r.len() < limit
            invariant
                i <= elig.len(),
                words.len() < 5,
                chosen == words.deep_view(),
                all_lower(chosen),
                evw == elig.deep_view(),
                evw.len() == elig.len(),
                all_lower(evw),
                total == branches_spec(chosen, evw),
                r.len() <= limit,
                r.deep_view().len() <= total.len(),
                r.deep_view() == total.take(r.deep_view().len() as int),
                r.len() < limit ==> r.deep_view() + branches_spec(chosen, evw.skip(i as int))
                    == total,
            decreases elig.len() - i,
        {
            let ghost rem = evw.skip(i as int);
            let ghost old_r = r.deep_view();
            let remaining = limit - r.len();
            let mut a = copy_words(&words);
            let c = clone_word(&elig[i]);
            proof {
                assert(c@ =~= evw[i as int]);
            }
            a.push(c);
            proof {
                assert(a.deep_view() =~~= chosen.push(evw[i as int]));
                assert(word_lower(evw[i as int]));
                assert forall|k: int| 0 <= k < a.deep_view().len() implies word_lower(
                    #[trigger] a.deep_view()[k],
                ) by {}
            }
            let rest = suffix_from(&elig, i + 1);
            proof {
                assert forall|k: int| 0 <= k < rest.deep_view().len() implies word_lower(
                    #[trigger] rest.deep_view()[k],
                ) by {
                    assert(rest.deep_view()[k] == evw[k + i + 1]);
                }
            }
            let mut sub = find_answers_up_to::<L>(a, &rest, remaining);
            let ghost branch = search_spec(chosen.push(evw[i as int]), evw.skip(i + 1));
            let ghost after = branches_spec(chosen, evw.skip(i + 1));
            proof {
                assert(rem.first() == evw[i as int]);
                assert(rem.drop_first() =~= evw.skip(i + 1));
                assert(branches_spec(chosen, rem) == branch + after);
            }
            r.append(&mut sub);
            proof {
                assert(old_r + (branch + after) == total);
                assert((old_r + branch) + after =~= old_r + (branch + after));
                if remaining <= branch.len() {
                    assert(r.deep_view() =~~= old_r + branch.take(remaining as int));
                    crate::seqs::lemma_take_of_add_left(branch, after, remaining as int);
                    crate::seqs::lemma_take_of_add(
                        old_r,
                        branch + after,
                        remaining as int,
                    );
                    assert(total.take(old_r.len() + remaining) == old_r + branch.take(
                        remaining as int,
                    ));
                } else {
                    assert(r.deep_view() =~~= old_r + branch);
                    crate::seqs::lemma_take_of_add(old_r + branch, after, 0);
                    assert((old_r + branch) + after.take(0) =~= old_r + branch);
                    assert(total.take(r.deep_view().len() as int) == r.deep_view());
                }
            }
            i += 1;
        }
        proof {
            if r.deep_view().len() < limit {
                assert(i == elig.len());
                assert(evw.skip(evw.len() as int) =~= Seq::<Seq<u8>>::empty());
                assert(branches_spec(chosen, Seq::<Seq<u8>>::empty())
                    == Seq::<Seq<Seq<u8>>>::empty());
                assert(r.deep_view() + Seq::<Seq<Seq<u8>>>::empty() =~= r.deep_view());
                assert(r.deep_view() == total);
            } else {
                assert(r.deep_view().len() == limit);
            }
        }
        r
    }
}

/// Runs the search but stops after the first `limit` solutions, leaving the
/// rest of the search space unexplored.
pub fn run_up_to<L: Letters>(dictionary: &Vec<Vec<u8>>, limit: usize) -> (r: Vec<Vec<Vec<u8>>>)
    requires
        all_lower(dictionary.deep_view()),
    ensures
        limit <= search_spec(Seq::empty(), dictionary.deep_view()).len() ==> r.deep_view()
            == search_spec(Seq::empty(), dictionary.deep_view()).take(limit as int),
        limit > search_spec(Seq::empty(), dictionary.deep_view()).len() ==> r.deep_view()
            == search_spec(Seq::empty(), dictionary.deep_view()),
{
    let words: Vec<Vec<u8>> = Vec::new();
    proof {
        assert(words.deep_view() =~= Seq::<Seq<u8>>::empty());
    }
    find_answers_up_to::<L>(words, dictionary, limit)
}

/// Runs the whole search: every five-word, twenty-five-letter solution hidden
/// in the dictionary, in depth-first order.
pub fn run<L: Letters>(dictionary: &Vec<Vec<u8>>) -> (r: Vec<Vec<Vec<u8>>>)
    requires
        all_lower(dictionary.deep_view()),
    ensures
        r.deep_view() == search_spec(Seq::empty(), dictionary.deep_view()),
{
    let words: Vec<Vec<u8>> = Vec::new();
    proof {
        assert(words.deep_view() =~= Seq::<Seq<u8>>::empty());
    }
    find_answers::<L>(words, dictionary)
}

} // verus!
