//! The properties the search guarantees: every emitted solution is valid,
//! no two emitted solutions are the same five-word set, and a dictionary too
//! small to yield a solution yields none.

use vstd::prelude::*;

use crate::dictionary::spec_is_candidate;
use crate::letters::{word_letters, words_letters, lemma_words_letters_membership};
use crate::search::{branches_spec, eligible_spec, letters_disjoint, search_spec};
use crate::seqs::{lemma_filter_no_duplicates, lemma_filter_split};

verus! {

broadcast use vstd::prelude::Seq::lemma_filter_len;

/// Every word of the dictionary is a five-letter isogram.
pub open spec fn all_candidates(dict: Seq<Seq<u8>>) -> bool {
    forall|i: int| 0 <= i < dict.len() ==> spec_is_candidate(#[trigger] dict[i])
}

/// No two words of the solution share a letter.
pub open spec fn solution_words_disjoint(s: Seq<Seq<u8>>) -> bool {
    forall|i: int, j: int|
        0 <= i < j < s.len() ==> word_letters(#[trigger] s[i]).disjoint(word_letters(#[trigger] s[j]))
}

/// A valid solution: exactly five words, each an isogram, pairwise sharing no
/// letter, twenty-five distinct letters in all.
pub open spec fn solution_valid(s: Seq<Seq<u8>>) -> bool {
    &&& s.len() == 5
    &&& forall|m: int| 0 <= m < 5 ==> spec_is_candidate(#[trigger] s[m])
    &&& solution_words_disjoint(s)
    &&& words_letters(s).len() == 25
}

/// The dictionary filter yields only five-letter isograms, so its output
/// meets the precondition of the solution-validity law.
pub proof fn lemma_filtered_dictionary_all_candidates(raw: Seq<Seq<u8>>)
    ensures
        all_candidates(raw.filter(|w: Seq<u8>| spec_is_candidate(w))),
{
    let pred = |w: Seq<u8>| spec_is_candidate(w);
    assert forall|i: int| 0 <= i < raw.filter(pred).len() implies spec_is_candidate(
        #[trigger] raw.filter(pred)[i],
    ) by {
        raw.lemma_filter_pred(pred, i);
    }
}

/// Shape of every emitted element: five words, the chosen prefix kept, the
/// rest drawn from the dictionary, each new word sharing no letter with the
/// words before it.
proof fn lemma_search_elem(chosen: Seq<Seq<u8>>, dict: Seq<Seq<u8>>, k: int)
    requires
        chosen.len() <= 5,
        0 <= k < search_spec(chosen, dict).len(),
    ensures
        search_spec(chosen, dict)[k].len() == 5,
        search_spec(chosen, dict)[k].take(chosen.len() as int) == chosen,
        forall|m: int|
            chosen.len() <= m < 5 ==> dict.contains(#[trigger] search_spec(chosen, dict)[k][m]),
        forall|m: int|
            chosen.len() <= m < 5 ==> letters_disjoint(
                #[trigger] search_spec(chosen, dict)[k][m],
                search_spec(chosen, dict)[k].take(m),
            ),
    decreases 5 - chosen.len(), dict.len() + 1,
{
    let s = search_spec(chosen, dict)[k];
    if chosen.len() == 5 {
        assert(s == chosen);
        assert(s.take(5) =~= s);
    } else {
        let elig = eligible_spec(chosen, dict);
        let pred = |w: Seq<u8>| letters_disjoint(w, chosen);
        assert forall|i: int| 0 <= i < elig.len() implies letters_disjoint(
            #[trigger] elig[i],
            chosen,
        ) by {
            dict.lemma_filter_pred(pred, i);
        }
        lemma_branches_elem(chosen, elig, k);
        assert forall|m: int| chosen.len() <= m < 5 implies dict.contains(#[trigger] s[m]) by {
            assert(elig.contains(s[m]));
            dict.lemma_filter_contains_rev(pred, s[m]);
        }
    }
}

/// As `lemma_search_elem`, for the branch list over an already filtered set
/// of eligible words.
proof fn lemma_branches_elem(chosen: Seq<Seq<u8>>, elig: Seq<Seq<u8>>, k: int)
    requires
        chosen.len() < 5,
        0 <= k < branches_spec(chosen, elig).len(),
        forall|i: int| 0 <= i < elig.len() ==> letters_disjoint(#[trigger] elig[i], chosen),
    ensures
        branches_spec(chosen, elig)[k].len() == 5,
        branches_spec(chosen, elig)[k].take(chosen.len() as int) == chosen,
        forall|m: int|
            chosen.len() <= m < 5 ==> elig.contains(#[trigger] branches_spec(chosen, elig)[k][m]),
        forall|m: int|
            chosen.len() <= m < 5 ==> letters_disjoint(
                #[trigger] branches_spec(chosen, elig)[k][m],
                branches_spec(chosen, elig)[k].take(m),
            ),
    decreases 5 - chosen.len(), elig.len(),
{
    let s = branches_spec(chosen, elig)[k];
    let e0 = elig.first();
    let e1 = elig.drop_first();
    let a = search_spec(chosen.push(e0), e1);
    let b = branches_spec(chosen, e1);
    let n = chosen.len() as int;
    assert(branches_spec(chosen, elig) == a + b);
    if k < a.len() {
        lemma_search_elem(chosen.push(e0), e1, k);
        assert(s == a[k]);
        assert(s.take(n + 1) == chosen.push(e0));
        assert(s.take(n) =~= chosen) by {
            assert forall|p: int| 0 <= p < n implies s.take(n)[p] == chosen[p] by {
                assert(s.take(n + 1)[p] == chosen.push(e0)[p]);
            }
        }
        assert(s[n] == e0) by {
            assert(s.take(n + 1)[n] == chosen.push(e0)[n]);
        }
        assert forall|m: int| n <= m < 5 implies elig.contains(#[trigger] s[m]) by {
            if m == n {
                assert(elig[0] == s[m]);
            } else {
                assert(e1.contains(s[m]));
                let j = choose|j: int| 0 <= j < e1.len() && e1[j] == s[m];
                assert(elig[j + 1] == s[m]);
            }
        }
        assert forall|m: int| n <= m < 5 implies letters_disjoint(
            #[trigger] s[m],
            s.take(m),
        ) by {
            if m == n {
                assert(letters_disjoint(elig[0], chosen));
            }
        }
    } else {
        lemma_branches_elem(chosen, e1, k - a.len());
        assert(s == b[k - a.len()]);
        assert forall|m: int| n <= m < 5 implies elig.contains(#[trigger] s[m]) by {
            assert(e1.contains(s[m]));
            let j = choose|j: int| 0 <= j < e1.len() && e1[j] == s[m];
            assert(elig[j + 1] == s[m]);
        }
    }
}

/// The letters of the first `m` words of a solution built from isograms with
/// pairwise fresh letters number exactly five per word.
proof fn lemma_letters_card(s: Seq<Seq<u8>>, m: int)
    requires
        0 <= m <= s.len(),
        forall|i: int| 0 <= i < s.len() ==> spec_is_candidate(#[trigger] s[i]),
        forall|i: int| 0 <= i < s.len() ==> letters_disjoint(#[trigger] s[i], s.take(i)),
    ensures
        words_letters(s.take(m)).finite(),
        words_letters(s.take(m)).len() == 5 * m,
    decreases m,
{
    broadcast use vstd::seq_lib::seq_to_set_is_finite;

    if m == 0 {
        assert(s.take(0) =~= Seq::<Seq<u8>>::empty());
    } else {
        lemma_letters_card(s, m - 1);
        crate::letters::lemma_words_letters_take_step(s, m - 1);
        let prev = words_letters(s.take(m - 1));
        let wl = word_letters(s[m - 1]);
        assert(wl.len() == 5) by {
            s[m - 1].unique_seq_to_set();
        }
        assert(prev.disjoint(wl)) by {
            assert(letters_disjoint(s[m - 1], s.take(m - 1)));
        }
        vstd::set_lib::lemma_set_disjoint_lens(prev, wl);
    }
}

/// Every solution the search emits over a dictionary of five-letter isograms
/// is valid: five isogram words, pairwise sharing no letter, twenty-five
/// distinct letters in all.
pub proof fn lemma_solution_validity(dict: Seq<Seq<u8>>, k: int)
    requires
        all_candidates(dict),
        0 <= k < search_spec(Seq::empty(), dict).len(),
    ensures
        solution_valid(search_spec(Seq::empty(), dict)[k]),
{
    lemma_search_elem(Seq::empty(), dict, k);
    let s = search_spec(Seq::empty(), dict)[k];
    assert forall|m: int| 0 <= m < 5 implies spec_is_candidate(#[trigger] s[m]) by {
        assert(dict.contains(s[m]));
        let j = choose|j: int| 0 <= j < dict.len() && dict[j] == s[m];
        assert(spec_is_candidate(dict[j]));
    }
    assert forall|i: int, j: int| 0 <= i < j < s.len() implies word_letters(
        #[trigger] s[i],
    ).disjoint(word_letters(#[trigger] s[j])) by {
        assert(letters_disjoint(s[j], s.take(j)));
        assert forall|c: u8| word_letters(s[i]).contains(c) implies !word_letters(s[j]).contains(
            c,
        ) by {
            lemma_words_letters_membership(s.take(j), c);
            assert(s.take(j)[i].contains(c));
            assert(words_letters(s.take(j)).contains(c));
        }
    }
    assert forall|i: int| 0 <= i < s.len() implies letters_disjoint(
        #[trigger] s[i],
        s.take(i),
    ) by {}
    lemma_letters_card(s, 5);
    assert(s.take(5) =~= s);
}

/// Shape of the no-duplicates argument: the extensions two distinct emitted
/// solutions add to the same chosen prefix differ as sets of words.
proof fn lemma_search_distinct(chosen: Seq<Seq<u8>>, dict: Seq<Seq<u8>>, k1: int, k2: int)
    requires
        chosen.len() <= 5,
        dict.no_duplicates(),
        0 <= k1 < k2 < search_spec(chosen, dict).len(),
    ensures
        search_spec(chosen, dict)[k1].skip(chosen.len() as int).to_set() != search_spec(
            chosen,
            dict,
        )[k2].skip(chosen.len() as int).to_set(),
    decreases 5 - chosen.len(), dict.len() + 1,
{
    if chosen.len() == 5 {
        assert(search_spec(chosen, dict).len() == 1);
    } else {
        let elig = eligible_spec(chosen, dict);
        let pred = |w: Seq<u8>| letters_disjoint(w, chosen);
        lemma_filter_no_duplicates(dict, pred);
        assert forall|i: int| 0 <= i < elig.len() implies letters_disjoint(
            #[trigger] elig[i],
            chosen,
        ) by {
            dict.lemma_filter_pred(pred, i);
        }
        lemma_branches_distinct(chosen, elig, k1, k2);
    }
}

/// As `lemma_search_distinct`, for the branch list.
proof fn lemma_branches_distinct(chosen: Seq<Seq<u8>>, elig: Seq<Seq<u8>>, k1: int, k2: int)
    requires
        chosen.len() < 5,
        elig.no_duplicates(),
        forall|i: int| 0 <= i < elig.len() ==> letters_disjoint(#[trigger] elig[i], chosen),
        0 <= k1 < k2 < branches_spec(chosen, elig).len(),
    ensures
        branches_spec(chosen, elig)[k1].skip(chosen.len() as int).to_set() != branches_spec(
            chosen,
            elig,
        )[k2].skip(chosen.len() as int).to_set(),
    decreases 5 - chosen.len(), elig.len(),
{
    let s1 = branches_spec(chosen, elig)[k1];
    let s2 = branches_spec(chosen, elig)[k2];
    let e0 = elig.first();
    let e1 = elig.drop_first();
    let a = search_spec(chosen.push(e0), e1);
    let b = branches_spec(chosen, e1);
    let n = chosen.len() as int;
    assert(branches_spec(chosen, elig) == a + b);
    assert(!e1.contains(e0)) by {
        if e1.contains(e0) {
            let j = choose|j: int| 0 <= j < e1.len() && e1[j] == e0;
            assert(elig[j + 1] == elig[0]);
            assert(false);
        }
    }
    assert forall|i: int| 0 <= i < e1.len() implies letters_disjoint(
        #[trigger] e1[i],
        chosen,
    ) by {
        assert(e1[i] == elig[i + 1]);
    }
    if k2 < a.len() {
        lemma_search_distinct(chosen.push(e0), e1, k1, k2);
        lemma_search_elem(chosen.push(e0), e1, k1);
        lemma_search_elem(chosen.push(e0), e1, k2);
        let x1 = s1.skip(n + 1).to_set();
        let x2 = s2.skip(n + 1).to_set();
        assert(s1.skip(n + 1).to_set() != s2.skip(n + 1).to_set());
        lemma_ext_set_step(s1, n, e0, e1);
        lemma_ext_set_step(s2, n, e0, e1);
        let c = lemma_sets_differ_without(x1, x2, e0);
        assert(s1.skip(n).to_set() == x1.insert(e0));
        assert(s2.skip(n).to_set() == x2.insert(e0));
        assert(x1.insert(e0).contains(c) != x2.insert(e0).contains(c));
    } else if k1 < a.len() {
        lemma_search_elem(chosen.push(e0), e1, k1);
        lemma_branches_elem(chosen, e1, k2 - a.len());
        assert(s1.take(n + 1) == chosen.push(e0));
        assert(s1[n] == e0) by {
            assert(s1.take(n + 1)[n] == chosen.push(e0)[n]);
        }
        assert(s1.skip(n).to_set().contains(e0)) by {
            assert(s1.skip(n)[0] == s1[n]);
            assert(s1.skip(n).contains(e0));
        }
        assert(!s2.skip(n).to_set().contains(e0)) by {
            if s2.skip(n).contains(e0) {
                let q = choose|q: int| 0 <= q < s2.skip(n).len() && #[trigger] s2.skip(n)[q] == e0;
                assert(s2[q + n] == e0);
                assert(e1.contains(s2[q + n]));
                assert(false);
            }
        }
    } else {
        lemma_branches_distinct(chosen, e1, k1 - a.len(), k2 - a.len());
    }
}

/// For an emitted solution whose word at position `n` is the first eligible
/// word, the set of words from position `n` on is that word joined with the
/// set of the words after it.
proof fn lemma_ext_set_step(s: Seq<Seq<u8>>, n: int, e0: Seq<u8>, e1: Seq<Seq<u8>>)
    requires
        0 <= n < s.len(),
        s[n] == e0,
    ensures
        s.skip(n).to_set() == s.skip(n + 1).to_set().insert(e0),
{
    assert(s.skip(n) =~= seq![e0] + s.skip(n + 1));
    assert forall|x: Seq<u8>|
        s.skip(n).to_set().contains(x) == s.skip(n + 1).to_set().insert(e0).contains(x) by {
        if s.skip(n).contains(x) {
            let q = choose|q: int| 0 <= q < s.skip(n).len() && #[trigger] s.skip(n)[q] == x;
            if q == 0 {
                assert(x == e0);
            } else {
                assert(s.skip(n + 1)[q - 1] == x);
                assert(s.skip(n + 1).contains(x));
            }
        }
        if x == e0 {
            assert(s.skip(n)[0] == e0);
            assert(s.skip(n).contains(x));
        }
        if s.skip(n + 1).contains(x) {
            let q = choose|q: int| 0 <= q < s.skip(n + 1).len() && #[trigger] s.skip(n + 1)[q] == x;
            assert(s.skip(n)[q + 1] == x);
            assert(s.skip(n).contains(x));
        }
    }
    assert(s.skip(n).to_set() =~= s.skip(n + 1).to_set().insert(e0));
}

/// Two different sets, neither holding `x`, still differ after `x` joins
/// both; returns a witness element telling them apart.
proof fn lemma_sets_differ_without(x1: Set<Seq<u8>>, x2: Set<Seq<u8>>, x: Seq<u8>) -> (c: Seq<u8>)
    requires
        x1 != x2,
        !x1.contains(x),
        !x2.contains(x),
    ensures
        x1.insert(x).contains(c) != x2.insert(x).contains(c),
{
    assert(!(x1 =~= x2));
    let c = choose|c: Seq<u8>| x1.contains(c) != x2.contains(c);
    assert(c != x);
    c
}

/// No two emitted solutions are the same set of five words, over a dictionary
/// without repeated words.
pub proof fn lemma_no_duplicate_solutions(dict: Seq<Seq<u8>>, k1: int, k2: int)
    requires
        dict.no_duplicates(),
        0 <= k1 < k2 < search_spec(Seq::empty(), dict).len(),
    ensures
        search_spec(Seq::empty(), dict)[k1].to_set() != search_spec(Seq::empty(), dict)[k2].to_set(),
{
    lemma_search_distinct(Seq::empty(), dict, k1, k2);
    assert(search_spec(Seq::empty(), dict)[k1].skip(0) =~= search_spec(Seq::empty(), dict)[k1]);
    assert(search_spec(Seq::empty(), dict)[k2].skip(0) =~= search_spec(Seq::empty(), dict)[k2]);
}


/// The words listed by `idx` extend `chosen` in dictionary order, each
/// sharing no letter with anything before it.
spec fn extension_ok(
    chosen: Seq<Seq<u8>>,
    dict: Seq<Seq<u8>>,
    ext: Seq<Seq<u8>>,
    idx: Seq<int>,
) -> bool {
    &&& idx.len() == ext.len()
    &&& (forall|t: int| 0 <= t < idx.len() ==> 0 <= #[trigger] idx[t] < dict.len())
    &&& (forall|t: int| 0 <= t < idx.len() - 1 ==> #[trigger] idx[t] < idx[t + 1])
    &&& (forall|t: int| 0 <= t < ext.len() ==> #[trigger] ext[t] == dict[idx[t]])
    &&& (forall|t: int|
        0 <= t < ext.len() ==> letters_disjoint(#[trigger] ext[t], chosen + ext.take(t)))
}

/// Completeness: the search emits every forward extension of the chosen
/// prefix whose words share no letters.
proof fn lemma_search_complete(
    chosen: Seq<Seq<u8>>,
    dict: Seq<Seq<u8>>,
    ext: Seq<Seq<u8>>,
    idx: Seq<int>,
)
    requires
        chosen.len() + ext.len() == 5,
        extension_ok(chosen, dict, ext, idx),
    ensures
        search_spec(chosen, dict).contains(chosen + ext),
    decreases ext.len(), dict.len() + 1,
{
    if ext.len() == 0 {
        assert(chosen + ext =~= chosen);
        assert(search_spec(chosen, dict)[0] == chosen);
    } else {
        let pred = |w: Seq<u8>| letters_disjoint(w, chosen);
        let elig = eligible_spec(chosen, dict);
        assert forall|t: int| 0 <= t < ext.len() implies pred(#[trigger] ext[t]) by {
            assert(letters_disjoint(ext[t], chosen + ext.take(t)));
            assert forall|c: u8| word_letters(ext[t]).contains(c) implies !words_letters(
                chosen,
            ).contains(c) by {
                lemma_words_letters_membership(chosen, c);
                if words_letters(chosen).contains(c) {
                    let j = choose|j: int|
                        0 <= j < chosen.len() && #[trigger] chosen[j].contains(c);
                    assert((chosen + ext.take(t))[j].contains(c));
                    lemma_words_letters_membership(chosen + ext.take(t), c);
                    assert(false);
                }
            }
        }
        let jdx = Seq::new(idx.len(), |t: int| dict.take(idx[t]).filter(pred).len() as int);
        assert forall|t: int| 0 <= t < jdx.len() implies 0 <= #[trigger] jdx[t] < elig.len()
            && elig[jdx[t]] == ext[t] by {
            assert(ext[t] == dict[idx[t]]);
            assert(pred(ext[t]));
            lemma_filter_split(dict, pred, idx[t]);
            let pre = dict.take(idx[t]).filter(pred);
            assert(elig == pre + seq![dict[idx[t]]] + dict.skip(idx[t] + 1).filter(pred));
            assert(elig[pre.len() as int] == dict[idx[t]]);
        }
        assert forall|t: int| 0 <= t < jdx.len() - 1 implies #[trigger] jdx[t] < jdx[t + 1] by {
            let i1 = idx[t];
            let i2 = idx[t + 1];
            assert(dict.take(i2) =~= (dict.take(i1) + seq![dict[i1]]) + dict.subrange(i1 + 1, i2));
            Seq::filter_distributes_over_add(
                dict.take(i1) + seq![dict[i1]],
                dict.subrange(i1 + 1, i2),
                pred,
            );
            Seq::filter_distributes_over_add(dict.take(i1), seq![dict[i1]], pred);
            assert(seq![dict[i1]] =~= Seq::<Seq<u8>>::empty().push(dict[i1]));
            crate::seqs::lemma_filter_push(Seq::<Seq<u8>>::empty(), dict[i1], pred);
            assert(Seq::<Seq<u8>>::empty().filter(pred) == Seq::<Seq<u8>>::empty()) by {
                reveal(Seq::filter);
            }
            assert(ext[t] == dict[i1]);
            assert(pred(ext[t]));
            assert(seq![dict[i1]].filter(pred).len() == 1);
        }
        lemma_branches_complete(chosen, elig, ext, jdx);
    }
}

/// As `lemma_search_complete`, for the branch list.
proof fn lemma_branches_complete(
    chosen: Seq<Seq<u8>>,
    elig: Seq<Seq<u8>>,
    ext: Seq<Seq<u8>>,
    jdx: Seq<int>,
)
    requires
        chosen.len() < 5,
        chosen.len() + ext.len() == 5,
        ext.len() >= 1,
        jdx.len() == ext.len(),
        forall|t: int| 0 <= t < jdx.len() ==> 0 <= #[trigger] jdx[t] < elig.len(),
        forall|t: int| 0 <= t < jdx.len() - 1 ==> #[trigger] jdx[t] < jdx[t + 1],
        forall|t: int| 0 <= t < ext.len() ==> #[trigger] ext[t] == elig[jdx[t]],
        forall|t: int|
            0 <= t < ext.len() ==> letters_disjoint(#[trigger] ext[t], chosen + ext.take(t)),
    ensures
        branches_spec(chosen, elig).contains(chosen + ext),
    decreases ext.len(), elig.len(),
{
    let e0 = elig.first();
    let e1 = elig.drop_first();
    let a = search_spec(chosen.push(e0), e1);
    let b = branches_spec(chosen, e1);
    assert(0 <= jdx[0] < elig.len());
    assert(branches_spec(chosen, elig) == a + b);
    if jdx[0] == 0 {
        let ext2 = ext.drop_first();
        let jdx2 = Seq::new((jdx.len() - 1) as nat, |t: int| jdx[t + 1] - 1);
        assert(ext[0] == e0);
        assert forall|t: int| 0 <= t < jdx2.len() implies 0 <= #[trigger] jdx2[t] < e1.len()
            && ext2[t] == e1[jdx2[t]] by {
            assert(jdx[t] < jdx[t + 1]);
            assert(e1[jdx[t + 1] - 1] == elig[jdx[t + 1]]);
        }
        assert forall|t: int| 0 <= t < ext2.len() implies letters_disjoint(
            #[trigger] ext2[t],
            chosen.push(e0) + ext2.take(t),
        ) by {
            assert(chosen.push(e0) + ext2.take(t) =~= chosen + ext.take(t + 1));
            assert(letters_disjoint(ext[t + 1], chosen + ext.take(t + 1)));
            assert(ext2[t] == ext[t + 1]);
        }
        lemma_search_complete(chosen.push(e0), e1, ext2, jdx2);
        assert(chosen.push(e0) + ext2 =~= chosen + ext);
        let p = choose|p: int| 0 <= p < a.len() && #[trigger] a[p] == chosen.push(e0) + ext2;
        assert((a + b)[p] == chosen + ext);
        assert(branches_spec(chosen, elig).contains(chosen + ext));
    } else {
        let jdx2 = Seq::new(jdx.len(), |t: int| jdx[t] - 1);
        assert forall|t: int| 0 <= t < jdx2.len() implies 0 <= #[trigger] jdx2[t] < e1.len()
            && ext[t] == e1[jdx2[t]] by {
            if t > 0 {
                lemma_jdx_monotone(jdx, 0, t);
            }
            assert(jdx[t] >= 1);
            assert(e1[jdx[t] - 1] == elig[jdx[t]]);
        }
        lemma_branches_complete(chosen, e1, ext, jdx2);
        let p = choose|p: int| 0 <= p < b.len() && #[trigger] b[p] == chosen + ext;
        assert((a + b)[a.len() + p] == chosen + ext);
        assert(branches_spec(chosen, elig).contains(chosen + ext));
    }
}

/// A strictly increasing integer sequence grows at least by the index gap.
proof fn lemma_jdx_monotone(jdx: Seq<int>, u: int, v: int)
    requires
        0 <= u < v < jdx.len(),
        forall|t: int| 0 <= t < jdx.len() - 1 ==> #[trigger] jdx[t] < jdx[t + 1],
    ensures
        jdx[u] <= jdx[v] - (v - u),
    decreases v - u,
{
    if v == u + 1 {
        assert(jdx[u] < jdx[u + 1]);
    } else {
        lemma_jdx_monotone(jdx, u, v - 1);
        assert(jdx[v - 1] < jdx[v]);
    }
}

/// The search misses nothing: any five dictionary words at ascending
/// positions whose letter sets are pairwise disjoint appear among the emitted
/// solutions.
pub proof fn lemma_completeness(dict: Seq<Seq<u8>>, idx: Seq<int>)
    requires
        idx.len() == 5,
        forall|t: int| 0 <= t < 5 ==> 0 <= #[trigger] idx[t] < dict.len(),
        forall|t: int| 0 <= t < 4 ==> #[trigger] idx[t] < idx[t + 1],
        forall|t: int, u: int|
            0 <= t < u < 5 ==> word_letters(#[trigger] dict[idx[t]]).disjoint(
                word_letters(#[trigger] dict[idx[u]]),
            ),
    ensures
        search_spec(Seq::empty(), dict).contains(Seq::new(5, |t: int| dict[idx[t]])),
{
    let ext = Seq::new(5, |t: int| dict[idx[t]]);
    assert forall|t: int| 0 <= t < 5 implies letters_disjoint(
        #[trigger] ext[t],
        Seq::<Seq<u8>>::empty() + ext.take(t),
    ) by {
        assert(Seq::<Seq<u8>>::empty() + ext.take(t) =~= ext.take(t));
        assert forall|c: u8| word_letters(ext[t]).contains(c) implies !words_letters(
            ext.take(t),
        ).contains(c) by {
            lemma_words_letters_membership(ext.take(t), c);
            if words_letters(ext.take(t)).contains(c) {
                let u = choose|u: int|
                    0 <= u < ext.take(t).len() && #[trigger] ext.take(t)[u].contains(c);
                assert(word_letters(dict[idx[u]]).disjoint(word_letters(dict[idx[t]])));
                assert(word_letters(ext[u]).contains(c));
                assert(false);
            }
        }
    }
    lemma_search_complete(Seq::empty(), dict, ext, idx);
    assert(Seq::<Seq<u8>>::empty() + ext =~= ext);
}

/// A search that still needs more words than the dictionary holds emits
/// nothing.
proof fn lemma_search_short(chosen: Seq<Seq<u8>>, dict: Seq<Seq<u8>>)
    requires
        chosen.len() < 5,
        dict.len() < 5 - chosen.len(),
    ensures
        search_spec(chosen, dict).len() == 0,
    decreases 5 - chosen.len(), dict.len() + 1,
{
    let elig = eligible_spec(chosen, dict);
    lemma_branches_short(chosen, elig);
}

/// As `lemma_search_short`, for the branch list.
proof fn lemma_branches_short(chosen: Seq<Seq<u8>>, elig: Seq<Seq<u8>>)
    requires
        chosen.len() < 5,
        elig.len() < 5 - chosen.len(),
    ensures
        branches_spec(chosen, elig).len() == 0,
    decreases 5 - chosen.len(), elig.len(),
{
    if elig.len() > 0 {
        let e0 = elig.first();
        let e1 = elig.drop_first();
        lemma_search_short(chosen.push(e0), e1);
        lemma_branches_short(chosen, e1);
    }
}

/// An empty dictionary, or one with fewer than five words, yields no
/// solutions.
pub proof fn lemma_degenerate_input(dict: Seq<Seq<u8>>)
    requires
        dict.len() < 5,
    ensures
        search_spec(Seq::empty(), dict).len() == 0,
{
    lemma_search_short(Seq::empty(), dict);
}

} // verus!
