//! Small general lemmas about sequences that several modules share.

use vstd::prelude::*;

verus! {

/// Filtering a sequence extended by one element keeps the old filtered
/// sequence and appends the element exactly when it satisfies the predicate.
pub proof fn lemma_filter_push<A>(s: Seq<A>, x: A, pred: spec_fn(A) -> bool)
    ensures
        pred(x) ==> s.push(x).filter(pred) == s.filter(pred).push(x),
        !pred(x) ==> s.push(x).filter(pred) == s.filter(pred),
{
    reveal(Seq::filter);
    assert(s.push(x).drop_last() =~= s);
    assert(s.push(x).last() == x);
}

/// Taking past a concatenation's left part keeps it whole and takes from the
/// right part.
pub proof fn lemma_take_of_add<A>(x: Seq<A>, y: Seq<A>, k: int)
    requires
        0 <= k <= y.len(),
    ensures
        (x + y).take(x.len() + k) == x + y.take(k),
{
    assert((x + y).take(x.len() + k) =~= x + y.take(k));
}

/// Taking no more than a concatenation's left part ignores the right part.
pub proof fn lemma_take_of_add_left<A>(x: Seq<A>, y: Seq<A>, k: int)
    requires
        0 <= k <= x.len(),
    ensures
        (x + y).take(k) == x.take(k),
{
    assert((x + y).take(k) =~= x.take(k));
}

/// A sequence splits, around a kept element, into the filtered prefix, the
/// element, and the filtered suffix.
pub proof fn lemma_filter_split<A>(s: Seq<A>, pred: spec_fn(A) -> bool, i: int)
    requires
        0 <= i < s.len(),
        pred(s[i]),
    ensures
        s.filter(pred) == s.take(i).filter(pred) + seq![s[i]] + s.skip(i + 1).filter(pred),
{
    assert(s =~= (s.take(i) + seq![s[i]]) + s.skip(i + 1));
    Seq::filter_distributes_over_add(s.take(i) + seq![s[i]], s.skip(i + 1), pred);
    Seq::filter_distributes_over_add(s.take(i), seq![s[i]], pred);
    assert(seq![s[i]] =~= Seq::<A>::empty().push(s[i]));
    lemma_filter_push(Seq::<A>::empty(), s[i], pred);
    assert(Seq::<A>::empty().filter(pred) == Seq::<A>::empty()) by {
        reveal(Seq::filter);
    }
    assert(Seq::<A>::empty().push(s[i]) =~= Seq::<A>::empty() + seq![s[i]]);
    assert(seq![s[i]].filter(pred) == Seq::<A>::empty().push(s[i]).filter(pred));
    assert(Seq::<A>::empty().filter(pred).push(s[i]) =~= seq![s[i]]);
}

/// Filtering keeps a duplicate-free sequence duplicate-free.
pub proof fn lemma_filter_no_duplicates<A>(s: Seq<A>, pred: spec_fn(A) -> bool)
    requires
        s.no_duplicates(),
    ensures
        s.filter(pred).no_duplicates(),
    decreases s.len(),
{
    reveal(Seq::filter);
    if s.len() > 0 {
        let rest = s.drop_last();
        assert(rest.no_duplicates());
        lemma_filter_no_duplicates(rest, pred);
        if pred(s.last()) {
            if rest.filter(pred).contains(s.last()) {
                rest.lemma_filter_contains_rev(pred, s.last());
                let k = choose|k: int| 0 <= k < rest.len() && rest[k] == s.last();
                assert(s[k] == s[s.len() - 1]);
                assert(false);
            }
            let out = rest.filter(pred).push(s.last());
            assert forall|i: int, j: int|
                0 <= i < out.len() && 0 <= j < out.len() && i != j implies out[i] != out[j] by {
                let f = rest.filter(pred);
                if i < f.len() {
                    assert(out[i] == f[i]);
                    assert(f.contains(f[i]));
                } else {
                    assert(out[i] == s.last());
                }
                if j < f.len() {
                    assert(out[j] == f[j]);
                    assert(f.contains(f[j]));
                } else {
                    assert(out[j] == s.last());
                }
            }
        }
    }
}

} // verus!
