//! Letter-set membership: given the words already chosen, answer "does this
//! candidate letter appear in any of them?". Three interchangeable
//! representations are provided behind the [`Letters`] trait: a concatenated
//! byte string scanned linearly, a hashed set of letters, and a 26-bit mask.

use vstd::prelude::*;

verus! {

/// The byte value of ASCII 'a'.
pub const LOWER_A: u8 = 97;

/// The byte value of ASCII 'z'.
pub const LOWER_Z: u8 = 122;

/// A letter is a lowercase ASCII letter byte.
pub open spec fn is_lower(c: u8) -> bool {
    LOWER_A <= c && c <= LOWER_Z
}

/// Every byte of the word is a lowercase ASCII letter.
pub open spec fn word_lower(w: Seq<u8>) -> bool {
    forall|i: int| 0 <= i < w.len() ==> is_lower(#[trigger] w[i])
}

/// Every word of the list consists of lowercase ASCII letters.
pub open spec fn all_lower(ws: Seq<Seq<u8>>) -> bool {
    forall|i: int| 0 <= i < ws.len() ==> word_lower(#[trigger] ws[i])
}

/// The set of letters occurring in a single word.
pub open spec fn word_letters(w: Seq<u8>) -> Set<u8> {
    w.to_set()
}

/// The union of the letters of all words in the list.
pub open spec fn words_letters(ws: Seq<Seq<u8>>) -> Set<u8>
    decreases ws.len(),
{
    if ws.len() == 0 {
        Set::empty()
    } else {
        words_letters(ws.drop_last()) + word_letters(ws.last())
    }
}

/// A letter is in the union iff some word of the list contains it.
pub proof fn lemma_words_letters_membership(ws: Seq<Seq<u8>>, c: u8)
    ensures
        words_letters(ws).contains(c) <==> exists|j: int|
            0 <= j < ws.len() && #[trigger] ws[j].contains(c),
    decreases ws.len(),
{
    if ws.len() > 0 {
        lemma_words_letters_membership(ws.drop_last(), c);
        if words_letters(ws).contains(c) {
            if word_letters(ws.last()).contains(c) {
                assert(ws[ws.len() - 1].contains(c));
            }
        }
        if exists|j: int| 0 <= j < ws.len() && #[trigger] ws[j].contains(c) {
            let j = choose|j: int| 0 <= j < ws.len() && #[trigger] ws[j].contains(c);
            if j < ws.len() - 1 {
                assert(ws.drop_last()[j].contains(c));
            }
        }
    }
}

/// A strategy for answering letter-membership queries about a list of words.
pub trait Letters: Sized {
    /// The set of letters this value represents.
    spec fn letters(&self) -> Set<u8>;

    /// Builds the letter set of the given word list.
    fn new(words: &Vec<Vec<u8>>) -> (r: Self)
        requires
            all_lower(words.deep_view()),
        ensures
            r.letters() == words_letters(words.deep_view()),
    ;

    /// Answers whether `letter` occurs in any of the words the set was built
    /// from.
    fn contains(&self, letter: u8) -> (r: bool)
        requires
            is_lower(letter),
        ensures
            r == self.letters().contains(letter),
    ;
}

/// Letter set stored as the concatenation of the words; membership is a
/// linear scan.
pub struct LettersString {
    string: Vec<u8>,
}

/// Letter set stored as a hashed set of letter bytes.
pub struct LettersSet {
    characters: std::collections::HashSet<u8>,
}

/// Letter set stored as a 26-bit mask, one bit per letter of the alphabet.
pub struct LettersInt {
    characters: u32,
}

/// The bit standing for letter `c` in a 26-bit mask.
pub open spec fn letter_bit(c: u8) -> u32 {
    1u32 << ((c - LOWER_A) as u32)
}

/// The set of lowercase letters whose bits are set in the mask.
pub open spec fn mask_letters(mask: u32) -> Set<u8> {
    Set::new(|c: u8| is_lower(c) && mask & letter_bit(c) == letter_bit(c))
}

proof fn lemma_mask_empty(c: u8)
    requires
        is_lower(c),
    ensures
        !(0u32 & letter_bit(c) == letter_bit(c)),
{
    let k = (c - LOWER_A) as u32;
    assert(!(0u32 & (1u32 << k) == (1u32 << k))) by (bit_vector)
        requires
            k < 26,
    ;
}

proof fn lemma_mask_or(m: u32, c: u8, d: u8)
    requires
        is_lower(c),
        is_lower(d),
    ensures
        ((m | letter_bit(c)) & letter_bit(d) == letter_bit(d)) <==> (m & letter_bit(d)
            == letter_bit(d) || c == d),
{
    let k1 = (c - LOWER_A) as u32;
    let k2 = (d - LOWER_A) as u32;
    assert(((m | (1u32 << k1)) & (1u32 << k2) == (1u32 << k2)) <==> (m & (1u32 << k2) == (1u32
        << k2) || k1 == k2)) by (bit_vector)
        requires
            k1 < 26 && k2 < 26,
    ;
}

/// `words_letters` over a list one word longer adds that word's letters.
pub proof fn lemma_words_letters_take_step(ws: Seq<Seq<u8>>, i: int)
    requires
        0 <= i < ws.len(),
    ensures
        words_letters(ws.take(i + 1)) == words_letters(ws.take(i)) + word_letters(ws[i]),
{
    assert(ws.take(i + 1).drop_last() =~= ws.take(i));
    assert(ws.take(i + 1).last() == ws[i]);
}

impl Letters for LettersString {
    closed spec fn letters(&self) -> Set<u8> {
        word_letters(self.string@)
    }

    fn new(words: &Vec<Vec<u8>>) -> (r: Self) {
        let ghost full = words.deep_view();
        let mut string: Vec<u8> = Vec::new();
        proof {
            assert(string@.to_set() =~= words_letters(full.take(0)));
        }
        let mut i: usize = 0;
        while i < words.len()
            invariant
                i <= words.len(),
                full == words.deep_view(),
                full.len() == words.len(),
                string@.to_set() == words_letters(full.take(i as int)),
            decreases words.len() - i,
        {
            let w = &words[i];
            proof {
                assert(full[i as int] =~= w@);
            }
            let mut j: usize = 0;
            while j < w.len()
                invariant
                    j <= w.len(),
                    i < words.len(),
                    full == words.deep_view(),
                    full.len() == words.len(),
                    w@ == full[i as int],
                    string@.to_set() == words_letters(full.take(i as int)) + w@.take(
                        j as int,
                    ).to_set(),
                decreases w.len() - j,
            {
                broadcast use vstd::prelude::Seq::lemma_push_to_set_commute;

                let ghost old_s = string@;
                string.push(w[j]);
                proof {
                    assert(w@.take(j + 1) =~= w@.take(j as int).push(w@[j as int]));
                    assert(string@.to_set() =~= old_s.to_set().insert(w@[j as int]));
                    assert(words_letters(full.take(i as int)) + w@.take(j + 1).to_set()
                        =~= words_letters(full.take(i as int)) + w@.take(j as int).to_set().insert(
                        w@[j as int],
                    ));
                }
                j += 1;
            }
            proof {
                lemma_words_letters_take_step(full, i as int);
                assert(w@.take(w@.len() as int) =~= w@);
            }
            i += 1;
        }
        proof {
            assert(full.take(words.len() as int) =~= full);
        }
        LettersString { string }
    }

    fn contains(&self, letter: u8) -> (r: bool) {
        let mut i: usize = 0;
        while i < self.string.len()
            invariant
                i <= self.string.len(),
                forall|k: int| 0 <= k < i ==> self.string@[k] != letter,
            decreases self.string.len() - i,
        {
            if self.string[i] == letter {
                return true;
            }
            i += 1;
        }
        false
    }
}

impl Letters for LettersSet {
    closed spec fn letters(&self) -> Set<u8> {
        self.characters@
    }

    fn new(words: &Vec<Vec<u8>>) -> (r: Self) {
        broadcast use vstd::std_specs::hash::group_hash_axioms;

        let ghost full = words.deep_view();
        let mut characters: std::collections::HashSet<u8> = std::collections::HashSet::new();
        proof {
            assert(characters@ =~= words_letters(full.take(0)));
        }
        let mut i: usize = 0;
        while i < words.len()
            invariant
                i <= words.len(),
                full == words.deep_view(),
                full.len() == words.len(),
                characters@ == words_letters(full.take(i as int)),
            decreases words.len() - i,
        {
            let w = &words[i];
            proof {
                assert(full[i as int] =~= w@);
            }
            let mut j: usize = 0;
            while j < w.len()
                invariant
                    j <= w.len(),
                    i < words.len(),
                    full == words.deep_view(),
                    full.len() == words.len(),
                    w@ == full[i as int],
                    characters@ == words_letters(full.take(i as int)) + w@.take(
                        j as int,
                    ).to_set(),
                decreases w.len() - j,
            {
                broadcast use vstd::prelude::Seq::lemma_push_to_set_commute;

                characters.insert(w[j]);
                proof {
                    assert(w@.take(j + 1) =~= w@.take(j as int).push(w@[j as int]));
                    assert(words_letters(full.take(i as int)) + w@.take(j + 1).to_set()
                        =~= (words_letters(full.take(i as int)) + w@.take(j as int).to_set()).insert(
                        w@[j as int],
                    ));
                }
                j += 1;
            }
            proof {
                lemma_words_letters_take_step(full, i as int);
                assert(w@.take(w@.len() as int) =~= w@);
            }
            i += 1;
        }
        proof {
            assert(full.take(words.len() as int) =~= full);
        }
        LettersSet { characters }
    }

    fn contains(&self, letter: u8) -> (r: bool) {
        broadcast use vstd::std_specs::hash::group_hash_axioms;

        self.characters.contains(&letter)
    }
}

impl Letters for LettersInt {
    closed spec fn letters(&self) -> Set<u8> {
        mask_letters(self.characters)
    }

    fn new(words: &Vec<Vec<u8>>) -> (r: Self) {
        let ghost full = words.deep_view();
        let mut cs: u32 = 0;
        proof {
            assert forall|d: u8| !mask_letters(0u32).contains(d) by {
                if is_lower(d) {
                    lemma_mask_empty(d);
                }
            }
            assert(mask_letters(0u32) =~= words_letters(full.take(0)));
        }
        let mut i: usize = 0;
        while i < words.len()
            invariant
                i <= words.len(),
                full == words.deep_view(),
                full.len() == words.len(),
                all_lower(full),
                mask_letters(cs) == words_letters(full.take(i as int)),
            decreases words.len() - i,
        {
            let w = &words[i];
            proof {
                assert(full[i as int] =~= w@);
            }
            let mut j: usize = 0;
            while j < w.len()
                invariant
                    j <= w.len(),
                    i < words.len(),
                    full == words.deep_view(),
                    full.len() == words.len(),
                    all_lower(full),
                    w@ == full[i as int],
                    mask_letters(cs) == words_letters(full.take(i as int)) + w@.take(
                        j as int,
                    ).to_set(),
                decreases w.len() - j,
            {
                broadcast use vstd::prelude::Seq::lemma_push_to_set_commute;

                let c = w[j];
                proof {
                    assert(is_lower(full[i as int][j as int]));
                }
                let ghost old_cs = cs;
                cs = cs | (1u32 << ((c - LOWER_A) as u32));
                proof {
                    assert(cs == old_cs | letter_bit(c));
                    assert forall|d: u8|
                        mask_letters(cs).contains(d) == mask_letters(old_cs).insert(c).contains(
                            d,
                        ) by {
                        if is_lower(d) {
                            lemma_mask_or(old_cs, c, d);
                        }
                    }
                    assert(mask_letters(cs) =~= mask_letters(old_cs).insert(c));
                    assert(w@.take(j + 1) =~= w@.take(j as int).push(w@[j as int]));
                    assert(words_letters(full.take(i as int)) + w@.take(j + 1).to_set()
                        =~= (words_letters(full.take(i as int)) + w@.take(j as int).to_set()).insert(
                        c,
                    ));
                }
                j += 1;
            }
            proof {
                lemma_words_letters_take_step(full, i as int);
                assert(w@.take(w@.len() as int) =~= w@);
            }
            i += 1;
        }
        proof {
            assert(full.take(words.len() as int) =~= full);
        }
        LettersInt { characters: cs }
    }

    fn contains(&self, letter: u8) -> (r: bool) {
        let i = 1u32 << ((letter - LOWER_A) as u32);
        let r = self.characters & i == i;
        proof {
            assert(i == letter_bit(letter));
        }
        r
    }
}

/// The three letter-set strategies are interchangeable: built from the same
/// word list, they answer every membership query alike.
pub proof fn lemma_letter_set_equivalence(
    a: LettersString,
    b: LettersSet,
    c: LettersInt,
    ws: Seq<Seq<u8>>,
    letter: u8,
)
    requires
        a.letters() == words_letters(ws),
        b.letters() == words_letters(ws),
        c.letters() == words_letters(ws),
    ensures
        a.letters().contains(letter) == b.letters().contains(letter),
        b.letters().contains(letter) == c.letters().contains(letter),
{
}

} // verus!
