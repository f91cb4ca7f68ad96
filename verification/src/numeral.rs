//! Bijective numeration over an alphabet of words.
//!
//! In bijective base `m` a numeral is a finite sequence of digits `0..m`, a
//! digit `d` counting `d + 1` times the weight of its place. There is no digit
//! for zero, so every natural number has exactly one numeral and every digit
//! sequence is the numeral of exactly one number: the empty sequence of 0,
//! then the `m` one-digit numerals, then the `m * m` two-digit ones, and so on.
//! Numerals are written most significant digit first, so that among numerals
//! of one length the smaller number has the smaller digit at the first place
//! where two of them differ. Spelling each digit by the word at that index
//! turns the numbering of digit sequences into a numbering of the texts that
//! the alphabet can form: by number of words, then by the order of the
//! alphabet.

use vstd::arithmetic::div_mod::{
    lemma_div_nonincreasing, lemma_fundamental_div_mod, lemma_fundamental_div_mod_converse,
    lemma_mod_bound,
};
use vstd::prelude::*;

verus! {

/// The numeral of `n` in bijective base `m`, most significant digit first.
pub open spec fn digits(n: nat, m: nat) -> Seq<nat>
    decreases n,
{
    if n == 0 || m == 0 {
        Seq::empty()
    } else {
        proof {
            lemma_div_nonincreasing(n - 1, m as int);
        }
        digits(((n - 1) / (m as int)) as nat, m).push(((n - 1) % (m as int)) as nat)
    }
}

/// The number that the digit sequence `ds` denotes in bijective base `m`,
/// most significant digit first.
pub open spec fn numeral_value(ds: Seq<nat>, m: nat) -> nat
    decreases ds.len(),
{
    if ds.len() == 0 {
        0
    } else {
        m * numeral_value(ds.drop_last(), m) + ds.last() + 1
    }
}

/// Every digit of `ds` is a digit of base `m`.
pub open spec fn digits_below(ds: Seq<nat>, m: nat) -> bool {
    forall|j: int| 0 <= j < ds.len() ==> ds[j] < m
}

/// `a` comes before `b` where shorter sequences come first and sequences of
/// one length are ordered by the first digit in which they differ.
pub open spec fn shortlex_before(a: Seq<nat>, b: Seq<nat>) -> bool {
    ||| a.len() < b.len()
    ||| a.len() == b.len() && exists|k: int|
        0 <= k < a.len() && #[trigger] a.take(k) == b.take(k) && a[k] < b[k]
}

/// The text that `ds` spells: the words at its digits, one after the other.
pub open spec fn spell(ds: Seq<nat>, alphabet: Seq<Seq<char>>) -> Seq<char>
    decreases ds.len(),
{
    if ds.len() == 0 {
        Seq::empty()
    } else {
        alphabet[ds[0] as int] + spell(ds.skip(1), alphabet)
    }
}

/// The text with number `n` over `alphabet`: what the numeral of `n` spells.
/// Shorter texts have smaller numbers, and texts of as many words are
/// numbered in the order of their first differing word in the alphabet.
pub open spec fn encode_string(n: nat, alphabet: Seq<Seq<char>>) -> Seq<char> {
    spell(digits(n, alphabet.len()), alphabet)
}

/// The words of a slice of string slices as sequences of characters.
pub open spec fn alphabet_of(words: Seq<&str>) -> Seq<Seq<char>> {
    Seq::new(words.len(), |i: int| words[i]@)
}

/// A numeral with one more digit `d` at its end spells what it spelled before
/// and then the word at `d`.
pub proof fn lemma_spell_push(ds: Seq<nat>, d: nat, alphabet: Seq<Seq<char>>)
    ensures
        spell(ds.push(d), alphabet) == spell(ds, alphabet) + alphabet[d as int],
    decreases ds.len(),
{
    let longer = ds.push(d);
    if ds.len() == 0 {
        assert(longer[0] == d);
        assert(longer.skip(1) =~= Seq::<nat>::empty());
        assert(spell(longer.skip(1), alphabet) =~= Seq::<char>::empty());
        assert(spell(ds, alphabet) =~= Seq::<char>::empty());
        assert(alphabet[d as int] + Seq::<char>::empty() =~= Seq::<char>::empty()
            + alphabet[d as int]);
    } else {
        lemma_spell_push(ds.skip(1), d, alphabet);
        assert(longer.skip(1) =~= ds.skip(1).push(d));
        assert(alphabet[ds[0] as int] + (spell(ds.skip(1), alphabet) + alphabet[d as int]) =~= (
        alphabet[ds[0] as int] + spell(ds.skip(1), alphabet)) + alphabet[d as int]);
    }
}

/// The numeral of a positive number: the numeral of what is left above its
/// lowest digit, then that digit.
pub proof fn lemma_digits_step(n: nat, m: nat)
    requires
        n > 0,
        m > 0,
    ensures
        (n - 1) / (m as int) >= 0,
        (n - 1) / (m as int) < n,
        0 <= (n - 1) % (m as int) < m,
        digits(n, m) == digits(((n - 1) / (m as int)) as nat, m).push(
            ((n - 1) % (m as int)) as nat,
        ),
{
    lemma_mod_bound(n - 1, m as int);
    lemma_fundamental_div_mod(n - 1, m as int);
    lemma_div_nonincreasing(n - 1, m as int);
    assert((n - 1) / (m as int) >= 0) by (nonlinear_arith)
        requires
            n - 1 >= 0,
            m > 0,
    ;
}

/// The numeral of `n` uses digits of the base only, and has a digit unless `n`
/// is 0: the text with number `n` is made of words of the alphabet, of at
/// least one unless `n` is 0.
pub proof fn lemma_digits_below(n: nat, m: nat)
    requires
        m > 0,
    ensures
        digits_below(digits(n, m), m),
        n == 0 <==> digits(n, m).len() == 0,
    decreases n,
{
    if n > 0 {
        lemma_digits_step(n, m);
        lemma_digits_below(((n - 1) / (m as int)) as nat, m);
    }
}

/// The numeral of `n` denotes `n`.
pub proof fn lemma_value_of_digits(n: nat, m: nat)
    requires
        m > 0,
    ensures
        numeral_value(digits(n, m), m) == n,
    decreases n,
{
    if n > 0 {
        let d = ((n - 1) % (m as int)) as nat;
        let q = ((n - 1) / (m as int)) as nat;
        lemma_digits_step(n, m);
        lemma_value_of_digits(q, m);
        let ds = digits(n, m);
        assert(ds.last() == d);
        assert(ds.drop_last() =~= digits(q, m));
        lemma_fundamental_div_mod(n - 1, m as int);
    }
}

/// Every sequence of digits of the base is the numeral of the number that it
/// denotes: no sequence of words is left out.
pub proof fn lemma_digits_of_value(ds: Seq<nat>, m: nat)
    requires
        digits_below(ds, m),
    ensures
        digits(numeral_value(ds, m), m) == ds,
    decreases ds.len(),
{
    if ds.len() > 0 {
        let front = ds.drop_last();
        let q = numeral_value(front, m);
        let v = numeral_value(ds, m);
        assert(ds.last() < m);
        lemma_digits_of_value(front, m);
        assert(m * q == q * m) by (nonlinear_arith);
        lemma_fundamental_div_mod_converse(v - 1, m as int, q as int, ds.last() as int);
        lemma_digits_step(v, m);
        assert(front.push(ds.last()) =~= ds);
    }
}

/// Two numbers with the same numeral are one number.
pub proof fn lemma_digits_injective(n1: nat, n2: nat, m: nat)
    requires
        m > 0,
        digits(n1, m) == digits(n2, m),
    ensures
        n1 == n2,
{
    lemma_value_of_digits(n1, m);
    lemma_value_of_digits(n2, m);
}

/// The numerals come in the order of the numbers: shorter numerals first, and
/// numerals of one length in the order of the first digit in which they
/// differ. So texts are numbered by their number of words, and texts of as
/// many words by the place in the alphabet of their first differing word.
pub proof fn lemma_digits_ordered(n1: nat, n2: nat, m: nat)
    requires
        m > 0,
        n1 < n2,
    ensures
        shortlex_before(digits(n1, m), digits(n2, m)),
    decreases n2,
{
    lemma_digits_below(n1, m);
    lemma_digits_below(n2, m);
    if n1 > 0 {
        let q1 = ((n1 - 1) / (m as int)) as nat;
        let q2 = ((n2 - 1) / (m as int)) as nat;
        let d1 = ((n1 - 1) % (m as int)) as nat;
        let d2 = ((n2 - 1) % (m as int)) as nat;
        lemma_digits_step(n1, m);
        lemma_digits_step(n2, m);
        lemma_fundamental_div_mod(n1 - 1, m as int);
        lemma_fundamental_div_mod(n2 - 1, m as int);
        let f1 = digits(q1, m);
        let f2 = digits(q2, m);
        let a = digits(n1, m);
        let b = digits(n2, m);
        assert(q1 <= q2) by (nonlinear_arith)
            requires
                n1 - 1 == m * q1 + d1,
                n2 - 1 == m * q2 + d2,
                n1 < n2,
                d1 < m,
                d2 < m,
                m > 0,
        ;
        if q1 < q2 {
            lemma_digits_ordered(q1, q2, m);
            if f1.len() == f2.len() {
                let k = choose|k: int|
                    0 <= k < f1.len() && #[trigger] f1.take(k) == f2.take(k) && f1[k] < f2[k];
                assert(a.take(k) =~= f1.take(k));
                assert(b.take(k) =~= f2.take(k));
                assert(a[k] == f1[k] && b[k] == f2[k]);
            }
        } else {
            let k = f1.len() as int;
            assert(a.take(k) =~= f1);
            assert(b.take(k) =~= f2);
            assert(a[k] == d1 && b[k] == d2);
        }
    }
}

/// No word of the alphabet is empty.
pub open spec fn words_nonempty(alphabet: Seq<Seq<char>>) -> bool {
    forall|i: int| 0 <= i < alphabet.len() ==> (#[trigger] alphabet[i]).len() > 0
}

/// A text can be cut into words of the alphabet in one way at most: two
/// sequences of digits that spell the same text are the same sequence.
pub open spec fn uniquely_decodable(alphabet: Seq<Seq<char>>) -> bool {
    forall|a: Seq<nat>, b: Seq<nat>|
        digits_below(a, alphabet.len()) && digits_below(b, alphabet.len()) && #[trigger] spell(
            a,
            alphabet,
        ) == #[trigger] spell(b, alphabet) ==> a == b
}

/// The words of the alphabet are distinct and all of length `width`.
pub open spec fn fixed_width(alphabet: Seq<Seq<char>>, width: nat) -> bool {
    &&& forall|i: int| 0 <= i < alphabet.len() ==> (#[trigger] alphabet[i]).len() == width
    &&& forall|i: int, j: int|
        0 <= i < j < alphabet.len() ==> #[trigger] alphabet[i] != #[trigger] alphabet[j]
}

/// The text with number 0 is empty.
pub proof fn lemma_string_zero(alphabet: Seq<Seq<char>>)
    ensures
        encode_string(0, alphabet) == Seq::<char>::empty(),
{
}

/// Over an alphabet without an empty word, only number 0 gives the empty text.
pub proof fn lemma_string_nonempty(n: nat, alphabet: Seq<Seq<char>>)
    requires
        n > 0,
        alphabet.len() > 0,
        words_nonempty(alphabet),
    ensures
        encode_string(n, alphabet).len() > 0,
{
    let ds = digits(n, alphabet.len());
    lemma_digits_below(n, alphabet.len());
    assert(ds[0] < alphabet.len());
    assert(alphabet[ds[0] as int].len() > 0);
}

/// Every text that words of the alphabet spell has a number.
pub proof fn lemma_string_of_value(ds: Seq<nat>, alphabet: Seq<Seq<char>>)
    requires
        digits_below(ds, alphabet.len()),
    ensures
        encode_string(numeral_value(ds, alphabet.len()), alphabet) == spell(ds, alphabet),
{
    lemma_digits_of_value(ds, alphabet.len());
}

/// Over an alphabet whose texts can be cut into words in one way only, two
/// numbers with the same text are one number.
pub proof fn lemma_string_injective(n1: nat, n2: nat, alphabet: Seq<Seq<char>>)
    requires
        alphabet.len() > 0,
        uniquely_decodable(alphabet),
        encode_string(n1, alphabet) == encode_string(n2, alphabet),
    ensures
        n1 == n2,
{
    let m = alphabet.len();
    lemma_digits_below(n1, m);
    lemma_digits_below(n2, m);
    lemma_digits_injective(n1, n2, m);
}

/// Over distinct words of one nonzero length, two digit sequences that spell
/// the same text are the same sequence.
proof fn lemma_fixed_width_spell(a: Seq<nat>, b: Seq<nat>, alphabet: Seq<Seq<char>>, width: nat)
    requires
        width > 0,
        fixed_width(alphabet, width),
        digits_below(a, alphabet.len()),
        digits_below(b, alphabet.len()),
        spell(a, alphabet) == spell(b, alphabet),
    ensures
        a == b,
    decreases a.len(),
{
    if a.len() == 0 {
        if b.len() > 0 {
            assert(b[0] < alphabet.len());
            assert(alphabet[b[0] as int].len() == width);
            assert(spell(b, alphabet).len() >= width);
            assert(spell(a, alphabet).len() == 0);
        }
        assert(a =~= b);
    } else if b.len() == 0 {
        assert(a[0] < alphabet.len());
        assert(alphabet[a[0] as int].len() == width);
        assert(spell(a, alphabet).len() >= width);
        assert(spell(b, alphabet).len() == 0);
    } else {
        let wa = alphabet[a[0] as int];
        let wb = alphabet[b[0] as int];
        let ra = spell(a.skip(1), alphabet);
        let rb = spell(b.skip(1), alphabet);
        assert(a[0] < alphabet.len() && b[0] < alphabet.len());
        assert(wa.len() == width && wb.len() == width);
        assert((wa + ra).subrange(0, width as int) =~= wa);
        assert((wb + rb).subrange(0, width as int) =~= wb);
        assert((wa + ra).subrange(width as int, (wa + ra).len() as int) =~= ra);
        assert((wb + rb).subrange(width as int, (wb + rb).len() as int) =~= rb);
        assert(a[0] == b[0]);
        assert forall|j: int| 0 <= j < a.skip(1).len() implies a.skip(1)[j] < alphabet.len() by {
            assert(a.skip(1)[j] == a[j + 1]);
        }
        assert forall|j: int| 0 <= j < b.skip(1).len() implies b.skip(1)[j] < alphabet.len() by {
            assert(b.skip(1)[j] == b[j + 1]);
        }
        lemma_fixed_width_spell(a.skip(1), b.skip(1), alphabet, width);
        assert(a =~= seq![a[0]] + a.skip(1));
        assert(b =~= seq![b[0]] + b.skip(1));
    }
}

/// Texts over distinct words of one nonzero length can be cut into words in
/// one way only.
pub proof fn lemma_fixed_width_decodable(alphabet: Seq<Seq<char>>, width: nat)
    requires
        width > 0,
        fixed_width(alphabet, width),
    ensures
        uniquely_decodable(alphabet),
{
    assert forall|a: Seq<nat>, b: Seq<nat>|
        digits_below(a, alphabet.len()) && digits_below(b, alphabet.len()) && #[trigger] spell(
            a,
            alphabet,
        ) == #[trigger] spell(b, alphabet) implies a == b by {
        lemma_fixed_width_spell(a, b, alphabet, width);
    }
}

/// Spells the text with number `n` over the alphabet `words`.
///
/// Number 0 is the empty text; then come the texts of one word, in the order
/// of the alphabet, then those of two words, ordered by their first word and
/// then by their second, and so on.
pub fn intstring(n: usize, words: &[&str]) -> (r: String)
    requires
        words.len() > 0,
    ensures
        r@ == encode_string(n as nat, alphabet_of(words@)),
{
    if n == 0 {
        return String::new();
    }
    let ghost alphabet = alphabet_of(words@);
    let m: usize = words.len();
    let mut r = String::new();
    let mut index: usize = n - 1;
    loop
        invariant_except_break
            m == words.len(),
            m > 0,
            alphabet == alphabet_of(words@),
            encode_string((index + 1) as nat, alphabet) + r@ == encode_string(n as nat, alphabet),
        ensures
            r@ == encode_string(n as nat, alphabet_of(words@)),
        decreases index,
    {
        let ghost tail = r@;
        let ghost digit = (index % m) as nat;
        let ghost front = digits((index / m) as nat, m as nat);
        proof {
            lemma_digits_step((index + 1) as nat, m as nat);
            lemma_spell_push(front, digit, alphabet);
            assert((spell(front, alphabet) + alphabet[digit as int]) + tail =~= spell(
                front,
                alphabet,
            ) + (alphabet[digit as int] + tail));
        }
        let mut longer = words[index % m].to_owned();
        longer.append(r.as_str());
        r = longer;
        index = index / m;
        if index == 0 {
            assert(spell(front, alphabet) + r@ =~= r@);
            break;
        }
        index -= 1;
    }
    r
}

} // verus!
