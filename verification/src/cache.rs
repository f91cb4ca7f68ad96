//! An encoder that remembers what it has computed.
//!
//! Programs with nearby numbers share most of their rules, and rules share
//! their texts, so the same pairs, texts and rules are asked for again and
//! again. The encoder keeps one table for each of the three, keyed by number.
//! An entry is written once and never changed or removed. The tables hold
//! numbers up to a bound only; above it the encoder computes without storing.
//! The alphabet is fixed when the encoder is made, which is what makes the
//! stored texts and rules right for as long as the encoder lives.

use std::collections::HashMap;
use vstd::prelude::*;

use crate::encode::{encode_program, encode_rule, pair_positions, rule_numbers};
use crate::mao::{Program, Rule};
use crate::numeral::{alphabet_of, encode_string, intstring};
use crate::pairing::{intpair, unpair};

verus! {

broadcast use vstd::std_specs::hash::group_hash_axioms;

/// The keys of a table after number `k` was asked for: `k` is added where the
/// bound lets it in.
pub open spec fn stored(known: Set<usize>, k: usize, bound: usize) -> Set<usize> {
    if k <= bound {
        known.insert(k)
    } else {
        known
    }
}

/// An encoder over a fixed alphabet, with its tables of known results.
pub struct Encoder<'a> {
    words: &'a [&'a str],
    bound: usize,
    pairs: HashMap<usize, (usize, usize)>,
    strings: HashMap<usize, String>,
    rules: HashMap<usize, Rule>,
}

impl<'a> Encoder<'a> {
    /// The alphabet is not empty, the tables hold numbers up to the bound
    /// only, and every entry is what the numbering gives for its key.
    pub closed spec fn wf(self) -> bool {
        &&& self.words@.len() > 0
        &&& forall|k: usize| #[trigger]
            self.pairs@.contains_key(k) ==> k <= self.bound && (
            self.pairs@[k].0 as nat,
            self.pairs@[k].1 as nat,
        ) == unpair(k as nat)
        &&& forall|k: usize| #[trigger]
            self.strings@.contains_key(k) ==> k <= self.bound && self.strings@[k]@
                == encode_string(k as nat, alphabet_of(self.words@))
        &&& forall|k: usize| #[trigger]
            self.rules@.contains_key(k) ==> k <= self.bound && self.rules@[k]@ == encode_rule(
                k as nat,
                alphabet_of(self.words@),
            )
    }

    /// The alphabet of the encoder.
    pub closed spec fn alphabet(self) -> Seq<Seq<char>> {
        alphabet_of(self.words@)
    }

    /// The largest number that the tables take.
    pub closed spec fn bound(self) -> usize {
        self.bound
    }

    /// The positions whose pairs are in the table.
    pub closed spec fn known_pairs(self) -> Set<usize> {
        self.pairs@.dom()
    }

    /// The numbers whose texts are in the table.
    pub closed spec fn known_strings(self) -> Set<usize> {
        self.strings@.dom()
    }

    /// The numbers whose rules are in the table.
    pub closed spec fn known_rules(self) -> Set<usize> {
        self.rules@.dom()
    }

    /// This encoder is `before` after some more work: the same alphabet and
    /// bound, and every entry of `before` still there.
    pub open spec fn extends(self, before: Encoder<'a>) -> bool {
        &&& self.alphabet() == before.alphabet()
        &&& self.bound() == before.bound()
        &&& before.known_pairs().subset_of(self.known_pairs())
        &&& before.known_strings().subset_of(self.known_strings())
        &&& before.known_rules().subset_of(self.known_rules())
    }

    /// The tables hold no number above the bound.
    pub proof fn lemma_tables_within_bound(self)
        requires
            self.wf(),
        ensures
            forall|k: usize| self.known_pairs().contains(k) ==> k <= self.bound(),
            forall|k: usize| self.known_strings().contains(k) ==> k <= self.bound(),
            forall|k: usize| self.known_rules().contains(k) ==> k <= self.bound(),
    {
    }

    /// Every number of `numbers` that the bound lets in has its rule in the
    /// table.
    pub open spec fn holds_rules(self, numbers: Seq<nat>) -> bool {
        forall|i: int|
            0 <= i < numbers.len() && (#[trigger] numbers[i]) <= self.bound()
                ==> self.known_rules().contains(numbers[i] as usize)
    }

    /// Every position of `positions` that the bound lets in has its pair in
    /// the table.
    pub open spec fn holds_pairs(self, positions: Seq<nat>) -> bool {
        forall|i: int|
            0 <= i < positions.len() && (#[trigger] positions[i]) <= self.bound()
                ==> self.known_pairs().contains(positions[i] as usize)
    }

    /// The tables hold what building program `n` of `lines` rules asks for:
    /// the pair at each position that it takes, and each of its rules.
    pub open spec fn holds_parts(self, lines: nat, n: nat) -> bool {
        &&& self.holds_rules(rule_numbers(lines, n))
        &&& self.holds_pairs(pair_positions(lines, n))
    }

    /// An encoder over `words` with empty tables that take numbers up to `bound`.
    pub fn new(words: &'a [&'a str], bound: usize) -> (enc: Encoder<'a>)
        requires
            words.len() > 0,
        ensures
            enc.wf(),
            enc.alphabet() == alphabet_of(words@),
            enc.bound() == bound,
            enc.known_pairs() == Set::<usize>::empty(),
            enc.known_strings() == Set::<usize>::empty(),
            enc.known_rules() == Set::<usize>::empty(),
    {
        Encoder {
            words,
            bound,
            pairs: HashMap::new(),
            strings: HashMap::new(),
            rules: HashMap::new(),
        }
    }

    /// How many pairs, texts and rules the tables hold.
    pub fn entries(&self) -> (count: (usize, usize, usize))
        ensures
            count.0 == self.known_pairs().len(),
            count.1 == self.known_strings().len(),
            count.2 == self.known_rules().len(),
    {
        (self.pairs.len(), self.strings.len(), self.rules.len())
    }

    /// The pair at position `n`, from the table where it is there.
    pub fn pair(&mut self, n: usize) -> (r: (usize, usize))
        requires
            old(self).wf(),
        ensures
            final(self).wf(),
            (r.0 as nat, r.1 as nat) == unpair(n as nat),
            final(self).alphabet() == old(self).alphabet(),
            final(self).bound() == old(self).bound(),
            final(self).known_pairs() == stored(old(self).known_pairs(), n, old(self).bound()),
            final(self).known_strings() == old(self).known_strings(),
            final(self).known_rules() == old(self).known_rules(),
    {
        match self.pairs.get(&n) {
            Some(r) => {
                assert(self.pairs@.dom().insert(n) =~= self.pairs@.dom());
                return *r;
            },
            None => {},
        }
        let r = intpair(n);
        if n <= self.bound {
            self.pairs.insert(n, r);
        }
        r
    }

    /// The text with number `n`, from the table where it is there.
    pub fn string(&mut self, n: usize) -> (r: String)
        requires
            old(self).wf(),
        ensures
            final(self).wf(),
            r@ == encode_string(n as nat, old(self).alphabet()),
            final(self).alphabet() == old(self).alphabet(),
            final(self).bound() == old(self).bound(),
            final(self).known_pairs() == old(self).known_pairs(),
            final(self).known_strings() == stored(
                old(self).known_strings(),
                n,
                old(self).bound(),
            ),
            final(self).known_rules() == old(self).known_rules(),
    {
        match self.strings.get(&n) {
            Some(r) => {
                assert(self.strings@.dom().insert(n) =~= self.strings@.dom());
                return r.clone();
            },
            None => {},
        }
        let r = intstring(n, self.words);
        if n <= self.bound {
            self.strings.insert(n, r.clone());
        }
        r
    }

    /// The rule with number `n`, from the table where it is there. A rule
    /// that is not there is built from a pair and two texts, which come from
    /// their tables in turn and are stored there.
    pub fn rule(&mut self, n: usize) -> (r: Rule)
        requires
            old(self).wf(),
        ensures
            final(self).wf(),
            r@ == encode_rule(n as nat, old(self).alphabet()),
            final(self).extends(*old(self)),
            final(self).known_rules() == stored(old(self).known_rules(), n, old(self).bound()),
            old(self).known_rules().contains(n) ==> {
                &&& final(self).known_pairs() == old(self).known_pairs()
                &&& final(self).known_strings() == old(self).known_strings()
            },
            !old(self).known_rules().contains(n) ==> {
                let (x, y) = unpair((n / 2) as nat);
                &&& final(self).known_pairs() == stored(
                    old(self).known_pairs(),
                    n / 2,
                    old(self).bound(),
                )
                &&& final(self).known_strings() == stored(
                    stored(old(self).known_strings(), x as usize, old(self).bound()),
                    y as usize,
                    old(self).bound(),
                )
            },
    {
        match self.rules.get(&n) {
            Some(r) => {
                assert(self.rules@.dom().insert(n) =~= self.rules@.dom());
                return r.clone();
            },
            None => {},
        }
        let (x, y) = self.pair(n / 2);
        let a = self.string(x);
        let b = self.string(y);
        let r = if n % 2 == 0 {
            Rule::Replace(a, b)
        } else {
            Rule::ReplaceEnd(a, b)
        };
        if n <= self.bound {
            self.rules.insert(n, r.clone());
        }
        r
    }

    /// The program with number `n` among those of `lines` rules, built from
    /// pairs and rules that come from the tables where they are there. Every
    /// position whose pair it takes and every rule that it is made of is in
    /// the tables afterwards, where the bound lets it in.
    pub fn program(&mut self, lines: usize, n: usize) -> (prg: Program)
        requires
            old(self).wf(),
        ensures
            final(self).wf(),
            prg@ == encode_program(lines as nat, n as nat, old(self).alphabet()),
            final(self).extends(*old(self)),
            final(self).holds_parts(lines as nat, n as nat),
    {
        let ghost alphabet = self.alphabet();
        let ghost seen_rules = Seq::<nat>::empty();
        let ghost seen_pairs = Seq::<nat>::empty();
        let mut data: Vec<Rule> = Vec::new();
        let mut index: usize = n;
        let mut left: usize = lines;
        while left > 1
            invariant
                self.wf(),
                self.extends(*old(self)),
                alphabet == old(self).alphabet(),
                Program(data)@ + encode_program(left as nat, index as nat, alphabet)
                    == encode_program(lines as nat, n as nat, alphabet),
                seen_rules + rule_numbers(left as nat, index as nat) == rule_numbers(
                    lines as nat,
                    n as nat,
                ),
                seen_pairs + pair_positions(left as nat, index as nat) == pair_positions(
                    lines as nat,
                    n as nat,
                ),
                self.holds_rules(seen_rules),
                self.holds_pairs(seen_pairs),
            decreases left,
        {
            let ghost built = Program(data)@;
            let ghost before = *self;
            let (x, y) = self.pair(index);
            let ghost between = *self;
            let rule = self.rule(y);
            data.push(rule);
            proof {
                assert(Program(data)@ =~= built + seq![encode_rule(y as nat, alphabet)]);
                assert(built + (seq![encode_rule(y as nat, alphabet)] + encode_program(
                    (left - 1) as nat,
                    x as nat,
                    alphabet,
                )) =~= Program(data)@ + encode_program((left - 1) as nat, x as nat, alphabet));
                assert(seen_rules + (seq![y as nat] + rule_numbers((left - 1) as nat, x as nat))
                    =~= seen_rules.push(y as nat) + rule_numbers((left - 1) as nat, x as nat));
                assert(seen_pairs + (seq![index as nat] + pair_positions(
                    (left - 1) as nat,
                    x as nat,
                )) =~= seen_pairs.push(index as nat) + pair_positions(
                    (left - 1) as nat,
                    x as nat,
                ));
                assert(before.known_pairs().subset_of(between.known_pairs()));
                assert(between.known_pairs().subset_of(self.known_pairs()));
                assert(before.known_rules().subset_of(self.known_rules()));
                seen_rules = seen_rules.push(y as nat);
                seen_pairs = seen_pairs.push(index as nat);
            }
            index = x;
            left -= 1;
        }
        let ghost built = Program(data)@;
        let ghost before = *self;
        let rule = self.rule(index);
        data.push(rule);
        proof {
            assert(Program(data)@ =~= built + seq![encode_rule(index as nat, alphabet)]);
            assert(before.known_pairs().subset_of(self.known_pairs()));
            assert(before.known_rules().subset_of(self.known_rules()));
            assert(seen_rules.push(index as nat) =~= seen_rules + seq![index as nat]);
            assert(pair_positions(left as nat, index as nat) =~= Seq::<nat>::empty());
            assert(seen_pairs + Seq::<nat>::empty() =~= seen_pairs);
            seen_rules = seen_rules.push(index as nat);
        }
        Program(data)
    }
}

} // verus!
