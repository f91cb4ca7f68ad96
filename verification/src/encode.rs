//! Numbering rules and programs: every natural number is one rule, and, for a
//! fixed number of rules, one program.

use vstd::prelude::*;

use crate::mao::{Program, Rule, RuleModel};
use crate::numeral::{
    alphabet_of, encode_string, intstring, lemma_string_injective, uniquely_decodable,
};
use crate::pairing::{intpair, lemma_unpair_injective, lemma_unpair_of_pair, pair, unpair};

verus! {

/// The rule with number `n` over `alphabet`: half of `n`, rounded down, is the
/// position of the pair (number of the pattern, number of the replacement);
/// an odd `n` gives a halting rule.
pub open spec fn encode_rule(n: nat, alphabet: Seq<Seq<char>>) -> RuleModel {
    let (x, y) = unpair(n / 2);
    RuleModel {
        halt: n % 2 == 1,
        pattern: encode_string(x, alphabet),
        replacement: encode_string(y, alphabet),
    }
}

/// The program with number `n` among those of `lines` rules over `alphabet`.
///
/// While more than one rule is to come, `n` is the position of a pair: its
/// second component numbers the next rule, its first component the rest of the
/// program. The last rule takes the number that is left. A program has at
/// least one rule: `lines` 0 gives what `lines` 1 gives.
pub open spec fn encode_program(lines: nat, n: nat, alphabet: Seq<Seq<char>>) -> Seq<RuleModel>
    decreases lines,
{
    if lines <= 1 {
        seq![encode_rule(n, alphabet)]
    } else {
        let (x, y) = unpair(n);
        seq![encode_rule(y, alphabet)] + encode_program((lines - 1) as nat, x, alphabet)
    }
}

/// The numbers of the rules of program `n` among those of `lines` rules, in
/// the order of the rules.
pub open spec fn rule_numbers(lines: nat, n: nat) -> Seq<nat>
    decreases lines,
{
    if lines <= 1 {
        seq![n]
    } else {
        let (x, y) = unpair(n);
        seq![y] + rule_numbers((lines - 1) as nat, x)
    }
}

/// The positions whose pairs are taken to find the rules of program `n` among
/// those of `lines` rules: `n` itself, then the first component of each pair
/// in turn, one position for each rule but the last.
pub open spec fn pair_positions(lines: nat, n: nat) -> Seq<nat>
    decreases lines,
{
    if lines <= 1 {
        Seq::empty()
    } else {
        seq![n] + pair_positions((lines - 1) as nat, unpair(n).0)
    }
}

/// A program is made of the rules with its rule numbers.
pub proof fn lemma_program_rules(lines: nat, n: nat, alphabet: Seq<Seq<char>>)
    ensures
        encode_program(lines, n, alphabet) == Seq::new(
            rule_numbers(lines, n).len(),
            |i: int| encode_rule(rule_numbers(lines, n)[i], alphabet),
        ),
    decreases lines,
{
    let got = encode_program(lines, n, alphabet);
    let want = Seq::new(
        rule_numbers(lines, n).len(),
        |i: int| encode_rule(rule_numbers(lines, n)[i], alphabet),
    );
    if lines <= 1 {
        assert(got =~= want);
    } else {
        let (x, y) = unpair(n);
        lemma_program_rules((lines - 1) as nat, x, alphabet);
        assert(got =~= want);
    }
}

/// The number of the rule whose pattern is text number `x`, whose replacement
/// is text number `y`, and which halts or not.
pub open spec fn rule_number(halt: bool, x: nat, y: nat) -> nat {
    2 * pair(x, y) + if halt {
        1nat
    } else {
        0nat
    }
}

/// The number of the program whose rules have the numbers `rules`, in order.
pub open spec fn program_number(rules: Seq<nat>) -> nat
    decreases rules.len(),
{
    if rules.len() == 0 {
        0
    } else if rules.len() == 1 {
        rules[0]
    } else {
        pair(program_number(rules.skip(1)), rules[0])
    }
}

/// A program has as many rules as asked for, and one where none is asked for.
pub proof fn lemma_program_len(lines: nat, n: nat, alphabet: Seq<Seq<char>>)
    ensures
        encode_program(lines, n, alphabet).len() == if lines == 0 {
            1
        } else {
            lines
        },
    decreases lines,
{
    if lines > 1 {
        let (x, y) = unpair(n);
        lemma_program_len((lines - 1) as nat, x, alphabet);
    }
}

/// Over an alphabet whose texts can be cut into words in one way only, two
/// numbers that give the same rule are one number.
pub proof fn lemma_rule_injective(n1: nat, n2: nat, alphabet: Seq<Seq<char>>)
    requires
        alphabet.len() > 0,
        uniquely_decodable(alphabet),
        encode_rule(n1, alphabet) == encode_rule(n2, alphabet),
    ensures
        n1 == n2,
{
    let (x1, y1) = unpair(n1 / 2);
    let (x2, y2) = unpair(n2 / 2);
    lemma_string_injective(x1, x2, alphabet);
    lemma_string_injective(y1, y2, alphabet);
    lemma_unpair_injective(n1 / 2, n2 / 2);
}

/// Over an alphabet whose texts can be cut into words in one way only, and
/// for one number of rules, two numbers that give the same program are one
/// number.
pub proof fn lemma_program_injective(lines: nat, n1: nat, n2: nat, alphabet: Seq<Seq<char>>)
    requires
        alphabet.len() > 0,
        uniquely_decodable(alphabet),
        encode_program(lines, n1, alphabet) == encode_program(lines, n2, alphabet),
    ensures
        n1 == n2,
    decreases lines,
{
    let one = encode_program(lines, n1, alphabet);
    let other = encode_program(lines, n2, alphabet);
    if lines <= 1 {
        assert(one[0] == encode_rule(n1, alphabet));
        assert(other[0] == encode_rule(n2, alphabet));
        lemma_rule_injective(n1, n2, alphabet);
    } else {
        let (x1, y1) = unpair(n1);
        let (x2, y2) = unpair(n2);
        let rest1 = encode_program((lines - 1) as nat, x1, alphabet);
        let rest2 = encode_program((lines - 1) as nat, x2, alphabet);
        assert(one[0] == encode_rule(y1, alphabet));
        assert(other[0] == encode_rule(y2, alphabet));
        assert(one.skip(1) =~= rest1);
        assert(other.skip(1) =~= rest2);
        lemma_rule_injective(y1, y2, alphabet);
        lemma_program_injective((lines - 1) as nat, x1, x2, alphabet);
        lemma_unpair_injective(n1, n2);
    }
}

/// Every rule made of two numbered texts has a number.
pub proof fn lemma_rule_of_number(halt: bool, x: nat, y: nat, alphabet: Seq<Seq<char>>)
    ensures
        encode_rule(rule_number(halt, x, y), alphabet) == (RuleModel {
            halt,
            pattern: encode_string(x, alphabet),
            replacement: encode_string(y, alphabet),
        }),
{
    lemma_unpair_of_pair(x, y);
}

/// Every sequence of at least one numbered rule is a program with a number.
pub proof fn lemma_program_of_number(rules: Seq<nat>, alphabet: Seq<Seq<char>>)
    requires
        rules.len() > 0,
    ensures
        encode_program(rules.len(), program_number(rules), alphabet) == Seq::new(
            rules.len(),
            |i: int| encode_rule(rules[i], alphabet),
        ),
    decreases rules.len(),
{
    let got = encode_program(rules.len(), program_number(rules), alphabet);
    let want = Seq::new(rules.len(), |i: int| encode_rule(rules[i], alphabet));
    if rules.len() == 1 {
        assert(got =~= want);
    } else {
        let rest = rules.skip(1);
        lemma_program_of_number(rest, alphabet);
        lemma_unpair_of_pair(program_number(rest), rules[0]);
        assert(got =~= want);
    }
}

/// Builds the rule with number `n` over the alphabet `words`.
pub fn intrule(n: usize, words: &[&str]) -> (r: Rule)
    requires
        words.len() > 0,
    ensures
        r@ == encode_rule(n as nat, alphabet_of(words@)),
{
    let (x, y) = intpair(n / 2);
    let a = intstring(x, words);
    let b = intstring(y, words);
    if n % 2 == 0 {
        Rule::Replace(a, b)
    } else {
        Rule::ReplaceEnd(a, b)
    }
}

/// Builds the program with number `n` among those of `lines` rules over the
/// alphabet `words`.
pub fn intprogram(lines: usize, n: usize, words: &[&str]) -> (prg: Program)
    requires
        words.len() > 0,
    ensures
        prg@ == encode_program(lines as nat, n as nat, alphabet_of(words@)),
{
    let ghost alphabet = alphabet_of(words@);
    let mut data: Vec<Rule> = Vec::new();
    let mut index: usize = n;
    let mut left: usize = lines;
    while left > 1
        invariant
            words.len() > 0,
            alphabet == alphabet_of(words@),
            Program(data)@ + encode_program(left as nat, index as nat, alphabet) == encode_program(
                lines as nat,
                n as nat,
                alphabet,
            ),
        decreases left,
    {
        let ghost before = Program(data)@;
        let (x, y) = intpair(index);
        let rule = intrule(y, words);
        data.push(rule);
        assert(Program(data)@ =~= before + seq![encode_rule(y as nat, alphabet)]);
        assert(before + (seq![encode_rule(y as nat, alphabet)] + encode_program(
            (left - 1) as nat,
            x as nat,
            alphabet,
        )) =~= Program(data)@ + encode_program((left - 1) as nat, x as nat, alphabet));
        index = x;
        left -= 1;
    }
    let ghost before = Program(data)@;
    let rule = intrule(index, words);
    data.push(rule);
    assert(Program(data)@ =~= before + seq![encode_rule(index as nat, alphabet)]);
    Program(data)
}

} // verus!
