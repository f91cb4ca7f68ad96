//! The search: candidates are taken in the order of their numbers, the useless
//! ones are skipped, and the first one that passes every example is the answer.

use vstd::prelude::*;

use crate::cache::Encoder;
use crate::encode::encode_program;
use crate::mao::{run, Program, RuleModel};
use crate::prune::{has_idle_rule, has_shadowed_rule, prune};

verus! {

/// The examples of a test set as pairs of character sequences: input, then
/// expected output.
pub open spec fn cases_of(testset: Seq<(String, String)>) -> Seq<(Seq<char>, Seq<char>)> {
    Seq::new(testset.len(), |i: int| (testset[i].0@, testset[i].1@))
}

/// Running `rules` on the input of each example gives exactly its expected output.
pub open spec fn passes(
    rules: Seq<RuleModel>,
    cases: Seq<(Seq<char>, Seq<char>)>,
    max_steps: nat,
    max_len: nat,
) -> bool {
    forall|i: int|
        0 <= i < cases.len() ==> run(rules, (#[trigger] cases[i]).0, max_steps, max_len) == Some(
            cases[i].1,
        )
}

/// `rules` is an answer: it is not useless and passes every example.
pub open spec fn accepted(
    rules: Seq<RuleModel>,
    cases: Seq<(Seq<char>, Seq<char>)>,
    max_steps: nat,
    max_len: nat,
) -> bool {
    &&& !has_idle_rule(rules)
    &&& !has_shadowed_rule(rules)
    &&& passes(rules, cases, max_steps, max_len)
}

/// Whether the program gives, for every example of `testset`, exactly the
/// expected output. A run that hits a bound fails its example.
pub fn test(prg: &Program, testset: &[(String, String)], max_steps: usize, max_len: usize) -> (ok:
    bool)
    ensures
        ok <==> passes(prg@, cases_of(testset@), max_steps as nat, max_len as nat),
{
    let ghost cases = cases_of(testset@);
    let mut k: usize = 0;
    while k < testset.len()
        invariant
            k <= testset.len(),
            cases == cases_of(testset@),
            forall|i: int|
                0 <= i < k ==> run(prg@, (#[trigger] cases[i]).0, max_steps as nat, max_len as nat)
                    == Some(cases[i].1),
        decreases testset.len() - k,
    {
        assert(cases[k as int] == (testset@[k as int].0@, testset@[k as int].1@));
        let matched = match prg.eval(testset[k].0.clone(), max_steps, max_len) {
            Some(out) => out == testset[k].1,
            None => false,
        };
        if !matched {
            return false;
        }
        k += 1;
    }
    true
}

/// What the search makes of one candidate.
#[derive(Clone, Copy, Debug, PartialEq, Eq)]
pub enum Verdict {
    /// The candidate is useless and was not run.
    Pruned,
    /// The candidate was run and fails an example.
    Failed,
    /// The candidate is an answer.
    Found,
}

/// Builds candidate number `n` among the programs of `lines` rules and judges
/// it. A useless candidate is not run.
pub fn candidate(
    enc: &mut Encoder,
    lines: usize,
    n: usize,
    testset: &[(String, String)],
    max_steps: usize,
    max_len: usize,
) -> (r: (Program, Verdict))
    requires
        old(enc).wf(),
    ensures
        final(enc).wf(),
        final(enc).extends(*old(enc)),
        final(enc).holds_parts(lines as nat, n as nat),
        r.0@ == encode_program(lines as nat, n as nat, old(enc).alphabet()),
        r.1 is Pruned <==> has_idle_rule(r.0@) || has_shadowed_rule(r.0@),
        r.1 is Found <==> accepted(r.0@, cases_of(testset@), max_steps as nat, max_len as nat),
{
    let prg = enc.program(lines, n);
    if prune(&prg) {
        return (prg, Verdict::Pruned);
    }
    let verdict = if test(&prg, testset, max_steps, max_len) {
        Verdict::Found
    } else {
        Verdict::Failed
    };
    (prg, verdict)
}

/// Finds the first answer among the candidates with numbers from `from` up to,
/// not including, `ceiling`: every candidate before it is useless or fails an
/// example. `None` where no candidate in that range is an answer.
pub fn search(
    enc: &mut Encoder,
    lines: usize,
    from: usize,
    ceiling: usize,
    testset: &[(String, String)],
    max_steps: usize,
    max_len: usize,
) -> (found: Option<(usize, Program)>)
    requires
        old(enc).wf(),
    ensures
        final(enc).wf(),
        final(enc).extends(*old(enc)),
        match found {
            Some((n, prg)) => {
                &&& from <= n < ceiling
                &&& final(enc).holds_parts(lines as nat, n as nat)
                &&& prg@ == encode_program(lines as nat, n as nat, old(enc).alphabet())
                &&& accepted(prg@, cases_of(testset@), max_steps as nat, max_len as nat)
                &&& forall|j: nat|
                    from <= j < n ==> !accepted(
                        #[trigger] encode_program(lines as nat, j, old(enc).alphabet()),
                        cases_of(testset@),
                        max_steps as nat,
                        max_len as nat,
                    )
            },
            None => forall|j: nat|
                from <= j < ceiling ==> !accepted(
                    #[trigger] encode_program(lines as nat, j, old(enc).alphabet()),
                    cases_of(testset@),
                    max_steps as nat,
                    max_len as nat,
                ),
        },
{
    let mut n: usize = from;
    while n < ceiling
        invariant
            enc.wf(),
            enc.extends(*old(enc)),
            from <= n,
            forall|j: nat|
                from <= j < n ==> !accepted(
                    #[trigger] encode_program(lines as nat, j, old(enc).alphabet()),
                    cases_of(testset@),
                    max_steps as nat,
                    max_len as nat,
                ),
        decreases ceiling - n,
    {
        let (prg, verdict) = candidate(enc, lines, n, testset, max_steps, max_len);
        if let Verdict::Found = verdict {
            return Some((n, prg));
        }
        n += 1;
    }
    None
}

} // verus!
