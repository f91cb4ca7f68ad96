//! Rewrite rules, programs made of them, and the interpreter that runs a
//! program on a string under a step bound and a length bound.

use vstd::prelude::*;
use vstd::utf8::encode_utf8;

use crate::text::{find_first, lemma_leftmost_is_first, occurs, replace_first, to_chars};

verus! {

/// A rewrite rule as a mathematical value.
pub struct RuleModel {
    /// Whether applying the rule ends the run.
    pub halt: bool,
    /// The text that the rule looks for.
    pub pattern: Seq<char>,
    /// The text that the rule puts in its place.
    pub replacement: Seq<char>,
}

/// What one attempt to apply a rule to a buffer gives, as a mathematical value.
pub enum Outcome {
    /// The rule fired; the run goes on with the new buffer.
    Continue(Seq<char>),
    /// The rule fired; the new buffer is the result of the run.
    End(Seq<char>),
    /// The pattern does not occur in the buffer.
    NotApplied,
}

impl RuleModel {
    /// The rule as a line of text: pattern and replacement with a colon
    /// between them, two colons for a halting rule.
    pub open spec fn render(self) -> Seq<char> {
        self.pattern + (if self.halt {
            seq![':', ':']
        } else {
            seq![':']
        }) + self.replacement
    }

    /// The outcome of applying the rule to `line`: the leftmost occurrence of
    /// the pattern is replaced, where there is one.
    pub open spec fn apply(self, line: Seq<char>) -> Outcome {
        if occurs(line, self.pattern) {
            let next = replace_first(line, self.pattern, self.replacement);
            if self.halt {
                Outcome::End(next)
            } else {
                Outcome::Continue(next)
            }
        } else {
            Outcome::NotApplied
        }
    }
}

/// What one attempt to apply a rule to a buffer gives.
#[derive(Debug, PartialEq, Eq)]
pub enum RuleResult {
    /// The rule fired; the run goes on with the new buffer.
    Continue(String),
    /// The rule fired; the new buffer is the result of the run.
    End(String),
    /// The pattern does not occur in the buffer.
    NotApplied,
}

impl View for RuleResult {
    type V = Outcome;

    open spec fn view(&self) -> Outcome {
        match self {
            RuleResult::Continue(s) => Outcome::Continue(s@),
            RuleResult::End(s) => Outcome::End(s@),
            RuleResult::NotApplied => Outcome::NotApplied,
        }
    }
}

/// A rewrite rule: a pattern, its replacement, and whether firing ends the run.
#[derive(Debug, PartialEq, Eq)]
pub enum Rule {
    /// Replace the pattern and go on.
    Replace(String, String),
    /// Replace the pattern and stop.
    ReplaceEnd(String, String),
}

impl View for Rule {
    type V = RuleModel;

    open spec fn view(&self) -> RuleModel {
        match self {
            Rule::Replace(s, t) => RuleModel { halt: false, pattern: s@, replacement: t@ },
            Rule::ReplaceEnd(s, t) => RuleModel { halt: true, pattern: s@, replacement: t@ },
        }
    }
}

impl Clone for RuleResult {
    fn clone(&self) -> (copy: RuleResult)
        ensures
            copy == *self,
    {
        match self {
            RuleResult::Continue(s) => RuleResult::Continue(s.clone()),
            RuleResult::End(s) => RuleResult::End(s.clone()),
            RuleResult::NotApplied => RuleResult::NotApplied,
        }
    }
}

impl Clone for Rule {
    fn clone(&self) -> (copy: Rule)
        ensures
            copy == *self,
    {
        match self {
            Rule::Replace(s, t) => Rule::Replace(s.clone(), t.clone()),
            Rule::ReplaceEnd(s, t) => Rule::ReplaceEnd(s.clone(), t.clone()),
        }
    }
}

impl Rule {
    /// The pattern and the replacement of the rule.
    pub fn unwrap(&self) -> (r: (&String, &String))
        ensures
            r.0@ == self@.pattern,
            r.1@ == self@.replacement,
    {
        match self {
            Rule::Replace(s, t) => (s, t),
            Rule::ReplaceEnd(s, t) => (s, t),
        }
    }

    /// The rule as a line of text: `pattern:replacement`, or
    /// `pattern::replacement` for a rule that halts.
    pub fn to_string(&self) -> (line: String)
        ensures
            line@ == self@.render(),
    {
        proof {
            reveal_strlit(":");
            reveal_strlit("::");
        }
        match self {
            Rule::Replace(s, t) => {
                let mut line = s.clone();
                line.append(":");
                assert(":"@ =~= seq![':']);
                line.append(t.as_str());
                line
            },
            Rule::ReplaceEnd(s, t) => {
                let mut line = s.clone();
                line.append("::");
                assert("::"@ =~= seq![':', ':']);
                line.append(t.as_str());
                line
            },
        }
    }

    /// Applies the rule to `line` once.
    pub fn apply(&self, line: &str) -> (r: RuleResult)
        ensures
            r@ == self@.apply(line@),
    {
        let (s, t) = self.unwrap();
        let hay = to_chars(line);
        let pat = to_chars(s.as_str());
        match find_first(hay.as_slice(), pat.as_slice()) {
            None => RuleResult::NotApplied,
            Some(i) => {
                proof {
                    lemma_leftmost_is_first(line@, s@, i as int);
                }
                let end: usize = hay.len();
                let resume: usize = i + pat.len();
                let head = line.substring_char(0, i);
                let tail = line.substring_char(resume, end);
                let mut next = head.to_owned();
                next.append(t.as_str());
                next.append(tail);
                match self {
                    Rule::Replace(_, _) => RuleResult::Continue(next),
                    Rule::ReplaceEnd(_, _) => RuleResult::End(next),
                }
            },
        }
    }
}

/// A program: rules in the order in which they are tried.
#[derive(Debug, PartialEq, Eq)]
pub struct Program(pub Vec<Rule>);

impl Clone for Program {
    fn clone(&self) -> (copy: Program)
        ensures
            copy@ == self@,
    {
        let mut rules: Vec<Rule> = Vec::new();
        let mut k: usize = 0;
        while k < self.0.len()
            invariant
                k <= self.0.len(),
                rules@ == self.0@.take(k as int),
            decreases self.0.len() - k,
        {
            rules.push(self.0[k].clone());
            assert(rules@ =~= self.0@.take(k + 1));
            k += 1;
        }
        assert(rules@ =~= self.0@);
        Program(rules)
    }
}

impl View for Program {
    type V = Seq<RuleModel>;

    open spec fn view(&self) -> Seq<RuleModel> {
        Seq::new(self.0@.len(), |i: int| self.0@[i]@)
    }
}

/// The program as text: each rule on a line of its own.
pub open spec fn render_program(rules: Seq<RuleModel>) -> Seq<char>
    decreases rules.len(),
{
    if rules.len() == 0 {
        Seq::empty()
    } else {
        render_program(rules.drop_last()) + rules.last().render() + seq!['\n']
    }
}

/// The length of `s` in bytes, which is what the length bound counts.
pub open spec fn byte_len(s: Seq<char>) -> nat {
    encode_utf8(s).len()
}

/// One step of a run: the outcome of the first rule, in program order, whose
/// pattern occurs in `buf`; `NotApplied` where no pattern occurs.
pub open spec fn step(rules: Seq<RuleModel>, buf: Seq<char>) -> Outcome
    decreases rules.len(),
{
    if rules.len() == 0 {
        Outcome::NotApplied
    } else {
        match rules[0].apply(buf) {
            Outcome::NotApplied => step(rules.skip(1), buf),
            fired => fired,
        }
    }
}

/// The result of running `rules` on `buf` with `steps` steps left and buffers
/// of at most `max_len` bytes.
///
/// A run ends at the buffer in which no pattern occurs, or with the buffer
/// that a halting rule made. It gives `None` where it has no step left, or
/// where a buffer that it comes to, its input and the one that a halting rule
/// made among them, is longer than `max_len` bytes.
pub open spec fn run(rules: Seq<RuleModel>, buf: Seq<char>, steps: nat, max_len: nat) -> Option<
    Seq<char>,
>
    decreases steps,
{
    if steps == 0 || byte_len(buf) > max_len {
        None
    } else {
        match step(rules, buf) {
            Outcome::NotApplied => Some(buf),
            Outcome::End(next) => if byte_len(next) > max_len {
                None
            } else {
                Some(next)
            },
            Outcome::Continue(next) => run(rules, next, (steps - 1) as nat, max_len),
        }
    }
}

/// No rule of `rules` has a pattern that occurs in `buf`.
pub open spec fn stuck(rules: Seq<RuleModel>, buf: Seq<char>) -> bool {
    forall|k: int| 0 <= k < rules.len() ==> !occurs(buf, (#[trigger] rules[k]).pattern)
}

/// Rule `k` is the first rule of `rules` whose pattern occurs in `buf`.
pub open spec fn first_match(rules: Seq<RuleModel>, buf: Seq<char>, k: int) -> bool {
    &&& 0 <= k < rules.len()
    &&& occurs(buf, rules[k].pattern)
    &&& forall|j: int| 0 <= j < k ==> !occurs(buf, (#[trigger] rules[j]).pattern)
}

/// The buffer after `t` steps that each fired a rule that goes on; `None`
/// where the run has ended before, at a fixed point or by a halting rule.
pub open spec fn after(rules: Seq<RuleModel>, buf: Seq<char>, t: nat) -> Option<Seq<char>>
    decreases t,
{
    if t == 0 {
        Some(buf)
    } else {
        match step(rules, buf) {
            Outcome::Continue(next) => after(rules, next, (t - 1) as nat),
            _ => None,
        }
    }
}

/// The buffer that a halting rule makes at the step that follows `t` steps
/// which each fired a rule that goes on; `None` where the run does not end
/// in that way at that step.
pub open spec fn halted(rules: Seq<RuleModel>, buf: Seq<char>, t: nat) -> Option<Seq<char>> {
    match after(rules, buf, t) {
        Some(at) => match step(rules, at) {
            Outcome::End(next) => Some(next),
            _ => None,
        },
        None => None,
    }
}

/// After `t` steps that go on, the run holds a buffer longer than `max_len`
/// bytes, or a halting rule makes one at the next step.
pub open spec fn too_long_at(rules: Seq<RuleModel>, buf: Seq<char>, t: nat, max_len: nat) -> bool {
    ||| after(rules, buf, t) is Some && byte_len(after(rules, buf, t)->0) > max_len
    ||| halted(rules, buf, t) is Some && byte_len(halted(rules, buf, t)->0) > max_len
}

/// A step applies no rule exactly where no pattern occurs in the buffer.
pub proof fn lemma_step_stuck(rules: Seq<RuleModel>, buf: Seq<char>)
    ensures
        step(rules, buf) is NotApplied <==> stuck(rules, buf),
    decreases rules.len(),
{
    if rules.len() > 0 {
        let rest = rules.skip(1);
        lemma_step_stuck(rest, buf);
        if occurs(buf, rules[0].pattern) {
            assert(!stuck(rules, buf));
        } else if stuck(rest, buf) {
            assert forall|k: int| 0 <= k < rules.len() implies !occurs(
                buf,
                (#[trigger] rules[k]).pattern,
            ) by {
                if k > 0 {
                    assert(rest[k - 1] == rules[k]);
                }
            }
        } else {
            let k = choose|k: int| 0 <= k < rest.len() && occurs(buf, (#[trigger] rest[k]).pattern);
            assert(rules[k + 1] == rest[k]);
        }
    }
}

/// A step applies the first rule whose pattern occurs in the buffer.
pub proof fn lemma_step_first_match(rules: Seq<RuleModel>, buf: Seq<char>, k: int)
    requires
        first_match(rules, buf, k),
    ensures
        step(rules, buf) == rules[k].apply(buf),
    decreases rules.len(),
{
    if k > 0 {
        let rest = rules.skip(1);
        assert(!occurs(buf, rules[0].pattern));
        assert(rest[k - 1] == rules[k]);
        assert forall|j: int| 0 <= j < k - 1 implies !occurs(buf, (#[trigger] rest[j]).pattern) by {
            assert(rest[j] == rules[j + 1]);
        }
        lemma_step_first_match(rest, buf, k - 1);
    }
}

/// A run on an input in which no pattern occurs gives the input back
/// unchanged, where it is allowed a step and the input is within the length
/// bound.
pub proof fn lemma_fixed_point(rules: Seq<RuleModel>, buf: Seq<char>, steps: nat, max_len: nat)
    requires
        stuck(rules, buf),
        steps > 0,
        byte_len(buf) <= max_len,
    ensures
        run(rules, buf, steps, max_len) == Some(buf),
{
    lemma_step_stuck(rules, buf);
}

/// Where the first rule that matches the input halts, the run ends with that
/// one replacement made, whatever the other rules could still do; the buffer
/// that it makes is held to the length bound like every other.
pub proof fn lemma_halt_ends_run(
    rules: Seq<RuleModel>,
    buf: Seq<char>,
    k: int,
    steps: nat,
    max_len: nat,
)
    requires
        first_match(rules, buf, k),
        rules[k].halt,
        steps > 0,
        byte_len(buf) <= max_len,
    ensures
        run(rules, buf, steps, max_len) == if byte_len(
            replace_first(buf, rules[k].pattern, rules[k].replacement),
        ) <= max_len {
            Some(replace_first(buf, rules[k].pattern, rules[k].replacement))
        } else {
            None
        },
{
    lemma_step_first_match(rules, buf, k);
}

/// A run that has not ended after all of its steps gives no result.
pub proof fn lemma_step_bound(rules: Seq<RuleModel>, buf: Seq<char>, steps: nat, max_len: nat)
    requires
        after(rules, buf, steps) is Some,
    ensures
        run(rules, buf, steps, max_len) is None,
    decreases steps,
{
    if steps > 0 && byte_len(buf) <= max_len {
        match step(rules, buf) {
            Outcome::Continue(next) => {
                lemma_step_bound(rules, next, (steps - 1) as nat, max_len);
            },
            _ => {},
        }
    }
}

/// A run that comes to a buffer longer than the length bound, by steps that
/// go on, gives no result.
pub proof fn lemma_length_bound(
    rules: Seq<RuleModel>,
    buf: Seq<char>,
    t: nat,
    steps: nat,
    max_len: nat,
)
    requires
        after(rules, buf, t) is Some,
        byte_len(after(rules, buf, t)->0) > max_len,
    ensures
        run(rules, buf, steps, max_len) is None,
    decreases t,
{
    if steps > 0 && byte_len(buf) <= max_len {
        match step(rules, buf) {
            Outcome::Continue(next) => {
                lemma_length_bound(rules, next, (t - 1) as nat, (steps - 1) as nat, max_len);
            },
            _ => {},
        }
    }
}

/// A run in which a halting rule makes a buffer longer than the length bound
/// gives no result.
pub proof fn lemma_length_bound_at_halt(
    rules: Seq<RuleModel>,
    buf: Seq<char>,
    t: nat,
    steps: nat,
    max_len: nat,
)
    requires
        halted(rules, buf, t) is Some,
        byte_len(halted(rules, buf, t)->0) > max_len,
    ensures
        run(rules, buf, steps, max_len) is None,
    decreases t,
{
    if steps > 0 && byte_len(buf) <= max_len {
        if t > 0 {
            match step(rules, buf) {
                Outcome::Continue(next) => {
                    lemma_length_bound_at_halt(
                        rules,
                        next,
                        (t - 1) as nat,
                        (steps - 1) as nat,
                        max_len,
                    );
                },
                _ => {},
            }
        }
    }
}

/// A run gives no result for one of three reasons only: it has not ended
/// after all of its steps, or one of its steps starts from a buffer longer
/// than the length bound, or a halting rule makes such a buffer.
pub proof fn lemma_no_result_has_cause(
    rules: Seq<RuleModel>,
    buf: Seq<char>,
    steps: nat,
    max_len: nat,
)
    requires
        run(rules, buf, steps, max_len) is None,
    ensures
        after(rules, buf, steps) is Some || exists|t: nat|
            t < steps && too_long_at(rules, buf, t, max_len),
    decreases steps,
{
    if steps == 0 {
    } else if byte_len(buf) > max_len {
        assert(after(rules, buf, 0) == Some(buf));
        assert(too_long_at(rules, buf, 0, max_len));
    } else {
        match step(rules, buf) {
            Outcome::Continue(next) => {
                lemma_no_result_has_cause(rules, next, (steps - 1) as nat, max_len);
                if after(rules, next, (steps - 1) as nat) is None {
                    let t = choose|t: nat| t < steps - 1 && too_long_at(rules, next, t, max_len);
                    assert(after(rules, buf, t + 1) == after(rules, next, t));
                    assert(too_long_at(rules, buf, t + 1, max_len));
                }
            },
            Outcome::End(next) => {
                assert(after(rules, buf, 0) == Some(buf));
                assert(halted(rules, buf, 0) == Some(next));
                assert(too_long_at(rules, buf, 0, max_len));
            },
            Outcome::NotApplied => {},
        }
    }
}

impl Program {
    /// The program as text: the rules in order, each followed by a line feed.
    pub fn to_string(&self) -> (text: String)
        ensures
            text@ == render_program(self@),
    {
        let mut text = String::new();
        let mut k: usize = 0;
        assert(self@.take(0) =~= Seq::<RuleModel>::empty());
        while k < self.0.len()
            invariant
                k <= self.0.len(),
                text@ == render_program(self@.take(k as int)),
            decreases self.0.len() - k,
        {
            let line = self.0[k].to_string();
            proof {
                reveal_strlit("\n");
                assert("\n"@ =~= seq!['\n']);
                let upto = self@.take(k + 1);
                assert(upto.drop_last() =~= self@.take(k as int));
                assert(upto.last() == self.0@[k as int]@);
            }
            text.append(line.as_str());
            text.append("\n");
            k += 1;
        }
        assert(self@.take(k as int) =~= self@);
        text
    }

    /// Tries the rules in order on `buf` and applies the first one that matches.
    pub fn step(&self, buf: &str) -> (r: RuleResult)
        ensures
            r@ == step(self@, buf@),
    {
        let mut k: usize = 0;
        assert(self@.skip(0) =~= self@);
        while k < self.0.len()
            invariant
                k <= self.0.len(),
                step(self@, buf@) == step(self@.skip(k as int), buf@),
            decreases self.0.len() - k,
        {
            let r = self.0[k].apply(buf);
            proof {
                assert(self@.skip(k as int)[0] == self.0@[k as int]@);
                assert(self@.skip(k as int).skip(1) =~= self@.skip(k + 1));
            }
            match r {
                RuleResult::NotApplied => {},
                fired => {
                    return fired;
                },
            }
            k += 1;
        }
        RuleResult::NotApplied
    }

    /// Runs the program on `input`.
    ///
    /// Each step applies the first matching rule once. The run ends with the
    /// buffer at which no rule matches, or with the buffer that a halting rule
    /// made. It gives `None` where `max_steps` steps did not end it, or where
    /// a buffer that it comes to is longer than `max_len` bytes: the input,
    /// a buffer that a step made, the one that a halting rule made.
    pub fn eval(&self, input: String, max_steps: usize, max_len: usize) -> (r: Option<String>)
        ensures
            match r {
                Some(s) => run(self@, input@, max_steps as nat, max_len as nat) == Some(s@),
                None => run(self@, input@, max_steps as nat, max_len as nat) is None,
            },
    {
        let mut buf = input;
        let mut time: usize = 0;
        while time < max_steps
            invariant
                time <= max_steps,
                run(self@, input@, max_steps as nat, max_len as nat) == run(
                    self@,
                    buf@,
                    (max_steps - time) as nat,
                    max_len as nat,
                ),
            decreases max_steps - time,
        {
            if buf.as_str().as_bytes().len() > max_len {
                return None;
            }
            match self.step(buf.as_str()) {
                RuleResult::Continue(next) => {
                    buf = next;
                },
                RuleResult::End(next) => {
                    if next.as_str().as_bytes().len() > max_len {
                        return None;
                    }
                    return Some(next);
                },
                RuleResult::NotApplied => {
                    return Some(buf);
                },
            }
            time += 1;
        }
        None
    }
}

} // verus!
