//! Rejecting programs that cannot be useful, without running them.

use vstd::prelude::*;

use crate::mao::{Program, RuleModel};

verus! {

/// Some rule replaces its pattern by itself: it can fire, and changes nothing.
pub open spec fn has_idle_rule(rules: Seq<RuleModel>) -> bool {
    exists|i: int| 0 <= i < rules.len() && rules[i].pattern == rules[i].replacement
}

/// Some rule has the pattern of an earlier rule: the earlier one always fires
/// first, so the later one never does. Whether the two rules halt plays no part.
pub open spec fn has_shadowed_rule(rules: Seq<RuleModel>) -> bool {
    exists|i: int, j: int| 0 <= j < i < rules.len() && rules[i].pattern == rules[j].pattern
}

/// Whether the program is certain to be useless: it holds a rule that changes
/// nothing, or a rule that can never fire.
pub fn prune(prg: &Program) -> (useless: bool)
    ensures
        useless <==> has_idle_rule(prg@) || has_shadowed_rule(prg@),
{
    let n: usize = prg.0.len();
    let mut k: usize = 0;
    while k < n
        invariant
            n == prg.0.len(),
            k <= n,
            forall|i: int| 0 <= i < k ==> prg@[i].pattern != prg@[i].replacement,
        decreases n - k,
    {
        let (s, t) = prg.0[k].unwrap();
        assert(prg@[k as int] == prg.0@[k as int]@);
        if *s == *t {
            return true;
        }
        k += 1;
    }
    let mut i: usize = 0;
    while i < n
        invariant
            n == prg.0.len(),
            i <= n,
            !has_idle_rule(prg@),
            forall|a: int, b: int| 0 <= b < a < i ==> prg@[a].pattern != prg@[b].pattern,
        decreases n - i,
    {
        let mut j: usize = 0;
        while j < i
            invariant
                n == prg.0.len(),
                i < n,
                j <= i,
                forall|b: int| 0 <= b < j ==> prg@[i as int].pattern != prg@[b].pattern,
            decreases i - j,
        {
            assert(prg@[i as int] == prg.0@[i as int]@);
            assert(prg@[j as int] == prg.0@[j as int]@);
            if *prg.0[i].unwrap().0 == *prg.0[j].unwrap().0 {
                return true;
            }
            j += 1;
        }
        i += 1;
    }
    false
}

} // verus!
