use mao_solver::{candidate, intprogram, prune, search, Encoder, Program, Rule, Verdict};

const WORDS: [&str; 6] = ["AB", "BA", "AC", "CA", "BC", "CB"];

fn cont(s: &str, t: &str) -> Rule {
    Rule::Replace(String::from(s), String::from(t))
}

fn halt(s: &str, t: &str) -> Rule {
    Rule::ReplaceEnd(String::from(s), String::from(t))
}

fn cases(pairs: &[(&str, &str)]) -> Vec<(String, String)> {
    pairs.iter().map(|(i, o)| (String::from(*i), String::from(*o))).collect()
}

fn sorting_cases() -> Vec<(String, String)> {
    cases(&[("ABC", "ABC"), ("ACB", "ABC"), ("CAB", "ABC"), ("BCABBA", "AABBBC")])
}

#[test]
fn all_cases_must_pass() {
    let p = Program(vec![cont("BA", "AB"), cont("CB", "BC"), cont("CA", "AC")]);
    assert!(mao_solver::search::test(&p, &sorting_cases(), 5000, 5000));
    let q = Program(vec![cont("BA", "AB"), cont("CB", "BC")]);
    assert!(!mao_solver::search::test(&q, &sorting_cases(), 5000, 5000));
    // the first three cases pass, the last one does not
    let r = Program(vec![cont("CB", "BC"), cont("CA", "AC")]);
    assert!(mao_solver::search::test(&r, &sorting_cases()[..3], 5000, 5000));
    assert!(!mao_solver::search::test(&r, &sorting_cases(), 5000, 5000));
}

#[test]
fn empty_test_set_passes() {
    let p = Program(vec![cont("a", "a")]);
    assert!(mao_solver::search::test(&p, &[], 0, 0));
}

#[test]
fn a_run_that_hits_a_bound_fails_its_case() {
    let p = Program(vec![cont("a", "b")]);
    assert!(mao_solver::search::test(&p, &cases(&[("aaa", "bbb")]), 4, 10));
    assert!(!mao_solver::search::test(&p, &cases(&[("aaa", "bbb")]), 3, 10));
    assert!(!mao_solver::search::test(&p, &cases(&[("aaa", "bbb")]), 4, 2));
}

#[test]
fn output_must_match_exactly() {
    let p = Program(vec![halt("a", "b")]);
    assert!(mao_solver::search::test(&p, &cases(&[("aa", "ba")]), 5, 5));
    assert!(!mao_solver::search::test(&p, &cases(&[("aa", "bb")]), 5, 5));
    assert!(!mao_solver::search::test(&p, &cases(&[("aa", "b")]), 5, 5));
}

#[test]
fn sorting_program_is_a_candidate_that_passes() {
    let n: usize = 238_001_636;
    let mut enc = Encoder::new(&WORDS, 100_000_000);
    let (prg, verdict) = candidate(&mut enc, 3, n, &sorting_cases(), 5000, 5000);
    assert_eq!(prg, Program(vec![cont("BA", "AB"), cont("CB", "BC"), cont("CA", "AC")]));
    assert_eq!(verdict, Verdict::Found);
    assert_eq!(search(&mut enc, 3, n, n + 1, &sorting_cases(), 5000, 5000), Some((n, prg)));
}

#[test]
fn no_false_positive_among_the_first_candidates() {
    let mut enc = Encoder::new(&WORDS, 100_000_000);
    let set = sorting_cases();
    assert_eq!(search(&mut enc, 3, 0, 2_000, &set, 5000, 5000), None);
    for n in (0..2_000usize).step_by(7) {
        let p = intprogram(3, n, &WORDS);
        assert!(prune(&p) || !mao_solver::search::test(&p, &set, 5000, 5000));
    }
}

#[test]
fn no_false_positive_under_tight_bounds() {
    // a run that ends within tight bounds ends the same way within wide ones
    let mut enc = Encoder::new(&WORDS, 100_000_000);
    let set = sorting_cases();
    assert_eq!(search(&mut enc, 3, 0, 20_000, &set, 60, 60), None);
}

#[test]
fn useless_candidate_is_pruned() {
    // candidate 0 is three times the rule that replaces nothing by nothing
    let mut enc = Encoder::new(&WORDS, 100);
    let (prg, verdict) = candidate(&mut enc, 3, 0, &[], 10, 10);
    assert!(prune(&prg));
    assert_eq!(verdict, Verdict::Pruned);
}

#[test]
fn candidate_that_fails_an_example() {
    let words = ["A", "B"];
    let mut enc = Encoder::new(&words, 100);
    // rule 15 is A::B
    let (prg, verdict) = candidate(&mut enc, 1, 15, &cases(&[("A", "A")]), 10, 10);
    assert_eq!(prg, Program(vec![halt("A", "B")]));
    assert_eq!(verdict, Verdict::Failed);
    let (_, verdict) = candidate(&mut enc, 1, 15, &cases(&[("A", "B")]), 10, 10);
    assert_eq!(verdict, Verdict::Found);
}

#[test]
fn search_finds_the_first_answer() {
    let words = ["A", "B"];
    let set = cases(&[("A", "B")]);
    let mut enc = Encoder::new(&words, 1000);
    assert_eq!(
        search(&mut enc, 1, 0, 100, &set, 50, 50),
        Some((14, Program(vec![cont("A", "B")])))
    );
    assert_eq!(
        search(&mut enc, 1, 15, 100, &set, 50, 50),
        Some((15, Program(vec![halt("A", "B")])))
    );
    assert_eq!(search(&mut enc, 1, 16, 200, &set, 50, 50), None);
    assert_eq!(search(&mut enc, 1, 0, 14, &set, 50, 50), None);
    assert_eq!(search(&mut enc, 1, 20, 10, &set, 50, 50), None);
}

#[test]
fn search_skips_every_candidate_that_fails() {
    let words = ["A", "B"];
    let set = cases(&[("AB", "BA"), ("B", "B")]);
    let mut enc = Encoder::new(&words, 1000);
    let found = search(&mut enc, 2, 0, 3000, &set, 50, 50);
    let (n, prg) = found.expect("an answer below the ceiling");
    assert_eq!(prg, intprogram(2, n, &words));
    assert!(!prune(&prg));
    assert!(mao_solver::search::test(&prg, &set, 50, 50));
    for j in 0..n {
        let p = intprogram(2, j, &words);
        assert!(prune(&p) || !mao_solver::search::test(&p, &set, 50, 50));
    }
}
