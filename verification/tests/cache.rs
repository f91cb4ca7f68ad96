use mao_solver::{intpair, intprogram, intrule, intstring, Encoder};

const WORDS: [&str; 6] = ["AB", "BA", "AC", "CA", "BC", "CB"];

#[test]
fn new_encoder_knows_nothing() {
    let enc = Encoder::new(&WORDS, 100);
    assert_eq!(enc.entries(), (0, 0, 0));
}

#[test]
fn cached_results_are_the_plain_results() {
    let mut enc = Encoder::new(&WORDS, 300);
    for round in 0..2 {
        for n in 0..600usize {
            assert_eq!(enc.pair(n), intpair(n), "round {}", round);
            assert_eq!(enc.string(n), intstring(n, &WORDS));
            assert_eq!(enc.rule(n), intrule(n, &WORDS));
        }
        for n in (0..20_000usize).step_by(7) {
            assert_eq!(enc.program(3, n), intprogram(3, n, &WORDS));
        }
    }
}

#[test]
fn an_entry_is_stored_once() {
    let mut enc = Encoder::new(&WORDS, 100);
    assert_eq!(enc.pair(5), (2, 0));
    assert_eq!(enc.entries(), (1, 0, 0));
    assert_eq!(enc.pair(5), (2, 0));
    assert_eq!(enc.entries(), (1, 0, 0));
    assert_eq!(enc.string(7), "ABAB");
    assert_eq!(enc.string(7), "ABAB");
    assert_eq!(enc.entries(), (1, 1, 0));
}

#[test]
fn numbers_above_the_bound_are_not_stored() {
    let mut enc = Encoder::new(&WORDS, 10);
    assert_eq!(enc.pair(11), intpair(11));
    assert_eq!(enc.string(11), intstring(11, &WORDS));
    assert_eq!(enc.entries(), (0, 0, 0));
    assert_eq!(enc.pair(10), intpair(10));
    assert_eq!(enc.string(10), intstring(10, &WORDS));
    assert_eq!(enc.entries(), (1, 1, 0));
}

#[test]
fn a_rule_stores_its_parts() {
    let mut enc = Encoder::new(&WORDS, 100);
    // rule 16 is BA:AB, from the pair at position 8, which is (2, 1)
    assert_eq!(enc.rule(16), intrule(16, &WORDS));
    assert_eq!(enc.entries(), (1, 2, 1));
    assert_eq!(enc.rule(16), intrule(16, &WORDS));
    assert_eq!(enc.entries(), (1, 2, 1));
    // rule 17 is BA::AB, from the same pair and texts
    assert_eq!(enc.rule(17), intrule(17, &WORDS));
    assert_eq!(enc.entries(), (1, 2, 2));
}

#[test]
fn a_rule_above_the_bound_still_stores_its_parts() {
    let mut enc = Encoder::new(&WORDS, 10);
    assert_eq!(enc.rule(16), intrule(16, &WORDS));
    assert_eq!(enc.entries(), (1, 2, 0));
}

#[test]
fn programs_fill_the_tables() {
    let mut enc = Encoder::new(&WORDS, 1_000_000);
    let before = enc.entries();
    let p = enc.program(3, 5);
    assert_eq!(p, intprogram(3, 5, &WORDS));
    let after = enc.entries();
    assert!(after.0 > before.0 && after.1 > before.1 && after.2 > before.2);
    let again = enc.program(3, 5);
    assert_eq!(again, p);
    assert_eq!(enc.entries(), after);
}

#[test]
fn a_program_stores_its_pairs_and_rules() {
    let mut enc = Encoder::new(&WORDS, 1000);
    // program 5 of three rules: the pair at 5 is (2, 0), the pair at 2 is
    // (1, 0); its rules have the numbers 0, 0 and 1, all made from the pair
    // at position 0 and the empty text
    assert_eq!(enc.program(3, 5), intprogram(3, 5, &WORDS));
    assert_eq!(enc.entries(), (3, 1, 2));
    assert_eq!(enc.program(3, 5), intprogram(3, 5, &WORDS));
    assert_eq!(enc.entries(), (3, 1, 2));
}

#[test]
fn a_program_of_one_rule_stores_the_rule() {
    let mut enc = Encoder::new(&WORDS, 1000);
    assert_eq!(enc.program(1, 16), intprogram(1, 16, &WORDS));
    assert_eq!(enc.entries(), (1, 2, 1));
    let mut small = Encoder::new(&WORDS, 4);
    assert_eq!(small.program(2, 5), intprogram(2, 5, &WORDS));
    // the pair at 5 is above the bound; rules 0 and 2 and their parts are not
    assert_eq!(small.entries(), (2, 2, 2));
}
