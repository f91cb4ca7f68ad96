use mao_solver::{intpair, intprogram, intrule, intstring, Program, Rule};

const WORDS: [&str; 6] = ["AB", "BA", "AC", "CA", "BC", "CB"];

fn cont(s: &str, t: &str) -> Rule {
    Rule::Replace(String::from(s), String::from(t))
}

fn halt(s: &str, t: &str) -> Rule {
    Rule::ReplaceEnd(String::from(s), String::from(t))
}

#[test]
fn pairs_follow_the_diagonals() {
    let expected = [(0, 0), (0, 1), (1, 0), (0, 2), (1, 1), (2, 0), (0, 3), (1, 2), (2, 1), (3, 0)];
    for (n, p) in expected.iter().enumerate() {
        assert_eq!(intpair(n), *p);
    }
}

#[test]
fn pair_of_a_large_position() {
    // diagonal 14141 starts at 14141 * 14142 / 2 = 99991011
    assert_eq!(intpair(99_991_011), (0, 14141));
    assert_eq!(intpair(100_000_000), (8989, 5152));
    assert_eq!(intpair(99_991_010), (14140, 0));
}

#[test]
fn pairs_are_distinct_and_cover_each_diagonal() {
    let mut seen = std::collections::BTreeSet::new();
    for n in 0..5050usize {
        let (x, y) = intpair(n);
        assert!(seen.insert((x, y)));
        let d = x + y;
        assert_eq!(d * (d + 1) / 2 + x, n);
    }
    // positions 0..5050 are exactly the pairs with sum below 100
    for x in 0..100usize {
        for y in 0..(100 - x) {
            assert!(seen.contains(&(x, y)));
        }
    }
    assert_eq!(seen.len(), 5050);
}

#[test]
fn successor_of_a_pair_moves_along_the_diagonal() {
    for n in 0..2000usize {
        let (x, y) = intpair(n);
        let next = if y == 0 { (0, x + 1) } else { (x + 1, y - 1) };
        assert_eq!(intpair(n + 1), next);
    }
}

#[test]
fn string_zero_is_empty() {
    assert_eq!(intstring(0, &WORDS), "");
    assert_eq!(intstring(0, &["x"]), "");
}

#[test]
fn strings_by_length_then_alphabet_order() {
    assert_eq!(intstring(1, &WORDS), "AB");
    assert_eq!(intstring(2, &WORDS), "BA");
    assert_eq!(intstring(3, &WORDS), "AC");
    assert_eq!(intstring(4, &WORDS), "CA");
    assert_eq!(intstring(5, &WORDS), "BC");
    assert_eq!(intstring(6, &WORDS), "CB");
    assert_eq!(intstring(7, &WORDS), "ABAB");
    assert_eq!(intstring(8, &WORDS), "ABBA");
    assert_eq!(intstring(12, &WORDS), "ABCB");
    assert_eq!(intstring(13, &WORDS), "BAAB");
    assert_eq!(intstring(42, &WORDS), "CBCB");
    assert_eq!(intstring(43, &WORDS), "ABABAB");
    assert_eq!(intstring(44, &WORDS), "ABABBA");
    assert_eq!(intstring(258, &WORDS), "CBCBCB");
    assert_eq!(intstring(259, &WORDS), "ABABABAB");
}

#[test]
fn strings_come_in_order_of_length_then_words() {
    // the places in the alphabet of the words of a text
    fn places(s: &str) -> Vec<usize> {
        (0..s.len() / 2)
            .map(|k| WORDS.iter().position(|w| *w == &s[2 * k..2 * k + 2]).unwrap())
            .collect()
    }
    let mut before = places(&intstring(0, &WORDS));
    for n in 1..3000usize {
        let now = places(&intstring(n, &WORDS));
        assert!(before.len() < now.len() || (before.len() == now.len() && before < now));
        before = now;
    }
}

#[test]
fn strings_over_one_word() {
    for n in 0..20usize {
        assert_eq!(intstring(n, &["ab"]), "ab".repeat(n));
    }
}

#[test]
fn strings_over_two_letters() {
    let got: Vec<String> = (0..8).map(|n| intstring(n, &["a", "b"])).collect();
    assert_eq!(got, vec!["", "a", "b", "aa", "ab", "ba", "bb", "aaa"]);
}

#[test]
fn nonzero_strings_are_nonempty_words_of_the_alphabet() {
    for n in 1..2000usize {
        let s = intstring(n, &WORDS);
        assert!(!s.is_empty());
        assert_eq!(s.len() % 2, 0);
        for k in 0..s.len() / 2 {
            assert!(WORDS.contains(&&s[2 * k..2 * k + 2]));
        }
    }
}

#[test]
fn strings_are_distinct() {
    let mut seen = std::collections::BTreeSet::new();
    for n in 0..5000usize {
        assert!(seen.insert(intstring(n, &WORDS)));
    }
}

#[test]
fn every_string_of_two_words_is_reached_once() {
    let got: Vec<String> = (7..43).map(|n| intstring(n, &WORDS)).collect();
    let mut count = 0;
    for (i, a) in WORDS.iter().enumerate() {
        for (j, b) in WORDS.iter().enumerate() {
            let s = format!("{}{}", a, b);
            assert_eq!(got.iter().filter(|g| **g == s).count(), 1);
            assert_eq!(intstring(7 + 6 * i + j, &WORDS), s);
            count += 1;
        }
    }
    assert_eq!(count, got.len());
}

#[test]
fn rules_by_number() {
    assert_eq!(intrule(0, &WORDS), cont("", ""));
    assert_eq!(intrule(1, &WORDS), halt("", ""));
    assert_eq!(intrule(2, &WORDS), cont("", "AB"));
    assert_eq!(intrule(3, &WORDS), halt("", "AB"));
    assert_eq!(intrule(4, &WORDS), cont("AB", ""));
    assert_eq!(intrule(5, &WORDS), halt("AB", ""));
    assert_eq!(intrule(9, &WORDS), halt("AB", "AB"));
    assert_eq!(intrule(16, &WORDS), cont("BA", "AB"));
    assert_eq!(intrule(64, &WORDS), cont("CA", "AC"));
    assert_eq!(intrule(144, &WORDS), cont("CB", "BC"));
}

#[test]
fn rules_are_distinct() {
    let mut seen: Vec<Rule> = Vec::new();
    for n in 0..600usize {
        let r = intrule(n, &WORDS);
        assert!(!seen.contains(&r));
        seen.push(r);
    }
}

#[test]
fn programs_by_number() {
    assert_eq!(intprogram(3, 0, &WORDS), Program(vec![cont("", ""), cont("", ""), cont("", "")]));
    assert_eq!(intprogram(3, 5, &WORDS), Program(vec![cont("", ""), cont("", ""), halt("", "")]));
    assert_eq!(intprogram(1, 16, &WORDS), Program(vec![cont("BA", "AB")]));
    assert_eq!(intprogram(2, 4, &WORDS), Program(vec![halt("", ""), halt("", "")]));
    assert_eq!(
        intprogram(3, 238_001_636, &WORDS),
        Program(vec![cont("BA", "AB"), cont("CB", "BC"), cont("CA", "AC")])
    );
}

#[test]
fn a_program_has_at_least_one_rule() {
    assert_eq!(intprogram(0, 16, &WORDS), intprogram(1, 16, &WORDS));
    assert_eq!(intprogram(0, 16, &WORDS).0.len(), 1);
    for lines in 1..6usize {
        assert_eq!(intprogram(lines, 1234, &WORDS).0.len(), lines);
    }
}

#[test]
fn programs_are_distinct() {
    let mut seen: Vec<Program> = Vec::new();
    for n in 0..400usize {
        let p = intprogram(3, n, &WORDS);
        assert!(!seen.contains(&p));
        seen.push(p);
    }
}
