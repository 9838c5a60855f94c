use markov_junior::algo::MarkovJunior;
use markov_junior::pattern::{Pattern, PatternRule};
use markov_junior::rule_sequence::{Rule, RuleKind};

fn set_pattern(mj: &mut MarkovJunior, line: &str) -> Pattern {
    let pattern = Pattern::new(line);
    let rule = Rule {
        patterns: vec![PatternRule::new(pattern.clone(), pattern.clone(), None)],
        kind: RuleKind::One,
        steps: None,
    };
    mj.precompute_canonical_forms(&rule);

    pattern
}

fn one_rule(input: &str, output: &str) -> Rule {
    Rule {
        patterns: vec![PatternRule::new(
            Pattern::new(input),
            Pattern::new(output),
            None,
        )],
        kind: RuleKind::One,
        steps: None,
    }
}

#[test]
fn markov_junior_test_pattern_fits_canonical() {
    let mut mj = MarkovJunior::new_grid("ABCDEFGHI", 3, 3, None);

    let pattern = set_pattern(&mut mj, "EF/HI");
    assert_eq!(mj.pattern_fits_canonical(0, 0, &pattern), None);
    assert_eq!(mj.pattern_fits_canonical(1, 1, &pattern), Some(1));
    assert_eq!(mj.pattern_fits_canonical(1, 0, &pattern), None);
    assert_eq!(mj.pattern_fits_canonical(0, 1, &pattern), None);

    let pattern = set_pattern(&mut mj, "AB/DE");
    assert_eq!(mj.pattern_fits_canonical(0, 0, &pattern), Some(1));

    let pattern_90 = set_pattern(&mut mj, "DA/EB");
    assert_eq!(mj.pattern_fits_canonical(0, 0, &pattern_90), Some(4));

    let pattern_180 = set_pattern(&mut mj, "ED/BA");
    assert_eq!(mj.pattern_fits_canonical(0, 0, &pattern_180), Some(3));

    let pattern_270 = set_pattern(&mut mj, "BE/AD");
    assert_eq!(mj.pattern_fits_canonical(0, 0, &pattern_270), Some(2));

    let pattern_mirror = set_pattern(&mut mj, "BA/ED");
    assert_eq!(mj.pattern_fits_canonical(0, 0, &pattern_mirror), Some(-1));

    let pattern_mirror_90 = set_pattern(&mut mj, "EB/DA");
    assert_eq!(mj.pattern_fits_canonical(0, 0, &pattern_mirror_90), Some(-2));

    let pattern_mirror_180 = set_pattern(&mut mj, "DE/AB");
    assert_eq!(
        mj.pattern_fits_canonical(0, 0, &pattern_mirror_180),
        Some(-3)
    );

    let pattern_mirror_270 = set_pattern(&mut mj, "AD/BE");
    assert_eq!(
        mj.pattern_fits_canonical(0, 0, &pattern_mirror_270),
        Some(-4)
    );
}

#[test]
fn markov_junior_test_pattern_fits() {
    let mut mj = MarkovJunior::new_grid("ABCDEFGHI", 3, 3, None);

    let pattern = set_pattern(&mut mj, "AB");
    assert_eq!(mj.pattern_fits(0, 0, &pattern), Some(1));

    let pattern = set_pattern(&mut mj, "BC");
    assert_eq!(mj.pattern_fits(1, 0, &pattern), Some(1));

    let pattern = set_pattern(&mut mj, "EF");
    assert_eq!(mj.pattern_fits(1, 1, &pattern), Some(1));

    let pattern = set_pattern(&mut mj, "HI");
    assert_eq!(mj.pattern_fits(1, 2, &pattern), Some(1));

    let pattern = set_pattern(&mut mj, "FI");
    assert_eq!(mj.pattern_fits(2, 1, &pattern), Some(2));

    let pattern = set_pattern(&mut mj, "IF");
    assert_eq!(mj.pattern_fits(2, 1, &pattern), Some(4));
}

#[test]
fn markov_junior_test_apply_canonical_pattern() {
    let mut mj = MarkovJunior::new('.', 5, 5, None);
    let pattern = Pattern::new("AB/CD");

    mj.apply_pattern(1, 1, &pattern, 1);
    assert_eq!(
        mj.grid,
        vec![
            b'.', b'.', b'.', b'.', b'.', b'.', b'A', b'B', b'.', b'.', b'.', b'C', b'D', b'.',
            b'.', b'.', b'.', b'.', b'.', b'.', b'.', b'.', b'.', b'.', b'.',
        ]
    );

    mj.apply_pattern(1, 1, &pattern, 2);
    assert_eq!(
        mj.grid,
        vec![
            b'.', b'.', b'.', b'.', b'.', b'.', b'C', b'A', b'.', b'.', b'.', b'D', b'B', b'.',
            b'.', b'.', b'.', b'.', b'.', b'.', b'.', b'.', b'.', b'.', b'.',
        ]
    );

    mj.apply_pattern(1, 1, &pattern, 3);
    assert_eq!(
        mj.grid,
        vec![
            b'.', b'.', b'.', b'.', b'.', b'.', b'D', b'C', b'.', b'.', b'.', b'B', b'A', b'.',
            b'.', b'.', b'.', b'.', b'.', b'.', b'.', b'.', b'.', b'.', b'.',
        ]
    );

    mj.apply_pattern(1, 1, &pattern, 4);
    assert_eq!(
        mj.grid,
        vec![
            b'.', b'.', b'.', b'.', b'.', b'.', b'B', b'D', b'.', b'.', b'.', b'A', b'C', b'.',
            b'.', b'.', b'.', b'.', b'.', b'.', b'.', b'.', b'.', b'.', b'.',
        ]
    );

    mj.apply_pattern(1, 1, &pattern, -1);
    assert_eq!(
        mj.grid,
        vec![
            b'.', b'.', b'.', b'.', b'.', b'.', b'B', b'A', b'.', b'.', b'.', b'D', b'C', b'.',
            b'.', b'.', b'.', b'.', b'.', b'.', b'.', b'.', b'.', b'.', b'.',
        ]
    );

    mj.apply_pattern(1, 1, &pattern, -2);
    assert_eq!(
        mj.grid,
        vec![
            b'.', b'.', b'.', b'.', b'.', b'.', b'D', b'B', b'.', b'.', b'.', b'C', b'A', b'.',
            b'.', b'.', b'.', b'.', b'.', b'.', b'.', b'.', b'.', b'.', b'.',
        ]
    );

    mj.apply_pattern(1, 1, &pattern, -3);
    assert_eq!(
        mj.grid,
        vec![
            b'.', b'.', b'.', b'.', b'.', b'.', b'C', b'D', b'.', b'.', b'.', b'A', b'B', b'.',
            b'.', b'.', b'.', b'.', b'.', b'.', b'.', b'.', b'.', b'.', b'.',
        ]
    );

    mj.apply_pattern(1, 1, &pattern, -4);
    assert_eq!(
        mj.grid,
        vec![
            b'.', b'.', b'.', b'.', b'.', b'.', b'A', b'C', b'.', b'.', b'.', b'B', b'D', b'.',
            b'.', b'.', b'.', b'.', b'.', b'.', b'.', b'.', b'.', b'.', b'.',
        ]
    );
}

#[test]
fn markov_junior_test_apply_wildcard_square_pattern() {
    let pattern = Pattern::new("A*/C*");

    let mut mj = MarkovJunior::new('.', 5, 5, None);
    mj.apply_pattern(1, 1, &pattern, 1);
    assert_eq!(
        mj.grid,
        vec![
            b'.', b'.', b'.', b'.', b'.', b'.', b'A', b'.', b'.', b'.', b'.', b'C', b'.', b'.',
            b'.', b'.', b'.', b'.', b'.', b'.', b'.', b'.', b'.', b'.', b'.',
        ]
    );

    let mut mj = MarkovJunior::new('.', 5, 5, None);
    mj.apply_pattern(1, 1, &pattern, 2);
    assert_eq!(
        mj.grid,
        vec![
            b'.', b'.', b'.', b'.', b'.', b'.', b'C', b'A', b'.', b'.', b'.', b'.', b'.', b'.',
            b'.', b'.', b'.', b'.', b'.', b'.', b'.', b'.', b'.', b'.', b'.',
        ]
    );

    let mut mj = MarkovJunior::new('.', 5, 5, None);
    mj.apply_pattern(1, 1, &pattern, 3);
    assert_eq!(
        mj.grid,
        vec![
            b'.', b'.', b'.', b'.', b'.', b'.', b'.', b'C', b'.', b'.', b'.', b'.', b'A', b'.',
            b'.', b'.', b'.', b'.', b'.', b'.', b'.', b'.', b'.', b'.', b'.',
        ]
    );

    let mut mj = MarkovJunior::new('.', 5, 5, None);
    mj.apply_pattern(1, 1, &pattern, 4);
    assert_eq!(
        mj.grid,
        vec![
            b'.', b'.', b'.', b'.', b'.', b'.', b'.', b'.', b'.', b'.', b'.', b'A', b'C', b'.',
            b'.', b'.', b'.', b'.', b'.', b'.', b'.', b'.', b'.', b'.', b'.',
        ]
    );
}

#[test]
fn markov_junior_test_apply_horizontal_pattern() {
    let pattern = Pattern::new("AB");

    let mut mj = MarkovJunior::new('.', 4, 4, None);
    mj.apply_pattern(1, 1, &pattern, 1);
    assert_eq!(
        mj.grid,
        vec![
            b'.', b'.', b'.', b'.', b'.', b'A', b'B', b'.', b'.', b'.', b'.', b'.', b'.', b'.',
            b'.', b'.',
        ]
    );

    let mut mj = MarkovJunior::new('.', 4, 4, None);
    mj.apply_pattern(1, 1, &pattern, 2);
    assert_eq!(
        mj.grid,
        vec![
            b'.', b'.', b'.', b'.', b'.', b'A', b'.', b'.', b'.', b'B', b'.', b'.', b'.', b'.',
            b'.', b'.',
        ]
    );

    let mut mj = MarkovJunior::new('.', 4, 4, None);
    mj.apply_pattern(1, 1, &pattern, 3);
    assert_eq!(
        mj.grid,
        vec![
            b'.', b'.', b'.', b'.', b'.', b'B', b'A', b'.', b'.', b'.', b'.', b'.', b'.', b'.',
            b'.', b'.',
        ]
    );

    let mut mj = MarkovJunior::new('.', 4, 4, None);
    mj.apply_pattern(1, 1, &pattern, 4);
    assert_eq!(
        mj.grid,
        vec![
            b'.', b'.', b'.', b'.', b'.', b'B', b'.', b'.', b'.', b'A', b'.', b'.', b'.', b'.',
            b'.', b'.',
        ]
    );
}

#[test]
fn markov_junior_test_apply_vertical_pattern() {
    let pattern = Pattern::new("A/B");

    let mut mj = MarkovJunior::new('.', 4, 4, None);
    mj.apply_pattern(1, 1, &pattern, 1);
    assert_eq!(
        mj.grid,
        vec![
            b'.', b'.', b'.', b'.', b'.', b'A', b'.', b'.', b'.', b'B', b'.', b'.', b'.', b'.',
            b'.', b'.',
        ]
    );

    let mut mj = MarkovJunior::new('.', 4, 4, None);
    mj.apply_pattern(1, 1, &pattern, 2);
    assert_eq!(
        mj.grid,
        vec![
            b'.', b'.', b'.', b'.', b'.', b'B', b'A', b'.', b'.', b'.', b'.', b'.', b'.', b'.',
            b'.', b'.',
        ]
    );

    let mut mj = MarkovJunior::new('.', 4, 4, None);
    mj.apply_pattern(1, 1, &pattern, 3);
    assert_eq!(
        mj.grid,
        vec![
            b'.', b'.', b'.', b'.', b'.', b'B', b'.', b'.', b'.', b'A', b'.', b'.', b'.', b'.',
            b'.', b'.',
        ]
    );

    let mut mj = MarkovJunior::new('.', 4, 4, None);
    mj.apply_pattern(1, 1, &pattern, 4);
    assert_eq!(
        mj.grid,
        vec![
            b'.', b'.', b'.', b'.', b'.', b'A', b'B', b'.', b'.', b'.', b'.', b'.', b'.', b'.',
            b'.', b'.',
        ]
    );
}

#[test]
fn markov_junior_test_apply_pattern_at_edge() {
    let mut mj = MarkovJunior::new('.', 5, 5, None);
    let pattern = Pattern::new("AB/CD");

    mj.apply_pattern(3, 3, &pattern, 1);

    assert_eq!(
        mj.grid,
        vec![
            b'.', b'.', b'.', b'.', b'.', b'.', b'.', b'.', b'.', b'.', b'.', b'.', b'.', b'.',
            b'.', b'.', b'.', b'.', b'A', b'B', b'.', b'.', b'.', b'C', b'D',
        ]
    );
}

#[test]
fn markov_junior_test_generate() {
    let mut mj = MarkovJunior::new('.', 3, 3, None);
    mj.grid = vec![b'B', b'W', b'G', b'B', b'W', b'G', b'B', b'W', b'G'];
    mj.apply_rule(&one_rule("BW", "WW"));

    assert_eq!(
        mj.grid,
        vec![b'W', b'W', b'G', b'W', b'W', b'G', b'W', b'W', b'G']
    );
}

#[test]
fn markov_junior_test_generate_2() {
    let mut mj = MarkovJunior::new('.', 3, 3, None);
    mj.grid = vec![b'B', b'W', b'G', b'B', b'W', b'G', b'B', b'W', b'G'];

    mj.apply_rule(&one_rule("WG", "WR"));

    assert_eq!(
        mj.grid,
        vec![b'B', b'W', b'R', b'B', b'W', b'R', b'B', b'W', b'R']
    );
}

#[test]
fn markov_junior_test_generate_3() {
    let mut mj = MarkovJunior::new('.', 3, 3, None);
    mj.grid = vec![b'B', b'W', b'G', b'B', b'W', b'G', b'B', b'W', b'G'];
    mj.apply_rule(&one_rule("BW", "WW"));
    mj.apply_rule(&one_rule("WG", "WR"));
    assert_eq!(
        mj.grid,
        vec![b'W', b'W', b'R', b'W', b'W', b'R', b'W', b'W', b'R']
    );
}

#[test]
fn markov_junior_test_generate_4() {
    let mut mj = MarkovJunior::new('.', 3, 3, None);
    mj.grid = vec![b'B', b'B', b'B', b'W', b'W', b'W', b'G', b'G', b'G'];
    mj.apply_rule(&one_rule("BW", "WW"));
    mj.apply_rule(&one_rule("WG", "WR"));
    assert_eq!(
        mj.grid,
        vec![b'W', b'W', b'W', b'W', b'W', b'W', b'R', b'R', b'R']
    );
}

#[test]
fn markov_junior_test_generate_5() {
    let mut mj = MarkovJunior::new('.', 3, 3, None);
    mj.grid = vec![b'B', b'B', b'B', b'W', b'W', b'W', b'G', b'G', b'G'];

    mj.apply_rule(&one_rule("BW", "WW"));

    assert_eq!(
        mj.grid,
        vec![b'W', b'W', b'W', b'W', b'W', b'W', b'G', b'G', b'G']
    );
}

#[test]
fn markov_junior_test_generate_6() {
    let mut mj = MarkovJunior::new('.', 3, 3, None);
    mj.grid = vec![b'B', b'B', b'B', b'B', b'B', b'B', b'B', b'B', b'W'];

    mj.apply_rule(&one_rule("WB", "WW"));

    assert_eq!(
        mj.grid,
        vec![b'W', b'W', b'W', b'W', b'W', b'W', b'W', b'W', b'W']
    );
}
