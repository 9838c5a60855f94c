use markov_junior::algo::MarkovJunior;
use markov_junior::pattern::{Pattern, PatternRule};
use markov_junior::rule_sequence::{Rule, RuleKind, RuleOrSequence, Sequence};
use markov_junior::PROB_SCALE;

fn rule(kind: RuleKind, input: &str, output: &str, probability: Option<u32>) -> Rule {
    Rule {
        patterns: vec![PatternRule::new(
            Pattern::new(input),
            Pattern::new(output),
            probability,
        )],
        kind,
        steps: None,
    }
}

#[test]
fn test_canonical_closure_over_all_images() {
    // Every dihedral image of a pattern canonicalizes to the same cells.
    let pattern = Pattern::new("WB/GR");
    let canonical = pattern.canonical_form.clone().unwrap();
    for image in pattern.rotations.iter() {
        let line: String = vec![image.data[0], image.data[1], '/', image.data[2], image.data[3]]
            .into_iter()
            .collect();
        let rotated = Pattern::new(&line);
        let rotated_canonical = rotated.canonical_form.clone().unwrap();
        assert_eq!(rotated_canonical.data, canonical.data);
    }
}

#[test]
fn test_rollback_rotation_non_square_and_wildcard() {
    // The round trip holds for non-square and wildcard-bearing patterns.
    for line in ["AB", "A/B", "A*/C*", "ABC/DEF"] {
        let pattern = Pattern::new(line);
        for image in pattern.rotations.iter() {
            assert_eq!(
                Pattern::rollback_rotation(
                    &image.data,
                    image.width,
                    image.height,
                    image.rotation
                ),
                pattern.data
            );
        }
    }
}

#[test]
fn test_converged_rule_stays_converged() {
    // Once apply_rule reports no change, it reports no change again.
    let mut mj = MarkovJunior::new('.', 3, 3, Some(11));
    mj.grid = vec![b'B', b'W', b'G', b'B', b'W', b'G', b'B', b'W', b'G'];
    let r = rule(RuleKind::One, "BW", "WW", None);
    while mj.apply_rule(&r) {}
    let grid_after = mj.grid.clone();
    assert!(!mj.apply_rule(&r));
    assert_eq!(mj.grid, grid_after);
    assert!(!mj.apply_rule(&r));
    assert_eq!(mj.grid, grid_after);
}

#[test]
fn test_determinism_same_seed() {
    // Two engines with the same seed, grid and rules end bit for bit equal.
    let sequence = Sequence {
        vec: vec![
            RuleOrSequence::Rule(rule(RuleKind::One, "B", "W", None)),
            RuleOrSequence::Rule(rule(RuleKind::Parallel, "W", "G", Some(PROB_SCALE / 2))),
        ],
        steps: Some(10),
    };
    let mut a = MarkovJunior::new('B', 8, 8, Some(42));
    let mut b = MarkovJunior::new('B', 8, 8, Some(42));
    let ca = a.apply_sequence(&sequence);
    let cb = b.apply_sequence(&sequence);
    assert_eq!(ca, cb);
    assert_eq!(a.grid, b.grid);
    assert_eq!(a.changes, b.changes);
}

#[test]
fn test_different_seeds_diverge() {
    // The seed reaches the draws: two seeds give different grids here.
    let r = rule(RuleKind::Parallel, "B", "W", Some(PROB_SCALE / 2));
    let mut a = MarkovJunior::new('B', 16, 16, Some(1));
    let mut b = MarkovJunior::new('B', 16, 16, Some(2));
    let mut ra = Rule {
        patterns: r.patterns.clone(),
        kind: r.kind,
        steps: Some(1),
    };
    a.apply_rule(&ra);
    ra = Rule {
        patterns: r.patterns.clone(),
        kind: r.kind,
        steps: Some(1),
    };
    b.apply_rule(&ra);
    assert_ne!(a.grid, b.grid);
}

#[test]
fn test_parallel_zero_probability_never_mutates() {
    // A Parallel rule with explicit probability zero on every rewrite
    // never touches the grid, step after step.
    let r = rule(RuleKind::Parallel, "B", "W", Some(0));
    let mut mj = MarkovJunior::new('B', 5, 5, Some(7));
    let before = mj.grid.clone();
    for _ in 0..5 {
        let changed = mj.apply_rule(&r);
        assert!(!changed);
        assert_eq!(mj.grid, before);
    }
    assert_eq!(mj.changes, 0);
}

#[test]
fn test_boundary_no_match_at_edge() {
    // A footprint that would cross the grid edge never matches, for any
    // rotation of the template.
    let mut mj = MarkovJunior::new_grid("ABCDEFGHI", 3, 3, None);
    let pattern = Pattern::new("AB/DE");
    let r = Rule {
        patterns: vec![PatternRule::new(pattern.clone(), pattern.clone(), None)],
        kind: RuleKind::One,
        steps: None,
    };
    mj.precompute_canonical_forms(&r);
    for x in 0..3usize {
        for y in 0..3usize {
            if x == 2 || y == 2 {
                assert_eq!(mj.pattern_fits(x, y, &pattern), None);
                assert_eq!(mj.pattern_fits_canonical(x, y, &pattern), None);
            }
        }
    }
    let wide = Pattern::new("AB");
    assert_eq!(mj.pattern_fits(2, 0, &wide), None);
}

#[test]
fn test_scenario_anchored_match() {
    // The pattern matches only at the top-left anchor, as the identity.
    let mut mj = MarkovJunior::new_grid("ABCDEFGHI", 3, 3, None);
    let pattern = Pattern::new("AB/DE");
    let r = Rule {
        patterns: vec![PatternRule::new(pattern.clone(), pattern.clone(), None)],
        kind: RuleKind::One,
        steps: None,
    };
    mj.precompute_canonical_forms(&r);
    for x in 0..3usize {
        for y in 0..3usize {
            let expected = if x == 0 && y == 0 { Some(1) } else { None };
            assert_eq!(mj.pattern_fits_canonical(x, y, &pattern), expected);
        }
    }
    let rotated = Pattern::new("DA/EB");
    for x in 0..3usize {
        for y in 0..3usize {
            let expected = if x == 0 && y == 0 { Some(4) } else { None };
            assert_eq!(mj.pattern_fits_canonical(x, y, &rotated), expected);
        }
    }
}

#[test]
fn test_scenario_apply_rotated_output() {
    // Writing "AB/CD" at (1, 1) turned 180 degrees lays down D, C, B, A.
    let mut mj = MarkovJunior::new('.', 5, 5, None);
    let pattern = Pattern::new("AB/CD");
    mj.apply_pattern(1, 1, &pattern, 3);
    assert_eq!(mj.grid[1 * 5 + 1], b'D');
    assert_eq!(mj.grid[1 * 5 + 2], b'C');
    assert_eq!(mj.grid[2 * 5 + 1], b'B');
    assert_eq!(mj.grid[2 * 5 + 2], b'A');
    for y in 0..5 {
        for x in 0..5 {
            if !(1 <= x && x <= 2 && 1 <= y && y <= 2) {
                assert_eq!(mj.grid[y * 5 + x], b'.');
            }
        }
    }
}

#[test]
fn test_scenario_one_convergence() {
    // A One rule runs to convergence: BW columns become WW columns.
    let mut mj = MarkovJunior::new('.', 3, 3, Some(3));
    mj.grid = vec![b'B', b'W', b'G', b'B', b'W', b'G', b'B', b'W', b'G'];
    let changed = mj.apply_rule(&rule(RuleKind::One, "BW", "WW", None));
    assert!(changed);
    assert_eq!(
        mj.grid,
        vec![b'W', b'W', b'G', b'W', b'W', b'G', b'W', b'W', b'G']
    );
}

#[test]
fn test_scenario_wildcard_preserving_output() {
    // One application of "BU/UB" -> "U*/**" flips exactly one cell to U.
    let mut mj = MarkovJunior::new('.', 2, 2, Some(5));
    mj.grid = vec![b'U', b'B', b'B', b'U'];
    let r = Rule {
        patterns: vec![PatternRule::new(
            Pattern::new("BU/UB"),
            Pattern::new("U*/**"),
            None,
        )],
        kind: RuleKind::One,
        steps: Some(1),
    };
    let changed = mj.apply_rule(&r);
    assert!(changed);
    assert_eq!(mj.changes, 1);
    let flipped: Vec<usize> = (0..4).filter(|&i| mj.grid[i] != [b'U', b'B', b'B', b'U'][i]).collect();
    assert_eq!(flipped.len(), 1);
    assert_eq!(mj.grid[flipped[0]], b'U');
}

#[test]
fn test_try_new_rejects_malformed_templates() {
    assert!(Pattern::try_new("").is_none());
    assert!(Pattern::try_new("/AB").is_none());
    assert!(Pattern::try_new("AB/C").is_none());
    assert!(Pattern::try_new("AB//CD").is_none());
    let p = Pattern::try_new("AB/CD").unwrap();
    assert_eq!(p.width, 2);
    assert_eq!(p.height, 2);
    assert_eq!(p.data, vec!['A', 'B', 'C', 'D']);
}

#[test]
fn test_all_rule_applies_every_match() {
    // An ungated All rule rewrites every match in one step.
    let mut mj = MarkovJunior::new('B', 4, 1, Some(9));
    let r = Rule {
        patterns: vec![PatternRule::new(
            Pattern::new("B"),
            Pattern::new("W"),
            None,
        )],
        kind: RuleKind::All,
        steps: Some(1),
    };
    let changed = mj.apply_rule(&r);
    assert!(changed);
    assert_eq!(mj.grid, vec![b'W', b'W', b'W', b'W']);
    assert_eq!(mj.changes, 4);
}

#[test]
fn test_seed_is_recorded() {
    let mj = MarkovJunior::new('B', 2, 2, Some(77));
    assert_eq!(mj.seed, 77);
}
