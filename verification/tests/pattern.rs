use markov_junior::pattern::Pattern;

#[test]
fn test_patterns_have_no_canonical_form() {
    let pattern = Pattern::new("WG");
    assert!(pattern.canonical_form.is_none());

    let pattern = Pattern::new("W");
    assert!(pattern.canonical_form.is_none());

    let pattern = Pattern::new("WW/B*");
    assert!(pattern.canonical_form.is_none());
}

#[test]
fn test_patterns_canonical_form() {
    let pattern = Pattern::new("WW/BB");
    let canonical_form = pattern.canonical_form.unwrap();

    assert_eq!(canonical_form.data, vec!['B', 'B', 'W', 'W']);
    assert_eq!(canonical_form.rotation, 3);
}

#[test]
fn test_rollback_rotation() {
    let pattern = Pattern::new("WG/WG");
    let canonical_form = pattern.canonical_form.clone().unwrap();

    assert_eq!(
        Pattern::rollback_rotation(
            &canonical_form.data,
            pattern.width,
            pattern.height,
            canonical_form.rotation
        ),
        pattern.data
    );

    for rotated_data in pattern.rotations.iter() {
        assert_eq!(
            Pattern::rollback_rotation(
                &rotated_data.data,
                pattern.width,
                pattern.height,
                rotated_data.rotation
            ),
            pattern.data
        );
    }
}

#[test]
fn test_non_square_pattern_2x1() {
    let pattern = Pattern::new("AB");
    assert_eq!(pattern.width, 2);
    assert_eq!(pattern.height, 1);
    assert_eq!(pattern.data, vec!['A', 'B']);
    assert_eq!(pattern.rotations.len(), 8);
    assert_eq!(pattern.unique_rotations.len(), 4);
}
