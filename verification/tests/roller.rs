use rustroller::DiceRoller;
use rustroller::dice::DiceCache;
use rustroller::diceroller::RollPart;
use rustroller::diceroller::string_to_parts;
use rustroller::diceroller::total_fits_i64;
use rustroller::diceroller::totals_fit_u32;
use rustroller::notation::ParseError;
use rustroller::random::choice;
use rustroller::random::from_to;

fn dice_fields(part: &RollPart) -> (u32, u32, bool, Option<String>) {
    match part {
        RollPart::DiceRoll(dr) => (dr.count, dr.faces, dr.positive, dr.descriptor.clone()),
        _ => panic!("expected a dice term"),
    }
}

fn flat_fields(part: &RollPart) -> (u32, bool, Option<String>) {
    match part {
        RollPart::AlgebraicElement(a) => (a.amount, a.positive, a.descriptor.clone()),
        _ => panic!("expected a flat term"),
    }
}

#[test]
fn one_d20_parses_to_single_positive_dice_term() {
    let parts = string_to_parts("1d20").unwrap();
    assert_eq!(parts.len(), 1);
    let (count, faces, positive, descriptor) = dice_fields(&parts[0]);
    assert_eq!(count, 1);
    assert_eq!(faces, 20);
    assert!(positive);
    assert!(descriptor.is_none());
}

#[test]
fn one_d20_total_lies_in_range() {
    let mut roller = DiceRoller::new();
    for _ in 0..100 {
        let total = roller.string_to_result("1d20").unwrap();
        assert!(1 <= total && total <= 20);
    }
}

#[test]
fn two_d6_plus_three_parses_and_totals_in_range() {
    let parts = string_to_parts("2d6+3").unwrap();
    assert_eq!(parts.len(), 2);
    let (count, faces, positive, _) = dice_fields(&parts[0]);
    assert_eq!(count, 2);
    assert_eq!(faces, 6);
    assert!(positive);
    let (amount, positive2, _) = flat_fields(&parts[1]);
    assert_eq!(amount, 3);
    assert!(positive2);
    let mut roller = DiceRoller::new();
    for _ in 0..100 {
        let total = roller.string_to_result("2d6+3").unwrap();
        assert!(5 <= total && total <= 15);
    }
}

#[test]
fn opposite_signed_dice_total_in_symmetric_range() {
    let parts = string_to_parts("1d4-1d4").unwrap();
    assert_eq!(parts.len(), 2);
    let (_, _, positive0, _) = dice_fields(&parts[0]);
    let (_, _, positive1, _) = dice_fields(&parts[1]);
    assert!(positive0);
    assert!(!positive1);
    let mut roller = DiceRoller::new();
    for _ in 0..100 {
        let total = roller.string_to_result("1d4-1d4").unwrap();
        assert!(-3 <= total && total <= 3);
    }
}

#[test]
fn missing_count_is_unrecognized() {
    assert_eq!(string_to_parts("d6").unwrap_err(), ParseError::UnrecognizedTerm);
}

#[test]
fn missing_faces_is_unrecognized() {
    assert_eq!(string_to_parts("1d").unwrap_err(), ParseError::UnrecognizedTerm);
}

#[test]
fn second_term_without_sign_is_missing_sign() {
    assert_eq!(string_to_parts("1d6 1d4").unwrap_err(), ParseError::MissingSign);
}

#[test]
fn empty_string_is_unrecognized() {
    assert_eq!(string_to_parts("").unwrap_err(), ParseError::UnrecognizedTerm);
}

#[test]
fn leading_space_without_sign_is_unrecognized() {
    assert_eq!(string_to_parts(" 1d6").unwrap_err(), ParseError::UnrecognizedTerm);
}

#[test]
fn explicit_leading_sign_with_spaces_is_accepted() {
    let parts = string_to_parts("+ 1d6").unwrap();
    assert_eq!(parts.len(), 1);
    let (count, faces, positive, _) = dice_fields(&parts[0]);
    assert_eq!((count, faces, positive), (1, 6, true));
    let parts = string_to_parts("-2").unwrap();
    let (amount, positive, _) = flat_fields(&parts[0]);
    assert_eq!(amount, 2);
    assert!(!positive);
}

#[test]
fn spaces_around_an_inner_sign_are_skipped() {
    let parts = string_to_parts("1d6 + 2").unwrap();
    assert_eq!(parts.len(), 2);
    let (amount, positive, _) = flat_fields(&parts[1]);
    assert_eq!(amount, 2);
    assert!(positive);
}

#[test]
fn uppercase_dice_marker_is_accepted() {
    let parts = string_to_parts("2D6").unwrap();
    let (count, faces, _, _) = dice_fields(&parts[0]);
    assert_eq!((count, faces), (2, 6));
}

#[test]
fn descriptor_is_captured_without_parentheses() {
    let parts = string_to_parts("2d6(fire)+3 (gold coins)").unwrap();
    assert_eq!(parts.len(), 2);
    let (_, _, _, descriptor) = dice_fields(&parts[0]);
    assert_eq!(descriptor.as_deref(), Some("fire"));
    let (_, _, descriptor2) = flat_fields(&parts[1]);
    assert_eq!(descriptor2.as_deref(), Some("gold coins"));
}

#[test]
fn empty_and_nested_descriptors() {
    let parts = string_to_parts("2d6()").unwrap();
    let (_, _, _, descriptor) = dice_fields(&parts[0]);
    assert_eq!(descriptor.as_deref(), Some(""));
    let parts = string_to_parts("2d6 (a(b)").unwrap();
    let (_, _, _, descriptor) = dice_fields(&parts[0]);
    assert_eq!(descriptor.as_deref(), Some("a(b"));
}

#[test]
fn unclosed_descriptor_is_not_consumed() {
    assert_eq!(string_to_parts("3 (abc").unwrap_err(), ParseError::MissingSign);
}

#[test]
fn count_overflow_is_reported() {
    assert_eq!(string_to_parts("99999999999d6").unwrap_err(), ParseError::NumericOverflow);
}

#[test]
fn faces_overflow_is_reported() {
    assert_eq!(string_to_parts("1d4294967296").unwrap_err(), ParseError::NumericOverflow);
}

#[test]
fn amount_overflow_is_reported() {
    assert_eq!(string_to_parts("4294967296").unwrap_err(), ParseError::NumericOverflow);
    let parts = string_to_parts("4294967295").unwrap();
    let (amount, _, _) = flat_fields(&parts[0]);
    assert_eq!(amount, u32::MAX);
}

#[test]
fn zero_count_and_zero_faces_are_rejected() {
    assert_eq!(string_to_parts("0d6").unwrap_err(), ParseError::UnrecognizedTerm);
    assert_eq!(string_to_parts("1d0").unwrap_err(), ParseError::UnrecognizedTerm);
}

#[test]
fn rendering_reproduces_canonical_notation() {
    let parts = string_to_parts("2d6(fire)+1d4-3").unwrap();
    assert_eq!(parts[0].as_string(), "+2d6 (fire)");
    assert_eq!(parts[1].as_string(), "+1d4");
    assert_eq!(parts[2].as_string(), "-3");
}

#[test]
fn rendered_notation_parses_back_to_the_same_terms() {
    let original = "2d6(fire)+1d4-3+10 (gold)";
    let parts = string_to_parts(original).unwrap();
    let mut rendered = String::new();
    for part in parts.iter() {
        rendered.push_str(&part.as_string());
    }
    let reparsed = string_to_parts(&rendered).unwrap();
    assert_eq!(parts.len(), reparsed.len());
    for (a, b) in parts.iter().zip(reparsed.iter()) {
        assert_eq!(a.as_string(), b.as_string());
        assert_eq!(a.positive(), b.positive());
        assert_eq!(a.descriptor(), b.descriptor());
    }
}

#[test]
fn flat_breakdown_records_the_literal_amount() {
    let mut roller = DiceRoller::new();
    let results = roller.string_to_results("5").unwrap();
    assert_eq!(results.len(), 1);
    assert_eq!(results[0].results, vec![5]);
    assert_eq!(results[0].total, 5);
    assert_eq!(results[0].total_i64(), 5);
}

#[test]
fn dice_breakdown_values_lie_in_range_and_sum() {
    let mut roller = DiceRoller::new();
    for _ in 0..50 {
        let results = roller.string_to_results("3d6").unwrap();
        assert_eq!(results.len(), 1);
        assert_eq!(results[0].results.len(), 3);
        let mut sum: u32 = 0;
        for v in results[0].results.iter() {
            assert!(1 <= *v && *v <= 6);
            sum += *v;
        }
        assert_eq!(results[0].total, sum);
    }
}

#[test]
fn breakdown_signed_totals_compose_into_a_grand_total() {
    let mut roller = DiceRoller::new();
    for _ in 0..50 {
        let results = roller.string_to_results("2d8+3-1d4").unwrap();
        assert_eq!(results.len(), 3);
        let mut grand: i64 = 0;
        for pr in results.iter() {
            let signed = pr.total_i64();
            if pr.part.positive() {
                assert_eq!(signed, pr.total as i64);
            } else {
                assert_eq!(signed, -(pr.total as i64));
            }
            grand += signed;
        }
        assert!(2 + 3 - 4 <= grand && grand <= 16 + 3 - 1);
    }
}

#[test]
fn negative_flat_breakdown_signs_its_total() {
    let mut roller = DiceRoller::new();
    let results = roller.string_to_results("-7").unwrap();
    assert_eq!(results[0].total, 7);
    assert_eq!(results[0].total_i64(), -7);
}

#[test]
fn breakdown_preserves_input_order() {
    let mut roller = DiceRoller::new();
    let results = roller.string_to_results("1d4+9-2d6").unwrap();
    assert_eq!(results[0].part.as_string(), "+1d4");
    assert_eq!(results[1].part.as_string(), "+9");
    assert_eq!(results[2].part.as_string(), "-2d6");
    assert_eq!(results[1].descriptor(), None);
}

#[test]
fn cache_returns_the_same_die_for_one_face_count() {
    let mut cache = DiceCache::new();
    let faces_first = cache.get(6).faces;
    let faces_again = cache.get(6).faces;
    assert_eq!(faces_first, 6);
    assert_eq!(faces_again, 6);
    let other = cache.get(8).faces;
    assert_eq!(other, 8);
    for _ in 0..50 {
        let roll6 = cache.get(6).roll();
        assert!(1 <= roll6 && roll6 <= 6);
        let roll8 = cache.get(8).roll();
        assert!(1 <= roll8 && roll8 <= 8);
    }
}

#[test]
fn roller_reuses_its_cache_across_evaluations() {
    let mut roller = DiceRoller::new();
    for _ in 0..20 {
        let total = roller.string_to_result("1d20").unwrap();
        assert!(1 <= total && total <= 20);
        let total2 = roller.string_to_result("2d20").unwrap();
        assert!(2 <= total2 && total2 <= 40);
    }
}

#[test]
fn uniform_range_endpoints_are_respected() {
    assert_eq!(from_to(4, 4), 4);
    for _ in 0..100 {
        let v = from_to(1, 3);
        assert!(1 <= v && v <= 3);
    }
}

#[test]
fn choice_picks_an_element_of_the_slice() {
    let data = vec![10u32, 20, 30];
    for _ in 0..50 {
        let picked = *choice(&data);
        assert!(picked == 10 || picked == 20 || picked == 30);
    }
}

#[test]
fn bound_checks_accept_ordinary_notation() {
    let parts = string_to_parts("100d100+4294967295").unwrap();
    assert!(total_fits_i64(&parts));
    assert!(totals_fit_u32(&parts));
}

#[test]
fn bound_check_rejects_oversized_single_term() {
    let parts = string_to_parts("4294967295d4294967295").unwrap();
    assert!(!totals_fit_u32(&parts));
}
