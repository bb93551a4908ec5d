use gnoll_roll::roll_parse::{parse_roll, parse_roll_with};
use gnoll_roll::roller::ScriptedRoller;

/// Parses a string, rolls it with the given values, first one first, and returns the total.
fn roll(die_str: &str, dice_rolls: &[u64]) -> i64 {
    let mut roller = ScriptedRoller::new(dice_rolls.to_vec());
    parse_roll_with(die_str, &mut roller).unwrap().1
}

#[test]
fn test_roll_0() {
    assert_eq!(roll("1d0", &[0]), 0);
}

#[test]
fn test_add() {
    assert_eq!(roll("5 + 7", &[]), 12);
}

#[test]
fn test_simple_roll() {
    assert_eq!(roll("5d6", &[1, 2, 3, 4, 5]), 15);
}

#[test]
fn test_roll_with_math() {
    assert_eq!(roll("1d6 - 7", &[1]), -6);
}

#[test]
fn test_comment() {
    assert_eq!(roll("1d20 + 17  # Seduce the dragon", &[3]), 20);
}

#[test]
fn test_leading_ws_comment() {
    assert_eq!(roll("1d20 +17#     Seduce the dragon", &[3]), 20);
}

#[test]
fn test_bad_parse() {
    assert!(parse_roll("spaghetti").is_err());
}

#[test]
fn test_keep_high() {
    assert_eq!(roll("2d20k1", &[17, 5]), 17);
}

#[test]
fn test_keep_low() {
    assert_eq!(roll("2d20 kl 1", &[17, 5]), 5);
}

#[test]
fn test_reroll() {
    assert_eq!(roll("3d10r3", &[7, 1, 3, 5]), 13);
}
