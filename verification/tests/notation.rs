use gnoll_roll::dice::{
    apply_modifier, find_defect, is_outcome, render_entries, roll_die, roll_entries,
    total_entries, RollEntry,
};
use gnoll_roll::error::{Expected, ParseError};
use gnoll_roll::eval::{combine, evaluate, Progress};
use gnoll_roll::parser::parse;
use gnoll_roll::roll_parse::{parse_roll, parse_roll_with, reply_text};
use gnoll_roll::roller::{draw_bounds, face_of_draw, Roller, ScriptedRoller, ThreadRoller};
use gnoll_roll::ranking::face_order;
use gnoll_roll::text::{characters, format_integer, parse_numeral};
use gnoll_roll::tree::{DieRoll, Modifier, Node, Operator};
use std::cmp::Ordering;

fn scripted(die_str: &str, script: &[u64]) -> Result<(String, i64), ParseError> {
    let mut roller = ScriptedRoller::new(script.to_vec());
    parse_roll_with(die_str, &mut roller)
}

fn display(die_str: &str, script: &[u64]) -> String {
    scripted(die_str, script).unwrap().0
}

fn syntax_error(position: usize, expected: Expected) -> ParseError {
    ParseError::SyntaxError { position, expected }
}

#[test]
fn keep_high_strikes_the_lower_die() {
    assert_eq!(scripted("2d20k1", &[17, 5]), Ok(("(17+~~5~~) = 17".to_string(), 17)));
    assert_eq!(scripted("2d20kh1", &[17, 5]), Ok(("(17+~~5~~) = 17".to_string(), 17)));
    assert_eq!(scripted("2d20k1", &[5, 17]), Ok(("(~~5~~+17) = 17".to_string(), 17)));
}

#[test]
fn keep_low_strikes_the_higher_die() {
    assert_eq!(scripted("2d20 kl 1", &[17, 5]), Ok(("(~~17~~+5) = 5".to_string(), 5)));
}

#[test]
fn keep_shows_the_dice_in_the_order_rolled() {
    assert_eq!(display("4d6k2", &[3, 6, 5, 1]), "(~~3~~+6+5+~~1~~) = 11");
    assert_eq!(display("4d6kl2", &[3, 6, 5, 1]), "(3+~~6~~+~~5~~+1) = 4");
    assert_eq!(display("5d10k3", &[2, 9, 4, 10, 7]), "(~~2~~+9+~~4~~+10+7) = 26");
}

#[test]
fn keep_prefers_the_earlier_die_among_equals() {
    assert_eq!(display("3d6k1", &[4, 4, 4]), "(4+~~4~~+~~4~~) = 4");
    assert_eq!(display("3d6kl2", &[2, 2, 2]), "(2+2+~~2~~) = 4");
    assert_eq!(display("4d6k2", &[6, 1, 6, 6]), "(6+~~1~~+6+~~6~~) = 12");
    assert_eq!(display("4d6kl1", &[5, 2, 2, 5]), "(~~5~~+2+~~2~~+~~5~~) = 2");
}

#[test]
fn keep_all_and_keep_none() {
    assert_eq!(display("2d6k2", &[1, 2]), "(1+2) = 3");
    assert_eq!(display("2d6k0", &[1, 2]), "(~~1~~+~~2~~) = 0");
}

#[test]
fn reroll_replaces_each_target_once() {
    assert_eq!(
        scripted("3d10r3", &[7, 1, 3, 5]),
        Ok(("(7+1+~~3~~+5) = 13".to_string(), 13))
    );
    assert_eq!(display("3d10r3", &[3, 5, 3, 8, 2]), "(~~3~~+5+~~3~~+8+2) = 15");
}

#[test]
fn reroll_is_not_chained() {
    assert_eq!(display("1d6r3", &[3, 3]), "(~~3~~+3) = 3");
    assert_eq!(display("2d6r3", &[3, 3, 3, 4]), "(~~3~~+3+~~3~~+4) = 7");
}

#[test]
fn reroll_of_a_face_that_never_shows() {
    assert_eq!(display("2d6r9", &[6, 1]), "(6+1) = 7");
}

#[test]
fn operators_apply_from_left_to_right() {
    assert_eq!(scripted("2 + 3 * 4", &[]), Ok(("2 + 3 * 4 = 20".to_string(), 20)));
    assert_eq!(scripted("10 - 2 - 3", &[]).unwrap().1, 5);
    assert_eq!(scripted("1 + 2 * 3 - 4 / 2", &[]).unwrap().1, 2);
}

#[test]
fn division_rounds_toward_zero() {
    assert_eq!(scripted("7 / 2", &[]), Ok(("7 / 2 = 3".to_string(), 3)));
    assert_eq!(scripted("1 - 8 / 2", &[]), Ok(("1 - 8 / 2 = -3".to_string(), -3)));
    assert_eq!(scripted("0 - 7 / 2", &[]).unwrap().1, -3);
    assert_eq!(combine(Some(Operator::Divide), 7, 2), Ok(3));
    assert_eq!(combine(Some(Operator::Divide), -7, 2), Ok(-3));
    assert_eq!(combine(Some(Operator::Divide), 7, -2), Ok(-3));
    assert_eq!(combine(Some(Operator::Divide), -7, -2), Ok(3));
    assert_eq!(combine(Some(Operator::Divide), 6, 3), Ok(2));
}

#[test]
fn combine_takes_the_first_term_as_the_total() {
    assert_eq!(combine(None, 0, 12), Ok(12));
    assert_eq!(combine(Some(Operator::Add), 5, 7), Ok(12));
    assert_eq!(combine(Some(Operator::Subtract), 5, 7), Ok(-2));
    assert_eq!(combine(Some(Operator::Multiply), 5, 7), Ok(35));
}

#[test]
fn combine_reports_what_does_not_fit() {
    assert_eq!(combine(Some(Operator::Add), i64::MAX, 1), Err(ParseError::Overflow));
    assert_eq!(combine(Some(Operator::Subtract), i64::MIN, 1), Err(ParseError::Overflow));
    assert_eq!(combine(Some(Operator::Multiply), i64::MAX, 2), Err(ParseError::Overflow));
    assert_eq!(combine(Some(Operator::Divide), i64::MIN, -1), Err(ParseError::Overflow));
    assert_eq!(combine(Some(Operator::Divide), 1, 0), Err(ParseError::DivideByZero));
}

#[test]
fn comment_is_kept_apart_from_the_blanks_around_it() {
    let spaced = scripted("1d20 + 1  # hello", &[12]).unwrap();
    let tight = scripted("1d20 +1# hello", &[12]).unwrap();
    assert_eq!(spaced.1, 13);
    assert_eq!(tight.1, 13);
    assert_eq!(spaced.0, "(12) + 1 = 13  # hello");
    assert_eq!(tight.0, "(12) + 1 = 13  # hello");
    for text in ["1d20 + 1  # hello", "1d20 +1# hello", "1d20+1 #hello", "1d20+1#\t  hello"] {
        let tree = parse(text).unwrap();
        assert_eq!(tree.nodes().last(), Some(&Node::Comment("hello".to_string())));
    }
}

#[test]
fn comment_runs_to_the_end_of_the_input() {
    let tree = parse("1 # one + two # three  ").unwrap();
    assert_eq!(
        tree.nodes(),
        &vec![Node::Number("1".to_string()), Node::Comment("one + two # three  ".to_string())]
    );
    assert_eq!(display("1 #", &[]), "1 = 1  # ");
    assert_eq!(display("2d4 # \u{e9}t\u{e9}", &[1, 2]), "(1+2) = 3  # \u{e9}t\u{e9}");
}

#[test]
fn garbage_is_a_syntax_error() {
    assert_eq!(parse_roll("spaghetti"), Err(syntax_error(0, Expected::Integer)));
    assert_eq!(scripted("spaghetti", &[1, 2, 3]), Err(syntax_error(0, Expected::Integer)));
}

#[test]
fn syntax_errors_carry_the_offending_position() {
    assert_eq!(scripted("", &[]), Err(syntax_error(0, Expected::Integer)));
    assert_eq!(scripted("   ", &[]), Err(syntax_error(3, Expected::Integer)));
    assert_eq!(scripted("1 +", &[]), Err(syntax_error(3, Expected::Integer)));
    assert_eq!(scripted("1 + + 2", &[]), Err(syntax_error(4, Expected::Integer)));
    assert_eq!(scripted("1d", &[]), Err(syntax_error(2, Expected::Integer)));
    assert_eq!(scripted("d6", &[]), Err(syntax_error(0, Expected::Integer)));
    assert_eq!(scripted("2d6k", &[]), Err(syntax_error(4, Expected::Integer)));
    assert_eq!(scripted("2d6kl x", &[]), Err(syntax_error(6, Expected::Integer)));
    assert_eq!(scripted("2d6r", &[]), Err(syntax_error(4, Expected::Integer)));
    assert_eq!(scripted("1d6 x", &[]), Err(syntax_error(4, Expected::Operator)));
    assert_eq!(scripted("1 2", &[]), Err(syntax_error(2, Expected::Operator)));
    assert_eq!(scripted("5k1", &[]), Err(syntax_error(1, Expected::Operator)));
    assert_eq!(scripted("2d6k1r2", &[]), Err(syntax_error(5, Expected::Operator)));
    assert_eq!(scripted("1 % 2", &[]), Err(syntax_error(2, Expected::Operator)));
    assert_eq!(scripted("2D6", &[]), Err(syntax_error(1, Expected::Operator)));
    assert_eq!(scripted("-1", &[]), Err(syntax_error(0, Expected::Integer)));
    assert_eq!(scripted("1\n+ 2", &[]), Err(syntax_error(1, Expected::Operator)));
}

#[test]
fn nothing_is_rolled_for_text_that_does_not_parse() {
    let mut roller = ScriptedRoller::new(vec![1, 2, 3]);
    assert!(parse_roll_with("3d6 +", &mut roller).is_err());
    assert_eq!(roller.remaining(), 3);
}

#[test]
fn blanks_between_tokens_count_for_nothing() {
    assert_eq!(display("  2  d  6  k  1  +  3  ", &[2, 5]), "(~~2~~+5) + 3 = 8");
    assert_eq!(display("2d6k1+3", &[2, 5]), "(~~2~~+5) + 3 = 8");
    assert_eq!(display("\t2d6\tkh\t1\t+\t3", &[2, 5]), "(~~2~~+5) + 3 = 8");
    assert_eq!(display("1d6r 1", &[1, 4]), "(~~1~~+4) = 4");
}

#[test]
fn parse_gives_the_nodes_in_source_order() {
    let tree = parse("007 + 2d20k1 * 3d10r3 / 4d6kl2 - 1d8 # go").unwrap();
    let die = |count, sides, modifier| Node::DieRoll(DieRoll { count, sides, modifier });
    assert_eq!(
        tree.nodes(),
        &vec![
            Node::Number("007".to_string()),
            Node::Operator(Operator::Add),
            die(2, 20, Some(Modifier::KeepHigh(1))),
            Node::Operator(Operator::Multiply),
            die(3, 10, Some(Modifier::RerollOnce(3))),
            Node::Operator(Operator::Divide),
            die(4, 6, Some(Modifier::KeepLow(2))),
            Node::Operator(Operator::Subtract),
            die(1, 8, None),
            Node::Comment("go".to_string()),
        ]
    );
}

#[test]
fn number_is_displayed_as_written() {
    assert_eq!(scripted("007 + 01", &[]), Ok(("007 + 01 = 8".to_string(), 8)));
}

#[test]
fn evaluate_follows_the_tree() {
    let tree = parse("2d6 + 1d4 * 2").unwrap();
    let mut roller = ScriptedRoller::new(vec![3, 4, 2, 6]);
    assert_eq!(evaluate(&tree, &mut roller), Ok(("(3+4) + (2) * 2 = 18".to_string(), 18)));
    assert_eq!(roller.remaining(), 1);
}

#[test]
fn division_by_zero_is_an_error() {
    assert_eq!(scripted("1 / 0", &[]), Err(ParseError::DivideByZero));
    assert_eq!(scripted("4 / 1d0", &[]), Err(ParseError::DivideByZero));
    assert_eq!(scripted("4 / 2d6k0", &[1, 2]), Err(ParseError::DivideByZero));
    assert_eq!(scripted("0 / 0", &[]), Err(ParseError::DivideByZero));
    assert_eq!(scripted("0 / 5", &[]).unwrap().1, 0);
}

#[test]
fn term_without_dice_is_an_error() {
    assert_eq!(scripted("0d6", &[]), Err(ParseError::NoDice));
    assert_eq!(scripted("1 + 0d6k0", &[]), Err(ParseError::NoDice));
}

#[test]
fn keeping_more_dice_than_rolled_is_an_error() {
    assert_eq!(scripted("2d6k3", &[1, 2]), Err(ParseError::KeepExceedsCount));
    assert_eq!(scripted("2d6kl3", &[1, 2]), Err(ParseError::KeepExceedsCount));
    let mut roller = ScriptedRoller::new(vec![1, 2]);
    assert!(parse_roll_with("2d6k3", &mut roller).is_err());
    assert_eq!(roller.remaining(), 2);
}

#[test]
fn numbers_that_do_not_fit_are_an_error() {
    assert_eq!(scripted("9223372036854775807", &[]).unwrap().1, i64::MAX);
    assert_eq!(scripted("9223372036854775808", &[]), Err(ParseError::Overflow));
    assert_eq!(scripted("99999999999999999999d6", &[]), Err(ParseError::Overflow));
    assert_eq!(scripted("1d99999999999999999999", &[]), Err(ParseError::Overflow));
    assert_eq!(scripted("2d6k99999999999999999999", &[]), Err(ParseError::Overflow));
    assert_eq!(scripted("9223372036854775807 + 1", &[]), Err(ParseError::Overflow));
    assert_eq!(scripted("0 - 9223372036854775807 - 2", &[]), Err(ParseError::Overflow));
    assert_eq!(scripted("4611686018427387904 * 2", &[]), Err(ParseError::Overflow));
    assert_eq!(
        scripted("2d9223372036854775807", &[9223372036854775807, 1]),
        Err(ParseError::Overflow)
    );
    assert_eq!(scripted("0 - 9223372036854775807 - 1", &[]).unwrap().1, i64::MIN);
}

#[test]
fn the_first_failure_from_the_left_is_reported() {
    assert_eq!(scripted("1 / 0 + 0d6", &[]), Err(ParseError::DivideByZero));
    assert_eq!(scripted("0d6 + 1 / 0", &[]), Err(ParseError::NoDice));
    assert_eq!(scripted("1 / 0 +", &[]), Err(syntax_error(7, Expected::Integer)));
}

#[test]
fn a_syntax_error_is_reported_whatever_the_size_of_the_numbers() {
    assert_eq!(
        scripted("99999999999999999999 +", &[]),
        Err(syntax_error(22, Expected::Integer))
    );
    assert_eq!(
        scripted("99999999999999999999d6 x", &[]),
        Err(syntax_error(23, Expected::Operator))
    );
    assert_eq!(
        scripted("1d99999999999999999999k", &[]),
        Err(syntax_error(23, Expected::Integer))
    );
    assert_eq!(
        scripted("2d6k99999999999999999999 + 1 +", &[]),
        Err(syntax_error(30, Expected::Integer))
    );
    assert_eq!(
        scripted("1 + 99999999999999999999 2", &[]),
        Err(syntax_error(25, Expected::Operator))
    );
    assert_eq!(parse_roll("99999999999999999999 +"), Err(syntax_error(22, Expected::Integer)));
}

#[test]
fn a_number_too_large_is_reported_of_text_that_conforms() {
    assert_eq!(scripted("99999999999999999999", &[]), Err(ParseError::Overflow));
    assert_eq!(scripted("99999999999999999999 + 1", &[]), Err(ParseError::Overflow));
    assert_eq!(scripted("1 + 99999999999999999999 # big", &[]), Err(ParseError::Overflow));
    assert_eq!(scripted("1 / 0 + 99999999999999999999", &[]), Err(ParseError::Overflow));
    assert_eq!(scripted("0d6 + 2d99999999999999999999kl1", &[]), Err(ParseError::Overflow));
    assert_eq!(
        scripted("00000000000000000000000000000000000007 + 1", &[]),
        Ok(("00000000000000000000000000000000000007 + 1 = 8".to_string(), 8))
    );
    assert_eq!(scripted("0000000000000000000000002d006k01", &[3, 5]).unwrap().1, 5);
    let mut roller = ScriptedRoller::new(vec![1, 2]);
    assert!(parse_roll_with("2d6 + 99999999999999999999", &mut roller).is_err());
    assert_eq!(roller.remaining(), 2);
}

#[test]
fn every_draw_gives_a_face_and_every_face_has_a_draw() {
    assert_eq!(draw_bounds(6), (0, 6));
    assert_eq!(draw_bounds(2), (0, 2));
    assert_eq!(draw_bounds(u64::MAX), (0, u64::MAX));
    let faces: Vec<u64> = (0..6).map(|draw| face_of_draw(6, draw)).collect();
    assert_eq!(faces, vec![1, 2, 3, 4, 5, 6]);
    assert_eq!(face_of_draw(2, 0), 1);
    assert_eq!(face_of_draw(2, 1), 2);
    assert_eq!(face_of_draw(u64::MAX, u64::MAX - 1), u64::MAX);
}

#[test]
fn random_dice_show_their_highest_face() {
    let mut roller = ThreadRoller::new();
    let mut seen = [false; 3];
    for _ in 0..400 {
        seen[roller.roll(3) as usize - 1] = true;
    }
    assert_eq!(seen, [true, true, true]);
    let mut high = false;
    for _ in 0..400 {
        high = high || roller.roll(2) == 2;
    }
    assert!(high);
}

#[test]
fn degenerate_dice_show_their_number_of_sides() {
    assert_eq!(parse_roll("5d1"), Ok(("(1+1+1+1+1) = 5".to_string(), 5)));
    assert_eq!(parse_roll("3d0"), Ok(("(0+0+0) = 0".to_string(), 0)));
    assert_eq!(scripted("3d1", &[9, 0, 4]), Ok(("(1+1+1) = 3".to_string(), 3)));
    assert_eq!(scripted("2d0", &[9, 4]), Ok(("(0+0) = 0".to_string(), 0)));
    let mut roller = ThreadRoller::new();
    for _ in 0..50 {
        assert_eq!(roller.roll(1), 1);
        assert_eq!(roller.roll(0), 0);
    }
}

#[test]
fn random_dice_show_faces_and_the_total_is_their_sum() {
    let mut roller = ThreadRoller::new();
    let die = DieRoll { count: 500, sides: 6, modifier: None };
    let entries = roll_entries(&die, &mut roller).unwrap();
    assert_eq!(entries.len(), 500);
    let mut sum = 0;
    for entry in &entries {
        match entry {
            RollEntry::Normal(v) => {
                assert!(1 <= *v && *v <= 6);
                sum += *v;
            }
            RollEntry::Discard(_) => panic!("a plain term discards nothing"),
        }
    }
    assert_eq!(total_entries(&entries), Some(sum));
    let (text, total) = parse_roll("20d6").unwrap();
    let (fragment, shown_total) = text.split_once(" = ").unwrap();
    assert_eq!(shown_total, total.to_string());
    let inner = fragment.strip_prefix('(').unwrap().strip_suffix(')').unwrap();
    let faces: Vec<i64> = inner.split('+').map(|face| face.parse().unwrap()).collect();
    assert_eq!(faces.len(), 20);
    assert!(faces.iter().all(|face| 1 <= *face && *face <= 6));
    assert_eq!(faces.iter().sum::<i64>(), total);
}

#[test]
fn random_dice_differ() {
    let mut roller = ThreadRoller::new();
    let sides = 1u64 << 40;
    let mut seen = Vec::new();
    for _ in 0..16 {
        let face = roller.roll(sides);
        assert!(1 <= face && face <= sides);
        seen.push(face);
    }
    assert!(seen.iter().any(|face| *face != seen[0]));
    assert!(seen.iter().any(|face| *face != 1));
    for _ in 0..200 {
        let face = roller.roll(2);
        assert!(face == 1 || face == 2);
    }
}

#[test]
fn random_keep_and_reroll_hold_their_shape() {
    let mut roller = ThreadRoller::new();
    let keep = DieRoll { count: 50, sides: 20, modifier: Some(Modifier::KeepHigh(10)) };
    let entries = roll_entries(&keep, &mut roller).unwrap();
    assert_eq!(entries.len(), 50);
    let kept: Vec<i64> = entries
        .iter()
        .filter_map(|e| if let RollEntry::Normal(v) = e { Some(*v) } else { None })
        .collect();
    let dropped: Vec<i64> = entries
        .iter()
        .filter_map(|e| if let RollEntry::Discard(v) = e { Some(*v) } else { None })
        .collect();
    assert_eq!(kept.len(), 10);
    assert!(kept.iter().min().unwrap() >= dropped.iter().max().unwrap());
    let reroll = DieRoll { count: 200, sides: 4, modifier: Some(Modifier::RerollOnce(2)) };
    let entries = roll_entries(&reroll, &mut roller).unwrap();
    let discards = entries.iter().filter(|e| matches!(e, RollEntry::Discard(_))).count();
    assert_eq!(entries.len(), 200 + discards);
    for pair in entries.windows(2) {
        if let RollEntry::Discard(v) = pair[0] {
            assert_eq!(v, 2);
            assert!(matches!(pair[1], RollEntry::Normal(_)));
        }
    }
    assert!(!matches!(entries.last(), Some(RollEntry::Discard(_))));
}

#[test]
fn scripted_roller_plays_first_in_first_out() {
    let mut roller = ScriptedRoller::new(vec![3, 1, 6]);
    assert_eq!(roller.remaining(), 3);
    assert_eq!(roller.roll(6), 3);
    assert_eq!(roller.roll(6), 1);
    assert_eq!(roller.remaining(), 1);
    assert_eq!(roller.roll(6), 6);
    assert_eq!(roller.remaining(), 0);
}

#[test]
fn scripted_roller_moves_an_outcome_to_the_nearest_face() {
    let mut roller = ScriptedRoller::new(vec![0, 7, 100, 5]);
    assert_eq!(roller.roll(6), 1);
    assert_eq!(roller.roll(6), 6);
    assert_eq!(roller.roll(1), 1);
    assert_eq!(roller.roll(0), 0);
    assert_eq!(roller.remaining(), 0);
}

#[test]
fn scripted_roller_shows_the_lowest_face_when_the_script_is_over() {
    let mut roller = ScriptedRoller::new(vec![]);
    assert_eq!(roller.roll(6), 1);
    assert_eq!(roller.roll(1), 1);
    assert_eq!(roller.roll(0), 0);
    assert_eq!(roller.remaining(), 0);
    assert_eq!(scripted("3d6", &[5]), Ok(("(5+1+1) = 7".to_string(), 7)));
}

#[test]
fn roll_die_gives_fragment_and_total() {
    let mut roller = ScriptedRoller::new(vec![4, 2, 6]);
    let die = DieRoll { count: 3, sides: 6, modifier: Some(Modifier::KeepHigh(2)) };
    assert_eq!(roll_die(&die, &mut roller), Ok(("(4+~~2~~+6)".to_string(), 10)));
    let mut roller = ScriptedRoller::new(vec![4]);
    let die = DieRoll { count: 1, sides: 6, modifier: None };
    assert_eq!(roll_die(&die, &mut roller), Ok(("(4)".to_string(), 4)));
    let die = DieRoll { count: 1, sides: u64::MAX, modifier: None };
    assert_eq!(roll_die(&die, &mut roller), Err(ParseError::Overflow));
}

#[test]
fn render_entries_joins_with_plus() {
    assert_eq!(render_entries(&vec![]), "()");
    assert_eq!(render_entries(&vec![RollEntry::Normal(3)]), "(3)");
    assert_eq!(render_entries(&vec![RollEntry::Discard(3)]), "(~~3~~)");
    assert_eq!(
        render_entries(&vec![RollEntry::Normal(10), RollEntry::Discard(2), RollEntry::Normal(7)]),
        "(10+~~2~~+7)"
    );
}

#[test]
fn total_entries_counts_normal_entries_only() {
    assert_eq!(total_entries(&vec![]), Some(0));
    assert_eq!(
        total_entries(&vec![RollEntry::Normal(10), RollEntry::Discard(2), RollEntry::Normal(7)]),
        Some(17)
    );
    assert_eq!(total_entries(&vec![RollEntry::Discard(i64::MAX), RollEntry::Discard(1)]), Some(0));
    assert_eq!(total_entries(&vec![RollEntry::Normal(i64::MAX), RollEntry::Normal(1)]), None);
    assert_eq!(
        total_entries(&vec![
            RollEntry::Normal(i64::MAX),
            RollEntry::Normal(1),
            RollEntry::Normal(-1)
        ]),
        Some(i64::MAX)
    );
}

#[test]
fn format_integer_writes_decimal_numerals() {
    assert_eq!(format_integer(0), "0");
    assert_eq!(format_integer(7), "7");
    assert_eq!(format_integer(10), "10");
    assert_eq!(format_integer(-1), "-1");
    assert_eq!(format_integer(1234567890), "1234567890");
    assert_eq!(format_integer(i64::MAX), "9223372036854775807");
    assert_eq!(format_integer(i64::MIN), "-9223372036854775808");
}

#[test]
fn parse_numeral_reads_decimal_numerals() {
    assert_eq!(parse_numeral("0"), Ok(0));
    assert_eq!(parse_numeral("0042"), Ok(42));
    assert_eq!(parse_numeral("9223372036854775807"), Ok(i64::MAX));
    assert_eq!(parse_numeral("9223372036854775808"), Err(ParseError::Overflow));
    assert_eq!(parse_numeral("99999999999999999999999"), Err(ParseError::Overflow));
    assert_eq!(parse_numeral(""), Err(syntax_error(0, Expected::Integer)));
    assert_eq!(parse_numeral("12a"), Err(syntax_error(2, Expected::Integer)));
    assert_eq!(parse_numeral("-3"), Err(syntax_error(0, Expected::Integer)));
    assert_eq!(parse_numeral(" 3"), Err(syntax_error(0, Expected::Integer)));
}

#[test]
fn characters_are_read_in_order() {
    assert_eq!(characters(""), Vec::<char>::new());
    assert_eq!(characters("  12ab"), vec![' ', ' ', '1', '2', 'a', 'b']);
    assert_eq!(characters("d\u{e9}s"), vec!['d', '\u{e9}', 's']);
}

#[test]
fn apply_modifier_tags_given_faces() {
    let plain = DieRoll { count: 3, sides: 6, modifier: None };
    assert_eq!(
        apply_modifier(&plain, &vec![1, 6, 3]),
        Some(vec![RollEntry::Normal(1), RollEntry::Normal(6), RollEntry::Normal(3)])
    );
    let high = DieRoll { count: 2, sides: 20, modifier: Some(Modifier::KeepHigh(1)) };
    assert_eq!(
        apply_modifier(&high, &vec![17, 5]),
        Some(vec![RollEntry::Normal(17), RollEntry::Discard(5)])
    );
    let low = DieRoll { count: 2, sides: 20, modifier: Some(Modifier::KeepLow(1)) };
    assert_eq!(
        apply_modifier(&low, &vec![17, 5]),
        Some(vec![RollEntry::Discard(17), RollEntry::Normal(5)])
    );
    let reroll = DieRoll { count: 3, sides: 10, modifier: Some(Modifier::RerollOnce(3)) };
    assert_eq!(
        apply_modifier(&reroll, &vec![7, 1, 3, 5]),
        Some(vec![
            RollEntry::Normal(7),
            RollEntry::Normal(1),
            RollEntry::Discard(3),
            RollEntry::Normal(5)
        ])
    );
}

#[test]
fn apply_modifier_refuses_what_is_no_outcome() {
    let plain = DieRoll { count: 3, sides: 6, modifier: None };
    assert_eq!(apply_modifier(&plain, &vec![1, 6]), None);
    assert_eq!(apply_modifier(&plain, &vec![1, 6, 3, 2]), None);
    assert_eq!(apply_modifier(&plain, &vec![1, 7, 3]), None);
    assert_eq!(apply_modifier(&plain, &vec![1, 0, 3]), None);
    let none = DieRoll { count: 0, sides: 6, modifier: None };
    assert_eq!(apply_modifier(&none, &vec![]), None);
    let keep = DieRoll { count: 2, sides: 6, modifier: Some(Modifier::KeepHigh(3)) };
    assert_eq!(apply_modifier(&keep, &vec![1, 2]), None);
    let reroll = DieRoll { count: 2, sides: 6, modifier: Some(Modifier::RerollOnce(3)) };
    assert_eq!(apply_modifier(&reroll, &vec![1]), None);
    assert_eq!(apply_modifier(&reroll, &vec![1, 3]), None);
    assert_eq!(apply_modifier(&reroll, &vec![3, 3]), None);
    assert_eq!(apply_modifier(&reroll, &vec![1, 2, 4]), None);
    assert_eq!(apply_modifier(&reroll, &vec![3, 3, 3, 3, 1]), None);
    assert_eq!(
        apply_modifier(&reroll, &vec![3, 3, 3, 3]),
        Some(vec![
            RollEntry::Discard(3),
            RollEntry::Normal(3),
            RollEntry::Discard(3),
            RollEntry::Normal(3)
        ])
    );
}

#[test]
fn is_outcome_tells_full_outcomes() {
    let plain = DieRoll { count: 2, sides: 6, modifier: None };
    assert!(is_outcome(&plain, &vec![1, 6]));
    assert!(!is_outcome(&plain, &vec![1]));
    assert!(!is_outcome(&plain, &vec![1, 7]));
    let degenerate = DieRoll { count: 2, sides: 1, modifier: None };
    assert!(is_outcome(&degenerate, &vec![1, 1]));
    assert!(!is_outcome(&degenerate, &vec![1, 0]));
    let zero = DieRoll { count: 1, sides: 0, modifier: None };
    assert!(is_outcome(&zero, &vec![0]));
    assert!(!is_outcome(&zero, &vec![1]));
    let reroll = DieRoll { count: 3, sides: 10, modifier: Some(Modifier::RerollOnce(3)) };
    assert!(is_outcome(&reroll, &vec![7, 1, 3, 5]));
    assert!(is_outcome(&reroll, &vec![7, 1, 2]));
    assert!(!is_outcome(&reroll, &vec![7, 1, 3]));
    assert!(!is_outcome(&reroll, &vec![7, 1, 2, 5]));
}

#[test]
fn find_defect_names_what_is_wrong_with_a_term() {
    let die = |count, sides, modifier| DieRoll { count, sides, modifier };
    assert_eq!(find_defect(&die(1, 6, None)), None);
    assert_eq!(find_defect(&die(1, 0, None)), None);
    assert_eq!(find_defect(&die(2, 6, Some(Modifier::KeepHigh(2)))), None);
    assert_eq!(find_defect(&die(2, 6, Some(Modifier::RerollOnce(9)))), None);
    assert_eq!(find_defect(&die(0, 6, None)), Some(ParseError::NoDice));
    assert_eq!(find_defect(&die(0, u64::MAX, Some(Modifier::KeepLow(1)))), Some(ParseError::NoDice));
    assert_eq!(find_defect(&die(1, 1 << 63, None)), Some(ParseError::Overflow));
    assert_eq!(find_defect(&die(1, i64::MAX as u64, None)), None);
    assert_eq!(
        find_defect(&die(2, 6, Some(Modifier::KeepHigh(3)))),
        Some(ParseError::KeepExceedsCount)
    );
    assert_eq!(
        find_defect(&die(2, 6, Some(Modifier::KeepLow(3)))),
        Some(ParseError::KeepExceedsCount)
    );
}

#[test]
fn face_order_puts_the_better_keeper_first() {
    assert_eq!(face_order(false, 6, 2), Ordering::Less);
    assert_eq!(face_order(false, 2, 6), Ordering::Greater);
    assert_eq!(face_order(false, 4, 4), Ordering::Equal);
    assert_eq!(face_order(true, 6, 2), Ordering::Greater);
    assert_eq!(face_order(true, 2, 6), Ordering::Less);
    assert_eq!(face_order(true, 4, 4), Ordering::Equal);
}

#[test]
fn progress_steps_through_the_nodes() {
    let mut roller = ScriptedRoller::new(vec![2, 5]);
    let progress = Progress::new();
    assert_eq!(progress.total, 0);
    assert_eq!(progress.display, "");
    assert_eq!(progress.pending, None);
    assert_eq!(progress.comment, None);
    let progress = progress.step(&Node::Number("10".to_string()), &mut roller).unwrap();
    assert_eq!((progress.total, progress.display.as_str()), (10, "10"));
    let progress = progress.step(&Node::Operator(Operator::Subtract), &mut roller).unwrap();
    assert_eq!((progress.total, progress.display.as_str()), (10, "10 - "));
    assert_eq!(progress.pending, Some(Operator::Subtract));
    let die = DieRoll { count: 2, sides: 6, modifier: Some(Modifier::KeepLow(1)) };
    let progress = progress.step(&Node::DieRoll(die), &mut roller).unwrap();
    assert_eq!((progress.total, progress.display.as_str()), (8, "10 - (2+~~5~~)"));
    let progress = progress.step(&Node::Comment("why".to_string()), &mut roller).unwrap();
    assert_eq!(progress.comment, Some("why".to_string()));
    assert_eq!(progress.finish(), ("10 - (2+~~5~~) = 8  # why".to_string(), 8));
}

#[test]
fn progress_refuses_a_number_that_is_no_numeral() {
    let mut roller = ScriptedRoller::new(vec![]);
    let step = |text: &str, roller: &mut ScriptedRoller| {
        Progress::new().step(&Node::Number(text.to_string()), roller).map(|p| p.total)
    };
    assert_eq!(step("12", &mut roller), Ok(12));
    assert_eq!(step("", &mut roller), Err(syntax_error(0, Expected::Integer)));
    assert_eq!(step("x1", &mut roller), Err(syntax_error(0, Expected::Integer)));
    assert_eq!(step("12x", &mut roller), Err(syntax_error(2, Expected::Integer)));
    assert_eq!(step("9223372036854775808", &mut roller), Err(ParseError::Overflow));
}

#[test]
fn reply_quotes_the_request() {
    assert_eq!(
        reply_text("/gr 1d6 + 1", &Ok(("(4) + 1 = 5".to_string(), 5))),
        "`/gr 1d6 + 1` (4) + 1 = 5"
    );
    assert_eq!(reply_text("/gr nonsense", &Err(ParseError::DivideByZero)), "Bad format.");
    assert_eq!(
        reply_text("/gr x", &Err(syntax_error(0, Expected::Integer))),
        "Bad format."
    );
}

#[test]
fn a_display_does_not_parse_again() {
    let (shown, _) = scripted("5 + 7", &[]).unwrap();
    assert_eq!(shown, "5 + 7 = 12");
    assert_eq!(scripted(&shown, &[]), Err(syntax_error(6, Expected::Operator)));
    let (shown, _) = scripted("2d6k1 + 3  # note", &[2, 5]).unwrap();
    assert_eq!(shown, "(~~2~~+5) + 3 = 8  # note");
    assert_eq!(scripted(&shown, &[]), Err(syntax_error(0, Expected::Integer)));
    let (shown, _) = scripted("4 - 1d6 # why", &[6]).unwrap();
    assert_eq!(shown, "4 - (6) = -2  # why");
    assert_eq!(scripted(&shown, &[]), Err(syntax_error(4, Expected::Integer)));
    for text in ["1d20", "7", "1 + 1 # x", "3d6r1 * 2"] {
        let (shown, _) = parse_roll(text).unwrap();
        assert!(matches!(parse_roll(&shown), Err(ParseError::SyntaxError { .. })));
    }
}
