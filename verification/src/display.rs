//! The display is no notation.
//!
//! What an evaluation displays is for people to read. It holds an `=`
//! before any `#`, and round brackets where it shows dice, and none of
//! these is a token of the grammar: no display parses again.

use crate::dice::{die_entries, entry_text, entry_texts, fragment, term_result, RollEntry};
use crate::eval::{evaluation, initial, node_taken, run, step_of, symbol, ProgressView};
use crate::grammar::{
    all_blank, formed, lemma_syntax_comes_first, operator_of, parse_of, syntax_of,
    terms_and_operators, without_comment, Phrase,
};
use crate::notation::{
    lemma_writing_of, phrase_text, suffix_text, word_text, writable, written, Spacing,
};
use crate::roll_parse::roll_of;
use crate::text::{
    decimal_digits, decimal_text, is_digit, is_numeral, is_space, joined, lemma_decimal_round_trip,
    numeral_of,
};
use crate::tree::NodeView;
use vstd::prelude::*;

verus! {

/// Whether `c` can stand in notation outside a comment: a digit, blank
/// space, a letter of `d`, `k`, `kh`, `kl` and `r`, or the sign of an
/// operator.
pub open spec fn is_notation_char(c: char) -> bool {
    ||| is_digit(c)
    ||| is_space(c)
    ||| c == 'd'
    ||| c == 'k'
    ||| c == 'h'
    ||| c == 'l'
    ||| c == 'r'
    ||| operator_of(c) is Some
}

/// Whether every character of `s` can stand in notation outside a comment.
pub open spec fn all_notation(s: Seq<char>) -> bool {
    forall|i: int| 0 <= i < s.len() ==> is_notation_char(#[trigger] s[i])
}

/// Whether `s` from position `i` on holds, up to its first `#`, only what
/// can stand in notation outside a comment.
pub open spec fn clean_from(s: Seq<char>, i: int) -> bool
    decreases s.len() - i,
{
    if i < 0 || i >= s.len() {
        true
    } else if s[i] == '#' {
        true
    } else {
        is_notation_char(s[i]) && clean_from(s, i + 1)
    }
}

/// No display parses again: what an evaluation displays is refused by the
/// grammar as a syntax error, whatever the tree and whatever the dice.
pub proof fn lemma_display_is_no_notation(tree: Seq<NodeView>, faces: Seq<u64>)
    requires
        evaluation(tree, faces) is Ok,
    ensures
        parse_of(evaluation(tree, faces)->Ok_0.0) is Err,
        parse_of(evaluation(tree, faces)->Ok_0.0)->Err_0 is SyntaxError,
{
    let display = evaluation(tree, faces)->Ok_0.0;
    let progress = run(tree, 0, initial(), faces).outcome->Ok_0;
    lemma_run_shows_no_hash(tree, 0, initial(), faces);
    let shown = progress.display + seq![' '];
    let after = seq!['=', ' '] + decimal_text(progress.total);
    let more = match progress.comment {
        Some(text) => after + seq![' ', ' ', '#', ' '] + text,
        None => after,
    };
    assert(display =~= shown + more);
    assert(more[0] == '=');
    assert forall|i: int| 0 <= i < shown.len() implies #[trigger] shown[i] != '#' by {
        if i < progress.display.len() {
            assert(shown[i] == progress.display[i]);
        }
    }
    lemma_dirty(shown, more, 0);
    if syntax_of(display) is Ok {
        let (spacings, trailing) = lemma_writing_of(display);
        lemma_writing_is_clean(syntax_of(display)->Ok_0, spacings, trailing, 0);
    }
    lemma_syntax_comes_first(display);
}

/// The display of a roll is no notation: rolling what a roll displayed is a
/// syntax error, whatever the dice.
pub proof fn lemma_display_does_not_roll(text: Seq<char>, faces: Seq<u64>, other: Seq<u64>)
    requires
        roll_of(text, faces) is Ok,
    ensures
        roll_of(roll_of(text, faces)->Ok_0.0, other) is Err,
        roll_of(roll_of(text, faces)->Ok_0.0, other)->Err_0 is SyntaxError,
{
    lemma_display_is_no_notation(parse_of(text)->Ok_0, faces);
}

/// Text that holds, before any `#`, something that cannot stand in
/// notation is not clean.
proof fn lemma_dirty(a: Seq<char>, b: Seq<char>, i: int)
    requires
        0 <= i <= a.len(),
        without_comment(a),
        b.len() > 0,
        b[0] != '#',
        !is_notation_char(b[0]),
    ensures
        !clean_from(a + b, i),
    decreases a.len() - i,
{
    if i < a.len() {
        assert((a + b)[i] == a[i]);
        lemma_dirty(a, b, i + 1);
    } else {
        assert((a + b)[i] == b[0]);
    }
}

/// Text is clean from where it is put after other text as it is by itself.
proof fn lemma_clean_moved(a: Seq<char>, b: Seq<char>, i: int)
    requires
        0 <= i <= b.len(),
    ensures
        clean_from(a + b, a.len() + i) == clean_from(b, i),
    decreases b.len() - i,
{
    if i < b.len() {
        assert((a + b)[a.len() + i] == b[i]);
        lemma_clean_moved(a, b, i + 1);
    }
}

/// Clean text after what can stand in notation is clean.
proof fn lemma_clean_after(a: Seq<char>, b: Seq<char>, i: int)
    requires
        0 <= i <= a.len(),
        all_notation(a),
        clean_from(b, 0),
    ensures
        clean_from(a + b, i),
    decreases a.len() - i,
{
    if i < a.len() {
        assert((a + b)[i] == a[i]);
        lemma_clean_after(a, b, i + 1);
    } else {
        lemma_clean_moved(a, b, 0);
    }
}

/// What can stand in notation, put together, can stand in notation.
proof fn lemma_all_notation_joined(a: Seq<char>, b: Seq<char>)
    requires
        all_notation(a),
        all_notation(b),
    ensures
        all_notation(a + b),
{
    assert forall|i: int| 0 <= i < (a + b).len() implies is_notation_char(#[trigger] (a + b)[i]) by {
        if i < a.len() {
            assert((a + b)[i] == a[i]);
        } else {
            assert((a + b)[i] == b[i - a.len()]);
        }
    }
}

/// Blank space can stand in notation, and so can a numeral.
proof fn lemma_blank_and_digits_are_notation(s: Seq<char>)
    ensures
        all_blank(s) ==> all_notation(s),
        is_numeral(s) ==> all_notation(s),
{
    if all_blank(s) {
        assert forall|i: int| 0 <= i < s.len() implies is_notation_char(#[trigger] s[i]) by {
            assert(is_space(s[i]));
        }
    }
    if is_numeral(s) {
        assert forall|i: int| 0 <= i < s.len() implies is_notation_char(#[trigger] s[i]) by {
            assert(is_digit(s[i]));
        }
    }
}

/// A term or an operator as it is written can stand in notation.
proof fn lemma_phrase_text_is_notation(phrase: Phrase, spacing: Spacing)
    requires
        phrase.is_valid(),
        spacing.is_blank(),
        !(phrase is Comment),
    ensures
        all_notation(phrase_text(phrase, spacing)),
{
    match phrase {
        Phrase::Number(text) => {
            lemma_blank_and_digits_are_notation(text);
        },
        Phrase::DieRoll { count, sides, suffix } => {
            let letter = seq!['d'];
            let tail = suffix_text(suffix, spacing);
            lemma_blank_and_digits_are_notation(count);
            lemma_blank_and_digits_are_notation(sides);
            lemma_blank_and_digits_are_notation(spacing.first);
            lemma_blank_and_digits_are_notation(spacing.second);
            assert(all_notation(letter));
            assert(all_notation(tail)) by {
                match suffix {
                    Some(x) => {
                        let word = word_text(x.word, spacing.long_keep);
                        lemma_blank_and_digits_are_notation(spacing.third);
                        lemma_blank_and_digits_are_notation(spacing.fourth);
                        lemma_blank_and_digits_are_notation(x.number);
                        assert(all_notation(word));
                        lemma_all_notation_joined(spacing.third, word);
                        lemma_all_notation_joined(spacing.third + word, spacing.fourth);
                        lemma_all_notation_joined(spacing.third + word + spacing.fourth, x.number);
                    },
                    None => {},
                }
            }
            lemma_all_notation_joined(count, spacing.first);
            lemma_all_notation_joined(count + spacing.first, letter);
            lemma_all_notation_joined(count + spacing.first + letter, spacing.second);
            lemma_all_notation_joined(count + spacing.first + letter + spacing.second, sides);
            lemma_all_notation_joined(
                count + spacing.first + letter + spacing.second + sides,
                tail,
            );
        },
        Phrase::Operator(op) => {
            assert(operator_of(symbol(op)) is Some);
        },
        _ => {},
    }
}

/// Every phrase of formed phrases is as the grammar reads it, and a comment
/// among them is the last.
proof fn lemma_formed_phrase(phrases: Seq<Phrase>, i: int)
    requires
        formed(phrases),
        0 <= i < phrases.len(),
    ensures
        phrases[i].is_valid(),
        phrases[i] is Comment ==> i == phrases.len() - 1,
{
    if terms_and_operators(phrases) {
        assert(phrases[i].is_valid());
        assert(if i % 2 == 0 {
            phrases[i].is_term()
        } else {
            phrases[i] is Operator
        });
    } else if i < phrases.len() - 1 {
        let front = phrases.drop_last();
        assert(front[i].is_valid());
        assert(if i % 2 == 0 {
            front[i].is_term()
        } else {
            front[i] is Operator
        });
    }
}

/// A writing holds, up to its first `#`, only what can stand in notation
/// outside a comment.
proof fn lemma_writing_is_clean(
    phrases: Seq<Phrase>,
    spacings: Seq<Spacing>,
    trailing: Seq<char>,
    from: int,
)
    requires
        writable(phrases, spacings, trailing),
        0 <= from,
    ensures
        clean_from(written(phrases, spacings, trailing, from), 0),
    decreases phrases.len() - from,
{
    if from >= phrases.len() {
        lemma_blank_and_digits_are_notation(trailing);
        lemma_clean_after(trailing, Seq::empty(), 0);
        assert(trailing + Seq::<char>::empty() =~= trailing);
    } else {
        let spacing = spacings[from];
        let text = phrase_text(phrases[from], spacing);
        let rest = written(phrases, spacings, trailing, from + 1);
        assert(spacing.is_blank());
        lemma_formed_phrase(phrases, from);
        lemma_writing_is_clean(phrases, spacings, trailing, from + 1);
        lemma_blank_and_digits_are_notation(spacing.before);
        if phrases[from] is Comment {
            assert((text + rest)[0] == '#');
        } else {
            lemma_phrase_text_is_notation(phrases[from], spacing);
            lemma_clean_after(text, rest, 0);
        }
        lemma_clean_after(spacing.before, text + rest, 0);
    }
}

/// Texts without `#`, put together, are without `#`.
proof fn lemma_no_hash_joined(a: Seq<char>, b: Seq<char>)
    requires
        without_comment(a),
        without_comment(b),
    ensures
        without_comment(a + b),
{
    assert forall|i: int| 0 <= i < (a + b).len() implies #[trigger] (a + b)[i] != '#' by {
        if i < a.len() {
            assert((a + b)[i] == a[i]);
        } else {
            assert((a + b)[i] == b[i - a.len()]);
        }
    }
}

/// The decimal numeral of a number holds no `#`.
proof fn lemma_decimal_shows_no_hash(n: int)
    ensures
        without_comment(decimal_text(n)),
{
    let size: nat = if n < 0 {
        (-n) as nat
    } else {
        n as nat
    };
    lemma_decimal_round_trip(size);
    let digits = decimal_digits(size);
    assert forall|i: int| 0 <= i < digits.len() implies #[trigger] digits[i] != '#' by {
        assert(is_digit(digits[i]));
    }
    if n < 0 {
        lemma_no_hash_joined(seq!['-'], digits);
    }
}

/// Parts without `#`, joined by `+`, are without `#`.
proof fn lemma_joined_shows_no_hash(parts: Seq<Seq<char>>)
    requires
        forall|i: int| 0 <= i < parts.len() ==> without_comment(#[trigger] parts[i]),
    ensures
        without_comment(joined(parts, seq!['+'])),
    decreases parts.len(),
{
    if parts.len() > 1 {
        let front = parts.drop_last();
        assert forall|i: int| 0 <= i < front.len() implies without_comment(#[trigger] front[i]) by {
            assert(front[i] == parts[i]);
        }
        lemma_joined_shows_no_hash(front);
        lemma_no_hash_joined(joined(front, seq!['+']), seq!['+']);
        lemma_no_hash_joined(joined(front, seq!['+']) + seq!['+'], parts.last());
    } else if parts.len() == 1 {
        assert(without_comment(parts[0]));
    }
}

/// The display of a term holds no `#`.
proof fn lemma_fragment_shows_no_hash(entries: Seq<RollEntry>)
    ensures
        without_comment(fragment(entries)),
{
    let parts = entry_texts(entries);
    assert forall|i: int| 0 <= i < parts.len() implies without_comment(#[trigger] parts[i]) by {
        let strike = seq!['~', '~'];
        assert(parts[i] == entry_text(entries[i]));
        match entries[i] {
            RollEntry::Normal(v) => {
                lemma_decimal_shows_no_hash(v as int);
            },
            RollEntry::Discard(v) => {
                lemma_decimal_shows_no_hash(v as int);
                lemma_no_hash_joined(strike, decimal_text(v as int));
                lemma_no_hash_joined(strike + decimal_text(v as int), strike);
            },
        }
    }
    lemma_joined_shows_no_hash(parts);
    lemma_no_hash_joined(seq!['('], joined(parts, seq!['+']));
    lemma_no_hash_joined(seq!['('] + joined(parts, seq!['+']), seq![')']);
}

/// A node adds no `#` to what is displayed.
proof fn lemma_step_shows_no_hash(progress: ProgressView, node: NodeView, faces: Seq<u64>)
    requires
        without_comment(progress.display),
    ensures
        step_of(progress, node, faces) matches Ok(next) ==> without_comment(next.display),
{
    match node {
        NodeView::Number(text) => {
            if numeral_of(text) is Ok {
                assert forall|i: int| 0 <= i < text.len() implies #[trigger] text[i] != '#' by {
                    assert(is_digit(text[i]));
                }
                lemma_no_hash_joined(progress.display, text);
            }
        },
        NodeView::DieRoll(die) => {
            if let Ok((text, value)) = term_result(die, faces) {
                lemma_fragment_shows_no_hash(die_entries(die, faces));
                lemma_no_hash_joined(progress.display, text);
            }
        },
        NodeView::Operator(op) => {
            lemma_no_hash_joined(progress.display, seq![' ', symbol(op), ' ']);
        },
        NodeView::Comment(_) => {},
    }
}

/// A run adds no `#` to what is displayed.
proof fn lemma_run_shows_no_hash(
    tree: Seq<NodeView>,
    from: int,
    progress: ProgressView,
    faces: Seq<u64>,
)
    requires
        without_comment(progress.display),
    ensures
        run(tree, from, progress, faces).outcome matches Ok(end) ==> without_comment(end.display),
    decreases tree.len() - from,
{
    if 0 <= from < tree.len() {
        lemma_step_shows_no_hash(progress, tree[from], faces);
        if let Ok(next) = step_of(progress, tree[from], faces) {
            lemma_run_shows_no_hash(
                tree,
                from + 1,
                next,
                faces.skip(node_taken(tree[from], faces) as int),
            );
        }
    }
}

} // verus!
