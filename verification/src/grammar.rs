//! The grammar of dice notation, as a function from text to parse tree.
//!
//! A roll is a term, then any number of operators each followed by a term,
//! then at most one comment. A term is a number, or a die roll: a number of
//! dice, the letter `d`, a number of sides and at most one suffix. A suffix
//! is `k`, `kh` or `kl` with the number of dice to keep, or `r` with the
//! face to reroll. A number is a run of digits of any length. A comment is
//! `#` and all that follows it to the end of the input, but for the blank
//! space right after the `#`. Blank space, which is spaces and tabs, may
//! stand before and after every token, and counts for nothing. The input is
//! read as one line.
//!
//! Text that does not wholly conform is a syntax error, at the first place
//! from the left where it stops conforming. Text that conforms stands for a
//! tree where every number in it fits a signed 64-bit integer, and is
//! refused as too large where one does not.

use crate::error::{Expected, ParseError};
use crate::text::{decimal_value, digits_end, is_digit, is_numeral, is_space, spaces_end};
use crate::tree::{
    alternating, fits_at, lemma_alternating_is_well_formed, node_valid, well_formed, DieRoll,
    Modifier, NodeView, Operator,
};
use vstd::prelude::*;

verus! {

/// The word of a suffix, by what it asks for. `k` and `kh` are one word.
pub enum SuffixWord {
    KeepHigh,
    KeepLow,
    RerollOnce,
}

/// A suffix as it was read: its word, and the digits of its number.
pub struct Suffix {
    pub word: SuffixWord,
    pub number: Seq<char>,
}

/// One node of the notation as it was read. Numbers are held as the digits
/// they were written with, whatever their length.
pub enum Phrase {
    Number(Seq<char>),
    DieRoll { count: Seq<char>, sides: Seq<char>, suffix: Option<Suffix> },
    Operator(Operator),
    Comment(Seq<char>),
}

impl Phrase {
    /// Whether the phrase is a term: a number or a die roll.
    pub open spec fn is_term(self) -> bool {
        self is Number || self is DieRoll
    }

    /// Whether the phrase is as the grammar reads it: every number is a
    /// numeral, and a comment starts with no blank.
    pub open spec fn is_valid(self) -> bool {
        match self {
            Phrase::Number(text) => is_numeral(text),
            Phrase::DieRoll { count, sides, suffix } => {
                &&& is_numeral(count)
                &&& is_numeral(sides)
                &&& suffix matches Some(x) ==> is_numeral(x.number)
            },
            Phrase::Operator(_) => true,
            Phrase::Comment(text) => text.len() == 0 || !is_space(text[0]),
        }
    }

    /// Whether every number of the phrase fits a signed 64-bit integer.
    pub open spec fn fits(self) -> bool {
        match self {
            Phrase::Number(text) => value_fits(text),
            Phrase::DieRoll { count, sides, suffix } => {
                &&& value_fits(count)
                &&& value_fits(sides)
                &&& suffix matches Some(x) ==> value_fits(x.number)
            },
            _ => true,
        }
    }

    /// The node of the parse tree that the phrase stands for, where its
    /// numbers fit.
    pub open spec fn node(self) -> NodeView {
        match self {
            Phrase::Number(text) => NodeView::Number(text),
            Phrase::DieRoll { count, sides, suffix } => NodeView::DieRoll(
                DieRoll {
                    count: decimal_value(count) as u64,
                    sides: decimal_value(sides) as u64,
                    modifier: modifier_of(suffix),
                },
            ),
            Phrase::Operator(op) => NodeView::Operator(op),
            Phrase::Comment(text) => NodeView::Comment(text),
        }
    }
}

/// Whether the number that `numeral` denotes fits a signed 64-bit integer.
pub open spec fn value_fits(numeral: Seq<char>) -> bool {
    decimal_value(numeral) <= i64::MAX
}

/// What a suffix asks of the dice, where its number fits.
pub open spec fn modifier_of(suffix: Option<Suffix>) -> Option<Modifier> {
    match suffix {
        Some(x) => Some(
            match x.word {
                SuffixWord::KeepHigh => Modifier::KeepHigh(decimal_value(x.number) as u64),
                SuffixWord::KeepLow => Modifier::KeepLow(decimal_value(x.number) as u64),
                SuffixWord::RerollOnce => Modifier::RerollOnce(decimal_value(x.number) as u64),
            },
        ),
        None => None,
    }
}

/// Whether every number of `phrases` fits a signed 64-bit integer.
pub open spec fn all_fit(phrases: Seq<Phrase>) -> bool {
    forall|i: int| 0 <= i < phrases.len() ==> (#[trigger] phrases[i]).fits()
}

/// The parse tree that `phrases` stand for.
pub open spec fn tree_of(phrases: Seq<Phrase>) -> Seq<NodeView> {
    phrases.map_values(|phrase: Phrase| phrase.node())
}

/// The failure to conform at `position`, where the grammar wanted `expected`.
pub open spec fn syntax_error(position: int, expected: Expected) -> ParseError {
    ParseError::SyntaxError { position: position as usize, expected }
}

/// The number written at `i`, as its digits, and where it ends. A number is
/// a run of digits, as long as it can be.
pub open spec fn integer_at(s: Seq<char>, i: int) -> Result<(Seq<char>, int), ParseError> {
    let end = digits_end(s, i);
    if end == i {
        Err(syntax_error(i, Expected::Integer))
    } else {
        Ok((s.subrange(i, end), end))
    }
}

/// The operator that `c` is the sign of.
pub open spec fn operator_of(c: char) -> Option<Operator> {
    if c == '+' {
        Some(Operator::Add)
    } else if c == '-' {
        Some(Operator::Subtract)
    } else if c == '*' {
        Some(Operator::Multiply)
    } else if c == '/' {
        Some(Operator::Divide)
    } else {
        None
    }
}

/// The suffix of the die roll whose number of sides ends at `i`, and where
/// the die roll ends. Without a suffix the die roll ends at `i`.
pub open spec fn modifier_at(s: Seq<char>, i: int) -> Result<(Option<Suffix>, int), ParseError> {
    let j = spaces_end(s, i);
    if 0 <= j < s.len() && s[j] == 'k' {
        let low = j + 1 < s.len() && s[j + 1] == 'l';
        let high = j + 1 < s.len() && s[j + 1] == 'h';
        let word_end = if low || high {
            j + 2
        } else {
            j + 1
        };
        match integer_at(s, spaces_end(s, word_end)) {
            Ok((number, end)) => Ok(
                (
                    Some(
                        Suffix {
                            word: if low {
                                SuffixWord::KeepLow
                            } else {
                                SuffixWord::KeepHigh
                            },
                            number,
                        },
                    ),
                    end,
                ),
            ),
            Err(e) => Err(e),
        }
    } else if 0 <= j < s.len() && s[j] == 'r' {
        match integer_at(s, spaces_end(s, j + 1)) {
            Ok((number, end)) => Ok((Some(Suffix { word: SuffixWord::RerollOnce, number }), end)),
            Err(e) => Err(e),
        }
    } else {
        Ok((None, i))
    }
}

/// The term that starts at `i`, and where it ends.
pub open spec fn term_at(s: Seq<char>, i: int) -> Result<(Phrase, int), ParseError> {
    match integer_at(s, i) {
        Ok((first, end)) => {
            let j = spaces_end(s, end);
            if 0 <= j < s.len() && s[j] == 'd' {
                match integer_at(s, spaces_end(s, j + 1)) {
                    Ok((sides, sides_end)) => match modifier_at(s, sides_end) {
                        Ok((suffix, last)) => Ok(
                            (Phrase::DieRoll { count: first, sides, suffix }, last),
                        ),
                        Err(e) => Err(e),
                    },
                    Err(e) => Err(e),
                }
            } else {
                Ok((Phrase::Number(first), end))
            }
        },
        Err(e) => Err(e),
    }
}

/// All the phrases, where `phrases` are the ones up to a term that ends at
/// `i`: what follows is the end of the input, a comment, or an operator and
/// a term and then more of the same.
pub open spec fn tail_at(s: Seq<char>, i: int, phrases: Seq<Phrase>) -> Result<
    Seq<Phrase>,
    ParseError,
>
    decreases s.len() - i,
{
    let j = spaces_end(s, i);
    if i < 0 || j >= s.len() {
        Ok(phrases)
    } else if s[j] == '#' {
        Ok(phrases.push(Phrase::Comment(s.subrange(spaces_end(s, j + 1), s.len() as int))))
    } else {
        match operator_of(s[j]) {
            Some(op) => match term_at(s, spaces_end(s, j + 1)) {
                Ok((term, end)) => {
                    proof {
                        lemma_spaces_end_bounds(s, i);
                        lemma_spaces_end_bounds(s, j + 1);
                        lemma_term_bounds(s, spaces_end(s, j + 1));
                    }
                    tail_at(s, end, phrases.push(Phrase::Operator(op)).push(term))
                },
                Err(e) => Err(e),
            },
            None => Err(syntax_error(j, Expected::Operator)),
        }
    }
}

/// How `s` reads by the grammar: its phrases, or the first place from the
/// left where it does not conform. Numbers of any length conform.
pub open spec fn syntax_of(s: Seq<char>) -> Result<Seq<Phrase>, ParseError> {
    match term_at(s, spaces_end(s, 0)) {
        Ok((term, end)) => tail_at(s, end, seq![term]),
        Err(e) => Err(e),
    }
}

/// The parse tree of `s`, or the reason why it has none: where it does not
/// conform, the syntax error; where it conforms and a number in it does not
/// fit a signed 64-bit integer, that.
pub open spec fn parse_of(s: Seq<char>) -> Result<Seq<NodeView>, ParseError> {
    match syntax_of(s) {
        Ok(phrases) => if all_fit(phrases) {
            Ok(tree_of(phrases))
        } else {
            Err(ParseError::Overflow)
        },
        Err(e) => Err(e),
    }
}

/// Whether `phrases` are terms with one operator between each two
/// neighbours, each as the grammar reads it.
pub open spec fn terms_and_operators(phrases: Seq<Phrase>) -> bool {
    &&& phrases.len() % 2 == 1
    &&& forall|i: int|
        0 <= i < phrases.len() ==> if i % 2 == 0 {
            (#[trigger] phrases[i]).is_term()
        } else {
            phrases[i] is Operator
        }
    &&& forall|i: int| 0 <= i < phrases.len() ==> (#[trigger] phrases[i]).is_valid()
}

/// Whether `phrases` have the shape that the grammar gives: terms with one
/// operator between each two neighbours, then at most one comment.
pub open spec fn formed(phrases: Seq<Phrase>) -> bool {
    ||| terms_and_operators(phrases)
    ||| {
        &&& phrases.len() > 0
        &&& phrases.last() is Comment
        &&& phrases.last().is_valid()
        &&& terms_and_operators(phrases.drop_last())
    }
}

/// Whether every character of `s` is blank space.
pub open spec fn all_blank(s: Seq<char>) -> bool {
    forall|i: int| 0 <= i < s.len() ==> is_space(#[trigger] s[i])
}

/// Whether `s` holds no `#`, so no comment.
pub open spec fn without_comment(s: Seq<char>) -> bool {
    forall|i: int| 0 <= i < s.len() ==> #[trigger] s[i] != '#'
}

/// A comment with the blank space around its `#`: blank space, `#`, blank
/// space again, and a text that starts with no blank.
pub open spec fn comment_after(blanks: Seq<char>, gap: Seq<char>, text: Seq<char>) -> Seq<char> {
    blanks + seq!['#'] + gap + text
}

/// Whether a term may end where `more` starts: `more` is blank space, and
/// then nothing, a comment or an operator.
pub open spec fn ends_term(more: Seq<char>) -> bool {
    let j = spaces_end(more, 0);
    j >= more.len() || more[j] == '#' || operator_of(more[j]) is Some
}

/// Text that does not wholly conform is a syntax error, whatever the size
/// of the numbers in it; a number too large is reported only of text that
/// conforms from end to end.
pub proof fn lemma_syntax_comes_first(s: Seq<char>)
    ensures
        syntax_of(s) matches Err(e) ==> e is SyntaxError && parse_of(s) == Err::<
            Seq<NodeView>,
            ParseError,
        >(e),
        parse_of(s) == Err::<Seq<NodeView>, ParseError>(ParseError::Overflow) ==> syntax_of(s) is Ok,
        parse_of(s) matches Err(e) ==> e is SyntaxError || e is Overflow,
{
    lemma_syntax_fails_by_syntax(s);
}

/// Every tree that the grammar gives is well formed: terms with one
/// operator between each two neighbours, then at most one comment.
pub proof fn lemma_parse_is_well_formed(s: Seq<char>)
    ensures
        parse_of(s) matches Ok(tree) ==> well_formed(tree),
{
    lemma_syntax_is_formed(s);
    if let Ok(phrases) = syntax_of(s) {
        if all_fit(phrases) {
            lemma_formed_tree(phrases);
        }
    }
}

/// A comment is kept apart from the blank space around it. When a comment
/// is added after notation that has none, the tree gains the comment and
/// nothing else changes, and the comment is the text from the first
/// character that is no blank, whatever blank space stands before the `#`
/// and after it.
pub proof fn lemma_comment_is_set_apart(
    s: Seq<char>,
    blanks: Seq<char>,
    gap: Seq<char>,
    text: Seq<char>,
)
    requires
        parse_of(s) is Ok,
        without_comment(s),
        all_blank(blanks),
        all_blank(gap),
        text.len() == 0 || !is_space(text[0]),
    ensures
        parse_of(s + comment_after(blanks, gap, text)) == Ok::<Seq<NodeView>, ParseError>(
            parse_of(s)->Ok_0.push(NodeView::Comment(text)),
        ),
{
    let more = comment_after(blanks, gap, text);
    lemma_comment_ends_term(blanks, gap, text);
    lemma_spaces_end_bounds(s, 0);
    lemma_spaces_end_before(s, more, 0);
    let at = spaces_end(s, 0);
    if at >= s.len() {
        lemma_digits_end_bounds(s, at);
    }
    lemma_term_before(s, more, at);
    lemma_term_bounds(s, at);
    if let Ok((term, end)) = term_at(s, at) {
        lemma_tail_before(s, blanks, gap, text, end, seq![term]);
    }
    let phrases = syntax_of(s)->Ok_0;
    let comment = Phrase::Comment(text);
    assert(all_fit(phrases.push(comment))) by {
        assert forall|i: int| 0 <= i < phrases.push(comment).len() implies (
        #[trigger] phrases.push(comment)[i]).fits() by {
            if i < phrases.len() {
                assert(phrases[i].fits());
            }
        }
    }
    assert(tree_of(phrases.push(comment)) =~= tree_of(phrases).push(comment.node()));
}

/// The failures of reading are syntax errors.
pub proof fn lemma_syntax_fails_by_syntax(s: Seq<char>)
    ensures
        syntax_of(s) matches Err(e) ==> e is SyntaxError,
{
    if let Ok((term, end)) = term_at(s, spaces_end(s, 0)) {
        lemma_spaces_end_bounds(s, 0);
        lemma_term_bounds(s, spaces_end(s, 0));
        lemma_tail_fails_by_syntax(s, end, seq![term]);
    }
}

/// The failures of reading what follows a term are syntax errors.
proof fn lemma_tail_fails_by_syntax(s: Seq<char>, i: int, phrases: Seq<Phrase>)
    requires
        0 <= i <= s.len(),
    ensures
        tail_at(s, i, phrases) matches Err(e) ==> e is SyntaxError,
    decreases s.len() - i,
{
    lemma_spaces_end_bounds(s, i);
    let j = spaces_end(s, i);
    if j < s.len() && s[j] != '#' {
        if let Some(op) = operator_of(s[j]) {
            lemma_spaces_end_bounds(s, j + 1);
            let at = spaces_end(s, j + 1);
            lemma_term_bounds(s, at);
            if let Ok((term, end)) = term_at(s, at) {
                lemma_tail_fails_by_syntax(s, end, phrases.push(Phrase::Operator(op)).push(term));
            }
        }
    }
}

/// A run of blank space ends at or after its start, within the text.
pub proof fn lemma_spaces_end_bounds(s: Seq<char>, i: int)
    requires
        0 <= i <= s.len(),
    ensures
        i <= spaces_end(s, i) <= s.len(),
    decreases s.len() - i,
{
    if i < s.len() && is_space(s[i]) {
        lemma_spaces_end_bounds(s, i + 1);
    }
}

/// A run of blank space is blank, and ends before a character that is not.
pub proof fn lemma_spaces_are_blank(s: Seq<char>, i: int)
    requires
        0 <= i <= s.len(),
    ensures
        all_blank(s.subrange(i, spaces_end(s, i))),
        spaces_end(s, i) < s.len() ==> !is_space(s[spaces_end(s, i)]),
    decreases s.len() - i,
{
    lemma_spaces_end_bounds(s, i);
    if i < s.len() && is_space(s[i]) {
        lemma_spaces_end_bounds(s, i + 1);
        lemma_spaces_are_blank(s, i + 1);
        let run = s.subrange(i, spaces_end(s, i));
        assert forall|k: int| 0 <= k < run.len() implies is_space(#[trigger] run[k]) by {
            if k > 0 {
                assert(run[k] == s.subrange(i + 1, spaces_end(s, i))[k - 1]);
            }
        }
    }
}

/// A run of digits ends at or after its start, within the text.
pub proof fn lemma_digits_end_bounds(s: Seq<char>, i: int)
    requires
        0 <= i <= s.len(),
    ensures
        i <= digits_end(s, i) <= s.len(),
    decreases s.len() - i,
{
    if i < s.len() && is_digit(s[i]) {
        lemma_digits_end_bounds(s, i + 1);
    }
}

/// The digits of a number are a numeral.
pub proof fn lemma_digits_are_numeral(s: Seq<char>, i: int)
    requires
        0 <= i <= s.len(),
    ensures
        i < digits_end(s, i) ==> is_numeral(s.subrange(i, digits_end(s, i))),
    decreases s.len() - i,
{
    lemma_digits_end_bounds(s, i);
    if i < s.len() && is_digit(s[i]) {
        lemma_digits_end_bounds(s, i + 1);
        lemma_digits_are_numeral(s, i + 1);
        let end = digits_end(s, i);
        let digits = s.subrange(i, end);
        assert forall|k: int| 0 <= k < digits.len() implies is_digit(#[trigger] digits[k]) by {
            if k > 0 {
                assert(digits[k] == s.subrange(i + 1, end)[k - 1]);
            }
        }
    }
}

/// A number ends after its start, within the text, and its digits are a
/// numeral.
pub proof fn lemma_integer_bounds(s: Seq<char>, i: int)
    requires
        0 <= i <= s.len(),
    ensures
        integer_at(s, i) matches Ok((number, end)) ==> i < end <= s.len() && is_numeral(number)
            && number == s.subrange(i, end),
{
    lemma_digits_end_bounds(s, i);
    lemma_digits_are_numeral(s, i);
}

/// A suffix ends at or after its start, within the text, and is as the
/// grammar reads it.
pub proof fn lemma_modifier_bounds(s: Seq<char>, i: int)
    requires
        0 <= i <= s.len(),
    ensures
        modifier_at(s, i) matches Ok((suffix, end)) ==> i <= end <= s.len() && (suffix matches Some(
            x,
        ) ==> is_numeral(x.number)),
{
    lemma_spaces_end_bounds(s, i);
    let m = spaces_end(s, i);
    if m < s.len() && s[m] == 'k' {
        let low = m + 1 < s.len() && s[m + 1] == 'l';
        let high = m + 1 < s.len() && s[m + 1] == 'h';
        let word_end = if low || high {
            m + 2
        } else {
            m + 1
        };
        lemma_spaces_end_bounds(s, word_end);
        lemma_integer_bounds(s, spaces_end(s, word_end));
    } else if m < s.len() && s[m] == 'r' {
        lemma_spaces_end_bounds(s, m + 1);
        lemma_integer_bounds(s, spaces_end(s, m + 1));
    }
}

/// A term ends after its start, within the text, and is a term as the
/// grammar reads it.
pub proof fn lemma_term_bounds(s: Seq<char>, i: int)
    requires
        0 <= i <= s.len(),
    ensures
        term_at(s, i) matches Ok((term, end)) ==> i < end <= s.len() && term.is_term()
            && term.is_valid(),
{
    lemma_integer_bounds(s, i);
    if let Ok((first, end)) = integer_at(s, i) {
        lemma_spaces_end_bounds(s, end);
        let j = spaces_end(s, end);
        if j < s.len() && s[j] == 'd' {
            lemma_spaces_end_bounds(s, j + 1);
            lemma_integer_bounds(s, spaces_end(s, j + 1));
            if let Ok((sides, sides_end)) = integer_at(s, spaces_end(s, j + 1)) {
                lemma_modifier_bounds(s, sides_end);
                if let Ok((suffix, last)) = modifier_at(s, sides_end) {
                    assert(term_at(s, i) == Ok::<(Phrase, int), ParseError>(
                        (Phrase::DieRoll { count: first, sides, suffix }, last),
                    ));
                }
            }
        } else {
            assert(term_at(s, i) == Ok::<(Phrase, int), ParseError>((Phrase::Number(first), end)));
        }
    }
}

/// Terms and operators grown by an operator and a term are terms and
/// operators.
pub proof fn lemma_terms_and_operators_grow(phrases: Seq<Phrase>, op: Operator, term: Phrase)
    requires
        terms_and_operators(phrases),
        term.is_term(),
        term.is_valid(),
    ensures
        terms_and_operators(phrases.push(Phrase::Operator(op)).push(term)),
{
    let longer = phrases.push(Phrase::Operator(op)).push(term);
    assert forall|i: int| 0 <= i < longer.len() implies (#[trigger] longer[i]).is_valid() && if i
        % 2 == 0 {
        longer[i].is_term()
    } else {
        longer[i] is Operator
    } by {
        if i < phrases.len() {
            assert(longer[i] == phrases[i]);
        }
    }
}

/// What follows formed phrases keeps them formed.
proof fn lemma_tail_is_formed(s: Seq<char>, i: int, phrases: Seq<Phrase>)
    requires
        0 <= i <= s.len(),
        terms_and_operators(phrases),
    ensures
        tail_at(s, i, phrases) matches Ok(all) ==> formed(all),
    decreases s.len() - i,
{
    lemma_spaces_end_bounds(s, i);
    let j = spaces_end(s, i);
    if j >= s.len() {
    } else if s[j] == '#' {
        lemma_spaces_end_bounds(s, j + 1);
        lemma_spaces_are_blank(s, j + 1);
        let text = s.subrange(spaces_end(s, j + 1), s.len() as int);
        let all = phrases.push(Phrase::Comment(text));
        assert(all.drop_last() =~= phrases);
        if text.len() > 0 {
            assert(text[0] == s[spaces_end(s, j + 1)]);
        }
    } else if let Some(op) = operator_of(s[j]) {
        lemma_spaces_end_bounds(s, j + 1);
        let at = spaces_end(s, j + 1);
        lemma_term_bounds(s, at);
        if let Ok((term, end)) = term_at(s, at) {
            lemma_terms_and_operators_grow(phrases, op, term);
            lemma_tail_is_formed(s, end, phrases.push(Phrase::Operator(op)).push(term));
        }
    }
}

/// What the grammar reads is formed: terms with one operator between each
/// two neighbours, then at most one comment.
pub proof fn lemma_syntax_is_formed(s: Seq<char>)
    ensures
        syntax_of(s) matches Ok(phrases) ==> formed(phrases),
{
    lemma_spaces_end_bounds(s, 0);
    let at = spaces_end(s, 0);
    lemma_term_bounds(s, at);
    if let Ok((term, end)) = term_at(s, at) {
        lemma_tail_is_formed(s, end, seq![term]);
    }
}

/// Terms and operators whose numbers fit stand for an alternating tree.
pub proof fn lemma_terms_and_operators_tree(phrases: Seq<Phrase>)
    requires
        terms_and_operators(phrases),
        all_fit(phrases),
    ensures
        alternating(tree_of(phrases)),
{
    let tree = tree_of(phrases);
    assert forall|i: int| 0 <= i < tree.len() implies fits_at(#[trigger] tree[i], i)
        && node_valid(tree[i]) by {
        assert(phrases[i].is_valid());
        assert(phrases[i].fits());
        assert(tree[i] == phrases[i].node());
    }
}

/// Formed phrases whose numbers fit stand for a well-formed tree.
pub proof fn lemma_formed_tree(phrases: Seq<Phrase>)
    requires
        formed(phrases),
        all_fit(phrases),
    ensures
        well_formed(tree_of(phrases)),
{
    if terms_and_operators(phrases) {
        lemma_terms_and_operators_tree(phrases);
        lemma_alternating_is_well_formed(tree_of(phrases), Seq::empty());
    } else {
        let front = phrases.drop_last();
        assert forall|i: int| 0 <= i < front.len() implies (#[trigger] front[i]).fits() by {
            assert(phrases[i].fits());
        }
        lemma_terms_and_operators_tree(front);
        let text = phrases.last()->Comment_0;
        lemma_alternating_is_well_formed(tree_of(front), text);
        assert(tree_of(phrases) =~= tree_of(front).push(NodeView::Comment(text)));
    }
}

/// Blank space runs to the first character that is no blank.
pub proof fn lemma_spaces_end_at(s: Seq<char>, i: int, end: int)
    requires
        0 <= i <= end <= s.len(),
        forall|k: int| i <= k < end ==> is_space(#[trigger] s[k]),
        end < s.len() ==> !is_space(s[end]),
    ensures
        spaces_end(s, i) == end,
    decreases end - i,
{
    if i < end {
        lemma_spaces_end_at(s, i + 1, end);
    }
}

/// What may come after a term starts with no digit and no letter.
proof fn lemma_ends_term_first(more: Seq<char>)
    requires
        ends_term(more),
        more.len() > 0,
    ensures
        is_space(more[0]) || more[0] == '#' || operator_of(more[0]) is Some,
{
}

/// A run of digits ends at the same place when the text goes on with
/// something that is no digit.
pub proof fn lemma_digits_end_before(s: Seq<char>, more: Seq<char>, i: int)
    requires
        0 <= i <= s.len(),
        more.len() == 0 || !is_digit(more[0]),
    ensures
        digits_end(s + more, i) == digits_end(s, i),
    decreases s.len() - i,
{
    let longer = s + more;
    if i < s.len() {
        assert(longer[i] == s[i]);
        if is_digit(s[i]) {
            lemma_digits_end_before(s, more, i + 1);
        }
    } else if more.len() > 0 {
        assert(longer[i] == more[0]);
    }
}

/// Where blank space ends when the text goes on: at the same place if that
/// is before the end of the text, else where the blank space at the start
/// of what follows ends.
pub proof fn lemma_spaces_end_before(s: Seq<char>, more: Seq<char>, i: int)
    requires
        0 <= i <= s.len(),
    ensures
        spaces_end(s + more, i) == if spaces_end(s, i) < s.len() {
            spaces_end(s, i)
        } else {
            s.len() + spaces_end(more, 0)
        },
    decreases s.len() - i,
{
    let longer = s + more;
    if i < s.len() {
        assert(longer[i] == s[i]);
        if is_space(s[i]) {
            lemma_spaces_end_before(s, more, i + 1);
        }
    } else {
        lemma_spaces_end_moved(s, more, 0);
    }
}

/// Blank space is read alike wherever the text that holds it starts.
pub proof fn lemma_spaces_end_moved(before: Seq<char>, s: Seq<char>, i: int)
    requires
        0 <= i <= s.len(),
    ensures
        spaces_end(before + s, before.len() + i) == before.len() + spaces_end(s, i),
    decreases s.len() - i,
{
    if i < s.len() {
        assert((before + s)[before.len() + i] == s[i]);
        if is_space(s[i]) {
            lemma_spaces_end_moved(before, s, i + 1);
        }
    }
}

/// A run of digits is read alike wherever the text that holds it starts.
pub proof fn lemma_digits_end_moved(before: Seq<char>, s: Seq<char>, i: int)
    requires
        0 <= i <= s.len(),
    ensures
        digits_end(before + s, before.len() + i) == before.len() + digits_end(s, i),
    decreases s.len() - i,
{
    if i < s.len() {
        assert((before + s)[before.len() + i] == s[i]);
        if is_digit(s[i]) {
            lemma_digits_end_moved(before, s, i + 1);
        }
    }
}

/// A number reads the same when the text goes on with something that is no
/// digit.
pub proof fn lemma_integer_before(s: Seq<char>, more: Seq<char>, i: int)
    requires
        0 <= i <= s.len(),
        more.len() == 0 || !is_digit(more[0]),
    ensures
        integer_at(s + more, i) == integer_at(s, i),
{
    lemma_digits_end_before(s, more, i);
    lemma_digits_end_bounds(s, i);
    assert((s + more).subrange(i, digits_end(s, i)) =~= s.subrange(i, digits_end(s, i)));
}

/// A number is read alike wherever the text that holds it starts.
pub proof fn lemma_integer_moved(before: Seq<char>, s: Seq<char>, i: int)
    requires
        0 <= i <= s.len(),
        integer_at(s, i) is Ok,
    ensures
        integer_at(before + s, before.len() + i) == Ok::<(Seq<char>, int), ParseError>(
            (integer_at(s, i)->Ok_0.0, before.len() + integer_at(s, i)->Ok_0.1),
        ),
{
    lemma_digits_end_moved(before, s, i);
    lemma_digits_end_bounds(s, i);
    let end = digits_end(s, i);
    assert((before + s).subrange(before.len() + i, before.len() + end) =~= s.subrange(i, end));
}

/// A suffix that the text has reads the same when the text goes on with
/// what may come after a term.
pub proof fn lemma_modifier_before(s: Seq<char>, more: Seq<char>, i: int)
    requires
        0 <= i <= s.len(),
        ends_term(more),
        modifier_at(s, i) is Ok,
    ensures
        modifier_at(s + more, i) == modifier_at(s, i),
{
    let longer = s + more;
    lemma_spaces_end_bounds(s, i);
    lemma_spaces_end_before(s, more, i);
    lemma_spaces_end_bounds(more, 0);
    if more.len() > 0 {
        lemma_ends_term_first(more);
    }
    let j = spaces_end(s, i);
    if j < s.len() {
        assert(longer[j] == s[j]);
        if s[j] == 'k' || s[j] == 'r' {
            if j + 1 < s.len() {
                assert(longer[j + 1] == s[j + 1]);
            } else if more.len() > 0 {
                assert(longer[j + 1] == more[0]);
            }
            let low = j + 1 < s.len() && s[j + 1] == 'l';
            let high = j + 1 < s.len() && s[j + 1] == 'h';
            let word_end = if s[j] == 'k' && (low || high) {
                j + 2
            } else {
                j + 1
            };
            lemma_spaces_end_bounds(s, word_end);
            lemma_spaces_end_before(s, more, word_end);
            lemma_integer_before(s, more, spaces_end(s, word_end));
            if spaces_end(s, word_end) >= s.len() {
                lemma_digits_end_bounds(s, spaces_end(s, word_end));
            }
        }
    } else {
        let at = spaces_end(more, 0);
        if at < more.len() {
            assert(longer[s.len() + at] == more[at]);
        }
    }
}

/// A suffix is read alike wherever the text that holds it starts.
pub proof fn lemma_modifier_moved(before: Seq<char>, s: Seq<char>, i: int)
    requires
        0 <= i <= s.len(),
        modifier_at(s, i) is Ok,
    ensures
        modifier_at(before + s, before.len() + i) == Ok::<(Option<Suffix>, int), ParseError>(
            (modifier_at(s, i)->Ok_0.0, before.len() + modifier_at(s, i)->Ok_0.1),
        ),
{
    let longer = before + s;
    let n = before.len() as int;
    lemma_spaces_end_bounds(s, i);
    lemma_spaces_end_moved(before, s, i);
    let j = spaces_end(s, i);
    if j < s.len() {
        assert(longer[n + j] == s[j]);
        if s[j] == 'k' || s[j] == 'r' {
            if j + 1 < s.len() {
                assert(longer[n + j + 1] == s[j + 1]);
            }
            let low = j + 1 < s.len() && s[j + 1] == 'l';
            let high = j + 1 < s.len() && s[j + 1] == 'h';
            let word_end = if s[j] == 'k' && (low || high) {
                j + 2
            } else {
                j + 1
            };
            lemma_spaces_end_bounds(s, word_end);
            lemma_spaces_end_moved(before, s, word_end);
            lemma_integer_moved(before, s, spaces_end(s, word_end));
        }
    }
}

/// A term that the text has reads the same when the text goes on with what
/// may come after a term.
pub proof fn lemma_term_before(s: Seq<char>, more: Seq<char>, i: int)
    requires
        0 <= i <= s.len(),
        ends_term(more),
        term_at(s, i) is Ok,
    ensures
        term_at(s + more, i) == term_at(s, i),
{
    let longer = s + more;
    lemma_spaces_end_bounds(more, 0);
    if more.len() > 0 {
        lemma_ends_term_first(more);
    }
    lemma_integer_before(s, more, i);
    lemma_integer_bounds(s, i);
    if let Ok((first, end)) = integer_at(s, i) {
        lemma_spaces_end_bounds(s, end);
        lemma_spaces_end_before(s, more, end);
        let j = spaces_end(s, end);
        if j < s.len() {
            assert(longer[j] == s[j]);
            if s[j] == 'd' {
                lemma_spaces_end_bounds(s, j + 1);
                lemma_spaces_end_before(s, more, j + 1);
                let at = spaces_end(s, j + 1);
                if at >= s.len() {
                    lemma_digits_end_bounds(s, at);
                }
                lemma_integer_before(s, more, at);
                lemma_integer_bounds(s, at);
                if let Ok((sides, sides_end)) = integer_at(s, at) {
                    lemma_modifier_before(s, more, sides_end);
                }
            }
        } else {
            let at = spaces_end(more, 0);
            if at < more.len() {
                assert(longer[s.len() + at] == more[at]);
            }
        }
    }
}

/// A term is read alike wherever the text that holds it starts.
pub proof fn lemma_term_moved(before: Seq<char>, s: Seq<char>, i: int)
    requires
        0 <= i <= s.len(),
        term_at(s, i) is Ok,
    ensures
        term_at(before + s, before.len() + i) == Ok::<(Phrase, int), ParseError>(
            (term_at(s, i)->Ok_0.0, before.len() + term_at(s, i)->Ok_0.1),
        ),
{
    let longer = before + s;
    let n = before.len() as int;
    lemma_integer_moved(before, s, i);
    lemma_integer_bounds(s, i);
    if let Ok((first, end)) = integer_at(s, i) {
        lemma_spaces_end_bounds(s, end);
        lemma_spaces_end_moved(before, s, end);
        let j = spaces_end(s, end);
        if j < s.len() {
            assert(longer[n + j] == s[j]);
            if s[j] == 'd' {
                lemma_spaces_end_bounds(s, j + 1);
                lemma_spaces_end_moved(before, s, j + 1);
                let at = spaces_end(s, j + 1);
                lemma_integer_moved(before, s, at);
                lemma_integer_bounds(s, at);
                if let Ok((sides, sides_end)) = integer_at(s, at) {
                    lemma_modifier_moved(before, s, sides_end);
                }
            }
        }
    }
}

/// What follows a term is read alike wherever the text that holds it
/// starts.
pub proof fn lemma_tail_moved(before: Seq<char>, s: Seq<char>, i: int, phrases: Seq<Phrase>)
    requires
        0 <= i <= s.len(),
        tail_at(s, i, phrases) is Ok,
    ensures
        tail_at(before + s, before.len() + i, phrases) == tail_at(s, i, phrases),
    decreases s.len() - i,
{
    let longer = before + s;
    let n = before.len() as int;
    lemma_spaces_end_bounds(s, i);
    lemma_spaces_end_moved(before, s, i);
    let j = spaces_end(s, i);
    if j < s.len() {
        assert(longer[n + j] == s[j]);
        lemma_spaces_end_bounds(s, j + 1);
        lemma_spaces_end_moved(before, s, j + 1);
        let at = spaces_end(s, j + 1);
        if s[j] == '#' {
            assert(longer.subrange(n + at, longer.len() as int) =~= s.subrange(
                at,
                s.len() as int,
            ));
        } else if let Some(op) = operator_of(s[j]) {
            lemma_term_moved(before, s, at);
            lemma_term_bounds(s, at);
            if let Ok((term, end)) = term_at(s, at) {
                lemma_tail_moved(before, s, end, phrases.push(Phrase::Operator(op)).push(term));
            }
        }
    }
}

/// What follows a term reads the same when a comment is added after text
/// that has none, but for the comment at its end.
proof fn lemma_tail_before(
    s: Seq<char>,
    blanks: Seq<char>,
    gap: Seq<char>,
    text: Seq<char>,
    i: int,
    phrases: Seq<Phrase>,
)
    requires
        0 <= i <= s.len(),
        without_comment(s),
        all_blank(blanks),
        all_blank(gap),
        text.len() == 0 || !is_space(text[0]),
        tail_at(s, i, phrases) is Ok,
    ensures
        tail_at(s + comment_after(blanks, gap, text), i, phrases) == Ok::<
            Seq<Phrase>,
            ParseError,
        >(tail_at(s, i, phrases)->Ok_0.push(Phrase::Comment(text))),
    decreases s.len() - i,
{
    let more = comment_after(blanks, gap, text);
    let longer = s + more;
    lemma_comment_ends_term(blanks, gap, text);
    lemma_spaces_end_bounds(s, i);
    lemma_spaces_end_before(s, more, i);
    let j = spaces_end(s, i);
    if j >= s.len() {
        let hash: int = (s.len() + blanks.len()) as int;
        let start: int = hash + 1 + gap.len();
        assert(longer[hash] == '#');
        assert forall|k: int| hash + 1 <= k < start implies is_space(#[trigger] longer[k]) by {
            assert(longer[k] == gap[k - hash - 1]);
        }
        if start < longer.len() {
            assert(longer[start] == text[0]);
        }
        lemma_spaces_end_at(longer, hash + 1, start);
        assert(longer.subrange(start, longer.len() as int) =~= text);
    } else {
        assert(longer[j] == s[j]);
        if let Some(op) = operator_of(s[j]) {
            lemma_spaces_end_bounds(s, j + 1);
            lemma_spaces_end_before(s, more, j + 1);
            let at = spaces_end(s, j + 1);
            if at >= s.len() {
                lemma_digits_end_bounds(s, at);
            }
            lemma_term_before(s, more, at);
            lemma_term_bounds(s, at);
            if let Ok((term, end)) = term_at(s, at) {
                lemma_tail_before(
                    s,
                    blanks,
                    gap,
                    text,
                    end,
                    phrases.push(Phrase::Operator(op)).push(term),
                );
            }
        }
    }
}

/// A comment may come after a term, and its `#` is where the blank space
/// before it ends.
proof fn lemma_comment_ends_term(blanks: Seq<char>, gap: Seq<char>, text: Seq<char>)
    requires
        all_blank(blanks),
    ensures
        spaces_end(comment_after(blanks, gap, text), 0) == blanks.len(),
        ends_term(comment_after(blanks, gap, text)),
{
    let more = comment_after(blanks, gap, text);
    assert forall|k: int| 0 <= k < blanks.len() implies is_space(#[trigger] more[k]) by {
        assert(more[k] == blanks[k]);
    }
    assert(more[blanks.len() as int] == '#');
    lemma_spaces_end_at(more, 0, blanks.len() as int);
}

} // verus!
