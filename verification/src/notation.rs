//! Writing notation, and reading it back.
//!
//! The phrases of a roll can be written in many ways: with any blank space
//! around the tokens, and with `k` or `kh` for keeping the high dice. The
//! grammar reads every such writing as the phrases that were written, and
//! reads no text that is not such a writing.

use crate::error::ParseError;
use crate::eval::symbol;
use crate::grammar::{
    all_blank, ends_term, formed, integer_at, lemma_integer_before, lemma_integer_bounds,
    lemma_integer_moved, lemma_modifier_bounds, lemma_modifier_moved, lemma_spaces_are_blank,
    lemma_spaces_end_at, lemma_spaces_end_bounds, lemma_spaces_end_moved,
    lemma_syntax_is_formed, lemma_tail_moved, lemma_term_before, lemma_term_bounds,
    lemma_term_moved, modifier_at, operator_of, syntax_of, tail_at, term_at,
    terms_and_operators, Phrase, Suffix, SuffixWord,
};
use crate::text::{digits_end, is_digit, is_numeral, is_space, spaces_end};
use crate::tree::Operator;
use vstd::prelude::*;

verus! {

/// The blank space that a writer leaves around the tokens of one phrase,
/// and the writer's choice of word for keeping the high dice.
pub struct Spacing {
    /// Before the first token of the phrase.
    pub before: Seq<char>,
    /// In a die roll, before the `d`. In a comment, after the `#`.
    pub first: Seq<char>,
    /// In a die roll, after the `d`.
    pub second: Seq<char>,
    /// In a die roll, before the word of the suffix.
    pub third: Seq<char>,
    /// In a die roll, after the word of the suffix.
    pub fourth: Seq<char>,
    /// Whether keeping the high dice is written `kh` rather than `k`.
    pub long_keep: bool,
}

impl Spacing {
    /// Whether the spacing is blank space and nothing else.
    pub open spec fn is_blank(self) -> bool {
        &&& all_blank(self.before)
        &&& all_blank(self.first)
        &&& all_blank(self.second)
        &&& all_blank(self.third)
        &&& all_blank(self.fourth)
    }
}

/// The word of a suffix as it is written.
pub open spec fn word_text(word: SuffixWord, long_keep: bool) -> Seq<char> {
    match word {
        SuffixWord::KeepHigh => if long_keep {
            seq!['k', 'h']
        } else {
            seq!['k']
        },
        SuffixWord::KeepLow => seq!['k', 'l'],
        SuffixWord::RerollOnce => seq!['r'],
    }
}

/// A suffix as it is written, the blank space before it included.
pub open spec fn suffix_text(suffix: Option<Suffix>, spacing: Spacing) -> Seq<char> {
    match suffix {
        Some(x) => spacing.third + word_text(x.word, spacing.long_keep) + spacing.fourth
            + x.number,
        None => Seq::empty(),
    }
}

/// A die roll as it is written.
pub open spec fn die_text(
    count: Seq<char>,
    sides: Seq<char>,
    suffix: Option<Suffix>,
    spacing: Spacing,
) -> Seq<char> {
    count + spacing.first + seq!['d'] + spacing.second + sides + suffix_text(suffix, spacing)
}

/// A phrase as it is written, without the blank space before it.
pub open spec fn phrase_text(phrase: Phrase, spacing: Spacing) -> Seq<char> {
    match phrase {
        Phrase::Number(text) => text,
        Phrase::DieRoll { count, sides, suffix } => die_text(count, sides, suffix, spacing),
        Phrase::Operator(op) => seq![symbol(op)],
        Phrase::Comment(text) => seq!['#'] + (spacing.first + text),
    }
}

/// The phrases from position `from` on as they are written, one after the
/// other, each after the blank space before it, and `trailing` after the
/// last of them.
pub open spec fn written(
    phrases: Seq<Phrase>,
    spacings: Seq<Spacing>,
    trailing: Seq<char>,
    from: int,
) -> Seq<char>
    decreases phrases.len() - from,
{
    if from < 0 || from >= phrases.len() {
        trailing
    } else {
        spacings[from].before + (phrase_text(phrases[from], spacings[from]) + written(
            phrases,
            spacings,
            trailing,
            from + 1,
        ))
    }
}

/// Whether `phrases` can be written with `spacings`, and `trailing` after
/// them: the phrases are formed, there is a spacing for each and it is
/// blank, and `trailing` is blank space, none at all after a comment, which
/// runs to the end of the input.
pub open spec fn writable(phrases: Seq<Phrase>, spacings: Seq<Spacing>, trailing: Seq<char>) -> bool {
    &&& formed(phrases)
    &&& spacings.len() == phrases.len()
    &&& forall|i: int| 0 <= i < spacings.len() ==> (#[trigger] spacings[i]).is_blank()
    &&& all_blank(trailing)
    &&& phrases.last() is Comment ==> trailing.len() == 0
}

/// The grammar reads every writing of phrases as those phrases. Blank space
/// between tokens is insignificant, at the start and at the end as well,
/// `k` and `kh` mean the same, and numbers may have any length and any
/// zeros in front.
pub proof fn lemma_written_reads_back(
    phrases: Seq<Phrase>,
    spacings: Seq<Spacing>,
    trailing: Seq<char>,
)
    requires
        writable(phrases, spacings, trailing),
    ensures
        syntax_of(written(phrases, spacings, trailing, 0)) == Ok::<Seq<Phrase>, ParseError>(phrases),
{
    lemma_first_is_term(phrases);
    lemma_rest_ends_term(phrases, spacings, trailing, 1);
    lemma_tail_written(phrases, spacings, trailing, 1);
    assert(phrases.take(1) =~= seq![phrases[0]]);
    lemma_term_written(phrases[0], spacings[0], written(phrases, spacings, trailing, 1));
    lemma_term_starts_with_digit(phrases[0], spacings[0]);
    lemma_first_term_written(
        spacings[0].before,
        phrases[0],
        phrase_text(phrases[0], spacings[0]),
        written(phrases, spacings, trailing, 1),
    );
}

/// The grammar is unambiguous: what is written for some phrases is written
/// for no others.
pub proof fn lemma_notation_is_unambiguous(
    phrases: Seq<Phrase>,
    spacings: Seq<Spacing>,
    trailing: Seq<char>,
    other: Seq<Phrase>,
    other_spacings: Seq<Spacing>,
    other_trailing: Seq<char>,
)
    requires
        writable(phrases, spacings, trailing),
        writable(other, other_spacings, other_trailing),
        written(phrases, spacings, trailing, 0) == written(other, other_spacings, other_trailing, 0),
    ensures
        phrases == other,
{
    lemma_written_reads_back(phrases, spacings, trailing);
    lemma_written_reads_back(other, other_spacings, other_trailing);
}

/// The grammar reads nothing but writings: text that conforms is its
/// phrases written with some blank space around the tokens, and nothing
/// more. The phrases hold the digits of each number as they stand in the
/// text, zeros in front included.
pub proof fn lemma_accepted_is_written(s: Seq<char>)
    ensures
        syntax_of(s) matches Ok(phrases) ==> exists|spacings: Seq<Spacing>, trailing: Seq<char>|
            writable(phrases, spacings, trailing) && #[trigger] written(
                phrases,
                spacings,
                trailing,
                0,
            ) == s,
{
    if let Ok(phrases) = syntax_of(s) {
        let (spacings, trailing) = lemma_writing_of(s);
        assert(writable(phrases, spacings, trailing) && written(phrases, spacings, trailing, 0)
            == s);
    }
}

/// The blank space with which text that conforms is written.
#[verifier::rlimit(40)]
pub proof fn lemma_writing_of(s: Seq<char>) -> (w: (Seq<Spacing>, Seq<char>))
    requires
        syntax_of(s) is Ok,
    ensures
        writable(syntax_of(s)->Ok_0, w.0, w.1),
        written(syntax_of(s)->Ok_0, w.0, w.1, 0) == s,
{
    let phrases = syntax_of(s)->Ok_0;
    lemma_syntax_is_formed(s);
    lemma_spaces_end_bounds(s, 0);
    lemma_spaces_are_blank(s, 0);
    let start = spaces_end(s, 0);
    lemma_term_bounds(s, start);
    let (term, end) = term_at(s, start)->Ok_0;
    let first = lemma_term_writing(s, start, s.subrange(0, start));
    let (later, trailing) = lemma_tail_writing(s, end, seq![term]);
    let spacings = seq![first] + later;
    let rest = phrases.skip(1);
    assert(phrases[0] == phrases.take(1)[0]);
    assert(spacings.skip(1) =~= later);
    lemma_written_skip(phrases, spacings, trailing, 1, 0);
    assert(written(phrases, spacings, trailing, 0) == first.before + (phrase_text(term, first)
        + written(phrases, spacings, trailing, 1)));
    assert(s =~= s.subrange(0, start) + (s.subrange(start, end) + s.subrange(
        end,
        s.len() as int,
    )));
    assert forall|i: int| 0 <= i < spacings.len() implies (#[trigger] spacings[i]).is_blank() by {
        if i > 0 {
            assert(spacings[i] == later[i - 1]);
        }
    }
    if phrases.last() is Comment {
        assert(rest.len() > 0);
        assert(rest.last() == phrases.last());
    }
    (spacings, trailing)
}

/// The blank space with which a term is written, after `before`.
#[verifier::rlimit(40)]
proof fn lemma_term_writing(s: Seq<char>, i: int, before: Seq<char>) -> (spacing: Spacing)
    requires
        0 <= i <= s.len(),
        term_at(s, i) is Ok,
        all_blank(before),
    ensures
        spacing.is_blank(),
        spacing.before == before,
        phrase_text(term_at(s, i)->Ok_0.0, spacing) == s.subrange(i, term_at(s, i)->Ok_0.1),
{
    let none = Seq::<char>::empty();
    let (term, end) = term_at(s, i)->Ok_0;
    lemma_integer_bounds(s, i);
    let (count, count_end) = integer_at(s, i)->Ok_0;
    lemma_spaces_end_bounds(s, count_end);
    lemma_spaces_are_blank(s, count_end);
    let d_at = spaces_end(s, count_end);
    if d_at < s.len() && s[d_at] == 'd' {
        lemma_spaces_end_bounds(s, d_at + 1);
        lemma_spaces_are_blank(s, d_at + 1);
        let sides_at = spaces_end(s, d_at + 1);
        lemma_integer_bounds(s, sides_at);
        let (sides, sides_end) = integer_at(s, sides_at)->Ok_0;
        let (third, fourth, long_keep) = lemma_suffix_writing(s, sides_end);
        let spacing = Spacing {
            before,
            first: s.subrange(count_end, d_at),
            second: s.subrange(d_at + 1, sides_at),
            third,
            fourth,
            long_keep,
        };
        let suffix = modifier_at(s, sides_end)->Ok_0.0;
        lemma_modifier_bounds(s, sides_end);
        assert(suffix_text(suffix, spacing) == s.subrange(sides_end, end));
        assert(s.subrange(i, end) =~= count + spacing.first + seq!['d'] + spacing.second + sides
            + s.subrange(sides_end, end));
        spacing
    } else {
        Spacing { before, first: none, second: none, third: none, fourth: none, long_keep: false }
    }
}

/// The blank space with which a suffix is written, and its word for
/// keeping the high dice.
#[verifier::rlimit(40)]
proof fn lemma_suffix_writing(s: Seq<char>, i: int) -> (w: (Seq<char>, Seq<char>, bool))
    requires
        0 <= i <= s.len(),
        modifier_at(s, i) is Ok,
    ensures
        all_blank(w.0),
        all_blank(w.1),
        forall|spacing: Spacing|
            spacing.third == w.0 && spacing.fourth == w.1 && spacing.long_keep == w.2
                ==> #[trigger] suffix_text(modifier_at(s, i)->Ok_0.0, spacing) == s.subrange(
                i,
                modifier_at(s, i)->Ok_0.1,
            ),
{
    let none = Seq::<char>::empty();
    let (suffix, end) = modifier_at(s, i)->Ok_0;
    lemma_spaces_end_bounds(s, i);
    lemma_spaces_are_blank(s, i);
    let j = spaces_end(s, i);
    if j < s.len() && (s[j] == 'k' || s[j] == 'r') {
        let low = s[j] == 'k' && j + 1 < s.len() && s[j + 1] == 'l';
        let high = s[j] == 'k' && j + 1 < s.len() && s[j + 1] == 'h';
        let word_end = if low || high {
            j + 2
        } else {
            j + 1
        };
        lemma_spaces_end_bounds(s, word_end);
        lemma_spaces_are_blank(s, word_end);
        let number_at = spaces_end(s, word_end);
        lemma_integer_bounds(s, number_at);
        let third = s.subrange(i, j);
        let fourth = s.subrange(word_end, number_at);
        let x = suffix->Some_0;
        assert forall|spacing: Spacing|
            spacing.third == third && spacing.fourth == fourth && spacing.long_keep == high implies
            #[trigger] suffix_text(suffix, spacing) == s.subrange(i, end) by {
            let word = word_text(x.word, high);
            assert(word =~= s.subrange(j, word_end));
            assert(s.subrange(i, end) =~= third + word + fourth + x.number);
        }
        (third, fourth, high)
    } else {
        assert(s.subrange(i, i) =~= none);
        (none, none, false)
    }
}

/// The blank space with which what follows a term is written.
#[verifier::rlimit(40)]
proof fn lemma_tail_writing(s: Seq<char>, i: int, read: Seq<Phrase>) -> (w: (
    Seq<Spacing>,
    Seq<char>,
))
    requires
        0 <= i <= s.len(),
        tail_at(s, i, read) is Ok,
    ensures
        ({
            let all = tail_at(s, i, read)->Ok_0;
            let rest = all.skip(read.len() as int);
            &&& all.len() >= read.len()
            &&& all.take(read.len() as int) == read
            &&& w.0.len() == rest.len()
            &&& forall|k: int| 0 <= k < w.0.len() ==> (#[trigger] w.0[k]).is_blank()
            &&& all_blank(w.1)
            &&& rest.len() > 0 && rest.last() is Comment ==> w.1.len() == 0
            &&& written(rest, w.0, w.1, 0) == s.subrange(i, s.len() as int)
        }),
    decreases s.len() - i,
{
    let none = Seq::<char>::empty();
    let all = tail_at(s, i, read)->Ok_0;
    let rest = all.skip(read.len() as int);
    lemma_spaces_end_bounds(s, i);
    lemma_spaces_are_blank(s, i);
    let j = spaces_end(s, i);
    let gap = s.subrange(i, j);
    if j >= s.len() {
        assert(all.take(read.len() as int) =~= read);
        (Seq::empty(), gap)
    } else if s[j] == '#' {
        lemma_spaces_end_bounds(s, j + 1);
        lemma_spaces_are_blank(s, j + 1);
        let text_at = spaces_end(s, j + 1);
        let text = s.subrange(text_at, s.len() as int);
        let spacing = Spacing {
            before: gap,
            first: s.subrange(j + 1, text_at),
            second: none,
            third: none,
            fourth: none,
            long_keep: false,
        };
        let spacings = seq![spacing];
        assert(all.take(read.len() as int) =~= read);
        assert(rest =~= seq![Phrase::Comment(text)]);
        assert(written(rest, spacings, none, 1) == none);
        assert(s.subrange(i, s.len() as int) =~= gap + (seq!['#'] + (spacing.first + text) + none));
        (spacings, none)
    } else {
        let op = operator_of(s[j])->Some_0;
        lemma_spaces_end_bounds(s, j + 1);
        lemma_spaces_are_blank(s, j + 1);
        let term_start = spaces_end(s, j + 1);
        lemma_term_bounds(s, term_start);
        let (term, end) = term_at(s, term_start)->Ok_0;
        let longer = read.push(Phrase::Operator(op)).push(term);
        let (later, trailing) = lemma_tail_writing(s, end, longer);
        let sign_spacing = Spacing {
            before: gap,
            first: none,
            second: none,
            third: none,
            fourth: none,
            long_keep: false,
        };
        let term_spacing = lemma_term_writing(s, term_start, s.subrange(j + 1, term_start));
        let spacings = seq![sign_spacing, term_spacing] + later;
        let after = all.skip(longer.len() as int);
        assert(all.take(read.len() as int) =~= read) by {
            assert(all.take(longer.len() as int) == longer);
            assert forall|k: int| 0 <= k < read.len() implies all[k] == read[k] by {
                assert(all.take(longer.len() as int)[k] == longer[k]);
            }
        }
        assert(rest[0] == Phrase::Operator(op) && rest[1] == term) by {
            assert(all.take(longer.len() as int)[read.len() as int] == longer[read.len() as int]);
            assert(all.take(longer.len() as int)[read.len() as int + 1] == longer[read.len() as int + 1]);
        }
        assert(rest.skip(2) =~= after);
        assert(spacings.skip(2) =~= later);
        lemma_written_skip(rest, spacings, trailing, 2, 0);
        assert(symbol(op) == s[j]);
        assert(written(rest, spacings, trailing, 1) == term_spacing.before + (phrase_text(
            term,
            term_spacing,
        ) + written(rest, spacings, trailing, 2)));
        assert(written(rest, spacings, trailing, 0) == gap + (seq![symbol(op)] + written(
            rest,
            spacings,
            trailing,
            1,
        )));
        assert(s.subrange(i, s.len() as int) =~= gap + (seq![s[j]] + (s.subrange(
            j + 1,
            term_start,
        ) + (s.subrange(term_start, end) + s.subrange(end, s.len() as int)))));
        assert forall|k: int| 0 <= k < spacings.len() implies (#[trigger] spacings[k]).is_blank() by {
            if k >= 2 {
                assert(spacings[k] == later[k - 2]);
            }
        }
        if rest.last() is Comment {
            assert(after.len() > 0);
            assert(after.last() == rest.last());
        }
        (spacings, trailing)
    }
}

/// Writing from a position on is writing what is left from there.
proof fn lemma_written_skip(
    phrases: Seq<Phrase>,
    spacings: Seq<Spacing>,
    trailing: Seq<char>,
    k: int,
    from: int,
)
    requires
        0 <= k <= phrases.len(),
        0 <= from,
        spacings.len() == phrases.len(),
    ensures
        written(phrases, spacings, trailing, k + from) == written(
            phrases.skip(k),
            spacings.skip(k),
            trailing,
            from,
        ),
    decreases phrases.len() - k - from,
{
    if k + from < phrases.len() {
        lemma_written_skip(phrases, spacings, trailing, k, from + 1);
    }
}

/// The first of formed phrases is a term.
proof fn lemma_first_is_term(phrases: Seq<Phrase>)
    requires
        formed(phrases),
    ensures
        phrases.len() >= 1,
        phrases[0].is_term(),
        phrases[0].is_valid(),
{
    if !terms_and_operators(phrases) {
        assert(phrases.drop_last()[0].is_term());
        assert(phrases.drop_last()[0].is_valid());
    }
}

/// The phrase after a term of formed phrases is an operator, with a term
/// after it, or the comment at the end.
proof fn lemma_next_phrases(phrases: Seq<Phrase>, from: int)
    requires
        formed(phrases),
        0 <= from < phrases.len(),
        from % 2 == 1,
    ensures
        phrases[from] is Operator || phrases[from] is Comment,
        phrases[from] is Comment ==> from == phrases.len() - 1 && phrases[from].is_valid(),
        phrases[from] is Operator ==> {
            &&& from + 1 < phrases.len()
            &&& phrases[from + 1].is_term()
            &&& phrases[from + 1].is_valid()
        },
{
    if terms_and_operators(phrases) {
        assert(phrases[from] is Operator);
        assert(phrases[from + 1].is_term());
        assert(phrases[from + 1].is_valid());
    } else {
        let front = phrases.drop_last();
        if from < front.len() {
            assert(front[from] is Operator);
            assert(front[from + 1].is_term());
            assert(front[from + 1].is_valid());
        }
    }
}

/// What is written after a term may come after a term.
proof fn lemma_rest_ends_term(
    phrases: Seq<Phrase>,
    spacings: Seq<Spacing>,
    trailing: Seq<char>,
    from: int,
)
    requires
        writable(phrases, spacings, trailing),
        0 <= from <= phrases.len(),
        from % 2 == 1,
    ensures
        ends_term(written(phrases, spacings, trailing, from)),
{
    let rest = written(phrases, spacings, trailing, from);
    if from >= phrases.len() {
        lemma_spaces_end_at(rest, 0, rest.len() as int);
    } else {
        lemma_next_phrases(phrases, from);
        assert(spacings[from].is_blank());
        let text = phrase_text(phrases[from], spacings[from]);
        let more = text + written(phrases, spacings, trailing, from + 1);
        assert(more[0] == text[0]);
        lemma_gap_skipped(spacings[from].before, more);
        assert(rest[spacings[from].before.len() as int] == more[0]);
    }
}

/// What is written after a term reads as the rest of the phrases.
proof fn lemma_tail_written(
    phrases: Seq<Phrase>,
    spacings: Seq<Spacing>,
    trailing: Seq<char>,
    from: int,
)
    requires
        writable(phrases, spacings, trailing),
        0 <= from <= phrases.len(),
        from % 2 == 1,
    ensures
        tail_at(written(phrases, spacings, trailing, from), 0, phrases.take(from)) == Ok::<
            Seq<Phrase>,
            ParseError,
        >(phrases),
    decreases phrases.len() - from,
{
    let read = phrases.take(from);
    if from >= phrases.len() {
        assert(read =~= phrases);
        lemma_end_written(trailing, read);
    } else {
        lemma_next_phrases(phrases, from);
        assert(spacings[from].is_blank());
        let gap = spacings[from].before;
        match phrases[from] {
            Phrase::Comment(comment) => {
                assert(written(phrases, spacings, trailing, from + 1) == trailing);
                assert(comment + trailing =~= comment);
                lemma_comment_written(gap, spacings[from].first, comment, read);
                assert(read.push(phrases[from]) =~= phrases);
            },
            Phrase::Operator(op) => {
                let term = phrases[from + 1];
                let spacing = spacings[from + 1];
                let rest = written(phrases, spacings, trailing, from + 2);
                assert(spacing.is_blank());
                assert(written(phrases, spacings, trailing, from + 1) == spacing.before + (
                phrase_text(term, spacing) + rest));
                assert(read.push(phrases[from]).push(term) =~= phrases.take(from + 2));
                lemma_rest_ends_term(phrases, spacings, trailing, from + 2);
                lemma_tail_written(phrases, spacings, trailing, from + 2);
                lemma_term_written(term, spacing, rest);
                lemma_term_starts_with_digit(term, spacing);
                lemma_operator_written(
                    gap,
                    op,
                    spacing.before,
                    term,
                    phrase_text(term, spacing),
                    rest,
                    read,
                );
            },
            _ => {},
        }
    }
}

/// Where the text of the first term reads as that term, the whole input
/// reads as what follows the term does by itself.
proof fn lemma_first_term_written(gap: Seq<char>, term: Phrase, text: Seq<char>, rest: Seq<char>)
    requires
        all_blank(gap),
        text.len() > 0,
        !is_space(text[0]),
        term_at(text + rest, 0) == Ok::<(Phrase, int), ParseError>((term, text.len() as int)),
        tail_at(rest, 0, seq![term]) is Ok,
    ensures
        syntax_of(gap + (text + rest)) == tail_at(rest, 0, seq![term]),
{
    let s = gap + (text + rest);
    lemma_gap_skipped(gap, text + rest);
    lemma_term_moved(gap, text + rest, 0);
    assert(s =~= (gap + text) + rest);
    lemma_tail_moved(gap + text, rest, 0, seq![term]);
}

/// Where the text of a term reads as that term, an operator and the term
/// after it read as they were written, and what follows them reads as it
/// does by itself.
proof fn lemma_operator_written(
    gap: Seq<char>,
    op: Operator,
    before: Seq<char>,
    term: Phrase,
    text: Seq<char>,
    rest: Seq<char>,
    read: Seq<Phrase>,
)
    requires
        all_blank(gap),
        all_blank(before),
        text.len() > 0,
        !is_space(text[0]),
        term_at(text + rest, 0) == Ok::<(Phrase, int), ParseError>((term, text.len() as int)),
        tail_at(rest, 0, read.push(Phrase::Operator(op)).push(term)) is Ok,
    ensures
        tail_at(gap + (seq![symbol(op)] + (before + (text + rest))), 0, read) == tail_at(
            rest,
            0,
            read.push(Phrase::Operator(op)).push(term),
        ),
{
    let sign = seq![symbol(op)];
    let s = gap + (sign + (before + (text + rest)));
    let head = gap + sign + before;
    let j = gap.len() as int;
    let term_end = (head.len() + text.len()) as int;
    let longer = read.push(Phrase::Operator(op)).push(term);
    lemma_sign_found(gap, sign, before + (text + rest));
    lemma_term_found(gap + sign, before, text, rest, term);
    assert(s =~= (gap + sign) + (before + (text + rest)));
    assert(s =~= (head + text) + rest);
    lemma_tail_moved(head + text, rest, 0, longer);
    lemma_tail_step(s, read, op, j, head.len() as int, term, term_end);
}

/// A comment reads as it was written: the text after the blank space that
/// follows the `#`.
proof fn lemma_comment_written(
    gap: Seq<char>,
    after: Seq<char>,
    comment: Seq<char>,
    read: Seq<Phrase>,
)
    requires
        all_blank(gap),
        all_blank(after),
        comment.len() == 0 || !is_space(comment[0]),
    ensures
        tail_at(gap + (seq!['#'] + (after + comment)), 0, read) == Ok::<Seq<Phrase>, ParseError>(
            read.push(Phrase::Comment(comment)),
        ),
{
    let s = gap + (seq!['#'] + (after + comment));
    let j = gap.len() as int;
    lemma_gap_skipped(gap, seq!['#'] + (after + comment));
    assert(s[j] == '#');
    let start = j + 1 + after.len();
    assert(spaces_end(s, j + 1) == start) by {
        lemma_gap_skipped(after, comment);
        lemma_spaces_end_moved(gap + seq!['#'], after + comment, 0);
        assert(s =~= (gap + seq!['#']) + (after + comment));
    }
    assert(s.subrange(start, s.len() as int) =~= comment);
}

/// The end of the input, after blank space, ends the phrases.
proof fn lemma_end_written(trailing: Seq<char>, read: Seq<Phrase>)
    requires
        all_blank(trailing),
    ensures
        tail_at(trailing, 0, read) == Ok::<Seq<Phrase>, ParseError>(read),
{
    lemma_spaces_end_at(trailing, 0, trailing.len() as int);
}

/// One step of reading what follows a term: an operator, then a term.
proof fn lemma_tail_step(
    s: Seq<char>,
    read: Seq<Phrase>,
    op: Operator,
    sign_at: int,
    term_start: int,
    term: Phrase,
    term_end: int,
)
    requires
        0 <= sign_at < s.len(),
        spaces_end(s, 0) == sign_at,
        s[sign_at] == symbol(op),
        spaces_end(s, sign_at + 1) == term_start,
        term_at(s, term_start) == Ok::<(Phrase, int), ParseError>((term, term_end)),
    ensures
        tail_at(s, 0, read) == tail_at(s, term_end, read.push(Phrase::Operator(op)).push(term)),
{
}

/// A sign after blank space is where the blank space ends.
proof fn lemma_sign_found(gap: Seq<char>, sign: Seq<char>, more: Seq<char>)
    requires
        all_blank(gap),
        sign.len() == 1,
        !is_space(sign[0]),
    ensures
        spaces_end(gap + (sign + more), 0) == gap.len(),
        (gap + (sign + more))[gap.len() as int] == sign[0],
{
    lemma_gap_skipped(gap, sign + more);
}

/// A term after a sign and blank space reads as it does by itself.
proof fn lemma_term_found(
    head: Seq<char>,
    before: Seq<char>,
    text: Seq<char>,
    rest: Seq<char>,
    term: Phrase,
)
    requires
        all_blank(before),
        text.len() > 0,
        !is_space(text[0]),
        term_at(text + rest, 0) == Ok::<(Phrase, int), ParseError>((term, text.len() as int)),
    ensures
        spaces_end(head + (before + (text + rest)), head.len() as int) == head.len()
            + before.len(),
        term_at(head + (before + (text + rest)), (head.len() + before.len()) as int) == Ok::<
            (Phrase, int),
            ParseError,
        >((term, (head.len() + before.len() + text.len()) as int)),
{
    let s = head + (before + (text + rest));
    lemma_gap_skipped(before, text + rest);
    lemma_spaces_end_moved(head, before + (text + rest), 0);
    lemma_term_moved(head + before, text + rest, 0);
    assert(s =~= (head + before) + (text + rest));
}

/// Blank space before something that starts with no blank is skipped as a
/// whole.
proof fn lemma_gap_skipped(gap: Seq<char>, more: Seq<char>)
    requires
        all_blank(gap),
        more.len() == 0 || !is_space(more[0]),
    ensures
        spaces_end(gap + more, 0) == gap.len(),
{
    let s = gap + more;
    assert forall|k: int| 0 <= k < gap.len() implies is_space(#[trigger] s[k]) by {
        assert(s[k] == gap[k]);
    }
    if more.len() > 0 {
        assert(s[gap.len() as int] == more[0]);
    }
    lemma_spaces_end_at(s, 0, gap.len() as int);
}

/// A term reads as it was written, whatever follows it that may come after
/// a term.
proof fn lemma_term_written(term: Phrase, spacing: Spacing, more: Seq<char>)
    requires
        term.is_term(),
        term.is_valid(),
        spacing.is_blank(),
        ends_term(more),
    ensures
        term_at(phrase_text(term, spacing) + more, 0) == Ok::<(Phrase, int), ParseError>(
            (term, phrase_text(term, spacing).len() as int),
        ),
{
    let text = phrase_text(term, spacing);
    match term {
        Phrase::DieRoll { count, sides, suffix } => {
            lemma_die_written(count, sides, suffix, spacing);
        },
        Phrase::Number(digits) => {
            lemma_numeral_written(digits, Seq::empty());
            assert(digits + Seq::<char>::empty() =~= digits);
        },
        _ => {},
    }
    lemma_term_before(text, more, 0);
}

/// A term as it is written starts with a digit.
proof fn lemma_term_starts_with_digit(term: Phrase, spacing: Spacing)
    requires
        term.is_term(),
        term.is_valid(),
    ensures
        phrase_text(term, spacing).len() > 0,
        is_digit(phrase_text(term, spacing)[0]),
{
    match term {
        Phrase::DieRoll { count, sides, suffix } => {
            assert(phrase_text(term, spacing)[0] == count[0]);
        },
        _ => {},
    }
}

/// A die roll by itself reads as it was written.
proof fn lemma_die_written(
    count: Seq<char>,
    sides: Seq<char>,
    suffix: Option<Suffix>,
    spacing: Spacing,
)
    requires
        spacing.is_blank(),
        is_numeral(count),
        is_numeral(sides),
        suffix matches Some(x) ==> is_numeral(x.number),
    ensures
        term_at(die_text(count, sides, suffix, spacing), 0) == Ok::<(Phrase, int), ParseError>(
            (
                Phrase::DieRoll { count, sides, suffix },
                die_text(count, sides, suffix, spacing).len() as int,
            ),
        ),
{
    lemma_suffix_starts_with_no_digit(suffix, spacing);
    lemma_suffix_written(suffix, spacing);
    lemma_die_read(
        count,
        spacing.first,
        spacing.second,
        sides,
        suffix_text(suffix, spacing),
        suffix,
    );
}

/// A die roll reads as its numbers and its suffix, where what is written
/// after the number of sides reads as the suffix.
proof fn lemma_die_read(
    count: Seq<char>,
    first: Seq<char>,
    second: Seq<char>,
    sides: Seq<char>,
    tail: Seq<char>,
    suffix: Option<Suffix>,
)
    requires
        all_blank(first),
        all_blank(second),
        is_numeral(count),
        is_numeral(sides),
        tail.len() == 0 || !is_digit(tail[0]),
        modifier_at(tail, 0) == Ok::<(Option<Suffix>, int), ParseError>((suffix, tail.len() as int)),
    ensures
        term_at(count + first + seq!['d'] + second + sides + tail, 0) == Ok::<
            (Phrase, int),
            ParseError,
        >(
            (
                Phrase::DieRoll { count, sides, suffix },
                (count + first + seq!['d'] + second + sides + tail).len() as int,
            ),
        ),
{
    let s = count + first + seq!['d'] + second + sides + tail;
    let d_at: int = (count.len() + first.len()) as int;
    let sides_at: int = d_at + 1 + second.len();
    let sides_end: int = sides_at + sides.len();
    lemma_count_read(count, first, second + sides + tail);
    assert(s =~= count + (first + (seq!['d'] + (second + sides + tail))));
    lemma_sides_read(count + first + seq!['d'], second, sides, tail);
    assert(s =~= (count + first + seq!['d']) + (second + (sides + tail)));
    lemma_modifier_moved(count + first + seq!['d'] + second + sides, tail, 0);
    lemma_die_step(s, count, d_at, sides_at, sides, sides_end, suffix);
}

/// The number of dice, and the letter after it, read as they were written.
proof fn lemma_count_read(count: Seq<char>, first: Seq<char>, more: Seq<char>)
    requires
        all_blank(first),
        is_numeral(count),
    ensures
        ({
            let s = count + (first + (seq!['d'] + more));
            let d_at = (count.len() + first.len()) as int;
            &&& integer_at(s, 0) == Ok::<(Seq<char>, int), ParseError>((count, count.len() as int))
            &&& spaces_end(s, count.len() as int) == d_at
            &&& s[d_at] == 'd'
        }),
{
    let after = seq!['d'] + more;
    let s = count + (first + after);
    assert((first + after)[0] == if first.len() > 0 {
        first[0]
    } else {
        'd'
    });
    lemma_numeral_written(count, first + after);
    assert(after[0] == 'd');
    lemma_gap_skipped(first, after);
    lemma_spaces_end_moved(count, first + after, 0);
    assert(s[(count.len() + first.len()) as int] == after[0]);
}

/// The number of sides reads as it was written, after the letter.
proof fn lemma_sides_read(head: Seq<char>, second: Seq<char>, sides: Seq<char>, tail: Seq<char>)
    requires
        all_blank(second),
        is_numeral(sides),
        tail.len() == 0 || !is_digit(tail[0]),
    ensures
        ({
            let s = head + (second + (sides + tail));
            let sides_at = (head.len() + second.len()) as int;
            &&& spaces_end(s, head.len() as int) == sides_at
            &&& integer_at(s, sides_at) == Ok::<(Seq<char>, int), ParseError>(
                (sides, sides_at + sides.len()),
            )
        }),
{
    let s = head + (second + (sides + tail));
    assert((sides + tail)[0] == sides[0]);
    lemma_gap_skipped(second, sides + tail);
    lemma_spaces_end_moved(head, second + (sides + tail), 0);
    lemma_numeral_written(sides, tail);
    assert(s =~= (head + second) + (sides + tail));
    lemma_integer_moved(head + second, sides + tail, 0);
}

/// The steps of reading a die roll, put together.
proof fn lemma_die_step(
    s: Seq<char>,
    count: Seq<char>,
    d_at: int,
    sides_at: int,
    sides: Seq<char>,
    sides_end: int,
    suffix: Option<Suffix>,
)
    requires
        0 <= d_at < s.len(),
        integer_at(s, 0) == Ok::<(Seq<char>, int), ParseError>((count, count.len() as int)),
        spaces_end(s, count.len() as int) == d_at,
        s[d_at] == 'd',
        spaces_end(s, d_at + 1) == sides_at,
        integer_at(s, sides_at) == Ok::<(Seq<char>, int), ParseError>((sides, sides_end)),
        modifier_at(s, sides_end) == Ok::<(Option<Suffix>, int), ParseError>(
            (suffix, s.len() as int),
        ),
    ensures
        term_at(s, 0) == Ok::<(Phrase, int), ParseError>(
            (Phrase::DieRoll { count, sides, suffix }, s.len() as int),
        ),
{
}

/// A suffix by itself reads as it was written.
#[verifier::rlimit(40)]
proof fn lemma_suffix_written(suffix: Option<Suffix>, spacing: Spacing)
    requires
        spacing.is_blank(),
        suffix matches Some(x) ==> is_numeral(x.number),
    ensures
        modifier_at(suffix_text(suffix, spacing), 0) == Ok::<(Option<Suffix>, int), ParseError>(
            (suffix, suffix_text(suffix, spacing).len() as int),
        ),
{
    let s = suffix_text(suffix, spacing);
    match suffix {
        Some(x) => {
            let gap = spacing.third;
            let word = word_text(x.word, spacing.long_keep);
            let digits = x.number;
            let head = gap + word + spacing.fourth;
            assert(s =~= head + digits);
            let j = gap.len() as int;
            assert forall|k: int| 0 <= k < j implies is_space(#[trigger] s[k]) by {
                assert(s[k] == gap[k]);
            }
            assert(s[j] == word[0]);
            lemma_spaces_end_at(s, 0, j);
            let word_end = j + word.len();
            if word.len() == 2 {
                assert(s[j + 1] == word[1]);
            } else if spacing.fourth.len() > 0 {
                assert(s[j + 1] == spacing.fourth[0]);
            } else {
                assert(s[j + 1] == digits[0]);
            }
            assert forall|k: int| word_end <= k < head.len() implies is_space(#[trigger] s[k]) by {
                assert(s[k] == spacing.fourth[k - word_end]);
            }
            assert(s[head.len() as int] == digits[0]);
            lemma_spaces_end_at(s, word_end, head.len() as int);
            lemma_numeral_written(digits, Seq::empty());
            assert(digits + Seq::<char>::empty() =~= digits);
            lemma_integer_moved(head, digits, 0);
        },
        None => {},
    }
}

/// A suffix as it is written starts with blank space or a letter.
proof fn lemma_suffix_starts_with_no_digit(suffix: Option<Suffix>, spacing: Spacing)
    requires
        spacing.is_blank(),
    ensures
        suffix_text(suffix, spacing).len() == 0 || !is_digit(suffix_text(suffix, spacing)[0]),
{
    match suffix {
        Some(x) => {
            let s = suffix_text(suffix, spacing);
            if spacing.third.len() > 0 {
                assert(s[0] == spacing.third[0]);
            } else {
                assert(s[0] == word_text(x.word, spacing.long_keep)[0]);
            }
        },
        None => {},
    }
}

/// A numeral reads as its digits, whatever follows it that is no digit.
proof fn lemma_numeral_written(text: Seq<char>, more: Seq<char>)
    requires
        is_numeral(text),
        more.len() == 0 || !is_digit(more[0]),
    ensures
        integer_at(text + more, 0) == Ok::<(Seq<char>, int), ParseError>(
            (text, text.len() as int),
        ),
{
    lemma_numeral_is_one_run(text, 0);
    assert(text.subrange(0, text.len() as int) =~= text);
    lemma_integer_before(text, more, 0);
}

/// A numeral by itself is one run of digits.
proof fn lemma_numeral_is_one_run(text: Seq<char>, i: int)
    requires
        is_numeral(text),
        0 <= i <= text.len(),
    ensures
        digits_end(text, i) == text.len(),
    decreases text.len() - i,
{
    if i < text.len() {
        lemma_numeral_is_one_run(text, i + 1);
    }
}

} // verus!
