//! The parser: from the text of a roll to its parse tree.

use crate::error::{Expected, ParseError};
use crate::grammar::{
    all_fit, integer_at, lemma_formed_tree, lemma_terms_and_operators_grow, modifier_at,
    modifier_of, operator_of, parse_of, syntax_of, tail_at, term_at, terms_and_operators,
    tree_of, value_fits, Phrase, Suffix,
};
use crate::text::{characters, decimal_value, is_digit, is_numeral, scan_digits, skip_spaces};
use crate::tree::{tree_view, DieRoll, Modifier, Node, NodeView, Operator, ParseTree};
use vstd::prelude::*;
use vstd::string::{StrSliceExecFns, StringExecFns};

verus! {

/// Reads the number written at `at`: where it ends, and its value where
/// that fits a signed 64-bit integer.
fn parse_integer(chars: &Vec<char>, at: usize) -> (result: Result<
    (Option<u64>, usize),
    ParseError,
>)
    requires
        at <= chars@.len(),
    ensures
        match result {
            Ok((value, end)) => {
                let digits = chars@.subrange(at as int, end as int);
                &&& at < end <= chars@.len()
                &&& integer_at(chars@, at as int) == Ok::<(Seq<char>, int), ParseError>(
                    (digits, end as int),
                )
                &&& is_numeral(digits)
                &&& match value {
                    Some(v) => value_fits(digits) && v == decimal_value(digits),
                    None => !value_fits(digits),
                }
            },
            Err(e) => integer_at(chars@, at as int) == Err::<(Seq<char>, int), ParseError>(e),
        },
{
    let (end, value) = scan_digits(chars, at);
    if end == at {
        return Err(ParseError::SyntaxError { position: at, expected: Expected::Integer });
    }
    proof {
        let digits = chars@.subrange(at as int, end as int);
        assert forall|i: int| 0 <= i < digits.len() implies is_digit(#[trigger] digits[i]) by {
            assert(digits[i] == chars@[at + i]);
        }
    }
    match value {
        Some(v) => Ok((Some(v as u64), end)),
        None => Ok((None, end)),
    }
}

/// Reads the suffix of the die roll whose number of sides ends at `at`:
/// what it asks for, whether its number fits, and where it ends.
fn parse_modifier(chars: &Vec<char>, at: usize) -> (result: Result<
    (Option<Modifier>, bool, usize),
    ParseError,
>)
    requires
        at <= chars@.len(),
    ensures
        match result {
            Ok((modifier, fits, end)) => {
                &&& at <= end <= chars@.len()
                &&& modifier_at(chars@, at as int) is Ok
                &&& modifier_at(chars@, at as int)->Ok_0.1 == end
                &&& ({
                    let suffix = modifier_at(chars@, at as int)->Ok_0.0;
                    &&& suffix matches Some(x) ==> is_numeral(x.number)
                    &&& fits == (suffix matches Some(x) ==> value_fits(x.number))
                    &&& fits ==> modifier == modifier_of(suffix)
                })
            },
            Err(e) => modifier_at(chars@, at as int) == Err::<
                (Option<Suffix>, int),
                ParseError,
            >(e),
        },
{
    let j = skip_spaces(chars, at);
    if j < chars.len() && chars[j] == 'k' {
        let low = j + 1 < chars.len() && chars[j + 1] == 'l';
        let high = j + 1 < chars.len() && chars[j + 1] == 'h';
        let word_end = if low || high {
            j + 2
        } else {
            j + 1
        };
        let number_at = skip_spaces(chars, word_end);
        match parse_integer(chars, number_at) {
            Ok((Some(keep), end)) => {
                let modifier = if low {
                    Modifier::KeepLow(keep)
                } else {
                    Modifier::KeepHigh(keep)
                };
                Ok((Some(modifier), true, end))
            },
            Ok((None, end)) => Ok((None, false, end)),
            Err(e) => Err(e),
        }
    } else if j < chars.len() && chars[j] == 'r' {
        let number_at = skip_spaces(chars, j + 1);
        match parse_integer(chars, number_at) {
            Ok((Some(target), end)) => Ok((Some(Modifier::RerollOnce(target)), true, end)),
            Ok((None, end)) => Ok((None, false, end)),
            Err(e) => Err(e),
        }
    } else {
        Ok((None, true, at))
    }
}

/// Reads the term that starts at `at`: the node it stands for, where its
/// numbers fit, and where it ends.
fn parse_term(input: &str, chars: &Vec<char>, at: usize) -> (result: Result<
    (Option<Node>, usize),
    ParseError,
>)
    requires
        chars@ == input@,
        at <= chars@.len(),
    ensures
        match result {
            Ok((node, end)) => {
                &&& at < end <= chars@.len()
                &&& term_at(chars@, at as int) is Ok
                &&& term_at(chars@, at as int)->Ok_0.1 == end
                &&& ({
                    let term = term_at(chars@, at as int)->Ok_0.0;
                    &&& term.is_term()
                    &&& term.is_valid()
                    &&& match node {
                        Some(n) => term.fits() && n@ == term.node(),
                        None => !term.fits(),
                    }
                })
            },
            Err(e) => term_at(chars@, at as int) == Err::<(Phrase, int), ParseError>(e),
        },
{
    let (first, end) = match parse_integer(chars, at) {
        Ok(found) => found,
        Err(e) => {
            return Err(e);
        },
    };
    let j = skip_spaces(chars, end);
    if j < chars.len() && chars[j] == 'd' {
        let sides_at = skip_spaces(chars, j + 1);
        let (sides, sides_end) = match parse_integer(chars, sides_at) {
            Ok(found) => found,
            Err(e) => {
                return Err(e);
            },
        };
        let (modifier, fits, last) = match parse_modifier(chars, sides_end) {
            Ok(found) => found,
            Err(e) => {
                return Err(e);
            },
        };
        match (first, sides) {
            (Some(count), Some(sides)) => {
                if fits {
                    Ok((Some(Node::DieRoll(DieRoll { count, sides, modifier })), last))
                } else {
                    Ok((None, last))
                }
            },
            _ => Ok((None, last)),
        }
    } else {
        match first {
            Some(_) => {
                let text = String::from_str(input.substring_char(at, end));
                Ok((Some(Node::Number(text)), end))
            },
            None => Ok((None, end)),
        }
    }
}

/// Reads the sign of an operator.
fn parse_operator(c: char) -> (op: Option<Operator>)
    ensures
        op == operator_of(c),
{
    if c == '+' {
        Some(Operator::Add)
    } else if c == '-' {
        Some(Operator::Subtract)
    } else if c == '*' {
        Some(Operator::Multiply)
    } else if c == '/' {
        Some(Operator::Divide)
    } else {
        None
    }
}

/// What one more phrase adds to the phrases before it.
proof fn lemma_one_more(phrases: Seq<Phrase>, phrase: Phrase)
    ensures
        all_fit(phrases.push(phrase)) == (all_fit(phrases) && phrase.fits()),
        tree_of(phrases.push(phrase)) == tree_of(phrases).push(phrase.node()),
{
    let longer = phrases.push(phrase);
    assert(tree_of(longer) =~= tree_of(phrases).push(phrase.node()));
    if all_fit(phrases) && phrase.fits() {
        assert forall|i: int| 0 <= i < longer.len() implies (#[trigger] longer[i]).fits() by {
            if i < phrases.len() {
                assert(phrases[i].fits());
            }
        }
    }
    if all_fit(longer) {
        assert(longer[phrases.len() as int].fits());
        assert forall|i: int| 0 <= i < phrases.len() implies (#[trigger] phrases[i]).fits() by {
            assert(longer[i].fits());
        }
    }
}

/// The tree view of a list of nodes grown by one node.
proof fn lemma_tree_view_push(nodes: Seq<Node>, node: Node)
    ensures
        tree_view(nodes.push(node)) == tree_view(nodes).push(node@),
{
    assert(tree_view(nodes.push(node)) =~= tree_view(nodes).push(node@));
}

/// Parses the text of a roll.
///
/// The result is the parse tree that the grammar gives `input`. Text that
/// does not wholly conform is a syntax error, at the first place from the
/// left where it stops conforming, whatever else is wrong with it. Text
/// that conforms and holds a number too large for a signed 64-bit integer
/// is refused for that. Parsing is all or nothing.
pub fn parse(input: &str) -> (result: Result<ParseTree, ParseError>)
    ensures
        match result {
            Ok(tree) => parse_of(input@) == Ok::<Seq<NodeView>, ParseError>(tree@),
            Err(e) => parse_of(input@) == Err::<Seq<NodeView>, ParseError>(e),
        },
{
    let chars = characters(input);
    let start = skip_spaces(&chars, 0);
    let (first, first_end) = match parse_term(input, &chars, start) {
        Ok(found) => found,
        Err(e) => {
            return Err(e);
        },
    };
    let ghost mut phrases: Seq<Phrase> = seq![term_at(chars@, start as int)->Ok_0.0];
    let mut nodes: Vec<Node> = Vec::new();
    let mut fits = true;
    proof {
        lemma_one_more(Seq::empty(), phrases[0]);
        assert(Seq::<Phrase>::empty().push(phrases[0]) =~= phrases);
        assert(tree_of(Seq::<Phrase>::empty()) =~= Seq::<NodeView>::empty());
        assert(tree_view(nodes@) =~= Seq::<NodeView>::empty());
    }
    match first {
        Some(node) => {
            proof {
                lemma_tree_view_push(nodes@, node);
            }
            nodes.push(node);
        },
        None => {
            fits = false;
        },
    }
    let mut at: usize = first_end;
    loop
        invariant
            chars@ == input@,
            at <= chars@.len(),
            terms_and_operators(phrases),
            syntax_of(input@) == tail_at(chars@, at as int, phrases),
            fits == all_fit(phrases),
            fits ==> tree_view(nodes@) == tree_of(phrases),
        decreases chars@.len() - at,
    {
        let j = skip_spaces(&chars, at);
        if j >= chars.len() {
            if !fits {
                return Err(ParseError::Overflow);
            }
            proof {
                lemma_formed_tree(phrases);
            }
            return Ok(ParseTree::new(nodes));
        }
        let c = chars[j];
        if c == '#' {
            let text_at = skip_spaces(&chars, j + 1);
            let text = String::from_str(input.substring_char(text_at, chars.len()));
            let ghost comment = Phrase::Comment(text@);
            proof {
                lemma_one_more(phrases, comment);
                assert(phrases.push(comment).drop_last() =~= phrases);
                if text@.len() > 0 {
                    assert(text@[0] == chars@[text_at as int]);
                }
            }
            if !fits {
                return Err(ParseError::Overflow);
            }
            let node = Node::Comment(text);
            proof {
                lemma_tree_view_push(nodes@, node);
                lemma_formed_tree(phrases.push(comment));
            }
            nodes.push(node);
            return Ok(ParseTree::new(nodes));
        }
        let op = match parse_operator(c) {
            Some(op) => op,
            None => {
                return Err(ParseError::SyntaxError { position: j, expected: Expected::Operator });
            },
        };
        let term_start = skip_spaces(&chars, j + 1);
        let (term, end) = match parse_term(input, &chars, term_start) {
            Ok(found) => found,
            Err(e) => {
                return Err(e);
            },
        };
        proof {
            let sign = Phrase::Operator(op);
            let read = term_at(chars@, term_start as int)->Ok_0.0;
            lemma_terms_and_operators_grow(phrases, op, read);
            lemma_one_more(phrases, sign);
            lemma_one_more(phrases.push(sign), read);
            phrases = phrases.push(sign).push(read);
        }
        match term {
            Some(node) => {
                if fits {
                    let sign = Node::Operator(op);
                    proof {
                        lemma_tree_view_push(nodes@, sign);
                        lemma_tree_view_push(nodes@.push(sign), node);
                    }
                    nodes.push(sign);
                    nodes.push(node);
                }
            },
            None => {
                fits = false;
            },
        }
        at = end;
    }
}

} // verus!
