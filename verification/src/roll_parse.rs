//! From the text of a roll to its display and its total.

use crate::dice::result_view;
use crate::error::ParseError;
use crate::eval::{evaluate, evaluation, faces_taken, fair_rolls};
use crate::grammar::{all_fit, parse_of, tree_of, Phrase};
use crate::notation::{lemma_written_reads_back, writable, written, Spacing};
use crate::parser::parse;
use crate::roller::{Roller, ThreadRoller};
use vstd::prelude::*;
use vstd::string::StringExecFns;

verus! {

/// What the notation `text` comes to when its dice show `faces`, in the
/// order in which they are rolled: the display and the total, or the first
/// failure. Text that does not parse comes to its parse error, whatever the
/// dice.
pub open spec fn roll_of(text: Seq<char>, faces: Seq<u64>) -> Result<(Seq<char>, int), ParseError> {
    match parse_of(text) {
        Ok(tree) => evaluation(tree, faces),
        Err(e) => Err(e),
    }
}

/// How many faces the notation `text` takes from `faces`.
pub open spec fn roll_takes(text: Seq<char>, faces: Seq<u64>) -> nat {
    match parse_of(text) {
        Ok(tree) => faces_taken(tree, faces),
        Err(_) => 0,
    }
}

/// Whether every die term that the notation `text` rolls takes from `faces`
/// one full outcome of its own, each face a number that its die can show.
pub open spec fn roll_is_fair(text: Seq<char>, faces: Seq<u64>) -> bool {
    match parse_of(text) {
        Ok(tree) => fair_rolls(tree, faces),
        Err(_) => true,
    }
}

/// Parses `die_str` and evaluates it with the dice of `roller`.
///
/// With `faces` the faces that this call drew from the roller, in order, the
/// result is what the notation comes to on those faces. It takes them all,
/// each term the faces of its own die. Nothing is rolled for text that does
/// not parse.
///
/// The display is for people to read. It is no notation: parsing it again
/// is a syntax error.
pub fn parse_roll_with<R: Roller>(die_str: &str, roller: &mut R) -> (result: Result<
    (String, i64),
    ParseError,
>)
    ensures
        ({
            let faces = final(roller).drawn().skip(old(roller).drawn().len() as int);
            &&& final(roller).drawn() == old(roller).drawn() + faces
            &&& result_view(result) == roll_of(die_str@, faces)
            &&& roll_takes(die_str@, faces) == faces.len()
            &&& roll_is_fair(die_str@, faces)
        }),
{
    match parse(die_str) {
        Ok(tree) => evaluate(&tree, roller),
        Err(e) => {
            proof {
                let drawn = roller.drawn();
                assert(drawn.skip(drawn.len() as int) =~= Seq::<u64>::empty());
                assert(drawn + Seq::<u64>::empty() =~= drawn);
            }
            Err(e)
        },
    }
}

/// Parses `die_str` and evaluates it with dice rolled at random.
///
/// The result is what the notation comes to on the faces that the dice
/// showed, whatever they were: there are faces, each term taking those of
/// its own die, on which the notation comes to this result.
///
/// The display is for people to read. It is no notation: parsing it again
/// is a syntax error.
pub fn parse_roll(die_str: &str) -> (result: Result<(String, i64), ParseError>)
    ensures
        exists|faces: Seq<u64>|
            {
                &&& result_view(result) == #[trigger] roll_of(die_str@, faces)
                &&& roll_takes(die_str@, faces) == faces.len()
                &&& roll_is_fair(die_str@, faces)
            },
{
    let mut roller = ThreadRoller::new();
    let result = parse_roll_with(die_str, &mut roller);
    proof {
        let faces = roller.drawn();
        assert(faces.skip(0) =~= faces);
        assert(result_view(result) == roll_of(die_str@, faces));
    }
    result
}

/// The answer to a request, as a plain value: the request in backticks and
/// the display of its roll, or a fixed refusal.
pub open spec fn reply_of(message: Seq<char>, outcome: Result<(Seq<char>, int), ParseError>) -> Seq<
    char,
> {
    match outcome {
        Ok((display, _)) => seq!['`'] + message + seq!['`', ' '] + display,
        Err(_) => seq!['B', 'a', 'd', ' ', 'f', 'o', 'r', 'm', 'a', 't', '.'],
    }
}

/// The answer to send for the request `message`, whose roll came to
/// `outcome`.
pub fn reply_text(message: &str, outcome: &Result<(String, i64), ParseError>) -> (reply: String)
    ensures
        reply@ == reply_of(message@, result_view(*outcome)),
{
    proof {
        reveal_strlit("`");
        reveal_strlit("` ");
        reveal_strlit("Bad format.");
    }
    match outcome {
        Ok((display, _)) => {
            let mut reply = String::from_str("`");
            reply.append(message);
            reply.append("` ");
            reply.append(display.as_str());
            assert(reply@ =~= reply_of(message@, result_view(*outcome)));
            reply
        },
        Err(_) => {
            let reply = String::from_str("Bad format.");
            assert(reply@ =~= reply_of(message@, result_view(*outcome)));
            reply
        },
    }
}

/// However a roll is written, it comes to the same. Two ways of writing
/// the same phrases, whatever blank space each leaves around the tokens and
/// around the `#` of the comment, come to the same display, the same total
/// and the same comment on the same dice, or to the same failure.
pub proof fn lemma_spacing_changes_nothing(
    phrases: Seq<Phrase>,
    spacings: Seq<Spacing>,
    trailing: Seq<char>,
    other_spacings: Seq<Spacing>,
    other_trailing: Seq<char>,
    faces: Seq<u64>,
)
    requires
        writable(phrases, spacings, trailing),
        writable(phrases, other_spacings, other_trailing),
    ensures
        parse_of(written(phrases, spacings, trailing, 0)) == parse_of(
            written(phrases, other_spacings, other_trailing, 0),
        ),
        roll_of(written(phrases, spacings, trailing, 0), faces) == roll_of(
            written(phrases, other_spacings, other_trailing, 0),
            faces,
        ),
        all_fit(phrases) ==> roll_of(written(phrases, spacings, trailing, 0), faces) == evaluation(
            tree_of(phrases),
            faces,
        ),
{
    lemma_written_reads_back(phrases, spacings, trailing);
    lemma_written_reads_back(phrases, other_spacings, other_trailing);
}

} // verus!
