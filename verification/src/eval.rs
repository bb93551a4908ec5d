//! Evaluating a parse tree: strictly from left to right, one term at a time.

use crate::dice::{
    die_defect, die_entries, die_outcome, face_sum, fragment, lemma_entries_display_faces,
    lemma_outcome_is_taken, lemma_plain_total, lemma_subtotal_of_faces, plain_entries,
    result_view, roll_die, term_result, term_taken,
};
use crate::error::ParseError;
use crate::roller::{is_face, Roller};
use crate::text::{
    decimal_text, decimal_value, format_integer, is_numeral, numeral_of, parse_numeral,
};
use crate::tree::{tree_view, DieRoll, Node, NodeView, Operator, ParseTree};
use vstd::prelude::*;
use vstd::string::StringExecFns;

verus! {

/// The quotient of `a` by `b`, rounded toward zero. Division throws the
/// remainder away, whatever the signs: `7 / 2` is `3` and `-7 / 2` is `-3`.
pub open spec fn quotient(a: int, b: int) -> int {
    if a >= 0 && b > 0 {
        a / b
    } else if a < 0 && b < 0 {
        (-a) / (-b)
    } else if a < 0 {
        -((-a) / b)
    } else {
        -(a / (-b))
    }
}

/// The size of `v` without its sign.
pub open spec fn magnitude(v: int) -> int {
    if v < 0 {
        -v
    } else {
        v
    }
}

/// `v` as a total, where it fits.
pub open spec fn bounded(v: int) -> Result<int, ParseError> {
    if i64::MIN <= v <= i64::MAX {
        Ok(v)
    } else {
        Err(ParseError::Overflow)
    }
}

/// The total after a term of value `value`, where `total` is the total
/// before it and `pending` the operator between them. With no operator
/// pending the term is the first one, and its value becomes the total.
pub open spec fn combined(pending: Option<Operator>, total: int, value: int) -> Result<
    int,
    ParseError,
> {
    match pending {
        None => bounded(value),
        Some(Operator::Add) => bounded(total + value),
        Some(Operator::Subtract) => bounded(total - value),
        Some(Operator::Multiply) => bounded(total * value),
        Some(Operator::Divide) => if value == 0 {
            Err(ParseError::DivideByZero)
        } else {
            bounded(quotient(total, value))
        },
    }
}

/// The sign of an operator.
pub open spec fn symbol(op: Operator) -> char {
    match op {
        Operator::Add => '+',
        Operator::Subtract => '-',
        Operator::Multiply => '*',
        Operator::Divide => '/',
    }
}

/// How far an evaluation has come.
pub struct Progress {
    pub total: i64,
    pub display: String,
    pub pending: Option<Operator>,
    pub comment: Option<String>,
}

/// The state of an evaluation as a plain value.
pub struct ProgressView {
    pub total: int,
    pub display: Seq<char>,
    pub pending: Option<Operator>,
    pub comment: Option<Seq<char>>,
}

impl View for Progress {
    type V = ProgressView;

    open spec fn view(&self) -> ProgressView {
        ProgressView {
            total: self.total as int,
            display: self.display@,
            pending: self.pending,
            comment: match self.comment {
                Some(text) => Some(text@),
                None => None,
            },
        }
    }
}

/// The state before the first node: nothing displayed, no operator pending.
pub open spec fn initial() -> ProgressView {
    ProgressView { total: 0, display: Seq::empty(), pending: None, comment: None }
}

/// The state after a term with display `text` and value `value`.
pub open spec fn after_term(progress: ProgressView, text: Seq<char>, value: int) -> Result<
    ProgressView,
    ParseError,
> {
    match combined(progress.pending, progress.total, value) {
        Ok(total) => Ok(ProgressView { total, display: progress.display + text, ..progress }),
        Err(e) => Err(e),
    }
}

/// The state after an operator.
pub open spec fn after_operator(progress: ProgressView, op: Operator) -> ProgressView {
    ProgressView {
        display: progress.display + seq![' ', symbol(op), ' '],
        pending: Some(op),
        ..progress
    }
}

/// The state after `node`, whose dice, if it has any, show the faces at the
/// front of `faces`.
pub open spec fn step_of(progress: ProgressView, node: NodeView, faces: Seq<u64>) -> Result<
    ProgressView,
    ParseError,
> {
    match node {
        NodeView::Number(text) => match numeral_of(text) {
            Ok(value) => after_term(progress, text, value),
            Err(e) => Err(e),
        },
        NodeView::DieRoll(die) => match term_result(die, faces) {
            Ok((text, value)) => after_term(progress, text, value),
            Err(e) => Err(e),
        },
        NodeView::Operator(op) => Ok(after_operator(progress, op)),
        NodeView::Comment(text) => Ok(ProgressView { comment: Some(text), ..progress }),
    }
}

/// How many faces `node` takes from the front of `faces`.
pub open spec fn node_taken(node: NodeView, faces: Seq<u64>) -> nat {
    match node {
        NodeView::DieRoll(die) => term_taken(die, faces),
        _ => 0,
    }
}

/// Whether the faces at the front of `faces` are fit for `node`: where the
/// node is a die term that can be rolled, the faces that it takes are one
/// full outcome of it, each a face of its die.
pub open spec fn node_fair(node: NodeView, faces: Seq<u64>) -> bool {
    match node {
        NodeView::DieRoll(die) => die_defect(die) is None ==> die_outcome(
            die,
            faces.take(term_taken(die, faces) as int),
        ),
        _ => true,
    }
}

/// What a run over nodes comes to: the state it ends in or the failure that
/// ends it, how many faces it takes, and whether every die term on the way
/// takes faces of its own die.
pub struct Run {
    pub outcome: Result<ProgressView, ParseError>,
    pub taken: nat,
    pub fair: bool,
}

/// The run over the nodes of `tree` from position `from` on, each die term
/// taking its faces from the front of what the terms before it left of
/// `faces`. The first failure ends the run.
pub open spec fn run(tree: Seq<NodeView>, from: int, progress: ProgressView, faces: Seq<u64>) -> Run
    decreases tree.len() - from,
{
    if from < 0 || from >= tree.len() {
        Run { outcome: Ok(progress), taken: 0, fair: true }
    } else {
        let taken = node_taken(tree[from], faces);
        let fair = node_fair(tree[from], faces);
        match step_of(progress, tree[from], faces) {
            Ok(next) => {
                let rest = run(tree, from + 1, next, faces.skip(taken as int));
                Run { outcome: rest.outcome, taken: taken + rest.taken, fair: fair && rest.fair }
            },
            Err(e) => Run { outcome: Err(e), taken, fair },
        }
    }
}

/// A run that comes after `taken` faces were taken before it.
pub open spec fn run_after(taken: nat, rest: Run) -> Run {
    Run { taken: taken + rest.taken, ..rest }
}

/// The display of a finished evaluation: what the nodes displayed, the
/// total, and the comment if there is one.
pub open spec fn final_display(progress: ProgressView) -> Seq<char> {
    let shown = progress.display + seq![' ', '=', ' '] + decimal_text(progress.total);
    match progress.comment {
        Some(text) => shown + seq![' ', ' ', '#', ' '] + text,
        None => shown,
    }
}

/// What `tree` comes to when its dice show `faces`, in the order in which
/// they are rolled: the display and the total, or the first failure.
pub open spec fn evaluation(tree: Seq<NodeView>, faces: Seq<u64>) -> Result<
    (Seq<char>, int),
    ParseError,
> {
    match run(tree, 0, initial(), faces).outcome {
        Ok(progress) => Ok((final_display(progress), progress.total)),
        Err(e) => Err(e),
    }
}

/// How many faces the evaluation of `tree` takes from `faces`, up to the
/// end of the tree or to the first failure.
pub open spec fn faces_taken(tree: Seq<NodeView>, faces: Seq<u64>) -> nat {
    run(tree, 0, initial(), faces).taken
}

/// Whether every die term that the evaluation of `tree` rolls takes from
/// `faces` one full outcome of its own: as many faces as it draws, each a
/// number that its die can show.
pub open spec fn fair_rolls(tree: Seq<NodeView>, faces: Seq<u64>) -> bool {
    run(tree, 0, initial(), faces).fair
}

/// Combines the total so far with the value of the next term, by the
/// operator that stands between them. With no operator pending the term is
/// the first one, and its value becomes the total. Division rounds toward
/// zero, and dividing by zero is a failure of its own. A total that does not
/// fit a signed 64-bit integer is a failure too.
pub fn combine(pending: Option<Operator>, total: i64, value: i64) -> (result: Result<
    i64,
    ParseError,
>)
    ensures
        match result {
            Ok(v) => combined(pending, total as int, value as int) == Ok::<int, ParseError>(
                v as int,
            ),
            Err(e) => combined(pending, total as int, value as int) == Err::<int, ParseError>(e),
        },
{
    let outcome = match pending {
        None => Some(value),
        Some(Operator::Add) => total.checked_add(value),
        Some(Operator::Subtract) => total.checked_sub(value),
        Some(Operator::Multiply) => total.checked_mul(value),
        Some(Operator::Divide) => {
            if value == 0 {
                return Err(ParseError::DivideByZero);
            }
            total.checked_div(value)
        },
    };
    match outcome {
        Some(v) => Ok(v),
        None => Err(ParseError::Overflow),
    }
}

/// The display of an operator: its sign with a space on each side.
fn operator_text(op: Operator) -> (text: &'static str)
    ensures
        text@ == seq![' ', symbol(op), ' '],
{
    proof {
        reveal_strlit(" + ");
        reveal_strlit(" - ");
        reveal_strlit(" * ");
        reveal_strlit(" / ");
    }
    let text = match op {
        Operator::Add => " + ",
        Operator::Subtract => " - ",
        Operator::Multiply => " * ",
        Operator::Divide => " / ",
    };
    assert(text@ =~= seq![' ', symbol(op), ' ']);
    text
}

impl Progress {
    /// The state before the first node.
    pub fn new() -> (progress: Progress)
        ensures
            progress@ == initial(),
    {
        Progress { total: 0, display: String::new(), pending: None, comment: None }
    }

    /// The state after a term with display `text` and value `value`.
    fn term(self, text: &str, value: i64) -> (result: Result<Progress, ParseError>)
        ensures
            match result {
                Ok(next) => after_term(self@, text@, value as int) == Ok::<
                    ProgressView,
                    ParseError,
                >(next@),
                Err(e) => after_term(self@, text@, value as int) == Err::<
                    ProgressView,
                    ParseError,
                >(e),
            },
    {
        let Progress { total, display, pending, comment } = self;
        match combine(pending, total, value) {
            Ok(total) => {
                let mut display = display;
                display.append(text);
                Ok(Progress { total, display, pending, comment })
            },
            Err(e) => Err(e),
        }
    }

    /// The state after `node`. A die term draws its faces from `roller`:
    /// with `faces` the faces that this call drew, in order, the result is
    /// the state after the node on those faces, and the node takes them all.
    pub fn step<R: Roller>(self, node: &Node, roller: &mut R) -> (result: Result<
        Progress,
        ParseError,
    >)
        ensures
            ({
                let faces = final(roller).drawn().skip(old(roller).drawn().len() as int);
                &&& final(roller).drawn() == old(roller).drawn() + faces
                &&& match result {
                    Ok(next) => step_of(self@, node@, faces) == Ok::<ProgressView, ParseError>(
                        next@,
                    ),
                    Err(e) => step_of(self@, node@, faces) == Err::<ProgressView, ParseError>(e),
                }
                &&& node_taken(node@, faces) == faces.len()
                &&& match node@ {
                    NodeView::DieRoll(die) => if die_defect(die) is None {
                        die_outcome(die, faces)
                    } else {
                        faces.len() == 0
                    },
                    _ => faces.len() == 0,
                }
            }),
    {
        let ghost start = roller.drawn();
        proof {
            assert(start.skip(start.len() as int) =~= Seq::<u64>::empty());
            assert(start + Seq::<u64>::empty() =~= start);
        }
        match node {
            Node::Number(text) => {
                match parse_numeral(text.as_str()) {
                    Ok(value) => self.term(text.as_str(), value),
                    Err(e) => Err(e),
                }
            },
            Node::DieRoll(die) => {
                let rolled = roll_die(die, roller);
                proof {
                    let faces = roller.drawn().skip(start.len() as int);
                    if die_defect(*die) is None {
                        lemma_outcome_is_taken(*die, faces, Seq::empty());
                        assert(faces + Seq::<u64>::empty() =~= faces);
                    }
                }
                match rolled {
                    Ok((text, value)) => self.term(text.as_str(), value),
                    Err(e) => Err(e),
                }
            },
            Node::Operator(op) => {
                let Progress { total, display, pending, comment } = self;
                let mut display = display;
                display.append(operator_text(*op));
                Ok(Progress { total, display, pending: Some(*op), comment })
            },
            Node::Comment(text) => {
                let Progress { total, display, pending, comment } = self;
                Ok(Progress { total, display, pending, comment: Some(text.clone()) })
            },
        }
    }

    /// The display and the total of a finished evaluation.
    pub fn finish(self) -> (result: (String, i64))
        ensures
            result.0@ == final_display(self@),
            result.1 == self@.total,
    {
        proof {
            reveal_strlit(" = ");
            reveal_strlit("  # ");
        }
        let Progress { total, display, pending, comment } = self;
        let mut display = display;
        display.append(" = ");
        display.append(format_integer(total).as_str());
        match comment {
            Some(text) => {
                display.append("  # ");
                display.append(text.as_str());
            },
            None => {},
        }
        assert(display@ =~= final_display(self@));
        (display, total)
    }
}

/// Evaluates `tree`, drawing the faces of its dice from `roller`.
///
/// With `faces` the faces that this call drew, in order, the result is what
/// the tree comes to on those faces. The evaluation takes them all: no die
/// is rolled but for a term, and none after the first failure. Each term
/// takes faces of its own die.
///
/// The display is for people to read. It is no notation: parsing it again
/// is a syntax error.
pub fn evaluate<R: Roller>(tree: &ParseTree, roller: &mut R) -> (result: Result<
    (String, i64),
    ParseError,
>)
    ensures
        ({
            let faces = final(roller).drawn().skip(old(roller).drawn().len() as int);
            &&& final(roller).drawn() == old(roller).drawn() + faces
            &&& result_view(result) == evaluation(tree@, faces)
            &&& faces_taken(tree@, faces) == faces.len()
            &&& fair_rolls(tree@, faces)
        }),
{
    let nodes = tree.nodes();
    let ghost start = roller.drawn();
    let ghost view = tree_view(nodes@);
    let ghost mut used: Seq<u64> = Seq::empty();
    let mut progress = Progress::new();
    let mut i: usize = 0;
    proof {
        assert(start + used =~= start);
        assert forall|rest: Seq<u64>| used + rest == rest by {
            assert(used + rest =~= rest);
        }
    }
    while i < nodes.len()
        invariant
            i <= nodes@.len(),
            view == tree_view(nodes@),
            view == tree@,
            start == old(roller).drawn(),
            roller.drawn() == start + used,
            forall|rest: Seq<u64>|
                run(view, 0, initial(), used + rest) == run_after(
                    used.len(),
                    #[trigger] run(view, i as int, progress@, rest),
                ),
        decreases nodes@.len() - i,
    {
        let ghost before = progress@;
        let ghost drawn_before = roller.drawn();
        assert(view[i as int] == nodes@[i as int]@);
        let stepped = progress.step(&nodes[i], roller);
        let ghost faces = roller.drawn().skip(drawn_before.len() as int);
        proof {
            assert(start + (used + faces) =~= (start + used) + faces);
            assert forall|rest: Seq<u64>|
                run(view, 0, initial(), (used + faces) + rest) == run_after(
                    used.len(),
                    #[trigger] run(view, i as int, before, faces + rest),
                ) by {
                assert((used + faces) + rest =~= used + (faces + rest));
            }
        }
        match stepped {
            Ok(next) => {
                proof {
                    assert forall|rest: Seq<u64>|
                        run(view, 0, initial(), (used + faces) + rest) == run_after(
                            (used + faces).len(),
                            #[trigger] run(view, i + 1, next@, rest),
                        ) by {
                        lemma_step_takes(before, view[i as int], faces, rest);
                        assert(run(view, 0, initial(), (used + faces) + rest) == run_after(
                            used.len(),
                            run(view, i as int, before, faces + rest),
                        ));
                    }
                    used = used + faces;
                }
                progress = next;
                i = i + 1;
            },
            Err(e) => {
                proof {
                    let rest = Seq::<u64>::empty();
                    lemma_step_takes(before, view[i as int], faces, rest);
                    assert(faces + rest =~= faces);
                    assert(run(view, 0, initial(), (used + faces) + rest) == run_after(
                        used.len(),
                        run(view, i as int, before, faces + rest),
                    ));
                    assert((used + faces) + rest =~= used + faces);
                    assert(roller.drawn().skip(start.len() as int) =~= used + faces);
                }
                return Err(e);
            },
        }
    }
    proof {
        let rest = Seq::<u64>::empty();
        assert(used + rest =~= used);
        assert(run(view, 0, initial(), used + rest) == run_after(
            used.len(),
            run(view, i as int, progress@, rest),
        ));
        assert(roller.drawn().skip(start.len() as int) =~= used);
    }
    Ok(progress.finish())
}

/// Division rounds toward zero, whatever the signs: the quotient times the
/// divisor is no further from zero than the dividend, by less than the
/// divisor, and turning the sign of either side turns the sign of the
/// quotient and nothing else.
pub proof fn lemma_quotient_rounds_toward_zero(a: int, b: int)
    requires
        b != 0,
    ensures
        magnitude(quotient(a, b)) * magnitude(b) <= magnitude(a),
        magnitude(a) < (magnitude(quotient(a, b)) + 1) * magnitude(b),
        magnitude(quotient(a, b)) == magnitude(a) / magnitude(b),
        (a >= 0) == (b > 0) ==> quotient(a, b) >= 0,
        (a >= 0) != (b > 0) ==> quotient(a, b) <= 0,
        quotient(-a, b) == -quotient(a, b),
        quotient(a, -b) == -quotient(a, b),
{
    let x = magnitude(a);
    let y = magnitude(b);
    vstd::arithmetic::div_mod::lemma_fundamental_div_mod(x, y);
    vstd::arithmetic::div_mod::lemma_mod_bound(x, y);
    vstd::arithmetic::div_mod::lemma_div_pos_is_pos(x, y);
    assert((x / y + 1) * y == y * (x / y) + y) by (nonlinear_arith);
    assert((x / y) * y == y * (x / y)) by (nonlinear_arith);
}

/// A roll that is one die term without a suffix, such as `3d6`, comes to
/// the sum of its dice, every one of which counts and shows a number that
/// the die can show: from one up to the number of sides, or the number of
/// sides itself where the die has one side or none. The display lists the
/// dice in the order rolled, then the total.
pub proof fn lemma_plain_roll(die: DieRoll, faces: Seq<u64>)
    requires
        die.modifier is None,
        die_defect(die) is None,
        die_outcome(die, faces),
    ensures
        fair_rolls(seq![NodeView::DieRoll(die)], faces),
        faces_taken(seq![NodeView::DieRoll(die)], faces) == die.count,
        forall|i: int| 0 <= i < faces.len() ==> is_face(die.sides, #[trigger] faces[i]),
        die.sides <= 1 ==> face_sum(faces) == die.count * die.sides,
        evaluation(seq![NodeView::DieRoll(die)], faces) == if face_sum(faces) <= i64::MAX {
            Ok(
                (
                    fragment(plain_entries(faces)) + seq![' ', '=', ' '] + decimal_text(
                        face_sum(faces),
                    ),
                    face_sum(faces),
                ),
            )
        } else {
            Err(ParseError::Overflow)
        },
{
    let tree = seq![NodeView::DieRoll(die)];
    reveal_with_fuel(run, 2);
    lemma_plain_total(die, faces);
    lemma_entries_display_faces(die, faces);
    lemma_subtotal_of_faces(die_entries(die, faces));
    lemma_sum_of_equal_faces(faces, die.sides);
    assert(faces.take(die.count as int) =~= faces);
    assert(Seq::<char>::empty() + fragment(plain_entries(faces)) =~= fragment(
        plain_entries(faces),
    ));
}

/// The sum of dice that all show `face` is `face` times their number.
proof fn lemma_sum_of_equal_faces(faces: Seq<u64>, face: u64)
    ensures
        (forall|i: int| 0 <= i < faces.len() ==> #[trigger] faces[i] == face) ==> face_sum(faces)
            == faces.len() * face,
    decreases faces.len(),
{
    if faces.len() > 0 {
        lemma_sum_of_equal_faces(faces.drop_last(), face);
        if forall|i: int| 0 <= i < faces.len() ==> #[trigger] faces[i] == face {
            assert forall|i: int| 0 <= i < faces.drop_last().len() implies #[trigger] faces.drop_last()[i]
                == face by {
                assert(faces.drop_last()[i] == faces[i]);
            }
            assert(faces.last() == face);
            assert(faces.len() * face == (faces.len() - 1) * face + face) by (nonlinear_arith);
        }
    }
}

/// Operators apply strictly from left to right, one term at a time, and no
/// operator binds tighter than another: when an operator and a number are
/// added at the end of a tree, the operator takes the total of the whole
/// tree before it as its left-hand side. So `2 + 3 * 4` is `(2 + 3) * 4`.
pub proof fn lemma_operators_apply_left_to_right(
    tree: Seq<NodeView>,
    op: Operator,
    text: Seq<char>,
    faces: Seq<u64>,
)
    requires
        is_numeral(text),
        decimal_value(text) <= i64::MAX,
    ensures
        ({
            let longer = tree.push(NodeView::Operator(op)).push(NodeView::Number(text));
            match evaluation(tree, faces) {
                Ok((_, total)) => match combined(Some(op), total, decimal_value(text) as int) {
                    Ok(next) => evaluation(longer, faces) matches Ok((_, found)) && found == next,
                    Err(e) => evaluation(longer, faces) == Err::<(Seq<char>, int), ParseError>(e),
                },
                Err(e) => evaluation(longer, faces) == Err::<(Seq<char>, int), ParseError>(e),
            }
        }),
{
    lemma_run_then(tree, 0, initial(), faces, op, text);
}

/// A tree with an operator and a number added at its end runs as the tree
/// runs, and then the operator and the number apply to the state it ends in.
proof fn lemma_run_then(
    tree: Seq<NodeView>,
    from: int,
    progress: ProgressView,
    faces: Seq<u64>,
    op: Operator,
    text: Seq<char>,
)
    requires
        0 <= from <= tree.len(),
    ensures
        run(
            tree.push(NodeView::Operator(op)).push(NodeView::Number(text)),
            from,
            progress,
            faces,
        ).outcome == match run(tree, from, progress, faces).outcome {
            Ok(end) => step_of(after_operator(end, op), NodeView::Number(text), faces),
            Err(e) => Err(e),
        },
    decreases tree.len() - from,
{
    let longer = tree.push(NodeView::Operator(op)).push(NodeView::Number(text));
    reveal_with_fuel(run, 3);
    if from < tree.len() {
        assert(longer[from] == tree[from]);
        match step_of(progress, tree[from], faces) {
            Ok(next) => {
                lemma_run_then(
                    tree,
                    from + 1,
                    next,
                    faces.skip(node_taken(tree[from], faces) as int),
                    op,
                    text,
                );
            },
            Err(_) => {},
        }
    } else {
        assert(longer[from] == NodeView::Operator(op));
        assert(longer[from + 1] == NodeView::Number(text));
    }
}

/// A node changes nothing of the state but through the faces that it takes.
proof fn lemma_step_takes(progress: ProgressView, node: NodeView, faces: Seq<u64>, rest: Seq<u64>)
    requires
        match node {
            NodeView::DieRoll(die) => if die_defect(die) is None {
                die_outcome(die, faces)
            } else {
                faces.len() == 0
            },
            _ => faces.len() == 0,
        },
    ensures
        step_of(progress, node, faces + rest) == step_of(progress, node, faces),
        node_taken(node, faces + rest) == faces.len(),
        node_fair(node, faces + rest),
        (faces + rest).skip(faces.len() as int) == rest,
{
    assert((faces + rest).skip(faces.len() as int) =~= rest);
    assert((faces + rest).take(faces.len() as int) =~= faces);
    match node {
        NodeView::DieRoll(die) => {
            if die_defect(die) is None {
                lemma_outcome_is_taken(die, faces, rest);
            }
        },
        _ => {},
    }
}

} // verus!
