//! The die roller: the one place where chance enters an evaluation.

use rand::rngs::ThreadRng;
use rand::Rng;
use vstd::prelude::*;

verus! {

/// Whether a die with `sides` sides can show `face`. A die with two or more
/// sides shows a number from one up to its number of sides. A die with one
/// side or none is degenerate: it always shows its number of sides.
pub open spec fn is_face(sides: u64, face: u64) -> bool {
    if sides > 1 {
        1 <= face <= sides
    } else {
        face == sides
    }
}

/// A source of die outcomes. An evaluation draws every face it shows from
/// one roller, so a roller that plays back a script makes the evaluation
/// repeatable.
///
/// A roller hands out only what the die can show: a number from one up to
/// the number of sides, or the number of sides itself where the die has one
/// side or none.
pub trait Roller {
    /// Every face this roller has handed out so far, oldest first.
    spec fn drawn(&self) -> Seq<u64>;

    /// Rolls one die with `sides` sides.
    fn roll(&mut self, sides: u64) -> (face: u64)
        ensures
            is_face(sides, face),
            final(self).drawn() == old(self).drawn().push(face),
    ;
}

/// `rand::rngs::ThreadRng`, the handle to a thread's generator. It is
/// carried through as a value of which nothing is known.
#[verifier::external_type_specification]
#[verifier::external_body]
pub struct ExThreadRng(ThreadRng);

/// `rand::thread_rng`: the handle to the calling thread's generator. Nothing
/// is claimed of the handle.
#[verifier::external_body]
fn thread_generator() -> ThreadRng {
    rand::thread_rng()
}

/// `rand::Rng::gen_range` on `u64`, which samples the half-open range from
/// `low` to `high`: the result is at least `low` and below `high`. The call
/// panics on an empty range, which `requires` leaves out.
#[verifier::external_body]
fn random_below(rng: &mut ThreadRng, low: u64, high: u64) -> (r: u64)
    requires
        low < high,
    ensures
        low <= r < high,
{
    rng.gen_range(low, high)
}

/// The roller for real play: it draws from the thread's random generator.
pub struct ThreadRoller {
    rng: ThreadRng,
    history: Ghost<Seq<u64>>,
}

impl ThreadRoller {
    /// A roller that has not rolled yet.
    pub fn new() -> (roller: ThreadRoller)
        ensures
            roller.drawn() == Seq::<u64>::empty(),
    {
        ThreadRoller { rng: thread_generator(), history: Ghost(Seq::empty()) }
    }
}

/// The bounds of the one draw that rolls a die with two sides or more: the
/// draw is taken at or above the first and below the second, so that a die
/// has as many draws as it has sides.
pub fn draw_bounds(sides: u64) -> (bounds: (u64, u64))
    requires
        sides > 1,
    ensures
        bounds == (0u64, sides),
{
    (0, sides)
}

/// The face that a die with two sides or more shows for a draw within its
/// bounds: the draw and one more, so that the draws from zero up to the
/// last give the faces from one up to the number of sides.
pub fn face_of_draw(sides: u64, draw: u64) -> (face: u64)
    requires
        sides > 1,
        draw < sides,
    ensures
        face == draw + 1,
        face == drawn_face(draw),
        is_face(sides, face),
{
    draw + 1
}

/// The face that a draw stands for: the draw and one more.
pub open spec fn drawn_face(draw: u64) -> int {
    draw + 1
}

/// Every face of a die can come, the highest too: each number from one up
/// to the number of sides is the face of one draw within the bounds, and of
/// no other, and every draw within the bounds gives a face of the die.
pub proof fn lemma_every_face_has_its_draw(sides: u64, face: u64)
    requires
        sides > 1,
        1 <= face <= sides,
    ensures
        0 <= face - 1 < sides,
        drawn_face((face - 1) as u64) == face,
        forall|draw: u64| 0 <= draw < sides && #[trigger] drawn_face(draw) == face ==> draw == face - 1,
        forall|draw: u64| 0 <= draw < sides ==> 1 <= #[trigger] drawn_face(draw) <= sides,
{
}

impl Roller for ThreadRoller {
    closed spec fn drawn(&self) -> Seq<u64> {
        self.history@
    }

    fn roll(&mut self, sides: u64) -> (face: u64) {
        let face = if sides > 1 {
            let bounds = draw_bounds(sides);
            face_of_draw(sides, random_below(&mut self.rng, bounds.0, bounds.1))
        } else {
            sides
        };
        proof {
            self.history@ = self.history@.push(face);
        }
        face
    }
}

/// What a scripted roller shows on a die with `sides` sides when the script
/// says `outcome`: the outcome itself where the die can show it, else the
/// nearest face that it can show.
pub open spec fn scripted_face(outcome: u64, sides: u64) -> u64 {
    if sides <= 1 {
        sides
    } else if outcome < 1 {
        1
    } else if outcome > sides {
        sides
    } else {
        outcome
    }
}

/// A roller that plays back a script of outcomes, for repeatable
/// evaluations. Outcomes are consumed first in, first out: each roll takes
/// the outcome at the front of what is left of the script, whatever the die.
/// An outcome that the die cannot show is moved to the nearest face. Once the
/// script has run out, every die shows its lowest face.
pub struct ScriptedRoller {
    script: Vec<u64>,
    next: usize,
    history: Ghost<Seq<u64>>,
}

impl ScriptedRoller {
    /// The outcomes not yet consumed, next one first.
    pub closed spec fn pending(&self) -> Seq<u64> {
        if self.next <= self.script@.len() {
            self.script@.skip(self.next as int)
        } else {
            Seq::empty()
        }
    }

    /// A roller that will play back `script` from its first outcome on.
    pub fn new(script: Vec<u64>) -> (roller: ScriptedRoller)
        ensures
            roller.pending() == script@,
            roller.drawn() == Seq::<u64>::empty(),
    {
        ScriptedRoller { script, next: 0, history: Ghost(Seq::empty()) }
    }

    /// How many outcomes of the script are left.
    pub fn remaining(&self) -> (n: usize)
        ensures
            n == self.pending().len(),
    {
        if self.next <= self.script.len() {
            self.script.len() - self.next
        } else {
            0
        }
    }
}

impl Roller for ScriptedRoller {
    closed spec fn drawn(&self) -> Seq<u64> {
        self.history@
    }

    fn roll(&mut self, sides: u64) -> (face: u64)
        ensures
            old(self).pending().len() > 0 ==> {
                &&& face == scripted_face(old(self).pending()[0], sides)
                &&& final(self).pending() == old(self).pending().skip(1)
            },
            old(self).pending().len() == 0 ==> {
                &&& face == scripted_face(0, sides)
                &&& final(self).pending() == old(self).pending()
            },
    {
        let outcome = if self.next < self.script.len() {
            let outcome = self.script[self.next];
            self.next = self.next + 1;
            outcome
        } else {
            0
        };
        let face = if sides <= 1 {
            sides
        } else if outcome < 1 {
            1
        } else if outcome > sides {
            sides
        } else {
            outcome
        };
        proof {
            self.history@ = self.history@.push(face);
        }
        face
    }
}

} // verus!
