//! Rolling one die term and applying its suffix.

use crate::error::ParseError;
use crate::ranking::{is_ranking, lemma_rank_of_place, lemma_ranking_covers, rank, ranked_positions};
use crate::roller::{is_face, Roller};
use crate::text::{decimal_text, format_integer, join_texts, joined, texts};
use crate::tree::{DieRoll, Modifier};
use vstd::prelude::*;
use vstd::string::StringExecFns;

verus! {

/// One die outcome of a term. Both kinds are displayed; only a `Normal` one
/// counts toward the total.
#[derive(Clone, Copy, Debug, PartialEq, Eq, Structural)]
pub enum RollEntry {
    Normal(i64),
    Discard(i64),
}

impl RollEntry {
    /// The face that the die showed.
    pub open spec fn value(self) -> int {
        match self {
            RollEntry::Normal(v) => v as int,
            RollEntry::Discard(v) => v as int,
        }
    }

    /// What the entry adds to the total of its term.
    pub open spec fn counted(self) -> int {
        match self {
            RollEntry::Normal(v) => v as int,
            RollEntry::Discard(_) => 0,
        }
    }
}

/// The total of a term: the sum of its `Normal` entries.
pub open spec fn subtotal(entries: Seq<RollEntry>) -> int
    decreases entries.len(),
{
    if entries.len() == 0 {
        0
    } else {
        subtotal(entries.drop_last()) + entries.last().counted()
    }
}

/// The faces that `entries` display, in order.
pub open spec fn shown(entries: Seq<RollEntry>) -> Seq<u64> {
    entries.map_values(|e: RollEntry| e.value() as u64)
}

/// Whether every entry displays a face of a die: a number that is not
/// negative.
pub open spec fn displays_faces(entries: Seq<RollEntry>) -> bool {
    forall|i: int| 0 <= i < entries.len() ==> (#[trigger] entries[i]).value() >= 0
}

/// The sum of `faces`.
pub open spec fn face_sum(faces: Seq<u64>) -> int
    decreases faces.len(),
{
    if faces.len() == 0 {
        0
    } else {
        face_sum(faces.drop_last()) + faces.last()
    }
}

/// The entries of a term without a suffix: every die counts.
pub open spec fn plain_entries(faces: Seq<u64>) -> Seq<RollEntry> {
    faces.map_values(|f: u64| RollEntry::Normal(f as i64))
}

/// The entries of a term with a keep suffix, in the order in which the dice
/// were rolled: a die counts where fewer than `keep` dice are preferred to
/// it, and is discarded otherwise.
pub open spec fn keep_entries(faces: Seq<u64>, low: bool, keep: nat) -> Seq<RollEntry> {
    Seq::new(
        faces.len(),
        |i: int|
            if rank(faces, low, i) < keep {
                RollEntry::Normal(faces[i] as i64)
            } else {
                RollEntry::Discard(faces[i] as i64)
            },
    )
}

/// The entries of `count` dice with a reroll suffix, taken from the front of
/// `faces`. A die that shows `target` is discarded and the face after it is
/// its replacement, which counts whatever it shows; any other die counts.
pub open spec fn reroll_entries(count: nat, target: u64, faces: Seq<u64>) -> Seq<RollEntry>
    decreases count,
{
    if count == 0 || faces.len() == 0 {
        Seq::empty()
    } else if faces[0] != target {
        seq![RollEntry::Normal(faces[0] as i64)] + reroll_entries(
            (count - 1) as nat,
            target,
            faces.skip(1),
        )
    } else if faces.len() == 1 {
        seq![RollEntry::Discard(faces[0] as i64)]
    } else {
        seq![RollEntry::Discard(faces[0] as i64), RollEntry::Normal(faces[1] as i64)]
            + reroll_entries((count - 1) as nat, target, faces.skip(2))
    }
}

/// Whether `faces` is what `count` dice with a reroll suffix draw, no face
/// more and none less.
pub open spec fn reroll_done(count: nat, target: u64, faces: Seq<u64>) -> bool
    decreases count,
{
    if count == 0 {
        faces.len() == 0
    } else if faces.len() == 0 {
        false
    } else if faces[0] != target {
        reroll_done((count - 1) as nat, target, faces.skip(1))
    } else {
        faces.len() >= 2 && reroll_done((count - 1) as nat, target, faces.skip(2))
    }
}

/// Why `die` cannot be rolled, if it cannot.
pub open spec fn die_defect(die: DieRoll) -> Option<ParseError> {
    if die.count == 0 {
        Some(ParseError::NoDice)
    } else if die.sides > i64::MAX {
        Some(ParseError::Overflow)
    } else {
        match die.modifier {
            Some(Modifier::KeepHigh(keep)) | Some(Modifier::KeepLow(keep)) => if keep > die.count {
                Some(ParseError::KeepExceedsCount)
            } else {
                None
            },
            _ => None,
        }
    }
}

/// Whether `faces` is one full outcome of `die`: each a face of the die, and
/// as many as the term draws.
pub open spec fn die_outcome(die: DieRoll, faces: Seq<u64>) -> bool {
    &&& forall|i: int| 0 <= i < faces.len() ==> is_face(die.sides, #[trigger] faces[i])
    &&& match die.modifier {
        Some(Modifier::RerollOnce(target)) => reroll_done(die.count as nat, target, faces),
        _ => faces.len() == die.count,
    }
}

/// The entries that `die` yields when its dice show `faces`, taken from the
/// front of `faces`.
pub open spec fn die_entries(die: DieRoll, faces: Seq<u64>) -> Seq<RollEntry> {
    match die.modifier {
        None => plain_entries(faces.take(die.count as int)),
        Some(Modifier::KeepHigh(keep)) => keep_entries(
            faces.take(die.count as int),
            false,
            keep as nat,
        ),
        Some(Modifier::KeepLow(keep)) => keep_entries(
            faces.take(die.count as int),
            true,
            keep as nat,
        ),
        Some(Modifier::RerollOnce(target)) => reroll_entries(die.count as nat, target, faces),
    }
}

/// How one entry is displayed: its face, struck through where the die was
/// discarded.
pub open spec fn entry_text(entry: RollEntry) -> Seq<char> {
    match entry {
        RollEntry::Normal(v) => decimal_text(v as int),
        RollEntry::Discard(v) => seq!['~', '~'] + decimal_text(v as int) + seq!['~', '~'],
    }
}

/// How the entries of a term are displayed, one after the other.
pub open spec fn entry_texts(entries: Seq<RollEntry>) -> Seq<Seq<char>> {
    entries.map_values(|entry: RollEntry| entry_text(entry))
}

/// The display of a term: its entries in order with `+` between them, in
/// round brackets.
pub open spec fn fragment(entries: Seq<RollEntry>) -> Seq<char> {
    seq!['('] + joined(entry_texts(entries), seq!['+']) + seq![')']
}

/// What a term comes to when its dice show `faces`, taken from the front of
/// `faces`: its display and its total, or the reason why it has none.
pub open spec fn term_result(die: DieRoll, faces: Seq<u64>) -> Result<(Seq<char>, int), ParseError> {
    match die_defect(die) {
        Some(e) => Err(e),
        None => {
            let entries = die_entries(die, faces);
            if subtotal(entries) > i64::MAX {
                Err(ParseError::Overflow)
            } else {
                Ok((fragment(entries), subtotal(entries)))
            }
        },
    }
}

/// How many faces a term takes from the front of `faces`.
pub open spec fn term_taken(die: DieRoll, faces: Seq<u64>) -> nat {
    if die_defect(die) is None {
        die_entries(die, faces).len()
    } else {
        0
    }
}

/// A result as a plain value: its display is a sequence of characters.
pub open spec fn result_view(result: Result<(String, i64), ParseError>) -> Result<
    (Seq<char>, int),
    ParseError,
> {
    match result {
        Ok((display, total)) => Ok((display@, total as int)),
        Err(e) => Err(e),
    }
}

/// Why `die` cannot be rolled, if it cannot.
pub fn find_defect(die: &DieRoll) -> (defect: Option<ParseError>)
    ensures
        defect == die_defect(*die),
{
    if die.count == 0 {
        return Some(ParseError::NoDice);
    }
    if die.sides > i64::MAX as u64 {
        return Some(ParseError::Overflow);
    }
    match die.modifier {
        Some(Modifier::KeepHigh(keep)) | Some(Modifier::KeepLow(keep)) => {
            if keep > die.count {
                Some(ParseError::KeepExceedsCount)
            } else {
                None
            }
        },
        _ => None,
    }
}

/// Whether `die` can be rolled and `faces` is one full outcome of it.
pub fn is_outcome(die: &DieRoll, faces: &Vec<u64>) -> (b: bool)
    ensures
        b == (die_defect(*die) is None && die_outcome(*die, faces@)),
{
    if find_defect(die).is_some() {
        return false;
    }
    let mut i: usize = 0;
    while i < faces.len()
        invariant
            i <= faces@.len(),
            forall|j: int| 0 <= j < i ==> is_face(die.sides, #[trigger] faces@[j]),
        decreases faces@.len() - i,
    {
        if !shows(die.sides, faces[i]) {
            return false;
        }
        i = i + 1;
    }
    match die.modifier {
        Some(Modifier::RerollOnce(target)) => rerolls_match(die.count, target, faces),
        _ => faces.len() as u64 == die.count,
    }
}

/// Whether a die with `sides` sides can show `face`.
fn shows(sides: u64, face: u64) -> (b: bool)
    ensures
        b == is_face(sides, face),
{
    if sides > 1 {
        1 <= face && face <= sides
    } else {
        face == sides
    }
}

/// Whether `faces` is what `count` dice with a reroll suffix draw.
fn rerolls_match(count: u64, target: u64, faces: &Vec<u64>) -> (b: bool)
    ensures
        b == reroll_done(count as nat, target, faces@),
{
    let mut at: usize = 0;
    let mut dice: u64 = 0;
    assert(faces@.skip(0) =~= faces@);
    while at < faces.len()
        invariant
            at <= faces@.len(),
            dice <= count,
            reroll_done(count as nat, target, faces@) == reroll_done(
                (count - dice) as nat,
                target,
                faces@.skip(at as int),
            ),
        decreases faces@.len() - at,
    {
        let ghost rest = faces@.skip(at as int);
        assert(rest[0] == faces@[at as int]);
        if dice == count {
            return false;
        }
        if faces[at] == target {
            if at + 1 >= faces.len() {
                return false;
            }
            assert(rest.skip(2) =~= faces@.skip(at + 2));
            at = at + 2;
        } else {
            assert(rest.skip(1) =~= faces@.skip(at + 1));
            at = at + 1;
        }
        dice = dice + 1;
    }
    dice == count
}

/// Tags the dice of a term as its suffix asks, given the faces that they
/// show: `None` where the term cannot be rolled or the faces are no full
/// outcome of it.
pub fn apply_modifier(die: &DieRoll, faces: &Vec<u64>) -> (tagged: Option<Vec<RollEntry>>)
    ensures
        match tagged {
            Some(entries) => {
                &&& die_defect(*die) is None
                &&& die_outcome(*die, faces@)
                &&& entries@ == die_entries(*die, faces@)
                &&& shown(entries@) == faces@
            },
            None => !(die_defect(*die) is None && die_outcome(*die, faces@)),
        },
{
    if is_outcome(die, faces) {
        Some(tag_outcome(die, faces))
    } else {
        None
    }
}

/// Tags the dice of a term as its suffix asks, given one full outcome of
/// the term.
fn tag_outcome(die: &DieRoll, faces: &Vec<u64>) -> (entries: Vec<RollEntry>)
    requires
        die_defect(*die) is None,
        die_outcome(*die, faces@),
    ensures
        entries@ == die_entries(*die, faces@),
        shown(entries@) == faces@,
        displays_faces(entries@),
{
    assert forall|i: int| 0 <= i < faces@.len() implies #[trigger] faces@[i] <= i64::MAX by {
        assert(is_face(die.sides, faces@[i]));
    }
    assert(faces@.take(faces@.len() as int) =~= faces@);
    match die.modifier {
        None => tag_plain(faces),
        Some(Modifier::KeepHigh(keep)) => tag_keep(faces, false, keep),
        Some(Modifier::KeepLow(keep)) => tag_keep(faces, true, keep),
        Some(Modifier::RerollOnce(target)) => tag_reroll(die.count, target, faces),
    }
}

/// The entries of a term without a suffix.
fn tag_plain(faces: &Vec<u64>) -> (entries: Vec<RollEntry>)
    requires
        forall|i: int| 0 <= i < faces@.len() ==> #[trigger] faces@[i] <= i64::MAX,
    ensures
        entries@ == plain_entries(faces@),
        shown(entries@) == faces@,
        displays_faces(entries@),
{
    let mut entries: Vec<RollEntry> = Vec::new();
    let mut i: usize = 0;
    while i < faces.len()
        invariant
            i <= faces@.len(),
            entries@.len() == i,
            forall|j: int| 0 <= j < faces@.len() ==> #[trigger] faces@[j] <= i64::MAX,
            forall|j: int| 0 <= j < i ==> #[trigger] entries@[j] == RollEntry::Normal(faces@[j] as i64),
        decreases faces@.len() - i,
    {
        entries.push(RollEntry::Normal(faces[i] as i64));
        i = i + 1;
    }
    assert(entries@ =~= plain_entries(faces@));
    assert(shown(entries@) =~= faces@);
    entries
}

/// The entries of a term with a keep suffix: the `keep` dice that rank first
/// count, the others are discarded, and all stay in the order of the rolls.
fn tag_keep(faces: &Vec<u64>, low: bool, keep: u64) -> (entries: Vec<RollEntry>)
    requires
        keep <= faces@.len(),
        forall|i: int| 0 <= i < faces@.len() ==> #[trigger] faces@[i] <= i64::MAX,
    ensures
        entries@ == keep_entries(faces@, low, keep as nat),
        shown(entries@) == faces@,
        displays_faces(entries@),
{
    let order = ranked_positions(faces, low);
    let mut kept: Vec<bool> = Vec::new();
    let mut i: usize = 0;
    while i < faces.len()
        invariant
            i <= faces@.len(),
            kept@.len() == i,
            forall|j: int| 0 <= j < i ==> !#[trigger] kept@[j],
        decreases faces@.len() - i,
    {
        kept.push(false);
        i = i + 1;
    }
    let mut p: usize = 0;
    while p < keep as usize
        invariant
            p <= keep <= faces@.len(),
            kept@.len() == faces@.len(),
            is_ranking(faces@, low, order@),
            forall|j: int|
                0 <= j < kept@.len() ==> (#[trigger] kept@[j] <==> exists|q: int|
                    0 <= q < p && order@[q] == j),
        decreases keep - p,
    {
        let ghost before = kept@;
        let position = order[p];
        kept.set(position, true);
        assert forall|j: int| 0 <= j < kept@.len() implies (#[trigger] kept@[j] <==> exists|q: int|
            0 <= q < p + 1 && order@[q] == j) by {
            if j == position {
                assert(order@[p as int] == j);
            } else if before[j] {
                let q = choose|q: int| 0 <= q < p && order@[q] == j;
                assert(0 <= q < p + 1 && order@[q] == j);
            } else if exists|q: int| 0 <= q < p + 1 && order@[q] == j {
                let q = choose|q: int| 0 <= q < p + 1 && order@[q] == j;
                assert(0 <= q < p && order@[q] == j);
            }
        }
        p = p + 1;
    }
    let mut entries: Vec<RollEntry> = Vec::new();
    let mut i: usize = 0;
    while i < faces.len()
        invariant
            i <= faces@.len(),
            entries@.len() == i,
            kept@.len() == faces@.len(),
            forall|j: int| 0 <= j < faces@.len() ==> #[trigger] faces@[j] <= i64::MAX,
            forall|j: int|
                0 <= j < i ==> #[trigger] entries@[j] == if kept@[j] {
                    RollEntry::Normal(faces@[j] as i64)
                } else {
                    RollEntry::Discard(faces@[j] as i64)
                },
        decreases faces@.len() - i,
    {
        let entry = if kept[i] {
            RollEntry::Normal(faces[i] as i64)
        } else {
            RollEntry::Discard(faces[i] as i64)
        };
        entries.push(entry);
        i = i + 1;
    }
    proof {
        assert forall|j: int| 0 <= j < faces@.len() implies (kept@[j] <==> rank(faces@, low, j)
            < keep) by {
            lemma_ranking_covers(faces@, low, order@, j);
            let q = choose|q: int| 0 <= q < order@.len() && order@[q] == j;
            lemma_rank_of_place(faces@, low, order@, q);
            if kept@[j] {
                let r = choose|r: int| 0 <= r < keep && order@[r] == j;
                lemma_rank_of_place(faces@, low, order@, r);
            }
        }
        assert(entries@ =~= keep_entries(faces@, low, keep as nat));
        assert(shown(entries@) =~= faces@);
    }
    entries
}

/// The entries of a term with a reroll suffix: each die that shows `target`
/// is discarded, and the face drawn after it counts in its place.
fn tag_reroll(count: u64, target: u64, faces: &Vec<u64>) -> (entries: Vec<RollEntry>)
    requires
        reroll_done(count as nat, target, faces@),
        forall|i: int| 0 <= i < faces@.len() ==> #[trigger] faces@[i] <= i64::MAX,
    ensures
        entries@ == reroll_entries(count as nat, target, faces@),
        shown(entries@) == faces@,
        displays_faces(entries@),
{
    let mut entries: Vec<RollEntry> = Vec::new();
    let mut at: usize = 0;
    let ghost mut left: nat = count as nat;
    proof {
        assert(faces@.skip(0) =~= faces@);
        assert(entries@ + reroll_entries(left, target, faces@) =~= reroll_entries(
            left,
            target,
            faces@,
        ));
    }
    while at < faces.len()
        invariant
            at <= faces@.len(),
            entries@.len() == at,
            reroll_done(left, target, faces@.skip(at as int)),
            entries@ + reroll_entries(left, target, faces@.skip(at as int)) == reroll_entries(
                count as nat,
                target,
                faces@,
            ),
            forall|i: int| 0 <= i < faces@.len() ==> #[trigger] faces@[i] <= i64::MAX,
            forall|i: int| 0 <= i < at ==> (#[trigger] entries@[i]).value() == faces@[i],
        decreases faces@.len() - at,
    {
        let ghost before = entries@;
        let ghost rest = faces@.skip(at as int);
        let face = faces[at];
        assert(rest[0] == face);
        if face == target {
            assert(rest[1] == faces@[at + 1]);
            let again = faces[at + 1];
            entries.push(RollEntry::Discard(face as i64));
            entries.push(RollEntry::Normal(again as i64));
            proof {
                assert(rest.skip(2) =~= faces@.skip(at + 2));
                let later = reroll_entries((left - 1) as nat, target, rest.skip(2));
                assert(entries@ + later =~= before + (seq![
                    RollEntry::Discard(face as i64),
                    RollEntry::Normal(again as i64),
                ] + later));
            }
            at = at + 2;
        } else {
            entries.push(RollEntry::Normal(face as i64));
            proof {
                assert(rest.skip(1) =~= faces@.skip(at + 1));
                let later = reroll_entries((left - 1) as nat, target, rest.skip(1));
                assert(entries@ + later =~= before + (seq![RollEntry::Normal(face as i64)]
                    + later));
            }
            at = at + 1;
        }
        proof {
            left = (left - 1) as nat;
        }
    }
    proof {
        assert(faces@.skip(at as int) =~= Seq::<u64>::empty());
        assert(entries@ + Seq::<RollEntry>::empty() =~= entries@);
        assert(shown(entries@) =~= faces@);
    }
    entries
}

/// Rolls the dice of `die` and tags each one as its suffix asks.
///
/// A term that cannot be rolled is refused before any die is rolled.
/// Otherwise the roller hands out exactly the faces that the entries
/// display, in that order, and the tags are the ones that the suffix fixes
/// for those faces.
pub fn roll_entries<R: Roller>(die: &DieRoll, roller: &mut R) -> (result: Result<
    Vec<RollEntry>,
    ParseError,
>)
    ensures
        match result {
            Ok(entries) => {
                &&& die_defect(*die) is None
                &&& final(roller).drawn() == old(roller).drawn() + shown(entries@)
                &&& die_outcome(*die, shown(entries@))
                &&& entries@ == die_entries(*die, shown(entries@))
                &&& displays_faces(entries@)
            },
            Err(e) => {
                &&& die_defect(*die) == Some(e)
                &&& final(roller).drawn() == old(roller).drawn()
            },
        },
{
    match find_defect(die) {
        Some(e) => Err(e),
        None => {
            let faces = roll_outcome(die, roller);
            Ok(tag_outcome(die, &faces))
        },
    }
}

/// Rolls the dice of a term that can be rolled: one full outcome of it.
fn roll_outcome<R: Roller>(die: &DieRoll, roller: &mut R) -> (faces: Vec<u64>)
    requires
        die_defect(*die) is None,
    ensures
        final(roller).drawn() == old(roller).drawn() + faces@,
        die_outcome(*die, faces@),
{
    match die.modifier {
        Some(Modifier::RerollOnce(target)) => roll_with_rerolls(
            die.count,
            die.sides,
            target,
            roller,
        ),
        _ => roll_faces(die.count, die.sides, roller),
    }
}

/// Rolls `count` dice with `sides` sides each.
fn roll_faces<R: Roller>(count: u64, sides: u64, roller: &mut R) -> (faces: Vec<u64>)
    ensures
        faces@.len() == count,
        final(roller).drawn() == old(roller).drawn() + faces@,
        forall|i: int| 0 <= i < faces@.len() ==> is_face(sides, #[trigger] faces@[i]),
{
    let ghost start = roller.drawn();
    let mut faces: Vec<u64> = Vec::new();
    let mut i: u64 = 0;
    assert(start + faces@ =~= start);
    while i < count
        invariant
            i <= count,
            faces@.len() == i,
            roller.drawn() == start + faces@,
            forall|j: int| 0 <= j < faces@.len() ==> is_face(sides, #[trigger] faces@[j]),
        decreases count - i,
    {
        let ghost before = faces@;
        let face = roller.roll(sides);
        faces.push(face);
        i = i + 1;
        assert(start + faces@ =~= (start + before).push(face));
    }
    faces
}

/// Rolls `count` dice and rolls once more for each that shows `target`.
fn roll_with_rerolls<R: Roller>(count: u64, sides: u64, target: u64, roller: &mut R) -> (faces:
    Vec<u64>)
    ensures
        final(roller).drawn() == old(roller).drawn() + faces@,
        reroll_done(count as nat, target, faces@),
        forall|i: int| 0 <= i < faces@.len() ==> is_face(sides, #[trigger] faces@[i]),
{
    let ghost start = roller.drawn();
    let mut faces: Vec<u64> = Vec::new();
    let mut i: u64 = 0;
    assert(start + faces@ =~= start);
    while i < count
        invariant
            i <= count,
            roller.drawn() == start + faces@,
            reroll_done(i as nat, target, faces@),
            forall|j: int| 0 <= j < faces@.len() ==> is_face(sides, #[trigger] faces@[j]),
        decreases count - i,
    {
        let ghost before = faces@;
        let face = roller.roll(sides);
        faces.push(face);
        if face == target {
            let again = roller.roll(sides);
            faces.push(again);
            proof {
                let more = seq![face, again];
                assert(more.skip(2) =~= Seq::<u64>::empty());
                assert(reroll_done(0, target, more.skip(2)));
                assert(reroll_done(1, target, more));
                lemma_reroll_append(i as nat, 1, target, before, more);
                assert(faces@ =~= before + more);
                assert(start + faces@ =~= (start + before).push(face).push(again));
            }
        } else {
            proof {
                let more = seq![face];
                assert(more.skip(1) =~= Seq::<u64>::empty());
                assert(reroll_done(0, target, more.skip(1)));
                assert(reroll_done(1, target, more));
                lemma_reroll_append(i as nat, 1, target, before, more);
                assert(faces@ =~= before + more);
                assert(start + faces@ =~= (start + before).push(face));
            }
        }
        i = i + 1;
    }
    faces
}

/// The display of a term.
pub fn render_entries(entries: &Vec<RollEntry>) -> (display: String)
    ensures
        display@ == fragment(entries@),
{
    let mut parts: Vec<String> = Vec::new();
    let mut i: usize = 0;
    while i < entries.len()
        invariant
            i <= entries@.len(),
            texts(parts@) == entry_texts(entries@.take(i as int)),
        decreases entries@.len() - i,
    {
        let ghost before = parts@;
        let part = match entries[i] {
            RollEntry::Normal(v) => format_integer(v),
            RollEntry::Discard(v) => {
                proof {
                    reveal_strlit("~~");
                }
                let mut part = String::from_str("~~");
                part.append(format_integer(v).as_str());
                part.append("~~");
                assert(part@ =~= entry_text(entries@[i as int]));
                part
            },
        };
        parts.push(part);
        i = i + 1;
        assert(texts(parts@) =~= texts(before).push(part@));
        assert(entries@.take(i as int) =~= entries@.take(i - 1).push(entries@[i - 1]));
        assert(texts(parts@) =~= entry_texts(entries@.take(i as int)));
    }
    assert(entries@.take(i as int) =~= entries@);
    proof {
        reveal_strlit("+");
        reveal_strlit("(");
        reveal_strlit(")");
    }
    let inner = join_texts(&parts, "+");
    let mut display = String::from_str("(");
    display.append(inner.as_str());
    display.append(")");
    assert("+"@ =~= seq!['+']);
    assert(display@ =~= fragment(entries@));
    display
}

/// The total of a term, where it fits.
pub fn total_entries(entries: &Vec<RollEntry>) -> (total: Option<i64>)
    ensures
        match total {
            Some(t) => t == subtotal(entries@),
            None => !(i64::MIN <= subtotal(entries@) <= i64::MAX),
        },
{
    let mut sum: i128 = 0;
    let mut i: usize = 0;
    while i < entries.len()
        invariant
            i <= entries@.len(),
            sum == subtotal(entries@.take(i as int)),
            -(i * 0x8000_0000_0000_0000) <= sum <= i * 0x8000_0000_0000_0000,
        decreases entries@.len() - i,
    {
        let counted: i64 = match entries[i] {
            RollEntry::Normal(v) => v,
            RollEntry::Discard(_) => 0,
        };
        assert(entries@.take(i + 1).drop_last() =~= entries@.take(i as int));
        sum = sum + counted as i128;
        i = i + 1;
    }
    assert(entries@.take(i as int) =~= entries@);
    if sum < i64::MIN as i128 || sum > i64::MAX as i128 {
        None
    } else {
        Some(sum as i64)
    }
}

/// Rolls one die term: its display and its total.
///
/// A term that cannot be rolled is refused before any die is rolled. A term
/// whose total does not fit is refused after its dice were rolled. With
/// `faces` the faces that this call drew from the roller, in order, the
/// result is what the term comes to on those faces, and they are one full
/// outcome of the term.
pub fn roll_die<R: Roller>(die: &DieRoll, roller: &mut R) -> (result: Result<
    (String, i64),
    ParseError,
>)
    ensures
        ({
            let faces = final(roller).drawn().skip(old(roller).drawn().len() as int);
            &&& final(roller).drawn() == old(roller).drawn() + faces
            &&& result_view(result) == term_result(*die, faces)
            &&& die_defect(*die) is None ==> die_outcome(*die, faces)
            &&& die_defect(*die) is Some ==> faces.len() == 0
        }),
{
    let ghost start = roller.drawn();
    match roll_entries(die, roller) {
        Err(e) => {
            assert(roller.drawn().skip(start.len() as int) =~= Seq::<u64>::empty());
            assert(roller.drawn() =~= start + Seq::<u64>::empty());
            Err(e)
        },
        Ok(entries) => {
            assert(roller.drawn().skip(start.len() as int) =~= shown(entries@));
            let display = render_entries(&entries);
            match total_entries(&entries) {
                Some(total) => Ok((display, total)),
                None => {
                    proof {
                        lemma_subtotal_of_faces(entries@);
                    }
                    Err(ParseError::Overflow)
                },
            }
        },
    }
}

/// Every die of a term shows a face of the die, and the term displays
/// every die that was rolled: the entries are as many as the faces, each
/// entry displays its face, kept or discarded, and that face is a number
/// from one up to the number of sides, or the number of sides itself on a
/// die with one side or none.
pub proof fn lemma_entries_display_faces(die: DieRoll, faces: Seq<u64>)
    requires
        die_defect(die) is None,
        die_outcome(die, faces),
    ensures
        die_entries(die, faces).len() == faces.len(),
        shown(die_entries(die, faces)) == faces,
        displays_faces(die_entries(die, faces)),
        forall|i: int|
            0 <= i < faces.len() ==> (#[trigger] die_entries(die, faces)[i]).value() == faces[i],
        die.sides > 1 ==> forall|i: int|
            0 <= i < faces.len() ==> 1 <= (#[trigger] die_entries(die, faces)[i]).value()
                <= die.sides,
        die.sides <= 1 ==> forall|i: int|
            0 <= i < faces.len() ==> (#[trigger] die_entries(die, faces)[i]).value() == die.sides,
{
    let entries = die_entries(die, faces);
    assert forall|i: int| 0 <= i < faces.len() implies #[trigger] faces[i] <= i64::MAX by {
        assert(is_face(die.sides, faces[i]));
    }
    match die.modifier {
        Some(Modifier::RerollOnce(target)) => {
            lemma_reroll_shows_faces(die.count as nat, target, faces);
        },
        _ => {
            assert(faces.take(die.count as int) =~= faces);
        },
    }
    assert forall|i: int| 0 <= i < faces.len() implies (#[trigger] entries[i]).value()
        == faces[i] && is_face(die.sides, faces[i]) by {}
    assert(shown(entries) =~= faces);
}

/// The total of a term without a suffix is the sum of all its dice.
pub proof fn lemma_plain_total(die: DieRoll, faces: Seq<u64>)
    requires
        die.modifier is None,
        die_defect(die) is None,
        die_outcome(die, faces),
    ensures
        subtotal(die_entries(die, faces)) == face_sum(faces),
{
    assert(faces.take(die.count as int) =~= faces);
    assert forall|i: int| 0 <= i < faces.len() implies #[trigger] faces[i] <= i64::MAX by {
        assert(is_face(die.sides, faces[i]));
    }
    lemma_plain_subtotal(faces);
}

/// What a discarded die shows adds nothing to the total of its term, and
/// what a die that counts shows is added as it is.
pub proof fn lemma_subtotal_counts_normal_only(entries: Seq<RollEntry>, v: i64)
    ensures
        subtotal(entries.push(RollEntry::Discard(v))) == subtotal(entries),
        subtotal(entries.push(RollEntry::Normal(v))) == subtotal(entries) + v,
{
    assert(entries.push(RollEntry::Discard(v)).drop_last() =~= entries);
    assert(entries.push(RollEntry::Normal(v)).drop_last() =~= entries);
}

/// A term takes from a run of faces no more than one full outcome: the
/// faces that follow it change nothing of what the term yields.
pub proof fn lemma_outcome_is_taken(die: DieRoll, faces: Seq<u64>, rest: Seq<u64>)
    requires
        die_defect(die) is None,
        die_outcome(die, faces),
    ensures
        die_entries(die, faces + rest) == die_entries(die, faces),
        term_result(die, faces + rest) == term_result(die, faces),
        term_taken(die, faces + rest) == faces.len(),
{
    match die.modifier {
        Some(Modifier::RerollOnce(target)) => {
            lemma_reroll_append(die.count as nat, 0, target, faces, rest);
            assert(reroll_entries(die.count as nat, target, faces) + Seq::<RollEntry>::empty()
                =~= reroll_entries(die.count as nat, target, faces));
            assert forall|i: int| 0 <= i < faces.len() implies #[trigger] faces[i]
                <= i64::MAX by {
                assert(is_face(die.sides, faces[i]));
            }
            lemma_reroll_shows_faces(die.count as nat, target, faces);
        },
        _ => {
            assert((faces + rest).take(die.count as int) =~= faces);
            assert(faces.take(die.count as int) =~= faces);
        },
    }
}

/// What the dice drawn first and the dice drawn after them yield together,
/// under a reroll suffix, is what each lot yields by itself.
pub proof fn lemma_reroll_append(
    count: nat,
    extra: nat,
    target: u64,
    faces: Seq<u64>,
    more: Seq<u64>,
)
    requires
        reroll_done(count, target, faces),
    ensures
        reroll_entries(count + extra, target, faces + more) == reroll_entries(count, target, faces)
            + reroll_entries(extra, target, more),
        reroll_done(count + extra, target, faces + more) == reroll_done(extra, target, more),
    decreases count,
{
    if count == 0 {
        assert(faces + more =~= more);
        assert(reroll_entries(count, target, faces) + reroll_entries(extra, target, more)
            =~= reroll_entries(extra, target, more));
    } else {
        let all = faces + more;
        assert(all[0] == faces[0]);
        if faces[0] != target {
            assert(all.skip(1) =~= faces.skip(1) + more);
            lemma_reroll_append((count - 1) as nat, extra, target, faces.skip(1), more);
            assert(reroll_entries(count + extra, target, all) =~= reroll_entries(
                count,
                target,
                faces,
            ) + reroll_entries(extra, target, more));
        } else {
            assert(all[1] == faces[1]);
            assert(all.skip(2) =~= faces.skip(2) + more);
            lemma_reroll_append((count - 1) as nat, extra, target, faces.skip(2), more);
            assert(reroll_entries(count + extra, target, all) =~= reroll_entries(
                count,
                target,
                faces,
            ) + reroll_entries(extra, target, more));
        }
    }
}

/// Under a reroll suffix every face drawn is displayed, in the order drawn.
pub proof fn lemma_reroll_shows_faces(count: nat, target: u64, faces: Seq<u64>)
    requires
        reroll_done(count, target, faces),
        forall|i: int| 0 <= i < faces.len() ==> #[trigger] faces[i] <= i64::MAX,
    ensures
        reroll_entries(count, target, faces).len() == faces.len(),
        forall|i: int|
            0 <= i < faces.len() ==> (#[trigger] reroll_entries(count, target, faces)[i]).value()
                == faces[i],
    decreases count,
{
    if count > 0 {
        let step: int = if faces[0] != target {
            1
        } else {
            2
        };
        let rest = faces.skip(step);
        assert forall|i: int| 0 <= i < rest.len() implies #[trigger] rest[i] <= i64::MAX by {
            assert(rest[i] == faces[i + step]);
        }
        lemma_reroll_shows_faces((count - 1) as nat, target, rest);
        let entries = reroll_entries(count, target, faces);
        let later = reroll_entries((count - 1) as nat, target, rest);
        assert forall|i: int| 0 <= i < faces.len() implies (#[trigger] entries[i]).value()
            == faces[i] by {
            if i >= step {
                assert(entries[i] == later[i - step]);
                assert(rest[i - step] == faces[i]);
            }
        }
    }
}

/// The entries of a term without a suffix count every die.
proof fn lemma_plain_subtotal(faces: Seq<u64>)
    requires
        forall|i: int| 0 <= i < faces.len() ==> #[trigger] faces[i] <= i64::MAX,
    ensures
        subtotal(plain_entries(faces)) == face_sum(faces),
    decreases faces.len(),
{
    if faces.len() > 0 {
        assert(plain_entries(faces).drop_last() =~= plain_entries(faces.drop_last()));
        lemma_plain_subtotal(faces.drop_last());
    }
}

/// Entries that display faces of dice have a subtotal of zero or more.
pub proof fn lemma_subtotal_of_faces(entries: Seq<RollEntry>)
    requires
        displays_faces(entries),
    ensures
        subtotal(entries) >= 0,
    decreases entries.len(),
{
    if entries.len() > 0 {
        lemma_subtotal_of_faces(entries.drop_last());
    }
}

} // verus!
