//! Task, puzzle and solution data: boosters, wire-level commands, and the
//! purchase list with its price table.

use vstd::prelude::*;

use crate::geom::{Move, Point};
use crate::map::Polygon;

verus! {

/// A power-up kind. Spawn is a persistent floor marker, not a pick-up.
#[derive(Clone, Copy, PartialEq, Eq, Structural, Debug)]
pub enum BoosterType {
    NewHand,
    FastMove,
    Drill,
    Teleports,
    Cloning,
    Spawn,
}

/// A booster lying on a floor cell.
#[derive(Clone, Copy, PartialEq, Eq, Structural, Debug)]
pub struct Booster {
    pub kind: BoosterType,
    pub point: Point,
}

impl Booster {
    pub fn new(kind: BoosterType, point: Point) -> (r: Booster)
        ensures
            r.kind == kind,
            r.point == point,
    {
        Booster { kind, point }
    }
}

/// A wire-level player action: a basic move or a booster activation.
#[derive(Clone, Copy, PartialEq, Eq, Structural, Debug)]
pub enum Command {
    Move(Move),
    NewHand(Point),
    FastWheel,
    Drill,
    ResetBeacon,
    ShiftBeacon(Point),
    Cloning,
}

/// A coverage task: the room polygon, the starting point, obstacle polygons
/// carved out of the room, and the boosters on the floor.
#[derive(Clone, Debug)]
pub struct Task {
    pub id: String,
    pub width: usize,
    pub height: usize,
    pub map: Polygon,
    pub initial: Point,
    pub obstacles: Vec<Polygon>,
    pub boosters: Vec<Booster>,
}

/// A puzzle: counts constraining a map to be synthesized, and the points it
/// must include and exclude.
#[derive(Debug)]
pub struct Puzzle {
    pub block: usize,
    pub epoch: usize,
    pub max_length: usize,
    pub vertex_min: usize,
    pub vertex_max: usize,
    pub hand_count: usize,
    pub fast_count: usize,
    pub drill_count: usize,
    pub tele_count: usize,
    pub clone_count: usize,
    pub spawn_count: usize,
    pub includes: Vec<Point>,
    pub excludes: Vec<Point>,
}

/// The command sequences of all robots of a solution, robot 0 first.
#[derive(Clone, PartialEq, Eq, Debug)]
pub struct Commands(pub Vec<Vec<Command>>);

impl Commands {
    /// The per-robot command sequences.
    pub open spec fn seqs(self) -> Seq<Seq<Command>> {
        self.0@.map_values(|v: Vec<Command>| v@)
    }

    /// A solution always has at least robot 0.
    pub open spec fn wf(self) -> bool {
        self.seqs().len() > 0
    }

    pub fn new(cmds: Vec<Vec<Command>>) -> (r: Commands)
        requires
            cmds@.len() > 0,
        ensures
            r.wf(),
            r.seqs() == cmds@.map_values(|v: Vec<Command>| v@),
    {
        Commands(cmds)
    }

    /// The length of a solution is the length of robot 0's sequence.
    pub fn len(&self) -> (r: usize)
        requires
            self.wf(),
        ensures
            r == self.seqs()[0].len(),
    {
        self.0[0].len()
    }

    pub fn is_empty(&self) -> (r: bool)
        requires
            self.wf(),
        ensures
            r == (self.seqs()[0].len() == 0),
    {
        self.0[0].is_empty()
    }
}

/// The price of one purchased booster; Spawn is never buyable.
pub open spec fn spec_price(b: BoosterType) -> int {
    match b {
        BoosterType::Cloning => 2000,
        BoosterType::Drill => 700,
        BoosterType::Teleports => 1200,
        BoosterType::FastMove => 300,
        BoosterType::NewHand => 1000,
        BoosterType::Spawn => 0,
    }
}

/// Total price of a purchase list.
pub open spec fn spec_money(s: Seq<BoosterType>) -> int
    decreases s.len(),
{
    if s.len() == 0 {
        0
    } else {
        spec_money(s.drop_last()) + spec_price(s.last())
    }
}

/// Prefix sums of the price total never exceed the total.
proof fn lemma_money_prefix(s: Seq<BoosterType>, k: int)
    requires
        0 <= k <= s.len(),
    ensures
        0 <= spec_money(s.take(k)) <= spec_money(s),
    decreases s.len(),
{
    if s.len() == 0 {
        assert(s.take(k) =~= s);
    } else if k == s.len() {
        assert(s.take(k) =~= s);
        lemma_money_prefix(s.drop_last(), s.len() - 1);
        assert(s.drop_last().take(s.len() - 1) =~= s.drop_last());
    } else {
        assert(s.take(k) =~= s.drop_last().take(k));
        lemma_money_prefix(s.drop_last(), k);
    }
}

/// A multiset of boosters purchased before a run.
#[derive(Debug)]
pub struct Buy(pub Vec<BoosterType>);

impl Buy {
    /// The purchased boosters in order of purchase.
    pub open spec fn list(self) -> Seq<BoosterType> {
        self.0@
    }

    pub fn new() -> (r: Buy)
        ensures
            r.list() == Seq::<BoosterType>::empty(),
    {
        Buy(Vec::new())
    }

    pub fn push(&mut self, b: &BoosterType)
        ensures
            final(self).list() == old(self).list().push(*b),
    {
        self.0.push(*b);
    }

    /// The purchased boosters, for iteration.
    pub fn iter(&self) -> (r: &Vec<BoosterType>)
        ensures
            r@ == self.list(),
    {
        &self.0
    }

    /// Total cost of the purchase at the fixed price table. Spawn markers
    /// cannot be bought, so a list holding one is excluded.
    pub fn money(&self) -> (r: usize)
        requires
            forall|i: int| 0 <= i < self.list().len() ==> (#[trigger] self.list()[i]) != BoosterType::Spawn,
            spec_money(self.list()) <= usize::MAX,
        ensures
            r == spec_money(self.list()),
    {
        let n = self.0.len();
        let mut sum: usize = 0;
        let mut i: usize = 0;
        while i < n
            invariant
                i <= n,
                n == self.list().len(),
                spec_money(self.list()) <= usize::MAX,
                sum == spec_money(self.list().take(i as int)),
            decreases n - i,
        {
            let price: usize = match self.0[i] {
                BoosterType::Cloning => 2000,
                BoosterType::Drill => 700,
                BoosterType::Teleports => 1200,
                BoosterType::FastMove => 300,
                BoosterType::NewHand => 1000,
                BoosterType::Spawn => 0,
            };
            proof {
                assert(self.list().take(i + 1).drop_last() =~= self.list().take(i as int));
                assert(self.list().take(i + 1).last() == self.list()[i as int]);
                lemma_money_prefix(self.list(), i + 1);
            }
            sum = sum + price;
            i += 1;
        }
        proof {
            assert(self.list().take(n as int) =~= self.list());
        }
        sum
    }
}

} // verus!
