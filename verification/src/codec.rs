//! Textual codec for task descriptors, solutions, puzzle descriptors and
//! buy lists. The grammars are ASCII and line-oriented; both directions are
//! specified over byte sequences, and the parsers are proved to accept
//! exactly what the specification-level parsers accept.

use vstd::prelude::*;

use crate::geom::{Move, Point};
use crate::map::Polygon;
use crate::models::{Booster, BoosterType, Buy, Command, Commands, Puzzle, Task};

verus! {

/// True when every byte is ASCII.
pub open spec fn ascii_seq(s: Seq<u8>) -> bool {
    forall|i: int| 0 <= i < s.len() ==> (#[trigger] s[i]) < 128
}

/// Relies on String::from_utf8: ASCII bytes decode to exactly one char per
/// byte, with the same code points.
#[verifier::external_body]
fn ascii_to_string(v: Vec<u8>) -> (r: String)
    requires
        ascii_seq(v@),
    ensures
        r@ == v@.map_values(|b: u8| b as char),
{
    String::from_utf8(v).unwrap_or_default()
}

/// The decimal digits of `n` without a leading zero; empty for zero.
pub open spec fn spec_digits(n: int) -> Seq<u8>
    decreases n,
{
    if n <= 0 {
        Seq::empty()
    } else {
        spec_digits(n / 10).push((n % 10 + 48) as u8)
    }
}

/// The decimal numeral of a non-negative integer.
pub open spec fn spec_emit_nat(n: int) -> Seq<u8> {
    if n == 0 {
        seq![48u8]
    } else {
        spec_digits(n)
    }
}

/// The decimal numeral of an integer, with a leading minus when negative.
pub open spec fn spec_emit_int(n: int) -> Seq<u8> {
    if n < 0 {
        seq![45u8] + spec_emit_nat(-n)
    } else {
        spec_emit_nat(n)
    }
}

/// "(x,y)"
pub open spec fn spec_emit_point(p: Point) -> Seq<u8> {
    seq![40u8] + spec_emit_int(p.x as int) + seq![44u8] + spec_emit_int(p.y as int) + seq![41u8]
}

/// Points joined with ','.
pub open spec fn spec_emit_point_list(ps: Seq<Point>) -> Seq<u8>
    decreases ps.len(),
{
    if ps.len() == 0 {
        Seq::empty()
    } else if ps.len() == 1 {
        spec_emit_point(ps[0])
    } else {
        spec_emit_point_list(ps.drop_last()) + seq![44u8] + spec_emit_point(ps.last())
    }
}

/// Polygons joined with ';'.
pub open spec fn spec_emit_poly_list(ms: Seq<Seq<Point>>) -> Seq<u8>
    decreases ms.len(),
{
    if ms.len() == 0 {
        Seq::empty()
    } else if ms.len() == 1 {
        spec_emit_point_list(ms[0])
    } else {
        spec_emit_poly_list(ms.drop_last()) + seq![59u8] + spec_emit_point_list(ms.last())
    }
}

/// The single-letter code of a booster kind.
pub open spec fn spec_booster_code(b: BoosterType) -> u8 {
    match b {
        BoosterType::NewHand => 66,  // 'B'
        BoosterType::FastMove => 70,  // 'F'
        BoosterType::Drill => 76,  // 'L'
        BoosterType::Teleports => 82,  // 'R'
        BoosterType::Cloning => 67,  // 'C'
        BoosterType::Spawn => 88,  // 'X'
    }
}

/// "B(x,y)" and the like.
pub open spec fn spec_emit_booster(b: Booster) -> Seq<u8> {
    seq![spec_booster_code(b.kind)] + spec_emit_point(b.point)
}

/// Boosters joined with ';'.
pub open spec fn spec_emit_booster_list(bs: Seq<Booster>) -> Seq<u8>
    decreases bs.len(),
{
    if bs.len() == 0 {
        Seq::empty()
    } else if bs.len() == 1 {
        spec_emit_booster(bs[0])
    } else {
        spec_emit_booster_list(bs.drop_last()) + seq![59u8] + spec_emit_booster(bs.last())
    }
}

/// A task descriptor: map '#' initial '#' obstacles '#' boosters.
pub open spec fn spec_emit_task(
    map: Seq<Point>,
    initial: Point,
    obstacles: Seq<Seq<Point>>,
    boosters: Seq<Booster>,
) -> Seq<u8> {
    spec_emit_point_list(map) + seq![35u8] + spec_emit_point(initial) + seq![35u8]
        + spec_emit_poly_list(obstacles) + seq![35u8] + spec_emit_booster_list(boosters)
}

/// The wire code of one command.
pub open spec fn spec_emit_command(c: Command) -> Seq<u8> {
    match c {
        Command::Move(Move::MoveUp) => seq![87u8],  // 'W'
        Command::Move(Move::MoveDown) => seq![83u8],  // 'S'
        Command::Move(Move::MoveLeft) => seq![65u8],  // 'A'
        Command::Move(Move::MoveRight) => seq![68u8],  // 'D'
        Command::Move(Move::Noop) => seq![90u8],  // 'Z'
        Command::Move(Move::TurnRight) => seq![69u8],  // 'E'
        Command::Move(Move::TurnLeft) => seq![81u8],  // 'Q'
        Command::NewHand(p) => seq![66u8] + spec_emit_point(p),  // 'B'
        Command::FastWheel => seq![70u8],  // 'F'
        Command::Drill => seq![76u8],  // 'L'
        Command::ResetBeacon => seq![82u8],  // 'R'
        Command::ShiftBeacon(p) => seq![84u8] + spec_emit_point(p),  // 'T'
        Command::Cloning => seq![67u8],  // 'C'
    }
}

/// One robot's command sequence, concatenated without separators.
pub open spec fn spec_emit_command_seq(s: Seq<Command>) -> Seq<u8>
    decreases s.len(),
{
    if s.len() == 0 {
        Seq::empty()
    } else {
        spec_emit_command_seq(s.drop_last()) + spec_emit_command(s.last())
    }
}

/// All robots' sequences joined with '#'.
pub open spec fn spec_emit_commands(cs: Seq<Seq<Command>>) -> Seq<u8>
    decreases cs.len(),
{
    if cs.len() == 0 {
        Seq::empty()
    } else if cs.len() == 1 {
        spec_emit_command_seq(cs[0])
    } else {
        spec_emit_commands(cs.drop_last()) + seq![35u8] + spec_emit_command_seq(cs.last())
    }
}

/// A buy list: booster letters, no separators.
pub open spec fn spec_emit_buy(s: Seq<BoosterType>) -> Seq<u8>
    decreases s.len(),
{
    if s.len() == 0 {
        Seq::empty()
    } else {
        spec_emit_buy(s.drop_last()).push(spec_booster_code(s.last()))
    }
}

/// Every numeral byte is an ASCII digit.
proof fn lemma_digits_ascii(n: int)
    ensures
        forall|i: int|
            0 <= i < spec_digits(n).len() ==> 48 <= (#[trigger] spec_digits(n)[i]) <= 57,
    decreases n,
{
    if n > 0 {
        lemma_digits_ascii(n / 10);
        let t = spec_digits(n / 10);
        assert forall|i: int|
            0 <= i < spec_digits(n).len() implies 48 <= (#[trigger] spec_digits(n)[i]) <= 57 by {
            if i < t.len() {
                assert(spec_digits(n)[i] == t[i]);
            } else {
                assert(spec_digits(n)[i] == (n % 10 + 48) as u8);
            }
        }
    }
}

/// Emit the decimal digits of `n` (nothing when `n` is zero).
fn emit_digits(n: u32, out: &mut Vec<u8>)
    ensures
        final(out)@ == old(out)@ + spec_digits(n as int),
    decreases n,
{
    if n > 0 {
        emit_digits(n / 10, out);
        out.push((n % 10) as u8 + 48);
        proof {
            assert(out@ =~= old(out)@ + spec_digits(n as int));
        }
    } else {
        proof {
            assert(out@ =~= old(out)@ + spec_digits(0));
        }
    }
}

/// Emit the decimal numeral of `n`.
fn emit_int(n: i32, out: &mut Vec<u8>)
    ensures
        final(out)@ == old(out)@ + spec_emit_int(n as int),
{
    if n < 0 {
        out.push(45);
        let m: u32 = (-(n as i64)) as u32;
        assert(m == -(n as int));
        emit_digits(m, out);
        proof {
            assert(out@ =~= old(out)@ + spec_emit_int(n as int));
        }
    } else if n == 0 {
        out.push(48);
        proof {
            assert(out@ =~= old(out)@ + spec_emit_int(0));
        }
    } else {
        emit_digits(n as u32, out);
    }
}

/// Emit "(x,y)".
fn emit_point(p: Point, out: &mut Vec<u8>)
    ensures
        final(out)@ == old(out)@ + spec_emit_point(p),
{
    out.push(40);
    emit_int(p.x, out);
    out.push(44);
    emit_int(p.y, out);
    out.push(41);
    proof {
        assert(out@ =~= old(out)@ + spec_emit_point(p));
    }
}

/// Emit the points of a polygon joined with ','.
fn emit_point_list(ps: &Vec<Point>, out: &mut Vec<u8>)
    ensures
        final(out)@ == old(out)@ + spec_emit_point_list(ps@),
{
    let n = ps.len();
    let mut i: usize = 0;
    while i < n
        invariant
            i <= n,
            n == ps@.len(),
            out@ == old(out)@ + spec_emit_point_list(ps@.take(i as int)),
        decreases n - i,
    {
        if i > 0 {
            out.push(44);
        }
        emit_point(ps[i], out);
        proof {
            assert(ps@.take(i + 1).drop_last() =~= ps@.take(i as int));
            assert(ps@.take(i + 1).last() == ps@[i as int]);
            if i == 0 {
                assert(ps@.take(1) =~= seq![ps@[0]]);
                assert(out@ =~= old(out)@ + spec_emit_point_list(ps@.take(1)));
            } else {
                assert(out@ =~= old(out)@ + spec_emit_point_list(ps@.take(i + 1)));
            }
        }
        i += 1;
    }
    proof {
        assert(ps@.take(n as int) =~= ps@);
    }
}

/// Emit one command's wire code.
fn emit_command(c: &Command, out: &mut Vec<u8>)
    ensures
        final(out)@ == old(out)@ + spec_emit_command(*c),
{
    match c {
        Command::Move(Move::MoveUp) => out.push(87),
        Command::Move(Move::MoveDown) => out.push(83),
        Command::Move(Move::MoveLeft) => out.push(65),
        Command::Move(Move::MoveRight) => out.push(68),
        Command::Move(Move::Noop) => out.push(90),
        Command::Move(Move::TurnRight) => out.push(69),
        Command::Move(Move::TurnLeft) => out.push(81),
        Command::NewHand(p) => {
            out.push(66);
            emit_point(*p, out);
        },
        Command::FastWheel => out.push(70),
        Command::Drill => out.push(76),
        Command::ResetBeacon => out.push(82),
        Command::ShiftBeacon(p) => {
            out.push(84);
            emit_point(*p, out);
        },
        Command::Cloning => out.push(67),
    }
    proof {
        assert(out@ =~= old(out)@ + spec_emit_command(*c));
    }
}

/// Emit one robot's command sequence.
fn emit_command_seq(s: &Vec<Command>, out: &mut Vec<u8>)
    ensures
        final(out)@ == old(out)@ + spec_emit_command_seq(s@),
{
    let n = s.len();
    let mut i: usize = 0;
    while i < n
        invariant
            i <= n,
            n == s@.len(),
            out@ == old(out)@ + spec_emit_command_seq(s@.take(i as int)),
        decreases n - i,
    {
        emit_command(&s[i], out);
        proof {
            assert(s@.take(i + 1).drop_last() =~= s@.take(i as int));
            assert(s@.take(i + 1).last() == s@[i as int]);
            assert(out@ =~= old(out)@ + spec_emit_command_seq(s@.take(i + 1)));
        }
        i += 1;
    }
    proof {
        assert(s@.take(n as int) =~= s@);
    }
}

impl Point {
    /// The descriptor form "(x,y)" of the point.
    pub fn to_text(&self) -> (r: String)
        ensures
            r@ == spec_emit_point(*self).map_values(|b: u8| b as char),
    {
        let mut out: Vec<u8> = Vec::new();
        emit_point(*self, &mut out);
        proof {
            lemma_emit_point_ascii(*self);
        }
        ascii_to_string(out)
    }
}

impl Polygon {
    /// The descriptor form of the polygon: its vertices joined with ','.
    pub fn to_text(&self) -> (r: String)
        ensures
            r@ == spec_emit_point_list(self.vertices()).map_values(|b: u8| b as char),
    {
        let mut out: Vec<u8> = Vec::new();
        emit_point_list(&self.0, &mut out);
        proof {
            lemma_emit_point_list_ascii(self.vertices());
        }
        ascii_to_string(out)
    }
}

/// Every byte of an emitted numeral is ASCII.
proof fn lemma_emit_int_ascii(n: int)
    ensures
        ascii_seq(spec_emit_int(n)),
{
    lemma_digits_ascii(n);
    lemma_digits_ascii(-n);
}

/// Every byte of an emitted point is ASCII.
proof fn lemma_emit_point_ascii(p: Point)
    ensures
        ascii_seq(spec_emit_point(p)),
{
    lemma_emit_int_ascii(p.x as int);
    lemma_emit_int_ascii(p.y as int);
}

/// Every byte of an emitted point list is ASCII.
proof fn lemma_emit_point_list_ascii(ps: Seq<Point>)
    ensures
        ascii_seq(spec_emit_point_list(ps)),
    decreases ps.len(),
{
    if ps.len() == 0 {
    } else if ps.len() == 1 {
        lemma_emit_point_ascii(ps[0]);
    } else {
        lemma_emit_point_list_ascii(ps.drop_last());
        lemma_emit_point_ascii(ps.last());
    }
}

/// Every byte of an emitted polygon list is ASCII.
proof fn lemma_emit_poly_list_ascii(ms: Seq<Seq<Point>>)
    ensures
        ascii_seq(spec_emit_poly_list(ms)),
    decreases ms.len(),
{
    if ms.len() == 0 {
    } else if ms.len() == 1 {
        lemma_emit_point_list_ascii(ms[0]);
    } else {
        lemma_emit_poly_list_ascii(ms.drop_last());
        lemma_emit_point_list_ascii(ms.last());
    }
}

/// Every byte of an emitted booster list is ASCII.
proof fn lemma_emit_booster_list_ascii(bs: Seq<Booster>)
    ensures
        ascii_seq(spec_emit_booster_list(bs)),
    decreases bs.len(),
{
    if bs.len() == 0 {
    } else if bs.len() == 1 {
        lemma_emit_point_ascii(bs[0].point);
    } else {
        lemma_emit_booster_list_ascii(bs.drop_last());
        lemma_emit_point_ascii(bs.last().point);
    }
}

/// Every byte of an emitted command sequence is ASCII.
proof fn lemma_emit_command_seq_ascii(s: Seq<Command>)
    ensures
        ascii_seq(spec_emit_command_seq(s)),
    decreases s.len(),
{
    if s.len() > 0 {
        lemma_emit_command_seq_ascii(s.drop_last());
        match s.last() {
            Command::NewHand(p) => lemma_emit_point_ascii(p),
            Command::ShiftBeacon(p) => lemma_emit_point_ascii(p),
            _ => (),
        }
    }
}

/// Every byte of an emitted solution is ASCII.
proof fn lemma_emit_commands_ascii(cs: Seq<Seq<Command>>)
    ensures
        ascii_seq(spec_emit_commands(cs)),
    decreases cs.len(),
{
    if cs.len() == 0 {
    } else if cs.len() == 1 {
        lemma_emit_command_seq_ascii(cs[0]);
    } else {
        lemma_emit_commands_ascii(cs.drop_last());
        lemma_emit_command_seq_ascii(cs.last());
    }
}

impl Booster {
    /// The descriptor form: the kind's letter followed by the point.
    pub fn to_text(&self) -> (r: String)
        ensures
            r@ == spec_emit_booster(*self).map_values(|b: u8| b as char),
    {
        let mut out: Vec<u8> = Vec::new();
        let code: u8 = match self.kind {
            BoosterType::NewHand => 66,
            BoosterType::FastMove => 70,
            BoosterType::Drill => 76,
            BoosterType::Teleports => 82,
            BoosterType::Cloning => 67,
            BoosterType::Spawn => 88,
        };
        out.push(code);
        emit_point(self.point, &mut out);
        proof {
            lemma_emit_point_ascii(self.point);
            assert(out@ =~= spec_emit_booster(*self));
        }
        ascii_to_string(out)
    }
}

impl Task {
    /// The full task descriptor text.
    pub fn to_text(&self) -> (r: String)
        ensures
            r@ == spec_emit_task(
                self.map.vertices(),
                self.initial,
                self.obstacles@.map_values(|m: Polygon| m.0@),
                self.boosters@,
            ).map_values(|b: u8| b as char),
    {
        let mut out: Vec<u8> = Vec::new();
        emit_point_list(&self.map.0, &mut out);
        out.push(35);
        emit_point(self.initial, &mut out);
        out.push(35);
        let ghost obs = self.obstacles@.map_values(|m: Polygon| m.0@);
        let n = self.obstacles.len();
        let mut i: usize = 0;
        proof {
            assert(obs.len() == n);
        }
        let ghost head = out@;
        while i < n
            invariant
                i <= n,
                n == self.obstacles@.len(),
                obs == self.obstacles@.map_values(|m: Polygon| m.0@),
                out@ == head + spec_emit_poly_list(obs.take(i as int)),
            decreases n - i,
        {
            if i > 0 {
                out.push(59);
            }
            emit_point_list(&self.obstacles[i].0, &mut out);
            proof {
                assert(obs.take(i + 1).drop_last() =~= obs.take(i as int));
                assert(obs.take(i + 1).last() == obs[i as int]);
                assert(obs[i as int] == self.obstacles@[i as int].0@);
                if i == 0 {
                    assert(obs.take(1) =~= seq![obs[0]]);
                    assert(out@ =~= head + spec_emit_poly_list(obs.take(1)));
                } else {
                    assert(out@ =~= head + spec_emit_poly_list(obs.take(i + 1)));
                }
            }
            i += 1;
        }
        proof {
            assert(obs.take(n as int) =~= obs);
        }
        out.push(35);
        let ghost head2 = out@;
        let m = self.boosters.len();
        let mut j: usize = 0;
        while j < m
            invariant
                j <= m,
                m == self.boosters@.len(),
                out@ == head2 + spec_emit_booster_list(self.boosters@.take(j as int)),
            decreases m - j,
        {
            if j > 0 {
                out.push(59);
            }
            let b = self.boosters[j];
            let code: u8 = match b.kind {
                BoosterType::NewHand => 66,
                BoosterType::FastMove => 70,
                BoosterType::Drill => 76,
                BoosterType::Teleports => 82,
                BoosterType::Cloning => 67,
                BoosterType::Spawn => 88,
            };
            out.push(code);
            emit_point(b.point, &mut out);
            proof {
                let bs = self.boosters@;
                assert(bs.take(j + 1).drop_last() =~= bs.take(j as int));
                assert(bs.take(j + 1).last() == bs[j as int]);
                if j == 0 {
                    assert(bs.take(1) =~= seq![bs[0]]);
                    assert(out@ =~= head2 + spec_emit_booster_list(bs.take(1)));
                } else {
                    assert(out@ =~= head2 + spec_emit_booster_list(bs.take(j + 1)));
                }
            }
            j += 1;
        }
        proof {
            assert(self.boosters@.take(m as int) =~= self.boosters@);
            assert(out@ =~= spec_emit_task(
                self.map.vertices(),
                self.initial,
                obs,
                self.boosters@,
            ));
            lemma_emit_point_list_ascii(self.map.vertices());
            lemma_emit_point_ascii(self.initial);
            lemma_emit_poly_list_ascii(obs);
            lemma_emit_booster_list_ascii(self.boosters@);
        }
        ascii_to_string(out)
    }
}

impl Commands {
    /// The solution text: each robot's sequence, robots joined with '#'.
    pub fn to_text(&self) -> (r: String)
        ensures
            r@ == spec_emit_commands(self.seqs()).map_values(|b: u8| b as char),
    {
        let mut out: Vec<u8> = Vec::new();
        let n = self.0.len();
        let ghost cs = self.seqs();
        let mut i: usize = 0;
        while i < n
            invariant
                i <= n,
                n == self.0@.len(),
                cs == self.seqs(),
                out@ == spec_emit_commands(cs.take(i as int)),
            decreases n - i,
        {
            if i > 0 {
                out.push(35);
            }
            emit_command_seq(&self.0[i], &mut out);
            proof {
                assert(cs.take(i + 1).drop_last() =~= cs.take(i as int));
                assert(cs.take(i + 1).last() == cs[i as int]);
                assert(cs[i as int] == self.0@[i as int]@);
                if i == 0 {
                    assert(cs.take(1) =~= seq![cs[0]]);
                    assert(out@ =~= spec_emit_commands(cs.take(1)));
                } else {
                    assert(out@ =~= spec_emit_commands(cs.take(i + 1)));
                }
            }
            i += 1;
        }
        proof {
            assert(cs.take(n as int) =~= cs);
            lemma_emit_commands_ascii(cs);
        }
        ascii_to_string(out)
    }
}

/// Every byte of an emitted buy list is ASCII.
proof fn lemma_emit_buy_ascii(s: Seq<BoosterType>)
    ensures
        ascii_seq(spec_emit_buy(s)),
    decreases s.len(),
{
    if s.len() > 0 {
        lemma_emit_buy_ascii(s.drop_last());
    }
}

impl Buy {
    /// The buy-file text: the letters of the purchased boosters.
    pub fn to_text(&self) -> (r: String)
        ensures
            r@ == spec_emit_buy(self.list()).map_values(|b: u8| b as char),
    {
        let mut out: Vec<u8> = Vec::new();
        let n = self.0.len();
        let mut i: usize = 0;
        while i < n
            invariant
                i <= n,
                n == self.list().len(),
                out@ == spec_emit_buy(self.list().take(i as int)),
            decreases n - i,
        {
            let code: u8 = match self.0[i] {
                BoosterType::NewHand => 66,
                BoosterType::FastMove => 70,
                BoosterType::Drill => 76,
                BoosterType::Teleports => 82,
                BoosterType::Cloning => 67,
                BoosterType::Spawn => 88,
            };
            out.push(code);
            proof {
                assert(self.list().take(i + 1).drop_last() =~= self.list().take(i as int));
                assert(self.list().take(i + 1).last() == self.list()[i as int]);
            }
            i += 1;
        }
        proof {
            assert(self.list().take(n as int) =~= self.list());
            lemma_emit_buy_ascii(self.list());
        }
        ascii_to_string(out)
    }
}

} // verus!
