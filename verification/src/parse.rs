//! Parsers for task descriptors, solutions, puzzle descriptors and buy
//! lists. Each grammar has a specification-level parser over byte
//! sequences; the executable parsers return exactly what those accept.
//!
//! Departures from the plain grammar, mirrored by the specification
//! parsers: a numeral whose value does not fit the target integer type is
//! rejected rather than wrapped, and a task whose room polygon has a
//! negative vertex coordinate is rejected, since the task's width and
//! height are derived from the vertex extent.

use vstd::prelude::*;
use vstd::string::*;

use crate::codec::{
    spec_booster_code, spec_digits, spec_emit_booster, spec_emit_booster_list, spec_emit_command,
    spec_emit_command_seq, spec_emit_commands, spec_emit_int, spec_emit_nat, spec_emit_point,
    spec_emit_point_list, spec_emit_poly_list, spec_emit_task,
};
use crate::geom::{Move, Point};
use crate::map::Polygon;
use crate::models::{Booster, BoosterType, Buy, Command, Commands, Puzzle, Task};

verus! {

/// ASCII decimal digit.
pub open spec fn is_digit(b: u8) -> bool {
    48 <= b <= 57
}

/// The index just past the run of digits starting at `i`.
pub open spec fn digits_end(s: Seq<u8>, i: int) -> int
    decreases s.len() - i,
{
    if 0 <= i < s.len() && is_digit(s[i]) {
        digits_end(s, i + 1)
    } else {
        i
    }
}

/// The value of the digit bytes in [i, j).
pub open spec fn digits_val(s: Seq<u8>, i: int, j: int) -> int
    decreases j - i,
{
    if i >= j {
        0
    } else {
        digits_val(s, i, j - 1) * 10 + (s[j - 1] - 48)
    }
}

/// `digits_end` lands after a digit run: everything before it is a digit
/// and it stops at the end or at a non-digit.
proof fn lemma_digits_end(s: Seq<u8>, i: int)
    requires
        0 <= i <= s.len(),
    ensures
        i <= digits_end(s, i) <= s.len(),
        forall|m: int| i <= m < digits_end(s, i) ==> is_digit(#[trigger] s[m]),
        digits_end(s, i) == s.len() || !is_digit(s[digits_end(s, i)]),
    decreases s.len() - i,
{
    if i < s.len() && is_digit(s[i]) {
        lemma_digits_end(s, i + 1);
    }
}

/// A maximal digit run determines `digits_end`.
proof fn lemma_digits_end_of(s: Seq<u8>, i: int, j: int)
    requires
        0 <= i <= j <= s.len(),
        forall|m: int| i <= m < j ==> is_digit(#[trigger] s[m]),
        j == s.len() || !is_digit(s[j]),
    ensures
        digits_end(s, i) == j,
    decreases j - i,
{
    if i < j {
        lemma_digits_end_of(s, i + 1, j);
    }
}

/// A digit run has a non-negative value.
proof fn lemma_digits_val_nonneg(s: Seq<u8>, i: int, j: int)
    requires
        forall|m: int| i <= m < j ==> is_digit(#[trigger] s[m]),
    ensures
        digits_val(s, i, j) >= 0,
    decreases j - i,
{
    if i < j {
        lemma_digits_val_nonneg(s, i, j - 1);
    }
}

/// A parsed integer: leading '-' then a non-empty digit run, rejected when
/// the magnitude exceeds `i32::MAX`. Returns the value and the index after
/// the numeral.
pub open spec fn spec_parse_int(s: Seq<u8>, i: int) -> Option<(int, int)> {
    let neg = 0 <= i < s.len() && s[i] == 45;
    let k = if neg {
        i + 1
    } else {
        i
    };
    let e = digits_end(s, k);
    if e == k {
        None
    } else if digits_val(s, k, e) > i32::MAX {
        None
    } else if neg {
        Some((-digits_val(s, k, e), e))
    } else {
        Some((digits_val(s, k, e), e))
    }
}

/// "(x,y)": a point and the index after the closing parenthesis.
pub open spec fn spec_parse_point(s: Seq<u8>, i: int) -> Option<(Point, int)> {
    if !(0 <= i < s.len() && s[i] == 40) {
        None
    } else {
        match spec_parse_int(s, i + 1) {
            None => None,
            Some((x, j)) => {
                if !(j < s.len() && s[j] == 44) {
                    None
                } else {
                    match spec_parse_int(s, j + 1) {
                        None => None,
                        Some((y, j2)) => {
                            if !(j2 < s.len() && s[j2] == 41) {
                                None
                            } else {
                                Some((Point { x: x as i32, y: y as i32 }, j2 + 1))
                            }
                        },
                    }
                }
            },
        }
    }
}

/// POINT (',' POINT)*: at least one point; stops before the first
/// character after a point that is not ','.
pub open spec fn spec_parse_point_list(s: Seq<u8>, i: int, fuel: nat) -> Option<(Seq<Point>, int)>
    decreases fuel,
{
    match spec_parse_point(s, i) {
        None => None,
        Some((p, j)) => {
            if j < s.len() && s[j] == 44 {
                if fuel == 0 {
                    None
                } else {
                    match spec_parse_point_list(s, j + 1, (fuel - 1) as nat) {
                        None => None,
                        Some((ps, e)) => Some((seq![p] + ps, e)),
                    }
                }
            } else {
                Some((seq![p], j))
            }
        },
    }
}

/// MAP (';' MAP)* '#': obstacle polygons, consuming the terminating '#'.
pub open spec fn spec_parse_obstacle_list(s: Seq<u8>, i: int, fuel: nat) -> Option<
    (Seq<Seq<Point>>, int),
>
    decreases fuel,
{
    match spec_parse_point_list(s, i, s.len() as nat) {
        None => None,
        Some((m, j)) => {
            if j < s.len() && s[j] == 35 {
                Some((seq![m], j + 1))
            } else if j < s.len() && s[j] == 59 {
                if fuel == 0 {
                    None
                } else {
                    match spec_parse_obstacle_list(s, j + 1, (fuel - 1) as nat) {
                        None => None,
                        Some((ms, e)) => Some((seq![m] + ms, e)),
                    }
                }
            } else {
                None
            }
        },
    }
}

/// The obstacles section including its terminating '#': either empty
/// (immediately '#') or a ';'-separated polygon list.
pub open spec fn spec_parse_obstacles(s: Seq<u8>, i: int) -> Option<(Seq<Seq<Point>>, int)> {
    if 0 <= i < s.len() && s[i] == 35 {
        Some((Seq::empty(), i + 1))
    } else {
        spec_parse_obstacle_list(s, i, s.len() as nat)
    }
}

/// The booster kind encoded by a letter.
pub open spec fn spec_booster_of(b: u8) -> Option<BoosterType> {
    if b == 66 {
        Some(BoosterType::NewHand)
    } else if b == 70 {
        Some(BoosterType::FastMove)
    } else if b == 76 {
        Some(BoosterType::Drill)
    } else if b == 88 {
        Some(BoosterType::Spawn)
    } else if b == 82 {
        Some(BoosterType::Teleports)
    } else if b == 67 {
        Some(BoosterType::Cloning)
    } else {
        None
    }
}

/// BOOSTER (';' BOOSTER)* to the end of the input; possibly empty.
pub open spec fn spec_parse_boosters(s: Seq<u8>, i: int, fuel: nat) -> Option<(Seq<Booster>, int)>
    decreases fuel,
{
    if i >= s.len() {
        Some((Seq::empty(), i))
    } else {
        match spec_booster_of(s[i]) {
            None => None,
            Some(k) => match spec_parse_point(s, i + 1) {
                None => None,
                Some((p, j)) => {
                    if j >= s.len() {
                        Some((seq![Booster { kind: k, point: p }], j))
                    } else if s[j] == 59 {
                        if fuel == 0 {
                            None
                        } else {
                            match spec_parse_boosters(s, j + 1, (fuel - 1) as nat) {
                                None => None,
                                Some((bs, e)) => Some(
                                    (seq![Booster { kind: k, point: p }] + bs, e),
                                ),
                            }
                        }
                    } else {
                        None
                    }
                },
            },
        }
    }
}

/// A full task descriptor: MAP '#' POINT '#' OBSTACLES '#' BOOSTERS.
pub open spec fn spec_parse_task(s: Seq<u8>) -> Option<
    (Seq<Point>, Point, Seq<Seq<Point>>, Seq<Booster>),
> {
    match spec_parse_point_list(s, 0, s.len() as nat) {
        None => None,
        Some((mp, i)) => {
            if !(i < s.len() && s[i] == 35) {
                None
            } else {
                match spec_parse_point(s, i + 1) {
                    None => None,
                    Some((ini, j)) => {
                        if !(j < s.len() && s[j] == 35) {
                            None
                        } else {
                            match spec_parse_obstacles(s, j + 1) {
                                None => None,
                                Some((obs, k)) => match spec_parse_boosters(
                                    s,
                                    k,
                                    s.len() as nat,
                                ) {
                                    None => None,
                                    Some((bs, _e)) => Some((mp, ini, obs, bs)),
                                },
                            }
                        }
                    },
                }
            }
        },
    }
}

/// A command whose code is a single letter.
pub open spec fn spec_single_command(b: u8) -> Option<Command> {
    if b == 87 {
        Some(Command::Move(Move::MoveUp))
    } else if b == 83 {
        Some(Command::Move(Move::MoveDown))
    } else if b == 65 {
        Some(Command::Move(Move::MoveLeft))
    } else if b == 68 {
        Some(Command::Move(Move::MoveRight))
    } else if b == 90 {
        Some(Command::Move(Move::Noop))
    } else if b == 69 {
        Some(Command::Move(Move::TurnRight))
    } else if b == 81 {
        Some(Command::Move(Move::TurnLeft))
    } else if b == 70 {
        Some(Command::FastWheel)
    } else if b == 76 {
        Some(Command::Drill)
    } else if b == 82 {
        Some(Command::ResetBeacon)
    } else if b == 67 {
        Some(Command::Cloning)
    } else {
        None
    }
}

/// One robot's command sequence, up to '#' or the end of the input.
pub open spec fn spec_parse_cmd_seq(s: Seq<u8>, i: int, fuel: nat) -> Option<(Seq<Command>, int)>
    decreases fuel,
{
    if i >= s.len() || s[i] == 35 {
        Some((Seq::empty(), i))
    } else {
        let step: Option<(Command, int)> = if s[i] == 66 {
            match spec_parse_point(s, i + 1) {
                None => None,
                Some((p, j)) => Some((Command::NewHand(p), j)),
            }
        } else if s[i] == 84 {
            match spec_parse_point(s, i + 1) {
                None => None,
                Some((p, j)) => Some((Command::ShiftBeacon(p), j)),
            }
        } else {
            match spec_single_command(s[i]) {
                None => None,
                Some(c) => Some((c, i + 1)),
            }
        };
        match step {
            None => None,
            Some((c, j)) => {
                if fuel == 0 {
                    None
                } else {
                    match spec_parse_cmd_seq(s, j, (fuel - 1) as nat) {
                        None => None,
                        Some((cs, e)) => Some((seq![c] + cs, e)),
                    }
                }
            },
        }
    }
}

/// All robots' sequences, separated by '#'.
pub open spec fn spec_parse_commands(s: Seq<u8>, i: int, fuel: nat) -> Option<Seq<Seq<Command>>>
    decreases fuel,
{
    match spec_parse_cmd_seq(s, i, s.len() as nat) {
        None => None,
        Some((cs, j)) => {
            if j < s.len() {
                if fuel == 0 {
                    None
                } else {
                    match spec_parse_commands(s, j + 1, (fuel - 1) as nat) {
                        None => None,
                        Some(rest) => Some(seq![cs] + rest),
                    }
                }
            } else {
                Some(seq![cs])
            }
        },
    }
}

/// A buy list: booster letters to the end of the input.
pub open spec fn spec_parse_buy(s: Seq<u8>, i: int) -> Option<Seq<BoosterType>>
    decreases s.len() - i,
{
    if i >= s.len() {
        Some(Seq::empty())
    } else {
        match spec_booster_of(s[i]) {
            None => None,
            Some(k) => {
                if 0 <= i < s.len() {
                    match spec_parse_buy(s, i + 1) {
                        None => None,
                        Some(ks) => Some(seq![k] + ks),
                    }
                } else {
                    None
                }
            },
        }
    }
}

/// A counter of a puzzle header: a possibly empty digit run terminated by
/// the given separator, rejected when the value exceeds `usize::MAX`.
pub open spec fn spec_parse_count(s: Seq<u8>, i: int, term: u8) -> Option<(int, int)> {
    let e = digits_end(s, i);
    if digits_val(s, i, e) > usize::MAX {
        None
    } else if e < s.len() && s[e] == term {
        Some((digits_val(s, i, e), e + 1))
    } else {
        None
    }
}

/// The eleven counters of a puzzle header, the last terminated by '#'.
pub open spec fn spec_parse_puzzle_counts(s: Seq<u8>) -> Option<(Seq<int>, int)> {
    match spec_parse_count(s, 0, 44) {
        None => None,
        Some((n0, i0)) => match spec_parse_count(s, i0, 44) {
            None => None,
            Some((n1, i1)) => match spec_parse_count(s, i1, 44) {
                None => None,
                Some((n2, i2)) => match spec_parse_count(s, i2, 44) {
                    None => None,
                    Some((n3, i3)) => match spec_parse_count(s, i3, 44) {
                        None => None,
                        Some((n4, i4)) => match spec_parse_count(s, i4, 44) {
                            None => None,
                            Some((n5, i5)) => match spec_parse_count(s, i5, 44) {
                                None => None,
                                Some((n6, i6)) => match spec_parse_count(s, i6, 44) {
                                    None => None,
                                    Some((n7, i7)) => match spec_parse_count(s, i7, 44) {
                                        None => None,
                                        Some((n8, i8)) => match spec_parse_count(s, i8, 44) {
                                            None => None,
                                            Some((n9, i9)) => match spec_parse_count(s, i9, 35) {
                                                None => None,
                                                Some((n10, i10)) => Some(
                                                    (
                                                        seq![
                                                            n0,
                                                            n1,
                                                            n2,
                                                            n3,
                                                            n4,
                                                            n5,
                                                            n6,
                                                            n7,
                                                            n8,
                                                            n9,
                                                            n10,
                                                        ],
                                                        i10,
                                                    ),
                                                ),
                                            },
                                        },
                                    },
                                },
                            },
                        },
                    },
                },
            },
        },
    }
}

/// A puzzle descriptor: counters '#' includes '#' excludes.
pub open spec fn spec_parse_puzzle(s: Seq<u8>) -> Option<(Seq<int>, Seq<Point>, Seq<Point>)> {
    match spec_parse_puzzle_counts(s) {
        None => None,
        Some((ns, i)) => match spec_parse_point_list(s, i, s.len() as nat) {
            None => None,
            Some((inc, j)) => {
                if !(j < s.len() && s[j] == 35) {
                    None
                } else {
                    match spec_parse_point_list(s, j + 1, s.len() as nat) {
                        None => None,
                        Some((exc, _e)) => Some((ns, inc, exc)),
                    }
                }
            },
        },
    }
}

/// Parse a (possibly signed) numeral at `i`; exactly `spec_parse_int`.
fn parse_int(s: &[u8], i: usize) -> (r: Option<(i32, usize)>)
    requires
        i <= s@.len(),
    ensures
        match (r, spec_parse_int(s@, i as int)) {
            (Some((v, j)), Some((v2, j2))) => v == v2 && j == j2,
            (None, None) => true,
            _ => false,
        },
{
    let n = s.len();
    let mut k = i;
    let mut neg = false;
    if k < n && s[k] == 45 {
        neg = true;
        k = k + 1;
    }
    let start = k;
    let mut val: i64 = 0;
    let mut overflow = false;
    while k < n && 48 <= s[k] && s[k] <= 57
        invariant
            start <= k <= n,
            n == s@.len(),
            forall|m: int| start <= m < k ==> is_digit(#[trigger] s@[m]),
            !overflow ==> val == digits_val(s@, start as int, k as int) && 0 <= val <= i32::MAX,
            overflow ==> digits_val(s@, start as int, k as int) > i32::MAX,
        decreases n - k,
    {
        let d = (s[k] - 48) as i64;
        proof {
            lemma_digits_val_nonneg(s@, start as int, k as int);
        }
        if !overflow {
            let nv = val * 10 + d;
            if nv > i32::MAX as i64 {
                overflow = true;
            } else {
                val = nv;
            }
        }
        k = k + 1;
    }
    proof {
        lemma_digits_end_of(s@, start as int, k as int);
        lemma_digits_val_nonneg(s@, start as int, k as int);
    }
    if k == start {
        return None;
    }
    if overflow {
        return None;
    }
    if neg {
        Some((-(val as i32), k))
    } else {
        Some((val as i32, k))
    }
}

/// Parse "(x,y)"; exactly `spec_parse_point`.
fn parse_point(s: &[u8], i: usize) -> (r: Option<(Point, usize)>)
    requires
        i <= s@.len(),
    ensures
        match (r, spec_parse_point(s@, i as int)) {
            (Some((p, j)), Some((p2, j2))) => p == p2 && j == j2,
            (None, None) => true,
            _ => false,
        },
        r matches Some((p, j)) ==> i < j <= s@.len(),
{
    let n = s.len();
    if !(i < n && s[i] == 40) {
        return None;
    }
    match parse_int(s, i + 1) {
        None => None,
        Some((x, j)) => {
            proof {
                let e = spec_parse_int(s@, i + 1);
                lemma_digits_end(s@, if s@[i + 1] == 45 {
                    i + 2
                } else {
                    i + 1
                });
            }
            if !(j < n && s[j] == 44) {
                return None;
            }
            match parse_int(s, j + 1) {
                None => None,
                Some((y, j2)) => {
                    proof {
                        lemma_digits_end(s@, if s@[j + 1] == 45 {
                            j + 2
                        } else {
                            j + 1
                        });
                    }
                    if !(j2 < n && s[j2] == 41) {
                        return None;
                    }
                    Some((Point { x, y }, j2 + 1))
                },
            }
        },
    }
}

/// Parse a ','-separated point list; exactly `spec_parse_point_list`.
fn parse_point_list(s: &[u8], i: usize, fuel: usize) -> (r: Option<(Vec<Point>, usize)>)
    requires
        i <= s@.len(),
    ensures
        match (r, spec_parse_point_list(s@, i as int, fuel as nat)) {
            (Some((ps, j)), Some((ps2, j2))) => ps@ == ps2 && j == j2,
            (None, None) => true,
            _ => false,
        },
        r matches Some((ps, j)) ==> i < j <= s@.len() && ps@.len() > 0,
    decreases fuel,
{
    match parse_point(s, i) {
        None => None,
        Some((p, j)) => {
            if j < s.len() && s[j] == 44 {
                if fuel == 0 {
                    None
                } else {
                    match parse_point_list(s, j + 1, fuel - 1) {
                        None => None,
                        Some((ps, e)) => {
                            let mut out: Vec<Point> = Vec::new();
                            out.push(p);
                            let mut rest = ps;
                            out.append(&mut rest);
                            proof {
                                let sp = spec_parse_point_list(
                                    s@,
                                    j + 1,
                                    (fuel - 1) as nat,
                                );
                                assert(out@ =~= seq![p] + sp.unwrap().0);
                            }
                            Some((out, e))
                        },
                    }
                }
            } else {
                let mut out: Vec<Point> = Vec::new();
                out.push(p);
                proof {
                    assert(out@ =~= seq![p]);
                }
                Some((out, j))
            }
        },
    }
}

/// Parse the obstacles section; exactly `spec_parse_obstacle_list`.
fn parse_obstacle_list(s: &[u8], i: usize, fuel: usize) -> (r: Option<(Vec<Polygon>, usize)>)
    requires
        i <= s@.len(),
    ensures
        match (r, spec_parse_obstacle_list(s@, i as int, fuel as nat)) {
            (Some((ms, j)), Some((ms2, j2))) => ms@.map_values(|m: Polygon| m.0@) == ms2 && j == j2,
            (None, None) => true,
            _ => false,
        },
        r matches Some((ms, j)) ==> j <= s@.len(),
    decreases fuel,
{
    let n = s.len();
    proof {
        assert(n as nat == s@.len() as nat);
    }
    match parse_point_list(s, i, n) {
        None => None,
        Some((m, j)) => {
            if j < n && s[j] == 35 {
                let mut out: Vec<Polygon> = Vec::new();
                out.push(Polygon(m));
                proof {
                    assert(out@.map_values(|m: Polygon| m.0@) =~= seq![
                        spec_parse_point_list(s@, i as int, s@.len() as nat).unwrap().0,
                    ]);
                }
                Some((out, j + 1))
            } else if j < n && s[j] == 59 {
                if fuel == 0 {
                    None
                } else {
                    match parse_obstacle_list(s, j + 1, fuel - 1) {
                        None => None,
                        Some((ms, e)) => {
                            let mut out: Vec<Polygon> = Vec::new();
                            out.push(Polygon(m));
                            let mut rest = ms;
                            out.append(&mut rest);
                            proof {
                                let hd = spec_parse_point_list(
                                    s@,
                                    i as int,
                                    s@.len() as nat,
                                ).unwrap().0;
                                let tl = spec_parse_obstacle_list(
                                    s@,
                                    j + 1,
                                    (fuel - 1) as nat,
                                ).unwrap().0;
                                assert(out@.map_values(|m: Polygon| m.0@) =~= seq![hd] + tl);
                            }
                            Some((out, e))
                        },
                    }
                }
            } else {
                None
            }
        },
    }
}

/// Parse the boosters section; exactly `spec_parse_boosters`.
fn parse_boosters(s: &[u8], i: usize, fuel: usize) -> (r: Option<(Vec<Booster>, usize)>)
    requires
        i <= s@.len(),
    ensures
        match (r, spec_parse_boosters(s@, i as int, fuel as nat)) {
            (Some((bs, j)), Some((bs2, j2))) => bs@ == bs2 && j == j2,
            (None, None) => true,
            _ => false,
        },
    decreases fuel,
{
    let n = s.len();
    if i >= n {
        let out: Vec<Booster> = Vec::new();
        proof {
            assert(out@ =~= Seq::<Booster>::empty());
        }
        return Some((out, i));
    }
    let kind = match booster_of(s[i]) {
        None => {
            return None;
        },
        Some(k) => k,
    };
    match parse_point(s, i + 1) {
        None => None,
        Some((p, j)) => {
            if j >= n {
                let mut out: Vec<Booster> = Vec::new();
                out.push(Booster { kind, point: p });
                proof {
                    assert(out@ =~= seq![Booster { kind, point: p }]);
                }
                Some((out, j))
            } else if s[j] == 59 {
                if fuel == 0 {
                    None
                } else {
                    match parse_boosters(s, j + 1, fuel - 1) {
                        None => None,
                        Some((bs, e)) => {
                            let mut out: Vec<Booster> = Vec::new();
                            out.push(Booster { kind, point: p });
                            let mut rest = bs;
                            out.append(&mut rest);
                            proof {
                                let tl = spec_parse_boosters(
                                    s@,
                                    j + 1,
                                    (fuel - 1) as nat,
                                ).unwrap().0;
                                assert(out@ =~= seq![Booster { kind, point: p }] + tl);
                            }
                            Some((out, e))
                        },
                    }
                }
            } else {
                None
            }
        },
    }
}

/// The booster kind of a letter; exactly `spec_booster_of`.
fn booster_of(b: u8) -> (r: Option<BoosterType>)
    ensures
        r == spec_booster_of(b),
{
    if b == 66 {
        Some(BoosterType::NewHand)
    } else if b == 70 {
        Some(BoosterType::FastMove)
    } else if b == 76 {
        Some(BoosterType::Drill)
    } else if b == 88 {
        Some(BoosterType::Spawn)
    } else if b == 82 {
        Some(BoosterType::Teleports)
    } else if b == 67 {
        Some(BoosterType::Cloning)
    } else {
        None
    }
}

/// The returned task holds exactly the parsed components, its id is
/// empty, the room polygon is non-empty with non-negative vertex
/// coordinates, and width and height are one more than the largest
/// vertex x and y.
pub open spec fn task_fields_ok(
    t: Task,
    mp: Seq<Point>,
    ini: Point,
    obs: Seq<Seq<Point>>,
    bs: Seq<Booster>,
) -> bool {
    &&& t.map.vertices() == mp
    &&& t.initial == ini
    &&& t.obstacles@.map_values(|m: Polygon| m.0@) == obs
    &&& t.boosters@ == bs
    &&& t.id@ == Seq::<char>::empty()
    &&& mp.len() > 0
    &&& forall|i: int| 0 <= i < mp.len() ==> 0 <= (#[trigger] mp[i]).x && 0 <= mp[i].y
    &&& forall|i: int| 0 <= i < mp.len() ==> (#[trigger] mp[i]).x < t.width
    &&& exists|i: int| 0 <= i < mp.len() && t.width == (#[trigger] mp[i]).x + 1
    &&& forall|i: int| 0 <= i < mp.len() ==> (#[trigger] mp[i]).y < t.height
    &&& exists|i: int| 0 <= i < mp.len() && t.height == (#[trigger] mp[i]).y + 1
}

/// Some vertex has a negative coordinate.
pub open spec fn has_negative_vertex(mp: Seq<Point>) -> bool {
    exists|i: int| 0 <= i < mp.len() && ((#[trigger] mp[i]).x < 0 || mp[i].y < 0)
}

/// Parse a full task descriptor. Succeeds exactly when the grammar
/// matches and every vertex coordinate of the room polygon is
/// non-negative; width and height are one more than the largest vertex x
/// and y.
#[verifier::loop_isolation(false)]
pub fn read_task(s: &str) -> (r: Option<Task>)
    ensures
        ({
            let pr = spec_parse_task(s.spec_bytes());
            match (r, pr) {
                (Some(t), Some((mp, ini, obs, bs))) => task_fields_ok(t, mp, ini, obs, bs),
                (None, Some((mp, ini, obs, bs))) => has_negative_vertex(mp),
                (None, None) => true,
                (Some(_), None) => false,
            }
        }),
{
    let b = s.as_bytes();
    let n = b.len();
    let (mp, i) = match parse_point_list(b, 0, n) {
        None => {
            return None;
        },
        Some(v) => v,
    };
    if !(i < n && b[i] == 35) {
        return None;
    }
    let (ini, j) = match parse_point(b, i + 1) {
        None => {
            return None;
        },
        Some(v) => v,
    };
    if !(j < n && b[j] == 35) {
        return None;
    }
    let obs: Vec<Polygon>;
    let k: usize;
    if j + 1 < n && b[j + 1] == 35 {
        obs = Vec::new();
        k = j + 2;
        proof {
            assert(obs@.map_values(|m: Polygon| m.0@) =~= Seq::<Seq<Point>>::empty());
        }
    } else {
        match parse_obstacle_list(b, j + 1, n) {
            None => {
                return None;
            },
            Some(v) => {
                obs = v.0;
                k = v.1;
            },
        }
    }
    let (bs, _e) = match parse_boosters(b, k, n) {
        None => {
            return None;
        },
        Some(v) => v,
    };
    proof {
        let sb = s.spec_bytes();
        assert(b@ == sb);
        assert(spec_parse_point_list(sb, 0, sb.len() as nat) == Some((mp@, i as int)));
        assert(spec_parse_point(sb, i + 1) == Some((ini, j as int)));
        assert(spec_parse_obstacles(sb, j + 1) == Some(
            (obs@.map_values(|m: Polygon| m.0@), k as int),
        ));
        assert(spec_parse_boosters(sb, k as int, sb.len() as nat) == Some((bs@, _e as int)));
        assert(spec_parse_task(sb) == Some(
            (mp@, ini, obs@.map_values(|m: Polygon| m.0@), bs@),
        ));
    }
    // Reject rooms with negative vertex coordinates: the grid extent is
    // derived from the vertices.
    let mut q: usize = 0;
    while q < mp.len()
        invariant
            q <= mp@.len(),
            forall|t: int| 0 <= t < q ==> 0 <= (#[trigger] mp@[t]).x && 0 <= mp@[t].y,
        decreases mp@.len() - q,
    {
        if mp[q].x < 0 || mp[q].y < 0 {
            proof {
                assert(has_negative_vertex(mp@));
            }
            return None;
        }
        q += 1;
    }
    let ghost mps = mp@;
    let map = Polygon(mp);
    let width = map.compute_width();
    let height = map.compute_height();
    let t = Task {
        id: String::new(),
        width,
        height,
        map,
        initial: ini,
        obstacles: obs,
        boosters: bs,
    };
    proof {
        assert(task_fields_ok(t, mps, ini, obs@.map_values(|m: Polygon| m.0@), bs@));
    }
    Some(t)
}

/// Parse one robot's command sequence; exactly `spec_parse_cmd_seq`.
fn parse_cmd_seq(s: &[u8], i: usize, fuel: usize) -> (r: Option<(Vec<Command>, usize)>)
    requires
        i <= s@.len(),
    ensures
        match (r, spec_parse_cmd_seq(s@, i as int, fuel as nat)) {
            (Some((cs, j)), Some((cs2, j2))) => cs@ == cs2 && j == j2,
            (None, None) => true,
            _ => false,
        },
        r matches Some((cs, j)) ==> i <= j <= s@.len(),
    decreases fuel,
{
    let n = s.len();
    if i >= n || s[i] == 35 {
        let out: Vec<Command> = Vec::new();
        proof {
            assert(out@ =~= Seq::<Command>::empty());
        }
        return Some((out, i));
    }
    let step: Option<(Command, usize)> = if s[i] == 66 {
        match parse_point(s, i + 1) {
            None => None,
            Some((p, j)) => Some((Command::NewHand(p), j)),
        }
    } else if s[i] == 84 {
        match parse_point(s, i + 1) {
            None => None,
            Some((p, j)) => Some((Command::ShiftBeacon(p), j)),
        }
    } else {
        match single_command(s[i]) {
            None => None,
            Some(c) => Some((c, i + 1)),
        }
    };
    match step {
        None => None,
        Some((c, j)) => {
            if fuel == 0 {
                None
            } else {
                match parse_cmd_seq(s, j, fuel - 1) {
                    None => None,
                    Some((cs, e)) => {
                        let mut out: Vec<Command> = Vec::new();
                        out.push(c);
                        let mut rest = cs;
                        out.append(&mut rest);
                        proof {
                            let tl = spec_parse_cmd_seq(s@, j as int, (fuel - 1) as nat).unwrap().0;
                            assert(out@ =~= seq![c] + tl);
                        }
                        Some((out, e))
                    },
                }
            }
        },
    }
}

/// The command of a single-letter code; exactly `spec_single_command`.
fn single_command(b: u8) -> (r: Option<Command>)
    ensures
        r == spec_single_command(b),
{
    if b == 87 {
        Some(Command::Move(Move::MoveUp))
    } else if b == 83 {
        Some(Command::Move(Move::MoveDown))
    } else if b == 65 {
        Some(Command::Move(Move::MoveLeft))
    } else if b == 68 {
        Some(Command::Move(Move::MoveRight))
    } else if b == 90 {
        Some(Command::Move(Move::Noop))
    } else if b == 69 {
        Some(Command::Move(Move::TurnRight))
    } else if b == 81 {
        Some(Command::Move(Move::TurnLeft))
    } else if b == 70 {
        Some(Command::FastWheel)
    } else if b == 76 {
        Some(Command::Drill)
    } else if b == 82 {
        Some(Command::ResetBeacon)
    } else if b == 67 {
        Some(Command::Cloning)
    } else {
        None
    }
}

/// Parse the robot sequences of a solution; exactly `spec_parse_commands`.
fn parse_commands(s: &[u8], i: usize, fuel: usize) -> (r: Option<Vec<Vec<Command>>>)
    requires
        i <= s@.len(),
    ensures
        match (r, spec_parse_commands(s@, i as int, fuel as nat)) {
            (Some(cs), Some(cs2)) => cs@.map_values(|v: Vec<Command>| v@) == cs2 && cs@.len() > 0,
            (None, None) => true,
            _ => false,
        },
    decreases fuel,
{
    let n = s.len();
    match parse_cmd_seq(s, i, n) {
        None => None,
        Some((cs, j)) => {
            if j < n {
                if fuel == 0 {
                    None
                } else {
                    match parse_commands(s, j + 1, fuel - 1) {
                        None => None,
                        Some(rest) => {
                            let mut out: Vec<Vec<Command>> = Vec::new();
                            out.push(cs);
                            let mut rest2 = rest;
                            out.append(&mut rest2);
                            proof {
                                let hd = spec_parse_cmd_seq(
                                    s@,
                                    i as int,
                                    s@.len() as nat,
                                ).unwrap().0;
                                let tl = spec_parse_commands(
                                    s@,
                                    j + 1,
                                    (fuel - 1) as nat,
                                ).unwrap();
                                assert(out@.map_values(|v: Vec<Command>| v@) =~= seq![hd] + tl);
                            }
                            Some(out)
                        },
                    }
                }
            } else {
                let mut out: Vec<Vec<Command>> = Vec::new();
                out.push(cs);
                proof {
                    let hd = spec_parse_cmd_seq(s@, i as int, s@.len() as nat).unwrap().0;
                    assert(out@.map_values(|v: Vec<Command>| v@) =~= seq![hd]);
                }
                Some(out)
            }
        },
    }
}

/// Parse a solution text into per-robot command sequences.
pub fn read_commands(s: &str) -> (r: Option<Commands>)
    ensures
        ({
            let pr = spec_parse_commands(s.spec_bytes(), 0, s.spec_bytes().len() as nat);
            match (r, pr) {
                (Some(c), Some(cs2)) => c.seqs() == cs2 && c.wf(),
                (None, None) => true,
                _ => false,
            }
        }),
{
    let b = s.as_bytes();
    match parse_commands(b, 0, b.len()) {
        None => None,
        Some(cs) => Some(Commands::new(cs)),
    }
}

/// Parse a buy list.
#[verifier::loop_isolation(false)]
pub fn read_buy(s: &str) -> (r: Option<Buy>)
    ensures
        ({
            let pr = spec_parse_buy(s.spec_bytes(), 0);
            match (r, pr) {
                (Some(b), Some(ks)) => b.list() == ks,
                (None, None) => true,
                _ => false,
            }
        }),
{
    let b = s.as_bytes();
    let n = b.len();
    let mut out: Vec<BoosterType> = Vec::new();
    let mut i: usize = 0;
    while i < n
        invariant
            i <= n,
            n == b@.len(),
            out@.len() == i,
            forall|m: int|
                0 <= m < i ==> spec_booster_of(#[trigger] b@[m]) is Some && out@[m]
                    == spec_booster_of(b@[m]).unwrap(),
        decreases n - i,
    {
        match booster_of(b[i]) {
            None => {
                proof {
                    lemma_parse_buy_none(b@, 0, i as int);
                }
                return None;
            },
            Some(k) => {
                out.push(k);
            },
        }
        i += 1;
    }
    proof {
        lemma_parse_buy_val(b@, 0);
        assert(spec_parse_buy(b@, 0).unwrap() =~= out@);
    }
    Some(Buy(out))
}

/// When every position names a booster, the parse yields those kinds.
proof fn lemma_parse_buy_val(s: Seq<u8>, i: int)
    requires
        0 <= i <= s.len(),
        forall|m: int| i <= m < s.len() ==> spec_booster_of(#[trigger] s[m]) is Some,
    ensures
        spec_parse_buy(s, i) == Some(
            Seq::new((s.len() - i) as nat, |m: int| spec_booster_of(s[i + m]).unwrap()),
        ),
    decreases s.len() - i,
{
    if i >= s.len() {
        assert(Seq::new((s.len() - i) as nat, |m: int| spec_booster_of(s[i + m]).unwrap())
            =~= Seq::<BoosterType>::empty());
    } else {
        lemma_parse_buy_val(s, i + 1);
        let k = spec_booster_of(s[i]).unwrap();
        let tl = Seq::new((s.len() - i - 1) as nat, |m: int| spec_booster_of(s[i + 1 + m]).unwrap());
        assert(Seq::new((s.len() - i) as nat, |m: int| spec_booster_of(s[i + m]).unwrap())
            =~= seq![k] + tl);
    }
}

/// If some position fails to name a booster, the whole buy parse fails.
proof fn lemma_parse_buy_none(s: Seq<u8>, i: int, bad: int)
    requires
        0 <= i <= bad < s.len(),
        spec_booster_of(s[bad]) is None,
    ensures
        spec_parse_buy(s, i) is None,
    decreases bad - i,
{
    if i < bad {
        lemma_parse_buy_none(s, i + 1, bad);
    }
}

/// If every position names a booster, the whole buy parse succeeds.
proof fn lemma_parse_buy_some(s: Seq<u8>, i: int, n: int)
    requires
        0 <= i <= n == s.len(),
        forall|m: int| i <= m < n ==> spec_booster_of(#[trigger] s[m]) is Some,
    ensures
        spec_parse_buy(s, i) is Some,
    decreases n - i,
{
    if i < n {
        lemma_parse_buy_some(s, i + 1, n);
    }
}

/// Parse a counter; exactly `spec_parse_count`.
fn parse_count(s: &[u8], i: usize, term: u8) -> (r: Option<(usize, usize)>)
    requires
        i <= s@.len(),
    ensures
        match (r, spec_parse_count(s@, i as int, term)) {
            (Some((v, j)), Some((v2, j2))) => v == v2 && j == j2,
            (None, None) => true,
            _ => false,
        },
        r matches Some((v, j)) ==> i < j <= s@.len(),
{
    let n = s.len();
    let mut k = i;
    let mut val: u64 = 0;
    let mut overflow = false;
    while k < n && 48 <= s[k] && s[k] <= 57
        invariant
            i <= k <= n,
            n == s@.len(),
            forall|m: int| i <= m < k ==> is_digit(#[trigger] s@[m]),
            !overflow ==> val == digits_val(s@, i as int, k as int) && 0 <= val <= usize::MAX,
            overflow ==> digits_val(s@, i as int, k as int) > usize::MAX,
        decreases n - k,
    {
        let d = (s[k] - 48) as u64;
        proof {
            lemma_digits_val_nonneg(s@, i as int, k as int);
        }
        if !overflow {
            if val > (usize::MAX as u64 - d) / 10 {
                overflow = true;
                proof {
                    assert(digits_val(s@, i as int, k + 1) == digits_val(s@, i as int, k as int)
                        * 10 + d);
                    assert(val * 10 + d > usize::MAX) by (nonlinear_arith)
                        requires
                            val > (usize::MAX as u64 - d) / 10 && 0 <= d <= 9 && val >= 0,
                    ;
                }
            } else {
                proof {
                    assert(val * 10 + d <= usize::MAX) by (nonlinear_arith)
                        requires
                            val <= (usize::MAX as u64 - d) / 10 && 0 <= d <= 9 && val >= 0,
                    ;
                }
                val = val * 10 + d;
            }
        } else {
            proof {
                assert(digits_val(s@, i as int, k + 1) == digits_val(s@, i as int, k as int) * 10
                    + d);
                assert(digits_val(s@, i as int, k as int) * 10 + d > usize::MAX)
                    by (nonlinear_arith)
                    requires
                        digits_val(s@, i as int, k as int) > usize::MAX && d >= 0,
                ;
            }
        }
        k = k + 1;
    }
    proof {
        lemma_digits_end_of(s@, i as int, k as int);
    }
    if overflow {
        return None;
    }
    if k < n && s[k] == term {
        Some((val as usize, k + 1))
    } else {
        None
    }
}

/// Parse a puzzle descriptor: the eleven counters, the include points and
/// the exclude points.
pub fn read_puzzle(s: &str) -> (r: Option<Puzzle>)
    ensures
        ({
            let pr = spec_parse_puzzle(s.spec_bytes());
            match (r, pr) {
                (Some(p), Some((ns, inc, exc))) => {
                    &&& ns == seq![
                        p.block as int,
                        p.epoch as int,
                        p.max_length as int,
                        p.vertex_min as int,
                        p.vertex_max as int,
                        p.hand_count as int,
                        p.fast_count as int,
                        p.drill_count as int,
                        p.tele_count as int,
                        p.clone_count as int,
                        p.spawn_count as int,
                    ]
                    &&& p.includes@ == inc
                    &&& p.excludes@ == exc
                },
                (None, None) => true,
                _ => false,
            }
        }),
{
    let b = s.as_bytes();
    let n = b.len();
    let (block, i0) = match parse_count(b, 0, 44) {
        None => {
            return None;
        },
        Some(v) => v,
    };
    let (epoch, i1) = match parse_count(b, i0, 44) {
        None => {
            return None;
        },
        Some(v) => v,
    };
    let (max_length, i2) = match parse_count(b, i1, 44) {
        None => {
            return None;
        },
        Some(v) => v,
    };
    let (vertex_min, i3) = match parse_count(b, i2, 44) {
        None => {
            return None;
        },
        Some(v) => v,
    };
    let (vertex_max, i4) = match parse_count(b, i3, 44) {
        None => {
            return None;
        },
        Some(v) => v,
    };
    let (hand_count, i5) = match parse_count(b, i4, 44) {
        None => {
            return None;
        },
        Some(v) => v,
    };
    let (fast_count, i6) = match parse_count(b, i5, 44) {
        None => {
            return None;
        },
        Some(v) => v,
    };
    let (drill_count, i7) = match parse_count(b, i6, 44) {
        None => {
            return None;
        },
        Some(v) => v,
    };
    let (tele_count, i8) = match parse_count(b, i7, 44) {
        None => {
            return None;
        },
        Some(v) => v,
    };
    let (clone_count, i9) = match parse_count(b, i8, 44) {
        None => {
            return None;
        },
        Some(v) => v,
    };
    let (spawn_count, i10) = match parse_count(b, i9, 35) {
        None => {
            return None;
        },
        Some(v) => v,
    };
    let (includes, j) = match parse_point_list(b, i10, n) {
        None => {
            return None;
        },
        Some(v) => v,
    };
    if !(j < n && b[j] == 35) {
        return None;
    }
    let (excludes, _e) = match parse_point_list(b, j + 1, n) {
        None => {
            return None;
        },
        Some(v) => v,
    };
    Some(
        Puzzle {
            block,
            epoch,
            max_length,
            vertex_min,
            vertex_max,
            hand_count,
            fast_count,
            drill_count,
            tele_count,
            clone_count,
            spawn_count,
            includes,
            excludes,
        },
    )
}

/// A named task input: the problem id and its parsed task.
pub struct Input {
    pub id: String,
    pub task: Task,
}

impl Input {
    /// Build an input from a descriptor file name "prob-NNN.desc" and its
    /// parsed task; the id is the NNN part.
    pub fn new(input_file: &str, task: Task) -> (r: Input)
        requires
            input_file@.len() >= 8,
            vstd::string::is_ascii(input_file),
        ensures
            r.id@ == input_file@.subrange(5, 8),
            r.task == task,
    {
        let id = input_file.substring_ascii(5, 8);
        Input { id: String::from_str(id), task }
    }

    /// The solution file name "prob-NNN.sol" for this input.
    pub fn output_file_name(&self) -> (r: String)
        ensures
            r@ == "prob-"@ + self.id@ + ".sol"@,
    {
        let mut out = String::from_str("prob-");
        out.append(self.id.as_str());
        out.append(".sol");
        out
    }

    /// The buy file name "prob-NNN.buy" for this input.
    pub fn buy_file_name(&self) -> (r: String)
        ensures
            r@ == "prob-"@ + self.id@ + ".buy"@,
    {
        let mut out = String::from_str("prob-");
        out.append(self.id.as_str());
        out.append(".buy");
        out
    }
}


/// The value of a digit window equals the value of the digits themselves.
proof fn lemma_digits_val_window(s: Seq<u8>, a: int, d: Seq<u8>)
    requires
        0 <= a,
        a + d.len() <= s.len(),
        s.subrange(a, a + d.len()) == d,
    ensures
        digits_val(s, a, a + d.len()) == digits_val(d, 0, d.len() as int),
    decreases d.len(),
{
    if d.len() > 0 {
        assert(s.subrange(a, a + d.len() - 1) =~= d.drop_last());
        lemma_digits_val_window(s, a, d.drop_last());
        assert(d.subrange(0, d.len() - 1) =~= d.drop_last());
        lemma_digits_val_window(d, 0, d.drop_last());
        assert(s[a + d.len() - 1] == d[d.len() - 1]);
    }
}

/// The numeral of `n` evaluates back to `n`, consists of digits, and has
/// no leading zero.
proof fn lemma_digits_value(n: int)
    requires
        n >= 0,
    ensures
        digits_val(spec_digits(n), 0, spec_digits(n).len() as int) == n,
        forall|i: int| 0 <= i < spec_digits(n).len() ==> is_digit(#[trigger] spec_digits(n)[i]),
        n > 0 ==> spec_digits(n).len() > 0,
    decreases n,
{
    let d = spec_digits(n);
    if n > 0 {
        lemma_digits_value(n / 10);
        let dp = spec_digits(n / 10);
        assert(d == dp.push((n % 10 + 48) as u8));
        assert(d.subrange(0, d.len() - 1) =~= dp);
        lemma_digits_val_window(d, 0, dp);
        assert(digits_val(d, 0, d.len() as int) == digits_val(d, 0, d.len() - 1) * 10 + (d[d.len()
            - 1] - 48));
        assert forall|i: int| 0 <= i < d.len() implies is_digit(#[trigger] d[i]) by {
            if i < d.len() - 1 {
                assert(d[i] == dp[i]);
            }
        }
    }
}

/// Parsing an emitted integer numeral from position `i` yields the value
/// back, provided the numeral is followed by a non-digit or the end.
proof fn lemma_parse_emit_int(s: Seq<u8>, i: int, v: int)
    requires
        i32::MIN < v <= i32::MAX,
        0 <= i,
        i + spec_emit_int(v).len() <= s.len(),
        s.subrange(i, i + spec_emit_int(v).len()) == spec_emit_int(v),
        i + spec_emit_int(v).len() == s.len() || !is_digit(s[i + spec_emit_int(v).len()]),
    ensures
        spec_parse_int(s, i) == Some((v, i + spec_emit_int(v).len())),
{
    let e = spec_emit_int(v);
    let el = e.len() as int;
    if v < 0 {
        let d = spec_digits(-v);
        lemma_digits_value(-v);
        assert(-v > 0);
        assert(d.len() > 0);
        assert(e == seq![45u8] + spec_emit_nat(-v));
        assert(spec_emit_nat(-v) == d);
        assert(s[i] == e[0]);
        assert(e[0] == 45);
        assert(s.subrange(i + 1, i + el) =~= d) by {
            assert forall|m: int| 0 <= m < el - 1 implies s.subrange(i + 1, i + el)[m] == d[m] by {
                assert(s[i + 1 + m] == e[1 + m]);
                assert(e[1 + m] == d[m]);
            }
        }
        assert forall|m: int| i + 1 <= m < i + el implies is_digit(#[trigger] s[m]) by {
            assert(s[m] == d[m - (i + 1)]);
        }
        lemma_digits_end_of(s, i + 1, i + el);
        lemma_digits_val_window(s, i + 1, d);
    } else if v == 0 {
        assert(spec_emit_nat(0) =~= seq![48u8]);
        assert(e == spec_emit_nat(0));
        assert(e.len() == 1);
        assert(s[i] == e[0]);
        assert(e[0] == 48);
        assert(s[i] == 48);
        assert(s[i] != 45);
        lemma_digits_end_of(s, i, i + 1);
        assert(digits_val(s, i, i + 1) == digits_val(s, i, i) * 10 + (s[i] - 48));
    } else {
        let d = spec_digits(v);
        lemma_digits_value(v);
        assert(e == d);
        assert(s.subrange(i, i + el) =~= d);
        assert forall|m: int| i <= m < i + el implies is_digit(#[trigger] s[m]) by {
            assert(s[m] == d[m - i]);
        }
        assert(d.len() > 0);
        assert(s[i] == d[0]);
        assert(is_digit(s[i]));
        assert(s[i] != 45);
        lemma_digits_end_of(s, i, i + el);
        lemma_digits_val_window(s, i, d);
    }
}

/// Parsing an emitted point from position `i` yields the point back.
proof fn lemma_parse_emit_point(s: Seq<u8>, i: int, p: Point)
    requires
        p.x > i32::MIN,
        p.y > i32::MIN,
        0 <= i,
        i + spec_emit_point(p).len() <= s.len(),
        s.subrange(i, i + spec_emit_point(p).len()) == spec_emit_point(p),
    ensures
        spec_parse_point(s, i) == Some((p, i + spec_emit_point(p).len())),
{
    let ex = spec_emit_int(p.x as int);
    let ey = spec_emit_int(p.y as int);
    let ep = spec_emit_point(p);
    let xl = ex.len() as int;
    let yl = ey.len() as int;
    assert(ep =~= seq![40u8] + ex + seq![44u8] + ey + seq![41u8]);
    assert(s[i] == ep[0]);
    assert(ep[0] == 40);
    assert(s.subrange(i + 1, i + 1 + xl) =~= ex) by {
        assert forall|m: int| 0 <= m < xl implies s.subrange(i + 1, i + 1 + xl)[m] == ex[m] by {
            assert(s[i + 1 + m] == ep[1 + m]);
            assert(ep[1 + m] == ex[m]);
        }
    }
    assert(s[i + 1 + xl] == ep[1 + xl]);
    assert(ep[1 + xl] == 44);
    lemma_parse_emit_int(s, i + 1, p.x as int);
    assert(spec_parse_int(s, i + 1) == Some((p.x as int, i + 1 + xl)));
    assert(s.subrange(i + 2 + xl, i + 2 + xl + yl) =~= ey) by {
        assert forall|m: int|
            0 <= m < yl implies s.subrange(i + 2 + xl, i + 2 + xl + yl)[m] == ey[m] by {
            assert(s[i + 2 + xl + m] == ep[2 + xl + m]);
            assert(ep[2 + xl + m] == ey[m]);
        }
    }
    assert(s[i + 2 + xl + yl] == ep[2 + xl + yl]);
    assert(ep[2 + xl + yl] == 41);
    lemma_parse_emit_int(s, i + 2 + xl, p.y as int);
    assert(spec_parse_int(s, i + 2 + xl) == Some((p.y as int, i + 2 + xl + yl)));
    assert(p == (Point { x: p.x, y: p.y }));
}

/// Every emitted command takes at least one byte.
proof fn lemma_emit_command_len(c: Command)
    ensures
        spec_emit_command(c).len() >= 1,
        spec_emit_command(c)[0] != 35,
{
    match c {
        Command::NewHand(p) => {
            assert(spec_emit_command(c)[0] == 66);
        },
        Command::ShiftBeacon(p) => {
            assert(spec_emit_command(c)[0] == 84);
        },
        _ => (),
    }
}

/// An emitted command sequence is at least as long as the sequence.
proof fn lemma_emit_command_seq_len(cs: Seq<Command>)
    ensures
        spec_emit_command_seq(cs).len() >= cs.len(),
    decreases cs.len(),
{
    if cs.len() > 0 {
        lemma_emit_command_seq_len(cs.drop_last());
        lemma_emit_command_len(cs.last());
    }
}

/// An emitted command sequence unfolds from the front.
proof fn lemma_emit_command_seq_front(cs: Seq<Command>)
    requires
        cs.len() > 0,
    ensures
        spec_emit_command_seq(cs) == spec_emit_command(cs[0]) + spec_emit_command_seq(cs.skip(1)),
    decreases cs.len(),
{
    if cs.len() == 1 {
        assert(cs.drop_last() =~= Seq::<Command>::empty());
        assert(cs.skip(1) =~= Seq::<Command>::empty());
        assert(spec_emit_command_seq(cs) =~= spec_emit_command(cs[0]) + spec_emit_command_seq(
            cs.skip(1),
        ));
    } else {
        lemma_emit_command_seq_front(cs.drop_last());
        assert(cs.drop_last()[0] == cs[0]);
        assert(cs.drop_last().skip(1) =~= cs.skip(1).drop_last());
        assert(cs.skip(1).last() == cs.last());
        assert(spec_emit_command_seq(cs) == spec_emit_command_seq(cs.drop_last())
            + spec_emit_command(cs.last()));
        assert(spec_emit_command_seq(cs.skip(1)) == spec_emit_command_seq(cs.skip(1).drop_last())
            + spec_emit_command(cs.skip(1).last()));
        assert(spec_emit_command_seq(cs) =~= spec_emit_command(cs[0]) + spec_emit_command_seq(
            cs.skip(1),
        ));
    }
}

/// The point coordinates of every command exceed `i32::MIN`; commands the
/// solver and the codec round-trip satisfy this.
pub open spec fn command_points_ok(c: Command) -> bool {
    match c {
        Command::NewHand(p) => p.x > i32::MIN && p.y > i32::MIN,
        Command::ShiftBeacon(p) => p.x > i32::MIN && p.y > i32::MIN,
        _ => true,
    }
}

/// Parsing one emitted command from position `i` yields it back.
proof fn lemma_parse_emit_command(s: Seq<u8>, i: int, c: Command)
    requires
        command_points_ok(c),
        0 <= i,
        i + spec_emit_command(c).len() <= s.len(),
        s.subrange(i, i + spec_emit_command(c).len()) == spec_emit_command(c),
    ensures
        ({
            let e = i + spec_emit_command(c).len();
            &&& i < s.len()
            &&& s[i] != 35
            &&& (if s[i] == 66 || s[i] == 84 {
                match spec_parse_point(s, i + 1) {
                    Some((p, j)) => j == e && (s[i] == 66 ==> c == Command::NewHand(p)) && (s[i]
                        == 84 ==> c == Command::ShiftBeacon(p)),
                    None => false,
                }
            } else {
                spec_single_command(s[i]) == Some(c) && e == i + 1
            })
        }),
{
    let ec = spec_emit_command(c);
    assert(s[i] == ec[0]);
    lemma_emit_command_len(c);
    match c {
        Command::NewHand(p) => {
            let ep = spec_emit_point(p);
            assert(ec =~= seq![66u8] + ep);
            assert(s.subrange(i + 1, i + 1 + ep.len()) =~= ep) by {
                assert forall|m: int|
                    0 <= m < ep.len() implies s.subrange(i + 1, i + 1 + ep.len())[m] == ep[m] by {
                    assert(s[i + 1 + m] == ec[1 + m]);
                }
            }
            lemma_parse_emit_point(s, i + 1, p);
        },
        Command::ShiftBeacon(p) => {
            let ep = spec_emit_point(p);
            assert(ec =~= seq![84u8] + ep);
            assert(s.subrange(i + 1, i + 1 + ep.len()) =~= ep) by {
                assert forall|m: int|
                    0 <= m < ep.len() implies s.subrange(i + 1, i + 1 + ep.len())[m] == ep[m] by {
                    assert(s[i + 1 + m] == ec[1 + m]);
                }
            }
            lemma_parse_emit_point(s, i + 1, p);
        },
        _ => (),
    }
}

/// Parsing an emitted command sequence from position `i` yields it back,
/// up to the next robot separator or the end of the input.
proof fn lemma_parse_emit_command_seq(s: Seq<u8>, i: int, cs: Seq<Command>, fuel: nat)
    requires
        forall|k: int| 0 <= k < cs.len() ==> command_points_ok(#[trigger] cs[k]),
        0 <= i,
        i + spec_emit_command_seq(cs).len() <= s.len(),
        s.subrange(i, i + spec_emit_command_seq(cs).len()) == spec_emit_command_seq(cs),
        i + spec_emit_command_seq(cs).len() == s.len() || s[i + spec_emit_command_seq(cs).len()]
            == 35,
        fuel >= cs.len(),
    ensures
        spec_parse_cmd_seq(s, i, fuel) == Some((cs, i + spec_emit_command_seq(cs).len())),
    decreases cs.len(),
{
    let es = spec_emit_command_seq(cs);
    if cs.len() == 0 {
        assert(es =~= Seq::<u8>::empty());
        assert(spec_parse_cmd_seq(s, i, fuel) == Some((Seq::<Command>::empty(), i)));
        assert(cs =~= Seq::<Command>::empty());
    } else {
        lemma_emit_command_seq_front(cs);
        let c = cs[0];
        let ec = spec_emit_command(c);
        let rest = spec_emit_command_seq(cs.skip(1));
        assert(es == ec + rest);
        assert(s.subrange(i, i + ec.len()) =~= ec) by {
            assert forall|m: int| 0 <= m < ec.len() implies s.subrange(i, i + ec.len())[m]
                == ec[m] by {
                assert(s[i + m] == es[m]);
            }
        }
        lemma_parse_emit_command(s, i, c);
        let j = i + ec.len();
        assert(s.subrange(j, j + rest.len()) =~= rest) by {
            assert forall|m: int| 0 <= m < rest.len() implies s.subrange(j, j + rest.len())[m]
                == rest[m] by {
                assert(s[j + m] == es[ec.len() + m]);
            }
        }
        lemma_parse_emit_command_seq(s, j, cs.skip(1), (fuel - 1) as nat);
        assert(seq![c] + cs.skip(1) =~= cs);
    }
}

/// An emitted solution unfolds from the front at the first separator.
proof fn lemma_emit_commands_front(cs: Seq<Seq<Command>>)
    requires
        cs.len() > 1,
    ensures
        spec_emit_commands(cs) == spec_emit_command_seq(cs[0]) + seq![35u8] + spec_emit_commands(
            cs.skip(1),
        ),
    decreases cs.len(),
{
    if cs.len() == 2 {
        assert(cs.drop_last() =~= seq![cs[0]]);
        assert(cs.skip(1) =~= seq![cs[1]]);
        assert(spec_emit_commands(cs.drop_last()) == spec_emit_command_seq(cs[0]));
        assert(spec_emit_commands(cs.skip(1)) == spec_emit_command_seq(cs[1]));
    } else {
        lemma_emit_commands_front(cs.drop_last());
        assert(cs.drop_last()[0] == cs[0]);
        assert(cs.drop_last().skip(1) =~= cs.skip(1).drop_last());
        assert(cs.skip(1).last() == cs.last());
        assert(cs.skip(1).len() > 1);
        assert(spec_emit_commands(cs) == spec_emit_commands(cs.drop_last())
            + seq![35u8] + spec_emit_command_seq(cs.last()));
        assert(spec_emit_commands(cs.skip(1)) == spec_emit_commands(cs.skip(1).drop_last())
            + seq![35u8] + spec_emit_command_seq(cs.skip(1).last()));
        assert(spec_emit_commands(cs) =~= spec_emit_command_seq(cs[0]) + seq![35u8]
            + spec_emit_commands(cs.skip(1)));
    }
}

/// Solution round trip: parsing an emitted solution gives back exactly
/// the robots' command sequences. Stated over the byte-level codec; the
/// executable emitter and parser are exact against the same byte
/// functions.
pub proof fn lemma_commands_round_trip_at(s: Seq<u8>, i: int, cs: Seq<Seq<Command>>, fuel: nat)
    requires
        cs.len() >= 1,
        forall|r: int, k: int|
            0 <= r < cs.len() && 0 <= k < cs[r].len() ==> command_points_ok(#[trigger] cs[r][k]),
        0 <= i,
        i + spec_emit_commands(cs).len() == s.len(),
        s.subrange(i, s.len() as int) == spec_emit_commands(cs),
        fuel + 1 >= cs.len(),
    ensures
        spec_parse_commands(s, i, fuel) == Some(cs),
    decreases cs.len(),
{
    let es = spec_emit_commands(cs);
    if cs.len() == 1 {
        assert(es == spec_emit_command_seq(cs[0]));
        assert(s.subrange(i, i + es.len()) == es);
        assert forall|k: int| 0 <= k < cs[0].len() implies command_points_ok(
            #[trigger] cs[0][k],
        ) by {}
        lemma_emit_command_seq_len(cs[0]);
        lemma_parse_emit_command_seq(s, i, cs[0], s.len() as nat);
        assert(spec_parse_cmd_seq(s, i, s.len() as nat) == Some((cs[0], s.len() as int)));
        assert(spec_parse_commands(s, i, fuel) == Some(seq![cs[0]]));
        assert(seq![cs[0]] =~= cs);
    } else {
        lemma_emit_commands_front(cs);
        let e0 = spec_emit_command_seq(cs[0]);
        let rest = spec_emit_commands(cs.skip(1));
        assert(es == e0 + seq![35u8] + rest);
        assert(s.subrange(i, i + e0.len()) =~= e0) by {
            assert forall|m: int| 0 <= m < e0.len() implies s.subrange(i, i + e0.len())[m]
                == e0[m] by {
                assert(s[i + m] == es[m]);
            }
        }
        assert(s[i + e0.len()] == es[e0.len() as int]);
        assert(es[e0.len() as int] == 35);
        assert forall|k: int| 0 <= k < cs[0].len() implies command_points_ok(
            #[trigger] cs[0][k],
        ) by {}
        lemma_emit_command_seq_len(cs[0]);
        lemma_parse_emit_command_seq(s, i, cs[0], s.len() as nat);
        let j = i + e0.len() + 1;
        assert(s.subrange(j, s.len() as int) =~= rest) by {
            assert forall|m: int| 0 <= m < rest.len() implies s.subrange(j, s.len() as int)[m]
                == rest[m] by {
                assert(s[j + m] == es[e0.len() + 1 + m]);
            }
        }
        assert forall|r: int, k: int|
            0 <= r < cs.skip(1).len() && 0 <= k < cs.skip(1)[r].len() implies command_points_ok(
            #[trigger] cs.skip(1)[r][k],
        ) by {
            assert(cs.skip(1)[r] == cs[r + 1]);
        }
        lemma_commands_round_trip_at(s, j, cs.skip(1), (fuel - 1) as nat);
        assert(seq![cs[0]] + cs.skip(1) =~= cs);
    }
}

/// Solution round trip from the start of the text.
pub proof fn lemma_commands_round_trip(cs: Seq<Seq<Command>>)
    requires
        cs.len() >= 1,
        forall|r: int, k: int|
            0 <= r < cs.len() && 0 <= k < cs[r].len() ==> command_points_ok(#[trigger] cs[r][k]),
    ensures
        spec_parse_commands(
            spec_emit_commands(cs),
            0,
            spec_emit_commands(cs).len() as nat,
        ) == Some(cs),
{
    let s = spec_emit_commands(cs);
    assert(s.subrange(0, s.len() as int) =~= s);
    lemma_emit_commands_len(cs);
    lemma_commands_round_trip_at(s, 0, cs, s.len() as nat);
}

/// An emitted solution is at least as long as the number of separators.
proof fn lemma_emit_commands_len(cs: Seq<Seq<Command>>)
    requires
        cs.len() >= 1,
    ensures
        spec_emit_commands(cs).len() >= cs.len() - 1,
    decreases cs.len(),
{
    if cs.len() > 1 {
        lemma_emit_commands_len(cs.drop_last());
    }
}


/// An emitted point takes at least one byte.
proof fn lemma_emit_point_len(p: Point)
    ensures
        spec_emit_point(p).len() >= 3,
        spec_emit_point(p)[0] == 40,
{
}

/// An emitted point list is at least as long as the list.
proof fn lemma_emit_point_list_len(ps: Seq<Point>)
    ensures
        spec_emit_point_list(ps).len() >= ps.len(),
    decreases ps.len(),
{
    if ps.len() == 1 {
        lemma_emit_point_len(ps[0]);
    } else if ps.len() > 1 {
        lemma_emit_point_list_len(ps.drop_last());
        lemma_emit_point_len(ps.last());
    }
}

/// An emitted point list unfolds from the front.
proof fn lemma_emit_point_list_front(ps: Seq<Point>)
    requires
        ps.len() >= 1,
    ensures
        ps.len() == 1 ==> spec_emit_point_list(ps) == spec_emit_point(ps[0]),
        ps.len() > 1 ==> spec_emit_point_list(ps) == spec_emit_point(ps[0]) + seq![44u8]
            + spec_emit_point_list(ps.skip(1)),
    decreases ps.len(),
{
    if ps.len() == 2 {
        assert(ps.drop_last() =~= seq![ps[0]]);
        assert(ps.skip(1) =~= seq![ps[1]]);
        assert(spec_emit_point_list(ps.drop_last()) == spec_emit_point(ps.drop_last()[0]));
        assert(spec_emit_point_list(ps.skip(1)) == spec_emit_point(ps.skip(1)[0]));
        assert(ps.drop_last()[0] == ps[0] && ps.skip(1)[0] == ps[1] && ps.last() == ps[1]);
        assert(spec_emit_point_list(ps) == spec_emit_point_list(ps.drop_last()) + seq![44u8]
            + spec_emit_point(ps.last()));
        assert(spec_emit_point_list(ps) =~= spec_emit_point(ps[0]) + seq![44u8]
            + spec_emit_point_list(ps.skip(1)));
    } else if ps.len() > 2 {
        lemma_emit_point_list_front(ps.drop_last());
        assert(ps.drop_last()[0] == ps[0]);
        assert(ps.drop_last().skip(1) =~= ps.skip(1).drop_last());
        assert(ps.skip(1).last() == ps.last());
        assert(spec_emit_point_list(ps.skip(1)) == spec_emit_point_list(ps.skip(1).drop_last())
            + seq![44u8] + spec_emit_point(ps.skip(1).last()));
        assert(spec_emit_point_list(ps) =~= spec_emit_point(ps[0]) + seq![44u8]
            + spec_emit_point_list(ps.skip(1)));
    }
}

/// Parsing an emitted point list from position `i` yields it back, up to
/// the first non-comma after the last point.
proof fn lemma_parse_emit_point_list(s: Seq<u8>, i: int, ps: Seq<Point>, fuel: nat)
    requires
        ps.len() >= 1,
        forall|k: int|
            0 <= k < ps.len() ==> (#[trigger] ps[k]).x > i32::MIN && ps[k].y > i32::MIN,
        0 <= i,
        i + spec_emit_point_list(ps).len() <= s.len(),
        s.subrange(i, i + spec_emit_point_list(ps).len()) == spec_emit_point_list(ps),
        i + spec_emit_point_list(ps).len() == s.len() || s[i + spec_emit_point_list(ps).len()]
            != 44,
        fuel + 1 >= ps.len(),
    ensures
        spec_parse_point_list(s, i, fuel) == Some((ps, i + spec_emit_point_list(ps).len())),
    decreases ps.len(),
{
    let es = spec_emit_point_list(ps);
    lemma_emit_point_list_front(ps);
    let ep = spec_emit_point(ps[0]);
    if ps.len() == 1 {
        lemma_parse_emit_point(s, i, ps[0]);
        assert(seq![ps[0]] =~= ps);
    } else {
        let rest = spec_emit_point_list(ps.skip(1));
        assert(es == ep + seq![44u8] + rest);
        assert(s.subrange(i, i + ep.len()) =~= ep) by {
            assert forall|m: int| 0 <= m < ep.len() implies s.subrange(i, i + ep.len())[m]
                == ep[m] by {
                assert(s[i + m] == es[m]);
            }
        }
        lemma_parse_emit_point(s, i, ps[0]);
        let j = i + ep.len();
        assert(s[j] == es[ep.len() as int]);
        assert(es[ep.len() as int] == 44);
        assert(s.subrange(j + 1, j + 1 + rest.len()) =~= rest) by {
            assert forall|m: int|
                0 <= m < rest.len() implies s.subrange(j + 1, j + 1 + rest.len())[m] == rest[m] by {
                assert(s[j + 1 + m] == es[ep.len() + 1 + m]);
            }
        }
        assert forall|k: int|
            0 <= k < ps.skip(1).len() implies (#[trigger] ps.skip(1)[k]).x > i32::MIN && ps.skip(
            1,
        )[k].y > i32::MIN by {
            assert(ps.skip(1)[k] == ps[k + 1]);
        }
        lemma_parse_emit_point_list(s, j + 1, ps.skip(1), (fuel - 1) as nat);
        assert(seq![ps[0]] + ps.skip(1) =~= ps);
    }
}

/// An emitted polygon list unfolds from the front.
proof fn lemma_emit_poly_list_front(ms: Seq<Seq<Point>>)
    requires
        ms.len() >= 1,
    ensures
        ms.len() == 1 ==> spec_emit_poly_list(ms) == spec_emit_point_list(ms[0]),
        ms.len() > 1 ==> spec_emit_poly_list(ms) == spec_emit_point_list(ms[0]) + seq![59u8]
            + spec_emit_poly_list(ms.skip(1)),
    decreases ms.len(),
{
    if ms.len() == 2 {
        assert(ms.drop_last() =~= seq![ms[0]]);
        assert(ms.skip(1) =~= seq![ms[1]]);
        assert(spec_emit_poly_list(ms.drop_last()) == spec_emit_point_list(ms.drop_last()[0]));
        assert(spec_emit_poly_list(ms.skip(1)) == spec_emit_point_list(ms.skip(1)[0]));
        assert(ms.drop_last()[0] == ms[0] && ms.skip(1)[0] == ms[1] && ms.last() == ms[1]);
        assert(spec_emit_poly_list(ms) == spec_emit_poly_list(ms.drop_last()) + seq![59u8]
            + spec_emit_point_list(ms.last()));
        assert(spec_emit_poly_list(ms) =~= spec_emit_point_list(ms[0]) + seq![59u8]
            + spec_emit_poly_list(ms.skip(1)));
    } else if ms.len() > 2 {
        lemma_emit_poly_list_front(ms.drop_last());
        assert(ms.drop_last()[0] == ms[0]);
        assert(ms.drop_last().skip(1) =~= ms.skip(1).drop_last());
        assert(ms.skip(1).last() == ms.last());
        assert(spec_emit_poly_list(ms.skip(1)) == spec_emit_poly_list(ms.skip(1).drop_last())
            + seq![59u8] + spec_emit_point_list(ms.skip(1).last()));
        assert(spec_emit_poly_list(ms) =~= spec_emit_point_list(ms[0]) + seq![59u8]
            + spec_emit_poly_list(ms.skip(1)));
    }
}

/// Parsing an emitted non-empty obstacle section, including its closing
/// '#', yields the polygons back.
proof fn lemma_parse_emit_obstacle_list(s: Seq<u8>, i: int, ms: Seq<Seq<Point>>, fuel: nat)
    requires
        ms.len() >= 1,
        forall|r: int| 0 <= r < ms.len() ==> (#[trigger] ms[r]).len() >= 1,
        forall|r: int, k: int|
            0 <= r < ms.len() && 0 <= k < ms[r].len() ==> (#[trigger] ms[r][k]).x > i32::MIN
                && ms[r][k].y > i32::MIN,
        0 <= i,
        i + spec_emit_poly_list(ms).len() + 1 <= s.len(),
        s.subrange(i, i + spec_emit_poly_list(ms).len()) == spec_emit_poly_list(ms),
        s[i + spec_emit_poly_list(ms).len()] == 35,
        fuel + 1 >= ms.len(),
    ensures
        spec_parse_obstacle_list(s, i, fuel) == Some((ms, i + spec_emit_poly_list(ms).len() + 1)),
    decreases ms.len(),
{
    let es = spec_emit_poly_list(ms);
    lemma_emit_poly_list_front(ms);
    let e0 = spec_emit_point_list(ms[0]);
    lemma_emit_point_list_len(ms[0]);
    assert(s.len() >= e0.len() >= ms[0].len());
    if ms.len() == 1 {
        assert(es == e0);
        lemma_parse_emit_point_list(s, i, ms[0], s.len() as nat);
        assert(spec_parse_point_list(s, i, s.len() as nat) == Some((ms[0], i + e0.len())));
        assert(s[i + e0.len()] == 35);
        assert(seq![ms[0]] =~= ms);
    } else {
        let rest = spec_emit_poly_list(ms.skip(1));
        assert(es == e0 + seq![59u8] + rest);
        assert(s.subrange(i, i + e0.len()) =~= e0) by {
            assert forall|m: int| 0 <= m < e0.len() implies s.subrange(i, i + e0.len())[m]
                == e0[m] by {
                assert(s[i + m] == es[m]);
            }
        }
        assert(s[i + e0.len()] == es[e0.len() as int]);
        assert(es[e0.len() as int] == 59);
        lemma_parse_emit_point_list(s, i, ms[0], s.len() as nat);
        let j = i + e0.len() + 1;
        assert(s.subrange(j, j + rest.len()) =~= rest) by {
            assert forall|m: int| 0 <= m < rest.len() implies s.subrange(j, j + rest.len())[m]
                == rest[m] by {
                assert(s[j + m] == es[e0.len() + 1 + m]);
            }
        }
        assert(s[j + rest.len()] == 35);
        assert forall|r: int| 0 <= r < ms.skip(1).len() implies (#[trigger] ms.skip(1)[r]).len()
            >= 1 by {
            assert(ms.skip(1)[r] == ms[r + 1]);
        }
        assert forall|r: int, k: int|
            0 <= r < ms.skip(1).len() && 0 <= k < ms.skip(1)[r].len() implies (#[trigger] ms.skip(
            1,
        )[r][k]).x > i32::MIN && ms.skip(1)[r][k].y > i32::MIN by {
            assert(ms.skip(1)[r] == ms[r + 1]);
        }
        lemma_parse_emit_obstacle_list(s, j, ms.skip(1), (fuel - 1) as nat);
        assert(seq![ms[0]] + ms.skip(1) =~= ms);
    }
}

/// An emitted polygon list of non-empty polygons is at least as long as
/// the list.
proof fn lemma_emit_poly_list_len(ms: Seq<Seq<Point>>)
    requires
        forall|r: int| 0 <= r < ms.len() ==> (#[trigger] ms[r]).len() >= 1,
    ensures
        spec_emit_poly_list(ms).len() >= ms.len(),
    decreases ms.len(),
{
    if ms.len() == 1 {
        lemma_emit_point_list_len(ms[0]);
    } else if ms.len() > 1 {
        lemma_emit_poly_list_len(ms.drop_last());
        lemma_emit_point_list_len(ms.last());
    }
}

/// An emitted booster list is at least as long as the list.
proof fn lemma_emit_booster_list_len(bs: Seq<Booster>)
    ensures
        spec_emit_booster_list(bs).len() >= bs.len(),
    decreases bs.len(),
{
    if bs.len() == 1 {
        lemma_emit_point_len(bs[0].point);
    } else if bs.len() > 1 {
        lemma_emit_booster_list_len(bs.drop_last());
        lemma_emit_point_len(bs.last().point);
    }
}

/// The booster letter of every kind decodes back to the kind.
proof fn lemma_booster_code_round(k: BoosterType)
    ensures
        spec_booster_of(spec_booster_code(k)) == Some(k),
{
}

/// An emitted booster list unfolds from the front.
proof fn lemma_emit_booster_list_front(bs: Seq<Booster>)
    requires
        bs.len() >= 1,
    ensures
        bs.len() == 1 ==> spec_emit_booster_list(bs) == spec_emit_booster(bs[0]),
        bs.len() > 1 ==> spec_emit_booster_list(bs) == spec_emit_booster(bs[0]) + seq![59u8]
            + spec_emit_booster_list(bs.skip(1)),
    decreases bs.len(),
{
    if bs.len() == 2 {
        assert(bs.drop_last() =~= seq![bs[0]]);
        assert(bs.skip(1) =~= seq![bs[1]]);
        assert(spec_emit_booster_list(bs.drop_last()) == spec_emit_booster(bs.drop_last()[0]));
        assert(spec_emit_booster_list(bs.skip(1)) == spec_emit_booster(bs.skip(1)[0]));
        assert(bs.drop_last()[0] == bs[0] && bs.skip(1)[0] == bs[1] && bs.last() == bs[1]);
        assert(spec_emit_booster_list(bs) == spec_emit_booster_list(bs.drop_last()) + seq![59u8]
            + spec_emit_booster(bs.last()));
        assert(spec_emit_booster_list(bs) =~= spec_emit_booster(bs[0]) + seq![59u8]
            + spec_emit_booster_list(bs.skip(1)));
    } else if bs.len() > 2 {
        lemma_emit_booster_list_front(bs.drop_last());
        assert(bs.drop_last()[0] == bs[0]);
        assert(bs.drop_last().skip(1) =~= bs.skip(1).drop_last());
        assert(bs.skip(1).last() == bs.last());
        assert(spec_emit_booster_list(bs.skip(1)) == spec_emit_booster_list(
            bs.skip(1).drop_last(),
        ) + seq![59u8] + spec_emit_booster(bs.skip(1).last()));
        assert(spec_emit_booster_list(bs) =~= spec_emit_booster(bs[0]) + seq![59u8]
            + spec_emit_booster_list(bs.skip(1)));
    }
}

/// Parsing an emitted booster section that runs to the end of the input
/// yields the boosters back.
proof fn lemma_parse_emit_boosters(s: Seq<u8>, i: int, bs: Seq<Booster>, fuel: nat)
    requires
        forall|k: int|
            0 <= k < bs.len() ==> (#[trigger] bs[k]).point.x > i32::MIN && bs[k].point.y
                > i32::MIN,
        0 <= i,
        i + spec_emit_booster_list(bs).len() == s.len(),
        s.subrange(i, s.len() as int) == spec_emit_booster_list(bs),
        fuel + 1 >= bs.len() || bs.len() == 0,
    ensures
        spec_parse_boosters(s, i, fuel) == Some((bs, s.len() as int)),
    decreases bs.len(),
{
    let es = spec_emit_booster_list(bs);
    if bs.len() == 0 {
        assert(es =~= Seq::<u8>::empty());
        assert(i == s.len());
        assert(bs =~= Seq::<Booster>::empty());
    } else {
        lemma_emit_booster_list_front(bs);
        let b0 = bs[0];
        let eb = spec_emit_booster(b0);
        let ep = spec_emit_point(b0.point);
        assert(eb =~= seq![spec_booster_code(b0.kind)] + ep);
        assert(s[i] == es[0]);
        assert(es[0] == eb[0]);
        assert(eb[0] == spec_booster_code(b0.kind));
        lemma_booster_code_round(b0.kind);
        assert(s.subrange(i + 1, i + 1 + ep.len()) =~= ep) by {
            assert forall|m: int|
                0 <= m < ep.len() implies s.subrange(i + 1, i + 1 + ep.len())[m] == ep[m] by {
                assert(s[i + 1 + m] == es[1 + m]);
                assert(es[1 + m] == eb[1 + m]);
            }
        }
        lemma_parse_emit_point(s, i + 1, b0.point);
        let j = i + 1 + ep.len();
        if bs.len() == 1 {
            assert(es == eb);
            assert(j == s.len());
            assert(seq![b0] =~= bs);
            assert(b0 == (Booster { kind: b0.kind, point: b0.point }));
        } else {
            let rest = spec_emit_booster_list(bs.skip(1));
            assert(es == eb + seq![59u8] + rest);
            assert(s[j] == es[eb.len() as int]);
            assert(es[eb.len() as int] == 59);
            assert(s.subrange(j + 1, s.len() as int) =~= rest) by {
                assert forall|m: int|
                    0 <= m < rest.len() implies s.subrange(j + 1, s.len() as int)[m] == rest[m] by {
                    assert(s[j + 1 + m] == es[eb.len() + 1 + m]);
                }
            }
            assert forall|k: int|
                0 <= k < bs.skip(1).len() implies (#[trigger] bs.skip(1)[k]).point.x > i32::MIN
                && bs.skip(1)[k].point.y > i32::MIN by {
                assert(bs.skip(1)[k] == bs[k + 1]);
            }
            lemma_parse_emit_boosters(s, j + 1, bs.skip(1), (fuel - 1) as nat);
            assert(b0 == (Booster { kind: b0.kind, point: b0.point }));
            assert(seq![b0] + bs.skip(1) =~= bs);
        }
    }
}

/// Task round trip: parsing an emitted task descriptor yields back the
/// room polygon, the starting point, the obstacles and the boosters. The
/// emitted side writes canonical numerals, so this covers every
/// descriptor the library itself produces.
#[verifier::rlimit(100)]
pub proof fn lemma_task_round_trip(
    mp: Seq<Point>,
    ini: Point,
    obs: Seq<Seq<Point>>,
    bs: Seq<Booster>,
)
    requires
        mp.len() >= 1,
        forall|k: int| 0 <= k < mp.len() ==> (#[trigger] mp[k]).x > i32::MIN && mp[k].y > i32::MIN,
        ini.x > i32::MIN && ini.y > i32::MIN,
        forall|r: int| 0 <= r < obs.len() ==> (#[trigger] obs[r]).len() >= 1,
        forall|r: int, k: int|
            0 <= r < obs.len() && 0 <= k < obs[r].len() ==> (#[trigger] obs[r][k]).x > i32::MIN
                && obs[r][k].y > i32::MIN,
        forall|k: int|
            0 <= k < bs.len() ==> (#[trigger] bs[k]).point.x > i32::MIN && bs[k].point.y
                > i32::MIN,
    ensures
        spec_parse_task(spec_emit_task(mp, ini, obs, bs)) == Some((mp, ini, obs, bs)),
{
    let s = spec_emit_task(mp, ini, obs, bs);
    let e_mp = spec_emit_point_list(mp);
    let e_ini = spec_emit_point(ini);
    let e_obs = spec_emit_poly_list(obs);
    let e_bs = spec_emit_booster_list(bs);
    assert(s =~= e_mp + seq![35u8] + e_ini + seq![35u8] + e_obs + seq![35u8] + e_bs);
    lemma_emit_point_list_len(mp);
    assert(s.subrange(0, e_mp.len() as int) =~= e_mp) by {
        assert forall|m: int| 0 <= m < e_mp.len() implies s.subrange(0, e_mp.len() as int)[m]
            == e_mp[m] by {
            assert(s[m] == e_mp[m]);
        }
    }
    assert(s[e_mp.len() as int] == 35);
    lemma_parse_emit_point_list(s, 0, mp, s.len() as nat);
    let i1 = e_mp.len() as int + 1;
    assert(s.subrange(i1, i1 + e_ini.len()) =~= e_ini) by {
        assert forall|m: int| 0 <= m < e_ini.len() implies s.subrange(i1, i1 + e_ini.len())[m]
            == e_ini[m] by {
            assert(s[i1 + m] == e_ini[m]);
        }
    }
    lemma_parse_emit_point(s, i1, ini);
    let i2 = i1 + e_ini.len();
    assert(s[i2] == 35);
    let i3 = i2 + 1;
    let i4 = i3 + e_obs.len();
    assert(s[i4] == 35);
    if obs.len() == 0 {
        assert(e_obs =~= Seq::<u8>::empty());
        assert(spec_parse_obstacles(s, i3) == Some((Seq::<Seq<Point>>::empty(), i3 + 1)));
        assert(Seq::<Seq<Point>>::empty() =~= obs);
    } else {
        assert(s.subrange(i3, i3 + e_obs.len()) =~= e_obs) by {
            assert forall|m: int| 0 <= m < e_obs.len() implies s.subrange(i3, i3 + e_obs.len())[m]
                == e_obs[m] by {
                assert(s[i3 + m] == e_obs[m]);
            }
        }
        lemma_emit_poly_list_front(obs);
        lemma_emit_point_list_len(obs[0]);
        assert(e_obs.len() >= 1);
        assert(s[i3] == e_obs[0]);
        assert(e_obs[0] == spec_emit_point_list(obs[0])[0]);
        lemma_emit_point_len(obs[0][0]);
        lemma_emit_point_list_front(obs[0]);
        assert(spec_emit_point_list(obs[0])[0] == 40);
        lemma_emit_poly_list_len(obs);
        lemma_parse_emit_obstacle_list(s, i3, obs, s.len() as nat);
    }
    let i5 = i4 + 1;
    assert(s.subrange(i5, s.len() as int) =~= e_bs) by {
        assert forall|m: int| 0 <= m < e_bs.len() implies s.subrange(i5, s.len() as int)[m]
            == e_bs[m] by {
            assert(s[i5 + m] == e_bs[m]);
        }
    }
    lemma_emit_booster_list_len(bs);
    lemma_parse_emit_boosters(s, i5, bs, s.len() as nat);
}

} // verus!
