//! Parse/emit round trips and parser edge cases.

use icfpc::geom::{Move, Point};
use icfpc::models::{BoosterType, Command};
use icfpc::parse::{read_buy, read_commands, read_puzzle, read_task};

#[test]
fn task_emit_parse_round_trip() {
    let texts = [
        "(0,0),(1,0),(1,1),(0,1)#(0,0)##",
        "(0,0),(2,0),(2,1),(0,1)#(0,0)##",
        "(0,0),(3,0),(3,3),(0,3)#(1,1)##C(2,2);X(0,0)",
        "(0,0),(2,0),(2,1),(3,1),(3,3),(0,3)#(0,0)##",
        "(0,0),(10,0),(10,10),(0,10)#(1,2)#(2,2),(4,2),(4,4),(2,4);(6,6),(8,6),(8,8),(6,8)#B(1,1);F(5,5)",
    ];
    for t in texts {
        let task = read_task(t).expect("descriptor should parse");
        assert_eq!(task.to_text(), t);
    }
}

#[test]
fn task_parse_fields() {
    let task = read_task("(0,0),(3,0),(3,3),(0,3)#(1,1)##C(2,2);X(0,0)").unwrap();
    // The grid extent is one past the largest vertex coordinate.
    assert_eq!(task.width, 4);
    assert_eq!(task.height, 4);
    assert_eq!(task.initial, Point { x: 1, y: 1 });
    assert_eq!(task.obstacles.len(), 0);
    assert_eq!(task.boosters.len(), 2);
    assert_eq!(task.boosters[0].kind, BoosterType::Cloning);
    assert_eq!(task.boosters[0].point, Point { x: 2, y: 2 });
    assert_eq!(task.boosters[1].kind, BoosterType::Spawn);
}

#[test]
fn task_parse_negative_coordinates() {
    // A point with a negative coordinate parses inside the grammar, but a
    // room polygon with one is rejected: the grid extent derives from it.
    assert!(read_task("(-1,0),(1,0),(1,1),(-1,1)#(0,0)##").is_none());
}

#[test]
fn task_parse_rejects_garbage() {
    assert!(read_task("").is_none());
    assert!(read_task("(0,0)").is_none());
    assert!(read_task("(0,0),(1,0),(1,1),(0,1)#(0,0)#").is_none());
    assert!(read_task("(0,0),(1,0),(1,1),(0,1)#(0,0)##Q(0,0)").is_none());
    assert!(read_task("(99999999999,0),(1,0),(1,1),(0,1)#(0,0)##").is_none());
}

#[test]
fn commands_round_trip_both_ways() {
    let text = "WSADZEQB(1,2)FLRT(-3,4)C#WW#";
    let c = read_commands(text).expect("solution should parse");
    assert_eq!(c.0.len(), 3);
    assert_eq!(c.0[0].len(), 13);
    assert_eq!(c.0[0][0], Command::Move(Move::MoveUp));
    assert_eq!(c.0[0][7], Command::NewHand(Point { x: 1, y: 2 }));
    assert_eq!(c.0[0][11], Command::ShiftBeacon(Point { x: -3, y: 4 }));
    assert_eq!(c.0[2].len(), 0);
    assert_eq!(c.to_text(), text);

    let back = read_commands(&c.to_text()).unwrap();
    assert_eq!(back, c);
}

#[test]
fn commands_parse_rejects_unknown_letter() {
    assert!(read_commands("WXA").is_none());
    assert!(read_commands("B(1,)").is_none());
}

#[test]
fn buy_round_trip_and_money() {
    let b = read_buy("BC").expect("buy list should parse");
    assert_eq!(b.0, vec![BoosterType::NewHand, BoosterType::Cloning]);
    assert_eq!(b.money(), 3000);
    assert_eq!(b.to_text(), "BC");
    assert!(read_buy("BZ").is_none());

    let all = read_buy("BFLRC").unwrap();
    assert_eq!(all.money(), 1000 + 300 + 700 + 1200 + 2000);
}

#[test]
fn puzzle_parse_fields() {
    let p = read_puzzle("1,1,5,4,20,0,0,0,0,0,0#(1,1)#(3,3)").expect("puzzle should parse");
    assert_eq!(p.block, 1);
    assert_eq!(p.epoch, 1);
    assert_eq!(p.max_length, 5);
    assert_eq!(p.vertex_min, 4);
    assert_eq!(p.vertex_max, 20);
    assert_eq!(p.hand_count, 0);
    assert_eq!(p.spawn_count, 0);
    assert_eq!(p.includes, vec![Point { x: 1, y: 1 }]);
    assert_eq!(p.excludes, vec![Point { x: 3, y: 3 }]);
    assert!(read_puzzle("1,1#(1,1)#(3,3)").is_none());
}

#[test]
fn booster_letters_all_parse() {
    let task = read_task(
        "(0,0),(3,0),(3,3),(0,3)#(0,0)##B(0,0);F(1,0);L(2,0);R(0,1);C(1,1);X(2,1)",
    )
    .unwrap();
    let kinds: Vec<BoosterType> = task.boosters.iter().map(|b| b.kind).collect();
    assert_eq!(
        kinds,
        vec![
            BoosterType::NewHand,
            BoosterType::FastMove,
            BoosterType::Drill,
            BoosterType::Teleports,
            BoosterType::Cloning,
            BoosterType::Spawn,
        ]
    );
}

#[test]
fn input_file_names() {
    let task = read_task("(0,0),(1,0),(1,1),(0,1)#(0,0)##").unwrap();
    let inp = icfpc::parse::Input::new("prob-042.desc", task);
    assert_eq!(inp.id, "042");
    assert_eq!(inp.output_file_name(), "prob-042.sol");
    assert_eq!(inp.buy_file_name(), "prob-042.buy");
}
