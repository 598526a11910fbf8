//! Tests of the robot's move dispatch over validated requests.

use roblocks::{Robot, Table, TableError, Target};

/// The four source/destination combinations dispatch to the right move
/// semantics.
#[test]
fn handle_move_dispatches_all_four_kinds() {
    // Block onto block: displaced blocks go home, destination cleared.
    let mut robot = Robot::new(5);
    robot.handle_move(Target::Block(2), Target::Block(0)).unwrap();
    assert_eq!(robot.render(), "0: 0 2\n1: 1\n2:\n3: 3\n4: 4\n");

    // Block over pile: lands on the pile's current top.
    let mut robot = Robot::new(5);
    robot.handle_move(Target::Block(1), Target::Pile(0)).unwrap();
    robot.handle_move(Target::Block(2), Target::Pile(1)).unwrap();
    assert_eq!(robot.render(), "0: 0 1 2\n1:\n2:\n3: 3\n4: 4\n");

    // Pile over pile: the whole run moves as-is.
    robot.handle_move(Target::Pile(1), Target::Pile(3)).unwrap();
    assert_eq!(robot.render(), "0: 0\n1:\n2:\n3: 3 1 2\n4: 4\n");

    // Pile onto block: the destination is cleared first.
    let mut robot = Robot::new(5);
    robot.handle_move(Target::Block(4), Target::Pile(3)).unwrap();
    robot.handle_move(Target::Pile(4), Target::Block(0)).unwrap();
    assert_eq!(robot.render(), "0: 0 4\n1: 1\n2: 2\n3: 3\n4:\n");
}

/// An unresolvable source is reported first; then an unresolvable
/// destination; the table is untouched either way.
#[test]
fn handle_move_reports_missing_blocks() {
    let mut robot = Robot::new(3);
    let before = robot.render();
    assert_eq!(
        robot.handle_move(Target::Block(7), Target::Block(8)),
        Err(TableError::BlockNotFound(7))
    );
    assert_eq!(
        robot.handle_move(Target::Pile(1), Target::Pile(8)),
        Err(TableError::BlockNotFound(8))
    );
    assert_eq!(robot.render(), before);
}

/// The robot's view of a fresh table matches the table's own.
#[test]
fn robot_renders_like_table() {
    let robot = Robot::new(7);
    let table = Table::new(7);
    assert_eq!(robot.render(), table.render());
}
