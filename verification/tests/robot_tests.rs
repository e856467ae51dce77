use labs::robot::{Direction, Robot};

#[test]
fn robots_are_created_with_position_and_direction() {
    let robot = Robot::new(0, 0, Direction::North);
    assert_eq!((0, 0), robot.position());
    assert_eq!(&Direction::North, robot.direction());
}

#[test]
fn turning_right_cycles_clockwise() {
    let mut robot = Robot::new(0, 0, Direction::North);
    robot = robot.turn_right();
    assert_eq!(&Direction::East, robot.direction());
    robot = robot.turn_right();
    assert_eq!(&Direction::South, robot.direction());
    robot = robot.turn_right();
    assert_eq!(&Direction::West, robot.direction());
    robot = robot.turn_right();
    assert_eq!(&Direction::North, robot.direction());
}

#[test]
fn turning_left_from_west_goes_south_then_east() {
    let robot = Robot::new(0, 0, Direction::West).turn_left();
    assert_eq!(&Direction::South, robot.direction());
    let robot = robot.turn_left();
    assert_eq!(&Direction::East, robot.direction());
    let robot = robot.turn_left();
    assert_eq!(&Direction::North, robot.direction());
}

#[test]
fn advancing_moves_along_the_heading() {
    assert_eq!((0, 1), Robot::new(0, 0, Direction::North).advance().position());
    assert_eq!((1, 0), Robot::new(0, 0, Direction::East).advance().position());
    assert_eq!((0, -1), Robot::new(0, 0, Direction::South).advance().position());
    assert_eq!((-1, 0), Robot::new(0, 0, Direction::West).advance().position());
}

#[test]
fn instructions_are_followed_from_the_first_character() {
    // Advance, then turn right.
    let mut robot = Robot::new(0, 0, Direction::North);
    robot.instructions("AR");
    assert_eq!((0, 1), robot.position());
    assert_eq!(&Direction::East, robot.direction());
}

#[test]
fn turning_left_from_north_faces_west() {
    assert_eq!(&Direction::West, Robot::new(0, 0, Direction::North).turn_left().direction());
    let mut robot = Robot::new(7, 3, Direction::North);
    robot.instructions("RAALAL");
    assert_eq!((9, 4), robot.position());
    assert_eq!(&Direction::West, robot.direction());
}

#[test]
fn unknown_instructions_are_ignored() {
    let mut robot = Robot::new(3, 4, Direction::South);
    robot.instructions("xyz");
    assert_eq!((3, 4), robot.position());
    assert_eq!(&Direction::South, robot.direction());
}

#[test]
fn instructions_move_and_turn() {
    let mut robot = Robot::new(7, 3, Direction::East);
    robot.instructions("LAAARALA");
    assert_eq!((8, 7), robot.position());
    assert_eq!(&Direction::North, robot.direction());
}

#[test]
fn direction_numbers() {
    assert_eq!(Direction::West.int_value(), 3);
    assert_eq!(Direction::from_int(1), Some(Direction::East));
    assert_eq!(Direction::from_int(4), None);
}

#[test]
fn a_left_turn_undoes_a_right_turn() {
    for d in [Direction::North, Direction::East, Direction::South, Direction::West] {
        let robot = Robot::new(1, 2, d).turn_right().turn_left();
        assert_eq!(&d, robot.direction());
        assert_eq!((1, 2), robot.position());
    }
}

#[test]
fn instructions_in_two_parts_are_the_instructions_joined() {
    let mut split = Robot::new(0, 0, Direction::East);
    split.instructions("RAA");
    split.instructions("LA");
    let mut joined = Robot::new(0, 0, Direction::East);
    joined.instructions("RAALA");
    assert_eq!(split.position(), joined.position());
    assert_eq!(split.direction(), joined.direction());
}
