use langton::{Ant, Canvas, Colony, Color, Direction, Paint};

const WHITE: Color = Color::Rgb { r: 255, g: 255, b: 255 };
const RED: Color = Color::Rgb { r: 255, g: 0, b: 0 };
const BLUE: Color = Color::Rgb { r: 0, g: 0, b: 255 };

fn ant(x: usize, y: usize, direction: Direction) -> Ant {
    Ant {
        x,
        y,
        direction,
        id: 0,
        color: RED,
    }
}

#[test]
fn direction_turns_left() {
    assert_eq!(Direction::North.left(), Direction::West);
    assert_eq!(Direction::East.left(), Direction::North);
    assert_eq!(Direction::South.left(), Direction::East);
    assert_eq!(Direction::West.left(), Direction::South);
}

#[test]
fn direction_turns_right() {
    assert_eq!(Direction::North.right(), Direction::East);
    assert_eq!(Direction::East.right(), Direction::South);
    assert_eq!(Direction::South.right(), Direction::West);
    assert_eq!(Direction::West.right(), Direction::North);
}

#[test]
fn direction_starts_north_and_turns_cancel() {
    assert_eq!(Direction::default(), Direction::North);
    for direction in [
        Direction::North,
        Direction::East,
        Direction::South,
        Direction::West,
    ] {
        assert_eq!(direction.left().right(), direction);
        assert_eq!(direction.right().left(), direction);
        assert_eq!(direction.left().left().left().left(), direction);
        assert_eq!(direction.right().right(), direction.left().left());
    }
}

#[test]
fn ant_moves_one_cell_in_its_direction() {
    let mut walker = ant(2, 2, Direction::North);
    walker.move_forward(5, 4);
    assert_eq!((walker.x, walker.y), (2, 3));
    let mut walker = ant(2, 2, Direction::East);
    walker.move_forward(5, 4);
    assert_eq!((walker.x, walker.y), (3, 2));
    let mut walker = ant(2, 2, Direction::South);
    walker.move_forward(5, 4);
    assert_eq!((walker.x, walker.y), (2, 1));
    let mut walker = ant(2, 2, Direction::West);
    walker.move_forward(5, 4);
    assert_eq!((walker.x, walker.y), (1, 2));
    assert_eq!(walker.direction, Direction::West);
}

#[test]
fn ant_wraps_around_the_edges() {
    let mut walker = ant(2, 3, Direction::North);
    walker.move_forward(5, 4);
    assert_eq!((walker.x, walker.y), (2, 0));
    let mut walker = ant(4, 2, Direction::East);
    walker.move_forward(5, 4);
    assert_eq!((walker.x, walker.y), (0, 2));
    let mut walker = ant(2, 0, Direction::South);
    walker.move_forward(5, 4);
    assert_eq!((walker.x, walker.y), (2, 3));
    let mut walker = ant(0, 2, Direction::West);
    walker.move_forward(5, 4);
    assert_eq!((walker.x, walker.y), (4, 2));
    let mut walker = ant(0, 0, Direction::North);
    walker.move_forward(1, 1);
    assert_eq!((walker.x, walker.y), (0, 0));
}

#[test]
fn ant_marks_turns_right_and_comes_back_to_clear_the_mark() {
    let mut canvas = Canvas::new(120, 120, 120);
    let mut colony = Colony::new(3, 3, vec![ant(1, 1, Direction::North)]);
    assert_eq!(colony.len(), 1);
    assert_eq!(colony.mark(1, 1), None);

    colony.step(&mut canvas, WHITE);
    assert_eq!(colony.mark(1, 1), Some(0));
    assert_eq!(colony.ant(0), ant(2, 1, Direction::East));

    colony.step(&mut canvas, WHITE);
    assert_eq!(colony.ant(0), ant(2, 0, Direction::South));
    colony.step(&mut canvas, WHITE);
    assert_eq!(colony.ant(0), ant(1, 0, Direction::West));
    colony.step(&mut canvas, WHITE);
    assert_eq!(colony.ant(0), ant(1, 1, Direction::North));

    let paints = canvas.flush();
    assert_eq!(paints.len(), 4);
    assert!(paints.iter().all(|paint| paint.color == RED));
    assert_eq!(canvas.committed(1, 1), Some(RED));

    colony.step(&mut canvas, WHITE);
    assert_eq!(colony.mark(1, 1), None);
    assert_eq!(colony.ant(0), ant(0, 1, Direction::West));
    assert_eq!(
        canvas.flush(),
        vec![Paint {
            color: WHITE,
            x: 40,
            y: 40,
            width: 40,
            height: 40,
        }]
    );
}

#[test]
fn ants_move_one_after_the_other() {
    let mut canvas = Canvas::new(80, 40, 40);
    let first = Ant {
        x: 0,
        y: 0,
        direction: Direction::North,
        id: 0,
        color: RED,
    };
    let second = Ant {
        x: 0,
        y: 0,
        direction: Direction::South,
        id: 1,
        color: BLUE,
    };
    let mut colony = Colony::new(2, 1, vec![first, second]);
    colony.step(&mut canvas, WHITE);
    // the first ant marks the cell, the second finds it marked and clears it
    assert_eq!(colony.mark(0, 0), None);
    assert_eq!(colony.ant(0).direction, Direction::East);
    assert_eq!((colony.ant(0).x, colony.ant(0).y), (1, 0));
    assert_eq!(colony.ant(1).direction, Direction::East);
    assert_eq!((colony.ant(1).x, colony.ant(1).y), (1, 0));
    assert_eq!(
        canvas.flush(),
        vec![Paint {
            color: WHITE,
            x: 0,
            y: 0,
            width: 40,
            height: 40,
        }]
    );
}

#[test]
fn colony_knows_its_board() {
    let colony = Colony::new(4, 3, vec![]);
    assert_eq!((colony.width(), colony.height(), colony.len()), (4, 3, 0));
    for x in 0..4 {
        for y in 0..3 {
            assert_eq!(colony.mark(x, y), None);
        }
    }
    let mut canvas = Canvas::new(160, 120, 120);
    let mut colony = colony;
    colony.step(&mut canvas, WHITE);
    assert_eq!(canvas.queued(), 0);
}

#[test]
fn every_ant_queues_one_call_for_the_cell_it_leaves() {
    let mut canvas = Canvas::new(200, 200, 200);
    let ants = (0..5)
        .map(|id| Ant {
            x: id,
            y: 4 - id,
            direction: Direction::West,
            id,
            color: if id % 2 == 0 { RED } else { BLUE },
        })
        .collect();
    let mut colony = Colony::new(5, 5, ants);
    colony.step(&mut canvas, WHITE);
    assert_eq!(canvas.queued(), 5);
    for id in 0..5 {
        assert_eq!(colony.mark(id, 4 - id), Some(id));
        assert_eq!(colony.ant(id).direction, Direction::North);
        assert_eq!((colony.ant(id).x, colony.ant(id).y), (id, (4 - id + 1) % 5));
    }
    let paints = canvas.flush();
    assert_eq!(paints.len(), 5);
    assert_eq!(paints.iter().filter(|paint| paint.color == RED).count(), 3);
    assert_eq!(paints.iter().filter(|paint| paint.color == BLUE).count(), 2);
}
