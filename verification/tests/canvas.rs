use langton::{Canvas, Color, NamedColor, Paint, DEFAULT_CELL_SIZE};

const RED: Color = Color::Rgb { r: 255, g: 0, b: 0 };
const GREEN: Color = Color::Rgb { r: 0, g: 255, b: 0 };
const BLUE: Color = Color::Rgb { r: 0, g: 0, b: 255 };

fn cell(color: Color, x: i64, y: i64, size: i64) -> Paint {
    Paint {
        color,
        x: x * size,
        y: y * size,
        width: size,
        height: size,
    }
}

#[test]
fn new_surface_has_the_default_cells_and_a_rounded_up_grid() {
    assert_eq!(DEFAULT_CELL_SIZE, 40);
    let canvas = Canvas::new(100, 80, 60);
    assert_eq!(canvas.width(), 3);
    assert_eq!(canvas.height(), 2);
    assert_eq!(canvas.screen_height(), 2);
    for x in 0..3 {
        for y in 0..2 {
            assert_eq!(canvas.committed(x, y), None);
        }
    }
}

#[test]
fn grid_is_the_pixel_size_divided_by_the_cell_size_rounded_up() {
    let canvas = Canvas::new(1920, 3000, 1080).with_cell_size(15);
    assert_eq!(canvas.width(), 128);
    assert_eq!(canvas.height(), 200);
    assert_eq!(canvas.screen_height(), 72);
    let canvas = Canvas::new(1921, 3001, 1081).with_cell_size(15);
    assert_eq!(canvas.width(), 129);
    assert_eq!(canvas.height(), 201);
    assert_eq!(canvas.screen_height(), 73);
    let canvas = Canvas::new(7, 1, 1).with_cell_size(1);
    assert_eq!(canvas.width(), 7);
    assert_eq!(canvas.height(), 1);
    let canvas = Canvas::new(0, 0, 0);
    assert_eq!(canvas.width(), 0);
    assert_eq!(canvas.height(), 0);
    assert_eq!(canvas.screen_height(), 0);
    let canvas = Canvas::new(4_000_000, 1, 1).with_cell_size(4_000_000);
    assert_eq!(canvas.width(), 1);
    let canvas = Canvas::new(4_000_000, 1, 1).with_cell_size(3_999_999);
    assert_eq!(canvas.width(), 2);
    let canvas = Canvas::new(4_000_000, 1, 1).with_cell_size(u32::MAX);
    assert_eq!(canvas.width(), 1);
}

#[test]
fn screen_is_no_higher_than_the_surface() {
    let canvas = Canvas::new(400, 200, 1000);
    assert_eq!(canvas.height(), 5);
    assert_eq!(canvas.screen_height(), 5);
    let canvas = Canvas::new(400, 2000, 1000);
    assert_eq!(canvas.height(), 50);
    assert_eq!(canvas.screen_height(), 25);
}

#[test]
fn flush_paints_a_queued_cell_and_commits_its_color() {
    let mut canvas = Canvas::new(100, 80, 80);
    canvas.fill_rect(1, 1, RED);
    assert_eq!(canvas.committed(1, 1), None);
    let paints = canvas.flush();
    assert_eq!(paints, vec![cell(RED, 1, 1, 40)]);
    assert_eq!(canvas.committed(1, 1), Some(RED));
    assert_eq!(canvas.committed(0, 0), None);
    assert_eq!(canvas.committed(2, 1), None);
}

#[test]
fn flush_of_an_empty_queue_paints_nothing() {
    let mut canvas = Canvas::new(100, 80, 80);
    assert_eq!(canvas.flush(), vec![]);
}

#[test]
fn second_flush_paints_nothing() {
    let mut canvas = Canvas::new(200, 200, 200);
    canvas.fill_rect(0, 0, RED);
    canvas.fill_rect(4, 3, BLUE);
    canvas.fill_rect(2, 2, Color::Named(NamedColor::Black));
    assert_eq!(canvas.flush().len(), 3);
    assert_eq!(canvas.flush(), vec![]);
    assert_eq!(canvas.flush(), vec![]);
    assert_eq!(canvas.committed(0, 0), Some(RED));
    assert_eq!(canvas.committed(4, 3), Some(BLUE));
    assert_eq!(canvas.committed(2, 2), Some(Color::Named(NamedColor::Black)));
}

#[test]
fn last_of_two_calls_for_a_cell_is_the_one_painted() {
    let mut canvas = Canvas::new(100, 80, 80);
    canvas.fill_rect(2, 0, RED);
    canvas.fill_rect(2, 0, BLUE);
    let paints = canvas.flush();
    assert_eq!(paints, vec![cell(BLUE, 2, 0, 40)]);
    assert_eq!(canvas.committed(2, 0), Some(BLUE));
}

#[test]
fn last_of_many_calls_for_a_cell_is_the_one_painted() {
    let mut canvas = Canvas::new(100, 80, 80);
    canvas.fill_rect(0, 0, RED);
    canvas.fill_rect(1, 0, RED);
    canvas.fill_rect(0, 0, GREEN);
    canvas.fill_rect(1, 0, GREEN);
    canvas.fill_rect(0, 0, BLUE);
    let paints = canvas.flush();
    assert_eq!(paints, vec![cell(BLUE, 0, 0, 40), cell(GREEN, 1, 0, 40)]);
    assert_eq!(canvas.committed(0, 0), Some(BLUE));
    assert_eq!(canvas.committed(1, 0), Some(GREEN));
}

#[test]
fn call_that_repeats_the_committed_color_is_not_painted() {
    let mut canvas = Canvas::new(100, 80, 80);
    canvas.fill_rect(1, 1, RED);
    assert_eq!(canvas.flush().len(), 1);
    canvas.fill_rect(1, 1, RED);
    assert_eq!(canvas.flush(), vec![]);
    assert_eq!(canvas.committed(1, 1), Some(RED));
}

#[test]
fn cell_that_ends_on_its_committed_color_is_not_painted() {
    let mut canvas = Canvas::new(100, 80, 80);
    canvas.fill_rect(1, 1, RED);
    canvas.fill_rect(0, 1, GREEN);
    assert_eq!(canvas.flush().len(), 2);
    canvas.fill_rect(1, 1, BLUE);
    canvas.fill_rect(0, 1, BLUE);
    canvas.fill_rect(1, 1, RED);
    assert_eq!(canvas.flush(), vec![cell(BLUE, 0, 1, 40)]);
    assert_eq!(canvas.committed(1, 1), Some(RED));
    assert_eq!(canvas.committed(0, 1), Some(BLUE));
}

#[test]
fn paints_are_batched_by_color_and_keep_their_order_within_a_color() {
    let mut canvas = Canvas::new(400, 40, 40);
    let white = Color::Named(NamedColor::White);
    let clear = Color::Rgba { r: 0, g: 0, b: 0, a: 9 };
    canvas.fill_rect(0, 0, white);
    canvas.fill_rect(1, 0, BLUE);
    canvas.fill_rect(2, 0, clear);
    canvas.fill_rect(3, 0, RED);
    canvas.fill_rect(4, 0, BLUE);
    canvas.fill_rect(5, 0, white);
    canvas.fill_rect(6, 0, RED);
    canvas.fill_rect(7, 0, BLUE);
    let paints = canvas.flush();
    assert_eq!(
        paints,
        vec![
            cell(BLUE, 1, 0, 40),
            cell(BLUE, 4, 0, 40),
            cell(BLUE, 7, 0, 40),
            cell(RED, 3, 0, 40),
            cell(RED, 6, 0, 40),
            cell(clear, 2, 0, 40),
            cell(white, 0, 0, 40),
            cell(white, 5, 0, 40),
        ]
    );
}

#[test]
fn border_paints_the_whole_cell_inverted_and_then_the_inset() {
    let mut canvas = Canvas::new(100, 100, 100)
        .with_cell_size(10)
        .with_cell_border_size(2);
    canvas.fill_rect(3, 4, RED);
    let paints = canvas.flush();
    assert_eq!(
        paints,
        vec![
            Paint {
                color: Color::Rgb { r: 0, g: 255, b: 255 },
                x: 30,
                y: 40,
                width: 10,
                height: 10,
            },
            Paint {
                color: RED,
                x: 32,
                y: 42,
                width: 6,
                height: 6,
            },
        ]
    );
    assert_eq!(canvas.committed(3, 4), Some(RED));
}

#[test]
fn border_wider_than_half_a_cell_gives_a_negative_inset() {
    let mut canvas = Canvas::new(100, 100, 100)
        .with_cell_size(10)
        .with_cell_border_size(7);
    canvas.fill_rect(0, 1, Color::Named(NamedColor::White));
    let paints = canvas.flush();
    assert_eq!(
        paints,
        vec![
            Paint {
                color: Color::Named(NamedColor::Black),
                x: 0,
                y: 10,
                width: 10,
                height: 10,
            },
            Paint {
                color: Color::Named(NamedColor::White),
                x: 7,
                y: 17,
                width: -4,
                height: -4,
            },
        ]
    );
}

#[test]
fn largest_sizes_do_not_overflow() {
    let mut canvas = Canvas::new(2000, 2000, 2000)
        .with_cell_size(u32::MAX)
        .with_cell_border_size(u32::MAX);
    assert_eq!(canvas.width(), 1);
    assert_eq!(canvas.height(), 1);
    canvas.fill_rect(0, 0, GREEN);
    let paints = canvas.flush();
    let size = i64::from(u32::MAX);
    assert_eq!(
        paints,
        vec![
            Paint {
                color: GREEN.invert(),
                x: 0,
                y: 0,
                width: size,
                height: size,
            },
            Paint {
                color: GREEN,
                x: size,
                y: size,
                width: -size,
                height: -size,
            },
        ]
    );
    let mut canvas = Canvas::new(4_000_000, 40, 40).with_cell_size(1_000_000);
    assert_eq!(canvas.width(), 4);
    canvas.fill_rect(3, 0, GREEN);
    assert_eq!(
        canvas.flush(),
        vec![Paint {
            color: GREEN,
            x: 3_000_000,
            y: 0,
            width: 1_000_000,
            height: 1_000_000,
        }]
    );
}

#[test]
fn new_cell_size_forgets_what_was_painted() {
    let mut canvas = Canvas::new(100, 80, 80);
    canvas.fill_rect(1, 1, RED);
    assert_eq!(canvas.flush().len(), 1);
    let mut canvas = canvas.with_cell_size(20);
    assert_eq!(canvas.width(), 5);
    assert_eq!(canvas.height(), 4);
    assert_eq!(canvas.committed(1, 1), None);
    canvas.fill_rect(1, 1, RED);
    assert_eq!(canvas.flush(), vec![cell(RED, 1, 1, 20)]);
}

#[test]
fn new_border_keeps_what_was_painted() {
    let mut canvas = Canvas::new(100, 80, 80);
    canvas.fill_rect(1, 1, RED);
    assert_eq!(canvas.flush().len(), 1);
    let mut canvas = canvas.with_cell_border_size(3);
    assert_eq!(canvas.committed(1, 1), Some(RED));
    canvas.fill_rect(1, 1, RED);
    assert_eq!(canvas.flush(), vec![]);
}

#[test]
fn fade_covers_the_surface_in_black_with_the_given_alpha() {
    let mut canvas = Canvas::new(640, 480, 400);
    canvas.fill_rect(1, 1, RED);
    let paint = canvas.fill_canvas(250);
    assert_eq!(
        paint,
        Paint {
            color: Color::Rgba { r: 0, g: 0, b: 0, a: 250 },
            x: 0,
            y: 0,
            width: 640,
            height: 480,
        }
    );
    assert_eq!(paint.color.to_css_color(), "#000000FA");
    assert_eq!(canvas.committed(1, 1), None);
    assert_eq!(canvas.flush(), vec![cell(RED, 1, 1, 40)]);
}

#[test]
fn many_calls_are_reconciled_cell_by_cell() {
    let mut canvas = Canvas::new(64, 64, 64).with_cell_size(1);
    let shade = |n: usize| Color::Rgb { r: (n % 7) as u8, g: 0, b: 0 };
    for n in 0..20_000usize {
        canvas.fill_rect(n % 64, (n / 64) % 64, shade(n));
    }
    let paints = canvas.flush();
    assert_eq!(paints.len(), 64 * 64);
    for pair in paints.windows(2) {
        assert!(pair[0].color <= pair[1].color);
    }
    for n in 20_000 - 64 * 64..20_000usize {
        assert_eq!(canvas.committed(n % 64, (n / 64) % 64), Some(shade(n)));
    }
    assert_eq!(canvas.flush(), vec![]);
}

#[test]
fn queue_grows_with_each_call_and_is_emptied_by_a_flush() {
    let mut canvas = Canvas::new(100, 80, 80);
    assert_eq!(canvas.queued(), 0);
    canvas.fill_rect(0, 0, RED);
    canvas.fill_rect(0, 0, RED);
    canvas.fill_rect(2, 1, BLUE);
    assert_eq!(canvas.queued(), 3);
    assert_eq!(canvas.flush().len(), 2);
    assert_eq!(canvas.queued(), 0);
}

#[test]
fn named_and_clear_colors_are_painted_as_they_are() {
    let mut canvas = Canvas::new(80, 40, 40).with_cell_border_size(1);
    let clear = Color::Rgba { r: 10, g: 20, b: 30, a: 40 };
    canvas.fill_rect(0, 0, Color::Named(NamedColor::Black));
    canvas.fill_rect(1, 0, clear);
    let paints = canvas.flush();
    assert_eq!(paints.len(), 4);
    assert_eq!(paints[0].color, Color::Rgba { r: 245, g: 235, b: 225, a: 40 });
    assert_eq!((paints[0].x, paints[0].y, paints[0].width, paints[0].height), (40, 0, 40, 40));
    assert_eq!(paints[1].color, clear);
    assert_eq!((paints[1].x, paints[1].y, paints[1].width, paints[1].height), (41, 1, 38, 38));
    assert_eq!(paints[2].color, Color::Named(NamedColor::White));
    assert_eq!(paints[3].color, Color::Named(NamedColor::Black));
    assert_eq!(paints[3].color.to_css_color(), "black");
}
