use langton::{Animation, Canvas, Color, Next, Paint, Phase};

const RED: Color = Color::Rgb { r: 255, g: 0, b: 0 };

#[test]
fn animation_starts_scheduled() {
    let animation = Animation::new(Canvas::new(100, 100, 100));
    assert_eq!(animation.phase(), Phase::Scheduled);
    assert_eq!(animation.surface().width(), 3);
}

#[test]
fn animation_ends_with_the_tick_in_which_the_step_returns_true() {
    for last in 1..=6usize {
        let mut animation = Animation::new(Canvas::new(400, 40, 40));
        let mut runs = 0usize;
        let mut step = |canvas: &mut Canvas| {
            canvas.fill_rect(runs, 0, RED);
            runs += 1;
            runs == last
        };
        let mut ticks = 0usize;
        let mut flushed = 0usize;
        while animation.phase() == Phase::Scheduled {
            let frame = animation.tick(&mut step);
            ticks += 1;
            flushed += frame.paints.len();
            if ticks < last {
                assert_eq!(frame.next, Next::Reschedule);
                assert_eq!(animation.phase(), Phase::Scheduled);
            } else {
                assert_eq!(frame.next, Next::Resolve);
                assert_eq!(animation.phase(), Phase::Completed);
            }
        }
        assert_eq!(ticks, last);
        assert_eq!(runs, last);
        assert_eq!(flushed, last);
    }
}

#[test]
fn last_tick_is_flushed_too() {
    let mut animation = Animation::new(Canvas::new(100, 100, 100));
    let mut step = |canvas: &mut Canvas| {
        canvas.fill_rect(2, 1, RED);
        true
    };
    let frame = animation.tick(&mut step);
    assert_eq!(frame.next, Next::Resolve);
    assert_eq!(
        frame.paints,
        vec![Paint {
            color: RED,
            x: 80,
            y: 40,
            width: 40,
            height: 40,
        }]
    );
    let surface = animation.into_surface();
    assert_eq!(surface.committed(2, 1), Some(RED));
}

#[test]
fn fire_and_settle_walk_through_the_phases() {
    let mut canvas = Canvas::new(100, 100, 100);
    canvas.fill_rect(0, 0, RED);
    let mut animation = Animation::new(canvas);
    animation.fire();
    assert_eq!(animation.phase(), Phase::Running);
    let frame = animation.settle(false);
    assert_eq!(frame.next, Next::Reschedule);
    assert_eq!(frame.paints.len(), 1);
    assert_eq!(animation.phase(), Phase::Scheduled);
    animation.fire();
    let frame = animation.settle(true);
    assert_eq!(frame.next, Next::Resolve);
    assert_eq!(frame.paints, vec![]);
    assert_eq!(animation.phase(), Phase::Completed);
}

#[test]
fn tick_paints_what_the_step_left_in_the_queue() {
    let mut canvas = Canvas::new(100, 100, 100);
    canvas.fill_rect(0, 0, RED);
    let mut animation = Animation::new(canvas);
    let mut step = |canvas: &mut Canvas| {
        canvas.fill_rect(0, 0, Color::Rgb { r: 0, g: 0, b: 255 });
        canvas.fill_rect(1, 2, RED);
        false
    };
    let frame = animation.tick(&mut step);
    assert_eq!(frame.next, Next::Reschedule);
    assert_eq!(
        frame.paints,
        vec![
            Paint {
                color: Color::Rgb { r: 0, g: 0, b: 255 },
                x: 0,
                y: 0,
                width: 40,
                height: 40,
            },
            Paint {
                color: RED,
                x: 40,
                y: 80,
                width: 40,
                height: 40,
            },
        ]
    );
    assert_eq!(animation.surface().queued(), 0);
    // the same calls again change nothing
    let frame = animation.tick(&mut step);
    assert_eq!(frame.paints, vec![]);
    assert_eq!(animation.phase(), Phase::Scheduled);
}
