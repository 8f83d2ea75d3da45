use wl_harmonograph::color::{colors_from_env, Color};
use wl_harmonograph::curve::{Point, Scale};
use wl_harmonograph::pendulum::{Draws, Swing, Tuning, DRAW_STEPS};
use wl_harmonograph::palette::following;
use wl_harmonograph::wallpaper::{Action, Command, Configured, Wallpaper};

fn color(r: u32) -> Color {
    Color { r, g: 0, b: 0 }
}

fn draws() -> Draws {
    let tuning = Tuning {
        ratio: 1,
        detune: DRAW_STEPS / 2,
    };
    let swing = Swing {
        amplitude: 5,
        phase: 6,
        damping: 7,
    };
    Draws {
        base: 4,
        f_x: tuning,
        f_y: tuning,
        f_x2: tuning,
        f_y2: tuning,
        x1: swing,
        x2: swing,
        y1: swing,
        y2: swing,
    }
}

fn wallpaper(fg: Vec<Color>) -> Wallpaper {
    Wallpaper::with_draws(fg, color(99), 0, &draws())
}

fn command(action: Action, slot: usize) -> Command {
    Command { action, slot }
}

fn points(from: i64, count: i64) -> Vec<Point> {
    (from..from + count)
        .map(|k| Point { x: k * k, y: 3 * k })
        .collect()
}

#[test]
fn a_new_wallpaper() {
    let (fg, bg) = colors_from_env(None, None);
    let w = Wallpaper::new(fg.clone(), bg);
    assert!(fg.contains(&w.current_color));
    assert_eq!(w.fg_colors, fg);
    assert_eq!(w.bg_color, bg);
    assert_eq!(w.steps_per_tick, 1);
    assert_eq!(w.scale_x, Scale { num: 2, den: 5 });
    assert_eq!(w.scale_y, Scale { num: 2, den: 5 });
    assert_eq!(w.harmonograph.time(), 0);
    assert_eq!(w.tick_times(), vec![0]);
}

#[test]
fn a_single_color_is_always_found() {
    for _ in 0..50 {
        let w = Wallpaper::new(vec![color(1)], color(0));
        assert_eq!(w.current_color, color(1));
    }
}

#[test]
fn a_new_color_is_another_one() {
    let mut w = wallpaper(vec![color(1), color(2), color(1), color(3)]);
    let mut seen = [false; 4];
    for _ in 0..300 {
        let before = w.current_color;
        w.pick_new_color();
        assert_ne!(w.current_color, before);
        assert!(w.fg_colors.contains(&w.current_color));
        seen[w.current_color.r as usize] = true;
    }
    assert_eq!(seen, [false, true, true, true]);
}

#[test]
fn the_colors_are_cycled_through() {
    let palette = vec![color(1), color(2), color(1), color(3), color(2)];
    let mut w = wallpaper(palette.clone());
    for _ in 0..3 {
        for next in [2, 3, 1] {
            w.pick_new_color();
            assert_eq!(w.current_color, color(next));
        }
    }
    assert_eq!(w.fg_colors, palette);
    w.restart();
    assert_eq!(w.current_color, color(2));
    assert_eq!(w.harmonograph.time(), 0);
}

#[test]
fn the_first_color_follows_one_from_outside() {
    let palette = vec![color(4), color(5)];
    assert_eq!(following(&palette, color(9)), color(4));
    assert_eq!(following(&palette, color(4)), color(5));
    assert_eq!(following(&palette, color(5)), color(4));
}

#[test]
fn a_palette_of_one_color_keeps_it() {
    for count in 1..4 {
        let mut w = wallpaper(vec![color(1); count]);
        w.pick_new_color();
        assert_eq!(w.current_color, color(1));
    }
}

#[test]
fn frames_before_the_first_segment_show_nothing() {
    let mut w = wallpaper(vec![color(1), color(2)]);
    for k in 0..3 {
        let frame = w.tick(&points(k, 1));
        assert!(frame.strip.is_empty());
        assert!(!frame.clear && !frame.present);
        assert_eq!(w.harmonograph.time(), k as u32 + 1);
    }
    let frame = w.tick(&points(3, 1));
    assert_eq!(frame.strip.len(), 34);
    assert!(!frame.clear && frame.present);
    assert_eq!(frame.color, color(1));
}

#[test]
fn frames_join_without_gaps() {
    let mut w = wallpaper(vec![color(1), color(2)]);
    let mut many = wallpaper(vec![color(1), color(2)]);
    many.steps_per_tick = 12;
    let whole = many.tick(&points(0, 12));
    assert_eq!(whole.strip.len(), 2 * 16 * 9 + 2);
    let mut joined = Vec::new();
    for k in 0..12 {
        let frame = w.tick(&points(k, 1));
        if joined.is_empty() {
            joined = frame.strip;
        } else {
            assert_eq!(joined[joined.len() - 2..], frame.strip[..2]);
            joined.extend_from_slice(&frame.strip[2..]);
        }
    }
    assert_eq!(joined, whole.strip);
    assert_eq!(w.harmonograph.time(), many.harmonograph.time());
}

#[test]
fn a_finished_pattern_gives_way_to_a_new_one() {
    let mut w = wallpaper(vec![color(1), color(2)]);
    w.steps_per_tick = 40_001;
    let frame = w.tick(&points(0, 40_001));
    assert!(!frame.clear && frame.present);
    assert_eq!(frame.strip.len(), 2 * 16 * 39_998 + 2);
    assert_eq!(w.current_color, color(1));
    w.steps_per_tick = 1;
    let frame = w.tick(&points(0, 1));
    assert!(frame.clear && frame.present);
    assert!(frame.strip.is_empty());
    assert_eq!(frame.color, color(1));
    assert_eq!(w.current_color, color(2));
    assert_eq!(w.harmonograph.time(), 0);
    assert!(w.harmonograph.catmull_rom_points().is_none());
    assert_ne!(
        w.harmonograph.pendulums(),
        wallpaper(vec![color(1)]).harmonograph.pendulums()
    );
}

#[test]
fn the_last_strip_is_drawn_in_the_old_color() {
    let mut w = wallpaper(vec![color(1), color(2)]);
    w.steps_per_tick = 40_000;
    w.tick(&points(0, 40_000));
    w.steps_per_tick = 5;
    assert_eq!(w.tick_times(), vec![40_000, 40_001, 40_002, 40_003, 40_004]);
    let frame = w.tick(&points(0, 5));
    assert_eq!(frame.strip.len(), 34);
    assert_eq!(frame.color, color(1));
    assert!(frame.clear && frame.present);
    assert_eq!(w.current_color, color(2));
    assert_eq!(w.harmonograph.time(), 0);
}

#[test]
fn configuring_an_output() {
    let mut w = wallpaper(vec![color(1)]);
    w.outputs.new_output(1);
    w.outputs.place_surface(1, 10, 800, 600);
    assert_eq!(w.configure(11, 1920, 1080), None);
    assert_eq!(w.scale_x, Scale { num: 2, den: 5 });
    assert_eq!(
        w.configure(10, 1920, 1080),
        Some(Configured {
            slot: 0,
            width: 1920,
            height: 1080,
            make_renderer: true
        })
    );
    assert_eq!(
        w.scale_x,
        Scale {
            num: 4320,
            den: 9600
        }
    );
    assert_eq!(
        w.configure(10, 0, 1080),
        Some(Configured {
            slot: 0,
            width: 1,
            height: 1080,
            make_renderer: true
        })
    );
    assert_eq!(
        w.configure(10, 0, 1080),
        Some(Configured {
            slot: 0,
            width: 1,
            height: 1080,
            make_renderer: false
        })
    );
    assert_eq!(w.outputs.drawn_slots(), vec![0]);
    assert_eq!(w.scale_x, Scale { num: 4, den: 5 });
    assert_eq!(
        w.scale_y,
        Scale {
            num: 4,
            den: 5400
        }
    );
}

#[test]
fn what_a_frame_does_on_the_outputs() {
    let mut w = wallpaper(vec![color(1), color(2)]);
    for id in 0..3 {
        w.outputs.new_output(id);
        w.outputs.place_surface(id, 10 + id, 800, 600);
    }
    w.configure(10, 800, 600);
    w.configure(12, 800, 600);
    // The second output has a renderer but no size yet.
    w.outputs.init_renderer(1);
    let idle = w.tick(&points(0, 1));
    assert_eq!(
        w.commands(&idle),
        vec![command(Action::Fade, 0), command(Action::Fade, 2)]
    );
    w.steps_per_tick = 4;
    let drawing = w.tick(&points(1, 4));
    assert_eq!(
        w.commands(&drawing),
        vec![
            command(Action::Fade, 0),
            command(Action::Fade, 2),
            command(Action::Draw, 0),
            command(Action::Draw, 2),
            command(Action::Present, 0),
            command(Action::Present, 2)
        ]
    );
    w.steps_per_tick = 40_001;
    let last = w.tick(&points(0, 40_001));
    assert_eq!(
        w.commands(&last),
        vec![
            command(Action::Fade, 0),
            command(Action::Fade, 2),
            command(Action::Draw, 0),
            command(Action::Draw, 2),
            command(Action::Clear, 0),
            command(Action::Clear, 1),
            command(Action::Clear, 2),
            command(Action::Present, 0),
            command(Action::Present, 2)
        ]
    );
}

#[test]
fn every_new_pattern_takes_the_next_color() {
    let mut w = wallpaper(vec![color(1), color(2), color(3)]);
    w.steps_per_tick = 40_002;
    for (old, new) in [(1, 2), (2, 3), (3, 1), (1, 2)] {
        let frame = w.tick(&points(0, 40_002));
        assert!(frame.clear);
        assert_eq!(frame.color, color(old));
        assert_eq!(w.current_color, color(new));
    }
}

#[test]
fn when_a_pattern_ends() {
    for (steps, ends) in [(40_001, false), (40_002, true)] {
        let mut w = wallpaper(vec![color(1)]);
        w.steps_per_tick = steps;
        let frame = w.tick(&points(0, steps as i64));
        assert_eq!(frame.clear, ends);
        assert_eq!(w.harmonograph.time(), if ends { 0 } else { 40_001 });
    }
    let mut w = wallpaper(vec![color(1)]);
    w.steps_per_tick = 0;
    let frame = w.tick(&Vec::new());
    assert!(frame.strip.is_empty() && !frame.clear && !frame.present);
}

#[test]
fn no_command_is_given_twice() {
    let mut w = wallpaper(vec![color(1), color(2)]);
    for id in 0..4 {
        w.outputs.new_output(id);
        w.outputs.place_surface(id, 10 + id, 800, 600);
    }
    for id in 10..13 {
        let found = w.configure(id, 800, 600).unwrap();
        assert_eq!(found.slot, id as usize - 10);
    }
    w.steps_per_tick = 40_002;
    let frame = w.tick(&points(0, 40_002));
    let commands = w.commands(&frame);
    for action in [Action::Fade, Action::Draw, Action::Clear, Action::Present] {
        for slot in 0..4 {
            let count = commands.iter().filter(|c| **c == command(action, slot)).count();
            assert_eq!(count, if slot < 3 { 1 } else { 0 });
        }
    }
    assert_eq!(commands.len(), 12);
}

#[test]
fn a_configured_output_is_always_drawn() {
    let mut w = wallpaper(vec![color(1)]);
    for id in 0..3 {
        w.outputs.new_output(id);
        w.outputs.place_surface(id, 10 + id, 0, 0);
    }
    assert_eq!(w.outputs.drawn_slots(), Vec::<usize>::new());
    w.configure(12, 0, 0);
    assert_eq!(w.outputs.drawn_slots(), vec![2]);
    w.configure(10, 5, 0);
    w.configure(12, 7, 7);
    assert_eq!(w.outputs.drawn_slots(), vec![0, 2]);
    w.outputs.output_destroyed(0);
    assert_eq!(w.outputs.drawn_slots(), vec![1]);
    assert!(w.outputs.scales().is_some());
    w.outputs.output_destroyed(2);
    assert_eq!(w.outputs.drawn_slots(), Vec::<usize>::new());
    assert_eq!(w.outputs.scales(), None);
}
