use wl_harmonograph::curve::Scale;
use wl_harmonograph::output::{initial_size, Outputs};

fn ratio(s: Scale) -> f64 {
    s.num as f64 / s.den as f64
}

fn configured(sizes: &[(u32, u32)]) -> Outputs {
    let mut outputs = Outputs::new();
    for (k, (w, h)) in sizes.iter().enumerate() {
        let id = k as u32;
        outputs.new_output(id);
        outputs.place_surface(id, 100 + id, 1, 1);
        assert_eq!(outputs.configure(100 + id, *w, *h), Some(k));
    }
    outputs
}

#[test]
fn initial_sizes() {
    assert_eq!(initial_size(Some((2560, 1440))), (2560, 1440));
    assert_eq!(initial_size(None), (1920, 1080));
    assert_eq!(initial_size(Some((-1, i32::MIN))), (u32::MAX, 0x8000_0000));
}

#[test]
fn no_scales_without_a_configured_output() {
    let mut outputs = Outputs::new();
    assert_eq!(outputs.scales(), None);
    outputs.new_output(1);
    outputs.place_surface(1, 10, 1920, 1080);
    assert_eq!(outputs.scales(), None);
    outputs.configure(10, 1920, 1080);
    assert!(outputs.scales().is_some());
}

#[test]
fn the_pattern_stays_square() {
    for (w, h) in [(1920, 1080), (1080, 1920), (1000, 1000), (5120, 1440)] {
        let (x, y) = configured(&[(w, h)]).scales().unwrap();
        let least = w.min(h) as f64;
        assert_eq!(ratio(x), least * 0.8 / w as f64);
        assert_eq!(ratio(y), least * 0.8 / h as f64);
        assert_eq!(x.num * w as u64 * y.den, y.num * h as u64 * x.den);
    }
    let (x, y) = configured(&[(1920, 1080)]).scales().unwrap();
    assert_eq!(
        (x, y),
        (
            Scale {
                num: 4320,
                den: 9600
            },
            Scale {
                num: 4320,
                den: 5400
            }
        )
    );
}

#[test]
fn the_largest_output_gives_the_scales() {
    let several = configured(&[(1280, 720), (2560, 1440), (1920, 1080)]);
    assert_eq!(several.scales(), configured(&[(2560, 1440)]).scales());
    // A narrower output that is higher counts for nothing.
    let crossed = configured(&[(3840, 1080), (1080, 1920)]);
    assert_eq!(crossed.scales(), configured(&[(3840, 1080)]).scales());
    for sizes in [
        [(1920, 1080), (1000, 1900)],
        [(1000, 1900), (1920, 1080)],
    ] {
        let (x, y) = configured(&sizes).scales().unwrap();
        assert_eq!((ratio(x), ratio(y)), (0.45, 0.8));
    }
}

#[test]
fn of_equal_areas_the_wider_is_the_larger() {
    let wide = configured(&[(1920, 1080)]).scales();
    assert_eq!(configured(&[(1920, 1080), (1080, 1920)]).scales(), wide);
    assert_eq!(configured(&[(1080, 1920), (1920, 1080)]).scales(), wide);
    let greatest = configured(&[(u32::MAX, u32::MAX), (1920, 1080)]);
    assert_eq!(
        greatest.scales(),
        configured(&[(u32::MAX, u32::MAX)]).scales()
    );
}

#[test]
fn sides_of_no_length_count_as_one() {
    let outputs = configured(&[(0, 0)]);
    assert_eq!(
        outputs.scales(),
        Some((Scale { num: 4, den: 5 }, Scale { num: 4, den: 5 }))
    );
}

#[test]
fn surfaces_go_to_the_first_slot_of_their_output() {
    let mut outputs = Outputs::new();
    outputs.new_output(1);
    outputs.new_output(2);
    outputs.new_output(2);
    assert_eq!(outputs.place_surface(2, 20, 800, 600), 1);
    assert_eq!(outputs.place_surface(1, 10, 800, 600), 0);
    assert_eq!(outputs.place_surface(3, 30, 800, 600), 3);
    assert_eq!(outputs.configure(30, 8, 6), Some(3));
    assert_eq!(outputs.configure(40, 8, 6), None);
    // A surface that takes the place of another is not configured yet.
    assert_eq!(outputs.place_surface(3, 31, 800, 600), 3);
    assert_eq!(outputs.configure(30, 8, 6), None);
    assert_eq!(outputs.scales(), None);
}

#[test]
fn renderers_are_made_once_for_each_size() {
    let mut outputs = Outputs::new();
    outputs.new_output(1);
    assert_eq!(outputs.init_renderer(0), None);
    outputs.place_surface(1, 10, 800, 600);
    outputs.configure(10, 640, 480);
    assert_eq!(outputs.init_renderer(0), Some((640, 480)));
    assert_eq!(outputs.init_renderer(0), None);
    assert_eq!(outputs.init_renderer(1), None);
    outputs.configure(10, 640, 480);
    assert_eq!(outputs.init_renderer(0), None);
    assert_eq!(outputs.rendered_slots(), vec![0]);
    outputs.configure(10, 640, 481);
    assert_eq!(outputs.rendered_slots(), Vec::<usize>::new());
    assert_eq!(outputs.init_renderer(0), Some((640, 481)));
    assert_eq!(outputs.drawn_slots(), vec![0]);
}

#[test]
fn which_slots_are_drawn_and_which_cleared() {
    let mut outputs = Outputs::new();
    for id in 0..4 {
        outputs.new_output(id);
    }
    for id in 1..4 {
        outputs.place_surface(id, 10 + id, 800, 600);
    }
    // Slot 1 has only a renderer, slot 2 is only configured, slot 3 is both.
    outputs.init_renderer(1);
    outputs.configure(12, 800, 600);
    outputs.configure(13, 800, 600);
    outputs.init_renderer(3);
    assert_eq!(outputs.drawn_slots(), vec![3]);
    assert_eq!(outputs.rendered_slots(), vec![1, 3]);
}

#[test]
fn an_output_that_goes_leaves_no_trace() {
    let mut outputs = configured(&[(1920, 1080), (2560, 1440)]);
    let before = outputs.scales();
    outputs.new_output(9);
    outputs.place_surface(9, 90, 1, 1);
    outputs.configure(90, 5000, 5000);
    assert_ne!(outputs.scales(), before);
    outputs.output_destroyed(9);
    assert_eq!(outputs.scales(), before);
    assert_eq!(outputs.configure(90, 1, 1), None);
    outputs.output_destroyed(0);
    assert_eq!(outputs.configure(101, 1, 1), Some(0));
}
