use buddhabrot::canvas::{Canvas, HEIGHT, MAX_ITER, SAMPLES_PER_FRAME, WIDTH};
use buddhabrot::histogram::Histogram;
use buddhabrot::orbit::trace_orbit;
use buddhabrot::tone::tone_map;

type Complex = (f64, f64);

const RE_MIN: f64 = -2.0;
const RE_MAX: f64 = 1.0;
const IM_MIN: f64 = -1.5;
const IM_MAX: f64 = 1.5;

fn mandel_step(c: Complex, z: Complex) -> (Complex, bool) {
    let re = z.0 * z.0 - z.1 * z.1 + c.0;
    let im = 2.0 * z.0 * z.1 + c.1;
    ((re, im), re * re + im * im > 4.0)
}

fn project_onto(width: u32, height: u32) -> impl Fn(Complex) -> (i32, i32) {
    move |z: Complex| {
        let x = ((z.0 - RE_MIN) / (RE_MAX - RE_MIN) * (width as f64)).floor() as i32;
        let y = ((z.1 - IM_MIN) / (IM_MAX - IM_MIN) * (height as f64)).floor() as i32;
        (x, y)
    }
}

fn log_shade(count: u32, max_count: u32) -> u8 {
    let denom = (max_count.max(1) as f64 + 1.0).ln();
    ((count as f64 + 1.0).ln() / denom * 255.0).clamp(0.0, 255.0) as u8
}

#[test]
fn new_histogram_is_empty() {
    let h = Histogram::new(4, 3);
    assert_eq!(h.width(), 4);
    assert_eq!(h.height(), 3);
    assert_eq!(h.counts().len(), 12);
    assert!(h.counts().iter().all(|&c| c == 0));
    assert_eq!(h.max_count(), 1);
}

#[test]
fn record_counts_hits_and_tracks_maximum() {
    let mut h = Histogram::new(4, 3);
    h.record((1, 2));
    assert_eq!(h.count_at(1, 2), Some(1));
    assert_eq!(h.counts()[2 * 4 + 1], 1);
    assert_eq!(h.max_count(), 1);
    h.record((1, 2));
    h.record((3, 0));
    assert_eq!(h.count_at(1, 2), Some(2));
    assert_eq!(h.count_at(3, 0), Some(1));
    assert_eq!(h.max_count(), 2);
    assert_eq!(h.counts().iter().map(|&c| c as u64).sum::<u64>(), 3);
}

#[test]
fn record_outside_grid_writes_nothing() {
    let mut h = Histogram::new(4, 3);
    for p in [(-1, 0), (0, -1), (4, 0), (0, 3), (i32::MAX, i32::MIN), (i32::MIN, 1)] {
        h.record(p);
    }
    assert!(h.counts().iter().all(|&c| c == 0));
    assert_eq!(h.max_count(), 1);
    assert_eq!(h.count_at(4, 0), None);
    assert_eq!(h.count_at(-1, 2), None);
}

#[test]
fn record_all_takes_hits_in_order() {
    let mut h = Histogram::new(2, 2);
    h.record_all(&vec![(0, 0), (1, 1), (0, 0), (5, 5), (0, 0)]);
    assert_eq!(h.counts(), &vec![3, 0, 0, 1]);
    assert_eq!(h.max_count(), 3);
}

#[test]
fn counters_never_decrease_across_records() {
    let mut h = Histogram::new(3, 3);
    let mut before = h.counts().clone();
    for k in 0..50i32 {
        h.record((k % 5 - 1, k % 4));
        for (a, b) in before.iter().zip(h.counts().iter()) {
            assert!(a <= b);
        }
        assert!(h.counts().iter().all(|&c| c <= h.max_count()));
        assert!(h.max_count() >= 1);
        before = h.counts().clone();
    }
}

#[test]
fn boundary_parameter_two_escapes_at_second_step() {
    let mut orbit = Vec::new();
    let escaped = trace_orbit((2.0, 0.0), (0.0, 0.0), &mandel_step, MAX_ITER, &mut orbit);
    assert!(escaped);
    assert_eq!(orbit, vec![(2.0, 0.0)]);
}

#[test]
fn boundary_parameter_two_within_one_step_does_not_escape() {
    let mut orbit = Vec::new();
    let escaped = trace_orbit((2.0, 0.0), (0.0, 0.0), &mandel_step, 1, &mut orbit);
    assert!(!escaped);
    assert_eq!(orbit, vec![(2.0, 0.0)]);
}

#[test]
fn zero_parameter_never_escapes() {
    for n in [0u32, 1, 7, MAX_ITER] {
        let mut orbit = vec![(9.0, 9.0)];
        let escaped = trace_orbit((0.0, 0.0), (0.0, 0.0), &mandel_step, n, &mut orbit);
        assert!(!escaped);
        assert_eq!(orbit.len(), n as usize);
        assert!(orbit.iter().all(|&z| z == (0.0, 0.0)));
    }
}

#[test]
fn escaping_point_is_not_kept() {
    let mut orbit = vec![(7.0, 7.0); 3];
    let escaped = trace_orbit((0.5, 0.0), (0.0, 0.0), &mandel_step, 100, &mut orbit);
    assert!(escaped);
    assert_eq!(orbit, vec![(0.5, 0.0), (0.75, 0.0), (1.0625, 0.0), (1.62890625, 0.0)]);
}

#[test]
fn tone_map_fixes_both_ends_and_is_gray() {
    let counts = vec![0u32, 1, 3, 2];
    let mut rgba = vec![9u8; 16];
    tone_map(&counts, 3, &log_shade, &mut rgba);
    assert_eq!(&rgba[0..4], &[0, 0, 0, 255]);
    assert_eq!(&rgba[4..8], &[127, 127, 127, 255]);
    assert_eq!(&rgba[8..12], &[255, 255, 255, 255]);
    let l = log_shade(2, 3);
    assert_eq!(l, 202);
    assert_eq!(&rgba[12..16], &[l, l, l, 255]);
}

#[test]
fn tone_map_ends_hold_whatever_the_curve() {
    let counts = vec![0u32, 5, 2];
    let mut rgba = vec![0u8; 12];
    tone_map(&counts, 5, &|_: u32, _: u32| 77u8, &mut rgba);
    assert_eq!(rgba, vec![0, 0, 0, 255, 255, 255, 255, 255, 77, 77, 77, 255]);
}

#[test]
fn tone_map_is_deterministic() {
    let counts: Vec<u32> = (0..64u32).map(|i| (i * 37) % 11).collect();
    let mut a = vec![0u8; 256];
    let mut b = vec![1u8; 256];
    tone_map(&counts, 10, &log_shade, &mut a);
    tone_map(&counts, 10, &log_shade, &mut b);
    assert_eq!(a, b);
}

#[test]
fn new_canvas_is_blank_and_dirty() {
    let c = Canvas::new(5, 4);
    assert_eq!(c.histogram().counts(), &vec![0u32; 20]);
    assert_eq!(c.histogram().max_count(), 1);
    assert_eq!(c.image(), &vec![0u8; 80]);
    assert!(c.is_dirty());
}

#[test]
fn frame_of_non_escaping_parameters_changes_no_counter() {
    let mut c = Canvas::new(8, 8);
    c.run_frame(200, &|| (0.5, 0.0), (0.0, 0.0), &mandel_step, 50, &project_onto(8, 8), &log_shade);
    let before = c.histogram().counts().clone();
    let max_before = c.histogram().max_count();
    c.run_frame(300, &|| (0.0, 0.0), (0.0, 0.0), &mandel_step, 50, &project_onto(8, 8), &log_shade);
    assert_eq!(c.histogram().counts(), &before);
    assert_eq!(c.histogram().max_count(), max_before);
    assert!(c.is_dirty());
}

#[test]
fn frame_counts_the_kept_points_of_escaping_orbits() {
    let (w, h) = (12u32, 12u32);
    let project = project_onto(w, h);
    let mut c = Canvas::new(w, h);
    c.run_frame(3, &|| (0.5, 0.0), (0.0, 0.0), &mandel_step, 100, &project, &log_shade);
    let mut expected = vec![0u32; (w * h) as usize];
    for z in [(0.5, 0.0), (0.75, 0.0), (1.0625, 0.0), (1.62890625, 0.0)] {
        let (x, y) = project(z);
        if 0 <= x && x < w as i32 && 0 <= y && y < h as i32 {
            expected[(y as u32 * w + x as u32) as usize] += 3;
        }
    }
    assert_eq!(c.histogram().counts(), &expected);
    assert_eq!(expected.iter().sum::<u32>(), 6);
    let max = *expected.iter().max().unwrap();
    assert_eq!(c.histogram().max_count(), max);
    let img = c.image();
    for (i, &n) in expected.iter().enumerate() {
        let want = if n == 0 { 0 } else if n == max { 255 } else { log_shade(n, max) };
        assert_eq!(&img[4 * i..4 * i + 4], &[want, want, want, 255]);
    }
}

#[test]
fn frame_ignores_points_outside_the_window() {
    let mut c = Canvas::new(10, 10);
    c.run_frame(5, &|| (2.0, 0.0), (0.0, 0.0), &mandel_step, 100, &project_onto(10, 10), &log_shade);
    assert!(c.histogram().counts().iter().all(|&n| n == 0));
    assert_eq!(c.histogram().max_count(), 1);
}

#[test]
fn frames_only_raise_counters_and_keep_maximum_consistent() {
    let mut c = Canvas::new(16, 16);
    let params = [(-0.75, 0.2), (0.3, 0.5), (-1.9, 0.01), (0.26, 0.0)];
    let mut before = c.histogram().counts().clone();
    for (k, &p) in params.iter().enumerate() {
        c.run_frame(k + 1, &move || p, (0.0, 0.0), &mandel_step, 500, &project_onto(16, 16), &log_shade);
        let now = c.histogram().counts();
        assert!(before.iter().zip(now.iter()).all(|(a, b)| a <= b));
        assert!(now.iter().all(|&n| n <= c.histogram().max_count()));
        assert!(c.histogram().max_count() >= 1);
        before = now.clone();
    }
}

#[test]
fn default_configuration() {
    assert_eq!(WIDTH, 1000);
    assert_eq!(HEIGHT, 1000);
    assert_eq!(MAX_ITER, 10_000);
    assert_eq!(SAMPLES_PER_FRAME, 20_000);
}

#[test]
fn sample_two_keeps_one_point_outside_the_window() {
    let mut c = Canvas::new(WIDTH, HEIGHT);
    let mut orbit = vec![(5.0, 5.0)];
    let project = project_onto(WIDTH, HEIGHT);
    let escaped = c.add_sample((2.0, 0.0), (0.0, 0.0), &mandel_step, MAX_ITER, &project, &mut orbit);
    assert!(escaped);
    assert_eq!(orbit, vec![(2.0, 0.0)]);
    assert_eq!(project((2.0, 0.0)), (1333, 500));
    assert!(c.histogram().counts().iter().all(|&n| n == 0));
    assert_eq!(c.histogram().max_count(), 1);
}

#[test]
fn sample_zero_adds_nothing() {
    let mut c = Canvas::new(10, 10);
    let mut orbit = Vec::new();
    let escaped = c.add_sample((0.0, 0.0), (0.0, 0.0), &mandel_step, 64, &project_onto(10, 10), &mut orbit);
    assert!(!escaped);
    assert_eq!(orbit.len(), 64);
    assert!(c.histogram().counts().iter().all(|&n| n == 0));
    assert_eq!(c.histogram().max_count(), 1);
}

#[test]
fn sample_counts_each_kept_point_once() {
    let mut c = Canvas::new(3, 3);
    let mut orbit = Vec::new();
    let project = |z: Complex| (z.0 as i32, z.1 as i32);
    let escaped = c.add_sample((0.5, 0.0), (0.0, 0.0), &mandel_step, 100, &project, &mut orbit);
    assert!(escaped);
    // kept points 0.5, 0.75, 1.0625, 1.62890625 land in columns 0, 0, 1, 1
    assert_eq!(c.histogram().counts(), &vec![2, 2, 0, 0, 0, 0, 0, 0, 0]);
    assert_eq!(c.histogram().max_count(), 2);
    assert_eq!(c.image(), &vec![0u8; 36]);
}

#[test]
fn projection_drops_points_just_below_the_window() {
    let project = project_onto(WIDTH, HEIGHT);
    let p = project((0.0, -1.501));
    assert_eq!(p, (666, -1));
    let mut h = Histogram::new(WIDTH, HEIGHT);
    h.record(p);
    assert!(h.counts().iter().all(|&n| n == 0));
    assert_eq!(h.max_count(), 1);
}
