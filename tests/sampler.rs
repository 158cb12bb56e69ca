use mandel_trace::sampler::{fill_value, render_per_pixel, trace_image, BoundaryTracer, FillPolicy};
use mandel_trace::RenderError;

fn exhaustive(width: u32, height: u32) -> FillPolicy {
    FillPolicy { min_depth: width + height, tolerance: 0 }
}

fn shade(v: u32) -> [u8; 3] {
    [v as u8, (v * 2) as u8, (v * 3) as u8]
}

fn mandelbrot(width: u32, height: u32, max: u32) -> impl Fn(u32, u32) -> u32 {
    move |x, y| {
        let aspect = width as f64 / height as f64;
        let cx = -0.5 + (x as f64 / width as f64 - 0.5) * 3.0 * aspect;
        let cy = (y as f64 / height as f64 - 0.5) * 3.0;
        let (mut zx, mut zy, mut n) = (0.0f64, 0.0f64, 0u32);
        while zx * zx + zy * zy <= 4.0 && n < max {
            let t = zx * zx - zy * zy + cx;
            zy = 2.0 * zx * zy + cy;
            zx = t;
            n += 1;
        }
        n
    }
}

#[test]
fn standard_policy_values() {
    let p = FillPolicy::standard();
    assert_eq!(p.min_depth, 6);
    assert_eq!(p.tolerance, 2);
}

#[test]
fn fill_value_below_min_depth_splits() {
    let p = FillPolicy::standard();
    assert_eq!(fill_value(5, 5, 5, 5, 5, 100, p), None);
}

#[test]
fn fill_value_all_at_limit() {
    let p = FillPolicy::standard();
    assert_eq!(fill_value(100, 100, 100, 100, 6, 100, p), Some(100));
}

#[test]
fn fill_value_small_spread_averages_down() {
    let p = FillPolicy::standard();
    assert_eq!(fill_value(10, 11, 12, 12, 7, 100, p), Some(11));
    assert_eq!(fill_value(3, 3, 3, 4, 6, 100, p), Some(3));
}

#[test]
fn fill_value_wide_spread_splits() {
    let p = FillPolicy::standard();
    assert_eq!(fill_value(10, 11, 12, 13, 7, 100, p), None);
}

#[test]
fn fill_value_touching_limit_splits() {
    let p = FillPolicy::standard();
    assert_eq!(fill_value(99, 100, 100, 100, 9, 100, p), None);
}

#[test]
fn fill_value_large_counts_do_not_overflow() {
    let p = FillPolicy { min_depth: 0, tolerance: 2 };
    assert_eq!(fill_value(u32::MAX, u32::MAX, u32::MAX, u32::MAX, 0, u32::MAX, p), Some(u32::MAX));
}

#[test]
fn trace_four_by_four_is_64_opaque_bytes_and_repeatable() {
    let eval = mandelbrot(4, 4, 50);
    let a = trace_image(4, 4, 50, FillPolicy::standard(), &eval, &shade).unwrap();
    let b = trace_image(4, 4, 50, FillPolicy::standard(), &eval, &shade).unwrap();
    assert_eq!(a.len(), 64);
    assert_eq!(a, b);
    assert!(a.chunks(4).all(|p| p[3] == 255));
}

#[test]
fn trace_refuses_empty_image() {
    let eval = |_: u32, _: u32| 0u32;
    assert_eq!(trace_image(0, 3, 10, FillPolicy::standard(), &eval, &shade).err(), Some(RenderError::DegenerateViewport));
    assert_eq!(render_per_pixel(3, 0, 10, &eval, &shade).err(), Some(RenderError::DegenerateViewport));
}

#[test]
fn exhaustive_trace_matches_per_pixel_rendering() {
    let (w, h, max) = (37u32, 23u32, 60u32);
    let eval = mandelbrot(w, h, max);
    let traced = trace_image(w, h, max, exhaustive(w, h), &eval, &shade).unwrap();
    let direct = render_per_pixel(w, h, max, &eval, &shade).unwrap();
    assert_eq!(traced, direct);
}

#[test]
fn exhaustive_trace_matches_per_pixel_on_patterned_counts() {
    let eval = |x: u32, y: u32| (x * 7 + y * 3) % 11;
    let traced = trace_image(9, 14, 10, exhaustive(9, 14), &eval, &shade).unwrap();
    let direct = render_per_pixel(9, 14, 10, &eval, &shade).unwrap();
    assert_eq!(traced, direct);
}

#[test]
fn every_pixel_opaque_with_standard_policy() {
    let eval = mandelbrot(64, 48, 80);
    let img = trace_image(64, 48, 80, FillPolicy::standard(), &eval, &shade).unwrap();
    assert_eq!(img.len(), 64 * 48 * 4);
    assert!(img.chunks(4).all(|p| p[3] == 255));
}

#[test]
fn uniform_counts_fill_uniform_color() {
    let eval = |_: u32, _: u32| 7u32;
    let img = trace_image(40, 30, 20, FillPolicy::standard(), &eval, &shade).unwrap();
    assert!(img.chunks(4).all(|p| p == [7, 14, 21, 255]));
}

#[test]
fn counts_at_limit_are_black() {
    let eval = |x: u32, _: u32| if x < 2 { 20u32 } else { 4u32 };
    let img = render_per_pixel(4, 2, 20, &eval, &shade).unwrap();
    for y in 0..2usize {
        for x in 0..4usize {
            let o = (y * 4 + x) * 4;
            let want = if x < 2 { [0, 0, 0, 255] } else { [4, 8, 12, 255] };
            assert_eq!(&img[o..o + 4], &want);
        }
    }
}

#[test]
fn memoised_lookup_returns_first_count() {
    let mut t = BoundaryTracer::new(3, 3, 10, FillPolicy::standard()).unwrap();
    let first = |_: u32, _: u32| 4u32;
    let second = |_: u32, _: u32| 9u32;
    assert_eq!(t.get_pixel_color(1, 2, &first), 4);
    assert_eq!(t.get_pixel_color(1, 2, &second), 4);
    assert_eq!(t.get_pixel_color(2, 2, &second), 9);
}

#[test]
fn color_components_black_at_limit() {
    let t = BoundaryTracer::new(2, 2, 10, FillPolicy::standard()).unwrap();
    assert_eq!(t.get_color_components(10, &shade), [0, 0, 0]);
    assert_eq!(t.get_color_components(3, &shade), [3, 6, 9]);
}

#[test]
fn tracer_new_refuses_empty_image() {
    assert!(matches!(BoundaryTracer::new(0, 1, 10, FillPolicy::standard()), Err(RenderError::DegenerateViewport)));
}

#[test]
fn single_pixel_image() {
    let eval = |_: u32, _: u32| 3u32;
    let img = trace_image(1, 1, 10, FillPolicy::standard(), &eval, &shade).unwrap();
    assert_eq!(img, vec![3, 6, 9, 255]);
}

#[test]
fn agreeing_corners_fill_whole_rectangle_at_min_depth() {
    let eval = |x: u32, y: u32| if (x == 0 || x == 4) && (y == 0 || y == 4) { 3u32 } else { 9u32 };
    let policy = FillPolicy { min_depth: 0, tolerance: 0 };
    let img = trace_image(5, 5, 20, policy, &eval, &shade).unwrap();
    assert!(img.chunks(4).all(|p| p == [3, 6, 9, 255]));
}

#[test]
fn close_corners_fill_with_their_average() {
    let eval = |x: u32, y: u32| match (x, y) {
        (0, 0) => 4u32,
        (3, 0) => 5,
        (0, 2) => 6,
        (3, 2) => 6,
        _ => 1,
    };
    let policy = FillPolicy { min_depth: 0, tolerance: 2 };
    let img = trace_image(4, 3, 20, policy, &eval, &shade).unwrap();
    assert!(img.chunks(4).all(|p| p == [5, 10, 15, 255]));
}

#[test]
fn corners_below_min_depth_are_split_to_pixels() {
    let eval = |x: u32, y: u32| if (x == 0 || x == 4) && (y == 0 || y == 4) { 3u32 } else { 9u32 };
    let policy = FillPolicy { min_depth: 10, tolerance: 0 };
    let traced = trace_image(5, 5, 20, policy, &eval, &shade).unwrap();
    let direct = render_per_pixel(5, 5, 20, &eval, &shade).unwrap();
    assert_eq!(traced, direct);
    assert_eq!(&traced[(2 * 5 + 2) * 4..(2 * 5 + 2) * 4 + 4], &[9, 18, 27, 255]);
}
