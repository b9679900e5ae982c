use daniengine::render::canvas::{Canvas, Color};
use daniengine::render::frame::FrameBuffer;
use std::collections::BTreeSet;

const INK: Color = Color(10, 20, 30, 40);
const PAPER: Color = Color(0, 0, 0, 0);

fn rgba(c: Color) -> (u8, u8, u8, u8) {
    (c.0, c.1, c.2, c.3)
}

fn frame(width: u32, height: u32) -> FrameBuffer {
    FrameBuffer::new(width, height).unwrap()
}

/// The pixels of `fb` that hold `color`.
fn painted(fb: &FrameBuffer, color: Color) -> BTreeSet<(i32, i32)> {
    let (w, h) = fb.size();
    let mut out = BTreeSet::new();
    for y in 0..h {
        for x in 0..w {
            if rgba(fb.pixel_at(x, y).unwrap()) == rgba(color) {
                out.insert((x as i32, y as i32));
            }
        }
    }
    out
}

fn clip(points: &[(i32, i32)], w: i32, h: i32) -> BTreeSet<(i32, i32)> {
    points.iter().copied().filter(|&(x, y)| 0 <= x && x < w && 0 <= y && y < h).collect()
}

/// The points that the classic error-term line walk visits.
fn line_walk(x1: i32, y1: i32, x2: i32, y2: i32) -> Vec<(i32, i32)> {
    let (mut x, mut y) = (x1, y1);
    let dx = (x2 - x1).abs();
    let sx = if x1 < x2 { 1 } else { -1 };
    let dy = -(y2 - y1).abs();
    let sy = if y1 < y2 { 1 } else { -1 };
    let mut err = dx + dy;
    let mut out = Vec::new();
    loop {
        out.push((x, y));
        if x == x2 && y == y2 {
            break;
        }
        let e2 = 2 * err;
        if e2 >= dy {
            err += dy;
            x += sx;
        }
        if e2 <= dx {
            err += dx;
            y += sy;
        }
    }
    out
}

/// The points that the classic midpoint circle walk visits.
fn circle_walk(cx: i32, cy: i32, radius: i32) -> Vec<(i32, i32)> {
    let mut out = Vec::new();
    if radius <= 0 {
        return out;
    }
    let mut x = 0;
    let mut y = radius;
    let mut d = 1 - radius;
    out.push((cx, cy + radius));
    out.push((cx, cy - radius));
    out.push((cx + radius, cy));
    out.push((cx - radius, cy));
    while x < y {
        if d < 0 {
            d += 2 * x + 3;
        } else {
            d += 2 * (x - y) + 5;
            y -= 1;
        }
        x += 1;
        out.push((cx + x, cy + y));
        out.push((cx - x, cy + y));
        out.push((cx + x, cy - y));
        out.push((cx - x, cy - y));
        out.push((cx + y, cy + x));
        out.push((cx - y, cy + x));
        out.push((cx + y, cy - x));
        out.push((cx - y, cy - x));
    }
    out
}

#[test]
fn new_frame_is_zeroed() {
    let fb = frame(7, 5);
    assert_eq!(fb.size(), (7, 5));
    assert_eq!(fb.as_bytes().len(), 7 * 5 * 4);
    assert!(fb.as_bytes().iter().all(|&b| b == 0));
    assert_eq!(rgba(fb.pixel_at(6, 4).unwrap()), (0, 0, 0, 0));
}

#[test]
fn empty_frames_exist() {
    let mut fb = frame(0, 9);
    assert_eq!(fb.size(), (0, 9));
    assert!(fb.as_bytes().is_empty());
    assert!(fb.pixel_at(0, 0).is_none());
    fb.clear(INK);
    fb.fill_rect(-3, -3, 10, 10, INK);
    fb.draw_line(-5, 2, 5, 3, INK);
    fb.draw_circle(0, 0, 4, INK);
    assert!(fb.as_bytes().is_empty());
    assert!(FrameBuffer::new(4, 0).is_some());
    assert!(FrameBuffer::new(0, 0).is_some());
}

#[test]
fn frame_too_large_is_refused() {
    assert!(FrameBuffer::new(u32::MAX, u32::MAX).is_none());
    assert!(FrameBuffer::new(u32::MAX, 0x8000_0000).is_none());
}

#[test]
fn pixel_outside_the_frame_is_none() {
    let fb = frame(3, 2);
    assert!(fb.pixel_at(3, 0).is_none());
    assert!(fb.pixel_at(0, 2).is_none());
    assert!(fb.pixel_at(u32::MAX, u32::MAX).is_none());
    assert!(fb.pixel_at(2, 1).is_some());
}

#[test]
fn bytes_are_row_major_rgba() {
    let mut fb = frame(3, 2);
    fb.fill_rect(1, 1, 1, 1, Color(1, 2, 3, 4));
    let mut expected = vec![0u8; 24];
    expected[16..20].copy_from_slice(&[1, 2, 3, 4]);
    assert_eq!(fb.as_bytes(), &expected[..]);
}

#[test]
fn clear_paints_every_pixel() {
    let mut fb = frame(5, 4);
    fb.fill_rect(1, 1, 2, 2, Color(9, 9, 9, 9));
    fb.clear(INK);
    assert_eq!(painted(&fb, INK).len(), 20);
    for chunk in fb.as_bytes().chunks(4) {
        assert_eq!(chunk, &[10, 20, 30, 40]);
    }
}

#[test]
fn fill_rect_paints_exactly_the_rectangle() {
    let mut fb = frame(8, 6);
    fb.fill_rect(2, 1, 3, 4, INK);
    let mut expected = BTreeSet::new();
    for y in 1..5 {
        for x in 2..5 {
            expected.insert((x, y));
        }
    }
    assert_eq!(painted(&fb, INK), expected);
    assert_eq!(painted(&fb, PAPER).len(), 48 - 12);
}

#[test]
fn fill_rect_is_clipped_to_the_frame() {
    let mut fb = frame(4, 4);
    fb.fill_rect(-2, -1, 4, 3, INK);
    let expected: BTreeSet<(i32, i32)> = [(0, 0), (1, 0), (0, 1), (1, 1)].into_iter().collect();
    assert_eq!(painted(&fb, INK), expected);

    let mut fb = frame(4, 4);
    fb.fill_rect(3, 2, 10, 10, INK);
    let expected: BTreeSet<(i32, i32)> = [(3, 2), (3, 3)].into_iter().collect();
    assert_eq!(painted(&fb, INK), expected);

    let mut fb = frame(4, 4);
    fb.fill_rect(4, 0, 2, 2, INK);
    fb.fill_rect(0, 4, 2, 2, INK);
    fb.fill_rect(-2, 0, 2, 2, INK);
    fb.fill_rect(0, -2, 2, 2, INK);
    assert!(painted(&fb, INK).is_empty());
}

#[test]
fn fill_rect_without_extent_paints_nothing() {
    let mut fb = frame(4, 4);
    fb.fill_rect(1, 1, 0, 3, INK);
    fb.fill_rect(1, 1, 3, 0, INK);
    fb.fill_rect(1, 1, -2, 3, INK);
    fb.fill_rect(1, 1, 3, -2, INK);
    fb.fill_rect(1, 1, i32::MIN, i32::MIN, INK);
    assert!(painted(&fb, INK).is_empty());
}

#[test]
fn fill_rect_takes_extreme_coordinates() {
    let mut fb = frame(3, 3);
    fb.fill_rect(i32::MAX, i32::MAX, i32::MAX, i32::MAX, INK);
    fb.fill_rect(i32::MIN, i32::MIN, i32::MAX, i32::MAX, INK);
    assert!(painted(&fb, INK).is_empty());
    fb.fill_rect(1, 2, i32::MAX, i32::MAX, INK);
    let expected: BTreeSet<(i32, i32)> = [(1, 2), (2, 2)].into_iter().collect();
    assert_eq!(painted(&fb, INK), expected);
    fb.fill_rect(-1, -1, i32::MAX, i32::MAX, INK);
    assert_eq!(painted(&fb, INK).len(), 9);
}

#[test]
fn line_of_one_point() {
    let mut fb = frame(5, 5);
    fb.draw_line(2, 3, 2, 3, INK);
    let expected: BTreeSet<(i32, i32)> = [(2, 3)].into_iter().collect();
    assert_eq!(painted(&fb, INK), expected);
}

#[test]
fn horizontal_and_vertical_lines() {
    let mut fb = frame(6, 6);
    fb.draw_line(1, 2, 4, 2, INK);
    let expected: BTreeSet<(i32, i32)> = [(1, 2), (2, 2), (3, 2), (4, 2)].into_iter().collect();
    assert_eq!(painted(&fb, INK), expected);

    let mut fb = frame(6, 6);
    fb.draw_line(3, 5, 3, 1, INK);
    let expected: BTreeSet<(i32, i32)> =
        [(3, 1), (3, 2), (3, 3), (3, 4), (3, 5)].into_iter().collect();
    assert_eq!(painted(&fb, INK), expected);
}

#[test]
fn diagonal_lines() {
    let mut fb = frame(5, 5);
    fb.draw_line(0, 0, 4, 4, INK);
    let expected: BTreeSet<(i32, i32)> =
        [(0, 0), (1, 1), (2, 2), (3, 3), (4, 4)].into_iter().collect();
    assert_eq!(painted(&fb, INK), expected);

    let mut fb = frame(5, 5);
    fb.draw_line(4, 0, 0, 4, INK);
    let expected: BTreeSet<(i32, i32)> =
        [(4, 0), (3, 1), (2, 2), (1, 3), (0, 4)].into_iter().collect();
    assert_eq!(painted(&fb, INK), expected);
}

#[test]
fn shallow_line_rounds_halves_away_from_its_start() {
    let mut fb = frame(5, 2);
    fb.draw_line(0, 0, 4, 1, INK);
    let expected: BTreeSet<(i32, i32)> =
        [(0, 0), (1, 0), (2, 1), (3, 1), (4, 1)].into_iter().collect();
    assert_eq!(painted(&fb, INK), expected);

    let mut fb = frame(5, 2);
    fb.draw_line(4, 1, 0, 0, INK);
    let expected: BTreeSet<(i32, i32)> =
        [(4, 1), (3, 1), (2, 0), (1, 0), (0, 0)].into_iter().collect();
    assert_eq!(painted(&fb, INK), expected);
}

#[test]
fn steep_line_rounds_halves_away_from_its_start() {
    let mut fb = frame(2, 5);
    fb.draw_line(0, 0, 1, 4, INK);
    let expected: BTreeSet<(i32, i32)> =
        [(0, 0), (0, 1), (1, 2), (1, 3), (1, 4)].into_iter().collect();
    assert_eq!(painted(&fb, INK), expected);
}

#[test]
fn lines_match_the_error_term_walk() {
    let ends = [-3, 0, 1, 4, 7, 9, 12];
    for &x1 in &ends {
        for &y1 in &ends {
            for &x2 in &ends {
                for &y2 in &ends {
                    let mut fb = frame(10, 8);
                    fb.draw_line(x1, y1, x2, y2, INK);
                    let expected = clip(&line_walk(x1, y1, x2, y2), 10, 8);
                    assert_eq!(painted(&fb, INK), expected, "{x1},{y1} -> {x2},{y2}");
                }
            }
        }
    }
}

#[test]
fn line_leaves_other_pixels_alone() {
    let mut fb = frame(6, 6);
    fb.clear(Color(1, 1, 1, 1));
    fb.draw_line(0, 5, 5, 0, INK);
    assert_eq!(painted(&fb, INK).len(), 6);
    assert_eq!(painted(&fb, Color(1, 1, 1, 1)).len(), 30);
}

#[test]
fn circle_without_radius_paints_nothing() {
    let mut fb = frame(9, 9);
    fb.draw_circle(4, 4, 0, INK);
    fb.draw_circle(4, 4, -1, INK);
    fb.draw_circle(4, 4, i32::MIN, INK);
    assert!(painted(&fb, INK).is_empty());
}

#[test]
fn circle_of_radius_one() {
    let mut fb = frame(5, 5);
    fb.draw_circle(2, 2, 1, INK);
    let expected: BTreeSet<(i32, i32)> = [(2, 1), (1, 2), (3, 2), (2, 3)].into_iter().collect();
    assert_eq!(painted(&fb, INK), expected);
}

#[test]
fn circle_of_radius_two() {
    let mut fb = frame(7, 7);
    fb.draw_circle(3, 3, 2, INK);
    let expected: BTreeSet<(i32, i32)> = [
        (2, 1), (3, 1), (4, 1),
        (1, 2), (5, 2),
        (1, 3), (5, 3),
        (1, 4), (5, 4),
        (2, 5), (3, 5), (4, 5),
    ]
    .into_iter()
    .collect();
    assert_eq!(painted(&fb, INK), expected);
}

#[test]
fn circles_match_the_midpoint_walk() {
    for radius in 0..40 {
        for &(cx, cy) in &[(20, 20), (0, 0), (-5, 17), (39, 3), (60, 60)] {
            let mut fb = frame(40, 36);
            fb.draw_circle(cx, cy, radius, INK);
            let expected = clip(&circle_walk(cx, cy, radius), 40, 36);
            assert_eq!(painted(&fb, INK), expected, "radius {radius} around {cx},{cy}");
        }
    }
}

#[test]
fn circle_pixels_are_the_rounded_heights() {
    for radius in 1..60i64 {
        let size = (2 * radius + 3) as u32;
        let c = (radius + 1) as i32;
        let mut fb = frame(size, size);
        fb.draw_circle(c, c, radius as i32, INK);
        let got = painted(&fb, INK);
        for y in 0..size as i32 {
            for x in 0..size as i32 {
                let u = (x as i64 - c as i64).abs();
                let v = (y as i64 - c as i64).abs();
                let (lo, hi) = if u <= v { (u, v) } else { (v, u) };
                let rest = radius * radius - lo * lo;
                let on = hi * hi - hi < rest && rest <= hi * hi + hi;
                assert_eq!(got.contains(&(x, y)), on, "radius {radius} at {x},{y}");
            }
        }
    }
}

#[test]
fn drawing_far_outside_the_frame_paints_nothing() {
    let mut fb = frame(4, 4);
    fb.draw_line(i32::MAX, i32::MAX, i32::MAX - 3, i32::MAX, INK);
    fb.draw_line(i32::MIN, i32::MIN, i32::MIN, i32::MIN + 3, INK);
    fb.draw_circle(i32::MAX, i32::MIN, 5, INK);
    assert!(painted(&fb, INK).is_empty());
}

#[test]
fn present_of_a_frame_in_memory_succeeds() {
    let mut fb = frame(2, 2);
    fb.fill_rect(0, 0, 1, 1, INK);
    let before = fb.as_bytes().to_vec();
    assert_eq!(fb.present(), Ok(()));
    assert_eq!(fb.as_bytes(), &before[..]);
}
