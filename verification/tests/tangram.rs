use tg_rcore_tutorial::canvas::Canvas;
use tg_rcore_tutorial::tangram::{
    bg, decimal_digits, delay_elapsed, delay_ticks, draw_piece, layout, pieces, pts, render, themes,
    Animation, Piece, PIECE_COUNT, THEME_COUNT,
};

fn pixel(cv: &Canvas, x: i32, y: i32) -> [u8; 4] {
    let o = ((y * cv.w + x) * 4) as usize;
    [cv.frame[o], cv.frame[o + 1], cv.frame[o + 2], cv.frame[o + 3]]
}

fn canvas(w: u32, h: u32) -> Canvas {
    Canvas::new(vec![0u8; (w * h * 4) as usize], w, h)
}

#[test]
fn put_writes_bgra_and_ignores_off_screen() {
    let mut cv = canvas(4, 3);
    cv.put(1, 2, (10, 20, 30));
    assert_eq!(pixel(&cv, 1, 2), [30, 20, 10, 0xff]);
    let before = cv.frame.clone();
    cv.put(-1, 0, (1, 2, 3));
    cv.put(4, 0, (1, 2, 3));
    cv.put(0, 3, (1, 2, 3));
    cv.put(0, -5, (1, 2, 3));
    assert_eq!(cv.frame, before);
}

#[test]
fn put_ignores_pixels_past_a_short_frame() {
    let mut cv = Canvas::new(vec![0u8; 10], 4, 3);
    cv.put(1, 0, (9, 9, 9));
    assert_eq!(&cv.frame[4..8], &[9, 9, 9, 0xff]);
    cv.put(2, 0, (7, 7, 7));
    assert_eq!(&cv.frame[8..10], &[0, 0]);
}

#[test]
fn clear_fills_every_pixel() {
    let mut cv = canvas(5, 2);
    cv.clear((18, 18, 28));
    for y in 0..2 {
        for x in 0..5 {
            assert_eq!(pixel(&cv, x, y), [28, 18, 18, 0xff]);
        }
    }
}

#[test]
fn fill_convex_square_includes_its_border() {
    let mut cv = canvas(8, 8);
    cv.fill_convex(&[(2, 2), (5, 2), (5, 5), (2, 5)], (1, 2, 3));
    for y in 0..8 {
        for x in 0..8 {
            let inside = (2..=5).contains(&x) && (2..=5).contains(&y);
            assert_eq!(pixel(&cv, x, y) == [3, 2, 1, 0xff], inside, "pixel {x},{y}");
        }
    }
}

#[test]
fn fill_convex_triangle_either_direction() {
    for poly in [[(0, 0), (4, 0), (0, 4)], [(0, 0), (0, 4), (4, 0)]] {
        let mut cv = canvas(6, 6);
        cv.fill_convex(&poly, (5, 5, 5));
        for y in 0..6 {
            for x in 0..6 {
                let inside = x + y <= 4;
                assert_eq!(pixel(&cv, x, y)[3] == 0xff, inside, "pixel {x},{y}");
            }
        }
    }
}

#[test]
fn fill_convex_clips_to_the_screen() {
    let mut cv = canvas(4, 4);
    cv.fill_convex(&[(-10, -10), (10, -10), (10, 10), (-10, 10)], (1, 1, 1));
    assert!(cv.frame.chunks(4).all(|p| p == [1, 1, 1, 0xff]));
    let mut cv2 = canvas(4, 4);
    cv2.fill_convex(&[(20, 20), (30, 20), (30, 30)], (1, 1, 1));
    assert!(cv2.frame.iter().all(|b| *b == 0));
}

#[test]
fn fill_convex_with_no_vertex_paints_nothing() {
    let mut cv = canvas(3, 3);
    cv.fill_convex(&[], (1, 1, 1));
    assert!(cv.frame.iter().all(|b| *b == 0));
}

#[test]
fn fill_convex_degenerate_point_paints_one_pixel() {
    let mut cv = canvas(3, 3);
    cv.fill_convex(&[(1, 1)], (4, 4, 4));
    assert_eq!(cv.frame.chunks(4).filter(|p| p[3] == 0xff).count(), 1);
    assert_eq!(pixel(&cv, 1, 1), [4, 4, 4, 0xff]);
}

#[test]
fn vertices_and_pieces_of_the_cut() {
    assert_eq!(pts(0), (0, 0));
    assert_eq!(pts(2), (4, 4));
    assert_eq!(pts(9), (1, 3));
    let all = pieces();
    assert_eq!(all.len(), PIECE_COUNT);
    assert_eq!(all[3].0, vec![7, 5, 8, 4]);
    assert_eq!(all[6].0, vec![3, 6, 8, 9]);
    // The pieces cover the 16 unit squares: areas 4, 4, 1, 2, 2, 1, 2.
    let twice_area = |p: &Piece| -> i32 {
        let n = p.0.len();
        let mut s = 0;
        for i in 0..n {
            let (ax, ay) = pts(p.0[i]);
            let (bx, by) = pts(p.0[(i + 1) % n]);
            s += ax * by - bx * ay;
        }
        s.abs()
    };
    assert_eq!(all.iter().map(twice_area).sum::<i32>(), 32);
}

#[test]
fn theme_colours() {
    assert_eq!(themes(0, 0), (231, 76, 60));
    assert_eq!(themes(1, 6), (60, 220, 255));
    assert_eq!(themes(2, 3), (255, 130, 120));
    assert_eq!(bg(), (18, 18, 28));
    assert_eq!(THEME_COUNT, 3);
}

#[test]
fn layout_centres_the_square() {
    let l = layout(640, 480);
    assert_eq!((l.scale, l.ox, l.oy), (96, 128, 48));
    let l = layout(1280, 800);
    assert_eq!((l.scale, l.ox, l.oy), (160, 320, 80));
    // A tiny screen still gets one pixel per unit; the offsets round toward zero.
    let l = layout(1, 1);
    assert_eq!((l.scale, l.ox, l.oy), (1, -1, -1));
}

#[test]
fn draw_piece_maps_units_to_pixels() {
    let mut cv = canvas(16, 16);
    draw_piece(&mut cv, &Piece(vec![7, 5, 8, 4]), 0, 0, 2, (9, 8, 7));
    // The square G(3,1) E(4,2) Q(3,3) O(2,2) at two pixels per unit has its centre at (6, 4).
    assert_eq!(pixel(&cv, 6, 4), [7, 8, 9, 0xff]);
    assert_eq!(pixel(&cv, 4, 4), [7, 8, 9, 0xff]);
    assert_eq!(pixel(&cv, 0, 0), [0, 0, 0, 0]);
}

#[test]
fn render_covers_the_square_and_rotates_colours() {
    let (w, h) = (640u32, 480u32);
    let mut cv = canvas(w, h);
    let l = layout(w as i32, h as i32);
    cv.clear(bg());
    render(&mut cv, l.ox, l.oy, l.scale, 0, 0);
    let s = l.scale;
    // Every pixel of the square is painted by a piece.
    for y in l.oy..=l.oy + 4 * s {
        for x in l.ox..=l.ox + 4 * s {
            assert_ne!(pixel(&cv, x, y), [28, 18, 18, 0xff], "pixel {x},{y}");
        }
    }
    // Outside the square the background stays.
    assert_eq!(pixel(&cv, l.ox - 1, l.oy), [28, 18, 18, 0xff]);
    // The top large triangle gets slot 0, the left one slot 1.
    assert_eq!(pixel(&cv, l.ox + 2 * s, l.oy + s / 2), [60, 76, 231, 0xff]);
    assert_eq!(pixel(&cv, l.ox + s / 2, l.oy + 2 * s), [18, 156, 243, 0xff]);
    // With an offset of one, piece 0 takes slot 1; theme 4 is theme 1.
    render(&mut cv, l.ox, l.oy, l.scale, 4, 1);
    assert_eq!(pixel(&cv, l.ox + 2 * s, l.oy + s / 2), [200, 255, 0, 0xff]);
}

#[test]
fn animation_turns_theme_and_colours() {
    let mut a = Animation::new();
    assert_eq!((a.theme, a.offset, a.frame), (0, 0, 0));
    for _ in 0..14 {
        a.tick(false);
    }
    assert_eq!(a.offset, 0);
    a.tick(false);
    assert_eq!((a.offset, a.frame), (1, 15));
    a.tick(true);
    a.tick(true);
    assert_eq!(a.theme, 2);
    a.tick(true);
    assert_eq!(a.theme, 0);
    for _ in 0..(15 * 6 - 3) {
        a.tick(false);
    }
    assert_eq!((a.offset, a.frame), (0, 105));
}

#[test]
fn decimal_digits_of_numbers() {
    assert_eq!(decimal_digits(0), b"0".to_vec());
    assert_eq!(decimal_digits(7), b"7".to_vec());
    assert_eq!(decimal_digits(640), b"640".to_vec());
    assert_eq!(decimal_digits(u32::MAX), b"4294967295".to_vec());
    for n in [1u32, 9, 10, 99, 100, 12345, 1_000_000_000] {
        assert_eq!(decimal_digits(n), n.to_string().into_bytes());
    }
}

#[test]
fn delay_counts_ticks_of_the_10_mhz_timer() {
    assert_eq!(delay_ticks(40), 400_000);
    assert_eq!(delay_ticks(0), 0);
    assert!(!delay_elapsed(100, 100 + 399_999, 400_000));
    assert!(delay_elapsed(100, 100 + 400_000, 400_000));
    // The counter wrapping around between the two readings.
    assert!(delay_elapsed(u64::MAX - 10, 400_000, 400_000));
    assert!(!delay_elapsed(u64::MAX - 10, 10, 400_000));
}

#[test]
fn fill_convex_ignores_vertex_order_and_start() {
    let poly = [(1, 1), (6, 2), (5, 6), (2, 5)];
    let mut expected = canvas(8, 8);
    expected.fill_convex(&poly, (7, 8, 9));
    let mut reversed = poly;
    reversed.reverse();
    let mut cv = canvas(8, 8);
    cv.fill_convex(&reversed, (7, 8, 9));
    assert_eq!(cv.frame, expected.frame);
    for k in 0..poly.len() {
        let mut rotated = poly;
        rotated.rotate_left(k);
        let mut cv = canvas(8, 8);
        cv.fill_convex(&rotated, (7, 8, 9));
        assert_eq!(cv.frame, expected.frame, "rotation {k}");
    }
}
