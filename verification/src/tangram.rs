//! The tangram game drawn by the kernel of chapter one: seven convex pieces cut
//! from a 4-by-4 square, filled with integer cross-product tests, their colours
//! turning slowly and a key press switching to the next colour theme.
use vstd::prelude::*;
use crate::canvas::{
    channel, convex_fill, cross, inside, lemma_paint_at, paint, spans_column, spans_row, Canvas, Rgb,
};

verus! {

/// The ten vertices of the cut, in unit coordinates of the 4-by-4 square:
/// the corners A, B, C, D, the centre O, the midpoints E (right) and F (bottom),
/// and the quarter points G, Q, H of the diagonals.
pub open spec fn point(idx: int) -> (int, int) {
    if idx == 0 {
        (0, 0)
    } else if idx == 1 {
        (4, 0)
    } else if idx == 2 {
        (4, 4)
    } else if idx == 3 {
        (0, 4)
    } else if idx == 4 {
        (2, 2)
    } else if idx == 5 {
        (4, 2)
    } else if idx == 6 {
        (2, 4)
    } else if idx == 7 {
        (3, 1)
    } else if idx == 8 {
        (3, 3)
    } else {
        (1, 3)
    }
}

/// Vertex `idx` of the cut.
pub fn pts(idx: usize) -> (r: (i32, i32))
    requires
        idx < 10,
    ensures
        r.0 == point(idx as int).0,
        r.1 == point(idx as int).1,
{
    match idx {
        0 => (0, 0),
        1 => (4, 0),
        2 => (4, 4),
        3 => (0, 4),
        4 => (2, 2),
        5 => (4, 2),
        6 => (2, 4),
        7 => (3, 1),
        8 => (3, 3),
        _ => (1, 3),
    }
}

/// Number of pieces.
pub const PIECE_COUNT: usize = 7;

/// Number of colour themes.
pub const THEME_COUNT: usize = 3;

/// The vertex indices of piece `k`: the two large triangles (top, left), the
/// small triangle at corner B, the square, the middle triangle at corner C, the
/// small triangle in the centre, and the parallelogram.
pub open spec fn piece_corners(k: int) -> Seq<usize> {
    if k == 0 {
        seq![0usize, 1, 4]
    } else if k == 1 {
        seq![0usize, 4, 3]
    } else if k == 2 {
        seq![1usize, 5, 7]
    } else if k == 3 {
        seq![7usize, 5, 8, 4]
    } else if k == 4 {
        seq![5usize, 2, 6]
    } else if k == 5 {
        seq![4usize, 8, 9]
    } else {
        seq![3usize, 6, 8, 9]
    }
}

/// A tangram piece: the indices of its vertices in the cut.
pub struct Piece(pub Vec<usize>);

/// The seven pieces, in the order of the colour slots.
pub fn pieces() -> (r: Vec<Piece>)
    ensures
        r@.len() == PIECE_COUNT,
        forall|k: int| 0 <= k < PIECE_COUNT ==> (#[trigger] r@[k]).0@ == piece_corners(k),
{
    let r = vec![
        Piece(vec![0, 1, 4]),
        Piece(vec![0, 4, 3]),
        Piece(vec![1, 5, 7]),
        Piece(vec![7, 5, 8, 4]),
        Piece(vec![5, 2, 6]),
        Piece(vec![4, 8, 9]),
        Piece(vec![3, 6, 8, 9]),
    ];
    assert(r@[0].0@ =~= piece_corners(0));
    assert(r@[1].0@ =~= piece_corners(1));
    assert(r@[2].0@ =~= piece_corners(2));
    assert(r@[3].0@ =~= piece_corners(3));
    assert(r@[4].0@ =~= piece_corners(4));
    assert(r@[5].0@ =~= piece_corners(5));
    assert(r@[6].0@ =~= piece_corners(6));
    r
}

/// Colour `slot` of theme `theme`: bright candy, cold neon, warm sunset.
pub open spec fn theme_color(theme: int, slot: int) -> Rgb {
    if theme == 0 {
        if slot == 0 {
            (231, 76, 60)
        } else if slot == 1 {
            (243, 156, 18)
        } else if slot == 2 {
            (241, 196, 15)
        } else if slot == 3 {
            (46, 204, 113)
        } else if slot == 4 {
            (26, 188, 156)
        } else if slot == 5 {
            (52, 152, 219)
        } else {
            (155, 89, 182)
        }
    } else if theme == 1 {
        if slot == 0 {
            (0, 200, 255)
        } else if slot == 1 {
            (0, 255, 200)
        } else if slot == 2 {
            (120, 255, 120)
        } else if slot == 3 {
            (90, 140, 255)
        } else if slot == 4 {
            (180, 100, 255)
        } else if slot == 5 {
            (255, 90, 200)
        } else {
            (60, 220, 255)
        }
    } else {
        if slot == 0 {
            (255, 94, 87)
        } else if slot == 1 {
            (255, 154, 60)
        } else if slot == 2 {
            (255, 206, 84)
        } else if slot == 3 {
            (255, 130, 120)
        } else if slot == 4 {
            (214, 93, 177)
        } else if slot == 5 {
            (155, 89, 182)
        } else {
            (255, 175, 100)
        }
    }
}

/// Every theme gives the seven pieces seven different colours.
pub proof fn lemma_theme_colors_distinct(theme: int, i: int, j: int)
    requires
        0 <= theme < THEME_COUNT,
        0 <= i < PIECE_COUNT,
        0 <= j < PIECE_COUNT,
        i != j,
    ensures
        theme_color(theme, i) != theme_color(theme, j),
{
}

/// Colour `slot` of theme `theme`.
pub fn themes(theme: usize, slot: usize) -> (r: Rgb)
    requires
        theme < THEME_COUNT,
        slot < PIECE_COUNT,
    ensures
        r == theme_color(theme as int, slot as int),
        forall|j: int| 0 <= j < PIECE_COUNT && j != slot ==> r != #[trigger] theme_color(theme as int, j),
{
    proof {
        assert forall|j: int| 0 <= j < PIECE_COUNT && j != slot implies theme_color(theme as int, slot as int) != #[trigger] theme_color(
            theme as int,
            j,
        ) by {
            lemma_theme_colors_distinct(theme as int, slot as int, j);
        }
    }
    let palette: [Rgb; 7] = if theme == 0 {
        [(231, 76, 60), (243, 156, 18), (241, 196, 15), (46, 204, 113), (26, 188, 156), (52, 152, 219), (155, 89, 182)]
    } else if theme == 1 {
        [(0, 200, 255), (0, 255, 200), (120, 255, 120), (90, 140, 255), (180, 100, 255), (255, 90, 200), (60, 220, 255)]
    } else {
        [(255, 94, 87), (255, 154, 60), (255, 206, 84), (255, 130, 120), (214, 93, 177), (155, 89, 182), (255, 175, 100)]
    };
    palette[slot]
}

/// The background colour.
pub open spec fn background() -> Rgb {
    (18, 18, 28)
}

/// The background colour.
pub fn bg() -> (r: Rgb)
    ensures
        r == background(),
{
    (18, 18, 28)
}

/// The polygon of a piece in pixels: unit vertex `(u, v)` lands on
/// `(ox + u * scale, oy + v * scale)`.
pub open spec fn piece_polygon(corners: Seq<usize>, ox: int, oy: int, scale: int) -> Seq<(i32, i32)> {
    corners.map_values(|idx: usize| ((ox + point(idx as int).0 * scale) as i32, (oy + point(idx as int).1 * scale) as i32))
}

/// Every pixel coordinate of the square fits in `i32`.
pub open spec fn square_fits(ox: int, oy: int, scale: int) -> bool {
    &&& i32::MIN <= ox <= i32::MAX
    &&& i32::MIN <= oy <= i32::MAX
    &&& i32::MIN <= 4 * scale <= i32::MAX
    &&& i32::MIN <= ox + 4 * scale <= i32::MAX
    &&& i32::MIN <= oy + 4 * scale <= i32::MAX
}

/// Maps the unit coordinates of one piece to pixels and fills it with `c`;
/// `(ox, oy)` is the top-left corner of the square on the screen and `scale` the
/// pixels of one unit.
pub fn draw_piece(cv: &mut Canvas, piece: &Piece, ox: i32, oy: i32, scale: i32, c: Rgb)
    requires
        old(cv).wf(),
        piece.0@.len() <= 4,
        forall|k: int| 0 <= k < piece.0@.len() ==> #[trigger] piece.0@[k] < 10,
        square_fits(ox as int, oy as int, scale as int),
    ensures
        final(cv).wf(),
        final(cv).w == old(cv).w,
        final(cv).h == old(cv).h,
        final(cv).frame@ == paint(
            old(cv).frame@,
            old(cv).w as int,
            old(cv).h as int,
            convex_fill(piece_polygon(piece.0@, ox as int, oy as int, scale as int)),
            c,
        ),
{
    let mut poly: Vec<(i32, i32)> = Vec::new();
    let n = piece.0.len();
    let mut slot: usize = 0;
    while slot < n
        invariant
            n == piece.0@.len(),
            n <= 4,
            forall|k: int| 0 <= k < n ==> #[trigger] piece.0@[k] < 10,
            square_fits(ox as int, oy as int, scale as int),
            slot <= n,
            poly@ == piece_polygon(piece.0@, ox as int, oy as int, scale as int).take(slot as int),
        decreases n - slot,
    {
        let idx = piece.0[slot];
        let (ux, uy) = pts(idx);
        proof {
            assert(0 <= ux <= 4 && 0 <= uy <= 4);
            assert(i32::MIN <= ux * scale <= i32::MAX && i32::MIN <= uy * scale <= i32::MAX) by (nonlinear_arith)
                requires
                    0 <= ux <= 4,
                    0 <= uy <= 4,
                    i32::MIN <= 4 * scale <= i32::MAX,
            ;
            assert(i32::MIN <= ox + ux * scale <= i32::MAX) by (nonlinear_arith)
                requires
                    0 <= ux <= 4,
                    i32::MIN <= ox <= i32::MAX,
                    i32::MIN <= ox + 4 * scale <= i32::MAX,
            ;
            assert(i32::MIN <= oy + uy * scale <= i32::MAX) by (nonlinear_arith)
                requires
                    0 <= uy <= 4,
                    i32::MIN <= oy <= i32::MAX,
                    i32::MIN <= oy + 4 * scale <= i32::MAX,
            ;
        }
        poly.push((ox + ux * scale, oy + uy * scale));
        proof {
            let target = piece_polygon(piece.0@, ox as int, oy as int, scale as int);
            assert(poly@ =~= target.take(slot + 1));
        }
        slot = slot + 1;
    }
    proof {
        let target = piece_polygon(piece.0@, ox as int, oy as int, scale as int);
        assert(poly@ =~= target);
    }
    cv.fill_convex(poly.as_slice(), c);
}

/// The frame after drawing the first `k` pieces, piece `i` in colour slot
/// `(i + offset) % 7` of `theme`.
pub open spec fn rendered(
    frame: Seq<u8>,
    w: int,
    h: int,
    ox: int,
    oy: int,
    scale: int,
    theme: int,
    offset: int,
    k: int,
) -> Seq<u8>
    decreases k,
{
    if k <= 0 {
        frame
    } else {
        paint(
            rendered(frame, w, h, ox, oy, scale, theme, offset, k - 1),
            w,
            h,
            convex_fill(piece_polygon(piece_corners(k - 1), ox, oy, scale)),
            theme_color(theme, (k - 1 + offset) % 7),
        )
    }
}

/// The point `(x, y)`, in pixels relative to the square's corner, lies in piece `k`
/// (border included) of a square whose unit is `scale` pixels: on the inner side
/// of each edge of the piece.
pub open spec fn in_piece(k: int, x: int, y: int, scale: int) -> bool {
    if k == 0 {
        // the top large triangle A B O
        &&& y >= 0
        &&& x + y <= 4 * scale
        &&& x >= y
    } else if k == 1 {
        // the left large triangle A O D
        &&& y >= x
        &&& x + y <= 4 * scale
        &&& x >= 0
    } else if k == 2 {
        // the small triangle B E G at corner B
        &&& x <= 4 * scale
        &&& x - y >= 2 * scale
        &&& x + y >= 4 * scale
    } else if k == 3 {
        // the square G E Q O
        &&& x - y <= 2 * scale
        &&& x + y <= 6 * scale
        &&& x >= y
        &&& x + y >= 4 * scale
    } else if k == 4 {
        // the middle triangle E C F at corner C
        &&& x <= 4 * scale
        &&& y <= 4 * scale
        &&& x + y >= 6 * scale
    } else if k == 5 {
        // the small triangle O Q H in the centre
        &&& y >= x
        &&& y <= 3 * scale
        &&& x + y >= 4 * scale
    } else {
        // the parallelogram D F Q H
        &&& y <= 4 * scale
        &&& x + y <= 6 * scale
        &&& y >= 3 * scale
        &&& x + y >= 4 * scale
    }
}

/// The point `(x, y)`, in pixels relative to the square's corner, lies strictly
/// inside piece `k`: off every edge of it, on the inner side.
pub open spec fn in_piece_interior(k: int, x: int, y: int, scale: int) -> bool {
    if k == 0 {
        // the top large triangle A B O
        &&& y > 0
        &&& x + y < 4 * scale
        &&& x > y
    } else if k == 1 {
        // the left large triangle A O D
        &&& y > x
        &&& x + y < 4 * scale
        &&& x > 0
    } else if k == 2 {
        // the small triangle B E G at corner B
        &&& x < 4 * scale
        &&& x - y > 2 * scale
        &&& x + y > 4 * scale
    } else if k == 3 {
        // the square G E Q O
        &&& x - y < 2 * scale
        &&& x + y < 6 * scale
        &&& x > y
        &&& x + y > 4 * scale
    } else if k == 4 {
        // the middle triangle E C F at corner C
        &&& x < 4 * scale
        &&& y < 4 * scale
        &&& x + y > 6 * scale
    } else if k == 5 {
        // the small triangle O Q H in the centre
        &&& y > x
        &&& y < 3 * scale
        &&& x + y > 4 * scale
    } else {
        // the parallelogram D F Q H
        &&& y < 4 * scale
        &&& x + y < 6 * scale
        &&& y > 3 * scale
        &&& x + y > 4 * scale
    }
}

/// No two pieces overlap: no point lies strictly inside two of them.
pub proof fn lemma_pieces_do_not_overlap(k1: int, k2: int, x: int, y: int, scale: int)
    requires
        scale >= 1,
        0 <= k1 < k2 < PIECE_COUNT,
    ensures
        !(in_piece_interior(k1, x, y, scale) && in_piece_interior(k2, x, y, scale)),
{
}

/// The seven pieces tile the square: every point of it, border included, lies in
/// some piece.
pub proof fn lemma_pieces_tile_square(x: int, y: int, scale: int)
    requires
        scale >= 1,
        0 <= x <= 4 * scale,
        0 <= y <= 4 * scale,
    ensures
        exists|k: int| 0 <= k < PIECE_COUNT && #[trigger] in_piece(k, x, y, scale),
{
    let s = scale;
    if y <= x && x + y <= 4 * s {
        assert(in_piece(0, x, y, s));
    } else if x <= y && x + y <= 4 * s {
        assert(in_piece(1, x, y, s));
    } else if y <= x - 2 * s {
        assert(in_piece(2, x, y, s));
    } else if y <= x && x + y <= 6 * s {
        assert(in_piece(3, x, y, s));
    } else if x + y >= 6 * s {
        assert(in_piece(4, x, y, s));
    } else if y <= 3 * s {
        assert(in_piece(5, x, y, s));
    } else {
        assert(in_piece(6, x, y, s));
    }
}

/// The edge after edge `i` of a polygon of `n` corners starts at corner `(i + 1) % n`.
proof fn lemma_next_index(i: int, n: int)
    requires
        0 <= i < n,
    ensures
        (i + 1) % n == if i + 1 < n { i + 1 } else { 0 },
{
    if i + 1 < n {
        vstd::arithmetic::div_mod::lemma_small_mod((i + 1) as nat, n as nat);
    } else {
        vstd::arithmetic::div_mod::lemma_mod_self_0(n);
    }
}

/// The cross product of a scaled edge is `scale` times the unscaled form.
proof fn lemma_scaled_cross(s: int, ua: int, va: int, ub: int, vb: int, x: int, y: int)
    by (nonlinear_arith)
    ensures
        (ub * s - ua * s) * (y - va * s) - (vb * s - va * s) * (x - ua * s) == s * ((ub - ua) * (y - va * s) - (vb
            - va) * (x - ua * s)),
{
}

/// A positive factor keeps the sign.
proof fn lemma_scaled_sign(s: int, f: int)
    by (nonlinear_arith)
    requires
        s >= 1,
    ensures
        f >= 0 ==> s * f >= 0,
        f <= 0 ==> s * f <= 0,
{
}

/// Each vertex of the cut lands on the screen's integer grid without wrapping.
proof fn lemma_vertex_fits(idx: int, ox: int, oy: int, scale: int)
    requires
        square_fits(ox, oy, scale),
        scale >= 1,
    ensures
        i32::MIN <= ox + point(idx).0 * scale <= i32::MAX,
        i32::MIN <= oy + point(idx).1 * scale <= i32::MAX,
        0 <= point(idx).0 <= 4,
        0 <= point(idx).1 <= 4,
{
    let (u, v) = point(idx);
    assert(0 <= u * scale <= 4 * scale) by (nonlinear_arith)
        requires
            0 <= u <= 4,
            scale >= 1,
    ;
    assert(0 <= v * scale <= 4 * scale) by (nonlinear_arith)
        requires
            0 <= v <= 4,
            scale >= 1,
    ;
}

/// A point of piece `k` (in the square at `(ox, oy)`) is a pixel that filling the
/// piece's polygon paints.
#[verifier::spinoff_prover]
#[verifier::rlimit(40)]
pub proof fn lemma_piece_is_filled(k: int, ox: int, oy: int, scale: int, x: int, y: int)
    requires
        0 <= k < PIECE_COUNT,
        square_fits(ox, oy, scale),
        scale >= 1,
        in_piece(k, x - ox, y - oy, scale),
    ensures
        convex_fill(piece_polygon(piece_corners(k), ox, oy, scale))(x, y),
{
    let s = scale;
    let px = x - ox;
    let py = y - oy;
    let poly = piece_polygon(piece_corners(k), ox, oy, scale);
    if k == 0 {
        assert(poly.len() == 3);
        lemma_vertex_fits(0, ox, oy, s);
        assert(poly[0].0 == ox + 0 * s && poly[0].1 == oy + 0 * s);
        lemma_vertex_fits(1, ox, oy, s);
        assert(poly[1].0 == ox + 4 * s && poly[1].1 == oy + 0 * s);
        lemma_vertex_fits(4, ox, oy, s);
        assert(poly[2].0 == ox + 2 * s && poly[2].1 == oy + 2 * s);
        lemma_next_index(0, 3);
        lemma_scaled_cross(s, 0, 0, 4, 0, px, py);
        lemma_scaled_sign(s, 0 * px + 4 * py + 0 * s);
        assert(cross(poly, 0, x, y) == s * (0 * px + 4 * py + 0 * s));
        lemma_next_index(1, 3);
        lemma_scaled_cross(s, 4, 0, 2, 2, px, py);
        lemma_scaled_sign(s, -2 * px + -2 * py + 8 * s);
        assert(cross(poly, 1, x, y) == s * (-2 * px + -2 * py + 8 * s));
        lemma_next_index(2, 3);
        lemma_scaled_cross(s, 2, 2, 0, 0, px, py);
        lemma_scaled_sign(s, 2 * px + -2 * py + 0 * s);
        assert(cross(poly, 2, x, y) == s * (2 * px + -2 * py + 0 * s));
        assert forall|i: int| 0 <= i < 3 implies !(#[trigger] cross(poly, i, x, y) < 0) by {
            assert(i == 0 || i == 1 || i == 2);
        }
        assert(poly[0].0 <= x && poly[1].0 >= x && poly[0].1 <= y && poly[2].1 >= y);
    } else if k == 1 {
        assert(poly.len() == 3);
        lemma_vertex_fits(0, ox, oy, s);
        assert(poly[0].0 == ox + 0 * s && poly[0].1 == oy + 0 * s);
        lemma_vertex_fits(4, ox, oy, s);
        assert(poly[1].0 == ox + 2 * s && poly[1].1 == oy + 2 * s);
        lemma_vertex_fits(3, ox, oy, s);
        assert(poly[2].0 == ox + 0 * s && poly[2].1 == oy + 4 * s);
        lemma_next_index(0, 3);
        lemma_scaled_cross(s, 0, 0, 2, 2, px, py);
        lemma_scaled_sign(s, -2 * px + 2 * py + 0 * s);
        assert(cross(poly, 0, x, y) == s * (-2 * px + 2 * py + 0 * s));
        lemma_next_index(1, 3);
        lemma_scaled_cross(s, 2, 2, 0, 4, px, py);
        lemma_scaled_sign(s, -2 * px + -2 * py + 8 * s);
        assert(cross(poly, 1, x, y) == s * (-2 * px + -2 * py + 8 * s));
        lemma_next_index(2, 3);
        lemma_scaled_cross(s, 0, 4, 0, 0, px, py);
        lemma_scaled_sign(s, 4 * px + 0 * py + 0 * s);
        assert(cross(poly, 2, x, y) == s * (4 * px + 0 * py + 0 * s));
        assert forall|i: int| 0 <= i < 3 implies !(#[trigger] cross(poly, i, x, y) < 0) by {
            assert(i == 0 || i == 1 || i == 2);
        }
        assert(poly[0].0 <= x && poly[1].0 >= x && poly[0].1 <= y && poly[2].1 >= y);
    } else if k == 2 {
        assert(poly.len() == 3);
        lemma_vertex_fits(1, ox, oy, s);
        assert(poly[0].0 == ox + 4 * s && poly[0].1 == oy + 0 * s);
        lemma_vertex_fits(5, ox, oy, s);
        assert(poly[1].0 == ox + 4 * s && poly[1].1 == oy + 2 * s);
        lemma_vertex_fits(7, ox, oy, s);
        assert(poly[2].0 == ox + 3 * s && poly[2].1 == oy + 1 * s);
        lemma_next_index(0, 3);
        lemma_scaled_cross(s, 4, 0, 4, 2, px, py);
        lemma_scaled_sign(s, -2 * px + 0 * py + 8 * s);
        assert(cross(poly, 0, x, y) == s * (-2 * px + 0 * py + 8 * s));
        lemma_next_index(1, 3);
        lemma_scaled_cross(s, 4, 2, 3, 1, px, py);
        lemma_scaled_sign(s, 1 * px + -1 * py + -2 * s);
        assert(cross(poly, 1, x, y) == s * (1 * px + -1 * py + -2 * s));
        lemma_next_index(2, 3);
        lemma_scaled_cross(s, 3, 1, 4, 0, px, py);
        lemma_scaled_sign(s, 1 * px + 1 * py + -4 * s);
        assert(cross(poly, 2, x, y) == s * (1 * px + 1 * py + -4 * s));
        assert forall|i: int| 0 <= i < 3 implies !(#[trigger] cross(poly, i, x, y) < 0) by {
            assert(i == 0 || i == 1 || i == 2);
        }
        assert(poly[2].0 <= x && poly[0].0 >= x && poly[0].1 <= y && poly[1].1 >= y);
    } else if k == 3 {
        assert(poly.len() == 4);
        lemma_vertex_fits(7, ox, oy, s);
        assert(poly[0].0 == ox + 3 * s && poly[0].1 == oy + 1 * s);
        lemma_vertex_fits(5, ox, oy, s);
        assert(poly[1].0 == ox + 4 * s && poly[1].1 == oy + 2 * s);
        lemma_vertex_fits(8, ox, oy, s);
        assert(poly[2].0 == ox + 3 * s && poly[2].1 == oy + 3 * s);
        lemma_vertex_fits(4, ox, oy, s);
        assert(poly[3].0 == ox + 2 * s && poly[3].1 == oy + 2 * s);
        lemma_next_index(0, 4);
        lemma_scaled_cross(s, 3, 1, 4, 2, px, py);
        lemma_scaled_sign(s, -1 * px + 1 * py + 2 * s);
        assert(cross(poly, 0, x, y) == s * (-1 * px + 1 * py + 2 * s));
        lemma_next_index(1, 4);
        lemma_scaled_cross(s, 4, 2, 3, 3, px, py);
        lemma_scaled_sign(s, -1 * px + -1 * py + 6 * s);
        assert(cross(poly, 1, x, y) == s * (-1 * px + -1 * py + 6 * s));
        lemma_next_index(2, 4);
        lemma_scaled_cross(s, 3, 3, 2, 2, px, py);
        lemma_scaled_sign(s, 1 * px + -1 * py + 0 * s);
        assert(cross(poly, 2, x, y) == s * (1 * px + -1 * py + 0 * s));
        lemma_next_index(3, 4);
        lemma_scaled_cross(s, 2, 2, 3, 1, px, py);
        lemma_scaled_sign(s, 1 * px + 1 * py + -4 * s);
        assert(cross(poly, 3, x, y) == s * (1 * px + 1 * py + -4 * s));
        assert forall|i: int| 0 <= i < 4 implies !(#[trigger] cross(poly, i, x, y) < 0) by {
            assert(i == 0 || i == 1 || i == 2 || i == 3);
        }
        assert(poly[3].0 <= x && poly[1].0 >= x && poly[0].1 <= y && poly[2].1 >= y);
    } else if k == 4 {
        assert(poly.len() == 3);
        lemma_vertex_fits(5, ox, oy, s);
        assert(poly[0].0 == ox + 4 * s && poly[0].1 == oy + 2 * s);
        lemma_vertex_fits(2, ox, oy, s);
        assert(poly[1].0 == ox + 4 * s && poly[1].1 == oy + 4 * s);
        lemma_vertex_fits(6, ox, oy, s);
        assert(poly[2].0 == ox + 2 * s && poly[2].1 == oy + 4 * s);
        lemma_next_index(0, 3);
        lemma_scaled_cross(s, 4, 2, 4, 4, px, py);
        lemma_scaled_sign(s, -2 * px + 0 * py + 8 * s);
        assert(cross(poly, 0, x, y) == s * (-2 * px + 0 * py + 8 * s));
        lemma_next_index(1, 3);
        lemma_scaled_cross(s, 4, 4, 2, 4, px, py);
        lemma_scaled_sign(s, 0 * px + -2 * py + 8 * s);
        assert(cross(poly, 1, x, y) == s * (0 * px + -2 * py + 8 * s));
        lemma_next_index(2, 3);
        lemma_scaled_cross(s, 2, 4, 4, 2, px, py);
        lemma_scaled_sign(s, 2 * px + 2 * py + -12 * s);
        assert(cross(poly, 2, x, y) == s * (2 * px + 2 * py + -12 * s));
        assert forall|i: int| 0 <= i < 3 implies !(#[trigger] cross(poly, i, x, y) < 0) by {
            assert(i == 0 || i == 1 || i == 2);
        }
        assert(poly[2].0 <= x && poly[0].0 >= x && poly[0].1 <= y && poly[1].1 >= y);
    } else if k == 5 {
        assert(poly.len() == 3);
        lemma_vertex_fits(4, ox, oy, s);
        assert(poly[0].0 == ox + 2 * s && poly[0].1 == oy + 2 * s);
        lemma_vertex_fits(8, ox, oy, s);
        assert(poly[1].0 == ox + 3 * s && poly[1].1 == oy + 3 * s);
        lemma_vertex_fits(9, ox, oy, s);
        assert(poly[2].0 == ox + 1 * s && poly[2].1 == oy + 3 * s);
        lemma_next_index(0, 3);
        lemma_scaled_cross(s, 2, 2, 3, 3, px, py);
        lemma_scaled_sign(s, -1 * px + 1 * py + 0 * s);
        assert(cross(poly, 0, x, y) == s * (-1 * px + 1 * py + 0 * s));
        lemma_next_index(1, 3);
        lemma_scaled_cross(s, 3, 3, 1, 3, px, py);
        lemma_scaled_sign(s, 0 * px + -2 * py + 6 * s);
        assert(cross(poly, 1, x, y) == s * (0 * px + -2 * py + 6 * s));
        lemma_next_index(2, 3);
        lemma_scaled_cross(s, 1, 3, 2, 2, px, py);
        lemma_scaled_sign(s, 1 * px + 1 * py + -4 * s);
        assert(cross(poly, 2, x, y) == s * (1 * px + 1 * py + -4 * s));
        assert forall|i: int| 0 <= i < 3 implies !(#[trigger] cross(poly, i, x, y) < 0) by {
            assert(i == 0 || i == 1 || i == 2);
        }
        assert(poly[2].0 <= x && poly[1].0 >= x && poly[0].1 <= y && poly[1].1 >= y);
    } else {
        assert(poly.len() == 4);
        lemma_vertex_fits(3, ox, oy, s);
        assert(poly[0].0 == ox + 0 * s && poly[0].1 == oy + 4 * s);
        lemma_vertex_fits(6, ox, oy, s);
        assert(poly[1].0 == ox + 2 * s && poly[1].1 == oy + 4 * s);
        lemma_vertex_fits(8, ox, oy, s);
        assert(poly[2].0 == ox + 3 * s && poly[2].1 == oy + 3 * s);
        lemma_vertex_fits(9, ox, oy, s);
        assert(poly[3].0 == ox + 1 * s && poly[3].1 == oy + 3 * s);
        lemma_next_index(0, 4);
        lemma_scaled_cross(s, 0, 4, 2, 4, px, py);
        lemma_scaled_sign(s, 0 * px + 2 * py + -8 * s);
        assert(cross(poly, 0, x, y) == s * (0 * px + 2 * py + -8 * s));
        lemma_next_index(1, 4);
        lemma_scaled_cross(s, 2, 4, 3, 3, px, py);
        lemma_scaled_sign(s, 1 * px + 1 * py + -6 * s);
        assert(cross(poly, 1, x, y) == s * (1 * px + 1 * py + -6 * s));
        lemma_next_index(2, 4);
        lemma_scaled_cross(s, 3, 3, 1, 3, px, py);
        lemma_scaled_sign(s, 0 * px + -2 * py + 6 * s);
        assert(cross(poly, 2, x, y) == s * (0 * px + -2 * py + 6 * s));
        lemma_next_index(3, 4);
        lemma_scaled_cross(s, 1, 3, 0, 4, px, py);
        lemma_scaled_sign(s, -1 * px + -1 * py + 4 * s);
        assert(cross(poly, 3, x, y) == s * (-1 * px + -1 * py + 4 * s));
        assert forall|i: int| 0 <= i < 4 implies !(#[trigger] cross(poly, i, x, y) > 0) by {
            assert(i == 0 || i == 1 || i == 2 || i == 3);
        }
        assert(poly[0].0 <= x && poly[2].0 >= x && poly[2].1 <= y && poly[0].1 >= y);
    }
    assert(inside(poly, x, y));
    assert(spans_column(poly, x) && spans_row(poly, y));
}

/// Every pixel of the square lies in some piece's filled polygon: drawing the
/// seven pieces leaves no gap in the square.
pub proof fn lemma_square_is_covered(ox: int, oy: int, scale: int, x: int, y: int)
    requires
        square_fits(ox, oy, scale),
        scale >= 1,
        ox <= x <= ox + 4 * scale,
        oy <= y <= oy + 4 * scale,
    ensures
        exists|k: int| 0 <= k < PIECE_COUNT && #[trigger] convex_fill(piece_polygon(piece_corners(k), ox, oy, scale))(x, y),
{
    lemma_pieces_tile_square(x - ox, y - oy, scale);
    let k = choose|k: int| 0 <= k < PIECE_COUNT && #[trigger] in_piece(k, x - ox, y - oy, scale);
    lemma_piece_is_filled(k, ox, oy, scale, x, y);
}

/// Once a piece that holds the pixel is drawn, the pixel shows the colour of some
/// piece drawn so far.
proof fn lemma_rendered_shows_piece(
    frame: Seq<u8>,
    w: int,
    h: int,
    ox: int,
    oy: int,
    scale: int,
    theme: int,
    offset: int,
    k: int,
    m: int,
    x: int,
    y: int,
    i: int,
)
    requires
        0 <= k < m <= PIECE_COUNT,
        convex_fill(piece_polygon(piece_corners(k), ox, oy, scale))(x, y),
        0 <= x < w,
        0 <= y < h,
        4 * (y * w + x) <= i < 4 * (y * w + x) + 4,
        4 * (y * w + x) + 3 < frame.len(),
    ensures
        exists|j: int|
            0 <= j < m && rendered(frame, w, h, ox, oy, scale, theme, offset, m)[i] == channel(
                #[trigger] theme_color(theme, (j + offset) % 7),
                i - 4 * (y * w + x),
            ),
    decreases m,
{
    let prev = rendered(frame, w, h, ox, oy, scale, theme, offset, m - 1);
    assert(prev.len() == frame.len()) by {
        lemma_rendered_len(frame, w, h, ox, oy, scale, theme, offset, m - 1);
    }
    let sel = convex_fill(piece_polygon(piece_corners(m - 1), ox, oy, scale));
    let c = theme_color(theme, (m - 1 + offset) % 7);
    lemma_paint_at(prev, w, h, sel, c, x, y, i);
    if sel(x, y) {
        assert(rendered(frame, w, h, ox, oy, scale, theme, offset, m)[i] == channel(
            theme_color(theme, (m - 1 + offset) % 7),
            i - 4 * (y * w + x),
        ));
    } else {
        assert(k < m - 1);
        lemma_rendered_shows_piece(frame, w, h, ox, oy, scale, theme, offset, k, m - 1, x, y, i);
    }
}

/// Drawing pieces keeps the length of the frame.
proof fn lemma_rendered_len(
    frame: Seq<u8>,
    w: int,
    h: int,
    ox: int,
    oy: int,
    scale: int,
    theme: int,
    offset: int,
    m: int,
)
    ensures
        rendered(frame, w, h, ox, oy, scale, theme, offset, m).len() == frame.len(),
    decreases m,
{
    if m > 0 {
        lemma_rendered_len(frame, w, h, ox, oy, scale, theme, offset, m - 1);
    }
}

/// One frame repaints the whole square: every byte of every pixel of the square
/// that is on the screen and inside the frame ends up with the colour of some piece,
/// so no background shows through and the background needs laying only once.
pub proof fn lemma_render_repaints_square(
    frame: Seq<u8>,
    w: int,
    h: int,
    ox: int,
    oy: int,
    scale: int,
    theme: int,
    offset: int,
    x: int,
    y: int,
    i: int,
)
    requires
        square_fits(ox, oy, scale),
        scale >= 1,
        ox <= x <= ox + 4 * scale,
        oy <= y <= oy + 4 * scale,
        0 <= x < w,
        0 <= y < h,
        4 * (y * w + x) <= i < 4 * (y * w + x) + 4,
        4 * (y * w + x) + 3 < frame.len(),
    ensures
        exists|j: int|
            0 <= j < PIECE_COUNT && rendered(frame, w, h, ox, oy, scale, theme, offset, PIECE_COUNT as int)[i]
                == channel(#[trigger] theme_color(theme, (j + offset) % 7), i - 4 * (y * w + x)),
{
    lemma_square_is_covered(ox, oy, scale, x, y);
    let k = choose|k: int| 0 <= k < PIECE_COUNT && #[trigger] convex_fill(piece_polygon(piece_corners(k), ox, oy, scale))(x, y);
    lemma_rendered_shows_piece(frame, w, h, ox, oy, scale, theme, offset, k, PIECE_COUNT as int, x, y, i);
}

/// Draws one frame of the tangram: the seven pieces over whatever the frame holds
/// (the background is laid once, before the first frame).
pub fn render(cv: &mut Canvas, ox: i32, oy: i32, scale: i32, theme: usize, offset: usize)
    requires
        old(cv).wf(),
        square_fits(ox as int, oy as int, scale as int),
        offset + PIECE_COUNT - 1 <= usize::MAX,
    ensures
        final(cv).wf(),
        final(cv).w == old(cv).w,
        final(cv).h == old(cv).h,
        final(cv).frame@ == rendered(
            old(cv).frame@,
            old(cv).w as int,
            old(cv).h as int,
            ox as int,
            oy as int,
            scale as int,
            (theme % THEME_COUNT) as int,
            offset as int,
            PIECE_COUNT as int,
        ),
{
    let ghost f0 = cv.frame@;
    let t = theme % THEME_COUNT;
    let all = pieces();
    let mut i: usize = 0;
    while i < PIECE_COUNT
        invariant
            cv.wf(),
            cv.w == old(cv).w,
            cv.h == old(cv).h,
            f0 == old(cv).frame@,
            square_fits(ox as int, oy as int, scale as int),
            offset + PIECE_COUNT - 1 <= usize::MAX,
            t < THEME_COUNT,
            all@.len() == PIECE_COUNT,
            forall|k: int| 0 <= k < PIECE_COUNT ==> (#[trigger] all@[k]).0@ == piece_corners(k),
            i <= PIECE_COUNT,
            cv.frame@ == rendered(f0, cv.w as int, cv.h as int, ox as int, oy as int, scale as int, t as int, offset as int, i as int),
        decreases PIECE_COUNT - i,
    {
        let c = themes(t, (i + offset) % PIECE_COUNT);
        let piece = &all[i];
        proof {
            assert(piece.0@ == piece_corners(i as int));
            assert forall|k: int| 0 <= k < piece.0@.len() implies #[trigger] piece.0@[k] < 10 by {
                assert(piece_corners(i as int)[k] < 10);
            }
        }
        draw_piece(cv, piece, ox, oy, scale, c);
        i = i + 1;
    }
}

/// Background laid once, then pieces drawn frame after frame; the layout puts the
/// 4-by-4 square in the middle of the screen.
pub struct Layout {
    /// Pixels of one unit.
    pub scale: i32,
    /// Left edge of the square on the screen.
    pub ox: i32,
    /// Top edge of the square on the screen.
    pub oy: i32,
}

/// Half of `v`, rounded toward zero.
pub open spec fn half_toward_zero(v: int) -> int {
    if v >= 0 {
        v / 2
    } else {
        -((-v) / 2)
    }
}

/// The pixels of one unit: four fifths of the shorter side, rounded down to a
/// multiple of four, split into four units, and never less than one pixel.
pub open spec fn unit_pixels(w: int, h: int) -> int {
    let short = if w <= h { w } else { h };
    let side = short * 4 / 5;
    let side = side - side % 4;
    if side / 4 >= 1 {
        side / 4
    } else {
        1
    }
}

/// Centres the square on a screen of `w` by `h` pixels.
/// The tangram square fits the screen and is centred on it.  Its unit is the
/// same for a screen and for the screen turned a quarter (so turning the screen
/// swaps the two offsets); on a screen whose shorter side has at least 5 pixels,
/// its side is the largest multiple of 4 within four fifths of the shorter side,
/// so it lies wholly on the screen, at offsets that leave equal margins on both
/// sides (up to one pixel).
pub proof fn lemma_layout_fits(w: int, h: int)
    requires
        0 <= w,
        0 <= h,
    ensures
        unit_pixels(w, h) == unit_pixels(h, w),
        unit_pixels(w, h) >= 1,
        ({
            let short = if w <= h { w } else { h };
            let side = 4 * unit_pixels(w, h);
            let ox = half_toward_zero(w - side);
            let oy = half_toward_zero(h - side);
            short >= 5 ==> {
                &&& 5 * side <= 4 * short < 5 * side + 20
                &&& side <= short
                &&& 0 <= ox && 2 * ox <= w - side <= 2 * ox + 1
                &&& 0 <= oy && 2 * oy <= h - side <= 2 * oy + 1
            }
        }),
{
}

pub fn layout(w: i32, h: i32) -> (r: Layout)
    requires
        0 <= w,
        0 <= h,
        w <= i32::MAX / 4 || h <= i32::MAX / 4,
    ensures
        r.scale == unit_pixels(w as int, h as int),
        r.ox == half_toward_zero(w - 4 * r.scale),
        r.oy == half_toward_zero(h - 4 * r.scale),
        square_fits(r.ox as int, r.oy as int, r.scale as int),
        (if w <= h { w } else { h }) >= 5 ==> {
            &&& 5 * (4 * r.scale) <= 4 * (if w <= h { w } else { h }) < 5 * (4 * r.scale) + 20
            &&& 0 <= r.ox && 2 * r.ox <= w - 4 * r.scale <= 2 * r.ox + 1
            &&& 0 <= r.oy && 2 * r.oy <= h - 4 * r.scale <= 2 * r.oy + 1
        },
{
    proof {
        lemma_layout_fits(w as int, h as int);
    }
    let short = if w <= h { w } else { h };
    let raw = short * 4 / 5;
    let side = raw & !3i32;
    assert(side == raw - raw % 4) by (bit_vector)
        requires
            side == raw & !3i32,
            0 <= raw,
    ;
    let scale = if side / 4 >= 1 { side / 4 } else { 1 };
    let side = scale * 4;
    let ox = (w - side) / 2;
    let oy = (h - side) / 2;
    Layout { scale, ox, oy }
}

/// The animation state: colour theme, colour rotation and frame count.
pub struct Animation {
    /// Current theme, below [`THEME_COUNT`].
    pub theme: usize,
    /// Colour rotation, below [`PIECE_COUNT`].
    pub offset: usize,
    /// Frames shown so far.
    pub frame: u64,
}

impl Animation {
    /// Theme and rotation are in range.
    pub open spec fn wf(&self) -> bool {
        self.theme < THEME_COUNT && self.offset < PIECE_COUNT
    }

    /// Theme 0, no rotation, no frame shown.
    pub fn new() -> (r: Animation)
        ensures
            r.wf(),
            r.theme == 0,
            r.offset == 0,
            r.frame == 0,
    {
        Animation { theme: 0, offset: 0, frame: 0 }
    }

    /// After a frame is shown: a key press switches to the next theme, and every
    /// fifteenth frame turns the colours one slot further.
    pub fn tick(&mut self, key_pressed: bool)
        requires
            old(self).wf(),
            old(self).frame < u64::MAX,
        ensures
            final(self).wf(),
            final(self).theme == if key_pressed {
                (old(self).theme + 1) % THEME_COUNT as int
            } else {
                old(self).theme as int
            },
            final(self).frame == old(self).frame + 1,
            final(self).offset == if final(self).frame % 15 == 0 {
                (old(self).offset + 1) % PIECE_COUNT as int
            } else {
                old(self).offset as int
            },
    {
        if key_pressed {
            self.theme = (self.theme + 1) % THEME_COUNT;
        }
        self.frame = self.frame + 1;
        if self.frame % 15 == 0 {
            self.offset = (self.offset + 1) % PIECE_COUNT;
        }
    }
}

/// Ticks of the 10 MHz `time` counter in `ms` milliseconds.
pub fn delay_ticks(ms: u64) -> (r: u64)
    requires
        ms <= u64::MAX / 10_000,
    ensures
        r == 10_000 * ms,
{
    10_000_000 / 1000 * ms
}

/// Whether `ticks` have passed from `start` to `now` on a counter that wraps around.
pub fn delay_elapsed(start: u64, now: u64, ticks: u64) -> (r: bool)
    ensures
        r == ((if now >= start { now - start } else { now - start + 0x1_0000_0000_0000_0000 }) >= ticks),
{
    let d = if now >= start { now - start } else { u64::MAX - start + now + 1 };
    d >= ticks
}

/// The decimal digits of `n` in ASCII, most significant first, with no leading zero.
pub open spec fn decimal(n: nat) -> Seq<u8>
    decreases n,
{
    if n < 10 {
        seq![(48 + n) as u8]
    } else {
        decimal(n / 10).push((48 + n % 10) as u8)
    }
}

/// The number that ASCII decimal digits spell.
pub open spec fn decimal_value(s: Seq<u8>) -> int
    decreases s.len(),
{
    if s.len() == 0 {
        0
    } else {
        decimal_value(s.drop_last()) * 10 + (s.last() - 48)
    }
}

/// Reading back the digits of a number gives the number; they are all ASCII
/// digits and the first is not `0` unless the number is zero.
pub proof fn lemma_decimal_round_trip(n: nat)
    ensures
        decimal_value(decimal(n)) == n,
        decimal(n).len() >= 1,
        forall|i: int| 0 <= i < decimal(n).len() ==> 48 <= #[trigger] decimal(n)[i] <= 57,
        n > 0 ==> decimal(n)[0] != 48,
    decreases n,
{
    if n >= 10 {
        lemma_decimal_round_trip(n / 10);
        assert(decimal(n).drop_last() =~= decimal(n / 10));
        assert(decimal(n).last() == 48 + n % 10);
        assert(n == (n / 10) * 10 + n % 10);
        assert forall|i: int| 0 <= i < decimal(n).len() implies 48 <= #[trigger] decimal(n)[i] <= 57 by {
            if i < decimal(n / 10).len() {
                assert(decimal(n)[i] == decimal(n / 10)[i]);
            }
        }
        assert(decimal(n)[0] == decimal(n / 10)[0]);
    } else {
        assert(decimal(n).drop_last() =~= Seq::<u8>::empty());
        assert(decimal_value(Seq::<u8>::empty()) == 0);
    }
}

/// Ten to the power `k`.
pub open spec fn pow10(k: nat) -> nat
    decreases k,
{
    if k == 0 {
        1
    } else {
        10 * pow10((k - 1) as nat)
    }
}

/// Numbers below `10^k` have at most `k` digits.
proof fn lemma_decimal_len(n: nat, k: nat)
    requires
        n < pow10(k),
        k >= 1,
    ensures
        decimal(n).len() <= k,
    decreases k,
{
    if n >= 10 {
        if k == 1 {
            assert(pow10(0) == 1);
        } else {
            lemma_decimal_len(n / 10, (k - 1) as nat);
        }
    }
}

/// The decimal digits of `n`, as printed on the console.
pub fn decimal_digits(n: u32) -> (r: Vec<u8>)
    ensures
        r@ == decimal(n as nat),
{
    let mut buf = [0u8; 10];
    let mut i: usize = 10;
    let mut n = n;
    let ghost orig = n as nat;
    proof {
        reveal_with_fuel(pow10, 11);
        lemma_decimal_len(orig, 10);
    }
    if n == 0 {
        return vec![48u8];
    }
    while n > 0
        invariant
            i <= 10,
            decimal(orig).len() <= 10,
            n > 0 ==> decimal(orig) == decimal(n as nat) + buf@.subrange(i as int, 10),
            n > 0 ==> decimal(n as nat).len() + (10 - i) == decimal(orig).len(),
            n == 0 ==> decimal(orig) == buf@.subrange(i as int, 10),
        decreases n,
    {
        proof {
            assert(decimal(n as nat).len() >= 1) by {
                lemma_decimal_round_trip(n as nat);
            }
        }
        let ghost tail = buf@.subrange(i as int, 10);
        i = i - 1;
        buf[i] = 48 + (n % 10) as u8;
        proof {
            assert(buf@.subrange(i as int, 10) =~= seq![(48 + n % 10) as u8] + tail);
            if n >= 10 {
                assert(decimal(n as nat) == decimal((n / 10) as nat).push((48 + n % 10) as u8));
                assert(decimal(orig) =~= decimal((n / 10) as nat) + buf@.subrange(i as int, 10));
            } else {
                assert(decimal(orig) =~= buf@.subrange(i as int, 10));
            }
        }
        n = n / 10;
    }
    let mut out: Vec<u8> = Vec::new();
    let mut j = i;
    while j < 10
        invariant
            i <= j <= 10,
            out@ == buf@.subrange(i as int, j as int),
        decreases 10 - j,
    {
        out.push(buf[j]);
        assert(out@ =~= buf@.subrange(i as int, j + 1));
        j = j + 1;
    }
    out
}

} // verus!
