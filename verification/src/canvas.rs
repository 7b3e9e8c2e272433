//! A frame buffer of `BGRA8888` pixels (memory order `[B, G, R, A]`) and the
//! integer rasteriser that fills convex polygons on it.
use vstd::prelude::*;
use vstd::arithmetic::div_mod::{lemma_fundamental_div_mod, lemma_fundamental_div_mod_converse};

verus! {

/// A colour as `(R, G, B)`.
pub type Rgb = (u8, u8, u8);

/// Byte `k` (in memory order) of a pixel of colour `c`: blue, green, red, then an
/// opaque alpha.
pub open spec fn channel(c: Rgb, k: int) -> u8 {
    if k == 0 {
        c.2
    } else if k == 1 {
        c.1
    } else if k == 2 {
        c.0
    } else {
        0xff
    }
}

/// The frame after painting with colour `c` every pixel `(x, y)` that `sel`
/// chooses, lies on the `w`-by-`h` screen and whose four bytes lie inside the
/// frame; all other bytes are kept.
pub open spec fn paint(frame: Seq<u8>, w: int, h: int, sel: spec_fn(int, int) -> bool, c: Rgb) -> Seq<u8> {
    Seq::new(
        frame.len(),
        |i: int|
            {
                let p = i / 4;
                if w > 0 && p / w < h && sel(p % w, p / w) && 4 * p + 3 < frame.len() {
                    channel(c, i % 4)
                } else {
                    frame[i]
                }
            },
    )
}

/// Painting twice with one colour is painting once the union of the two choices.
pub proof fn lemma_paint_union(
    frame: Seq<u8>,
    w: int,
    h: int,
    s1: spec_fn(int, int) -> bool,
    s2: spec_fn(int, int) -> bool,
    c: Rgb,
)
    ensures
        paint(paint(frame, w, h, s1, c), w, h, s2, c) == paint(frame, w, h, |x: int, y: int| s1(x, y) || s2(x, y), c),
{
    assert(paint(paint(frame, w, h, s1, c), w, h, s2, c) =~= paint(frame, w, h, |x: int, y: int| s1(x, y) || s2(x, y), c));
}

/// Painting nothing keeps the frame.
pub proof fn lemma_paint_nothing(frame: Seq<u8>, w: int, h: int, c: Rgb)
    ensures
        paint(frame, w, h, |x: int, y: int| false, c) == frame,
{
    assert(paint(frame, w, h, |x: int, y: int| false, c) =~= frame);
}

/// Painting depends on the choice only through the pixels it chooses.
pub proof fn lemma_paint_same_choice(
    frame: Seq<u8>,
    w: int,
    h: int,
    s1: spec_fn(int, int) -> bool,
    s2: spec_fn(int, int) -> bool,
    c: Rgb,
)
    requires
        forall|x: int, y: int| 0 <= x < w && 0 <= y < h ==> (#[trigger] s1(x, y) <==> s2(x, y)),
    ensures
        paint(frame, w, h, s1, c) == paint(frame, w, h, s2, c),
{
    assert forall|i: int| 0 <= i < frame.len() implies paint(frame, w, h, s1, c)[i] == paint(frame, w, h, s2, c)[i] by {
        let p = i / 4;
        if w > 0 {
            assert(0 <= p % w < w) by {
                vstd::arithmetic::div_mod::lemma_mod_bound(p, w);
            }
            assert(p / w >= 0) by {
                vstd::arithmetic::div_mod::lemma_div_pos_is_pos(p, w);
            }
        }
    }
    assert(paint(frame, w, h, s1, c) =~= paint(frame, w, h, s2, c));
}

/// Byte `i` of pixel `(x, y)` after painting: the colour's channel when the pixel is
/// chosen, the old byte otherwise.
pub proof fn lemma_paint_at(
    frame: Seq<u8>,
    w: int,
    h: int,
    sel: spec_fn(int, int) -> bool,
    c: Rgb,
    x: int,
    y: int,
    i: int,
)
    requires
        0 <= x < w,
        0 <= y < h,
        4 * (y * w + x) <= i < 4 * (y * w + x) + 4,
        4 * (y * w + x) + 3 < frame.len(),
    ensures
        paint(frame, w, h, sel, c)[i] == if sel(x, y) {
            channel(c, i - 4 * (y * w + x))
        } else {
            frame[i]
        },
{
    let q = y * w + x;
    assert(0 <= y * w) by (nonlinear_arith)
        requires
            0 <= y,
            0 <= w,
    ;
    assert(i / 4 == q);
    lemma_fundamental_div_mod_converse(q, w, y, x);
}

/// Pixel `(x, y)` alone.
pub open spec fn just(x: int, y: int) -> spec_fn(int, int) -> bool {
    |a: int, b: int| a == x && b == y
}


/// Edge `i` of `poly` (from vertex `i` to the next one, cyclically) crossed with the
/// vector from its start to `(x, y)`: positive on one side, negative on the other,
/// zero on the edge's line.
pub open spec fn cross(poly: Seq<(i32, i32)>, i: int, x: int, y: int) -> int {
    let a = poly[i];
    let b = poly[(i + 1) % (poly.len() as int)];
    (b.0 - a.0) * (y - a.1) - (b.1 - a.1) * (x - a.0)
}

/// `(x, y)` is on no strict side of two edges at once: inside a convex polygon or
/// on its border.
pub open spec fn inside(poly: Seq<(i32, i32)>, x: int, y: int) -> bool {
    !((exists|i: int| 0 <= i < poly.len() && #[trigger] cross(poly, i, x, y) > 0) && (exists|i: int|
        0 <= i < poly.len() && #[trigger] cross(poly, i, x, y) < 0))
}

/// Column `x` lies between the leftmost and the rightmost vertex of `poly`.
pub open spec fn spans_column(poly: Seq<(i32, i32)>, x: int) -> bool {
    &&& exists|i: int| 0 <= i < poly.len() && #[trigger] poly[i].0 <= x
    &&& exists|i: int| 0 <= i < poly.len() && #[trigger] poly[i].0 >= x
}

/// Row `y` lies between the topmost and the bottommost vertex of `poly`.
pub open spec fn spans_row(poly: Seq<(i32, i32)>, y: int) -> bool {
    &&& exists|i: int| 0 <= i < poly.len() && #[trigger] poly[i].1 <= y
    &&& exists|i: int| 0 <= i < poly.len() && #[trigger] poly[i].1 >= y
}

/// `(x, y)` lies in the bounding box of the vertices of `poly`.
pub open spec fn in_bounding_box(poly: Seq<(i32, i32)>, x: int, y: int) -> bool {
    spans_column(poly, x) && spans_row(poly, y)
}

/// The pixels that filling `poly` paints.
pub open spec fn convex_fill(poly: Seq<(i32, i32)>) -> spec_fn(int, int) -> bool {
    |x: int, y: int| in_bounding_box(poly, x, y) && inside(poly, x, y)
}

/// A pixel that lies strictly on one side of an edge `i` and strictly on the other
/// side of an edge `j` (the cross products of the edges, from their start vertex to
/// the next one, with the vector to the pixel have opposite signs) is outside the
/// polygon: filling leaves every byte of it as it was.
pub proof fn lemma_fill_skips_outside(
    frame: Seq<u8>,
    w: int,
    h: int,
    poly: Seq<(i32, i32)>,
    c: Rgb,
    x: int,
    y: int,
    i: int,
    j: int,
    k: int,
)
    requires
        0 <= i < poly.len(),
        0 <= j < poly.len(),
        ({
            let a = poly[i];
            let b = poly[(i + 1) % (poly.len() as int)];
            (b.0 - a.0) * (y - a.1) - (b.1 - a.1) * (x - a.0) > 0
        }),
        ({
            let a = poly[j];
            let b = poly[(j + 1) % (poly.len() as int)];
            (b.0 - a.0) * (y - a.1) - (b.1 - a.1) * (x - a.0) < 0
        }),
        0 <= x < w,
        0 <= y < h,
        4 * (y * w + x) <= k < 4 * (y * w + x) + 4,
        4 * (y * w + x) + 3 < frame.len(),
    ensures
        !convex_fill(poly)(x, y),
        paint(frame, w, h, convex_fill(poly), c)[k] == frame[k],
{
    assert(cross(poly, i, x, y) > 0);
    assert(cross(poly, j, x, y) < 0);
    lemma_paint_at(frame, w, h, convex_fill(poly), c, x, y, k);
}

/// Vertex `i` of `poly`.
pub open spec fn vertex(poly: Seq<(i32, i32)>, i: int) -> (i32, i32) {
    poly[i]
}

/// Edges whose cross products at `(x, y)` all have one sign (or are zero) leave the
/// pixel inside; vertices on each side of it put it in the bounding box.
proof fn lemma_inside_by_signs(poly: Seq<(i32, i32)>, x: int, y: int, left: int, right: int, top: int, bottom: int)
    requires
        (forall|i: int|
            0 <= i < poly.len() ==> {
                let a = #[trigger] vertex(poly, i);
                let b = poly[(i + 1) % (poly.len() as int)];
                (b.0 - a.0) * (y - a.1) - (b.1 - a.1) * (x - a.0) >= 0
            }) || (forall|i: int|
            0 <= i < poly.len() ==> {
                let a = #[trigger] vertex(poly, i);
                let b = poly[(i + 1) % (poly.len() as int)];
                (b.0 - a.0) * (y - a.1) - (b.1 - a.1) * (x - a.0) <= 0
            }),
        0 <= left < poly.len() && poly[left].0 <= x,
        0 <= right < poly.len() && poly[right].0 >= x,
        0 <= top < poly.len() && poly[top].1 <= y,
        0 <= bottom < poly.len() && poly[bottom].1 >= y,
    ensures
        convex_fill(poly)(x, y),
{
    assert(in_bounding_box(poly, x, y));
    if exists|i: int| 0 <= i < poly.len() && #[trigger] cross(poly, i, x, y) > 0 {
        if exists|i: int| 0 <= i < poly.len() && #[trigger] cross(poly, i, x, y) < 0 {
            let p = choose|i: int| 0 <= i < poly.len() && #[trigger] cross(poly, i, x, y) > 0;
            let q = choose|i: int| 0 <= i < poly.len() && #[trigger] cross(poly, i, x, y) < 0;
            let _ = vertex(poly, p);
            let _ = vertex(poly, q);
            assert(false);
        }
    }
    assert(inside(poly, x, y));
}

/// A pixel on the inner side of every edge, or on an edge (all the cross products
/// at it are at least zero, or all are at most zero), that lies between the
/// leftmost and rightmost and between the topmost and bottommost vertex, is
/// inside the polygon: filling paints it in the colour `c`.
pub proof fn lemma_fill_paints_inside(
    frame: Seq<u8>,
    w: int,
    h: int,
    poly: Seq<(i32, i32)>,
    c: Rgb,
    x: int,
    y: int,
    k: int,
    left: int,
    right: int,
    top: int,
    bottom: int,
)
    requires
        (forall|i: int|
            0 <= i < poly.len() ==> {
                let a = #[trigger] vertex(poly, i);
                let b = poly[(i + 1) % (poly.len() as int)];
                (b.0 - a.0) * (y - a.1) - (b.1 - a.1) * (x - a.0) >= 0
            }) || (forall|i: int|
            0 <= i < poly.len() ==> {
                let a = #[trigger] vertex(poly, i);
                let b = poly[(i + 1) % (poly.len() as int)];
                (b.0 - a.0) * (y - a.1) - (b.1 - a.1) * (x - a.0) <= 0
            }),
        0 <= left < poly.len() && poly[left].0 <= x,
        0 <= right < poly.len() && poly[right].0 >= x,
        0 <= top < poly.len() && poly[top].1 <= y,
        0 <= bottom < poly.len() && poly[bottom].1 >= y,
        0 <= x < w,
        0 <= y < h,
        4 * (y * w + x) <= k < 4 * (y * w + x) + 4,
        4 * (y * w + x) + 3 < frame.len(),
    ensures
        convex_fill(poly)(x, y),
        paint(frame, w, h, convex_fill(poly), c)[k] == channel(c, k - 4 * (y * w + x)),
{
    lemma_inside_by_signs(poly, x, y, left, right, top, bottom);
    lemma_paint_at(frame, w, h, convex_fill(poly), c, x, y, k);
}

/// The vertices of `poly` in the opposite order.
pub open spec fn reversed(poly: Seq<(i32, i32)>) -> Seq<(i32, i32)> {
    Seq::new(poly.len(), |i: int| poly[poly.len() - 1 - i])
}

/// The vertices of `poly` starting from vertex `k`, cyclically.
pub open spec fn rotated(poly: Seq<(i32, i32)>, k: int) -> Seq<(i32, i32)> {
    Seq::new(poly.len(), |i: int| poly[(i + k) % (poly.len() as int)])
}

/// Walking an edge backwards flips the sign of its cross product.
proof fn lemma_cross_flip(a: (i32, i32), b: (i32, i32), x: int, y: int)
    ensures
        (a.0 - b.0) * (y - b.1) - (a.1 - b.1) * (x - b.0) == -((b.0 - a.0) * (y - a.1) - (b.1 - a.1) * (x - a.0)),
{
    let (a0, a1, b0, b1) = (a.0 as int, a.1 as int, b.0 as int, b.1 as int);
    assert((a0 - b0) * (y - b1) - (a1 - b1) * (x - b0) == -((b0 - a0) * (y - a1) - (b1 - a1) * (x - a0)))
        by (nonlinear_arith);
}

/// `x % n` for `0 <= x < 2 * n`.
proof fn lemma_mod_once(x: int, n: int)
    requires
        0 <= x < 2 * n,
    ensures
        x % n == if x < n { x } else { x - n },
{
    if x < n {
        lemma_fundamental_div_mod_converse(x, n, 0, x);
    } else {
        lemma_fundamental_div_mod_converse(x, n, 1, x - n);
    }
}

/// Reversing the vertex list paints the same pixels: every edge is walked the other
/// way, which flips the sign of every cross product, and a pixel is inside exactly
/// when the signs do not disagree.
#[verifier::spinoff_prover]
pub proof fn lemma_fill_reversed(poly: Seq<(i32, i32)>, frame: Seq<u8>, w: int, h: int, c: Rgb)
    ensures
        forall|x: int, y: int| #[trigger] convex_fill(reversed(poly))(x, y) == convex_fill(poly)(x, y),
        paint(frame, w, h, convex_fill(reversed(poly)), c) == paint(frame, w, h, convex_fill(poly), c),
{
    let r = reversed(poly);
    let n = poly.len() as int;
    assert forall|x: int, y: int| #[trigger] convex_fill(r)(x, y) == convex_fill(poly)(x, y) by {
        // Edge `i` of the reversed list is edge `partner(i)` of `poly`, walked backwards.
        assert forall|i: int| 0 <= i < n implies #[trigger] cross(r, i, x, y) == -cross(
            poly,
            if i < n - 1 { n - 2 - i } else { n - 1 },
            x,
            y,
        ) by {
            let j = if i < n - 1 { n - 2 - i } else { n - 1 };
            lemma_mod_once(i + 1, n);
            lemma_mod_once(j + 1, n);
            lemma_cross_flip(poly[j], poly[(j + 1) % n], x, y);
        }
        // And edge `j` of `poly` is edge `i` of the reversed list.
        assert forall|j: int| 0 <= j < n implies #[trigger] cross(poly, j, x, y) == -cross(
            r,
            if j < n - 1 { n - 2 - j } else { n - 1 },
            x,
            y,
        ) by {
            let i = if j < n - 1 { n - 2 - j } else { n - 1 };
            assert(cross(r, i, x, y) == -cross(poly, if i < n - 1 { n - 2 - i } else { n - 1 }, x, y));
        }
        assert forall|i: int| 0 <= i < n implies r[i] == #[trigger] poly[n - 1 - i] by {}
        assert forall|j: int| 0 <= j < n implies poly[j] == #[trigger] r[n - 1 - j] by {}
        if (exists|i: int| 0 <= i < n && #[trigger] cross(r, i, x, y) > 0) {
            let i = choose|i: int| 0 <= i < n && #[trigger] cross(r, i, x, y) > 0;
            let j = if i < n - 1 { n - 2 - i } else { n - 1 };
            assert(cross(poly, j, x, y) < 0);
        }
        if (exists|i: int| 0 <= i < n && #[trigger] cross(r, i, x, y) < 0) {
            let i = choose|i: int| 0 <= i < n && #[trigger] cross(r, i, x, y) < 0;
            let j = if i < n - 1 { n - 2 - i } else { n - 1 };
            assert(cross(poly, j, x, y) > 0);
        }
        if (exists|j: int| 0 <= j < n && #[trigger] cross(poly, j, x, y) > 0) {
            let j = choose|j: int| 0 <= j < n && #[trigger] cross(poly, j, x, y) > 0;
            let i = if j < n - 1 { n - 2 - j } else { n - 1 };
            assert(cross(r, i, x, y) < 0);
        }
        if (exists|j: int| 0 <= j < n && #[trigger] cross(poly, j, x, y) < 0) {
            let j = choose|j: int| 0 <= j < n && #[trigger] cross(poly, j, x, y) < 0;
            let i = if j < n - 1 { n - 2 - j } else { n - 1 };
            assert(cross(r, i, x, y) > 0);
        }
        assert(inside(r, x, y) == inside(poly, x, y));
        if spans_column(poly, x) {
            let i1 = choose|i: int| 0 <= i < n && #[trigger] poly[i].0 <= x;
            let i2 = choose|i: int| 0 <= i < n && #[trigger] poly[i].0 >= x;
            assert(r[n - 1 - i1].0 <= x);
            assert(r[n - 1 - i2].0 >= x);
        }
        if spans_column(r, x) {
            let i1 = choose|i: int| 0 <= i < n && #[trigger] r[i].0 <= x;
            let i2 = choose|i: int| 0 <= i < n && #[trigger] r[i].0 >= x;
            assert(poly[n - 1 - i1].0 <= x);
            assert(poly[n - 1 - i2].0 >= x);
        }
        if spans_row(poly, y) {
            let i1 = choose|i: int| 0 <= i < n && #[trigger] poly[i].1 <= y;
            let i2 = choose|i: int| 0 <= i < n && #[trigger] poly[i].1 >= y;
            assert(r[n - 1 - i1].1 <= y);
            assert(r[n - 1 - i2].1 >= y);
        }
        if spans_row(r, y) {
            let i1 = choose|i: int| 0 <= i < n && #[trigger] r[i].1 <= y;
            let i2 = choose|i: int| 0 <= i < n && #[trigger] r[i].1 >= y;
            assert(poly[n - 1 - i1].1 <= y);
            assert(poly[n - 1 - i2].1 >= y);
        }
        assert(in_bounding_box(r, x, y) == in_bounding_box(poly, x, y));
    }
    lemma_paint_same_choice(frame, w, h, convex_fill(r), convex_fill(poly), c);
}

/// Position `i` of a rotated list is position `(i + k) % n` of the list, and edge
/// `i` of the rotated list is that edge of the list.
proof fn lemma_rotated_edge(poly: Seq<(i32, i32)>, k: int, i: int, x: int, y: int)
    requires
        0 <= k < poly.len(),
        0 <= i < poly.len(),
    ensures
        0 <= (i + k) % (poly.len() as int) < poly.len(),
        rotated(poly, k)[i] == poly[(i + k) % (poly.len() as int)],
        cross(rotated(poly, k), i, x, y) == cross(poly, (i + k) % (poly.len() as int), x, y),
{
    let n = poly.len() as int;
    lemma_mod_once(i + 1, n);
    lemma_mod_once((i + 1) % n + k, n);
    lemma_mod_once(i + k, n);
    lemma_mod_once((i + k) % n + 1, n);
    assert(((i + 1) % n + k) % n == ((i + k) % n + 1) % n);
}

/// Position `j` of the list is position `(j + n - k) % n` of the rotated list.
proof fn lemma_rotated_back(poly: Seq<(i32, i32)>, k: int, j: int)
    requires
        0 <= k < poly.len(),
        0 <= j < poly.len(),
    ensures
        0 <= (j + poly.len() - k) % (poly.len() as int) < poly.len(),
        ((j + poly.len() - k) % (poly.len() as int) + k) % (poly.len() as int) == j,
{
    let n = poly.len() as int;
    lemma_mod_once(j + n - k, n);
    lemma_mod_once((j + n - k) % n + k, n);
}

/// One pixel is filled for the rotated list exactly when it is for the list.
proof fn lemma_rotated_fill_at(poly: Seq<(i32, i32)>, k: int, x: int, y: int)
    requires
        0 <= k < poly.len(),
    ensures
        convex_fill(rotated(poly, k))(x, y) == convex_fill(poly)(x, y),
{
    let r = rotated(poly, k);
    let n = poly.len() as int;
    if (exists|i: int| 0 <= i < n && #[trigger] cross(r, i, x, y) > 0) {
        let i = choose|i: int| 0 <= i < n && #[trigger] cross(r, i, x, y) > 0;
        lemma_rotated_edge(poly, k, i, x, y);
        assert(cross(poly, (i + k) % n, x, y) > 0);
    }
    if (exists|i: int| 0 <= i < n && #[trigger] cross(r, i, x, y) < 0) {
        let i = choose|i: int| 0 <= i < n && #[trigger] cross(r, i, x, y) < 0;
        lemma_rotated_edge(poly, k, i, x, y);
        assert(cross(poly, (i + k) % n, x, y) < 0);
    }
    if (exists|j: int| 0 <= j < n && #[trigger] cross(poly, j, x, y) > 0) {
        let j = choose|j: int| 0 <= j < n && #[trigger] cross(poly, j, x, y) > 0;
        lemma_rotated_back(poly, k, j);
        lemma_rotated_edge(poly, k, (j + n - k) % n, x, y);
        assert(cross(r, (j + n - k) % n, x, y) > 0);
    }
    if (exists|j: int| 0 <= j < n && #[trigger] cross(poly, j, x, y) < 0) {
        let j = choose|j: int| 0 <= j < n && #[trigger] cross(poly, j, x, y) < 0;
        lemma_rotated_back(poly, k, j);
        lemma_rotated_edge(poly, k, (j + n - k) % n, x, y);
        assert(cross(r, (j + n - k) % n, x, y) < 0);
    }
    assert(inside(r, x, y) == inside(poly, x, y));
    if spans_column(poly, x) {
        let i1 = choose|i: int| 0 <= i < n && #[trigger] poly[i].0 <= x;
        let i2 = choose|i: int| 0 <= i < n && #[trigger] poly[i].0 >= x;
        lemma_rotated_back(poly, k, i1);
        lemma_rotated_edge(poly, k, (i1 + n - k) % n, x, y);
        lemma_rotated_back(poly, k, i2);
        lemma_rotated_edge(poly, k, (i2 + n - k) % n, x, y);
        assert(r[(i1 + n - k) % n].0 <= x);
        assert(r[(i2 + n - k) % n].0 >= x);
    }
    if spans_column(r, x) {
        let i1 = choose|i: int| 0 <= i < n && #[trigger] r[i].0 <= x;
        let i2 = choose|i: int| 0 <= i < n && #[trigger] r[i].0 >= x;
        lemma_rotated_edge(poly, k, i1, x, y);
        lemma_rotated_edge(poly, k, i2, x, y);
        assert(poly[(i1 + k) % n].0 <= x);
        assert(poly[(i2 + k) % n].0 >= x);
    }
    if spans_row(poly, y) {
        let i1 = choose|i: int| 0 <= i < n && #[trigger] poly[i].1 <= y;
        let i2 = choose|i: int| 0 <= i < n && #[trigger] poly[i].1 >= y;
        lemma_rotated_back(poly, k, i1);
        lemma_rotated_edge(poly, k, (i1 + n - k) % n, x, y);
        lemma_rotated_back(poly, k, i2);
        lemma_rotated_edge(poly, k, (i2 + n - k) % n, x, y);
        assert(r[(i1 + n - k) % n].1 <= y);
        assert(r[(i2 + n - k) % n].1 >= y);
    }
    if spans_row(r, y) {
        let i1 = choose|i: int| 0 <= i < n && #[trigger] r[i].1 <= y;
        let i2 = choose|i: int| 0 <= i < n && #[trigger] r[i].1 >= y;
        lemma_rotated_edge(poly, k, i1, x, y);
        lemma_rotated_edge(poly, k, i2, x, y);
        assert(poly[(i1 + k) % n].1 <= y);
        assert(poly[(i2 + k) % n].1 >= y);
    }
    assert(in_bounding_box(r, x, y) == in_bounding_box(poly, x, y));
}

/// Starting the vertex list at another vertex paints the same pixels: the edges
/// and the vertices are the same, only numbered from elsewhere.
pub proof fn lemma_fill_rotated(poly: Seq<(i32, i32)>, k: int, frame: Seq<u8>, w: int, h: int, c: Rgb)
    requires
        0 <= k < poly.len(),
    ensures
        forall|x: int, y: int| #[trigger] convex_fill(rotated(poly, k))(x, y) == convex_fill(poly)(x, y),
        paint(frame, w, h, convex_fill(rotated(poly, k)), c) == paint(frame, w, h, convex_fill(poly), c),
{
    assert forall|x: int, y: int| #[trigger] convex_fill(rotated(poly, k))(x, y) == convex_fill(poly)(x, y) by {
        lemma_rotated_fill_at(poly, k, x, y);
    }
    lemma_paint_same_choice(frame, w, h, convex_fill(rotated(poly, k)), convex_fill(poly), c);
}

/// The exact cross product of the edge from `a` to `b` with the vector from `a` to `(x, y)`.
fn edge_cross(a: (i32, i32), b: (i32, i32), x: i32, y: i32) -> (r: i128)
    ensures
        r == (b.0 - a.0) * (y - a.1) - (b.1 - a.1) * (x - a.0),
{
    let dx = b.0 as i128 - a.0 as i128;
    let dy = b.1 as i128 - a.1 as i128;
    let px = x as i128 - a.0 as i128;
    let py = y as i128 - a.1 as i128;
    proof {
        assert(-0x1_0000_0000_0000_0000 <= dx * py <= 0x1_0000_0000_0000_0000) by (nonlinear_arith)
            requires
                -0x1_0000_0000 <= dx <= 0x1_0000_0000,
                -0x1_0000_0000 <= py <= 0x1_0000_0000,
        ;
        assert(-0x1_0000_0000_0000_0000 <= dy * px <= 0x1_0000_0000_0000_0000) by (nonlinear_arith)
            requires
                -0x1_0000_0000 <= dy <= 0x1_0000_0000,
                -0x1_0000_0000 <= px <= 0x1_0000_0000,
        ;
    }
    dx * py - dy * px
}

/// A drawing surface over a frame buffer of `w` by `h` pixels.
pub struct Canvas {
    /// The frame buffer bytes.
    pub frame: Vec<u8>,
    /// Width in pixels.
    pub w: i32,
    /// Height in pixels.
    pub h: i32,
}

impl Canvas {
    /// The canvas has a size whose pixel offsets fit in `i32`.
    pub open spec fn wf(&self) -> bool {
        &&& 0 <= self.w
        &&& 0 <= self.h
        &&& self.w * self.h * 4 <= i32::MAX
    }

    /// Binds a canvas to a frame buffer of `width` by `height` pixels.
    pub fn new(frame: Vec<u8>, width: u32, height: u32) -> (cv: Canvas)
        requires
            width <= i32::MAX,
            height <= i32::MAX,
            width * height * 4 <= i32::MAX,
        ensures
            cv.wf(),
            cv.frame@ == frame@,
            cv.w == width,
            cv.h == height,
    {
        Canvas { frame, w: width as i32, h: height as i32 }
    }

    /// Writes one pixel; a pixel off the screen, or whose bytes run past the end of
    /// the frame, is ignored.
    pub fn put(&mut self, x: i32, y: i32, c: Rgb)
        requires
            old(self).wf(),
        ensures
            final(self).wf(),
            final(self).w == old(self).w,
            final(self).h == old(self).h,
            final(self).frame@ == paint(old(self).frame@, old(self).w as int, old(self).h as int, just(x as int, y as int), c),
    {
        let ghost f0 = self.frame@;
        let ghost w = self.w as int;
        let ghost h = self.h as int;
        if x < 0 || y < 0 || x >= self.w || y >= self.h {
            proof {
                assert forall|i: int| 0 <= i < f0.len() implies paint(f0, w, h, just(x as int, y as int), c)[i] == f0[i] by {
                    let p = i / 4;
                    if w > 0 {
                        vstd::arithmetic::div_mod::lemma_mod_bound(p, w);
                    }
                }
                assert(paint(f0, w, h, just(x as int, y as int), c) =~= f0);
            }
            return;
        }
        proof {
            assert(y * w + x < w * h) by (nonlinear_arith)
                requires
                    0 <= x < w,
                    0 <= y < h,
            ;
            assert(0 <= y * w) by (nonlinear_arith)
                requires
                    0 <= y,
                    0 <= w,
            ;
        }
        let o = ((y * self.w + x) * 4) as usize;
        if o + 3 >= self.frame.len() {
            proof {
                assert forall|i: int| 0 <= i < f0.len() implies paint(f0, w, h, just(x as int, y as int), c)[i] == f0[i] by {
                    let p = i / 4;
                    lemma_fundamental_div_mod(p, w);
                    if p % w == x && p / w == y {
                        assert(w * (p / w) == y * w) by (nonlinear_arith)
                            requires
                                p / w == y,
                        ;
                    }
                }
                assert(paint(f0, w, h, just(x as int, y as int), c) =~= f0);
            }
            return;
        }
        self.frame.set(o, c.2);
        self.frame.set(o + 1, c.1);
        self.frame.set(o + 2, c.0);
        self.frame.set(o + 3, 0xff);
        proof {
            let q = y * w + x;
            assert(o == 4 * q);
            lemma_fundamental_div_mod_converse(q, w, y as int, x as int);
            assert forall|i: int| 0 <= i < f0.len() implies self.frame@[i] == paint(f0, w, h, just(x as int, y as int), c)[i] by {
                let p = i / 4;
                if o <= i <= o + 3 {
                    assert(p == q);
                } else {
                    lemma_fundamental_div_mod(p, w);
                    if p % w == x && p / w == y {
                        assert(w * (p / w) == y * w) by (nonlinear_arith)
                            requires
                                p / w == y,
                        ;
                        assert(p == q);
                    }
                }
            }
            assert(self.frame@ =~= paint(f0, w, h, just(x as int, y as int), c));
        }
    }

    /// Fills the whole screen with colour `c`.
    pub fn clear(&mut self, c: Rgb)
        requires
            old(self).wf(),
        ensures
            final(self).wf(),
            final(self).w == old(self).w,
            final(self).h == old(self).h,
            final(self).frame@ == paint(old(self).frame@, old(self).w as int, old(self).h as int, |x: int, y: int| true, c),
    {
        let ghost f0 = self.frame@;
        let ghost w = self.w as int;
        let ghost h = self.h as int;
        proof {
            lemma_paint_nothing(f0, w, h, c);
            lemma_paint_same_choice(f0, w, h, |x: int, y: int| false, |a: int, b: int| b < 0, c);
        }
        let mut y: i32 = 0;
        while y < self.h
            invariant
                self.wf(),
                self.w == w,
                self.h == h,
                0 <= y <= h,
                self.frame@ == paint(f0, w, h, |a: int, b: int| b < y, c),
            decreases h - y,
        {
            let mut x: i32 = 0;
            proof {
                lemma_paint_same_choice(f0, w, h, |a: int, b: int| b < y, |a: int, b: int| b < y || (b == y && a < 0), c);
            }
            while x < self.w
                invariant
                    self.wf(),
                    self.w == w,
                    self.h == h,
                    0 <= y < h,
                    0 <= x <= w,
                    self.frame@ == paint(f0, w, h, |a: int, b: int| b < y || (b == y && a < x), c),
                decreases w - x,
            {
                self.put(x, y, c);
                proof {
                    let before = |a: int, b: int| b < y || (b == y && a < x);
                    lemma_paint_union(f0, w, h, before, just(x as int, y as int), c);
                    lemma_paint_same_choice(
                        f0,
                        w,
                        h,
                        |a: int, b: int| before(a, b) || just(x as int, y as int)(a, b),
                        |a: int, b: int| b < y || (b == y && a < x + 1),
                        c,
                    );
                }
                x = x + 1;
            }
            proof {
                lemma_paint_same_choice(f0, w, h, |a: int, b: int| b < y || (b == y && a < x), |a: int, b: int| b < y + 1, c);
            }
            y = y + 1;
        }
        proof {
            lemma_paint_same_choice(f0, w, h, |a: int, b: int| b < y, |x: int, y: int| true, c);
        }
    }

    /// Fills the convex polygon `poly` (vertices in pixels, in either turning
    /// direction) with colour `c`.
    ///
    /// Every pixel of the polygon's bounding box, clipped to the screen, is tested
    /// against every edge; it is painted when it lies on no strict side of two
    /// edges at once.  Pixels on the border count as inside, so neighbouring
    /// polygons leave no gap between them.
    pub fn fill_convex(&mut self, poly: &[(i32, i32)], c: Rgb)
        requires
            old(self).wf(),
        ensures
            final(self).wf(),
            final(self).w == old(self).w,
            final(self).h == old(self).h,
            final(self).frame@ == paint(old(self).frame@, old(self).w as int, old(self).h as int, convex_fill(poly@), c),
    {
        let ghost f0 = self.frame@;
        let ghost w = self.w as int;
        let ghost h = self.h as int;
        let ghost pg = poly@;
        let ghost sel = convex_fill(pg);
        let n = poly.len();
        let mut min_x = i32::MAX;
        let mut min_y = i32::MAX;
        let mut max_x = i32::MIN;
        let mut max_y = i32::MIN;
        let mut k: usize = 0;
        while k < n
            invariant
                n == pg.len(),
                pg == poly@,
                k <= n,
                forall|i: int| 0 <= i < k ==> min_x <= #[trigger] pg[i].0 <= max_x,
                forall|i: int| 0 <= i < k ==> min_y <= #[trigger] pg[i].1 <= max_y,
                k == 0 ==> min_x == i32::MAX && min_y == i32::MAX && max_x == i32::MIN && max_y == i32::MIN,
                k > 0 ==> exists|i: int| 0 <= i < k && #[trigger] pg[i].0 == min_x,
                k > 0 ==> exists|i: int| 0 <= i < k && #[trigger] pg[i].0 == max_x,
                k > 0 ==> exists|i: int| 0 <= i < k && #[trigger] pg[i].1 == min_y,
                k > 0 ==> exists|i: int| 0 <= i < k && #[trigger] pg[i].1 == max_y,
            decreases n - k,
        {
            let (px, py) = poly[k];
            if px < min_x {
                min_x = px;
            }
            if py < min_y {
                min_y = py;
            }
            if px > max_x {
                max_x = px;
            }
            if py > max_y {
                max_y = py;
            }
            k = k + 1;
        }
        let ghost raw_min_x = min_x;
        let ghost raw_min_y = min_y;
        let ghost raw_max_x = max_x;
        let ghost raw_max_y = max_y;
        if min_x < 0 {
            min_x = 0;
        }
        if min_y < 0 {
            min_y = 0;
        }
        if max_x > self.w - 1 {
            max_x = self.w - 1;
        }
        if max_y > self.h - 1 {
            max_y = self.h - 1;
        }
        proof {
            // Off the clipped box, no pixel of the screen is chosen.
            assert forall|a: int, b: int| 0 <= a < w && 0 <= b < h && #[trigger] sel(a, b) implies min_x <= a <= max_x
                && min_y <= b <= max_y by {
                let i1 = choose|i: int| 0 <= i < pg.len() && #[trigger] pg[i].0 <= a;
                let i2 = choose|i: int| 0 <= i < pg.len() && #[trigger] pg[i].0 >= a;
                let i3 = choose|i: int| 0 <= i < pg.len() && #[trigger] pg[i].1 <= b;
                let i4 = choose|i: int| 0 <= i < pg.len() && #[trigger] pg[i].1 >= b;
                assert(raw_min_x <= pg[i1].0);
                assert(pg[i2].0 <= raw_max_x);
                assert(raw_min_y <= pg[i3].1);
                assert(pg[i4].1 <= raw_max_y);
            }
            lemma_paint_nothing(f0, w, h, c);
            lemma_paint_same_choice(f0, w, h, |x: int, y: int| false, |a: int, b: int| sel(a, b) && b < min_y, c);
        }
        let mut y = min_y;
        while y <= max_y
            invariant
                self.wf(),
                self.w == w,
                self.h == h,
                n == pg.len(),
                pg == poly@,
                sel == convex_fill(pg),
                0 <= min_x,
                0 <= min_y <= y,
                max_x <= w - 1,
                max_y <= h - 1,
                y <= max_y + 1 || y == min_y,
                n == 0 ==> min_x > max_x,
                forall|a: int, b: int| 0 <= a < w && 0 <= b < h && #[trigger] sel(a, b) ==> min_x <= a <= max_x
                    && min_y <= b <= max_y,
                n > 0 ==> forall|a: int| min_x <= a <= max_x ==> #[trigger] spans_column(pg, a),
                n > 0 ==> forall|b: int| min_y <= b <= max_y ==> #[trigger] spans_row(pg, b),
                self.frame@ == paint(f0, w, h, |a: int, b: int| sel(a, b) && b < y, c),
            decreases max_y + 1 - y,
        {
            proof {
                lemma_paint_same_choice(
                    f0,
                    w,
                    h,
                    |a: int, b: int| sel(a, b) && b < y,
                    |a: int, b: int| sel(a, b) && (b < y || (b == y && a < min_x)),
                    c,
                );
            }
            let mut x = min_x;
            while x <= max_x
                invariant
                    self.wf(),
                    self.w == w,
                    self.h == h,
                    n == pg.len(),
                    pg == poly@,
                    sel == convex_fill(pg),
                    0 <= min_x <= x,
                    max_x <= w - 1,
                    x <= max_x + 1 || x == min_x,
                    n == 0 ==> min_x > max_x,
                    min_y <= y <= max_y,
                    max_y <= h - 1,
                    0 <= min_y,
                    n > 0 ==> forall|a: int| min_x <= a <= max_x ==> #[trigger] spans_column(pg, a),
                    n > 0 ==> forall|b: int| min_y <= b <= max_y ==> #[trigger] spans_row(pg, b),
                    self.frame@ == paint(f0, w, h, |a: int, b: int| sel(a, b) && (b < y || (b == y && a < x)), c),
                decreases max_x + 1 - x,
            {
                let mut pos = false;
                let mut neg = false;
                let mut i: usize = 0;
                while i < n
                    invariant
                        n == pg.len(),
                        pg == poly@,
                        i <= n,
                        pos <==> exists|j: int| 0 <= j < i && #[trigger] cross(pg, j, x as int, y as int) > 0,
                        neg <==> exists|j: int| 0 <= j < i && #[trigger] cross(pg, j, x as int, y as int) < 0,
                    decreases n - i,
                {
                    let a = poly[i];
                    let b = poly[(i + 1) % n];
                    let cr = edge_cross(a, b, x, y);
                    proof {
                        assert(cr == cross(pg, i as int, x as int, y as int));
                    }
                    if cr > 0 {
                        pos = true;
                    } else if cr < 0 {
                        neg = true;
                    }
                    i = i + 1;
                }
                let ghost before = |a: int, b: int| sel(a, b) && (b < y || (b == y && a < x));
                let ghost after = |a: int, b: int| sel(a, b) && (b < y || (b == y && a < x + 1));
                if !(pos && neg) {
                    self.put(x, y, c);
                    proof {
                        assert(n > 0);
                        assert(inside(pg, x as int, y as int));
                        assert(in_bounding_box(pg, x as int, y as int));
                        assert(sel(x as int, y as int));
                        lemma_paint_union(f0, w, h, before, just(x as int, y as int), c);
                        lemma_paint_same_choice(
                            f0,
                            w,
                            h,
                            |a: int, b: int| before(a, b) || just(x as int, y as int)(a, b),
                            after,
                            c,
                        );
                    }
                } else {
                    proof {
                        assert(!inside(pg, x as int, y as int));
                        lemma_paint_same_choice(f0, w, h, before, after, c);
                    }
                }
                x = x + 1;
            }
            proof {
                lemma_paint_same_choice(
                    f0,
                    w,
                    h,
                    |a: int, b: int| sel(a, b) && (b < y || (b == y && a < x)),
                    |a: int, b: int| sel(a, b) && b < y + 1,
                    c,
                );
            }
            y = y + 1;
        }
        proof {
            lemma_paint_same_choice(f0, w, h, |a: int, b: int| sel(a, b) && b < y, sel, c);
        }
    }

}

} // verus!
