//! 8SSEDT: the two-sweep, eight-neighbour signed Euclidean distance transform.
//!
//! For every pixel of a `w` x `h` row-major mask it produces an offset
//! `(dx, dy)` toward a nearby "inside" pixel (mask value above 127); the
//! distance is the offset's length. Inside pixels start at `(0, 0)`, all
//! others at `(FAR, FAR)`. A forward sweep (rows top to bottom, each left to
//! right) then relaxes every pixel against its left, upper, upper-left and
//! upper-right neighbours; a backward sweep (rows bottom to top, each right to
//! left) against its right, lower, lower-right and lower-left neighbours. A
//! neighbour's offset, moved by the step to that neighbour, replaces the
//! pixel's own offset when its squared length is strictly smaller.

use vstd::prelude::*;
use crate::grid::{lemma_coords, lemma_index};

verus! {

/// The starting offset of pixels that are not inside.
pub const FAR: i32 = 16384;

/// Offsets as mathematical integer pairs.
pub open spec fn as_offsets(v: Seq<(i32, i32)>) -> Seq<(int, int)> {
    Seq::new(v.len(), |i: int| (v[i].0 as int, v[i].1 as int))
}

/// Squared length of an offset.
pub open spec fn d2(o: (int, int)) -> int {
    o.0 * o.0 + o.1 * o.1
}

/// A neighbour's offset moved by the step `(dx, dy)` from the pixel to it.
pub open spec fn shifted(o: (int, int), dx: int, dy: int) -> (int, int) {
    (o.0 + dx, o.1 + dy)
}

/// The candidate if it is strictly shorter, else the current offset.
pub open spec fn closer(c: (int, int), cand: (int, int)) -> (int, int) {
    if d2(cand) < d2(c) {
        cand
    } else {
        c
    }
}

/// The value the forward sweep gives pixel `p` of `g`.
pub open spec fn forward_cell(g: Seq<(int, int)>, w: int, p: int) -> (int, int) {
    let x = p % w;
    let y = p / w;
    let c1 = if x > 0 {
        closer(g[p], shifted(g[p - 1], -1, 0))
    } else {
        g[p]
    };
    let c2 = if y > 0 {
        closer(c1, shifted(g[p - w], 0, -1))
    } else {
        c1
    };
    let c3 = if x > 0 && y > 0 {
        closer(c2, shifted(g[p - w - 1], -1, -1))
    } else {
        c2
    };
    if x + 1 < w && y > 0 {
        closer(c3, shifted(g[p - w + 1], 1, -1))
    } else {
        c3
    }
}

/// The value the backward sweep gives pixel `p` of `g`.
pub open spec fn backward_cell(g: Seq<(int, int)>, w: int, h: int, p: int) -> (int, int) {
    let x = p % w;
    let y = p / w;
    let c1 = if x + 1 < w {
        closer(g[p], shifted(g[p + 1], 1, 0))
    } else {
        g[p]
    };
    let c2 = if y + 1 < h {
        closer(c1, shifted(g[p + w], 0, 1))
    } else {
        c1
    };
    let c3 = if x + 1 < w && y + 1 < h {
        closer(c2, shifted(g[p + w + 1], 1, 1))
    } else {
        c2
    };
    if x > 0 && y + 1 < h {
        closer(c3, shifted(g[p + w - 1], -1, 1))
    } else {
        c3
    }
}

/// The offsets after the forward sweep has visited the first `k` pixels.
pub open spec fn forward_sweep(g: Seq<(int, int)>, w: int, k: nat) -> Seq<(int, int)>
    decreases k,
{
    if k == 0 {
        g
    } else {
        let s = forward_sweep(g, w, (k - 1) as nat);
        s.update(k - 1, forward_cell(s, w, k - 1))
    }
}

/// The offsets after the backward sweep has visited the last `k` pixels of a
/// `w` x `h` grid.
pub open spec fn backward_sweep(g: Seq<(int, int)>, w: int, h: int, k: nat) -> Seq<(int, int)>
    decreases k,
{
    if k == 0 {
        g
    } else {
        let s = backward_sweep(g, w, h, (k - 1) as nat);
        s.update(w * h - k, backward_cell(s, w, h, w * h - k))
    }
}

/// A pixel is inside when its mask value is above 127.
pub open spec fn inside(mask: Seq<u8>, w: int, h: int, x: int, y: int) -> bool {
    0 <= x < w && 0 <= y < h && mask[y * w + x] > 127
}

/// The offsets before either sweep.
pub open spec fn seeded(mask: Seq<u8>, w: int, h: int) -> Seq<(int, int)> {
    Seq::new(
        (w * h) as nat,
        |i: int|
            if mask[i] > 127 {
                (0int, 0int)
            } else {
                (FAR as int, FAR as int)
            },
    )
}

/// The transform of a `w` x `h` mask: both sweeps over the seeded offsets.
pub open spec fn distance_offsets(mask: Seq<u8>, w: int, h: int) -> Seq<(int, int)> {
    backward_sweep(forward_sweep(seeded(mask, w, h), w, (w * h) as nat), w, h, (w * h) as nat)
}

/// No longer than the starting offset `(FAR, FAR)`.
pub open spec fn short(o: (int, int)) -> bool {
    d2(o) <= 2 * FAR * FAR
}

/// Every offset of `g` is short.
pub open spec fn all_short(w: int, h: int, g: Seq<(int, int)>) -> bool {
    forall|p: int| 0 <= p < w * h ==> short(#[trigger] g[p])
}

/// Offset `o` at pixel `(x, y)` either lands on an inside pixel, or is still
/// one of the `(FAR, FAR)` starting offsets carried over from some pixel.
pub open spec fn sound(mask: Seq<u8>, w: int, h: int, x: int, y: int, o: (int, int)) -> bool {
    ||| inside(mask, w, h, x + o.0, y + o.1)
    ||| (0 <= x + o.0 - FAR < w && 0 <= y + o.1 - FAR < h)
}

/// Every offset of `g` is sound at its own pixel.
pub open spec fn all_sound(mask: Seq<u8>, w: int, h: int, g: Seq<(int, int)>) -> bool {
    forall|p: int| 0 <= p < w * h ==> #[trigger] sound(mask, w, h, p % w, p / w, g[p])
}

/// The neighbour `(x + dx, y + dy)` of pixel `(x, y)` sits at index `q`, and
/// its offset moved onto `(x, y)` is sound when the neighbour's is.
proof fn lemma_shift_sound(
    mask: Seq<u8>,
    w: int,
    h: int,
    g: Seq<(int, int)>,
    x: int,
    y: int,
    dx: int,
    dy: int,
    q: int,
)
    requires
        0 <= x < w,
        0 <= y < h,
        0 <= x + dx < w,
        0 <= y + dy < h,
        -1 <= dy <= 1,
        q == y * w + x + dy * w + dx,
        g.len() == w * h,
        all_sound(mask, w, h, g),
    ensures
        0 <= q < w * h,
        q % w == x + dx,
        q / w == y + dy,
        sound(mask, w, h, x, y, shifted(g[q], dx, dy)),
        d2(shifted(g[q], dx, dy)) >= 0,
{
    assert((y + dy) * w == y * w + dy * w) by (nonlinear_arith);
    lemma_coords(w, h, x + dx, y + dy);
    assert(q == (y + dy) * w + (x + dx));
    assert(sound(mask, w, h, q % w, q / w, g[q]));
    lemma_d2_nonneg(shifted(g[q], dx, dy));
}

/// A squared length is never negative.
proof fn lemma_d2_nonneg(o: (int, int))
    ensures
        d2(o) >= 0,
        o.0 * o.0 >= 0,
        o.1 * o.1 >= 0,
{
    assert(o.0 * o.0 >= 0 && o.1 * o.1 >= 0) by (nonlinear_arith);
}

/// A short offset has components within 23170 of zero; it, and the offset
/// moved one step `(dx, dy)`, have squared lengths that fit an `i32`.
pub proof fn lemma_short_bounds(o: (int, int), dx: int, dy: int)
    requires
        short(o),
        -1 <= dx <= 1,
        -1 <= dy <= 1,
    ensures
        -23170 <= o.0 <= 23170,
        -23170 <= o.1 <= 23170,
        0 <= o.0 * o.0,
        0 <= o.1 * o.1,
        d2(o) <= i32::MAX,
        -23171 <= shifted(o, dx, dy).0 <= 23171,
        -23171 <= shifted(o, dx, dy).1 <= 23171,
        0 <= shifted(o, dx, dy).0 * shifted(o, dx, dy).0,
        0 <= shifted(o, dx, dy).1 * shifted(o, dx, dy).1,
        d2(shifted(o, dx, dy)) <= i32::MAX,
{
    let (a, b) = o;
    lemma_d2_nonneg(o);
    assert(a * a + b * b <= 536870912);
    assert(-23170 <= a <= 23170) by (nonlinear_arith)
        requires
            a * a + b * b <= 536870912,
            b * b >= 0,
    {
        if a > 23170 {
            assert(a * a >= 23171 * a);
            assert(23171 * a >= 23171 * 23171);
        }
        if a < -23170 {
            assert(a * a >= -23171 * a);
            assert(-23171 * a >= 23171 * 23171);
        }
    }
    assert(-23170 <= b <= 23170) by (nonlinear_arith)
        requires
            a * a + b * b <= 536870912,
            a * a >= 0,
    {
        if b > 23170 {
            assert(b * b >= 23171 * b);
            assert(23171 * b >= 23171 * 23171);
        }
        if b < -23170 {
            assert(b * b >= -23171 * b);
            assert(-23171 * b >= 23171 * 23171);
        }
    }
    let (c, d) = shifted(o, dx, dy);
    assert(c * c <= 23171 * 23171 && c * c >= 0) by (nonlinear_arith)
        requires
            -23171 <= c <= 23171,
    ;
    assert(d * d <= 23171 * 23171 && d * d >= 0) by (nonlinear_arith)
        requires
            -23171 <= d <= 23171,
    ;
}

/// The neighbour `(x + dx, y + dy)` of pixel `(x, y)` sits at index `q`; the
/// neighbour's offset moved onto `(x, y)` is sound when the neighbour's is,
/// and both are short enough for `i32` arithmetic.
proof fn lemma_neighbour(
    mask: Seq<u8>,
    w: int,
    h: int,
    g: Seq<(int, int)>,
    x: int,
    y: int,
    dx: int,
    dy: int,
    q: int,
)
    requires
        0 <= x < w,
        0 <= y < h,
        0 <= x + dx < w,
        0 <= y + dy < h,
        -1 <= dy <= 1,
        -1 <= dx <= 1,
        q == y * w + x + dy * w + dx,
        g.len() == w * h,
        all_sound(mask, w, h, g),
        all_short(w, h, g),
    ensures
        0 <= q < w * h,
        sound(mask, w, h, x, y, shifted(g[q], dx, dy)),
        -23170 <= g[q].0 <= 23170,
        -23170 <= g[q].1 <= 23170,
        -23171 <= shifted(g[q], dx, dy).0 <= 23171,
        -23171 <= shifted(g[q], dx, dy).1 <= 23171,
        0 <= shifted(g[q], dx, dy).0 * shifted(g[q], dx, dy).0,
        0 <= shifted(g[q], dx, dy).1 * shifted(g[q], dx, dy).1,
        d2(shifted(g[q], dx, dy)) <= i32::MAX,
{
    lemma_shift_sound(mask, w, h, g, x, y, dx, dy, q);
    assert(short(g[q]));
    lemma_short_bounds(g[q], dx, dy);
}

fn squared_length(o: (i32, i32)) -> (r: i32)
    requires
        0 <= (o.0 as int) * (o.0 as int),
        0 <= (o.1 as int) * (o.1 as int),
        d2((o.0 as int, o.1 as int)) <= i32::MAX,
    ensures
        r == d2((o.0 as int, o.1 as int)),
{
    o.0 * o.0 + o.1 * o.1
}

/// Keep `c` unless `cand` is strictly shorter.
fn pick_closer(c: (i32, i32), cand: (i32, i32)) -> (r: (i32, i32))
    requires
        0 <= (c.0 as int) * (c.0 as int),
        0 <= (c.1 as int) * (c.1 as int),
        d2((c.0 as int, c.1 as int)) <= i32::MAX,
        0 <= (cand.0 as int) * (cand.0 as int),
        0 <= (cand.1 as int) * (cand.1 as int),
        d2((cand.0 as int, cand.1 as int)) <= i32::MAX,
    ensures
        (r.0 as int, r.1 as int) == closer((c.0 as int, c.1 as int), (cand.0 as int, cand.1 as int)),
{
    if squared_length(cand) < squared_length(c) {
        cand
    } else {
        c
    }
}

/// Relax pixel `(x, y)` against its forward-sweep neighbours, in place.
fn forward_step(
    g: &mut Vec<(i32, i32)>,
    Ghost(mask): Ghost<Seq<u8>>,
    w: usize,
    h: usize,
    x: usize,
    y: usize,
)
    requires
        old(g)@.len() == w * h,
        all_sound(mask, w as int, h as int, as_offsets(old(g)@)),
        all_short(w as int, h as int, as_offsets(old(g)@)),
        x < w,
        y < h,
    ensures
        final(g)@.len() == w * h,
        as_offsets(final(g)@) == as_offsets(old(g)@).update(
            y * w + x,
            forward_cell(as_offsets(old(g)@), w as int, y * w + x),
        ),
        all_sound(mask, w as int, h as int, as_offsets(final(g)@)),
        all_short(w as int, h as int, as_offsets(final(g)@)),
{
    let ghost wi = w as int;
    let ghost hi = h as int;
    let ghost s = as_offsets(g@);
    let n = g.len();
    proof {
        lemma_coords(wi, hi, x as int, y as int);
        assert(y * w <= y * w + x);
    }
    let p = y * w + x;
    proof {
        assert(sound(mask, wi, hi, p as int % wi, p as int / wi, s[p as int]));
        assert(short(s[p as int]));
        lemma_short_bounds(s[p as int], 0, 0);
    }
    let mut c = g[p];
    let ghost c1 = if x > 0 {
        closer(s[p as int], shifted(s[p - 1], -1, 0))
    } else {
        s[p as int]
    };
    if x > 0 {
        proof {
            lemma_neighbour(mask, wi, hi, s, x as int, y as int, -1, 0, p - 1);
        }
        let nb = g[p - 1];
        c = pick_closer(c, (nb.0 - 1, nb.1));
    }
    assert((c.0 as int, c.1 as int) == c1);
    assert(sound(mask, wi, hi, x as int, y as int, c1));
    proof {
        assert(short(c1));
        lemma_short_bounds(c1, 0, 0);
    }
    let ghost c2 = if y > 0 {
        closer(c1, shifted(s[p - wi], 0, -1))
    } else {
        c1
    };
    if y > 0 {
        proof {
            lemma_neighbour(mask, wi, hi, s, x as int, y as int, 0, -1, p - wi);
        }
        let nb = g[p - w];
        c = pick_closer(c, (nb.0, nb.1 - 1));
    }
    assert((c.0 as int, c.1 as int) == c2);
    assert(sound(mask, wi, hi, x as int, y as int, c2));
    proof {
        assert(short(c2));
        lemma_short_bounds(c2, 0, 0);
    }
    let ghost c3 = if x > 0 && y > 0 {
        closer(c2, shifted(s[p - wi - 1], -1, -1))
    } else {
        c2
    };
    if x > 0 && y > 0 {
        proof {
            lemma_neighbour(mask, wi, hi, s, x as int, y as int, -1, -1, p - wi - 1);
        }
        let nb = g[p - w - 1];
        c = pick_closer(c, (nb.0 - 1, nb.1 - 1));
    }
    assert((c.0 as int, c.1 as int) == c3);
    assert(sound(mask, wi, hi, x as int, y as int, c3));
    proof {
        assert(short(c3));
        lemma_short_bounds(c3, 0, 0);
    }
    let ghost c4 = if x + 1 < w && y > 0 {
        closer(c3, shifted(s[p - wi + 1], 1, -1))
    } else {
        c3
    };
    if x + 1 < w && y > 0 {
        proof {
            lemma_neighbour(mask, wi, hi, s, x as int, y as int, 1, -1, p - wi + 1);
        }
        let nb = g[p + 1 - w];
        c = pick_closer(c, (nb.0 + 1, nb.1 - 1));
    }
    assert((c.0 as int, c.1 as int) == c4);
    assert(c4 == forward_cell(s, wi, p as int));
    g[p] = c;
    proof {
        let t = as_offsets(g@);
        assert(t =~= s.update(p as int, c4));
        assert forall|q: int| 0 <= q < wi * hi implies #[trigger] sound(
            mask,
            wi,
            hi,
            q % wi,
            q / wi,
            t[q],
        ) by {
            if q != p {
                assert(t[q] == s[q]);
                assert(sound(mask, wi, hi, q % wi, q / wi, s[q]));
            }
        }
        assert forall|q: int| 0 <= q < wi * hi implies short(#[trigger] t[q]) by {
            if q != p {
                assert(t[q] == s[q]);
            }
        }
    }
}

/// Relax pixel `(x, y)` against its backward-sweep neighbours, in place.
fn backward_step(
    g: &mut Vec<(i32, i32)>,
    Ghost(mask): Ghost<Seq<u8>>,
    w: usize,
    h: usize,
    x: usize,
    y: usize,
)
    requires
        old(g)@.len() == w * h,
        all_sound(mask, w as int, h as int, as_offsets(old(g)@)),
        all_short(w as int, h as int, as_offsets(old(g)@)),
        x < w,
        y < h,
    ensures
        final(g)@.len() == w * h,
        as_offsets(final(g)@) == as_offsets(old(g)@).update(
            y * w + x,
            backward_cell(as_offsets(old(g)@), w as int, h as int, y * w + x),
        ),
        all_sound(mask, w as int, h as int, as_offsets(final(g)@)),
        all_short(w as int, h as int, as_offsets(final(g)@)),
{
    let ghost wi = w as int;
    let ghost hi = h as int;
    let ghost s = as_offsets(g@);
    let n = g.len();
    proof {
        lemma_coords(wi, hi, x as int, y as int);
        assert(y * w <= y * w + x);
    }
    let p = y * w + x;
    proof {
        assert(sound(mask, wi, hi, p as int % wi, p as int / wi, s[p as int]));
        assert(short(s[p as int]));
        lemma_short_bounds(s[p as int], 0, 0);
    }
    let mut c = g[p];
    let ghost c1 = if x + 1 < w {
        closer(s[p as int], shifted(s[p + 1], 1, 0))
    } else {
        s[p as int]
    };
    if x + 1 < w {
        proof {
            lemma_neighbour(mask, wi, hi, s, x as int, y as int, 1, 0, p + 1);
        }
        let nb = g[p + 1];
        c = pick_closer(c, (nb.0 + 1, nb.1));
    }
    assert((c.0 as int, c.1 as int) == c1);
    assert(sound(mask, wi, hi, x as int, y as int, c1));
    proof {
        assert(short(c1));
        lemma_short_bounds(c1, 0, 0);
    }
    let ghost c2 = if y + 1 < h {
        closer(c1, shifted(s[p + wi], 0, 1))
    } else {
        c1
    };
    if y + 1 < h {
        proof {
            lemma_neighbour(mask, wi, hi, s, x as int, y as int, 0, 1, p + wi);
        }
        let nb = g[p + w];
        c = pick_closer(c, (nb.0, nb.1 + 1));
    }
    assert((c.0 as int, c.1 as int) == c2);
    assert(sound(mask, wi, hi, x as int, y as int, c2));
    proof {
        assert(short(c2));
        lemma_short_bounds(c2, 0, 0);
    }
    let ghost c3 = if x + 1 < w && y + 1 < h {
        closer(c2, shifted(s[p + wi + 1], 1, 1))
    } else {
        c2
    };
    if x + 1 < w && y + 1 < h {
        proof {
            lemma_neighbour(mask, wi, hi, s, x as int, y as int, 1, 1, p + wi + 1);
        }
        let nb = g[p + w + 1];
        c = pick_closer(c, (nb.0 + 1, nb.1 + 1));
    }
    assert((c.0 as int, c.1 as int) == c3);
    assert(sound(mask, wi, hi, x as int, y as int, c3));
    proof {
        assert(short(c3));
        lemma_short_bounds(c3, 0, 0);
    }
    let ghost c4 = if x > 0 && y + 1 < h {
        closer(c3, shifted(s[p + wi - 1], -1, 1))
    } else {
        c3
    };
    if x > 0 && y + 1 < h {
        proof {
            lemma_neighbour(mask, wi, hi, s, x as int, y as int, -1, 1, p + wi - 1);
        }
        let nb = g[p + w - 1];
        c = pick_closer(c, (nb.0 - 1, nb.1 + 1));
    }
    assert((c.0 as int, c.1 as int) == c4);
    assert(c4 == backward_cell(s, wi, hi, p as int));
    g[p] = c;
    proof {
        let t = as_offsets(g@);
        assert(t =~= s.update(p as int, c4));
        assert forall|q: int| 0 <= q < wi * hi implies #[trigger] sound(
            mask,
            wi,
            hi,
            q % wi,
            q / wi,
            t[q],
        ) by {
            if q != p {
                assert(t[q] == s[q]);
                assert(sound(mask, wi, hi, q % wi, q / wi, s[q]));
            }
        }
        assert forall|q: int| 0 <= q < wi * hi implies short(#[trigger] t[q]) by {
            if q != p {
                assert(t[q] == s[q]);
            }
        }
    }
}

/// The 8SSEDT transform of a `w` x `h` row-major mask (inside: value above
/// 127): for every pixel, an offset toward an inside pixel.
pub fn edt8(mask: &[u8], w: usize, h: usize) -> (out: Vec<(i32, i32)>)
    requires
        w * h <= mask@.len(),
    ensures
        as_offsets(out@) == distance_offsets(mask@, w as int, h as int),
        out@.len() == w * h,
        all_sound(mask@, w as int, h as int, as_offsets(out@)),
        all_short(w as int, h as int, as_offsets(out@)),
{
    let ghost wi = w as int;
    let ghost hi = h as int;
    let len = mask.len();
    let n = w * h;
    let mut g: Vec<(i32, i32)> = Vec::new();
    let mut i: usize = 0;
    while i < n
        invariant
            wi == w,
            hi == h,
            n == wi * hi,
            n <= mask@.len(),
            i <= n,
            g@.len() == i,
            forall|j: int| 0 <= j < i ==> #[trigger] as_offsets(g@)[j] == seeded(mask@, wi, hi)[j],
        decreases n - i,
    {
        let ghost before = g@;
        if mask[i] > 127 {
            g.push((0, 0));
        } else {
            g.push((FAR, FAR));
        }
        proof {
            assert forall|j: int| 0 <= j < i + 1 implies #[trigger] as_offsets(g@)[j] == seeded(
                mask@,
                wi,
                hi,
            )[j] by {
                if j < i {
                    assert(g@[j] == before[j]);
                    assert(as_offsets(before)[j] == seeded(mask@, wi, hi)[j]);
                }
            }
        }
        i = i + 1;
    }
    let ghost start = seeded(mask@, wi, hi);
    proof {
        assert(as_offsets(g@) =~= start);
        assert forall|p: int| 0 <= p < wi * hi implies #[trigger] sound(
            mask@,
            wi,
            hi,
            p % wi,
            p / wi,
            as_offsets(g@)[p],
        ) by {
            lemma_index(wi, hi, p);
        }
        assert forall|p: int| 0 <= p < wi * hi implies short(#[trigger] as_offsets(g@)[p]) by {
            assert(d2((FAR as int, FAR as int)) == 2 * FAR * FAR);
        }
    }
    let mut y: usize = 0;
    while y < h
        invariant
            wi == w,
            hi == h,
            n == wi * hi,
            g@.len() == n,
            all_short(wi, hi, as_offsets(g@)),
            y <= h,
            all_sound(mask@, wi, hi, as_offsets(g@)),
            as_offsets(g@) == forward_sweep(start, wi, (y * w) as nat),
        decreases h - y,
    {
        let mut x: usize = 0;
        while x < w
            invariant
                wi == w,
                hi == h,
                n == wi * hi,
                g@.len() == n,
                all_short(wi, hi, as_offsets(g@)),
                y < h,
                x <= w,
                all_sound(mask@, wi, hi, as_offsets(g@)),
                as_offsets(g@) == forward_sweep(start, wi, (y * w + x) as nat),
            decreases w - x,
        {
            forward_step(&mut g, Ghost(mask@), w, h, x, y);
            x = x + 1;
        }
        proof {
            assert(y * wi + wi == (y + 1) * wi) by (nonlinear_arith);
        }
        y = y + 1;
    }
    let ghost fwd = as_offsets(g@);
    proof {
        assert(h * w == w * h) by (nonlinear_arith);
        assert(fwd == forward_sweep(start, wi, (wi * hi) as nat));
    }
    let mut y: usize = h;
    while y > 0
        invariant
            wi == w,
            hi == h,
            n == wi * hi,
            g@.len() == n,
            all_short(wi, hi, as_offsets(g@)),
            y <= h,
            all_sound(mask@, wi, hi, as_offsets(g@)),
            as_offsets(g@) == backward_sweep(fwd, wi, hi, (wi * hi - y * wi) as nat),
        decreases y,
    {
        y = y - 1;
        let mut x: usize = w;
        proof {
            assert(y * wi + wi == (y + 1) * wi) by (nonlinear_arith);
            assert((y + 1) * wi <= wi * hi) by (nonlinear_arith)
                requires
                    y + 1 <= hi,
                    wi >= 0,
            ;
        }
        while x > 0
            invariant
                wi == w,
                hi == h,
                n == wi * hi,
                g@.len() == n,
                all_short(wi, hi, as_offsets(g@)),
                y < h,
                x <= w,
                y * wi + wi <= wi * hi,
                all_sound(mask@, wi, hi, as_offsets(g@)),
                as_offsets(g@) == backward_sweep(fwd, wi, hi, (wi * hi - (y * wi + x)) as nat),
            decreases x,
        {
            x = x - 1;
            proof {
                lemma_coords(wi, hi, x as int, y as int);
            }
            backward_step(&mut g, Ghost(mask@), w, h, x, y);
        }
    }
    g
}

/// Offset `o` at pixel `(x, y)` lands on an inside pixel.
pub open spec fn lands_inside(mask: Seq<u8>, w: int, h: int, x: int, y: int, o: (int, int)) -> bool {
    inside(mask, w, h, x + o.0, y + o.1)
}

/// The mask has at least one inside pixel.
pub open spec fn has_inside(mask: Seq<u8>, w: int, h: int) -> bool {
    exists|sx: int, sy: int| #[trigger] inside(mask, w, h, sx, sy)
}

/// Grids small enough that an offset landing on a pixel is always shorter
/// than one still carried over from a `(FAR, FAR)` start.
pub open spec fn small_grid(w: int, h: int) -> bool {
    0 <= w <= 8192 && 0 <= h <= 8192
}

/// On a small grid, an offset that lands inside is strictly shorter than a
/// sound one that does not.
proof fn lemma_landing_beats_far(
    mask: Seq<u8>,
    w: int,
    h: int,
    x: int,
    y: int,
    a: (int, int),
    b: (int, int),
)
    requires
        small_grid(w, h),
        0 <= x < w,
        0 <= y < h,
        sound(mask, w, h, x, y, a),
        !lands_inside(mask, w, h, x, y, a),
        lands_inside(mask, w, h, x, y, b),
    ensures
        d2(b) < d2(a),
{
    assert(d2(b) < d2(a)) by (nonlinear_arith)
        requires
            -8191 <= b.0 <= 8191,
            -8191 <= b.1 <= 8191,
            8193 <= a.0,
            8193 <= a.1,
    ;
}

/// Picking the closer of two sound offsets keeps soundness, keeps landing
/// inside when either lands inside, and keeps a zero offset.
proof fn lemma_closer(
    mask: Seq<u8>,
    w: int,
    h: int,
    x: int,
    y: int,
    c: (int, int),
    cand: (int, int),
)
    requires
        small_grid(w, h),
        0 <= x < w,
        0 <= y < h,
        sound(mask, w, h, x, y, c),
        sound(mask, w, h, x, y, cand),
    ensures
        sound(mask, w, h, x, y, closer(c, cand)),
        lands_inside(mask, w, h, x, y, c) || lands_inside(mask, w, h, x, y, cand)
            ==> lands_inside(mask, w, h, x, y, closer(c, cand)),
        c == (0int, 0int) ==> closer(c, cand) == c,
{
    assert(d2(cand) >= 0) by (nonlinear_arith);
    if lands_inside(mask, w, h, x, y, c) && !lands_inside(mask, w, h, x, y, cand) {
        lemma_landing_beats_far(mask, w, h, x, y, cand, c);
    }
    if !lands_inside(mask, w, h, x, y, c) && lands_inside(mask, w, h, x, y, cand) {
        lemma_landing_beats_far(mask, w, h, x, y, c, cand);
    }
}

/// The neighbour `(x + dx, y + dy)` at index `q`, moved onto `(x, y)`: sound,
/// and landing inside exactly when the neighbour's own offset does.
proof fn lemma_moved(
    mask: Seq<u8>,
    w: int,
    h: int,
    g: Seq<(int, int)>,
    x: int,
    y: int,
    dx: int,
    dy: int,
    q: int,
)
    requires
        small_grid(w, h),
        0 <= x < w,
        0 <= y < h,
        0 <= x + dx < w,
        0 <= y + dy < h,
        -1 <= dy <= 1,
        q == y * w + x + dy * w + dx,
        g.len() == w * h,
        all_sound(mask, w, h, g),
    ensures
        0 <= q < w * h,
        q % w == x + dx,
        q / w == y + dy,
        sound(mask, w, h, x, y, shifted(g[q], dx, dy)),
        lands_inside(mask, w, h, x, y, shifted(g[q], dx, dy)) == lands_inside(
            mask,
            w,
            h,
            x + dx,
            y + dy,
            g[q],
        ),
{
    lemma_shift_sound(mask, w, h, g, x, y, dx, dy, q);
}

/// What the forward sweep does to one pixel.
proof fn lemma_forward_cell(mask: Seq<u8>, w: int, h: int, s: Seq<(int, int)>, x: int, y: int)
    requires
        small_grid(w, h),
        0 <= x < w,
        0 <= y < h,
        s.len() == w * h,
        all_sound(mask, w, h, s),
    ensures
        sound(mask, w, h, x, y, forward_cell(s, w, y * w + x)),
        s[y * w + x] == (0int, 0int) ==> forward_cell(s, w, y * w + x) == (0int, 0int),
        lands_inside(mask, w, h, x, y, s[y * w + x]) ==> lands_inside(
            mask,
            w,
            h,
            x,
            y,
            forward_cell(s, w, y * w + x),
        ),
        x > 0 && lands_inside(mask, w, h, x - 1, y, s[y * w + x - 1]) ==> lands_inside(
            mask,
            w,
            h,
            x,
            y,
            forward_cell(s, w, y * w + x),
        ),
        y > 0 && lands_inside(mask, w, h, x, y - 1, s[y * w + x - w]) ==> lands_inside(
            mask,
            w,
            h,
            x,
            y,
            forward_cell(s, w, y * w + x),
        ),
        x + 1 < w && y > 0 && lands_inside(mask, w, h, x + 1, y - 1, s[y * w + x - w + 1])
            ==> lands_inside(mask, w, h, x, y, forward_cell(s, w, y * w + x)),
{
    let p = y * w + x;
    lemma_coords(w, h, x, y);
    assert(sound(mask, w, h, p % w, p / w, s[p]));
    let c0 = s[p];
    let c1 = if x > 0 {
        closer(c0, shifted(s[p - 1], -1, 0))
    } else {
        c0
    };
    if x > 0 {
        lemma_moved(mask, w, h, s, x, y, -1, 0, p - 1);
        lemma_closer(mask, w, h, x, y, c0, shifted(s[p - 1], -1, 0));
    }
    let c2 = if y > 0 {
        closer(c1, shifted(s[p - w], 0, -1))
    } else {
        c1
    };
    if y > 0 {
        lemma_moved(mask, w, h, s, x, y, 0, -1, p - w);
        lemma_closer(mask, w, h, x, y, c1, shifted(s[p - w], 0, -1));
    }
    let c3 = if x > 0 && y > 0 {
        closer(c2, shifted(s[p - w - 1], -1, -1))
    } else {
        c2
    };
    if x > 0 && y > 0 {
        lemma_moved(mask, w, h, s, x, y, -1, -1, p - w - 1);
        lemma_closer(mask, w, h, x, y, c2, shifted(s[p - w - 1], -1, -1));
    }
    let c4 = if x + 1 < w && y > 0 {
        closer(c3, shifted(s[p - w + 1], 1, -1))
    } else {
        c3
    };
    if x + 1 < w && y > 0 {
        lemma_moved(mask, w, h, s, x, y, 1, -1, p - w + 1);
        lemma_closer(mask, w, h, x, y, c3, shifted(s[p - w + 1], 1, -1));
    }
    assert(forward_cell(s, w, p) == c4);
}

/// What the backward sweep does to one pixel.
proof fn lemma_backward_cell(mask: Seq<u8>, w: int, h: int, s: Seq<(int, int)>, x: int, y: int)
    requires
        small_grid(w, h),
        0 <= x < w,
        0 <= y < h,
        s.len() == w * h,
        all_sound(mask, w, h, s),
    ensures
        sound(mask, w, h, x, y, backward_cell(s, w, h, y * w + x)),
        s[y * w + x] == (0int, 0int) ==> backward_cell(s, w, h, y * w + x) == (0int, 0int),
        lands_inside(mask, w, h, x, y, s[y * w + x]) ==> lands_inside(
            mask,
            w,
            h,
            x,
            y,
            backward_cell(s, w, h, y * w + x),
        ),
        x + 1 < w && lands_inside(mask, w, h, x + 1, y, s[y * w + x + 1]) ==> lands_inside(
            mask,
            w,
            h,
            x,
            y,
            backward_cell(s, w, h, y * w + x),
        ),
        y + 1 < h && lands_inside(mask, w, h, x, y + 1, s[y * w + x + w]) ==> lands_inside(
            mask,
            w,
            h,
            x,
            y,
            backward_cell(s, w, h, y * w + x),
        ),
{
    let p = y * w + x;
    lemma_coords(w, h, x, y);
    assert(sound(mask, w, h, p % w, p / w, s[p]));
    let c0 = s[p];
    let c1 = if x + 1 < w {
        closer(c0, shifted(s[p + 1], 1, 0))
    } else {
        c0
    };
    if x + 1 < w {
        lemma_moved(mask, w, h, s, x, y, 1, 0, p + 1);
        lemma_closer(mask, w, h, x, y, c0, shifted(s[p + 1], 1, 0));
    }
    let c2 = if y + 1 < h {
        closer(c1, shifted(s[p + w], 0, 1))
    } else {
        c1
    };
    if y + 1 < h {
        lemma_moved(mask, w, h, s, x, y, 0, 1, p + w);
        lemma_closer(mask, w, h, x, y, c1, shifted(s[p + w], 0, 1));
    }
    let c3 = if x + 1 < w && y + 1 < h {
        closer(c2, shifted(s[p + w + 1], 1, 1))
    } else {
        c2
    };
    if x + 1 < w && y + 1 < h {
        lemma_moved(mask, w, h, s, x, y, 1, 1, p + w + 1);
        lemma_closer(mask, w, h, x, y, c2, shifted(s[p + w + 1], 1, 1));
    }
    let c4 = if x > 0 && y + 1 < h {
        closer(c3, shifted(s[p + w - 1], -1, 1))
    } else {
        c3
    };
    if x > 0 && y + 1 < h {
        lemma_moved(mask, w, h, s, x, y, -1, 1, p + w - 1);
        lemma_closer(mask, w, h, x, y, c3, shifted(s[p + w - 1], -1, 1));
    }
    assert(backward_cell(s, w, h, p) == c4);
}

/// Inside pixel `(sx, sy)` can reach pixel `(x, y)` through the forward
/// sweep's neighbour steps: it lies on a row at or above, no further right
/// than one column per row of height difference.
pub open spec fn forward_reach(sx: int, sy: int, x: int, y: int) -> bool {
    sy <= y && sx <= x + (y - sy)
}

/// Inside pixels start, and stay, at offset zero.
pub open spec fn inside_zero(mask: Seq<u8>, w: int, h: int, g: Seq<(int, int)>) -> bool {
    forall|p: int| 0 <= p < w * h && mask[p] > 127 ==> #[trigger] g[p] == (0int, 0int)
}

proof fn lemma_seeded(mask: Seq<u8>, w: int, h: int)
    requires
        w >= 0,
        h >= 0,
    ensures
        seeded(mask, w, h).len() == w * h,
        all_sound(mask, w, h, seeded(mask, w, h)),
        inside_zero(mask, w, h, seeded(mask, w, h)),
{
    assert(w * h >= 0) by (nonlinear_arith)
        requires
            w >= 0,
            h >= 0,
    ;
    let g = seeded(mask, w, h);
    assert forall|p: int| 0 <= p < w * h implies #[trigger] sound(mask, w, h, p % w, p / w, g[p]) by {
        lemma_index(w, h, p);
    }
}

proof fn lemma_forward_sweep(mask: Seq<u8>, w: int, h: int, k: nat)
    requires
        small_grid(w, h),
        w * h <= mask.len(),
        k <= w * h,
    ensures
        forward_sweep(seeded(mask, w, h), w, k).len() == w * h,
        all_sound(mask, w, h, forward_sweep(seeded(mask, w, h), w, k)),
        inside_zero(mask, w, h, forward_sweep(seeded(mask, w, h), w, k)),
        forall|x: int, y: int, sx: int, sy: int|
            0 <= x < w && 0 <= y < h && y * w + x < k && inside(mask, w, h, sx, sy)
                && #[trigger] forward_reach(sx, sy, x, y) ==> lands_inside(
                mask,
                w,
                h,
                x,
                y,
                forward_sweep(seeded(mask, w, h), w, k)[y * w + x],
            ),
    decreases k,
{
    let start = seeded(mask, w, h);
    if k == 0 {
        lemma_seeded(mask, w, h);
        assert forall|x: int, y: int, sx: int, sy: int|
            0 <= x < w && 0 <= y < h && y * w + x < k && inside(mask, w, h, sx, sy)
                && #[trigger] forward_reach(sx, sy, x, y) implies lands_inside(
            mask,
            w,
            h,
            x,
            y,
            forward_sweep(start, w, k)[y * w + x],
        ) by {
            lemma_coords(w, h, x, y);
        }
    } else {
        let kk = (k - 1) as nat;
        lemma_forward_sweep(mask, w, h, kk);
        let f = forward_sweep(start, w, kk);
        let p = kk as int;
        lemma_index(w, h, p);
        let x = p % w;
        let y = p / w;
        assert(y * w + x == p);
        lemma_forward_cell(mask, w, h, f, x, y);
        let f2 = forward_sweep(start, w, k);
        assert(f2 == f.update(p, forward_cell(f, w, p)));
        assert forall|q: int| 0 <= q < w * h implies #[trigger] sound(mask, w, h, q % w, q / w, f2[q]) by {
            if q != p {
                assert(sound(mask, w, h, q % w, q / w, f[q]));
            }
        }
        assert forall|q: int| 0 <= q < w * h && mask[q] > 127 implies #[trigger] f2[q] == (0int, 0int) by {
            if q == p {
                assert(f[p] == (0int, 0int));
            }
        }
        assert forall|x1: int, y1: int, sx: int, sy: int|
            0 <= x1 < w && 0 <= y1 < h && y1 * w + x1 < k && inside(mask, w, h, sx, sy)
                && #[trigger] forward_reach(sx, sy, x1, y1) implies lands_inside(
            mask,
            w,
            h,
            x1,
            y1,
            f2[y1 * w + x1],
        ) by {
            lemma_coords(w, h, x1, y1);
            if y1 * w + x1 < p {
                assert(f2[y1 * w + x1] == f[y1 * w + x1]);
                assert(forward_reach(sx, sy, x1, y1));
                assert(lands_inside(mask, w, h, x1, y1, f[y1 * w + x1]));
            } else {
                assert(y1 * w + x1 == p);
                lemma_coords(w, h, x, y);
                assert(x1 == x && y1 == y);
                if sx == x && sy == y {
                    assert(mask[p] > 127);
                    assert(f[p] == (0int, 0int));
                } else if sy == y {
                    lemma_coords(w, h, x - 1, y);
                    assert(forward_reach(sx, sy, x - 1, y));
                    assert(lands_inside(mask, w, h, x - 1, y, f[y * w + (x - 1)]));
                } else if sx <= x + y - sy - 1 {
                    lemma_coords(w, h, x, y - 1);
                    assert((y - 1) * w == y * w - w) by (nonlinear_arith);
                    assert(forward_reach(sx, sy, x, y - 1));
                    assert(lands_inside(mask, w, h, x, y - 1, f[(y - 1) * w + x]));
                } else {
                    lemma_coords(w, h, x + 1, y - 1);
                    assert((y - 1) * w == y * w - w) by (nonlinear_arith);
                    assert(forward_reach(sx, sy, x + 1, y - 1));
                    assert(lands_inside(mask, w, h, x + 1, y - 1, f[(y - 1) * w + (x + 1)]));
                }
            }
        }
    }
}

proof fn lemma_backward_sweep(mask: Seq<u8>, w: int, h: int, f: Seq<(int, int)>, k: nat)
    requires
        small_grid(w, h),
        w * h <= mask.len(),
        k <= w * h,
        f.len() == w * h,
        all_sound(mask, w, h, f),
        inside_zero(mask, w, h, f),
        has_inside(mask, w, h) ==> lands_inside(mask, w, h, w - 1, h - 1, f[w * h - 1]),
    ensures
        backward_sweep(f, w, h, k).len() == w * h,
        all_sound(mask, w, h, backward_sweep(f, w, h, k)),
        inside_zero(mask, w, h, backward_sweep(f, w, h, k)),
        forall|p: int| 0 <= p < w * h - k ==> #[trigger] backward_sweep(f, w, h, k)[p] == f[p],
        has_inside(mask, w, h) ==> forall|x: int, y: int|
            0 <= x < w && 0 <= y < h && y * w + x >= w * h - k ==> #[trigger] lands_inside(
                mask,
                w,
                h,
                x,
                y,
                backward_sweep(f, w, h, k)[y * w + x],
            ),
    decreases k,
{
    if k == 0 {
        assert forall|x: int, y: int|
            0 <= x < w && 0 <= y < h && y * w + x >= w * h - k implies #[trigger] lands_inside(
            mask,
            w,
            h,
            x,
            y,
            backward_sweep(f, w, h, k)[y * w + x],
        ) by {
            lemma_coords(w, h, x, y);
        }
    }
    if k > 0 {
        let kk = (k - 1) as nat;
        lemma_backward_sweep(mask, w, h, f, kk);
        let b = backward_sweep(f, w, h, kk);
        let p = w * h - k;
        lemma_index(w, h, p);
        let x = p % w;
        let y = p / w;
        assert(y * w + x == p);
        lemma_backward_cell(mask, w, h, b, x, y);
        let b2 = backward_sweep(f, w, h, k);
        assert(b2 == b.update(p, backward_cell(b, w, h, p)));
        assert forall|q: int| 0 <= q < w * h implies #[trigger] sound(mask, w, h, q % w, q / w, b2[q]) by {
            if q != p {
                assert(sound(mask, w, h, q % w, q / w, b[q]));
            }
        }
        assert forall|q: int| 0 <= q < w * h && mask[q] > 127 implies #[trigger] b2[q] == (0int, 0int) by {
            if q == p {
                assert(b[p] == (0int, 0int));
            }
        }
        if has_inside(mask, w, h) {
            assert forall|x1: int, y1: int|
                0 <= x1 < w && 0 <= y1 < h && y1 * w + x1 >= w * h - k implies #[trigger] lands_inside(
                mask,
                w,
                h,
                x1,
                y1,
                b2[y1 * w + x1],
            ) by {
                lemma_coords(w, h, x1, y1);
                if y1 * w + x1 > p {
                    assert(b2[y1 * w + x1] == b[y1 * w + x1]);
                } else {
                    assert(y1 * w + x1 == p);
                    lemma_coords(w, h, x, y);
                    assert(x1 == x && y1 == y);
                    if x + 1 < w {
                        lemma_coords(w, h, x + 1, y);
                        assert(lands_inside(mask, w, h, x + 1, y, b[y * w + (x + 1)]));
                    } else if y + 1 < h {
                        lemma_coords(w, h, x, y + 1);
                        assert((y + 1) * w == y * w + w) by (nonlinear_arith);
                        assert(lands_inside(mask, w, h, x, y + 1, b[(y + 1) * w + x]));
                    } else {
                        assert((h - 1) * w + (w - 1) == w * h - 1) by (nonlinear_arith);
                        assert(p == w * h - 1);
                        assert(b[p] == f[p]);
                    }
                }
            }
        }
    }
}

/// Both sweeps, summarised: every offset is sound, inside pixels keep offset
/// zero, and when the mask has an inside pixel every offset lands on one.
proof fn lemma_distance_offsets(mask: Seq<u8>, w: int, h: int)
    requires
        small_grid(w, h),
        w * h <= mask.len(),
    ensures
        distance_offsets(mask, w, h).len() == w * h,
        all_sound(mask, w, h, distance_offsets(mask, w, h)),
        inside_zero(mask, w, h, distance_offsets(mask, w, h)),
        has_inside(mask, w, h) ==> forall|x: int, y: int|
            0 <= x < w && 0 <= y < h ==> #[trigger] lands_inside(
                mask,
                w,
                h,
                x,
                y,
                distance_offsets(mask, w, h)[y * w + x],
            ),
{
    assert(w * h >= 0) by (nonlinear_arith)
        requires
            w >= 0,
            h >= 0,
    ;
    let n = (w * h) as nat;
    lemma_forward_sweep(mask, w, h, n);
    let f = forward_sweep(seeded(mask, w, h), w, n);
    if has_inside(mask, w, h) {
        let (sx, sy) = choose|sx: int, sy: int| #[trigger] inside(mask, w, h, sx, sy);
        assert((h - 1) * w + (w - 1) == w * h - 1) by (nonlinear_arith);
        lemma_coords(w, h, w - 1, h - 1);
        assert(forward_reach(sx, sy, w - 1, h - 1));
        assert(lands_inside(mask, w, h, w - 1, h - 1, f[(h - 1) * w + (w - 1)]));
    }
    lemma_backward_sweep(mask, w, h, f, n);
    if has_inside(mask, w, h) {
        assert forall|x: int, y: int| 0 <= x < w && 0 <= y < h implies #[trigger] lands_inside(
            mask,
            w,
            h,
            x,
            y,
            distance_offsets(mask, w, h)[y * w + x],
        ) by {
            lemma_coords(w, h, x, y);
        }
    }
}

/// The forward-sweep value of a pixel is sound, and an inside pixel keeps
/// offset zero, on any grid.
proof fn lemma_forward_cell_sound(mask: Seq<u8>, w: int, h: int, s: Seq<(int, int)>, x: int, y: int)
    requires
        s.len() == w * h,
        all_sound(mask, w, h, s),
        inside_zero(mask, w, h, s),
        0 <= x < w,
        0 <= y < h,
    ensures
        sound(mask, w, h, x, y, forward_cell(s, w, y * w + x)),
        mask[y * w + x] > 127 ==> forward_cell(s, w, y * w + x) == (0int, 0int),
{
    let p = y * w + x;
    lemma_coords(w, h, x, y);
    assert(sound(mask, w, h, p % w, p / w, s[p]));
    if mask[p] > 127 {
        assert(s[p] == (0int, 0int));
    }
    assert(p % w == x && p / w == y);
    if x > 0 {
        lemma_shift_sound(mask, w, h, s, x, y, -1, 0, p - 1);
    }
    if y > 0 {
        lemma_shift_sound(mask, w, h, s, x, y, 0, -1, p - w);
    }
    if x > 0 && y > 0 {
        lemma_shift_sound(mask, w, h, s, x, y, -1, -1, p - w - 1);
    }
    if x + 1 < w && y > 0 {
        lemma_shift_sound(mask, w, h, s, x, y, 1, -1, p - w + 1);
    }
}

/// The backward-sweep counterpart of `lemma_forward_cell_sound`.
proof fn lemma_backward_cell_sound(mask: Seq<u8>, w: int, h: int, s: Seq<(int, int)>, x: int, y: int)
    requires
        s.len() == w * h,
        all_sound(mask, w, h, s),
        inside_zero(mask, w, h, s),
        0 <= x < w,
        0 <= y < h,
    ensures
        sound(mask, w, h, x, y, backward_cell(s, w, h, y * w + x)),
        mask[y * w + x] > 127 ==> backward_cell(s, w, h, y * w + x) == (0int, 0int),
{
    let p = y * w + x;
    lemma_coords(w, h, x, y);
    assert(sound(mask, w, h, p % w, p / w, s[p]));
    if x + 1 < w {
        lemma_shift_sound(mask, w, h, s, x, y, 1, 0, p + 1);
    }
    if y + 1 < h {
        lemma_shift_sound(mask, w, h, s, x, y, 0, 1, p + w);
    }
    if x + 1 < w && y + 1 < h {
        lemma_shift_sound(mask, w, h, s, x, y, 1, 1, p + w + 1);
    }
    if x > 0 && y + 1 < h {
        lemma_shift_sound(mask, w, h, s, x, y, -1, 1, p + w - 1);
    }
}

/// Both sweeps keep every offset sound and inside pixels at zero, on any
/// grid.
proof fn lemma_sweeps_sound(mask: Seq<u8>, w: int, h: int, f: Seq<(int, int)>, k: nat, forward: bool)
    requires
        w >= 0,
        h >= 0,
        k <= w * h,
        f.len() == w * h,
        all_sound(mask, w, h, f),
        inside_zero(mask, w, h, f),
    ensures
        forward ==> forward_sweep(f, w, k).len() == w * h && all_sound(mask, w, h, forward_sweep(f, w, k))
            && inside_zero(mask, w, h, forward_sweep(f, w, k)),
        !forward ==> backward_sweep(f, w, h, k).len() == w * h && all_sound(mask, w, h, backward_sweep(f, w, h, k))
            && inside_zero(mask, w, h, backward_sweep(f, w, h, k)),
    decreases k,
{
    if k > 0 {
        let kk = (k - 1) as nat;
        lemma_sweeps_sound(mask, w, h, f, kk, forward);
        let s = if forward { forward_sweep(f, w, kk) } else { backward_sweep(f, w, h, kk) };
        let p = if forward { kk as int } else { w * h - k };
        lemma_index(w, h, p);
        let x = p % w;
        let y = p / w;
        assert(y * w + x == p);
        let v = if forward { forward_cell(s, w, p) } else { backward_cell(s, w, h, p) };
        if forward {
            lemma_forward_cell_sound(mask, w, h, s, x, y);
        } else {
            lemma_backward_cell_sound(mask, w, h, s, x, y);
        }
        let s2 = s.update(p, v);
        assert(forward ==> forward_sweep(f, w, k) == s2);
        assert(!forward ==> backward_sweep(f, w, h, k) == s2);
        assert forall|q: int| 0 <= q < w * h implies #[trigger] sound(mask, w, h, q % w, q / w, s2[q]) by {
            if q != p {
                assert(sound(mask, w, h, q % w, q / w, s[q]));
            }
        }
        assert forall|q: int| 0 <= q < w * h && mask[q] > 127 implies #[trigger] s2[q] == (0int, 0int) by {
            if q != p {
                assert(s[q] == (0int, 0int));
            }
        }
    }
}

/// Law: when the mask has at least one inside pixel, the offset of every
/// pixel points at an inside pixel (grids up to 8192 x 8192, where a real
/// offset always beats the `FAR` start).
pub proof fn law_offsets_land_inside(mask: Seq<u8>, w: int, h: int, x: int, y: int)
    requires
        small_grid(w, h),
        w * h <= mask.len(),
        has_inside(mask, w, h),
        0 <= x < w,
        0 <= y < h,
    ensures
        lands_inside(mask, w, h, x, y, distance_offsets(mask, w, h)[y * w + x]),
{
    lemma_distance_offsets(mask, w, h);
}

/// Law: a pixel's offset is zero exactly when the pixel itself is inside,
/// for every pixel less than `FAR` from the left or the top edge (further
/// out, an offset carried from a `(FAR, FAR)` start can shrink to zero).
pub proof fn law_zero_offset_iff_inside(mask: Seq<u8>, w: int, h: int, x: int, y: int)
    requires
        w * h <= mask.len(),
        0 <= x < w,
        0 <= y < h,
        x < FAR || y < FAR,
    ensures
        (distance_offsets(mask, w, h)[y * w + x] == (0int, 0int)) == inside(mask, w, h, x, y),
{
    assert(w * h >= 0) by (nonlinear_arith)
        requires
            w >= 0,
            h >= 0,
    ;
    let n = (w * h) as nat;
    lemma_seeded(mask, w, h);
    lemma_sweeps_sound(mask, w, h, seeded(mask, w, h), n, true);
    let f = forward_sweep(seeded(mask, w, h), w, n);
    lemma_sweeps_sound(mask, w, h, f, n, false);
    lemma_coords(w, h, x, y);
    let p = y * w + x;
    let o = distance_offsets(mask, w, h)[p];
    assert(sound(mask, w, h, p % w, p / w, o));
    if inside(mask, w, h, x, y) {
        assert(mask[p] > 127);
        assert(o == (0int, 0int));
    }
}

} // verus!
