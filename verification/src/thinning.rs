//! Zhang-Suen thinning: reduce a binary coverage mask (row-major, `w` x `h`,
//! values 0 or 1) to a one-pixel-wide skeleton.
//!
//! The mask is thinned by repeated passes. A pass is two sub-iterations; in
//! each, every interior foreground pixel that satisfies the Zhang-Suen
//! conditions *on the mask as it stood at the start of that sub-iteration* is
//! cleared, all at once. Passes repeat until one removes nothing.

use vstd::prelude::*;
use vstd::set_lib::*;

verus! {

/// Every pixel is 0 or 1.
pub open spec fn binary(g: Seq<u8>) -> bool {
    forall|i: int| 0 <= i < g.len() ==> #[trigger] g[i] <= 1
}

/// A `w` x `h` grid that the thinning loops can scan: a row-major buffer of
/// at least `w * h` pixels, with a height of at least one row (and a width of
/// at least one column once there are three rows to scan).
pub open spec fn grid_fits(len: int, w: int, h: int) -> bool {
    &&& h >= 1
    &&& (w >= 1 || h <= 2)
    &&& w * h <= len
}

/// The eight neighbours of pixel `i` in a row-major grid of width `w`, in the
/// Zhang-Suen order P2..P9: north, north-east, east, south-east, south,
/// south-west, west, north-west.
pub open spec fn ring(g: Seq<u8>, w: int, i: int) -> Seq<u8> {
    seq![
        g[i - w],
        g[i - w + 1],
        g[i + 1],
        g[i + w + 1],
        g[i + w],
        g[i + w - 1],
        g[i - 1],
        g[i - w - 1],
    ]
}

/// B(P1): how many of the eight neighbours are set.
pub open spec fn ring_sum(n: Seq<u8>) -> int {
    n[0] + n[1] + n[2] + n[3] + n[4] + n[5] + n[6] + n[7]
}

/// One 0 -> 1 step between consecutive ring neighbours.
pub open spec fn rise(a: u8, b: u8) -> int {
    if a == 0 && b == 1 {
        1
    } else {
        0
    }
}

/// A(P1): the number of 0 -> 1 transitions going once round the ring.
pub open spec fn ring_rises(n: Seq<u8>) -> int {
    rise(n[0], n[1]) + rise(n[1], n[2]) + rise(n[2], n[3]) + rise(n[3], n[4]) + rise(n[4], n[5])
        + rise(n[5], n[6]) + rise(n[6], n[7]) + rise(n[7], n[0])
}

/// The sub-iteration specific conditions: in the first sub-iteration
/// P2*P4*P6 = 0 and P4*P6*P8 = 0; in the second P2*P4*P8 = 0 and P2*P6*P8 = 0.
pub open spec fn step_condition(n: Seq<u8>, first: bool) -> bool {
    if first {
        (n[0] == 0 || n[2] == 0 || n[4] == 0) && (n[2] == 0 || n[4] == 0 || n[6] == 0)
    } else {
        (n[0] == 0 || n[2] == 0 || n[6] == 0) && (n[0] == 0 || n[4] == 0 || n[6] == 0)
    }
}

/// Pixel `i` lies inside the grid and not on its one-pixel border.
pub open spec fn interior(w: int, h: int, i: int) -> bool {
    &&& w >= 3
    &&& h >= 3
    &&& 0 <= i < w * h
    &&& 1 <= i % w < w - 1
    &&& 1 <= i / w < h - 1
}

/// Pixel `i` is deleted by the given sub-iteration of mask `g`.
pub open spec fn removable(g: Seq<u8>, w: int, h: int, i: int, first: bool) -> bool {
    &&& interior(w, h, i)
    &&& g[i] != 0
    &&& 2 <= ring_sum(ring(g, w, i)) <= 6
    &&& ring_rises(ring(g, w, i)) == 1
    &&& step_condition(ring(g, w, i), first)
}

/// One sub-iteration: every removable pixel of `g` cleared simultaneously.
pub open spec fn sub_iteration(g: Seq<u8>, w: int, h: int, first: bool) -> Seq<u8> {
    Seq::new(g.len(), |i: int| if removable(g, w, h, i, first) { 0u8 } else { g[i] })
}

/// One full pass: the first sub-iteration, then the second on its result.
pub open spec fn thinning_pass(g: Seq<u8>, w: int, h: int) -> Seq<u8> {
    sub_iteration(sub_iteration(g, w, h, true), w, h, false)
}

/// The mask after `k` passes.
pub open spec fn passes(g: Seq<u8>, w: int, h: int, k: nat) -> Seq<u8>
    decreases k,
{
    if k == 0 {
        g
    } else {
        thinning_pass(passes(g, w, h, (k - 1) as nat), w, h)
    }
}

/// `t` is the Zhang-Suen skeleton of `g`: some number of passes turns `g`
/// into `t`, and a further pass leaves `t` unchanged.
pub open spec fn is_thinning(g: Seq<u8>, w: int, h: int, t: Seq<u8>) -> bool {
    exists|k: nat| #[trigger] passes(g, w, h, k) == t && thinning_pass(t, w, h) == t
}

/// The indices of the set pixels.
pub open spec fn set_pixels(g: Seq<u8>) -> Set<int> {
    Set::new(|i: int| 0 <= i < g.len() && g[i] != 0)
}

/// Pixel `(x, y)` of an interior cell: its index, its neighbours' indices, and
/// its row and column read back by division.
proof fn lemma_cell(w: int, h: int, x: int, y: int)
    requires
        1 <= x < w - 1,
        1 <= y < h - 1,
    ensures
        w + 1 <= y * w + x,
        y * w + x + w + 1 < w * h,
        (y * w + x) % w == x,
        (y * w + x) / w == y,
        interior(w, h, y * w + x),
{
    assert(y * w >= w) by (nonlinear_arith)
        requires
            y >= 1,
            w >= 0,
    ;
    assert((y + 1) * w <= (h - 1) * w) by (nonlinear_arith)
        requires
            y + 1 <= h - 1,
            w >= 0,
    ;
    assert((h - 1) * w + w == w * h) by (nonlinear_arith);
    assert((y + 1) * w == y * w + w) by (nonlinear_arith);
    vstd::arithmetic::div_mod::lemma_fundamental_div_mod_converse(y * w + x, w, y, x);
}

/// Row-major order of cells agrees with the order of their indices.
proof fn lemma_row_major_order(w: int, a: int, b: int, c: int, d: int)
    requires
        0 <= b < w,
        0 <= d < w,
    ensures
        (a * w + b < c * w + d) <==> (a < c || (a == c && b < d)),
{
    if a < c {
        assert(a * w + w <= c * w) by (nonlinear_arith)
            requires
                a < c,
                w >= 0,
        ;
    } else if a > c {
        assert(c * w + w <= a * w) by (nonlinear_arith)
            requires
                c < a,
                w >= 0,
        ;
    }
}

/// An index of the grid decomposed into its row and column.
proof fn lemma_split_index(w: int, i: int)
    requires
        w > 0,
        i >= 0,
    ensures
        i == (i / w) * w + i % w,
        0 <= i % w < w,
        i / w >= 0,
{
    vstd::arithmetic::div_mod::lemma_fundamental_div_mod(i, w);
    vstd::arithmetic::div_mod::lemma_div_pos_is_pos(i, w);
    assert(w * (i / w) == (i / w) * w) by (nonlinear_arith);
}

fn rise_at(a: u8, b: u8) -> (r: u8)
    ensures
        r == rise(a, b),
{
    if a == 0 && b == 1 {
        1
    } else {
        0
    }
}

/// Whether interior pixel `(x, y)` is deleted by the given sub-iteration.
#[verifier::rlimit(40)]
fn removable_at(g: &[u8], w: usize, h: usize, x: usize, y: usize, first: bool) -> (r: bool)
    requires
        grid_fits(g@.len() as int, w as int, h as int),
        binary(g@),
        1 <= x,
        x + 1 < w,
        1 <= y,
        y + 1 < h,
    ensures
        r == removable(g@, w as int, h as int, y * w + x, first),
{
    let len = g.len();
    proof {
        lemma_cell(w as int, h as int, x as int, y as int);
        assert(y * w <= y * w + x);
    }
    let i = y * w + x;
    if g[i] == 0 {
        return false;
    }
    let n0 = g[i - w];
    let n1 = g[i - w + 1];
    let n2 = g[i + 1];
    let n3 = g[i + w + 1];
    let n4 = g[i + w];
    let n5 = g[i + w - 1];
    let n6 = g[i - 1];
    let n7 = g[i - w - 1];
    let ghost n = ring(g@, w as int, i as int);
    assert(n0 == n[0] && n1 == n[1] && n2 == n[2] && n3 == n[3]);
    assert(n4 == n[4] && n5 == n[5] && n6 == n[6] && n7 == n[7]);
    assert(n0 <= 1 && n1 <= 1 && n2 <= 1 && n3 <= 1 && n4 <= 1 && n5 <= 1 && n6 <= 1 && n7 <= 1);
    let b: u8 = n0 + n1 + n2 + n3 + n4 + n5 + n6 + n7;
    if b < 2 || b > 6 {
        return false;
    }
    let a: u8 = rise_at(n0, n1) + rise_at(n1, n2) + rise_at(n2, n3) + rise_at(n3, n4) + rise_at(
        n4,
        n5,
    ) + rise_at(n5, n6) + rise_at(n6, n7) + rise_at(n7, n0);
    if a != 1 {
        return false;
    }
    if first {
        (n0 == 0 || n2 == 0 || n4 == 0) && (n2 == 0 || n4 == 0 || n6 == 0)
    } else {
        (n0 == 0 || n2 == 0 || n6 == 0) && (n0 == 0 || n4 == 0 || n6 == 0)
    }
}

/// The pixels that one sub-iteration of `g` deletes, in increasing order.
fn removable_pixels(g: &[u8], w: usize, h: usize, first: bool) -> (rem: Vec<usize>)
    requires
        grid_fits(g@.len() as int, w as int, h as int),
        binary(g@),
    ensures
        forall|j: int|
            0 <= j < rem@.len() ==> removable(g@, w as int, h as int, #[trigger] rem@[j] as int, first),
        forall|j1: int, j2: int| 0 <= j1 < j2 < rem@.len() ==> rem@[j1] < rem@[j2],
        forall|i: int| removable(g@, w as int, h as int, i, first) ==> rem@.contains(i as usize),
{
    let ghost wi = w as int;
    let ghost hi = h as int;
    let len = g.len();
    let mut rem: Vec<usize> = Vec::new();
    let mut y: usize = 1;
    proof {
        assert forall|i: int| removable(g@, wi, hi, i, first) implies i >= wi by {
            lemma_split_index(wi, i);
            lemma_row_major_order(wi, i / wi, i % wi, 1, 0);
        }
    }
    while y < h - 1
        invariant
            grid_fits(g@.len() as int, wi, hi),
            len == g@.len(),
            wi == w,
            hi == h,
            binary(g@),
            1 <= y <= h,
            forall|j: int| 0 <= j < rem@.len() ==> removable(g@, wi, hi, #[trigger] rem@[j] as int, first),
            forall|j1: int, j2: int| 0 <= j1 < j2 < rem@.len() ==> rem@[j1] < rem@[j2],
            forall|j: int| 0 <= j < rem@.len() ==> #[trigger] rem@[j] < y * wi,
            forall|i: int| removable(g@, wi, hi, i, first) && i < y * wi ==> rem@.contains(i as usize),
        decreases h - y,
    {
        let mut x: usize = 1;
        proof {
            assert forall|i: int| removable(g@, wi, hi, i, first) && i < y * wi + 1 implies rem@.contains(
                i as usize,
            ) by {
                if i == y * wi {
                    vstd::arithmetic::div_mod::lemma_fundamental_div_mod_converse(i, wi, y as int, 0);
                }
            }
        }
        while x < w - 1
            invariant
                grid_fits(g@.len() as int, wi, hi),
                len == g@.len(),
                wi == w,
                hi == h,
                binary(g@),
                1 <= y,
                y + 1 < h,
                1 <= x <= w,
                forall|j: int|
                    0 <= j < rem@.len() ==> removable(g@, wi, hi, #[trigger] rem@[j] as int, first),
                forall|j1: int, j2: int| 0 <= j1 < j2 < rem@.len() ==> rem@[j1] < rem@[j2],
                forall|j: int| 0 <= j < rem@.len() ==> #[trigger] rem@[j] < y * wi + x,
                forall|i: int|
                    removable(g@, wi, hi, i, first) && i < y * wi + x ==> rem@.contains(i as usize),
            decreases w - x,
        {
            proof {
                lemma_cell(wi, hi, x as int, y as int);
            }
            let ghost before = rem@;
            if removable_at(g, w, h, x, y, first) {
                rem.push(y * w + x);
                assert forall|i: int|
                    removable(g@, wi, hi, i, first) && i < y * wi + x + 1 implies rem@.contains(
                    i as usize,
                ) by {
                    if i < y * wi + x {
                        assert(before.contains(i as usize));
                        let k = choose|k: int| 0 <= k < before.len() && before[k] == i as usize;
                        assert(rem@[k] == i as usize);
                    } else {
                        assert(rem@[rem@.len() - 1] == i as usize);
                    }
                }
            }
            x = x + 1;
        }
        proof {
            assert forall|i: int|
                removable(g@, wi, hi, i, first) && i < (y + 1) * wi implies rem@.contains(
                i as usize,
            ) by {
                lemma_split_index(wi, i);
                let yi = i / wi;
                let xi = i % wi;
                if i >= y * wi + x {
                    assert((y + 1) * wi == y * wi + wi) by (nonlinear_arith);
                    if x < w {
                        lemma_row_major_order(wi, yi, xi, y as int, x as int);
                    }
                    lemma_row_major_order(wi, yi, xi, (y + 1) as int, 0);
                    assert((y + 1) * wi == (y + 1) * wi + 0);
                    assert(false);
                }
            }
            assert forall|j: int| 0 <= j < rem@.len() implies #[trigger] rem@[j] < (y + 1) * wi by {
                assert((y + 1) * wi == y * wi + wi) by (nonlinear_arith);
            }
        }
        y = y + 1;
    }
    proof {
        assert forall|i: int| removable(g@, wi, hi, i, first) implies rem@.contains(i as usize) by {
            lemma_split_index(wi, i);
            let yi = i / wi;
            let xi = i % wi;
            lemma_row_major_order(wi, yi, xi, y as int, 0);
            assert(y * wi == y * wi + 0);
        }
    }
    rem
}

/// Clear every listed pixel.
fn clear_pixels(g: &mut [u8], rem: &Vec<usize>)
    requires
        forall|j: int| 0 <= j < rem@.len() ==> #[trigger] rem@[j] < old(g)@.len(),
    ensures
        final(g)@.len() == old(g)@.len(),
        forall|i: int|
            0 <= i < old(g)@.len() ==> #[trigger] final(g)@[i] == if rem@.contains(i as usize) {
                0u8
            } else {
                old(g)@[i]
            },
{
    let ghost g0 = g@;
    let mut j: usize = 0;
    while j < rem.len()
        invariant
            j <= rem@.len(),
            g@.len() == g0.len(),
            forall|t: int| 0 <= t < rem@.len() ==> #[trigger] rem@[t] < g0.len(),
            forall|i: int|
                0 <= i < g0.len() ==> #[trigger] g@[i] == if rem@.subrange(0, j as int).contains(
                    i as usize,
                ) {
                    0u8
                } else {
                    g0[i]
                },
        decreases rem@.len() - j,
    {
        let k = rem[j];
        g[k] = 0;
        proof {
            assert forall|i: int| 0 <= i < g0.len() implies #[trigger] g@[i] == if rem@.subrange(
                0,
                j + 1,
            ).contains(i as usize) {
                0u8
            } else {
                g0[i]
            } by {
                let old_pre = rem@.subrange(0, j as int);
                let new_pre = rem@.subrange(0, j + 1);
                assert(new_pre == old_pre.push(k));
                if i == k as int {
                    assert(new_pre[j as int] == k);
                } else {
                    if old_pre.contains(i as usize) {
                        let t = choose|t: int| 0 <= t < old_pre.len() && old_pre[t] == i as usize;
                        assert(new_pre[t] == i as usize);
                    }
                    if new_pre.contains(i as usize) {
                        let t = choose|t: int| 0 <= t < new_pre.len() && new_pre[t] == i as usize;
                        assert(t < j);
                        assert(old_pre[t] == i as usize);
                    }
                }
            }
        }
        j = j + 1;
    }
    proof {
        assert(rem@.subrange(0, rem@.len() as int) == rem@);
    }
}

/// The pixels a sub-iteration keeps set were already set, so it never grows
/// the set of set pixels, and shrinks it whenever it changes anything.
proof fn lemma_sub_iteration_shrinks(g: Seq<u8>, w: int, h: int, first: bool)
    ensures
        set_pixels(g).finite(),
        set_pixels(sub_iteration(g, w, h, first)).finite(),
        set_pixels(sub_iteration(g, w, h, first)).len() <= set_pixels(g).len(),
        sub_iteration(g, w, h, first) != g ==> set_pixels(sub_iteration(g, w, h, first)).len()
            < set_pixels(g).len(),
{
    let s = sub_iteration(g, w, h, first);
    lemma_int_range(0, g.len() as int);
    assert(set_pixels(g).subset_of(set_int_range(0, g.len() as int)));
    lemma_len_subset(set_pixels(g), set_int_range(0, g.len() as int));
    assert(set_pixels(s).subset_of(set_pixels(g)));
    lemma_len_subset(set_pixels(s), set_pixels(g));
    if s != g {
        assert(!(s =~= g));
        let i = choose|i: int| 0 <= i < g.len() && s[i] != g[i];
        assert(removable(g, w, h, i, first));
        assert(set_pixels(g).contains(i));
        assert(set_pixels(s).subset_of(set_pixels(g).remove(i)));
        lemma_len_subset(set_pixels(s), set_pixels(g).remove(i));
    }
}

/// Run one sub-iteration in place; report whether it deleted anything.
fn thin_sub_iteration(g: &mut [u8], w: usize, h: usize, first: bool) -> (removed: bool)
    requires
        grid_fits(old(g)@.len() as int, w as int, h as int),
        binary(old(g)@),
    ensures
        final(g)@ == sub_iteration(old(g)@, w as int, h as int, first),
        binary(final(g)@),
        removed == (final(g)@ != old(g)@),
{
    let ghost g0 = g@;
    let n = g.len();
    let rem = removable_pixels(g, w, h, first);
    proof {
        assert forall|j: int| 0 <= j < rem@.len() implies #[trigger] rem@[j] < g0.len() by {
            assert(removable(g0, w as int, h as int, rem@[j] as int, first));
            assert(w * h <= g0.len());
        }
    }
    clear_pixels(g, &rem);
    proof {
        let s = sub_iteration(g0, w as int, h as int, first);
        assert forall|i: int| 0 <= i < g0.len() implies g@[i] == s[i] by {
            assert(i < n);
            if rem@.contains(i as usize) {
                let t = choose|t: int| 0 <= t < rem@.len() && rem@[t] == i as usize;
                assert(removable(g0, w as int, h as int, rem@[t] as int, first));
            } else {
                assert(!removable(g0, w as int, h as int, i, first));
            }
        }
        assert(g@ =~= s);
        if rem@.len() > 0 {
            assert(removable(g0, w as int, h as int, rem@[0] as int, first));
            assert(g@[rem@[0] as int] != g0[rem@[0] as int]);
        } else {
            assert forall|i: int| 0 <= i < g0.len() implies g@[i] == g0[i] by {
                assert(!rem@.contains(i as usize));
            }
            assert(g@ =~= g0);
        }
    }
    rem.len() > 0
}

/// Thin a binary coverage mask (`w` x `h`, row-major, values 0 or 1) in
/// place to its Zhang-Suen skeleton: passes run until one deletes nothing.
pub fn zhang_suen(g: &mut [u8], w: usize, h: usize)
    requires
        grid_fits(old(g)@.len() as int, w as int, h as int),
        binary(old(g)@),
    ensures
        final(g)@.len() == old(g)@.len(),
        is_thinning(old(g)@, w as int, h as int, final(g)@),
{
    let ghost g0 = g@;
    let ghost mut k: nat = 0;
    loop
        invariant
            grid_fits(g@.len() as int, w as int, h as int),
            g@.len() == g0.len(),
            binary(g@),
            passes(g0, w as int, h as int, k) == g@,
        ensures
            g@.len() == g0.len(),
            is_thinning(g0, w as int, h as int, g@),
        decreases set_pixels(g@).len(),
    {
        let ghost before = g@;
        let removed_first = thin_sub_iteration(g, w, h, true);
        let ghost middle = g@;
        let removed_second = thin_sub_iteration(g, w, h, false);
        proof {
            lemma_sub_iteration_shrinks(before, w as int, h as int, true);
            lemma_sub_iteration_shrinks(middle, w as int, h as int, false);
            k = k + 1;
            assert(passes(g0, w as int, h as int, k) == thinning_pass(before, w as int, h as int));
        }
        if !removed_first && !removed_second {
            proof {
                assert(thinning_pass(g@, w as int, h as int) == g@);
                assert(passes(g0, w as int, h as int, k) == g@);
            }
            break;
        }
    }
}

/// `t` arises from `g` by clearing pixels only: same size, every pixel still
/// set in `t` holds its value from `g`, and the border is untouched.
pub open spec fn only_clears(g: Seq<u8>, w: int, h: int, t: Seq<u8>) -> bool {
    &&& t.len() == g.len()
    &&& forall|i: int| 0 <= i < g.len() && #[trigger] t[i] != 0 ==> t[i] == g[i]
    &&& forall|i: int| 0 <= i < g.len() && !interior(w, h, i) ==> #[trigger] t[i] == g[i]
}

proof fn lemma_sub_iteration_only_clears(g: Seq<u8>, w: int, h: int, first: bool)
    ensures
        only_clears(g, w, h, sub_iteration(g, w, h, first)),
{
}

proof fn lemma_only_clears_trans(a: Seq<u8>, b: Seq<u8>, c: Seq<u8>, w: int, h: int)
    requires
        only_clears(a, w, h, b),
        only_clears(b, w, h, c),
    ensures
        only_clears(a, w, h, c),
{
    assert forall|i: int| 0 <= i < a.len() && #[trigger] c[i] != 0 implies c[i] == a[i] by {
        assert(c[i] == b[i]);
    }
    assert forall|i: int| 0 <= i < a.len() && !interior(w, h, i) implies #[trigger] c[i] == a[i] by {
        assert(c[i] == b[i]);
    }
}

proof fn lemma_passes_only_clear(g: Seq<u8>, w: int, h: int, k: nat)
    ensures
        only_clears(g, w, h, passes(g, w, h, k)),
    decreases k,
{
    if k > 0 {
        let p = passes(g, w, h, (k - 1) as nat);
        lemma_passes_only_clear(g, w, h, (k - 1) as nat);
        lemma_sub_iteration_only_clears(p, w, h, true);
        lemma_sub_iteration_only_clears(sub_iteration(p, w, h, true), w, h, false);
        lemma_only_clears_trans(p, sub_iteration(p, w, h, true), thinning_pass(p, w, h), w, h);
        lemma_only_clears_trans(g, p, thinning_pass(p, w, h), w, h);
    }
}

proof fn lemma_passes_add(g: Seq<u8>, w: int, h: int, a: nat, b: nat)
    ensures
        passes(g, w, h, a + b) == passes(passes(g, w, h, a), w, h, b),
    decreases b,
{
    if b > 0 {
        lemma_passes_add(g, w, h, a, (b - 1) as nat);
        assert((a + b - 1) as nat == a + (b - 1) as nat);
    }
}

proof fn lemma_passes_of_fixpoint(t: Seq<u8>, w: int, h: int, m: nat)
    requires
        thinning_pass(t, w, h) == t,
    ensures
        passes(t, w, h, m) == t,
    decreases m,
{
    if m > 0 {
        lemma_passes_of_fixpoint(t, w, h, (m - 1) as nat);
    }
}

/// A mask that a pass leaves unchanged has no pixel that either
/// sub-iteration would delete.
pub proof fn lemma_fixpoint_has_no_removable(t: Seq<u8>, w: int, h: int)
    requires
        w * h <= t.len(),
        thinning_pass(t, w, h) == t,
    ensures
        forall|i: int| !removable(t, w, h, i, true) && !removable(t, w, h, i, false),
{
    let s0 = sub_iteration(t, w, h, true);
    assert forall|i: int| !removable(t, w, h, i, true) by {
        if removable(t, w, h, i, true) {
            assert(s0[i] == 0);
            assert(thinning_pass(t, w, h)[i] == 0);
        }
    }
    assert(s0 =~= t);
    assert forall|i: int| !removable(t, w, h, i, false) by {
        if removable(t, w, h, i, false) {
            assert(thinning_pass(t, w, h)[i] == 0);
        }
    }
}

/// Law: the result of thinning is already thin. Thinning the skeleton of any
/// mask gives that skeleton back, and nothing else.
pub proof fn law_thinning_idempotent(g: Seq<u8>, w: int, h: int, t: Seq<u8>, u: Seq<u8>)
    requires
        is_thinning(g, w, h, t),
    ensures
        is_thinning(t, w, h, t),
        is_thinning(t, w, h, u) ==> u == t,
{
    assert(passes(t, w, h, 0) == t);
    if is_thinning(t, w, h, u) {
        let k = choose|k: nat| #[trigger] passes(t, w, h, k) == u && thinning_pass(u, w, h) == u;
        lemma_passes_of_fixpoint(t, w, h, k);
    }
}

/// Law: thinning is deterministic; a mask has exactly one skeleton.
pub proof fn law_thinning_unique(g: Seq<u8>, w: int, h: int, t1: Seq<u8>, t2: Seq<u8>)
    requires
        is_thinning(g, w, h, t1),
        is_thinning(g, w, h, t2),
    ensures
        t1 == t2,
{
    let k1 = choose|k: nat| #[trigger] passes(g, w, h, k) == t1 && thinning_pass(t1, w, h) == t1;
    let k2 = choose|k: nat| #[trigger] passes(g, w, h, k) == t2 && thinning_pass(t2, w, h) == t2;
    if k1 <= k2 {
        lemma_passes_add(g, w, h, k1, (k2 - k1) as nat);
        lemma_passes_of_fixpoint(t1, w, h, (k2 - k1) as nat);
    } else {
        lemma_passes_add(g, w, h, k2, (k1 - k2) as nat);
        lemma_passes_of_fixpoint(t2, w, h, (k1 - k2) as nat);
    }
}

/// Law: thinning only deletes. The skeleton has the mask's size, stays
/// binary, keeps the one-pixel border as it was, sets no pixel that the mask
/// left clear, and no pixel of it is deletable by either sub-iteration.
pub proof fn law_thinning_only_deletes(g: Seq<u8>, w: int, h: int, t: Seq<u8>)
    requires
        grid_fits(g.len() as int, w, h),
        binary(g),
        is_thinning(g, w, h, t),
    ensures
        only_clears(g, w, h, t),
        binary(t),
        forall|i: int| !removable(t, w, h, i, true) && !removable(t, w, h, i, false),
{
    let k = choose|k: nat| #[trigger] passes(g, w, h, k) == t && thinning_pass(t, w, h) == t;
    lemma_passes_only_clear(g, w, h, k);
    assert forall|i: int| 0 <= i < t.len() implies #[trigger] t[i] <= 1 by {
        if t[i] != 0 {
            assert(t[i] == g[i]);
        }
    }
    lemma_fixpoint_has_no_removable(t, w, h);
}

/// Law: a sub-iteration only clears pixels that were set, lie off the
/// one-pixel border, and have at least two and at most six set pixels among
/// their eight neighbours; every other pixel keeps its value.
pub proof fn law_sub_iteration_clears(g: Seq<u8>, w: int, h: int, first: bool, i: int)
    requires
        binary(g),
        0 <= i < g.len(),
        sub_iteration(g, w, h, first)[i] != g[i],
    ensures
        g[i] == 1,
        sub_iteration(g, w, h, first)[i] == 0,
        w >= 3 && h >= 3,
        1 <= i % w <= w - 2,
        1 <= i / w <= h - 2,
        2 <= g[i - w - 1] + g[i - w] + g[i - w + 1] + g[i - 1] + g[i + 1] + g[i + w - 1] + g[i + w]
            + g[i + w + 1] <= 6,
{
    assert(removable(g, w, h, i, first));
    assert(g[i] <= 1);
}

} // verus!
