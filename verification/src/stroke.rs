//! Ordered stroke-centreline tracing: turn a sharp coverage raster of a word
//! into the path a camera can follow letter by letter.
//!
//! The raster is thresholded and thinned to a skeleton; the skeleton is split
//! into its 8-connected pieces (roughly, letters); the pieces are visited left
//! to right; each piece is walked from its leftmost end, going as straight as
//! it can at junctions and jumping to the nearest unvisited pixel when a
//! stroke runs out. Every point carries the squared distance from the
//! skeleton pixel to the nearest pixel outside the letter (the stroke's half
//! width, squared).

use vstd::prelude::*;
use crate::grid::{lemma_coords, lemma_index};
use crate::thinning::{zhang_suen, is_thinning, grid_fits, binary, law_thinning_unique, law_thinning_only_deletes};
use crate::distance::{edt8, FAR, as_offsets, distance_offsets, d2, short, all_short, lemma_short_bounds, law_zero_offset_iff_inside};

verus! {

/// Marks a pixel that belongs to no piece yet.
pub const UNLABELED: usize = usize::MAX;

/// Coverage above 127 counts as ink.
pub open spec fn ink(v: u8) -> bool {
    v > 127
}

/// 1 where the raster has ink, 0 elsewhere.
pub fn threshold_mask(sharp: &[u8]) -> (g: Vec<u8>)
    ensures
        g@.len() == sharp@.len(),
        forall|i: int|
            0 <= i < sharp@.len() ==> #[trigger] g@[i] == if ink(sharp@[i]) {
                1u8
            } else {
                0u8
            },
{
    let mut g: Vec<u8> = Vec::with_capacity(sharp.len());
    let mut i: usize = 0;
    while i < sharp.len()
        invariant
            i <= sharp@.len(),
            g@.len() == i,
            forall|j: int|
                0 <= j < i ==> #[trigger] g@[j] == if ink(sharp@[j]) {
                    1u8
                } else {
                    0u8
                },
        decreases sharp@.len() - i,
    {
        g.push(if sharp[i] > 127 { 1 } else { 0 });
        i = i + 1;
    }
    g
}

/// 255 where the raster has no ink, 0 where it has: the background as the
/// "inside" of a distance transform.
pub fn background_mask(sharp: &[u8]) -> (m: Vec<u8>)
    ensures
        m@.len() == sharp@.len(),
        forall|i: int|
            0 <= i < sharp@.len() ==> #[trigger] m@[i] == if ink(sharp@[i]) {
                0u8
            } else {
                255u8
            },
{
    let mut m: Vec<u8> = Vec::with_capacity(sharp.len());
    let mut i: usize = 0;
    while i < sharp.len()
        invariant
            i <= sharp@.len(),
            m@.len() == i,
            forall|j: int|
                0 <= j < i ==> #[trigger] m@[j] == if ink(sharp@[j]) {
                    0u8
                } else {
                    255u8
                },
        decreases sharp@.len() - i,
    {
        m.push(if sharp[i] > 127 { 0 } else { 255 });
        i = i + 1;
    }
    m
}

/// The pixel one step `(dx, dy)` away from pixel `i` of a `w` x `h` grid, if
/// that step stays on the grid.
pub open spec fn neighbour(w: int, h: int, i: int, dx: int, dy: int) -> Option<int> {
    let x = i % w + dx;
    let y = i / w + dy;
    if 0 <= x < w && 0 <= y < h {
        Some(y * w + x)
    } else {
        None
    }
}

/// One of the eight king-move steps.
pub open spec fn king_step(dx: int, dy: int) -> bool {
    -1 <= dx <= 1 && -1 <= dy <= 1 && !(dx == 0 && dy == 0)
}

/// Pixel `i` is on the skeleton `g`.
pub open spec fn on_skeleton(g: Seq<u8>, w: int, h: int, i: int) -> bool {
    0 <= i < w * h && g[i] == 1
}

/// Stepping there and back returns to the start.
proof fn lemma_neighbour_back(w: int, h: int, i: int, dx: int, dy: int)
    requires
        w >= 0,
        h >= 0,
        0 <= i < w * h,
        -1 <= dx <= 1,
        -1 <= dy <= 1,
        neighbour(w, h, i, dx, dy) is Some,
    ensures
        0 <= neighbour(w, h, i, dx, dy)->0 < w * h,
        neighbour(w, h, neighbour(w, h, i, dx, dy)->0, -dx, -dy) == Some(i),
{
    lemma_index(w, h, i);
    let x = i % w + dx;
    let y = i / w + dy;
    lemma_coords(w, h, x, y);
}

/// Step `(dx, dy)` from pixel `i`, if it stays on the grid.
fn neighbour_of(w: usize, h: usize, i: usize, dx: i8, dy: i8) -> (r: Option<usize>)
    requires
        i < w * h,
        w * h <= usize::MAX,
        -1 <= dx <= 1,
        -1 <= dy <= 1,
    ensures
        match r {
            Some(j) => neighbour(w as int, h as int, i as int, dx as int, dy as int) == Some(j as int),
            None => neighbour(w as int, h as int, i as int, dx as int, dy as int) is None,
        },
{
    proof {
        lemma_index(w as int, h as int, i as int);
    }
    let x = i % w;
    let y = i / w;
    if dx < 0 && x == 0 {
        return None;
    }
    if dx > 0 && x + 1 >= w {
        return None;
    }
    if dy < 0 && y == 0 {
        return None;
    }
    if dy > 0 && y + 1 >= h {
        return None;
    }
    let nx = if dx < 0 {
        x - 1
    } else if dx > 0 {
        x + 1
    } else {
        x
    };
    let ny = if dy < 0 {
        y - 1
    } else if dy > 0 {
        y + 1
    } else {
        y
    };
    proof {
        lemma_coords(w as int, h as int, nx as int, ny as int);
        assert(ny * w <= ny * w + nx);
    }
    Some(ny * w + nx)
}

/// The eight steps in scan order: the row above left to right, then left and
/// right, then the row below left to right.
pub open spec fn scan_dx(k: int) -> int {
    if k == 0 || k == 3 || k == 5 {
        -1
    } else if k == 1 || k == 6 {
        0
    } else {
        1
    }
}

pub open spec fn scan_dy(k: int) -> int {
    if k <= 2 {
        -1
    } else if k <= 4 {
        0
    } else {
        1
    }
}

proof fn lemma_scan_covers(dx: int, dy: int)
    requires
        king_step(dx, dy),
    ensures
        exists|k: int| 0 <= k < 8 && scan_dx(k) == dx && scan_dy(k) == dy,
{
    if dy == -1 {
        assert(scan_dx(dx + 1) == dx && scan_dy(dx + 1) == dy);
    } else if dy == 0 {
        if dx == -1 {
            assert(scan_dx(3) == dx && scan_dy(3) == dy);
        } else {
            assert(scan_dx(4) == dx && scan_dy(4) == dy);
        }
    } else {
        assert(scan_dx(dx + 6) == dx && scan_dy(dx + 6) == dy);
    }
}

fn scan_offset(k: usize) -> (r: (i8, i8))
    requires
        k < 8,
    ensures
        r.0 as int == scan_dx(k as int),
        r.1 as int == scan_dy(k as int),
        king_step(r.0 as int, r.1 as int),
{
    let dy: i8 = if k <= 2 {
        -1
    } else if k <= 4 {
        0
    } else {
        1
    };
    let dx: i8 = if k == 0 || k == 3 || k == 5 {
        -1
    } else if k == 1 || k == 6 {
        0
    } else {
        1
    };
    (dx, dy)
}

/// The pixels not yet in any piece.
pub open spec fn unlabeled_set(labels: Seq<usize>) -> Set<int> {
    Set::new(|i: int| 0 <= i < labels.len() && labels[i] == UNLABELED)
}

proof fn lemma_unlabeled_finite(labels: Seq<usize>)
    ensures
        unlabeled_set(labels).finite(),
{
    vstd::set_lib::lemma_int_range(0, labels.len() as int);
    vstd::set_lib::lemma_len_subset(
        unlabeled_set(labels),
        vstd::set_lib::set_int_range(0, labels.len() as int),
    );
}

proof fn lemma_label_one(labels: Seq<usize>, j: int, v: usize)
    requires
        0 <= j < labels.len(),
        labels[j] == UNLABELED,
        v != UNLABELED,
    ensures
        unlabeled_set(labels.update(j, v)).finite(),
        unlabeled_set(labels.update(j, v)).len() + 1 == unlabeled_set(labels).len(),
{
    lemma_unlabeled_finite(labels);
    assert(unlabeled_set(labels.update(j, v)) =~= unlabeled_set(labels).remove(j));
}

/// Labels below `limit` mark pieces closed under skeleton adjacency: a
/// skeleton pixel next to a labelled one carries the same label.
pub open spec fn labels_closed(g: Seq<u8>, w: int, h: int, labels: Seq<usize>, limit: int) -> bool {
    forall|i: int, dx: int, dy: int|
        0 <= i < w * h && labels[i] < limit && king_step(dx, dy) && #[trigger] neighbour(
            w,
            h,
            i,
            dx,
            dy,
        ) is Some && g[neighbour(w, h, i, dx, dy)->0] == 1 ==> labels[neighbour(
            w,
            h,
            i,
            dx,
            dy,
        )->0] == labels[i]
}

/// Pixel `b` is one king step from pixel `a`.
pub open spec fn adjacent(w: int, h: int, a: int, b: int) -> bool {
    exists|dx: int, dy: int| king_step(dx, dy) && #[trigger] neighbour(w, h, a, dx, dy) == Some(b)
}

/// A chain of skeleton pixels, each one king step from the one before.
pub open spec fn is_path(g: Seq<u8>, w: int, h: int, path: Seq<int>) -> bool {
    &&& path.len() > 0
    &&& forall|t: int| 0 <= t < path.len() ==> on_skeleton(g, w, h, #[trigger] path[t])
    &&& forall|t: int| 0 <= t < path.len() - 1 ==> #[trigger] adjacent(w, h, path[t], path[t + 1])
}

/// Skeleton pixels `a` and `b` are joined by a chain of skeleton pixels.
pub open spec fn linked(g: Seq<u8>, w: int, h: int, a: int, b: int) -> bool {
    exists|path: Seq<int>| #[trigger] is_path(g, w, h, path) && path[0] == a && path.last() == b
}

proof fn lemma_linked_start(g: Seq<u8>, w: int, h: int, a: int)
    requires
        on_skeleton(g, w, h, a),
    ensures
        linked(g, w, h, a, a),
{
    let path = seq![a];
    assert(is_path(g, w, h, path));
}

proof fn lemma_linked_step(g: Seq<u8>, w: int, h: int, a: int, b: int, c: int)
    requires
        linked(g, w, h, a, b),
        adjacent(w, h, b, c),
        on_skeleton(g, w, h, c),
    ensures
        linked(g, w, h, a, c),
{
    let path = choose|path: Seq<int>| #[trigger] is_path(g, w, h, path) && path[0] == a && path.last() == b;
    let longer = path.push(c);
    assert forall|t: int| 0 <= t < longer.len() - 1 implies #[trigger] adjacent(w, h, longer[t], longer[t + 1]) by {
        if t < path.len() - 1 {
            assert(longer[t] == path[t] && longer[t + 1] == path[t + 1]);
            assert(adjacent(w, h, path[t], path[t + 1]));
        }
    }
    assert(is_path(g, w, h, longer));
}

/// The pixels labelled `cid`.
pub open spec fn marked_by(labels: Seq<usize>, cid: usize) -> Set<int> {
    Set::new(|i: int| 0 <= i < labels.len() && labels[i] == cid)
}

/// Stack the unmarked skeleton neighbours of `p`, marking each, going through
/// the steps in scan order from position `k`.
pub open spec fn push_from(g: Seq<u8>, w: int, h: int, p: int, k: int, marked: Set<int>, stack: Seq<usize>) -> (Set<int>, Seq<usize>)
    decreases 8 - k,
{
    if k >= 8 {
        (marked, stack)
    } else {
        match neighbour(w, h, p, scan_dx(k), scan_dy(k)) {
            Some(j) => if g[j] == 1 && !marked.contains(j) {
                push_from(g, w, h, p, k + 1, marked.insert(j), stack.push(j as usize))
            } else {
                push_from(g, w, h, p, k + 1, marked, stack)
            },
            None => push_from(g, w, h, p, k + 1, marked, stack),
        }
    }
}

/// The depth-first flood from `seed` after `n` steps, as (marked pixels,
/// stack, pixels taken off the stack so far). A step takes the top of the
/// stack and stacks its unmarked skeleton neighbours in scan order.
pub open spec fn flood_after(g: Seq<u8>, w: int, h: int, seed: int, n: nat) -> (Set<int>, Seq<usize>, Seq<usize>)
    decreases n,
{
    if n == 0 {
        (set![seed], seq![seed as usize], Seq::empty())
    } else {
        let (m, s, taken) = flood_after(g, w, h, seed, (n - 1) as nat);
        if s.len() == 0 {
            (m, s, taken)
        } else {
            let p = s.last();
            let (m2, s2) = push_from(g, w, h, p as int, 0, m, s.drop_last());
            (m2, s2, taken.push(p))
        }
    }
}

/// `order` lists the piece of `seed` in the order the depth-first flood takes
/// its pixels off the stack.
pub open spec fn is_flood_order(g: Seq<u8>, w: int, h: int, seed: int, order: Seq<usize>) -> bool {
    exists|n: nat| #[trigger] flood_after(g, w, h, seed, n).1.len() == 0 && flood_after(g, w, h, seed, n).2 == order
}

/// Put the skeleton pixel one step `(dx, dy)` from `p` into piece `cid`, and
/// onto the stack, unless it already belongs to a piece.
fn label_neighbour(
    labels: &mut Vec<usize>,
    stack: &mut Vec<usize>,
    g: &[u8],
    w: usize,
    h: usize,
    p: usize,
    dx: i8,
    dy: i8,
    cid: usize,
)
    requires
        old(labels)@.len() == w * h,
        w * h <= g@.len(),
        w * h <= usize::MAX,
        p < w * h,
        -1 <= dx <= 1,
        -1 <= dy <= 1,
    ensures
        match neighbour(w as int, h as int, p as int, dx as int, dy as int) {
            Some(j) => if g@[j] == 1 && old(labels)@[j] == UNLABELED {
                &&& final(labels)@ == old(labels)@.update(j, cid)
                &&& final(stack)@ == old(stack)@.push(j as usize)
            } else {
                &&& final(labels)@ == old(labels)@
                &&& final(stack)@ == old(stack)@
            },
            None => final(labels)@ == old(labels)@ && final(stack)@ == old(stack)@,
        },
{
    match neighbour_of(w, h, p, dx, dy) {
        Some(j) => {
            proof {
                lemma_neighbour_back(w as int, h as int, p as int, dx as int, dy as int);
            }
            if g[j] == 1 && labels[j] == UNLABELED {
                labels[j] = cid;
                stack.push(j);
            }
        },
        None => {},
    }
}

/// Label every unlabelled skeleton neighbour of `p` with `cid` and push it.
fn label_all_neighbours(
    labels: &mut Vec<usize>,
    stack: &mut Vec<usize>,
    g: &[u8],
    w: usize,
    h: usize,
    p: usize,
    cid: usize,
)
    requires
        old(labels)@.len() == w * h,
        w * h <= g@.len(),
        w * h <= usize::MAX,
        p < w * h,
        cid != UNLABELED,
        forall|dx: int, dy: int|
            king_step(dx, dy) && #[trigger] neighbour(w as int, h as int, p as int, dx, dy) is Some
                && g@[neighbour(w as int, h as int, p as int, dx, dy)->0] == 1 ==> old(labels)@[neighbour(w as int, h as int, p as int, dx, dy)->0] == UNLABELED
                || old(labels)@[neighbour(w as int, h as int, p as int, dx, dy)->0] == cid,
    ensures
        (marked_by(final(labels)@, cid), final(stack)@) == push_from(
            g@,
            w as int,
            h as int,
            p as int,
            0,
            marked_by(old(labels)@, cid),
            old(stack)@,
        ),
        final(labels)@.len() == w * h,
        final(stack)@.len() >= old(stack)@.len(),
        final(stack)@.subrange(0, old(stack)@.len() as int) == old(stack)@,
        forall|i: int|
            0 <= i < w * h ==> (#[trigger] final(labels)@[i] != old(labels)@[i]) == final(stack)@.subrange(old(stack)@.len() as int, final(stack)@.len() as int).contains(i as usize),
        forall|i: int|
            0 <= i < w * h && #[trigger] final(labels)@[i] != old(labels)@[i] ==> old(labels)@[i]
                == UNLABELED && final(labels)@[i] == cid && g@[i] == 1 && adjacent(
                w as int,
                h as int,
                p as int,
                i,
            ),
        forall|t: int|
            old(stack)@.len() <= t < final(stack)@.len() ==> #[trigger] final(stack)@[t] < w * h,
        final(stack)@.subrange(old(stack)@.len() as int, final(stack)@.len() as int).no_duplicates(),
        unlabeled_set(final(labels)@).len() + (final(stack)@.len() - old(stack)@.len())
            == unlabeled_set(old(labels)@).len(),
        forall|dx: int, dy: int|
            king_step(dx, dy) && #[trigger] neighbour(w as int, h as int, p as int, dx, dy) is Some
                && g@[neighbour(w as int, h as int, p as int, dx, dy)->0] == 1 ==> final(labels)@[neighbour(w as int, h as int, p as int, dx, dy)->0] != UNLABELED,
{
    let ghost l0 = labels@;
    let ghost s0 = stack@;
    proof {
        lemma_unlabeled_finite(l0);
    }
    let mut k: usize = 0;
    while k < 8
        invariant
            l0.len() == w * h,
            w * h <= g@.len(),
            w * h <= usize::MAX,
            p < w * h,
            cid != UNLABELED,
            k <= 8,
            labels@.len() == w * h,
            forall|dx: int, dy: int|
                king_step(dx, dy) && #[trigger] neighbour(w as int, h as int, p as int, dx, dy) is Some
                    && g@[neighbour(w as int, h as int, p as int, dx, dy)->0] == 1 ==> l0[neighbour(w as int, h as int, p as int, dx, dy)->0] == UNLABELED
                    || l0[neighbour(w as int, h as int, p as int, dx, dy)->0] == cid,
            push_from(g@, w as int, h as int, p as int, k as int, marked_by(labels@, cid), stack@)
                == push_from(g@, w as int, h as int, p as int, 0, marked_by(l0, cid), s0),
            stack@.len() >= s0.len(),
            stack@.subrange(0, s0.len() as int) == s0,
            forall|i: int|
                0 <= i < w * h ==> (#[trigger] labels@[i] != l0[i]) == stack@.subrange(
                    s0.len() as int,
                    stack@.len() as int,
                ).contains(i as usize),
            forall|i: int|
                0 <= i < w * h && #[trigger] labels@[i] != l0[i] ==> l0[i] == UNLABELED
                    && labels@[i] == cid && g@[i] == 1 && adjacent(w as int, h as int, p as int, i),
            forall|t: int| s0.len() <= t < stack@.len() ==> #[trigger] stack@[t] < w * h,
            stack@.subrange(s0.len() as int, stack@.len() as int).no_duplicates(),
            unlabeled_set(labels@).finite(),
            unlabeled_set(labels@).len() + (stack@.len() - s0.len()) == unlabeled_set(l0).len(),
            forall|kk: int|
                0 <= kk < k && #[trigger] neighbour(
                    w as int,
                    h as int,
                    p as int,
                    scan_dx(kk),
                    scan_dy(kk),
                ) is Some && g@[neighbour(w as int, h as int, p as int, scan_dx(kk), scan_dy(kk))->0]
                    == 1 ==> labels@[neighbour(
                    w as int,
                    h as int,
                    p as int,
                    scan_dx(kk),
                    scan_dy(kk),
                )->0] != UNLABELED,
        decreases 8 - k,
    {
        let (dx, dy) = scan_offset(k);
        let ghost lb = labels@;
        let ghost sb = stack@;
        label_neighbour(labels, stack, g, w, h, p, dx, dy, cid);
        proof {
            assert(push_from(g@, w as int, h as int, p as int, k as int, marked_by(lb, cid), sb)
                == push_from(g@, w as int, h as int, p as int, k + 1, marked_by(labels@, cid), stack@)) by {
                match neighbour(w as int, h as int, p as int, dx as int, dy as int) {
                    Some(j) => {
                        lemma_neighbour_back(w as int, h as int, p as int, dx as int, dy as int);
                        assert(king_step(dx as int, dy as int));
                        if g@[j] == 1 {
                            assert(lb[j] == UNLABELED || lb[j] == cid) by {
                                if lb[j] != l0[j] {
                                    assert(lb[j] == cid);
                                }
                            }
                            if lb[j] == UNLABELED {
                                assert(!marked_by(lb, cid).contains(j));
                                assert(marked_by(labels@, cid) =~= marked_by(lb, cid).insert(j));
                            } else {
                                assert(marked_by(lb, cid).contains(j));
                                assert(marked_by(labels@, cid) =~= marked_by(lb, cid));
                            }
                        } else {
                            assert(marked_by(labels@, cid) =~= marked_by(lb, cid));
                        }
                    },
                    None => {
                        assert(marked_by(labels@, cid) =~= marked_by(lb, cid));
                    },
                }
            }
            let added_b = sb.subrange(s0.len() as int, sb.len() as int);
            let added = stack@.subrange(s0.len() as int, stack@.len() as int);
            if stack@ != sb {
                let j = neighbour(w as int, h as int, p as int, dx as int, dy as int)->0;
                lemma_neighbour_back(w as int, h as int, p as int, dx as int, dy as int);
                lemma_label_one(lb, j, cid);
                assert(adjacent(w as int, h as int, p as int, j)) by {
                    assert(king_step(dx as int, dy as int));
                    assert(neighbour(w as int, h as int, p as int, dx as int, dy as int) == Some(j));
                }
                assert(added =~= added_b.push(j as usize));
                assert(!added_b.contains(j as usize)) by {
                    if added_b.contains(j as usize) {
                        assert(lb[j] != l0[j]);
                    }
                }
                assert forall|i: int| 0 <= i < w * h implies (#[trigger] labels@[i] != l0[i])
                    == added.contains(i as usize) by {
                    if i == j {
                        assert(added[added.len() - 1] == j as usize);
                    } else {
                        assert(labels@[i] == lb[i]);
                        if added.contains(i as usize) {
                            let t = choose|t: int| 0 <= t < added.len() && added[t] == i as usize;
                            assert(t < added_b.len());
                            assert(added_b[t] == i as usize);
                        }
                        if added_b.contains(i as usize) {
                            let t = choose|t: int| 0 <= t < added_b.len() && added_b[t] == i as usize;
                            assert(added[t] == i as usize);
                        }
                    }
                }
                assert(stack@.subrange(0, s0.len() as int) =~= s0);
            } else {
                assert(added =~= added_b);
            }
            assert forall|kk: int|
                0 <= kk < k + 1 && #[trigger] neighbour(
                    w as int,
                    h as int,
                    p as int,
                    scan_dx(kk),
                    scan_dy(kk),
                ) is Some && g@[neighbour(w as int, h as int, p as int, scan_dx(kk), scan_dy(kk))->0]
                    == 1 implies labels@[neighbour(
                w as int,
                h as int,
                p as int,
                scan_dx(kk),
                scan_dy(kk),
            )->0] != UNLABELED by {
                let j = neighbour(w as int, h as int, p as int, scan_dx(kk), scan_dy(kk))->0;
                lemma_neighbour_back(w as int, h as int, p as int, scan_dx(kk), scan_dy(kk));
                if kk < k {
                    assert(lb[j] != UNLABELED);
                    if labels@[j] != lb[j] {
                        assert(labels@[j] != l0[j]);
                    }
                }
            }
        }
        k = k + 1;
    }
    proof {
        assert forall|dx: int, dy: int|
            king_step(dx, dy) && #[trigger] neighbour(w as int, h as int, p as int, dx, dy) is Some
                && g@[neighbour(w as int, h as int, p as int, dx, dy)->0] == 1 implies labels@[neighbour(
            w as int,
            h as int,
            p as int,
            dx,
            dy,
        )->0] != UNLABELED by {
            lemma_scan_covers(dx, dy);
            let kk = choose|kk: int| 0 <= kk < 8 && scan_dx(kk) == dx && scan_dy(kk) == dy;
            assert(neighbour(w as int, h as int, p as int, scan_dx(kk), scan_dy(kk)) is Some);
        }
    }
}

/// Flood the piece of the skeleton that holds `seed` with label `cid`,
/// depth first; return its pixels in the order they were taken off the stack.
fn flood_component(
    g: &[u8],
    w: usize,
    h: usize,
    labels: &mut Vec<usize>,
    seed: usize,
    cid: usize,
) -> (members: Vec<usize>)
    requires
        w * h <= g@.len(),
        w * h <= usize::MAX,
        old(labels)@.len() == w * h,
        seed < w * h,
        g@[seed as int] == 1,
        old(labels)@[seed as int] == UNLABELED,
        cid < UNLABELED,
        forall|i: int|
            0 <= i < w * h && #[trigger] old(labels)@[i] != UNLABELED ==> old(labels)@[i] < cid
                && g@[i] == 1,
        labels_closed(g@, w as int, h as int, old(labels)@, cid as int),
    ensures
        final(labels)@.len() == w * h,
        forall|i: int|
            0 <= i < w * h && #[trigger] final(labels)@[i] != old(labels)@[i] ==> old(labels)@[i]
                == UNLABELED && final(labels)@[i] == cid && g@[i] == 1,
        forall|i: int| 0 <= i < w * h ==> (#[trigger] final(labels)@[i] == cid) == members@.contains(i as usize),
        members@.no_duplicates(),
        members@.len() > 0,
        members@[0] == seed,
        forall|t: int| 0 <= t < members@.len() ==> #[trigger] members@[t] < w * h,
        labels_closed(g@, w as int, h as int, final(labels)@, cid + 1),
        forall|t: int|
            0 <= t < members@.len() ==> linked(g@, w as int, h as int, seed as int, #[trigger] members@[t] as int),
        is_flood_order(g@, w as int, h as int, seed as int, members@),
{
    let ghost wi = w as int;
    let ghost hi = h as int;
    let ghost l0 = labels@;
    let ghost mut n: nat = 0;
    labels[seed] = cid;
    proof {
        lemma_unlabeled_finite(labels@);
    }
    let mut stack: Vec<usize> = Vec::new();
    stack.push(seed);
    let mut members: Vec<usize> = Vec::new();
    proof {
        lemma_linked_start(g@, wi, hi, seed as int);
        assert forall|i: int| 0 <= i < w * h && #[trigger] labels@[i] == cid implies linked(
            g@,
            wi,
            hi,
            seed as int,
            i,
        ) by {
            if i != seed {
                assert(labels@[i] == l0[i]);
            }
        }
        assert forall|i: int| 0 <= i < wi * hi implies (#[trigger] labels@[i] == cid) == (
        members@.contains(i as usize) || stack@.contains(i as usize)) by {
            if i == seed {
                assert(stack@[0] == seed);
            } else {
                assert(labels@[i] == l0[i]);
            }
        }
        assert(marked_by(labels@, cid) =~= set![seed as int]) by {
            assert forall|i: int| marked_by(labels@, cid).contains(i) implies i == seed as int by {
                if i != seed as int {
                    assert(labels@[i] == l0[i]);
                }
            }
        }
        assert(stack@ =~= seq![seed]);
        assert(members@ =~= Seq::<usize>::empty());
    }
    while stack.len() > 0
        invariant
            wi == w,
            hi == h,
            w * h <= g@.len(),
            w * h <= usize::MAX,
            l0.len() == w * h,
            seed < w * h,
            cid < UNLABELED,
            forall|i: int|
                0 <= i < w * h && #[trigger] l0[i] != UNLABELED ==> l0[i] < cid && g@[i] == 1,
            labels_closed(g@, wi, hi, l0, cid as int),
            labels@.len() == w * h,
            forall|i: int|
                0 <= i < w * h && #[trigger] labels@[i] != l0[i] ==> l0[i] == UNLABELED
                    && labels@[i] == cid && g@[i] == 1,
            forall|i: int|
                0 <= i < w * h ==> (#[trigger] labels@[i] == cid) == (members@.contains(i as usize)
                    || stack@.contains(i as usize)),
            members@.no_duplicates(),
            stack@.no_duplicates(),
            forall|t: int| 0 <= t < members@.len() ==> !stack@.contains(#[trigger] members@[t]),
            forall|t: int| 0 <= t < members@.len() ==> #[trigger] members@[t] < w * h,
            forall|t: int| 0 <= t < stack@.len() ==> #[trigger] stack@[t] < w * h,
            members@.len() > 0 ==> members@[0] == seed,
            members@.len() == 0 ==> stack@ == seq![seed],
            forall|t: int, dx: int, dy: int|
                0 <= t < members@.len() && king_step(dx, dy) && #[trigger] neighbour(
                    wi,
                    hi,
                    members@[t] as int,
                    dx,
                    dy,
                ) is Some && g@[neighbour(wi, hi, members@[t] as int, dx, dy)->0] == 1
                    ==> labels@[neighbour(wi, hi, members@[t] as int, dx, dy)->0] == cid,
            unlabeled_set(labels@).finite(),
            forall|i: int|
                0 <= i < w * h && #[trigger] labels@[i] == cid ==> linked(g@, wi, hi, seed as int, i),
            flood_after(g@, wi, hi, seed as int, n) == (marked_by(labels@, cid), stack@, members@),
        decreases 2 * unlabeled_set(labels@).len() + stack@.len(),
    {
        let ghost members_b = members@;
        let ghost stack_b = stack@;
        let ghost labels_b = labels@;
        let p = stack.pop().unwrap();
        members.push(p);
        let ghost popped = stack@;
        proof {
            assert(popped =~= stack_b.subrange(0, stack_b.len() - 1));
            assert(p == stack_b[stack_b.len() - 1]);
            assert(labels_b[p as int] == cid) by {
                assert(stack_b.contains(p));
            }
            assert forall|dx: int, dy: int|
                king_step(dx, dy) && #[trigger] neighbour(wi, hi, p as int, dx, dy) is Some
                    && g@[neighbour(wi, hi, p as int, dx, dy)->0] == 1 implies labels@[neighbour(wi, hi, p as int, dx, dy)->0] == UNLABELED
                    || labels@[neighbour(wi, hi, p as int, dx, dy)->0] == cid by {
                let j = neighbour(wi, hi, p as int, dx, dy)->0;
                lemma_neighbour_back(wi, hi, p as int, dx, dy);
                if labels@[j] != UNLABELED && labels@[j] != cid {
                    assert(labels@[j] == l0[j]);
                    assert(l0[j] < cid);
                    assert(g@[p as int] == 1 && l0[p as int] == UNLABELED) by {
                        if labels@[p as int] == l0[p as int] {
                            assert(l0[p as int] == cid);
                        }
                    }
                    assert(neighbour(wi, hi, j, -dx, -dy) == Some(p as int));
                    assert(king_step(-dx, -dy));
                    assert(l0[p as int] == l0[j]);
                }
            }
        }
        let ghost before_n = flood_after(g@, wi, hi, seed as int, n);
        label_all_neighbours(labels, &mut stack, g, w, h, p, cid);
        proof {
            assert(popped =~= stack_b.drop_last());
            n = n + 1;
            assert(flood_after(g@, wi, hi, seed as int, n) == (marked_by(labels@, cid), stack@, members@));
        }
        proof {
            let added = stack@.subrange(popped.len() as int, stack@.len() as int);
            assert(stack@ =~= popped + added);
            // labels only move from unlabelled to `cid`
            assert forall|i: int| 0 <= i < w * h && #[trigger] labels@[i] != l0[i] implies l0[i]
                == UNLABELED && labels@[i] == cid && g@[i] == 1 by {
                if labels@[i] != labels_b[i] {
                } else {
                }
            }
            // the pieces' bookkeeping
            assert forall|i: int| 0 <= i < w * h implies (#[trigger] labels@[i] == cid) == (
            members@.contains(i as usize) || stack@.contains(i as usize)) by {
                if labels@[i] != labels_b[i] {
                    assert(added.contains(i as usize));
                    let t = choose|t: int| 0 <= t < added.len() && added[t] == i as usize;
                    assert(stack@[popped.len() + t] == i as usize);
                } else {
                    if i == p as int {
                        assert(members@[members@.len() - 1] == p);
                    } else {
                        if members_b.contains(i as usize) {
                            let t = choose|t: int| 0 <= t < members_b.len() && members_b[t] == i as usize;
                            assert(members@[t] == i as usize);
                        }
                        if stack_b.contains(i as usize) {
                            let t = choose|t: int| 0 <= t < stack_b.len() && stack_b[t] == i as usize;
                            assert(t < stack_b.len() - 1);
                            assert(stack@[t] == i as usize);
                        }
                        if members@.contains(i as usize) {
                            let t = choose|t: int| 0 <= t < members@.len() && members@[t] == i as usize;
                            assert(members_b[t] == i as usize);
                        }
                        if stack@.contains(i as usize) {
                            let t = choose|t: int| 0 <= t < stack@.len() && stack@[t] == i as usize;
                            if t < popped.len() {
                                assert(stack_b[t] == i as usize);
                            } else {
                                assert(added[t - popped.len()] == i as usize);
                                assert(labels@[i] != labels_b[i]);
                            }
                        }
                    }
                }
            }
            // no pixel twice
            assert(members@.no_duplicates()) by {
                assert forall|a: int, b: int|
                    0 <= a < b < members@.len() implies members@[a] != members@[b] by {
                    if b == members@.len() - 1 {
                        assert(stack_b.contains(p));
                        assert(!stack_b.contains(members_b[a]));
                    }
                }
            }
            assert(stack@.no_duplicates()) by {
                assert forall|a: int, b: int| 0 <= a < b < stack@.len() implies stack@[a] != stack@[b] by {
                    if b >= popped.len() && a < popped.len() {
                        let i = stack@[b] as int;
                        assert(added[b - popped.len()] == stack@[b]);
                        assert(labels@[i] != labels_b[i]);
                        assert(labels_b[i] == UNLABELED);
                        assert(stack_b[a] == stack@[a]);
                        assert(stack_b.contains(stack@[a]));
                        if stack@[a] == stack@[b] {
                            assert(labels_b[i] == cid);
                        }
                    } else if b >= popped.len() {
                        assert(added[a - popped.len()] == stack@[a]);
                        assert(added[b - popped.len()] == stack@[b]);
                    } else {
                        assert(stack_b[a] == stack@[a]);
                        assert(stack_b[b] == stack@[b]);
                    }
                }
            }
            assert forall|t: int| 0 <= t < members@.len() implies !stack@.contains(#[trigger] members@[t]) by {
                let m = members@[t];
                if stack@.contains(m) {
                    let u = choose|u: int| 0 <= u < stack@.len() && stack@[u] == m;
                    if u < popped.len() {
                        assert(stack_b[u] == m);
                        if t == members@.len() - 1 {
                            assert(stack_b[stack_b.len() - 1] == m);
                        } else {
                            assert(members_b[t] == m);
                            assert(stack_b.contains(m));
                        }
                    } else {
                        assert(added[u - popped.len()] == m);
                        assert(labels@[m as int] != labels_b[m as int]);
                        if t == members@.len() - 1 {
                        } else {
                            assert(members_b[t] == m);
                            assert(members_b.contains(m));
                        }
                        assert(labels_b[m as int] == cid);
                    }
                }
            }
            assert forall|t: int| 0 <= t < stack@.len() implies #[trigger] stack@[t] < w * h by {
                if t < popped.len() {
                    assert(stack_b[t] == stack@[t]);
                }
            }
            // the closure of `cid` around every finished member
            assert forall|t: int, dx: int, dy: int|
                0 <= t < members@.len() && king_step(dx, dy) && #[trigger] neighbour(
                    wi,
                    hi,
                    members@[t] as int,
                    dx,
                    dy,
                ) is Some && g@[neighbour(wi, hi, members@[t] as int, dx, dy)->0] == 1 implies labels@[neighbour(
                wi,
                hi,
                members@[t] as int,
                dx,
                dy,
            )->0] == cid by {
                let m = members@[t] as int;
                let j = neighbour(wi, hi, m, dx, dy)->0;
                lemma_neighbour_back(wi, hi, m, dx, dy);
                if t < members_b.len() {
                    assert(members_b[t] == members@[t]);
                    assert(labels_b[j] == cid);
                    if labels@[j] != labels_b[j] {
                    }
                } else {
                    assert(m == p as int);
                    assert(labels@[j] != UNLABELED);
                    if labels@[j] != cid {
                        assert(labels@[j] == l0[j]);
                        assert(l0[j] < cid);
                        assert(neighbour(wi, hi, j, -dx, -dy) == Some(m));
                        assert(king_step(-dx, -dy));
                        assert(g@[m] == 1) by {
                            if labels_b[m] != l0[m] {
                            } else {
                                assert(l0[m] == cid);
                            }
                        }
                        assert(l0[m] == l0[j]);
                        assert(labels_b[m] == l0[m]);
                    }
                }
            }
            assert(labels_closed(g@, wi, hi, l0, cid as int));
            lemma_unlabeled_finite(labels@);
            assert forall|i: int| 0 <= i < w * h && #[trigger] labels@[i] == cid implies linked(
                g@,
                wi,
                hi,
                seed as int,
                i,
            ) by {
                if labels@[i] != labels_b[i] {
                    assert(adjacent(wi, hi, p as int, i));
                    assert(linked(g@, wi, hi, seed as int, p as int));
                    lemma_linked_step(g@, wi, hi, seed as int, p as int, i);
                }
            }
        }
    }
    proof {
        assert(flood_after(g@, wi, hi, seed as int, n).1.len() == 0);
        assert(is_flood_order(g@, wi, hi, seed as int, members@));
        assert forall|t: int| 0 <= t < members@.len() implies linked(
            g@,
            wi,
            hi,
            seed as int,
            #[trigger] members@[t] as int,
        ) by {
            let m = members@[t] as int;
            assert(m < w * h);
            assert(m as usize == members@[t]);
            assert(members@.contains(m as usize));
            assert(labels@[m] == cid);
        }
        assert forall|i: int| 0 <= i < w * h implies (#[trigger] labels@[i] == cid) == members@.contains(
            i as usize,
        ) by {
            if stack@.contains(i as usize) {
                let t = choose|t: int| 0 <= t < stack@.len() && stack@[t] == i as usize;
            }
        }
        assert forall|i: int, dx: int, dy: int|
            0 <= i < w * h && labels@[i] < cid + 1 && king_step(dx, dy) && #[trigger] neighbour(
                wi,
                hi,
                i,
                dx,
                dy,
            ) is Some && g@[neighbour(wi, hi, i, dx, dy)->0] == 1 implies labels@[neighbour(
            wi,
            hi,
            i,
            dx,
            dy,
        )->0] == labels@[i] by {
            let j = neighbour(wi, hi, i, dx, dy)->0;
            lemma_neighbour_back(wi, hi, i, dx, dy);
            if labels@[i] == cid {
                assert(members@.contains(i as usize));
                let t = choose|t: int| 0 <= t < members@.len() && members@[t] == i as usize;
                assert(neighbour(wi, hi, members@[t] as int, dx, dy) is Some);
            } else {
                assert(labels@[i] == l0[i]);
                assert(l0[j] == l0[i]);
                assert(labels@[j] == l0[j]);
            }
        }
    }
    members
}

/// The pixel lists of a list of pieces.
pub open spec fn views(v: Seq<Vec<usize>>) -> Seq<Seq<usize>> {
    v.map_values(|m: Vec<usize>| m@)
}

/// `pieces` lists the skeleton `g` split into pieces closed under 8-adjacency:
/// every skeleton pixel lies in exactly one piece, once; a skeleton pixel next
/// to a piece belongs to it; each piece starts with its smallest index, and
/// the pieces come in increasing order of that index.
pub open spec fn is_piece_listing(g: Seq<u8>, w: int, h: int, pieces: Seq<Seq<usize>>) -> bool {
    &&& forall|c: int| 0 <= c < pieces.len() ==> #[trigger] pieces[c].len() > 0
    &&& forall|c: int| 0 <= c < pieces.len() ==> #[trigger] pieces[c].no_duplicates()
    &&& forall|c: int, t: int|
        0 <= c < pieces.len() && 0 <= t < pieces[c].len() ==> on_skeleton(g, w, h, #[trigger] pieces[c][t] as int)
    &&& forall|i: int| on_skeleton(g, w, h, i) ==> exists|c: int| 0 <= c < pieces.len() && #[trigger] pieces[c].contains(i as usize)
    &&& forall|c1: int, c2: int, t: int|
        0 <= c1 < pieces.len() && 0 <= c2 < pieces.len() && c1 != c2 && 0 <= t < pieces[c1].len()
            ==> !#[trigger] pieces[c2].contains(#[trigger] pieces[c1][t])
    &&& forall|c: int, t: int, dx: int, dy: int|
        0 <= c < pieces.len() && 0 <= t < pieces[c].len() && king_step(dx, dy) && #[trigger] neighbour(
            w,
            h,
            pieces[c][t] as int,
            dx,
            dy,
        ) is Some && g[neighbour(w, h, pieces[c][t] as int, dx, dy)->0] == 1 ==> pieces[c].contains(
            neighbour(w, h, pieces[c][t] as int, dx, dy)->0 as usize,
        )
    &&& forall|c: int, t: int| 0 <= c < pieces.len() && 0 <= t < pieces[c].len() ==> pieces[c][0] <= #[trigger] pieces[c][t]
    &&& forall|c: int, t: int|
        0 <= c < pieces.len() && 0 <= t < pieces[c].len() ==> linked(g, w, h, pieces[c][0] as int, #[trigger] pieces[c][t] as int)
    &&& forall|c1: int, c2: int| 0 <= c1 < c2 < pieces.len() ==> #[trigger] pieces[c1][0] < #[trigger] pieces[c2][0]
    &&& forall|c: int| 0 <= c < pieces.len() ==> is_flood_order(g, w, h, pieces[c][0] as int, #[trigger] pieces[c])
}

/// Split a `w` x `h` skeleton (pixels equal to 1) into its 8-connected
/// pieces by flood fill, in order of each piece's first pixel.
pub fn skeleton_components(g: &[u8], w: usize, h: usize) -> (comps: Vec<Vec<usize>>)
    requires
        w * h <= g@.len(),
    ensures
        is_piece_listing(g@, w as int, h as int, views(comps@)),
{
    let ghost wi = w as int;
    let ghost hi = h as int;
    let len = g.len();
    let n = w * h;
    let mut labels: Vec<usize> = Vec::new();
    let mut i: usize = 0;
    while i < n
        invariant
            i <= n,
            labels@.len() == i,
            forall|j: int| 0 <= j < i ==> #[trigger] labels@[j] == UNLABELED,
        decreases n - i,
    {
        labels.push(UNLABELED);
        i = i + 1;
    }
    let mut comps: Vec<Vec<usize>> = Vec::new();
    let mut seed: usize = 0;
    while seed < n
        invariant
            wi == w,
            hi == h,
            n == wi * hi,
            n <= g@.len(),
            seed <= n,
            labels@.len() == n,
            comps@.len() <= seed,
            forall|j: int|
                0 <= j < n && #[trigger] labels@[j] != UNLABELED ==> labels@[j] < comps@.len()
                    && g@[j] == 1,
            labels_closed(g@, wi, hi, labels@, comps@.len() as int),
            forall|c: int, j: int|
                0 <= c < comps@.len() && 0 <= j < n ==> (labels@[j] == c) == #[trigger] comps@[c]@.contains(
                    j as usize,
                ),
            forall|c: int| 0 <= c < comps@.len() ==> #[trigger] comps@[c]@.len() > 0,
            forall|c: int| 0 <= c < comps@.len() ==> #[trigger] comps@[c]@.no_duplicates(),
            forall|c: int, t: int|
                0 <= c < comps@.len() && 0 <= t < comps@[c]@.len() ==> #[trigger] comps@[c]@[t] < n,
            forall|c: int, t: int|
                0 <= c < comps@.len() && 0 <= t < comps@[c]@.len() ==> comps@[c]@[0] <= #[trigger] comps@[c]@[t],
            forall|c: int| 0 <= c < comps@.len() ==> #[trigger] comps@[c]@[0] < seed,
            forall|c: int, t: int|
                0 <= c < comps@.len() && 0 <= t < comps@[c]@.len() ==> linked(
                    g@,
                    wi,
                    hi,
                    comps@[c]@[0] as int,
                    #[trigger] comps@[c]@[t] as int,
                ),
            forall|c1: int, c2: int|
                0 <= c1 < c2 < comps@.len() ==> #[trigger] comps@[c1]@[0] < #[trigger] comps@[c2]@[0],
            forall|j: int| 0 <= j < seed && g@[j] == 1 ==> #[trigger] labels@[j] != UNLABELED,
            forall|c: int| 0 <= c < comps@.len() ==> is_flood_order(g@, wi, hi, comps@[c]@[0] as int, #[trigger] comps@[c]@),
        decreases n - seed,
    {
        if g[seed] == 1 && labels[seed] == UNLABELED {
            let cid = comps.len();
            let ghost lb = labels@;
            let members = flood_component(g, w, h, &mut labels, seed, cid);
            let ghost cb = comps@;
            comps.push(members);
            proof {
                assert forall|j: int|
                    0 <= j < n && #[trigger] labels@[j] != UNLABELED implies labels@[j] < comps@.len()
                        && g@[j] == 1 by {
                    if labels@[j] != lb[j] {
                    }
                }
                assert forall|c: int, j: int|
                    0 <= c < comps@.len() && 0 <= j < n implies (labels@[j] == c)
                        == #[trigger] comps@[c]@.contains(j as usize) by {
                    if c < cid {
                        assert(comps@[c] == cb[c]);
                        if labels@[j] != lb[j] {
                            assert(lb[j] == UNLABELED);
                            assert(!cb[c]@.contains(j as usize));
                        }
                    }
                }
                assert forall|t: int| 0 <= t < members@.len() implies seed <= #[trigger] members@[t] by {
                    let m = members@[t] as int;
                    assert(labels@[m] == cid);
                    if m < seed {
                        assert(lb[m] != UNLABELED);
                        assert(labels@[m] == lb[m]);
                    }
                }
                assert forall|c: int, t: int|
                    0 <= c < comps@.len() && 0 <= t < comps@[c]@.len() implies comps@[c]@[0]
                        <= #[trigger] comps@[c]@[t] by {
                    if c < cid {
                        assert(comps@[c] == cb[c]);
                    }
                }
                assert forall|c1: int, c2: int|
                    0 <= c1 < c2 < comps@.len() implies #[trigger] comps@[c1]@[0]
                        < #[trigger] comps@[c2]@[0] by {
                    assert(comps@[c1] == cb[c1]);
                    if c2 < cid {
                        assert(comps@[c2] == cb[c2]);
                    }
                }
                assert forall|c: int, t: int|
                    0 <= c < comps@.len() && 0 <= t < comps@[c]@.len() implies linked(
                    g@,
                    wi,
                    hi,
                    comps@[c]@[0] as int,
                    #[trigger] comps@[c]@[t] as int,
                ) by {
                    if c < cid {
                        assert(comps@[c] == cb[c]);
                    }
                }
                assert forall|c: int| 0 <= c < comps@.len() implies #[trigger] comps@[c]@[0] < seed + 1 by {
                    if c < cid {
                        assert(comps@[c] == cb[c]);
                    }
                }
                assert forall|c: int, t: int|
                    0 <= c < comps@.len() && 0 <= t < comps@[c]@.len() implies #[trigger] comps@[c]@[t] < n by {
                    if c < cid {
                        assert(comps@[c] == cb[c]);
                    }
                }
                assert forall|j: int| 0 <= j < seed + 1 && g@[j] == 1 implies #[trigger] labels@[j]
                    != UNLABELED by {
                    if labels@[j] != lb[j] {
                    }
                }
            }
        }
        seed = seed + 1;
    }
    proof {
        let pieces = views(comps@);
        assert forall|c: int, t: int|
            0 <= c < pieces.len() && 0 <= t < pieces[c].len() implies on_skeleton(
            g@,
            wi,
            hi,
            #[trigger] pieces[c][t] as int,
        ) by {
            let j = pieces[c][t] as int;
            assert(comps@[c]@.contains(j as usize));
        }
        assert forall|j: int| on_skeleton(g@, wi, hi, j) implies exists|c: int|
            0 <= c < pieces.len() && #[trigger] pieces[c].contains(j as usize) by {
            let c = labels@[j] as int;
            assert(comps@[c]@.contains(j as usize));
            assert(pieces[c].contains(j as usize));
        }
        assert forall|c1: int, c2: int, t: int|
            0 <= c1 < pieces.len() && 0 <= c2 < pieces.len() && c1 != c2 && 0 <= t < pieces[c1].len()
                implies !#[trigger] pieces[c2].contains(#[trigger] pieces[c1][t]) by {
            let j = pieces[c1][t] as int;
            assert(comps@[c1]@.contains(j as usize));
        }
        assert forall|c: int, t: int, dx: int, dy: int|
            0 <= c < pieces.len() && 0 <= t < pieces[c].len() && king_step(dx, dy) && #[trigger] neighbour(
                wi,
                hi,
                pieces[c][t] as int,
                dx,
                dy,
            ) is Some && g@[neighbour(wi, hi, pieces[c][t] as int, dx, dy)->0] == 1 implies pieces[c].contains(
            neighbour(wi, hi, pieces[c][t] as int, dx, dy)->0 as usize,
        ) by {
            let m = pieces[c][t] as int;
            assert(comps@[c]@.contains(m as usize));
            lemma_neighbour_back(wi, hi, m, dx, dy);
            let j = neighbour(wi, hi, m, dx, dy)->0;
            assert(labels@[j] == labels@[m]);
        }
        assert forall|c: int, t: int|
            0 <= c < pieces.len() && 0 <= t < pieces[c].len() implies pieces[c][0] <= #[trigger] pieces[c][t] by {
            assert(comps@[c]@[t] == pieces[c][t]);
        }
        assert forall|c1: int, c2: int| 0 <= c1 < c2 < pieces.len() implies #[trigger] pieces[c1][0]
            < #[trigger] pieces[c2][0] by {
            assert(comps@[c1]@[0] < comps@[c2]@[0]);
        }
        assert forall|c: int, t: int|
            0 <= c < pieces.len() && 0 <= t < pieces[c].len() implies linked(
            g@,
            wi,
            hi,
            pieces[c][0] as int,
            #[trigger] pieces[c][t] as int,
        ) by {
            assert(comps@[c]@[t] == pieces[c][t]);
            assert(comps@[c]@[0] == pieces[c][0]);
        }
        assert forall|c: int| 0 <= c < pieces.len() implies is_flood_order(g@, wi, hi, pieces[c][0] as int, #[trigger] pieces[c]) by {
            assert(comps@[c]@ == pieces[c]);
        }
    }
    comps
}

/// The leftmost column of a piece.
pub open spec fn leftmost(m: Seq<usize>, w: int) -> int
    decreases m.len(),
{
    if m.len() <= 1 {
        if m.len() == 1 {
            (m[0] as int) % w
        } else {
            0
        }
    } else {
        let rest = leftmost(m.drop_last(), w);
        let c = (m.last() as int) % w;
        if c < rest {
            c
        } else {
            rest
        }
    }
}

/// Piece `a` comes before piece `b` left to right: its leftmost column is
/// smaller, or the same with a smaller first pixel.
pub open spec fn left_of(a: Seq<usize>, b: Seq<usize>, w: int) -> bool {
    leftmost(a, w) < leftmost(b, w) || (leftmost(a, w) == leftmost(b, w) && a[0] < b[0])
}

/// The leftmost column of a non-empty piece.
fn leftmost_column(m: &Vec<usize>, w: usize) -> (r: usize)
    requires
        m@.len() > 0,
        w > 0,
    ensures
        r as int == leftmost(m@, w as int),
{
    let mut best = m[0] % w;
    let mut k: usize = 1;
    while k < m.len()
        invariant
            w > 0,
            1 <= k <= m@.len(),
            best as int == leftmost(m@.subrange(0, k as int), w as int),
        decreases m@.len() - k,
    {
        let c = m[k] % w;
        proof {
            let pre = m@.subrange(0, k + 1);
            assert(pre.drop_last() =~= m@.subrange(0, k as int));
            assert(pre.last() == m@[k as int]);
        }
        if c < best {
            best = c;
        }
        k = k + 1;
    }
    proof {
        assert(m@.subrange(0, m@.len() as int) =~= m@);
    }
    best
}

/// Order the pieces left to right by their leftmost column; pieces that
/// start in the same column keep their order (their first pixels increase).
pub fn order_left_to_right(comps: Vec<Vec<usize>>, w: usize) -> (out: Vec<Vec<usize>>)
    requires
        w > 0,
        forall|c: int| 0 <= c < comps@.len() ==> #[trigger] comps@[c]@.len() > 0,
        forall|c1: int, c2: int|
            0 <= c1 < c2 < comps@.len() ==> #[trigger] comps@[c1]@[0] < #[trigger] comps@[c2]@[0],
    ensures
        out@.len() == comps@.len(),
        forall|m: Seq<usize>| views(out@).contains(m) == views(comps@).contains(m),
        forall|a: int, b: int|
            0 <= a < b < out@.len() ==> left_of(#[trigger] views(out@)[a], #[trigger] views(out@)[b], w as int),
{
    let ghost input = views(comps@);
    let ghost total = comps@.len();
    let mut rest = comps;
    let mut out: Vec<Vec<usize>> = Vec::new();
    let mut keys: Vec<usize> = Vec::new();
    let ghost mut taken: int = 0;
    while rest.len() > 0
        invariant
            w > 0,
            0 <= taken <= total,
            input.len() == total,
            views(rest@) == input.subrange(taken, total as int),
            out@.len() == taken,
            keys@.len() == taken,
            forall|c: int| 0 <= c < input.len() ==> #[trigger] input[c].len() > 0,
            forall|c1: int, c2: int| 0 <= c1 < c2 < input.len() ==> #[trigger] input[c1][0] < #[trigger] input[c2][0],
            forall|m: Seq<usize>| views(out@).contains(m) == input.subrange(0, taken).contains(m),
            forall|a: int| 0 <= a < out@.len() ==> #[trigger] keys@[a] as int == leftmost(views(out@)[a], w as int),
            forall|a: int| 0 <= a < out@.len() ==> #[trigger] views(out@)[a].len() > 0,
            forall|a: int, b: int|
                0 <= a < b < out@.len() ==> left_of(#[trigger] views(out@)[a], #[trigger] views(out@)[b], w as int),
            forall|a: int|
                0 <= a < out@.len() ==> exists|c: int| 0 <= c < taken && #[trigger] views(out@)[a] == input[c],
        decreases rest@.len(),
    {
        let ghost rest_b = rest@;
        proof {
            assert(views(rest_b).len() == total - taken);
            assert(views(rest_b)[0] == input.subrange(taken, total as int)[0]);
        }
        let c = rest.remove(0);
        let ghost cv = c@;
        proof {
            assert(cv == rest_b[0]@);
            assert(cv == input[taken]);
            assert forall|k: int| 0 <= k < views(rest@).len() implies views(rest@)[k]
                == input.subrange(taken + 1, total as int)[k] by {
                assert(rest@[k] == rest_b[k + 1]);
                assert(views(rest_b)[k + 1] == input.subrange(taken, total as int)[k + 1]);
            }
            assert(views(rest@) =~= input.subrange(taken + 1, total as int));
        }
        let key = leftmost_column(&c, w);
        let mut pos: usize = 0;
        while pos < keys.len() && keys[pos] <= key
            invariant
                pos <= keys@.len(),
                keys@.len() == out@.len(),
                forall|a: int| 0 <= a < pos ==> #[trigger] keys@[a] <= key,
            decreases keys@.len() - pos,
        {
            pos = pos + 1;
        }
        let ghost ob = views(out@);
        let ghost kb = keys@;
        proof {
            // every piece already placed starts before the new one
            assert forall|a: int| 0 <= a < ob.len() implies #[trigger] ob[a][0] < cv[0] by {
                let k = choose|k: int| 0 <= k < taken && #[trigger] views(out@)[a] == input[k];
                assert(input[k][0] < input[taken][0]);
            }
            // keys are sorted, so the break is a clean split
            assert forall|a: int| pos <= a < ob.len() implies key < #[trigger] kb[a] by {
                if pos < kb.len() {
                    assert(kb[pos as int] > key);
                    if a > pos {
                        assert(left_of(ob[pos as int], ob[a], w as int));
                    }
                }
            }
        }
        out.insert(pos, c);
        keys.insert(pos, key);
        proof {
            let ov = views(out@);
            assert(ov =~= ob.insert(pos as int, cv));
            assert forall|a: int, b: int|
                0 <= a < b < out@.len() implies left_of(#[trigger] ov[a], #[trigger] ov[b], w as int) by {
                if a < pos && b < pos {
                    assert(ov[a] == ob[a] && ov[b] == ob[b]);
                } else if a < pos && b == pos {
                    assert(ov[a] == ob[a]);
                    assert(kb[a] <= key);
                } else if a < pos {
                    assert(ov[a] == ob[a] && ov[b] == ob[b - 1]);
                } else if a == pos {
                    assert(ov[b] == ob[b - 1]);
                    assert(key < kb[b - 1]);
                } else {
                    assert(ov[a] == ob[a - 1] && ov[b] == ob[b - 1]);
                }
            }
            assert forall|a: int| 0 <= a < out@.len() implies #[trigger] keys@[a] as int == leftmost(
                views(out@)[a],
                w as int,
            ) by {
                if a < pos {
                    assert(keys@[a] == kb[a] && ov[a] == ob[a]);
                } else if a > pos {
                    assert(keys@[a] == kb[a - 1] && ov[a] == ob[a - 1]);
                }
            }
            assert forall|a: int| 0 <= a < out@.len() implies #[trigger] views(out@)[a].len() > 0 by {
                if a < pos {
                    assert(ov[a] == ob[a]);
                } else if a > pos {
                    assert(ov[a] == ob[a - 1]);
                }
            }
            assert forall|a: int| 0 <= a < out@.len() implies exists|k: int|
                0 <= k < taken + 1 && #[trigger] views(out@)[a] == input[k] by {
                if a < pos {
                    assert(ov[a] == ob[a]);
                    let k = choose|k: int| 0 <= k < taken && #[trigger] ob[a] == input[k];
                    assert(views(out@)[a] == input[k]);
                } else if a > pos {
                    assert(ov[a] == ob[a - 1]);
                    let k = choose|k: int| 0 <= k < taken && #[trigger] ob[a - 1] == input[k];
                    assert(views(out@)[a] == input[k]);
                } else {
                    assert(views(out@)[a] == input[taken]);
                }
            }
            assert forall|m: Seq<usize>| views(out@).contains(m) == input.subrange(0, taken + 1).contains(
                m,
            ) by {
                let pre = input.subrange(0, taken);
                let pre1 = input.subrange(0, taken + 1);
                if ov.contains(m) {
                    let a = choose|a: int| 0 <= a < ov.len() && ov[a] == m;
                    if a == pos {
                        assert(pre1[taken] == m);
                    } else {
                        let b = if a < pos { a } else { a - 1 };
                        assert(ob[b] == m);
                        assert(ob.contains(m));
                        assert(pre.contains(m));
                        let k = choose|k: int| 0 <= k < pre.len() && pre[k] == m;
                        assert(pre1[k] == m);
                    }
                }
                if pre1.contains(m) {
                    let k = choose|k: int| 0 <= k < pre1.len() && pre1[k] == m;
                    if k == taken {
                        assert(ov[pos as int] == m);
                    } else {
                        assert(pre[k] == m);
                        assert(ob.contains(m));
                        let b = choose|b: int| 0 <= b < ob.len() && ob[b] == m;
                        if b < pos {
                            assert(ov[b] == m);
                        } else {
                            assert(ov[b + 1] == m);
                        }
                    }
                }
            }
            taken = taken + 1;
        }
    }
    proof {
        assert(input.subrange(0, total as int) =~= input);
    }
    out
}

/// How many skeleton pixels touch pixel `i`, counting the first `k` steps of
/// the scan order.
pub open spec fn degree_upto(g: Seq<u8>, w: int, h: int, i: int, k: int) -> int
    decreases k,
{
    if k <= 0 {
        0
    } else {
        degree_upto(g, w, h, i, k - 1) + if neighbour(w, h, i, scan_dx(k - 1), scan_dy(k - 1)) is Some
            && g[neighbour(w, h, i, scan_dx(k - 1), scan_dy(k - 1))->0] == 1 {
            1int
        } else {
            0int
        }
    }
}

/// How many of the eight pixels around `i` are on the skeleton.
pub open spec fn degree(g: Seq<u8>, w: int, h: int, i: int) -> int {
    degree_upto(g, w, h, i, 8)
}

fn degree_of(g: &[u8], w: usize, h: usize, i: usize) -> (d: usize)
    requires
        i < w * h,
        w * h <= g@.len(),
        w * h <= usize::MAX,
    ensures
        d as int == degree(g@, w as int, h as int, i as int),
{
    let mut d: usize = 0;
    let mut k: usize = 0;
    while k < 8
        invariant
            i < w * h,
            w * h <= g@.len(),
            w * h <= usize::MAX,
            k <= 8,
            d as int == degree_upto(g@, w as int, h as int, i as int, k as int),
            d <= k,
        decreases 8 - k,
    {
        let (dx, dy) = scan_offset(k);
        match neighbour_of(w, h, i, dx, dy) {
            Some(j) => {
                proof {
                    lemma_neighbour_back(w as int, h as int, i as int, dx as int, dy as int);
                }
                if g[j] == 1 {
                    d = d + 1;
                }
            },
            None => {},
        }
        k = k + 1;
    }
    d
}

/// Pixel `a` comes before pixel `b` by column, then by row.
pub open spec fn before_xy(a: int, b: int, w: int) -> bool {
    a % w < b % w || (a % w == b % w && a / w < b / w)
}

/// Some pixel of the piece is a stroke end (exactly one skeleton neighbour).
pub open spec fn has_endpoint(members: Seq<usize>, g: Seq<u8>, w: int, h: int) -> bool {
    exists|t: int| 0 <= t < members.len() && degree(g, w, h, #[trigger] members[t] as int) == 1
}

/// Where the walk of a piece starts: its stroke end with the smallest
/// (column, row), or, when it has no stroke end, its pixel with the smallest
/// (column, row).
pub open spec fn is_start(members: Seq<usize>, g: Seq<u8>, w: int, h: int, s: int) -> bool {
    &&& members.contains(s as usize)
    &&& if has_endpoint(members, g, w, h) {
        &&& degree(g, w, h, s) == 1
        &&& forall|t: int|
            0 <= t < members.len() && degree(g, w, h, #[trigger] members[t] as int) == 1 && members[t]
                != s ==> before_xy(s, members[t] as int, w)
    } else {
        forall|t: int|
            0 <= t < members.len() && #[trigger] members[t] != s ==> before_xy(s, members[t] as int, w)
    }
}

fn before_in_scan(a: usize, b: usize, w: usize) -> (r: bool)
    requires
        w > 0,
    ensures
        r == before_xy(a as int, b as int, w as int),
{
    let (ax, bx) = (a % w, b % w);
    ax < bx || (ax == bx && a / w < b / w)
}

/// The walk's first pixel.
fn start_of(members: &Vec<usize>, g: &[u8], w: usize, h: usize) -> (s: usize)
    requires
        members@.len() > 0,
        w > 0,
        w * h <= g@.len(),
        w * h <= usize::MAX,
        forall|t: int| 0 <= t < members@.len() ==> #[trigger] members@[t] < w * h,
        members@.no_duplicates(),
    ensures
        is_start(members@, g@, w as int, h as int, s as int),
{
    let ghost wi = w as int;
    let ghost hi = h as int;
    let mut best = members[0];
    let mut best_t: usize = 0;
    let mut end: Option<usize> = None;
    let mut k: usize = 0;
    while k < members.len()
        invariant
            wi == w,
            hi == h,
            w > 0,
            w * h <= g@.len(),
            w * h <= usize::MAX,
            forall|t: int| 0 <= t < members@.len() ==> #[trigger] members@[t] < w * h,
            members@.no_duplicates(),
            members@.len() > 0,
            k <= members@.len(),
            best_t < members@.len(),
            best == members@[best_t as int],
            k > 0 ==> best_t < k,
            k == 0 ==> best_t == 0,
            forall|t: int|
                0 <= t < k && #[trigger] members@[t] != best ==> before_xy(best as int, members@[t] as int, wi),
            match end {
                None => forall|t: int| 0 <= t < k ==> degree(g@, wi, hi, #[trigger] members@[t] as int) != 1,
                Some(e) => {
                    &&& members@.contains(e)
                    &&& degree(g@, wi, hi, e as int) == 1
                    &&& forall|t: int|
                        0 <= t < k && degree(g@, wi, hi, #[trigger] members@[t] as int) == 1
                            && members@[t] != e ==> before_xy(e as int, members@[t] as int, wi)
                },
            },
        decreases members@.len() - k,
    {
        let m = members[k];
        proof {
            vstd::arithmetic::div_mod::lemma_fundamental_div_mod(m as int, wi);
            vstd::arithmetic::div_mod::lemma_fundamental_div_mod(best as int, wi);
            if let Some(e) = end {
                vstd::arithmetic::div_mod::lemma_fundamental_div_mod(e as int, wi);
            }
        }
        if k > 0 && before_in_scan(m, best, w) {
            best = m;
            best_t = k;
        }
        if degree_of(g, w, h, m) == 1 {
            match end {
                None => {
                    end = Some(m);
                },
                Some(e) => {
                    if before_in_scan(m, e, w) {
                        end = Some(m);
                    }
                },
            }
        }
        k = k + 1;
    }
    match end {
        Some(e) => e,
        None => best,
    }
}

pub open spec fn signum(v: int) -> int {
    if v > 0 {
        1
    } else if v < 0 {
        -1
    } else {
        0
    }
}

pub open spec fn signed_square(v: int) -> int {
    if v >= 0 {
        v * v
    } else {
        -(v * v)
    }
}

/// How well scan step `k` continues in direction `dir`: twice the signed
/// square of its cosine-weighted length `dot(step, dir) / |step|`. It orders
/// the steps exactly as that score does.
pub open spec fn step_key(k: int, dir: (int, int)) -> int {
    let dot = scan_dx(k) * dir.0 + scan_dy(k) * dir.1;
    signed_square(dot) * if scan_dx(k) != 0 && scan_dy(k) != 0 {
        1int
    } else {
        2int
    }
}

/// Scan step `k` from `cur` reaches a skeleton pixel not yet seen.
pub open spec fn open_step(g: Seq<u8>, w: int, h: int, seen: Set<int>, cur: int, k: int) -> bool {
    match neighbour(w, h, cur, scan_dx(k), scan_dy(k)) {
        Some(j) => g[j] == 1 && !seen.contains(j),
        None => false,
    }
}

pub open spec fn has_open_step(g: Seq<u8>, w: int, h: int, seen: Set<int>, cur: int) -> bool {
    exists|k: int| 0 <= k < 8 && #[trigger] open_step(g, w, h, seen, cur, k)
}

/// Scan step `k` is the open step that continues `dir` best; the first in
/// scan order among equally good ones.
pub open spec fn best_step(
    g: Seq<u8>,
    w: int,
    h: int,
    seen: Set<int>,
    cur: int,
    dir: (int, int),
    k: int,
) -> bool {
    &&& 0 <= k < 8
    &&& open_step(g, w, h, seen, cur, k)
    &&& forall|k2: int|
        0 <= k2 < 8 && #[trigger] open_step(g, w, h, seen, cur, k2) ==> step_key(k2, dir) <= step_key(
            k,
            dir,
        )
    &&& forall|k2: int|
        0 <= k2 < k && #[trigger] open_step(g, w, h, seen, cur, k2) ==> step_key(k2, dir) < step_key(
            k,
            dir,
        )
}

/// The pixels marked in a visited table.
pub open spec fn marked(visited: Seq<bool>) -> Set<int> {
    Set::new(|i: int| 0 <= i < visited.len() && visited[i])
}

/// The open step from `cur` that continues `(d0, d1)` best, if any.
fn best_open_step(g: &[u8], w: usize, h: usize, visited: &Vec<bool>, cur: usize, d0: i8, d1: i8) -> (r:
    Option<usize>)
    requires
        cur < w * h,
        w * h <= g@.len(),
        w * h <= usize::MAX,
        visited@.len() == w * h,
        -1 <= d0 <= 1,
        -1 <= d1 <= 1,
    ensures
        r is None <==> !has_open_step(g@, w as int, h as int, marked(visited@), cur as int),
        r matches Some(j) ==> exists|k: int|
            best_step(g@, w as int, h as int, marked(visited@), cur as int, (d0 as int, d1 as int), k)
                && #[trigger] neighbour(w as int, h as int, cur as int, scan_dx(k), scan_dy(k)) == Some(
                j as int,
            ),
{
    let ghost wi = w as int;
    let ghost hi = h as int;
    let ghost seen = marked(visited@);
    let ghost dir = (d0 as int, d1 as int);
    let mut best: Option<usize> = None;
    let mut best_key: i32 = 0;
    let ghost mut best_k: int = 0;
    let mut k: usize = 0;
    while k < 8
        invariant
            wi == w,
            hi == h,
            seen == marked(visited@),
            dir == (d0 as int, d1 as int),
            cur < w * h,
            w * h <= g@.len(),
            w * h <= usize::MAX,
            visited@.len() == w * h,
            -1 <= d0 <= 1,
            -1 <= d1 <= 1,
            k <= 8,
            best is None ==> forall|k2: int| 0 <= k2 < k ==> !#[trigger] open_step(g@, wi, hi, seen, cur as int, k2),
            best matches Some(j) ==> {
                &&& 0 <= best_k < k
                &&& open_step(g@, wi, hi, seen, cur as int, best_k)
                &&& best_key as int == step_key(best_k, dir)
                &&& neighbour(wi, hi, cur as int, scan_dx(best_k), scan_dy(best_k)) == Some(j as int)
                &&& forall|k2: int|
                    0 <= k2 < k && #[trigger] open_step(g@, wi, hi, seen, cur as int, k2) ==> step_key(k2, dir)
                        <= step_key(best_k, dir)
                &&& forall|k2: int|
                    0 <= k2 < best_k && #[trigger] open_step(g@, wi, hi, seen, cur as int, k2) ==> step_key(
                        k2,
                        dir,
                    ) < step_key(best_k, dir)
            },
        decreases 8 - k,
    {
        let (dx, dy) = scan_offset(k);
        match neighbour_of(w, h, cur, dx, dy) {
            Some(j) => {
                proof {
                    lemma_neighbour_back(wi, hi, cur as int, dx as int, dy as int);
                }
                if g[j] == 1 && !visited[j] {
                    proof {
                        assert(-1 <= (dx as int) * (d0 as int) <= 1 && -1 <= (dy as int) * (d1 as int) <= 1)
                            by (nonlinear_arith)
                            requires
                                -1 <= dx <= 1,
                                -1 <= d0 <= 1,
                                -1 <= dy <= 1,
                                -1 <= d1 <= 1,
                        ;
                    }
                    let dot: i32 = (dx as i32) * (d0 as i32) + (dy as i32) * (d1 as i32);
                    proof {
                        assert(0 <= (dot as int) * (dot as int) <= 4) by (nonlinear_arith)
                            requires
                                -2 <= dot <= 2,
                        ;
                    }
                    let sq: i32 = dot * dot;
                    let signed: i32 = if dot >= 0 {
                        sq
                    } else {
                        -sq
                    };
                    let key: i32 = if dx != 0 && dy != 0 {
                        signed
                    } else {
                        signed * 2
                    };
                    assert(key as int == step_key(k as int, dir));
                    assert(open_step(g@, wi, hi, seen, cur as int, k as int));
                    let take = match best {
                        None => true,
                        Some(_) => key > best_key,
                    };
                    if take {
                        best = Some(j);
                        best_key = key;
                        proof {
                            best_k = k as int;
                        }
                    }
                } else {
                    assert(!open_step(g@, wi, hi, seen, cur as int, k as int));
                }
            },
            None => {
                assert(!open_step(g@, wi, hi, seen, cur as int, k as int));
            },
        }
        k = k + 1;
    }
    proof {
        match best {
            Some(j) => {
                assert(best_step(g@, wi, hi, seen, cur as int, dir, best_k));
            },
            None => {},
        }
    }
    best
}

/// Squared distance between pixels `a` and `b`.
pub open spec fn dist2(a: int, b: int, w: int) -> int {
    (a % w - b % w) * (a % w - b % w) + (a / w - b / w) * (a / w - b / w)
}

/// Member `t` is the nearest pixel of the piece not yet seen; the first in
/// the piece's order among equally near ones.
pub open spec fn best_restart(members: Seq<usize>, seen: Set<int>, cur: int, w: int, t: int) -> bool {
    &&& 0 <= t < members.len()
    &&& !seen.contains(members[t] as int)
    &&& forall|t2: int|
        0 <= t2 < members.len() && !seen.contains(#[trigger] members[t2] as int) ==> dist2(
            cur,
            members[t] as int,
            w,
        ) <= dist2(cur, members[t2] as int, w)
    &&& forall|t2: int|
        0 <= t2 < t && !seen.contains(#[trigger] members[t2] as int) ==> dist2(cur, members[t2] as int, w)
            > dist2(cur, members[t] as int, w)
}

fn squared_distance(a: usize, b: usize, w: usize, h: usize) -> (d: u128)
    requires
        a < w * h,
        b < w * h,
        w * h <= usize::MAX,
    ensures
        d as int == dist2(a as int, b as int, w as int),
{
    proof {
        lemma_index(w as int, h as int, a as int);
        lemma_index(w as int, h as int, b as int);
    }
    let (ax, ay) = (a % w, a / w);
    let (bx, by) = (b % w, b / w);
    let dx: usize = if ax >= bx {
        ax - bx
    } else {
        bx - ax
    };
    let dy: usize = if ay >= by {
        ay - by
    } else {
        by - ay
    };
    proof {
        let (wi, hi) = (w as int, h as int);
        assert(wi * hi >= wi + hi - 1) by (nonlinear_arith)
            requires
                wi >= 1,
                hi >= 1,
        ;
        assert(dx + dy <= 0xffff_ffff_ffff_ffffu64);
        let (m, n) = (dx as int, dy as int);
        assert(m * m + n * n <= 0xffff_ffff_ffff_ffffu64 * 0xffff_ffff_ffff_ffffu64) by (nonlinear_arith)
            requires
                0 <= m,
                0 <= n,
                m + n <= 0xffff_ffff_ffff_ffffu64,
        ;
        let (sx, sy) = (ax as int - bx as int, ay as int - by as int);
        assert(sx * sx == m * m) by (nonlinear_arith)
            requires
                m == sx || m == -sx,
        ;
        assert(sy * sy == n * n) by (nonlinear_arith)
            requires
                n == sy || n == -sy,
        ;
    }
    let dx2 = (dx as u128) * (dx as u128);
    let dy2 = (dy as u128) * (dy as u128);
    dx2 + dy2
}

/// The nearest member of the piece not yet visited, if any.
fn nearest_unvisited(members: &Vec<usize>, visited: &Vec<bool>, cur: usize, w: usize, h: usize) -> (r:
    Option<usize>)
    requires
        cur < w * h,
        w * h <= usize::MAX,
        visited@.len() == w * h,
        forall|t: int| 0 <= t < members@.len() ==> #[trigger] members@[t] < w * h,
    ensures
        r is None <==> forall|t: int|
            0 <= t < members@.len() ==> marked(visited@).contains(#[trigger] members@[t] as int),
        r matches Some(j) ==> exists|t: int|
            best_restart(members@, marked(visited@), cur as int, w as int, t) && #[trigger] members@[t] == j,
{
    let ghost seen = marked(visited@);
    let mut best: Option<usize> = None;
    let mut best_d: u128 = 0;
    let ghost mut best_t: int = 0;
    let mut t: usize = 0;
    while t < members.len()
        invariant
            seen == marked(visited@),
            cur < w * h,
            w * h <= usize::MAX,
            visited@.len() == w * h,
            forall|u: int| 0 <= u < members@.len() ==> #[trigger] members@[u] < w * h,
            t <= members@.len(),
            best is None ==> forall|u: int| 0 <= u < t ==> seen.contains(#[trigger] members@[u] as int),
            best matches Some(j) ==> {
                &&& 0 <= best_t < t
                &&& members@[best_t] == j
                &&& !seen.contains(j as int)
                &&& best_d as int == dist2(cur as int, j as int, w as int)
                &&& forall|u: int|
                    0 <= u < t && !seen.contains(#[trigger] members@[u] as int) ==> dist2(
                        cur as int,
                        j as int,
                        w as int,
                    ) <= dist2(cur as int, members@[u] as int, w as int)
                &&& forall|u: int|
                    0 <= u < best_t && !seen.contains(#[trigger] members@[u] as int) ==> dist2(
                        cur as int,
                        members@[u] as int,
                        w as int,
                    ) > dist2(cur as int, j as int, w as int)
            },
        decreases members@.len() - t,
    {
        let m = members[t];
        if !visited[m] {
            let d = squared_distance(m, cur, w, h);
            proof {
                assert(dist2(m as int, cur as int, w as int) == dist2(cur as int, m as int, w as int))
                    by (nonlinear_arith);
            }
            let take = match best {
                None => true,
                Some(_) => d < best_d,
            };
            if take {
                best = Some(m);
                best_d = d;
                proof {
                    best_t = t as int;
                }
            }
        }
        t = t + 1;
    }
    proof {
        match best {
            Some(j) => {
                assert(best_restart(members@, seen, cur as int, w as int, best_t));
            },
            None => {},
        }
    }
    best
}

proof fn lemma_nodup_subset_len(s: Seq<usize>, t: Seq<usize>)
    requires
        s.no_duplicates(),
        t.no_duplicates(),
        forall|i: int| 0 <= i < s.len() ==> t.contains(#[trigger] s[i]),
    ensures
        s.len() <= t.len(),
        (forall|x: usize| t.contains(x) ==> s.contains(x)) ==> s.len() == t.len(),
{
    s.unique_seq_to_set();
    t.unique_seq_to_set();
    vstd::seq_lib::seq_to_set_is_finite(t);
    vstd::seq_lib::seq_to_set_is_finite(s);
    assert(s.to_set().subset_of(t.to_set())) by {
        assert forall|x: usize| s.to_set().contains(x) implies t.to_set().contains(x) by {
            let i = choose|i: int| 0 <= i < s.len() && s[i] == x;
            assert(t.contains(s[i]));
        }
    }
    vstd::set_lib::lemma_len_subset(s.to_set(), t.to_set());
    if forall|x: usize| t.contains(x) ==> s.contains(x) {
        assert(s.to_set() =~= t.to_set());
    }
}

/// A skeleton pixel next to a pixel of the piece belongs to the piece.
pub open spec fn piece_closed(members: Seq<usize>, g: Seq<u8>, w: int, h: int) -> bool {
    forall|t: int, dx: int, dy: int|
        0 <= t < members.len() && king_step(dx, dy) && #[trigger] neighbour(w, h, members[t] as int, dx, dy)
            is Some && g[neighbour(w, h, members[t] as int, dx, dy)->0] == 1 ==> members.contains(
            neighbour(w, h, members[t] as int, dx, dy)->0 as usize,
        )
}

/// The pixels of the first `k` points of a walk.
pub open spec fn prefix_set(order: Seq<usize>, k: int) -> Set<int> {
    Set::new(|i: int| 0 <= i && order.subrange(0, k).contains(i as usize))
}

/// The direction in effect when the walk picks its `k`-th point: rightward
/// at first, then the sign of the last move.
pub open spec fn walk_dir(order: Seq<usize>, w: int, k: int) -> (int, int) {
    if k < 2 {
        (1, 0)
    } else {
        let a = order[k - 2] as int;
        let b = order[k - 1] as int;
        (signum(b % w - a % w), signum(b / w - a / w))
    }
}

/// The walk's `k`-th point is the best open step from the previous point,
/// or, when there is none, the nearest pixel of the piece not yet visited.
pub open spec fn walk_choice(
    members: Seq<usize>,
    g: Seq<u8>,
    w: int,
    h: int,
    order: Seq<usize>,
    k: int,
) -> bool {
    let seen = prefix_set(order, k);
    let cur = order[k - 1] as int;
    let dir = walk_dir(order, w, k);
    if has_open_step(g, w, h, seen, cur) {
        exists|kk: int|
            best_step(g, w, h, seen, cur, dir, kk) && #[trigger] neighbour(
                w,
                h,
                cur,
                scan_dx(kk),
                scan_dy(kk),
            ) == Some(order[k] as int)
    } else {
        exists|t: int| best_restart(members, seen, cur, w, t) && #[trigger] members[t] == order[k]
    }
}

/// `order` is the walk of the piece `members`: every pixel once, starting at
/// the piece's start, each further point chosen by `walk_choice`.
pub open spec fn is_walk(members: Seq<usize>, g: Seq<u8>, w: int, h: int, order: Seq<usize>) -> bool {
    &&& order.len() == members.len()
    &&& order.no_duplicates()
    &&& forall|x: usize| order.contains(x) == members.contains(x)
    &&& order.len() > 0
    &&& is_start(members, g, w, h, order[0] as int)
    &&& forall|k: int| 1 <= k < order.len() ==> #[trigger] walk_choice(members, g, w, h, order, k)
}

/// Seen sets that agree on the piece give the same choices from a piece pixel.
proof fn lemma_seen_agree(
    members: Seq<usize>,
    g: Seq<u8>,
    w: int,
    h: int,
    a: Set<int>,
    b: Set<int>,
    cur: int,
)
    requires
        w >= 0,
        h >= 0,
        0 <= cur < w * h,
        w * h <= usize::MAX,
        piece_closed(members, g, w, h),
        members.contains(cur as usize),
        forall|t: int| 0 <= t < members.len() ==> a.contains(#[trigger] members[t] as int) == b.contains(members[t] as int),
    ensures
        forall|k: int| 0 <= k < 8 ==> #[trigger] open_step(g, w, h, a, cur, k) == open_step(g, w, h, b, cur, k),
        has_open_step(g, w, h, a, cur) == has_open_step(g, w, h, b, cur),
        forall|dir: (int, int), k: int| #[trigger] best_step(g, w, h, a, cur, dir, k) == best_step(g, w, h, b, cur, dir, k),
        forall|t: int| #[trigger] best_restart(members, a, cur, w, t) == best_restart(members, b, cur, w, t),
{
    let tc = choose|t: int| 0 <= t < members.len() && members[t] == cur as usize;
    assert(members[tc] as int == cur);
    assert forall|k: int| 0 <= k < 8 implies #[trigger] open_step(g, w, h, a, cur, k) == open_step(g, w, h, b, cur, k) by {
        let dx = scan_dx(k);
        let dy = scan_dy(k);
        match neighbour(w, h, cur, dx, dy) {
            Some(j) => {
                if g[j] == 1 {
                    lemma_neighbour_back(w, h, cur, dx, dy);
                    assert(neighbour(w, h, members[tc] as int, dx, dy) is Some);
                    assert(members.contains(j as usize));
                    let tj = choose|t: int| 0 <= t < members.len() && members[t] == j as usize;
                    assert(a.contains(members[tj] as int) == b.contains(members[tj] as int));
                }
            },
            None => {},
        }
    }
    if has_open_step(g, w, h, a, cur) {
        let k = choose|k: int| 0 <= k < 8 && #[trigger] open_step(g, w, h, a, cur, k);
        assert(open_step(g, w, h, b, cur, k));
    }
    if has_open_step(g, w, h, b, cur) {
        let k = choose|k: int| 0 <= k < 8 && #[trigger] open_step(g, w, h, b, cur, k);
        assert(open_step(g, w, h, a, cur, k));
    }
    assert forall|dir: (int, int), k: int| #[trigger] best_step(g, w, h, a, cur, dir, k) == best_step(
        g,
        w,
        h,
        b,
        cur,
        dir,
        k,
    ) by {
        if best_step(g, w, h, a, cur, dir, k) {
            assert forall|k2: int| 0 <= k2 < 8 && #[trigger] open_step(g, w, h, b, cur, k2) implies step_key(
                k2,
                dir,
            ) <= step_key(k, dir) by {
                assert(open_step(g, w, h, a, cur, k2));
            }
            assert forall|k2: int| 0 <= k2 < k && #[trigger] open_step(g, w, h, b, cur, k2) implies step_key(
                k2,
                dir,
            ) < step_key(k, dir) by {
                assert(open_step(g, w, h, a, cur, k2));
            }
        }
        if best_step(g, w, h, b, cur, dir, k) {
            assert forall|k2: int| 0 <= k2 < 8 && #[trigger] open_step(g, w, h, a, cur, k2) implies step_key(
                k2,
                dir,
            ) <= step_key(k, dir) by {
                assert(open_step(g, w, h, b, cur, k2));
            }
            assert forall|k2: int| 0 <= k2 < k && #[trigger] open_step(g, w, h, a, cur, k2) implies step_key(
                k2,
                dir,
            ) < step_key(k, dir) by {
                assert(open_step(g, w, h, b, cur, k2));
            }
        }
    }
}

fn sign_of_step(from: usize, to: usize) -> (r: i8)
    ensures
        r as int == signum(to as int - from as int),
{
    if to > from {
        1
    } else if to < from {
        -1
    } else {
        0
    }
}

/// Walk one piece of the skeleton, marking its pixels visited.
fn trace_component(members: &Vec<usize>, g: &[u8], w: usize, h: usize, visited: &mut Vec<bool>) -> (order: Vec<
    usize,
>)
    requires
        members@.len() > 0,
        members@.no_duplicates(),
        forall|t: int| 0 <= t < members@.len() ==> #[trigger] members@[t] < w * h,
        piece_closed(members@, g@, w as int, h as int),
        0 < w,
        w * h <= usize::MAX,
        w * h <= g@.len(),
        old(visited)@.len() == w * h,
        forall|t: int| 0 <= t < members@.len() ==> !old(visited)@[#[trigger] members@[t] as int],
    ensures
        is_walk(members@, g@, w as int, h as int, order@),
        final(visited)@.len() == w * h,
        forall|i: int|
            0 <= i < w * h ==> #[trigger] final(visited)@[i] == (old(visited)@[i] || members@.contains(
                i as usize,
            )),
{
    let ghost wi = w as int;
    let ghost hi = h as int;
    let ghost v0 = visited@;
    let glen = g.len();
    let start = start_of(members, g, w, h);
    let mut order: Vec<usize> = Vec::new();
    proof {
        let t = choose|t: int| 0 <= t < members@.len() && members@[t] == start;
    }
    visited.set(start, true);
    order.push(start);
    let mut cur = start;
    let mut d0: i8 = 1;
    let mut d1: i8 = 0;
    proof {
        assert forall|i: int| 0 <= i < w * h implies #[trigger] visited@[i] == (v0[i] || order@.contains(
            i as usize,
        )) by {
            if i == start as int {
                assert(order@[0] == start);
            } else if order@.contains(i as usize) {
                let t = choose|t: int| 0 <= t < order@.len() && order@[t] == i as usize;
            }
        }
    }
    loop
        invariant
            wi == w,
            hi == h,
            members@.len() > 0,
            members@.no_duplicates(),
            forall|t: int| 0 <= t < members@.len() ==> #[trigger] members@[t] < w * h,
            piece_closed(members@, g@, wi, hi),
            0 < w,
            w * h <= usize::MAX,
            w * h <= g@.len(),
            glen == g@.len(),
            v0.len() == w * h,
            forall|t: int| 0 <= t < members@.len() ==> !v0[#[trigger] members@[t] as int],
            visited@.len() == w * h,
            order@.len() > 0,
            order@[0] == start,
            is_start(members@, g@, wi, hi, start as int),
            cur == order@[order@.len() - 1],
            order@.no_duplicates(),
            forall|t: int| 0 <= t < order@.len() ==> members@.contains(#[trigger] order@[t]),
            order@.len() <= members@.len(),
            (d0 as int, d1 as int) == walk_dir(order@, wi, order@.len() as int),
            -1 <= d0 <= 1,
            -1 <= d1 <= 1,
            forall|i: int|
                0 <= i < w * h ==> #[trigger] visited@[i] == (v0[i] || order@.contains(i as usize)),
            forall|k: int| 1 <= k < order@.len() ==> #[trigger] walk_choice(members@, g@, wi, hi, order@, k),
        ensures
            is_walk(members@, g@, wi, hi, order@),
            visited@.len() == w * h,
            forall|i: int|
                0 <= i < w * h ==> #[trigger] visited@[i] == (v0[i] || order@.contains(i as usize)),
            forall|x: usize| order@.contains(x) == members@.contains(x),
        decreases members@.len() - order@.len(),
    {
        let ghost ob = order@;
        let ghost k = ob.len() as int;
        let ghost seen_spec = prefix_set(ob, k);
        proof {
            assert(ob.subrange(0, k) =~= ob);
            assert(members@.contains(cur));
            assert forall|t: int| 0 <= t < members@.len() implies marked(visited@).contains(
                #[trigger] members@[t] as int,
            ) == seen_spec.contains(members@[t] as int) by {
                let m = members@[t] as int;
                assert(m as usize == members@[t]);
            }
            lemma_seen_agree(members@, g@, wi, hi, marked(visited@), seen_spec, cur as int);
        }
        let next = match best_open_step(g, w, h, visited, cur, d0, d1) {
            Some(j) => {
                proof {
                    let kk = choose|kk: int|
                        best_step(g@, wi, hi, marked(visited@), cur as int, (d0 as int, d1 as int), kk)
                            && #[trigger] neighbour(wi, hi, cur as int, scan_dx(kk), scan_dy(kk)) == Some(
                            j as int,
                        );
                    let tc = choose|t: int| 0 <= t < members@.len() && members@[t] == cur;
                    assert(neighbour(wi, hi, members@[tc] as int, scan_dx(kk), scan_dy(kk)) is Some);
                    lemma_neighbour_back(wi, hi, cur as int, scan_dx(kk), scan_dy(kk));
                    assert(members@.contains(j));
                }
                j
            },
            None => {
                match nearest_unvisited(members, visited, cur, w, h) {
                    Some(j) => {
                        proof {
                            let t = choose|t: int|
                                best_restart(members@, marked(visited@), cur as int, wi, t)
                                    && #[trigger] members@[t] == j;
                        }
                        j
                    },
                    None => {
                        proof {
                            assert forall|x: usize| members@.contains(x) implies order@.contains(x) by {
                                let t = choose|t: int| 0 <= t < members@.len() && members@[t] == x;
                                assert(marked(visited@).contains(members@[t] as int));
                                assert(visited@[x as int]);
                            }
                            lemma_nodup_subset_len(order@, members@);
                            assert forall|x: usize| order@.contains(x) == members@.contains(x) by {
                                if order@.contains(x) {
                                    let t = choose|t: int| 0 <= t < order@.len() && order@[t] == x;
                                }
                            }
                        }
                        break ;
                    },
                }
            },
        };
        proof {
            // the chosen pixel is a member not visited yet
            assert(!visited@[next as int]);
            assert(!ob.contains(next));
            assert(walk_dir(ob, wi, k) == (d0 as int, d1 as int));
        }
        d0 = sign_of_step(cur % w, next % w);
        d1 = sign_of_step(cur / w, next / w);
        visited.set(next, true);
        order.push(next);
        cur = next;
        proof {
            let on = order@;
            assert(on.subrange(0, k) =~= ob);
            assert(prefix_set(on, k) =~= seen_spec);
            assert(walk_dir(on, wi, k) == walk_dir(ob, wi, k));
            assert(walk_choice(members@, g@, wi, hi, on, k));
            assert forall|kk: int| 1 <= kk < on.len() implies #[trigger] walk_choice(members@, g@, wi, hi, on, kk) by {
                if kk < k {
                    assert(walk_choice(members@, g@, wi, hi, ob, kk));
                    assert(on.subrange(0, kk) =~= ob.subrange(0, kk));
                    assert(prefix_set(on, kk) =~= prefix_set(ob, kk));
                    assert(walk_dir(on, wi, kk) == walk_dir(ob, wi, kk));
                    assert(on[kk] == ob[kk] && on[kk - 1] == ob[kk - 1]);
                }
            }
            assert(on.no_duplicates()) by {
                assert forall|a: int, b: int| 0 <= a < b < on.len() implies on[a] != on[b] by {
                    if b == k {
                        assert(ob.contains(on[a]));
                    }
                }
            }
            assert forall|t: int| 0 <= t < on.len() implies members@.contains(#[trigger] on[t]) by {
                if t < k {
                    assert(on[t] == ob[t]);
                }
            }
            lemma_nodup_subset_len(on, members@);
            assert forall|i: int| 0 <= i < w * h implies #[trigger] visited@[i] == (v0[i] || on.contains(
                i as usize,
            )) by {
                if i == next as int {
                    assert(on[k] == next);
                } else {
                    if ob.contains(i as usize) {
                        let t = choose|t: int| 0 <= t < ob.len() && ob[t] == i as usize;
                        assert(on[t] == i as usize);
                    }
                    if on.contains(i as usize) {
                        let t = choose|t: int| 0 <= t < on.len() && on[t] == i as usize;
                        assert(t < k);
                        assert(ob[t] == i as usize);
                    }
                }
            }
            assert(walk_dir(on, wi, on.len() as int) == (d0 as int, d1 as int)) by {
                vstd::arithmetic::div_mod::lemma_fundamental_div_mod(next as int, wi);
            }
        }
    }
    proof {
        assert forall|i: int| 0 <= i < w * h implies #[trigger] visited@[i] == (v0[i] || members@.contains(
            i as usize,
        )) by {
            assert(order@.contains(i as usize) == members@.contains(i as usize));
        }
    }
    order
}

/// One point of a traced stroke: a skeleton pixel (row-major index) and the
/// squared length of its offset to the nearest pixel without ink.
#[derive(Clone, Copy, Debug, PartialEq, Eq)]
pub struct StrokePoint {
    pub pixel: usize,
    pub half_width_sq: i32,
}

/// The thresholded raster: 1 for ink.
pub open spec fn inked(sharp: Seq<u8>) -> Seq<u8> {
    Seq::new(sharp.len(), |i: int| if ink(sharp[i]) { 1u8 } else { 0u8 })
}

/// The background as distance-transform "inside": 255 where there is no ink.
pub open spec fn background(sharp: Seq<u8>) -> Seq<u8> {
    Seq::new(sharp.len(), |i: int| if ink(sharp[i]) { 0u8 } else { 255u8 })
}

/// The pieces of skeleton `g`, left to right: closed under adjacency, every
/// skeleton pixel in exactly one, each starting at its smallest index, in
/// `left_of` order.
pub open spec fn is_ordered_pieces(g: Seq<u8>, w: int, h: int, pieces: Seq<Seq<usize>>) -> bool {
    &&& forall|c: int| 0 <= c < pieces.len() ==> #[trigger] pieces[c].len() > 0
    &&& forall|c: int| 0 <= c < pieces.len() ==> #[trigger] pieces[c].no_duplicates()
    &&& forall|c: int, t: int|
        0 <= c < pieces.len() && 0 <= t < pieces[c].len() ==> on_skeleton(g, w, h, #[trigger] pieces[c][t] as int)
    &&& forall|i: int| on_skeleton(g, w, h, i) ==> exists|c: int| 0 <= c < pieces.len() && #[trigger] pieces[c].contains(i as usize)
    &&& forall|c1: int, c2: int, t: int|
        0 <= c1 < pieces.len() && 0 <= c2 < pieces.len() && c1 != c2 && 0 <= t < pieces[c1].len()
            ==> !#[trigger] pieces[c2].contains(#[trigger] pieces[c1][t])
    &&& forall|c: int| 0 <= c < pieces.len() ==> piece_closed(#[trigger] pieces[c], g, w, h)
    &&& forall|c: int, t: int| 0 <= c < pieces.len() && 0 <= t < pieces[c].len() ==> pieces[c][0] <= #[trigger] pieces[c][t]
    &&& forall|c: int, t: int|
        0 <= c < pieces.len() && 0 <= t < pieces[c].len() ==> linked(g, w, h, pieces[c][0] as int, #[trigger] pieces[c][t] as int)
    &&& forall|a: int, b: int| 0 <= a < b < pieces.len() ==> left_of(#[trigger] pieces[a], #[trigger] pieces[b], w)
    &&& forall|c: int| 0 <= c < pieces.len() ==> is_flood_order(g, w, h, pieces[c][0] as int, #[trigger] pieces[c])
}

/// The walks one after another.
pub open spec fn flatten(walks: Seq<Seq<usize>>) -> Seq<usize>
    decreases walks.len(),
{
    if walks.len() == 0 {
        Seq::empty()
    } else {
        flatten(walks.drop_last()) + walks.last()
    }
}

/// `out` is the traced stroke of `sharp`: the skeleton of its ink, split into
/// pieces ordered left to right, each walked in turn; every point carries the
/// squared length of the background distance-transform offset at its pixel.
pub open spec fn is_stroke_trace(sharp: Seq<u8>, w: int, h: int, out: Seq<StrokePoint>) -> bool {
    exists|skel: Seq<u8>, pieces: Seq<Seq<usize>>, walks: Seq<Seq<usize>>|
        {
            &&& #[trigger] is_thinning(inked(sharp), w, h, skel)
            &&& #[trigger] is_ordered_pieces(skel, w, h, pieces)
            &&& walks.len() == pieces.len()
            &&& forall|c: int| 0 <= c < pieces.len() ==> is_walk(#[trigger] pieces[c], skel, w, h, walks[c])
            &&& out.map_values(|p: StrokePoint| p.pixel) == #[trigger] flatten(walks)
            &&& forall|k: int|
                0 <= k < out.len() ==> (#[trigger] out[k]).half_width_sq == d2(
                    distance_offsets(background(sharp), w, h)[out[k].pixel as int],
                )
        }
}

proof fn lemma_flatten_push(walks: Seq<Seq<usize>>, wk: Seq<usize>)
    ensures
        flatten(walks.push(wk)) == flatten(walks) + wk,
{
    assert(walks.push(wk).drop_last() =~= walks);
}

/// The ordered stroke-centreline trace of a sharp coverage raster
/// (`w` x `h`, row-major).
pub fn stroke_trace(sharp: &[u8], w: usize, h: usize) -> (out: Vec<StrokePoint>)
    requires
        w * h <= sharp@.len(),
        grid_fits(sharp@.len() as int, w as int, h as int),
    ensures
        is_stroke_trace(sharp@, w as int, h as int, out@),
{
    let ghost wi = w as int;
    let ghost hi = h as int;
    let sharp_len = sharp.len();
    let mut g = threshold_mask(sharp);
    proof {
        assert(g@ =~= inked(sharp@));
    }
    let ghost g0 = g@;
    zhang_suen(g.as_mut_slice(), w, h);
    let ghost skel = g@;
    let bg = background_mask(sharp);
    proof {
        assert(bg@ =~= background(sharp@));
    }
    let interior = edt8(&bg, w, h);
    let comps = skeleton_components(&g, w, h);
    let ghost listing = views(comps@);
    let mut out: Vec<StrokePoint> = Vec::new();
    if comps.len() == 0 {
        proof {
            let pieces = Seq::<Seq<usize>>::empty();
            let walks = Seq::<Seq<usize>>::empty();
            assert forall|i: int| on_skeleton(skel, wi, hi, i) implies exists|c: int|
                0 <= c < pieces.len() && #[trigger] pieces[c].contains(i as usize) by {
                let c = choose|c: int| 0 <= c < listing.len() && #[trigger] listing[c].contains(i as usize);
            }
            assert(out@.map_values(|p: StrokePoint| p.pixel) =~= flatten(walks));
            assert(is_ordered_pieces(skel, wi, hi, pieces));
            assert(is_thinning(inked(sharp@), wi, hi, skel));
        }
        return out;
    }
    proof {
        assert(listing[0].len() > 0);
        let p0 = listing[0][0] as int;
        assert(on_skeleton(skel, wi, hi, p0));
        assert(w > 0) by {
            if w == 0 {
                assert(wi * hi == 0);
            }
        }
    }
    proof {
        assert forall|c: int| 0 <= c < comps@.len() implies #[trigger] comps@[c]@.len() > 0 by {
            assert(listing[c] == comps@[c]@);
        }
        assert forall|c1: int, c2: int| 0 <= c1 < c2 < comps@.len() implies #[trigger] comps@[c1]@[0]
            < #[trigger] comps@[c2]@[0] by {
            assert(listing[c1] == comps@[c1]@);
            assert(listing[c2] == comps@[c2]@);
        }
    }
    let sorted = order_left_to_right(comps, w);
    let ghost pieces = views(sorted@);
    // every sorted piece is one of the listed pieces
    proof {
        assert forall|c: int| #![trigger pieces[c]] 0 <= c < pieces.len() implies exists|c0: int|
            0 <= c0 < listing.len() && #[trigger] listing[c0] == pieces[c] by {
            assert(pieces.contains(pieces[c]));
            assert(listing.contains(pieces[c]));
        }
        assert forall|c: int| 0 <= c < pieces.len() implies piece_closed(#[trigger] pieces[c], skel, wi, hi) by {
            let c0 = choose|c0: int| 0 <= c0 < listing.len() && #[trigger] listing[c0] == pieces[c];
            assert forall|t: int, dx: int, dy: int|
                0 <= t < pieces[c].len() && king_step(dx, dy) && #[trigger] neighbour(
                    wi,
                    hi,
                    pieces[c][t] as int,
                    dx,
                    dy,
                ) is Some && skel[neighbour(wi, hi, pieces[c][t] as int, dx, dy)->0] == 1 implies pieces[c].contains(
                neighbour(wi, hi, pieces[c][t] as int, dx, dy)->0 as usize,
            ) by {
                assert(neighbour(wi, hi, listing[c0][t] as int, dx, dy) is Some);
            }
        }
    }
    let mut visited: Vec<bool> = Vec::new();
    assert(w * h <= sharp_len);
    let n = w * h;
    let mut i: usize = 0;
    while i < n
        invariant
            i <= n,
            visited@.len() == i,
            forall|j: int| 0 <= j < i ==> !#[trigger] visited@[j],
        decreases n - i,
    {
        visited.push(false);
        i = i + 1;
    }
    let ghost mut walks: Seq<Seq<usize>> = Seq::empty();
    let mut c: usize = 0;
    while c < sorted.len()
        invariant
            wi == w,
            hi == h,
            n == wi * hi,
            0 < w,
            n <= g@.len(),
            g@ == skel,
            pieces == views(sorted@),
            is_piece_listing(skel, wi, hi, listing),
            forall|m: Seq<usize>| pieces.contains(m) == listing.contains(m),
            forall|a: int, b: int| 0 <= a < b < pieces.len() ==> left_of(#[trigger] pieces[a], #[trigger] pieces[b], wi),
            forall|cc: int| 0 <= cc < pieces.len() ==> piece_closed(#[trigger] pieces[cc], skel, wi, hi),
            forall|cc: int| #![trigger pieces[cc]] 0 <= cc < pieces.len() ==> exists|c0: int|
                0 <= c0 < listing.len() && #[trigger] listing[c0] == pieces[cc],
            interior@.len() == n,
            as_offsets(interior@) == distance_offsets(background(sharp@), wi, hi),
            all_short(wi, hi, as_offsets(interior@)),
            c <= pieces.len(),
            visited@.len() == n,
            forall|j: int| 0 <= j < n ==> #[trigger] visited@[j] == exists|cc: int| 0 <= cc < c && #[trigger] pieces[cc].contains(j as usize),
            walks.len() == c,
            forall|cc: int| 0 <= cc < c ==> is_walk(#[trigger] pieces[cc], skel, wi, hi, walks[cc]),
            out@.map_values(|p: StrokePoint| p.pixel) == flatten(walks),
            forall|k: int|
                0 <= k < out@.len() ==> (#[trigger] out@[k]).half_width_sq == d2(
                    distance_offsets(background(sharp@), wi, hi)[out@[k].pixel as int],
                ),
        decreases pieces.len() - c,
    {
        let members = &sorted[c];
        let ghost pc = pieces[c as int];
        proof {
            assert(members@ == pc);
            let c0 = choose|c0: int| 0 <= c0 < listing.len() && #[trigger] listing[c0] == pieces[c as int];
            assert(pc.len() > 0 && pc.no_duplicates());
            assert forall|t: int| 0 <= t < pc.len() implies #[trigger] pc[t] < wi * hi by {
                assert(listing[c0][t] == pc[t]);
                assert(on_skeleton(skel, wi, hi, listing[c0][t] as int));
            }
            assert forall|t: int| 0 <= t < pc.len() implies !visited@[#[trigger] pc[t] as int] by {
                let j = pc[t] as int;
                assert(listing[c0][t] == pc[t]);
                assert(on_skeleton(skel, wi, hi, j));
                if visited@[j] {
                    let cc = choose|cc: int| 0 <= cc < c && #[trigger] pieces[cc].contains(j as usize);
                    let c1 = choose|c1: int| 0 <= c1 < listing.len() && #[trigger] listing[c1] == pieces[cc];
                    assert(pieces[cc] != pc) by {
                        assert(left_of(pieces[cc], pieces[c as int], wi));
                    }
                    assert(c1 != c0);
                    let u = choose|u: int| 0 <= u < listing[c1].len() && listing[c1][u] == j as usize;
                    assert(listing[c0].contains(listing[c1][u]));
                }
            }
        }
        let walk = trace_component(members, &g, w, h, &mut visited);
        proof {
            assert forall|t: int| 0 <= t < walk@.len() implies #[trigger] walk@[t] < n by {
                assert(walk@.contains(walk@[t]));
                assert(pc.contains(walk@[t]));
                let u = choose|u: int| 0 <= u < pc.len() && pc[u] == walk@[t];
            }
        }
        let ghost out_b = out@;
        let mut k: usize = 0;
        while k < walk.len()
            invariant
                wi == w,
                hi == h,
                n == wi * hi,
                interior@.len() == n,
                as_offsets(interior@) == distance_offsets(background(sharp@), wi, hi),
                all_short(wi, hi, as_offsets(interior@)),
                k <= walk@.len(),
                forall|t: int| 0 <= t < walk@.len() ==> #[trigger] walk@[t] < n,
                out@.len() == out_b.len() + k,
                out@.subrange(0, out_b.len() as int) == out_b,
                forall|t: int| 0 <= t < k ==> (#[trigger] out@[out_b.len() + t]).pixel == walk@[t],
                forall|kk: int|
                    0 <= kk < out@.len() ==> (#[trigger] out@[kk]).half_width_sq == d2(
                        distance_offsets(background(sharp@), wi, hi)[out@[kk].pixel as int],
                    ),
            decreases walk@.len() - k,
        {
            let p = walk[k];
            let off = interior[p];
            proof {
                lemma_index(wi, hi, p as int);
                assert(short(as_offsets(interior@)[p as int]));
                lemma_short_bounds(as_offsets(interior@)[p as int], 0, 0);
            }
            let hw = off.0 * off.0 + off.1 * off.1;
            let ghost ob = out@;
            out.push(StrokePoint { pixel: p, half_width_sq: hw });
            proof {
                assert(out@.subrange(0, out_b.len() as int) =~= out_b) by {
                    assert(ob.subrange(0, out_b.len() as int) == out_b);
                }
                assert forall|t: int| 0 <= t < k + 1 implies (#[trigger] out@[out_b.len() + t]).pixel == walk@[t] by {
                    if t < k {
                        assert(out@[out_b.len() + t] == ob[out_b.len() + t]);
                    }
                }
                assert forall|kk: int|
                    0 <= kk < out@.len() implies (#[trigger] out@[kk]).half_width_sq == d2(
                    distance_offsets(background(sharp@), wi, hi)[out@[kk].pixel as int],
                ) by {
                    if kk < ob.len() {
                        assert(out@[kk] == ob[kk]);
                    }
                }
            }
            k = k + 1;
        }
        proof {
            let wk = walk@;
            lemma_flatten_push(walks, wk);
            let new_walks = walks.push(wk);
            let pix = out@.map_values(|p: StrokePoint| p.pixel);
            assert(pix =~= flatten(walks) + wk) by {
                assert forall|t: int| 0 <= t < pix.len() implies pix[t] == (flatten(walks) + wk)[t] by {
                    if t < out_b.len() {
                        assert(out@[t] == out_b[t]);
                        assert(out_b.map_values(|p: StrokePoint| p.pixel)[t] == flatten(walks)[t]);
                    } else {
                        assert(out@[out_b.len() + (t - out_b.len())].pixel == wk[t - out_b.len()]);
                    }
                }
                assert(out_b.map_values(|p: StrokePoint| p.pixel).len() == flatten(walks).len());
            }
            assert forall|cc: int| 0 <= cc < c + 1 implies is_walk(#[trigger] pieces[cc], skel, wi, hi, new_walks[cc]) by {
                if cc < c {
                    assert(new_walks[cc] == walks[cc]);
                }
            }
            assert forall|j: int| 0 <= j < n implies #[trigger] visited@[j] == exists|cc: int|
                0 <= cc < c + 1 && #[trigger] pieces[cc].contains(j as usize) by {
                if pc.contains(j as usize) {
                    assert(pieces[c as int].contains(j as usize));
                }
                if exists|cc: int| 0 <= cc < c + 1 && #[trigger] pieces[cc].contains(j as usize) {
                    let cc = choose|cc: int| 0 <= cc < c + 1 && #[trigger] pieces[cc].contains(j as usize);
                    if cc < c {
                    } else {
                        assert(members@.contains(j as usize));
                    }
                }
            }
            walks = new_walks;
        }
        c = c + 1;
    }
    proof {
        assert(is_thinning(inked(sharp@), wi, hi, skel));
        assert(is_ordered_pieces(skel, wi, hi, pieces)) by {
            assert forall|cc: int| 0 <= cc < pieces.len() implies #[trigger] pieces[cc].len() > 0 by {
                let c0 = choose|c0: int| 0 <= c0 < listing.len() && #[trigger] listing[c0] == pieces[cc];
            }
            assert forall|cc: int| 0 <= cc < pieces.len() implies #[trigger] pieces[cc].no_duplicates() by {
                let c0 = choose|c0: int| 0 <= c0 < listing.len() && #[trigger] listing[c0] == pieces[cc];
            }
            assert forall|cc: int, t: int|
                0 <= cc < pieces.len() && 0 <= t < pieces[cc].len() implies on_skeleton(
                skel,
                wi,
                hi,
                #[trigger] pieces[cc][t] as int,
            ) by {
                let c0 = choose|c0: int| 0 <= c0 < listing.len() && #[trigger] listing[c0] == pieces[cc];
                assert(listing[c0][t] == pieces[cc][t]);
            }
            assert forall|j: int| on_skeleton(skel, wi, hi, j) implies exists|cc: int|
                0 <= cc < pieces.len() && #[trigger] pieces[cc].contains(j as usize) by {
                let c0 = choose|c0: int| 0 <= c0 < listing.len() && #[trigger] listing[c0].contains(j as usize);
                assert(listing.contains(listing[c0]));
                assert(pieces.contains(listing[c0]));
                let cc = choose|cc: int| 0 <= cc < pieces.len() && pieces[cc] == listing[c0];
                assert(pieces[cc].contains(j as usize));
            }
            assert forall|c1: int, c2: int, t: int|
                0 <= c1 < pieces.len() && 0 <= c2 < pieces.len() && c1 != c2 && 0 <= t < pieces[c1].len()
                    implies !#[trigger] pieces[c2].contains(#[trigger] pieces[c1][t]) by {
                let a = choose|c0: int| 0 <= c0 < listing.len() && #[trigger] listing[c0] == pieces[c1];
                let b = choose|c0: int| 0 <= c0 < listing.len() && #[trigger] listing[c0] == pieces[c2];
                assert(pieces[c1] != pieces[c2]) by {
                    if c1 < c2 {
                        assert(left_of(pieces[c1], pieces[c2], wi));
                    } else {
                        assert(left_of(pieces[c2], pieces[c1], wi));
                    }
                }
                assert(a != b);
                assert(listing[a][t] == pieces[c1][t]);
            }
            assert forall|cc: int, t: int|
                0 <= cc < pieces.len() && 0 <= t < pieces[cc].len() implies pieces[cc][0] <= #[trigger] pieces[cc][t] by {
                let c0 = choose|c0: int| 0 <= c0 < listing.len() && #[trigger] listing[c0] == pieces[cc];
                assert(listing[c0][t] == pieces[cc][t]);
            }
            assert forall|cc: int, t: int|
                0 <= cc < pieces.len() && 0 <= t < pieces[cc].len() implies linked(
                skel,
                wi,
                hi,
                pieces[cc][0] as int,
                #[trigger] pieces[cc][t] as int,
            ) by {
                let c0 = choose|c0: int| 0 <= c0 < listing.len() && #[trigger] listing[c0] == pieces[cc];
                assert(listing[c0][t] == pieces[cc][t]);
                assert(listing[c0][0] == pieces[cc][0]);
            }
            assert forall|cc: int| 0 <= cc < pieces.len() implies is_flood_order(
                skel,
                wi,
                hi,
                pieces[cc][0] as int,
                #[trigger] pieces[cc],
            ) by {
                let c0 = choose|c0: int| 0 <= c0 < listing.len() && #[trigger] listing[c0] == pieces[cc];
            }
        }
        assert(is_stroke_trace(sharp@, wi, hi, out@));
    }
    out
}

proof fn lemma_adjacent_symmetric(w: int, h: int, a: int, b: int)
    requires
        w >= 0,
        h >= 0,
        0 <= a < w * h,
        adjacent(w, h, a, b),
    ensures
        adjacent(w, h, b, a),
        0 <= b < w * h,
{
    let (dx, dy) = choose|dx: int, dy: int| king_step(dx, dy) && #[trigger] neighbour(w, h, a, dx, dy) == Some(b);
    lemma_neighbour_back(w, h, a, dx, dy);
    assert(king_step(-dx, -dy));
    assert(neighbour(w, h, b, -dx, -dy) == Some(a));
}

proof fn lemma_linked_symmetric(g: Seq<u8>, w: int, h: int, a: int, b: int)
    requires
        w >= 0,
        h >= 0,
        linked(g, w, h, a, b),
    ensures
        linked(g, w, h, b, a),
{
    let path = choose|path: Seq<int>| #[trigger] is_path(g, w, h, path) && path[0] == a && path.last() == b;
    let back = path.reverse();
    assert forall|t: int| 0 <= t < back.len() implies on_skeleton(g, w, h, #[trigger] back[t]) by {
        assert(back[t] == path[path.len() - 1 - t]);
    }
    assert forall|t: int| 0 <= t < back.len() - 1 implies #[trigger] adjacent(w, h, back[t], back[t + 1]) by {
        let u = path.len() - 2 - t;
        assert(back[t] == path[u + 1] && back[t + 1] == path[u]);
        assert(adjacent(w, h, path[u], path[u + 1]));
        assert(on_skeleton(g, w, h, path[u]));
        lemma_adjacent_symmetric(w, h, path[u], path[u + 1]);
    }
    assert(is_path(g, w, h, back));
}

proof fn lemma_linked_trans(g: Seq<u8>, w: int, h: int, a: int, b: int, c: int)
    requires
        linked(g, w, h, a, b),
        linked(g, w, h, b, c),
    ensures
        linked(g, w, h, a, c),
{
    let p1 = choose|path: Seq<int>| #[trigger] is_path(g, w, h, path) && path[0] == a && path.last() == b;
    let p2 = choose|path: Seq<int>| #[trigger] is_path(g, w, h, path) && path[0] == b && path.last() == c;
    let joined = p1 + p2.drop_first();
    assert forall|t: int| 0 <= t < joined.len() implies on_skeleton(g, w, h, #[trigger] joined[t]) by {
        if t < p1.len() {
            assert(joined[t] == p1[t]);
        } else {
            assert(joined[t] == p2[t - p1.len() + 1]);
        }
    }
    assert forall|t: int| 0 <= t < joined.len() - 1 implies #[trigger] adjacent(w, h, joined[t], joined[t + 1]) by {
        if t < p1.len() - 1 {
            assert(joined[t] == p1[t] && joined[t + 1] == p1[t + 1]);
            assert(adjacent(w, h, p1[t], p1[t + 1]));
        } else if t == p1.len() - 1 {
            assert(joined[t] == p2[0] && joined[t + 1] == p2[1]);
            assert(adjacent(w, h, p2[0], p2[1]));
        } else {
            let u = t - p1.len() + 1;
            assert(joined[t] == p2[u] && joined[t + 1] == p2[u + 1]);
            assert(adjacent(w, h, p2[u], p2[u + 1]));
        }
    }
    assert(is_path(g, w, h, joined));
    if p2.len() == 1 {
        assert(joined.last() == p1.last());
    } else {
        assert(joined.last() == p2.last());
    }
}

/// A chain of skeleton pixels that starts in a closed piece stays in it.
proof fn lemma_path_stays(members: Seq<usize>, g: Seq<u8>, w: int, h: int, path: Seq<int>, k: int)
    requires
        w >= 0,
        h >= 0,
        w * h <= usize::MAX,
        piece_closed(members, g, w, h),
        is_path(g, w, h, path),
        members.contains(path[0] as usize),
        0 <= k < path.len(),
    ensures
        members.contains(path[k] as usize),
    decreases k,
{
    if k > 0 {
        lemma_path_stays(members, g, w, h, path, k - 1);
        let prev = path[k - 1];
        let u = k - 1;
        assert(adjacent(w, h, path[u], path[u + 1]));
        assert(path[u + 1] == path[k]);
        assert(on_skeleton(g, w, h, prev));
        let (dx, dy) = choose|dx: int, dy: int| king_step(dx, dy) && #[trigger] neighbour(w, h, prev, dx, dy) == Some(path[k]);
        let t = choose|t: int| 0 <= t < members.len() && members[t] == prev as usize;
        assert(members[t] as int == prev);
        assert(neighbour(w, h, members[t] as int, dx, dy) is Some);
        assert(on_skeleton(g, w, h, path[k]));
    }
}

/// Law: the pieces are exactly the 8-connected components of the skeleton:
/// for a pixel `i` of a piece, another pixel lies in that piece exactly when
/// it is a skeleton pixel joined to `i` by a chain of skeleton pixels.
pub proof fn law_pieces_are_components(
    g: Seq<u8>,
    w: int,
    h: int,
    pieces: Seq<Seq<usize>>,
    c: int,
    i: int,
    j: int,
)
    requires
        w >= 0,
        h >= 0,
        w * h <= usize::MAX,
        is_ordered_pieces(g, w, h, pieces),
        0 <= c < pieces.len(),
        pieces[c].contains(i as usize),
        0 <= i < w * h,
        0 <= j < w * h,
    ensures
        pieces[c].contains(j as usize) == (on_skeleton(g, w, h, j) && linked(g, w, h, i, j)),
{
    let ti = choose|t: int| 0 <= t < pieces[c].len() && pieces[c][t] == i as usize;
    assert(on_skeleton(g, w, h, pieces[c][ti] as int));
    assert(pieces[c][ti] as int == i);
    assert(linked(g, w, h, pieces[c][0] as int, i));
    if pieces[c].contains(j as usize) {
        let tj = choose|t: int| 0 <= t < pieces[c].len() && pieces[c][t] == j as usize;
        assert(on_skeleton(g, w, h, pieces[c][tj] as int));
        assert(pieces[c][tj] as int == j);
        assert(linked(g, w, h, pieces[c][0] as int, j));
        lemma_linked_symmetric(g, w, h, pieces[c][0] as int, i);
        lemma_linked_trans(g, w, h, i, pieces[c][0] as int, j);
    }
    if on_skeleton(g, w, h, j) && linked(g, w, h, i, j) {
        let path = choose|path: Seq<int>| #[trigger] is_path(g, w, h, path) && path[0] == i && path.last() == j;
        assert(piece_closed(pieces[c], g, w, h));
        lemma_path_stays(pieces[c], g, w, h, path, path.len() - 1);
    }
}

/// The first `m` walks, one after another, repeat no pixel and hold exactly
/// the pixels of the first `m` pieces.
proof fn lemma_walks_prefix(pieces: Seq<Seq<usize>>, walks: Seq<Seq<usize>>, m: int)
    requires
        walks.len() == pieces.len(),
        0 <= m <= walks.len(),
        forall|c: int| 0 <= c < walks.len() ==> (#[trigger] walks[c]).no_duplicates(),
        forall|c: int, x: usize| 0 <= c < walks.len() ==> #[trigger] walks[c].contains(x) == pieces[c].contains(x),
        forall|c1: int, c2: int, t: int|
            0 <= c1 < pieces.len() && 0 <= c2 < pieces.len() && c1 != c2 && 0 <= t < pieces[c1].len()
                ==> !#[trigger] pieces[c2].contains(#[trigger] pieces[c1][t]),
    ensures
        flatten(walks.take(m)).no_duplicates(),
        forall|x: usize| #[trigger] flatten(walks.take(m)).contains(x) == (exists|c: int| 0 <= c < m && #[trigger] pieces[c].contains(x)),
    decreases m,
{
    if m == 0 {
        assert(walks.take(0).len() == 0);
        assert(flatten(walks.take(0)) =~= Seq::<usize>::empty());
    } else {
        lemma_walks_prefix(pieces, walks, m - 1);
        let prev = flatten(walks.take(m - 1));
        let wk = walks[m - 1];
        assert(walks.take(m).drop_last() =~= walks.take(m - 1));
        assert(walks.take(m).last() == wk);
        let all = flatten(walks.take(m));
        assert(all == prev + wk);
        assert forall|x: usize| #[trigger] all.contains(x) == (exists|c: int| 0 <= c < m && #[trigger] pieces[c].contains(x)) by {
            if all.contains(x) {
                let t = choose|t: int| 0 <= t < all.len() && all[t] == x;
                if t < prev.len() {
                    assert(prev[t] == x);
                    assert(prev.contains(x));
                    let c = choose|c: int| 0 <= c < m - 1 && #[trigger] pieces[c].contains(x);
                } else {
                    assert(wk[t - prev.len()] == x);
                    assert(wk.contains(x));
                    assert(walks[m - 1].contains(x));
                    assert(pieces[m - 1].contains(x));
                }
            }
            if exists|c: int| 0 <= c < m && #[trigger] pieces[c].contains(x) {
                let c = choose|c: int| 0 <= c < m && #[trigger] pieces[c].contains(x);
                if c < m - 1 {
                    assert(prev.contains(x));
                    let t = choose|t: int| 0 <= t < prev.len() && prev[t] == x;
                    assert(all[t] == x);
                } else {
                    assert(walks[m - 1].contains(x));
                    let t = choose|t: int| 0 <= t < wk.len() && wk[t] == x;
                    assert(all[prev.len() + t] == x);
                }
            }
        }
        assert forall|i: int, j: int| 0 <= i < all.len() && 0 <= j < all.len() && i != j implies all[i] != all[j] by {
            if i < prev.len() && j < prev.len() {
                assert(all[i] == prev[i] && all[j] == prev[j]);
            } else if i >= prev.len() && j >= prev.len() {
                assert(all[i] == wk[i - prev.len()] && all[j] == wk[j - prev.len()]);
            } else {
                let (a, b) = if i < prev.len() { (i, j) } else { (j, i) };
                let x = all[a];
                assert(all[a] == prev[a]);
                assert(prev.contains(x));
                let c = choose|c: int| 0 <= c < m - 1 && #[trigger] pieces[c].contains(x);
                let t = choose|t: int| 0 <= t < pieces[c].len() && pieces[c][t] == x;
                assert(all[b] == wk[b - prev.len()]);
                if all[b] == x {
                    assert(wk.contains(x));
                    assert(walks[m - 1].contains(x));
                    assert(pieces[m - 1].contains(pieces[c][t]));
                }
            }
        }
    }
}

/// The pixels of a trace, in order.
pub open spec fn trace_pixels(out: Seq<StrokePoint>) -> Seq<usize> {
    out.map_values(|p: StrokePoint| p.pixel)
}

/// Law: the traced stroke passes through every pixel of the skeleton of the
/// raster's ink exactly once, and through no other pixel.
pub proof fn law_trace_visits_skeleton_once(sharp: Seq<u8>, w: int, h: int, out: Seq<StrokePoint>, skel: Seq<u8>)
    requires
        is_stroke_trace(sharp, w, h, out),
        is_thinning(inked(sharp), w, h, skel),
        w >= 0,
        h >= 0,
        w * h <= usize::MAX,
    ensures
        trace_pixels(out).no_duplicates(),
        forall|i: int|
            0 <= i < w * h ==> (#[trigger] trace_pixels(out).contains(i as usize) <==> skel[i] == 1),
        forall|k: int| 0 <= k < out.len() ==> (#[trigger] out[k]).pixel < w * h,
{
    let (skel0, pieces, walks) = choose|skel0: Seq<u8>, pieces: Seq<Seq<usize>>, walks: Seq<Seq<usize>>|
        {
            &&& #[trigger] is_thinning(inked(sharp), w, h, skel0)
            &&& #[trigger] is_ordered_pieces(skel0, w, h, pieces)
            &&& walks.len() == pieces.len()
            &&& forall|c: int| 0 <= c < pieces.len() ==> is_walk(#[trigger] pieces[c], skel0, w, h, walks[c])
            &&& out.map_values(|p: StrokePoint| p.pixel) == #[trigger] flatten(walks)
            &&& forall|k: int|
                0 <= k < out.len() ==> (#[trigger] out[k]).half_width_sq == d2(
                    distance_offsets(background(sharp), w, h)[out[k].pixel as int],
                )
        };
    law_thinning_unique(inked(sharp), w, h, skel0, skel);
    assert forall|c: int| 0 <= c < walks.len() implies (#[trigger] walks[c]).no_duplicates() by {
        assert(is_walk(pieces[c], skel, w, h, walks[c]));
    }
    assert forall|c: int, x: usize| 0 <= c < walks.len() implies #[trigger] walks[c].contains(x) == pieces[c].contains(x) by {
        assert(is_walk(pieces[c], skel, w, h, walks[c]));
    }
    lemma_walks_prefix(pieces, walks, walks.len() as int);
    assert(walks.take(walks.len() as int) =~= walks);
    let pix = trace_pixels(out);
    assert(pix == flatten(walks));
    assert forall|i: int| 0 <= i < w * h implies (#[trigger] pix.contains(i as usize) <==> skel[i] == 1) by {
        if pix.contains(i as usize) {
            let c = choose|c: int| 0 <= c < walks.len() && #[trigger] pieces[c].contains(i as usize);
            let t = choose|t: int| 0 <= t < pieces[c].len() && pieces[c][t] == i as usize;
            assert(on_skeleton(skel, w, h, pieces[c][t] as int));
        }
        if skel[i] == 1 {
            assert(on_skeleton(skel, w, h, i));
            let c = choose|c: int| 0 <= c < pieces.len() && #[trigger] pieces[c].contains(i as usize);
        }
    }
    assert forall|k: int| 0 <= k < out.len() implies (#[trigger] out[k]).pixel < w * h by {
        assert(pix[k] == out[k].pixel);
        assert(pix.contains(pix[k]));
        let c = choose|c: int| 0 <= c < walks.len() && #[trigger] pieces[c].contains(pix[k]);
        let t = choose|t: int| 0 <= t < pieces[c].len() && pieces[c][t] == pix[k];
        assert(on_skeleton(skel, w, h, pieces[c][t] as int));
    }
}

/// Law: every point of the traced stroke lies on ink, and carries a positive
/// stroke width (its squared distance to the background is at least one)
/// when it lies less than `FAR` from the left or the top edge.
pub proof fn law_trace_widths_positive(sharp: Seq<u8>, w: int, h: int, out: Seq<StrokePoint>, k: int)
    requires
        is_stroke_trace(sharp, w, h, out),
        w >= 0,
        grid_fits(sharp.len() as int, w, h),
        sharp.len() <= usize::MAX,
        0 <= k < out.len(),
    ensures
        ink(sharp[out[k].pixel as int]),
        (out[k].pixel as int) % w < FAR || (out[k].pixel as int) / w < FAR ==> out[k].half_width_sq >= 1,
{
    let skel = choose|skel: Seq<u8>| #[trigger] is_thinning(inked(sharp), w, h, skel);
    assert(is_thinning(inked(sharp), w, h, skel)) by {
        let (s0, p0, w0) = choose|skel0: Seq<u8>, pieces: Seq<Seq<usize>>, walks: Seq<Seq<usize>>|
            {
                &&& #[trigger] is_thinning(inked(sharp), w, h, skel0)
                &&& #[trigger] is_ordered_pieces(skel0, w, h, pieces)
                &&& walks.len() == pieces.len()
                &&& forall|c: int| 0 <= c < pieces.len() ==> is_walk(#[trigger] pieces[c], skel0, w, h, walks[c])
                &&& out.map_values(|p: StrokePoint| p.pixel) == #[trigger] flatten(walks)
                &&& forall|kk: int|
                    0 <= kk < out.len() ==> (#[trigger] out[kk]).half_width_sq == d2(
                        distance_offsets(background(sharp), w, h)[out[kk].pixel as int],
                    )
            };
        assert(is_thinning(inked(sharp), w, h, s0));
    }
    assert(w * h <= usize::MAX);
    law_trace_visits_skeleton_once(sharp, w, h, out, skel);
    let p = out[k].pixel as int;
    assert(trace_pixels(out)[k] == out[k].pixel);
    assert(p < w * h);
    assert(trace_pixels(out).contains(p as usize));
    assert(skel[p] == 1);
    assert(binary(inked(sharp)));
    law_thinning_only_deletes(inked(sharp), w, h, skel);
    assert(inked(sharp)[p] == 1);
    let x = p % w;
    let y = p / w;
    lemma_index(w, h, p);
    assert(y * w + x == p);
    if x < FAR || y < FAR {
        law_zero_offset_iff_inside(background(sharp), w, h, x, y);
        let o = distance_offsets(background(sharp), w, h)[p];
        assert(o != (0int, 0int));
        assert(d2(o) >= 1) by (nonlinear_arith)
            requires
                o != (0int, 0int),
        ;
    }
}

/// Pixels `i` and `j` of a `w` x `h` grid are different and touch: their
/// columns differ by at most one, and so do their rows.
pub open spec fn touching(w: int, h: int, i: int, j: int) -> bool {
    &&& 0 <= j < w * h
    &&& j != i
    &&& -1 <= j % w - i % w <= 1
    &&& -1 <= j / w - i / w <= 1
}

/// Exactly one skeleton pixel of `g` touches pixel `i`.
pub open spec fn lone_end(g: Seq<u8>, w: int, h: int, i: int) -> bool {
    exists|j: int|
        #[trigger] touching(w, h, i, j) && g[j] == 1 && forall|k: int| #[trigger] touching(w, h, i, k) && g[k] == 1 ==> k == j
}

/// Scan step `k` from `i`, when it stays on the grid, reaches a touching
/// pixel, moved by the step's column and row offsets.
proof fn lemma_step_touches(w: int, h: int, i: int, k: int)
    requires
        w >= 0,
        h >= 0,
        0 <= i < w * h,
        0 <= k < 8,
        neighbour(w, h, i, scan_dx(k), scan_dy(k)) is Some,
    ensures
        touching(w, h, i, neighbour(w, h, i, scan_dx(k), scan_dy(k))->0),
        neighbour(w, h, i, scan_dx(k), scan_dy(k))->0 % w - i % w == scan_dx(k),
        neighbour(w, h, i, scan_dx(k), scan_dy(k))->0 / w - i / w == scan_dy(k),
{
    lemma_index(w, h, i);
    let x = i % w + scan_dx(k);
    let y = i / w + scan_dy(k);
    lemma_coords(w, h, x, y);
}

/// A pixel touching `i` is reached by one of the eight scan steps.
proof fn lemma_touch_step(w: int, h: int, i: int, j: int)
    requires
        w >= 0,
        h >= 0,
        0 <= i < w * h,
        touching(w, h, i, j),
    ensures
        exists|k: int| 0 <= k < 8 && #[trigger] neighbour(w, h, i, scan_dx(k), scan_dy(k)) == Some(j),
{
    lemma_index(w, h, i);
    lemma_index(w, h, j);
    let dx = j % w - i % w;
    let dy = j / w - i / w;
    assert(king_step(dx, dy));
    lemma_scan_covers(dx, dy);
    let k = choose|k: int| 0 <= k < 8 && scan_dx(k) == dx && scan_dy(k) == dy;
    lemma_coords(w, h, j % w, j / w);
    assert(neighbour(w, h, i, scan_dx(k), scan_dy(k)) == Some(j));
}

/// Scan step `k` from `i` lands on a skeleton pixel.
pub open spec fn step_hits(g: Seq<u8>, w: int, h: int, i: int, k: int) -> bool {
    neighbour(w, h, i, scan_dx(k), scan_dy(k)) is Some && g[neighbour(w, h, i, scan_dx(k), scan_dy(k))->0] == 1
}

/// A pixel has one skeleton neighbour by the scan count exactly when one
/// skeleton pixel touches it.
proof fn lemma_degree_one(g: Seq<u8>, w: int, h: int, i: int)
    requires
        w >= 0,
        h >= 0,
        0 <= i < w * h,
    ensures
        (degree(g, w, h, i) == 1) == lone_end(g, w, h, i),
{
    reveal_with_fuel(degree_upto, 9);
    let hit = |k: int| if step_hits(g, w, h, i, k) { 1int } else { 0int };
    assert(degree(g, w, h, i) == hit(0) + hit(1) + hit(2) + hit(3) + hit(4) + hit(5) + hit(6) + hit(7));
    if degree(g, w, h, i) == 1 {
        assert(exists|k: int| 0 <= k < 8 && #[trigger] step_hits(g, w, h, i, k)) by {
            if !step_hits(g, w, h, i, 0) && !step_hits(g, w, h, i, 1) && !step_hits(g, w, h, i, 2)
                && !step_hits(g, w, h, i, 3) && !step_hits(g, w, h, i, 4) && !step_hits(g, w, h, i, 5)
                && !step_hits(g, w, h, i, 6) {
                assert(step_hits(g, w, h, i, 7));
            }
        }
        let k0 = choose|k: int| 0 <= k < 8 && #[trigger] step_hits(g, w, h, i, k);
        assert forall|k: int| 0 <= k < 8 && k != k0 implies !#[trigger] step_hits(g, w, h, i, k) by {
            assert(k == 0 || k == 1 || k == 2 || k == 3 || k == 4 || k == 5 || k == 6 || k == 7);
            assert(k0 == 0 || k0 == 1 || k0 == 2 || k0 == 3 || k0 == 4 || k0 == 5 || k0 == 6 || k0 == 7);
        }
        let j = neighbour(w, h, i, scan_dx(k0), scan_dy(k0))->0;
        lemma_step_touches(w, h, i, k0);
        assert forall|m: int| #[trigger] touching(w, h, i, m) && g[m] == 1 implies m == j by {
            lemma_touch_step(w, h, i, m);
            let k = choose|k: int| 0 <= k < 8 && #[trigger] neighbour(w, h, i, scan_dx(k), scan_dy(k)) == Some(m);
            assert(step_hits(g, w, h, i, k));
        }
        assert(touching(w, h, i, j));
    }
    if lone_end(g, w, h, i) {
        let j = choose|j: int|
            #[trigger] touching(w, h, i, j) && g[j] == 1 && forall|k: int| #[trigger] touching(w, h, i, k) && g[k] == 1 ==> k == j;
        lemma_touch_step(w, h, i, j);
        let k0 = choose|k: int| 0 <= k < 8 && #[trigger] neighbour(w, h, i, scan_dx(k), scan_dy(k)) == Some(j);
        assert(step_hits(g, w, h, i, k0));
        assert forall|k: int| 0 <= k < 8 && k != k0 implies !#[trigger] step_hits(g, w, h, i, k) by {
            if step_hits(g, w, h, i, k) {
                lemma_step_touches(w, h, i, k);
                lemma_step_touches(w, h, i, k0);
                let m = neighbour(w, h, i, scan_dx(k), scan_dy(k))->0;
                assert(touching(w, h, i, m));
                assert(m == j);
                assert(k == 0 || k == 1 || k == 2 || k == 3 || k == 4 || k == 5 || k == 6 || k == 7);
                assert(k0 == 0 || k0 == 1 || k0 == 2 || k0 == 3 || k0 == 4 || k0 == 5 || k0 == 6 || k0 == 7);
            }
        }
        assert(k0 == 0 || k0 == 1 || k0 == 2 || k0 == 3 || k0 == 4 || k0 == 5 || k0 == 6 || k0 == 7);
    }
}

/// Pixel `a` is at least as far left as pixel `b`, and when in the same
/// column, at least as high.
pub open spec fn left_then_up(a: int, b: int, w: int) -> bool {
    a % w < b % w || (a % w == b % w && a / w <= b / w)
}

/// The walk `order` starts at a stroke end of its pixels when there is one,
/// the leftmost (then topmost) of them; with no stroke end, at its leftmost
/// (then topmost) pixel.
pub open spec fn starts_at_left_end(g: Seq<u8>, w: int, h: int, order: Seq<usize>) -> bool {
    &&& order.len() > 0
    &&& (exists|t: int| 0 <= t < order.len() && #[trigger] lone_end(g, w, h, order[t] as int)) ==> {
        &&& lone_end(g, w, h, order[0] as int)
        &&& forall|t: int|
            0 <= t < order.len() && #[trigger] lone_end(g, w, h, order[t] as int) ==> left_then_up(
                order[0] as int,
                order[t] as int,
                w,
            )
    }
    &&& !(exists|t: int| 0 <= t < order.len() && #[trigger] lone_end(g, w, h, order[t] as int))
        ==> forall|t: int| 0 <= t < order.len() ==> left_then_up(order[0] as int, #[trigger] order[t] as int, w)
}

/// Squared column difference plus squared row difference of pixels `a` and `b`.
pub open spec fn squared_gap(a: int, b: int, w: int) -> int {
    let (dc, dr) = (a % w - b % w, a / w - b / w);
    dc * dc + dr * dr
}

/// Whenever no skeleton pixel touching the walk's current point is still
/// unvisited, the next point is an unvisited pixel of the walk with the
/// least squared gap from the current point.
pub open spec fn restarts_nearest(g: Seq<u8>, w: int, h: int, order: Seq<usize>) -> bool {
    forall|k: int|
        1 <= k < order.len() && (forall|j: int|
            #[trigger] touching(w, h, order[k - 1] as int, j) && g[j] == 1 ==> order.subrange(0, k).contains(j as usize))
            ==> {
            &&& !order.subrange(0, k).contains(#[trigger] order[k])
            &&& forall|t: int|
                0 <= t < order.len() && !order.subrange(0, k).contains(#[trigger] order[t]) ==> squared_gap(
                    order[k] as int,
                    order[k - 1] as int,
                    w,
                ) <= squared_gap(order[t] as int, order[k - 1] as int, w)
        }
}

/// Law: the walk of a piece starts at the piece's leftmost stroke end (ties
/// to the topmost), or at its leftmost pixel when it has no stroke end.
pub proof fn law_walk_starts_at_left_end(members: Seq<usize>, g: Seq<u8>, w: int, h: int, order: Seq<usize>)
    requires
        w >= 0,
        h >= 0,
        is_walk(members, g, w, h, order),
        forall|t: int| 0 <= t < members.len() ==> #[trigger] members[t] < w * h,
    ensures
        starts_at_left_end(g, w, h, order),
{
    let s = order[0] as int;
    assert(is_start(members, g, w, h, s));
    assert(members.contains(s as usize));
    assert(order.contains(order[0]));
    let ts = choose|t: int| 0 <= t < members.len() && members[t] == s as usize;
    assert forall|t: int| 0 <= t < order.len() implies (#[trigger] order[t] as int) < w * h && exists|u: int|
        0 <= u < members.len() && members[u] == order[t] by {
        assert(order.contains(order[t]));
        assert(members.contains(order[t]));
    }
    if exists|t: int| 0 <= t < order.len() && #[trigger] lone_end(g, w, h, order[t] as int) {
        let t0 = choose|t: int| 0 <= t < order.len() && #[trigger] lone_end(g, w, h, order[t] as int);
        let u0 = choose|u: int| 0 <= u < members.len() && members[u] == order[t0];
        lemma_degree_one(g, w, h, order[t0] as int);
        assert(degree(g, w, h, members[u0] as int) == 1);
        assert(has_endpoint(members, g, w, h));
        lemma_degree_one(g, w, h, s);
        assert forall|t: int|
            0 <= t < order.len() && #[trigger] lone_end(g, w, h, order[t] as int) implies left_then_up(
            s,
            order[t] as int,
            w,
        ) by {
            let u = choose|u: int| 0 <= u < members.len() && members[u] == order[t];
            lemma_degree_one(g, w, h, order[t] as int);
            assert(degree(g, w, h, members[u] as int) == 1);
            if members[u] != s as usize {
                assert(before_xy(s, members[u] as int, w));
            }
        }
    } else {
        assert(!has_endpoint(members, g, w, h)) by {
            if has_endpoint(members, g, w, h) {
                let u = choose|u: int| 0 <= u < members.len() && degree(g, w, h, #[trigger] members[u] as int) == 1;
                assert(members[u] < w * h);
                lemma_degree_one(g, w, h, members[u] as int);
                assert(order.contains(members[u]));
                let t = choose|t: int| 0 <= t < order.len() && order[t] == members[u];
                assert(lone_end(g, w, h, order[t] as int));
            }
        }
        assert forall|t: int| 0 <= t < order.len() implies left_then_up(s, #[trigger] order[t] as int, w) by {
            let u = choose|u: int| 0 <= u < members.len() && members[u] == order[t];
            if members[u] != s as usize {
                assert(before_xy(s, members[u] as int, w));
            }
        }
    }
}

/// Law: when the walk runs out of unvisited skeleton pixels touching its
/// current point, it jumps to an unvisited pixel of the piece at the least
/// squared gap (column difference squared plus row difference squared).
pub proof fn law_walk_restarts_nearest(members: Seq<usize>, g: Seq<u8>, w: int, h: int, order: Seq<usize>)
    requires
        w >= 0,
        h >= 0,
        w * h <= usize::MAX,
        is_walk(members, g, w, h, order),
        forall|t: int| 0 <= t < members.len() ==> #[trigger] members[t] < w * h,
    ensures
        restarts_nearest(g, w, h, order),
{
    assert forall|k: int|
        1 <= k < order.len() && (forall|j: int|
            #[trigger] touching(w, h, order[k - 1] as int, j) && g[j] == 1 ==> order.subrange(0, k).contains(j as usize))
            implies {
            &&& !order.subrange(0, k).contains(#[trigger] order[k])
            &&& forall|t: int|
                0 <= t < order.len() && !order.subrange(0, k).contains(#[trigger] order[t]) ==> squared_gap(
                    order[k] as int,
                    order[k - 1] as int,
                    w,
                ) <= squared_gap(order[t] as int, order[k - 1] as int, w)
        } by {
        let seen = prefix_set(order, k);
        let cur = order[k - 1] as int;
        assert(order.contains(order[k - 1]));
        assert(members.contains(order[k - 1]));
        assert(cur < w * h);
        assert(!has_open_step(g, w, h, seen, cur)) by {
            if has_open_step(g, w, h, seen, cur) {
                let kk = choose|kk: int| 0 <= kk < 8 && #[trigger] open_step(g, w, h, seen, cur, kk);
                lemma_step_touches(w, h, cur, kk);
                let j = neighbour(w, h, cur, scan_dx(kk), scan_dy(kk))->0;
                assert(touching(w, h, cur, j));
                assert(order.subrange(0, k).contains(j as usize));
                assert(seen.contains(j));
            }
        }
        assert(walk_choice(members, g, w, h, order, k));
        let t0 = choose|t: int| best_restart(members, seen, cur, w, t) && #[trigger] members[t] == order[k];
        assert(!seen.contains(members[t0] as int));
        assert(!order.subrange(0, k).contains(order[k]));
        assert forall|t: int|
            0 <= t < order.len() && !order.subrange(0, k).contains(#[trigger] order[t]) implies squared_gap(
            order[k] as int,
            cur,
            w,
        ) <= squared_gap(order[t] as int, cur, w) by {
            assert(order.contains(order[t]));
            assert(members.contains(order[t]));
            let u = choose|u: int| 0 <= u < members.len() && members[u] == order[t];
            assert(!seen.contains(members[u] as int));
            assert(dist2(cur, members[t0] as int, w) <= dist2(cur, members[u] as int, w));
            lemma_gap_symmetric(cur, members[t0] as int, w);
            lemma_gap_symmetric(cur, members[u] as int, w);
        }
    }
}

proof fn lemma_gap_symmetric(a: int, b: int, w: int)
    ensures
        dist2(a, b, w) == squared_gap(b, a, w),
{
    let (p, q) = (a % w - b % w, a / w - b / w);
    assert(p * p == (-p) * (-p) && q * q == (-q) * (-q)) by (nonlinear_arith);
}

/// The column of `m[t]` is the smallest column of `m`.
pub open spec fn leftmost_at(m: Seq<usize>, w: int, t: int) -> bool {
    forall|u: int| 0 <= u < m.len() ==> (m[t] as int) % w <= (#[trigger] m[u] as int) % w
}

/// `m[t]` is the first pixel of `m` in raster order.
pub open spec fn first_at(m: Seq<usize>, t: int) -> bool {
    forall|u: int| 0 <= u < m.len() ==> m[t] <= #[trigger] m[u]
}

/// Earlier walks lie no further right: the leftmost column of an earlier
/// walk is at most that of a later one, and when the two are equal, the
/// earlier walk's first pixel in raster order comes first.
pub open spec fn walks_left_to_right(w: int, walks: Seq<Seq<usize>>) -> bool {
    &&& forall|c1: int, c2: int, t1: int, t2: int|
        0 <= c1 < c2 < walks.len() && 0 <= t1 < walks[c1].len() && 0 <= t2 < walks[c2].len() && #[trigger] leftmost_at(
            walks[c1],
            w,
            t1,
        ) && #[trigger] leftmost_at(walks[c2], w, t2) ==> (walks[c1][t1] as int) % w <= (walks[c2][t2] as int) % w
    &&& forall|c1: int, c2: int, t1: int, t2: int, s1: int, s2: int|
        0 <= c1 < c2 < walks.len() && 0 <= t1 < walks[c1].len() && 0 <= t2 < walks[c2].len() && 0 <= s1
            < walks[c1].len() && 0 <= s2 < walks[c2].len() && #[trigger] leftmost_at(walks[c1], w, t1)
            && #[trigger] leftmost_at(walks[c2], w, t2) && (walks[c1][t1] as int) % w == (walks[c2][t2] as int) % w
            && #[trigger] first_at(walks[c1], s1) && #[trigger] first_at(walks[c2], s2) ==> walks[c1][s1]
            < walks[c2][s2]
}

/// `leftmost` is the smallest column of a non-empty list of pixels.
proof fn lemma_leftmost_is_min(m: Seq<usize>, w: int)
    requires
        m.len() > 0,
    ensures
        exists|t: int| 0 <= t < m.len() && leftmost(m, w) == (#[trigger] m[t] as int) % w,
        forall|t: int| 0 <= t < m.len() ==> leftmost(m, w) <= (#[trigger] m[t] as int) % w,
    decreases m.len(),
{
    if m.len() == 1 {
        assert(leftmost(m, w) == (m[0] as int) % w);
    } else {
        let r = m.drop_last();
        lemma_leftmost_is_min(r, w);
        let tr = choose|t: int| 0 <= t < r.len() && leftmost(r, w) == (#[trigger] r[t] as int) % w;
        assert(r[tr] == m[tr]);
        assert(m.last() == m[m.len() - 1]);
        assert forall|t: int| 0 <= t < m.len() implies leftmost(m, w) <= (#[trigger] m[t] as int) % w by {
            if t < m.len() - 1 {
                assert(r[t] == m[t]);
            }
        }
    }
}

/// The walks of left-to-right ordered pieces come left to right.
proof fn lemma_walks_ordered(skel: Seq<u8>, w: int, h: int, pieces: Seq<Seq<usize>>, walks: Seq<Seq<usize>>)
    requires
        is_ordered_pieces(skel, w, h, pieces),
        walks.len() == pieces.len(),
        forall|c: int| 0 <= c < pieces.len() ==> is_walk(#[trigger] pieces[c], skel, w, h, walks[c]),
    ensures
        walks_left_to_right(w, walks),
{
    assert forall|c: int, x: usize| 0 <= c < walks.len() implies #[trigger] walks[c].contains(x) == pieces[c].contains(x) by {
        assert(is_walk(pieces[c], skel, w, h, walks[c]));
    }
    assert forall|c: int| 0 <= c < walks.len() implies (#[trigger] walks[c]).len() > 0 by {
        assert(is_walk(pieces[c], skel, w, h, walks[c]));
    }
    assert forall|c1: int, c2: int, t1: int, t2: int|
        0 <= c1 < c2 < walks.len() && 0 <= t1 < walks[c1].len() && 0 <= t2 < walks[c2].len() && #[trigger] leftmost_at(
            walks[c1],
            w,
            t1,
        ) && #[trigger] leftmost_at(walks[c2], w, t2) implies (walks[c1][t1] as int) % w <= (walks[c2][t2] as int) % w
        && (forall|s1: int, s2: int|
            0 <= s1 < walks[c1].len() && 0 <= s2 < walks[c2].len() && (walks[c1][t1] as int) % w == (walks[c2][t2] as int)
                % w && #[trigger] first_at(walks[c1], s1) && #[trigger] first_at(walks[c2], s2) ==> walks[c1][s1]
                < walks[c2][s2]) by {
        let (a, b) = (pieces[c1], pieces[c2]);
        assert(left_of(a, b, w));
        lemma_leftmost_is_min(a, w);
        lemma_leftmost_is_min(b, w);
        // the leftmost columns of walk and piece agree
        let ua = choose|t: int| 0 <= t < a.len() && leftmost(a, w) == (#[trigger] a[t] as int) % w;
        let ub = choose|t: int| 0 <= t < b.len() && leftmost(b, w) == (#[trigger] b[t] as int) % w;
        assert(a.contains(a[ua]));
        assert(walks[c1].contains(a[ua]));
        let va = choose|u: int| 0 <= u < walks[c1].len() && walks[c1][u] == a[ua];
        assert(walks[c1].contains(walks[c1][t1]));
        assert(a.contains(walks[c1][t1]));
        let wa = choose|u: int| 0 <= u < a.len() && a[u] == walks[c1][t1];
        assert(b.contains(b[ub]));
        assert(walks[c2].contains(b[ub]));
        let vb = choose|u: int| 0 <= u < walks[c2].len() && walks[c2][u] == b[ub];
        assert(walks[c2].contains(walks[c2][t2]));
        assert(b.contains(walks[c2][t2]));
        let wb = choose|u: int| 0 <= u < b.len() && b[u] == walks[c2][t2];
        assert((walks[c1][t1] as int) % w == leftmost(a, w)) by {
            assert((walks[c1][t1] as int) % w <= (walks[c1][va] as int) % w);
            assert(leftmost(a, w) <= (a[wa] as int) % w);
        }
        assert((walks[c2][t2] as int) % w == leftmost(b, w)) by {
            assert((walks[c2][t2] as int) % w <= (walks[c2][vb] as int) % w);
            assert(leftmost(b, w) <= (b[wb] as int) % w);
        }
        assert forall|s1: int, s2: int|
            0 <= s1 < walks[c1].len() && 0 <= s2 < walks[c2].len() && (walks[c1][t1] as int) % w == (walks[c2][t2] as int)
                % w && #[trigger] first_at(walks[c1], s1) && #[trigger] first_at(walks[c2], s2) implies walks[c1][s1]
                < walks[c2][s2] by {
            assert(a.contains(a[0]) && walks[c1].contains(a[0]));
            assert(b.contains(b[0]) && walks[c2].contains(b[0]));
            let p1 = choose|u: int| 0 <= u < walks[c1].len() && walks[c1][u] == a[0];
            let p2 = choose|u: int| 0 <= u < walks[c2].len() && walks[c2][u] == b[0];
            assert(walks[c1].contains(walks[c1][s1]) && a.contains(walks[c1][s1]));
            assert(walks[c2].contains(walks[c2][s2]) && b.contains(walks[c2][s2]));
            let q1 = choose|u: int| 0 <= u < a.len() && a[u] == walks[c1][s1];
            let q2 = choose|u: int| 0 <= u < b.len() && b[u] == walks[c2][s2];
            assert(walks[c1][s1] <= walks[c1][p1]);
            assert(a[0] <= a[q1]);
            assert(walks[c2][s2] <= walks[c2][p2]);
            assert(b[0] <= b[q2]);
        }
    }
}

/// Law: the traced stroke is the skeleton's walks one after another, the
/// walks ordered left to right; every walk starts at its leftmost (then
/// topmost) stroke end, or at its leftmost pixel when it has no stroke end,
/// goes straight where it can, and whenever it runs out of unvisited
/// skeleton pixels touching its current point jumps to an unvisited pixel of
/// its own at the least squared gap.
pub proof fn law_trace_walks(sharp: Seq<u8>, w: int, h: int, out: Seq<StrokePoint>)
    requires
        is_stroke_trace(sharp, w, h, out),
        w >= 0,
        h >= 0,
        w * h <= usize::MAX,
    ensures
        exists|skel: Seq<u8>, walks: Seq<Seq<usize>>|
            {
                &&& #[trigger] is_thinning(inked(sharp), w, h, skel)
                &&& trace_pixels(out) == #[trigger] flatten(walks)
                &&& walks_left_to_right(w, walks)
                &&& forall|c: int|
                    0 <= c < walks.len() ==> starts_at_left_end(skel, w, h, #[trigger] walks[c])
                        && steps_straight(skel, w, h, walks[c]) && restarts_nearest(skel, w, h, walks[c])
            },
{
    let (skel, pieces, walks) = choose|skel0: Seq<u8>, pieces: Seq<Seq<usize>>, walks: Seq<Seq<usize>>|
        {
            &&& #[trigger] is_thinning(inked(sharp), w, h, skel0)
            &&& #[trigger] is_ordered_pieces(skel0, w, h, pieces)
            &&& walks.len() == pieces.len()
            &&& forall|c: int| 0 <= c < pieces.len() ==> is_walk(#[trigger] pieces[c], skel0, w, h, walks[c])
            &&& out.map_values(|p: StrokePoint| p.pixel) == #[trigger] flatten(walks)
            &&& forall|k: int|
                0 <= k < out.len() ==> (#[trigger] out[k]).half_width_sq == d2(
                    distance_offsets(background(sharp), w, h)[out[k].pixel as int],
                )
        };
    assert forall|c: int| 0 <= c < walks.len() implies starts_at_left_end(skel, w, h, #[trigger] walks[c])
        && steps_straight(skel, w, h, walks[c]) && restarts_nearest(skel, w, h, walks[c]) by {
        assert(is_walk(pieces[c], skel, w, h, walks[c]));
        assert forall|t: int| 0 <= t < pieces[c].len() implies #[trigger] pieces[c][t] < w * h by {
            assert(on_skeleton(skel, w, h, pieces[c][t] as int));
        }
        law_walk_starts_at_left_end(pieces[c], skel, w, h, walks[c]);
        law_walk_restarts_nearest(pieces[c], skel, w, h, walks[c]);
        law_walk_steps_straight(pieces[c], skel, w, h, walks[c]);
    }
    lemma_walks_ordered(skel, w, h, pieces, walks);
    assert(trace_pixels(out) == flatten(walks));
}

/// The walk's heading when it picks its `k`-th point: rightward for the
/// second point, afterwards the column and row signs of the last move.
pub open spec fn heading(order: Seq<usize>, w: int, k: int) -> (int, int) {
    if k <= 1 {
        (1, 0)
    } else {
        let dc = order[k - 1] as int % w - order[k - 2] as int % w;
        let dr = order[k - 1] as int / w - order[k - 2] as int / w;
        (
            if dc > 0 { 1int } else if dc < 0 { -1int } else { 0int },
            if dr > 0 { 1int } else if dr < 0 { -1int } else { 0int },
        )
    }
}

/// How far the move from pixel `a` to pixel `b` goes along heading `d`
/// (the dot product of the column and row differences with `d`).
pub open spec fn along(a: int, b: int, w: int, d: (int, int)) -> int {
    (b % w - a % w) * d.0 + (b / w - a / w) * d.1
}

/// How well the move from `a` to a touching pixel `b` continues heading `d`,
/// scaled to an integer: twice the square of (reach along `d`) / (move
/// length), with the sign of the reach. Larger is straighter.
pub open spec fn straightness(a: int, b: int, w: int, d: (int, int)) -> int {
    let p = along(a, b, w, d);
    let diagonal = b % w != a % w && b / w != a / w;
    let mag = if p >= 0 { p * p } else { -(p * p) };
    if diagonal { mag } else { 2 * mag }
}

/// A skeleton pixel of `g` touching `cur` that the walk has not visited in
/// its first `k` points.
pub open spec fn open_neighbour(g: Seq<u8>, w: int, h: int, order: Seq<usize>, k: int, cur: int, j: int) -> bool {
    touching(w, h, cur, j) && g[j] == 1 && !order.subrange(0, k).contains(j as usize)
}

/// Whenever an unvisited skeleton pixel touches the walk's current point, the
/// next point is one of them: none lies further along the heading, the one
/// straight ahead is taken when it is there, none is straighter, and of
/// equally straight ones the first in raster order is taken.
pub open spec fn steps_straight(g: Seq<u8>, w: int, h: int, order: Seq<usize>) -> bool {
    forall|k: int, j: int|
        1 <= k < order.len() && #[trigger] open_neighbour(g, w, h, order, k, order[k - 1] as int, j) ==> {
            let cur = order[k - 1] as int;
            let nxt = order[k] as int;
            let d = heading(order, w, k);
            &&& open_neighbour(g, w, h, order, k, cur, nxt)
            &&& along(cur, j, w, d) <= along(cur, nxt, w, d)
            &&& (j % w - cur % w == d.0 && j / w - cur / w == d.1 ==> nxt == j)
            &&& straightness(cur, j, w, d) <= straightness(cur, nxt, w, d)
            &&& (straightness(cur, j, w, d) == straightness(cur, nxt, w, d) ==> nxt <= j)
        }
}

/// Signed squares of the small reaches.
proof fn lemma_signed_square_small(v: int)
    requires
        -2 <= v <= 2,
    ensures
        signed_square(v) == if v == 2 {
            4int
        } else if v == 1 {
            1int
        } else if v == 0 {
            0int
        } else if v == -1 {
            -1int
        } else {
            -4int
        },
{
    assert(v * v == if v == 2 || v == -2 { 4int } else if v == 0 { 0int } else { 1int }) by (nonlinear_arith)
        requires
            -2 <= v <= 2,
    {
        assert(v == -2 || v == -1 || v == 0 || v == 1 || v == 2);
    }
}

/// How far the step straight along heading `d` goes along it.
spec fn reach_top(d: (int, int)) -> int {
    if d.0 != 0 && d.1 != 0 {
        2
    } else {
        1
    }
}

/// The step key of a step that goes `p` along the heading.
spec fn key_by_reach(p: int, diag: bool) -> int {
    if p == 2 {
        4
    } else if p == 1 {
        if diag { 1 } else { 2 }
    } else if p == 0 {
        0
    } else if p == -1 {
        if diag { -1 } else { -2 }
    } else {
        -4
    }
}

/// The step key of scan step `k` for heading `d`, read off from how far the
/// step goes along `d` and whether it is diagonal.
proof fn lemma_step_key_values(k: int, d: (int, int))
    requires
        0 <= k < 8,
        -1 <= d.0 <= 1,
        -1 <= d.1 <= 1,
    ensures
        -2 <= scan_dx(k) * d.0 + scan_dy(k) * d.1 <= 2,
        (scan_dx(k) * d.0 + scan_dy(k) * d.1 == 2 || scan_dx(k) * d.0 + scan_dy(k) * d.1 == -2) ==> (scan_dx(k)
            != 0 && scan_dy(k) != 0),
        step_key(k, d) == key_by_reach(scan_dx(k) * d.0 + scan_dy(k) * d.1, scan_dx(k) != 0 && scan_dy(k) != 0),
        d != (0int, 0int) ==> scan_dx(k) * d.0 + scan_dy(k) * d.1 <= reach_top(d),
        d != (0int, 0int) && scan_dx(k) * d.0 + scan_dy(k) * d.1 == reach_top(d) && (scan_dx(k) != 0 && scan_dy(k)
            != 0) == (d.0 != 0 && d.1 != 0) ==> scan_dx(k) == d.0 && scan_dy(k) == d.1,
        scan_dx(k) == d.0 && scan_dy(k) == d.1 && d != (0int, 0int) ==> scan_dx(k) * d.0 + scan_dy(k) * d.1
            == reach_top(d),
{
    if k == 0 {
        assert(scan_dx(k) == -1 && scan_dy(k) == -1);
        if d.0 == -1 && d.1 == -1 {
            assert(d == (-1int, -1int));
            assert(scan_dx(k) * d.0 + scan_dy(k) * d.1 == scan_dx(k) * -1 + scan_dy(k) * -1);
            lemma_signed_square_small(scan_dx(k) * d.0 + scan_dy(k) * d.1);
        } else if d.0 == -1 && d.1 == 0 {
            assert(d == (-1int, 0int));
            assert(scan_dx(k) * d.0 + scan_dy(k) * d.1 == scan_dx(k) * -1 + scan_dy(k) * 0);
            lemma_signed_square_small(scan_dx(k) * d.0 + scan_dy(k) * d.1);
        } else if d.0 == -1 && d.1 == 1 {
            assert(d == (-1int, 1int));
            assert(scan_dx(k) * d.0 + scan_dy(k) * d.1 == scan_dx(k) * -1 + scan_dy(k) * 1);
            lemma_signed_square_small(scan_dx(k) * d.0 + scan_dy(k) * d.1);
        } else if d.0 == 0 && d.1 == -1 {
            assert(d == (0int, -1int));
            assert(scan_dx(k) * d.0 + scan_dy(k) * d.1 == scan_dx(k) * 0 + scan_dy(k) * -1);
            lemma_signed_square_small(scan_dx(k) * d.0 + scan_dy(k) * d.1);
        } else if d.0 == 0 && d.1 == 0 {
            assert(d == (0int, 0int));
            assert(scan_dx(k) * d.0 + scan_dy(k) * d.1 == scan_dx(k) * 0 + scan_dy(k) * 0);
            lemma_signed_square_small(scan_dx(k) * d.0 + scan_dy(k) * d.1);
        } else if d.0 == 0 && d.1 == 1 {
            assert(d == (0int, 1int));
            assert(scan_dx(k) * d.0 + scan_dy(k) * d.1 == scan_dx(k) * 0 + scan_dy(k) * 1);
            lemma_signed_square_small(scan_dx(k) * d.0 + scan_dy(k) * d.1);
        } else if d.0 == 1 && d.1 == -1 {
            assert(d == (1int, -1int));
            assert(scan_dx(k) * d.0 + scan_dy(k) * d.1 == scan_dx(k) * 1 + scan_dy(k) * -1);
            lemma_signed_square_small(scan_dx(k) * d.0 + scan_dy(k) * d.1);
        } else if d.0 == 1 && d.1 == 0 {
            assert(d == (1int, 0int));
            assert(scan_dx(k) * d.0 + scan_dy(k) * d.1 == scan_dx(k) * 1 + scan_dy(k) * 0);
            lemma_signed_square_small(scan_dx(k) * d.0 + scan_dy(k) * d.1);
        } else if d.0 == 1 && d.1 == 1 {
            assert(d == (1int, 1int));
            assert(scan_dx(k) * d.0 + scan_dy(k) * d.1 == scan_dx(k) * 1 + scan_dy(k) * 1);
            lemma_signed_square_small(scan_dx(k) * d.0 + scan_dy(k) * d.1);
        }
    } else if k == 1 {
        assert(scan_dx(k) == 0 && scan_dy(k) == -1);
        if d.0 == -1 && d.1 == -1 {
            assert(d == (-1int, -1int));
            assert(scan_dx(k) * d.0 + scan_dy(k) * d.1 == scan_dx(k) * -1 + scan_dy(k) * -1);
            lemma_signed_square_small(scan_dx(k) * d.0 + scan_dy(k) * d.1);
        } else if d.0 == -1 && d.1 == 0 {
            assert(d == (-1int, 0int));
            assert(scan_dx(k) * d.0 + scan_dy(k) * d.1 == scan_dx(k) * -1 + scan_dy(k) * 0);
            lemma_signed_square_small(scan_dx(k) * d.0 + scan_dy(k) * d.1);
        } else if d.0 == -1 && d.1 == 1 {
            assert(d == (-1int, 1int));
            assert(scan_dx(k) * d.0 + scan_dy(k) * d.1 == scan_dx(k) * -1 + scan_dy(k) * 1);
            lemma_signed_square_small(scan_dx(k) * d.0 + scan_dy(k) * d.1);
        } else if d.0 == 0 && d.1 == -1 {
            assert(d == (0int, -1int));
            assert(scan_dx(k) * d.0 + scan_dy(k) * d.1 == scan_dx(k) * 0 + scan_dy(k) * -1);
            lemma_signed_square_small(scan_dx(k) * d.0 + scan_dy(k) * d.1);
        } else if d.0 == 0 && d.1 == 0 {
            assert(d == (0int, 0int));
            assert(scan_dx(k) * d.0 + scan_dy(k) * d.1 == scan_dx(k) * 0 + scan_dy(k) * 0);
            lemma_signed_square_small(scan_dx(k) * d.0 + scan_dy(k) * d.1);
        } else if d.0 == 0 && d.1 == 1 {
            assert(d == (0int, 1int));
            assert(scan_dx(k) * d.0 + scan_dy(k) * d.1 == scan_dx(k) * 0 + scan_dy(k) * 1);
            lemma_signed_square_small(scan_dx(k) * d.0 + scan_dy(k) * d.1);
        } else if d.0 == 1 && d.1 == -1 {
            assert(d == (1int, -1int));
            assert(scan_dx(k) * d.0 + scan_dy(k) * d.1 == scan_dx(k) * 1 + scan_dy(k) * -1);
            lemma_signed_square_small(scan_dx(k) * d.0 + scan_dy(k) * d.1);
        } else if d.0 == 1 && d.1 == 0 {
            assert(d == (1int, 0int));
            assert(scan_dx(k) * d.0 + scan_dy(k) * d.1 == scan_dx(k) * 1 + scan_dy(k) * 0);
            lemma_signed_square_small(scan_dx(k) * d.0 + scan_dy(k) * d.1);
        } else if d.0 == 1 && d.1 == 1 {
            assert(d == (1int, 1int));
            assert(scan_dx(k) * d.0 + scan_dy(k) * d.1 == scan_dx(k) * 1 + scan_dy(k) * 1);
            lemma_signed_square_small(scan_dx(k) * d.0 + scan_dy(k) * d.1);
        }
    } else if k == 2 {
        assert(scan_dx(k) == 1 && scan_dy(k) == -1);
        if d.0 == -1 && d.1 == -1 {
            assert(d == (-1int, -1int));
            assert(scan_dx(k) * d.0 + scan_dy(k) * d.1 == scan_dx(k) * -1 + scan_dy(k) * -1);
            lemma_signed_square_small(scan_dx(k) * d.0 + scan_dy(k) * d.1);
        } else if d.0 == -1 && d.1 == 0 {
            assert(d == (-1int, 0int));
            assert(scan_dx(k) * d.0 + scan_dy(k) * d.1 == scan_dx(k) * -1 + scan_dy(k) * 0);
            lemma_signed_square_small(scan_dx(k) * d.0 + scan_dy(k) * d.1);
        } else if d.0 == -1 && d.1 == 1 {
            assert(d == (-1int, 1int));
            assert(scan_dx(k) * d.0 + scan_dy(k) * d.1 == scan_dx(k) * -1 + scan_dy(k) * 1);
            lemma_signed_square_small(scan_dx(k) * d.0 + scan_dy(k) * d.1);
        } else if d.0 == 0 && d.1 == -1 {
            assert(d == (0int, -1int));
            assert(scan_dx(k) * d.0 + scan_dy(k) * d.1 == scan_dx(k) * 0 + scan_dy(k) * -1);
            lemma_signed_square_small(scan_dx(k) * d.0 + scan_dy(k) * d.1);
        } else if d.0 == 0 && d.1 == 0 {
            assert(d == (0int, 0int));
            assert(scan_dx(k) * d.0 + scan_dy(k) * d.1 == scan_dx(k) * 0 + scan_dy(k) * 0);
            lemma_signed_square_small(scan_dx(k) * d.0 + scan_dy(k) * d.1);
        } else if d.0 == 0 && d.1 == 1 {
            assert(d == (0int, 1int));
            assert(scan_dx(k) * d.0 + scan_dy(k) * d.1 == scan_dx(k) * 0 + scan_dy(k) * 1);
            lemma_signed_square_small(scan_dx(k) * d.0 + scan_dy(k) * d.1);
        } else if d.0 == 1 && d.1 == -1 {
            assert(d == (1int, -1int));
            assert(scan_dx(k) * d.0 + scan_dy(k) * d.1 == scan_dx(k) * 1 + scan_dy(k) * -1);
            lemma_signed_square_small(scan_dx(k) * d.0 + scan_dy(k) * d.1);
        } else if d.0 == 1 && d.1 == 0 {
            assert(d == (1int, 0int));
            assert(scan_dx(k) * d.0 + scan_dy(k) * d.1 == scan_dx(k) * 1 + scan_dy(k) * 0);
            lemma_signed_square_small(scan_dx(k) * d.0 + scan_dy(k) * d.1);
        } else if d.0 == 1 && d.1 == 1 {
            assert(d == (1int, 1int));
            assert(scan_dx(k) * d.0 + scan_dy(k) * d.1 == scan_dx(k) * 1 + scan_dy(k) * 1);
            lemma_signed_square_small(scan_dx(k) * d.0 + scan_dy(k) * d.1);
        }
    } else if k == 3 {
        assert(scan_dx(k) == -1 && scan_dy(k) == 0);
        if d.0 == -1 && d.1 == -1 {
            assert(d == (-1int, -1int));
            assert(scan_dx(k) * d.0 + scan_dy(k) * d.1 == scan_dx(k) * -1 + scan_dy(k) * -1);
            lemma_signed_square_small(scan_dx(k) * d.0 + scan_dy(k) * d.1);
        } else if d.0 == -1 && d.1 == 0 {
            assert(d == (-1int, 0int));
            assert(scan_dx(k) * d.0 + scan_dy(k) * d.1 == scan_dx(k) * -1 + scan_dy(k) * 0);
            lemma_signed_square_small(scan_dx(k) * d.0 + scan_dy(k) * d.1);
        } else if d.0 == -1 && d.1 == 1 {
            assert(d == (-1int, 1int));
            assert(scan_dx(k) * d.0 + scan_dy(k) * d.1 == scan_dx(k) * -1 + scan_dy(k) * 1);
            lemma_signed_square_small(scan_dx(k) * d.0 + scan_dy(k) * d.1);
        } else if d.0 == 0 && d.1 == -1 {
            assert(d == (0int, -1int));
            assert(scan_dx(k) * d.0 + scan_dy(k) * d.1 == scan_dx(k) * 0 + scan_dy(k) * -1);
            lemma_signed_square_small(scan_dx(k) * d.0 + scan_dy(k) * d.1);
        } else if d.0 == 0 && d.1 == 0 {
            assert(d == (0int, 0int));
            assert(scan_dx(k) * d.0 + scan_dy(k) * d.1 == scan_dx(k) * 0 + scan_dy(k) * 0);
            lemma_signed_square_small(scan_dx(k) * d.0 + scan_dy(k) * d.1);
        } else if d.0 == 0 && d.1 == 1 {
            assert(d == (0int, 1int));
            assert(scan_dx(k) * d.0 + scan_dy(k) * d.1 == scan_dx(k) * 0 + scan_dy(k) * 1);
            lemma_signed_square_small(scan_dx(k) * d.0 + scan_dy(k) * d.1);
        } else if d.0 == 1 && d.1 == -1 {
            assert(d == (1int, -1int));
            assert(scan_dx(k) * d.0 + scan_dy(k) * d.1 == scan_dx(k) * 1 + scan_dy(k) * -1);
            lemma_signed_square_small(scan_dx(k) * d.0 + scan_dy(k) * d.1);
        } else if d.0 == 1 && d.1 == 0 {
            assert(d == (1int, 0int));
            assert(scan_dx(k) * d.0 + scan_dy(k) * d.1 == scan_dx(k) * 1 + scan_dy(k) * 0);
            lemma_signed_square_small(scan_dx(k) * d.0 + scan_dy(k) * d.1);
        } else if d.0 == 1 && d.1 == 1 {
            assert(d == (1int, 1int));
            assert(scan_dx(k) * d.0 + scan_dy(k) * d.1 == scan_dx(k) * 1 + scan_dy(k) * 1);
            lemma_signed_square_small(scan_dx(k) * d.0 + scan_dy(k) * d.1);
        }
    } else if k == 4 {
        assert(scan_dx(k) == 1 && scan_dy(k) == 0);
        if d.0 == -1 && d.1 == -1 {
            assert(d == (-1int, -1int));
            assert(scan_dx(k) * d.0 + scan_dy(k) * d.1 == scan_dx(k) * -1 + scan_dy(k) * -1);
            lemma_signed_square_small(scan_dx(k) * d.0 + scan_dy(k) * d.1);
        } else if d.0 == -1 && d.1 == 0 {
            assert(d == (-1int, 0int));
            assert(scan_dx(k) * d.0 + scan_dy(k) * d.1 == scan_dx(k) * -1 + scan_dy(k) * 0);
            lemma_signed_square_small(scan_dx(k) * d.0 + scan_dy(k) * d.1);
        } else if d.0 == -1 && d.1 == 1 {
            assert(d == (-1int, 1int));
            assert(scan_dx(k) * d.0 + scan_dy(k) * d.1 == scan_dx(k) * -1 + scan_dy(k) * 1);
            lemma_signed_square_small(scan_dx(k) * d.0 + scan_dy(k) * d.1);
        } else if d.0 == 0 && d.1 == -1 {
            assert(d == (0int, -1int));
            assert(scan_dx(k) * d.0 + scan_dy(k) * d.1 == scan_dx(k) * 0 + scan_dy(k) * -1);
            lemma_signed_square_small(scan_dx(k) * d.0 + scan_dy(k) * d.1);
        } else if d.0 == 0 && d.1 == 0 {
            assert(d == (0int, 0int));
            assert(scan_dx(k) * d.0 + scan_dy(k) * d.1 == scan_dx(k) * 0 + scan_dy(k) * 0);
            lemma_signed_square_small(scan_dx(k) * d.0 + scan_dy(k) * d.1);
        } else if d.0 == 0 && d.1 == 1 {
            assert(d == (0int, 1int));
            assert(scan_dx(k) * d.0 + scan_dy(k) * d.1 == scan_dx(k) * 0 + scan_dy(k) * 1);
            lemma_signed_square_small(scan_dx(k) * d.0 + scan_dy(k) * d.1);
        } else if d.0 == 1 && d.1 == -1 {
            assert(d == (1int, -1int));
            assert(scan_dx(k) * d.0 + scan_dy(k) * d.1 == scan_dx(k) * 1 + scan_dy(k) * -1);
            lemma_signed_square_small(scan_dx(k) * d.0 + scan_dy(k) * d.1);
        } else if d.0 == 1 && d.1 == 0 {
            assert(d == (1int, 0int));
            assert(scan_dx(k) * d.0 + scan_dy(k) * d.1 == scan_dx(k) * 1 + scan_dy(k) * 0);
            lemma_signed_square_small(scan_dx(k) * d.0 + scan_dy(k) * d.1);
        } else if d.0 == 1 && d.1 == 1 {
            assert(d == (1int, 1int));
            assert(scan_dx(k) * d.0 + scan_dy(k) * d.1 == scan_dx(k) * 1 + scan_dy(k) * 1);
            lemma_signed_square_small(scan_dx(k) * d.0 + scan_dy(k) * d.1);
        }
    } else if k == 5 {
        assert(scan_dx(k) == -1 && scan_dy(k) == 1);
        if d.0 == -1 && d.1 == -1 {
            assert(d == (-1int, -1int));
            assert(scan_dx(k) * d.0 + scan_dy(k) * d.1 == scan_dx(k) * -1 + scan_dy(k) * -1);
            lemma_signed_square_small(scan_dx(k) * d.0 + scan_dy(k) * d.1);
        } else if d.0 == -1 && d.1 == 0 {
            assert(d == (-1int, 0int));
            assert(scan_dx(k) * d.0 + scan_dy(k) * d.1 == scan_dx(k) * -1 + scan_dy(k) * 0);
            lemma_signed_square_small(scan_dx(k) * d.0 + scan_dy(k) * d.1);
        } else if d.0 == -1 && d.1 == 1 {
            assert(d == (-1int, 1int));
            assert(scan_dx(k) * d.0 + scan_dy(k) * d.1 == scan_dx(k) * -1 + scan_dy(k) * 1);
            lemma_signed_square_small(scan_dx(k) * d.0 + scan_dy(k) * d.1);
        } else if d.0 == 0 && d.1 == -1 {
            assert(d == (0int, -1int));
            assert(scan_dx(k) * d.0 + scan_dy(k) * d.1 == scan_dx(k) * 0 + scan_dy(k) * -1);
            lemma_signed_square_small(scan_dx(k) * d.0 + scan_dy(k) * d.1);
        } else if d.0 == 0 && d.1 == 0 {
            assert(d == (0int, 0int));
            assert(scan_dx(k) * d.0 + scan_dy(k) * d.1 == scan_dx(k) * 0 + scan_dy(k) * 0);
            lemma_signed_square_small(scan_dx(k) * d.0 + scan_dy(k) * d.1);
        } else if d.0 == 0 && d.1 == 1 {
            assert(d == (0int, 1int));
            assert(scan_dx(k) * d.0 + scan_dy(k) * d.1 == scan_dx(k) * 0 + scan_dy(k) * 1);
            lemma_signed_square_small(scan_dx(k) * d.0 + scan_dy(k) * d.1);
        } else if d.0 == 1 && d.1 == -1 {
            assert(d == (1int, -1int));
            assert(scan_dx(k) * d.0 + scan_dy(k) * d.1 == scan_dx(k) * 1 + scan_dy(k) * -1);
            lemma_signed_square_small(scan_dx(k) * d.0 + scan_dy(k) * d.1);
        } else if d.0 == 1 && d.1 == 0 {
            assert(d == (1int, 0int));
            assert(scan_dx(k) * d.0 + scan_dy(k) * d.1 == scan_dx(k) * 1 + scan_dy(k) * 0);
            lemma_signed_square_small(scan_dx(k) * d.0 + scan_dy(k) * d.1);
        } else if d.0 == 1 && d.1 == 1 {
            assert(d == (1int, 1int));
            assert(scan_dx(k) * d.0 + scan_dy(k) * d.1 == scan_dx(k) * 1 + scan_dy(k) * 1);
            lemma_signed_square_small(scan_dx(k) * d.0 + scan_dy(k) * d.1);
        }
    } else if k == 6 {
        assert(scan_dx(k) == 0 && scan_dy(k) == 1);
        if d.0 == -1 && d.1 == -1 {
            assert(d == (-1int, -1int));
            assert(scan_dx(k) * d.0 + scan_dy(k) * d.1 == scan_dx(k) * -1 + scan_dy(k) * -1);
            lemma_signed_square_small(scan_dx(k) * d.0 + scan_dy(k) * d.1);
        } else if d.0 == -1 && d.1 == 0 {
            assert(d == (-1int, 0int));
            assert(scan_dx(k) * d.0 + scan_dy(k) * d.1 == scan_dx(k) * -1 + scan_dy(k) * 0);
            lemma_signed_square_small(scan_dx(k) * d.0 + scan_dy(k) * d.1);
        } else if d.0 == -1 && d.1 == 1 {
            assert(d == (-1int, 1int));
            assert(scan_dx(k) * d.0 + scan_dy(k) * d.1 == scan_dx(k) * -1 + scan_dy(k) * 1);
            lemma_signed_square_small(scan_dx(k) * d.0 + scan_dy(k) * d.1);
        } else if d.0 == 0 && d.1 == -1 {
            assert(d == (0int, -1int));
            assert(scan_dx(k) * d.0 + scan_dy(k) * d.1 == scan_dx(k) * 0 + scan_dy(k) * -1);
            lemma_signed_square_small(scan_dx(k) * d.0 + scan_dy(k) * d.1);
        } else if d.0 == 0 && d.1 == 0 {
            assert(d == (0int, 0int));
            assert(scan_dx(k) * d.0 + scan_dy(k) * d.1 == scan_dx(k) * 0 + scan_dy(k) * 0);
            lemma_signed_square_small(scan_dx(k) * d.0 + scan_dy(k) * d.1);
        } else if d.0 == 0 && d.1 == 1 {
            assert(d == (0int, 1int));
            assert(scan_dx(k) * d.0 + scan_dy(k) * d.1 == scan_dx(k) * 0 + scan_dy(k) * 1);
            lemma_signed_square_small(scan_dx(k) * d.0 + scan_dy(k) * d.1);
        } else if d.0 == 1 && d.1 == -1 {
            assert(d == (1int, -1int));
            assert(scan_dx(k) * d.0 + scan_dy(k) * d.1 == scan_dx(k) * 1 + scan_dy(k) * -1);
            lemma_signed_square_small(scan_dx(k) * d.0 + scan_dy(k) * d.1);
        } else if d.0 == 1 && d.1 == 0 {
            assert(d == (1int, 0int));
            assert(scan_dx(k) * d.0 + scan_dy(k) * d.1 == scan_dx(k) * 1 + scan_dy(k) * 0);
            lemma_signed_square_small(scan_dx(k) * d.0 + scan_dy(k) * d.1);
        } else if d.0 == 1 && d.1 == 1 {
            assert(d == (1int, 1int));
            assert(scan_dx(k) * d.0 + scan_dy(k) * d.1 == scan_dx(k) * 1 + scan_dy(k) * 1);
            lemma_signed_square_small(scan_dx(k) * d.0 + scan_dy(k) * d.1);
        }
    } else if k == 7 {
        assert(scan_dx(k) == 1 && scan_dy(k) == 1);
        if d.0 == -1 && d.1 == -1 {
            assert(d == (-1int, -1int));
            assert(scan_dx(k) * d.0 + scan_dy(k) * d.1 == scan_dx(k) * -1 + scan_dy(k) * -1);
            lemma_signed_square_small(scan_dx(k) * d.0 + scan_dy(k) * d.1);
        } else if d.0 == -1 && d.1 == 0 {
            assert(d == (-1int, 0int));
            assert(scan_dx(k) * d.0 + scan_dy(k) * d.1 == scan_dx(k) * -1 + scan_dy(k) * 0);
            lemma_signed_square_small(scan_dx(k) * d.0 + scan_dy(k) * d.1);
        } else if d.0 == -1 && d.1 == 1 {
            assert(d == (-1int, 1int));
            assert(scan_dx(k) * d.0 + scan_dy(k) * d.1 == scan_dx(k) * -1 + scan_dy(k) * 1);
            lemma_signed_square_small(scan_dx(k) * d.0 + scan_dy(k) * d.1);
        } else if d.0 == 0 && d.1 == -1 {
            assert(d == (0int, -1int));
            assert(scan_dx(k) * d.0 + scan_dy(k) * d.1 == scan_dx(k) * 0 + scan_dy(k) * -1);
            lemma_signed_square_small(scan_dx(k) * d.0 + scan_dy(k) * d.1);
        } else if d.0 == 0 && d.1 == 0 {
            assert(d == (0int, 0int));
            assert(scan_dx(k) * d.0 + scan_dy(k) * d.1 == scan_dx(k) * 0 + scan_dy(k) * 0);
            lemma_signed_square_small(scan_dx(k) * d.0 + scan_dy(k) * d.1);
        } else if d.0 == 0 && d.1 == 1 {
            assert(d == (0int, 1int));
            assert(scan_dx(k) * d.0 + scan_dy(k) * d.1 == scan_dx(k) * 0 + scan_dy(k) * 1);
            lemma_signed_square_small(scan_dx(k) * d.0 + scan_dy(k) * d.1);
        } else if d.0 == 1 && d.1 == -1 {
            assert(d == (1int, -1int));
            assert(scan_dx(k) * d.0 + scan_dy(k) * d.1 == scan_dx(k) * 1 + scan_dy(k) * -1);
            lemma_signed_square_small(scan_dx(k) * d.0 + scan_dy(k) * d.1);
        } else if d.0 == 1 && d.1 == 0 {
            assert(d == (1int, 0int));
            assert(scan_dx(k) * d.0 + scan_dy(k) * d.1 == scan_dx(k) * 1 + scan_dy(k) * 0);
            lemma_signed_square_small(scan_dx(k) * d.0 + scan_dy(k) * d.1);
        } else if d.0 == 1 && d.1 == 1 {
            assert(d == (1int, 1int));
            assert(scan_dx(k) * d.0 + scan_dy(k) * d.1 == scan_dx(k) * 1 + scan_dy(k) * 1);
            lemma_signed_square_small(scan_dx(k) * d.0 + scan_dy(k) * d.1);
        }
    }
}

/// Scan steps with the same offsets are the same step.
proof fn lemma_scan_distinct(k: int, k2: int)
    requires
        0 <= k < 8,
        0 <= k2 < 8,
        scan_dx(k) == scan_dx(k2),
        scan_dy(k) == scan_dy(k2),
    ensures
        k == k2,
{
    assert(k == 0 || k == 1 || k == 2 || k == 3 || k == 4 || k == 5 || k == 6 || k == 7);
    assert(k2 == 0 || k2 == 1 || k2 == 2 || k2 == 3 || k2 == 4 || k2 == 5 || k2 == 6 || k2 == 7);
}

/// A move that goes further along the heading has a larger step key, and
/// the step straight along the heading has the largest key of all.
proof fn lemma_step_key_order(k: int, k2: int, d: (int, int))
    requires
        0 <= k < 8,
        0 <= k2 < 8,
        -1 <= d.0 <= 1,
        -1 <= d.1 <= 1,
        d != (0int, 0int),
    ensures
        scan_dx(k2) * d.0 + scan_dy(k2) * d.1 > scan_dx(k) * d.0 + scan_dy(k) * d.1 ==> step_key(k2, d)
            > step_key(k, d),
        scan_dx(k2) == d.0 && scan_dy(k2) == d.1 && k != k2 ==> step_key(k2, d) > step_key(k, d),
{
    lemma_step_key_values(k, d);
    lemma_step_key_values(k2, d);
    if scan_dx(k2) == d.0 && scan_dy(k2) == d.1 && k != k2 {
        if scan_dx(k) == d.0 && scan_dy(k) == d.1 {
            lemma_scan_distinct(k, k2);
        }
    }
}

/// Law: the walk goes straight where it can. While unvisited skeleton pixels
/// touch its current point it moves to one of them, to none that lies less
/// far along its heading than another, and straight ahead when that pixel
/// is one of them.
pub proof fn law_walk_steps_straight(members: Seq<usize>, g: Seq<u8>, w: int, h: int, order: Seq<usize>)
    requires
        w >= 0,
        h >= 0,
        w * h <= usize::MAX,
        is_walk(members, g, w, h, order),
        forall|t: int| 0 <= t < members.len() ==> #[trigger] members[t] < w * h,
    ensures
        steps_straight(g, w, h, order),
{
    assert forall|k: int, j: int|
        1 <= k < order.len() && #[trigger] open_neighbour(g, w, h, order, k, order[k - 1] as int, j) implies {
            let cur = order[k - 1] as int;
            let nxt = order[k] as int;
            let d = heading(order, w, k);
            &&& open_neighbour(g, w, h, order, k, cur, nxt)
            &&& along(cur, j, w, d) <= along(cur, nxt, w, d)
            &&& (j % w - cur % w == d.0 && j / w - cur / w == d.1 ==> nxt == j)
            &&& straightness(cur, j, w, d) <= straightness(cur, nxt, w, d)
            &&& (straightness(cur, j, w, d) == straightness(cur, nxt, w, d) ==> nxt <= j)
        } by {
        let cur = order[k - 1] as int;
        let nxt = order[k] as int;
        let seen = prefix_set(order, k);
        let d = walk_dir(order, w, k);
        assert(order.contains(order[k - 1]));
        assert(members.contains(order[k - 1]));
        assert(cur < w * h);
        assert(d == heading(order, w, k));
        assert(d != (0int, 0int)) by {
            if k >= 2 {
                assert(order[k - 2] != order[k - 1]);
                assert(order.contains(order[k - 2]));
                assert(members.contains(order[k - 2]));
                lemma_index(w, h, order[k - 2] as int);
                lemma_index(w, h, cur);
            }
        }
        lemma_touch_step(w, h, cur, j);
        let kj = choose|kk: int| 0 <= kk < 8 && #[trigger] neighbour(w, h, cur, scan_dx(kk), scan_dy(kk)) == Some(j);
        assert(!seen.contains(j));
        assert(open_step(g, w, h, seen, cur, kj));
        assert(has_open_step(g, w, h, seen, cur));
        assert(walk_choice(members, g, w, h, order, k));
        let kn = choose|kk: int|
            best_step(g, w, h, seen, cur, d, kk) && #[trigger] neighbour(w, h, cur, scan_dx(kk), scan_dy(kk))
                == Some(order[k] as int);
        lemma_step_touches(w, h, cur, kn);
        lemma_step_touches(w, h, cur, kj);
        assert(open_step(g, w, h, seen, cur, kn));
        assert(!seen.contains(nxt));
        assert(!order.subrange(0, k).contains(nxt as usize)) by {
            if order.subrange(0, k).contains(nxt as usize) {
                assert(seen.contains(nxt));
            }
        }
        assert(step_key(kj, d) <= step_key(kn, d));
        lemma_step_key_order(kn, kj, d);
        assert(along(cur, j, w, d) == scan_dx(kj) * d.0 + scan_dy(kj) * d.1);
        assert(along(cur, nxt, w, d) == scan_dx(kn) * d.0 + scan_dy(kn) * d.1);
        if j % w - cur % w == d.0 && j / w - cur / w == d.1 {
            if kn != kj {
                assert(step_key(kj, d) > step_key(kn, d));
            }
        }
        lemma_straightness_key(w, h, cur, kj, d);
        lemma_straightness_key(w, h, cur, kn, d);
        if straightness(cur, j, w, d) == straightness(cur, nxt, w, d) && nxt != j {
            if kj < kn {
                assert(step_key(kj, d) < step_key(kn, d));
            }
            if kj == kn {
                assert(nxt == j);
            }
            lemma_scan_order_is_raster_order(w, h, cur, kn, kj);
        }
    }
}

/// The straightness of a scan step is its step key.
proof fn lemma_straightness_key(w: int, h: int, cur: int, k: int, d: (int, int))
    requires
        w >= 0,
        h >= 0,
        0 <= cur < w * h,
        0 <= k < 8,
        -1 <= d.0 <= 1,
        -1 <= d.1 <= 1,
        neighbour(w, h, cur, scan_dx(k), scan_dy(k)) is Some,
    ensures
        straightness(cur, neighbour(w, h, cur, scan_dx(k), scan_dy(k))->0, w, d) == step_key(k, d),
{
    lemma_step_touches(w, h, cur, k);
    let j = neighbour(w, h, cur, scan_dx(k), scan_dy(k))->0;
    assert(along(cur, j, w, d) == scan_dx(k) * d.0 + scan_dy(k) * d.1);
    lemma_step_key_values(k, d);
    let p = scan_dx(k) * d.0 + scan_dy(k) * d.1;
    lemma_signed_square_small(p);
}

/// A later scan step from `cur` reaches a later pixel in raster order.
proof fn lemma_scan_order_is_raster_order(w: int, h: int, cur: int, k1: int, k2: int)
    requires
        w >= 0,
        h >= 0,
        0 <= cur < w * h,
        0 <= k1 < k2 < 8,
        neighbour(w, h, cur, scan_dx(k1), scan_dy(k1)) is Some,
        neighbour(w, h, cur, scan_dx(k2), scan_dy(k2)) is Some,
    ensures
        neighbour(w, h, cur, scan_dx(k1), scan_dy(k1))->0 < neighbour(w, h, cur, scan_dx(k2), scan_dy(k2))->0,
{
    lemma_index(w, h, cur);
    let (x, y) = (cur % w, cur / w);
    let (x1, y1) = (x + scan_dx(k1), y + scan_dy(k1));
    let (x2, y2) = (x + scan_dx(k2), y + scan_dy(k2));
    assert(y1 < y2 || (y1 == y2 && x1 < x2)) by {
        assert(k1 == 0 || k1 == 1 || k1 == 2 || k1 == 3 || k1 == 4 || k1 == 5 || k1 == 6);
        assert(k2 == 1 || k2 == 2 || k2 == 3 || k2 == 4 || k2 == 5 || k2 == 6 || k2 == 7);
    }
    assert(y1 * w + x1 < y2 * w + x2) by (nonlinear_arith)
        requires
            y1 < y2 || (y1 == y2 && x1 < x2),
            0 <= x1 < w,
            0 <= x2 < w,
    {
        if y1 < y2 {
            assert(y1 * w + w <= y2 * w);
        }
    }
}

} // verus!
