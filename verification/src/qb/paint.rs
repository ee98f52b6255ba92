//! PAINT: the scanline flood fill.

use vstd::prelude::*;
use crate::qb::screen::{
    fill_where, lemma_fill_where_at, lemma_fill_where_ext, lemma_offset, lemma_offset_injective, lemma_plot_at,
    offset, on_screen, pixel_spec, plot, Screen,
};

verus! {

/// A pixel the fill may not cross: the border colour, or the fill colour.
pub open spec fn blocked(v: u8, fill: u8, border: u8) -> bool {
    v == border || v == fill
}

/// Two pixels side by side or one above the other.
pub open spec fn adjacent(p: (int, int), q: (int, int)) -> bool {
    ||| p.1 == q.1 && (p.0 == q.0 + 1 || q.0 == p.0 + 1)
    ||| p.0 == q.0 && (p.1 == q.1 + 1 || q.1 == p.1 + 1)
}

/// A walk from pixel to adjacent pixel that stays on open pixels of the
/// screen.
pub open spec fn open_walk(
    pixels: Seq<u8>,
    w: int,
    h: int,
    fill: u8,
    border: u8,
    path: Seq<(int, int)>,
) -> bool {
    &&& path.len() > 0
    &&& forall|i: int|
        0 <= i < path.len() ==> on_screen(w, h, (#[trigger] path[i]).0, path[i].1) && !blocked(
            pixels[offset(w, path[i].0, path[i].1)],
            fill,
            border,
        )
    &&& forall|i: int| 0 <= i < path.len() - 1 ==> adjacent(#[trigger] path[i], path[i + 1])
}

/// Whether PAINT seeded at `seed` reaches pixel `p`: some walk over open
/// pixels leads from the one to the other.
pub open spec fn reaches(
    pixels: Seq<u8>,
    w: int,
    h: int,
    fill: u8,
    border: u8,
    seed: (int, int),
    p: (int, int),
) -> bool {
    exists|path: Seq<(int, int)>|
        #[trigger] open_walk(pixels, w, h, fill, border, path) && path[0] == seed && path.last()
            == p
}

/// The framebuffer after PAINT (x, y), fill, border: every pixel reachable
/// from the seed through pixels that are neither the border nor the fill
/// colour, and nothing else, takes the fill colour.
pub open spec fn paint_spec(
    pixels: Seq<u8>,
    w: int,
    h: int,
    x: int,
    y: int,
    fill: u8,
    border: u8,
) -> Seq<u8> {
    fill_where(pixels, w, |px: int, py: int| reaches(pixels, w, h, fill, border, (x, y), (px, py)), fill)
}

/// The number of pixels the fill may still enter.
pub open spec fn open_count(s: Seq<u8>, fill: u8, border: u8) -> nat
    decreases s.len(),
{
    if s.len() == 0 {
        0
    } else {
        open_count(s.drop_last(), fill, border) + if blocked(s.last(), fill, border) {
            0nat
        } else {
            1nat
        }
    }
}

proof fn lemma_open_count_bound(s: Seq<u8>, fill: u8, border: u8)
    ensures
        open_count(s, fill, border) <= s.len(),
    decreases s.len(),
{
    if s.len() > 0 {
        lemma_open_count_bound(s.drop_last(), fill, border);
    }
}

proof fn lemma_open_count_update(s: Seq<u8>, i: int, v: u8, fill: u8, border: u8)
    requires
        0 <= i < s.len(),
    ensures
        open_count(s.update(i, v), fill, border) + (if blocked(s[i], fill, border) {
            0int
        } else {
            1int
        }) == open_count(s, fill, border) + (if blocked(v, fill, border) {
            0int
        } else {
            1int
        }),
    decreases s.len(),
{
    let t = s.update(i, v);
    if i == s.len() - 1 {
        assert(t.drop_last() =~= s.drop_last());
    } else {
        lemma_open_count_update(s.drop_last(), i, v, fill, border);
        assert(t.drop_last() =~= s.drop_last().update(i, v));
    }
}

/// A walk extended by one more open, adjacent pixel is still a walk.
proof fn lemma_reaches_step(
    pixels: Seq<u8>,
    w: int,
    h: int,
    fill: u8,
    border: u8,
    seed: (int, int),
    p: (int, int),
    q: (int, int),
)
    requires
        reaches(pixels, w, h, fill, border, seed, p),
        adjacent(p, q),
        on_screen(w, h, q.0, q.1),
        !blocked(pixels[offset(w, q.0, q.1)], fill, border),
    ensures
        reaches(pixels, w, h, fill, border, seed, q),
{
    let path = choose|path: Seq<(int, int)>|
        #[trigger] open_walk(pixels, w, h, fill, border, path) && path[0] == seed && path.last()
            == p;
    let longer = path.push(q);
    assert(open_walk(pixels, w, h, fill, border, longer)) by {
        assert forall|i: int| 0 <= i < longer.len() - 1 implies adjacent(
            #[trigger] longer[i],
            longer[i + 1],
        ) by {
            if i < path.len() - 1 {
                assert(longer[i] == path[i] && longer[i + 1] == path[i + 1]);
            }
        }
        assert forall|i: int| 0 <= i < longer.len() implies on_screen(
            w,
            h,
            (#[trigger] longer[i]).0,
            longer[i].1,
        ) && !blocked(pixels[offset(w, longer[i].0, longer[i].1)], fill, border) by {
            if i < path.len() {
                assert(longer[i] == path[i]);
            }
        }
    }
    assert(longer[0] == seed && longer.last() == q);
}

/// The seed reaches itself when it is open.
proof fn lemma_reaches_seed(pixels: Seq<u8>, w: int, h: int, fill: u8, border: u8, seed: (int, int))
    requires
        on_screen(w, h, seed.0, seed.1),
        !blocked(pixels[offset(w, seed.0, seed.1)], fill, border),
    ensures
        reaches(pixels, w, h, fill, border, seed, seed),
{
    let path = seq![seed];
    assert(open_walk(pixels, w, h, fill, border, path));
}


/// Every pixel of row y from column a to column b is open.
pub open spec fn row_clear(pixels: Seq<u8>, w: int, fill: u8, border: u8, y: int, a: int, b: int) -> bool {
    forall|x: int| a <= x <= b ==> !blocked(#[trigger] pixels[offset(w, x, y)], fill, border)
}

impl Screen {
    fn is_blocked(&self, x: i32, y: i32, fill: u8, border: u8) -> (b: bool)
        requires
            self.wf(),
        ensures
            b == blocked(self.pixel(x as int, y as int), fill, border),
    {
        let v: u8 = self.pixel_at(x, y);
        v == border || v == fill
    }

    /// Walk left from (sx, sy) to the left end of its open run.
    fn scan_left(&self, sx: i32, sy: i32, fill: u8, border: u8) -> (left: i32)
        requires
            self.wf(),
            on_screen(self.width as int, self.height as int, sx as int, sy as int),
        ensures
            0 <= left <= sx,
            row_clear(self.pixels@, self.width as int, fill, border, sy as int, left as int, sx - 1),
            left == 0 || blocked(
                self.pixels@[offset(self.width as int, left - 1, sy as int)],
                fill,
                border,
            ),
    {
        let mut left: i32 = sx;
        while left > 0 && !self.is_blocked(left - 1, sy, fill, border)
            invariant
                self.wf(),
                on_screen(self.width as int, self.height as int, sx as int, sy as int),
                0 <= left <= sx,
                row_clear(self.pixels@, self.width as int, fill, border, sy as int, left as int, sx - 1),
            decreases left,
        {
            left = left - 1;
        }
        left
    }

    /// Walk right from (sx, sy) to the right end of its open run.
    fn scan_right(&self, sx: i32, sy: i32, fill: u8, border: u8) -> (right: i32)
        requires
            self.wf(),
            on_screen(self.width as int, self.height as int, sx as int, sy as int),
        ensures
            sx <= right < self.width,
            row_clear(self.pixels@, self.width as int, fill, border, sy as int, sx + 1, right as int),
            right == self.width - 1 || blocked(
                self.pixels@[offset(self.width as int, right + 1, sy as int)],
                fill,
                border,
            ),
    {
        let mut right: i32 = sx;
        while right < self.width - 1 && !self.is_blocked(right + 1, sy, fill, border)
            invariant
                self.wf(),
                on_screen(self.width as int, self.height as int, sx as int, sy as int),
                sx <= right < self.width,
                row_clear(self.pixels@, self.width as int, fill, border, sy as int, sx + 1, right as int),
            decreases self.width - right,
        {
            right = right + 1;
        }
        right
    }
}

/// Whether column x of row y starts an open run, counting from column left.
pub open spec fn starts_run(pixels: Seq<u8>, w: int, fill: u8, border: u8, y: int, left: int, x: int) -> bool {
    !blocked(pixels[offset(w, x, y)], fill, border) && (x == left || blocked(
        pixels[offset(w, x - 1, y)],
        fill,
        border,
    ))
}

/// The first pixel of each open run of row y, from column left up to but
/// not including column end, left to right.
pub open spec fn run_starts(
    pixels: Seq<u8>,
    w: int,
    fill: u8,
    border: u8,
    y: int,
    left: int,
    end: int,
) -> Seq<(int, int)>
    decreases end - left,
{
    if end <= left {
        seq![]
    } else {
        run_starts(pixels, w, fill, border, y, left, end - 1) + if starts_run(
            pixels,
            w,
            fill,
            border,
            y,
            left,
            end - 1,
        ) {
            seq![(end - 1, y)]
        } else {
            seq![]
        }
    }
}

pub open spec fn int_pairs(s: Seq<(i32, i32)>) -> Seq<(int, int)> {
    s.map_values(|p: (i32, i32)| (p.0 as int, p.1 as int))
}

proof fn lemma_run_starts_count(pixels: Seq<u8>, w: int, fill: u8, border: u8, y: int, left: int, end: int)
    requires
        left <= end,
    ensures
        2 * run_starts(pixels, w, fill, border, y, left, end).len() <= end - left + (if end > left
            && !blocked(pixels[offset(w, end - 1, y)], fill, border) {
            1int
        } else {
            0int
        }),
    decreases end - left,
{
    if end > left {
        lemma_run_starts_count(pixels, w, fill, border, y, left, end - 1);
    }
}

proof fn lemma_run_starts_entries(pixels: Seq<u8>, w: int, fill: u8, border: u8, y: int, left: int, end: int)
    requires
        left <= end,
    ensures
        forall|i: int|
            0 <= i < run_starts(pixels, w, fill, border, y, left, end).len() ==> {
                let e = #[trigger] run_starts(pixels, w, fill, border, y, left, end)[i];
                &&& e.1 == y
                &&& left <= e.0 < end
                &&& !blocked(pixels[offset(w, e.0, y)], fill, border)
            },
    decreases end - left,
{
    if end > left {
        lemma_run_starts_entries(pixels, w, fill, border, y, left, end - 1);
        let prev = run_starts(pixels, w, fill, border, y, left, end - 1);
        let rs = run_starts(pixels, w, fill, border, y, left, end);
        assert forall|i: int| 0 <= i < rs.len() implies {
            let e = #[trigger] rs[i];
            &&& e.1 == y
            &&& left <= e.0 < end
            &&& !blocked(pixels[offset(w, e.0, y)], fill, border)
        } by {
            if i < prev.len() {
                assert(rs[i] == prev[i]);
            }
        }
    }
}

/// Every open pixel of the row is reached from the start of its run.
pub open spec fn covered_by(starts: Seq<(int, int)>, pixels: Seq<u8>, w: int, fill: u8, border: u8, y: int, x: int) -> bool {
    exists|i: int|
        0 <= i < starts.len() && (#[trigger] starts[i]).0 <= x && row_clear(
            pixels,
            w,
            fill,
            border,
            y,
            starts[i].0,
            x,
        )
}

proof fn lemma_run_starts_cover(pixels: Seq<u8>, w: int, fill: u8, border: u8, y: int, left: int, end: int, x: int)
    requires
        left <= x < end,
        !blocked(pixels[offset(w, x, y)], fill, border),
    ensures
        covered_by(run_starts(pixels, w, fill, border, y, left, end), pixels, w, fill, border, y, x),
    decreases end - left,
{
    let prev = run_starts(pixels, w, fill, border, y, left, end - 1);
    let rs = run_starts(pixels, w, fill, border, y, left, end);
    if x < end - 1 {
        lemma_run_starts_cover(pixels, w, fill, border, y, left, end - 1, x);
        let i = choose|i: int|
            0 <= i < prev.len() && (#[trigger] prev[i]).0 <= x && row_clear(
                pixels,
                w,
                fill,
                border,
                y,
                prev[i].0,
                x,
            );
        assert(rs[i] == prev[i]);
    } else if starts_run(pixels, w, fill, border, y, left, x) {
        assert(rs[rs.len() - 1] == (x, y));
        assert(row_clear(pixels, w, fill, border, y, x, x));
    } else {
        lemma_run_starts_cover(pixels, w, fill, border, y, left, end - 1, x - 1);
        let i = choose|i: int|
            0 <= i < prev.len() && (#[trigger] prev[i]).0 <= x - 1 && row_clear(
                pixels,
                w,
                fill,
                border,
                y,
                prev[i].0,
                x - 1,
            );
        assert(rs[i] == prev[i]);
        assert(row_clear(pixels, w, fill, border, y, prev[i].0, x));
    }
}

impl Screen {
    /// Push the first pixel of each open run of row `ny` between columns
    /// `left` and `right`.
    fn push_openings(
        &self,
        left: i32,
        right: i32,
        ny: i32,
        fill: u8,
        border: u8,
        stack: &mut Vec<(i32, i32)>,
    )
        requires
            self.wf(),
            0 <= left <= right < self.width,
            0 <= ny < self.height,
        ensures
            int_pairs(final(stack)@) == int_pairs(old(stack)@) + run_starts(
                self.pixels@,
                self.width as int,
                fill,
                border,
                ny as int,
                left as int,
                right + 1,
            ),
    {
        let ghost w = self.width as int;
        let mut run: bool = false;
        let mut cx: i32 = left;
        while cx <= right
            invariant
                self.wf(),
                w == self.width,
                0 <= left <= right < self.width,
                0 <= ny < self.height,
                left <= cx <= right + 1,
                run == (cx > left && !blocked(self.pixels@[offset(w, cx - 1, ny as int)], fill, border)),
                int_pairs(stack@) == int_pairs(old(stack)@) + run_starts(
                    self.pixels@,
                    w,
                    fill,
                    border,
                    ny as int,
                    left as int,
                    cx as int,
                ),
            decreases right + 1 - cx,
        {
            let open: bool = !self.is_blocked(cx, ny, fill, border);
            proof {
                lemma_offset(w, self.height as int, cx as int, ny as int);
            }
            let ghost before = stack@;
            if open && !run {
                stack.push((cx, ny));
                assert(int_pairs(stack@) =~= int_pairs(before).push((cx as int, ny as int)));
            }
            assert(int_pairs(stack@) =~= int_pairs(old(stack)@) + run_starts(
                self.pixels@,
                w,
                fill,
                border,
                ny as int,
                left as int,
                cx + 1,
            ));
            run = open;
            cx = cx + 1;
        }
    }
}


/// Pixels that changed did so to the fill colour, from an open colour,
/// and only where the seed reaches.
pub open spec fn changes_ok(
    old: Seq<u8>,
    cur: Seq<u8>,
    w: int,
    h: int,
    fill: u8,
    border: u8,
    seed: (int, int),
) -> bool {
    forall|px: int, py: int|
        on_screen(w, h, px, py) ==> #[trigger] cur[offset(w, px, py)] == old[offset(w, px, py)] || (
        cur[offset(w, px, py)] == fill && !blocked(old[offset(w, px, py)], fill, border) && reaches(
            old,
            w,
            h,
            fill,
            border,
            seed,
            (px, py),
        ))
}

/// Every waiting entry is on the screen and reached from the seed.
pub open spec fn stack_ok(
    old: Seq<u8>,
    w: int,
    h: int,
    fill: u8,
    border: u8,
    seed: (int, int),
    st: Seq<(int, int)>,
) -> bool {
    forall|i: int|
        0 <= i < st.len() ==> on_screen(w, h, (#[trigger] st[i]).0, st[i].1) && reaches(
            old,
            w,
            h,
            fill,
            border,
            seed,
            st[i],
        )
}

/// Some waiting entry lies left of q in q's row, with only open pixels
/// between them, so popping it fills q.
pub open spec fn stack_covers(
    st: Seq<(int, int)>,
    cur: Seq<u8>,
    w: int,
    fill: u8,
    border: u8,
    qx: int,
    qy: int,
) -> bool {
    exists|i: int|
        0 <= i < st.len() && (#[trigger] st[i]).1 == qy && st[i].0 <= qx && row_clear(
            cur,
            w,
            fill,
            border,
            qy,
            st[i].0,
            qx,
        )
}

pub open spec fn neighbours(px: int, py: int, qx: int, qy: int) -> bool {
    adjacent((px, py), (qx, qy))
}

/// Every open pixel next to a filled one is still waiting to be filled.
pub open spec fn frontier_ok(
    old: Seq<u8>,
    cur: Seq<u8>,
    st: Seq<(int, int)>,
    w: int,
    h: int,
    fill: u8,
    border: u8,
) -> bool {
    forall|px: int, py: int, qx: int, qy: int|
        #![trigger neighbours(px, py, qx, qy), cur[offset(w, px, py)], cur[offset(w, qx, qy)]]
        on_screen(w, h, px, py) && on_screen(w, h, qx, qy) && neighbours(px, py, qx, qy)
            && cur[offset(w, px, py)] != old[offset(w, px, py)] && !blocked(
            cur[offset(w, qx, qy)],
            fill,
            border,
        ) ==> stack_covers(st, cur, w, fill, border, qx, qy)
}

/// What holds of the fill between two pops.
pub open spec fn paint_inv(
    old: Seq<u8>,
    cur: Seq<u8>,
    st: Seq<(int, int)>,
    w: int,
    h: int,
    fill: u8,
    border: u8,
    seed: (int, int),
    pops: int,
) -> bool {
    &&& cur.len() == w * h
    &&& old.len() == w * h
    &&& 0 <= pops
    &&& changes_ok(old, cur, w, h, fill, border, seed)
    &&& stack_ok(old, w, h, fill, border, seed, st)
    &&& frontier_ok(old, cur, st, w, h, fill, border)
    &&& pops + st.len() + 2 * open_count(cur, fill, border) <= 1 + 2 * open_count(old, fill, border)
    &&& on_screen(w, h, seed.0, seed.1)
    &&& (cur[offset(w, seed.0, seed.1)] != old[offset(w, seed.0, seed.1)] || (st == seq![seed]
        && cur == old))
}

/// Every pixel of a walk from a filled seed is filled, when no open pixel
/// is left next to a filled one.
proof fn lemma_walk_filled(
    old: Seq<u8>,
    cur: Seq<u8>,
    w: int,
    h: int,
    fill: u8,
    border: u8,
    seed: (int, int),
    path: Seq<(int, int)>,
    k: int,
)
    requires
        changes_ok(old, cur, w, h, fill, border, seed),
        frontier_ok(old, cur, seq![], w, h, fill, border),
        open_walk(old, w, h, fill, border, path),
        cur[offset(w, path[0].0, path[0].1)] != old[offset(w, path[0].0, path[0].1)],
        0 <= k < path.len(),
    ensures
        cur[offset(w, path[k].0, path[k].1)] != old[offset(w, path[k].0, path[k].1)],
    decreases k,
{
    if k > 0 {
        lemma_walk_filled(old, cur, w, h, fill, border, seed, path, k - 1);
        let p = path[k - 1];
        let q = path[k];
        assert(adjacent(path[k - 1], path[k]));
        assert(on_screen(w, h, p.0, p.1) && on_screen(w, h, q.0, q.1));
        if cur[offset(w, q.0, q.1)] == old[offset(w, q.0, q.1)] {
            assert(neighbours(p.0, p.1, q.0, q.1));
            assert(!blocked(old[offset(w, q.0, q.1)], fill, border));
            assert(stack_covers(seq![], cur, w, fill, border, q.0, q.1));
        }
    }
}

/// Every pixel of a row between two reached pixels, all of them open, is
/// reached.
proof fn lemma_reaches_span(
    old: Seq<u8>,
    w: int,
    h: int,
    fill: u8,
    border: u8,
    seed: (int, int),
    sx: int,
    sy: int,
    a: int,
    b: int,
    x: int,
)
    requires
        reaches(old, w, h, fill, border, seed, (sx, sy)),
        0 <= a <= sx <= b < w,
        0 <= sy < h,
        forall|z: int| a <= z <= b ==> !blocked(#[trigger] old[offset(w, z, sy)], fill, border),
        a <= x <= b,
    ensures
        reaches(old, w, h, fill, border, seed, (x, sy)),
    decreases if x >= sx { x - sx } else { sx - x },
{
    if x > sx {
        lemma_reaches_span(old, w, h, fill, border, seed, sx, sy, a, b, x - 1);
        assert(!blocked(old[offset(w, x, sy)], fill, border));
        lemma_reaches_step(old, w, h, fill, border, seed, (x - 1, sy), (x, sy));
    } else if x < sx {
        lemma_reaches_span(old, w, h, fill, border, seed, sx, sy, a, b, x + 1);
        assert(!blocked(old[offset(w, x, sy)], fill, border));
        lemma_reaches_step(old, w, h, fill, border, seed, (x + 1, sy), (x, sy));
    }
}


/// The row `y` of `cur0` with columns `left` to `right` set to `fill`.
pub open spec fn row_filled(
    cur0: Seq<u8>,
    cur1: Seq<u8>,
    w: int,
    h: int,
    y: int,
    left: int,
    right: int,
    fill: u8,
) -> bool {
    &&& cur1.len() == cur0.len()
    &&& forall|px: int, py: int|
        on_screen(w, h, px, py) ==> #[trigger] cur1[offset(w, px, py)] == if py == y && left <= px
            <= right {
            fill
        } else {
            cur0[offset(w, px, py)]
        }
}

/// The run [left, right] of row sy is the whole open run through (sx, sy).
pub open spec fn maximal_run(
    cur: Seq<u8>,
    w: int,
    fill: u8,
    border: u8,
    sy: int,
    left: int,
    right: int,
) -> bool {
    &&& row_clear(cur, w, fill, border, sy, left, right)
    &&& (left == 0 || blocked(cur[offset(w, left - 1, sy)], fill, border))
    &&& (right == w - 1 || blocked(cur[offset(w, right + 1, sy)], fill, border))
}

/// Popping an entry that has meanwhile become blocked keeps the invariant.
proof fn lemma_pop_blocked(
    old: Seq<u8>,
    cur: Seq<u8>,
    st: Seq<(int, int)>,
    w: int,
    h: int,
    fill: u8,
    border: u8,
    seed: (int, int),
    pops: int,
)
    requires
        paint_inv(old, cur, st, w, h, fill, border, seed, pops),
        st.len() > 0,
        on_screen(w, h, st.last().0, st.last().1),
        blocked(cur[offset(w, st.last().0, st.last().1)], fill, border),
    ensures
        paint_inv(old, cur, st.drop_last(), w, h, fill, border, seed, pops + 1),
{
    let rest = st.drop_last();
    assert forall|i: int| 0 <= i < rest.len() implies on_screen(w, h, (#[trigger] rest[i]).0, rest[i].1)
        && reaches(old, w, h, fill, border, seed, rest[i]) by {
        assert(rest[i] == st[i]);
    }
    assert forall|px: int, py: int, qx: int, qy: int|
        #![trigger neighbours(px, py, qx, qy), cur[offset(w, px, py)], cur[offset(w, qx, qy)]]
        on_screen(w, h, px, py) && on_screen(w, h, qx, qy) && neighbours(px, py, qx, qy)
            && cur[offset(w, px, py)] != old[offset(w, px, py)] && !blocked(
            cur[offset(w, qx, qy)],
            fill,
            border,
        ) implies stack_covers(rest, cur, w, fill, border, qx, qy) by {
        let i = choose|i: int|
            0 <= i < st.len() && (#[trigger] st[i]).1 == qy && st[i].0 <= qx && row_clear(
                cur,
                w,
                fill,
                border,
                qy,
                st[i].0,
                qx,
            );
        if i == st.len() - 1 {
            assert(!blocked(cur[offset(w, st[i].0, qy)], fill, border));
        }
        assert(rest[i] == st[i]);
    }
    if cur[offset(w, seed.0, seed.1)] == old[offset(w, seed.0, seed.1)] {
        assert(reaches(old, w, h, fill, border, seed, st[0]));
        let path = choose|path: Seq<(int, int)>|
            #[trigger] open_walk(old, w, h, fill, border, path) && path[0] == seed && path.last()
                == st[0];
        assert(path[0] == seed);
    }
}

/// Filling the run keeps "changed pixels are reached fill".
proof fn lemma_fill_changes(
    old: Seq<u8>,
    cur0: Seq<u8>,
    cur1: Seq<u8>,
    w: int,
    h: int,
    fill: u8,
    border: u8,
    seed: (int, int),
    sx: int,
    sy: int,
    left: int,
    right: int,
)
    requires
        changes_ok(old, cur0, w, h, fill, border, seed),
        reaches(old, w, h, fill, border, seed, (sx, sy)),
        0 <= left <= sx <= right < w,
        0 <= sy < h,
        cur0.len() == w * h,
        old.len() == w * h,
        row_clear(cur0, w, fill, border, sy, left, right),
        row_filled(cur0, cur1, w, h, sy, left, right, fill),
    ensures
        changes_ok(old, cur1, w, h, fill, border, seed),
        forall|x: int| left <= x <= right ==> reaches(old, w, h, fill, border, seed, (x, sy)),
{
    assert forall|z: int| left <= z <= right implies !blocked(#[trigger] old[offset(w, z, sy)], fill, border) by {
        assert(!blocked(cur0[offset(w, z, sy)], fill, border));
    }
    assert forall|x: int| left <= x <= right implies reaches(old, w, h, fill, border, seed, (x, sy)) by {
        lemma_reaches_span(old, w, h, fill, border, seed, sx, sy, left, right, x);
    }
    assert forall|px: int, py: int| on_screen(w, h, px, py) implies #[trigger] cur1[offset(w, px, py)]
        == old[offset(w, px, py)] || (cur1[offset(w, px, py)] == fill && !blocked(
        old[offset(w, px, py)],
        fill,
        border,
    ) && reaches(old, w, h, fill, border, seed, (px, py))) by {
        assert(cur0[offset(w, px, py)] == old[offset(w, px, py)] || (cur0[offset(w, px, py)] == fill
            && !blocked(old[offset(w, px, py)], fill, border) && reaches(
            old,
            w,
            h,
            fill,
            border,
            seed,
            (px, py),
        )));
        if py == sy && left <= px <= right {
            assert(!blocked(cur0[offset(w, px, sy)], fill, border));
            assert(!blocked(old[offset(w, px, sy)], fill, border));
        }
    }
}

/// Filling the run keeps "every open pixel next to a filled one waits".
proof fn lemma_fill_frontier(
    old: Seq<u8>,
    cur0: Seq<u8>,
    cur1: Seq<u8>,
    st0: Seq<(int, int)>,
    st1: Seq<(int, int)>,
    w: int,
    h: int,
    fill: u8,
    border: u8,
    sx: int,
    sy: int,
    left: int,
    right: int,
)
    requires
        frontier_ok(old, cur0, st0, w, h, fill, border),
        forall|i: int| 0 <= i < st0.len() ==> on_screen(w, h, (#[trigger] st0[i]).0, st0[i].1),
        st0.len() > 0,
        st0.last() == (sx, sy),
        0 <= left <= sx <= right < w,
        0 <= sy < h,
        cur0.len() == w * h,
        old.len() == w * h,
        maximal_run(cur0, w, fill, border, sy, left, right),
        row_filled(cur0, cur1, w, h, sy, left, right, fill),
        st1.len() >= st0.len() - 1,
        forall|i: int| 0 <= i < st0.len() - 1 ==> #[trigger] st1[i] == st0[i],
        forall|x: int, ny: int|
            left <= x <= right && (ny == sy - 1 || ny == sy + 1) && 0 <= ny < h && !blocked(
                #[trigger] cur1[offset(w, x, ny)],
                fill,
                border,
            ) ==> stack_covers(st1, cur1, w, fill, border, x, ny),
    ensures
        frontier_ok(old, cur1, st1, w, h, fill, border),
{
    assert forall|px: int, py: int, qx: int, qy: int|
        #![trigger neighbours(px, py, qx, qy), cur1[offset(w, px, py)], cur1[offset(w, qx, qy)]]
        on_screen(w, h, px, py) && on_screen(w, h, qx, qy) && neighbours(px, py, qx, qy)
            && cur1[offset(w, px, py)] != old[offset(w, px, py)] && !blocked(
            cur1[offset(w, qx, qy)],
            fill,
            border,
        ) implies stack_covers(st1, cur1, w, fill, border, qx, qy) by {
        let q_in_run = qy == sy && left <= qx <= right;
        assert(!q_in_run);
        assert(cur1[offset(w, qx, qy)] == cur0[offset(w, qx, qy)]);
        if py == sy && left <= px <= right {
            if qy == sy {
                if qx == left - 1 {
                    assert(blocked(cur0[offset(w, left - 1, sy)], fill, border));
                } else {
                    assert(qx == right + 1);
                    assert(blocked(cur0[offset(w, right + 1, sy)], fill, border));
                }
            } else {
                assert(qx == px);
            }
        } else {
            assert(cur1[offset(w, px, py)] == cur0[offset(w, px, py)]);
            assert(neighbours(px, py, qx, qy));
            assert(stack_covers(st0, cur0, w, fill, border, qx, qy));
            let i = choose|i: int|
                0 <= i < st0.len() && (#[trigger] st0[i]).1 == qy && st0[i].0 <= qx && row_clear(
                    cur0,
                    w,
                    fill,
                    border,
                    qy,
                    st0[i].0,
                    qx,
                );
            let a = st0[i].0;
            if qy == sy {
                if qx > right && a <= right {
                    assert(right + 1 <= qx < w);
                    assert(!blocked(cur0[offset(w, right + 1, sy)], fill, border));
                }
                assert(qx < left || a > right);
                assert(i != st0.len() - 1);
            } else {
                assert(i != st0.len() - 1);
            }
            assert(st1[i] == st0[i]);
            assert(on_screen(w, h, a, qy));
            assert forall|z: int| a <= z <= qx implies !blocked(#[trigger] cur1[offset(w, z, qy)], fill, border) by {
                assert(on_screen(w, h, z, qy));
                assert(!blocked(cur0[offset(w, z, qy)], fill, border));
                if qy == sy {
                    assert(z < left || z > right);
                }
            }
            assert(row_clear(cur1, w, fill, border, qy, a, qx));
        }
    }
}


/// A longer stack covers whatever its prefix covers.
proof fn lemma_covers_extend(
    st: Seq<(int, int)>,
    longer: Seq<(int, int)>,
    cur: Seq<u8>,
    w: int,
    fill: u8,
    border: u8,
    qx: int,
    qy: int,
)
    requires
        stack_covers(st, cur, w, fill, border, qx, qy),
        longer.len() >= st.len(),
        forall|i: int| 0 <= i < st.len() ==> #[trigger] longer[i] == st[i],
    ensures
        stack_covers(longer, cur, w, fill, border, qx, qy),
{
    let i = choose|i: int|
        0 <= i < st.len() && (#[trigger] st[i]).1 == qy && st[i].0 <= qx && row_clear(
            cur,
            w,
            fill,
            border,
            qy,
            st[i].0,
            qx,
        );
    assert(longer[i] == st[i]);
}

/// The openings pushed from a freshly filled run are reached, and cover
/// every open pixel of the neighbouring row under the run.
proof fn lemma_push_row(
    old: Seq<u8>,
    cur0: Seq<u8>,
    cur1: Seq<u8>,
    base: Seq<(int, int)>,
    after: Seq<(int, int)>,
    w: int,
    h: int,
    fill: u8,
    border: u8,
    seed: (int, int),
    sy: int,
    ny: int,
    left: int,
    right: int,
)
    requires
        after == base + run_starts(cur1, w, fill, border, ny, left, right + 1),
        ny == sy - 1 || ny == sy + 1,
        0 <= ny < h,
        0 <= sy < h,
        0 <= left <= right < w,
        cur0.len() == w * h,
        old.len() == w * h,
        changes_ok(old, cur0, w, h, fill, border, seed),
        row_filled(cur0, cur1, w, h, sy, left, right, fill),
        forall|x: int| left <= x <= right ==> reaches(old, w, h, fill, border, seed, (x, sy)),
        stack_ok(old, w, h, fill, border, seed, base),
    ensures
        stack_ok(old, w, h, fill, border, seed, after),
        forall|x: int|
            left <= x <= right && !blocked(#[trigger] cur1[offset(w, x, ny)], fill, border)
                ==> stack_covers(after, cur1, w, fill, border, x, ny),
        2 * (after.len() - base.len()) <= right - left + 2,
        after.len() >= base.len(),
        forall|i: int| 0 <= i < base.len() ==> #[trigger] after[i] == base[i],
{
    let rs = run_starts(cur1, w, fill, border, ny, left, right + 1);
    lemma_run_starts_entries(cur1, w, fill, border, ny, left, right + 1);
    lemma_run_starts_count(cur1, w, fill, border, ny, left, right + 1);
    assert forall|i: int| 0 <= i < after.len() implies on_screen(w, h, (#[trigger] after[i]).0, after[i].1)
        && reaches(old, w, h, fill, border, seed, after[i]) by {
        if i < base.len() {
            assert(after[i] == base[i]);
        } else {
            let e = rs[i - base.len()];
            assert(after[i] == e);
            assert(e.1 == ny && left <= e.0 <= right);
            assert(!blocked(cur1[offset(w, e.0, ny)], fill, border));
            assert(cur1[offset(w, e.0, ny)] == cur0[offset(w, e.0, ny)]);
            assert(cur0[offset(w, e.0, ny)] == old[offset(w, e.0, ny)]);
            assert(reaches(old, w, h, fill, border, seed, (e.0, sy)));
            lemma_reaches_step(old, w, h, fill, border, seed, (e.0, sy), (e.0, ny));
        }
    }
    assert forall|x: int|
        left <= x <= right && !blocked(#[trigger] cur1[offset(w, x, ny)], fill, border) implies stack_covers(
        after,
        cur1,
        w,
        fill,
        border,
        x,
        ny,
    ) by {
        lemma_run_starts_cover(cur1, w, fill, border, ny, left, right + 1, x);
        let j = choose|j: int|
            0 <= j < rs.len() && (#[trigger] rs[j]).0 <= x && row_clear(
                cur1,
                w,
                fill,
                border,
                ny,
                rs[j].0,
                x,
            );
        assert(after[base.len() + j] == rs[j]);
        assert(rs[j].1 == ny);
    }
    assert forall|i: int| 0 <= i < base.len() implies #[trigger] after[i] == base[i] by {}
}

impl Screen {
    /// PAINT (x,y), fill, border
    ///
    /// Spreads out from the seed and stops at the border colour AND at the
    /// fill colour. Stopping at the fill colour is not optional: without it
    /// the fill re-enters rows it has already painted, because a painted
    /// pixel is still not the border, and the routine never terminates.
    /// With it, no more than `1 + 2 * width * height` rows are ever taken
    /// off the stack, well inside the `8 * width * height` that was once
    /// checked at run time.
    ///
    /// Called with one colour in BASIC the border is the fill colour, so
    /// pass the same value twice.
    pub fn paint(&mut self, x: i32, y: i32, fill: u8, border: u8)
        requires
            old(self).wf(),
        ensures
            final(self).wf(),
            final(self).width == old(self).width,
            final(self).height == old(self).height,
            final(self).regs == old(self).regs,
            final(self).pixels@ == paint_spec(
                old(self).pixels@,
                old(self).width as int,
                old(self).height as int,
                x as int,
                y as int,
                fill,
                border,
            ),
    {
        let ghost w = self.width as int;
        let ghost h = self.height as int;
        let ghost old_px = self.pixels@;
        let ghost seed = (x as int, y as int);
        let ghost hit = |px: int, py: int| reaches(old_px, w, h, fill, border, seed, (px, py));
        if !self.in_bounds(x, y) || self.is_blocked(x, y, fill, border) {
            assert forall|px: int, py: int| on_screen(w, h, px, py) implies #[trigger] old_px[offset(
                w,
                px,
                py,
            )] == if hit(px, py) {
                fill
            } else {
                old_px[offset(w, px, py)]
            } by {
                if hit(px, py) {
                    let path = choose|path: Seq<(int, int)>|
                        #[trigger] open_walk(old_px, w, h, fill, border, path) && path[0] == seed
                            && path.last() == (px, py);
                    assert(path[0] == seed);
                }
            }
            proof {
                lemma_fill_where_ext(old_px, old_px, w, h, hit, fill);
            }
            return;
        }
        let mut stack: Vec<(i32, i32)> = Vec::new();
        stack.push((x, y));
        let ghost mut pops: int = 0;
        let ghost area: int = w * h;
        proof {
            lemma_reaches_seed(old_px, w, h, fill, border, seed);
            lemma_open_count_bound(old_px, fill, border);
            lemma_offset(w, h, x as int, y as int);
            assert(int_pairs(stack@) =~= seq![seed]);
            assert(w * h >= 1) by (nonlinear_arith)
                requires
                    0 <= x < w,
                    0 <= y < h,
            ;
        }
        while stack.len() > 0
            invariant
                self.wf(),
                self.width == w,
                self.height == h,
                self.regs == old(self).regs,
                area == w * h,
                area >= 1,
                open_count(old_px, fill, border) <= area,
                pops <= 1 + 2 * area,
                paint_inv(old_px, self.pixels@, int_pairs(stack@), w, h, fill, border, seed, pops),
            decreases 8 * area - pops,
        {
            let ghost st0 = int_pairs(stack@);
            let ghost cur0 = self.pixels@;
            let (sx, sy) = stack.pop().unwrap();
            proof {
                pops = pops + 1;
                assert(st0.last() == (sx as int, sy as int));
                assert(int_pairs(stack@) =~= st0.drop_last());
                assert(on_screen(w, h, sx as int, sy as int));
            }
            if !self.in_bounds(sx, sy) || self.is_blocked(sx, sy, fill, border) {
                proof {
                    lemma_pop_blocked(old_px, cur0, st0, w, h, fill, border, seed, pops - 1);
                    lemma_open_count_bound(cur0, fill, border);
                    assert(pops <= 1 + 2 * area);
                }
                continue;
            }
            let left: i32 = self.scan_left(sx, sy, fill, border);
            let right: i32 = self.scan_right(sx, sy, fill, border);
            proof {
                assert forall|z: int| left <= z <= right implies !blocked(#[trigger] cur0[offset(w, z, sy as int)], fill, border) by {
                    if z == sx {
                        assert(!blocked(cur0[offset(w, sx as int, sy as int)], fill, border));
                    }
                }
                assert(maximal_run(cur0, w, fill, border, sy as int, left as int, right as int));
            }
            let mut cx: i32 = left;
            while cx <= right
                invariant
                    self.wf(),
                    self.width == w,
                    self.height == h,
                    self.regs == old(self).regs,
                    cur0.len() == w * h,
                    0 <= left <= cx <= right + 1,
                    right < w,
                    0 <= sy < h,
                    row_clear(cur0, w, fill, border, sy as int, left as int, right as int),
                    open_count(self.pixels@, fill, border) + (cx - left) == open_count(cur0, fill, border),
                    forall|px: int, py: int|
                        on_screen(w, h, px, py) ==> #[trigger] self.pixels@[offset(w, px, py)] == if py
                            == sy && left <= px < cx {
                            fill
                        } else {
                            cur0[offset(w, px, py)]
                        },
                decreases right + 1 - cx,
            {
                let ghost before = self.pixels@;
                proof {
                    lemma_offset(w, h, cx as int, sy as int);
                    lemma_plot_at(before, w, h, cx as int, sy as int, fill);
                    assert(!blocked(cur0[offset(w, cx as int, sy as int)], fill, border));
                    assert(before[offset(w, cx as int, sy as int)] == cur0[offset(w, cx as int, sy as int)]);
                    lemma_open_count_update(before, offset(w, cx as int, sy as int), fill, fill, border);
                }
                self.pset(cx, sy, fill);
                assert(self.pixels@ == before.update(offset(w, cx as int, sy as int), fill));
                cx = cx + 1;
            }
            let ghost cur1 = self.pixels@;
            proof {
                assert(row_filled(cur0, cur1, w, h, sy as int, left as int, right as int, fill));
                lemma_fill_changes(old_px, cur0, cur1, w, h, fill, border, seed, sx as int, sy as int, left as int, right as int);
            }
            let ghost st_mid = int_pairs(stack@);
            if sy > 0 {
                self.push_openings(left, right, sy - 1, fill, border, &mut stack);
                proof {
                    lemma_push_row(old_px, cur0, cur1, st_mid, int_pairs(stack@), w, h, fill, border, seed, sy as int, sy - 1, left as int, right as int);
                }
            }
            let ghost st_a = int_pairs(stack@);
            if sy + 1 < self.height {
                self.push_openings(left, right, sy + 1, fill, border, &mut stack);
                proof {
                    lemma_push_row(old_px, cur0, cur1, st_a, int_pairs(stack@), w, h, fill, border, seed, sy as int, sy + 1, left as int, right as int);
                }
            }
            let ghost st1 = int_pairs(stack@);
            proof {
                assert(stack_ok(old_px, w, h, fill, border, seed, st1));
                assert forall|i: int| 0 <= i < st0.len() - 1 implies #[trigger] st1[i] == st0[i] by {
                    assert(st_mid[i] == st0[i]);
                    assert(st_a[i] == st_mid[i]);
                }
                assert forall|qx: int, ny: int|
                    left <= qx <= right && (ny == sy - 1 || ny == sy + 1) && 0 <= ny < h && !blocked(
                        #[trigger] cur1[offset(w, qx, ny)],
                        fill,
                        border,
                    ) implies stack_covers(st1, cur1, w, fill, border, qx, ny) by {
                    if ny == sy - 1 {
                        lemma_covers_extend(st_a, st1, cur1, w, fill, border, qx, ny);
                    }
                }
                lemma_fill_frontier(old_px, cur0, cur1, st0, st1, w, h, fill, border, sx as int, sy as int, left as int, right as int);
                // The fill took (right - left + 1) open pixels; at most one
                // more than that were pushed.
                lemma_open_count_bound(cur1, fill, border);
                if cur0[offset(w, seed.0, seed.1)] == old_px[offset(w, seed.0, seed.1)] {
                    assert(st0 == seq![seed]);
                    assert((sx as int, sy as int) == seed);
                    assert(cur1[offset(w, seed.0, seed.1)] == fill);
                } else {
                    assert(cur0[offset(w, seed.0, seed.1)] == fill);
                    assert(cur1[offset(w, seed.0, seed.1)] == cur0[offset(w, seed.0, seed.1)]);
                }
                assert(pops <= 1 + 2 * area);
            }
        }
        proof {
            let cur = self.pixels@;
            assert(int_pairs(stack@) =~= seq![]);
            assert forall|px: int, py: int| on_screen(w, h, px, py) implies #[trigger] cur[offset(
                w,
                px,
                py,
            )] == if hit(px, py) {
                fill
            } else {
                old_px[offset(w, px, py)]
            } by {
                if hit(px, py) {
                    let path = choose|path: Seq<(int, int)>|
                        #[trigger] open_walk(old_px, w, h, fill, border, path) && path[0] == seed
                            && path.last() == (px, py);
                    lemma_walk_filled(old_px, cur, w, h, fill, border, seed, path, path.len() - 1);
                }
            }
            lemma_fill_where_ext(cur, old_px, w, h, hit, fill);
        }
    }
}

/// PAINT never changes a pixel that is the border or the fill colour:
/// no walk over open pixels ends on one.
pub proof fn law_paint_keeps_blocked_pixels(
    pixels: Seq<u8>,
    w: int,
    h: int,
    x: int,
    y: int,
    fill: u8,
    border: u8,
    px: int,
    py: int,
)
    requires
        pixels.len() == w * h,
        on_screen(w, h, px, py),
        blocked(pixels[offset(w, px, py)], fill, border),
    ensures
        paint_spec(pixels, w, h, x, y, fill, border)[offset(w, px, py)] == pixels[offset(w, px, py)],
{
    let hit = |qx: int, qy: int| reaches(pixels, w, h, fill, border, (x, y), (qx, qy));
    lemma_fill_where_at(pixels, w, h, hit, fill, px, py);
    if reaches(pixels, w, h, fill, border, (x, y), (px, py)) {
        let path = choose|path: Seq<(int, int)>|
            #[trigger] open_walk(pixels, w, h, fill, border, path) && path[0] == (x, y) && path.last()
                == (px, py);
        assert(path[path.len() - 1] == (px, py));
    }
}

/// PAINT a second time from the same seed changes nothing: after the
/// first, the seed is the fill colour, the border colour or off the
/// screen, so no walk starts from it.
pub proof fn law_paint_twice_is_paint_once(
    pixels: Seq<u8>,
    w: int,
    h: int,
    x: int,
    y: int,
    fill: u8,
    border: u8,
)
    requires
        pixels.len() == w * h,
        0 <= w,
        0 <= h,
    ensures
        paint_spec(paint_spec(pixels, w, h, x, y, fill, border), w, h, x, y, fill, border)
            == paint_spec(pixels, w, h, x, y, fill, border),
{
    let q = paint_spec(pixels, w, h, x, y, fill, border);
    let hit = |qx: int, qy: int| reaches(pixels, w, h, fill, border, (x, y), (qx, qy));
    if on_screen(w, h, x, y) {
        lemma_fill_where_at(pixels, w, h, hit, fill, x, y);
        if !blocked(pixels[offset(w, x, y)], fill, border) {
            let single = seq![(x, y)];
            assert(open_walk(pixels, w, h, fill, border, single));
            assert(reaches(pixels, w, h, fill, border, (x, y), (x, y)));
        }
        assert(blocked(q[offset(w, x, y)], fill, border));
    }
    let hit2 = |qx: int, qy: int| reaches(q, w, h, fill, border, (x, y), (qx, qy));
    assert forall|qx: int, qy: int| !#[trigger] hit2(qx, qy) by {
        if reaches(q, w, h, fill, border, (x, y), (qx, qy)) {
            let path = choose|path: Seq<(int, int)>|
                #[trigger] open_walk(q, w, h, fill, border, path) && path[0] == (x, y) && path.last()
                    == (qx, qy);
            assert(on_screen(w, h, path[0].0, path[0].1));
        }
    }
    assert(q.len() == w * h);
    assert(paint_spec(q, w, h, x, y, fill, border) =~= q);
}

} // verus!
