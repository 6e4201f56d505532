use vstd::prelude::*;
use crate::pixel::Pixel;
use crate::shade::{samples_of, shaded, SubSample};

verus! {

/// What the dispatcher tells a worker to do next.
#[derive(Clone, Copy, Debug, PartialEq, Eq, Structural)]
pub enum Assignment {
    /// Render this scanline and send its pixels back.
    Render(u32),
    /// Every scanline has been handed out: the worker finishes.
    Stop,
}

/// Number of `true` entries in `s`.
pub open spec fn count_true(s: Seq<bool>) -> nat
    decreases s.len(),
{
    if s.len() == 0 {
        0
    } else {
        count_true(s.drop_last()) + if s.last() {
            1nat
        } else {
            0nat
        }
    }
}

proof fn lemma_count_true_bounded(s: Seq<bool>)
    ensures
        count_true(s) <= s.len(),
        count_true(s) == s.len() ==> forall|i: int| 0 <= i < s.len() ==> #[trigger] s[i],
    decreases s.len(),
{
    if s.len() > 0 {
        lemma_count_true_bounded(s.drop_last());
        if count_true(s) == s.len() {
            assert forall|i: int| 0 <= i < s.len() implies #[trigger] s[i] by {
                if i < s.len() - 1 {
                    assert(s.drop_last()[i] == s[i]);
                }
            }
        }
    }
}

proof fn lemma_count_true_set(s: Seq<bool>, i: int)
    requires
        0 <= i < s.len(),
        !s[i],
    ensures
        count_true(s.update(i, true)) == count_true(s) + 1,
    decreases s.len(),
{
    let t = s.update(i, true);
    if i == s.len() - 1 {
        assert(t.drop_last() =~= s.drop_last());
    } else {
        assert(t.drop_last() =~= s.drop_last().update(i, true));
        lemma_count_true_set(s.drop_last(), i);
    }
}

/// The row held by a slot; an empty slot holds none.
pub open spec fn slot_row(slot: Option<Seq<Pixel>>) -> Seq<Pixel> {
    match slot {
        Some(row) => row,
        None => Seq::empty(),
    }
}

/// The first `count` pixels of the rows held by `slots`, `width` per row, in row order.
pub open spec fn merged(slots: Seq<Option<Seq<Pixel>>>, width: nat, count: nat) -> Seq<Pixel> {
    Seq::new(count, |p: int| slot_row(slots[p / (width as int)])[p % (width as int)])
}

/// Hands out the scanlines of a frame one at a time, in order, to workers as
/// they become idle, and keeps each returned row in the slot of its own index,
/// so that the merged frame does not depend on the order in which rows return.
pub struct Dispatcher {
    width: u32,
    height: u32,
    next_line: u32,
    rendered: u32,
    rows: Vec<Vec<Pixel>>,
    filled: Vec<bool>,
}

impl Dispatcher {
    /// Pixels per row.
    pub closed spec fn width(&self) -> nat {
        self.width as nat
    }

    /// Rows of the frame.
    pub closed spec fn height(&self) -> nat {
        self.height as nat
    }

    /// Rows handed out so far: these are the rows `0 .. assigned()`.
    pub closed spec fn assigned(&self) -> nat {
        self.next_line as nat
    }

    /// For each row, the pixels received for it, if any.
    pub closed spec fn slots(&self) -> Seq<Option<Seq<Pixel>>> {
        Seq::new(
            self.height as nat,
            |i: int|
                if self.filled@[i] {
                    Some(self.rows@[i]@)
                } else {
                    None
                },
        )
    }

    pub closed spec fn wf(&self) -> bool {
        &&& self.rows@.len() == self.height
        &&& self.filled@.len() == self.height
        &&& self.next_line <= self.height
        &&& self.rendered == count_true(self.filled@)
        &&& forall|i: int|
            0 <= i < self.height && #[trigger] self.filled@[i] ==> i < self.next_line
                && self.rows@[i]@.len() == self.width
    }

    /// A dispatcher for a `width` by `height` frame with no row handed out.
    pub fn new(width: u32, height: u32) -> (d: Dispatcher)
        ensures
            d.wf(),
            d.width() == width,
            d.height() == height,
            d.assigned() == 0,
            d.slots() == Seq::new(height as nat, |i: int| None::<Seq<Pixel>>),
    {
        let mut rows: Vec<Vec<Pixel>> = Vec::new();
        let mut filled: Vec<bool> = Vec::new();
        let mut i: u32 = 0;
        while i < height
            invariant
                i <= height,
                rows@.len() == i,
                filled@.len() == i,
                forall|j: int| 0 <= j < i ==> !#[trigger] filled@[j],
            decreases height - i,
        {
            rows.push(Vec::new());
            filled.push(false);
            i += 1;
        }
        let d = Dispatcher { width, height, next_line: 0, rendered: 0, rows, filled };
        proof {
            assert(count_true(filled@) == 0) by {
                lemma_count_none(filled@);
            }
            assert(d.slots() =~= Seq::new(height as nat, |i: int| None::<Seq<Pixel>>));
        }
        d
    }

    /// Hands out the next row, or tells the worker to stop once every row is out.
    pub fn next_assignment(&mut self) -> (a: Assignment)
        requires
            old(self).wf(),
        ensures
            final(self).wf(),
            final(self).width() == old(self).width(),
            final(self).height() == old(self).height(),
            final(self).slots() == old(self).slots(),
            old(self).assigned() < old(self).height() ==> a == Assignment::Render(
                old(self).assigned() as u32,
            ) && final(self).assigned() == old(self).assigned() + 1,
            old(self).assigned() >= old(self).height() ==> a == Assignment::Stop
                && final(self).assigned() == old(self).assigned(),
    {
        if self.next_line < self.height {
            let line = self.next_line;
            self.next_line = line + 1;
            Assignment::Render(line)
        } else {
            Assignment::Stop
        }
    }

    /// True when `line` has been handed out and its pixels have not come back yet.
    pub fn awaits(&self, line: u32) -> (r: bool)
        requires
            self.wf(),
        ensures
            r == (line < self.assigned() && self.slots()[line as int] is None),
    {
        line < self.next_line && !self.filled[line as usize]
    }

    /// Stores the pixels of a returned row in its slot and gives the worker
    /// that sent it its next assignment.
    pub fn receive(&mut self, line: u32, pixels: Vec<Pixel>) -> (a: Assignment)
        requires
            old(self).wf(),
            line < old(self).assigned(),
            old(self).slots()[line as int] is None,
            pixels@.len() == old(self).width(),
        ensures
            final(self).wf(),
            final(self).width() == old(self).width(),
            final(self).height() == old(self).height(),
            final(self).slots() == old(self).slots().update(line as int, Some(pixels@)),
            old(self).assigned() < old(self).height() ==> a == Assignment::Render(
                old(self).assigned() as u32,
            ) && final(self).assigned() == old(self).assigned() + 1,
            old(self).assigned() >= old(self).height() ==> a == Assignment::Stop
                && final(self).assigned() == old(self).assigned(),
    {
        let ghost before = *self;
        let i = line as usize;
        proof {
            lemma_count_true_set(self.filled@, i as int);
            lemma_count_true_bounded(self.filled@.update(i as int, true));
        }
        self.rows.set(i, pixels);
        self.filled.set(i, true);
        self.rendered = self.rendered + 1;
        proof {
            assert(self.slots() =~= before.slots().update(line as int, Some(self.rows@[i as int]@)));
        }
        self.next_assignment()
    }

    /// True when every row has come back.
    pub fn is_complete(&self) -> (r: bool)
        requires
            self.wf(),
        ensures
            r == forall|i: int| 0 <= i < self.height() ==> #[trigger] self.slots()[i] is Some,
    {
        proof {
            lemma_count_true_bounded(self.filled@);
            if self.rendered < self.height {
                lemma_some_false(self.filled@);
                let j = choose|j: int| 0 <= j < self.filled@.len() && !self.filled@[j];
                assert(self.slots()[j] is None);
            }
        }
        self.rendered == self.height
    }

    /// The frame: the received rows concatenated in row order.
    pub fn merge(&self) -> (r: Vec<Pixel>)
        requires
            self.wf(),
            forall|i: int| 0 <= i < self.height() ==> #[trigger] self.slots()[i] is Some,
        ensures
            r@ == merged(self.slots(), self.width(), self.width() * self.height()),
    {
        let w: usize = self.width as usize;
        let h: usize = self.height as usize;
        let mut out: Vec<Pixel> = Vec::new();
        let mut y: usize = 0;
        while y < h
            invariant
                self.wf(),
                forall|i: int| 0 <= i < self.height() ==> #[trigger] self.slots()[i] is Some,
                w == self.width,
                h == self.height,
                y <= h,
                out@ == merged(self.slots(), w as nat, (y * w) as nat),
            decreases h - y,
        {
            assert(self.slots()[y as int] is Some);
            assert(self.filled@[y as int]);
            let mut x: usize = 0;
            while x < w
                invariant
                    self.wf(),
                    w == self.width,
                    h == self.height,
                    y < h,
                    x <= w,
                    self.filled@[y as int],
                    out@ == merged(self.slots(), w as nat, (y * w + x) as nat),
                decreases w - x,
            {
                let v = self.rows[y][x];
                proof {
                    let q = y * w + x;
                    vstd::arithmetic::div_mod::lemma_fundamental_div_mod_converse(
                        q as int,
                        w as int,
                        y as int,
                        x as int,
                    );
                    assert(out@.push(v) =~= merged(self.slots(), w as nat, (q + 1) as nat));
                }
                out.push(v);
                x += 1;
            }
            assert((y + 1) * w == y * w + w) by (nonlinear_arith);
            y += 1;
        }
        assert(h * w == w * h) by (nonlinear_arith);
        out
    }
}

proof fn lemma_count_none(s: Seq<bool>)
    requires
        forall|i: int| 0 <= i < s.len() ==> !#[trigger] s[i],
    ensures
        count_true(s) == 0,
    decreases s.len(),
{
    if s.len() > 0 {
        assert(!s[s.len() - 1]);
        lemma_count_none(s.drop_last());
    }
}

proof fn lemma_some_false(s: Seq<bool>)
    requires
        count_true(s) < s.len(),
    ensures
        exists|j: int| 0 <= j < s.len() && !#[trigger] s[j],
{
    if forall|j: int| 0 <= j < s.len() ==> #[trigger] s[j] {
        lemma_count_all(s);
    }
}

proof fn lemma_count_all(s: Seq<bool>)
    requires
        forall|i: int| 0 <= i < s.len() ==> #[trigger] s[i],
    ensures
        count_true(s) == s.len(),
    decreases s.len(),
{
    if s.len() > 0 {
        assert(s[s.len() - 1]);
        lemma_count_all(s.drop_last());
    }
}

/// Rows `start .. end` of band `i` when `height` rows are split among
/// `workers` contiguous bands of `height / workers` rows each, the last band
/// also taking the rows left over.
pub open spec fn band(height: nat, workers: nat, i: int) -> (int, int) {
    let q = (height / workers) as int;
    (i * q, if i == workers - 1 { height as int } else { (i + 1) * q })
}

proof fn lemma_band_within(height: nat, workers: nat, i: int)
    requires
        workers >= 1,
        0 <= i <= workers,
    ensures
        0 <= i * ((height / workers) as int) <= height,
{
    let q = (height / workers) as int;
    vstd::arithmetic::div_mod::lemma_fundamental_div_mod(height as int, workers as int);
    assert(0 <= i * q <= workers * q) by (nonlinear_arith)
        requires
            0 <= i <= workers,
            q >= 0,
    ;
}

/// The bands are contiguous and in order, start at row 0 and end at row
/// `height`, so that concatenating their rows in band order gives every row
/// of the frame once, in order.
pub proof fn lemma_bands_cover_frame(height: nat, workers: nat)
    requires
        workers >= 1,
    ensures
        band(height, workers, 0).0 == 0,
        band(height, workers, workers - 1).1 == height,
        forall|i: int| 0 <= i < workers ==> #[trigger] band(height, workers, i).0 <= band(height, workers, i).1,
        forall|i: int|
            0 <= i < workers - 1 ==> #[trigger] band(height, workers, i).1 == band(height, workers, i + 1).0,
{
    assert forall|i: int| 0 <= i < workers implies #[trigger] band(height, workers, i).0 <= band(
        height,
        workers,
        i,
    ).1 by {
        lemma_band_within(height, workers, i);
        let q = (height / workers) as int;
        assert(i * q <= (i + 1) * q) by (nonlinear_arith)
            requires
                q >= 0,
        ;
    }
}

/// Splits `height` rows into `workers` contiguous bands for a static
/// partition of the frame: band `i` is `(start, end)`, the rows `start .. end`.
pub fn row_bands(height: u32, workers: u32) -> (r: Vec<(u32, u32)>)
    requires
        workers >= 1,
    ensures
        r@.len() == workers,
        forall|i: int|
            0 <= i < workers ==> #[trigger] r@[i].0 == band(height as nat, workers as nat, i).0
                && r@[i].1 == band(height as nat, workers as nat, i).1,
{
    let q: u32 = height / workers;
    let mut r: Vec<(u32, u32)> = Vec::new();
    let mut i: u32 = 0;
    while i < workers
        invariant
            workers >= 1,
            q == height / workers,
            i <= workers,
            r@.len() == i,
            forall|j: int|
                0 <= j < i ==> #[trigger] r@[j].0 == band(height as nat, workers as nat, j).0
                    && r@[j].1 == band(height as nat, workers as nat, j).1,
        decreases workers - i,
    {
        proof {
            lemma_band_within(height as nat, workers as nat, i as int);
            lemma_band_within(height as nat, workers as nat, i + 1);
        }
        let start: u32 = i * q;
        let end: u32 = if i == workers - 1 {
            height
        } else {
            (i + 1) * q
        };
        r.push((start, end));
        i += 1;
    }
    r
}

/// The slots after the rows listed in `order` have come back, in that order,
/// starting from `slots`; row `line` comes back holding `rows[line]`.
pub open spec fn receive_in_order(
    slots: Seq<Option<Seq<Pixel>>>,
    order: Seq<int>,
    rows: Seq<Seq<Pixel>>,
) -> Seq<Option<Seq<Pixel>>>
    decreases order.len(),
{
    if order.len() == 0 {
        slots
    } else {
        receive_in_order(slots, order.drop_last(), rows).update(
            order.last(),
            Some(rows[order.last()]),
        )
    }
}

/// The sub-samples of scanline `y` of a frame `width` pixels wide.
pub open spec fn line_samples(s: Seq<SubSample>, width: nat, nsub: nat, y: int) -> Seq<SubSample> {
    s.subrange(y * (width * (nsub * nsub)), (y + 1) * (width * (nsub * nsub)))
}

/// The scanlines of a frame, each resolved on its own from its sub-samples.
pub open spec fn lines(s: Seq<SubSample>, width: nat, height: nat, nsub: nat) -> Seq<Seq<Pixel>> {
    Seq::new(height, |y: int| shaded(line_samples(s, width, nsub, y), nsub as int, width))
}

proof fn lemma_receive_in_order(
    slots: Seq<Option<Seq<Pixel>>>,
    order: Seq<int>,
    rows: Seq<Seq<Pixel>>,
)
    requires
        forall|m: int| 0 <= m < order.len() ==> 0 <= #[trigger] order[m] < slots.len(),
    ensures
        receive_in_order(slots, order, rows).len() == slots.len(),
        forall|i: int|
            0 <= i < slots.len() ==> #[trigger] receive_in_order(slots, order, rows)[i] == if order.contains(i) {
                Some(rows[i])
            } else {
                slots[i]
            },
    decreases order.len(),
{
    if order.len() > 0 {
        let pre = order.drop_last();
        assert forall|m: int| 0 <= m < pre.len() implies 0 <= #[trigger] pre[m] < slots.len() by {
            assert(pre[m] == order[m]);
        }
        lemma_receive_in_order(slots, pre, rows);
        assert forall|i: int| 0 <= i < slots.len() implies (order.contains(i) <==> (pre.contains(i)
            || order.last() == i)) by {
            if order.contains(i) && order.last() != i {
                let m = choose|m: int| 0 <= m < order.len() && order[m] == i;
                assert(pre[m] == i);
            }
            if pre.contains(i) {
                let m = choose|m: int| 0 <= m < pre.len() && pre[m] == i;
                assert(order[m] == i);
            }
        }
    }
}

proof fn lemma_pixel_of_line(width: nat, height: nat, nsub: nat, s: Seq<SubSample>, p: int)
    requires
        s.len() == width * height * (nsub * nsub),
        0 <= p < width * height,
    ensures
        width > 0,
        0 <= p / (width as int) < height,
        0 <= p % (width as int) < width,
        samples_of(line_samples(s, width, nsub, p / (width as int)), nsub as int, p % (width as int))
            == samples_of(s, nsub as int, p),
{
    let w = width as int;
    let k = (nsub * nsub) as int;
    assert(w > 0) by (nonlinear_arith)
        requires
            w == width,
            0 <= p < width * height,
    ;
    let y = p / w;
    let x = p % w;
    vstd::arithmetic::div_mod::lemma_fundamental_div_mod(p, w);
    assert(0 <= x < w);
    assert(0 <= y < height) by (nonlinear_arith)
        requires
            p == w * y + x,
            0 <= x < w,
            0 <= p < w * height,
    ;
    assert(k >= 0) by (nonlinear_arith)
        requires
            k == nsub * nsub,
    ;
    assert(p * k == y * (w * k) + x * k && x * k + k <= w * k && (y + 1) * (w * k) <= s.len()
        && 0 <= x * k && 0 <= y * (w * k)) by (nonlinear_arith)
        requires
            p == w * y + x,
            0 <= x < w,
            0 <= y < height,
            k >= 0,
            s.len() == w * height * k,
    ;
    let line = line_samples(s, width, nsub, y);
    assert(line =~= s.subrange(y * (w * k), (y + 1) * (w * k)));
    assert((y + 1) * (w * k) - y * (w * k) == w * k) by (nonlinear_arith);
    assert(line.len() == w * k);
    let lhs = samples_of(line, nsub as int, x);
    let rhs = samples_of(s, nsub as int, p);
    assert(lhs =~= line.subrange(x * k, x * k + k));
    assert(rhs =~= s.subrange(p * k, p * k + k));
    assert(lhs =~= rhs);
}

/// Rendering a frame in one pass, or line by line on any number of workers
/// whose rows come back in any order, gives the same pixels: once every
/// scanline has come back at least once, the merged slots are the frame.
pub proof fn lemma_parallel_matches_serial(
    width: nat,
    height: nat,
    nsub: nat,
    samples: Seq<SubSample>,
    order: Seq<int>,
)
    requires
        samples.len() == width * height * (nsub * nsub),
        forall|m: int| 0 <= m < order.len() ==> 0 <= #[trigger] order[m] < height,
        forall|y: int| 0 <= y < height ==> order.contains(y),
    ensures
        merged(
            receive_in_order(
                Seq::new(height, |i: int| None::<Seq<Pixel>>),
                order,
                lines(samples, width, height, nsub),
            ),
            width,
            width * height,
        ) == shaded(samples, nsub as int, width * height),
{
    let empty = Seq::new(height, |i: int| None::<Seq<Pixel>>);
    let rows = lines(samples, width, height, nsub);
    let slots = receive_in_order(empty, order, rows);
    lemma_receive_in_order(empty, order, rows);
    let a = merged(slots, width, width * height);
    let b = shaded(samples, nsub as int, width * height);
    assert forall|p: int| 0 <= p < width * height implies a[p] == b[p] by {
        lemma_pixel_of_line(width, height, nsub, samples, p);
        let y = p / (width as int);
        assert(slots[y] == Some(rows[y]));
    }
    assert(a =~= b);
}

} // verus!
