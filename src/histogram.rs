use vstd::prelude::*;

verus! {

/// A counter after one more hit: one larger, but never past `u32::MAX`.
pub open spec fn bumped(v: u32) -> u32 {
    if v == u32::MAX {
        v
    } else {
        (v + 1) as u32
    }
}

/// Whether pixel `p` lies inside a `width` by `height` grid.
pub open spec fn inside(width: nat, height: nat, p: (i32, i32)) -> bool {
    0 <= p.0 < width && 0 <= p.1 < height
}

/// Row-major index of pixel `p`.
pub open spec fn cell(width: nat, p: (i32, i32)) -> int {
    p.1 * width + p.0
}

/// The counters after one hit at `p`: the pixel's counter is bumped when `p`
/// lies inside the grid, and nothing changes otherwise.
pub open spec fn add_hit(counts: Seq<u32>, width: nat, height: nat, p: (i32, i32)) -> Seq<u32> {
    if inside(width, height, p) {
        counts.update(cell(width, p), bumped(counts[cell(width, p)]))
    } else {
        counts
    }
}

/// The running maximum after one hit at `p`.
pub open spec fn max_after_hit(
    counts: Seq<u32>,
    max_count: u32,
    width: nat,
    height: nat,
    p: (i32, i32),
) -> u32 {
    if inside(width, height, p) && bumped(counts[cell(width, p)]) > max_count {
        bumped(counts[cell(width, p)])
    } else {
        max_count
    }
}

/// The counters after the hits `ps`, taken in order.
pub open spec fn add_hits(counts: Seq<u32>, width: nat, height: nat, ps: Seq<(i32, i32)>) -> Seq<
    u32,
>
    decreases ps.len(),
{
    if ps.len() == 0 {
        counts
    } else {
        add_hit(add_hits(counts, width, height, ps.drop_last()), width, height, ps.last())
    }
}

/// The running maximum after the hits `ps`, taken in order.
pub open spec fn max_after_hits(
    counts: Seq<u32>,
    max_count: u32,
    width: nat,
    height: nat,
    ps: Seq<(i32, i32)>,
) -> u32
    decreases ps.len(),
{
    if ps.len() == 0 {
        max_count
    } else {
        let before = ps.drop_last();
        max_after_hit(
            add_hits(counts, width, height, before),
            max_after_hits(counts, max_count, width, height, before),
            width,
            height,
            ps.last(),
        )
    }
}

/// A grid of counters is consistent with a running maximum when the maximum
/// is at least one and at least every counter.
pub open spec fn bounded_by(counts: Seq<u32>, max_count: u32) -> bool {
    &&& max_count >= 1
    &&& forall|i: int| 0 <= i < counts.len() ==> #[trigger] counts[i] <= max_count
}

/// Every counter of `after` is at least the matching counter of `before`.
pub open spec fn grown_from(before: Seq<u32>, after: Seq<u32>) -> bool {
    &&& after.len() == before.len()
    &&& forall|i: int| 0 <= i < before.len() ==> before[i] <= #[trigger] after[i]
}

/// Growth adds up: counters that grew over one run of frames and then over
/// the next have grown over both.
pub proof fn lemma_grown_from_trans(a: Seq<u32>, b: Seq<u32>, c: Seq<u32>)
    requires
        grown_from(a, b),
        grown_from(b, c),
    ensures
        grown_from(a, c),
{
    assert forall|i: int| 0 <= i < a.len() implies a[i] <= #[trigger] c[i] by {
        assert(a[i] <= b[i]);
    }
}

/// A pixel inside the grid has a row-major index inside the counters.
pub proof fn lemma_cell_in_grid(width: nat, height: nat, p: (i32, i32))
    requires
        inside(width, height, p),
    ensures
        0 <= p.1 * width <= cell(width, p) < width * height,
{
    let x = p.0 as int;
    let y = p.1 as int;
    assert(0 <= y * width <= y * width + x < width * height) by (nonlinear_arith)
        requires
            0 <= x < width,
            0 <= y < height,
    ;
}

/// Hits only ever raise counters: every counter after any sequence of hits is
/// at least what it was before, and the grid keeps its size.
pub proof fn lemma_hits_only_grow(counts: Seq<u32>, width: nat, height: nat, ps: Seq<(i32, i32)>)
    requires
        counts.len() == width * height,
    ensures
        grown_from(counts, add_hits(counts, width, height, ps)),
    decreases ps.len(),
{
    if ps.len() > 0 {
        lemma_hits_only_grow(counts, width, height, ps.drop_last());
        let p = ps.last();
        if inside(width, height, p) {
            lemma_cell_in_grid(width, height, p);
        }
    }
}

/// Hits keep the running maximum consistent: if it was at least one and at
/// least every counter, it still is after any sequence of hits.
pub proof fn lemma_hits_keep_max(
    counts: Seq<u32>,
    max_count: u32,
    width: nat,
    height: nat,
    ps: Seq<(i32, i32)>,
)
    requires
        counts.len() == width * height,
        bounded_by(counts, max_count),
    ensures
        bounded_by(
            add_hits(counts, width, height, ps),
            max_after_hits(counts, max_count, width, height, ps),
        ),
        max_count <= max_after_hits(counts, max_count, width, height, ps),
    decreases ps.len(),
{
    if ps.len() > 0 {
        let before = ps.drop_last();
        lemma_hits_keep_max(counts, max_count, width, height, before);
        lemma_hits_only_grow(counts, width, height, before);
        let p = ps.last();
        if inside(width, height, p) {
            lemma_cell_in_grid(width, height, p);
        }
    }
}

/// Hits that all fall outside the grid change neither the counters nor the
/// running maximum.
pub proof fn lemma_outside_hits_ignored(
    counts: Seq<u32>,
    max_count: u32,
    width: nat,
    height: nat,
    ps: Seq<(i32, i32)>,
)
    requires
        forall|k: int| 0 <= k < ps.len() ==> !inside(width, height, #[trigger] ps[k]),
    ensures
        add_hits(counts, width, height, ps) == counts,
        max_after_hits(counts, max_count, width, height, ps) == max_count,
    decreases ps.len(),
{
    if ps.len() > 0 {
        let before = ps.drop_last();
        assert forall|k: int| 0 <= k < before.len() implies !inside(
            width,
            height,
            #[trigger] before[k],
        ) by {
            assert(before[k] == ps[k]);
        }
        lemma_outside_hits_ignored(counts, max_count, width, height, before);
        assert(!inside(width, height, ps[ps.len() - 1]));
    }
}

/// A grid of saturating hit counters together with the largest counter seen.
pub struct Histogram {
    width: u32,
    height: u32,
    counts: Vec<u32>,
    max_count: u32,
}

impl Histogram {
    pub closed spec fn width_spec(&self) -> nat {
        self.width as nat
    }

    pub closed spec fn height_spec(&self) -> nat {
        self.height as nat
    }

    /// The counters, row by row.
    pub closed spec fn counts_spec(&self) -> Seq<u32> {
        self.counts@
    }

    pub closed spec fn max_spec(&self) -> u32 {
        self.max_count
    }

    /// One counter per pixel, and a running maximum that bounds them all.
    pub open spec fn wf(&self) -> bool {
        &&& self.counts_spec().len() == self.width_spec() * self.height_spec()
        &&& bounded_by(self.counts_spec(), self.max_spec())
    }

    /// An empty grid: every counter zero, running maximum one.
    pub fn new(width: u32, height: u32) -> (h: Self)
        requires
            width * height <= usize::MAX,
        ensures
            h.wf(),
            h.width_spec() == width,
            h.height_spec() == height,
            h.counts_spec() == Seq::new((width * height) as nat, |i: int| 0u32),
            h.max_spec() == 1,
    {
        let n: usize = (width as usize) * (height as usize);
        let counts = vec![0u32; n];
        let h = Histogram { width, height, counts, max_count: 1 };
        assert(h.counts_spec() =~= Seq::new((width * height) as nat, |i: int| 0u32));
        h
    }

    pub fn width(&self) -> (r: u32)
        ensures
            r == self.width_spec(),
    {
        self.width
    }

    pub fn height(&self) -> (r: u32)
        ensures
            r == self.height_spec(),
    {
        self.height
    }

    /// The counters, row by row.
    pub fn counts(&self) -> (r: &Vec<u32>)
        ensures
            r@ == self.counts_spec(),
    {
        &self.counts
    }

    /// The running maximum.
    pub fn max_count(&self) -> (r: u32)
        ensures
            r == self.max_spec(),
    {
        self.max_count
    }

    /// Row-major index of a pixel inside the grid.
    fn index_of(&self, x: i32, y: i32) -> (i: usize)
        requires
            self.wf(),
            inside(self.width_spec(), self.height_spec(), (x, y)),
        ensures
            i == cell(self.width_spec(), (x, y)),
            i < self.counts_spec().len(),
    {
        proof {
            lemma_cell_in_grid(self.width_spec(), self.height_spec(), (x, y));
        }
        // The length of the counters is a `usize`, which bounds the sum below.
        let _len = self.counts.len();
        (y as usize) * (self.width as usize) + (x as usize)
    }

    /// The counter of pixel `(x, y)`, or `None` outside the grid.
    pub fn count_at(&self, x: i32, y: i32) -> (r: Option<u32>)
        requires
            self.wf(),
        ensures
            inside(self.width_spec(), self.height_spec(), (x, y)) ==> r == Some(
                self.counts_spec()[cell(self.width_spec(), (x, y))],
            ),
            !inside(self.width_spec(), self.height_spec(), (x, y)) ==> r.is_none(),
    {
        if 0 <= x && (x as u32) < self.width && 0 <= y && (y as u32) < self.height {
            let i = self.index_of(x, y);
            Some(self.counts[i])
        } else {
            None
        }
    }

    /// Counts one hit at pixel `p`. A pixel outside the grid is dropped.
    pub fn record(&mut self, p: (i32, i32))
        requires
            old(self).wf(),
        ensures
            final(self).wf(),
            final(self).width_spec() == old(self).width_spec(),
            final(self).height_spec() == old(self).height_spec(),
            final(self).counts_spec() == add_hit(
                old(self).counts_spec(),
                old(self).width_spec(),
                old(self).height_spec(),
                p,
            ),
            final(self).max_spec() == max_after_hit(
                old(self).counts_spec(),
                old(self).max_spec(),
                old(self).width_spec(),
                old(self).height_spec(),
                p,
            ),
    {
        let (x, y) = p;
        if 0 <= x && (x as u32) < self.width && 0 <= y && (y as u32) < self.height {
            let i = self.index_of(x, y);
            let v = self.counts[i].saturating_add(1);
            self.counts.set(i, v);
            if v > self.max_count {
                self.max_count = v;
            }
        }
        proof {
            lemma_hits_keep_max(
                old(self).counts_spec(),
                old(self).max_spec(),
                old(self).width_spec(),
                old(self).height_spec(),
                seq![p],
            );
            assert(seq![p].drop_last() =~= Seq::<(i32, i32)>::empty());
        }
    }

    /// Counts one hit at each pixel of `ps`, in order.
    pub fn record_all(&mut self, ps: &Vec<(i32, i32)>)
        requires
            old(self).wf(),
        ensures
            final(self).wf(),
            final(self).width_spec() == old(self).width_spec(),
            final(self).height_spec() == old(self).height_spec(),
            final(self).counts_spec() == add_hits(
                old(self).counts_spec(),
                old(self).width_spec(),
                old(self).height_spec(),
                ps@,
            ),
            final(self).max_spec() == max_after_hits(
                old(self).counts_spec(),
                old(self).max_spec(),
                old(self).width_spec(),
                old(self).height_spec(),
                ps@,
            ),
    {
        let ghost c0 = self.counts_spec();
        let ghost m0 = self.max_spec();
        let mut k: usize = 0;
        while k < ps.len()
            invariant
                k <= ps@.len(),
                self.wf(),
                self.width_spec() == old(self).width_spec(),
                self.height_spec() == old(self).height_spec(),
                c0 == old(self).counts_spec(),
                m0 == old(self).max_spec(),
                self.counts_spec() == add_hits(
                    c0,
                    self.width_spec(),
                    self.height_spec(),
                    ps@.subrange(0, k as int),
                ),
                self.max_spec() == max_after_hits(
                    c0,
                    m0,
                    self.width_spec(),
                    self.height_spec(),
                    ps@.subrange(0, k as int),
                ),
            decreases ps@.len() - k,
        {
            self.record(ps[k]);
            proof {
                let next = ps@.subrange(0, k + 1);
                assert(next.drop_last() =~= ps@.subrange(0, k as int));
                assert(next.last() == ps@[k as int]);
            }
            k = k + 1;
        }
        proof {
            assert(ps@.subrange(0, ps@.len() as int) =~= ps@);
        }
    }
}

} // verus!
