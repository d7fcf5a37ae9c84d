use vstd::prelude::*;
use crate::histogram::{
    Histogram,
    add_hits,
    bounded_by,
    grown_from,
    lemma_hits_keep_max,
    lemma_hits_only_grow,
    lemma_outside_hits_ignored,
    inside,
    max_after_hits,
};
use crate::orbit::{lemma_fixed_point_never_escapes, trace_orbit, traced};
use crate::tone::{tone_map, gray_image};

verus! {

/// Default image width, in pixels.
pub const WIDTH: u32 = 1000;

/// Default image height, in pixels.
pub const HEIGHT: u32 = 1000;

/// Default bound on the steps of one orbit.
pub const MAX_ITER: u32 = 10_000;

/// Default number of parameters drawn per frame.
pub const SAMPLES_PER_FRAME: usize = 20_000;

/// `hits` are the pixels that `project` gives for the points `pts`, in order.
pub open spec fn projected<T, P: Fn(T) -> (i32, i32)>(
    project: P,
    pts: Seq<T>,
    hits: Seq<(i32, i32)>,
) -> bool {
    &&& hits.len() == pts.len()
    &&& forall|k: int| 0 <= k < pts.len() ==> #[trigger] project.ensures((pts[k],), hits[k])
}

/// The accumulation state of a progressive render: the hit histogram, the
/// RGBA image made from it, and whether that image changed since it was
/// first handed out. Every frame sets the flag; nothing here clears it, so a
/// display surface that reads it uploads the image after every frame.
pub struct Canvas {
    hist: Histogram,
    rgba: Vec<u8>,
    dirty: bool,
}

impl Canvas {
    pub closed spec fn width_spec(&self) -> nat {
        self.hist.width_spec()
    }

    pub closed spec fn height_spec(&self) -> nat {
        self.hist.height_spec()
    }

    /// The hit counters, row by row.
    pub closed spec fn counts_spec(&self) -> Seq<u32> {
        self.hist.counts_spec()
    }

    /// The running maximum of the counters.
    pub closed spec fn max_spec(&self) -> u32 {
        self.hist.max_spec()
    }

    /// The RGBA bytes, row by row, four per pixel.
    pub closed spec fn image_spec(&self) -> Seq<u8> {
        self.rgba@
    }

    pub closed spec fn dirty_spec(&self) -> bool {
        self.dirty
    }

    pub closed spec fn wf(&self) -> bool {
        &&& self.hist.wf()
        &&& self.rgba@.len() == 4 * self.hist.counts_spec().len()
    }

    /// What a well-formed canvas guarantees to its readers.
    pub proof fn lemma_wf(&self)
        requires
            self.wf(),
        ensures
            self.counts_spec().len() == self.width_spec() * self.height_spec(),
            self.image_spec().len() == 4 * self.counts_spec().len(),
            bounded_by(self.counts_spec(), self.max_spec()),
    {
    }

    /// A blank canvas: all counters zero, running maximum one, image all zero
    /// bytes, marked changed.
    pub fn new(width: u32, height: u32) -> (r: Self)
        requires
            4 * (width * height) <= usize::MAX,
        ensures
            r.wf(),
            r.width_spec() == width,
            r.height_spec() == height,
            r.counts_spec() == Seq::new((width * height) as nat, |i: int| 0u32),
            r.max_spec() == 1,
            r.image_spec() == Seq::new((4 * (width * height)) as nat, |i: int| 0u8),
            r.dirty_spec(),
    {
        let hist = Histogram::new(width, height);
        let n: usize = 4 * ((width as usize) * (height as usize));
        let rgba = vec![0u8; n];
        let r = Canvas { hist, rgba, dirty: true };
        assert(r.image_spec() =~= Seq::new((4 * (width * height)) as nat, |i: int| 0u8));
        r
    }

    /// The hit histogram.
    pub fn histogram(&self) -> (r: &Histogram)
        ensures
            r.width_spec() == self.width_spec(),
            r.height_spec() == self.height_spec(),
            r.counts_spec() == self.counts_spec(),
            r.max_spec() == self.max_spec(),
    {
        &self.hist
    }

    /// The RGBA image, four bytes per pixel, row by row.
    pub fn image(&self) -> (r: &Vec<u8>)
        ensures
            r@ == self.image_spec(),
    {
        &self.rgba
    }

    /// Whether the image changed since the canvas was made.
    pub fn is_dirty(&self) -> (r: bool)
        ensures
            r == self.dirty_spec(),
    {
        self.dirty
    }

    /// Projects each point of `orbit` onto a pixel and counts a hit there.
    fn absorb<T: Copy, P: Fn(T) -> (i32, i32)>(&mut self, orbit: &Vec<T>, project: &P) -> (hits:
        Ghost<Seq<(i32, i32)>>)
        requires
            old(self).wf(),
            forall|z: T| project.requires((z,)),
        ensures
            final(self).wf(),
            final(self).width_spec() == old(self).width_spec(),
            final(self).height_spec() == old(self).height_spec(),
            final(self).image_spec() == old(self).image_spec(),
            final(self).dirty_spec() == old(self).dirty_spec(),
            projected(*project, orbit@, hits@),
            final(self).counts_spec() == add_hits(
                old(self).counts_spec(),
                old(self).width_spec(),
                old(self).height_spec(),
                hits@,
            ),
            final(self).max_spec() == max_after_hits(
                old(self).counts_spec(),
                old(self).max_spec(),
                old(self).width_spec(),
                old(self).height_spec(),
                hits@,
            ),
    {
        let ghost c0 = self.counts_spec();
        let ghost m0 = self.max_spec();
        let ghost mut hits: Seq<(i32, i32)> = Seq::empty();
        let mut k: usize = 0;
        while k < orbit.len()
            invariant
                k <= orbit@.len(),
                self.wf(),
                forall|z: T| project.requires((z,)),
                self.width_spec() == old(self).width_spec(),
                self.height_spec() == old(self).height_spec(),
                self.image_spec() == old(self).image_spec(),
                self.dirty_spec() == old(self).dirty_spec(),
                c0 == old(self).counts_spec(),
                m0 == old(self).max_spec(),
                projected(*project, orbit@.subrange(0, k as int), hits),
                self.counts_spec() == add_hits(c0, self.width_spec(), self.height_spec(), hits),
                self.max_spec() == max_after_hits(
                    c0,
                    m0,
                    self.width_spec(),
                    self.height_spec(),
                    hits,
                ),
            decreases orbit@.len() - k,
        {
            let p = project(orbit[k]);
            self.hist.record(p);
            proof {
                let before = hits;
                hits = hits.push(p);
                assert(hits.drop_last() =~= before);
                let pts = orbit@.subrange(0, k + 1);
                assert forall|j: int| 0 <= j < pts.len() implies #[trigger] project.ensures(
                    (pts[j],),
                    hits[j],
                ) by {
                    if j < k {
                        assert(pts[j] == orbit@.subrange(0, k as int)[j]);
                    }
                }
            }
            k = k + 1;
        }
        proof {
            assert(orbit@.subrange(0, orbit@.len() as int) =~= orbit@);
        }
        Ghost(hits)
    }

    /// Takes one drawn parameter `c`: traces its orbit from `start` into
    /// `orbit` (see `trace_orbit`), and if it escaped counts a hit at the
    /// pixel of each kept orbit point, in order. An orbit that never escaped
    /// adds nothing. Returns whether it escaped.
    pub fn add_sample<T: Copy, F: Fn(T, T) -> (T, bool), P: Fn(T) -> (i32, i32)>(
        &mut self,
        c: T,
        start: T,
        step: &F,
        max_iter: u32,
        project: &P,
        orbit: &mut Vec<T>,
    ) -> (escaped: bool)
        requires
            old(self).wf(),
            forall|c: T, z: T| step.requires((c, z)),
            forall|z: T| project.requires((z,)),
        ensures
            final(self).wf(),
            final(self).width_spec() == old(self).width_spec(),
            final(self).height_spec() == old(self).height_spec(),
            final(self).image_spec() == old(self).image_spec(),
            final(self).dirty_spec() == old(self).dirty_spec(),
            traced(*step, c, start, max_iter as nat, final(orbit)@, escaped),
            exists|hits: Seq<(i32, i32)>|
                {
                    &&& #[trigger] projected(*project, kept_of(final(orbit)@, escaped), hits)
                    &&& final(self).counts_spec() == add_hits(
                        old(self).counts_spec(),
                        old(self).width_spec(),
                        old(self).height_spec(),
                        hits,
                    )
                    &&& final(self).max_spec() == max_after_hits(
                        old(self).counts_spec(),
                        old(self).max_spec(),
                        old(self).width_spec(),
                        old(self).height_spec(),
                        hits,
                    )
                },
    {
        let escaped = trace_orbit(c, start, step, max_iter, orbit);
        if escaped {
            let hits = self.absorb(orbit, project);
            assert(projected(*project, kept_of(orbit@, escaped), hits@));
        } else {
            assert(projected(*project, kept_of(orbit@, escaped), Seq::empty()));
            assert(add_hits(
                old(self).counts_spec(),
                old(self).width_spec(),
                old(self).height_spec(),
                Seq::empty(),
            ) == old(self).counts_spec());
        }
        escaped
    }

    /// Runs one frame: draws `samples` parameters, and takes each one as
    /// `add_sample` does, all with the one scratch orbit buffer. Then it
    /// redraws the whole image from the histogram and marks it changed.
    pub fn run_frame<
        T: Copy,
        S: Fn() -> T,
        F: Fn(T, T) -> (T, bool),
        P: Fn(T) -> (i32, i32),
        G: Fn(u32, u32) -> u8,
    >(
        &mut self,
        samples: usize,
        draw: &S,
        start: T,
        step: &F,
        max_iter: u32,
        project: &P,
        shade: &G,
    )
        requires
            old(self).wf(),
            draw.requires(()),
            forall|c: T, z: T| step.requires((c, z)),
            forall|z: T| project.requires((z,)),
            forall|c: u32, m: u32| shade.requires((c, m)),
        ensures
            final(self).wf(),
            final(self).width_spec() == old(self).width_spec(),
            final(self).height_spec() == old(self).height_spec(),
            exists|cs: Seq<T>, orbits: Seq<Seq<T>>, escaped: Seq<bool>, hits: Seq<(i32, i32)>|
                {
                    &&& #[trigger] sampled(
                        *draw,
                        *step,
                        *project,
                        start,
                        max_iter as nat,
                        samples as nat,
                        cs,
                        orbits,
                        escaped,
                        hits,
                    )
                    &&& final(self).counts_spec() == add_hits(
                        old(self).counts_spec(),
                        old(self).width_spec(),
                        old(self).height_spec(),
                        hits,
                    )
                    &&& final(self).max_spec() == max_after_hits(
                        old(self).counts_spec(),
                        old(self).max_spec(),
                        old(self).width_spec(),
                        old(self).height_spec(),
                        hits,
                    )
                },
            grown_from(old(self).counts_spec(), final(self).counts_spec()),
            bounded_by(final(self).counts_spec(), final(self).max_spec()),
            old(self).max_spec() <= final(self).max_spec(),
            gray_image(*shade, final(self).counts_spec(), final(self).max_spec(), final(self).image_spec()),
            final(self).dirty_spec(),
    {
        let ghost c0 = self.counts_spec();
        let ghost m0 = self.max_spec();
        let ghost w = self.width_spec();
        let ghost h = self.height_spec();
        let ghost mut cs: Seq<T> = Seq::empty();
        let ghost mut orbits: Seq<Seq<T>> = Seq::empty();
        let ghost mut escs: Seq<bool> = Seq::empty();
        let ghost mut hits: Seq<(i32, i32)> = Seq::empty();
        let mut orbit: Vec<T> = Vec::new();
        let mut s: usize = 0;
        while s < samples
            invariant
                s <= samples,
                self.wf(),
                draw.requires(()),
                forall|c: T, z: T| step.requires((c, z)),
                forall|z: T| project.requires((z,)),
                w == self.width_spec(),
                h == self.height_spec(),
                c0 == old(self).counts_spec(),
                m0 == old(self).max_spec(),
                c0.len() == w * h,
                bounded_by(c0, m0),
                sampled(*draw, *step, *project, start, max_iter as nat, s as nat, cs, orbits, escs, hits),
                self.counts_spec() == add_hits(c0, w, h, hits),
                self.max_spec() == max_after_hits(c0, m0, w, h, hits),
            decreases samples - s,
        {
            let c = draw();
            let ghost before = self.counts_spec();
            let ghost mb = self.max_spec();
            let escaped = self.add_sample(c, start, step, max_iter, project, &mut orbit);
            proof {
                let more = choose|more: Seq<(i32, i32)>|
                    {
                        &&& #[trigger] projected(*project, kept_of(orbit@, escaped), more)
                        &&& self.counts_spec() == add_hits(before, w, h, more)
                        &&& self.max_spec() == max_after_hits(before, mb, w, h, more)
                    };
                lemma_add_hits_append(c0, m0, w, h, hits, more);
                lemma_sampled_push(
                    *draw,
                    *step,
                    *project,
                    start,
                    max_iter as nat,
                    s as nat,
                    cs,
                    orbits,
                    escs,
                    hits,
                    c,
                    orbit@,
                    escaped,
                    more,
                );
                cs = cs.push(c);
                orbits = orbits.push(orbit@);
                escs = escs.push(escaped);
                hits = hits + more;
            }
            s = s + 1;
        }
        proof {
            lemma_hits_only_grow(c0, w, h, hits);
            lemma_hits_keep_max(c0, m0, w, h, hits);
        }
        tone_map(self.hist.counts(), self.hist.max_count(), shade, &mut self.rgba);
        self.dirty = true;
    }
}

/// The orbit points that a sample keeps: its whole orbit if it escaped,
/// nothing otherwise.
pub open spec fn kept_of<T>(orbit: Seq<T>, escaped: bool) -> Seq<T> {
    if escaped {
        orbit
    } else {
        Seq::empty()
    }
}

/// The kept points of a run of samples, joined in order.
pub open spec fn kept_points<T>(orbits: Seq<Seq<T>>, escaped: Seq<bool>) -> Seq<T>
    decreases orbits.len(),
{
    if orbits.len() == 0 {
        Seq::empty()
    } else {
        kept_points(orbits.drop_last(), escaped.drop_last()) + kept_of(
            orbits.last(),
            escaped[orbits.len() - 1],
        )
    }
}

/// What a frame of `samples` draws did: `cs` are the drawn parameters, each
/// traced into `orbits` with its escape flag in `escaped`, and `hits` are the
/// pixels of the kept points of all of them, in order.
pub open spec fn sampled<T, S: Fn() -> T, F: Fn(T, T) -> (T, bool), P: Fn(T) -> (i32, i32)>(
    draw: S,
    step: F,
    project: P,
    start: T,
    max_iter: nat,
    samples: nat,
    cs: Seq<T>,
    orbits: Seq<Seq<T>>,
    escaped: Seq<bool>,
    hits: Seq<(i32, i32)>,
) -> bool {
    &&& cs.len() == samples
    &&& orbits.len() == samples
    &&& escaped.len() == samples
    &&& forall|i: int| 0 <= i < samples ==> #[trigger] draw.ensures((), cs[i])
    &&& forall|i: int|
        0 <= i < samples ==> traced(step, #[trigger] cs[i], start, max_iter, orbits[i], escaped[i])
    &&& projected(project, kept_points(orbits, escaped), hits)
}

/// Pixels of two runs of points, joined, are the pixels of the joined runs.
pub proof fn lemma_projected_append<T, P: Fn(T) -> (i32, i32)>(
    project: P,
    a: Seq<T>,
    ha: Seq<(i32, i32)>,
    b: Seq<T>,
    hb: Seq<(i32, i32)>,
)
    requires
        projected(project, a, ha),
        projected(project, b, hb),
    ensures
        projected(project, a + b, ha + hb),
{
    assert forall|k: int| 0 <= k < (a + b).len() implies #[trigger] project.ensures(
        ((a + b)[k],),
        (ha + hb)[k],
    ) by {
        if k < a.len() {
            assert(project.ensures((a[k],), ha[k]));
        } else {
            assert(project.ensures((b[k - a.len()],), hb[k - a.len()]));
        }
    }
}

proof fn lemma_sampled_push<T, S: Fn() -> T, F: Fn(T, T) -> (T, bool), P: Fn(T) -> (i32, i32)>(
    draw: S,
    step: F,
    project: P,
    start: T,
    max_iter: nat,
    samples: nat,
    cs: Seq<T>,
    orbits: Seq<Seq<T>>,
    escaped: Seq<bool>,
    hits: Seq<(i32, i32)>,
    c: T,
    orbit: Seq<T>,
    e: bool,
    more: Seq<(i32, i32)>,
)
    requires
        sampled(draw, step, project, start, max_iter, samples, cs, orbits, escaped, hits),
        draw.ensures((), c),
        traced(step, c, start, max_iter, orbit, e),
        projected(project, kept_of(orbit, e), more),
    ensures
        sampled(
            draw,
            step,
            project,
            start,
            max_iter,
            samples + 1,
            cs.push(c),
            orbits.push(orbit),
            escaped.push(e),
            hits + more,
        ),
{
    let cs2 = cs.push(c);
    let orbits2 = orbits.push(orbit);
    let escaped2 = escaped.push(e);
    assert(orbits2.drop_last() =~= orbits);
    assert(escaped2.drop_last() =~= escaped);
    assert(kept_points(orbits2, escaped2) == kept_points(orbits, escaped) + kept_of(orbit, e));
    lemma_projected_append(project, kept_points(orbits, escaped), hits, kept_of(orbit, e), more);
    assert forall|i: int| 0 <= i < samples + 1 implies #[trigger] draw.ensures((), cs2[i]) by {
        if i < samples {
            assert(cs2[i] == cs[i]);
        }
    }
    assert forall|i: int| 0 <= i < samples + 1 implies traced(
        step,
        #[trigger] cs2[i],
        start,
        max_iter,
        orbits2[i],
        escaped2[i],
    ) by {
        if i < samples {
            assert(cs2[i] == cs[i]);
            assert(traced(step, cs[i], start, max_iter, orbits[i], escaped[i]));
        }
    }
}

/// Hits taken in two batches have the effect of the two batches joined.
pub proof fn lemma_add_hits_append(
    counts: Seq<u32>,
    max_count: u32,
    width: nat,
    height: nat,
    a: Seq<(i32, i32)>,
    b: Seq<(i32, i32)>,
)
    ensures
        add_hits(counts, width, height, a + b) == add_hits(
            add_hits(counts, width, height, a),
            width,
            height,
            b,
        ),
        max_after_hits(counts, max_count, width, height, a + b) == max_after_hits(
            add_hits(counts, width, height, a),
            max_after_hits(counts, max_count, width, height, a),
            width,
            height,
            b,
        ),
    decreases b.len(),
{
    if b.len() == 0 {
        assert(a + b =~= a);
    } else {
        lemma_add_hits_append(counts, max_count, width, height, a, b.drop_last());
        assert((a + b).drop_last() =~= a + b.drop_last());
        assert((a + b).last() == b.last());
    }
}

/// A frame whose sampler only draws a parameter `c` for which the start
/// point is a fixed point that never leaves the region (as `c = 0` is from
/// `z = 0`) keeps no orbit point: it leaves every counter and the running
/// maximum as they were.
pub proof fn lemma_fixed_draws_add_nothing<
    T,
    S: Fn() -> T,
    F: Fn(T, T) -> (T, bool),
    P: Fn(T) -> (i32, i32),
>(
    draw: S,
    step: F,
    project: P,
    start: T,
    max_iter: nat,
    samples: nat,
    cs: Seq<T>,
    orbits: Seq<Seq<T>>,
    escaped: Seq<bool>,
    hits: Seq<(i32, i32)>,
    c: T,
    counts: Seq<u32>,
    max_count: u32,
    width: nat,
    height: nat,
)
    requires
        sampled(draw, step, project, start, max_iter, samples, cs, orbits, escaped, hits),
        forall|d: T| #[trigger] draw.ensures((), d) ==> d == c,
        forall|r: (T, bool)| step.ensures((c, start), r) ==> r == (start, false),
    ensures
        hits.len() == 0,
        add_hits(counts, width, height, hits) == counts,
        max_after_hits(counts, max_count, width, height, hits) == max_count,
{
    assert forall|i: int| 0 <= i < samples implies !#[trigger] escaped[i] by {
        assert(draw.ensures((), cs[i]));
        assert(traced(step, cs[i], start, max_iter, orbits[i], escaped[i]));
        lemma_fixed_point_never_escapes(step, c, start, max_iter, orbits[i], escaped[i]);
    }
    lemma_nothing_kept(orbits, escaped);
}

proof fn lemma_nothing_kept<T>(orbits: Seq<Seq<T>>, escaped: Seq<bool>)
    requires
        escaped.len() == orbits.len(),
        forall|i: int| 0 <= i < escaped.len() ==> !#[trigger] escaped[i],
    ensures
        kept_points(orbits, escaped).len() == 0,
    decreases orbits.len(),
{
    if orbits.len() > 0 {
        let e = escaped.drop_last();
        assert forall|i: int| 0 <= i < e.len() implies !#[trigger] e[i] by {
            assert(e[i] == escaped[i]);
        }
        lemma_nothing_kept(orbits.drop_last(), e);
        assert(!escaped[orbits.len() - 1]);
    }
}

/// A frame whose kept orbit points all project outside the grid writes no
/// counter and leaves the running maximum alone.
pub proof fn lemma_outside_points_add_nothing<
    T,
    S: Fn() -> T,
    F: Fn(T, T) -> (T, bool),
    P: Fn(T) -> (i32, i32),
>(
    draw: S,
    step: F,
    project: P,
    start: T,
    max_iter: nat,
    samples: nat,
    cs: Seq<T>,
    orbits: Seq<Seq<T>>,
    escaped: Seq<bool>,
    hits: Seq<(i32, i32)>,
    counts: Seq<u32>,
    max_count: u32,
    width: nat,
    height: nat,
)
    requires
        sampled(draw, step, project, start, max_iter, samples, cs, orbits, escaped, hits),
        forall|k: int, p: (i32, i32)|
            0 <= k < kept_points(orbits, escaped).len() && #[trigger] project.ensures(
                (kept_points(orbits, escaped)[k],),
                p,
            ) ==> !inside(width, height, p),
    ensures
        add_hits(counts, width, height, hits) == counts,
        max_after_hits(counts, max_count, width, height, hits) == max_count,
{
    let kept = kept_points(orbits, escaped);
    assert forall|k: int| 0 <= k < hits.len() implies !inside(width, height, #[trigger] hits[k]) by {
        assert(project.ensures((kept[k],), hits[k]));
    }
    lemma_outside_hits_ignored(counts, max_count, width, height, hits);
}

} // verus!
