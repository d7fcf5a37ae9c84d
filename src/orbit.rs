use vstd::prelude::*;

verus! {

/// The point that precedes `pts[k]` in an orbit that starts from `start`.
pub open spec fn before<T>(start: T, pts: Seq<T>, k: int) -> T {
    if k == 0 {
        start
    } else {
        pts[k - 1]
    }
}

/// The last point reached by an orbit that starts from `start`.
pub open spec fn last_of<T>(start: T, pts: Seq<T>) -> T {
    before(start, pts, pts.len() as int)
}

/// Each point of `pts` is what `step` gives for parameter `c` from the point
/// before it, and none of these steps left the escape region.
pub open spec fn stays_inside<T, F: Fn(T, T) -> (T, bool)>(
    step: F,
    c: T,
    start: T,
    pts: Seq<T>,
) -> bool {
    forall|k: int|
        0 <= k < pts.len() ==> #[trigger] step.ensures((c, before(start, pts, k)), (pts[k], false))
}

/// What a trace of at most `max_iter` steps may report: the orbit holds the
/// non-escaping points in order; on escape it stopped early, at a step that
/// left the region and whose point is not kept; otherwise it ran all steps.
pub open spec fn traced<T, F: Fn(T, T) -> (T, bool)>(
    step: F,
    c: T,
    start: T,
    max_iter: nat,
    pts: Seq<T>,
    escaped: bool,
) -> bool {
    &&& stays_inside(step, c, start, pts)
    &&& escaped ==> pts.len() < max_iter && exists|z: T|
        #[trigger] step.ensures((c, last_of(start, pts)), (z, true))
    &&& !escaped ==> pts.len() == max_iter
}

/// Iterates `z <- step(c, z)` from `start` for at most `max_iter` steps,
/// stopping at the first step that reports leaving the escape region.
/// `orbit` is cleared first and then holds every point reached before that
/// step; the point that escaped is not kept. Returns whether it escaped.
pub fn trace_orbit<T: Copy, F: Fn(T, T) -> (T, bool)>(
    c: T,
    start: T,
    step: &F,
    max_iter: u32,
    orbit: &mut Vec<T>,
) -> (escaped: bool)
    requires
        forall|z: T| step.requires((c, z)),
    ensures
        traced(*step, c, start, max_iter as nat, final(orbit)@, escaped),
{
    orbit.clear();
    let mut z = start;
    let mut n: u32 = 0;
    while n < max_iter
        invariant
            forall|z: T| step.requires((c, z)),
            n <= max_iter,
            orbit@.len() == n,
            z == last_of(start, orbit@),
            stays_inside(*step, c, start, orbit@),
        decreases max_iter - n,
    {
        let (next, out) = step(c, z);
        if out {
            return true;
        }
        proof {
            let pts = orbit@.push(next);
            assert forall|k: int| 0 <= k < pts.len() implies #[trigger] step.ensures(
                (c, before(start, pts, k)),
                (pts[k], false),
            ) by {
                if k < orbit@.len() {
                    assert(before(start, pts, k) == before(start, orbit@, k));
                }
            }
        }
        orbit.push(next);
        z = next;
        n = n + 1;
    }
    false
}

/// A parameter for which the start point is a fixed point that never leaves
/// the region (as `c = 0` is for `z <- z * z + c` from `z = 0`) never
/// escapes, whatever the bound, and its orbit is the start point repeated.
pub proof fn lemma_fixed_point_never_escapes<T, F: Fn(T, T) -> (T, bool)>(
    step: F,
    c: T,
    start: T,
    max_iter: nat,
    pts: Seq<T>,
    escaped: bool,
)
    requires
        traced(step, c, start, max_iter, pts, escaped),
        forall|r: (T, bool)| step.ensures((c, start), r) ==> r == (start, false),
    ensures
        !escaped,
        pts == Seq::new(max_iter, |k: int| start),
{
    assert forall|k: int| 0 <= k < pts.len() implies pts[k] == start by {
        lemma_orbit_stays(step, c, start, pts, k);
    }
    assert(last_of(start, pts) == start) by {
        if pts.len() > 0 {
            lemma_orbit_stays(step, c, start, pts, pts.len() - 1);
        }
    }
    if escaped {
        let z = choose|z: T| #[trigger] step.ensures((c, last_of(start, pts)), (z, true));
        assert(step.ensures((c, start), (z, true)));
    }
    assert(pts =~= Seq::new(max_iter, |k: int| start));
}

proof fn lemma_orbit_stays<T, F: Fn(T, T) -> (T, bool)>(
    step: F,
    c: T,
    start: T,
    pts: Seq<T>,
    k: int,
)
    requires
        stays_inside(step, c, start, pts),
        forall|r: (T, bool)| step.ensures((c, start), r) ==> r == (start, false),
        0 <= k < pts.len(),
    ensures
        pts[k] == start,
    decreases k,
{
    if k > 0 {
        lemma_orbit_stays(step, c, start, pts, k - 1);
    }
    assert(step.ensures((c, before(start, pts, k)), (pts[k], false)));
}

} // verus!
