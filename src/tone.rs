use vstd::prelude::*;

verus! {

/// Whether `level` is the intensity of a pixel hit `count` times when the
/// brightest pixel has `max_count` hits. The two ends of the curve are fixed:
/// an unhit pixel is black and the brightest pixel is white. Between them the
/// curve `shade` decides.
pub open spec fn tone_of<G: Fn(u32, u32) -> u8>(
    shade: G,
    count: u32,
    max_count: u32,
    level: u8,
) -> bool {
    if count == 0 {
        level == 0
    } else if count >= max_count {
        level == 255
    } else {
        shade.ensures((count, max_count), level)
    }
}

/// Pixel `j` of `rgba` is the gray of its counter, fully opaque.
pub open spec fn pixel_shaded<G: Fn(u32, u32) -> u8>(
    shade: G,
    counts: Seq<u32>,
    max_count: u32,
    rgba: Seq<u8>,
    j: int,
) -> bool {
    &&& tone_of(shade, counts[j], max_count, rgba[4 * j])
    &&& rgba[4 * j + 1] == rgba[4 * j]
    &&& rgba[4 * j + 2] == rgba[4 * j]
    &&& rgba[4 * j + 3] == 255
}

/// `rgba` holds four bytes per counter, each pixel the gray of its counter.
pub open spec fn gray_image<G: Fn(u32, u32) -> u8>(
    shade: G,
    counts: Seq<u32>,
    max_count: u32,
    rgba: Seq<u8>,
) -> bool {
    &&& rgba.len() == 4 * counts.len()
    &&& forall|j: int|
        0 <= j < counts.len() ==> #[trigger] pixel_shaded(shade, counts, max_count, rgba, j)
}

/// A tone curve that gives one level for each pair of arguments.
pub open spec fn single_valued<G: Fn(u32, u32) -> u8>(shade: G) -> bool {
    forall|a: (u32, u32), l1: u8, l2: u8|
        #[trigger] shade.ensures(a, l1) && #[trigger] shade.ensures(a, l2) ==> l1 == l2
}

/// Overwrites `rgba` with the grayscale image of `counts`: for each counter
/// three equal color bytes with its intensity, then a fully opaque byte.
pub fn tone_map<G: Fn(u32, u32) -> u8>(
    counts: &Vec<u32>,
    max_count: u32,
    shade: &G,
    rgba: &mut Vec<u8>,
)
    requires
        old(rgba)@.len() == 4 * counts@.len(),
        forall|c: u32, m: u32| shade.requires((c, m)),
    ensures
        gray_image(*shade, counts@, max_count, final(rgba)@),
{
    let n = counts.len();
    let total = rgba.len();
    let mut i: usize = 0;
    while i < n
        invariant
            n == counts@.len(),
            i <= n,
            rgba@.len() == 4 * n,
            total == 4 * n,
            forall|c: u32, m: u32| shade.requires((c, m)),
            forall|j: int|
                0 <= j < i ==> #[trigger] pixel_shaded(*shade, counts@, max_count, rgba@, j),
        decreases n - i,
    {
        let ghost prev = rgba@;
        let c = counts[i];
        let level: u8 = if c == 0 {
            0
        } else if c >= max_count {
            255
        } else {
            shade(c, max_count)
        };
        let o = 4 * i;
        rgba.set(o, level);
        rgba.set(o + 1, level);
        rgba.set(o + 2, level);
        rgba.set(o + 3, 255);
        proof {
            assert forall|j: int| 0 <= j < i + 1 implies #[trigger] pixel_shaded(
                *shade,
                counts@,
                max_count,
                rgba@,
                j,
            ) by {
                if j < i {
                    assert(pixel_shaded(*shade, counts@, max_count, prev, j));
                    assert(rgba@[4 * j] == prev[4 * j]);
                    assert(rgba@[4 * j + 1] == prev[4 * j + 1]);
                    assert(rgba@[4 * j + 2] == prev[4 * j + 2]);
                    assert(rgba@[4 * j + 3] == prev[4 * j + 3]);
                }
            }
        }
        i = i + 1;
    }
}

/// With a single-valued tone curve, the image is determined by the counters
/// and the maximum: two images of the same histogram are byte for byte equal.
pub proof fn lemma_tone_map_deterministic<G: Fn(u32, u32) -> u8>(
    shade: G,
    counts: Seq<u32>,
    max_count: u32,
    a: Seq<u8>,
    b: Seq<u8>,
)
    requires
        single_valued(shade),
        gray_image(shade, counts, max_count, a),
        gray_image(shade, counts, max_count, b),
    ensures
        a == b,
{
    assert forall|i: int| 0 <= i < a.len() implies a[i] == b[i] by {
        let j = i / 4;
        assert(pixel_shaded(shade, counts, max_count, a, j));
        assert(pixel_shaded(shade, counts, max_count, b, j));
    }
    assert(a =~= b);
}

/// In an image of counters bounded by the maximum, an unhit pixel is black,
/// a pixel at the maximum is white, and every pixel is opaque gray.
pub proof fn lemma_tone_map_ends<G: Fn(u32, u32) -> u8>(
    shade: G,
    counts: Seq<u32>,
    max_count: u32,
    rgba: Seq<u8>,
    j: int,
)
    requires
        gray_image(shade, counts, max_count, rgba),
        max_count >= 1,
        0 <= j < counts.len(),
    ensures
        counts[j] == 0 ==> rgba[4 * j] == 0,
        counts[j] == max_count ==> rgba[4 * j] == 255,
        rgba[4 * j + 1] == rgba[4 * j] && rgba[4 * j + 2] == rgba[4 * j],
        rgba[4 * j + 3] == 255,
{
    assert(pixel_shaded(shade, counts, max_count, rgba, j));
}

} // verus!
