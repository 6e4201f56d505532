use vstd::prelude::*;
use vstd::arithmetic::div_mod::{lemma_div_by_multiple, lemma_div_is_ordered};
use vstd::arithmetic::mul::lemma_mul_inequality;
use crate::pixel::{clamp_channel, gray, Pixel, MAX_INTENSITY};

verus! {

/// Occlusion rays along each axis of the hemisphere sampling grid.
pub const NAO_SAMPLES: u32 = 8;

/// Occlusion rays cast from one visible surface point (`NAO_SAMPLES` squared).
pub const AO_RAYS: u32 = 64;

/// What one primary sub-sample ray saw: `None` when it missed every object,
/// `Some(n)` when it hit a surface from which `n` of the `AO_RAYS` occlusion
/// rays escaped without hitting anything.
pub type SubSample = Option<u32>;

/// Every hit reports at most `AO_RAYS` unoccluded rays.
pub open spec fn valid_samples(s: Seq<SubSample>) -> bool {
    forall|i: int| 0 <= i < s.len() ==> (#[trigger] s[i] matches Some(n) ==> n <= AO_RAYS)
}

/// Unoccluded rays summed over the sub-samples that hit a surface; a miss adds nothing.
pub open spec fn open_sum(s: Seq<SubSample>) -> int
    decreases s.len(),
{
    if s.len() == 0 {
        0
    } else {
        open_sum(s.drop_last()) + match s.last() {
            Some(n) => n as int,
            None => 0,
        }
    }
}

/// Number of occlusion rays, among `blocked`, that hit nothing.
pub open spec fn count_open(blocked: Seq<bool>) -> nat
    decreases blocked.len(),
{
    if blocked.len() == 0 {
        0
    } else {
        count_open(blocked.drop_last()) + if blocked.last() {
            0nat
        } else {
            1nat
        }
    }
}

proof fn lemma_count_open_bounded(blocked: Seq<bool>)
    ensures
        count_open(blocked) <= blocked.len(),
    decreases blocked.len(),
{
    if blocked.len() > 0 {
        lemma_count_open_bounded(blocked.drop_last());
    }
}

/// The unoccluded fraction `count_open(blocked) / blocked.len()` that the
/// occlusion estimate yields lies in `[0, 1]` for every number of rays.
pub proof fn lemma_open_fraction_in_unit_interval(blocked: Seq<bool>)
    requires
        blocked.len() >= 1,
    ensures
        0 <= count_open(blocked) <= blocked.len(),
{
    lemma_count_open_bounded(blocked);
}

/// Counts the occlusion rays that escaped: `blocked[i]` tells whether ray `i`
/// hit some object.
pub fn unoccluded(blocked: &Vec<bool>) -> (n: u32)
    requires
        blocked.len() <= u32::MAX,
    ensures
        n == count_open(blocked@),
        n <= blocked.len(),
{
    let mut n: u32 = 0;
    let mut i: usize = 0;
    while i < blocked.len()
        invariant
            i <= blocked.len() <= u32::MAX,
            n == count_open(blocked@.subrange(0, i as int)),
            n <= i,
        decreases blocked.len() - i,
    {
        proof {
            assert(blocked@.subrange(0, i + 1).drop_last() =~= blocked@.subrange(0, i as int));
        }
        if !blocked[i] {
            n += 1;
        }
        i += 1;
    }
    proof {
        assert(blocked@.subrange(0, i as int) =~= blocked@);
    }
    n
}

/// Occlusion rays cast for one pixel when every one of its `nsub * nsub`
/// sub-samples hits a surface.
pub open spec fn pixel_rays(nsub: int) -> int {
    nsub * nsub * AO_RAYS
}

/// The pixel for a total of `open` unoccluded rays over `nsub * nsub` sub-samples.
/// A pixel whose sub-samples saw no open sky at all is black; otherwise its
/// intensity is the unoccluded fraction scaled to 255, rounded down and clamped.
pub open spec fn shade(open: int, nsub: int) -> Pixel {
    if open == 0 {
        gray(0)
    } else {
        gray(clamp_channel(MAX_INTENSITY * open / pixel_rays(nsub)) as u8)
    }
}

/// The sub-samples of pixel `p` in a run laid out pixel by pixel, `nsub * nsub` each.
pub open spec fn samples_of(s: Seq<SubSample>, nsub: int, p: int) -> Seq<SubSample> {
    s.subrange(p * (nsub * nsub), p * (nsub * nsub) + nsub * nsub)
}

/// The `count` pixels resolved from a run of sub-samples.
pub open spec fn shaded(s: Seq<SubSample>, nsub: int, count: nat) -> Seq<Pixel> {
    Seq::new(count, |p: int| shade(open_sum(samples_of(s, nsub, p)), nsub))
}

proof fn lemma_open_sum_of_misses(s: Seq<SubSample>)
    requires
        forall|i: int| 0 <= i < s.len() ==> #[trigger] s[i] is None,
    ensures
        open_sum(s) == 0,
    decreases s.len(),
{
    if s.len() > 0 {
        assert(s.last() == s[s.len() - 1]);
        assert forall|i: int| 0 <= i < s.drop_last().len() implies #[trigger] s.drop_last()[i] is None by {
            assert(s.drop_last()[i] == s[i]);
        }
        lemma_open_sum_of_misses(s.drop_last());
    }
}

/// Every pixel of a resolved frame is gray, with its three channels equal, and
/// a pixel whose sub-sample rays all missed every object is black.
pub proof fn lemma_frame_gray(s: Seq<SubSample>, nsub: int, count: nat, p: int)
    requires
        0 <= p < count,
    ensures
        shaded(s, nsub, count)[p].is_gray(),
        (forall|i: int| 0 <= i < samples_of(s, nsub, p).len() ==> #[trigger] samples_of(s, nsub, p)[i] is None)
            ==> shaded(s, nsub, count)[p] == gray(0),
{
    if forall|i: int| 0 <= i < samples_of(s, nsub, p).len() ==> #[trigger] samples_of(s, nsub, p)[i] is None {
        lemma_open_sum_of_misses(samples_of(s, nsub, p));
    }
}

/// Resolves one pixel from the unoccluded rays summed over its sub-samples.
pub fn resolve_pixel(open: u64, nsub: u32) -> (p: Pixel)
    requires
        nsub * nsub <= u32::MAX,
        open <= pixel_rays(nsub as int),
    ensures
        p == shade(open as int, nsub as int),
        p.is_gray(),
{
    if open == 0 {
        Pixel::new(0, 0, 0)
    } else {
        let k: u64 = nsub as u64 * nsub as u64;
        let total: u64 = k * AO_RAYS as u64;
        assert(0 < total) by (nonlinear_arith)
            requires
                total == k * 64,
                k == nsub * nsub,
                0 < open <= nsub * nsub * 64,
        ;
        assert(open <= total && total <= u32::MAX * 64);
        assert(MAX_INTENSITY * open <= u64::MAX) by (nonlinear_arith)
            requires
                MAX_INTENSITY == 255,
                open <= u32::MAX * 64,
        ;
        let scaled: u64 = MAX_INTENSITY as u64 * open;
        let v: u64 = scaled / total;
        proof {
            lemma_div_is_ordered(scaled as int, MAX_INTENSITY * total, total as int);
            lemma_div_by_multiple(MAX_INTENSITY as int, total as int);
        }
        Pixel::new_with_clamp(v as u32)
    }
}

/// Resolves `count` pixels from their sub-samples, laid out pixel by pixel.
fn shade_run(count: usize, nsub: u32, samples: &Vec<SubSample>) -> (r: Vec<Pixel>)
    requires
        nsub * nsub <= u32::MAX,
        samples.len() == count * (nsub * nsub),
        valid_samples(samples@),
    ensures
        r@ == shaded(samples@, nsub as int, count as nat),
{
    let k: usize = (nsub * nsub) as usize;
    let mut out: Vec<Pixel> = Vec::new();
    let mut p: usize = 0;
    while p < count
        invariant
            p <= count,
            k == nsub * nsub,
            nsub * nsub <= u32::MAX,
            samples.len() == count * k,
            valid_samples(samples@),
            out@ == shaded(samples@, nsub as int, p as nat),
        decreases count - p,
    {
        proof {
            lemma_mul_inequality(p + 1, count as int, k as int);
            assert((p + 1) * k == p * k + k) by (nonlinear_arith);
        }
        let base: usize = p * k;
        let mut sum: u64 = 0;
        let mut j: usize = 0;
        while j < k
            invariant
                j <= k,
                k <= u32::MAX,
                base + k <= samples.len(),
                valid_samples(samples@),
                sum == open_sum(samples@.subrange(base as int, base + j)),
                sum <= j * AO_RAYS,
            decreases k - j,
        {
            let s = samples[base + j];
            proof {
                let sub = samples@.subrange(base as int, base + j + 1);
                assert(sub.drop_last() =~= samples@.subrange(base as int, base + j));
                assert(sub.last() == samples@[base + j]);
                assert(samples@[base + j] matches Some(m) ==> m <= AO_RAYS);
            }
            match s {
                Some(n) => {
                    sum = sum + n as u64;
                },
                None => {},
            }
            j += 1;
        }
        let px = resolve_pixel(sum, nsub);
        proof {
            assert(samples_of(samples@, nsub as int, p as int) == samples@.subrange(
                base as int,
                base + k,
            ));
            assert(out@.push(px) =~= shaded(samples@, nsub as int, (p + 1) as nat));
        }
        out.push(px);
        p += 1;
    }
    out
}

/// Resolves one scanline of `width` pixels from its sub-samples, `nsub * nsub`
/// per pixel in pixel order.
pub fn render_line(width: u32, nsub: u32, samples: &Vec<SubSample>) -> (r: Vec<Pixel>)
    requires
        nsub * nsub <= u32::MAX,
        samples.len() == width * (nsub * nsub),
        valid_samples(samples@),
    ensures
        r@ == shaded(samples@, nsub as int, width as nat),
{
    shade_run(width as usize, nsub, samples)
}

/// Resolves a whole `width` by `height` frame, row-major, from its sub-samples,
/// `nsub * nsub` per pixel in pixel order.
pub fn render(width: u32, height: u32, nsub: u32, samples: &Vec<SubSample>) -> (r: Vec<Pixel>)
    requires
        nsub * nsub <= u32::MAX,
        width * height <= usize::MAX,
        samples.len() == width * height * (nsub * nsub),
        valid_samples(samples@),
    ensures
        r@ == shaded(samples@, nsub as int, (width * height) as nat),
{
    let count: usize = width as usize * height as usize;
    shade_run(count, nsub, samples)
}

} // verus!
