use vstd::prelude::*;

use rand::rngs::StdRng;

verus! {

/// The number of pixels sampled to fingerprint a procedurally drawn image.
pub const PIXEL_HASH_SAMPLES: usize = 60;

/// The frame of a video shown at a frame position computed from the time: none
/// before the start or after the last frame.
pub fn video_frame_at(position: i64, frame_count: usize) -> (r: Option<usize>)
    ensures
        position < 0 ==> r is None,
        position >= 0 && position >= frame_count ==> r is None,
        0 <= position < frame_count ==> r == Some(position as usize),
{
    if position < 0 {
        None
    } else if (position as u64) >= (frame_count as u64) {
        None
    } else {
        Some(position as usize)
    }
}

/// Source position `s` of one axis of a blit exists and lands inside the destination.
pub open spec fn lands(src_len: u32, offset: i64, dst_len: u32, s: int) -> bool {
    0 <= s < src_len && 0 <= s + offset < dst_len
}

/// The source positions `s` of one axis of a blit that land inside the destination:
/// `0 <= s < src_len` and `0 <= s + offset < dst_len`. They form the range
/// `r.0 .. r.1`.
pub fn blit_span(src_len: u32, offset: i64, dst_len: u32) -> (r: (u32, u32))
    ensures
        r.0 <= r.1 <= src_len,
        forall|s: int| (r.0 <= s < r.1) <==> #[trigger] lands(src_len, offset, dst_len, s),
{
    let src = src_len as i128;
    let off = offset as i128;
    let dst = dst_len as i128;
    let mut lo: i128 = 0 - off;
    if lo < 0 {
        lo = 0;
    }
    if lo > src {
        lo = src;
    }
    let mut hi: i128 = dst - off;
    if hi > src {
        hi = src;
    }
    if hi < lo {
        hi = lo;
    }
    (lo as u32, hi as u32)
}

/// The random number generator of the `rand` crate, held opaque.
#[verifier::external_type_specification]
#[verifier::external_body]
pub struct ExStdRng(StdRng);

/// The seed of the generator that fingerprints procedurally drawn images.
pub const FINGERPRINT_SEED: u64 = 0;

/// A random number generator of the `rand` crate together with a record of the seed
/// it was made with and of every number drawn from it: the range `low .. high` and
/// the number, in order.
pub struct SampleRng {
    rng: StdRng,
    seed: Ghost<u64>,
    draws: Ghost<Seq<(u32, u32, u32)>>,
}

impl View for SampleRng {
    /// The seed, the draws so far, and the generator's state.
    type V = (u64, Seq<(u32, u32, u32)>, StdRng);

    closed spec fn view(&self) -> (u64, Seq<(u32, u32, u32)>, StdRng) {
        (self.seed@, self.draws@, self.rng)
    }
}

impl SampleRng {
    /// A generator seeded with `seed` (`rand::SeedableRng::seed_from_u64` on
    /// `StdRng`), from which nothing has been drawn. Nothing is stated of its state.
    #[verifier::external_body]
    fn seeded(seed: u64) -> (r: Self)
        ensures
            r@.0 == seed,
            r@.1 == Seq::<(u32, u32, u32)>::empty(),
    {
        SampleRng {
            rng: <StdRng as rand::SeedableRng>::seed_from_u64(seed),
            seed: Ghost(seed),
            draws: Ghost(Seq::empty()),
        }
    }

    /// A number drawn from `low .. high` (`rand::RngExt::random_range`), recorded with
    /// its range. Which number comes out is left to the generator.
    #[verifier::external_body]
    fn random_in(&mut self, low: u32, high: u32) -> (r: u32)
        requires
            low < high,
        ensures
            low <= r < high,
            final(self)@.0 == old(self)@.0,
            final(self)@.1 == old(self)@.1.push((low, high, r)),
    {
        let r = rand::RngExt::random_range(&mut self.rng, low..high);
        self.draws = Ghost(self.draws@.push((low, high, r)));
        r
    }
}

/// The pixels at which a procedurally drawn image of the given size is sampled to
/// fingerprint it, and the generator they were drawn from: a generator seeded with
/// `FINGERPRINT_SEED`, from which `PIXEL_HASH_SAMPLES` pixels are drawn, each the
/// column from `0 .. width` and then the row from `0 .. height`.
pub fn pixel_sample_positions(width: u32, height: u32) -> (r: (Vec<(u32, u32)>, SampleRng))
    requires
        width > 0,
        height > 0,
    ensures
        r.1@.0 == FINGERPRINT_SEED,
        r.1@.1.len() == 2 * PIXEL_HASH_SAMPLES,
        r.0@.len() == PIXEL_HASH_SAMPLES,
        forall|k: int|
            0 <= k < PIXEL_HASH_SAMPLES ==> r.1@.1[2 * k] == (0u32, width, (#[trigger] r.0@[k]).0)
                && r.1@.1[2 * k + 1] == (0u32, height, r.0@[k].1),
        forall|k: int| 0 <= k < r.0@.len() ==> (#[trigger] r.0@[k]).0 < width && r.0@[k].1 < height,
{
    let mut rng = SampleRng::seeded(FINGERPRINT_SEED);
    let mut out: Vec<(u32, u32)> = Vec::new();
    let mut k: usize = 0;
    while k < PIXEL_HASH_SAMPLES
        invariant
            width > 0,
            height > 0,
            0 <= k <= PIXEL_HASH_SAMPLES,
            out@.len() == k,
            rng@.0 == FINGERPRINT_SEED,
            rng@.1.len() == 2 * k,
            forall|j: int|
                0 <= j < k ==> rng@.1[2 * j] == (0u32, width, (#[trigger] out@[j]).0) && rng@.1[2
                    * j + 1] == (0u32, height, out@[j].1),
            forall|j: int| 0 <= j < out@.len() ==> (#[trigger] out@[j]).0 < width && out@[j].1 < height,
        decreases PIXEL_HASH_SAMPLES - k,
    {
        let x = rng.random_in(0, width);
        let y = rng.random_in(0, height);
        out.push((x, y));
        k = k + 1;
    }
    (out, rng)
}

} // verus!
