//! The quality benchmark's plan: which modes are scored against the alpha-blended
//! reference, how many views are drawn, and the seeded stream that picks them.
use vstd::prelude::*;

use crate::renderer::RenderMode;

verus! {

/// SplitMix64: small and seedable, so a run reproduces its pose set exactly from its seed.
pub struct SplitMix64(pub u64);

/// Increment added to the state before each draw.
pub const SPLITMIX_GAMMA: u64 = 0x9e37_79b9_7f4a_7c15;

/// The SplitMix64 output function applied to a state.
pub open spec fn splitmix_mix(z: u64) -> u64 {
    let a = vstd::wrapping::u64_specs::wrapping_mul(z ^ (z >> 30u64), 0xbf58_476d_1ce4_e5b9u64);
    let b = vstd::wrapping::u64_specs::wrapping_mul(a ^ (a >> 27u64), 0x94d0_49bb_1331_11ebu64);
    b ^ (b >> 31u64)
}

/// The state after `k` draws from a generator seeded with `seed`.
pub open spec fn splitmix_state(seed: u64, k: nat) -> u64
    decreases k,
{
    if k == 0 {
        seed
    } else {
        vstd::wrapping::u64_specs::wrapping_add(splitmix_state(seed, (k - 1) as nat), SPLITMIX_GAMMA)
    }
}

/// The `k`-th value (counting from 1) drawn from a generator seeded with `seed`.
pub open spec fn splitmix_output(seed: u64, k: nat) -> u64 {
    splitmix_mix(splitmix_state(seed, k))
}

impl SplitMix64 {
    /// A generator whose stream is fixed by `seed`.
    pub fn new(seed: u64) -> (r: SplitMix64)
        ensures
            r.0 == seed,
    {
        SplitMix64(seed)
    }

    /// Advance the state and return the next 64-bit value.
    pub fn next_u64(&mut self) -> (r: u64)
        ensures
            final(self).0 == vstd::wrapping::u64_specs::wrapping_add(old(self).0, SPLITMIX_GAMMA),
            r == splitmix_mix(final(self).0),
    {
        self.0 = self.0.wrapping_add(SPLITMIX_GAMMA);
        let mut v = self.0;
        v = (v ^ (v >> 30)).wrapping_mul(0xbf58_476d_1ce4_e5b9);
        v = (v ^ (v >> 27)).wrapping_mul(0x94d0_49bb_1331_11eb);
        v ^ (v >> 31)
    }

    /// The top 24 bits of the next value: a draw from `0 .. 2^24`, which divided by
    /// `2^24` is exactly representable in `f32`.
    pub fn next_unit_bits(&mut self) -> (r: u32)
        ensures
            final(self).0 == vstd::wrapping::u64_specs::wrapping_add(old(self).0, SPLITMIX_GAMMA),
            r == splitmix_mix(final(self).0) / 0x100_0000_0000,
            r < 0x100_0000,
    {
        let v = self.next_u64();
        let top = v >> 40;
        assert(top == v / 0x100_0000_0000 && top < 0x100_0000) by (bit_vector)
            requires
                top == v >> 40,
        ;
        top as u32
    }
}

/// The stream is reproducible: after `k` draws a generator seeded with `seed` holds the
/// same state as any other seeded alike, and its next draw is the `k + 1`-th output.
pub proof fn lemma_stream_reproducible(seed: u64, k: nat, g: SplitMix64)
    requires
        g.0 == splitmix_state(seed, k),
    ensures
        vstd::wrapping::u64_specs::wrapping_add(g.0, SPLITMIX_GAMMA) == splitmix_state(seed, k + 1),
        splitmix_mix(vstd::wrapping::u64_specs::wrapping_add(g.0, SPLITMIX_GAMMA))
            == splitmix_output(seed, k + 1),
{
}

/// Frames drawn at a pose before the scored one, so that the one-frame-old optical depth
/// (and histogram) the weighted modes read was made at this very camera.
pub const PRIMING_FRAMES: u32 = 2;

/// Why a quality run cannot start.
#[derive(Clone, Copy, PartialEq, Eq, Structural, Debug)]
pub enum QualityError {
    /// Every listed mode was the alpha-blended reference itself.
    NoCandidateModes,
}

/// The listed modes that get scored: all but the alpha-blended reference, in list order.
pub open spec fn candidates_spec(modes: Seq<RenderMode>) -> Seq<RenderMode> {
    modes.filter(|m: RenderMode| m != RenderMode::AlphaBlend)
}

/// The alpha-blended reference is never scored against itself, and every other listed
/// mode is.
pub proof fn lemma_reference_is_not_scored(modes: Seq<RenderMode>)
    ensures
        forall|k: int|
            0 <= k < candidates_spec(modes).len() ==> #[trigger] candidates_spec(modes)[k]
                != RenderMode::AlphaBlend,
        forall|k: int|
            0 <= k < modes.len() && #[trigger] modes[k] != RenderMode::AlphaBlend
                ==> candidates_spec(modes).contains(modes[k]),
{
    broadcast use vstd::seq_lib::group_filter_ensures;

}

/// The modes to score against the reference, or an error when none is left.
pub fn candidate_modes(modes: &[RenderMode]) -> (r: Result<Vec<RenderMode>, QualityError>)
    ensures
        match r {
            Ok(v) => v@ == candidates_spec(modes@) && v@.len() > 0,
            Err(e) => e == QualityError::NoCandidateModes && candidates_spec(modes@).len() == 0,
        },
{
    let mut v: Vec<RenderMode> = Vec::new();
    let mut i: usize = 0;
    while i < modes.len()
        invariant
            i <= modes.len(),
            v@ == candidates_spec(modes@.take(i as int)),
        decreases modes.len() - i,
    {
        proof {
            assert(modes@.take(i + 1).drop_last() =~= modes@.take(i as int));
            reveal(Seq::filter);
        }
        let m = modes[i];
        if m != RenderMode::AlphaBlend {
            v.push(m);
        }
        i += 1;
    }
    proof {
        assert(modes@.take(modes.len() as int) =~= modes@);
    }
    if v.len() == 0 {
        Err(QualityError::NoCandidateModes)
    } else {
        Ok(v)
    }
}

/// Views to score: as many as asked for, and at least one.
pub fn view_count(views: u32) -> (r: u32)
    ensures
        r == if views < 1 {
            1
        } else {
            views
        },
{
    if views < 1 {
        1
    } else {
        views
    }
}

} // verus!
