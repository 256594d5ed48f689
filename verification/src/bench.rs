//! Progress of the reproducible benchmark: which mode is being measured, which frames
//! are discarded as warm-up, when every mode is done, and where each mode's screenshot
//! goes.
use vstd::prelude::*;

use crate::renderer::RenderMode;

verus! {

/// Frame bookkeeping of a benchmark over `mode_count` modes, each run for `warmup`
/// discarded frames followed by `frames` measured ones.
#[derive(Debug)]
pub struct BenchProgress {
    pub warmup: u32,
    pub frames: u32,
    pub mode_count: usize,
    /// Index of the mode being measured.
    pub mode_index: usize,
    /// Frames seen so far for that mode.
    pub seen: u32,
}

/// What the caller does after one frame.
#[derive(Clone, Copy, PartialEq, Eq, Structural, Debug)]
pub struct FrameStep {
    /// Keep this frame's time as a sample.
    pub record: bool,
    /// The mode that was measured is complete: fold its samples into a result.
    pub mode_finished: bool,
    /// Every mode has been measured: print the summary and stop.
    pub done: bool,
}

impl BenchProgress {
    pub open spec fn wf(&self) -> bool {
        &&& self.mode_index < usize::MAX
        &&& self.warmup + self.frames <= u32::MAX
        &&& (self.seen < self.warmup + self.frames || self.seen == 0)
    }

    /// The progress of a benchmark about to measure its first mode.
    pub open spec fn new_spec(warmup: u32, frames: u32, mode_count: usize) -> BenchProgress {
        BenchProgress { warmup, frames, mode_count, mode_index: 0, seen: 0 }
    }

    /// A benchmark about to measure its first mode.
    pub fn new(warmup: u32, frames: u32, mode_count: usize) -> (b: BenchProgress)
        ensures
            b.warmup == warmup,
            b.frames == frames,
            b.mode_count == mode_count,
            b.mode_index == 0,
            b.seen == 0,
            b == BenchProgress::new_spec(warmup, frames, mode_count),
    {
        BenchProgress { warmup, frames, mode_count, mode_index: 0, seen: 0 }
    }

    /// The mode being measured, as an index into the benchmark's mode list, if any is
    /// left.
    pub fn current_mode(&self) -> (r: Option<usize>)
        ensures
            r == if self.mode_index < self.mode_count {
                Some(self.mode_index)
            } else {
                None
            },
    {
        if self.mode_index < self.mode_count {
            Some(self.mode_index)
        } else {
            None
        }
    }

    /// The progress after one more frame, and what that frame asks of the caller.
    pub open spec fn spec_frame(self) -> (BenchProgress, FrameStep) {
        let seen = self.seen + 1;
        let record = seen > self.warmup;
        if seen < self.warmup + self.frames {
            (BenchProgress { seen: seen as u32, ..self }, FrameStep { record, mode_finished: false, done: false })
        } else {
            let mode_index = self.mode_index + 1;
            (
                BenchProgress { seen: 0, mode_index: mode_index as usize, ..self },
                FrameStep { record, mode_finished: true, done: mode_index >= self.mode_count },
            )
        }
    }

    /// Account for one rendered frame of the current mode.
    ///
    /// A frame is recorded once the warm-up is over. A mode is complete when its
    /// warm-up and measured frames have all been seen (after at least one frame); the
    /// next mode then starts from zero, and after the last mode the benchmark is done.
    pub fn frame(&mut self) -> (s: FrameStep)
        requires
            old(self).wf(),
        ensures
            s.record == (old(self).seen + 1 > old(self).warmup),
            s.mode_finished == (old(self).seen + 1 >= old(self).warmup + old(self).frames),
            s.mode_finished ==> final(self).seen == 0 && final(self).mode_index == old(
                self,
            ).mode_index + 1,
            !s.mode_finished ==> final(self).seen == old(self).seen + 1 && final(self).mode_index
                == old(self).mode_index,
            s.done == (s.mode_finished && final(self).mode_index >= old(self).mode_count),
            !s.done ==> final(self).wf(),
            final(self).warmup == old(self).warmup,
            final(self).frames == old(self).frames,
            final(self).mode_count == old(self).mode_count,
            (*final(self), s) == old(self).spec_frame(),
    {
        self.seen = self.seen + 1;
        let record = self.seen > self.warmup;
        if self.seen < self.warmup + self.frames {
            return FrameStep { record, mode_finished: false, done: false };
        }
        self.seen = 0;
        self.mode_index = self.mode_index + 1;
        let done = self.mode_index >= self.mode_count;
        FrameStep { record, mode_finished: true, done }
    }
}

/// Frames each mode takes: its warm-up and measured frames, and at least one.
pub open spec fn frames_per_mode(warmup: u32, frames: u32) -> int {
    if warmup + frames == 0 {
        1
    } else {
        warmup + frames
    }
}

/// The progress of a benchmark after `k` frames from its start.
pub open spec fn progress_after(warmup: u32, frames: u32, mode_count: usize, k: int) -> BenchProgress {
    let t = frames_per_mode(warmup, frames);
    BenchProgress {
        warmup,
        frames,
        mode_count,
        mode_index: (k / t) as usize,
        seen: (k % t) as u32,
    }
}

/// A whole run: with `T` frames per mode, the `k + 1`-th frame (for `k` below
/// `mode_count * T`) finishes a mode exactly when `k + 1` is a multiple of `T`, ends the
/// benchmark exactly when it is the `mode_count * T`-th, and leaves the benchmark
/// measuring mode `(k + 1) / T`.
pub proof fn lemma_whole_run(warmup: u32, frames: u32, mode_count: usize, k: int)
    requires
        warmup + frames <= u32::MAX,
        mode_count > 0,
        0 <= k < mode_count * frames_per_mode(warmup, frames),
    ensures
        progress_after(warmup, frames, mode_count, 0) == BenchProgress::new_spec(
            warmup,
            frames,
            mode_count,
        ),
        progress_after(warmup, frames, mode_count, k).wf(),
        progress_after(warmup, frames, mode_count, k).mode_index < mode_count,
        progress_after(warmup, frames, mode_count, k).spec_frame().0 == progress_after(
            warmup,
            frames,
            mode_count,
            k + 1,
        ),
        progress_after(warmup, frames, mode_count, k).spec_frame().1.mode_finished == ((k + 1)
            % frames_per_mode(warmup, frames) == 0),
        progress_after(warmup, frames, mode_count, k).spec_frame().1.done == (k + 1 == mode_count
            * frames_per_mode(warmup, frames)),
        progress_after(warmup, frames, mode_count, k).spec_frame().1.record == (k % frames_per_mode(
            warmup,
            frames,
        ) >= warmup),
{
    let t = frames_per_mode(warmup, frames);
    let m = mode_count as int;
    let q = k / t;
    let r = k % t;
    vstd::arithmetic::div_mod::lemma_fundamental_div_mod(k, t);
    vstd::arithmetic::div_mod::lemma_fundamental_div_mod_converse(0, t, 0, 0);
    assert(q < m) by (nonlinear_arith)
        requires
            k == t * q + r,
            0 <= r < t,
            k < m * t,
            t > 0,
    ;
    assert(q >= 0) by (nonlinear_arith)
        requires
            k == t * q + r,
            0 <= r < t,
            k >= 0,
            t > 0,
    ;
    if r + 1 < t {
        assert(k + 1 == q * t + (r + 1)) by (nonlinear_arith)
            requires
                k == t * q + r,
        ;
        vstd::arithmetic::div_mod::lemma_fundamental_div_mod_converse(k + 1, t, q, r + 1);
        assert(k + 1 != m * t) by (nonlinear_arith)
            requires
                k + 1 == q * t + (r + 1),
                0 < r + 1 < t,
        ;
    } else {
        assert(k + 1 == (q + 1) * t) by (nonlinear_arith)
            requires
                k == t * q + r,
                r + 1 == t,
        ;
        vstd::arithmetic::div_mod::lemma_fundamental_div_mod_converse(k + 1, t, q + 1, 0);
        assert((k + 1 == m * t) == (q + 1 == m)) by (nonlinear_arith)
            requires
                k + 1 == (q + 1) * t,
                t > 0,
        ;
    }
}

/// Positions of the median and of the 95th percentile among `n` sorted samples.
pub fn summary_indices(n: usize) -> (r: (usize, usize))
    requires
        n > 0,
        n * 95 <= usize::MAX,
    ensures
        r.0 == n / 2,
        r.1 == if n * 95 / 100 < n - 1 {
            n * 95 / 100
        } else {
            (n - 1) as int
        },
        r.0 < n,
        r.1 < n,
{
    let p95 = n * 95 / 100;
    (n / 2, if p95 < n - 1 {
        p95
    } else {
        n - 1
    })
}

/// With several modes each screenshot gets its own name; a single mode writes to the
/// path it was given.
pub open spec fn spec_screenshot_needs_suffix(mode_count: usize) -> bool {
    mode_count > 1
}

/// `.modeN`, the tag inserted before a screenshot's extension for mode number `N`.
pub open spec fn mode_tag(mode: RenderMode) -> Seq<u8> {
    seq![0x2eu8, 0x6du8, 0x6fu8, 0x64u8, 0x65u8, (0x30 + mode.spec_number()) as u8]
}

/// The file name of one mode's screenshot: the stem, the mode tag, then the extension
/// (with its dot) when the path has one.
pub open spec fn spec_mode_file_name(stem: Seq<u8>, ext: Option<Seq<u8>>, mode: RenderMode) -> Seq<
    u8,
> {
    match ext {
        Some(e) => stem + mode_tag(mode) + seq![0x2eu8] + e,
        None => stem + mode_tag(mode),
    }
}

/// Whether the screenshot path must be told apart per mode.
pub fn screenshot_needs_suffix(mode_count: usize) -> (r: bool)
    ensures
        r == spec_screenshot_needs_suffix(mode_count),
{
    mode_count > 1
}

/// The screenshot file name for `mode`, from the stem and extension of the given path.
pub fn mode_file_name(stem: &[u8], ext: Option<&[u8]>, mode: RenderMode) -> (r: Vec<u8>)
    requires
        stem@.len() + 7 + match ext {
            Some(e) => e@.len(),
            None => 0,
        } <= usize::MAX,
    ensures
        r@ == spec_mode_file_name(
            stem@,
            match ext {
                Some(e) => Some(e@),
                None => None,
            },
            mode,
        ),
{
    let mut r = vstd::slice::slice_to_vec(stem);
    let digit: u8 = 0x30 + mode.number() as u8;
    r.push(0x2e);
    r.push(0x6d);
    r.push(0x6f);
    r.push(0x64);
    r.push(0x65);
    r.push(digit);
    assert(r@ =~= stem@ + mode_tag(mode));
    match ext {
        Some(e) => {
            r.push(0x2e);
            let ghost before = r@;
            r.extend_from_slice(e);
            assert(r@ =~= before + e@);
            assert(r@ =~= stem@ + mode_tag(mode) + seq![0x2eu8] + e@);
        },
        None => {},
    }
    r
}

} // verus!
