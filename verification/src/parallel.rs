//! Dividing an encode among several threads.
//!
//! Opus carries real inter-frame state, so a frame range cannot be encoded from
//! a cold encoder and dropped into the middle of a stream. Each worker primes
//! its encoder by re-encoding the audio immediately before its chunk and
//! discarding those packets.
//!
//! Every worker but the first re-encodes the warm-up, which it will not emit.
//! The worker count is capped so that this redundancy stays at or below a
//! quarter of the useful work, which with the default warm-up means one worker
//! per 8 s of audio. Fixed chunk boundaries make the output deterministic.

use vstd::prelude::*;

use crate::config::{Application, Bandwidth, RateControl, Signal};

verus! {

/// Default priming length, in milliseconds: the depth of the content analysis's
/// history. Priming for less leaves a worker choosing its coding mode from a
/// partly-filled analysis.
pub const DEFAULT_WARMUP_MS: u32 = 2_000;

/// The redundancy ceiling that caps the worker count: a chunk is never shorter
/// than this many warm-ups, which holds re-encoded audio at or below a quarter
/// of the useful work.
const MIN_CHUNK_WARMUPS: u64 = 4;

/// Configuration for a parallel encode: every setting a worker's encoder has.
#[derive(Debug, Clone, Copy)]
#[non_exhaustive]
pub struct ParallelConfig {
    /// Rate of the PCM being encoded.
    pub sample_rate: i32,
    /// Channels in that PCM, interleaved. 1 or 2.
    pub channels: usize,
    /// What to optimise for.
    pub application: Application,
    /// The target rate, in bits per second.
    pub bitrate_bps: i32,
    /// The encoder's complexity, 0 to 10.
    pub complexity: i32,
    /// How packet sizes may vary.
    pub rate_control: RateControl,
    /// Whether packets carry a redundant copy of the previous frame.
    pub use_inband_fec: bool,
    /// Discontinuous transmission. Its trigger counts consecutive inactive
    /// frames and each worker starts that count at zero.
    pub use_dtx: bool,
    /// The loss to be prepared for, in percent.
    pub packet_loss_perc: i32,
    /// Pinning this, or [`Self::signal_type`], takes the content analysis out
    /// of the coding-mode decision and lets `warmup_ms` be much shorter.
    pub force_bandwidth: Option<Bandwidth>,
    /// See [`Self::force_bandwidth`].
    pub signal_type: Option<Signal>,
    /// Caps the automatic choice of bandwidth.
    pub max_bandwidth: Bandwidth,
    /// Significant bits of the input.
    pub lsb_depth: i32,
    /// Audio each worker re-encodes before its own chunk to prime encoder
    /// state, then discards. `0` disables priming.
    pub warmup_ms: u32,
    /// Worker count; `0` selects as many as the machine can run at once. Capped
    /// by the redundancy ceiling.
    pub threads: usize,
}

/// How a parallel encode will be divided up, from [`ParallelConfig::plan`].
#[derive(Clone, Debug, PartialEq, Eq)]
#[non_exhaustive]
pub struct ParallelPlan {
    /// Threads that will actually run. `1` means the encode is serial, whatever
    /// was requested.
    pub workers: usize,
    /// Frames of priming each worker after the first re-encodes and discards.
    pub warmup_frames: usize,
    /// Total frames that will be encoded and thrown away.
    pub redundant_frames: usize,
    /// Half-open frame range per worker, in output order.
    pub ranges: Vec<(usize, usize)>,
}

/// The warm-up in frames, rounded up.
pub open spec fn spec_warmup_frames(
    warmup_ms: int,
    sample_rate: int,
    frame_size: int,
) -> int {
    if frame_size == 0 || warmup_ms == 0 || sample_rate <= 0 {
        0
    } else {
        let frame_us = frame_size * 1_000_000 / sample_rate;
        if frame_us == 0 {
            0
        } else {
            (warmup_ms * 1000 + frame_us - 1) / frame_us
        }
    }
}

/// The shortest chunk a worker may be given.
pub open spec fn min_chunk(warmup: int) -> int {
    if warmup == 0 {
        1
    } else {
        4 * warmup
    }
}

/// The workers that run, of those requested.
pub open spec fn worker_count(requested: int, total: int, warmup: int) -> int {
    let wanted = if requested < 1 {
        1
    } else {
        requested
    };
    let most = if total / min_chunk(warmup) < 1 {
        1
    } else {
        total / min_chunk(warmup)
    };
    if wanted < most {
        wanted
    } else {
        most
    }
}

/// Where the range of worker `w` begins: equal shares, the first ones a frame
/// longer where the division leaves some over.
pub open spec fn range_start(total: int, workers: int, w: int) -> int {
    w * (total / workers) + (if w < total % workers {
        w
    } else {
        total % workers
    })
}

/// The frames re-encoded by the first `w` workers.
pub open spec fn redundant(total: int, workers: int, warmup: int, w: int) -> int
    decreases w,
{
    if w <= 0 {
        0
    } else {
        redundant(total, workers, warmup, w - 1) + (if range_start(total, workers, w - 1)
            < warmup {
            range_start(total, workers, w - 1)
        } else {
            warmup
        })
    }
}

/// Whether a plan divides `total` frames among `workers` with this warm-up.
pub open spec fn divides(plan: &ParallelPlan, total: int, workers: int, warmup: int) -> bool {
    &&& plan.workers == workers
    &&& plan.warmup_frames == warmup
    &&& plan.redundant_frames == (if total == 0 {
        0
    } else {
        redundant(total, workers, warmup, workers)
    })
    &&& plan.ranges@.len() == (if total == 0 {
        0
    } else {
        workers
    })
    &&& forall|w: int|
        0 <= w < plan.ranges@.len() ==> (#[trigger] plan.ranges@[w]).0 == range_start(
            total,
            workers,
            w,
        ) && plan.ranges@[w].1 == range_start(total, workers, w + 1)
}

proof fn lemma_worker_count(requested: int, total: int, warmup: int)
    requires
        total >= 0,
        warmup >= 0,
    ensures
        ({
            let n = worker_count(requested, total, warmup);
            &&& 1 <= n
            &&& n > 1 ==> n * min_chunk(warmup) <= total
            &&& total > 0 ==> n <= total
        }),
{
    let c: int = min_chunk(warmup);
    let n: int = worker_count(requested, total, warmup);
    assert(0 <= total / c && (total / c) * c <= total && (total / c) <= total) by (nonlinear_arith)
        requires
            c >= 1,
            total >= 0,
    ;
    if n > 1 {
        assert(n * c <= (total / c) * c) by (nonlinear_arith)
            requires
                n <= total / c,
                c >= 1,
        ;
    }
}

proof fn lemma_range_step(total: int, workers: int, w: int)
    requires
        total >= 0,
        workers >= 1,
        0 <= w < workers,
    ensures
        range_start(total, workers, w + 1) == range_start(total, workers, w) + total / workers + (
        if w < total % workers {
            1int
        } else {
            0
        }),
        0 <= range_start(total, workers, w),
        0 <= total / workers,
        range_start(total, workers, w + 1) <= total,
{
    let base: int = total / workers;
    let rem: int = total % workers;
    assert(total == base * workers + rem && 0 <= rem < workers && 0 <= base) by (nonlinear_arith)
        requires
            workers >= 1,
            total >= 0,
            base == total / workers,
            rem == total % workers,
    ;
    assert((w + 1) * base == w * base + base && 0 <= w * base && (w + 1) * base <= workers * base)
        by (nonlinear_arith)
        requires
            0 <= w < workers,
            0 <= base,
    ;
    assert(base * workers == workers * base) by (nonlinear_arith);
}

proof fn lemma_range_end(total: int, workers: int)
    requires
        total >= 0,
        workers >= 1,
    ensures
        range_start(total, workers, workers) == total,
{
    assert(workers * (total / workers) + total % workers == total) by (nonlinear_arith)
        requires
            workers >= 1,
    ;
}

proof fn lemma_redundant_bound(total: int, workers: int, warmup: int, w: int)
    requires
        total >= 0,
        workers >= 1,
        warmup >= 0,
        1 <= w <= workers,
    ensures
        0 <= redundant(total, workers, warmup, w) <= (w - 1) * warmup,
    decreases w,
{
    lemma_range_step(total, workers, w - 1);
    if w > 1 {
        lemma_redundant_bound(total, workers, warmup, w - 1);
        assert((w - 2) * warmup + warmup == (w - 1) * warmup) by (nonlinear_arith);
    } else {
        assert(range_start(total, workers, 0) == 0) by {
            assert(0 * (total / workers) == 0) by (nonlinear_arith);
            lemma_range_step(total, workers, 0);
        }
        assert(redundant(total, workers, warmup, 0) == 0);
        assert(0 * warmup == 0) by (nonlinear_arith);
    }
}

impl ParallelConfig {
    /// A configuration with the defaults: 64 kb/s at complexity 9, constrained
    /// variable rate, and the full warm-up.
    pub fn new(sample_rate: i32, channels: usize, application: Application) -> (c: Self)
        ensures
            c == (ParallelConfig {
                sample_rate,
                channels,
                application,
                bitrate_bps: 64_000,
                complexity: 9,
                rate_control: RateControl::ConstrainedVbr,
                use_inband_fec: false,
                use_dtx: false,
                packet_loss_perc: 0,
                force_bandwidth: None,
                signal_type: None,
                max_bandwidth: Bandwidth::Fullband,
                lsb_depth: 24,
                warmup_ms: 2_000,
                threads: 0,
            }),
    {
        ParallelConfig {
            sample_rate,
            channels,
            application,
            bitrate_bps: 64_000,
            complexity: 9,
            rate_control: RateControl::ConstrainedVbr,
            use_inband_fec: false,
            use_dtx: false,
            packet_loss_perc: 0,
            force_bandwidth: None,
            signal_type: None,
            max_bandwidth: Bandwidth::Fullband,
            lsb_depth: 24,
            warmup_ms: DEFAULT_WARMUP_MS,
            threads: 0,
        }
    }

    /// Warm-up expressed in frames of `frame_size` samples per channel, rounded
    /// up so a frame duration that does not divide `warmup_ms` still covers it.
    pub fn warmup_frames(&self, frame_size: usize) -> (n: usize)
        requires
            frame_size * 1_000_000 <= u64::MAX,
            spec_warmup_frames(
                self.warmup_ms as int,
                self.sample_rate as int,
                frame_size as int,
            ) <= usize::MAX,
        ensures
            n == spec_warmup_frames(
                self.warmup_ms as int,
                self.sample_rate as int,
                frame_size as int,
            ),
    {
        if frame_size == 0 || self.warmup_ms == 0 || self.sample_rate <= 0 {
            return 0;
        }
        let frame_us: u64 = (frame_size as u64 * 1_000_000) / self.sample_rate as u64;
        if frame_us == 0 {
            return 0;
        }
        let warmup_us: u64 = self.warmup_ms as u64 * 1000;
        let whole: u64 = warmup_us / frame_us;
        let n: u64 = if warmup_us % frame_us == 0 {
            whole
        } else {
            whole + 1
        };
        proof {
            lemma_ceil(warmup_us as int, frame_us as int);
        }
        n as usize
    }

    /// How an encode of `total_frames` will be divided, without encoding
    /// anything. `available` is the number of threads the machine can run at
    /// once, which a configuration without a worker count of its own asks for.
    ///
    /// Worth asking before a large job: the worker count is capped by the
    /// redundancy ceiling, so a short clip or a long warm-up can leave far
    /// fewer threads in use than were requested, or fall back to serial
    /// encoding altogether.
    pub fn plan(&self, available: usize, total_frames: usize, frame_size: usize) -> (plan:
        ParallelPlan)
        requires
            frame_size * 1_000_000 <= u64::MAX,
            spec_warmup_frames(
                self.warmup_ms as int,
                self.sample_rate as int,
                frame_size as int,
            ) <= usize::MAX,
            4 * spec_warmup_frames(
                self.warmup_ms as int,
                self.sample_rate as int,
                frame_size as int,
            ) <= u64::MAX,
        ensures
            ({
                let warmup = spec_warmup_frames(
                    self.warmup_ms as int,
                    self.sample_rate as int,
                    frame_size as int,
                );
                let requested = if self.threads == 0 {
                    available as int
                } else {
                    self.threads as int
                };
                divides(
                    &plan,
                    total_frames as int,
                    worker_count(requested, total_frames as int, warmup),
                    warmup,
                )
            }),
    {
        let warmup: usize = self.warmup_frames(frame_size);
        let requested: usize = if self.threads == 0 {
            available
        } else {
            self.threads
        };
        let chunk: u64 = if warmup == 0 {
            1
        } else {
            warmup as u64 * MIN_CHUNK_WARMUPS
        };
        let fitting: u64 = total_frames as u64 / chunk;
        let ghost w_int: int = warmup as int;
        assert(chunk == min_chunk(w_int));
        proof {
            lemma_worker_count(requested as int, total_frames as int, w_int);
        }
        let most: u64 = if fitting < 1 {
            1
        } else {
            fitting
        };
        let wanted: u64 = if requested < 1 {
            1
        } else {
            requested as u64
        };
        assert(fitting <= total_frames) by (nonlinear_arith)
            requires
                fitting == total_frames as u64 / chunk,
                chunk >= 1,
        ;
        let workers: usize = if wanted < most {
            wanted as usize
        } else {
            most as usize
        };
        assert(workers == worker_count(requested as int, total_frames as int, w_int));
        let mut ranges: Vec<(usize, usize)> = Vec::new();
        let mut redundant_frames: usize = 0;
        if total_frames > 0 {
            let base: usize = total_frames / workers;
            let rem: usize = total_frames % workers;
            let mut start: usize = 0;
            let mut w: usize = 0;
            proof {
                lemma_range_step(total_frames as int, workers as int, 0);
                assert(0 * (total_frames as int / workers as int) == 0) by (nonlinear_arith);
            }
            while w < workers
                invariant
                    w <= workers,
                    workers >= 1,
                    workers > 1 ==> workers * min_chunk(w_int) <= total_frames,
                    w_int == warmup,
                    base == total_frames / workers,
                    rem == total_frames % workers,
                    start == range_start(total_frames as int, workers as int, w as int),
                    ranges@.len() == w,
                    forall|i: int|
                        0 <= i < w ==> (#[trigger] ranges@[i]).0 == range_start(
                            total_frames as int,
                            workers as int,
                            i,
                        ) && ranges@[i].1 == range_start(
                            total_frames as int,
                            workers as int,
                            i + 1,
                        ),
                    redundant_frames == redundant(
                        total_frames as int,
                        workers as int,
                        w_int,
                        w as int,
                    ),
                decreases workers - w,
            {
                proof {
                    lemma_range_step(total_frames as int, workers as int, w as int);
                    lemma_redundant_bound(
                        total_frames as int,
                        workers as int,
                        w_int,
                        w + 1,
                    );
                    let c: int = min_chunk(w_int);
                    assert(w * w_int <= total_frames) by (nonlinear_arith)
                        requires
                            0 <= w < workers,
                            workers > 1 ==> workers * c <= total_frames,
                            c >= w_int,
                            w_int >= 0,
                            total_frames >= 0,
                    ;
                }
                let len: usize = if w < rem {
                    base + 1
                } else {
                    base
                };
                redundant_frames = redundant_frames + if start < warmup {
                    start
                } else {
                    warmup
                };
                ranges.push((start, start + len));
                start = start + len;
                w += 1;
            }
        }
        ParallelPlan { workers, warmup_frames: warmup, redundant_frames, ranges }
    }
}

proof fn lemma_ceil(a: int, b: int)
    requires
        a >= 0,
        b >= 1,
    ensures
        (a + b - 1) / b == a / b + (if a % b == 0 {
            0int
        } else {
            1
        }),
{
    assert((a + b - 1) / b == a / b + (if a % b == 0 {
        0int
    } else {
        1
    })) by (nonlinear_arith)
        requires
            a >= 0,
            b >= 1,
    ;
}

impl ParallelPlan {
    /// The first frame worker `w` encodes: its own first frame, less the warm-up
    /// as far as there is audio before it. Packets ahead of its own first frame
    /// are discarded.
    pub fn first_encoded(&self, w: usize) -> (f: usize)
        requires
            w < self.ranges@.len(),
        ensures
            f == if self.ranges@[w as int].0 > self.warmup_frames {
                self.ranges@[w as int].0 - self.warmup_frames
            } else {
                0
            },
    {
        let start: usize = self.ranges[w].0;
        if start > self.warmup_frames {
            start - self.warmup_frames
        } else {
            0
        }
    }
}

/// The ranges cover every frame once, in order: each begins where the one
/// before it ends, the first at 0 and the last ending at the total, and no two
/// differ in length by more than a frame.
pub proof fn law_ranges_cover_every_frame(
    plan: &ParallelPlan,
    total: int,
    workers: int,
    warmup: int,
)
    requires
        divides(plan, total, workers, warmup),
        total > 0,
        workers >= 1,
    ensures
        plan.ranges@.len() == workers,
        plan.ranges@[0].0 == 0,
        plan.ranges@[workers - 1].1 == total,
        forall|w: int|
            #![trigger plan.ranges@[w]]
            0 <= w < workers - 1 ==> plan.ranges@[w].1 == plan.ranges@[w + 1].0,
        forall|w: int|
            0 <= w < workers ==> total / workers <= (#[trigger] plan.ranges@[w]).1
                - plan.ranges@[w].0 <= total / workers + 1,
{
    lemma_range_end(total, workers);
    assert(0 * (total / workers) == 0) by (nonlinear_arith);
    assert(0 <= total % workers) by (nonlinear_arith)
        requires
            workers >= 1,
    ;
    assert forall|w: int| 0 <= w < workers implies total / workers <= (#[trigger] plan.ranges@[w]).1
        - plan.ranges@[w].0 <= total / workers + 1 by {
        lemma_range_step(total, workers, w);
    }
}

/// Redundancy stays at or below a quarter of the useful work, and where there
/// is more than one worker no chunk is shorter than four warm-ups.
pub proof fn law_redundancy_is_capped(requested: int, total: int, warmup: int)
    requires
        total >= 0,
        warmup >= 0,
    ensures
        ({
            let workers = worker_count(requested, total, warmup);
            &&& 4 * redundant(total, workers, warmup, workers) <= total
            &&& workers > 1 ==> 4 * warmup <= total / workers
        }),
{
    let workers: int = worker_count(requested, total, warmup);
    lemma_worker_count(requested, total, warmup);
    lemma_redundant_bound(total, workers, warmup, workers);
    let c: int = min_chunk(warmup);
    if workers > 1 {
        assert(4 * ((workers - 1) * warmup) <= total) by (nonlinear_arith)
            requires
                workers > 1,
                workers * c <= total,
                c >= 4 * warmup,
                warmup >= 0,
        ;
        assert(4 * warmup <= total / workers) by (nonlinear_arith)
            requires
                workers > 1,
                workers * c <= total,
                c >= 4 * warmup,
        ;
    } else {
        assert(0 * warmup == 0) by (nonlinear_arith);
    }
}

} // verus!
