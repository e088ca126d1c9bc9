//! Turning a decoded Ogg Opus stream back into exactly the audio that went in.

use std::ops::Range;

use vstd::prelude::*;

use super::header::{OpusHead, GRANULE_RATE};
use super::reader::OggPacket;
use crate::error::{Error, Result};
use crate::packet::{check_rate, is_opus_rate};

verus! {

/// Trims an Ogg Opus stream's decoded output back to the original audio.
///
/// An Opus stream decodes to more samples than were encoded, at both ends, and
/// RFC 7845 describes both corrections:
///
/// - Pre-skip (section 4.2). The first [`OpusHead::pre_skip`] samples are the
///   encoder's algorithmic delay, not audio, and are discarded.
/// - End-trim (section 4.4). The final page's granule position may claim fewer
///   samples than its packets decode to, which is how the encoder says where
///   the audio actually stopped.
///
/// Both are driven by what the container says rather than by counting packets:
/// a page's granule position is the number of samples decodable through the
/// last packet completed on it, so holding the output to it is an equality on
/// every page but the last, and the end-trim on the last.
///
/// # Scope
///
/// One logical bitstream, decoded from its first packet and starting from
/// granule zero. A file whose granules go backwards or under-claim somewhere
/// other than the end is malformed, and this keeps whichever of the two, audio
/// or granule, promises less.
#[derive(Debug, Clone)]
pub struct Trim {
    /// Interleaved channels in the PCM handed to [`keep`](Trim::keep).
    channels: usize,
    /// Granule ticks per output sample.
    ticks: u64,
    /// The header's pre-skip, at 48 kHz, as the granule positions count it.
    pre_skip_48k: u64,
    /// Samples per channel of encoder delay still to discard from the front, at
    /// the decode rate.
    skip_remaining: u64,
    /// Samples per channel handed back so far.
    emitted: u64,
}

/// A trimmer as numbers.
pub struct TrimView {
    /// Interleaved channels.
    pub channels: int,
    /// Granule ticks per output sample.
    pub ticks: int,
    /// The pre-skip in granule ticks.
    pub pre_skip: int,
    /// Samples still to discard from the front.
    pub skip_remaining: int,
    /// Samples handed back so far.
    pub emitted: int,
}

impl View for Trim {
    type V = TrimView;

    closed spec fn view(&self) -> TrimView {
        TrimView {
            channels: self.channels as int,
            ticks: self.ticks as int,
            pre_skip: self.pre_skip_48k as int,
            skip_remaining: self.skip_remaining as int,
            emitted: self.emitted as int,
        }
    }
}

/// `a / b` rounded up.
pub open spec fn ceil_div(a: int, b: int) -> int {
    (a + b - 1) / b
}

/// The smaller of two numbers.
pub open spec fn lesser(a: int, b: int) -> int {
    if a <= b {
        a
    } else {
        b
    }
}

/// The larger of a number and zero.
pub open spec fn at_least_zero(a: int) -> int {
    if a >= 0 {
        a
    } else {
        0
    }
}

/// A trimmer that has seen nothing.
pub open spec fn trim_start(pre_skip: int, sample_rate: int, channels: int) -> TrimView {
    let ticks = 48_000int / sample_rate;
    TrimView { channels, ticks, pre_skip, skip_remaining: ceil_div(pre_skip, ticks), emitted: 0 }
}

/// Samples a granule position lets be played: what it counts past the pre-skip,
/// in whole output samples.
pub open spec fn playable(t: TrimView, granule: int) -> int {
    at_least_zero(granule - t.pre_skip) / t.ticks
}

/// The samples of a packet of `n` that are audio, as a range of them, where the
/// packet's page has this granule position.
pub open spec fn kept_samples(t: TrimView, granule: int, n: int) -> (int, int) {
    let start = lesser(t.skip_remaining, n);
    let end = if granule >= 0 {
        start + lesser(at_least_zero(playable(t, granule) - t.emitted), n - start)
    } else {
        n
    };
    (start, end)
}

/// The trimmer after that packet.
pub open spec fn after_packet(t: TrimView, granule: int, n: int) -> TrimView {
    let (start, end) = kept_samples(t, granule, n);
    TrimView {
        skip_remaining: t.skip_remaining - start,
        emitted: t.emitted + (end - start),
        ..t
    }
}

impl Trim {
    /// What always holds of a trimmer.
    pub closed spec fn inv(&self) -> bool {
        &&& self.channels >= 1
        &&& self.ticks >= 1
    }

    /// Build a trimmer for a stream, decoded at `sample_rate` into `channels`
    /// interleaved channels.
    ///
    /// `sample_rate` is the rate being decoded to, which need not be the rate
    /// the file was made at; the header's counts are at 48 kHz and are
    /// converted here. `channels` is what the decoder was built for rather than
    /// what the header declares.
    ///
    /// A pre-skip that is not a whole number of output samples is rounded up,
    /// which makes it agree with the granule clamp: see
    /// [`law_ordinary_page_clamps_nothing`].
    pub fn new(head: &OpusHead, sample_rate: i32, channels: usize) -> (r: Result<Self>)
        ensures
            match r {
                Ok(t) => {
                    &&& channels > 0
                    &&& is_opus_rate(sample_rate as int)
                    &&& t.inv()
                    &&& t@ == trim_start(
                        head.pre_skip as int,
                        sample_rate as int,
                        channels as int,
                    )
                },
                Err(e) => if channels == 0 {
                    e == Error::InvalidArgument("channels must be at least 1")
                } else {
                    !is_opus_rate(sample_rate as int) && e == Error::InvalidArgument(
                        "sample rate must be 8, 12, 16, 24 or 48 kHz",
                    )
                },
            },
    {
        if channels == 0 {
            return Err(Error::InvalidArgument("channels must be at least 1"));
        }
        match check_rate(sample_rate) {
            Err(e) => {
                return Err(e);
            },
            Ok(_) => {},
        }
        let ticks: u64 = GRANULE_RATE as u64 / sample_rate as u64;
        assert(1 <= ticks <= 6) by (nonlinear_arith)
            requires
                8_000 <= sample_rate <= 48_000,
                ticks == 48_000u64 / sample_rate as u64,
        ;
        let pre_skip_48k: u64 = head.pre_skip as u64;
        Ok(
            Trim {
                channels,
                ticks,
                pre_skip_48k,
                skip_remaining: (pre_skip_48k + ticks - 1) / ticks,
                emitted: 0,
            },
        )
    }

    /// The part of one packet's decoded PCM that is audio.
    ///
    /// `decoded` is interleaved output for a single packet. Call it for every
    /// packet, in order, including the ones it returns nothing for: the
    /// counting is cumulative.
    pub fn keep<'a, T>(&mut self, packet: &OggPacket, decoded: &'a [T]) -> (kept: &'a [T])
        requires
            old(self).inv(),
            after_packet(
                old(self)@,
                packet.page_granule as int,
                decoded@.len() as int / old(self)@.channels,
            ).emitted <= u64::MAX,
        ensures
            final(self).inv(),
            ({
                let n = decoded@.len() as int / old(self)@.channels;
                let (start, end) = kept_samples(old(self)@, packet.page_granule as int, n);
                &&& kept@ == decoded@.subrange(
                    start * old(self)@.channels,
                    end * old(self)@.channels,
                )
                &&& final(self)@ == after_packet(old(self)@, packet.page_granule as int, n)
            }),
    {
        let audio = self.keep_range(packet, decoded.len());
        vstd::slice::slice_subrange(decoded, audio.start, audio.end)
    }

    /// The same cut as [`keep`](Trim::keep), as indices into the decoded PCM.
    ///
    /// Both bounds count interleaved values rather than sample frames, and both
    /// land on a frame boundary.
    pub fn keep_range(&mut self, packet: &OggPacket, decoded_len: usize) -> (audio: Range<usize>)
        requires
            old(self).inv(),
            after_packet(
                old(self)@,
                packet.page_granule as int,
                decoded_len as int / old(self)@.channels,
            ).emitted <= u64::MAX,
        ensures
            final(self).inv(),
            audio.start <= audio.end <= decoded_len,
            ({
                let n = decoded_len as int / old(self)@.channels;
                let (start, end) = kept_samples(old(self)@, packet.page_granule as int, n);
                &&& audio.start == start * old(self)@.channels
                &&& audio.end == end * old(self)@.channels
                &&& final(self)@ == after_packet(old(self)@, packet.page_granule as int, n)
            }),
    {
        let ghost before = self@;
        let ghost g: int = packet.page_granule as int;
        let total: usize = decoded_len / self.channels;
        proof {
            let c: int = self.channels as int;
            assert(total * c <= decoded_len && total <= decoded_len) by (nonlinear_arith)
                requires
                    c >= 1,
                    total == decoded_len as int / c,
            ;
        }
        // Front: whatever is left of the encoder delay.
        let start: u64 = if self.skip_remaining < total as u64 {
            self.skip_remaining
        } else {
            total as u64
        };
        self.skip_remaining = self.skip_remaining - start;
        let mut end: u64 = total as u64;
        // Back: never hand out more audio than the page's own granule accounts
        // for.
        if packet.page_granule >= 0 {
            let granule: u64 = packet.page_granule as u64;
            let past: u64 = if granule > self.pre_skip_48k {
                granule - self.pre_skip_48k
            } else {
                0
            };
            let playable: u64 = past / self.ticks;
            let left: u64 = if playable > self.emitted {
                playable - self.emitted
            } else {
                0
            };
            end = start + if left < end - start {
                left
            } else {
                end - start
            };
        }
        self.emitted = self.emitted + (end - start);
        proof {
            let c: int = self.channels as int;
            assert(0 <= start * c <= end * c <= total * c) by (nonlinear_arith)
                requires
                    c >= 1,
                    0 <= start <= end <= total,
            ;
        }
        start as usize * self.channels..end as usize * self.channels
    }

    /// Samples per channel handed back so far: after the last packet, the
    /// stream's true length.
    pub fn samples_emitted(&self) -> (n: u64)
        ensures
            n == self@.emitted,
    {
        self.emitted
    }
}

/// Whether a trimmer stands where `n` decoded samples leave it when nothing has
/// been clamped: the delay is discarded from the front and the rest handed back.
pub open spec fn in_step(t: TrimView, n: int) -> bool {
    let delay = ceil_div(t.pre_skip, t.ticks);
    &&& t.ticks >= 1
    &&& t.pre_skip >= 0
    &&& n >= 0
    &&& t.skip_remaining == delay - lesser(n, delay)
    &&& t.emitted == n - lesser(n, delay)
}

/// Rounding the pre-skip up agrees with rounding down what a granule plays: `n`
/// samples' worth of ticks play all but the delay.
pub proof fn law_rounding_agrees(t: TrimView, n: int)
    requires
        t.ticks >= 1,
        t.pre_skip >= 0,
        n >= 0,
    ensures
        playable(t, n * t.ticks) == at_least_zero(n - ceil_div(t.pre_skip, t.ticks)),
{
    let q: int = t.ticks;
    let p: int = t.pre_skip;
    let d: int = ceil_div(p, q);
    assert(q * (d - 1) < p <= q * d) by (nonlinear_arith)
        requires
            q >= 1,
            p >= 0,
            d == (p + q - 1) / q,
    ;
    if n * q >= p {
        assert(n >= d) by (nonlinear_arith)
            requires
                n * q >= p,
                q * (d - 1) < p,
                q >= 1,
        ;
        assert((n * q - p) / q == n - d) by (nonlinear_arith)
            requires
                q >= 1,
                q * (d - 1) < p <= q * d,
        ;
    } else {
        assert(n < d) by (nonlinear_arith)
            requires
                n * q < p,
                p <= q * d,
                q >= 1,
        ;
        assert(0int / q == 0) by (nonlinear_arith)
            requires
                q >= 1,
        ;
    }
}

proof fn lemma_playable_grows(t: TrimView, a: int, b: int)
    requires
        t.ticks >= 1,
        a <= b,
    ensures
        playable(t, a) <= playable(t, b),
        0 <= playable(t, a),
{
    let x: int = at_least_zero(a - t.pre_skip);
    let y: int = at_least_zero(b - t.pre_skip);
    let q: int = t.ticks;
    assert(0 <= x / q <= y / q) by (nonlinear_arith)
        requires
            q >= 1,
            0 <= x <= y,
    ;
}

/// On a page whose granule accounts for at least what has been decoded, the
/// granule clamps nothing: the packet is kept whole but for the delay, and the
/// trimmer stays in step.
pub proof fn law_ordinary_page_clamps_nothing(t: TrimView, decoded: int, granule: int, n: int)
    requires
        in_step(t, decoded),
        n >= 0,
        granule >= (decoded + n) * t.ticks,
    ensures
        kept_samples(t, granule, n) == (lesser(t.skip_remaining, n), n),
        in_step(after_packet(t, granule, n), decoded + n),
{
    let total: int = decoded + n;
    assert(total * t.ticks >= 0) by (nonlinear_arith)
        requires
            total >= 0,
            t.ticks >= 1,
    ;
    law_rounding_agrees(t, total);
    lemma_playable_grows(t, total * t.ticks, granule);
}

/// A page without a granule clamps nothing either.
pub proof fn law_absent_granule_clamps_nothing(t: TrimView, decoded: int, n: int)
    requires
        in_step(t, decoded),
        n >= 0,
    ensures
        kept_samples(t, -1, n) == (lesser(t.skip_remaining, n), n),
        in_step(after_packet(t, -1, n), decoded + n),
{
}

/// The end-trim is exact: a final granule short of what was decoded leaves the
/// stream with exactly the samples the granule plays, or with those already
/// handed back where they are more.
pub proof fn law_final_granule_sets_the_length(t: TrimView, decoded: int, granule: int, n: int)
    requires
        in_step(t, decoded),
        n >= 0,
        0 <= granule <= (decoded + n) * t.ticks,
    ensures
        after_packet(t, granule, n).emitted == if playable(t, granule) > t.emitted {
            playable(t, granule)
        } else {
            t.emitted
        },
{
    let total: int = decoded + n;
    law_rounding_agrees(t, total);
    lemma_playable_grows(t, granule, total * t.ticks);
}

/// One packet of a stream: the granule position of its page and the samples it
/// decodes to.
pub struct DecodedPacket {
    /// The granule position, negative where the page has none.
    pub granule: int,
    /// Samples per channel.
    pub n: int,
}

/// The samples that the packets of a stream decode to.
pub open spec fn decoded_samples(packets: Seq<DecodedPacket>) -> int
    decreases packets.len(),
{
    if packets.len() == 0 {
        0
    } else {
        decoded_samples(packets.drop_last()) + packets.last().n
    }
}

/// The trimmer after those packets, given in order.
pub open spec fn after_packets(t: TrimView, packets: Seq<DecodedPacket>) -> TrimView
    decreases packets.len(),
{
    if packets.len() == 0 {
        t
    } else {
        after_packet(
            after_packets(t, packets.drop_last()),
            packets.last().granule,
            packets.last().n,
        )
    }
}

/// Whether no page claims less than is decoded by its end.
pub open spec fn accounted(t: TrimView, packets: Seq<DecodedPacket>) -> bool {
    forall|i: int|
        #![trigger packets[i]]
        0 <= i < packets.len() ==> packets[i].n >= 0 && (packets[i].granule < 0
            || packets[i].granule >= decoded_samples(packets.take(i + 1)) * t.ticks)
}

proof fn lemma_stays_in_step(t: TrimView, packets: Seq<DecodedPacket>)
    requires
        in_step(t, 0),
        accounted(t, packets),
    ensures
        in_step(after_packets(t, packets), decoded_samples(packets)),
        after_packets(t, packets).ticks == t.ticks,
        after_packets(t, packets).pre_skip == t.pre_skip,
    decreases packets.len(),
{
    if packets.len() > 0 {
        let front = packets.drop_last();
        let k: int = packets.len() - 1;
        assert forall|i: int| #![trigger front[i]] 0 <= i < front.len() implies front[i].n >= 0 && (
        front[i].granule < 0 || front[i].granule >= decoded_samples(front.take(i + 1))
            * t.ticks) by {
            assert(front[i] == packets[i]);
            assert(front.take(i + 1) =~= packets.take(i + 1));
        }
        lemma_stays_in_step(t, front);
        assert(packets.take(k + 1) =~= packets);
        assert(packets[k] == packets.last());
        let mid = after_packets(t, front);
        let p = packets.last();
        if p.granule >= 0 {
            law_ordinary_page_clamps_nothing(mid, decoded_samples(front), p.granule, p.n);
        }
    }
}

/// A stream plays what its last granule says: with every earlier page accounting
/// for what was decoded, and a last granule within the last packet, exactly the
/// samples past the pre-skip up to that granule are handed back, in whole samples
/// of the decode rate.
pub proof fn law_a_stream_plays_its_last_granule(
    pre_skip: int,
    sample_rate: int,
    channels: int,
    packets: Seq<DecodedPacket>,
)
    requires
        is_opus_rate(sample_rate),
        pre_skip >= 0,
        packets.len() > 0,
        ({
            let t = trim_start(pre_skip, sample_rate, channels);
            let before = decoded_samples(packets.drop_last());
            &&& accounted(t, packets.drop_last())
            &&& packets.last().n >= 0
            &&& 0 <= packets.last().granule
            &&& before * t.ticks <= packets.last().granule <= (before + packets.last().n)
                * t.ticks
        }),
    ensures
        after_packets(trim_start(pre_skip, sample_rate, channels), packets).emitted
            == at_least_zero(packets.last().granule - pre_skip) / (48_000int
            / sample_rate),
{
    let t = trim_start(pre_skip, sample_rate, channels);
    let front = packets.drop_last();
    let before = decoded_samples(front);
    let p = packets.last();
    assert(t.ticks == 1 || t.ticks == 2 || t.ticks == 3 || t.ticks == 4 || t.ticks == 6);
    assert(ceil_div(pre_skip, t.ticks) >= 0);
    lemma_stays_in_step(t, front);
    let mid = after_packets(t, front);
    law_final_granule_sets_the_length(mid, before, p.granule, p.n);
    law_rounding_agrees(mid, before);
    lemma_playable_grows(mid, before * mid.ticks, p.granule);
}

/// What is kept of a packet is a part of it, and is counted; a page without a
/// granule cuts nothing off the end.
pub proof fn law_a_cut_is_a_part_of_the_packet(t: TrimView, granule: int, n: int)
    requires
        t.skip_remaining >= 0,
        n >= 0,
    ensures
        ({
            let (start, end) = kept_samples(t, granule, n);
            &&& 0 <= start <= end <= n
            &&& after_packet(t, granule, n).emitted == t.emitted + (end - start)
            &&& after_packet(t, granule, n).skip_remaining == t.skip_remaining - start
            &&& granule < 0 ==> end == n
        }),
{
}

/// Audio never runs past its granule: once a page has one, no more has been
/// handed back than the granule plays, unless earlier pages already had.
pub proof fn law_output_stays_within_the_granule(t: TrimView, granule: int, n: int)
    requires
        t.ticks >= 1,
        t.skip_remaining >= 0,
        n >= 0,
        granule >= 0,
    ensures
        after_packet(t, granule, n).emitted <= if playable(t, granule) > t.emitted {
            playable(t, granule)
        } else {
            t.emitted
        },
        t.emitted <= after_packet(t, granule, n).emitted <= t.emitted + n,
{
    lemma_playable_grows(t, granule, granule);
}

} // verus!
