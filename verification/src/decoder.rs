//! The Opus decoder: everything it decides, counts and carries between packets.
//!
//! Decoding a packet alternates between two layers. What the speech layer
//! decodes is fixed-point and stands here, resampling to the output rate
//! included. What the transform layer decodes is not, so the decoder says what
//! that layer has to do, step by step, and is told when it is done.
//!
//! A packet is opened with [`OpusDecoder::open_packet`]. For each of its frames
//! the speech layer's frames are decoded with
//! [`SilkDecoder::decode`](crate::silk::dec_api::SilkDecoder::decode), kept with
//! [`OpusDecoder::take_silk_frame`] and put out with
//! [`OpusDecoder::render_silk_frame`]; then [`OpusDecoder::read_redundancy`] and
//! [`OpusDecoder::layer_steps`] give the transform layer's work, and
//! [`OpusDecoder::close_frame`] ends the frame.

use vstd::arithmetic::power2::{lemma2_to64, lemma_pow2_pos, lemma_pow2_strictly_increases, pow2};
use vstd::prelude::*;

use crate::config::{Bandwidth, OpusMode};
use crate::error::{Error, Result};
use crate::packet::{
    is_opus_rate, spec_samples, toc_samples, toc_samples_per_frame, MAX_PACKET_SAMPLES,
};
use crate::range_coder::{
    after_bit, after_uint, after_uniform, bit_length, bit_value, decoding, lemma_bits_of_255,
    lemma_narrowed_bits, uint_raw_bits, uint_top, uint_value, uniform_symbol, CoderView, RangeCoder,
};
use crate::repacketizer::{law_frames_lie_inside_the_packet, packet_sizes, parse_packet, total};
use crate::silk::dec_api::{channel_inv, decoder_inv, SilkDecoder};
use crate::silk::decoder_structs::SilkDecoderState;
use crate::silk::init_decoder::{configured, frame_state_cleared, restarted, silk_init_decoder};
use crate::silk::resampler::{
    fresh_resampler, idle_resampler, overlaid, overlay, ResamplerView, SilkResampler,
};
use crate::silk::structs::{zeros16, zeros32};
use crate::toc::{
    bandwidth_from_toc, celt_endband_for_bandwidth, channels_from_toc, config_bandwidth,
    config_mode, config_quarters, frame_duration_ms_from_toc, mode_from_toc, spec_celt_endband,
    toc_config, toc_stereo,
};

verus! {

/// The bands of the transform layer.
pub const CELT_BANDS: usize = 21;

/// The first band the transform layer codes in a hybrid frame; below it the
/// speech layer owns the spectrum.
pub const HYBRID_START_BAND: usize = 17;

/// A decoder: Opus packets in, PCM out.
///
/// One decoder handles one stream, and almost everything it needs is carried
/// between packets, so it has to be fed the whole stream in order.
pub struct OpusDecoder {
    /// The speech layer.
    pub silk_dec: SilkDecoder,
    /// The output rate, Hz.
    pub sampling_rate: i32,
    /// The output channels.
    pub channels: usize,
    /// The mode of the last frame; `None` before the first.
    pub prev_mode: Option<OpusMode>,
    /// Samples per channel in the last packet that arrived.
    pub frame_size: usize,
    /// The channels of that packet.
    pub stream_channels: usize,
    /// Brings the speech layer's mono or left channel to the output rate.
    pub silk_resampler: SilkResampler,
    /// Brings its right channel to the output rate.
    pub silk_resampler_r: SilkResampler,
    /// The rate the resamplers run from; nought before the first frame.
    pub prev_internal_rate: i32,
    /// The last two samples of the speech layer.
    pub silk_s_mid: [i16; 2],
    /// The range left by the last frame.
    pub last_range: u32,
    /// The output gain, Q7.8 dB.
    pub gain_q8: i32,
    /// Whether the last frame ended on a redundant frame of the transform layer,
    /// which has then been made ready for the frames to come.
    pub prev_redundancy: bool,
    /// The rate the speech layer last ran at.
    pub silk_internal_rate: i32,
    /// The band the transform layer last decoded up to.
    pub celt_end_band: usize,
}

/// Whether a rate, in Hz, is one the speech layer runs at.
pub open spec fn is_silk_rate(rate: int) -> bool {
    rate == 8_000 || rate == 12_000 || rate == 16_000
}

/// Whether a resampler runs between two rates.
pub open spec fn runs_between(r: ResamplerView, fs_in: int, fs_out: int) -> bool {
    let f = fresh_resampler(fs_in, fs_out);
    &&& r.fs_in_khz == f.fs_in_khz
    &&& r.fs_out_khz == f.fs_out_khz
    &&& r.batch == f.batch
    &&& r.inc == f.inc
    &&& r.mode == f.mode
    &&& r.held.len() == f.held.len()
}

impl OpusDecoder {
    /// What holds of a decoder between calls.
    pub open spec fn inv(&self) -> bool {
        &&& is_opus_rate(self.sampling_rate as int)
        &&& self.channels == 1 || self.channels == 2
        &&& decoder_inv(self.silk_dec)
        &&& self.silk_dec.n_channels_internal == 1 || self.silk_dec.n_channels_internal == 2
        &&& self.silk_resampler.inv()
        &&& self.silk_resampler_r.inv()
        &&& is_silk_rate(self.silk_internal_rate as int)
        &&& self.prev_internal_rate == 0 || is_silk_rate(self.prev_internal_rate as int)
        &&& self.prev_internal_rate != 0 ==> {
            &&& runs_between(
                self.silk_resampler@,
                self.prev_internal_rate as int,
                self.sampling_rate as int,
            )
            &&& runs_between(
                self.silk_resampler_r@,
                self.prev_internal_rate as int,
                self.sampling_rate as int,
            )
        }
    }

    /// Whether this is a decoder in front of its first packet.
    pub open spec fn is_fresh(&self, sampling_rate: int, channels: int) -> bool {
        let silk_rate = if sampling_rate < 16_000 {
            sampling_rate
        } else {
            16_000
        };
        let mid = self.silk_dec.channel_state@[0];
        let side = self.silk_dec.channel_state@[1];
        &&& self.sampling_rate == sampling_rate
        &&& self.channels == channels
        &&& self.prev_mode is None
        &&& self.frame_size == 0
        &&& self.stream_channels == channels
        &&& self.silk_resampler@ == idle_resampler()
        &&& self.silk_resampler_r@ == idle_resampler()
        &&& self.prev_internal_rate == 0
        &&& zeros16(self.silk_s_mid@)
        &&& self.last_range == 0
        &&& !self.prev_redundancy
        &&& self.silk_internal_rate == 16_000
        &&& self.celt_end_band == CELT_BANDS
        &&& fresh_channel(mid)
        &&& configured(mid)
        &&& mid.fs_khz == silk_rate / 1000
        &&& mid.fs_api_hz == sampling_rate
        &&& mid.n_frames_per_packet == 1
        &&& fresh_channel(side)
        &&& side.n_frames_per_packet == 0
        &&& if channels == 2 {
            configured(side) && side.fs_khz == silk_rate / 1000 && side.fs_api_hz == silk_rate
        } else {
            side.fs_khz == 0 && side.lpc_order == 0
        }
        &&& self.silk_dec.n_channels_api == channels
        &&& self.silk_dec.n_channels_internal == channels
        &&& self.silk_dec.prev_decode_only_middle == 0
        &&& zeros32(self.silk_dec.s_stereo_pred_prev_q13@)
        &&& zeros16(self.silk_dec.s_stereo_mid@)
        &&& zeros16(self.silk_dec.s_stereo_side@)
        &&& !self.silk_dec.produce_lr
        &&& zeros16(self.silk_dec.l_out@)
        &&& zeros16(self.silk_dec.r_out@)
    }
}

/// Whether a channel of the speech layer has decoded nothing.
pub open spec fn fresh_channel(d: SilkDecoderState) -> bool {
    &&& frame_state_cleared(d)
    &&& d.s_plc.is_reset()
    &&& d.n_frames_decoded == 0
    &&& zeros16(d.s_cng.cng_smth_nlsf_q15@)
    &&& d.s_cng.cng_smth_gain_q16 == 0
    &&& d.s_cng.rand_seed == 3176576
    &&& zeros32(d.s_cng.cng_exc_buf_q14@)
    &&& zeros32(d.s_cng.cng_synth_state@)
    &&& d.s_cng.fs_khz == 0
}

/// Why no decoder can be created; `None` where one can.
pub open spec fn creation_error(sampling_rate: int, channels: int) -> Option<Error> {
    if !is_opus_rate(sampling_rate) {
        Some(Error::InvalidArgument("Invalid sampling rate"))
    } else if channels != 1 && channels != 2 {
        Some(Error::InvalidArgument("Invalid number of channels"))
    } else {
        None
    }
}

impl OpusDecoder {
    /// A decoder producing `sampling_rate` Hz and `channels` channels, with no
    /// gain.
    ///
    /// Neither has to match how the stream was encoded: they describe the PCM
    /// the caller wants back.
    pub fn new(sampling_rate: i32, channels: usize) -> (r: Result<Self>)
        ensures
            match r {
                Ok(d) => {
                    &&& creation_error(sampling_rate as int, channels as int) is None
                    &&& d.inv()
                    &&& d.is_fresh(sampling_rate as int, channels as int)
                    &&& d.gain_q8 == 0
                },
                Err(e) => creation_error(sampling_rate as int, channels as int) == Some(e),
            },
    {
        if sampling_rate != 8_000 && sampling_rate != 12_000 && sampling_rate != 16_000
            && sampling_rate != 24_000 && sampling_rate != 48_000 {
            return Err(Error::InvalidArgument("Invalid sampling rate"));
        }
        if channels != 1 && channels != 2 {
            return Err(Error::InvalidArgument("Invalid number of channels"));
        }
        let silk_rate: i32 = if sampling_rate < 16_000 {
            sampling_rate
        } else {
            16_000
        };
        let mut silk_dec = SilkDecoder::new();
        silk_dec.init(silk_rate, channels as i32);
        let mut mid: SilkDecoderState = silk_dec.channel_state[0];
        let ghost chosen = mid;
        mid.fs_api_hz = sampling_rate;
        proof {
            assert(channel_inv(chosen));
            assert(channel_inv(mid));
        }
        silk_dec.channel_state = [mid, silk_dec.channel_state[1]];
        Ok(
            OpusDecoder {
                silk_dec,
                sampling_rate,
                channels,
                prev_mode: None,
                frame_size: 0,
                stream_channels: channels,
                silk_resampler: SilkResampler::default(),
                silk_resampler_r: SilkResampler::default(),
                prev_internal_rate: 0,
                silk_s_mid: [0; 2],
                last_range: 0,
                gain_q8: 0,
                prev_redundancy: false,
                silk_internal_rate: 16_000,
                celt_end_band: CELT_BANDS,
            },
        )
    }

    /// Discard everything the decoder has learned, keeping its settings: the
    /// moment for it is between two unrelated streams.
    pub fn reset_state(&mut self) -> (r: Result<()>)
        requires
            old(self).inv(),
        ensures
            r is Ok,
            final(self).inv(),
            final(self).is_fresh(old(self).sampling_rate as int, old(self).channels as int),
            final(self).gain_q8 == old(self).gain_q8,
    {
        let gain_q8: i32 = self.gain_q8;
        match OpusDecoder::new(self.sampling_rate, self.channels) {
            Err(e) => Err(e),
            Ok(fresh) => {
                let mut fresh = fresh;
                fresh.gain_q8 = gain_q8;
                *self = fresh;
                Ok(())
            },
        }
    }

    /// The sample rate this decoder was created with, in Hz.
    pub fn sample_rate(&self) -> (r: i32)
        ensures
            r == self.sampling_rate,
    {
        self.sampling_rate
    }

    /// The channel count this decoder was created with.
    pub fn channels(&self) -> (r: usize)
        ensures
            r == self.channels,
    {
        self.channels
    }

    /// The range coder's state left by the last decoded frame. A decoder that
    /// has read a packet correctly ends where the encoder ended.
    pub fn final_range(&self) -> (r: u32)
        ensures
            r == self.last_range,
    {
        self.last_range
    }

    /// Samples per channel in the last packet decoded from real data, or 0
    /// before the first one. Concealed and recovered frames do not change it.
    pub fn last_packet_duration(&self) -> (r: usize)
        ensures
            r == self.frame_size,
    {
        self.frame_size
    }
}

// ---------------------------------------------------------------------------
// What a packet asks for
// ---------------------------------------------------------------------------
/// The band up to which the transform layer of a packet is decoded.
pub open spec fn toc_end_band(toc: u8) -> int {
    let config = toc_config(toc);
    if config < 12 || config >= 28 {
        21
    } else if config < 14 {
        19
    } else if config < 16 {
        21
    } else if config < 20 {
        13
    } else if config < 24 {
        17
    } else {
        19
    }
}

/// The band up to which the transform layer of a packet is decoded: the top band
/// but for a hybrid or transform-only packet of less bandwidth.
pub fn celt_end_band_from_toc(toc: u8) -> (band: usize)
    ensures
        band == toc_end_band(toc),
{
    match mode_from_toc(toc) {
        OpusMode::CeltOnly => {
            // Two bands less for each step of bandwidth below the full one, and
            // two steps from wideband to narrowband.
            let trim: usize = match toc / 32 {
                4 => 4,
                5 => 2,
                6 => 1,
                _ => 0,
            };
            CELT_BANDS - 2 * trim
        },
        OpusMode::Hybrid => {
            if bandwidth_from_toc(toc) == Bandwidth::Superwideband {
                19
            } else {
                CELT_BANDS
            }
        },
        OpusMode::SilkOnly => CELT_BANDS,
    }
}

/// A packet with a transform layer is decoded up to the band its bandwidth is
/// coded up to.
pub proof fn law_end_band_is_that_of_the_bandwidth(toc: u8)
    requires
        config_mode(toc_config(toc)) != OpusMode::SilkOnly,
    ensures
        toc_end_band(toc) == spec_celt_endband(config_bandwidth(toc_config(toc))),
{
}

/// The rate the speech layer runs at.
pub open spec fn internal_rate(mode: OpusMode, bandwidth: Bandwidth) -> int {
    if mode == OpusMode::Hybrid {
        16_000
    } else {
        match bandwidth {
            Bandwidth::Narrowband => 8_000,
            Bandwidth::Mediumband => 12_000,
            _ => 16_000,
        }
    }
}

fn internal_rate_of(mode: OpusMode, bandwidth: Bandwidth) -> (r: i32)
    ensures
        r == internal_rate(mode, bandwidth),
        is_silk_rate(r as int),
{
    match mode {
        OpusMode::Hybrid => 16_000,
        _ => match bandwidth {
            Bandwidth::Narrowband => 8_000,
            Bandwidth::Mediumband => 12_000,
            _ => 16_000,
        },
    }
}

/// The frames of the speech layer in one of `ms` milliseconds.
pub open spec fn silk_frames(ms: int) -> int {
    if ms == 40 {
        2
    } else if ms == 60 {
        3
    } else {
        1
    }
}

fn silk_frames_of(ms: i32) -> (n: usize)
    ensures
        n == silk_frames(ms as int),
        1 <= n <= 3,
{
    if ms == 40 {
        2
    } else if ms == 60 {
        3
    } else {
        1
    }
}

/// Whether a mode switch leaves the layer that takes over with no history: its
/// first samples are then faded in from concealment in the mode before. A
/// redundant frame at the end of a speech frame has bridged the way to the
/// transform layer.
pub open spec fn is_transition(
    prev_mode: Option<OpusMode>,
    prev_redundancy: bool,
    mode: OpusMode,
) -> bool {
    match prev_mode {
        None => false,
        Some(prev) => {
            ||| mode == OpusMode::CeltOnly && prev != OpusMode::CeltOnly && !prev_redundancy
            ||| mode != OpusMode::CeltOnly && prev == OpusMode::CeltOnly
        },
    }
}

fn transition_to(prev_mode: Option<OpusMode>, prev_redundancy: bool, mode: OpusMode) -> (b: bool)
    ensures
        b == is_transition(prev_mode, prev_redundancy, mode),
{
    match prev_mode {
        None => false,
        Some(prev) => (mode == OpusMode::CeltOnly && prev != OpusMode::CeltOnly
            && !prev_redundancy) || (mode != OpusMode::CeltOnly && prev == OpusMode::CeltOnly),
    }
}

/// Whether the transform layer starts over: the mode has changed and no
/// redundant frame has made it ready.
pub open spec fn starts_over(
    prev_mode: Option<OpusMode>,
    prev_redundancy: bool,
    mode: OpusMode,
) -> bool {
    &&& mode != OpusMode::SilkOnly
    &&& prev_mode is Some
    &&& prev_mode->0 != mode
    &&& !prev_redundancy
}

// ---------------------------------------------------------------------------
// The speech layer in front of a packet
// ---------------------------------------------------------------------------
/// Whether `b` is `a` with the resamplers brought to run from `rate`; they start
/// over where that is a change.
pub open spec fn rate_chosen(a: OpusDecoder, rate: int, b: OpusDecoder) -> bool {
    let fresh = fresh_resampler(rate, a.sampling_rate as int);
    &&& b == (OpusDecoder {
        silk_resampler: b.silk_resampler,
        silk_resampler_r: b.silk_resampler_r,
        prev_internal_rate: rate as i32,
        silk_internal_rate: rate as i32,
        ..a
    })
    &&& if a.prev_internal_rate != rate {
        b.silk_resampler@ == fresh && b.silk_resampler_r@ == fresh
    } else {
        b.silk_resampler == a.silk_resampler && b.silk_resampler_r == a.silk_resampler_r
    }
}

/// Whether `b` is the speech layer `a` made ready for a packet of
/// `packet_channels` channels, which `after_celt` says follows the transform
/// layer alone, and `lr` that it is put out in stereo.
///
/// Nothing is kept across a stretch of the transform layer alone. The side
/// channel starts over where there was none, and with it the stereo weights.
pub open spec fn silk_opened(
    a: SilkDecoder,
    after_celt: bool,
    packet_channels: int,
    lr: bool,
    b: SilkDecoder,
) -> bool {
    let widened = lr && a.n_channels_internal == 1;
    &&& b == (SilkDecoder {
        channel_state: b.channel_state,
        n_channels_internal: packet_channels as i32,
        prev_decode_only_middle: if after_celt {
            0
        } else {
            a.prev_decode_only_middle
        },
        s_stereo_pred_prev_q13: b.s_stereo_pred_prev_q13,
        s_stereo_mid: b.s_stereo_mid,
        s_stereo_side: b.s_stereo_side,
        produce_lr: lr,
        ..a
    })
    &&& if after_celt {
        restarted(a.channel_state@[0], b.channel_state@[0])
    } else {
        b.channel_state@[0] == a.channel_state@[0]
    }
    &&& if after_celt || packet_channels > a.n_channels_internal {
        restarted(a.channel_state@[1], b.channel_state@[1])
    } else {
        b.channel_state@[1] == a.channel_state@[1]
    }
    &&& if after_celt || widened {
        zeros32(b.s_stereo_pred_prev_q13@) && zeros16(b.s_stereo_side@)
    } else {
        b.s_stereo_pred_prev_q13 == a.s_stereo_pred_prev_q13 && b.s_stereo_side
            == a.s_stereo_side
    }
    &&& if after_celt {
        zeros16(b.s_stereo_mid@)
    } else {
        b.s_stereo_mid == a.s_stereo_mid
    }
}

/// Whether `b` is `a` made ready for a packet whose speech layer runs at `rate`
/// with `packet_channels` channels.
pub open spec fn silk_ready(
    a: OpusDecoder,
    after_celt: bool,
    rate: int,
    packet_channels: int,
    b: OpusDecoder,
) -> bool {
    let lr = a.channels == 2 && packet_channels == 2;
    let fresh = fresh_resampler(rate, a.sampling_rate as int);
    let changed = a.prev_internal_rate != rate;
    &&& b == (OpusDecoder {
        silk_dec: b.silk_dec,
        silk_resampler: b.silk_resampler,
        silk_resampler_r: b.silk_resampler_r,
        prev_internal_rate: rate as i32,
        silk_internal_rate: rate as i32,
        silk_s_mid: b.silk_s_mid,
        ..a
    })
    &&& silk_opened(a.silk_dec, after_celt, packet_channels, lr, b.silk_dec)
    &&& if after_celt {
        zeros16(b.silk_s_mid@)
    } else {
        b.silk_s_mid == a.silk_s_mid
    }
    &&& b.silk_resampler@ == if changed {
        fresh
    } else {
        a.silk_resampler@
    }
    &&& b.silk_resampler_r@ == if lr && a.silk_dec.n_channels_internal == 1 {
        b.silk_resampler@
    } else if changed {
        fresh
    } else {
        a.silk_resampler_r@
    }
}

fn restart_channel(d: &SilkDecoderState) -> (r: SilkDecoderState)
    requires
        channel_inv(*d),
    ensures
        restarted(*d, r),
        channel_inv(r),
{
    let mut r: SilkDecoderState = *d;
    silk_init_decoder(&mut r);
    r
}

impl OpusDecoder {
    fn choose_rate(&mut self, rate: i32)
        requires
            old(self).inv(),
            is_silk_rate(rate as int),
        ensures
            final(self).inv(),
            rate_chosen(*old(self), rate as int, *final(self)),
    {
        if rate != self.prev_internal_rate {
            let mut left: SilkResampler = self.silk_resampler;
            let mut right: SilkResampler = self.silk_resampler_r;
            left.init(rate, self.sampling_rate);
            right.init(rate, self.sampling_rate);
            self.silk_resampler = left;
            self.silk_resampler_r = right;
            self.prev_internal_rate = rate;
        }
        self.silk_internal_rate = rate;
    }

    /// Forget the speech layer where the frame before was of the transform layer
    /// alone: what it would predict from belongs to whatever came before that.
    fn reset_silk_after_celt_only(&mut self)
        requires
            old(self).inv(),
        ensures
            final(self).inv(),
            old(self).prev_mode != Some(OpusMode::CeltOnly) ==> *final(self) == *old(self),
            old(self).prev_mode == Some(OpusMode::CeltOnly) ==> {
                let a = old(self).silk_dec;
                let b = final(self).silk_dec;
                &&& *final(self) == (OpusDecoder {
                    silk_dec: b,
                    silk_s_mid: final(self).silk_s_mid,
                    ..*old(self)
                })
                &&& b == (SilkDecoder {
                    channel_state: b.channel_state,
                    s_stereo_pred_prev_q13: b.s_stereo_pred_prev_q13,
                    s_stereo_mid: b.s_stereo_mid,
                    s_stereo_side: b.s_stereo_side,
                    prev_decode_only_middle: 0,
                    ..a
                })
                &&& restarted(a.channel_state@[0], b.channel_state@[0])
                &&& restarted(a.channel_state@[1], b.channel_state@[1])
                &&& zeros32(b.s_stereo_pred_prev_q13@)
                &&& zeros16(b.s_stereo_mid@)
                &&& zeros16(b.s_stereo_side@)
                &&& zeros16(final(self).silk_s_mid@)
            },
    {
        match self.prev_mode {
            Some(OpusMode::CeltOnly) => {},
            _ => {
                return;
            },
        }
        let mid: SilkDecoderState = restart_channel(&self.silk_dec.channel_state[0]);
        let side: SilkDecoderState = restart_channel(&self.silk_dec.channel_state[1]);
        self.silk_dec.channel_state = [mid, side];
        self.silk_dec.s_stereo_pred_prev_q13 = [0; 2];
        self.silk_dec.s_stereo_mid = [0; 2];
        self.silk_dec.s_stereo_side = [0; 2];
        self.silk_dec.prev_decode_only_middle = 0;
        self.silk_s_mid = [0; 2];
    }

    /// Switch the speech layer to the channels of a packet. Gives whether it is
    /// put out as left and right.
    fn setup_silk_channels(&mut self, packet_channels: usize) -> (lr: bool)
        requires
            old(self).inv(),
            packet_channels == 1 || packet_channels == 2,
        ensures
            final(self).inv(),
            lr == (old(self).channels == 2 && packet_channels == 2),
            *final(self) == (OpusDecoder {
                silk_dec: final(self).silk_dec,
                silk_resampler_r: final(self).silk_resampler_r,
                ..*old(self)
            }),
            silk_opened(
                old(self).silk_dec,
                false,
                packet_channels as int,
                lr,
                final(self).silk_dec,
            ),
            final(self).silk_resampler_r == if lr && old(self).silk_dec.n_channels_internal == 1 {
                old(self).silk_resampler
            } else {
                old(self).silk_resampler_r
            },
    {
        let lr: bool = self.channels == 2 && packet_channels == 2;
        let before: i32 = self.silk_dec.n_channels_internal;
        if packet_channels as i32 > before {
            let side: SilkDecoderState = restart_channel(&self.silk_dec.channel_state[1]);
            self.silk_dec.channel_state = [self.silk_dec.channel_state[0], side];
        }
        if lr && before == 1 {
            self.silk_dec.s_stereo_pred_prev_q13 = [0; 2];
            self.silk_dec.s_stereo_side = [0; 2];
            self.silk_resampler_r = self.silk_resampler;
        }
        self.silk_dec.produce_lr = lr;
        self.silk_dec.n_channels_internal = packet_channels as i32;
        lr
    }

    fn open_silk(&mut self, rate: i32, packet_channels: usize) -> (lr: bool)
        requires
            old(self).inv(),
            is_silk_rate(rate as int),
            packet_channels == 1 || packet_channels == 2,
        ensures
            final(self).inv(),
            lr == (old(self).channels == 2 && packet_channels == 2),
            silk_ready(
                *old(self),
                old(self).prev_mode == Some(OpusMode::CeltOnly),
                rate as int,
                packet_channels as int,
                *final(self),
            ),
    {
        self.choose_rate(rate);
        self.reset_silk_after_celt_only();
        self.setup_silk_channels(packet_channels)
    }
}

// ---------------------------------------------------------------------------
// Opening a packet
// ---------------------------------------------------------------------------
/// A packet on its way.
#[derive(Debug, Clone)]
pub struct PacketWork {
    /// Its layers.
    pub mode: OpusMode,
    /// Its audio bandwidth.
    pub bandwidth: Bandwidth,
    /// Its channels.
    pub packet_channels: usize,
    /// Where its frames lie: position and length.
    pub frames: Vec<(usize, usize)>,
    /// The duration of a frame in whole milliseconds.
    pub frame_ms: i32,
    /// Samples per channel in a frame, at the output rate.
    pub sub_frame_size: usize,
    /// Whether its head is faded in from the mode before.
    pub transition: bool,
    /// Whether the transform layer starts over.
    pub reset_celt: bool,
    /// The mode of the frame in front of it.
    pub prev_mode: Option<OpusMode>,
    /// The band the transform layer was decoded up to before.
    pub prev_end_band: usize,
    /// The band it is decoded up to.
    pub end_band: usize,
    /// The rate of the speech layer.
    pub internal_rate: i32,
    /// The frames of the speech layer in each frame.
    pub n_silk: usize,
    /// The samples of each of those, at that rate.
    pub internal_sub: usize,
    /// Whether the speech layer is put out as left and right.
    pub silk_lr: bool,
}

/// What a packet asks of a decoder.
#[derive(Debug, Clone)]
pub enum Work {
    /// Nothing arrived: conceal.
    Conceal,
    /// Decode a packet.
    Packet(PacketWork),
}

/// Whether the frames of a packet lie as its layout says.
pub open spec fn frames_lie(data: Seq<u8>, frames: Seq<(usize, usize)>) -> bool {
    &&& packet_sizes(data, false) is Some
    &&& ({
        let (sizes, start) = packet_sizes(data, false)->0;
        &&& frames.len() == sizes.len()
        &&& forall|i: int|
            0 <= i < sizes.len() ==> (#[trigger] frames[i]).0 == start + total(sizes.take(i))
                && frames[i].1 == sizes[i]
    })
}

/// Samples per channel in a packet.
pub open spec fn packet_duration(data: Seq<u8>, rate: int) -> int {
    (packet_sizes(data, false)->0).0.len() * toc_samples(data[0], rate)
}

/// Why a packet cannot be decoded into the room that is there.
pub open spec fn packet_error(
    d: OpusDecoder,
    input: Seq<u8>,
    frame_size: int,
    room: int,
) -> Option<Error> {
    if room < frame_size * d.channels {
        Some(
            Error::BufferTooSmall {
                needed: (frame_size * d.channels) as usize,
                available: room as usize,
            },
        )
    } else if input.len() == 0 {
        None
    } else if packet_sizes(input, false) is None {
        Some(Error::InvalidPacket("invalid packet"))
    } else if packet_duration(input, d.sampling_rate as int) > frame_size {
        Some(
            Error::BufferTooSmall {
                needed: packet_duration(input, d.sampling_rate as int) as usize,
                available: frame_size as usize,
            },
        )
    } else {
        None
    }
}

/// What a packet is found to hold.
pub open spec fn work_of(a: OpusDecoder, input: Seq<u8>, w: PacketWork) -> bool {
    let toc = input[0];
    let mode = config_mode(toc_config(toc));
    let ms = config_quarters(toc_config(toc)) * 5 / 2;
    let rate = internal_rate(mode, config_bandwidth(toc_config(toc)));
    &&& w.mode == mode
    &&& w.bandwidth == config_bandwidth(toc_config(toc))
    &&& w.packet_channels == if toc_stereo(toc) {
        2int
    } else {
        1int
    }
    &&& frames_lie(input, w.frames@)
    &&& w.frame_ms == ms
    &&& w.sub_frame_size == toc_samples(toc, a.sampling_rate as int)
    &&& w.transition == is_transition(a.prev_mode, a.prev_redundancy, mode)
    &&& w.reset_celt == starts_over(a.prev_mode, a.prev_redundancy, mode)
    &&& w.prev_mode == a.prev_mode
    &&& w.prev_end_band == a.celt_end_band
    &&& w.end_band == toc_end_band(toc)
    &&& w.internal_rate == rate
    &&& w.n_silk == silk_frames(ms)
    &&& w.internal_sub == ms * rate / 1000 / silk_frames(ms)
    &&& w.silk_lr == (mode != OpusMode::CeltOnly && a.channels == 2 && toc_stereo(toc))
}

/// What opening a packet does to the decoder: it notes what arrived, and gets
/// the speech layer ready where the packet has one.
pub open spec fn packet_opened(
    a: OpusDecoder,
    input: Seq<u8>,
    w: PacketWork,
    b: OpusDecoder,
) -> bool {
    let noted = OpusDecoder {
        frame_size: packet_duration(input, a.sampling_rate as int) as usize,
        stream_channels: w.packet_channels,
        celt_end_band: spec_celt_endband(w.bandwidth),
        ..a
    };
    if w.mode == OpusMode::CeltOnly {
        b == (OpusDecoder { prev_redundancy: false, ..noted })
    } else {
        silk_ready(
            noted,
            a.prev_mode == Some(OpusMode::CeltOnly),
            w.internal_rate as int,
            w.packet_channels as int,
            b,
        )
    }
}

/// What decoding a packet gives: the samples per channel put out, or why there
/// are none.
pub open spec fn decoded_samples(
    d: OpusDecoder,
    input: Seq<u8>,
    frame_size: int,
    room: int,
) -> Result<int> {
    match packet_error(d, input, frame_size, room) {
        Some(e) => Err(e),
        None => if input.len() == 0 {
            Ok(frame_size)
        } else {
            Ok(packet_duration(input, d.sampling_rate as int))
        },
    }
}

/// A packet decodes to the samples it says it holds, and to no more than asked
/// for; it is refused where the room is less than asked for. A lost one is
/// concealed for as long as asked. The duration noted is that of the last packet
/// that arrived.
pub proof fn law_a_packet_decodes_to_its_samples(
    d: OpusDecoder,
    input: Seq<u8>,
    frame_size: int,
    room: int,
    w: PacketWork,
    opened: OpusDecoder,
)
    requires
        is_opus_rate(d.sampling_rate as int),
    ensures
        room < frame_size * d.channels ==> decoded_samples(d, input, frame_size, room) is Err,
        decoded_samples(d, input, frame_size, room) matches Ok(n) ==> n <= frame_size && if input.len()
            == 0 {
            n == frame_size
        } else {
            &&& spec_samples(input, d.sampling_rate as int) == Ok::<usize, Error>(n as usize)
            &&& 0 <= n <= MAX_PACKET_SAMPLES
            &&& packet_opened(d, input, w, opened) ==> opened.frame_size == n
        },
{
    if packet_error(d, input, frame_size, room) is None && input.len() > 0 {
        law_frames_lie_inside_the_packet(input, false);
        let rate = d.sampling_rate as int;
        let count: int = (packet_sizes(input, false)->0).0.len() as int;
        let quarters = config_quarters(toc_config(input[0]));
        let at_full = toc_samples(input[0], 48_000);
        let per = toc_samples(input[0], rate);
        assert(at_full == 120 * quarters);
        assert(400 * per == rate * quarters);
        assert(count * quarters <= 48) by (nonlinear_arith)
            requires
                count <= 2 || (120 * quarters) * count <= 5760,
                0 <= quarters <= 24,
                count >= 1,
        ;
        assert(400 * (count * per) == rate * (count * quarters)) by (nonlinear_arith)
            requires
                400 * per == rate * quarters,
        ;
        assert(rate * (count * quarters) <= rate * 48) by (nonlinear_arith)
            requires
                count * quarters <= 48,
                rate > 0,
        ;
        assert(count * per >= 0) by (nonlinear_arith)
            requires
                count >= 1,
                per >= 0,
        ;
    }
}

impl OpusDecoder {
    /// The interleaved samples that `frame_size` per channel are, where `room`
    /// holds them.
    pub fn check_room(&self, frame_size: usize, room: usize) -> (r: Result<usize>)
        requires
            frame_size * self.channels <= usize::MAX,
        ensures
            r == if room < frame_size * self.channels {
                Err::<usize, Error>(
                    Error::BufferTooSmall {
                        needed: (frame_size * self.channels) as usize,
                        available: room,
                    },
                )
            } else {
                Ok((frame_size * self.channels) as usize)
            },
    {
        let capacity: usize = frame_size * self.channels;
        if room < capacity {
            return Err(Error::buffer_too_small(capacity, room));
        }
        Ok(capacity)
    }

    /// Open a packet, for which `output` has `room` interleaved samples of which
    /// `frame_size` per channel may be used. An empty one was lost.
    pub fn open_packet(&mut self, input: &[u8], frame_size: usize, room: usize) -> (r: Result<Work>)
        requires
            old(self).inv(),
            frame_size * old(self).channels <= usize::MAX,
        ensures
            final(self).inv(),
            match r {
                Err(e) => {
                    &&& packet_error(*old(self), input@, frame_size as int, room as int) == Some(e)
                    &&& *final(self) == *old(self)
                },
                Ok(Work::Conceal) => {
                    &&& packet_error(*old(self), input@, frame_size as int, room as int) is None
                    &&& input@.len() == 0
                    &&& *final(self) == *old(self)
                },
                Ok(Work::Packet(w)) => {
                    &&& packet_error(*old(self), input@, frame_size as int, room as int) is None
                    &&& input@.len() > 0
                    &&& work_of(*old(self), input@, w)
                    &&& packet_opened(*old(self), input@, w, *final(self))
                },
            },
    {
        match self.check_room(frame_size, room) {
            Err(e) => {
                return Err(e);
            },
            Ok(_) => {},
        }
        if input.len() == 0 {
            return Ok(Work::Conceal);
        }
        let toc: u8 = input[0];
        let mode = mode_from_toc(toc);
        let packet_channels: usize = channels_from_toc(toc);
        let bandwidth = bandwidth_from_toc(toc);
        let frame_ms: i32 = frame_duration_ms_from_toc(toc);
        let frames: Vec<(usize, usize)> = match parse_packet(input, false) {
            Err(e) => {
                return Err(e);
            },
            Ok((_, frames, _)) => frames,
        };
        proof {
            law_frames_lie_inside_the_packet(input@, false);
        }
        let count: usize = frames.len();
        let sub: usize = toc_samples_per_frame(toc, self.sampling_rate) as usize;
        proof {
            let c: int = count as int;
            let n: int = sub as int;
            assert(0 <= c * n <= 63 * (60 * 48_000)) by (nonlinear_arith)
                requires
                    0 <= c <= 63,
                    0 <= n <= 60 * 48_000,
            ;
        }
        let duration: usize = count * sub;
        if duration > frame_size {
            return Err(Error::buffer_too_small(duration, frame_size));
        }
        let transition: bool = transition_to(self.prev_mode, self.prev_redundancy, mode);
        let reset_celt: bool = mode != OpusMode::SilkOnly && !self.prev_redundancy
            && match self.prev_mode {
            None => false,
            Some(prev) => prev != mode,
        };
        let prev_mode = self.prev_mode;
        let prev_end_band: usize = self.celt_end_band;
        let rate: i32 = internal_rate_of(mode, bandwidth);
        let n_silk: usize = silk_frames_of(frame_ms);
        let internal_sub: usize = (frame_ms * rate / 1000) as usize / n_silk;
        self.frame_size = duration;
        self.stream_channels = packet_channels;
        self.celt_end_band = celt_endband_for_bandwidth(bandwidth);
        let silk_lr: bool = match mode {
            OpusMode::CeltOnly => {
                self.prev_redundancy = false;
                false
            },
            _ => self.open_silk(rate, packet_channels),
        };
        Ok(
            Work::Packet(
                PacketWork {
                    mode,
                    bandwidth,
                    packet_channels,
                    frames,
                    frame_ms,
                    sub_frame_size: sub,
                    transition,
                    reset_celt,
                    prev_mode,
                    prev_end_band,
                    end_band: celt_end_band_from_toc(toc),
                    internal_rate: rate,
                    n_silk,
                    internal_sub,
                    silk_lr,
                },
            ),
        )
    }
}

// ---------------------------------------------------------------------------
// The speech layer's samples
// ---------------------------------------------------------------------------
/// Two channels laid down side by side from `base` on, as far as whole pairs fit.
pub open spec fn interleaved(out: Seq<i16>, base: int, l: Seq<i16>, r: Seq<i16>) -> Seq<i16> {
    Seq::new(
        out.len(),
        |j: int|
            if base <= j && (j - base) / 2 < l.len() && base + 2 * ((j - base) / 2) + 1
                < out.len() {
                if (j - base) % 2 == 0 {
                    l[(j - base) / 2]
                } else {
                    r[(j - base) / 2]
                }
            } else {
                out[j]
            },
    )
}

/// A frame of the speech layer at the output rate, `n` samples long.
pub open spec fn at_output_rate(r: ResamplerView, x: Seq<i16>, n: int) -> Seq<i16> {
    r.written(Seq::new(n as nat, |i: int| 0i16), x)
}

/// The samples that `decoded` of the speech layer become.
pub open spec fn output_samples(decoded: int, internal_rate: int, rate: int) -> int {
    decoded * rate / internal_rate
}

/// Whether a frame of the speech layer has a length there is: 10 or 20 ms.
pub open spec fn is_silk_length(decoded: int, internal_rate: int) -> bool {
    decoded == internal_rate / 100 || decoded == internal_rate / 50
}

proof fn lemma_accepts(r: ResamplerView, fs_in: int, fs_out: int, decoded: int)
    requires
        is_silk_rate(fs_in),
        is_opus_rate(fs_out),
        runs_between(r, fs_in, fs_out),
        is_silk_length(decoded, fs_in),
    ensures
        r.accepts(output_samples(decoded, fs_in, fs_out), decoded, decoded),
        0 <= output_samples(decoded, fs_in, fs_out) <= 960,
{
    let o = r.fs_out_khz;
    let i = r.fs_in_khz;
    assert(decoded * fs_out / fs_in == decoded * o / i && fs_out / 100 <= decoded * fs_out / fs_in
        <= fs_out / 50) by (nonlinear_arith)
        requires
            fs_in == 1000 * i,
            fs_out == 1000 * o,
            i == 8 || i == 12 || i == 16,
            o == 8 || o == 12 || o == 16 || o == 24 || o == 48,
            decoded == 10 * i || decoded == 20 * i,
    ;
    assert((o == i ==> decoded * o / i == decoded) && (o == 2 * i ==> decoded * o / i == 2
        * decoded)) by (nonlinear_arith)
        requires
            i >= 8,
            decoded >= 0,
    ;
}

fn interleave(out: &mut [i16], base: usize, l: &[i16], r: &[i16])
    requires
        base <= old(out)@.len(),
        l@.len() == r@.len(),
        l@.len() <= 960,
    ensures
        final(out)@ == interleaved(old(out)@, base as int, l@, r@),
{
    let n: usize = out.len();
    let pairs: usize = (n - base) / 2;
    let fit: usize = if l.len() < pairs {
        l.len()
    } else {
        pairs
    };
    let mut i: usize = 0;
    while i < fit
        invariant
            n == out@.len(),
            out@.len() == old(out)@.len(),
            base <= n,
            fit <= l@.len(),
            fit <= (n - base) / 2,
            l@.len() == r@.len(),
            i <= fit,
            forall|j: int|
                0 <= j < n ==> #[trigger] out@[j] == if base <= j < base + 2 * i {
                    if (j - base) % 2 == 0 {
                        l@[(j - base) / 2]
                    } else {
                        r@[(j - base) / 2]
                    }
                } else {
                    old(out)@[j]
                },
        decreases fit - i,
    {
        out[base + 2 * i] = l[i];
        out[base + 2 * i + 1] = r[i];
        i += 1;
    }
    assert(out@ =~= interleaved(old(out)@, base as int, l@, r@));
}

/// A frame of the speech layer before it is put out: the mono channel behind the
/// sample it is delayed by, or a stereo channel, which has that delay already.
pub open spec fn speech_left(
    d: OpusDecoder,
    pcm: Seq<i16>,
    decoded: int,
    stereo: bool,
) -> Seq<i16> {
    if stereo {
        d.silk_dec.l_out@.take(decoded)
    } else {
        pcm.subrange(1, decoded + 1)
    }
}

/// The right channel, which a mono frame has too.
pub open spec fn speech_right(
    d: OpusDecoder,
    pcm: Seq<i16>,
    decoded: int,
    stereo: bool,
) -> Seq<i16> {
    if stereo {
        d.silk_dec.r_out@.take(decoded)
    } else {
        pcm.subrange(1, decoded + 1)
    }
}

fn bring_to_output(r: &mut SilkResampler, x: &[i16], n: usize) -> (y: Vec<i16>)
    requires
        old(r).inv(),
        x@.len() <= 320,
        old(r)@.accepts(n as int, x@.len() as int, x@.len() as int),
    ensures
        final(r).inv(),
        final(r)@ == old(r)@.next(x@),
        y@ == at_output_rate(old(r)@, x@, n as int),
        y@.len() == n,
{
    let mut y: Vec<i16> = vec![0i16; n];
    assert(y@ =~= Seq::new(n as nat, |i: int| 0i16));
    assert(x@.take(x@.len() as int) =~= x@);
    let len: i32 = x.len() as i32;
    r.process(y.as_mut_slice(), x, len);
    y
}

impl OpusDecoder {
    /// Take what the speech layer decoded: its number of samples, or a failure,
    /// and the samples behind the two that were kept. The last two are kept for
    /// the next frame.
    pub fn take_silk_frame(&mut self, pcm: &[i16], ret: i32, failure: &'static str) -> (r: Result<
        usize,
    >)
        requires
            old(self).inv(),
            ret + 2 <= pcm@.len(),
        ensures
            final(self).inv(),
            ret < 0 ==> r == Err::<usize, Error>(Error::Internal(failure)) && *final(self) == *old(
                self,
            ),
            ret >= 0 ==> {
                &&& r == Ok::<usize, Error>(ret as usize)
                &&& *final(self) == (OpusDecoder { silk_s_mid: final(self).silk_s_mid, ..*old(self) })
                &&& final(self).silk_s_mid@ == if ret >= 2 {
                    seq![pcm@[ret as int], pcm@[ret + 1]]
                } else {
                    old(self).silk_s_mid@
                }
            },
    {
        if ret < 0 {
            return Err(Error::Internal(failure));
        }
        let n: usize = pcm.len();
        let dec: usize = ret as usize;
        if dec >= 2 {
            assert(dec + 1 < n);
            self.silk_s_mid = [pcm[dec], pcm[dec + 1]];
            assert(self.silk_s_mid@ =~= seq![pcm@[ret as int], pcm@[ret + 1]]);
        }
        Ok(dec)
    }

    /// Put one frame of the speech layer into `output`, interleaved from `base`
    /// on and brought to the output rate. Gives the samples per channel.
    ///
    /// It always goes through the resamplers: between equal rates they still
    /// delay. A mono frame of a stereo stream goes through both, so that both
    /// go on smoothly at the next stereo packet.
    pub fn render_silk_frame(
        &mut self,
        output: &mut [i16],
        base: usize,
        pcm: &[i16],
        decoded_samples: usize,
        stereo: bool,
        internal_rate: i32,
    ) -> (n: usize)
        requires
            old(self).inv(),
            internal_rate == old(self).prev_internal_rate,
            is_silk_rate(internal_rate as int),
            is_silk_length(decoded_samples as int, internal_rate as int),
            stereo ==> old(self).channels == 2,
            !stereo ==> decoded_samples + 1 <= pcm@.len(),
            base <= old(output)@.len(),
        ensures
            final(self).inv(),
            n == output_samples(
                decoded_samples as int,
                internal_rate as int,
                old(self).sampling_rate as int,
            ),
            *final(self) == (OpusDecoder {
                silk_resampler: final(self).silk_resampler,
                silk_resampler_r: final(self).silk_resampler_r,
                ..*old(self)
            }),
            ({
                let x = speech_left(*old(self), pcm@, decoded_samples as int, stereo);
                let z = speech_right(*old(self), pcm@, decoded_samples as int, stereo);
                let l = at_output_rate(old(self).silk_resampler@, x, n as int);
                let r = at_output_rate(old(self).silk_resampler_r@, z, n as int);
                &&& final(self).silk_resampler@ == old(self).silk_resampler@.next(x)
                &&& if old(self).channels == 1 {
                    &&& final(output)@ == overlaid(old(output)@, base as int, l)
                    &&& final(self).silk_resampler_r == old(self).silk_resampler_r
                } else {
                    &&& final(output)@ == interleaved(old(output)@, base as int, l, r)
                    &&& final(self).silk_resampler_r@ == old(self).silk_resampler_r@.next(z)
                }
            }),
            final(output)@.len() == old(output)@.len(),
            forall|j: int| 0 <= j < base ==> #[trigger] final(output)@[j] == old(output)@[j],
            // One channel: sample `i` stands at `base + i`, the rest stays.
            old(self).channels == 1 ==> ({
                let m = old(self).silk_resampler@.written(
                    Seq::new(n as nat, |i: int| 0i16),
                    pcm@.subrange(1, decoded_samples + 1),
                );
                &&& forall|i: int|
                    0 <= i < n && base + i < final(output)@.len() ==> final(output)@[base + i]
                        == #[trigger] m[i]
                &&& forall|j: int|
                    base + n <= j < final(output)@.len() ==> #[trigger] final(output)@[j] == old(
                        output,
                    )@[j]
            }),
            // Two channels: the left one's sample `i` stands at `base + 2 * i`,
            // the right one's behind it, as far as whole pairs fit.
            old(self).channels == 2 ==> ({
                let l = old(self).silk_resampler@.written(
                    Seq::new(n as nat, |i: int| 0i16),
                    if stereo {
                        old(self).silk_dec.l_out@.subrange(0, decoded_samples as int)
                    } else {
                        pcm@.subrange(1, decoded_samples + 1)
                    },
                );
                let r = old(self).silk_resampler_r@.written(
                    Seq::new(n as nat, |i: int| 0i16),
                    if stereo {
                        old(self).silk_dec.r_out@.subrange(0, decoded_samples as int)
                    } else {
                        pcm@.subrange(1, decoded_samples + 1)
                    },
                );
                &&& forall|i: int|
                    0 <= i < n && base + 2 * i + 1 < final(output)@.len() ==> final(output)@[base
                        + 2 * i] == #[trigger] l[i]
                &&& forall|i: int|
                    0 <= i < n && base + 2 * i + 1 < final(output)@.len() ==> final(output)@[base
                        + 2 * i + 1] == #[trigger] r[i]
                &&& forall|j: int|
                    base + 2 * n <= j < final(output)@.len() ==> #[trigger] final(output)@[j]
                        == old(output)@[j]
                &&& (final(output)@.len() - base) % 2 == 1 ==> final(output)@.last() == old(
                    output,
                )@.last()
            }),
    {
        let ghost a = *self;
        proof {
            let i: int = internal_rate as int;
            let o: int = self.sampling_rate as int;
            let d: int = decoded_samples as int;
            lemma_accepts(self.silk_resampler@, i, o, d);
            lemma_accepts(self.silk_resampler_r@, i, o, d);
            assert(0 <= d * o <= 320 * 48_000) by (nonlinear_arith)
                requires
                    0 <= d <= 320,
                    0 <= o <= 48_000,
            ;
        }
        let n: usize = (decoded_samples as i32 * self.sampling_rate / internal_rate) as usize;
        let mut left: SilkResampler = self.silk_resampler;
        let mut right: SilkResampler = self.silk_resampler_r;
        let l_in: &[i16] = if stereo {
            vstd::slice::slice_subrange(
                vstd::array::array_as_slice(&self.silk_dec.l_out),
                0,
                decoded_samples,
            )
        } else {
            vstd::slice::slice_subrange(pcm, 1, decoded_samples + 1)
        };
        assert(l_in@ =~= speech_left(a, pcm@, decoded_samples as int, stereo));
        assert(stereo ==> l_in@ =~= a.silk_dec.l_out@.subrange(0, decoded_samples as int));
        let l: Vec<i16> = bring_to_output(&mut left, l_in, n);
        self.silk_resampler = left;
        if self.channels == 1 {
            overlay(output, base, &l);
        } else {
            let r_in: &[i16] = if stereo {
                vstd::slice::slice_subrange(
                    vstd::array::array_as_slice(&self.silk_dec.r_out),
                    0,
                    decoded_samples,
                )
            } else {
                vstd::slice::slice_subrange(pcm, 1, decoded_samples + 1)
            };
            assert(r_in@ =~= speech_right(a, pcm@, decoded_samples as int, stereo));
            assert(stereo ==> r_in@ =~= a.silk_dec.r_out@.subrange(0, decoded_samples as int));
            let r: Vec<i16> = bring_to_output(&mut right, r_in, n);
            self.silk_resampler_r = right;
            interleave(output, base, l.as_slice(), r.as_slice());
            proof {
                assert forall|i: int|
                    0 <= i < n && base + 2 * i + 1 < output@.len() implies output@[base + 2 * i]
                    == #[trigger] l@[i] by {
                    assert((base + 2 * i - base) / 2 == i && (base + 2 * i - base) % 2 == 0);
                }
                assert forall|i: int|
                    0 <= i < n && base + 2 * i + 1 < output@.len() implies output@[base + 2 * i
                    + 1] == #[trigger] r@[i] by {
                    assert((base + 2 * i + 1 - base) / 2 == i && (base + 2 * i + 1 - base) % 2
                        == 1);
                }
            }
        }
        n
    }
}

/// The frames of the speech layer in a frame of a packet have lengths there are,
/// and at the output rate they fill the frame exactly.
pub proof fn law_speech_fills_the_frame(toc: u8, rate: int)
    requires
        is_opus_rate(rate),
        config_mode(toc_config(toc)) != OpusMode::CeltOnly,
    ensures
        ({
            let ms = config_quarters(toc_config(toc)) * 5 / 2;
            let internal = internal_rate(
                config_mode(toc_config(toc)),
                config_bandwidth(toc_config(toc)),
            );
            let decoded = ms * internal / 1000 / silk_frames(ms);
            &&& is_silk_length(decoded, internal)
            &&& silk_frames(ms) * output_samples(decoded, internal, rate) == toc_samples(toc, rate)
        }),
{
    let ms = config_quarters(toc_config(toc)) * 5 / 2;
    let internal = internal_rate(config_mode(toc_config(toc)), config_bandwidth(toc_config(toc)));
    let decoded = ms * internal / 1000 / silk_frames(ms);
    assert(ms == 10 || ms == 20 || ms == 40 || ms == 60);
    assert(internal == 8_000 || internal == 12_000 || internal == 16_000);
    if ms == 10 {
        assert(decoded == internal / 100);
    } else {
        assert(decoded == internal / 50);
    }
}

// ---------------------------------------------------------------------------
// The redundant frame
// ---------------------------------------------------------------------------
/// A redundant frame of the transform layer behind a frame with a speech layer,
/// which smooths a mode switch.
#[derive(Debug, Clone, Copy, PartialEq, Eq, Structural)]
pub struct Redundancy {
    /// Whether there is one.
    pub present: bool,
    /// Whether it belongs to the transform layer before this frame, rather than
    /// to the one behind it.
    pub celt_to_silk: bool,
    /// Its bytes, at the end of the frame.
    pub bytes: usize,
    /// The bytes of the frame in front of it.
    pub main_len: usize,
}

/// The bits a decoder has used, rounded up.
pub open spec fn bits_used(c: CoderView) -> int {
    c.nbits_total - bit_length(c.rng)
}

/// No redundant frame in one of `len` bytes.
pub open spec fn no_redundancy(len: int) -> Redundancy {
    Redundancy { present: false, celt_to_silk: false, bytes: 0, main_len: len as usize }
}

/// The redundant frame of a speech frame of `len` bytes: what is left of it
/// where that is enough, behind the bit that says which way it goes.
pub open spec fn silk_redundancy(c: CoderView, len: int) -> (Redundancy, CoderView) {
    if bits_used(c) + 17 > 8 * len {
        (no_redundancy(len), c)
    } else {
        let d = after_bit(c, 1);
        let used = (bits_used(d) + 7) / 8;
        if used < 1 || len - used < 2 {
            (no_redundancy(len), d)
        } else {
            (
                Redundancy {
                    present: true,
                    celt_to_silk: bit_value(c, 1),
                    bytes: (len - used) as usize,
                    main_len: len as usize,
                },
                d,
            )
        }
    }
}

/// The redundant frame of a hybrid frame of `len` bytes: flagged, and its length
/// coded. The bytes it takes are not there for the transform layer.
pub open spec fn hybrid_redundancy(c: CoderView, len: int) -> (Redundancy, CoderView) {
    if bits_used(c) + 37 > 8 * len {
        (no_redundancy(len), c)
    } else {
        let flagged = after_bit(c, 12);
        if !bit_value(c, 12) {
            (no_redundancy(len), flagged)
        } else {
            let turned = after_bit(flagged, 1);
            let bytes = uint_value(turned, 256) + 2;
            let d = after_uint(turned, 256);
            if bytes > len || 8 * (len - bytes) < bits_used(d) {
                (no_redundancy(len), d)
            } else {
                (
                    Redundancy {
                        present: true,
                        celt_to_silk: bit_value(flagged, 1),
                        bytes: bytes as usize,
                        main_len: (len - bytes) as usize,
                    },
                    CoderView { storage: d.storage - bytes, ..d },
                )
            }
        }
    }
}

/// The redundant frame of a frame, and the coder behind reading of it. A speech
/// frame has one only at the full output rate.
pub open spec fn frame_redundancy(
    rate: int,
    mode: OpusMode,
    c: CoderView,
    len: int,
) -> (Redundancy, CoderView) {
    match mode {
        OpusMode::SilkOnly => if rate == 48_000 {
            silk_redundancy(c, len)
        } else {
            (no_redundancy(len), c)
        },
        OpusMode::Hybrid => hybrid_redundancy(c, len),
        OpusMode::CeltOnly => (no_redundancy(len), c),
    }
}

proof fn lemma_bit_keeps_count(c: CoderView, logp: nat)
    requires
        decoding(c),
        1 <= logp <= 12,
        c.nbits_total + 24 <= u32::MAX,
    ensures
        after_bit(c, logp).nbits_total <= c.nbits_total + 24,
        after_bit(c, logp).storage == c.storage,
{
    lemma2_to64();
    lemma_pow2_pos(logp);
    if logp < 12 {
        lemma_pow2_strictly_increases(logp, 12);
    }
    lemma_pow2_strictly_increases(0, logp);
    let p: int = pow2(logp) as int;
    let r: int = c.rng;
    assert(1 <= r / p < r) by (nonlinear_arith)
        requires
            2 <= p <= 4096,
            r > 0x80_0000,
    ;
    if bit_value(c, logp) {
        lemma_narrowed_bits(c, 0, r / p);
    } else {
        lemma_narrowed_bits(c, r / p, r);
    }
}

proof fn lemma_uint_keeps_count(c: CoderView)
    requires
        decoding(c),
        c.nbits_total + 24 <= u32::MAX,
    ensures
        after_uint(c, 256).nbits_total <= c.nbits_total + 24,
        after_uint(c, 256).storage == c.storage,
{
    lemma2_to64();
    lemma_bits_of_255();
    assert(uint_raw_bits(256) == 0);
    assert(pow2(uint_raw_bits(256) as nat) == pow2(0) == 1);
    assert(uint_top(256) == 256);
    assert(after_uint(c, 256) == after_uniform(c, 256));
    let ft: int = 256;
    let r = c.rng / ft;
    let s = uniform_symbol(c, ft);
    let lo = r * (ft - s - 1);
    assert(c.val / r >= 0) by (nonlinear_arith)
        requires
            c.val >= 0,
            r > 0,
    ;
    assert(0 <= s < ft);
    assert(0 <= lo && lo + r <= r * ft && lo < c.rng) by (nonlinear_arith)
        requires
            lo == r * (ft - s - 1),
            0 <= s < ft,
            r > 0,
            r * ft <= c.rng,
    ;
    lemma_narrowed_bits(
        c,
        lo,
        if s > 0 {
            lo + r
        } else {
            c.rng
        },
    );
}

impl OpusDecoder {
    /// Read whether a frame of `len` bytes carries a redundant one, with the
    /// coder behind its speech layer.
    pub fn read_redundancy(
        &self,
        mode: OpusMode,
        rc: &mut RangeCoder,
        len: usize,
    ) -> (r: Redundancy)
        requires
            decoding(old(rc)@),
            old(rc)@.storage == len,
            len <= 0x0800_0000,
            old(rc)@.nbits_total <= 0x7000_0000,
        ensures
            decoding(final(rc)@),
            (r, final(rc)@) == frame_redundancy(
                self.sampling_rate as int,
                mode,
                old(rc)@,
                len as int,
            ),
    {
        let none = Redundancy { present: false, celt_to_silk: false, bytes: 0, main_len: len };
        match mode {
            OpusMode::CeltOnly => none,
            OpusMode::SilkOnly => {
                if self.sampling_rate != 48_000 || rc.tell() + 17 > len as i32 * 8 {
                    return none;
                }
                proof {
                    lemma_bit_keeps_count(rc@, 1);
                }
                let celt_to_silk: bool = rc.decode_bit_logp(1);
                let t: i32 = rc.tell();
                if t < 1 {
                    return none;
                }
                let used: usize = ((t + 7) / 8) as usize;
                if used + 2 > len {
                    return none;
                }
                Redundancy { present: true, celt_to_silk, bytes: len - used, main_len: len }
            },
            OpusMode::Hybrid => {
                if rc.tell() + 37 > len as i32 * 8 {
                    return none;
                }
                proof {
                    lemma_bit_keeps_count(rc@, 12);
                }
                if !rc.decode_bit_logp(12) {
                    return none;
                }
                proof {
                    lemma_bit_keeps_count(rc@, 1);
                }
                let celt_to_silk: bool = rc.decode_bit_logp(1);
                proof {
                    lemma_uint_keeps_count(rc@);
                }
                let bytes: usize = rc.dec_uint(256) as usize + 2;
                if bytes > len {
                    return none;
                }
                let main_len: usize = len - bytes;
                if (main_len as i32) * 8 < rc.tell() {
                    return none;
                }
                rc.shrink(bytes as u32);
                Redundancy { present: true, celt_to_silk, bytes, main_len }
            },
        }
    }
}

// ---------------------------------------------------------------------------
// The transform layer's work
// ---------------------------------------------------------------------------
/// One thing the transform layer has to do.
#[derive(Debug, Clone, Copy, PartialEq, Eq, Structural)]
pub enum LayerStep {
    /// Conceal `samples` per channel in the mode before, up to `end_band`, and
    /// set them aside. [`OpusDecoder::enter_transition`] and
    /// [`OpusDecoder::leave_transition`] stand round it.
    ConcealTransition {
        /// Samples per channel.
        samples: usize,
        /// The band to conceal up to.
        end_band: usize,
    },
    /// Decode the redundant frame, the last `bytes` of this one, and set it
    /// aside.
    Redundant {
        /// Whether the layer starts over first.
        reset: bool,
        /// The bytes of the redundant frame.
        bytes: usize,
        /// Its channels.
        channels: usize,
        /// Samples per channel.
        samples: usize,
        /// The band to decode up to.
        end_band: usize,
    },
    /// Decode a frame of silence and add it: the layer fades out.
    FadeOut {
        /// Its channels.
        channels: usize,
        /// Samples per channel.
        samples: usize,
        /// The band to decode up to.
        end_band: usize,
    },
    /// Decode this frame, on top of the speech layer where there is one.
    Decode {
        /// Whether the layer starts over first.
        reset: bool,
        /// Its channels.
        channels: usize,
        /// The bits that are there for both layers.
        total_bits: usize,
        /// Samples per channel.
        samples: usize,
        /// The first band to decode.
        start_band: usize,
        /// The band to decode up to.
        end_band: usize,
    },
    /// Put the first half of the redundant frame over the head of this one, and
    /// fade from its second half into what follows.
    FadeFromRedundant {
        /// Samples per channel in each half.
        samples: usize,
    },
    /// Fade the tail of this frame into the second half of the redundant one.
    FadeIntoRedundant {
        /// Samples per channel in each half.
        samples: usize,
    },
    /// Put `head` samples of the concealed transition over the head of the
    /// packet, and fade over the next `fade`.
    BlendTransition {
        /// Samples per channel taken outright.
        head: usize,
        /// Samples per channel faded.
        fade: usize,
        /// The step between points of the window.
        window_step: usize,
    },
}

/// A step where it is due.
pub open spec fn due(b: bool, step: LayerStep) -> Seq<LayerStep> {
    if b {
        seq![step]
    } else {
        Seq::empty()
    }
}

/// The samples of 5 ms.
pub open spec fn five_ms(rate: int) -> int {
    rate / 200
}

/// The concealment that a transition takes: 5 ms, or all of a shorter frame.
pub open spec fn conceal_step(d: OpusDecoder, w: PacketWork) -> LayerStep {
    LayerStep::ConcealTransition {
        samples: if five_ms(d.sampling_rate as int) < w.sub_frame_size {
            five_ms(d.sampling_rate as int) as usize
        } else {
            w.sub_frame_size
        },
        end_band: w.prev_end_band,
    }
}

/// How a transition is put out: 2.5 ms outright and 2.5 ms faded, or, where the
/// frame is too short for both, the fade alone.
pub open spec fn blend_step(d: OpusDecoder, w: PacketWork) -> LayerStep {
    let rate = d.sampling_rate as int;
    LayerStep::BlendTransition {
        head: if w.sub_frame_size >= five_ms(rate) {
            (five_ms(rate) / 2) as usize
        } else {
            0
        },
        fade: (five_ms(rate) / 2) as usize,
        window_step: (48_000int / rate) as usize,
    }
}

/// How a redundant frame is decoded.
pub open spec fn redundant_step(
    d: OpusDecoder,
    w: PacketWork,
    red: Redundancy,
    reset: bool,
) -> LayerStep {
    LayerStep::Redundant {
        reset,
        bytes: red.bytes,
        channels: w.packet_channels,
        samples: five_ms(d.sampling_rate as int) as usize,
        end_band: spec_celt_endband(w.bandwidth),
    }
}

/// The mode of the frame in front of frame `frame` of a packet.
pub open spec fn mode_before(w: PacketWork, frame: int) -> Option<OpusMode> {
    if frame == 0 {
        w.prev_mode
    } else {
        Some(w.mode)
    }
}

/// What the transform layer has to do in a frame of a packet.
///
/// A redundant frame of the mode before is decoded in front of the frame's own
/// work, one of the mode to come behind it, on a layer that starts over. It takes
/// the place of a transition.
pub open spec fn steps_of(
    d: OpusDecoder,
    w: PacketWork,
    frame: int,
    red: Redundancy,
) -> Seq<LayerStep> {
    let half = (five_ms(d.sampling_rate as int) / 2) as usize;
    let full_rate = d.sampling_rate == 48_000;
    let first = w.transition && frame == 0;
    let bridged = red.present && full_rate;
    match w.mode {
        OpusMode::CeltOnly => {
            Seq::<LayerStep>::empty() + due(first, conceal_step(d, w)) + due(
                true,
                LayerStep::Decode {
                    reset: w.reset_celt && frame == 0,
                    channels: w.packet_channels,
                    total_bits: (8 * w.frames@[frame].1) as usize,
                    samples: w.sub_frame_size,
                    start_band: 0,
                    end_band: w.end_band,
                },
            ) + due(w.transition && frame + 1 == w.frames@.len(), blend_step(d, w))
        },
        OpusMode::SilkOnly => {
            Seq::<LayerStep>::empty() + due(first && !red.present, conceal_step(d, w)) + due(
                bridged && red.celt_to_silk,
                redundant_step(d, w, red, false),
            ) + due(
                full_rate && mode_before(w, frame) == Some(OpusMode::Hybrid) && !(red.present
                    && red.celt_to_silk && d.prev_redundancy),
                LayerStep::FadeOut {
                    channels: w.packet_channels,
                    samples: half,
                    end_band: spec_celt_endband(w.bandwidth),
                },
            ) + due(bridged && !red.celt_to_silk, redundant_step(d, w, red, true)) + due(
                bridged && red.celt_to_silk,
                LayerStep::FadeFromRedundant { samples: half },
            ) + due(
                bridged && !red.celt_to_silk,
                LayerStep::FadeIntoRedundant { samples: half },
            ) + due(first && !red.present, blend_step(d, w))
        },
        OpusMode::Hybrid => {
            Seq::<LayerStep>::empty() + due(first && !red.present, conceal_step(d, w)) + due(
                bridged && red.celt_to_silk,
                redundant_step(d, w, red, false),
            ) + due(
                true,
                LayerStep::Decode {
                    reset: w.reset_celt && frame == 0,
                    channels: w.packet_channels,
                    total_bits: (8 * red.main_len) as usize,
                    samples: w.sub_frame_size,
                    start_band: HYBRID_START_BAND,
                    end_band: w.end_band,
                },
            ) + due(bridged && !red.celt_to_silk, redundant_step(d, w, red, true)) + due(
                bridged && red.celt_to_silk,
                LayerStep::FadeFromRedundant { samples: half },
            ) + due(
                bridged && !red.celt_to_silk,
                LayerStep::FadeIntoRedundant { samples: half },
            ) + due(first && !red.present, blend_step(d, w))
        },
    }
}

/// Whether a step stays within a frame of `sub` samples per channel.
pub open spec fn step_fits(step: LayerStep, sub: int) -> bool {
    match step {
        LayerStep::ConcealTransition { samples, .. } => samples <= sub,
        LayerStep::Redundant { samples, .. } => 2 * samples <= sub,
        LayerStep::FadeOut { samples, .. } => samples <= sub,
        LayerStep::Decode { samples, .. } => samples == sub,
        LayerStep::FadeFromRedundant { samples } => 2 * samples <= sub,
        LayerStep::FadeIntoRedundant { samples } => samples <= sub,
        LayerStep::BlendTransition { head, fade, .. } => head + fade <= sub,
    }
}

spec fn all_fit(steps: Seq<LayerStep>, sub: int) -> bool {
    forall|i: int| 0 <= i < steps.len() ==> step_fits(#[trigger] steps[i], sub)
}

proof fn lemma_due_fits(steps: Seq<LayerStep>, b: bool, step: LayerStep, sub: int)
    requires
        all_fit(steps, sub),
        b ==> step_fits(step, sub),
    ensures
        all_fit(steps + due(b, step), sub),
{
    let more = steps + due(b, step);
    assert forall|i: int| 0 <= i < more.len() implies step_fits(#[trigger] more[i], sub) by {
        if i < steps.len() {
            assert(more[i] == steps[i]);
        }
    }
}

/// Whatever a packet asks of the transform layer stays within its frame: a
/// redundant frame always has at least twice its length to fade into, since only
/// frames of 10 ms or more carry one.
#[verifier::spinoff_prover]
#[verifier::rlimit(60)]
pub proof fn law_every_step_fits_its_frame(
    a: OpusDecoder,
    input: Seq<u8>,
    w: PacketWork,
    d: OpusDecoder,
    frame: int,
    red: Redundancy,
)
    requires
        is_opus_rate(a.sampling_rate as int),
        d.sampling_rate == a.sampling_rate,
        work_of(a, input, w),
    ensures
        w.mode != OpusMode::CeltOnly ==> 100 * w.sub_frame_size >= a.sampling_rate,
        forall|i: int|
            0 <= i < steps_of(d, w, frame, red).len() ==> step_fits(
                #[trigger] steps_of(d, w, frame, red)[i],
                w.sub_frame_size as int,
            ),
{
    let rate = a.sampling_rate as int;
    let sub = w.sub_frame_size as int;
    let quarters = config_quarters(toc_config(input[0]));
    assert(sub == rate * quarters / 400);
    assert(400 * sub == rate * quarters);
    let half = (five_ms(rate) / 2) as usize;
    let first = w.transition && frame == 0;
    let bridged = red.present && d.sampling_rate == 48_000;
    let last = w.transition && frame + 1 == w.frames@.len();
    let faded = d.sampling_rate == 48_000 && mode_before(w, frame) == Some(OpusMode::Hybrid) && !(
    red.present && red.celt_to_silk && d.prev_redundancy);
    let fade_out = LayerStep::FadeOut {
        channels: w.packet_channels,
        samples: half,
        end_band: spec_celt_endband(w.bandwidth),
    };
    let decode = LayerStep::Decode {
        reset: w.reset_celt && frame == 0,
        channels: w.packet_channels,
        total_bits: (8 * (if w.mode == OpusMode::CeltOnly {
            w.frames@[frame].1
        } else {
            red.main_len
        })) as usize,
        samples: w.sub_frame_size,
        start_band: if w.mode == OpusMode::CeltOnly {
            0
        } else {
            HYBRID_START_BAND
        },
        end_band: w.end_band,
    };
    let none = Seq::<LayerStep>::empty();
    if w.mode == OpusMode::CeltOnly {
        let s1 = none + due(first, conceal_step(d, w));
        lemma_due_fits(none, first, conceal_step(d, w), sub);
        lemma_due_fits(s1, true, decode, sub);
        lemma_due_fits(s1 + due(true, decode), last, blend_step(d, w), sub);
    } else {
        let quiet = first && !red.present;
        let s1 = none + due(quiet, conceal_step(d, w));
        lemma_due_fits(none, quiet, conceal_step(d, w), sub);
        let before = redundant_step(d, w, red, false);
        let s2 = s1 + due(bridged && red.celt_to_silk, before);
        lemma_due_fits(s1, bridged && red.celt_to_silk, before, sub);
        let s3 = if w.mode == OpusMode::SilkOnly {
            s2 + due(faded, fade_out)
        } else {
            s2 + due(true, decode)
        };
        lemma_due_fits(s2, faded, fade_out, sub);
        lemma_due_fits(s2, true, decode, sub);
        let behind = redundant_step(d, w, red, true);
        let s4 = s3 + due(bridged && !red.celt_to_silk, behind);
        lemma_due_fits(s3, bridged && !red.celt_to_silk, behind, sub);
        let from = LayerStep::FadeFromRedundant { samples: half };
        let s5 = s4 + due(bridged && red.celt_to_silk, from);
        lemma_due_fits(s4, bridged && red.celt_to_silk, from, sub);
        let into = LayerStep::FadeIntoRedundant { samples: half };
        let s6 = s5 + due(bridged && !red.celt_to_silk, into);
        lemma_due_fits(s5, bridged && !red.celt_to_silk, into, sub);
        lemma_due_fits(s6, quiet, blend_step(d, w), sub);
    }
    assert(all_fit(steps_of(d, w, frame, red), sub));
}

fn add_due(steps: &mut Vec<LayerStep>, b: bool, step: LayerStep)
    ensures
        final(steps)@ == old(steps)@ + due(b, step),
{
    if b {
        steps.push(step);
    }
    assert(steps@ =~= old(steps)@ + due(b, step));
}

impl OpusDecoder {
    /// What the transform layer has to do in frame `frame` of a packet, in
    /// order.
    pub fn layer_steps(&self, work: &PacketWork, frame: usize, red: &Redundancy) -> (steps: Vec<
        LayerStep,
    >)
        requires
            self.inv(),
            frame < work.frames@.len(),
            work.frames@[frame as int].1 <= 1275,
            red.main_len <= 1275,
        ensures
            steps@ == steps_of(*self, *work, frame as int, *red),
    {
        let mut steps: Vec<LayerStep> = Vec::new();
        let full_rate: bool = self.sampling_rate == 48_000;
        let five: usize = (self.sampling_rate / 200) as usize;
        let half: usize = five / 2;
        let first: bool = work.transition && frame == 0;
        let bridged: bool = red.present && full_rate;
        let band: usize = celt_endband_for_bandwidth(work.bandwidth);
        let conceal = LayerStep::ConcealTransition {
            samples: if five < work.sub_frame_size {
                five
            } else {
                work.sub_frame_size
            },
            end_band: work.prev_end_band,
        };
        let blend = LayerStep::BlendTransition {
            head: if work.sub_frame_size >= five {
                half
            } else {
                0
            },
            fade: half,
            window_step: (48_000 / self.sampling_rate) as usize,
        };
        let before = LayerStep::Redundant {
            reset: false,
            bytes: red.bytes,
            channels: work.packet_channels,
            samples: five,
            end_band: band,
        };
        let behind = LayerStep::Redundant {
            reset: true,
            bytes: red.bytes,
            channels: work.packet_channels,
            samples: five,
            end_band: band,
        };
        assert(conceal == conceal_step(*self, *work));
        assert(blend == blend_step(*self, *work));
        assert(before == redundant_step(*self, *work, *red, false));
        assert(behind == redundant_step(*self, *work, *red, true));
        let reset: bool = work.reset_celt && frame == 0;
        match work.mode {
            OpusMode::CeltOnly => {
                add_due(&mut steps, first, conceal);
                let decode = LayerStep::Decode {
                    reset,
                    channels: work.packet_channels,
                    total_bits: 8 * work.frames[frame].1,
                    samples: work.sub_frame_size,
                    start_band: 0,
                    end_band: work.end_band,
                };
                add_due(&mut steps, true, decode);
                add_due(&mut steps, work.transition && work.frames.len() - frame == 1, blend);
            },
            OpusMode::SilkOnly => {
                add_due(&mut steps, first && !red.present, conceal);
                add_due(&mut steps, bridged && red.celt_to_silk, before);
                let after_hybrid: bool = frame == 0 && work.prev_mode == Some(OpusMode::Hybrid);
                let fade = LayerStep::FadeOut {
                    channels: work.packet_channels,
                    samples: half,
                    end_band: band,
                };
                add_due(
                    &mut steps,
                    full_rate && after_hybrid && !(red.present && red.celt_to_silk
                        && self.prev_redundancy),
                    fade,
                );
                add_due(&mut steps, bridged && !red.celt_to_silk, behind);
                self.add_fades(&mut steps, bridged, red.celt_to_silk, half);
                add_due(&mut steps, first && !red.present, blend);
            },
            OpusMode::Hybrid => {
                add_due(&mut steps, first && !red.present, conceal);
                add_due(&mut steps, bridged && red.celt_to_silk, before);
                let decode = LayerStep::Decode {
                    reset,
                    channels: work.packet_channels,
                    total_bits: 8 * red.main_len,
                    samples: work.sub_frame_size,
                    start_band: HYBRID_START_BAND,
                    end_band: work.end_band,
                };
                add_due(&mut steps, true, decode);
                add_due(&mut steps, bridged && !red.celt_to_silk, behind);
                self.add_fades(&mut steps, bridged, red.celt_to_silk, half);
                add_due(&mut steps, first && !red.present, blend);
            },
        }
        steps
    }

    fn add_fades(&self, steps: &mut Vec<LayerStep>, bridged: bool, celt_to_silk: bool, half: usize)
        ensures
            final(steps)@ == old(steps)@ + due(
                bridged && celt_to_silk,
                LayerStep::FadeFromRedundant { samples: half },
            ) + due(bridged && !celt_to_silk, LayerStep::FadeIntoRedundant { samples: half }),
    {
        add_due(
            steps,
            bridged && celt_to_silk,
            LayerStep::FadeFromRedundant { samples: half },
        );
        add_due(
            steps,
            bridged && !celt_to_silk,
            LayerStep::FadeIntoRedundant { samples: half },
        );
    }

    /// End frame `frame` of a packet: what its coder and that of its redundant
    /// frame ended at, the latter nought where none was decoded.
    pub fn close_frame(
        &mut self,
        work: &PacketWork,
        frame: usize,
        red: &Redundancy,
        rng: u32,
        redundant_rng: u32,
    )
        requires
            old(self).inv(),
            frame < work.frames@.len(),
        ensures
            final(self).inv(),
            *final(self) == (OpusDecoder {
                last_range: if work.mode == OpusMode::CeltOnly {
                    rng
                } else {
                    rng ^ redundant_rng
                },
                prev_redundancy: if work.mode == OpusMode::CeltOnly {
                    old(self).prev_redundancy
                } else {
                    red.present && !red.celt_to_silk
                },
                prev_mode: if frame + 1 == work.frames@.len() {
                    Some(work.mode)
                } else {
                    old(self).prev_mode
                },
                ..*old(self)
            }),
    {
        match work.mode {
            OpusMode::CeltOnly => {
                self.last_range = rng;
            },
            _ => {
                self.prev_redundancy = red.present && !red.celt_to_silk;
                self.last_range = rng ^ redundant_rng;
            },
        }
        if work.frames.len() - frame == 1 {
            self.prev_mode = Some(work.mode);
        }
    }
}

// ---------------------------------------------------------------------------
// Concealment
// ---------------------------------------------------------------------------
/// How one stretch of a lost frame is concealed.
#[derive(Debug, Clone, Copy, PartialEq, Eq, Structural)]
pub enum Concealment {
    /// Nothing was decoded yet: silence.
    Silence,
    /// By the transform layer, from its first band up to `end_band`.
    Celt {
        /// The band to conceal up to.
        end_band: usize,
    },
    /// By the speech layer.
    Silk {
        /// The milliseconds it conceals, which may be more than are wanted.
        frame_ms: i32,
        /// The frames in that.
        n_silk: usize,
        /// The samples of each, at the rate of the speech layer.
        internal_sub: usize,
        /// Samples per channel in all, at the output rate.
        samples: usize,
        /// Whether it is put out as left and right.
        silk_lr: bool,
        /// In hybrid mode, the band up to which the transform layer conceals
        /// the high bands.
        high_bands: Option<usize>,
    },
}

/// The mode concealment goes on in: the last that produced audio, which is the
/// transform layer behind a redundant frame.
pub open spec fn concealing_mode(d: OpusDecoder) -> Option<OpusMode> {
    match d.prev_mode {
        None => None,
        Some(m) => Some(
            if d.prev_redundancy {
                OpusMode::CeltOnly
            } else {
                m
            },
        ),
    }
}

/// The milliseconds that the speech layer conceals for `frame_size` samples:
/// never less than ten.
pub open spec fn concealed_ms(frame_size: int, rate: int) -> int {
    let want = frame_size * 1000 / rate;
    if want < 10 {
        10
    } else {
        want
    }
}

/// How `frame_size` samples are concealed.
pub open spec fn concealment_of(d: OpusDecoder, frame_size: int) -> Concealment {
    match concealing_mode(d) {
        None => Concealment::Silence,
        Some(OpusMode::CeltOnly) => Concealment::Celt { end_band: d.celt_end_band },
        Some(mode) => {
            let ms = concealed_ms(frame_size, d.sampling_rate as int);
            Concealment::Silk {
                frame_ms: ms as i32,
                n_silk: silk_frames(ms) as usize,
                internal_sub: (ms * d.silk_internal_rate / 1000 / silk_frames(ms)) as usize,
                samples: (ms * d.sampling_rate / 1000) as usize,
                silk_lr: d.channels == 2 && d.silk_dec.n_channels_internal == 2,
                high_bands: if mode == OpusMode::Hybrid {
                    Some(d.celt_end_band)
                } else {
                    None
                },
            }
        },
    }
}

/// The stretches a lost frame is concealed in, from `done` on: 20 ms each, but
/// for the last. Position and length, in samples per channel.
pub open spec fn stretches(done: int, frame_size: int, longest: int) -> Seq<(int, int)>
    decreases frame_size - done,
{
    if longest <= 0 || done >= frame_size {
        Seq::empty()
    } else {
        let n = if longest < frame_size - done {
            longest
        } else {
            frame_size - done
        };
        seq![(done, n)] + stretches(done + n, frame_size, longest)
    }
}

/// The stretches of a whole lost frame. One without samples is still concealed
/// once: the layers go on by what they cannot do less of.
pub open spec fn lost_stretches(frame_size: int, longest: int) -> Seq<(int, int)> {
    if frame_size <= 0 {
        seq![(0int, 0int)]
    } else {
        stretches(0, frame_size, longest)
    }
}

/// The stretches of a lost frame follow one another without a gap, none of them
/// is longer than 20 ms, or empty but for that of an empty frame, and together
/// they are the frame.
pub proof fn law_stretches_cover_the_frame(frame_size: int, longest: int)
    requires
        0 < longest,
        0 <= frame_size,
    ensures
        ({
            let s = lost_stretches(frame_size, longest);
            &&& s.len() > 0
            &&& s[0].0 == 0
            &&& s.last().0 + s.last().1 == frame_size
            &&& forall|i: int|
                0 <= i < s.len() ==> 0 <= (#[trigger] s[i]).1 <= longest && (frame_size > 0
                    ==> s[i].1 > 0)
            &&& forall|i: int, j: int|
                0 <= i && j == i + 1 && j < s.len() ==> (#[trigger] s[j]).0 == (#[trigger] s[i]).0
                    + s[i].1
            &&& frame_size <= longest ==> s == seq![(0int, frame_size)]
        }),
{
    if frame_size > 0 {
        lemma_stretches_cover(0, frame_size, longest);
        if frame_size <= longest {
            assert(stretches(frame_size, frame_size, longest) =~= Seq::empty());
            assert(stretches(0, frame_size, longest) =~= seq![(0int, frame_size)]);
        }
    }
}

proof fn lemma_stretches_cover(done: int, frame_size: int, longest: int)
    requires
        0 < longest,
        0 <= done < frame_size,
    ensures
        ({
            let s = stretches(done, frame_size, longest);
            &&& s.len() > 0
            &&& s[0].0 == done
            &&& s.last().0 + s.last().1 == frame_size
            &&& forall|i: int| 0 <= i < s.len() ==> 0 < (#[trigger] s[i]).1 <= longest
            &&& forall|i: int, j: int|
                0 <= i && j == i + 1 && j < s.len() ==> (#[trigger] s[j]).0 == (#[trigger] s[i]).0
                    + s[i].1
        }),
    decreases frame_size - done,
{
    let s = stretches(done, frame_size, longest);
    let n = s[0].1;
    if done + n < frame_size {
        lemma_stretches_cover(done + n, frame_size, longest);
        let t = stretches(done + n, frame_size, longest);
        assert(s =~= seq![(done, n)] + t);
        assert(s.last() == t.last());
        assert forall|i: int, j: int| 0 <= i && j == i + 1 && j < s.len() implies (
        #[trigger] s[j]).0 == (#[trigger] s[i]).0 + s[i].1 by {
            assert(s[j] == t[j - 1]);
            if i > 0 {
                assert(s[i] == t[i - 1]);
            }
        }
        assert forall|i: int| 0 <= i < s.len() implies 0 < (#[trigger] s[i]).1 <= longest by {
            if i > 0 {
                assert(s[i] == t[i - 1]);
            }
        }
    } else {
        assert(stretches(done + n, frame_size, longest) =~= Seq::empty());
        assert(s =~= seq![(done, n)]);
    }
}

/// What a transition puts back.
#[derive(Debug, Clone, Copy)]
pub struct Kept {
    /// The mode of the last frame.
    pub prev_mode: Option<OpusMode>,
    /// Whether that ended on a redundant frame.
    pub prev_redundancy: bool,
    /// The band the transform layer is decoded up to.
    pub end_band: usize,
}

impl OpusDecoder {
    /// The stretches in which `frame_size` lost samples per channel are
    /// concealed: 20 ms is the longest frame of the transform layer. There is
    /// always one.
    pub fn conceal_stretches(&self, frame_size: usize) -> (r: Vec<(usize, usize)>)
        requires
            self.inv(),
        ensures
            r@.len() == lost_stretches(frame_size as int, self.sampling_rate as int / 50).len(),
            forall|i: int|
                0 <= i < r@.len() ==> (#[trigger] r@[i]).0 == lost_stretches(
                    frame_size as int,
                    self.sampling_rate as int / 50,
                )[i].0 && r@[i].1 == lost_stretches(
                    frame_size as int,
                    self.sampling_rate as int / 50,
                )[i].1,
    {
        let longest: usize = (self.sampling_rate / 50) as usize;
        let ghost whole = stretches(0, frame_size as int, longest as int);
        let mut r: Vec<(usize, usize)> = Vec::new();
        if frame_size == 0 {
            r.push((0, 0));
            return r;
        }
        let mut done: usize = 0;
        assert(whole.skip(0) =~= whole);
        while done < frame_size
            invariant
                0 < longest,
                done <= frame_size,
                r@.len() <= whole.len(),
                whole.skip(r@.len() as int) == stretches(
                    done as int,
                    frame_size as int,
                    longest as int,
                ),
                forall|i: int|
                    0 <= i < r@.len() ==> (#[trigger] r@[i]).0 == whole[i].0 && r@[i].1
                        == whole[i].1,
            decreases frame_size - done,
        {
            let n: usize = if longest < frame_size - done {
                longest
            } else {
                frame_size - done
            };
            proof {
                let rest = whole.skip(r@.len() as int);
                let k: int = r@.len() as int;
                let tail = stretches(done + n, frame_size as int, longest as int);
                assert(rest == seq![(done as int, n as int)] + tail);
                assert(rest.len() > 0);
                assert(rest[0] == whole[k]);
                assert(whole.skip(k + 1) =~= rest.skip(1));
                assert(rest.skip(1) =~= tail);
            }
            r.push((done, n));
            done = done + n;
        }
        assert(whole.skip(r@.len() as int).len() == 0);
        r
    }

    /// Begin to conceal `frame_size` samples per channel, 20 ms at most, in the
    /// mode that last produced audio.
    pub fn open_concealment(&mut self, frame_size: usize) -> (c: Concealment)
        requires
            old(self).inv(),
            frame_size <= old(self).sampling_rate / 50,
        ensures
            final(self).inv(),
            c == concealment_of(*old(self), frame_size as int),
            match c {
                Concealment::Silence => *final(self) == *old(self),
                Concealment::Celt { end_band } => *final(self) == (OpusDecoder {
                    prev_mode: Some(OpusMode::CeltOnly),
                    ..*old(self)
                }),
                Concealment::Silk { silk_lr, .. } => {
                    let lr = SilkDecoder { produce_lr: silk_lr, ..old(self).silk_dec };
                    rate_chosen(
                        (OpusDecoder { silk_dec: lr, ..*old(self) }),
                        old(self).silk_internal_rate as int,
                        *final(self),
                    )
                },
            },
    {
        let prev: OpusMode = match self.prev_mode {
            None => {
                return Concealment::Silence;
            },
            Some(m) => m,
        };
        if self.prev_redundancy || prev == OpusMode::CeltOnly {
            self.prev_mode = Some(OpusMode::CeltOnly);
            return Concealment::Celt { end_band: self.celt_end_band };
        }
        proof {
            let f: int = frame_size as int;
            let r: int = self.sampling_rate as int;
            assert(0 <= f * 1000 / r <= 20) by (nonlinear_arith)
                requires
                    r == 8_000 || r == 12_000 || r == 16_000 || r == 24_000 || r == 48_000,
                    0 <= f <= r / 50,
            ;
        }
        let want: i32 = frame_size as i32 * 1000 / self.sampling_rate;
        let frame_ms: i32 = if want < 10 {
            10
        } else {
            want
        };
        let silk_lr: bool = self.channels == 2 && self.silk_dec.n_channels_internal == 2;
        let rate: i32 = self.silk_internal_rate;
        self.silk_dec.produce_lr = silk_lr;
        self.choose_rate(rate);
        proof {
            let m: int = frame_ms as int;
            let i: int = rate as int;
            let o: int = self.sampling_rate as int;
            assert(0 <= m * i <= 20 * 16_000 && 0 <= m * o <= 20 * 48_000) by (nonlinear_arith)
                requires
                    0 <= m <= 20,
                    0 <= i <= 16_000,
                    0 <= o <= 48_000,
            ;
        }
        let n_silk: usize = silk_frames_of(frame_ms);
        Concealment::Silk {
            frame_ms,
            n_silk,
            internal_sub: (frame_ms * rate / 1000) as usize / n_silk,
            samples: (frame_ms * self.sampling_rate / 1000) as usize,
            silk_lr,
            high_bands: if prev == OpusMode::Hybrid {
                Some(self.celt_end_band)
            } else {
                None
            },
        }
    }

    /// Begin concealment for a transition. It is on the side, no frame of the
    /// stream: what is given is put back with [`OpusDecoder::leave_transition`].
    pub fn enter_transition(&mut self, end_band: usize) -> (kept: Kept)
        requires
            old(self).inv(),
        ensures
            final(self).inv(),
            kept.prev_mode == old(self).prev_mode,
            kept.prev_redundancy == old(self).prev_redundancy,
            kept.end_band == old(self).celt_end_band,
            *final(self) == (OpusDecoder { celt_end_band: end_band, ..*old(self) }),
    {
        let kept = Kept {
            prev_mode: self.prev_mode,
            prev_redundancy: self.prev_redundancy,
            end_band: self.celt_end_band,
        };
        self.celt_end_band = end_band;
        kept
    }

    /// Put back what concealment for a transition may have changed.
    pub fn leave_transition(&mut self, kept: &Kept)
        requires
            old(self).inv(),
        ensures
            final(self).inv(),
            *final(self) == (OpusDecoder {
                prev_mode: kept.prev_mode,
                prev_redundancy: kept.prev_redundancy,
                celt_end_band: kept.end_band,
                ..*old(self)
            }),
    {
        self.prev_mode = kept.prev_mode;
        self.prev_redundancy = kept.prev_redundancy;
        self.celt_end_band = kept.end_band;
    }
}

// ---------------------------------------------------------------------------
// Recovery from the packet behind a lost one
// ---------------------------------------------------------------------------
/// The recovery of a lost frame on its way.
#[derive(Debug, Clone, Copy)]
pub struct RecoveryWork {
    /// The layers of the packet.
    pub mode: OpusMode,
    /// Where its first frame lies: position and length.
    pub frame: (usize, usize),
    /// The duration of a frame in whole milliseconds.
    pub frame_ms: i32,
    /// Samples per channel that are recovered.
    pub samples: usize,
    /// The rate of the speech layer.
    pub internal_rate: i32,
    /// The frames of the speech layer in a frame.
    pub n_silk: usize,
    /// The samples of each of those, at that rate.
    pub internal_sub: usize,
    /// Whether the speech layer is put out as left and right.
    pub silk_lr: bool,
    /// In hybrid mode, the band up to which the transform layer conceals the high
    /// bands, which no copy covers.
    pub high_bands: Option<usize>,
}

/// The samples per channel that a packet has a copy of.
pub open spec fn recoverable(packet: Seq<u8>, rate: int) -> int {
    config_quarters(toc_config(packet[0])) * 5 / 2 * rate / 1000
}

/// Whether a lost frame of `frame_size` can be recovered from a packet: only the
/// speech layer is copied, into the packet behind, and only whole.
pub open spec fn can_recover(d: OpusDecoder, packet: Seq<u8>, frame_size: int) -> bool {
    &&& packet.len() > 0
    &&& config_mode(toc_config(packet[0])) != OpusMode::CeltOnly
    &&& d.prev_mode != Some(OpusMode::CeltOnly)
    &&& recoverable(packet, d.sampling_rate as int) <= frame_size
}

/// What a packet is found to hold for recovery.
pub open spec fn recovery_of(a: OpusDecoder, packet: Seq<u8>, w: RecoveryWork) -> bool {
    let toc = packet[0];
    let mode = config_mode(toc_config(toc));
    let ms = config_quarters(toc_config(toc)) * 5 / 2;
    let rate = internal_rate(mode, config_bandwidth(toc_config(toc)));
    let (sizes, start) = packet_sizes(packet, false)->0;
    &&& w.mode == mode
    &&& w.frame.0 == start
    &&& w.frame.1 == sizes[0]
    &&& w.frame_ms == ms
    &&& w.samples == recoverable(packet, a.sampling_rate as int)
    &&& w.internal_rate == rate
    &&& w.n_silk == silk_frames(ms)
    &&& w.internal_sub == ms * rate / 1000 / silk_frames(ms)
    &&& w.silk_lr == (a.channels == 2 && toc_stereo(toc))
    &&& w.high_bands == if mode == OpusMode::Hybrid {
        Some(a.celt_end_band)
    } else {
        None
    }
}

impl OpusDecoder {
    /// How a lost frame of `frame_size` samples per channel is made up from the
    /// packet behind it: the samples to conceal in front of what the packet has
    /// a copy of, or `None` where all of it is to be concealed.
    pub fn recovery_lead(&self, packet: &[u8], frame_size: usize, room: usize) -> (r: Result<
        Option<usize>,
    >)
        requires
            self.inv(),
            frame_size * self.channels <= usize::MAX,
        ensures
            r == if room < frame_size * self.channels {
                Err::<Option<usize>, Error>(
                    Error::BufferTooSmall {
                        needed: (frame_size * self.channels) as usize,
                        available: room,
                    },
                )
            } else if can_recover(*self, packet@, frame_size as int) {
                Ok(Some((frame_size - recoverable(packet@, self.sampling_rate as int)) as usize))
            } else {
                Ok(None)
            },
    {
        match self.check_room(frame_size, room) {
            Err(e) => {
                return Err(e);
            },
            Ok(_) => {},
        }
        if packet.len() == 0 {
            return Ok(None);
        }
        let toc: u8 = packet[0];
        if mode_from_toc(toc) == OpusMode::CeltOnly || self.prev_mode == Some(OpusMode::CeltOnly) {
            return Ok(None);
        }
        let samples: usize = self.copied_samples(toc);
        if frame_size < samples {
            return Ok(None);
        }
        Ok(Some(frame_size - samples))
    }

    fn copied_samples(&self, toc: u8) -> (n: usize)
        requires
            self.inv(),
        ensures
            n == config_quarters(toc_config(toc)) * 5 / 2 * self.sampling_rate / 1000,
    {
        let ms: i32 = frame_duration_ms_from_toc(toc);
        proof {
            let m: int = ms as int;
            let o: int = self.sampling_rate as int;
            assert(0 <= m * o <= 60 * 48_000) by (nonlinear_arith)
                requires
                    0 <= m <= 60,
                    0 <= o <= 48_000,
            ;
        }
        (ms * self.sampling_rate / 1000) as usize
    }

    /// Begin to recover a lost frame from the packet behind it, the samples in
    /// front of the copy concealed. The speech layer goes on from what it has,
    /// also where the transform layer concealed those.
    pub fn open_recovery(&mut self, packet: &[u8]) -> (r: Result<RecoveryWork>)
        requires
            old(self).inv(),
            packet@.len() > 0,
            config_mode(toc_config(packet@[0])) != OpusMode::CeltOnly,
        ensures
            final(self).inv(),
            match r {
                Err(e) => {
                    &&& e == Error::InvalidPacket("invalid packet")
                    &&& packet_sizes(packet@, false) is None
                    &&& *final(self) == *old(self)
                },
                Ok(w) => {
                    &&& packet_sizes(packet@, false) is Some
                    &&& recovery_of(*old(self), packet@, w)
                    &&& silk_ready(
                        *old(self),
                        false,
                        w.internal_rate as int,
                        if toc_stereo(packet@[0]) {
                            2
                        } else {
                            1
                        },
                        *final(self),
                    )
                },
            },
    {
        let toc: u8 = packet[0];
        let mode = mode_from_toc(toc);
        let frame: (usize, usize) = match parse_packet(packet, false) {
            Err(e) => {
                return Err(e);
            },
            Ok((_, frames, _)) => {
                proof {
                    law_frames_lie_inside_the_packet(packet@, false);
                    let sizes = (packet_sizes(packet@, false)->0).0;
                    assert(sizes.take(0) =~= Seq::<int>::empty());
                    assert(frames@[0].1 == sizes[0]);
                }
                frames[0]
            },
        };
        let frame_ms: i32 = frame_duration_ms_from_toc(toc);
        let samples: usize = self.copied_samples(toc);
        let packet_channels: usize = channels_from_toc(toc);
        let rate: i32 = internal_rate_of(mode, bandwidth_from_toc(toc));
        let high_bands: Option<usize> = if mode == OpusMode::Hybrid {
            Some(self.celt_end_band)
        } else {
            None
        };
        self.choose_rate(rate);
        let silk_lr: bool = self.setup_silk_channels(packet_channels);
        let n_silk: usize = silk_frames_of(frame_ms);
        Ok(
            RecoveryWork {
                mode,
                frame,
                frame_ms,
                samples,
                internal_rate: rate,
                n_silk,
                internal_sub: (frame_ms * rate / 1000) as usize / n_silk,
                silk_lr,
                high_bands,
            },
        )
    }

    /// End the recovery of a frame.
    pub fn close_recovery(&mut self, work: &RecoveryWork)
        requires
            old(self).inv(),
        ensures
            final(self).inv(),
            *final(self) == (OpusDecoder {
                prev_mode: Some(work.mode),
                prev_redundancy: false,
                ..*old(self)
            }),
    {
        self.prev_mode = Some(work.mode);
        self.prev_redundancy = false;
    }
}

} // verus!
