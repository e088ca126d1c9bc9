//! The speech decoder: packets of one or two channels.
//!
//! Decoding a frame alternates with reading its pulses and computing its
//! parameters. [`SilkDecoder::decode`] takes one step at a time: it does all that
//! can be done, says what it needs next, and is called again with that.

use vstd::arithmetic::power2::lemma2_to64;
use vstd::prelude::*;

use crate::range_coder::{
    after_bit, after_icdf, bit_value, decoding, icdf_symbol, CoderView, RangeCoder,
};
use crate::silk::decode_core::{control_is_valid, control_valid, lag_fits};
use crate::silk::decode_frame::{
    channel_result, frame_is_coded, frame_part, frame_ready, is_coded, lemma_frame_length,
    silk_decode_frame, FrameInput,
};
use crate::silk::decode_indices::{
    after_fine, after_joint, codebook_is_valid, codebook_valid, first_level, indices_result, received_side,
    second_level, silk_decode_indices,
    silk_stereo_decode_mid_only, silk_stereo_decode_pred, silk_stereo_ms_to_lr, with_history,
};
use crate::silk::decoder_structs::{SilkDecoderState, SilkPlcState};
use crate::silk::init_decoder::{
    configured, frame_state_cleared, history_cleared, is_internal_rate, noise_cleared,
    same_frame_state,
    same_history, silk_decoder_set_fs, silk_init_decoder,
};
use crate::silk::macros::{rshift_round, sat16, silk_rshift};
use crate::silk::stereo::level_q13;
use crate::silk::structs::{zeros16, zeros32, NLSFCodebook};
use crate::silk::tables::{
    lemma_lbrr_flags_2_icdf, lemma_lbrr_flags_3_icdf, SILK_LBRR_FLAGS_2_ICDF,
    SILK_LBRR_FLAGS_3_ICDF, SILK_STEREO_ONLY_CODE_MID_ICDF,
};

verus! {

/// A decoder of one or two channels.
pub struct SilkDecoder {
    /// The channels: mid or mono, and side.
    pub channel_state: [SilkDecoderState; 2],
    /// The channels that are asked for.
    pub n_channels_api: i32,
    /// The channels that are coded.
    pub n_channels_internal: i32,
    /// Whether the last frame had no side channel.
    pub prev_decode_only_middle: i32,
    /// The stereo weights of the last frame, Q13.
    pub s_stereo_pred_prev_q13: [i32; 2],
    /// The last two samples of the mid channel.
    pub s_stereo_mid: [i16; 2],
    /// The last two samples of the side channel.
    pub s_stereo_side: [i16; 2],
    /// Whether stereo frames are brought to left and right.
    pub produce_lr: bool,
    /// The left channel of the last frame.
    pub l_out: [i16; 320],
    /// The right channel of the last frame.
    pub r_out: [i16; 320],
}

/// Whether concealment can go on from a state at the rate it belongs to.
pub open spec fn plc_lasting(p: SilkPlcState) -> bool {
    &&& 0 <= p.conc_energy
    &&& 0 <= p.conc_energy_shift <= 17
    &&& is_internal_rate(p.fs_khz as int) ==> {
        let lag = rshift_round(p.pitch_l_q8 as int, 8);
        &&& 0 <= p.nb_subfr <= 4
        &&& 0 <= p.subfr_length <= 80
        &&& p.prev_gain_q16@[1] > 0
        &&& 0 <= p.pitch_l_q8 <= 0x1_ffff
        &&& 2 <= lag
        &&& lag + (if p.fs_khz == 16 {
            16int
        } else {
            10
        }) + 2 < 20 * p.fs_khz
    }
}

/// What holds of a channel between packets.
pub open spec fn channel_inv(d: SilkDecoderState) -> bool {
    &&& plc_lasting(d.s_plc)
    &&& 0 <= d.loss_cnt
    &&& d.prev_gain_q16 > i32::MIN
    &&& 0 <= d.nb_subfr <= 4
    &&& 0 <= d.lpc_order <= 16
    &&& is_internal_rate(d.fs_khz as int) ==> configured(d) || d.loss_cnt == 0
    &&& d.loss_cnt > 0 && d.prev_signal_type == 2 && configured(d) ==> lag_fits(
        d,
        d.lag_prev as int,
    )
}

/// What holds of a decoder between packets.
pub open spec fn decoder_inv(s: SilkDecoder) -> bool {
    &&& channel_inv(s.channel_state@[0])
    &&& channel_inv(s.channel_state@[1])
    &&& forall|j: int|
        0 <= j < 2 ==> -27464 <= #[trigger] s.s_stereo_pred_prev_q13@[j] <= 27464
}

/// A decoder that lasts is ready where its sizes are those of its rate.
proof fn lemma_ready(d: SilkDecoderState)
    requires
        channel_inv(d),
        configured(d),
        d.nb_subfr == 2 || d.nb_subfr == 4,
    ensures
        frame_ready(d),
{
}

impl Default for SilkDecoder {
    fn default() -> (s: Self)
        ensures
            s.is_new(),
            decoder_inv(s),
    {
        SilkDecoder::new()
    }
}

impl SilkDecoder {
    /// Whether this is the state before the rates are chosen.
    pub open spec fn is_new(&self) -> bool {
        &&& forall|n: int|
            0 <= n < 2 ==> {
                let d = #[trigger] self.channel_state@[n];
                &&& frame_state_cleared(d)
                &&& noise_cleared(d)
                &&& d.s_plc.is_reset()
                &&& d.fs_khz == 0
                &&& d.lpc_order == 0
                &&& d.n_frames_decoded == 0
                &&& d.n_frames_per_packet == 0
            }
        &&& self.n_channels_api == 1
        &&& self.n_channels_internal == 1
        &&& self.prev_decode_only_middle == 0
        &&& zeros32(self.s_stereo_pred_prev_q13@)
        &&& zeros16(self.s_stereo_mid@)
        &&& zeros16(self.s_stereo_side@)
        &&& !self.produce_lr
        &&& zeros16(self.l_out@)
        &&& zeros16(self.r_out@)
    }

    /// A decoder whose rates are not chosen.
    pub fn new() -> (s: Self)
        ensures
            s.is_new(),
            decoder_inv(s),
    {
        let mut mid: SilkDecoderState = SilkDecoderState::default();
        let mut side: SilkDecoderState = SilkDecoderState::default();
        silk_init_decoder(&mut mid);
        silk_init_decoder(&mut side);
        SilkDecoder {
            channel_state: [mid, side],
            n_channels_api: 1,
            n_channels_internal: 1,
            prev_decode_only_middle: 0,
            s_stereo_pred_prev_q13: [0; 2],
            s_stereo_mid: [0; 2],
            s_stereo_side: [0; 2],
            produce_lr: false,
            l_out: [0; 320],
            r_out: [0; 320],
        }
    }
}

/// What choosing a rate does to a channel.
pub open spec fn rate_chosen(
    d: SilkDecoderState,
    fs_khz: int,
    fs_api_hz: int,
    next: SilkDecoderState,
) -> bool {
    &&& configured(next)
    &&& next.fs_khz == fs_khz
    &&& next.fs_api_hz == fs_api_hz
    &&& same_frame_state(d, next)
    &&& if d.fs_khz != fs_khz {
        history_cleared(next)
    } else {
        same_history(d, next)
    }
}

proof fn lemma_rate_chosen(d: SilkDecoderState, fs_khz: int, fs_api_hz: int, next: SilkDecoderState)
    requires
        channel_inv(d),
        is_internal_rate(fs_khz),
        rate_chosen(d, fs_khz, fs_api_hz, next),
    ensures
        channel_inv(next),
{
}

impl SilkDecoder {
    /// Choose the rate, in Hz, and the number of channels. Returns -1, with
    /// nothing changed, for a rate that does not exist.
    pub fn init(&mut self, sample_rate_hz: i32, channels: i32) -> (r: i32)
        requires
            decoder_inv(*old(self)),
        ensures
            decoder_inv(*final(self)),
            !is_internal_rate(sample_rate_hz as int / 1000) || sample_rate_hz < 0 ==> r == -1
                && *final(self) == *old(self),
            is_internal_rate(sample_rate_hz as int / 1000) && sample_rate_hz >= 0 ==> {
                let fs = sample_rate_hz as int / 1000;
                let d = final(self).channel_state@[0];
                &&& r == 0
                &&& rate_chosen(
                    old(self).channel_state@[0],
                    fs,
                    sample_rate_hz as int,
                    (SilkDecoderState {
                        n_frames_per_packet: old(self).channel_state@[0].n_frames_per_packet,
                        ..d
                    }),
                )
                &&& d.n_frames_per_packet == 1
                &&& if channels == 2 {
                    rate_chosen(
                        old(self).channel_state@[1],
                        fs,
                        sample_rate_hz as int,
                        final(self).channel_state@[1],
                    )
                } else {
                    final(self).channel_state@[1] == old(self).channel_state@[1]
                }
                &&& *final(self) == (SilkDecoder {
                    channel_state: final(self).channel_state,
                    n_channels_api: channels,
                    n_channels_internal: channels,
                    ..*old(self)
                })
            },
    {
        let fs_khz: i32 = sample_rate_hz / 1000;
        if sample_rate_hz < 0 {
            return -1;
        }
        let mut mid: SilkDecoderState = self.channel_state[0];
        let mut side: SilkDecoderState = self.channel_state[1];
        let ghost m = mid;
        let ghost s = side;
        let r: i32 = silk_decoder_set_fs(&mut mid, fs_khz, sample_rate_hz);
        if r < 0 {
            return r;
        }
        proof {
            lemma_rate_chosen(m, fs_khz as int, sample_rate_hz as int, mid);
        }
        if channels == 2 {
            silk_decoder_set_fs(&mut side, fs_khz, sample_rate_hz);
            proof {
                lemma_rate_chosen(s, fs_khz as int, sample_rate_hz as int, side);
            }
        }
        let ghost chosen = mid;
        mid.n_frames_per_packet = 1;
        assert(chosen == (SilkDecoderState { n_frames_per_packet: m.n_frames_per_packet, ..mid }));
        self.channel_state = [mid, side];
        self.n_channels_api = channels;
        self.n_channels_internal = channels;
        r
    }
}

// ---------------------------------------------------------------------------
// The beginning of a packet
// ---------------------------------------------------------------------------
/// The frames of a packet of `ms` milliseconds, and their subframes.
pub open spec fn packet_layout(ms: int) -> Option<(int, int)> {
    if ms == 0 || ms == 10 {
        Some((1, 2))
    } else if ms == 20 {
        Some((1, 4))
    } else if ms == 40 {
        Some((2, 4))
    } else if ms == 60 {
        Some((3, 4))
    } else {
        None
    }
}

fn layout_of(ms: i32) -> (r: Option<(i32, i32)>)
    ensures
        match packet_layout(ms as int) {
            None => r is None,
            Some(l) => r is Some && (r->0).0 == l.0 && (r->0).1 == l.1,
        },
{
    if ms == 0 || ms == 10 {
        Some((1, 2))
    } else if ms == 20 {
        Some((1, 4))
    } else if ms == 40 {
        Some((2, 4))
    } else if ms == 60 {
        Some((3, 4))
    } else {
        None
    }
}

/// A channel that expects `frames` frames of `nb` subframes.
pub open spec fn expecting(d: SilkDecoderState, frames: int, nb: int) -> SilkDecoderState {
    SilkDecoderState { n_frames_per_packet: frames as i32, nb_subfr: nb as i32, ..d }
}

/// A channel with no frame decoded.
pub open spec fn rewound(d: SilkDecoderState) -> SilkDecoderState {
    SilkDecoderState { n_frames_decoded: 0, ..d }
}

/// A channel in front of a packet, which may be a new one.
pub open spec fn at_packet(d: SilkDecoderState, new_packet: bool) -> SilkDecoderState {
    if new_packet {
        rewound(d)
    } else {
        d
    }
}

/// The rate, in kHz, of a rate in Hz.
pub open spec fn khz_of(rate_hz: int) -> int {
    rate_hz / 1024 + 1
}

/// What the beginning of a packet does: -1 for a rate or a duration that does not
/// exist, else every channel that is coded made ready.
pub open spec fn begin_result(
    s: SilkDecoder,
    new_packet: bool,
    ms: int,
    rate_hz: int,
    next: SilkDecoder,
    r: int,
) -> bool {
    let mid = at_packet(s.channel_state@[0], new_packet);
    let side = at_packet(s.channel_state@[1], new_packet);
    let fs = khz_of(rate_hz);
    &&& next == (SilkDecoder { channel_state: next.channel_state, ..s })
    &&& if mid.n_frames_decoded != 0 {
        r == 0 && next.channel_state@[0] == mid && next.channel_state@[1] == side
    } else if !is_internal_rate(fs) || packet_layout(ms) is None {
        r == -1 && next.channel_state@[0] == mid && next.channel_state@[1] == side
    } else {
        let (frames, nb) = packet_layout(ms)->0;
        let api = s.channel_state@[0].fs_api_hz as int;
        &&& r == 0
        &&& rate_chosen(expecting(mid, frames, nb), fs, api, next.channel_state@[0])
        &&& if s.n_channels_internal == 2 {
            rate_chosen(expecting(side, frames, nb), fs, api, next.channel_state@[1])
        } else {
            next.channel_state@[1] == side
        }
    }
}

fn set_up_channel(d: &mut SilkDecoderState, frames: i32, nb: i32, fs_khz: i32, fs_api_hz: i32)
    requires
        channel_inv(*old(d)),
        is_internal_rate(fs_khz as int),
        nb == 2 || nb == 4,
    ensures
        rate_chosen(
            expecting(*old(d), frames as int, nb as int),
            fs_khz as int,
            fs_api_hz as int,
            *final(d),
        ),
        channel_inv(*final(d)),
        frame_ready(*final(d)),
{
    let ghost before = *d;
    d.n_frames_per_packet = frames;
    d.nb_subfr = nb;
    let ghost changed = *d;
    silk_decoder_set_fs(d, fs_khz, fs_api_hz);
    proof {
        assert(changed == expecting(before, frames as int, nb as int));
        lemma_ready(*d);
    }
}

impl SilkDecoder {
    /// Whether the channels that are coded can take a frame.
    pub open spec fn ready(&self) -> bool {
        &&& decoder_inv(*self)
        &&& self.n_channels_internal == 1 || self.n_channels_internal == 2
        &&& frame_ready(self.channel_state@[0])
        &&& self.n_channels_internal == 2 ==> frame_ready(self.channel_state@[1])
        &&& 0 <= self.channel_state@[0].n_frames_decoded < 3
        &&& self.n_channels_internal == 2 ==> 0 <= self.channel_state@[1].n_frames_decoded < 3
        &&& 1 <= self.channel_state@[0].n_frames_per_packet <= 3
        &&& self.n_channels_internal == 2 ==> {
            &&& self.channel_state@[1].frame_length == self.channel_state@[0].frame_length
            &&& self.channel_state@[1].fs_khz == self.channel_state@[0].fs_khz
        }
    }

    fn begin_packet(
        &mut self,
        new_packet: bool,
        payload_size_ms: i32,
        internal_sample_rate: i32,
    ) -> (r: i32)
        requires
            decoder_inv(*old(self)),
            old(self).n_channels_internal == 1 || old(self).n_channels_internal == 2,
            !new_packet ==> old(self).channel_state@[0].n_frames_decoded == 0 || old(self).ready(),
            old(self).channel_state@[1].n_frames_decoded == old(
                self,
            ).channel_state@[0].n_frames_decoded || old(self).n_channels_internal == 1
                || new_packet,
        ensures
            decoder_inv(*final(self)),
            begin_result(
                *old(self),
                new_packet,
                payload_size_ms as int,
                internal_sample_rate as int,
                *final(self),
                r as int,
            ),
            r == 0 ==> final(self).ready(),
            r == 0 || r == -1,
    {
        let mut mid: SilkDecoderState = self.channel_state[0];
        let mut side: SilkDecoderState = self.channel_state[1];
        if new_packet {
            mid.n_frames_decoded = 0;
            side.n_frames_decoded = 0;
        }
        assert(mid == at_packet(self.channel_state@[0], new_packet));
        assert(side == at_packet(self.channel_state@[1], new_packet));
        if mid.n_frames_decoded != 0 {
            self.channel_state = [mid, side];
            assert(self.channel_state@ =~= old(self).channel_state@);
            return 0;
        }
        proof {
            lemma2_to64();
        }
        let fs_khz: i32 = silk_rshift(internal_sample_rate, 10) + 1;
        match layout_of(payload_size_ms) {
            Some((frames, nb)) => {
                if fs_khz != 8 && fs_khz != 12 && fs_khz != 16 {
                    self.channel_state = [mid, side];
                    return -1;
                }
                let api: i32 = mid.fs_api_hz;
                set_up_channel(&mut mid, frames, nb, fs_khz, api);
                if self.n_channels_internal == 2 {
                    set_up_channel(&mut side, frames, nb, fs_khz, api);
                }
                self.channel_state = [mid, side];
                0
            },
            None => {
                self.channel_state = [mid, side];
                -1
            },
        }
    }
}

// ---------------------------------------------------------------------------
// Flags
// ---------------------------------------------------------------------------
/// The coder behind `n` even bits.
pub open spec fn after_bits(c: CoderView, n: int) -> CoderView
    decreases n,
{
    if n <= 0 {
        c
    } else {
        after_bit(after_bits(c, n - 1), 1)
    }
}

/// Bit `i` of a run of even bits.
pub open spec fn bit_at(c: CoderView, i: int) -> bool {
    bit_value(after_bits(c, i), 1)
}

/// Whether `next` has the activity flags of `frames` frames, and the flag that
/// frames are repeated, from `c`.
pub open spec fn activity_read(
    d: SilkDecoderState,
    c: CoderView,
    frames: int,
    next: SilkDecoderState,
) -> bool {
    &&& forall|i: int|
        0 <= i < 3 ==> #[trigger] next.vad_flags@[i] == if i < frames {
            if bit_at(c, i) {
                1
            } else {
                0
            }
        } else {
            d.vad_flags@[i]
        }
    &&& next.lbrr_flag == if bit_at(c, frames) {
        1int
    } else {
        0
    }
    &&& next == (SilkDecoderState {
        vad_flags: next.vad_flags,
        lbrr_flag: next.lbrr_flag,
        ..d
    })
}

/// The table that says which of two or three frames are repeated.
pub open spec fn repeat_table(frames: int) -> Seq<u8> {
    if frames == 3 {
        SILK_LBRR_FLAGS_3_ICDF@
    } else {
        SILK_LBRR_FLAGS_2_ICDF@
    }
}

/// Which frames are repeated, as the bits of a number.
pub open spec fn repeat_bits(d: SilkDecoderState, c: CoderView, frames: int) -> int {
    if d.lbrr_flag == 0 {
        0
    } else if frames == 1 {
        1
    } else {
        icdf_symbol(c, repeat_table(frames)) + 1
    }
}

/// The coder behind that number.
pub open spec fn after_repeats(d: SilkDecoderState, c: CoderView, frames: int) -> CoderView {
    if d.lbrr_flag == 0 || frames == 1 {
        c
    } else {
        after_icdf(c, repeat_table(frames))
    }
}

/// Bit `i` of a number of three bits.
pub open spec fn third_bit(x: int, i: int) -> int {
    if i == 0 {
        x % 2
    } else if i == 1 {
        x / 2 % 2
    } else {
        x / 4 % 2
    }
}

/// Whether `next` knows which frames are repeated.
pub open spec fn repeats_read(
    d: SilkDecoderState,
    c: CoderView,
    frames: int,
    next: SilkDecoderState,
) -> bool {
    &&& forall|i: int|
        0 <= i < 3 ==> #[trigger] next.lbrr_flags@[i] == if i < frames {
            third_bit(repeat_bits(d, c, frames), i)
        } else {
            0
        }
    &&& next == (SilkDecoderState { lbrr_flags: next.lbrr_flags, ..d })
}

fn read_activity(d: &mut SilkDecoderState, rc: &mut RangeCoder, frames: usize)
    requires
        decoding(old(rc)@),
        frames <= 3,
    ensures
        decoding(final(rc)@),
        activity_read(*old(d), old(rc)@, frames as int, *final(d)),
        final(rc)@ == after_bits(old(rc)@, frames + 1),
{
    let ghost c = rc@;
    let mut flags: [i32; 3] = d.vad_flags;
    let mut i: usize = 0;
    while i < frames
        invariant
            i <= frames <= 3,
            decoding(rc@),
            rc@ == after_bits(c, i as int),
            forall|j: int|
                0 <= j < 3 ==> #[trigger] flags@[j] == if j < i {
                    if bit_at(c, j) {
                        1
                    } else {
                        0
                    }
                } else {
                    d.vad_flags@[j]
                },
        decreases frames - i,
    {
        flags[i] = if rc.decode_bit_logp(1) {
            1
        } else {
            0
        };
        i += 1;
    }
    d.vad_flags = flags;
    d.lbrr_flag = if rc.decode_bit_logp(1) {
        1
    } else {
        0
    };
}

fn read_repeats(d: &mut SilkDecoderState, rc: &mut RangeCoder, frames: usize)
    requires
        decoding(old(rc)@),
        1 <= frames <= 3,
    ensures
        decoding(final(rc)@),
        repeats_read(*old(d), old(rc)@, frames as int, *final(d)),
        final(rc)@ == after_repeats(*old(d), old(rc)@, frames as int),
{
    proof {
        lemma_lbrr_flags_2_icdf();
        lemma_lbrr_flags_3_icdf();
    }
    let bits: i32 = if d.lbrr_flag == 0 {
        0
    } else if frames == 1 {
        1
    } else if frames == 3 {
        rc.decode_icdf(&SILK_LBRR_FLAGS_3_ICDF, 8) + 1
    } else {
        rc.decode_icdf(&SILK_LBRR_FLAGS_2_ICDF, 8) + 1
    };
    d.lbrr_flags = [
        bits % 2,
        if frames > 1 {
            bits / 2 % 2
        } else {
            0
        },
        if frames > 2 {
            bits / 4 % 2
        } else {
            0
        },
    ];
}

/// What the flags of a packet do: for every channel its activity flags, then for
/// every channel which frames it repeats.
pub open spec fn flags_result(
    s: SilkDecoder,
    c: CoderView,
    next: SilkDecoder,
    end: CoderView,
) -> bool {
    let frames = s.channel_state@[0].n_frames_per_packet as int;
    let two = s.n_channels_internal == 2;
    let c1 = after_bits(c, frames + 1);
    let c2 = if two {
        after_bits(c1, frames + 1)
    } else {
        c1
    };
    &&& next == (SilkDecoder { channel_state: next.channel_state, ..s })
    &&& exists|m: SilkDecoderState, d: SilkDecoderState|
        {
            &&& #[trigger] activity_read(s.channel_state@[0], c, frames, m)
            &&& if two {
                #[trigger] activity_read(s.channel_state@[1], c1, frames, d)
            } else {
                d == s.channel_state@[1]
            }
            &&& repeats_read(m, c2, frames, next.channel_state@[0])
            &&& if two {
                &&& repeats_read(
                    d,
                    after_repeats(m, c2, frames),
                    frames,
                    next.channel_state@[1],
                )
                &&& end == after_repeats(d, after_repeats(m, c2, frames), frames)
            } else {
                &&& next.channel_state@[1] == d
                &&& end == after_repeats(m, c2, frames)
            }
        }
}

impl SilkDecoder {
    fn read_flags(&mut self, rc: &mut RangeCoder)
        requires
            old(self).ready(),
            decoding(old(rc)@),
        ensures
            final(self).ready(),
            decoding(final(rc)@),
            flags_result(*old(self), old(rc)@, *final(self), final(rc)@),
    {
        let frames: usize = self.channel_state[0].n_frames_per_packet as usize;
        let two = self.n_channels_internal == 2;
        let ghost s = *self;
        let ghost c = rc@;
        let mut mid: SilkDecoderState = self.channel_state[0];
        let mut side: SilkDecoderState = self.channel_state[1];
        read_activity(&mut mid, rc, frames);
        if two {
            read_activity(&mut side, rc, frames);
        }
        let ghost m = mid;
        let ghost d = side;
        assert(activity_read(s.channel_state@[0], c, frames as int, m));
        read_repeats(&mut mid, rc, frames);
        if two {
            read_repeats(&mut side, rc, frames);
        }
        self.channel_state = [mid, side];
        proof {
            let c1 = after_bits(c, frames + 1);
            if two {
                assert(activity_read(s.channel_state@[1], c1, frames as int, d));
            } else {
                assert(d == s.channel_state@[1]);
                let unused = activity_read(s.channel_state@[1], c1, frames as int, d);
            }
        }
    }
}

// ---------------------------------------------------------------------------
// Repeated frames, which are read over
// ---------------------------------------------------------------------------
/// The codebooks of line spectral frequencies.
pub struct Codebooks {
    /// For 8 and 12 kHz.
    pub nb_mb: NLSFCodebook,
    /// For 16 kHz.
    pub wb: NLSFCodebook,
}

/// Whether both codebooks can be read from.
pub open spec fn codebooks_valid(b: Codebooks) -> bool {
    codebook_valid(b.nb_mb) && codebook_valid(b.wb)
}

/// See [`codebooks_valid`].
pub fn codebooks_are_valid(b: &Codebooks) -> (r: bool)
    ensures
        r == codebooks_valid(*b),
{
    codebook_is_valid(&b.nb_mb) && codebook_is_valid(&b.wb)
}

/// The codebook of a rate.
pub open spec fn book_for(b: Codebooks, fs_khz: int) -> NLSFCodebook {
    if fs_khz == 16 {
        b.wb
    } else {
        b.nb_mb
    }
}

fn pick_book<'a>(b: &'a Codebooks, fs_khz: i32) -> (r: &'a NLSFCodebook)
    ensures
        *r == book_for(*b, fs_khz as int),
{
    if fs_khz == 16 {
        &b.wb
    } else {
        &b.nb_mb
    }
}

impl SilkDecoder {
    /// The channels that are coded.
    pub open spec fn channels(&self) -> int {
        self.n_channels_internal as int
    }

    /// Whether place `t`, frame by frame and channel by channel, is repeated.
    pub open spec fn repeats(&self, t: int) -> bool {
        self.channel_state@[t % self.channels()].lbrr_flags@[t / self.channels()] != 0
    }

    /// The first repeated place from `t` on; the end where there is none.
    pub open spec fn next_repeat(&self, t: int) -> int
        decreases self.channel_state@[0].n_frames_per_packet * self.channels() - t,
    {
        let end = self.channel_state@[0].n_frames_per_packet * self.channels();
        if t >= end {
            end
        } else if self.repeats(t) {
            t
        } else {
            self.next_repeat(t + 1)
        }
    }

    fn find_repeat(&self, from: usize) -> (t: usize)
        requires
            self.ready(),
            from <= self.channel_state@[0].n_frames_per_packet * self.channels(),
        ensures
            t == self.next_repeat(from as int),
            t <= self.channel_state@[0].n_frames_per_packet * self.channels(),
            t < self.channel_state@[0].n_frames_per_packet * self.channels() ==> self.repeats(
                t as int,
            ),
    {
        let channels: usize = self.n_channels_internal as usize;
        let frames: usize = self.channel_state[0].n_frames_per_packet as usize;
        proof {
            let f: int = frames as int;
            let c: int = channels as int;
            assert(0 <= f * c <= 6) by (nonlinear_arith)
                requires
                    0 <= f <= 3,
                    0 <= c <= 2,
            ;
        }
        let end: usize = frames * channels;
        let mut t: usize = from;
        let mut found = false;
        while !found && t < end
            invariant
                self.ready(),
                channels == self.channels(),
                1 <= channels <= 2,
                frames == self.channel_state@[0].n_frames_per_packet,
                1 <= frames <= 3,
                end == frames * channels,
                t <= end <= 6,
                self.next_repeat(t as int) == self.next_repeat(from as int),
                found ==> t < end && self.repeats(t as int),
            decreases end - t + (if found {
                0int
            } else {
                1
            }),
        {
            proof {
                let f: int = frames as int;
                let c: int = channels as int;
                let ti: int = t as int;
                assert(0 <= ti / c < f && 0 <= ti % c < c) by (nonlinear_arith)
                    requires
                        0 <= ti < f * c,
                        c >= 1,
                ;
            }
            let n: usize = t % channels;
            let i: usize = t / channels;
            if self.channel_state[n].lbrr_flags[i] != 0 {
                found = true;
            } else {
                t += 1;
            }
        }
        t
    }
}

/// The coder behind the stereo weights of a frame, and behind the flag that the
/// side channel is dropped where that flag is there.
pub open spec fn after_stereo(c: CoderView, side_silent: bool) -> CoderView {
    let c1 = after_fine(after_fine(after_joint(c)));
    if side_silent {
        after_icdf(c1, SILK_STEREO_ONLY_CODE_MID_ICDF@)
    } else {
        c1
    }
}

/// The coder in front of the indices of repeated place `t`.
pub open spec fn before_repeat(s: SilkDecoder, c: CoderView, t: int) -> CoderView {
    if s.channels() == 2 && t % 2 == 0 {
        after_stereo(c, s.channel_state@[1].lbrr_flags@[t / 2] == 0)
    } else {
        c
    }
}

/// What reading over the side information of repeated place `t` does.
pub open spec fn repeat_result(
    s: SilkDecoder,
    books: Codebooks,
    c: CoderView,
    t: int,
    next: SilkDecoder,
    end: CoderView,
) -> bool {
    let n = t % s.channels();
    let i = t / s.channels();
    let d = s.channel_state@[n];
    let cond = if i > 0 && d.lbrr_flags@[i - 1] != 0 {
        2int
    } else {
        0
    };
    &&& next == (SilkDecoder { channel_state: next.channel_state, ..s })
    &&& next.channel_state@[1 - n] == s.channel_state@[1 - n]
    &&& indices_result(
        d,
        book_for(books, d.fs_khz as int),
        before_repeat(s, c, t),
        true,
        cond,
        next.channel_state@[n],
        end,
    )
}

proof fn lemma_indices_keep(d: SilkDecoderState, next: SilkDecoderState)
    requires
        channel_inv(d),
        frame_ready(d),
        next == (SilkDecoderState {
            indices: next.indices,
            ec_prev_signal_type: next.ec_prev_signal_type,
            ec_prev_lag_index: next.ec_prev_lag_index,
            ..d
        }),
    ensures
        channel_inv(next),
        frame_ready(next),
{
}

impl SilkDecoder {
    fn skip_repeat(&mut self, rc: &mut RangeCoder, books: &Codebooks, t: usize)
        requires
            old(self).ready(),
            decoding(old(rc)@),
            codebooks_valid(*books),
            t < old(self).channel_state@[0].n_frames_per_packet * old(self).channels(),
        ensures
            final(self).ready(),
            decoding(final(rc)@),
            repeat_result(*old(self), *books, old(rc)@, t as int, *final(self), final(rc)@),
            final(self).channels() == old(self).channels(),
            final(self).channel_state@[0].n_frames_per_packet == old(
                self,
            ).channel_state@[0].n_frames_per_packet,
    {
        let channels: usize = self.n_channels_internal as usize;
        proof {
            let f: int = self.channel_state@[0].n_frames_per_packet as int;
            let c: int = channels as int;
            let ti: int = t as int;
            assert(0 <= ti / c < f && 0 <= ti % c < c) by (nonlinear_arith)
                requires
                    0 <= ti < f * c,
                    c >= 1,
            ;
        }
        let n: usize = t % channels;
        let i: usize = t / channels;
        if channels == 2 && n == 0 {
            silk_stereo_decode_pred(rc);
            if self.channel_state[1].lbrr_flags[i] == 0 {
                silk_stereo_decode_mid_only(rc);
            }
        }
        assert(rc@ == before_repeat(*self, old(rc)@, t as int));
        let mut d: SilkDecoderState = self.channel_state[n];
        let cond: i32 = if i > 0 && d.lbrr_flags[i - 1] != 0 {
            2
        } else {
            0
        };
        let ghost before = d;
        let book: &NLSFCodebook = pick_book(books, d.fs_khz);
        silk_decode_indices(&mut d, book, rc, i as i32, 1, cond);
        proof {
            lemma_indices_keep(before, d);
        }
        if n == 0 {
            self.channel_state = [d, self.channel_state[1]];
        } else {
            self.channel_state = [self.channel_state[0], d];
        }
    }
}

// ---------------------------------------------------------------------------
// Planning a frame
// ---------------------------------------------------------------------------
/// What is known of a frame before its channels are decoded.
#[derive(Clone, Copy, Debug)]
pub struct FramePlan {
    /// The stereo weights, Q13.
    pub pred_q13: [i32; 2],
    /// Whether the side channel is not coded.
    pub only_middle: bool,
    /// Whether there is a side channel to decode or to conceal.
    pub has_side: bool,
    /// How the mid channel is coded.
    pub cond_mid: i32,
    /// How the side channel is coded.
    pub cond_side: i32,
}

/// Whether the side channel of the frame has nothing of its own.
pub open spec fn side_is_silent(s: SilkDecoder, lost_flag: int) -> bool {
    let i = s.channel_state@[0].n_frames_decoded as int;
    if lost_flag == 0 {
        s.channel_state@[1].vad_flags@[i] == 0
    } else {
        s.channel_state@[1].lbrr_flags@[i] == 0
    }
}

/// Whether the stereo weights of the frame are there to be read.
pub open spec fn reads_stereo(s: SilkDecoder, lost_flag: int) -> bool {
    s.channels() == 2 && is_coded(s.channel_state@[0], lost_flag)
}

/// Whether the frame says that its side channel is dropped.
pub open spec fn says_mid_only(s: SilkDecoder, c: CoderView, lost_flag: int) -> bool {
    reads_stereo(s, lost_flag) && side_is_silent(s, lost_flag) && icdf_symbol(
        after_stereo(c, false),
        SILK_STEREO_ONLY_CODE_MID_ICDF@,
    ) != 0
}

/// The coder in front of the mid channel.
pub open spec fn before_mid(s: SilkDecoder, c: CoderView, lost_flag: int) -> CoderView {
    if reads_stereo(s, lost_flag) {
        after_stereo(c, side_is_silent(s, lost_flag))
    } else {
        c
    }
}

/// How a frame behind the first is coded: a repeated one relative to the one
/// before it where that is repeated too.
pub open spec fn coding_behind(
    d: SilkDecoderState,
    i: int,
    lost_flag: int,
    else_coding: int,
) -> int {
    if i == 0 {
        0
    } else if lost_flag == 2 {
        if d.lbrr_flags@[i - 1] == 1 {
            2
        } else {
            0
        }
    } else {
        else_coding
    }
}

/// Whether the side channel starts over: it is coded again behind frames without
/// it.
pub open spec fn side_restarts(s: SilkDecoder, plan: FramePlan) -> bool {
    s.channels() == 2 && !plan.only_middle && s.prev_decode_only_middle == 1
}

/// What planning a frame does: the weights of a frame that is there are read,
/// those of one that is not are the last; the side channel of a frame that is not
/// there goes on as it was.
pub open spec fn plan_result(
    s: SilkDecoder,
    c: CoderView,
    lost_flag: int,
    plan: FramePlan,
    next: SilkDecoder,
    end: CoderView,
) -> bool {
    let i = s.channel_state@[0].n_frames_decoded as int;
    let side = s.channel_state@[1];
    &&& end == before_mid(s, c, lost_flag)
    &&& plan.only_middle == says_mid_only(s, c, lost_flag)
    &&& if reads_stereo(s, lost_flag) {
        &&& plan.pred_q13@[1] == level_q13(second_level(c))
        &&& plan.pred_q13@[0] == level_q13(first_level(c)) - plan.pred_q13@[1]
    } else if s.channels() == 2 {
        plan.pred_q13 == s.s_stereo_pred_prev_q13
    } else {
        zeros32(plan.pred_q13@)
    }
    &&& plan.has_side == if lost_flag == 0 {
        !plan.only_middle
    } else {
        s.prev_decode_only_middle == 0 || (lost_flag == 2
            && side.lbrr_flags@[side.n_frames_decoded as int] == 1)
    }
    &&& plan.cond_mid == coding_behind(s.channel_state@[0], i, lost_flag, 2)
    &&& plan.cond_side == coding_behind(
        side,
        i,
        lost_flag,
        if s.prev_decode_only_middle == 1 {
            1
        } else {
            2
        },
    )
    &&& next == (SilkDecoder { channel_state: next.channel_state, ..s })
    &&& next.channel_state@[0] == s.channel_state@[0]
    &&& if side_restarts(s, plan) {
        let d = next.channel_state@[1];
        &&& history_cleared(d)
        &&& d == (SilkDecoderState {
            first_frame_after_reset: d.first_frame_after_reset,
            lag_prev: d.lag_prev,
            last_gain_index: d.last_gain_index,
            prev_signal_type: d.prev_signal_type,
            out_buf: d.out_buf,
            s_lpc_q14_buf: d.s_lpc_q14_buf,
            ..side
        })
    } else {
        next.channel_state@[1] == side
    }
}

fn coding_of(d: &SilkDecoderState, i: usize, lost_flag: i32, else_coding: i32) -> (c: i32)
    requires
        i < 3,
    ensures
        c == coding_behind(*d, i as int, lost_flag as int, else_coding as int),
{
    if i == 0 {
        0
    } else if lost_flag == 2 {
        if d.lbrr_flags[i - 1] == 1 {
            2
        } else {
            0
        }
    } else {
        else_coding
    }
}

impl SilkDecoder {
    fn plan_frame(&mut self, rc: &mut RangeCoder, lost_flag: i32) -> (plan: FramePlan)
        requires
            old(self).ready(),
            decoding(old(rc)@),
            0 <= old(self).channel_state@[1].n_frames_decoded < 3,
        ensures
            final(self).ready(),
            decoding(final(rc)@),
            plan_result(
                *old(self),
                old(rc)@,
                lost_flag as int,
                plan,
                *final(self),
                final(rc)@,
            ),
            final(self).channels() == old(self).channels(),
            forall|j: int| 0 <= j < 2 ==> -27464 <= #[trigger] plan.pred_q13@[j] <= 27464,
    {
        let i: usize = self.channel_state[0].n_frames_decoded as usize;
        let two = self.n_channels_internal == 2;
        let mut pred_q13: [i32; 2] = [0; 2];
        let mut only_middle = false;
        if two {
            if frame_is_coded(&self.channel_state[0], lost_flag) {
                pred_q13 = silk_stereo_decode_pred(rc);
                let silent = if lost_flag == 0 {
                    self.channel_state[1].vad_flags[i] == 0
                } else {
                    self.channel_state[1].lbrr_flags[i] == 0
                };
                if silent {
                    only_middle = silk_stereo_decode_mid_only(rc);
                }
            } else {
                pred_q13 = self.s_stereo_pred_prev_q13;
            }
        }
        assert forall|j: int| 0 <= j < 2 implies -27464 <= #[trigger] pred_q13@[j] <= 27464 by {
            if two && !is_coded(self.channel_state@[0], lost_flag as int) {
                assert(-27464 <= self.s_stereo_pred_prev_q13@[j] <= 27464);
            }
        }
        let ghost side = self.channel_state@[1];
        if two && !only_middle && self.prev_decode_only_middle == 1 {
            let mut d: SilkDecoderState = self.channel_state[1];
            d.out_buf = [0; 480];
            d.s_lpc_q14_buf = [0; 16];
            d.lag_prev = 100;
            d.last_gain_index = 10;
            d.prev_signal_type = 0;
            d.first_frame_after_reset = 1;
            self.channel_state = [self.channel_state[0], d];
        }
        let at: usize = self.channel_state[1].n_frames_decoded as usize;
        let has_side = if lost_flag == 0 {
            !only_middle
        } else {
            self.prev_decode_only_middle == 0 || (lost_flag == 2
                && self.channel_state[1].lbrr_flags[at] == 1)
        };
        let cond_mid: i32 = coding_of(&self.channel_state[0], i, lost_flag, 2);
        let cond_side: i32 = coding_of(
            &self.channel_state[1],
            i,
            lost_flag,
            if self.prev_decode_only_middle == 1 {
                1
            } else {
                2
            },
        );
        FramePlan { pred_q13, only_middle, has_side, cond_mid, cond_side }
    }
}

// ---------------------------------------------------------------------------
// A channel's frame
// ---------------------------------------------------------------------------
/// What reading the indices of a frame does, where it is there.
pub open spec fn indices_step(
    d: SilkDecoderState,
    books: Codebooks,
    c: CoderView,
    lost_flag: int,
    cond_coding: int,
    next: SilkDecoderState,
    end: CoderView,
) -> bool {
    if is_coded(d, lost_flag) {
        indices_result(
            d,
            book_for(books, d.fs_khz as int),
            c,
            lost_flag != 0 || d.vad_flags@[d.n_frames_decoded as int] != 0,
            cond_coding,
            next,
            end,
        )
    } else {
        next == d && end == c
    }
}

/// Whether a channel waits for its pulses and parameters.
pub open spec fn pending(d: SilkDecoderState, lost_flag: int) -> bool {
    is_coded(d, lost_flag) ==> {
        &&& 0 <= d.indices.signal_type <= 2
        &&& 0 <= d.indices.quant_offset_type <= 1
    }
}

/// Whether what a channel waits for can be decoded with.
pub open spec fn input_valid(d: SilkDecoderState, lost_flag: int, input: FrameInput) -> bool {
    &&& is_coded(d, lost_flag) ==> control_valid(d, input.ctrl)
    &&& !is_coded(d, lost_flag) ==> d.loss_cnt < i32::MAX
}

/// See [`input_valid`].
pub fn input_is_valid(d: &SilkDecoderState, lost_flag: i32, input: &FrameInput) -> (b: bool)
    requires
        0 <= d.n_frames_decoded < 3,
        d.nb_subfr <= 4,
    ensures
        b == input_valid(*d, lost_flag as int, *input),
{
    if frame_is_coded(d, lost_flag) {
        control_is_valid(d, &input.ctrl)
    } else {
        d.loss_cnt < i32::MAX
    }
}

fn read_channel(
    d: &mut SilkDecoderState,
    rc: &mut RangeCoder,
    books: &Codebooks,
    lost_flag: i32,
    cond_coding: i32,
)
    requires
        channel_inv(*old(d)),
        frame_ready(*old(d)),
        decoding(old(rc)@),
        codebooks_valid(*books),
        0 <= old(d).n_frames_decoded < 3,
    ensures
        decoding(final(rc)@),
        indices_step(
            *old(d),
            *books,
            old(rc)@,
            lost_flag as int,
            cond_coding as int,
            *final(d),
            final(rc)@,
        ),
        pending(*final(d), lost_flag as int),
        channel_inv(*final(d)),
        frame_ready(*final(d)),
        *final(d) == (SilkDecoderState {
            indices: final(d).indices,
            ec_prev_signal_type: final(d).ec_prev_signal_type,
            ec_prev_lag_index: final(d).ec_prev_lag_index,
            ..*old(d)
        }),
{
    if frame_is_coded(d, lost_flag) {
        let book: &NLSFCodebook = pick_book(books, d.fs_khz);
        let i: i32 = d.n_frames_decoded;
        let ghost before = *d;
        silk_decode_indices(d, book, rc, i, lost_flag, cond_coding);
        proof {
            lemma_indices_keep(before, *d);
        }
    }
}

fn decode_channel(
    d: &mut SilkDecoderState,
    lost_flag: i32,
    input: &FrameInput,
    out: &mut [i16],
) -> (n: i32)
    requires
        channel_inv(*old(d)),
        frame_ready(*old(d)),
        pending(*old(d), lost_flag as int),
        input_valid(*old(d), lost_flag as int, *input),
        0 <= old(d).n_frames_decoded < 3,
        old(d).frame_length <= old(out)@.len(),
    ensures
        channel_result(
            *old(d),
            lost_flag as int,
            *input,
            old(out)@,
            *final(d),
            final(out)@,
        ),
        final(out)@.len() == old(out)@.len(),
        channel_inv(*final(d)),
        frame_ready(*final(d)),
        *final(d) == frame_part(*old(d), *final(d)),
        n == old(d).frame_length,
        80 <= n <= 320,
{
    let ghost before = *d;
    proof {
        lemma_frame_length(before);
    }
    let mut n: i32 = 0;
    silk_decode_frame(d, input, out, &mut n, lost_flag);
    n
}

// ---------------------------------------------------------------------------
// The end of a frame
// ---------------------------------------------------------------------------
/// A frame behind the last two samples of the one before it.
pub open spec fn stereo_buffer(past: Seq<i16>, x: Seq<i16>, n: int) -> Seq<i16> {
    Seq::new(
        322,
        |i: int|
            if i < 2 {
                past[i]
            } else if i < n + 2 {
                x[i - 2]
            } else {
                0
            },
    )
}

/// What the end of a frame does to the stereo state: left and right made, or the
/// tail of a mid channel kept for the next stereo frame.
pub open spec fn stereo_end(
    s: SilkDecoder,
    output: Seq<i16>,
    side: Seq<i16>,
    n: int,
    plan: FramePlan,
    next: SilkDecoder,
) -> bool {
    if s.produce_lr && s.channels() == 2 {
        let m = stereo_buffer(s.s_stereo_mid@, output, n);
        let d = stereo_buffer(s.s_stereo_side@, side, n);
        let prev = s.s_stereo_pred_prev_q13@;
        let pred = plan.pred_q13@;
        let fs = s.channel_state@[0].fs_khz as int;
        &&& next.s_stereo_pred_prev_q13 == plan.pred_q13
        &&& next.s_stereo_mid@ == seq![m[n], m[n + 1]]
        &&& next.s_stereo_side@ == seq![d[n], d[n + 1]]
        &&& forall|i: int|
            0 <= i < 320 ==> #[trigger] next.l_out@[i] == if i < n {
                sat16(m[i + 1] + received_side(m, d, prev, pred, fs, i))
            } else {
                s.l_out@[i] as int
            }
        &&& forall|i: int|
            0 <= i < 320 ==> #[trigger] next.r_out@[i] == if i < n {
                sat16(m[i + 1] - received_side(m, d, prev, pred, fs, i))
            } else {
                s.r_out@[i] as int
            }
    } else {
        &&& next.s_stereo_pred_prev_q13 == s.s_stereo_pred_prev_q13
        &&& next.s_stereo_mid@ == seq![output[n - 2], output[n - 1]]
        &&& next.s_stereo_side == s.s_stereo_side
        &&& next.l_out == s.l_out
        &&& next.r_out == s.r_out
    }
}

/// A channel behind a frame: a lost one resets the gain that the next frame's is
/// relative to.
pub open spec fn channel_end(d: SilkDecoderState, counted: bool, lost: bool) -> SilkDecoderState {
    SilkDecoderState {
        n_frames_decoded: if counted {
            (d.n_frames_decoded + 1) as i32
        } else {
            d.n_frames_decoded
        },
        last_gain_index: if lost {
            10
        } else {
            d.last_gain_index
        },
        ..d
    }
}

/// What the end of a frame does.
pub open spec fn finish_result(
    s: SilkDecoder,
    output: Seq<i16>,
    side: Seq<i16>,
    n: int,
    lost_flag: int,
    plan: FramePlan,
    next: SilkDecoder,
) -> bool {
    let two = s.channels() == 2;
    &&& stereo_end(s, output, side, n, plan, next)
    &&& next.channel_state@[0] == channel_end(s.channel_state@[0], false, lost_flag == 1)
    &&& next.channel_state@[1] == channel_end(s.channel_state@[1], two, lost_flag == 1 && two)
    &&& next.prev_decode_only_middle == if lost_flag == 1 {
        s.prev_decode_only_middle as int
    } else if plan.only_middle {
        1
    } else {
        0
    }
    &&& next.n_channels_api == s.n_channels_api
    &&& next.n_channels_internal == s.n_channels_internal
    &&& next.produce_lr == s.produce_lr
}

fn fill_stereo(past: &[i16; 2], x: &[i16], n: usize) -> (b: [i16; 322])
    requires
        n <= 320,
        n <= x@.len(),
    ensures
        b@ == stereo_buffer(past@, x@, n as int),
{
    let mut b: [i16; 322] = [0; 322];
    b[0] = past[0];
    b[1] = past[1];
    let mut i: usize = 0;
    while i < n
        invariant
            i <= n <= 320,
            n <= x@.len(),
            b@[0] == past@[0],
            b@[1] == past@[1],
            forall|j: int|
                2 <= j < 322 ==> #[trigger] b@[j] == if j < i + 2 {
                    x@[j - 2]
                } else {
                    0
                },
        decreases n - i,
    {
        b[i + 2] = x[i];
        i += 1;
    }
    assert(b@ =~= stereo_buffer(past@, x@, n as int));
    b
}

fn keep_frame(b: &[i16; 322], n: usize, last: &[i16; 320]) -> (r: [i16; 320])
    requires
        n <= 320,
    ensures
        forall|i: int|
            0 <= i < 320 ==> #[trigger] r@[i] == if i < n {
                b@[i + 1]
            } else {
                last@[i]
            },
{
    let mut r: [i16; 320] = *last;
    let mut i: usize = 0;
    while i < n
        invariant
            i <= n <= 320,
            forall|j: int|
                0 <= j < 320 ==> #[trigger] r@[j] == if j < i {
                    b@[j + 1]
                } else {
                    last@[j]
                },
        decreases n - i,
    {
        r[i] = b[i + 1];
        i += 1;
    }
    r
}

impl SilkDecoder {
    fn finish_stereo(&mut self, output: &[i16], side: &[i16; 320], n: usize, plan: &FramePlan)
        requires
            decoder_inv(*old(self)),
            is_internal_rate(old(self).channel_state@[0].fs_khz as int),
            2 <= n <= 320,
            n <= output@.len(),
            forall|j: int| 0 <= j < 2 ==> -27464 <= #[trigger] plan.pred_q13@[j] <= 27464,
        ensures
            decoder_inv(*final(self)),
            stereo_end(*old(self), output@, side@, n as int, *plan, *final(self)),
            *final(self) == (SilkDecoder {
                s_stereo_pred_prev_q13: final(self).s_stereo_pred_prev_q13,
                s_stereo_mid: final(self).s_stereo_mid,
                s_stereo_side: final(self).s_stereo_side,
                l_out: final(self).l_out,
                r_out: final(self).r_out,
                ..*old(self)
            }),
    {
        if self.produce_lr && self.n_channels_internal == 2 {
            let ghost s = *self;
            let mut mid: [i16; 322] = fill_stereo(&self.s_stereo_mid, output, n);
            let mut other: [i16; 322] = fill_stereo(&self.s_stereo_side, side, n);
            let ghost m = mid@;
            let ghost d = other@;
            let mut prev: [i32; 2] = self.s_stereo_pred_prev_q13;
            let mut s_mid: [i16; 2] = self.s_stereo_mid;
            let mut s_side: [i16; 2] = self.s_stereo_side;
            assert(with_history(m, s_mid@) =~= m);
            assert(with_history(d, s_side@) =~= d);
            assert forall|j: int| 0 <= j < 2 implies -0x2000_0000 <= #[trigger] prev@[j]
                <= 0x2000_0000 by {
                assert(-27464 <= s.s_stereo_pred_prev_q13@[j] <= 27464);
            }
            silk_stereo_ms_to_lr(
                &mut prev,
                &mut s_mid,
                &mut s_side,
                &mut mid,
                &mut other,
                &plan.pred_q13,
                self.channel_state[0].fs_khz,
                n,
            );
            self.l_out = keep_frame(&mid, n, &self.l_out);
            self.r_out = keep_frame(&other, n, &self.r_out);
            self.s_stereo_pred_prev_q13 = prev;
            self.s_stereo_mid = s_mid;
            self.s_stereo_side = s_side;
        } else {
            self.s_stereo_mid = [output[n - 2], output[n - 1]];
            assert(self.s_stereo_mid@ =~= seq![output@[n - 2], output@[n - 1]]);
        }
    }

    fn finish_frame(
        &mut self,
        output: &[i16],
        side: &[i16; 320],
        n: usize,
        lost_flag: i32,
        plan: &FramePlan,
    )
        requires
            decoder_inv(*old(self)),
            is_internal_rate(old(self).channel_state@[0].fs_khz as int),
            old(self).n_channels_internal == 2 ==> old(self).channel_state@[1].n_frames_decoded
                < 3,
            2 <= n <= 320,
            n <= output@.len(),
            forall|j: int| 0 <= j < 2 ==> -27464 <= #[trigger] plan.pred_q13@[j] <= 27464,
        ensures
            decoder_inv(*final(self)),
            finish_result(
                *old(self),
                output@,
                side@,
                n as int,
                lost_flag as int,
                *plan,
                *final(self),
            ),
    {
        self.finish_stereo(output, side, n, plan);
        let two = self.n_channels_internal == 2;
        let mut m: SilkDecoderState = self.channel_state[0];
        let mut d: SilkDecoderState = self.channel_state[1];
        if two {
            d.n_frames_decoded = d.n_frames_decoded + 1;
        }
        if lost_flag == 1 {
            m.last_gain_index = 10;
            if two {
                d.last_gain_index = 10;
            }
        } else {
            self.prev_decode_only_middle = if plan.only_middle {
                1
            } else {
                0
            };
        }
        self.channel_state = [m, d];
    }
}

// ---------------------------------------------------------------------------
// Step by step
// ---------------------------------------------------------------------------
/// Where decoding a frame stands.
#[derive(Clone, Copy, Debug, PartialEq, Eq)]
pub enum DecodePhase {
    /// In front of the frame.
    Start,
    /// The pulses of a repeated frame are being read over.
    Skipping(usize),
    /// The mid channel is waited for.
    Mid,
    /// The side channel is waited for.
    Side,
}

/// What decoding needs next.
#[derive(Clone, Copy, Debug, PartialEq, Eq)]
pub enum DecodeNeed {
    /// The pulses of a channel read over.
    Pulses(usize),
    /// The pulses and the parameters of a channel, where its frame is there, and
    /// what concealment and comfort noise need.
    Frame(usize),
    /// Nothing: the frame is done and has so many samples, or there is none.
    Done(i32),
}

/// One frame on its way.
#[derive(Clone, Copy, Debug)]
pub struct DecodeRun {
    /// Where it stands.
    pub phase: DecodePhase,
    /// Whether it arrived, was lost, or is repeated by the packet.
    pub lost_flag: i32,
    /// What was planned for it.
    pub plan: FramePlan,
    /// Its side channel.
    pub side: [i16; 320],
}

impl DecodeRun {
    /// A frame that is not begun.
    pub fn new(lost_flag: i32) -> (r: Self)
        ensures
            r.phase is Start,
            r.lost_flag == lost_flag,
            zeros16(r.side@),
    {
        DecodeRun {
            phase: DecodePhase::Start,
            lost_flag,
            plan: FramePlan {
                pred_q13: [0; 2],
                only_middle: false,
                has_side: false,
                cond_mid: 0,
                cond_side: 0,
            },
            side: [0; 320],
        }
    }
}

/// Whether a plan's weights are ones that can be applied.
pub open spec fn plan_valid(plan: FramePlan) -> bool {
    forall|j: int| 0 <= j < 2 ==> -27464 <= #[trigger] plan.pred_q13@[j] <= 27464
}

/// Whether the decoder is where a frame on its way says.
pub open spec fn run_valid(s: SilkDecoder, run: DecodeRun) -> bool {
    match run.phase {
        DecodePhase::Start => {
            &&& decoder_inv(s)
            &&& s.channels() == 1 || s.channels() == 2
        },
        DecodePhase::Skipping(t) => {
            &&& s.ready()
            &&& t < s.channel_state@[0].n_frames_per_packet * s.channels()
            &&& 0 <= s.channel_state@[1].n_frames_decoded < 3
        },
        DecodePhase::Mid => {
            &&& s.ready()
            &&& pending(s.channel_state@[0], run.lost_flag as int)
            &&& plan_valid(run.plan)
        },
        DecodePhase::Side => {
            &&& decoder_inv(s)
            &&& s.channels() == 2
            &&& frame_ready(s.channel_state@[0])
            &&& frame_ready(s.channel_state@[1])
            &&& s.channel_state@[1].frame_length == s.channel_state@[0].frame_length
            &&& 0 <= s.channel_state@[1].n_frames_decoded < 3
            &&& pending(s.channel_state@[1], run.lost_flag as int)
            &&& plan_valid(run.plan)
        },
    }
}

/// What beginning the frame itself does: it is planned, the indices of the mid
/// channel are read, and the rest of that channel is asked for. Its side channel
/// is silent until it is decoded.
pub open spec fn open_result(
    s: SilkDecoder,
    books: Codebooks,
    c: CoderView,
    run: DecodeRun,
    next: SilkDecoder,
    next_run: DecodeRun,
    end: CoderView,
    need: DecodeNeed,
) -> bool {
    &&& need == DecodeNeed::Frame(0)
    &&& zeros16(next_run.side@)
    &&& next_run == (DecodeRun {
        phase: DecodePhase::Mid,
        plan: next_run.plan,
        side: next_run.side,
        ..run
    })
    &&& exists|m: SilkDecoder, c1: CoderView|
        {
            &&& #[trigger] plan_result(s, c, run.lost_flag as int, next_run.plan, m, c1)
            &&& indices_step(
                m.channel_state@[0],
                books,
                c1,
                run.lost_flag as int,
                next_run.plan.cond_mid as int,
                next.channel_state@[0],
                end,
            )
            &&& next.channel_state@[1] == m.channel_state@[1]
            &&& next == (SilkDecoder { channel_state: next.channel_state, ..m })
        }
}

/// What going on from repeated place `t` does: the next one is read over, or the
/// frame itself begins.
pub open spec fn advance_result(
    s: SilkDecoder,
    books: Codebooks,
    c: CoderView,
    run: DecodeRun,
    t: int,
    next: SilkDecoder,
    next_run: DecodeRun,
    end: CoderView,
    need: DecodeNeed,
) -> bool {
    let at = s.next_repeat(t);
    if at < s.channel_state@[0].n_frames_per_packet * s.channels() {
        &&& repeat_result(s, books, c, at, next, end)
        &&& next_run == (DecodeRun { phase: DecodePhase::Skipping(at as usize), ..run })
        &&& need == DecodeNeed::Pulses((at % s.channels()) as usize)
    } else {
        open_result(s, books, c, run, next, next_run, end, need)
    }
}

/// What beginning does: the packet, its flags, then whatever comes first.
pub open spec fn start_result(
    s: SilkDecoder,
    books: Codebooks,
    c: CoderView,
    run: DecodeRun,
    new_packet: bool,
    ms: int,
    rate_hz: int,
    next: SilkDecoder,
    next_run: DecodeRun,
    end: CoderView,
    need: DecodeNeed,
) -> bool {
    exists|b: SilkDecoder, r: int|
        {
            &&& #[trigger] begin_result(s, new_packet, ms, rate_hz, b, r)
            &&& if r != 0 {
                need == DecodeNeed::Done(-1i32) && next == b && next_run == run && end == c
            } else if run.lost_flag == 1 || b.channel_state@[0].n_frames_decoded != 0 {
                open_result(b, books, c, run, next, next_run, end, need)
            } else {
                exists|f: SilkDecoder, c1: CoderView|
                    {
                        &&& #[trigger] flags_result(b, c, f, c1)
                        &&& if run.lost_flag == 0 {
                            advance_result(f, books, c1, run, 0, next, next_run, end, need)
                        } else {
                            open_result(f, books, c1, run, next, next_run, end, need)
                        }
                    }
            }
        }
}

/// A decoder whose mid channel has one more frame behind it.
pub open spec fn mid_done(s: SilkDecoder, d: SilkDecoderState, next: SilkDecoder) -> bool {
    &&& next.channel_state@[0] == (SilkDecoderState {
        n_frames_decoded: (d.n_frames_decoded + 1) as i32,
        ..d
    })
    &&& next.channel_state@[1] == s.channel_state@[1]
    &&& next == (SilkDecoder { channel_state: next.channel_state, ..s })
}

/// What the mid channel's frame does: it is decoded; then the side channel's
/// indices are read, or the frame is done.
pub open spec fn mid_result(
    s: SilkDecoder,
    books: Codebooks,
    c: CoderView,
    run: DecodeRun,
    input: FrameInput,
    output: Seq<i16>,
    next: SilkDecoder,
    next_run: DecodeRun,
    end: CoderView,
    out: Seq<i16>,
    need: DecodeNeed,
) -> bool {
    let n = s.channel_state@[0].frame_length as int;
    let lost_flag = run.lost_flag as int;
    exists|d: SilkDecoderState, m: SilkDecoder|
        {
            &&& #[trigger] channel_result(
                s.channel_state@[0],
                lost_flag,
                input,
                output,
                d,
                out,
            )
            &&& #[trigger] mid_done(s, d, m)
            &&& if s.channels() == 2 && run.plan.has_side {
                &&& indices_step(
                    m.channel_state@[1],
                    books,
                    c,
                    lost_flag,
                    run.plan.cond_side as int,
                    next.channel_state@[1],
                    end,
                )
                &&& next.channel_state@[0] == m.channel_state@[0]
                &&& next == (SilkDecoder { channel_state: next.channel_state, ..m })
                &&& next_run == (DecodeRun { phase: DecodePhase::Side, ..run })
                &&& need == DecodeNeed::Frame(1)
            } else {
                &&& finish_result(m, out, run.side@, n, lost_flag, run.plan, next)
                &&& end == c
                &&& next_run == (DecodeRun { phase: DecodePhase::Start, ..run })
                &&& need == DecodeNeed::Done(n as i32)
            }
        }
}

/// What the side channel's frame does: it is decoded, and the frame is done.
pub open spec fn side_result(
    s: SilkDecoder,
    run: DecodeRun,
    input: FrameInput,
    output: Seq<i16>,
    next: SilkDecoder,
    next_run: DecodeRun,
    need: DecodeNeed,
) -> bool {
    let n = s.channel_state@[0].frame_length as int;
    &&& next_run == (DecodeRun {
        phase: DecodePhase::Start,
        side: next_run.side,
        ..run
    })
    &&& need == DecodeNeed::Done(n as i32)
    &&& exists|d: SilkDecoderState, m: SilkDecoder|
        {
            &&& #[trigger] channel_result(
                s.channel_state@[1],
                run.lost_flag as int,
                input,
                run.side@,
                d,
                next_run.side@,
            )
            &&& m.channel_state@[0] == s.channel_state@[0]
            &&& m.channel_state@[1] == d
            &&& m == (SilkDecoder { channel_state: m.channel_state, ..s })
            &&& #[trigger] finish_result(
                m,
                output,
                next_run.side@,
                n,
                run.lost_flag as int,
                run.plan,
                next,
            )
        }
}

impl SilkDecoder {
    fn open_frame(
        &mut self,
        run: &mut DecodeRun,
        rc: &mut RangeCoder,
        books: &Codebooks,
    ) -> (need: DecodeNeed)
        requires
            old(self).ready(),
            0 <= old(self).channel_state@[1].n_frames_decoded < 3,
            decoding(old(rc)@),
            codebooks_valid(*books),
        ensures
            decoding(final(rc)@),
            run_valid(*final(self), *final(run)),
            open_result(
                *old(self),
                *books,
                old(rc)@,
                *old(run),
                *final(self),
                *final(run),
                final(rc)@,
                need,
            ),
    {
        let ghost s = *self;
        let ghost c = rc@;
        let lost_flag: i32 = run.lost_flag;
        let plan: FramePlan = self.plan_frame(rc, lost_flag);
        let ghost m = *self;
        let ghost c1 = rc@;
        let mut d: SilkDecoderState = self.channel_state[0];
        read_channel(&mut d, rc, books, lost_flag, plan.cond_mid);
        self.channel_state = [d, self.channel_state[1]];
        run.plan = plan;
        run.side = [0; 320];
        run.phase = DecodePhase::Mid;
        assert(plan_result(s, c, lost_flag as int, plan, m, c1));
        DecodeNeed::Frame(0)
    }

    fn advance(
        &mut self,
        run: &mut DecodeRun,
        rc: &mut RangeCoder,
        books: &Codebooks,
        from: usize,
    ) -> (need: DecodeNeed)
        requires
            old(self).ready(),
            0 <= old(self).channel_state@[1].n_frames_decoded < 3,
            decoding(old(rc)@),
            codebooks_valid(*books),
            from <= old(self).channel_state@[0].n_frames_per_packet * old(self).channels(),
        ensures
            decoding(final(rc)@),
            run_valid(*final(self), *final(run)),
            advance_result(
                *old(self),
                *books,
                old(rc)@,
                *old(run),
                from as int,
                *final(self),
                *final(run),
                final(rc)@,
                need,
            ),
    {
        let t: usize = self.find_repeat(from);
        let channels: usize = self.n_channels_internal as usize;
        let frames: usize = self.channel_state[0].n_frames_per_packet as usize;
        proof {
            let f: int = frames as int;
            let c: int = channels as int;
            assert(0 <= f * c <= 6) by (nonlinear_arith)
                requires
                    0 <= f <= 3,
                    0 <= c <= 2,
            ;
        }
        if t < frames * channels {
            self.skip_repeat(rc, books, t);
            run.phase = DecodePhase::Skipping(t);
            DecodeNeed::Pulses(t % channels)
        } else {
            self.open_frame(run, rc, books)
        }
    }

    fn start(
        &mut self,
        run: &mut DecodeRun,
        rc: &mut RangeCoder,
        books: &Codebooks,
        new_packet: bool,
        payload_size_ms: i32,
        internal_sample_rate: i32,
    ) -> (need: DecodeNeed)
        requires
            run_valid(*old(self), *old(run)),
            old(run).phase is Start,
            !new_packet ==> {
                &&& old(self).channel_state@[0].n_frames_decoded == 0 || old(self).ready()
                &&& old(self).channels() == 2 ==> old(self).channel_state@[1].n_frames_decoded
                    == old(self).channel_state@[0].n_frames_decoded
                &&& 0 <= old(self).channel_state@[1].n_frames_decoded < 3
            },
            decoding(old(rc)@),
            codebooks_valid(*books),
        ensures
            decoding(final(rc)@),
            run_valid(*final(self), *final(run)),
            start_result(
                *old(self),
                *books,
                old(rc)@,
                *old(run),
                new_packet,
                payload_size_ms as int,
                internal_sample_rate as int,
                *final(self),
                *final(run),
                final(rc)@,
                need,
            ),
    {
        let ghost s = *self;
        let ghost c = rc@;
        let r: i32 = self.begin_packet(new_packet, payload_size_ms, internal_sample_rate);
        let ghost b = *self;
        assert(begin_result(
            s,
            new_packet,
            payload_size_ms as int,
            internal_sample_rate as int,
            b,
            r as int,
        ));
        if r != 0 {
            return DecodeNeed::Done(-1);
        }
        if run.lost_flag == 1 || self.channel_state[0].n_frames_decoded != 0 {
            return self.open_frame(run, rc, books);
        }
        self.read_flags(rc);
        assert(flags_result(b, c, *self, rc@));
        if run.lost_flag == 0 {
            self.advance(run, rc, books, 0)
        } else {
            self.open_frame(run, rc, books)
        }
    }

    fn take_mid(
        &mut self,
        run: &mut DecodeRun,
        rc: &mut RangeCoder,
        books: &Codebooks,
        input: &FrameInput,
        output: &mut [i16],
    ) -> (need: DecodeNeed)
        requires
            run_valid(*old(self), *old(run)),
            old(run).phase is Mid,
            decoding(old(rc)@),
            codebooks_valid(*books),
            input_valid(old(self).channel_state@[0], old(run).lost_flag as int, *input),
            old(self).channel_state@[0].frame_length <= old(output)@.len(),
        ensures
            decoding(final(rc)@),
            run_valid(*final(self), *final(run)),
            final(output)@.len() == old(output)@.len(),
            mid_result(
                *old(self),
                *books,
                old(rc)@,
                *old(run),
                *input,
                old(output)@,
                *final(self),
                *final(run),
                final(rc)@,
                final(output)@,
                need,
            ),
    {
        let ghost s = *self;
        let ghost before = output@;
        let lost_flag: i32 = run.lost_flag;
        let mut d: SilkDecoderState = self.channel_state[0];
        let n: i32 = decode_channel(&mut d, lost_flag, input, output);
        let ghost decoded = d;
        d.n_frames_decoded = d.n_frames_decoded + 1;
        self.channel_state = [d, self.channel_state[1]];
        let ghost m = *self;
        assert(channel_result(
            s.channel_state@[0],
            lost_flag as int,
            *input,
            before,
            decoded,
            output@,
        ));
        assert(mid_done(s, decoded, m));
        if self.n_channels_internal == 2 && run.plan.has_side {
            let mut side: SilkDecoderState = self.channel_state[1];
            read_channel(&mut side, rc, books, lost_flag, run.plan.cond_side);
            self.channel_state = [self.channel_state[0], side];
            run.phase = DecodePhase::Side;
            DecodeNeed::Frame(1)
        } else {
            self.finish_frame(output, &run.side, n as usize, lost_flag, &run.plan);
            run.phase = DecodePhase::Start;
            DecodeNeed::Done(n)
        }
    }

    fn take_side(
        &mut self,
        run: &mut DecodeRun,
        input: &FrameInput,
        output: &[i16],
    ) -> (need: DecodeNeed)
        requires
            run_valid(*old(self), *old(run)),
            old(run).phase is Side,
            input_valid(old(self).channel_state@[1], old(run).lost_flag as int, *input),
            old(self).channel_state@[0].frame_length <= output@.len(),
        ensures
            run_valid(*final(self), *final(run)),
            side_result(
                *old(self),
                *old(run),
                *input,
                output@,
                *final(self),
                *final(run),
                need,
            ),
    {
        let ghost s = *self;
        let ghost r = *run;
        proof {
            lemma_frame_length(s.channel_state@[1]);
        }
        let lost_flag: i32 = run.lost_flag;
        let mut d: SilkDecoderState = self.channel_state[1];
        let mut side: [i16; 320] = run.side;
        let n: i32 = decode_channel(&mut d, lost_flag, input, &mut side);
        self.channel_state = [self.channel_state[0], d];
        run.side = side;
        run.phase = DecodePhase::Start;
        let ghost m = *self;
        assert(channel_result(
            s.channel_state@[1],
            lost_flag as int,
            *input,
            r.side@,
            d,
            run.side@,
        ));
        self.finish_frame(output, &run.side, n as usize, lost_flag, &run.plan);
        assert(finish_result(
            m,
            output@,
            run.side@,
            n as int,
            lost_flag as int,
            run.plan,
            *self,
        ));
        DecodeNeed::Done(n)
    }

    /// Take the next step of decoding a frame.
    ///
    /// Called with a new [`DecodeRun`] it begins: a new packet's rate, duration
    /// and flags first. Then it is called again with what it asks for: a repeated
    /// frame's pulses read over in the coder, or a channel's [`FrameInput`]. The
    /// mid channel goes to `output`. When it is done, it gives the number of
    /// samples, or -1 for a rate or a duration that does not exist.
    pub fn decode(
        &mut self,
        run: &mut DecodeRun,
        range_dec: &mut RangeCoder,
        books: &Codebooks,
        input: &FrameInput,
        output: &mut [i16],
        new_packet: bool,
        payload_size_ms: i32,
        internal_sample_rate: i32,
    ) -> (need: DecodeNeed)
        requires
            run_valid(*old(self), *old(run)),
            decoding(old(range_dec)@),
            codebooks_valid(*books),
            old(run).phase is Start && !new_packet ==> {
                &&& old(self).channel_state@[0].n_frames_decoded == 0 || old(self).ready()
                &&& old(self).channels() == 2 ==> old(self).channel_state@[1].n_frames_decoded
                    == old(self).channel_state@[0].n_frames_decoded
                &&& 0 <= old(self).channel_state@[1].n_frames_decoded < 3
            },
            old(run).phase is Mid ==> input_valid(
                old(self).channel_state@[0],
                old(run).lost_flag as int,
                *input,
            ),
            old(run).phase is Side ==> input_valid(
                old(self).channel_state@[1],
                old(run).lost_flag as int,
                *input,
            ),
            old(run).phase is Mid || old(run).phase is Side ==> old(
                self,
            ).channel_state@[0].frame_length <= old(output)@.len(),
        ensures
            decoding(final(range_dec)@),
            run_valid(*final(self), *final(run)),
            final(output)@.len() == old(output)@.len(),
            match old(run).phase {
                DecodePhase::Start => {
                    &&& final(output)@ == old(output)@
                    &&& start_result(
                        *old(self),
                        *books,
                        old(range_dec)@,
                        *old(run),
                        new_packet,
                        payload_size_ms as int,
                        internal_sample_rate as int,
                        *final(self),
                        *final(run),
                        final(range_dec)@,
                        need,
                    )
                },
                DecodePhase::Skipping(t) => {
                    &&& final(output)@ == old(output)@
                    &&& advance_result(
                        *old(self),
                        *books,
                        old(range_dec)@,
                        *old(run),
                        t + 1,
                        *final(self),
                        *final(run),
                        final(range_dec)@,
                        need,
                    )
                },
                DecodePhase::Mid => mid_result(
                    *old(self),
                    *books,
                    old(range_dec)@,
                    *old(run),
                    *input,
                    old(output)@,
                    *final(self),
                    *final(run),
                    final(range_dec)@,
                    final(output)@,
                    need,
                ),
                DecodePhase::Side => {
                    &&& final(output)@ == old(output)@
                    &&& final(range_dec)@ == old(range_dec)@
                    &&& side_result(
                        *old(self),
                        *old(run),
                        *input,
                        old(output)@,
                        *final(self),
                        *final(run),
                        need,
                    )
                },
            },
    {
        match run.phase {
            DecodePhase::Start => self.start(
                run,
                range_dec,
                books,
                new_packet,
                payload_size_ms,
                internal_sample_rate,
            ),
            DecodePhase::Skipping(t) => {
                proof {
                    let f: int = self.channel_state@[0].n_frames_per_packet as int;
                    let c: int = self.channels();
                    assert(f * c <= 6) by (nonlinear_arith)
                        requires
                            0 <= f <= 3,
                            0 <= c <= 2,
                    ;
                }
                self.advance(run, range_dec, books, t + 1)
            },
            DecodePhase::Mid => self.take_mid(run, range_dec, books, input, output),
            DecodePhase::Side => self.take_side(run, input, output),
        }
    }
}

} // verus!
