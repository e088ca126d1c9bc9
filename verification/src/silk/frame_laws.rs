//! What becomes of a frame: which frames are decoded from a packet, and which
//! are concealed.

use vstd::prelude::*;

use crate::range_coder::{bit_value, icdf_symbol, CoderView};
use crate::silk::dec_api::{
    activity_read, after_bits, after_repeats, begin_result, book_for, channel_end, flags_result,
    indices_step, mid_done, mid_result, open_result, plan_result, repeats_read, start_result,
    Codebooks, DecodeNeed, DecodeRun, SilkDecoder,
};
use crate::silk::decode_core::core_result;
use crate::silk::decode_frame::{
    channel_result, frame_end, frame_middle, frame_result, moved_output, output_moved, FrameInput,
};
use crate::silk::decode_indices::indices_result;
use crate::silk::decoder_structs::{SilkDecoderControl, SilkDecoderState};
use crate::silk::plc::concealed;
use crate::silk::tables::{SILK_LBRR_FLAGS_2_ICDF, SILK_LBRR_FLAGS_3_ICDF};

verus! {

/// A decoder behind a frame that was decoded from the packet: nothing is lost any
/// more, and the next frame is coded against this one.
pub open spec fn was_decoded(input: FrameInput, next: SilkDecoderState) -> bool {
    &&& next.loss_cnt == 0
    &&& next.prev_nlsf_q15 == input.prev_nlsf_q15
    &&& next.last_gain_index == input.last_gain_index
    &&& next.first_frame_after_reset == 0
}

/// A decoder behind a frame that was concealed: one more is lost, and the next
/// frame is coded against the last that was there.
pub open spec fn was_concealed(d: SilkDecoderState, next: SilkDecoderState) -> bool {
    &&& next.loss_cnt == d.loss_cnt + 1
    &&& next.prev_nlsf_q15 == d.prev_nlsf_q15
    &&& next.last_gain_index == d.last_gain_index
    &&& next.indices == d.indices
    &&& next.exc_q14 == d.exc_q14
}

/// A frame that arrived is decoded, a lost one is concealed, and a lost one that
/// the packet behind it may repeat is decoded where that packet's flag for it
/// says that it holds a copy, and concealed where the flag says that it does not.
pub proof fn law_a_frame_is_decoded_where_it_is_there(
    d: SilkDecoderState,
    lost_flag: int,
    input: FrameInput,
    frame: Seq<i16>,
    next: SilkDecoderState,
    out: Seq<i16>,
)
    requires
        channel_result(d, lost_flag, input, frame, next, out),
    ensures
        lost_flag == 0 ==> was_decoded(input, next),
        lost_flag == 1 ==> was_concealed(d, next),
        lost_flag == 2 && d.lbrr_flags@[d.n_frames_decoded as int] == 1 ==> was_decoded(
            input,
            next,
        ),
        lost_flag == 2 && d.lbrr_flags@[d.n_frames_decoded as int] != 1 ==> was_concealed(d, next),
{
    let c = choose|c: SilkDecoderControl|
        #[trigger] frame_result(d, input, lost_flag, frame, next, c, out);
    let (m, x) = choose|m: SilkDecoderState, x: Seq<i16>|
        {
            &&& #[trigger] frame_middle(d, input, lost_flag, frame, m, c, x)
            &&& frame_end(m, c, input.a_q12@, x, next, out)
        };
    assert(frame_middle(d, input, lost_flag, frame, m, c, x));
    assert(frame_end(m, c, input.a_q12@, x, next, out));
    reveal(core_result);
    reveal(concealed);
}

/// In recovery the indices of a frame are read where the packet's flag for it
/// says that it holds a copy, as those of a frame with activity; where the flag
/// is clear, and for a frame that is simply lost, nothing is read at all.
pub proof fn law_recovery_reads_only_copies(
    d: SilkDecoderState,
    books: Codebooks,
    c: CoderView,
    lost_flag: int,
    cond_coding: int,
    next: SilkDecoderState,
    end: CoderView,
)
    requires
        indices_step(d, books, c, lost_flag, cond_coding, next, end),
        lost_flag == 1 || lost_flag == 2,
    ensures
        lost_flag == 2 && d.lbrr_flags@[d.n_frames_decoded as int] == 1 ==> indices_result(
            d,
            book_for(books, d.fs_khz as int),
            c,
            true,
            cond_coding,
            next,
            end,
        ),
        lost_flag == 1 || d.lbrr_flags@[d.n_frames_decoded as int] != 1 ==> next == d && end == c,
{
}

/// The frames in a packet of `ms` milliseconds.
pub open spec fn frames_in(ms: int) -> int {
    if ms == 60 {
        3
    } else if ms == 40 {
        2
    } else {
        1
    }
}

/// Whether the header of a packet of `frames` frames at `c` says that it holds a
/// copy of frame `i` of its first channel. Behind an activity flag for each frame
/// one bit says whether there are copies at all; of two or three frames a symbol
/// behind the flags of all channels says which, frame by frame from its lowest
/// bit on.
pub open spec fn holds_copy(c: CoderView, frames: int, channels: int, i: int) -> bool {
    let any = bit_value(after_bits(c, frames), 1);
    let first = after_bits(c, frames + 1);
    let behind = if channels == 2 {
        after_bits(first, frames + 1)
    } else {
        first
    };
    let which = if frames == 1 {
        1
    } else if frames == 2 {
        icdf_symbol(behind, SILK_LBRR_FLAGS_2_ICDF@) + 1
    } else {
        icdf_symbol(behind, SILK_LBRR_FLAGS_3_ICDF@) + 1
    };
    &&& any
    &&& 0 <= i < frames
    &&& if i == 0 {
        which % 2 == 1
    } else if i == 1 {
        which / 2 % 2 == 1
    } else {
        which / 4 % 2 == 1
    }
}

/// Behind the flags of a packet the decoder knows of exactly those copies that
/// the header says the packet holds, and of the voice activity that it says.
pub proof fn law_the_header_names_the_copies(
    s: SilkDecoder,
    c: CoderView,
    next: SilkDecoder,
    end: CoderView,
    i: int,
)
    requires
        flags_result(s, c, next, end),
        1 <= s.channel_state@[0].n_frames_per_packet <= 3,
        0 <= i < 3,
    ensures
        ({
            let frames = s.channel_state@[0].n_frames_per_packet as int;
            let d = next.channel_state@[0];
            &&& d.lbrr_flags@[i] == if holds_copy(c, frames, s.channels(), i) {
                1int
            } else {
                0
            }
            &&& i < frames ==> (d.vad_flags@[i] == if bit_value(after_bits(c, i), 1) {
                1int
            } else {
                0
            })
            &&& d.loss_cnt == s.channel_state@[0].loss_cnt
            &&& d.fs_khz == s.channel_state@[0].fs_khz
            &&& next.channels() == s.channels()
            &&& d.n_frames_decoded == s.channel_state@[0].n_frames_decoded
            &&& d.n_frames_per_packet == s.channel_state@[0].n_frames_per_packet
            &&& s.channels() == 1 && !bit_value(after_bits(c, frames), 1) ==> end == after_bits(
                c,
                frames + 1,
            )
            &&& s.channels() == 1 && frames == 1 ==> end == after_bits(c, 2)
        }),
{
    let frames = s.channel_state@[0].n_frames_per_packet as int;
    let two = s.n_channels_internal == 2;
    let c1 = after_bits(c, frames + 1);
    let c2 = if two {
        after_bits(c1, frames + 1)
    } else {
        c1
    };
    let m = choose|m: SilkDecoderState|
        {
            &&& #[trigger] activity_read(s.channel_state@[0], c, frames, m)
            &&& repeats_read(m, c2, frames, next.channel_state@[0])
            &&& !two ==> end == after_repeats(m, c2, frames)
        };
    assert(repeats_read(m, c2, frames, next.channel_state@[0]));
    assert(next.channel_state@[0].lbrr_flags@[i] == next.channel_state@[0].lbrr_flags@[i]);
    assert(m.vad_flags@[i] == next.channel_state@[0].vad_flags@[i]);
}

proof fn lemma_recovery_opens(
    s: SilkDecoder,
    books: Codebooks,
    c: CoderView,
    run: DecodeRun,
    ms: int,
    rate_hz: int,
    s1: SilkDecoder,
    run1: DecodeRun,
    c1: CoderView,
    need1: DecodeNeed,
) -> (w: (SilkDecoder, SilkDecoder, CoderView))
    requires
        run.lost_flag == 2,
        rate_hz == 8000 || rate_hz == 12000 || rate_hz == 16000,
        ms == 10 || ms == 20 || ms == 40 || ms == 60,
        start_result(s, books, c, run, true, ms, rate_hz, s1, run1, c1, need1),
    ensures
        flags_result(w.0, c, w.1, w.2),
        open_result(w.1, books, w.2, run, s1, run1, c1, need1),
        w.0.channels() == s.channels(),
        w.0.channel_state@[0].n_frames_per_packet == frames_in(ms),
        w.0.channel_state@[0].n_frames_decoded == 0,
        w.0.channel_state@[0].loss_cnt == s.channel_state@[0].loss_cnt,
        w.0.channel_state@[0].fs_khz == rate_hz / 1000,
{
    let (b, r) = choose|b: SilkDecoder, r: int|
        {
            &&& #[trigger] begin_result(s, true, ms, rate_hz, b, r)
            &&& r == 0 && b.channel_state@[0].n_frames_decoded == 0 ==> exists|
                f: SilkDecoder,
                e: CoderView,
            |
                {
                    &&& #[trigger] flags_result(b, c, f, e)
                    &&& open_result(f, books, e, run, s1, run1, c1, need1)
                }
        };
    assert(begin_result(s, true, ms, rate_hz, b, r));
    assert(r == 0);
    assert(b.channel_state@[0].n_frames_decoded == 0);
    let (f, e) = choose|f: SilkDecoder, e: CoderView|
        {
            &&& #[trigger] flags_result(b, c, f, e)
            &&& open_result(f, books, e, run, s1, run1, c1, need1)
        };
    (b, f, e)
}

proof fn lemma_recovery_plans(
    f: SilkDecoder,
    books: Codebooks,
    e: CoderView,
    run: DecodeRun,
    s1: SilkDecoder,
    run1: DecodeRun,
    c1: CoderView,
    need1: DecodeNeed,
)
    requires
        run.lost_flag == 2,
        f.channel_state@[0].n_frames_decoded == 0,
        open_result(f, books, e, run, s1, run1, c1, need1),
    ensures
        s1.channel_state@[0].n_frames_decoded == 0,
        s1.channel_state@[0].lbrr_flags == f.channel_state@[0].lbrr_flags,
        s1.channel_state@[0].loss_cnt == f.channel_state@[0].loss_cnt,
        s1.channels() == f.channels(),
        f.channels() == 1 && f.channel_state@[0].lbrr_flags@[0] == 1 ==> indices_result(
            f.channel_state@[0],
            book_for(books, f.channel_state@[0].fs_khz as int),
            e,
            true,
            0,
            s1.channel_state@[0],
            c1,
        ),
        f.channels() == 1 && f.channel_state@[0].lbrr_flags@[0] != 1 ==> c1 == e,
{
    let (m, e1) = choose|m: SilkDecoder, e1: CoderView|
        {
            &&& #[trigger] plan_result(f, e, run.lost_flag as int, run1.plan, m, e1)
            &&& indices_step(
                m.channel_state@[0],
                books,
                e1,
                run.lost_flag as int,
                run1.plan.cond_mid as int,
                s1.channel_state@[0],
                c1,
            )
            &&& s1.channel_state@[1] == m.channel_state@[1]
            &&& s1 == (SilkDecoder { channel_state: s1.channel_state, ..m })
        };
    assert(plan_result(f, e, 2, run1.plan, m, e1));
    law_recovery_reads_only_copies(
        m.channel_state@[0],
        books,
        e1,
        2,
        run1.plan.cond_mid as int,
        s1.channel_state@[0],
        c1,
    );
    let d = m.channel_state@[0];
    let ix = s1.channel_state@[0];
    reveal(indices_result);
    assert(d == f.channel_state@[0]);
    if d.lbrr_flags@[d.n_frames_decoded as int] == 1 {
        assert(ix == (SilkDecoderState {
            indices: ix.indices,
            ec_prev_signal_type: ix.ec_prev_signal_type,
            ec_prev_lag_index: ix.ec_prev_lag_index,
            ..d
        }));
    } else {
        assert(ix == d);
    }
}

proof fn lemma_recovery_ends(
    s1: SilkDecoder,
    books: Codebooks,
    c1: CoderView,
    run1: DecodeRun,
    input: FrameInput,
    output: Seq<i16>,
    s2: SilkDecoder,
    run2: DecodeRun,
    c2: CoderView,
    out: Seq<i16>,
    need2: DecodeNeed,
) -> (d: SilkDecoderState)
    requires
        run1.lost_flag == 2,
        mid_result(s1, books, c1, run1, input, output, s2, run2, c2, out, need2),
    ensures
        channel_result(s1.channel_state@[0], 2, input, output, d, out),
        s2.channel_state@[0].loss_cnt == d.loss_cnt,
        s2.channel_state@[0].prev_nlsf_q15 == d.prev_nlsf_q15,
        s1.channels() == 1 ==> c2 == c1,
{
    let (d, n) = choose|d: SilkDecoderState, n: SilkDecoder|
        {
            &&& #[trigger] channel_result(s1.channel_state@[0], 2, input, output, d, out)
            &&& #[trigger] mid_done(s1, d, n)
            &&& if s1.channels() == 2 && run1.plan.has_side {
                s2.channel_state@[0] == n.channel_state@[0]
            } else {
                &&& s2.channel_state@[0] == channel_end(n.channel_state@[0], false, false)
                &&& c2 == c1
            }
        };
    d
}

/// Recovery follows the header. A run that recovers the frame lost before a
/// packet begins with the packet's header and asks for the frame. Where the
/// header says that the packet holds a copy of its first frame, the indices are
/// read behind the header and the frame ends the loss; where it does not, a mono
/// packet is read no further than its header, and one more frame is lost.
pub proof fn law_recovery_follows_the_header(
    s: SilkDecoder,
    books: Codebooks,
    c: CoderView,
    run: DecodeRun,
    ms: int,
    rate_hz: int,
    s1: SilkDecoder,
    run1: DecodeRun,
    c1: CoderView,
    need1: DecodeNeed,
    input: FrameInput,
    output: Seq<i16>,
    s2: SilkDecoder,
    run2: DecodeRun,
    c2: CoderView,
    out: Seq<i16>,
    need2: DecodeNeed,
)
    requires
        s.channels() == 1 || s.channels() == 2,
        run.lost_flag == 2,
        rate_hz == 8000 || rate_hz == 12000 || rate_hz == 16000,
        ms == 10 || ms == 20 || ms == 40 || ms == 60,
        start_result(s, books, c, run, true, ms, rate_hz, s1, run1, c1, need1),
        mid_result(s1, books, c1, run1, input, output, s2, run2, c2, out, need2),
    ensures
        need1 == DecodeNeed::Frame(0),
        run1.phase is Mid,
        run1.lost_flag == 2,
        holds_copy(c, frames_in(ms), s.channels(), 0) ==> {
            &&& s2.channel_state@[0].loss_cnt == 0
            &&& s2.channel_state@[0].prev_nlsf_q15 == input.prev_nlsf_q15
            &&& s.channels() == 1 && frames_in(ms) == 1 ==> exists|d: SilkDecoderState|
                #[trigger] indices_result(
                    d,
                    book_for(books, rate_hz / 1000),
                    after_bits(c, 2),
                    true,
                    0,
                    s1.channel_state@[0],
                    c1,
                )
        },
        !holds_copy(c, frames_in(ms), s.channels(), 0) ==> {
            &&& s2.channel_state@[0].loss_cnt == s.channel_state@[0].loss_cnt + 1
            &&& s.channels() == 1 && (frames_in(ms) == 1 || !bit_value(
                after_bits(c, frames_in(ms)),
                1,
            )) ==> c1 == after_bits(c, frames_in(ms) + 1)
            &&& s.channels() == 1 ==> c2 == c1
        },
{
    let (b, f, e) = lemma_recovery_opens(s, books, c, run, ms, rate_hz, s1, run1, c1, need1);
    law_the_header_names_the_copies(b, c, f, e, 0);
    lemma_recovery_plans(f, books, e, run, s1, run1, c1, need1);
    let d = lemma_recovery_ends(
        s1,
        books,
        c1,
        run1,
        input,
        output,
        s2,
        run2,
        c2,
        out,
        need2,
    );
    law_a_frame_is_decoded_where_it_is_there(s1.channel_state@[0], 2, input, output, d, out);
}

/// Where a packet is decoded itself, its copies are read over one by one in the
/// order they stand in, and none is left out: from place `t` on the next that is
/// read over is the first whose flag is set.
pub proof fn law_no_copy_is_left_out(s: SilkDecoder, t: int)
    requires
        0 <= t,
        s.channels() == 1 || s.channels() == 2,
        0 <= s.channel_state@[0].n_frames_per_packet <= 3,
    ensures
        ({
            let end = s.channel_state@[0].n_frames_per_packet * s.channels();
            let at = s.next_repeat(t);
            &&& t <= end ==> t <= at <= end
            &&& at < end ==> s.channel_state@[at % s.channels()].lbrr_flags@[at / s.channels()]
                != 0
            &&& forall|u: int|
                t <= u < at ==> #[trigger] s.channel_state@[u % s.channels()].lbrr_flags@[u
                    / s.channels()] == 0
        }),
    decreases s.channel_state@[0].n_frames_per_packet * s.channels() - t,
{
    let end = s.channel_state@[0].n_frames_per_packet * s.channels();
    if t < end && !s.repeats(t) {
        law_no_copy_is_left_out(s, t + 1);
    }
}

/// The output that prediction looks back on moves on by every frame: the frame comes
/// to its end, as it was before noise was mixed in, and what stood there moves up.
pub proof fn law_the_output_moves_on(
    d: SilkDecoderState,
    x: Seq<i16>,
    next: SilkDecoderState,
    j: int,
)
    requires
        output_moved(d, x, next),
        0 < d.frame_length <= d.ltp_mem_length <= 320,
        d.frame_length <= x.len(),
    ensures
        0 <= j < d.ltp_mem_length - d.frame_length ==> next.out_buf@[j] == d.out_buf@[j
            + d.frame_length],
        0 <= j < d.frame_length ==> next.out_buf@[d.ltp_mem_length - d.frame_length + j] == x[j],
        next == (SilkDecoderState { out_buf: next.out_buf, ..d }),
{
    let n = d.frame_length as int;
    let mv = d.ltp_mem_length - n;
    if 0 <= j < mv {
        assert(next.out_buf@[j] == moved_output(d, x)[j]);
        assert((j + n) % 480 == j + n);
    }
    if 0 <= j < n {
        assert(next.out_buf@[mv + j] == moved_output(d, x)[mv + j]);
    }
}

} // verus!
