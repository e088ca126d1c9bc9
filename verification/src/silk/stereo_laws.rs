//! What the stereo side of a frame keeps on its way through the coder.

use vstd::arithmetic::power2::lemma2_to64;
use vstd::prelude::*;

use crate::range_coder::{decoder_start, encoder_start, finished, icdf_symbol, with_icdf};
use crate::range_laws::{
    after_item, after_items, can_be_coded, item_written, law_six_bytes_an_item_are_room_enough,
    law_what_is_written_is_read, reads_back, written, Item,
};
use crate::silk::dec_api::{plan_valid, stereo_buffer, stereo_end, FramePlan, SilkDecoder};
use crate::silk::decode_indices::{
    after_fine, after_joint, first_level, law_indices_name_their_level, received_side, second_level,
    side_restored,
};
use crate::silk::macros::{lemma_wrap_is_word, sat16};
use crate::silk::stereo::{level_indices, smoothed, with_pred};
use crate::silk::tables::{
    lemma_stereo_only_code_mid_icdf, lemma_stereo_pred_joint_icdf, lemma_uniform3_icdf,
    lemma_uniform5_icdf, SILK_STEREO_ONLY_CODE_MID_ICDF, SILK_STEREO_PRED_JOINT_ICDF,
    SILK_UNIFORM3_ICDF, SILK_UNIFORM5_ICDF,
};

verus! {

/// The message that the indices of two weights are.
pub open spec fn pred_message(first: Seq<i8>, second: Seq<i8>) -> Seq<Item> {
    seq![
        Item::Symbol(SILK_STEREO_PRED_JOINT_ICDF@, 5 * first[2] + second[2]),
        Item::Symbol(SILK_UNIFORM3_ICDF@, first[0] as int),
        Item::Symbol(SILK_UNIFORM5_ICDF@, first[1] as int),
        Item::Symbol(SILK_UNIFORM3_ICDF@, second[0] as int),
        Item::Symbol(SILK_UNIFORM5_ICDF@, second[1] as int),
    ]
}

/// The weights survive a round trip: the levels whose indices an encoder with
/// room for them writes are the levels that a decoder reads, so both sides apply
/// the same weights. 35 bytes are room enough.
pub proof fn law_weights_survive_coding(size: int, k: int, m: int)
    requires
        0 <= size <= u32::MAX,
        0 <= k < 75,
        0 <= m < 75,
        35 <= size || !finished(
            with_pred(encoder_start(size), level_indices(k), level_indices(m)),
        ).error,
    ensures
        ({
            let c = with_pred(encoder_start(size), level_indices(k), level_indices(m));
            let d = decoder_start(finished(c).buf);
            &&& first_level(d) == k
            &&& second_level(d) == m
            &&& after_fine(after_fine(after_joint(d))).rng == c.rng
        }),
{
    let a = level_indices(k);
    let b = level_indices(m);
    let items = pred_message(a, b);
    let start = encoder_start(size);
    let c = with_pred(start, a, b);
    law_indices_name_their_level(k);
    law_indices_name_their_level(m);
    lemma_stereo_pred_joint_icdf();
    lemma_uniform3_icdf();
    lemma_uniform5_icdf();
    let r1 = items.drop_first();
    let r2 = r1.drop_first();
    let r3 = r2.drop_first();
    let r4 = r3.drop_first();
    assert(r4.drop_first().len() == 0);
    let c1 = item_written(start, items[0]);
    let c2 = item_written(c1, r1[0]);
    let c3 = item_written(c2, r2[0]);
    let c4 = item_written(c3, r3[0]);
    let c5 = item_written(c4, r4[0]);
    assert(written(c5, r4.drop_first()) == c5);
    assert(written(c4, r4) == c5);
    assert(written(c3, r3) == c5);
    assert(written(c2, r2) == c5);
    assert(written(c1, r1) == c5);
    assert(written(start, items) == c);
    assert forall|j: int| 0 <= j < items.len() implies can_be_coded(#[trigger] items[j]) by {
        assert(j == 0 || j == 1 || j == 2 || j == 3 || j == 4);
    }
    if 35 <= size {
        law_six_bytes_an_item_are_room_enough(size, items);
    }
    law_what_is_written_is_read(size, items);
    let d = decoder_start(finished(c).buf);
    let d1 = after_item(d, items[0]);
    let d2 = after_item(d1, r1[0]);
    let d3 = after_item(d2, r2[0]);
    let d4 = after_item(d3, r3[0]);
    let d5 = after_item(d4, r4[0]);
    assert(reads_back(d1, r1));
    assert(reads_back(d2, r2));
    assert(reads_back(d3, r3));
    assert(reads_back(d4, r4));
    assert(after_items(d5, r4.drop_first()) == d5);
    assert(after_items(d4, r4) == d5);
    assert(after_items(d3, r3) == d5);
    assert(after_items(d2, r2) == d5);
    assert(after_items(d1, r1) == d5);
    assert(after_items(d, items) == d5);
    let n = 5 * a[2] + b[2];
    assert(n / 5 == a[2] && n % 5 == b[2]);
}

/// The flag that drops the side channel survives a round trip; 11 bytes are room
/// enough.
pub proof fn law_mid_only_survives_coding(size: int, flag: int)
    requires
        0 <= size <= u32::MAX,
        0 <= flag <= 1,
        11 <= size || !finished(
            with_icdf(encoder_start(size), SILK_STEREO_ONLY_CODE_MID_ICDF@, flag),
        ).error,
    ensures
        ({
            let c = with_icdf(encoder_start(size), SILK_STEREO_ONLY_CODE_MID_ICDF@, flag);
            icdf_symbol(decoder_start(finished(c).buf), SILK_STEREO_ONLY_CODE_MID_ICDF@) == flag
        }),
{
    let items = seq![Item::Symbol(SILK_STEREO_ONLY_CODE_MID_ICDF@, flag)];
    lemma_stereo_only_code_mid_icdf();
    let c = item_written(encoder_start(size), items[0]);
    assert(items.drop_first().len() == 0);
    assert(written(c, items.drop_first()) == c);
    assert(can_be_coded(items[0]));
    if 11 <= size {
        law_six_bytes_an_item_are_room_enough(size, items);
    }
    law_what_is_written_is_read(size, items);
}

// ---------------------------------------------------------------------------
// Left and right
// ---------------------------------------------------------------------------
proof fn lemma_restored(mid: Seq<i16>, side: int, i: int, p0: int, p1: int)
    requires
        0 <= i,
        i + 2 < mid.len(),
        -32768 <= side <= 32767,
        -32767 <= p0 <= 32767,
        -32767 <= p1 <= 32767,
    ensures
        ({
            let sm = mid[i] + 2 * mid[i + 1] + mid[i + 2];
            let t = 32768 * side + p0 * sm + 4 * (p1 * mid[i + 1]);
            let r = side_restored(mid, side, i, p0, p1);
            -32768 * 32767 <= t <= 32768 * 32767 ==> -17000 <= 32768 * r - t <= 17000
        }),
{
    reveal(side_restored);
    lemma2_to64();
    lemma_wrap_is_word(p0);
    lemma_wrap_is_word(p1);
    let s: int = smoothed(mid, i);
    lemma_wrap_is_word(mid[i] + mid[i + 2] + 2 * mid[i + 1]);
    lemma_wrap_is_word(2 * mid[i + 1]);
    assert(s == mid[i] + 2 * mid[i + 1] + mid[i + 2]);
    lemma_wrap_is_word(s * 512);
    let big: int = s * 512;
    let m: int = mid[i + 1] * 2048;
    lemma_wrap_is_word(m);
    let u: int = big * p0;
    let v: int = m * p1;
    assert(-0x800_0000 * 32767 <= u <= 0x800_0000 * 32767) by (nonlinear_arith)
        requires
            u == big * p0,
            -0x800_0000 <= big <= 0x800_0000,
            -32767 <= p0 <= 32767,
    ;
    assert(-0x800_0000 * 32767 <= v <= 0x800_0000 * 32767) by (nonlinear_arith)
        requires
            v == m * p1,
            -0x800_0000 <= m <= 0x800_0000,
            -32767 <= p1 <= 32767,
    ;
    let ps = p0 * s;
    assert(u == 512 * ps) by (nonlinear_arith)
        requires
            u == big * p0,
            big == s * 512,
            ps == p0 * s,
    ;
    let pm = p1 * mid[i + 1];
    assert(v == 2048 * pm) by (nonlinear_arith)
        requires
            v == m * p1,
            m == mid[i + 1] * 2048,
            pm == p1 * mid[i + 1],
    ;
    let a: int = u / 0x1_0000;
    let b: int = v / 0x1_0000;
    lemma_wrap_is_word(side * 256);
    lemma_wrap_is_word(side * 256 + a);
    lemma_wrap_is_word(side * 256 + a + b);
    let e: int = side * 256 + a + b;
    assert(side_restored(mid, side, i, p0, p1) == sat16((e + 128) / 256));
}

/// Whether `v` is the side channel a sample before `i`: what was sent and what the
/// weights put back, to within a rounding, as far as 16 bits reach.
pub open spec fn is_side(
    mid: Seq<i16>,
    side: Seq<i16>,
    plan: FramePlan,
    i: int,
    v: int,
) -> bool {
    let sm = mid[i - 2] + 2 * mid[i - 1] + mid[i];
    let t = 32768 * side[i - 1] + plan.pred_q13@[0] * sm + 4 * (plan.pred_q13@[1] * mid[i - 1]);
    -32768 * 32767 <= t <= 32768 * 32767 ==> -17000 <= 32768 * v - t <= 17000
}

/// Left is mid with the side channel added, and right is mid with it taken off. The
/// side channel is what was sent, with the first weight's share of the mid channel
/// smoothed over three samples and the second's of the mid channel itself put back,
/// weights in Q13. Both channels come a sample late, for the smoothing. This holds
/// from 8 ms on, up to where the weights of the frame before are led over.
#[verifier::spinoff_prover]
#[verifier::rlimit(60)]
pub proof fn law_left_is_mid_and_side_and_right_is_mid_less_side(
    s: SilkDecoder,
    output: Seq<i16>,
    side: Seq<i16>,
    n: int,
    plan: FramePlan,
    next: SilkDecoder,
    i: int,
)
    requires
        stereo_end(s, output, side, n, plan, next),
        s.produce_lr,
        s.channels() == 2,
        s.channel_state@[0].fs_khz == 8 || s.channel_state@[0].fs_khz == 12
            || s.channel_state@[0].fs_khz == 16,
        plan_valid(plan),
        8 * s.channel_state@[0].fs_khz <= i < n <= 320,
        n <= output.len(),
        n <= side.len(),
    ensures
        exists|v: int|
            {
                &&& #[trigger] is_side(output, side, plan, i, v)
                &&& next.l_out@[i] == sat16(output[i - 1] + v)
                &&& next.r_out@[i] == sat16(output[i - 1] - v)
            },
{
    let m = stereo_buffer(s.s_stereo_mid@, output, n);
    let d = stereo_buffer(s.s_stereo_side@, side, n);
    let fs = s.channel_state@[0].fs_khz as int;
    let v = received_side(m, d, s.s_stereo_pred_prev_q13@, plan.pred_q13@, fs, i);
    assert(-27464 <= plan.pred_q13@[0] <= 27464 && -27464 <= plan.pred_q13@[1] <= 27464);
    lemma_restored(m, d[i + 1] as int, i, plan.pred_q13@[0] as int, plan.pred_q13@[1] as int);
    assert(m[i + 1] == output[i - 1] && m[i] == output[i - 2] && m[i + 2] == output[i] && d[i + 1]
        == side[i - 1]);
    assert(v == side_restored(
        m,
        d[i + 1] as int,
        i,
        plan.pred_q13@[0] as int,
        plan.pred_q13@[1] as int,
    ));
    assert(is_side(output, side, plan, i, v));
    assert(next.l_out@[i] == sat16(output[i - 1] + v));
    assert(next.r_out@[i] == sat16(output[i - 1] - v));
}

} // verus!
