//! What decoding a packet is for: which layers run, in which order, how a loss is
//! bridged, and where the samples of each channel go.

use vstd::prelude::*;

use crate::config::OpusMode;
use crate::decoder::{
    blend_step, can_recover, conceal_step, concealment_of, due, five_ms, interleaved, mode_before,
    recoverable, recovery_of, redundant_step, silk_frames, steps_of, work_of, Concealment,
    LayerStep, OpusDecoder, PacketWork, RecoveryWork, Redundancy, HYBRID_START_BAND,
};
use crate::packet::is_opus_rate;
use crate::repacketizer::packet_sizes;
use crate::toc::spec_celt_endband;

verus! {

// ---------------------------------------------------------------------------
// The channels
// ---------------------------------------------------------------------------
/// Two channels stand side by side: the left one's sample `i` is at twice `i`
/// behind `base`, the right one's next to it, as far as whole pairs fit; all else
/// stays as it was.
pub proof fn law_channels_stand_side_by_side(
    out: Seq<i16>,
    base: int,
    l: Seq<i16>,
    r: Seq<i16>,
    i: int,
)
    requires
        0 <= base,
        l.len() == r.len(),
    ensures
        interleaved(out, base, l, r).len() == out.len(),
        0 <= i < l.len() && base + 2 * i + 1 < out.len() ==> {
            &&& interleaved(out, base, l, r)[base + 2 * i] == l[i]
            &&& interleaved(out, base, l, r)[base + 2 * i + 1] == r[i]
        },
        0 <= i < base && i < out.len() ==> interleaved(out, base, l, r)[i] == out[i],
        base + 2 * l.len() <= i < out.len() ==> interleaved(out, base, l, r)[i] == out[i],
{
    if 0 <= i < l.len() && base + 2 * i + 1 < out.len() {
        assert((base + 2 * i - base) / 2 == i && (base + 2 * i - base) % 2 == 0);
        assert((base + 2 * i + 1 - base) / 2 == i && (base + 2 * i + 1 - base) % 2 == 1);
    }
}

// ---------------------------------------------------------------------------
// The packet
// ---------------------------------------------------------------------------
proof fn lemma_speech_length(ms: int, rate: int, n: int, sub: int)
    requires
        ms == 10 || ms == 20 || ms == 40 || ms == 60,
        rate == 8_000 || rate == 12_000 || rate == 16_000,
        n == silk_frames(ms),
        sub == ms * rate / 1000 / n,
    ensures
        1000 * (n * sub) == rate * ms,
        n == (ms + 19) / 20,
{
    let p = ms * rate;
    assert(p == 1000 * (p / 1000));
    if ms == 10 || ms == 20 {
        assert(n * sub == sub);
        assert(sub == p / 1000 / 1);
    } else if ms == 40 {
        assert(p == 40 * rate);
        assert(sub == p / 1000 / 2);
        assert(n * sub == 2 * sub);
    } else {
        assert(p == 60 * rate);
        assert(sub == p / 1000 / 3);
        assert(n * sub == 3 * sub);
    }
    assert(p == rate * ms) by (nonlinear_arith)
        requires
            p == ms * rate,
    ;
}

/// The first byte of a packet says all about its frames: below 96 the speech layer
/// alone, below 128 both layers, from there on the transform layer alone; its
/// bandwidth and its duration by the table of configurations; and two channels
/// where its third lowest bit is set.
pub proof fn law_the_first_byte_says_all(a: OpusDecoder, input: Seq<u8>, w: PacketWork)
    requires
        work_of(a, input, w),
        is_opus_rate(a.sampling_rate as int),
    ensures
        ({
            let t: int = input[0] as int;
            let c = t / 8;
            &&& w.mode == if t < 96 {
                OpusMode::SilkOnly
            } else if t < 128 {
                OpusMode::Hybrid
            } else {
                OpusMode::CeltOnly
            }
            &&& w.packet_channels == 1 + t / 4 % 2
            &&& w.bandwidth is Narrowband <==> c <= 3 || 16 <= c <= 19
            &&& w.bandwidth is Mediumband <==> 4 <= c <= 7
            &&& w.bandwidth is Wideband <==> 8 <= c <= 11 || 20 <= c <= 23
            &&& w.bandwidth is Superwideband <==> c == 12 || c == 13 || 24 <= c <= 27
            &&& w.bandwidth is Fullband <==> c == 14 || c == 15 || 28 <= c <= 31
            &&& c < 12 ==> w.frame_ms == if c % 4 == 3 {
                60int
            } else if c % 4 == 2 {
                40
            } else if c % 4 == 1 {
                20
            } else {
                10
            }
            &&& 12 <= c < 16 ==> w.frame_ms == if c % 2 == 1 {
                20int
            } else {
                10
            }
            &&& c >= 16 ==> 400 * w.sub_frame_size == a.sampling_rate * if c % 4 == 3 {
                8int
            } else if c % 4 == 2 {
                4
            } else if c % 4 == 1 {
                2
            } else {
                1
            }
            &&& c < 16 ==> 1000 * w.sub_frame_size == a.sampling_rate * w.frame_ms
        }),
        w.mode != OpusMode::CeltOnly ==> {
            // The speech layer runs at its own rate and fills the frame.
            &&& w.internal_rate == if w.bandwidth is Narrowband {
                8_000int
            } else if w.bandwidth is Mediumband {
                12_000
            } else {
                16_000
            }
            &&& 1000 * (w.n_silk * w.internal_sub) == w.internal_rate * w.frame_ms
            &&& w.n_silk == (w.frame_ms + 19) / 20
        },
        w.silk_lr <==> w.mode != OpusMode::CeltOnly && a.channels == 2 && w.packet_channels == 2,
{
    let t: int = input[0] as int;
    let c = t / 8;
    assert(0 <= c < 32);
    assert(a.sampling_rate == 8_000 || a.sampling_rate == 12_000 || a.sampling_rate == 16_000
        || a.sampling_rate == 24_000 || a.sampling_rate == 48_000);
    if c < 16 {
        lemma_speech_length(
            w.frame_ms as int,
            w.internal_rate as int,
            w.n_silk as int,
            w.internal_sub as int,
        );
    }
}

/// A packet leads over from another mode exactly where the transform layer alone
/// takes over from a frame with speech that no redundant frame has bridged, or a
/// frame with speech from the transform layer alone; and the transform layer starts
/// over exactly where it is used, the mode is another than before and nothing has
/// made it ready.
pub proof fn law_a_switch_of_modes_is_bridged(a: OpusDecoder, input: Seq<u8>, w: PacketWork)
    requires
        work_of(a, input, w),
    ensures
        a.prev_mode is None ==> !w.transition && !w.reset_celt,
        a.prev_mode == Some(w.mode) ==> !w.transition && !w.reset_celt,
        a.prev_mode == Some(OpusMode::CeltOnly) && w.mode != OpusMode::CeltOnly ==> w.transition,
        a.prev_mode is Some && a.prev_mode != Some(OpusMode::CeltOnly) && w.mode
            == OpusMode::CeltOnly ==> w.transition == !a.prev_redundancy && w.reset_celt
            == !a.prev_redundancy,
        a.prev_mode is Some && a.prev_mode != Some(OpusMode::CeltOnly) && w.mode
            != OpusMode::CeltOnly ==> !w.transition,
        w.mode == OpusMode::SilkOnly ==> !w.reset_celt,
        w.mode == OpusMode::Hybrid && a.prev_mode is Some && a.prev_mode != Some(w.mode)
            ==> w.reset_celt == !a.prev_redundancy,
{
}

// ---------------------------------------------------------------------------
// The transform layer's work
// ---------------------------------------------------------------------------
proof fn lemma_due(steps: Seq<LayerStep>, b: bool, step: LayerStep)
    ensures
        forall|x: LayerStep|
            #[trigger] (steps + due(b, step)).contains(x) <==> steps.contains(x) || (b && x
                == step),
{
    let more = steps + due(b, step);
    assert forall|x: LayerStep| #[trigger] more.contains(x) <==> steps.contains(x) || (b && x
        == step) by {
        if more.contains(x) {
            let i = choose|i: int| 0 <= i < more.len() && more[i] == x;
            if i < steps.len() {
                assert(steps[i] == x);
            }
        }
        if steps.contains(x) {
            let i = choose|i: int| 0 <= i < steps.len() && steps[i] == x;
            assert(more[i] == x);
        }
        if b && x == step {
            assert(more[steps.len() as int] == x);
        }
    }
}

/// When a step comes in a frame.
pub open spec fn turn_of(step: LayerStep) -> int {
    match step {
        LayerStep::ConcealTransition { .. } => 0,
        LayerStep::Redundant { reset, .. } => if reset {
            3
        } else {
            1
        },
        LayerStep::FadeOut { .. } => 2,
        LayerStep::Decode { .. } => 2,
        LayerStep::FadeFromRedundant { .. } => 4,
        LayerStep::FadeIntoRedundant { .. } => 4,
        LayerStep::BlendTransition { .. } => 5,
    }
}

/// Whether every step has its turn behind the one in front of it, and all of them
/// before `end`.
pub open spec fn in_turn(steps: Seq<LayerStep>, end: int) -> bool {
    &&& forall|i: int, j: int|
        0 <= i < j < steps.len() ==> turn_of(#[trigger] steps[i]) < turn_of(#[trigger] steps[j])
    &&& forall|i: int| 0 <= i < steps.len() ==> turn_of(#[trigger] steps[i]) < end
}

proof fn lemma_turn(steps: Seq<LayerStep>, b: bool, step: LayerStep, from: int, end: int)
    requires
        in_turn(steps, from),
        from <= end,
        b ==> from <= turn_of(step) < end,
    ensures
        in_turn(steps + due(b, step), end),
{
    let more = steps + due(b, step);
    assert forall|i: int, j: int| 0 <= i < j < more.len() implies turn_of(#[trigger] more[i])
        < turn_of(#[trigger] more[j]) by {
        assert(more[i] == steps[i]);
        if j < steps.len() {
            assert(more[j] == steps[j]);
        }
    }
    assert forall|i: int| 0 <= i < more.len() implies turn_of(#[trigger] more[i]) < end by {
        if i < steps.len() {
            assert(more[i] == steps[i]);
        }
    }
}

/// The frame's own step.
spec fn own_step(d: OpusDecoder, w: PacketWork, frame: int, red: Redundancy) -> LayerStep {
    if w.mode == OpusMode::SilkOnly {
        LayerStep::FadeOut {
            channels: w.packet_channels,
            samples: (five_ms(d.sampling_rate as int) / 2) as usize,
            end_band: spec_celt_endband(w.bandwidth),
        }
    } else {
        LayerStep::Decode {
            reset: w.reset_celt && frame == 0,
            channels: w.packet_channels,
            total_bits: if w.mode == OpusMode::CeltOnly {
                (8 * w.frames@[frame].1) as usize
            } else {
                (8 * red.main_len) as usize
            },
            samples: w.sub_frame_size,
            start_band: if w.mode == OpusMode::CeltOnly {
                0
            } else {
                HYBRID_START_BAND
            },
            end_band: w.end_band,
        }
    }
}

/// Whether a frame's own step is due.
spec fn own_is_due(d: OpusDecoder, w: PacketWork, frame: int, red: Redundancy) -> bool {
    w.mode == OpusMode::SilkOnly ==> d.sampling_rate == 48_000 && mode_before(w, frame) == Some(
        OpusMode::Hybrid,
    ) && !(red.present && red.celt_to_silk && d.prev_redundancy)
}

#[verifier::spinoff_prover]
#[verifier::rlimit(60)]
proof fn lemma_steps(d: OpusDecoder, w: PacketWork, frame: int, red: Redundancy)
    ensures
        ({
            let steps = steps_of(d, w, frame, red);
            let half = (five_ms(d.sampling_rate as int) / 2) as usize;
            let celt = w.mode == OpusMode::CeltOnly;
            let first = w.transition && frame == 0 && (celt || !red.present);
            let last = w.transition && if celt {
                frame + 1 == w.frames@.len()
            } else {
                frame == 0 && !red.present
            };
            let bridged = red.present && d.sampling_rate == 48_000 && !celt;
            &&& in_turn(steps, 6)
            &&& forall|x: LayerStep|
                #[trigger] steps.contains(x) <==> {
                    ||| first && x == conceal_step(d, w)
                    ||| bridged && red.celt_to_silk && x == redundant_step(d, w, red, false)
                    ||| own_is_due(d, w, frame, red) && x == own_step(d, w, frame, red)
                    ||| bridged && !red.celt_to_silk && x == redundant_step(d, w, red, true)
                    ||| bridged && red.celt_to_silk && x == (LayerStep::FadeFromRedundant {
                        samples: half,
                    })
                    ||| bridged && !red.celt_to_silk && x == (LayerStep::FadeIntoRedundant {
                        samples: half,
                    })
                    ||| last && x == blend_step(d, w)
                }
        }),
{
    let half = (five_ms(d.sampling_rate as int) / 2) as usize;
    let celt = w.mode == OpusMode::CeltOnly;
    let first = w.transition && frame == 0 && (celt || !red.present);
    let last = w.transition && if celt {
        frame + 1 == w.frames@.len()
    } else {
        frame == 0 && !red.present
    };
    let bridged = red.present && d.sampling_rate == 48_000 && !celt;
    let s0 = Seq::<LayerStep>::empty();
    assert(in_turn(s0, 0));
    let s1 = s0 + due(first, conceal_step(d, w));
    lemma_due(s0, first, conceal_step(d, w));
    lemma_turn(s0, first, conceal_step(d, w), 0, 1);
    if celt {
        let own = own_step(d, w, frame, red);
        let s2 = s1 + due(true, own);
        lemma_due(s1, true, own);
        lemma_turn(s1, true, own, 1, 3);
        lemma_due(s2, last, blend_step(d, w));
        lemma_turn(s2, last, blend_step(d, w), 3, 6);
        assert(steps_of(d, w, frame, red) == s2 + due(last, blend_step(d, w)));
    } else {
        let b2 = bridged && red.celt_to_silk;
        let before = redundant_step(d, w, red, false);
        let s2 = s1 + due(b2, before);
        lemma_due(s1, b2, before);
        lemma_turn(s1, b2, before, 1, 2);
        let b3 = own_is_due(d, w, frame, red);
        let own = own_step(d, w, frame, red);
        let s3 = s2 + due(b3, own);
        lemma_due(s2, b3, own);
        lemma_turn(s2, b3, own, 2, 3);
        let b4 = bridged && !red.celt_to_silk;
        let behind = redundant_step(d, w, red, true);
        let s4 = s3 + due(b4, behind);
        lemma_due(s3, b4, behind);
        lemma_turn(s3, b4, behind, 3, 4);
        let from = LayerStep::FadeFromRedundant { samples: half };
        let s5 = s4 + due(b2, from);
        lemma_due(s4, b2, from);
        let into = LayerStep::FadeIntoRedundant { samples: half };
        let s6 = s5 + due(b4, into);
        lemma_due(s5, b4, into);
        if b2 {
            lemma_turn(s4, b2, from, 4, 5);
            lemma_turn(s5, b4, into, 5, 5);
        } else {
            lemma_turn(s4, b2, from, 4, 4);
            lemma_turn(s5, b4, into, 4, 5);
        }
        lemma_due(s6, last, blend_step(d, w));
        lemma_turn(s6, last, blend_step(d, w), 5, 6);
        assert(steps_of(d, w, frame, red) == s6 + due(last, blend_step(d, w)));
    }
}

/// Every frame gets the layers of its mode, once and for its whole length: a frame
/// of the transform layer alone is decoded by it from the first band on, a hybrid
/// one from band 17 on, above the speech layer, and one of the speech layer alone
/// not at all. All of a frame's steps come in their turn: what is concealed for a
/// switch of modes first and blended in last, a redundant frame of the mode before
/// in front of the frame's own work and one of the mode to come behind it.
pub proof fn law_every_frame_gets_its_layers(
    d: OpusDecoder,
    w: PacketWork,
    frame: int,
    red: Redundancy,
)
    ensures
        ({
            let steps = steps_of(d, w, frame, red);
            &&& forall|i: int, j: int|
                0 <= i < j < steps.len() ==> turn_of(#[trigger] steps[i]) < turn_of(
                    #[trigger] steps[j],
                )
            &&& w.mode == OpusMode::SilkOnly ==> forall|i: int|
                0 <= i < steps.len() ==> (#[trigger] steps[i]) !is Decode
            &&& w.mode != OpusMode::SilkOnly ==> exists|i: int|
                0 <= i < steps.len() && (#[trigger] steps[i]) is Decode
            &&& forall|i: int|
                0 <= i < steps.len() ==> ((#[trigger] steps[i]) matches LayerStep::Decode {
                    reset,
                    channels,
                    total_bits,
                    samples,
                    start_band,
                    end_band,
                } ==> {
                    &&& samples == w.sub_frame_size
                    &&& channels == w.packet_channels
                    &&& end_band == w.end_band
                    &&& reset == (w.reset_celt && frame == 0)
                    &&& w.mode == OpusMode::CeltOnly ==> start_band == 0
                    &&& w.mode == OpusMode::Hybrid ==> start_band == 17
                })
        }),
{
    lemma_steps(d, w, frame, red);
    let steps = steps_of(d, w, frame, red);
    assert forall|i: int| 0 <= i < steps.len() implies steps.contains(#[trigger] steps[i]) by {}
    if w.mode != OpusMode::SilkOnly {
        assert(steps.contains(own_step(d, w, frame, red)));
        let i = choose|i: int|
            0 <= i < steps.len() && steps[i] == own_step(d, w, frame, red);
        assert(steps[i] is Decode);
    }
}

/// A redundant frame is used where it is there, at the full rate, and only there.
/// One of the mode before is decoded as the layer stands, in front of all else, and
/// faded from; one of the mode to come is decoded on a layer that starts over, and
/// faded into. It takes the place of a concealed transition.
pub proof fn law_a_redundant_frame_is_used_in_its_place(
    d: OpusDecoder,
    w: PacketWork,
    frame: int,
    red: Redundancy,
)
    requires
        w.mode != OpusMode::CeltOnly,
    ensures
        ({
            let steps = steps_of(d, w, frame, red);
            let used = red.present && d.sampling_rate == 48_000;
            &&& (exists|i: int| 0 <= i < steps.len() && (#[trigger] steps[i]) is Redundant) == used
            &&& (exists|i: int|
                0 <= i < steps.len() && (#[trigger] steps[i]) is FadeFromRedundant) == (used
                && red.celt_to_silk)
            &&& (exists|i: int|
                0 <= i < steps.len() && (#[trigger] steps[i]) is FadeIntoRedundant) == (used
                && !red.celt_to_silk)
            &&& forall|i: int|
                0 <= i < steps.len() ==> ((#[trigger] steps[i]) matches LayerStep::Redundant {
                    reset,
                    bytes,
                    channels,
                    samples,
                    end_band,
                } ==> {
                    &&& reset == !red.celt_to_silk
                    &&& bytes == red.bytes
                    &&& channels == w.packet_channels
                    &&& 200 * samples == d.sampling_rate
                })
            &&& (exists|i: int|
                0 <= i < steps.len() && (#[trigger] steps[i]) is ConcealTransition) == (
            w.transition && frame == 0 && !red.present)
            &&& (exists|i: int|
                0 <= i < steps.len() && (#[trigger] steps[i]) is BlendTransition) == (
            w.transition && frame == 0 && !red.present)
        }),
{
    lemma_steps(d, w, frame, red);
    let steps = steps_of(d, w, frame, red);
    let half = (five_ms(d.sampling_rate as int) / 2) as usize;
    let used = red.present && d.sampling_rate == 48_000;
    assert forall|i: int| 0 <= i < steps.len() implies steps.contains(#[trigger] steps[i]) by {}
    if used && red.celt_to_silk {
        assert(steps.contains(redundant_step(d, w, red, false)));
        assert(steps.contains(LayerStep::FadeFromRedundant { samples: half }));
    }
    if used && !red.celt_to_silk {
        assert(steps.contains(redundant_step(d, w, red, true)));
        assert(steps.contains(LayerStep::FadeIntoRedundant { samples: half }));
    }
    if w.transition && frame == 0 && !red.present {
        assert(steps.contains(conceal_step(d, w)));
        assert(steps.contains(blend_step(d, w)));
    }
}

// ---------------------------------------------------------------------------
// Losses
// ---------------------------------------------------------------------------
/// A lost frame is concealed by what was heard last: silence before the first
/// packet, the transform layer behind a frame of its own or a redundant one, the
/// speech layer otherwise, with the transform layer for the high bands behind a
/// hybrid frame. The speech layer conceals whole frames of 10 ms or more, at its own
/// rate, and what they come to at the output rate is as long.
pub proof fn law_a_loss_is_concealed_by_what_was_heard_last(d: OpusDecoder, frame_size: int)
    requires
        is_opus_rate(d.sampling_rate as int),
        0 <= frame_size <= d.sampling_rate / 50,
        d.silk_internal_rate == 8_000 || d.silk_internal_rate == 12_000 || d.silk_internal_rate
            == 16_000,
    ensures
        d.prev_mode is None ==> concealment_of(d, frame_size) is Silence,
        d.prev_mode is Some && (d.prev_redundancy || d.prev_mode == Some(OpusMode::CeltOnly))
            ==> concealment_of(d, frame_size) == (Concealment::Celt { end_band: d.celt_end_band }),
        !d.prev_redundancy && (d.prev_mode == Some(OpusMode::SilkOnly) || d.prev_mode == Some(
            OpusMode::Hybrid,
        )) ==> (concealment_of(d, frame_size) matches Concealment::Silk {
            frame_ms,
            n_silk,
            internal_sub,
            samples,
            silk_lr,
            high_bands,
        } && {
            &&& 10 <= frame_ms <= 20
            &&& n_silk == 1
            &&& 1000 * internal_sub == frame_ms * d.silk_internal_rate
            &&& 1000 * samples == frame_ms * d.sampling_rate
            &&& 100 * frame_size >= d.sampling_rate && 1000 * frame_size % d.sampling_rate as int
                == 0 ==> samples == frame_size
            &&& silk_lr == (d.channels == 2 && d.silk_dec.n_channels_internal == 2)
            &&& high_bands == if d.prev_mode == Some(OpusMode::Hybrid) {
                Some(d.celt_end_band)
            } else {
                None
            }
        }),
{
    let rate = d.sampling_rate as int;
    let want = frame_size * 1000 / rate;
    assert(rate == 8_000 || rate == 12_000 || rate == 16_000 || rate == 24_000 || rate == 48_000);
    assert(0 <= want <= 20);
}

/// A lost frame is recovered from the packet behind it only where that packet and
/// the frame before the loss both have a speech layer, and only whole: what is
/// concealed in front of it and what is recovered make up the frame, and what is
/// recovered is as long as a frame of that packet, out of its first frame.
pub proof fn law_recovery_makes_up_the_frame(
    d: OpusDecoder,
    packet: Seq<u8>,
    frame_size: int,
    w: RecoveryWork,
)
    requires
        is_opus_rate(d.sampling_rate as int),
        packet.len() > 0,
        packet_sizes(packet, false) is Some,
        recovery_of(d, packet, w),
    ensures
        packet[0] >= 128 ==> !can_recover(d, packet, frame_size),
        d.prev_mode == Some(OpusMode::CeltOnly) ==> !can_recover(d, packet, frame_size),
        packet[0] < 128 && d.prev_mode != Some(OpusMode::CeltOnly) ==> can_recover(
            d,
            packet,
            frame_size,
        ) == (w.samples <= frame_size),
        w.samples == recoverable(packet, d.sampling_rate as int),
        packet[0] < 128 ==> {
            &&& 1000 * w.samples == w.frame_ms * d.sampling_rate
            &&& 1000 * (w.n_silk * w.internal_sub) == w.internal_rate * w.frame_ms
            &&& w.frame.0 == (packet_sizes(packet, false)->0).1
            &&& w.frame.1 == (packet_sizes(packet, false)->0).0[0]
            &&& w.high_bands is Some == (packet[0] >= 96)
        },
{
    let t: int = packet[0] as int;
    let c = t / 8;
    assert(0 <= c < 32);
    let rate = d.sampling_rate as int;
    assert(rate == 8_000 || rate == 12_000 || rate == 16_000 || rate == 24_000 || rate == 48_000);
    if c < 16 {
        lemma_speech_length(
            w.frame_ms as int,
            w.internal_rate as int,
            w.n_silk as int,
            w.internal_sub as int,
        );
    }
}

} // verus!
