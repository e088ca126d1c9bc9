//! What the way down to the internal rate keeps: the order of time, and the signal
//! across calls.

use vstd::prelude::*;

use crate::silk::macros::{rshift_round, sat16};
use crate::silk::resampler::{
    batch_len, down_batch, down_batch_next, down_buf, down_plan, is_down_pair,
    law_lowering_keeps_the_duration, lowered, lowered_next, lowpass_state, taps_down, taps_paired,
    taps_up, DownState,
};

verus! {

proof fn lemma_lowpass_of_prefix(
    s: (int, int),
    x: Seq<i16>,
    z: Seq<i16>,
    a0: int,
    a1: int,
    n: int,
)
    requires
        forall|i: int| 0 <= i < n ==> #[trigger] x[i] == z[i],
    ensures
        lowpass_state(s, x, a0, a1, n) == lowpass_state(s, z, a0, a1, n),
    decreases n,
{
    if n > 0 {
        lemma_lowpass_of_prefix(s, x, z, a0, a1, n - 1);
        assert(x[n - 1] == z[n - 1]);
    }
}

proof fn lemma_lowpass_in_two(
    s: (int, int),
    p: Seq<i16>,
    q: Seq<i16>,
    a0: int,
    a1: int,
    n: int,
)
    requires
        0 <= n <= q.len(),
    ensures
        lowpass_state(s, p + q, a0, a1, p.len() + n) == lowpass_state(
            lowpass_state(s, p, a0, a1, p.len() as int),
            q,
            a0,
            a1,
            n,
        ),
    decreases n,
{
    if n == 0 {
        lemma_lowpass_of_prefix(s, p + q, p, a0, a1, p.len() as int);
    } else {
        lemma_lowpass_in_two(s, p, q, a0, a1, n - 1);
        assert((p + q)[p.len() + n - 1] == q[n - 1]);
    }
}

proof fn lemma_taps_alike(
    acc: int,
    x: Seq<i32>,
    b: int,
    z: Seq<i32>,
    c: int,
    coefs: Seq<i16>,
    row: int,
    n: int,
)
    requires
        forall|j: int| 0 <= j < n ==> #[trigger] x[b + j] == z[c + j],
    ensures
        taps_up(acc, x, b, coefs, row, n) == taps_up(acc, z, c, coefs, row, n),
    decreases n,
{
    if n > 0 {
        lemma_taps_alike(acc, x, b, z, c, coefs, row, n - 1);
        assert(x[b + (n - 1)] == z[c + (n - 1)]);
    }
}

proof fn lemma_taps_alike_downwards(
    acc: int,
    x: Seq<i32>,
    b: int,
    z: Seq<i32>,
    c: int,
    coefs: Seq<i16>,
    row: int,
    n: int,
)
    requires
        forall|j: int| 0 <= j < n ==> #[trigger] x[b - j] == z[c - j],
    ensures
        taps_down(acc, x, b, coefs, row, n) == taps_down(acc, z, c, coefs, row, n),
    decreases n,
{
    if n > 0 {
        lemma_taps_alike_downwards(acc, x, b, z, c, coefs, row, n - 1);
        assert(x[b - (n - 1)] == z[c - (n - 1)]);
    }
}

proof fn lemma_taps_alike_paired(
    x: Seq<i32>,
    b: int,
    z: Seq<i32>,
    c: int,
    coefs: Seq<i16>,
    order: int,
    n: int,
)
    requires
        0 <= n <= order,
        forall|j: int| 0 <= j < order ==> #[trigger] x[b + j] == z[c + j],
    ensures
        taps_paired(x, b, coefs, order, n) == taps_paired(z, c, coefs, order, n),
    decreases n,
{
    if n > 0 {
        lemma_taps_alike_paired(x, b, z, c, coefs, order, n - 1);
        assert(x[b + (n - 1)] == z[c + (n - 1)]);
        assert(x[b + (order - n)] == z[c + (order - n)]);
    }
}

/// The signal at time `k` of the output rate, out of the filtered signal behind as
/// many samples as the taps span.
pub open spec fn lowered_at(buf: Seq<i32>, k: int, fs_in: int, fs_out: int) -> int {
    let plan = down_plan(fs_in, fs_out);
    let b = fs_in * k / fs_out;
    let res = if plan.order == 18 {
        let ind = fs_in * k % fs_out * plan.fracs / fs_out;
        taps_down(
            taps_up(0, buf, b, plan.coefs, 2 + 9 * ind, 9),
            buf,
            b + 17,
            plan.coefs,
            2 + 9 * (plan.fracs - 1 - ind),
            9,
        )
    } else {
        taps_paired(buf, b, plan.coefs, plan.order, plan.order / 2)
    };
    sat16(rshift_round(res, 6))
}

/// A whole number of milliseconds brought down, with no batches.
pub open spec fn lowered_in_one_piece(
    st: DownState,
    x: Seq<i16>,
    fs_in: int,
    fs_out: int,
) -> Seq<i16> {
    Seq::new(
        (x.len() as int / fs_in * fs_out) as nat,
        |k: int|
            lowered_at(down_buf(st, x, down_plan(fs_in, fs_out)), k, fs_in, fs_out) as i16,
    )
}

proof fn lemma_down_sizes(fs_in: int, fs_out: int)
    requires
        is_down_pair(fs_in, fs_out),
    ensures
        ({
            let plan = down_plan(fs_in, fs_out);
            &&& plan.order == 18 || plan.order == 24 || plan.order == 36
            &&& plan.order == 18 ==> (2 * fs_in == 3 * fs_out && plan.fracs == 2) || (fs_in == 16
                && fs_out == 12 && plan.fracs == 3)
            &&& plan.order != 18 ==> fs_in == 2 * fs_out || fs_in == 3 * fs_out || fs_in == 4
                * fs_out || fs_in == 6 * fs_out
        }),
{
}

proof fn lemma_down_time(fs_in: int, fs_out: int, k: int)
    requires
        is_down_pair(fs_in, fs_out),
        0 <= k < 480,
    ensures
        ({
            let plan = down_plan(fs_in, fs_out);
            let at = k * plan.inc;
            &&& at / 0x1_0000 == fs_in * k / fs_out
            &&& plan.order == 18 ==> at % 0x1_0000 * plan.fracs / 0x1_0000 == fs_in * k % fs_out
                * plan.fracs / fs_out
        }),
{
    let plan = down_plan(fs_in, fs_out);
    let inc = plan.inc;
    assert(k * inc == inc * k) by (nonlinear_arith);
    if fs_in == 16 && fs_out == 12 {
        assert(inc == 87382);
        assert(inc * k == 87382 * k);
        assert(fs_in * k == 16 * k);
        let q = k / 3;
        let r = k % 3;
        assert(k == 3 * q + r);
        assert(87382 * k == 0x1_0000 * (4 * q) + (2 * q + 87382 * r));
        assert(16 * k == 12 * (4 * q) + 16 * r);
        if r == 0 {
            assert(16 * k / 12 == 4 * q && 16 * k % 12 == 0);
        } else if r == 1 {
            assert(16 * k / 12 == 4 * q + 1 && 16 * k % 12 == 4);
        } else {
            assert(16 * k / 12 == 4 * q + 2 && 16 * k % 12 == 8);
        }
        let u = 87382 * k % 0x1_0000;
        let v = 16 * k % 12;
        assert(plan.fracs == 3);
        assert(u * plan.fracs == 3 * u && v * plan.fracs == 3 * v);
        assert(87382 * k / 0x1_0000 == 16 * k / 12);
        assert(3 * u / 0x1_0000 == r && 3 * v / 12 == r);
        assert(fs_in * k % fs_out == v && fs_in * k / fs_out == 16 * k / 12);
        assert(v * plan.fracs / fs_out == r);
    } else if 2 * fs_in == 3 * fs_out {
        assert(inc == 98304) by {
            assert((12 * 0x1_0000 + 8 - 1) / 8 == 98304int && (24 * 0x1_0000 + 16 - 1) / 16
                == 98304int);
        }
        assert(inc * k == 98304 * k);
        let q = k / 2;
        let r = k % 2;
        assert(k == 2 * q + r);
        let u = 98304 * k % 0x1_0000;
        assert(plan.fracs == 2);
        assert(u * plan.fracs == 2 * u);
        assert(98304 * k / 0x1_0000 == 3 * q + r && 2 * u / 0x1_0000 == r);
        if fs_out == 8 {
            let v = 12 * k % 8;
            assert(fs_in * k == 12 * k);
            assert(12 * k == 8 * (3 * q) + 12 * r);
            assert(12 * k / 8 == 3 * q + r && 2 * v / 8 == r);
            assert(fs_in * k % fs_out == v && fs_in * k / fs_out == 12 * k / 8);
            assert(v * plan.fracs == 2 * v);
            assert(v * plan.fracs / fs_out == r);
        } else {
            let v = 24 * k % 16;
            assert(fs_in * k == 24 * k);
            assert(24 * k == 16 * (3 * q) + 24 * r);
            assert(24 * k / 16 == 3 * q + r && 2 * v / 16 == r);
            assert(fs_in * k % fs_out == v && fs_in * k / fs_out == 24 * k / 16);
            assert(v * plan.fracs == 2 * v);
            assert(v * plan.fracs / fs_out == r);
        }
    } else {
        let m = fs_in / fs_out;
        assert(fs_in == m * fs_out);
        assert(inc == m * 0x1_0000) by {
            assert((m * fs_out * 0x1_0000 + fs_out - 1) / fs_out == m * 0x1_0000)
                by (nonlinear_arith)
                requires
                    fs_out >= 1,
                    m >= 0,
            ;
        }
        assert(inc * k == 0x1_0000 * (m * k)) by (nonlinear_arith)
            requires
                inc == m * 0x1_0000,
        ;
        assert(fs_in * k / fs_out == m * k) by (nonlinear_arith)
            requires
                fs_in == m * fs_out,
                fs_out > 0,
        ;
    }
}

proof fn lemma_down_batch(st: DownState, x: Seq<i16>, fs_in: int, fs_out: int, ms: int)
    requires
        is_down_pair(fs_in, fs_out),
        0 <= ms <= 10,
        x.len() == ms * fs_in,
    ensures
        down_batch(st, x, down_plan(fs_in, fs_out)) == lowered_in_one_piece(
            st,
            x,
            fs_in,
            fs_out,
        ),
{
    let plan = down_plan(fs_in, fs_out);
    law_lowering_keeps_the_duration(st, x, fs_in, fs_out, ms);
    assert(ms * fs_in <= 10 * fs_in && 0 <= ms * fs_out <= 160 && ms * fs_in / fs_in == ms && ms
        * fs_in >= 0) by (nonlinear_arith)
        requires
            0 <= ms <= 10,
            fs_in >= 8,
            0 <= fs_out <= 16,
    ;
    assert(x.take(x.len() as int) =~= x);
    let y = down_batch(st, x, plan);
    assert(lowered(st, x, 10 * fs_in, plan) == y);
    let w = lowered_in_one_piece(st, x, fs_in, fs_out);
    assert forall|k: int| 0 <= k < ms * fs_out implies #[trigger] y[k] == w[k] by {
        lemma_down_time(fs_in, fs_out, k);
    }
    assert(y =~= w);
}

/// Whether a state fits the way down: the samples that its taps span.
pub open spec fn spans(st: DownState, fs_in: int, fs_out: int) -> bool {
    st.fir.len() == down_plan(fs_in, fs_out).order
}

proof fn lemma_down_state_in_two(
    st: DownState,
    p: Seq<i16>,
    q: Seq<i16>,
    fs_in: int,
    fs_out: int,
)
    requires
        is_down_pair(fs_in, fs_out),
        spans(st, fs_in, fs_out),
    ensures
        ({
            let plan = down_plan(fs_in, fs_out);
            let mid = down_batch_next(st, p, plan);
            &&& spans(mid, fs_in, fs_out)
            &&& down_buf(st, p + q, plan).take(p.len() as int + plan.order) == down_buf(st, p, plan)
            &&& down_buf(st, p + q, plan).skip(p.len() as int) == down_buf(mid, q, plan)
            &&& down_batch_next(st, p + q, plan) == down_batch_next(mid, q, plan)
        }),
{
    lemma_down_sizes(fs_in, fs_out);
    let plan = down_plan(fs_in, fs_out);
    let a0 = plan.coefs[0] as int;
    let a1 = plan.coefs[1] as int;
    let n = p.len() as int;
    let mid = down_batch_next(st, p, plan);
    let all = down_buf(st, p + q, plan);
    let first = down_buf(st, p, plan);
    let second = down_buf(mid, q, plan);
    assert forall|i: int| 0 <= i < n + plan.order implies all[i] == first[i] by {
        if i >= plan.order {
            let k = i - plan.order;
            lemma_lowpass_of_prefix(st.iir, p + q, p, a0, a1, k);
            assert((p + q)[k] == p[k]);
        }
    }
    assert(all.take(n + plan.order) =~= first);
    assert forall|i: int| 0 <= i < second.len() implies all[n + i] == second[i] by {
        if i >= plan.order {
            let k = i - plan.order;
            lemma_lowpass_in_two(st.iir, p, q, a0, a1, k);
            assert((p + q)[n + k] == q[k]);
        } else {
            assert(second[i] == first[n + i]);
        }
    }
    assert(all.skip(n) =~= second);
    lemma_lowpass_in_two(st.iir, p, q, a0, a1, q.len() as int);
    assert(down_batch_next(st, p + q, plan).fir =~= down_batch_next(mid, q, plan).fir);
}

proof fn lemma_lowered_alike(
    x: Seq<i32>,
    shift: int,
    z: Seq<i32>,
    k: int,
    j: int,
    fs_in: int,
    fs_out: int,
)
    requires
        is_down_pair(fs_in, fs_out),
        fs_in * k / fs_out == shift + fs_in * j / fs_out,
        fs_in * k % fs_out == fs_in * j % fs_out,
        forall|i: int|
            0 <= i < down_plan(fs_in, fs_out).order ==> #[trigger] x[fs_in * k / fs_out + i]
                == z[fs_in * j / fs_out + i],
    ensures
        lowered_at(x, k, fs_in, fs_out) == lowered_at(z, j, fs_in, fs_out),
{
    lemma_down_sizes(fs_in, fs_out);
    let plan = down_plan(fs_in, fs_out);
    let b = fs_in * k / fs_out;
    let c = fs_in * j / fs_out;
    if plan.order == 18 {
        let ind = fs_in * k % fs_out * plan.fracs / fs_out;
        lemma_taps_alike(0, x, b, z, c, plan.coefs, 2 + 9 * ind, 9);
        assert forall|i: int| 0 <= i < 9 implies #[trigger] x[b + 17 - i] == z[c + 17 - i] by {
            assert(x[b + (17 - i)] == z[c + (17 - i)]);
        }
        lemma_taps_alike_downwards(
            taps_up(0, x, b, plan.coefs, 2 + 9 * ind, 9),
            x,
            b + 17,
            z,
            c + 17,
            plan.coefs,
            2 + 9 * (plan.fracs - 1 - ind),
            9,
        );
    } else {
        lemma_taps_alike_paired(x, b, z, c, plan.coefs, plan.order, plan.order / 2);
    }
}

proof fn lemma_down_whole(fs_in: int, fs_out: int, a: int, j: int)
    requires
        fs_in > 0,
        fs_out > 0,
    ensures
        fs_in * (a * fs_out + j) / fs_out == a * fs_in + fs_in * j / fs_out,
        fs_in * (a * fs_out + j) % fs_out == fs_in * j % fs_out,
{
    let e = fs_in * j;
    let m = a * fs_in;
    assert(fs_in * (a * fs_out + j) == m * fs_out + e) by (nonlinear_arith)
        requires
            e == fs_in * j,
            m == a * fs_in,
    ;
    let q = e / fs_out;
    let r = e % fs_out;
    vstd::arithmetic::div_mod::lemma_fundamental_div_mod(e, fs_out);
    assert(m * fs_out + e == (m + q) * fs_out + r) by (nonlinear_arith)
        requires
            e == fs_out * q + r,
    ;
    vstd::arithmetic::div_mod::lemma_fundamental_div_mod_converse(
        m * fs_out + e,
        fs_out,
        m + q,
        r,
    );
}

proof fn lemma_down_before(fs_in: int, fs_out: int, k: int)
    requires
        fs_in > 0,
        fs_out > 0,
        k >= 0,
    ensures
        0 <= fs_in * k / fs_out,
        (fs_in * k / fs_out) * fs_out <= fs_in * k,
        forall|a: int| k < a * fs_out ==> fs_in * k / fs_out < #[trigger] (a * fs_in),
{
    let e = fs_in * k;
    assert(0 <= e / fs_out && (e / fs_out) * fs_out <= e) by (nonlinear_arith)
        requires
            e == fs_in * k,
            fs_in > 0,
            fs_out > 0,
            k >= 0,
    ;
    assert forall|a: int| k < a * fs_out implies e / fs_out < #[trigger] (a * fs_in) by {
        let w = e / fs_out;
        assert(w < a * fs_in) by (nonlinear_arith)
            requires
                w * fs_out <= fs_in * k,
                k < a * fs_out,
                fs_in > 0,
                fs_out > 0,
        ;
    }
}

#[verifier::spinoff_prover]
#[verifier::rlimit(60)]
proof fn lemma_lowered_in_two(
    st: DownState,
    p: Seq<i16>,
    q: Seq<i16>,
    fs_in: int,
    fs_out: int,
    a: int,
    c: int,
)
    requires
        is_down_pair(fs_in, fs_out),
        spans(st, fs_in, fs_out),
        a >= 0,
        c >= 0,
        p.len() == a * fs_in,
        q.len() == c * fs_in,
    ensures
        lowered_in_one_piece(st, p + q, fs_in, fs_out) == lowered_in_one_piece(st, p, fs_in, fs_out)
            + lowered_in_one_piece(
            down_batch_next(st, p, down_plan(fs_in, fs_out)),
            q,
            fs_in,
            fs_out,
        ),
{
    lemma_down_sizes(fs_in, fs_out);
    lemma_down_state_in_two(st, p, q, fs_in, fs_out);
    let plan = down_plan(fs_in, fs_out);
    let mid = down_batch_next(st, p, plan);
    assert((a + c) * fs_in == a * fs_in + c * fs_in && (a + c) * fs_out == a * fs_out + c * fs_out
        && a * fs_in / fs_in == a && c * fs_in / fs_in == c && (a + c) * fs_in / fs_in == a + c && a
        * fs_out >= 0 && c * fs_out >= 0) by (nonlinear_arith)
        requires
            a >= 0,
            c >= 0,
            fs_in > 0,
            fs_out > 0,
    ;
    let all = down_buf(st, p + q, plan);
    let first = down_buf(st, p, plan);
    let second = down_buf(mid, q, plan);
    let n = p.len() as int;
    let y = lowered_in_one_piece(st, p + q, fs_in, fs_out);
    let l = lowered_in_one_piece(st, p, fs_in, fs_out);
    let r = lowered_in_one_piece(mid, q, fs_in, fs_out);
    assert(y.len() == l.len() + r.len());
    assert forall|k: int| 0 <= k < y.len() implies #[trigger] y[k] == (l + r)[k] by {
        if k < a * fs_out {
            let w = fs_in * k / fs_out;
            lemma_down_before(fs_in, fs_out, k);
            assert(w < a * fs_in);
            assert forall|i: int| 0 <= i < plan.order implies #[trigger] all[w + i] == first[w
                + i] by {
                assert(all.take(n + plan.order)[w + i] == all[w + i]);
            }
            lemma_lowered_alike(all, 0, first, k, k, fs_in, fs_out);
        } else {
            let j = k - a * fs_out;
            let w = fs_in * j / fs_out;
            lemma_down_whole(fs_in, fs_out, a, j);
            assert(a * fs_out + j == k);
            lemma_down_before(fs_in, fs_out, j);
            assert(w < c * fs_in);
            assert forall|i: int| 0 <= i < plan.order implies #[trigger] all[fs_in * k / fs_out + i]
                == second[w + i] by {
                assert(all.skip(n)[w + i] == all[n + w + i]);
            }
            lemma_lowered_alike(all, n, second, k, j, fs_in, fs_out);
        }
    }
    assert(y =~= l + r);
}

/// However a block of whole milliseconds is cut into batches on the way down, it is
/// brought down as in one piece.
pub proof fn law_batches_do_not_show_on_the_way_down(
    st: DownState,
    x: Seq<i16>,
    fs_in: int,
    fs_out: int,
    ms: int,
)
    requires
        is_down_pair(fs_in, fs_out),
        spans(st, fs_in, fs_out),
        ms >= 0,
        x.len() == ms * fs_in,
    ensures
        lowered(st, x, 10 * fs_in, down_plan(fs_in, fs_out)) == lowered_in_one_piece(
            st,
            x,
            fs_in,
            fs_out,
        ),
        lowered_next(st, x, 10 * fs_in, down_plan(fs_in, fs_out)) == down_batch_next(
            st,
            x,
            down_plan(fs_in, fs_out),
        ),
    decreases ms,
{
    let plan = down_plan(fs_in, fs_out);
    let m: int = if ms < 10 {
        ms
    } else {
        10
    };
    let n = batch_len(x, 10 * fs_in);
    assert(n == m * fs_in && (ms - m) * fs_in == ms * fs_in - m * fs_in && (ms > m ==> (ms - m)
        * fs_in > 1) && (ms == m ==> (ms - m) * fs_in == 0)) by (nonlinear_arith)
        requires
            ms >= 0,
            fs_in >= 8,
            m == (if ms < 10 {
                ms
            } else {
                10
            }),
            n == (if ms * fs_in < 10 * fs_in {
                ms * fs_in
            } else {
                10 * fs_in
            }),
    ;
    let p = x.take(n);
    let q = x.skip(n);
    assert(p + q =~= x);
    lemma_down_batch(st, p, fs_in, fs_out, m);
    if ms > m {
        lemma_down_state_in_two(st, p, q, fs_in, fs_out);
        law_batches_do_not_show_on_the_way_down(
            down_batch_next(st, p, plan),
            q,
            fs_in,
            fs_out,
            ms - m,
        );
        lemma_lowered_in_two(st, p, q, fs_in, fs_out, m, ms - m);
    } else {
        assert(p =~= x);
    }
}

/// The way down has no seams: a block in two calls gives the same samples as in
/// one, and leaves the same state.
pub proof fn law_lowering_has_no_seams(
    st: DownState,
    p: Seq<i16>,
    q: Seq<i16>,
    fs_in: int,
    fs_out: int,
    a: int,
    c: int,
)
    requires
        is_down_pair(fs_in, fs_out),
        spans(st, fs_in, fs_out),
        a >= 0,
        c >= 0,
        p.len() == a * fs_in,
        q.len() == c * fs_in,
    ensures
        ({
            let plan = down_plan(fs_in, fs_out);
            let mid = lowered_next(st, p, 10 * fs_in, plan);
            &&& lowered(st, p + q, 10 * fs_in, plan) == lowered(st, p, 10 * fs_in, plan) + lowered(
                mid,
                q,
                10 * fs_in,
                plan,
            )
            &&& lowered_next(st, p + q, 10 * fs_in, plan) == lowered_next(mid, q, 10 * fs_in, plan)
            &&& spans(mid, fs_in, fs_out)
        }),
{
    assert((a + c) * fs_in == a * fs_in + c * fs_in) by (nonlinear_arith);
    lemma_down_state_in_two(st, p, q, fs_in, fs_out);
    law_batches_do_not_show_on_the_way_down(st, p, fs_in, fs_out, a);
    law_batches_do_not_show_on_the_way_down(
        down_batch_next(st, p, down_plan(fs_in, fs_out)),
        q,
        fs_in,
        fs_out,
        c,
    );
    law_batches_do_not_show_on_the_way_down(st, p + q, fs_in, fs_out, a + c);
    lemma_lowered_in_two(st, p, q, fs_in, fs_out, a, c);
}

/// The way down keeps the order of time: sample `k` of the output rests on the
/// input before its own time and on nothing behind it.
pub proof fn law_lowering_keeps_the_order_of_time(
    st: DownState,
    x: Seq<i16>,
    z: Seq<i16>,
    fs_in: int,
    fs_out: int,
    ms: int,
    k: int,
)
    requires
        is_down_pair(fs_in, fs_out),
        spans(st, fs_in, fs_out),
        ms >= 0,
        x.len() == ms * fs_in,
        z.len() == x.len(),
        0 <= k < ms * fs_out,
        forall|i: int| 0 <= i < x.len() && i * fs_out < k * fs_in ==> #[trigger] x[i] == z[i],
    ensures
        ({
            let plan = down_plan(fs_in, fs_out);
            forall|j: int|
                0 <= j <= k ==> #[trigger] lowered(st, x, 10 * fs_in, plan)[j] == lowered(
                    st,
                    z,
                    10 * fs_in,
                    plan,
                )[j]
        }),
{
    lemma_down_sizes(fs_in, fs_out);
    law_batches_do_not_show_on_the_way_down(st, x, fs_in, fs_out, ms);
    law_batches_do_not_show_on_the_way_down(st, z, fs_in, fs_out, ms);
    let plan = down_plan(fs_in, fs_out);
    let a0 = plan.coefs[0] as int;
    let a1 = plan.coefs[1] as int;
    let bx = down_buf(st, x, plan);
    let bz = down_buf(st, z, plan);
    assert(ms * fs_in / fs_in == ms) by (nonlinear_arith)
        requires
            fs_in > 0,
    ;
    assert forall|j: int| 0 <= j <= k implies #[trigger] lowered(st, x, 10 * fs_in, plan)[j]
        == lowered(st, z, 10 * fs_in, plan)[j] by {
        let w = fs_in * j / fs_out;
        lemma_down_before(fs_in, fs_out, j);
        assert(w < ms * fs_in);
        assert forall|i: int| 0 <= i < plan.order implies #[trigger] bx[w + i] == bz[w + i] by {
            let t = w + i - plan.order;
            if t >= 0 {
                assert forall|m: int| 0 <= m <= t implies #[trigger] x[m] == z[m] by {
                    assert(m * fs_out < k * fs_in) by (nonlinear_arith)
                        requires
                            m < w,
                            w * fs_out <= fs_in * j,
                            0 <= j <= k,
                            fs_out > 0,
                            fs_in > 0,
                    ;
                }
                lemma_lowpass_of_prefix(st.iir, x, z, a0, a1, t);
                assert(x[t] == z[t]);
            }
        }
        lemma_lowered_alike(bx, 0, bz, j, j, fs_in, fs_out);
    }
}

} // verus!
