//! Pulse-vector coding: numbering the integer vectors of `n` components whose
//! magnitudes add up to `k`, so that one number stands for one vector
//! (RFC 6716 section 4.3.4.2).

use vstd::arithmetic::power2::{
    lemma2_to64, lemma_pow2_strictly_increases, lemma_pow2_unfold, pow2,
};
use vstd::prelude::*;
use vstd::relations::injective_on;
use vstd::set_lib::{lemma_int_range, lemma_map_size, set_int_range};

use crate::range_coder::{
    after_uint, decoder_start, decoding, encoder_start, encoding, finished, uint_value, with_uint,
    RangeCoder,
};
use crate::range_laws::{
    can_be_coded, item_written, law_six_bytes_an_item_are_room_enough, law_what_is_written_is_read,
    written, Item,
};

verus! {

/// `U(n, k)` of the CELT design, the vectors of `n - 1` components that spend
/// fewer than `k` pulses: the numbers above, to the left and diagonally between,
/// added.
pub open spec fn pvq_u(n: nat, k: nat) -> nat
    decreases n, k,
{
    if n == 0 {
        if k == 0 {
            1
        } else {
            0
        }
    } else if k == 0 {
        0
    } else {
        pvq_u((n - 1) as nat, k) + pvq_u(n, (k - 1) as nat) + pvq_u(
            (n - 1) as nat,
            (k - 1) as nat,
        )
    }
}

/// How many vectors of `n` components spend exactly `k` pulses.
pub open spec fn pvq_v(n: nat, k: nat) -> nat {
    pvq_u(n, k) + pvq_u(n, k + 1)
}

/// The magnitude of a component.
pub open spec fn magnitude(x: int) -> nat {
    if x < 0 {
        (-x) as nat
    } else {
        x as nat
    }
}

/// The pulses a vector spends.
pub open spec fn pulses(y: Seq<int>) -> nat
    decreases y.len(),
{
    if y.len() == 0 {
        0
    } else {
        magnitude(y[0]) + pulses(y.skip(1))
    }
}

/// The number of a vector among those of its length and pulses.
///
/// Vectors are ordered by the sign of the first component, positive first, then
/// by the pulses left for the rest, then by the number of the rest.
pub open spec fn pvq_index(y: Seq<int>) -> nat
    decreases y.len(),
{
    if y.len() == 0 {
        0
    } else {
        pvq_index(y.skip(1)) + pvq_u(y.len(), pulses(y.skip(1))) + (if y[0] < 0 {
            pvq_u(y.len(), pulses(y) + 1)
        } else {
            0
        })
    }
}

/// More pulses, more vectors.
proof fn lemma_u_grows(n: nat, a: nat, b: nat)
    requires
        a <= b,
        n > 0,
    ensures
        pvq_u(n, a) <= pvq_u(n, b),
    decreases b - a,
{
    if a < b {
        lemma_u_grows(n, a, (b - 1) as nat);
    }
}

/// The numbers of the vectors that leave `k` pulses for the rest end where
/// those that leave one more begin.
proof fn lemma_blocks_meet(n: nat, k: nat)
    requires
        n > 0,
    ensures
        pvq_u(n, k) + pvq_v((n - 1) as nat, k) == pvq_u(n, k + 1),
{
}

/// A vector's number stands in its block: between the vectors that leave fewer
/// pulses for the rest and those that leave more, behind those of the other
/// sign where it is negative.
pub proof fn law_index_is_in_range(y: Seq<int>)
    ensures
        pvq_index(y) < pvq_v(y.len(), pulses(y)),
        y.len() > 0 && y[0] >= 0 ==> pvq_u(y.len(), pulses(y.skip(1))) <= pvq_index(y) < pvq_u(
            y.len(),
            pulses(y.skip(1)) + 1,
        ),
        y.len() > 0 && y[0] < 0 ==> pvq_u(y.len(), pulses(y) + 1) + pvq_u(
            y.len(),
            pulses(y.skip(1)),
        ) <= pvq_index(y) < pvq_u(y.len(), pulses(y) + 1) + pvq_u(
            y.len(),
            pulses(y.skip(1)) + 1,
        ),
    decreases y.len(),
{
    if y.len() == 0 {
        assert(pvq_u(0, 0) == 1);
    } else {
        let rest = y.skip(1);
        law_index_is_in_range(rest);
        lemma_blocks_meet(y.len(), pulses(rest));
        if y[0] >= 0 {
            lemma_u_grows(y.len(), pulses(rest) + 1, pulses(y) + 1);
        } else {
            lemma_u_grows(y.len(), pulses(rest) + 1, pulses(y));
        }
    }
}

/// Two vectors of one length and as many pulses have the same number only if
/// they are the same vector.
pub proof fn law_index_tells_vectors_apart(a: Seq<int>, b: Seq<int>)
    requires
        a.len() == b.len(),
        pulses(a) == pulses(b),
        pvq_index(a) == pvq_index(b),
    ensures
        a == b,
    decreases a.len(),
{
    if a.len() == 0 {
        assert(a =~= b);
    } else {
        let n = a.len();
        let ra = a.skip(1);
        let rb = b.skip(1);
        law_index_is_in_range(a);
        law_index_is_in_range(b);
        let top: nat = pvq_u(n, pulses(a) + 1);
        if a[0] >= 0 {
            lemma_u_grows(n, pulses(ra) + 1, pulses(a) + 1);
        }
        if b[0] >= 0 {
            lemma_u_grows(n, pulses(rb) + 1, pulses(a) + 1);
        }
        assert((a[0] < 0) == (b[0] < 0));
        if pulses(ra) < pulses(rb) {
            lemma_u_grows(n, pulses(ra) + 1, pulses(rb));
        } else if pulses(rb) < pulses(ra) {
            lemma_u_grows(n, pulses(rb) + 1, pulses(ra));
        }
        assert(pulses(ra) == pulses(rb));
        law_index_tells_vectors_apart(ra, rb);
        assert(a[0] == b[0]);
        assert forall|i: int| 0 <= i < a.len() implies a[i] == b[i] by {
            if i > 0 {
                assert(a[i] == ra[i - 1] && b[i] == rb[i - 1]);
            }
        }
        assert(a =~= b);
    }
}

/// Every number below the count stands for a vector.
pub proof fn law_every_number_stands_for_a_vector(n: nat, k: nat, i: nat) -> (y: Seq<int>)
    requires
        i < pvq_v(n, k),
    ensures
        y.len() == n,
        pulses(y) == k,
        pvq_index(y) == i,
    decreases n,
{
    if n == 0 {
        Seq::empty()
    } else {
        let top = pvq_u(n, k + 1);
        let negative = i >= top;
        let j: nat = if negative {
            (i - top) as nat
        } else {
            i
        };
        let r = lemma_block_of(n, j, if negative {
            k
        } else {
            k + 1
        });
        lemma_blocks_meet(n, r);
        let rest = law_every_number_stands_for_a_vector(
            (n - 1) as nat,
            r,
            (j - pvq_u(n, r)) as nat,
        );
        let first: int = if negative {
            r - k
        } else {
            k - r
        };
        let y = seq![first] + rest;
        assert(y.skip(1) =~= rest);
        y
    }
}

/// The block that a number below `U(n, k)` lies in.
proof fn lemma_block_of(n: nat, j: nat, k: nat) -> (r: nat)
    requires
        n > 0,
        j < pvq_u(n, k),
    ensures
        r < k,
        pvq_u(n, r) <= j < pvq_u(n, r + 1),
    decreases k,
{
    if pvq_u(n, (k - 1) as nat) <= j {
        (k - 1) as nat
    } else {
        lemma_block_of(n, j, (k - 1) as nat)
    }
}

/// The vectors of `n` components that spend exactly `k` pulses.
pub open spec fn vectors(n: nat, k: nat) -> Set<Seq<int>> {
    Set::new(|y: Seq<int>| y.len() == n && pulses(y) == k)
}

/// `V(n, k)` is the count of the vectors of `n` components and `k` pulses, and
/// numbering them is one to one.
pub proof fn law_v_counts_the_vectors(n: nat, k: nat)
    ensures
        vectors(n, k).finite(),
        vectors(n, k).len() == pvq_v(n, k),
        vectors(n, k).map(|y: Seq<int>| pvq_index(y) as int) == set_int_range(
            0,
            pvq_v(n, k) as int,
        ),
{
    let v = pvq_v(n, k) as int;
    let f = |i: int| choose|y: Seq<int>| #[trigger] is_numbered(n, k, i, y);
    let g = |y: Seq<int>| pvq_index(y) as int;
    let range = set_int_range(0, v);
    lemma_int_range(0, v);
    assert forall|i: int| 0 <= i < v implies is_numbered(n, k, i, #[trigger] f(i)) by {
        let y = law_every_number_stands_for_a_vector(n, k, i as nat);
        assert(is_numbered(n, k, i, y));
    }
    assert forall|y: Seq<int>| vectors(n, k).contains(y) implies range.contains(g(y)) && f(g(y))
        == y by {
        law_index_is_in_range(y);
        law_index_tells_vectors_apart(f(g(y)), y);
    }
    assert(range.map(f) =~= vectors(n, k)) by {
        assert forall|y: Seq<int>| range.map(f).contains(y) implies vectors(n, k).contains(y) by {
            let i = choose|i: int| range.contains(i) && f(i) == y;
            assert(is_numbered(n, k, i, f(i)));
        }
        assert forall|y: Seq<int>| vectors(n, k).contains(y) implies range.map(f).contains(y) by {
            assert(range.contains(g(y)) && f(g(y)) == y);
        }
    }
    assert(injective_on(f, range)) by {
        assert forall|a: int, b: int|
            range.contains(a) && range.contains(b) && #[trigger] f(a) == #[trigger] f(b) implies a
            == b by {
            assert(is_numbered(n, k, a, f(a)) && is_numbered(n, k, b, f(b)));
        }
    }
    lemma_map_size(range, vectors(n, k), f);
    assert(vectors(n, k).map(g) =~= range) by {
        assert forall|i: int| range.contains(i) implies vectors(n, k).map(g).contains(i) by {
            assert(is_numbered(n, k, i, f(i)));
            assert(vectors(n, k).contains(f(i)) && g(f(i)) == i);
        }
    }
}

/// Whether `y` is the vector with this number.
pub open spec fn is_numbered(n: nat, k: nat, i: int, y: Seq<int>) -> bool {
    y.len() == n && pulses(y) == k && pvq_index(y) == i
}

/// Three of the rows, each from the one before it.
#[verifier::spinoff_prover]
#[verifier::rlimit(60)]
proof fn lemma_largest_small_counts()
    ensures
        pvq_u(13, 13) == 251595969,
        pvq_u(13, 14) == 579168825,
{
    reveal_with_fuel(pvq_u, 7);
    assert(pvq_u(1, 1) == 1);
    assert(pvq_u(1, 2) == 1);
    assert(pvq_u(1, 3) == 1);
    assert(pvq_u(1, 4) == 1);
    assert(pvq_u(1, 5) == 1);
    assert(pvq_u(1, 6) == 1);
    assert(pvq_u(1, 7) == 1);
    assert(pvq_u(1, 8) == 1);
    assert(pvq_u(1, 9) == 1);
    assert(pvq_u(1, 10) == 1);
    assert(pvq_u(1, 11) == 1);
    assert(pvq_u(1, 12) == 1);
    assert(pvq_u(1, 13) == 1);
    assert(pvq_u(1, 14) == 1);
    assert(pvq_u(7, 1) == 1);
    assert(pvq_u(7, 2) == 13);
    assert(pvq_u(7, 3) == 85);
    assert(pvq_u(7, 4) == 377);
    assert(pvq_u(7, 5) == 1289);
    assert(pvq_u(7, 6) == 3653);
    assert(pvq_u(7, 7) == 8989);
    assert(pvq_u(7, 8) == 19825);
    assert(pvq_u(7, 9) == 40081);
    assert(pvq_u(7, 10) == 75517);
    assert(pvq_u(7, 11) == 134245);
    assert(pvq_u(7, 12) == 227305);
    assert(pvq_u(7, 13) == 369305);
    assert(pvq_u(7, 14) == 579125);
    assert(pvq_u(13, 1) == 1);
    assert(pvq_u(13, 2) == 25);
    assert(pvq_u(13, 3) == 313);
    assert(pvq_u(13, 4) == 2625);
    assert(pvq_u(13, 5) == 16641);
    assert(pvq_u(13, 6) == 85305);
    assert(pvq_u(13, 7) == 369305);
    assert(pvq_u(13, 8) == 1392065);
    assert(pvq_u(13, 9) == 4673345);
    assert(pvq_u(13, 10) == 14218905);
    assert(pvq_u(13, 11) == 39753273);
    assert(pvq_u(13, 12) == 103274625);
    assert(pvq_u(13, 13) == 251595969);
    assert(pvq_u(13, 14) == 579168825);
}

/// Up to 13 components and 13 pulses, every count fits 32 bits.
pub proof fn law_small_counts_fit(n: nat, k: nat)
    requires
        n <= 13,
        k <= 13,
    ensures
        pvq_v(n, k) <= u32::MAX,
{
    if n > 0 {
        lemma_largest_small_counts();
        lemma_u_grows(n, k, 13);
        lemma_u_grows(n, k + 1, 14);
        lemma_u_is_symmetric(n, 13);
        lemma_u_is_symmetric(n, 14);
        lemma_u_is_symmetric(13, 14);
        lemma_u_grows(13, n, 13);
        lemma_u_grows(14, n, 13);
    }
}

/// Components as mathematical integers.
pub open spec fn ints(y: Seq<i32>) -> Seq<int> {
    Seq::new(y.len(), |i: int| y[i] as int)
}

/// Two to the power 32, around which table values wrap.
pub open spec fn wrap32(x: int) -> u32 {
    (x % 0x1_0000_0000) as u32
}

proof fn lemma_wrap_add(a: int, b: int, c: int)
    ensures
        wrap32(wrap32(a) + wrap32(b)) == wrap32(a + b),
        wrap32(wrap32(wrap32(a) + wrap32(b)) + wrap32(c)) == wrap32(a + b + c),
{
    vstd::arithmetic::div_mod::lemma_add_mod_noop(a, b, 0x1_0000_0000);
    vstd::arithmetic::div_mod::lemma_add_mod_noop(a + b, c, 0x1_0000_0000);
}

fn wrapping_sum(a: u32, b: u32) -> (s: u32)
    ensures
        s == wrap32(a + b),
{
    ((a as u64 + b as u64) % 0x1_0000_0000) as u32
}

/// Whether `u` holds the values for `n` and 0 up to its length.
spec fn is_row(u: Seq<u32>, n: nat) -> bool {
    forall|j: int| 0 <= j < u.len() ==> #[trigger] u[j] == wrap32(pvq_u(n, j as nat) as int)
}

/// Turn the values for `n` into those for `n + 1`.
fn unext(u: &mut Vec<u32>, n: Ghost<nat>)
    requires
        is_row(old(u)@, n@),
    ensures
        final(u)@.len() == old(u)@.len(),
        is_row(final(u)@, n@ + 1),
{
    let ghost before = u@;
    let len: usize = u.len();
    if len == 0 {
        return;
    }
    let mut left: u32 = u[0];
    u.set(0, 0);
    let mut j: usize = 1;
    while j < len
        invariant
            1 <= j <= len,
            len == u@.len(),
            len == before.len(),
            is_row(before, n@),
            left == before[j - 1],
            forall|i: int|
                0 <= i < j ==> #[trigger] u@[i] == wrap32(pvq_u(n@ + 1, i as nat) as int),
            forall|i: int| j <= i < len ==> u@[i] == before[i],
        decreases len - j,
    {
        let above: u32 = u[j];
        let prev: u32 = u[j - 1];
        proof {
            assert(before[j as int] == wrap32(pvq_u(n@, j as nat) as int));
            assert(before[j - 1] == wrap32(pvq_u(n@, (j - 1) as nat) as int));
            assert(u@[j - 1] == wrap32(pvq_u(n@ + 1, (j - 1) as nat) as int));
            lemma_wrap_add(
                pvq_u(n@, j as nat) as int,
                pvq_u(n@ + 1, (j - 1) as nat) as int,
                pvq_u(n@, (j - 1) as nat) as int,
            );
        }
        u.set(j, wrapping_sum(wrapping_sum(above, prev), left));
        left = above;
        j += 1;
    }
}

/// The value of `U(n, k)`, kept to 32 bits.
fn compute_u(n: u32, k: u32) -> (r: u32)
    requires
        k < u32::MAX,
    ensures
        r == wrap32(pvq_u(n as nat, k as nat) as int),
{
    let len: usize = k as usize + 1;
    let mut u: Vec<u32> = vec![0u32; len];
    u.set(0, 1);
    let mut m: u32 = 0;
    assert(is_row(u@, 0));
    while m < n
        invariant
            m <= n,
            u@.len() == k + 1,
            is_row(u@, m as nat),
        decreases n - m,
    {
        unext(&mut u, Ghost(m as nat));
        m += 1;
    }
    assert(u@[k as int] == wrap32(pvq_u(n as nat, k as nat) as int));
    u[k as usize]
}

proof fn lemma_u_is_symmetric(n: nat, k: nat)
    ensures
        pvq_u(n, k) == pvq_u(k, n),
    decreases n, k,
{
    if n > 0 && k > 0 {
        lemma_u_is_symmetric((n - 1) as nat, k);
        lemma_u_is_symmetric(n, (k - 1) as nat);
        lemma_u_is_symmetric((n - 1) as nat, (k - 1) as nat);
    }
}

/// `U(n, k)`, kept to 32 bits.
pub fn celt_pvq_u_lookup(n: u32, k: u32) -> (r: u32)
    requires
        n < u32::MAX,
        k < u32::MAX,
    ensures
        r == wrap32(pvq_u(n as nat, k as nat) as int),
{
    proof {
        lemma_u_is_symmetric(n as nat, k as nat);
    }
    if n < k {
        compute_u(k, n)
    } else {
        compute_u(n, k)
    }
}

/// How many vectors of `n` components spend exactly `k` pulses, kept to 32
/// bits.
pub fn celt_pvq_v(n: u32, k: u32) -> (r: u32)
    requires
        n < u32::MAX,
        k < u32::MAX - 1,
    ensures
        r == wrap32(pvq_v(n as nat, k as nat) as int),
{
    proof {
        lemma_wrap_add(pvq_u(n as nat, k as nat) as int, pvq_u(n as nat, (k + 1) as nat) as int, 0);
    }
    wrapping_sum(celt_pvq_u_lookup(n, k), celt_pvq_u_lookup(n, k + 1))
}

fn unsigned_magnitude(x: i32) -> (m: u32)
    ensures
        m == magnitude(x as int),
{
    if x < 0 {
        (-(x as i64)) as u32
    } else {
        x as u32
    }
}

proof fn lemma_pulses_nonneg_split(y: Seq<int>, j: int)
    requires
        0 <= j < y.len(),
    ensures
        pulses(y.skip(j)) == magnitude(y[j]) + pulses(y.skip(j + 1)),
        pvq_index(y.skip(j)) == pvq_index(y.skip(j + 1)) + pvq_u(
            (y.len() - j) as nat,
            pulses(y.skip(j + 1)),
        ) + (if y[j] < 0 {
            pvq_u((y.len() - j) as nat, pulses(y.skip(j)) + 1)
        } else {
            0
        }),
        pulses(y.skip(j)) <= pulses(y),
    decreases j,
{
    assert(y.skip(j).skip(1) =~= y.skip(j + 1));
    if j > 0 {
        lemma_pulses_nonneg_split(y, j - 1);
    } else {
        assert(y.skip(0) =~= y);
    }
}

/// The number of the vector in the first `n` components of `y`, kept to 32
/// bits: exact wherever the count of vectors fits.
pub fn icwrs(n: u32, _k: u32, y: &[i32]) -> (i: u32)
    requires
        1 <= n < u32::MAX,
        n <= y@.len(),
        pulses(ints(y@.take(n as int))) < u32::MAX - 1,
    ensures
        i == wrap32(pvq_index(ints(y@.take(n as int))) as int),
{
    let ghost v = ints(y@.take(n as int));
    let mut j: usize = n as usize;
    let mut i: u32 = 0;
    let mut k: u32 = 0;
    assert(v.skip(n as int) =~= Seq::<int>::empty());
    while j > 0
        invariant
            j <= n,
            n <= y@.len(),
            n < u32::MAX,
            v == ints(y@.take(n as int)),
            pulses(v) < u32::MAX - 1,
            k == pulses(v.skip(j as int)),
            i == wrap32(pvq_index(v.skip(j as int)) as int),
        decreases j,
    {
        j -= 1;
        proof {
            lemma_pulses_nonneg_split(v, j as int);
        }
        let yj: i32 = y[j];
        let m: u32 = n - j as u32;
        let ghost rest: int = pvq_index(v.skip(j + 1)) as int;
        let ghost base: int = pvq_u(m as nat, k as nat) as int;
        let base_u: u32 = celt_pvq_u_lookup(m, k);
        k = k + unsigned_magnitude(yj);
        let ghost sign: int = if yj < 0 {
            pvq_u(m as nat, (k + 1) as nat) as int
        } else {
            0
        };
        let sign_u: u32 = if yj < 0 {
            celt_pvq_u_lookup(m, k + 1)
        } else {
            0
        };
        proof {
            lemma_wrap_add(rest, base, sign);
            assert(v[j as int] == yj);
        }
        i = wrapping_sum(wrapping_sum(i, base_u), sign_u);
    }
    assert(v.skip(0) =~= v);
    i
}

/// The first component of the vector of `m` components and `k` pulses with this
/// number, the pulses left for the rest, and the number of the rest.
fn first_component(m: u32, k: u32, index: u32) -> (r: (i32, u32, u32))
    requires
        1 <= m < u32::MAX,
        k < i32::MAX,
        index < pvq_v(m as nat, k as nat),
        pvq_v(m as nat, k as nat) <= u32::MAX,
    ensures
        ({
            let (y, rest, number) = r;
            &&& rest <= k
            &&& magnitude(y as int) == k - rest
            &&& number < pvq_v((m - 1) as nat, rest as nat)
            &&& index == number + pvq_u(m as nat, rest as nat) + (if y < 0 {
                pvq_u(m as nat, (k + 1) as nat)
            } else {
                0
            })
        }),
{
    let mut i: u32 = index;
    let p: u32 = celt_pvq_u_lookup(m, k + 1);
    proof {
        lemma_u_grows(m as nat, k as nat, (k + 1) as nat);
    }
    let negative = i >= p;
    if negative {
        i = i - p;
    }
    let mut rest: u32 = k;
    let mut q: u32 = celt_pvq_u_lookup(m, rest);
    assert(pvq_u(m as nat, 0) == 0);
    while q > i
        invariant
            1 <= m < u32::MAX,
            rest <= k < i32::MAX,
            pvq_v(m as nat, k as nat) <= u32::MAX,
            q == pvq_u(m as nat, rest as nat),
            i < pvq_u(m as nat, (rest + 1) as nat),
            pvq_u(m as nat, 0) == 0,
        decreases rest,
    {
        rest = rest - 1;
        proof {
            lemma_u_grows(m as nat, rest as nat, k as nat);
        }
        q = celt_pvq_u_lookup(m, rest);
    }
    proof {
        lemma_blocks_meet(m as nat, rest as nat);
        if negative {
            assert(rest < k);
        }
    }
    let size: i32 = (k - rest) as i32;
    let y: i32 = if negative {
        -size
    } else {
        size
    };
    (y, rest, i - q)
}

/// Write into the first `n` components of `y` the vector of `k` pulses whose
/// number is `index`.
pub fn cwrsi(n: u32, k: u32, index: u32, y: &mut [i32])
    requires
        1 <= n < u32::MAX,
        1 <= k < i32::MAX,
        n <= old(y)@.len(),
        index < pvq_v(n as nat, k as nat),
        pvq_v(n as nat, k as nat) <= u32::MAX,
    ensures
        final(y)@.len() == old(y)@.len(),
        pulses(ints(final(y)@.take(n as int))) == k,
        pvq_index(ints(final(y)@.take(n as int))) == index,
        final(y)@.skip(n as int) == old(y)@.skip(n as int),
{
    let ghost before = y@;
    let mut j: usize = 0;
    let mut left: u32 = k;
    let mut i: u32 = index;
    proof {
        assert(before.take(0) =~= Seq::<i32>::empty());
        assert(ints(before.take(0)) =~= Seq::<int>::empty());
    }
    while j < n as usize
        invariant
            j <= n,
            n < u32::MAX,
            n <= y@.len(),
            y@.len() == before.len(),
            left <= k < i32::MAX,
            i < pvq_v((n - j) as nat, left as nat),
            pvq_v((n - j) as nat, left as nat) <= u32::MAX,
            y@.skip(j as int) == before.skip(j as int),
            forall|rest: Seq<int>|
                rest.len() == n - j && pulses(rest) == left && pvq_index(rest) == i ==> pulses(
                    #[trigger] (ints(y@.take(j as int)) + rest),
                ) == k && pvq_index(ints(y@.take(j as int)) + rest) == index,
        decreases n - j,
    {
        let m: u32 = n - j as u32;
        let (c, rest_k, rest_i) = first_component(m, left, i);
        let ghost done = ints(y@.take(j as int));
        let ghost old_y = y@;
        y[j] = c;
        proof {
            let now = ints(y@.take(j + 1));
            assert(now =~= done.push(c as int));
            assert forall|rest: Seq<int>|
                rest.len() == n - (j + 1) && pulses(rest) == rest_k && pvq_index(rest)
                    == rest_i implies pulses(#[trigger] (now + rest)) == k && pvq_index(now + rest)
                == index by {
                let longer = seq![c as int] + rest;
                assert(longer.skip(1) =~= rest);
                assert(longer[0] == c as int);
                assert(pulses(longer) == left);
                assert(pvq_index(longer) == i);
                assert(done + longer =~= now + rest);
            }
            assert(y@.skip(j + 1) =~= old_y.skip(j as int).skip(1));
            assert(before.skip(j + 1) =~= before.skip(j as int).skip(1));
            lemma_v_shrinks(m as nat, rest_k as nat, left as nat);
        }
        left = rest_k;
        i = rest_i;
        j += 1;
    }
    proof {
        let none = Seq::<int>::empty();
        lemma_v_of_nothing(left as nat);
        let all = ints(y@.take(n as int));
        assert(all + none =~= all);
        assert(pulses(none) == left && pvq_index(none) == i);
        assert(pulses(all + none) == k);
    }
}

proof fn lemma_v_of_nothing(k: nat)
    requires
        pvq_v(0, k) > 0,
    ensures
        k == 0,
        pvq_v(0, k) == 1,
{
}

proof fn lemma_v_shrinks(m: nat, rest: nat, k: nat)
    requires
        m > 0,
        rest <= k,
    ensures
        pvq_v((m - 1) as nat, rest) <= pvq_v(m, k),
{
    lemma_blocks_meet(m, rest);
    lemma_u_grows(m, rest + 1, k + 1);
}

/// A vector comes back from its number: the vector that [`cwrsi`] gives for the
/// number of `y` is `y`.
pub proof fn law_vector_comes_back_from_its_number(y: Seq<int>, z: Seq<int>)
    requires
        z.len() == y.len(),
        pulses(z) == pulses(y),
        pvq_index(z) == pvq_index(y),
    ensures
        z == y,
{
    law_index_tells_vectors_apart(z, y);
}

proof fn lemma_u_is_positive(n: nat, k: nat)
    requires
        n >= 1,
        k >= 1,
    ensures
        pvq_u(n, k) >= 1,
    decreases n, k,
{
    if k > 1 {
        lemma_u_is_positive(n, (k - 1) as nat);
    } else if n > 1 {
        lemma_u_is_positive((n - 1) as nat, k);
    } else {
        assert(pvq_u(0, 0) == 1);
    }
}

/// Encode the vector of `k` pulses in the first `n` components of `y` by its
/// number; without pulses there is nothing to tell.
pub fn encode_pulses(y: &[i32], n: u32, k: u32, rc: &mut RangeCoder)
    requires
        encoding(old(rc)@),
        k > 0 ==> {
            &&& 1 <= n < u32::MAX
            &&& k < u32::MAX - 1
            &&& n <= y@.len()
            &&& pulses(ints(y@.take(n as int))) == k
            &&& pvq_v(n as nat, k as nat) <= u32::MAX
        },
    ensures
        encoding(final(rc)@),
        final(rc)@ == if k == 0 {
            old(rc)@
        } else {
            with_uint(
                old(rc)@,
                pvq_index(ints(y@.take(n as int))) as int,
                pvq_v(n as nat, k as nat) as int,
            )
        },
{
    if k == 0 {
        return;
    }
    let fl: u32 = icwrs(n, k, y);
    let ft: u32 = celt_pvq_v(n, k);
    proof {
        law_index_is_in_range(ints(y@.take(n as int)));
        lemma_u_is_positive(n as nat, k as nat);
        lemma_u_is_positive(n as nat, (k + 1) as nat);
    }
    rc.enc_uint(fl, ft);
}

/// Decode a vector of `k` pulses into the first `n` components of `y`.
pub fn decode_pulses(y: &mut [i32], n: u32, k: u32, rc: &mut RangeCoder)
    requires
        decoding(old(rc)@),
        n <= old(y)@.len(),
        k > 0 ==> {
            &&& 1 <= n < u32::MAX
            &&& k < i32::MAX
            &&& pvq_v(n as nat, k as nat) <= u32::MAX
        },
    ensures
        decoding(final(rc)@),
        final(y)@.len() == old(y)@.len(),
        final(y)@.skip(n as int) == old(y)@.skip(n as int),
        k == 0 ==> final(rc)@ == old(rc)@ && forall|i: int|
            0 <= i < n ==> #[trigger] final(y)@[i] == 0,
        k > 0 ==> {
            &&& pulses(ints(final(y)@.take(n as int))) == k
            &&& pvq_index(ints(final(y)@.take(n as int))) == uint_value(
                old(rc)@,
                pvq_v(n as nat, k as nat) as int,
            )
            &&& final(rc)@ == after_uint(old(rc)@, pvq_v(n as nat, k as nat) as int)
        },
{
    if k == 0 {
        let ghost before = y@;
        let mut i: usize = 0;
        while i < n as usize
            invariant
                i <= n <= y@.len(),
                y@.len() == before.len(),
                forall|j: int| 0 <= j < i ==> #[trigger] y@[j] == 0,
                forall|j: int| i <= j < y@.len() ==> #[trigger] y@[j] == before[j],
            decreases n - i,
        {
            y[i] = 0;
            i += 1;
        }
        assert(y@.skip(n as int) =~= before.skip(n as int));
        return;
    }
    proof {
        lemma_u_is_positive(n as nat, k as nat);
        lemma_u_is_positive(n as nat, (k + 1) as nat);
    }
    let ft: u32 = celt_pvq_v(n, k);
    let fl: u32 = rc.dec_uint(ft);
    cwrsi(n, k, fl, y);
}

/// Pulse vectors survive a round trip: a vector with the pulses and the number
/// that a decoder reads is the vector that an encoder with room for it wrote; 11
/// bytes are room enough.
pub proof fn law_pulses_survive_coding(size: int, y: Seq<int>, z: Seq<int>)
    requires
        0 <= size <= u32::MAX,
        y.len() >= 1,
        pulses(y) >= 1,
        (y.len() <= 13 && pulses(y) <= 13) || pvq_v(y.len(), pulses(y)) <= u32::MAX,
        11 <= size || !finished(
            with_uint(
                encoder_start(size),
                pvq_index(y) as int,
                pvq_v(y.len(), pulses(y)) as int,
            ),
        ).error,
        z.len() == y.len(),
        pulses(z) == pulses(y),
        pvq_index(z) == uint_value(
            decoder_start(
                finished(
                    with_uint(
                        encoder_start(size),
                        pvq_index(y) as int,
                        pvq_v(y.len(), pulses(y)) as int,
                    ),
                ).buf,
            ),
            pvq_v(y.len(), pulses(y)) as int,
        ),
    ensures
        z == y,
{
    let v = pvq_v(y.len(), pulses(y)) as int;
    let items = seq![Item::Number(pvq_index(y) as int, v)];
    if y.len() <= 13 && pulses(y) <= 13 {
        law_small_counts_fit(y.len(), pulses(y));
    }
    law_index_is_in_range(y);
    lemma_u_is_positive(y.len(), pulses(y));
    lemma_u_is_positive(y.len(), pulses(y) + 1);
    let c = item_written(encoder_start(size), items[0]);
    assert(items.drop_first().len() == 0);
    assert(written(c, items.drop_first()) == c);
    assert(can_be_coded(items[0]));
    if 11 <= size {
        law_six_bytes_an_item_are_room_enough(size, items);
    }
    law_what_is_written_is_read(size, items);
    law_index_tells_vectors_apart(z, y);
}

/// The stride of the second pass in which a band of `length` components in
/// `stride` blocks is spread: about the square root of the block length, or
/// nought for a band that gets no second pass.
pub open spec fn is_rotation_stride(length: int, stride: int, s: int) -> bool {
    if length < 8 * stride {
        s == 0
    } else {
        &&& s >= 1
        &&& (s * s + s) * stride + stride / 4 >= length
        &&& s == 1 || ((s - 1) * (s - 1) + (s - 1)) * stride + stride / 4 < length
    }
}

/// See [`is_rotation_stride`].
pub fn rotation_stride(length: usize, stride: usize) -> (s: usize)
    requires
        1 <= stride <= 0x1_0000,
        length <= 0x1_0000,
    ensures
        is_rotation_stride(length as int, stride as int, s as int),
{
    if length < 8 * stride {
        return 0;
    }
    let mut s: u64 = 1;
    let b: u64 = stride as u64;
    let n: u64 = length as u64;
    proof {
        assert((1 * 1 + 1) * b == 2 * b) by (nonlinear_arith);
    }
    while (s * s + s) * b + b / 4 < n
        invariant
            1 <= b <= 0x1_0000,
            b == stride,
            n == length,
            n <= 0x1_0000,
            1 <= s <= 0x1_0000,
            s == 1 || ((s - 1) * (s - 1) + (s - 1)) * b + b / 4 < n,
            0 <= s * s + s <= 0x1_0000_0000 + 0x1_0000,
            0 <= (s * s + s) * b <= (0x1_0000_0000 + 0x1_0000) * 0x1_0000,
        decreases 0x1_0000 - s,
    {
        proof {
            let x: int = s as int;
            let y: int = b as int;
            assert(x * x + x < 0x1_0000 && x < 0x100 && (x + 1) * (x + 1) + (x + 1) >= 0) by (
            nonlinear_arith)
                requires
                    (x * x + x) * y < 0x1_0000,
                    y >= 1,
                    x >= 1,
            ;
            let w: int = (x + 1) * (x + 1) + (x + 1);
            assert(0 <= w <= 0x1_0000_0000) by (nonlinear_arith)
                requires
                    w == (x + 1) * (x + 1) + (x + 1),
                    1 <= x < 0x100,
            ;
            assert(0 <= w * y <= 0x1_0000_0000 * 0x1_0000) by (nonlinear_arith)
                requires
                    0 <= w <= 0x1_0000_0000,
                    0 <= y <= 0x1_0000,
            ;
        }
        s += 1;
    }
    s as usize
}

/// Whether any component of a block is not zero.
pub open spec fn block_is_live(y: Seq<i32>, size: int, block: int) -> bool {
    exists|j: int| block * size <= j < (block + 1) * size && #[trigger] y[j] != 0
}

/// One bit for each of the first `b` blocks of `size` components, set where the
/// block is live.
pub open spec fn live_blocks(y: Seq<i32>, size: int, b: nat) -> nat
    decreases b,
{
    if b == 0 {
        0
    } else {
        live_blocks(y, size, (b - 1) as nat) + (if block_is_live(y, size, b - 1) {
            pow2((b - 1) as nat)
        } else {
            0
        })
    }
}

/// Which of the `b` equal blocks of a band received any pulse. A band in one
/// block counts as live.
pub fn extract_collapse_mask(iy: &[i32], n: usize, b: usize) -> (mask: u32)
    requires
        b <= 32,
        n <= iy@.len(),
    ensures
        mask == if b <= 1 {
            1
        } else {
            live_blocks(iy@, n as int / b as int, b as nat)
        },
{
    if b <= 1 {
        return 1;
    }
    let n0: usize = n / b;
    let mut mask: u64 = 0;
    let mut weight: u64 = 1;
    let mut i: usize = 0;
    proof {
        lemma2_to64();
        assert(n0 * b <= n) by (nonlinear_arith)
            requires
                n0 == n / b,
                b > 0,
        ;
    }
    while i < b
        invariant
            i <= b <= 32,
            n0 * b <= n <= iy@.len(),
            weight == pow2(i as nat),
            mask == live_blocks(iy@, n0 as int, i as nat),
            mask < weight,
            pow2(32) == 0x1_0000_0000,
        decreases b - i,
    {
        proof {
            lemma_pow2_unfold((i + 1) as nat);
            if i < 32 {
                lemma_pow2_strictly_increases(i as nat, 32);
            }
            assert(0 <= i * n0 && i * n0 + n0 == (i + 1) * n0 && (i + 1) * n0 <= n0 * b)
                by (nonlinear_arith)
                requires
                    i < b,
                    0 <= i,
                    0 <= n0,
            ;
        }
        let base: usize = i * n0;
        let mut live = false;
        let mut j: usize = 0;
        while j < n0
            invariant
                j <= n0,
                base == i * n0,
                base + n0 <= n <= iy@.len(),
                base + n0 == (i + 1) * n0,
                live == exists|t: int| base <= t < base + j && #[trigger] iy@[t] != 0,
            decreases n0 - j,
        {
            if iy[base + j] != 0 {
                live = true;
                assert(iy@[base + j] != 0);
            }
            j += 1;
        }
        assert(live == block_is_live(iy@, n0 as int, i as int));
        if live {
            mask = mask + weight;
        }
        weight = weight * 2;
        i += 1;
    }
    proof {
        if b < 32 {
            lemma_pow2_strictly_increases(b as nat, 32);
        }
    }
    mask as u32
}

} // verus!
