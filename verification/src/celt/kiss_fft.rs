//! The plan of a mixed-radix FFT: how its length factors, and the order in
//! which its first stage reads the input.

use vstd::arithmetic::div_mod::{lemma_div_multiples_vanish, lemma_fundamental_div_mod_converse};
use vstd::arithmetic::power2::{lemma2_to64, lemma_pow2_unfold, pow2};
use vstd::prelude::*;

verus! {

/// The product of a sequence of factors.
pub open spec fn product(s: Seq<int>) -> int
    decreases s.len(),
{
    if s.len() == 0 {
        1
    } else {
        s[0] * product(s.skip(1))
    }
}

/// How often `p` divides `n`.
pub open spec fn multiplicity(n: int, p: int) -> nat
    decreases n,
{
    if n <= 0 || p <= 1 || n % p != 0 || n / p >= n {
        0
    } else {
        1 + multiplicity(n / p, p)
    }
}

/// `n` without its factors `p`.
pub open spec fn without(n: int, p: int) -> int
    decreases n,
{
    if n <= 0 || p <= 1 || n % p != 0 || n / p >= n {
        n
    } else {
        without(n / p, p)
    }
}

/// The same factor `k` times.
pub open spec fn repeated(p: int, k: nat) -> Seq<int> {
    Seq::new(k, |i: int| p)
}

/// The even radices of a transform: fours, and where the length leaves a two it
/// stands second.
pub open spec fn even_radices(n: int) -> Seq<int> {
    let fours = multiplicity(n, 4);
    if without(n, 4) % 2 == 0 {
        if fours == 0 {
            seq![2int]
        } else {
            seq![4int, 2] + repeated(4, (fours - 1) as nat)
        }
    } else {
        repeated(4, fours)
    }
}

/// The length without its even factors.
pub open spec fn odd_part(n: int) -> int {
    if without(n, 4) % 2 == 0 {
        without(n, 4) / 2
    } else {
        without(n, 4)
    }
}

/// Whether a length has no prime factor above 5.
pub open spec fn is_smooth(n: int) -> bool {
    without(without(odd_part(n), 3), 5) == 1
}

/// The radices of a transform in the order they were found.
pub open spec fn found_radices(n: int) -> Seq<int> {
    if n == 1 {
        seq![1int]
    } else {
        even_radices(n) + repeated(3, multiplicity(odd_part(n), 3)) + repeated(
            5,
            multiplicity(without(odd_part(n), 3), 5),
        )
    }
}

/// The radices of a transform in the order its stages run.
pub open spec fn radices(n: int) -> Seq<int> {
    found_radices(n).reverse()
}

/// The mixed-radix digits of `x` read in the opposite order.
pub open spec fn digit_reversal(x: int, r: Seq<int>) -> int
    decreases r.len(),
{
    if r.len() == 0 {
        0
    } else {
        (x % r[0]) * product(r.skip(1)) + digit_reversal(x / r[0], r.skip(1))
    }
}

spec fn all_positive(s: Seq<int>) -> bool {
    forall|i: int| 0 <= i < s.len() ==> 1 <= #[trigger] s[i] <= 5
}

proof fn lemma_product_positive(s: Seq<int>)
    requires
        all_positive(s),
    ensures
        product(s) >= 1,
    decreases s.len(),
{
    if s.len() > 0 {
        let t = s.skip(1);
        assert forall|i: int| 0 <= i < t.len() implies 1 <= #[trigger] t[i] <= 5 by {
            assert(t[i] == s[i + 1]);
        }
        lemma_product_positive(t);
        let a: int = s[0];
        let b: int = product(t);
        assert(a * b >= 1) by (nonlinear_arith)
            requires
                a >= 1,
                b >= 1,
        ;
    }
}

proof fn lemma_product_concat(a: Seq<int>, b: Seq<int>)
    ensures
        product(a + b) == product(a) * product(b),
    decreases a.len(),
{
    if a.len() == 0 {
        assert(a + b =~= b);
    } else {
        assert((a + b).skip(1) =~= a.skip(1) + b);
        lemma_product_concat(a.skip(1), b);
        let x: int = a[0];
        let y: int = product(a.skip(1));
        let z: int = product(b);
        assert(x * (y * z) == (x * y) * z) by (nonlinear_arith);
    }
}

proof fn lemma_product_of_one(x: int)
    ensures
        product(seq![x]) == x,
{
    let s = seq![x];
    assert(s.skip(1) =~= Seq::<int>::empty());
    assert(product(s.skip(1)) == 1);
}

proof fn lemma_product_reverse(s: Seq<int>)
    ensures
        product(s.reverse()) == product(s),
    decreases s.len(),
{
    if s.len() == 0 {
        assert(s.reverse() =~= s);
    } else {
        let t = s.skip(1);
        lemma_product_reverse(t);
        assert(s.reverse() =~= t.reverse() + seq![s[0]]);
        lemma_product_concat(t.reverse(), seq![s[0]]);
        lemma_product_of_one(s[0]);
        let a: int = product(t);
        let b: int = s[0];
        assert(a * b == b * a) by (nonlinear_arith);
    }
}

proof fn lemma_without_times_powers(n: int, p: int)
    requires
        n > 0,
        p > 1,
    ensures
        without(n, p) * product(repeated(p, multiplicity(n, p))) == n,
        without(n, p) > 0,
        without(n, p) % p != 0,
    decreases n,
{
    if n % p != 0 {
        assert(repeated(p, 0) =~= Seq::<int>::empty());
    } else {
        assert(0 < n / p < n && (n / p) * p == n) by (nonlinear_arith)
            requires
                n > 0,
                p > 1,
                n % p == 0,
        ;
        lemma_without_times_powers(n / p, p);
        let k: nat = multiplicity(n / p, p);
        let s = repeated(p, k + 1);
        assert(s.skip(1) =~= repeated(p, k));
        let w: int = without(n / p, p);
        let q: int = product(repeated(p, k));
        assert(w * (p * q) == (w * q) * p) by (nonlinear_arith);
    }
}

proof fn lemma_even_part(n: int)
    requires
        n > 0,
    ensures
        product(even_radices(n)) * odd_part(n) == n,
        odd_part(n) > 0,
        odd_part(n) % 2 != 0,
{
    lemma_without_times_powers(n, 4);
    let f: nat = multiplicity(n, 4);
    let w: int = without(n, 4);
    let fours: int = product(repeated(4, f));
    if w % 2 == 0 {
        assert((w / 2) % 2 != 0 && w / 2 > 0);
        if f == 0 {
            assert(repeated(4, f) =~= Seq::<int>::empty());
            lemma_product_of_one(2);
        } else {
            let rest: int = product(repeated(4, (f - 1) as nat));
            assert(repeated(4, f).skip(1) =~= repeated(4, (f - 1) as nat));
            assert(fours == 4 * rest);
            let head = seq![4int, 2];
            assert(head.skip(1) =~= seq![2int]);
            lemma_product_of_one(2);
            assert(product(head) == 8);
            lemma_product_concat(head, repeated(4, (f - 1) as nat));
            assert((8 * rest) * (w / 2) == w * (4 * rest)) by (nonlinear_arith)
                requires
                    w % 2 == 0,
            ;
        }
    } else {
        assert(fours * w == w * fours) by (nonlinear_arith);
    }
}

/// A length without prime factors above 5 is the product of its radices, and
/// any other length has such a factor left over.
pub proof fn law_radices_multiply_to_the_length(n: int)
    requires
        n > 0,
        is_smooth(n),
    ensures
        product(radices(n)) == n,
        product(found_radices(n)) == n,
{
    lemma_product_reverse(found_radices(n));
    if n == 1 {
        lemma_product_of_one(1);
    } else {
        lemma_even_part(n);
        let m: int = odd_part(n);
        lemma_without_times_powers(m, 3);
        let t: int = without(m, 3);
        lemma_without_times_powers(t, 5);
        let threes = repeated(3, multiplicity(m, 3));
        let fives = repeated(5, multiplicity(t, 5));
        lemma_product_concat(even_radices(n), threes);
        lemma_product_concat(even_radices(n) + threes, fives);
        let a: int = product(even_radices(n));
        let b: int = product(threes);
        let c: int = product(fives);
        assert((a * b) * c == n) by (nonlinear_arith)
            requires
                a * m == n,
                t * b == m,
                1 * c == t,
        ;
    }
}

proof fn lemma_radices_positive(n: int)
    ensures
        all_positive(found_radices(n)),
        all_positive(radices(n)),
        found_radices(n).len() == radices(n).len(),
{
    let f = found_radices(n);
    let r = radices(n);
    assert forall|i: int| 0 <= i < r.len() implies 1 <= #[trigger] r[i] <= 5 by {
        assert(r[i] == f[f.len() - 1 - i]);
    }
}

proof fn lemma_suffix(s: Seq<int>, i: int)
    requires
        all_positive(s),
        0 <= i <= s.len(),
    ensures
        1 <= product(s.skip(i)) <= product(s),
        i < s.len() ==> product(s.skip(i)) == s[i] * product(s.skip(i + 1)),
    decreases i,
{
    let t = s.skip(i);
    assert forall|j: int| 0 <= j < t.len() implies 1 <= #[trigger] t[j] <= 5 by {
        assert(t[j] == s[i + j]);
    }
    lemma_product_positive(t);
    if i < s.len() {
        assert(t.skip(1) =~= s.skip(i + 1));
    }
    if i > 0 {
        lemma_suffix(s, i - 1);
        let a: int = s[i - 1];
        let b: int = product(t);
        assert(b <= a * b) by (nonlinear_arith)
            requires
                a >= 1,
                b >= 1,
        ;
    } else {
        assert(s.skip(0) =~= s);
    }
}

/// Machine radices as mathematical ones.
spec fn radix_ints(v: Seq<i16>) -> Seq<int> {
    Seq::new(v.len(), |i: int| v[i] as int)
}

/// Whether a list of stages has the radices of a length, each with the product
/// of those behind it.
pub open spec fn stages_of(stages: Seq<(i16, i16)>, n: int) -> bool {
    &&& stages.len() == radices(n).len()
    &&& forall|i: int|
        0 <= i < stages.len() ==> (#[trigger] stages[i]).0 == radices(n)[i] && stages[i].1
            == product(radices(n).skip(i + 1))
}

/// Take the factors `p` out of `n`, noting each.
fn take_factors(n: usize, p: usize, found: &mut Vec<i16>) -> (left: usize)
    requires
        n > 0,
        1 < p <= 5,
    ensures
        left == without(n as int, p as int),
        radix_ints(final(found)@) == radix_ints(old(found)@) + repeated(
            p as int,
            multiplicity(n as int, p as int),
        ),
{
    let mut left: usize = n;
    let ghost before = radix_ints(found@);
    let ghost mut k: nat = 0;
    assert(radix_ints(found@) =~= before + repeated(p as int, 0));
    while left % p == 0
        invariant
            left > 0,
            1 < p <= 5,
            multiplicity(n as int, p as int) == k + multiplicity(left as int, p as int),
            without(n as int, p as int) == without(left as int, p as int),
            radix_ints(found@) == before + repeated(p as int, k),
        decreases left,
    {
        assert(0 < left as int / p as int && (left as int / p as int) < left) by (nonlinear_arith)
            requires
                left > 0,
                p > 1,
                left as int % p as int == 0,
        ;
        let ghost was = found@;
        found.push(p as i16);
        left = left / p;
        proof {
            assert(radix_ints(found@) =~= radix_ints(was).push(p as int));
            assert(repeated(p as int, k + 1) =~= repeated(p as int, k).push(p as int));
            assert(radix_ints(found@) =~= before + repeated(p as int, k + 1));
            k = k + 1;
        }
    }
    left
}

/// Factor a transform length into stages: for each its radix and the length of
/// the transforms below it. `None` where the length has a prime factor above 5.
pub fn kf_factor(n: usize) -> (r: Option<Vec<(i16, i16)>>)
    requires
        1 <= n <= i16::MAX,
    ensures
        match r {
            Some(stages) => is_smooth(n as int) && stages_of(stages@, n as int),
            None => !is_smooth(n as int),
        },
{
    let mut found: Vec<i16> = Vec::new();
    assert(radix_ints(found@) =~= Seq::<int>::empty());
    let mut left: usize = take_factors(n, 4, &mut found);
    proof {
        lemma_without_times_powers(n as int, 4);
        lemma_even_part(n as int);
        assert(radix_ints(found@) =~= repeated(4, multiplicity(n as int, 4)));
    }
    if left % 2 == 0 {
        left = left / 2;
        let ghost was = found@;
        if found.len() == 0 {
            found.push(2);
        } else {
            found.push(4);
            found.set(1, 2);
        }
        proof {
            assert(radix_ints(was) == repeated(4, was.len()));
            assert forall|i: int| 0 <= i < was.len() implies #[trigger] was[i] == 4 by {
                assert(radix_ints(was)[i] == was[i]);
            }
            assert(radix_ints(found@) =~= even_radices(n as int));
        }
    }
    assert(radix_ints(found@) == even_radices(n as int));
    assert(left == odd_part(n as int));
    let left: usize = take_factors(left, 3, &mut found);
    proof {
        lemma_without_times_powers(odd_part(n as int), 3);
    }
    let left: usize = take_factors(left, 5, &mut found);
    if left != 1 {
        return None;
    }
    if n == 1 {
        found.clear();
        found.push(1);
        assert(radix_ints(found@) =~= seq![1int]);
    }
    let ghost r = radices(n as int);
    proof {
        law_radices_multiply_to_the_length(n as int);
        lemma_radices_positive(n as int);
        assert(radix_ints(found@) =~= found_radices(n as int));
    }
    let mut stages: Vec<(i16, i16)> = Vec::new();
    let mut rest: usize = n;
    let mut i: usize = 0;
    let count: usize = found.len();
    assert(r.skip(0) =~= r);
    while i < count
        invariant
            i <= count,
            count == found@.len(),
            r == radices(n as int),
            r.len() == count,
            radix_ints(found@) == found_radices(n as int),
            all_positive(r),
            product(r) == n,
            n <= i16::MAX,
            rest == product(r.skip(i as int)),
            stages@.len() == i,
            forall|j: int|
                0 <= j < i ==> (#[trigger] stages@[j]).0 == r[j] && stages@[j].1 == product(
                    r.skip(j + 1),
                ),
        decreases count - i,
    {
        let p: i16 = found[count - 1 - i];
        proof {
            assert(radix_ints(found@)[count - 1 - i] == p);
            assert(r[i as int] == p);
            lemma_suffix(r, i as int);
            lemma_suffix(r, i + 1);
            let q: int = product(r.skip(i + 1));
            assert(q * p == p * q) by (nonlinear_arith);
            lemma_div_multiples_vanish(q, p as int);
        }
        rest = rest / p as usize;
        stages.push((p, rest as i16));
        i += 1;
    }
    Some(stages)
}

/// The order in which the first stage reads its input.
fn compute_bitrev_table(n: usize, stages: &Vec<(i16, i16)>) -> (table: Vec<i16>)
    requires
        1 <= n <= i16::MAX,
        is_smooth(n as int),
        stages_of(stages@, n as int),
    ensures
        table@.len() == n,
        forall|x: int|
            0 <= x < n ==> #[trigger] table@[x] == digit_reversal(x, radices(n as int)),
{
    let ghost r = radices(n as int);
    proof {
        lemma_radices_positive(n as int);
        law_radices_multiply_to_the_length(n as int);
    }
    let mut table: Vec<i16> = Vec::new();
    let mut x: usize = 0;
    while x < n
        invariant
            x <= n,
            1 <= n <= i16::MAX,
            r == radices(n as int),
            all_positive(r),
            product(r) == n,
            stages_of(stages@, n as int),
            table@.len() == x,
            forall|y: int| 0 <= y < x ==> #[trigger] table@[y] == digit_reversal(y, r),
        decreases n - x,
    {
        let mut rest: usize = x;
        let mut value: usize = 0;
        let mut i: usize = 0;
        proof {
            assert(r.skip(0) =~= r);
            lemma_reversal_in_range(x as int, r);
        }
        while i < stages.len()
            invariant
                i <= stages@.len(),
                1 <= n <= i16::MAX,
                x < n,
                r == radices(n as int),
                all_positive(r),
                product(r) == n,
                stages_of(stages@, n as int),
                rest < product(r.skip(i as int)),
                value + digit_reversal(rest as int, r.skip(i as int)) == digit_reversal(
                    x as int,
                    r,
                ),
                0 <= digit_reversal(rest as int, r.skip(i as int)),
                digit_reversal(x as int, r) < n,
            decreases stages@.len() - i,
        {
            let p: usize = stages[i].0 as usize;
            let m: usize = stages[i].1 as usize;
            proof {
                let t = r.skip(i as int);
                assert(t.skip(1) =~= r.skip(i + 1));
                lemma_suffix(r, i as int);
                lemma_suffix(r, i + 1);
                assert(rest as int / p as int <= rest && (rest as int / p as int) < m)
                    by (nonlinear_arith)
                    requires
                        p >= 1,
                        rest >= 0,
                        rest < p * m,
                ;
                assert forall|j: int| 0 <= j < t.skip(1).len() implies 1 <= #[trigger] t.skip(
                    1,
                )[j] <= 5 by {
                    assert(t.skip(1)[j] == r[i + 1 + j]);
                }
                lemma_reversal_in_range(rest as int / p as int, t.skip(1));
                assert(0 <= (rest as int % p as int) * m) by (nonlinear_arith)
                    requires
                        0 <= rest as int % p as int,
                        0 <= m,
                ;
            }
            value = value + (rest % p) * m;
            rest = rest / p;
            i += 1;
        }
        assert(r.skip(i as int) =~= Seq::<int>::empty());
        table.push(value as i16);
        x += 1;
    }
    table
}

proof fn lemma_reversal_in_range(x: int, r: Seq<int>)
    requires
        all_positive(r),
        0 <= x < product(r),
    ensures
        0 <= digit_reversal(x, r) < product(r),
    decreases r.len(),
{
    if r.len() > 0 {
        let t = r.skip(1);
        let p: int = r[0];
        let m: int = product(t);
        assert forall|i: int| 0 <= i < t.len() implies 1 <= #[trigger] t[i] <= 5 by {
            assert(t[i] == r[i + 1]);
        }
        assert(0 <= x / p < m && 0 <= x % p < p) by (nonlinear_arith)
            requires
                0 <= x < p * m,
                p >= 1,
        ;
        lemma_reversal_in_range(x / p, t);
        let d: int = x % p;
        let v: int = digit_reversal(x / p, t);
        assert(0 <= d * m + v < p * m) by (nonlinear_arith)
            requires
                0 <= d < p,
                0 <= v < m,
        ;
    }
}

proof fn lemma_reversal_injective(x: int, y: int, r: Seq<int>)
    requires
        all_positive(r),
        0 <= x < product(r),
        0 <= y < product(r),
        digit_reversal(x, r) == digit_reversal(y, r),
    ensures
        x == y,
    decreases r.len(),
{
    if r.len() > 0 {
        let t = r.skip(1);
        let p: int = r[0];
        let m: int = product(t);
        assert forall|i: int| 0 <= i < t.len() implies 1 <= #[trigger] t[i] <= 5 by {
            assert(t[i] == r[i + 1]);
        }
        assert(0 <= x / p < m && x == p * (x / p) + x % p) by (nonlinear_arith)
            requires
                0 <= x < p * m,
                p >= 1,
        ;
        assert(0 <= y / p < m && y == p * (y / p) + y % p) by (nonlinear_arith)
            requires
                0 <= y < p * m,
                p >= 1,
        ;
        lemma_reversal_in_range(x / p, t);
        lemma_reversal_in_range(y / p, t);
        let a: int = digit_reversal(x, r);
        lemma_fundamental_div_mod_converse(a, m, x % p, digit_reversal(x / p, t));
        lemma_fundamental_div_mod_converse(a, m, y % p, digit_reversal(y / p, t));
        lemma_reversal_injective(x / p, y / p, t);
    }
}

/// The reading order of a transform is a permutation: every position is read,
/// and none twice.
pub proof fn law_reading_order_is_a_permutation(n: int)
    requires
        n > 0,
        is_smooth(n),
    ensures
        forall|x: int| 0 <= x < n ==> 0 <= #[trigger] digit_reversal(x, radices(n)) < n,
        forall|x: int, y: int|
            0 <= x < n && 0 <= y < n && #[trigger] digit_reversal(x, radices(n))
                == #[trigger] digit_reversal(y, radices(n)) ==> x == y,
{
    let r = radices(n);
    lemma_radices_positive(n);
    law_radices_multiply_to_the_length(n);
    assert forall|x: int| 0 <= x < n implies 0 <= #[trigger] digit_reversal(x, r) < n by {
        lemma_reversal_in_range(x, r);
    }
    assert forall|x: int, y: int|
        0 <= x < n && 0 <= y < n && #[trigger] digit_reversal(x, r) == #[trigger] digit_reversal(
            y,
            r,
        ) implies x == y by {
        lemma_reversal_injective(x, y, r);
    }
}

/// What a transform of one length needs besides its twiddle factors.
#[derive(Debug, Clone)]
pub struct FftPlan {
    nfft: usize,
    shift: i32,
    factors: Vec<(i16, i16)>,
    bitrev: Vec<i16>,
}

impl FftPlan {
    /// The length of the transform.
    pub closed spec fn spec_len(&self) -> int {
        self.nfft as int
    }

    /// How many halvings lead from the length of the twiddle factors to this
    /// length; `-1` where the plan has its own.
    pub closed spec fn spec_shift(&self) -> int {
        self.shift as int
    }

    /// The stages.
    pub closed spec fn spec_factors(&self) -> Seq<(i16, i16)> {
        self.factors@
    }

    /// The reading order.
    pub closed spec fn spec_bitrev(&self) -> Seq<i16> {
        self.bitrev@
    }

    /// Whether the plan is one for `n`.
    pub open spec fn is_plan(&self, n: int) -> bool {
        &&& self.spec_len() == n
        &&& is_smooth(n)
        &&& stages_of(self.spec_factors(), n)
        &&& self.spec_bitrev().len() == n
        &&& forall|x: int|
            0 <= x < n ==> #[trigger] self.spec_bitrev()[x] == digit_reversal(x, radices(n))
    }

    /// A plan with twiddle factors of its own; `None` where the length has a
    /// prime factor above 5.
    pub fn new(nfft: usize) -> (r: Option<Self>)
        requires
            1 <= nfft <= i16::MAX,
        ensures
            match r {
                Some(plan) => plan.is_plan(nfft as int) && plan.spec_shift() == -1,
                None => !is_smooth(nfft as int),
            },
    {
        match kf_factor(nfft) {
            None => None,
            Some(factors) => {
                let bitrev: Vec<i16> = compute_bitrev_table(nfft, &factors);
                Some(FftPlan { nfft, shift: -1, factors, bitrev })
            },
        }
    }

    /// A plan that shares the twiddle factors of `base`, whose length must be a
    /// power of two times `nfft`.
    pub fn new_sub(base: &FftPlan, nfft: usize) -> (r: Option<Self>)
        requires
            1 <= nfft <= i16::MAX,
        ensures
            match r {
                Some(plan) => {
                    &&& plan.is_plan(nfft as int)
                    &&& 0 <= plan.spec_shift() < 32
                    &&& nfft * pow2(plan.spec_shift() as nat) == base.spec_len()
                },
                None => !is_smooth(nfft as int) || forall|s: nat|
                    s < 32 ==> nfft * #[trigger] pow2(s) != base.spec_len(),
            },
    {
        match kf_factor(nfft) {
            None => None,
            Some(factors) => {
                let mut shift: i32 = 0;
                let mut scaled: u64 = nfft as u64;
                proof {
                    lemma2_to64();
                    assert(pow2(0) == 1);
                    let a: int = nfft as int;
                    assert(a * 1 == a) by (nonlinear_arith);
                }
                while shift < 32 && scaled != base.nfft as u64
                    invariant
                        0 <= shift <= 32,
                        1 <= nfft <= i16::MAX,
                        scaled == nfft * pow2(shift as nat),
                        scaled <= 0x7fff * pow2(shift as nat),
                        pow2(32) == 0x1_0000_0000,
                        forall|s: nat| s < shift ==> nfft * #[trigger] pow2(s) != base.spec_len(),
                    decreases 32 - shift,
                {
                    proof {
                        lemma_pow2_unfold((shift + 1) as nat);
                        vstd::arithmetic::power2::lemma_pow2_strictly_increases(shift as nat, 32);
                        let a: int = nfft as int;
                        let b: int = pow2(shift as nat) as int;
                        assert(a * (2 * b) == 2 * (a * b)) by (nonlinear_arith);
                    }
                    scaled = scaled * 2;
                    shift += 1;
                }
                if shift >= 32 {
                    return None;
                }
                let bitrev: Vec<i16> = compute_bitrev_table(nfft, &factors);
                Some(FftPlan { nfft, shift, factors, bitrev })
            },
        }
    }

    /// The length of the transform.
    pub fn nfft(&self) -> (n: usize)
        ensures
            n == self.spec_len(),
    {
        self.nfft
    }

    /// The halvings between the twiddle factors and this length.
    pub fn shift(&self) -> (s: i32)
        ensures
            s == self.spec_shift(),
    {
        self.shift
    }

    /// The stages: for each its radix and the length below it.
    pub fn factors(&self) -> (f: &Vec<(i16, i16)>)
        ensures
            f@ == self.spec_factors(),
    {
        &self.factors
    }

    /// The order in which the first stage reads its input.
    pub fn bitrev(&self) -> (b: &Vec<i16>)
        ensures
            b@ == self.spec_bitrev(),
    {
        &self.bitrev
    }
}

} // verus!
