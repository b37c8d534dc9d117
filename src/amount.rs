//! Exact decimal money amounts: a non-negative mantissa and a count of
//! decimal places, and their exact sums.
use vstd::prelude::*;

verus! {

/// The largest mantissa a decimal can hold: 2^96 - 1.
pub const MAX_MANTISSA: u128 = 79228162514264337593543950335;

/// The largest number of decimal places a decimal can hold.
pub const MAX_SCALE: u32 = 28;

pub open spec fn pow10(n: nat) -> nat
    decreases n,
{
    if n == 0 {
        1
    } else {
        10 * pow10((n - 1) as nat)
    }
}

/// A non-negative decimal amount, worth `mantissa / 10^scale`. `==` compares the
/// written form (12.0 differs from 12); `same_value` compares worth.
#[derive(Clone, Copy, Debug, PartialEq, Eq, Structural)]
pub struct Amount {
    pub mantissa: u128,
    pub scale: u32,
}

impl Amount {
    /// Within the range of a decimal.
    pub open spec fn wf(self) -> bool {
        self.mantissa <= MAX_MANTISSA && self.scale <= MAX_SCALE
    }

    /// The amount counted in units of 10^-28.
    pub open spec fn units(self) -> int {
        self.mantissa * pow10((MAX_SCALE - self.scale) as nat)
    }

    /// Zero, with no decimal places.
    pub fn zero() -> (r: Amount)
        ensures
            r.wf(),
            r.units() == 0,
            r == (Amount { mantissa: 0, scale: 0 }),
    {
        Amount { mantissa: 0, scale: 0 }
    }

    /// Whether the amount lies within the range of a decimal.
    pub fn is_valid(&self) -> (r: bool)
        ensures
            r == self.wf(),
    {
        self.mantissa <= MAX_MANTISSA && self.scale <= MAX_SCALE
    }

    /// Reads an amount written as a decimal number; `None` when the text is
    /// not a decimal number or is negative.
    pub fn from_text(s: &str) -> (r: Option<Amount>)
        ensures
            r == amount_of_text(s@),
            r matches Some(a) ==> a.wf(),
    {
        match parse_decimal(s) {
            Some((m, sc)) => {
                if m < 0 {
                    None
                } else {
                    Some(Amount { mantissa: m as u128, scale: sc })
                }
            },
            None => None,
        }
    }

    /// The amount written out as a decimal number, keeping its decimal places.
    pub fn to_text(&self) -> (r: String)
        requires
            self.wf(),
        ensures
            r@ == decimal_text(self.mantissa as int, self.scale as int),
    {
        render_decimal(self.mantissa, self.scale)
    }

    /// Whether two amounts are worth the same, whatever their decimal places.
    pub fn same_value(&self, other: &Amount) -> (r: bool)
        requires
            self.wf(),
            other.wf(),
        ensures
            r == (self.units() == other.units()),
    {
        if self.scale <= other.scale {
            same_value_aligned(self, other)
        } else {
            same_value_aligned(other, self)
        }
    }
}

fn same_value_aligned(low: &Amount, high: &Amount) -> (r: bool)
    requires
        low.wf(),
        high.wf(),
        low.scale <= high.scale,
    ensures
        r == (low.units() == high.units()),
{
    let p = pow10_exec(high.scale - low.scale);
    let ghost d = (MAX_SCALE - high.scale) as nat;
    proof {
        lemma_pow10_add((high.scale - low.scale) as nat, d);
        lemma_pow10_positive(d);
        assert(low.units() == low.mantissa * (pow10((high.scale - low.scale) as nat) * pow10(d)));
        assert(low.mantissa * (pow10((high.scale - low.scale) as nat) * pow10(d)) == (low.mantissa * pow10((high.scale - low.scale) as nat)) * pow10(d)) by (nonlinear_arith);
        lemma_mul_cancel(low.mantissa * pow10((high.scale - low.scale) as nat), high.mantissa as int, pow10(d) as int);
    }
    match low.mantissa.checked_mul(p) {
        Some(v) => v == high.mantissa,
        None => false,
    }
}

proof fn lemma_mul_cancel(a: int, b: int, c: int)
    requires
        c > 0,
    ensures
        (a * c == b * c) == (a == b),
{
    if a * c == b * c {
        assert((a - b) * c == 0) by (nonlinear_arith)
            requires a * c == b * c;
        assert(a - b == 0) by (nonlinear_arith)
            requires (a - b) * c == 0, c > 0;
    }
}

/// What rust_decimal reads from a text: mantissa and scale, or nothing when
/// the text is not a decimal number.
pub uninterp spec fn decimal_of(s: Seq<char>) -> Option<(i128, u32)>;

/// How rust_decimal writes the decimal `mantissa / 10^scale`.
pub uninterp spec fn decimal_text(mantissa: int, scale: int) -> Seq<char>;

/// The non-negative amount a text denotes, if any.
pub open spec fn amount_of_text(s: Seq<char>) -> Option<Amount> {
    match decimal_of(s) {
        Some((m, sc)) => if m >= 0 {
            Some(Amount { mantissa: m as u128, scale: sc })
        } else {
            None
        },
        None => None,
    }
}

/// Relies on `rust_decimal::Decimal::from_str` to read a decimal number, and on
/// `Decimal::mantissa` / `Decimal::scale` to take it apart. A decimal has at most
/// 28 decimal places and a mantissa of at most 96 bits.
#[verifier::external_body]
pub(crate) fn parse_decimal(s: &str) -> (r: Option<(i128, u32)>)
    ensures
        r == decimal_of(s@),
        r matches Some((m, sc)) ==> sc <= MAX_SCALE && -(MAX_MANTISSA as int) <= m
            <= MAX_MANTISSA,
{
    <rust_decimal::Decimal as std::str::FromStr>::from_str(s).ok().map(|d| (d.mantissa(), d.scale()))
}

/// Relies on `rust_decimal::Decimal::from_i128_with_scale` (which panics outside the
/// range below) and on the decimal's `to_string`.
#[verifier::external_body]
fn render_decimal(mantissa: u128, scale: u32) -> (r: String)
    requires
        mantissa <= MAX_MANTISSA,
        scale <= MAX_SCALE,
    ensures
        r@ == decimal_text(mantissa as int, scale as int),
{
    rust_decimal::Decimal::from_i128_with_scale(mantissa as i128, scale).to_string()
}

// ---------------------------------------------------------------------------
// Exact sums
// ---------------------------------------------------------------------------

/// The largest number of decimal places among the amounts (0 for none).
pub open spec fn max_scale(s: Seq<Amount>) -> nat
    decreases s.len(),
{
    if s.len() == 0 {
        0
    } else {
        let m = max_scale(s.drop_last());
        if s.last().scale > m {
            s.last().scale as nat
        } else {
            m
        }
    }
}

/// The sum of the amounts, each written with `sc` decimal places, as a mantissa.
pub open spec fn aligned_sum(s: Seq<Amount>, sc: nat) -> int
    decreases s.len(),
{
    if s.len() == 0 {
        0
    } else {
        aligned_sum(s.drop_last(), sc) + s.last().mantissa * pow10((sc - s.last().scale) as nat)
    }
}

/// The sum of the amounts in units of 10^-28.
pub open spec fn sum_units(s: Seq<Amount>) -> int
    decreases s.len(),
{
    if s.len() == 0 {
        0
    } else {
        sum_units(s.drop_last()) + s.last().units()
    }
}

/// The exact sum of the amounts, written with as many decimal places as the most
/// precise of them; `None` when it does not fit in a decimal.
pub open spec fn total_of(s: Seq<Amount>) -> Option<Amount> {
    let sc = max_scale(s);
    let m = aligned_sum(s, sc);
    if m <= MAX_MANTISSA {
        Some(Amount { mantissa: m as u128, scale: sc as u32 })
    } else {
        None
    }
}

pub open spec fn all_wf(s: Seq<Amount>) -> bool {
    forall|i: int| 0 <= i < s.len() ==> (#[trigger] s[i]).wf()
}

pub proof fn lemma_pow10_positive(n: nat)
    ensures
        pow10(n) >= 1,
    decreases n,
{
    if n > 0 {
        lemma_pow10_positive((n - 1) as nat);
    }
}

pub proof fn lemma_pow10_add(a: nat, b: nat)
    ensures
        pow10(a + b) == pow10(a) * pow10(b),
    decreases a,
{
    if a > 0 {
        let a1 = (a - 1) as nat;
        lemma_pow10_add(a1, b);
        assert(pow10(a) == 10 * pow10(a1));
        assert(pow10(a1 + b + 1) == 10 * pow10(a1 + b));
        assert(a + b == a1 + b + 1);
        assert(10 * (pow10(a1) * pow10(b)) == (10 * pow10(a1)) * pow10(b)) by (nonlinear_arith);
        assert(pow10(a + b) == pow10(a) * pow10(b));
    } else {
        assert(pow10(a) == 1);
        assert(a + b == b);
    }
}

proof fn lemma_pow10_monotone(a: nat, b: nat)
    requires
        a <= b,
    ensures
        pow10(a) <= pow10(b),
    decreases b,
{
    if a < b {
        lemma_pow10_monotone(a, (b - 1) as nat);
        lemma_pow10_positive((b - 1) as nat);
    }
}

/// `10^n` for at most 28 decimal places.
pub fn pow10_exec(n: u32) -> (r: u128)
    requires
        n <= MAX_SCALE,
    ensures
        r == pow10(n as nat),
        r >= 1,
{
    proof {
        lemma_pow10_positive(n as nat);
    }
    let mut r: u128 = 1;
    let mut i: u32 = 0;
    while i < n
        invariant
            i <= n <= MAX_SCALE,
            r == pow10(i as nat),
        decreases n - i,
    {
        proof {
            lemma_pow10_monotone(i as nat, 27);
            reveal_with_fuel(pow10, 29);
        }
        r = r * 10;
        i = i + 1;
    }
    r
}

proof fn lemma_max_scale_bounds(s: Seq<Amount>)
    requires
        all_wf(s),
    ensures
        max_scale(s) <= MAX_SCALE,
        forall|i: int| 0 <= i < s.len() ==> (#[trigger] s[i]).scale <= max_scale(s),
    decreases s.len(),
{
    if s.len() > 0 {
        let t = s.drop_last();
        assert(all_wf(t)) by {
            assert forall|i: int| 0 <= i < t.len() implies (#[trigger] t[i]).wf() by {
                assert(t[i] == s[i]);
            }
        }
        lemma_max_scale_bounds(t);
        assert forall|i: int| 0 <= i < s.len() implies (#[trigger] s[i]).scale <= max_scale(s) by {
            if i < s.len() - 1 {
                assert(s[i] == t[i]);
            }
        }
    }
}

proof fn lemma_aligned_prefix(s: Seq<Amount>, sc: nat, i: int)
    requires
        0 <= i <= s.len(),
    ensures
        aligned_sum(s.take(i), sc) <= aligned_sum(s, sc),
    decreases s.len(),
{
    if i < s.len() {
        let t = s.drop_last();
        assert(s.take(i) == t.take(i));
        lemma_aligned_prefix(t, sc, i);
        assert(s.last().mantissa * pow10((sc - s.last().scale) as nat) >= 0) by (nonlinear_arith);
    } else {
        assert(s.take(i) == s);
    }
}

/// Written with `sc` decimal places and counted in units of 10^-28, the aligned
/// sum is the sum of the amounts.
proof fn lemma_aligned_units(s: Seq<Amount>, sc: nat)
    requires
        sc <= MAX_SCALE,
        forall|i: int| 0 <= i < s.len() ==> (#[trigger] s[i]).scale <= sc,
    ensures
        aligned_sum(s, sc) * pow10((MAX_SCALE - sc) as nat) == sum_units(s),
    decreases s.len(),
{
    if s.len() > 0 {
        let t = s.drop_last();
        assert forall|i: int| 0 <= i < t.len() implies (#[trigger] t[i]).scale <= sc by {
            assert(t[i] == s[i]);
        }
        lemma_aligned_units(t, sc);
        let a = s.last();
        assert(a.scale <= sc) by {
            assert(a == s[s.len() - 1]);
        }
        let x = pow10((sc - a.scale) as nat);
        let y = pow10((MAX_SCALE - sc) as nat);
        lemma_pow10_add((sc - a.scale) as nat, (MAX_SCALE - sc) as nat);
        assert((sc - a.scale) as nat + (MAX_SCALE - sc) as nat == (MAX_SCALE - a.scale) as nat);
        assert(a.units() == a.mantissa * (x * y));
        assert((aligned_sum(t, sc) + a.mantissa * x) * y == aligned_sum(t, sc) * y + a.mantissa * (
        x * y)) by (nonlinear_arith);
    }
}

/// The total of amounts, when there is one, is worth exactly their sum.
pub proof fn lemma_total_exact(s: Seq<Amount>)
    requires
        all_wf(s),
        total_of(s) is Some,
    ensures
        total_of(s).unwrap().wf(),
        total_of(s).unwrap().units() == sum_units(s),
{
    lemma_max_scale_bounds(s);
    lemma_aligned_units(s, max_scale(s));
    lemma_aligned_prefix(s, max_scale(s), 0);
    assert(s.take(0) == Seq::<Amount>::empty());
}

/// The exact sum of the amounts, or `None` when it does not fit in a decimal.
pub fn sum_amounts(amounts: &Vec<Amount>) -> (r: Option<Amount>)
    requires
        all_wf(amounts@),
    ensures
        r == total_of(amounts@),
        r matches Some(t) ==> t.wf(),
{
    let n = amounts.len();
    let mut sc: u32 = 0;
    let mut i: usize = 0;
    while i < n
        invariant
            n == amounts@.len(),
            i <= n,
            all_wf(amounts@),
            sc == max_scale(amounts@.take(i as int)),
        decreases n - i,
    {
        assert(amounts@.take(i + 1).drop_last() == amounts@.take(i as int));
        if amounts[i].scale > sc {
            sc = amounts[i].scale;
        }
        i = i + 1;
    }
    assert(amounts@.take(n as int) == amounts@);
    proof {
        lemma_max_scale_bounds(amounts@);
    }
    let mut sum: u128 = 0;
    let mut j: usize = 0;
    while j < n
        invariant
            n == amounts@.len(),
            j <= n,
            all_wf(amounts@),
            sc == max_scale(amounts@),
            sc <= MAX_SCALE,
            forall|k: int| 0 <= k < n ==> (#[trigger] amounts@[k]).scale <= sc,
            sum == aligned_sum(amounts@.take(j as int), sc as nat),
            sum <= MAX_MANTISSA,
        decreases n - j,
    {
        let a = amounts[j];
        assert(a.scale <= sc);
        let p = pow10_exec(sc - a.scale);
        assert(amounts@.take(j + 1).drop_last() == amounts@.take(j as int));
        proof {
            lemma_aligned_prefix(amounts@, sc as nat, j + 1);
        }
        match a.mantissa.checked_mul(p) {
            None => {
                return None;
            },
            Some(term) => {
                if term > MAX_MANTISSA - sum {
                    return None;
                }
                sum = sum + term;
            },
        }
        j = j + 1;
    }
    assert(amounts@.take(n as int) == amounts@);
    Some(Amount { mantissa: sum, scale: sc })
}

pub proof fn lemma_max_scale_concat(a: Seq<Amount>, b: Seq<Amount>)
    ensures
        max_scale(a + b) == if max_scale(a) >= max_scale(b) {
            max_scale(a)
        } else {
            max_scale(b)
        },
    decreases b.len(),
{
    if b.len() == 0 {
        assert(a + b == a);
    } else {
        assert((a + b).drop_last() == a + b.drop_last());
        assert((a + b).last() == b.last());
        lemma_max_scale_concat(a, b.drop_last());
    }
}

pub proof fn lemma_aligned_concat(a: Seq<Amount>, b: Seq<Amount>, sc: nat)
    ensures
        aligned_sum(a + b, sc) == aligned_sum(a, sc) + aligned_sum(b, sc),
    decreases b.len(),
{
    if b.len() == 0 {
        assert(a + b == a);
    } else {
        assert((a + b).drop_last() == a + b.drop_last());
        assert((a + b).last() == b.last());
        lemma_aligned_concat(a, b.drop_last(), sc);
    }
}

/// Where an amount stands among others does not change their total.
pub proof fn lemma_total_middle(a: Seq<Amount>, x: Amount, b: Seq<Amount>)
    ensures
        total_of(a + seq![x] + b) == total_of((a + b).push(x)),
{
    let l = a + seq![x] + b;
    let r = (a + b).push(x);
    assert(r == (a + b) + seq![x]);
    lemma_max_scale_concat(a, seq![x]);
    lemma_max_scale_concat(a + seq![x], b);
    lemma_max_scale_concat(a, b);
    lemma_max_scale_concat(a + b, seq![x]);
    assert(seq![x].drop_last() == Seq::<Amount>::empty());
    assert(max_scale(l) == max_scale(r));
    let sc = max_scale(l);
    lemma_aligned_concat(a, seq![x], sc);
    lemma_aligned_concat(a + seq![x], b, sc);
    lemma_aligned_concat(a, b, sc);
    lemma_aligned_concat(a + b, seq![x], sc);
}

/// Every amount has no more decimal places than the most precise of them.
pub proof fn lemma_scales_within_max(s: Seq<Amount>)
    ensures
        forall|i: int| 0 <= i < s.len() ==> (#[trigger] s[i]).scale <= max_scale(s),
    decreases s.len(),
{
    if s.len() > 0 {
        let t = s.drop_last();
        lemma_scales_within_max(t);
        assert forall|i: int| 0 <= i < s.len() implies (#[trigger] s[i]).scale <= max_scale(s) by {
            if i < s.len() - 1 {
                assert(s[i] == t[i]);
            }
        }
    }
}

pub proof fn lemma_aligned_nonneg(s: Seq<Amount>, sc: nat)
    ensures
        aligned_sum(s, sc) >= 0,
{
    lemma_aligned_prefix(s, sc, 0);
    assert(s.take(0) == Seq::<Amount>::empty());
}

/// Writing every amount with `d` more decimal places multiplies the aligned sum by 10^d.
proof fn lemma_aligned_rescale(s: Seq<Amount>, sc: nat, d: nat)
    requires
        forall|i: int| 0 <= i < s.len() ==> (#[trigger] s[i]).scale <= sc,
    ensures
        aligned_sum(s, sc + d) == aligned_sum(s, sc) * pow10(d),
    decreases s.len(),
{
    if s.len() > 0 {
        let t = s.drop_last();
        assert forall|i: int| 0 <= i < t.len() implies (#[trigger] t[i]).scale <= sc by {
            assert(t[i] == s[i]);
        }
        lemma_aligned_rescale(t, sc, d);
        let a = s.last();
        assert(a == s[s.len() - 1]);
        let e = (sc - a.scale) as nat;
        lemma_pow10_add(e, d);
        assert((sc + d - a.scale) as nat == e + d);
        assert(a.mantissa * (pow10(e) * pow10(d)) == (a.mantissa * pow10(e)) * pow10(d))
            by (nonlinear_arith);
        assert((aligned_sum(t, sc) + a.mantissa * pow10(e)) * pow10(d) == aligned_sum(t, sc) * pow10(d)
            + (a.mantissa * pow10(e)) * pow10(d)) by (nonlinear_arith);
    }
}

/// Amounts that are no more precise than others, and whose aligned sum is no
/// larger, have a total whenever the others have one.
pub proof fn lemma_total_of_smaller(t: Seq<Amount>, s: Seq<Amount>)
    requires
        total_of(s) is Some,
        max_scale(t) <= max_scale(s),
        aligned_sum(t, max_scale(s)) <= aligned_sum(s, max_scale(s)),
    ensures
        total_of(t) is Some,
{
    let d = (max_scale(s) - max_scale(t)) as nat;
    lemma_scales_within_max(t);
    lemma_aligned_rescale(t, max_scale(t), d);
    lemma_aligned_nonneg(t, max_scale(t));
    lemma_pow10_positive(d);
    assert(max_scale(t) + d == max_scale(s));
    assert(aligned_sum(t, max_scale(t)) <= aligned_sum(t, max_scale(t)) * pow10(d)) by (nonlinear_arith)
        requires
            aligned_sum(t, max_scale(t)) >= 0,
            pow10(d) >= 1,
    ;
}

pub proof fn lemma_sum_units_concat(a: Seq<Amount>, b: Seq<Amount>)
    ensures
        sum_units(a + b) == sum_units(a) + sum_units(b),
    decreases b.len(),
{
    if b.len() == 0 {
        assert(a + b == a);
    } else {
        assert((a + b).drop_last() == a + b.drop_last());
        assert((a + b).last() == b.last());
        lemma_sum_units_concat(a, b.drop_last());
    }
}

} // verus!
