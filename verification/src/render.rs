//! The report formatter: fixed-point values rendered with exactly one
//! fractional digit, the mean derived from sum and count only here, and the
//! whole report laid out as `{key=min/mean/max, ...}` in key order.

use vstd::prelude::*;
use vstd::arithmetic::div_mod::{
    lemma_div_is_ordered, lemma_fundamental_div_mod, lemma_fundamental_div_mod_converse,
};

use crate::aggregate::AggregateMap;
use crate::parse::{
    all_digits, digit_val, digits_value, is_digit, unsigned_value, valid_unsigned, valid_value,
    value_of, DOT, MINUS, ZERO,
};
use crate::stats::{StationData, StatsView, VAL_LIMIT};

verus! {

/// The separator `/` between min, mean and max.
pub const SLASH: u8 = 47;

/// The `=` between a key and its statistics.
pub const EQUALS: u8 = 61;

/// The `,` between report entries.
pub const COMMA: u8 = 44;

/// The space after each comma.
pub const SPACE: u8 = 32;

/// The opening `{` of the report.
pub const LBRACE: u8 = 123;

/// The closing `}` of the report.
pub const RBRACE: u8 = 125;

/// The decimal digits of `n`, most significant first, no sign.
pub open spec fn dec_digits(n: int) -> Seq<u8>
    decreases n,
{
    if n < 10 {
        seq![(ZERO + n) as u8]
    } else {
        dec_digits(n / 10).push((ZERO + n % 10) as u8)
    }
}

/// A non-negative fixed-point value as text: the integer part's digits, the
/// dot, the one fractional digit.
pub open spec fn render_unsigned(v: int) -> Seq<u8> {
    dec_digits(v / 10) + seq![DOT, (ZERO + v % 10) as u8]
}

/// A fixed-point value as text, with its sign.
pub open spec fn render_fixed(v: int) -> Seq<u8> {
    if v < 0 {
        seq![MINUS] + render_unsigned(-v)
    } else {
        render_unsigned(v)
    }
}

/// The mean in fixed-point: `sum / count` rounded to the nearest unit, ties
/// away from zero.
pub open spec fn mean_fixed_spec(sum: int, count: int) -> int {
    if sum >= 0 {
        (2 * sum + count) / (2 * count)
    } else {
        -((2 * (-sum) + count) / (2 * count))
    }
}

/// One key's statistics as text: `min/mean/max`.
pub open spec fn stats_render(s: StatsView) -> Seq<u8> {
    render_fixed(s.min) + seq![SLASH] + render_fixed(mean_fixed_spec(s.sum, s.count)) + seq![SLASH]
        + render_fixed(s.max)
}

/// One report entry as text: `key=min/mean/max`.
pub open spec fn entry_render(e: (Seq<u8>, StatsView)) -> Seq<u8> {
    e.0 + seq![EQUALS] + stats_render(e.1)
}

/// The report's entries, comma-space separated, in the order given.
pub open spec fn report_body(kv: Seq<(Seq<u8>, StatsView)>) -> Seq<u8>
    decreases kv.len(),
{
    if kv.len() == 0 {
        Seq::empty()
    } else if kv.len() == 1 {
        entry_render(kv[0])
    } else {
        report_body(kv.drop_last()) + seq![COMMA, SPACE] + entry_render(kv.last())
    }
}

/// The whole report: the entries between braces.
pub open spec fn report_of(kv: Seq<(Seq<u8>, StatsView)>) -> Seq<u8> {
    seq![LBRACE] + report_body(kv) + seq![RBRACE]
}

/// Append the decimal digits of `n`.
fn push_digits(buf: &mut Vec<u8>, n: u64)
    ensures
        final(buf)@ == old(buf)@ + dec_digits(n as int),
    decreases n,
{
    if n >= 10 {
        push_digits(buf, n / 10);
        buf.push(ZERO + (n % 10) as u8);
        proof {
            assert(buf@ =~= old(buf)@ + dec_digits(n as int));
        }
    } else {
        buf.push(ZERO + n as u8);
        proof {
            assert(buf@ =~= old(buf)@ + dec_digits(n as int));
        }
    }
}

/// Append a fixed-point value with one fractional digit.
fn push_fixed(buf: &mut Vec<u8>, v: i64)
    requires
        -VAL_LIMIT <= v <= VAL_LIMIT,
    ensures
        final(buf)@ == old(buf)@ + render_fixed(v as int),
{
    let mag: u64 = if v < 0 {
        buf.push(MINUS);
        (-v) as u64
    } else {
        v as u64
    };
    push_digits(buf, mag / 10);
    buf.push(DOT);
    buf.push(ZERO + (mag % 10) as u8);
    proof {
        assert(buf@ =~= old(buf)@ + render_fixed(v as int));
    }
}

impl StationData {
    /// The mean in fixed-point: `temp_sum / count` rounded to the nearest
    /// unit, ties away from zero. Always between the minimum and the
    /// maximum.
    pub fn mean_fixed(&self) -> (r: i64)
        requires
            self@.wf(),
        ensures
            r == mean_fixed_spec(self@.sum, self@.count),
            self@.min <= r <= self@.max,
    {
        proof {
            lemma_mean_in_range(self@);
            crate::stats::lemma_sum_in_i128(self@);
        }
        let c2: u128 = 2 * (self.count as u128);
        if self.temp_sum >= 0 {
            let m: u128 = (2 * (self.temp_sum as u128) + (self.count as u128)) / c2;
            m as i64
        } else {
            let m: u128 = (2 * ((-self.temp_sum) as u128) + (self.count as u128)) / c2;
            -(m as i64)
        }
    }

    /// This key's statistics as text: `min/mean/max`, each with one
    /// fractional digit.
    pub fn to_bytes(&self) -> (r: Vec<u8>)
        requires
            self@.wf(),
        ensures
            r@ == stats_render(self@),
    {
        let mut buf: Vec<u8> = Vec::new();
        push_fixed(&mut buf, self.min_temp);
        buf.push(SLASH);
        let mean = self.mean_fixed();
        push_fixed(&mut buf, mean);
        buf.push(SLASH);
        push_fixed(&mut buf, self.max_temp);
        proof {
            assert(buf@ =~= stats_render(self@));
        }
        buf
    }
}

/// The rounded mean lies between the minimum and the maximum.
pub proof fn lemma_mean_in_range(s: StatsView)
    requires
        s.wf(),
    ensures
        s.min <= mean_fixed_spec(s.sum, s.count) <= s.max,
{
    let c = s.count;
    if s.sum >= 0 {
        let m = (2 * s.sum + c) / (2 * c);
        assert(2 * s.sum + c <= 2 * c * s.max + c) by (nonlinear_arith)
            requires
                s.sum <= c * s.max,
        {}
        lemma_div_is_ordered(2 * s.sum + c, 2 * c * s.max + c, 2 * c);
        lemma_fundamental_div_mod_converse(2 * c * s.max + c, 2 * c, s.max, c);
        assert(m <= s.max);
        if s.min >= 0 {
            assert(2 * c * s.min + c <= 2 * s.sum + c) by (nonlinear_arith)
                requires
                    c * s.min <= s.sum,
            {}
            lemma_div_is_ordered(2 * c * s.min + c, 2 * s.sum + c, 2 * c);
            lemma_fundamental_div_mod_converse(2 * c * s.min + c, 2 * c, s.min, c);
        } else {
            lemma_div_is_ordered(0, 2 * s.sum + c, 2 * c);
        }
        assert(s.min <= m);
    } else {
        let neg = -s.sum;
        let q = (2 * neg + c) / (2 * c);
        let m = -q;
        // Below by at most the minimum's magnitude.
        assert(2 * (-s.sum) + c <= 2 * c * (-s.min) + c) by (nonlinear_arith)
            requires
                c * s.min <= s.sum,
        {}
        assert(2 * neg + c <= 2 * c * (-s.min) + c);
        lemma_div_is_ordered(2 * neg + c, 2 * c * (-s.min) + c, 2 * c);
        lemma_fundamental_div_mod_converse(2 * c * (-s.min) + c, 2 * c, -s.min, c);
        assert(q <= -s.min);
        assert(s.min <= m);
        // And above by at least the maximum's magnitude when that is negative.
        if s.max < 0 {
            assert(2 * c * (-s.max) + c <= 2 * (-s.sum) + c) by (nonlinear_arith)
                requires
                    s.sum <= c * s.max,
            {}
            assert(2 * c * (-s.max) + c <= 2 * neg + c);
            lemma_div_is_ordered(2 * c * (-s.max) + c, 2 * neg + c, 2 * c);
            lemma_fundamental_div_mod_converse(2 * c * (-s.max) + c, 2 * c, -s.max, c);
            assert(-s.max <= q);
        } else {
            lemma_div_is_ordered(0, 2 * neg + c, 2 * c);
        }
        assert(m <= s.max);
    }
}

/// Render the final aggregate: keys in ascending byte order (the aggregate's
/// own order), `key=min/mean/max` entries, comma-space separated, braced.
#[verifier::loop_isolation(false)]
pub fn format_report(map: &AggregateMap) -> (r: Vec<u8>)
    requires
        map.wf(),
    ensures
        r@ == report_of(map.kv()),
{
    let mut buf: Vec<u8> = Vec::new();
    buf.push(LBRACE);
    let n = map.entries.len();
    let mut i: usize = 0;
    proof {
        assert(map.kv().take(0) =~= Seq::<(Seq<u8>, StatsView)>::empty());
        assert(buf@ =~= seq![LBRACE] + report_body(map.kv().take(0)));
    }
    while i < n
        invariant
            0 <= i <= n,
            n == map.entries@.len(),
            buf@ == seq![LBRACE] + report_body(map.kv().take(i as int)),
        decreases n - i,
    {
        if i > 0 {
            buf.push(COMMA);
            buf.push(SPACE);
        }
        let e = map.entries[i];
        buf.extend_from_slice(e.key);
        buf.push(EQUALS);
        proof {
            assert(map.kv()[i as int] == (e.key@, e.stats@));
            assert(map.kv()[i as int].1.wf());
        }
        let mut tb = e.stats.to_bytes();
        buf.append(&mut tb);
        proof {
            let kv = map.kv();
            assert(kv.take(i + 1 as int).drop_last() =~= kv.take(i as int));
            assert(kv.take(i + 1 as int).last() == kv[i as int]);
            if i == 0 {
                assert(kv.take(1 as int)[0] == kv[0]);
                assert(buf@ =~= seq![LBRACE] + report_body(kv.take(1 as int)));
            } else {
                assert(buf@ =~= seq![LBRACE] + report_body(kv.take(i + 1 as int)));
            }
        }
        i = i + 1;
    }
    buf.push(RBRACE);
    proof {
        assert(map.kv().take(n as int) =~= map.kv());
        assert(buf@ =~= report_of(map.kv()));
    }
    buf
}


/// The digits rendered from `n` read back as `n`.
pub proof fn lemma_dec_digits_value(n: int)
    requires
        0 <= n,
    ensures
        all_digits(dec_digits(n)),
        digits_value(dec_digits(n)) == n,
        dec_digits(n).len() >= 1,
    decreases n,
{
    if n < 10 {
        let s = dec_digits(n);
        assert(s.drop_last() =~= Seq::<u8>::empty());
        assert(digits_value(s) == digits_value(Seq::<u8>::empty()) * 10 + digit_val(s.last()));
    } else {
        lemma_dec_digits_value(n / 10);
        let s = dec_digits(n);
        assert(s.drop_last() =~= dec_digits(n / 10));
        assert(s.last() == (ZERO + n % 10) as u8);
        lemma_fundamental_div_mod(n, 10);
        assert forall|i: int| 0 <= i < s.len() implies is_digit(s[i]) by {
            if i < s.len() - 1 {
                assert(s[i] == dec_digits(n / 10)[i]);
            }
        }
    }
}

/// Round trip: formatting a fixed-point value with one fractional digit and
/// parsing the text back recovers the value exactly.
pub proof fn lemma_render_parse(v: int)
    requires
        -VAL_LIMIT <= v <= VAL_LIMIT,
    ensures
        valid_value(render_fixed(v)),
        value_of(render_fixed(v)) == v,
{
    if v >= 0 {
        lemma_render_parse_unsigned(v);
        let s = render_unsigned(v);
        lemma_dec_digits_value(v / 10);
        assert(s[0] == dec_digits(v / 10)[0]);
        assert(is_digit(s[0]));
        assert(s[0] != MINUS);
    } else {
        lemma_render_parse_unsigned(-v);
        let u = render_unsigned(-v);
        let s = seq![MINUS] + u;
        assert(s[0] == MINUS);
        assert(s.skip(1) =~= u);
        assert(value_of(s) == -unsigned_value(u));
    }
}

/// The unsigned rendering of a non-negative fixed-point value is a valid
/// value text denoting it.
proof fn lemma_render_parse_unsigned(v: int)
    requires
        0 <= v <= VAL_LIMIT,
    ensures
        valid_unsigned(render_unsigned(v)),
        unsigned_value(render_unsigned(v)) == v,
{
    let s = render_unsigned(v);
    let dd = dec_digits(v / 10);
    lemma_dec_digits_value(v / 10);
    lemma_fundamental_div_mod(v, 10);
    assert(s.len() == dd.len() + 2);
    assert(s.take(s.len() - 2) =~= dd);
    assert(s[s.len() - 2] == DOT);
    assert(s.last() == (ZERO + v % 10) as u8);
    assert(is_digit(s.last()));
    assert(unsigned_value(s) == digits_value(dd) * 10 + digit_val(s.last()));
}

/// The reported mean is within half a fixed-point unit of the exact mean:
/// twice the signed error of `mean * count` against `sum` never exceeds
/// `count` in magnitude, which is one-decimal rounding tolerance.
pub proof fn lemma_mean_close(s: StatsView)
    requires
        s.wf(),
    ensures
        -s.count <= 2 * (mean_fixed_spec(s.sum, s.count) * s.count - s.sum) <= s.count,
{
    let c = s.count;
    if s.sum >= 0 {
        let m = (2 * s.sum + c) / (2 * c);
        lemma_fundamental_div_mod(2 * s.sum + c, 2 * c);
        let r = (2 * s.sum + c) % (2 * c);
        assert(0 <= r < 2 * c) by {
            vstd::arithmetic::div_mod::lemma_mod_bound(2 * s.sum + c, 2 * c);
        }
        assert(2 * s.sum + c == 2 * c * m + r);
        assert(2 * c * m == 2 * (m * c)) by (nonlinear_arith)
        {}
        assert(2 * (m * c - s.sum) == c - r);
    } else {
        let q = (2 * (-s.sum) + c) / (2 * c);
        lemma_fundamental_div_mod(2 * (-s.sum) + c, 2 * c);
        let r = (2 * (-s.sum) + c) % (2 * c);
        assert(0 <= r < 2 * c) by {
            vstd::arithmetic::div_mod::lemma_mod_bound(2 * (-s.sum) + c, 2 * c);
        }
        assert(2 * (-s.sum) + c == 2 * c * q + r);
        assert(2 * c * q == 2 * (q * c)) by (nonlinear_arith)
        {}
        assert(2 * ((-q) * c - s.sum) == r - c) by (nonlinear_arith)
            requires
                2 * (-s.sum) + c == 2 * (q * c) + r,
        {}
    }
}

} // verus!
