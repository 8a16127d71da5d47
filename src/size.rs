//! Human-readable byte counts: rendering with binary units and parsing
//! thresholds such as `100MB` or `1.5gb`.

use vstd::prelude::*;
use crate::text::{chars_of, is_blank, string_of, trim, trim_bounds, trim_end, trim_start};
use vstd::arithmetic::div_mod::{
    lemma_div_denominator, lemma_div_is_ordered_by_denominator, lemma_fundamental_div_mod,
    lemma_hoist_over_denominator, lemma_mod_bound, lemma_mod_mod,
};

verus! {

/// The number of bytes in one unit of scale `k`: B, KB, MB, GB, TB.
pub open spec fn unit_size(k: nat) -> nat {
    if k == 0 {
        1
    } else if k == 1 {
        1024
    } else if k == 2 {
        1048576
    } else if k == 3 {
        1073741824
    } else {
        1099511627776
    }
}

/// The label of the unit of scale `k`.
pub open spec fn unit_label(k: nat) -> Seq<char> {
    if k == 0 {
        seq!['B']
    } else if k == 1 {
        seq!['K', 'B']
    } else if k == 2 {
        seq!['M', 'B']
    } else if k == 3 {
        seq!['G', 'B']
    } else {
        seq!['T', 'B']
    }
}

/// The largest unit, up to TB, whose size does not exceed `b`.
pub open spec fn scale_of(b: nat) -> nat {
    if b >= unit_size(4) {
        4
    } else if b >= unit_size(3) {
        3
    } else if b >= unit_size(2) {
        2
    } else if b >= unit_size(1) {
        1
    } else {
        0
    }
}

pub open spec fn digit_char(d: nat) -> char {
    if d == 0 {
        '0'
    } else if d == 1 {
        '1'
    } else if d == 2 {
        '2'
    } else if d == 3 {
        '3'
    } else if d == 4 {
        '4'
    } else if d == 5 {
        '5'
    } else if d == 6 {
        '6'
    } else if d == 7 {
        '7'
    } else if d == 8 {
        '8'
    } else {
        '9'
    }
}

/// The decimal digits of `n`, without leading zeros.
pub open spec fn decimal(n: nat) -> Seq<char>
    decreases n,
{
    if n < 10 {
        seq![digit_char(n)]
    } else {
        decimal(n / 10).push(digit_char(n % 10))
    }
}

/// `b / u` in hundredths, rounded to nearest with ties to even.
pub open spec fn hundredths(b: nat, u: nat) -> nat
    recommends
        u > 0,
{
    let q = (b * 100) / u;
    let r = (b * 100) % u;
    if 2 * r > u || (2 * r == u && q % 2 == 1) {
        q + 1
    } else {
        q
    }
}

/// How `b` bytes are shown: below 1 KB as a whole number of bytes, else with
/// two decimals in the largest unit that fits.
pub open spec fn format_bytes_spec(b: nat) -> Seq<char> {
    let k = scale_of(b);
    if k == 0 {
        decimal(b) + seq![' ', 'B']
    } else {
        let h = hundredths(b, unit_size(k));
        decimal(h / 100) + seq!['.', digit_char((h % 100) / 10), digit_char(h % 10), ' ']
            + unit_label(k)
    }
}

fn digit(d: u64) -> (r: char)
    requires
        d < 10,
    ensures
        r == digit_char(d as nat),
{
    if d == 0 {
        '0'
    } else if d == 1 {
        '1'
    } else if d == 2 {
        '2'
    } else if d == 3 {
        '3'
    } else if d == 4 {
        '4'
    } else if d == 5 {
        '5'
    } else if d == 6 {
        '6'
    } else if d == 7 {
        '7'
    } else if d == 8 {
        '8'
    } else {
        '9'
    }
}

fn push_decimal(out: &mut Vec<char>, n: u64)
    ensures
        final(out)@ == old(out)@ + decimal(n as nat),
    decreases n,
{
    if n < 10 {
        out.push(digit(n));
        assert(final(out)@ =~= old(out)@ + decimal(n as nat));
    } else {
        push_decimal(out, n / 10);
        out.push(digit(n % 10));
        assert(final(out)@ =~= old(out)@ + decimal(n as nat));
    }
}

fn scale_index(b: u64) -> (k: usize)
    ensures
        k as nat == scale_of(b as nat),
        k <= 4,
{
    if b >= 1099511627776 {
        4
    } else if b >= 1073741824 {
        3
    } else if b >= 1048576 {
        2
    } else if b >= 1024 {
        1
    } else {
        0
    }
}

fn unit_bytes(k: usize) -> (r: u64)
    requires
        k <= 4,
    ensures
        r as nat == unit_size(k as nat),
{
    if k == 0 {
        1
    } else if k == 1 {
        1024
    } else if k == 2 {
        1048576
    } else if k == 3 {
        1073741824
    } else {
        1099511627776
    }
}

fn push_label(out: &mut Vec<char>, k: usize)
    requires
        k <= 4,
    ensures
        final(out)@ == old(out)@ + unit_label(k as nat),
{
    if k == 1 {
        out.push('K');
    } else if k == 2 {
        out.push('M');
    } else if k == 3 {
        out.push('G');
    } else if k == 4 {
        out.push('T');
    }
    out.push('B');
    assert(final(out)@ =~= old(out)@ + unit_label(k as nat));
}

/// Renders a byte count for people: `512 B`, `1.50 KB`, `1.00 GB`.
pub fn format_bytes(bytes: u64) -> (r: String)
    ensures
        r@ == format_bytes_spec(bytes as nat),
{
    let mut out: Vec<char> = Vec::new();
    let k = scale_index(bytes);
    if k == 0 {
        push_decimal(&mut out, bytes);
        out.push(' ');
        out.push('B');
        assert(out@ =~= format_bytes_spec(bytes as nat));
    } else {
        let u: u128 = unit_bytes(k) as u128;
        let n: u128 = bytes as u128 * 100;
        let q: u128 = n / u;
        let rem: u128 = n % u;
        let h: u128 = if 2 * rem > u || (2 * rem == u && q % 2 == 1) {
            q + 1
        } else {
            q
        };
        assert(h as nat == hundredths(bytes as nat, unit_size(k as nat)));
        assert(q <= n / 1024) by {
            lemma_div_is_ordered_by_denominator(n as int, 1024, u as int);
        }
        push_decimal(&mut out, (h / 100) as u64);
        out.push('.');
        out.push(digit(((h % 100) / 10) as u64));
        out.push(digit((h % 10) as u64));
        out.push(' ');
        push_label(&mut out, k);
        assert(out@ =~= format_bytes_spec(bytes as nat));
    }
    string_of(&out)
}

/// A count of 1 KB or more is never shown in bytes: it ends in a space and a
/// two-letter unit other than `B`.
pub proof fn lemma_large_counts_leave_bytes(b: nat)
    requires
        b >= 1024,
    ensures
        scale_of(b) >= 1,
        unit_label(scale_of(b)) != seq!['B'],
        format_bytes_spec(b).len() >= 3,
        format_bytes_spec(b).subrange(
            format_bytes_spec(b).len() - 3,
            format_bytes_spec(b).len() as int,
        ) == seq![' '] + unit_label(scale_of(b)),
{
    let k = scale_of(b);
    let h = hundredths(b, unit_size(k));
    let s = format_bytes_spec(b);
    let head = decimal(h / 100) + seq!['.', digit_char((h % 100) / 10), digit_char(h % 10)];
    assert(s =~= head + (seq![' '] + unit_label(k)));
    assert(unit_label(k).len() == 2);
    assert(s.subrange(s.len() - 3, s.len() as int) =~= seq![' '] + unit_label(k));
}

/// The unit chosen never gets smaller as the count grows.
pub proof fn lemma_scale_monotonic(a: nat, b: nat)
    requires
        a <= b,
    ensures
        scale_of(a) <= scale_of(b),
{
}


/// Why a size threshold was refused.
#[derive(Debug, Clone, Copy, PartialEq, Eq, Structural)]
pub enum SizeError {
    /// The text does not end in one of the units B, KB, MB, GB, TB.
    MissingUnit,
    /// What stands before the unit is not a decimal number.
    InvalidNumber,
}

impl SizeError {
    /// A sentence that says what is wrong.
    pub fn message(&self) -> (r: String)
        ensures
            r@ == (match self {
                SizeError::MissingUnit => "Invalid size format: expected format like '100MB' or '1GB'"@,
                SizeError::InvalidNumber => "Invalid number in size"@,
            }),
    {
        match self {
            SizeError::MissingUnit => String::from_str(
                "Invalid size format: expected format like '100MB' or '1GB'",
            ),
            SizeError::InvalidNumber => String::from_str("Invalid number in size"),
        }
    }
}

pub open spec fn is_digit(c: char) -> bool {
    '0' <= c && c <= '9'
}

pub open spec fn digit_value(c: char) -> nat {
    (c as u32 - '0' as u32) as nat
}

/// The number that a run of decimal digits denotes.
pub open spec fn digits_value(s: Seq<char>) -> nat
    decreases s.len(),
{
    if s.len() == 0 {
        0
    } else {
        digits_value(s.drop_last()) * 10 + digit_value(s.last())
    }
}

pub open spec fn pow10(n: nat) -> nat
    decreases n,
{
    if n == 0 {
        1
    } else {
        10 * pow10((n - 1) as nat)
    }
}

pub open spec fn all_digits(s: Seq<char>) -> bool {
    forall|i: int| 0 <= i < s.len() ==> is_digit(#[trigger] s[i])
}

/// `c` is the letter `upper`, in either case.
pub open spec fn letter_is(c: char, upper: char) -> bool {
    c == upper || c as u32 == upper as u32 + 32
}

/// The scale of the unit that ends `t`, if it ends in one.
pub open spec fn unit_suffix(t: Seq<char>) -> Option<nat> {
    if t.len() >= 1 && letter_is(t.last(), 'B') {
        if t.len() >= 2 && letter_is(t[t.len() - 2], 'K') {
            Some(1nat)
        } else if t.len() >= 2 && letter_is(t[t.len() - 2], 'M') {
            Some(2nat)
        } else if t.len() >= 2 && letter_is(t[t.len() - 2], 'G') {
            Some(3nat)
        } else if t.len() >= 2 && letter_is(t[t.len() - 2], 'T') {
            Some(4nat)
        } else {
            Some(0nat)
        }
    } else {
        None
    }
}

/// The text of the magnitude: what stands before the unit, trimmed.
pub open spec fn magnitude_text(t: Seq<char>, k: nat) -> Seq<char> {
    trim(t.subrange(0, t.len() - unit_label(k).len()))
}

/// A magnitude is digits, or digits, a point and digits, with a digit
/// somewhere.
pub open spec fn well_formed_at(m: Seq<char>, p: int) -> bool {
    0 <= p < m.len() && m[p] == '.' && m.len() >= 2 && all_digits(m.subrange(0, p))
        && all_digits(m.subrange(p + 1, m.len() as int))
}

pub open spec fn well_formed(m: Seq<char>) -> bool {
    (m.len() >= 1 && all_digits(m)) || exists|p: int| well_formed_at(m, p)
}

/// The whole part of a magnitude.
pub open spec fn whole_part(m: Seq<char>) -> Seq<char> {
    if all_digits(m) {
        m
    } else {
        m.subrange(0, choose|p: int| well_formed_at(m, p))
    }
}

/// The digits after the point of a magnitude.
pub open spec fn fraction_part(m: Seq<char>) -> Seq<char> {
    if all_digits(m) {
        Seq::empty()
    } else {
        let p = choose|p: int| well_formed_at(m, p);
        m.subrange(p + 1, m.len() as int)
    }
}

/// The magnitude `m` times `unit` bytes, rounded down.
pub open spec fn scaled_bytes(m: Seq<char>, unit: nat) -> nat {
    digits_value(whole_part(m)) * unit + (unit * digits_value(fraction_part(m))) / pow10(
        fraction_part(m).len(),
    )
}

pub open spec fn cap_u64(n: nat) -> nat {
    if n > u64::MAX {
        u64::MAX as nat
    } else {
        n
    }
}

/// What a size threshold means: trimmed, it ends in a unit (any case) and what
/// stands before is a decimal magnitude; the count is rounded down and capped
/// at the largest u64.
pub open spec fn parse_size_spec(s: Seq<char>) -> Result<u64, SizeError> {
    let t = trim(s);
    match unit_suffix(t) {
        None => Err(SizeError::MissingUnit),
        Some(k) => {
            let m = magnitude_text(t, k);
            if well_formed(m) {
                Ok(cap_u64(scaled_bytes(m, unit_size(k))) as u64)
            } else {
                Err(SizeError::InvalidNumber)
            }
        },
    }
}

fn letter(c: char, upper: char) -> (r: bool)
    ensures
        r == letter_is(c, upper),
{
    c == upper || c as u32 == upper as u32 + 32
}

proof fn lemma_digits_prepend(c: char, s: Seq<char>)
    ensures
        digits_value(seq![c] + s) == digit_value(c) * pow10(s.len()) + digits_value(s),
    decreases s.len(),
{
    if s.len() == 0 {
        assert(seq![c] + s =~= seq![c]);
        assert(seq![c].drop_last() =~= Seq::<char>::empty());
        assert(digits_value(Seq::<char>::empty()) == 0);
        assert(digits_value(seq![c]) == digit_value(c));
        assert(pow10(0) == 1);
    } else {
        let t = s.drop_last();
        lemma_digits_prepend(c, t);
        assert((seq![c] + s).drop_last() =~= seq![c] + t);
        assert((seq![c] + s).last() == s.last());
        let a = digit_value(c);
        let p = pow10(t.len());
        assert(pow10(s.len()) == 10 * p);
        assert((a * p + digits_value(t)) * 10 == a * (10 * p) + digits_value(t) * 10)
            by (nonlinear_arith);
    }
}

/// Whole part of a magnitude, capped at the largest u64.
fn whole_value(m: &Vec<char>, from: usize, to: usize) -> (r: u64)
    requires
        from <= to <= m@.len(),
        all_digits(m@.subrange(from as int, to as int)),
    ensures
        r as nat == cap_u64(digits_value(m@.subrange(from as int, to as int))),
{
    let mut acc: u64 = 0;
    let mut i = from;
    while i < to
        invariant
            from <= i <= to <= m@.len(),
            all_digits(m@.subrange(from as int, to as int)),
            acc as nat == cap_u64(digits_value(m@.subrange(from as int, i as int))),
        decreases to - i,
    {
        let c = m[i];
        assert(is_digit(m@.subrange(from as int, to as int)[i - from]));
        let d: u64 = (c as u32 - '0' as u32) as u64;
        let next: u128 = acc as u128 * 10 + d as u128;
        let ghost v = digits_value(m@.subrange(from as int, i as int));
        assert(m@.subrange(from as int, i + 1).drop_last() =~= m@.subrange(from as int, i as int));
        assert(digits_value(m@.subrange(from as int, i + 1)) == v * 10 + d);
        proof {
            if v > u64::MAX as nat {
                assert(v * 10 + d > u64::MAX) by (nonlinear_arith)
                    requires v > u64::MAX as nat;
            }
        }
        acc = if next > u64::MAX as u128 {
            u64::MAX
        } else {
            next as u64
        };
        i = i + 1;
    }
    acc
}

/// `unit` times the fraction `0.ddd` of `m[from..to]`, rounded down.
fn fraction_value(m: &Vec<char>, from: usize, to: usize, unit: u64) -> (r: u64)
    requires
        from <= to <= m@.len(),
        all_digits(m@.subrange(from as int, to as int)),
        1 <= unit <= 1099511627776,
    ensures
        r as nat == (unit as nat * digits_value(m@.subrange(from as int, to as int))) / pow10(
            (to - from) as nat,
        ),
        r < unit,
{
    let mut acc: u64 = 0;
    let mut j = to;
    assert(m@.subrange(to as int, to as int) =~= Seq::<char>::empty());
    assert(digits_value(Seq::<char>::empty()) == 0);
    assert(pow10(0) == 1);
    while j > from
        invariant
            from <= j <= to <= m@.len(),
            all_digits(m@.subrange(from as int, to as int)),
            1 <= unit <= 1099511627776,
            acc as nat == (unit as nat * digits_value(m@.subrange(j as int, to as int))) / pow10(
                (to - j) as nat,
            ),
            acc < unit,
        decreases j,
    {
        let c = m[j - 1];
        assert(is_digit(m@.subrange(from as int, to as int)[j - 1 - from]));
        let d: u64 = (c as u32 - '0' as u32) as u64;
        assert(d <= 9);
        proof {
            lemma_fraction_step(c, m@.subrange(j as int, to as int), unit as nat);
            assert(m@.subrange(j - 1, to as int) =~= seq![c] + m@.subrange(j as int, to as int));
        }
        assert(unit * d <= unit * 9) by (nonlinear_arith)
            requires d <= 9, unit >= 1;
        acc = (unit * d + acc) / 10;
        j = j - 1;
    }
    acc
}

/// One more leading digit of a fraction, processed from the right.
proof fn lemma_fraction_step(c: char, s: Seq<char>, unit: nat)
    requires
        is_digit(c),
        unit >= 1,
    ensures
        (unit * digit_value(c) + (unit * digits_value(s)) / pow10(s.len())) / 10 == (unit
            * digits_value(seq![c] + s)) / pow10(s.len() + 1),
        (unit * digits_value(s)) / pow10(s.len()) < unit ==> (unit * digits_value(seq![c] + s))
            / pow10(s.len() + 1) < unit,
{
    let n = s.len();
    let p = pow10(n);
    let v = digits_value(s);
    let d = digit_value(c);
    lemma_digits_prepend(c, s);
    assert(pow10(n + 1) == 10 * p);
    lemma_pow10_positive(n);
    let x = unit * v;
    let y = unit * d * p;
    lemma_hoist_over_denominator(x as int, (unit * d) as int, p);
    assert((unit * d) * p == y) by (nonlinear_arith)
        requires y == unit * d * p;
    lemma_div_denominator((x + y) as int, p as int, 10);
    assert(p * 10 == 10 * p);
    assert(unit * (d * p + v) == y + x) by (nonlinear_arith)
        requires y == unit * d * p, x == unit * v;
    let w = x / p;
    if w < unit {
        assert(d <= 9);
        assert(unit * d + w < 10 * unit) by (nonlinear_arith)
            requires d <= 9, w < unit;
    }
}

proof fn lemma_pow10_positive(n: nat)
    ensures
        pow10(n) >= 1,
    decreases n,
{
    if n > 0 {
        lemma_pow10_positive((n - 1) as nat);
    }
}

/// Where the point of the magnitude `m[a..b]` stands, if any; `None` where a
/// char is neither a digit nor the first point.
fn scan_magnitude(cs: &Vec<char>, a: usize, b: usize) -> (r: Option<Option<usize>>)
    requires
        a <= b <= cs@.len(),
    ensures
        match r {
            None => !well_formed(cs@.subrange(a as int, b as int)),
            Some(None) => all_digits(cs@.subrange(a as int, b as int)),
            Some(Some(p)) => a <= p < b && cs@[p as int] == '.' && all_digits(
                cs@.subrange(a as int, p as int),
            ) && all_digits(cs@.subrange(p + 1, b as int)),
        },
{
    let ghost m = cs@.subrange(a as int, b as int);
    let mut point: Option<usize> = None;
    let mut i = a;
    while i < b
        invariant
            a <= i <= b <= cs@.len(),
            m == cs@.subrange(a as int, b as int),
            match point {
                None => forall|j: int| a <= j < i ==> is_digit(#[trigger] cs@[j]),
                Some(p) => a <= p < i && cs@[p as int] == '.' && (forall|j: int|
                    a <= j < i && j != p ==> is_digit(#[trigger] cs@[j])),
            },
        decreases b - i,
    {
        let c = cs[i];
        if c == '.' && point.is_none() {
            point = Some(i);
        } else if !('0' <= c && c <= '9') {
            proof {
                assert(!is_digit(m[i - a]));
                if all_digits(m) {
                    assert(is_digit(m[i - a]));
                }
                assert forall|p: int| !well_formed_at(m, p) by {
                    if well_formed_at(m, p) {
                        if i - a < p {
                            assert(is_digit(m.subrange(0, p)[i - a]));
                        } else if i - a > p {
                            assert(is_digit(m.subrange(p + 1, m.len() as int)[i - a - p - 1]));
                        } else {
                            match point {
                                Some(q) => {
                                    assert(is_digit(m.subrange(0, p)[q - a]));
                                },
                                None => {},
                            }
                        }
                    }
                }
            }
            return None;
        }
        i = i + 1;
    }
    match point {
        None => {
            assert(all_digits(m)) by {
                assert forall|j: int| 0 <= j < m.len() implies is_digit(#[trigger] m[j]) by {
                    assert(is_digit(cs@[a + j]));
                }
            }
            Some(None)
        },
        Some(p) => {
            assert(all_digits(cs@.subrange(a as int, p as int))) by {
                assert forall|j: int| 0 <= j < p - a implies is_digit(
                    #[trigger] cs@.subrange(a as int, p as int)[j],
                ) by {
                    assert(is_digit(cs@[a + j]));
                }
            }
            assert(all_digits(cs@.subrange(p + 1, b as int))) by {
                assert forall|j: int| 0 <= j < b - p - 1 implies is_digit(
                    #[trigger] cs@.subrange(p + 1, b as int)[j],
                ) by {
                    assert(is_digit(cs@[p + 1 + j]));
                }
            }
            Some(Some(p))
        },
    }
}

/// A magnitude with a point splits at that point only.
proof fn lemma_point_split(m: Seq<char>, p: int)
    requires
        well_formed_at(m, p),
    ensures
        well_formed(m),
        !all_digits(m),
        whole_part(m) == m.subrange(0, p),
        fraction_part(m) == m.subrange(p + 1, m.len() as int),
{
    assert(!is_digit(m[p]));
    let q = choose|q: int| well_formed_at(m, q);
    assert(q == p) by {
        if q < p {
            assert(is_digit(m.subrange(q + 1, m.len() as int)[p - q - 1]));
        } else if q > p {
            assert(is_digit(m.subrange(0, q)[p]));
        }
    }
}

/// `min(v, MAX) * unit + f`, capped, is the capped `v * unit + f`.
proof fn lemma_cap_product(v: nat, w: nat, unit: nat, f: nat)
    requires
        w == cap_u64(v),
        unit >= 1,
    ensures
        cap_u64(w * unit + f) == cap_u64(v * unit + f),
{
    if v > u64::MAX as nat {
        assert(v * unit >= v) by (nonlinear_arith)
            requires unit >= 1;
        assert(w * unit >= w) by (nonlinear_arith)
            requires unit >= 1;
    }
}

/// The magnitude `cs[a..b]` times `unit` bytes, if it is well formed.
fn magnitude_value(cs: &Vec<char>, a: usize, b: usize, unit: u64) -> (r: Option<u64>)
    requires
        a <= b <= cs@.len(),
        1 <= unit <= 1099511627776,
    ensures
        r == (if well_formed(cs@.subrange(a as int, b as int)) {
            Some(cap_u64(scaled_bytes(cs@.subrange(a as int, b as int), unit as nat)) as u64)
        } else {
            None::<u64>
        }),
{
    let ghost m = cs@.subrange(a as int, b as int);
    match scan_magnitude(cs, a, b) {
        None => None,
        Some(None) => {
            if a == b {
                assert forall|p: int| !well_formed_at(m, p) by {}
                return None;
            }
            let w = whole_value(cs, a, b);
            assert(fraction_part(m) =~= Seq::<char>::empty());
            assert(digits_value(Seq::<char>::empty()) == 0);
            assert(unit as nat * 0 == 0) by (nonlinear_arith);
            assert(pow10(0) == 1);
            proof {
                lemma_cap_product(digits_value(m), w as nat, unit as nat, 0);
            }
            assert(w as nat * unit as nat <= u64::MAX as nat * 1099511627776) by (nonlinear_arith)
                requires w <= u64::MAX, unit <= 1099511627776;
            let total: u128 = w as u128 * unit as u128;
            if total > u64::MAX as u128 {
                Some(u64::MAX)
            } else {
                Some(total as u64)
            }
        },
        Some(Some(p)) => {
            if b - a < 2 {
                assert(m.len() == 1);
                assert(!is_digit(m[0]));
                assert forall|q: int| !well_formed_at(m, q) by {}
                return None;
            }
            proof {
                let pp = p - a;
                assert(m.subrange(0, pp) =~= cs@.subrange(a as int, p as int));
                assert(m.subrange(pp + 1, m.len() as int) =~= cs@.subrange(p + 1, b as int));
                assert(well_formed_at(m, pp));
                lemma_point_split(m, pp);
            }
            let w = whole_value(cs, a, p);
            let f = fraction_value(cs, p + 1, b, unit);
            proof {
                lemma_cap_product(
                    digits_value(whole_part(m)),
                    w as nat,
                    unit as nat,
                    f as nat,
                );
            }
            assert(w as nat * unit as nat <= u64::MAX as nat * 1099511627776) by (nonlinear_arith)
                requires w <= u64::MAX, unit <= 1099511627776;
            let total: u128 = w as u128 * unit as u128 + f as u128;
            if total > u64::MAX as u128 {
                Some(u64::MAX)
            } else {
                Some(total as u64)
            }
        },
    }
}

/// Parses a size threshold such as `100MB`, `1.5 gb` or `512B` into bytes.
pub fn parse_size(size_str: &str) -> (r: Result<u64, SizeError>)
    ensures
        r == parse_size_spec(size_str@),
{
    let cs = chars_of(size_str);
    let (lo, hi) = trim_bounds(&cs, 0, cs.len());
    let ghost t = trim(size_str@);
    assert(cs@.subrange(0, cs@.len() as int) =~= size_str@);
    assert(t =~= cs@.subrange(lo as int, hi as int));
    if hi == lo || !letter(cs[hi - 1], 'B') {
        return Err(SizeError::MissingUnit);
    }
    let k: usize = if hi - lo >= 2 && letter(cs[hi - 2], 'K') {
        1
    } else if hi - lo >= 2 && letter(cs[hi - 2], 'M') {
        2
    } else if hi - lo >= 2 && letter(cs[hi - 2], 'G') {
        3
    } else if hi - lo >= 2 && letter(cs[hi - 2], 'T') {
        4
    } else {
        0
    };
    assert(unit_suffix(t) == Some(k as nat));
    let label_len: usize = if k == 0 {
        1
    } else {
        2
    };
    let (a, b) = trim_bounds(&cs, lo, hi - label_len);
    assert(t.subrange(0, t.len() - unit_label(k as nat).len()) =~= cs@.subrange(
        lo as int,
        hi - label_len,
    ));
    assert(magnitude_text(t, k as nat) =~= cs@.subrange(a as int, b as int));
    match magnitude_value(&cs, a, b, unit_bytes(k)) {
        Some(v) => Ok(v),
        None => Err(SizeError::InvalidNumber),
    }
}

proof fn lemma_digit_char(d: nat)
    requires
        d < 10,
    ensures
        is_digit(digit_char(d)),
        digit_value(digit_char(d)) == d,
{
}

proof fn lemma_decimal(n: nat)
    ensures
        decimal(n).len() >= 1,
        all_digits(decimal(n)),
        digits_value(decimal(n)) == n,
    decreases n,
{
    if n < 10 {
        lemma_digit_char(n);
        assert(decimal(n).drop_last() =~= Seq::<char>::empty());
        assert(digits_value(Seq::<char>::empty()) == 0);
    } else {
        lemma_decimal(n / 10);
        lemma_digit_char(n % 10);
        let d = decimal(n);
        assert(d.drop_last() =~= decimal(n / 10));
        assert forall|i: int| 0 <= i < d.len() implies is_digit(#[trigger] d[i]) by {
            if i < d.len() - 1 {
                assert(d[i] == decimal(n / 10)[i]);
            }
        }
    }
}

/// Trimming leaves alone a text that starts and ends with non-blanks.
proof fn lemma_trim_unblanked(s: Seq<char>)
    requires
        s.len() >= 1,
        !is_blank(s[0]),
        !is_blank(s.last()),
    ensures
        trim(s) == s,
{
}

/// Trimming drops the one trailing space of `m + [' ']`.
proof fn lemma_trim_one_space(m: Seq<char>)
    requires
        m.len() >= 1,
        !is_blank(m[0]),
        !is_blank(m.last()),
    ensures
        trim(m.push(' ')) == m,
{
    let s = m.push(' ');
    assert(trim_start(s) == s);
    assert(s.drop_last() =~= m);
    assert(trim_end(m) == m);
}

/// `(h / 100) * u + (u * (h % 100)) / 100` is `h * u / 100`, and how it sits
/// against `b` when `h` is `b / u` in rounded hundredths.
proof fn lemma_round_trip_bounds(b: nat, u: nat)
    requires
        u >= 1,
    ensures
        ({
            let h = hundredths(b, u);
            let v = (h / 100) * u + (u * (h % 100)) / 100;
            200 * b <= 200 * v + u + 200 && 200 * v <= 200 * b + u
        }),
{
    let h = hundredths(b, u);
    let a = h / 100;
    let c = h % 100;
    lemma_fundamental_div_mod(h as int, 100);
    lemma_mod_bound(h as int, 100);
    lemma_hoist_over_denominator((u * c) as int, (a * u) as int, 100);
    assert(u * c + a * u * 100 == h * u) by (nonlinear_arith)
        requires h == 100 * a + c;
    let v = (h * u) / 100;
    lemma_fundamental_div_mod((h * u) as int, 100);
    lemma_mod_bound((h * u) as int, 100);
    let q = (b * 100) / u;
    let r = (b * 100) % u;
    lemma_fundamental_div_mod((b * 100) as int, u as int);
    lemma_mod_bound((b * 100) as int, u as int);
    if h == q {
        assert(2 * r <= u);
        assert(h * u + r == 100 * b) by (nonlinear_arith)
            requires h == q, b * 100 == u * q + r;
    } else {
        assert(h == q + 1);
        assert(2 * r >= u);
        assert(h * u + r == 100 * b + u) by (nonlinear_arith)
            requires h == q + 1, b * 100 == u * q + r;
    }
}

/// A rendered count parses back: exactly below 1 KB, and above it within
/// the rounding of the two decimals shown (half a hundredth of the unit,
/// plus the byte lost by rounding down).
pub proof fn lemma_format_parses_back(b: u64)
    ensures
        parse_size_spec(format_bytes_spec(b as nat)) matches Ok(v) && (b < 1024 ==> v == b) && 200
            * b <= 200 * v + unit_size(scale_of(b as nat)) + 200 && 200 * v <= 200 * b + unit_size(
            scale_of(b as nat),
        ),
{
    let k = scale_of(b as nat);
    let s = format_bytes_spec(b as nat);
    if k == 0 {
        let d = decimal(b as nat);
        lemma_decimal(b as nat);
        assert(is_digit(d[0]) && is_digit(d.last()));
        assert(s =~= d + seq![' ', 'B']);
        lemma_trim_unblanked(s);
        assert(unit_suffix(s) == Some(0nat));
        assert(s.subrange(0, s.len() - 1) =~= d.push(' '));
        lemma_trim_one_space(d);
        assert(magnitude_text(s, 0) == d);
        assert(fraction_part(d) =~= Seq::<char>::empty());
        assert(digits_value(Seq::<char>::empty()) == 0);
        assert(pow10(0) == 1);
        assert(well_formed(d));
        assert(scaled_bytes(d, 1) == b);
        assert(trim(s) == s);
        assert(parse_size_spec(s) == Ok::<u64, SizeError>(b));
    } else {
        let u = unit_size(k);
        let h = hundredths(b as nat, u);
        let d = decimal(h / 100);
        let d1 = digit_char((h % 100) / 10);
        let d2 = digit_char(h % 10);
        lemma_decimal(h / 100);
        lemma_digit_char((h % 100) / 10);
        lemma_digit_char(h % 10);
        let m = d + seq!['.', d1, d2];
        assert(s =~= m + seq![' '] + unit_label(k));
        assert(is_digit(d[0]));
        lemma_trim_unblanked(s);
        assert(unit_suffix(s) == Some(k));
        assert(s.subrange(0, s.len() - 2) =~= m.push(' '));
        lemma_trim_one_space(m);
        assert(magnitude_text(s, k) == m);
        let p = d.len() as int;
        assert(m.subrange(0, p) =~= d);
        assert(m.subrange(p + 1, m.len() as int) =~= seq![d1, d2]);
        let tail = seq![d1, d2];
        assert forall|i: int| 0 <= i < 2 implies is_digit(#[trigger] tail[i]) by {}
        assert(well_formed_at(m, p));
        lemma_point_split(m, p);
        assert(seq![d1, d2].drop_last() =~= seq![d1]);
        assert(seq![d1].drop_last() =~= Seq::<char>::empty());
        assert(digits_value(Seq::<char>::empty()) == 0);
        assert(digits_value(seq![d1]) == digit_value(d1));
        assert(digits_value(seq![d1, d2]) == digit_value(d1) * 10 + digit_value(d2));
        lemma_fundamental_div_mod((h % 100) as int, 10);
        lemma_mod_mod(h as int, 10, 10);
        assert(digits_value(seq![d1, d2]) == h % 100);
        assert(pow10(2) == 100) by {
            assert(pow10(0) == 1);
            assert(pow10(1) == 10);
        }
        lemma_round_trip_bounds(b as nat, u);
        assert(trim(s) == s);
        assert(well_formed(m));
        assert(parse_size_spec(s) == Ok::<u64, SizeError>(cap_u64(scaled_bytes(m, u)) as u64));
    }
}

pub open spec fn is_ascii_letter(c: char) -> bool {
    ('A' <= c && c <= 'Z') || ('a' <= c && c <= 'z')
}

/// `a` and `b` are the same char, or the same ASCII letter in two cases.
pub open spec fn same_but_case(a: char, b: char) -> bool {
    a == b || (is_ascii_letter(a) && is_ascii_letter(b) && (a as u32 == b as u32 + 32 || b as u32
        == a as u32 + 32))
}

/// `s` and `t` differ at most in the case of ASCII letters.
pub open spec fn same_text_but_case(s: Seq<char>, t: Seq<char>) -> bool {
    s.len() == t.len() && forall|i: int| 0 <= i < s.len() ==> same_but_case(#[trigger] s[i], t[i])
}

proof fn lemma_case_chars(a: char, b: char)
    requires
        same_but_case(a, b),
    ensures
        is_blank(a) == is_blank(b),
        is_digit(a) == is_digit(b),
        (a == '.') == (b == '.'),
        letter_is(a, 'B') == letter_is(b, 'B'),
        letter_is(a, 'K') == letter_is(b, 'K'),
        letter_is(a, 'M') == letter_is(b, 'M'),
        letter_is(a, 'G') == letter_is(b, 'G'),
        letter_is(a, 'T') == letter_is(b, 'T'),
        (is_digit(a) || a == '.') ==> a == b,
{
}

proof fn lemma_case_subrange(s: Seq<char>, t: Seq<char>, i: int, j: int)
    requires
        same_text_but_case(s, t),
        0 <= i <= j <= s.len(),
    ensures
        same_text_but_case(s.subrange(i, j), t.subrange(i, j)),
{
    assert forall|k: int| 0 <= k < j - i implies same_but_case(
        #[trigger] s.subrange(i, j)[k],
        t.subrange(i, j)[k],
    ) by {
        assert(same_but_case(s[i + k], t[i + k]));
    }
}

proof fn lemma_case_trim(s: Seq<char>, t: Seq<char>)
    requires
        same_text_but_case(s, t),
    ensures
        same_text_but_case(trim_start(s), trim_start(t)),
        same_text_but_case(trim(s), trim(t)),
    decreases s.len(),
{
    if s.len() > 0 {
        lemma_case_chars(s[0], t[0]);
        lemma_case_subrange(s, t, 1, s.len() as int);
        assert(s.drop_first() =~= s.subrange(1, s.len() as int));
        assert(t.drop_first() =~= t.subrange(1, t.len() as int));
        lemma_case_trim(s.drop_first(), t.drop_first());
    }
    lemma_case_trim_end(trim_start(s), trim_start(t));
}

proof fn lemma_case_trim_end(s: Seq<char>, t: Seq<char>)
    requires
        same_text_but_case(s, t),
    ensures
        same_text_but_case(trim_end(s), trim_end(t)),
    decreases s.len(),
{
    if s.len() > 0 {
        lemma_case_chars(s.last(), t.last());
        lemma_case_subrange(s, t, 0, s.len() - 1);
        assert(s.drop_last() =~= s.subrange(0, s.len() - 1));
        assert(t.drop_last() =~= t.subrange(0, t.len() - 1));
        lemma_case_trim_end(s.drop_last(), t.drop_last());
    }
}

/// A well-formed magnitude holds digits and points only, which have no case.
proof fn lemma_case_magnitude(m: Seq<char>, n: Seq<char>)
    requires
        same_text_but_case(m, n),
        well_formed(m),
    ensures
        m == n,
{
    assert forall|i: int| 0 <= i < m.len() implies m[i] == n[i] by {
        lemma_case_chars(m[i], n[i]);
        if !all_digits(m) {
            let p = choose|p: int| well_formed_at(m, p);
            if i < p {
                assert(is_digit(m.subrange(0, p)[i]));
            } else if i > p {
                assert(is_digit(m.subrange(p + 1, m.len() as int)[i - p - 1]));
            }
        }
    }
    assert(m =~= n);
}

/// Units and letters may be written in either case: texts that differ only
/// in the case of ASCII letters parse alike (`1kb`, `1Kb` and `1KB` alike).
pub proof fn lemma_parse_ignores_case(s: Seq<char>, t: Seq<char>)
    requires
        same_text_but_case(s, t),
    ensures
        parse_size_spec(s) == parse_size_spec(t),
{
    lemma_case_trim(s, t);
    let ts = trim(s);
    let tt = trim(t);
    if ts.len() >= 1 {
        lemma_case_chars(ts.last(), tt.last());
    }
    if ts.len() >= 2 {
        lemma_case_chars(ts[ts.len() - 2], tt[tt.len() - 2]);
    }
    assert(unit_suffix(ts) == unit_suffix(tt));
    match unit_suffix(ts) {
        None => {},
        Some(k) => {
            let cut = ts.len() - unit_label(k).len();
            lemma_case_subrange(ts, tt, 0, cut);
            lemma_case_trim(ts.subrange(0, cut), tt.subrange(0, cut));
            let ms = magnitude_text(ts, k);
            let mt = magnitude_text(tt, k);
            if well_formed(ms) {
                lemma_case_magnitude(ms, mt);
            } else if well_formed(mt) {
                assert forall|i: int| 0 <= i < mt.len() implies same_but_case(
                    #[trigger] mt[i],
                    ms[i],
                ) by {
                    assert(same_but_case(ms[i], mt[i]));
                }
                lemma_case_magnitude(mt, ms);
            }
        },
    }
}

} // verus!
