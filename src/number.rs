use vstd::prelude::*;

verus! {

broadcast use vstd::string::group_string_axioms;

/// Number of fractional decimal digits kept in a fixed-point amount.
pub const SCALE_DIGITS: usize = 6;

pub open spec fn is_digit(c: char) -> bool {
    '0' <= c && c <= '9'
}

pub open spec fn digit_value(c: char) -> nat {
    (c as nat - '0' as nat) as nat
}

pub open spec fn all_digits(s: Seq<char>) -> bool {
    forall|i: int| 0 <= i < s.len() ==> is_digit(#[trigger] s[i])
}

/// The value of a string of decimal digits, most significant first.
pub open spec fn digits_value(s: Seq<char>) -> nat
    decreases s.len(),
{
    if s.len() == 0 {
        0
    } else {
        digits_value(s.drop_last()) * 10 + digit_value(s.last())
    }
}

pub open spec fn pow10(n: nat) -> nat
    decreases n,
{
    if n == 0 {
        1
    } else {
        10 * pow10((n - 1) as nat)
    }
}

/// Text accepted as a count: one or more decimal digits whose value fits in `u64`.
pub open spec fn is_count_text(s: Seq<char>) -> bool {
    s.len() > 0 && all_digits(s) && digits_value(s) <= u64::MAX
}

pub open spec fn is_first_point(s: Seq<char>, i: int) -> bool {
    0 <= i < s.len() && s[i] == '.' && forall|j: int| 0 <= j < i ==> s[j] != '.'
}

/// Position of the first decimal point in an amount, or `s.len()` where there is none.
pub open spec fn point_index(s: Seq<char>) -> int {
    if exists|i: int| is_first_point(s, i) {
        choose|i: int| is_first_point(s, i)
    } else {
        s.len() as int
    }
}

/// The digits of an amount before its point.
pub open spec fn whole_part(s: Seq<char>) -> Seq<char> {
    s.subrange(0, point_index(s))
}

/// The digits of an amount after its point.
pub open spec fn fraction_part(s: Seq<char>) -> Seq<char> {
    let p = point_index(s);
    if p < s.len() { s.subrange(p + 1, s.len() as int) } else { Seq::empty() }
}

/// Text written as an amount: digits, optionally a point and more digits,
/// with at least one digit in all.
pub open spec fn is_amount_shape(s: Seq<char>) -> bool {
    let whole = whole_part(s);
    let frac = fraction_part(s);
    all_digits(whole) && all_digits(frac) && whole.len() + frac.len() > 0
}

/// The fractional digits that make up whole millionths: the first six.
pub open spec fn kept_fraction(s: Seq<char>) -> Seq<char> {
    let frac = fraction_part(s);
    if frac.len() <= SCALE_DIGITS { frac } else { frac.take(SCALE_DIGITS as int) }
}

/// The digits after the sixth fractional digit are worth at least half a
/// millionth: the seventh is 5 or more.
pub open spec fn rounds_up(s: Seq<char>) -> bool {
    let frac = fraction_part(s);
    frac.len() > SCALE_DIGITS && digit_value(frac[SCALE_DIGITS as int]) >= 5
}

/// The value of an amount in millionths, rounded half up to the nearest
/// millionth.
pub open spec fn amount_value(s: Seq<char>) -> nat {
    let kept = kept_fraction(s);
    let base = digits_value(whole_part(s) + kept) * pow10((SCALE_DIGITS - kept.len()) as nat);
    if rounds_up(s) { base + 1 } else { base }
}

pub open spec fn is_amount_text(s: Seq<char>) -> bool {
    is_amount_shape(s) && amount_value(s) <= u64::MAX
}

proof fn lemma_digits_push(s: Seq<char>, c: char)
    ensures
        digits_value(s.push(c)) == digits_value(s) * 10 + digit_value(c),
{
    assert(s.push(c).drop_last() =~= s);
}

proof fn lemma_digits_prefix_le(s: Seq<char>, i: int)
    requires
        0 <= i <= s.len(),
    ensures
        digits_value(s.subrange(0, i)) <= digits_value(s),
    decreases s.len() - i,
{
    if i < s.len() {
        lemma_digits_prefix_le(s, i + 1);
        assert(s.subrange(0, i + 1).drop_last() =~= s.subrange(0, i));
    } else {
        assert(s.subrange(0, i) =~= s);
    }
}

proof fn lemma_pow10_pos(n: nat)
    ensures
        pow10(n) >= 1,
    decreases n,
{
    if n > 0 {
        lemma_pow10_pos((n - 1) as nat);
    }
}

proof fn lemma_digits_concat(a: Seq<char>, b: Seq<char>)
    ensures
        digits_value(a + b) == digits_value(a) * pow10(b.len()) + digits_value(b),
    decreases b.len(),
{
    if b.len() == 0 {
        assert(a + b =~= a);
        assert(digits_value(b) == 0);
        assert(pow10(b.len()) == 1);
    } else {
        let b0 = b.drop_last();
        lemma_digits_concat(a, b0);
        assert((a + b).drop_last() =~= a + b0);
        assert((a + b).last() == b.last());
        let x = digits_value(a);
        let y = digits_value(b0);
        let q = pow10(b0.len());
        let z = digit_value(b.last());
        assert(pow10(b.len()) == 10 * q);
        assert(digits_value(a + b) == digits_value(a + b0) * 10 + z);
        assert(digits_value(a + b0) == x * q + y);
        assert(digits_value(a + b) == (x * q + y) * 10 + z);
        assert(digits_value(b) == y * 10 + z);
        assert((x * q + y) * 10 + z == x * (10 * q) + (y * 10 + z)) by (nonlinear_arith);
        assert(x * pow10(b.len()) == x * (10 * q));
    }
}

proof fn lemma_digits_below(b: Seq<char>)
    requires
        all_digits(b),
    ensures
        digits_value(b) < pow10(b.len()),
    decreases b.len(),
{
    if b.len() > 0 {
        let b0 = b.drop_last();
        assert(all_digits(b0)) by {
            assert forall|i: int| 0 <= i < b0.len() implies is_digit(#[trigger] b0[i]) by {
                assert(b0[i] == b[i]);
            }
        }
        lemma_digits_below(b0);
        assert(is_digit(b[b.len() - 1]));
        let y = digits_value(b0);
        let q = pow10(b0.len());
        assert(y * 10 + digit_value(b.last()) < 10 * q) by (nonlinear_arith)
            requires
                y < q,
                digit_value(b.last()) <= 9,
        ;
    }
}

/// Law: an amount is read as its exact decimal value in millionths where it
/// has at most six fractional digits, and otherwise as that value rounded half
/// up: `(2v + p) / 2p` for the value `v` of all its digits and `p` the weight
/// of the digits past the sixth.
pub proof fn lemma_amount_rounds_half_up(s: Seq<char>)
    requires
        is_amount_shape(s),
    ensures
        fraction_part(s).len() <= SCALE_DIGITS ==> amount_value(s) == digits_value(
            whole_part(s) + fraction_part(s),
        ) * pow10((SCALE_DIGITS - fraction_part(s).len()) as nat),
        fraction_part(s).len() > SCALE_DIGITS ==> {
            let v = digits_value(whole_part(s) + fraction_part(s));
            let p = pow10((fraction_part(s).len() - SCALE_DIGITS) as nat);
            amount_value(s) == (2 * v + p) / (2 * p)
        },
{
    let whole = whole_part(s);
    let frac = fraction_part(s);
    if frac.len() > SCALE_DIGITS {
        let k = frac.take(6);
        let t = frac.skip(6);
        let u = t.drop_first();
        let m = t.len();
        assert(whole + frac =~= (whole + k) + t);
        lemma_digits_concat(whole + k, t);
        assert(t =~= seq![t[0]] + u);
        lemma_digits_concat(seq![t[0]], u);
        assert(seq![t[0]].drop_last() =~= Seq::<char>::empty());
        assert(digits_value(Seq::<char>::empty()) == 0);
        assert(digits_value(seq![t[0]]) == digit_value(t[0]));
        assert(pow10(1) == 10 * pow10(0));
        assert(all_digits(u)) by {
            assert forall|i: int| 0 <= i < u.len() implies is_digit(#[trigger] u[i]) by {
                assert(u[i] == frac[7 + i]);
            }
        }
        lemma_digits_below(u);
        assert(is_digit(frac[6]));
        assert(t[0] == frac[6]);
        let b = digits_value(whole + k);
        let d = digit_value(t[0]);
        let uv = digits_value(u);
        let q = pow10(u.len());
        let p = pow10(m);
        assert(p == 10 * q);
        assert(digits_value(t) == d * q + uv);
        assert(kept_fraction(s) =~= k);
        assert(pow10((SCALE_DIGITS - k.len()) as nat) == 1);
        let x = 2 * (d * q + uv) + p;
        assert(2 * (b * p + (d * q + uv)) + p == b * (2 * p) + x) by (nonlinear_arith)
            requires
                x == 2 * (d * q + uv) + p,
        ;
        lemma_pow10_pos(u.len());
        if d >= 5 {
            assert(2 * p <= x < 3 * p) by (nonlinear_arith)
                requires
                    d >= 5,
                    d <= 9,
                    uv < q,
                    p == 10 * q,
                    x == 2 * (d * q + uv) + p,
            ;
            assert(b * (2 * p) + x == (b + 1) * (2 * p) + (x - 2 * p)) by (nonlinear_arith);
            vstd::arithmetic::div_mod::lemma_fundamental_div_mod_converse(
                (b * (2 * p) + x) as int,
                (2 * p) as int,
                (b + 1) as int,
                x - 2 * p,
            );
        } else {
            assert(0 <= x < 2 * p) by (nonlinear_arith)
                requires
                    d <= 4,
                    uv < q,
                    p == 10 * q,
                    x == 2 * (d * q + uv) + p,
            ;
            vstd::arithmetic::div_mod::lemma_fundamental_div_mod_converse(
                (b * (2 * p) + x) as int,
                (2 * p) as int,
                b as int,
                x as int,
            );
        }
    }
}

/// Reads a count written in decimal digits.
pub fn parse_count(s: &str) -> (r: Option<u64>)
    ensures
        r.is_some() == is_count_text(s@),
        r.is_some() ==> r.unwrap() as nat == digits_value(s@),
{
    let n = s.unicode_len();
    if n == 0 {
        return None;
    }
    let mut acc: u64 = 0;
    let mut i: usize = 0;
    while i < n
        invariant
            n == s@.len(),
            i <= n,
            all_digits(s@.subrange(0, i as int)),
            acc as nat == digits_value(s@.subrange(0, i as int)),
        decreases n - i,
    {
        let c = s.get_char(i);
        if !('0' <= c && c <= '9') {
            assert(!all_digits(s@));
            return None;
        }
        let d = (c as u32 - '0' as u32) as u64;
        proof {
            lemma_digits_push(s@.subrange(0, i as int), c);
            assert(s@.subrange(0, i as int).push(c) =~= s@.subrange(0, i + 1));
        }
        if acc > (u64::MAX - d) / 10 {
            proof {
                lemma_digits_prefix_le(s@, i + 1);
            }
            return None;
        }
        acc = acc * 10 + d;
        i = i + 1;
    }
    assert(s@.subrange(0, n as int) =~= s@);
    Some(acc)
}

pub(crate) fn pow10_exec(n: usize) -> (r: u64)
    requires
        n <= SCALE_DIGITS,
    ensures
        r as nat == pow10(n as nat),
        1 <= r <= 1000000,
{
    let mut r: u64 = 1;
    let mut k: usize = 0;
    while k < n
        invariant
            k <= n <= SCALE_DIGITS,
            r as nat == pow10(k as nat),
            1 <= r <= 1000000,
        decreases n - k,
    {
        proof {
            assert(pow10((k + 1) as nat) == 10 * pow10(k as nat));
            if k < n {
                assert(r <= 100000) by {
                    lemma_pow10_bound(k as nat);
                }
            }
        }
        r = r * 10;
        k = k + 1;
    }
    r
}

proof fn lemma_pow10_bound(k: nat)
    requires
        k < 6,
    ensures
        pow10(k) <= 100000,
{
    reveal_with_fuel(pow10, 7);
}

proof fn lemma_point_unique(s: Seq<char>, p: int)
    requires
        is_first_point(s, p),
    ensures
        point_index(s) == p,
{
    let c = choose|i: int| is_first_point(s, i);
    assert(is_first_point(s, c));
    if c < p {
        assert(s[c] != '.');
    } else if c > p {
        assert(s[p] != '.');
    }
}

proof fn lemma_no_point(s: Seq<char>)
    requires
        forall|j: int| 0 <= j < s.len() ==> s[j] != '.',
    ensures
        point_index(s) == s.len(),
{
    if exists|i: int| is_first_point(s, i) {
        let c = choose|i: int| is_first_point(s, i);
        assert(s[c] == '.');
    }
}

/// The digits of an amount read so far, the point left out.
spec fn amount_digits_upto(s: Seq<char>, point: int, i: int) -> Seq<char> {
    if point < i {
        s.subrange(0, point) + s.subrange(point + 1, i)
    } else {
        s.subrange(0, i)
    }
}

/// The digits of an amount read so far that count towards whole millionths.
spec fn kept_upto(s: Seq<char>, point: int, i: int) -> Seq<char> {
    if point < i {
        s.subrange(0, point) + s.subrange(point + 1, if i < point + 7 { i } else { point + 7 })
    } else {
        s.subrange(0, i)
    }
}

/// Reads an amount in decimal notation (`12`, `12.5`, `.75`, `3.`) as a whole
/// number of millionths, rounded half up.
pub fn parse_amount(s: &str) -> (r: Option<u64>)
    ensures
        r.is_some() == is_amount_text(s@),
        r.is_some() ==> r.unwrap() as nat == amount_value(s@),
{
    let n = s.unicode_len();
    let mut acc: u64 = 0;
    let mut i: usize = 0;
    let mut point: usize = n;
    let mut frac_len: usize = 0;
    let mut round_up = false;
    while i < n
        invariant
            n == s@.len(),
            i <= n,
            point == n || point < i,
            point == n ==> forall|j: int| 0 <= j < i ==> s@[j] != '.',
            point < n ==> is_first_point(s@, point as int),
            point < n ==> frac_len == (if i - point - 1 < 6 { i - point - 1 } else { 6 }),
            point == n ==> frac_len == 0,
            frac_len <= SCALE_DIGITS,
            round_up == (point < n && i > point + 7 && digit_value(s@[point + 7]) >= 5),
            all_digits(amount_digits_upto(s@, point as int, i as int)),
            acc as nat == digits_value(kept_upto(s@, point as int, i as int)),
        decreases n - i,
    {
        let c = s.get_char(i);
        let ghost before = amount_digits_upto(s@, point as int, i as int);
        let ghost kept_before = kept_upto(s@, point as int, i as int);
        if c == '.' && point == n {
            proof {
                assert(is_first_point(s@, i as int));
                assert(amount_digits_upto(s@, i as int, i + 1) =~= s@.subrange(0, i as int));
                assert(kept_upto(s@, i as int, i + 1) =~= s@.subrange(0, i as int));
            }
            point = i;
        } else if '0' <= c && c <= '9' {
            let ghost p = point as int;
            proof {
                assert(amount_digits_upto(s@, p, i + 1) =~= before.push(c));
            }
            let d = (c as u32 - '0' as u32) as u64;
            if point < n && frac_len == SCALE_DIGITS {
                if i == point + 7 {
                    round_up = d >= 5;
                }
                proof {
                    assert(kept_upto(s@, p, i + 1) =~= kept_before);
                }
            } else {
                proof {
                    assert(kept_upto(s@, p, i + 1) =~= kept_before.push(c));
                    lemma_digits_push(kept_before, c);
                }
                if point < n {
                    frac_len = frac_len + 1;
                }
                if acc > (u64::MAX - d) / 10 {
                    proof {
                        lemma_amount_overflow(s@, p, i as int + 1);
                    }
                    return None;
                }
                acc = acc * 10 + d;
            }
        } else {
            proof {
                lemma_bad_char(s@, point as int, i as int);
            }
            return None;
        }
        i = i + 1;
    }
    let ghost p = point as int;
    proof {
        if point < n {
            lemma_point_unique(s@, p);
        } else {
            lemma_no_point(s@);
            assert(s@.subrange(0, n as int) =~= s@);
        }
        assert(amount_digits_upto(s@, p, n as int) =~= whole_part(s@) + fraction_part(s@));
        assert(kept_upto(s@, p, n as int) =~= whole_part(s@) + kept_fraction(s@));
    }
    if n == 0 || (point < n && n == 1) {
        return None;
    }
    let mult = pow10_exec(SCALE_DIGITS - frac_len);
    assert((acc as u128) * (mult as u128) + 1 <= u128::MAX) by (nonlinear_arith)
        requires
            acc <= u64::MAX,
            mult <= 1000000,
    ;
    let mut wide: u128 = (acc as u128) * (mult as u128);
    if round_up {
        wide = wide + 1;
    }
    proof {
        let whole = whole_part(s@);
        let frac = fraction_part(s@);
        assert(kept_fraction(s@).len() == frac_len);
        assert forall|j: int| 0 <= j < whole.len() implies is_digit(#[trigger] whole[j]) by {
            assert(whole[j] == (whole + frac)[j]);
        }
        assert forall|j: int| 0 <= j < frac.len() implies is_digit(#[trigger] frac[j]) by {
            assert(frac[j] == (whole + frac)[whole.len() + j]);
        }
        if frac.len() > SCALE_DIGITS {
            assert(frac[SCALE_DIGITS as int] == s@[p + 7]);
        }
    }
    if wide > u64::MAX as u128 {
        return None;
    }
    Some(wide as u64)
}

proof fn lemma_bad_char(s: Seq<char>, point: int, i: int)
    requires
        0 <= i < s.len(),
        point == s.len() || point < i,
        point == s.len() ==> forall|j: int| 0 <= j < i ==> s[j] != '.',
        point < s.len() ==> is_first_point(s, point),
        !is_digit(s[i]),
        !(s[i] == '.' && point == s.len()),
    ensures
        !is_amount_shape(s),
{
    if point < s.len() {
        lemma_point_unique(s, point);
        let frac = fraction_part(s);
        assert(frac[i - point - 1] == s[i]);
    } else {
        assert(is_first_point(s, i) || s[i] != '.');
        if s[i] == '.' {
        } else {
            let q = point_index(s);
            if exists|k: int| is_first_point(s, k) {
                let k = choose|k: int| is_first_point(s, k);
                if k < i {
                    assert(s[k] != '.');
                } else {
                    assert(s.subrange(0, q)[i] == s[i]);
                }
            } else {
                assert(s.subrange(0, q)[i] == s[i]);
            }
        }
    }
}

proof fn lemma_amount_overflow(s: Seq<char>, point: int, i: int)
    requires
        0 < i <= s.len(),
        point == s.len() || point < i,
        point == s.len() ==> forall|j: int| 0 <= j < i ==> s[j] != '.',
        point < s.len() ==> is_first_point(s, point),
        point < s.len() ==> i <= point + 7,
        digits_value(kept_upto(s, point, i)) > u64::MAX,
    ensures
        !is_amount_text(s),
{
    if is_amount_shape(s) {
        let q = point_index(s);
        let kept = kept_fraction(s);
        let all = whole_part(s) + kept;
        if point < s.len() {
            lemma_point_unique(s, point);
            assert(kept_upto(s, point, i) =~= all.subrange(0, i - 1));
            lemma_digits_prefix_le(all, i - 1);
        } else {
            if exists|k: int| is_first_point(s, k) {
                let k = choose|k: int| is_first_point(s, k);
                if k < i {
                    assert(s[k] != '.');
                }
                assert(kept_upto(s, point, i) =~= all.subrange(0, i));
            } else {
                assert(kept_upto(s, point, i) =~= all.subrange(0, i));
            }
            lemma_digits_prefix_le(all, i);
        }
        lemma_pow10_pos((SCALE_DIGITS - kept.len()) as nat);
        let v = digits_value(all);
        let m = pow10((SCALE_DIGITS - kept.len()) as nat);
        assert(v * m >= v) by (nonlinear_arith)
            requires
                m >= 1,
        ;
    }
}

} // verus!
