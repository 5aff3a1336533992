use vstd::prelude::*;
use crate::aggregate::{CampaignAggregation, Totals, cpa_of, ctr_of, view_all};
use crate::number::{pow10, pow10_exec};

verus! {

broadcast use vstd::string::group_string_axioms;

pub open spec fn digit_char(d: nat) -> char {
    if d == 0 { '0' }
    else if d == 1 { '1' }
    else if d == 2 { '2' }
    else if d == 3 { '3' }
    else if d == 4 { '4' }
    else if d == 5 { '5' }
    else if d == 6 { '6' }
    else if d == 7 { '7' }
    else if d == 8 { '8' }
    else { '9' }
}

/// `n` in decimal, without leading zeros.
pub open spec fn dec_text(n: nat) -> Seq<char>
    decreases n,
{
    if n < 10 {
        seq![digit_char(n)]
    } else {
        dec_text(n / 10).push(digit_char(n % 10))
    }
}

/// The six fractional digits of a number of millionths below one million.
pub open spec fn six_digits(f: nat) -> Seq<char> {
    Seq::new(6, |k: int| digit_char((f / pow10((5 - k) as nat)) % 10))
}

/// `s` without trailing zeros, keeping at least two characters.
pub open spec fn trim_zeros(s: Seq<char>) -> Seq<char>
    decreases s.len(),
{
    if s.len() > 2 && s.last() == '0' {
        trim_zeros(s.drop_last())
    } else {
        s
    }
}

/// A number of millionths in decimal with a point and two to six fractional
/// digits (`5.00`, `0.05`, `0.333333`).
pub open spec fn fixed_text(m: nat) -> Seq<char> {
    dec_text(m / 1000000) + seq!['.'] + trim_zeros(six_digits(m % 1000000))
}

/// The fields of the report row of `a`: campaign, impressions, clicks, spend,
/// conversions, click-through rate, and cost per acquisition (empty without
/// conversions).
pub open spec fn report_row(a: Totals) -> Seq<Seq<char>> {
    seq![
        a.id,
        dec_text(a.impressions),
        dec_text(a.clicks),
        fixed_text(a.spend),
        dec_text(a.conversions),
        fixed_text(
            match ctr_of(a) {
                Some(v) => v,
                None => 0,
            },
        ),
        match cpa_of(a) {
            Some(v) => fixed_text(v),
            None => Seq::empty(),
        },
    ]
}

pub open spec fn report_header() -> Seq<Seq<char>> {
    seq![
        "campaign_id"@,
        "impressions"@,
        "clicks"@,
        "spend"@,
        "conversions"@,
        "ctr"@,
        "cpa"@,
    ]
}

pub open spec fn texts(v: Seq<String>) -> Seq<Seq<char>> {
    v.map_values(|s: String| s@)
}

fn digit_str(d: u128) -> (r: &'static str)
    requires
        d < 10,
    ensures
        r@ == seq![digit_char(d as nat)],
{
    proof {
        reveal_strlit("0");
        reveal_strlit("1");
        reveal_strlit("2");
        reveal_strlit("3");
        reveal_strlit("4");
        reveal_strlit("5");
        reveal_strlit("6");
        reveal_strlit("7");
        reveal_strlit("8");
        reveal_strlit("9");
    }
    if d == 0 { "0" }
    else if d == 1 { "1" }
    else if d == 2 { "2" }
    else if d == 3 { "3" }
    else if d == 4 { "4" }
    else if d == 5 { "5" }
    else if d == 6 { "6" }
    else if d == 7 { "7" }
    else if d == 8 { "8" }
    else { "9" }
}

fn push_dec(s: &mut String, n: u128)
    ensures
        final(s)@ == old(s)@ + dec_text(n as nat),
    decreases n,
{
    if n >= 10 {
        push_dec(s, n / 10);
    }
    s.append(digit_str(n % 10));
}

fn dec_string(n: u128) -> (r: String)
    ensures
        r@ == dec_text(n as nat),
{
    let mut s = String::new();
    push_dec(&mut s, n);
    assert(s@ =~= dec_text(n as nat));
    s
}

/// Appends the fractional digits of `f` millionths, trailing zeros removed
/// down to two digits.
fn push_fraction(s: &mut String, f: u128)
    requires
        f < 1000000,
    ensures
        final(s)@ == old(s)@ + trim_zeros(six_digits(f as nat)),
{
    let ghost six = six_digits(f as nat);
    let mut digits: Vec<u128> = Vec::new();
    let mut k: usize = 0;
    while k < 6
        invariant
            k <= 6,
            digits@.len() == k,
            six == six_digits(f as nat),
            six.len() == 6,
            f < 1000000,
            forall|i: int| 0 <= i < k ==> digits@[i] < 10 && digit_char(#[trigger] digits@[i] as nat) == six[i],
        decreases 6 - k,
    {
        let p = pow10_exec(5 - k);
        let d = (f / (p as u128)) % 10;
        digits.push(d);
        k = k + 1;
    }
    let mut keep: usize = 6;
    assert(six.take(6) =~= six);
    while keep > 2 && digits[keep - 1] == 0
        invariant
            2 <= keep <= 6,
            digits@.len() == 6,
            six.len() == 6,
            forall|i: int| 0 <= i < 6 ==> digits@[i] < 10 && digit_char(#[trigger] digits@[i] as nat) == six[i],
            trim_zeros(six.take(keep as int)) == trim_zeros(six),
        decreases keep,
    {
        assert(six.take(keep as int).drop_last() =~= six.take(keep - 1));
        keep = keep - 1;
    }
    assert(trim_zeros(six.take(keep as int)) == six.take(keep as int)) by {
        if keep > 2 {
            assert(digits@[keep - 1] != 0);
            assert(six[keep - 1] != '0');
        }
    }
    let ghost start = s@;
    let mut i: usize = 0;
    while i < keep
        invariant
            i <= keep <= 6,
            digits@.len() == 6,
            six.len() == 6,
            forall|j: int| 0 <= j < 6 ==> digits@[j] < 10 && digit_char(#[trigger] digits@[j] as nat) == six[j],
            s@ == start + six.take(i as int),
        decreases keep - i,
    {
        s.append(digit_str(digits[i]));
        assert(six.take(i + 1) =~= six.take(i as int).push(six[i as int]));
        i = i + 1;
    }
}

/// `m` millionths in decimal, as `fixed_text` gives it.
fn fixed_string(m: u128) -> (r: String)
    ensures
        r@ == fixed_text(m as nat),
{
    let mut s = dec_string(m / 1000000);
    proof {
        reveal_strlit(".");
    }
    s.append(".");
    push_fraction(&mut s, m % 1000000);
    assert(s@ =~= fixed_text(m as nat));
    s
}

impl CampaignAggregation {
    /// The fields of this campaign's report row, as `report_row` gives them.
    pub fn report_row(&self) -> (r: Vec<String>)
        ensures
            texts(r@) == report_row(self@),
    {
        let mut row: Vec<String> = Vec::new();
        row.push(self.campaign_id.clone());
        row.push(dec_string(self.total_impressions as u128));
        row.push(dec_string(self.total_clicks as u128));
        row.push(fixed_string(self.total_spend as u128));
        row.push(dec_string(self.total_conversions as u128));
        let ctr = match self.ctr() {
            Some(v) => v,
            None => 0,
        };
        row.push(fixed_string(ctr));
        match self.cpa() {
            Some(v) => row.push(fixed_string(v)),
            None => row.push(String::new()),
        }
        assert(texts(row@) =~= report_row(self@));
        row
    }
}

/// The header row of both reports.
pub fn header_row() -> (r: Vec<String>)
    ensures
        texts(r@) == report_header(),
{
    let mut row: Vec<String> = Vec::new();
    row.push(String::from_str("campaign_id"));
    row.push(String::from_str("impressions"));
    row.push(String::from_str("clicks"));
    row.push(String::from_str("spend"));
    row.push(String::from_str("conversions"));
    row.push(String::from_str("ctr"));
    row.push(String::from_str("cpa"));
    assert(texts(row@) =~= report_header());
    row
}

/// The report rows of the campaigns at positions `picks`, in that order.
pub fn report_rows(campaigns: &Vec<CampaignAggregation>, picks: &Vec<usize>) -> (r: Vec<Vec<String>>)
    requires
        forall|k: int| 0 <= k < picks@.len() ==> #[trigger] picks@[k] < campaigns@.len(),
    ensures
        r@.len() == picks@.len(),
        forall|k: int| 0 <= k < picks@.len() ==> texts(#[trigger] r@[k]@) == report_row(
            view_all(campaigns@)[picks@[k] as int],
        ),
{
    let mut rows: Vec<Vec<String>> = Vec::new();
    let mut k: usize = 0;
    while k < picks.len()
        invariant
            k <= picks@.len(),
            rows@.len() == k,
            forall|i: int| 0 <= i < picks@.len() ==> #[trigger] picks@[i] < campaigns@.len(),
            forall|i: int| 0 <= i < k ==> texts(#[trigger] rows@[i]@) == report_row(
                view_all(campaigns@)[picks@[i] as int],
            ),
        decreases picks@.len() - k,
    {
        let row = campaigns[picks[k]].report_row();
        rows.push(row);
        k = k + 1;
    }
    rows
}

} // verus!
