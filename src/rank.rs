use vstd::prelude::*;
use crate::record::Event;
use crate::aggregate::{CampaignAggregation, Totals, aggregate, ids, lemma_ids_distinct, view_all};

verus! {

/// How many campaigns a ranking keeps.
pub const TOP_N: usize = 10;

/// The two ranking policies.
#[derive(Clone, Copy, Debug, PartialEq, Eq, Structural)]
pub enum Ranking {
    /// Highest click-through rate first; campaigns without impressions last.
    ByCtr,
    /// Lowest cost per acquisition first; campaigns without conversions left out.
    ByCpa,
}

/// `a` may stand in a ranking of this kind.
pub open spec fn eligible(kind: Ranking, a: Totals) -> bool {
    match kind {
        Ranking::ByCtr => true,
        Ranking::ByCpa => a.conversions > 0,
    }
}

/// `a` has at least the click-through rate of `b`, an undefined rate
/// counting as the lowest.
pub open spec fn ctr_at_least(a: Totals, b: Totals) -> bool {
    b.impressions == 0 || (a.impressions > 0 && a.clicks * b.impressions >= b.clicks
        * a.impressions)
}

/// `a` costs at most what `b` costs per acquisition.
pub open spec fn cpa_at_most(a: Totals, b: Totals) -> bool {
    a.spend * b.conversions <= b.spend * a.conversions
}

/// `a` ranks at least as high as `b`.
pub open spec fn ranks_at_least(kind: Ranking, a: Totals, b: Totals) -> bool {
    match kind {
        Ranking::ByCtr => ctr_at_least(a, b),
        Ranking::ByCpa => cpa_at_most(a, b),
    }
}

/// `r` lists positions of `c` that form the top of the ranking: at most
/// `TOP_N`, each eligible and listed once, best first; every eligible campaign
/// left out ranks no higher than any listed, and of two that rank equally
/// the earlier in `c` comes first. Fewer than `TOP_N` are listed only when
/// every eligible campaign is.
pub open spec fn is_top(kind: Ranking, c: Seq<Totals>, r: Seq<usize>) -> bool {
    &&& r.len() <= TOP_N
    &&& r.no_duplicates()
    &&& forall|k: int| 0 <= k < r.len() ==> #[trigger] r[k] < c.len() && eligible(kind, c[r[k] as int])
    &&& forall|k: int| 0 <= k < r.len() - 1 ==> ranks_at_least(kind, c[#[trigger] r[k] as int], c[r[k + 1] as int])
    &&& forall|k: int| 0 <= k < r.len() - 1 ==> ranks_at_least(kind, c[r[k + 1] as int], c[#[trigger] r[k] as int])
        ==> r[k] < r[k + 1]
    &&& forall|k: int, j: int| 0 <= k < r.len() && 0 <= j < c.len() && eligible(kind, c[j]) && !r.contains(j as usize)
        ==> ranks_at_least(kind, c[#[trigger] r[k] as int], #[trigger] c[j])
    &&& forall|k: int, j: int| 0 <= k < r.len() && 0 <= j < c.len() && eligible(kind, c[j]) && !r.contains(j as usize)
        && ranks_at_least(kind, #[trigger] c[j], c[#[trigger] r[k] as int]) ==> r[k] < j
    &&& r.len() < TOP_N ==> forall|j: int| 0 <= j < c.len() && eligible(kind, #[trigger] c[j]) ==> r.contains(j as usize)
}

proof fn lemma_ratio_trans(n1: nat, d1: nat, n2: nat, d2: nat, n3: nat, d3: nat)
    requires
        d1 > 0,
        d2 > 0,
        d3 > 0,
        n1 * d2 >= n2 * d1,
        n2 * d3 >= n3 * d2,
    ensures
        n1 * d3 >= n3 * d1,
{
    assert(n1 * d2 * d3 >= n2 * d1 * d3) by (nonlinear_arith)
        requires
            n1 * d2 >= n2 * d1,
    ;
    assert(n2 * d3 * d1 >= n3 * d2 * d1) by (nonlinear_arith)
        requires
            n2 * d3 >= n3 * d2,
    ;
    assert(d2 * (n1 * d3) >= d2 * (n3 * d1)) by (nonlinear_arith)
        requires
            n1 * d2 * d3 >= n2 * d1 * d3,
            n2 * d3 * d1 >= n3 * d2 * d1,
    ;
    assert(n1 * d3 >= n3 * d1) by (nonlinear_arith)
        requires
            d2 > 0,
            d2 * (n1 * d3) >= d2 * (n3 * d1),
    ;
}

/// Ranking is a total preorder on the eligible campaigns.
proof fn lemma_ranks_order(kind: Ranking, a: Totals, b: Totals, c: Totals)
    requires
        eligible(kind, a),
        eligible(kind, b),
        eligible(kind, c),
    ensures
        ranks_at_least(kind, a, b) || ranks_at_least(kind, b, a),
        ranks_at_least(kind, a, b) && ranks_at_least(kind, b, c) ==> ranks_at_least(kind, a, c),
{
    match kind {
        Ranking::ByCtr => {
            if ctr_at_least(a, b) && ctr_at_least(b, c) && c.impressions > 0 {
                lemma_ratio_trans(a.clicks, a.impressions, b.clicks, b.impressions, c.clicks, c.impressions);
            }
        },
        Ranking::ByCpa => {
            if cpa_at_most(a, b) && cpa_at_most(b, c) {
                lemma_ratio_trans(c.spend, c.conversions, b.spend, b.conversions, a.spend, a.conversions);
            }
        },
    }
}

fn is_eligible(kind: Ranking, a: &CampaignAggregation) -> (r: bool)
    ensures
        r == eligible(kind, a@),
{
    match kind {
        Ranking::ByCtr => true,
        Ranking::ByCpa => a.total_conversions > 0,
    }
}

/// `n1 * d2 >= n2 * d1`, computed without overflow.
fn cross_at_least(n1: u64, d1: u64, n2: u64, d2: u64) -> (r: bool)
    ensures
        r == (n1 as nat * d2 as nat >= n2 as nat * d1 as nat),
{
    assert((n1 as u128) * (d2 as u128) <= u128::MAX && (n2 as u128) * (d1 as u128) <= u128::MAX)
        by (nonlinear_arith)
        requires
            n1 <= u64::MAX,
            d2 <= u64::MAX,
            n2 <= u64::MAX,
            d1 <= u64::MAX,
    ;
    (n1 as u128) * (d2 as u128) >= (n2 as u128) * (d1 as u128)
}

fn ranks_at_least_exec(kind: Ranking, a: &CampaignAggregation, b: &CampaignAggregation) -> (r: bool)
    ensures
        r == ranks_at_least(kind, a@, b@),
{
    match kind {
        Ranking::ByCtr => {
            if b.total_impressions == 0 {
                true
            } else if a.total_impressions == 0 {
                false
            } else {
                cross_at_least(a.total_clicks, a.total_impressions, b.total_clicks, b.total_impressions)
            }
        },
        Ranking::ByCpa => cross_at_least(
            b.total_spend,
            b.total_conversions,
            a.total_spend,
            a.total_conversions,
        ),
    }
}

/// Selects the top of `campaigns` under `kind`, as positions into it.
pub fn select_top(kind: Ranking, campaigns: &Vec<CampaignAggregation>) -> (r: Vec<usize>)
    ensures
        is_top(kind, view_all(campaigns@), r@),
{
    let ghost c = view_all(campaigns@);
    let n = campaigns.len();
    let mut chosen: Vec<bool> = Vec::new();
    while chosen.len() < n
        invariant
            chosen@.len() <= n,
            forall|j: int| 0 <= j < chosen@.len() ==> !chosen@[j],
        decreases n - chosen@.len(),
    {
        chosen.push(false);
    }
    let mut r: Vec<usize> = Vec::new();
    let mut exhausted = false;
    while !exhausted && r.len() < TOP_N
        invariant
            exhausted ==> forall|j: int| 0 <= j < c.len() && eligible(kind, #[trigger] c[j]) ==> r@.contains(j as usize),
            n == campaigns@.len() == c.len() == chosen@.len(),
            c == view_all(campaigns@),
            r@.len() <= TOP_N,
            forall|j: int| 0 <= j < n ==> chosen@[j] == r@.contains(j as usize),
            r@.no_duplicates(),
            forall|k: int| 0 <= k < r@.len() ==> #[trigger] r@[k] < c.len() && eligible(kind, c[r@[k] as int]),
            forall|k: int| 0 <= k < r@.len() - 1 ==> ranks_at_least(kind, c[#[trigger] r@[k] as int], c[r@[k + 1] as int]),
            forall|k: int| 0 <= k < r@.len() - 1 ==> ranks_at_least(kind, c[r@[k + 1] as int], c[#[trigger] r@[k] as int])
                ==> r@[k] < r@[k + 1],
            forall|k: int, j: int| 0 <= k < r@.len() && 0 <= j < c.len() && eligible(kind, c[j]) && !r@.contains(j as usize)
                ==> ranks_at_least(kind, c[#[trigger] r@[k] as int], #[trigger] c[j]),
            forall|k: int, j: int| 0 <= k < r@.len() && 0 <= j < c.len() && eligible(kind, c[j]) && !r@.contains(j as usize)
                && ranks_at_least(kind, #[trigger] c[j], c[#[trigger] r@[k] as int]) ==> r@[k] < j,
        decreases TOP_N - r@.len() + (if exhausted { 0int } else { 1int }),
    {
        let mut best: usize = n;
        let mut j: usize = 0;
        while j < n
            invariant
                n == campaigns@.len() == c.len() == chosen@.len(),
                c == view_all(campaigns@),
                j <= n,
                best == n || best < j,
                best < n ==> eligible(kind, c[best as int]) && !chosen@[best as int],
                best == n ==> forall|i: int| 0 <= i < j ==> !(eligible(kind, c[i]) && !chosen@[i]),
                best < n ==> forall|i: int| 0 <= i < j && eligible(kind, c[i]) && !chosen@[i]
                    ==> ranks_at_least(kind, c[best as int], #[trigger] c[i]),
                best < n ==> forall|i: int| 0 <= i < j && eligible(kind, c[i]) && !chosen@[i]
                    && ranks_at_least(kind, #[trigger] c[i], c[best as int]) ==> best <= i,
            decreases n - j,
        {
            assert(c[j as int] == campaigns@[j as int]@);
            if is_eligible(kind, &campaigns[j]) && !chosen[j] {
                if best == n {
                    best = j;
                } else {
                    assert(c[best as int] == campaigns@[best as int]@);
                    if !ranks_at_least_exec(kind, &campaigns[best], &campaigns[j]) {
                        proof {
                            lemma_ranks_order(kind, c[best as int], c[j as int], c[best as int]);
                            assert forall|i: int| 0 <= i < j && eligible(kind, c[i]) && !chosen@[i]
                                implies ranks_at_least(kind, c[j as int], #[trigger] c[i]) && (ranks_at_least(kind, c[i], c[j as int]) ==> j <= i) by {
                                lemma_ranks_order(kind, c[j as int], c[best as int], c[i]);
                                lemma_ranks_order(kind, c[best as int], c[i], c[j as int]);
                            }
                        }
                        best = j;
                    }
                }
            }
            j = j + 1;
        }
        if best == n {
            exhausted = true;
            proof {
                assert forall|i: int| 0 <= i < c.len() && eligible(kind, #[trigger] c[i]) implies r@.contains(i as usize) by {
                    assert(chosen@[i]);
                }
            }
        } else {
            let ghost old_r = r@;
            proof {
                assert(!old_r.contains(best));
                if old_r.len() > 0 {
                    assert(ranks_at_least(kind, c[old_r[old_r.len() - 1] as int], c[best as int]));
                }
            }
            chosen.set(best, true);
            r.push(best);
            proof {
                assert(r@ == old_r.push(best));
                assert forall|x: int| 0 <= x < n implies chosen@[x] == r@.contains(x as usize) by {
                    if x == best {
                        assert(r@[old_r.len() as int] == best);
                    } else if old_r.contains(x as usize) {
                        let w = choose|w: int| 0 <= w < old_r.len() && old_r[w] == x as usize;
                        assert(r@[w] == x as usize);
                    } else if r@.contains(x as usize) {
                        let w = choose|w: int| 0 <= w < r@.len() && r@[w] == x as usize;
                        if w < old_r.len() {
                            assert(old_r[w] == x as usize);
                        }
                    }
                }
                assert forall|k: int, i: int| 0 <= k < r@.len() && 0 <= i < c.len() && eligible(kind, c[i]) && !r@.contains(i as usize)
                    implies ranks_at_least(kind, c[#[trigger] r@[k] as int], #[trigger] c[i])
                        && (ranks_at_least(kind, c[i], c[r@[k] as int]) ==> r@[k] < i) by {
                    assert(!chosen@[i]);
                    if k < old_r.len() {
                        assert(r@[k] == old_r[k]);
                        assert(!old_r.contains(i as usize)) by {
                            if old_r.contains(i as usize) {
                                let w = choose|w: int| 0 <= w < old_r.len() && old_r[w] == i as usize;
                                assert(r@[w] == i as usize);
                            }
                        }
                    } else {
                        assert(r@[k] == best);
                        assert(i != best);
                    }
                }
            }
        }
    }
    r
}

/// Along a top list, each campaign ranks at least as high as every later one,
/// and of two that rank equally the earlier in `c` comes first.
proof fn lemma_top_chain(kind: Ranking, c: Seq<Totals>, r: Seq<usize>, k: int, m: int)
    requires
        is_top(kind, c, r),
        0 <= k < m < r.len(),
    ensures
        ranks_at_least(kind, c[r[k] as int], c[r[m] as int]),
        ranks_at_least(kind, c[r[m] as int], c[r[k] as int]) ==> r[k] < r[m],
    decreases m - k,
{
    assert(r[m - 1] < c.len() && r[m] < c.len() && r[k] < c.len());
    if m > k + 1 {
        lemma_top_chain(kind, c, r, k, m - 1);
        assert(ranks_at_least(kind, c[r[m - 1] as int], c[r[m] as int]));
        lemma_ranks_order(kind, c[r[k] as int], c[r[m - 1] as int], c[r[m] as int]);
        lemma_ranks_order(kind, c[r[m] as int], c[r[k] as int], c[r[m - 1] as int]);
        lemma_ranks_order(kind, c[r[m - 1] as int], c[r[m] as int], c[r[k] as int]);
    }
}

/// Where a list agrees with the top list `r` before position `k`, its entry
/// `a` at `k` is `r[k]`, or ranks no higher than `r[k]` and, ranking equally,
/// comes later in `c`.
proof fn lemma_top_beats(kind: Ranking, c: Seq<Totals>, r: Seq<usize>, k: int, a: usize)
    requires
        is_top(kind, c, r),
        0 <= k < r.len(),
        a < c.len(),
        eligible(kind, c[a as int]),
        !r.take(k).contains(a),
        a != r[k],
    ensures
        ranks_at_least(kind, c[r[k] as int], c[a as int]),
        ranks_at_least(kind, c[a as int], c[r[k] as int]) ==> r[k] < a,
{
    assert(r[k] < c.len());
    if r.contains(a) {
        let m = choose|m: int| 0 <= m < r.len() && r[m] == a;
        if m < k {
            assert(r.take(k)[m] == a);
        }
        lemma_top_chain(kind, c, r, k, m);
    } else {
        assert(ranks_at_least(kind, c[r[k] as int], c[a as int]));
    }
}

proof fn lemma_top_prefix(kind: Ranking, c: Seq<Totals>, r1: Seq<usize>, r2: Seq<usize>, k: int)
    requires
        is_top(kind, c, r1),
        is_top(kind, c, r2),
        0 <= k <= r1.len(),
        k <= r2.len(),
    ensures
        r1.take(k) == r2.take(k),
    decreases k,
{
    if k > 0 {
        lemma_top_prefix(kind, c, r1, r2, k - 1);
        let a = r1[k - 1];
        let b = r2[k - 1];
        assert(a < c.len() && b < c.len());
        if a != b {
            assert(!r2.take(k - 1).contains(a)) by {
                if r2.take(k - 1).contains(a) {
                    let w = choose|w: int| 0 <= w < k - 1 && #[trigger] r2.take(k - 1)[w] == a;
                    assert(r1.take(k - 1)[w] == a);
                    assert(r1[w] == r1[k - 1]);
                }
            }
            assert(!r1.take(k - 1).contains(b)) by {
                if r1.take(k - 1).contains(b) {
                    let w = choose|w: int| 0 <= w < k - 1 && #[trigger] r1.take(k - 1)[w] == b;
                    assert(r2.take(k - 1)[w] == b);
                    assert(r2[w] == r2[k - 1]);
                }
            }
            lemma_top_beats(kind, c, r2, k - 1, a);
            lemma_top_beats(kind, c, r1, k - 1, b);
        }
        assert(r1.take(k) =~= r1.take(k - 1).push(a));
        assert(r2.take(k) =~= r2.take(k - 1).push(b));
    }
}

/// Law: the top of a ranking is determined by the campaigns alone, so two
/// runs over the same input give the same report.
pub proof fn lemma_top_unique(kind: Ranking, c: Seq<Totals>, r1: Seq<usize>, r2: Seq<usize>)
    requires
        is_top(kind, c, r1),
        is_top(kind, c, r2),
    ensures
        r1 == r2,
{
    if r1.len() < r2.len() {
        lemma_top_prefix(kind, c, r1, r2, r1.len() as int);
        let x = r2[r1.len() as int];
        assert(x < c.len() && eligible(kind, c[x as int]));
        assert(r1.contains(x));
        let w = choose|w: int| 0 <= w < r1.len() && r1[w] == x;
        assert(r1.take(r1.len() as int)[w] == r2.take(r1.len() as int)[w]);
        assert(r2[w] == r2[r1.len() as int]);
    } else if r2.len() < r1.len() {
        lemma_top_prefix(kind, c, r2, r1, r2.len() as int);
        let x = r1[r2.len() as int];
        assert(x < c.len() && eligible(kind, c[x as int]));
        assert(r2.contains(x));
        let w = choose|w: int| 0 <= w < r2.len() && r2[w] == x;
        assert(r2.take(r2.len() as int)[w] == r1.take(r2.len() as int)[w]);
        assert(r1[w] == r1[r2.len() as int]);
    } else {
        lemma_top_prefix(kind, c, r1, r2, r1.len() as int);
        assert(r1.take(r1.len() as int) =~= r1);
        assert(r2.take(r2.len() as int) =~= r2);
    }
}

/// The campaign identifiers listed by `r`, in order.
pub open spec fn picked_ids(c: Seq<Totals>, r: Seq<usize>) -> Seq<Seq<char>> {
    r.map_values(|i: usize| c[i as int].id)
}

/// Law: after a pass over any events, neither ranking lists a campaign
/// identifier twice.
pub proof fn lemma_top_ids_distinct(kind: Ranking, events: Seq<Event>, r: Seq<usize>)
    requires
        is_top(kind, aggregate(events), r),
    ensures
        picked_ids(aggregate(events), r).no_duplicates(),
{
    let c = aggregate(events);
    lemma_ids_distinct(events);
    assert forall|i: int, j: int| 0 <= i < j < r.len() implies picked_ids(c, r)[i] != picked_ids(c, r)[j] by {
        assert(r[i] < c.len() && r[j] < c.len());
        assert(r[i] != r[j]);
        assert(ids(c)[r[i] as int] != ids(c)[r[j] as int]);
    }
}

/// The campaigns with the ten highest click-through rates, best first, as
/// positions into `campaigns`.
pub fn top_by_ctr(campaigns: &Vec<CampaignAggregation>) -> (r: Vec<usize>)
    ensures
        is_top(Ranking::ByCtr, view_all(campaigns@), r@),
{
    select_top(Ranking::ByCtr, campaigns)
}

/// The ten campaigns with conversions that cost least per acquisition, best
/// first, as positions into `campaigns`.
pub fn top_by_cpa(campaigns: &Vec<CampaignAggregation>) -> (r: Vec<usize>)
    ensures
        is_top(Ranking::ByCpa, view_all(campaigns@), r@),
{
    select_top(Ranking::ByCpa, campaigns)
}

} // verus!
