use vstd::prelude::*;
use crate::record::Event;

verus! {

/// Running totals of one campaign, as mathematical values.
pub ghost struct Totals {
    pub id: Seq<char>,
    pub impressions: nat,
    pub clicks: nat,
    pub spend: nat,
    pub conversions: nat,
}

/// The totals of one campaign. `total_spend` is in millionths.
#[derive(Debug)]
pub struct CampaignAggregation {
    pub campaign_id: String,
    pub total_impressions: u64,
    pub total_clicks: u64,
    pub total_spend: u64,
    pub total_conversions: u64,
}

impl View for CampaignAggregation {
    type V = Totals;

    open spec fn view(&self) -> Totals {
        Totals {
            id: self.campaign_id@,
            impressions: self.total_impressions as nat,
            clicks: self.total_clicks as nat,
            spend: self.total_spend as nat,
            conversions: self.total_conversions as nat,
        }
    }
}

/// The totals of a campaign seen once, in `e`.
pub open spec fn seed(e: Event) -> Totals {
    Totals {
        id: e.campaign_id@,
        impressions: e.impressions as nat,
        clicks: e.clicks as nat,
        spend: e.spend as nat,
        conversions: e.conversions as nat,
    }
}

/// `num / den`, rounded to the nearest whole number, halves up.
pub open spec fn rounded_ratio(num: nat, den: nat) -> nat {
    ((2 * num + den) / (2 * den)) as nat
}

/// The click-through rate, clicks over impressions, in millionths; undefined
/// without impressions.
pub open spec fn ctr_of(a: Totals) -> Option<nat> {
    if a.impressions == 0 {
        None
    } else {
        Some(rounded_ratio(a.clicks * 1000000, a.impressions))
    }
}

/// The cost per acquisition, spend over conversions, in millionths; undefined
/// without conversions.
pub open spec fn cpa_of(a: Totals) -> Option<nat> {
    if a.conversions == 0 {
        None
    } else {
        Some(rounded_ratio(a.spend, a.conversions))
    }
}

impl CampaignAggregation {
    /// The totals of a campaign seen once, in `e`.
    pub fn new(e: &Event) -> (r: CampaignAggregation)
        ensures
            r@ == seed(*e),
    {
        CampaignAggregation {
            campaign_id: e.campaign_id.clone(),
            total_impressions: e.impressions,
            total_clicks: e.clicks,
            total_spend: e.spend,
            total_conversions: e.conversions,
        }
    }

    /// Adds the counts of `e` to these totals.
    pub fn add(&mut self, e: &Event)
        requires
            add_event(old(self)@, *e).impressions <= u64::MAX,
            add_event(old(self)@, *e).clicks <= u64::MAX,
            add_event(old(self)@, *e).spend <= u64::MAX,
            add_event(old(self)@, *e).conversions <= u64::MAX,
        ensures
            final(self)@ == add_event(old(self)@, *e),
    {
        self.total_impressions = self.total_impressions + e.impressions;
        self.total_clicks = self.total_clicks + e.clicks;
        self.total_spend = self.total_spend + e.spend;
        self.total_conversions = self.total_conversions + e.conversions;
    }

    /// The click-through rate in millionths, rounded half up; `None` without
    /// impressions.
    pub fn ctr(&self) -> (r: Option<u128>)
        ensures
            r matches Some(v) ==> ctr_of(self@) == Some(v as nat),
            r is None ==> ctr_of(self@) is None,
    {
        if self.total_impressions == 0 {
            return None;
        }
        let c = self.total_clicks as u128;
        let i = self.total_impressions as u128;
        assert(c * 2000000 + i <= u128::MAX && c * 2000000 == 2 * (c * 1000000)) by (nonlinear_arith)
            requires
                c <= u64::MAX,
                i <= u64::MAX,
        ;
        Some((c * 2000000 + i) / (2 * i))
    }

    /// The cost per acquisition in millionths, rounded half up; `None` without
    /// conversions.
    pub fn cpa(&self) -> (r: Option<u128>)
        ensures
            r matches Some(v) ==> cpa_of(self@) == Some(v as nat),
            r is None ==> cpa_of(self@) is None,
    {
        if self.total_conversions == 0 {
            return None;
        }
        let s = self.total_spend as u128;
        let v = self.total_conversions as u128;
        Some((2 * s + v) / (2 * v))
    }
}

/// `t` with the counts of `e` added.
pub open spec fn add_event(t: Totals, e: Event) -> Totals {
    Totals {
        id: t.id,
        impressions: t.impressions + e.impressions as nat,
        clicks: t.clicks + e.clicks as nat,
        spend: t.spend + e.spend as nat,
        conversions: t.conversions + e.conversions as nat,
    }
}

/// Position of the totals of campaign `id` in `t`, or -1.
pub open spec fn index_of(t: Seq<Totals>, id: Seq<char>) -> int
    decreases t.len(),
{
    if t.len() == 0 {
        -1
    } else if t.last().id == id {
        t.len() - 1
    } else {
        index_of(t.drop_last(), id)
    }
}

/// Folds one event into the table: added to its campaign's totals, or a new
/// campaign at the end.
pub open spec fn upsert(t: Seq<Totals>, e: Event) -> Seq<Totals> {
    let i = index_of(t, e.campaign_id@);
    if i >= 0 {
        t.update(i, add_event(t[i], e))
    } else {
        t.push(seed(e))
    }
}

/// The table after a pass over `events`: one entry per campaign, in order of
/// first appearance.
pub open spec fn aggregate(events: Seq<Event>) -> Seq<Totals>
    decreases events.len(),
{
    if events.len() == 0 {
        Seq::empty()
    } else {
        upsert(aggregate(events.drop_last()), events.last())
    }
}

/// The sum of the counts of the events of campaign `id`.
pub open spec fn campaign_sum(events: Seq<Event>, id: Seq<char>) -> Totals
    decreases events.len(),
{
    if events.len() == 0 {
        Totals { id, impressions: 0, clicks: 0, spend: 0, conversions: 0 }
    } else if events.last().campaign_id@ == id {
        add_event(campaign_sum(events.drop_last(), id), events.last())
    } else {
        campaign_sum(events.drop_last(), id)
    }
}

pub open spec fn ids(t: Seq<Totals>) -> Seq<Seq<char>> {
    t.map_values(|a: Totals| a.id)
}

pub open spec fn event_ids(events: Seq<Event>) -> Seq<Seq<char>> {
    events.map_values(|e: Event| e.campaign_id@)
}

pub open spec fn view_all(c: Seq<CampaignAggregation>) -> Seq<Totals> {
    c.map_values(|a: CampaignAggregation| a@)
}

proof fn lemma_index_of(t: Seq<Totals>, id: Seq<char>)
    ensures
        -1 <= index_of(t, id) < t.len(),
        index_of(t, id) >= 0 ==> t[index_of(t, id)].id == id,
        index_of(t, id) == -1 ==> forall|j: int| 0 <= j < t.len() ==> t[j].id != id,
    decreases t.len(),
{
    if t.len() > 0 {
        lemma_index_of(t.drop_last(), id);
        assert forall|j: int| 0 <= j < t.len() - 1 implies t[j] == t.drop_last()[j] by {}
    }
}

proof fn lemma_index_of_unique(t: Seq<Totals>, id: Seq<char>, k: int)
    requires
        ids(t).no_duplicates(),
        0 <= k < t.len(),
        t[k].id == id,
    ensures
        index_of(t, id) == k,
{
    lemma_index_of(t, id);
    let i = index_of(t, id);
    if i != k {
        assert(ids(t)[i] == ids(t)[k]);
    }
}

/// The table after a pass keeps one entry per campaign, and each entry holds
/// the sums of its campaign's events.
proof fn lemma_aggregate(events: Seq<Event>)
    ensures
        ids(aggregate(events)).no_duplicates(),
        ids(aggregate(events)).to_set() == event_ids(events).to_set(),
        forall|k: int| 0 <= k < aggregate(events).len() ==>
            #[trigger] aggregate(events)[k] == campaign_sum(events, aggregate(events)[k].id),
    decreases events.len(),
{
    if events.len() > 0 {
        let prev = events.drop_last();
        let e = events.last();
        let t = aggregate(prev);
        lemma_aggregate(prev);
        lemma_index_of(t, e.campaign_id@);
        let i = index_of(t, e.campaign_id@);
        let u = aggregate(events);
        assert(event_ids(events) =~= event_ids(prev).push(e.campaign_id@));
        event_ids(prev).lemma_push_to_set_commute(e.campaign_id@);
        if i >= 0 {
            assert(ids(u) =~= ids(t));
            assert(ids(t)[i] == e.campaign_id@);
            assert(ids(t).to_set().contains(e.campaign_id@));
            assert(ids(u).to_set() =~= event_ids(events).to_set());
        } else {
            assert(ids(u) =~= ids(t).push(e.campaign_id@));
            ids(t).lemma_push_to_set_commute(e.campaign_id@);
            assert forall|j: int, l: int| 0 <= j < l < ids(u).len() implies ids(u)[j] != ids(u)[l] by {
                if l == t.len() {
                    assert(t[j].id != e.campaign_id@);
                }
            }
            assert(ids(u).to_set() =~= event_ids(events).to_set());
            assert(!event_ids(prev).to_set().contains(e.campaign_id@)) by {
                if event_ids(prev).to_set().contains(e.campaign_id@) {
                    assert(ids(t).to_set().contains(e.campaign_id@));
                    let j = choose|j: int| 0 <= j < ids(t).len() && ids(t)[j] == e.campaign_id@;
                    assert(t[j].id == e.campaign_id@);
                }
            }
            lemma_sum_absent(prev, e.campaign_id@);
        }
        assert forall|k: int| 0 <= k < u.len() implies #[trigger] u[k] == campaign_sum(events, u[k].id) by {
            if k < t.len() {
                assert(t[k] == campaign_sum(prev, t[k].id));
                if k != i {
                    assert(t[k].id != e.campaign_id@) by {
                        if i >= 0 {
                            assert(ids(t)[k] != ids(t)[i]);
                        }
                    }
                }
            }
        }
    }
}

proof fn lemma_sum_absent(events: Seq<Event>, id: Seq<char>)
    requires
        !event_ids(events).to_set().contains(id),
    ensures
        campaign_sum(events, id) == (Totals { id, impressions: 0, clicks: 0, spend: 0, conversions: 0 }),
    decreases events.len(),
{
    if events.len() > 0 {
        let prev = events.drop_last();
        assert(event_ids(events)[events.len() - 1] == events.last().campaign_id@);
        assert(event_ids(prev).to_set().subset_of(event_ids(events).to_set())) by {
            assert forall|x| event_ids(prev).to_set().contains(x) implies event_ids(events).to_set().contains(x) by {
                let j = choose|j: int| 0 <= j < event_ids(prev).len() && event_ids(prev)[j] == x;
                assert(event_ids(events)[j] == x);
            }
        }
        lemma_sum_absent(prev, id);
    }
}

/// `e` can be folded into `t` with every total still in `u64`.
pub open spec fn fits(t: Seq<Totals>, e: Event) -> bool {
    let i = index_of(t, e.campaign_id@);
    i >= 0 ==> {
        let s = add_event(t[i], e);
        &&& s.impressions <= u64::MAX
        &&& s.clicks <= u64::MAX
        &&& s.spend <= u64::MAX
        &&& s.conversions <= u64::MAX
    }
}

/// The per-campaign totals of the events seen so far, one entry per campaign
/// in order of first appearance, and the number of events seen.
///
/// The entries are kept in a `Vec` and a campaign is found by comparing
/// identifiers, so folding an event costs time linear in the number of
/// campaigns. A `HashMap` or `BTreeMap` keyed by `String` would be faster, but
/// vstd's specifications of those maps give nothing for `String` keys, so the
/// uniqueness and order of the entries could not be proved over one.
pub struct AggregationTable {
    campaigns: Vec<CampaignAggregation>,
    events_processed: u64,
    seen: Ghost<Seq<Event>>,
}

impl AggregationTable {
    /// The events folded in so far, in order.
    pub closed spec fn seen(&self) -> Seq<Event> {
        self.seen@
    }

    pub open spec fn view(&self) -> Seq<Totals> {
        aggregate(self.seen())
    }

    pub closed spec fn wf(&self) -> bool {
        &&& view_all(self.campaigns@) == aggregate(self.seen@)
        &&& self.events_processed as nat == self.seen@.len()
    }

    pub fn new() -> (r: AggregationTable)
        ensures
            r.wf(),
            r.seen() == Seq::<Event>::empty(),
    {
        let r = AggregationTable { campaigns: Vec::new(), events_processed: 0, seen: Ghost(Seq::empty()) };
        assert(view_all(r.campaigns@) =~= aggregate(Seq::<Event>::empty()));
        r
    }

    /// Position of campaign `id`, found by comparing identifiers.
    fn find(&self, id: &String) -> (r: Option<usize>)
        requires
            self.wf(),
        ensures
            r.is_none() == (index_of(self@, id@) == -1),
            r.is_some() ==> r.unwrap() as int == index_of(self@, id@),
            r.is_some() ==> r.unwrap() < self.campaigns@.len(),
    {
        proof {
            lemma_aggregate(self.seen@);
            lemma_index_of(self@, id@);
        }
        let mut k: usize = 0;
        while k < self.campaigns.len()
            invariant
                self.wf(),
                k <= self.campaigns@.len(),
                ids(self@).no_duplicates(),
                forall|j: int| 0 <= j < k ==> self@[j].id != id@,
            decreases self.campaigns@.len() - k,
        {
            assert(self@[k as int] == self.campaigns@[k as int]@);
            if self.campaigns[k].campaign_id == *id {
                proof {
                    lemma_index_of_unique(self@, id@, k as int);
                }
                return Some(k);
            }
            k = k + 1;
        }
        None
    }

    /// Whether `e` can be folded in with every total and the event count still
    /// in `u64`.
    pub fn can_record(&self, e: &Event) -> (r: bool)
        requires
            self.wf(),
        ensures
            r == (self.seen().len() < u64::MAX && fits(self@, *e)),
    {
        if self.events_processed == u64::MAX {
            return false;
        }
        match self.find(&e.campaign_id) {
            None => true,
            Some(k) => {
                let a = &self.campaigns[k];
                assert(self@[k as int] == a@);
                e.impressions <= u64::MAX - a.total_impressions
                    && e.clicks <= u64::MAX - a.total_clicks
                    && e.spend <= u64::MAX - a.total_spend
                    && e.conversions <= u64::MAX - a.total_conversions
            },
        }
    }

    /// Folds one event in: its counts are added to its campaign's totals, or
    /// the campaign is added with the event's counts.
    pub fn record(&mut self, e: Event)
        requires
            old(self).wf(),
            old(self).seen().len() < u64::MAX,
            fits(old(self)@, e),
        ensures
            final(self).wf(),
            final(self).seen() == old(self).seen().push(e),
            final(self)@ == upsert(old(self)@, e),
    {
        let ghost before = self.seen@;
        proof {
            let after = before.push(e);
            assert(after.drop_last() =~= before);
        }
        match self.find(&e.campaign_id) {
            Some(k) => {
                assert(self@[k as int] == self.campaigns@[k as int]@);
                let ghost old_campaigns = self.campaigns@;
                self.campaigns[k].add(&e);
                self.seen = Ghost(before.push(e));
                assert(view_all(self.campaigns@) =~= upsert(view_all(old_campaigns), e));
            },
            None => {
                let ghost old_campaigns = self.campaigns@;
                self.campaigns.push(CampaignAggregation::new(&e));
                self.seen = Ghost(before.push(e));
                assert(view_all(self.campaigns@) =~= upsert(view_all(old_campaigns), e));
            },
        }
        self.events_processed = self.events_processed + 1;
    }

    /// The number of events folded in so far.
    pub fn events_processed(&self) -> (r: u64)
        requires
            self.wf(),
        ensures
            r as nat == self.seen().len(),
    {
        self.events_processed
    }

    /// The number of distinct campaigns seen so far.
    pub fn len(&self) -> (r: usize)
        requires
            self.wf(),
        ensures
            r as nat == self@.len(),
    {
        self.campaigns.len()
    }

    /// The per-campaign totals, in order of first appearance.
    pub fn campaigns(&self) -> (r: &Vec<CampaignAggregation>)
        requires
            self.wf(),
        ensures
            view_all(r@) == self@,
    {
        &self.campaigns
    }

    /// Ends the pass and hands over the per-campaign totals.
    pub fn into_campaigns(self) -> (r: Vec<CampaignAggregation>)
        requires
            self.wf(),
        ensures
            view_all(r@) == self@,
    {
        self.campaigns
    }
}

/// After a pass, no campaign identifier stands twice in the table.
pub proof fn lemma_ids_distinct(events: Seq<Event>)
    ensures
        ids(aggregate(events)).no_duplicates(),
{
    lemma_aggregate(events);
}

/// Law: after a pass, the table holds exactly as many campaigns as there are
/// distinct campaign identifiers among the events.
pub proof fn lemma_one_entry_per_campaign(events: Seq<Event>)
    ensures
        aggregate(events).len() == event_ids(events).to_set().len(),
{
    lemma_aggregate(events);
    ids(aggregate(events)).unique_seq_to_set();
}

/// `t` with the counts of `e` added where `e` is an event of campaign `id`.
pub open spec fn add_if(t: Totals, e: Event, id: Seq<char>) -> Totals {
    if e.campaign_id@ == id { add_event(t, e) } else { t }
}

proof fn lemma_sum_remove(s: Seq<Event>, i: int, id: Seq<char>)
    requires
        0 <= i < s.len(),
    ensures
        campaign_sum(s, id) == add_if(campaign_sum(s.remove(i), id), s[i], id),
    decreases s.len(),
{
    if i == s.len() - 1 {
        assert(s.remove(i) =~= s.drop_last());
    } else {
        let p = s.drop_last();
        lemma_sum_remove(p, i, id);
        assert(s.remove(i).drop_last() =~= p.remove(i));
        assert(s.remove(i).last() == s.last());
    }
}

/// Law: the totals of a campaign do not depend on the order of the events:
/// any reordering of the same events gives the same sums.
pub proof fn lemma_sums_ignore_order(s1: Seq<Event>, s2: Seq<Event>, id: Seq<char>)
    requires
        s1.to_multiset() == s2.to_multiset(),
    ensures
        campaign_sum(s1, id) == campaign_sum(s2, id),
    decreases s1.len(),
{
    broadcast use vstd::seq_lib::group_to_multiset_ensures;

    if s1.len() == 0 {
        assert(s1.to_multiset().len() == s1.len());
        assert(s2.to_multiset().len() == s2.len());
    } else {
        let e = s1.last();
        let p1 = s1.drop_last();
        assert(s1 =~= p1.push(e));
        assert(s2.to_multiset().count(e) > 0);
        assert(s2.contains(e));
        let i = choose|i: int| 0 <= i < s2.len() && s2[i] == e;
        let p2 = s2.remove(i);
        assert(p1.to_multiset() =~= p2.to_multiset());
        lemma_sums_ignore_order(p1, p2, id);
        lemma_sum_remove(s2, i, id);
    }
}

/// Law: for every campaign of the events, its entry after a pass holds, field
/// by field, the sum of that field over the campaign's events.
pub proof fn lemma_totals_are_sums(events: Seq<Event>, id: Seq<char>)
    requires
        event_ids(events).to_set().contains(id),
    ensures
        0 <= index_of(aggregate(events), id),
        aggregate(events)[index_of(aggregate(events), id)] == campaign_sum(events, id),
{
    lemma_aggregate(events);
    let t = aggregate(events);
    assert(ids(t).to_set().contains(id));
    let k = choose|k: int| 0 <= k < ids(t).len() && ids(t)[k] == id;
    lemma_index_of_unique(t, id, k);
}

} // verus!
