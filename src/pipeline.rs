use vstd::prelude::*;
use crate::aggregate::{AggregationTable, CampaignAggregation, Totals, fits, upsert, view_all};
use crate::rank::{Ranking, is_top, lemma_top_unique, select_top};
use crate::record::{Event, Layout, ParseError, row_error};
use crate::report::{header_row, report_header, report_row, report_rows, texts};

verus! {

/// Why a row could not be folded into the table.
#[derive(Clone, Copy, Debug, PartialEq, Eq, Structural)]
pub enum IngestError {
    /// The row is not a valid event.
    Parse(ParseError),
    /// A campaign total, or the count of events, would pass `u64::MAX`.
    Overflow,
}

/// Reads one data row and folds its event into the table. On an error the
/// table is left as it was.
pub fn ingest(table: &mut AggregationTable, l: &Layout, fields: &Vec<String>) -> (r: Result<(), IngestError>)
    requires
        old(table).wf(),
    ensures
        final(table).wf(),
        row_error(fields@, *l) is Some ==> r == Err::<(), IngestError>(
            IngestError::Parse(row_error(fields@, *l).unwrap()),
        ) && final(table).seen() == old(table).seen(),
        row_error(fields@, *l) is None ==> {
            let e = Event::parsed(fields@, *l);
            if old(table).seen().len() < u64::MAX && fits(old(table)@, e) {
                &&& r is Ok
                &&& final(table).seen() == old(table).seen().push(e)
                &&& final(table)@ == upsert(old(table)@, e)
            } else {
                &&& r == Err::<(), IngestError>(IngestError::Overflow)
                &&& final(table).seen() == old(table).seen()
            }
        },
{
    let e = match Event::parse_record(l, fields) {
        Ok(e) => e,
        Err(err) => { return Err(IngestError::Parse(err)); },
    };
    if !table.can_record(&e) {
        return Err(IngestError::Overflow);
    }
    table.record(e);
    Ok(())
}

/// The text of a report: the header, then the row of each listed campaign.
pub open spec fn report_of(c: Seq<Totals>, picks: Seq<usize>) -> Seq<Seq<Seq<char>>> {
    seq![report_header()] + picks.map_values(|i: usize| report_row(c[i as int]))
}

pub open spec fn report_texts(rows: Seq<Vec<String>>) -> Seq<Seq<Seq<char>>> {
    rows.map_values(|row: Vec<String>| texts(row@))
}

/// Law: a report is determined by the campaigns alone; every two reports of
/// one ranking over the same campaigns are equal, text for text.
pub proof fn lemma_report_determined(
    kind: Ranking,
    c: Seq<Totals>,
    p1: Seq<usize>,
    p2: Seq<usize>,
)
    requires
        is_top(kind, c, p1),
        is_top(kind, c, p2),
    ensures
        report_of(c, p1) == report_of(c, p2),
{
    lemma_top_unique(kind, c, p1, p2);
}

/// The rows of a report file: the header, then one row for each campaign of
/// the top of the ranking, best first.
pub fn ranked_report(kind: Ranking, campaigns: &Vec<CampaignAggregation>) -> (r: Vec<Vec<String>>)
    ensures
        exists|picks: Seq<usize>|
            is_top(kind, view_all(campaigns@), picks) && report_texts(r@) == report_of(
                view_all(campaigns@),
                picks,
            ),
{
    let picks = select_top(kind, campaigns);
    let mut rows = report_rows(campaigns, &picks);
    let mut out: Vec<Vec<String>> = Vec::new();
    out.push(header_row());
    let ghost built = rows@;
    out.append(&mut rows);
    assert forall|k: int| 0 <= k < picks@.len() implies texts(#[trigger] out@[k + 1]@) == report_row(
        view_all(campaigns@)[picks@[k] as int],
    ) by {
        assert(out@[k + 1] == built[k]);
    }
    assert(report_texts(out@) =~= report_of(view_all(campaigns@), picks@));
    out
}

} // verus!
