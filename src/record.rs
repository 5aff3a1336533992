use vstd::prelude::*;
use crate::number::{parse_amount, parse_count, is_count_text, is_amount_text, digits_value, amount_value};

verus! {

broadcast use vstd::string::group_string_axioms;

/// The columns that an input file must declare in its header.
#[derive(Clone, Copy, Debug, PartialEq, Eq, Structural)]
pub enum Column {
    CampaignId,
    Date,
    Impressions,
    Clicks,
    Spend,
    Conversions,
}

/// Why an input row could not be read as an event.
#[derive(Clone, Copy, Debug, PartialEq, Eq, Structural)]
pub enum ParseError {
    /// The header does not name this column.
    MissingColumn(Column),
    /// The row has no field at this column's position.
    MissingField(Column),
    /// This column's field is not a number of the required kind.
    InvalidNumber(Column),
}

/// One input row: a campaign and the counts it reports.
/// `spend` is in millionths of a currency unit.
#[derive(Debug)]
pub struct Event {
    pub campaign_id: String,
    pub impressions: u64,
    pub clicks: u64,
    pub spend: u64,
    pub conversions: u64,
}

/// Where each required column stands in the rows of one input file.
#[derive(Clone, Copy, Debug, PartialEq, Eq, Structural)]
pub struct Layout {
    pub campaign_id: usize,
    pub date: usize,
    pub impressions: usize,
    pub clicks: usize,
    pub spend: usize,
    pub conversions: usize,
}

pub open spec fn column_name(c: Column) -> Seq<char> {
    match c {
        Column::CampaignId => "campaign_id"@,
        Column::Date => "date"@,
        Column::Impressions => "impressions"@,
        Column::Clicks => "clicks"@,
        Column::Spend => "spend"@,
        Column::Conversions => "conversions"@,
    }
}

pub open spec fn names(header: Seq<String>, i: int, name: Seq<char>) -> bool {
    0 <= i < header.len() && header[i]@ == name
}

/// `i` is the first position of the header that holds `name`.
pub open spec fn first_position(header: Seq<String>, name: Seq<char>, i: int) -> bool {
    names(header, i, name) && forall|j: int| 0 <= j < i ==> !names(header, j, name)
}

pub open spec fn declares(header: Seq<String>, name: Seq<char>) -> bool {
    exists|i: int| names(header, i, name)
}

pub open spec fn column_index(l: Layout, c: Column) -> usize {
    match c {
        Column::CampaignId => l.campaign_id,
        Column::Date => l.date,
        Column::Impressions => l.impressions,
        Column::Clicks => l.clicks,
        Column::Spend => l.spend,
        Column::Conversions => l.conversions,
    }
}

pub open spec fn declares_all(header: Seq<String>) -> bool {
    forall|c: Column| declares(header, #[trigger] column_name(c))
}

/// The first column, in the order of the enum, that the header does not declare.
pub open spec fn first_missing(header: Seq<String>) -> Column {
    if !declares(header, column_name(Column::CampaignId)) {
        Column::CampaignId
    } else if !declares(header, column_name(Column::Date)) {
        Column::Date
    } else if !declares(header, column_name(Column::Impressions)) {
        Column::Impressions
    } else if !declares(header, column_name(Column::Clicks)) {
        Column::Clicks
    } else if !declares(header, column_name(Column::Spend)) {
        Column::Spend
    } else {
        Column::Conversions
    }
}

fn column_text(c: Column) -> (r: String)
    ensures
        r@ == column_name(c),
{
    match c {
        Column::CampaignId => String::from_str("campaign_id"),
        Column::Date => String::from_str("date"),
        Column::Impressions => String::from_str("impressions"),
        Column::Clicks => String::from_str("clicks"),
        Column::Spend => String::from_str("spend"),
        Column::Conversions => String::from_str("conversions"),
    }
}

fn find_column(header: &Vec<String>, c: Column) -> (r: Option<usize>)
    ensures
        r.is_some() == declares(header@, column_name(c)),
        r.is_some() ==> first_position(header@, column_name(c), r.unwrap() as int),
{
    let name = column_text(c);
    let mut i: usize = 0;
    while i < header.len()
        invariant
            i <= header@.len(),
            name@ == column_name(c),
            forall|j: int| 0 <= j < i ==> !names(header@, j, column_name(c)),
        decreases header@.len() - i,
    {
        if header[i] == name {
            assert(names(header@, i as int, column_name(c)));
            return Some(i);
        }
        i = i + 1;
    }
    None
}

impl Layout {
    /// Finds each required column in a header row. Columns may come in any order;
    /// others are ignored.
    pub fn from_header(header: &Vec<String>) -> (r: Result<Layout, ParseError>)
        ensures
            r.is_ok() == declares_all(header@),
            r.is_ok() ==> forall|c: Column|
                first_position(header@, column_name(c), #[trigger] column_index(r.unwrap(), c) as int),
            r.is_err() ==> r == Err::<Layout, ParseError>(ParseError::MissingColumn(first_missing(header@))),
    {
        let campaign_id = match find_column(header, Column::CampaignId) {
            Some(i) => i,
            None => { return Err(ParseError::MissingColumn(Column::CampaignId)); },
        };
        let date = match find_column(header, Column::Date) {
            Some(i) => i,
            None => { return Err(ParseError::MissingColumn(Column::Date)); },
        };
        let impressions = match find_column(header, Column::Impressions) {
            Some(i) => i,
            None => { return Err(ParseError::MissingColumn(Column::Impressions)); },
        };
        let clicks = match find_column(header, Column::Clicks) {
            Some(i) => i,
            None => { return Err(ParseError::MissingColumn(Column::Clicks)); },
        };
        let spend = match find_column(header, Column::Spend) {
            Some(i) => i,
            None => { return Err(ParseError::MissingColumn(Column::Spend)); },
        };
        let conversions = match find_column(header, Column::Conversions) {
            Some(i) => i,
            None => { return Err(ParseError::MissingColumn(Column::Conversions)); },
        };
        let l = Layout { campaign_id, date, impressions, clicks, spend, conversions };
        proof {
            assert forall|c: Column| declares(header@, #[trigger] column_name(c)) by {
                match c {
                    Column::CampaignId => {},
                    Column::Date => {},
                    Column::Impressions => {},
                    Column::Clicks => {},
                    Column::Spend => {},
                    Column::Conversions => {},
                }
            }
        }
        Ok(l)
    }
}

pub open spec fn field_missing(fields: Seq<String>, l: Layout, c: Column) -> bool {
    column_index(l, c) >= fields.len()
}

pub open spec fn field_text(fields: Seq<String>, l: Layout, c: Column) -> Seq<char> {
    fields[column_index(l, c) as int]@
}

/// The error, if any, of a count column of a row.
pub open spec fn count_error(fields: Seq<String>, l: Layout, c: Column) -> Option<ParseError> {
    if field_missing(fields, l, c) {
        Some(ParseError::MissingField(c))
    } else if !is_count_text(field_text(fields, l, c)) {
        Some(ParseError::InvalidNumber(c))
    } else {
        None
    }
}

/// The error, if any, of the spend column of a row.
pub open spec fn amount_error(fields: Seq<String>, l: Layout) -> Option<ParseError> {
    if field_missing(fields, l, Column::Spend) {
        Some(ParseError::MissingField(Column::Spend))
    } else if !is_amount_text(field_text(fields, l, Column::Spend)) {
        Some(ParseError::InvalidNumber(Column::Spend))
    } else {
        None
    }
}

/// The first error of a row, its columns taken in the order of the enum.
pub open spec fn row_error(fields: Seq<String>, l: Layout) -> Option<ParseError> {
    if field_missing(fields, l, Column::CampaignId) {
        Some(ParseError::MissingField(Column::CampaignId))
    } else if field_missing(fields, l, Column::Date) {
        Some(ParseError::MissingField(Column::Date))
    } else if count_error(fields, l, Column::Impressions).is_some() {
        count_error(fields, l, Column::Impressions)
    } else if count_error(fields, l, Column::Clicks).is_some() {
        count_error(fields, l, Column::Clicks)
    } else if amount_error(fields, l).is_some() {
        amount_error(fields, l)
    } else {
        count_error(fields, l, Column::Conversions)
    }
}

fn read_count(fields: &Vec<String>, l: &Layout, c: Column, i: usize) -> (r: Result<u64, ParseError>)
    requires
        i == column_index(*l, c),
    ensures
        r.is_err() == count_error(fields@, *l, c).is_some(),
        r.is_err() ==> r == Err::<u64, ParseError>(count_error(fields@, *l, c).unwrap()),
        r.is_ok() ==> r.unwrap() as nat == digits_value(field_text(fields@, *l, c)),
{
    if i >= fields.len() {
        return Err(ParseError::MissingField(c));
    }
    match parse_count(fields[i].as_str()) {
        Some(v) => Ok(v),
        None => Err(ParseError::InvalidNumber(c)),
    }
}

impl Event {
    /// The event that a row without errors holds.
    pub open spec fn parsed(fields: Seq<String>, l: Layout) -> Event {
        Event {
            campaign_id: fields[l.campaign_id as int],
            impressions: digits_value(field_text(fields, l, Column::Impressions)) as u64,
            clicks: digits_value(field_text(fields, l, Column::Clicks)) as u64,
            spend: amount_value(field_text(fields, l, Column::Spend)) as u64,
            conversions: digits_value(field_text(fields, l, Column::Conversions)) as u64,
        }
    }

    /// Reads one data row of an input file laid out as `l` says.
    pub fn parse_record(l: &Layout, fields: &Vec<String>) -> (r: Result<Event, ParseError>)
        ensures
            r.is_err() == row_error(fields@, *l).is_some(),
            r.is_err() ==> r == Err::<Event, ParseError>(row_error(fields@, *l).unwrap()),
            r.is_ok() ==> r.unwrap() == Event::parsed(fields@, *l),
            r.is_ok() ==> {
                let e = r.unwrap();
                &&& e.campaign_id@ == field_text(fields@, *l, Column::CampaignId)
                &&& e.impressions as nat == digits_value(field_text(fields@, *l, Column::Impressions))
                &&& e.clicks as nat == digits_value(field_text(fields@, *l, Column::Clicks))
                &&& e.spend as nat == amount_value(field_text(fields@, *l, Column::Spend))
                &&& e.conversions as nat == digits_value(field_text(fields@, *l, Column::Conversions))
            },
    {
        if l.campaign_id >= fields.len() {
            return Err(ParseError::MissingField(Column::CampaignId));
        }
        if l.date >= fields.len() {
            return Err(ParseError::MissingField(Column::Date));
        }
        let impressions = read_count(fields, l, Column::Impressions, l.impressions)?;
        let clicks = read_count(fields, l, Column::Clicks, l.clicks)?;
        if l.spend >= fields.len() {
            return Err(ParseError::MissingField(Column::Spend));
        }
        let spend = match parse_amount(fields[l.spend].as_str()) {
            Some(v) => v,
            None => { return Err(ParseError::InvalidNumber(Column::Spend)); },
        };
        let conversions = read_count(fields, l, Column::Conversions, l.conversions)?;
        Ok(Event { campaign_id: fields[l.campaign_id].clone(), impressions, clicks, spend, conversions })
    }
}

} // verus!
