use ad_performance_aggregator::aggregate::{AggregationTable, CampaignAggregation};
use ad_performance_aggregator::number::{parse_amount, parse_count};
use ad_performance_aggregator::pipeline::{ingest, ranked_report, IngestError};
use ad_performance_aggregator::rank::{top_by_cpa, top_by_ctr, Ranking};
use ad_performance_aggregator::record::{Column, Event, Layout, ParseError};
use ad_performance_aggregator::report::header_row;

fn strings(v: &[&str]) -> Vec<String> {
    v.iter().map(|s| s.to_string()).collect()
}

const HEADER: [&str; 6] = ["campaign_id", "date", "impressions", "clicks", "spend", "conversions"];

fn table_of(header: &[&str], rows: &[&[&str]]) -> Result<AggregationTable, IngestError> {
    let layout = Layout::from_header(&strings(header)).map_err(IngestError::Parse)?;
    let mut table = AggregationTable::new();
    for row in rows {
        ingest(&mut table, &layout, &strings(row))?;
    }
    Ok(table)
}

fn reports(rows: &[&[&str]]) -> (Vec<Vec<String>>, Vec<Vec<String>>) {
    let table = table_of(&HEADER, rows).unwrap();
    let campaigns = table.into_campaigns();
    (ranked_report(Ranking::ByCtr, &campaigns), ranked_report(Ranking::ByCpa, &campaigns))
}

fn header() -> Vec<String> {
    strings(&["campaign_id", "impressions", "clicks", "spend", "conversions", "ctr", "cpa"])
}

#[test]
fn single_row_reports() {
    let (ctr, cpa) = reports(&[&["camp1", "2024-01-01", "1000", "50", "25.00", "5"]]);
    let expected = vec![header(), strings(&["camp1", "1000", "50", "25.00", "5", "0.05", "5.00"])];
    assert_eq!(ctr, expected);
    assert_eq!(cpa, expected);
}

#[test]
fn two_rows_of_one_campaign_are_summed() {
    let row: &[&str] = &["camp1", "2024-01-01", "1000", "50", "25.00", "5"];
    let table = table_of(&HEADER, &[row, row]).unwrap();
    assert_eq!(table.len(), 1);
    assert_eq!(table.events_processed(), 2);
    let c = &table.campaigns()[0];
    assert_eq!(c.campaign_id, "camp1");
    assert_eq!(c.total_impressions, 2000);
    assert_eq!(c.total_clicks, 100);
    assert_eq!(c.total_spend, 50_000_000);
    assert_eq!(c.total_conversions, 10);
    assert_eq!(c.report_row(), strings(&["camp1", "2000", "100", "50.00", "10", "0.05", "5.00"]));
}

#[test]
fn campaign_without_activity_is_last_by_ctr_and_absent_by_cpa() {
    let (ctr, cpa) = reports(&[
        &["idle", "2024-01-01", "0", "0", "0", "0"],
        &["camp1", "2024-01-01", "1000", "50", "25.00", "5"],
    ]);
    assert_eq!(ctr.len(), 3);
    assert_eq!(ctr[1][0], "camp1");
    assert_eq!(ctr[2], strings(&["idle", "0", "0", "0.00", "0", "0.00", ""]));
    assert_eq!(cpa.len(), 2);
    assert_eq!(cpa[1][0], "camp1");
}

#[test]
fn more_than_ten_campaigns_keep_the_ten_best_by_ctr() {
    let ids: Vec<String> = (0..13).map(|i| format!("c{}", i)).collect();
    let clicks: Vec<String> = (0..13).map(|i| format!("{}", (i * 7) % 13 + 1)).collect();
    let rows: Vec<Vec<&str>> = (0..13)
        .map(|i| vec![ids[i].as_str(), "2024-01-01", "100", clicks[i].as_str(), "1.5", "1"])
        .collect();
    let row_refs: Vec<&[&str]> = rows.iter().map(|r| r.as_slice()).collect();
    let (ctr, _) = reports(&row_refs);
    assert_eq!(ctr.len(), 11);
    let got: Vec<u64> = ctr[1..].iter().map(|r| r[2].parse().unwrap()).collect();
    assert_eq!(got, vec![13, 12, 11, 10, 9, 8, 7, 6, 5, 4]);
    assert_eq!(ctr[1][5], "0.13");
}

#[test]
fn non_numeric_impressions_abort_the_run() {
    let r = table_of(&HEADER, &[&["camp1", "2024-01-01", "abc", "50", "25.00", "5"]]);
    assert!(matches!(r, Err(IngestError::Parse(ParseError::InvalidNumber(Column::Impressions)))));
}

#[test]
fn header_columns_in_any_order() {
    let header = ["spend", "clicks", "conversions", "campaign_id", "impressions", "date"];
    let table = table_of(&header, &[&["3.5", "2", "1", "x", "40", "d"]]).unwrap();
    let c = &table.campaigns()[0];
    assert_eq!(c.campaign_id, "x");
    assert_eq!(c.total_impressions, 40);
    assert_eq!(c.total_clicks, 2);
    assert_eq!(c.total_spend, 3_500_000);
    assert_eq!(c.total_conversions, 1);
}

#[test]
fn missing_column_is_reported() {
    let header = strings(&["campaign_id", "date", "impressions", "clicks", "cost", "conversions"]);
    assert_eq!(Layout::from_header(&header), Err(ParseError::MissingColumn(Column::Spend)));
}

#[test]
fn short_row_is_reported() {
    let r = table_of(&HEADER, &[&["camp1", "2024-01-01", "10"]]);
    assert!(matches!(r, Err(IngestError::Parse(ParseError::MissingField(Column::Clicks)))));
}

#[test]
fn failed_row_leaves_table_unchanged() {
    let layout = Layout::from_header(&strings(&HEADER)).unwrap();
    let mut table = AggregationTable::new();
    ingest(&mut table, &layout, &strings(&["a", "d", "1", "1", "1", "1"])).unwrap();
    let r = ingest(&mut table, &layout, &strings(&["a", "d", "1", "-1", "1", "1"]));
    assert_eq!(r, Err(IngestError::Parse(ParseError::InvalidNumber(Column::Clicks))));
    assert_eq!(table.events_processed(), 1);
    assert_eq!(table.campaigns()[0].total_clicks, 1);
}

#[test]
fn overflowing_total_is_refused() {
    let layout = Layout::from_header(&strings(&HEADER)).unwrap();
    let mut table = AggregationTable::new();
    let big = u64::MAX.to_string();
    ingest(&mut table, &layout, &strings(&["a", "d", &big, "0", "0", "0"])).unwrap();
    let r = ingest(&mut table, &layout, &strings(&["a", "d", "1", "0", "0", "0"]));
    assert_eq!(r, Err(IngestError::Overflow));
    assert_eq!(table.campaigns()[0].total_impressions, u64::MAX);
}

#[test]
fn counts_parse_as_decimal_digits() {
    assert_eq!(parse_count("0"), Some(0));
    assert_eq!(parse_count("1234"), Some(1234));
    assert_eq!(parse_count("18446744073709551615"), Some(u64::MAX));
    assert_eq!(parse_count("18446744073709551616"), None);
    assert_eq!(parse_count(""), None);
    assert_eq!(parse_count("-1"), None);
    assert_eq!(parse_count("1.5"), None);
    assert_eq!(parse_count("abc"), None);
}

#[test]
fn amounts_parse_as_millionths() {
    assert_eq!(parse_amount("25.00"), Some(25_000_000));
    assert_eq!(parse_amount("25"), Some(25_000_000));
    assert_eq!(parse_amount(".5"), Some(500_000));
    assert_eq!(parse_amount("3."), Some(3_000_000));
    assert_eq!(parse_amount("0.000001"), Some(1));
    assert_eq!(parse_amount("0.0000001"), Some(0));
    assert_eq!(parse_amount("0.0000005"), Some(1));
    assert_eq!(parse_amount("0.1234567"), Some(123_457));
    assert_eq!(parse_amount("0.12345649999"), Some(123_456));
    assert_eq!(parse_amount("1.99999995"), Some(2_000_000));
    assert_eq!(parse_amount("0.1234567x"), None);
    assert_eq!(parse_amount("18446744073709.5516154"), Some(u64::MAX));
    assert_eq!(parse_amount("18446744073709.5516155"), None);
    assert_eq!(parse_amount("."), None);
    assert_eq!(parse_amount(""), None);
    assert_eq!(parse_amount("1.2.3"), None);
    assert_eq!(parse_amount("-2.5"), None);
    assert_eq!(parse_amount("1e3"), None);
    assert_eq!(parse_amount("18446744073709.551615"), Some(u64::MAX));
    assert_eq!(parse_amount("18446744073709.551616"), None);
}

#[test]
fn distinct_campaigns_are_counted_once() {
    let table = table_of(
        &HEADER,
        &[
            &["a", "d", "1", "0", "0", "0"],
            &["b", "d", "1", "0", "0", "0"],
            &["a", "d", "1", "0", "0", "0"],
            &["c", "d", "1", "0", "0", "0"],
            &["b", "d", "1", "0", "0", "0"],
        ],
    )
    .unwrap();
    assert_eq!(table.len(), 3);
    assert_eq!(table.events_processed(), 5);
    let ids: Vec<&str> = table.campaigns().iter().map(|c| c.campaign_id.as_str()).collect();
    assert_eq!(ids, vec!["a", "b", "c"]);
}

#[test]
fn totals_do_not_depend_on_row_order() {
    let r1: &[&str] = &["a", "d", "10", "3", "1.25", "1"];
    let r2: &[&str] = &["a", "d", "5", "1", "0.75", "2"];
    let r3: &[&str] = &["b", "d", "7", "7", "7", "7"];
    let t1 = table_of(&HEADER, &[r1, r2, r3]).unwrap();
    let t2 = table_of(&HEADER, &[r3, r2, r1]).unwrap();
    let a1 = t1.campaigns().iter().find(|c| c.campaign_id == "a").unwrap();
    let a2 = t2.campaigns().iter().find(|c| c.campaign_id == "a").unwrap();
    assert_eq!(a1.report_row(), a2.report_row());
    assert_eq!(a1.report_row(), strings(&["a", "15", "4", "2.00", "3", "0.266667", "0.666667"]));
}

#[test]
fn ctr_ranking_is_sorted_and_distinct() {
    let table = table_of(
        &HEADER,
        &[
            &["low", "d", "100", "1", "1", "1"],
            &["none", "d", "0", "0", "1", "1"],
            &["high", "d", "100", "9", "1", "1"],
            &["mid", "d", "100", "5", "1", "1"],
            &["mid2", "d", "200", "10", "1", "1"],
        ],
    )
    .unwrap();
    let picks = top_by_ctr(table.campaigns());
    assert_eq!(picks, vec![2, 3, 4, 0, 1]);
}

#[test]
fn cpa_ranking_leaves_out_campaigns_without_conversions() {
    let table = table_of(
        &HEADER,
        &[
            &["dear", "d", "10", "1", "100", "2"],
            &["free", "d", "10", "1", "100", "0"],
            &["cheap", "d", "10", "1", "10", "5"],
            &["mid", "d", "10", "1", "30", "3"],
        ],
    )
    .unwrap();
    let picks = top_by_cpa(table.campaigns());
    assert_eq!(picks, vec![2, 3, 0]);
    let (_, cpa) = reports(&[&["free", "d", "10", "1", "100", "0"]]);
    assert_eq!(cpa, vec![header()]);
}

#[test]
fn running_twice_gives_identical_reports() {
    let rows: &[&[&str]] = &[
        &["a", "d", "10", "3", "1.25", "1"],
        &["b", "d", "10", "3", "2.5", "1"],
        &["c", "d", "0", "0", "0", "0"],
    ];
    assert_eq!(reports(rows), reports(rows));
}

#[test]
fn header_row_names_the_columns() {
    assert_eq!(header_row(), header());
}

#[test]
fn rates_round_half_up_to_six_digits() {
    let (ctr, cpa) = reports(&[&["a", "d", "3", "2", "2", "3"]]);
    assert_eq!(ctr[1], strings(&["a", "3", "2", "2.00", "3", "0.666667", "0.666667"]));
    assert_eq!(cpa[1][6], "0.666667");
    let (ctr, _) = reports(&[&["b", "d", "8", "1", "0.125", "0"]]);
    assert_eq!(ctr[1], strings(&["b", "8", "1", "0.125", "0", "0.125", ""]));
}

#[test]
fn parsed_event_holds_the_row() {
    let layout = Layout::from_header(&strings(&HEADER)).unwrap();
    let e = Event::parse_record(&layout, &strings(&["z", "d", "7", "3", "0.5", "2"])).unwrap();
    assert_eq!(e.campaign_id, "z");
    assert_eq!((e.impressions, e.clicks, e.spend, e.conversions), (7, 3, 500_000, 2));
}

fn event(id: &str, impressions: u64, clicks: u64, spend: u64, conversions: u64) -> Event {
    Event { campaign_id: id.to_string(), impressions, clicks, spend, conversions }
}

#[test]
fn metrics_are_undefined_without_a_denominator() {
    let a = CampaignAggregation::new(&event("q", 0, 0, 5_000_000, 0));
    assert_eq!(a.ctr(), None);
    assert_eq!(a.cpa(), None);
}

#[test]
fn metrics_are_exact_ratios_in_millionths() {
    let mut a = CampaignAggregation::new(&event("q", 1000, 50, 25_000_000, 5));
    assert_eq!(a.ctr(), Some(50_000));
    assert_eq!(a.cpa(), Some(5_000_000));
    a.add(&event("q", 2000, 1, 1, 1));
    assert_eq!(a.total_impressions, 3000);
    assert_eq!(a.total_clicks, 51);
    assert_eq!(a.total_spend, 25_000_001);
    assert_eq!(a.total_conversions, 6);
    assert_eq!(a.ctr(), Some(17_000));
    assert_eq!(a.cpa(), Some(4_166_667));
}

#[test]
fn spend_with_many_decimals_is_rounded_not_refused() {
    let (ctr, _) = reports(&[&["camp1", "2024-01-01", "10", "1", "0.1234567", "1"]]);
    assert_eq!(ctr[1], strings(&["camp1", "10", "1", "0.123457", "1", "0.10", "0.123457"]));
}
