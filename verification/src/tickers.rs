//! The list of traded tickers, read from the exchange's screener table.

use vstd::prelude::*;

verus! {

#[verifier::external_type_specification]
#[verifier::external_body]
pub struct ExCsvError(csv::Error);

/// The records of CSV data as `csv::Reader::from_reader(..).records()` yields
/// them: the header row is skipped, every record has as many fields as the
/// first row, and each field is decoded as UTF-8. `None` when the data is
/// not such CSV.
pub uninterp spec fn csv_records(data: Seq<u8>) -> Option<Seq<Seq<Seq<char>>>>;

/// Parses CSV data with the `csv` crate's default reader
/// (`csv::Reader::from_reader`, then `records`), collecting every record's
/// fields. What the records are is left to the name `csv_records`; the
/// contract claims that the call depends on the bytes alone and that an error
/// comes exactly when the name gives `None`.
#[verifier::external_body]
pub(crate) fn read_csv_records(data: &[u8]) -> (r: Result<Vec<Vec<String>>, csv::Error>)
    ensures
        match r {
            Ok(rows) => csv_records(data@) == Some(rows.deep_view()),
            Err(_) => csv_records(data@) is None,
        },
{
    let mut reader = csv::Reader::from_reader(data);
    reader.records().map(|record| record.map(|fields| fields.iter().map(String::from).collect())).collect()
}

/// Why a ticker list could not be read.
#[derive(Debug)]
pub enum TickerListError {
    /// The data is not CSV that the reader accepts.
    Csv(csv::Error),
    /// A record has no field, so it names no ticker.
    EmptyRecord,
}

/// The first field of each record, in order.
pub open spec fn first_fields(records: Seq<Seq<Seq<char>>>) -> Seq<Seq<char>> {
    records.map_values(|r: Seq<Seq<char>>| r[0])
}

/// Every record has a field.
pub open spec fn all_records_nonempty(records: Seq<Seq<Seq<char>>>) -> bool {
    forall|i: int| 0 <= i < records.len() ==> #[trigger] records[i].len() > 0
}

/// The strings of `s`, each once, in the order of their first occurrence.
pub open spec fn distinct_in_order(s: Seq<Seq<char>>) -> Seq<Seq<char>>
    decreases s.len(),
{
    if s.len() == 0 {
        Seq::empty()
    } else {
        let rest = distinct_in_order(s.drop_last());
        if rest.contains(s.last()) {
            rest
        } else {
            rest.push(s.last())
        }
    }
}

/// The distinct strings of `s` are those of `s`, each once.
pub proof fn lemma_distinct_in_order(s: Seq<Seq<char>>)
    ensures
        distinct_in_order(s).no_duplicates(),
        forall|x: Seq<char>| distinct_in_order(s).contains(x) <==> s.contains(x),
    decreases s.len(),
{
    if s.len() > 0 {
        let prefix = s.drop_last();
        lemma_distinct_in_order(prefix);
        let rest = distinct_in_order(prefix);
        assert forall|x: Seq<char>| distinct_in_order(s).contains(x) <==> s.contains(x) by {
            if s.contains(x) {
                let k = choose|k: int| 0 <= k < s.len() && s[k] == x;
                if k < s.len() - 1 {
                    assert(prefix[k] == x);
                    assert(prefix.contains(x));
                    let q = choose|q: int| 0 <= q < rest.len() && rest[q] == x;
                    if !rest.contains(s.last()) {
                        assert(rest.push(s.last())[q] == x);
                    }
                } else if !rest.contains(s.last()) {
                    assert(rest.push(s.last())[rest.len() as int] == x);
                }
            }
            if distinct_in_order(s).contains(x) {
                if rest.contains(x) {
                    assert(prefix.contains(x));
                    let k = choose|k: int| 0 <= k < prefix.len() && prefix[k] == x;
                    assert(s[k] == x);
                } else {
                    let q = choose|q: int|
                        0 <= q < distinct_in_order(s).len() && distinct_in_order(s)[q] == x;
                    if q < rest.len() {
                        assert(rest[q] == x);
                    }
                    assert(s[s.len() - 1] == x);
                }
            }
        }
    }
}

/// The distinct first fields of the records, in the order of their first occurrence.
pub fn tickers_from_records(records: &Vec<Vec<String>>) -> (tickers: Vec<String>)
    requires
        all_records_nonempty(records.deep_view()),
    ensures
        tickers.deep_view() == distinct_in_order(first_fields(records.deep_view())),
{
    let ghost firsts = first_fields(records.deep_view());
    let mut tickers: Vec<String> = Vec::new();
    let mut i: usize = 0;
    while i < records.len()
        invariant
            i <= records.len(),
            firsts == first_fields(records.deep_view()),
            all_records_nonempty(records.deep_view()),
            tickers.deep_view() == distinct_in_order(firsts.take(i as int)),
        decreases records.len() - i,
    {
        assert(records.deep_view()[i as int].len() > 0);
        assert(records@[i as int].len() > 0);
        let first = &records[i][0];
        proof {
            assert(firsts.take(i + 1).drop_last() =~= firsts.take(i as int));
            assert(firsts[i as int] == first@);
        }
        if !crate::metrics::contains_string(&tickers, first) {
            tickers.push(first.clone());
            assert(tickers.deep_view() =~= distinct_in_order(firsts.take(i + 1)));
        }
        i = i + 1;
    }
    assert(firsts.take(records.len() as int) =~= firsts);
    tickers
}

/// The traded tickers listed in the screener table `data` (CSV with a header
/// row): the distinct first fields of its records. The data must parse, and
/// every record must have a field.
pub fn get_tickers_nasdaq(data: &[u8]) -> (tickers: Vec<String>)
    requires
        csv_records(data@) is Some,
        all_records_nonempty(csv_records(data@)->0),
    ensures
        tickers.deep_view() == distinct_in_order(first_fields(csv_records(data@)->0)),
{
    match read_csv_records(data) {
        Ok(records) => tickers_from_records(&records),
        Err(_) => {
            assert(false);
            Vec::new()
        },
    }
}

/// The traded tickers of the screener table `data`, or why they cannot be
/// read: the data does not parse, or one of its records has no field.
pub fn try_get_tickers_nasdaq(data: &[u8]) -> (r: Result<Vec<String>, TickerListError>)
    ensures
        match r {
            Ok(tickers) => csv_records(data@) matches Some(rows) && all_records_nonempty(rows)
                && tickers.deep_view() == distinct_in_order(first_fields(rows)),
            Err(TickerListError::Csv(_)) => csv_records(data@) is None,
            Err(TickerListError::EmptyRecord) => csv_records(data@) matches Some(rows)
                && !all_records_nonempty(rows),
        },
{
    match read_csv_records(data) {
        Err(e) => Err(TickerListError::Csv(e)),
        Ok(records) => {
            if records_nonempty(&records) {
                Ok(get_tickers_nasdaq(data))
            } else {
                Err(TickerListError::EmptyRecord)
            }
        },
    }
}

/// Whether every record has a field.
pub fn records_nonempty(records: &Vec<Vec<String>>) -> (r: bool)
    ensures
        r == all_records_nonempty(records.deep_view()),
{
    let mut i: usize = 0;
    while i < records.len()
        invariant
            i <= records.len(),
            forall|j: int| 0 <= j < i ==> #[trigger] records.deep_view()[j].len() > 0,
        decreases records.len() - i,
    {
        if records[i].len() == 0 {
            assert(records.deep_view()[i as int].len() == 0);
            return false;
        }
        assert(records.deep_view()[i as int].len() > 0);
        i = i + 1;
    }
    true
}

/// The first field of each record, one per record, in record order.
pub proof fn lemma_first_fields(records: Seq<Seq<Seq<char>>>)
    ensures
        first_fields(records).len() == records.len(),
        forall|i: int| 0 <= i < records.len() ==> #[trigger] first_fields(records)[i] == records[i][0],
{
}

/// A list without repetitions is its own list of distinct strings, in the
/// same order.
pub proof fn lemma_distinct_in_order_of_distinct(s: Seq<Seq<char>>)
    requires
        s.no_duplicates(),
    ensures
        distinct_in_order(s) == s,
    decreases s.len(),
{
    if s.len() > 0 {
        let prefix = s.drop_last();
        assert(prefix.no_duplicates());
        lemma_distinct_in_order_of_distinct(prefix);
        assert(!prefix.contains(s.last())) by {
            if prefix.contains(s.last()) {
                let k = choose|k: int| 0 <= k < prefix.len() && prefix[k] == s.last();
                assert(s[k] == s[s.len() - 1]);
            }
        }
        assert(prefix.push(s.last()) =~= s);
    }
}

} // verus!
