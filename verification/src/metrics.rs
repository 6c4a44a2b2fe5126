//! Titles, ticker meta data and the per-ticker metrics derived from them.

use vstd::prelude::*;
use crate::text::{clean_chars, clean_title_text};
use self::nlp::Polarity;
use crate::permutation::{count_in, lemma_additive_ignores_order, lemma_count_in_concat, lemma_count_in_multiset};

pub mod nlp;

verus! {

/// A post title together with the tickers it mentions and its sentiment.
///
/// `sentiment` is `0` until the title has been classified, then `1` for a
/// positive and `-1` for a negative title.
pub struct Title {
    pub title: String,
    pub tickers: Vec<String>,
    pub sentiment: i8,
}

impl Title {
    /// Builds a title from raw text, dropping every character that is not
    /// ASCII or that is ASCII punctuation.
    pub fn new(title: &str) -> (t: Title)
        ensures
            t.title@ == clean_chars(title@),
            t.tickers@.len() == 0,
            t.sentiment == 0,
    {
        Title { title: clean_title_text(title), tickers: Vec::new(), sentiment: 0 }
    }
}

/// The candidates that are in the list of available tickers, in candidate order.
pub open spec fn available_only(candidates: Seq<Seq<char>>, available: Seq<Seq<char>>) -> Seq<Seq<char>>
    decreases candidates.len(),
{
    if candidates.len() == 0 {
        Seq::empty()
    } else {
        let rest = available_only(candidates.drop_last(), available);
        if available.contains(candidates.last()) {
            rest.push(candidates.last())
        } else {
            rest
        }
    }
}

/// The sentiment score of a polarity.
pub open spec fn polarity_score(p: Polarity) -> i8 {
    match p {
        Polarity::Positive => 1i8,
        Polarity::Negative => -1i8,
    }
}

/// Whether `s` is one of the strings of `v`.
pub fn contains_string(v: &Vec<String>, s: &String) -> (r: bool)
    ensures
        r == v.deep_view().contains(s@),
{
    let mut i: usize = 0;
    while i < v.len()
        invariant
            i <= v.len(),
            forall|j: int| 0 <= j < i ==> v.deep_view()[j] != s@,
        decreases v.len() - i,
    {
        if v[i] == *s {
            assert(v.deep_view()[i as int] == s@);
            return true;
        }
        i = i + 1;
    }
    false
}

impl Title {
    /// Keeps the candidate tickers (the organisations the entity model found
    /// in the title) that are available tickers, in candidate order.
    pub fn parse_for_tickers(self, possible_tickers: Vec<String>, available_tickers: &Vec<String>) -> (t: Title)
        ensures
            t.title == self.title,
            t.sentiment == self.sentiment,
            t.tickers.deep_view() == available_only(possible_tickers.deep_view(), available_tickers.deep_view()),
    {
        let mut actual_tickers: Vec<String> = Vec::new();
        let mut i: usize = 0;
        while i < possible_tickers.len()
            invariant
                i <= possible_tickers.len(),
                actual_tickers.deep_view() == available_only(
                    possible_tickers.deep_view().take(i as int),
                    available_tickers.deep_view(),
                ),
            decreases possible_tickers.len() - i,
        {
            proof {
                assert(possible_tickers.deep_view().take(i + 1).drop_last()
                    =~= possible_tickers.deep_view().take(i as int));
            }
            if contains_string(available_tickers, &possible_tickers[i]) {
                actual_tickers.push(possible_tickers[i].clone());
                assert(actual_tickers.deep_view() =~= available_only(
                    possible_tickers.deep_view().take(i + 1),
                    available_tickers.deep_view(),
                ));
            }
            i = i + 1;
        }
        assert(possible_tickers.deep_view().take(possible_tickers.len() as int)
            =~= possible_tickers.deep_view());
        Title { title: self.title, tickers: actual_tickers, sentiment: self.sentiment }
    }

    /// Records the sentiment of the title: `1` when the first classification
    /// is positive, `-1` when it is negative.
    pub fn get_sentiment(self, classification: &Vec<Polarity>) -> (t: Title)
        requires
            classification.len() > 0,
        ensures
            t.title == self.title,
            t.tickers == self.tickers,
            t.sentiment == polarity_score(classification@[0]),
    {
        let title_sentiment: i8 = match classification[0] {
            Polarity::Positive => 1,
            Polarity::Negative => -1,
        };
        Title { sentiment: title_sentiment, ..self }
    }

    pub fn has_tickers(&self) -> (r: bool)
        ensures
            r == (self.tickers.len() > 0),
    {
        self.tickers.len() > 0
    }
}

/// Meta data of one listed ticker, as given by one row of the exchange's
/// screener table.
pub struct TickerData {
    pub symbol: String,
    pub company_name: String,
    pub last_sale: String,
    pub net_change: String,
    pub net_percent_change: String,
    pub market_capitalization: String,
    pub country: String,
    pub ipo_year: String,
    pub volume: String,
    pub sector: String,
    pub industry: String,
}

/// Every field of the record is empty.
pub open spec fn is_blank(d: TickerData) -> bool {
    &&& d.symbol@ == Seq::<char>::empty()
    &&& d.company_name@ == Seq::<char>::empty()
    &&& d.last_sale@ == Seq::<char>::empty()
    &&& d.net_change@ == Seq::<char>::empty()
    &&& d.net_percent_change@ == Seq::<char>::empty()
    &&& d.market_capitalization@ == Seq::<char>::empty()
    &&& d.country@ == Seq::<char>::empty()
    &&& d.ipo_year@ == Seq::<char>::empty()
    &&& d.volume@ == Seq::<char>::empty()
    &&& d.sector@ == Seq::<char>::empty()
    &&& d.industry@ == Seq::<char>::empty()
}

impl Default for TickerData {
    fn default() -> (d: TickerData)
        ensures
            is_blank(d),
    {
        TickerData {
            symbol: String::new(),
            company_name: String::new(),
            last_sale: String::new(),
            net_change: String::new(),
            net_percent_change: String::new(),
            market_capitalization: String::new(),
            country: String::new(),
            ipo_year: String::new(),
            volume: String::new(),
            sector: String::new(),
            industry: String::new(),
        }
    }
}

impl Clone for TickerData {
    fn clone(&self) -> (d: TickerData)
        ensures
            d == *self,
    {
        TickerData {
            symbol: self.symbol.clone(),
            company_name: self.company_name.clone(),
            last_sale: self.last_sale.clone(),
            net_change: self.net_change.clone(),
            net_percent_change: self.net_percent_change.clone(),
            market_capitalization: self.market_capitalization.clone(),
            country: self.country.clone(),
            ipo_year: self.ipo_year.clone(),
            volume: self.volume.clone(),
            sector: self.sector.clone(),
            industry: self.industry.clone(),
        }
    }
}

/// The meta data of each symbol, when the records are read in order and a
/// later record replaces an earlier one with the same symbol.
pub open spec fn symbol_map(records: Seq<TickerData>) -> Map<Seq<char>, TickerData>
    decreases records.len(),
{
    if records.len() == 0 {
        Map::empty()
    } else {
        symbol_map(records.drop_last()).insert(records.last().symbol@, records.last())
    }
}

/// No two records share a symbol.
pub open spec fn distinct_symbols(records: Seq<TickerData>) -> bool {
    forall|i: int, j: int|
        0 <= i < records.len() && 0 <= j < records.len() && i != j ==> records[i].symbol@
            != records[j].symbol@
}

pub proof fn lemma_symbol_map_domain(records: Seq<TickerData>, k: Seq<char>)
    ensures
        symbol_map(records).contains_key(k) <==> exists|i: int|
            0 <= i < records.len() && records[i].symbol@ == k,
    decreases records.len(),
{
    if records.len() > 0 {
        let prefix = records.drop_last();
        lemma_symbol_map_domain(prefix, k);
        if symbol_map(prefix).contains_key(k) {
            let i = choose|i: int| 0 <= i < prefix.len() && prefix[i].symbol@ == k;
            assert(records[i] == prefix[i]);
        }
        if exists|i: int| 0 <= i < records.len() && records[i].symbol@ == k {
            let i = choose|i: int| 0 <= i < records.len() && records[i].symbol@ == k;
            if i < records.len() - 1 {
                assert(prefix[i] == records[i]);
            }
        }
    }
}

pub proof fn lemma_symbol_map_at(records: Seq<TickerData>, i: int)
    requires
        distinct_symbols(records),
        0 <= i < records.len(),
    ensures
        symbol_map(records).contains_key(records[i].symbol@),
        symbol_map(records)[records[i].symbol@] == records[i],
    decreases records.len(),
{
    let prefix = records.drop_last();
    if i < records.len() - 1 {
        assert(prefix[i] == records[i]);
        assert(distinct_symbols(prefix)) by {
            assert forall|a: int, b: int|
                0 <= a < prefix.len() && 0 <= b < prefix.len() && a != b implies prefix[a].symbol@
                != prefix[b].symbol@ by {
                assert(prefix[a] == records[a] && prefix[b] == records[b]);
            }
        }
        lemma_symbol_map_at(prefix, i);
        assert(records[i].symbol@ != records[records.len() - 1].symbol@);
    }
}

proof fn lemma_symbol_map_update(records: Seq<TickerData>, k: int, d: TickerData)
    requires
        distinct_symbols(records),
        0 <= k < records.len(),
        records[k].symbol@ == d.symbol@,
    ensures
        symbol_map(records.update(k, d)) =~= symbol_map(records).insert(d.symbol@, d),
    decreases records.len(),
{
    let prefix = records.drop_last();
    let updated = records.update(k, d);
    if k == records.len() - 1 {
        assert(updated.drop_last() =~= prefix);
    } else {
        assert(updated.drop_last() =~= prefix.update(k, d));
        assert(distinct_symbols(prefix)) by {
            assert forall|a: int, b: int|
                0 <= a < prefix.len() && 0 <= b < prefix.len() && a != b implies prefix[a].symbol@
                != prefix[b].symbol@ by {
                assert(prefix[a] == records[a] && prefix[b] == records[b]);
            }
        }
        lemma_symbol_map_update(prefix, k, d);
        assert(records[k].symbol@ != records[records.len() - 1].symbol@);
    }
}

/// The meta data of the listed tickers, looked up by symbol.
pub struct TickerTable {
    records: Vec<TickerData>,
}

impl TickerTable {
    #[verifier::type_invariant]
    spec fn well_formed(self) -> bool {
        distinct_symbols(self.records@)
    }

    /// The symbols with their meta data.
    pub closed spec fn view(&self) -> Map<Seq<char>, TickerData> {
        symbol_map(self.records@)
    }

    pub fn new() -> (t: TickerTable)
        ensures
            t.view() == Map::<Seq<char>, TickerData>::empty(),
    {
        TickerTable { records: Vec::new() }
    }

    /// Position of the record with the given symbol.
    fn position(&self, symbol: &String) -> (r: Option<usize>)
        ensures
            match r {
                Some(i) => i < self.records.len() && self.records@[i as int].symbol@ == symbol@,
                None => forall|i: int|
                    0 <= i < self.records.len() ==> self.records@[i].symbol@ != symbol@,
            },
    {
        let mut i: usize = 0;
        while i < self.records.len()
            invariant
                i <= self.records.len(),
                forall|j: int| 0 <= j < i ==> self.records@[j].symbol@ != symbol@,
            decreases self.records.len() - i,
        {
            if self.records[i].symbol == *symbol {
                return Some(i);
            }
            i = i + 1;
        }
        None
    }

    /// Stores a record under its symbol, replacing the record stored there before.
    pub fn insert(&mut self, record: TickerData)
        ensures
            final(self).view() == old(self).view().insert(record.symbol@, record),
    {
        proof {
            use_type_invariant(&*self);
        }
        let pos = self.position(&record.symbol);
        let ghost old_records = self.records@;
        let mut records: Vec<TickerData> = Vec::new();
        std::mem::swap(&mut records, &mut self.records);
        match pos {
            Some(k) => {
                proof {
                    lemma_symbol_map_update(old_records, k as int, record);
                }
                records.set(k, record);
                assert(distinct_symbols(records@)) by {
                    assert forall|a: int, b: int|
                        0 <= a < records@.len() && 0 <= b < records@.len() && a != b implies
                        records@[a].symbol@ != records@[b].symbol@ by {
                        assert(old_records[a].symbol@ == records@[a].symbol@);
                        assert(old_records[b].symbol@ == records@[b].symbol@);
                    }
                }
            },
            None => {
                records.push(record);
                assert(records@.drop_last() =~= old_records);
                assert(distinct_symbols(records@)) by {
                    assert forall|a: int, b: int|
                        0 <= a < records@.len() && 0 <= b < records@.len() && a != b implies
                        records@[a].symbol@ != records@[b].symbol@ by {
                        if a < old_records.len() {
                            assert(records@[a] == old_records[a]);
                        }
                        if b < old_records.len() {
                            assert(records@[b] == old_records[b]);
                        }
                    }
                }
            },
        }
        self.records = records;
    }

    /// The meta data stored under `symbol`.
    pub fn get(&self, symbol: &String) -> (r: Option<&TickerData>)
        ensures
            match r {
                Some(d) => self.view().contains_key(symbol@) && *d == self.view()[symbol@],
                None => !self.view().contains_key(symbol@),
            },
    {
        proof {
            use_type_invariant(self);
            lemma_symbol_map_domain(self.records@, symbol@);
        }
        match self.position(symbol) {
            Some(i) => {
                proof {
                    lemma_symbol_map_at(self.records@, i as int);
                }
                Some(&self.records[i])
            },
            None => None,
        }
    }
}

/// Builds the table of ticker meta data from the records of the screener
/// table, in order; a later record replaces an earlier one with the same symbol.
pub fn get_ticker_meta_data(records: Vec<TickerData>) -> (table: TickerTable)
    ensures
        table.view() == symbol_map(records@),
{
    let mut table = TickerTable::new();
    let mut rest = records;
    let ghost all = rest@;
    let mut i: usize = 0;
    let n = rest.len();
    // Records are taken from the front in order; `rest` holds the ones not yet stored.
    while i < n
        invariant
            n == all.len(),
            i <= n,
            rest@ == all.subrange(i as int, n as int),
            table.view() == symbol_map(all.take(i as int)),
        decreases n - i,
    {
        let record = rest.remove(0);
        assert(all.take(i + 1).drop_last() =~= all.take(i as int));
        assert(record == all[i as int]);
        table.insert(record);
        assert(rest@ =~= all.subrange(i + 1, n as int));
        i = i + 1;
    }
    assert(all.take(n as int) =~= all);
    table
}

/// What was derived for one ticker from the titles that mention it.
///
/// `sentiments` holds, for each mention in turn, the sentiment of the title
/// (`1` or `-1`), next to `titles_with_ticker`, which holds that title.
pub struct Metrics {
    pub occurrences: i32,
    pub ticker: String,
    pub titles_with_ticker: Vec<String>,
    pub sentiments: Vec<i8>,
    pub meta: TickerData,
}

impl Default for Metrics {
    fn default() -> (m: Metrics)
        ensures
            m.occurrences == 0,
            m.ticker@ == Seq::<char>::empty(),
            m.titles_with_ticker@.len() == 0,
            m.sentiments@.len() == 0,
            is_blank(m.meta),
    {
        Metrics {
            occurrences: 0,
            ticker: String::new(),
            titles_with_ticker: Vec::new(),
            sentiments: Vec::new(),
            meta: TickerData::default(),
        }
    }
}

/// One mention of a ticker: the ticker, the title that mentions it and the
/// sentiment of that title.
pub type Mention = (Seq<char>, Seq<char>, i8);

/// The mentions made by one title, in the order of its tickers.
pub open spec fn title_mentions(t: Title) -> Seq<Mention> {
    t.tickers.deep_view().map_values(|k: Seq<char>| (k, t.title@, t.sentiment))
}

/// All mentions made by the titles, title by title.
pub open spec fn mentions(titles: Seq<Title>) -> Seq<Mention>
    decreases titles.len(),
{
    if titles.len() == 0 {
        Seq::empty()
    } else {
        mentions(titles.drop_last()) + title_mentions(titles.last())
    }
}

/// The mentioned tickers, each once, in the order of their first mention.
pub open spec fn first_mentioned(ms: Seq<Mention>) -> Seq<Seq<char>>
    decreases ms.len(),
{
    if ms.len() == 0 {
        Seq::empty()
    } else {
        let rest = first_mentioned(ms.drop_last());
        if rest.contains(ms.last().0) {
            rest
        } else {
            rest.push(ms.last().0)
        }
    }
}

/// The mentions of one ticker, in order.
pub open spec fn mentions_of(ms: Seq<Mention>, ticker: Seq<char>) -> Seq<Mention>
    decreases ms.len(),
{
    if ms.len() == 0 {
        Seq::empty()
    } else {
        let rest = mentions_of(ms.drop_last(), ticker);
        if ms.last().0 == ticker {
            rest.push(ms.last())
        } else {
            rest
        }
    }
}

/// `m` is what the mentions `ms` give for `ticker`, with its meta data from `table`.
pub open spec fn describes(
    m: Metrics,
    ms: Seq<Mention>,
    ticker: Seq<char>,
    table: Map<Seq<char>, TickerData>,
) -> bool {
    let own = mentions_of(ms, ticker);
    &&& m.ticker@ == ticker
    &&& m.occurrences == own.len()
    &&& m.titles_with_ticker.deep_view() == own.map_values(|x: Mention| x.1)
    &&& m.sentiments@ == own.map_values(|x: Mention| x.2)
    &&& m.meta == table[ticker]
}

/// `metrics` holds, in the order of first mention, one entry per mentioned ticker.
pub open spec fn summarizes(
    metrics: Seq<Metrics>,
    ms: Seq<Mention>,
    table: Map<Seq<char>, TickerData>,
) -> bool {
    let order = first_mentioned(ms);
    &&& metrics.len() == order.len()
    &&& forall|i: int| 0 <= i < metrics.len() ==> describes(#[trigger] metrics[i], ms, order[i], table)
}

pub proof fn lemma_first_mentioned_contains(ms: Seq<Mention>, t: Seq<char>)
    ensures
        first_mentioned(ms).contains(t) <==> exists|i: int| 0 <= i < ms.len() && ms[i].0 == t,
    decreases ms.len(),
{
    if ms.len() > 0 {
        let prefix = ms.drop_last();
        let last = ms.last();
        let rest = first_mentioned(prefix);
        lemma_first_mentioned_contains(prefix, t);
        if exists|i: int| 0 <= i < ms.len() && ms[i].0 == t {
            let i = choose|i: int| 0 <= i < ms.len() && ms[i].0 == t;
            if i < ms.len() - 1 {
                assert(prefix[i] == ms[i]);
                assert(rest.contains(t));
                let k = choose|k: int| 0 <= k < rest.len() && rest[k] == t;
                if !rest.contains(last.0) {
                    assert(rest.push(last.0)[k] == t);
                }
            } else if !rest.contains(last.0) {
                assert(rest.push(last.0)[rest.len() as int] == t);
            }
        }
        if first_mentioned(ms).contains(t) {
            if rest.contains(t) {
                let i = choose|i: int| 0 <= i < prefix.len() && prefix[i].0 == t;
                assert(prefix[i] == ms[i]);
            } else {
                let k = choose|k: int| 0 <= k < first_mentioned(ms).len() && first_mentioned(ms)[k] == t;
                assert(!rest.contains(last.0));
                if k < rest.len() {
                    assert(rest[k] == t);
                }
                assert(ms[ms.len() - 1].0 == t);
            }
        }
    }
}

pub proof fn lemma_first_mentioned_distinct(ms: Seq<Mention>)
    ensures
        first_mentioned(ms).no_duplicates(),
    decreases ms.len(),
{
    if ms.len() > 0 {
        lemma_first_mentioned_distinct(ms.drop_last());
    }
}

pub proof fn lemma_mentions_of_len(ms: Seq<Mention>, t: Seq<char>)
    ensures
        mentions_of(ms, t).len() <= ms.len(),
    decreases ms.len(),
{
    if ms.len() > 0 {
        lemma_mentions_of_len(ms.drop_last(), t);
    }
}

/// Position of the entry for `ticker`.
fn find_metrics(acc: &Vec<Metrics>, ticker: &String) -> (r: Option<usize>)
    ensures
        match r {
            Some(j) => j < acc.len() && acc@[j as int].ticker@ == ticker@ && forall|i: int|
                0 <= i < j ==> acc@[i].ticker@ != ticker@,
            None => forall|i: int| 0 <= i < acc.len() ==> acc@[i].ticker@ != ticker@,
        },
{
    let mut j: usize = 0;
    while j < acc.len()
        invariant
            j <= acc.len(),
            forall|i: int| 0 <= i < j ==> acc@[i].ticker@ != ticker@,
        decreases acc.len() - j,
    {
        if acc[j].ticker == *ticker {
            return Some(j);
        }
        j = j + 1;
    }
    None
}

/// Adds one mention to the metrics that summarize the mentions before it.
fn record_mention(
    acc: &mut Vec<Metrics>,
    ticker: &String,
    title: &String,
    sentiment: i8,
    table: &TickerTable,
    Ghost(ms): Ghost<Seq<Mention>>,
)
    requires
        summarizes(old(acc)@, ms, table.view()),
        table.view().contains_key(ticker@),
        ms.len() < i32::MAX,
    ensures
        summarizes(final(acc)@, ms.push((ticker@, title@, sentiment)), table.view()),
{
    let ghost m: Mention = (ticker@, title@, sentiment);
    let ghost next = ms.push(m);
    let ghost order = first_mentioned(ms);
    proof {
        assert(next.drop_last() =~= ms);
        lemma_first_mentioned_distinct(ms);
    }
    let found = find_metrics(acc, ticker);
    let j: usize = match found {
        Some(k) => k,
        None => acc.len(),
    };
    assert(forall|i: int| 0 <= i < j ==> acc@[i].ticker@ != ticker@);
    if j < acc.len() {
        assert(describes(acc@[j as int], ms, order[j as int], table.view()));
        assert(order[j as int] == ticker@);
        assert forall|i: int| 0 <= i < acc@.len() && i != j implies order[i] != ticker@ by {
            assert(order[i] != order[j as int]);
        }
        assert(order.contains(ticker@));
        proof {
            lemma_mentions_of_len(ms, ticker@);
        }
        let ghost before = acc@;
        let ghost own = mentions_of(ms, ticker@);
        let mut entry = acc.remove(j);
        let ghost prior = entry;
        assert(prior == before[j as int]);
        entry.occurrences = entry.occurrences + 1;
        entry.titles_with_ticker.push(title.clone());
        entry.sentiments.push(sentiment);
        assert(entry.titles_with_ticker.deep_view() =~= prior.titles_with_ticker.deep_view().push(title@));
        acc.insert(j, entry);
        assert(acc@[j as int] == entry);
        assert(mentions_of(next, ticker@) == own.push(m));
        assert(own.push(m).map_values(|x: Mention| x.1) =~= own.map_values(|x: Mention| x.1).push(title@));
        assert(own.push(m).map_values(|x: Mention| x.2) =~= own.map_values(|x: Mention| x.2).push(sentiment));
        assert(first_mentioned(next) == order);
        assert forall|i: int| 0 <= i < acc@.len() implies describes(#[trigger] acc@[i], next, order[i], table.view()) by {
            if i != j {
                assert(acc@[i] == before[i]);
                assert(describes(before[i], ms, order[i], table.view()));
                assert(order[i] != ticker@);
                assert(mentions_of(next, order[i]) == mentions_of(ms, order[i]));
            }
        }
    } else {
        proof {
            lemma_first_mentioned_contains(ms, ticker@);
        }
        assert(!order.contains(ticker@)) by {
            if order.contains(ticker@) {
                let k = choose|k: int| 0 <= k < order.len() && order[k] == ticker@;
                assert(describes(acc@[k], ms, order[k], table.view()));
                assert(acc@[k].ticker@ != ticker@);
            }
        }
        let meta = match table.get(ticker) {
            Some(d) => d.clone(),
            None => {
                assert(false);
                TickerData::default()
            },
        };
        let mut titles_with_ticker: Vec<String> = Vec::new();
        titles_with_ticker.push(title.clone());
        let mut sentiments: Vec<i8> = Vec::new();
        sentiments.push(sentiment);
        let ghost before = acc@;
        acc.push(
            Metrics {
                occurrences: 1,
                ticker: ticker.clone(),
                titles_with_ticker,
                sentiments,
                meta,
            },
        );
        assert(first_mentioned(next) == order.push(ticker@));
        assert(mentions_of(ms, ticker@) =~= Seq::<Mention>::empty()) by {
            lemma_mentions_of_empty(ms, ticker@);
        }
        assert(mentions_of(next, ticker@) =~= seq![m]);
        assert(seq![m].map_values(|x: Mention| x.1) =~= seq![title@]);
        assert(seq![m].map_values(|x: Mention| x.2) =~= seq![sentiment]);
        assert(acc@[j as int].titles_with_ticker.deep_view() =~= seq![title@]);
        assert forall|i: int| 0 <= i < acc@.len() implies describes(#[trigger] acc@[i], next, first_mentioned(next)[i], table.view()) by {
            if i < j {
                assert(acc@[i] == before[i]);
                assert(describes(before[i], ms, order[i], table.view()));
                assert(order[i] != ticker@);
                assert(mentions_of(next, order[i]) == mentions_of(ms, order[i]));
            }
        }
    }
}

/// A ticker that is never mentioned has no mentions.
pub proof fn lemma_mentions_of_empty(ms: Seq<Mention>, t: Seq<char>)
    requires
        forall|i: int| 0 <= i < ms.len() ==> ms[i].0 != t,
    ensures
        mentions_of(ms, t).len() == 0,
    decreases ms.len(),
{
    if ms.len() > 0 {
        let prefix = ms.drop_last();
        assert forall|i: int| 0 <= i < prefix.len() implies prefix[i].0 != t by {
            assert(prefix[i] == ms[i]);
        }
        lemma_mentions_of_empty(prefix, t);
        assert(ms[ms.len() - 1].0 != t);
    }
}

/// The mentions of the first `k` titles come first among the mentions of all titles.
pub proof fn lemma_mentions_prefix(titles: Seq<Title>, k: int)
    requires
        0 <= k <= titles.len(),
    ensures
        mentions(titles.take(k)).len() <= mentions(titles).len(),
        forall|p: int|
            0 <= p < mentions(titles.take(k)).len() ==> #[trigger] mentions(titles.take(k))[p]
                == mentions(titles)[p],
    decreases titles.len(),
{
    if k == titles.len() {
        assert(titles.take(k) =~= titles);
    } else {
        let prefix = titles.drop_last();
        assert(prefix.take(k) =~= titles.take(k));
        lemma_mentions_prefix(prefix, k);
    }
}

/// Derives the metrics of every mentioned ticker from the titles: for each
/// ticker, in the order of its first mention, the number of mentions, the
/// title and the title's sentiment of each mention in turn, and the ticker's
/// meta data.
pub fn derive_metrics(titles: &Vec<Title>, table: &TickerTable) -> (metrics: Vec<Metrics>)
    requires
        mentions(titles@).len() < i32::MAX,
        forall|p: int|
            0 <= p < mentions(titles@).len() ==> table.view().contains_key(
                #[trigger] mentions(titles@)[p].0,
            ),
    ensures
        summarizes(metrics@, mentions(titles@), table.view()),
{
    let mut acc: Vec<Metrics> = Vec::new();
    let mut i: usize = 0;
    while i < titles.len()
        invariant
            i <= titles.len(),
            mentions(titles@).len() < i32::MAX,
            forall|p: int|
                0 <= p < mentions(titles@).len() ==> table.view().contains_key(
                    #[trigger] mentions(titles@)[p].0,
                ),
            summarizes(acc@, mentions(titles@.take(i as int)), table.view()),
        decreases titles.len() - i,
    {
        let title = &titles[i];
        let ghost done = mentions(titles@.take(i as int));
        let ghost own = title_mentions(*title);
        proof {
            assert(titles@.take(i + 1).drop_last() =~= titles@.take(i as int));
            assert(mentions(titles@.take(i + 1)) == done + own);
            lemma_mentions_prefix(titles@, i + 1);
            assert(done + own.take(0) =~= done);
        }
        let mut j: usize = 0;
        while j < title.tickers.len()
            invariant
                j <= title.tickers.len(),
                own == title_mentions(*title),
                mentions(titles@.take(i + 1)) == done + own,
                mentions(titles@.take(i + 1)).len() <= mentions(titles@).len(),
                forall|p: int|
                    0 <= p < mentions(titles@.take(i + 1)).len() ==> #[trigger] mentions(
                        titles@.take(i + 1),
                    )[p] == mentions(titles@)[p],
                mentions(titles@).len() < i32::MAX,
                forall|p: int|
                    0 <= p < mentions(titles@).len() ==> table.view().contains_key(
                        #[trigger] mentions(titles@)[p].0,
                    ),
                summarizes(acc@, done + own.take(j as int), table.view()),
            decreases title.tickers.len() - j,
        {
            let ghost p = done.len() + j;
            proof {
                assert((done + own)[p] == own[j as int]);
                assert(mentions(titles@.take(i + 1))[p] == mentions(titles@)[p]);
                assert(own[j as int] == (title.tickers@[j as int]@, title.title@, title.sentiment));
                assert(table.view().contains_key(mentions(titles@)[p].0));
                assert(mentions(titles@)[p].0 == title.tickers@[j as int]@);
                assert((done + own.take(j + 1)) =~= (done + own.take(j as int)).push(own[j as int]));
            }
            record_mention(
                &mut acc,
                &title.tickers[j],
                &title.title,
                title.sentiment,
                table,
                Ghost(done + own.take(j as int)),
            );
            j = j + 1;
        }
        assert(own.take(own.len() as int) =~= own);
        i = i + 1;
    }
    assert(titles@.take(titles.len() as int) =~= titles@);
    acc
}

impl Clone for Title {
    fn clone(&self) -> (t: Title)
        ensures
            t.title == self.title,
            t.tickers@ == self.tickers@,
            t.sentiment == self.sentiment,
    {
        let mut tickers: Vec<String> = Vec::new();
        let mut i: usize = 0;
        while i < self.tickers.len()
            invariant
                i <= self.tickers.len(),
                tickers@ == self.tickers@.take(i as int),
            decreases self.tickers.len() - i,
        {
            tickers.push(self.tickers[i].clone());
            assert(tickers@ =~= self.tickers@.take(i + 1));
            i = i + 1;
        }
        assert(self.tickers@.take(self.tickers.len() as int) =~= self.tickers@);
        Title { title: self.title.clone(), tickers, sentiment: self.sentiment }
    }
}

/// The titles that mention at least one ticker, in order.
pub open spec fn with_tickers(titles: Seq<Title>) -> Seq<Title>
    decreases titles.len(),
{
    if titles.len() == 0 {
        Seq::empty()
    } else {
        let rest = with_tickers(titles.drop_last());
        if titles.last().tickers@.len() > 0 {
            rest.push(titles.last())
        } else {
            rest
        }
    }
}

/// Keeps the titles that mention at least one ticker, in order.
pub fn select_titles_with_tickers(titles: Vec<Title>) -> (selected: Vec<Title>)
    ensures
        selected@ == with_tickers(titles@),
{
    let mut selected: Vec<Title> = Vec::new();
    let mut rest = titles;
    let ghost all = rest@;
    let n = rest.len();
    let mut i: usize = 0;
    while i < n
        invariant
            n == all.len(),
            i <= n,
            rest@ == all.subrange(i as int, n as int),
            selected@ == with_tickers(all.take(i as int)),
        decreases n - i,
    {
        let title = rest.remove(0);
        assert(all.take(i + 1).drop_last() =~= all.take(i as int));
        assert(title == all[i as int]);
        if title.has_tickers() {
            selected.push(title);
        }
        assert(rest@ =~= all.subrange(i + 1, n as int));
        i = i + 1;
    }
    assert(all.take(n as int) =~= all);
    selected
}

/// Titles that mention no ticker add no mention.
pub proof fn lemma_mentions_of_selected_titles(titles: Seq<Title>)
    ensures
        mentions(with_tickers(titles)) == mentions(titles),
    decreases titles.len(),
{
    if titles.len() > 0 {
        let prefix = titles.drop_last();
        lemma_mentions_of_selected_titles(prefix);
        let last = titles.last();
        if last.tickers@.len() > 0 {
            assert(with_tickers(titles).drop_last() =~= with_tickers(prefix));
        } else {
            assert(title_mentions(last) =~= Seq::<Mention>::empty());
            assert(mentions(titles) =~= mentions(prefix));
        }
    }
}

/// The number of mentions the titles make.
pub fn mention_count(titles: &Vec<Title>) -> (n: usize)
    requires
        mentions(titles@).len() <= usize::MAX,
    ensures
        n == mentions(titles@).len(),
{
    let mut n: usize = 0;
    let mut i: usize = 0;
    while i < titles.len()
        invariant
            i <= titles.len(),
            mentions(titles@).len() <= usize::MAX,
            n == mentions(titles@.take(i as int)).len(),
        decreases titles.len() - i,
    {
        proof {
            assert(titles@.take(i + 1).drop_last() =~= titles@.take(i as int));
            lemma_mentions_prefix(titles@, i + 1);
        }
        n = n + titles[i].tickers.len();
        i = i + 1;
    }
    assert(titles@.take(titles.len() as int) =~= titles@);
    n
}

/// Sum of the occurrences of the metrics.
pub open spec fn occurrence_sum(metrics: Seq<Metrics>) -> int
    decreases metrics.len(),
{
    if metrics.len() == 0 {
        0
    } else {
        occurrence_sum(metrics.drop_last()) + metrics.last().occurrences
    }
}

/// Number of mentions of the tickers of `order`.
pub open spec fn mention_total(order: Seq<Seq<char>>, ms: Seq<Mention>) -> int
    decreases order.len(),
{
    if order.len() == 0 {
        0
    } else {
        mention_total(order.drop_last(), ms) + mentions_of(ms, order.last()).len()
    }
}

proof fn lemma_mention_total_push(order: Seq<Seq<char>>, ms: Seq<Mention>, m: Mention)
    requires
        order.no_duplicates(),
    ensures
        mention_total(order, ms.push(m)) == mention_total(order, ms) + if order.contains(m.0) {
            1int
        } else {
            0int
        },
    decreases order.len(),
{
    assert(ms.push(m).drop_last() =~= ms);
    if order.len() > 0 {
        let prefix = order.drop_last();
        assert(prefix.no_duplicates());
        lemma_mention_total_push(prefix, ms, m);
        if order.last() == m.0 {
            assert(!prefix.contains(m.0));
            assert(order.contains(m.0)) by {
                assert(order[order.len() - 1] == m.0);
            }
        } else {
            if prefix.contains(m.0) {
                let k = choose|k: int| 0 <= k < prefix.len() && prefix[k] == m.0;
                assert(order[k] == m.0);
            }
            if order.contains(m.0) {
                let k = choose|k: int| 0 <= k < order.len() && order[k] == m.0;
                assert(prefix[k] == m.0);
            }
        }
    }
}

proof fn lemma_mention_total_all(ms: Seq<Mention>)
    ensures
        mention_total(first_mentioned(ms), ms) == ms.len(),
    decreases ms.len(),
{
    if ms.len() > 0 {
        let prefix = ms.drop_last();
        let m = ms.last();
        assert(prefix.push(m) =~= ms);
        lemma_mention_total_all(prefix);
        lemma_first_mentioned_distinct(prefix);
        lemma_mention_total_push(first_mentioned(prefix), prefix, m);
        let order = first_mentioned(prefix);
        if !order.contains(m.0) {
            assert(order.push(m.0).drop_last() =~= order);
            assert(mentions_of(ms, m.0).len() == mentions_of(prefix, m.0).len() + 1);
            lemma_first_mentioned_contains(prefix, m.0);
            lemma_mentions_of_empty(prefix, m.0);
        }
    }
}

proof fn lemma_occurrence_sum_matches(
    metrics: Seq<Metrics>,
    ms: Seq<Mention>,
    order: Seq<Seq<char>>,
    table: Map<Seq<char>, TickerData>,
)
    requires
        metrics.len() == order.len(),
        forall|i: int| 0 <= i < metrics.len() ==> describes(#[trigger] metrics[i], ms, order[i], table),
    ensures
        occurrence_sum(metrics) == mention_total(order, ms),
    decreases metrics.len(),
{
    if metrics.len() > 0 {
        let k = metrics.len() - 1;
        assert forall|i: int| 0 <= i < k implies describes(
            #[trigger] metrics.drop_last()[i],
            ms,
            order.drop_last()[i],
            table,
        ) by {
            assert(describes(metrics[i], ms, order[i], table));
        }
        lemma_occurrence_sum_matches(metrics.drop_last(), ms, order.drop_last(), table);
        assert(describes(metrics[k], ms, order[k], table));
    }
}

/// Every mention is counted exactly once: the occurrences of the metrics
/// that summarize a list of mentions add up to the number of mentions, so
/// that the portfolio weights `occurrences / mentions` add up to one.
pub proof fn lemma_occurrences_add_up_to_mentions(
    metrics: Seq<Metrics>,
    ms: Seq<Mention>,
    table: Map<Seq<char>, TickerData>,
)
    requires
        summarizes(metrics, ms, table),
    ensures
        occurrence_sum(metrics) == ms.len(),
{
    lemma_occurrence_sum_matches(metrics, ms, first_mentioned(ms), table);
    lemma_mention_total_all(ms);
}

/// Each ticker has one entry: the metrics that summarize a list of
/// mentions are for distinct tickers, and a ticker has an entry exactly
/// when it is mentioned.
pub proof fn lemma_one_entry_per_mentioned_ticker(
    metrics: Seq<Metrics>,
    ms: Seq<Mention>,
    table: Map<Seq<char>, TickerData>,
    ticker: Seq<char>,
)
    requires
        summarizes(metrics, ms, table),
    ensures
        forall|i: int, j: int|
            0 <= i < metrics.len() && 0 <= j < metrics.len() && i != j ==> metrics[i].ticker@
                != metrics[j].ticker@,
        (exists|i: int| 0 <= i < metrics.len() && metrics[i].ticker@ == ticker) <==> (exists|
            p: int,
        | 0 <= p < ms.len() && ms[p].0 == ticker),
{
    let order = first_mentioned(ms);
    lemma_first_mentioned_distinct(ms);
    lemma_first_mentioned_contains(ms, ticker);
    assert forall|i: int, j: int|
        0 <= i < metrics.len() && 0 <= j < metrics.len() && i != j implies metrics[i].ticker@
        != metrics[j].ticker@ by {
        assert(describes(metrics[i], ms, order[i], table));
        assert(describes(metrics[j], ms, order[j], table));
    }
    if exists|i: int| 0 <= i < metrics.len() && metrics[i].ticker@ == ticker {
        let i = choose|i: int| 0 <= i < metrics.len() && metrics[i].ticker@ == ticker;
        assert(describes(metrics[i], ms, order[i], table));
        assert(order[i] == ticker);
    }
    if order.contains(ticker) {
        let k = choose|k: int| 0 <= k < order.len() && order[k] == ticker;
        assert(describes(metrics[k], ms, order[k], table));
    }
}

/// The count, the titles and the sentiments of an entry agree: one title
/// and one sentiment per occurrence.
pub proof fn lemma_entry_lengths_agree(
    metrics: Seq<Metrics>,
    ms: Seq<Mention>,
    table: Map<Seq<char>, TickerData>,
    i: int,
)
    requires
        summarizes(metrics, ms, table),
        0 <= i < metrics.len(),
    ensures
        metrics[i].occurrences == metrics[i].titles_with_ticker@.len(),
        metrics[i].occurrences == metrics[i].sentiments@.len(),
        metrics[i].occurrences >= 1,
{
    let order = first_mentioned(ms);
    assert(describes(metrics[i], ms, order[i], table));
    assert(metrics[i].titles_with_ticker.deep_view().len() == metrics[i].titles_with_ticker@.len());
    lemma_first_mentioned_contains(ms, order[i]);
    assert(order.contains(order[i]));
    let p = choose|p: int| 0 <= p < ms.len() && ms[p].0 == order[i];
    lemma_mentions_of_nonempty(ms, order[i], p);
}

proof fn lemma_mentions_of_nonempty(ms: Seq<Mention>, t: Seq<char>, p: int)
    requires
        0 <= p < ms.len(),
        ms[p].0 == t,
    ensures
        mentions_of(ms, t).len() >= 1,
    decreases ms.len(),
{
    if p < ms.len() - 1 {
        let prefix = ms.drop_last();
        assert(prefix[p] == ms[p]);
        lemma_mentions_of_nonempty(prefix, t, p);
    }
}

/// The tickers kept for a title are candidates that are available tickers,
/// and every candidate that is an available ticker is kept.
pub proof fn lemma_available_only_members(candidates: Seq<Seq<char>>, available: Seq<Seq<char>>, t: Seq<char>)
    ensures
        available_only(candidates, available).contains(t) <==> (candidates.contains(t)
            && available.contains(t)),
        available_only(candidates, available).len() <= candidates.len(),
    decreases candidates.len(),
{
    if candidates.len() > 0 {
        let prefix = candidates.drop_last();
        let last = candidates.last();
        let rest = available_only(prefix, available);
        lemma_available_only_members(prefix, available, t);
        let result = available_only(candidates, available);
        if candidates.contains(t) && available.contains(t) {
            let k = choose|k: int| 0 <= k < candidates.len() && candidates[k] == t;
            if k < candidates.len() - 1 {
                assert(prefix[k] == t);
                let q = choose|q: int| 0 <= q < rest.len() && rest[q] == t;
                if available.contains(last) {
                    assert(rest.push(last)[q] == t);
                }
            } else {
                assert(rest.push(last)[rest.len() as int] == t);
            }
        }
        if result.contains(t) {
            if rest.contains(t) {
                let k = choose|k: int| 0 <= k < prefix.len() && prefix[k] == t;
                assert(candidates[k] == t);
            } else {
                let q = choose|q: int| 0 <= q < result.len() && result[q] == t;
                if q < rest.len() {
                    assert(rest[q] == t);
                }
                assert(candidates[candidates.len() - 1] == t);
            }
        }
    }
}

/// The meta data of a symbol is the last record with that symbol: a later
/// record replaces every earlier one.
pub proof fn lemma_last_record_wins(records: Seq<TickerData>, i: int)
    requires
        0 <= i < records.len(),
        forall|j: int| i < j < records.len() ==> records[j].symbol@ != records[i].symbol@,
    ensures
        symbol_map(records).contains_key(records[i].symbol@),
        symbol_map(records)[records[i].symbol@] == records[i],
    decreases records.len(),
{
    if i < records.len() - 1 {
        let prefix = records.drop_last();
        assert(prefix[i] == records[i]);
        assert forall|j: int| i < j < prefix.len() implies prefix[j].symbol@ != prefix[i].symbol@ by {
            assert(prefix[j] == records[j]);
        }
        lemma_last_record_wins(prefix, i);
        assert(records[records.len() - 1].symbol@ != records[i].symbol@);
    }
}

proof fn lemma_mentions_of_members(ms: Seq<Mention>, t: Seq<char>, k: int)
    requires
        0 <= k < mentions_of(ms, t).len(),
    ensures
        mentions_of(ms, t)[k].0 == t,
        exists|p: int| 0 <= p < ms.len() && ms[p] == mentions_of(ms, t)[k],
    decreases ms.len(),
{
    let prefix = ms.drop_last();
    let rest = mentions_of(prefix, t);
    if k < rest.len() {
        lemma_mentions_of_members(prefix, t, k);
        let p = choose|p: int| 0 <= p < prefix.len() && prefix[p] == rest[k];
        assert(ms[p] == prefix[p]);
        if ms.last().0 == t {
            assert(rest.push(ms.last())[k] == rest[k]);
        }
    } else {
        assert(ms[ms.len() - 1] == ms.last());
    }
}

proof fn lemma_mention_origin(titles: Seq<Title>, p: int)
    requires
        0 <= p < mentions(titles).len(),
    ensures
        exists|j: int, q: int|
            0 <= j < titles.len() && 0 <= q < titles[j].tickers@.len() && #[trigger] mentions(
                titles,
            )[p] == (titles[j].tickers@[q]@, titles[j].title@, titles[j].sentiment),
    decreases titles.len(),
{
    let prefix = titles.drop_last();
    let last = titles.last();
    let n = mentions(prefix).len();
    if p < n {
        lemma_mention_origin(prefix, p);
        let (j, q) = choose|j: int, q: int|
            0 <= j < prefix.len() && 0 <= q < prefix[j].tickers@.len() && #[trigger] mentions(
                prefix,
            )[p] == (prefix[j].tickers@[q]@, prefix[j].title@, prefix[j].sentiment);
        assert(titles[j] == prefix[j]);
        assert(mentions(titles)[p] == mentions(prefix)[p]);
    } else {
        let q = p - n;
        assert(mentions(titles)[p] == title_mentions(last)[q]);
        assert(titles[titles.len() - 1] == last);
        assert(mentions(titles)[p] == (titles[titles.len() - 1].tickers@[q]@, titles[titles.len() - 1].title@, titles[titles.len() - 1].sentiment));
    }
}

/// Every title listed under a ticker is the title of one of the titles that
/// name that ticker, and the sentiment listed beside it is that title's sentiment.
pub proof fn lemma_listed_titles_name_the_ticker(
    titles: Seq<Title>,
    metrics: Seq<Metrics>,
    table: Map<Seq<char>, TickerData>,
    i: int,
    k: int,
)
    requires
        summarizes(metrics, mentions(titles), table),
        0 <= i < metrics.len(),
        0 <= k < metrics[i].titles_with_ticker@.len(),
    ensures
        exists|j: int|
            0 <= j < titles.len() && titles[j].title@ == metrics[i].titles_with_ticker@[k]@
                && titles[j].tickers.deep_view().contains(metrics[i].ticker@) && titles[j].sentiment
                == metrics[i].sentiments@[k],
{
    let ms = mentions(titles);
    let order = first_mentioned(ms);
    let m = metrics[i];
    let t = order[i];
    assert(describes(m, ms, t, table));
    let own = mentions_of(ms, t);
    assert(m.titles_with_ticker.deep_view().len() == m.titles_with_ticker@.len());
    assert(m.titles_with_ticker.deep_view()[k] == m.titles_with_ticker@[k]@);
    assert(k < own.len());
    assert(own.map_values(|x: Mention| x.1)[k] == own[k].1);
    lemma_mentions_of_members(ms, t, k);
    let p = choose|p: int| 0 <= p < ms.len() && ms[p] == own[k];
    lemma_mention_origin(titles, p);
    let (j, q) = choose|j: int, q: int|
        0 <= j < titles.len() && 0 <= q < titles[j].tickers@.len() && #[trigger] mentions(titles)[p]
            == (titles[j].tickers@[q]@, titles[j].title@, titles[j].sentiment);
    assert(titles[j].tickers.deep_view()[q] == titles[j].tickers@[q]@);
    assert(titles[j].tickers.deep_view().contains(m.ticker@));
    assert(own.map_values(|x: Mention| x.2)[k] == own[k].2);
}

pub proof fn lemma_mentions_concat(a: Seq<Title>, b: Seq<Title>)
    ensures
        mentions(a + b) == mentions(a) + mentions(b),
    decreases b.len(),
{
    if b.len() == 0 {
        assert(a + b =~= a);
        assert(mentions(a) + mentions(b) =~= mentions(a));
    } else {
        assert((a + b).drop_last() =~= a + b.drop_last());
        lemma_mentions_concat(a, b.drop_last());
        assert((a + b).last() == b.last());
        assert(mentions(a) + mentions(b) =~= mentions(a) + mentions(b.drop_last()) + title_mentions(
            b.last(),
        ));
    }
}

pub proof fn lemma_mentions_of_concat(a: Seq<Mention>, b: Seq<Mention>, t: Seq<char>)
    ensures
        mentions_of(a + b, t) == mentions_of(a, t) + mentions_of(b, t),
    decreases b.len(),
{
    if b.len() == 0 {
        assert(a + b =~= a);
        assert(mentions_of(a, t) + mentions_of(b, t) =~= mentions_of(a, t));
    } else {
        assert((a + b).drop_last() =~= a + b.drop_last());
        lemma_mentions_of_concat(a, b.drop_last(), t);
        assert((a + b).last() == b.last());
        if b.last().0 == t {
            assert(mentions_of(a, t) + mentions_of(b, t) =~= (mentions_of(a, t) + mentions_of(
                b.drop_last(),
                t,
            )).push(b.last()));
        }
    }
}

/// The mentions of a ticker made by titles `s`.
spec fn own_mentions(s: Seq<Title>, t: Seq<char>) -> Seq<Mention> {
    mentions_of(mentions(s), t)
}

proof fn lemma_own_mentions_concat(a: Seq<Title>, b: Seq<Title>, t: Seq<char>)
    ensures
        own_mentions(a + b, t) == own_mentions(a, t) + own_mentions(b, t),
{
    lemma_mentions_concat(a, b);
    lemma_mentions_of_concat(mentions(a), mentions(b), t);
}

/// Reordering the titles, or adding titles that name no ticker, changes
/// neither the total number of mentions nor, for any ticker, whether it has
/// an entry, its number of occurrences, or its titles and sentiments taken
/// as multisets.
pub proof fn lemma_metrics_ignore_title_order(
    titles1: Seq<Title>,
    titles2: Seq<Title>,
    metrics1: Seq<Metrics>,
    metrics2: Seq<Metrics>,
    table: Map<Seq<char>, TickerData>,
    t: Seq<char>,
)
    requires
        with_tickers(titles1).to_multiset() == with_tickers(titles2).to_multiset(),
        summarizes(metrics1, mentions(titles1), table),
        summarizes(metrics2, mentions(titles2), table),
    ensures
        mentions(titles1).len() == mentions(titles2).len(),
        (exists|i: int| 0 <= i < metrics1.len() && metrics1[i].ticker@ == t) <==> (exists|j: int|
            0 <= j < metrics2.len() && metrics2[j].ticker@ == t),
        forall|i: int, j: int|
            0 <= i < metrics1.len() && 0 <= j < metrics2.len() && metrics1[i].ticker@ == t
                && metrics2[j].ticker@ == t ==> {
                &&& metrics1[i].occurrences == metrics2[j].occurrences
                &&& metrics1[i].titles_with_ticker.deep_view().to_multiset()
                    == metrics2[j].titles_with_ticker.deep_view().to_multiset()
                &&& metrics1[i].sentiments@.to_multiset() == metrics2[j].sentiments@.to_multiset()
            },
{
    let s1 = with_tickers(titles1);
    let s2 = with_tickers(titles2);
    lemma_mentions_of_selected_titles(titles1);
    lemma_mentions_of_selected_titles(titles2);
    let ms1 = mentions(titles1);
    let ms2 = mentions(titles2);
    // total mentions
    let total = |s: Seq<Title>| mentions(s).len() as int;
    assert forall|a: Seq<Title>, b: Seq<Title>| #[trigger] total(a + b) == total(a) + total(b) by {
        lemma_mentions_concat(a, b);
    }
    lemma_additive_ignores_order(total, s1, s2);
    // occurrences
    let occ = |s: Seq<Title>| own_mentions(s, t).len() as int;
    assert forall|a: Seq<Title>, b: Seq<Title>| #[trigger] occ(a + b) == occ(a) + occ(b) by {
        lemma_own_mentions_concat(a, b, t);
    }
    lemma_additive_ignores_order(occ, s1, s2);
    assert(own_mentions(s1, t).len() == own_mentions(s2, t).len());
    let own1 = mentions_of(ms1, t);
    let own2 = mentions_of(ms2, t);
    assert(own1.len() == own2.len());
    // titles
    let tl1 = own1.map_values(|m: Mention| m.1);
    let tl2 = own2.map_values(|m: Mention| m.1);
    assert forall|x: Seq<char>| tl1.to_multiset().count(x) == tl2.to_multiset().count(x) by {
        let f = |s: Seq<Title>| count_in(own_mentions(s, t).map_values(|m: Mention| m.1), x);
        assert forall|a: Seq<Title>, b: Seq<Title>| #[trigger] f(a + b) == f(a) + f(b) by {
            lemma_own_mentions_concat(a, b, t);
            assert(own_mentions(a + b, t).map_values(|m: Mention| m.1) =~= own_mentions(
                a,
                t,
            ).map_values(|m: Mention| m.1) + own_mentions(b, t).map_values(|m: Mention| m.1));
            lemma_count_in_concat(
                own_mentions(a, t).map_values(|m: Mention| m.1),
                own_mentions(b, t).map_values(|m: Mention| m.1),
                x,
            );
        }
        lemma_additive_ignores_order(f, s1, s2);
        lemma_count_in_multiset(tl1, x);
        lemma_count_in_multiset(tl2, x);
    }
    assert(tl1.to_multiset() =~= tl2.to_multiset());
    // sentiments
    let sl1 = own1.map_values(|m: Mention| m.2);
    let sl2 = own2.map_values(|m: Mention| m.2);
    assert forall|v: i8| sl1.to_multiset().count(v) == sl2.to_multiset().count(v) by {
        let f = |s: Seq<Title>| count_in(own_mentions(s, t).map_values(|m: Mention| m.2), v);
        assert forall|a: Seq<Title>, b: Seq<Title>| #[trigger] f(a + b) == f(a) + f(b) by {
            lemma_own_mentions_concat(a, b, t);
            assert(own_mentions(a + b, t).map_values(|m: Mention| m.2) =~= own_mentions(
                a,
                t,
            ).map_values(|m: Mention| m.2) + own_mentions(b, t).map_values(|m: Mention| m.2));
            lemma_count_in_concat(
                own_mentions(a, t).map_values(|m: Mention| m.2),
                own_mentions(b, t).map_values(|m: Mention| m.2),
                v,
            );
        }
        lemma_additive_ignores_order(f, s1, s2);
        lemma_count_in_multiset(sl1, v);
        lemma_count_in_multiset(sl2, v);
    }
    assert(sl1.to_multiset() =~= sl2.to_multiset());
    // entries
    lemma_one_entry_per_mentioned_ticker(metrics1, ms1, table, t);
    lemma_one_entry_per_mentioned_ticker(metrics2, ms2, table, t);
    if exists|p: int| 0 <= p < ms1.len() && ms1[p].0 == t {
        let p = choose|p: int| 0 <= p < ms1.len() && ms1[p].0 == t;
        lemma_mentions_of_nonempty(ms1, t, p);
        if !(exists|p2: int| 0 <= p2 < ms2.len() && ms2[p2].0 == t) {
            lemma_mentions_of_empty(ms2, t);
        }
    }
    if exists|p: int| 0 <= p < ms2.len() && ms2[p].0 == t {
        let p = choose|p: int| 0 <= p < ms2.len() && ms2[p].0 == t;
        lemma_mentions_of_nonempty(ms2, t, p);
        if !(exists|p1: int| 0 <= p1 < ms1.len() && ms1[p1].0 == t) {
            lemma_mentions_of_empty(ms1, t);
        }
    }
    assert forall|i: int, j: int|
        0 <= i < metrics1.len() && 0 <= j < metrics2.len() && metrics1[i].ticker@ == t
            && metrics2[j].ticker@ == t implies {
        &&& metrics1[i].occurrences == metrics2[j].occurrences
        &&& metrics1[i].titles_with_ticker.deep_view().to_multiset()
            == metrics2[j].titles_with_ticker.deep_view().to_multiset()
        &&& metrics1[i].sentiments@.to_multiset() == metrics2[j].sentiments@.to_multiset()
    } by {
        assert(describes(metrics1[i], ms1, first_mentioned(ms1)[i], table));
        assert(describes(metrics2[j], ms2, first_mentioned(ms2)[j], table));
    }
}

/// `idx` picks the elements of `s`, in order, out of `t`.
pub open spec fn picks_subsequence(s: Seq<Seq<char>>, t: Seq<Seq<char>>, idx: Seq<int>) -> bool {
    &&& idx.len() == s.len()
    &&& forall|k: int| 0 <= k < idx.len() ==> 0 <= #[trigger] idx[k] < t.len() && t[idx[k]] == s[k]
    &&& forall|k: int, l: int| 0 <= k < l < idx.len() ==> idx[k] < idx[l]
}

/// `s` is `t` with some elements left out.
pub open spec fn is_subsequence(s: Seq<Seq<char>>, t: Seq<Seq<char>>) -> bool {
    exists|idx: Seq<int>| picks_subsequence(s, t, idx)
}

/// With fewer available tickers, the tickers kept for a title are those kept
/// with more of them, some left out, in the same order; with no available
/// ticker none is kept.
pub proof fn lemma_fewer_available_keeps_subsequence(
    candidates: Seq<Seq<char>>,
    fewer: Seq<Seq<char>>,
    more: Seq<Seq<char>>,
)
    requires
        forall|x: Seq<char>| fewer.contains(x) ==> more.contains(x),
    ensures
        is_subsequence(available_only(candidates, fewer), available_only(candidates, more)),
        fewer.len() == 0 ==> available_only(candidates, fewer).len() == 0,
    decreases candidates.len(),
{
    let a = available_only(candidates, fewer);
    let b = available_only(candidates, more);
    if candidates.len() == 0 {
        assert(picks_subsequence(a, b, Seq::<int>::empty()));
    } else {
        let prefix = candidates.drop_last();
        let x = candidates.last();
        lemma_fewer_available_keeps_subsequence(prefix, fewer, more);
        let a0 = available_only(prefix, fewer);
        let b0 = available_only(prefix, more);
        let idx = choose|idx: Seq<int>| picks_subsequence(a0, b0, idx);
        if fewer.contains(x) {
            assert(more.contains(x));
            let idx2 = idx.push(b0.len() as int);
            assert(picks_subsequence(a, b, idx2)) by {
                assert forall|k: int| 0 <= k < idx2.len() implies 0 <= #[trigger] idx2[k] < b.len()
                    && b[idx2[k]] == a[k] by {
                    if k < idx.len() {
                        assert(idx2[k] == idx[k]);
                        assert(b[idx[k]] == b0[idx[k]]);
                        assert(a[k] == a0[k]);
                    }
                }
            }
        } else if more.contains(x) {
            assert(picks_subsequence(a, b, idx)) by {
                assert forall|k: int| 0 <= k < idx.len() implies 0 <= #[trigger] idx[k] < b.len()
                    && b[idx[k]] == a[k] by {
                    assert(b[idx[k]] == b0[idx[k]]);
                }
            }
        } else {
            assert(picks_subsequence(a, b, idx));
        }
        if fewer.len() == 0 {
            assert(!fewer.contains(x));
        }
    }
}

/// A positive title scores `1` and a negative one `-1`.
pub proof fn lemma_sentiment_scores(p: Polarity)
    ensures
        polarity_score(p) == (if p == Polarity::Positive {
            1i8
        } else {
            -1i8
        }),
        polarity_score(p) == 1 || polarity_score(p) == -1,
{
}

/// When every candidate is an available ticker, all candidates are kept, in
/// order and with their repetitions.
pub proof fn lemma_all_available_keeps_candidates(candidates: Seq<Seq<char>>, available: Seq<Seq<char>>)
    requires
        forall|i: int| 0 <= i < candidates.len() ==> available.contains(#[trigger] candidates[i]),
    ensures
        available_only(candidates, available) == candidates,
    decreases candidates.len(),
{
    if candidates.len() > 0 {
        let prefix = candidates.drop_last();
        assert forall|i: int| 0 <= i < prefix.len() implies available.contains(#[trigger] prefix[i]) by {
            assert(prefix[i] == candidates[i]);
        }
        lemma_all_available_keeps_candidates(prefix, available);
        assert(available.contains(candidates[candidates.len() - 1]));
        assert(prefix.push(candidates.last()) =~= candidates);
    }
}

/// Every selected title names a ticker; titles that all name a ticker are
/// all selected, in order, and titles that name none are all dropped.
pub proof fn lemma_selected_titles(titles: Seq<Title>)
    ensures
        forall|i: int|
            0 <= i < with_tickers(titles).len() ==> #[trigger] with_tickers(titles)[i].tickers@.len() > 0,
        (forall|i: int| 0 <= i < titles.len() ==> #[trigger] titles[i].tickers@.len() > 0)
            ==> with_tickers(titles) == titles,
        (forall|i: int| 0 <= i < titles.len() ==> #[trigger] titles[i].tickers@.len() == 0)
            ==> with_tickers(titles).len() == 0,
    decreases titles.len(),
{
    if titles.len() > 0 {
        let prefix = titles.drop_last();
        lemma_selected_titles(prefix);
        let rest = with_tickers(prefix);
        assert(titles[titles.len() - 1] == titles.last());
        assert forall|i: int|
            0 <= i < with_tickers(titles).len() implies #[trigger] with_tickers(titles)[i].tickers@.len() > 0 by {
            if i < rest.len() {
                assert(with_tickers(titles)[i] == rest[i]);
            }
        }
        if forall|i: int| 0 <= i < titles.len() ==> #[trigger] titles[i].tickers@.len() > 0 {
            assert forall|i: int| 0 <= i < prefix.len() implies #[trigger] prefix[i].tickers@.len() > 0 by {
                assert(prefix[i] == titles[i]);
            }
            assert(prefix.push(titles.last()) =~= titles);
        }
        if forall|i: int| 0 <= i < titles.len() ==> #[trigger] titles[i].tickers@.len() == 0 {
            assert forall|i: int| 0 <= i < prefix.len() implies #[trigger] prefix[i].tickers@.len() == 0 by {
                assert(prefix[i] == titles[i]);
            }
        }
    }
}

/// The entries come in the order of first mention: the ticker of an earlier
/// entry is mentioned before the ticker of any later entry is first mentioned.
pub proof fn lemma_entries_in_order_of_first_mention(ms: Seq<Mention>, i: int, j: int)
    requires
        0 <= i < j < first_mentioned(ms).len(),
    ensures
        exists|p: int|
            0 <= p < ms.len() && ms[p].0 == first_mentioned(ms)[i] && forall|q: int|
                0 <= q <= p ==> #[trigger] ms[q].0 != first_mentioned(ms)[j],
    decreases ms.len(),
{
    let d = ms.drop_last();
    let fd = first_mentioned(d);
    let f = first_mentioned(ms);
    if j < fd.len() {
        assert(f[i] == fd[i] && f[j] == fd[j]) by {
            if !fd.contains(ms.last().0) {
                assert(fd.push(ms.last().0)[i] == fd[i]);
                assert(fd.push(ms.last().0)[j] == fd[j]);
            }
        }
        lemma_entries_in_order_of_first_mention(d, i, j);
        let p = choose|p: int|
            0 <= p < d.len() && d[p].0 == fd[i] && forall|q: int| 0 <= q <= p ==> #[trigger] d[q].0 != fd[j];
        assert(ms[p] == d[p]);
        assert forall|q: int| 0 <= q <= p implies #[trigger] ms[q].0 != f[j] by {
            assert(ms[q] == d[q]);
        }
    } else {
        assert(!fd.contains(ms.last().0));
        assert(f == fd.push(ms.last().0));
        assert(f[j] == ms.last().0);
        assert(f[i] == fd[i]);
        lemma_first_mentioned_contains(d, fd[i]);
        assert(fd.contains(fd[i]));
        let p = choose|p: int| 0 <= p < d.len() && d[p].0 == fd[i];
        lemma_first_mentioned_contains(d, ms.last().0);
        assert(ms[p] == d[p]);
        assert forall|q: int| 0 <= q <= p implies #[trigger] ms[q].0 != f[j] by {
            assert(ms[q] == d[q]);
        }
    }
}

proof fn lemma_single_ticker_mentions(titles: Seq<Title>, t: Seq<char>)
    requires
        forall|i: int| 0 <= i < titles.len() ==> #[trigger] titles[i].tickers.deep_view() == seq![t],
    ensures
        mentions(titles) == titles.map_values(|x: Title| (t, x.title@, x.sentiment)),
    decreases titles.len(),
{
    if titles.len() > 0 {
        let prefix = titles.drop_last();
        assert forall|i: int| 0 <= i < prefix.len() implies #[trigger] prefix[i].tickers.deep_view() == seq![t] by {
            assert(prefix[i] == titles[i]);
        }
        lemma_single_ticker_mentions(prefix, t);
        let last = titles.last();
        assert(titles[titles.len() - 1] == last);
        assert(title_mentions(last) =~= seq![(t, last.title@, last.sentiment)]);
        assert(mentions(titles) =~= titles.map_values(|x: Title| (t, x.title@, x.sentiment)));
    }
}

proof fn lemma_all_mentions_of(ms: Seq<Mention>, t: Seq<char>)
    requires
        forall|p: int| 0 <= p < ms.len() ==> #[trigger] ms[p].0 == t,
    ensures
        mentions_of(ms, t) == ms,
        ms.len() > 0 ==> first_mentioned(ms) == seq![t],
    decreases ms.len(),
{
    if ms.len() > 0 {
        let d = ms.drop_last();
        assert forall|p: int| 0 <= p < d.len() implies #[trigger] d[p].0 == t by {
            assert(d[p] == ms[p]);
        }
        lemma_all_mentions_of(d, t);
        assert(ms[ms.len() - 1] == ms.last());
        assert(d.push(ms.last()) =~= ms);
        if d.len() > 0 {
            assert(first_mentioned(d).contains(t)) by {
                assert(first_mentioned(d)[0] == t);
            }
        } else {
            assert(first_mentioned(d) =~= Seq::<Seq<char>>::empty());
            assert(first_mentioned(ms) =~= seq![t]);
        }
    }
}

/// When every title names the one ticker `t`, there is one entry, for `t`,
/// listing every title and its sentiment in the order of the titles.
pub proof fn lemma_single_ticker_titles(
    titles: Seq<Title>,
    t: Seq<char>,
    metrics: Seq<Metrics>,
    table: Map<Seq<char>, TickerData>,
)
    requires
        titles.len() > 0,
        forall|i: int| 0 <= i < titles.len() ==> #[trigger] titles[i].tickers.deep_view() == seq![t],
        summarizes(metrics, mentions(titles), table),
    ensures
        metrics.len() == 1,
        metrics[0].ticker@ == t,
        metrics[0].occurrences == titles.len(),
        metrics[0].titles_with_ticker.deep_view() == titles.map_values(|x: Title| x.title@),
        metrics[0].sentiments@ == titles.map_values(|x: Title| x.sentiment),
{
    let ms = mentions(titles);
    lemma_single_ticker_mentions(titles, t);
    assert forall|p: int| 0 <= p < ms.len() implies #[trigger] ms[p].0 == t by {
        assert(ms[p] == (t, titles[p].title@, titles[p].sentiment));
    }
    lemma_all_mentions_of(ms, t);
    assert(describes(metrics[0], ms, first_mentioned(ms)[0], table));
    assert(ms.map_values(|x: Mention| x.1) =~= titles.map_values(|x: Title| x.title@));
    assert(ms.map_values(|x: Mention| x.2) =~= titles.map_values(|x: Title| x.sentiment));
}

/// A blank record has every one of its eleven fields empty.
pub proof fn lemma_blank_record(d: TickerData)
    requires
        is_blank(d),
    ensures
        d.symbol@.len() == 0 && d.company_name@.len() == 0 && d.last_sale@.len() == 0
            && d.net_change@.len() == 0 && d.net_percent_change@.len() == 0
            && d.market_capitalization@.len() == 0 && d.country@.len() == 0 && d.ipo_year@.len() == 0
            && d.volume@.len() == 0 && d.sector@.len() == 0 && d.industry@.len() == 0,
{
}

} // verus!
