//! Counting how many post titles mention each ticker, by plain text search.

use vstd::prelude::*;
use vstd::utf8::encode_utf8;
use crate::reddit::{RedditContainer, RedditPost, post_titles};
use crate::permutation::lemma_additive_ignores_order;
use crate::tickers::{
    TickerListError, all_records_nonempty, csv_records, distinct_in_order, first_fields,
    lemma_distinct_in_order, read_csv_records, records_nonempty,
};

verus! {

/// `pattern` occurs in `text` at byte offset `i`.
pub open spec fn occurs_at(text: Seq<u8>, pattern: Seq<u8>, i: int) -> bool {
    0 <= i && i + pattern.len() <= text.len() && text.subrange(i, i + pattern.len()) == pattern
}

/// `pattern` occurs somewhere in `text`.
pub open spec fn occurs_in(text: Seq<u8>, pattern: Seq<u8>) -> bool {
    exists|i: int| occurs_at(text, pattern, i)
}

/// `twoway::find_str`: the byte offset of the first occurrence of `pattern`
/// in `text` (in their UTF-8 encodings), or `None` when it does not occur.
#[verifier::external_body]
fn find_str(text: &str, pattern: &str) -> (r: Option<usize>)
    ensures
        match r {
            Some(i) => occurs_at(encode_utf8(text@), encode_utf8(pattern@), i as int) && forall|
                j: int,
            | 0 <= j < i ==> !occurs_at(encode_utf8(text@), encode_utf8(pattern@), j),
            None => !occurs_in(encode_utf8(text@), encode_utf8(pattern@)),
        },
{
    twoway::find_str(text, pattern)
}

/// Whether `text` contains `pattern`.
fn contains_text(text: &str, pattern: &str) -> (r: bool)
    ensures
        r == occurs_in(encode_utf8(text@), encode_utf8(pattern@)),
{
    match find_str(text, pattern) {
        Some(i) => {
            assert(occurs_at(encode_utf8(text@), encode_utf8(pattern@), i as int));
            true
        },
        None => false,
    }
}

/// A title mentions a ticker when it contains the ticker followed by a
/// space, preceded by a space, surrounded by spaces, or preceded by `$`.
pub open spec fn title_mentions_ticker(title: Seq<char>, ticker: Seq<char>) -> bool {
    let text = encode_utf8(title);
    ||| occurs_in(text, encode_utf8(ticker + seq![' ']))
    ||| occurs_in(text, encode_utf8(seq![' '] + ticker))
    ||| occurs_in(text, encode_utf8(seq![' '] + ticker + seq![' ']))
    ||| occurs_in(text, encode_utf8(seq!['$'] + ticker))
}

/// Number of titles that mention the ticker.
pub open spec fn titles_mentioning(titles: Seq<Seq<char>>, ticker: Seq<char>) -> int
    decreases titles.len(),
{
    if titles.len() == 0 {
        0
    } else {
        titles_mentioning(titles.drop_last(), ticker) + if title_mentions_ticker(
            titles.last(),
            ticker,
        ) {
            1int
        } else {
            0int
        }
    }
}

/// For each ticker, once and in the order of the list, the number of titles
/// that mention it, leaving out the tickers no title mentions.
pub open spec fn mention_counts(titles: Seq<Seq<char>>, tickers: Seq<Seq<char>>) -> Seq<
    (Seq<char>, int),
>
    decreases tickers.len(),
{
    if tickers.len() == 0 {
        Seq::empty()
    } else {
        let rest = mention_counts(titles, tickers.drop_last());
        let t = tickers.last();
        if titles_mentioning(titles, t) > 0 {
            rest.push((t, titles_mentioning(titles, t)))
        } else {
            rest
        }
    }
}

proof fn lemma_titles_mentioning_bound(titles: Seq<Seq<char>>, ticker: Seq<char>)
    ensures
        0 <= titles_mentioning(titles, ticker) <= titles.len(),
    decreases titles.len(),
{
    if titles.len() > 0 {
        lemma_titles_mentioning_bound(titles.drop_last(), ticker);
    }
}

/// Whether the title mentions the ticker.
fn mentions_ticker(title: &String, ticker: &String) -> (r: bool)
    ensures
        r == title_mentions_ticker(title@, ticker@),
{
    let space = String::from_str(" ");
    let dollar = String::from_str("$");
    proof {
        reveal_strlit(" ");
        reveal_strlit("$");
    }
    let mut after = ticker.clone();
    after.append(space.as_str());
    let mut before = space.clone();
    before.append(ticker.as_str());
    let mut around = before.clone();
    around.append(space.as_str());
    let mut quoted = dollar;
    quoted.append(ticker.as_str());
    assert(after@ == ticker@ + seq![' ']);
    assert(before@ == seq![' '] + ticker@);
    assert(around@ == seq![' '] + ticker@ + seq![' ']);
    assert(quoted@ == seq!['$'] + ticker@);
    let text = title.as_str();
    // Found at start of line, at end of line, in the middle of the line, or as `$TICKER`.
    let start = contains_text(text, after.as_str());
    let end = contains_text(text, before.as_str());
    let middle = contains_text(text, around.as_str());
    let cashtag = contains_text(text, quoted.as_str());
    start || end || middle || cashtag
}

/// Counts, for each ticker, the posts whose title mentions it; a ticker that
/// is listed twice is counted once per title, and tickers no title mentions
/// are left out.
pub fn get_metrics_for_tickers(posts: Vec<RedditContainer<RedditPost>>, tickers: Vec<String>) -> (counts: Vec<(String, i32)>)
    requires
        posts.len() <= i32::MAX,
    ensures
        counts@.map_values(|e: (String, i32)| (e.0@, e.1 as int)) == mention_counts(
            post_titles(posts@),
            distinct_in_order(tickers.deep_view()),
        ),
{
    let ghost titles = post_titles(posts@);
    let distinct = distinct_tickers(&tickers);
    let ghost ds = distinct.deep_view();
    let mut found: Vec<i32> = Vec::new();
    let mut k: usize = 0;
    while k < distinct.len()
        invariant
            k <= distinct.len(),
            found@.len() == k,
            forall|q: int| 0 <= q < k ==> found@[q] == 0,
        decreases distinct.len() - k,
    {
        found.push(0);
        k = k + 1;
    }
    let mut i: usize = 0;
    while i < posts.len()
        invariant
            i <= posts.len(),
            posts.len() <= i32::MAX,
            titles == post_titles(posts@),
            ds == distinct.deep_view(),
            found@.len() == distinct.len(),
            forall|q: int|
                0 <= q < found@.len() ==> #[trigger] found@[q] == titles_mentioning(
                    titles.take(i as int),
                    ds[q],
                ),
        decreases posts.len() - i,
    {
        let title = &posts[i].data.title;
        proof {
            assert(titles.take(i + 1).drop_last() =~= titles.take(i as int));
            assert(titles[i as int] == title@);
        }
        let mut q: usize = 0;
        while q < distinct.len()
            invariant
                q <= distinct.len(),
                i < posts.len(),
                posts.len() <= i32::MAX,
                titles == post_titles(posts@),
                titles.take(i + 1).drop_last() == titles.take(i as int),
                titles.take(i + 1).last() == title@,
                ds == distinct.deep_view(),
                found@.len() == distinct.len(),
                forall|r: int|
                    0 <= r < q ==> #[trigger] found@[r] == titles_mentioning(
                        titles.take(i + 1),
                        ds[r],
                    ),
                forall|r: int|
                    q <= r < found@.len() ==> #[trigger] found@[r] == titles_mentioning(
                        titles.take(i as int),
                        ds[r],
                    ),
            decreases distinct.len() - q,
        {
            proof {
                lemma_titles_mentioning_bound(titles.take(i as int), ds[q as int]);
            }
            if mentions_ticker(title, &distinct[q]) {
                let c = found[q];
                found.set(q, c + 1);
            }
            q = q + 1;
        }
        i = i + 1;
    }
    assert(titles.take(posts.len() as int) =~= titles);
    let mut counts: Vec<(String, i32)> = Vec::new();
    let mut k: usize = 0;
    while k < distinct.len()
        invariant
            k <= distinct.len(),
            ds == distinct.deep_view(),
            found@.len() == distinct.len(),
            forall|q: int| 0 <= q < found@.len() ==> #[trigger] found@[q] == titles_mentioning(titles, ds[q]),
            counts@.map_values(|e: (String, i32)| (e.0@, e.1 as int)) == mention_counts(
                titles,
                ds.take(k as int),
            ),
        decreases distinct.len() - k,
    {
        proof {
            assert(ds.take(k + 1).drop_last() =~= ds.take(k as int));
        }
        if found[k] > 0 {
            let ghost before = counts@;
            counts.push((distinct[k].clone(), found[k]));
            assert(counts@.map_values(|e: (String, i32)| (e.0@, e.1 as int)) =~= before.map_values(
                |e: (String, i32)| (e.0@, e.1 as int),
            ).push((ds[k as int], titles_mentioning(titles, ds[k as int]))));
        }
        k = k + 1;
    }
    assert(ds.take(distinct.len() as int) =~= ds);
    counts
}

/// The tickers of the list, each once, in the order of their first occurrence.
pub fn distinct_tickers(tickers: &Vec<String>) -> (distinct: Vec<String>)
    ensures
        distinct.deep_view() == distinct_in_order(tickers.deep_view()),
{
    let ghost all = tickers.deep_view();
    let mut distinct: Vec<String> = Vec::new();
    let mut i: usize = 0;
    while i < tickers.len()
        invariant
            i <= tickers.len(),
            all == tickers.deep_view(),
            distinct.deep_view() == distinct_in_order(all.take(i as int)),
        decreases tickers.len() - i,
    {
        proof {
            assert(all.take(i + 1).drop_last() =~= all.take(i as int));
        }
        if !crate::metrics::contains_string(&distinct, &tickers[i]) {
            distinct.push(tickers[i].clone());
            assert(distinct.deep_view() =~= distinct_in_order(all.take(i + 1)));
        }
        i = i + 1;
    }
    assert(all.take(tickers.len() as int) =~= all);
    distinct
}

/// The tickers always added to the list read from the exchange's table.
pub open spec fn extra_tickers() -> Seq<Seq<char>> {
    seq![seq!['G', 'M', 'E'], seq!['B', 'B'], seq!['P', 'L', 'T', 'R']]
}

/// The tickers of the company list `data` (CSV with a header row): the first
/// field of each record, in order, followed by `GME`, `BB` and `PLTR`; an
/// error when the data does not parse. Every record of data that parses
/// must have a field.
pub fn get_tickers_nasdaq(data: &[u8]) -> (r: Result<Vec<String>, TickerListError>)
    requires
        csv_records(data@) matches Some(rows) ==> all_records_nonempty(rows),
    ensures
        match r {
            Ok(tickers) => csv_records(data@) matches Some(rows) && tickers.deep_view()
                == first_fields(rows) + extra_tickers(),
            Err(TickerListError::Csv(_)) => csv_records(data@) is None,
            Err(TickerListError::EmptyRecord) => false,
        },
{
    match read_csv_records(data) {
        Err(e) => Err(TickerListError::Csv(e)),
        Ok(records) => Ok(tickers_with_extras(&records)),
    }
}

/// Like `get_tickers_nasdaq`, with no demand on the data: a record with no
/// field gives `EmptyRecord`.
pub fn try_get_tickers_nasdaq(data: &[u8]) -> (r: Result<Vec<String>, TickerListError>)
    ensures
        match r {
            Ok(tickers) => csv_records(data@) matches Some(rows) && all_records_nonempty(rows)
                && tickers.deep_view() == first_fields(rows) + extra_tickers(),
            Err(TickerListError::Csv(_)) => csv_records(data@) is None,
            Err(TickerListError::EmptyRecord) => csv_records(data@) matches Some(rows)
                && !all_records_nonempty(rows),
        },
{
    match read_csv_records(data) {
        Err(e) => Err(TickerListError::Csv(e)),
        Ok(records) => {
            if records_nonempty(&records) {
                get_tickers_nasdaq(data)
            } else {
                Err(TickerListError::EmptyRecord)
            }
        },
    }
}

/// Each ticker appears once among the counts, only listed tickers appear,
/// a listed ticker appears exactly when some title mentions it, and a count
/// is at least one and at most the number of titles.
pub proof fn lemma_mention_counts_shape(titles: Seq<Seq<char>>, tickers: Seq<Seq<char>>, t: Seq<char>)
    requires
        tickers.no_duplicates(),
    ensures
        forall|i: int, j: int|
            0 <= i < j < mention_counts(titles, tickers).len() ==> mention_counts(titles, tickers)[i].0
                != mention_counts(titles, tickers)[j].0,
        forall|i: int|
            0 <= i < mention_counts(titles, tickers).len() ==> {
                let e = #[trigger] mention_counts(titles, tickers)[i];
                &&& tickers.contains(e.0)
                &&& e.1 == titles_mentioning(titles, e.0)
                &&& 1 <= e.1 <= titles.len()
            },
        (exists|i: int|
            0 <= i < mention_counts(titles, tickers).len() && mention_counts(titles, tickers)[i].0
                == t) <==> (tickers.contains(t) && titles_mentioning(titles, t) > 0),
    decreases tickers.len(),
{
    if tickers.len() > 0 {
        let prefix = tickers.drop_last();
        let last = tickers.last();
        let rest = mention_counts(titles, prefix);
        let all = mention_counts(titles, tickers);
        assert(prefix.no_duplicates());
        lemma_mention_counts_shape(titles, prefix, t);
        lemma_mention_counts_shape(titles, prefix, last);
        lemma_titles_mentioning_bound(titles, last);
        assert(!prefix.contains(last));
        assert forall|i: int| 0 <= i < rest.len() implies #[trigger] prefix.contains(rest[i].0) by {
            let e = rest[i];
            assert(prefix.contains(e.0));
        }
        assert forall|i: int| 0 <= i < all.len() implies {
            let e = #[trigger] all[i];
            &&& tickers.contains(e.0)
            &&& e.1 == titles_mentioning(titles, e.0)
            &&& 1 <= e.1 <= titles.len()
        } by {
            if i < rest.len() {
                assert(all[i] == rest[i]);
                let e = rest[i];
                assert(prefix.contains(e.0));
                let k = choose|k: int| 0 <= k < prefix.len() && prefix[k] == e.0;
                assert(tickers[k] == e.0);
            } else {
                assert(tickers[tickers.len() - 1] == last);
            }
        }
        assert forall|i: int, j: int| 0 <= i < j < all.len() implies all[i].0 != all[j].0 by {
            if j < rest.len() {
                assert(all[i] == rest[i] && all[j] == rest[j]);
            } else if i < rest.len() {
                assert(all[i] == rest[i]);
                assert(prefix.contains(rest[i].0));
            }
        }
        if tickers.contains(t) && titles_mentioning(titles, t) > 0 {
            if t == last {
                assert(all[all.len() - 1].0 == t);
            } else {
                let k = choose|k: int| 0 <= k < tickers.len() && tickers[k] == t;
                assert(prefix[k] == t);
                let i = choose|i: int| 0 <= i < rest.len() && rest[i].0 == t;
                assert(all[i] == rest[i]);
            }
        }
        if exists|i: int| 0 <= i < all.len() && all[i].0 == t {
            let i = choose|i: int| 0 <= i < all.len() && all[i].0 == t;
            assert(tickers.contains(all[i].0));
        }
    }
}

/// The count given for `ticker` among `counts`, or `0` when it has none.
pub open spec fn count_of(counts: Seq<(Seq<char>, int)>, ticker: Seq<char>) -> int
    decreases counts.len(),
{
    if counts.len() == 0 {
        0
    } else if counts.last().0 == ticker {
        counts.last().1
    } else {
        count_of(counts.drop_last(), ticker)
    }
}

/// `ticker` has a count among `counts`.
pub open spec fn has_count(counts: Seq<(Seq<char>, int)>, ticker: Seq<char>) -> bool {
    exists|i: int| 0 <= i < counts.len() && counts[i].0 == ticker
}

/// The counts of posts whose titles are `titles`, for the ticker list `tickers`.
pub open spec fn counts_for(titles: Seq<Seq<char>>, tickers: Seq<Seq<char>>) -> Seq<(Seq<char>, int)> {
    mention_counts(titles, distinct_in_order(tickers))
}

proof fn lemma_mention_counts_lookup(titles: Seq<Seq<char>>, tickers: Seq<Seq<char>>, t: Seq<char>)
    requires
        tickers.no_duplicates(),
    ensures
        count_of(mention_counts(titles, tickers), t) == if tickers.contains(t) {
            titles_mentioning(titles, t)
        } else {
            0
        },
    decreases tickers.len(),
{
    if tickers.len() > 0 {
        let prefix = tickers.drop_last();
        let last = tickers.last();
        assert(prefix.no_duplicates());
        lemma_mention_counts_lookup(titles, prefix, t);
        lemma_titles_mentioning_bound(titles, t);
        let rest = mention_counts(titles, prefix);
        let e = (last, titles_mentioning(titles, last));
        assert(rest.push(e).drop_last() =~= rest);
        assert(rest.push(e).last() == e);
        assert(tickers[tickers.len() - 1] == last);
        if last == t {
            assert(!prefix.contains(t));
        } else {
            if prefix.contains(t) {
                let k = choose|k: int| 0 <= k < prefix.len() && prefix[k] == t;
                assert(tickers[k] == t);
            }
            if tickers.contains(t) {
                let k = choose|k: int| 0 <= k < tickers.len() && tickers[k] == t;
                assert(prefix[k] == t);
            }
        }
    }
}

/// The count of a ticker is the number of titles that mention it when it is
/// listed, and `0` otherwise; it has a count exactly when that number is positive.
pub proof fn lemma_counts_for_lookup(titles: Seq<Seq<char>>, tickers: Seq<Seq<char>>, t: Seq<char>)
    ensures
        count_of(counts_for(titles, tickers), t) == if tickers.contains(t) {
            titles_mentioning(titles, t)
        } else {
            0
        },
        has_count(counts_for(titles, tickers), t) <==> count_of(counts_for(titles, tickers), t) > 0,
{
    let d = distinct_in_order(tickers);
    lemma_distinct_in_order(tickers);
    lemma_mention_counts_lookup(titles, d, t);
    lemma_mention_counts_shape(titles, d, t);
    lemma_titles_mentioning_bound(titles, t);
}

pub proof fn lemma_titles_mentioning_concat(a: Seq<Seq<char>>, b: Seq<Seq<char>>, t: Seq<char>)
    ensures
        titles_mentioning(a + b, t) == titles_mentioning(a, t) + titles_mentioning(b, t),
    decreases b.len(),
{
    if b.len() == 0 {
        assert(a + b =~= a);
    } else {
        assert((a + b).drop_last() =~= a + b.drop_last());
        lemma_titles_mentioning_concat(a, b.drop_last(), t);
    }
}

/// Counting the posts of two lists joined together gives, for each ticker,
/// the sum of the counts of each list, and a ticker has a count exactly when
/// it has one for either list; no posts give no counts.
pub proof fn lemma_counts_of_joined_posts(
    posts1: Seq<RedditContainer<RedditPost>>,
    posts2: Seq<RedditContainer<RedditPost>>,
    tickers: Seq<Seq<char>>,
    t: Seq<char>,
)
    ensures
        count_of(counts_for(post_titles(posts1 + posts2), tickers), t) == count_of(
            counts_for(post_titles(posts1), tickers),
            t,
        ) + count_of(counts_for(post_titles(posts2), tickers), t),
        has_count(counts_for(post_titles(posts1 + posts2), tickers), t) <==> (has_count(
            counts_for(post_titles(posts1), tickers),
            t,
        ) || has_count(counts_for(post_titles(posts2), tickers), t)),
        counts_for(post_titles(Seq::<RedditContainer<RedditPost>>::empty()), tickers).len() == 0,
{
    let joined = post_titles(posts1 + posts2);
    assert(joined =~= post_titles(posts1) + post_titles(posts2));
    lemma_titles_mentioning_concat(post_titles(posts1), post_titles(posts2), t);
    lemma_counts_for_lookup(joined, tickers, t);
    lemma_counts_for_lookup(post_titles(posts1), tickers, t);
    lemma_counts_for_lookup(post_titles(posts2), tickers, t);
    lemma_titles_mentioning_bound(post_titles(posts1), t);
    lemma_titles_mentioning_bound(post_titles(posts2), t);
    lemma_empty_titles_no_counts(tickers);
}

proof fn lemma_empty_titles_no_counts(tickers: Seq<Seq<char>>)
    ensures
        counts_for(post_titles(Seq::<RedditContainer<RedditPost>>::empty()), tickers).len() == 0,
{
    let titles = post_titles(Seq::<RedditContainer<RedditPost>>::empty());
    assert(titles =~= Seq::<Seq<char>>::empty());
    lemma_no_titles_no_counts(distinct_in_order(tickers));
}

proof fn lemma_no_titles_no_counts(tickers: Seq<Seq<char>>)
    ensures
        mention_counts(Seq::<Seq<char>>::empty(), tickers).len() == 0,
    decreases tickers.len(),
{
    if tickers.len() > 0 {
        lemma_no_titles_no_counts(tickers.drop_last());
    }
}

/// The counts do not depend on the order of the posts, nor on the order or
/// the repetitions of the tickers: only the order of the pairs can change.
pub proof fn lemma_counts_ignore_order(
    posts1: Seq<RedditContainer<RedditPost>>,
    posts2: Seq<RedditContainer<RedditPost>>,
    tickers1: Seq<Seq<char>>,
    tickers2: Seq<Seq<char>>,
    t: Seq<char>,
)
    requires
        post_titles(posts1).to_multiset() == post_titles(posts2).to_multiset(),
        forall|x: Seq<char>| tickers1.contains(x) <==> tickers2.contains(x),
    ensures
        count_of(counts_for(post_titles(posts1), tickers1), t) == count_of(
            counts_for(post_titles(posts2), tickers2),
            t,
        ),
        has_count(counts_for(post_titles(posts1), tickers1), t) <==> has_count(
            counts_for(post_titles(posts2), tickers2),
            t,
        ),
{
    let f = |s: Seq<Seq<char>>| titles_mentioning(s, t);
    assert forall|a: Seq<Seq<char>>, b: Seq<Seq<char>>| #[trigger] f(a + b) == f(a) + f(b) by {
        lemma_titles_mentioning_concat(a, b, t);
    }
    lemma_additive_ignores_order(f, post_titles(posts1), post_titles(posts2));
    lemma_counts_for_lookup(post_titles(posts1), tickers1, t);
    lemma_counts_for_lookup(post_titles(posts2), tickers2, t);
}

/// The company list's tickers: the first field of each record, in order,
/// followed by `GME`, `BB` and `PLTR`.
pub fn tickers_with_extras(records: &Vec<Vec<String>>) -> (tickers: Vec<String>)
    requires
        all_records_nonempty(records.deep_view()),
    ensures
        tickers.deep_view() == first_fields(records.deep_view()) + extra_tickers(),
{
    let ghost firsts = first_fields(records.deep_view());
    let mut tickers: Vec<String> = Vec::new();
    let mut i: usize = 0;
    while i < records.len()
        invariant
            i <= records.len(),
            firsts == first_fields(records.deep_view()),
            all_records_nonempty(records.deep_view()),
            tickers.len() == i,
            tickers.deep_view() == firsts.take(i as int),
        decreases records.len() - i,
    {
        assert(records.deep_view()[i as int].len() > 0);
        assert(records@[i as int].len() > 0);
        assert(firsts[i as int] == records@[i as int]@[0]@);
        tickers.push(records[i][0].clone());
        assert(tickers.deep_view() =~= firsts.take(i + 1));
        i = i + 1;
    }
    assert(firsts.take(records.len() as int) =~= firsts);
    let gme = String::from_str("GME");
    let bb = String::from_str("BB");
    let pltr = String::from_str("PLTR");
    proof {
        reveal_strlit("GME");
        reveal_strlit("BB");
        reveal_strlit("PLTR");
    }
    let ghost listed = tickers.deep_view();
    let ghost n = tickers.len();
    tickers.push(gme);
    tickers.push(bb);
    tickers.push(pltr);
    assert(tickers@[n as int]@ == seq!['G', 'M', 'E']);
    assert(tickers@[n + 1]@ == seq!['B', 'B']);
    assert(tickers@[n + 2]@ == seq!['P', 'L', 'T', 'R']);
    assert(tickers.deep_view() =~= listed + extra_tickers());
    tickers
}

proof fn lemma_titles_mentioning_positive(titles: Seq<Seq<char>>, t: Seq<char>, i: int)
    requires
        0 <= i < titles.len(),
        title_mentions_ticker(titles[i], t),
    ensures
        titles_mentioning(titles, t) >= 1,
    decreases titles.len(),
{
    let prefix = titles.drop_last();
    lemma_titles_mentioning_bound(prefix, t);
    if i < titles.len() - 1 {
        assert(prefix[i] == titles[i]);
        lemma_titles_mentioning_positive(prefix, t, i);
    }
}

proof fn lemma_titles_mentioning_zero(titles: Seq<Seq<char>>, t: Seq<char>)
    requires
        forall|i: int| 0 <= i < titles.len() ==> !title_mentions_ticker(#[trigger] titles[i], t),
    ensures
        titles_mentioning(titles, t) == 0,
    decreases titles.len(),
{
    if titles.len() > 0 {
        let prefix = titles.drop_last();
        assert forall|i: int| 0 <= i < prefix.len() implies !title_mentions_ticker(
            #[trigger] prefix[i],
            t,
        ) by {
            assert(prefix[i] == titles[i]);
        }
        lemma_titles_mentioning_zero(prefix, t);
        assert(titles[titles.len() - 1] == titles.last());
    }
}

/// A listed ticker is counted for every title that contains, as text, the
/// ticker followed by a space, a space followed by the ticker, the ticker
/// between spaces, or `$` followed by the ticker; a title counts once. A
/// ticker that no title contains in one of these four ways, or that is not
/// listed, gets no count.
pub proof fn lemma_counted_title_patterns(titles: Seq<Seq<char>>, tickers: Seq<Seq<char>>, t: Seq<char>, i: int)
    requires
        0 <= i < titles.len(),
    ensures
        tickers.contains(t) && occurs_in(encode_utf8(titles[i]), encode_utf8(t + seq![' ']))
            ==> count_of(counts_for(titles, tickers), t) >= 1,
        tickers.contains(t) && occurs_in(encode_utf8(titles[i]), encode_utf8(seq![' '] + t))
            ==> count_of(counts_for(titles, tickers), t) >= 1,
        tickers.contains(t) && occurs_in(encode_utf8(titles[i]), encode_utf8(seq![' '] + t + seq![' ']))
            ==> count_of(counts_for(titles, tickers), t) >= 1,
        tickers.contains(t) && occurs_in(encode_utf8(titles[i]), encode_utf8(seq!['$'] + t))
            ==> count_of(counts_for(titles, tickers), t) >= 1,
        tickers.contains(t) && (occurs_in(encode_utf8(titles[i]), encode_utf8(t + seq![' ']))
            || occurs_in(encode_utf8(titles[i]), encode_utf8(seq![' '] + t)) || occurs_in(
            encode_utf8(titles[i]),
            encode_utf8(seq!['$'] + t),
        )) ==> count_of(counts_for(seq![titles[i]], tickers), t) == 1,
        count_of(counts_for(titles, tickers), t) <= titles.len(),
        (!tickers.contains(t) || forall|k: int|
            0 <= k < titles.len() ==> !occurs_in(encode_utf8(#[trigger] titles[k]), encode_utf8(t + seq![' ']))
                && !occurs_in(encode_utf8(titles[k]), encode_utf8(seq![' '] + t)) && !occurs_in(
                encode_utf8(titles[k]),
                encode_utf8(seq![' '] + t + seq![' ']),
            ) && !occurs_in(encode_utf8(titles[k]), encode_utf8(seq!['$'] + t))) ==> count_of(
            counts_for(titles, tickers),
            t,
        ) == 0 && !has_count(counts_for(titles, tickers), t),
{
    lemma_counts_for_lookup(titles, tickers, t);
    lemma_counts_for_lookup(seq![titles[i]], tickers, t);
    lemma_titles_mentioning_bound(titles, t);
    if title_mentions_ticker(titles[i], t) {
        lemma_titles_mentioning_positive(titles, t, i);
        let one = seq![titles[i]];
        assert(one.drop_last() =~= Seq::<Seq<char>>::empty());
        assert(one.last() == titles[i]);
        assert(titles_mentioning(Seq::<Seq<char>>::empty(), t) == 0);
        assert(titles_mentioning(one, t) == 1);
    }
    if forall|k: int|
        0 <= k < titles.len() ==> !occurs_in(encode_utf8(#[trigger] titles[k]), encode_utf8(t + seq![' ']))
            && !occurs_in(encode_utf8(titles[k]), encode_utf8(seq![' '] + t)) && !occurs_in(
            encode_utf8(titles[k]),
            encode_utf8(seq![' '] + t + seq![' ']),
        ) && !occurs_in(encode_utf8(titles[k]), encode_utf8(seq!['$'] + t)) {
        lemma_titles_mentioning_zero(titles, t);
    }
}

/// The tickers added to every company list are `GME`, `BB` and `PLTR`, in that order.
pub proof fn lemma_extra_tickers()
    ensures
        extra_tickers().len() == 3,
        extra_tickers()[0] == seq!['G', 'M', 'E'],
        extra_tickers()[1] == seq!['B', 'B'],
        extra_tickers()[2] == seq!['P', 'L', 'T', 'R'],
{
}

/// A text contains every piece it is built from, and never a pattern longer
/// than itself.
pub proof fn lemma_occurs_in(before: Seq<u8>, pattern: Seq<u8>, after: Seq<u8>, text: Seq<u8>)
    ensures
        occurs_in(before + pattern + after, pattern),
        occurs_in(text, pattern) ==> pattern.len() <= text.len(),
{
    let t = before + pattern + after;
    assert(t.subrange(before.len() as int, (before.len() + pattern.len()) as int) =~= pattern);
    assert(occurs_at(t, pattern, before.len() as int));
}

} // verus!
