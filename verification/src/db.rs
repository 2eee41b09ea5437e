//! Rows of the reader's database and the decisions taken over them: which
//! query lists articles, which articles the clean-up removes, how a folder
//! name is stored.
use vstd::prelude::*;

use crate::text::{chars_of, contains_seq, occurs_at, push_all, same_char, string_of, trim, trim_chars};

verus! {

/// A subscribed feed, with its count of unread articles.
pub struct FeedRow {
    pub id: i64,
    pub url: String,
    pub title: String,
    pub site_url: Option<String>,
    pub folder: Option<String>,
    pub unread: i64,
    pub last_error: Option<String>,
}

/// An article as listed (no content).
pub struct ArticleRow {
    pub id: i64,
    pub feed_id: i64,
    pub feed_title: String,
    pub title: String,
    pub url: Option<String>,
    pub author: Option<String>,
    pub published_ms: Option<i64>,
    pub excerpt: String,
    pub read: bool,
    pub favorite: bool,
    pub later: bool,
}

/// An article as opened, with its HTML.
pub struct ArticleFull {
    pub id: i64,
    pub feed_id: i64,
    pub feed_title: String,
    pub title: String,
    pub url: Option<String>,
    pub author: Option<String>,
    pub published_ms: Option<i64>,
    pub content_html: Option<String>,
    pub read: bool,
    pub favorite: bool,
    pub later: bool,
}

/// Counts for the storage panel.
pub struct StorageCounts {
    pub articles: i64,
    /// Articles with cached readable content.
    pub cached: i64,
    pub favorites: i64,
    /// Marked to read later; like favorites, they survive the clean-up.
    pub later: i64,
}

/// The counts from the aggregate query: a sum over no rows (NULL) counts 0.
pub fn storage_counts_of(
    articles: i64,
    cached: i64,
    favorites: Option<i64>,
    later: Option<i64>,
) -> (r: StorageCounts)
    ensures
        r.articles == articles,
        r.cached == cached,
        r.favorites == (match favorites {
            Some(n) => n,
            None => 0,
        }),
        r.later == (match later {
            Some(n) => n,
            None => 0,
        }),
{
    StorageCounts {
        articles,
        cached,
        favorites: match favorites {
            Some(n) => n,
            None => 0,
        },
        later: match later {
            Some(n) => n,
            None => 0,
        },
    }
}

/// The folder as stored: trimmed, and none when nothing is left.
pub open spec fn spec_folder(folder: Option<Seq<char>>) -> Option<Seq<char>> {
    match folder {
        Some(f) => if trim(f).len() > 0 {
            Some(trim(f))
        } else {
            None
        },
        None => None,
    }
}

/// The folder to store for a feed (an empty name clears it).
pub fn normalize_folder(folder: Option<String>) -> (r: Option<String>)
    ensures
        crate::fetch::opt_view(r) == spec_folder(crate::fetch::opt_view(folder)),
{
    match folder {
        Some(f) => {
            let t = trim_chars(chars_of(f.as_str()).as_slice());
            if t.len() > 0 {
                Some(string_of(t.as_slice()))
            } else {
                None
            }
        },
        None => None,
    }
}

/// Which articles a list shows.
pub struct ArticleFilter {
    pub feed_id: Option<i64>,
    pub unread_only: bool,
    pub favorites_only: bool,
    pub later_only: bool,
}

/// The article list query: newest first (undated last), at most 500 rows;
/// the feed id, when filtered on, is bound as `?1`.
pub open spec fn spec_list_sql(f: ArticleFilter) -> Seq<char> {
    "SELECT a.id, a.feed_id, f.title, a.title, a.url, a.author, a.published_ms, a.excerpt, a.read, a.favorite, a.later FROM articles a JOIN feeds f ON f.id = a.feed_id WHERE 1=1"@
        + (if f.feed_id is Some {
        " AND a.feed_id = ?1"@
    } else {
        seq![]
    }) + (if f.unread_only {
        " AND a.read = 0"@
    } else {
        seq![]
    }) + (if f.favorites_only {
        " AND a.favorite = 1"@
    } else {
        seq![]
    }) + (if f.later_only {
        " AND a.later = 1"@
    } else {
        seq![]
    }) + " ORDER BY a.published_ms DESC NULLS LAST, a.id DESC LIMIT 500"@
}

pub fn list_articles_sql(f: &ArticleFilter) -> (r: String)
    ensures
        r@ == spec_list_sql(*f),
{
    let mut v = chars_of(
        "SELECT a.id, a.feed_id, f.title, a.title, a.url, a.author, a.published_ms, a.excerpt, a.read, a.favorite, a.later FROM articles a JOIN feeds f ON f.id = a.feed_id WHERE 1=1",
    );
    if f.feed_id.is_some() {
        push_all(&mut v, chars_of(" AND a.feed_id = ?1").as_slice());
    }
    if f.unread_only {
        push_all(&mut v, chars_of(" AND a.read = 0").as_slice());
    }
    if f.favorites_only {
        push_all(&mut v, chars_of(" AND a.favorite = 1").as_slice());
    }
    if f.later_only {
        push_all(&mut v, chars_of(" AND a.later = 1").as_slice());
    }
    push_all(&mut v, chars_of(" ORDER BY a.published_ms DESC NULLS LAST, a.id DESC LIMIT 500").as_slice());
    assert(v@ =~= spec_list_sql(*f));
    string_of(v.as_slice())
}

/// What the clean-up looks at in an article.
pub struct ArticleAge {
    pub id: i64,
    pub published_ms: Option<i64>,
    pub fetched_ms: i64,
    pub favorite: bool,
    pub later: bool,
}

/// The article's date: publication, else download.
pub open spec fn age_date(a: ArticleAge) -> i64 {
    match a.published_ms {
        Some(p) => p,
        None => a.fetched_ms,
    }
}

/// An article the clean-up removes: older than the cutoff, neither a
/// favorite nor marked to read later.
pub open spec fn is_clearable(a: ArticleAge, cutoff: i64) -> bool {
    !a.favorite && !a.later && age_date(a) < cutoff
}

/// The ids of the clearable rows, in order.
pub open spec fn clearable_ids(rows: Seq<ArticleAge>, cutoff: i64) -> Seq<i64>
    decreases rows.len(),
{
    if rows.len() == 0 {
        seq![]
    } else {
        let rest = clearable_ids(rows.drop_last(), cutoff);
        if is_clearable(rows.last(), cutoff) {
            rest.push(rows.last().id)
        } else {
            rest
        }
    }
}

/// Articles removed by the clean-up: the rows older than `cutoff_ms` that
/// are not favorites and not marked to read later (feeds stay).
pub fn old_article_ids(rows: &Vec<ArticleAge>, cutoff_ms: i64) -> (r: Vec<i64>)
    ensures
        r@ == clearable_ids(rows@, cutoff_ms),
{
    let mut out: Vec<i64> = Vec::new();
    let mut i: usize = 0;
    while i < rows.len()
        invariant
            i <= rows@.len(),
            out@ == clearable_ids(rows@.take(i as int), cutoff_ms),
        decreases rows@.len() - i,
    {
        let a = &rows[i];
        assert(rows@.take(i + 1).drop_last() =~= rows@.take(i as int));
        let date = match a.published_ms {
            Some(p) => p,
            None => a.fetched_ms,
        };
        if !a.favorite && !a.later && date < cutoff_ms {
            out.push(a.id);
        }
        i += 1;
    }
    assert(rows@.take(rows@.len() as int) =~= rows@);
    out
}

/// A row whose id the clean-up returns is clearable: favorites, articles
/// marked to read later and articles newer than the cutoff are never
/// removed; and every clearable row is returned.
pub proof fn lemma_cleanup_spares(rows: Seq<ArticleAge>, cutoff: i64)
    requires
        forall|i: int, j: int| 0 <= i < j < rows.len() ==> rows[i].id != rows[j].id,
    ensures
        forall|i: int|
            0 <= i < rows.len() ==> (clearable_ids(rows, cutoff).contains(#[trigger] rows[i].id)
                <==> is_clearable(rows[i], cutoff)),
    decreases rows.len(),
{
    if rows.len() > 0 {
        let init = rows.drop_last();
        lemma_cleanup_spares(init, cutoff);
        lemma_clearable_ids_from(init, cutoff);
        let rest = clearable_ids(init, cutoff);
        assert forall|i: int| 0 <= i < rows.len() implies (clearable_ids(rows, cutoff).contains(
            #[trigger] rows[i].id,
        ) <==> is_clearable(rows[i], cutoff)) by {
            let x = rows[i].id;
            if i < rows.len() - 1 {
                assert(init[i] == rows[i]);
                if is_clearable(rows.last(), cutoff) {
                    if rest.push(rows.last().id).contains(x) && !rest.contains(x) {
                        let k = choose|k: int| 0 <= k < rest.push(rows.last().id).len() && #[trigger] rest.push(
                            rows.last().id,
                        )[k] == x;
                        assert(k == rest.len());
                        assert(rows.last().id == x);
                        assert(rows[rows.len() - 1].id == rows[i].id);
                    }
                    if rest.contains(x) {
                        let k = choose|k: int| 0 <= k < rest.len() && #[trigger] rest[k] == x;
                        assert(rest.push(rows.last().id)[k] == x);
                    }
                }
            } else {
                if is_clearable(rows.last(), cutoff) {
                    assert(rest.push(rows.last().id)[rest.len() as int] == x);
                } else {
                    if rest.contains(x) {
                        let k = choose|k: int| 0 <= k < rest.len() && #[trigger] rest[k] == x;
                        let j = choose|j: int| 0 <= j < init.len() && #[trigger] init[j].id == rest[k];
                        assert(rows[j].id == rows[i].id);
                    }
                }
            }
        }
    }
}

/// Every id the clean-up returns is the id of one of the rows.
proof fn lemma_clearable_ids_from(rows: Seq<ArticleAge>, cutoff: i64)
    ensures
        forall|k: int| 0 <= k < clearable_ids(rows, cutoff).len() ==> exists|j: int|
            0 <= j < rows.len() && #[trigger] rows[j].id == #[trigger] clearable_ids(rows, cutoff)[k],
    decreases rows.len(),
{
    if rows.len() > 0 {
        let init = rows.drop_last();
        lemma_clearable_ids_from(init, cutoff);
        let rest = clearable_ids(init, cutoff);
        assert forall|k: int| 0 <= k < clearable_ids(rows, cutoff).len() implies exists|j: int|
            0 <= j < rows.len() && #[trigger] rows[j].id == #[trigger] clearable_ids(rows, cutoff)[k] by {
            if k < rest.len() {
                let j = choose|j: int| 0 <= j < init.len() && #[trigger] init[j].id == #[trigger] rest[k];
                assert(rows[j].id == clearable_ids(rows, cutoff)[k]);
            } else {
                assert(rows[rows.len() - 1].id == clearable_ids(rows, cutoff)[k]);
            }
        }
    }
}

/// Which old articles the clean-up removes, field by field: an article
/// (ids unique) is removed exactly when it is neither a favorite nor saved
/// for later and its publication date, or its download date when the feed
/// gave none, lies before the cutoff.
pub proof fn lemma_cleanup_uses_publication_date(rows: Seq<ArticleAge>, cutoff: i64)
    requires
        forall|i: int, j: int| 0 <= i < j < rows.len() ==> rows[i].id != rows[j].id,
    ensures
        forall|i: int|
            0 <= i < rows.len() ==> (clearable_ids(rows, cutoff).contains(#[trigger] rows[i].id) <==> {
                &&& !rows[i].favorite
                &&& !rows[i].later
                &&& match rows[i].published_ms {
                    Some(p) => p < cutoff,
                    None => rows[i].fetched_ms < cutoff,
                }
            }),
{
    lemma_cleanup_spares(rows, cutoff);
}

/// Putting `p` between `x` and `y` is inserting it at the length of `x`.
pub proof fn lemma_insert_between(x: Seq<char>, y: Seq<char>, p: Seq<char>)
    ensures
        (x + y).take(x.len() as int) + p + (x + y).skip(x.len() as int) == x + p + y,
{
    assert((x + y).take(x.len() as int) =~= x);
    assert((x + y).skip(x.len() as int) =~= y);
}

/// The fixed head of the article list query.
spec fn list_head(f: ArticleFilter) -> Seq<char> {
    "SELECT a.id, a.feed_id, f.title, a.title, a.url, a.author, a.published_ms, a.excerpt, a.read, a.favorite, a.later FROM articles a JOIN feeds f ON f.id = a.feed_id WHERE 1=1"@
        + (if f.feed_id is Some {
        " AND a.feed_id = ?1"@
    } else {
        seq![]
    })
}

/// A clause that a flag adds.
spec fn clause(on: bool, c: Seq<char>) -> Seq<char> {
    if on {
        c
    } else {
        seq![]
    }
}

/// Toggling one filter of the article list inserts exactly its own clause
/// into the query: `unread_only` adds ` AND a.read = 0`, `favorites_only`
/// adds ` AND a.favorite = 1`, `later_only` adds ` AND a.later = 1`.
pub proof fn lemma_list_sql_filters(f: ArticleFilter)
    ensures
        !f.unread_only ==> exists|k: int|
            0 <= k <= spec_list_sql(f).len() && spec_list_sql(ArticleFilter { unread_only: true, ..f })
                == spec_list_sql(f).take(k) + " AND a.read = 0"@ + spec_list_sql(f).skip(k),
        !f.favorites_only ==> exists|k: int|
            0 <= k <= spec_list_sql(f).len() && spec_list_sql(ArticleFilter { favorites_only: true, ..f })
                == spec_list_sql(f).take(k) + " AND a.favorite = 1"@ + spec_list_sql(f).skip(k),
        !f.later_only ==> exists|k: int|
            0 <= k <= spec_list_sql(f).len() && spec_list_sql(ArticleFilter { later_only: true, ..f })
                == spec_list_sql(f).take(k) + " AND a.later = 1"@ + spec_list_sql(f).skip(k),
{
    let h = list_head(f);
    let u = clause(f.unread_only, " AND a.read = 0"@);
    let v = clause(f.favorites_only, " AND a.favorite = 1"@);
    let w = clause(f.later_only, " AND a.later = 1"@);
    let t = " ORDER BY a.published_ms DESC NULLS LAST, a.id DESC LIMIT 500"@;
    let s = spec_list_sql(f);
    assert(s == h + u + v + w + t);
    if !f.unread_only {
        let x = h;
        let y = v + w + t;
        assert(s =~= x + y);
        lemma_insert_between(x, y, " AND a.read = 0"@);
        assert(spec_list_sql(ArticleFilter { unread_only: true, ..f }) =~= x + " AND a.read = 0"@ + y);
    }
    if !f.favorites_only {
        let x = h + u;
        let y = w + t;
        assert(s =~= x + y);
        lemma_insert_between(x, y, " AND a.favorite = 1"@);
        assert(spec_list_sql(ArticleFilter { favorites_only: true, ..f }) =~= x + " AND a.favorite = 1"@ + y);
    }
    if !f.later_only {
        let x = h + u + v;
        let y = t;
        assert(s =~= x + y);
        lemma_insert_between(x, y, " AND a.later = 1"@);
        assert(spec_list_sql(ArticleFilter { later_only: true, ..f }) =~= x + " AND a.later = 1"@ + y);
    }
}

/// With no filter flag set, the article list query holds none of the
/// filter clauses (with or without the feed filter).
pub proof fn lemma_list_sql_unfiltered(f: ArticleFilter)
    requires
        !f.unread_only,
        !f.favorites_only,
        !f.later_only,
    ensures
        !contains_seq(spec_list_sql(f), " AND a.read = 0"@, false),
        !contains_seq(spec_list_sql(f), " AND a.favorite = 1"@, false),
        !contains_seq(spec_list_sql(f), " AND a.later = 1"@, false),
{
    reveal_strlit("SELECT a.id, a.feed_id, f.title, a.title, a.url, a.author, a.published_ms, a.excerpt, a.read, a.favorite, a.later FROM articles a JOIN feeds f ON f.id = a.feed_id WHERE 1=1");
    reveal_strlit(" AND a.feed_id = ?1");
    reveal_strlit(" ORDER BY a.published_ms DESC NULLS LAST, a.id DESC LIMIT 500");
    reveal_strlit(" AND a.read = 0");
    reveal_strlit(" AND a.favorite = 1");
    reveal_strlit(" AND a.later = 1");
    let s = spec_list_sql(f);
    let z: int = 0;
    let pr = " AND a.read = 0"@;
    let pf = " AND a.favorite = 1"@;
    let pl = " AND a.later = 1"@;
    assert forall|k: int| 0 <= k < s.len() implies !occurs_at(s, k, pr, false) by {
        if occurs_at(s, k, pr, false) {
            assert(same_char(s[k + 1], pr[1], false));
            assert(same_char(s[k + 7], pr[7], false));
        }
    }
    crate::text::lemma_find_none(s, pr, false);
    assert forall|k: int| 0 <= k < s.len() implies !occurs_at(s, k, pf, false) by {
        if occurs_at(s, k, pf, false) {
            assert(same_char(s[k + 1], pf[1], false));
            assert(same_char(s[k + 8], pf[8], false));
        }
    }
    crate::text::lemma_find_none(s, pf, false);
    assert forall|k: int| 0 <= k < s.len() implies !occurs_at(s, k, pl, false) by {
        if occurs_at(s, k, pl, false) {
            assert(same_char(s[k + 1], pl[1], false));
            assert(same_char(s[k + 7], pl[7], false));
        }
    }
    crate::text::lemma_find_none(s, pl, false);
}

} // verus!
