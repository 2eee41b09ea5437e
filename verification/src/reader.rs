//! Decisions of the reader's commands that do not depend on where the data
//! lives: the refresh summary, the retention cutoff, when to fetch the
//! readable version of an article.
use vstd::prelude::*;

use crate::text::{chars_of, push_all, string_of};
use crate::text::{lemma_views_push, views};

verus! {

/// Milliseconds in a day.
pub const DAY_MS: i64 = 86400000;

/// The instant before which articles are old: `days` days before `now_ms`.
pub fn retention_cutoff(now_ms: i64, days: u32) -> (r: i64)
    requires
        now_ms - days * DAY_MS >= i64::MIN,
    ensures
        r == now_ms - days * DAY_MS,
{
    let d = days as i64;
    assert(d * DAY_MS <= 4294967295 * 86400000) by (nonlinear_arith)
        requires
            0 <= d <= 4294967295,
    ;
    now_ms - d * DAY_MS
}

/// The page to fetch for an article's reading mode: its address, when the
/// article has one and no readable content is cached yet.
pub fn readable_target(url: &Option<String>, cached: &Option<String>) -> (r: Option<String>)
    ensures
        crate::fetch::opt_view(r) == (if cached is None {
            crate::fetch::opt_view(*url)
        } else {
            None
        }),
{
    if cached.is_none() {
        match url {
            Some(u) => Some(u.clone()),
            None => None,
        }
    } else {
        None
    }
}

/// The outcome of refreshing every feed: new articles, and one message per
/// feed that failed.
pub struct RefreshSummary {
    pub new_articles: u32,
    pub errors: Vec<String>,
}

/// The message for a feed that failed: `title: error`.
pub open spec fn failure_message(title: Seq<char>, err: Seq<char>) -> Seq<char> {
    title + ": "@ + err
}

impl RefreshSummary {
    pub fn new() -> (r: RefreshSummary)
        ensures
            r.new_articles == 0,
            r.errors@.len() == 0,
    {
        RefreshSummary { new_articles: 0, errors: Vec::new() }
    }

    /// Adds the articles a feed brought (the count as a `u32`).
    pub fn record_new(&mut self, n: usize)
        requires
            old(self).new_articles + (n as u32) <= u32::MAX,
        ensures
            final(self).new_articles == old(self).new_articles + (n as u32),
            final(self).errors == old(self).errors,
    {
        self.new_articles = self.new_articles + (n as u32);
    }

    /// Records a feed that failed.
    pub fn record_error(&mut self, title: &str, err: &str)
        ensures
            final(self).new_articles == old(self).new_articles,
            views(final(self).errors@) == views(old(self).errors@).push(failure_message(title@, err@)),
    {
        let mut v = chars_of(title);
        push_all(&mut v, chars_of(": ").as_slice());
        push_all(&mut v, chars_of(err).as_slice());
        assert(v@ =~= failure_message(title@, err@));
        let m = string_of(v.as_slice());
        proof {
            lemma_views_push(self.errors@, m);
        }
        self.errors.push(m);
    }
}

} // verus!
