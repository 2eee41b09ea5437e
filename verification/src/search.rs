//! Full-text search support: the text that goes into the index, the
//! request and its filters, and how the index is brought in line with the
//! database.
use vstd::prelude::*;
use std::collections::HashSet;

use crate::fetch::{spec_utf8_lossy, utf8_lossy};
use crate::fetch::{decimal, decimal_string};
use crate::text::{
    chars_of, push_all, trim, trim_chars, collapse_whitespace, collapse_ws, find, find_from, lower_all, lower_seq, matches_at,
    occurs_at, replace, replace_all, string_of,
};

verus! {

/// What `std::path::Path::join` gives for `base` and `name`, as text.
pub uninterp spec fn spec_path_join(base: Seq<char>, name: Seq<char>) -> Seq<char>;

/// std's `Path::join` on UTF-8 paths (the result of joining two UTF-8
/// paths is UTF-8, so reading it back loses nothing). The separator rules
/// are the platform's and are not restated.
#[verifier::external_body]
pub(crate) fn path_join(base: &str, name: &str) -> (r: String)
    ensures
        r@ == spec_path_join(base@, name@),
{
    std::path::Path::new(base).join(name).to_string_lossy().into_owned()
}

/// Folder of the search index inside the app's data folder.
pub fn index_dir(app_data: &str) -> (r: String)
    ensures
        r@ == spec_path_join(app_data@, "search-index"@),
{
    path_join(app_data, "search-index")
}

/// The tag-stripping scan of `html_to_text` from index `i`: each tag
/// becomes one space; a `<script` or `<style` tag swallows everything up to
/// the end of its closing tag (or the end of the text).
pub open spec fn text_scan(s: Seq<char>, i: int) -> Seq<char>
    decreases s.len() - i,
{
    let n = s.len() as int;
    let low = lower_seq(s);
    if i < 0 || i >= n {
        seq![]
    } else if s[i] == '<' {
        let j = if occurs_at(low, i, "<script"@, false) {
            match find_from(low, i, "</script"@, false) {
                Some(p) => p,
                None => n,
            }
        } else if occurs_at(low, i, "<style"@, false) {
            match find_from(low, i, "</style"@, false) {
                Some(p) => p,
                None => n,
            }
        } else {
            i
        };
        let k = match find_from(low, j, ">"@, false) {
            Some(p) => p + 1,
            None => n,
        };
        if k <= i || k > n {
            seq![' ']
        } else {
            seq![' '] + text_scan(s, k)
        }
    } else {
        seq![s[i]] + text_scan(s, i + 1)
    }
}

/// The entities that `html_to_text` decodes, in its order.
pub open spec fn decode_text_entities(s: Seq<char>) -> Seq<char> {
    replace_all(
        replace_all(
            replace_all(
                replace_all(replace_all(replace_all(s, "&nbsp;"@, " "@), "&amp;"@, "&"@), "&lt;"@, "<"@),
                "&gt;"@,
                ">"@,
            ),
            "&quot;"@,
            "\""@,
        ),
        "&#39;"@,
        "'"@,
    )
}

/// Plain text of an HTML document for the index: tags out, script and style
/// out with their content, entities decoded, whitespace collapsed.
pub open spec fn spec_html_to_text(html: Seq<u8>) -> Seq<char> {
    text_of(spec_utf8_lossy(html))
}

/// Plain text of an HTML text: tags (and script/style bodies) become
/// spaces, common entities are decoded, whitespace runs collapse.
pub open spec fn text_of(s: Seq<char>) -> Seq<char> {
    collapse_ws(decode_text_entities(text_scan(s, 0)))
}

fn replace_lit(s: &[char], pat: &str, rep: &str) -> (r: Vec<char>)
    requires
        pat@.len() > 0,
    ensures
        r@ == replace_all(s@, pat@, rep@),
{
    let p = chars_of(pat);
    let q = chars_of(rep);
    replace(s, p.as_slice(), q.as_slice())
}

/// Plain text of an HTML document (bytes, decoded leniently as UTF-8).
/// Without a `&` byte, the text it gives is its own plain text: a second
/// pass over it (whose bytes are valid UTF-8) gives it back.
pub fn html_to_text(html: &[u8]) -> (r: String)
    ensures
        r@ == spec_html_to_text(html@),
        vstd::utf8::valid_utf8(html@) ==> r@ == text_of(vstd::utf8::decode_utf8(html@)),
        !html@.contains(38u8) ==> text_of(r@) == r@,
{
    let text = utf8_lossy(html);
    let s = chars_of(text.as_str());
    let low = lower_all(s.as_slice());
    let n = s.len();
    let script = chars_of("<script");
    let style = chars_of("<style");
    let end_script = chars_of("</script");
    let end_style = chars_of("</style");
    let gt = chars_of(">");
    proof {
        reveal_strlit(">");
    }
    let mut out: Vec<char> = Vec::new();
    let mut i: usize = 0;
    while i < n
        invariant
            i <= n,
            n == s@.len(),
            low@ == lower_seq(s@),
            script@ == "<script"@,
            style@ == "<style"@,
            end_script@ == "</script"@,
            end_style@ == "</style"@,
            gt@ == ">"@,
            gt@.len() == 1,
            text_scan(s@, 0) == out@ + text_scan(s@, i as int),
        decreases n - i,
    {
        if s[i] == '<' {
            let j = if matches_at(low.as_slice(), i, script.as_slice(), false) {
                match find(low.as_slice(), i, end_script.as_slice(), false) {
                    Some(p) => p,
                    None => n,
                }
            } else if matches_at(low.as_slice(), i, style.as_slice(), false) {
                match find(low.as_slice(), i, end_style.as_slice(), false) {
                    Some(p) => p,
                    None => n,
                }
            } else {
                i
            };
            proof {
                crate::text::lemma_find_from(low@, i as int, end_script@, false);
                crate::text::lemma_find_from(low@, i as int, end_style@, false);
            }
            let k = match find(low.as_slice(), j, gt.as_slice(), false) {
                Some(p) => {
                    proof {
                        crate::text::lemma_find_from(low@, j as int, gt@, false);
                    }
                    p + 1
                },
                None => n,
            };
            out.push(' ');
            assert(out@ + text_scan(s@, k as int) =~= (out@.drop_last()) + (seq![' '] + text_scan(s@, k as int)));
            i = k;
        } else {
            out.push(s[i]);
            assert(out@ + text_scan(s@, i + 1) =~= (out@.drop_last()) + (seq![s@[i as int]] + text_scan(s@, i + 1)));
            i = i + 1;
        }
    }
    assert(text_scan(s@, i as int) =~= Seq::<char>::empty());
    assert(out@ + Seq::<char>::empty() =~= out@);
    proof {
        reveal_strlit("&nbsp;");
        reveal_strlit("&amp;");
        reveal_strlit("&lt;");
        reveal_strlit("&gt;");
        reveal_strlit("&quot;");
        reveal_strlit("&#39;");
    }
    let t = replace_lit(out.as_slice(), "&nbsp;", " ");
    let t = replace_lit(t.as_slice(), "&amp;", "&");
    let t = replace_lit(t.as_slice(), "&lt;", "<");
    let t = replace_lit(t.as_slice(), "&gt;", ">");
    let t = replace_lit(t.as_slice(), "&quot;", "\"");
    let t = replace_lit(t.as_slice(), "&#39;", "'");
    let t = collapse_whitespace(t.as_slice());
    proof {
        if !html@.contains(38u8) {
            lemma_text_of_idempotent(text@);
        }
    }
    string_of(t.as_slice())
}

/// The scan writes only spaces and chars of its input that are not `<`.
proof fn lemma_scan_chars(s: Seq<char>, i: int, c: char)
    requires
        c != ' ',
        c == '<' || !s.contains(c),
    ensures
        !text_scan(s, i).contains(c),
    decreases s.len() - i,
{
    if 0 <= i < s.len() {
        if s[i] == '<' {
            let n = s.len() as int;
            let low = lower_seq(s);
            let j = if occurs_at(low, i, "<script"@, false) {
                match find_from(low, i, "</script"@, false) {
                    Some(p) => p,
                    None => n,
                }
            } else if occurs_at(low, i, "<style"@, false) {
                match find_from(low, i, "</style"@, false) {
                    Some(p) => p,
                    None => n,
                }
            } else {
                i
            };
            let k = match find_from(low, j, ">"@, false) {
                Some(p) => p + 1,
                None => n,
            };
            if !(k <= i || k > n) {
                lemma_scan_chars(s, k, c);
                crate::text::lemma_concat_contains(seq![' '], text_scan(s, k), c);
            }
        } else {
            assert(s[i] != c) by {
                if s[i] == c {
                    assert(s.contains(c));
                }
            }
            lemma_scan_chars(s, i + 1, c);
            crate::text::lemma_concat_contains(seq![s[i]], text_scan(s, i + 1), c);
        }
    }
}

/// Without `<`, the scan copies the text.
proof fn lemma_scan_plain(s: Seq<char>, i: int)
    requires
        0 <= i <= s.len(),
        !s.contains('<'),
    ensures
        text_scan(s, i) == s.skip(i),
    decreases s.len() - i,
{
    if i < s.len() {
        assert(s[i] != '<') by {
            if s[i] == '<' {
                assert(s.contains('<'));
            }
        }
        lemma_scan_plain(s, i + 1);
        assert(seq![s[i]] + s.skip(i + 1) =~= s.skip(i));
    } else {
        assert(s.skip(i) =~= Seq::<char>::empty());
    }
}

/// A pattern starting with `&` does not occur in a text without `&`.
proof fn lemma_no_amp_pattern(s: Seq<char>, pat: Seq<char>)
    requires
        !s.contains('&'),
        pat.len() > 0,
        pat[0] == '&',
    ensures
        forall|j: int| 0 <= j ==> !occurs_at(s, j, pat, false),
{
    assert forall|j: int| 0 <= j implies !occurs_at(s, j, pat, false) by {
        if occurs_at(s, j, pat, false) {
            let z: int = 0;
            assert(crate::text::same_char(s[j + z], pat[z], false));
            assert(s.contains('&'));
        }
    }
}

/// Without `&`, no entity is decoded.
proof fn lemma_decode_plain(s: Seq<char>)
    requires
        !s.contains('&'),
    ensures
        decode_text_entities(s) == s,
{
    reveal_strlit("&nbsp;");
    reveal_strlit("&amp;");
    reveal_strlit("&lt;");
    reveal_strlit("&gt;");
    reveal_strlit("&quot;");
    reveal_strlit("&#39;");
    lemma_no_amp_pattern(s, "&nbsp;"@);
    crate::text::lemma_replace_absent(s, "&nbsp;"@, " "@);
    lemma_no_amp_pattern(s, "&amp;"@);
    crate::text::lemma_replace_absent(s, "&amp;"@, "&"@);
    lemma_no_amp_pattern(s, "&lt;"@);
    crate::text::lemma_replace_absent(s, "&lt;"@, "<"@);
    lemma_no_amp_pattern(s, "&gt;"@);
    crate::text::lemma_replace_absent(s, "&gt;"@, ">"@);
    lemma_no_amp_pattern(s, "&quot;"@);
    crate::text::lemma_replace_absent(s, "&quot;"@, "\""@);
    lemma_no_amp_pattern(s, "&#39;"@);
    crate::text::lemma_replace_absent(s, "&#39;"@, "'"@);
}

/// Extracting the plain text of text that holds no `&` a second time
/// changes nothing: the text extracted once has no tag, no entity and no
/// whitespace run left.
pub proof fn lemma_text_of_idempotent(s: Seq<char>)
    requires
        !s.contains('&'),
    ensures
        text_of(text_of(s)) == text_of(s),
{
    let x = text_scan(s, 0);
    lemma_scan_chars(s, 0, '&');
    lemma_scan_chars(s, 0, '<');
    lemma_decode_plain(x);
    let y = collapse_ws(x);
    crate::text::lemma_collapse_chars(x, false, false, '&');
    crate::text::lemma_collapse_chars(x, false, false, '<');
    lemma_scan_plain(y, 0);
    assert(y.skip(0) =~= y);
    lemma_decode_plain(y);
    crate::text::lemma_collapse_idempotent(x);
}

/// An article ready to become an index document (text already extracted).
pub struct IndexDoc {
    pub id: i64,
    pub title: String,
    pub body: String,
    pub author: String,
    pub feed: String,
}

/// The index document for an article row: the author defaults to empty,
/// the body is the plain text of the article HTML (empty without one).
pub fn index_doc(
    id: i64,
    title: String,
    author: Option<String>,
    feed: String,
    body_html: Option<String>,
) -> (r: IndexDoc)
    ensures
        r.id == id,
        r.title@ == title@,
        r.author@ == (match author {
            Some(a) => a@,
            None => Seq::<char>::empty(),
        }),
        r.feed@ == feed@,
        r.body@ == spec_html_to_text(
            vstd::utf8::encode_utf8(
                match body_html {
                    Some(b) => b@,
                    None => Seq::<char>::empty(),
                },
            ),
        ),
{
    let author = match author {
        Some(a) => a,
        None => String::new(),
    };
    let body = match body_html {
        Some(b) => html_to_text(b.as_str().as_bytes()),
        None => html_to_text(String::new().as_str().as_bytes()),
    };
    IndexDoc { id, title, body, author, feed }
}

/// A search request.
pub struct SearchOpts {
    pub query: String,
    pub feed_id: Option<i64>,
    pub unread_only: bool,
    pub favorites_only: bool,
    /// Only articles published (or fetched) from this instant on.
    pub since_ms: Option<i64>,
    pub limit: usize,
}

/// The request for a query typed by the user: none for a blank query (no
/// search is run), else the filters as given and at most 50 hits unless a
/// limit is given.
pub fn search_request(
    query: String,
    feed_id: Option<i64>,
    unread_only: bool,
    favorites_only: bool,
    since_ms: Option<i64>,
    limit: Option<usize>,
) -> (r: Option<SearchOpts>)
    ensures
        r is None <==> trim(query@).len() == 0,
        r matches Some(o) ==> {
            &&& o.query@ == query@
            &&& o.feed_id == feed_id
            &&& o.unread_only == unread_only
            &&& o.favorites_only == favorites_only
            &&& o.since_ms == since_ms
            &&& o.limit == (match limit {
                Some(l) => l,
                None => 50,
            })
        },
{
    let q = chars_of(query.as_str());
    let t = trim_chars(q.as_slice());
    if t.len() == 0 {
        return None;
    }
    let limit = match limit {
        Some(l) => l,
        None => 50,
    };
    Some(SearchOpts { query, feed_id, unread_only, favorites_only, since_ms, limit })
}

/// Whether the request filters the hits.
pub open spec fn is_filtered(o: SearchOpts) -> bool {
    o.feed_id is Some || o.unread_only || o.favorites_only || o.since_ms is Some
}

/// The number of hits returned: the request's limit, kept within 1..=200.
pub open spec fn hit_limit(o: SearchOpts) -> int {
    if o.limit < 1 {
        1
    } else if o.limit > 200 {
        200
    } else {
        o.limit as int
    }
}

/// How many ranked candidates the index is asked for: with filters, eight
/// times the limit (at most 1000), since filtered-out candidates are
/// dropped afterwards; without, the limit itself.
pub open spec fn candidate_count(o: SearchOpts) -> int {
    if is_filtered(o) {
        if hit_limit(o) * 8 < 1000 {
            hit_limit(o) * 8
        } else {
            1000
        }
    } else {
        hit_limit(o)
    }
}

/// The hit limit and the number of candidates for a request.
pub fn search_limits(o: &SearchOpts) -> (r: (usize, usize))
    ensures
        r.0 == hit_limit(*o),
        r.1 == candidate_count(*o),
{
    let limit = if o.limit < 1 {
        1
    } else if o.limit > 200 {
        200
    } else {
        o.limit
    };
    let filtered = o.feed_id.is_some() || o.unread_only || o.favorites_only || o.since_ms.is_some();
    let candidates = if filtered {
        if limit * 8 < 1000 {
            limit * 8
        } else {
            1000
        }
    } else {
        limit
    };
    (limit, candidates)
}

/// Decimal notation of a signed number.
pub open spec fn signed_decimal(x: int) -> Seq<char> {
    if x < 0 {
        seq!['-'] + decimal((-x) as nat)
    } else {
        decimal(x as nat)
    }
}

pub fn signed_decimal_string(x: i64) -> (r: Vec<char>)
    ensures
        r@ == signed_decimal(x as int),
{
    if x < 0 {
        let m: u64 = ((-(x + 1)) as u64) + 1;
        let mut v: Vec<char> = vec!['-'];
        let d = decimal_string(m);
        push_all(&mut v, d.as_slice());
        assert(v@ =~= seq!['-'] + decimal((-x) as nat));
        v
    } else {
        decimal_string(x as u64)
    }
}

/// The article query of a search, one hit id at a time (`?1`), with the
/// request's filters in the WHERE clause.
pub open spec fn spec_search_sql(o: SearchOpts) -> Seq<char> {
    search_select()
        + (match o.feed_id {
            Some(id) => " AND a.feed_id = "@ + signed_decimal(id as int),
            None => seq![],
        })
        + (if o.unread_only {
            " AND a.read = 0"@
        } else {
            seq![]
        })
        + (if o.favorites_only {
            " AND a.favorite = 1"@
        } else {
            seq![]
        })
        + (match o.since_ms {
            Some(ms) => " AND COALESCE(a.published_ms, a.fetched_ms) >= "@ + signed_decimal(ms as int),
            None => seq![],
        })
}

/// The SELECT of a search hit: the article row, its feed's title and the
/// article's HTML (full text, else summary, else excerpt).
pub open spec fn search_select() -> Seq<char> {
    "SELECT a.id, a.feed_id, f.title, a.title, a.url, a.author, a.published_ms, a.excerpt, a.read, a.favorite, a.later, COALESCE(a.content, a.summary, a.excerpt) FROM articles a JOIN feeds f ON f.id = a.feed_id WHERE a.id = ?1"@
}

pub fn search_sql(o: &SearchOpts) -> (r: String)
    ensures
        r@ == spec_search_sql(*o),
{
    let mut v = chars_of(
        "SELECT a.id, a.feed_id, f.title, a.title, a.url, a.author, a.published_ms, a.excerpt, a.read, a.favorite, a.later, COALESCE(a.content, a.summary, a.excerpt) FROM articles a JOIN feeds f ON f.id = a.feed_id WHERE a.id = ?1",
    );
    let ghost v0 = v@;
    match o.feed_id {
        Some(id) => {
            push_all(&mut v, chars_of(" AND a.feed_id = ").as_slice());
            push_all(&mut v, signed_decimal_string(id).as_slice());
        },
        None => {},
    }
    let ghost v1 = v@;
    if o.unread_only {
        push_all(&mut v, chars_of(" AND a.read = 0").as_slice());
    }
    let ghost v2 = v@;
    if o.favorites_only {
        push_all(&mut v, chars_of(" AND a.favorite = 1").as_slice());
    }
    let ghost v3 = v@;
    match o.since_ms {
        Some(ms) => {
            push_all(&mut v, chars_of(" AND COALESCE(a.published_ms, a.fetched_ms) >= ").as_slice());
            push_all(&mut v, signed_decimal_string(ms).as_slice());
        },
        None => {},
    }
    assert(v@ =~= spec_search_sql(*o));
    string_of(v.as_slice())
}

/// The ranks kept from `resolved[i..]` with room for `room` more hits: the
/// first candidates that resolved to an article passing the filters.
pub open spec fn kept_from(resolved: Seq<bool>, i: int, room: int) -> Seq<usize>
    decreases resolved.len() - i,
{
    if i < 0 || i >= resolved.len() || room <= 0 {
        seq![]
    } else if resolved[i] {
        seq![i as usize] + kept_from(resolved, i + 1, room - 1)
    } else {
        kept_from(resolved, i + 1, room)
    }
}

/// Which ranked candidates become hits: in rank order, those that resolved,
/// until `limit` are taken.
pub fn kept_hits(resolved: &[bool], limit: usize) -> (r: Vec<usize>)
    ensures
        r@ == kept_from(resolved@, 0, limit as int),
{
    let mut out: Vec<usize> = Vec::new();
    let mut i: usize = 0;
    let mut room = limit;
    while i < resolved.len() && room > 0
        invariant
            i <= resolved@.len(),
            kept_from(resolved@, 0, limit as int) == out@ + kept_from(resolved@, i as int, room as int),
        decreases resolved@.len() - i,
    {
        if resolved[i] {
            out.push(i);
            assert(out@ + kept_from(resolved@, i + 1, room - 1) =~= out@.drop_last() + (seq![i] + kept_from(resolved@, i + 1, room - 1)));
            room -= 1;
        }
        i += 1;
    }
    assert(kept_from(resolved@, i as int, room as int) =~= Seq::<usize>::empty());
    assert(out@ + Seq::<usize>::empty() =~= out@);
    out
}

/// `r` holds, once each, exactly the ids of `a` that are not in `b`.
pub open spec fn is_difference(r: Seq<i64>, a: Seq<i64>, b: Seq<i64>) -> bool {
    &&& r.no_duplicates()
    &&& forall|x: i64| r.contains(x) <==> (a.contains(x) && !b.contains(x))
}

/// What a pushed sequence contains.
proof fn lemma_push_contains(s: Seq<i64>, x: i64)
    ensures
        forall|y: i64| #[trigger] s.push(x).contains(y) <==> (s.contains(y) || y == x),
{
    assert forall|y: i64| #[trigger] s.push(x).contains(y) <==> (s.contains(y) || y == x) by {
        if s.contains(y) {
            let k = choose|k: int| 0 <= k < s.len() && #[trigger] s[k] == y;
            assert(s.push(x)[k] == y);
        }
        if y == x {
            assert(s.push(x)[s.len() as int] == y);
        }
        if s.push(x).contains(y) && y != x {
            let k = choose|k: int| 0 <= k < s.push(x).len() && #[trigger] s.push(x)[k] == y;
            assert(s[k] == y);
        }
    }
}

/// The set of ids in `v`.
fn id_set(v: &[i64]) -> (r: HashSet<i64>)
    ensures
        forall|x: i64| r@.contains(x) <==> v@.contains(x),
{
    broadcast use vstd::std_specs::hash::group_hash_axioms;

    let mut r: HashSet<i64> = HashSet::new();
    let mut i: usize = 0;
    while i < v.len()
        invariant
            i <= v@.len(),
            forall|x: i64| r@.contains(x) <==> v@.take(i as int).contains(x),
        decreases v@.len() - i,
    {
        let x = v[i];
        r.insert(x);
        proof {
            assert(v@.take(i + 1) =~= v@.take(i as int).push(x));
            lemma_push_contains(v@.take(i as int), x);
        }
        i += 1;
    }
    assert(v@.take(v@.len() as int) =~= v@);
    r
}

/// The ids of `a` that are not in `b`, once each, in the order of `a`.
pub fn ids_not_in(a: &[i64], b: &[i64]) -> (r: Vec<i64>)
    ensures
        is_difference(r@, a@, b@),
{
    broadcast use vstd::std_specs::hash::group_hash_axioms;

    let bs = id_set(b);
    let mut seen: HashSet<i64> = HashSet::new();
    let mut out: Vec<i64> = Vec::new();
    let mut i: usize = 0;
    while i < a.len()
        invariant
            i <= a@.len(),
            forall|x: i64| bs@.contains(x) <==> b@.contains(x),
            forall|x: i64| seen@.contains(x) <==> out@.contains(x),
            out@.no_duplicates(),
            forall|x: i64| out@.contains(x) <==> (a@.take(i as int).contains(x) && !b@.contains(x)),
        decreases a@.len() - i,
    {
        let x = a[i];
        let ghost before = out@;
        proof {
            assert(a@.take(i + 1) =~= a@.take(i as int).push(x));
            lemma_push_contains(a@.take(i as int), x);
        }
        if !bs.contains(&x) && !seen.contains(&x) {
            out.push(x);
            seen.insert(x);
            proof {
                lemma_push_contains(before, x);
                assert forall|j: int, k: int| 0 <= j < k < out@.len() implies out@[j] != out@[k] by {
                    if k == out@.len() - 1 {
                        assert(before[j] == out@[j]);
                        assert(before.contains(out@[j]));
                    }
                }
            }
        }
        i += 1;
    }
    assert(a@.take(a@.len() as int) =~= a@);
    out
}

/// The plan that brings the index in line with the database: the ids in the
/// database but not in the index (`missing`, to index) and those in the
/// index but not in the database (`orphans`, to delete).
pub open spec fn is_reconcile_plan(
    in_db: Seq<i64>,
    indexed: Seq<i64>,
    missing: Seq<i64>,
    orphans: Seq<i64>,
) -> bool {
    is_difference(missing, in_db, indexed) && is_difference(orphans, indexed, in_db)
}

/// Compares the article ids of the database with those of the index.
pub fn reconcile_plan(in_db: &[i64], indexed: &[i64]) -> (r: (Vec<i64>, Vec<i64>))
    ensures
        is_reconcile_plan(in_db@, indexed@, r.0@, r.1@),
{
    let missing = ids_not_in(in_db, indexed);
    let orphans = ids_not_in(indexed, in_db);
    (missing, orphans)
}

/// Carrying out a reconcile plan (deleting the orphans, adding the missing)
/// leaves the index holding exactly the articles of the database, and no
/// article already indexed is indexed again.
pub proof fn lemma_plan_restores_index(
    in_db: Seq<i64>,
    indexed: Seq<i64>,
    missing: Seq<i64>,
    orphans: Seq<i64>,
)
    requires
        is_reconcile_plan(in_db, indexed, missing, orphans),
    ensures
        indexed.to_set().difference(orphans.to_set()).union(missing.to_set()) == in_db.to_set(),
        missing.to_set().disjoint(indexed.to_set()),
{
    assert(indexed.to_set().difference(orphans.to_set()).union(missing.to_set()) =~= in_db.to_set());
    assert(missing.to_set().disjoint(indexed.to_set()));
}

/// An index that already holds exactly the database's articles needs no
/// work: both sides of the plan are empty.
pub proof fn lemma_plan_empty_when_in_sync(
    in_db: Seq<i64>,
    indexed: Seq<i64>,
    missing: Seq<i64>,
    orphans: Seq<i64>,
)
    requires
        is_reconcile_plan(in_db, indexed, missing, orphans),
        in_db.to_set() == indexed.to_set(),
    ensures
        missing.len() == 0,
        orphans.len() == 0,
{
    if missing.len() > 0 {
        assert(missing.contains(missing[0]));
        assert(in_db.to_set().contains(missing[0]));
    }
    if orphans.len() > 0 {
        assert(orphans.contains(orphans[0]));
        assert(indexed.to_set().contains(orphans[0]));
    }
}

/// One batch of the initial indexing: the ids `missing[start..end]`, and
/// whether the index is committed after it.
pub struct Batch {
    pub start: usize,
    pub end: usize,
    pub commit_after: bool,
}

/// Batch `i` of a backfill of `total` ids: 200 ids a batch (the last one
/// may be shorter), a commit after every tenth batch.
pub open spec fn batch_ok(b: Batch, total: int, i: int) -> bool {
    &&& b.start == 200 * i
    &&& b.end == (if 200 * i + 200 < total {
        200 * i + 200
    } else {
        total
    })
    &&& b.commit_after == ((i + 1) % 10 == 0)
}

/// How the first indexing of `total` articles is cut into batches.
pub fn backfill_batches(total: usize) -> (r: Vec<Batch>)
    ensures
        r@.len() * 200 >= total,
        r@.len() * 200 < total + 200,
        forall|i: int| 0 <= i < r@.len() ==> batch_ok(#[trigger] r@[i], total as int, i),
{
    let mut out: Vec<Batch> = Vec::new();
    let mut start: usize = 0;
    let mut i: usize = 0;
    while start < total
        invariant_except_break
            start == 200 * i,
            start < total + 200,
        invariant
            out@.len() == i,
            forall|k: int| 0 <= k < out@.len() ==> batch_ok(#[trigger] out@[k], total as int, k),
        ensures
            out@.len() * 200 >= total,
            out@.len() * 200 < total + 200,
        decreases total - start,
    {
        let commit_after = (i + 1) % 10 == 0;
        if total - start > 200 {
            out.push(Batch { start, end: start + 200, commit_after });
            assert(batch_ok(out@[i as int], total as int, i as int));
            start = start + 200;
            i += 1;
        } else {
            out.push(Batch { start, end: total, commit_after });
            assert(batch_ok(out@[i as int], total as int, i as int));
            i += 1;
            break;
        }
    }
    out
}

/// Version of the index layout; an index written under another version is
/// dropped and rebuilt.
pub const SCHEMA_VERSION: u64 = 1;

/// The marker file written next to the index: `{"schema":1}`.
pub fn schema_marker() -> (r: String)
    ensures
        r@ == "{\"schema\":"@ + decimal(SCHEMA_VERSION as nat) + "}"@,
{
    let mut v = chars_of("{\"schema\":");
    push_all(&mut v, decimal_string(SCHEMA_VERSION).as_slice());
    push_all(&mut v, chars_of("}").as_slice());
    string_of(v.as_slice())
}

/// The unsigned number under `key` in the JSON object `text`, as
/// `serde_json` reads it.
pub uninterp spec fn spec_json_u64_field(text: Seq<char>, key: Seq<char>) -> Option<u64>;

/// Parses `text` as JSON (`serde_json::from_str` into a `Value`) and reads
/// the field `key` as an unsigned number (`Value::get`, `Value::as_u64`);
/// `None` when any step fails.
#[verifier::external_body]
pub(crate) fn json_u64_field(text: &str, key: &str) -> (r: Option<u64>)
    ensures
        r == spec_json_u64_field(text@, key@),
{
    serde_json::from_str::<serde_json::Value>(text).ok()?.get(key)?.as_u64()
}

/// Whether the index folder can be opened as it is: with a marker, the
/// marker must name this layout version; without one, the folder must not
/// exist yet (anything else is left over from an older version).
pub open spec fn spec_schema_ok(marker: Option<Seq<char>>, dir_exists: bool) -> bool {
    match marker {
        Some(m) => spec_json_u64_field(m, "schema"@) == Some(SCHEMA_VERSION),
        None => !dir_exists,
    }
}

pub fn schema_ok(marker: &Option<String>, dir_exists: bool) -> (r: bool)
    ensures
        r == spec_schema_ok(crate::fetch::opt_view(*marker), dir_exists),
{
    match marker {
        Some(m) => match json_u64_field(m.as_str(), "schema") {
            Some(v) => v == SCHEMA_VERSION,
            None => false,
        },
        None => !dir_exists,
    }
}

/// The hits kept are at most `room`, each a candidate that resolved, in
/// increasing rank order, all at or after `i`.
pub proof fn lemma_kept_hits_sound(resolved: Seq<bool>, i: int, room: int)
    requires
        0 <= i,
        resolved.len() <= usize::MAX,
    ensures
        kept_from(resolved, i, room).len() <= (if room < 0 {
            0
        } else {
            room
        }),
        forall|k: int|
            0 <= k < kept_from(resolved, i, room).len() ==> {
                &&& i <= #[trigger] kept_from(resolved, i, room)[k] < resolved.len()
                &&& resolved[kept_from(resolved, i, room)[k] as int]
            },
        forall|j: int, k: int|
            0 <= j < k < kept_from(resolved, i, room).len() ==> kept_from(resolved, i, room)[j]
                < kept_from(resolved, i, room)[k],
    decreases resolved.len() - i,
{
    if i < resolved.len() && room > 0 {
        if resolved[i] {
            lemma_kept_hits_sound(resolved, i + 1, room - 1);
            let rest = kept_from(resolved, i + 1, room - 1);
            let all = kept_from(resolved, i, room);
            assert(all == seq![i as usize] + rest);
            assert forall|k: int| 0 <= k < all.len() implies {
                &&& i <= #[trigger] all[k] < resolved.len()
                &&& resolved[all[k] as int]
            } by {
                if k > 0 {
                    assert(all[k] == rest[k - 1]);
                } else {
                    assert(all[0] == i as usize);
                    assert(i as usize as int == i);
                }
            }
            assert forall|j: int, k: int| 0 <= j < k < all.len() implies all[j] < all[k] by {
                assert(all[k] == rest[k - 1]);
                if j > 0 {
                    assert(all[j] == rest[j - 1]);
                }
            }
        } else {
            lemma_kept_hits_sound(resolved, i + 1, room);
        }
    }
}

/// The backfill batches cut `0..total` into consecutive, non-empty pieces
/// of at most 200 ids: every id is indexed, once.
pub proof fn lemma_batches_partition(bs: Seq<Batch>, total: int)
    requires
        bs.len() * 200 >= total,
        bs.len() * 200 < total + 200,
        forall|i: int| 0 <= i < bs.len() ==> batch_ok(#[trigger] bs[i], total, i),
    ensures
        bs.len() > 0 ==> bs[0].start == 0 && bs[bs.len() - 1].end == total,
        bs.len() == 0 ==> total <= 0,
        forall|i: int| 0 <= i < bs.len() ==> #[trigger] bs[i].start < bs[i].end <= bs[i].start + 200,
        forall|i: int| 0 <= i < bs.len() - 1 ==> #[trigger] bs[i].end == bs[i + 1].start,
{
    if bs.len() > 0 {
        assert(batch_ok(bs[0], total, 0));
        assert(batch_ok(bs[bs.len() - 1], total, bs.len() - 1));
    }
    assert forall|i: int| 0 <= i < bs.len() implies #[trigger] bs[i].start < bs[i].end <= bs[i].start + 200 by {
        assert(batch_ok(bs[i], total, i));
        assert(200 * i < total) by {
            assert(i <= bs.len() - 1);
        }
    }
    assert forall|i: int| 0 <= i < bs.len() - 1 implies #[trigger] bs[i].end == bs[i + 1].start by {
        assert(batch_ok(bs[i], total, i));
        assert(batch_ok(bs[i + 1], total, i + 1));
        assert(200 * i + 200 < total) by {
            assert(i + 1 <= bs.len() - 1);
        }
    }
}

/// The filter clause a flag adds to the search query.
spec fn flag_clause(on: bool, c: Seq<char>) -> Seq<char> {
    if on {
        c
    } else {
        seq![]
    }
}

/// Toggling one filter of a search inserts exactly its own clause into the
/// query: `unread_only` adds ` AND a.read = 0`, `favorites_only` adds
/// ` AND a.favorite = 1`.
pub proof fn lemma_search_sql_filters(o: SearchOpts)
    ensures
        !o.unread_only ==> exists|k: int|
            0 <= k <= spec_search_sql(o).len() && spec_search_sql(SearchOpts { unread_only: true, ..o })
                == spec_search_sql(o).take(k) + " AND a.read = 0"@ + spec_search_sql(o).skip(k),
        !o.favorites_only ==> exists|k: int|
            0 <= k <= spec_search_sql(o).len() && spec_search_sql(SearchOpts { favorites_only: true, ..o })
                == spec_search_sql(o).take(k) + " AND a.favorite = 1"@ + spec_search_sql(o).skip(k),
{
    let h = search_select() + (match o.feed_id {
        Some(id) => " AND a.feed_id = "@ + signed_decimal(id as int),
        None => seq![],
    });
    let u = flag_clause(o.unread_only, " AND a.read = 0"@);
    let v = flag_clause(o.favorites_only, " AND a.favorite = 1"@);
    let t = match o.since_ms {
        Some(ms) => " AND COALESCE(a.published_ms, a.fetched_ms) >= "@ + signed_decimal(ms as int),
        None => seq![],
    };
    let s = spec_search_sql(o);
    assert(s == h + u + v + t);
    if !o.unread_only {
        let x = h;
        let y = v + t;
        assert(s =~= x + y);
        crate::db::lemma_insert_between(x, y, " AND a.read = 0"@);
        assert(spec_search_sql(SearchOpts { unread_only: true, ..o }) =~= x + " AND a.read = 0"@ + y);
    }
    if !o.favorites_only {
        let x = h + u;
        let y = t;
        assert(s =~= x + y);
        crate::db::lemma_insert_between(x, y, " AND a.favorite = 1"@);
        assert(spec_search_sql(SearchOpts { favorites_only: true, ..o }) =~= x + " AND a.favorite = 1"@
            + y);
    }
}

/// Decimal numbers are written with digits only.
proof fn lemma_decimal_digits(n: nat)
    ensures
        forall|i: int| 0 <= i < decimal(n).len() ==> '0' <= #[trigger] decimal(n)[i] <= '9',
    decreases n,
{
    let d = n % 10;
    assert(('0' as u32) + d < 58);
    assert('0' <= crate::fetch::digit_char(d) <= '9');
    if n >= 10 {
        lemma_decimal_digits(n / 10);
        let a = decimal(n / 10);
        assert forall|i: int| 0 <= i < decimal(n).len() implies '0' <= #[trigger] decimal(n)[i] <= '9' by {
            if i < a.len() {
                assert(decimal(n)[i] == a[i]);
            }
        }
    }
}

/// Signed decimal numbers are written with digits and a minus sign only.
proof fn lemma_signed_decimal_chars(x: int)
    ensures
        forall|i: int|
            0 <= i < signed_decimal(x).len() ==> #[trigger] signed_decimal(x)[i] == '-' || '0'
                <= signed_decimal(x)[i] <= '9',
{
    if x < 0 {
        lemma_decimal_digits((-x) as nat);
        assert forall|i: int| 0 <= i < signed_decimal(x).len() implies #[trigger] signed_decimal(x)[i]
            == '-' || '0' <= signed_decimal(x)[i] <= '9' by {
            if i > 0 {
                assert(signed_decimal(x)[i] == decimal((-x) as nat)[i - 1]);
            }
        }
    } else {
        lemma_decimal_digits(x as nat);
    }
}

/// A search with neither the unread nor the favorites flag set holds
/// neither clause, whatever its feed and period filters.
pub proof fn lemma_search_sql_unfiltered(o: SearchOpts)
    requires
        !o.unread_only,
        !o.favorites_only,
    ensures
        !crate::text::contains_seq(spec_search_sql(o), " AND a.read = 0"@, false),
        !crate::text::contains_seq(spec_search_sql(o), " AND a.favorite = 1"@, false),
{
    reveal_strlit("SELECT a.id, a.feed_id, f.title, a.title, a.url, a.author, a.published_ms, a.excerpt, a.read, a.favorite, a.later, COALESCE(a.content, a.summary, a.excerpt) FROM articles a JOIN feeds f ON f.id = a.feed_id WHERE a.id = ?1");
    reveal_strlit(" AND a.feed_id = ");
    reveal_strlit(" AND COALESCE(a.published_ms, a.fetched_ms) >= ");
    reveal_strlit(" AND a.read = 0");
    reveal_strlit(" AND a.favorite = 1");
    let a = search_select();
    let b = match o.feed_id {
        Some(id) => " AND a.feed_id = "@ + signed_decimal(id as int),
        None => seq![],
    };
    let c = match o.since_ms {
        Some(ms) => " AND COALESCE(a.published_ms, a.fetched_ms) >= "@ + signed_decimal(ms as int),
        None => seq![],
    };
    match o.feed_id {
        Some(id) => lemma_signed_decimal_chars(id as int),
        None => {},
    }
    match o.since_ms {
        Some(ms) => lemma_signed_decimal_chars(ms as int),
        None => {},
    }
    let s = spec_search_sql(o);
    assert(s == a + b + c);
    let pr = " AND a.read = 0"@;
    let pf = " AND a.favorite = 1"@;
    assert forall|k: int| 0 <= k < s.len() implies !occurs_at(s, k, pr, false) by {
        if occurs_at(s, k, pr, false) {
            assert(crate::text::same_char(s[k + 1], pr[1], false));
            assert(crate::text::same_char(s[k + 7], pr[7], false));
        }
    }
    crate::text::lemma_find_none(s, pr, false);
    assert forall|k: int| 0 <= k < s.len() implies !occurs_at(s, k, pf, false) by {
        if occurs_at(s, k, pf, false) {
            assert(crate::text::same_char(s[k + 1], pf[1], false));
            assert(crate::text::same_char(s[k + 2], pf[2], false));
            assert(crate::text::same_char(s[k + 8], pf[8], false));
        }
    }
    crate::text::lemma_find_none(s, pf, false);
}

/// A stretch without `<` is copied by the scan.
proof fn lemma_scan_copies(s: Seq<char>, i: int, m: int)
    requires
        0 <= i <= m <= s.len(),
        forall|k: int| i <= k < m ==> s[k] != '<',
    ensures
        text_scan(s, i) == s.subrange(i, m) + text_scan(s, m),
    decreases m - i,
{
    if i < m {
        lemma_scan_copies(s, i + 1, m);
        assert(seq![s[i]] + (s.subrange(i + 1, m) + text_scan(s, m)) =~= s.subrange(i, m) + text_scan(
            s,
            m,
        ));
    } else {
        assert(s.subrange(i, m) =~= Seq::<char>::empty());
    }
}

/// Every tag becomes a separator: for texts `a` and `b` without `<` or
/// `&`, and a tag `<...>` that is not a script or style element, the plain
/// text of `a`, the tag and `b` is the collapsed text of `a`, a space and
/// `b`, so words on both sides of a tag stay apart.
pub proof fn lemma_tag_separates(a: Seq<char>, x: Seq<char>, b: Seq<char>)
    requires
        !a.contains('<'),
        !a.contains('&'),
        !b.contains('<'),
        !b.contains('&'),
        !x.contains('>'),
        !crate::text::has_prefix(lower_seq(seq!['<'] + x + seq!['>']), "<script"@),
        !crate::text::has_prefix(lower_seq(seq!['<'] + x + seq!['>']), "<style"@),
    ensures
        text_of(a + (seq!['<'] + x + seq!['>']) + b) == collapse_ws(a + seq![' '] + b),
{
    reveal_strlit("<script");
    reveal_strlit("<style");
    reveal_strlit(">");
    let g = seq!['<'] + x + seq!['>'];
    let s = a + g + b;
    let n = s.len() as int;
    let m = a.len() as int;
    let e = m + g.len();
    let low = lower_seq(s);
    let lg = lower_seq(g);
    assert forall|k: int| 0 <= k < m implies s[k] != '<' by {
        if s[k] == '<' {
            assert(a[k] == '<');
        }
    }
    lemma_scan_copies(s, 0, m);
    assert(s.subrange(0, m) =~= a);
    // the tag is no script or style element
    assert(!occurs_at(low, m, "<script"@, false)) by {
        if occurs_at(low, m, "<script"@, false) {
            if 7 <= g.len() {
                assert(lg.take(7) =~= "<script"@) by {
                    assert forall|k: int| 0 <= k < 7 implies lg.take(7)[k] == "<script"@[k] by {
                        assert(crate::text::same_char(low[m + k], "<script"@[k], false));
                        assert(low[m + k] == lg[k]);
                    }
                }
            } else {
                let k = g.len() - 1;
                assert(crate::text::same_char(low[m + k], "<script"@[k], false));
                assert(low[m + k] == '>');
            }
        }
    }
    assert(!occurs_at(low, m, "<style"@, false)) by {
        if occurs_at(low, m, "<style"@, false) {
            if 6 <= g.len() {
                assert(lg.take(6) =~= "<style"@) by {
                    assert forall|k: int| 0 <= k < 6 implies lg.take(6)[k] == "<style"@[k] by {
                        assert(crate::text::same_char(low[m + k], "<style"@[k], false));
                        assert(low[m + k] == lg[k]);
                    }
                }
            } else {
                let k = g.len() - 1;
                assert(crate::text::same_char(low[m + k], "<style"@[k], false));
                assert(low[m + k] == '>');
            }
        }
    }
    // the tag ends at its own `>`
    let z: int = 0;
    assert(occurs_at(low, e - 1, ">"@, false)) by {
        assert(crate::text::same_char(low[(e - 1) + z], ">"@[z], false));
    }
    assert forall|k: int| m <= k < e - 1 implies !occurs_at(low, k, ">"@, false) by {
        if occurs_at(low, k, ">"@, false) {
            assert(crate::text::same_char(low[k + z], ">"@[z], false));
            if k > m {
                assert(x[k - m - 1] == '>');
            }
        }
    }
    crate::text::lemma_find_at(low, m, e - 1, ">"@, false);
    assert(s[m] == '<');
    assert(text_scan(s, m) == seq![' '] + text_scan(s, e));
    assert forall|k: int| e <= k < n implies s[k] != '<' by {
        if s[k] == '<' {
            assert(b[k - e] == '<');
        }
    }
    lemma_scan_copies(s, e, n);
    assert(s.subrange(e, n) =~= b);
    assert(text_scan(s, n) =~= Seq::<char>::empty());
    let y = a + seq![' '] + b;
    assert(text_scan(s, 0) =~= y);
    assert(!y.contains('&')) by {
        crate::text::lemma_concat_contains(a, seq![' '], '&');
        crate::text::lemma_concat_contains(a + seq![' '], b, '&');
        if seq![' '].contains('&') {
            let k = choose|k: int| 0 <= k < 1 && #[trigger] seq![' '][k] == '&';
        }
    }
    lemma_decode_plain(y);
}

} // verus!
