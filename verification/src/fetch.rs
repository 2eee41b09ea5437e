//! Feed discovery, article rows and text cleanup for what the network brings.
use vstd::prelude::*;

use crate::text::{
    chars_of, contains, contains_seq, find, find_from, is_whitespace, is_ws, lower_all,
    lower_seq, replace, replace_all, slice_chars, starts_with, has_prefix, string_of, trim,
    trim_chars, views, lemma_views_push,
};

verus! {

/// The excerpt scan: drops what lies between `<` and `>`, turns each
/// whitespace char into a space, keeps no two spaces in a row (none at the
/// start), and stops once the output holds 500 chars. `n` counts the chars
/// written so far.
pub open spec fn strip_scan(s: Seq<char>, in_tag: bool, last_space: bool, n: nat) -> Seq<char>
    decreases s.len(),
{
    if s.len() == 0 {
        seq![]
    } else {
        let c = s[0];
        let rest = s.skip(1);
        if c == '<' {
            strip_scan(rest, true, last_space, n)
        } else if c == '>' {
            strip_scan(rest, false, last_space, n)
        } else if in_tag {
            strip_scan(rest, true, last_space, n)
        } else {
            let ch = if is_ws(c) {
                ' '
            } else {
                c
            };
            if ch == ' ' && last_space {
                strip_scan(rest, false, last_space, n)
            } else if n + 1 >= 500 {
                seq![ch]
            } else {
                seq![ch] + strip_scan(rest, false, ch == ' ', n + 1)
            }
        }
    }
}

/// The common entities that `strip_html` decodes, in the order it does.
pub open spec fn decode_excerpt_entities(s: Seq<char>) -> Seq<char> {
    replace_all(
        replace_all(
            replace_all(
                replace_all(replace_all(replace_all(s, "&amp;"@, "&"@), "&lt;"@, "<"@), "&gt;"@, ">"@),
                "&quot;"@,
                "\""@,
            ),
            "&#39;"@,
            "'"@,
        ),
        "&nbsp;"@,
        " "@,
    )
}

/// Plain text of an HTML fragment, for excerpts.
pub open spec fn spec_strip_html(html: Seq<char>) -> Seq<char> {
    trim(decode_excerpt_entities(strip_scan(html, false, true, 0)))
}

/// The excerpt scan writes at most 500 chars in all.
proof fn lemma_strip_scan_len(s: Seq<char>, in_tag: bool, last_space: bool, n: nat)
    requires
        n < 500,
    ensures
        strip_scan(s, in_tag, last_space, n).len() <= 500 - n,
    decreases s.len(),
{
    if s.len() > 0 {
        let c = s[0];
        let ch = if is_ws(c) {
            ' '
        } else {
            c
        };
        lemma_strip_scan_len(s.skip(1), true, last_space, n);
        lemma_strip_scan_len(s.skip(1), false, last_space, n);
        if n + 1 < 500 {
            lemma_strip_scan_len(s.skip(1), false, ch == ' ', n + 1);
        }
    }
}

/// An excerpt holds at most 500 chars.
proof fn lemma_strip_html_len(html: Seq<char>)
    ensures
        spec_strip_html(html).len() <= 500,
{
    reveal_strlit("&amp;");
    reveal_strlit("&");
    reveal_strlit("&lt;");
    reveal_strlit("<");
    reveal_strlit("&gt;");
    reveal_strlit(">");
    reveal_strlit("&quot;");
    reveal_strlit("\"");
    reveal_strlit("&#39;");
    reveal_strlit("'");
    reveal_strlit("&nbsp;");
    reveal_strlit(" ");
    let s0 = strip_scan(html, false, true, 0);
    lemma_strip_scan_len(html, false, true, 0);
    let s1 = replace_all(s0, "&amp;"@, "&"@);
    crate::text::lemma_replace_not_longer(s0, "&amp;"@, "&"@);
    let s2 = replace_all(s1, "&lt;"@, "<"@);
    crate::text::lemma_replace_not_longer(s1, "&lt;"@, "<"@);
    let s3 = replace_all(s2, "&gt;"@, ">"@);
    crate::text::lemma_replace_not_longer(s2, "&gt;"@, ">"@);
    let s4 = replace_all(s3, "&quot;"@, "\""@);
    crate::text::lemma_replace_not_longer(s3, "&quot;"@, "\""@);
    let s5 = replace_all(s4, "&#39;"@, "'"@);
    crate::text::lemma_replace_not_longer(s4, "&#39;"@, "'"@);
    let s6 = replace_all(s5, "&nbsp;"@, " "@);
    crate::text::lemma_replace_not_longer(s5, "&nbsp;"@, " "@);
    crate::text::lemma_trim_len(s6);
}

/// Replaces `pat` by `rep` where both are literals.
fn replace_lit(s: &[char], pat: &str, rep: &str) -> (r: Vec<char>)
    requires
        pat@.len() > 0,
    ensures
        r@ == replace_all(s@, pat@, rep@),
{
    let p = chars_of(pat);
    let q = chars_of(rep);
    replace(s, p.as_slice(), q.as_slice())
}

/// Plain text of an HTML fragment (excerpt): tags removed, whitespace
/// squeezed, cut at 500 chars, common entities decoded, trimmed.
pub fn strip_html(html: &str) -> (r: String)
    ensures
        r@ == spec_strip_html(html@),
        r@.len() <= 500,
{
    let s = chars_of(html);
    let mut out: Vec<char> = Vec::new();
    let mut in_tag = false;
    let mut last_space = true;
    let mut n: usize = 0;
    let mut i: usize = 0;
    assert(s@.skip(0) =~= s@);
    while i < s.len()
        invariant_except_break
            i <= s@.len(),
            n < 500,
            strip_scan(s@, false, true, 0) == out@ + strip_scan(s@.skip(i as int), in_tag, last_space, n as nat),
        ensures
            out@ == strip_scan(s@, false, true, 0),
        decreases s@.len() - i,
    {
        let c = s[i];
        assert(s@.skip(i as int).skip(1) =~= s@.skip(i + 1));
        i += 1;
        if c == '<' {
            in_tag = true;
        } else if c == '>' {
            in_tag = false;
        } else if !in_tag {
            let ch = if is_whitespace(c) {
                ' '
            } else {
                c
            };
            if !(ch == ' ' && last_space) {
                let m = n + 1;
                out.push(ch);
                if m >= 500 {
                    break;
                }
                last_space = ch == ' ';
                n = m;
            }
        }
    }
    proof {
        reveal_strlit("&amp;");
        reveal_strlit("&");
        reveal_strlit("&lt;");
        reveal_strlit("<");
        reveal_strlit("&gt;");
        reveal_strlit(">");
        reveal_strlit("&quot;");
        reveal_strlit("\"");
        reveal_strlit("&#39;");
        reveal_strlit("'");
        reveal_strlit("&nbsp;");
        reveal_strlit(" ");
    }
    let t = replace_lit(out.as_slice(), "&amp;", "&");
    let t = replace_lit(t.as_slice(), "&lt;", "<");
    let t = replace_lit(t.as_slice(), "&gt;", ">");
    let t = replace_lit(t.as_slice(), "&quot;", "\"");
    let t = replace_lit(t.as_slice(), "&#39;", "'");
    let t = replace_lit(t.as_slice(), "&nbsp;", " ");
    let t = trim_chars(t.as_slice());
    proof {
        lemma_strip_html_len(html@);
    }
    string_of(t.as_slice())
}

/// What `url::Url::parse(base)` followed by `Url::join(reference)` gives,
/// serialized; `None` when either step fails.
pub uninterp spec fn spec_url_join(base: Seq<char>, reference: Seq<char>) -> Option<Seq<char>>;

/// Resolves `reference` against `base` with the `url` crate: parses `base`
/// (`url::Url::parse`), joins (`Url::join`) and serializes the result.
/// The contract only names the outcome; what WHATWG URL resolution does is
/// not restated here.
#[verifier::external_body]
pub(crate) fn url_join(base: &str, reference: &str) -> (r: Option<String>)
    ensures
        r matches Some(u) ==> spec_url_join(base@, reference@) == Some(u@),
        r is None ==> spec_url_join(base@, reference@) is None,
{
    url::Url::parse(base).ok()?.join(reference).ok().map(|u| u.to_string())
}

/// The value of attribute `name` in a tag fragment: the first place where the
/// lower-cased tag holds `name=`, then a quoted value (single or double
/// quotes), up to the matching quote.
pub open spec fn spec_attr_value(tag: Seq<char>, name: Seq<char>) -> Option<Seq<char>> {
    match find_from(lower_seq(tag), 0, name + seq!['='], false) {
        None => None,
        Some(at) => {
            let rest = tag.skip(at + name.len() + 1);
            if rest.len() == 0 || (rest[0] != '"' && rest[0] != '\'') {
                None
            } else {
                let inner = rest.skip(1);
                match find_from(inner, 0, seq![rest[0]], false) {
                    None => None,
                    Some(end) => Some(inner.take(end)),
                }
            }
        }
    }
}

fn attr_value_chars(tag: &[char], name: &[char]) -> (r: Option<Vec<char>>)
    ensures
        r matches Some(v) ==> spec_attr_value(tag@, name@) == Some(v@),
        r is None ==> spec_attr_value(tag@, name@) is None,
{
    let tag_len = tag.len();
    let low = lower_all(tag);
    let mut pat: Vec<char> = Vec::new();
    crate::text::push_all(&mut pat, name);
    pat.push('=');
    assert(pat@ == name@ + seq!['=']);
    let at = match find(low.as_slice(), 0, pat.as_slice(), false) {
        Some(at) => at,
        None => return None,
    };
    proof {
        crate::text::lemma_find_from(lower_seq(tag@), 0, pat@, false);
        assert(find_from(lower_seq(tag@), 0, pat@, false) == Some(at as int));
        assert(at + pat@.len() <= tag@.len());
        assert(pat@.len() == name@.len() + 1);
        assert(at + name@.len() + 1 <= tag@.len());
    }
    let start = at + name.len() + 1;
    let rest = slice_chars(tag, start, tag.len());
    assert(rest@ =~= tag@.skip(start as int));
    if rest.len() == 0 {
        return None;
    }
    let q = rest[0];
    if q != '"' && q != '\'' {
        return None;
    }
    let inner = slice_chars(rest.as_slice(), 1, rest.len());
    assert(inner@ =~= rest@.skip(1));
    let qs: Vec<char> = vec![q];
    assert(qs@ =~= seq![q]);
    match find(inner.as_slice(), 0, qs.as_slice(), false) {
        Some(end) => {
            proof {
                crate::text::lemma_find_from(inner@, 0, qs@, false);
            }
            let v = slice_chars(inner.as_slice(), 0, end);
            assert(v@ =~= inner@.take(end as int));
            Some(v)
        },
        None => None,
    }
}

/// Value of attribute `name` in a tag fragment (single or double quotes).
pub fn attr_value(tag: &str, name: &str) -> (r: Option<String>)
    ensures
        r matches Some(v) ==> spec_attr_value(tag@, name@) == Some(v@),
        r is None ==> spec_attr_value(tag@, name@) is None,
{
    let t = chars_of(tag);
    let n = chars_of(name);
    match attr_value_chars(t.as_slice(), n.as_slice()) {
        Some(v) => Some(string_of(v.as_slice())),
        None => None,
    }
}

/// A `<link>` tag (lower-cased) that announces a feed.
pub open spec fn is_feed_link_tag(tl: Seq<char>) -> bool {
    &&& contains_seq(tl, "alternate"@, false)
    &&& {
        ||| contains_seq(tl, "rss+xml"@, false)
        ||| contains_seq(tl, "atom+xml"@, false)
        ||| contains_seq(tl, "feed+json"@, false)
    }
}

/// The `href` of a tag resolved against `base`, when both steps succeed.
pub open spec fn resolved_href(tag: Seq<char>, base: Seq<char>) -> Seq<Seq<char>> {
    match spec_attr_value(tag, "href"@) {
        Some(h) => match spec_url_join(base, h) {
            Some(a) => seq![a],
            None => seq![],
        },
        None => seq![],
    }
}

/// Feed links announced by the `<link>` tags of `html` from `pos` on. Each
/// tag runs to the next `>` (or the end); the scan resumes at the tag's end,
/// at least five chars after its start.
pub open spec fn feed_links_from(html: Seq<char>, pos: int, base: Seq<char>) -> Seq<Seq<char>>
    decreases html.len() - pos,
{
    let low = lower_seq(html);
    if pos < 0 || pos >= html.len() {
        seq![]
    } else {
        match find_from(low, pos, "<link"@, false) {
            None => seq![],
            Some(start) => {
                let end = match find_from(low, start, ">"@, false) {
                    Some(e) => e,
                    None => html.len() as int,
                };
                let here = if start <= end <= html.len() && is_feed_link_tag(low.subrange(start, end)) {
                    resolved_href(html.subrange(start, end), base)
                } else {
                    seq![]
                };
                let capped = if end < html.len() - 1 {
                    end
                } else {
                    html.len() - 1
                };
                let next = if capped > start + 5 {
                    capped
                } else {
                    start + 5
                };
                if next <= pos || next >= html.len() {
                    here
                } else {
                    here + feed_links_from(html, next, base)
                }
            },
        }
    }
}

/// Feed URLs announced by `<link rel="alternate" type="application/rss+xml"
/// href=...>` (or atom+xml, feed+json) tags of an HTML page, resolved
/// against `base`.
pub fn html_feed_links(html: &str, base: &str) -> (r: Vec<String>)
    ensures
        views(r@) == feed_links_from(html@, 0, base@),
{
    let s = chars_of(html);
    let n = s.len();
    let low = lower_all(s.as_slice());
    let link = chars_of("<link");
    let gt = chars_of(">");
    proof {
        reveal_strlit("<link");
        reveal_strlit(">");
    }
    let mut out: Vec<String> = Vec::new();
    let mut pos: usize = 0;
    while pos < n
        invariant_except_break
            pos <= n,
        invariant
            n == s@.len(),
            low@ == lower_seq(s@),
            s@ == html@,
            link@ == "<link"@,
            link@.len() == 5,
            gt@ == ">"@,
            feed_links_from(html@, 0, base@) == views(out@) + feed_links_from(html@, pos as int, base@),
        ensures
            views(out@) == feed_links_from(html@, 0, base@),
        decreases n - pos,
    {
        let start = match find(low.as_slice(), pos, link.as_slice(), false) {
            Some(k) => k,
            None => {
                assert(feed_links_from(html@, pos as int, base@) == Seq::<Seq<char>>::empty());
                assert(views(out@) + Seq::<Seq<char>>::empty() =~= views(out@));
                break;
            },
        };
        proof {
            crate::text::lemma_find_from(low@, pos as int, link@, false);
            assert(start + 5 <= n);
        }
        let end = match find(low.as_slice(), start, gt.as_slice(), false) {
            Some(e) => e,
            None => n,
        };
        proof {
            crate::text::lemma_find_from(low@, start as int, gt@, false);
        }
        let ghost here: Seq<Seq<char>> = if start <= end <= html@.len() && is_feed_link_tag(
            low@.subrange(start as int, end as int),
        ) {
            resolved_href(html@.subrange(start as int, end as int), base@)
        } else {
            seq![]
        };
        let ghost before = views(out@);
        let tl = slice_chars(low.as_slice(), start, end);
        if contains(tl.as_slice(), "alternate", false) && (contains(tl.as_slice(), "rss+xml", false)
            || contains(tl.as_slice(), "atom+xml", false) || contains(
            tl.as_slice(),
            "feed+json",
            false,
        )) {
            let tag = string_of(slice_chars(s.as_slice(), start, end).as_slice());
            match attr_value(tag.as_str(), "href") {
                Some(href) => match url_join(base, href.as_str()) {
                    Some(abs) => {
                        proof {
                            lemma_views_push(out@, abs);
                        }
                        out.push(abs);
                    },
                    None => {},
                },
                None => {},
            }
        }
        assert(views(out@) == before + here);
        let capped = if end < n - 1 {
            end
        } else {
            n - 1
        };
        let next = if capped > start + 5 {
            capped
        } else {
            start + 5
        };
        assert(feed_links_from(html@, pos as int, base@) == here + feed_links_from(html@, next as int, base@)) by {
            if next >= n {
                assert(feed_links_from(html@, next as int, base@) == Seq::<Seq<char>>::empty());
                assert(here + Seq::<Seq<char>>::empty() =~= here);
            }
        }
        assert(before + (here + feed_links_from(html@, next as int, base@)) =~= (before + here)
            + feed_links_from(html@, next as int, base@));
        pos = next;
    }
    out
}

/// The address the user typed, as the first one to fetch: kept when it
/// already names `http://` or `https://`, else `https://` is put in front.
pub open spec fn spec_start_url(input: Seq<char>) -> Seq<char> {
    if has_prefix(input, "http://"@) || has_prefix(input, "https://"@) {
        input
    } else {
        "https://"@ + input
    }
}

pub fn start_url(input: &str) -> (r: String)
    ensures
        r@ == spec_start_url(input@),
{
    let s = chars_of(input);
    if starts_with(s.as_slice(), "http://") || starts_with(s.as_slice(), "https://") {
        string_of(s.as_slice())
    } else {
        let mut v = chars_of("https://");
        crate::text::push_all(&mut v, s.as_slice());
        string_of(v.as_slice())
    }
}

/// What `String::from_utf8_lossy` gives for `bytes`.
pub uninterp spec fn spec_utf8_lossy(bytes: Seq<u8>) -> Seq<char>;

/// std's `String::from_utf8_lossy`: valid UTF-8 decodes as itself; each
/// invalid sequence becomes U+FFFD (where those sequences are is not
/// restated here), so a `&` in the text comes from a `&` byte.
#[verifier::external_body]
pub(crate) fn utf8_lossy(bytes: &[u8]) -> (r: String)
    ensures
        r@ == spec_utf8_lossy(bytes@),
        vstd::utf8::valid_utf8(bytes@) ==> r@ == vstd::utf8::decode_utf8(bytes@),
        !bytes@.contains(38u8) ==> !r@.contains('&'),
{
    String::from_utf8_lossy(bytes).into_owned()
}

/// Common feed paths tried when a page announces none.
pub open spec fn guess_paths() -> Seq<Seq<char>> {
    seq!["feed"@, "rss"@, "feed.xml"@, "atom.xml"@, "index.xml"@, "rss.xml"@]
}

/// The guesses resolved against `url`, those that resolve, in order.
pub open spec fn resolved_guesses(url: Seq<char>, guesses: Seq<Seq<char>>) -> Seq<Seq<char>>
    decreases guesses.len(),
{
    if guesses.len() == 0 {
        seq![]
    } else {
        let head = match spec_url_join(url, guesses[0]) {
            Some(a) => seq![a],
            None => seq![],
        };
        head + resolved_guesses(url, guesses.skip(1))
    }
}

/// Where to look for a feed when `url` answered with a page that is not one:
/// the feeds the page announces, then the common paths.
pub open spec fn spec_candidates(page: Seq<u8>, url: Seq<char>) -> Seq<Seq<char>> {
    feed_links_from(spec_utf8_lossy(page), 0, url) + resolved_guesses(url, guess_paths())
}

pub fn candidates(page: &[u8], url: &str) -> (r: Vec<String>)
    ensures
        views(r@) == spec_candidates(page@, url@),
{
    let html = utf8_lossy(page);
    let mut out = html_feed_links(html.as_str(), url);
    let guesses = ["feed", "rss", "feed.xml", "atom.xml", "index.xml", "rss.xml"];
    let ghost g = guess_paths();
    assert(g.len() == 6);
    assert(g.skip(0) =~= g);
    let ghost links = views(out@);
    let mut i: usize = 0;
    while i < 6
        invariant
            i <= 6,
            g == guess_paths(),
            forall|k: int| 0 <= k < 6 ==> #[trigger] guesses@[k]@ == g[k],
            links + resolved_guesses(url@, g) == views(out@) + resolved_guesses(url@, g.skip(i as int)),
        decreases 6 - i,
    {
        assert(g.skip(i as int).skip(1) =~= g.skip(i + 1));
        match url_join(url, guesses[i]) {
            Some(a) => {
                proof {
                    lemma_views_push(out@, a);
                }
                out.push(a);
            },
            None => {},
        }
        i += 1;
    }
    assert(g.skip(6) =~= Seq::<Seq<char>>::empty());
    assert(views(out@) + Seq::<Seq<char>>::empty() =~= views(out@));
    out
}

/// One entry of a parsed feed, reduced to the fields the reader keeps.
pub struct FeedEntry {
    pub id: String,
    pub title: Option<String>,
    /// `href` of each link, in order.
    pub links: Vec<String>,
    /// Name of each author, in order.
    pub authors: Vec<String>,
    pub published_ms: Option<i64>,
    pub updated_ms: Option<i64>,
    pub summary: Option<String>,
    /// Body of the entry's content element.
    pub content_body: Option<String>,
}

/// A parsed feed, reduced to the fields the reader keeps.
pub struct ParsedFeed {
    pub title: Option<String>,
    /// `href` of each link of the feed, in order.
    pub links: Vec<String>,
    pub entries: Vec<FeedEntry>,
}

/// A feed found for what the user typed, and the address it came from.
pub struct Discovered {
    pub feed_url: String,
    pub feed: ParsedFeed,
}

/// An entry as `feed_rs` parses it.
#[verifier::external_type_specification]
#[verifier::external_body]
pub struct ExFeedRsEntry(feed_rs::model::Entry);

/// Converts one `feed_rs` entry, field by field.
#[verifier::external_body]
fn entry_of(e: feed_rs::model::Entry) -> FeedEntry {
    FeedEntry {
        id: e.id,
        title: e.title.map(|t| t.content),
        links: e.links.into_iter().map(|l| l.href).collect(),
        authors: e.authors.into_iter().map(|a| a.name).collect(),
        published_ms: e.published.map(|d| d.timestamp_millis()),
        updated_ms: e.updated.map(|d| d.timestamp_millis()),
        summary: e.summary.map(|t| t.content),
        content_body: e.content.and_then(|c| c.body),
    }
}

/// What `feed_rs::parser::parse` reads out of the bytes: `None` when they
/// are not a feed, else the feed's title, the `href` of each of its links,
/// and for each entry, in order, the id written in the feed (empty when
/// there is none) with its title, link `href`s, author names, published and
/// updated times (milliseconds since the epoch), summary and content body.
pub uninterp spec fn spec_feed_parse(bytes: Seq<u8>) -> Option<
    (
        Option<Seq<char>>,
        Seq<Seq<char>>,
        Seq<
            (
                Seq<char>,
                (
                    Option<Seq<char>>,
                    Seq<Seq<char>>,
                    Seq<Seq<char>>,
                    Option<i64>,
                    Option<i64>,
                    Option<Seq<char>>,
                    Option<Seq<char>>,
                ),
            ),
        >,
    ),
>;

/// An entry's fields apart from its id.
pub open spec fn entry_view(e: FeedEntry) -> (
    Option<Seq<char>>,
    Seq<Seq<char>>,
    Seq<Seq<char>>,
    Option<i64>,
    Option<i64>,
    Option<Seq<char>>,
    Option<Seq<char>>,
) {
    (
        opt_view(e.title),
        views(e.links@),
        views(e.authors@),
        e.published_ms,
        e.updated_ms,
        opt_view(e.summary),
        opt_view(e.content_body),
    )
}

/// `f` is what `spec_feed_parse` read, with an id for every entry: the id
/// written in the feed where there is one, one of the parser's own (never
/// empty) where there is none.
pub open spec fn parsed_as(
    f: ParsedFeed,
    p: (
        Option<Seq<char>>,
        Seq<Seq<char>>,
        Seq<
            (
                Seq<char>,
                (
                    Option<Seq<char>>,
                    Seq<Seq<char>>,
                    Seq<Seq<char>>,
                    Option<i64>,
                    Option<i64>,
                    Option<Seq<char>>,
                    Option<Seq<char>>,
                ),
            ),
        >,
    ),
) -> bool {
    &&& opt_view(f.title) == p.0
    &&& views(f.links@) == p.1
    &&& f.entries@.len() == p.2.len()
    &&& forall|i: int|
        0 <= i < f.entries@.len() ==> {
            &&& entry_view(#[trigger] f.entries@[i]) == p.2[i].1
            &&& f.entries@[i].id@.len() > 0
            &&& p.2[i].0.len() > 0 ==> f.entries@[i].id@ == p.2[i].0
        }
}

/// Bytes read one char per byte.
pub open spec fn latin1(b: Seq<u8>) -> Seq<char> {
    Seq::new(b.len(), |i: int| b[i] as char)
}

/// Chars written back one byte each (the low byte).
pub open spec fn latin1_bytes(c: Seq<char>) -> Seq<u8> {
    Seq::new(c.len(), |i: int| c[i] as u8)
}

fn to_latin1(b: &[u8]) -> (r: Vec<char>)
    ensures
        r@ == latin1(b@),
{
    let mut r: Vec<char> = Vec::new();
    let mut i: usize = 0;
    while i < b.len()
        invariant
            i <= b@.len(),
            r@ == latin1(b@).take(i as int),
        decreases b@.len() - i,
    {
        r.push(b[i] as char);
        assert(latin1(b@).take(i + 1) =~= latin1(b@).take(i as int).push(b@[i as int] as char));
        i += 1;
    }
    assert(latin1(b@).take(b@.len() as int) =~= latin1(b@));
    r
}

fn from_latin1(c: &[char]) -> (r: Vec<u8>)
    ensures
        r@ == latin1_bytes(c@),
{
    let mut r: Vec<u8> = Vec::new();
    let mut i: usize = 0;
    while i < c.len()
        invariant
            i <= c@.len(),
            r@ == latin1_bytes(c@).take(i as int),
        decreases c@.len() - i,
    {
        r.push(c[i] as u8);
        assert(latin1_bytes(c@).take(i + 1) =~= latin1_bytes(c@).take(i as int).push(c@[i as int] as u8));
        i += 1;
    }
    assert(latin1_bytes(c@).take(c@.len() as int) =~= latin1_bytes(c@));
    r
}

/// The page with the Media RSS and iTunes namespace addresses spoiled (one
/// char changed in each), so that the parser reads the elements of those
/// namespaces (durations, thumbnails, media texts) as unknown ones. The
/// reader keeps nothing from them.
pub open spec fn without_media_namespaces(page: Seq<u8>) -> Seq<u8> {
    latin1_bytes(
        replace_all(
            replace_all(latin1(page), "search.yahoo.com/mrss"@, "search.yahoo.com/mrs_"@),
            "itunes.com/dtds/podcast-1.0.dtd"@,
            "itunes.com/dtds/podcast-1.0.dt_"@,
        ),
    )
}

/// A page in which neither namespace address occurs is parsed unchanged.
pub proof fn lemma_plain_page_kept(page: Seq<u8>)
    requires
        !contains_seq(latin1(page), "search.yahoo.com/mrss"@, false),
        !contains_seq(latin1(page), "itunes.com/dtds/podcast-1.0.dtd"@, false),
    ensures
        without_media_namespaces(page) == page,
{
    reveal_strlit("search.yahoo.com/mrss");
    reveal_strlit("itunes.com/dtds/podcast-1.0.dtd");
    let c = latin1(page);
    crate::text::lemma_find_from(c, 0, "search.yahoo.com/mrss"@, false);
    crate::text::lemma_find_from(c, 0, "itunes.com/dtds/podcast-1.0.dtd"@, false);
    crate::text::lemma_replace_absent(c, "search.yahoo.com/mrss"@, "search.yahoo.com/mrs_"@);
    crate::text::lemma_replace_absent(c, "itunes.com/dtds/podcast-1.0.dtd"@, "itunes.com/dtds/podcast-1.0.dt_"@);
    assert forall|i: int| 0 <= i < page.len() implies (c[i] as u8) == page[i] by {
        let x = page[i];
        assert((x as char) as u8 == x);
    }
    assert(latin1_bytes(c) =~= page);
}

/// Bytes in which no Media RSS or iTunes namespace can be declared: neither
/// address occurs as ASCII-compatible text or as UTF-16 (either byte order),
/// and no escape byte (with which ISO-2022-JP could split one) occurs.
pub open spec fn media_free(b: Seq<u8>) -> bool {
    let c = latin1(b);
    &&& !contains_seq(c, "search.yahoo.com/mrss"@, false)
    &&& !contains_seq(c, "itunes.com/dtds/podcast-1.0.dtd"@, false)
    &&& !contains_seq(c, "s\u{0}e\u{0}a\u{0}r\u{0}c\u{0}h\u{0}.\u{0}y\u{0}a\u{0}h\u{0}o\u{0}o\u{0}.\u{0}c\u{0}o\u{0}m\u{0}/\u{0}m\u{0}r\u{0}s\u{0}s\u{0}"@, false)
    &&& !contains_seq(c, "\u{0}s\u{0}e\u{0}a\u{0}r\u{0}c\u{0}h\u{0}.\u{0}y\u{0}a\u{0}h\u{0}o\u{0}o\u{0}.\u{0}c\u{0}o\u{0}m\u{0}/\u{0}m\u{0}r\u{0}s\u{0}s"@, false)
    &&& !contains_seq(c, "i\u{0}t\u{0}u\u{0}n\u{0}e\u{0}s\u{0}.\u{0}c\u{0}o\u{0}m\u{0}/\u{0}d\u{0}t\u{0}d\u{0}s\u{0}/\u{0}p\u{0}o\u{0}d\u{0}c\u{0}a\u{0}s\u{0}t\u{0}-\u{0}1\u{0}.\u{0}0\u{0}.\u{0}d\u{0}t\u{0}d\u{0}"@, false)
    &&& !contains_seq(c, "\u{0}i\u{0}t\u{0}u\u{0}n\u{0}e\u{0}s\u{0}.\u{0}c\u{0}o\u{0}m\u{0}/\u{0}d\u{0}t\u{0}d\u{0}s\u{0}/\u{0}p\u{0}o\u{0}d\u{0}c\u{0}a\u{0}s\u{0}t\u{0}-\u{0}1\u{0}.\u{0}0\u{0}.\u{0}d\u{0}t\u{0}d"@, false)
    &&& !c.contains('\u{1b}')
}

fn is_media_free(b: &[u8]) -> (r: bool)
    ensures
        r == media_free(b@),
{
    let c = to_latin1(b);
    if contains(c.as_slice(), "search.yahoo.com/mrss", false) || contains(c.as_slice(), "itunes.com/dtds/podcast-1.0.dtd", false) || contains(c.as_slice(), "s\u{0}e\u{0}a\u{0}r\u{0}c\u{0}h\u{0}.\u{0}y\u{0}a\u{0}h\u{0}o\u{0}o\u{0}.\u{0}c\u{0}o\u{0}m\u{0}/\u{0}m\u{0}r\u{0}s\u{0}s\u{0}", false) || contains(c.as_slice(), "\u{0}s\u{0}e\u{0}a\u{0}r\u{0}c\u{0}h\u{0}.\u{0}y\u{0}a\u{0}h\u{0}o\u{0}o\u{0}.\u{0}c\u{0}o\u{0}m\u{0}/\u{0}m\u{0}r\u{0}s\u{0}s", false) || contains(c.as_slice(), "i\u{0}t\u{0}u\u{0}n\u{0}e\u{0}s\u{0}.\u{0}c\u{0}o\u{0}m\u{0}/\u{0}d\u{0}t\u{0}d\u{0}s\u{0}/\u{0}p\u{0}o\u{0}d\u{0}c\u{0}a\u{0}s\u{0}t\u{0}-\u{0}1\u{0}.\u{0}0\u{0}.\u{0}d\u{0}t\u{0}d\u{0}", false) || contains(c.as_slice(), "\u{0}i\u{0}t\u{0}u\u{0}n\u{0}e\u{0}s\u{0}.\u{0}c\u{0}o\u{0}m\u{0}/\u{0}d\u{0}t\u{0}d\u{0}s\u{0}/\u{0}p\u{0}o\u{0}d\u{0}c\u{0}a\u{0}s\u{0}t\u{0}-\u{0}1\u{0}.\u{0}0\u{0}.\u{0}d\u{0}t\u{0}d", false) {
        return false;
    }
    let mut i: usize = 0;
    while i < c.len()
        invariant
            i <= c@.len(),
            c@ == latin1(b@),
            forall|k: int| 0 <= k < i ==> c@[k] != '\u{1b}',
        decreases c@.len() - i,
    {
        if c[i] == '\u{1b}' {
            assert(c@.contains('\u{1b}'));
            return false;
        }
        i += 1;
    }
    true
}

/// What the reader reads from a fetched page: the parse of the page with
/// the media namespaces spoiled, when no such namespace can be declared in
/// it any more; otherwise no feed.
pub open spec fn spec_read_feed(page: Seq<u8>) -> Option<
    (
        Option<Seq<char>>,
        Seq<Seq<char>>,
        Seq<
            (
                Seq<char>,
                (
                    Option<Seq<char>>,
                    Seq<Seq<char>>,
                    Seq<Seq<char>>,
                    Option<i64>,
                    Option<i64>,
                    Option<Seq<char>>,
                    Option<Seq<char>>,
                ),
            ),
        >,
    ),
> {
    let b = without_media_namespaces(page);
    if media_free(b) {
        spec_feed_parse(b)
    } else {
        None
    }
}

/// Parses RSS, Atom or JSON Feed bytes with `feed_rs::parser::parse`, and
/// keeps the fields the reader uses. Everything it reads depends on the
/// bytes alone (`spec_feed_parse`), except the id the parser makes up for
/// an entry that has none: a hash of the entry's first link and title, or,
/// without a link, a random UUID. That id is never empty; nothing else is
/// stated of it.
///
/// The parser panics on some durations (`parser/util.rs`, `parse_npt`
/// unwraps a digit run that is too long or not ASCII), which it reads only
/// from elements of the iTunes and Media RSS namespaces. Such an element
/// needs the namespace bound to its exact address, which the parser reads
/// undecoded from the document, so `media_free` bytes never reach that code.
#[verifier::external_body]
fn parse_feed(bytes: &[u8]) -> (r: Option<ParsedFeed>)
    requires
        media_free(bytes@),
    ensures
        r is None <==> spec_feed_parse(bytes@) is None,
        r matches Some(f) ==> parsed_as(f, spec_feed_parse(bytes@)->0),
{
    let f = feed_rs::parser::parse(bytes).ok()?;
    Some(ParsedFeed {
        title: f.title.map(|t| t.content),
        links: f.links.into_iter().map(|l| l.href).collect(),
        entries: f.entries.into_iter().map(entry_of).collect(),
    })
}

/// Discovery's test of a fetched page: when the page reads as a feed
/// (`spec_read_feed`), the feed is found, at the address the page came
/// from, as the parser read it; otherwise (`None`) the search goes on with
/// the next candidate.
pub fn feed_at(url: &str, page: &[u8]) -> (r: Option<Discovered>)
    ensures
        r is Some <==> spec_read_feed(page@) is Some,
        r matches Some(d) ==> {
            &&& d.feed_url@ == url@
            &&& parsed_as(d.feed, spec_read_feed(page@)->0)
        },
{
    proof {
        reveal_strlit("search.yahoo.com/mrss");
        reveal_strlit("itunes.com/dtds/podcast-1.0.dtd");
    }
    let c = to_latin1(page);
    let c = replace_lit(c.as_slice(), "search.yahoo.com/mrss", "search.yahoo.com/mrs_");
    let c = replace_lit(c.as_slice(), "itunes.com/dtds/podcast-1.0.dtd", "itunes.com/dtds/podcast-1.0.dt_");
    let b = from_latin1(c.as_slice());
    if !is_media_free(b.as_slice()) {
        return None;
    }
    match parse_feed(b.as_slice()) {
        Some(feed) => Some(Discovered { feed_url: string_of(chars_of(url).as_slice()), feed }),
        None => None,
    }
}

/// The answer when nothing at an address turned out to be a feed.
pub open spec fn no_feed_message() -> Seq<char> {
    "nenhum feed encontrado nesse endereço"@
}

fn no_feed() -> (r: String)
    ensures
        r@ == no_feed_message(),
{
    string_of(chars_of("nenhum feed encontrado nesse endereço").as_slice())
}

/// What a feed discovery asks for next.
pub enum DiscoverStep {
    /// Fetch this address and hand what came back to `Discovery::on_fetch`.
    Fetch(String),
    /// The feed was found.
    Found(Discovered),
    /// Discovery is over without a feed, with this message.
    Failed(String),
}

/// A feed discovery in progress: the address typed (made absolute) and,
/// once its page came back and was no feed, the candidate addresses and
/// the index of the one being fetched.
pub struct Discovery {
    pub url: String,
    pub candidates: Vec<String>,
    pub next: usize,
    pub on_candidates: bool,
}

/// The step that tries candidate `i`, or gives up past the last one.
pub open spec fn candidate_step(cands: Seq<String>, i: int, r: DiscoverStep) -> bool {
    if i < cands.len() {
        r matches DiscoverStep::Fetch(u) && u@ == cands[i]@
    } else {
        r matches DiscoverStep::Failed(e) && e@ == no_feed_message()
    }
}

/// The bytes of a fetch that succeeded (none for an error).
pub open spec fn fetched_bytes(got: Result<Vec<u8>, String>) -> Seq<u8> {
    match got {
        Ok(b) => b@,
        Err(_) => seq![],
    }
}

/// A fetch that succeeded with a feed.
pub open spec fn fetched_feed(got: Result<Vec<u8>, String>) -> bool {
    got is Ok && spec_read_feed(fetched_bytes(got)) is Some
}

impl Discovery {
    /// Starts discovering from what the user typed; the address returned is
    /// the first to fetch.
    pub fn new(input: &str) -> (r: (Discovery, String))
        ensures
            r.0.url@ == spec_start_url(input@),
            !r.0.on_candidates,
            r.0.candidates@.len() == 0,
            r.0.next == 0,
            r.1@ == r.0.url@,
    {
        let url = start_url(input);
        let first = string_of(chars_of(url.as_str()).as_slice());
        (Discovery { url, candidates: Vec::new(), next: 0, on_candidates: false }, first)
    }

    /// What came back from the address of the last `Fetch`. For the typed
    /// address: an error ends the discovery with that error; a feed is
    /// found there; any other page gives the candidates (its announced
    /// feeds, then the common paths), tried in order. For a candidate: a
    /// feed is found there; an error or a page that is no feed moves on to
    /// the next one; after the last, the discovery fails.
    pub fn on_fetch(&mut self, got: Result<Vec<u8>, String>) -> (r: DiscoverStep)
        ensures
            final(self).url == old(self).url,
            !old(self).on_candidates ==> match got {
                Err(e) => r matches DiscoverStep::Failed(m) && m@ == e@,
                Ok(b) => if spec_read_feed(b@) is Some {
                    r matches DiscoverStep::Found(d) && d.feed_url@ == old(self).url@ && parsed_as(
                        d.feed,
                        spec_read_feed(b@)->0,
                    )
                } else {
                    &&& final(self).on_candidates
                    &&& views(final(self).candidates@) == spec_candidates(b@, old(self).url@)
                    &&& final(self).next == 0
                    &&& candidate_step(final(self).candidates@, 0, r)
                },
            },
            old(self).on_candidates ==> {
                &&& final(self).on_candidates
                &&& final(self).candidates == old(self).candidates
                &&& if old(self).next >= old(self).candidates@.len() {
                    r matches DiscoverStep::Failed(m) && m@ == no_feed_message()
                } else if fetched_feed(got) {
                    r matches DiscoverStep::Found(d) && d.feed_url@ == old(self).candidates@[old(
                        self,
                    ).next as int]@ && parsed_as(d.feed, spec_read_feed(fetched_bytes(got))->0)
                } else {
                    final(self).next == old(self).next + 1 && candidate_step(
                        final(self).candidates@,
                        final(self).next as int,
                        r,
                    )
                }
            },
    {
        if !self.on_candidates {
            match got {
                Err(e) => DiscoverStep::Failed(e),
                Ok(b) => match feed_at(self.url.as_str(), b.as_slice()) {
                    Some(d) => DiscoverStep::Found(d),
                    None => {
                        self.candidates = candidates(b.as_slice(), self.url.as_str());
                        self.next = 0;
                        self.on_candidates = true;
                        if self.candidates.len() > 0 {
                            DiscoverStep::Fetch(
                                string_of(chars_of(self.candidates[0].as_str()).as_slice()),
                            )
                        } else {
                            DiscoverStep::Failed(no_feed())
                        }
                    },
                },
            }
        } else if self.next >= self.candidates.len() {
            DiscoverStep::Failed(no_feed())
        } else {
            let found = match &got {
                Ok(b) => feed_at(self.candidates[self.next].as_str(), b.as_slice()),
                Err(_) => None,
            };
            match found {
                Some(d) => DiscoverStep::Found(d),
                None => {
                    self.next = self.next + 1;
                    if self.next < self.candidates.len() {
                        DiscoverStep::Fetch(
                            string_of(chars_of(self.candidates[self.next].as_str()).as_slice()),
                        )
                    } else {
                        DiscoverStep::Failed(no_feed())
                    }
                },
            }
        }
    }
}

/// The text of an optional string.
pub open spec fn opt_view(o: Option<String>) -> Option<Seq<char>> {
    match o {
        Some(s) => Some(s@),
        None => None,
    }
}

/// The first element of a list of strings, if any.
pub open spec fn first_view(v: Seq<String>) -> Option<Seq<char>> {
    if v.len() > 0 {
        Some(v[0]@)
    } else {
        None
    }
}

/// Identity of an entry within its feed: its id, else its first link, else
/// its title (unprocessed), else empty.
pub open spec fn guid_of(e: FeedEntry) -> Seq<char> {
    if e.id@.len() > 0 {
        e.id@
    } else if e.links@.len() > 0 {
        e.links@[0]@
    } else {
        match e.title {
            Some(t) => t@,
            None => seq![],
        }
    }
}

/// Title of an entry: its title as plain text, or `(sem título)` when that
/// is missing or empty.
pub open spec fn title_of(e: FeedEntry) -> Seq<char> {
    match e.title {
        Some(t) if spec_strip_html(t@).len() > 0 => spec_strip_html(t@),
        _ => "(sem título)"@,
    }
}

/// The HTML summary of an entry: its summary, else its content body.
pub open spec fn summary_of(e: FeedEntry) -> Option<Seq<char>> {
    match e.summary {
        Some(s) => Some(s@),
        None => opt_view(e.content_body),
    }
}

/// Plain-text excerpt of the summary (empty without one).
pub open spec fn excerpt_of(e: FeedEntry) -> Seq<char> {
    match summary_of(e) {
        Some(s) => spec_strip_html(s),
        None => seq![],
    }
}

/// An article row made from a feed entry, ready to be stored.
pub struct NewArticle {
    pub guid: String,
    pub title: String,
    pub url: Option<String>,
    pub author: Option<String>,
    pub published_ms: Option<i64>,
    pub excerpt: String,
    pub summary: Option<String>,
}

/// The article row for a feed entry; `None` for an entry with nothing to
/// identify it by (empty guid), which is skipped.
pub fn entry_article(e: &FeedEntry) -> (r: Option<NewArticle>)
    ensures
        r is None <==> guid_of(*e).len() == 0,
        r matches Some(a) ==> {
            &&& a.guid@ == guid_of(*e)
            &&& a.title@ == title_of(*e)
            &&& opt_view(a.url) == first_view(e.links@)
            &&& opt_view(a.author) == first_view(e.authors@)
            &&& a.published_ms == (if e.published_ms is Some {
                e.published_ms
            } else {
                e.updated_ms
            })
            &&& a.excerpt@ == excerpt_of(*e)
            &&& opt_view(a.summary) == summary_of(*e)
        },
{
    let link: Option<String> = if e.links.len() > 0 {
        Some(e.links[0].clone())
    } else {
        None
    };
    let guid: String = if !e.id.as_str().is_empty() {
        proof {
            assert(e.id@.len() > 0);
        }
        e.id.clone()
    } else {
        match &link {
            Some(l) => l.clone(),
            None => match &e.title {
                Some(t) => t.clone(),
                None => String::new(),
            },
        }
    };
    if guid.as_str().is_empty() {
        return None;
    }
    let title = match &e.title {
        Some(t) => {
            let x = strip_html(t.as_str());
            if !x.as_str().is_empty() {
                x
            } else {
                string_of(chars_of("(sem título)").as_slice())
            }
        },
        None => string_of(chars_of("(sem título)").as_slice()),
    };
    let author: Option<String> = if e.authors.len() > 0 {
        Some(e.authors[0].clone())
    } else {
        None
    };
    let published = match e.published_ms {
        Some(p) => Some(p),
        None => e.updated_ms,
    };
    let summary: Option<String> = match &e.summary {
        Some(s) => Some(s.clone()),
        None => match &e.content_body {
            Some(b) => Some(b.clone()),
            None => None,
        },
    };
    let excerpt = match &summary {
        Some(s) => strip_html(s.as_str()),
        None => String::new(),
    };
    Some(NewArticle { guid, title, url: link, author, published_ms: published, excerpt, summary })
}

/// The host of `url` as `url::Url::parse` and `Url::host_str` give it.
pub uninterp spec fn spec_url_host(url: Seq<char>) -> Option<Seq<char>>;

/// Host of a URL with the `url` crate (`Url::parse`, then `Url::host_str`);
/// `None` when the URL does not parse or has no host.
#[verifier::external_body]
pub(crate) fn url_host(url: &str) -> (r: Option<String>)
    ensures
        opt_view(r) == spec_url_host(url@),
{
    url::Url::parse(url).ok()?.host_str().map(|h| h.to_string())
}

/// Display title of a feed: its title as plain text, else the host of its
/// address, else the address itself.
pub open spec fn spec_feed_title(feed: ParsedFeed, url: Seq<char>) -> Seq<char> {
    match feed.title {
        Some(t) if spec_strip_html(t@).len() > 0 => spec_strip_html(t@),
        _ => match spec_url_host(url) {
            Some(h) => h,
            None => url,
        },
    }
}

pub fn feed_title(feed: &ParsedFeed, url: &str) -> (r: String)
    ensures
        r@ == spec_feed_title(*feed, url@),
{
    match &feed.title {
        Some(t) => {
            let x = strip_html(t.as_str());
            if !x.as_str().is_empty() {
                return x;
            }
        },
        None => {},
    }
    match url_host(url) {
        Some(h) => h,
        None => string_of(chars_of(url).as_slice()),
    }
}

/// The site of a feed: its first link.
pub fn site_url(feed: &ParsedFeed) -> (r: Option<String>)
    ensures
        opt_view(r) == first_view(feed.links@),
{
    if feed.links.len() > 0 {
        Some(feed.links[0].clone())
    } else {
        None
    }
}

/// Whether `url` parses with `url::Url::parse`.
pub uninterp spec fn spec_url_parses(url: Seq<char>) -> bool;

/// What the readability extraction (`readability::extractor::extract`)
/// makes of an HTML page fetched from `url`: the cleaned article HTML.
pub uninterp spec fn spec_readable(page: Seq<u8>, url: Seq<char>) -> Seq<char>;

/// Parses `url` (`url::Url::parse`) and runs `readability::extractor::extract`
/// on the page bytes. The extraction reads from memory, where the crate's
/// only error (a failed read) cannot occur, so the one failure is a URL that
/// does not parse; the error text is the parser's message (not stated).
#[verifier::external_body]
pub(crate) fn readable_html(page: &[u8], url: &str) -> (r: Result<String, String>)
    ensures
        r is Ok <==> spec_url_parses(url@),
        r matches Ok(c) ==> c@ == spec_readable(page@, url@),
{
    let u = url::Url::parse(url).map_err(|e| e.to_string())?;
    let mut cursor = std::io::Cursor::new(page);
    let product = readability::extractor::extract(&mut cursor, &u).map_err(|e| e.to_string())?;
    Ok(product.content)
}

/// The clean article (reading mode) out of a fetched page; an error when
/// `article_url` is not a URL.
pub fn extract_readable(page: &[u8], article_url: &str) -> (r: Result<String, String>)
    ensures
        r is Ok <==> spec_url_parses(article_url@),
        r matches Ok(c) ==> c@ == spec_readable(page@, article_url@),
{
    readable_html(page, article_url)
}

/// Decimal digit `d` (below ten) as a char.
pub open spec fn digit_char(d: nat) -> char {
    (('0' as u32) + d) as char
}

/// Decimal notation of `n`, without leading zeros.
pub open spec fn decimal(n: nat) -> Seq<char>
    decreases n,
{
    if n < 10 {
        seq![digit_char(n)]
    } else {
        decimal(n / 10) + seq![digit_char(n % 10)]
    }
}

/// Decimal notation of `n`.
pub fn decimal_string(n: u64) -> (r: Vec<char>)
    ensures
        r@ == decimal(n as nat),
    decreases n,
{
    if n < 10 {
        let c = ((n as u8) + 48) as char;
        assert(c == digit_char(n as nat));
        let v: Vec<char> = vec![c];
        assert(v@ =~= seq![c]);
        v
    } else {
        let mut v = decimal_string(n / 10);
        let d = n % 10;
        let c = ((d as u8) + 48) as char;
        assert(c == digit_char((n % 10) as nat));
        v.push(c);
        v
    }
}

/// Text shown for a fetch that failed: a timeout, a refused connection, or
/// the error's own text.
pub open spec fn spec_fetch_error(url: Seq<char>, timeout: bool, connect: bool, detail: Seq<char>) -> Seq<char> {
    if timeout {
        url + ": tempo esgotado"@
    } else if connect {
        url + ": sem conexão"@
    } else {
        url + ": "@ + detail
    }
}

pub fn fetch_error(url: &str, timeout: bool, connect: bool, detail: &str) -> (r: String)
    ensures
        r@ == spec_fetch_error(url@, timeout, connect, detail@),
{
    let mut v = chars_of(url);
    if timeout {
        crate::text::push_all(&mut v, chars_of(": tempo esgotado").as_slice());
    } else if connect {
        crate::text::push_all(&mut v, chars_of(": sem conexão").as_slice());
    } else {
        crate::text::push_all(&mut v, chars_of(": ").as_slice());
        crate::text::push_all(&mut v, chars_of(detail).as_slice());
        assert(v@ =~= url@ + ": "@ + detail@);
    }
    string_of(v.as_slice())
}

/// Text shown for an answer whose status is not a success.
pub open spec fn spec_status_error(url: Seq<char>, status: u16) -> Seq<char> {
    url + ": HTTP "@ + decimal(status as nat)
}

pub fn status_error(url: &str, status: u16) -> (r: String)
    ensures
        r@ == spec_status_error(url@, status),
{
    let mut v = chars_of(url);
    crate::text::push_all(&mut v, chars_of(": HTTP ").as_slice());
    crate::text::push_all(&mut v, decimal_string(status as u64).as_slice());
    assert(v@ =~= url@ + ": HTTP "@ + decimal(status as nat));
    string_of(v.as_slice())
}

/// A point in time of the system clock.
#[verifier::external_type_specification]
#[verifier::external_body]
pub struct ExSystemTime(std::time::SystemTime);

/// The error of a clock reading earlier than the epoch.
#[verifier::external_type_specification]
#[verifier::external_body]
pub struct ExSystemTimeError(std::time::SystemTimeError);

/// std's `SystemTime::now`; nothing is stated of the reading.
#[verifier::external_body]
fn system_now() -> std::time::SystemTime {
    std::time::SystemTime::now()
}

/// std's `SystemTime::duration_since`, against the Unix epoch.
#[verifier::external_body]
fn since_epoch(t: std::time::SystemTime) -> Result<
    std::time::Duration,
    std::time::SystemTimeError,
> {
    t.duration_since(std::time::UNIX_EPOCH)
}

/// std's `Duration::as_millis`; nothing is stated of the count.
#[verifier::external_body]
fn duration_millis(d: std::time::Duration) -> u128 {
    d.as_millis()
}

/// Milliseconds as a signed count: the count cast to `i64` (keeping the
/// low 64 bits), or 0 for a clock before the epoch.
pub open spec fn millis_or_zero(m: Option<u128>) -> i64 {
    match m {
        Some(x) => x as i64,
        None => 0,
    }
}

pub fn to_millis_i64(m: Option<u128>) -> (r: i64)
    ensures
        r == millis_or_zero(m),
{
    match m {
        Some(x) => x as i64,
        None => 0,
    }
}

/// Current time in milliseconds since the Unix epoch (0 if the clock reads
/// earlier than the epoch). The reading itself comes from the clock.
pub fn now_ms() -> i64 {
    let m = match since_epoch(system_now()) {
        Ok(d) => Some(duration_millis(d)),
        Err(_) => None,
    };
    to_millis_i64(m)
}

} // verus!
