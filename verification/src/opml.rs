//! OPML: reading subscriptions out of an OPML file and writing them back.
use vstd::prelude::*;

use crate::db::FeedRow;
use crate::fetch::{attr_value, spec_attr_value};
use crate::text::{
    ascii_lower, chars_of, contains_seq, find, find_from, has_prefix, lemma_char_absent, lemma_find_at,
    lemma_find_from, lemma_find_in_prefix, lemma_find_none, lemma_find_past, lemma_find_shift, lemma_find_skip,
    lemma_lower_concat, lemma_occurs_prefix, lemma_replace_absent, lemma_replace_char_concat,
    lemma_replace_prefix_free, lemma_replace_keeps_out, lower_all, lower_seq,
    occurs_at, push_all, replace, replace_all, same_char, shifted, slice_chars, starts_with,
    string_of,
};

verus! {

/// The entities an OPML attribute value is decoded from, in order.
pub open spec fn unescape_attr(s: Seq<char>) -> Seq<char> {
    replace_all(replace_all(replace_all(s, "&amp;"@, "&"@), "&quot;"@, "\""@), "&#39;"@, "'"@)
}

/// Value of attribute `name` (any case) in an OPML tag, entities decoded.
pub open spec fn spec_attr(tag: Seq<char>, name: Seq<char>) -> Option<Seq<char>> {
    match spec_attr_value(tag, lower_seq(name)) {
        Some(v) => Some(unescape_attr(v)),
        None => None,
    }
}

fn replace_lit(s: &[char], pat: &str, rep: &str) -> (r: Vec<char>)
    requires
        pat@.len() > 0,
    ensures
        r@ == replace_all(s@, pat@, rep@),
{
    let p = chars_of(pat);
    let q = chars_of(rep);
    replace(s, p.as_slice(), q.as_slice())
}

/// Value of attribute `name` in an OPML tag: found in any case, quoted with
/// single or double quotes, `&amp;`, `&quot;` and `&#39;` decoded.
pub fn attr(tag: &str, name: &str) -> (r: Option<String>)
    ensures
        r matches Some(v) ==> spec_attr(tag@, name@) == Some(v@),
        r is None ==> spec_attr(tag@, name@) is None,
{
    let low_name = string_of(lower_all(chars_of(name).as_slice()).as_slice());
    match attr_value(tag, low_name.as_str()) {
        Some(v) => {
            proof {
                reveal_strlit("&amp;");
                reveal_strlit("&quot;");
                reveal_strlit("&#39;");
            }
            let c = chars_of(v.as_str());
            let t = replace_lit(c.as_slice(), "&amp;", "&");
            let t = replace_lit(t.as_slice(), "&quot;", "\"");
            let t = replace_lit(t.as_slice(), "&#39;", "'");
            Some(string_of(t.as_slice()))
        },
        None => None,
    }
}

/// `s` escaped for an XML attribute: `&`, `"` and `<` become entities.
pub open spec fn spec_esc(s: Seq<char>) -> Seq<char> {
    replace_all(replace_all(replace_all(s, "&"@, "&amp;"@), "\""@, "&quot;"@), "<"@, "&lt;"@)
}

/// Escapes `&`, `"` and `<` for an XML attribute value.
pub fn esc(s: &str) -> (r: String)
    ensures
        r@ == spec_esc(s@),
{
    proof {
        reveal_strlit("&");
        reveal_strlit("\"");
        reveal_strlit("<");
    }
    let c = chars_of(s);
    let t = replace_lit(c.as_slice(), "&", "&amp;");
    let t = replace_lit(t.as_slice(), "\"", "&quot;");
    let t = replace_lit(t.as_slice(), "<", "&lt;");
    string_of(t.as_slice())
}

/// A subscription read from an OPML file.
pub struct Outline {
    pub url: String,
    pub title: String,
}

/// A subscription as text: (address, title).
pub open spec fn outline_view(o: Outline) -> (Seq<char>, Seq<char>) {
    (o.url@, o.title@)
}

/// The subscription an `<outline ...>` tag describes: its `xmlUrl`, and as
/// title its `title`, else its `text`, else the address; none without an
/// `xmlUrl`.
pub open spec fn outline_of(tag: Seq<char>) -> Option<(Seq<char>, Seq<char>)> {
    match spec_attr(tag, "xmlUrl"@) {
        None => None,
        Some(url) => Some(
            (
                url,
                match spec_attr(tag, "title"@) {
                    Some(t) => t,
                    None => match spec_attr(tag, "text"@) {
                        Some(t) => t,
                        None => url,
                    },
                },
            ),
        ),
    }
}

/// The subscriptions of an OPML document from `pos` on: each `<outline`
/// (any case) runs to the next `>` (or the end); the scan resumes at that
/// `>`, at least 8 chars after the tag's start.
pub open spec fn outlines_from(xml: Seq<char>, pos: int) -> Seq<(Seq<char>, Seq<char>)>
    decreases xml.len() - pos,
{
    let low = lower_seq(xml);
    if pos < 0 || pos >= xml.len() {
        seq![]
    } else {
        match find_from(low, pos, "<outline"@, false) {
            None => seq![],
            Some(start) => {
                let end = match find_from(low, start, ">"@, false) {
                    Some(e) => e,
                    None => xml.len() as int,
                };
                let here = if start <= end <= xml.len() {
                    match outline_of(xml.subrange(start, end)) {
                        Some(o) => seq![o],
                        None => seq![],
                    }
                } else {
                    seq![]
                };
                let next = if end > start + 8 {
                    end
                } else {
                    start + 8
                };
                if next <= pos || next >= xml.len() {
                    here
                } else {
                    here + outlines_from(xml, next)
                }
            },
        }
    }
}

fn outline_from_tag(tag: &str) -> (r: Option<Outline>)
    ensures
        r matches Some(o) ==> outline_of(tag@) == Some(outline_view(o)),
        r is None ==> outline_of(tag@) is None,
{
    match attr(tag, "xmlUrl") {
        None => None,
        Some(url) => {
            let title = match attr(tag, "title") {
                Some(t) => t,
                None => match attr(tag, "text") {
                    Some(t) => t,
                    None => url.clone(),
                },
            };
            Some(Outline { url, title })
        },
    }
}

/// The subscriptions listed in an OPML document (a light scan: OPML is
/// machine-written), in document order.
pub fn parse_outlines(xml: &str) -> (r: Vec<Outline>)
    ensures
        r@.map_values(|o: Outline| outline_view(o)) == outlines_from(xml@, 0),
{
    let s = chars_of(xml);
    let n = s.len();
    let low = lower_all(s.as_slice());
    let open = chars_of("<outline");
    let gt = chars_of(">");
    proof {
        reveal_strlit("<outline");
        reveal_strlit(">");
    }
    let mut out: Vec<Outline> = Vec::new();
    let mut pos: usize = 0;
    while pos < n
        invariant_except_break
            pos <= n,
        invariant
            n == s@.len(),
            low@ == lower_seq(s@),
            s@ == xml@,
            open@ == "<outline"@,
            open@.len() == 8,
            gt@ == ">"@,
            outlines_from(xml@, 0) == out@.map_values(|o: Outline| outline_view(o)) + outlines_from(
                xml@,
                pos as int,
            ),
        ensures
            out@.map_values(|o: Outline| outline_view(o)) == outlines_from(xml@, 0),
        decreases n - pos,
    {
        let ghost before = out@.map_values(|o: Outline| outline_view(o));
        let start = match find(low.as_slice(), pos, open.as_slice(), false) {
            Some(k) => k,
            None => {
                assert(outlines_from(xml@, pos as int) == Seq::<(Seq<char>, Seq<char>)>::empty());
                assert(before + Seq::<(Seq<char>, Seq<char>)>::empty() =~= before);
                break;
            },
        };
        proof {
            lemma_find_from(low@, pos as int, open@, false);
        }
        let end = match find(low.as_slice(), start, gt.as_slice(), false) {
            Some(e) => e,
            None => n,
        };
        proof {
            lemma_find_from(low@, start as int, gt@, false);
        }
        let ghost here: Seq<(Seq<char>, Seq<char>)> = match outline_of(xml@.subrange(start as int, end as int)) {
            Some(o) => seq![o],
            None => seq![],
        };
        let tag = string_of(slice_chars(s.as_slice(), start, end).as_slice());
        match outline_from_tag(tag.as_str()) {
            Some(o) => {
                out.push(o);
                assert(out@.map_values(|o: Outline| outline_view(o)) =~= before + here);
            },
            None => {
                assert(out@.map_values(|o: Outline| outline_view(o)) =~= before + here);
            },
        }
        let next = if end > start + 8 {
            end
        } else {
            start + 8
        };
        assert(outlines_from(xml@, pos as int) == here + outlines_from(xml@, next as int)) by {
            if next >= n {
                assert(outlines_from(xml@, next as int) == Seq::<(Seq<char>, Seq<char>)>::empty());
                assert(here + Seq::<(Seq<char>, Seq<char>)>::empty() =~= here);
            }
        }
        assert(before + (here + outlines_from(xml@, next as int)) =~= (before + here) + outlines_from(
            xml@,
            next as int,
        ));
        pos = next;
    }
    out
}

/// The head of an exported OPML document.
pub open spec fn opml_head() -> Seq<char> {
    "<?xml version=\"1.0\" encoding=\"UTF-8\"?>\n<opml version=\"2.0\">\n  <head><title>LocalFeed</title></head>\n  <body>\n"@
}

/// The tail of an exported OPML document.
pub open spec fn opml_tail() -> Seq<char> {
    "  </body>\n</opml>\n"@
}

/// One exported subscription.
pub open spec fn opml_line(title: Seq<char>, url: Seq<char>) -> Seq<char> {
    "    <outline type=\"rss\" text=\""@ + spec_esc(title) + "\" title=\""@ + spec_esc(title)
        + "\" xmlUrl=\""@ + spec_esc(url) + "\"/>\n"@
}

/// The exported lines of the first `n` feeds.
pub open spec fn opml_lines(feeds: Seq<FeedRow>, n: int) -> Seq<char>
    decreases n,
{
    if n <= 0 || n > feeds.len() {
        seq![]
    } else {
        opml_lines(feeds, n - 1) + opml_line(feeds[n - 1].title@, feeds[n - 1].url@)
    }
}

/// The OPML document listing `feeds` (title and address of each).
pub open spec fn spec_opml_document(feeds: Seq<FeedRow>) -> Seq<char> {
    opml_head() + opml_lines(feeds, feeds.len() as int) + opml_tail()
}

pub fn opml_document(feeds: &Vec<FeedRow>) -> (r: String)
    ensures
        r@ == spec_opml_document(feeds@),
{
    let mut v = chars_of(
        "<?xml version=\"1.0\" encoding=\"UTF-8\"?>\n<opml version=\"2.0\">\n  <head><title>LocalFeed</title></head>\n  <body>\n",
    );
    let mut i: usize = 0;
    while i < feeds.len()
        invariant
            i <= feeds@.len(),
            v@ == opml_head() + opml_lines(feeds@, i as int),
        decreases feeds@.len() - i,
    {
        let f = &feeds[i];
        let t = esc(f.title.as_str());
        let u = esc(f.url.as_str());
        let ghost before = v@;
        push_all(&mut v, chars_of("    <outline type=\"rss\" text=\"").as_slice());
        push_all(&mut v, chars_of(t.as_str()).as_slice());
        push_all(&mut v, chars_of("\" title=\"").as_slice());
        push_all(&mut v, chars_of(t.as_str()).as_slice());
        push_all(&mut v, chars_of("\" xmlUrl=\"").as_slice());
        push_all(&mut v, chars_of(u.as_str()).as_slice());
        push_all(&mut v, chars_of("\"/>\n").as_slice());
        assert(v@ =~= before + opml_line(feeds@[i as int].title@, feeds@[i as int].url@));
        i += 1;
    }
    push_all(&mut v, chars_of("  </body>\n</opml>\n").as_slice());
    string_of(v.as_slice())
}

/// `s` ends with `.opml`, in any case.
pub open spec fn has_opml_suffix(s: Seq<char>) -> bool {
    &&& s.len() >= 5
    &&& lower_seq(s.skip(s.len() - 5)) == ".opml"@
}

pub fn ends_with_opml(s: &str) -> (r: bool)
    ensures
        r == has_opml_suffix(s@),
{
    let c = chars_of(s);
    let n = c.len();
    if n < 5 {
        return false;
    }
    let tail = lower_all(slice_chars(c.as_slice(), n - 5, n).as_slice());
    assert(c@.subrange(n - 5, n as int) =~= c@.skip(n - 5));
    let want = chars_of(".opml");
    proof {
        reveal_strlit(".opml");
    }
    let r = tail[0] == want[0] && tail[1] == want[1] && tail[2] == want[2] && tail[3] == want[3]
        && tail[4] == want[4];
    assert(r <==> tail@ =~= want@);
    r
}

/// A launch argument that names an OPML file: not an option (no leading
/// `-`) and ending in `.opml`.
pub open spec fn spec_is_opml_arg(a: Seq<char>) -> bool {
    !has_prefix(a, "-"@) && has_opml_suffix(a)
}

pub fn is_opml_arg(a: &str) -> (r: bool)
    ensures
        r == spec_is_opml_arg(a@),
{
    let c = chars_of(a);
    !starts_with(c.as_slice(), "-") && ends_with_opml(a)
}

/// Counts of an OPML import.
pub struct OpmlImport {
    pub added: u32,
    pub skipped: u32,
}

impl OpmlImport {
    pub fn new() -> (r: OpmlImport)
        ensures
            r.added == 0 && r.skipped == 0,
    {
        OpmlImport { added: 0, skipped: 0 }
    }

    /// Counts one subscription: added when the insert changed a row,
    /// skipped when the feed was already there.
    pub fn count(&mut self, inserted: bool)
        requires
            inserted ==> old(self).added < u32::MAX,
            !inserted ==> old(self).skipped < u32::MAX,
        ensures
            inserted ==> final(self).added == old(self).added + 1 && final(self).skipped == old(
                self,
            ).skipped,
            !inserted ==> final(self).skipped == old(self).skipped + 1 && final(self).added == old(
                self,
            ).added,
    {
        if inserted {
            self.added = self.added + 1;
        } else {
            self.skipped = self.skipped + 1;
        }
    }
}

/// An escaped value cannot end its attribute or open a tag: it holds no
/// `"` and no `<`.
pub proof fn lemma_esc_is_attribute_safe(s: Seq<char>)
    ensures
        !spec_esc(s).contains('"'),
        !spec_esc(s).contains('<'),
{
    reveal_strlit("&");
    reveal_strlit("&amp;");
    reveal_strlit("\"");
    reveal_strlit("&quot;");
    reveal_strlit("<");
    reveal_strlit("&lt;");
    let s1 = replace_all(s, "&"@, "&amp;"@);
    let s2 = replace_all(s1, "\""@, "&quot;"@);
    assert("\""@ =~= seq!['"']);
    assert("<"@ =~= seq!['<']);
    assert(!"&quot;"@.contains('"')) by {
        if "&quot;"@.contains('"') {
            let k = choose|k: int| 0 <= k < "&quot;"@.len() && #[trigger] "&quot;"@[k] == '"';
        }
    }
    assert(!"&lt;"@.contains('<')) by {
        if "&lt;"@.contains('<') {
            let k = choose|k: int| 0 <= k < "&lt;"@.len() && #[trigger] "&lt;"@[k] == '<';
        }
    }
    assert(!"&lt;"@.contains('"')) by {
        if "&lt;"@.contains('"') {
            let k = choose|k: int| 0 <= k < "&lt;"@.len() && #[trigger] "&lt;"@[k] == '"';
        }
    }
    crate::text::lemma_replace_removes(s1, '"', "&quot;"@);
    crate::text::lemma_replace_removes(s2, '<', "&lt;"@);
    crate::text::lemma_replace_keeps_out(s2, "<"@, "&lt;"@, '"');
}

/// Decoding `&amp;` after escaping `&` and then `"` leaves the quotes
/// escaped and nothing else.
proof fn lemma_amp_then_quotes(s: Seq<char>)
    ensures
        replace_all(replace_all(replace_all(s, "&"@, "&amp;"@), "\""@, "&quot;"@), "&amp;"@, "&"@)
            == replace_all(s, "\""@, "&quot;"@),
    decreases s.len(),
{
    reveal_strlit("&");
    reveal_strlit("&amp;");
    reveal_strlit("\"");
    reveal_strlit("&quot;");
    let amp = "&"@;
    let ent = "&amp;"@;
    let dq = "\""@;
    let qe = "&quot;"@;
    assert(amp =~= seq!['&']);
    assert(dq =~= seq!['"']);
    if s.len() > 0 {
        let rest = s.skip(1);
        lemma_amp_then_quotes(rest);
        let head = seq![s[0]];
        assert(s =~= head + rest);
        lemma_replace_char_concat(head, rest, '&', ent);
        let r1h = replace_all(head, amp, ent);
        let r1r = replace_all(rest, amp, ent);
        lemma_replace_char_concat(r1h, r1r, '"', qe);
        lemma_replace_char_concat(head, rest, '"', qe);
        let y = replace_all(r1r, dq, qe);
        assert(head.skip(1) =~= Seq::<char>::empty());
        assert(replace_all(head.skip(1), dq, qe) =~= Seq::<char>::empty());
        assert(replace_all(head.skip(1), amp, ent) =~= Seq::<char>::empty());
        if s[0] == '&' {
            assert(head.take(1) =~= amp);
            assert(r1h == ent + replace_all(head.skip(1), amp, ent));
            assert(r1h =~= ent);
            assert(!ent.contains('"')) by {
                if ent.contains('"') {
                    let k = choose|k: int| 0 <= k < ent.len() && #[trigger] ent[k] == '"';
                }
            }
            lemma_char_absent(ent, '"');
            lemma_replace_absent(ent, dq, qe);
            assert(head.take(1) != dq);
            assert(replace_all(head, dq, qe) =~= head);
            assert((ent + y).take(5) =~= ent);
            assert((ent + y).skip(5) =~= y);
            assert(amp + replace_all(y, ent, amp) =~= head + replace_all(rest, dq, qe));
        } else if s[0] == '"' {
            assert(head.take(1) != amp) by {
                assert(head.take(1)[0] == s[0]);
            }
            assert(r1h =~= head);
            assert(head.take(1) =~= dq);
            assert(replace_all(head, dq, qe) =~= qe);
            let qq = qe.skip(1);
            assert((qe + y).take(5) != ent) by {
                assert((qe + y).take(5)[1] == 'q');
            }
            assert((qe + y).skip(1) =~= qq + y);
            assert(!qq.contains('&')) by {
                if qq.contains('&') {
                    let k = choose|k: int| 0 <= k < qq.len() && #[trigger] qq[k] == '&';
                }
            }
            lemma_replace_prefix_free(qq, y, ent, amp);
            assert(seq![qe[0]] + (qq + replace_all(y, ent, amp)) =~= qe + replace_all(rest, dq, qe));
        } else {
            assert(head.take(1) != amp) by {
                assert(head.take(1)[0] == s[0]);
            }
            assert(r1h =~= head);
            assert(head.take(1) != dq);
            assert(replace_all(head, dq, qe) =~= head);
            assert(!head.contains('&')) by {
                if head.contains('&') {
                    let k = choose|k: int| 0 <= k < head.len() && #[trigger] head[k] == '&';
                }
            }
            lemma_replace_prefix_free(head, y, ent, amp);
        }
    }
}

/// What escaping `"` puts at the front of a text that holds no `&` was there
/// already.
proof fn lemma_quotes_prefix(r: Seq<char>, w: Seq<char>)
    requires
        !w.contains('&'),
        replace_all(r, "\""@, "&quot;"@).len() >= w.len(),
        replace_all(r, "\""@, "&quot;"@).take(w.len() as int) == w,
    ensures
        r.len() >= w.len(),
        r.take(w.len() as int) == w,
    decreases w.len(),
{
    reveal_strlit("\"");
    reveal_strlit("&quot;");
    let dq = "\""@;
    let qe = "&quot;"@;
    assert(dq =~= seq!['"']);
    if w.len() > 0 {
        let e = replace_all(r, dq, qe);
        assert(r.len() > 0);
        let rest = r.skip(1);
        if r.take(1) == dq {
            assert(e[0] == '&');
            assert(w[0] == e.take(w.len() as int)[0]);
        } else {
            let y = replace_all(rest, dq, qe);
            assert(e == seq![r[0]] + y);
            let w1 = w.skip(1);
            assert(!w1.contains('&')) by {
                if w1.contains('&') {
                    let k = choose|k: int| 0 <= k < w1.len() && #[trigger] w1[k] == '&';
                    assert(w[k + 1] == '&');
                }
            }
            assert(y.take(w1.len() as int) =~= w1) by {
                assert forall|k: int| 0 <= k < w1.len() implies y.take(w1.len() as int)[k] == w1[k] by {
                    assert(e.take(w.len() as int)[k + 1] == w[k + 1]);
                }
            }
            lemma_quotes_prefix(rest, w1);
            assert(r.take(w.len() as int) =~= w) by {
                assert(e.take(w.len() as int)[0] == w[0]);
                assert forall|k: int| 0 <= k < w.len() implies r.take(w.len() as int)[k] == w[k] by {
                    if k > 0 {
                        assert(rest.take(w1.len() as int)[k - 1] == w1[k - 1]);
                    }
                }
            }
        }
    }
}

/// Escaping `"` and decoding `&quot;` again gives back a text in which
/// `&quot;` does not occur.
proof fn lemma_quote_roundtrip(s: Seq<char>)
    requires
        forall|j: int| 0 <= j ==> !occurs_at(s, j, "&quot;"@, false),
    ensures
        replace_all(replace_all(s, "\""@, "&quot;"@), "&quot;"@, "\""@) == s,
    decreases s.len(),
{
    reveal_strlit("\"");
    reveal_strlit("&quot;");
    reveal_strlit("quot;");
    let dq = "\""@;
    let qe = "&quot;"@;
    assert(dq =~= seq!['"']);
    if s.len() > 0 {
        let rest = s.skip(1);
        assert forall|j: int| 0 <= j implies !occurs_at(rest, j, qe, false) by {
            if occurs_at(rest, j, qe, false) {
                assert forall|k: int| 0 <= k < qe.len() implies same_char(#[trigger] s[(j + 1) + k], qe[k], false) by {
                    assert(same_char(rest[j + k], qe[k], false));
                }
                assert(occurs_at(s, j + 1, qe, false));
            }
        }
        lemma_quote_roundtrip(rest);
        let y = replace_all(rest, dq, qe);
        if s.take(1) == dq {
            assert(replace_all(s, dq, qe) == qe + y);
            assert((qe + y).take(6) =~= qe);
            assert((qe + y).skip(6) =~= y);
            assert(dq + rest =~= s);
        } else {
            let e = seq![s[0]] + y;
            assert(replace_all(s, dq, qe) == e);
            assert(seq![s[0]] + rest =~= s);
            if e.len() >= 6 {
                if e.take(6) == qe {
                    let w = qe.skip(1);
                    assert(w =~= "quot;"@);
                    assert(!w.contains('&')) by {
                        if w.contains('&') {
                            let k = choose|k: int| 0 <= k < w.len() && #[trigger] w[k] == '&';
                        }
                    }
                    assert(y.take(5) =~= w) by {
                        assert forall|k: int| 0 <= k < 5 implies y.take(5)[k] == w[k] by {
                            assert(e.take(6)[k + 1] == qe[k + 1]);
                        }
                    }
                    lemma_quotes_prefix(rest, w);
                    assert(occurs_at(s, 0, qe, false)) by {
                        assert forall|k: int| 0 <= k < qe.len() implies same_char(#[trigger] s[0 + k], qe[k], false) by {
                            if k == 0 {
                                assert(e.take(6)[0] == qe[0]);
                            } else {
                                assert(rest.take(5)[k - 1] == w[k - 1]);
                            }
                        }
                    }
                }
                assert(e.skip(1) =~= y);
            }
        }
    }
}

/// A text with no `<`, in which `&quot;` and `&#39;` do not occur, is read
/// back from its escaped form unchanged.
pub proof fn lemma_unescape_esc(s: Seq<char>)
    requires
        !s.contains('<'),
        forall|j: int| 0 <= j ==> !occurs_at(s, j, "&quot;"@, false),
        forall|j: int| 0 <= j ==> !occurs_at(s, j, "&#39;"@, false),
    ensures
        unescape_attr(spec_esc(s)) == s,
{
    reveal_strlit("&");
    reveal_strlit("&amp;");
    reveal_strlit("\"");
    reveal_strlit("<");
    reveal_strlit("&quot;");
    reveal_strlit("&#39;");
    let r1 = replace_all(s, "&"@, "&amp;"@);
    let r2 = replace_all(r1, "\""@, "&quot;"@);
    assert(!"&amp;"@.contains('<')) by {
        if "&amp;"@.contains('<') {
            let k = choose|k: int| 0 <= k < "&amp;"@.len() && #[trigger] "&amp;"@[k] == '<';
        }
    }
    assert(!"&quot;"@.contains('<')) by {
        if "&quot;"@.contains('<') {
            let k = choose|k: int| 0 <= k < "&quot;"@.len() && #[trigger] "&quot;"@[k] == '<';
        }
    }
    lemma_replace_keeps_out(s, "&"@, "&amp;"@, '<');
    lemma_replace_keeps_out(r1, "\""@, "&quot;"@, '<');
    assert("<"@ =~= seq!['<']);
    lemma_char_absent(r2, '<');
    lemma_replace_absent(r2, "<"@, "&lt;"@);
    lemma_amp_then_quotes(s);
    lemma_quote_roundtrip(s);
    lemma_replace_absent(s, "&#39;"@, "'"@);
}

/// The search pattern for the `xmlUrl` attribute.
spec fn xmlurl_key() -> Seq<char> {
    lower_seq("xmlUrl"@) + seq!['=']
}

/// The search pattern for the `title` attribute.
spec fn title_key() -> Seq<char> {
    lower_seq("title"@) + seq!['=']
}

/// The search pattern for the `text` attribute.
spec fn text_key() -> Seq<char> {
    lower_seq("text"@) + seq!['=']
}

/// Where the scanner finds the `text` attribute of an exported tag.
proof fn lemma_text_literal()
    ensures
        text_key().len() == 5,
        find_from(lower_seq("<outline type=\"rss\" text="@), 0, text_key(), false) == Some(20int),
{
    reveal_strlit("text");
    reveal_strlit("<outline type=\"rss\" text=");
    let pk = text_key();
    assert(pk =~= seq!['t', 'e', 'x', 't', '=']);
    let la = lower_seq("<outline type=\"rss\" text="@);
    assert(la =~= "<outline type=\"rss\" text="@);
    let z: int = 0;
    assert(occurs_at(la, 20, pk, false)) by {
        assert forall|k: int| 0 <= k < 5 implies same_char(#[trigger] la[20 + k], pk[k], false) by {}
    }
    assert forall|k: int| 0 <= k < 20 implies !occurs_at(la, k, pk, false) by {
        if occurs_at(la, k, pk, false) {
            assert(same_char(la[k + z], pk[z], false));
            assert(same_char(la[k + 1], pk[1], false));
            assert(same_char(la[k + 4], pk[4], false));
        }
    }
    crate::text::lemma_find_at(la, 0, 20, pk, false);
}

/// What the scanner meets in the fixed parts of an exported tag.
proof fn lemma_tag_literals()
    ensures
        xmlurl_key().len() == 7,
        title_key().len() == 6,
        forall|i: int| 0 <= i < 7 ==> #[trigger] xmlurl_key()[i] != '"',
        forall|i: int| 0 <= i < 6 ==> #[trigger] title_key()[i] != '"',
        "<outline type=\"rss\" text="@.len() == 25,
        "\" title="@.len() == 8,
        "\" xmlUrl="@.len() == 9,
        find_from(lower_seq("<outline type=\"rss\" text="@), 0, xmlurl_key(), false) is None,
        find_from(lower_seq("<outline type=\"rss\" text="@), 0, title_key(), false) is None,
        find_from(lower_seq("\" title="@), 0, xmlurl_key(), false) is None,
        occurs_at(lower_seq("\" title="@), 2, title_key(), false),
        !occurs_at(lower_seq("\" title="@), 0, title_key(), false),
        !occurs_at(lower_seq("\" title="@), 1, title_key(), false),
        occurs_at(lower_seq("\" xmlUrl="@), 2, xmlurl_key(), false),
        !occurs_at(lower_seq("\" xmlUrl="@), 0, xmlurl_key(), false),
        !occurs_at(lower_seq("\" xmlUrl="@), 1, xmlurl_key(), false),
{
    reveal_strlit("xmlUrl");
    reveal_strlit("title");
    reveal_strlit("<outline type=\"rss\" text=");
    reveal_strlit("\" title=");
    reveal_strlit("\" xmlUrl=");
    let px = xmlurl_key();
    let pt = title_key();
    assert(px =~= seq!['x', 'm', 'l', 'u', 'r', 'l', '=']);
    assert(pt =~= seq!['t', 'i', 't', 'l', 'e', '=']);
    let la = lower_seq("<outline type=\"rss\" text="@);
    assert(la =~= "<outline type=\"rss\" text="@);
    assert forall|k: int| 0 <= k < la.len() implies !occurs_at(la, k, px, false) by {
        if occurs_at(la, k, px, false) {
            assert(same_char(la[k + 0], px[0], false));
            assert(same_char(la[k + 6], px[6], false));
        }
    }
    lemma_find_none(la, px, false);
    assert forall|k: int| 0 <= k < la.len() implies !occurs_at(la, k, pt, false) by {
        if occurs_at(la, k, pt, false) {
            assert(same_char(la[k + 0], pt[0], false));
            assert(same_char(la[k + 5], pt[5], false));
        }
    }
    lemma_find_none(la, pt, false);
    let l3 = lower_seq("\" title="@);
    assert(l3 =~= seq!['"', ' ', 't', 'i', 't', 'l', 'e', '=']);
    assert forall|k: int| 0 <= k < l3.len() implies !occurs_at(l3, k, px, false) by {
        if occurs_at(l3, k, px, false) {
            assert(same_char(l3[k + 0], px[0], false));
        }
    }
    lemma_find_none(l3, px, false);
    assert(!occurs_at(l3, 0, pt, false)) by {
        let z: int = 0;
        assert(same_char(l3[0 + z], pt[z], false) == false);
    }
    assert(!occurs_at(l3, 1, pt, false)) by {
        let z: int = 0;
        assert(same_char(l3[1 + z], pt[z], false) == false);
    }
    let l5 = lower_seq("\" xmlUrl="@);
    assert(l5 =~= seq!['"', ' ', 'x', 'm', 'l', 'u', 'r', 'l', '=']);
    assert(!occurs_at(l5, 0, px, false)) by {
        let z: int = 0;
        assert(same_char(l5[0 + z], px[z], false) == false);
    }
    assert(!occurs_at(l5, 1, px, false)) by {
        let z: int = 0;
        assert(same_char(l5[1 + z], px[z], false) == false);
    }
}

/// Text with no `<` or `>`, in which neither `&quot;` nor `&#39;` occurs.
pub open spec fn plain_text(s: Seq<char>) -> bool {
    &&& !s.contains('<')
    &&& !s.contains('>')
    &&& !contains_seq(s, "&quot;"@, false)
    &&& !contains_seq(s, "&#39;"@, false)
}

/// Where the scanner meets `title=` in a text (any case), the text goes on
/// after it with a char that is not a quote: the `title` lookup then reads
/// no value out of that text.
pub open spec fn title_key_harmless(t: Seq<char>) -> bool {
    match find_from(lower_seq(t), 0, "title="@, false) {
        None => true,
        Some(p) => p + 6 < t.len() && t[p + 6] != '\'',
    }
}

/// A title and an address as the export round trip below takes them: both
/// plain, no `xmlurl=` in the lower-cased escaped title, and any `title=`
/// in it harmless.
pub open spec fn exportable(title: Seq<char>, url: Seq<char>) -> bool {
    &&& plain_text(title)
    &&& plain_text(url)
    &&& title_key_harmless(spec_esc(title))
    &&& !contains_seq(lower_seq(spec_esc(title)), "xmlurl="@, false)
}

/// The `<outline` tag of an exported line, up to its closing `>`, for an
/// escaped title `t` and an escaped address `u`.
spec fn export_tag(t: Seq<char>, u: Seq<char>) -> Seq<char> {
    "<outline type=\"rss\" text="@ + ((seq!['"'] + t) + ("\" title="@ + ((seq!['"'] + t) + (
    "\" xmlUrl="@ + ((seq!['"'] + u) + "\"/"@)))))
}

/// A quote in front of a text adds no occurrence of a pattern that does not
/// start with a quote.
proof fn lemma_find_after_quote(lt: Seq<char>, pat: Seq<char>)
    requires
        find_from(lt, 0, pat, false) is None,
        pat.len() > 0,
        pat[0] != '"',
    ensures
        find_from(seq!['"'] + lt, 0, pat, false) is None,
{
    let z: int = 0;
    assert(!occurs_at(seq!['"'] + lt, 0, pat, false)) by {
        assert(same_char((seq!['"'] + lt)[0 + z], pat[z], false) == false);
    }
    lemma_find_skip(seq!['"'] + lt, 0, 1, pat, false);
    lemma_find_shift(seq!['"'], lt, 0, pat, false);
}

/// The first `"` of `v + w`, when `v` has none and `w` starts with one, ends `v`.
proof fn lemma_quote_ends(v: Seq<char>, w: Seq<char>)
    requires
        !v.contains('"'),
        w.len() > 0,
        w[0] == '"',
    ensures
        find_from(v + w, 0, seq!['"'], false) == Some(v.len() as int),
{
    let q = seq!['"'];
    let z: int = 0;
    assert(occurs_at(v + w, v.len() as int, q, false)) by {
        assert(same_char((v + w)[v.len() + z], q[z], false));
    }
    assert forall|k: int| 0 <= k < v.len() implies !occurs_at(v + w, k, q, false) by {
        if occurs_at(v + w, k, q, false) {
            assert(same_char((v + w)[k + z], q[z], false));
            assert(v[k] == '"');
        }
    }
    lemma_find_at(v + w, 0, v.len() as int, q, false);
}

/// The exported tag, lower-cased piece by piece.
proof fn lemma_tag_lower(t: Seq<char>, u: Seq<char>)
    ensures
        lower_seq(export_tag(t, u)) == lower_seq("<outline type=\"rss\" text="@) + ((seq!['"']
            + lower_seq(t)) + (lower_seq("\" title="@) + ((seq!['"'] + lower_seq(t)) + (lower_seq(
            "\" xmlUrl="@) + lower_seq((seq!['"'] + u) + "\"/"@))))),
{
    let q = seq!['"'];
    let a1 = "<outline type=\"rss\" text="@;
    let x3 = "\" title="@;
    let x5 = "\" xmlUrl="@;
    let r6 = (q + u) + "\"/"@;
    let r5 = x5 + r6;
    let r4 = (q + t) + r5;
    let r3 = x3 + r4;
    let r2 = (q + t) + r3;
    assert(lower_seq(q) =~= q);
    lemma_lower_concat(q, t);
    lemma_lower_concat(x5, r6);
    lemma_lower_concat(q + t, r5);
    lemma_lower_concat(x3, r4);
    lemma_lower_concat(q + t, r3);
    lemma_lower_concat(a1, r2);
}

/// The scanner reads the exported address back from the `xmlUrl` attribute.
proof fn lemma_tag_xmlurl(t: Seq<char>, u: Seq<char>)
    requires
        !t.contains('"'),
        !u.contains('"'),
        find_from(lower_seq(t), 0, xmlurl_key(), false) is None,
    ensures
        spec_attr_value(export_tag(t, u), lower_seq("xmlUrl"@)) == Some(u),
{
    reveal_strlit("\"/");
    reveal_strlit("xmlUrl");
    reveal_strlit("\" title=");
    reveal_strlit("\" xmlUrl=");
    lemma_tag_literals();
    lemma_tag_lower(t, u);
    let q = seq!['"'];
    let a1 = "<outline type=\"rss\" text="@;
    let x3 = "\" title="@;
    let x5 = "\" xmlUrl="@;
    let x7 = "\"/"@;
    let tag = export_tag(t, u);
    let lt = lower_seq(t);
    let r6 = (q + u) + x7;
    let l6 = lower_seq(r6);
    let l5 = lower_seq(x5) + l6;
    let l4 = (q + lt) + l5;
    let l3 = lower_seq(x3) + l4;
    let l2 = (q + lt) + l3;
    let px = xmlurl_key();
    lemma_find_after_quote(lt, px);
    lemma_occurs_prefix(lower_seq(x5), l6, 0, px, false);
    lemma_occurs_prefix(lower_seq(x5), l6, 1, px, false);
    lemma_occurs_prefix(lower_seq(x5), l6, 2, px, false);
    lemma_find_at(l5, 0, 2, px, false);
    assert(l4[0] == '"');
    assert(l5[0] == '"');
    lemma_find_past(q + lt, l5, px, false);
    lemma_find_past(lower_seq(x3), l4, px, false);
    lemma_find_past(q + lt, l3, px, false);
    lemma_find_past(lower_seq("<outline type=\"rss\" text="@), l2, px, false);
    let at = (37 + 2 * t.len()) as int;
    assert(find_from(lower_seq(tag), 0, px, false) == Some(at));
    assert(tag.skip(at + 7) =~= r6);
    assert(r6.skip(1) =~= u + x7);
    lemma_quote_ends(u, x7);
    assert((u + x7).take(u.len() as int) =~= u);
}

/// The scanner reads the exported title back from the `title` attribute.
proof fn lemma_tag_title(t: Seq<char>, u: Seq<char>)
    requires
        !t.contains('"'),
        find_from(lower_seq(t), 0, title_key(), false) is None,
    ensures
        spec_attr_value(export_tag(t, u), lower_seq("title"@)) == Some(t),
{
    reveal_strlit("title");
    reveal_strlit("\" title=");
    reveal_strlit("\" xmlUrl=");
    lemma_tag_literals();
    lemma_tag_lower(t, u);
    let q = seq!['"'];
    let x3 = "\" title="@;
    let x5 = "\" xmlUrl="@;
    let x7 = "\"/"@;
    let tag = export_tag(t, u);
    let lt = lower_seq(t);
    let r6 = (q + u) + x7;
    let r5 = x5 + r6;
    let l6 = lower_seq(r6);
    let l5 = lower_seq(x5) + l6;
    let l4 = (q + lt) + l5;
    let l3 = lower_seq(x3) + l4;
    let l2 = (q + lt) + l3;
    let pt = title_key();
    lemma_find_after_quote(lt, pt);
    lemma_occurs_prefix(lower_seq(x3), l4, 0, pt, false);
    lemma_occurs_prefix(lower_seq(x3), l4, 1, pt, false);
    lemma_occurs_prefix(lower_seq(x3), l4, 2, pt, false);
    lemma_find_at(l3, 0, 2, pt, false);
    assert(l3[0] == '"');
    lemma_find_past(q + lt, l3, pt, false);
    lemma_find_past(lower_seq("<outline type=\"rss\" text="@), l2, pt, false);
    let at = (28 + t.len()) as int;
    assert(find_from(lower_seq(tag), 0, pt, false) == Some(at));
    assert(tag.skip(at + 6) =~= (q + t) + r5);
    assert(((q + t) + r5).skip(1) =~= t + r5);
    assert(r5[0] == '"');
    lemma_quote_ends(t, r5);
    assert((t + r5).take(t.len() as int) =~= t);
}

/// When the scanner finds `title=` inside the escaped title and no quote
/// right after it, it reads no `title` attribute, and the `text` attribute
/// gives the title back.
proof fn lemma_tag_title_fallback(t: Seq<char>, u: Seq<char>, p: int)
    requires
        !t.contains('"'),
        find_from(lower_seq(t), 0, title_key(), false) == Some(p),
        p + 6 < t.len(),
        t[p + 6] != '\'',
    ensures
        spec_attr_value(export_tag(t, u), lower_seq("title"@)) is None,
        spec_attr_value(export_tag(t, u), lower_seq("text"@)) == Some(t),
{
    reveal_strlit("title");
    reveal_strlit("text");
    reveal_strlit("\" title=");
    reveal_strlit("\" xmlUrl=");
    reveal_strlit("<outline type=\"rss\" text=");
    lemma_tag_literals();
    lemma_text_literal();
    lemma_tag_lower(t, u);
    let q = seq!['"'];
    let x3 = "\" title="@;
    let x5 = "\" xmlUrl="@;
    let x7 = "\"/"@;
    let tag = export_tag(t, u);
    let lt = lower_seq(t);
    let r6 = (q + u) + x7;
    let r5 = x5 + r6;
    let r4 = (q + t) + r5;
    let r3 = x3 + r4;
    let l6 = lower_seq(r6);
    let l5 = lower_seq(x5) + l6;
    let l4 = (q + lt) + l5;
    let l3 = lower_seq(x3) + l4;
    let l2 = (q + lt) + l3;
    let pt = title_key();
    // `title=` is first found inside the escaped title
    let z: int = 0;
    assert(!occurs_at(q + lt, 0, pt, false)) by {
        assert(same_char((q + lt)[0 + z], pt[z], false) == false);
    }
    lemma_find_skip(q + lt, 0, 1, pt, false);
    lemma_find_shift(q, lt, 0, pt, false);
    lemma_find_in_prefix(q + lt, l3, pt, false);
    assert(l2[0] == '"');
    lemma_find_past(lower_seq("<outline type=\"rss\" text="@), l2, pt, false);
    lemma_find_from(lt, 0, pt, false);
    assert(0 <= p);
    let at = 26 + p;
    assert(find_from(lower_seq(tag), 0, pt, false) == Some(at));
    let r2 = (q + t) + r3;
    assert(tag == "<outline type=\"rss\" text="@ + r2);
    assert((q + t)[7 + p] == t[p + 6]);
    assert(r2[7 + p] == t[p + 6]);
    assert(tag[32 + p] == t[p + 6]);
    assert(tag.skip(at + 6)[0] == t[p + 6]);
    assert(t[p + 6] != '"') by {
        if t[p + 6] == '"' {
            assert(t.contains('"'));
        }
    }
    // `text=` is found in the fixed head of the tag
    let pk = text_key();
    lemma_find_in_prefix(lower_seq("<outline type=\"rss\" text="@), l2, pk, false);
    assert(tag.skip(25int) =~= (q + t) + r3);
    assert(((q + t) + r3).skip(1) =~= t + r3);
    assert(r3[0] == '"');
    lemma_quote_ends(t, r3);
    assert((t + r3).take(t.len() as int) =~= t);
}

/// The exported tag of a subscription describes it again.
proof fn lemma_tag_outline(title: Seq<char>, url: Seq<char>)
    requires
        exportable(title, url),
    ensures
        outline_of(export_tag(spec_esc(title), spec_esc(url))) == Some((url, title)),
{
    reveal_strlit("xmlUrl");
    reveal_strlit("title");
    reveal_strlit("title=");
    reveal_strlit("xmlurl=");
    assert(xmlurl_key() =~= "xmlurl="@);
    assert(title_key() =~= "title="@);
    lemma_find_from(title, 0, "&quot;"@, false);
    lemma_find_from(title, 0, "&#39;"@, false);
    lemma_find_from(url, 0, "&quot;"@, false);
    lemma_find_from(url, 0, "&#39;"@, false);
    lemma_unescape_esc(title);
    lemma_unescape_esc(url);
    lemma_esc_is_attribute_safe(title);
    lemma_esc_is_attribute_safe(url);
    let t = spec_esc(title);
    let u = spec_esc(url);
    lemma_tag_xmlurl(t, u);
    match find_from(lower_seq(t), 0, title_key(), false) {
        None => lemma_tag_title(t, u),
        Some(p) => {
            reveal_strlit("text");
            lemma_find_from(lower_seq(t), 0, title_key(), false);
            lemma_tag_title_fallback(t, u, p);
        },
    }
}

/// An exported line: indentation, the tag, and its closing `>`.
proof fn lemma_line_shape(title: Seq<char>, url: Seq<char>)
    ensures
        opml_line(title, url) == "    "@ + (export_tag(spec_esc(title), spec_esc(url)) + ">\n"@),
{
    reveal_strlit("    <outline type=\"rss\" text=\"");
    reveal_strlit("\" title=\"");
    reveal_strlit("\" xmlUrl=\"");
    reveal_strlit("\"/>\n");
    reveal_strlit("    ");
    reveal_strlit("<outline type=\"rss\" text=");
    reveal_strlit("\" title=");
    reveal_strlit("\" xmlUrl=");
    reveal_strlit("\"/");
    reveal_strlit(">\n");
    assert(opml_line(title, url) =~= "    "@ + (export_tag(spec_esc(title), spec_esc(url)) + ">\n"@));
}

/// Scanning `x + y` past `x` reads the subscriptions of `y`.
proof fn lemma_outlines_shift(x: Seq<char>, y: Seq<char>, p: int)
    requires
        0 <= p,
    ensures
        outlines_from(x + y, x.len() + p) == outlines_from(y, p),
    decreases y.len() - p,
{
    let xy = x + y;
    let d = x.len() as int;
    lemma_lower_concat(x, y);
    if p < y.len() {
        lemma_find_shift(lower_seq(x), lower_seq(y), p, "<outline"@, false);
        lemma_find_from(lower_seq(y), p, "<outline"@, false);
        match find_from(lower_seq(y), p, "<outline"@, false) {
            None => {},
            Some(start) => {
                lemma_find_shift(lower_seq(x), lower_seq(y), start, ">"@, false);
                let end = match find_from(lower_seq(y), start, ">"@, false) {
                    Some(e) => e,
                    None => y.len() as int,
                };
                if start <= end <= y.len() {
                    assert(xy.subrange(start + d, end + d) =~= y.subrange(start, end));
                }
                let next = if end > start + 8 {
                    end
                } else {
                    start + 8
                };
                if next > p && next < y.len() {
                    lemma_outlines_shift(x, y, next);
                }
            },
        }
    }
}

/// Scanning from `p` or from `q` reads the same when the next `<outline`
/// is found at the same place.
proof fn lemma_outlines_skip(xml: Seq<char>, p: int, q: int)
    requires
        0 <= p <= q < xml.len(),
        find_from(lower_seq(xml), p, "<outline"@, false) == find_from(lower_seq(xml), q, "<outline"@, false),
    ensures
        outlines_from(xml, p) == outlines_from(xml, q),
{
    lemma_find_from(lower_seq(xml), q, "<outline"@, false);
}

/// No char of an exported tag is a `>`.
proof fn lemma_tag_no_gt(title: Seq<char>, url: Seq<char>)
    requires
        !title.contains('>'),
        !url.contains('>'),
    ensures
        !export_tag(spec_esc(title), spec_esc(url)).contains('>'),
{
    reveal_strlit("&");
    reveal_strlit("&amp;");
    reveal_strlit("\"");
    reveal_strlit("&quot;");
    reveal_strlit("<");
    reveal_strlit("&lt;");
    reveal_strlit("<outline type=\"rss\" text=");
    reveal_strlit("\" title=");
    reveal_strlit("\" xmlUrl=");
    reveal_strlit("\"/");
    assert forall|s: Seq<char>| !s.contains('>') implies !#[trigger] spec_esc(s).contains('>') by {
        let s1 = replace_all(s, "&"@, "&amp;"@);
        let s2 = replace_all(s1, "\""@, "&quot;"@);
        assert(!"&amp;"@.contains('>')) by {
            if "&amp;"@.contains('>') {
                let k = choose|k: int| 0 <= k < "&amp;"@.len() && #[trigger] "&amp;"@[k] == '>';
            }
        }
        assert(!"&quot;"@.contains('>')) by {
            if "&quot;"@.contains('>') {
                let k = choose|k: int| 0 <= k < "&quot;"@.len() && #[trigger] "&quot;"@[k] == '>';
            }
        }
        assert(!"&lt;"@.contains('>')) by {
            if "&lt;"@.contains('>') {
                let k = choose|k: int| 0 <= k < "&lt;"@.len() && #[trigger] "&lt;"@[k] == '>';
            }
        }
        lemma_replace_keeps_out(s, "&"@, "&amp;"@, '>');
        lemma_replace_keeps_out(s1, "\""@, "&quot;"@, '>');
        lemma_replace_keeps_out(s2, "<"@, "&lt;"@, '>');
    }
    let t = spec_esc(title);
    let u = spec_esc(url);
    let q = seq!['"'];
    let a1 = "<outline type=\"rss\" text="@;
    let x3 = "\" title="@;
    let x5 = "\" xmlUrl="@;
    let x7 = "\"/"@;
    assert(!a1.contains('>')) by {
        if a1.contains('>') {
            let k = choose|k: int| 0 <= k < a1.len() && #[trigger] a1[k] == '>';
        }
    }
    assert(!x3.contains('>')) by {
        if x3.contains('>') {
            let k = choose|k: int| 0 <= k < x3.len() && #[trigger] x3[k] == '>';
        }
    }
    assert(!x5.contains('>')) by {
        if x5.contains('>') {
            let k = choose|k: int| 0 <= k < x5.len() && #[trigger] x5[k] == '>';
        }
    }
    assert(!x7.contains('>')) by {
        if x7.contains('>') {
            let k = choose|k: int| 0 <= k < x7.len() && #[trigger] x7[k] == '>';
        }
    }
    assert(!q.contains('>')) by {
        if q.contains('>') {
            let k = choose|k: int| 0 <= k < q.len() && #[trigger] q[k] == '>';
        }
    }
    assert(!spec_esc(title).contains('>'));
    assert(!spec_esc(url).contains('>'));
    let r6 = (q + u) + x7;
    let r5 = x5 + r6;
    let r4 = (q + t) + r5;
    let r3 = x3 + r4;
    let r2 = (q + t) + r3;
    crate::text::lemma_concat_contains(q, u, '>');
    crate::text::lemma_concat_contains(q + u, x7, '>');
    crate::text::lemma_concat_contains(x5, r6, '>');
    crate::text::lemma_concat_contains(q, t, '>');
    crate::text::lemma_concat_contains(q + t, r5, '>');
    crate::text::lemma_concat_contains(x3, r4, '>');
    crate::text::lemma_concat_contains(q + t, r3, '>');
    crate::text::lemma_concat_contains(a1, r2, '>');
}

/// Where the scanner finds the tag of an exported line, and that it finds
/// no other `<outline` in the line.
proof fn lemma_line_scan(tag: Seq<char>, rest: Seq<char>)
    requires
        tag.len() >= 25,
        !tag.contains('>'),
        tag.take(8) == "<outline"@,
    ensures
        ({
            let xml = "    "@ + (tag + ">\n"@) + rest;
            let low = lower_seq(xml);
            let n = tag.len() as int;
            &&& find_from(low, 0, "<outline"@, false) == Some(4int)
            &&& find_from(low, 4, ">"@, false) == Some(4 + n)
            &&& xml.subrange(4, 4 + n) == tag
            &&& find_from(low, 4 + n, "<outline"@, false) == find_from(low, 6 + n, "<outline"@, false)
        }),
{
    reveal_strlit("<outline");
    reveal_strlit(">");
    reveal_strlit("    ");
    reveal_strlit(">\n");
    let xml = "    "@ + (tag + ">\n"@) + rest;
    let n = tag.len() as int;
    let low = lower_seq(xml);
    let pat = "<outline"@;
    let gt = ">"@;
    let z: int = 0;
    assert(forall|k: int| 0 <= k < 4 ==> xml[k] == ' ');
    assert(forall|k: int| 0 <= k < n ==> xml[4 + k] == tag[k]);
    assert(xml[4 + n] == '>');
    assert(xml[5 + n] == '\n');
    assert(occurs_at(low, 4, pat, false)) by {
        assert forall|k: int| 0 <= k < 8 implies same_char(#[trigger] low[4 + k], pat[k], false) by {
            assert(xml[4 + k] == tag[k]);
            assert(tag[k] == tag.take(8)[k]);
        }
    }
    assert forall|k: int| 0 <= k < 4 implies !occurs_at(low, k, pat, false) by {
        if occurs_at(low, k, pat, false) {
            assert(same_char(low[k + z], pat[z], false));
        }
    }
    lemma_find_at(low, 0, 4, pat, false);
    assert(occurs_at(low, 4 + n, gt, false)) by {
        assert(same_char(low[(4 + n) + z], gt[z], false));
    }
    assert forall|k: int| 4 <= k < 4 + n implies !occurs_at(low, k, gt, false) by {
        if occurs_at(low, k, gt, false) {
            assert(same_char(low[k + z], gt[z], false));
            assert(tag[k - 4] == '>');
        }
    }
    lemma_find_at(low, 4, 4 + n, gt, false);
    assert(xml.subrange(4, 4 + n) =~= tag);
    assert(!occurs_at(low, 4 + n, pat, false)) by {
        assert(same_char(low[(4 + n) + z], pat[z], false) == false);
    }
    assert(!occurs_at(low, 5 + n, pat, false)) by {
        assert(same_char(low[(5 + n) + z], pat[z], false) == false);
    }
    lemma_find_skip(low, 4 + n, 6 + n, pat, false);
}

/// A document that starts with an indented `<outline` tag describing `o`,
/// closed by `>` and a newline, lists `o` first, then the subscriptions of
/// what follows the line.
proof fn lemma_tag_line_outlines(
    tag: Seq<char>,
    o: (Seq<char>, Seq<char>),
    rest: Seq<char>,
)
    requires
        tag.len() >= 25,
        !tag.contains('>'),
        tag.take(8) == "<outline"@,
        outline_of(tag) == Some(o),
        rest.len() > 0,
    ensures
        outlines_from("    "@ + (tag + ">\n"@) + rest, 0) == seq![o] + outlines_from(rest, 0),
{
    reveal_strlit("    ");
    reveal_strlit(">\n");
    let line = "    "@ + (tag + ">\n"@);
    let xml = line + rest;
    let n = tag.len() as int;
    lemma_line_scan(tag, rest);
    assert(line.len() == 6 + n);
    lemma_outlines_skip(xml, 4 + n, 6 + n);
    lemma_outlines_shift(line, rest, 0);
    assert(outlines_from(xml, 0) == seq![o] + outlines_from(xml, 4 + n));
}

/// A document that starts with an exported line lists that subscription
/// first, then those of what follows the line.
proof fn lemma_line_outlines(title: Seq<char>, url: Seq<char>, rest: Seq<char>)
    requires
        exportable(title, url),
        rest.len() > 0,
    ensures
        outlines_from(opml_line(title, url) + rest, 0) == seq![(url, title)] + outlines_from(rest, 0),
{
    reveal_strlit("<outline");
    reveal_strlit("<outline type=\"rss\" text=");
    lemma_line_shape(title, url);
    lemma_tag_outline(title, url);
    lemma_tag_no_gt(title, url);
    let tag = export_tag(spec_esc(title), spec_esc(url));
    assert(tag.take(8) =~= "<outline"@);
    lemma_tag_line_outlines(tag, (url, title), rest);
}

/// The head and the tail of an exported document hold no `<outline`.
proof fn lemma_frame_literals()
    ensures
        find_from(lower_seq(opml_head()), 0, "<outline"@, false) is None,
        find_from(lower_seq(opml_tail()), 0, "<outline"@, false) is None,
        opml_tail().len() > 0,
        opml_tail()[0] == ' ',
{
    reveal_strlit("<outline");
    reveal_strlit("<?xml version=\"1.0\" encoding=\"UTF-8\"?>\n<opml version=\"2.0\">\n  <head><title>LocalFeed</title></head>\n  <body>\n");
    reveal_strlit("  </body>\n</opml>\n");
    let pat = "<outline"@;
    let z: int = 0;
    let lh = lower_seq(opml_head());
    assert forall|k: int| 0 <= k < lh.len() implies !occurs_at(lh, k, pat, false) by {
        if occurs_at(lh, k, pat, false) {
            assert(same_char(lh[k + z], pat[z], false));
            assert(same_char(lh[k + 1], pat[1], false));
            assert(same_char(lh[k + 2], pat[2], false));
        }
    }
    lemma_find_none(lh, pat, false);
    let lt = lower_seq(opml_tail());
    assert forall|k: int| 0 <= k < lt.len() implies !occurs_at(lt, k, pat, false) by {
        if occurs_at(lt, k, pat, false) {
            assert(same_char(lt[k + z], pat[z], false));
            assert(same_char(lt[k + 1], pat[1], false));
        }
    }
    lemma_find_none(lt, pat, false);
}

/// The exported lines of the feeds from `i` on, followed by the tail.
spec fn opml_rest(feeds: Seq<FeedRow>, i: int) -> Seq<char>
    decreases feeds.len() - i,
{
    if i < 0 || i >= feeds.len() {
        opml_tail()
    } else {
        opml_line(feeds[i].title@, feeds[i].url@) + opml_rest(feeds, i + 1)
    }
}

/// The lines before `i` and the rest from `i` make up the whole body.
proof fn lemma_rest_concat(feeds: Seq<FeedRow>, i: int)
    requires
        0 <= i <= feeds.len(),
    ensures
        opml_lines(feeds, i) + opml_rest(feeds, i) == opml_lines(feeds, feeds.len() as int)
            + opml_tail(),
    decreases feeds.len() - i,
{
    if i < feeds.len() {
        lemma_rest_concat(feeds, i + 1);
        let line = opml_line(feeds[i].title@, feeds[i].url@);
        assert(opml_lines(feeds, i + 1) == opml_lines(feeds, i) + line);
        assert(opml_lines(feeds, i) + (line + opml_rest(feeds, i + 1)) =~= (opml_lines(feeds, i)
            + line) + opml_rest(feeds, i + 1));
    }
}

/// What follows the head starts with a space.
proof fn lemma_rest_starts(feeds: Seq<FeedRow>, i: int)
    requires
        0 <= i <= feeds.len(),
    ensures
        opml_rest(feeds, i).len() > 0,
        opml_rest(feeds, i)[0] == ' ',
{
    lemma_frame_literals();
    if i < feeds.len() {
        reveal_strlit("    <outline type=\"rss\" text=\"");
    }
}

/// The subscription a feed is exported as.
pub open spec fn feed_outline(f: FeedRow) -> (Seq<char>, Seq<char>) {
    (f.url@, f.title@)
}

/// Scanning the lines from `i` on reads back the feeds from `i` on.
proof fn lemma_rest_outlines(feeds: Seq<FeedRow>, i: int)
    requires
        0 <= i <= feeds.len(),
        forall|j: int| 0 <= j < feeds.len() ==> exportable(#[trigger] feeds[j].title@, feeds[j].url@),
    ensures
        outlines_from(opml_rest(feeds, i), 0) == feeds.subrange(i, feeds.len() as int).map_values(
            |f: FeedRow| feed_outline(f),
        ),
    decreases feeds.len() - i,
{
    lemma_frame_literals();
    if i == feeds.len() {
        assert(outlines_from(opml_tail(), 0) =~= Seq::<(Seq<char>, Seq<char>)>::empty());
        assert(feeds.subrange(i, feeds.len() as int).map_values(|f: FeedRow| feed_outline(f))
            =~= Seq::<(Seq<char>, Seq<char>)>::empty());
    } else {
        lemma_rest_outlines(feeds, i + 1);
        lemma_rest_starts(feeds, i + 1);
        let f = feeds[i];
        assert(exportable(f.title@, f.url@));
        lemma_line_outlines(f.title@, f.url@, opml_rest(feeds, i + 1));
        assert(feeds.subrange(i, feeds.len() as int).map_values(|f: FeedRow| feed_outline(f))
            =~= seq![feed_outline(f)] + feeds.subrange(i + 1, feeds.len() as int).map_values(
            |f: FeedRow| feed_outline(f),
        ));
    }
}

/// Exporting subscriptions to OPML and importing the document again gives
/// each one back, address and title, in the same order, whenever every
/// title and address is `exportable`.
pub proof fn lemma_opml_roundtrip(feeds: Seq<FeedRow>)
    requires
        forall|j: int| 0 <= j < feeds.len() ==> exportable(#[trigger] feeds[j].title@, feeds[j].url@),
    ensures
        outlines_from(spec_opml_document(feeds), 0) == feeds.map_values(|f: FeedRow| feed_outline(f)),
{
    lemma_frame_literals();
    lemma_rest_concat(feeds, 0);
    lemma_rest_starts(feeds, 0);
    lemma_rest_outlines(feeds, 0);
    let head = opml_head();
    let rest = opml_rest(feeds, 0);
    let doc = spec_opml_document(feeds);
    assert(opml_lines(feeds, 0) =~= Seq::<char>::empty());
    assert(doc =~= head + rest);
    let pat = "<outline"@;
    lemma_lower_concat(head, rest);
    reveal_strlit("<outline");
    assert forall|i: int| 0 <= i < pat.len() implies !same_char(lower_seq(rest)[0], #[trigger] pat[i], false) by {}
    lemma_find_past(lower_seq(head), lower_seq(rest), pat, false);
    lemma_find_shift(lower_seq(head), lower_seq(rest), 0, pat, false);
    lemma_outlines_skip(doc, 0, head.len() as int);
    lemma_outlines_shift(head, rest, 0);
    assert(feeds.subrange(0, feeds.len() as int) =~= feeds);
}

/// A text written escaped into the `text` attribute of an `<outline>` tag
/// is read back by `attr` as it was, when it holds no `<` and neither
/// `&quot;` nor `&#39;` occurs in it.
pub proof fn lemma_attr_reads_escaped(s: Seq<char>)
    requires
        !s.contains('<'),
        !contains_seq(s, "&quot;"@, false),
        !contains_seq(s, "&#39;"@, false),
    ensures
        spec_attr("<outline text=\""@ + spec_esc(s) + "\"/>"@, "text"@) == Some(s),
{
    reveal_strlit("<outline text=\"");
    reveal_strlit("\"/>");
    reveal_strlit("<outline text=");
    reveal_strlit("text");
    reveal_strlit("&quot;");
    reveal_strlit("&#39;");
    lemma_find_from(s, 0, "&quot;"@, false);
    lemma_find_from(s, 0, "&#39;"@, false);
    lemma_unescape_esc(s);
    lemma_esc_is_attribute_safe(s);
    let t = spec_esc(s);
    let head = "<outline text="@;
    let rest = seq!['"'] + t + "\"/>"@;
    let tag = "<outline text=\""@ + t + "\"/>"@;
    assert(tag =~= head + rest);
    lemma_lower_concat(head, rest);
    let pk = text_key();
    let lh = lower_seq(head);
    assert(lh =~= head);
    assert(pk =~= seq!['t', 'e', 'x', 't', '=']);
    let z: int = 0;
    assert(occurs_at(lh, 9, pk, false)) by {
        assert forall|k: int| 0 <= k < 5 implies same_char(#[trigger] lh[9 + k], pk[k], false) by {}
    }
    assert forall|k: int| 0 <= k < 9 implies !occurs_at(lh, k, pk, false) by {
        if occurs_at(lh, k, pk, false) {
            assert(same_char(lh[k + z], pk[z], false));
            assert(same_char(lh[k + 1], pk[1], false));
        }
    }
    lemma_find_at(lh, 0, 9, pk, false);
    lemma_find_in_prefix(lh, lower_seq(rest), pk, false);
    assert(tag.skip(14int) =~= rest);
    assert(rest.skip(1) =~= t + "\"/>"@);
    lemma_quote_ends(t, "\"/>"@);
    assert((t + "\"/>"@).take(t.len() as int) =~= t);
}

} // verus!
