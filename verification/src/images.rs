//! Local image cache: which images an article uses, the cached file format,
//! and the rewrite of `<img>` tags so that the page never reaches out to the
//! network for an image that is cached.
use base64::Engine;
use sha2::Digest;
use vstd::prelude::*;

use crate::search::{path_join, spec_path_join};
use crate::text::{
    contains_seq, occurs_at, same_char,
    chars_of, find, find_from, has_prefix, is_whitespace, is_ws, lemma_find_from, lower_all,
    lower_seq, push_all, skip_ws, slice_chars, starts_with, string_of, trim, trim_chars,
    trim_start, views, lemma_views_push,
};

verus! {

/// A char that ends an unquoted attribute value.
pub open spec fn ends_unquoted(c: char) -> bool {
    c == ' ' || c == '\t' || c == '\n' || c == '>'
}

/// Index of the first char at or after `i` that ends an unquoted value, or
/// the length.
pub open spec fn unquoted_end(v: Seq<char>, i: int) -> int
    decreases v.len() - i,
{
    if i < 0 || i >= v.len() {
        v.len() as int
    } else if ends_unquoted(v[i]) {
        i
    } else {
        unquoted_end(v, i + 1)
    }
}

fn find_unquoted_end(v: &[char], from: usize) -> (r: usize)
    requires
        from <= v@.len(),
    ensures
        r == unquoted_end(v@, from as int),
        from <= r <= v@.len(),
{
    let mut i = from;
    while i < v.len()
        invariant
            from <= i <= v@.len(),
            unquoted_end(v@, from as int) == unquoted_end(v@, i as int),
        decreases v@.len() - i,
    {
        let c = v[i];
        if c == ' ' || c == '\t' || c == '\n' || c == '>' {
            return i;
        }
        i += 1;
    }
    i
}

/// The value after `=`: skip whitespace; a quoted value runs to the
/// matching quote, an unquoted one to the first space, tab, newline or
/// `>`; the value is trimmed. `None` when nothing follows, or a quote is
/// not closed.
pub open spec fn value_after_eq(w: Seq<char>) -> Option<Seq<char>> {
    let v = trim_start(w);
    if v.len() == 0 {
        None
    } else if v[0] == '"' || v[0] == '\'' {
        match find_from(v.skip(1), 0, seq![v[0]], false) {
            None => None,
            Some(f) => Some(trim(v.skip(1).take(f))),
        }
    } else {
        Some(trim(v.take(unquoted_end(v, 0))))
    }
}

/// A char allowed right before an attribute name.
pub open spec fn is_attr_gap(c: char) -> bool {
    c == ' ' || c == '\t' || c == '\n'
}

/// Where the attribute `name` starts, scanning the lower-cased tag from
/// `from`: an occurrence of `name` that is a whole attribute (at the start
/// or after a space, tab or newline, so that `src` is not read out of
/// `data-src`) and is followed by optional whitespace and `=`. With
/// `at_start_ok` an occurrence at index 0 counts too.
pub open spec fn attr_name_at(low: Seq<char>, name: Seq<char>, from: int, at_start_ok: bool) -> Option<int>
    decreases low.len() - from,
{
    if from < 0 || name.len() == 0 {
        None
    } else {
        match find_from(low, from, name, false) {
            None => None,
            Some(at) => {
                let before_ok = if at == 0 {
                    at_start_ok
                } else {
                    0 < at <= low.len() && is_attr_gap(low[at - 1])
                };
                let after = trim_start(low.skip(at + name.len()));
                if before_ok && after.len() > 0 && after[0] == '=' {
                    Some(at)
                } else if at + name.len() <= from || at + name.len() > low.len() {
                    None
                } else {
                    attr_name_at(low, name, at + name.len(), at_start_ok)
                }
            },
        }
    }
}

/// Without `at_start_ok` an attribute is never found at index 0.
proof fn lemma_attr_name_not_first(low: Seq<char>, name: Seq<char>, from: int)
    requires
        0 <= from,
    ensures
        attr_name_at(low, name, from, false) matches Some(at) ==> at > 0,
    decreases low.len() - from,
{
    lemma_find_from(low, from, name, false);
    if name.len() > 0 {
        match find_from(low, from, name, false) {
            None => {},
            Some(at) => {
                if !(at + name.len() <= from || at + name.len() > low.len()) {
                    lemma_attr_name_not_first(low, name, at + name.len());
                }
            },
        }
    }
}

/// Index just past the `=` of the attribute found at `at`.
pub open spec fn after_eq(low: Seq<char>, name: Seq<char>, at: int) -> int {
    let rest = low.skip(at + name.len());
    at + name.len() + (rest.len() - trim_start(rest).len()) + 1
}

/// The value of attribute `name` in an `<img>` tag (see `attr_name_at`).
pub open spec fn spec_img_attr(tag: Seq<char>, name: Seq<char>) -> Option<Seq<char>> {
    match attr_name_at(lower_seq(tag), name, 0, true) {
        None => None,
        Some(at) => value_after_eq(tag.skip(after_eq(lower_seq(tag), name, at))),
    }
}

/// Finds attribute `name` in the lower-cased tag; returns where its name
/// starts and the index just past its `=`.
fn find_attr(low: &[char], name: &[char], at_start_ok: bool) -> (r: Option<(usize, usize)>)
    requires
        name@.len() > 0,
    ensures
        r is None ==> attr_name_at(low@, name@, 0, at_start_ok) is None,
        r matches Some((at, eq)) ==> {
            &&& attr_name_at(low@, name@, 0, at_start_ok) == Some(at as int)
            &&& eq == after_eq(low@, name@, at as int)
            &&& at + name@.len() < eq <= low@.len()
        },
{
    let n = low.len();
    let nl = name.len();
    let mut from: usize = 0;
    loop
        invariant
            n == low@.len(),
            nl == name@.len(),
            nl > 0,
            from <= n,
            attr_name_at(low@, name@, 0, at_start_ok) == attr_name_at(low@, name@, from as int, at_start_ok),
        decreases n - from,
    {
        let at = match find(low, from, name, false) {
            Some(at) => at,
            None => return None,
        };
        proof {
            lemma_find_from(low@, from as int, name@, false);
        }
        let before_ok = if at == 0 {
            at_start_ok
        } else {
            let c = low[at - 1];
            c == ' ' || c == '\t' || c == '\n'
        };
        let k = skip_ws(low, at + nl);
        proof {
            assert(low@.skip(k as int).len() == n - k);
        }
        if before_ok && k < n && low[k] == '=' {
            assert(low@.skip(k as int)[0] == low@[k as int]);
            return Some((at, k + 1));
        }
        from = at + nl;
    }
}

fn value_after_eq_chars(w: &[char]) -> (r: Option<Vec<char>>)
    ensures
        r matches Some(v) ==> value_after_eq(w@) == Some(v@),
        r is None ==> value_after_eq(w@) is None,
{
    let k = skip_ws(w, 0);
    assert(w@.skip(0) =~= w@);
    let v = slice_chars(w, k, w.len());
    assert(v@ =~= w@.skip(k as int));
    if v.len() == 0 {
        return None;
    }
    let q = v[0];
    if q == '"' || q == '\'' {
        let inner = slice_chars(v.as_slice(), 1, v.len());
        assert(inner@ =~= v@.skip(1));
        let qs: Vec<char> = vec![q];
        assert(qs@ =~= seq![q]);
        match find(inner.as_slice(), 0, qs.as_slice(), false) {
            Some(f) => {
                proof {
                    lemma_find_from(inner@, 0, qs@, false);
                }
                let body = slice_chars(inner.as_slice(), 0, f);
                assert(body@ =~= inner@.take(f as int));
                Some(trim_chars(body.as_slice()))
            },
            None => None,
        }
    } else {
        let e = find_unquoted_end(v.as_slice(), 0);
        let body = slice_chars(v.as_slice(), 0, e);
        assert(body@ =~= v@.take(e as int));
        Some(trim_chars(body.as_slice()))
    }
}

/// Value of an attribute inside an `<img>` tag, with double, single or no
/// quotes; `name` must be a whole attribute name (`data-src` is not `src`).
pub fn attr_value(tag: &str, name: &str) -> (r: Option<String>)
    requires
        name@.len() > 0,
    ensures
        r matches Some(v) ==> spec_img_attr(tag@, name@) == Some(v@),
        r is None ==> spec_img_attr(tag@, name@) is None,
{
    let t = chars_of(tag);
    let nm = chars_of(name);
    let low = lower_all(t.as_slice());
    match find_attr(low.as_slice(), nm.as_slice(), true) {
        None => None,
        Some((_at, eq)) => {
            let w = slice_chars(t.as_slice(), eq, t.len());
            assert(w@ =~= tag@.skip(eq as int));
            match value_after_eq_chars(w.as_slice()) {
                Some(v) => Some(string_of(v.as_slice())),
                None => None,
            }
        },
    }
}

/// An address fetched over the network (`http://` or `https://`).
pub open spec fn is_web_url(u: Seq<char>) -> bool {
    has_prefix(u, "http://"@) || has_prefix(u, "https://"@)
}

/// Image addresses of `html` from index `i` on, added to `acc`: each `<img`
/// tag (any case) runs to the next `>`; its `src`, when it is a web address
/// not yet listed, is appended.
pub open spec fn img_urls_from(html: Seq<char>, i: int, acc: Seq<Seq<char>>) -> Seq<Seq<char>>
    decreases html.len() - i,
{
    if i < 0 {
        acc
    } else {
        match find_from(html, i, "<img"@, true) {
            None => acc,
            Some(p) => {
                let end = match find_from(html, p, ">"@, true) {
                    Some(e) => e,
                    None => html.len() as int,
                };
                let acc2 = if p <= end <= html.len() {
                    match spec_img_attr(html.subrange(p, end), "src"@) {
                        Some(u) => if is_web_url(u) && !acc.contains(u) {
                            acc.push(u)
                        } else {
                            acc
                        },
                        None => acc,
                    }
                } else {
                    acc
                };
                let next = if end > p + 4 {
                    end
                } else {
                    p + 4
                };
                if next <= i || next > html.len() {
                    acc2
                } else {
                    img_urls_from(html, next, acc2)
                }
            },
        }
    }
}

/// Whether a list of strings holds one with the text of `u`.
pub fn contains_string(v: &Vec<String>, u: &String) -> (r: bool)
    ensures
        r == views(v@).contains(u@),
{
    let mut i: usize = 0;
    while i < v.len()
        invariant
            i <= v@.len(),
            forall|k: int| 0 <= k < i ==> v@[k]@ != u@,
        decreases v@.len() - i,
    {
        if v[i] == *u {
            assert(views(v@)[i as int] == u@);
            return true;
        }
        i += 1;
    }
    assert forall|k: int| 0 <= k < views(v@).len() implies views(v@)[k] != u@ by {
        assert(views(v@)[k] == v@[k]@);
    }
    false
}

/// Image addresses of an article's HTML (`<img src=...>`), in order of
/// appearance, each once; only web addresses (`data:` images are already
/// embedded, relative paths cannot be resolved here).
pub fn img_urls(html: &str) -> (r: Vec<String>)
    ensures
        views(r@) == img_urls_from(html@, 0, seq![]),
        views(r@).no_duplicates(),
        forall|k: int| 0 <= k < r@.len() ==> is_web_url(#[trigger] r@[k]@),
{
    let s = chars_of(html);
    let n = s.len();
    let img = chars_of("<img");
    let gt = chars_of(">");
    proof {
        reveal_strlit("<img");
        reveal_strlit(">");
    }
    let mut out: Vec<String> = Vec::new();
    let mut i: usize = 0;
    assert(views(out@) =~= Seq::<Seq<char>>::empty());
    loop
        invariant_except_break
            img_urls_from(html@, 0, seq![]) == img_urls_from(html@, i as int, views(out@)),
        invariant
            i <= n,
            n == s@.len(),
            s@ == html@,
            img@ == "<img"@,
            img@.len() == 4,
            gt@ == ">"@,
            views(out@).no_duplicates(),
            forall|k: int| 0 <= k < out@.len() ==> is_web_url(#[trigger] out@[k]@),
        ensures
            views(out@) == img_urls_from(html@, 0, seq![]),
            views(out@).no_duplicates(),
            forall|k: int| 0 <= k < out@.len() ==> is_web_url(#[trigger] out@[k]@),
        decreases n - i,
    {
        let p = match find(s.as_slice(), i, img.as_slice(), true) {
            Some(p) => p,
            None => {
                assert(img_urls_from(html@, i as int, views(out@)) == views(out@));
                assert(img_urls_from(html@, 0, seq![]) == views(out@));
                break;
            },
        };
        proof {
            lemma_find_from(s@, i as int, img@, true);
        }
        let end = match find(s.as_slice(), p, gt.as_slice(), true) {
            Some(e) => e,
            None => n,
        };
        proof {
            lemma_find_from(s@, p as int, gt@, true);
        }
        let ghost before = views(out@);
        let tag = string_of(slice_chars(s.as_slice(), p, end).as_slice());
        proof {
            reveal_strlit("src");
        }
        match attr_value(tag.as_str(), "src") {
            Some(u) => {
                let uc = chars_of(u.as_str());
                if (starts_with(uc.as_slice(), "http://") || starts_with(uc.as_slice(), "https://"))
                    && !contains_string(&out, &u) {
                    proof {
                        lemma_views_push(out@, u);
                    }
                    out.push(u);
                    proof {
                        assert forall|j: int, k: int| 0 <= j < k < views(out@).len() implies views(out@)[j]
                            != views(out@)[k] by {
                            if k == views(out@).len() - 1 {
                                assert(views(out@)[j] == before[j]);
                                assert(before.contains(before[j]));
                            } else {
                                assert(views(out@)[j] == before[j]);
                                assert(views(out@)[k] == before[k]);
                            }
                        }
                        assert forall|k: int| 0 <= k < out@.len() implies is_web_url(#[trigger] out@[k]@) by {
                            if k < out@.len() - 1 {
                                assert(out@[k] == out@.drop_last()[k]);
                            }
                        }
                    }
                }
            },
            None => {},
        }
        let next = if end > p + 4 {
            end
        } else {
            p + 4
        };
        assert(img_urls_from(html@, i as int, before) == (if next <= i || next > n {
            views(out@)
        } else {
            img_urls_from(html@, next as int, views(out@))
        }));
        if next >= n {
            assert(img_urls_from(html@, 0, seq![]) == views(out@)) by {
                if next == n {
                    lemma_find_from(s@, n as int, img@, true);
                }
            }
            break;
        }
        i = next;
    }
    out
}

/// The texts of a list of (key, value) string pairs.
pub open spec fn pair_views(s: Seq<(String, String)>) -> Seq<(Seq<char>, Seq<char>)> {
    s.map_values(|p: (String, String)| (p.0@, p.1@))
}

/// The map that a list of pairs describes (a later pair wins).
pub open spec fn map_of(s: Seq<(Seq<char>, Seq<char>)>) -> Map<Seq<char>, Seq<char>>
    decreases s.len(),
{
    if s.len() == 0 {
        Map::empty()
    } else {
        map_of(s.drop_last()).insert(s.last().0, s.last().1)
    }
}

/// No key occurs twice in the list.
pub open spec fn keys_distinct(s: Seq<(Seq<char>, Seq<char>)>) -> bool {
    forall|i: int, j: int| 0 <= i < j < s.len() ==> s[i].0 != s[j].0
}

proof fn lemma_map_of_keys(s: Seq<(Seq<char>, Seq<char>)>, k: Seq<char>)
    requires
        forall|i: int| 0 <= i < s.len() ==> s[i].0 != k,
    ensures
        !map_of(s).dom().contains(k),
    decreases s.len(),
{
    if s.len() > 0 {
        lemma_map_of_keys(s.drop_last(), k);
    }
}

proof fn lemma_map_of_at(s: Seq<(Seq<char>, Seq<char>)>, i: int)
    requires
        keys_distinct(s),
        0 <= i < s.len(),
    ensures
        map_of(s).dom().contains(s[i].0),
        map_of(s)[s[i].0] == s[i].1,
    decreases s.len(),
{
    if i < s.len() - 1 {
        lemma_map_of_at(s.drop_last(), i);
    }
}

proof fn lemma_map_of_update(s: Seq<(Seq<char>, Seq<char>)>, i: int, v: Seq<char>)
    requires
        keys_distinct(s),
        0 <= i < s.len(),
    ensures
        map_of(s.update(i, (s[i].0, v))) == map_of(s).insert(s[i].0, v),
        keys_distinct(s.update(i, (s[i].0, v))),
    decreases s.len(),
{
    let u = s.update(i, (s[i].0, v));
    if i == s.len() - 1 {
        assert(u.drop_last() =~= s.drop_last());
        assert(map_of(u) =~= map_of(s).insert(s[i].0, v));
    } else {
        lemma_map_of_update(s.drop_last(), i, v);
        assert(u.drop_last() =~= s.drop_last().update(i, (s[i].0, v)));
        assert(map_of(u) =~= map_of(s).insert(s[i].0, v));
    }
}

/// Cached images ready to embed: image address -> `data:` URI.
pub struct DataUris {
    entries: Vec<(String, String)>,
}

impl View for DataUris {
    type V = Map<Seq<char>, Seq<char>>;

    closed spec fn view(&self) -> Map<Seq<char>, Seq<char>> {
        map_of(pair_views(self.entries@))
    }
}

impl DataUris {
    #[verifier::type_invariant]
    closed spec fn wf(self) -> bool {
        keys_distinct(pair_views(self.entries@))
    }

    /// An empty map.
    pub fn new() -> (r: DataUris)
        ensures
            r@ == Map::<Seq<char>, Seq<char>>::empty(),
    {
        let r = DataUris { entries: Vec::new() };
        assert(pair_views(r.entries@) =~= Seq::<(Seq<char>, Seq<char>)>::empty());
        r
    }

    fn index_of(&self, url: &str) -> (r: Option<usize>)
        ensures
            r matches Some(i) ==> i < self.entries@.len() && self.entries@[i as int].0@ == url@,
            r is None ==> !self@.dom().contains(url@),
    {
        let mut i: usize = 0;
        while i < self.entries.len()
            invariant
                i <= self.entries@.len(),
                forall|k: int| 0 <= k < i ==> pair_views(self.entries@)[k].0 != url@,
            decreases self.entries@.len() - i,
        {
            if str_eq(self.entries[i].0.as_str(), url) {
                return Some(i);
            }
            assert(pair_views(self.entries@)[i as int].0 == self.entries@[i as int].0@);
            i += 1;
        }
        proof {
            lemma_map_of_keys(pair_views(self.entries@), url@);
        }
        None
    }

    /// The `data:` URI cached for `url`, if any.
    pub fn get(&self, url: &str) -> (r: Option<String>)
        ensures
            r matches Some(v) ==> self@.dom().contains(url@) && self@[url@] == v@,
            r is None ==> !self@.dom().contains(url@),
    {
        proof {
            use_type_invariant(self);
        }
        match self.index_of(url) {
            Some(i) => {
                proof {
                    lemma_map_of_at(pair_views(self.entries@), i as int);
                    assert(pair_views(self.entries@)[i as int] == (
                        self.entries@[i as int].0@,
                        self.entries@[i as int].1@,
                    ));
                }
                Some(self.entries[i].1.clone())
            },
            None => None,
        }
    }

    /// Records `uri` for `url` (replacing what was there).
    pub fn insert(&mut self, url: String, uri: String)
        ensures
            final(self)@ == old(self)@.insert(url@, uri@),
    {
        proof {
            use_type_invariant(&*self);
        }
        match self.index_of(url.as_str()) {
            Some(i) => {
                let ghost pv = pair_views(self.entries@);
                proof {
                    lemma_map_of_update(pv, i as int, uri@);
                }
                let mut entries: Vec<(String, String)> = Vec::new();
                std::mem::swap(&mut entries, &mut self.entries);
                let key = entries[i].0.clone();
                entries.set(i, (key, uri));
                assert(pair_views(entries@) =~= pv.update(i as int, (pv[i as int].0, uri@)));
                self.entries = entries;
            },
            None => {
                let ghost pv = pair_views(self.entries@);
                let mut entries: Vec<(String, String)> = Vec::new();
                std::mem::swap(&mut entries, &mut self.entries);
                entries.push((url, uri));
                assert(pair_views(entries@) =~= pv.push((url@, uri@)));
                assert(pair_views(entries@).drop_last() =~= pv);
                proof {
                    assert forall|i: int| 0 <= i < pv.len() implies pv[i].0 != url@ by {
                        if pv[i].0 == url@ {
                            lemma_map_of_at(pv, i);
                        }
                    }
                }
                self.entries = entries;
            },
        }
    }
}

/// Text equality of two strings.
pub fn str_eq(a: &str, b: &str) -> (r: bool)
    ensures
        r == (a@ == b@),
{
    let x = chars_of(a);
    let y = chars_of(b);
    if x.len() != y.len() {
        assert(x@.len() != y@.len());
        return false;
    }
    let mut i: usize = 0;
    while i < x.len()
        invariant
            x@ == a@,
            y@ == b@,
            x@.len() == y@.len(),
            i <= x@.len(),
            forall|k: int| 0 <= k < i ==> x@[k] == y@[k],
        decreases x@.len() - i,
    {
        let c = x[i];
        let d = y[i];
        if c != d {
            return false;
        }
        i += 1;
    }
    assert(x@ =~= y@);
    true
}

/// Span `(a, b)` of attribute `name` in a tag: from the char before the
/// name (a space, tab or newline) to the end of its value (past the closing
/// quote, or where an unquoted value stops). `None` when the attribute is
/// absent or its quote is not closed.
pub open spec fn spec_attr_span(tag: Seq<char>, name: Seq<char>) -> Option<(int, int)> {
    let low = lower_seq(tag);
    match attr_name_at(low, name, 0, false) {
        None => None,
        Some(at) => {
            let eq = after_eq(low, name, at);
            let v = tag.skip(eq);
            let w = trim_start(v);
            let off = eq + (v.len() - w.len());
            if w.len() > 0 && (w[0] == '"' || w[0] == '\'') {
                match find_from(w.skip(1), 0, seq![w[0]], false) {
                    None => None,
                    Some(f) => Some((at - 1, off + 1 + f + 1)),
                }
            } else {
                Some((at - 1, off + unquoted_end(w, 0)))
            }
        },
    }
}

/// The span of attribute `name` within `tag` (see `spec_attr_span`).
pub fn attr_span_chars(tag: &[char], name: &[char]) -> (r: Option<(usize, usize)>)
    requires
        name@.len() > 0,
    ensures
        r matches Some((a, b)) ==> spec_attr_span(tag@, name@) == Some((a as int, b as int)) && a
            <= b <= tag@.len(),
        r is None ==> spec_attr_span(tag@, name@) is None,
{
    let n = tag.len();
    let low = lower_all(tag);
    let (at, eq) = match find_attr(low.as_slice(), name, false) {
        Some(x) => x,
        None => return None,
    };
    proof {
        lemma_attr_name_not_first(low@, name@, 0);
    }
    let k = skip_ws(tag, eq);
    assert(tag@.skip(k as int).len() == n - k);
    if k < n && (tag[k] == '"' || tag[k] == '\'') {
        let q = tag[k];
        assert(tag@.skip(k as int)[0] == q);
        let inner = slice_chars(tag, k + 1, n);
        assert(inner@ =~= tag@.skip(k as int).skip(1));
        let qs: Vec<char> = vec![q];
        assert(qs@ =~= seq![q]);
        match find(inner.as_slice(), 0, qs.as_slice(), false) {
            Some(f) => {
                proof {
                    lemma_find_from(inner@, 0, qs@, false);
                }
                Some((at - 1, k + 1 + f + 1))
            },
            None => None,
        }
    } else {
        let w = slice_chars(tag, k, n);
        assert(w@ =~= tag@.skip(k as int));
        let e = find_unquoted_end(w.as_slice(), 0);
        Some((at - 1, k + e))
    }
}

/// `tag` without the span of attribute `name` (unchanged without one).
pub open spec fn spec_strip_attr(tag: Seq<char>, name: Seq<char>) -> Seq<char> {
    match spec_attr_span(tag, name) {
        Some((a, b)) => tag.take(a) + tag.skip(b),
        None => tag,
    }
}

/// `tag` with attribute `name` rewritten as `name="value"`: the span after
/// the separator before the name is replaced, the separator stays;
/// unchanged without the attribute.
pub open spec fn spec_replace_attr(tag: Seq<char>, name: Seq<char>, value: Seq<char>) -> Seq<char> {
    match spec_attr_span(tag, name) {
        Some((a, b)) => tag.take(a + 1) + name + "=\""@ + value + "\""@ + tag.skip(b),
        None => tag,
    }
}

pub fn strip_attr_chars(tag: &[char], name: &[char]) -> (r: Vec<char>)
    requires
        name@.len() > 0,
    ensures
        r@ == spec_strip_attr(tag@, name@),
{
    match attr_span_chars(tag, name) {
        Some((a, b)) => {
            let mut v = slice_chars(tag, 0, a);
            push_all(&mut v, slice_chars(tag, b, tag.len()).as_slice());
            assert(v@ =~= tag@.take(a as int) + tag@.skip(b as int));
            v
        },
        None => {
            let v = slice_chars(tag, 0, tag.len());
            assert(v@ =~= tag@);
            v
        },
    }
}

pub fn replace_attr_chars(tag: &[char], name: &[char], value: &[char]) -> (r: Vec<char>)
    requires
        name@.len() > 0,
    ensures
        r@ == spec_replace_attr(tag@, name@, value@),
{
    proof {
        reveal_strlit("=\"");
        reveal_strlit("\"");
    }
    match attr_span_chars(tag, name) {
        Some((a, b)) => {
            proof {
                lemma_attr_span_bounds(tag@, name@);
            }
            let mut v = slice_chars(tag, 0, a + 1);
            push_all(&mut v, name);
            push_all(&mut v, chars_of("=\"").as_slice());
            push_all(&mut v, value);
            push_all(&mut v, chars_of("\"").as_slice());
            push_all(&mut v, slice_chars(tag, b, tag.len()).as_slice());
            assert(v@ =~= tag@.take(a + 1) + name@ + "=\""@ + value@ + "\""@ + tag@.skip(b as int));
            v
        },
        None => {
            let v = slice_chars(tag, 0, tag.len());
            assert(v@ =~= tag@);
            v
        },
    }
}

/// Span of attribute `name` in `tag`, from the separator before the name to
/// the end of the value.
pub fn attr_span(tag: &str, name: &str) -> (r: Option<(usize, usize)>)
    requires
        name@.len() > 0,
    ensures
        r matches Some((a, b)) ==> spec_attr_span(tag@, name@) == Some((a as int, b as int)),
        r is None ==> spec_attr_span(tag@, name@) is None,
{
    let t = chars_of(tag);
    let nm = chars_of(name);
    attr_span_chars(t.as_slice(), nm.as_slice())
}

/// `tag` without attribute `name`.
pub fn strip_attr(tag: &str, name: &str) -> (r: String)
    requires
        name@.len() > 0,
    ensures
        r@ == spec_strip_attr(tag@, name@),
{
    let t = chars_of(tag);
    let nm = chars_of(name);
    string_of(strip_attr_chars(t.as_slice(), nm.as_slice()).as_slice())
}

/// `tag` with attribute `name` set to `value`, when the tag has it.
pub fn replace_attr(tag: &str, name: &str, value: &str) -> (r: String)
    requires
        name@.len() > 0,
    ensures
        r@ == spec_replace_attr(tag@, name@, value@),
{
    let t = chars_of(tag);
    let nm = chars_of(name);
    let v = chars_of(value);
    string_of(replace_attr_chars(t.as_slice(), nm.as_slice(), v.as_slice()).as_slice())
}

/// One `<img>` tag made safe to show: `srcset` and `sizes` removed (the
/// browser would fetch from them), and `src` pointed at the cached `data:`
/// URI when the image is cached.
pub open spec fn spec_rewrite_tag(tag: Seq<char>, m: Map<Seq<char>, Seq<char>>) -> Seq<char> {
    let stripped = spec_strip_attr(spec_strip_attr(tag, "srcset"@), "sizes"@);
    match spec_img_attr(tag, "src"@) {
        Some(u) => if m.dom().contains(u) {
            spec_replace_attr(stripped, "src"@, m[u])
        } else {
            stripped
        },
        None => stripped,
    }
}

fn rewrite_tag_chars(tag: &[char], map: &DataUris) -> (r: Vec<char>)
    ensures
        r@ == spec_rewrite_tag(tag@, map@),
{
    proof {
        reveal_strlit("src");
        reveal_strlit("srcset");
        reveal_strlit("sizes");
    }
    let tag_s = string_of(tag);
    let src = attr_value(tag_s.as_str(), "src");
    let srcset = chars_of("srcset");
    let sizes = chars_of("sizes");
    let stripped = strip_attr_chars(tag, srcset.as_slice());
    let stripped = strip_attr_chars(stripped.as_slice(), sizes.as_slice());
    match src {
        Some(u) => match map.get(u.as_str()) {
            Some(data) => {
                let name = chars_of("src");
                let d = chars_of(data.as_str());
                replace_attr_chars(stripped.as_slice(), name.as_slice(), d.as_slice())
            },
            None => stripped,
        },
        None => stripped,
    }
}

/// One `<img>` tag made safe to show (see `spec_rewrite_tag`).
pub fn rewrite_tag(tag: &str, map: &DataUris) -> (r: String)
    ensures
        r@ == spec_rewrite_tag(tag@, map@),
{
    let t = chars_of(tag);
    string_of(rewrite_tag_chars(t.as_slice(), map).as_slice())
}

/// `html` from index `i` on with every `<img ...>` tag (any case, up to and
/// including the next `>`, or to the end) rewritten; the rest is copied.
pub open spec fn rewrite_from(html: Seq<char>, i: int, m: Map<Seq<char>, Seq<char>>) -> Seq<char>
    decreases html.len() - i,
{
    if i < 0 || i > html.len() {
        seq![]
    } else {
        match find_from(html, i, "<img"@, true) {
            None => html.skip(i),
            Some(p) => {
                let end = match find_from(html, p, ">"@, true) {
                    Some(e) => e + 1,
                    None => html.len() as int,
                };
                if end <= i || end > html.len() || p < i {
                    html.skip(i)
                } else {
                    html.subrange(i, p) + spec_rewrite_tag(html.subrange(p, end), m) + rewrite_from(
                        html,
                        end,
                        m,
                    )
                }
            },
        }
    }
}

/// The article HTML with each `<img>` rewritten (see `spec_rewrite_tag`):
/// cached images point at their `data:` URI, and no image keeps a `srcset`
/// or `sizes`, cached or not.
#[verifier::rlimit(40)]
pub fn rewrite(html: &str, map: &DataUris) -> (r: String)
    ensures
        r@ == rewrite_from(html@, 0, map@),
{
    let s = chars_of(html);
    let n = s.len();
    let img = chars_of("<img");
    let gt = chars_of(">");
    proof {
        reveal_strlit("<img");
        reveal_strlit(">");
    }
    let mut out: Vec<char> = Vec::new();
    let mut i: usize = 0;
    loop
        invariant
            i <= n,
            n == s@.len(),
            s@ == html@,
            img@ == "<img"@,
            img@.len() == 4,
            gt@ == ">"@,
            gt@.len() == 1,
            rewrite_from(html@, 0, map@) == out@ + rewrite_from(html@, i as int, map@),
        ensures
            i <= n,
            rewrite_from(html@, 0, map@) == out@ + html@.skip(i as int),
        decreases n - i,
    {
        let p = match find(s.as_slice(), i, img.as_slice(), true) {
            Some(p) => p,
            None => {
                assert(rewrite_from(html@, i as int, map@) == html@.skip(i as int));
                break;
            },
        };
        proof {
            lemma_find_from(s@, i as int, img@, true);
        }
        proof {
            lemma_find_from(s@, p as int, gt@, true);
        }
        let end = match find(s.as_slice(), p, gt.as_slice(), true) {
            Some(e) => e + 1,
            None => n,
        };
        let ghost before = out@;
        push_all(&mut out, slice_chars(s.as_slice(), i, p).as_slice());
        let tag = slice_chars(s.as_slice(), p, end);
        push_all(&mut out, rewrite_tag_chars(tag.as_slice(), map).as_slice());
        assert(out@ + rewrite_from(html@, end as int, map@) =~= before + (html@.subrange(i as int, p as int)
            + spec_rewrite_tag(html@.subrange(p as int, end as int), map@) + rewrite_from(html@, end as int, map@)));
        i = end;
    }
    let ghost before = out@;
    push_all(&mut out, slice_chars(s.as_slice(), i, n).as_slice());
    assert(s@.subrange(i as int, n as int) =~= s@.skip(i as int));
    assert(out@ =~= before + html@.skip(i as int));
    string_of(out.as_slice())
}

/// Largest image kept in the cache, in bytes.
pub const MAX_IMG_BYTES: usize = 5242880;

/// Most images cached per article.
pub const MAX_IMGS: usize = 40;

/// Folder of the image cache inside the app's data folder.
pub fn cache_dir(app_data: &str) -> (r: String)
    ensures
        r@ == spec_path_join(app_data@, "img-cache"@),
{
    path_join(app_data, "img-cache")
}

/// The SHA-256 digest of `data`.
pub uninterp spec fn spec_sha256(data: Seq<u8>) -> Seq<u8>;

/// SHA-256 with the `sha2` crate (`Digest::digest`); the digest is 32
/// bytes.
#[verifier::external_body]
pub(crate) fn sha256(data: &[u8]) -> (r: Vec<u8>)
    ensures
        r@ == spec_sha256(data@),
        r@.len() == 32,
{
    sha2::Sha256::digest(data).to_vec()
}

/// Lower-case hexadecimal digit of a value below 16.
pub open spec fn hex_digit(d: int) -> char {
    if d < 10 {
        (('0' as u32) + d) as char
    } else {
        (('a' as u32) + d - 10) as char
    }
}

/// Two lower-case hex digits per byte.
pub open spec fn hex_lower(bytes: Seq<u8>) -> Seq<char>
    decreases bytes.len(),
{
    if bytes.len() == 0 {
        seq![]
    } else {
        seq![hex_digit(bytes[0] as int / 16), hex_digit(bytes[0] as int % 16)] + hex_lower(bytes.skip(1))
    }
}

fn hex_char(d: u8) -> (r: char)
    requires
        d < 16,
    ensures
        r == hex_digit(d as int),
{
    if d < 10 {
        (d + 48) as char
    } else {
        (d + 87) as char
    }
}

pub fn hex_string(bytes: &[u8]) -> (r: Vec<char>)
    ensures
        r@ == hex_lower(bytes@),
{
    let mut out: Vec<char> = Vec::new();
    let mut i: usize = 0;
    assert(bytes@.skip(0) =~= bytes@);
    while i < bytes.len()
        invariant
            i <= bytes@.len(),
            hex_lower(bytes@) == out@ + hex_lower(bytes@.skip(i as int)),
        decreases bytes@.len() - i,
    {
        let b = bytes[i];
        assert(bytes@.skip(i as int).skip(1) =~= bytes@.skip(i + 1));
        out.push(hex_char(b / 16));
        out.push(hex_char(b % 16));
        i += 1;
    }
    assert(bytes@.skip(i as int) =~= Seq::<u8>::empty());
    out
}

/// Name of the cache file of an image: the SHA-256 of its address, in hex.
pub fn key(url: &str) -> (r: String)
    ensures
        r@ == hex_lower(spec_sha256(vstd::utf8::encode_utf8(url@))),
{
    let d = sha256(url.as_bytes());
    string_of(hex_string(d.as_slice()).as_slice())
}

/// Base64 alphabet (standard, RFC 4648).
pub open spec fn b64_char(i: int) -> char {
    if i < 26 {
        (('A' as u32) + i) as char
    } else if i < 52 {
        (('a' as u32) + i - 26) as char
    } else if i < 62 {
        (('0' as u32) + i - 52) as char
    } else if i == 62 {
        '+'
    } else {
        '/'
    }
}

/// Standard base64 with `=` padding: each 3 bytes become 4 chars; a last
/// group of 1 or 2 bytes becomes 2 or 3 chars and padding.
pub open spec fn base64_std(b: Seq<u8>) -> Seq<char>
    decreases b.len(),
{
    if b.len() == 0 {
        seq![]
    } else if b.len() == 1 {
        seq![b64_char(b[0] as int / 4), b64_char((b[0] as int % 4) * 16), '=', '=']
    } else if b.len() == 2 {
        seq![
            b64_char(b[0] as int / 4),
            b64_char((b[0] as int % 4) * 16 + b[1] as int / 16),
            b64_char((b[1] as int % 16) * 4),
            '=',
        ]
    } else {
        seq![
            b64_char(b[0] as int / 4),
            b64_char((b[0] as int % 4) * 16 + b[1] as int / 16),
            b64_char((b[1] as int % 16) * 4 + b[2] as int / 64),
            b64_char(b[2] as int % 64),
        ] + base64_std(b.skip(3))
    }
}

/// Standard base64 of `data` with the `base64` crate
/// (`general_purpose::STANDARD.encode`), which is RFC 4648 with padding.
#[verifier::external_body]
pub(crate) fn base64_encode(data: &[u8]) -> (r: String)
    ensures
        r@ == base64_std(data@),
{
    base64::engine::general_purpose::STANDARD.encode(data)
}

/// std's `str::from_utf8`, owned: `Some` exactly for valid UTF-8.
#[verifier::external_body]
pub(crate) fn utf8_str(bytes: &[u8]) -> (r: Option<String>)
    ensures
        r is Some <==> vstd::utf8::valid_utf8(bytes@),
        r matches Some(s) ==> s@ == vstd::utf8::decode_utf8(bytes@),
{
    std::str::from_utf8(bytes).ok().map(|s| s.to_string())
}

/// Index of the first newline byte of `raw`, if any.
pub open spec fn first_newline(raw: Seq<u8>, i: int) -> Option<int>
    decreases raw.len() - i,
{
    if i < 0 || i >= raw.len() {
        None
    } else if raw[i] == 10 {
        Some(i)
    } else {
        first_newline(raw, i + 1)
    }
}

/// The `data:` URI of a cache file: the file is the MIME type, a newline,
/// then the image bytes. `None` for a file without a newline or whose
/// first line is not UTF-8.
pub open spec fn spec_data_uri(raw: Seq<u8>) -> Option<Seq<char>> {
    match first_newline(raw, 0) {
        None => None,
        Some(nl) => if vstd::utf8::valid_utf8(raw.take(nl)) {
            Some("data:"@ + vstd::utf8::decode_utf8(raw.take(nl)) + ";base64,"@ + base64_std(raw.skip(nl + 1)))
        } else {
            None
        },
    }
}

pub fn data_uri(raw: &[u8]) -> (r: Option<String>)
    ensures
        r matches Some(u) ==> spec_data_uri(raw@) == Some(u@),
        r is None ==> spec_data_uri(raw@) is None,
{
    let n = raw.len();
    let mut i: usize = 0;
    while i < n && raw[i] != 10
        invariant
            i <= n,
            n == raw@.len(),
            first_newline(raw@, 0) == first_newline(raw@, i as int),
        decreases n - i,
    {
        i += 1;
    }
    if i == n {
        return None;
    }
    let mut head: Vec<u8> = Vec::new();
    let mut k: usize = 0;
    while k < i
        invariant
            k <= i < n,
            n == raw@.len(),
            head@ == raw@.take(k as int),
        decreases i - k,
    {
        head.push(raw[k]);
        assert(raw@.take(k + 1) =~= raw@.take(k as int).push(raw@[k as int]));
        k += 1;
    }
    let mut body: Vec<u8> = Vec::new();
    let mut k: usize = i + 1;
    while k < n
        invariant
            i + 1 <= k <= n,
            n == raw@.len(),
            body@ == raw@.subrange(i + 1, k as int),
        decreases n - k,
    {
        body.push(raw[k]);
        assert(raw@.subrange(i + 1, k + 1) =~= raw@.subrange(i + 1, k as int).push(raw@[k as int]));
        k += 1;
    }
    assert(body@ =~= raw@.skip(i + 1));
    let mime = match utf8_str(head.as_slice()) {
        Some(m) => m,
        None => return None,
    };
    let mut v = chars_of("data:");
    push_all(&mut v, chars_of(mime.as_str()).as_slice());
    push_all(&mut v, chars_of(";base64,").as_slice());
    push_all(&mut v, chars_of(base64_encode(body.as_slice()).as_str()).as_slice());
    assert(v@ =~= "data:"@ + mime@ + ";base64,"@ + base64_std(raw@.skip(i + 1)));
    Some(string_of(v.as_slice()))
}

/// Bytes of a cache file: the MIME type (UTF-8), a newline, the image.
pub open spec fn spec_cache_record(mime: Seq<char>, image: Seq<u8>) -> Seq<u8> {
    vstd::utf8::encode_utf8(mime) + seq![10u8] + image
}

pub fn cache_record(mime: &str, image: &[u8]) -> (r: Vec<u8>)
    ensures
        r@ == spec_cache_record(mime@, image@),
{
    let m = mime.as_bytes();
    let mut out: Vec<u8> = Vec::new();
    let mut k: usize = 0;
    while k < m.len()
        invariant
            k <= m@.len(),
            out@ == m@.take(k as int),
        decreases m@.len() - k,
    {
        out.push(m[k]);
        assert(m@.take(k + 1) =~= m@.take(k as int).push(m@[k as int]));
        k += 1;
    }
    assert(m@.take(m@.len() as int) =~= m@);
    out.push(10u8);
    let ghost head = out@;
    let mut k: usize = 0;
    while k < image.len()
        invariant
            k <= image@.len(),
            out@ == head + image@.take(k as int),
        decreases image@.len() - k,
    {
        out.push(image[k]);
        assert(image@.take(k + 1) =~= image@.take(k as int).push(image@[k as int]));
        k += 1;
    }
    assert(image@.take(image@.len() as int) =~= image@);
    out
}

/// A cache file written for an image reads back as the `data:` URI of that
/// image, for any plain (ASCII, single-line) MIME type.
pub proof fn lemma_cache_record_roundtrip(mime: Seq<char>, image: Seq<u8>)
    requires
        vstd::utf8::is_ascii_chars(mime),
        !mime.contains('\n'),
    ensures
        spec_data_uri(spec_cache_record(mime, image)) == Some("data:"@ + mime + ";base64,"@ + base64_std(image)),
{
    let e = vstd::utf8::encode_utf8(mime);
    let raw = spec_cache_record(mime, image);
    vstd::utf8::is_ascii_chars_encode_utf8(mime);
    assert forall|j: int| 0 <= j < e.len() implies raw[j] != 10 by {
        assert(raw[j] == e[j]);
        assert(e[j] == mime[j] as u8);
        if mime[j] as u8 == 10 {
            assert(mime.contains(mime[j]));
        }
    }
    assert(raw[e.len() as int] == 10);
    assert forall|j: int| 0 <= j <= e.len() implies first_newline(raw, j) == Some(e.len() as int) by {
        lemma_first_newline_from(raw, j, e.len() as int);
    }
    assert(raw.take(e.len() as int) =~= e);
    assert(raw.skip(e.len() as int + 1) =~= image);
    vstd::utf8::encode_utf8_valid_utf8(mime);
    vstd::utf8::encode_utf8_decode_utf8(mime);
}

proof fn lemma_first_newline_from(raw: Seq<u8>, j: int, p: int)
    requires
        0 <= j <= p < raw.len(),
        raw[p] == 10,
        forall|k: int| 0 <= k < p ==> raw[k] != 10,
    ensures
        first_newline(raw, j) == Some(p),
    decreases p - j,
{
    if j < p {
        lemma_first_newline_from(raw, j + 1, p);
    }
}

/// The addresses to fetch for one article: the first `MAX_IMGS`.
pub fn fetch_list(urls: &Vec<String>) -> (r: Vec<String>)
    ensures
        r@ == urls@.take(if urls@.len() < MAX_IMGS {
            urls@.len() as int
        } else {
            MAX_IMGS as int
        }),
{
    let mut out: Vec<String> = Vec::new();
    let mut i: usize = 0;
    while i < urls.len() && i < MAX_IMGS
        invariant
            i <= urls@.len(),
            i <= MAX_IMGS,
            out@ == urls@.take(i as int),
        decreases urls@.len() - i,
    {
        out.push(urls[i].clone());
        assert(out@ =~= urls@.take(i + 1));
        i += 1;
    }
    out
}

/// The MIME type of a `Content-Type` header value: what comes before the
/// first `;`, trimmed.
pub open spec fn spec_header_mime(content_type: Seq<char>) -> Seq<char> {
    match find_from(content_type, 0, seq![';'], false) {
        Some(k) => trim(content_type.take(k)),
        None => trim(content_type),
    }
}

pub fn header_mime(content_type: &str) -> (r: String)
    ensures
        r@ == spec_header_mime(content_type@),
{
    let s = chars_of(content_type);
    let semi: Vec<char> = vec![';'];
    assert(semi@ =~= seq![';']);
    match find(s.as_slice(), 0, semi.as_slice(), false) {
        Some(k) => {
            proof {
                lemma_find_from(s@, 0, semi@, false);
            }
            let head = slice_chars(s.as_slice(), 0, k);
            assert(head@ =~= s@.take(k as int));
            string_of(trim_chars(head.as_slice()).as_slice())
        },
        None => string_of(trim_chars(s.as_slice()).as_slice()),
    }
}

/// Whether a download is worth reading: a successful answer, not announced
/// as larger than `MAX_IMG_BYTES`, with an `image/` MIME type.
pub open spec fn spec_worth_reading(success: bool, announced: Option<u64>, mime: Seq<char>) -> bool {
    &&& success
    &&& match announced {
        Some(n) => n <= MAX_IMG_BYTES,
        None => true,
    }
    &&& has_prefix(mime, "image/"@)
}

pub fn worth_reading(success: bool, announced: Option<u64>, mime: &str) -> (r: bool)
    ensures
        r == spec_worth_reading(success, announced, mime@),
{
    if !success {
        return false;
    }
    match announced {
        Some(n) => {
            if n > MAX_IMG_BYTES as u64 {
                return false;
            }
        },
        None => {},
    }
    let m = chars_of(mime);
    starts_with(m.as_slice(), "image/")
}

/// Whether downloaded image bytes are kept: not empty and at most
/// `MAX_IMG_BYTES` (the announced size is only a hint).
pub fn keep_image(len: usize) -> (r: bool)
    ensures
        r == (0 < len <= MAX_IMG_BYTES),
{
    len > 0 && len <= MAX_IMG_BYTES
}

/// A name absent from the lower-cased text is absent from the lower-cased
/// text of any part of it.
proof fn lemma_absent_in_part(html: Seq<char>, a: int, b: int, name: Seq<char>)
    requires
        0 <= a <= b <= html.len(),
        !contains_seq(lower_seq(html), name, false),
    ensures
        find_from(lower_seq(html.subrange(a, b)), 0, name, false) is None,
{
    let low = lower_seq(html);
    let part = lower_seq(html.subrange(a, b));
    lemma_find_from(low, 0, name, false);
    lemma_find_from(part, 0, name, false);
    if find_from(part, 0, name, false) is Some {
        let k = find_from(part, 0, name, false)->0;
        assert(occurs_at(low, a + k, name, false)) by {
            assert forall|j: int| 0 <= j < name.len() implies same_char(#[trigger] low[a + k + j], name[j], false) by {
                assert(same_char(part[k + j], name[j], false));
                assert(part[k + j] == low[a + k + j]);
            }
        }
    }
}

/// With nothing cached, a tag without `srcset` and `sizes` is kept as is.
proof fn lemma_tag_kept(tag: Seq<char>)
    requires
        find_from(lower_seq(tag), 0, "srcset"@, false) is None,
        find_from(lower_seq(tag), 0, "sizes"@, false) is None,
    ensures
        spec_rewrite_tag(tag, Map::empty()) == tag,
{
    reveal_strlit("srcset");
    reveal_strlit("sizes");
}

/// An article whose images carry no `srcset` or `sizes` comes out of the
/// rewrite unchanged when none of its images is cached: an image missing
/// from the cache keeps its original address.
pub proof fn lemma_rewrite_uncached_unchanged(html: Seq<char>)
    requires
        !contains_seq(lower_seq(html), "srcset"@, false),
        !contains_seq(lower_seq(html), "sizes"@, false),
    ensures
        rewrite_from(html, 0, Map::empty()) == html,
{
    lemma_rewrite_uncached_from(html, 0);
    assert(html.skip(0) =~= html);
}

proof fn lemma_rewrite_uncached_from(html: Seq<char>, i: int)
    requires
        0 <= i <= html.len(),
        !contains_seq(lower_seq(html), "srcset"@, false),
        !contains_seq(lower_seq(html), "sizes"@, false),
    ensures
        rewrite_from(html, i, Map::empty()) == html.skip(i),
    decreases html.len() - i,
{
    reveal_strlit("<img");
    reveal_strlit(">");
    lemma_find_from(html, i, "<img"@, true);
    match find_from(html, i, "<img"@, true) {
        None => {},
        Some(p) => {
            lemma_find_from(html, p, ">"@, true);
            let end = match find_from(html, p, ">"@, true) {
                Some(e) => e + 1,
                None => html.len() as int,
            };
            if !(end <= i || end > html.len() || p < i) {
                lemma_absent_in_part(html, p, end, "srcset"@);
                lemma_absent_in_part(html, p, end, "sizes"@);
                lemma_tag_kept(html.subrange(p, end));
                lemma_rewrite_uncached_from(html, end);
                assert(html.subrange(i, p) + html.subrange(p, end) + html.skip(end) =~= html.skip(i));
            }
        },
    }
}

/// The end of an unquoted value lies between its start and the end.
proof fn lemma_unquoted_end_bounds(v: Seq<char>, i: int)
    requires
        0 <= i <= v.len(),
    ensures
        i <= unquoted_end(v, i) <= v.len(),
    decreases v.len() - i,
{
    if i < v.len() && !ends_unquoted(v[i]) {
        lemma_unquoted_end_bounds(v, i + 1);
    }
}

/// Where an attribute is found, its name occurs, followed by `=` after
/// optional whitespace.
proof fn lemma_attr_name_occurs(low: Seq<char>, name: Seq<char>, from: int, at_start_ok: bool)
    requires
        0 <= from,
    ensures
        attr_name_at(low, name, from, at_start_ok) matches Some(at) ==> {
            &&& from <= at
            &&& occurs_at(low, at, name, false)
            &&& trim_start(low.skip(at + name.len())).len() > 0
            &&& trim_start(low.skip(at + name.len()))[0] == '='
        },
    decreases low.len() - from,
{
    lemma_find_from(low, from, name, false);
    if name.len() > 0 {
        match find_from(low, from, name, false) {
            None => {},
            Some(at) => {
                if !(at + name.len() <= from || at + name.len() > low.len()) {
                    lemma_attr_name_occurs(low, name, at + name.len(), at_start_ok);
                }
            },
        }
    }
}

/// The span of an attribute starts just before its name and ends past its
/// `=`, within the tag.
proof fn lemma_attr_span_bounds(tag: Seq<char>, name: Seq<char>)
    ensures
        spec_attr_span(tag, name) matches Some((a, b)) ==> {
            &&& 0 <= a
            &&& occurs_at(lower_seq(tag), a + 1, name, false)
            &&& a + 1 + name.len() < b <= tag.len()
        },
{
    let low = lower_seq(tag);
    lemma_attr_name_occurs(low, name, 0, false);
    lemma_attr_name_not_first(low, name, 0);
    match attr_name_at(low, name, 0, false) {
        None => {},
        Some(at) => {
            let rest = low.skip(at + name.len());
            crate::text::lemma_trim_start_len(rest);
            let eq = after_eq(low, name, at);
            let v = tag.skip(eq);
            let w = trim_start(v);
            crate::text::lemma_trim_start_len(v);
            if w.len() > 0 && (w[0] == '"' || w[0] == '\'') {
                lemma_find_from(w.skip(1), 0, seq![w[0]], false);
            } else {
                lemma_unquoted_end_bounds(w, 0);
            }
        },
    }
}

/// A char that may follow an attribute in a tag.
pub open spec fn is_tag_sep(c: char) -> bool {
    c == ' ' || c == '\t' || c == '\n' || c == '/' || c == '>'
}

/// Stripping an attribute whose name occurs once in the tag (in any case),
/// and whose value is followed by a separator or by the end of the tag,
/// leaves a tag without that attribute.
pub proof fn lemma_strip_attr_gone(tag: Seq<char>, name: Seq<char>)
    requires
        name.len() > 0,
        forall|i: int| 0 <= i < name.len() ==> !is_tag_sep(#[trigger] name[i]),
        forall|j: int, k: int|
            occurs_at(lower_seq(tag), j, name, false) && occurs_at(lower_seq(tag), k, name, false)
                ==> j == k,
        spec_attr_span(tag, name) matches Some((a, b)) ==> b == tag.len() || is_tag_sep(tag[b]),
    ensures
        spec_attr_span(spec_strip_attr(tag, name), name) is None,
{
    lemma_attr_span_bounds(tag, name);
    match spec_attr_span(tag, name) {
        None => {},
        Some((a, b)) => {
            let at = a + 1;
            let low = lower_seq(tag);
            let st = tag.take(a) + tag.skip(b);
            let ls = lower_seq(st);
            assert forall|k: int| 0 <= k < ls.len() implies !occurs_at(ls, k, name, false) by {
                if occurs_at(ls, k, name, false) {
                    if k + name.len() <= a {
                        assert forall|i: int| 0 <= i < name.len() implies same_char(#[trigger] low[k + i], name[i], false) by {
                            assert(same_char(ls[k + i], name[i], false));
                        }
                        assert(occurs_at(low, k, name, false));
                    } else if k >= a {
                        let m = k - a + b;
                        assert forall|i: int| 0 <= i < name.len() implies same_char(#[trigger] low[m + i], name[i], false) by {
                            assert(same_char(ls[k + i], name[i], false));
                        }
                        assert(occurs_at(low, m, name, false));
                    } else {
                        let i0 = a - k;
                        assert(same_char(ls[k + i0], name[i0], false));
                        assert(is_tag_sep(tag[b]));
                    }
                }
            }
            crate::text::lemma_find_none(ls, name, false);
        },
    }
}

/// Scanning `x + y` past `x` rewrites `y`.
proof fn lemma_rewrite_shift(x: Seq<char>, y: Seq<char>, j: int, m: Map<Seq<char>, Seq<char>>)
    requires
        0 <= j,
    ensures
        rewrite_from(x + y, x.len() + j, m) == rewrite_from(y, j, m),
    decreases y.len() - j,
{
    let h = x + y;
    let d = x.len() as int;
    if j <= y.len() {
        crate::text::lemma_find_shift(x, y, j, "<img"@, true);
        lemma_find_from(y, j, "<img"@, true);
        assert(h.skip(d + j) =~= y.skip(j));
        match find_from(y, j, "<img"@, true) {
            None => {},
            Some(p) => {
                crate::text::lemma_find_shift(x, y, p, ">"@, true);
                lemma_find_from(y, p, ">"@, true);
                let end = match find_from(y, p, ">"@, true) {
                    Some(e) => e + 1,
                    None => y.len() as int,
                };
                if !(end <= j || end > y.len() || p < j) {
                    assert(h.subrange(d + j, d + p) =~= y.subrange(j, p));
                    assert(h.subrange(d + p, d + end) =~= y.subrange(p, end));
                    lemma_rewrite_shift(x, y, end, m);
                }
            },
        }
    }
}

/// Positions where no `<img` starts can be copied before the scan goes on.
proof fn lemma_rewrite_skip(h: Seq<char>, i: int, j: int, m: Map<Seq<char>, Seq<char>>)
    requires
        0 <= i <= j <= h.len(),
        find_from(h, i, "<img"@, true) == find_from(h, j, "<img"@, true),
    ensures
        rewrite_from(h, i, m) == h.subrange(i, j) + rewrite_from(h, j, m),
{
    lemma_find_from(h, j, "<img"@, true);
    match find_from(h, j, "<img"@, true) {
        None => {
            assert(h.skip(i) =~= h.subrange(i, j) + h.skip(j));
        },
        Some(p) => {
            lemma_find_from(h, p, ">"@, true);
            assert(h.subrange(i, p) =~= h.subrange(i, j) + h.subrange(j, p));
        },
    }
}

/// One step of the rewrite: the text before the next `<img`, that tag
/// rewritten, then the rest.
proof fn lemma_rewrite_step(h: Seq<char>, i: int, p: int, e: int, m: Map<Seq<char>, Seq<char>>)
    requires
        0 <= i <= p <= e < h.len(),
        find_from(h, i, "<img"@, true) == Some(p),
        find_from(h, p, ">"@, true) == Some(e),
    ensures
        rewrite_from(h, i, m) == h.subrange(i, p) + spec_rewrite_tag(h.subrange(p, e + 1), m)
            + rewrite_from(h, e + 1, m),
{
}

/// Without `<img` in `a` from `i` on, the rewrite of `a + b` from `i` copies
/// the rest of `a` and goes on with `b`.
proof fn lemma_rewrite_split_plain(a: Seq<char>, b: Seq<char>, i: int, m: Map<Seq<char>, Seq<char>>)
    requires
        0 <= i < a.len(),
        a.last() == '>',
        find_from(a, i, "<img"@, true) is None,
    ensures
        rewrite_from(a + b, i, m) == rewrite_from(a, i, m) + rewrite_from(b, 0, m),
{
    reveal_strlit("<img");
    let h = a + b;
    let n = a.len() as int;
    let img = "<img"@;
    lemma_rewrite_shift(a, b, 0, m);
    lemma_find_from(a, i, img, true);
    assert forall|k: int| i <= k < n implies !occurs_at(h, k, img, true) by {
        if k + 4 <= n {
            crate::text::lemma_occurs_prefix(a, b, k, img, true);
        } else if occurs_at(h, k, img, true) {
            let q = n - 1 - k;
            assert(same_char(h[k + q], img[q], true));
            assert(h[k + q] == '>');
        }
    }
    crate::text::lemma_find_skip(h, i, n, img, true);
    lemma_rewrite_skip(h, i, n, m);
    assert(h.subrange(i, n) =~= a.skip(i));
}

proof fn lemma_rewrite_split(a: Seq<char>, b: Seq<char>, i: int, m: Map<Seq<char>, Seq<char>>)
    requires
        0 <= i <= a.len(),
        a.len() > 0 ==> a.last() == '>',
    ensures
        rewrite_from(a + b, i, m) == rewrite_from(a, i, m) + rewrite_from(b, 0, m),
    decreases a.len() - i,
{
    reveal_strlit("<img");
    reveal_strlit(">");
    let h = a + b;
    let n = a.len() as int;
    let img = "<img"@;
    if i == n {
        lemma_rewrite_shift(a, b, 0, m);
        assert(a.skip(n) =~= Seq::<char>::empty());
        assert(rewrite_from(a, n, m) =~= Seq::<char>::empty());
    } else if find_from(a, i, img, true) is None {
        lemma_rewrite_split_plain(a, b, i, m);
    } else {
        lemma_find_from(a, i, img, true);
        let p = find_from(a, i, img, true)->0;
        crate::text::lemma_find_in_prefix_from(a, b, i, img, true);
        let z: int = 0;
        assert(occurs_at(a, n - 1, ">"@, true)) by {
            assert(same_char(a[(n - 1) + z], ">"@[z], true));
        }
        lemma_find_from(a, p, ">"@, true);
        crate::text::lemma_find_in_prefix_from(a, b, p, ">"@, true);
        let e = find_from(a, p, ">"@, true)->0;
        lemma_rewrite_step(a, i, p, e, m);
        lemma_rewrite_step(h, i, p, e, m);
        assert(h.subrange(i, p) =~= a.subrange(i, p));
        assert(h.subrange(p, e + 1) =~= a.subrange(p, e + 1));
        lemma_rewrite_split(a, b, e + 1, m);
    }
}

/// Rewriting is done image by image along the whole document: a document
/// cut right after a `>` (or at its start) is rewritten as its two parts
/// are, one after the other; so every `<img>` is rewritten wherever it
/// stands, not only the first.
pub proof fn lemma_rewrite_concat(a: Seq<char>, b: Seq<char>, m: Map<Seq<char>, Seq<char>>)
    requires
        a.len() > 0 ==> a.last() == '>',
    ensures
        rewrite_from(a + b, 0, m) == rewrite_from(a, 0, m) + rewrite_from(b, 0, m),
{
    lemma_rewrite_split(a, b, 0, m);
}

/// A document that is one `<img ...>` tag is rewritten as that tag is; with
/// `lemma_rewrite_concat`, each tag of a document of tags is rewritten.
pub proof fn lemma_rewrite_one_tag(x: Seq<char>, m: Map<Seq<char>, Seq<char>>)
    requires
        !x.contains('>'),
    ensures
        rewrite_from("<img"@ + x + ">"@, 0, m) == spec_rewrite_tag("<img"@ + x + ">"@, m),
{
    reveal_strlit("<img");
    reveal_strlit(">");
    let t = "<img"@ + x + ">"@;
    let n = t.len() as int;
    let z: int = 0;
    assert(occurs_at(t, 0, "<img"@, true)) by {
        assert forall|k: int| 0 <= k < 4 implies same_char(#[trigger] t[0 + k], "<img"@[k], true) by {}
    }
    crate::text::lemma_find_at(t, 0, 0, "<img"@, true);
    assert(occurs_at(t, n - 1, ">"@, true)) by {
        assert(same_char(t[(n - 1) + z], ">"@[z], true));
    }
    assert forall|k: int| 0 <= k < n - 1 implies !occurs_at(t, k, ">"@, true) by {
        if occurs_at(t, k, ">"@, true) {
            assert(same_char(t[k + z], ">"@[z], true));
            if k >= 4 {
                assert(x[k - 4] == '>');
            }
        }
    }
    crate::text::lemma_find_at(t, 0, n - 1, ">"@, true);
    lemma_rewrite_step(t, 0, 0, n - 1, m);
    assert(t.subrange(0, 0) =~= Seq::<char>::empty());
    assert(t.subrange(0, n) =~= t);
    assert(t.skip(n) =~= Seq::<char>::empty());
    assert(rewrite_from(t, n, m) =~= Seq::<char>::empty());
}

} // verus!
