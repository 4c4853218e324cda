//! Turning a web page into wrapped plain text for a terminal.
use vstd::prelude::*;
use vstd::string::StrSliceExecFns;
use crate::text::to_chars;

verus! {

/// Whether `c` has the Unicode `White_Space` property.
pub open spec fn is_ws(c: char) -> bool {
    let v = c as u32;
    (9 <= v <= 13) || v == 32 || v == 0x85 || v == 0xA0 || v == 0x1680 || (0x2000 <= v <= 0x200A)
        || v == 0x2028 || v == 0x2029 || v == 0x202F || v == 0x205F || v == 0x3000
}

fn is_ws_char(c: char) -> (r: bool)
    ensures
        r == is_ws(c),
{
    let v = c as u32;
    (9 <= v && v <= 13) || v == 32 || v == 0x85 || v == 0xA0 || v == 0x1680 || (0x2000 <= v && v
        <= 0x200A) || v == 0x2028 || v == 0x2029 || v == 0x202F || v == 0x205F || v == 0x3000
}

/// Bytes that `c` takes in UTF-8.
pub open spec fn char_width(c: char) -> nat {
    let v = c as u32;
    if v < 0x80 {
        1
    } else if v < 0x800 {
        2
    } else if v < 0x10000 {
        3
    } else {
        4
    }
}

/// Bytes that `s` takes in UTF-8.
pub open spec fn utf8_len(s: Seq<char>) -> nat
    decreases s.len(),
{
    if s.len() == 0 {
        0
    } else {
        utf8_len(s.drop_last()) + char_width(s.last())
    }
}

proof fn lemma_utf8_len_concat(a: Seq<char>, b: Seq<char>)
    ensures
        utf8_len(a + b) == utf8_len(a) + utf8_len(b),
    decreases b.len(),
{
    if b.len() == 0 {
        assert(a + b =~= a);
    } else {
        assert((a + b).drop_last() =~= a + b.drop_last());
        lemma_utf8_len_concat(a, b.drop_last());
    }
}

proof fn lemma_utf8_len_bound(s: Seq<char>)
    ensures
        utf8_len(s) <= 4 * s.len(),
    decreases s.len(),
{
    if s.len() > 0 {
        lemma_utf8_len_bound(s.drop_last());
    }
}

/// The words read so far from the first `n` characters, and where the word
/// being read started.
pub open spec fn words_state(s: Seq<char>, n: int) -> (Seq<Seq<char>>, int)
    decreases n,
{
    if n <= 0 {
        (seq![], 0)
    } else {
        let (acc, st) = words_state(s, n - 1);
        if is_ws(s[n - 1]) {
            if st < n - 1 {
                (acc.push(s.subrange(st, n - 1)), n)
            } else {
                (acc, n)
            }
        } else {
            (acc, st)
        }
    }
}

/// The maximal runs of non-whitespace characters.
pub open spec fn words_of(s: Seq<char>) -> Seq<Seq<char>> {
    let (acc, st) = words_state(s, s.len() as int);
    if st < s.len() {
        acc.push(s.subrange(st, s.len() as int))
    } else {
        acc
    }
}

/// Words joined with single spaces.
pub open spec fn join_words(g: Seq<Seq<char>>) -> Seq<char>
    decreases g.len(),
{
    if g.len() == 0 {
        seq![]
    } else if g.len() == 1 {
        g[0]
    } else {
        join_words(g.drop_last()) + seq![' '] + g.last()
    }
}

/// Greedy filling of lines of at most `max` bytes, after the first `n`
/// words: the finished text and the line being filled.
pub open spec fn wrap_state(g: Seq<Seq<char>>, n: int, max: nat) -> (Seq<char>, Seq<char>)
    decreases n,
{
    if n <= 0 {
        (seq![], seq![])
    } else {
        let (out, cur) = wrap_state(g, n - 1, max);
        let w = g[n - 1];
        if utf8_len(cur) + utf8_len(w) + 1 > max {
            if cur.len() > 0 {
                (out + cur + seq!['\n'], w)
            } else {
                (out + w + seq!['\n'], seq![])
            }
        } else if cur.len() == 0 {
            (out, w)
        } else {
            (out, cur + seq![' '] + w)
        }
    }
}

/// The words filled greedily into lines of at most `max` bytes, each line
/// ended by a newline; a word longer than a line stands alone.
pub open spec fn wrap(g: Seq<Seq<char>>, max: nat) -> Seq<char> {
    let (out, cur) = wrap_state(g, g.len() as int, max);
    if cur.len() > 0 {
        out + cur + seq!['\n']
    } else {
        out
    }
}

/// One paragraph: on one line if it fits in `max` bytes, else wrapped.
pub open spec fn render_paragraph(g: Seq<Seq<char>>, max: nat) -> Seq<char> {
    if utf8_len(join_words(g)) > max {
        wrap(g, max)
    } else {
        join_words(g) + seq!['\n']
    }
}

/// Whether a word ends a sentence.
pub open spec fn ends_sentence(w: Seq<char>) -> bool {
    w.len() > 0 && (w.last() == '.' || w.last() == '?' || w.last() == '!')
}

/// After the first `n` words: the text of the finished paragraphs, each
/// followed by an empty line, and where the open paragraph starts.
pub open spec fn para_state(ws: Seq<Seq<char>>, n: int, max: nat) -> (Seq<char>, int)
    decreases n,
{
    if n <= 0 {
        (seq![], 0)
    } else {
        let (done, start) = para_state(ws, n - 1, max);
        if ends_sentence(ws[n - 1]) {
            (done + render_paragraph(ws.subrange(start, n), max) + seq!['\n'], n)
        } else {
            (done, start)
        }
    }
}

/// `s` without whitespace at its start.
pub open spec fn trim_start(s: Seq<char>) -> Seq<char>
    decreases s.len(),
{
    if s.len() > 0 && is_ws(s[0]) {
        trim_start(s.drop_first())
    } else {
        s
    }
}

/// `s` without whitespace at its end.
pub open spec fn trim_end(s: Seq<char>) -> Seq<char>
    decreases s.len(),
{
    if s.len() > 0 && is_ws(s.last()) {
        trim_end(s.drop_last())
    } else {
        s
    }
}

/// `s` without whitespace at either end.
pub open spec fn trim(s: Seq<char>) -> Seq<char> {
    trim_end(trim_start(s))
}

/// The text with its whitespace collapsed, a paragraph break after each
/// sentence, and every paragraph longer than `max` bytes wrapped.
pub open spec fn cleanup(s: Seq<char>, max: nat) -> Seq<char> {
    let ws = words_of(s);
    let (done, start) = para_state(ws, ws.len() as int, max);
    trim(
        if start < ws.len() {
            done + render_paragraph(ws.subrange(start, ws.len() as int), max) + seq!['\n']
        } else {
            done
        },
    )
}

/// The text nodes, in document order, of the first element of `html` that
/// `selector` matches; none where nothing matches.
pub uninterp spec fn selected_texts(html: Seq<char>, selector: Seq<char>) -> Option<Seq<Seq<char>>>;

/// The text nodes of the whole document `html`, in document order.
pub uninterp spec fn document_texts(html: Seq<char>) -> Seq<Seq<char>>;

/// For each element of `html` that `selector` matches, in document order,
/// its text and the value of its attribute `attr`.
pub uninterp spec fn selected_attrs(html: Seq<char>, selector: Seq<char>, attr: Seq<char>) -> Seq<
    (Seq<char>, Option<Seq<char>>),
>;

/// Relies on scraper: `Html::parse_document`, `Selector::parse`, the first
/// match of `Html::select`, and `ElementRef::text`. The result depends on the
/// two strings alone.
#[verifier::external_body]
fn first_match_texts(html: &str, selector: &str) -> (r: Option<Vec<String>>)
    ensures
        match r {
            Some(v) => selected_texts(html@, selector@) == Some(v@.map_values(|t: String| t@)),
            None => selected_texts(html@, selector@) is None,
        },
{
    let document = scraper::Html::parse_document(html);
    let selector = scraper::Selector::parse(selector).ok()?;
    let element = document.select(&selector).next()?;
    Some(element.text().map(String::from).collect())
}

/// Relies on scraper: `Html::parse_document`, `Html::root_element` and
/// `ElementRef::text`. The result depends on the page alone.
#[verifier::external_body]
fn all_texts(html: &str) -> (r: Vec<String>)
    ensures
        r@.map_values(|t: String| t@) == document_texts(html@),
{
    scraper::Html::parse_document(html).root_element().text().map(String::from).collect()
}

/// Relies on scraper: `Html::parse_document`, `Selector::parse`,
/// `Html::select`, `ElementRef::text` and `ElementRef::attr`. The result
/// depends on the three strings alone.
#[verifier::external_body]
fn matches_with_attr(html: &str, selector: &str, attr: &str) -> (r: Vec<(String, Option<String>)>)
    ensures
        r@.map_values(|p: (String, Option<String>)| (p.0@, opt_view(p.1))) == selected_attrs(
            html@,
            selector@,
            attr@,
        ),
{
    let document = scraper::Html::parse_document(html);
    match scraper::Selector::parse(selector) {
        Ok(selector) => document
            .select(&selector)
            .map(|e| (e.text().collect::<String>(), e.attr(attr).map(String::from)))
            .collect(),
        Err(_) => Vec::new(),
    }
}

pub open spec fn opt_view(o: Option<String>) -> Option<Seq<char>> {
    match o {
        Some(s) => Some(s@),
        None => None,
    }
}

/// All the strings one after another.
pub open spec fn concat(ts: Seq<Seq<char>>) -> Seq<char>
    decreases ts.len(),
{
    if ts.len() == 0 {
        seq![]
    } else {
        concat(ts.drop_last()) + ts.last()
    }
}

/// The text of an element: each text node trimmed, the empty ones left
/// out, each followed by a space.
pub open spec fn extract(ts: Seq<Seq<char>>) -> Seq<char>
    decreases ts.len(),
{
    if ts.len() == 0 {
        seq![]
    } else if trim(ts.last()).len() > 0 {
        extract(ts.drop_last()) + trim(ts.last()) + seq![' ']
    } else {
        extract(ts.drop_last())
    }
}

/// The places where the main content of a page is looked for, in order.
pub open spec fn content_selectors() -> Seq<Seq<char>> {
    seq!["body"@, "main"@, "article"@, ".content"@, "#content"@, ".main"@, "#main"@]
}

/// The text of the first of `sels` that matches `html` with some text.
pub open spec fn content_from(html: Seq<char>, sels: Seq<Seq<char>>) -> Option<Seq<char>>
    decreases sels.len(),
{
    if sels.len() == 0 {
        None
    } else {
        match selected_texts(html, sels[0]) {
            Some(ts) => if trim(extract(ts)).len() > 0 {
                Some(extract(ts))
            } else {
                content_from(html, sels.drop_first())
            },
            None => content_from(html, sels.drop_first()),
        }
    }
}

/// The heading made of the page title, if it has a non-blank one.
pub open spec fn title_part(html: Seq<char>) -> Seq<char> {
    match selected_texts(html, "title"@) {
        Some(ts) => if trim(concat(ts)).len() > 0 {
            "=== "@ + trim(concat(ts)) + " ===\n\n"@
        } else {
            seq![]
        },
        None => seq![],
    }
}

/// The text of a page before cleanup: its title heading, then the text of
/// its main content, or of the whole document where none is found.
pub open spec fn page_text(html: Seq<char>) -> Seq<char> {
    title_part(html) + match content_from(html, content_selectors()) {
        Some(t) => t,
        None => extract(document_texts(html)),
    }
}

/// The links worth showing: trimmed text and target, where neither is empty.
pub open spec fn shown_links(ls: Seq<(Seq<char>, Option<Seq<char>>)>) -> Seq<(Seq<char>, Seq<char>)>
    decreases ls.len(),
{
    if ls.len() == 0 {
        seq![]
    } else {
        let rest = shown_links(ls.drop_last());
        let (text, href) = ls.last();
        match href {
            Some(h) => if trim(text).len() > 0 && h.len() > 0 {
                rest.push((trim(text), h))
            } else {
                rest
            },
            None => rest,
        }
    }
}

/// Relies on std's `FromIterator<&char>` for `String`: it holds the chars in
/// order.
#[verifier::external_body]
fn string_of(chars: &Vec<char>) -> (r: String)
    ensures
        r@ == chars@,
{
    chars.iter().collect()
}

fn push_all(out: &mut Vec<char>, src: &Vec<char>)
    ensures
        final(out)@ == old(out)@ + src@,
{
    let ghost start = out@;
    let mut i: usize = 0;
    while i < src.len()
        invariant
            i <= src@.len(),
            out@ == start + src@.subrange(0, i as int),
        decreases src@.len() - i,
    {
        out.push(src[i]);
        i = i + 1;
        assert(out@ =~= start + src@.subrange(0, i as int));
    }
    assert(src@.subrange(0, i as int) =~= src@);
}

fn copy_chars(src: &Vec<char>) -> (r: Vec<char>)
    ensures
        r@ == src@,
{
    let mut r: Vec<char> = Vec::new();
    push_all(&mut r, src);
    assert(r@ =~= src@);
    r
}

fn width_of(v: &Vec<char>) -> (r: u128)
    ensures
        r == utf8_len(v@),
{
    let mut total: u128 = 0;
    let mut i: usize = 0;
    while i < v.len()
        invariant
            i <= v@.len(),
            total == utf8_len(v@.subrange(0, i as int)),
        decreases v@.len() - i,
    {
        proof {
            let t = v@.subrange(0, i as int + 1);
            assert(t.drop_last() =~= v@.subrange(0, i as int));
            lemma_utf8_len_bound(v@.subrange(0, i as int));
        }
        let c = v[i] as u32;
        let w: u128 = if c < 0x80 {
            1
        } else if c < 0x800 {
            2
        } else if c < 0x10000 {
            3
        } else {
            4
        };
        total = total + w;
        i = i + 1;
    }
    assert(v@.subrange(0, i as int) =~= v@);
    total
}

/// Splits text into its words.
pub fn split_words(s: &Vec<char>) -> (r: Vec<Vec<char>>)
    ensures
        r@.map_values(|w: Vec<char>| w@) == words_of(s@),
{
    let len = s.len();
    let mut acc: Vec<Vec<char>> = Vec::new();
    let mut word: Vec<char> = Vec::new();
    let mut start: usize = 0;
    let mut i: usize = 0;
    while i < len
        invariant
            len == s@.len(),
            i <= len,
            start <= i,
            acc@.map_values(|w: Vec<char>| w@) == words_state(s@, i as int).0,
            start == words_state(s@, i as int).1,
            word@ == s@.subrange(start as int, i as int),
        decreases len - i,
    {
        let c = s[i];
        if is_ws_char(c) {
            if start < i {
                let ghost prev = acc@;
                acc.push(word);
                assert(acc@.map_values(|w: Vec<char>| w@) =~= prev.map_values(|w: Vec<char>| w@).push(
                    s@.subrange(start as int, i as int),
                ));
            }
            word = Vec::new();
            start = i + 1;
            assert(word@ =~= s@.subrange(start as int, i + 1));
        } else {
            word.push(c);
            assert(word@ =~= s@.subrange(start as int, i + 1));
        }
        i = i + 1;
    }
    if start < len {
        let ghost prev = acc@;
        acc.push(word);
        assert(acc@.map_values(|w: Vec<char>| w@) =~= prev.map_values(|w: Vec<char>| w@).push(
            s@.subrange(start as int, len as int),
        ));
    }
    acc
}

fn join_range(ws: &Vec<Vec<char>>, a: usize, b: usize) -> (r: Vec<char>)
    requires
        a <= b <= ws@.len(),
    ensures
        r@ == join_words(ws@.map_values(|w: Vec<char>| w@).subrange(a as int, b as int)),
{
    let ghost g = ws@.map_values(|w: Vec<char>| w@);
    let mut out: Vec<char> = Vec::new();
    let mut i: usize = a;
    assert(g.subrange(a as int, a as int) =~= seq![]);
    while i < b
        invariant
            a <= i <= b <= ws@.len(),
            g == ws@.map_values(|w: Vec<char>| w@),
            out@ == join_words(g.subrange(a as int, i as int)),
        decreases b - i,
    {
        let ghost t = g.subrange(a as int, i + 1);
        assert(t.drop_last() =~= g.subrange(a as int, i as int));
        assert(t.last() == ws@[i as int]@);
        if i > a {
            out.push(' ');
        }
        let ghost before = out@;
        push_all(&mut out, &ws[i]);
        proof {
            if i == a {
                assert(t.len() == 1);
                assert(out@ =~= t[0]);
            } else {
                assert(out@ =~= join_words(t.drop_last()) + seq![' '] + t.last());
            }
        }
        i = i + 1;
    }
    out
}

fn wrap_range(ws: &Vec<Vec<char>>, a: usize, b: usize, max: usize) -> (r: Vec<char>)
    requires
        a <= b <= ws@.len(),
    ensures
        r@ == wrap(ws@.map_values(|w: Vec<char>| w@).subrange(a as int, b as int), max as nat),
{
    let ghost g = ws@.map_values(|w: Vec<char>| w@).subrange(a as int, b as int);
    let mut out: Vec<char> = Vec::new();
    let mut cur: Vec<char> = Vec::new();
    let mut cur_len: u128 = 0;
    let mut i: usize = a;
    while i < b
        invariant
            a <= i <= b <= ws@.len(),
            g == ws@.map_values(|w: Vec<char>| w@).subrange(a as int, b as int),
            (out@, cur@) == wrap_state(g, i - a, max as nat),
            cur_len == utf8_len(cur@),
        decreases b - i,
    {
        let w = &ws[i];
        assert(g[i - a] == w@);
        let w_len = width_of(w);
        let wl = w.len();
        let cl = cur.len();
        proof {
            lemma_utf8_len_bound(cur@);
            lemma_utf8_len_bound(w@);
        }
        if cur_len + w_len + 1 > max as u128 {
            if cur.len() > 0 {
                push_all(&mut out, &cur);
                out.push('\n');
                cur = copy_chars(w);
                cur_len = w_len;
            } else {
                push_all(&mut out, w);
                out.push('\n');
            }
        } else if cur.len() == 0 {
            cur = copy_chars(w);
            cur_len = w_len;
        } else {
            let ghost c0 = cur@;
            cur.push(' ');
            push_all(&mut cur, w);
            proof {
                assert(cur@ =~= c0 + seq![' '] + w@);
                lemma_utf8_len_concat(c0 + seq![' '], w@);
                lemma_utf8_len_concat(c0, seq![' ']);
                assert(utf8_len(seq![' ']) == 1) by {
                    let sp = seq![' '];
                    assert(sp.drop_last() =~= Seq::<char>::empty());
                    assert(sp.last() == ' ');
                    assert((' ' as u32) == 32);
                    assert(char_width(' ') == 1);
                    assert(utf8_len(sp) == utf8_len(sp.drop_last()) + char_width(sp.last()));
                }
            }
            cur_len = cur_len + 1 + w_len;
        }
        i = i + 1;
    }
    assert(g.len() == b - a);
    if cur.len() > 0 {
        push_all(&mut out, &cur);
        out.push('\n');
    }
    out
}

fn render_range(ws: &Vec<Vec<char>>, a: usize, b: usize, max: usize) -> (r: Vec<char>)
    requires
        a <= b <= ws@.len(),
    ensures
        r@ == render_paragraph(ws@.map_values(|w: Vec<char>| w@).subrange(a as int, b as int), max as nat),
{
    let line = join_range(ws, a, b);
    if width_of(&line) > max as u128 {
        wrap_range(ws, a, b, max)
    } else {
        let mut r = line;
        r.push('\n');
        r
    }
}

fn trimmed(s: &Vec<char>) -> (r: Vec<char>)
    ensures
        r@ == trim(s@),
{
    let n = s.len();
    let mut a: usize = 0;
    assert(s@.subrange(0, n as int) =~= s@);
    while a < n && is_ws_char(s[a])
        invariant
            a <= n == s@.len(),
            trim_start(s@) == trim_start(s@.subrange(a as int, n as int)),
        decreases n - a,
    {
        assert(s@.subrange(a as int, n as int).drop_first() =~= s@.subrange(a + 1, n as int));
        a = a + 1;
    }
    let mut b: usize = n;
    let ghost t = s@.subrange(a as int, n as int);
    assert(t.subrange(0, t.len() as int) =~= t);
    while b > a && is_ws_char(s[b - 1])
        invariant
            a <= b <= n == s@.len(),
            t == s@.subrange(a as int, n as int),
            trim_end(t) == trim_end(s@.subrange(a as int, b as int)),
        decreases b - a,
    {
        assert(s@.subrange(a as int, b as int).drop_last() =~= s@.subrange(a as int, b - 1));
        b = b - 1;
    }
    let mut r: Vec<char> = Vec::new();
    let mut i: usize = a;
    while i < b
        invariant
            a <= i <= b <= n == s@.len(),
            r@ == s@.subrange(a as int, i as int),
        decreases b - i,
    {
        r.push(s[i]);
        i = i + 1;
        assert(r@ =~= s@.subrange(a as int, i as int));
    }
    r
}

fn push_str(out: &mut Vec<char>, s: &str)
    ensures
        final(out)@ == old(out)@ + s@,
{
    let cs = to_chars(s);
    push_all(out, &cs);
}

fn concat_all(ts: &Vec<String>) -> (r: Vec<char>)
    ensures
        r@ == concat(ts@.map_values(|t: String| t@)),
{
    let ghost v = ts@.map_values(|t: String| t@);
    let mut out: Vec<char> = Vec::new();
    let mut i: usize = 0;
    while i < ts.len()
        invariant
            i <= ts@.len(),
            v == ts@.map_values(|t: String| t@),
            out@ == concat(v.subrange(0, i as int)),
        decreases ts@.len() - i,
    {
        let ghost t = v.subrange(0, i as int + 1);
        assert(t.drop_last() =~= v.subrange(0, i as int));
        push_str(&mut out, ts[i].as_str());
        i = i + 1;
    }
    assert(v.subrange(0, i as int) =~= v);
    out
}

fn extract_all(ts: &Vec<String>) -> (r: Vec<char>)
    ensures
        r@ == extract(ts@.map_values(|t: String| t@)),
{
    let ghost v = ts@.map_values(|t: String| t@);
    let mut out: Vec<char> = Vec::new();
    let mut i: usize = 0;
    while i < ts.len()
        invariant
            i <= ts@.len(),
            v == ts@.map_values(|t: String| t@),
            out@ == extract(v.subrange(0, i as int)),
        decreases ts@.len() - i,
    {
        let ghost t = v.subrange(0, i as int + 1);
        assert(t.drop_last() =~= v.subrange(0, i as int));
        assert(t.last() == ts@[i as int]@);
        let node = trimmed(&to_chars(ts[i].as_str()));
        if node.len() > 0 {
            push_all(&mut out, &node);
            out.push(' ');
        }
        i = i + 1;
    }
    assert(v.subrange(0, i as int) =~= v);
    out
}

/// Renders web pages as text lines of at most a given width.
pub struct HtmlRenderer {
    pub max_width: usize,
}

impl HtmlRenderer {
    /// A renderer for lines of 80 bytes.
    pub fn new() -> (r: HtmlRenderer)
        ensures
            r.max_width == 80,
    {
        HtmlRenderer { max_width: 80 }
    }

    /// The same renderer with lines of `width` bytes.
    pub fn with_width(self, width: usize) -> (r: HtmlRenderer)
        ensures
            r.max_width == width,
    {
        HtmlRenderer { max_width: width }
    }

    /// The page's title and main text, cleaned up.
    pub fn render(&self, html: &str) -> (r: String)
        ensures
            r@ == cleanup(page_text(html@), self.max_width as nat),
    {
        let mut output: Vec<char> = Vec::new();
        match first_match_texts(html, "title") {
            Some(ts) => {
                let title = trimmed(&concat_all(&ts));
                if title.len() > 0 {
                    push_str(&mut output, "=== ");
                    push_all(&mut output, &title);
                    push_str(&mut output, " ===\n\n");
                }
            },
            None => {},
        }
        let ghost head = output@;
        assert(head == title_part(html@));
        let selectors: [&str; 7] = ["body", "main", "article", ".content", "#content", ".main", "#main"];
        let ghost sels = content_selectors();
        assert(selectors@.map_values(|x: &str| x@) =~= sels);
        assert(sels.subrange(0, 7) =~= sels);
        let mut found = false;
        let mut k: usize = 0;
        while k < 7 && !found
            invariant
                k <= 7,
                sels == content_selectors(),
                selectors@.map_values(|x: &str| x@) == sels,
                !found ==> output@ == head && content_from(html@, sels) == content_from(
                    html@,
                    sels.subrange(k as int, 7),
                ),
                found ==> output@ == head + content_from(html@, sels)->0 && content_from(html@, sels) is Some,
            decreases 7 - k + if found { 0int } else { 1int },
        {
            let ghost rest = sels.subrange(k as int, 7);
            assert(rest[0] == selectors[k as int]@);
            assert(rest.drop_first() =~= sels.subrange(k + 1, 7));
            match first_match_texts(html, selectors[k]) {
                Some(ts) => {
                    let text = extract_all(&ts);
                    if trimmed(&text).len() > 0 {
                        push_all(&mut output, &text);
                        found = true;
                    }
                },
                None => {},
            }
            k = k + 1;
        }
        if !found {
            assert(sels.subrange(7, 7).len() == 0);
            let ts = all_texts(html);
            let text = extract_all(&ts);
            push_all(&mut output, &text);
        }
        assert(output@ =~= page_text(html@));
        self.cleanup_output(string_of(&output))
    }

    /// The links of a page with non-empty text and target, as (text,
    /// target) pairs in document order.
    pub fn render_links(&self, html: &str) -> (r: Vec<(String, String)>)
        ensures
            r@.map_values(|p: (String, String)| (p.0@, p.1@)) == shown_links(
                selected_attrs(html@, "a[href]"@, "href"@),
            ),
    {
        let all = matches_with_attr(html, "a[href]", "href");
        let ghost ls = all@.map_values(|p: (String, Option<String>)| (p.0@, opt_view(p.1)));
        let mut links: Vec<(String, String)> = Vec::new();
        let mut i: usize = 0;
        while i < all.len()
            invariant
                i <= all@.len(),
                ls == all@.map_values(|p: (String, Option<String>)| (p.0@, opt_view(p.1))),
                links@.map_values(|p: (String, String)| (p.0@, p.1@)) == shown_links(
                    ls.subrange(0, i as int),
                ),
            decreases all@.len() - i,
        {
            let ghost t = ls.subrange(0, i as int + 1);
            assert(t.drop_last() =~= ls.subrange(0, i as int));
            assert(t.last() == ls[i as int]);
            let text = trimmed(&to_chars(all[i].0.as_str()));
            match &all[i].1 {
                Some(href) => {
                    if text.len() > 0 && href.as_str().unicode_len() > 0 {
                        let ghost before = links@;
                        links.push((string_of(&text), href.clone()));
                        assert(links@.map_values(|p: (String, String)| (p.0@, p.1@)) =~= before.map_values(
                            |p: (String, String)| (p.0@, p.1@),
                        ).push((text@, href@)));
                    }
                },
                None => {},
            }
            i = i + 1;
        }
        assert(ls.subrange(0, i as int) =~= ls);
        links
    }

    /// Collapses whitespace, starts a paragraph after each sentence, wraps
    /// paragraphs longer than the width, and trims the result.
    pub fn cleanup_output(&self, output: String) -> (r: String)
        ensures
            r@ == cleanup(output@, self.max_width as nat),
    {
        let chars = to_chars(output.as_str());
        let words = split_words(&chars);
        let ghost ws = words@.map_values(|w: Vec<char>| w@);
        let max = self.max_width;
        let mut done: Vec<char> = Vec::new();
        let mut start: usize = 0;
        let mut i: usize = 0;
        while i < words.len()
            invariant
                i <= words@.len(),
                start <= i,
                ws == words@.map_values(|w: Vec<char>| w@),
                (done@, start as int) == para_state(ws, i as int, max as nat),
            decreases words@.len() - i,
        {
            let last = words[i].len();
            assert(ws[i as int] == words@[i as int]@);
            let ends = last > 0 && (words[i][last - 1] == '.' || words[i][last - 1] == '?'
                || words[i][last - 1] == '!');
            if ends {
                let p = render_range(&words, start, i + 1, max);
                push_all(&mut done, &p);
                done.push('\n');
                start = i + 1;
            }
            i = i + 1;
        }
        assert(ws == words_of(output@));
        let ghost before = done@;
        if start < words.len() {
            let p = render_range(&words, start, words.len(), max);
            push_all(&mut done, &p);
            done.push('\n');
            assert(done@ =~= before + render_paragraph(ws.subrange(start as int, ws.len() as int), max as nat) + seq!['\n']);
        }
        let t = trimmed(&done);
        string_of(&t)
    }
}

} // verus!
