//! Wikitext: the text segments and internal links of an article, and the
//! word n-grams of a text segment that can become links.

use vstd::prelude::*;

use crate::numbers::{is_float_literal, is_float_text};
use crate::text::{
    CharClass, byte_len, char_index_at_byte, chars_equal_str, chars_of, concat, decimal,
    find_char, find_char_spec, lemma_find_seq, occurs_at, replace_char,
    lemma_byte_len_single, lower_chars, lowercase, push_decimal, push_text, split_words,
    string_from, trim, trimmed, words,
};
use crate::wiki_title::{WikiTitle, WikiTitleView, normalize_title};
use tree_sitter::{Language, Parser, Query, QueryCursor, StreamingIterator};

verus! {

broadcast use vstd::string::group_string_axioms;

/// Where a node lies in the source text: byte offsets, and zero-based rows
/// and columns of its start and end.
#[derive(Clone, Copy, Debug, PartialEq, Eq)]
pub struct TextRange {
    pub start_byte: usize,
    pub end_byte: usize,
    pub start_row: usize,
    pub start_column: usize,
    pub end_row: usize,
    pub end_column: usize,
}

/// A run of plain text in an article.
#[derive(Debug)]
pub struct TextSegment {
    pub text: String,
    pub range: TextRange,
}

impl Clone for TextSegment {
    fn clone(&self) -> (r: Self)
        ensures
            r.text@ == self.text@,
            r.range == self.range,
    {
        TextSegment { text: self.text.clone(), range: self.range }
    }
}

/// `[r:c-r:c]`: where a range starts and ends, by row and column.
pub open spec fn range_text(r: TextRange) -> Seq<char> {
    seq!['['] + decimal(r.start_row as nat) + seq![':'] + decimal(r.start_column as nat) + seq![
        '-',
    ] + decimal(r.end_row as nat) + seq![':'] + decimal(r.end_column as nat) + seq![']']
}

/// A segment shown after `name`: its range, then its text in quotes.
pub open spec fn segment_text(name: Seq<char>, r: TextRange, text: Seq<char>) -> Seq<char> {
    name + range_text(r) + seq![':', ' ', '"'] + text + seq!['"']
}

/// Appends a segment shown after `name`.
pub fn push_segment_text(out: &mut Vec<char>, name: &str, r: TextRange, text: &str)
    ensures
        final(out)@ == old(out)@ + segment_text(name@, r, text@),
{
    push_text(out, name);
    out.push('[');
    push_decimal(out, r.start_row as u64);
    out.push(':');
    push_decimal(out, r.start_column as u64);
    out.push('-');
    push_decimal(out, r.end_row as u64);
    out.push(':');
    push_decimal(out, r.end_column as u64);
    out.push(']');
    out.push(':');
    out.push(' ');
    out.push('"');
    push_text(out, text);
    out.push('"');
    assert(final(out)@ =~= old(out)@ + segment_text(name@, r, text@));
}

impl TextSegment {
    /// The segment as it is shown: `TextSegment[r:c-r:c]: "text"`.
    pub fn describe(&self) -> (r: String)
        ensures
            r@ == segment_text("TextSegment"@, self.range, self.text@),
    {
        let mut out: Vec<char> = Vec::new();
        push_segment_text(&mut out, "TextSegment", self.range, self.text.as_str());
        assert(out@ =~= segment_text("TextSegment"@, self.range, self.text@));
        string_from(out.as_slice())
    }
}

/* ------------------------------------------------------------------ */
/* N-grams                                                              */
/* ------------------------------------------------------------------ */

/// A word reduced to its gram: ASCII punctuation trimmed off both ends,
/// then lower-cased.
pub open spec fn gram_of(word: Seq<char>) -> Seq<char> {
    lowercase(trimmed(word, CharClass::AsciiPunct))
}

/// A gram is kept when it is longer than one byte and is not a number.
pub open spec fn keeps_gram(g: Seq<char>) -> bool {
    g.len() > 0 && byte_len(g) > 1 && !is_float_literal(g)
}

/// The kept grams of a sequence of words, in order.
pub open spec fn grams_of_words(ws: Seq<Seq<char>>) -> Seq<Seq<char>>
    decreases ws.len(),
{
    if ws.len() == 0 {
        seq![]
    } else {
        let rest = grams_of_words(ws.drop_last());
        let g = gram_of(ws.last());
        if keeps_gram(g) {
            rest.push(g)
        } else {
            rest
        }
    }
}

/// The single-word candidates of a text.
pub open spec fn one_grams_of(text: Seq<char>) -> Seq<Seq<char>> {
    grams_of_words(words(text))
}

proof fn lemma_grams_are_kept(ws: Seq<Seq<char>>)
    ensures
        forall|i: int| 0 <= i < grams_of_words(ws).len() ==> keeps_gram(#[trigger] grams_of_words(ws)[i]),
    decreases ws.len(),
{
    if ws.len() > 0 {
        let rest = grams_of_words(ws.drop_last());
        lemma_grams_are_kept(ws.drop_last());
        let g = gram_of(ws.last());
        if keeps_gram(g) {
            assert forall|i: int| 0 <= i < rest.push(g).len() implies keeps_gram(
                #[trigger] rest.push(g)[i],
            ) by {
                if i < rest.len() {
                    assert(rest.push(g)[i] == rest[i]);
                }
            }
        }
    }
}

/// No one-gram is a number or a single byte, so no link candidate is made
/// of numbers or single letters.
pub proof fn law_one_grams_are_words_not_numbers(text: Seq<char>)
    ensures
        forall|i: int|
            0 <= i < one_grams_of(text).len() ==> byte_len(#[trigger] one_grams_of(text)[i]) > 1
                && !is_float_literal(one_grams_of(text)[i]),
{
    lemma_grams_are_kept(words(text));
}

proof fn lemma_grams_of_words_filter(ws: Seq<Seq<char>>)
    ensures
        grams_of_words(ws) == ws.map_values(
            |w: Seq<char>| lowercase(trimmed(w, CharClass::AsciiPunct)),
        ).filter(|g: Seq<char>| g.len() > 0 && byte_len(g) > 1 && !is_float_literal(g)),
    decreases ws.len(),
{
    let f = |w: Seq<char>| lowercase(trimmed(w, CharClass::AsciiPunct));
    let p = |g: Seq<char>| g.len() > 0 && byte_len(g) > 1 && !is_float_literal(g);
    reveal_with_fuel(Seq::filter, 1);
    if ws.len() == 0 {
        assert(ws.map_values(f) =~= Seq::<Seq<char>>::empty());
    } else {
        lemma_grams_of_words_filter(ws.drop_last());
        assert(ws.map_values(f).drop_last() =~= ws.drop_last().map_values(f));
        assert(ws.map_values(f).last() == gram_of(ws.last()));
    }
}

/// The one-grams of a text are exactly its words, each with ASCII
/// punctuation trimmed off both ends and lower-cased, in order, leaving out
/// those that come out empty, one byte long or a number: no other word is
/// dropped.
pub proof fn law_one_grams_are_kept_words(text: Seq<char>)
    ensures
        one_grams_of(text) == words(text).map_values(
            |w: Seq<char>| lowercase(trimmed(w, CharClass::AsciiPunct)),
        ).filter(|g: Seq<char>| g.len() > 0 && byte_len(g) > 1 && !is_float_literal(g)),
{
    lemma_grams_of_words_filter(words(text));
}

/// Consecutive one-grams joined by a space.
pub open spec fn bigrams_of(text: Seq<char>) -> Seq<Seq<char>> {
    let g = one_grams_of(text);
    Seq::new(
        if g.len() >= 2 {
            (g.len() - 1) as nat
        } else {
            0
        },
        |i: int| g[i] + seq![' '] + g[i + 1],
    )
}

/// Three consecutive one-grams joined by spaces.
pub open spec fn trigrams_of(text: Seq<char>) -> Seq<Seq<char>> {
    let g = one_grams_of(text);
    Seq::new(
        if g.len() >= 3 {
            (g.len() - 2) as nat
        } else {
            0
        },
        |i: int| g[i] + seq![' '] + g[i + 1] + seq![' '] + g[i + 2],
    )
}

/// All link candidates of a text: its one-grams, then bigrams, then trigrams.
pub open spec fn link_candidates_of(text: Seq<char>) -> Seq<Seq<char>> {
    one_grams_of(text) + bigrams_of(text) + trigrams_of(text)
}

proof fn lemma_byte_len_at_least_len(s: Seq<char>)
    ensures
        byte_len(s) >= s.len(),
    decreases s.len(),
{
    if s.len() > 0 {
        lemma_byte_len_at_least_len(s.drop_last());
    }
}

/// Whether `v` takes more than one byte as UTF-8.
fn longer_than_one_byte(v: &[char]) -> (r: bool)
    ensures
        r == (byte_len(v@) > 1),
{
    if v.len() >= 2 {
        proof {
            lemma_byte_len_at_least_len(v@);
        }
        true
    } else if v.len() == 1 {
        proof {
            assert(v@ =~= seq![v@[0]]);
            lemma_byte_len_single(v@[0]);
        }
        (v[0] as u32) >= 0x80
    } else {
        false
    }
}

/// The gram of one word, when it is kept.
fn gram_of_word(word: &[char]) -> (r: Option<Vec<char>>)
    ensures
        r matches Some(g) ==> g@ == gram_of(word@) && keeps_gram(g@),
        r is None ==> !keeps_gram(gram_of(word@)),
{
    let t = trim(word, CharClass::AsciiPunct);
    let g = lower_chars(t.as_slice());
    if g.len() > 0 && longer_than_one_byte(g.as_slice()) && !is_float_text(g.as_slice()) {
        Some(g)
    } else {
        None
    }
}

/// Strings joined with `sep` characters between them.
fn join_grams(parts: &Vec<String>, from: usize, count: usize) -> (r: String)
    requires
        count >= 1,
        from + count <= parts@.len(),
    ensures
        r@ == joined_run(parts.deep_view(), from as int, count as int),
    decreases count,
{
    let n = parts.len();
    if count == 1 {
        parts[from].clone()
    } else {
        let head = join_grams(parts, from, (count - 1) as usize);
        let h = chars_of(head.as_str());
        let sp = vec![' '];
        let tail = chars_of(parts[from + (count - 1)].as_str());
        let a = concat(h.as_slice(), sp.as_slice());
        let b = concat(a.as_slice(), tail.as_slice());
        assert(sp@ =~= seq![' ']);
        string_from(b.as_slice())
    }
}

/// `count` consecutive elements of `g` starting at `from`, joined by spaces.
pub open spec fn joined_run(g: Seq<Seq<char>>, from: int, count: int) -> Seq<char>
    decreases count,
{
    if count <= 1 {
        g[from]
    } else {
        joined_run(g, from, count - 1) + seq![' '] + g[from + count - 1]
    }
}

impl TextSegment {
    /// The words of the segment, trimmed of ASCII punctuation and lower-cased,
    /// that are longer than one byte and are not numbers.
    pub fn one_grams(&self) -> (r: Vec<String>)
        ensures
            r.deep_view() == one_grams_of(self.text@),
    {
        let v = chars_of(self.text.as_str());
        let ws = split_words(v.as_slice());
        let mut grams: Vec<String> = Vec::new();
        let mut i: usize = 0;
        while i < ws.len()
            invariant
                i <= ws@.len(),
                ws.deep_view() == words(v@),
                v@ == self.text@,
                grams.deep_view() == grams_of_words(ws.deep_view().take(i as int)),
            decreases ws.len() - i,
        {
            let ghost prev = grams.deep_view();
            proof {
                let next = ws.deep_view().take(i + 1);
                assert(next.drop_last() =~= ws.deep_view().take(i as int));
                assert(next.last() == ws[i as int]@);
            }
            match gram_of_word(ws[i].as_slice()) {
                Some(g) => {
                    let s = string_from(g.as_slice());
                    let ghost old_grams = grams@;
                    grams.push(s);
                    proof {
                        assert forall|k: int| 0 <= k < grams@.len() implies #[trigger] grams.deep_view()[k]
                            == prev.push(g@)[k] by {
                            if k < old_grams.len() {
                                assert(grams@[k] == old_grams[k]);
                            }
                        }
                        assert(grams.deep_view() =~= prev.push(g@));
                    }
                },
                None => {},
            }
            i += 1;
        }
        assert(ws.deep_view().take(ws@.len() as int) =~= ws.deep_view());
        grams
    }

    /// Pairs of consecutive one-grams, joined by a space.
    pub fn bigrams(&self) -> (r: Vec<String>)
        ensures
            r.deep_view() == bigrams_of(self.text@),
    {
        let words = self.one_grams();
        let mut out: Vec<String> = Vec::new();
        let n = words.len();
        let count = if n >= 2 {
            n - 1
        } else {
            0
        };
        let mut i: usize = 0;
        while i < count
            invariant
                n == words@.len(),
                count == (if n >= 2 {
                    n - 1
                } else {
                    0
                }),
                i <= count,
                words.deep_view() == one_grams_of(self.text@),
                out@.len() == i,
                forall|k: int| 0 <= k < i ==> #[trigger] out@[k]@ == bigrams_of(self.text@)[k],
            decreases count - i,
        {
            let s = join_grams(&words, i, 2);
            proof {
                let g = words.deep_view();
                assert(joined_run(g, i as int, 2) == joined_run(g, i as int, 1) + seq![' '] + g[i
                    + 1]);
            }
            out.push(s);
            i += 1;
        }
        assert(out.deep_view() =~= bigrams_of(self.text@));
        out
    }

    /// Triples of consecutive one-grams, joined by spaces.
    pub fn trigrams(&self) -> (r: Vec<String>)
        ensures
            r.deep_view() == trigrams_of(self.text@),
    {
        let words = self.one_grams();
        let mut out: Vec<String> = Vec::new();
        let n = words.len();
        let count = if n >= 3 {
            n - 2
        } else {
            0
        };
        let mut i: usize = 0;
        while i < count
            invariant
                n == words@.len(),
                count == (if n >= 3 {
                    n - 2
                } else {
                    0
                }),
                i <= count,
                words.deep_view() == one_grams_of(self.text@),
                out@.len() == i,
                forall|k: int| 0 <= k < i ==> #[trigger] out@[k]@ == trigrams_of(self.text@)[k],
            decreases count - i,
        {
            let s = join_grams(&words, i, 3);
            proof {
                let g = words.deep_view();
                assert(joined_run(g, i as int, 3) == joined_run(g, i as int, 2) + seq![' '] + g[i
                    + 2]);
                assert(joined_run(g, i as int, 2) == joined_run(g, i as int, 1) + seq![' '] + g[i
                    + 1]);
            }
            out.push(s);
            i += 1;
        }
        assert(out.deep_view() =~= trigrams_of(self.text@));
        out
    }

    /// All link candidates of the segment: one-grams, bigrams and trigrams.
    pub fn link_candidates(&self) -> (r: Vec<String>)
        ensures
            r.deep_view() == link_candidates_of(self.text@),
    {
        let mut candidates = self.one_grams();
        let mut bi = self.bigrams();
        let mut tri = self.trigrams();
        let ghost a = candidates.deep_view();
        let ghost b = bi.deep_view();
        let ghost c = tri.deep_view();
        let ghost a0 = candidates@;
        let ghost b0 = bi@;
        let ghost c0 = tri@;
        candidates.append(&mut bi);
        candidates.append(&mut tri);
        proof {
            assert(candidates@ == a0 + b0 + c0);
            assert forall|k: int| 0 <= k < candidates@.len() implies #[trigger] candidates.deep_view()[k]
                == (a + b + c)[k] by {
                if k < a0.len() {
                    assert(candidates@[k] == a0[k]);
                } else if k < a0.len() + b0.len() {
                    assert(candidates@[k] == b0[k - a0.len()]);
                } else {
                    assert(candidates@[k] == c0[k - a0.len() - b0.len()]);
                }
            }
            assert(candidates.deep_view() =~= a + b + c);
        }
        candidates
    }
}


/* ------------------------------------------------------------------ */
/* Query captures                                                       */
/* ------------------------------------------------------------------ */

/// One captured node: the name of its capture, its text and its range.
#[derive(Debug)]
pub struct Capture {
    pub name: String,
    pub text: String,
    pub range: TextRange,
}

pub struct CaptureView {
    pub name: Seq<char>,
    pub text: Seq<char>,
    pub range: TextRange,
}

impl View for Capture {
    type V = CaptureView;

    open spec fn view(&self) -> CaptureView {
        CaptureView { name: self.name@, text: self.text@, range: self.range }
    }
}

impl Capture {
    /// A capture named `name` over `text` at the given range.
    pub fn new(name: &str, text: &str, range: TextRange) -> (r: Self)
        ensures
            r@ == (CaptureView { name: name@, text: text@, range }),
    {
        Capture { name: name.to_owned(), text: text.to_owned(), range }
    }
}

/// What a query reports at each step: the captures of the current match and
/// the index of the capture that this step is about.
#[derive(Debug)]
pub struct QueryItem {
    pub capture_index: usize,
    pub captures: Vec<Capture>,
}

pub struct QueryItemView {
    pub capture_index: nat,
    pub captures: Seq<CaptureView>,
}

impl View for QueryItem {
    type V = QueryItemView;

    open spec fn view(&self) -> QueryItemView {
        QueryItemView {
            capture_index: self.capture_index as nat,
            captures: self.captures@.map_values(|c: Capture| c@),
        }
    }
}

impl QueryItem {
    /// The step that reports capture `capture_index` of `captures`.
    pub fn new(capture_index: usize, captures: Vec<Capture>) -> (r: Self)
        ensures
            r.capture_index == capture_index,
            r.captures@ == captures@,
    {
        QueryItem { capture_index, captures }
    }
}

pub open spec fn items_view(items: Seq<QueryItem>) -> Seq<QueryItemView> {
    items.map_values(|i: QueryItem| i@)
}

/// The query that finds internal links: the linked page, and the label
/// when there is one.
pub const LINK_QUERY: &'static str = "(wikilink (wikilink_page) @link.title (page_name_segment)? @link.label)";

/// The query that finds the plain text of paragraphs.
pub const TEXT_QUERY: &'static str = "(paragraph (text) @text )";

/// The characters of `source` between two byte offsets, when both fall
/// between characters (empty otherwise): what `Node::utf8_text` reads.
pub open spec fn text_at(source: Seq<char>, r: TextRange) -> Seq<char> {
    match (
        char_index_at_byte(source, r.start_byte as int),
        char_index_at_byte(source, r.end_byte as int),
    ) {
        (Some(i), Some(j)) => if i <= j {
            source.subrange(i as int, j as int)
        } else {
            seq![]
        },
        _ => seq![],
    }
}

/// A range that lies within `source` and starts and ends between its
/// characters.
pub open spec fn range_in(source: Seq<char>, r: TextRange) -> bool {
    &&& r.start_byte <= r.end_byte <= byte_len(source)
    &&& char_index_at_byte(source, r.start_byte as int) is Some
    &&& char_index_at_byte(source, r.end_byte as int) is Some
}

/// Every capture's range lies within the source, and its text is the
/// source's text at that range.
pub open spec fn captures_read_source(items: Seq<QueryItemView>, source: Seq<char>) -> bool {
    forall|k: int, m: int|
        0 <= k < items.len() && 0 <= m < items[k].captures.len() ==> range_in(
            source,
            (#[trigger] items[k].captures[m]).range,
        ) && items[k].captures[m].text == text_at(source, items[k].captures[m].range)
}

/// What running `query` over the wikitext grammar's parse of `text`
/// reports, step by step (`None` when the query does not compile or the
/// text cannot be parsed).
pub uninterp spec fn wikitext_query_items(query: Seq<char>, text: Seq<char>) -> Option<Seq<QueryItemView>>;

/// Whether `query` compiles against the wikitext grammar.
pub uninterp spec fn wikitext_query_compiles(query: Seq<char>) -> bool;

/// Compiles `query` against the `tree_sitter_wikitext` grammar with
/// `tree_sitter::Query::new`, after loading the grammar into a
/// `tree_sitter::Parser`. Only names the outcome.
#[verifier::external_body]
fn compile_wikitext_query(query: &str) -> (r: bool)
    ensures
        r == wikitext_query_compiles(query@),
{
    let language: Language = tree_sitter_wikitext::LANGUAGE.into();
    Parser::new().set_language(&language).is_ok() && Query::new(&language, query).is_ok()
}

/// Parses `text` with the `tree_sitter_wikitext` grammar and walks the
/// captures of `query` with `tree_sitter::QueryCursor::captures`, turning
/// each step into a `QueryItem`. The result is named: what the grammar
/// makes of a text is not stated. Each capture's text is the slice of the
/// text at its node's byte range (the slice would panic on a range beyond
/// the text or off a character boundary, so every range returned lies
/// within the text, between characters).
#[verifier::external_body]
fn run_wikitext_query(query: &str, text: &str) -> (r: Option<Vec<QueryItem>>)
    ensures
        match r {
            Some(items) => wikitext_query_items(query@, text@) == Some(items_view(items@))
                && captures_read_source(items_view(items@), text@),
            None => wikitext_query_items(query@, text@) is None,
        },
{
    let language: Language = tree_sitter_wikitext::LANGUAGE.into();
    let mut parser = Parser::new();
    parser.set_language(&language).ok()?;
    let query = Query::new(&language, query).ok()?;
    let tree = parser.parse(text, None)?;
    let names = query.capture_names();
    let mut cursor = QueryCursor::new();
    let steps = cursor.captures(&query, tree.root_node(), text.as_bytes());
    Some(steps.map_deref(|(m, i)| QueryItem::new(*i, m.captures.iter().map(|c| Capture::new(
        names[c.index as usize], &text[c.node.start_byte()..c.node.end_byte()], text_range(
        c.node.range()))).collect())).collect())
}

/// Copies the fields of a `tree_sitter::Range` into a `TextRange`.
#[verifier::external_body]
fn text_range(r: tree_sitter::Range) -> TextRange {
    TextRange {
        start_byte: r.start_byte,
        end_byte: r.end_byte,
        start_row: r.start_point.row,
        start_column: r.start_point.column,
        end_row: r.end_point.row,
        end_column: r.end_point.column,
    }
}

/// The outside type of a node's position.
#[verifier::external_type_specification]
#[verifier::external_body]
pub struct ExRange(tree_sitter::Range);

/* ------------------------------------------------------------------ */
/* Links                                                                */
/* ------------------------------------------------------------------ */

/// An internal link of an article.
#[derive(Debug)]
pub struct WikiLink {
    pub label: Option<String>,
    pub title: WikiTitle,
    pub range: TextRange,
}

pub struct WikiLinkView {
    pub label: Option<Seq<char>>,
    pub title: WikiTitleView,
    pub range: TextRange,
}

pub open spec fn opt_view(o: Option<String>) -> Option<Seq<char>> {
    match o {
        Some(s) => Some(s@),
        None => None,
    }
}

impl View for WikiLink {
    type V = WikiLinkView;

    open spec fn view(&self) -> WikiLinkView {
        WikiLinkView { label: opt_view(self.label), title: self.title@, range: self.range }
    }
}

pub open spec fn links_view(links: Seq<WikiLink>) -> Seq<WikiLinkView> {
    links.map_values(|l: WikiLink| l@)
}

/// What a link's title capture is reduced to: surrounding `"` and then `'`
/// characters removed.
pub open spec fn clean_link_title(t: Seq<char>) -> Seq<char> {
    trimmed(trimmed(t, CharClass::Exactly('"')), CharClass::Exactly('\''))
}

/// Titles with a `:` (other namespaces, interwiki) or a `.` are not taken.
pub open spec fn takes_link_title(t: Seq<char>) -> bool {
    find_char_spec(t, ':') is None && find_char_spec(t, '.') is None
}

/// The state of reading one link's captures.
pub struct LinkScan {
    pub label: Option<Seq<char>>,
    pub title: Seq<char>,
    pub range: TextRange,
}

pub open spec fn scan_step(s: LinkScan, c: CaptureView) -> LinkScan {
    if c.name == "link.title"@ {
        let t = clean_link_title(c.text);
        if takes_link_title(t) {
            LinkScan { label: s.label, title: t, range: c.range }
        } else {
            s
        }
    } else if c.name == "link.label"@ {
        LinkScan { label: Some(c.text), title: s.title, range: s.range }
    } else {
        s
    }
}

pub open spec fn scan_captures(caps: Seq<CaptureView>, start: LinkScan) -> LinkScan
    decreases caps.len(),
{
    if caps.len() == 0 {
        start
    } else {
        scan_step(scan_captures(caps.drop_last(), start), caps.last())
    }
}

/// What one step of the link query yields: the title, label and range read
/// from the captures of its match.
pub open spec fn link_scan_of(item: QueryItemView) -> LinkScan {
    scan_captures(
        item.captures,
        LinkScan { label: None, title: seq![], range: item.captures[0].range },
    )
}

/// The link that a scan describes.
pub open spec fn link_of_scan(s: LinkScan) -> WikiLinkView {
    WikiLinkView {
        label: s.label,
        title: WikiTitleView {
            raw: s.title,
            normalized: normalize_title(s.title),
            language: "en"@,
        },
        range: s.range,
    }
}

/// The links that the steps of the link query describe, in order; links
/// whose title normalizes to nothing are left out.
pub open spec fn links_of_items(items: Seq<QueryItemView>) -> Seq<WikiLinkView>
    decreases items.len(),
{
    if items.len() == 0 {
        seq![]
    } else {
        let rest = links_of_items(items.drop_last());
        let s = link_scan_of(items.last());
        if normalize_title(s.title).len() > 0 {
            rest.push(link_of_scan(s))
        } else {
            rest
        }
    }
}

proof fn lemma_scan_label(caps: Seq<CaptureView>, start: LinkScan)
    ensures
        (forall|m: int| 0 <= m < caps.len() ==> (#[trigger] caps[m]).name != "link.label"@)
            ==> scan_captures(caps, start).label == start.label,
        forall|m: int|
            0 <= m < caps.len() && (#[trigger] caps[m]).name == "link.label"@ && (forall|n: int|
                m < n < caps.len() ==> (#[trigger] caps[n]).name != "link.label"@) ==> scan_captures(
                caps,
                start,
            ).label == Some(caps[m].text),
    decreases caps.len(),
{
    if caps.len() > 0 {
        reveal_strlit("link.title");
        reveal_strlit("link.label");
        assert("link.title"@[5] != "link.label"@[5]);
        let init = caps.drop_last();
        let last = caps.len() - 1;
        lemma_scan_label(init, start);
        assert(caps.last() == caps[last]);
        if caps[last].name == "link.label"@ {
            assert(caps[last].name != "link.title"@);
            assert forall|m: int|
                0 <= m < caps.len() && (#[trigger] caps[m]).name == "link.label"@ && (forall|n: int|
                    m < n < caps.len() ==> (#[trigger] caps[n]).name != "link.label"@) implies scan_captures(
                caps,
                start,
            ).label == Some(caps[m].text) by {
                if m < last {
                    assert(caps[last].name != "link.label"@);
                }
            }
        } else {
            assert(scan_captures(caps, start).label == scan_captures(init, start).label);
            if forall|m: int| 0 <= m < caps.len() ==> (#[trigger] caps[m]).name != "link.label"@ {
                assert forall|m: int| 0 <= m < init.len() implies (#[trigger] init[m]).name
                    != "link.label"@ by {
                    assert(init[m] == caps[m]);
                }
            }
            assert forall|m: int|
                0 <= m < caps.len() && (#[trigger] caps[m]).name == "link.label"@ && (forall|n: int|
                    m < n < caps.len() ==> (#[trigger] caps[n]).name != "link.label"@) implies scan_captures(
                caps,
                start,
            ).label == Some(caps[m].text) by {
                assert(m < last);
                assert(init[m] == caps[m]);
                assert forall|n: int| m < n < init.len() implies (#[trigger] init[n]).name
                    != "link.label"@ by {
                    assert(init[n] == caps[n]);
                }
            }
        }
    }
}

/// A link's label is what its match captured as `link.label`: with no such
/// capture the link has no label, and otherwise the label is the text of
/// the last `link.label` capture of the match.
pub proof fn law_link_label_is_label_capture(item: QueryItemView)
    ensures
        (forall|m: int|
            0 <= m < item.captures.len() ==> (#[trigger] item.captures[m]).name != "link.label"@)
            ==> link_of_scan(link_scan_of(item)).label is None,
        forall|m: int|
            0 <= m < item.captures.len() && (#[trigger] item.captures[m]).name == "link.label"@
                && (forall|n: int|
                m < n < item.captures.len() ==> (#[trigger] item.captures[n]).name
                    != "link.label"@) ==> link_of_scan(link_scan_of(item)).label == Some(
                item.captures[m].text,
            ),
{
    lemma_scan_label(
        item.captures,
        LinkScan { label: None, title: seq![], range: item.captures[0].range },
    );
}

/// A capture that gives its link a title: it is named `link.title`, and its
/// text, with surrounding `"` and then `'` removed, has neither a `:` nor a
/// `.`.
pub open spec fn gives_title(c: CaptureView) -> bool {
    let t = trimmed(trimmed(c.text, CharClass::Exactly('"')), CharClass::Exactly('\''));
    c.name == "link.title"@ && !t.contains(':') && !t.contains('.')
}

proof fn lemma_find_char_none(t: Seq<char>, c: char)
    ensures
        (find_char_spec(t, c) is None) == !t.contains(c),
{
    lemma_find_seq(t, seq![c]);
    if t.contains(c) {
        let j = choose|j: int| 0 <= j < t.len() && t[j] == c;
        assert(t.subrange(j, j + 1) =~= seq![c]);
        assert(occurs_at(t, seq![c], j));
    } else if find_char_spec(t, c) is Some {
        let k = find_char_spec(t, c)->0;
        assert(t.subrange(k, k + 1)[0] == t[k]);
    }
}

proof fn lemma_scan_title(caps: Seq<CaptureView>, start: LinkScan)
    ensures
        (forall|m: int| 0 <= m < caps.len() ==> !gives_title(#[trigger] caps[m])) ==> scan_captures(
            caps,
            start,
        ).title == start.title && scan_captures(caps, start).range == start.range,
        forall|m: int|
            0 <= m < caps.len() && gives_title(#[trigger] caps[m]) && (forall|n: int|
                m < n < caps.len() ==> !gives_title(#[trigger] caps[n])) ==> scan_captures(
                caps,
                start,
            ).title == trimmed(
                trimmed(caps[m].text, CharClass::Exactly('"')),
                CharClass::Exactly('\''),
            ) && scan_captures(caps, start).range == caps[m].range,
    decreases caps.len(),
{
    if caps.len() > 0 {
        let init = caps.drop_last();
        let last = caps.len() - 1;
        let c = caps[last];
        lemma_scan_title(init, start);
        assert(caps.last() == c);
        let t = clean_link_title(c.text);
        lemma_find_char_none(t, ':');
        lemma_find_char_none(t, '.');
        let prev = scan_captures(init, start);
        let now = scan_captures(caps, start);
        if gives_title(c) {
            assert(now.title == t && now.range == c.range);
            assert forall|m: int|
                0 <= m < caps.len() && gives_title(#[trigger] caps[m]) && (forall|n: int|
                    m < n < caps.len() ==> !gives_title(#[trigger] caps[n])) implies now.title
                == trimmed(
                trimmed(caps[m].text, CharClass::Exactly('"')),
                CharClass::Exactly('\''),
            ) && now.range == caps[m].range by {
                if m < last {
                    assert(!gives_title(caps[last]));
                }
            }
        } else {
            assert(now.title == prev.title && now.range == prev.range);
            if forall|m: int| 0 <= m < caps.len() ==> !gives_title(#[trigger] caps[m]) {
                assert forall|m: int| 0 <= m < init.len() implies !gives_title(#[trigger] init[m]) by {
                    assert(init[m] == caps[m]);
                }
            }
            assert forall|m: int|
                0 <= m < caps.len() && gives_title(#[trigger] caps[m]) && (forall|n: int|
                    m < n < caps.len() ==> !gives_title(#[trigger] caps[n])) implies now.title
                == trimmed(
                trimmed(caps[m].text, CharClass::Exactly('"')),
                CharClass::Exactly('\''),
            ) && now.range == caps[m].range by {
                assert(m < last);
                assert(init[m] == caps[m]);
                assert forall|n: int| m < n < init.len() implies !gives_title(#[trigger] init[n]) by {
                    assert(init[n] == caps[n]);
                }
            }
        }
    }
}

/// A link's title and range come from the last capture of its match that
/// gives a title: its text with surrounding `"` and then `'` removed, and
/// its range. With no such capture the title is empty and the range is
/// that of the match's first capture.
pub proof fn law_link_title_is_last_title_capture(item: QueryItemView)
    requires
        item.captures.len() > 0,
    ensures
        (forall|m: int| 0 <= m < item.captures.len() ==> !gives_title(#[trigger] item.captures[m]))
            ==> link_scan_of(item).title.len() == 0 && link_scan_of(item).range
            == item.captures[0].range,
        forall|m: int|
            0 <= m < item.captures.len() && gives_title(#[trigger] item.captures[m]) && (forall|n: int|
                m < n < item.captures.len() ==> !gives_title(#[trigger] item.captures[n]))
                ==> link_scan_of(item).title == trimmed(
                trimmed(item.captures[m].text, CharClass::Exactly('"')),
                CharClass::Exactly('\''),
            ) && link_scan_of(item).range == item.captures[m].range,
{
    lemma_scan_title(
        item.captures,
        LinkScan { label: None, title: seq![], range: item.captures[0].range },
    );
}

/// A scan's title, once one is taken, is the cleaned source text at the
/// scan's range.
pub open spec fn scan_reads_source(s: LinkScan, source: Seq<char>) -> bool {
    &&& range_in(source, s.range)
    &&& s.title.len() == 0 || s.title == clean_link_title(text_at(source, s.range))
}

proof fn lemma_scan_reads_source(caps: Seq<CaptureView>, start: LinkScan, source: Seq<char>)
    requires
        scan_reads_source(start, source),
        forall|m: int|
            0 <= m < caps.len() ==> range_in(source, (#[trigger] caps[m]).range) && caps[m].text
                == text_at(source, caps[m].range),
    ensures
        scan_reads_source(scan_captures(caps, start), source),
    decreases caps.len(),
{
    if caps.len() > 0 {
        let init = caps.drop_last();
        assert forall|m: int| 0 <= m < init.len() implies range_in(source, (#[trigger] init[m]).range)
            && init[m].text == text_at(source, init[m].range) by {
            assert(init[m] == caps[m]);
        }
        lemma_scan_reads_source(init, start, source);
        assert(caps[caps.len() - 1].text == text_at(source, caps.last().range));
        assert(range_in(source, caps[caps.len() - 1].range));
    }
}

/// Every link's title, as written, is the cleaned source text at the
/// link's range.
proof fn lemma_links_read_source(items: Seq<QueryItemView>, source: Seq<char>)
    requires
        items_have_captures(items),
        captures_read_source(items, source),
    ensures
        forall|i: int|
            0 <= i < links_of_items(items).len() ==> range_in(
                source,
                (#[trigger] links_of_items(items)[i]).range,
            ) && links_of_items(items)[i].title.raw == clean_link_title(
                text_at(source, links_of_items(items)[i].range),
            ),
    decreases items.len(),
{
    if items.len() > 0 {
        let init = items.drop_last();
        assert forall|k: int| 0 <= k < init.len() implies #[trigger] init[k].captures.len() > 0 by {
            assert(init[k] == items[k]);
        }
        assert forall|k: int, m: int|
            0 <= k < init.len() && 0 <= m < init[k].captures.len() implies range_in(
                source,
                (#[trigger] init[k].captures[m]).range,
            ) && init[k].captures[m].text == text_at(source, init[k].captures[m].range) by {
            assert(init[k] == items[k]);
        }
        lemma_links_read_source(init, source);
        let it = items.last();
        let last = items.len() - 1;
        assert(items[last].captures.len() > 0);
        assert forall|m: int| 0 <= m < it.captures.len() implies range_in(
            source,
            (#[trigger] it.captures[m]).range,
        ) && it.captures[m].text == text_at(source, it.captures[m].range) by {
            assert(items[last].captures[m] == it.captures[m]);
        }
        assert(range_in(source, it.captures[0].range));
        let start = LinkScan { label: None, title: seq![], range: it.captures[0].range };
        lemma_scan_reads_source(it.captures, start, source);
        let sc = link_scan_of(it);
        let rest = links_of_items(init);
        if normalize_title(sc.title).len() > 0 {
            if sc.title.len() == 0 {
                assert(words(replace_char(sc.title, '_', ' ')) =~= Seq::<Seq<char>>::empty());
                assert(normalize_title(sc.title).len() == 0);
            }
            let all = rest.push(link_of_scan(sc));
            assert forall|i: int| 0 <= i < all.len() implies range_in(
                source,
                (#[trigger] all[i]).range,
            ) && all[i].title.raw == clean_link_title(text_at(source, all[i].range)) by {
                if i < rest.len() {
                    assert(all[i] == rest[i]);
                }
            }
        }
    }
}

/// Every step reports at least one capture.
pub open spec fn items_have_captures(items: Seq<QueryItemView>) -> bool {
    forall|i: int| 0 <= i < items.len() ==> #[trigger] items[i].captures.len() > 0
}

/// Every step's capture index is within its captures.
pub open spec fn items_have_indexed_capture(items: Seq<QueryItemView>) -> bool {
    forall|i: int| 0 <= i < items.len() ==> #[trigger] items[i].capture_index < items[i].captures.len()
}

/// `s` with leading and trailing `"` removed, then leading and trailing `'`.
fn clean_title_chars(v: &[char]) -> (r: Vec<char>)
    ensures
        r@ == clean_link_title(v@),
{
    let a = trim(v, CharClass::Exactly('"'));
    trim(a.as_slice(), CharClass::Exactly('\''))
}

fn scan_capture(s: (Option<String>, Vec<char>, TextRange), c: &Capture) -> (r: (
    Option<String>,
    Vec<char>,
    TextRange,
))
    ensures
        ({
            let n = scan_step(LinkScan { label: opt_view(s.0), title: s.1@, range: s.2 }, c@);
            opt_view(r.0) == n.label && r.1@ == n.title && r.2 == n.range
        }),
{
    let name = chars_of(c.name.as_str());
    if chars_equal_str(name.as_slice(), "link.title") {
        let raw = chars_of(c.text.as_str());
        let t = clean_title_chars(raw.as_slice());
        if find_char(t.as_slice(), ':').is_none() && find_char(t.as_slice(), '.').is_none() {
            (s.0, t, c.range)
        } else {
            s
        }
    } else if chars_equal_str(name.as_slice(), "link.label") {
        (Some(c.text.clone()), s.1, s.2)
    } else {
        s
    }
}

/// The links described by the steps of the link query.
pub fn links_from_items(items: &Vec<QueryItem>) -> (r: Vec<WikiLink>)
    requires
        items_have_captures(items_view(items@)),
    ensures
        links_view(r@) == links_of_items(items_view(items@)),
{
    let mut links: Vec<WikiLink> = Vec::new();
    let mut i: usize = 0;
    while i < items.len()
        invariant
            i <= items@.len(),
            items_have_captures(items_view(items@)),
            links_view(links@) == links_of_items(items_view(items@).take(i as int)),
        decreases items.len() - i,
    {
        let item = &items[i];
        assert(items_view(items@)[i as int].captures.len() > 0);
        let ghost iv = item@;
        let mut state: (Option<String>, Vec<char>, TextRange) = (None, Vec::new(), item.captures[0].range);
        let mut k: usize = 0;
        while k < item.captures.len()
            invariant
                k <= item.captures@.len(),
                iv == item@,
                iv.captures.len() > 0,
                ({
                    let n = scan_captures(
                        iv.captures.take(k as int),
                        LinkScan { label: None, title: seq![], range: iv.captures[0].range },
                    );
                    opt_view(state.0) == n.label && state.1@ == n.title && state.2 == n.range
                }),
            decreases item.captures.len() - k,
        {
            proof {
                let next = iv.captures.take(k + 1);
                assert(next.drop_last() =~= iv.captures.take(k as int));
                assert(next.last() == item.captures[k as int]@);
            }
            state = scan_capture(state, &item.captures[k]);
            k += 1;
        }
        assert(iv.captures.take(iv.captures.len() as int) =~= iv.captures);
        let (label, title_chars, range) = state;
        let title_text = string_from(title_chars.as_slice());
        let title = WikiTitle::new(title_text.as_str(), String::from_str("en"));
        let ghost prev = links@;
        proof {
            let next = items_view(items@).take(i + 1);
            assert(next.drop_last() =~= items_view(items@).take(i as int));
            assert(next.last() == iv);
        }
        if title.is_valid() {
            let link = WikiLink { label, title, range };
            let ghost lv = link@;
            assert(lv == link_of_scan(link_scan_of(iv)));
            links.push(link);
            proof {
                assert forall|k: int| 0 <= k < links@.len() implies #[trigger] links_view(links@)[k]
                    == links_view(prev).push(lv)[k] by {
                    if k < prev.len() {
                        assert(links@[k] == prev[k]);
                    }
                }
                assert(links_view(links@) =~= links_view(prev).push(lv));
            }
        }
        i += 1;
    }
    assert(items_view(items@).take(items@.len() as int) =~= items_view(items@));
    links
}

/// The text segments that the steps of the text query report, in order.
pub open spec fn segments_of_items(items: Seq<QueryItemView>) -> Seq<(Seq<char>, TextRange)>
    decreases items.len(),
{
    if items.len() == 0 {
        seq![]
    } else {
        let rest = segments_of_items(items.drop_last());
        let it = items.last();
        let c = it.captures[it.capture_index as int];
        if c.name == "text"@ {
            rest.push((c.text, c.range))
        } else {
            rest
        }
    }
}

/// A segment's text is the source's text at the segment's range.
proof fn lemma_segments_read_source(items: Seq<QueryItemView>, source: Seq<char>)
    requires
        items_have_indexed_capture(items),
        captures_read_source(items, source),
    ensures
        forall|i: int|
            0 <= i < segments_of_items(items).len() ==> range_in(
                source,
                (#[trigger] segments_of_items(items)[i]).1,
            ) && segments_of_items(items)[i].0 == text_at(source, segments_of_items(items)[i].1),
    decreases items.len(),
{
    if items.len() > 0 {
        let init = items.drop_last();
        assert forall|k: int| 0 <= k < init.len() implies #[trigger] init[k].capture_index
            < init[k].captures.len() by {
            assert(init[k] == items[k]);
        }
        assert forall|k: int, m: int|
            0 <= k < init.len() && 0 <= m < init[k].captures.len() implies range_in(
                source,
                (#[trigger] init[k].captures[m]).range,
            ) && init[k].captures[m].text == text_at(source, init[k].captures[m].range) by {
            assert(init[k] == items[k]);
        }
        lemma_segments_read_source(init, source);
        let rest = segments_of_items(init);
        let it = items.last();
        let last = items.len() - 1;
        assert(items[last].capture_index < items[last].captures.len());
        let c = it.captures[it.capture_index as int];
        assert(c.text == text_at(source, c.range) && range_in(source, c.range));
        if c.name == "text"@ {
            let all = rest.push((c.text, c.range));
            assert forall|i: int| 0 <= i < all.len() implies range_in(source, (#[trigger] all[i]).1)
                && all[i].0 == text_at(source, all[i].1) by {
                if i < rest.len() {
                    assert(all[i] == rest[i]);
                }
            }
        }
    }
}

pub open spec fn segments_view(segs: Seq<TextSegment>) -> Seq<(Seq<char>, TextRange)> {
    segs.map_values(|s: TextSegment| (s.text@, s.range))
}

/// The text segments reported by the steps of the text query.
pub fn segments_from_items(items: &Vec<QueryItem>) -> (r: Vec<TextSegment>)
    requires
        items_have_indexed_capture(items_view(items@)),
    ensures
        segments_view(r@) == segments_of_items(items_view(items@)),
{
    let mut segments: Vec<TextSegment> = Vec::new();
    let mut i: usize = 0;
    while i < items.len()
        invariant
            i <= items@.len(),
            items_have_indexed_capture(items_view(items@)),
            segments_view(segments@) == segments_of_items(items_view(items@).take(i as int)),
        decreases items.len() - i,
    {
        let item = &items[i];
        assert(items_view(items@)[i as int].capture_index < items_view(items@)[i as int].captures.len());
        let capture = &item.captures[item.capture_index];
        let name = chars_of(capture.name.as_str());
        let ghost prev = segments@;
        proof {
            let next = items_view(items@).take(i + 1);
            assert(next.drop_last() =~= items_view(items@).take(i as int));
            assert(next.last() == item@);
        }
        if chars_equal_str(name.as_slice(), "text") {
            let seg = TextSegment { text: capture.text.clone(), range: capture.range };
            let ghost sv = (seg.text@, seg.range);
            segments.push(seg);
            proof {
                assert forall|k: int| 0 <= k < segments@.len() implies #[trigger] segments_view(
                    segments@,
                )[k] == segments_view(prev).push(sv)[k] by {
                    if k < prev.len() {
                        assert(segments@[k] == prev[k]);
                    }
                }
                assert(segments_view(segments@) =~= segments_view(prev).push(sv));
            }
        }
        i += 1;
    }
    assert(items_view(items@).take(items@.len() as int) =~= items_view(items@));
    segments
}

/// Why wikitext could not be read.
#[derive(Debug, Clone, Copy, PartialEq, Eq)]
pub enum WikiTextError {
    /// The wikitext grammar or one of the queries could not be loaded.
    Setup,
    /// The text could not be parsed.
    Parse,
}

/// Reads internal links and text segments out of wikitext.
pub struct WikiText {
    ready: bool,
}

impl WikiText {
    /// A reader, once the grammar and both queries load.
    pub fn new() -> (r: Result<Self, WikiTextError>)
        ensures
            r is Ok <==> wikitext_query_compiles(LINK_QUERY@) && wikitext_query_compiles(
                TEXT_QUERY@,
            ),
    {
        if compile_wikitext_query(LINK_QUERY) && compile_wikitext_query(TEXT_QUERY) {
            Ok(WikiText { ready: true })
        } else {
            Err(WikiTextError::Setup)
        }
    }

    /// The internal links of `wikitext`.
    pub fn extract_links(&mut self, wikitext: &str) -> (r: Result<Vec<WikiLink>, WikiTextError>)
        ensures
            match wikitext_query_items(LINK_QUERY@, wikitext@) {
                Some(items) => if items_have_captures(items) {
                    r matches Ok(links) && links_view(links@) == links_of_items(items) && (
                    forall|i: int|
                        0 <= i < links@.len() ==> range_in(wikitext@, (#[trigger] links@[i]).range)
                            && links@[i].title@.raw == clean_link_title(
                            text_at(wikitext@, links@[i].range),
                        ))
                } else {
                    r == Err::<Vec<WikiLink>, WikiTextError>(WikiTextError::Parse)
                },
                None => r == Err::<Vec<WikiLink>, WikiTextError>(WikiTextError::Parse),
            },
    {
        match run_wikitext_query(LINK_QUERY, wikitext) {
            Some(items) => {
                let mut i: usize = 0;
                while i < items.len()
                    invariant
                        i <= items@.len(),
                        wikitext_query_items(LINK_QUERY@, wikitext@) == Some(items_view(items@)),
                        forall|j: int| 0 <= j < i ==> #[trigger] items_view(items@)[j].captures.len() > 0,
                    decreases items.len() - i,
                {
                    if items[i].captures.len() == 0 {
                        assert(items_view(items@)[i as int].captures.len() == 0);
                        assert(!items_have_captures(items_view(items@)));
                        return Err(WikiTextError::Parse);
                    }
                    i += 1;
                }
                let links = links_from_items(&items);
                proof {
                    lemma_links_read_source(items_view(items@), wikitext@);
                    assert forall|i: int| 0 <= i < links@.len() implies range_in(
                        wikitext@,
                        (#[trigger] links@[i]).range,
                    ) && links@[i].title@.raw == clean_link_title(
                        text_at(wikitext@, links@[i].range),
                    ) by {
                        assert(links_view(links@)[i] == links@[i]@);
                    }
                }
                Ok(links)
            },
            None => Err(WikiTextError::Parse),
        }
    }

    /// The plain-text segments of the paragraphs of `wikitext`.
    pub fn extract_text(&mut self, wikitext: &str) -> (r: Result<Vec<TextSegment>, WikiTextError>)
        ensures
            match wikitext_query_items(TEXT_QUERY@, wikitext@) {
                Some(items) => if items_have_indexed_capture(items) {
                    r matches Ok(segs) && segments_view(segs@) == segments_of_items(items) && (
                    forall|i: int|
                        0 <= i < segs@.len() ==> range_in(wikitext@, (#[trigger] segs@[i]).range)
                            && segs@[i].text@ == text_at(wikitext@, segs@[i].range))
                } else {
                    r == Err::<Vec<TextSegment>, WikiTextError>(WikiTextError::Parse)
                },
                None => r == Err::<Vec<TextSegment>, WikiTextError>(WikiTextError::Parse),
            },
    {
        match run_wikitext_query(TEXT_QUERY, wikitext) {
            Some(items) => {
                let mut i: usize = 0;
                while i < items.len()
                    invariant
                        i <= items@.len(),
                        wikitext_query_items(TEXT_QUERY@, wikitext@) == Some(items_view(items@)),
                        forall|j: int|
                            0 <= j < i ==> #[trigger] items_view(items@)[j].capture_index
                                < items_view(items@)[j].captures.len(),
                    decreases items.len() - i,
                {
                    if items[i].capture_index >= items[i].captures.len() {
                        assert(items_view(items@)[i as int].capture_index
                            >= items_view(items@)[i as int].captures.len());
                        assert(!items_have_indexed_capture(items_view(items@)));
                        return Err(WikiTextError::Parse);
                    }
                    i += 1;
                }
                let segs = segments_from_items(&items);
                proof {
                    lemma_segments_read_source(items_view(items@), wikitext@);
                    assert forall|i: int| 0 <= i < segs@.len() implies range_in(
                        wikitext@,
                        (#[trigger] segs@[i]).range,
                    ) && segs@[i].text@ == text_at(wikitext@, segs@[i].range) by {
                        assert(segments_view(segs@)[i] == (segs@[i].text@, segs@[i].range));
                    }
                }
                Ok(segs)
            },
            None => Err(WikiTextError::Parse),
        }
    }
}

} // verus!
