//! Link suggestions: a text segment, the title it could link to and the
//! label that would carry the link; choosing the title for a label,
//! filtering candidates, and placing the link in the text.

use vstd::prelude::*;

use crate::text::{
    byte_len, char_index_at_byte, char_is_ascii_punct, char_is_white, char_utf8_width,
    chars_equal, chars_equal_str, chars_of, concat, copy_range, decimal, is_ascii_punct,
    is_white, lemma_byte_len_grows, lemma_byte_len_prefix, lemma_byte_len_subrange, lower_chars,
    lowercase, push_decimal, push_signed_decimal, push_text, replace_char, replace_chars, signed_decimal,
    string_from, to_lowercase, utf8_len,
};
use crate::wiki_title::{WikiTitle, WikiTitleView, normalize_title};
use crate::wikitext::{
    TextRange, TextSegment, WikiLink, WikiLinkView, links_view, push_segment_text, segment_text,
};

verus! {

broadcast use vstd::string::group_string_axioms;

/// The title that label-only suggestions carry until a title is found.
pub const PLACEHOLDER_TITLE: &'static str = "WE_WILL_FIGURE_OUT_LATER";

/// The key form of a normalized title, as titles are stored in the anchor
/// dictionary and the title filter: spaces written as underscores.
pub open spec fn title_key(n: Seq<char>) -> Seq<char> {
    replace_char(n, ' ', '_')
}

/// A title that still stands for "not found yet".
pub open spec fn is_placeholder(t: WikiTitleView) -> bool {
    title_key(t.normalized) == PLACEHOLDER_TITLE@
}

/// A candidate link: where it is, the title it points to, the text that
/// would carry it, and how often that text links to that title.
#[derive(Debug)]
pub struct LinkSuggestion {
    pub text_segment: TextSegment,
    pub title: WikiTitle,
    pub label: String,
    pub frequency: Option<i64>,
    pub frequency_max: i64,
}

/// The abstract value of a suggestion.
pub struct SuggestionView {
    pub text: Seq<char>,
    pub range: TextRange,
    pub title: WikiTitleView,
    pub label: Seq<char>,
    pub frequency: Option<i64>,
    pub frequency_max: i64,
}

impl View for LinkSuggestion {
    type V = SuggestionView;

    open spec fn view(&self) -> SuggestionView {
        SuggestionView {
            text: self.text_segment.text@,
            range: self.text_segment.range,
            title: self.title@,
            label: self.label@,
            frequency: self.frequency,
            frequency_max: self.frequency_max,
        }
    }
}

/// The key form of a title.
fn key_of(title: &WikiTitle) -> (r: Vec<char>)
    ensures
        r@ == title_key(title@.normalized),
{
    let n = chars_of(title.normalized());
    replace_chars(n.as_slice(), ' ', '_')
}

/// Whether a title is the placeholder.
pub fn title_is_placeholder(title: &WikiTitle) -> (r: bool)
    ensures
        r == is_placeholder(title@),
{
    let k = key_of(title);
    chars_equal_str(k.as_slice(), PLACEHOLDER_TITLE)
}

/// What the caller is to do next while a suggestion is being resolved
/// against the anchor dictionary.
#[derive(Debug, PartialEq, Eq)]
pub enum ProcessAction {
    /// Nothing more: the suggestion is resolved.
    Done,
    /// Look up whether an article or a redirect with this title key exists.
    CheckTitle(String),
    /// Look up the highest link frequency of the wiki with this language.
    FetchFrequencyMax(String),
}

/* ------------------------------------------------------------------ */
/* Choosing a title for a label                                         */
/* ------------------------------------------------------------------ */

/// `s` without ASCII punctuation and white space, lower-cased.
pub open spec fn stripped(s: Seq<char>) -> Seq<char> {
    lowercase(s.filter(|c: char| !is_ascii_punct(c) && !is_white(c)))
}

/// The running score of the most frequent title after `n` records: it
/// starts at that title's frequency, and loses the frequency of every
/// record whose frequency differs from the score at that point.
/// Frequencies are read as 32-bit numbers.
pub open spec fn winning_after(recs: Seq<(Seq<char>, i64)>, n: int) -> int
    decreases n,
{
    if n <= 0 {
        (recs[0].1 as i32) as int
    } else {
        let w = winning_after(recs, n - 1);
        let f = (recs[n - 1].1 as i32) as int;
        if w != f {
            w - f
        } else {
            w
        }
    }
}

/// The first record whose title links back to the source article.
pub open spec fn first_linking_back(back: Seq<bool>, n: int) -> Option<int>
    decreases n,
{
    if n <= 0 {
        None
    } else {
        match first_linking_back(back, n - 1) {
            Some(k) => Some(k),
            None => if back[n - 1] {
                Some(n - 1)
            } else {
                None
            },
        }
    }
}

/// Where the scan of the records stops: at the first record that links
/// back, or after the last one.
pub open spec fn scan_stop(back: Seq<bool>, n: int) -> int {
    match first_linking_back(back, n) {
        Some(k) => k,
        None => n,
    }
}

/// The title chosen for a label among the dictionary's most frequent titles
/// for it (`recs`, most frequent first), given which of them link back to
/// the source article (`back`): the only one; else the first that links
/// back; else the most frequent, when it outscores the others and matches
/// the label once punctuation, white space and case are ignored.
pub open spec fn chosen_title(label: Seq<char>, recs: Seq<(Seq<char>, i64)>, back: Seq<bool>) -> Option<
    (Seq<char>, i64),
> {
    if recs.len() == 0 {
        None
    } else if recs.len() == 1 {
        Some(recs[0])
    } else {
        match first_linking_back(back, recs.len() as int) {
            Some(k) => Some(recs[k]),
            None => if winning_after(recs, recs.len() as int) > 0 && stripped(label) == stripped(
                recs[0].0,
            ) {
                Some(recs[0])
            } else {
                None
            },
        }
    }
}

/// The running score stays a 32-bit number until the scan stops.
pub open spec fn score_fits(recs: Seq<(Seq<char>, i64)>, back: Seq<bool>) -> bool {
    forall|n: int|
        0 <= n <= scan_stop(back, recs.len() as int) ==> i32::MIN <= #[trigger] winning_after(
            recs,
            n,
        ) <= i32::MAX
}

pub open spec fn records_view(recs: Seq<(String, i64)>) -> Seq<(Seq<char>, i64)> {
    recs.map_values(|r: (String, i64)| (r.0@, r.1))
}

pub open spec fn opt_record_view(r: Option<(String, i64)>) -> Option<(Seq<char>, i64)> {
    match r {
        Some(x) => Some((x.0@, x.1)),
        None => None,
    }
}

/// `s` without ASCII punctuation and white space, lower-cased.
pub fn strip_punctuation(s: &str) -> (r: Vec<char>)
    ensures
        r@ == stripped(s@),
{
    let v = chars_of(s);
    let mut kept: Vec<char> = Vec::new();
    let mut i: usize = 0;
    let ghost keep = |c: char| !is_ascii_punct(c) && !is_white(c);
    while i < v.len()
        invariant
            i <= v@.len(),
            keep == (|c: char| !is_ascii_punct(c) && !is_white(c)),
            kept@ == v@.take(i as int).filter(keep),
        decreases v.len() - i,
    {
        proof {
            let next = v@.take(i + 1);
            assert(next.drop_last() =~= v@.take(i as int));
            reveal_with_fuel(Seq::filter, 1);
        }
        if !char_is_ascii_punct(v[i]) && !char_is_white(v[i]) {
            kept.push(v[i]);
        }
        i += 1;
    }
    assert(v@.take(v@.len() as int) =~= v@);
    lower_chars(kept.as_slice())
}

proof fn lemma_first_linking_back(back: Seq<bool>, n: int)
    requires
        0 <= n <= back.len(),
    ensures
        first_linking_back(back, n) matches Some(k) ==> 0 <= k < n && back[k] && forall|j: int|
            0 <= j < k ==> !back[j],
        first_linking_back(back, n) is None ==> forall|j: int| 0 <= j < n ==> !back[j],
    decreases n,
{
    if n > 0 {
        lemma_first_linking_back(back, n - 1);
    }
}

proof fn lemma_first_linking_back_prefix(back: Seq<bool>, n: int, m: int)
    requires
        0 <= n <= m <= back.len(),
        first_linking_back(back, n) is Some,
    ensures
        first_linking_back(back, m) == first_linking_back(back, n),
    decreases m - n,
{
    if m > n {
        lemma_first_linking_back_prefix(back, n, m - 1);
    }
}

proof fn lemma_scan_stop_after(back: Seq<bool>, n: int, m: int)
    requires
        0 <= n <= m <= back.len(),
        first_linking_back(back, n) is None,
    ensures
        scan_stop(back, m) >= n,
{
    lemma_first_linking_back(back, m);
    lemma_first_linking_back(back, n);
}

/// Among several dictionary titles for a label, the first that links back
/// to the source article is chosen, whatever the frequencies: the source
/// and the target are then taken to be related.
pub proof fn law_linking_back_wins(label: Seq<char>, recs: Seq<(Seq<char>, i64)>, back: Seq<bool>, k: int)
    requires
        recs.len() > 1,
        back.len() == recs.len(),
        0 <= k < recs.len(),
        back[k],
        forall|j: int| 0 <= j < k ==> !back[j],
    ensures
        chosen_title(label, recs, back) == Some(recs[k]),
{
    lemma_first_linking_back(back, recs.len() as int);
}

/// When several dictionary titles exist for a label, none links back to
/// the source article and the most frequent one keeps a positive running
/// score, that title is chosen exactly when it equals the label once ASCII
/// punctuation and white space are removed from both and both are
/// lower-cased (so titles that differ from the label only in commas,
/// periods, underscores, spaces or case are chosen); otherwise none is.
pub proof fn law_most_frequent_title_matching_label(
    label: Seq<char>,
    recs: Seq<(Seq<char>, i64)>,
    back: Seq<bool>,
)
    requires
        recs.len() > 1,
        back.len() == recs.len(),
        forall|j: int| 0 <= j < back.len() ==> !back[j],
        winning_after(recs, recs.len() as int) > 0,
    ensures
        chosen_title(label, recs, back) == (if lowercase(
            label.filter(|c: char| !is_ascii_punct(c) && !is_white(c)),
        ) == lowercase(recs[0].0.filter(|c: char| !is_ascii_punct(c) && !is_white(c))) {
            Some(recs[0])
        } else {
            None
        }),
{
    lemma_first_linking_back(back, recs.len() as int);
    assert(first_linking_back(back, recs.len() as int) is None);
}

/// When several dictionary titles exist for a label and none links back to
/// the source article, a most frequent title whose running score does not
/// stay positive is not chosen, and nothing is.
pub proof fn law_outscored_title_is_refused(
    label: Seq<char>,
    recs: Seq<(Seq<char>, i64)>,
    back: Seq<bool>,
)
    requires
        recs.len() > 1,
        back.len() == recs.len(),
        forall|j: int| 0 <= j < back.len() ==> !back[j],
        winning_after(recs, recs.len() as int) <= 0,
    ensures
        chosen_title(label, recs, back) is None,
{
    lemma_first_linking_back(back, recs.len() as int);
    assert(first_linking_back(back, recs.len() as int) is None);
}

/// With two titles of 32-bit frequencies, the running score is the first
/// frequency less the second, or the first alone when they are equal: the
/// most frequent title wins only by outscoring the other.
pub proof fn law_two_titles_score(recs: Seq<(Seq<char>, i64)>)
    requires
        recs.len() == 2,
        i32::MIN <= recs[0].1 <= i32::MAX,
        i32::MIN <= recs[1].1 <= i32::MAX,
    ensures
        winning_after(recs, 2) == (if recs[0].1 == recs[1].1 {
            recs[0].1 as int
        } else {
            recs[0].1 - recs[1].1
        }),
{
    reveal_with_fuel(winning_after, 3);
    assert((recs[0].1 as i32) as int == recs[0].1);
    assert((recs[1].1 as i32) as int == recs[1].1);
}

/// A label with a single dictionary title gets that title, and a label
/// with none gets none.
pub proof fn law_unambiguous_label(label: Seq<char>, recs: Seq<(Seq<char>, i64)>, back: Seq<bool>)
    requires
        recs.len() <= 1,
    ensures
        chosen_title(label, recs, back) == (if recs.len() == 1 {
            Some(recs[0])
        } else {
            None
        }),
{
}

/// Whether the running score of `find_title_for_label` stays a 32-bit
/// number for these records, as that function needs when there are
/// several.
pub fn scores_fit(records: &Vec<(String, i64)>, links_back: &Vec<bool>) -> (r: bool)
    requires
        links_back@.len() == records@.len(),
        records@.len() > 1,
    ensures
        r == score_fits(records_view(records@), links_back@),
{
    let ghost recs = records_view(records@);
    let ghost back = links_back@;
    proof {
        lemma_first_linking_back(back, recs.len() as int);
    }
    #[verifier::truncate]
    let first = records[0].1 as i32;
    let mut w: i64 = first as i64;
    let mut i: usize = 0;
    assert(recs[0].1 == records@[0].1);
    while i < records.len()
        invariant
            i <= records@.len(),
            records@.len() > 1,
            recs == records_view(records@),
            back == links_back@,
            back.len() == records@.len(),
            w as int == winning_after(recs, i as int),
            first_linking_back(back, i as int) is None,
            forall|n: int| 0 <= n <= i ==> i32::MIN <= #[trigger] winning_after(recs, n) <= i32::MAX,
        decreases records.len() - i,
    {
        proof {
            lemma_first_linking_back(back, i + 1);
            lemma_first_linking_back(back, i as int);
        }
        if links_back[i] {
            proof {
                assert(first_linking_back(back, i + 1) == Some(i as int));
                lemma_first_linking_back_prefix(back, i + 1, recs.len() as int);
            }
            return true;
        }
        #[verifier::truncate]
        let f = records[i].1 as i32;
        assert(recs[i as int].1 == records@[i as int].1);
        if w != f as i64 {
            w = w - f as i64;
        }
        proof {
            assert(first_linking_back(back, i + 1) is None);
            lemma_scan_stop_after(back, i + 1, recs.len() as int);
        }
        if w < i32::MIN as i64 || w > i32::MAX as i64 {
            assert(!(i32::MIN <= winning_after(recs, i + 1) <= i32::MAX));
            return false;
        }
        i += 1;
    }
    proof {
        lemma_first_linking_back(back, recs.len() as int);
    }
    true
}

/// The title of a suggestion once the label lookup found `found`.
pub open spec fn title_after_lookup(old_title: WikiTitleView, found: Option<(Seq<char>, i64)>) -> WikiTitleView {
    match found {
        Some((t, _)) => WikiTitleView {
            raw: t,
            normalized: normalize_title(t),
            language: old_title.language,
        },
        None => old_title,
    }
}

/// The frequency of a suggestion once the label lookup found `found`.
pub open spec fn frequency_after_lookup(old_frequency: Option<i64>, found: Option<(Seq<char>, i64)>) -> Option<i64> {
    match found {
        Some((_, f)) => Some(f),
        None => old_frequency,
    }
}

/* ------------------------------------------------------------------ */
/* Placing the link                                                     */
/* ------------------------------------------------------------------ */

/// The label occurs at character `i` of the text, ignoring case: the
/// characters from `i` that take up as many bytes as the label are the
/// label once both are lower-cased.
pub open spec fn label_at(text: Seq<char>, label: Seq<char>, i: int) -> bool {
    &&& 0 <= i <= text.len()
    &&& exists|m: int|
        0 <= m <= text.len() - i && #[trigger] byte_len(text.subrange(i, i + m)) == byte_len(label)
            && lowercase(text.subrange(i, i + m)) == lowercase(label)
}

/// The first character index, at or after `i`, where the label occurs in
/// the text ignoring case.
pub open spec fn label_match_from(text: Seq<char>, label: Seq<char>, i: int) -> Option<int>
    decreases text.len() + 1 - i,
{
    if i < 0 || i > text.len() {
        None
    } else if label_at(text, label, i) {
        Some(i)
    } else {
        label_match_from(text, label, i + 1)
    }
}

/// The byte offset, in the segment text, where the label first occurs
/// ignoring case.
pub open spec fn label_offset(text: Seq<char>, label: Seq<char>) -> Option<nat> {
    match label_match_from(text, label, 0) {
        Some(i) => Some(byte_len(text.take(i))),
        None => None,
    }
}

proof fn lemma_label_match_skip(text: Seq<char>, label: Seq<char>, i: int)
    requires
        0 <= i <= text.len() + 1,
        forall|j: int| 0 <= j < i ==> !label_at(text, label, j),
    ensures
        label_match_from(text, label, 0) == label_match_from(text, label, i),
    decreases i,
{
    if i > 0 {
        lemma_label_match_skip(text, label, i - 1);
    }
}

proof fn lemma_label_match_found(text: Seq<char>, label: Seq<char>, i: int)
    requires
        0 <= i <= text.len() + 1,
    ensures
        label_match_from(text, label, i) matches Some(k) ==> i <= k <= text.len() && label_at(
            text,
            label,
            k,
        ),
    decreases text.len() + 1 - i,
{
    if i <= text.len() && !label_at(text, label, i) {
        lemma_label_match_found(text, label, i + 1);
    }
}

proof fn lemma_label_match_none(text: Seq<char>, label: Seq<char>, i: int)
    requires
        0 <= i <= text.len() + 1,
        label_match_from(text, label, i) is None,
    ensures
        forall|j: int| i <= j <= text.len() ==> !label_at(text, label, j),
    decreases text.len() + 1 - i,
{
    if i <= text.len() {
        lemma_label_match_none(text, label, i + 1);
    }
}

/// The label's offset is that of its first occurrence in the segment,
/// ignoring case: a run of characters starting at character `i`, with as
/// many bytes as the label, that lower-cases to the lower-cased label. The
/// offset is the byte length of the text before the least such `i`, and
/// there is none exactly when the label occurs at no index.
pub proof fn law_label_offset_is_first_occurrence(text: Seq<char>, label: Seq<char>)
    ensures
        label_offset(text, label) is None <==> forall|i: int, m: int|
            0 <= i <= text.len() && 0 <= m <= text.len() - i ==> !(#[trigger] byte_len(
                text.subrange(i, i + m),
            ) == byte_len(label) && lowercase(text.subrange(i, i + m)) == lowercase(label)),
        forall|i: int, m: int|
            0 <= i <= text.len() && 0 <= m <= text.len() - i && #[trigger] byte_len(
                text.subrange(i, i + m),
            ) == byte_len(label) && lowercase(text.subrange(i, i + m)) == lowercase(label) && (
            forall|j: int, n: int|
                0 <= j < i && 0 <= n <= text.len() - j ==> !(#[trigger] byte_len(
                    text.subrange(j, j + n),
                ) == byte_len(label) && lowercase(text.subrange(j, j + n)) == lowercase(label)))
                ==> label_offset(text, label) == Some(byte_len(text.take(i))),
{
    match label_match_from(text, label, 0) {
        Some(k) => {
            lemma_label_match_found(text, label, 0);
            assert(label_at(text, label, k));
            let m = choose|m: int|
                0 <= m <= text.len() - k && #[trigger] byte_len(text.subrange(k, k + m))
                    == byte_len(label) && lowercase(text.subrange(k, k + m)) == lowercase(label);
            assert(byte_len(text.subrange(k, k + m)) == byte_len(label));
        },
        None => {
            lemma_label_match_none(text, label, 0);
            assert forall|i: int, m: int|
                0 <= i <= text.len() && 0 <= m <= text.len() - i implies !(#[trigger] byte_len(
                    text.subrange(i, i + m),
                ) == byte_len(label) && lowercase(text.subrange(i, i + m)) == lowercase(label)) by {
                assert(!label_at(text, label, i));
            }
        },
    }
    assert forall|i: int, m: int|
        0 <= i <= text.len() && 0 <= m <= text.len() - i && #[trigger] byte_len(
            text.subrange(i, i + m),
        ) == byte_len(label) && lowercase(text.subrange(i, i + m)) == lowercase(label) && (
        forall|j: int, n: int|
            0 <= j < i && 0 <= n <= text.len() - j ==> !(#[trigger] byte_len(
                text.subrange(j, j + n),
            ) == byte_len(label) && lowercase(text.subrange(j, j + n)) == lowercase(label)))
        implies label_offset(text, label) == Some(byte_len(text.take(i))) by {
        assert forall|j: int| 0 <= j < i implies !label_at(text, label, j) by {
            if label_at(text, label, j) {
                let n = choose|n: int|
                    0 <= n <= text.len() - j && #[trigger] byte_len(text.subrange(j, j + n))
                        == byte_len(label) && lowercase(text.subrange(j, j + n)) == lowercase(label);
                assert(byte_len(text.subrange(j, j + n)) == byte_len(label));
            }
        }
        lemma_label_match_skip(text, label, i);
        assert(label_at(text, label, i));
    }
}

/// The markup that links `label` to the title with normal form `title`:
/// `[[label]]` when they are the same, `[[title|label]]` otherwise.
pub open spec fn link_markup(title: Seq<char>, label: Seq<char>) -> Seq<char> {
    if title == label {
        seq!['[', '['] + label + seq![']', ']']
    } else {
        seq!['[', '['] + title + seq!['|'] + label + seq![']', ']']
    }
}

/// The byte offsets in the article can be counted in a `usize`.
pub open spec fn offsets_fit(start: nat, text: Seq<char>, label: Seq<char>) -> bool {
    start + byte_len(text) + byte_len(label) <= usize::MAX
}

/// Whether the label occurs at character `i` of the text ignoring case.
fn label_at_exec(v: &[char], ll: &[char], lb: usize, i: usize, Ghost(label): Ghost<Seq<char>>) -> (r: bool)
    requires
        i <= v@.len(),
        byte_len(v@) + lb <= usize::MAX,
        lb == byte_len(label),
        ll@ == lowercase(label),
    ensures
        r == label_at(v@, label, i as int),
{
    let mut acc: usize = 0;
    let mut k: usize = i;
    while k < v.len() && acc < lb
        invariant
            i <= k <= v@.len(),
            byte_len(v@) + lb <= usize::MAX,
            acc == byte_len(v@.subrange(i as int, k as int)),
            forall|m: int| 0 <= m < k - i ==> #[trigger] byte_len(v@.subrange(i as int, i + m)) < lb,
        decreases v.len() - k,
    {
        proof {
            assert(v@.subrange(i as int, k + 1).drop_last() =~= v@.subrange(i as int, k as int));
            lemma_byte_len_subrange(v@, i as int, k + 1);
            assert(v@.subrange(i as int, i + (k - i)) =~= v@.subrange(i as int, k as int));
        }
        acc = acc + char_utf8_width(v[k]);
        k += 1;
    }
    let ghost n = (k - i) as int;
    assert(v@.subrange(i as int, i + n) =~= v@.subrange(i as int, k as int));
    proof {
        assert forall|m: int|
            0 <= m <= v@.len() - i && #[trigger] byte_len(v@.subrange(i as int, i + m)) == lb
                implies m == n by {
            if m > n {
                lemma_byte_len_grows(v@, i as int, n, m);
            }
        }
    }
    if acc != lb {
        return false;
    }
    let window = copy_range(v, i, k);
    let lw = lower_chars(window.as_slice());
    let same = chars_equal(lw.as_slice(), ll);
    same
}

/// The label's byte offset in the segment, when it occurs ignoring case.
fn label_offset_exec(text: &str, label: &str) -> (r: Option<usize>)
    requires
        byte_len(text@) + byte_len(label@) <= usize::MAX,
    ensures
        match label_offset(text@, label@) {
            Some(o) => r == Some(o as usize),
            None => r is None,
        },
{
    let v = chars_of(text);
    let lv = chars_of(label);
    proof {
        lemma_byte_len_prefix(v@, 0);
    }
    let lb = utf8_len(lv.as_slice());
    let ll = lower_chars(lv.as_slice());
    let mut i: usize = 0;
    loop
        invariant
            i <= v@.len(),
            v@ == text@,
            lv@ == label@,
            lb == byte_len(label@),
            ll@ == lowercase(label@),
            byte_len(v@) + lb <= usize::MAX,
            forall|j: int| 0 <= j < i ==> !label_at(v@, label@, j),
        decreases v.len() - i,
    {
        if label_at_exec(v.as_slice(), ll.as_slice(), lb, i, Ghost(label@)) {
            proof {
                lemma_label_match_skip(v@, label@, i as int);
                lemma_byte_len_prefix(v@, i as int);
            }
            let prefix = copy_range(v.as_slice(), 0, i);
            assert(prefix@ =~= v@.take(i as int));
            return Some(utf8_len(prefix.as_slice()));
        }
        if i == v.len() {
            proof {
                lemma_label_match_skip(v@, label@, i + 1);
            }
            return None;
        }
        i += 1;
    }
}

/// Whether the segment text and the label fit a `usize` byte count, and
/// their byte lengths when they do.
fn measure(text: &str, label: &str) -> (r: Option<(usize, usize)>)
    ensures
        r matches Some((t, l)) ==> t == byte_len(text@) && l == byte_len(label@) && t + l
            <= usize::MAX,
        r is None ==> byte_len(text@) + byte_len(label@) > usize::MAX,
{
    let tv = chars_of(text);
    let lv = chars_of(label);
    let mut total: usize = 0;
    let mut i: usize = 0;
    while i < tv.len()
        invariant
            i <= tv@.len(),
            tv@ == text@,
            total == byte_len(tv@.take(i as int)),
        decreases tv.len() - i,
    {
        proof {
            assert(tv@.take(i + 1).drop_last() =~= tv@.take(i as int));
        }
        let w = char_utf8_width(tv[i]);
        if total > usize::MAX - w {
            proof {
                lemma_byte_len_prefix(tv@, i + 1);
                lemma_byte_len_prefix(label@, 0);
            }
            return None;
        }
        total = total + w;
        i += 1;
    }
    assert(tv@.take(tv@.len() as int) =~= tv@);
    let mut lab: usize = 0;
    let mut j: usize = 0;
    while j < lv.len()
        invariant
            j <= lv@.len(),
            lv@ == label@,
            total == byte_len(text@),
            total + lab <= usize::MAX,
            lab == byte_len(lv@.take(j as int)),
        decreases lv.len() - j,
    {
        proof {
            assert(lv@.take(j + 1).drop_last() =~= lv@.take(j as int));
        }
        let w = char_utf8_width(lv[j]);
        if total + lab > usize::MAX - w {
            proof {
                lemma_byte_len_prefix(lv@, j + 1);
            }
            return None;
        }
        lab = lab + w;
        j += 1;
    }
    assert(lv@.take(lv@.len() as int) =~= lv@);
    Some((total, lab))
}

impl LinkSuggestion {
    /// A suggestion to link the segment to `title`, labelled by the title as
    /// it was written.
    pub fn new(text_segment: TextSegment, title: WikiTitle) -> (r: Self)
        ensures
            r.text_segment == text_segment,
            r.title == title,
            r.label@ == title@.raw,
            r.frequency == Some(0i64),
            r.frequency_max == 0,
    {
        let label = title.raw().to_owned();
        LinkSuggestion { text_segment, title, label, frequency: Some(0), frequency_max: 0 }
    }

    /// A suggestion to link `label` in the segment to `title`.
    pub fn new_with_label(text_segment: TextSegment, title: WikiTitle, label: String) -> (r: Self)
        ensures
            r.text_segment == text_segment,
            r.title == title,
            r.label == label,
            r.frequency == Some(0i64),
            r.frequency_max == 0,
    {
        LinkSuggestion { text_segment, title, label, frequency: Some(0), frequency_max: 0 }
    }

    /// Whether the confidence score is zero by rule: a frequency of at most
    /// two, or no title found for the label. Otherwise the score grows with
    /// the logarithm of the frequency relative to the wiki's highest.
    pub fn has_zero_confidence(&self) -> (r: bool)
        requires
            self.frequency is Some,
        ensures
            r == (self.frequency->0 <= 2 || is_placeholder(self.title@)),
    {
        match self.frequency {
            Some(f) => f <= 2 || title_is_placeholder(&self.title),
            None => true,
        }
    }

    /// Chooses the title for this suggestion's label from the dictionary's
    /// most frequent titles for it (`records`, most frequent first, with
    /// their frequencies) and whether each links back to the source article
    /// (`links_back`).
    pub fn find_title_for_label(&self, records: &Vec<(String, i64)>, links_back: &Vec<bool>) -> (r:
        Option<(String, i64)>)
        requires
            links_back@.len() == records@.len(),
            records@.len() > 1 ==> score_fits(records_view(records@), links_back@),
        ensures
            opt_record_view(r) == chosen_title(self.label@, records_view(records@), links_back@),
    {
        let ghost recs = records_view(records@);
        if records.len() == 0 {
            return None;
        }
        if records.len() == 1 {
            return Some((records[0].0.clone(), records[0].1));
        }
        proof {
            assert(winning_after(recs, 0) == (recs[0].1 as i32) as int);
        }
        #[verifier::truncate]
        let first = records[0].1 as i32;
        let mut winning: i32 = first;
        let mut i: usize = 0;
        while i < records.len()
            invariant
                i <= records@.len(),
                records@.len() > 1,
                recs == records_view(records@),
                links_back@.len() == records@.len(),
                score_fits(recs, links_back@),
                first_linking_back(links_back@, i as int) is None,
                winning as int == winning_after(recs, i as int),
            decreases records.len() - i,
        {
            proof {
                lemma_first_linking_back(links_back@, records@.len() as int);
                lemma_first_linking_back(links_back@, i as int);
                lemma_first_linking_back(links_back@, i + 1);
            }
            if links_back[i] {
                proof {
                    assert(first_linking_back(links_back@, i + 1) == Some(i as int));
                    lemma_first_linking_back_prefix(links_back@, i + 1, records@.len() as int);
                }
                return Some((records[i].0.clone(), records[i].1));
            }
            #[verifier::truncate]
            let f = records[i].1 as i32;
            proof {
                assert(first_linking_back(links_back@, i + 1) is None);
                lemma_scan_stop_after(links_back@, i + 1, records@.len() as int);
                assert(i32::MIN <= winning_after(recs, i + 1) <= i32::MAX);
                assert(recs[i as int].1 == records@[i as int].1);
            }
            if winning != f {
                winning = winning - f;
            }
            i += 1;
        }
        proof {
            assert(first_linking_back(links_back@, records@.len() as int) is None);
        }
        let label_key = strip_punctuation(self.label.as_str());
        let first_key = strip_punctuation(records[0].0.as_str());
        if winning > 0 && chars_equal(label_key.as_slice(), first_key.as_slice()) {
            Some((records[0].0.clone(), records[0].1))
        } else {
            None
        }
    }

    /// The text under which the dictionary is searched for this
    /// suggestion's label: the label in lower case, as labels are stored.
    pub fn label_lookup_key(&self) -> (r: String)
        ensures
            r@ == lowercase(self.label@),
    {
        to_lowercase(self.label.as_str())
    }

    /// Takes the outcome of the label lookup: the found title and its
    /// frequency replace the suggestion's. A suggestion left with frequency
    /// zero, or with an empty title, is resolved (the latter with frequency
    /// zero); otherwise the title is to be checked.
    pub fn apply_title_lookup(&mut self, found: Option<(String, i64)>) -> (r: ProcessAction)
        ensures
            final(self).title@ == title_after_lookup(old(self).title@, opt_record_view(found)),
            final(self).label == old(self).label,
            final(self).text_segment == old(self).text_segment,
            final(self).frequency_max == old(self).frequency_max,
            ({
                let f = frequency_after_lookup(old(self).frequency, opt_record_view(found));
                let t = title_after_lookup(old(self).title@, opt_record_view(found));
                if f == Some(0i64) {
                    r == ProcessAction::Done && final(self).frequency == f
                } else if t.normalized.len() == 0 {
                    r == ProcessAction::Done && final(self).frequency == Some(0i64)
                } else {
                    final(self).frequency == f && (r matches ProcessAction::CheckTitle(key) && key@
                        == title_key(t.normalized))
                }
            }),
    {
        if let Some((t, f)) = found {
            let language = self.title.language().clone();
            let title = WikiTitle::new(t.as_str(), language);
            assert(title@.language == old(self).title@.language);
            assert(title@.raw == t@);
            self.title = title;
            self.frequency = Some(f);
        }
        if self.frequency == Some(0i64) {
            return ProcessAction::Done;
        }
        if !self.title.is_valid() {
            self.frequency = Some(0);
            return ProcessAction::Done;
        }
        let k = key_of(&self.title);
        ProcessAction::CheckTitle(string_from(k.as_slice()))
    }

    /// Takes whether the title is known, as an article with links or as a
    /// redirect. An unknown title leaves the suggestion with frequency zero;
    /// a known one needs the wiki's highest frequency next.
    pub fn apply_title_existence(&mut self, in_links: bool, in_redirects: bool) -> (r: ProcessAction)
        ensures
            final(self).title == old(self).title,
            final(self).label == old(self).label,
            final(self).text_segment == old(self).text_segment,
            final(self).frequency_max == old(self).frequency_max,
            in_links || in_redirects ==> (final(self).frequency == old(self).frequency && (r matches ProcessAction::FetchFrequencyMax(lang) && lang@ == old(self).title@.language)),
            !(in_links || in_redirects) ==> final(self).frequency == Some(0i64) && r == ProcessAction::Done,
    {
        if !(in_links || in_redirects) {
            self.frequency = Some(0);
            return ProcessAction::Done;
        }
        ProcessAction::FetchFrequencyMax(self.title.language().clone())
    }

    /// The byte offsets of the label in the article and the link markup
    /// that replaces it, when the offsets fit a `usize` (`None` when they do
    /// not). `(0, 0, "")` when the label does not occur in the segment.
    pub fn checked_link_edit_positions(&self) -> (r: Option<(usize, usize, String)>)
        ensures
            offsets_fit(self.text_segment.range.start_byte as nat, self.text_segment.text@, self.label@)
                ==> (r matches Some((s, e, m)) && match label_offset(self.text_segment.text@, self.label@) {
                Some(o) => s == self.text_segment.range.start_byte + o && e == s + byte_len(
                    self.label@,
                ) && m@ == link_markup(self.title@.normalized, self.label@),
                None => s == 0 && e == 0 && m@.len() == 0,
            }),
            !offsets_fit(self.text_segment.range.start_byte as nat, self.text_segment.text@, self.label@) ==> r is None,
    {
        let start = self.text_segment.range.start_byte;
        let (tb, lb) = match measure(self.text_segment.text.as_str(), self.label.as_str()) {
            Some(m) => m,
            None => return None,
        };
        if start > usize::MAX - tb - lb {
            return None;
        }
        match label_offset_exec(self.text_segment.text.as_str(), self.label.as_str()) {
            Some(o) => {
                proof {
                    let t = self.text_segment.text@;
                    lemma_label_match_found(t, self.label@, 0);
                    lemma_byte_len_prefix(t, label_match_from(t, self.label@, 0)->0);
                }
                let s = start + o;
                let e = s + lb;
                let key = chars_of(self.title.normalized());
                let label = chars_of(self.label.as_str());
                let open2 = vec!['[', '['];
                let close2 = vec![']', ']'];
                let markup = if chars_equal(key.as_slice(), label.as_slice()) {
                    let a = concat(open2.as_slice(), label.as_slice());
                    concat(a.as_slice(), close2.as_slice())
                } else {
                    let bar = vec!['|'];
                    let a = concat(open2.as_slice(), key.as_slice());
                    let b = concat(a.as_slice(), bar.as_slice());
                    let c = concat(b.as_slice(), label.as_slice());
                    concat(c.as_slice(), close2.as_slice())
                };
                assert(markup@ =~= link_markup(key@, label@));
                Some((s, e, string_from(markup.as_slice())))
            },
            None => Some((0, 0, String::new())),
        }
    }

    /// Calculates the byte positions required to convert the label to an
    /// internal link: where the label starts and ends in the article (the
    /// segment's start plus the byte offset in the segment where the label
    /// first occurs ignoring case),
    /// and the markup to replace it with. `(0, 0, "")` when the label does
    /// not occur in the segment.
    pub fn calculate_link_edit_positions(&self) -> (r: Option<(usize, usize, String)>)
        requires
            offsets_fit(self.text_segment.range.start_byte as nat, self.text_segment.text@, self.label@),
        ensures
            r matches Some((s, e, m)) && match label_offset(self.text_segment.text@, self.label@) {
                Some(o) => s == self.text_segment.range.start_byte + o && e == s + byte_len(
                    self.label@,
                ) && m@ == link_markup(self.title@.normalized, self.label@),
                None => s == 0 && e == 0 && m@.len() == 0,
            },
    {
        self.checked_link_edit_positions()
    }

    /// The character offset in `full_text` where the label starts, when the
    /// offsets fit a `usize` and the byte offset falls between characters of
    /// `full_text` (`None` otherwise). `Some(0)` when the label does not
    /// occur in the segment.
    pub fn checked_link_char_offset(&self, full_text: &String) -> (r: Option<usize>)
        ensures
            if offsets_fit(self.text_segment.range.start_byte as nat, self.text_segment.text@, self.label@) {
                match label_offset(self.text_segment.text@, self.label@) {
                    Some(o) => match char_index_at_byte(full_text@, self.text_segment.range.start_byte + o) {
                        Some(k) => r == Some(k as usize),
                        None => r is None,
                    },
                    None => r == Some(0usize),
                }
            } else {
                r is None
            },
    {
        let start = self.text_segment.range.start_byte;
        let fits = match measure(self.text_segment.text.as_str(), self.label.as_str()) {
            Some((tb, lb)) => start <= usize::MAX - tb - lb,
            None => false,
        };
        if !fits {
            return None;
        }
        match label_offset_exec(self.text_segment.text.as_str(), self.label.as_str()) {
            None => Some(0),
            Some(o) => {
                proof {
                    let t = self.text_segment.text@;
                    lemma_label_match_found(t, self.label@, 0);
                    lemma_byte_len_prefix(t, label_match_from(t, self.label@, 0)->0);
                }
                char_index_of_byte(full_text.as_str(), start + o)
            },
        }
    }

    /// Returns the character offset in `full_text` where the label starts:
    /// the segment's start plus the byte offset in the segment where the label
    /// first occurs ignoring case, counted in characters of `full_text`. `Some(0)` when the
    /// label does not occur in the segment.
    pub fn calculate_link_positions_with_char_indices(&self, full_text: &String) -> (r: Option<usize>)
        requires
            offsets_fit(self.text_segment.range.start_byte as nat, self.text_segment.text@, self.label@),
            label_offset(self.text_segment.text@, self.label@) matches Some(o) ==> char_index_at_byte(
                full_text@,
                self.text_segment.range.start_byte + o,
            ) is Some,
        ensures
            match label_offset(self.text_segment.text@, self.label@) {
                Some(o) => r == Some(char_index_at_byte(full_text@, self.text_segment.range.start_byte + o)->0 as usize),
                None => r == Some(0usize),
            },
    {
        self.checked_link_char_offset(full_text)
    }
}

/// The number of characters in the first `b` bytes of `s`, when `b` falls
/// between characters.
fn char_index_of_byte(s: &str, b: usize) -> (r: Option<usize>)
    ensures
        match char_index_at_byte(s@, b as int) {
            Some(k) => r == Some(k as usize),
            None => r is None,
        },
{
    let v = chars_of(s);
    assert(v@.skip(0) =~= v@);
    let mut rest: usize = b;
    let mut i: usize = 0;
    while i < v.len() && rest > 0
        invariant
            i <= v@.len(),
            v@ == s@,
            match char_index_at_byte(v@.skip(i as int), rest as int) {
                Some(k) => char_index_at_byte(v@, b as int) == Some((k + i) as nat),
                None => char_index_at_byte(v@, b as int) is None,
            },
        decreases v.len() - i,
    {
        let w = char_utf8_width(v[i]);
        if rest < w {
            return None;
        }
        proof {
            assert(v@.skip(i as int).drop_first() =~= v@.skip(i + 1));
            assert(v@.skip(i as int)[0] == v@[i as int]);
        }
        rest = rest - w;
        i += 1;
    }
    if rest == 0 {
        Some(i)
    } else {
        assert(v@.skip(i as int).len() == 0);
        None
    }
}


/* ------------------------------------------------------------------ */
/* Identity and order                                                   */
/* ------------------------------------------------------------------ */

/// Two suggestions are the same when they have the same title, or, while
/// the first has no title yet, the same label.
pub open spec fn same_suggestion(a: SuggestionView, b: SuggestionView) -> bool {
    if is_placeholder(a.title) {
        a.label == b.label
    } else {
        a.title.normalized == b.title.normalized
    }
}

/// Lexicographic order of character sequences: -1, 0 or 1.
pub open spec fn lex_compare(a: Seq<char>, b: Seq<char>) -> int
    decreases a.len(),
{
    if a.len() == 0 {
        if b.len() == 0 {
            0
        } else {
            -1
        }
    } else if b.len() == 0 {
        1
    } else if a[0] < b[0] {
        -1
    } else if a[0] > b[0] {
        1
    } else {
        lex_compare(a.drop_first(), b.drop_first())
    }
}

/// Order of suggestions: by where their segment starts, then by label.
pub open spec fn suggestion_compare(a: SuggestionView, b: SuggestionView) -> int {
    if a.range.start_byte < b.range.start_byte {
        -1
    } else if a.range.start_byte > b.range.start_byte {
        1
    } else {
        lex_compare(a.label, b.label)
    }
}

/// Lexicographic comparison of two strings by characters: -1, 0 or 1.
pub fn compare_text(a: &str, b: &str) -> (r: i8)
    ensures
        r == lex_compare(a@, b@),
{
    let av = chars_of(a);
    let bv = chars_of(b);
    let mut i: usize = 0;
    assert(av@.skip(0) =~= av@ && bv@.skip(0) =~= bv@);
    while i < av.len() && i < bv.len() && av[i] == bv[i]
        invariant
            i <= av@.len(),
            i <= bv@.len(),
            lex_compare(a@, b@) == lex_compare(av@.skip(i as int), bv@.skip(i as int)),
            av@ == a@,
            bv@ == b@,
        decreases av.len() - i,
    {
        proof {
            assert(av@.skip(i as int).drop_first() =~= av@.skip(i + 1));
            assert(bv@.skip(i as int).drop_first() =~= bv@.skip(i + 1));
        }
        i += 1;
    }
    if i == av.len() {
        if i == bv.len() {
            0
        } else {
            -1
        }
    } else if i == bv.len() {
        1
    } else if av[i] < bv[i] {
        -1
    } else {
        1
    }
}

impl LinkSuggestion {
    /// Whether two suggestions are the same: the same title, or, while this
    /// one has no title yet, the same label.
    pub fn eq(&self, other: &Self) -> (r: bool)
        ensures
            r == same_suggestion(self@, other@),
    {
        if title_is_placeholder(&self.title) {
            let a = chars_of(self.label.as_str());
            let b = chars_of(other.label.as_str());
            chars_equal(a.as_slice(), b.as_slice())
        } else {
            self.title.equals(&other.title)
        }
    }

    /// Order of suggestions: by segment start, then by label (-1, 0 or 1).
    pub fn compare(&self, other: &Self) -> (r: i8)
        ensures
            r == suggestion_compare(self@, other@),
    {
        if self.text_segment.range.start_byte < other.text_segment.range.start_byte {
            -1
        } else if self.text_segment.range.start_byte > other.text_segment.range.start_byte {
            1
        } else {
            compare_text(self.label.as_str(), other.label.as_str())
        }
    }
}

/* ------------------------------------------------------------------ */
/* Showing a suggestion                                                 */
/* ------------------------------------------------------------------ */

/// The edit that `checked_link_edit_positions` answers for a suggestion.
pub open spec fn edit_of(v: SuggestionView) -> Option<(nat, nat, Seq<char>)> {
    if offsets_fit(v.range.start_byte as nat, v.text, v.label) {
        match label_offset(v.text, v.label) {
            Some(o) => Some(
                (
                    (v.range.start_byte + o) as nat,
                    (v.range.start_byte + o + byte_len(v.label)) as nat,
                    link_markup(v.title.normalized, v.label),
                ),
            ),
            None => Some((0, 0, seq![])),
        }
    } else {
        None
    }
}

/// `Some(n)` or `None`, as `Debug` writes an optional number.
pub open spec fn optional_number_text(f: Option<i64>) -> Seq<char> {
    match f {
        Some(x) => "Some("@ + signed_decimal(x as int) + seq![')'],
        None => "None"@,
    }
}

/// The line that shows an edit, if there is one.
pub open spec fn edit_text(edit: Option<(nat, nat, Seq<char>)>) -> Seq<char> {
    match edit {
        Some((s, e, m)) => "Edit: bytes "@ + decimal(s) + seq!['.', '.'] + decimal(e) + " -> '"@ + m
            + seq!['\'', '\n'],
        None => seq![],
    }
}

/// The lines that show a suggestion, up to its confidence score: the
/// segment, the suggested link, the edit (when its offsets fit) and the
/// frequency.
pub open spec fn description_of(v: SuggestionView) -> Seq<char> {
    segment_text("Segment"@, v.range, v.text) + seq!['\n'] + "Suggestion: [["@ + v.title.normalized
        + seq!['|'] + v.label + seq![']', ']', '\n'] + edit_text(edit_of(v)) + "frequency: "@
        + optional_number_text(v.frequency) + seq!['\n']
}

pub open spec fn edit_view(edit: Option<(usize, usize, String)>) -> Option<(nat, nat, Seq<char>)> {
    match edit {
        Some((s, e, m)) => Some((s as nat, e as nat, m@)),
        None => None,
    }
}

/// Appends the line of an edit.
fn push_edit_text(out: &mut Vec<char>, edit: Option<(usize, usize, String)>)
    ensures
        final(out)@ == old(out)@ + edit_text(edit_view(edit)),
{
    match edit {
        Some((s, e, m)) => {
            push_text(out, "Edit: bytes ");
            push_decimal(out, s as u64);
            out.push('.');
            out.push('.');
            push_decimal(out, e as u64);
            push_text(out, " -> '");
            push_text(out, m.as_str());
            out.push('\'');
            out.push('\n');
            assert(final(out)@ =~= old(out)@ + edit_text(Some((s as nat, e as nat, m@))));
        },
        None => {
            assert(final(out)@ =~= old(out)@ + edit_text(None));
        },
    }
}

/// Appends an optional number as `Debug` writes it.
fn push_optional_number(out: &mut Vec<char>, f: Option<i64>)
    ensures
        final(out)@ == old(out)@ + optional_number_text(f),
{
    match f {
        Some(x) => {
            push_text(out, "Some(");
            push_signed_decimal(out, x);
            out.push(')');
            assert(final(out)@ =~= old(out)@ + optional_number_text(f));
        },
        None => {
            push_text(out, "None");
        },
    }
}

impl LinkSuggestion {
    /// How the suggestion is shown, up to its confidence score.
    pub fn describe(&self) -> (r: String)
        ensures
            r@ == description_of(self@),
    {
        let mut out: Vec<char> = Vec::new();
        push_segment_text(
            &mut out,
            "Segment",
            self.text_segment.range,
            self.text_segment.text.as_str(),
        );
        out.push('\n');
        push_text(&mut out, "Suggestion: [[");
        push_text(&mut out, self.title.normalized());
        out.push('|');
        push_text(&mut out, self.label.as_str());
        out.push(']');
        out.push(']');
        out.push('\n');
        let edit = self.checked_link_edit_positions();
        assert(edit_view(edit) == edit_of(self@));
        push_edit_text(&mut out, edit);
        push_text(&mut out, "frequency: ");
        push_optional_number(&mut out, self.frequency);
        out.push('\n');
        assert(out@ =~= description_of(self@));
        string_from(out.as_slice())
    }
}

/* ------------------------------------------------------------------ */
/* Filtering candidates                                                 */
/* ------------------------------------------------------------------ */

/// A character of a number as written in a title: a digit or a separator.
pub open spec fn is_number_char(c: char) -> bool {
    ('0' <= c && c <= '9') || c == '.' || c == ',' || c == '-' || c == '+' || c == ' '
}

/// A title that is purely numeric: digits, with nothing but separators
/// around and between them.
pub open spec fn is_numeric_title(n: Seq<char>) -> bool {
    &&& exists|i: int| 0 <= i < n.len() && '0' <= #[trigger] n[i] && n[i] <= '9'
    &&& forall|i: int| 0 <= i < n.len() ==> is_number_char(#[trigger] n[i])
}

/// Whether a title is purely numeric.
pub fn numeric_title(n: &[char]) -> (r: bool)
    ensures
        r == is_numeric_title(n@),
{
    let mut digit = false;
    let mut i: usize = 0;
    while i < n.len()
        invariant
            i <= n@.len(),
            forall|j: int| 0 <= j < i ==> is_number_char(#[trigger] n@[j]),
            digit <==> exists|j: int| 0 <= j < i && '0' <= #[trigger] n@[j] && n@[j] <= '9',
        decreases n.len() - i,
    {
        let c = n[i];
        if !(('0' <= c && c <= '9') || c == '.' || c == ',' || c == '-' || c == '+' || c == ' ') {
            assert(!is_number_char(n@[i as int]));
            return false;
        }
        if '0' <= c && c <= '9' {
            digit = true;
        }
        i += 1;
    }
    digit
}

/// The common stop words that are not linked. The list is English only.
pub open spec fn is_stop_word(w: Seq<char>) -> bool {
    ||| w == "a"@
    ||| w == "an"@
    ||| w == "the"@
    ||| w == "and"@
    ||| w == "or"@
    ||| w == "but"@
    ||| w == "if"@
    ||| w == "of"@
    ||| w == "in"@
    ||| w == "on"@
    ||| w == "at"@
    ||| w == "to"@
    ||| w == "for"@
    ||| w == "from"@
    ||| w == "by"@
    ||| w == "with"@
    ||| w == "as"@
    ||| w == "is"@
    ||| w == "are"@
    ||| w == "was"@
    ||| w == "were"@
    ||| w == "be"@
    ||| w == "been"@
    ||| w == "it"@
    ||| w == "its"@
    ||| w == "this"@
    ||| w == "that"@
    ||| w == "these"@
    ||| w == "those"@
    ||| w == "he"@
    ||| w == "she"@
    ||| w == "they"@
    ||| w == "we"@
    ||| w == "you"@
    ||| w == "not"@
    ||| w == "no"@
}

/// Whether a word is a common stop word.
pub fn stop_word(w: &[char]) -> (r: bool)
    ensures
        r == is_stop_word(w@),
{
    chars_equal_str(w, "a") || chars_equal_str(w, "an") || chars_equal_str(w, "the")
        || chars_equal_str(w, "and") || chars_equal_str(w, "or") || chars_equal_str(w, "but")
        || chars_equal_str(w, "if") || chars_equal_str(w, "of") || chars_equal_str(w, "in")
        || chars_equal_str(w, "on") || chars_equal_str(w, "at") || chars_equal_str(w, "to")
        || chars_equal_str(w, "for") || chars_equal_str(w, "from") || chars_equal_str(w, "by")
        || chars_equal_str(w, "with") || chars_equal_str(w, "as") || chars_equal_str(w, "is")
        || chars_equal_str(w, "are") || chars_equal_str(w, "was") || chars_equal_str(w, "were")
        || chars_equal_str(w, "be") || chars_equal_str(w, "been") || chars_equal_str(w, "it")
        || chars_equal_str(w, "its") || chars_equal_str(w, "this") || chars_equal_str(w, "that")
        || chars_equal_str(w, "these") || chars_equal_str(w, "those") || chars_equal_str(w, "he")
        || chars_equal_str(w, "she") || chars_equal_str(w, "they") || chars_equal_str(w, "we")
        || chars_equal_str(w, "you") || chars_equal_str(w, "not") || chars_equal_str(w, "no")
}

/// The last of `cands` survives filtering: its label is new among the
/// candidates before it, no existing link goes to its title, it does not
/// point to the current article (by normal form, title key or as written),
/// its title is not purely numeric, and neither its title nor its label is
/// a stop word (ignoring case).
pub open spec fn survives(cands: Seq<LinkSuggestion>, links: Seq<WikiLinkView>, current: Seq<char>) -> bool {
    let c = cands.last();
    let earlier = cands.drop_last();
    &&& forall|j: int| 0 <= j < earlier.len() ==> (#[trigger] earlier[j]).label@ != c.label@
    &&& forall|k: int| 0 <= k < links.len() ==> (#[trigger] links[k]).title.normalized != c.title@.normalized
    &&& c.title@.normalized != current
    &&& title_key(c.title@.normalized) != current
    &&& c.title@.raw != current
    &&& !is_numeric_title(c.title@.normalized)
    &&& !is_stop_word(lowercase(c.title@.normalized))
    &&& !is_stop_word(lowercase(c.label@))
}

/// The candidates that survive filtering, in order.
pub open spec fn filtered(cands: Seq<LinkSuggestion>, links: Seq<WikiLinkView>, current: Seq<char>) -> Seq<
    LinkSuggestion,
>
    decreases cands.len(),
{
    if cands.len() == 0 {
        seq![]
    } else {
        let rest = filtered(cands.drop_last(), links, current);
        if survives(cands, links, current) {
            rest.push(cands.last())
        } else {
            rest
        }
    }
}

/// What a kept suggestion shows on its own: it does not point to the
/// current article (by normal form, key or as written), its title is not
/// purely numeric, and neither its title nor its label is a stop word.
pub open spec fn kept_alone(c: LinkSuggestion, current: Seq<char>) -> bool {
    &&& c.title@.normalized != current
    &&& title_key(c.title@.normalized) != current
    &&& c.title@.raw != current
    &&& !is_numeric_title(c.title@.normalized)
    &&& !is_stop_word(lowercase(c.title@.normalized))
    &&& !is_stop_word(lowercase(c.label@))
}

/// What filtering leaves: suggestions taken from the candidates, no two
/// with the same label, none to a title the article already links to, none
/// that points to the article itself, none with a purely numeric title and
/// none that is a stop word.
pub proof fn law_filtered_suggestions(
    cands: Seq<LinkSuggestion>,
    links: Seq<WikiLinkView>,
    current: Seq<char>,
)
    ensures
        forall|i: int|
            0 <= i < filtered(cands, links, current).len() ==> cands.contains(
                #[trigger] filtered(cands, links, current)[i],
            ),
        forall|i: int, j: int|
            0 <= i < j < filtered(cands, links, current).len() ==> (#[trigger] filtered(
                cands,
                links,
                current,
            )[i]).label@ != (#[trigger] filtered(cands, links, current)[j]).label@,
        forall|i: int, k: int|
            0 <= i < filtered(cands, links, current).len() && 0 <= k < links.len() ==> (
            #[trigger] links[k]).title.normalized != (#[trigger] filtered(
                cands,
                links,
                current,
            )[i]).title@.normalized,
        forall|i: int|
            0 <= i < filtered(cands, links, current).len() ==> kept_alone(
                #[trigger] filtered(cands, links, current)[i],
                current,
            ),
    decreases cands.len(),
{
    if cands.len() > 0 {
        let earlier = cands.drop_last();
        let c = cands.last();
        let rest = filtered(earlier, links, current);
        let f = filtered(cands, links, current);
        law_filtered_suggestions(earlier, links, current);
        assert forall|i: int| 0 <= i < rest.len() implies cands.contains(#[trigger] rest[i]) by {
            let j = choose|j: int| 0 <= j < earlier.len() && earlier[j] == rest[i];
            assert(cands[j] == earlier[j]);
        }
        if survives(cands, links, current) {
            assert(f == rest.push(c));
            assert forall|i: int| 0 <= i < f.len() implies cands.contains(#[trigger] f[i]) by {
                if i < rest.len() {
                    assert(f[i] == rest[i]);
                } else {
                    assert(cands[cands.len() - 1] == c);
                }
            }
            assert forall|i: int, j: int| 0 <= i < j < f.len() implies (#[trigger] f[i]).label@
                != (#[trigger] f[j]).label@ by {
                if j < rest.len() {
                    assert(f[i] == rest[i] && f[j] == rest[j]);
                } else {
                    assert(f[i] == rest[i]);
                    let m = choose|m: int| 0 <= m < earlier.len() && earlier[m] == rest[i];
                    assert(earlier[m].label@ != c.label@);
                }
            }
            assert forall|i: int, k: int| 0 <= i < f.len() && 0 <= k < links.len() implies (
            #[trigger] links[k]).title.normalized != (#[trigger] f[i]).title@.normalized by {
                if i < rest.len() {
                    assert(f[i] == rest[i]);
                }
            }
            assert forall|i: int| 0 <= i < f.len() implies kept_alone(#[trigger] f[i], current) by {
                if i < rest.len() {
                    assert(f[i] == rest[i]);
                }
            }
        }
    }
}

/// Filtering loses nothing it should keep: a candidate whose label no
/// earlier candidate has, whose title no existing link goes to, that does
/// not point to the current article (by normal form, title key or as
/// written), whose title is not purely numeric, and whose title and label
/// are no stop words, appears in what filtering leaves.
pub proof fn law_filter_keeps_eligible(
    cands: Seq<LinkSuggestion>,
    links: Seq<WikiLinkView>,
    current: Seq<char>,
    i: int,
)
    requires
        0 <= i < cands.len(),
        forall|j: int| 0 <= j < i ==> (#[trigger] cands[j]).label@ != cands[i].label@,
        forall|k: int|
            0 <= k < links.len() ==> (#[trigger] links[k]).title.normalized
                != cands[i].title@.normalized,
        cands[i].title@.normalized != current,
        title_key(cands[i].title@.normalized) != current,
        cands[i].title@.raw != current,
        !is_numeric_title(cands[i].title@.normalized),
        !is_stop_word(lowercase(cands[i].title@.normalized)),
        !is_stop_word(lowercase(cands[i].label@)),
    ensures
        filtered(cands, links, current).contains(cands[i]),
    decreases cands.len(),
{
    let earlier = cands.drop_last();
    let rest = filtered(earlier, links, current);
    let f = filtered(cands, links, current);
    if i == cands.len() - 1 {
        assert forall|j: int| 0 <= j < earlier.len() implies (#[trigger] earlier[j]).label@
            != cands.last().label@ by {
            assert(earlier[j] == cands[j]);
        }
        assert(survives(cands, links, current));
        assert(f == rest.push(cands.last()));
        assert(f[rest.len() as int] == cands[i]);
    } else {
        assert forall|j: int| 0 <= j < i implies (#[trigger] earlier[j]).label@
            != earlier[i].label@ by {
            assert(earlier[j] == cands[j]);
        }
        law_filter_keeps_eligible(earlier, links, current, i);
        assert(earlier[i] == cands[i]);
        let m = choose|m: int| 0 <= m < rest.len() && rest[m] == cands[i];
        if survives(cands, links, current) {
            assert(f == rest.push(cands.last()));
            assert(f[m] == rest[m]);
        }
    }
}

proof fn lemma_filtered_positions(
    cands: Seq<LinkSuggestion>,
    links: Seq<WikiLinkView>,
    current: Seq<char>,
) -> (idx: Seq<int>)
    ensures
        idx.len() == filtered(cands, links, current).len(),
        forall|i: int|
            0 <= i < idx.len() ==> 0 <= #[trigger] idx[i] < cands.len() && filtered(
                cands,
                links,
                current,
            )[i] == cands[idx[i]],
        forall|i: int, j: int| 0 <= i < j < idx.len() ==> #[trigger] idx[i] < #[trigger] idx[j],
    decreases cands.len(),
{
    if cands.len() == 0 {
        seq![]
    } else {
        let earlier = cands.drop_last();
        let rest = filtered(earlier, links, current);
        let r = lemma_filtered_positions(earlier, links, current);
        assert forall|i: int| 0 <= i < r.len() implies cands[r[i]] == earlier[r[i]] by {}
        if survives(cands, links, current) {
            let idx = r.push(cands.len() - 1);
            let f = filtered(cands, links, current);
            assert(f == rest.push(cands.last()));
            assert forall|i: int| 0 <= i < idx.len() implies 0 <= #[trigger] idx[i] < cands.len()
                && f[i] == cands[idx[i]] by {
                if i < r.len() {
                    assert(idx[i] == r[i]);
                    assert(f[i] == rest[i]);
                }
            }
            assert forall|i: int, j: int| 0 <= i < j < idx.len() implies #[trigger] idx[i]
                < #[trigger] idx[j] by {
                assert(idx[i] == r[i]);
                if j < r.len() {
                    assert(idx[j] == r[j]);
                }
            }
            idx
        } else {
            r
        }
    }
}

/// Filtering keeps the candidates' order: what it leaves is the candidates
/// at strictly increasing positions.
pub proof fn law_filter_keeps_order(
    cands: Seq<LinkSuggestion>,
    links: Seq<WikiLinkView>,
    current: Seq<char>,
)
    ensures
        exists|idx: Seq<int>|
            #![trigger idx.len()]
            {
                &&& idx.len() == filtered(cands, links, current).len()
                &&& forall|i: int|
                    0 <= i < idx.len() ==> 0 <= #[trigger] idx[i] < cands.len() && filtered(
                        cands,
                        links,
                        current,
                    )[i] == cands[idx[i]]
                &&& forall|i: int, j: int|
                    0 <= i < j < idx.len() ==> #[trigger] idx[i] < #[trigger] idx[j]
            },
{
    let idx = lemma_filtered_positions(cands, links, current);
    assert(idx.len() == filtered(cands, links, current).len());
}

/// The suggestions, in order, whose title no link in `links` goes to.
pub open spec fn unlinked(sugs: Seq<LinkSuggestion>, links: Seq<WikiLinkView>) -> Seq<LinkSuggestion>
    decreases sugs.len(),
{
    if sugs.len() == 0 {
        seq![]
    } else {
        let rest = unlinked(sugs.drop_last(), links);
        if forall|k: int|
            0 <= k < links.len() ==> (#[trigger] links[k]).title.normalized
                != sugs.last().title@.normalized {
            rest.push(sugs.last())
        } else {
            rest
        }
    }
}

proof fn lemma_unlinked(sugs: Seq<LinkSuggestion>, links: Seq<WikiLinkView>)
    ensures
        forall|i: int, k: int|
            0 <= i < unlinked(sugs, links).len() && 0 <= k < links.len() ==> (
            #[trigger] links[k]).title.normalized != (
            #[trigger] unlinked(sugs, links)[i]).title@.normalized,
    decreases sugs.len(),
{
    if sugs.len() > 0 {
        lemma_unlinked(sugs.drop_last(), links);
        let rest = unlinked(sugs.drop_last(), links);
        let u = unlinked(sugs, links);
        assert forall|i: int, k: int| 0 <= i < u.len() && 0 <= k < links.len() implies (
        #[trigger] links[k]).title.normalized != (#[trigger] u[i]).title@.normalized by {
            if i < rest.len() {
                assert(u[i] == rest[i]);
            }
        }
    }
}

/// Removes the suggestions whose title (as resolved from the dictionary) an
/// existing link of the article already goes to: once a label has its
/// title, a title the article links to is not suggested again.
pub fn drop_linked(suggestions: Vec<LinkSuggestion>, existing_links: &Vec<WikiLink>) -> (r: Vec<
    LinkSuggestion,
>)
    ensures
        r@ == unlinked(suggestions@, links_view(existing_links@)),
        forall|i: int, k: int|
            0 <= i < r@.len() && 0 <= k < existing_links@.len() ==> (
            #[trigger] existing_links@[k]).title@.normalized != (#[trigger] r@[i]).title@.normalized,
{
    let ghost sugs = suggestions@;
    let ghost links = links_view(existing_links@);
    let mut kept: Vec<LinkSuggestion> = Vec::new();
    for c in it: suggestions.into_iter()
        invariant
            it.seq() == sugs,
            links == links_view(existing_links@),
            kept@ == unlinked(sugs.take(it.index()), links),
    {
        let ghost i = it.index();
        proof {
            assert(sugs.take(i + 1).drop_last() =~= sugs.take(i));
            assert(sugs.take(i + 1).last() == c);
        }
        if !links_to_title(existing_links, &c.title) {
            kept.push(c);
        }
    }
    assert(sugs.take(sugs.len() as int) =~= sugs);
    proof {
        lemma_unlinked(sugs, links);
        assert forall|i: int, k: int|
            0 <= i < kept@.len() && 0 <= k < existing_links@.len() implies (
            #[trigger] existing_links@[k]).title@.normalized != (#[trigger] kept@[i]).title@.normalized by {
            assert(links[k] == existing_links@[k]@);
        }
    }
    kept
}

pub open spec fn labels_of(cands: Seq<LinkSuggestion>) -> Seq<Seq<char>> {
    cands.map_values(|c: LinkSuggestion| c.label@)
}

fn contains_chars(list: &Vec<Vec<char>>, x: &[char]) -> (r: bool)
    ensures
        r == list.deep_view().contains(x@),
{
    let mut i: usize = 0;
    while i < list.len()
        invariant
            i <= list@.len(),
            forall|j: int| 0 <= j < i ==> list.deep_view()[j] != x@,
        decreases list.len() - i,
    {
        assert(list.deep_view()[i as int] == list@[i as int]@);
        if chars_equal(list[i].as_slice(), x) {
            return true;
        }
        i += 1;
    }
    false
}

fn links_to_title(links: &Vec<WikiLink>, title: &WikiTitle) -> (r: bool)
    ensures
        r == exists|k: int| 0 <= k < links@.len() && links_view(links@)[k].title.normalized == title@.normalized,
{
    let mut i: usize = 0;
    while i < links.len()
        invariant
            i <= links@.len(),
            forall|j: int| 0 <= j < i ==> links_view(links@)[j].title.normalized != title@.normalized,
        decreases links.len() - i,
    {
        if links[i].title.equals(title) {
            assert(links_view(links@)[i as int].title.normalized == title@.normalized);
            return true;
        }
        i += 1;
    }
    false
}

/// Removes from `candidates` those whose label came earlier, those that the
/// article already links to, those that point to the article itself, those
/// with a purely numeric title, and common stop words (the stop-word list
/// is English only).
pub fn filter_suggestions(
    candidates: Vec<LinkSuggestion>,
    existing_links: Vec<WikiLink>,
    current_article_title: &String,
) -> (r: Vec<LinkSuggestion>)
    ensures
        r@ == filtered(candidates@, links_view(existing_links@), current_article_title@),
{
    let ghost cands = candidates@;
    let ghost links = links_view(existing_links@);
    let current = chars_of(current_article_title.as_str());
    let mut seen: Vec<Vec<char>> = Vec::new();
    let mut kept: Vec<LinkSuggestion> = Vec::new();
    for c in it: candidates.into_iter()
        invariant
            it.seq() == cands,
            links == links_view(existing_links@),
            current@ == current_article_title@,
            seen.deep_view() == labels_of(cands.take(it.index())),
            kept@ == filtered(cands.take(it.index()), links, current_article_title@),
    {
        let ghost i = it.index();
        let ghost prefix = cands.take(i + 1);
        proof {
            assert(prefix.drop_last() =~= cands.take(i));
            assert(prefix.last() == c);
        }
        let label = chars_of(c.label.as_str());
        let fresh = !contains_chars(&seen, label.as_slice());
        proof {
            if fresh {
                assert forall|j: int| 0 <= j < prefix.drop_last().len() implies (
                #[trigger] prefix.drop_last()[j]).label@ != c.label@ by {
                    assert(seen.deep_view()[j] == prefix.drop_last()[j].label@);
                }
            } else {
                let j = choose|j: int| 0 <= j < seen.deep_view().len() && seen.deep_view()[j] == label@;
                assert(prefix.drop_last()[j].label@ == c.label@);
            }
        }
        let ghost old_seen = seen@;
        let ghost prev_seen = seen.deep_view();
        seen.push(label);
        proof {
            assert forall|k: int| 0 <= k < seen@.len() implies #[trigger] seen.deep_view()[k]
                == labels_of(prefix)[k] by {
                if k < old_seen.len() {
                    assert(seen@[k] == old_seen[k]);
                    assert(prev_seen[k] == labels_of(cands.take(i))[k]);
                }
            }
            assert(seen.deep_view() =~= labels_of(prefix));
        }
        let linked = links_to_title(&existing_links, &c.title);
        let normal = chars_of(c.title.normalized());
        let key = key_of(&c.title);
        let raw = chars_of(c.title.raw());
        let lower_title = lower_chars(normal.as_slice());
        let label_chars = chars_of(c.label.as_str());
        let lower_label = lower_chars(label_chars.as_slice());
        let keep = fresh && !linked && !chars_equal(normal.as_slice(), current.as_slice())
            && !chars_equal(key.as_slice(), current.as_slice())
            && !chars_equal(raw.as_slice(), current.as_slice())
            && !numeric_title(normal.as_slice()) && !stop_word(lower_title.as_slice())
            && !stop_word(lower_label.as_slice());
        assert(keep == survives(prefix, links, current_article_title@));
        if keep {
            kept.push(c);
        }
    }
    assert(cands.take(cands.len() as int) =~= cands);
    kept
}

} // verus!
