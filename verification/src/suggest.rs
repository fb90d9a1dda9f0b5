//! From an article's wikitext to its candidate link suggestions: the
//! n-grams of every text segment that the title filter or the label filter
//! knows, sorted and freed of repeats, without the links the article
//! already has.

use vstd::prelude::*;

use crate::bloom_filter::{BloomFilterManager, filter_words, header_size};
use crate::link_suggestion::{
    LinkSuggestion, PLACEHOLDER_TITLE, SuggestionView, filter_suggestions, filtered,
    kept_alone, law_filtered_suggestions, title_key,
};
use crate::ordering::{
    dedup_suggestions, deduped, is_stable_sort, sort_suggestions, sort_unique, stable_rearrangement,
    strictly_sorted,
    views,
};
use crate::wiki_title::{WikiTitle, WikiTitleView, normalize_title};
use crate::wikitext::{
    LINK_QUERY, TEXT_QUERY, TextRange, TextSegment, WikiText, WikiTextError, links_view,
    items_have_captures, items_have_indexed_capture, link_candidates_of, links_of_items,
    segments_of_items, segments_view, wikitext_query_items,
};

verus! {

broadcast use vstd::string::group_string_axioms;

/// A fresh suggestion for a segment.
pub open spec fn fresh_suggestion(text: Seq<char>, range: TextRange, title: WikiTitleView, label: Seq<char>) -> SuggestionView {
    SuggestionView { text, range, title, label, frequency: Some(0), frequency_max: 0 }
}

/// The title `raw` in wiki `language`.
pub open spec fn title_view(raw: Seq<char>, language: Seq<char>) -> WikiTitleView {
    WikiTitleView { raw, normalized: normalize_title(raw), language }
}

/// Suggestions of the candidates whose title key the title filter knows:
/// each links the candidate to the title it spells.
pub open spec fn title_suggestions(
    text: Seq<char>,
    range: TextRange,
    cands: Seq<Seq<char>>,
    known: Set<Seq<char>>,
    language: Seq<char>,
) -> Seq<SuggestionView>
    decreases cands.len(),
{
    if cands.len() == 0 {
        seq![]
    } else {
        let rest = title_suggestions(text, range, cands.drop_last(), known, language);
        let c = cands.last();
        if known.contains(title_key(normalize_title(c))) {
            rest.push(fresh_suggestion(text, range, title_view(c, language), c))
        } else {
            rest
        }
    }
}

/// Suggestions of the candidates that the label filter knows: each carries
/// the candidate as label and no title yet.
pub open spec fn label_suggestions(
    text: Seq<char>,
    range: TextRange,
    cands: Seq<Seq<char>>,
    known: Set<Seq<char>>,
    language: Seq<char>,
) -> Seq<SuggestionView>
    decreases cands.len(),
{
    if cands.len() == 0 {
        seq![]
    } else {
        let rest = label_suggestions(text, range, cands.drop_last(), known, language);
        let c = cands.last();
        if known.contains(c) {
            rest.push(fresh_suggestion(text, range, title_view(PLACEHOLDER_TITLE@, language), c))
        } else {
            rest
        }
    }
}

/// The suggestions of one segment: from its link candidates, sorted and
/// each taken once, first those the title filter knows, then those the
/// label filter knows.
pub open spec fn segment_suggestions(
    seg: (Seq<char>, TextRange),
    part: Seq<SuggestionView>,
    titles: Set<Seq<char>>,
    labels: Set<Seq<char>>,
    language: Seq<char>,
) -> bool {
    exists|u: Seq<Seq<char>>|
        #![trigger strictly_sorted(u)]
        strictly_sorted(u) && u.to_set() == link_candidates_of(seg.0).to_set() && part
            == title_suggestions(seg.0, seg.1, u, titles, language) + label_suggestions(
            seg.0,
            seg.1,
            u,
            labels,
            language,
        )
}

/// The suggestions of the segments, one segment after the other.
pub open spec fn all_segment_suggestions(
    all: Seq<SuggestionView>,
    segs: Seq<(Seq<char>, TextRange)>,
    titles: Set<Seq<char>>,
    labels: Set<Seq<char>>,
    language: Seq<char>,
) -> bool {
    exists|parts: Seq<Seq<SuggestionView>>|
        #![trigger parts.len()]
        parts.len() == segs.len() && (forall|i: int|
            0 <= i < segs.len() ==> segment_suggestions(
                segs[i],
                #[trigger] parts[i],
                titles,
                labels,
                language,
            )) && all == parts.flatten_alt()
}

/// A suggestion that the filters let through: the key of its title is in
/// the title filter, or its label is in the label filter.
pub open spec fn passes_filters(v: SuggestionView, titles: Set<Seq<char>>, labels: Set<Seq<char>>) -> bool {
    titles.contains(title_key(v.title.normalized)) || labels.contains(v.label)
}

pub open spec fn all_pass_filters(s: Seq<SuggestionView>, titles: Set<Seq<char>>, labels: Set<Seq<char>>) -> bool {
    forall|i: int| 0 <= i < s.len() ==> passes_filters(#[trigger] s[i], titles, labels)
}

proof fn lemma_title_suggestions_pass(
    text: Seq<char>,
    range: TextRange,
    cands: Seq<Seq<char>>,
    titles: Set<Seq<char>>,
    labels: Set<Seq<char>>,
    language: Seq<char>,
)
    ensures
        all_pass_filters(title_suggestions(text, range, cands, titles, language), titles, labels),
    decreases cands.len(),
{
    if cands.len() > 0 {
        lemma_title_suggestions_pass(text, range, cands.drop_last(), titles, labels, language);
    }
}

proof fn lemma_label_suggestions_pass(
    text: Seq<char>,
    range: TextRange,
    cands: Seq<Seq<char>>,
    titles: Set<Seq<char>>,
    labels: Set<Seq<char>>,
    language: Seq<char>,
)
    ensures
        all_pass_filters(label_suggestions(text, range, cands, labels, language), titles, labels),
    decreases cands.len(),
{
    if cands.len() > 0 {
        lemma_label_suggestions_pass(text, range, cands.drop_last(), titles, labels, language);
    }
}

proof fn lemma_concat_pass(a: Seq<SuggestionView>, b: Seq<SuggestionView>, titles: Set<Seq<char>>, labels: Set<Seq<char>>)
    requires
        all_pass_filters(a, titles, labels),
        all_pass_filters(b, titles, labels),
    ensures
        all_pass_filters(a + b, titles, labels),
{
    assert forall|i: int| 0 <= i < (a + b).len() implies passes_filters(
        #[trigger] (a + b)[i],
        titles,
        labels,
    ) by {
        if i < a.len() {
            assert((a + b)[i] == a[i]);
        } else {
            assert((a + b)[i] == b[i - a.len()]);
        }
    }
}

proof fn lemma_all_segments_pass(
    all: Seq<SuggestionView>,
    segs: Seq<(Seq<char>, TextRange)>,
    titles: Set<Seq<char>>,
    labels: Set<Seq<char>>,
    language: Seq<char>,
)
    requires
        all_segment_suggestions(all, segs, titles, labels, language),
    ensures
        all_pass_filters(all, titles, labels),
{
    let parts = choose|parts: Seq<Seq<SuggestionView>>|
        #![trigger parts.len()]
        parts.len() == segs.len() && (forall|i: int|
            0 <= i < segs.len() ==> segment_suggestions(
                segs[i],
                #[trigger] parts[i],
                titles,
                labels,
                language,
            )) && all == parts.flatten_alt();
    assert forall|i: int| 0 <= i < parts.len() implies all_pass_filters(
        #[trigger] parts[i],
        titles,
        labels,
    ) by {
        let seg = segs[i];
        assert(segment_suggestions(seg, parts[i], titles, labels, language));
        let u = choose|u: Seq<Seq<char>>|
            #![trigger strictly_sorted(u)]
            strictly_sorted(u) && u.to_set() == link_candidates_of(seg.0).to_set() && parts[i]
                == title_suggestions(seg.0, seg.1, u, titles, language) + label_suggestions(
                seg.0,
                seg.1,
                u,
                labels,
                language,
            );
        lemma_title_suggestions_pass(seg.0, seg.1, u, titles, labels, language);
        lemma_label_suggestions_pass(seg.0, seg.1, u, titles, labels, language);
        lemma_concat_pass(
            title_suggestions(seg.0, seg.1, u, titles, language),
            label_suggestions(seg.0, seg.1, u, labels, language),
            titles,
            labels,
        );
    }
    lemma_flatten_pass(parts, titles, labels);
}

proof fn lemma_flatten_pass(parts: Seq<Seq<SuggestionView>>, titles: Set<Seq<char>>, labels: Set<Seq<char>>)
    requires
        forall|i: int| 0 <= i < parts.len() ==> all_pass_filters(#[trigger] parts[i], titles, labels),
    ensures
        all_pass_filters(parts.flatten_alt(), titles, labels),
    decreases parts.len(),
{
    if parts.len() > 0 {
        let init = parts.drop_last();
        assert forall|i: int| 0 <= i < init.len() implies all_pass_filters(
            #[trigger] init[i],
            titles,
            labels,
        ) by {
            assert(init[i] == parts[i]);
        }
        lemma_flatten_pass(init, titles, labels);
        assert(all_pass_filters(parts[parts.len() - 1], titles, labels));
        lemma_concat_pass(init.flatten_alt(), parts.last(), titles, labels);
    }
}

proof fn lemma_sorted_pass(sorted: Seq<SuggestionView>, all: Seq<SuggestionView>, titles: Set<Seq<char>>, labels: Set<Seq<char>>)
    requires
        is_stable_sort(sorted, all),
        all_pass_filters(all, titles, labels),
    ensures
        all_pass_filters(sorted, titles, labels),
{
    let perm = choose|perm: Seq<int>| stable_rearrangement(sorted, all, perm);
    assert forall|k: int| 0 <= k < sorted.len() implies passes_filters(
        #[trigger] sorted[k],
        titles,
        labels,
    ) by {
        assert(0 <= perm[k] < all.len() && sorted[k] == all[perm[k]]);
    }
}

proof fn lemma_deduped_pass(s: Seq<SuggestionView>, titles: Set<Seq<char>>, labels: Set<Seq<char>>)
    requires
        all_pass_filters(s, titles, labels),
    ensures
        all_pass_filters(deduped(s), titles, labels),
    decreases s.len(),
{
    if s.len() > 0 {
        let init = s.drop_last();
        assert forall|i: int| 0 <= i < init.len() implies passes_filters(
            #[trigger] init[i],
            titles,
            labels,
        ) by {
            assert(init[i] == s[i]);
        }
        lemma_deduped_pass(init, titles, labels);
        assert(passes_filters(s[s.len() - 1], titles, labels));
        let rest = deduped(init);
        assert forall|i: int| 0 <= i < rest.push(s.last()).len() implies passes_filters(
            #[trigger] rest.push(s.last())[i],
            titles,
            labels,
        ) by {
            if i < rest.len() {
                assert(rest.push(s.last())[i] == rest[i]);
            }
        }
    }
}

/// Every suggestion made from text segments passes the filters: no text is
/// suggested that the anchor dictionary never saw linked, as a title or as
/// a label.
pub proof fn law_suggestions_pass_filters(
    all: Seq<SuggestionView>,
    sorted: Seq<SuggestionView>,
    segs: Seq<(Seq<char>, TextRange)>,
    titles: Set<Seq<char>>,
    labels: Set<Seq<char>>,
    language: Seq<char>,
)
    requires
        all_segment_suggestions(all, segs, titles, labels, language),
        is_stable_sort(sorted, all),
    ensures
        all_pass_filters(deduped(sorted), titles, labels),
{
    lemma_all_segments_pass(all, segs, titles, labels, language);
    lemma_sorted_pass(sorted, all, titles, labels);
    lemma_deduped_pass(sorted, titles, labels);
}

/// The suggestions for the candidates whose title key is in the title filter.
fn process_title_candidates(
    segment: &TextSegment,
    candidates: Vec<String>,
    title_filter: &BloomFilterManager,
    language: &str,
) -> (r: Vec<LinkSuggestion>)
    requires
        title_filter@.len() > header_size(),
    ensures
        views(r@) == title_suggestions(
            segment.text@,
            segment.range,
            candidates.deep_view(),
            filter_words(title_filter@),
            language@,
        ),
{
    let mut suggestions: Vec<LinkSuggestion> = Vec::new();
    let mut i: usize = 0;
    while i < candidates.len()
        invariant
            i <= candidates@.len(),
            title_filter@.len() > header_size(),
            views(suggestions@) == title_suggestions(
                segment.text@,
                segment.range,
                candidates.deep_view().take(i as int),
                filter_words(title_filter@),
                language@,
            ),
        decreases candidates.len() - i,
    {
        let ghost prev = views(suggestions@);
        proof {
            let next = candidates.deep_view().take(i + 1);
            assert(next.drop_last() =~= candidates.deep_view().take(i as int));
            assert(next.last() == candidates[i as int]@);
        }
        let title = WikiTitle::new(candidates[i].as_str(), language.to_owned());
        let key = title.to_url_format();
        if title_filter.check_word(key.as_str()) {
            let s = LinkSuggestion::new(segment.clone(), title);
            let ghost sv = s@;
            let ghost old_s = suggestions@;
            suggestions.push(s);
            proof {
                assert forall|k: int| 0 <= k < suggestions@.len() implies #[trigger] views(
                    suggestions@,
                )[k] == prev.push(sv)[k] by {
                    if k < old_s.len() {
                        assert(suggestions@[k] == old_s[k]);
                    }
                }
                assert(views(suggestions@) =~= prev.push(sv));
            }
        }
        i += 1;
    }
    assert(candidates.deep_view().take(candidates@.len() as int) =~= candidates.deep_view());
    suggestions
}

/// The suggestions for the candidates that are in the label filter, with
/// no title yet.
fn process_label_candidates(
    segment: &TextSegment,
    candidates: Vec<String>,
    label_filter: &BloomFilterManager,
    language: &str,
) -> (r: Vec<LinkSuggestion>)
    requires
        label_filter@.len() > header_size(),
    ensures
        views(r@) == label_suggestions(
            segment.text@,
            segment.range,
            candidates.deep_view(),
            filter_words(label_filter@),
            language@,
        ),
{
    let mut suggestions: Vec<LinkSuggestion> = Vec::new();
    let mut i: usize = 0;
    while i < candidates.len()
        invariant
            i <= candidates@.len(),
            label_filter@.len() > header_size(),
            views(suggestions@) == label_suggestions(
                segment.text@,
                segment.range,
                candidates.deep_view().take(i as int),
                filter_words(label_filter@),
                language@,
            ),
        decreases candidates.len() - i,
    {
        let ghost prev = views(suggestions@);
        proof {
            let next = candidates.deep_view().take(i + 1);
            assert(next.drop_last() =~= candidates.deep_view().take(i as int));
            assert(next.last() == candidates[i as int]@);
        }
        if label_filter.check_word(candidates[i].as_str()) {
            let title = WikiTitle::new(PLACEHOLDER_TITLE, language.to_owned());
            let s = LinkSuggestion::new_with_label(segment.clone(), title, candidates[i].clone());
            let ghost sv = s@;
            let ghost old_s = suggestions@;
            suggestions.push(s);
            proof {
                assert forall|k: int| 0 <= k < suggestions@.len() implies #[trigger] views(
                    suggestions@,
                )[k] == prev.push(sv)[k] by {
                    if k < old_s.len() {
                        assert(suggestions@[k] == old_s[k]);
                    }
                }
                assert(views(suggestions@) =~= prev.push(sv));
            }
        }
        i += 1;
    }
    assert(candidates.deep_view().take(candidates@.len() as int) =~= candidates.deep_view());
    suggestions
}

/// All suggestions for the segments: per segment, its sorted distinct link
/// candidates that the title filter knows, then those the label filter
/// knows; then all of them sorted by position and label (stably), and each
/// one that is the same as the one kept before it dropped.
pub fn process_text_segments(
    text_segments: Vec<TextSegment>,
    title_filter: &BloomFilterManager,
    label_filter: &BloomFilterManager,
    language: &str,
) -> (r: Vec<LinkSuggestion>)
    requires
        title_filter@.len() > header_size(),
        label_filter@.len() > header_size(),
    ensures
        exists|all: Seq<SuggestionView>, sorted: Seq<SuggestionView>|
            all_segment_suggestions(
                all,
                segments_view(text_segments@),
                filter_words(title_filter@),
                filter_words(label_filter@),
                language@,
            ) && is_stable_sort(sorted, all) && views(r@) == deduped(sorted),
        all_pass_filters(views(r@), filter_words(title_filter@), filter_words(label_filter@)),
{
    let ghost segs = segments_view(text_segments@);
    let ghost titles = filter_words(title_filter@);
    let ghost labels = filter_words(label_filter@);
    let mut link_suggestions: Vec<LinkSuggestion> = Vec::new();
    let ghost mut parts: Seq<Seq<SuggestionView>> = seq![];
    let mut i: usize = 0;
    while i < text_segments.len()
        invariant
            i <= text_segments@.len(),
            segs == segments_view(text_segments@),
            titles == filter_words(title_filter@),
            labels == filter_words(label_filter@),
            title_filter@.len() > header_size(),
            label_filter@.len() > header_size(),
            parts.len() == i,
            forall|j: int|
                0 <= j < i ==> segment_suggestions(segs[j], #[trigger] parts[j], titles, labels, language@),
            views(link_suggestions@) == parts.flatten_alt(),
        decreases text_segments.len() - i,
    {
        let segment = &text_segments[i];
        let candidates = segment.link_candidates();
        let unique = sort_unique(candidates);
        let from_titles = process_title_candidates(segment, unique.clone(), title_filter, language);
        let from_labels = process_label_candidates(segment, unique, label_filter, language);
        let ghost part = views(from_titles@) + views(from_labels@);
        proof {
            assert(segs[i as int] == (segment.text@, segment.range));
            assert(segment_suggestions(segs[i as int], part, titles, labels, language@));
        }
        let ghost prev = views(link_suggestions@);
        let ghost a0 = link_suggestions@;
        let ghost b0 = from_titles@;
        let ghost c0 = from_labels@;
        let mut t = from_titles;
        let mut l = from_labels;
        link_suggestions.append(&mut t);
        link_suggestions.append(&mut l);
        proof {
            assert(link_suggestions@ == a0 + b0 + c0);
            assert(views(link_suggestions@) =~= prev + part);
            let new_parts = parts.push(part);
            assert(new_parts.drop_last() == parts);
            assert(new_parts.flatten_alt() == parts.flatten_alt() + part);
            assert forall|j: int| 0 <= j < i + 1 implies segment_suggestions(
                segs[j],
                #[trigger] new_parts[j],
                titles,
                labels,
                language@,
            ) by {
                if j < i {
                    assert(new_parts[j] == parts[j]);
                }
            }
            parts = new_parts;
        }
        i += 1;
    }
    let ghost all = views(link_suggestions@);
    proof {
        assert(all_segment_suggestions(all, segs, titles, labels, language@));
    }
    let sorted = sort_suggestions(link_suggestions);
    let r = dedup_suggestions(sorted);
    proof {
        law_suggestions_pass_filters(all, views(sorted@), segs, titles, labels, language@);
    }
    r
}

/// The link suggestions for an article: its text segments turned into
/// suggestions (see `process_text_segments`), without those whose label
/// came earlier, those the article already links to, and those that point
/// to the article itself. Parse failures are reported.
pub fn article_suggestions(
    parser: &mut WikiText,
    wikitext: &str,
    title_filter: &BloomFilterManager,
    label_filter: &BloomFilterManager,
    language: &str,
    title: &str,
) -> (r: Result<Vec<LinkSuggestion>, WikiTextError>)
    requires
        title_filter@.len() > header_size(),
        label_filter@.len() > header_size(),
    ensures
        ({
            let links = wikitext_query_items(LINK_QUERY@, wikitext@);
            let texts = wikitext_query_items(TEXT_QUERY@, wikitext@);
            let parsed = links matches Some(li) && items_have_captures(li) && (texts matches Some(
                ti,
            ) && items_have_indexed_capture(ti));
            &&& r is Ok <==> parsed
            &&& r matches Ok(sugs) ==> exists|all: Seq<SuggestionView>, sorted: Seq<SuggestionView>, cands: Seq<LinkSuggestion>|
                all_segment_suggestions(
                    all,
                    segments_of_items(texts->0),
                    filter_words(title_filter@),
                    filter_words(label_filter@),
                    language@,
                ) && is_stable_sort(sorted, all) && views(cands) == deduped(sorted) && sugs@
                    == filtered(cands, links_of_items(links->0), title@)
            &&& r matches Ok(sugs) ==> all_pass_filters(
                views(sugs@),
                filter_words(title_filter@),
                filter_words(label_filter@),
            )
            &&& r matches Ok(sugs) ==> forall|i: int, j: int|
                0 <= i < j < sugs@.len() ==> (#[trigger] sugs@[i]).label@ != (
                #[trigger] sugs@[j]).label@
            &&& r matches Ok(sugs) ==> forall|i: int|
                0 <= i < sugs@.len() ==> kept_alone(#[trigger] sugs@[i], title@)
            &&& r matches Ok(sugs) ==> forall|i: int, k: int|
                0 <= i < sugs@.len() && 0 <= k < links_of_items(links->0).len() ==> (
                #[trigger] links_of_items(links->0)[k]).title.normalized != (
                #[trigger] sugs@[i]).title@.normalized
        }),
{
    let existing_links = parser.extract_links(wikitext)?;
    let text_segments = parser.extract_text(wikitext)?;
    let suggestions = process_text_segments(text_segments, title_filter, label_filter, language);
    let current = title.to_owned();
    let ghost cands = suggestions@;
    let ghost links = links_view(existing_links@);
    let r = filter_suggestions(suggestions, existing_links, &current);
    proof {
        law_filtered_suggestions(cands, links, title@);
        let titles = filter_words(title_filter@);
        let labels = filter_words(label_filter@);
        assert forall|i: int| 0 <= i < views(r@).len() implies passes_filters(
            #[trigger] views(r@)[i],
            titles,
            labels,
        ) by {
            assert(cands.contains(r@[i]));
            let j = choose|j: int| 0 <= j < cands.len() && cands[j] == r@[i];
            assert(views(cands)[j] == cands[j]@);
        }
    }
    Ok(r)
}

} // verus!
