//! Sorting: candidate strings sorted without repeats, and suggestions
//! sorted stably by position and label, then freed of repeats.

use vstd::prelude::*;

use crate::link_suggestion::{
    LinkSuggestion, SuggestionView, compare_text, lex_compare, same_suggestion, suggestion_compare,
};

verus! {

broadcast use vstd::string::group_string_axioms;

pub proof fn lemma_lex_antisymmetric(a: Seq<char>, b: Seq<char>)
    ensures
        lex_compare(a, b) == -lex_compare(b, a),
        -1 <= lex_compare(a, b) <= 1,
    decreases a.len(),
{
    if a.len() > 0 && b.len() > 0 && a[0] == b[0] {
        lemma_lex_antisymmetric(a.drop_first(), b.drop_first());
    }
}

pub proof fn lemma_lex_equal(a: Seq<char>, b: Seq<char>)
    ensures
        lex_compare(a, b) == 0 <==> a == b,
    decreases a.len(),
{
    if a.len() > 0 && b.len() > 0 {
        if a[0] == b[0] {
            lemma_lex_equal(a.drop_first(), b.drop_first());
            if a.drop_first() == b.drop_first() {
                assert(a =~= b) by {
                    assert forall|i: int| 0 <= i < a.len() implies a[i] == b[i] by {
                        if i > 0 {
                            assert(a[i] == a.drop_first()[i - 1]);
                            assert(b[i] == b.drop_first()[i - 1]);
                        }
                    }
                }
            }
            if a == b {
                assert(a.drop_first() =~= b.drop_first());
            }
        } else {
            assert(a != b);
        }
    } else if a.len() != b.len() {
        assert(a != b);
    } else {
        assert(a =~= b);
    }
}

pub proof fn lemma_lex_transitive(a: Seq<char>, b: Seq<char>, c: Seq<char>)
    requires
        lex_compare(a, b) <= 0,
        lex_compare(b, c) <= 0,
    ensures
        lex_compare(a, c) <= 0,
        lex_compare(a, b) < 0 || lex_compare(b, c) < 0 ==> lex_compare(a, c) < 0,
    decreases a.len(),
{
    if a.len() > 0 && b.len() > 0 && c.len() > 0 && a[0] == b[0] && b[0] == c[0] {
        lemma_lex_transitive(a.drop_first(), b.drop_first(), c.drop_first());
    }
}

pub proof fn lemma_suggestion_compare(a: SuggestionView, b: SuggestionView)
    ensures
        suggestion_compare(a, b) == -suggestion_compare(b, a),
        -1 <= suggestion_compare(a, b) <= 1,
{
    lemma_lex_antisymmetric(a.label, b.label);
}

pub proof fn lemma_suggestion_transitive(a: SuggestionView, b: SuggestionView, c: SuggestionView)
    requires
        suggestion_compare(a, b) <= 0,
        suggestion_compare(b, c) <= 0,
    ensures
        suggestion_compare(a, c) <= 0,
        suggestion_compare(a, b) < 0 || suggestion_compare(b, c) < 0 ==> suggestion_compare(a, c) < 0,
{
    if a.range.start_byte == b.range.start_byte && b.range.start_byte == c.range.start_byte {
        lemma_lex_transitive(a.label, b.label, c.label);
    }
}

/* ------------------------------------------------------------------ */
/* Strings: sorted, without repeats                                     */
/* ------------------------------------------------------------------ */

/// Strictly increasing in lexicographic order.
pub open spec fn strictly_sorted(s: Seq<Seq<char>>) -> bool {
    forall|i: int, j: int| 0 <= i < j < s.len() ==> lex_compare(#[trigger] s[i], #[trigger] s[j]) < 0
}

/// `items` in increasing order, each once: what sorting and then removing
/// consecutive repeats gives.
pub fn sort_unique(items: Vec<String>) -> (r: Vec<String>)
    ensures
        strictly_sorted(r.deep_view()),
        r.deep_view().to_set() == items.deep_view().to_set(),
{
    let ghost input = items.deep_view();
    let mut out: Vec<String> = Vec::new();
    let mut i: usize = 0;
    while i < items.len()
        invariant
            i <= items@.len(),
            input == items.deep_view(),
            strictly_sorted(out.deep_view()),
            out.deep_view().to_set() == input.take(i as int).to_set(),
        decreases items.len() - i,
    {
        let x = items[i].clone();
        let ghost xv = x@;
        assert(xv == input[i as int]);
        // Find the first element not below x.
        let mut p: usize = 0;
        while p < out.len() && compare_text(out[p].as_str(), x.as_str()) < 0
            invariant
                p <= out@.len(),
                xv == x@,
                strictly_sorted(out.deep_view()),
                forall|k: int| 0 <= k < p ==> lex_compare(#[trigger] out.deep_view()[k], xv) < 0,
            decreases out.len() - p,
        {
            assert(out.deep_view()[p as int] == out@[p as int]@);
            p += 1;
        }
        proof {
            if p < out@.len() {
                assert(out.deep_view()[p as int] == out@[p as int]@);
            }
        }
        let ghost before = out.deep_view();
        proof {
            assert(input.take(i + 1) =~= input.take(i as int).push(xv));
        }
        let present = p < out.len() && compare_text(out[p].as_str(), x.as_str()) == 0;
        if present {
            proof {
                assert(out.deep_view()[p as int] == out@[p as int]@);
                lemma_lex_equal(before[p as int], xv);
                assert(before.contains(xv));
                assert(before.to_set().insert(xv) =~= before.to_set());
            }
        } else {
            let ghost old_out = out@;
            out.insert(p, x);
            proof {
                assert forall|k: int| 0 <= k < out@.len() implies #[trigger] out.deep_view()[k] == (
                if k < p {
                    before[k]
                } else if k == p {
                    xv
                } else {
                    before[k - 1]
                }) by {
                    if k < p {
                        assert(out@[k] == old_out[k]);
                    } else if k > p {
                        assert(out@[k] == old_out[k - 1]);
                    }
                }
                let now = out.deep_view();
                assert(now =~= before.take(p as int).push(xv) + before.skip(p as int));
                if p < before.len() {
                    lemma_lex_antisymmetric(before[p as int], xv);
                    lemma_lex_equal(before[p as int], xv);
                }
                assert forall|a: int, b: int| 0 <= a < b < now.len() implies lex_compare(
                    #[trigger] now[a],
                    #[trigger] now[b],
                ) < 0 by {
                    if b < p {
                    } else if b == p {
                    } else if a < p {
                        // a below x, x below now[b]
                        lemma_lex_antisymmetric(before[p as int], xv);
                        if b - 1 > p {
                            assert(lex_compare(before[p as int], before[b - 1]) < 0);
                            lemma_lex_transitive(xv, before[p as int], before[b - 1]);
                        }
                        lemma_lex_transitive(before[a], xv, before[b - 1]);
                    } else if a == p {
                        lemma_lex_antisymmetric(before[p as int], xv);
                        if b - 1 > p {
                            assert(lex_compare(before[p as int], before[b - 1]) < 0);
                            lemma_lex_transitive(xv, before[p as int], before[b - 1]);
                        }
                    } else {
                        assert(now[a] == before[a - 1]);
                        assert(now[b] == before[b - 1]);
                    }
                }
                assert(now.to_set() =~= before.to_set().insert(xv)) by {
                    assert forall|y: Seq<char>| now.to_set().contains(y) implies before.to_set().insert(
                        xv,
                    ).contains(y) by {
                        let k = choose|k: int| 0 <= k < now.len() && now[k] == y;
                        if k < p {
                            assert(before[k] == y);
                        } else if k > p {
                            assert(before[k - 1] == y);
                        }
                    }
                    assert forall|y: Seq<char>| before.to_set().insert(xv).contains(y) implies now.to_set().contains(
                        y,
                    ) by {
                        if y == xv {
                            assert(now[p as int] == y);
                        } else {
                            let k = choose|k: int| 0 <= k < before.len() && before[k] == y;
                            if k < p {
                                assert(now[k] == y);
                            } else {
                                assert(now[k + 1] == y);
                            }
                        }
                    }
                }
            }
        }
        proof {
            let base = input.take(i as int);
            assert forall|y: Seq<char>| base.push(xv).to_set().contains(y) <==> base.to_set().insert(
                xv,
            ).contains(y) by {
                if base.push(xv).to_set().contains(y) {
                    let k = choose|k: int| 0 <= k < base.push(xv).len() && base.push(xv)[k] == y;
                    if k < base.len() {
                        assert(base[k] == y);
                    }
                }
                if base.to_set().insert(xv).contains(y) {
                    if y == xv {
                        assert(base.push(xv)[base.len() as int] == y);
                    } else {
                        let k = choose|k: int| 0 <= k < base.len() && base[k] == y;
                        assert(base.push(xv)[k] == y);
                    }
                }
            }
            assert(base.push(xv).to_set() =~= base.to_set().insert(xv));
        }
        i += 1;
    }
    assert(input.take(items@.len() as int) =~= input);
    out
}


/* ------------------------------------------------------------------ */
/* Suggestions: stable sort, then removal of consecutive repeats         */
/* ------------------------------------------------------------------ */

pub open spec fn views(s: Seq<LinkSuggestion>) -> Seq<SuggestionView> {
    s.map_values(|x: LinkSuggestion| x@)
}

/// In order of position, then label.
pub open spec fn sorted_by_position(r: Seq<SuggestionView>) -> bool {
    forall|a: int, b: int|
        0 <= a < b < r.len() ==> suggestion_compare(#[trigger] r[a], #[trigger] r[b]) <= 0
}

/// `r` holds the elements of `s` rearranged by `perm` (`r[k]` is
/// `s[perm[k]]`), and elements that compare equal keep their order.
pub open spec fn stable_rearrangement(r: Seq<SuggestionView>, s: Seq<SuggestionView>, perm: Seq<int>) -> bool {
    &&& perm.len() == r.len()
    &&& r.len() == s.len()
    &&& forall|k: int| 0 <= k < r.len() ==> 0 <= #[trigger] perm[k] < s.len() && r[k] == s[perm[k]]
    &&& forall|a: int, b: int| 0 <= a < b < r.len() ==> #[trigger] perm[a] != #[trigger] perm[b]
    &&& forall|a: int, b: int|
        0 <= a < b < r.len() && suggestion_compare(r[a], r[b]) == 0 ==> #[trigger] perm[a]
            < #[trigger] perm[b]
}

/// `r` is `s` sorted by position and label, stably.
pub open spec fn is_stable_sort(r: Seq<SuggestionView>, s: Seq<SuggestionView>) -> bool {
    &&& sorted_by_position(r)
    &&& exists|perm: Seq<int>| stable_rearrangement(r, s, perm)
}

/// Sorts suggestions by position, then label, keeping the order of those
/// that compare equal.
pub fn sort_suggestions(items: Vec<LinkSuggestion>) -> (r: Vec<LinkSuggestion>)
    ensures
        is_stable_sort(views(r@), views(items@)),
{
    let ghost items0 = items@;
    let ghost input = views(items@);
    let mut out: Vec<LinkSuggestion> = Vec::new();
    let ghost mut perm: Seq<int> = seq![];
    for x in it: items.into_iter()
        invariant
            it.seq() == items0,
            input == views(items0),
            sorted_by_position(views(out@)),
            stable_rearrangement(views(out@), input.take(it.index()), perm),
            forall|k: int| 0 <= k < perm.len() ==> #[trigger] perm[k] < it.index(),
    {
        let ghost i = it.index();
        let ghost before = views(out@);
        let ghost old_out = out@;
        let mut k = out.len();
        while k > 0 && out[k - 1].compare(&x) > 0
            invariant
                k <= out@.len(),
                out@ == old_out,
                forall|j: int| k <= j < out@.len() ==> suggestion_compare(#[trigger] out@[j]@, x@) > 0,
            decreases k,
        {
            k -= 1;
        }
        let ghost xv = x@;
        proof {
            assert(x == items0[i]);
            assert(input.take(i + 1)[i] == xv);
        }
        out.insert(k, x);
        proof {
            let now = views(out@);
            let new_perm = perm.take(k as int).push(i) + perm.skip(k as int);
            assert(out@ == old_out.insert(k as int, out@[k as int]));
            assert forall|j: int| 0 <= j < now.len() implies #[trigger] now[j] == (if j < k {
                before[j]
            } else if j == k {
                xv
            } else {
                before[j - 1]
            }) && new_perm[j] == (if j < k {
                perm[j]
            } else if j == k {
                i
            } else {
                perm[j - 1]
            }) by {
                if j < k {
                    assert(out@[j] == old_out[j]);
                } else if j > k {
                    assert(out@[j] == old_out[j - 1]);
                }
            }
            if k > 0 {
                assert(suggestion_compare(before[k - 1], xv) <= 0);
            }
            assert forall|a: int, b: int| 0 <= a < b < now.len() implies suggestion_compare(
                #[trigger] now[a],
                #[trigger] now[b],
            ) <= 0 by {
                if b < k {
                } else if b == k {
                    if a < k - 1 {
                        lemma_suggestion_transitive(before[a], before[k - 1], xv);
                    }
                } else if a == k {
                    lemma_suggestion_compare(before[b - 1], xv);
                } else if a < k {
                    assert(suggestion_compare(before[a], before[b - 1]) <= 0);
                } else {
                    assert(suggestion_compare(before[a - 1], before[b - 1]) <= 0);
                }
            }
            let inp = input.take(i + 1);
            assert forall|j: int| 0 <= j < now.len() implies 0 <= #[trigger] new_perm[j] < inp.len()
                && now[j] == inp[new_perm[j]] by {
                if j != k {
                    let p = if j < k {
                        perm[j]
                    } else {
                        perm[j - 1]
                    };
                    assert(input.take(i as int)[p] == inp[p]);
                }
            }
            assert forall|a: int, b: int| 0 <= a < b < now.len() implies #[trigger] new_perm[a]
                != #[trigger] new_perm[b] by {
                if a < k && b > k {
                    assert(perm[a] != perm[b - 1]);
                } else if a > k {
                    assert(perm[a - 1] != perm[b - 1]);
                } else if b < k {
                    assert(perm[a] != perm[b]);
                }
            }
            assert forall|a: int, b: int|
                0 <= a < b < now.len() && suggestion_compare(now[a], now[b]) == 0 implies #[trigger] new_perm[a]
                < #[trigger] new_perm[b] by {
                if a == k {
                    lemma_suggestion_compare(before[b - 1], xv);
                } else if b == k {
                } else if a < k && b > k {
                    assert(suggestion_compare(before[a], before[b - 1]) == 0);
                } else if a > k {
                    assert(suggestion_compare(before[a - 1], before[b - 1]) == 0);
                } else {
                    assert(suggestion_compare(before[a], before[b]) == 0);
                }
            }
            perm = new_perm;
        }
    }
    assert(input.take(items0.len() as int) =~= input);
    out
}

/// `s` with every element that is the same as the last element kept
/// before it removed (what `Vec::dedup` does with the suggestions'
/// sameness).
pub open spec fn deduped(s: Seq<SuggestionView>) -> Seq<SuggestionView>
    decreases s.len(),
{
    if s.len() == 0 {
        seq![]
    } else {
        let rest = deduped(s.drop_last());
        if rest.len() > 0 && same_suggestion(s.last(), rest.last()) {
            rest
        } else {
            rest.push(s.last())
        }
    }
}

/// After removing repeats, no suggestion is the same as the one before it.
pub proof fn law_deduped_has_no_repeats(s: Seq<SuggestionView>)
    ensures
        forall|i: int|
            0 < i < deduped(s).len() ==> !same_suggestion(
                #[trigger] deduped(s)[i],
                deduped(s)[i - 1],
            ),
    decreases s.len(),
{
    if s.len() > 0 {
        let rest = deduped(s.drop_last());
        law_deduped_has_no_repeats(s.drop_last());
        if !(rest.len() > 0 && same_suggestion(s.last(), rest.last())) {
            let d = rest.push(s.last());
            assert forall|i: int| 0 < i < d.len() implies !same_suggestion(
                #[trigger] d[i],
                d[i - 1],
            ) by {
                if i < rest.len() {
                    assert(d[i] == rest[i] && d[i - 1] == rest[i - 1]);
                } else {
                    assert(d[i - 1] == rest.last());
                }
            }
        }
    }
}

/// Removes every suggestion that is the same as the last one kept before it.
pub fn dedup_suggestions(items: Vec<LinkSuggestion>) -> (r: Vec<LinkSuggestion>)
    ensures
        views(r@) == deduped(views(items@)),
{
    let ghost items0 = items@;
    let mut out: Vec<LinkSuggestion> = Vec::new();
    for x in it: items.into_iter()
        invariant
            it.seq() == items0,
            views(out@) == deduped(views(items0.take(it.index()))),
    {
        let ghost i = it.index();
        let ghost prev = views(out@);
        proof {
            assert(views(items0.take(i + 1)).drop_last() =~= views(items0.take(i)));
            assert(views(items0.take(i + 1)).last() == x@);
        }
        let n = out.len();
        let repeat = n > 0 && x.eq(&out[n - 1]);
        proof {
            if n > 0 {
                assert(prev.last() == out@[n - 1]@);
            }
        }
        if !repeat {
            let ghost xv = x@;
            let ghost old_out = out@;
            out.push(x);
            proof {
                assert forall|j: int| 0 <= j < out@.len() implies #[trigger] views(out@)[j]
                    == prev.push(xv)[j] by {
                    if j < old_out.len() {
                        assert(out@[j] == old_out[j]);
                    }
                }
                assert(views(out@) =~= prev.push(xv));
            }
        }
    }
    assert(items0.take(items0.len() as int) =~= items0);
    out
}

} // verus!
