//! Turning a label in a text into an internal wiki link.

use vstd::prelude::*;

use crate::text::{
    byte_len, chars_of, concat, copy_range, find, find_seq, lemma_byte_len_concat,
    lemma_byte_len_prefix, lemma_byte_len_single, lemma_find_seq, occurs_at, string_from, utf8_len,
};

verus! {

/// `[[label|label]]`: the internal link markup for `label`.
pub open spec fn piped_link(label: Seq<char>) -> Seq<char> {
    seq!['[', '['] + label + seq!['|'] + label + seq![']', ']']
}

/// `text` with `len` characters at `start` replaced by `replacement`.
pub open spec fn splice(text: Seq<char>, start: int, len: int, replacement: Seq<char>) -> Seq<char> {
    text.take(start) + replacement + text.skip(start + len)
}

/// The edit that links the first occurrence of `label` in `text`, as
/// `calculate_link_edit_positions` reports it: the byte offsets where the
/// label starts and ends, the byte offset where the link markup ends, the
/// markup, and the edited text.
pub open spec fn link_edit(text: Seq<char>, label: Seq<char>) -> Option<
    (nat, nat, nat, Seq<char>, Seq<char>),
> {
    match find_seq(text, label) {
        Some(i) => {
            let start = byte_len(text.take(i));
            let markup = piped_link(label);
            Some(
                (
                    start,
                    start + byte_len(label),
                    start + byte_len(markup),
                    markup,
                    splice(text, i, label.len() as int, markup),
                ),
            )
        },
        None => None,
    }
}

proof fn lemma_piped_link_bytes(label: Seq<char>)
    ensures
        byte_len(piped_link(label)) == 2 * byte_len(label) + 5,
{
    let open2 = seq!['[', '['];
    let bar = seq!['|'];
    let close2 = seq![']', ']'];
    assert(('|' as u32) < 0x80 && ('[' as u32) < 0x80 && (']' as u32) < 0x80);
    lemma_byte_len_single('|');
    lemma_byte_len_single('[');
    lemma_byte_len_single(']');
    assert(seq!['|'] == bar);
    lemma_byte_len_concat(seq!['['], seq!['[']);
    lemma_byte_len_concat(seq![']'], seq![']']);
    assert(seq!['['] + seq!['['] =~= open2);
    assert(seq![']'] + seq![']'] =~= close2);
    lemma_byte_len_concat(open2, label);
    lemma_byte_len_concat(open2 + label, bar);
    lemma_byte_len_concat(open2 + label + bar, label);
    lemma_byte_len_concat(open2 + label + bar + label, close2);
}

/// Linking a label only replaces it: the edited text holds the markup where
/// the label was, putting the label back gives the text again, and the text
/// grows by the label's bytes and five bytes of brackets and bar.
pub proof fn law_link_edit_replaces_label(text: Seq<char>, label: Seq<char>)
    requires
        link_edit(text, label) is Some,
    ensures
        ({
            let (s, e, ne, markup, edited) = link_edit(text, label)->0;
            let i = find_seq(text, label)->0;
            &&& edited.subrange(i, i + markup.len()) == markup
            &&& splice(edited, i, markup.len() as int, label) == text
            &&& e - s == byte_len(label)
            &&& ne - s == 2 * byte_len(label) + 5
            &&& byte_len(edited) == byte_len(text) + byte_len(label) + 5
        }),
{
    lemma_find_seq(text, label);
    let i = find_seq(text, label)->0;
    let markup = piped_link(label);
    let l = label.len() as int;
    let edited = splice(text, i, l, markup);
    assert(occurs_at(text, label, i));
    lemma_piped_link_bytes(label);
    assert(edited.subrange(i, i + markup.len()) =~= markup);
    assert(splice(edited, i, markup.len() as int, label) =~= text);
    let head = text.take(i);
    let tail = text.skip(i + l);
    assert(text =~= head + label + tail);
    assert(edited =~= head + markup + tail);
    lemma_byte_len_concat(head, label);
    lemma_byte_len_concat(head + label, tail);
    lemma_byte_len_concat(head, markup);
    lemma_byte_len_concat(head + markup, tail);
}

/// Calculates the byte positions and the edit that convert the first
/// occurrence of `label` in `text` to an internal wiki link.
///
/// Returns `(start_byte, end_byte, new_end_byte, replacement, new_text)`:
/// where the label starts and ends in `text`, where the replacement ends in
/// `new_text`, the `[[label|label]]` markup, and `text` with the label
/// replaced by it. `None` when `label` does not occur in `text`.
pub fn calculate_link_edit_positions(text: String, label: String) -> (r: Option<
    (usize, usize, usize, String, String),
>)
    requires
        byte_len(text@) + byte_len(label@) + 5 <= usize::MAX,
    ensures
        match link_edit(text@, label@) {
            Some((s, e, ne, markup, edited)) => r matches Some((rs, re, rne, rm, rt)) && rs == s
                && re == e && rne == ne && rm@ == markup && rt@ == edited,
            None => r is None,
        },
{
    let t = chars_of(text.as_str());
    let l = chars_of(label.as_str());
    let n = t.len();
    match find(t.as_slice(), l.as_slice()) {
        None => None,
        Some(i) => {
            proof {
                lemma_find_seq(t@, l@);
                assert(occurs_at(t@, l@, i as int));
                lemma_byte_len_prefix(t@, i as int);
                let rest = t@.skip(i as int);
                lemma_byte_len_prefix(rest, l@.len() as int);
                assert(rest.take(l@.len() as int) =~= l@);
                lemma_piped_link_bytes(l@);
            }
            let prefix = copy_range(t.as_slice(), 0, i);
            assert(prefix@ =~= t@.take(i as int));
            let start = utf8_len(prefix.as_slice());
            let label_bytes = utf8_len(l.as_slice());
            let open2 = vec!['[', '['];
            let bar = vec!['|'];
            let close2 = vec![']', ']'];
            let m1 = concat(open2.as_slice(), l.as_slice());
            let m2 = concat(m1.as_slice(), bar.as_slice());
            let m3 = concat(m2.as_slice(), l.as_slice());
            let markup = concat(m3.as_slice(), close2.as_slice());
            assert(markup@ =~= piped_link(l@));
            let markup_bytes = utf8_len(markup.as_slice());
            let suffix = copy_range(t.as_slice(), i + l.len(), n);
            let e1 = concat(prefix.as_slice(), markup.as_slice());
            let edited = concat(e1.as_slice(), suffix.as_slice());
            assert(edited@ =~= splice(t@, i as int, l@.len() as int, piped_link(l@)));
            Some(
                (
                    start,
                    start + label_bytes,
                    start + markup_bytes,
                    string_from(markup.as_slice()),
                    string_from(edited.as_slice()),
                ),
            )
        },
    }
}

} // verus!
