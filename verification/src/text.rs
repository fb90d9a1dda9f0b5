//! Character-level string utilities with their specifications.
//!
//! Text is handled as sequences of `char`s. Byte offsets, where the outside
//! world speaks of them, are the UTF-8 lengths of character prefixes.

use vstd::prelude::*;

verus! {

broadcast use vstd::string::group_string_axioms;

/// `String::push` appends one character.
pub assume_specification[ String::push ](s: &mut String, ch: char)
    ensures
        final(s)@ == old(s)@.push(ch),
;

/// The characters of a string slice, in order.
pub fn chars_of(s: &str) -> (v: Vec<char>)
    ensures
        v@ == s@,
{
    let mut v: Vec<char> = Vec::new();
    for c in iter: s.chars()
        invariant
            v@ == iter.seq().take(iter.index()),
    {
        v.push(c);
    }
    v
}

/// A string holding exactly the given characters.
pub fn string_from(chars: &[char]) -> (s: String)
    ensures
        s@ == chars@,
{
    let mut s = String::new();
    let mut i: usize = 0;
    while i < chars.len()
        invariant
            i <= chars@.len(),
            s@ == chars@.take(i as int),
        decreases chars.len() - i,
    {
        s.push(chars[i]);
        i += 1;
    }
    s
}

/// A fresh vector holding `v[from..to]`.
pub fn copy_range(v: &[char], from: usize, to: usize) -> (r: Vec<char>)
    requires
        from <= to <= v@.len(),
    ensures
        r@ == v@.subrange(from as int, to as int),
{
    let mut r: Vec<char> = Vec::new();
    let mut i = from;
    while i < to
        invariant
            from <= i <= to <= v@.len(),
            r@ == v@.subrange(from as int, i as int),
        decreases to - i,
    {
        r.push(v[i]);
        i += 1;
    }
    r
}

/// Whether two character sequences are equal.
pub fn chars_equal(a: &[char], b: &[char]) -> (r: bool)
    ensures
        r == (a@ == b@),
{
    if a.len() != b.len() {
        return false;
    }
    let mut i: usize = 0;
    while i < a.len()
        invariant
            a@.len() == b@.len(),
            i <= a@.len(),
            forall|j: int| 0 <= j < i ==> a@[j] == b@[j],
        decreases a.len() - i,
    {
        if a[i] != b[i] {
            return false;
        }
        i += 1;
    }
    assert(a@ =~= b@);
    true
}

/// Whether a character sequence equals the characters of a string slice.
pub fn chars_equal_str(a: &[char], s: &str) -> (r: bool)
    ensures
        r == (a@ == s@),
{
    let b = chars_of(s);
    chars_equal(a, b.as_slice())
}

/// `a` followed by `b`.
pub fn concat(a: &[char], b: &[char]) -> (r: Vec<char>)
    ensures
        r@ == a@ + b@,
{
    let mut r = copy_range(a, 0, a.len());
    let mut i: usize = 0;
    while i < b.len()
        invariant
            i <= b@.len(),
            r@ == a@ + b@.take(i as int),
        decreases b.len() - i,
    {
        r.push(b[i]);
        i += 1;
    }
    assert(b@.take(b@.len() as int) =~= b@);
    r
}

/* ------------------------------------------------------------------ */
/* Character classes                                                    */
/* ------------------------------------------------------------------ */

/// Unicode `White_Space`, the property that `char::is_whitespace` tests.
pub open spec fn is_white(c: char) -> bool {
    ||| c == ' '
    ||| ('\t' <= c && c <= '\r')
    ||| c == '\u{85}'
    ||| c == '\u{a0}'
    ||| c == '\u{1680}'
    ||| ('\u{2000}' <= c && c <= '\u{200a}')
    ||| c == '\u{2028}'
    ||| c == '\u{2029}'
    ||| c == '\u{202f}'
    ||| c == '\u{205f}'
    ||| c == '\u{3000}'
}

/// ASCII punctuation, as `char::is_ascii_punctuation` defines it.
pub open spec fn is_ascii_punct(c: char) -> bool {
    ||| ('!' <= c && c <= '/')
    ||| (':' <= c && c <= '@')
    ||| ('[' <= c && c <= '`')
    ||| ('{' <= c && c <= '~')
}

pub fn char_is_white(c: char) -> (r: bool)
    ensures
        r == is_white(c),
{
    c == ' ' || ('\t' <= c && c <= '\r') || c == '\u{85}' || c == '\u{a0}' || c == '\u{1680}' || (
    '\u{2000}' <= c && c <= '\u{200a}') || c == '\u{2028}' || c == '\u{2029}' || c == '\u{202f}'
        || c == '\u{205f}' || c == '\u{3000}'
}

pub fn char_is_ascii_punct(c: char) -> (r: bool)
    ensures
        r == is_ascii_punct(c),
{
    ('!' <= c && c <= '/') || (':' <= c && c <= '@') || ('[' <= c && c <= '`') || ('{' <= c
        && c <= '~')
}

/// A set of characters that trimming and splitting work with.
#[derive(Clone, Copy)]
pub enum CharClass {
    /// Unicode white space.
    White,
    /// Everything but Unicode white space.
    NonWhite,
    /// ASCII punctuation.
    AsciiPunct,
    /// One given character.
    Exactly(char),
}

pub open spec fn in_class(cls: CharClass, c: char) -> bool {
    match cls {
        CharClass::White => is_white(c),
        CharClass::NonWhite => !is_white(c),
        CharClass::AsciiPunct => is_ascii_punct(c),
        CharClass::Exactly(d) => c == d,
    }
}

pub fn class_contains(cls: CharClass, c: char) -> (r: bool)
    ensures
        r == in_class(cls, c),
{
    match cls {
        CharClass::White => char_is_white(c),
        CharClass::NonWhite => !char_is_white(c),
        CharClass::AsciiPunct => char_is_ascii_punct(c),
        CharClass::Exactly(d) => c == d,
    }
}

/* ------------------------------------------------------------------ */
/* Trimming                                                             */
/* ------------------------------------------------------------------ */

/// Number of leading characters of `s` in `cls`.
pub open spec fn lead(s: Seq<char>, cls: CharClass) -> nat
    decreases s.len(),
{
    if s.len() > 0 && in_class(cls, s[0]) {
        1 + lead(s.drop_first(), cls)
    } else {
        0
    }
}

/// Number of trailing characters of `s` in `cls`.
pub open spec fn trail(s: Seq<char>, cls: CharClass) -> nat
    decreases s.len(),
{
    if s.len() > 0 && in_class(cls, s.last()) {
        1 + trail(s.drop_last(), cls)
    } else {
        0
    }
}

/// `s` without its leading and trailing characters in `cls`.
pub open spec fn trimmed(s: Seq<char>, cls: CharClass) -> Seq<char> {
    let t = s.skip(lead(s, cls) as int);
    t.take(t.len() - trail(t, cls))
}

pub proof fn lemma_lead_bound(s: Seq<char>, cls: CharClass)
    ensures
        lead(s, cls) <= s.len(),
        forall|j: int| 0 <= j < lead(s, cls) ==> in_class(cls, #[trigger] s[j]),
        lead(s, cls) < s.len() ==> !in_class(cls, s[lead(s, cls) as int]),
    decreases s.len(),
{
    if s.len() > 0 && in_class(cls, s[0]) {
        lemma_lead_bound(s.drop_first(), cls);
        assert forall|j: int| 0 <= j < lead(s, cls) implies in_class(cls, #[trigger] s[j]) by {
            if j > 0 {
                assert(s[j] == s.drop_first()[j - 1]);
            }
        }
    }
}

pub proof fn lemma_trail_bound(s: Seq<char>, cls: CharClass)
    ensures
        trail(s, cls) <= s.len(),
        forall|j: int| s.len() - trail(s, cls) <= j < s.len() ==> in_class(cls, #[trigger] s[j]),
        trail(s, cls) < s.len() ==> !in_class(cls, s[s.len() - trail(s, cls) - 1]),
    decreases s.len(),
{
    if s.len() > 0 && in_class(cls, s.last()) {
        lemma_trail_bound(s.drop_last(), cls);
        assert forall|j: int| s.len() - trail(s, cls) <= j < s.len() implies in_class(
            cls,
            #[trigger] s[j],
        ) by {
            if j < s.len() - 1 {
                assert(s[j] == s.drop_last()[j]);
            }
        }
    }
}

/// The count of leading characters in `cls` is the first index not in `cls`.
pub proof fn lemma_lead_is_first_outside(s: Seq<char>, cls: CharClass, k: int)
    requires
        0 <= k <= s.len(),
        forall|j: int| 0 <= j < k ==> in_class(cls, #[trigger] s[j]),
        k < s.len() ==> !in_class(cls, s[k]),
    ensures
        lead(s, cls) == k,
    decreases s.len(),
{
    if k > 0 {
        assert(in_class(cls, s[0]));
        assert forall|j: int| 0 <= j < k - 1 implies in_class(cls, #[trigger] s.drop_first()[j]) by {
            assert(s.drop_first()[j] == s[j + 1]);
        }
        lemma_lead_is_first_outside(s.drop_first(), cls, k - 1);
    }
}

/// The count of trailing characters in `cls` is measured from the last index not in `cls`.
pub proof fn lemma_trail_is_last_outside(s: Seq<char>, cls: CharClass, k: int)
    requires
        0 <= k <= s.len(),
        forall|j: int| k <= j < s.len() ==> in_class(cls, #[trigger] s[j]),
        k > 0 ==> !in_class(cls, s[k - 1]),
    ensures
        trail(s, cls) == s.len() - k,
    decreases s.len(),
{
    if k < s.len() {
        assert(in_class(cls, s[s.len() - 1]));
        assert forall|j: int| k <= j < s.len() - 1 implies in_class(
            cls,
            #[trigger] s.drop_last()[j],
        ) by {
            assert(s.drop_last()[j] == s[j]);
        }
        lemma_trail_is_last_outside(s.drop_last(), cls, k);
    }
}

/// Index of the first character of `v` not in `cls` (or `v.len()`).
pub fn lead_len(v: &[char], cls: CharClass) -> (k: usize)
    ensures
        k == lead(v@, cls),
{
    let mut k: usize = 0;
    while k < v.len() && class_contains(cls, v[k])
        invariant
            k <= v@.len(),
            forall|j: int| 0 <= j < k ==> in_class(cls, #[trigger] v@[j]),
        decreases v.len() - k,
    {
        k += 1;
    }
    proof {
        lemma_lead_is_first_outside(v@, cls, k as int);
    }
    k
}

/// Number of trailing characters of `v` in `cls`.
pub fn trail_len(v: &[char], cls: CharClass) -> (k: usize)
    ensures
        k == trail(v@, cls),
{
    let mut e: usize = v.len();
    while e > 0 && class_contains(cls, v[e - 1])
        invariant
            e <= v@.len(),
            forall|j: int| e <= j < v@.len() ==> in_class(cls, #[trigger] v@[j]),
        decreases e,
    {
        e -= 1;
    }
    proof {
        lemma_trail_is_last_outside(v@, cls, e as int);
    }
    v.len() - e
}

/// `v` without its leading and trailing characters in `cls`.
pub fn trim(v: &[char], cls: CharClass) -> (r: Vec<char>)
    ensures
        r@ == trimmed(v@, cls),
{
    let a = lead_len(v, cls);
    proof {
        lemma_lead_bound(v@, cls);
    }
    let t = copy_range(v, a, v.len());
    assert(t@ =~= v@.skip(a as int));
    let b = trail_len(t.as_slice(), cls);
    proof {
        lemma_trail_bound(t@, cls);
    }
    let r = copy_range(t.as_slice(), 0, t.len() - b);
    assert(r@ =~= t@.take(t@.len() - b));
    r
}

/* ------------------------------------------------------------------ */
/* Splitting on white space and joining                                 */
/* ------------------------------------------------------------------ */

/// The maximal runs of non-white characters of `s`, in order (what
/// `str::split_whitespace` yields).
pub open spec fn words(s: Seq<char>) -> Seq<Seq<char>>
    decreases s.len(),
{
    if s.len() == 0 {
        seq![]
    } else if is_white(s[0]) {
        words(s.drop_first())
    } else {
        let n = lead(s, CharClass::NonWhite);
        if 0 < n <= s.len() {
            seq![s.take(n as int)] + words(s.skip(n as int))
        } else {
            seq![]
        }
    }
}

/// The elements of `ws` with `sep` between consecutive ones.
pub open spec fn join(ws: Seq<Seq<char>>, sep: Seq<char>) -> Seq<char>
    decreases ws.len(),
{
    if ws.len() == 0 {
        seq![]
    } else if ws.len() == 1 {
        ws[0]
    } else {
        join(ws.drop_last(), sep) + sep + ws.last()
    }
}

proof fn lemma_words_skip_white(s: Seq<char>, i: int)
    requires
        0 <= i < s.len(),
        is_white(s[i]),
    ensures
        words(s.skip(i)) == words(s.skip(i + 1)),
{
    assert(s.skip(i).drop_first() =~= s.skip(i + 1));
}

proof fn lemma_words_take_word(s: Seq<char>, i: int, j: int)
    requires
        0 <= i < j <= s.len(),
        forall|k: int| i <= k < j ==> !is_white(#[trigger] s[k]),
        j < s.len() ==> is_white(s[j]),
    ensures
        words(s.skip(i)) == seq![s.subrange(i, j)] + words(s.skip(j)),
{
    let t = s.skip(i);
    assert forall|k: int| 0 <= k < j - i implies in_class(CharClass::NonWhite, #[trigger] t[k]) by {
        assert(t[k] == s[i + k]);
    }
    if j - i < t.len() {
        assert(t[j - i] == s[j]);
    }
    lemma_lead_is_first_outside(t, CharClass::NonWhite, j - i);
    assert(t.take(j - i) =~= s.subrange(i, j));
    assert(t.skip(j - i) =~= s.skip(j));
}

/// The white-space separated words of `v`.
pub fn split_words(v: &[char]) -> (ws: Vec<Vec<char>>)
    ensures
        ws.deep_view() == words(v@),
{
    let mut ws: Vec<Vec<char>> = Vec::new();
    let mut i: usize = 0;
    assert(v@.skip(0) =~= v@);
    while i < v.len()
        invariant
            i <= v@.len(),
            words(v@) == ws.deep_view() + words(v@.skip(i as int)),
        decreases v.len() - i,
    {
        if char_is_white(v[i]) {
            proof {
                lemma_words_skip_white(v@, i as int);
            }
            i += 1;
        } else {
            let mut j = i + 1;
            while j < v.len() && !char_is_white(v[j])
                invariant
                    i < j <= v@.len(),
                    forall|k: int| i <= k < j ==> !is_white(#[trigger] v@[k]),
                decreases v.len() - j,
            {
                j += 1;
            }
            proof {
                lemma_words_take_word(v@, i as int, j as int);
            }
            let w = copy_range(v, i, j);
            let ghost before = ws.deep_view();
            let ghost old_ws = ws@;
            let ghost wv = w@;
            ws.push(w);
            proof {
                assert(ws@ == old_ws.push(ws@[old_ws.len() as int]));
                assert forall|k: int| 0 <= k < ws@.len() implies #[trigger] ws.deep_view()[k] == (
                before + seq![wv])[k] by {
                    if k < old_ws.len() {
                        assert(ws@[k] == old_ws[k]);
                    }
                }
                assert(ws.deep_view() =~= before + seq![v@.subrange(i as int, j as int)]);
            }
            i = j;
        }
    }
    assert(v@.skip(i as int) =~= Seq::<char>::empty());
    assert(ws.deep_view() + Seq::<Seq<char>>::empty() =~= ws.deep_view());
    ws
}

/// The elements of `ws` joined by `sep`.
pub fn join_words(ws: &Vec<Vec<char>>, sep: &[char]) -> (r: Vec<char>)
    ensures
        r@ == join(ws.deep_view(), sep@),
{
    let mut r: Vec<char> = Vec::new();
    let mut i: usize = 0;
    while i < ws.len()
        invariant
            i <= ws@.len(),
            r@ == join(ws.deep_view().take(i as int), sep@),
        decreases ws.len() - i,
    {
        let ghost prev = ws.deep_view().take(i as int);
        if i == 0 {
            r = copy_range(ws[i].as_slice(), 0, ws[i].len());
        } else {
            r = concat(r.as_slice(), sep);
            r = concat(r.as_slice(), ws[i].as_slice());
        }
        proof {
            let next = ws.deep_view().take(i + 1);
            assert(next.drop_last() =~= prev);
            assert(next.last() == ws[i as int]@);
        }
        i += 1;
    }
    assert(ws.deep_view().take(ws@.len() as int) =~= ws.deep_view());
    r
}

/// A word as `words` yields them: not empty, and without white space.
pub open spec fn is_word(w: Seq<char>) -> bool {
    w.len() > 0 && forall|j: int| 0 <= j < w.len() ==> !is_white(#[trigger] w[j])
}

/// The words of a text are words, and hold no character that the text
/// does not hold.
pub proof fn lemma_words_are_words(s: Seq<char>, c: char)
    requires
        forall|i: int| 0 <= i < s.len() ==> s[i] != c,
    ensures
        forall|k: int| 0 <= k < words(s).len() ==> is_word(#[trigger] words(s)[k]),
        forall|k: int, j: int|
            0 <= k < words(s).len() && 0 <= j < words(s)[k].len() ==> #[trigger] words(s)[k][j]
                != c,
    decreases s.len(),
{
    if s.len() == 0 {
    } else if is_white(s[0]) {
        let t = s.drop_first();
        assert forall|i: int| 0 <= i < t.len() implies t[i] != c by {
            assert(t[i] == s[i + 1]);
        }
        lemma_words_are_words(t, c);
        assert(words(s) == words(t));
    } else {
        let n = lead(s, CharClass::NonWhite);
        lemma_lead_bound(s, CharClass::NonWhite);
        assert(n >= 1);
        let first = s.take(n as int);
        let rest = s.skip(n as int);
        assert forall|i: int| 0 <= i < rest.len() implies rest[i] != c by {
            assert(rest[i] == s[i + n]);
        }
        lemma_words_are_words(rest, c);
        assert(words(s) == seq![first] + words(rest));
        assert forall|k: int| 0 <= k < words(s).len() implies is_word(#[trigger] words(s)[k]) by {
            if k == 0 {
                assert(words(s)[0] == first);
                assert forall|j: int| 0 <= j < first.len() implies !is_white(#[trigger] first[j]) by {
                    assert(first[j] == s[j]);
                    assert(in_class(CharClass::NonWhite, s[j]));
                }
            } else {
                assert(words(s)[k] == words(rest)[k - 1]);
            }
        }
        assert forall|k: int, j: int|
            0 <= k < words(s).len() && 0 <= j < words(s)[k].len() implies #[trigger] words(s)[k][j]
                != c by {
            if k == 0 {
                assert(words(s)[0] == first);
                assert(first[j] == s[j]);
            } else {
                assert(words(s)[k] == words(rest)[k - 1]);
            }
        }
    }
}

/// A white-space character between two texts separates their words.
pub proof fn lemma_words_split(a: Seq<char>, b: Seq<char>)
    ensures
        words(a + seq![' '] + b) == words(a) + words(b),
    decreases a.len(),
{
    let s = a + seq![' '] + b;
    assert(is_white(' '));
    if a.len() == 0 {
        assert(s[0] == ' ');
        assert(s.drop_first() =~= b);
        assert(words(a) =~= Seq::<Seq<char>>::empty());
        assert(words(a) + words(b) =~= words(b));
    } else if is_white(a[0]) {
        assert(s[0] == a[0]);
        assert(s.drop_first() =~= a.drop_first() + seq![' '] + b);
        lemma_words_split(a.drop_first(), b);
        assert(words(a) == words(a.drop_first()));
    } else {
        let n = lead(a, CharClass::NonWhite);
        lemma_lead_bound(a, CharClass::NonWhite);
        assert forall|j: int| 0 <= j < n implies in_class(CharClass::NonWhite, #[trigger] s[j]) by {
            assert(s[j] == a[j]);
        }
        if n < a.len() {
            assert(s[n as int] == a[n as int]);
        } else {
            assert(s[n as int] == ' ');
        }
        lemma_lead_is_first_outside(s, CharClass::NonWhite, n as int);
        assert(s[0] == a[0]);
        assert(s.take(n as int) =~= a.take(n as int));
        assert(s.skip(n as int) =~= a.skip(n as int) + seq![' '] + b);
        lemma_words_split(a.skip(n as int), b);
        assert(words(a) == seq![a.take(n as int)] + words(a.skip(n as int)));
        assert(words(s) == seq![s.take(n as int)] + words(s.skip(n as int)));
        assert(words(s) =~= words(a) + words(b));
    }
}

/// A word is its own only word.
pub proof fn lemma_words_of_word(w: Seq<char>)
    requires
        is_word(w),
    ensures
        words(w) == seq![w],
{
    assert forall|j: int| 0 <= j < w.len() implies in_class(CharClass::NonWhite, #[trigger] w[j]) by {}
    lemma_lead_is_first_outside(w, CharClass::NonWhite, w.len() as int);
    assert(w.take(w.len() as int) =~= w);
    assert(w.skip(w.len() as int) =~= Seq::<char>::empty());
    assert(words(Seq::<char>::empty()) =~= Seq::<Seq<char>>::empty());
    assert(seq![w] + Seq::<Seq<char>>::empty() =~= seq![w]);
}

/// Joining words with single spaces and splitting again gives the words
/// back.
pub proof fn lemma_words_of_joined(ws: Seq<Seq<char>>)
    requires
        forall|k: int| 0 <= k < ws.len() ==> is_word(#[trigger] ws[k]),
    ensures
        words(join(ws, seq![' '])) == ws,
    decreases ws.len(),
{
    if ws.len() == 0 {
        assert(words(Seq::<char>::empty()) =~= ws);
    } else if ws.len() == 1 {
        assert(is_word(ws[0]));
        lemma_words_of_word(ws[0]);
        assert(seq![ws[0]] =~= ws);
    } else {
        let init = ws.drop_last();
        assert forall|k: int| 0 <= k < init.len() implies is_word(#[trigger] init[k]) by {
            assert(init[k] == ws[k]);
        }
        lemma_words_of_joined(init);
        assert(is_word(ws[ws.len() - 1]));
        lemma_words_of_word(ws.last());
        lemma_words_split(join(init, seq![' ']), ws.last());
        assert(init + seq![ws.last()] =~= ws);
    }
}

/* ------------------------------------------------------------------ */
/* Searching and replacing                                              */
/* ------------------------------------------------------------------ */

/// `pat` occurs in `s` starting at index `i`.
pub open spec fn occurs_at(s: Seq<char>, pat: Seq<char>, i: int) -> bool {
    0 <= i && i + pat.len() <= s.len() && s.subrange(i, i + pat.len()) == pat
}

/// The first index, at or after `i`, where `pat` occurs in `s`.
pub open spec fn find_from(s: Seq<char>, pat: Seq<char>, i: int) -> Option<int>
    decreases s.len() + 1 - i,
{
    if i < 0 || i + pat.len() > s.len() {
        None
    } else if occurs_at(s, pat, i) {
        Some(i)
    } else {
        find_from(s, pat, i + 1)
    }
}

/// The first index where `pat` occurs in `s` (what `str::find` answers, in characters).
pub open spec fn find_seq(s: Seq<char>, pat: Seq<char>) -> Option<int> {
    find_from(s, pat, 0)
}

/// `find_from` answers the first occurrence at or after `i`.
pub proof fn lemma_find_from(s: Seq<char>, pat: Seq<char>, i: int)
    requires
        0 <= i,
    ensures
        find_from(s, pat, i) matches Some(k) ==> i <= k && occurs_at(s, pat, k) && forall|j: int|
            i <= j < k ==> !occurs_at(s, pat, j),
        find_from(s, pat, i) is None ==> forall|j: int| i <= j ==> !occurs_at(s, pat, j),
    decreases s.len() + 1 - i,
{
    if i + pat.len() > s.len() {
    } else if occurs_at(s, pat, i) {
    } else {
        lemma_find_from(s, pat, i + 1);
    }
}

/// `find_seq` answers the first occurrence.
pub proof fn lemma_find_seq(s: Seq<char>, pat: Seq<char>)
    ensures
        find_seq(s, pat) matches Some(k) ==> occurs_at(s, pat, k) && forall|j: int|
            0 <= j < k ==> !occurs_at(s, pat, j),
        find_seq(s, pat) is None ==> forall|j: int| !occurs_at(s, pat, j),
{
    lemma_find_from(s, pat, 0);
}

/// Whether `pat` occurs in `v` at index `i`.
pub fn matches_at(v: &[char], pat: &[char], i: usize) -> (r: bool)
    ensures
        r == occurs_at(v@, pat@, i as int),
{
    if i > v.len() || pat.len() > v.len() - i {
        return false;
    }
    let n = v.len();
    let mut k: usize = 0;
    while k < pat.len()
        invariant
            n == v@.len(),
            i + pat@.len() <= v@.len(),
            k <= pat@.len(),
            forall|j: int| 0 <= j < k ==> v@[i + j] == pat@[j],
        decreases pat.len() - k,
    {
        if v[i + k] != pat[k] {
            assert(v@.subrange(i as int, i + pat@.len())[k as int] != pat@[k as int]);
            return false;
        }
        k += 1;
    }
    assert(v@.subrange(i as int, i + pat@.len()) =~= pat@);
    true
}

/// The first index where `pat` occurs in `v`.
pub fn find(v: &[char], pat: &[char]) -> (r: Option<usize>)
    ensures
        r matches Some(k) ==> find_seq(v@, pat@) == Some(k as int),
        r is None ==> find_seq(v@, pat@) is None,
{
    if pat.len() > v.len() {
        return None;
    }
    let last = v.len() - pat.len();
    let mut i: usize = 0;
    while i < last
        invariant
            last + pat@.len() == v@.len(),
            i <= last,
            find_seq(v@, pat@) == find_from(v@, pat@, i as int),
        decreases last - i,
    {
        if matches_at(v, pat, i) {
            return Some(i);
        }
        i += 1;
    }
    if matches_at(v, pat, last) {
        Some(last)
    } else {
        assert(find_from(v@, pat@, last + 1) is None);
        None
    }
}

/// Index of the first occurrence of `c` in `s`.
pub open spec fn find_char_spec(s: Seq<char>, c: char) -> Option<int> {
    find_seq(s, seq![c])
}

/// The first index of `c` in `v`.
pub fn find_char(v: &[char], c: char) -> (r: Option<usize>)
    ensures
        r matches Some(k) ==> find_char_spec(v@, c) == Some(k as int),
        r is None ==> find_char_spec(v@, c) is None,
{
    let pat = vec![c];
    assert(pat@ =~= seq![c]);
    find(v, pat.as_slice())
}

/// `s` with every `from` replaced by `to`.
pub open spec fn replace_char(s: Seq<char>, from: char, to: char) -> Seq<char> {
    s.map_values(|c: char| if c == from { to } else { c })
}

/// `v` with every `from` replaced by `to`.
pub fn replace_chars(v: &[char], from: char, to: char) -> (r: Vec<char>)
    ensures
        r@ == replace_char(v@, from, to),
{
    let mut r: Vec<char> = Vec::new();
    let mut i: usize = 0;
    while i < v.len()
        invariant
            i <= v@.len(),
            r@ == replace_char(v@.take(i as int), from, to),
        decreases v.len() - i,
    {
        let c = if v[i] == from {
            to
        } else {
            v[i]
        };
        r.push(c);
        i += 1;
        assert(r@ =~= replace_char(v@.take(i as int), from, to));
    }
    assert(v@.take(v@.len() as int) =~= v@);
    r
}

/* ------------------------------------------------------------------ */
/* UTF-8 lengths                                                        */
/* ------------------------------------------------------------------ */

/// Number of bytes of the UTF-8 encoding of `c`.
pub open spec fn char_width(c: char) -> nat {
    if (c as u32) < 0x80 {
        1
    } else if (c as u32) < 0x800 {
        2
    } else if (c as u32) < 0x10000 {
        3
    } else {
        4
    }
}

/// Number of bytes of the UTF-8 encoding of `s` (what `str::len` answers).
pub open spec fn byte_len(s: Seq<char>) -> nat
    decreases s.len(),
{
    if s.len() == 0 {
        0
    } else {
        byte_len(s.drop_last()) + char_width(s.last())
    }
}

/// The number of characters of `s` that take up its first `b` bytes, when
/// `b` falls between characters.
pub open spec fn char_index_at_byte(s: Seq<char>, b: int) -> Option<nat>
    decreases s.len(),
{
    if b == 0 {
        Some(0)
    } else if s.len() == 0 || b < char_width(s[0]) {
        None
    } else {
        match char_index_at_byte(s.drop_first(), b - char_width(s[0])) {
            Some(k) => Some(k + 1),
            None => None,
        }
    }
}

pub proof fn lemma_byte_len_concat(a: Seq<char>, b: Seq<char>)
    ensures
        byte_len(a + b) == byte_len(a) + byte_len(b),
    decreases b.len(),
{
    if b.len() == 0 {
        assert(a + b =~= a);
    } else {
        lemma_byte_len_concat(a, b.drop_last());
        assert((a + b).drop_last() =~= a + b.drop_last());
    }
}

pub proof fn lemma_byte_len_single(c: char)
    ensures
        byte_len(seq![c]) == char_width(c),
{
    assert(seq![c].drop_last() =~= Seq::<char>::empty());
    assert(byte_len(Seq::<char>::empty()) == 0);
}

/// A prefix is at most as long, in bytes, as the whole.
pub proof fn lemma_byte_len_prefix(s: Seq<char>, i: int)
    requires
        0 <= i <= s.len(),
    ensures
        byte_len(s.take(i)) <= byte_len(s),
        byte_len(s.take(i)) + byte_len(s.skip(i)) == byte_len(s),
{
    lemma_byte_len_concat(s.take(i), s.skip(i));
    assert(s.take(i) + s.skip(i) =~= s);
}

/// A longer run of characters from the same place takes more bytes.
pub proof fn lemma_byte_len_grows(s: Seq<char>, i: int, m1: int, m2: int)
    requires
        0 <= i,
        0 <= m1 < m2,
        i + m2 <= s.len(),
    ensures
        byte_len(s.subrange(i, i + m1)) < byte_len(s.subrange(i, i + m2)),
{
    let a = s.subrange(i, i + m1);
    let b = s.subrange(i + m1, i + m2);
    assert(a + b =~= s.subrange(i, i + m2));
    lemma_byte_len_concat(a, b);
    assert(b.len() > 0);
    assert(byte_len(b) == byte_len(b.drop_last()) + char_width(b.last()));
}

/// A run of characters takes no more bytes than the text it is in.
pub proof fn lemma_byte_len_subrange(s: Seq<char>, i: int, j: int)
    requires
        0 <= i <= j <= s.len(),
    ensures
        byte_len(s.subrange(i, j)) <= byte_len(s),
{
    lemma_byte_len_prefix(s, j);
    lemma_byte_len_prefix(s.take(j), i);
    assert(s.take(j).skip(i) =~= s.subrange(i, j));
}

/// Width in bytes of `c`.
pub fn char_utf8_width(c: char) -> (n: usize)
    ensures
        n == char_width(c),
{
    let u = c as u32;
    if u < 0x80 {
        1
    } else if u < 0x800 {
        2
    } else if u < 0x10000 {
        3
    } else {
        4
    }
}

/// Byte length of `v` as UTF-8.
pub fn utf8_len(v: &[char]) -> (n: usize)
    requires
        byte_len(v@) <= usize::MAX,
    ensures
        n == byte_len(v@),
{
    let mut n: usize = 0;
    let mut i: usize = 0;
    while i < v.len()
        invariant
            i <= v@.len(),
            byte_len(v@) <= usize::MAX,
            n == byte_len(v@.take(i as int)),
        decreases v.len() - i,
    {
        proof {
            assert(v@.take(i + 1).drop_last() =~= v@.take(i as int));
            lemma_byte_len_prefix(v@, i + 1);
        }
        n = n + char_utf8_width(v[i]);
        i += 1;
    }
    assert(v@.take(v@.len() as int) =~= v@);
    n
}

/* ------------------------------------------------------------------ */
/* Decimal numerals                                                     */
/* ------------------------------------------------------------------ */

/// The character of a decimal digit.
pub open spec fn digit_char(d: int) -> char {
    if d == 0 {
        '0'
    } else if d == 1 {
        '1'
    } else if d == 2 {
        '2'
    } else if d == 3 {
        '3'
    } else if d == 4 {
        '4'
    } else if d == 5 {
        '5'
    } else if d == 6 {
        '6'
    } else if d == 7 {
        '7'
    } else if d == 8 {
        '8'
    } else {
        '9'
    }
}

/// The decimal numeral of `n`, as `Display` writes an unsigned integer.
pub open spec fn decimal(n: nat) -> Seq<char>
    decreases n,
{
    if n < 10 {
        seq![digit_char(n as int)]
    } else {
        decimal(n / 10).push(digit_char((n % 10) as int))
    }
}

/// The decimal numeral of `i`, with `-` before a negative one.
pub open spec fn signed_decimal(i: int) -> Seq<char> {
    if i < 0 {
        seq!['-'] + decimal((-i) as nat)
    } else {
        decimal(i as nat)
    }
}

fn digit(d: u64) -> (c: char)
    requires
        d < 10,
    ensures
        c == digit_char(d as int),
{
    if d == 0 {
        '0'
    } else if d == 1 {
        '1'
    } else if d == 2 {
        '2'
    } else if d == 3 {
        '3'
    } else if d == 4 {
        '4'
    } else if d == 5 {
        '5'
    } else if d == 6 {
        '6'
    } else if d == 7 {
        '7'
    } else if d == 8 {
        '8'
    } else {
        '9'
    }
}

/// Appends the decimal numeral of `n`.
pub fn push_decimal(out: &mut Vec<char>, n: u64)
    ensures
        final(out)@ == old(out)@ + decimal(n as nat),
    decreases n,
{
    if n >= 10 {
        push_decimal(out, n / 10);
    }
    out.push(digit(n % 10));
    proof {
        if n >= 10 {
            assert(old(out)@ + decimal(n as nat) =~= old(out)@ + decimal((n / 10) as nat) + seq![
                digit_char((n % 10) as int),
            ]);
        }
    }
}

/// Appends the decimal numeral of `i`, with `-` before a negative one.
pub fn push_signed_decimal(out: &mut Vec<char>, i: i64)
    ensures
        final(out)@ == old(out)@ + signed_decimal(i as int),
{
    if i < 0 {
        out.push('-');
        let m = (0i128 - (i as i128)) as u64;
        push_decimal(out, m);
        assert(final(out)@ =~= old(out)@ + signed_decimal(i as int));
    } else {
        push_decimal(out, i as u64);
    }
}

/// Appends the characters of `s`.
pub fn push_text(out: &mut Vec<char>, s: &str)
    ensures
        final(out)@ == old(out)@ + s@,
{
    let v = chars_of(s);
    let ghost start = out@;
    let mut i: usize = 0;
    while i < v.len()
        invariant
            i <= v@.len(),
            v@ == s@,
            out@ == start + v@.take(i as int),
        decreases v.len() - i,
    {
        out.push(v[i]);
        i += 1;
        assert(out@ =~= start + v@.take(i as int));
    }
    assert(v@.take(v@.len() as int) =~= v@);
}

/// Appends the characters of `v`.
pub fn push_chars(out: &mut Vec<char>, v: &[char])
    ensures
        final(out)@ == old(out)@ + v@,
{
    let ghost start = out@;
    let mut i: usize = 0;
    while i < v.len()
        invariant
            i <= v@.len(),
            out@ == start + v@.take(i as int),
        decreases v.len() - i,
    {
        out.push(v[i]);
        i += 1;
        assert(out@ =~= start + v@.take(i as int));
    }
    assert(v@.take(v@.len() as int) =~= v@);
}

/* ------------------------------------------------------------------ */
/* Unicode case mappings                                                */
/* ------------------------------------------------------------------ */

/// An ASCII character.
pub open spec fn is_ascii_char(c: char) -> bool {
    (c as u32) < 128
}

/// A string of ASCII characters.
pub open spec fn is_ascii_text(s: Seq<char>) -> bool {
    forall|i: int| 0 <= i < s.len() ==> is_ascii_char(#[trigger] s[i])
}

/// The upper case of an ASCII character: `a` to `z` become `A` to `Z`,
/// every other character stays.
pub open spec fn ascii_upper(c: char) -> char {
    if 'a' <= c && c <= 'z' {
        ((c as u32) - 32) as char
    } else {
        c
    }
}

/// The lower case of an ASCII character: `A` to `Z` become `a` to `z`,
/// every other character stays.
pub open spec fn ascii_lower(c: char) -> char {
    if 'A' <= c && c <= 'Z' {
        ((c as u32) + 32) as char
    } else {
        c
    }
}

/// What `str::to_lowercase` gives for a string that is not all ASCII (its
/// Unicode lowercase mapping).
pub uninterp spec fn unicode_lowercase(s: Seq<char>) -> Seq<char>;

/// What `str::to_lowercase` gives for a string: for ASCII text the ASCII
/// lower case of each character, otherwise the Unicode lowercase mapping.
pub open spec fn lowercase(s: Seq<char>) -> Seq<char> {
    if is_ascii_text(s) {
        s.map_values(|c: char| ascii_lower(c))
    } else {
        unicode_lowercase(s)
    }
}

/// What `str::to_uppercase` gives for a string (Unicode uppercase mapping).
pub uninterp spec fn uppercase(s: Seq<char>) -> Seq<char>;

/// What `char::to_uppercase` yields first for a non-ASCII character (its
/// Unicode uppercase mapping, or the character itself where it has none).
pub uninterp spec fn unicode_uppercase_first(c: char) -> char;

/// What `char::to_uppercase` yields first for a character: for ASCII its
/// ASCII upper case, otherwise the Unicode mapping.
pub open spec fn uppercase_first(c: char) -> char {
    if is_ascii_char(c) {
        ascii_upper(c)
    } else {
        unicode_uppercase_first(c)
    }
}

/// Calls `str::to_lowercase`. For ASCII text the result is the ASCII lower
/// case of each character (ASCII letters have one-to-one case mappings in
/// the Unicode data that std follows; other ASCII characters have none);
/// for other text the Unicode mapping is named, not stated.
#[verifier::external_body]
pub(crate) fn to_lowercase(s: &str) -> (r: String)
    ensures
        r@ == lowercase(s@),
        !is_ascii_text(s@) ==> r@ == unicode_lowercase(s@),
{
    s.to_lowercase()
}

/// Calls `str::to_uppercase`. The Unicode uppercase mapping is not stated:
/// the contract only names the result as a function of the input.
#[verifier::external_body]
pub(crate) fn to_uppercase(s: &str) -> (r: String)
    ensures
        r@ == uppercase(s@),
{
    s.to_uppercase()
}

/// Calls `char::to_uppercase` and takes the first character it yields, or
/// `c` where it yields none. For an ASCII character that is its ASCII upper
/// case (`a` to `z` map one to one, other ASCII characters have no mapping
/// and are yielded unchanged); for others the mapping is named, not stated.
#[verifier::external_body]
pub(crate) fn to_uppercase_first(c: char) -> (r: char)
    ensures
        r == uppercase_first(c),
        !is_ascii_char(c) ==> r == unicode_uppercase_first(c),
{
    c.to_uppercase().next().unwrap_or(c)
}

/// The lowercase form of a character sequence.
pub fn lower_chars(v: &[char]) -> (r: Vec<char>)
    ensures
        r@ == lowercase(v@),
{
    let s = string_from(v);
    let l = to_lowercase(s.as_str());
    chars_of(l.as_str())
}

} // verus!
