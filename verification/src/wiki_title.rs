//! Wikipedia page titles and their normal form.

use vstd::prelude::*;

use crate::text::{
    CharClass, chars_equal, chars_equal_str, chars_of, copy_range, find, find_char,
    ascii_upper, find_char_spec, find_seq, is_ascii_char, is_white, is_word, join, join_words,
    lemma_find_seq, lemma_lead_bound, lemma_trail_bound, lead, trail,
    lemma_words_are_words, lemma_words_of_joined, lowercase, occurs_at, replace_char,
    replace_chars, split_words, string_from, to_lowercase, to_uppercase_first, trim, trimmed,
    uppercase_first, words,
};

verus! {

broadcast use vstd::string::group_string_axioms;

/// The normal form of a title: underscores read as spaces, white-space runs
/// collapsed to single spaces, no leading or trailing white space, first
/// character in upper case.
pub open spec fn normalize_title(s: Seq<char>) -> Seq<char> {
    capitalize(join(words(replace_char(s, '_', ' ')), seq![' ']))
}

/// `s` with its first character mapped to upper case.
pub open spec fn capitalize(s: Seq<char>) -> Seq<char> {
    if s.len() == 0 {
        s
    } else {
        s.update(0, uppercase_first(s[0]))
    }
}

/// The namespaces that a title prefix `Name:` is recognised as.
pub open spec fn is_known_namespace(p: Seq<char>) -> bool {
    ||| p == "User"@
    ||| p == "Wikipedia"@
    ||| p == "File"@
    ||| p == "MediaWiki"@
    ||| p == "Template"@
    ||| p == "Help"@
    ||| p == "Category"@
    ||| p == "Portal"@
    ||| p == "Book"@
    ||| p == "Draft"@
    ||| p == "Education Program"@
    ||| p == "TimedText"@
    ||| p == "Module"@
    ||| p == "Gadget"@
    ||| p == "Gadget definition"@
    ||| p == "Topic"@
}

/// The namespace prefix of a normalized title, when it is a known one.
pub open spec fn namespace_of(n: Seq<char>) -> Option<Seq<char>> {
    match find_char_spec(n, ':') {
        Some(p) => if is_known_namespace(n.take(p)) {
            Some(n.take(p))
        } else {
            None
        },
        None => None,
    }
}

/// A normalized title without its known namespace prefix.
pub open spec fn without_namespace_of(n: Seq<char>) -> Seq<char> {
    match (namespace_of(n), find_char_spec(n, ':')) {
        (Some(_), Some(p)) => n.skip(p + 1),
        _ => n,
    }
}

/// The part of a normalized title before its first `(`, trimmed.
pub open spec fn main_title_of(n: Seq<char>) -> Seq<char> {
    match find_char_spec(n, '(') {
        Some(p) => trimmed(n.take(p), CharClass::White),
        None => n,
    }
}

/// The text between the first `(` and the first `)` of a normalized title,
/// when that `)` comes after that `(`.
pub open spec fn disambiguation_of(n: Seq<char>) -> Option<Seq<char>> {
    match (find_char_spec(n, '('), find_char_spec(n, ')')) {
        (Some(s), Some(e)) => if e > s {
            Some(n.subrange(s + 1, e))
        } else {
            None
        },
        _ => None,
    }
}

/// A title with a disambiguation qualifier: one that mentions
/// `(disambiguation)`, or that carries a parenthesised qualifier.
pub open spec fn is_disambiguation_of(n: Seq<char>) -> bool {
    find_seq(n, "(disambiguation)"@) is Some || disambiguation_of(n) is Some
}

/// Two normalized titles that are equal when case is ignored.
pub open spec fn same_ignoring_case(a: Seq<char>, b: Seq<char>) -> bool {
    lowercase(a) == lowercase(b)
}

/// Underscores and spaces are the same in a title: writing the spaces of a
/// title as underscores, or its underscores as spaces, leaves its normal
/// form as it is.
pub proof fn law_underscores_are_spaces(s: Seq<char>)
    ensures
        normalize_title(replace_char(s, ' ', '_')) == normalize_title(s),
        normalize_title(replace_char(s, '_', ' ')) == normalize_title(s),
{
    assert(replace_char(replace_char(s, ' ', '_'), '_', ' ') =~= replace_char(s, '_', ' '));
    assert(replace_char(replace_char(s, '_', ' '), '_', ' ') =~= replace_char(s, '_', ' '));
}

proof fn lemma_join_avoids(ws: Seq<Seq<char>>, c: char)
    requires
        c != ' ',
        forall|k: int, j: int| 0 <= k < ws.len() && 0 <= j < ws[k].len() ==> #[trigger] ws[k][j] != c,
    ensures
        forall|i: int| 0 <= i < join(ws, seq![' ']).len() ==> #[trigger] join(ws, seq![' '])[i] != c,
    decreases ws.len(),
{
    if ws.len() >= 2 {
        let init = ws.drop_last();
        assert forall|k: int, j: int| 0 <= k < init.len() && 0 <= j < init[k].len() implies #[trigger] init[k][j]
            != c by {
            assert(init[k] == ws[k]);
        }
        lemma_join_avoids(init, c);
        let a = join(init, seq![' ']);
        let last = ws.last();
        assert forall|i: int| 0 <= i < join(ws, seq![' ']).len() implies #[trigger] join(ws, seq![' '])[i]
            != c by {
            assert(join(ws, seq![' ']) == a + seq![' '] + last);
            if i < a.len() {
            } else if i == a.len() {
            } else {
                assert(ws[ws.len() - 1][i - a.len() - 1] != c);
            }
        }
    } else if ws.len() == 1 {
        assert forall|i: int| 0 <= i < join(ws, seq![' ']).len() implies #[trigger] join(ws, seq![' '])[i]
            != c by {
            assert(ws[0][i] != c);
        }
    }
}

proof fn lemma_capitalize_join(ws: Seq<Seq<char>>)
    requires
        ws.len() > 0,
        ws[0].len() > 0,
    ensures
        join(ws, seq![' ']).len() > 0,
        join(ws, seq![' '])[0] == ws[0][0],
        join(ws.update(0, capitalize(ws[0])), seq![' ']) == capitalize(join(ws, seq![' '])),
    decreases ws.len(),
{
    let ws2 = ws.update(0, capitalize(ws[0]));
    if ws.len() == 1 {
        assert(join(ws2, seq![' ']) == ws2[0]);
    } else {
        let init = ws.drop_last();
        lemma_capitalize_join(init);
        assert(ws2.drop_last() =~= init.update(0, capitalize(init[0])));
        assert(ws2.last() == ws.last());
        let a = join(init, seq![' ']);
        assert(join(ws, seq![' ']) == a + seq![' '] + ws.last());
        assert(join(ws2, seq![' ']) == capitalize(a) + seq![' '] + ws.last());
        assert(capitalize(a) + seq![' '] + ws.last() =~= capitalize(a + seq![' '] + ws.last()));
    }
}

/// The normal form is stable: normalizing a normalized title gives it back,
/// for titles whose first letter, once upper-cased, is no white space or
/// underscore and stays as it is when upper-cased again.
pub proof fn law_normal_form_is_stable(s: Seq<char>)
    requires
        normalize_title(s).len() > 0 ==> ({
            let f = normalize_title(s)[0];
            &&& !is_white(f)
            &&& f != '_'
            &&& uppercase_first(f) == f
        }),
    ensures
        normalize_title(normalize_title(s)) == normalize_title(s),
{
    let r = replace_char(s, '_', ' ');
    assert forall|i: int| 0 <= i < r.len() implies r[i] != '_' by {}
    lemma_words_are_words(r, '_');
    let ws = words(r);
    lemma_join_avoids(ws, '_');
    let j = join(ws, seq![' ']);
    let n = capitalize(j);
    assert(n == normalize_title(s));
    if j.len() == 0 {
        assert(n =~= j);
        assert(replace_char(n, '_', ' ') =~= n);
        assert(words(n) =~= Seq::<Seq<char>>::empty());
        assert(join(words(n), seq![' ']) =~= n);
    } else {
        if ws.len() == 0 {
            assert(j =~= Seq::<char>::empty());
        }
        assert(is_word(ws[0]));
        lemma_capitalize_join(ws);
        let u = uppercase_first(j[0]);
        assert(n[0] == u);
        assert forall|i: int| 0 <= i < n.len() implies n[i] != '_' by {
            if i > 0 {
                assert(n[i] == j[i]);
            }
        }
        assert(replace_char(n, '_', ' ') =~= n);
        let ws2 = ws.update(0, capitalize(ws[0]));
        assert forall|k: int| 0 <= k < ws2.len() implies is_word(#[trigger] ws2[k]) by {
            if k == 0 {
                let w = capitalize(ws[0]);
                assert(w[0] == uppercase_first(ws[0][0]));
                assert forall|q: int| 0 <= q < w.len() implies !is_white(#[trigger] w[q]) by {
                    if q > 0 {
                        assert(w[q] == ws[0][q]);
                    }
                }
            } else {
                assert(ws2[k] == ws[k]);
            }
        }
        lemma_words_of_joined(ws2);
        assert(words(n) == ws2);
        assert(capitalize(n) =~= n);
    }
}

/// The first letter of a title: the first character of its first word.
pub open spec fn first_letter(s: Seq<char>) -> char {
    words(replace_char(s, '_', ' '))[0][0]
}

/// A title whose first letter, if it has one, is an ASCII character.
pub open spec fn has_ascii_first_letter(s: Seq<char>) -> bool {
    words(replace_char(s, '_', ' ')).len() > 0 ==> is_ascii_char(first_letter(s))
}

proof fn lemma_join_shape(ws: Seq<Seq<char>>)
    requires
        forall|k: int| 0 <= k < ws.len() ==> is_word(#[trigger] ws[k]),
        forall|k: int, j: int| 0 <= k < ws.len() && 0 <= j < ws[k].len() ==> #[trigger] ws[k][j] != '_',
    ensures
        ({
            let t = join(ws, seq![' ']);
            &&& forall|i: int| 0 <= i < t.len() ==> #[trigger] t[i] != '_' && (is_white(t[i]) ==> t[i] == ' ')
            &&& forall|i: int| 0 <= i && i + 1 < t.len() ==> !(#[trigger] t[i] == ' ' && t[i + 1] == ' ')
            &&& t.len() > 0 ==> !is_white(t[0]) && !is_white(t.last())
            &&& ws.len() > 0 ==> t.len() > 0
        }),
    decreases ws.len(),
{
    let t = join(ws, seq![' ']);
    if ws.len() == 1 {
        assert(t == ws[0]);
        assert(is_word(ws[0]));
        assert forall|i: int| 0 <= i < t.len() implies #[trigger] t[i] != '_' && (is_white(t[i]) ==> t[i]
            == ' ') by {
            assert(ws[0][i] != '_');
        }
    } else if ws.len() >= 2 {
        let init = ws.drop_last();
        assert forall|k: int| 0 <= k < init.len() implies is_word(#[trigger] init[k]) by {
            assert(init[k] == ws[k]);
        }
        assert forall|k: int, j: int| 0 <= k < init.len() && 0 <= j < init[k].len() implies #[trigger] init[k][j]
            != '_' by {
            assert(init[k] == ws[k]);
        }
        lemma_join_shape(init);
        let a = join(init, seq![' ']);
        let w = ws.last();
        assert(is_word(ws[ws.len() - 1]));
        assert(t == a + seq![' '] + w);
        assert(is_white(' '));
        assert forall|i: int| 0 <= i < t.len() implies #[trigger] t[i] != '_' && (is_white(t[i]) ==> t[i]
            == ' ') by {
            if i < a.len() {
                assert(t[i] == a[i]);
            } else if i > a.len() {
                assert(t[i] == w[i - a.len() - 1]);
                assert(ws[ws.len() - 1][i - a.len() - 1] != '_');
            }
        }
        assert forall|i: int| 0 <= i && i + 1 < t.len() implies !(#[trigger] t[i] == ' ' && t[i + 1]
            == ' ') by {
            if i + 1 < a.len() {
                assert(t[i] == a[i] && t[i + 1] == a[i + 1]);
            } else if i + 1 == a.len() {
                assert(t[i] == a.last());
            } else if i == a.len() {
                assert(t[i + 1] == w[0]);
            } else {
                assert(t[i] == w[i - a.len() - 1]);
            }
        }
        assert(t[0] == a[0]);
        assert(t.last() == w.last());
    }
}

/// What the normal form looks like: no underscores and no white space but
/// single spaces between words after its first letter, and no space at its
/// end; its first letter is no white space or underscore when it is ASCII.
pub proof fn law_normal_form_shape(s: Seq<char>)
    ensures
        ({
            let n = normalize_title(s);
            &&& forall|i: int| 0 < i < n.len() ==> #[trigger] n[i] != '_' && (is_white(n[i]) ==> n[i] == ' ')
            &&& forall|i: int| 0 < i && i + 1 < n.len() ==> !(#[trigger] n[i] == ' ' && n[i + 1] == ' ')
            &&& n.len() > 1 ==> !is_white(n.last())
            &&& n.len() > 0 && has_ascii_first_letter(s) ==> !is_white(n[0]) && n[0] != '_'
        }),
{
    let r = replace_char(s, '_', ' ');
    assert forall|i: int| 0 <= i < r.len() implies r[i] != '_' by {}
    lemma_words_are_words(r, '_');
    let ws = words(r);
    lemma_join_shape(ws);
    let j = join(ws, seq![' ']);
    let n = capitalize(j);
    if j.len() > 0 {
        if ws.len() == 0 {
            assert(j =~= Seq::<char>::empty());
        }
        assert(is_word(ws[0]));
        lemma_capitalize_join(ws);
        assert forall|i: int| 0 < i < n.len() implies #[trigger] n[i] == j[i] by {}
        assert(n.len() > 1 ==> n.last() == j.last());
        if has_ascii_first_letter(s) {
            assert(first_letter(s) == j[0]);
            assert(!is_white(j[0]));
            assert(ws[0][0] != '_');
        }
    }
}

/// For a title whose first letter is ASCII, the normal form is stable:
/// normalizing it again gives it back.
pub proof fn law_normal_form_is_stable_ascii(s: Seq<char>)
    requires
        has_ascii_first_letter(s),
    ensures
        normalize_title(normalize_title(s)) == normalize_title(s),
{
    let n = normalize_title(s);
    if n.len() > 0 {
        let r = replace_char(s, '_', ' ');
        assert forall|i: int| 0 <= i < r.len() implies r[i] != '_' by {}
        lemma_words_are_words(r, '_');
        let ws = words(r);
        let j = join(ws, seq![' ']);
        if ws.len() == 0 {
            assert(j =~= Seq::<char>::empty());
        }
        assert(is_word(ws[0]));
        lemma_capitalize_join(ws);
        let fl = first_letter(s);
        assert(fl == j[0]);
        assert(!is_white(fl) && fl != '_');
        assert(n[0] == ascii_upper(fl));
    }
    law_normal_form_is_stable(s);
}

/// For a title whose first letter is ASCII, its URL form names the same
/// title, and the title equals (ignoring case) its normal form and its URL
/// form once these are normalized.
pub proof fn law_title_forms_agree(s: Seq<char>)
    requires
        has_ascii_first_letter(s),
    ensures
        normalize_title(replace_char(normalize_title(s), ' ', '_')) == normalize_title(s),
        same_ignoring_case(normalize_title(s), normalize_title(normalize_title(s))),
        same_ignoring_case(normalize_title(s), normalize_title(replace_char(normalize_title(s), ' ', '_'))),
{
    law_normal_form_is_stable_ascii(s);
    law_underscores_are_spaces(normalize_title(s));
}

/// The main title holds no `(` and ends in no white space (but for a
/// lone first letter that is not ASCII, whose upper case is not stated);
/// without a `(` it is the whole normal form, and for a title whose first
/// letter is ASCII it begins the normal form.
pub proof fn law_main_title(s: Seq<char>)
    ensures
        ({
            let n = normalize_title(s);
            let m = main_title_of(n);
            &&& forall|i: int| 0 <= i < m.len() ==> #[trigger] m[i] != '('
            &&& m.len() > 0 && (m.len() > 1 || has_ascii_first_letter(s)) ==> !is_white(m.last())
            &&& find_char_spec(n, '(') is None ==> m == n
            &&& has_ascii_first_letter(s) ==> m.len() <= n.len() && m == n.take(m.len() as int)
        }),
{
    let n = normalize_title(s);
    lemma_find_seq(n, seq!['(']);
    law_normal_form_shape(s);
    match find_char_spec(n, '(') {
        Some(p) => {
            let x = n.take(p);
            assert forall|i: int| 0 <= i < x.len() implies x[i] != '(' by {
                assert(!occurs_at(n, seq!['('], i));
                assert(n.subrange(i, i + 1) =~= seq![n[i]]);
            }
            lemma_lead_bound(x, CharClass::White);
            let t = x.skip(lead(x, CharClass::White) as int);
            lemma_trail_bound(t, CharClass::White);
            let m = main_title_of(n);
            assert(m == t.take(t.len() - trail(t, CharClass::White)));
            assert forall|i: int| 0 <= i < m.len() implies #[trigger] m[i] != '(' by {
                assert(m[i] == x[i + lead(x, CharClass::White)]);
            }
            if m.len() > 0 {
                assert(m.last() == t[t.len() - trail(t, CharClass::White) - 1]);
            }
            if has_ascii_first_letter(s) && x.len() > 0 {
                assert(x[0] == n[0]);
                assert(lead(x, CharClass::White) == 0);
                assert(m =~= n.take(m.len() as int));
            }
            if x.len() == 0 {
                assert(m.len() == 0);
                assert(m =~= n.take(0));
            }
        },
        None => {
            assert forall|i: int| 0 <= i < n.len() implies n[i] != '(' by {
                assert(!occurs_at(n, seq!['('], i));
                assert(n.subrange(i, i + 1) =~= seq![n[i]]);
            }
        },
    }
}

/// A title with a known namespace is that namespace, a `:` and the title
/// without the namespace.
pub proof fn law_namespace_split(n: Seq<char>)
    requires
        namespace_of(n) is Some,
    ensures
        namespace_of(n)->0 + seq![':'] + without_namespace_of(n) == n,
{
    lemma_find_seq(n, seq![':']);
    let p = find_char_spec(n, ':')->0;
    assert(occurs_at(n, seq![':'], p));
    assert(n.subrange(p, p + 1)[0] == n[p]);
    assert(n[p] == ':');
    assert(n.take(p) + seq![':'] + n.skip(p + 1) =~= n);
}

/// The abstract value of a `WikiTitle`.
pub struct WikiTitleView {
    pub raw: Seq<char>,
    pub normalized: Seq<char>,
    pub language: Seq<char>,
}

/// A Wikipedia page title with its normal form.
#[derive(Debug)]
pub struct WikiTitle {
    /// The title as it was given.
    raw: String,
    /// The normal form of `raw`.
    normalized: String,
    language: String,
}

impl View for WikiTitle {
    type V = WikiTitleView;

    closed spec fn view(&self) -> WikiTitleView {
        WikiTitleView { raw: self.raw@, normalized: self.normalized@, language: self.language@ }
    }
}

impl Clone for WikiTitle {
    fn clone(&self) -> (r: Self)
        ensures
            r@ == self@,
    {
        proof {
            use_type_invariant(self);
        }
        WikiTitle {
            raw: self.raw.clone(),
            normalized: self.normalized.clone(),
            language: self.language.clone(),
        }
    }
}

/// The normal form of a title given as characters.
pub fn normalize_chars(v: &[char]) -> (r: Vec<char>)
    ensures
        r@ == normalize_title(v@),
{
    let replaced = replace_chars(v, '_', ' ');
    let ws = split_words(replaced.as_slice());
    let sep = vec![' '];
    assert(sep@ =~= seq![' ']);
    let mut joined = join_words(&ws, sep.as_slice());
    if joined.len() > 0 {
        let u = to_uppercase_first(joined[0]);
        joined.set(0, u);
    }
    assert(joined@ =~= normalize_title(v@));
    joined
}

/// Whether `p` is one of the recognised namespace names.
fn known_namespace(p: &[char]) -> (r: bool)
    ensures
        r == is_known_namespace(p@),
{
    chars_equal_str(p, "User") || chars_equal_str(p, "Wikipedia") || chars_equal_str(p, "File")
        || chars_equal_str(p, "MediaWiki") || chars_equal_str(p, "Template") || chars_equal_str(
        p,
        "Help",
    ) || chars_equal_str(p, "Category") || chars_equal_str(p, "Portal") || chars_equal_str(
        p,
        "Book",
    ) || chars_equal_str(p, "Draft") || chars_equal_str(p, "Education Program")
        || chars_equal_str(p, "TimedText") || chars_equal_str(p, "Module") || chars_equal_str(
        p,
        "Gadget",
    ) || chars_equal_str(p, "Gadget definition") || chars_equal_str(p, "Topic")
}

impl WikiTitle {
    #[verifier::type_invariant]
    spec fn normalized_matches_raw(self) -> bool {
        self.normalized@ == normalize_title(self.raw@)
    }

    /// The normal form of a title.
    pub fn normalize_title(title: &str) -> (r: String)
        ensures
            r@ == normalize_title(title@),
    {
        let v = chars_of(title);
        let n = normalize_chars(v.as_slice());
        string_from(n.as_slice())
    }

    /// The title `title` in wiki `language`, with its normal form.
    pub fn new(title: &str, language: String) -> (r: Self)
        ensures
            r@ == (WikiTitleView {
                raw: title@,
                normalized: normalize_title(title@),
                language: language@,
            }),
    {
        let normalized = WikiTitle::normalize_title(title);
        WikiTitle { raw: title.to_owned(), normalized, language }
    }

    /// The title as it was given.
    pub fn raw(&self) -> (r: &str)
        ensures
            r@ == self@.raw,
    {
        self.raw.as_str()
    }

    /// The wiki language code.
    pub fn language(&self) -> (r: &String)
        ensures
            r@ == self@.language,
    {
        &self.language
    }

    /// The normalized title.
    pub fn normalized(&self) -> (r: &str)
        ensures
            r@ == self@.normalized,
            self@.normalized == normalize_title(self@.raw),
    {
        proof {
            use_type_invariant(self);
        }
        self.normalized.as_str()
    }

    /// The title in URL form: spaces become underscores.
    pub fn to_url_format(&self) -> (r: String)
        ensures
            r@ == replace_char(self@.normalized, ' ', '_'),
    {
        let v = chars_of(self.normalized.as_str());
        let u = replace_chars(v.as_slice(), ' ', '_');
        string_from(u.as_slice())
    }

    /// The title in display form (the normalized title).
    pub fn to_display_format(&self) -> (r: String)
        ensures
            r@ == self@.normalized,
    {
        self.normalized.clone()
    }

    /// Whether the title carries a disambiguation qualifier.
    pub fn is_disambiguation(&self) -> (r: bool)
        ensures
            r == is_disambiguation_of(self@.normalized),
    {
        let v = chars_of(self.normalized.as_str());
        let marker = chars_of("(disambiguation)");
        find(v.as_slice(), marker.as_slice()).is_some() || self.disambiguation_part().is_some()
    }

    /// The title without its parenthesised qualifier.
    pub fn main_title(&self) -> (r: String)
        ensures
            r@ == main_title_of(self@.normalized),
    {
        let v = chars_of(self.normalized.as_str());
        match find_char(v.as_slice(), '(') {
            Some(p) => {
                proof {
                    lemma_find_seq(v@, seq!['(']);
                }
                let head = copy_range(v.as_slice(), 0, p);
                assert(head@ =~= v@.take(p as int));
                let t = trim(head.as_slice(), CharClass::White);
                string_from(t.as_slice())
            },
            None => self.normalized.clone(),
        }
    }

    /// The content of the parenthesised qualifier.
    pub fn disambiguation_part(&self) -> (r: Option<String>)
        ensures
            r matches Some(d) ==> disambiguation_of(self@.normalized) == Some(d@),
            r is None ==> disambiguation_of(self@.normalized) is None,
    {
        let v = chars_of(self.normalized.as_str());
        proof {
            lemma_find_seq(v@, seq!['(']);
            lemma_find_seq(v@, seq![')']);
        }
        if let Some(start) = find_char(v.as_slice(), '(') {
            if let Some(end) = find_char(v.as_slice(), ')') {
                if end > start {
                    let d = copy_range(v.as_slice(), start + 1, end);
                    return Some(string_from(d.as_slice()));
                }
            }
        }
        None
    }

    /// Whether the normalized title is non-empty.
    pub fn is_valid(&self) -> (r: bool)
        ensures
            r == (self@.normalized.len() > 0),
    {
        !self.normalized.as_str().is_empty()
    }

    /// The namespace prefix (such as `User`), when the title has a known one.
    pub fn namespace(&self) -> (r: Option<String>)
        ensures
            r matches Some(ns) ==> namespace_of(self@.normalized) == Some(ns@),
            r is None ==> namespace_of(self@.normalized) is None,
    {
        let v = chars_of(self.normalized.as_str());
        match find_char(v.as_slice(), ':') {
            Some(p) => {
                proof {
                    lemma_find_seq(v@, seq![':']);
                }
                let prefix = copy_range(v.as_slice(), 0, p);
                assert(prefix@ =~= v@.take(p as int));
                if known_namespace(prefix.as_slice()) {
                    Some(string_from(prefix.as_slice()))
                } else {
                    None
                }
            },
            None => None,
        }
    }

    /// The title without its known namespace prefix.
    pub fn without_namespace(&self) -> (r: String)
        ensures
            r@ == without_namespace_of(self@.normalized),
    {
        if let Some(_ns) = self.namespace() {
            let v = chars_of(self.normalized.as_str());
            let n = v.len();
            if let Some(p) = find_char(v.as_slice(), ':') {
                proof {
                    lemma_find_seq(v@, seq![':']);
                    assert(occurs_at(v@, seq![':'], p as int));
                }
                let rest = copy_range(v.as_slice(), p + 1, n);
                assert(rest@ =~= v@.skip(p + 1));
                return string_from(rest.as_slice());
            }
        }
        self.normalized.clone()
    }

    /// Whether the title is in the main (article) namespace.
    pub fn is_main_namespace(&self) -> (r: bool)
        ensures
            r == (namespace_of(self@.normalized) is None),
    {
        self.namespace().is_none()
    }

    /// Whether two titles have the same normal form.
    pub fn equals(&self, other: &WikiTitle) -> (r: bool)
        ensures
            r == (self@.normalized == other@.normalized),
    {
        let a = chars_of(self.normalized.as_str());
        let b = chars_of(other.normalized.as_str());
        chars_equal(a.as_slice(), b.as_slice())
    }

    /// Whether the title matches a string once that string is normalized,
    /// ignoring case.
    pub fn equals_str(&self, other: &str) -> (r: bool)
        ensures
            r == same_ignoring_case(self@.normalized, normalize_title(other@)),
    {
        let a = to_lowercase(self.normalized.as_str());
        let n = WikiTitle::normalize_title(other);
        let b = to_lowercase(n.as_str());
        let av = chars_of(a.as_str());
        let bv = chars_of(b.as_str());
        chars_equal(av.as_slice(), bv.as_slice())
    }
}

} // verus!
