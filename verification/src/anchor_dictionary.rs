//! Reading a wiki XML dump into an anchor dictionary.
//!
//! The dump is read as a stream of XML events. `DumpReader` follows the tag
//! path of each event, collects the fields of the current `<page>` and says
//! when an article's text is complete and its links are to be taken.
//! `LinkRecord` is what one link contributes to the dictionary.

use vstd::prelude::*;

use crate::numbers::{parse_usize, parse_usize_text};
use crate::text::{
    chars_equal_str, chars_of, concat, copy_range, join, join_words, lowercase, string_from,
    to_lowercase, to_uppercase, uppercase,
};
use crate::link_suggestion::title_key;
use crate::wiki_title::{WikiTitle, WikiTitleView, normalize_title};
use crate::wikitext::{WikiLink, WikiLinkView};

verus! {

broadcast use vstd::string::group_string_axioms;

/// The tag path at which a page starts.
pub const PAGE_PATH: &'static str = "mediawiki/page";

/// The tag path of a page's wikitext.
pub const TEXT_PATH: &'static str = "mediawiki/page/revision/text";

/// The tag path of a page's id.
pub const ID_PATH: &'static str = "mediawiki/page/id";

/// The tag path of a page's namespace number.
pub const NS_PATH: &'static str = "mediawiki/page/ns";

/// The tag path of a page's title.
pub const TITLE_PATH: &'static str = "mediawiki/page/title";

/// The namespace number recorded when a page's `<ns>` is not a number.
pub const UNKNOWN_NAMESPACE: usize = 999999;

/// An article of the dump, as far as it has been read.
#[derive(Debug)]
pub struct Article {
    pub language: String,
    pub text: String,
    pub id: String,
    pub namespace: usize,
    pub title: WikiTitle,
    pub redirect: bool,
}

pub struct ArticleView {
    pub language: Seq<char>,
    pub text: Seq<char>,
    pub id: Seq<char>,
    pub namespace: usize,
    pub title: WikiTitleView,
    pub redirect: bool,
}

impl View for Article {
    type V = ArticleView;

    open spec fn view(&self) -> ArticleView {
        ArticleView {
            language: self.language@,
            text: self.text@,
            id: self.id@,
            namespace: self.namespace,
            title: self.title@,
            redirect: self.redirect,
        }
    }
}

/// One event of an XML reader, names and text already decoded.
#[derive(Debug)]
pub enum DumpEvent {
    /// An opening tag, by name.
    Start(String),
    /// A self-closing tag, by name.
    Empty(String),
    /// Text content.
    Text(String),
    /// A closing tag.
    End,
}

/// What the caller does after an event.
#[derive(Debug, Clone, Copy, PartialEq, Eq)]
pub enum DumpAction {
    /// Read the next event.
    Continue,
    /// The current article is complete and in the main namespace: take its
    /// links, then read on.
    TakeLinks,
}

pub struct DumpReaderView {
    /// The names of the open tags, outermost first.
    pub tags: Seq<Seq<char>>,
    pub article: ArticleView,
}

/// The state of reading a dump.
pub struct DumpReader {
    tags: Vec<Vec<char>>,
    article: Article,
}

impl View for DumpReader {
    type V = DumpReaderView;

    closed spec fn view(&self) -> DumpReaderView {
        DumpReaderView { tags: self.tags.deep_view(), article: self.article@ }
    }
}

/// The path of the open tags: their names joined by `/`.
pub open spec fn dump_path(tags: Seq<Seq<char>>) -> Seq<char> {
    join(tags, seq!['/'])
}

/// The namespace number that the text of an `<ns>` element gives.
pub open spec fn namespace_number(t: Seq<char>) -> usize {
    match parse_usize(t) {
        Some(n) => n as usize,
        None => UNKNOWN_NAMESPACE,
    }
}

/// How the state of reading changes with one event.
pub open spec fn next_state(s: DumpReaderView, e: DumpEvent) -> DumpReaderView {
    let a = s.article;
    match e {
        DumpEvent::Start(name) => {
            let tags = s.tags.push(name@);
            if dump_path(tags) == PAGE_PATH@ {
                DumpReaderView {
                    tags,
                    article: ArticleView {
                        text: seq![],
                        id: seq![],
                        namespace: 0,
                        redirect: false,
                        ..a
                    },
                }
            } else {
                DumpReaderView { tags, article: a }
            }
        },
        DumpEvent::Empty(name) => {
            if name@ == "redirect"@ {
                DumpReaderView { tags: s.tags, article: ArticleView { redirect: true, ..a } }
            } else {
                s
            }
        },
        DumpEvent::Text(t) => {
            let p = dump_path(s.tags);
            if p == TEXT_PATH@ {
                DumpReaderView { tags: s.tags, article: ArticleView { text: t@, ..a } }
            } else if p == ID_PATH@ {
                DumpReaderView { tags: s.tags, article: ArticleView { id: t@, ..a } }
            } else if p == NS_PATH@ {
                DumpReaderView {
                    tags: s.tags,
                    article: ArticleView { namespace: namespace_number(t@), ..a },
                }
            } else if p == TITLE_PATH@ {
                DumpReaderView {
                    tags: s.tags,
                    article: ArticleView {
                        title: WikiTitleView {
                            raw: t@,
                            normalized: normalize_title(t@),
                            language: a.language,
                        },
                        ..a
                    },
                }
            } else {
                s
            }
        },
        DumpEvent::End => {
            let tags = if s.tags.len() > 0 {
                s.tags.drop_last()
            } else {
                s.tags
            };
            if dump_path(s.tags) == TEXT_PATH@ {
                DumpReaderView { tags, article: ArticleView { text: a.text.push('\n'), ..a } }
            } else {
                DumpReaderView { tags, article: a }
            }
        },
    }
}

/// What the caller does after an event: take the links when the text of an
/// article of the main namespace that is no redirect closes.
pub open spec fn next_action(s: DumpReaderView, e: DumpEvent) -> DumpAction {
    match e {
        DumpEvent::End => if dump_path(s.tags) == TEXT_PATH@ && s.article.namespace == 0
            && !s.article.redirect {
            DumpAction::TakeLinks
        } else {
            DumpAction::Continue
        },
        _ => DumpAction::Continue,
    }
}

/// Links are taken only from a complete article of the main namespace that
/// is no redirect: its text, as handed over, ends with a line break.
pub proof fn law_links_taken_from_articles(s: DumpReaderView, e: DumpEvent)
    requires
        next_action(s, e) == DumpAction::TakeLinks,
    ensures
        next_state(s, e).article.namespace == 0,
        !next_state(s, e).article.redirect,
        next_state(s, e).article.text.len() > 0,
        next_state(s, e).article.text.last() == '\n',
        dump_path(s.tags) == TEXT_PATH@,
{
}

/// Reading the start of a page clears what the previous page left: no
/// text, no id, namespace zero, no redirect.
pub proof fn law_page_start_clears(s: DumpReaderView, name: String)
    requires
        dump_path(s.tags.push(name@)) == PAGE_PATH@,
    ensures
        next_state(s, DumpEvent::Start(name)).article.text.len() == 0,
        next_state(s, DumpEvent::Start(name)).article.id.len() == 0,
        next_state(s, DumpEvent::Start(name)).article.namespace == 0,
        !next_state(s, DumpEvent::Start(name)).article.redirect,
{
}

/// What a `--language` argument names: the language code, with a trailing
/// `wiki` (as in `enwiki`) taken off.
pub open spec fn dump_language_of(arg: Seq<char>) -> Seq<char> {
    if arg.len() >= 4 && arg.subrange(arg.len() - 4, arg.len() as int) == "wiki"@ {
        arg.subrange(0, arg.len() - 4)
    } else {
        arg
    }
}

/// The language code named by a `--language` argument.
pub fn dump_language(arg: &str) -> (r: String)
    ensures
        r@ == dump_language_of(arg@),
{
    let v = chars_of(arg);
    let n = v.len();
    if n >= 4 {
        let tail = copy_range(v.as_slice(), n - 4, n);
        if chars_equal_str(tail.as_slice(), "wiki") {
            let head = copy_range(v.as_slice(), 0, n - 4);
            return string_from(head.as_slice());
        }
    }
    arg.to_owned()
}

/// Appends a name to a list of names.
fn push_name(tags: &mut Vec<Vec<char>>, name: Vec<char>)
    ensures
        final(tags).deep_view() == old(tags).deep_view().push(name@),
{
    let ghost before = tags.deep_view();
    let ghost old_tags = tags@;
    let ghost nv = name@;
    tags.push(name);
    proof {
        assert(tags@ == old_tags.push(tags@[old_tags.len() as int]));
        assert forall|k: int| 0 <= k < tags@.len() implies #[trigger] tags.deep_view()[k] == (
        before.push(nv))[k] by {
            if k < old_tags.len() {
                assert(tags@[k] == old_tags[k]);
            }
        }
        assert(tags.deep_view() =~= before.push(nv));
    }
}

/// Drops the last name of a list of names, if there is one.
fn pop_name(tags: &mut Vec<Vec<char>>)
    ensures
        final(tags).deep_view() == (if old(tags)@.len() > 0 {
            old(tags).deep_view().drop_last()
        } else {
            old(tags).deep_view()
        }),
{
    let ghost before = tags.deep_view();
    let ghost old_tags = tags@;
    if tags.len() > 0 {
        let _ = tags.pop();
        proof {
            assert forall|k: int| 0 <= k < tags@.len() implies #[trigger] tags.deep_view()[k]
                == before.drop_last()[k] by {
                assert(tags@[k] == old_tags[k]);
            }
            assert(tags.deep_view() =~= before.drop_last());
        }
    }
}

impl DumpReader {
    /// A reader for a dump of the wiki in `language`, before any event.
    pub fn new(language: &str) -> (r: Self)
        ensures
            r@ == (DumpReaderView {
                tags: seq![],
                article: ArticleView {
                    language: language@,
                    text: seq![],
                    id: seq![],
                    namespace: 0,
                    title: WikiTitleView {
                        raw: ""@,
                        normalized: normalize_title(""@),
                        language: uppercase(language@),
                    },
                    redirect: false,
                },
            }),
    {
        let tags: Vec<Vec<char>> = Vec::new();
        assert(tags.deep_view() =~= Seq::<Seq<char>>::empty());
        DumpReader {
            tags,
            article: Article {
                language: language.to_owned(),
                text: String::new(),
                id: String::new(),
                namespace: 0,
                title: WikiTitle::new("", to_uppercase(language)),
                redirect: false,
            },
        }
    }

    /// The article being read.
    pub fn article(&self) -> (r: &Article)
        ensures
            r@ == self@.article,
    {
        &self.article
    }

    /// The path of the open tags.
    fn path(&self) -> (r: Vec<char>)
        ensures
            r@ == dump_path(self@.tags),
    {
        let sep = vec!['/'];
        assert(sep@ =~= seq!['/']);
        join_words(&self.tags, sep.as_slice())
    }

    /// Opens a tag.
    fn open_tag(&mut self, name: &str)
        ensures
            final(self)@ == (DumpReaderView { tags: old(self)@.tags.push(name@), ..old(self)@ }),
    {
        let nv = chars_of(name);
        push_name(&mut self.tags, nv);
    }

    /// Clears what a page has of its own, as a new page starts.
    fn start_page(&mut self)
        ensures
            final(self)@ == (DumpReaderView {
                article: ArticleView {
                    text: seq![],
                    id: seq![],
                    namespace: 0,
                    redirect: false,
                    ..old(self)@.article
                },
                ..old(self)@
            }),
    {
        self.article.text = String::new();
        self.article.id = String::new();
        self.article.namespace = 0;
        self.article.redirect = false;
        assert(self.article.text@ =~= seq![]);
        assert(self.article.id@ =~= seq![]);
    }

    /// Takes in one event of the dump and says what to do next.
    pub fn step(&mut self, event: DumpEvent) -> (act: DumpAction)
        ensures
            final(self)@ == next_state(old(self)@, event),
            act == next_action(old(self)@, event),
    {
        match event {
            DumpEvent::Start(name) => {
                self.open_tag(name.as_str());
                let p = self.path();
                if chars_equal_str(p.as_slice(), PAGE_PATH) {
                    self.start_page();
                }
                DumpAction::Continue
            },
            DumpEvent::Empty(name) => {
                let nv = chars_of(name.as_str());
                if chars_equal_str(nv.as_slice(), "redirect") {
                    self.article.redirect = true;
                }
                DumpAction::Continue
            },
            DumpEvent::Text(t) => {
                let p = self.path();
                if chars_equal_str(p.as_slice(), TEXT_PATH) {
                    self.article.text = t;
                } else if chars_equal_str(p.as_slice(), ID_PATH) {
                    self.article.id = t;
                } else if chars_equal_str(p.as_slice(), NS_PATH) {
                    let v = chars_of(t.as_str());
                    self.article.namespace = match parse_usize_text(v.as_slice()) {
                        Some(n) => n,
                        None => UNKNOWN_NAMESPACE,
                    };
                } else if chars_equal_str(p.as_slice(), TITLE_PATH) {
                    let language = self.article.language.clone();
                    self.article.title = WikiTitle::new(t.as_str(), language);
                }
                DumpAction::Continue
            },
            DumpEvent::End => {
                let p = self.path();
                pop_name(&mut self.tags);
                if chars_equal_str(p.as_slice(), TEXT_PATH) {
                    self.article.text.push('\n');
                    if self.article.namespace == 0 && !self.article.redirect {
                        return DumpAction::TakeLinks;
                    }
                }
                DumpAction::Continue
            },
        }
    }
}

/// The label a link is recorded under: its own, or else its title's normal
/// form.
pub open spec fn link_label_of(l: WikiLinkView) -> Seq<char> {
    match l.label {
        Some(label) => label,
        None => l.title.normalized,
    }
}

/// The label a link is recorded under.
pub fn link_label(link: &WikiLink) -> (r: String)
    ensures
        r@ == link_label_of(link@),
{
    match &link.label {
        Some(label) => label.clone(),
        None => link.title.normalized().to_owned(),
    }
}

/// The line of the tab-separated dictionary for a link of an article:
/// both titles in key form.
pub open spec fn tsv_line_of(article_title: WikiTitleView, link: WikiLinkView) -> Seq<char> {
    title_key(article_title.normalized) + seq!['\t'] + title_key(link.title.normalized) + seq![
        '\t',
    ] + link_label_of(link)
}

/// The tab-separated line (without its line break) for `link` in the
/// article titled `article_title`: article title, link title, label.
pub fn tsv_line(article_title: &WikiTitle, link: &WikiLink) -> (r: String)
    ensures
        r@ == tsv_line_of(article_title@, link@),
{
    let tab = vec!['\t'];
    let a = chars_of(article_title.to_url_format().as_str());
    let t = chars_of(link.title.to_url_format().as_str());
    let l = link_label(link);
    let lv = chars_of(l.as_str());
    let r1 = concat(a.as_slice(), tab.as_slice());
    let r2 = concat(r1.as_slice(), t.as_slice());
    let r3 = concat(r2.as_slice(), tab.as_slice());
    let r4 = concat(r3.as_slice(), lv.as_slice());
    assert(r4@ =~= tsv_line_of(article_title@, link@));
    string_from(r4.as_slice())
}

/// The texts of a list of strings.
pub open spec fn texts_of(fields: Seq<String>) -> Seq<Seq<char>> {
    fields.map_values(|f: String| f@)
}

/// A row of tab-separated output: the fields with a tab between
/// consecutive ones.
pub fn tab_separated(fields: &Vec<String>) -> (r: String)
    ensures
        r@ == join(texts_of(fields@), seq!['\t']),
{
    let mut parts: Vec<Vec<char>> = Vec::new();
    let mut i: usize = 0;
    while i < fields.len()
        invariant
            i <= fields@.len(),
            parts.deep_view() == texts_of(fields@).take(i as int),
        decreases fields.len() - i,
    {
        push_name(&mut parts, chars_of(fields[i].as_str()));
        i += 1;
        assert(parts.deep_view() =~= texts_of(fields@).take(i as int));
    }
    assert(texts_of(fields@).take(fields@.len() as int) =~= texts_of(fields@));
    let tab = vec!['\t'];
    assert(tab@ =~= seq!['\t']);
    let joined = join_words(&parts, tab.as_slice());
    string_from(joined.as_slice())
}

/// The header row of a query's tab-separated output: the column names,
/// unless they are asked away or there are none.
pub fn query_header(column_names: &Vec<String>, no_header: bool) -> (r: Option<String>)
    ensures
        !no_header && column_names@.len() > 0 ==> (r matches Some(h) && h@ == join(
            texts_of(column_names@),
            seq!['\t'],
        )),
        no_header || column_names@.len() == 0 ==> r is None,
{
    if !no_header && column_names.len() > 0 {
        Some(tab_separated(column_names))
    } else {
        None
    }
}

/// One row of the anchor dictionary.
#[derive(Debug)]
pub struct LinkRecord {
    pub article_title: String,
    pub link_title: String,
    pub link_label: String,
}

impl LinkRecord {
    /// The row for `link` in the article titled `article_title`: both titles
    /// in key form, as suggestions look them up; the label in lower case.
    pub fn new(article_title: &WikiTitle, link: &WikiLink) -> (r: Self)
        ensures
            r.article_title@ == title_key(article_title@.normalized),
            r.link_title@ == title_key(link@.title.normalized),
            r.link_label@ == lowercase(link_label_of(link@)),
    {
        let label = link_label(link);
        LinkRecord {
            article_title: article_title.to_url_format(),
            link_title: link.title.to_url_format(),
            link_label: to_lowercase(label.as_str()),
        }
    }

    /// The label as it is stored: in lower case.
    pub fn stored_label(&self) -> (r: String)
        ensures
            r@ == lowercase(self.link_label@),
    {
        to_lowercase(self.link_label.as_str())
    }
}

} // verus!
