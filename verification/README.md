# linksuggestion-core

Link suggestions for Wikipedia articles, verified with Verus.

Given an article's wikitext, the library finds the word n-grams of its
paragraphs that the anchor dictionary of the wiki knows (as link titles or
as link labels), drops those the article already links to, chooses a title
for each label from the dictionary's statistics (dropping again the titles
the article already links to), and says where and how the link goes into
the text. It also reads wiki XML dumps into the anchor
dictionary.

Layout:

- `src/` — the verified library:
  - `text` — character-level text operations and their specifications;
  - `wiki_title` — titles and their normal form;
  - `wikitext` — links and text segments of wikitext (tree-sitter), n-grams;
  - `bloom_filter` — Bloom filters of titles and labels;
  - `link_suggestion` — a suggestion, choosing its title, placing its link,
    filtering candidates;
  - `ordering` — sorting and de-duplicating candidates and suggestions;
  - `suggest` — from wikitext to the suggestions of an article;
  - `edit` — linking a label in a text;
  - `numbers` — numeric literals as Rust reads them;
  - `anchor_dictionary` — reading a dump into dictionary rows;
  - `mediawiki` — the API request and answer;
  - `web` — the shapes of the web service's answers.
- `tests/` — tests of the library.
- `app/` — the command-line tools and the web server: files, HTTP,
  SQLite, the XML reader, floating-point scores.
