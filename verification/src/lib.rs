//! Link suggestions for Wikipedia articles: title normalisation, wikitext
//! segmentation into candidate n-grams, candidate filtering and ranking, and
//! the anchor-dictionary extraction that feeds them.

pub mod text;
pub mod wiki_title;
pub mod edit;
pub mod numbers;
pub mod wikitext;
pub mod bloom_filter;
pub mod link_suggestion;
pub mod ordering;
pub mod suggest;
pub mod anchor_dictionary;
pub mod web;
pub mod mediawiki;
