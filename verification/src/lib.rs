//! Validating tokenizer and parser for transcribed speech segments written in
//! a constrained annotation convention: balanced single-level bracket
//! delimiters, controlled attribute codes after angle brackets, a restricted
//! inventory of grapheme atoms, explicit token whitelists and blacklists, and
//! numeric count markers allowed only inside round brackets.
//!
//! Validation never stops at the first problem: every violation in a segment
//! is reported, so that a transcriber can fix all mistakes in one pass.

mod config;
mod parser;
mod token;
mod tokenizer;

pub use token::DelimKind;
pub use token::TokenKind;
pub use token::Token;
pub use token::Node;
pub use token::NodeSpec;
pub use token::Mistake;
pub use token::MistakeSpec;
pub use token::Tokenized;
pub use token::Parsed;
pub use token::nodes_view;
pub use token::mistakes_view;
pub use token::grapheme_count_of;
pub use tokenizer::tokenize;
pub use tokenizer::normalize;
pub use tokenizer::is_normalized;
pub use tokenizer::spec_tokens;
pub use tokenizer::lemma_normalize_idempotent;
pub use tokenizer::lemma_tokenize_idempotent;
pub use tokenizer::lemma_token_spans_cover;
pub use tokenizer::lemma_round_trip;
pub use tokenizer::space_joined;
pub use tokenizer::token_text;
pub use config::ParserConfig;
pub use config::ConfigModel;
pub use config::list_matches;
pub use config::word_gaps;
pub use parser::Parser;
pub use parser::parse_spec;
pub use parser::parse_from;
pub use parser::has_digit;
pub use parser::count_open;
pub use parser::count_close;
pub use parser::count_unclosed;
pub use parser::lemma_delimiter_balance;
pub use parser::lemma_balance_mistake_free;
pub use parser::lemma_validation_deterministic;
pub use parser::lemma_attr_list_normal_form;
pub use parser::lemma_sort_codes_props;
pub use parser::codes_sorted;
pub use parser::codes_distinct;
pub use parser::sort_codes;
pub use parser::collect_attrs;
pub use parser::split_codes;
pub use parser::bytes_le;
