//! A library that turns a Japanese word into an inline-styled HTML diagram of
//! its pitch-accent contour.
//!
//! The pipeline: a kana reading is divided into morae; a raw accent code from
//! a dictionary row is classified into one of the four canonical accent
//! patterns; per mora, the set of box-border edges that draw the contour is
//! computed; and the result is rendered as markup, one styled span per mora.
//! Around that core, the decisions of the flashcard-service client live here
//! too: what to keep of each listing page and when to stop, how a bulk
//! update's outcome is judged, and which card field receives which diagram.

mod accent;
mod cards;
mod dict;
mod html;
mod kana;
mod paginate;
mod scan;

pub use kana::first_mora_len;
pub use kana::is_small_kana;
pub use kana::lemma_segment_push_non_small;
pub use kana::mora_count;
pub use kana::segment;
pub use kana::small_kana;
pub use kana::small_run_len;
pub use kana::KanaString;

pub use accent::accent_type_wf;
pub use accent::classify;
pub use accent::classify_spec;
pub use accent::edges_spec;
pub use accent::generate_mora_edges;
pub use accent::mora_edges_at;
pub use accent::trailing_edges;
pub use accent::word_accents_wf;
pub use accent::Accent;
pub use accent::AccentType;
pub use accent::AccentV;
pub use accent::MoraEdges;
pub use accent::WordAccents;
pub use accent::WordAccentsV;

pub use dict::accents_spec;
pub use dict::distinct_keys;
pub use dict::fields_spec;
pub use dict::index_spec;
pub use dict::insert_row;
pub use dict::lemma_load_wf;
pub use dict::lines_spec;
pub use dict::load_accents;
pub use dict::load_lines_spec;
pub use dict::load_spec;
pub use dict::note_spec;
pub use dict::row_spec;
pub use dict::rows_wf;
pub use dict::spec_get;
pub use dict::split_commas;
pub use dict::AccentMap;
pub use dict::LoadError;
pub use dict::LoadErrorKind;
pub use dict::LoadErrorV;
pub use dict::Word;

pub use html::accent_html;
pub use html::edge_css;
pub use html::edges_css;
pub use html::generate_html;
pub use html::generate_html_for_accent;
pub use html::html_spec;
pub use html::lemma_load_idempotent;
pub use html::lemma_unknown_word_empty;
pub use html::rows_html;
pub use html::span_html;
pub use html::spans_html;
pub use html::word_accents_html;

pub use paginate::absorb_page;
pub use paginate::finish_listing;
pub use paginate::per_call_limit;
pub use paginate::summarize_updates;
pub use paginate::ListState;
pub use paginate::ListStep;
pub use paginate::PageEvent;
pub use paginate::PaginatedResponse;

pub use cards::pitch_accent_fields;
pub use cards::pitch_accent_spec;
pub use cards::spec_find_field;
pub use cards::spec_find_template;
pub use cards::spec_get_field;
pub use cards::spec_put_field;
pub use cards::CardField;
pub use cards::CardFieldV;
pub use cards::Template;
pub use cards::TemplateField;
pub use cards::TemplateFieldV;
pub use cards::TemplateV;

pub use scan::join;
pub use scan::join_from;
