//! Canonical forms of words in the free idempotent monoid (the free band),
//! with checkable derivations that justify each reduction, and the
//! enumeration of every canonical form over a given number of letters.
//!
//! - `word`: words, letter counts, and the overlap merge.
//! - `steps`: derivations, chains of squarings and unsquarings.
//! - `reduce`: the canonical form `normal_form` and the reduction that
//!   derives it.
//! - `generate`: the enumeration of canonical forms.
//! - `text`: letters written `a` to `z`, and derivations written out.
//! - `laws`, `renaming`, `completeness`: what holds of canonical forms:
//!   their structure, idempotence, invariance under squares, that they are
//!   no longer than their words and square-free, and that the enumeration
//!   lists exactly canonical forms and every one of them.

pub mod completeness;
pub mod generate;
pub mod laws;
pub mod reduce;
pub mod renaming;
pub mod steps;
pub mod text;
pub mod word;

pub use generate::{generate_exact_monoid, generate_monoid, variants_on};
pub use reduce::{
    find_u, find_v, reduce, reduce_left, reduce_middle, reduce_right, remove_middle,
};
pub use steps::{Step, Steps};
pub use text::{c_to_sym, str_to_word, sym_to_c, word_to_str, BadLetter};
pub use word::{chain, count_letters, find_left_subword, find_right_subword, merge, Sym, Word};
