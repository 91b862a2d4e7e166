//! String primitives over Unicode scalar values: character filtering,
//! whitespace stripping, fixed-width chunking and wildcard matching.

mod text;
mod wildcard;

pub use text::{
    chunk_count, chunks, is_white_space, joined, lemma_chunks_cover, lemma_chunks_zero_width,
    lemma_remove_nothing, lemma_removed_absent, lemma_retained_satisfy, lemma_white_space_absent,
    remove_chars, remove_whitespace, retained, separated, splitn, splitn_separator, texts, without,
    without_white_space,
};
pub use wildcard::{
    folded, glob, lemma_empty_input, lemma_literal_pattern, scalars_equal, wildcard_match,
    wildcard_match_default,
};

use std::collections::HashSet;
use vstd::prelude::*;

verus! {

/// The operations of this crate as methods on a text value. Each method does what the free
/// function of the same name does on the scalars of the receiver.
pub trait Stringr {
    /// The scalars of the receiver.
    spec fn scalar_view(&self) -> Seq<char>;

    fn remove_chars(&self, chars: HashSet<char>) -> (r: String)
        ensures
            r@ == without(self.scalar_view(), chars@),
    ;

    fn remove_whitespace(&self) -> (r: String)
        ensures
            r@ == without_white_space(self.scalar_view()),
    ;

    fn splitn(&self, n: usize) -> (r: Vec<String>)
        ensures
            texts(r@) == chunks(self.scalar_view(), n as nat),
    ;

    fn splitn_separator(&self, n: usize, separator: &str) -> (r: String)
        ensures
            r@ == separated(self.scalar_view(), n as nat, separator@),
    ;

    fn wildcard_match(
        &self,
        pattern: &str,
        wildcard: &char,
        single_wildcard: &char,
        ignore_casing: bool,
    ) -> (r: bool)
        ensures
            r == glob(self.scalar_view(), pattern@, *wildcard, *single_wildcard, ignore_casing),
    ;
}

impl Stringr for String {
    open spec fn scalar_view(&self) -> Seq<char> {
        self@
    }

    fn remove_chars(&self, chars: HashSet<char>) -> (r: String) {
        crate::remove_chars(self.as_str(), chars)
    }

    fn remove_whitespace(&self) -> (r: String) {
        crate::remove_whitespace(self.as_str())
    }

    fn splitn(&self, n: usize) -> (r: Vec<String>) {
        crate::splitn(self.as_str(), n)
    }

    fn splitn_separator(&self, n: usize, separator: &str) -> (r: String) {
        crate::splitn_separator(self.as_str(), n, separator)
    }

    fn wildcard_match(
        &self,
        pattern: &str,
        wildcard: &char,
        single_wildcard: &char,
        ignore_casing: bool,
    ) -> (r: bool) {
        crate::wildcard_match(self.as_str(), pattern, wildcard, single_wildcard, ignore_casing)
    }
}

impl Stringr for &str {
    open spec fn scalar_view(&self) -> Seq<char> {
        (*self)@
    }

    fn remove_chars(&self, chars: HashSet<char>) -> (r: String) {
        crate::remove_chars(*self, chars)
    }

    fn remove_whitespace(&self) -> (r: String) {
        crate::remove_whitespace(*self)
    }

    fn splitn(&self, n: usize) -> (r: Vec<String>) {
        crate::splitn(*self, n)
    }

    fn splitn_separator(&self, n: usize, separator: &str) -> (r: String) {
        crate::splitn_separator(*self, n, separator)
    }

    fn wildcard_match(
        &self,
        pattern: &str,
        wildcard: &char,
        single_wildcard: &char,
        ignore_casing: bool,
    ) -> (r: bool) {
        crate::wildcard_match(*self, pattern, wildcard, single_wildcard, ignore_casing)
    }
}

} // verus!
