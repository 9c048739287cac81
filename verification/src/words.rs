//! The word index behind the editor's completions: the `trie-rs` crate, taken
//! on trust. Nothing in this file is proved; each contract says what the
//! crate's source shows of the functions that the body calls.
use crate::complete::{lines, matching};
use vstd::prelude::*;

verus! {

/// `trie_rs::TrieBuilder`, as an opaque type: a builder is made, handed on and
/// searched, and never looked into.
#[verifier::external_type_specification]
#[verifier::external_body]
#[verifier::reject_recursive_types(Label)]
pub struct ExTrieBuilder<Label>(trie_rs::TrieBuilder<Label>);

/// The words that a builder holds: those that were pushed into it.
pub uninterp spec fn builder_words(builder: trie_rs::TrieBuilder<char>) -> Set<Seq<char>>;

/// `trie_rs::TrieBuilder::new`: a builder that holds no word.
#[verifier::external_body]
pub(crate) fn builder_new() -> (builder: trie_rs::TrieBuilder<char>)
    ensures
        builder_words(builder) == Set::<Seq<char>>::empty(),
{
    trie_rs::TrieBuilder::new()
}

/// `trie_rs::TrieBuilder::push`: the builder holds `word` on top of what it
/// held; a word that it held already stays there once. The crate panics on
/// an empty word, which is left out.
#[verifier::external_body]
pub(crate) fn builder_push(builder: &mut trie_rs::TrieBuilder<char>, word: &Vec<char>)
    requires
        word@.len() > 0,
    ensures
        builder_words(*final(builder)) == builder_words(*old(builder)).insert(word@),
{
    builder.push(word)
}

/// `trie_rs::TrieBuilder::build` and `trie_rs::Trie::predictive_search`: the
/// words of the builder that start with `query`, each once. The index is
/// built from a copy of the builder, because building consumes it, and the
/// search's iterator is collected into a list.
#[verifier::external_body]
pub(crate) fn builder_search(builder: &trie_rs::TrieBuilder<char>, query: &Vec<char>) -> (found:
    Vec<Vec<char>>)
    ensures
        lines(found@).no_duplicates(),
        lines(found@).to_set() == matching(builder_words(*builder), query@),
{
    builder.clone().build().predictive_search(query).collect()
}

} // verus!
