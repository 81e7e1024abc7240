use vstd::prelude::*;

verus! {

/// The words into which `jieba_rs::Jieba::new().cut(text, false)` splits
/// `text`: segmentation with jieba's built-in dictionary and without the
/// hidden Markov model, one entry per token, in order.
pub uninterp spec fn jieba_words(text: Seq<char>) -> Seq<Seq<char>>;

/// The concatenation of all the words in `words`, in order.
pub open spec fn joined(words: Seq<Seq<char>>) -> Seq<char>
    decreases words.len(),
{
    if words.len() == 0 {
        Seq::empty()
    } else {
        joined(words.drop_last()) + words.last()
    }
}

/// The views of a sequence of strings.
pub open spec fn string_views(s: Seq<String>) -> Seq<Seq<char>> {
    s.map_values(|w: String| w@)
}

/// Calls `jieba_rs::Jieba::new()` (the segmenter loaded with jieba's
/// built-in dictionary) and then its `cut(text, false)`, and hands back the
/// token words as owned strings.
///
/// Trusted: the words are the named result `jieba_words(text@)`; the tokens
/// tile the input (their concatenation is `text`, as `cut_each` in the
/// crate's source emits every character of every block exactly once, in
/// order); and no token is empty. Nothing further about which words the
/// dictionary yields is stated.
#[verifier::external_body]
pub(crate) fn cut_with_default_dictionary(text: &str) -> (res: Vec<String>)
    ensures
        string_views(res@) == jieba_words(text@),
        joined(string_views(res@)) == text@,
        forall|i: int| 0 <= i < res@.len() ==> #[trigger] res@[i]@.len() > 0,
{
    jieba_rs::Jieba::new().cut(text, false).into_iter().map(|t| t.word.to_string()).collect()
}

} // verus!
