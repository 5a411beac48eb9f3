use jieba_rs::Jieba;
use vstd::prelude::*;

verus! {

#[verifier::external_type_specification]
#[verifier::external_body]
pub struct ExJieba(Jieba);

/// The words that `Jieba::new().cut(text, false)` gives for a text: jieba's segmentation
/// with its embedded dictionary, without the HMM for unknown words.
pub uninterp spec fn jieba_default_cut(text: Seq<char>) -> Seq<Seq<char>>;

/// The words of a segmentation as character sequences.
pub open spec fn word_texts(words: Seq<&str>) -> Seq<Seq<char>> {
    words.map_values(|w: &str| w@)
}

/// `jieba_rs::Jieba::new()`: a segmenter loaded with the dictionary embedded in jieba.
#[verifier::external_body]
fn default_jieba() -> Jieba {
    Jieba::new()
}

/// `Jieba::cut(text, false)` on the segmenter's jieba, which `Jieba::new()` built (as
/// [`Segmenter::uses_default_dict`] records): the words are named by
/// [`jieba_default_cut`]. As jieba's source shows, they are slices of the text, each
/// non-empty, that follow each other and cover it, so that joined they give it back.
#[verifier::external_body]
fn jieba_cut<'a>(seg: &Segmenter, text: &'a str) -> (words: Vec<&'a str>)
    requires
        seg.uses_default_dict(),
    ensures
        word_texts(words@) == jieba_default_cut(text@),
        word_texts(words@).flatten() == text@,
        forall|i: int| 0 <= i < words@.len() ==> #[trigger] words@[i]@.len() > 0,
{
    seg.jieba.cut(text, false)
}

/// A Chinese word segmenter with jieba's embedded dictionary.
pub struct Segmenter {
    jieba: Jieba,
    default_dict: Ghost<bool>,
}

impl Segmenter {
    /// Whether the segmenter's jieba is the one `Jieba::new()` built, with the dictionary
    /// embedded in jieba, so that it cuts as [`jieba_default_cut`] says. Every segmenter
    /// keeps it: [`Segmenter::new`] is the only way to build one.
    #[verifier::type_invariant]
    pub closed spec fn uses_default_dict(&self) -> bool {
        self.default_dict@
    }

    /// A segmenter with jieba's embedded dictionary.
    pub fn new() -> (s: Segmenter)
        ensures
            s.uses_default_dict(),
    {
        Segmenter { jieba: default_jieba(), default_dict: Ghost(true) }
    }

    /// Cuts a text into words (see [`jieba_default_cut`]): each word is non-empty, and
    /// joined, the words give back the text.
    pub fn cut<'a>(&self, text: &'a str) -> (words: Vec<&'a str>)
        ensures
            word_texts(words@) == jieba_default_cut(text@),
            word_texts(words@).flatten() == text@,
            forall|i: int| 0 <= i < words@.len() ==> #[trigger] words@[i]@.len() > 0,
    {
        proof {
            use_type_invariant(self);
        }
        jieba_cut(self, text)
    }
}

} // verus!
