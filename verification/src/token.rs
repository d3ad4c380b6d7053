//! Tokens of a name and the reading made of them.

use vstd::prelude::*;
use vstd::string::*;
use lindera::error::LinderaError;
use lindera::segmenter::Segmenter;
use std::borrow::Cow;

verus! {

/// lindera's `Segmenter`: a tokenizer with its dictionary, carried as it is.
#[verifier::external_type_specification]
#[verifier::external_body]
pub struct ExSegmenter(lindera::segmenter::Segmenter);

/// lindera's `LinderaError`: why a segmenter failed, carried as it is.
#[verifier::external_type_specification]
#[verifier::external_body]
pub struct ExLinderaError(lindera::error::LinderaError);

/// One word of a tokenized name: the text as it stands in the name, and what
/// the dictionary says of the word, field by field.
#[derive(Debug, PartialEq, Eq)]
pub struct Token {
    pub text: String,
    pub detail: Vec<String>,
}

/// Which field of a token's detail holds the reading.
pub const READING: usize = 7;

/// What a token adds to the reading of a name: the reading that its detail
/// holds, where the detail is long enough to hold one, else its own text.
pub open spec fn reading_of(token: Token) -> Seq<char> {
    if token.detail@.len() > READING {
        token.detail@[READING as int]@
    } else {
        token.text@
    }
}

/// The reading of a tokenized name: what each token adds, in the order of the
/// tokens, with nothing between them.
pub open spec fn ruby_of(tokens: Seq<Token>) -> Seq<char>
    decreases tokens.len(),
{
    if tokens.len() == 0 {
        Seq::empty()
    } else {
        ruby_of(tokens.drop_last()) + reading_of(tokens.last())
    }
}

/// The reading of a name from its tokens.
pub fn derive_ruby(tokens: &Vec<Token>) -> (ruby: String)
    ensures
        ruby@ == ruby_of(tokens@),
{
    let mut ruby = String::new();
    let mut i: usize = 0;
    while i < tokens.len()
        invariant
            i <= tokens@.len(),
            ruby@ == ruby_of(tokens@.take(i as int)),
        decreases tokens@.len() - i,
    {
        proof {
            let next = tokens@.take(i + 1);
            assert(next.drop_last() == tokens@.take(i as int));
            assert(next.last() == tokens@[i as int]);
        }
        let token = &tokens[i];
        if token.detail.len() > READING {
            ruby.append(token.detail[READING].as_str());
        } else {
            ruby.append(token.text.as_str());
        }
        i += 1;
    }
    assert(tokens@.take(tokens@.len() as int) == tokens@);
    ruby
}

/// lindera's `Segmenter::segment` on `text`, each token handed back with its
/// surface text and its details. Which tokens come back depends on the
/// dictionary that the segmenter holds, so nothing is said of them.
#[verifier::external_body]
pub(crate) fn tokenize(segmenter: &Segmenter, text: &str) -> (tokens: Result<
    Vec<Token>,
    LinderaError,
>) {
    let tokens = segmenter.segment(Cow::Borrowed(text))?;
    Ok(
        tokens.into_iter().map(
            |mut token|
                Token {
                    text: token.surface.to_string(),
                    detail: token.details().into_iter().map(String::from).collect(),
                },
        ).collect(),
    )
}

} // verus!
