//! The morphological tokenizer, as the `lindera` crates have it.

use vstd::prelude::*;
use crate::segment::Token;

verus! {

#[verifier::external_type_specification]
#[verifier::external_body]
pub struct ExTokenizer(lindera_tokenizer::tokenizer::Tokenizer);

#[verifier::external_type_specification]
#[verifier::external_body]
pub struct ExLinderaError(lindera_core::error::LinderaError);

/// `lindera_tokenizer::tokenizer::Tokenizer::from_config` with the UniDic
/// dictionary that is built into the tokenizer and the normal mode. It
/// fails where the tokenizer was built without that dictionary. Nothing is
/// claimed of the tokenizer that comes back.
#[verifier::external_body]
pub(crate) fn unidic_tokenizer() -> Result<
    lindera_tokenizer::tokenizer::Tokenizer,
    lindera_core::error::LinderaError,
> {
    lindera_tokenizer::tokenizer::Tokenizer::from_config(
        lindera_tokenizer::tokenizer::TokenizerConfig {
            dictionary: lindera_dictionary::DictionaryConfig {
                kind: Some(lindera_dictionary::DictionaryKind::UniDic),
                path: None,
            },
            user_dictionary: None,
            mode: lindera_core::mode::Mode::Normal,
        },
    )
}

/// `lindera_tokenizer::tokenizer::Tokenizer::tokenize`, and for each token
/// `lindera_tokenizer::token::Token::get_details`. A token's text is a
/// stretch of `text`; its details are the fields of its record in the
/// tokenizer's dictionary, a single field for an unknown word. Nothing is
/// claimed of the tokens that come back: what they are depends on the
/// tokenizer's dictionary.
#[verifier::external_body]
pub(crate) fn tokenize<'a>(tokenizer: &'a lindera_tokenizer::tokenizer::Tokenizer, text: &'a str) -> Result<
    Vec<Token<'a>>,
    lindera_core::error::LinderaError,
> {
    let mut tokens = tokenizer.tokenize(text)?;
    Ok(
        tokens.iter_mut().map(
            |t| Token {
                text: t.text,
                details: t.get_details().map(|d| d.into_iter().map(|f| f.to_string()).collect()),
            },
        ).collect(),
    )
}

/// The `Display` of `lindera_core::error::LinderaError`: the error in words.
#[verifier::external_body]
pub(crate) fn describe(error: &lindera_core::error::LinderaError) -> String {
    format!("{error}")
}

} // verus!
