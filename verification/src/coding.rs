//! How names and values are read from raw text and written back to text.
use crate::model::{RawCategory, RawVariable};
use crate::text::{text_chars, trim, trim_bounds};
use vstd::prelude::*;

verus! {

/// Turns the raw text of a name or a value into a value of `ValueType`.
pub trait IniDecoder<ValueType: View> {
    /// What is known of `decode`: it may give a value with view `value` for the raw text
    /// `raw`. An implementation states its own; one that states none promises nothing.
    open spec fn decodes(&self, raw: Seq<char>, value: ValueType::V) -> bool {
        true
    }

    fn decode(&self, raw: &str) -> (value: ValueType)
        ensures
            self.decodes(raw@, value@),
    ;
}

/// Turns a name or a value of `ValueType` into the text that stands for it in a file.
pub trait IniEncoder<ValueType: View> {
    /// What is known of `encode`: it may give the text `text` for a value with view
    /// `value`. An implementation states its own; one that states none promises nothing.
    open spec fn encodes(&self, value: ValueType::V, text: Seq<char>) -> bool {
        true
    }

    fn encode(&self, value: &ValueType) -> (text: String)
        ensures
            self.encodes(value@, text@),
    ;
}

/// `variables` are what the decoders may read from the raw variables `raw`, one for one.
pub open spec fn reads_variables<
    NameType: View,
    ValueType: View,
    NameDecoder: IniDecoder<NameType> + ?Sized,
    ValueDecoder: IniDecoder<ValueType> + ?Sized,
>(
    raw: Seq<RawVariable>,
    variables: Seq<(NameType::V, ValueType::V)>,
    name_decoder: &NameDecoder,
    value_decoder: &ValueDecoder,
) -> bool {
    &&& variables.len() == raw.len()
    &&& forall|j: int|
        0 <= j < raw.len() ==> name_decoder.decodes(raw[j].0, #[trigger] variables[j].0)
            && value_decoder.decodes(raw[j].1, variables[j].1)
}

/// `categories` are the raw categories `raw` with the names and values of their variables
/// read by the decoders: same category names, and variables read one for one.
pub open spec fn reads_categories<
    NameType: View,
    ValueType: View,
    NameDecoder: IniDecoder<NameType> + ?Sized,
    ValueDecoder: IniDecoder<ValueType> + ?Sized,
>(
    raw: Seq<RawCategory>,
    categories: Seq<(Seq<char>, Seq<(NameType::V, ValueType::V)>)>,
    name_decoder: &NameDecoder,
    value_decoder: &ValueDecoder,
) -> bool {
    &&& categories.len() == raw.len()
    &&& forall|i: int|
        0 <= i < raw.len() ==> (#[trigger] categories[i]).0 == raw[i].0 && reads_variables(
            raw[i].1,
            categories[i].1,
            name_decoder,
            value_decoder,
        )
}

/// `texts` are what the encoders may write for `variables`, one for one.
pub open spec fn writes_variables<
    NameType: View,
    ValueType: View,
    NameEncoder: IniEncoder<NameType> + ?Sized,
    ValueEncoder: IniEncoder<ValueType> + ?Sized,
>(
    variables: Seq<(NameType::V, ValueType::V)>,
    texts: Seq<RawVariable>,
    name_encoder: &NameEncoder,
    value_encoder: &ValueEncoder,
) -> bool {
    &&& texts.len() == variables.len()
    &&& forall|j: int|
        0 <= j < variables.len() ==> name_encoder.encodes(variables[j].0, #[trigger] texts[j].0)
            && value_encoder.encodes(variables[j].1, texts[j].1)
}

/// `texts` are `categories` with the names and values of their variables written by the
/// encoders: same category names, and variables written one for one.
pub open spec fn writes_categories<
    NameType: View,
    ValueType: View,
    NameEncoder: IniEncoder<NameType> + ?Sized,
    ValueEncoder: IniEncoder<ValueType> + ?Sized,
>(
    categories: Seq<(Seq<char>, Seq<(NameType::V, ValueType::V)>)>,
    texts: Seq<RawCategory>,
    name_encoder: &NameEncoder,
    value_encoder: &ValueEncoder,
) -> bool {
    &&& texts.len() == categories.len()
    &&& forall|i: int|
        0 <= i < categories.len() ==> (#[trigger] texts[i]).0 == categories[i].0
            && writes_variables(categories[i].1, texts[i].1, name_encoder, value_encoder)
}

/// Writes a name or a value as `{:?}` formats it.
pub struct DebugText;

/// The text `format!("{:?}", value)` gives, by the value's `Debug` implementation.
/// Nothing is stated of it: what it holds depends on an implementation of `Debug` that
/// nothing here reads.
#[verifier::external_body]
fn debug_text<T: std::fmt::Debug + ?Sized>(value: &T) -> String {
    format!("{:?}", value)
}

impl<ValueType: View + std::fmt::Debug> IniEncoder<ValueType> for DebugText {
    fn encode(&self, value: &ValueType) -> (text: String) {
        debug_text(value)
    }
}

/// Reads a name as its raw text without surrounding white space.
pub struct TrimmedText;

/// Reads and writes text as it stands.
pub struct PlainText;

impl IniDecoder<String> for TrimmedText {
    open spec fn decodes(&self, raw: Seq<char>, value: Seq<char>) -> bool {
        value == trim(raw)
    }

    fn decode(&self, raw: &str) -> (value: String) {
        let chars = text_chars(raw);
        let (start, end) = trim_bounds(&chars, 0, chars.len());
        proof {
            assert(chars@.subrange(0, chars@.len() as int) =~= raw@);
        }
        let part = raw.substring_char(start, end);
        part.to_owned()
    }
}

impl IniDecoder<String> for PlainText {
    open spec fn decodes(&self, raw: Seq<char>, value: Seq<char>) -> bool {
        value == raw
    }

    fn decode(&self, raw: &str) -> (value: String) {
        raw.to_owned()
    }
}

impl IniEncoder<String> for PlainText {
    open spec fn encodes(&self, value: Seq<char>, text: Seq<char>) -> bool {
        text == value
    }

    fn encode(&self, value: &String) -> (text: String) {
        value.clone()
    }
}

} // verus!
