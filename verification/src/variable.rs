//! A named variable of a category.
use crate::coding::{DebugText, IniEncoder};
use crate::model::{variable_text, RawVariable};
use vstd::prelude::*;

verus! {

/// A variable: a name and the value it holds.
pub struct IniVariable<NameType, ValueType> {
    pub name: NameType,
    pub value: ValueType,
}

impl<NameType: View, ValueType: View> View for IniVariable<NameType, ValueType> {
    type V = (NameType::V, ValueType::V);

    open spec fn view(&self) -> (NameType::V, ValueType::V) {
        (self.name@, self.value@)
    }
}

/// The views of the variables.
pub open spec fn variable_views<NameType: View, ValueType: View>(
    variables: Seq<IniVariable<NameType, ValueType>>,
) -> Seq<(NameType::V, ValueType::V)> {
    variables.map_values(|v: IniVariable<NameType, ValueType>| v@)
}

impl<NameType, ValueType> IniVariable<NameType, ValueType> {
    /// Create a new variable.
    pub fn new(name: NameType, value: ValueType) -> (variable: Self)
        ensures
            variable.name == name,
            variable.value == value,
    {
        IniVariable { name, value }
    }
}

impl<NameType: View, ValueType: View> IniVariable<NameType, ValueType> {
    /// Turn self into a string with encoded values: `name=value`.
    pub fn to_encoded_string<NameEncoder: IniEncoder<NameType> + ?Sized, ValueEncoder: IniEncoder<
        ValueType,
    > + ?Sized>(&self, name_encoder: &NameEncoder, value_encoder: &ValueEncoder) -> (text:
        String)
        ensures
            exists|texts: RawVariable|
                #![trigger variable_text(texts.0, texts.1)]
                name_encoder.encodes(self.name@, texts.0) && value_encoder.encodes(
                    self.value@,
                    texts.1,
                ) && text@ == variable_text(texts.0, texts.1),
    {
        let mut text = name_encoder.encode(&self.name);
        let value_text = value_encoder.encode(&self.value);
        let ghost texts: RawVariable = (text@, value_text@);
        proof {
            reveal_strlit("=");
        }
        text.append("=");
        text.append(value_text.as_str());
        proof {
            assert(text@ =~= variable_text(texts.0, texts.1));
        }
        text
    }
}

impl<NameType: View + std::fmt::Debug, ValueType: View + std::fmt::Debug> IniVariable<
    NameType,
    ValueType,
> {
    /// The variable as its debug text, `name=value` with both written by `{:?}`.
    pub fn debug_string(&self) -> (text: String)
        ensures
            exists|texts: RawVariable|
                #![trigger variable_text(texts.0, texts.1)]
                text@ == variable_text(texts.0, texts.1),
    {
        self.to_encoded_string(&DebugText, &DebugText)
    }
}

} // verus!
