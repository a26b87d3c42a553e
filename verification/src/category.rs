//! A named category of variables.
use crate::coding::{writes_variables, DebugText, IniEncoder};
use crate::model::{
    category_text, find_named, lemma_find_named_at, lemma_find_named_result, set_named,
    variable_lines, variable_text, RawVariable,
};
use crate::text::{join, join_texts};
use crate::variable::{variable_views, IniVariable};
use vstd::prelude::*;

verus! {

/// A category: a name and its variables in order.
pub struct IniCategory<NameType, ValueType> {
    pub name: String,
    pub variables: Vec<IniVariable<NameType, ValueType>>,
}

impl<NameType: View, ValueType: View> View for IniCategory<NameType, ValueType> {
    type V = (Seq<char>, Seq<(NameType::V, ValueType::V)>);

    open spec fn view(&self) -> (Seq<char>, Seq<(NameType::V, ValueType::V)>) {
        (self.name@, variable_views(self.variables@))
    }
}

impl<NameType, ValueType> IniCategory<NameType, ValueType> {
    /// Create a new category without variables.
    pub fn new(name: &str) -> (category: Self)
        ensures
            category.name@ == name@,
            category.variables@ == Seq::<IniVariable<NameType, ValueType>>::empty(),
    {
        IniCategory { name: name.to_owned(), variables: Vec::new() }
    }
}

impl<NameType: View, ValueType: View> IniCategory<NameType, ValueType> {
    /// Turn self into a string with encoded values: the header `[name]`, then one line
    /// `name=value` per variable.
    pub fn to_encoded_string<NameEncoder: IniEncoder<NameType> + ?Sized, ValueEncoder: IniEncoder<
        ValueType,
    > + ?Sized>(&self, name_encoder: &NameEncoder, value_encoder: &ValueEncoder) -> (text:
        String)
        ensures
            exists|texts: Seq<RawVariable>|
                #![trigger category_text(self.name@, texts)]
                writes_variables(self@.1, texts, name_encoder, value_encoder) && text@
                    == category_text(self.name@, texts),
    {
        let ghost mut texts: Seq<RawVariable> = Seq::empty();
        let mut lines: Vec<String> = Vec::new();
        let mut i: usize = 0;
        while i < self.variables.len()
            invariant
                i <= self.variables@.len(),
                texts.len() == i,
                writes_variables(self@.1.take(i as int), texts, name_encoder, value_encoder),
                lines@.len() == i,
                forall|j: int| 0 <= j < i ==> #[trigger] lines@[j]@ == variable_lines(texts)[j],
            decreases self.variables@.len() - i,
        {
            let line = self.variables[i].to_encoded_string(name_encoder, value_encoder);
            proof {
                let t = choose|t: RawVariable|
                    #![trigger variable_text(t.0, t.1)]
                    name_encoder.encodes(self.variables@[i as int].name@, t.0)
                        && value_encoder.encodes(self.variables@[i as int].value@, t.1) && line@
                        == variable_text(t.0, t.1);
                assert(self@.1[i as int] == self.variables@[i as int]@);
                let old_texts = texts;
                texts = texts.push(t);
                assert(self@.1.take(i + 1) =~= self@.1.take(i as int).push(self@.1[i as int]));
                assert(variable_lines(texts)[i as int] == line@);
                assert forall|j: int| 0 <= j < i implies variable_lines(texts)[j] == variable_lines(
                    old_texts,
                )[j] by {}
            }
            lines.push(line);
            i = i + 1;
        }
        proof {
            assert(self@.1.take(i as int) =~= self@.1);
            assert(lines@.map_values(|p: String| p@) =~= variable_lines(texts));
        }
        let body = join_texts(&lines, "\n");
        let mut text = String::new();
        proof {
            reveal_strlit("[");
            reveal_strlit("]\n");
            reveal_strlit("\n");
        }
        text.append("[");
        text.append(self.name.as_str());
        text.append("]\n");
        text.append(body.as_str());
        proof {
            assert("\n"@ =~= seq!['\n']);
            assert(body@ == join(variable_lines(texts), seq!['\n']));
            assert("["@ =~= seq!['[']);
            assert("]\n"@ =~= seq![']', '\n']);
            assert(text@ =~= category_text(self.name@, texts));
        }
        text
    }
}

impl<NameType: View + std::fmt::Debug, ValueType: View + std::fmt::Debug> IniCategory<
    NameType,
    ValueType,
> {
    /// The category as its debug text: the header `[name]`, then one line `name=value`
    /// per variable, with names and values written by `{:?}`.
    pub fn debug_string(&self) -> (text: String)
        ensures
            exists|texts: Seq<RawVariable>|
                #![trigger category_text(self.name@, texts)]
                writes_variables::<NameType, ValueType, DebugText, DebugText>(
                    self@.1,
                    texts,
                    &DebugText,
                    &DebugText,
                ) && text@ == category_text(self.name@, texts),
    {
        self.to_encoded_string(&DebugText, &DebugText)
    }
}

impl<ValueType: View> IniCategory<String, ValueType> {
    /// The position of the first variable named `variable_name`.
    fn variable_position(&self, variable_name: &str) -> (position: Option<usize>)
        ensures
            match position {
                Some(k) => find_named(self@.1, variable_name@) == Some(k as int),
                None => find_named(self@.1, variable_name@) is None,
            },
    {
        let key: String = variable_name.to_owned();
        let mut i: usize = 0;
        while i < self.variables.len()
            invariant
                i <= self.variables@.len(),
                key@ == variable_name@,
                forall|j: int| 0 <= j < i ==> (#[trigger] self@.1[j]).0 != key@,
            decreases self.variables@.len() - i,
        {
            if self.variables[i].name == key {
                proof {
                    assert(self@.1[i as int].0 == key@);
                    lemma_find_named_at(self@.1, key@, i as int);
                }
                return Some(i);
            }
            assert(self@.1[i as int].0 != key@);
            i = i + 1;
        }
        proof {
            lemma_find_named_result(self@.1, key@);
        }
        None
    }

    /// Try to find a variable in the category: the first one named `variable_name`.
    pub fn get_variable(&self, variable_name: &str) -> (found: Option<&IniVariable<String, ValueType>>)
        ensures
            found == (match find_named(self@.1, variable_name@) {
                Some(k) => Some(&self.variables@[k]),
                None => None,
            }),
    {
        match self.variable_position(variable_name) {
            Some(k) => Some(&self.variables[k]),
            None => None,
        }
    }

    /// Try to find a mutable variable in the category: the first one named `variable_name`.
    pub fn get_variable_mut(&mut self, variable_name: &str) -> (found: Option<
        &mut IniVariable<String, ValueType>,
    >)
        ensures
            match find_named(old(self)@.1, variable_name@) {
                Some(k) => found matches Some(r) && *r == old(self).variables@[k]
                    && final(self).name == old(self).name && final(self).variables@
                    == old(self).variables@.update(k, *final(r)),
                None => found is None && *final(self) == *old(self),
            },
    {
        match self.variable_position(variable_name) {
            Some(k) => Some(&mut self.variables[k]),
            None => None,
        }
    }

    /// Set the value of a variable: the first one named `variable_name`.
    /// Creates the variable at the end if none has that name.
    pub fn set_variable(&mut self, variable_name: &str, variable_value: ValueType)
        ensures
            final(self)@ == (old(self)@.0, set_named(old(self)@.1, variable_name@, variable_value@)),
    {
        match self.variable_position(variable_name) {
            Some(k) => {
                self.variables[k].value = variable_value;
            },
            None => {
                self.variables.push(IniVariable::new(variable_name.to_owned(), variable_value));
            },
        }
        proof {
            assert(final(self)@.1 =~= set_named(old(self)@.1, variable_name@, variable_value@));
        }
    }
}

} // verus!
