//! An INI document: its categories, where it was read from, and the encoders that write
//! it back as text.
use crate::category::IniCategory;
use crate::coding::{
    reads_categories, writes_categories, writes_variables, DebugText, IniDecoder, IniEncoder,
    PlainText, TrimmedText,
};
use crate::model::{
    category_text, category_texts, document_text, ensure_category, find_named, lemma_find_named_at,
    lemma_find_named_result, locate, lookup, set_value, RawCategory, RawVariable,
};
use crate::parse::{
    category_views, lines_split_cleanly, lemma_reads_plainly, parse_document, parse_raw_contents,
    plain_document,
};
use crate::text::join_texts;
use crate::variable::{variable_views, IniVariable};
use vstd::prelude::*;

verus! {

/// An INI document: categories of variables, the file it was read from (if any), and
/// the encoders that write names and values back as text.
pub struct Ini<NameType, ValueType, NameEncoder = PlainText, ValueEncoder = PlainText> {
    pub categories: Vec<IniCategory<NameType, ValueType>>,
    source_file: Option<String>,
    name_encoder: NameEncoder,
    value_encoder: ValueEncoder,
}

impl<NameType: View, ValueType: View, NameEncoder, ValueEncoder> View for Ini<
    NameType,
    ValueType,
    NameEncoder,
    ValueEncoder,
> {
    type V = Seq<(Seq<char>, Seq<(NameType::V, ValueType::V)>)>;

    open spec fn view(&self) -> Seq<(Seq<char>, Seq<(NameType::V, ValueType::V)>)> {
        category_views(self.category_seq())
    }
}

impl Ini<String, String, PlainText, PlainText> {
    /// Create a new ini from raw contents, with names trimmed and values kept as they
    /// stand, both written back as they stand.
    /// Parses the contents immediately.
    pub fn from_contents(contents: &str) -> (ini: Self)
        requires
            lines_split_cleanly(contents@),
        ensures
            ini@ == plain_document(contents@),
            ini.name_coder() == PlainText,
            ini.value_coder() == PlainText,
            ini.source() is None,
    {
        let ini = Ini::from_contents_with_encoding(
            contents,
            TrimmedText,
            PlainText,
            PlainText,
            PlainText,
        );
        proof {
            lemma_reads_plainly(parse_document(contents@), ini@);
        }
        ini
    }
}

impl<NameType: View, ValueType: View, NameEncoder, ValueEncoder> Ini<
    NameType,
    ValueType,
    NameEncoder,
    ValueEncoder,
> {
    /// The categories of the document, in order.
    pub closed spec fn category_seq(&self) -> Seq<IniCategory<NameType, ValueType>> {
        self.categories@
    }

    /// The encoder that writes this document's variable names.
    pub closed spec fn name_coder(&self) -> NameEncoder {
        self.name_encoder
    }

    /// The encoder that writes this document's variable values.
    pub closed spec fn value_coder(&self) -> ValueEncoder {
        self.value_encoder
    }

    /// The path of the file this document was read from, if any.
    pub closed spec fn source(&self) -> Option<Seq<char>> {
        match self.source_file {
            Some(path) => Some(path@),
            None => None,
        }
    }

    /// `self` has the encoders and the source file of `other`.
    pub open spec fn keeps_settings_of(&self, other: &Self) -> bool {
        &&& self.name_coder() == other.name_coder()
        &&& self.value_coder() == other.value_coder()
        &&& self.source() == other.source()
    }

    /// Create a new ini from raw contents and encoding settings.
    /// Parses the contents immediately.
    pub fn from_contents_with_encoding<
        NameDecoder: IniDecoder<NameType>,
        ValueDecoder: IniDecoder<ValueType>,
    >(
        contents: &str,
        name_decoder: NameDecoder,
        name_encoder: NameEncoder,
        value_decoder: ValueDecoder,
        value_encoder: ValueEncoder,
    ) -> (ini: Self)
        requires
            lines_split_cleanly(contents@),
        ensures
            reads_categories(parse_document(contents@), ini@, &name_decoder, &value_decoder),
            ini.name_coder() == name_encoder,
            ini.value_coder() == value_encoder,
            ini.source() is None,
    {
        let categories = parse_raw_contents(contents, &name_decoder, &value_decoder);
        Ini { categories, source_file: None, name_encoder, value_encoder }
    }

    /// The categories of the document, in order.
    pub fn categories(&self) -> (categories: &Vec<IniCategory<NameType, ValueType>>)
        ensures
            categories@ == self.category_seq(),
    {
        &self.categories
    }

    /// The path of the file this document was read from, if any.
    pub fn source_file(&self) -> (path: Option<&str>)
        ensures
            match path {
                Some(p) => self.source() == Some(p@),
                None => self.source() is None,
            },
    {
        match &self.source_file {
            Some(path) => Some(path.as_str()),
            None => None,
        }
    }

    /// Where saving the changes writes the document: the file it was read from, or, when it
    /// did not come from a file, the error that says so.
    pub fn save_path(&self) -> (path: Result<&str, String>)
        ensures
            match self.source() {
                Some(p) => path matches Ok(q) && q@ == p,
                None => path matches Err(message) && message@
                    == "Could not safe ini to origin file, ini did not come from a file."@,
            },
    {
        match &self.source_file {
            Some(path) => Ok(path.as_str()),
            None => Err("Could not safe ini to origin file, ini did not come from a file.".to_owned()),
        }
    }

    /// Record the file this document belongs to.
    pub fn set_source_file(&mut self, path: &str)
        ensures
            final(self)@ == old(self)@,
            final(self).name_coder() == old(self).name_coder(),
            final(self).value_coder() == old(self).value_coder(),
            final(self).source() == Some(path@),
    {
        self.source_file = Some(path.to_owned());
    }

    /// The position of the first category named `category_name`.
    fn category_position(&self, category_name: &str) -> (position: Option<usize>)
        ensures
            match position {
                Some(k) => find_named(self@, category_name@) == Some(k as int),
                None => find_named(self@, category_name@) is None,
            },
    {
        let key: String = category_name.to_owned();
        let mut i: usize = 0;
        while i < self.categories.len()
            invariant
                i <= self.categories@.len(),
                key@ == category_name@,
                forall|j: int| 0 <= j < i ==> (#[trigger] self@[j]).0 != key@,
            decreases self.categories@.len() - i,
        {
            if self.categories[i].name == key {
                proof {
                    assert(self@[i as int].0 == key@);
                    lemma_find_named_at(self@, key@, i as int);
                }
                return Some(i);
            }
            assert(self@[i as int].0 != key@);
            i = i + 1;
        }
        proof {
            lemma_find_named_result(self@, key@);
        }
        None
    }

    /// Try to find a category in the ini: the first one named `category_name`.
    pub fn get_category(&self, category_name: &str) -> (found: Option<
        &IniCategory<NameType, ValueType>,
    >)
        ensures
            match find_named(self@, category_name@) {
                Some(k) => found == Some(&self.category_seq()[k]) && self.category_seq()[k]@ == self@[k],
                None => found is None,
            },
    {
        match self.category_position(category_name) {
            Some(k) => Some(&self.categories[k]),
            None => None,
        }
    }

    /// Try to find a mutable category in the ini: the first one named `category_name`.
    pub fn get_category_mut(&mut self, category_name: &str) -> (found: Option<
        &mut IniCategory<NameType, ValueType>,
    >)
        ensures
            match find_named(old(self)@, category_name@) {
                Some(k) => found matches Some(c)
                    && *c == old(self).category_seq()[k]
                    && c@ == old(self)@[k]
                    && final(self).category_seq() == old(self).category_seq().update(k, *final(c))
                    && final(self)@ == old(self)@.update(k, final(c)@)
                    && final(self).keeps_settings_of(old(self)),
                None => found is None && *final(self) == *old(self),
            },
    {
        match self.category_position(category_name) {
            Some(k) => Some(&mut self.categories[k]),
            None => None,
        }
    }

    /// Create a category at the end if none has the name `category_name`.
    pub fn set_category(&mut self, category_name: &str)
        ensures
            final(self)@ == ensure_category(old(self)@, category_name@),
            final(self).keeps_settings_of(old(self)),
    {
        if self.category_position(category_name).is_none() {
            let category: IniCategory<NameType, ValueType> = IniCategory::new(category_name);
            let ghost view = category@;
            let ghost before = self.categories@;
            proof {
                assert(view.1 =~= Seq::<(NameType::V, ValueType::V)>::empty());
            }
            self.categories.push(category);
            proof {
                assert(category_views(self.categories@) =~= category_views(before).push(view));
            }
        }
    }
}

pub broadcast proof fn lemma_category_views_update<NameType: View, ValueType: View>(
    categories: Seq<IniCategory<NameType, ValueType>>,
    i: int,
    category: IniCategory<NameType, ValueType>,
)
    requires
        0 <= i < categories.len(),
    ensures
        #[trigger] category_views(categories.update(i, category)) == category_views(
            categories,
        ).update(i, category@),
{
    assert(category_views(categories.update(i, category)) =~= category_views(categories).update(
        i,
        category@,
    ));
}

pub broadcast proof fn lemma_variable_views_update<NameType: View, ValueType: View>(
    variables: Seq<IniVariable<NameType, ValueType>>,
    j: int,
    variable: IniVariable<NameType, ValueType>,
)
    requires
        0 <= j < variables.len(),
    ensures
        #[trigger] variable_views(variables.update(j, variable)) == variable_views(
            variables,
        ).update(j, variable@),
{
    assert(variable_views(variables.update(j, variable)) =~= variable_views(variables).update(
        j,
        variable@,
    ));
}

impl<ValueType: View, NameEncoder, ValueEncoder> Ini<String, ValueType, NameEncoder, ValueEncoder> {
    /// Try to find a variable in the ini: the first variable named `variable_name` in the
    /// first category named `category_name`.
    pub fn get_variable(&self, category_name: &str, variable_name: &str) -> (found: Option<
        &IniVariable<String, ValueType>,
    >)
        ensures
            match lookup(self@, category_name@, variable_name@) {
                Some(value) => found matches Some(v) && v@ == (variable_name@, value),
                None => found is None,
            },
            locate(self@, category_name@, variable_name@) matches Some((i, j)) ==> found == Some(
                &self.category_seq()[i].variables@[j],
            ),
    {
        proof {
            lemma_find_named_result(self@, category_name@);
        }
        match self.get_category(category_name) {
            Some(category) => {
                proof {
                    lemma_find_named_result(category@.1, variable_name@);
                }
                category.get_variable(variable_name)
            },
            None => None,
        }
    }

    /// Try to find a mutable variable in the ini: the first variable named `variable_name`
    /// in the first category named `category_name`.
    pub fn get_variable_mut(&mut self, category_name: &str, variable_name: &str) -> (found: Option<
        &mut IniVariable<String, ValueType>,
    >)
        ensures
            match locate(old(self)@, category_name@, variable_name@) {
                Some((i, j)) => found matches Some(v) && *v == old(self).category_seq()[i].variables@[j]
                    && v@ == old(self)@[i].1[j] && final(self)@
                    == old(self)@.update(
                    i,
                    (old(self)@[i].0, old(self)@[i].1.update(j, final(v)@)),
                ) && final(self).keeps_settings_of(old(self)),
                None => found is None && final(self)@ == old(self)@
                    && final(self).keeps_settings_of(old(self)),
            },
    {
        broadcast use {lemma_category_views_update, lemma_variable_views_update};

        proof {
            lemma_find_named_result(self@, category_name@);
        }
        match self.category_position(category_name) {
            Some(i) => {
                proof {
                    lemma_find_named_result(self@[i as int].1, variable_name@);
                }
                self.categories[i].get_variable_mut(variable_name)
            },
            None => None,
        }
    }

    /// Set the value of a variable: the first variable named `variable_name` in the first
    /// category named `category_name`.
    /// Creates the category and/or variable at the end if it does not exist.
    pub fn set_variable(&mut self, category_name: &str, variable_name: &str, variable_value: ValueType)
        ensures
            final(self)@ == set_value(
                old(self)@,
                category_name@,
                variable_name@,
                variable_value@,
            ),
            final(self).keeps_settings_of(old(self)),
    {
        broadcast use lemma_category_views_update;

        match self.category_position(category_name) {
            Some(i) => {
                self.categories[i].set_variable(variable_name, variable_value);
            },
            None => {
                let mut category = IniCategory::new(category_name);
                let ghost empty = category@;
                proof {
                    assert(empty.1 =~= Seq::<(Seq<char>, ValueType::V)>::empty());
                }
                category.set_variable(variable_name, variable_value);
                let ghost view = category@;
                let ghost before = self.categories@;
                proof {
                    lemma_find_named_result(empty.1, variable_name@);
                    assert(view.1 =~= seq![(variable_name@, variable_value@)]);
                }
                self.categories.push(category);
                proof {
                    assert(category_views(self.categories@) =~= category_views(before).push(view));
                }
            },
        }
    }
}

impl<NameType: View, ValueType: View, NameEncoder, ValueEncoder> Ini<
    NameType,
    ValueType,
    NameEncoder,
    ValueEncoder,
> {
    /// The categories, each written by `IniCategory::to_encoded_string` with the given
    /// encoders, with an empty line between each two.
    fn write_with<
        CategoryNameEncoder: IniEncoder<NameType> + ?Sized,
        CategoryValueEncoder: IniEncoder<ValueType> + ?Sized,
    >(&self, name_encoder: &CategoryNameEncoder, value_encoder: &CategoryValueEncoder) -> (text:
        String)
        ensures
            exists|texts: Seq<RawCategory>|
                #![trigger document_text(texts)]
                writes_categories(self@, texts, name_encoder, value_encoder) && text@
                    == document_text(texts),
    {
        let ghost mut texts: Seq<RawCategory> = Seq::empty();
        let mut parts: Vec<String> = Vec::new();
        let mut i: usize = 0;
        while i < self.categories.len()
            invariant
                i <= self.categories@.len(),
                texts.len() == i,
                writes_categories(self@.take(i as int), texts, name_encoder, value_encoder),
                parts@.len() == i,
                forall|j: int| 0 <= j < i ==> #[trigger] parts@[j]@ == category_texts(texts)[j],
            decreases self.categories@.len() - i,
        {
            let part = self.categories[i].to_encoded_string(name_encoder, value_encoder);
            proof {
                let category = self.categories@[i as int];
                let t = choose|t: Seq<RawVariable>|
                    #![trigger category_text(category.name@, t)]
                    writes_variables(category@.1, t, name_encoder, value_encoder) && part@
                        == category_text(category.name@, t);
                assert(self@[i as int] == category@);
                let old_texts = texts;
                texts = texts.push((category.name@, t));
                assert(self@.take(i + 1) =~= self@.take(i as int).push(self@[i as int]));
                assert(category_texts(texts)[i as int] == part@);
                assert forall|j: int| 0 <= j < i implies category_texts(texts)[j] == category_texts(
                    old_texts,
                )[j] by {}
            }
            parts.push(part);
            i = i + 1;
        }
        proof {
            assert(self@.take(i as int) =~= self@);
            assert(parts@.map_values(|p: String| p@) =~= category_texts(texts));
            reveal_strlit("\n\n");
            assert("\n\n"@ =~= seq!['\n', '\n']);
        }
        let text = join_texts(&parts, "\n\n");
        proof {
            assert(text@ == document_text(texts));
        }
        text
    }
}

impl<
    NameType: View,
    ValueType: View,
    NameEncoder: IniEncoder<NameType>,
    ValueEncoder: IniEncoder<ValueType>,
> Ini<NameType, ValueType, NameEncoder, ValueEncoder> {
    /// Turn the document into text: its categories, each written by
    /// `IniCategory::to_encoded_string` with this document's encoders, with an empty line
    /// between each two.
    pub fn to_string(&self) -> (text: String)
        ensures
            exists|texts: Seq<RawCategory>|
                #![trigger document_text(texts)]
                writes_categories(self@, texts, &self.name_coder(), &self.value_coder()) && text@
                    == document_text(texts),
    {
        self.write_with(&self.name_encoder, &self.value_encoder)
    }
}

impl<
    NameType: View + std::fmt::Debug,
    ValueType: View + std::fmt::Debug,
    NameEncoder,
    ValueEncoder,
> Ini<NameType, ValueType, NameEncoder, ValueEncoder> {
    /// The document as its debug text: its categories as `IniCategory::debug_string` writes
    /// them, with an empty line between each two.
    pub fn debug_string(&self) -> (text: String)
        ensures
            exists|texts: Seq<RawCategory>|
                #![trigger document_text(texts)]
                writes_categories::<NameType, ValueType, DebugText, DebugText>(
                    self@,
                    texts,
                    &DebugText,
                    &DebugText,
                ) && text@ == document_text(texts),
    {
        self.write_with(&DebugText, &DebugText)
    }
}

} // verus!
