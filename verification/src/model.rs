//! The mathematical model of an INI document: categories of named variables,
//! how they are looked up and changed, and the text they are written as.
use crate::text::join;
use vstd::prelude::*;

verus! {

/// A variable as raw text: its name and its value.
pub type RawVariable = (Seq<char>, Seq<char>);

/// A category as raw text: its name and its variables in order.
pub type RawCategory = (Seq<char>, Seq<RawVariable>);

/// `k` is the first position of `entries` whose name is `name`.
pub open spec fn is_first_named<T>(entries: Seq<(Seq<char>, T)>, name: Seq<char>, k: int) -> bool {
    &&& 0 <= k < entries.len()
    &&& entries[k].0 == name
    &&& forall|j: int| 0 <= j < k ==> entries[j].0 != name
}

/// The first position of `entries` whose name is `name`, if any.
pub open spec fn find_named<T>(entries: Seq<(Seq<char>, T)>, name: Seq<char>) -> Option<int> {
    if exists|k: int| is_first_named(entries, name, k) {
        Some(choose|k: int| is_first_named(entries, name, k))
    } else {
        None
    }
}

/// `entries` where the first entry named `name` holds `value`; an entry is added
/// at the end when none has that name.
pub open spec fn set_named<T>(entries: Seq<(Seq<char>, T)>, name: Seq<char>, value: T) -> Seq<
    (Seq<char>, T),
> {
    match find_named(entries, name) {
        Some(k) => entries.update(k, (name, value)),
        None => entries.push((name, value)),
    }
}

/// `categories` with a category named `name` added at the end, unless one has that name.
pub open spec fn ensure_category<T>(categories: Seq<(Seq<char>, Seq<T>)>, name: Seq<char>) -> Seq<
    (Seq<char>, Seq<T>),
> {
    match find_named(categories, name) {
        Some(_) => categories,
        None => categories.push((name, Seq::empty())),
    }
}

/// Where the variable `variable` of the category `category` stands: the position of the
/// first category with that name, and in it the position of the first variable with that name.
pub open spec fn locate<V>(
    categories: Seq<(Seq<char>, Seq<(Seq<char>, V)>)>,
    category: Seq<char>,
    variable: Seq<char>,
) -> Option<(int, int)> {
    match find_named(categories, category) {
        Some(i) => match find_named(categories[i].1, variable) {
            Some(j) => Some((i, j)),
            None => None,
        },
        None => None,
    }
}

/// The value of the variable `variable` in the category `category`: the first
/// category with that name, and in it the first variable with that name.
pub open spec fn lookup<V>(
    categories: Seq<(Seq<char>, Seq<(Seq<char>, V)>)>,
    category: Seq<char>,
    variable: Seq<char>,
) -> Option<V> {
    match locate(categories, category, variable) {
        Some((i, j)) => Some(categories[i].1[j].1),
        None => None,
    }
}

/// `categories` where the variable `variable` of the category `category` holds `value`:
/// the first category of that name gets the value set on its variables, or a new category
/// holding only that variable is added at the end.
pub open spec fn set_value<V>(
    categories: Seq<(Seq<char>, Seq<(Seq<char>, V)>)>,
    category: Seq<char>,
    variable: Seq<char>,
    value: V,
) -> Seq<(Seq<char>, Seq<(Seq<char>, V)>)> {
    match find_named(categories, category) {
        Some(i) => categories.update(
            i,
            (categories[i].0, set_named(categories[i].1, variable, value)),
        ),
        None => categories.push((category, seq![(variable, value)])),
    }
}

/// The line `name=value`.
pub open spec fn variable_text(name: Seq<char>, value: Seq<char>) -> Seq<char> {
    name + seq!['='] + value
}

/// The lines `name=value` of the variables.
pub open spec fn variable_lines(variables: Seq<RawVariable>) -> Seq<Seq<char>> {
    variables.map_values(|v: RawVariable| variable_text(v.0, v.1))
}

/// A category written out: its header line `[name]`, then one line per variable.
pub open spec fn category_text(name: Seq<char>, variables: Seq<RawVariable>) -> Seq<char> {
    seq!['['] + name + seq![']', '\n'] + join(variable_lines(variables), seq!['\n'])
}

/// The texts of the categories.
pub open spec fn category_texts(categories: Seq<RawCategory>) -> Seq<Seq<char>> {
    categories.map_values(|c: RawCategory| category_text(c.0, c.1))
}

/// A document written out from the texts of its names and values: its categories with
/// an empty line between each two.
pub open spec fn document_text(categories: Seq<RawCategory>) -> Seq<char> {
    join(category_texts(categories), seq!['\n', '\n'])
}

pub proof fn lemma_find_named_at<T>(entries: Seq<(Seq<char>, T)>, name: Seq<char>, k: int)
    requires
        is_first_named(entries, name, k),
    ensures
        find_named(entries, name) == Some(k),
{
    let w = choose|w: int| is_first_named(entries, name, w);
    assert(is_first_named(entries, name, w));
    if w < k {
        assert(entries[w].0 != name);
    } else if k < w {
        assert(entries[k].0 != name);
    }
}

proof fn lemma_least_named<T>(entries: Seq<(Seq<char>, T)>, name: Seq<char>, j: int)
    requires
        0 <= j < entries.len(),
        entries[j].0 == name,
    ensures
        exists|k: int| is_first_named(entries, name, k),
    decreases j,
{
    if exists|i: int| 0 <= i < j && entries[i].0 == name {
        let i = choose|i: int| 0 <= i < j && entries[i].0 == name;
        lemma_least_named(entries, name, i);
    } else {
        assert(is_first_named(entries, name, j));
    }
}

pub proof fn lemma_find_named_result<T>(entries: Seq<(Seq<char>, T)>, name: Seq<char>)
    ensures
        match find_named(entries, name) {
            Some(k) => is_first_named(entries, name, k),
            None => forall|j: int| 0 <= j < entries.len() ==> entries[j].0 != name,
        },
{
    if find_named(entries, name) is None {
        assert forall|j: int| 0 <= j < entries.len() implies entries[j].0 != name by {
            if entries[j].0 == name {
                lemma_least_named(entries, name, j);
            }
        }
    }
}

} // verus!
