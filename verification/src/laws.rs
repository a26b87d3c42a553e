//! What holds of the library as a whole: reading back what was written, reading what
//! was set, and what setting leaves alone.
use crate::coding::{
    reads_categories, reads_variables, writes_categories, writes_variables, IniDecoder, IniEncoder,
    PlainText,
};
use crate::model::{
    category_text, category_texts, document_text, ensure_category, find_named, is_first_named,
    lemma_find_named_at, lemma_find_named_result, lookup, set_named, set_value, variable_lines,
    variable_text, RawCategory, RawVariable,
};
use crate::parse::{
    add_variable, bytes_before, bytes_from, header_name, is_header, lines_split_cleanly,
    splits_cleanly, parse_document, plain_document, read_line, read_lines, unnamed_category,
    with_trimmed_names, with_variables,
};
use crate::text::{
    find_char, is_first_at, is_first_break_at, is_line_break, is_white_space, join,
    lemma_find_char_at, lemma_find_char_none, lemma_find_line_break_at, lemma_find_line_break_none,
    lemma_trim_end_take, lemma_trim_start_skip, split_lines, trim, trim_end, trim_start,
};
use vstd::prelude::*;
use vstd::utf8::{
    encode_scalar, encode_utf8, encode_utf8_decode_utf8, encode_utf8_first_scalar,
    encode_utf8_valid_utf8, is_ascii_chars, is_ascii_chars_encode_utf8, is_char_boundary,
};

verus! {

/// Text that holds no line break.
pub open spec fn is_single_line(s: Seq<char>) -> bool {
    forall|i: int| 0 <= i < s.len() ==> !is_line_break(#[trigger] s[i])
}

/// Text that holds no `=`.
pub open spec fn has_no_equals(s: Seq<char>) -> bool {
    forall|i: int| 0 <= i < s.len() ==> #[trigger] s[i] != '='
}

/// A variable name that reads back as itself: ASCII, one line, no `=`, no surrounding
/// white space, and not starting with `[`.
pub open spec fn is_writable_name(name: Seq<char>) -> bool {
    &&& is_ascii_chars(name)
    &&& is_single_line(name)
    &&& has_no_equals(name)
    &&& trim(name) == name
    &&& (name.len() == 0 || name[0] != '[')
}

/// A category that reads back as itself: a one-line name without `=`, at least one
/// variable, writable variable names and one-line values.
pub open spec fn is_writable_category(category: RawCategory) -> bool {
    &&& is_single_line(category.0)
    &&& has_no_equals(category.0)
    &&& category.1.len() > 0
    &&& forall|j: int|
        0 <= j < category.1.len() ==> is_writable_name(#[trigger] category.1[j].0)
            && is_single_line(category.1[j].1)
}

/// Categories that all read back as themselves.
pub open spec fn is_writable_document(categories: Seq<RawCategory>) -> bool {
    forall|i: int| 0 <= i < categories.len() ==> is_writable_category(#[trigger] categories[i])
}

/// A variable written as the line `name=value` that reads back as the same raw name and
/// value: an ASCII one-line name without `=`, a one-line value, and a line that once
/// trimmed is no header.
pub open spec fn is_readable_variable(name: Seq<char>, value: Seq<char>) -> bool {
    &&& is_ascii_chars(name)
    &&& is_single_line(name)
    &&& has_no_equals(name)
    &&& is_single_line(value)
    &&& !is_header(trim(variable_text(name, value)))
}

/// A written category that reads back as the same raw category: a one-line name without
/// `=` and at least one variable, each readable.
pub open spec fn is_readable_category(category: RawCategory) -> bool {
    &&& is_single_line(category.0)
    &&& has_no_equals(category.0)
    &&& category.1.len() > 0
    &&& forall|j: int|
        0 <= j < category.1.len() ==> is_readable_variable(
            #[trigger] category.1[j].0,
            category.1[j].1,
        )
}

/// Written categories that all read back as the same raw categories.
pub open spec fn is_readable_document(categories: Seq<RawCategory>) -> bool {
    forall|i: int| 0 <= i < categories.len() ==> is_readable_category(#[trigger] categories[i])
}

proof fn lemma_least_break(s: Seq<char>, j: int)
    requires
        0 <= j < s.len(),
        is_line_break(s[j]),
    ensures
        exists|k: int| is_first_break_at(s, k),
    decreases j,
{
    if exists|i: int| 0 <= i < j && is_line_break(s[i]) {
        let i = choose|i: int| 0 <= i < j && is_line_break(s[i]);
        lemma_least_break(s, i);
    } else {
        assert(is_first_break_at(s, j));
    }
}

proof fn lemma_split_single_line(s: Seq<char>)
    requires
        is_single_line(s),
    ensures
        split_lines(s) == seq![s],
{
    lemma_find_line_break_none(s);
}

/// Splitting at a line break splits the lines.
proof fn lemma_split_concat(a: Seq<char>, c: char, b: Seq<char>)
    requires
        is_line_break(c),
    ensures
        split_lines(a + seq![c] + b) == split_lines(a) + split_lines(b),
    decreases a.len(),
{
    let s = a + seq![c] + b;
    if exists|j: int| 0 <= j < a.len() && is_line_break(a[j]) {
        let j = choose|j: int| 0 <= j < a.len() && is_line_break(a[j]);
        lemma_least_break(a, j);
        let k = choose|k: int| is_first_break_at(a, k);
        lemma_find_line_break_at(a, k);
        assert(is_first_break_at(s, k));
        lemma_find_line_break_at(s, k);
        assert(s.take(k) =~= a.take(k));
        let rest = a.skip(k + 1);
        assert(s.skip(k + 1) =~= rest + seq![c] + b);
        lemma_split_concat(rest, c, b);
        assert(split_lines(s) =~= split_lines(a) + split_lines(b));
    } else {
        lemma_find_line_break_none(a);
        assert(is_first_break_at(s, a.len() as int));
        lemma_find_line_break_at(s, a.len() as int);
        assert(s.take(a.len() as int) =~= a);
        assert(s.skip(a.len() as int + 1) =~= b);
        assert(split_lines(s) =~= split_lines(a) + split_lines(b));
    }
}

/// One-line pieces joined by `'\n'` split back into the pieces.
proof fn lemma_split_joined_lines(lines: Seq<Seq<char>>)
    requires
        lines.len() > 0,
        forall|i: int| 0 <= i < lines.len() ==> is_single_line(#[trigger] lines[i]),
    ensures
        split_lines(join(lines, seq!['\n'])) == lines,
    decreases lines.len(),
{
    if lines.len() == 1 {
        lemma_split_single_line(lines[0]);
        assert(split_lines(join(lines, seq!['\n'])) =~= lines);
    } else {
        let front = lines.drop_last();
        lemma_split_joined_lines(front);
        lemma_split_single_line(lines.last());
        lemma_split_concat(join(front, seq!['\n']), '\n', lines.last());
        assert(join(front, seq!['\n']) + seq!['\n'] + lines.last() =~= join(lines, seq!['\n']));
        assert(split_lines(join(lines, seq!['\n'])) =~= lines);
    }
}

/// Reading a single line.
proof fn lemma_read_one_line(categories: Seq<RawCategory>, line: Seq<char>)
    ensures
        read_lines(categories, seq![line]) == read_line(categories, line),
{
    let lines = seq![line];
    assert(lines.drop_first() =~= Seq::<Seq<char>>::empty());
    assert(read_lines(read_line(categories, line), Seq::<Seq<char>>::empty()) == read_line(
        categories,
        line,
    ));
}

/// An empty line changes nothing.
proof fn lemma_read_empty_line(categories: Seq<RawCategory>)
    ensures
        read_lines(categories, seq![Seq::<char>::empty()]) == categories,
{
    lemma_read_one_line(categories, Seq::<char>::empty());
    lemma_trim_start_shorter(Seq::<char>::empty());
    lemma_trim_end_shorter(trim_start(Seq::<char>::empty()));
    assert(trim(Seq::<char>::empty()).len() == 0);
}

/// Reading lines one after the other reads them all.
proof fn lemma_read_lines_concat(
    categories: Seq<RawCategory>,
    first: Seq<Seq<char>>,
    second: Seq<Seq<char>>,
)
    ensures
        read_lines(categories, first + second) == read_lines(read_lines(categories, first), second),
    decreases first.len(),
{
    if first.len() == 0 {
        assert(first + second =~= second);
    } else {
        assert((first + second)[0] == first[0]);
        assert((first + second).drop_first() =~= first.drop_first() + second);
        lemma_read_lines_concat(read_line(categories, first[0]), first.drop_first(), second);
    }
}

proof fn lemma_trim_start_shorter(s: Seq<char>)
    ensures
        trim_start(s).len() <= s.len(),
        s.len() > 0 && is_white_space(s[0]) ==> trim_start(s).len() < s.len(),
    decreases s.len(),
{
    if s.len() > 0 && is_white_space(s[0]) {
        lemma_trim_start_shorter(s.drop_first());
    }
}

proof fn lemma_trim_end_shorter(s: Seq<char>)
    ensures
        trim_end(s).len() <= s.len(),
    decreases s.len(),
{
    if s.len() > 0 && is_white_space(s.last()) {
        lemma_trim_end_shorter(s.drop_last());
    }
}

/// Trimming the end keeps a prefix, and keeps every character up to the last one that is
/// not white space.
proof fn lemma_trim_end_keeps(s: Seq<char>, p: int)
    requires
        0 <= p < s.len(),
        !is_white_space(s[p]),
    ensures
        trim_end(s).len() > p,
        trim_end(s) == s.take(trim_end(s).len() as int),
    decreases s.len(),
{
    if s.len() > 0 && is_white_space(s.last()) {
        lemma_trim_end_keeps(s.drop_last(), p);
        lemma_trim_end_shorter(s.drop_last());
        assert(s.drop_last().take(trim_end(s).len() as int) =~= s.take(trim_end(s).len() as int));
    } else {
        assert(s.take(s.len() as int) =~= s);
    }
}

/// A name that is its own trim starts with a character that is not white space.
proof fn lemma_trimmed_first(name: Seq<char>)
    requires
        trim(name) == name,
        name.len() > 0,
    ensures
        !is_white_space(name[0]),
{
    lemma_trim_start_shorter(name);
    lemma_trim_end_shorter(trim_start(name));
}

/// The UTF-8 encoding of joined texts is the joined encodings.
proof fn lemma_encode_concat(first: Seq<char>, second: Seq<char>)
    ensures
        encode_utf8(first + second) == encode_utf8(first) + encode_utf8(second),
    decreases first.len(),
{
    if first.len() == 0 {
        assert(first + second =~= second);
        assert(encode_utf8(first) + encode_utf8(second) =~= encode_utf8(second));
    } else {
        assert((first + second)[0] == first[0]);
        assert((first + second).drop_first() =~= first.drop_first() + second);
        lemma_encode_concat(first.drop_first(), second);
        assert(encode_utf8(first + second) =~= encode_utf8(first) + encode_utf8(second));
    }
}

/// The encoding of a text followed by more text has a character boundary where the
/// first text ends.
proof fn lemma_boundary_after(first: Seq<char>, second: Seq<char>)
    ensures
        is_char_boundary(encode_utf8(first + second), encode_utf8(first).len() as int),
    decreases first.len(),
{
    let whole = first + second;
    let bytes = encode_utf8(whole);
    encode_utf8_valid_utf8(whole);
    if first.len() > 0 {
        let rest = first.drop_first();
        assert(whole[0] == first[0]);
        assert(whole.drop_first() =~= rest + second);
        encode_utf8_first_scalar(whole);
        let width = encode_scalar(first[0] as u32).len();
        assert(encode_utf8(first).len() == width + encode_utf8(rest).len());
        assert(vstd::utf8::pop_first_scalar(bytes) =~= encode_utf8(rest + second));
        lemma_boundary_after(rest, second);
        lemma_encode_concat(rest, second);
    }
}

/// The line `name=value` for an ASCII name: cutting it at the byte positions of the
/// `=` gives the name and the value, and falls between characters.
proof fn lemma_variable_line_bytes(name: Seq<char>, value: Seq<char>)
    requires
        is_ascii_chars(name),
        has_no_equals(name),
    ensures
        find_char(variable_text(name, value), '=') == Some(name.len() as int),
        bytes_before(variable_text(name, value), name.len() as int) == name,
        bytes_from(variable_text(name, value), name.len() as int + 1) == value,
        splits_cleanly(variable_text(name, value)),
{
    let line = variable_text(name, value);
    let p = name.len() as int;
    let equals = seq!['='];
    assert(is_first_at(line, '=', p));
    lemma_find_char_at(line, '=', p);
    assert(is_ascii_chars(equals));
    is_ascii_chars_encode_utf8(name);
    is_ascii_chars_encode_utf8(equals);
    lemma_encode_concat(name, equals);
    lemma_encode_concat(name + equals, value);
    let bytes = encode_utf8(line);
    assert(bytes == encode_utf8(name) + encode_utf8(equals) + encode_utf8(value));
    assert(bytes.take(p) =~= encode_utf8(name));
    assert(bytes.skip(p + 1) =~= encode_utf8(value));
    encode_utf8_decode_utf8(name);
    encode_utf8_decode_utf8(value);
    lemma_boundary_after(name, equals + value);
    assert(name + (equals + value) =~= line);
    lemma_boundary_after(name + equals, value);
}

/// Trimming skips leading white space only: it keeps a suffix that holds every character
/// from the first one that is not white space.
proof fn lemma_trim_start_keeps(s: Seq<char>, p: int)
    requires
        0 <= p < s.len(),
        !is_white_space(s[p]),
    ensures
        s.len() - trim_start(s).len() <= p,
        trim_start(s) == s.skip(s.len() - trim_start(s).len()),
    decreases s.len(),
{
    if s.len() > 0 && is_white_space(s[0]) {
        let rest = s.drop_first();
        lemma_trim_start_keeps(rest, p - 1);
        lemma_trim_start_shorter(rest);
        assert(rest.skip(rest.len() - trim_start(rest).len()) =~= s.skip(
            s.len() - trim_start(s).len(),
        ));
    } else {
        assert(s.skip(0) =~= s);
    }
}

/// Text holding a character that is not white space keeps something when trimmed.
proof fn lemma_trim_not_empty(s: Seq<char>, p: int)
    requires
        0 <= p < s.len(),
        !is_white_space(s[p]),
    ensures
        trim(s).len() > 0,
{
    lemma_trim_start_keeps(s, p);
    let start = trim_start(s);
    lemma_trim_start_shorter(s);
    let k = s.len() - start.len();
    let q = p - k;
    assert(0 <= q < start.len());
    assert(start[q] == s.skip(k)[q]);
    assert(start[q] == s[p]);
    lemma_trim_end_keeps(start, q);
}

/// A writable name with a one-line value makes a readable variable.
proof fn lemma_writable_variable_readable(name: Seq<char>, value: Seq<char>)
    requires
        is_writable_name(name),
        is_single_line(value),
    ensures
        is_readable_variable(name, value),
{
    let line = variable_text(name, value);
    let p = name.len() as int;
    assert(line[p] == '=');
    if name.len() > 0 {
        lemma_trimmed_first(name);
        assert(line[0] == name[0]);
    }
    assert(!is_white_space(line[0]));
    lemma_trim_start_skip(line, 0);
    assert(line.skip(0) =~= line);
    assert(trim_start(line) == line);
    lemma_trim_end_keeps(line, p);
    let trimmed = trim(line);
    assert(trimmed == trim_end(line));
    assert(trimmed.len() > 0);
    lemma_trim_end_shorter(line);
    assert(trimmed == line.take(trimmed.len() as int));
    assert(trimmed[0] == line[0]);
    assert(!is_header(trimmed));
}

/// A writable document is readable.
proof fn lemma_writable_document_readable(categories: Seq<RawCategory>)
    requires
        is_writable_document(categories),
    ensures
        is_readable_document(categories),
{
    assert forall|i: int| 0 <= i < categories.len() implies is_readable_category(
        #[trigger] categories[i],
    ) by {
        let c = categories[i];
        assert(is_writable_category(c));
        assert forall|j: int| 0 <= j < c.1.len() implies is_readable_variable(
            #[trigger] c.1[j].0,
            c.1[j].1,
        ) by {
            lemma_writable_variable_readable(c.1[j].0, c.1[j].1);
        }
    }
}

/// Reading the line `name=value` adds that variable to the last category.
proof fn lemma_read_variable_line(categories: Seq<RawCategory>, name: Seq<char>, value: Seq<char>)
    requires
        categories.len() > 0,
        is_readable_variable(name, value),
    ensures
        read_line(categories, variable_text(name, value)) == add_variable(categories, name, value),
{
    let line = variable_text(name, value);
    let p = name.len() as int;
    assert(line[p] == '=');
    lemma_trim_not_empty(line, p);
    lemma_variable_line_bytes(name, value);
}

/// Reading the header line `[name]` opens a category of that name.
proof fn lemma_read_header_line(categories: Seq<RawCategory>, name: Seq<char>)
    requires
        has_no_equals(name),
    ensures
        read_line(categories, seq!['['] + name + seq![']']) == categories.push(
            (name, Seq::<RawVariable>::empty()),
        ),
{
    let line = seq!['['] + name + seq![']'];
    assert(line[0] == '[');
    assert(line[line.len() - 1] == ']');
    lemma_trim_start_skip(line, 0);
    assert(line.skip(0) =~= line);
    lemma_trim_end_take(line, line.len() as int);
    assert(line.take(line.len() as int) =~= line);
    assert(trim(line) == line);
    assert(is_header(line));
    assert(header_name(line) =~= name);
    assert forall|j: int| 0 <= j < line.len() implies line[j] != '=' by {
        if 0 < j < line.len() - 1 {
            assert(line[j] == name[j - 1]);
        }
    }
    lemma_find_char_none(line, '=');
}

/// Reading the lines of writable variables adds them to the last category.
proof fn lemma_read_variable_lines(categories: Seq<RawCategory>, variables: Seq<RawVariable>)
    requires
        categories.len() > 0,
        forall|j: int|
            0 <= j < variables.len() ==> is_readable_variable(
                #[trigger] variables[j].0,
                variables[j].1,
            ),
    ensures
        read_lines(categories, variable_lines(variables)) == categories.update(
            categories.len() - 1,
            (categories.last().0, categories.last().1 + variables),
        ),
    decreases variables.len(),
{
    let last = categories.last();
    if variables.len() == 0 {
        assert(variable_lines(variables) =~= Seq::<Seq<char>>::empty());
        assert(last.1 + variables =~= last.1);
        assert(categories.update(categories.len() - 1, (last.0, last.1 + variables))
            =~= categories);
    } else {
        let front = variables.drop_last();
        let v = variables.last();
        lemma_read_variable_lines(categories, front);
        assert(variable_lines(variables) =~= variable_lines(front) + seq![variable_text(v.0, v.1)]);
        lemma_read_lines_concat(categories, variable_lines(front), seq![variable_text(v.0, v.1)]);
        let middle = categories.update(categories.len() - 1, (last.0, last.1 + front));
        lemma_read_variable_line(middle, v.0, v.1);
        lemma_read_one_line(middle, variable_text(v.0, v.1));
        assert(middle.last() == (last.0, last.1 + front));
        assert((last.1 + front).push(v) =~= last.1 + variables);
        assert(add_variable(middle, v.0, v.1) =~= categories.update(
            categories.len() - 1,
            (last.0, last.1 + variables),
        ));
    }
}

/// The lines of a readable category: its header, then one line per variable.
proof fn lemma_category_lines(category: RawCategory)
    requires
        is_readable_category(category),
    ensures
        split_lines(category_text(category.0, category.1)) == seq![
            seq!['['] + category.0 + seq![']'],
        ] + variable_lines(category.1),
{
    let header = seq!['['] + category.0 + seq![']'];
    let lines = variable_lines(category.1);
    assert forall|i: int| 0 <= i < lines.len() implies is_single_line(#[trigger] lines[i]) by {
        let v = category.1[i];
        assert(is_readable_variable(v.0, v.1));
        let line = variable_text(v.0, v.1);
        assert forall|k: int| 0 <= k < line.len() implies !is_line_break(#[trigger] line[k]) by {
            if k < v.0.len() {
                assert(line[k] == v.0[k]);
            } else if k > v.0.len() {
                assert(line[k] == v.1[k - v.0.len() - 1]);
            }
        }
    }
    lemma_split_joined_lines(lines);
    assert forall|k: int| 0 <= k < header.len() implies !is_line_break(#[trigger] header[k]) by {
        if 0 < k < header.len() - 1 {
            assert(header[k] == category.0[k - 1]);
        }
    }
    lemma_split_single_line(header);
    lemma_split_concat(header, '\n', join(lines, seq!['\n']));
    assert(header + seq!['\n'] + join(lines, seq!['\n']) =~= category_text(category.0, category.1));
}

/// Every line of `lines` splits cleanly.
pub open spec fn all_split_cleanly(lines: Seq<Seq<char>>) -> bool {
    forall|i: int| 0 <= i < lines.len() ==> splits_cleanly(#[trigger] lines[i])
}

proof fn lemma_all_split_cleanly_concat(first: Seq<Seq<char>>, second: Seq<Seq<char>>)
    requires
        all_split_cleanly(first),
        all_split_cleanly(second),
    ensures
        all_split_cleanly(first + second),
{
    assert forall|i: int| 0 <= i < (first + second).len() implies splits_cleanly(
        #[trigger] (first + second)[i],
    ) by {
        if i < first.len() {
            assert((first + second)[i] == first[i]);
        } else {
            assert((first + second)[i] == second[i - first.len()]);
        }
    }
}

/// The lines of a readable category's text all split cleanly.
proof fn lemma_category_lines_clean(category: RawCategory)
    requires
        is_readable_category(category),
    ensures
        all_split_cleanly(split_lines(category_text(category.0, category.1))),
{
    let header = seq!['['] + category.0 + seq![']'];
    lemma_category_lines(category);
    assert forall|j: int| 0 <= j < header.len() implies header[j] != '=' by {
        if 0 < j < header.len() - 1 {
            assert(header[j] == category.0[j - 1]);
        }
    }
    lemma_find_char_none(header, '=');
    assert(all_split_cleanly(seq![header]));
    let lines = variable_lines(category.1);
    assert forall|i: int| 0 <= i < lines.len() implies splits_cleanly(#[trigger] lines[i]) by {
        let v = category.1[i];
        assert(is_readable_variable(v.0, v.1));
        lemma_variable_line_bytes(v.0, v.1);
    }
    lemma_all_split_cleanly_concat(seq![header], lines);
}

/// Reading a readable category's text after other lines adds that category.
proof fn lemma_read_category(categories: Seq<RawCategory>, category: RawCategory)
    requires
        categories.len() > 0,
        is_readable_category(category),
    ensures
        read_lines(categories, split_lines(category_text(category.0, category.1)))
            == categories.push(category),
{
    let header = seq!['['] + category.0 + seq![']'];
    lemma_category_lines(category);
    lemma_read_lines_concat(categories, seq![header], variable_lines(category.1));
    lemma_read_header_line(categories, category.0);
    lemma_read_one_line(categories, header);
    let opened = categories.push((category.0, Seq::<RawVariable>::empty()));
    assert(read_lines(categories, seq![header]) == opened);
    assert forall|j: int| 0 <= j < category.1.len() implies is_readable_variable(
        #[trigger] category.1[j].0,
        category.1[j].1,
    ) by {}
    lemma_read_variable_lines(opened, category.1);
    assert(Seq::<RawVariable>::empty() + category.1 =~= category.1);
    assert(opened.update(opened.len() - 1, (category.0, Seq::<RawVariable>::empty() + category.1))
        =~= categories.push(category));
}

/// Reading a readable document's text from the start gives the starting category
/// followed by the document's categories.
proof fn lemma_read_document(categories: Seq<RawCategory>)
    requires
        categories.len() > 0,
        is_readable_document(categories),
    ensures
        read_lines(seq![unnamed_category()], split_lines(document_text(categories))) == seq![
            unnamed_category(),
        ] + categories,
        all_split_cleanly(split_lines(document_text(categories))),
    decreases categories.len(),
{
    let start = seq![unnamed_category()];
    let last = categories.last();
    assert(is_readable_category(categories[categories.len() - 1]));
    if categories.len() == 1 {
        assert(category_texts(categories) =~= seq![category_text(last.0, last.1)]);
        assert(document_text(categories) == category_text(last.0, last.1));
        lemma_read_category(start, last);
        lemma_category_lines_clean(last);
        assert(start.push(last) =~= start + categories);
    } else {
        let front = categories.drop_last();
        assert(is_readable_document(front)) by {
            assert forall|i: int| 0 <= i < front.len() implies is_readable_category(
                #[trigger] front[i],
            ) by {
                assert(front[i] == categories[i]);
            }
        }
        lemma_read_document(front);
        assert(category_texts(categories).drop_last() =~= category_texts(front));
        let before = document_text(front);
        let text = category_text(last.0, last.1);
        assert(document_text(categories) =~= before + seq!['\n'] + (seq!['\n'] + text));
        lemma_split_concat(before, '\n', seq!['\n'] + text);
        assert(seq!['\n'] + text =~= Seq::<char>::empty() + seq!['\n'] + text);
        lemma_split_concat(Seq::<char>::empty(), '\n', text);
        lemma_find_line_break_none(Seq::<char>::empty());
        let empty_line = seq![Seq::<char>::empty()];
        assert(split_lines(Seq::<char>::empty()) == empty_line);
        let read_front = start + front;
        lemma_read_lines_concat(start, split_lines(before), empty_line + split_lines(text));
        lemma_read_lines_concat(read_front, empty_line, split_lines(text));
        lemma_read_empty_line(read_front);
        lemma_read_category(read_front, last);
        assert(read_front.push(last) =~= start + categories);
        lemma_category_lines_clean(last);
        lemma_find_char_none(Seq::<char>::empty(), '=');
        assert(all_split_cleanly(empty_line));
        lemma_all_split_cleanly_concat(empty_line, split_lines(text));
        lemma_all_split_cleanly_concat(split_lines(before), empty_line + split_lines(text));
    }
}

/// Keeping the categories with variables of the starting category followed by nonempty
/// categories keeps those categories.
proof fn lemma_with_variables_after_start(categories: Seq<RawCategory>)
    requires
        forall|i: int| 0 <= i < categories.len() ==> (#[trigger] categories[i]).1.len() > 0,
    ensures
        with_variables(seq![unnamed_category()] + categories) == categories,
    decreases categories.len(),
{
    let all = seq![unnamed_category()] + categories;
    if categories.len() == 0 {
        assert(all.drop_last() =~= Seq::<RawCategory>::empty());
        assert(all.last().1.len() == 0);
        assert(with_variables(Seq::<RawCategory>::empty()) == Seq::<RawCategory>::empty());
        assert(with_variables(all) =~= categories);
    } else {
        let front = categories.drop_last();
        lemma_with_variables_after_start(front);
        assert(all.drop_last() =~= seq![unnamed_category()] + front);
        assert(all.last() == categories.last());
        assert(with_variables(all) =~= front.push(categories.last()));
        assert(front.push(categories.last()) =~= categories);
    }
}

/// Reading back what was written, raw: the text of a readable document can be read,
/// and reading it gives the same raw categories, names and values as they were written.
pub proof fn law_parse_written_text(categories: Seq<RawCategory>)
    requires
        is_readable_document(categories),
    ensures
        lines_split_cleanly(document_text(categories)),
        parse_document(document_text(categories)) == categories,
{
    if categories.len() == 0 {
        assert(category_texts(categories) =~= Seq::<Seq<char>>::empty());
        lemma_find_line_break_none(Seq::<char>::empty());
        let lines = seq![Seq::<char>::empty()];
        assert(split_lines(Seq::<char>::empty()) == lines);
        let start = seq![unnamed_category()];
        lemma_read_empty_line(start);
        lemma_find_char_none(Seq::<char>::empty(), '=');
        assert(all_split_cleanly(lines));
        lemma_with_variables_after_start(categories);
        assert(start + categories =~= start);
    } else {
        lemma_read_document(categories);
        assert forall|i: int| 0 <= i < categories.len() implies (
        #[trigger] categories[i]).1.len() > 0 by {
            assert(is_readable_category(categories[i]));
        }
        lemma_with_variables_after_start(categories);
    }
}

/// Reading back what was written: the text of a writable document can be read, and read
/// with the default settings (names trimmed, values as they stand) it gives the document
/// again.
pub proof fn law_read_back_written(categories: Seq<RawCategory>)
    requires
        is_writable_document(categories),
    ensures
        lines_split_cleanly(document_text(categories)),
        plain_document(document_text(categories)) == categories,
{
    lemma_writable_document_readable(categories);
    law_parse_written_text(categories);
    assert forall|i: int| 0 <= i < categories.len() implies #[trigger] with_trimmed_names(
        categories,
    )[i] == categories[i] by {
        let c = categories[i];
        assert(is_writable_category(c));
        assert(c.1.map_values(|v: RawVariable| (trim(v.0), v.1)) =~= c.1) by {
            assert forall|j: int| 0 <= j < c.1.len() implies #[trigger] c.1[j] == (
                trim(c.1[j].0),
                c.1[j].1,
            ) by {
                assert(is_writable_name(c.1[j].0));
            }
        }
    }
    assert(with_trimmed_names(categories) =~= categories);
}

/// Entries with the same names at the same positions are found at the same positions.
proof fn lemma_find_named_same_names<A, B>(
    first: Seq<(Seq<char>, A)>,
    second: Seq<(Seq<char>, B)>,
    name: Seq<char>,
)
    requires
        first.len() == second.len(),
        forall|i: int| 0 <= i < first.len() ==> (#[trigger] first[i]).0 == second[i].0,
    ensures
        find_named(first, name) == find_named(second, name),
{
    lemma_find_named_result(first, name);
    lemma_find_named_result(second, name);
    match find_named(first, name) {
        Some(k) => {
            assert(first[k].0 == second[k].0);
            assert forall|j: int| 0 <= j < k implies second[j].0 != name by {
                assert(first[j].0 == second[j].0);
            }
            lemma_find_named_at(second, name, k);
        },
        None => {
            if let Some(k) = find_named(second, name) {
                assert(first[k].0 == second[k].0);
            }
        },
    }
}

/// Where entries are found after one is added at the end.
proof fn lemma_find_named_push<T>(entries: Seq<(Seq<char>, T)>, entry: (Seq<char>, T), name: Seq<char>)
    ensures
        find_named(entries.push(entry), name) == match find_named(entries, name) {
            Some(k) => Some(k),
            None => if entry.0 == name {
                Some(entries.len() as int)
            } else {
                None
            },
        },
{
    let pushed = entries.push(entry);
    lemma_find_named_result(entries, name);
    lemma_find_named_result(pushed, name);
    match find_named(entries, name) {
        Some(k) => {
            assert(is_first_named(pushed, name, k));
            lemma_find_named_at(pushed, name, k);
        },
        None => {
            if entry.0 == name {
                assert(is_first_named(pushed, name, entries.len() as int));
                lemma_find_named_at(pushed, name, entries.len() as int);
            } else {
                if let Some(k) = find_named(pushed, name) {
                    if k < entries.len() {
                        assert(entries[k].0 == name);
                    }
                }
            }
        },
    }
}

/// Where entries are found after the value of a named entry is set.
proof fn lemma_find_named_after_set<T>(
    entries: Seq<(Seq<char>, T)>,
    name: Seq<char>,
    value: T,
    other: Seq<char>,
)
    ensures
        find_named(set_named(entries, name, value), name) == Some(
            match find_named(entries, name) {
                Some(k) => k,
                None => entries.len() as int,
            },
        ),
        other != name ==> find_named(set_named(entries, name, value), other) == find_named(
            entries,
            other,
        ),
{
    lemma_find_named_result(entries, name);
    match find_named(entries, name) {
        Some(k) => {
            let updated = entries.update(k, (name, value));
            assert forall|i: int| 0 <= i < entries.len() implies (#[trigger] entries[i]).0
                == updated[i].0 by {}
            lemma_find_named_same_names(entries, updated, name);
            lemma_find_named_same_names(entries, updated, other);
        },
        None => {
            lemma_find_named_push(entries, (name, value), name);
            lemma_find_named_push(entries, (name, value), other);
        },
    }
}

/// `PlainText` writes names and values as they stand: what it writes for categories of
/// text is those categories.
pub proof fn law_plain_text_writes_as_is(categories: Seq<RawCategory>, texts: Seq<RawCategory>)
    requires
        writes_categories(categories, texts, &PlainText, &PlainText),
    ensures
        texts == categories,
{
    assert forall|i: int| 0 <= i < categories.len() implies #[trigger] texts[i] == categories[i] by {
        assert(writes_variables(categories[i].1, texts[i].1, &PlainText, &PlainText));
        assert forall|j: int| 0 <= j < categories[i].1.len() implies #[trigger] texts[i].1[j]
            == categories[i].1[j] by {
            assert(PlainText.encodes(categories[i].1[j].0, texts[i].1[j].0));
            assert(PlainText.encodes(categories[i].1[j].1, texts[i].1[j].1));
        }
        assert(texts[i].1 =~= categories[i].1);
    }
    assert(texts =~= categories);
}

/// Reading back a written document with the default settings: when `texts` is what
/// `PlainText` writes for a writable document, `document_text(texts)` can be read, and
/// read with names trimmed and values as they stand it gives the document again.
pub proof fn law_read_back_plain_document(categories: Seq<RawCategory>, texts: Seq<RawCategory>)
    requires
        is_writable_document(categories),
        writes_categories(categories, texts, &PlainText, &PlainText),
    ensures
        lines_split_cleanly(document_text(texts)),
        plain_document(document_text(texts)) == categories,
{
    law_plain_text_writes_as_is(categories, texts);
    law_read_back_written(categories);
}

/// Every line of `first + second` splits cleanly exactly when every line of each does.
proof fn lemma_all_split_cleanly_concat_iff(first: Seq<Seq<char>>, second: Seq<Seq<char>>)
    ensures
        all_split_cleanly(first + second) == (all_split_cleanly(first) && all_split_cleanly(
            second,
        )),
{
    if all_split_cleanly(first) && all_split_cleanly(second) {
        lemma_all_split_cleanly_concat(first, second);
    }
    if all_split_cleanly(first + second) {
        assert forall|i: int| 0 <= i < first.len() implies splits_cleanly(#[trigger] first[i]) by {
            assert((first + second)[i] == first[i]);
        }
        assert forall|i: int| 0 <= i < second.len() implies splits_cleanly(
            #[trigger] second[i],
        ) by {
            assert((first + second)[i + first.len()] == second[i]);
        }
    }
}

/// `text` with every `'\n'` written as `"\r\n"`.
pub open spec fn with_crlf(text: Seq<char>) -> Seq<char>
    decreases text.len(),
{
    if text.len() == 0 {
        Seq::empty()
    } else {
        (if text[0] == '\n' {
            seq!['\r', '\n']
        } else {
            seq![text[0]]
        }) + with_crlf(text.drop_first())
    }
}

proof fn lemma_crlf_concat(first: Seq<char>, second: Seq<char>)
    ensures
        with_crlf(first + second) == with_crlf(first) + with_crlf(second),
    decreases first.len(),
{
    if first.len() == 0 {
        assert(first + second =~= second);
        assert(with_crlf(first) + with_crlf(second) =~= with_crlf(second));
    } else {
        assert((first + second)[0] == first[0]);
        assert((first + second).drop_first() =~= first.drop_first() + second);
        lemma_crlf_concat(first.drop_first(), second);
        assert(with_crlf(first + second) =~= with_crlf(first) + with_crlf(second));
    }
}

proof fn lemma_crlf_single_line(text: Seq<char>)
    requires
        is_single_line(text),
    ensures
        with_crlf(text) == text,
    decreases text.len(),
{
    if text.len() > 0 {
        let rest = text.drop_first();
        assert(is_single_line(rest)) by {
            assert forall|i: int| 0 <= i < rest.len() implies !is_line_break(#[trigger] rest[i]) by {
                assert(rest[i] == text[i + 1]);
            }
        }
        lemma_crlf_single_line(rest);
        assert(!is_line_break(text[0]));
        assert(with_crlf(text) =~= text);
    }
}

/// A text and the same text with `"\r\n"` line ends are read alike, line by line.
proof fn lemma_read_crlf(categories: Seq<RawCategory>, text: Seq<char>)
    ensures
        read_lines(categories, split_lines(with_crlf(text))) == read_lines(
            categories,
            split_lines(text),
        ),
        all_split_cleanly(split_lines(with_crlf(text))) == all_split_cleanly(split_lines(text)),
    decreases text.len(),
{
    if exists|j: int| 0 <= j < text.len() && is_line_break(text[j]) {
        let j = choose|j: int| 0 <= j < text.len() && is_line_break(text[j]);
        lemma_least_break(text, j);
        let k = choose|k: int| is_first_break_at(text, k);
        let line = text.take(k);
        let c = text[k];
        let rest = text.skip(k + 1);
        assert(text =~= line + seq![c] + rest);
        assert(is_single_line(line));
        lemma_split_single_line(line);
        lemma_split_concat(line, c, rest);
        lemma_crlf_concat(line + seq![c], rest);
        lemma_crlf_concat(line, seq![c]);
        lemma_crlf_single_line(line);
        assert(seq![c].drop_first() =~= Seq::<char>::empty());
        assert(with_crlf(Seq::<char>::empty()) == Seq::<char>::empty());
        let after = read_line(categories, line);
        lemma_read_crlf(after, rest);
        lemma_read_lines_concat(categories, seq![line], split_lines(rest));
        lemma_read_one_line(categories, line);
        lemma_all_split_cleanly_concat_iff(seq![line], split_lines(rest));
        let crlf_rest = with_crlf(rest);
        if c == '\n' {
            assert(with_crlf(seq![c]) =~= seq!['\r', '\n']);
            assert(with_crlf(text) =~= line + seq!['\r'] + (Seq::<char>::empty() + seq!['\n']
                + crlf_rest));
            lemma_split_concat(line, '\r', Seq::<char>::empty() + seq!['\n'] + crlf_rest);
            lemma_split_concat(Seq::<char>::empty(), '\n', crlf_rest);
            lemma_find_line_break_none(Seq::<char>::empty());
            let empty_line = seq![Seq::<char>::empty()];
            assert(split_lines(Seq::<char>::empty()) == empty_line);
            assert(split_lines(with_crlf(text)) =~= seq![line] + (empty_line + split_lines(
                crlf_rest,
            )));
            lemma_read_lines_concat(categories, seq![line], empty_line + split_lines(crlf_rest));
            lemma_read_lines_concat(after, empty_line, split_lines(crlf_rest));
            lemma_read_empty_line(after);
            lemma_find_char_none(Seq::<char>::empty(), '=');
            assert(all_split_cleanly(empty_line));
            lemma_all_split_cleanly_concat_iff(empty_line, split_lines(crlf_rest));
            lemma_all_split_cleanly_concat_iff(seq![line], empty_line + split_lines(crlf_rest));
        } else {
            assert(with_crlf(seq![c]) =~= seq![c]);
            assert(with_crlf(text) =~= line + seq![c] + crlf_rest);
            lemma_split_concat(line, c, crlf_rest);
            lemma_read_lines_concat(categories, seq![line], split_lines(crlf_rest));
            lemma_all_split_cleanly_concat_iff(seq![line], split_lines(crlf_rest));
        }
    } else {
        assert(is_single_line(text));
        lemma_crlf_single_line(text);
    }
}

/// `"\r\n"` line ends read as `"\n"` ones: writing every `'\n'` of a text as `"\r\n"`
/// changes neither whether it can be read nor the categories read from it.
pub proof fn law_crlf_line_ends(text: Seq<char>)
    ensures
        lines_split_cleanly(with_crlf(text)) == lines_split_cleanly(text),
        parse_document(with_crlf(text)) == parse_document(text),
{
    lemma_read_crlf(seq![unnamed_category()], text);
}

/// A line that is ignored: one line without `=` that, trimmed, is no header.
pub open spec fn is_ignored_line(line: Seq<char>) -> bool {
    &&& is_single_line(line)
    &&& has_no_equals(line)
    &&& !is_header(trim(line))
}

/// Ignored lines are ignored: putting one between two lines changes neither whether the
/// text can be read nor the categories read from it.
pub proof fn law_ignored_line(before: Seq<char>, line: Seq<char>, after: Seq<char>)
    requires
        is_ignored_line(line),
    ensures
        lines_split_cleanly(before + seq!['\n'] + line + seq!['\n'] + after)
            == lines_split_cleanly(before + seq!['\n'] + after),
        parse_document(before + seq!['\n'] + line + seq!['\n'] + after) == parse_document(
            before + seq!['\n'] + after,
        ),
{
    let longer = before + seq!['\n'] + line + seq!['\n'] + after;
    let shorter = before + seq!['\n'] + after;
    assert(longer =~= before + seq!['\n'] + (line + seq!['\n'] + after));
    lemma_split_concat(before, '\n', line + seq!['\n'] + after);
    lemma_split_concat(line, '\n', after);
    lemma_split_concat(before, '\n', after);
    lemma_split_single_line(line);
    assert(split_lines(longer) =~= split_lines(before) + (seq![line] + split_lines(after)));
    let start = seq![unnamed_category()];
    let read_before = read_lines(start, split_lines(before));
    lemma_read_lines_concat(start, split_lines(before), seq![line] + split_lines(after));
    lemma_read_lines_concat(read_before, seq![line], split_lines(after));
    lemma_read_lines_concat(start, split_lines(before), split_lines(after));
    lemma_read_one_line(read_before, line);
    lemma_find_char_none(line, '=');
    assert(read_line(read_before, line) == read_before);
    assert(all_split_cleanly(seq![line]));
    lemma_all_split_cleanly_concat_iff(seq![line], split_lines(after));
    lemma_all_split_cleanly_concat_iff(split_lines(before), seq![line] + split_lines(after));
    lemma_all_split_cleanly_concat_iff(split_lines(before), split_lines(after));
}

/// `decoder` reads each raw text in one way only.
pub open spec fn decoder_is_functional<T: View, Decoder: IniDecoder<T> + ?Sized>(
    decoder: &Decoder,
) -> bool {
    forall|raw: Seq<char>, first: T::V, second: T::V|
        #![trigger decoder.decodes(raw, first), decoder.decodes(raw, second)]
        decoder.decodes(raw, first) && decoder.decodes(raw, second) ==> first == second
}

/// Decoders that read each raw text in one way only read the same raw categories alike.
pub proof fn law_functional_decoders_read_alike<
    NameType: View,
    ValueType: View,
    NameDecoder: IniDecoder<NameType> + ?Sized,
    ValueDecoder: IniDecoder<ValueType> + ?Sized,
>(
    raw: Seq<RawCategory>,
    first: Seq<(Seq<char>, Seq<(NameType::V, ValueType::V)>)>,
    second: Seq<(Seq<char>, Seq<(NameType::V, ValueType::V)>)>,
    name_decoder: &NameDecoder,
    value_decoder: &ValueDecoder,
)
    requires
        decoder_is_functional(name_decoder),
        decoder_is_functional(value_decoder),
        reads_categories(raw, first, name_decoder, value_decoder),
        reads_categories(raw, second, name_decoder, value_decoder),
    ensures
        first == second,
{
    assert forall|i: int| 0 <= i < raw.len() implies #[trigger] first[i] == second[i] by {
        assert(reads_variables(raw[i].1, first[i].1, name_decoder, value_decoder));
        assert(reads_variables(raw[i].1, second[i].1, name_decoder, value_decoder));
        assert forall|j: int| 0 <= j < raw[i].1.len() implies #[trigger] first[i].1[j]
            == second[i].1[j] by {
            assert(name_decoder.decodes(raw[i].1[j].0, first[i].1[j].0));
            assert(name_decoder.decodes(raw[i].1[j].0, second[i].1[j].0));
            assert(value_decoder.decodes(raw[i].1[j].1, first[i].1[j].1));
            assert(value_decoder.decodes(raw[i].1[j].1, second[i].1[j].1));
        }
        assert(first[i].1 =~= second[i].1);
    }
    assert(first =~= second);
}

/// With decoders that read each raw text in one way only, a text with `"\r\n"` line ends
/// is read into the same categories as with `"\n"` ones.
pub proof fn law_crlf_line_ends_decoded<
    NameType: View,
    ValueType: View,
    NameDecoder: IniDecoder<NameType> + ?Sized,
    ValueDecoder: IniDecoder<ValueType> + ?Sized,
>(
    text: Seq<char>,
    with_crlf_read: Seq<(Seq<char>, Seq<(NameType::V, ValueType::V)>)>,
    read: Seq<(Seq<char>, Seq<(NameType::V, ValueType::V)>)>,
    name_decoder: &NameDecoder,
    value_decoder: &ValueDecoder,
)
    requires
        decoder_is_functional(name_decoder),
        decoder_is_functional(value_decoder),
        reads_categories(parse_document(with_crlf(text)), with_crlf_read, name_decoder, value_decoder),
        reads_categories(parse_document(text), read, name_decoder, value_decoder),
    ensures
        with_crlf_read == read,
{
    law_crlf_line_ends(text);
    law_functional_decoders_read_alike(
        parse_document(text),
        with_crlf_read,
        read,
        name_decoder,
        value_decoder,
    );
}

/// With decoders that read each raw text in one way only, an ignored line between two
/// lines leaves the categories read unchanged.
pub proof fn law_ignored_line_decoded<
    NameType: View,
    ValueType: View,
    NameDecoder: IniDecoder<NameType> + ?Sized,
    ValueDecoder: IniDecoder<ValueType> + ?Sized,
>(
    before: Seq<char>,
    line: Seq<char>,
    after: Seq<char>,
    longer_read: Seq<(Seq<char>, Seq<(NameType::V, ValueType::V)>)>,
    read: Seq<(Seq<char>, Seq<(NameType::V, ValueType::V)>)>,
    name_decoder: &NameDecoder,
    value_decoder: &ValueDecoder,
)
    requires
        is_ignored_line(line),
        decoder_is_functional(name_decoder),
        decoder_is_functional(value_decoder),
        reads_categories(
            parse_document(before + seq!['\n'] + line + seq!['\n'] + after),
            longer_read,
            name_decoder,
            value_decoder,
        ),
        reads_categories(
            parse_document(before + seq!['\n'] + after),
            read,
            name_decoder,
            value_decoder,
        ),
    ensures
        longer_read == read,
{
    law_ignored_line(before, line, after);
    law_functional_decoders_read_alike(
        parse_document(before + seq!['\n'] + after),
        longer_read,
        read,
        name_decoder,
        value_decoder,
    );
}

/// `decoder` reads back what `encoder` writes: whatever text the encoder may give for a
/// value, every value the decoder may read from that text is that value.
pub open spec fn decoder_inverts<
    T: View,
    Encoder: IniEncoder<T> + ?Sized,
    Decoder: IniDecoder<T> + ?Sized,
>(encoder: &Encoder, decoder: &Decoder) -> bool {
    forall|value: T::V, text: Seq<char>, read: T::V|
        #![trigger encoder.encodes(value, text), decoder.decodes(text, read)]
        encoder.encodes(value, text) && decoder.decodes(text, read) ==> read == value
}

/// Reading back what was written, with any encoders and decoders that invert them: when
/// `texts` is what the encoders write for `categories`, and written out it is readable,
/// the text can be read, and what the decoders read from it is `categories` again.
pub proof fn law_read_back_with_coders<
    NameType: View,
    ValueType: View,
    NameEncoder: IniEncoder<NameType> + ?Sized,
    ValueEncoder: IniEncoder<ValueType> + ?Sized,
    NameDecoder: IniDecoder<NameType> + ?Sized,
    ValueDecoder: IniDecoder<ValueType> + ?Sized,
>(
    categories: Seq<(Seq<char>, Seq<(NameType::V, ValueType::V)>)>,
    texts: Seq<RawCategory>,
    read: Seq<(Seq<char>, Seq<(NameType::V, ValueType::V)>)>,
    name_encoder: &NameEncoder,
    value_encoder: &ValueEncoder,
    name_decoder: &NameDecoder,
    value_decoder: &ValueDecoder,
)
    requires
        writes_categories(categories, texts, name_encoder, value_encoder),
        is_readable_document(texts),
        decoder_inverts(name_encoder, name_decoder),
        decoder_inverts(value_encoder, value_decoder),
        reads_categories(parse_document(document_text(texts)), read, name_decoder, value_decoder),
    ensures
        lines_split_cleanly(document_text(texts)),
        read == categories,
{
    law_parse_written_text(texts);
    assert forall|i: int| 0 <= i < categories.len() implies #[trigger] read[i]
        == categories[i] by {
        assert(writes_variables(categories[i].1, texts[i].1, name_encoder, value_encoder));
        assert(reads_variables(texts[i].1, read[i].1, name_decoder, value_decoder));
        assert forall|j: int| 0 <= j < categories[i].1.len() implies #[trigger] read[i].1[j]
            == categories[i].1[j] by {
            assert(name_encoder.encodes(categories[i].1[j].0, texts[i].1[j].0));
            assert(name_decoder.decodes(texts[i].1[j].0, read[i].1[j].0));
            assert(value_encoder.encodes(categories[i].1[j].1, texts[i].1[j].1));
            assert(value_decoder.decodes(texts[i].1[j].1, read[i].1[j].1));
        }
        assert(read[i].1 =~= categories[i].1);
    }
    assert(read =~= categories);
}

/// Reading what was set: after the variable `variable` of the category `category` is set
/// to `value`, looking it up gives `value`.
pub proof fn law_get_after_set<V>(
    categories: Seq<(Seq<char>, Seq<(Seq<char>, V)>)>,
    category: Seq<char>,
    variable: Seq<char>,
    value: V,
)
    ensures
        lookup(set_value(categories, category, variable, value), category, variable) == Some(
            value,
        ),
{
    let after = set_value(categories, category, variable, value);
    lemma_find_named_result(categories, category);
    match find_named(categories, category) {
        Some(i) => {
            let entry = (categories[i].0, set_named(categories[i].1, variable, value));
            assert forall|k: int| 0 <= k < categories.len() implies (#[trigger] categories[k]).0
                == after[k].0 by {}
            lemma_find_named_same_names(categories, after, category);
            lemma_find_named_after_set(categories[i].1, variable, value, variable);
            lemma_find_named_result(set_named(categories[i].1, variable, value), variable);
        },
        None => {
            lemma_find_named_push(categories, (category, seq![(variable, value)]), category);
            let vars = seq![(variable, value)];
            assert(is_first_named(vars, variable, 0));
            lemma_find_named_at(vars, variable, 0);
        },
    }
}

/// Setting leaves the rest alone: after the variable `variable` of the category
/// `category` is set, looking up any other variable gives what it gave before.
pub proof fn law_set_keeps_others<V>(
    categories: Seq<(Seq<char>, Seq<(Seq<char>, V)>)>,
    category: Seq<char>,
    variable: Seq<char>,
    value: V,
    other_category: Seq<char>,
    other_variable: Seq<char>,
)
    requires
        other_category != category || other_variable != variable,
    ensures
        lookup(set_value(categories, category, variable, value), other_category, other_variable)
            == lookup(categories, other_category, other_variable),
{
    let after = set_value(categories, category, variable, value);
    lemma_find_named_result(categories, category);
    lemma_find_named_result(categories, other_category);
    match find_named(categories, category) {
        Some(i) => {
            assert forall|k: int| 0 <= k < categories.len() implies (#[trigger] categories[k]).0
                == after[k].0 by {}
            lemma_find_named_same_names(categories, after, other_category);
            if let Some(m) = find_named(categories, other_category) {
                if m == i {
                    assert(other_category == category);
                    lemma_find_named_after_set(categories[i].1, variable, value, other_variable);
                }
            }
        },
        None => {
            lemma_find_named_push(categories, (category, seq![(variable, value)]), other_category);
            if other_category == category {
                let vars = seq![(variable, value)];
                lemma_find_named_result(vars, other_variable);
                if let Some(j) = find_named(vars, other_variable) {
                    assert(vars[j].0 == variable);
                }
            }
        },
    }
}

/// The last value set wins: setting a variable twice is setting it to the second value.
pub proof fn law_set_twice<V>(
    categories: Seq<(Seq<char>, Seq<(Seq<char>, V)>)>,
    category: Seq<char>,
    variable: Seq<char>,
    first: V,
    second: V,
)
    ensures
        set_value(set_value(categories, category, variable, first), category, variable, second)
            == set_value(categories, category, variable, second),
{
    let once = set_value(categories, category, variable, first);
    lemma_find_named_result(categories, category);
    match find_named(categories, category) {
        Some(i) => {
            assert forall|k: int| 0 <= k < categories.len() implies (#[trigger] categories[k]).0
                == once[k].0 by {}
            lemma_find_named_same_names(categories, once, category);
            let vars = categories[i].1;
            lemma_find_named_after_set(vars, variable, first, variable);
            lemma_find_named_result(vars, variable);
            assert(set_named(set_named(vars, variable, first), variable, second) =~= set_named(
                vars,
                variable,
                second,
            ));
            assert(set_value(once, category, variable, second) =~= set_value(
                categories,
                category,
                variable,
                second,
            ));
        },
        None => {
            lemma_find_named_push(categories, (category, seq![(variable, first)]), category);
            let vars = seq![(variable, first)];
            assert(is_first_named(vars, variable, 0));
            lemma_find_named_at(vars, variable, 0);
            assert(set_named(vars, variable, second) =~= seq![(variable, second)]);
            assert(set_value(once, category, variable, second) =~= set_value(
                categories,
                category,
                variable,
                second,
            ));
        },
    }
}

/// Setting a variable to the value it holds changes nothing.
pub proof fn law_set_same_value<V>(
    categories: Seq<(Seq<char>, Seq<(Seq<char>, V)>)>,
    category: Seq<char>,
    variable: Seq<char>,
    value: V,
)
    requires
        lookup(categories, category, variable) == Some(value),
    ensures
        set_value(categories, category, variable, value) == categories,
{
    lemma_find_named_result(categories, category);
    let i = find_named(categories, category)->0;
    let vars = categories[i].1;
    lemma_find_named_result(vars, variable);
    let j = find_named(vars, variable)->0;
    assert(vars.update(j, (variable, value)) =~= vars);
    assert(categories.update(i, (categories[i].0, vars)) =~= categories);
}

/// Making sure of a category: afterwards a category of that name is found, doing it again
/// changes nothing, and every other name is found where it was.
pub proof fn law_ensure_category<T>(
    categories: Seq<(Seq<char>, Seq<T>)>,
    name: Seq<char>,
    other: Seq<char>,
)
    ensures
        find_named(ensure_category(categories, name), name) is Some,
        ensure_category(ensure_category(categories, name), name) == ensure_category(
            categories,
            name,
        ),
        other != name ==> find_named(ensure_category(categories, name), other) == find_named(
            categories,
            other,
        ),
{
    lemma_find_named_push(categories, (name, Seq::<T>::empty()), name);
    lemma_find_named_push(categories, (name, Seq::<T>::empty()), other);
}

/// Text made only of white space.
pub open spec fn is_blank(s: Seq<char>) -> bool {
    forall|i: int| 0 <= i < s.len() ==> is_white_space(#[trigger] s[i])
}

/// Headers are recognised on the trimmed line: reading `[name]` with any white space
/// before and after it, for a name without `=`, opens a new category named `name` at the
/// end and does nothing else.
pub proof fn law_header_with_white_space(
    categories: Seq<RawCategory>,
    before: Seq<char>,
    name: Seq<char>,
    after: Seq<char>,
)
    requires
        is_blank(before),
        is_blank(after),
        has_no_equals(name),
    ensures
        read_line(categories, before + seq!['['] + name + seq![']'] + after) == categories.push(
            (name, Seq::<RawVariable>::empty()),
        ),
{
    let header = seq!['['] + name + seq![']'];
    let line = before + header + after;
    assert(line =~= before + (header + after));
    let b = before.len() as int;
    assert(line[b] == '[');
    assert forall|j: int| 0 <= j < b implies is_white_space(line[j]) by {
        assert(line[j] == before[j]);
    }
    lemma_trim_start_skip(line, b);
    let rest = header + after;
    assert(line.skip(b) =~= rest);
    assert(rest[header.len() - 1] == ']');
    assert forall|j: int| header.len() <= j < rest.len() implies is_white_space(rest[j]) by {
        assert(rest[j] == after[j - header.len()]);
    }
    lemma_trim_end_take(rest, header.len() as int);
    assert(rest.take(header.len() as int) =~= header);
    assert(trim(line) == header);
    assert(header[0] == '[');
    assert(header[header.len() - 1] == ']');
    assert(is_header(header));
    assert(header_name(header) =~= name);
    assert forall|j: int| 0 <= j < line.len() implies line[j] != '=' by {
        if j < b {
            assert(line[j] == before[j]);
            assert(is_white_space(before[j]));
        } else if j < b + header.len() {
            assert(line[j] == header[j - b]);
            if 0 < j - b < header.len() - 1 {
                assert(header[j - b] == name[j - b - 1]);
            }
        } else {
            assert(line[j] == after[j - b - header.len()]);
            assert(is_white_space(after[j - b - header.len()]));
        }
    }
    lemma_find_char_none(line, '=');
    assert(line =~= before + seq!['['] + name + seq![']'] + after);
    assert(read_line(categories, line) == categories.push((header_name(header), Seq::empty())));
}

/// In a text, a header line with white space around it opens the same category as the
/// bare header: reading either text gives the same categories.
pub proof fn law_indented_header_reads_alike(
    before: Seq<char>,
    name: Seq<char>,
    after: Seq<char>,
    rest: Seq<char>,
)
    requires
        is_blank(before),
        is_blank(after),
        is_single_line(before),
        is_single_line(after),
        is_single_line(name),
        has_no_equals(name),
    ensures
        parse_document(before + seq!['['] + name + seq![']'] + after + seq!['\n'] + rest)
            == parse_document(seq!['['] + name + seq![']'] + seq!['\n'] + rest),
{
    let header = seq!['['] + name + seq![']'];
    let line = before + header + after;
    assert(line =~= before + seq!['['] + name + seq![']'] + after);
    assert forall|k: int| 0 <= k < line.len() implies !is_line_break(#[trigger] line[k]) by {
        if k < before.len() {
            assert(line[k] == before[k]);
        } else if k < before.len() + header.len() {
            assert(line[k] == header[k - before.len()]);
            if 0 < k - before.len() < header.len() - 1 {
                assert(header[k - before.len()] == name[k - before.len() - 1]);
            }
        } else {
            assert(line[k] == after[k - before.len() - header.len()]);
        }
    }
    assert forall|k: int| 0 <= k < header.len() implies !is_line_break(#[trigger] header[k]) by {
        if 0 < k < header.len() - 1 {
            assert(header[k] == name[k - 1]);
        }
    }
    lemma_split_single_line(line);
    lemma_split_single_line(header);
    lemma_split_concat(line, '\n', rest);
    lemma_split_concat(header, '\n', rest);
    let start = seq![unnamed_category()];
    lemma_read_lines_concat(start, seq![line], split_lines(rest));
    lemma_read_lines_concat(start, seq![header], split_lines(rest));
    lemma_read_one_line(start, line);
    lemma_read_one_line(start, header);
    law_header_with_white_space(start, before, name, after);
    law_header_with_white_space(start, Seq::<char>::empty(), name, Seq::<char>::empty());
    assert(Seq::<char>::empty() + seq!['['] + name + seq![']'] + Seq::<char>::empty() =~= header);
    assert(before + seq!['['] + name + seq![']'] + after =~= line);
}

/// Setting a variable of a category that no category is named after adds exactly one
/// category at the end, holding only that variable, and leaves the others in place.
pub proof fn law_set_value_adds_category_at_end<V>(
    categories: Seq<(Seq<char>, Seq<(Seq<char>, V)>)>,
    category: Seq<char>,
    variable: Seq<char>,
    value: V,
)
    requires
        forall|i: int| 0 <= i < categories.len() ==> (#[trigger] categories[i]).0 != category,
    ensures
        set_value(categories, category, variable, value) == categories.push(
            (category, seq![(variable, value)]),
        ),
{
    lemma_find_named_result(categories, category);
}

/// Setting a variable of an existing category changes only the first category of that
/// name: every other category stays in place, and the changed one keeps its name.
pub proof fn law_set_value_changes_one_category<V>(
    categories: Seq<(Seq<char>, Seq<(Seq<char>, V)>)>,
    category: Seq<char>,
    variable: Seq<char>,
    value: V,
    k: int,
)
    requires
        0 <= k < categories.len(),
        categories[k].0 == category,
        forall|i: int| 0 <= i < k ==> (#[trigger] categories[i]).0 != category,
    ensures
        set_value(categories, category, variable, value).len() == categories.len(),
        set_value(categories, category, variable, value)[k].0 == category,
        forall|i: int|
            0 <= i < categories.len() && i != k ==> #[trigger] set_value(
                categories,
                category,
                variable,
                value,
            )[i] == categories[i],
{
    assert(is_first_named(categories, category, k));
    lemma_find_named_at(categories, category, k);
}

/// Setting a variable that no variable of the category is named after adds it at the end
/// and leaves the others in place.
pub proof fn law_set_named_adds_at_end<T>(entries: Seq<(Seq<char>, T)>, name: Seq<char>, value: T)
    requires
        forall|i: int| 0 <= i < entries.len() ==> (#[trigger] entries[i]).0 != name,
    ensures
        set_named(entries, name, value) == entries.push((name, value)),
{
    lemma_find_named_result(entries, name);
}

/// Setting a variable that exists changes the value of its first entry only.
pub proof fn law_set_named_changes_first<T>(
    entries: Seq<(Seq<char>, T)>,
    name: Seq<char>,
    value: T,
    k: int,
)
    requires
        0 <= k < entries.len(),
        entries[k].0 == name,
        forall|i: int| 0 <= i < k ==> (#[trigger] entries[i]).0 != name,
    ensures
        set_named(entries, name, value).len() == entries.len(),
        set_named(entries, name, value)[k] == (name, value),
        forall|i: int|
            0 <= i < entries.len() && i != k ==> #[trigger] set_named(entries, name, value)[i]
                == entries[i],
{
    assert(is_first_named(entries, name, k));
    lemma_find_named_at(entries, name, k);
}

/// Making sure of a category that exists changes nothing.
pub proof fn law_ensure_existing_category<T>(
    categories: Seq<(Seq<char>, Seq<T>)>,
    name: Seq<char>,
    k: int,
)
    requires
        0 <= k < categories.len(),
        categories[k].0 == name,
    ensures
        ensure_category(categories, name) == categories,
{
    lemma_find_named_result(categories, name);
}

/// Making sure of a category that does not exist adds it, empty, at the end.
pub proof fn law_ensure_missing_category<T>(categories: Seq<(Seq<char>, Seq<T>)>, name: Seq<char>)
    requires
        forall|i: int| 0 <= i < categories.len() ==> (#[trigger] categories[i]).0 != name,
    ensures
        ensure_category(categories, name) == categories.push((name, Seq::<T>::empty())),
{
    lemma_find_named_result(categories, name);
}

/// Every category that reading keeps holds at least one variable.
pub proof fn law_parsed_categories_hold_variables(text: Seq<char>)
    ensures
        forall|i: int|
            0 <= i < parse_document(text).len() ==> (#[trigger] parse_document(text)[i]).1.len()
                > 0,
{
    lemma_with_variables_nonempty(read_lines(seq![unnamed_category()], split_lines(text)));
}

proof fn lemma_with_variables_nonempty(categories: Seq<RawCategory>)
    ensures
        forall|i: int|
            0 <= i < with_variables(categories).len() ==> (#[trigger] with_variables(
                categories,
            )[i]).1.len() > 0,
    decreases categories.len(),
{
    if categories.len() > 0 {
        let rest = with_variables(categories.drop_last());
        lemma_with_variables_nonempty(categories.drop_last());
        let all = with_variables(categories);
        assert forall|i: int| 0 <= i < all.len() implies (#[trigger] all[i]).1.len() > 0 by {
            if i < rest.len() {
                assert(all[i] == rest[i]);
            }
        }
    }
}

} // verus!
