//! Reading INI text into categories of variables.
use crate::category::IniCategory;
use crate::coding::{reads_categories, reads_variables, IniDecoder, PlainText, TrimmedText};
use crate::model::{RawCategory, RawVariable};
use crate::text::{
    find_char, is_first_at, is_first_break_at, is_line_break, lemma_find_char_at,
    lemma_find_char_none, lemma_find_line_break_at, lemma_find_line_break_none, split_lines,
    text_chars, trim, trim_bounds,
};
use crate::variable::IniVariable;
use vstd::prelude::*;
use vstd::utf8::{decode_utf8, encode_utf8, encode_utf8_decode_utf8, is_char_boundary};

verus! {

/// A trimmed line that opens a category: it starts with `[` and ends with `]`.
pub open spec fn is_header(trimmed: Seq<char>) -> bool {
    trimmed.len() > 0 && trimmed[0] == '[' && trimmed[trimmed.len() - 1] == ']'
}

/// The name of the category that a header line opens: what stands between the brackets.
pub open spec fn header_name(trimmed: Seq<char>) -> Seq<char> {
    trimmed.subrange(1, trimmed.len() - 1)
}

/// `categories` with the variable `name=value` added to the last category.
pub open spec fn add_variable(
    categories: Seq<RawCategory>,
    name: Seq<char>,
    value: Seq<char>,
) -> Seq<RawCategory> {
    let last = categories.last();
    categories.update(categories.len() - 1, (last.0, last.1.push((name, value))))
}

/// The text of the first `k` bytes of the UTF-8 encoding of `line`, as `&line[..k]` gives it.
pub open spec fn bytes_before(line: Seq<char>, k: int) -> Seq<char> {
    decode_utf8(encode_utf8(line).take(k))
}

/// The text of the UTF-8 encoding of `line` from byte `k` on, as `&line[k..]` gives it.
pub open spec fn bytes_from(line: Seq<char>, k: int) -> Seq<char> {
    decode_utf8(encode_utf8(line).skip(k))
}

/// Cutting `line` at the byte positions `k` and `k + 1`, where `k` counts the characters
/// before its first `=`, falls between characters. It does whenever those characters are
/// ASCII; where it does not, the cut is refused.
pub open spec fn splits_cleanly(line: Seq<char>) -> bool {
    match find_char(line, '=') {
        Some(k) => is_char_boundary(encode_utf8(line), k) && is_char_boundary(
            encode_utf8(line),
            k + 1,
        ),
        None => true,
    }
}

/// Every line of `text` splits cleanly.
pub open spec fn lines_split_cleanly(text: Seq<char>) -> bool {
    forall|i: int|
        0 <= i < split_lines(text).len() ==> splits_cleanly(#[trigger] split_lines(text)[i])
}

/// The categories after reading one line: a line that is empty once trimmed changes
/// nothing; a header line opens a new category; a line holding `=` adds a variable to the
/// last category. With `k` the number of characters before the first `=`, the variable's
/// name is the line's text up to byte `k` and its value the text from byte `k + 1` on:
/// what stands before and after the `=` when the characters before it are ASCII.
/// A header line that holds `=` does both.
pub open spec fn read_line(categories: Seq<RawCategory>, line: Seq<char>) -> Seq<RawCategory> {
    let trimmed = trim(line);
    if trimmed.len() == 0 {
        categories
    } else {
        let opened = if is_header(trimmed) {
            categories.push((header_name(trimmed), Seq::empty()))
        } else {
            categories
        };
        match find_char(line, '=') {
            Some(k) => add_variable(opened, bytes_before(line, k), bytes_from(line, k + 1)),
            None => opened,
        }
    }
}

/// The categories after reading `lines` in order.
pub open spec fn read_lines(categories: Seq<RawCategory>, lines: Seq<Seq<char>>) -> Seq<
    RawCategory,
>
    decreases lines.len(),
{
    if lines.len() == 0 {
        categories
    } else {
        read_lines(read_line(categories, lines[0]), lines.drop_first())
    }
}

/// The categories that hold at least one variable, in order.
pub open spec fn with_variables(categories: Seq<RawCategory>) -> Seq<RawCategory>
    decreases categories.len(),
{
    if categories.len() == 0 {
        Seq::empty()
    } else {
        let rest = with_variables(categories.drop_last());
        if categories.last().1.len() > 0 {
            rest.push(categories.last())
        } else {
            rest
        }
    }
}

/// The category that reading starts in: nameless and empty.
pub open spec fn unnamed_category() -> RawCategory {
    (Seq::empty(), Seq::empty())
}

/// The raw categories of an INI text: its lines read in order, starting in a nameless
/// category, and only the categories that hold a variable kept.
pub open spec fn parse_document(text: Seq<char>) -> Seq<RawCategory> {
    with_variables(read_lines(seq![unnamed_category()], split_lines(text)))
}

/// The raw categories with the names of their variables trimmed.
pub open spec fn with_trimmed_names(categories: Seq<RawCategory>) -> Seq<RawCategory> {
    categories.map_values(
        |c: RawCategory| (c.0, c.1.map_values(|v: RawVariable| (trim(v.0), v.1))),
    )
}

/// The categories of an INI text read with the default settings: variable names trimmed,
/// values as they stand.
pub open spec fn plain_document(text: Seq<char>) -> Seq<RawCategory> {
    with_trimmed_names(parse_document(text))
}

/// Reading with `TrimmedText` names and `PlainText` values gives one result only.
pub proof fn lemma_reads_plainly(raw: Seq<RawCategory>, categories: Seq<RawCategory>)
    requires
        reads_categories(raw, categories, &TrimmedText, &PlainText),
    ensures
        categories == with_trimmed_names(raw),
{
    assert forall|i: int| 0 <= i < raw.len() implies #[trigger] categories[i]
        == with_trimmed_names(raw)[i] by {
        let read = categories[i].1;
        assert(reads_variables(raw[i].1, read, &TrimmedText, &PlainText));
        assert forall|j: int| 0 <= j < read.len() implies #[trigger] read[j] == (
            trim(raw[i].1[j].0),
            raw[i].1[j].1,
        ) by {
            assert(TrimmedText.decodes(raw[i].1[j].0, read[j].0));
            assert(PlainText.decodes(raw[i].1[j].1, read[j].1));
        }
        assert(read =~= raw[i].1.map_values(|v: RawVariable| (trim(v.0), v.1)));
    }
    assert(categories =~= with_trimmed_names(raw));
}

/// The views of the categories.
pub open spec fn category_views<NameType: View, ValueType: View>(
    categories: Seq<IniCategory<NameType, ValueType>>,
) -> Seq<(Seq<char>, Seq<(NameType::V, ValueType::V)>)> {
    categories.map_values(|c: IniCategory<NameType, ValueType>| c@)
}

proof fn lemma_split_lines_step(text: Seq<char>, start: int, end: int)
    requires
        0 <= start <= end <= text.len(),
        forall|j: int| start <= j < end ==> !is_line_break(text[j]),
        end == text.len() || is_line_break(text[end]),
    ensures
        split_lines(text.skip(start)) == if end < text.len() {
            seq![text.subrange(start, end)] + split_lines(text.skip(end + 1))
        } else {
            seq![text.subrange(start, end)]
        },
{
    let rest = text.skip(start);
    let k = end - start;
    if end < text.len() {
        assert(is_first_break_at(rest, k));
        lemma_find_line_break_at(rest, k);
        assert(rest.take(k) =~= text.subrange(start, end));
        assert(rest.skip(k + 1) =~= text.skip(end + 1));
    } else {
        lemma_find_line_break_none(rest);
        assert(rest =~= text.subrange(start, end));
    }
}

/// Whether every line of `contents` splits cleanly, so that it can be read.
pub fn check_lines_split_cleanly(contents: &str) -> (clean: bool)
    ensures
        clean == lines_split_cleanly(contents@),
{
    let chars = text_chars(contents);
    let n = chars.len();
    let ghost text = contents@;
    let mut start: usize = 0;
    proof {
        assert(text.skip(0) =~= text);
    }
    loop
        invariant
            start <= n,
            n == chars@.len(),
            chars@ == text,
            text == contents@,
            lines_split_cleanly(text) == lines_split_cleanly(text.skip(start as int)),
        decreases n - start,
    {
        let mut end: usize = start;
        while end < n && !(chars[end] == '\n' || chars[end] == '\r')
            invariant
                start <= end <= n,
                n == chars@.len(),
                forall|j: int| start <= j < end ==> !is_line_break(chars@[j]),
            decreases n - end,
        {
            end = end + 1;
        }
        let ghost line = text.subrange(start as int, end as int);
        proof {
            lemma_split_lines_step(text, start as int, end as int);
            let all = split_lines(text.skip(start as int));
            assert(all[0] == line);
            if end < n {
                let tail = split_lines(text.skip(end + 1));
                assert forall|i: int| 0 <= i < tail.len() implies #[trigger] tail[i] == all[i
                    + 1] by {}
                if splits_cleanly(line) && lines_split_cleanly(text.skip(end + 1)) {
                    assert forall|i: int| 0 <= i < all.len() implies splits_cleanly(
                        #[trigger] all[i],
                    ) by {
                        if i > 0 {
                            assert(all[i] == tail[i - 1]);
                        }
                    }
                }
            }
        }
        let mut split: usize = start;
        while split < end && chars[split] != '='
            invariant
                start <= split <= end <= n,
                n == chars@.len(),
                forall|j: int| start <= j < split ==> chars@[j] != '=',
            decreases end - split,
        {
            split = split + 1;
        }
        if split < end {
            let line_text = contents.substring_char(start, end);
            let position: usize = split - start;
            proof {
                assert(line_text@ == line);
                assert(is_first_at(line, '=', position as int));
                lemma_find_char_at(line, '=', position as int);
            }
            if !(line_text.is_char_boundary(position) && line_text.is_char_boundary(position + 1)) {
                return false;
            }
        } else {
            proof {
                lemma_find_char_none(line, '=');
            }
        }
        if end == n {
            proof {
                assert(split_lines(text.skip(start as int)) =~= seq![line]);
            }
            return true;
        }
        start = end + 1;
    }
}

/// Parse raw contents into categories: the lines of `contents` (split at every `'\n'`
/// and `'\r'`) read in order as `parse_document` says, with every variable name read by
/// `name_decoder` and every value by `value_decoder`; categories without variables are
/// left out.
pub fn parse_raw_contents<
    NameType: View,
    ValueType: View,
    NameDecoder: IniDecoder<NameType> + ?Sized,
    ValueDecoder: IniDecoder<ValueType> + ?Sized,
>(contents: &str, name_decoder: &NameDecoder, value_decoder: &ValueDecoder) -> (categories: Vec<
    IniCategory<NameType, ValueType>,
>)
    requires
        lines_split_cleanly(contents@),
    ensures
        reads_categories(
            parse_document(contents@),
            category_views(categories@),
            name_decoder,
            value_decoder,
        ),
        forall|i: int| 0 <= i < categories@.len() ==> categories@[i].variables@.len() > 0,
{
    let chars = text_chars(contents);
    let n = chars.len();
    let ghost text = contents@;
    let ghost target = read_lines(seq![unnamed_category()], split_lines(text));
    let ghost mut state: Seq<RawCategory> = seq![unnamed_category()];
    let mut done: Vec<IniCategory<NameType, ValueType>> = Vec::new();
    let mut current: IniCategory<NameType, ValueType> = IniCategory::new("");
    let mut start: usize = 0;
    proof {
        reveal_strlit("");
        assert(text.skip(0) =~= text);
        assert(state.drop_last() =~= Seq::<RawCategory>::empty());
        assert(category_views(done@) =~= Seq::empty());
        assert(current@.1 =~= Seq::empty());
    }
    loop
        invariant_except_break
            start <= n,
            read_lines(state, split_lines(text.skip(start as int))) == target,
            lines_split_cleanly(text.skip(start as int)),
        invariant
            n == chars@.len(),
            chars@ == text,
            text == contents@,
            target == read_lines(seq![unnamed_category()], split_lines(text)),
            state.len() >= 1,
            reads_categories(
                with_variables(state.drop_last()),
                category_views(done@),
                name_decoder,
                value_decoder,
            ),
            forall|i: int| 0 <= i < done@.len() ==> done@[i].variables@.len() > 0,
            current@.0 == state.last().0,
            reads_variables(state.last().1, current@.1, name_decoder, value_decoder),
        ensures
            state == target,
        decreases n - start,
    {
        let mut end: usize = start;
        while end < n && !(chars[end] == '\n' || chars[end] == '\r')
            invariant
                start <= end <= n,
                n == chars@.len(),
                forall|j: int| start <= j < end ==> !is_line_break(chars@[j]),
            decreases n - end,
        {
            end = end + 1;
        }
        let ghost line = text.subrange(start as int, end as int);
        proof {
            lemma_split_lines_step(text, start as int, end as int);
            assert(split_lines(text.skip(start as int))[0] == line);
            assert(splits_cleanly(line));
        }
        let ghost before = state;
        let (first, last) = trim_bounds(&chars, start, end);
        if first < last {
            let ghost trimmed = chars@.subrange(first as int, last as int);
            if chars[first] == '[' && chars[last - 1] == ']' {
                let name = contents.substring_char(first + 1, last - 1);
                let ghost prev = state;
                let finished = current;
                current = IniCategory::new(name);
                proof {
                    assert(is_header(trimmed));
                    assert(header_name(trimmed) =~= name@);
                    let pushed = state.push((header_name(trimmed), Seq::<(Seq<char>, Seq<char>)>::empty()));
                    assert(pushed.drop_last() =~= state);
                    state = pushed;
                }
                if finished.variables.len() > 0 {
                    let ghost old_done = done@;
                    done.push(finished);
                    proof {
                        assert(prev.last().1.len() == finished@.1.len());
                        assert(with_variables(prev) == with_variables(prev.drop_last()).push(
                            prev.last(),
                        ));
                        assert(category_views(done@) =~= category_views(old_done).push(
                            finished@,
                        ));
                        assert(reads_categories(
                            with_variables(state.drop_last()),
                            category_views(done@),
                            name_decoder,
                            value_decoder,
                        ));
                    }
                } else {
                    proof {
                        assert(prev.last().1.len() == finished@.1.len());
                        assert(with_variables(prev) == with_variables(prev.drop_last()));
                    }
                }
            } else {
                proof {
                    assert(!is_header(trimmed));
                }
            }
            let ghost opened = state;
            let mut split: usize = start;
            while split < end && chars[split] != '='
                invariant
                    start <= split <= end <= n,
                    n == chars@.len(),
                    forall|j: int| start <= j < split ==> chars@[j] != '=',
                decreases end - split,
            {
                split = split + 1;
            }
            if split < end {
                let line_text = contents.substring_char(start, end);
                let position: usize = split - start;
                proof {
                    assert(line_text@ == line);
                    assert(is_first_at(line, '=', position as int));
                    lemma_find_char_at(line, '=', position as int);
                }
                let (raw_name, _) = line_text.split_at(position);
                let (_, raw_value) = line_text.split_at(position + 1);
                proof {
                    let bytes = encode_utf8(line);
                    encode_utf8_decode_utf8(raw_name@);
                    encode_utf8_decode_utf8(raw_value@);
                    assert(encode_utf8(raw_name@) =~= bytes.take(position as int));
                    assert(encode_utf8(raw_value@) =~= bytes.skip(position + 1));
                    assert(raw_name@ == bytes_before(line, position as int));
                    assert(raw_value@ == bytes_from(line, position + 1));
                }
                let name = name_decoder.decode(raw_name);
                let value = value_decoder.decode(raw_value);
                let ghost old_vars = current@.1;
                current.variables.push(IniVariable::new(name, value));
                proof {
                    let added = add_variable(opened, raw_name@, raw_value@);
                    assert(added.drop_last() =~= opened.drop_last());
                    state = added;
                    assert(state.last() == (
                        opened.last().0,
                        opened.last().1.push((raw_name@, raw_value@)),
                    ));
                    assert(current@.1 =~= old_vars.push((name@, value@)));
                    assert(reads_variables(state.last().1, current@.1, name_decoder, value_decoder));
                }
            } else {
                proof {
                    lemma_find_char_none(line, '=');
                }
            }
            proof {
                assert(state == read_line(before, line));
            }
        } else {
            proof {
                assert(trim(line) =~= Seq::<char>::empty());
            }
        }
        proof {
            assert(state == read_line(before, line));
            if end < n {
                let tail = split_lines(text.skip(end + 1));
                let all = seq![line] + tail;
                assert(all[0] == line);
                assert(all.drop_first() =~= tail);
                assert forall|i: int| 0 <= i < tail.len() implies splits_cleanly(
                    #[trigger] tail[i],
                ) by {
                    assert(tail[i] == all[i + 1]);
                }
            } else {
                let all = seq![line];
                assert(all.drop_first() =~= Seq::<Seq<char>>::empty());
                assert(read_lines(before, all) == read_lines(state, all.drop_first()));
                assert(read_lines(state, Seq::<Seq<char>>::empty()) == state);
            }
        }
        if end == n {
            break;
        }
        start = end + 1;
    }
    let ghost old_done = done@;
    let ghost last_view = current@;
    if current.variables.len() > 0 {
        done.push(current);
        proof {
            assert(category_views(done@) =~= category_views(old_done).push(last_view));
        }
    }
    proof {
        assert(state.last().1.len() == last_view.1.len());
        assert(reads_categories(
            with_variables(state),
            category_views(done@),
            name_decoder,
            value_decoder,
        ));
    }
    done
}

} // verus!
