//! Character-level text model: whitespace, trimming, searching and line splitting.
use vstd::prelude::*;
use vstd::std_specs::iter::IteratorSpec;

verus! {

/// A Unicode `White_Space` code point, the set that `char::is_whitespace` and `str::trim` use.
pub open spec fn is_white_space(c: char) -> bool {
    let u = c as u32;
    ||| 0x09 <= u <= 0x0d
    ||| u == 0x20
    ||| u == 0x85
    ||| u == 0xa0
    ||| u == 0x1680
    ||| 0x2000 <= u <= 0x200a
    ||| u == 0x2028
    ||| u == 0x2029
    ||| u == 0x202f
    ||| u == 0x205f
    ||| u == 0x3000
}

/// A character that ends a line: `'\n'` or `'\r'`.
pub open spec fn is_line_break(c: char) -> bool {
    c == '\n' || c == '\r'
}

/// `s` without its leading white space.
pub open spec fn trim_start(s: Seq<char>) -> Seq<char>
    decreases s.len(),
{
    if s.len() > 0 && is_white_space(s[0]) {
        trim_start(s.drop_first())
    } else {
        s
    }
}

/// `s` without its trailing white space.
pub open spec fn trim_end(s: Seq<char>) -> Seq<char>
    decreases s.len(),
{
    if s.len() > 0 && is_white_space(s.last()) {
        trim_end(s.drop_last())
    } else {
        s
    }
}

/// `s` without leading and trailing white space, as `str::trim` gives it.
pub open spec fn trim(s: Seq<char>) -> Seq<char> {
    trim_end(trim_start(s))
}

/// `k` is the first position of `s` that holds `c`.
pub open spec fn is_first_at(s: Seq<char>, c: char, k: int) -> bool {
    &&& 0 <= k < s.len()
    &&& s[k] == c
    &&& forall|j: int| 0 <= j < k ==> s[j] != c
}

/// The first position of `s` that holds `c`, if any.
pub open spec fn find_char(s: Seq<char>, c: char) -> Option<int> {
    if exists|k: int| is_first_at(s, c, k) {
        Some(choose|k: int| is_first_at(s, c, k))
    } else {
        None
    }
}

/// `k` is the first position of `s` that holds a line break.
pub open spec fn is_first_break_at(s: Seq<char>, k: int) -> bool {
    &&& 0 <= k < s.len()
    &&& is_line_break(s[k])
    &&& forall|j: int| 0 <= j < k ==> !is_line_break(s[j])
}

/// The first position of `s` that holds a line break, if any.
pub open spec fn find_line_break(s: Seq<char>) -> Option<int> {
    if exists|k: int| is_first_break_at(s, k) {
        Some(choose|k: int| is_first_break_at(s, k))
    } else {
        None
    }
}

/// The pieces of `s` between line breaks, as `str::split(['\n', '\r'])` gives them:
/// every break ends a piece, so two breaks in a row give an empty piece.
pub open spec fn split_lines(s: Seq<char>) -> Seq<Seq<char>>
    decreases s.len(),
{
    match find_line_break(s) {
        Some(k) => if 0 <= k < s.len() {
            seq![s.take(k)] + split_lines(s.skip(k + 1))
        } else {
            seq![s]
        },
        None => seq![s],
    }
}

/// The elements of `parts` with `sep` between each two, as `[String]::join` gives them.
pub open spec fn join(parts: Seq<Seq<char>>, sep: Seq<char>) -> Seq<char>
    decreases parts.len(),
{
    if parts.len() == 0 {
        Seq::empty()
    } else if parts.len() == 1 {
        parts[0]
    } else {
        join(parts.drop_last(), sep) + sep + parts.last()
    }
}

pub proof fn lemma_find_char_at(s: Seq<char>, c: char, k: int)
    requires
        is_first_at(s, c, k),
    ensures
        find_char(s, c) == Some(k),
{
    let w = choose|w: int| is_first_at(s, c, w);
    assert(is_first_at(s, c, w));
    if w < k {
        assert(s[w] != c);
    } else if k < w {
        assert(s[k] != c);
    }
}

pub proof fn lemma_find_char_none(s: Seq<char>, c: char)
    requires
        forall|j: int| 0 <= j < s.len() ==> s[j] != c,
    ensures
        find_char(s, c) == None::<int>,
{
}

pub proof fn lemma_find_line_break_at(s: Seq<char>, k: int)
    requires
        is_first_break_at(s, k),
    ensures
        find_line_break(s) == Some(k),
{
    let w = choose|w: int| is_first_break_at(s, w);
    assert(is_first_break_at(s, w));
    if w < k {
        assert(!is_line_break(s[w]));
    } else if k < w {
        assert(!is_line_break(s[k]));
    }
}

pub proof fn lemma_find_line_break_none(s: Seq<char>)
    requires
        forall|j: int| 0 <= j < s.len() ==> !is_line_break(s[j]),
    ensures
        find_line_break(s) == None::<int>,
{
}

pub proof fn lemma_trim_start_skip(s: Seq<char>, i: int)
    requires
        0 <= i <= s.len(),
        forall|j: int| 0 <= j < i ==> is_white_space(s[j]),
        i == s.len() || !is_white_space(s[i]),
    ensures
        trim_start(s) == s.skip(i),
    decreases i,
{
    if i == 0 {
        assert(s.skip(0) =~= s);
    } else {
        let t = s.drop_first();
        lemma_trim_start_skip(t, i - 1);
        assert(t.skip(i - 1) =~= s.skip(i));
    }
}

pub proof fn lemma_trim_end_take(s: Seq<char>, i: int)
    requires
        0 <= i <= s.len(),
        forall|j: int| i <= j < s.len() ==> is_white_space(s[j]),
        i == 0 || !is_white_space(s[i - 1]),
    ensures
        trim_end(s) == s.take(i),
    decreases s.len() - i,
{
    if i == s.len() {
        assert(s.take(i) =~= s);
    } else {
        let t = s.drop_last();
        lemma_trim_end_take(t, i);
        assert(t.take(i) =~= s.take(i));
    }
}

/// Whether `c` is white space, as `char::is_whitespace` tells it.
pub fn is_white_space_char(c: char) -> (b: bool)
    ensures
        b == is_white_space(c),
{
    let u: u32 = c as u32;
    (0x09 <= u && u <= 0x0d) || u == 0x20 || u == 0x85 || u == 0xa0 || u == 0x1680 || (0x2000
        <= u && u <= 0x200a) || u == 0x2028 || u == 0x2029 || u == 0x202f || u == 0x205f || u
        == 0x3000
}

/// The bounds of the trimmed part of `chars[from..to]`.
pub fn trim_bounds(chars: &Vec<char>, from: usize, to: usize) -> (bounds: (usize, usize))
    requires
        from <= to <= chars@.len(),
    ensures
        from <= bounds.0 <= bounds.1 <= to,
        trim(chars@.subrange(from as int, to as int)) == chars@.subrange(
            bounds.0 as int,
            bounds.1 as int,
        ),
{
    let ghost line = chars@.subrange(from as int, to as int);
    let mut a: usize = from;
    while a < to && is_white_space_char(chars[a])
        invariant
            from <= a <= to <= chars@.len(),
            forall|j: int| from <= j < a ==> is_white_space(chars@[j]),
        decreases to - a,
    {
        a = a + 1;
    }
    proof {
        lemma_trim_start_skip(line, a - from);
        assert(line.skip(a - from) =~= chars@.subrange(a as int, to as int));
    }
    let ghost rest = chars@.subrange(a as int, to as int);
    let mut b: usize = to;
    while b > a && is_white_space_char(chars[b - 1])
        invariant
            a <= b <= to <= chars@.len(),
            forall|j: int| b <= j < to ==> is_white_space(chars@[j]),
        decreases b - a,
    {
        b = b - 1;
    }
    proof {
        lemma_trim_end_take(rest, b - a);
        assert(rest.take(b - a) =~= chars@.subrange(a as int, b as int));
    }
    (a, b)
}

/// The texts of `parts` with `sep` between each two.
pub fn join_texts(parts: &Vec<String>, sep: &str) -> (text: String)
    ensures
        text@ == join(parts@.map_values(|p: String| p@), sep@),
{
    let ghost views = parts@.map_values(|p: String| p@);
    let mut text = String::new();
    let mut i: usize = 0;
    while i < parts.len()
        invariant
            i <= parts@.len(),
            views == parts@.map_values(|p: String| p@),
            text@ == join(views.take(i as int), sep@),
        decreases parts@.len() - i,
    {
        proof {
            assert(views.take(i + 1).drop_last() =~= views.take(i as int));
        }
        if i > 0 {
            text.append(sep);
        }
        text.append(parts[i].as_str());
        proof {
            if i == 0 {
                assert(Seq::<char>::empty() + parts@[0]@ =~= parts@[0]@);
            }
        }
        i = i + 1;
    }
    proof {
        assert(views.take(parts@.len() as int) =~= views);
    }
    text
}

/// The characters of `s`, in order.
pub fn text_chars(s: &str) -> (chars: Vec<char>)
    ensures
        chars@ == s@,
{
    let mut chars: Vec<char> = Vec::new();
    for c in it: s.chars()
        invariant
            chars@ == it.seq().take(it.index() as int),
            it.seq() == s@,
    {
        chars.push(c);
    }
    chars
}

} // verus!
