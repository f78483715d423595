use vstd::prelude::*;
use crate::store::{Column, Filter};
use crate::words::{chars_of, string_of};

verus! {

/// The items one after the other with `sep` between each two.
pub open spec fn join(items: Seq<Seq<char>>, sep: Seq<char>) -> Seq<char>
    decreases items.len(),
{
    if items.len() == 0 {
        Seq::empty()
    } else if items.len() == 1 {
        items[0]
    } else {
        join(items.drop_last(), sep) + sep + items.last()
    }
}

/// A column as text: `[a,b,c]`.
pub open spec fn column_text(col: Column) -> Seq<char> {
    seq!['['] + join(col, seq![',']) + seq![']']
}

/// A template as text: its columns separated by `,`.
pub open spec fn filter_text(f: Filter) -> Seq<char> {
    join(Seq::new(f.len(), |j: int| column_text(f[j])), seq![','])
}

/// The templates as text: one per line, lines separated by `,` and a line break.
pub open spec fn filters_text(fs: Seq<Filter>) -> Seq<char> {
    join(Seq::new(fs.len(), |i: int| filter_text(fs[i])), seq![',', '\n'])
}

/// Relies on `String::push`: the character is appended.
#[verifier::external_body]
pub(crate) fn push_char(s: &mut String, c: char)
    ensures
        final(s)@ == old(s)@.push(c),
{
    s.push(c);
}

/// Relies on `String::push_str`: the text is appended.
#[verifier::external_body]
pub(crate) fn push_text(s: &mut String, t: &str)
    ensures
        final(s)@ == old(s)@ + t@,
{
    s.push_str(t);
}

/// Appends `col` as text (see `column_text`).
pub fn append_column(out: &mut String, col: &Vec<String>)
    ensures
        final(out)@ == old(out)@ + column_text(col.deep_view()),
{
    let ghost o = out@;
    let ghost c = col.deep_view();
    push_char(out, '[');
    let mut j: usize = 0;
    while j < col.len()
        invariant
            j <= col.len(),
            c == col.deep_view(),
            out@ == o + seq!['['] + join(c.subrange(0, j as int), seq![',']),
        decreases col.len() - j,
    {
        let ghost before = out@;
        assert(c.subrange(0, j as int + 1).drop_last() =~= c.subrange(0, j as int));
        assert(c.subrange(0, j as int + 1).last() == c[j as int]);
        assert(c[j as int] == col[j as int]@);
        if j > 0 {
            push_char(out, ',');
            push_text(out, col[j].as_str());
            assert(out@ =~= o + seq!['['] + join(c.subrange(0, j as int + 1), seq![',']));
        } else {
            push_text(out, col[j].as_str());
            assert(out@ =~= o + seq!['['] + join(c.subrange(0, j as int + 1), seq![',']));
        }
        j += 1;
    }
    assert(c.subrange(0, j as int) =~= c);
    push_char(out, ']');
    assert(out@ =~= o + column_text(c));
}

/// Appends `f` as text (see `filter_text`).
pub fn append_filter(out: &mut String, f: &Vec<Vec<String>>)
    ensures
        final(out)@ == old(out)@ + filter_text(f.deep_view()),
{
    let ghost o = out@;
    let ghost fv = f.deep_view();
    let ghost items = Seq::new(fv.len(), |j: int| column_text(fv[j]));
    let mut j: usize = 0;
    while j < f.len()
        invariant
            j <= f.len(),
            fv == f.deep_view(),
            items == Seq::new(fv.len(), |x: int| column_text(fv[x])),
            out@ == o + join(items.subrange(0, j as int), seq![',']),
        decreases f.len() - j,
    {
        assert(items.subrange(0, j as int + 1).drop_last() =~= items.subrange(0, j as int));
        assert(items.subrange(0, j as int + 1).last() == column_text(f[j as int].deep_view()));
        if j > 0 {
            push_char(out, ',');
        }
        append_column(out, &f[j]);
        assert(out@ =~= o + join(items.subrange(0, j as int + 1), seq![',']));
        j += 1;
    }
    assert(items.subrange(0, j as int) =~= items);
}

/// The templates as text (see `filters_text`).
pub fn filters_to_string(filters: &Vec<Vec<Vec<String>>>) -> (r: String)
    ensures
        r@ == filters_text(filters.deep_view()),
{
    let mut out = String::new();
    let ghost fv = filters.deep_view();
    let ghost items = Seq::new(fv.len(), |i: int| filter_text(fv[i]));
    let mut i: usize = 0;
    while i < filters.len()
        invariant
            i <= filters.len(),
            fv == filters.deep_view(),
            items == Seq::new(fv.len(), |x: int| filter_text(fv[x])),
            out@ == join(items.subrange(0, i as int), seq![',', '\n']),
        decreases filters.len() - i,
    {
        assert(items.subrange(0, i as int + 1).drop_last() =~= items.subrange(0, i as int));
        assert(items.subrange(0, i as int + 1).last() == filter_text(filters[i as int].deep_view()));
        if i > 0 {
            push_char(&mut out, ',');
            push_char(&mut out, '\n');
        }
        let ghost before = out@;
        append_filter(&mut out, &filters[i]);
        assert(out@ =~= join(items.subrange(0, i as int + 1), seq![',', '\n']));
        i += 1;
    }
    assert(items.subrange(0, i as int) =~= items);
    out
}

/// The pieces of `s` between the characters `a` and `b`, the piece under way being `cur`;
/// empty pieces dropped.
pub open spec fn split_pair(s: Seq<char>, cur: Seq<char>, a: char, b: char) -> Seq<Seq<char>>
    decreases s.len(),
{
    if s.len() == 0 {
        if cur.len() > 0 {
            seq![cur]
        } else {
            Seq::empty()
        }
    } else if s[0] == a || s[0] == b {
        (if cur.len() > 0 {
            seq![cur]
        } else {
            Seq::empty()
        }) + split_pair(s.drop_first(), Seq::empty(), a, b)
    } else {
        split_pair(s.drop_first(), cur.push(s[0]), a, b)
    }
}

/// Cuts `s` at each `a` and each `b` (see `split_pair`).
pub fn split_at_chars(s: &str, a: char, b: char) -> (r: Vec<String>)
    ensures
        r.deep_view() == split_pair(s@, Seq::empty(), a, b),
{
    let chars = chars_of(s);
    let ghost sv = chars@;
    let mut res: Vec<String> = Vec::new();
    let mut cur: Vec<char> = Vec::new();
    let mut i: usize = 0;
    assert(sv.subrange(0, sv.len() as int) =~= sv);
    assert(res.deep_view() + split_pair(sv, cur@, a, b) =~= split_pair(sv, cur@, a, b));
    while i < chars.len()
        invariant
            i <= chars.len(),
            sv == chars@,
            sv == s@,
            res.deep_view() + split_pair(sv.subrange(i as int, sv.len() as int), cur@, a, b)
                == split_pair(sv, Seq::empty(), a, b),
        decreases chars.len() - i,
    {
        let ghost rest = sv.subrange(i as int, sv.len() as int);
        assert(rest[0] == chars[i as int]);
        assert(rest.drop_first() =~= sv.subrange(i as int + 1, sv.len() as int));
        let c = chars[i];
        if c == a || c == b {
            if cur.len() > 0 {
                let w = string_of(&cur);
                let ghost before = res.deep_view();
                res.push(w);
                assert(res.deep_view() =~= before + seq![cur@]);
                assert(before + seq![cur@] + split_pair(rest.drop_first(), Seq::empty(), a, b)
                    =~= before + (seq![cur@] + split_pair(rest.drop_first(), Seq::empty(), a, b)));
            } else {
                assert(Seq::<Seq<char>>::empty() + split_pair(rest.drop_first(), Seq::empty(), a, b)
                    =~= split_pair(rest.drop_first(), Seq::empty(), a, b));
            }
            cur = Vec::new();
            assert(cur@ =~= Seq::<char>::empty());
        } else {
            cur.push(c);
        }
        i += 1;
    }
    assert(sv.subrange(i as int, sv.len() as int) =~= Seq::<char>::empty());
    if cur.len() > 0 {
        let w = string_of(&cur);
        let ghost before = res.deep_view();
        res.push(w);
        assert(res.deep_view() =~= before + seq![cur@]);
    } else {
        assert(res.deep_view() + Seq::<Seq<char>>::empty() =~= res.deep_view());
    }
    res
}

/// `c` is an ASCII digit.
pub open spec fn is_digit(c: char) -> bool {
    '0' <= c <= '9'
}

/// The value of a run of decimal digits.
pub open spec fn digits_value(s: Seq<char>) -> int
    decreases s.len(),
{
    if s.len() == 0 {
        0
    } else {
        digits_value(s.drop_last()) * 10 + (s.last() as int - '0' as int)
    }
}

/// What `str::parse::<usize>` gives: an optional `+`, then one or more decimal digits whose
/// value fits in a `usize`.
pub open spec fn parsed_usize(s: Seq<char>) -> Option<usize> {
    let d = unsigned_part(s);
    if d.len() > 0 && all_digits(d) && digits_value(d) <= usize::MAX {
        Some(digits_value(d) as usize)
    } else {
        None
    }
}

/// `s` without a leading `+`.
pub open spec fn unsigned_part(s: Seq<char>) -> Seq<char> {
    if s.len() > 0 && s[0] == '+' {
        s.drop_first()
    } else {
        s
    }
}

/// Every character of `s` is a decimal digit.
pub open spec fn all_digits(s: Seq<char>) -> bool {
    forall|i: int| 0 <= i < s.len() ==> #[trigger] is_digit(s[i])
}

/// What `str::parse::<bool>` gives: `true` and `false`, nothing else.
pub open spec fn parsed_bool(s: Seq<char>) -> Option<bool> {
    if s == seq!['t', 'r', 'u', 'e'] {
        Some(true)
    } else if s == seq!['f', 'a', 'l', 's', 'e'] {
        Some(false)
    } else {
        None
    }
}

/// A longer run of digits is worth at least as much as its prefix.
pub proof fn lemma_digits_value_grows(s: Seq<char>, i: int)
    requires
        0 <= i <= s.len(),
        forall|j: int| 0 <= j < s.len() ==> #[trigger] is_digit(s[j]),
    ensures
        digits_value(s.subrange(0, i)) <= digits_value(s),
        0 <= digits_value(s),
    decreases s.len(),
{
    if s.len() > 0 {
        let t = s.drop_last();
        assert forall|j: int| 0 <= j < t.len() implies #[trigger] is_digit(t[j]) by {
            assert(t[j] == s[j]);
        }
        if i == s.len() {
            assert(s.subrange(0, i) =~= s);
            lemma_digits_value_grows(t, t.len() as int);
        } else {
            assert(s.subrange(0, i) =~= t.subrange(0, i));
            lemma_digits_value_grows(t, i);
        }
        assert(is_digit(s.last()));
    }
}

/// Reads a decimal number (see `parsed_usize`).
pub fn parse_usize(s: &str) -> (r: Option<usize>)
    ensures
        r == parsed_usize(s@),
{
    let chars = chars_of(s);
    let ghost sv = chars@;
    let start: usize = if chars.len() > 0 && chars[0] == '+' {
        1
    } else {
        0
    };
    let ghost d = if sv.len() > 0 && sv[0] == '+' {
        sv.drop_first()
    } else {
        sv
    };
    assert(d =~= sv.subrange(start as int, sv.len() as int));
    if start >= chars.len() {
        return None;
    }
    let mut v: usize = 0;
    let mut i: usize = start;
    while i < chars.len()
        invariant
            start <= i <= chars.len(),
            sv == chars@,
            sv == s@,
            d == sv.subrange(start as int, sv.len() as int),
            d == unsigned_part(sv),
            forall|j: int| 0 <= j < i - start ==> #[trigger] is_digit(d[j]),
            v as int == digits_value(d.subrange(0, i - start)),
        decreases chars.len() - i,
    {
        let c = chars[i];
        assert(d[i - start] == c);
        if !('0' <= c && c <= '9') {
            assert(!is_digit(d[i - start]));
            assert(!all_digits(d));
            assert(parsed_usize(s@) is None);
            return None;
        }
        let digit = (c as u32 - '0' as u32) as usize;
        assert(d.subrange(0, i + 1 - start).drop_last() =~= d.subrange(0, i - start));
        if v > (usize::MAX - digit) / 10 {
            proof {
                assert(v * 10 + digit > usize::MAX) by (nonlinear_arith)
                    requires
                        v > (usize::MAX - digit) / 10,
                        digit <= 9,
                ;
                if all_digits(d) {
                    lemma_digits_value_grows(d, i + 1 - start);
                    assert(digits_value(d.subrange(0, i + 1 - start)) == v * 10 + digit);
                    assert(digits_value(d) > usize::MAX);
                }
                assert(parsed_usize(s@) is None);
            }
            return None;
        }
        assert(v * 10 + digit <= usize::MAX) by (nonlinear_arith)
            requires
                v <= (usize::MAX - digit) / 10,
                digit <= 9,
        ;
        v = v * 10 + digit;
        i += 1;
    }
    assert(d.subrange(0, i - start) =~= d);
    Some(v)
}

/// Reads `true` or `false` (see `parsed_bool`).
pub fn parse_bool(s: &str) -> (r: Option<bool>)
    ensures
        r == parsed_bool(s@),
{
    let t = s.to_owned();
    let yes = String::from_str("true");
    let no = String::from_str("false");
    proof {
        reveal_strlit("true");
        reveal_strlit("false");
    }
    assert("true"@ =~= seq!['t', 'r', 'u', 'e']);
    assert("false"@ =~= seq!['f', 'a', 'l', 's', 'e']);
    if t == yes {
        Some(true)
    } else if t == no {
        Some(false)
    } else {
        None
    }
}

/// Why stored templates could not be read back.
#[derive(Debug, PartialEq, Eq, Structural)]
pub enum LoadError {
    /// Fewer lines than the header and counts call for; the number of lines found.
    TooFewLines(usize),
    /// The line at this index (from 0) is not a decimal number.
    NotANumber(usize),
    /// The line at this index is neither `true` nor `false`.
    NotABool(usize),
    /// The line at this index, which holds the optional marker, is empty.
    EmptyMarker(usize),
}

/// The columns written in a line of bracketed groups: the pieces between brackets, less the
/// lone commas between groups, each cut at its commas.
pub open spec fn bracket_columns(parts: Seq<Seq<char>>) -> Seq<Column>
    decreases parts.len(),
{
    if parts.len() == 0 {
        Seq::empty()
    } else {
        let rest = bracket_columns(parts.drop_last());
        if parts.last() == seq![','] {
            rest
        } else {
            rest.push(split_pair(parts.last(), Seq::empty(), ',', ','))
        }
    }
}

/// The template that a line of bracketed groups holds; a line without both `[` and `]`
/// holds none.
pub open spec fn parsed_bracket_line(line: Seq<char>) -> Option<Filter> {
    if line.contains('[') && line.contains(']') {
        Some(bracket_columns(split_pair(line, Seq::empty(), '[', ']')))
    } else {
        None
    }
}

/// Tells whether `c` occurs in `chars`.
pub fn has_char(chars: &Vec<char>, c: char) -> (r: bool)
    ensures
        r == chars@.contains(c),
{
    let mut i: usize = 0;
    while i < chars.len()
        invariant
            i <= chars.len(),
            forall|j: int| 0 <= j < i ==> chars@[j] != c,
        decreases chars.len() - i,
    {
        if chars[i] == c {
            return true;
        }
        i += 1;
    }
    false
}

/// Reads the template of a line of bracketed groups (see `parsed_bracket_line`).
pub fn parse_bracket_line(line: &str) -> (r: Option<Vec<Vec<String>>>)
    ensures
        match r {
            Some(f) => parsed_bracket_line(line@) == Some(f.deep_view()),
            None => parsed_bracket_line(line@) is None,
        },
{
    let chars = chars_of(line);
    if !has_char(&chars, '[') || !has_char(&chars, ']') {
        return None;
    }
    let parts = split_at_chars(line, '[', ']');
    let ghost pv = parts.deep_view();
    let comma = String::from_str(",");
    proof {
        reveal_strlit(",");
    }
    assert(comma@ =~= seq![',']);
    let mut filter: Vec<Vec<String>> = Vec::new();
    let mut i: usize = 0;
    while i < parts.len()
        invariant
            i <= parts.len(),
            pv == parts.deep_view(),
            comma@ == seq![','],
            filter.deep_view() == bracket_columns(pv.subrange(0, i as int)),
        decreases parts.len() - i,
    {
        assert(pv.subrange(0, i as int + 1).drop_last() =~= pv.subrange(0, i as int));
        assert(pv.subrange(0, i as int + 1).last() == parts[i as int]@);
        if parts[i] != comma {
            let col = split_at_chars(parts[i].as_str(), ',', ',');
            let ghost before = filter.deep_view();
            filter.push(col);
            assert(filter.deep_view() =~= before.push(col.deep_view()));
        }
        i += 1;
    }
    assert(pv.subrange(0, i as int) =~= pv);
    Some(filter)
}

} // verus!
