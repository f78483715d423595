use vstd::prelude::*;

verus! {

/// The characters at which a line is cut into words; the apostrophe only with `quote`.
pub open spec fn is_delimiter(c: char, quote: bool) -> bool {
    c == ' ' || c == '/' || c == ',' || c == '.' || c == ':' || c == '"' || (quote && c == '\'')
        || c == '(' || c == ')' || c == '{' || c == '}' || c == '[' || c == ']'
}

/// The words of `s`, the word under way being `cur`: maximal runs of non-delimiters, empty
/// runs dropped.
pub open spec fn split_from(s: Seq<char>, cur: Seq<char>, quote: bool) -> Seq<Seq<char>>
    decreases s.len(),
{
    if s.len() == 0 {
        if cur.len() > 0 {
            seq![cur]
        } else {
            Seq::empty()
        }
    } else if is_delimiter(s[0], quote) {
        (if cur.len() > 0 {
            seq![cur]
        } else {
            Seq::empty()
        }) + split_from(s.drop_first(), Seq::empty(), quote)
    } else {
        split_from(s.drop_first(), cur.push(s[0]), quote)
    }
}

/// The words of a line: what lies between delimiters, empty words dropped.
pub open spec fn split_words(s: Seq<char>) -> Seq<Seq<char>> {
    split_from(s, Seq::empty(), true)
}

/// What `char::is_numeric` says of a character (Unicode's numeric categories).
pub uninterp spec fn numeric_char(c: char) -> bool;

/// Every character of `w` is numeric, or, with `marks`, one of `*` and `#`. The empty word
/// counts as numeric.
pub open spec fn numeric_word(w: Seq<char>, marks: bool) -> bool {
    forall|i: int|
        0 <= i < w.len() ==> #[trigger] numeric_char(w[i]) || (marks && (w[i] == '*' || w[i]
            == '#'))
}

/// The words of `raw` in order, without the numeric ones where `ignore_numeric` is set.
pub open spec fn kept_words(raw: Seq<Seq<char>>, ignore_numeric: bool, marks: bool) -> Seq<
    Seq<char>,
>
    decreases raw.len(),
{
    if raw.len() == 0 {
        Seq::empty()
    } else {
        let rest = kept_words(raw.drop_last(), ignore_numeric, marks);
        if ignore_numeric && numeric_word(raw.last(), marks) {
            rest
        } else {
            rest.push(raw.last())
        }
    }
}

/// The words that a line yields: split, numeric words dropped where asked, then the first
/// `skip` of what is left dropped.
pub open spec fn line_words(line: Seq<char>, ignore_numeric: bool, marks: bool, skip: int) -> Seq<
    Seq<char>,
> {
    let k = kept_words(split_words(line), ignore_numeric, marks);
    if skip < k.len() {
        k.subrange(skip, k.len() as int)
    } else {
        Seq::empty()
    }
}

/// Relies on `str::chars` collected into a `Vec`: the characters of `s` in order.
#[verifier::external_body]
pub(crate) fn chars_of(s: &str) -> (r: Vec<char>)
    ensures
        r@ == s@,
{
    s.chars().collect()
}

/// Relies on collecting characters into a `String`: the same characters in order.
#[verifier::external_body]
pub(crate) fn string_of(chars: &Vec<char>) -> (r: String)
    ensures
        r@ == chars@,
{
    chars.iter().collect()
}

/// Relies on `char::is_numeric`.
#[verifier::external_body]
fn char_is_numeric(c: char) -> (r: bool)
    ensures
        r == numeric_char(c),
{
    c.is_numeric()
}

/// Tells whether `c` is one of the delimiter characters.
pub fn is_delimiter_char(c: char, quote: bool) -> (r: bool)
    ensures
        r == is_delimiter(c, quote),
{
    c == ' ' || c == '/' || c == ',' || c == '.' || c == ':' || c == '"' || (quote && c == '\'')
        || c == '(' || c == ')' || c == '{' || c == '}' || c == '[' || c == ']'
}

/// Cuts a line into its words (see `split_words`).
pub fn split_line(log_line: &str) -> (r: Vec<String>)
    ensures
        r.deep_view() == split_words(log_line@),
{
    split_line_with(log_line, true)
}

/// Cuts a line into its words, at the apostrophe too where `quote` is set (see `split_from`).
pub fn split_line_with(log_line: &str, quote: bool) -> (r: Vec<String>)
    ensures
        r.deep_view() == split_from(log_line@, Seq::empty(), quote),
{
    let chars = chars_of(log_line);
    let ghost s = chars@;
    let mut res: Vec<String> = Vec::new();
    let mut cur: Vec<char> = Vec::new();
    let mut i: usize = 0;
    assert(s.subrange(0, s.len() as int) =~= s);
    assert(res.deep_view() + split_from(s, cur@, quote) =~= split_from(s, cur@, quote));
    while i < chars.len()
        invariant
            i <= chars.len(),
            s == chars@,
            s == log_line@,
            res.deep_view() + split_from(s.subrange(i as int, s.len() as int), cur@, quote)
                == split_from(s, Seq::empty(), quote),
        decreases chars.len() - i,
    {
        let ghost rest = s.subrange(i as int, s.len() as int);
        assert(rest[0] == chars[i as int]);
        assert(rest.drop_first() =~= s.subrange(i as int + 1, s.len() as int));
        let c = chars[i];
        if is_delimiter_char(c, quote) {
            if cur.len() > 0 {
                let w = string_of(&cur);
                let ghost before = res.deep_view();
                res.push(w);
                assert(res.deep_view() =~= before + seq![cur@]);
                assert(before + seq![cur@] + split_from(rest.drop_first(), Seq::empty(), quote) =~= before
                    + (seq![cur@] + split_from(rest.drop_first(), Seq::empty(), quote)));
            } else {
                assert(Seq::<Seq<char>>::empty() + split_from(rest.drop_first(), Seq::empty(), quote)
                    =~= split_from(rest.drop_first(), Seq::empty(), quote));
            }
            cur = Vec::new();
            assert(cur@ =~= Seq::<char>::empty());
        } else {
            cur.push(c);
        }
        i += 1;
    }
    assert(s.subrange(i as int, s.len() as int) =~= Seq::<char>::empty());
    if cur.len() > 0 {
        let w = string_of(&cur);
        let ghost before = res.deep_view();
        res.push(w);
        assert(res.deep_view() =~= before + seq![cur@]);
    } else {
        assert(res.deep_view() + Seq::<Seq<char>>::empty() =~= res.deep_view());
    }
    res
}

/// Tells whether every character of `word` is numeric (or, with `marks`, `*` or `#`).
pub fn word_is_numeric(word: &str, marks: bool) -> (r: bool)
    ensures
        r == numeric_word(word@, marks),
{
    let chars = chars_of(word);
    let mut i: usize = 0;
    while i < chars.len()
        invariant
            i <= chars.len(),
            chars@ == word@,
            forall|j: int|
                0 <= j < i ==> #[trigger] numeric_char(chars@[j]) || (marks && (chars@[j] == '*'
                    || chars@[j] == '#')),
        decreases chars.len() - i,
    {
        let c = chars[i];
        let ok = (marks && (c == '*' || c == '#')) || char_is_numeric(c);
        if !ok {
            assert(!(numeric_char(word@[i as int]) || (marks && (word@[i as int] == '*'
                || word@[i as int] == '#'))));
            return false;
        }
        i += 1;
    }
    true
}

/// The words that `log_line` yields (see `line_words`).
pub fn words_of_line(log_line: &str, ignore_numeric: bool, marks: bool, skip: usize) -> (r: Vec<
    String,
>)
    ensures
        r.deep_view() == line_words(log_line@, ignore_numeric, marks, skip as int),
{
    let raw = split_line(log_line);
    let ghost rv = raw.deep_view();
    let mut words: Vec<String> = Vec::new();
    let mut skipped: usize = 0;
    let mut i: usize = 0;
    while i < raw.len()
        invariant
            i <= raw.len(),
            rv == raw.deep_view(),
            rv == split_words(log_line@),
            ({
                let k = kept_words(rv.subrange(0, i as int), ignore_numeric, marks);
                &&& skipped as int == if skip < k.len() {
                    skip as int
                } else {
                    k.len() as int
                }
                &&& words.deep_view() == k.subrange(skipped as int, k.len() as int)
            }),
        decreases raw.len() - i,
    {
        assert(rv.subrange(0, i as int + 1).drop_last() =~= rv.subrange(0, i as int));
        assert(rv[i as int] == raw[i as int]@);
        let ghost k = kept_words(rv.subrange(0, i as int), ignore_numeric, marks);
        assert(rv.subrange(0, i as int + 1).last() == rv[i as int]);
        if ignore_numeric && word_is_numeric(raw[i].as_str(), marks) {
        } else if skipped < skip {
            skipped += 1;
            assert(words.deep_view() =~= k.push(rv[i as int]).subrange(
                skipped as int,
                k.len() as int + 1,
            ));
        } else {
            let ghost before = words.deep_view();
            words.push(raw[i].clone());
            assert(words.deep_view() =~= before.push(rv[i as int]));
            assert(words.deep_view() =~= k.push(rv[i as int]).subrange(
                skipped as int,
                k.len() as int + 1,
            ));
        }
        i += 1;
    }
    assert(rv.subrange(0, i as int) =~= rv);
    words
}

} // verus!
