use vstd::prelude::*;
use crate::align::{align_step, earliest_match, merge_words};
use crate::logmap::best_walk;
use crate::store::{
    added, buckets_concat, consequent_matches, pushed, sorted_ids, Column, Filter, FilterStore,
    Index, Word, MAX_ITEMS,
};
use crate::text::{
    parse_bool, parse_usize, parsed_bool, parsed_usize, push_char, push_text, split_at_chars,
    split_pair, LoadError,
};
use crate::words::{line_words, numeric_word, split_line, split_words, word_is_numeric, words_of_line};

verus! {

/// Walks the sorted template ids, counting the run of each id; an id becomes a candidate the
/// first time its count reaches `t`.
pub open spec fn run_candidates(list: Seq<usize>, t: int, i: int, matches: int, prev: int, last_ins: int) -> Seq<usize>
    decreases list.len() - i,
{
    if i < 0 || i >= list.len() {
        Seq::empty()
    } else {
        let id = list[i] as int;
        if last_ins == id {
            run_candidates(list, t, i + 1, matches, prev, last_ins)
        } else {
            let m2 = if prev != id {
                1
            } else {
                matches + 1
            };
            if m2 >= t {
                seq![list[i]] + run_candidates(list, t, i + 1, 0, id, id)
            } else {
                run_candidates(list, t, i + 1, m2, id, last_ins)
            }
        }
    }
}

/// How many occurrences a candidate needs: `min_req - k`, less what a line shorter than
/// `min_req` lacks.
pub open spec fn required_matches(n_words: int, k: int, min_req: int) -> int {
    let extra = if n_words < min_req {
        min_req - n_words
    } else {
        0
    };
    min_req - k - extra
}

/// The candidate templates for `words`, ascending.
pub open spec fn min_req_candidates(index: Index, words: Seq<Word>, k: int, min_req: int) -> Seq<usize> {
    run_candidates(
        sorted_ids(buckets_concat(index, words)),
        required_matches(words.len() as int, k, min_req),
        0,
        0,
        -1,
        -1,
    )
}

/// The template that `words` match, or -1: the first candidate with the highest score, taken
/// where a line longer than `min_req` scores at least `min_req`, or a shorter one matches
/// with every word.
pub open spec fn min_req_best(filters: Seq<Filter>, index: Index, words: Seq<Word>, k: int, min_req: int) -> int {
    if filters.len() == 0 || words.len() == 0 {
        -1
    } else {
        let (b, m) = best_walk(filters, index, words, k, min_req_candidates(index, words, k, min_req), 0, -1, 0);
        if words.len() > min_req {
            if m >= min_req {
                b
            } else {
                -1
            }
        } else if words.len() == m {
            b
        } else {
            -1
        }
    }
}

/// The store after learning `words`: only a line of more than `min_req - k` words is learnt,
/// merged into the template it matches or made a new one.
pub open spec fn min_req_learned(
    filters: Seq<Filter>,
    index: Index,
    marker: Word,
    words: Seq<Word>,
    k: int,
    min_req: int,
) -> (Seq<Filter>, Index) {
    if words.len() > MAX_ITEMS || words.len() + k <= min_req {
        (filters, index)
    } else {
        let b = min_req_best(filters, index, words, k, min_req);
        if b >= 0 {
            merge_words(filters, index, words, b, marker, false)
        } else {
            added(filters, index, words)
        }
    }
}

/// The first position of `w` in `words`, or -1 (also for an empty word).
pub open spec fn word_position(w: Word, words: Seq<Word>, i: int) -> int
    decreases words.len() - i,
{
    if w.len() == 0 || i < 0 || i >= words.len() {
        -1
    } else if words[i] == w {
        i
    } else {
        word_position(w, words, i + 1)
    }
}

/// A decimal digit as a character.
pub open spec fn digit_char(d: int) -> char {
    if d == 0 {
        '0'
    } else if d == 1 {
        '1'
    } else if d == 2 {
        '2'
    } else if d == 3 {
        '3'
    } else if d == 4 {
        '4'
    } else if d == 5 {
        '5'
    } else if d == 6 {
        '6'
    } else if d == 7 {
        '7'
    } else if d == 8 {
        '8'
    } else {
        '9'
    }
}

/// `n` in decimal.
pub open spec fn decimal(n: nat) -> Seq<char>
    decreases n,
{
    if n < 10 {
        seq![digit_char(n as int)]
    } else {
        decimal(n / 10).push(digit_char((n % 10) as int))
    }
}

/// The alternatives of a column, each followed by a space.
pub open spec fn spaced(col: Column) -> Seq<char>
    decreases col.len(),
{
    if col.len() == 0 {
        Seq::empty()
    } else {
        spaced(col.drop_last()) + col.last() + seq![' ']
    }
}

/// The first `j` columns of a template, each on a line of its own.
pub open spec fn numbered_columns(f: Filter, j: int) -> Seq<char>
    decreases j,
{
    if j <= 0 {
        Seq::empty()
    } else {
        numbered_columns(f, j - 1) + seq!['\n'] + spaced(f[j - 1])
    }
}

/// The first `i` templates: for each, a line with its column count, then its columns.
pub open spec fn numbered_filters(fs: Seq<Filter>, i: int) -> Seq<char>
    decreases i,
{
    if i <= 0 {
        Seq::empty()
    } else {
        numbered_filters(fs, i - 1) + seq!['\n'] + decimal(fs[i - 1].len()) + numbered_columns(
            fs[i - 1],
            fs[i - 1].len() as int,
        )
    }
}

/// The templates as text: their count, then each template.
pub open spec fn numbered_text(fs: Seq<Filter>) -> Seq<char> {
    decimal(fs.len()) + numbered_filters(fs, fs.len() as int)
}

/// The words of a stored column line: cut at spaces.
pub open spec fn column_of_line(l: Seq<char>) -> Column {
    split_pair(l, Seq::empty(), ' ', ' ')
}

/// Reads `n` templates from the lines after line `pos`: each a line with its column count,
/// then one line per column. Gives the templates and the last line read, or the first fault.
pub open spec fn read_numbered(lines: Seq<Seq<char>>, pos: int, n: nat) -> Result<(Seq<Filter>, int), LoadError>
    decreases n,
{
    if n == 0 {
        Ok((Seq::empty(), pos))
    } else {
        match read_numbered(lines, pos, (n - 1) as nat) {
            Err(e) => Err(e),
            Ok((fs, p)) => {
                let q = p + 1;
                if q >= lines.len() {
                    Err(LoadError::TooFewLines(lines.len() as usize))
                } else {
                    match parsed_usize(lines[q]) {
                        None => Err(LoadError::NotANumber(q as usize)),
                        Some(c) => if q + c >= lines.len() {
                            Err(LoadError::TooFewLines(lines.len() as usize))
                        } else {
                            Ok((fs.push(Seq::new(c as nat, |j: int| column_of_line(lines[q + 1 + j]))), q + c))
                        },
                    }
                }
            },
        }
    }
}

/// The templates stored after `head` header lines: a line with their count, then each
/// template (see `read_numbered`).
pub open spec fn numbered_of(lines: Seq<Seq<char>>, head: int) -> Result<Seq<Filter>, LoadError> {
    if lines.len() < head + 1 {
        Err(LoadError::TooFewLines(lines.len() as usize))
    } else {
        match parsed_usize(lines[head]) {
            None => Err(LoadError::NotANumber(head as usize)),
            Some(n) => match read_numbered(lines, head, n as nat) {
                Err(e) => Err(e),
                Ok((fs, p)) => Ok(fs),
            },
        }
    }
}

/// The store after appending each of `fs` in turn (see `pushed`).
pub open spec fn pushed_all(filters: Seq<Filter>, index: Index, fs: Seq<Filter>, marker: Word) -> (Seq<Filter>, Index)
    decreases fs.len(),
{
    if fs.len() == 0 {
        (filters, index)
    } else {
        let (f, x) = pushed_all(filters, index, fs.drop_last(), marker);
        pushed(f, x, fs.last(), marker)
    }
}

/// The settings that a header gives: minimum matches, allowed new alternatives, the optional
/// marker, whether numeric words are dropped, how many leading words are dropped; the first
/// fault found otherwise.
pub open spec fn min_req_header_of(lines: Seq<Seq<char>>) -> Result<(usize, usize, Seq<char>, bool, usize), LoadError> {
    if lines.len() < 6 {
        Err(LoadError::TooFewLines(lines.len() as usize))
    } else {
        match parsed_usize(lines[0]) {
            None => Err(LoadError::NotANumber(0)),
            Some(m) => match parsed_usize(lines[1]) {
                None => Err(LoadError::NotANumber(1)),
                Some(k) => if lines[2].len() == 0 {
                    Err(LoadError::EmptyMarker(2))
                } else {
                    match parsed_bool(lines[3]) {
                        None => Err(LoadError::NotABool(3)),
                        Some(b) => match parsed_usize(lines[4]) {
                            None => Err(LoadError::NotANumber(4)),
                            Some(c) => Ok((m, k, lines[2], b, c)),
                        },
                    }
                },
            },
        }
    }
}

/// A fault in reading the first `m` templates is a fault in reading more.
pub proof fn lemma_read_numbered_err(lines: Seq<Seq<char>>, pos: int, m: nat, n: nat)
    requires
        m <= n,
        read_numbered(lines, pos, m) is Err,
    ensures
        read_numbered(lines, pos, n) == read_numbered(lines, pos, m),
    decreases n,
{
    if m < n {
        lemma_read_numbered_err(lines, pos, m, (n - 1) as nat);
    }
}

/// The text of each line.
pub open spec fn lines_text(lines: Seq<&str>) -> Seq<Seq<char>> {
    Seq::new(lines.len(), |i: int| lines[i]@)
}

/// Appends `n` in decimal.
pub fn push_decimal(out: &mut String, n: usize)
    ensures
        final(out)@ == old(out)@ + decimal(n as nat),
    decreases n,
{
    if n >= 10 {
        push_decimal(out, n / 10);
    }
    let d = n % 10;
    let c = if d == 0 {
        '0'
    } else if d == 1 {
        '1'
    } else if d == 2 {
        '2'
    } else if d == 3 {
        '3'
    } else if d == 4 {
        '4'
    } else if d == 5 {
        '5'
    } else if d == 6 {
        '6'
    } else if d == 7 {
        '7'
    } else if d == 8 {
        '8'
    } else {
        '9'
    };
    push_char(out, c);
    if n < 10 {
        assert(final(out)@ =~= old(out)@ + decimal(n as nat));
    } else {
        assert(final(out)@ =~= old(out)@ + decimal(n as nat));
    }
}

/// Templates learnt from log lines, with the settings that shape the learning; lines are
/// compared by a minimum number of matching words.
pub struct LogFilters {
    /// The templates, the reverse index and the optional marker.
    pub store: FilterStore,
    /// How many words must match for lines to count as alike.
    pub min_req_consequent_matches: usize,
    /// How many words of a line may go unmatched against a template.
    pub max_allowed_new_alternatives: usize,
    /// Whether words made only of digits are dropped from lines.
    pub ignore_numeric_words: bool,
    /// How many leading words of a line are dropped.
    pub ignore_first_columns: usize,
}

impl LogFilters {
    pub open spec fn wf(&self) -> bool {
        self.store.wf()
    }

    pub open spec fn filters_view(&self) -> Seq<Filter> {
        self.store.filters_view()
    }

    pub open spec fn index_view(&self) -> Index {
        self.store.index_view()
    }

    pub open spec fn marker(&self) -> Word {
        self.store.marker()
    }

    /// The words that this store reads from a line.
    pub open spec fn words_of(&self, line: Seq<char>) -> Seq<Word> {
        line_words(line, self.ignore_numeric_words, false, self.ignore_first_columns as int)
    }

    /// An empty store: no templates, marker `.`, three matches required, no new alternatives
    /// allowed, numeric words dropped, two leading words dropped.
    pub fn new() -> (r: Self)
        ensures
            r.wf(),
            r.filters_view() == Seq::<Filter>::empty(),
            r.index_view() == Map::<Word, Seq<usize>>::empty(),
            r.marker() == seq!['.'],
            r.min_req_consequent_matches == 3,
            r.max_allowed_new_alternatives == 0,
            r.ignore_numeric_words,
            r.ignore_first_columns == 2,
    {
        let marker = String::from_str(".");
        proof {
            reveal_strlit(".");
        }
        LogFilters {
            store: FilterStore::new(marker),
            min_req_consequent_matches: 3,
            max_allowed_new_alternatives: 0,
            ignore_numeric_words: true,
            ignore_first_columns: 2,
        }
    }

    /// Cuts a line into its words at the delimiters ` /,.:"'(){}[]`, empty words dropped.
    pub fn _line_split(log_line: &str) -> (r: Vec<String>)
        ensures
            r.deep_view() == split_words(log_line@),
    {
        split_line(log_line)
    }

    /// The words of a line as this store reads them (see `line_words`).
    pub fn _line_to_words(&self, log_line: &str) -> (r: Vec<String>)
        ensures
            r.deep_view() == self.words_of(log_line@),
    {
        words_of_line(log_line, self.ignore_numeric_words, false, self.ignore_first_columns)
    }

    /// Tells whether `word` is made only of numeric characters.
    pub fn _is_word_only_numeric(&self, word: &str) -> (r: bool)
        ensures
            r == numeric_word(word@, false),
    {
        word_is_numeric(word, false)
    }

    /// The first position of `word` in `words`, or -1 (also for an empty word).
    pub fn _get_word_index_in_words(&self, word: &str, words: &Vec<String>) -> (r: isize)
        requires
            words.len() <= MAX_ITEMS,
        ensures
            r as int == word_position(word@, words.deep_view(), 0),
    {
        let w = word.to_owned();
        if words.len() == 0 || w.as_str().is_empty() {
            return -1;
        }
        let ghost wv = words.deep_view();
        let mut i: usize = 0;
        while i < words.len()
            invariant
                i <= words.len(),
                words.len() <= MAX_ITEMS,
                wv == words.deep_view(),
                w@ == word@,
                w@.len() > 0,
                word_position(word@, wv, 0) == word_position(word@, wv, i as int),
            decreases words.len() - i,
        {
            assert(wv[i as int] == words[i as int]@);
            if words[i] == w {
                return i as isize;
            }
            i += 1;
        }
        -1
    }

    /// Tells whether template `filter_index` holds `word` in some column.
    pub fn _is_word_in_filter(&self, word: &str, filter_index: usize) -> (r: bool)
        ensures
            r == crate::store::word_in_filter(self.filters_view(), filter_index as int, word@),
    {
        self.store.is_word_in_filter(&word.to_owned(), filter_index)
    }

    /// Lists template `filter_index` in the bucket of `word` where the template holds it.
    pub fn _update_hash(&mut self, word: &str, filter_index: usize)
        requires
            old(self).wf(),
        ensures
            final(self).wf(),
            final(self).filters_view() == old(self).filters_view(),
            final(self).marker() == old(self).marker(),
            final(self).index_view() == crate::store::hash_update(
                old(self).filters_view(),
                old(self).index_view(),
                word@,
                filter_index,
            ),
    {
        self.store.update_hash(&word.to_owned(), filter_index)
    }

    /// Appends the template made of `words` (see `added`).
    pub fn _add_filter(&mut self, words: Vec<String>)
        requires
            old(self).wf(),
        ensures
            final(self).wf(),
            final(self).marker() == old(self).marker(),
            (final(self).filters_view(), final(self).index_view()) == added(
                old(self).filters_view(),
                old(self).index_view(),
                words.deep_view(),
            ),
    {
        self.store.add_filter(words)
    }

    /// The first column of template `filter_index` from `start_from_word` on that holds
    /// `word`, or -1 (see `word_index_in_filter`).
    pub fn _get_word_index_in_filter(&self, word: &str, filter_index: usize, start_from_word: usize) -> (r: isize)
        requires
            self.wf(),
        ensures
            r as int == crate::store::word_index_in_filter(
                self.filters_view(),
                self.index_view(),
                word@,
                filter_index as int,
                start_from_word as int,
            ),
    {
        self.store.get_word_index_in_filter(&word.to_owned(), filter_index, start_from_word)
    }

    /// The score of template `filter_index` for `words` (see `consequent_matches`).
    pub fn _count_consequent_matches(&self, words: &Vec<String>, filter_index: usize) -> (r: usize)
        requires
            self.wf(),
            words.len() <= MAX_ITEMS,
        ensures
            r as int == consequent_matches(
                self.filters_view(),
                self.index_view(),
                words.deep_view(),
                filter_index as int,
                self.max_allowed_new_alternatives as int,
            ),
    {
        self.store.count_consequent_matches(words, filter_index, self.max_allowed_new_alternatives)
    }

    /// The template ids in the buckets of `words`, one per word that lists it, ascending.
    pub fn _get_sorted_filter_indexes_containing_words(&self, words: &Vec<String>) -> (r: Vec<usize>)
        ensures
            r@ == sorted_ids(buckets_concat(self.index_view(), words.deep_view())),
    {
        self.store.get_sorted_filter_indexes_containing_words(words)
    }

    /// The candidate templates for `words`, ascending (see `min_req_candidates`).
    pub fn _get_filter_indexes_with_min_req_matches(&self, words: &Vec<String>) -> (r: Vec<usize>)
        ensures
            r@ == min_req_candidates(
                self.index_view(),
                words.deep_view(),
                self.max_allowed_new_alternatives as int,
                self.min_req_consequent_matches as int,
            ),
    {
        let list = self._get_sorted_filter_indexes_containing_words(words);
        let k = self.max_allowed_new_alternatives;
        let min_req = self.min_req_consequent_matches;
        let extra: usize = if words.len() < min_req {
            min_req - words.len()
        } else {
            0
        };
        let ghost t = required_matches(words.len() as int, k as int, min_req as int);
        let ghost target = min_req_candidates(self.index_view(), words.deep_view(), k as int, min_req as int);
        let mut res: Vec<usize> = Vec::new();
        let mut matches: usize = 0;
        let mut prev: usize = 0;
        let mut has_prev = false;
        let mut last_ins: usize = 0;
        let mut has_last = false;
        let mut i: usize = 0;
        while i < list.len()
            invariant
                i <= list.len(),
                matches <= i,
                t == min_req as int - k as int - extra as int,
                res@ + run_candidates(
                    list@,
                    t,
                    i as int,
                    matches as int,
                    if has_prev { prev as int } else { -1 },
                    if has_last { last_ins as int } else { -1 },
                ) == target,
            decreases list.len() - i,
        {
            let id = list[i];
            if !(has_last && last_ins == id) {
                if !(has_prev && prev == id) {
                    matches = 1;
                    prev = id;
                    has_prev = true;
                } else {
                    matches += 1;
                }
                let reached = if k >= min_req {
                    true
                } else {
                    matches >= min_req - k || (min_req - k) - matches <= extra
                };
                if reached {
                    matches = 0;
                    let ghost before = res@;
                    res.push(id);
                    assert(res@ =~= before + seq![id]);
                    last_ins = id;
                    has_last = true;
                }
            }
            i += 1;
        }
        assert(res@ + Seq::<usize>::empty() =~= res@);
        res
    }

    /// The template that `words` match, or -1 (see `min_req_best`).
    pub fn _find_best_matching_filter_index(&self, words: &Vec<String>) -> (r: isize)
        requires
            self.wf(),
            words.len() <= MAX_ITEMS,
        ensures
            r as int == min_req_best(
                self.filters_view(),
                self.index_view(),
                words.deep_view(),
                self.max_allowed_new_alternatives as int,
                self.min_req_consequent_matches as int,
            ),
    {
        if self.store.filters.len() == 0 || words.len() == 0 {
            return -1;
        }
        let k = self.max_allowed_new_alternatives;
        let cands = self._get_filter_indexes_with_min_req_matches(words);
        let ghost fv = self.filters_view();
        let ghost iv = self.index_view();
        let ghost wv = words.deep_view();
        let mut best: isize = -1;
        let mut max: usize = 0;
        let mut i: usize = 0;
        while i < cands.len()
            invariant
                i <= cands.len(),
                self.wf(),
                words.len() <= MAX_ITEMS,
                k == self.max_allowed_new_alternatives,
                fv == self.filters_view(),
                iv == self.index_view(),
                wv == words.deep_view(),
                -1 <= best < self.store.filters.len(),
                best_walk(fv, iv, wv, k as int, cands@, 0, -1, 0) == best_walk(fv, iv, wv, k as int, cands@, i as int, best as int, max as int),
            decreases cands.len() - i,
        {
            let c = cands[i];
            let sc = self._count_consequent_matches(words, c);
            if sc > max {
                max = sc;
                best = c as isize;
            }
            i += 1;
        }
        if words.len() > self.min_req_consequent_matches {
            if max >= self.min_req_consequent_matches {
                return best;
            }
        } else if words.len() == max {
            return best;
        }
        -1
    }

    /// Tells whether the words of `log_line` match a template; the store is left as it is.
    pub fn is_line_known(&mut self, log_line: &str) -> (r: bool)
        requires
            old(self).wf(),
        ensures
            *final(self) == *old(self),
            r == (old(self).words_of(log_line@).len() <= MAX_ITEMS && min_req_best(
                old(self).filters_view(),
                old(self).index_view(),
                old(self).words_of(log_line@),
                old(self).max_allowed_new_alternatives as int,
                old(self).min_req_consequent_matches as int,
            ) >= 0),
    {
        let words = self._line_to_words(log_line);
        if words.len() > MAX_ITEMS {
            return false;
        }
        self._find_best_matching_filter_index(&words) >= 0
    }

    /// Learns a line of more than `min_req - k` words: merged into the template it matches, or
    /// made a new one (see `min_req_learned`).
    pub fn learn_line(&mut self, log_line: &str)
        requires
            old(self).wf(),
        ensures
            final(self).wf(),
            final(self).marker() == old(self).marker(),
            final(self).min_req_consequent_matches == old(self).min_req_consequent_matches,
            final(self).max_allowed_new_alternatives == old(self).max_allowed_new_alternatives,
            final(self).ignore_numeric_words == old(self).ignore_numeric_words,
            final(self).ignore_first_columns == old(self).ignore_first_columns,
            (final(self).filters_view(), final(self).index_view()) == min_req_learned(
                old(self).filters_view(),
                old(self).index_view(),
                old(self).marker(),
                old(self).words_of(log_line@),
                old(self).max_allowed_new_alternatives as int,
                old(self).min_req_consequent_matches as int,
            ),
    {
        let words = self._line_to_words(log_line);
        if words.len() > MAX_ITEMS {
            return;
        }
        let k = self.max_allowed_new_alternatives;
        let min_req = self.min_req_consequent_matches;
        if k > min_req || words.len() > min_req - k {
            let matched_filter_index = self._find_best_matching_filter_index(&words);
            if matched_filter_index >= 0 {
                self.store.merge(&words, matched_filter_index as usize, false);
            } else {
                self.store.add_filter(words);
            }
        }
    }

    /// Merges `words` into template `filter_index` (see `merge_words`).
    pub fn _update_filter(&mut self, words: Vec<String>, filter_index: usize)
        requires
            old(self).wf(),
            words.len() <= MAX_ITEMS,
        ensures
            final(self).wf(),
            final(self).marker() == old(self).marker(),
            (final(self).filters_view(), final(self).index_view()) == merge_words(
                old(self).filters_view(),
                old(self).index_view(),
                words.deep_view(),
                filter_index as int,
                old(self).marker(),
                false,
            ),
    {
        self.store.merge(&words, filter_index, false)
    }

    /// One alignment step (see `align_step`).
    pub fn _normalise_lengths_before_first_match(
        &mut self,
        words: &Vec<String>,
        filter_index: usize,
        word_start_index: usize,
        filter_start_index: usize,
    ) -> (r: (isize, isize))
        requires
            old(self).wf(),
            words.len() <= MAX_ITEMS,
            filter_index < old(self).store.filters.len() ==> old(self).store.filters[filter_index as int].len()
                + words.len() <= MAX_ITEMS,
        ensures
            final(self).wf(),
            final(self).marker() == old(self).marker(),
            (final(self).filters_view(), final(self).index_view(), r.0 as int, r.1 as int)
                == align_step(
                old(self).filters_view(),
                old(self).index_view(),
                words.deep_view(),
                filter_index as int,
                old(self).marker(),
                word_start_index as int,
                filter_start_index as int,
            ),
    {
        self.store.normalise_lengths_before_first_match(words, filter_index, word_start_index, filter_start_index)
    }

    /// The earliest matching word and its column (see `earliest_match`).
    pub fn _get_indexes_of_earliest_matching_word(
        &self,
        words: &Vec<String>,
        filter_index: usize,
        word_start_index: usize,
        filter_start_index: usize,
    ) -> (r: (isize, isize))
        requires
            self.wf(),
            words.len() <= MAX_ITEMS,
        ensures
            (r.0 as int, r.1 as int) == earliest_match(
                self.filters_view(),
                self.index_view(),
                words.deep_view(),
                filter_index as int,
                word_start_index as int,
                filter_start_index as int,
            ),
    {
        self.store.get_indexes_of_earliest_matching_word(words, filter_index, word_start_index, filter_start_index)
    }
    /// The templates as text: their count, then for each its column count and one line per
    /// column with its alternatives, each followed by a space (see `numbered_text`).
    pub fn _to_string(&self) -> (r: String)
        ensures
            r@ == numbered_text(self.filters_view()),
    {
        let ghost fv = self.filters_view();
        let mut out = String::new();
        push_decimal(&mut out, self.store.filters.len());
        let ghost head = out@;
        let mut i: usize = 0;
        while i < self.store.filters.len()
            invariant
                i <= self.store.filters.len(),
                fv == self.filters_view(),
                head == decimal(fv.len()),
                out@ == head + numbered_filters(fv, i as int),
            decreases self.store.filters.len() - i,
        {
            let filter = &self.store.filters[i];
            let ghost f = fv[i as int];
            assert(f == filter.deep_view());
            push_char(&mut out, '\n');
            push_decimal(&mut out, filter.len());
            let ghost start = out@;
            let mut j: usize = 0;
            while j < filter.len()
                invariant
                    j <= filter.len(),
                    f == filter.deep_view(),
                    out@ == start + numbered_columns(f, j as int),
                decreases filter.len() - j,
            {
                let column = &filter[j];
                let ghost c = f[j as int];
                assert(c == column.deep_view());
                push_char(&mut out, '\n');
                let ghost col_start = out@;
                let mut a: usize = 0;
                while a < column.len()
                    invariant
                        a <= column.len(),
                        c == column.deep_view(),
                        out@ == col_start + spaced(c.subrange(0, a as int)),
                    decreases column.len() - a,
                {
                    assert(c.subrange(0, a as int + 1).drop_last() =~= c.subrange(0, a as int));
                    assert(c.subrange(0, a as int + 1).last() == column[a as int]@);
                    push_text(&mut out, column[a].as_str());
                    push_char(&mut out, ' ');
                    assert(out@ =~= col_start + spaced(c.subrange(0, a as int + 1)));
                    a += 1;
                }
                assert(c.subrange(0, a as int) =~= c);
                assert(out@ =~= start + numbered_columns(f, j as int + 1));
                j += 1;
            }
            assert(out@ =~= head + numbered_filters(fv, i as int + 1));
            i += 1;
        }
        assert(out@ =~= numbered_text(fv));
        out
    }

    /// Reads the settings from the header lines (see `min_req_header_of`); the store comes back
    /// without templates.
    pub fn _load_parameters(log_filters_lines: &[&str]) -> (r: Result<LogFilters, LoadError>)
        ensures
            match r {
                Ok(lf) => {
                    &&& lf.wf()
                    &&& min_req_header_of(lines_text(log_filters_lines@)) == Ok::<(usize, usize, Seq<char>, bool, usize), LoadError>((
                        lf.min_req_consequent_matches,
                        lf.max_allowed_new_alternatives,
                        lf.marker(),
                        lf.ignore_numeric_words,
                        lf.ignore_first_columns,
                    ))
                    &&& lf.filters_view() == Seq::<Filter>::empty()
                    &&& lf.index_view() == Map::<Word, Seq<usize>>::empty()
                },
                Err(e) => min_req_header_of(lines_text(log_filters_lines@)) == Err::<(usize, usize, Seq<char>, bool, usize), LoadError>(e),
            },
    {
        let ghost lv = lines_text(log_filters_lines@);
        if log_filters_lines.len() < 6 {
            return Err(LoadError::TooFewLines(log_filters_lines.len()));
        }
        assert(lv[0] == log_filters_lines@[0]@ && lv[1] == log_filters_lines@[1]@);
        assert(lv[2] == log_filters_lines@[2]@ && lv[3] == log_filters_lines@[3]@);
        assert(lv[4] == log_filters_lines@[4]@);
        let min_req_consequent_matches = match parse_usize(log_filters_lines[0]) {
            None => {
                return Err(LoadError::NotANumber(0));
            },
            Some(v) => v,
        };
        let max_allowed_new_alternatives = match parse_usize(log_filters_lines[1]) {
            None => {
                return Err(LoadError::NotANumber(1));
            },
            Some(v) => v,
        };
        let marker = log_filters_lines[2].to_owned();
        if marker.as_str().is_empty() {
            return Err(LoadError::EmptyMarker(2));
        }
        let ignore_numeric_words = match parse_bool(log_filters_lines[3]) {
            None => {
                return Err(LoadError::NotABool(3));
            },
            Some(v) => v,
        };
        let ignore_first_columns = match parse_usize(log_filters_lines[4]) {
            None => {
                return Err(LoadError::NotANumber(4));
            },
            Some(v) => v,
        };
        Ok(LogFilters {
            store: FilterStore::new(marker),
            min_req_consequent_matches,
            max_allowed_new_alternatives,
            ignore_numeric_words,
            ignore_first_columns,
        })
    }

    /// Reads the templates stored after `number_of_head_options` header lines (see
    /// `numbered_of`) and appends them; on a fault nothing is appended.
    pub fn _from_str_lines(&mut self, log_filters_lines: &[&str], number_of_head_options: usize) -> (r: Result<(), LoadError>)
        requires
            old(self).wf(),
        ensures
            final(self).wf(),
            final(self).marker() == old(self).marker(),
            final(self).min_req_consequent_matches == old(self).min_req_consequent_matches,
            final(self).max_allowed_new_alternatives == old(self).max_allowed_new_alternatives,
            final(self).ignore_numeric_words == old(self).ignore_numeric_words,
            final(self).ignore_first_columns == old(self).ignore_first_columns,
            match numbered_of(lines_text(log_filters_lines@), number_of_head_options as int) {
                Ok(fs) => r is Ok && (final(self).filters_view(), final(self).index_view()) == pushed_all(
                    old(self).filters_view(),
                    old(self).index_view(),
                    fs,
                    old(self).marker(),
                ),
                Err(e) => r == Err::<(), LoadError>(e) && final(self).filters_view() == old(self).filters_view()
                    && final(self).index_view() == old(self).index_view(),
            },
    {
        let ghost lv = lines_text(log_filters_lines@);
        let head = number_of_head_options;
        if log_filters_lines.len() <= head {
            return Err(LoadError::TooFewLines(log_filters_lines.len()));
        }
        assert(lv[head as int] == log_filters_lines@[head as int]@);
        let number_of_filters = match parse_usize(log_filters_lines[head]) {
            None => {
                return Err(LoadError::NotANumber(head));
            },
            Some(v) => v,
        };
        let mut read: Vec<Vec<Vec<String>>> = Vec::new();
        assert(read.deep_view() =~= Seq::<Filter>::empty());
        let mut p: usize = head;
        let mut i: usize = 0;
        while i < number_of_filters
            invariant
                i <= number_of_filters,
                p < log_filters_lines.len(),
                *self == *old(self),
                self.wf(),
                head < lv.len(),
                head == number_of_head_options,
                parsed_usize(lv[head as int]) == Some(number_of_filters),
                lv == lines_text(log_filters_lines@),
                read_numbered(lv, head as int, i as nat) == Ok::<(Seq<Filter>, int), LoadError>((read.deep_view(), p as int)),
            decreases number_of_filters - i,
        {
            let q = p + 1;
            if q >= log_filters_lines.len() {
                proof {
                    assert(read_numbered(lv, head as int, (i + 1) as nat) == Err::<(Seq<Filter>, int), LoadError>(LoadError::TooFewLines(log_filters_lines.len())));
                    lemma_read_numbered_err(lv, head as int, (i + 1) as nat, number_of_filters as nat);
                    assert(numbered_of(lv, head as int) == Err::<Seq<Filter>, LoadError>(LoadError::TooFewLines(log_filters_lines.len())));
                }
                return Err(LoadError::TooFewLines(log_filters_lines.len()));
            }
            assert(lv[q as int] == log_filters_lines@[q as int]@);
            let c = match parse_usize(log_filters_lines[q]) {
                None => {
                    proof {
                        assert(read_numbered(lv, head as int, (i + 1) as nat) == Err::<(Seq<Filter>, int), LoadError>(LoadError::NotANumber(q)));
                        lemma_read_numbered_err(lv, head as int, (i + 1) as nat, number_of_filters as nat);
                        assert(numbered_of(lv, head as int) == Err::<Seq<Filter>, LoadError>(LoadError::NotANumber(q)));
                    }
                    return Err(LoadError::NotANumber(q));
                },
                Some(v) => v,
            };
            if c >= log_filters_lines.len() - q {
                proof {
                    lemma_read_numbered_err(lv, head as int, (i + 1) as nat, number_of_filters as nat);
                }
                return Err(LoadError::TooFewLines(log_filters_lines.len()));
            }
            let ghost cols_spec = Seq::new(c as nat, |j: int| column_of_line(lv[q + 1 + j]));
            let mut cols: Vec<Vec<String>> = Vec::new();
            let mut j: usize = 0;
            while j < c
                invariant
                    j <= c,
                    q + c < log_filters_lines.len(),
                    lv == lines_text(log_filters_lines@),
                    cols_spec == Seq::new(c as nat, |x: int| column_of_line(lv[q + 1 + x])),
                    cols.deep_view() == cols_spec.subrange(0, j as int),
                decreases c - j,
            {
                assert(lv[q + 1 + j] == log_filters_lines@[q + 1 + j as int]@);
                let col = split_at_chars(log_filters_lines[q + 1 + j], ' ', ' ');
                assert(col.deep_view() == cols_spec[j as int]);
                let ghost before = cols.deep_view();
                cols.push(col);
                assert(cols.deep_view() =~= before.push(cols_spec[j as int]));
                assert(cols.deep_view() =~= cols_spec.subrange(0, j as int + 1));
                j += 1;
            }
            assert(cols_spec.subrange(0, j as int) =~= cols_spec);
            let ghost before_read = read.deep_view();
            read.push(cols);
            assert(read.deep_view() =~= before_read.push(cols_spec));
            p = q + c;
            i += 1;
        }
        let ghost fsv = read.deep_view();
        let ghost f0 = self.filters_view();
        let ghost x0 = self.index_view();
        let ghost marker = self.marker();
        let mut t: usize = 0;
        while t < read.len()
            invariant
                t <= read.len(),
                fsv.len() == read.len(),
                forall|x: int| t <= x < read.len() ==> #[trigger] read[x].deep_view() == fsv[x],
                self.wf(),
                marker == self.marker(),
                self.min_req_consequent_matches == old(self).min_req_consequent_matches,
                self.max_allowed_new_alternatives == old(self).max_allowed_new_alternatives,
                self.ignore_numeric_words == old(self).ignore_numeric_words,
                self.ignore_first_columns == old(self).ignore_first_columns,
                (self.filters_view(), self.index_view()) == pushed_all(f0, x0, fsv.subrange(0, t as int), marker),
            decreases read.len() - t,
        {
            assert(fsv.subrange(0, t as int + 1).drop_last() =~= fsv.subrange(0, t as int));
            assert(fsv.subrange(0, t as int + 1).last() == read[t as int].deep_view());
            let ghost before = read@;
            let mut filter: Vec<Vec<String>> = Vec::new();
            read.set_and_swap(t, &mut filter);
            self.store.push_filter(filter);
            t += 1;
        }
        assert(fsv.subrange(0, t as int) =~= fsv);
        Ok(())
    }
}

} // verus!
