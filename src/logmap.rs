use vstd::prelude::*;
use crate::align::{align_step, earliest_match, merge_words};
use crate::store::{
    added, buckets_concat, consequent_matches, count_optional, lemma_sorted_ids_bounded,
    optional_count, sorted_ids, Filter, FilterStore, Index, Word, MAX_ITEMS,
};
use crate::text::{
    filters_text, filters_to_string, parse_bool, parse_bracket_line, parse_usize, parsed_bool,
    parsed_bracket_line, parsed_usize, LoadError,
};
use crate::store::pushed;
use crate::words::{line_words, numeric_word, split_line, split_words, word_is_numeric, words_of_line};

verus! {

/// Walks the sorted template ids, counting the run of each id; an id becomes a candidate the
/// first time its count reaches both `n_words - k` and its column count less `k` and its
/// optional columns.
pub open spec fn candidate_walk(
    filters: Seq<Filter>,
    marker: Word,
    list: Seq<usize>,
    n_words: int,
    k: int,
    i: int,
    matches: int,
    opt: int,
    prev: int,
    last_ins: int,
) -> Seq<usize>
    decreases list.len() - i,
{
    if i < 0 || i >= list.len() {
        Seq::empty()
    } else {
        let id = list[i] as int;
        if last_ins == id {
            candidate_walk(filters, marker, list, n_words, k, i + 1, matches, opt, prev, last_ins)
        } else {
            let m2 = if prev != id {
                1
            } else {
                matches + 1
            };
            let o2 = if prev != id {
                optional_count(filters[id], marker)
            } else {
                opt
            };
            if m2 >= n_words - k && m2 >= filters[id].len() - k - o2 {
                seq![list[i]] + candidate_walk(filters, marker, list, n_words, k, i + 1, 0, o2, id, id)
            } else {
                candidate_walk(filters, marker, list, n_words, k, i + 1, m2, o2, id, last_ins)
            }
        }
    }
}

/// The candidate templates for `words`, ascending.
pub open spec fn candidates(
    filters: Seq<Filter>,
    index: Index,
    marker: Word,
    words: Seq<Word>,
    k: int,
) -> Seq<usize> {
    candidate_walk(
        filters,
        marker,
        sorted_ids(buckets_concat(index, words)),
        words.len() as int,
        k,
        0,
        0,
        0,
        -1,
        -1,
    )
}

/// Over the candidates from `i` on: the first one with the highest score above `max`, and
/// that score.
pub open spec fn best_walk(
    filters: Seq<Filter>,
    index: Index,
    words: Seq<Word>,
    k: int,
    cands: Seq<usize>,
    i: int,
    best: int,
    max: int,
) -> (int, int)
    decreases cands.len() - i,
{
    if i < 0 || i >= cands.len() {
        (best, max)
    } else {
        let sc = consequent_matches(filters, index, words, cands[i] as int, k);
        if sc > max {
            best_walk(filters, index, words, k, cands, i + 1, cands[i] as int, sc)
        } else {
            best_walk(filters, index, words, k, cands, i + 1, best, max)
        }
    }
}

/// The template that `words` match, or -1: the first candidate with the highest score, taken
/// only if that score reaches `words.len() - k`.
pub open spec fn best_match(
    filters: Seq<Filter>,
    index: Index,
    marker: Word,
    words: Seq<Word>,
    k: int,
) -> int {
    if filters.len() == 0 || words.len() == 0 {
        -1
    } else {
        let (b, m) = best_walk(filters, index, words, k, candidates(filters, index, marker, words, k), 0, -1, 0);
        if m >= words.len() - k {
            b
        } else {
            -1
        }
    }
}

/// The store after learning `words`: merged into the template they match, or made a new one.
pub open spec fn learned(
    filters: Seq<Filter>,
    index: Index,
    marker: Word,
    words: Seq<Word>,
    k: int,
) -> (Seq<Filter>, Index) {
    if words.len() > MAX_ITEMS {
        (filters, index)
    } else {
        let b = best_match(filters, index, marker, words, k);
        if b >= 0 {
            merge_words(filters, index, words, b, marker, true)
        } else {
            added(filters, index, words)
        }
    }
}

/// Whether `words` match a template (a line of more than `MAX_ITEMS` words matches none).
pub open spec fn known(filters: Seq<Filter>, index: Index, marker: Word, words: Seq<Word>, k: int) -> bool {
    words.len() <= MAX_ITEMS && best_match(filters, index, marker, words, k) >= 0
}

/// The settings that a header of stored templates gives: lines for the allowed new
/// alternatives, the optional marker, whether numeric words are dropped, and how many leading
/// words are dropped; the first fault found otherwise.
pub open spec fn header_of(lines: Seq<Seq<char>>) -> Result<(usize, Seq<char>, bool, usize), LoadError> {
    if lines.len() < 5 {
        Err(LoadError::TooFewLines(lines.len() as usize))
    } else {
        match parsed_usize(lines[0]) {
            None => Err(LoadError::NotANumber(0)),
            Some(k) => if lines[1].len() == 0 {
                Err(LoadError::EmptyMarker(1))
            } else {
                match parsed_bool(lines[2]) {
                    None => Err(LoadError::NotABool(2)),
                    Some(b) => match parsed_usize(lines[3]) {
                        None => Err(LoadError::NotANumber(3)),
                        Some(c) => Ok((k, lines[1], b, c)),
                    },
                }
            },
        }
    }
}

/// The store after reading the template lines: each line that holds a template adds it.
pub open spec fn loaded(filters: Seq<Filter>, index: Index, marker: Word, lines: Seq<Seq<char>>) -> (
    Seq<Filter>,
    Index,
)
    decreases lines.len(),
{
    if lines.len() == 0 {
        (filters, index)
    } else {
        let (f, x) = loaded(filters, index, marker, lines.drop_last());
        match parsed_bracket_line(lines.last()) {
            Some(nf) => pushed(f, x, nf, marker),
            None => (f, x),
        }
    }
}

/// The text of each line.
pub open spec fn lines_view(lines: Seq<&str>) -> Seq<Seq<char>> {
    Seq::new(lines.len(), |i: int| lines[i]@)
}

/// Templates learnt from log lines, with the settings that shape the learning.
pub struct LogFilters {
    /// The templates, the reverse index and the optional marker.
    pub store: FilterStore,
    /// How many words of a line may go unmatched against a template.
    pub max_allowed_new_alternatives: usize,
    /// Whether words made only of digits (and `*`, `#`) are dropped from lines.
    pub ignore_numeric_words: bool,
    /// How many leading words of a line are dropped.
    pub ignore_first_columns: usize,
}

impl LogFilters {
    pub open spec fn wf(&self) -> bool {
        self.store.wf()
    }

    pub open spec fn filters_view(&self) -> Seq<Filter> {
        self.store.filters_view()
    }

    pub open spec fn index_view(&self) -> Index {
        self.store.index_view()
    }

    pub open spec fn marker(&self) -> Word {
        self.store.marker()
    }

    /// The words that this store reads from a line.
    pub open spec fn words_of(&self, line: Seq<char>) -> Seq<Word> {
        line_words(line, self.ignore_numeric_words, true, self.ignore_first_columns as int)
    }

    /// An empty store: no templates, marker `.`, no new alternatives allowed, numeric words
    /// dropped, two leading words dropped.
    pub fn new() -> (r: Self)
        ensures
            r.wf(),
            r.filters_view() == Seq::<Filter>::empty(),
            r.index_view() == Map::<Word, Seq<usize>>::empty(),
            r.marker() == seq!['.'],
            r.max_allowed_new_alternatives == 0,
            r.ignore_numeric_words,
            r.ignore_first_columns == 2,
    {
        let marker = String::from_str(".");
        proof {
            reveal_strlit(".");
        }
        LogFilters {
            store: FilterStore::new(marker),
            max_allowed_new_alternatives: 0,
            ignore_numeric_words: true,
            ignore_first_columns: 2,
        }
    }

    /// Cuts a line into its words at the delimiters ` /,.:"'(){}[]`, empty words dropped.
    pub fn line_split(log_line: &str) -> (r: Vec<String>)
        ensures
            r.deep_view() == split_words(log_line@),
    {
        split_line(log_line)
    }

    /// The words of a line as this store reads them (see `line_words`).
    pub fn line_to_words(&self, log_line: &str) -> (r: Vec<String>)
        ensures
            r.deep_view() == self.words_of(log_line@),
    {
        words_of_line(log_line, self.ignore_numeric_words, true, self.ignore_first_columns)
    }

    /// Tells whether `word` is made only of numeric characters, `*` and `#`.
    pub fn is_word_only_numeric(&self, word: &str) -> (r: bool)
        ensures
            r == numeric_word(word@, true),
    {
        word_is_numeric(word, true)
    }

    /// Tells whether template `filter_index` holds `word` in some column.
    pub fn is_word_in_filter(&self, word: &str, filter_index: usize) -> (r: bool)
        ensures
            r == crate::store::word_in_filter(self.filters_view(), filter_index as int, word@),
    {
        self.store.is_word_in_filter(&word.to_owned(), filter_index)
    }

    /// Lists template `filter_index` in the bucket of `word` where the template holds it.
    pub fn update_hash(&mut self, word: &str, filter_index: usize)
        requires
            old(self).wf(),
        ensures
            final(self).wf(),
            final(self).filters_view() == old(self).filters_view(),
            final(self).marker() == old(self).marker(),
            final(self).index_view() == crate::store::hash_update(
                old(self).filters_view(),
                old(self).index_view(),
                word@,
                filter_index,
            ),
    {
        self.store.update_hash(&word.to_owned(), filter_index)
    }

    /// Appends the template made of `words` (see `added`).
    pub fn add_filter(&mut self, words: Vec<String>)
        requires
            old(self).wf(),
        ensures
            final(self).wf(),
            final(self).marker() == old(self).marker(),
            (final(self).filters_view(), final(self).index_view()) == added(
                old(self).filters_view(),
                old(self).index_view(),
                words.deep_view(),
            ),
    {
        self.store.add_filter(words)
    }

    /// The first column of template `filter_index` from `start_from_word` on that holds
    /// `word`, or -1 (see `word_index_in_filter`).
    pub fn get_word_index_in_filter(&self, word: &str, filter_index: usize, start_from_word: usize) -> (r: isize)
        requires
            self.wf(),
        ensures
            r as int == crate::store::word_index_in_filter(
                self.filters_view(),
                self.index_view(),
                word@,
                filter_index as int,
                start_from_word as int,
            ),
    {
        self.store.get_word_index_in_filter(&word.to_owned(), filter_index, start_from_word)
    }

    /// The score of template `filter_index` for `words` (see `consequent_matches`).
    pub fn count_consequent_matches(&self, words: &Vec<String>, filter_index: usize) -> (r: usize)
        requires
            self.wf(),
            words.len() <= MAX_ITEMS,
        ensures
            r as int == consequent_matches(
                self.filters_view(),
                self.index_view(),
                words.deep_view(),
                filter_index as int,
                self.max_allowed_new_alternatives as int,
            ),
    {
        self.store.count_consequent_matches(words, filter_index, self.max_allowed_new_alternatives)
    }

    /// The template ids in the buckets of `words`, one per word that lists it, ascending.
    pub fn get_sorted_filter_indexes_containing_words(&self, words: &Vec<String>) -> (r: Vec<usize>)
        ensures
            r@ == sorted_ids(buckets_concat(self.index_view(), words.deep_view())),
    {
        self.store.get_sorted_filter_indexes_containing_words(words)
    }
    /// The candidate templates for `words`, ascending (see `candidates`).
    pub fn get_filter_indexes_with_min_req_matches(&self, words: &Vec<String>) -> (r: Vec<usize>)
        requires
            self.wf(),
        ensures
            r@ == candidates(
                self.filters_view(),
                self.index_view(),
                self.marker(),
                words.deep_view(),
                self.max_allowed_new_alternatives as int,
            ),
    {
        let list = self.get_sorted_filter_indexes_containing_words(words);
        let ghost fv = self.filters_view();
        let ghost marker = self.marker();
        let ghost target = candidates(fv, self.index_view(), marker, words.deep_view(), self.max_allowed_new_alternatives as int);
        proof {
            lemma_sorted_ids_bounded(self.index_view(), words.deep_view(), self.store.filters.len() as int);
        }
        let k = self.max_allowed_new_alternatives;
        let n = words.len();
        let mut res: Vec<usize> = Vec::new();
        let mut matches: usize = 0;
        let mut opt: usize = 0;
        let mut prev: isize = -1;
        let mut last_ins: isize = -1;
        let mut i: usize = 0;
        while i < list.len()
            invariant
                i <= list.len(),
                self.wf(),
                fv == self.filters_view(),
                marker == self.marker(),
                forall|j: int| 0 <= j < list.len() ==> #[trigger] list@[j] < self.store.filters.len(),
                matches <= i,
                -1 <= prev < self.store.filters.len(),
                -1 <= last_ins < self.store.filters.len(),
                res@ + candidate_walk(fv, marker, list@, n as int, k as int, i as int, matches as int, opt as int, prev as int, last_ins as int)
                    == target,
            decreases list.len() - i,
        {
            let id = list[i];
            assert(list@[i as int] == id);
            if last_ins != id as isize {
                if prev != id as isize {
                    matches = 1;
                    prev = id as isize;
                    assert(fv[id as int] == self.store.filters[id as int].deep_view());
                    opt = count_optional(&self.store.filters[id], &self.store.denote_optional);
                } else {
                    matches += 1;
                }
                let flen = self.store.filters[id].len();
                assert(fv[id as int].len() == flen);
                let enough_words = matches >= n || n - matches <= k;
                let enough_columns = if opt >= flen {
                    true
                } else {
                    matches >= flen - opt || (flen - opt) - matches <= k
                };
                if enough_words && enough_columns {
                    matches = 0;
                    let ghost before = res@;
                    res.push(id);
                    assert(res@ =~= before + seq![id]);
                    last_ins = id as isize;
                }
            }
            i += 1;
        }
        assert(res@ + Seq::<usize>::empty() =~= res@);
        res
    }

    /// The template that `words` match, or -1 (see `best_match`).
    pub fn find_best_matching_filter_index(&self, words: &Vec<String>) -> (r: isize)
        requires
            self.wf(),
            words.len() <= MAX_ITEMS,
        ensures
            r as int == best_match(
                self.filters_view(),
                self.index_view(),
                self.marker(),
                words.deep_view(),
                self.max_allowed_new_alternatives as int,
            ),
    {
        if self.store.filters.len() == 0 || words.len() == 0 {
            return -1;
        }
        let k = self.max_allowed_new_alternatives;
        let cands = self.get_filter_indexes_with_min_req_matches(words);
        let ghost fv = self.filters_view();
        let ghost iv = self.index_view();
        let ghost wv = words.deep_view();
        let mut best: isize = -1;
        let mut max: usize = 0;
        let mut i: usize = 0;
        while i < cands.len()
            invariant
                i <= cands.len(),
                self.wf(),
                words.len() <= MAX_ITEMS,
                k == self.max_allowed_new_alternatives,
                fv == self.filters_view(),
                iv == self.index_view(),
                wv == words.deep_view(),
                -1 <= best < self.store.filters.len(),
                best_walk(fv, iv, wv, k as int, cands@, 0, -1, 0) == best_walk(fv, iv, wv, k as int, cands@, i as int, best as int, max as int),
            decreases cands.len() - i,
        {
            let c = cands[i];
            let sc = self.count_consequent_matches(words, c);
            if sc > max {
                max = sc;
                best = c as isize;
            }
            i += 1;
        }
        if max >= words.len() || words.len() - max <= k {
            best
        } else {
            -1
        }
    }

    /// Tells whether the words of `log_line` match a template.
    pub fn is_line_known(&self, log_line: &str) -> (r: bool)
        requires
            self.wf(),
        ensures
            r == known(
                self.filters_view(),
                self.index_view(),
                self.marker(),
                self.words_of(log_line@),
                self.max_allowed_new_alternatives as int,
            ),
    {
        let words = self.line_to_words(log_line);
        if words.len() > MAX_ITEMS {
            return false;
        }
        self.find_best_matching_filter_index(&words) >= 0
    }

    /// Learns a line: its words are merged into the template they match, or make a new one.
    pub fn learn_line(&mut self, log_line: &str)
        requires
            old(self).wf(),
        ensures
            final(self).wf(),
            final(self).marker() == old(self).marker(),
            final(self).max_allowed_new_alternatives == old(self).max_allowed_new_alternatives,
            final(self).ignore_numeric_words == old(self).ignore_numeric_words,
            final(self).ignore_first_columns == old(self).ignore_first_columns,
            (final(self).filters_view(), final(self).index_view()) == learned(
                old(self).filters_view(),
                old(self).index_view(),
                old(self).marker(),
                old(self).words_of(log_line@),
                old(self).max_allowed_new_alternatives as int,
            ),
    {
        let words = self.line_to_words(log_line);
        if words.len() > MAX_ITEMS {
            return;
        }
        let matched_filter_index = self.find_best_matching_filter_index(&words);
        if matched_filter_index >= 0 {
            self.store.merge(&words, matched_filter_index as usize, true);
        } else {
            self.store.add_filter(words);
        }
    }

    /// Merges `words` into template `filter_index` (see `merge_words`).
    pub fn update_filter(&mut self, words: &Vec<String>, filter_index: usize)
        requires
            old(self).wf(),
            words.len() <= MAX_ITEMS,
        ensures
            final(self).wf(),
            final(self).marker() == old(self).marker(),
            (final(self).filters_view(), final(self).index_view()) == merge_words(
                old(self).filters_view(),
                old(self).index_view(),
                words.deep_view(),
                filter_index as int,
                old(self).marker(),
                true,
            ),
    {
        self.store.merge(words, filter_index, true)
    }

    /// One alignment step (see `align_step`).
    pub fn normalise_lengths_before_first_match(
        &mut self,
        words: &Vec<String>,
        filter_index: usize,
        word_start_index: usize,
        filter_start_index: usize,
    ) -> (r: (isize, isize))
        requires
            old(self).wf(),
            words.len() <= MAX_ITEMS,
            filter_index < old(self).store.filters.len() ==> old(self).store.filters[filter_index as int].len()
                + words.len() <= MAX_ITEMS,
        ensures
            final(self).wf(),
            final(self).marker() == old(self).marker(),
            (final(self).filters_view(), final(self).index_view(), r.0 as int, r.1 as int)
                == align_step(
                old(self).filters_view(),
                old(self).index_view(),
                words.deep_view(),
                filter_index as int,
                old(self).marker(),
                word_start_index as int,
                filter_start_index as int,
            ),
    {
        self.store.normalise_lengths_before_first_match(words, filter_index, word_start_index, filter_start_index)
    }

    /// The earliest matching word and its column (see `earliest_match`).
    pub fn get_indexes_of_earliest_matching_word(
        &self,
        words: &Vec<String>,
        filter_index: usize,
        word_start_index: usize,
        filter_start_index: usize,
    ) -> (r: (isize, isize))
        requires
            self.wf(),
            words.len() <= MAX_ITEMS,
        ensures
            (r.0 as int, r.1 as int) == earliest_match(
                self.filters_view(),
                self.index_view(),
                words.deep_view(),
                filter_index as int,
                word_start_index as int,
                filter_start_index as int,
            ),
    {
        self.store.get_indexes_of_earliest_matching_word(words, filter_index, word_start_index, filter_start_index)
    }
    /// The templates as text, one per line (see `filters_text`).
    pub fn to_string(&self) -> (r: String)
        ensures
            r@ == filters_text(self.filters_view()),
    {
        filters_to_string(&self.store.filters)
    }

    /// Reads the settings from the header lines of stored templates (see `header_of`); the
    /// store comes back without templates.
    pub fn load_parameters(log_filters_lines: &[&str]) -> (r: Result<LogFilters, LoadError>)
        ensures
            match r {
                Ok(lf) => {
                    &&& lf.wf()
                    &&& header_of(lines_view(log_filters_lines@)) == Ok::<(usize, Seq<char>, bool, usize), LoadError>((
                        lf.max_allowed_new_alternatives,
                        lf.marker(),
                        lf.ignore_numeric_words,
                        lf.ignore_first_columns,
                    ))
                    &&& lf.filters_view() == Seq::<Filter>::empty()
                    &&& lf.index_view() == Map::<Word, Seq<usize>>::empty()
                },
                Err(e) => header_of(lines_view(log_filters_lines@)) == Err::<(usize, Seq<char>, bool, usize), LoadError>(e),
            },
    {
        let ghost lv = lines_view(log_filters_lines@);
        if log_filters_lines.len() < 5 {
            return Err(LoadError::TooFewLines(log_filters_lines.len()));
        }
        assert(lv[0] == log_filters_lines@[0]@ && lv[1] == log_filters_lines@[1]@);
        assert(lv[2] == log_filters_lines@[2]@ && lv[3] == log_filters_lines@[3]@);
        let max_allowed_new_alternatives = match parse_usize(log_filters_lines[0]) {
            None => {
                return Err(LoadError::NotANumber(0));
            },
            Some(v) => v,
        };
        let marker = log_filters_lines[1].to_owned();
        if marker.as_str().is_empty() {
            return Err(LoadError::EmptyMarker(1));
        }
        let ignore_numeric_words = match parse_bool(log_filters_lines[2]) {
            None => {
                return Err(LoadError::NotABool(2));
            },
            Some(v) => v,
        };
        let ignore_first_columns = match parse_usize(log_filters_lines[3]) {
            None => {
                return Err(LoadError::NotANumber(3));
            },
            Some(v) => v,
        };
        Ok(LogFilters {
            store: FilterStore::new(marker),
            max_allowed_new_alternatives,
            ignore_numeric_words,
            ignore_first_columns,
        })
    }

    /// Reads stored templates, one per line of bracketed groups (`[a,b],[c]`); lines without
    /// both brackets are passed over (see `loaded`).
    pub fn from_str_lines(&mut self, log_filters_lines: &[&str])
        requires
            old(self).wf(),
        ensures
            final(self).wf(),
            final(self).marker() == old(self).marker(),
            final(self).max_allowed_new_alternatives == old(self).max_allowed_new_alternatives,
            final(self).ignore_numeric_words == old(self).ignore_numeric_words,
            final(self).ignore_first_columns == old(self).ignore_first_columns,
            (final(self).filters_view(), final(self).index_view()) == loaded(
                old(self).filters_view(),
                old(self).index_view(),
                old(self).marker(),
                lines_view(log_filters_lines@),
            ),
    {
        let ghost lv = lines_view(log_filters_lines@);
        let ghost f0 = self.filters_view();
        let ghost x0 = self.index_view();
        let ghost marker = self.marker();
        let mut i: usize = 0;
        while i < log_filters_lines.len()
            invariant
                i <= log_filters_lines.len(),
                lv == lines_view(log_filters_lines@),
                self.wf(),
                marker == self.marker(),
                self.max_allowed_new_alternatives == old(self).max_allowed_new_alternatives,
                self.ignore_numeric_words == old(self).ignore_numeric_words,
                self.ignore_first_columns == old(self).ignore_first_columns,
                (self.filters_view(), self.index_view()) == loaded(f0, x0, marker, lv.subrange(0, i as int)),
            decreases log_filters_lines.len() - i,
        {
            assert(lv.subrange(0, i as int + 1).drop_last() =~= lv.subrange(0, i as int));
            assert(lv.subrange(0, i as int + 1).last() == log_filters_lines@[i as int]@);
            match parse_bracket_line(log_filters_lines[i]) {
                Some(filter) => {
                    self.store.push_filter(filter);
                },
                None => {},
            }
            i += 1;
        }
        assert(lv.subrange(0, i as int) =~= lv);
    }
}

} // verus!
