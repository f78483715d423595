use vstd::prelude::*;
use crate::align::{add_alt, add_alternative};
use crate::store::{
    add_to_bucket, added, buckets_concat, column_contains, sorted_ids, word_in_filter, Filter,
    FilterStore, Index, Word, MAX_ITEMS,
};
use crate::words::{kept_words, numeric_word, split_from, split_line_with, word_is_numeric};

verus! {

/// Walks the words, counting the run of words found anywhere in template `fi`: a word not
/// found ends the run and counts as new, and more than `max_new` new words give 0. The longest
/// run otherwise.
pub open spec fn run_walk(
    filters: Seq<Filter>,
    words: Seq<Word>,
    fi: int,
    i: int,
    cur: int,
    best: int,
    news: int,
    max_new: int,
) -> int
    decreases words.len() - i,
{
    if i < 0 || i >= words.len() {
        best
    } else if word_in_filter(filters, fi, words[i]) {
        let c = cur + 1;
        run_walk(filters, words, fi, i + 1, c, if c > best {
            c
        } else {
            best
        }, news, max_new)
    } else if news + 1 > max_new {
        0
    } else {
        run_walk(filters, words, fi, i + 1, 0, best, news + 1, max_new)
    }
}

/// Walks the sorted template ids; an id becomes a candidate when its run reaches `min_req`,
/// its first occurrence only opening the run.
pub open spec fn pair_candidates(list: Seq<usize>, min_req: int, i: int, matches: int, prev: int, last_ins: int) -> Seq<usize>
    decreases list.len() - i,
{
    if i < 0 || i >= list.len() {
        Seq::empty()
    } else {
        let id = list[i] as int;
        if last_ins == id {
            pair_candidates(list, min_req, i + 1, matches, prev, last_ins)
        } else if prev != id {
            pair_candidates(list, min_req, i + 1, 1, id, last_ins)
        } else if matches + 1 == min_req {
            seq![list[i]] + pair_candidates(list, min_req, i + 1, 0, prev, id)
        } else {
            pair_candidates(list, min_req, i + 1, matches + 1, prev, last_ins)
        }
    }
}

/// The candidate templates for `words`, ascending.
pub open spec fn positional_candidates(index: Index, words: Seq<Word>, min_req: int) -> Seq<usize> {
    pair_candidates(sorted_ids(buckets_concat(index, words)), min_req, 0, 0, -1, -1)
}

/// Over the candidates from `i` on: the first one with the longest run above `max`, and
/// that run.
pub open spec fn run_best_walk(
    filters: Seq<Filter>,
    words: Seq<Word>,
    k: int,
    cands: Seq<usize>,
    i: int,
    best: int,
    max: int,
) -> (int, int)
    decreases cands.len() - i,
{
    if i < 0 || i >= cands.len() {
        (best, max)
    } else {
        let sc = run_walk(filters, words, cands[i] as int, 0, 0, 0, 0, k);
        if sc > max {
            run_best_walk(filters, words, k, cands, i + 1, cands[i] as int, sc)
        } else {
            run_best_walk(filters, words, k, cands, i + 1, best, max)
        }
    }
}

/// The template that `words` match, or -1: the first candidate with the longest run, taken
/// where a line longer than `min_req` runs at least `min_req`, or a shorter one runs whole.
pub open spec fn positional_best(filters: Seq<Filter>, index: Index, words: Seq<Word>, k: int, min_req: int) -> int {
    if filters.len() == 0 {
        -1
    } else {
        let (b, m) = run_best_walk(filters, words, k, positional_candidates(index, words, min_req), 0, -1, 0);
        if words.len() > min_req {
            if m >= min_req {
                b
            } else {
                -1
            }
        } else if words.len() == m {
            b
        } else {
            -1
        }
    }
}

/// `f` with word `j` added to column `j`, and a new column for each word beyond its end.
pub open spec fn positional_merge(f: Filter, words: Seq<Word>) -> Filter {
    Seq::new(
        if f.len() < words.len() {
            words.len()
        } else {
            f.len()
        },
        |j: int|
            if j < f.len() {
                if j < words.len() {
                    add_alt(f[j], words[j])
                } else {
                    f[j]
                }
            } else {
                seq![words[j]]
            },
    )
}

/// The templates after merging `words` into template `fi` position by position; nothing
/// changes for no words, a template that does not exist, or more than `MAX_ITEMS` words.
pub open spec fn positional_updated(filters: Seq<Filter>, words: Seq<Word>, fi: int) -> Seq<Filter> {
    if words.len() > 0 && words.len() <= MAX_ITEMS && 0 <= fi < filters.len() {
        filters.update(fi, positional_merge(filters[fi], words))
    } else {
        filters
    }
}

/// The words of a line here: cut at the delimiters other than the apostrophe, numeric words
/// dropped.
pub open spec fn positional_words(line: Seq<char>) -> Seq<Word> {
    kept_words(split_from(line, Seq::empty(), false), true, false)
}

/// The store after learning `words`: merged position by position into the template they
/// match (the reverse index is left as it is), or made a new template.
pub open spec fn positional_learned(filters: Seq<Filter>, index: Index, words: Seq<Word>, k: int, min_req: int) -> (
    Seq<Filter>,
    Index,
) {
    if words.len() > MAX_ITEMS {
        (filters, index)
    } else {
        let b = positional_best(filters, index, words, k, min_req);
        if b >= 0 {
            (positional_updated(filters, words, b), index)
        } else {
            added(filters, index, words)
        }
    }
}

/// Templates learnt from log lines by position, with the settings that shape the learning.
pub struct LogFilters {
    /// The templates and the reverse index.
    pub store: FilterStore,
    /// How long a run of matching words makes lines alike.
    pub min_req_consequent_matches: usize,
    /// How many words of a line may go unmatched against a template.
    pub max_allowed_new_alternatives: usize,
}

impl LogFilters {
    pub open spec fn wf(&self) -> bool {
        self.store.wf()
    }

    pub open spec fn filters_view(&self) -> Seq<Filter> {
        self.store.filters_view()
    }

    pub open spec fn index_view(&self) -> Index {
        self.store.index_view()
    }

    /// An empty store: no templates, runs of three required, one new alternative allowed.
    pub fn new() -> (r: Self)
        ensures
            r.wf(),
            r.filters_view() == Seq::<Filter>::empty(),
            r.index_view() == Map::<Word, Seq<usize>>::empty(),
            r.min_req_consequent_matches == 3,
            r.max_allowed_new_alternatives == 1,
    {
        LogFilters {
            store: FilterStore::new(String::new()),
            min_req_consequent_matches: 3,
            max_allowed_new_alternatives: 1,
        }
    }

    /// Lists template `filter_index` in the bucket of `word`.
    pub fn _update_hash(&mut self, word: &String, filter_index: usize)
        requires
            old(self).wf(),
            filter_index < old(self).store.filters.len(),
        ensures
            final(self).wf(),
            final(self).min_req_consequent_matches == old(self).min_req_consequent_matches,
            final(self).max_allowed_new_alternatives == old(self).max_allowed_new_alternatives,
            final(self).filters_view() == old(self).filters_view(),
            final(self).index_view() == add_to_bucket(old(self).index_view(), word@, filter_index),
    {
        self.store.add_to_index(word, filter_index)
    }

    /// Tells whether template `filter_index` holds `word` in some column.
    pub fn _is_word_in_filter(&self, word: &String, filter_index: usize) -> (r: bool)
        ensures
            r == word_in_filter(self.filters_view(), filter_index as int, word@),
    {
        self.store.is_word_in_filter(word, filter_index)
    }

    /// Tells whether `word` is one of `word_alternatives`.
    pub fn _is_word_in_word_alternatives(word: &String, word_alternatives: &Vec<String>) -> (r: bool)
        ensures
            r == word_alternatives.deep_view().contains(word@),
    {
        column_contains(word_alternatives, word)
    }

    /// Tells whether `word` is made only of numeric characters.
    pub fn _is_word_only_numeric(&self, word: &String) -> (r: bool)
        ensures
            r == numeric_word(word@, false),
    {
        word_is_numeric(word.as_str(), false)
    }

    /// The longest run of words of `words` found in template `filter_index` (see `run_walk`).
    pub fn _count_consequent_matches_in_filter(&self, words: &Vec<String>, filter_index: usize) -> (r: usize)
        ensures
            r as int == run_walk(
                self.filters_view(),
                words.deep_view(),
                filter_index as int,
                0,
                0,
                0,
                0,
                self.max_allowed_new_alternatives as int,
            ),
    {
        let ghost fv = self.filters_view();
        let ghost wv = words.deep_view();
        let k = self.max_allowed_new_alternatives;
        let mut cur: usize = 0;
        let mut best: usize = 0;
        let mut news: usize = 0;
        let mut i: usize = 0;
        while i < words.len()
            invariant
                i <= words.len(),
                cur <= i,
                best <= i,
                news <= i,
                k == self.max_allowed_new_alternatives,
                fv == self.filters_view(),
                wv == words.deep_view(),
                run_walk(fv, wv, filter_index as int, 0, 0, 0, 0, k as int) == run_walk(
                    fv,
                    wv,
                    filter_index as int,
                    i as int,
                    cur as int,
                    best as int,
                    news as int,
                    k as int,
                ),
            decreases words.len() - i,
        {
            assert(wv[i as int] == words[i as int]@);
            if self._is_word_in_filter(&words[i], filter_index) {
                cur += 1;
                if cur > best {
                    best = cur;
                }
            } else {
                news += 1;
                if news > k {
                    return 0;
                }
                cur = 0;
            }
            i += 1;
        }
        best
    }

    /// The template ids in the buckets of `words`, one per word that lists it, ascending.
    pub fn _get_sorted_filter_indexes_containing_words(&self, words: &Vec<String>) -> (r: Vec<usize>)
        ensures
            r@ == sorted_ids(buckets_concat(self.index_view(), words.deep_view())),
    {
        self.store.get_sorted_filter_indexes_containing_words(words)
    }

    /// The candidate templates for `words`, ascending (see `positional_candidates`).
    pub fn _get_filter_indexes_with_min_req_matches(&self, words: &Vec<String>) -> (r: Vec<usize>)
        ensures
            r@ == positional_candidates(
                self.index_view(),
                words.deep_view(),
                self.min_req_consequent_matches as int,
            ),
    {
        let list = self._get_sorted_filter_indexes_containing_words(words);
        let min_req = self.min_req_consequent_matches;
        let ghost target = positional_candidates(self.index_view(), words.deep_view(), min_req as int);
        let mut res: Vec<usize> = Vec::new();
        let mut matches: usize = 0;
        let mut prev: usize = 0;
        let mut has_prev = false;
        let mut last_ins: usize = 0;
        let mut has_last = false;
        let mut i: usize = 0;
        while i < list.len()
            invariant
                i <= list.len(),
                matches <= i,
                res@ + pair_candidates(
                    list@,
                    min_req as int,
                    i as int,
                    matches as int,
                    if has_prev { prev as int } else { -1 },
                    if has_last { last_ins as int } else { -1 },
                ) == target,
            decreases list.len() - i,
        {
            let id = list[i];
            if !(has_last && last_ins == id) {
                if !(has_prev && prev == id) {
                    matches = 1;
                    prev = id;
                    has_prev = true;
                } else {
                    matches += 1;
                    if matches == min_req {
                        matches = 0;
                        let ghost before = res@;
                        res.push(id);
                        assert(res@ =~= before + seq![id]);
                        last_ins = id;
                        has_last = true;
                    }
                }
            }
            i += 1;
        }
        assert(res@ + Seq::<usize>::empty() =~= res@);
        res
    }

    /// The template that `words` match, or -1 (see `positional_best`).
    pub fn _find_best_matching_filter_index(&self, words: &Vec<String>) -> (r: isize)
        requires
            self.wf(),
        ensures
            r as int == positional_best(
                self.filters_view(),
                self.index_view(),
                words.deep_view(),
                self.max_allowed_new_alternatives as int,
                self.min_req_consequent_matches as int,
            ),
    {
        if self.store.filters.len() == 0 {
            return -1;
        }
        let k = self.max_allowed_new_alternatives;
        let cands = self._get_filter_indexes_with_min_req_matches(words);
        let ghost fv = self.filters_view();
        let ghost wv = words.deep_view();
        let mut best: isize = -1;
        let mut max: usize = 0;
        let mut i: usize = 0;
        while i < cands.len()
            invariant
                i <= cands.len(),
                self.wf(),
                k == self.max_allowed_new_alternatives,
                fv == self.filters_view(),
                wv == words.deep_view(),
                -1 <= best < self.store.filters.len(),
                run_best_walk(fv, wv, k as int, cands@, 0, -1, 0) == run_best_walk(fv, wv, k as int, cands@, i as int, best as int, max as int),
            decreases cands.len() - i,
        {
            let c = cands[i];
            let sc = self._count_consequent_matches_in_filter(words, c);
            if sc > max {
                proof {
                    lemma_run_walk_found(fv, wv, c as int, 0, 0, 0, 0, k as int);
                }
                max = sc;
                best = c as isize;
            }
            i += 1;
        }
        if words.len() > self.min_req_consequent_matches {
            if max >= self.min_req_consequent_matches {
                return best;
            }
        } else if words.len() == max {
            return best;
        }
        -1
    }

    /// Merges `words` into template `filter_index` position by position (see
    /// `positional_updated`); the reverse index is left as it is.
    pub fn _update_filter(&mut self, words: Vec<String>, filter_index: usize)
        requires
            old(self).wf(),
        ensures
            final(self).wf(),
            final(self).min_req_consequent_matches == old(self).min_req_consequent_matches,
            final(self).max_allowed_new_alternatives == old(self).max_allowed_new_alternatives,
            final(self).index_view() == old(self).index_view(),
            final(self).filters_view() == positional_updated(old(self).filters_view(), words.deep_view(), filter_index as int),
    {
        if words.len() == 0 || words.len() > MAX_ITEMS || filter_index >= self.store.filters.len() {
            return;
        }
        let ghost wv = words.deep_view();
        let ghost fv = self.filters_view();
        let ghost f = fv[filter_index as int];
        assert(old(self).store.filters[filter_index as int].len() <= MAX_ITEMS);
        let mut filter: Vec<Vec<String>> = Vec::new();
        self.store.filters.set_and_swap(filter_index, &mut filter);
        assert(filter.deep_view() == f);
        let mut icnt: usize = 0;
        while icnt < words.len()
            invariant
                icnt <= words.len(),
                wv == words.deep_view(),
                filter.len() == if f.len() < icnt {
                    icnt as int
                } else {
                    f.len() as int
                },
                forall|j: int| 0 <= j < filter.len() ==> #[trigger] filter.deep_view()[j] == if j < icnt {
                    positional_merge(f, wv)[j]
                } else {
                    f[j]
                },
            decreases words.len() - icnt,
        {
            let ghost prev = filter.deep_view();
            assert(wv[icnt as int] == words[icnt as int]@);
            if icnt < filter.len() {
                let mut col: Vec<String> = Vec::new();
                filter.set_and_swap(icnt, &mut col);
                assert(col.deep_view() == prev[icnt as int]);
                add_alternative(&mut col, &words[icnt]);
                filter.set_and_swap(icnt, &mut col);
                assert forall|j: int| 0 <= j < filter.len() implies #[trigger] filter.deep_view()[j] == if j < icnt + 1 {
                    positional_merge(f, wv)[j]
                } else {
                    f[j]
                } by {
                    if j != icnt {
                        assert(filter.deep_view()[j] == prev[j]);
                    }
                }
            } else {
                let col = vec![words[icnt].clone()];
                assert(col.deep_view() =~= seq![wv[icnt as int]]);
                filter.push(col);
                assert forall|j: int| 0 <= j < filter.len() implies #[trigger] filter.deep_view()[j] == if j < icnt + 1 {
                    positional_merge(f, wv)[j]
                } else {
                    f[j]
                } by {
                    if j < icnt {
                        assert(filter.deep_view()[j] == prev[j]);
                    }
                }
            }
            icnt += 1;
        }
        assert(filter.deep_view() =~= positional_merge(f, wv));
        self.store.filters.set_and_swap(filter_index, &mut filter);
        assert(self.filters_view() =~= fv.update(filter_index as int, positional_merge(f, wv)));
        assert(self.wf()) by {
            assert(self.store.filters.len() == old(self).store.filters.len());
            assert forall|x: int| 0 <= x < self.store.filters.len() implies #[trigger] self.store.filters[x].len() <= MAX_ITEMS by {
                if x != filter_index {
                    assert(self.store.filters[x] == old(self).store.filters[x]);
                } else {
                    assert(self.store.filters[x].deep_view().len() == self.store.filters[x].len());
                    assert(old(self).store.filters[x].len() <= MAX_ITEMS);
                    assert(old(self).store.filters[x].deep_view().len() == f.len());
                    assert(self.store.filters[x].deep_view() == positional_merge(f, wv));
                    assert(wv.len() == words.len());
                    assert(positional_merge(f, wv).len() <= MAX_ITEMS);
                }
            }
            assert forall|w: Word| #[trigger] self.store.index_view().contains_key(w) implies crate::store::bucket_ok(
                self.store.index_view()[w],
                self.store.filters.len() as int,
            ) by {
                assert(old(self).store.index_view().contains_key(w));
            }
        }
    }

    /// Appends the template made of `words` (see `added`).
    pub fn _add_filter(&mut self, words: Vec<String>)
        requires
            old(self).wf(),
        ensures
            final(self).wf(),
            final(self).min_req_consequent_matches == old(self).min_req_consequent_matches,
            final(self).max_allowed_new_alternatives == old(self).max_allowed_new_alternatives,
            (final(self).filters_view(), final(self).index_view()) == added(
                old(self).filters_view(),
                old(self).index_view(),
                words.deep_view(),
            ),
    {
        self.store.add_filter(words)
    }

    /// Learns a line: its words (see `positional_words`) are merged by position into the
    /// template they match, or make a new one (see `positional_learned`).
    pub fn learn_line(&mut self, log_line: &str)
        requires
            old(self).wf(),
        ensures
            final(self).wf(),
            final(self).min_req_consequent_matches == old(self).min_req_consequent_matches,
            final(self).max_allowed_new_alternatives == old(self).max_allowed_new_alternatives,
            (final(self).filters_view(), final(self).index_view()) == positional_learned(
                old(self).filters_view(),
                old(self).index_view(),
                positional_words(log_line@),
                old(self).max_allowed_new_alternatives as int,
                old(self).min_req_consequent_matches as int,
            ),
    {
        let raw = split_line_with(log_line, false);
        let ghost rv = raw.deep_view();
        let mut words: Vec<String> = Vec::new();
        let mut i: usize = 0;
        while i < raw.len()
            invariant
                i <= raw.len(),
                rv == raw.deep_view(),
                words.deep_view() == kept_words(rv.subrange(0, i as int), true, false),
            decreases raw.len() - i,
        {
            assert(rv.subrange(0, i as int + 1).drop_last() =~= rv.subrange(0, i as int));
            assert(rv.subrange(0, i as int + 1).last() == raw[i as int]@);
            if !self._is_word_only_numeric(&raw[i]) {
                let ghost before = words.deep_view();
                words.push(raw[i].clone());
                assert(words.deep_view() =~= before.push(rv[i as int]));
            }
            i += 1;
        }
        assert(rv.subrange(0, i as int) =~= rv);
        if words.len() > MAX_ITEMS {
            return;
        }
        let matched_filter_index = self._find_best_matching_filter_index(&words);
        if matched_filter_index >= 0 {
            self._update_filter(words, matched_filter_index as usize);
        } else {
            self._add_filter(words);
        }
    }
}

/// A positive run comes from an existing template.
pub proof fn lemma_run_walk_found(
    filters: Seq<Filter>,
    words: Seq<Word>,
    fi: int,
    i: int,
    cur: int,
    best: int,
    news: int,
    max_new: int,
)
    requires
        best == 0,
        0 <= cur,
    ensures
        run_walk(filters, words, fi, i, cur, best, news, max_new) > 0 ==> 0 <= fi < filters.len(),
    decreases words.len() - i,
{
    if 0 <= i < words.len() {
        if word_in_filter(filters, fi, words[i]) {
        } else if news + 1 <= max_new {
            lemma_run_walk_found(filters, words, fi, i + 1, 0, best, news + 1, max_new);
        }
    }
}

} // verus!
