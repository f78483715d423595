use vstd::prelude::*;
use crate::store::{
    column_contains, hash_update_all, indexed, lemma_first_column_from_bounds, word_index_in_filter,
    bucket_ok, Column, Filter, FilterStore, Index, Word, MAX_ITEMS,
};

verus! {

/// Scans `words[i..]`, each searched in template `fi` from column `fs`, keeping the word whose
/// column is the smallest; the first such word wins a tie.
pub open spec fn earliest_walk(
    filters: Seq<Filter>,
    index: Index,
    words: Seq<Word>,
    fi: int,
    fs: int,
    i: int,
    bw: int,
    bf: int,
) -> (int, int)
    decreases words.len() - i,
{
    if i < 0 || i >= words.len() {
        (bw, bf)
    } else {
        let m = word_index_in_filter(filters, index, words[i], fi, fs);
        if m >= 0 && (bf == -1 || m < bf) {
            earliest_walk(filters, index, words, fi, fs, i + 1, i, m)
        } else {
            earliest_walk(filters, index, words, fi, fs, i + 1, bw, bf)
        }
    }
}

/// The word at or after `ws` that occurs earliest in template `fi` at or after column `fs`,
/// as (word index, column index), or (-1, -1).
pub open spec fn earliest_match(
    filters: Seq<Filter>,
    index: Index,
    words: Seq<Word>,
    fi: int,
    ws: int,
    fs: int,
) -> (int, int) {
    if ws < 0 || fs < 0 || ws >= words.len() || fi < 0 || fi >= filters.len() || fs
        >= filters[fi].len() {
        (-1, -1)
    } else {
        earliest_walk(filters, index, words, fi, fs, ws, -1, -1)
    }
}

/// A column with `w` added as an alternative, unless it holds it already.
pub open spec fn add_alt(col: Column, w: Word) -> Column {
    if col.contains(w) {
        col
    } else {
        col.push(w)
    }
}

/// `f` with a column `{words[t], marker}` for each `t` in `ws..w0`, inserted before column `c0`.
pub open spec fn insert_front_columns(
    f: Filter,
    words: Seq<Word>,
    ws: int,
    w0: int,
    c0: int,
    marker: Word,
) -> Filter {
    f.subrange(0, c0) + Seq::new((w0 - ws) as nat, |t: int| seq![words[ws + t], marker])
        + f.subrange(c0, f.len() as int)
}

/// `f` with the columns `fs..c0-k` made optional and the words `ws..w0` added as alternatives
/// to the `k = w0 - ws` columns just before `c0`.
pub open spec fn stretch_columns(
    f: Filter,
    words: Seq<Word>,
    ws: int,
    fs: int,
    w0: int,
    c0: int,
    marker: Word,
) -> Filter {
    let k = w0 - ws;
    Seq::new(
        f.len(),
        |j: int|
            if fs <= j < c0 - k {
                add_alt(f[j], marker)
            } else if c0 - k <= j < c0 {
                add_alt(f[j], words[ws + j - (c0 - k)])
            } else {
                f[j]
            },
    )
}

/// One alignment step of template `fi` against `words`, from word `ws` and column `fs`: the
/// templates and reverse index after it, and the boundary reached (or -1, -1 and no change).
pub open spec fn align_step(
    filters: Seq<Filter>,
    index: Index,
    words: Seq<Word>,
    fi: int,
    marker: Word,
    ws: int,
    fs: int,
) -> (Seq<Filter>, Index, int, int) {
    let (w0, c0) = earliest_match(filters, index, words, fi, ws, fs);
    if w0 < 0 || c0 < 0 {
        (filters, index, -1, -1)
    } else if w0 - ws > c0 - fs {
        let nf = filters.update(fi, insert_front_columns(filters[fi], words, ws, w0, c0, marker));
        (nf, hash_update_all(nf, index, words, fi as usize, ws, w0), w0, c0 + (w0 - ws))
    } else {
        let nf = filters.update(fi, stretch_columns(filters[fi], words, ws, fs, w0, c0, marker));
        (nf, hash_update_all(nf, index, words, fi as usize, ws, w0), w0, c0)
    }
}


/// `s` back to front.
pub open spec fn reversed<A>(s: Seq<A>) -> Seq<A> {
    Seq::new(s.len(), |i: int| s[s.len() - 1 - i])
}

/// The forward pass of a merge: alignment steps from boundary (`i0`, `i1`) on, each from the
/// boundary the last one reached; where a step stalls, both offsets move on by one, unless the
/// last word (or, with `stop_at_end`, the last column) is reached.
pub open spec fn forward_pass(
    filters: Seq<Filter>,
    index: Index,
    words: Seq<Word>,
    fi: int,
    marker: Word,
    i0: int,
    i1: int,
    stop_at_end: bool,
) -> (Seq<Filter>, Index, int, int)
    decreases words.len() - i0, filters[fi].len() - i1,
{
    if !(0 <= fi < filters.len() && 0 <= i0 < words.len() && 0 <= i1) {
        (filters, index, i0, i1)
    } else {
        let (f2, x2, n0, n1) = align_step(filters, index, words, fi, marker, i0, i1);
        if n0 == -1 || n1 == -1 {
            (f2, x2, i0, i1)
        } else if n0 != i0 || n1 != i1 {
            if f2.len() == filters.len() && ((i0 < n0 <= words.len()) || (n0 == i0 && i1 < n1
                <= f2[fi].len() && f2[fi].len() == filters[fi].len())) {
                forward_pass(f2, x2, words, fi, marker, n0, n1, stop_at_end)
            } else {
                (f2, x2, n0, n1)
            }
        } else if i0 == words.len() - 1 || (stop_at_end && i1 == f2[fi].len() - 1) {
            (f2, x2, i0, i1)
        } else if f2.len() == filters.len() && i1 < f2[fi].len() {
            forward_pass(f2, x2, words, fi, marker, i0 + 1, i1 + 1, stop_at_end)
        } else {
            (f2, x2, i0, i1)
        }
    }
}

/// How the words of a line are merged into template `fi`: an alignment step from the start,
/// the forward pass, then the trailing words. With `append_tail`, a line longer than the
/// template whose alignment ended on its last column gets its extra words appended as
/// optional columns; otherwise, where words are left, one alignment step runs on the reversed
/// words and the reversed template, which is then turned back. Nothing changes for a template
/// that does not exist, an empty line, or a template that could outgrow `MAX_ITEMS`.
pub open spec fn merge_words(
    filters: Seq<Filter>,
    index: Index,
    words: Seq<Word>,
    fi: int,
    marker: Word,
    append_tail: bool,
) -> (Seq<Filter>, Index) {
    if fi < 0 || fi >= filters.len() || words.len() == 0 || filters[fi].len() + 2 * words.len()
        > MAX_ITEMS {
        (filters, index)
    } else {
        let (f1, x1, a0, a1) = align_step(filters, index, words, fi, marker, 0, 0);
        let (f2, x2, b0, b1) = if a0 >= 0 && a1 >= 0 && words.len() > a0 {
            forward_pass(f1, x1, words, fi, marker, a0, a1, append_tail)
        } else {
            (f1, x1, a0, a1)
        };
        let flen = f2[fi].len();
        if !(b0 >= 0 && b1 >= 0) {
            (f2, x2)
        } else if append_tail && words.len() > flen && b1 == flen - 1 {
            let nf = f2.update(
                fi,
                f2[fi] + Seq::new(
                    (words.len() - flen) as nat,
                    |t: int| seq![words[flen + t], marker],
                ),
            );
            (nf, hash_update_all(nf, x2, words, fi as usize, flen as int, words.len() as int))
        } else if b0 < words.len() {
            let rf = f2.update(fi, reversed(f2[fi]));
            let (f3, x3, c0, c1) = align_step(rf, x2, reversed(words), fi, marker, 0, 0);
            (f3.update(fi, reversed(f3[fi])), x3)
        } else {
            (f2, x2)
        }
    }
}

/// What `align_step` keeps: the boundary moves forward, stays inside the words and the
/// template, and the template grows by the number of words passed where it grows.
pub proof fn lemma_align_step(
    filters: Seq<Filter>,
    index: Index,
    words: Seq<Word>,
    fi: int,
    marker: Word,
    ws: int,
    fs: int,
)
    ensures
        ({
            let (f2, x2, n0, n1) = align_step(filters, index, words, fi, marker, ws, fs);
            &&& f2.len() == filters.len()
            &&& forall|x: int| 0 <= x < filters.len() && x != fi ==> f2[x] == filters[x]
            &&& (n0 == -1 && n1 == -1 && f2 == filters && x2 == index) || (0 <= fi < filters.len()
                && ws <= n0 < words.len() && fs <= n1 < f2[fi].len() && filters[fi].len()
                <= f2[fi].len() <= filters[fi].len() + (n0 - ws) && (n0 == ws ==> f2[fi].len()
                == filters[fi].len()))
        }),
{
    lemma_earliest_match(filters, index, words, fi, ws, fs);
    let (w0, c0) = earliest_match(filters, index, words, fi, ws, fs);
    let (f2, x2, n0, n1) = align_step(filters, index, words, fi, marker, ws, fs);
    if w0 >= 0 && c0 >= 0 {
        let f = filters[fi];
        if w0 - ws > c0 - fs {
            let nfl = insert_front_columns(f, words, ws, w0, c0, marker);
            assert(nfl.len() == f.len() + (w0 - ws));
            assert(f2 == filters.update(fi, nfl));
            assert(n0 == w0 && n1 == c0 + (w0 - ws));
        } else {
            let nfl = stretch_columns(f, words, ws, fs, w0, c0, marker);
            assert(nfl.len() == f.len());
            assert(f2 == filters.update(fi, nfl));
            assert(n0 == w0 && n1 == c0);
        }
        assert(filters[fi].len() <= f2[fi].len() <= filters[fi].len() + (n0 - ws));
        assert(forall|x: int| 0 <= x < filters.len() && x != fi ==> f2[x] == filters[x]);
    } else {
        assert(w0 == -1 && c0 == -1);
        assert(f2 == filters && x2 == index && n0 == -1 && n1 == -1);
    }
}

/// What `earliest_walk` finds lies in range and was found by a word search.
pub proof fn lemma_earliest_walk(
    filters: Seq<Filter>,
    index: Index,
    words: Seq<Word>,
    fi: int,
    fs: int,
    i: int,
    bw: int,
    bf: int,
)
    requires
        0 <= fi < filters.len(),
        0 <= fs,
        0 <= i,
        (bw == -1 && bf == -1) || (0 <= bw < i && fs <= bf < filters[fi].len()),
    ensures
        ({
            let (w, c) = earliest_walk(filters, index, words, fi, fs, i, bw, bf);
            (w == -1 && c == -1) || (0 <= w && (w < words.len() || w < i) && fs <= c < filters[fi].len()
                && (w >= i ==> c == word_index_in_filter(filters, index, words[w], fi, fs)) && (w
                < i ==> w == bw && c == bf))
        }),
    decreases words.len() - i,
{
    if 0 <= i < words.len() {
        let m = word_index_in_filter(filters, index, words[i], fi, fs);
        if m >= 0 {
            if words[i].len() > 0 && indexed(index, words[i], fi) {
                lemma_first_column_from_bounds(filters[fi], words[i], fs);
            }
        }
        if m >= 0 && (bf == -1 || m < bf) {
            lemma_earliest_walk(filters, index, words, fi, fs, i + 1, i, m);
        } else {
            lemma_earliest_walk(filters, index, words, fi, fs, i + 1, bw, bf);
        }
    }
}

/// The boundary found by `earliest_match` lies at or after the offsets and inside both.
pub proof fn lemma_earliest_match(
    filters: Seq<Filter>,
    index: Index,
    words: Seq<Word>,
    fi: int,
    ws: int,
    fs: int,
)
    ensures
        ({
            let (w, c) = earliest_match(filters, index, words, fi, ws, fs);
            (w == -1 && c == -1) || (0 <= fi < filters.len() && ws <= w < words.len() && fs <= c
                < filters[fi].len())
        }),
{
    if !(ws < 0 || fs < 0 || ws >= words.len() || fi < 0 || fi >= filters.len() || fs
        >= filters[fi].len()) {
        lemma_earliest_walk(filters, index, words, fi, fs, ws, -1, -1);
    }
}

/// Adds `w` to `col` unless it holds it already.
pub fn add_alternative(col: &mut Vec<String>, w: &String)
    ensures
        final(col).deep_view() == add_alt(old(col).deep_view(), w@),
{
    if !column_contains(col, w) {
        col.push(w.clone());
        assert(final(col).deep_view() =~= old(col).deep_view().push(w@));
    }
}

impl FilterStore {
    /// The word at or after `word_start_index` that occurs earliest in template
    /// `filter_index` at or after column `filter_start_index` (see `earliest_match`).
    pub fn get_indexes_of_earliest_matching_word(
        &self,
        words: &Vec<String>,
        filter_index: usize,
        word_start_index: usize,
        filter_start_index: usize,
    ) -> (r: (isize, isize))
        requires
            self.wf(),
            words.len() <= MAX_ITEMS,
        ensures
            (r.0 as int, r.1 as int) == earliest_match(
                self.filters_view(),
                self.index_view(),
                words.deep_view(),
                filter_index as int,
                word_start_index as int,
                filter_start_index as int,
            ),
    {
        if word_start_index >= words.len() || filter_index >= self.filters.len() {
            return (-1, -1);
        }
        if filter_start_index >= self.filters[filter_index].len() {
            return (-1, -1);
        }
        let ghost ws = words.deep_view();
        let ghost fv = self.filters_view();
        let ghost iv = self.index_view();
        let mut first_word: isize = -1;
        let mut first_filter: isize = -1;
        let mut i: usize = word_start_index;
        while i < words.len()
            invariant
                word_start_index <= i <= words.len(),
                words.len() <= MAX_ITEMS,
                ws == words.deep_view(),
                fv == self.filters_view(),
                iv == self.index_view(),
                self.wf(),
                filter_index < self.filters.len(),
                filter_start_index < self.filters[filter_index as int].len(),
                (first_word == -1 && first_filter == -1) || (0 <= first_word < i && filter_start_index
                    <= first_filter < self.filters[filter_index as int].len()),
                earliest_match(fv, iv, ws, filter_index as int, word_start_index as int, filter_start_index as int)
                    == earliest_walk(fv, iv, ws, filter_index as int, filter_start_index as int, i as int, first_word as int, first_filter as int),
            decreases words.len() - i,
        {
            assert(ws[i as int] == words[i as int]@);
            let m = self.get_word_index_in_filter(&words[i], filter_index, filter_start_index);
            proof {
                lemma_first_column_from_bounds(fv[filter_index as int], ws[i as int], filter_start_index as int);
            }
            if m >= 0 && (first_filter == -1 || m < first_filter) {
                first_filter = m;
                first_word = i as isize;
            }
            i += 1;
        }
        (first_word, first_filter)
    }
}

impl FilterStore {
    /// One alignment step of template `filter_index` against `words` from word
    /// `word_start_index` and column `filter_start_index` (see `align_step`): where the words
    /// run ahead, their unmatched words become new optional columns; otherwise the columns with
    /// no word are made optional and the unmatched words become alternatives of the columns
    /// just before the match. Returns the boundary reached, or (-1, -1) with nothing changed.
    pub fn normalise_lengths_before_first_match(
        &mut self,
        words: &Vec<String>,
        filter_index: usize,
        word_start_index: usize,
        filter_start_index: usize,
    ) -> (r: (isize, isize))
        requires
            old(self).wf(),
            words.len() <= MAX_ITEMS,
            filter_index < old(self).filters.len() ==> old(self).filters[filter_index as int].len()
                + words.len() <= MAX_ITEMS,
        ensures
            final(self).wf(),
            final(self).denote_optional == old(self).denote_optional,
            final(self).filters.len() == old(self).filters.len(),
            (final(self).filters_view(), final(self).index_view(), r.0 as int, r.1 as int)
                == align_step(
                old(self).filters_view(),
                old(self).index_view(),
                words.deep_view(),
                filter_index as int,
                old(self).marker(),
                word_start_index as int,
                filter_start_index as int,
            ),
    {
        let ghost wv = words.deep_view();
        let ghost fv = self.filters_view();
        let ghost iv = self.index_view();
        let ghost marker = self.marker();
        let (first_word, first_filter) = self.get_indexes_of_earliest_matching_word(
            words,
            filter_index,
            word_start_index,
            filter_start_index,
        );
        proof {
            lemma_earliest_match(fv, iv, wv, filter_index as int, word_start_index as int, filter_start_index as int);
        }
        if first_word < 0 || first_filter < 0 {
            return (-1, -1);
        }
        let w0 = first_word as usize;
        let c0 = first_filter as usize;
        let k = w0 - word_start_index;
        let ghost f = fv[filter_index as int];
        let mut filter: Vec<Vec<String>> = Vec::new();
        self.filters.set_and_swap(filter_index, &mut filter);
        assert(filter.deep_view() == f);
        let result: (isize, isize);
        let ghost nfl: Filter;
        if k > c0 - filter_start_index {
            let mut tail = filter.split_off(c0);
            assert(tail.deep_view() =~= f.subrange(c0 as int, f.len() as int));
            assert(filter.deep_view() =~= f.subrange(0, c0 as int));
            let mut t: usize = word_start_index;
            while t < w0
                invariant
                    word_start_index <= t <= w0,
                    w0 < words.len(),
                    c0 < f.len(),
                    wv == words.deep_view(),
                    marker == self.denote_optional@,
                    filter.deep_view() == f.subrange(0, c0 as int) + Seq::new(
                        (t - word_start_index) as nat,
                        |x: int| seq![wv[word_start_index + x], marker],
                    ),
                decreases w0 - t,
            {
                let ghost prevs = Seq::new(
                    (t - word_start_index) as nat,
                    |x: int| seq![wv[word_start_index + x], marker],
                );
                let ghost nexts = Seq::new(
                    (t + 1 - word_start_index) as nat,
                    |x: int| seq![wv[word_start_index + x], marker],
                );
                let col = vec![words[t].clone(), self.denote_optional.clone()];
                assert(col.deep_view() =~= seq![wv[t as int], marker]);
                let ghost before = filter.deep_view();
                filter.push(col);
                assert(filter.deep_view() =~= before.push(seq![wv[t as int], marker]));
                assert(nexts =~= prevs.push(seq![wv[t as int], marker]));
                assert(filter.deep_view() =~= f.subrange(0, c0 as int) + nexts);
                t += 1;
            }
            filter.append(&mut tail);
            proof {
                nfl = insert_front_columns(f, wv, word_start_index as int, w0 as int, c0 as int, marker);
                assert(filter.deep_view() =~= nfl);
            }
            result = (w0 as isize, (c0 + k) as isize);
        } else {
            let mid = c0 - k;
            let mut j: usize = filter_start_index;
            while j < mid
                invariant
                    filter_start_index <= j <= mid,
                    mid <= c0 < f.len(),
                    filter.len() == f.len(),
                    marker == self.denote_optional@,
                    forall|x: int| 0 <= x < f.len() ==> #[trigger] filter.deep_view()[x] == if filter_start_index <= x < j {
                        add_alt(f[x], marker)
                    } else {
                        f[x]
                    },
                decreases mid - j,
            {
                let ghost prev = filter.deep_view();
                let mut col: Vec<String> = Vec::new();
                filter.set_and_swap(j, &mut col);
                assert(col.deep_view() == prev[j as int]);
                add_alternative(&mut col, &self.denote_optional);
                filter.set_and_swap(j, &mut col);
                assert forall|x: int| 0 <= x < f.len() implies #[trigger] filter.deep_view()[x] == if x == j {
                    add_alt(f[x], marker)
                } else {
                    prev[x]
                } by {}
                j += 1;
            }
            while j < c0
                invariant
                    mid <= j <= c0,
                    c0 < f.len(),
                    mid == c0 - k,
                    w0 == word_start_index + k,
                    w0 < words.len(),
                    filter.len() == f.len(),
                    wv == words.deep_view(),
                    forall|x: int| 0 <= x < f.len() ==> #[trigger] filter.deep_view()[x] == if filter_start_index <= x < mid {
                        add_alt(f[x], marker)
                    } else if mid <= x < j {
                        add_alt(f[x], wv[word_start_index + x - mid])
                    } else {
                        f[x]
                    },
                decreases c0 - j,
            {
                let ghost prev = filter.deep_view();
                let mut col: Vec<String> = Vec::new();
                filter.set_and_swap(j, &mut col);
                assert(col.deep_view() == prev[j as int]);
                let wi = word_start_index + (j - mid);
                assert(wv[wi as int] == words[wi as int]@);
                add_alternative(&mut col, &words[wi]);
                filter.set_and_swap(j, &mut col);
                assert forall|x: int| 0 <= x < f.len() implies #[trigger] filter.deep_view()[x] == if x == j {
                    add_alt(f[x], wv[word_start_index + x - mid])
                } else {
                    prev[x]
                } by {}
                j += 1;
            }
            proof {
                nfl = stretch_columns(f, wv, word_start_index as int, filter_start_index as int, w0 as int, c0 as int, marker);
                assert(filter.deep_view() =~= nfl);
            }
            result = (w0 as isize, c0 as isize);
        }
        let ghost nf = fv.update(filter_index as int, nfl);
        self.filters.set_and_swap(filter_index, &mut filter);
        assert(self.filters_view() =~= nf);
        assert(self.wf()) by {
            assert forall|x: int| 0 <= x < self.filters.len() implies #[trigger] self.filters[x].len() <= MAX_ITEMS by {
                if x != filter_index {
                    assert(self.filters[x] == old(self).filters[x]);
                } else {
                    assert(self.filters[x].deep_view().len() == self.filters[x].len());
                }
            }
        }
        let mut t: usize = word_start_index;
        while t < w0
            invariant
                word_start_index <= t <= w0,
                w0 < words.len(),
                wv == words.deep_view(),
                self.wf(),
                self.filters_view() == nf,
                self.filters.len() == old(self).filters.len(),
                self.denote_optional == old(self).denote_optional,
                self.index_view() == hash_update_all(nf, iv, wv, filter_index, word_start_index as int, t as int),
            decreases w0 - t,
        {
            assert(wv[t as int] == words[t as int]@);
            self.update_hash(&words[t], filter_index);
            t += 1;
        }
        result
    }
}

/// Turns `f` back to front.
pub fn reverse_filter(f: &mut Vec<Vec<String>>)
    ensures
        final(f).deep_view() == reversed(old(f).deep_view()),
{
    let ghost orig = f.deep_view();
    let mut out: Vec<Vec<String>> = Vec::new();
    while f.len() > 0
        invariant
            out.len() + f.len() == orig.len(),
            f.deep_view() == orig.subrange(0, f.len() as int),
            forall|i: int| 0 <= i < out.len() ==> #[trigger] out.deep_view()[i] == orig[orig.len() - 1 - i],
        decreases f.len(),
    {
        let ghost old_f = *f;
        let ghost prev_out = out.deep_view();
        assert(old_f.deep_view()[old_f.len() - 1] == orig[old_f.len() - 1]);
        let col = f.pop().unwrap();
        assert(col == old_f@[old_f.len() - 1]);
        assert(col.deep_view() == orig[f.len() as int]);
        out.push(col);
        assert(f.deep_view() =~= orig.subrange(0, f.len() as int)) by {
            assert forall|i: int| 0 <= i < f.len() implies f.deep_view()[i] == old_f.deep_view()[i] by {}
        }
        assert forall|i: int| 0 <= i < out.len() implies #[trigger] out.deep_view()[i] == orig[orig.len() - 1 - i] by {
            if i < out.len() - 1 {
                assert(out.deep_view()[i] == prev_out[i]);
            }
        }
    }
    assert(out.deep_view() =~= reversed(orig));
    *f = out;
}

impl FilterStore {
    /// The first alignment step and the forward pass of a merge (see `merge_words`); returns
    /// the boundary reached.
    fn forward_merge(&mut self, words: &Vec<String>, filter_index: usize, append_tail: bool) -> (r: (
        isize,
        isize,
    ))
        requires
            old(self).wf(),
            words.len() <= MAX_ITEMS,
            filter_index < old(self).filters.len(),
            old(self).filters[filter_index as int].len() + 2 * words.len() <= MAX_ITEMS,
        ensures
            final(self).wf(),
            final(self).denote_optional == old(self).denote_optional,
            final(self).filters.len() == old(self).filters.len(),
            (r.0 == -1 && r.1 == -1) || (0 <= r.0 < words.len() && 0 <= r.1),
            r.0 >= 0 ==> final(self).filters[filter_index as int].len() <= old(self).filters[filter_index as int].len() + r.0,
            ({
                let (f1, x1, a0, a1) = align_step(
                    old(self).filters_view(),
                    old(self).index_view(),
                    words.deep_view(),
                    filter_index as int,
                    old(self).marker(),
                    0,
                    0,
                );
                (final(self).filters_view(), final(self).index_view(), r.0 as int, r.1 as int) == if a0
                    >= 0 && a1 >= 0 && words.len() > a0 {
                    forward_pass(f1, x1, words.deep_view(), filter_index as int, old(self).marker(), a0, a1, append_tail)
                } else {
                    (f1, x1, a0, a1)
                }
            }),
    {
        let ghost wv = words.deep_view();
        let ghost marker = self.marker();
        let ghost orig_len = self.filters[filter_index as int].len();
        let ghost n = self.filters.len();
        proof {
            lemma_align_step(self.filters_view(), self.index_view(), wv, filter_index as int, marker, 0, 0);
        }
        let mut indexes = self.normalise_lengths_before_first_match(words, filter_index, 0, 0);
        let ghost f1 = self.filters_view();
        let ghost x1 = self.index_view();
        let ghost target = if indexes.0 >= 0 && indexes.1 >= 0 && words.len() > indexes.0 {
            forward_pass(f1, x1, wv, filter_index as int, marker, indexes.0 as int, indexes.1 as int, append_tail)
        } else {
            (f1, x1, indexes.0 as int, indexes.1 as int)
        };
        while indexes.0 >= 0 && indexes.1 >= 0 && words.len() > indexes.0 as usize
            invariant_except_break
                target == if indexes.0 >= 0 && indexes.1 >= 0 && words.len() > indexes.0 {
                    forward_pass(self.filters_view(), self.index_view(), wv, filter_index as int, marker, indexes.0 as int, indexes.1 as int, append_tail)
                } else {
                    (self.filters_view(), self.index_view(), indexes.0 as int, indexes.1 as int)
                },
            invariant
                self.wf(),
                words.len() <= MAX_ITEMS,
                wv == words.deep_view(),
                marker == self.marker(),
                self.denote_optional == old(self).denote_optional,
                self.filters.len() == n,
                filter_index < n,
                orig_len + 2 * words.len() <= MAX_ITEMS,
                (indexes.0 == -1 && indexes.1 == -1) || (0 <= indexes.0 < words.len() && 0 <= indexes.1
                    <= self.filters[filter_index as int].len()),
                indexes.0 >= 0 ==> self.filters[filter_index as int].len() <= orig_len + indexes.0,
                indexes.0 < 0 ==> self.filters[filter_index as int].len() == orig_len,
            ensures
                target == (self.filters_view(), self.index_view(), indexes.0 as int, indexes.1 as int),
            decreases words.len() - indexes.0, self.filters[filter_index as int].len() - indexes.1,
        {
            proof {
                lemma_align_step(self.filters_view(), self.index_view(), wv, filter_index as int, marker, indexes.0 as int, indexes.1 as int);
            }
            let new_indexes = self.normalise_lengths_before_first_match(
                words,
                filter_index,
                indexes.0 as usize,
                indexes.1 as usize,
            );
            if new_indexes.0 == -1 || new_indexes.1 == -1 {
                break;
            }
            if new_indexes.0 != indexes.0 || new_indexes.1 != indexes.1 {
                indexes = new_indexes;
            } else {
                if indexes.0 == words.len() as isize - 1 {
                    break;
                }
                if append_tail && indexes.1 == self.filters[filter_index].len() as isize - 1 {
                    break;
                }
                indexes.0 = indexes.0 + 1;
                indexes.1 = indexes.1 + 1;
            }
        }
        indexes
    }

    /// Appends `words[from..]` to template `filter_index` as optional columns and registers them.
    fn append_tail_columns(&mut self, words: &Vec<String>, filter_index: usize, from: usize)
        requires
            old(self).wf(),
            filter_index < old(self).filters.len(),
            from == old(self).filters[filter_index as int].len(),
            from < words.len() <= MAX_ITEMS,
        ensures
            final(self).wf(),
            final(self).denote_optional == old(self).denote_optional,
            ({
                let f2 = old(self).filters_view();
                let wv = words.deep_view();
                let nf = f2.update(
                    filter_index as int,
                    f2[filter_index as int] + Seq::new(
                        (words.len() - from) as nat,
                        |t: int| seq![wv[from + t], old(self).marker()],
                    ),
                );
                final(self).filters_view() == nf && final(self).index_view() == hash_update_all(
                    nf,
                    old(self).index_view(),
                    wv,
                    filter_index,
                    from as int,
                    words.len() as int,
                )
            }),
    {
        let ghost wv = words.deep_view();
        let ghost marker = self.marker();
        let ghost f2 = self.filters_view();
        let ghost x2 = self.index_view();
        let ghost tail = Seq::new(
            (words.len() - from) as nat,
            |t: int| seq![wv[from + t], marker],
        );
        let ghost nf = f2.update(filter_index as int, f2[filter_index as int] + tail);
        let mut filter: Vec<Vec<String>> = Vec::new();
        self.filters.set_and_swap(filter_index, &mut filter);
        assert(filter.deep_view() == f2[filter_index as int]);
        let mut t: usize = from;
        while t < words.len()
            invariant
                from <= t <= words.len(),
                wv == words.deep_view(),
                marker == self.denote_optional@,
                filter_index < f2.len(),
                tail == Seq::new((words.len() - from) as nat, |x: int| seq![wv[from + x], marker]),
                filter.deep_view() == f2[filter_index as int] + tail.subrange(0, t - from),
            decreases words.len() - t,
        {
            let col = vec![words[t].clone(), self.denote_optional.clone()];
            assert(col.deep_view() =~= seq![wv[t as int], marker]);
            let ghost before = filter.deep_view();
            filter.push(col);
            assert(filter.deep_view() =~= before.push(seq![wv[t as int], marker]));
            assert(tail[t - from] == seq![wv[t as int], marker]);
            assert(tail.subrange(0, t + 1 - from) =~= tail.subrange(0, t - from).push(seq![wv[t as int], marker]));
            assert(filter.deep_view() =~= f2[filter_index as int] + tail.subrange(0, t + 1 - from));
            t += 1;
        }
        assert(tail.subrange(0, t - from) =~= tail);
        self.filters.set_and_swap(filter_index, &mut filter);
        assert(self.filters_view() =~= nf);
        assert(self.wf()) by {
            assert forall|x: int| 0 <= x < self.filters.len() implies #[trigger] self.filters[x].len() <= MAX_ITEMS by {
                if x != filter_index {
                    assert(self.filters[x] == old(self).filters[x]);
                } else {
                    assert(self.filters[x].deep_view().len() == self.filters[x].len());
                }
            }
        }
        let mut t: usize = from;
        while t < words.len()
            invariant
                from <= t <= words.len(),
                wv == words.deep_view(),
                self.wf(),
                self.filters_view() == nf,
                self.denote_optional == old(self).denote_optional,
                self.index_view() == hash_update_all(nf, x2, wv, filter_index, from as int, t as int),
            decreases words.len() - t,
        {
            assert(wv[t as int] == words[t as int]@);
            self.update_hash(&words[t], filter_index);
            t += 1;
        }
    }

    /// One alignment step on the reversed words and the reversed template, which is then
    /// turned back.
    fn reverse_align(&mut self, words: &Vec<String>, filter_index: usize)
        requires
            old(self).wf(),
            filter_index < old(self).filters.len(),
            words.len() <= MAX_ITEMS,
            old(self).filters[filter_index as int].len() + words.len() <= MAX_ITEMS,
        ensures
            final(self).wf(),
            final(self).denote_optional == old(self).denote_optional,
            ({
                let f2 = old(self).filters_view();
                let rf = f2.update(filter_index as int, reversed(f2[filter_index as int]));
                let (f3, x3, c0, c1) = align_step(
                    rf,
                    old(self).index_view(),
                    reversed(words.deep_view()),
                    filter_index as int,
                    old(self).marker(),
                    0,
                    0,
                );
                final(self).filters_view() == f3.update(filter_index as int, reversed(f3[filter_index as int]))
                    && final(self).index_view() == x3
            }),
    {
        let ghost wv = words.deep_view();
        let ghost f2 = self.filters_view();
        let mut reversed_words: Vec<String> = Vec::new();
        let mut t: usize = words.len();
        while t > 0
            invariant
                t <= words.len(),
                wv == words.deep_view(),
                reversed_words.len() == words.len() - t,
                forall|i: int| 0 <= i < reversed_words.len() ==> #[trigger] reversed_words.deep_view()[i] == wv[wv.len() - 1 - i],
            decreases t,
        {
            t -= 1;
            let ghost prev = reversed_words.deep_view();
            reversed_words.push(words[t].clone());
            assert forall|i: int| 0 <= i < reversed_words.len() implies #[trigger] reversed_words.deep_view()[i] == wv[wv.len() - 1 - i] by {
                if i < reversed_words.len() - 1 {
                    assert(reversed_words.deep_view()[i] == prev[i]);
                } else {
                    assert(reversed_words.deep_view()[i] == words[t as int]@);
                }
            }
        }
        assert(reversed_words.deep_view() =~= reversed(wv));
        let mut filter: Vec<Vec<String>> = Vec::new();
        self.filters.set_and_swap(filter_index, &mut filter);
        assert(filter.deep_view() == f2[filter_index as int]);
        reverse_filter(&mut filter);
        self.filters.set_and_swap(filter_index, &mut filter);
        let ghost rf = f2.update(filter_index as int, reversed(f2[filter_index as int]));
        assert(self.filters_view() =~= rf);
        assert(self.filters[filter_index as int].len() == old(self).filters[filter_index as int].len()) by {
            assert(self.filters[filter_index as int].deep_view().len() == self.filters[filter_index as int].len());
        }
        assert(self.wf()) by {
            assert(self.filters.len() == old(self).filters.len());
            assert forall|x: int| 0 <= x < self.filters.len() implies #[trigger] self.filters[x].len() <= MAX_ITEMS by {
                if x != filter_index {
                    assert(self.filters[x] == old(self).filters[x]);
                }
            }
            assert forall|w: Word| #[trigger] self.index_view().contains_key(w) implies bucket_ok(
                self.index_view()[w],
                self.filters.len() as int,
            ) by {
                assert(old(self).index_view().contains_key(w));
            }
        }
        self.normalise_lengths_before_first_match(&reversed_words, filter_index, 0, 0);
        let ghost f3 = self.filters_view();
        let ghost mid = self.filters;
        let mut filter: Vec<Vec<String>> = Vec::new();
        self.filters.set_and_swap(filter_index, &mut filter);
        assert(filter.deep_view() == f3[filter_index as int]);
        reverse_filter(&mut filter);
        self.filters.set_and_swap(filter_index, &mut filter);
        assert(self.filters_view() =~= f3.update(filter_index as int, reversed(f3[filter_index as int])));
        assert(self.wf()) by {
            assert(self.filters.len() == mid.len());
            assert forall|x: int| 0 <= x < self.filters.len() implies #[trigger] self.filters[x].len() <= MAX_ITEMS by {
                if x == filter_index {
                    assert(self.filters[x].deep_view().len() == self.filters[x].len());
                    assert(mid[x].deep_view().len() == mid[x].len());
                } else {
                    assert(self.filters[x] == mid[x]);
                }
            }
        }
    }

    /// Merges `words` into template `filter_index` (see `merge_words`).
    pub fn merge(&mut self, words: &Vec<String>, filter_index: usize, append_tail: bool)
        requires
            old(self).wf(),
            words.len() <= MAX_ITEMS,
        ensures
            final(self).wf(),
            final(self).denote_optional == old(self).denote_optional,
            (final(self).filters_view(), final(self).index_view()) == merge_words(
                old(self).filters_view(),
                old(self).index_view(),
                words.deep_view(),
                filter_index as int,
                old(self).marker(),
                append_tail,
            ),
    {
        if filter_index >= self.filters.len() || words.len() == 0 {
            return;
        }
        if self.filters[filter_index].len() + 2 * words.len() > MAX_ITEMS {
            return;
        }
        let ghost orig_len = self.filters[filter_index as int].len();
        let indexes = self.forward_merge(words, filter_index, append_tail);
        if indexes.0 >= 0 && indexes.1 >= 0 {
            let filter_length = self.filters[filter_index].len();
            assert(self.filters_view()[filter_index as int].len() == filter_length);
            if append_tail && words.len() > filter_length && indexes.1 == filter_length as isize - 1 {
                self.append_tail_columns(words, filter_index, filter_length);
            } else if (indexes.0 as usize) < words.len() {
                self.reverse_align(words, filter_index);
            }
        }
    }
}

} // verus!
