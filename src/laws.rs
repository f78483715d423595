use vstd::prelude::*;
use crate::align::{
    add_alt, align_step, earliest_match, earliest_walk, forward_pass, insert_front_columns,
    lemma_align_step, lemma_earliest_match, merge_words, reversed, stretch_columns,
};
use crate::clog::min_req_learned;
use crate::words::{is_delimiter, kept_words, line_words, split_from};
use crate::logmap::{best_match, best_walk, candidate_walk, candidates, learned, loaded};
use crate::store::{
    add_to_bucket, added, buckets_concat, consequent_matches, filter_has, first_column_from,
    hash_update, hash_update_all, indexed, insert_pos, lemma_add_to_bucket_keeps,
    lemma_first_column_from_bounds, lemma_insert_pos_bounds, lemma_sorted_ids, match_walk,
    new_filter_of, optional_count, pushed, register_column, register_filter, sorted,
    word_in_filter, word_index_in_filter, Column, Filter, Index, Word, MAX_ITEMS,
};
use crate::text::{
    bracket_columns, column_text, filter_text, filters_text, join, parsed_bracket_line,
    split_pair,
};

verus! {

/// The reverse index lists exactly the words that the templates hold: a word other than the
/// marker is in the bucket of template `t` iff a column of `t` holds it, and the marker is in
/// no bucket.
pub open spec fn index_consistent(filters: Seq<Filter>, index: Index, marker: Word) -> bool {
    &&& forall|w: Word, t: int| #[trigger]
        indexed(index, w, t) ==> w != marker && word_in_filter(filters, t, w)
    &&& forall|w: Word, t: int|
        w != marker && #[trigger] word_in_filter(filters, t, w) ==> indexed(index, w, t)
}

/// Where the alignment moves the forward pass, the number of templates stays.
pub proof fn lemma_forward_pass_len(
    filters: Seq<Filter>,
    index: Index,
    words: Seq<Word>,
    fi: int,
    marker: Word,
    i0: int,
    i1: int,
    stop_at_end: bool,
)
    ensures
        forward_pass(filters, index, words, fi, marker, i0, i1, stop_at_end).0.len() == filters.len(),
    decreases words.len() - i0, filters[fi].len() - i1,
{
    if 0 <= fi < filters.len() && 0 <= i0 < words.len() && 0 <= i1 {
        lemma_align_step(filters, index, words, fi, marker, i0, i1);
        let (f2, x2, n0, n1) = align_step(filters, index, words, fi, marker, i0, i1);
        if n0 == -1 || n1 == -1 {
        } else if n0 != i0 || n1 != i1 {
            if f2.len() == filters.len() && ((i0 < n0 <= words.len()) || (n0 == i0 && i1 < n1
                <= f2[fi].len() && f2[fi].len() == filters[fi].len())) {
                lemma_forward_pass_len(f2, x2, words, fi, marker, n0, n1, stop_at_end);
            }
        } else if i0 == words.len() - 1 || (stop_at_end && i1 == f2[fi].len() - 1) {
        } else if f2.len() == filters.len() && i1 < f2[fi].len() {
            lemma_forward_pass_len(f2, x2, words, fi, marker, i0 + 1, i1 + 1, stop_at_end);
        }
    }
}

/// A merge keeps the number of templates.
pub proof fn lemma_merge_len(
    filters: Seq<Filter>,
    index: Index,
    words: Seq<Word>,
    fi: int,
    marker: Word,
    append_tail: bool,
)
    ensures
        merge_words(filters, index, words, fi, marker, append_tail).0.len() == filters.len(),
{
    if !(fi < 0 || fi >= filters.len() || words.len() == 0 || filters[fi].len() + 2 * words.len()
        > crate::store::MAX_ITEMS) {
        lemma_align_step(filters, index, words, fi, marker, 0, 0);
        let (f1, x1, a0, a1) = align_step(filters, index, words, fi, marker, 0, 0);
        if a0 >= 0 && a1 >= 0 && words.len() > a0 {
            lemma_forward_pass_len(f1, x1, words, fi, marker, a0, a1, append_tail);
        }
        let (f2, x2, b0, b1) = if a0 >= 0 && a1 >= 0 && words.len() > a0 {
            forward_pass(f1, x1, words, fi, marker, a0, a1, append_tail)
        } else {
            (f1, x1, a0, a1)
        };
        let rf = f2.update(fi, reversed(f2[fi]));
        lemma_align_step(rf, x2, reversed(words), fi, marker, 0, 0);
    }
}

/// Learning a line never removes a template: the count stays, or grows by one where the line
/// makes a new template.
pub proof fn lemma_learn_template_count(
    filters: Seq<Filter>,
    index: Index,
    marker: Word,
    words: Seq<Word>,
    k: int,
)
    ensures
        ({
            let n = learned(filters, index, marker, words, k).0.len();
            n == filters.len() || n == filters.len() + 1
        }),
{
    let b = crate::logmap::best_match(filters, index, marker, words, k);
    if b >= 0 {
        lemma_merge_len(filters, index, words, b, marker, true);
    }
}

/// The same holds where lines are compared by a minimum number of matches.
pub proof fn lemma_min_req_learn_template_count(
    filters: Seq<Filter>,
    index: Index,
    marker: Word,
    words: Seq<Word>,
    k: int,
    min_req: int,
)
    ensures
        ({
            let n = min_req_learned(filters, index, marker, words, k, min_req).0.len();
            n == filters.len() || n == filters.len() + 1
        }),
{
    let b = crate::clog::min_req_best(filters, index, words, k, min_req);
    if b >= 0 {
        lemma_merge_len(filters, index, words, b, marker, false);
    }
}

/// A template id enters a bucket by `add_to_bucket` only where it is added.
pub proof fn lemma_add_to_bucket_indexed(index: Index, w: Word, fi: usize, v: Word, t: int)
    ensures
        indexed(add_to_bucket(index, w, fi), v, t) <==> (indexed(index, v, t) || (v == w && t
            == fi as int)),
{
    if indexed(index, v, t) {
        lemma_add_to_bucket_keeps(index, w, fi, v, t as usize);
    }
    if !index.contains_key(w) && v == w {
        assert(seq![fi][0] == fi);
    }
    if index.contains_key(w) && !index[w].contains(fi) && v == w {
        let b = index[w];
        let p = insert_pos(b, fi);
        lemma_insert_pos_bounds(b, fi);
        let nb = b.insert(p, fi);
        assert(nb[p] == fi);
        if 0 <= t && nb.contains(t as usize) {
            let j = choose|j: int| 0 <= j < nb.len() && nb[j] == t as usize;
            if j < p {
                assert(b[j] == t as usize);
            } else if j > p {
                assert(b[j - 1] == t as usize);
            }
        }
    }
}

/// Registering words for template `fi` after it changed keeps the index exact, where the
/// template kept its words and gained only the marker and words that are registered.
pub proof fn lemma_register_partial(
    filters: Seq<Filter>,
    index: Index,
    marker: Word,
    nf: Seq<Filter>,
    words: Seq<Word>,
    fi: int,
    a: int,
    m: int,
)
    requires
        index_consistent(filters, index, marker),
        0 <= fi < nf.len(),
        nf.len() <= usize::MAX,
        nf.len() == filters.len() || (nf.len() == filters.len() + 1 && fi == filters.len()),
        forall|x: int| 0 <= x < filters.len() && x != fi ==> nf[x] == filters[x],
        fi < filters.len() ==> forall|w: Word| filter_has(filters[fi], w) ==> filter_has(nf[fi], w),
        forall|j: int| a <= j < m ==> words[j] != marker,
        0 <= a <= m <= words.len(),
    ensures
        ({
            let idx = hash_update_all(nf, index, words, fi as usize, a, m);
            &&& forall|w: Word, t: int| #[trigger]
                indexed(idx, w, t) ==> w != marker && word_in_filter(nf, t, w)
            &&& forall|w: Word, t: int|
                w != marker && #[trigger] word_in_filter(filters, t, w) ==> indexed(idx, w, t)
            &&& forall|j: int|
                a <= j < m && filter_has(nf[fi], words[j]) ==> #[trigger] indexed(idx, words[j], fi)
        }),
    decreases m - a,
{
    if m <= a {
        assert forall|w: Word, t: int| #[trigger] indexed(index, w, t) implies w != marker
            && word_in_filter(nf, t, w) by {
            assert(word_in_filter(filters, t, w));
            if t != fi {
                assert(nf[t] == filters[t]);
            }
        }
    } else {
        lemma_register_partial(filters, index, marker, nf, words, fi, a, m - 1);
        let prev = hash_update_all(nf, index, words, fi as usize, a, m - 1);
        let idx = hash_update_all(nf, index, words, fi as usize, a, m);
        let wm = words[m - 1];
        assert(idx == hash_update(nf, prev, wm, fi as usize));
        if word_in_filter(nf, fi, wm) {
            assert(idx == add_to_bucket(prev, wm, fi as usize));
            assert forall|w: Word, t: int| #[trigger] indexed(idx, w, t) implies w != marker
                && word_in_filter(nf, t, w) by {
                lemma_add_to_bucket_indexed(prev, wm, fi as usize, w, t);
            }
            assert forall|w: Word, t: int|
                w != marker && #[trigger] word_in_filter(filters, t, w) implies indexed(idx, w, t) by {
                lemma_add_to_bucket_indexed(prev, wm, fi as usize, w, t);
            }
            assert forall|j: int|
                a <= j < m && filter_has(nf[fi], words[j]) implies #[trigger] indexed(idx, words[j], fi) by {
                lemma_add_to_bucket_indexed(prev, wm, fi as usize, words[j], fi);
            }
        } else {
            assert(idx == prev);
            assert forall|j: int|
                a <= j < m && filter_has(nf[fi], words[j]) implies #[trigger] indexed(idx, words[j], fi) by {
                if j == m - 1 {
                    assert(word_in_filter(nf, fi, wm));
                }
            }
        }
    }
}

/// The exactness of the index survives a template change followed by registering the words
/// that the template may have gained.
pub proof fn lemma_register_consistent(
    filters: Seq<Filter>,
    index: Index,
    marker: Word,
    nf: Seq<Filter>,
    words: Seq<Word>,
    fi: int,
    a: int,
    b: int,
)
    requires
        index_consistent(filters, index, marker),
        0 <= fi < nf.len(),
        nf.len() <= usize::MAX,
        nf.len() == filters.len() || (nf.len() == filters.len() + 1 && fi == filters.len()),
        forall|x: int| 0 <= x < filters.len() && x != fi ==> nf[x] == filters[x],
        fi < filters.len() ==> forall|w: Word| filter_has(filters[fi], w) ==> filter_has(nf[fi], w),
        forall|w: Word|
            filter_has(nf[fi], w) ==> (fi < filters.len() && filter_has(filters[fi], w)) || w
                == marker || words.subrange(a, b).contains(w),
        forall|j: int| a <= j < b ==> words[j] != marker,
        0 <= a <= b <= words.len(),
    ensures
        index_consistent(nf, hash_update_all(nf, index, words, fi as usize, a, b), marker),
{
    lemma_register_partial(filters, index, marker, nf, words, fi, a, b);
    let idx = hash_update_all(nf, index, words, fi as usize, a, b);
    assert forall|w: Word, t: int| w != marker && #[trigger] word_in_filter(nf, t, w) implies indexed(
        idx,
        w,
        t,
    ) by {
        if t != fi {
            assert(nf[t] == filters[t]);
            assert(word_in_filter(filters, t, w));
        } else if fi < filters.len() && filter_has(filters[fi], w) {
            assert(word_in_filter(filters, t, w));
        } else {
            let j = choose|j: int| 0 <= j < b - a && words.subrange(a, b)[j] == w;
            assert(words[a + j] == w);
            assert(indexed(idx, words[a + j], fi));
        }
    }
}

/// The columns that `insert_front_columns` adds hold the marker and the words passed.
pub proof fn lemma_insert_front_words(
    f: Filter,
    words: Seq<Word>,
    ws: int,
    w0: int,
    c0: int,
    marker: Word,
)
    requires
        0 <= c0 <= f.len(),
        0 <= ws <= w0 <= words.len(),
    ensures
        forall|w: Word| filter_has(f, w) ==> filter_has(insert_front_columns(f, words, ws, w0, c0, marker), w),
        forall|w: Word|
            filter_has(insert_front_columns(f, words, ws, w0, c0, marker), w) ==> filter_has(f, w)
                || w == marker || words.subrange(ws, w0).contains(w),
{
    let nf = insert_front_columns(f, words, ws, w0, c0, marker);
    let k = w0 - ws;
    assert(nf.len() == f.len() + k);
    assert forall|w: Word| filter_has(f, w) implies filter_has(nf, w) by {
        let j = choose|j: int| 0 <= j < f.len() && f[j].contains(w);
        if j < c0 {
            assert(nf[j] == f[j]);
        } else {
            assert(nf[j + k] == f[j]);
        }
    }
    assert forall|w: Word| filter_has(nf, w) implies filter_has(f, w) || w == marker
        || words.subrange(ws, w0).contains(w) by {
        let j = choose|j: int| 0 <= j < nf.len() && nf[j].contains(w);
        if j < c0 {
            assert(nf[j] == f[j]);
        } else if j < c0 + k {
            assert(nf[j] == seq![words[ws + j - c0], marker]);
            if w != marker {
                assert(w == words[ws + j - c0]);
                assert(words.subrange(ws, w0)[j - c0] == w);
            }
        } else {
            assert(nf[j] == f[j - k]);
        }
    }
}

/// A column with `x` added holds what it held and `x`.
pub proof fn lemma_add_alt_contains(c: Seq<Word>, x: Word, w: Word)
    ensures
        add_alt(c, x).contains(w) <==> (c.contains(w) || w == x),
{
    if !c.contains(x) {
        let n = c.push(x);
        assert(n[c.len() as int] == x);
        if c.contains(w) {
            let i = choose|i: int| 0 <= i < c.len() && c[i] == w;
            assert(n[i] == w);
        }
        if n.contains(w) {
            let i = choose|i: int| 0 <= i < n.len() && n[i] == w;
            if i < c.len() {
                assert(c[i] == w);
            }
        }
    }
}

/// The columns that `stretch_columns` changes gain the marker or a word passed.
pub proof fn lemma_stretch_words(
    f: Filter,
    words: Seq<Word>,
    ws: int,
    fs: int,
    w0: int,
    c0: int,
    marker: Word,
)
    requires
        0 <= ws <= w0 <= words.len(),
        0 <= fs <= c0 - (w0 - ws),
        c0 <= f.len(),
    ensures
        forall|w: Word| filter_has(f, w) ==> filter_has(stretch_columns(f, words, ws, fs, w0, c0, marker), w),
        forall|w: Word|
            filter_has(stretch_columns(f, words, ws, fs, w0, c0, marker), w) ==> filter_has(f, w)
                || w == marker || words.subrange(ws, w0).contains(w),
{
    let nf = stretch_columns(f, words, ws, fs, w0, c0, marker);
    let k = w0 - ws;
    assert forall|w: Word| filter_has(f, w) implies filter_has(nf, w) by {
        let j = choose|j: int| 0 <= j < f.len() && f[j].contains(w);
        lemma_add_alt_contains(f[j], marker, w);
        if c0 - k <= j < c0 {
            lemma_add_alt_contains(f[j], words[ws + j - (c0 - k)], w);
        }
        assert(nf[j].contains(w));
    }
    assert forall|w: Word| filter_has(nf, w) implies filter_has(f, w) || w == marker
        || words.subrange(ws, w0).contains(w) by {
        let j = choose|j: int| 0 <= j < nf.len() && nf[j].contains(w);
        if fs <= j < c0 - k {
            lemma_add_alt_contains(f[j], marker, w);
            if !f[j].contains(w) {
                assert(w == marker);
            }
        } else if c0 - k <= j < c0 {
            let x = words[ws + j - (c0 - k)];
            lemma_add_alt_contains(f[j], x, w);
            if !f[j].contains(w) {
                assert(w == x);
                assert(words.subrange(ws, w0)[j - (c0 - k)] == w);
            }
        } else {
            assert(nf[j] == f[j]);
        }
    }
}

/// One alignment step keeps the reverse index exact, where no word is the marker.
pub proof fn lemma_align_step_consistent(
    filters: Seq<Filter>,
    index: Index,
    words: Seq<Word>,
    fi: int,
    marker: Word,
    ws: int,
    fs: int,
)
    requires
        index_consistent(filters, index, marker),
        !words.contains(marker),
        filters.len() <= usize::MAX,
    ensures
        index_consistent(
            align_step(filters, index, words, fi, marker, ws, fs).0,
            align_step(filters, index, words, fi, marker, ws, fs).1,
            marker,
        ),
{
    lemma_earliest_match(filters, index, words, fi, ws, fs);
    let (w0, c0) = earliest_match(filters, index, words, fi, ws, fs);
    if w0 >= 0 && c0 >= 0 {
        let f = filters[fi];
        assert forall|j: int| ws <= j < w0 implies words[j] != marker by {
            if words[j] == marker {
                assert(words.contains(marker));
            }
        }
        if w0 - ws > c0 - fs {
            lemma_insert_front_words(f, words, ws, w0, c0, marker);
            let nf = filters.update(fi, insert_front_columns(f, words, ws, w0, c0, marker));
            lemma_register_consistent(filters, index, marker, nf, words, fi, ws, w0);
        } else {
            lemma_stretch_words(f, words, ws, fs, w0, c0, marker);
            let nf = filters.update(fi, stretch_columns(f, words, ws, fs, w0, c0, marker));
            lemma_register_consistent(filters, index, marker, nf, words, fi, ws, w0);
        }
    }
}

/// The forward pass keeps the reverse index exact, where no word is the marker.
pub proof fn lemma_forward_pass_consistent(
    filters: Seq<Filter>,
    index: Index,
    words: Seq<Word>,
    fi: int,
    marker: Word,
    i0: int,
    i1: int,
    stop_at_end: bool,
)
    requires
        index_consistent(filters, index, marker),
        !words.contains(marker),
        filters.len() <= usize::MAX,
    ensures
        index_consistent(
            forward_pass(filters, index, words, fi, marker, i0, i1, stop_at_end).0,
            forward_pass(filters, index, words, fi, marker, i0, i1, stop_at_end).1,
            marker,
        ),
    decreases words.len() - i0, filters[fi].len() - i1,
{
    if 0 <= fi < filters.len() && 0 <= i0 < words.len() && 0 <= i1 {
        lemma_align_step(filters, index, words, fi, marker, i0, i1);
        lemma_align_step_consistent(filters, index, words, fi, marker, i0, i1);
        let (f2, x2, n0, n1) = align_step(filters, index, words, fi, marker, i0, i1);
        if n0 == -1 || n1 == -1 {
        } else if n0 != i0 || n1 != i1 {
            if f2.len() == filters.len() && ((i0 < n0 <= words.len()) || (n0 == i0 && i1 < n1
                <= f2[fi].len() && f2[fi].len() == filters[fi].len())) {
                lemma_forward_pass_consistent(f2, x2, words, fi, marker, n0, n1, stop_at_end);
            }
        } else if i0 == words.len() - 1 || (stop_at_end && i1 == f2[fi].len() - 1) {
        } else if f2.len() == filters.len() && i1 < f2[fi].len() {
            lemma_forward_pass_consistent(f2, x2, words, fi, marker, i0 + 1, i1 + 1, stop_at_end);
        }
    }
}

/// Turning template `fi` back to front keeps the reverse index exact.
pub proof fn lemma_reverse_consistent(filters: Seq<Filter>, index: Index, marker: Word, fi: int)
    requires
        index_consistent(filters, index, marker),
        0 <= fi < filters.len(),
    ensures
        index_consistent(filters.update(fi, reversed(filters[fi])), index, marker),
{
    let nf = filters.update(fi, reversed(filters[fi]));
    let f = filters[fi];
    assert forall|w: Word, t: int| word_in_filter(nf, t, w) <==> word_in_filter(filters, t, w) by {
        if t == fi {
            if filter_has(f, w) {
                let j = choose|j: int| 0 <= j < f.len() && f[j].contains(w);
                assert(reversed(f)[f.len() - 1 - j] == f[j]);
            }
            if filter_has(reversed(f), w) {
                let j = choose|j: int| 0 <= j < f.len() && reversed(f)[j].contains(w);
                assert(reversed(f)[j] == f[f.len() - 1 - j]);
            }
        }
    }
}

/// A merge keeps the reverse index exact, where no word is the marker.
pub proof fn lemma_merge_consistent(
    filters: Seq<Filter>,
    index: Index,
    words: Seq<Word>,
    fi: int,
    marker: Word,
    append_tail: bool,
)
    requires
        index_consistent(filters, index, marker),
        !words.contains(marker),
        filters.len() <= usize::MAX,
    ensures
        index_consistent(
            merge_words(filters, index, words, fi, marker, append_tail).0,
            merge_words(filters, index, words, fi, marker, append_tail).1,
            marker,
        ),
{
    if !(fi < 0 || fi >= filters.len() || words.len() == 0 || filters[fi].len() + 2 * words.len()
        > crate::store::MAX_ITEMS) {
        lemma_align_step(filters, index, words, fi, marker, 0, 0);
        lemma_align_step_consistent(filters, index, words, fi, marker, 0, 0);
        let (f1, x1, a0, a1) = align_step(filters, index, words, fi, marker, 0, 0);
        if a0 >= 0 && a1 >= 0 && words.len() > a0 {
            lemma_forward_pass_len(f1, x1, words, fi, marker, a0, a1, append_tail);
            lemma_forward_pass_consistent(f1, x1, words, fi, marker, a0, a1, append_tail);
        }
        let (f2, x2, b0, b1) = if a0 >= 0 && a1 >= 0 && words.len() > a0 {
            forward_pass(f1, x1, words, fi, marker, a0, a1, append_tail)
        } else {
            (f1, x1, a0, a1)
        };
        let flen = f2[fi].len();
        if !(b0 >= 0 && b1 >= 0) {
        } else if append_tail && words.len() > flen && b1 == flen - 1 {
            let tail = Seq::new((words.len() - flen) as nat, |t: int| seq![words[flen + t], marker]);
            let g = f2[fi] + tail;
            let nf = f2.update(fi, g);
            assert forall|j: int| flen <= j < words.len() implies words[j] != marker by {
                if words[j] == marker {
                    assert(words.contains(marker));
                }
            }
            assert forall|w: Word| filter_has(f2[fi], w) implies filter_has(g, w) by {
                let j = choose|j: int| 0 <= j < f2[fi].len() && f2[fi][j].contains(w);
                assert(g[j] == f2[fi][j]);
            }
            assert forall|w: Word| filter_has(g, w) implies (fi < f2.len() && filter_has(f2[fi], w))
                || w == marker || words.subrange(flen as int, words.len() as int).contains(w) by {
                let j = choose|j: int| 0 <= j < g.len() && g[j].contains(w);
                if j < flen {
                    assert(g[j] == f2[fi][j]);
                } else {
                    assert(g[j] == seq![words[j], marker]);
                    if w != marker {
                        assert(words.subrange(flen as int, words.len() as int)[j - flen] == w);
                    }
                }
            }
            lemma_register_consistent(f2, x2, marker, nf, words, fi, flen as int, words.len() as int);
        } else if b0 < words.len() {
            let rf = f2.update(fi, reversed(f2[fi]));
            lemma_reverse_consistent(f2, x2, marker, fi);
            let rw = reversed(words);
            assert(!rw.contains(marker)) by {
                if rw.contains(marker) {
                    let j = choose|j: int| 0 <= j < rw.len() && rw[j] == marker;
                    assert(words[words.len() - 1 - j] == marker);
                }
            }
            lemma_align_step(rf, x2, rw, fi, marker, 0, 0);
            lemma_align_step_consistent(rf, x2, rw, fi, marker, 0, 0);
            let (f3, x3, c0, c1) = align_step(rf, x2, rw, fi, marker, 0, 0);
            lemma_reverse_consistent(f3, x3, marker, fi);
        }
    }
}

/// The template of a word sequence holds only words of the sequence.
pub proof fn lemma_new_filter_words(words: Seq<Word>)
    ensures
        forall|w: Word| filter_has(new_filter_of(words), w) ==> words.contains(w),
    decreases words.len(),
{
    if words.len() > 0 {
        lemma_new_filter_words(words.drop_last());
        let rest = new_filter_of(words.drop_last());
        let nf = new_filter_of(words);
        assert forall|w: Word| filter_has(nf, w) implies words.contains(w) by {
            let j = choose|j: int| 0 <= j < nf.len() && nf[j].contains(w);
            if j < rest.len() {
                assert(nf[j] == rest[j]);
                assert(filter_has(rest, w));
                assert(words.drop_last().contains(w));
                let i = choose|i: int| 0 <= i < words.drop_last().len() && words.drop_last()[i] == w;
                assert(words[i] == w);
            } else {
                assert(nf[j] == seq![words.last()]);
                assert(words[words.len() - 1] == w);
            }
        }
    }
}

/// Making a new template keeps the reverse index exact, where no word is the marker.
pub proof fn lemma_added_consistent(filters: Seq<Filter>, index: Index, words: Seq<Word>, marker: Word)
    requires
        index_consistent(filters, index, marker),
        !words.contains(marker),
        filters.len() <= usize::MAX,
        filters.len() <= usize::MAX,
    ensures
        index_consistent(added(filters, index, words).0, added(filters, index, words).1, marker),
{
    let g = new_filter_of(words);
    if !(g.len() == 0 || filters.len() >= crate::store::MAX_ITEMS || words.len() > crate::store::MAX_ITEMS) {
        let nf = filters.push(g);
        lemma_new_filter_words(words);
        assert(words.subrange(0, words.len() as int) =~= words);
        assert forall|j: int| 0 <= j < words.len() implies words[j] != marker by {
            if words[j] == marker {
                assert(words.contains(marker));
            }
        }
        assert forall|x: int| 0 <= x < filters.len() && x != filters.len() implies nf[x] == filters[x] by {}
        lemma_register_consistent(filters, index, marker, nf, words, filters.len() as int, 0, words.len() as int);
    }
}

/// Learning a line keeps the reverse index exact: a word other than the marker is listed for
/// a template iff the template holds it, and the marker is listed for none. The words of the
/// line must not include the marker.
pub proof fn lemma_learn_keeps_index_consistent(
    filters: Seq<Filter>,
    index: Index,
    marker: Word,
    words: Seq<Word>,
    k: int,
)
    requires
        index_consistent(filters, index, marker),
        !words.contains(marker),
        filters.len() <= usize::MAX,
    ensures
        index_consistent(
            learned(filters, index, marker, words, k).0,
            learned(filters, index, marker, words, k).1,
            marker,
        ),
{
    let b = crate::logmap::best_match(filters, index, marker, words, k);
    if b >= 0 {
        lemma_merge_consistent(filters, index, words, b, marker, true);
    } else {
        lemma_added_consistent(filters, index, words, marker);
    }
}

/// The same holds where lines are compared by a minimum number of matches.
pub proof fn lemma_min_req_learn_keeps_index_consistent(
    filters: Seq<Filter>,
    index: Index,
    marker: Word,
    words: Seq<Word>,
    k: int,
    min_req: int,
)
    requires
        index_consistent(filters, index, marker),
        !words.contains(marker),
        filters.len() <= usize::MAX,
    ensures
        index_consistent(
            min_req_learned(filters, index, marker, words, k, min_req).0,
            min_req_learned(filters, index, marker, words, k, min_req).1,
            marker,
        ),
{
    let b = crate::clog::min_req_best(filters, index, words, k, min_req);
    if b >= 0 {
        lemma_merge_consistent(filters, index, words, b, marker, false);
    } else {
        lemma_added_consistent(filters, index, words, marker);
    }
}

/// An empty store's reverse index is exact.
pub proof fn lemma_empty_consistent(marker: Word)
    ensures
        index_consistent(Seq::<Filter>::empty(), Map::<Word, Seq<usize>>::empty(), marker),
{
}

/// What `best_walk` keeps: nothing yet, or a candidate and its score.
pub proof fn lemma_best_walk(
    filters: Seq<Filter>,
    index: Index,
    words: Seq<Word>,
    k: int,
    cands: Seq<usize>,
    i: int,
    best: int,
    max: int,
)
    requires
        0 <= i,
        (best == -1 && max == 0) || (0 <= best && cands.contains(best as usize) && best <= usize::MAX
            && crate::store::consequent_matches(filters, index, words, best, k) == max),
    ensures
        ({
            let (b, m) = best_walk(filters, index, words, k, cands, i, best, max);
            (b == -1 && m == 0) || (0 <= b <= usize::MAX && cands.contains(b as usize)
                && crate::store::consequent_matches(filters, index, words, b, k) == m)
        }),
    decreases cands.len() - i,
{
    if i < cands.len() {
        let sc = crate::store::consequent_matches(filters, index, words, cands[i] as int, k);
        if sc > max {
            assert(cands.contains(cands[i]));
            lemma_best_walk(filters, index, words, k, cands, i + 1, cands[i] as int, sc);
        } else {
            lemma_best_walk(filters, index, words, k, cands, i + 1, best, max);
        }
    }
}

/// A line is matched to the best-scoring candidate exactly when that score `s` reaches
/// `n - k`, for `n` words and `k` allowed new alternatives; the template matched is that
/// candidate.
pub proof fn lemma_acceptance_threshold(
    filters: Seq<Filter>,
    index: Index,
    marker: Word,
    words: Seq<Word>,
    k: int,
)
    requires
        filters.len() > 0,
        words.len() > 0,
    ensures
        ({
            let cands = candidates(filters, index, marker, words, k);
            let (b, s) = best_walk(filters, index, words, k, cands, 0, -1, 0);
            &&& b >= 0 ==> cands.contains(b as usize) && crate::store::consequent_matches(
                filters,
                index,
                words,
                b,
                k,
            ) == s
            &&& b >= 0 ==> (best_match(filters, index, marker, words, k) >= 0 <==> s >= words.len()
                - k)
            &&& best_match(filters, index, marker, words, k) >= 0 ==> best_match(
                filters,
                index,
                marker,
                words,
                k,
            ) == b
        }),
{
    let cands = candidates(filters, index, marker, words, k);
    lemma_best_walk(filters, index, words, k, cands, 0, -1, 0);
}

/// Cutting at a delimiter: what lies before it and what lies after it are cut apart.
pub proof fn lemma_split_at_delimiter(s: Seq<char>, d: char, y: Seq<char>, cur: Seq<char>, a: char, b: char)
    requires
        d == a || d == b,
    ensures
        split_pair(s + seq![d] + y, cur, a, b) == split_pair(s, cur, a, b) + split_pair(y, Seq::empty(), a, b),
    decreases s.len(),
{
    let lhs = s + seq![d] + y;
    if s.len() == 0 {
        assert(lhs =~= seq![d] + y);
        assert(lhs.drop_first() =~= y);
        assert(split_pair(s, cur, a, b) == (if cur.len() > 0 {
            seq![cur]
        } else {
            Seq::<Seq<char>>::empty()
        }));
    } else {
        assert(lhs[0] == s[0]);
        assert(lhs.drop_first() =~= s.drop_first() + seq![d] + y);
        if s[0] == a || s[0] == b {
            lemma_split_at_delimiter(s.drop_first(), d, y, Seq::empty(), a, b);
            let head = if cur.len() > 0 {
                seq![cur]
            } else {
                Seq::<Seq<char>>::empty()
            };
            assert(head + (split_pair(s.drop_first(), Seq::empty(), a, b) + split_pair(y, Seq::empty(), a, b))
                =~= head + split_pair(s.drop_first(), Seq::empty(), a, b) + split_pair(y, Seq::empty(), a, b));
        } else {
            lemma_split_at_delimiter(s.drop_first(), d, y, cur.push(s[0]), a, b);
        }
    }
}

/// A piece without delimiters comes out whole.
pub proof fn lemma_split_plain(w: Seq<char>, cur: Seq<char>, a: char, b: char)
    requires
        forall|i: int| 0 <= i < w.len() ==> w[i] != a && w[i] != b,
        cur.len() + w.len() > 0,
    ensures
        split_pair(w, cur, a, b) == seq![cur + w],
    decreases w.len(),
{
    if w.len() == 0 {
        assert(cur + w =~= cur);
    } else {
        assert(w.drop_first().len() < w.len());
        lemma_split_plain(w.drop_first(), cur.push(w[0]), a, b);
        assert(cur.push(w[0]) + w.drop_first() =~= cur + w);
    }
}

/// The words of a stored column carry no character of the format.
pub open spec fn plain_word(w: Word) -> bool {
    &&& w.len() > 0
    &&& forall|i: int|
        0 <= i < w.len() ==> #[trigger] w[i] != '[' && w[i] != ']' && w[i] != ',' && w[i] != '\n'
}

/// A template that text can carry: columns and words present, words plain.
pub open spec fn plain_filter(f: Filter) -> bool {
    &&& f.len() > 0
    &&& forall|j: int| 0 <= j < f.len() ==> #[trigger] f[j].len() > 0
    &&& forall|j: int, x: int| 0 <= j < f.len() && 0 <= x < f[j].len() ==> #[trigger] plain_word(f[j][x])
}

/// A column's alternatives joined by commas are read back by cutting at commas.
pub proof fn lemma_split_join(c: Column)
    requires
        forall|x: int| 0 <= x < c.len() ==> #[trigger] plain_word(c[x]),
    ensures
        split_pair(join(c, seq![',']), Seq::empty(), ',', ',') == c,
        forall|i: int| 0 <= i < join(c, seq![',']).len() ==> #[trigger] join(c, seq![','])[i] != '['
            && join(c, seq![','])[i] != ']' && join(c, seq![','])[i] != '\n',
        c.len() > 0 ==> join(c, seq![',']).len() > 0,
        c.len() > 1 ==> join(c, seq![',']).len() > 1,
    decreases c.len(),
{
    let j = join(c, seq![',']);
    if c.len() == 0 {
    } else if c.len() == 1 {
        assert(plain_word(c[0]));
        lemma_split_plain(c[0], Seq::empty(), ',', ',');
        assert(Seq::<char>::empty() + c[0] =~= c[0]);
        assert(seq![c[0]] =~= c);
    } else {
        let init = c.drop_last();
        assert forall|x: int| 0 <= x < init.len() implies #[trigger] plain_word(init[x]) by {
            assert(init[x] == c[x]);
        }
        lemma_split_join(init);
        let ji = join(init, seq![',']);
        assert(j == ji + seq![','] + c.last());
        lemma_split_at_delimiter(ji, ',', c.last(), Seq::empty(), ',', ',');
        assert(plain_word(c[c.len() - 1]));
        lemma_split_plain(c.last(), Seq::empty(), ',', ',');
        assert(Seq::<char>::empty() + c.last() =~= c.last());
        assert(init + seq![c.last()] =~= c);
        assert forall|i: int| 0 <= i < j.len() implies #[trigger] j[i] != '[' && j[i] != ']' && j[i] != '\n' by {
            if i < ji.len() {
                assert(j[i] == ji[i]);
            } else if i == ji.len() {
                assert(j[i] == ',');
            } else {
                assert(j[i] == c.last()[i - ji.len() - 1]);
            }
        }
    }
}

/// The pieces between brackets of the first `m` columns of `f` as text: each column's
/// alternatives joined by commas, with a lone comma between two columns.
pub open spec fn bracket_parts(f: Filter, m: int) -> Seq<Seq<char>>
    decreases m,
{
    if m <= 0 {
        Seq::empty()
    } else if m == 1 {
        seq![join(f[0], seq![','])]
    } else {
        bracket_parts(f, m - 1) + seq![seq![',']] + seq![join(f[m - 1], seq![','])]
    }
}

/// The first `m` columns of `f` as text.
pub open spec fn columns_text(f: Filter, m: int) -> Seq<char> {
    join(Seq::new(m as nat, |j: int| column_text(f[j])), seq![','])
}

/// Cutting the text of `m` columns at brackets gives `bracket_parts`, whatever follows; the
/// text starts with `[` and ends with `]`.
pub proof fn lemma_columns_text_split(f: Filter, m: int, tail: Seq<char>)
    requires
        plain_filter(f),
        1 <= m <= f.len(),
    ensures
        split_pair(columns_text(f, m) + tail, Seq::empty(), '[', ']') == bracket_parts(f, m)
            + split_pair(tail, Seq::empty(), '[', ']'),
        columns_text(f, m).len() > 0,
        columns_text(f, m)[0] == '[',
        columns_text(f, m).last() == ']',
    decreases m,
{
    let items = Seq::new(m as nat, |j: int| column_text(f[j]));
    let c = f[m - 1];
    assert forall|x: int| 0 <= x < c.len() implies #[trigger] plain_word(c[x]) by {
        assert(plain_word(f[m - 1][x]));
    }
    lemma_split_join(c);
    let a = join(c, seq![',']);
    assert(f[m - 1].len() > 0);
    lemma_split_plain(a, Seq::empty(), '[', ']');
    assert(Seq::<char>::empty() + a =~= a);
    let t = column_text(c);
    if m == 1 {
        assert(columns_text(f, m) == t);
        assert(t + tail =~= Seq::<char>::empty() + seq!['['] + (a + seq![']'] + tail));
        lemma_split_at_delimiter(Seq::empty(), '[', a + seq![']'] + tail, Seq::empty(), '[', ']');
        lemma_split_at_delimiter(a, ']', tail, Seq::empty(), '[', ']');
        assert(split_pair(Seq::<char>::empty(), Seq::empty(), '[', ']') =~= Seq::<Seq<char>>::empty());
        assert(Seq::<Seq<char>>::empty() + (seq![a] + split_pair(tail, Seq::empty(), '[', ']')) =~= seq![a]
            + split_pair(tail, Seq::empty(), '[', ']'));
    } else {
        lemma_columns_text_split(f, m - 1, seq![',']);
        let prev = columns_text(f, m - 1);
        let prev_items = Seq::new((m - 1) as nat, |j: int| column_text(f[j]));
        assert(items.drop_last() =~= prev_items);
        assert(columns_text(f, m) == prev + seq![','] + t);
        let x = prev + seq![','];
        assert(columns_text(f, m) + tail =~= x + seq!['['] + (a + seq![']'] + tail));
        lemma_split_at_delimiter(x, '[', a + seq![']'] + tail, Seq::empty(), '[', ']');
        lemma_split_at_delimiter(a, ']', tail, Seq::empty(), '[', ']');
        lemma_split_plain(seq![','], Seq::empty(), '[', ']');
        assert(Seq::<char>::empty() + seq![','] =~= seq![',']);
        assert(bracket_parts(f, m - 1) + seq![seq![',']] + (seq![a] + split_pair(tail, Seq::empty(), '[', ']'))
            =~= bracket_parts(f, m) + split_pair(tail, Seq::empty(), '[', ']'));
        assert((prev + seq![','] + t)[0] == prev[0]);
    }
}

/// Reading back the parts of `m` columns gives the columns.
pub proof fn lemma_bracket_parts_columns(f: Filter, m: int)
    requires
        plain_filter(f),
        0 <= m <= f.len(),
    ensures
        bracket_columns(bracket_parts(f, m)) == f.subrange(0, m),
        bracket_columns(bracket_parts(f, m) + seq![seq![',']]) == f.subrange(0, m),
    decreases m,
{
    let p = bracket_parts(f, m);
    assert((p + seq![seq![',']]).drop_last() =~= p);
    assert((p + seq![seq![',']]).last() == seq![',']);
    if m == 0 {
        assert(f.subrange(0, 0) =~= Seq::<Column>::empty());
    } else {
        let c = f[m - 1];
        assert forall|x: int| 0 <= x < c.len() implies #[trigger] plain_word(c[x]) by {
            assert(plain_word(f[m - 1][x]));
        }
        lemma_split_join(c);
        let a = join(c, seq![',']);
        assert(a != seq![',']) by {
            if a == seq![','] {
                if c.len() == 1 {
                    assert(plain_word(c[0]));
                    assert(a[0] == c[0][0]);
                }
            }
        }
        assert(p.last() == a);
        assert(split_pair(a, Seq::empty(), ',', ',') == c);
        if m == 1 {
            assert(p.drop_last() =~= Seq::<Seq<char>>::empty());
            assert(bracket_columns(Seq::<Seq<char>>::empty()) == Seq::<Column>::empty());
            assert(f.subrange(0, 1) =~= seq![c]);
            assert(Seq::<Column>::empty().push(c) =~= seq![c]);
        } else {
            lemma_bracket_parts_columns(f, m - 1);
            assert(p.drop_last() =~= bracket_parts(f, m - 1) + seq![seq![',']]);
            assert(f.subrange(0, m - 1).push(c) =~= f.subrange(0, m));
        }
    }
}

/// A stored template line, with or without the comma that ends all but the last, reads back
/// as the template.
pub proof fn lemma_filter_line(f: Filter, comma: bool)
    requires
        plain_filter(f),
    ensures
        parsed_bracket_line(filter_text(f) + if comma {
            seq![',']
        } else {
            Seq::<char>::empty()
        }) == Some(f),
{
    let tail = if comma {
        seq![',']
    } else {
        Seq::<char>::empty()
    };
    let m = f.len() as int;
    let line = filter_text(f) + tail;
    assert(filter_text(f) == columns_text(f, m)) by {
        assert(Seq::new(f.len(), |j: int| column_text(f[j])) =~= Seq::new(m as nat, |j: int| column_text(f[j])));
    }
    lemma_columns_text_split(f, m, tail);
    lemma_bracket_parts_columns(f, m);
    assert(f.subrange(0, m) =~= f);
    let ft = filter_text(f);
    assert(line[0] == '[');
    assert(line[ft.len() - 1] == ']');
    if comma {
        lemma_split_plain(seq![','], Seq::empty(), '[', ']');
        assert(Seq::<char>::empty() + seq![','] =~= seq![',']);
    } else {
        assert(split_pair(tail, Seq::empty(), '[', ']') =~= Seq::<Seq<char>>::empty());
        assert(bracket_parts(f, m) + Seq::<Seq<char>>::empty() =~= bracket_parts(f, m));
    }
}

/// The text of `m` columns holds no line break.
pub proof fn lemma_columns_text_one_line(f: Filter, m: int)
    requires
        plain_filter(f),
        0 <= m <= f.len(),
    ensures
        forall|i: int| 0 <= i < columns_text(f, m).len() ==> #[trigger] columns_text(f, m)[i] != '\n',
    decreases m,
{
    if m > 0 {
        let c = f[m - 1];
        assert forall|x: int| 0 <= x < c.len() implies #[trigger] plain_word(c[x]) by {
            assert(plain_word(f[m - 1][x]));
        }
        lemma_split_join(c);
        let t = column_text(c);
        let a = join(c, seq![',']);
        assert forall|i: int| 0 <= i < t.len() implies #[trigger] t[i] != '\n' by {
            if 0 < i < t.len() - 1 {
                assert(t[i] == a[i - 1]);
            }
        }
        let items = Seq::new(m as nat, |j: int| column_text(f[j]));
        if m == 1 {
            assert(columns_text(f, m) == t);
        } else {
            lemma_columns_text_one_line(f, m - 1);
            let prev = columns_text(f, m - 1);
            assert(items.drop_last() =~= Seq::new((m - 1) as nat, |j: int| column_text(f[j])));
            assert(columns_text(f, m) == prev + seq![','] + t);
            assert forall|i: int| 0 <= i < columns_text(f, m).len() implies #[trigger] columns_text(f, m)[i] != '\n' by {
                if i < prev.len() {
                    assert(columns_text(f, m)[i] == prev[i]);
                } else if i > prev.len() {
                    assert(columns_text(f, m)[i] == t[i - prev.len() - 1]);
                }
            }
        }
    }
}

/// The lines that stored templates take: each template's text, followed by a comma on all
/// lines but the last.
pub open spec fn stored_lines(fs: Seq<Filter>) -> Seq<Seq<char>> {
    Seq::new(
        fs.len(),
        |i: int|
            filter_text(fs[i]) + if i < fs.len() - 1 {
                seq![',']
            } else {
                Seq::<char>::empty()
            },
    )
}

/// The stored text is the stored lines joined by line breaks.
pub proof fn lemma_stored_lines_join(fs: Seq<Filter>)
    ensures
        join(stored_lines(fs), seq!['\n']) == filters_text(fs),
    decreases fs.len(),
{
    if fs.len() > 1 {
        let init = fs.drop_last();
        lemma_stored_lines_join(init);
        let l = stored_lines(fs);
        let li = stored_lines(init);
        let last_i = filter_text(init.last());
        assert(l.drop_last() =~= li.drop_last().push(last_i + seq![',']));
        assert(l.drop_last().drop_last() =~= li.drop_last());
        assert(l.drop_last().last() == last_i + seq![',']);
        assert(li.last() == last_i);
        let items = Seq::new(fs.len(), |i: int| filter_text(fs[i]));
        let items_i = Seq::new(init.len(), |i: int| filter_text(init[i]));
        assert(items.drop_last() =~= items_i);
        if init.len() == 1 {
            assert(join(l.drop_last(), seq!['\n']) == last_i + seq![',']);
            assert(join(li, seq!['\n']) == last_i);
        } else {
            assert(join(l.drop_last(), seq!['\n']) == join(li.drop_last(), seq!['\n']) + seq!['\n'] + (last_i
                + seq![',']));
            assert(join(li, seq!['\n']) == join(li.drop_last(), seq!['\n']) + seq!['\n'] + last_i);
        }
        assert(join(l.drop_last(), seq!['\n']) =~= join(li, seq!['\n']) + seq![',']);
        assert(join(l, seq!['\n']) =~= join(items_i, seq![',', '\n']) + seq![',', '\n'] + items.last());
    } else if fs.len() == 1 {
        assert(stored_lines(fs)[0] =~= filter_text(fs[0]));
    } else {
        assert(stored_lines(fs) =~= Seq::<Seq<char>>::empty());
    }
}

/// The reverse index after registering `c` columns of `g` and `a` alternatives of the next.
pub open spec fn partial_index(nf: Seq<Filter>, index: Index, g: Filter, fi: usize, marker: Word, c: int, a: int) -> Index {
    let base = register_filter(nf, index, g, fi, marker, c);
    if c < g.len() {
        register_column(nf, base, g[c], fi, marker, a)
    } else {
        base
    }
}

/// Registering the alternatives of `g`, appended as template `fi`, lists what it holds, column
/// by column: the partial state after `c` columns and `a` alternatives of the next.
pub proof fn lemma_register_filter_partial(
    filters: Seq<Filter>,
    index: Index,
    marker: Word,
    g: Filter,
    c: int,
    a: int,
)
    requires
        index_consistent(filters, index, marker),
        filters.len() < usize::MAX,
        0 <= c < g.len() ==> 0 <= a <= g[c].len(),
        c == g.len() ==> a == 0,
        0 <= c <= g.len(),
    ensures
        ({
            let nf = filters.push(g);
            let fi = filters.len() as usize;
            let idx = partial_index(nf, index, g, fi, marker, c, a);
            &&& forall|w: Word, t: int| #[trigger]
                indexed(idx, w, t) ==> w != marker && word_in_filter(nf, t, w)
            &&& forall|w: Word, t: int|
                w != marker && #[trigger] word_in_filter(filters, t, w) ==> indexed(idx, w, t)
            &&& forall|j: int, x: int|
                0 <= j < g.len() && 0 <= x < g[j].len() && (j < c || (j == c && x < a)) && g[j][x]
                    != marker && g[j][x].len() > 0 ==> #[trigger] indexed(idx, g[j][x], fi as int)
        }),
    decreases c, a,
{
    let nf = filters.push(g);
    let fi = filters.len() as usize;
    if a > 0 {
        lemma_register_filter_partial(filters, index, marker, g, c, a - 1);
        let base = register_filter(nf, index, g, fi, marker, c);
        let prev = register_column(nf, base, g[c], fi, marker, a - 1);
        let idx = register_column(nf, base, g[c], fi, marker, a);
        assert(c < g.len());
        assert(prev == partial_index(nf, index, g, fi, marker, c, a - 1));
        assert(idx == partial_index(nf, index, g, fi, marker, c, a));
        let w = g[c][a - 1];
        assert(forall|v: Word, t: int| #[trigger] indexed(prev, v, t) ==> v != marker && word_in_filter(nf, t, v));
        assert(forall|v: Word, t: int| v != marker && #[trigger] word_in_filter(filters, t, v) ==> indexed(prev, v, t));
        if !(w == marker || w.len() == 0) {
            assert(word_in_filter(nf, fi as int, w)) by {
                assert(nf[fi as int] == g);
                assert(g[c].contains(w));
            }
            assert(idx == add_to_bucket(prev, w, fi));
            assert forall|v: Word, t: int| #[trigger] indexed(idx, v, t) implies v != marker
                && word_in_filter(nf, t, v) by {
                lemma_add_to_bucket_indexed(prev, w, fi, v, t);
            }
            assert forall|v: Word, t: int|
                v != marker && #[trigger] word_in_filter(filters, t, v) implies indexed(idx, v, t) by {
                lemma_add_to_bucket_indexed(prev, w, fi, v, t);
            }
            assert forall|j: int, x: int|
                0 <= j < g.len() && 0 <= x < g[j].len() && (j < c || (j == c && x < a)) && g[j][x]
                    != marker && g[j][x].len() > 0 implies #[trigger] indexed(idx, g[j][x], fi as int) by {
                lemma_add_to_bucket_indexed(prev, w, fi, g[j][x], fi as int);
            }
        }
    } else if c > 0 {
        lemma_register_filter_partial(filters, index, marker, g, c - 1, g[c - 1].len() as int);
        let base = register_filter(nf, index, g, fi, marker, c);
        assert(base == register_column(nf, register_filter(nf, index, g, fi, marker, c - 1), g[c - 1], fi, marker, g[c - 1].len() as int));
        if c < g.len() {
            assert(register_column(nf, base, g[c], fi, marker, 0) == base);
        }
        assert(partial_index(nf, index, g, fi, marker, c - 1, g[c - 1].len() as int) == base);
        assert(partial_index(nf, index, g, fi, marker, c, 0) == base);
    } else {
        assert(register_filter(nf, index, g, fi, marker, 0) == index);
        if 0 < g.len() {
            assert(register_column(nf, index, g[0], fi, marker, 0) == index);
        }
        assert(partial_index(nf, index, g, fi, marker, 0, 0) == index);
        assert forall|w: Word, t: int| #[trigger] indexed(index, w, t) implies w != marker
            && word_in_filter(nf, t, w) by {
            assert(word_in_filter(filters, t, w));
            assert(nf[t] == filters[t]);
        }
    }
}

/// Appending a template without empty words keeps the reverse index exact.
pub proof fn lemma_pushed_consistent(filters: Seq<Filter>, index: Index, g: Filter, marker: Word)
    requires
        index_consistent(filters, index, marker),
        filters.len() <= MAX_ITEMS,
        forall|j: int, x: int| 0 <= j < g.len() && 0 <= x < g[j].len() ==> #[trigger] g[j][x].len() > 0,
    ensures
        index_consistent(pushed(filters, index, g, marker).0, pushed(filters, index, g, marker).1, marker),
{
    if !(filters.len() >= MAX_ITEMS || g.len() > MAX_ITEMS) {
        lemma_register_filter_partial(filters, index, marker, g, g.len() as int, 0);
        let nf = filters.push(g);
        let fi = filters.len() as usize;
        let idx = register_filter(nf, index, g, fi, marker, g.len() as int);
        assert(idx == partial_index(nf, index, g, fi, marker, g.len() as int, 0));
        assert forall|w: Word, t: int| w != marker && #[trigger] word_in_filter(nf, t, w) implies indexed(idx, w, t) by {
            if t < filters.len() {
                assert(nf[t] == filters[t]);
                assert(word_in_filter(filters, t, w));
            } else {
                assert(nf[t] == g);
                let j = choose|j: int| 0 <= j < g.len() && g[j].contains(w);
                let x = choose|x: int| 0 <= x < g[j].len() && g[j][x] == w;
                assert(indexed(idx, g[j][x], fi as int));
            }
        }
    }
}

/// Storing templates as text and reading the lines back gives the same templates, in the same
/// order, and a reverse index that lists exactly what they hold. The text is the lines joined
/// by line breaks, and no line holds one. Every template, column and word must be present,
/// and no word may hold `[`, `]`, `,` or a line break.
pub proof fn lemma_round_trip(fs: Seq<Filter>, marker: Word)
    requires
        fs.len() <= MAX_ITEMS,
        forall|i: int| 0 <= i < fs.len() ==> #[trigger] plain_filter(fs[i]) && fs[i].len() <= MAX_ITEMS,
    ensures
        join(stored_lines(fs), seq!['\n']) == filters_text(fs),
        forall|i: int, j: int|
            0 <= i < fs.len() && 0 <= j < stored_lines(fs)[i].len() ==> #[trigger] stored_lines(fs)[i][j] != '\n',
        loaded(Seq::empty(), Map::empty(), marker, stored_lines(fs)).0 == fs,
        index_consistent(
            loaded(Seq::empty(), Map::empty(), marker, stored_lines(fs)).0,
            loaded(Seq::empty(), Map::empty(), marker, stored_lines(fs)).1,
            marker,
        ),
{
    lemma_stored_lines_join(fs);
    let lines = stored_lines(fs);
    assert forall|i: int, j: int| 0 <= i < fs.len() && 0 <= j < lines[i].len() implies #[trigger] lines[i][j] != '\n' by {
        let f = fs[i];
        assert(plain_filter(f));
        lemma_columns_text_one_line(f, f.len() as int);
        assert(filter_text(f) == columns_text(f, f.len() as int)) by {
            assert(Seq::new(f.len(), |x: int| column_text(f[x])) =~= Seq::new(f.len() as nat, |x: int| column_text(f[x])));
        }
        if j < filter_text(f).len() {
            assert(lines[i][j] == filter_text(f)[j]);
        }
    }
    lemma_loaded_prefix(fs, marker, fs.len() as int);
    assert(lines.subrange(0, fs.len() as int) =~= lines);
    assert(fs.subrange(0, fs.len() as int) =~= fs);
}

/// Reading the first `n` stored lines gives the first `n` templates and an exact index.
pub proof fn lemma_loaded_prefix(fs: Seq<Filter>, marker: Word, n: int)
    requires
        fs.len() <= MAX_ITEMS,
        forall|i: int| 0 <= i < fs.len() ==> #[trigger] plain_filter(fs[i]) && fs[i].len() <= MAX_ITEMS,
        0 <= n <= fs.len(),
    ensures
        loaded(Seq::empty(), Map::empty(), marker, stored_lines(fs).subrange(0, n)).0 == fs.subrange(0, n),
        index_consistent(
            loaded(Seq::empty(), Map::empty(), marker, stored_lines(fs).subrange(0, n)).0,
            loaded(Seq::empty(), Map::empty(), marker, stored_lines(fs).subrange(0, n)).1,
            marker,
        ),
    decreases n,
{
    let lines = stored_lines(fs);
    if n == 0 {
        assert(lines.subrange(0, 0) =~= Seq::<Seq<char>>::empty());
        assert(fs.subrange(0, 0) =~= Seq::<Filter>::empty());
        lemma_empty_consistent(marker);
    } else {
        lemma_loaded_prefix(fs, marker, n - 1);
        let pre = lines.subrange(0, n);
        assert(pre.drop_last() =~= lines.subrange(0, n - 1));
        assert(pre.last() == lines[n - 1]);
        let f = fs[n - 1];
        assert(plain_filter(f));
        lemma_filter_line(f, n - 1 < fs.len() - 1);
        let (pf, px) = loaded(Seq::empty(), Map::empty(), marker, lines.subrange(0, n - 1));
        assert(forall|j: int, x: int| 0 <= j < f.len() && 0 <= x < f[j].len() ==> #[trigger] f[j][x].len() > 0) by {
            assert forall|j: int, x: int| 0 <= j < f.len() && 0 <= x < f[j].len() implies #[trigger] f[j][x].len() > 0 by {
                assert(plain_word(f[j][x]));
            }
        }
        lemma_pushed_consistent(pf, px, f, marker);
        assert(fs.subrange(0, n - 1).push(f) =~= fs.subrange(0, n));
    }
}

/// A template with one column per word, each holding just that word.
pub open spec fn single_columns(f: Filter, words: Seq<Word>) -> bool {
    &&& f.len() == words.len()
    &&& forall|j: int| 0 <= j < f.len() ==> #[trigger] f[j] == seq![words[j]]
}

/// The template of non-empty words has one column per word.
pub proof fn lemma_new_filter_single(words: Seq<Word>)
    requires
        forall|j: int| 0 <= j < words.len() ==> #[trigger] words[j].len() > 0,
    ensures
        single_columns(new_filter_of(words), words),
    decreases words.len(),
{
    if words.len() > 0 {
        let init = words.drop_last();
        assert forall|j: int| 0 <= j < init.len() implies #[trigger] init[j].len() > 0 by {
            assert(init[j] == words[j]);
        }
        lemma_new_filter_single(init);
        assert(words.last().len() > 0);
    }
}

/// Registering the words of a one-template store: each word's bucket is `[0]`.
pub proof fn lemma_single_index(fs: Seq<Filter>, words: Seq<Word>, m: int)
    requires
        fs.len() == 1,
        single_columns(fs[0], words),
        0 <= m <= words.len(),
    ensures
        forall|w: Word| #[trigger] hash_update_all(fs, Map::empty(), words, 0, 0, m).contains_key(w)
            <==> words.subrange(0, m).contains(w),
        forall|w: Word| #[trigger] hash_update_all(fs, Map::empty(), words, 0, 0, m).contains_key(w)
            ==> hash_update_all(fs, Map::empty(), words, 0, 0, m)[w] == seq![0usize],
    decreases m,
{
    if m > 0 {
        lemma_single_index(fs, words, m - 1);
        let prev = hash_update_all(fs, Map::empty(), words, 0, 0, m - 1);
        let w = words[m - 1];
        assert(fs[0][m - 1] == seq![w]);
        assert(fs[0][m - 1].contains(w)) by {
            assert(seq![w][0] == w);
        }
        assert(word_in_filter(fs, 0, w));
        assert(words.subrange(0, m)[m - 1] == w);
        let idx = hash_update_all(fs, Map::empty(), words, 0, 0, m);
        assert(idx == hash_update(fs, prev, w, 0));
        assert(idx == add_to_bucket(prev, w, 0));
        if prev.contains_key(w) {
            assert(prev[w] == seq![0usize]);
            assert(prev[w].contains(0usize)) by {
                assert(prev[w][0] == 0usize);
            }
        }
        assert forall|v: Word| #[trigger] hash_update_all(fs, Map::empty(), words, 0, 0, m).contains_key(v)
            <==> words.subrange(0, m).contains(v) by {
            if words.subrange(0, m - 1).contains(v) {
                let i = choose|i: int| 0 <= i < m - 1 && #[trigger] words.subrange(0, m - 1)[i] == v;
                assert(words.subrange(0, m)[i] == v);
            }
            if words.subrange(0, m).contains(v) {
                let i = choose|i: int| 0 <= i < m && #[trigger] words.subrange(0, m)[i] == v;
                if i < m - 1 {
                    assert(words.subrange(0, m - 1)[i] == v);
                }
            }
        }
    } else {
        assert(words.subrange(0, 0) =~= Seq::<Word>::empty());
    }
}

/// The buckets of the words, where each is `[0]`, are as many zeros as there are words.
pub proof fn lemma_single_buckets(index: Index, words: Seq<Word>)
    requires
        forall|j: int| 0 <= j < words.len() ==> #[trigger] index.contains_key(words[j]) && index[words[j]]
            == seq![0usize],
    ensures
        buckets_concat(index, words) == Seq::new(words.len(), |i: int| 0usize),
    decreases words.len(),
{
    if words.len() > 0 {
        let init = words.drop_last();
        assert forall|j: int| 0 <= j < init.len() implies #[trigger] index.contains_key(init[j]) && index[init[j]]
            == seq![0usize] by {
            assert(init[j] == words[j]);
        }
        lemma_single_buckets(index, init);
        assert(index.contains_key(words[words.len() - 1]));
        assert(Seq::new(init.len(), |i: int| 0usize) + seq![0usize] =~= Seq::new(words.len(), |i: int| 0usize));
    } else {
        assert(buckets_concat(index, words) =~= Seq::new(words.len(), |i: int| 0usize));
    }
}

/// Once template 0 was emitted, the rest of an all-zero list adds nothing.
pub proof fn lemma_walk_after_zero(
    filters: Seq<Filter>,
    marker: Word,
    list: Seq<usize>,
    n_words: int,
    k: int,
    i: int,
    matches: int,
    opt: int,
)
    requires
        0 <= i,
        forall|j: int| 0 <= j < list.len() ==> list[j] == 0usize,
    ensures
        candidate_walk(filters, marker, list, n_words, k, i, matches, opt, 0, 0) == Seq::<usize>::empty(),
    decreases list.len() - i,
{
    if i < list.len() {
        lemma_walk_after_zero(filters, marker, list, n_words, k, i + 1, matches, opt);
    }
}

/// Over `n` zeros, template 0 is emitted exactly once.
pub proof fn lemma_walk_zeros(filters: Seq<Filter>, marker: Word, n: int, k: int, i: int, opt: int)
    requires
        filters.len() == 1,
        filters[0].len() == n,
        0 <= k,
        1 <= i <= n,
        opt == optional_count(filters[0], marker),
        opt >= 0,
        !(i >= n - k && i >= n - k - opt),
    ensures
        candidate_walk(filters, marker, Seq::new(n as nat, |j: int| 0usize), n, k, i, i, opt, 0, -1)
            == seq![0usize],
    decreases n - i,
{
    let list = Seq::new(n as nat, |j: int| 0usize);
    if i < n {
        let m2 = i + 1;
        if m2 >= n - k && m2 >= n - k - opt {
            lemma_walk_after_zero(filters, marker, list, n, k, i + 1, 0, opt);
            assert(seq![0usize] + Seq::<usize>::empty() =~= seq![0usize]);
        } else {
            lemma_walk_zeros(filters, marker, n, k, i + 1, opt);
        }
    }
}

/// `optional_count` is never negative.
pub proof fn lemma_optional_count_nonneg(f: Filter, marker: Word)
    ensures
        optional_count(f, marker) >= 0,
    decreases f.len(),
{
    if f.len() > 0 {
        lemma_optional_count_nonneg(f.drop_last(), marker);
    }
}

/// A one-template store made of `words` offers that template as the only candidate.
pub proof fn lemma_single_candidates(fs: Seq<Filter>, index: Index, marker: Word, words: Seq<Word>, k: int)
    requires
        fs.len() == 1,
        single_columns(fs[0], words),
        words.len() > 0,
        0 <= k,
        forall|j: int| 0 <= j < words.len() ==> #[trigger] index.contains_key(words[j]) && index[words[j]]
            == seq![0usize],
    ensures
        candidates(fs, index, marker, words, k) == seq![0usize],
{
    let n = words.len() as int;
    lemma_single_buckets(index, words);
    let zeros = Seq::new(n as nat, |j: int| 0usize);
    assert(sorted(zeros));
    lemma_sorted_ids(zeros, zeros);
    let opt = optional_count(fs[0], marker);
    lemma_optional_count_nonneg(fs[0], marker);
    if 1 >= n - k && 1 >= n - k - opt {
        lemma_walk_after_zero(fs, marker, zeros, n, k, 1, 0, opt);
        assert(seq![0usize] + Seq::<usize>::empty() =~= seq![0usize]);
    } else {
        lemma_walk_zeros(fs, marker, n, k, 1, opt);
    }
}

/// Every word of the line is found in the next column of its one-column-per-word template.
pub proof fn lemma_single_match_walk(fs: Seq<Filter>, index: Index, words: Seq<Word>, i: int, budget: int)
    requires
        fs.len() == 1,
        single_columns(fs[0], words),
        forall|j: int| 0 <= j < words.len() ==> #[trigger] words[j].len() > 0,
        forall|j: int| 0 <= j < words.len() ==> #[trigger] indexed(index, words[j], 0),
        0 <= i <= words.len(),
    ensures
        match_walk(fs, index, words, 0, i, i - 1, i, 0, budget) == words.len(),
    decreases words.len() - i,
{
    if i < words.len() {
        assert(fs[0][i] == seq![words[i]]);
        assert(fs[0][i].contains(words[i])) by {
            assert(seq![words[i]][0] == words[i]);
        }
        assert(first_column_from(fs[0], words[i], i) == i);
        lemma_single_match_walk(fs, index, words, i + 1, budget);
    }
}

/// Aligning a line against its one-column-per-word template changes nothing.
pub proof fn lemma_single_align(
    fs: Seq<Filter>,
    index: Index,
    words: Seq<Word>,
    marker: Word,
    i: int,
)
    requires
        fs.len() == 1,
        single_columns(fs[0], words),
        forall|j: int| 0 <= j < words.len() ==> #[trigger] words[j].len() > 0,
        forall|j: int| 0 <= j < words.len() ==> #[trigger] indexed(index, words[j], 0),
        0 <= i < words.len(),
    ensures
        align_step(fs, index, words, 0, marker, i, i) == (fs, index, i, i),
{
    assert(fs[0][i].contains(words[i])) by {
        assert(seq![words[i]][0] == words[i]);
    }
    assert(first_column_from(fs[0], words[i], i) == i);
    lemma_single_earliest(fs, index, words, i, i + 1);
    assert(earliest_match(fs, index, words, 0, i, i) == (i, i));
    let f = fs[0];
    assert(stretch_columns(f, words, i, i, i, i, marker) =~= f);
    assert(fs.update(0, f) =~= fs);
}

/// Past word `i`, no word is found before column `i`.
pub proof fn lemma_single_earliest(fs: Seq<Filter>, index: Index, words: Seq<Word>, i: int, from: int)
    requires
        fs.len() == 1,
        0 <= i < from <= words.len() + 1,
        i < fs[0].len(),
    ensures
        earliest_walk(fs, index, words, 0, i, from, i, i) == (i, i),
    decreases words.len() - from,
{
    if 0 <= from < words.len() {
        if words[from].len() > 0 && indexed(index, words[from], 0) {
            lemma_first_column_from_bounds(fs[0], words[from], i);
        }
        lemma_single_earliest(fs, index, words, i, from + 1);
    }
}

/// The forward pass over a line and its one-column-per-word template stalls to the end,
/// changing nothing.
pub proof fn lemma_single_forward(fs: Seq<Filter>, index: Index, words: Seq<Word>, marker: Word, i: int)
    requires
        fs.len() == 1,
        single_columns(fs[0], words),
        forall|j: int| 0 <= j < words.len() ==> #[trigger] words[j].len() > 0,
        forall|j: int| 0 <= j < words.len() ==> #[trigger] indexed(index, words[j], 0),
        0 <= i < words.len(),
    ensures
        forward_pass(fs, index, words, 0, marker, i, i, true) == (fs, index, words.len() - 1, words.len() - 1),
    decreases words.len() - i,
{
    lemma_single_align(fs, index, words, marker, i);
    if i < words.len() - 1 {
        lemma_single_forward(fs, index, words, marker, i + 1);
    }
}

/// Merging a line into its one-column-per-word template changes nothing.
pub proof fn lemma_single_merge(fs: Seq<Filter>, index: Index, words: Seq<Word>, marker: Word)
    requires
        fs.len() == 1,
        single_columns(fs[0], words),
        words.len() > 0,
        forall|j: int| 0 <= j < words.len() ==> #[trigger] words[j].len() > 0,
        forall|j: int| 0 <= j < words.len() ==> #[trigger] indexed(index, words[j], 0),
    ensures
        merge_words(fs, index, words, 0, marker, true) == (fs, index),
{
    let n = words.len() as int;
    if !(fs[0].len() + 2 * words.len() > MAX_ITEMS) {
        lemma_single_align(fs, index, words, marker, 0);
        if n > 1 {
            lemma_single_forward(fs, index, words, marker, 0);
        } else {
            lemma_single_forward(fs, index, words, marker, 0);
        }
        let rw = reversed(words);
        let rf = fs.update(0, reversed(fs[0]));
        assert(single_columns(rf[0], rw)) by {
            assert forall|j: int| 0 <= j < rf[0].len() implies #[trigger] rf[0][j] == seq![rw[j]] by {
                assert(rf[0][j] == fs[0][n - 1 - j]);
            }
        }
        assert forall|j: int| 0 <= j < rw.len() implies #[trigger] rw[j].len() > 0 by {
            assert(rw[j] == words[n - 1 - j]);
        }
        assert forall|j: int| 0 <= j < rw.len() implies #[trigger] indexed(index, rw[j], 0) by {
            assert(rw[j] == words[n - 1 - j]);
        }
        lemma_single_align(rf, index, rw, marker, 0);
        assert(rf.update(0, reversed(rf[0])) =~= fs) by {
            assert(reversed(rf[0]) =~= fs[0]);
        }
    }
}

/// From an empty store, learning a line of non-empty words twice gives the store that
/// learning it once gives, and after one learning the line matches a template.
pub proof fn lemma_learn_twice_from_empty(marker: Word, words: Seq<Word>, k: int)
    requires
        words.len() > 0,
        3 * words.len() <= MAX_ITEMS,
        0 <= k,
        forall|j: int| 0 <= j < words.len() ==> #[trigger] words[j].len() > 0,
    ensures
        ({
            let (f1, x1) = learned(Seq::empty(), Map::empty(), marker, words, k);
            &&& learned(f1, x1, marker, words, k) == (f1, x1)
            &&& best_match(f1, x1, marker, words, k) == 0
        }),
{
    let n = words.len() as int;
    lemma_new_filter_single(words);
    let t = new_filter_of(words);
    let fs = Seq::<Filter>::empty().push(t);
    let x1 = hash_update_all(fs, Map::empty(), words, 0, 0, n);
    assert(added(Seq::empty(), Map::empty(), words) == (fs, x1));
    assert(learned(Seq::empty(), Map::empty(), marker, words, k) == (fs, x1));
    lemma_single_index(fs, words, n);
    assert(words.subrange(0, n) =~= words);
    assert forall|j: int| 0 <= j < words.len() implies #[trigger] x1.contains_key(words[j]) && x1[words[j]]
        == seq![0usize] by {
        assert(words.subrange(0, n)[j] == words[j]);
        assert(words.subrange(0, n).contains(words[j]));
        assert(x1.contains_key(words[j]));
    }
    assert forall|j: int| 0 <= j < words.len() implies #[trigger] indexed(x1, words[j], 0) by {
        assert(x1.contains_key(words[j]));
        assert(x1[words[j]][0] == 0usize);
    }
    lemma_single_candidates(fs, x1, marker, words, k);
    lemma_single_match_walk(fs, x1, words, 0, k + 0);
    let extra = if fs[0].len() < words.len() {
        words.len() - fs[0].len()
    } else {
        0
    };
    lemma_single_match_walk(fs, x1, words, 0, k + extra);
    assert(consequent_matches(fs, x1, words, 0, k) == n);
    let cands = seq![0usize];
    assert(cands[0] as int == 0);
    assert(best_walk(fs, x1, words, k, cands, 1, 0, n) == (0int, n));
    assert(best_walk(fs, x1, words, k, cands, 0, -1, 0) == best_walk(fs, x1, words, k, cands, 1, 0, n));
    assert(best_match(fs, x1, marker, words, k) == 0);
    lemma_single_merge(fs, x1, words, marker);
}

/// No word cut from a line holds a delimiter.
pub proof fn lemma_split_words_plain(s: Seq<char>, cur: Seq<char>, quote: bool)
    requires
        forall|i: int| 0 <= i < cur.len() ==> !is_delimiter(#[trigger] cur[i], quote),
    ensures
        forall|j: int, i: int|
            0 <= j < split_from(s, cur, quote).len() && 0 <= i < split_from(s, cur, quote)[j].len()
                ==> !is_delimiter(#[trigger] split_from(s, cur, quote)[j][i], quote),
    decreases s.len(),
{
    let r = split_from(s, cur, quote);
    let head = if cur.len() > 0 {
        seq![cur]
    } else {
        Seq::<Seq<char>>::empty()
    };
    if s.len() == 0 {
        assert(r == head);
        assert forall|j: int, i: int| 0 <= j < r.len() && 0 <= i < r[j].len() implies !is_delimiter(#[trigger] r[j][i], quote) by {
            assert(r[j] == cur);
        }
    } else if is_delimiter(s[0], quote) {
        lemma_split_words_plain(s.drop_first(), Seq::empty(), quote);
        let rest = split_from(s.drop_first(), Seq::empty(), quote);
        assert(r == head + rest);
        assert forall|j: int, i: int| 0 <= j < r.len() && 0 <= i < r[j].len() implies !is_delimiter(#[trigger] r[j][i], quote) by {
            if j < head.len() {
                assert(r[j] == cur);
            } else {
                assert(r[j] == rest[j - head.len()]);
            }
        }
    } else {
        let c2 = cur.push(s[0]);
        assert forall|i: int| 0 <= i < c2.len() implies !is_delimiter(#[trigger] c2[i], quote) by {
            if i < cur.len() {
                assert(c2[i] == cur[i]);
            }
        }
        lemma_split_words_plain(s.drop_first(), c2, quote);
        let rest = split_from(s.drop_first(), c2, quote);
        assert(r == rest);
        assert forall|j: int, i: int| 0 <= j < r.len() && 0 <= i < r[j].len() implies !is_delimiter(#[trigger] r[j][i], quote) by {
            assert(r[j][i] == rest[j][i]);
        }
    }
}

/// The words kept from a sequence are words of it.
pub proof fn lemma_kept_words_from(raw: Seq<Word>, ignore_numeric: bool, marks: bool)
    ensures
        forall|j: int| 0 <= j < kept_words(raw, ignore_numeric, marks).len() ==> raw.contains(
            #[trigger] kept_words(raw, ignore_numeric, marks)[j],
        ),
    decreases raw.len(),
{
    if raw.len() > 0 {
        lemma_kept_words_from(raw.drop_last(), ignore_numeric, marks);
        let rest = kept_words(raw.drop_last(), ignore_numeric, marks);
        let k = kept_words(raw, ignore_numeric, marks);
        assert forall|j: int| 0 <= j < k.len() implies raw.contains(#[trigger] k[j]) by {
            if j < rest.len() {
                assert(k[j] == rest[j]);
                let i = choose|i: int| 0 <= i < raw.drop_last().len() && raw.drop_last()[i] == rest[j];
                assert(raw[i] == k[j]);
            } else {
                assert(raw[raw.len() - 1] == k[j]);
            }
        }
    }
}

/// A line never yields the word `.`, so a store whose marker is `.` keeps its reverse index
/// exact whatever lines it learns.
pub proof fn lemma_line_words_avoid_dot(line: Seq<char>, ignore_numeric: bool, marks: bool, skip: int)
    requires
        0 <= skip,
    ensures
        !line_words(line, ignore_numeric, marks, skip).contains(seq!['.']),
{
    let raw = split_from(line, Seq::empty(), true);
    lemma_split_words_plain(line, Seq::empty(), true);
    lemma_kept_words_from(raw, ignore_numeric, marks);
    let k = kept_words(raw, ignore_numeric, marks);
    let ws = line_words(line, ignore_numeric, marks, skip);
    if ws.contains(seq!['.']) {
        let j = choose|j: int| 0 <= j < ws.len() && ws[j] == seq!['.'];
        assert(skip < k.len());
        assert(ws[j] == k[j + skip]);
        assert(raw.contains(k[j + skip]));
        let x = choose|x: int| 0 <= x < raw.len() && raw[x] == k[j + skip];
        assert(raw[x][0] == '.');
        assert(is_delimiter(raw[x][0], true));
    }
}

/// A store whose marker is `.` keeps its reverse index exact through `learn_line`, whatever
/// line it learns: `after` is the store as `learn_line(line)` leaves `before`.
pub proof fn lemma_learn_line_keeps_index(before: crate::logmap::LogFilters, after: crate::logmap::LogFilters, line: Seq<char>)
    requires
        before.wf(),
        before.marker() == seq!['.'],
        index_consistent(before.filters_view(), before.index_view(), before.marker()),
        (after.filters_view(), after.index_view()) == learned(
            before.filters_view(),
            before.index_view(),
            before.marker(),
            before.words_of(line),
            before.max_allowed_new_alternatives as int,
        ),
    ensures
        index_consistent(after.filters_view(), after.index_view(), seq!['.']),
{
    lemma_line_words_avoid_dot(line, before.ignore_numeric_words, true, before.ignore_first_columns as int);
    lemma_learn_keeps_index_consistent(
        before.filters_view(),
        before.index_view(),
        before.marker(),
        before.words_of(line),
        before.max_allowed_new_alternatives as int,
    );
}

/// `best_walk` finds the highest score from `i` on (never below `max`), and a new best is the
/// first candidate that reaches it.
pub proof fn lemma_best_walk_highest(
    filters: Seq<Filter>,
    index: Index,
    words: Seq<Word>,
    k: int,
    cands: Seq<usize>,
    i: int,
    best: int,
    max: int,
)
    requires
        0 <= i,
    ensures
        ({
            let (b, m) = best_walk(filters, index, words, k, cands, i, best, max);
            &&& m >= max
            &&& forall|j: int| i <= j < cands.len() ==> #[trigger] consequent_matches(filters, index, words, cands[j] as int, k) <= m
            &&& (b == best && m == max) || exists|p: int|
                i <= p < cands.len() && cands[p] as int == b && m > max && consequent_matches(filters, index, words, b, k) == m
                    && forall|j: int| i <= j < p ==> #[trigger] consequent_matches(filters, index, words, cands[j] as int, k) < m
        }),
    decreases cands.len() - i,
{
    if i < cands.len() {
        let sc = consequent_matches(filters, index, words, cands[i] as int, k);
        if sc > max {
            lemma_best_walk_highest(filters, index, words, k, cands, i + 1, cands[i] as int, sc);
            let (b, m) = best_walk(filters, index, words, k, cands, i + 1, cands[i] as int, sc);
            if b == cands[i] as int && m == sc {
                assert(i <= i < cands.len() && cands[i] as int == b);
            } else {
                let p = choose|p: int|
                    i + 1 <= p < cands.len() && cands[p] as int == b && m > sc && consequent_matches(filters, index, words, b, k) == m
                        && forall|j: int| i + 1 <= j < p ==> #[trigger] consequent_matches(filters, index, words, cands[j] as int, k) < m;
                assert forall|j: int| i <= j < p implies #[trigger] consequent_matches(filters, index, words, cands[j] as int, k) < m by {}
            }
        } else {
            lemma_best_walk_highest(filters, index, words, k, cands, i + 1, best, max);
            let (b, m) = best_walk(filters, index, words, k, cands, i + 1, best, max);
            if !(b == best && m == max) {
                let p = choose|p: int|
                    i + 1 <= p < cands.len() && cands[p] as int == b && m > max && consequent_matches(filters, index, words, b, k) == m
                        && forall|j: int| i + 1 <= j < p ==> #[trigger] consequent_matches(filters, index, words, cands[j] as int, k) < m;
                assert forall|j: int| i <= j < p implies #[trigger] consequent_matches(filters, index, words, cands[j] as int, k) < m by {}
            }
        }
    }
}

/// The template that a line matches is the first candidate with the highest score `s`, and
/// the line is matched exactly when `s > 0` and `s >= n - k`, for `n` words and `k` allowed
/// new alternatives.
pub proof fn lemma_selection_is_first_highest(
    filters: Seq<Filter>,
    index: Index,
    marker: Word,
    words: Seq<Word>,
    k: int,
)
    requires
        filters.len() > 0,
        words.len() > 0,
    ensures
        ({
            let cands = candidates(filters, index, marker, words, k);
            let (b, s) = best_walk(filters, index, words, k, cands, 0, -1, 0);
            &&& forall|j: int| 0 <= j < cands.len() ==> #[trigger] consequent_matches(filters, index, words, cands[j] as int, k) <= s
            &&& (best_match(filters, index, marker, words, k) >= 0 <==> (s > 0 && s >= words.len() - k))
            &&& best_match(filters, index, marker, words, k) >= 0 ==> exists|p: int|
                0 <= p < cands.len() && cands[p] as int == best_match(filters, index, marker, words, k)
                    && consequent_matches(filters, index, words, cands[p] as int, k) == s
                    && forall|j: int| 0 <= j < p ==> #[trigger] consequent_matches(filters, index, words, cands[j] as int, k) < s
        }),
{
    let cands = candidates(filters, index, marker, words, k);
    lemma_best_walk_highest(filters, index, words, k, cands, 0, -1, 0);
    lemma_best_walk(filters, index, words, k, cands, 0, -1, 0);
}

/// `earliest_walk` finds the smallest column reached from word `i` on, and a new pick is the
/// first word that reaches it.
pub proof fn lemma_earliest_walk_smallest(
    filters: Seq<Filter>,
    index: Index,
    words: Seq<Word>,
    fi: int,
    fs: int,
    i: int,
    bw: int,
    bf: int,
)
    requires
        0 <= i,
        (bw == -1 && bf == -1) || (0 <= bw && 0 <= bf),
    ensures
        ({
            let (w, c) = earliest_walk(filters, index, words, fi, fs, i, bw, bf);
            &&& forall|j: int| i <= j < words.len() && #[trigger] word_index_in_filter(filters, index, words[j], fi, fs) >= 0
                ==> c != -1 && c <= word_index_in_filter(filters, index, words[j], fi, fs)
            &&& (w == bw && c == bf) || (i <= w < words.len() && c == word_index_in_filter(filters, index, words[w], fi, fs)
                && c >= 0 && (bf == -1 || c < bf) && forall|j: int| i <= j < w ==> #[trigger] word_index_in_filter(filters, index, words[j], fi, fs) < 0
                    || word_index_in_filter(filters, index, words[j], fi, fs) > c)
            &&& (c == -1) == (bf == -1 && forall|j: int| i <= j < words.len() ==> #[trigger] word_index_in_filter(filters, index, words[j], fi, fs) < 0)
            &&& c <= bf || bf == -1
        }),
    decreases words.len() - i,
{
    if i < words.len() {
        let m = word_index_in_filter(filters, index, words[i], fi, fs);
        if m >= 0 && (bf == -1 || m < bf) {
            lemma_earliest_walk_smallest(filters, index, words, fi, fs, i + 1, i, m);
        } else {
            lemma_earliest_walk_smallest(filters, index, words, fi, fs, i + 1, bw, bf);
        }
    }
}

/// The earliest matching word: among the words at or after `ws` found in template `fi` at or
/// after column `fs`, the one whose column is smallest, the first of them on a tie; none
/// (-1, -1) exactly when no such word exists.
pub proof fn lemma_earliest_match_smallest(
    filters: Seq<Filter>,
    index: Index,
    words: Seq<Word>,
    fi: int,
    ws: int,
    fs: int,
)
    requires
        0 <= ws < words.len(),
        0 <= fi < filters.len(),
        0 <= fs < filters[fi].len(),
    ensures
        ({
            let (w, c) = earliest_match(filters, index, words, fi, ws, fs);
            &&& (w == -1 && c == -1) <==> forall|j: int| ws <= j < words.len() ==> #[trigger] word_index_in_filter(filters, index, words[j], fi, fs) < 0
            &&& w != -1 ==> ws <= w < words.len() && c == word_index_in_filter(filters, index, words[w], fi, fs)
            &&& forall|j: int| ws <= j < words.len() && #[trigger] word_index_in_filter(filters, index, words[j], fi, fs) >= 0
                ==> c <= word_index_in_filter(filters, index, words[j], fi, fs)
            &&& forall|j: int| ws <= j < w ==> #[trigger] word_index_in_filter(filters, index, words[j], fi, fs) < 0
                || word_index_in_filter(filters, index, words[j], fi, fs) > c
        }),
{
    lemma_earliest_walk_smallest(filters, index, words, fi, fs, ws, -1, -1);
}

} // verus!
