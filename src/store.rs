use vstd::prelude::*;
use vstd::hash_map::StringHashMap;
use vstd::relations::{sorted_by, total_ordering};
use vstd::seq_lib::lemma_sorted_unique;

verus! {

/// A word, as a sequence of characters.
pub type Word = Seq<char>;

/// The alternatives accepted at one position of a template.
pub type Column = Seq<Seq<char>>;

/// A template: its columns in order.
pub type Filter = Seq<Seq<Seq<char>>>;

/// The reverse index: each word to the ids of the templates that hold it.
pub type Index = Map<Seq<char>, Seq<usize>>;

/// Upper bound on the number of templates, on the columns of one template and on the
/// words of one line, so that every position fits in an `isize`.
pub const MAX_ITEMS: usize = usize::MAX / 8;

/// `s` is in strictly ascending order.
pub open spec fn strictly_sorted(s: Seq<usize>) -> bool {
    forall|i: int, j: int| 0 <= i < j < s.len() ==> s[i] < s[j]
}

/// A bucket of the reverse index: ascending, without repeats, and naming existing templates.
pub open spec fn bucket_ok(b: Seq<usize>, n: int) -> bool {
    &&& strictly_sorted(b)
    &&& forall|i: int| 0 <= i < b.len() ==> b[i] < n
}

/// Some column of `f` holds `w` as an alternative.
pub open spec fn filter_has(f: Filter, w: Word) -> bool {
    exists|j: int| 0 <= j < f.len() && f[j].contains(w)
}

/// Template `fi` exists and holds `w` in some column.
pub open spec fn word_in_filter(filters: Seq<Filter>, fi: int, w: Word) -> bool {
    0 <= fi < filters.len() && filter_has(filters[fi], w)
}

/// The bucket of `w` in `index` lists template `fi`.
pub open spec fn indexed(index: Index, w: Word, fi: int) -> bool {
    0 <= fi <= usize::MAX && index.contains_key(w) && index[w].contains(fi as usize)
}

/// The first column of `f` at or after `start` that holds `w`, or -1.
pub open spec fn first_column_from(f: Filter, w: Word, start: int) -> int
    decreases f.len() - start,
{
    if start < 0 || start >= f.len() {
        -1
    } else if f[start].contains(w) {
        start
    } else {
        first_column_from(f, w, start + 1)
    }
}

/// Where a word stands in template `fi`, searching from column `start`: -1 for an empty word,
/// a template that does not exist, or one that the reverse index does not list for the word.
pub open spec fn word_index_in_filter(
    filters: Seq<Filter>,
    index: Index,
    w: Word,
    fi: int,
    start: int,
) -> int {
    if w.len() == 0 || !indexed(index, w, fi) || fi < 0 || fi >= filters.len() {
        -1
    } else {
        first_column_from(filters[fi], w, start)
    }
}

/// The position at which `x` enters the ascending sequence `s`: before the first larger item.
pub open spec fn insert_pos(s: Seq<usize>, x: usize) -> int
    decreases s.len(),
{
    if s.len() == 0 {
        0
    } else if x < s.last() {
        insert_pos(s.drop_last(), x)
    } else {
        s.len() as int
    }
}

/// The reverse index with `fi` added to the bucket of `w`, ascending order kept.
pub open spec fn add_to_bucket(index: Index, w: Word, fi: usize) -> Index {
    if !index.contains_key(w) {
        index.insert(w, seq![fi])
    } else if index[w].contains(fi) {
        index
    } else {
        index.insert(w, index[w].insert(insert_pos(index[w], fi), fi))
    }
}

/// What registering `w` for template `fi` does: it is listed only where the template holds it.
pub open spec fn hash_update(filters: Seq<Filter>, index: Index, w: Word, fi: usize) -> Index {
    if word_in_filter(filters, fi as int, w) {
        add_to_bucket(index, w, fi)
    } else {
        index
    }
}

/// Registers `words[from..to]` in turn for template `fi`.
pub open spec fn hash_update_all(
    filters: Seq<Filter>,
    index: Index,
    words: Seq<Word>,
    fi: usize,
    from: int,
    to: int,
) -> Index
    decreases to - from,
{
    if to <= from {
        index
    } else {
        hash_update(
            filters,
            hash_update_all(filters, index, words, fi, from, to - 1),
            words[to - 1],
            fi,
        )
    }
}

/// The template made of a word sequence: one single-alternative column per non-empty word.
pub open spec fn new_filter_of(words: Seq<Word>) -> Filter
    decreases words.len(),
{
    if words.len() == 0 {
        Seq::empty()
    } else {
        let rest = new_filter_of(words.drop_last());
        if words.last().len() == 0 {
            rest
        } else {
            rest.push(seq![words.last()])
        }
    }
}

/// Registers the alternatives `col[0..a]` for template `fi`, passing over empty words and
/// the optional marker.
pub open spec fn register_column(
    filters: Seq<Filter>,
    index: Index,
    col: Column,
    fi: usize,
    marker: Word,
    a: int,
) -> Index
    decreases a,
{
    if a <= 0 {
        index
    } else {
        let prev = register_column(filters, index, col, fi, marker, a - 1);
        if col[a - 1] == marker || col[a - 1].len() == 0 {
            prev
        } else {
            hash_update(filters, prev, col[a - 1], fi)
        }
    }
}

/// Registers every alternative of the columns `f[0..c]` for template `fi`, column by column.
pub open spec fn register_filter(
    filters: Seq<Filter>,
    index: Index,
    f: Filter,
    fi: usize,
    marker: Word,
    c: int,
) -> Index
    decreases c,
{
    if c <= 0 {
        index
    } else {
        let prev = register_filter(filters, index, f, fi, marker, c - 1);
        register_column(filters, prev, f[c - 1], fi, marker, f[c - 1].len() as int)
    }
}

/// Walks the words in order, each matched against the columns after the last matched one:
/// the number of words matched, or 0 once more than `budget` words went unmatched.
pub open spec fn match_walk(
    filters: Seq<Filter>,
    index: Index,
    words: Seq<Word>,
    fi: int,
    i: int,
    last: int,
    matched: int,
    misses: int,
    budget: int,
) -> int
    decreases words.len() - i,
{
    if i < 0 || i >= words.len() {
        matched
    } else {
        let m = word_index_in_filter(filters, index, words[i], fi, last + 1);
        if m >= 0 && m > last {
            match_walk(filters, index, words, fi, i + 1, m, matched + 1, misses, budget)
        } else if misses + 1 > budget {
            0
        } else {
            match_walk(filters, index, words, fi, i + 1, last, matched, misses + 1, budget)
        }
    }
}

/// The score of template `fi` for `words`: the ordered matches of `match_walk`, with an
/// allowance of `max_new` unmatched words plus one for each word beyond the template's length.
pub open spec fn consequent_matches(
    filters: Seq<Filter>,
    index: Index,
    words: Seq<Word>,
    fi: int,
    max_new: int,
) -> int {
    if fi < 0 || fi >= filters.len() || words.len() == 0 {
        0
    } else {
        let extra = if filters[fi].len() < words.len() {
            words.len() - filters[fi].len()
        } else {
            0
        };
        match_walk(filters, index, words, fi, 0, -1, 0, 0, max_new + extra)
    }
}

/// The buckets of the words, one after the other (a word without a bucket adds nothing).
pub open spec fn buckets_concat(index: Index, words: Seq<Word>) -> Seq<usize>
    decreases words.len(),
{
    if words.len() == 0 {
        Seq::empty()
    } else {
        buckets_concat(index, words.drop_last()) + if index.contains_key(words.last()) {
            index[words.last()]
        } else {
            Seq::empty()
        }
    }
}

/// `s` is in ascending order.
pub open spec fn sorted(s: Seq<usize>) -> bool {
    forall|i: int, j: int| 0 <= i <= j < s.len() ==> s[i] <= s[j]
}

/// `s` in ascending order.
pub open spec fn sorted_ids(s: Seq<usize>) -> Seq<usize> {
    s.sort_by(|x: usize, y: usize| x <= y)
}

/// A sequence in ascending order with the items of `s` is `sorted_ids(s)`.
pub proof fn lemma_sorted_ids(s: Seq<usize>, t: Seq<usize>)
    requires
        sorted(t),
        t.to_multiset() == s.to_multiset(),
    ensures
        t == sorted_ids(s),
{
    let leq = |x: usize, y: usize| x <= y;
    assert(total_ordering(leq));
    s.lemma_sort_by_ensures(leq);
    assert(sorted_by(t, leq));
    lemma_sorted_unique(t, sorted_ids(s), leq);
}

/// Every id in the buckets of `words` names one of `n` templates when every bucket does.
pub proof fn lemma_buckets_bounded(index: Index, words: Seq<Word>, n: int)
    requires
        forall|w: Word| #[trigger] index.contains_key(w) ==> bucket_ok(index[w], n),
    ensures
        forall|i: int|
            0 <= i < buckets_concat(index, words).len() ==> #[trigger] buckets_concat(index, words)[i]
                < n,
    decreases words.len(),
{
    if words.len() > 0 {
        lemma_buckets_bounded(index, words.drop_last(), n);
        let pre = buckets_concat(index, words.drop_last());
        if index.contains_key(words.last()) {
            let b = index[words.last()];
            assert forall|i: int| 0 <= i < buckets_concat(index, words).len() implies #[trigger] buckets_concat(index, words)[i] < n by {
                if i >= pre.len() {
                    assert(buckets_concat(index, words)[i] == b[i - pre.len()]);
                }
            }
        } else {
            assert(buckets_concat(index, words) =~= pre);
        }
    }
}

/// The sorted buckets of `words` name existing templates only.
pub proof fn lemma_sorted_ids_bounded(index: Index, words: Seq<Word>, n: int)
    requires
        forall|w: Word| #[trigger] index.contains_key(w) ==> bucket_ok(index[w], n),
    ensures
        forall|i: int|
            0 <= i < sorted_ids(buckets_concat(index, words)).len() ==> #[trigger] sorted_ids(
                buckets_concat(index, words),
            )[i] < n,
{
    broadcast use vstd::seq_lib::group_to_multiset_ensures;

    let s = buckets_concat(index, words);
    let t = sorted_ids(s);
    lemma_buckets_bounded(index, words, n);
    s.lemma_sort_by_ensures(|x: usize, y: usize| x <= y);
    assert forall|i: int| 0 <= i < t.len() implies #[trigger] t[i] < n by {
        let x = t[i];
        assert(t.contains(x));
        assert(t.to_multiset().count(x) > 0);
        assert(s.contains(x));
        let j = choose|j: int| 0 <= j < s.len() && s[j] == x;
        assert(s[j] < n);
    }
}

/// The number of columns of `f` that hold the optional marker.
pub open spec fn optional_count(f: Filter, marker: Word) -> int
    decreases f.len(),
{
    if f.len() == 0 {
        0
    } else {
        optional_count(f.drop_last(), marker) + if f.last().contains(marker) {
            1int
        } else {
            0
        }
    }
}

/// The store after `add_filter(words)`: the template of the words appended and each word
/// registered for it; unchanged when no word is left or a size limit would be passed.
pub open spec fn added(filters: Seq<Filter>, index: Index, words: Seq<Word>) -> (Seq<Filter>, Index) {
    let nf = new_filter_of(words);
    if nf.len() == 0 || filters.len() >= MAX_ITEMS || words.len() > MAX_ITEMS {
        (filters, index)
    } else {
        let fs = filters.push(nf);
        (fs, hash_update_all(fs, index, words, filters.len() as usize, 0, words.len() as int))
    }
}

/// The store after `push_filter(f)`: `f` appended as it is and its alternatives registered;
/// unchanged when a size limit would be passed.
pub open spec fn pushed(filters: Seq<Filter>, index: Index, f: Filter, marker: Word) -> (Seq<Filter>, Index) {
    if filters.len() >= MAX_ITEMS || f.len() > MAX_ITEMS {
        (filters, index)
    } else {
        let fs = filters.push(f);
        (fs, register_filter(fs, index, f, filters.len() as usize, marker, f.len() as int))
    }
}

/// The templates, their reverse index and the optional marker.
pub struct FilterStore {
    /// Each template: its columns, each column its alternatives.
    pub filters: Vec<Vec<Vec<String>>>,
    /// Each word to the ascending ids of the templates whose columns hold it.
    pub words_hash: StringHashMap<Vec<usize>>,
    /// The alternative that marks a column as optional.
    pub denote_optional: String,
}

impl FilterStore {
    pub open spec fn filters_view(&self) -> Seq<Filter> {
        self.filters.deep_view()
    }

    pub open spec fn index_view(&self) -> Index {
        self.words_hash@.map_values(|b: Vec<usize>| b@)
    }

    pub open spec fn marker(&self) -> Word {
        self.denote_optional@
    }

    /// Sizes fit the position arithmetic, and each bucket is ascending and names existing
    /// templates.
    pub open spec fn wf(&self) -> bool {
        &&& self.filters.len() <= MAX_ITEMS
        &&& forall|fi: int| 0 <= fi < self.filters.len() ==> #[trigger] self.filters[fi].len() <= MAX_ITEMS
        &&& forall|w: Word| #[trigger]
            self.index_view().contains_key(w) ==> bucket_ok(
                self.index_view()[w],
                self.filters.len() as int,
            )
    }

    /// An empty store whose optional marker is `denote_optional`.
    pub fn new(denote_optional: String) -> (r: Self)
        ensures
            r.wf(),
            r.filters_view() == Seq::<Filter>::empty(),
            r.index_view() == Map::<Word, Seq<usize>>::empty(),
            r.marker() == denote_optional@,
    {
        let r = FilterStore { filters: Vec::new(), words_hash: StringHashMap::new(), denote_optional };
        assert(r.index_view() =~= Map::<Word, Seq<usize>>::empty());
        assert(r.filters_view() =~= Seq::<Filter>::empty());
        r
    }
}

/// Tells whether some alternative of `column` equals `word`.
pub fn column_contains(column: &Vec<String>, word: &String) -> (r: bool)
    ensures
        r == column.deep_view().contains(word@),
{
    let mut i: usize = 0;
    while i < column.len()
        invariant
            i <= column.len(),
            forall|j: int| 0 <= j < i ==> column[j]@ != word@,
        decreases column.len() - i,
    {
        if column[i] == *word {
            assert(column.deep_view()[i as int] == word@);
            return true;
        }
        i += 1;
    }
    assert(!column.deep_view().contains(word@)) by {
        if column.deep_view().contains(word@) {
            let j = choose|j: int| 0 <= j < column.deep_view().len() && column.deep_view()[j] == word@;
            assert(column[j]@ == word@);
        }
    }
    false
}

/// Tells whether `x` is in `b`.
pub fn bucket_contains(b: &Vec<usize>, x: usize) -> (r: bool)
    ensures
        r == b@.contains(x),
{
    let mut i: usize = 0;
    while i < b.len()
        invariant
            i <= b.len(),
            forall|j: int| 0 <= j < i ==> b@[j] != x,
        decreases b.len() - i,
    {
        if b[i] == x {
            return true;
        }
        i += 1;
    }
    false
}

/// The slot that `insert_pos` gives splits a strictly ascending sequence at `x`.
pub proof fn lemma_insert_pos(s: Seq<usize>, x: usize)
    requires
        strictly_sorted(s),
        !s.contains(x),
    ensures
        0 <= insert_pos(s, x) <= s.len(),
        forall|i: int| 0 <= i < insert_pos(s, x) ==> s[i] < x,
        forall|i: int| insert_pos(s, x) <= i < s.len() ==> s[i] > x,
        strictly_sorted(s.insert(insert_pos(s, x), x)),
    decreases s.len(),
{
    if s.len() > 0 {
        let t = s.drop_last();
        assert(!t.contains(x)) by {
            if t.contains(x) {
                let j = choose|j: int| 0 <= j < t.len() && t[j] == x;
                assert(s[j] == x);
            }
        }
        lemma_insert_pos(t, x);
        assert forall|i: int| 0 <= i < t.len() implies s[i] == t[i] by {}
        if x > s.last() {
            assert forall|i: int| 0 <= i < s.len() implies s[i] < x by {
                if i < s.len() - 1 {
                    assert(s[i] < s[s.len() - 1]);
                }
            }
        } else {
            assert(x != s.last());
            assert(insert_pos(s, x) == insert_pos(t, x));
        }
    }
    let p = insert_pos(s, x);
    let r = s.insert(p, x);
    assert forall|i: int, j: int| 0 <= i < j < r.len() implies r[i] < r[j] by {
        assert(forall|k: int| 0 <= k < p ==> r[k] == s[k]);
        assert(r[p] == x);
        assert(forall|k: int| p < k < r.len() ==> r[k] == s[k - 1]);
        if j < p {
            assert(s[i] < s[j]);
        } else if j == p {
            assert(s[i] < x);
        } else if i < p {
            assert(s[i] < x && x < s[j - 1]);
        } else if i == p {
            assert(x < s[j - 1]);
        } else {
            assert(s[i - 1] < s[j - 1]);
        }
    }
}

/// The first position of `s` whose item exceeds `x` is the one that `insert_pos` gives.
pub proof fn lemma_insert_pos_at(s: Seq<usize>, x: usize, p: int)
    requires
        strictly_sorted(s),
        !s.contains(x),
        0 <= p <= s.len(),
        forall|i: int| 0 <= i < p ==> s[i] < x,
        forall|i: int| p <= i < s.len() ==> s[i] > x,
    ensures
        insert_pos(s, x) == p,
{
    lemma_insert_pos(s, x);
    let q = insert_pos(s, x);
    if q < p {
        assert(s[q] > x && s[q] < x);
    } else if p < q {
        assert(s[p] > x && s[p] < x);
    }
}

/// Adding a template id below `n` keeps every bucket well formed.
pub proof fn lemma_add_to_bucket_ok(index: Index, w: Word, fi: usize, n: int)
    requires
        fi < n,
        forall|v: Word| #[trigger] index.contains_key(v) ==> bucket_ok(index[v], n),
    ensures
        forall|v: Word| #[trigger]
            add_to_bucket(index, w, fi).contains_key(v) ==> bucket_ok(
                add_to_bucket(index, w, fi)[v],
                n,
            ),
{
    if index.contains_key(w) && !index[w].contains(fi) {
        lemma_insert_pos(index[w], fi);
        let b = index[w];
        let p = insert_pos(b, fi);
        let r = b.insert(p, fi);
        assert forall|i: int| 0 <= i < r.len() implies r[i] < n by {
            if i < p {
                assert(r[i] == b[i]);
            } else if i > p {
                assert(r[i] == b[i - 1]);
            }
        }
    }
}

/// Buckets that only grow keep listing what they listed.
pub proof fn lemma_add_to_bucket_keeps(index: Index, w: Word, fi: usize, v: Word, t: usize)
    requires
        index.contains_key(v) && index[v].contains(t),
    ensures
        add_to_bucket(index, w, fi).contains_key(v) && add_to_bucket(index, w, fi)[v].contains(t),
{
    if index.contains_key(w) && !index[w].contains(fi) && v == w {
        let b = index[w];
        let p = insert_pos(b, fi);
        let j = choose|j: int| 0 <= j < b.len() && b[j] == t;
        assert(0 <= p <= b.len()) by {
            lemma_insert_pos_bounds(b, fi);
        }
        if j < p {
            assert(b.insert(p, fi)[j] == t);
        } else {
            assert(b.insert(p, fi)[j + 1] == t);
        }
    }
}

/// `insert_pos` lies within the sequence.
pub proof fn lemma_insert_pos_bounds(s: Seq<usize>, x: usize)
    ensures
        0 <= insert_pos(s, x) <= s.len(),
    decreases s.len(),
{
    if s.len() > 0 {
        lemma_insert_pos_bounds(s.drop_last(), x);
    }
}

impl FilterStore {
    /// Tells whether template `filter_index` exists and holds `word` in some column.
    pub fn is_word_in_filter(&self, word: &String, filter_index: usize) -> (r: bool)
        ensures
            r == word_in_filter(self.filters_view(), filter_index as int, word@),
    {
        if filter_index >= self.filters.len() {
            return false;
        }
        let filter = &self.filters[filter_index];
        let ghost f = self.filters_view()[filter_index as int];
        assert(f == filter.deep_view());
        let mut j: usize = 0;
        while j < filter.len()
            invariant
                j <= filter.len(),
                f == filter.deep_view(),
                filter_index < self.filters.len(),
                f == self.filters_view()[filter_index as int],
                forall|k: int| 0 <= k < j ==> !f[k].contains(word@),
            decreases filter.len() - j,
        {
            assert(f[j as int] == filter[j as int].deep_view());
            if column_contains(&filter[j], word) {
                assert(f[j as int].contains(word@));
                return true;
            }
            j += 1;
        }
        false
    }

    /// The first column of template `filter_index`, from `start_from_word` on, that holds
    /// `word`, or -1 (see `word_index_in_filter`).
    pub fn get_word_index_in_filter(
        &self,
        word: &String,
        filter_index: usize,
        start_from_word: usize,
    ) -> (r: isize)
        requires
            self.wf(),
        ensures
            r as int == word_index_in_filter(
                self.filters_view(),
                self.index_view(),
                word@,
                filter_index as int,
                start_from_word as int,
            ),
    {
        if word.as_str().is_empty() {
            return -1;
        }
        match self.words_hash.get(word.as_str()) {
            None => {
                return -1;
            },
            Some(b) => {
                if !bucket_contains(b, filter_index) {
                    return -1;
                }
            },
        }
        if filter_index >= self.filters.len() {
            return -1;
        }
        assert(self.index_view().contains_key(word@));
        let filter = &self.filters[filter_index];
        let ghost f = self.filters_view()[filter_index as int];
        assert(f == filter.deep_view());
        let mut j: usize = start_from_word;
        while j < filter.len()
            invariant
                start_from_word <= j,
                filter.len() <= MAX_ITEMS,
                f == filter.deep_view(),
                filter_index < self.filters.len(),
                f == self.filters_view()[filter_index as int],
                word@.len() > 0,
                indexed(self.index_view(), word@, filter_index as int),
                first_column_from(f, word@, start_from_word as int) == first_column_from(
                    f,
                    word@,
                    j as int,
                ),
            decreases filter.len() - j,
        {
            assert(f[j as int] == filter[j as int].deep_view());
            if column_contains(&filter[j], word) {
                return j as isize;
            }
            j += 1;
        }
        -1
    }

    /// Lists template `filter_index` in the bucket of `word`, if that template holds the word;
    /// the bucket stays ascending and without repeats.
    pub fn update_hash(&mut self, word: &String, filter_index: usize)
        requires
            old(self).wf(),
        ensures
            final(self).wf(),
            final(self).filters == old(self).filters,
            final(self).denote_optional == old(self).denote_optional,
            final(self).index_view() == hash_update(
                old(self).filters_view(),
                old(self).index_view(),
                word@,
                filter_index,
            ),
    {
        if !self.is_word_in_filter(word, filter_index) {
            return;
        }
        self.add_to_index(word, filter_index);
    }

    /// Lists template `filter_index` in the bucket of `word`, whatever the template holds; the
    /// bucket stays ascending and without repeats.
    pub fn add_to_index(&mut self, word: &String, filter_index: usize)
        requires
            old(self).wf(),
            filter_index < old(self).filters.len(),
        ensures
            final(self).wf(),
            final(self).filters == old(self).filters,
            final(self).denote_optional == old(self).denote_optional,
            final(self).index_view() == add_to_bucket(old(self).index_view(), word@, filter_index),
    {
        let ghost old_index = self.index_view();
        proof {
            lemma_add_to_bucket_ok(old_index, word@, filter_index, self.filters.len() as int);
        }
        let nb: Vec<usize>;
        match self.words_hash.get(word.as_str()) {
            None => {
                nb = vec![filter_index];
                assert(nb@ =~= seq![filter_index]);
            },
            Some(b) => {
                if bucket_contains(b, filter_index) {
                    return;
                }
                let ghost bs = b@;
                assert(old_index.contains_key(word@) && old_index[word@] == bs);
                proof {
                    lemma_insert_pos(bs, filter_index);
                }
                let mut p: usize = 0;
                while p < b.len() && b[p] < filter_index
                    invariant
                        p <= b.len(),
                        bs == b@,
                        forall|i: int| 0 <= i < p ==> b@[i] < filter_index,
                    decreases b.len() - p,
                {
                    p += 1;
                }
                proof {
                    assert forall|i: int| p <= i < bs.len() implies bs[i] > filter_index by {
                        if p < i {
                            assert(bs[p as int] < bs[i]);
                        }
                        assert(bs[p as int] != filter_index);
                    }
                    lemma_insert_pos_at(bs, filter_index, p as int);
                }
                let mut c = b.clone();
                assert(c@ =~= bs);
                c.insert(p, filter_index);
                nb = c;
            },
        }
        self.words_hash.insert(word.clone(), nb);
        assert(self.index_view() =~= add_to_bucket(old_index, word@, filter_index));
    }
}

/// Relies on `slice::sort`: the items come out in ascending order, the same items as before.
#[verifier::external_body]
fn sort_ids(v: &mut Vec<usize>)
    ensures
        sorted(final(v)@),
        final(v)@.to_multiset() == old(v)@.to_multiset(),
{
    v.sort();
}

/// The number of columns of `filter` that hold `marker`.
pub fn count_optional(filter: &Vec<Vec<String>>, marker: &String) -> (r: usize)
    ensures
        r as int == optional_count(filter.deep_view(), marker@),
        r <= filter.len(),
{
    let mut n: usize = 0;
    let mut j: usize = 0;
    while j < filter.len()
        invariant
            j <= filter.len(),
            n <= j,
            n as int == optional_count(filter.deep_view().subrange(0, j as int), marker@),
        decreases filter.len() - j,
    {
        assert(filter.deep_view().subrange(0, j as int + 1).drop_last() =~= filter.deep_view().subrange(
            0,
            j as int,
        ));
        if column_contains(&filter[j], marker) {
            n += 1;
        }
        j += 1;
    }
    assert(filter.deep_view().subrange(0, j as int) =~= filter.deep_view());
    n
}

impl FilterStore {
    /// Appends the template made of `words` (one single-alternative column per non-empty word)
    /// and registers each word for it. Nothing happens when no word is left, when the store
    /// already holds `MAX_ITEMS` templates, or when there are more than `MAX_ITEMS` words.
    pub fn add_filter(&mut self, words: Vec<String>)
        requires
            old(self).wf(),
        ensures
            final(self).wf(),
            final(self).denote_optional == old(self).denote_optional,
            (final(self).filters_view(), final(self).index_view()) == added(
                old(self).filters_view(),
                old(self).index_view(),
                words.deep_view(),
            ),
    {
        if self.filters.len() >= MAX_ITEMS || words.len() > MAX_ITEMS {
            return;
        }
        let ghost ws = words.deep_view();
        let mut new_filter: Vec<Vec<String>> = Vec::new();
        let mut i: usize = 0;
        while i < words.len()
            invariant
                i <= words.len(),
                ws == words.deep_view(),
                new_filter.len() <= i,
                new_filter.deep_view() == new_filter_of(ws.subrange(0, i as int)),
            decreases words.len() - i,
        {
            assert(ws.subrange(0, i as int + 1).drop_last() =~= ws.subrange(0, i as int));
            if !words[i].as_str().is_empty() {
                let column = vec![words[i].clone()];
                assert(column.deep_view() =~= seq![ws[i as int]]);
                new_filter.push(column);
                assert(new_filter.deep_view() =~= new_filter_of(ws.subrange(0, i as int + 1)));
            } else {
                assert(new_filter.deep_view() =~= new_filter_of(ws.subrange(0, i as int + 1)));
            }
            i += 1;
        }
        assert(ws.subrange(0, i as int) =~= ws);
        if new_filter.len() == 0 {
            return;
        }
        let expected_index = self.filters.len();
        let ghost old_filters = self.filters_view();
        let ghost old_index = self.index_view();
        self.filters.push(new_filter);
        assert(self.filters_view() =~= old_filters.push(new_filter_of(ws)));
        assert(self.wf()) by {
            assert forall|w: Word| #[trigger] self.index_view().contains_key(w) implies bucket_ok(
                self.index_view()[w],
                self.filters.len() as int,
            ) by {
                assert(old_index.contains_key(w));
            }
            assert forall|fi: int| 0 <= fi < self.filters.len() implies #[trigger] self.filters[fi].len() <= MAX_ITEMS by {
                if fi < expected_index {
                    assert(self.filters[fi] == old(self).filters[fi]);
                }
            }
        }
        let mut i: usize = 0;
        while i < words.len()
            invariant
                i <= words.len(),
                ws == words.deep_view(),
                self.wf(),
                self.filters_view() == old_filters.push(new_filter_of(ws)),
                self.denote_optional == old(self).denote_optional,
                self.index_view() == hash_update_all(
                    self.filters_view(),
                    old_index,
                    ws,
                    expected_index,
                    0,
                    i as int,
                ),
            decreases words.len() - i,
        {
            self.update_hash(&words[i], expected_index);
            i += 1;
        }
    }

    /// Appends `filter` as it is and registers each of its alternatives for it, except empty
    /// words and the optional marker. Nothing happens when the store already holds `MAX_ITEMS`
    /// templates or `filter` has more than `MAX_ITEMS` columns.
    pub fn push_filter(&mut self, filter: Vec<Vec<String>>)
        requires
            old(self).wf(),
        ensures
            final(self).wf(),
            final(self).denote_optional == old(self).denote_optional,
            (final(self).filters_view(), final(self).index_view()) == pushed(
                old(self).filters_view(),
                old(self).index_view(),
                filter.deep_view(),
                old(self).marker(),
            ),
    {
        if self.filters.len() >= MAX_ITEMS || filter.len() > MAX_ITEMS {
            return;
        }
        let ghost f = filter.deep_view();
        let fi = self.filters.len();
        let ghost old_filters = self.filters_view();
        let ghost old_index = self.index_view();
        let ghost marker = self.marker();
        self.filters.push(filter);
        assert(self.filters_view() =~= old_filters.push(f));
        assert(self.wf()) by {
            assert forall|w: Word| #[trigger] self.index_view().contains_key(w) implies bucket_ok(
                self.index_view()[w],
                self.filters.len() as int,
            ) by {
                assert(old_index.contains_key(w));
            }
            assert forall|k: int| 0 <= k < self.filters.len() implies #[trigger] self.filters[k].len() <= MAX_ITEMS by {
                if k < fi {
                    assert(self.filters[k] == old(self).filters[k]);
                }
            }
        }
        let mut c: usize = 0;
        while c < self.filters[fi].len()
            invariant
                fi < self.filters.len(),
                c <= self.filters[fi as int].len(),
                self.filters[fi as int].deep_view() == f,
                self.wf(),
                self.filters_view() == old_filters.push(f),
                self.denote_optional == old(self).denote_optional,
                marker == self.marker(),
                self.index_view() == register_filter(
                    self.filters_view(),
                    old_index,
                    f,
                    fi,
                    marker,
                    c as int,
                ),
            decreases f.len() - c,
        {
            let mut a: usize = 0;
            let ghost before = self.index_view();
            while a < self.filters[fi][c].len()
                invariant
                    fi < self.filters.len(),
                    c < self.filters[fi as int].len(),
                    a <= self.filters[fi as int][c as int].len(),
                    self.filters[fi as int].deep_view() == f,
                    self.wf(),
                    self.filters_view() == old_filters.push(f),
                    self.denote_optional == old(self).denote_optional,
                    marker == self.marker(),
                    self.index_view() == register_column(
                        self.filters_view(),
                        before,
                        f[c as int],
                        fi,
                        marker,
                        a as int,
                    ),
                decreases f[c as int].len() - a,
            {
                assert(f[c as int][a as int] == self.filters[fi as int][c as int][a as int]@);
                let word = self.filters[fi][c][a].clone();
                if !word.as_str().is_empty() && word != self.denote_optional {
                    self.update_hash(&word, fi);
                }
                a += 1;
            }
            c += 1;
        }
    }

    /// The score of template `filter_index` for `words` (see `consequent_matches`).
    pub fn count_consequent_matches(
        &self,
        words: &Vec<String>,
        filter_index: usize,
        max_allowed_new_alternatives: usize,
    ) -> (r: usize)
        requires
            self.wf(),
            words.len() <= MAX_ITEMS,
        ensures
            r as int == consequent_matches(
                self.filters_view(),
                self.index_view(),
                words.deep_view(),
                filter_index as int,
                max_allowed_new_alternatives as int,
            ),
    {
        if self.filters.len() <= filter_index || words.len() == 0 {
            return 0;
        }
        let ghost ws = words.deep_view();
        let ghost fv = self.filters_view();
        let ghost iv = self.index_view();
        let mut extra: usize = 0;
        let filter_length = self.filters[filter_index].len();
        assert(fv[filter_index as int].len() == filter_length);
        if filter_length < words.len() {
            extra = words.len() - filter_length;
        }
        let ghost budget = max_allowed_new_alternatives as int + extra as int;
        let mut matched: usize = 0;
        let mut new_alternatives: usize = 0;
        let mut last: isize = -1;
        let mut i: usize = 0;
        while i < words.len()
            invariant
                i <= words.len(),
                words.len() <= MAX_ITEMS,
                ws == words.deep_view(),
                self.wf(),
                fv == self.filters_view(),
                iv == self.index_view(),
                filter_index < self.filters.len(),
                self.filters[filter_index as int].len() <= MAX_ITEMS,
                matched <= i,
                new_alternatives <= i,
                budget == max_allowed_new_alternatives as int + extra as int,
                -1 <= last < self.filters[filter_index as int].len(),
                consequent_matches(fv, iv, ws, filter_index as int, max_allowed_new_alternatives as int)
                    == match_walk(fv, iv, ws, filter_index as int, i as int, last as int, matched as int, new_alternatives as int, budget),
            decreases words.len() - i,
        {
            assert(ws[i as int] == words[i as int]@);
            let m = self.get_word_index_in_filter(&words[i], filter_index, (last + 1) as usize);
            proof {
                lemma_first_column_from_bounds(fv[filter_index as int], ws[i as int], last + 1);
            }
            if m >= 0 && m > last {
                last = m;
                matched += 1;
            } else {
                new_alternatives += 1;
                if new_alternatives > extra && new_alternatives - extra > max_allowed_new_alternatives {
                    return 0;
                }
            }
            i += 1;
        }
        matched
    }

    /// The buckets of `words`, one after the other, sorted ascending: a template id occurs
    /// once for each word whose bucket lists it.
    pub fn get_sorted_filter_indexes_containing_words(&self, words: &Vec<String>) -> (r: Vec<usize>)
        ensures
            r@ == sorted_ids(buckets_concat(self.index_view(), words.deep_view())),
    {
        let ghost ws = words.deep_view();
        let mut all: Vec<usize> = Vec::new();
        let mut i: usize = 0;
        while i < words.len()
            invariant
                i <= words.len(),
                ws == words.deep_view(),
                all@ == buckets_concat(self.index_view(), ws.subrange(0, i as int)),
            decreases words.len() - i,
        {
            assert(ws.subrange(0, i as int + 1).drop_last() =~= ws.subrange(0, i as int));
            match self.words_hash.get(words[i].as_str()) {
                Some(b) => {
                    let mut c = b.clone();
                    assert(c@ =~= b@);
                    all.append(&mut c);
                },
                None => {
                    assert(all@ + Seq::<usize>::empty() =~= all@);
                },
            }
            i += 1;
        }
        assert(ws.subrange(0, i as int) =~= ws);
        let ghost before = all@;
        sort_ids(&mut all);
        proof {
            lemma_sorted_ids(before, all@);
        }
        all
    }
}

/// A column found by `first_column_from` lies in the template, at or after the start.
pub proof fn lemma_first_column_from_bounds(f: Filter, w: Word, start: int)
    ensures
        first_column_from(f, w, start) == -1 || (start <= first_column_from(f, w, start) < f.len()
            && f[first_column_from(f, w, start)].contains(w)),
    decreases f.len() - start,
{
    if 0 <= start < f.len() && !f[start].contains(w) {
        lemma_first_column_from_bounds(f, w, start + 1);
    }
}

} // verus!
