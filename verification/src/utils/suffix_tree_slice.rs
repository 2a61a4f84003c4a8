//! The text a suffix tree is built over: one word, or several words, each
//! followed by an end marker that equals no element.
use vstd::prelude::*;

verus! {

/// The elements of a word followed by its end marker.
pub open spec fn marked(word: Seq<u64>) -> Seq<Option<u64>> {
    word.map_values(|x: u64| Some(x)).push(None)
}

/// The words one after another, each followed by its end marker.
pub open spec fn marked_words(words: Seq<Seq<u64>>) -> Seq<Option<u64>>
    decreases words.len(),
{
    if words.len() == 0 {
        Seq::empty()
    } else {
        marked_words(words.drop_last()) + marked(words.last())
    }
}

/// A text for a suffix tree: elements and end markers (`None`).
pub trait SuffixTreeSlice {
    /// The text, end markers included.
    spec fn text(&self) -> Seq<Option<u64>>;

    /// The length of the text fits a `usize`.
    spec fn wf(&self) -> bool;

    /// The positions whose elements `sub_slice` can give.
    spec fn has_sub_slice(&self, start: usize, end: usize) -> bool;

    /// Whether both positions hold the same element.
    fn equals(&self, first: usize, second: usize) -> (r: bool)
        requires
            self.wf(),
    ;

    /// The length of the text, end markers included.
    fn len(&self) -> (r: usize)
        requires
            self.wf(),
        ensures
            r == self.text().len(),
    ;

    /// The element at `index`; `None` at an end marker or past the end.
    fn get(&self, index: usize) -> (r: Option<u64>)
        requires
            self.wf(),
        ensures
            r == (if index < self.text().len() { self.text()[index as int] } else { None }),
    ;

    /// The elements between `start` and `end`.
    fn sub_slice(&self, start: usize, end: usize) -> (r: &[u64])
        requires
            self.wf(),
            self.has_sub_slice(start, end),
        ensures
            r@.map_values(|x: u64| Some(x)) == self.text().subrange(start as int, end as int),
    ;
}

/// One word.
pub struct SingleWordSuffixTreeSlice<'a> {
    pub slice: &'a [u64],
}

impl<'a> SingleWordSuffixTreeSlice<'a> {
    pub fn new(slice: &'a [u64]) -> (r: Self)
        ensures
            r.slice@ == slice@,
    {
        SingleWordSuffixTreeSlice { slice }
    }
}

impl<'a> SuffixTreeSlice for SingleWordSuffixTreeSlice<'a> {
    open spec fn text(&self) -> Seq<Option<u64>> {
        marked(self.slice@)
    }

    open spec fn wf(&self) -> bool {
        self.slice@.len() < usize::MAX
    }

    open spec fn has_sub_slice(&self, start: usize, end: usize) -> bool {
        start <= end <= self.slice@.len()
    }

    /// Whether both positions are in the word and hold the same element.
    fn equals(&self, first: usize, second: usize) -> (r: bool)
        ensures
            r == (first < self.slice@.len() && second < self.slice@.len() && self.slice@[first as int] == self.slice@[second as int]),
    {
        if first >= self.slice.len() || second >= self.slice.len() {
            return false;
        }
        self.slice[first] == self.slice[second]
    }

    fn len(&self) -> (r: usize) {
        self.slice.len() + 1
    }

    fn get(&self, index: usize) -> (r: Option<u64>) {
        if index >= self.slice.len() {
            None
        } else {
            Some(self.slice[index])
        }
    }

    fn sub_slice(&self, start: usize, end: usize) -> (r: &[u64]) {
        let r = vstd::slice::slice_subrange(self.slice, start, end);
        assert(r@.map_values(|x: u64| Some(x)) =~= self.text().subrange(start as int, end as int));
        r
    }
}

/// Several words.
pub struct MultipleWordsSuffixTreeSlice<'a> {
    words: Vec<&'a [u64]>,
}

impl<'a> MultipleWordsSuffixTreeSlice<'a> {
    /// The words as sequences.
    pub closed spec fn words_view(&self) -> Seq<Seq<u64>> {
        self.words@.map_values(|w: &[u64]| w@)
    }

    /// The text fits the positions `usize` can count.
    pub closed spec fn fits(&self) -> bool {
        marked_words(self.words_view()).len() <= usize::MAX
    }

    pub fn new(words: Vec<&'a [u64]>) -> (r: Self)
        requires
            marked_words(words@.map_values(|w: &[u64]| w@)).len() <= usize::MAX,
        ensures
            r.fits(),
            r.words_view() == words@.map_values(|w: &[u64]| w@),
    {
        MultipleWordsSuffixTreeSlice { words }
    }
}

proof fn lemma_marked_words_prefix(words: Seq<Seq<u64>>, k: int)
    requires
        0 <= k <= words.len(),
    ensures
        forall|j: int| 0 <= j < marked_words(words.take(k)).len() ==> marked_words(words)[j] == #[trigger] marked_words(words.take(k))[j],
        marked_words(words.take(k)).len() <= marked_words(words).len(),
    decreases words.len() - k,
{
    if k < words.len() {
        lemma_marked_words_prefix(words, k + 1);
        assert(words.take(k + 1).drop_last() =~= words.take(k));
        let shorter = marked_words(words.take(k));
        let longer = marked_words(words.take(k + 1));
        assert(longer == shorter + marked(words.take(k + 1).last()));
        assert forall|j: int| 0 <= j < shorter.len() implies marked_words(words)[j] == #[trigger] shorter[j] by {
            assert(longer[j] == shorter[j]);
        }
    } else {
        assert(words.take(k) =~= words);
    }
}

proof fn lemma_marked_words_len(words: Seq<Seq<u64>>, k: int)
    requires
        0 <= k <= words.len(),
    ensures
        marked_words(words.take(k)).len() <= marked_words(words).len(),
    decreases words.len() - k,
{
    if k < words.len() {
        lemma_marked_words_len(words, k + 1);
        assert(words.take(k + 1).drop_last() =~= words.take(k));
    } else {
        assert(words.take(k) =~= words);
    }
}

impl<'a> SuffixTreeSlice for MultipleWordsSuffixTreeSlice<'a> {
    open spec fn text(&self) -> Seq<Option<u64>> {
        marked_words(self.words_view())
    }

    open spec fn wf(&self) -> bool {
        self.fits()
    }

    open spec fn has_sub_slice(&self, start: usize, end: usize) -> bool {
        false
    }

    /// Whether both positions hold the same element, counting end markers
    /// and positions past the end as equal.
    fn equals(&self, first: usize, second: usize) -> (r: bool)
        ensures
            r == ((if first < self.text().len() { self.text()[first as int] } else { None })
                == (if second < self.text().len() { self.text()[second as int] } else { None })),
    {
        let a = self.get(first);
        let b = self.get(second);
        match (a, b) {
            (Some(x), Some(y)) => x == y,
            (None, None) => true,
            _ => false,
        }
    }

    fn len(&self) -> (r: usize) {
        let ghost ws = self.words_view();
        let mut len: usize = 0;
        let mut i: usize = 0;
        while i < self.words.len()
            invariant
                ws == self.words_view(),
                marked_words(ws).len() <= usize::MAX,
                i <= ws.len(),
                len == marked_words(ws.take(i as int)).len(),
            decreases self.words.len() - i,
        {
            proof {
                lemma_marked_words_len(ws, i + 1);
                assert(ws.take(i + 1).drop_last() =~= ws.take(i as int));
                assert(ws[i as int] == self.words@[i as int]@);
            }
            len = len + self.words[i].len() + 1;
            i = i + 1;
        }
        assert(ws.take(ws.len() as int) =~= ws);
        len
    }

    fn get(&self, index: usize) -> (r: Option<u64>) {
        let ghost ws = self.words_view();
        let mut next_word_border: usize = 0;
        let mut i: usize = 0;
        while i < self.words.len()
            invariant
                ws == self.words_view(),
                marked_words(ws).len() <= usize::MAX,
                i <= ws.len(),
                next_word_border == marked_words(ws.take(i as int)).len(),
                index >= next_word_border,
            decreases self.words.len() - i,
        {
            let slice = self.words[i];
            assert(ws[i as int] == slice@);
            assert(ws.take(i + 1).drop_last() =~= ws.take(i as int));
            let ghost before = marked_words(ws.take(i as int));
            assert(marked_words(ws.take(i + 1)) == before + marked(slice@));
            if index - next_word_border < slice.len() {
                proof {
                    lemma_marked_words_prefix(ws, i + 1);
                    let m = marked_words(ws.take(i + 1));
                    assert(m[index as int] == marked(slice@)[index - next_word_border]);
                    assert(self.text()[index as int] == m[index as int]);
                }
                return Some(slice[index - next_word_border]);
            }
            if index - next_word_border == slice.len() {
                proof {
                    lemma_marked_words_prefix(ws, i + 1);
                    let m = marked_words(ws.take(i + 1));
                    assert(m[index as int] == marked(slice@)[index - next_word_border]);
                    assert(self.text()[index as int] == m[index as int]);
                }
                return None;
            }
            proof {
                lemma_marked_words_len(ws, i + 1);
            }
            next_word_border = next_word_border + slice.len() + 1;
            i = i + 1;
        }
        assert(ws.take(ws.len() as int) =~= ws);
        None
    }

    /// Never called: the text of several words has no slices to give.
    fn sub_slice(&self, start: usize, end: usize) -> (r: &[u64]) {
        self.words[0]
    }
}

} // verus!
