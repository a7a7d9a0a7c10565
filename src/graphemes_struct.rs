//! A sequence of grapheme clusters cut out of a text.
use vstd::prelude::*;
use unicode_segmentation::UnicodeSegmentation;
use crate::sequence::{Sequence, Token, str_equal};

verus! {

/// The extended grapheme clusters of a text, as unicode-segmentation cuts
/// them.
pub uninterp spec fn grapheme_clusters(s: Seq<char>) -> Seq<Seq<char>>;

/// Relies on unicode-segmentation's `UnicodeSegmentation::graphemes(s, true)`:
/// the extended grapheme clusters of `s` in order, each non-empty, which
/// together make up `s`.
#[verifier::external_body]
fn split_graphemes<'a>(s: &'a str) -> (r: Vec<&'a str>)
    ensures
        r@.map_values(|g: &'a str| g@) == grapheme_clusters(s@),
        r@.map_values(|g: &'a str| g@).flatten() == s@,
        forall|i: int| 0 <= i < r.len() ==> (#[trigger] r@[i])@.len() > 0,
{
    UnicodeSegmentation::graphemes(s, true).collect::<Vec<&str>>()
}

/// Relies on `<[&str]>::concat`: the pieces joined in order.
#[verifier::external_body]
fn concat_pieces<'a>(pieces: &Vec<&'a str>) -> (r: String)
    ensures
        r@ == pieces@.map_values(|g: &'a str| g@).flatten(),
{
    pieces.concat()
}

/// Cuts `s` at each occurrence of `sep`, which is dropped: `k` separators
/// give `k + 1` pieces, some of which may be empty.
pub open spec fn split_on<V>(s: Seq<V>, sep: V) -> Seq<Seq<V>>
    decreases s.len(),
{
    if s.len() == 0 {
        seq![Seq::empty()]
    } else {
        let init = split_on(s.drop_last(), sep);
        if s.last() == sep {
            init.push(Seq::empty())
        } else {
            init.update(init.len() - 1, init.last().push(s.last()))
        }
    }
}

pub proof fn lemma_split_on_nonempty<V>(s: Seq<V>, sep: V)
    ensures
        split_on(s, sep).len() >= 1,
    decreases s.len(),
{
    if s.len() > 0 {
        lemma_split_on_nonempty(s.drop_last(), sep);
    }
}

/// A vector of graphemes. Graphemes vary in size, which is why each one is
/// held as a string slice.
#[derive(Debug, Hash, Eq, PartialEq)]
pub struct Graphemes<'a> {
    graphemes: Vec<&'a str>,
}

impl<'a> View for Graphemes<'a> {
    type V = Seq<Seq<char>>;

    open spec fn view(&self) -> Seq<Seq<char>> {
        self.pieces().map_values(|g: &'a str| g@)
    }
}

/// The views of a list of grapheme sequences.
pub open spec fn views_of<'a>(v: Seq<Graphemes<'a>>) -> Seq<Seq<Seq<char>>> {
    v.map_values(|g: Graphemes<'a>| g@)
}

impl<'a> Graphemes<'a> {
    /// The string slices held, one per grapheme.
    pub closed spec fn pieces(&self) -> Seq<&'a str> {
        self.graphemes@
    }

    pub fn new() -> (r: Graphemes<'a>)
        ensures
            r@ == Seq::<Seq<char>>::empty(),
    {
        Graphemes { graphemes: Vec::new() }
    }

    /// Splits `string` into its extended grapheme clusters.
    pub fn from(string: &'a str) -> (r: Graphemes<'a>)
        ensures
            r@ == grapheme_clusters(string@),
            r@.flatten() == string@,
            forall|i: int| 0 <= i < r@.len() ==> (#[trigger] r@[i]).len() > 0,
    {
        let graphemes = split_graphemes(string);
        Graphemes { graphemes }
    }

    pub fn get(&self, index: usize) -> (r: Option<&&'a str>)
        ensures
            r.is_some() == (index < self@.len()),
            r.is_some() ==> r.unwrap()@ == self@[index as int],
    {
        if index < self.graphemes.len() {
            Some(&self.graphemes[index])
        } else {
            None
        }
    }

    pub fn reverse(&mut self)
        ensures
            final(self)@ == old(self)@.reverse(),
    {
        let mut reversed: Vec<&'a str> = Vec::new();
        let mut i: usize = self.graphemes.len();
        while i > 0
            invariant
                i <= self.graphemes.len(),
                reversed.len() == self.graphemes.len() - i,
                forall|t: int|
                    0 <= t < reversed.len() ==> #[trigger] reversed@[t] == self.graphemes@[self.graphemes.len()
                        - 1 - t],
            decreases i,
        {
            i = i - 1;
            reversed.push(self.graphemes[i]);
        }
        self.graphemes = reversed;
        proof {
            assert(self@ =~= old(self)@.reverse());
        }
    }

    /// The graphemes at positions `start..end`.
    pub fn slice(&self, start: usize, end: usize) -> (r: Self)
        requires
            start <= end <= self@.len(),
        ensures
            r@ == self@.subrange(start as int, end as int),
    {
        let mut graphemes: Vec<&'a str> = Vec::new();
        let mut i: usize = start;
        while i < end
            invariant
                start <= i <= end,
                end <= self.graphemes.len(),
                graphemes@ == self.graphemes@.subrange(start as int, i as int),
            decreases end - i,
        {
            graphemes.push(self.graphemes[i]);
            i = i + 1;
            proof {
                assert(graphemes@ =~= self.graphemes@.subrange(start as int, i as int));
            }
        }
        let r = Graphemes { graphemes };
        proof {
            assert(r@ =~= self@.subrange(start as int, end as int));
        }
        r
    }

    /// Moves the graphemes of `other` to the end of `self`.
    pub fn append(&mut self, mut other: Graphemes<'a>)
        ensures
            final(self)@ == old(self)@ + other@,
    {
        let ghost added = other@;
        self.graphemes.append(&mut other.graphemes);
        proof {
            assert(self@ =~= old(self)@ + added);
        }
    }

    /// Cuts the sequence at each grapheme equal to `splitter`, which is
    /// dropped.
    pub fn split(&self, splitter: &'a str) -> (r: Vec<Graphemes<'a>>)
        ensures
            views_of(r@) == split_on(self@, splitter@),
    {
        let mut pieces: Vec<Graphemes<'a>> = Vec::new();
        let mut current = Graphemes::new();
        let mut i: usize = 0;
        while i < self.graphemes.len()
            invariant
                i <= self.graphemes.len(),
                views_of(pieces@).push(current@) == split_on(self@.take(i as int), splitter@),
            decreases self.graphemes.len() - i,
        {
            let g = self.graphemes[i];
            proof {
                assert(self@.take(i + 1).drop_last() =~= self@.take(i as int));
                lemma_split_on_nonempty(self@.take(i as int), splitter@);
            }
            if str_equal(g, splitter) {
                pieces.push(current);
                current = Graphemes::new();
                proof {
                    assert(views_of(pieces@).push(current@) =~= split_on(
                        self@.take(i + 1),
                        splitter@,
                    ));
                }
            } else {
                current.push(g);
                proof {
                    assert(views_of(pieces@).push(current@) =~= split_on(
                        self@.take(i + 1),
                        splitter@,
                    ));
                }
            }
            i = i + 1;
        }
        proof {
            assert(self@.take(self@.len() as int) =~= self@);
        }
        pieces.push(current);
        pieces
    }

    /// Replaces the grapheme at `index`.
    pub fn set(&mut self, index: usize, value: &'a str)
        requires
            index < old(self)@.len(),
        ensures
            final(self)@ == old(self)@.update(index as int, value@),
    {
        self.graphemes.set(index, value);
        proof {
            assert(self@ =~= old(self)@.update(index as int, value@));
        }
    }

    pub fn len(&self) -> (r: usize)
        ensures
            r == self@.len(),
    {
        self.graphemes.len()
    }

    pub fn is_empty(&self) -> (r: bool)
        ensures
            r == (self@.len() == 0),
    {
        self.graphemes.len() == 0
    }

    pub fn clear(&mut self)
        ensures
            final(self)@ == Seq::<Seq<char>>::empty(),
    {
        self.graphemes = Vec::new();
    }

    pub fn push(&mut self, val: &'a str)
        ensures
            final(self)@ == old(self)@.push(val@),
    {
        self.graphemes.push(val);
        proof {
            assert(self@ =~= old(self)@.push(val@));
        }
    }

    /// The text that the graphemes make up when joined.
    pub fn to_string(&self) -> (r: String)
        ensures
            r@ == self@.flatten(),
    {
        concat_pieces(&self.graphemes)
    }
}

impl<'a> Default for Graphemes<'a> {
    fn default() -> (r: Self)
        ensures
            r@ == Seq::<Seq<char>>::empty(),
    {
        Graphemes::new()
    }
}

impl<'a> Token for Graphemes<'a> {
    fn same(&self, other: &Self) -> (r: bool) {
        if self.graphemes.len() != other.graphemes.len() {
            assert(self@.len() != other@.len());
            return false;
        }
        let mut i: usize = 0;
        while i < self.graphemes.len()
            invariant
                i <= self.graphemes.len(),
                self.graphemes.len() == other.graphemes.len(),
                forall|t: int| 0 <= t < i ==> (#[trigger] self@[t]) == other@[t],
            decreases self.graphemes.len() - i,
        {
            if !str_equal(self.graphemes[i], other.graphemes[i]) {
                assert(self@[i as int] != other@[i as int]);
                return false;
            }
            i = i + 1;
        }
        proof {
            assert(self@ =~= other@);
        }
        true
    }

    fn duplicate(&self) -> (r: Self) {
        let r = self.slice(0, self.graphemes.len());
        assert(self@.subrange(0, self@.len() as int) =~= self@);
        r
    }
}

impl<'a> Sequence for Graphemes<'a> {
    type Item = &'a str;

    open spec fn items(&self) -> Seq<&'a str> {
        self.pieces()
    }

    fn empty() -> (r: Self) {
        let r = Graphemes::new();
        assert(r.pieces().len() == r@.len());
        r
    }

    fn length(&self) -> (r: usize) {
        self.graphemes.len()
    }

    fn at(&self, i: usize) -> (r: &&'a str) {
        &self.graphemes[i]
    }

    fn push_item(&mut self, x: &'a str) {
        self.graphemes.push(x);
    }
}

} // verus!
