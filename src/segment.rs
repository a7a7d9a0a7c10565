//! Greedy longest-match-first segmentation of a grapheme sequence into
//! dictionary words.
use vstd::prelude::*;
use crate::graphemes_struct::Graphemes;
use crate::sequence::Token;

verus! {

/// The grapheme that separates words: a single space.
pub open spec fn space() -> Seq<char> {
    seq![' ']
}

/// A set of words, used for membership tests only. Each word is held once.
pub struct Dictionary<'a> {
    words: Vec<Graphemes<'a>>,
}

impl<'a> View for Dictionary<'a> {
    type V = Set<Seq<Seq<char>>>;

    open spec fn view(&self) -> Set<Seq<Seq<char>>> {
        self.entries().to_set()
    }
}

impl<'a> Dictionary<'a> {
    /// The words held, in the order they were inserted.
    pub closed spec fn entries(&self) -> Seq<Seq<Seq<char>>> {
        self.words@.map_values(|w: Graphemes<'a>| w@)
    }

    /// Each word is held once.
    pub closed spec fn wf(&self) -> bool {
        self.entries().no_duplicates()
    }

    pub fn new() -> (r: Dictionary<'a>)
        ensures
            r.wf(),
            r@ == Set::<Seq<Seq<char>>>::empty(),
    {
        let r = Dictionary { words: Vec::new() };
        proof {
            assert(r@ =~= Set::<Seq<Seq<char>>>::empty());
        }
        r
    }

    /// Whether `word` is one of the words.
    pub fn contains(&self, word: &Graphemes<'a>) -> (r: bool)
        ensures
            r == self@.contains(word@),
    {
        let mut i: usize = 0;
        while i < self.words.len()
            invariant
                i <= self.words.len(),
                forall|t: int| 0 <= t < i ==> self.entries()[t] != word@,
            decreases self.words.len() - i,
        {
            if self.words[i].same(word) {
                proof {
                    assert(self.entries()[i as int] == word@);
                }
                return true;
            }
            i = i + 1;
        }
        proof {
            if self@.contains(word@) {
                let t = self.entries().index_of(word@);
                assert(self.entries()[t] == word@);
            }
        }
        false
    }

    /// Adds `word`; returns whether it was not there before.
    pub fn insert(&mut self, word: Graphemes<'a>) -> (r: bool)
        requires
            old(self).wf(),
        ensures
            final(self).wf(),
            final(self)@ == old(self)@.insert(word@),
            r == !old(self)@.contains(word@),
    {
        if self.contains(&word) {
            proof {
                assert(self@ =~= old(self)@.insert(word@));
            }
            return false;
        }
        let ghost before = self.entries();
        self.words.push(word);
        proof {
            assert(self.entries() =~= before.push(word@));
            assert(!before.contains(word@)) by {
                if before.contains(word@) {
                    let t = before.index_of(word@);
                    assert(old(self)@.contains(before[t]));
                }
            }
            assert(self@ =~= old(self)@.insert(word@)) by {
                assert forall|w: Seq<Seq<char>>| #[trigger] self@.contains(w) <==> old(self)@.insert(
                    word@,
                ).contains(w) by {
                    if self@.contains(w) && w != word@ {
                        let t = self.entries().index_of(w);
                        assert(before[t] == w);
                    }
                    if old(self)@.contains(w) {
                        let t = before.index_of(w);
                        assert(self.entries()[t] == w);
                    }
                    if w == word@ {
                        assert(self.entries()[before.len() as int] == w);
                    }
                }
            }
        }
        true
    }

    /// The number of words.
    pub fn len(&self) -> (r: usize)
        requires
            self.wf(),
        ensures
            r == self@.len(),
    {
        proof {
            self.entries().unique_seq_to_set();
        }
        self.words.len()
    }
}

/// The length of the longest prefix of `s`, at most `n` long, that is a
/// word of `dict`; 0 when there is none.
pub open spec fn longest_match(s: Seq<Seq<char>>, dict: Set<Seq<Seq<char>>>, n: nat) -> nat
    decreases n,
{
    if n == 0 {
        0
    } else if dict.contains(s.take(n as int)) {
        n
    } else {
        longest_match(s, dict, (n - 1) as nat)
    }
}

pub proof fn lemma_longest_match_bound(s: Seq<Seq<char>>, dict: Set<Seq<Seq<char>>>, n: nat)
    ensures
        longest_match(s, dict, n) <= n,
        longest_match(s, dict, n) > 0 ==> dict.contains(s.take(longest_match(s, dict, n) as int)),
    decreases n,
{
    if n > 0 {
        lemma_longest_match_bound(s, dict, (n - 1) as nat);
    }
}

/// The length of the first token of a non-empty `s`: its longest dictionary
/// prefix, or a single grapheme when no prefix is a word.
pub open spec fn first_token_len(s: Seq<Seq<char>>, dict: Set<Seq<Seq<char>>>) -> nat {
    let m = longest_match(s, dict, s.len());
    if m == 0 {
        1
    } else {
        m
    }
}

/// Max-match segmentation: the first token, a space if anything follows, and
/// the segmentation of what follows.
pub open spec fn segmentation(s: Seq<Seq<char>>, dict: Set<Seq<Seq<char>>>) -> Seq<Seq<char>>
    decreases s.len(),
    via segmentation_decreases
{
    if s.len() == 0 {
        Seq::empty()
    } else {
        let i = first_token_len(s, dict) as int;
        let rest = s.subrange(i, s.len() as int);
        s.take(i) + (if rest.len() > 0 {
            seq![space()]
        } else {
            Seq::empty()
        }) + segmentation(rest, dict)
    }
}

#[via_fn]
proof fn segmentation_decreases(s: Seq<Seq<char>>, dict: Set<Seq<Seq<char>>>) {
    lemma_longest_match_bound(s, dict, s.len());
}

/// `s` with every space left out.
pub open spec fn remove_spaces(s: Seq<Seq<char>>) -> Seq<Seq<char>>
    decreases s.len(),
{
    if s.len() == 0 {
        s
    } else if s.last() == space() {
        remove_spaces(s.drop_last())
    } else {
        remove_spaces(s.drop_last()).push(s.last())
    }
}

pub proof fn lemma_remove_spaces_concat(x: Seq<Seq<char>>, y: Seq<Seq<char>>)
    ensures
        remove_spaces(x + y) == remove_spaces(x) + remove_spaces(y),
    decreases y.len(),
{
    if y.len() == 0 {
        assert(x + y =~= x);
        assert(remove_spaces(x) + remove_spaces(y) =~= remove_spaces(x));
    } else {
        lemma_remove_spaces_concat(x, y.drop_last());
        assert((x + y).drop_last() =~= x + y.drop_last());
        assert(remove_spaces(x) + remove_spaces(y.drop_last()).push(y.last()) =~= (remove_spaces(
            x,
        ) + remove_spaces(y.drop_last())).push(y.last()));
    }
}

/// A sequence with no space is left as it is.
pub proof fn lemma_remove_spaces_none(s: Seq<Seq<char>>)
    requires
        !s.contains(space()),
    ensures
        remove_spaces(s) == s,
    decreases s.len(),
{
    if s.len() > 0 {
        assert(s.drop_last().contains(space()) ==> s.contains(space())) by {
            if s.drop_last().contains(space()) {
                let t = s.drop_last().index_of(space());
                assert(s[t] == space());
            }
        }
        assert(s.contains(s.last()) && s.last() != space());
        lemma_remove_spaces_none(s.drop_last());
        assert(s.drop_last().push(s.last()) =~= s);
    }
}

/// Content preservation: leaving out the spaces of the segmentation gives the
/// input with its spaces left out; an input without spaces comes back
/// exactly.
pub proof fn lemma_segmentation_keeps_content(s: Seq<Seq<char>>, dict: Set<Seq<Seq<char>>>)
    ensures
        remove_spaces(segmentation(s, dict)) == remove_spaces(s),
        !s.contains(space()) ==> remove_spaces(segmentation(s, dict)) == s,
    decreases s.len(),
{
    if s.len() > 0 {
        lemma_longest_match_bound(s, dict, s.len());
        let i = first_token_len(s, dict) as int;
        let rest = s.subrange(i, s.len() as int);
        let sep: Seq<Seq<char>> = if rest.len() > 0 {
            seq![space()]
        } else {
            Seq::empty()
        };
        lemma_segmentation_keeps_content(rest, dict);
        lemma_remove_spaces_concat(s.take(i) + sep, segmentation(rest, dict));
        lemma_remove_spaces_concat(s.take(i), sep);
        lemma_remove_spaces_concat(s.take(i), rest);
        assert(s.take(i) + rest =~= s);
        if rest.len() > 0 {
            assert(sep.drop_last() =~= Seq::<Seq<char>>::empty());
        }
        assert(remove_spaces(Seq::<Seq<char>>::empty()) == Seq::<Seq<char>>::empty());
        assert(remove_spaces(sep) =~= Seq::<Seq<char>>::empty());
        assert(remove_spaces(s.take(i)) + Seq::<Seq<char>>::empty() =~= remove_spaces(s.take(i)));
    }
    if !s.contains(space()) {
        lemma_remove_spaces_none(s);
    }
}

/// Re-segmentation: when the input holds no space, segmenting the output
/// again, with its spaces left out, gives the same output.
pub proof fn lemma_segmentation_idempotent(s: Seq<Seq<char>>, dict: Set<Seq<Seq<char>>>)
    requires
        !s.contains(space()),
    ensures
        segmentation(remove_spaces(segmentation(s, dict)), dict) == segmentation(s, dict),
{
    lemma_segmentation_keeps_content(s, dict);
}

/// A non-empty dictionary word is segmented into itself.
pub proof fn lemma_segmentation_of_word(w: Seq<Seq<char>>, dict: Set<Seq<Seq<char>>>)
    requires
        w.len() > 0,
        dict.contains(w),
    ensures
        segmentation(w, dict) == w,
{
    assert(w.take(w.len() as int) =~= w);
    let rest = w.subrange(w.len() as int, w.len() as int);
    assert(rest =~= Seq::<Seq<char>>::empty());
    assert(segmentation(rest, dict) =~= Seq::<Seq<char>>::empty());
    assert(w + Seq::<Seq<char>>::empty() + Seq::<Seq<char>>::empty() =~= w);
}

/// Segments `sentence` into dictionary words separated by single spaces,
/// taking at each point the longest prefix that is a word, or else a single
/// grapheme.
pub fn max_match<'a>(sentence: &Graphemes<'a>, dictionary: &Dictionary<'a>) -> (r: Graphemes<'a>)
    ensures
        r@ == segmentation(sentence@, dictionary@),
{
    let ghost s = sentence@;
    let ghost dict = dictionary@;
    let n = sentence.len();
    let mut result = Graphemes::new();
    let mut start: usize = 0;
    proof {
        assert(s.subrange(0, n as int) =~= s);
        assert(result@ + segmentation(s, dict) =~= segmentation(s, dict));
    }
    while start < n
        invariant
            s == sentence@,
            dict == dictionary@,
            n == s.len(),
            start <= n,
            result@ + segmentation(s.subrange(start as int, n as int), dict) == segmentation(s, dict),
        decreases n - start,
    {
        let ghost rest = s.subrange(start as int, n as int);
        let remaining = n - start;
        let mut i: usize = remaining;
        while i > 0
            invariant
                s == sentence@,
                dict == dictionary@,
                n == s.len(),
                start < n,
                remaining == n - start,
                rest == s.subrange(start as int, n as int),
                i <= remaining,
                longest_match(rest, dict, remaining as nat) == longest_match(rest, dict, i as nat),
            ensures
                i <= remaining,
                longest_match(rest, dict, remaining as nat) == longest_match(rest, dict, i as nat),
                i > 0 ==> dict.contains(rest.take(i as int)),
            decreases i,
        {
            let first_word = sentence.slice(start, start + i);
            proof {
                assert(first_word@ =~= rest.take(i as int));
            }
            if dictionary.contains(&first_word) {
                break ;
            }
            i = i - 1;
        }
        proof {
            lemma_longest_match_bound(rest, dict, i as nat);
        }
        let token_len = if i == 0 {
            1
        } else {
            i
        };
        let first_word = sentence.slice(start, start + token_len);
        let ghost before = result@;
        assert(first_word@ =~= rest.take(token_len as int));
        result.append(first_word);
        assert(result@ == before + rest.take(token_len as int));
        start = start + token_len;
        if start < n {
            result.push(" ");
            proof {
                reveal_strlit(" ");
                assert(" "@ == space());
            }
        }
        proof {
            let next = s.subrange(start as int, n as int);
            assert(rest.len() == remaining);
            assert(first_token_len(rest, dict) == token_len);
            assert(rest.subrange(token_len as int, rest.len() as int) =~= next);
            let sep: Seq<Seq<char>> = if next.len() > 0 {
                seq![space()]
            } else {
                Seq::empty()
            };
            assert(result@ =~= before + rest.take(token_len as int) + sep);
            assert(segmentation(rest, dict) == rest.take(token_len as int) + sep + segmentation(
                next,
                dict,
            ));
            assert(result@ + segmentation(next, dict) =~= before + segmentation(rest, dict));
        }
    }
    proof {
        assert(s.subrange(n as int, n as int) =~= Seq::<Seq<char>>::empty());
        assert(result@ + Seq::<Seq<char>>::empty() =~= result@);
    }
    result
}

} // verus!
