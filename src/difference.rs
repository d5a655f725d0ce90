use vstd::prelude::*;
use crate::text::{bytes, bytes_of, same_text, split_on, split_pieces};

verus! {

/// The words of a sentence: the pieces between single spaces.
pub open spec fn words(s: Seq<u8>) -> Seq<Seq<u8>> {
    split_on(s, 32)
}

/// `ws` without repeats, each kept where it first occurs.
pub open spec fn unique(ws: Seq<Seq<u8>>) -> Seq<Seq<u8>>
    decreases ws.len(),
{
    if ws.len() == 0 {
        Seq::empty()
    } else {
        let u = unique(ws.drop_last());
        if u.contains(ws.last()) {
            u
        } else {
            u.push(ws.last())
        }
    }
}

/// The elements of `a` that do not occur in `b`, in the order of `a`.
pub open spec fn keep_absent(a: Seq<Seq<u8>>, b: Seq<Seq<u8>>) -> Seq<Seq<u8>>
    decreases a.len(),
{
    if a.len() == 0 {
        Seq::empty()
    } else {
        let r = keep_absent(a.drop_last(), b);
        if b.contains(a.last()) {
            r
        } else {
            r.push(a.last())
        }
    }
}

/// The distinct words of a sentence, in the order in which they first occur.
pub open spec fn word_set(s: Seq<u8>) -> Seq<Seq<u8>> {
    unique(words(s))
}

/// The words of each of two sentences that the other one lacks.
pub struct Difference<'first, 'second> {
    pub first_only: Vec<&'first str>,
    pub second_only: Vec<&'second str>,
}

/// Whether some element of `v` holds the same text as `w`.
fn holds(v: &Vec<&str>, w: &str) -> (r: bool)
    ensures
        r == bytes_of(v@).contains(bytes(w)),
{
    let mut i: usize = 0;
    while i < v.len()
        invariant
            i <= v@.len(),
            forall|j: int| 0 <= j < i ==> bytes_of(v@)[j] != bytes(w),
        decreases v@.len() - i,
    {
        if same_text(v[i], w) {
            assert(bytes_of(v@)[i as int] == bytes(w));
            return true;
        }
        i = i + 1;
    }
    false
}

/// The distinct words of `sentence`, split on single spaces, in order of first occurrence.
pub fn distinct_words<'a>(sentence: &'a str) -> (r: Vec<&'a str>)
    ensures
        bytes_of(r@) == word_set(bytes(sentence)),
{
    let all = split_pieces(sentence, 32);
    let ghost ws = bytes_of(all@);
    let mut seen: Vec<&'a str> = Vec::new();
    let mut i: usize = 0;
    assert(ws.subrange(0, 0) =~= Seq::<Seq<u8>>::empty());
    while i < all.len()
        invariant
            ws == bytes_of(all@),
            ws == words(bytes(sentence)),
            i <= all@.len(),
            bytes_of(seen@) == unique(ws.subrange(0, i as int)),
        decreases all@.len() - i,
    {
        let w = all[i];
        assert(ws.subrange(0, i + 1).drop_last() =~= ws.subrange(0, i as int));
        assert(ws.subrange(0, i + 1).last() == bytes(w));
        if !holds(&seen, w) {
            assert(bytes_of(seen@.push(w)) =~= bytes_of(seen@).push(bytes(w)));
            seen.push(w);
        }
        i = i + 1;
    }
    assert(ws.subrange(0, i as int) =~= ws);
    seen
}

/// The elements of `set_a` whose text no element of `set_b` holds, in the order of `set_a`.
pub fn difference_iter<'a, 'b>(set_a: &Vec<&'a str>, set_b: &Vec<&'b str>) -> (r: Vec<&'a str>)
    ensures
        bytes_of(r@) == keep_absent(bytes_of(set_a@), bytes_of(set_b@)),
{
    let ghost a = bytes_of(set_a@);
    let ghost b = bytes_of(set_b@);
    let mut out: Vec<&'a str> = Vec::new();
    let mut i: usize = 0;
    assert(a.subrange(0, 0) =~= Seq::<Seq<u8>>::empty());
    while i < set_a.len()
        invariant
            a == bytes_of(set_a@),
            b == bytes_of(set_b@),
            i <= set_a@.len(),
            bytes_of(out@) == keep_absent(a.subrange(0, i as int), b),
        decreases set_a@.len() - i,
    {
        let w = set_a[i];
        assert(a.subrange(0, i + 1).drop_last() =~= a.subrange(0, i as int));
        assert(a.subrange(0, i + 1).last() == bytes(w));
        if !holds(set_b, w) {
            assert(bytes_of(out@.push(w)) =~= bytes_of(out@).push(bytes(w)));
            out.push(w);
        }
        i = i + 1;
    }
    assert(a.subrange(0, i as int) =~= a);
    out
}

/// The distinct words of each sentence that the other sentence lacks, each list in
/// the order in which the words first occur in its own sentence.
pub fn find_difference<'fst, 'snd>(sentence1: &'fst str, sentence2: &'snd str) -> (r: Difference<
    'fst,
    'snd,
>)
    ensures
        bytes_of(r.first_only@) == keep_absent(
            word_set(bytes(sentence1)),
            word_set(bytes(sentence2)),
        ),
        bytes_of(r.second_only@) == keep_absent(
            word_set(bytes(sentence2)),
            word_set(bytes(sentence1)),
        ),
{
    let first_words = distinct_words(sentence1);
    let second_words = distinct_words(sentence2);
    Difference {
        first_only: difference_iter(&first_words, &second_words),
        second_only: difference_iter(&second_words, &first_words),
    }
}

} // verus!
