use vstd::prelude::*;
use vstd::string::StringSliceAdditionalSpecFns;
use vstd::utf8::*;

verus! {

broadcast use vstd::utf8::encode_utf8_valid_utf8;

/// The UTF-8 bytes of a string slice.
pub open spec fn bytes(s: &str) -> Seq<u8> {
    s.spec_bytes()
}

/// The bytes of each string slice of a sequence.
pub open spec fn bytes_of(v: Seq<&str>) -> Seq<Seq<u8>> {
    v.map_values(|s: &str| s.spec_bytes())
}

/// Index of the first element satisfying `f`, or the length when there is none.
pub open spec fn first_where<T>(s: Seq<T>, f: spec_fn(T) -> bool) -> nat
    decreases s.len(),
{
    if s.len() == 0 {
        0
    } else if f(s[0]) {
        0
    } else {
        1 + first_where(s.drop_first(), f)
    }
}

/// Index of the first occurrence of byte `b`, or the length when there is none.
pub open spec fn index_of(s: Seq<u8>, b: u8) -> nat {
    first_where(s, is_byte(b))
}

/// The predicate of being the byte `b`.
pub open spec fn is_byte(b: u8) -> spec_fn(u8) -> bool {
    |x: u8| x == b
}

/// `p` is a prefix of `t`.
pub open spec fn is_prefix(p: Seq<u8>, t: Seq<u8>) -> bool {
    p.len() <= t.len() && t.subrange(0, p.len() as int) == p
}

/// The pieces of `s` between occurrences of `sep`, in order; at least one piece.
pub open spec fn split_on(s: Seq<u8>, sep: u8) -> Seq<Seq<u8>>
    decreases s.len(),
{
    let k = index_of(s, sep);
    if k < s.len() {
        seq![s.subrange(0, k as int)] + split_on(s.subrange(k + 1 as int, s.len() as int), sep)
    } else {
        seq![s]
    }
}

pub proof fn lemma_first_where_bound<T>(s: Seq<T>, f: spec_fn(T) -> bool)
    ensures
        first_where(s, f) <= s.len(),
        first_where(s, f) < s.len() ==> f(s[first_where(s, f) as int]),
        forall|j: int| 0 <= j < first_where(s, f) ==> !f(#[trigger] s[j]),
    decreases s.len(),
{
    if s.len() > 0 && !f(s[0]) {
        lemma_first_where_bound(s.drop_first(), f);
        assert forall|j: int| 0 <= j < first_where(s, f) implies !f(#[trigger] s[j]) by {
            if j > 0 {
                assert(s[j] == s.drop_first()[j - 1]);
            }
        }
    }
}

pub proof fn lemma_first_where_at<T>(s: Seq<T>, f: spec_fn(T) -> bool, i: int)
    requires
        0 <= i <= s.len(),
        forall|j: int| 0 <= j < i ==> !f(#[trigger] s[j]),
        i < s.len() ==> f(s[i]),
    ensures
        first_where(s, f) == i,
    decreases i,
{
    if i > 0 {
        assert(!f(s[0]));
        assert forall|j: int| 0 <= j < i - 1 implies !f(#[trigger] s.drop_first()[j]) by {
            assert(s.drop_first()[j] == s[j + 1]);
        }
        lemma_first_where_at(s.drop_first(), f, i - 1);
    }
}

/// A byte below 0x80 that starts a valid UTF-8 sequence ends its first character.
pub proof fn lemma_ascii_first_boundary(b: Seq<u8>)
    requires
        valid_utf8(b),
        b.len() > 0,
        b[0] < 0x80,
    ensures
        is_char_boundary(b, 1),
{
    assert(valid_first_scalar(b));
    assert(length_of_first_scalar(b) == 1);
    assert(is_char_boundary(pop_first_scalar(b), 0));
}

/// An ASCII byte inside a valid UTF-8 sequence starts a character.
pub proof fn lemma_ascii_boundary(b: Seq<u8>, i: int)
    requires
        valid_utf8(b),
        0 <= i < b.len(),
        b[i] < 0x80,
    ensures
        is_char_boundary(b, i),
{
    is_char_boundary_iff_not_is_continuation_byte(b, i);
}

/// A valid UTF-8 prefix of a valid UTF-8 sequence ends on a character boundary.
pub proof fn lemma_prefix_boundary(p: Seq<u8>, t: Seq<u8>)
    requires
        valid_utf8(p),
        valid_utf8(t),
        is_prefix(p, t),
    ensures
        is_char_boundary(t, p.len() as int),
    decreases p.len(),
{
    if p.len() > 0 {
        assert(p[0] == t.subrange(0, p.len() as int)[0]);
        assert(valid_first_scalar(p) && valid_utf8(pop_first_scalar(p)));
        assert(valid_first_scalar(t) && valid_utf8(pop_first_scalar(t)));
        let l = length_of_first_scalar(t);
        assert(l == length_of_first_scalar(p));
        let pp = pop_first_scalar(p);
        let pt = pop_first_scalar(t);
        assert(pt.subrange(0, pp.len() as int) =~= pp) by {
            assert forall|j: int| 0 <= j < pp.len() implies pt[j] == pp[j] by {
                assert(pt[j] == t[j + l]);
                assert(pp[j] == p[j + l]);
                assert(t.subrange(0, p.len() as int)[j + l] == t[j + l]);
            }
        }
        lemma_prefix_boundary(pp, pt);
    }
}

/// The first index of byte `b` in `s`, or its length when `b` does not occur.
pub fn find_byte(s: &str, b: u8) -> (r: usize)
    ensures
        r == index_of(bytes(s), b),
        r <= bytes(s).len(),
        r < bytes(s).len() ==> bytes(s)[r as int] == b,
{
    let bs = s.as_bytes();
    let mut i: usize = 0;
    while i < bs.len() && bs[i] != b
        invariant
            bs@ == bytes(s),
            i <= bs@.len(),
            forall|j: int| 0 <= j < i ==> bs@[j] != b,
        decreases bs@.len() - i,
    {
        i = i + 1;
    }
    proof {
        lemma_first_where_at(bs@, is_byte(b), i as int);
    }
    i
}

/// Whether the bytes of `p` begin the bytes of `t`.
pub fn starts_with(t: &str, p: &str) -> (r: bool)
    ensures
        r == is_prefix(bytes(p), bytes(t)),
{
    let tb = t.as_bytes();
    let pb = p.as_bytes();
    if pb.len() > tb.len() {
        return false;
    }
    let mut i: usize = 0;
    while i < pb.len()
        invariant
            tb@ == bytes(t),
            pb@ == bytes(p),
            pb@.len() <= tb@.len(),
            i <= pb@.len(),
            forall|j: int| 0 <= j < i ==> tb@[j] == pb@[j],
        decreases pb@.len() - i,
    {
        if tb[i] != pb[i] {
            assert(tb@.subrange(0, pb@.len() as int)[i as int] != pb@[i as int]);
            return false;
        }
        i = i + 1;
    }
    assert(tb@.subrange(0, pb@.len() as int) =~= pb@);
    true
}

/// Whether two string slices hold the same bytes.
pub fn same_text(a: &str, b: &str) -> (r: bool)
    ensures
        r == (bytes(a) == bytes(b)),
{
    if a.as_bytes().len() != b.as_bytes().len() {
        return false;
    }
    let r = starts_with(a, b);
    assert(bytes(a) =~= bytes(a).subrange(0, bytes(b).len() as int));
    r
}

/// Splits `s` at a byte index that is followed by an ASCII byte or ends `s`.
pub fn split_before_ascii(s: &str, i: usize) -> (r: (&str, &str))
    requires
        i <= bytes(s).len(),
        i < bytes(s).len() ==> bytes(s)[i as int] < 0x80,
    ensures
        bytes(r.0) == bytes(s).subrange(0, i as int),
        bytes(r.1) == bytes(s).subrange(i as int, bytes(s).len() as int),
{
    proof {
        if i < bytes(s).len() {
            lemma_ascii_boundary(bytes(s), i as int);
        } else {
            is_char_boundary_start_end_of_seq(bytes(s));
        }
    }
    s.split_at(i)
}

/// Drops the first byte of `s`, which is ASCII.
pub fn skip_ascii(s: &str) -> (r: &str)
    requires
        bytes(s).len() > 0,
        bytes(s)[0] < 0x80,
    ensures
        bytes(r) == bytes(s).drop_first(),
{
    proof {
        lemma_ascii_first_boundary(bytes(s));
    }
    let (_, rest) = s.split_at(1);
    assert(bytes(rest) =~= bytes(s).drop_first());
    rest
}

/// Splits `s` at every occurrence of the ASCII byte `sep`.
pub fn split_pieces<'a>(s: &'a str, sep: u8) -> (r: Vec<&'a str>)
    requires
        sep < 0x80,
    ensures
        bytes_of(r@) == split_on(bytes(s), sep),
{
    let mut pieces: Vec<&'a str> = Vec::new();
    let mut cur: &'a str = s;
    loop
        invariant_except_break
            bytes_of(pieces@) + split_on(bytes(cur), sep) == split_on(bytes(s), sep),
        invariant
            sep < 0x80,
        ensures
            bytes_of(pieces@) == split_on(bytes(s), sep),
        decreases bytes(cur).len(),
    {
        let k = find_byte(cur, sep);
        if k == cur.as_bytes().len() {
            assert(split_on(bytes(cur), sep) == seq![bytes(cur)]);
            assert(bytes_of(pieces@.push(cur)) =~= bytes_of(pieces@) + seq![bytes(cur)]);
            pieces.push(cur);
            break;
        }
        let (piece, rest) = split_before_ascii(cur, k);
        let next = skip_ascii(rest);
        proof {
            assert(bytes(next) =~= bytes(cur).subrange(k + 1, bytes(cur).len() as int));
            assert(bytes_of(pieces@.push(piece)) =~= bytes_of(pieces@).push(bytes(piece)));
        }
        pieces.push(piece);
        cur = next;
        assert(bytes_of(pieces@) + split_on(bytes(cur), sep) =~= split_on(bytes(s), sep));
    }
    pieces
}

} // verus!
