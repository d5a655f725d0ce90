use vstd::prelude::*;
use vstd::utf8::*;
use crate::text::{
    bytes, bytes_of, find_byte, lemma_ascii_first_boundary, first_where, index_of, is_prefix, lemma_first_where_at,
    lemma_first_where_bound, lemma_prefix_boundary, skip_ascii, split_before_ascii, split_on,
    split_pieces, starts_with,
};

verus! {

broadcast use vstd::utf8::encode_utf8_valid_utf8;

/// What a token means, over the bytes of the pattern.
pub enum TokenModel {
    Literal(Seq<u8>),
    Alternatives(Seq<Seq<u8>>),
    Wildcard,
}

/// One element of a compiled pattern, borrowing its text from the pattern.
#[derive(Debug, PartialEq, Eq)]
pub enum MatcherToken<'a> {
    /// Text that must appear as it is.
    RawText(&'a str),
    /// Any one of several texts, written `(one|two|three)`; the first that fits wins.
    OneOfText(Vec<&'a str>),
    /// Any single character, written `.`.
    WildCard,
}

impl<'a> View for MatcherToken<'a> {
    type V = TokenModel;

    open spec fn view(&self) -> TokenModel {
        match self {
            MatcherToken::RawText(s) => TokenModel::Literal(bytes(s)),
            MatcherToken::OneOfText(v) => TokenModel::Alternatives(bytes_of(v@)),
            MatcherToken::WildCard => TokenModel::Wildcard,
        }
    }
}

/// The models of a sequence of tokens.
pub open spec fn tokens_model<'a>(v: Seq<MatcherToken<'a>>) -> Seq<TokenModel> {
    v.map_values(|t: MatcherToken<'a>| t@)
}

/// A byte that ends a run of literal text: `(` or `.`.
pub open spec fn ends_literal() -> spec_fn(u8) -> bool {
    |x: u8| x == 40 || x == 46
}

/// The first token of a pattern and how many bytes it takes, or `None` when the
/// pattern is empty or opens a group that never closes.
pub open spec fn step_spec(p: Seq<u8>) -> Option<(TokenModel, nat)> {
    if p.len() == 0 {
        None
    } else if p[0] == 40 {
        let q = p.drop_first();
        let c = index_of(q, 41);
        if c < q.len() {
            Some((TokenModel::Alternatives(split_on(q.subrange(0, c as int), 124)), c + 2))
        } else {
            None
        }
    } else if p[0] == 46 {
        Some((TokenModel::Wildcard, 1))
    } else {
        let e = first_where(p, ends_literal());
        Some((TokenModel::Literal(p.subrange(0, e as int)), e))
    }
}

/// The tokens of a whole pattern, or `None` when the pattern is malformed.
pub open spec fn compile_spec(p: Seq<u8>) -> Option<Seq<TokenModel>>
    decreases p.len(),
    via compile_spec_decreases
{
    if p.len() == 0 {
        Some(Seq::empty())
    } else {
        match step_spec(p) {
            None => None,
            Some((t, n)) => match compile_spec(p.subrange(n as int, p.len() as int)) {
                None => None,
                Some(ts) => Some(seq![t] + ts),
            },
        }
    }
}

#[via_fn]
proof fn compile_spec_decreases(p: Seq<u8>) {
    if p.len() > 0 && p[0] != 40 && p[0] != 46 {
        lemma_first_where_bound(p, ends_literal());
    }
}

/// The number of bytes of the first character of `c`.
pub open spec fn unit_len(c: Seq<u8>) -> nat {
    choose|k: nat|
        0 < k <= c.len() && is_char_boundary(c, k as int) && forall|j: int|
            0 < j < k ==> !is_char_boundary(c, j)
}

/// The predicate of being a prefix of `c`.
pub open spec fn prefix_of(c: Seq<u8>) -> spec_fn(Seq<u8>) -> bool {
    |x: Seq<u8>| is_prefix(x, c)
}

/// How many bytes of `c` a token takes, or `None` when it does not match there.
pub open spec fn check_spec(t: TokenModel, c: Seq<u8>) -> Option<nat> {
    if c.len() == 0 {
        None
    } else {
        match t {
            TokenModel::Literal(l) => if is_prefix(l, c) {
                Some(l.len())
            } else {
                None
            },
            TokenModel::Alternatives(a) => {
                let i = first_where(a, prefix_of(c));
                if i < a.len() {
                    Some(a[i as int].len())
                } else {
                    None
                }
            },
            TokenModel::Wildcard => Some(unit_len(c)),
        }
    }
}

/// The parts of `c` taken by the tokens in turn, up to the first token that fails.
pub open spec fn match_spec(toks: Seq<TokenModel>, c: Seq<u8>) -> Seq<Seq<u8>>
    decreases toks.len(),
{
    if toks.len() == 0 {
        Seq::empty()
    } else {
        match check_spec(toks[0], c) {
            None => Seq::empty(),
            Some(n) => seq![c.subrange(0, n as int)] + match_spec(
                toks.drop_first(),
                c.subrange(n as int, c.len() as int),
            ),
        }
    }
}

/// The bytes of the first character of a non-empty string.
fn first_unit(text: &str) -> (k: usize)
    requires
        bytes(text).len() > 0,
    ensures
        k == unit_len(bytes(text)),
        0 < k <= bytes(text).len(),
        is_char_boundary(bytes(text), k as int),
{
    let n = text.as_bytes().len();
    let mut k: usize = 1;
    while k < n && !text.is_char_boundary(k)
        invariant
            n == bytes(text).len(),
            1 <= k <= n,
            forall|j: int| 0 < j < k ==> !is_char_boundary(bytes(text), j),
        decreases n - k,
    {
        k = k + 1;
    }
    proof {
        let c = bytes(text);
        if k == n {
            is_char_boundary_start_end_of_seq(c);
        }
        let w = k as nat;
        assert(0 < w <= c.len() && is_char_boundary(c, w as int) && forall|j: int|
            0 < j < w ==> !is_char_boundary(c, j));
        let u = unit_len(c);
        assert(u == k) by {
            if u < k {
                assert(!is_char_boundary(c, u as int));
            }
            if k < u {
                assert(!is_char_boundary(c, k as int));
            }
        }
    }
    k
}

impl<'a> MatcherToken<'a> {
    /// Matches this token against the start of `text`. On success returns `true`,
    /// the text that is left and the text that was taken; otherwise `(false, "", "")`.
    pub fn check_string<'c>(&self, text: &'c str) -> (r: (bool, &'c str, &'c str))
        ensures
            match check_spec(self@, bytes(text)) {
                Some(n) => {
                    &&& r.0
                    &&& bytes(r.2) == bytes(text).subrange(0, n as int)
                    &&& bytes(r.1) == bytes(text).subrange(n as int, bytes(text).len() as int)
                },
                None => !r.0 && bytes(r.1).len() == 0 && bytes(r.2).len() == 0,
            },
    {
        proof {
            reveal_strlit("");
        }
        let tb = text.as_bytes();
        if tb.len() == 0 {
            return (false, "", "");
        }
        match self {
            MatcherToken::RawText(lit) => {
                if !starts_with(text, lit) {
                    return (false, "", "");
                }
                proof {
                    lemma_prefix_boundary(bytes(lit), bytes(text));
                }
                let (taken, rest) = text.split_at(lit.as_bytes().len());
                (true, rest, taken)
            },
            MatcherToken::OneOfText(alts) => {
                let mut i: usize = 0;
                while i < alts.len()
                    invariant
                        self@ == TokenModel::Alternatives(bytes_of(alts@)),
                        bytes(text).len() > 0,
                        i <= alts@.len(),
                        forall|j: int|
                            0 <= j < i ==> !is_prefix(#[trigger] bytes_of(alts@)[j], bytes(text)),
                    decreases alts@.len() - i,
                {
                    let alt: &str = alts[i];
                    assert(bytes_of(alts@)[i as int] == bytes(alt));
                    if starts_with(text, alt) {
                        proof {
                            lemma_first_where_at(bytes_of(alts@), prefix_of(bytes(text)), i as int);
                            lemma_prefix_boundary(bytes(alt), bytes(text));
                        }
                        let (taken, rest) = text.split_at(alt.as_bytes().len());
                        return (true, rest, taken);
                    }
                    i = i + 1;
                }
                proof {
                    lemma_first_where_at(bytes_of(alts@), prefix_of(bytes(text)), i as int);
                }
                (false, "", "")
            },
            MatcherToken::WildCard => {
                let k = first_unit(text);
                proof {
                    if k == bytes(text).len() {
                        is_char_boundary_start_end_of_seq(bytes(text));
                    }
                }
                let (taken, rest) = text.split_at(k);
                (true, rest, taken)
            },
        }
    }
}

/// Reads the first token of a non-empty pattern. Returns it with the pattern text
/// after it, or `None` when the pattern is empty or opens a group that never closes.
pub fn find_match_token<'a>(text: &'a str) -> (r: (Option<MatcherToken<'a>>, &'a str))
    ensures
        match step_spec(bytes(text)) {
            None => r.0 is None,
            Some((t, n)) => {
                &&& r.0 is Some
                &&& r.0->Some_0@ == t
                &&& bytes(r.1) == bytes(text).subrange(n as int, bytes(text).len() as int)
                &&& bytes(r.1).len() < bytes(text).len()
            },
        },
{
    proof {
        reveal_strlit("");
    }
    let tb = text.as_bytes();
    if tb.len() == 0 {
        return (None, "");
    }
    let first = tb[0];
    if first == 40 {
        let body = skip_ascii(text);
        let close = find_byte(body, 41);
        if close == body.as_bytes().len() {
            return (None, "");
        }
        let (inner, closing) = split_before_ascii(body, close);
        let rest = skip_ascii(closing);
        let alts = split_pieces(inner, 124);
        proof {
            assert(bytes(rest) =~= bytes(text).subrange(close + 2, bytes(text).len() as int));
        }
        (Some(MatcherToken::OneOfText(alts)), rest)
    } else if first == 46 {
        (Some(MatcherToken::WildCard), skip_ascii(text))
    } else {
        let mut e: usize = 1;
        while e < tb.len() && tb[e] != 40 && tb[e] != 46
            invariant
                tb@ == bytes(text),
                1 <= e <= tb@.len(),
                tb@[0] != 40 && tb@[0] != 46,
                forall|j: int| 0 <= j < e ==> tb@[j] != 40 && tb@[j] != 46,
            decreases tb@.len() - e,
        {
            e = e + 1;
        }
        proof {
            lemma_first_where_at(tb@, ends_literal(), e as int);
        }
        let (lit, rest) = split_before_ascii(text, e);
        (Some(MatcherToken::RawText(lit)), rest)
    }
}

/// Joins the tokens already read to the outcome of compiling the rest.
pub open spec fn after_tokens(ts: Seq<TokenModel>, rest: Option<Seq<TokenModel>>) -> Option<
    Seq<TokenModel>,
> {
    match rest {
        None => None,
        Some(r) => Some(ts + r),
    }
}

/// A compiled pattern.
#[derive(Debug, PartialEq, Eq)]
pub struct Matcher<'a> {
    /// The text the pattern was compiled from.
    pub text: &'a str,
    /// The tokens of the pattern, in order.
    pub tokens: Vec<MatcherToken<'a>>,
    /// How many tokens the most recent match took.
    pub most_tokens_matched: usize,
}

impl<'a> Matcher<'a> {
    /// The tokens of the pattern as models.
    pub open spec fn model(&self) -> Seq<TokenModel> {
        tokens_model(self.tokens@)
    }

    /// Compiles `text`. Returns `None` when a group opened with `(` never closes.
    pub fn new(text: &'a str) -> (r: Option<Matcher<'a>>)
        ensures
            match compile_spec(bytes(text)) {
                None => r is None,
                Some(ts) => {
                    &&& r is Some
                    &&& r->Some_0.text == text
                    &&& r->Some_0.model() == ts
                    &&& r->Some_0.most_tokens_matched == 0
                },
            },
    {
        let mut tokens: Vec<MatcherToken<'a>> = Vec::new();
        let mut current: &'a str = text;
        loop
            invariant
                compile_spec(bytes(text)) == after_tokens(
                    tokens_model(tokens@),
                    compile_spec(bytes(current)),
                ),
            decreases bytes(current).len(),
        {
            if current.as_bytes().len() == 0 {
                assert(tokens_model(tokens@) + Seq::empty() =~= tokens_model(tokens@));
                return Some(Matcher { text, tokens, most_tokens_matched: 0 });
            }
            let (found, rest) = find_match_token(current);
            match found {
                Some(token) => {
                    proof {
                        assert(tokens_model(tokens@.push(token)) =~= tokens_model(tokens@).push(
                            token@,
                        ));
                        let ts = tokens_model(tokens@);
                        match compile_spec(bytes(rest)) {
                            None => {},
                            Some(more) => {
                                assert(ts + (seq![token@] + more) =~= ts.push(token@) + more);
                            },
                        }
                    }
                    tokens.push(token);
                    current = rest;
                },
                None => {
                    return None;
                },
            }
        }
    }

    /// Matches the tokens in turn against `string`, each from where the last one
    /// stopped, up to the first that fails. Returns each matched token with the
    /// text it took, and records their number.
    pub fn match_string<'b, 'c>(&'b mut self, string: &'c str) -> (r: Vec<(&'b MatcherToken<'a>, &'c str)>)
        where
            'a: 'c,
        ensures
            final(self).text == old(self).text,
            final(self).tokens == old(self).tokens,
            r@.len() == match_spec(old(self).model(), bytes(string)).len(),
            forall|i: int|
                0 <= i < r@.len() ==> {
                    &&& *(#[trigger] r@[i]).0 == old(self).tokens@[i]
                    &&& bytes(r@[i].1) == match_spec(old(self).model(), bytes(string))[i]
                },
            final(self).most_tokens_matched == r@.len(),
    {
        self.most_tokens_matched = 0;
        let mut found: Vec<(&'b MatcherToken<'a>, &'c str)> = Vec::new();
        let mut current: &'c str = string;
        let n = self.tokens.len();
        let ghost toks = self.model();
        let ghost mut pieces: Seq<Seq<u8>> = Seq::empty();
        let mut i: usize = 0;
        assert(toks.skip(0) =~= toks);
        while i < n
            invariant
                self.text == old(self).text,
                self.tokens == old(self).tokens,
                n == self.tokens@.len(),
                toks == self.model(),
                toks.len() == n,
                i <= n,
                found@.len() == i,
                pieces.len() == i,
                self.most_tokens_matched == i,
                forall|j: int|
                    0 <= j < i ==> {
                        &&& *(#[trigger] found@[j]).0 == self.tokens@[j]
                        &&& bytes(found@[j].1) == pieces[j]
                    },
                match_spec(toks, bytes(string)) == pieces + match_spec(
                    toks.skip(i as int),
                    bytes(current),
                ),
            ensures
                found@.len() == pieces.len(),
                self.most_tokens_matched == pieces.len(),
                forall|j: int|
                    0 <= j < pieces.len() ==> {
                        &&& *(#[trigger] found@[j]).0 == self.tokens@[j]
                        &&& bytes(found@[j].1) == pieces[j]
                    },
                match_spec(toks, bytes(string)) == pieces,
            decreases n - i,
        {
            let token: &'b MatcherToken<'a> = &self.tokens[i];
            let (ok, rest, taken) = token.check_string(current);
            let ghost tail = toks.skip(i as int);
            assert(tail[0] == token@);
            if !ok {
                assert(match_spec(tail, bytes(current)) =~= Seq::<Seq<u8>>::empty());
                assert(pieces + Seq::<Seq<u8>>::empty() =~= pieces);
                break;
            }
            proof {
                assert(tail.drop_first() =~= toks.skip(i + 1));
                assert(pieces.push(bytes(taken)) + match_spec(toks.skip(i + 1), bytes(rest))
                    =~= pieces + match_spec(tail, bytes(current)));
                pieces = pieces.push(bytes(taken));
            }
            i = i + 1;
            self.most_tokens_matched = self.most_tokens_matched + 1;
            found.push((token, taken));
            current = rest;
        }
        proof {
            if i == n {
                assert(pieces + Seq::<Seq<u8>>::empty() =~= pieces);
            }
        }
        found
    }
}

proof fn lemma_first_boundary_exists(c: Seq<u8>, k: nat)
    requires
        valid_utf8(c),
        1 <= k <= c.len(),
        forall|j: int| 0 < j < k ==> !is_char_boundary(c, j),
    ensures
        0 < unit_len(c) <= c.len(),
        is_char_boundary(c, unit_len(c) as int),
        forall|j: int| 0 < j < unit_len(c) ==> !is_char_boundary(c, j),
    decreases c.len() - k,
{
    if is_char_boundary(c, k as int) {
        assert(0 < k <= c.len() && is_char_boundary(c, k as int) && forall|j: int|
            0 < j < k ==> !is_char_boundary(c, j));
    } else {
        if k == c.len() {
            is_char_boundary_start_end_of_seq(c);
        }
        lemma_first_boundary_exists(c, k + 1);
    }
}

/// A literal token matches exactly when its text is a prefix of the candidate,
/// and then takes the length of its text.
pub proof fn literal_matches_prefix(l: Seq<u8>, c: Seq<u8>)
    requires
        l.len() > 0,
    ensures
        check_spec(TokenModel::Literal(l), c) is Some <==> (l.len() <= c.len() && c.subrange(
            0,
            l.len() as int,
        ) == l),
        check_spec(TokenModel::Literal(l), c) is Some ==> check_spec(TokenModel::Literal(l), c)
            == Some(l.len()),
{
}

/// On a non-empty candidate, a group of alternatives matches exactly when one of
/// them is a prefix of it, and then takes the earliest such alternative.
pub proof fn alternatives_take_earliest(a: Seq<Seq<u8>>, c: Seq<u8>)
    requires
        c.len() > 0,
    ensures
        check_spec(TokenModel::Alternatives(a), c) is Some <==> exists|i: int|
            0 <= i < a.len() && is_prefix(#[trigger] a[i], c),
        check_spec(TokenModel::Alternatives(a), c) is Some ==> exists|i: int|
            0 <= i < a.len() && is_prefix(#[trigger] a[i], c) && (forall|j: int|
                0 <= j < i ==> !is_prefix(#[trigger] a[j], c)) && check_spec(
                TokenModel::Alternatives(a),
                c,
            ) == Some(a[i].len()),
{
    lemma_first_where_bound(a, prefix_of(c));
    let i = first_where(a, prefix_of(c));
    if i < a.len() {
        assert(is_prefix(a[i as int], c));
    } else {
        assert forall|k: int| 0 <= k < a.len() implies !is_prefix(#[trigger] a[k], c) by {
            assert(!prefix_of(c)(a[k]));
        }
    }
}

/// A wildcard fails only on an empty candidate; otherwise it takes the first
/// character, a single byte when that byte is ASCII.
pub proof fn wildcard_takes_one_character(c: Seq<u8>)
    requires
        valid_utf8(c),
    ensures
        check_spec(TokenModel::Wildcard, c) is None <==> c.len() == 0,
        c.len() > 0 ==> {
            &&& check_spec(TokenModel::Wildcard, c) == Some(unit_len(c))
            &&& 0 < unit_len(c) <= c.len()
            &&& is_char_boundary(c, unit_len(c) as int)
            &&& forall|j: int| 0 < j < unit_len(c) ==> !is_char_boundary(c, j)
        },
        c.len() > 0 && c[0] < 0x80 ==> unit_len(c) == 1,
{
    if c.len() > 0 {
        lemma_first_boundary_exists(c, 1);
        if c[0] < 0x80 {
            lemma_ascii_first_boundary(c);
        }
    }
}

} // verus!
