//! Turning the text of a path, such as `.tuple.1` or `.y[0].baz`, into its
//! [`Access`]es.
use vstd::prelude::*;
use vstd::slice::slice_subrange;
use vstd::string::StringSliceAdditionalSpecFns;

use super::{Access, AccessModel, Path};

verus! {

/// One lexical unit of a path.
#[derive(PartialEq, Eq, Debug, Clone, Copy)]
pub enum Token {
    Dot,
    OpenBracket,
    CloseBracket,
    /// An identifier: the bytes `start..end` of the path.
    Ident(usize, usize),
}

/// The bytes that end an identifier: `.`, `[` and `]`.
pub open spec fn is_delimiter(b: u8) -> bool {
    b == 46u8 || b == 91u8 || b == 93u8
}

/// The number of bytes from `pos` up to the next delimiter or the end of `s`.
pub open spec fn ident_len(s: Seq<u8>, pos: int) -> nat
    decreases s.len() - pos,
{
    if pos < 0 || pos >= s.len() || is_delimiter(s[pos]) {
        0
    } else {
        1 + ident_len(s, pos + 1)
    }
}

pub proof fn lemma_ident_len(s: Seq<u8>, pos: int)
    requires
        0 <= pos <= s.len(),
    ensures
        pos + ident_len(s, pos) <= s.len(),
    decreases s.len() - pos,
{
    if pos < s.len() && !is_delimiter(s[pos]) {
        lemma_ident_len(s, pos + 1);
    }
}

/// A run of bytes `pos..end` with no delimiter, ended by a delimiter or by
/// the end of `s`, is `ident_len(s, pos)` long.
proof fn lemma_ident_len_exact(s: Seq<u8>, pos: int, end: int)
    requires
        0 <= pos <= end <= s.len(),
        forall|k: int| pos <= k < end ==> !is_delimiter(#[trigger] s[k]),
        end < s.len() ==> is_delimiter(s[end]),
    ensures
        ident_len(s, pos) == end - pos,
    decreases end - pos,
{
    if pos < end {
        lemma_ident_len_exact(s, pos + 1, end);
    }
}

/// The token of `s` at `pos`, and the position after it; `None` at the end.
pub open spec fn token_at(s: Seq<u8>, pos: int) -> Option<(Token, int)> {
    if pos < 0 || pos >= s.len() {
        None
    } else if s[pos] == 46u8 {
        Some((Token::Dot, pos + 1))
    } else if s[pos] == 91u8 {
        Some((Token::OpenBracket, pos + 1))
    } else if s[pos] == 93u8 {
        Some((Token::CloseBracket, pos + 1))
    } else {
        let end = pos + ident_len(s, pos);
        Some((Token::Ident(pos as usize, end as usize), end))
    }
}

pub proof fn lemma_token_at(s: Seq<u8>, pos: int)
    requires
        0 <= pos <= s.len(),
        s.len() <= usize::MAX,
    ensures
        token_at(s, pos) matches Some((t, p)) ==> pos < p <= s.len() && (t matches Token::Ident(
            a,
            b,
        ) ==> a == pos && b == p),
{
    if pos < s.len() {
        lemma_ident_len(s, pos);
    }
}

/// `b` is an ASCII decimal digit.
pub open spec fn is_digit(b: u8) -> bool {
    48u8 <= b <= 57u8
}

/// The number that the decimal digits `s` write.
pub open spec fn decimal(s: Seq<u8>) -> nat
    decreases s.len(),
{
    if s.len() == 0 {
        0
    } else {
        decimal(s.drop_last()) * 10 + (s.last() - 48u8) as nat
    }
}

/// The digits of `s`, after a leading `+` sign if there is one.
pub open spec fn digits_of(s: Seq<u8>) -> Seq<u8> {
    if s.len() > 0 && s[0] == 43u8 {
        s.drop_first()
    } else {
        s
    }
}

/// What `usize::from_str` returns on the text `s`: the number written by an
/// optional `+` and at least one decimal digit, when it fits in a `usize`.
pub open spec fn parsed_usize(s: Seq<u8>) -> Option<usize> {
    let d = digits_of(s);
    if d.len() > 0 && (forall|i: int| 0 <= i < d.len() ==> is_digit(#[trigger] d[i])) && decimal(
        d,
    ) <= usize::MAX {
        Some(decimal(d) as usize)
    } else {
        None
    }
}

proof fn lemma_decimal_prefix(s: Seq<u8>, k: int)
    requires
        0 <= k <= s.len(),
        forall|i: int| 0 <= i < s.len() ==> is_digit(#[trigger] s[i]),
    ensures
        decimal(s.take(k)) <= decimal(s),
    decreases s.len(),
{
    if k == s.len() {
        assert(s.take(k) =~= s);
    } else {
        let rest = s.drop_last();
        assert(s.take(k) =~= rest.take(k));
        lemma_decimal_prefix(rest, k);
    }
}

/// Reads a `usize` as `usize::from_str` does: an optional `+`, then decimal
/// digits, without overflow.
pub fn parse_usize(s: &[u8]) -> (r: Option<usize>)
    ensures
        r == parsed_usize(s@),
{
    let start: usize = if s.len() > 0 && s[0] == 43u8 {
        1
    } else {
        0
    };
    let ghost d = digits_of(s@);
    assert(d =~= s@.subrange(start as int, s@.len() as int));
    if start == s.len() {
        return None;
    }
    let mut acc: usize = 0;
    let mut i: usize = start;
    while i < s.len()
        invariant
            start <= i <= s@.len(),
            d == digits_of(s@),
            d == s@.subrange(start as int, s@.len() as int),
            forall|k: int| start <= k < i ==> is_digit(#[trigger] s@[k]),
            acc == decimal(d.take(i - start)),
        decreases s@.len() - i,
    {
        let b = s[i];
        let ghost n = i - start;
        if b < 48u8 || b > 57u8 {
            assert(d[n] == s@[i as int]);
            assert(!is_digit(d[n]));
            return None;
        }
        assert(d.take(n + 1).drop_last() =~= d.take(n));
        assert(d.take(n + 1).last() == b);
        let digit = (b - 48u8) as usize;
        let next = match acc.checked_mul(10) {
            Some(m) => m.checked_add(digit),
            None => None,
        };
        match next {
            Some(v) => {
                acc = v;
            },
            None => {
                proof {
                    if forall|k: int| 0 <= k < d.len() ==> is_digit(#[trigger] d[k]) {
                        lemma_decimal_prefix(d, n + 1);
                    }
                }
                return None;
            },
        }
        i = i + 1;
    }
    assert(d.take(d.len() as int) =~= d);
    assert forall|k: int| 0 <= k < d.len() implies is_digit(#[trigger] d[k]) by {
        assert(d[k] == s@[start + k]);
    }
    Some(acc)
}

/// The accessor written by the identifier `s[a..b]`: the index of a tuple
/// field when it reads as a `usize`, a named field otherwise.
pub open spec fn ident_access(s: Seq<u8>, a: int, b: int) -> AccessModel {
    match parsed_usize(s.subrange(a, b)) {
        Some(n) => (1u8, Seq::empty(), n),
        None => (0u8, s.subrange(a, b), 0usize),
    }
}

/// The accessor that starts with token `t`, whose following tokens are read
/// from `pos`, and the position after it; `None` where the tokens make no
/// accessor.
///
/// `.` is followed by an identifier; `[` by an identifier that reads as a
/// `usize` and by one more token (the closing `]`); a lone identifier is an
/// accessor by itself; `]` starts none.
pub open spec fn access_from(s: Seq<u8>, t: Token, pos: int) -> Option<(AccessModel, int)> {
    match t {
        Token::Dot => match token_at(s, pos) {
            Some((Token::Ident(a, b), p)) => Some((ident_access(s, a as int, b as int), p)),
            _ => None,
        },
        Token::OpenBracket => match token_at(s, pos) {
            Some((Token::Ident(a, b), p)) => match parsed_usize(s.subrange(a as int, b as int)) {
                Some(n) => Some(
                    (
                        (2u8, Seq::empty(), n),
                        match token_at(s, p) {
                            Some((_, q)) => q,
                            None => p,
                        },
                    ),
                ),
                None => None,
            },
            _ => None,
        },
        Token::CloseBracket => None,
        Token::Ident(a, b) => Some((ident_access(s, a as int, b as int), pos)),
    }
}

pub proof fn lemma_access_from(s: Seq<u8>, t: Token, pos: int)
    requires
        0 <= pos <= s.len(),
        s.len() <= usize::MAX,
    ensures
        access_from(s, t, pos) matches Some((m, q)) ==> pos <= q <= s.len(),
{
    lemma_token_at(s, pos);
    if let Some((_, p)) = token_at(s, pos) {
        lemma_token_at(s, p);
    }
}

/// The accessors that the text `s` writes from position `pos` on, `None` if
/// some token there makes no accessor.
pub open spec fn parse_spec(s: Seq<u8>, pos: int) -> Option<Seq<AccessModel>>
    decreases s.len() - pos,
{
    if 0 <= pos <= s.len() && s.len() <= usize::MAX {
        match token_at(s, pos) {
            None => Some(Seq::empty()),
            Some((t, p)) => match access_from(s, t, p) {
                None => None,
                Some((m, q)) => {
                    proof {
                        lemma_token_at(s, pos);
                        lemma_access_from(s, t, p);
                    }
                    match parse_spec(s, q) {
                        Some(rest) => Some(seq![m] + rest),
                        None => None,
                    }
                },
            },
        }
    } else {
        None
    }
}

/// Reads the tokens of a path one after the other.
pub struct PathParser<'a> {
    pub path: &'a [u8],
    pub pos: usize,
}

impl<'a> PathParser<'a> {
    /// A parser at the start of `path`, which holds no `#` (a field index
    /// accessor, such as `#0`, is not supported).
    pub fn new(path: &'a [u8]) -> (r: Self)
        requires
            !path@.contains(35u8),
        ensures
            r.path == path,
            r.pos == 0,
    {
        PathParser { path, pos: 0 }
    }

    /// The next token, `None` at the end of the path.
    pub fn next_token(&mut self) -> (r: Option<Token>)
        requires
            old(self).pos <= old(self).path@.len(),
        ensures
            final(self).path == old(self).path,
            final(self).pos <= final(self).path@.len(),
            match token_at(old(self).path@, old(self).pos as int) {
                None => r is None && final(self).pos == old(self).pos,
                Some((t, p)) => r == Some(t) && final(self).pos == p,
            },
    {
        let path = self.path;
        let pos = self.pos;
        if pos >= path.len() {
            return None;
        }
        let first = path[pos];
        if first == 46u8 {
            self.pos = pos + 1;
            return Some(Token::Dot);
        } else if first == 91u8 {
            self.pos = pos + 1;
            return Some(Token::OpenBracket);
        } else if first == 93u8 {
            self.pos = pos + 1;
            return Some(Token::CloseBracket);
        }
        // We are reading an identifier now.

        let mut end = pos;
        while end < path.len()
            invariant
                pos < path@.len(),
                pos <= end <= path@.len(),
                !is_delimiter(path@[pos as int]),
                forall|k: int| pos <= k < end ==> !is_delimiter(#[trigger] path@[k]),
            ensures
                pos <= end <= path@.len(),
                forall|k: int| pos <= k < end ==> !is_delimiter(#[trigger] path@[k]),
                end < path@.len() ==> is_delimiter(path@[end as int]),
            decreases path@.len() - end,
        {
            let b = path[end];
            if b == 46u8 || b == 91u8 || b == 93u8 {
                break;
            }
            end = end + 1;
        }
        proof {
            lemma_ident_len_exact(path@, pos as int, end as int);
        }
        self.pos = end;
        Some(Token::Ident(pos, end))
    }

    /// The accessor of the bytes `a..b`.
    fn ident_access(&self, a: usize, b: usize) -> (r: Access<'a>)
        requires
            a <= b <= self.path@.len(),
        ensures
            r.model() == ident_access(self.path@, a as int, b as int),
    {
        let value = slice_subrange(self.path, a, b);
        match parse_usize(value) {
            Some(n) => Access::TupleIndex(n),
            None => Access::Field(value),
        }
    }

    /// The accessor that starts with `token`, reading its following tokens
    /// from the parser; `None` where they make no accessor.
    pub fn token_to_access(&mut self, token: Token) -> (r: Option<Access<'a>>)
        requires
            old(self).pos <= old(self).path@.len(),
            token matches Token::Ident(a, b) ==> a <= b <= old(self).path@.len(),
        ensures
            final(self).path == old(self).path,
            final(self).pos <= final(self).path@.len(),
            match access_from(old(self).path@, token, old(self).pos as int) {
                None => r is None,
                Some((m, q)) => r matches Some(a) && a.model() == m && final(self).pos == q,
            },
    {
        let len = self.path.len();
        proof {
            lemma_token_at(self.path@, self.pos as int);
        }
        match token {
            Token::Dot => match self.next_token() {
                Some(Token::Ident(a, b)) => Some(self.ident_access(a, b)),
                _ => None,
            },
            Token::OpenBracket => match self.next_token() {
                Some(Token::Ident(a, b)) => {
                    let value = slice_subrange(self.path, a, b);
                    match parse_usize(value) {
                        Some(n) => {
                            self.next_token();
                            Some(Access::ArrayIndex(n))
                        },
                        None => None,
                    }
                },
                _ => None,
            },
            Token::Ident(a, b) => Some(self.ident_access(a, b)),
            Token::CloseBracket => None,
        }
    }
}

/// Parses `path` into its accessors: `None` where its tokens make no
/// accessor (a `.` or a `[` not followed by an identifier, a `[` whose
/// index is no `usize`, a stray `]`).
///
/// `path` holds no `#` (a field index accessor, such as `#0`, is not
/// supported).
pub fn parse_path<'a>(path: &'a str) -> (r: Option<Path<'a>>)
    requires
        !path.spec_bytes().contains(35u8),
    ensures
        match r {
            Some(p) => parse_spec(path.spec_bytes(), 0) == Some(p.model()),
            None => parse_spec(path.spec_bytes(), 0) is None,
        },
{
    let bytes = path.as_bytes();
    let len = bytes.len();
    let ghost s = bytes@;
    let mut parser = PathParser::new(bytes);
    let mut accesses: Vec<Access<'a>> = Vec::new();
    loop
        invariant
            parser.path@ == s,
            s == path.spec_bytes(),
            parser.pos <= s.len(),
            s.len() <= usize::MAX,
            parse_spec(s, 0) == match parse_spec(s, parser.pos as int) {
                Some(rest) => Some(Path(accesses).model() + rest),
                None => None::<Seq<AccessModel>>,
            },
        decreases s.len() - parser.pos,
    {
        let ghost before = parser.pos as int;
        let ghost old_model = Path(accesses).model();
        proof {
            lemma_token_at(s, before);
        }
        let token = match parser.next_token() {
            Some(t) => t,
            None => {
                assert(parse_spec(s, before) == Some(Seq::<AccessModel>::empty()));
                assert(old_model + Seq::<AccessModel>::empty() =~= old_model);
                return Some(Path(accesses));
            },
        };
        let ghost p = parser.pos as int;
        proof {
            lemma_access_from(s, token, p);
        }
        match parser.token_to_access(token) {
            Some(access) => {
                accesses.push(access);
                proof {
                    let m = access.model();
                    assert(Path(accesses).model() =~= old_model.push(m));
                    match parse_spec(s, parser.pos as int) {
                        Some(rest) => {
                            assert(old_model + (seq![m] + rest) =~= old_model.push(m) + rest);
                        },
                        None => {},
                    }
                }
            },
            None => {
                return None;
            },
        }
    }
}

} // verus!
