//! Manipulating the text of parsed sections: splitting it into pieces and
//! removing escaping backslashes.
use vstd::prelude::*;
use vstd::slice::slice_subrange;

pub mod finish;
pub mod styleable;

verus! {

/// Whether `c` has the Unicode `White_Space` property: the controls from
/// tab to carriage return, space, next line, no-break space, ogham space
/// mark, the spaces from en quad to hair space, the line and paragraph
/// separators, narrow no-break space, medium mathematical space and
/// ideographic space.
pub open spec fn whitespace(c: char) -> bool {
    let n = c as u32;
    ||| 0x9 <= n <= 0xD
    ||| n == 0x20
    ||| n == 0x85
    ||| n == 0xA0
    ||| n == 0x1680
    ||| 0x2000 <= n <= 0x200A
    ||| n == 0x2028
    ||| n == 0x2029
    ||| n == 0x202F
    ||| n == 0x205F
    ||| n == 0x3000
}

/// Whether `c` has the Unicode `White_Space` property (see [`whitespace`]),
/// as `char::is_whitespace` tells.
fn is_whitespace(c: char) -> (r: bool)
    ensures
        r == whitespace(c),
{
    let n = c as u32;
    (0x9 <= n && n <= 0xD) || n == 0x20 || n == 0x85 || n == 0xA0 || n == 0x1680 || (0x2000 <= n && n
        <= 0x200A) || n == 0x2028 || n == 0x2029 || n == 0x202F || n == 0x205F || n == 0x3000
}

/// How to split the text of a section.
#[derive(Clone, Copy, PartialEq, Eq, Structural, PartialOrd, Ord, Debug)]
pub enum Split {
    /// Split the section by word.
    ByWord,
    /// Split the section by character.
    ByChar,
    /// Split section by line.
    ///
    /// Resulting sections will always have '\n' at the end or beginning.
    ByLine,
}

/// A piece cut by `split` ends after `c`.
pub open spec fn ends_piece(split: Split, c: char) -> bool {
    match split {
        Split::ByChar => true,
        Split::ByWord => whitespace(c),
        Split::ByLine => c == '\n',
    }
}

/// `pieces` are the pieces of `s` cut by `split`, each keeping the character
/// that ends it: concatenated they give back `s`, none is empty, none holds
/// an ending character but as its last one, and every one but the last ends
/// with one.
pub open spec fn is_split(split: Split, s: Seq<char>, pieces: Seq<Seq<char>>) -> bool {
    &&& pieces.flatten() == s
    &&& forall|p: int| 0 <= p < pieces.len() ==> #[trigger] pieces[p].len() > 0
    &&& forall|p: int, j: int|
        0 <= p < pieces.len() && 0 <= j < pieces[p].len() - 1 ==> !ends_piece(
            split,
            #[trigger] pieces[p][j],
        )
    &&& forall|p: int|
        0 <= p < pieces.len() - 1 ==> ends_piece(split, #[trigger] pieces[p].last())
}

impl Split {
    /// Whether a piece ends after `c`.
    fn ends_with(self, c: char) -> (r: bool)
        ensures
            r == ends_piece(self, c),
    {
        match self {
            Split::ByChar => true,
            Split::ByWord => is_whitespace(c),
            Split::ByLine => c == '\n',
        }
    }

    /// The pieces of `to_split`, each ending with the character that ends it
    /// (as `str::split_inclusive` cuts); none for an empty text.
    pub fn iter<'a>(self, to_split: &'a [char]) -> (r: Vec<&'a [char]>)
        ensures
            is_split(self, to_split@, r@.map_values(|p: &'a [char]| p@)),
    {
        let ghost s = to_split@;
        let mut out: Vec<&'a [char]> = Vec::new();
        let mut start: usize = 0;
        let mut i: usize = 0;
        proof {
            assert(out@.map_values(|p: &'a [char]| p@).flatten() =~= s.take(0)) by {
                reveal_with_fuel(Seq::flatten, 1);
            }
        }
        while i < to_split.len()
            invariant
                s == to_split@,
                start <= i <= s.len(),
                out@.map_values(|p: &'a [char]| p@).flatten() == s.take(start as int),
                forall|j: int| start <= j < i ==> !ends_piece(self, #[trigger] s[j]),
                forall|p: int|
                    0 <= p < out@.len() ==> #[trigger] out@[p]@.len() > 0 && ends_piece(
                        self,
                        out@[p]@.last(),
                    ) && forall|j: int|
                        0 <= j < out@[p]@.len() - 1 ==> !ends_piece(self, #[trigger] out@[p]@[j]),
            decreases s.len() - i,
        {
            if self.ends_with(to_split[i]) {
                let piece = slice_subrange(to_split, start, i + 1);
                let ghost before = out@.map_values(|p: &'a [char]| p@);
                out.push(piece);
                proof {
                    before.lemma_flatten_push(piece@);
                    assert(out@.map_values(|p: &'a [char]| p@) =~= before.push(piece@));
                    assert(s.take(start as int) + piece@ =~= s.take(i + 1));
                }
                start = i + 1;
            }
            i = i + 1;
        }
        if start < to_split.len() {
            let piece = slice_subrange(to_split, start, to_split.len());
            let ghost before = out@.map_values(|p: &'a [char]| p@);
            out.push(piece);
            proof {
                before.lemma_flatten_push(piece@);
                assert(out@.map_values(|p: &'a [char]| p@) =~= before.push(piece@));
                assert(s.take(start as int) + piece@ =~= s);
            }
        } else {
            assert(s.take(start as int) =~= s);
        }
        out
    }

    /// The first piece of `to_split` and the other pieces (see
    /// [`Split::iter`]); `to_split` is not empty, so there is a first one.
    pub fn first<'a>(self, to_split: &'a [char]) -> (r: (&'a [char], Vec<&'a [char]>))
        requires
            to_split@.len() > 0,
        ensures
            is_split(self, to_split@, seq![r.0@] + r.1@.map_values(|p: &'a [char]| p@)),
    {
        let mut pieces = self.iter(to_split);
        let ghost all = pieces@.map_values(|p: &'a [char]| p@);
        if pieces.len() == 0 {
            proof {
                reveal_with_fuel(Seq::flatten, 1);
                assert(all.flatten().len() == 0);
            }
        }
        let head = pieces.remove(0);
        proof {
            assert(seq![head@] + pieces@.map_values(|p: &'a [char]| p@) =~= all);
        }
        (head, pieces)
    }
}

/// The text `s` once unescaped: a backslash is removed and the character
/// after it kept as it is (a lone backslash at the end is removed).
pub open spec fn unescaped(s: Seq<char>) -> Seq<char>
    decreases s.len(),
{
    if s.len() == 0 {
        Seq::empty()
    } else if s[0] == '\\' {
        if s.len() >= 2 {
            seq![s[1]] + unescaped(s.subrange(2, s.len() as int))
        } else {
            Seq::empty()
        }
    } else {
        seq![s[0]] + unescaped(s.subrange(1, s.len() as int))
    }
}

/// Removes the escaping backslashes of `input`: `\\` becomes `\` and `\x`
/// becomes `x`.
pub fn escape_backslashes(input: &[char]) -> (r: Vec<char>)
    ensures
        r@ == unescaped(input@),
{
    let ghost s = input@;
    let mut out: Vec<char> = Vec::new();
    let mut prev_normal = true;
    let mut i: usize = 0;
    assert(s.subrange(0, s.len() as int) =~= s);
    assert(out@ + unescaped(s) =~= unescaped(s));
    while i < input.len()
        invariant
            s == input@,
            i <= s.len(),
            // `prev_normal` is false right after an escaping backslash.
            prev_normal ==> out@ + unescaped(s.subrange(i as int, s.len() as int)) == unescaped(s),
            !prev_normal ==> i > 0 && s[i - 1] == '\\' && out@ + unescaped(
                s.subrange(i - 1, s.len() as int),
            ) == unescaped(s),
        decreases s.len() - i,
    {
        let c = input[i];
        let backslash = c == '\\';
        let remove = prev_normal && backslash;
        let normal = !remove;
        proof {
            let rest = s.subrange(i as int, s.len() as int);
            assert(rest[0] == c);
            if prev_normal {
                if !backslash {
                    assert(rest.subrange(1, rest.len() as int) =~= s.subrange(i + 1, s.len() as int));
                    assert(out@.push(c) + unescaped(s.subrange(i + 1, s.len() as int)) =~= out@
                        + unescaped(rest));
                }
            } else {
                let prev = s.subrange(i - 1, s.len() as int);
                assert(prev[0] == '\\' && prev[1] == c);
                assert(prev.subrange(2, prev.len() as int) =~= s.subrange(i + 1, s.len() as int));
                assert(out@.push(c) + unescaped(s.subrange(i + 1, s.len() as int)) =~= out@
                    + unescaped(prev));
            }
        }
        if normal {
            out.push(c);
        }
        prev_normal = normal || !backslash;
        i = i + 1;
    }
    proof {
        if !prev_normal {
            let prev = s.subrange(i - 1, s.len() as int);
            assert(prev.len() == 1);
            assert(unescaped(prev) =~= Seq::<char>::empty());
            assert(out@ + Seq::<char>::empty() =~= out@);
        } else {
            assert(unescaped(s.subrange(i as int, s.len() as int)) =~= Seq::<char>::empty());
            assert(out@ + Seq::<char>::empty() =~= out@);
        }
    }
    out
}

} // verus!
