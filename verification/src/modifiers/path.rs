//! The field paths of `modify` attributes (`.field.0["key"][3]`), read from
//! their tokens.
use vstd::prelude::*;

verus! {

/// What a bracket group of a path holds.
#[derive(Clone, PartialEq, Eq, Debug)]
pub enum BracketContent {
    /// An integer literal, by its base 10 digits.
    Int(String),
    /// A string literal, by its value.
    Str(String),
    /// Anything else.
    Other,
}

/// A token of a field path.
#[derive(Clone, PartialEq, Eq, Debug)]
pub enum PathToken {
    /// `.`
    Dot,
    /// An identifier.
    Ident(String),
    /// An unsuffixed integer literal that fits a `u32`.
    Index(u32),
    /// A bracket group `[..]`.
    Bracket(BracketContent),
    /// Any other token.
    Other,
}

/// One access of a field path.
#[derive(Clone, PartialEq, Eq, Debug)]
pub enum Component {
    /// `.field`
    Field(String),
    /// `.0`
    TupleField(u32),
    /// `["key"]`
    StringIndex(String),
    /// `[3]`, by its base 10 digits.
    IntIndex(String),
}

/// Why the tokens of a path are not one.
#[derive(Clone, Copy, PartialEq, Eq, Structural, Debug)]
pub enum PathError {
    /// The token at this position follows a `.` and is neither an identifier
    /// nor an index.
    NotAnIndex(usize),
    /// The bracket group at this position holds neither an integer nor a
    /// string literal.
    InvalidSpecifier(usize),
    /// There is no component.
    Empty,
    /// The token at this position starts no component and follows the last
    /// one.
    Unexpected(usize),
}

/// The components read from `tokens` from position `i` on, and where the
/// reading stops: at the end or at the first token that starts no
/// component; or the error met first.
pub open spec fn components_from(tokens: Seq<PathToken>, i: int) -> Result<(Seq<Component>, int), PathError>
    decreases tokens.len() - i,
{
    if i < 0 || i >= tokens.len() {
        Ok((Seq::empty(), i))
    } else {
        match tokens[i] {
            PathToken::Dot => {
                if i + 1 < tokens.len() && tokens[i + 1] is Ident {
                    prepend(Component::Field(tokens[i + 1]->Ident_0), components_from(tokens, i + 2))
                } else if i + 1 < tokens.len() && tokens[i + 1] is Index {
                    prepend(Component::TupleField(tokens[i + 1]->Index_0), components_from(tokens, i + 2))
                } else {
                    Err(PathError::NotAnIndex((i + 1) as usize))
                }
            },
            PathToken::Bracket(BracketContent::Int(d)) => prepend(
                Component::IntIndex(d),
                components_from(tokens, i + 1),
            ),
            PathToken::Bracket(BracketContent::Str(s)) => prepend(
                Component::StringIndex(s),
                components_from(tokens, i + 1),
            ),
            PathToken::Bracket(BracketContent::Other) => Err(PathError::InvalidSpecifier(i as usize)),
            _ => Ok((Seq::empty(), i)),
        }
    }
}

/// `c` put before the components of `r`.
pub open spec fn prepend(c: Component, r: Result<(Seq<Component>, int), PathError>) -> Result<
    (Seq<Component>, int),
    PathError,
> {
    match r {
        Ok((cs, stop)) => Ok((seq![c] + cs, stop)),
        Err(e) => Err(e),
    }
}

/// What reading the path `tokens` gives: its components when the tokens are
/// a non-empty sequence of `.ident`, `.index`, `[int]` and `["str"]`, else
/// the first error.
pub open spec fn path_components(tokens: Seq<PathToken>) -> Result<Seq<Component>, PathError> {
    match components_from(tokens, 0) {
        Err(e) => Err(e),
        Ok((cs, stop)) => if cs.len() == 0 {
            Err(PathError::Empty)
        } else if stop < tokens.len() {
            Err(PathError::Unexpected(stop as usize))
        } else {
            Ok(cs)
        },
    }
}

/// `out` put before the components of `r`.
pub open spec fn after(out: Seq<Component>, r: Result<(Seq<Component>, int), PathError>) -> Result<
    (Seq<Component>, int),
    PathError,
> {
    match r {
        Ok((cs, stop)) => Ok((out + cs, stop)),
        Err(e) => Err(e),
    }
}

proof fn lemma_after_prepend(out: Seq<Component>, c: Component, r: Result<(Seq<Component>, int), PathError>)
    ensures
        after(out, prepend(c, r)) == after(out.push(c), r),
{
    if let Ok((cs, stop)) = r {
        assert(out + (seq![c] + cs) =~= out.push(c) + cs);
    }
}

/// Reads the components of a field path from its tokens (see
/// [`path_components`]).
pub fn parse_components(tokens: &[PathToken]) -> (r: Result<Vec<Component>, PathError>)
    ensures
        match r {
            Ok(c) => path_components(tokens@) == Ok::<Seq<Component>, PathError>(c@),
            Err(e) => path_components(tokens@) == Err::<Seq<Component>, PathError>(e),
        },
{
    let mut out: Vec<Component> = Vec::new();
    let mut i: usize = 0;
    proof {
        assert(after(out@, components_from(tokens@, 0)) == components_from(tokens@, 0)) by {
            if let Ok((cs, stop)) = components_from(tokens@, 0) {
                assert(Seq::<Component>::empty() + cs =~= cs);
            }
        }
    }
    loop
        invariant
            i <= tokens@.len(),
            components_from(tokens@, 0) == after(out@, components_from(tokens@, i as int)),
        ensures
            i <= tokens@.len(),
            components_from(tokens@, 0) == after(out@, components_from(tokens@, i as int)),
            components_from(tokens@, i as int) == Ok::<(Seq<Component>, int), PathError>((Seq::empty(), i as int)),
        decreases tokens@.len() - i,
    {
        if i >= tokens.len() {
            break;
        }
        let ghost before = out@;
        match &tokens[i] {
            PathToken::Dot => {
                if i + 1 < tokens.len() {
                    match &tokens[i + 1] {
                        PathToken::Ident(x) => {
                            out.push(Component::Field(x.clone()));
                        },
                        PathToken::Index(n) => {
                            out.push(Component::TupleField(*n));
                        },
                        _ => {
                            return Err(PathError::NotAnIndex(i + 1));
                        },
                    }
                    proof {
                        lemma_after_prepend(before, out@.last(), components_from(tokens@, i + 2));
                        assert(before.push(out@.last()) =~= out@);
                    }
                    i = i + 2;
                } else {
                    return Err(PathError::NotAnIndex(i + 1));
                }
            },
            PathToken::Bracket(BracketContent::Int(d)) => {
                out.push(Component::IntIndex(d.clone()));
                proof {
                    lemma_after_prepend(before, out@.last(), components_from(tokens@, i + 1));
                    assert(before.push(out@.last()) =~= out@);
                }
                i = i + 1;
            },
            PathToken::Bracket(BracketContent::Str(s)) => {
                out.push(Component::StringIndex(s.clone()));
                proof {
                    lemma_after_prepend(before, out@.last(), components_from(tokens@, i + 1));
                    assert(before.push(out@.last()) =~= out@);
                }
                i = i + 1;
            },
            PathToken::Bracket(BracketContent::Other) => {
                return Err(PathError::InvalidSpecifier(i));
            },
            _ => {
                break;
            },
        }
    }
    assert(components_from(tokens@, 0) == Ok::<(Seq<Component>, int), PathError>((out@, i as int))) by {
        assert(out@ + Seq::<Component>::empty() =~= out@);
    }
    if out.len() == 0 {
        return Err(PathError::Empty);
    }
    if i < tokens.len() {
        return Err(PathError::Unexpected(i));
    }
    Ok(out)
}

} // verus!
