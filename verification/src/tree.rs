//! The sections of a parsed format string, and their modifiers.
//!
//! Text is held as slices of `char`s of the format string.
use vstd::prelude::*;

verus! {

/// The characters of `Content`, the name of the modifier that holds the
/// text of a section.
pub open spec fn content_name() -> Seq<char> {
    seq!['C', 'o', 'n', 't', 'e', 'n', 't']
}

/// The name `Content`.
pub fn content_name_chars() -> (r: &'static [char])
    ensures
        r@ == content_name(),
{
    let name: &'static [char; 7] = &['C', 'o', 'n', 't', 'e', 'n', 't'];
    let r: &'static [char] = name.as_slice();
    assert(r@ =~= content_name());
    r
}

/// Where to pull a tracked value from.
#[derive(Debug, PartialEq, Clone, Copy)]
pub enum Query<'a> {
    /// A resource.
    Res(&'a [char]),
    /// The first entity found with this component.
    One(&'a [char]),
    /// The first entity found with the name `name`, accessing the component
    /// `access`.
    Name { name: &'a [char], access: &'a [char] },
    /// The first entity found with the component `marker`, accessing the
    /// component `access`.
    Marked { marker: &'a [char], access: &'a [char] },
}

/// A tracked value: where it is pulled from, the path to it, and the full
/// name of its binding.
#[derive(Debug, PartialEq, Clone, Copy)]
pub struct Source<'a> {
    pub query: Query<'a>,
    pub reflect_path: &'a [char],
    pub binding: &'a [char],
}

/// What a binding reads: a plain binding by name, or a tracked value.
#[derive(Debug, PartialEq, Clone, Copy)]
pub enum Path<'a> {
    Binding(&'a [char]),
    Source(Source<'a>),
}

/// How the value of a binding is formatted: by a formatter named by the
/// user, or by a format specification, held as its text.
#[derive(Debug, PartialEq, Clone, Copy)]
pub enum Format<'a> {
    UserDefined(&'a [char]),
    Fmt(&'a [char]),
}

/// A binding of a modifier value: what it reads and how it is formatted.
#[derive(Debug, PartialEq, Clone, Copy)]
pub struct Binding<'a> {
    pub path: Path<'a>,
    pub format: Option<Format<'a>>,
}

/// A [`Query`] with its text as characters.
pub enum QueryView {
    Res(Seq<char>),
    One(Seq<char>),
    Name(Seq<char>, Seq<char>),
    Marked(Seq<char>, Seq<char>),
}

/// A [`Path`] with its text as characters: the binding name, and, for a
/// tracked value, its query and path.
pub enum PathView {
    Binding(Seq<char>),
    Source(QueryView, Seq<char>, Seq<char>),
}

/// A [`Format`] with its text as characters.
pub enum FormatView {
    UserDefined(Seq<char>),
    Fmt(Seq<char>),
}

/// A [`Binding`] with its text as characters.
pub struct BindingView {
    pub path: PathView,
    pub format: Option<FormatView>,
}

impl<'a> View for Binding<'a> {
    type V = BindingView;

    open spec fn view(&self) -> BindingView {
        BindingView {
            path: match self.path {
                Path::Binding(b) => PathView::Binding(b@),
                Path::Source(s) => PathView::Source(
                    match s.query {
                        Query::Res(r) => QueryView::Res(r@),
                        Query::One(c) => QueryView::One(c@),
                        Query::Name { name, access } => QueryView::Name(name@, access@),
                        Query::Marked { marker, access } => QueryView::Marked(marker@, access@),
                    },
                    s.reflect_path@,
                    s.binding@,
                ),
            },
            format: match self.format {
                None => None,
                Some(Format::UserDefined(u)) => Some(FormatView::UserDefined(u@)),
                Some(Format::Fmt(f)) => Some(FormatView::Fmt(f@)),
            },
        }
    }
}

impl<'a> Path<'a> {
    /// The name of the binding: the full name of a tracked value.
    pub open spec fn binding_spec(self) -> &'a [char] {
        match self {
            Path::Binding(b) => b,
            Path::Source(s) => s.binding,
        }
    }

    /// The name of the binding: the full name of a tracked value.
    pub fn binding(&self) -> (r: &'a [char])
        ensures
            r == self.binding_spec(),
    {
        match self {
            Path::Binding(b) => b,
            Path::Source(s) => s.binding,
        }
    }
}

impl<'a> Binding<'a> {
    /// A binding of name `name`, plainly formatted.
    pub fn named(name: &'a [char]) -> (r: Self)
        ensures
            r == (Binding { path: Path::Binding(name), format: None }),
    {
        Binding { path: Path::Binding(name), format: None }
    }
}

/// The value of a modifier.
#[derive(Debug, PartialEq, Clone, Copy)]
pub enum Dyn<'a> {
    /// Bound to a binding, as written in the format string.
    Dynamic(Binding<'a>),
    /// A value given in the format string.
    Static(&'a [char]),
}

/// A modifier of a section, which applies to `subsection_count` sections from
/// its own.
#[derive(Debug, PartialEq, Clone, Copy)]
pub struct Modifier<'a> {
    pub name: &'a [char],
    pub value: Dyn<'a>,
    pub subsection_count: usize,
}

/// A section of a format string: its modifiers, its text being the value of
/// its `Content` modifier.
#[derive(Debug, PartialEq, Clone)]
pub struct Section<'a> {
    pub modifiers: Vec<Modifier<'a>>,
}

/// `m` is named `Content`.
pub open spec fn is_content_spec(m: Modifier) -> bool {
    m.name@ == content_name()
}

/// Whether `m` is named `Content`.
pub fn is_content(m: &Modifier) -> (r: bool)
    ensures
        r == is_content_spec(*m),
{
    let name = content_name_chars();
    if m.name.len() != name.len() {
        return false;
    }
    let mut i: usize = 0;
    while i < name.len()
        invariant
            name@ == content_name(),
            m.name@.len() == name@.len(),
            i <= name@.len(),
            forall|k: int| 0 <= k < i ==> m.name@[k] == name@[k],
        decreases name@.len() - i,
    {
        if m.name[i] != name[i] {
            return false;
        }
        i = i + 1;
    }
    assert(m.name@ =~= content_name());
    true
}

/// The text `m` holds, when it is a `Content` modifier with a static value.
pub open spec fn content_spec<'a>(m: Modifier<'a>) -> Option<&'a [char]> {
    match m.value {
        Dyn::Static(value) => if is_content_spec(m) {
            Some(value)
        } else {
            None
        },
        _ => None,
    }
}

/// The text `m` holds, when it is a `Content` modifier with a static value.
pub fn get_content<'a>(m: &Modifier<'a>) -> (r: Option<&'a [char]>)
    ensures
        r == content_spec(*m),
{
    match m.value {
        Dyn::Static(value) => if is_content(m) {
            Some(value)
        } else {
            None
        },
        _ => None,
    }
}

impl<'a> Modifier<'a> {
    /// The modifier `name: value`, applying to its own section.
    pub fn new(name: &'a [char], value: Dyn<'a>) -> (r: Self)
        ensures
            r == (Modifier { name, value, subsection_count: 1 }),
    {
        Modifier { name, value, subsection_count: 1 }
    }
}

impl<'a> Section<'a> {
    /// A section of text `input` alone, `None` when `input` is empty.
    pub fn free(input: &'a [char]) -> (r: Option<Self>)
        ensures
            input@.len() == 0 ==> r is None,
            input@.len() > 0 ==> (r matches Some(s) && s.modifiers@.len() == 1
                && s.modifiers@[0].name@ == content_name() && s.modifiers@[0].value == Dyn::Static(
                input,
            ) && s.modifiers@[0].subsection_count == 1),
    {
        if input.len() == 0 {
            return None;
        }
        let modifier = Modifier::new(content_name_chars(), Dyn::Static(input));
        Some(Section { modifiers: vec![modifier] })
    }

    /// A section whose text is bound to `input`.
    pub fn format(input: Binding<'a>) -> (r: Vec<Self>)
        ensures
            r@.len() == 1,
            r@[0].modifiers@.len() == 1,
            r@[0].modifiers@[0].name@ == content_name(),
            r@[0].modifiers@[0].value == Dyn::Dynamic(input),
            r@[0].modifiers@[0].subsection_count == 1,
    {
        let modifier = Modifier::new(content_name_chars(), Dyn::Dynamic(input));
        vec![Section { modifiers: vec![modifier] }]
    }
}

/// The sections of a parsed format string.
pub struct Tree<'a> {
    pub sections: Vec<Section<'a>>,
}

/// Some modifier of `mods` is named `Content`.
pub open spec fn has_content(mods: Seq<Modifier>) -> bool {
    exists|k: int| 0 <= k < mods.len() && is_content_spec(#[trigger] mods[k])
}

/// The sections of a section with `modifiers` and the subsections
/// `content`: the subsections, or, without them, one section when a modifier
/// is the content, none otherwise; the first of them gets the `modifiers`,
/// each applying to all the sections.
pub fn flatten_section<'a>(modifiers: Vec<Modifier<'a>>, content: Option<Vec<Section<'a>>>) -> (r: Vec<
    Section<'a>,
>)
    ensures
        ({
            let base: Seq<Section<'a>> = match content {
                Some(sections) => sections@,
                None => Seq::empty(),
            };
            let n = if content is Some {
                base.len()
            } else if has_content(modifiers@) {
                1
            } else {
                0
            };
            &&& r@.len() == n
            &&& content is Some ==> forall|k: int| 1 <= k < n ==> #[trigger] r@[k] == base[k]
            &&& n > 0 ==> r@[0].modifiers@ == (if content is Some {
                base[0].modifiers@
            } else {
                Seq::empty()
            }) + modifiers@.map_values(|m: Modifier<'a>| Modifier { subsection_count: n as usize, ..m })
        }),
{
    let ghost mods = modifiers@;
    let mut sections = match content {
        Some(sections) => sections,
        None => {
            let mut any = false;
            let mut k: usize = 0;
            while k < modifiers.len()
                invariant
                    k <= modifiers@.len(),
                    any == exists|j: int| 0 <= j < k && is_content_spec(#[trigger] modifiers@[j]),
                decreases modifiers@.len() - k,
            {
                if is_content(&modifiers[k]) {
                    any = true;
                }
                k = k + 1;
            }
            if !any {
                return Vec::new();
            }
            vec![Section { modifiers: Vec::with_capacity(modifiers.len()) }]
        },
    };
    let subsection_count = sections.len();
    if sections.len() > 0 {
        let ghost before = sections@;
        let mut first = sections.remove(0);
        let ghost first_mods = first.modifiers@;
        let mut k: usize = 0;
        while k < modifiers.len()
            invariant
                k <= mods.len(),
                mods == modifiers@,
                first.modifiers@ == first_mods + mods.take(k as int).map_values(
                    |m: Modifier<'a>| Modifier { subsection_count, ..m },
                ),
            decreases mods.len() - k,
        {
            let m = modifiers[k];
            first.modifiers.push(Modifier { subsection_count, ..m });
            proof {
                assert(mods.take(k + 1) =~= mods.take(k as int).push(m));
                assert(first.modifiers@ =~= first_mods + mods.take(k + 1).map_values(
                    |m: Modifier<'a>| Modifier { subsection_count, ..m },
                ));
            }
            k = k + 1;
        }
        proof {
            assert(mods.take(mods.len() as int) =~= mods);
        }
        sections.insert(0, first);
        proof {
            assert forall|k: int| 1 <= k < sections@.len() implies #[trigger] sections@[k] == before[k] by {
            }
        }
    }
    sections
}

/// `head`, if there is one, before the sections `tail`.
pub fn full_subsection<'a>(head: Option<Section<'a>>, tail: Vec<Section<'a>>) -> (r: Vec<Section<'a>>)
    ensures
        r@ == match head {
            Some(h) => seq![h] + tail@,
            None => tail@,
        },
{
    let mut tail = tail;
    if let Some(head) = head {
        let ghost t = tail@;
        tail.insert(0, head);
        assert(tail@ =~= seq![head] + t);
    }
    tail
}

} // verus!
