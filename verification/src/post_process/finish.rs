//! Turning styled sections into the modifiers of a resolver: each modifier
//! gets the range of sections it applies to, and either its parsed value or
//! the binding it is bound to; a binding to a tracked value also gives a
//! hook that watches it.
use vstd::prelude::*;

use crate::binding::world::{is_id_of, World};
use crate::binding::Id;
use crate::post_process::styleable::{Modifier, Section, Styleable};
use crate::post_process::{escape_backslashes, unescaped};
use crate::resolve::MakeModify;
use crate::tree::{self, Dyn};

verus! {

/// Why a modifier of the sections could not be made.
#[derive(Debug, PartialEq, Eq, Clone)]
pub enum FinishError<E> {
    /// A modifier bound to a binding has a name that names no modifier.
    NotAModifier,
    /// The value of a modifier could not be parsed.
    Parse(E),
}

/// How the value a hook watches is formatted: by the formatter of the user
/// whose name has this id, or by a format specification.
#[derive(Debug, PartialEq, Clone, Copy)]
pub enum HookFormat<'a> {
    UserDefined(Id),
    Fmt(&'a [char]),
}

/// A tracked value to watch, and how to format it.
#[derive(Debug, PartialEq, Clone, Copy)]
pub struct Hook<'a> {
    pub source: tree::Source<'a>,
    pub format: Option<HookFormat<'a>>,
}

/// The names interned for the binding `b`: its name, then, for a tracked
/// value formatted by a user formatter, the formatter's name.
pub open spec fn binding_names<'a>(b: tree::Binding<'a>) -> Seq<Seq<char>> {
    seq![b.path.binding_spec()@] + match (b.path, b.format) {
        (tree::Path::Source(_), Some(tree::Format::UserDefined(u))) => seq![u@],
        _ => Seq::empty(),
    }
}

/// `hook` watches the tracked value of `b`, formatted as `b` says, the
/// formatter of the user by the id of its name in `names`.
pub open spec fn hook_made<'a>(b: tree::Binding<'a>, hook: Hook<'a>, names: Seq<Seq<char>>) -> bool {
    &&& b.path matches tree::Path::Source(src) && hook.source == src
    &&& match b.format {
        None => hook.format is None,
        Some(tree::Format::UserDefined(u)) => hook.format matches Some(HookFormat::UserDefined(id))
            && is_id_of(names, u@, id),
        Some(tree::Format::Fmt(f)) => hook.format == Some(HookFormat::Fmt(f)),
    }
}

/// The bindings to tracked values of the first `k` modifiers of `mods`, in
/// order.
pub open spec fn hooks_of<'a>(mods: Seq<tree::Modifier<'a>>, k: int) -> Seq<tree::Binding<'a>>
    decreases k,
{
    if k <= 0 {
        Seq::empty()
    } else {
        hooks_of(mods, k - 1) + match mods[k - 1].value {
            Dyn::Dynamic(b) => if b.path is Source {
                seq![b]
            } else {
                Seq::empty()
            },
            Dyn::Static(_) => Seq::empty(),
        }
    }
}

/// The bindings to tracked values of the first `n` sections of `secs`, in
/// order.
pub open spec fn hook_bindings<'a, M>(secs: Seq<Section<'a, M>>, n: int) -> Seq<tree::Binding<'a>>
    decreases n,
{
    if n <= 0 {
        Seq::empty()
    } else {
        hook_bindings(secs, n - 1) + hooks_of(secs[n - 1].0.modifiers@, secs[n - 1].0.modifiers@.len() as int)
    }
}

/// A modifier to make, with the section it belongs to.
pub enum Planned<'a, M> {
    /// A modifier of the format string.
    Native(tree::Modifier<'a>),
    /// A modifier added while styling.
    Extend(Modifier<M>),
}

/// The modifiers of section `i`, its own first, then those added to it.
pub open spec fn section_plan<'a, M>(i: int, s: Section<'a, M>) -> Seq<(int, Planned<'a, M>)> {
    s.0.modifiers@.map_values(|m: tree::Modifier<'a>| (i, Planned::Native(m))) + s.1@.map_values(
        |m: Modifier<M>| (i, Planned::Extend(m)),
    )
}

/// The modifiers of the first `n` sections of `secs`, section after
/// section.
pub open spec fn plan<'a, M>(secs: Seq<Section<'a, M>>, n: int) -> Seq<(int, Planned<'a, M>)>
    decreases n,
{
    if n <= 0 {
        Seq::empty()
    } else {
        plan(secs, n - 1) + section_plan(n - 1, secs[n - 1])
    }
}

/// The binding names of the first `k` modifiers of `mods`, in order.
pub open spec fn dyn_of<'a>(mods: Seq<tree::Modifier<'a>>, k: int) -> Seq<Seq<char>>
    decreases k,
{
    if k <= 0 {
        Seq::empty()
    } else {
        dyn_of(mods, k - 1) + match mods[k - 1].value {
            Dyn::Dynamic(b) => binding_names(b),
            Dyn::Static(_) => Seq::empty(),
        }
    }
}

/// The binding names of the first `n` sections of `secs`, in order.
pub open spec fn dynamic_names<'a, M>(secs: Seq<Section<'a, M>>, n: int) -> Seq<Seq<char>>
    decreases n,
{
    if n <= 0 {
        Seq::empty()
    } else {
        dynamic_names(secs, n - 1) + dyn_of(secs[n - 1].0.modifiers@, secs[n - 1].0.modifiers@.len() as int)
    }
}

/// `names` once `name` is interned: unchanged if present, else with it
/// added at the end.
pub open spec fn intern(names: Seq<Seq<char>>, name: Seq<char>) -> Seq<Seq<char>> {
    if names.contains(name) {
        names
    } else {
        names.push(name)
    }
}

/// `names` once each of `new` is interned, in order.
pub open spec fn intern_all(names: Seq<Seq<char>>, new: Seq<Seq<char>>) -> Seq<Seq<char>>
    decreases new.len(),
{
    if new.len() == 0 {
        names
    } else {
        intern(intern_all(names, new.drop_last()), new.last())
    }
}

/// `parse` can return `r` for the name `name` and the value `value`.
pub open spec fn parsed_by<M, E, P: FnMut(&[char], &[char]) -> Result<M, E>>(
    parse: P,
    name: Seq<char>,
    value: Seq<char>,
    r: Result<M, E>,
) -> bool {
    exists|n: &[char], v: &[char]| n@ == name && v@ == value && #[trigger] call_ensures(parse, (n, v), r)
}

/// `deps` can return `r` for the name `name`.
pub open spec fn deps_by<D: Fn(&[char]) -> Option<(u64, u64)>>(
    deps: D,
    name: Seq<char>,
    r: Option<(u64, u64)>,
) -> bool {
    exists|n: &[char]| n@ == name && #[trigger] call_ensures(deps, (n,), r)
}

/// `result` is what making the modifier `entry` can give, with the binding
/// names `names`: its range is from its section over as many sections as it
/// spans (`as u32`); a modifier added while styling keeps its value; a static
/// value is parsed once unescaped; a modifier bound to a binding gets the id
/// of the binding's name and the fields `deps` gives for its name, an error
/// when `deps` gives none.
pub open spec fn made<'a, M, E, P, D, F>(
    entry: (int, Planned<'a, M>),
    result: Result<(MakeModify, Option<M>), FinishError<E>>,
    parse: P,
    deps: D,
    fields: F,
    names: Seq<Seq<char>>,
) -> bool where
    P: FnMut(&[char], &[char]) -> Result<M, E>,
    D: Fn(&[char]) -> Option<(u64, u64)>,
    F: Fn(&M) -> (u64, u64),
 {
    let i = entry.0;
    match entry.1 {
        Planned::Extend(m) => {
            &&& result matches Ok((mm, Some(v)))
            &&& v == m.inner
            &&& mm.range.start == i as u32
            &&& mm.range.end == (i + m.influence) as u32
            &&& mm.binding is None
            &&& call_ensures(fields, (&m.inner,), (mm.depends, mm.changes))
        },
        Planned::Native(m) => match m.value {
            Dyn::Static(value) => exists|p: Result<M, E>|
                parsed_by(parse, m.name@, unescaped(value@), p) && match p {
                    Err(e) => result == Err::<(MakeModify, Option<M>), FinishError<E>>(FinishError::Parse(e)),
                    Ok(v) => {
                        &&& result matches Ok((mm, Some(x)))
                        &&& x == v
                        &&& mm.range.start == i as u32
                        &&& mm.range.end == (i + m.subsection_count) as u32
                        &&& mm.binding is None
                        &&& call_ensures(fields, (&v,), (mm.depends, mm.changes))
                    },
                },
            Dyn::Dynamic(binding) => exists|d: Option<(u64, u64)>|
                deps_by(deps, m.name@, d) && match d {
                    None => result == Err::<(MakeModify, Option<M>), FinishError<E>>(FinishError::NotAModifier),
                    Some((dep, ch)) => {
                        &&& result matches Ok((mm, None))
                        &&& mm.range.start == i as u32
                        &&& mm.range.end == (i + m.subsection_count) as u32
                        &&& mm.depends == dep
                        &&& mm.changes == ch
                        &&& mm.binding matches Some(id) && is_id_of(names, binding.path.binding_spec()@, id)
                    },
                },
        },
    }
}

/// Every modifier of `secs` ends within `usize`.
pub open spec fn ranges_fit<'a, M>(secs: Seq<Section<'a, M>>) -> bool {
    &&& forall|i: int, k: int|
        0 <= i < secs.len() && 0 <= k < secs[i].0.modifiers@.len() ==> i + (
        #[trigger] secs[i].0.modifiers@[k]).subsection_count <= usize::MAX
    &&& forall|i: int, k: int|
        0 <= i < secs.len() && 0 <= k < secs[i].1@.len() ==> i + (#[trigger] secs[i].1@[k]).influence
            <= usize::MAX
}

proof fn lemma_intern_all_grows(names: Seq<Seq<char>>, new: Seq<Seq<char>>)
    ensures
        intern_all(names, new).len() >= names.len(),
        forall|k: int| 0 <= k < names.len() ==> #[trigger] intern_all(names, new)[k] == names[k],
    decreases new.len(),
{
    if new.len() > 0 {
        lemma_intern_all_grows(names, new.drop_last());
    }
}

proof fn lemma_intern_all_add(names: Seq<Seq<char>>, a: Seq<Seq<char>>, b: Seq<Seq<char>>)
    ensures
        intern_all(intern_all(names, a), b) == intern_all(names, a + b),
    decreases b.len(),
{
    if b.len() > 0 {
        lemma_intern_all_add(names, a, b.drop_last());
        assert((a + b).drop_last() =~= a + b.drop_last());
    } else {
        assert(a + b =~= a);
    }
}

/// A name keeps its id as more names are interned.
proof fn lemma_id_kept(names: Seq<Seq<char>>, more: Seq<Seq<char>>, name: Seq<char>, id: Id)
    requires
        is_id_of(names, name, id),
    ensures
        is_id_of(intern_all(names, more), name, id),
{
    lemma_intern_all_grows(names, more);
    assert(intern_all(names, more)[id.value() - 1] == names[id.value() - 1]);
}

proof fn lemma_names_grow<'a, M>(names: Seq<Seq<char>>, secs: Seq<Section<'a, M>>, m: int, n: int)
    requires
        0 <= m <= n,
    ensures
        intern_all(names, dynamic_names(secs, m)).len() <= intern_all(names, dynamic_names(secs, n)).len(),
    decreases n - m,
{
    if m < n {
        lemma_names_grow(names, secs, m, n - 1);
        let d = dyn_of(secs[n - 1].0.modifiers@, secs[n - 1].0.modifiers@.len() as int);
        lemma_intern_all_add(names, dynamic_names(secs, n - 1), d);
        lemma_intern_all_grows(intern_all(names, dynamic_names(secs, n - 1)), d);
    }
}

proof fn lemma_dyn_prefix<'a>(base: Seq<Seq<char>>, mods: Seq<tree::Modifier<'a>>, k: int, m: int)
    requires
        0 <= k <= m,
    ensures
        intern_all(base, dyn_of(mods, k)).len() <= intern_all(base, dyn_of(mods, m)).len(),
    decreases m - k,
{
    if k < m {
        lemma_dyn_prefix(base, mods, k, m - 1);
        let d = match mods[m - 1].value {
            Dyn::Dynamic(b) => binding_names(b),
            Dyn::Static(_) => Seq::<Seq<char>>::empty(),
        };
        lemma_intern_all_add(base, dyn_of(mods, m - 1), d);
        lemma_intern_all_grows(intern_all(base, dyn_of(mods, m - 1)), d);
    }
}

/// What is made with the binding names `names` is made the same once more
/// names are interned.
proof fn lemma_made_kept<'a, M, E, P, D, F>(
    entry: (int, Planned<'a, M>),
    result: Result<(MakeModify, Option<M>), FinishError<E>>,
    parse: P,
    deps: D,
    fields: F,
    names: Seq<Seq<char>>,
    more: Seq<Seq<char>>,
) where
    P: FnMut(&[char], &[char]) -> Result<M, E>,
    D: Fn(&[char]) -> Option<(u64, u64)>,
    F: Fn(&M) -> (u64, u64),

    requires
        made(entry, result, parse, deps, fields, names),
    ensures
        made(entry, result, parse, deps, fields, intern_all(names, more)),
{
    if let Planned::Native(m) = entry.1 {
        if let Dyn::Dynamic(binding) = m.value {
            let d = choose|d: Option<(u64, u64)>| deps_by(deps, m.name@, d) && match d {
                None => result == Err::<(MakeModify, Option<M>), FinishError<E>>(FinishError::NotAModifier),
                Some((dep, ch)) => {
                    &&& result matches Ok((mm, None))
                    &&& mm.range.start == entry.0 as u32
                    &&& mm.range.end == (entry.0 + m.subsection_count) as u32
                    &&& mm.depends == dep
                    &&& mm.changes == ch
                    &&& mm.binding matches Some(id) && is_id_of(names, binding.path.binding_spec()@, id)
                },
            };
            if let Some(_) = d {
                let id = result->Ok_0.0.binding->Some_0;
                lemma_id_kept(names, more, binding.path.binding_spec()@, id);
            }
        }
    }
}

/// A hook made with the binding names `names` is made the same once more
/// names are interned.
proof fn lemma_hook_kept<'a>(b: tree::Binding<'a>, hook: Hook<'a>, names: Seq<Seq<char>>, more: Seq<Seq<char>>)
    requires
        hook_made(b, hook, names),
    ensures
        hook_made(b, hook, intern_all(names, more)),
{
    if let Some(tree::Format::UserDefined(u)) = b.format {
        let id = hook.format->Some_0->UserDefined_0;
        lemma_id_kept(names, more, u@, id);
    }
}

/// Calls `String::from_iter` on the characters of `chars`, which the standard
/// library documents as the string of those characters, in order.
#[verifier::external_body]
fn string_from_chars(chars: &[char]) -> (r: String)
    ensures
        r@ == chars@,
{
    chars.iter().collect()
}

impl<'a, M> Styleable<'a, M> {
    /// Makes the modifiers of the sections, section after section, each
    /// section's own modifiers first (see [`made`]): `parse` parses a static
    /// value given the modifier's name, `deps` gives the fields a modifier
    /// named so reads and writes, `fields` those a modifier value reads and
    /// writes; the names of the bindings are interned in `bindings`.
    pub fn finish<E, P, D, F>(
        self,
        bindings: &mut World<M>,
        hooks: &mut Vec<Hook<'a>>,
        parse: P,
        deps: D,
        fields: F,
    ) -> (r: Vec<
        Result<(MakeModify, Option<M>), FinishError<E>>,
    >) where
        P: FnMut(&[char], &[char]) -> Result<M, E>,
        D: Fn(&[char]) -> Option<(u64, u64)>,
        F: Fn(&M) -> (u64, u64),
        requires
            old(bindings).wf(),
            forall|n: &[char], v: &[char]| call_requires(parse, (n, v)),
            forall|n: &[char]| call_requires(deps, (n,)),
            forall|m: &M| call_requires(fields, (m,)),
            ranges_fit(self.sections@),
            intern_all(
                old(bindings).names(),
                dynamic_names(self.sections@, self.sections@.len() as int),
            ).len() <= u32::MAX,
        ensures
            final(bindings).wf(),
            final(bindings).entries() == old(bindings).entries(),
            final(bindings).names() == intern_all(
                old(bindings).names(),
                dynamic_names(self.sections@, self.sections@.len() as int),
            ),
            r@.len() == plan(self.sections@, self.sections@.len() as int).len(),
            forall|k: int|
                0 <= k < r@.len() ==> made(
                    #[trigger] plan(self.sections@, self.sections@.len() as int)[k],
                    r@[k],
                    parse,
                    deps,
                    fields,
                    final(bindings).names(),
                ),
            final(hooks)@.len() == old(hooks)@.len() + hook_bindings(
                self.sections@,
                self.sections@.len() as int,
            ).len(),
            forall|j: int| 0 <= j < old(hooks)@.len() ==> #[trigger] final(hooks)@[j] == old(hooks)@[j],
            forall|j: int|
                0 <= j < hook_bindings(self.sections@, self.sections@.len() as int).len() ==> hook_made(
                    #[trigger] hook_bindings(self.sections@, self.sections@.len() as int)[j],
                    final(hooks)@[old(hooks)@.len() + j],
                    final(bindings).names(),
                ),
    {
        let ghost secs = self.sections@;
        let ghost h0 = old(hooks)@;
        let ghost n = secs.len() as int;
        let ghost names0 = bindings.names();
        let ghost target = intern_all(names0, dynamic_names(secs, n));
        let ghost parse0 = parse;
        let mut parse = parse;
        let mut rest = self.sections;
        let total = rest.len();
        assert(n == total);
        let mut out: Vec<Result<(MakeModify, Option<M>), FinishError<E>>> = Vec::new();
        let mut i: usize = 0;
        while rest.len() > 0
            invariant
                rest@ == secs.skip(i as int),
                n == secs.len(),
                n <= usize::MAX,
                i <= n,
                bindings.wf(),
                bindings.entries() == old(bindings).entries(),
                bindings.names() == intern_all(names0, dynamic_names(secs, i as int)),
                target == intern_all(names0, dynamic_names(secs, n)),
                target.len() <= u32::MAX,
                ranges_fit(secs),
                forall|x: &[char], v: &[char]| call_requires(parse, (x, v)),
                parse == parse0,
                forall|x: &[char]| call_requires(deps, (x,)),
                forall|x: &M| call_requires(fields, (x,)),
                hooks@.len() == h0.len() + hook_bindings(secs, i as int).len(),
                forall|j: int| 0 <= j < h0.len() ==> #[trigger] hooks@[j] == h0[j],
                forall|j: int|
                    0 <= j < hook_bindings(secs, i as int).len() ==> hook_made(
                        #[trigger] hook_bindings(secs, i as int)[j],
                        hooks@[h0.len() + j],
                        bindings.names(),
                    ),
                h0 == old(hooks)@,
                out@.len() == plan(secs, i as int).len(),
                forall|k: int|
                    0 <= k < out@.len() ==> made(
                        #[trigger] plan(secs, i as int)[k],
                        out@[k],
                        parse,
                        deps,
                        fields,
                        bindings.names(),
                    ),
            decreases rest@.len(),
        {
            let ghost rest_before = rest@;
            let section = rest.remove(0);
            let ghost sec = secs[i as int];
            let ghost whole = plan(secs, i as int) + section_plan(i as int, sec);
            let ghost base = intern_all(names0, dynamic_names(secs, i as int));
            let ghost start = out@.len() as int;
            proof {
                assert(rest_before[0] == sec);
                assert(rest@ =~= secs.skip(i + 1));
                assert(section == sec);
                let d = dyn_of(sec.0.modifiers@, sec.0.modifiers@.len() as int);
                assert(dynamic_names(secs, i + 1) == dynamic_names(secs, i as int) + d);
                lemma_intern_all_add(names0, dynamic_names(secs, i as int), d);
                lemma_names_grow(names0, secs, i + 1, n);
                assert(plan(secs, i + 1) == whole);
                assert(dyn_of(sec.0.modifiers@, 0) =~= Seq::<Seq<char>>::empty());
            }
            let mods = section.0.modifiers;
            let ext = section.1;
            let mut k: usize = 0;
            while k < mods.len()
                invariant
                    mods@ == sec.0.modifiers@,
                    k <= mods@.len(),
                    bindings.wf(),
                    bindings.entries() == old(bindings).entries(),
                    bindings.names() == intern_all(base, dyn_of(mods@, k as int)),
                    intern_all(base, dyn_of(mods@, mods@.len() as int)).len() <= u32::MAX,
                    ranges_fit(secs),
                    n == secs.len(),
                    0 <= i < n,
                    sec == secs[i as int],
                    forall|x: &[char], v: &[char]| call_requires(parse, (x, v)),
                parse == parse0,
                    forall|x: &[char]| call_requires(deps, (x,)),
                    forall|x: &M| call_requires(fields, (x,)),
                    whole == plan(secs, i as int) + section_plan(i as int, sec),
                    start == plan(secs, i as int).len(),
                    hooks@.len() == h0.len() + (hook_bindings(secs, i as int) + hooks_of(mods@, k as int)).len(),
                    forall|j: int| 0 <= j < h0.len() ==> #[trigger] hooks@[j] == h0[j],
                    forall|j: int|
                        0 <= j < (hook_bindings(secs, i as int) + hooks_of(mods@, k as int)).len() ==> hook_made(
                            #[trigger] (hook_bindings(secs, i as int) + hooks_of(mods@, k as int))[j],
                            hooks@[h0.len() + j],
                            bindings.names(),
                        ),
                    out@.len() == start + k,
                    forall|j: int|
                        0 <= j < out@.len() ==> made(#[trigger] whole[j], out@[j], parse, deps, fields, bindings.names()),
                decreases mods@.len() - k,
            {
                let m = mods[k];
                let ghost names_before = bindings.names();
                let ghost out_before = out@;
                let ghost hooks_before = hooks@;
                let ghost hb = hook_bindings(secs, i as int) + hooks_of(mods@, k as int);
                proof {
                    assert(whole[start + k] == (i as int, Planned::<'a, M>::Native(m)));
                    assert(sec.0.modifiers@[k as int] == m);
                    assert(secs[i as int].0.modifiers@[k as int] == m);
                    assert(i + m.subsection_count <= usize::MAX);
                    lemma_dyn_prefix(base, mods@, k + 1, mods@.len() as int);
                }
                let end = i + m.subsection_count;
                let result = match m.value {
                    Dyn::Static(value) => {
                        let text = escape_backslashes(value);
                        let p = parse(m.name, text.as_slice());
                        proof {
                            assert(parsed_by(parse, m.name@, unescaped(value@), p));
                            assert(dyn_of(mods@, k + 1) =~= dyn_of(mods@, k as int));
                        }
                        match p {
                            Ok(v) => {
                                let (dep, ch) = fields(&v);
                                Ok(
                                    (
                                        MakeModify {
                                            range: (i as u32)..(end as u32),
                                            depends: dep,
                                            changes: ch,
                                            binding: None,
                                        },
                                        Some(v),
                                    ),
                                )
                            },
                            Err(e) => Err(FinishError::Parse(e)),
                        }
                    },
                    Dyn::Dynamic(b) => {
                        let ghost bn = binding_names(b);
                        proof {
                            let cur = bindings.names();
                            let x = b.path.binding_spec()@;
                            assert(dyn_of(mods@, k + 1) == dyn_of(mods@, k as int) + bn);
                            lemma_intern_all_add(base, dyn_of(mods@, k as int), bn);
                            assert(seq![x].drop_last() =~= Seq::<Seq<char>>::empty());
                            assert(intern_all(cur, Seq::<Seq<char>>::empty()) == cur);
                            assert(intern_all(cur, seq![x]) == intern(cur, x));
                            if bn.len() == 2 {
                                assert(bn.drop_last() =~= seq![x]);
                                lemma_intern_all_grows(intern(cur, x), seq![bn[1]]);
                                assert(seq![bn[1]].drop_last() =~= Seq::<Seq<char>>::empty());
                            } else {
                                assert(bn =~= seq![x]);
                            }
                        }
                        let text = string_from_chars(b.path.binding());
                        let id = bindings.get_or_add(text.as_str());
                        match b.path {
                            tree::Path::Source(src) => {
                                let format = match b.format {
                                    None => None,
                                    Some(tree::Format::UserDefined(u)) => {
                                        proof {
                                            assert(bn =~= seq![b.path.binding_spec()@, u@]);
                                        }
                                        let t = string_from_chars(u);
                                        let ghost names1 = bindings.names();
                                        let fid = bindings.get_or_add(t.as_str());
                                        proof {
                                            assert(seq![u@].drop_last() =~= Seq::<Seq<char>>::empty());
                                            assert(intern_all(names1, Seq::<Seq<char>>::empty()) == names1);
                                            assert(bindings.names() == intern_all(names1, seq![u@]));
                                            lemma_id_kept(names1, seq![u@], b.path.binding_spec()@, id);
                                        }
                                        Some(HookFormat::UserDefined(fid))
                                    },
                                    Some(tree::Format::Fmt(f)) => Some(HookFormat::Fmt(f)),
                                };
                                hooks.push(Hook { source: src, format });
                            },
                            tree::Path::Binding(_) => {},
                        }
                        proof {
                            assert(bindings.names() == intern_all(names_before, bn));
                            assert(is_id_of(bindings.names(), b.path.binding_spec()@, id));
                        }
                        let d = deps(m.name);
                        proof {
                            assert(deps_by(deps, m.name@, d));
                        }
                        match d {
                            None => Err(FinishError::NotAModifier),
                            Some((dep, ch)) => Ok(
                                (
                                    MakeModify {
                                        range: (i as u32)..(end as u32),
                                        depends: dep,
                                        changes: ch,
                                        binding: Some(id),
                                    },
                                    None,
                                ),
                            ),
                        }
                    },
                };
                out.push(result);
                proof {
                    let more = match m.value {
                        Dyn::Dynamic(b) => binding_names(b),
                        Dyn::Static(_) => Seq::<Seq<char>>::empty(),
                    };
                    assert(intern_all(names_before, Seq::<Seq<char>>::empty()) == names_before);
                    assert(bindings.names() == intern_all(names_before, more));
                    let hb1 = hook_bindings(secs, i as int) + hooks_of(mods@, k + 1);
                    assert(hooks_of(mods@, k + 1) == hooks_of(mods@, k as int) + match m.value {
                        Dyn::Dynamic(b) => if b.path is Source {
                            seq![b]
                        } else {
                            Seq::empty()
                        },
                        Dyn::Static(_) => Seq::empty(),
                    });
                    assert forall|j: int| 0 <= j < hb1.len() implies hook_made(
                        #[trigger] hb1[j],
                        hooks@[h0.len() + j],
                        bindings.names(),
                    ) by {
                        if j < hb.len() {
                            assert(hb1[j] == hb[j]);
                            assert(hooks@[h0.len() + j] == hooks_before[h0.len() + j]);
                            lemma_hook_kept(hb[j], hooks_before[h0.len() + j], names_before, more);
                        }
                    }
                    assert forall|j: int| 0 <= j < h0.len() implies #[trigger] hooks@[j] == h0[j] by {
                        assert(hooks@[j] == hooks_before[j]);
                    }
                    assert forall|j: int| 0 <= j < out@.len() implies made(
                        #[trigger] whole[j],
                        out@[j],
                        parse,
                        deps,
                        fields,
                        bindings.names(),
                    ) by {
                        if j < out_before.len() {
                            assert(out@[j] == out_before[j]);
                            lemma_made_kept(whole[j], out@[j], parse, deps, fields, names_before, more);
                        }
                    }
                }
                k = k + 1;
            }
            let mut ext = ext;
            let ghost exts = sec.1@;
            let ghost mut k2: int = 0;
            proof {
                assert(ext@ =~= exts.skip(0));
            }
            while ext.len() > 0
                invariant
                    ext@ == exts.skip(k2),
                    exts == sec.1@,
                    0 <= k2 <= exts.len(),
                    bindings.wf(),
                    bindings.entries() == old(bindings).entries(),
                    ranges_fit(secs),
                    n == secs.len(),
                    0 <= i < n,
                    sec == secs[i as int],
                    forall|x: &[char], v: &[char]| call_requires(parse, (x, v)),
                parse == parse0,
                    forall|x: &[char]| call_requires(deps, (x,)),
                    forall|x: &M| call_requires(fields, (x,)),
                    whole == plan(secs, i as int) + section_plan(i as int, sec),
                    start == plan(secs, i as int).len(),
                    out@.len() == start + sec.0.modifiers@.len() + k2,
                    forall|j: int|
                        0 <= j < out@.len() ==> made(#[trigger] whole[j], out@[j], parse, deps, fields, bindings.names()),
                decreases ext@.len(),
            {
                let ghost ext_before = ext@;
                let m = ext.remove(0);
                let ghost out_before = out@;
                proof {
                    assert(ext_before[0] == exts[k2]);
                    assert(ext@ =~= exts.skip(k2 + 1));
                    assert(whole[out@.len() as int] == (i as int, Planned::<'a, M>::Extend(m)));
                    assert(secs[i as int].1@[k2] == m);
                    assert(i + m.influence <= usize::MAX);
                }
                let (dep, ch) = fields(&m.inner);
                let end = i + m.influence;
                out.push(
                    Ok(
                        (
                            MakeModify { range: (i as u32)..(end as u32), depends: dep, changes: ch, binding: None },
                            Some(m.inner),
                        ),
                    ),
                );
                proof {
                    assert forall|j: int| 0 <= j < out@.len() implies made(
                        #[trigger] whole[j],
                        out@[j],
                        parse,
                        deps,
                        fields,
                        bindings.names(),
                    ) by {
                        if j < out_before.len() {
                            assert(out@[j] == out_before[j]);
                        }
                    }
                    k2 = k2 + 1;
                }
            }
            proof {
                assert(mods@.len() == sec.0.modifiers@.len());
                assert(bindings.names() == intern_all(names0, dynamic_names(secs, i + 1)));
            }
            i = i + 1;
        }
        proof {
            assert(secs.skip(i as int).len() == 0);
            assert(i == n);
        }
        out
    }
}

} // verus!
