//! Sections of a parsed format string being styled: their text split into
//! pieces, modifiers added to the pieces, modifiers renamed.
use vstd::prelude::*;
use crate::post_process::{Split, ends_piece, is_split};
use crate::tree::{self, Dyn, content_name, content_name_chars, is_content};

verus! {

/// A modifier added while styling, applying to `influence` sections from its
/// own.
pub struct Modifier<M> {
    pub influence: usize,
    pub inner: M,
}

/// A section being styled: its modifiers as parsed, then those added while
/// styling.
pub struct Section<'a, M>(pub tree::Section<'a>, pub Vec<Modifier<M>>);

/// The value of a parsed modifier, its text as characters.
pub enum ValueView {
    Dynamic(tree::BindingView),
    Static(Seq<char>),
}

/// A parsed modifier, its text as characters.
pub struct ModifierView {
    pub name: Seq<char>,
    pub value: ValueView,
    pub subsection_count: int,
}

/// An added modifier of a section being styled, as it is known.
pub enum Added<M> {
    /// Its value.
    Known(M),
    /// Made by a chopper from the value of the modifier that asked for a cut
    /// and the number of pieces cut.
    Chopped(Seq<char>, int),
}

/// A section being styled: its parsed modifiers, then the influence of each
/// added modifier and what is known of its value.
pub struct SectionView<M> {
    pub native: Seq<ModifierView>,
    pub extend: Seq<(int, Added<M>)>,
}

/// `m` with its text as characters.
pub open spec fn modifier_view(m: tree::Modifier) -> ModifierView {
    ModifierView {
        name: m.name@,
        value: match m.value {
            Dyn::Dynamic(b) => ValueView::Dynamic(b@),
            Dyn::Static(v) => ValueView::Static(v@),
        },
        subsection_count: m.subsection_count as int,
    }
}

/// The parsed modifiers `mods` with their text as characters.
pub open spec fn modifiers_view<'a>(mods: Seq<tree::Modifier<'a>>) -> Seq<ModifierView> {
    mods.map_values(|m: tree::Modifier<'a>| modifier_view(m))
}

impl<'a, M> View for Section<'a, M> {
    type V = SectionView<M>;

    open spec fn view(&self) -> SectionView<M> {
        SectionView {
            native: modifiers_view(self.0.modifiers@),
            extend: self.1@.map_values(|m: Modifier<M>| (m.influence as int, Added::Known(m.inner))),
        }
    }
}

/// `m` holds the text of its section: it is named `Content` and its value is
/// static.
pub open spec fn is_text(m: ModifierView) -> bool {
    m.name == content_name() && m.value is Static
}

/// `k` is the first of `mods` to hold the text of its section.
pub open spec fn is_first_text(mods: Seq<ModifierView>, k: int) -> bool {
    &&& 0 <= k < mods.len()
    &&& is_text(mods[k])
    &&& forall|j: int| 0 <= j < k ==> !is_text(#[trigger] mods[j])
}

/// The first of `mods` to hold the text of its section.
pub open spec fn text_index(mods: Seq<ModifierView>) -> Option<int> {
    if exists|k: int| is_first_text(mods, k) {
        Some(choose|k: int| is_first_text(mods, k))
    } else {
        None
    }
}

/// The text of a section: the value of its first static `Content` modifier.
pub open spec fn text_of<M>(s: SectionView<M>) -> Option<Seq<char>> {
    match text_index(s.native) {
        Some(t) => Some(s.native[t].value->Static_0),
        None => None,
    }
}

/// `k` is the first of `mods` named `name`.
pub open spec fn is_first_named(mods: Seq<ModifierView>, name: Seq<char>, k: int) -> bool {
    &&& 0 <= k < mods.len()
    &&& mods[k].name == name
    &&& forall|j: int| 0 <= j < k ==> (#[trigger] mods[j]).name != name
}

/// The first of `mods` named `name`.
pub open spec fn named_index(mods: Seq<ModifierView>, name: Seq<char>) -> Option<int> {
    if exists|k: int| is_first_named(mods, name, k) {
        Some(choose|k: int| is_first_named(mods, name, k))
    } else {
        None
    }
}

proof fn lemma_text_index(mods: Seq<ModifierView>, k: int)
    requires
        is_first_text(mods, k),
    ensures
        text_index(mods) == Some(k),
{
    let c = choose|c: int| is_first_text(mods, c);
    if c < k {
        assert(!is_text(mods[c]));
    } else if c > k {
        assert(!is_text(mods[k]));
    }
}

proof fn lemma_named_index(mods: Seq<ModifierView>, name: Seq<char>, k: int)
    requires
        is_first_named(mods, name, k),
    ensures
        named_index(mods, name) == Some(k),
{
    let c = choose|c: int| is_first_named(mods, name, c);
    if c < k {
        assert(mods[c].name != name);
    } else if c > k {
        assert(mods[k].name != name);
    }
}

/// Whether `a` and `b` hold the same characters.
fn same_chars(a: &[char], b: &[char]) -> (r: bool)
    ensures
        r == (a@ == b@),
{
    if a.len() != b.len() {
        return false;
    }
    let mut i: usize = 0;
    while i < a.len()
        invariant
            a@.len() == b@.len(),
            i <= a@.len(),
            forall|k: int| 0 <= k < i ==> a@[k] == b@[k],
        decreases a@.len() - i,
    {
        if a[i] != b[i] {
            return false;
        }
        i = i + 1;
    }
    assert(a@ =~= b@);
    true
}

/// The first of `mods` that holds the text of its section.
fn text_position(mods: &Vec<tree::Modifier>) -> (r: Option<usize>)
    ensures
        match r {
            Some(k) => text_index(modifiers_view(mods@)) == Some(k as int),
            None => text_index(modifiers_view(mods@)) is None,
        },
{
    let ghost views = modifiers_view(mods@);
    let mut k: usize = 0;
    while k < mods.len()
        invariant
            views == modifiers_view(mods@),
            k <= mods@.len(),
            forall|j: int| 0 <= j < k ==> !is_text(#[trigger] views[j]),
        decreases mods@.len() - k,
    {
        let is_static = match mods[k].value {
            Dyn::Static(_) => true,
            Dyn::Dynamic(_) => false,
        };
        if is_static && is_content(&mods[k]) {
            proof {
                lemma_text_index(views, k as int);
            }
            return Some(k);
        }
        k = k + 1;
    }
    assert(!exists|c: int| is_first_text(views, c));
    None
}

/// The first of `mods` named `name`.
fn named_position(mods: &Vec<tree::Modifier>, name: &[char]) -> (r: Option<usize>)
    ensures
        match r {
            Some(k) => named_index(modifiers_view(mods@), name@) == Some(k as int),
            None => named_index(modifiers_view(mods@), name@) is None,
        },
{
    let ghost views = modifiers_view(mods@);
    let mut k: usize = 0;
    while k < mods.len()
        invariant
            views == modifiers_view(mods@),
            k <= mods@.len(),
            forall|j: int| 0 <= j < k ==> (#[trigger] views[j]).name != name@,
        decreases mods@.len() - k,
    {
        if same_chars(mods[k].name, name) {
            proof {
                lemma_named_index(views, name@, k as int);
            }
            return Some(k);
        }
        k = k + 1;
    }
    assert(!exists|c: int| is_first_named(views, name@, c));
    None
}

/// `m` once stretched by `by` if its range is over `above` sections; a
/// `Content` modifier keeps its range.
pub open spec fn bumped_modifier(m: ModifierView, above: int, by: int) -> ModifierView {
    if m.name != content_name() && m.subsection_count > above {
        ModifierView { subsection_count: m.subsection_count + by, ..m }
    } else {
        m
    }
}

/// The added modifier `e` once stretched by `by` if its influence is over
/// `above` sections.
pub open spec fn bumped_entry<M>(e: (int, Added<M>), above: int, by: int) -> (int, Added<M>) {
    if e.0 > above {
        (e.0 + by, e.1)
    } else {
        e
    }
}

/// `s` once its modifiers with a range over `above` sections are stretched by
/// `by`, but its `Content` modifiers.
pub open spec fn bumped<M>(s: SectionView<M>, above: int, by: int) -> SectionView<M> {
    SectionView {
        native: s.native.map_values(|m: ModifierView| bumped_modifier(m, above, by)),
        extend: s.extend.map_values(|e: (int, Added<M>)| bumped_entry(e, above, by)),
    }
}

/// Stretching `s` leaves every range within `usize`.
pub open spec fn bump_fits<M>(s: SectionView<M>, above: int, by: int) -> bool {
    &&& forall|j: int|
        0 <= j < s.native.len() ==> #[trigger] bumped_modifier(s.native[j], above, by).subsection_count
            <= usize::MAX
    &&& forall|j: int|
        0 <= j < s.extend.len() ==> #[trigger] bumped_entry(s.extend[j], above, by).0 <= usize::MAX
}

/// `s` with its text, if it has one, set to `text`.
pub open spec fn with_text<M>(s: SectionView<M>, text: Seq<char>) -> SectionView<M> {
    match text_index(s.native) {
        Some(t) => SectionView {
            native: s.native.update(t, ModifierView { value: ValueView::Static(text), ..s.native[t] }),
            extend: s.extend,
        },
        None => s,
    }
}

/// The pieces `split` cuts `s` into (see [`is_split`]; there is one way only,
/// see [`lemma_pieces_unique`]).
pub open spec fn pieces(split: Split, s: Seq<char>) -> Seq<Seq<char>> {
    choose|p: Seq<Seq<char>>| is_split(split, s, p)
}

/// The pieces of a text are unique: two ways of cutting `s` by `split` are
/// the same.
pub proof fn lemma_pieces_unique(split: Split, s: Seq<char>, p: Seq<Seq<char>>, q: Seq<Seq<char>>)
    requires
        is_split(split, s, p),
        is_split(split, s, q),
    ensures
        p == q,
    decreases p.len(),
{
    if p.len() == 0 || q.len() == 0 {
        if q.len() > 0 {
            assert(q.flatten() == q[0] + q.drop_first().flatten());
            assert(q[0].len() > 0);
            assert(s.len() > 0);
        }
        if p.len() > 0 {
            assert(p.flatten() == p[0] + p.drop_first().flatten());
            assert(p[0].len() > 0);
            assert(s.len() > 0);
        }
        if p.len() == 0 {
            assert(p.flatten() =~= Seq::<char>::empty());
        }
        if q.len() == 0 {
            assert(q.flatten() =~= Seq::<char>::empty());
        }
        assert(p.len() == 0 && q.len() == 0);
        assert(p =~= q);
    } else {
        let a = p[0];
        let b = q[0];
        let pr = p.drop_first();
        let qr = q.drop_first();
        assert(s == a + pr.flatten());
        assert(s == b + qr.flatten());
        assert(a.len() > 0 && b.len() > 0);
        if a.len() < b.len() {
            if p.len() == 1 {
                assert(pr.flatten() =~= Seq::<char>::empty());
                assert(s.len() == a.len());
            } else {
                assert(ends_piece(split, p[0].last()));
                assert(s[a.len() - 1] == a.last());
                assert(s[a.len() - 1] == b[a.len() - 1]);
                assert(!ends_piece(split, q[0][a.len() - 1]));
            }
        }
        if b.len() < a.len() {
            if q.len() == 1 {
                assert(qr.flatten() =~= Seq::<char>::empty());
                assert(s.len() == b.len());
            } else {
                assert(ends_piece(split, q[0].last()));
                assert(s[b.len() - 1] == b.last());
                assert(s[b.len() - 1] == a[b.len() - 1]);
                assert(!ends_piece(split, p[0][b.len() - 1]));
            }
        }
        assert(a =~= s.take(a.len() as int));
        assert(b =~= s.take(b.len() as int));
        let rest = s.skip(a.len() as int);
        assert(pr.flatten() =~= rest);
        assert(qr.flatten() =~= rest);
        assert forall|x: int| 0 <= x < pr.len() implies #[trigger] pr[x].len() > 0 by {
            assert(pr[x] == p[x + 1]);
        }
        assert forall|x: int| 0 <= x < qr.len() implies #[trigger] qr[x].len() > 0 by {
            assert(qr[x] == q[x + 1]);
        }
        assert forall|x: int, y: int| 0 <= x < pr.len() && 0 <= y < pr[x].len() - 1 implies !ends_piece(
            split,
            #[trigger] pr[x][y],
        ) by {
            assert(pr[x] == p[x + 1]);
            assert(p[x + 1][y] == pr[x][y]);
        }
        assert forall|x: int, y: int| 0 <= x < qr.len() && 0 <= y < qr[x].len() - 1 implies !ends_piece(
            split,
            #[trigger] qr[x][y],
        ) by {
            assert(qr[x] == q[x + 1]);
            assert(q[x + 1][y] == qr[x][y]);
        }
        assert forall|x: int| 0 <= x < pr.len() - 1 implies ends_piece(
            split,
            #[trigger] pr[x].last(),
        ) by {
            assert(pr[x] == p[x + 1]);
        }
        assert forall|x: int| 0 <= x < qr.len() - 1 implies ends_piece(
            split,
            #[trigger] qr[x].last(),
        ) by {
            assert(qr[x] == q[x + 1]);
        }
        lemma_pieces_unique(split, rest, pr, qr);
        assert(p =~= seq![a] + pr);
        assert(q =~= seq![b] + qr);
    }
}

/// Every text can be cut into pieces.
pub proof fn lemma_pieces_exist(split: Split, s: Seq<char>)
    ensures
        is_split(split, s, pieces(split, s)),
    decreases s.len(),
{
    if s.len() == 0 {
        let p = Seq::<Seq<char>>::empty();
        assert(p.flatten() =~= s);
        assert(is_split(split, s, p));
    } else {
        let rest = s.drop_last();
        let c = s.last();
        lemma_pieces_exist(split, rest);
        let q = pieces(split, rest);
        let p = if q.len() == 0 || ends_piece(split, q.last().last()) {
            q.push(seq![c])
        } else {
            q.drop_last().push(q.last().push(c))
        };
        assert(rest + seq![c] =~= s);
        if q.len() == 0 || ends_piece(split, q.last().last()) {
            q.lemma_flatten_push(seq![c]);
            assert(p.flatten() =~= s);
            assert forall|x: int, y: int| 0 <= x < p.len() && 0 <= y < p[x].len() - 1 implies !ends_piece(
                split,
                #[trigger] p[x][y],
            ) by {
                assert(p[x] == q[x]);
            }
            assert forall|x: int| 0 <= x < p.len() - 1 implies ends_piece(split, #[trigger] p[x].last()) by {
                assert(p[x] == q[x]);
            }
        } else {
            let front = q.drop_last();
            front.lemma_flatten_push(q.last());
            assert(front.push(q.last()) =~= q);
            front.lemma_flatten_push(q.last().push(c));
            assert(p.flatten() =~= s);
            assert forall|x: int, y: int| 0 <= x < p.len() && 0 <= y < p[x].len() - 1 implies !ends_piece(
                split,
                #[trigger] p[x][y],
            ) by {
                if x < p.len() - 1 {
                    assert(p[x] == q[x]);
                } else {
                    assert(p[x] == q.last().push(c));
                    if y < q.last().len() - 1 {
                        assert(p[x][y] == q[x][y]);
                    } else {
                        assert(p[x][y] == q.last().last());
                    }
                }
            }
            assert forall|x: int| 0 <= x < p.len() - 1 implies ends_piece(split, #[trigger] p[x].last()) by {
                assert(p[x] == q[x]);
            }
            assert forall|x: int| 0 <= x < p.len() implies #[trigger] p[x].len() > 0 by {
                if x < p.len() - 1 {
                    assert(p[x] == q[x]);
                }
            }
        }
        assert(is_split(split, s, p));
    }
}

/// Pieces of `s` found some way are [`pieces`] of it.
pub proof fn lemma_pieces(split: Split, s: Seq<char>, p: Seq<Seq<char>>)
    requires
        is_split(split, s, p),
    ensures
        pieces(split, s) == p,
{
    lemma_pieces_unique(split, s, p, pieces(split, s));
}

/// The added modifier of each section cut, if `chops`: its influence is one
/// section, its value the chopper makes from `value`, the value of the
/// modifier that asked for the cut, and `count`, the number of pieces cut.
pub open spec fn chopped<M>(chops: bool, value: Seq<char>, count: int) -> Seq<(int, Added<M>)> {
    if chops {
        seq![(1int, Added::Chopped(value, count))]
    } else {
        Seq::empty()
    }
}

/// The section of text `piece` alone, with the added modifiers `added`.
pub open spec fn piece_section<M>(piece: Seq<char>, added: Seq<(int, Added<M>)>) -> SectionView<M> {
    SectionView {
        native: seq![
            ModifierView {
                name: content_name(),
                value: ValueView::Static(piece),
                subsection_count: 1,
            },
        ],
        extend: added,
    }
}

/// What section `s` becomes when cut: a section without text stays as it is;
/// else its text is cut into pieces, the first stays its text, its
/// modifiers are stretched over the other pieces, which follow it as sections
/// of their own; each gets the added modifiers `added`.
pub open spec fn replaced<M>(split: Split, added: Seq<(int, Added<M>)>, s: SectionView<M>) -> Seq<
    SectionView<M>,
> {
    match text_of(s) {
        None => seq![s],
        Some(text) => {
            let p = pieces(split, text);
            let head = bumped(with_text(s, p[0]), -1, p.len() - 1);
            seq![SectionView { native: head.native, extend: head.extend + added }]
                + p.drop_first().map_values(|piece: Seq<char>| piece_section::<M>(piece, added))
        },
    }
}

/// Cutting `s` panics: its text is empty, or a stretched range goes over
/// `usize`.
pub open spec fn cut_panics<M>(split: Split, s: SectionView<M>) -> bool {
    match text_of(s) {
        None => false,
        Some(text) => text.len() == 0 || !bump_fits(
            with_text(s, pieces(split, text)[0]),
            -1,
            pieces(split, text).len() - 1,
        ),
    }
}

/// How many pieces the texts of `secs` are cut into.
pub open spec fn piece_count<M>(split: Split, secs: Seq<SectionView<M>>) -> int
    decreases secs.len(),
{
    if secs.len() == 0 {
        0
    } else {
        piece_count(split, secs.drop_last()) + match text_of(secs.last()) {
            Some(text) => pieces(split, text).len() as int,
            None => 0,
        }
    }
}

/// What is taken out of section `s` to ask for a cut, and the cut: with no
/// `alias`, nothing, and a cut of this section alone with an empty value; else
/// the first modifier named `alias`, which asks for a cut of as many sections
/// as its range if its value is static.
pub open spec fn extract<M>(alias: Option<Seq<char>>, s: SectionView<M>) -> (
    SectionView<M>,
    Option<(Seq<char>, int)>,
) {
    match alias {
        None => (s, Some((Seq::empty(), 1))),
        Some(a) => match named_index(s.native, a) {
            None => (s, None),
            Some(k) => {
                let left = SectionView { native: s.native.remove(k), extend: s.extend };
                match s.native[k].value {
                    ValueView::Static(v) => (left, Some((v, s.native[k].subsection_count))),
                    ValueView::Dynamic(_) => (left, None),
                }
            },
        },
    }
}

/// The sections `secs` cut one after the other (see [`replaced`]).
pub open spec fn cut_all<M>(split: Split, added: Seq<(int, Added<M>)>, secs: Seq<SectionView<M>>) -> Seq<
    SectionView<M>,
>
    decreases secs.len(),
{
    if secs.len() == 0 {
        Seq::empty()
    } else {
        cut_all(split, added, secs.drop_last()) + replaced(split, added, secs.last())
    }
}

/// The sections `start`, before section `i`, once a modifier of each whose
/// range goes over `i` is stretched over `added` more sections.
pub open spec fn stretched<M>(start: Seq<SectionView<M>>, i: int, added: int) -> Seq<SectionView<M>> {
    start.map(|p: int, s: SectionView<M>| bumped(s, i - p, added))
}

/// The sections `secs` after the step of splitting at section `i`, `None`
/// where the step panics. What section `i` asks for is taken out of it; if it
/// asks for a cut of `n` sections, each of them is cut (see [`replaced`]),
/// and a modifier of a section before them whose range went over `i` is
/// stretched over all the pieces added.
pub open spec fn split_step<M>(
    split: Split,
    alias: Option<Seq<char>>,
    chops: bool,
    secs: Seq<SectionView<M>>,
    i: int,
) -> Option<Seq<SectionView<M>>> {
    let (s, cut) = extract(alias, secs[i]);
    let secs = secs.update(i, s);
    match cut {
        None => Some(secs),
        Some((value, n)) => if !(0 <= n && i + n <= secs.len()) {
            None
        } else {
            let middle = secs.subrange(i, i + n);
            if piece_count(split, middle) > usize::MAX || exists|j: int|
                0 <= j < n && cut_panics(split, #[trigger] middle[j]) {
                None
            } else {
                let cut_secs = cut_all(split, chopped(chops, value, piece_count(split, middle)), middle);
                let added = cut_secs.len() - n;
                let start = secs.take(i);
                if exists|p: int| 0 <= p < i && !bump_fits(#[trigger] start[p], i - p, added) {
                    None
                } else {
                    Some(stretched(start, i, added) + cut_secs + secs.skip(i + n))
                }
            }
        },
    }
}

/// How splitting ends.
pub enum Outcome<M> {
    /// With these sections.
    Finished(Seq<SectionView<M>>),
    /// With a panic.
    Panics,
    /// Not within the steps given.
    Unfinished,
}

/// Splitting `secs` from section `i`, step after step, at most `fuel` steps.
pub open spec fn split_run<M>(
    split: Split,
    alias: Option<Seq<char>>,
    chops: bool,
    secs: Seq<SectionView<M>>,
    i: int,
    fuel: nat,
) -> Outcome<M>
    decreases fuel,
{
    if i >= secs.len() {
        Outcome::Finished(secs)
    } else if fuel == 0 {
        Outcome::Unfinished
    } else {
        match split_step(split, alias, chops, secs, i) {
            None => Outcome::Panics,
            Some(next) => split_run(split, alias, chops, next, i + 1, (fuel - 1) as nat),
        }
    }
}

/// Splitting `secs` ends, without a panic.
pub open spec fn splits_cleanly<M>(
    split: Split,
    alias: Option<Seq<char>>,
    chops: bool,
    secs: Seq<SectionView<M>>,
) -> bool {
    exists|fuel: nat| #[trigger] split_run(split, alias, chops, secs, 0, fuel) is Finished
}

/// The sections splitting `secs` ends with, where it ends without a panic.
pub open spec fn split_outcome<M>(
    split: Split,
    alias: Option<Seq<char>>,
    chops: bool,
    secs: Seq<SectionView<M>>,
) -> Seq<SectionView<M>> {
    let fuel = choose|fuel: nat| #[trigger] split_run(split, alias, chops, secs, 0, fuel) is Finished;
    split_run(split, alias, chops, secs, 0, fuel)->Finished_0
}

/// The added modifier `actual` is the one `model` describes: the same
/// influence, and the value `model` knows, or one that `made` allows for
/// the value and count it was chopped from.
pub open spec fn added_agrees<M>(
    actual: (int, Added<M>),
    model: (int, Added<M>),
    made: spec_fn(Seq<char>, int, M) -> bool,
) -> bool {
    &&& actual.0 == model.0
    &&& match model.1 {
        Added::Known(m) => actual.1 == Added::Known(m),
        Added::Chopped(value, count) => actual.1 matches Added::Known(m) && made(value, count, m),
    }
}

/// `actual` agrees with `model`: the same parsed modifiers, and each added
/// modifier the one `model` describes (see [`added_agrees`]).
pub open spec fn agrees<M>(
    actual: SectionView<M>,
    model: SectionView<M>,
    made: spec_fn(Seq<char>, int, M) -> bool,
) -> bool {
    &&& actual.native == model.native
    &&& actual.extend.len() == model.extend.len()
    &&& forall|j: int|
        0 <= j < model.extend.len() ==> added_agrees(#[trigger] actual.extend[j], model.extend[j], made)
}

/// Each of `actual` agrees with the one of `model` at its place.
pub open spec fn all_agree<M>(
    actual: Seq<SectionView<M>>,
    model: Seq<SectionView<M>>,
    made: spec_fn(Seq<char>, int, M) -> bool,
) -> bool {
    &&& actual.len() == model.len()
    &&& forall|k: int| 0 <= k < model.len() ==> agrees(#[trigger] actual[k], model[k], made)
}

/// The sections `secs` seen as their views.
pub open spec fn views<'a, M>(secs: Seq<Section<'a, M>>) -> Seq<SectionView<M>> {
    secs.map_values(|s: Section<'a, M>| s@)
}

/// `alias` as characters.
pub open spec fn alias_view(alias: Option<&[char]>) -> Option<Seq<char>> {
    match alias {
        Some(a) => Some(a@),
        None => None,
    }
}

proof fn lemma_agrees_bumped<M>(
    a: SectionView<M>,
    m: SectionView<M>,
    above: int,
    by: int,
    made: spec_fn(Seq<char>, int, M) -> bool,
)
    requires
        agrees(a, m, made),
    ensures
        agrees(bumped(a, above, by), bumped(m, above, by), made),
        bump_fits(a, above, by) == bump_fits(m, above, by),
{
    let ba = bumped(a, above, by);
    let bm = bumped(m, above, by);
    assert(ba.native =~= bm.native);
    assert forall|j: int| 0 <= j < bm.extend.len() implies added_agrees(
        #[trigger] ba.extend[j],
        bm.extend[j],
        made,
    ) by {
        assert(a.extend[j].0 == m.extend[j].0);
    }
    if bump_fits(a, above, by) {
        assert forall|j: int| 0 <= j < m.extend.len() implies #[trigger] bumped_entry(
            m.extend[j],
            above,
            by,
        ).0 <= usize::MAX by {
            assert(a.extend[j].0 == m.extend[j].0);
            assert(bumped_entry(a.extend[j], above, by).0 <= usize::MAX);
        }
    }
    if bump_fits(m, above, by) {
        assert forall|j: int| 0 <= j < a.extend.len() implies #[trigger] bumped_entry(
            a.extend[j],
            above,
            by,
        ).0 <= usize::MAX by {
            assert(a.extend[j].0 == m.extend[j].0);
            assert(bumped_entry(m.extend[j], above, by).0 <= usize::MAX);
        }
    }
}

proof fn lemma_all_agree_add<M>(
    a1: Seq<SectionView<M>>,
    m1: Seq<SectionView<M>>,
    a2: Seq<SectionView<M>>,
    m2: Seq<SectionView<M>>,
    made: spec_fn(Seq<char>, int, M) -> bool,
)
    requires
        all_agree(a1, m1, made),
        all_agree(a2, m2, made),
    ensures
        all_agree(a1 + a2, m1 + m2, made),
{
    assert forall|k: int| 0 <= k < (m1 + m2).len() implies agrees(#[trigger] (a1 + a2)[k], (m1 + m2)[k], made) by {
        if k < m1.len() {
            assert(agrees(a1[k], m1[k], made));
        } else {
            assert(agrees(a2[k - m1.len()], m2[k - m1.len()], made));
        }
    }
}

proof fn lemma_all_agree_subrange<M>(
    a: Seq<SectionView<M>>,
    m: Seq<SectionView<M>>,
    from: int,
    to: int,
    made: spec_fn(Seq<char>, int, M) -> bool,
)
    requires
        all_agree(a, m, made),
        0 <= from <= to <= m.len(),
    ensures
        all_agree(a.subrange(from, to), m.subrange(from, to), made),
{
    assert forall|k: int| 0 <= k < to - from implies agrees(
        #[trigger] a.subrange(from, to)[k],
        m.subrange(from, to)[k], made,
    ) by {
        assert(agrees(a[from + k], m[from + k], made));
    }
}

proof fn lemma_piece_count_agree<M>(
    split: Split,
    a: Seq<SectionView<M>>,
    m: Seq<SectionView<M>>,
    made: spec_fn(Seq<char>, int, M) -> bool,
)
    requires
        all_agree(a, m, made),
    ensures
        piece_count(split, a) == piece_count(split, m),
    decreases m.len(),
{
    if m.len() > 0 {
        lemma_all_agree_subrange(a, m, 0, m.len() - 1, made);
        assert(a.drop_last() =~= a.subrange(0, m.len() - 1));
        assert(m.drop_last() =~= m.subrange(0, m.len() - 1));
        lemma_piece_count_agree(split, a.drop_last(), m.drop_last(), made);
        assert(agrees(a[m.len() - 1], m[m.len() - 1], made));
    }
}

proof fn lemma_piece_count_prefix<M>(split: Split, s: Seq<SectionView<M>>, k: int)
    requires
        0 <= k <= s.len(),
    ensures
        0 <= piece_count(split, s.take(k)) <= piece_count(split, s),
    decreases s.len(),
{
    if k == s.len() {
        assert(s.take(k) =~= s);
        if s.len() > 0 {
            lemma_piece_count_prefix(split, s.drop_last(), 0);
        }
    } else {
        lemma_piece_count_prefix(split, s.drop_last(), k);
        assert(s.drop_last().take(k) =~= s.take(k));
    }
}

impl<'a, M> Section<'a, M> {
    /// The text of this section.
    fn get_content(&self) -> (r: Option<&'a [char]>)
        ensures
            match r {
                Some(c) => text_of(self@) == Some(c@),
                None => text_of(self@) is None,
            },
    {
        match text_position(&self.0.modifiers) {
            Some(t) => match self.0.modifiers[t].value {
                Dyn::Static(v) => Some(v),
                Dyn::Dynamic(_) => None,
            },
            None => None,
        }
    }

    /// Sets the text of this section to `new_content`; `None` when it has no
    /// text.
    fn set_content(&mut self, new_content: &'a [char]) -> (r: Option<()>)
        ensures
            r is Some <==> text_index(old(self)@.native) is Some,
            match text_index(old(self)@.native) {
                Some(t) => final(self)@ == SectionView {
                    native: old(self)@.native.update(
                        t,
                        ModifierView { value: ValueView::Static(new_content@), ..old(self)@.native[t] },
                    ),
                    extend: old(self)@.extend,
                },
                None => final(self)@ == old(self)@,
            },
    {
        match text_position(&self.0.modifiers) {
            Some(t) => {
                let m = self.0.modifiers[t];
                let ghost before = self.0.modifiers@;
                self.0.modifiers.set(t, tree::Modifier { value: Dyn::Static(new_content), ..m });
                proof {
                    assert(modifiers_view(self.0.modifiers@) =~= modifiers_view(before).update(
                        t as int,
                        ModifierView {
                            value: ValueView::Static(new_content@),
                            ..modifiers_view(before)[t as int]
                        },
                    ));
                }
                Some(())
            },
            None => None,
        }
    }

    /// Whether stretching by `by` the modifiers whose range is over `above`
    /// sections (all of them if `all`) leaves every range within `usize`.
    fn fits(&self, all: bool, above: usize, by: usize) -> (r: bool)
        ensures
            r == bump_fits(self@, if all { -1 } else { above as int }, by as int),
    {
        let ghost over: int = if all { -1 } else { above as int };
        let mut j: usize = 0;
        while j < self.0.modifiers.len()
            invariant
                over == (if all { -1 } else { above as int }),
                j <= self@.native.len(),
                forall|k: int|
                    0 <= k < j ==> #[trigger] bumped_modifier(self@.native[k], over, by as int).subsection_count
                        <= usize::MAX,
            decreases self@.native.len() - j,
        {
            let m = self.0.modifiers[j];
            assert(self@.native[j as int] == modifier_view(m));
            if !is_content(&m) && (all || m.subsection_count > above) && m.subsection_count > usize::MAX - by {
                assert(bumped_modifier(self@.native[j as int], over, by as int).subsection_count > usize::MAX);
                return false;
            }
            j = j + 1;
        }
        let mut j: usize = 0;
        while j < self.1.len()
            invariant
                over == (if all { -1 } else { above as int }),
                j <= self@.extend.len(),
                forall|k: int|
                    0 <= k < self@.native.len() ==> #[trigger] bumped_modifier(self@.native[k], over, by as int).subsection_count
                        <= usize::MAX,
                forall|k: int|
                    0 <= k < j ==> #[trigger] bumped_entry(self@.extend[k], over, by as int).0 <= usize::MAX,
            decreases self@.extend.len() - j,
        {
            let influence = self.1[j].influence;
            assert(self@.extend[j as int].0 == influence);
            if (all || influence > above) && influence > usize::MAX - by {
                assert(bumped_entry(self@.extend[j as int], over, by as int).0 > usize::MAX);
                return false;
            }
            j = j + 1;
        }
        true
    }

    /// Stretches by `by` the modifiers whose range is over `above` sections
    /// (all of them if `all`), but the `Content` ones.
    fn bump(&mut self, all: bool, above: usize, by: usize)
        requires
            bump_fits(old(self)@, if all { -1 } else { above as int }, by as int),
        ensures
            final(self)@ == bumped(old(self)@, if all { -1 } else { above as int }, by as int),
    {
        let ghost over: int = if all { -1 } else { above as int };
        let ghost start = self@;
        let mut j: usize = 0;
        while j < self.0.modifiers.len()
            invariant
                bump_fits(start, over, by as int),
                over == (if all { -1 } else { above as int }),
                self.0.modifiers@.len() == start.native.len(),
                self@.extend == start.extend,
                j <= start.native.len(),
                forall|k: int|
                    0 <= k < j ==> #[trigger] self@.native[k] == bumped_modifier(
                        start.native[k],
                        over,
                        by as int,
                    ),
                forall|k: int| j <= k < start.native.len() ==> #[trigger] self@.native[k] == start.native[k],
            decreases start.native.len() - j,
        {
            let m = self.0.modifiers[j];
            let ghost before = self.0.modifiers@;
            let ghost view_before = self@;
            assert(view_before.native[j as int] == start.native[j as int]);
            assert(start.native[j as int] == modifier_view(m));
            if !is_content(&m) && (all || m.subsection_count > above) {
                assert(bumped_modifier(start.native[j as int], over, by as int).subsection_count
                    <= usize::MAX);
                self.0.modifiers.set(j, tree::Modifier { subsection_count: m.subsection_count + by, ..m });
                assert(self@.native[j as int] == bumped_modifier(start.native[j as int], over, by as int));
            } else {
                assert(self@.native[j as int] == bumped_modifier(start.native[j as int], over, by as int));
            }
            assert forall|k: int| 0 <= k < j + 1 implies #[trigger] self@.native[k] == bumped_modifier(
                start.native[k],
                over,
                by as int,
            ) by {
                if k < j {
                    assert(self.0.modifiers@[k] == before[k]);
                    assert(view_before.native[k] == bumped_modifier(start.native[k], over, by as int));
                }
            }
            assert forall|k: int| j + 1 <= k < start.native.len() implies #[trigger] self@.native[k]
                == start.native[k] by {
                assert(self.0.modifiers@[k] == before[k]);
                assert(view_before.native[k] == start.native[k]);
            }
            j = j + 1;
        }
        let mut j: usize = 0;
        while j < self.1.len()
            invariant
                bump_fits(start, over, by as int),
                over == (if all { -1 } else { above as int }),
                self.1@.len() == start.extend.len(),
                self@.native == bumped(start, over, by as int).native,
                j <= start.extend.len(),
                forall|k: int|
                    0 <= k < j ==> #[trigger] self@.extend[k] == bumped_entry(
                        start.extend[k],
                        over,
                        by as int,
                    ),
                forall|k: int| j <= k < start.extend.len() ==> #[trigger] self@.extend[k] == start.extend[k],
            decreases start.extend.len() - j,
        {
            let influence = self.1[j].influence;
            let ghost before = self.1@;
            let ghost view_before = self@;
            assert(view_before.extend[j as int] == start.extend[j as int]);
            assert(start.extend[j as int].0 == influence);
            if all || influence > above {
                assert(bumped_entry(start.extend[j as int], over, by as int).0 <= usize::MAX);
                self.1[j].influence = influence + by;
                assert(self.1@ == before.update(j as int, Modifier { influence: (influence + by) as usize, inner: before[j as int].inner }));
            }
            assert(self@.extend[j as int] == bumped_entry(start.extend[j as int], over, by as int));
            assert forall|k: int| 0 <= k < j + 1 implies #[trigger] self@.extend[k] == bumped_entry(
                start.extend[k],
                over,
                by as int,
            ) by {
                if k < j {
                    assert(self.1@[k] == before[k]);
                    assert(view_before.extend[k] == bumped_entry(start.extend[k], over, by as int));
                }
            }
            assert forall|k: int| j + 1 <= k < start.extend.len() implies #[trigger] self@.extend[k]
                == start.extend[k] by {
                assert(self.1@[k] == before[k]);
                assert(view_before.extend[k] == start.extend[k]);
            }
            j = j + 1;
        }
        proof {
            assert(self@.native =~= bumped(start, over, by as int).native);
            assert(self@.extend =~= bumped(start, over, by as int).extend);
        }
    }
}

/// How many pieces `split` cuts the texts of `sections[from..to]` into.
fn count_pieces<'a, M>(split: Split, sections: &Vec<Section<'a, M>>, from: usize, to: usize) -> (r: Option<usize>)
    requires
        from <= to <= sections@.len(),
    ensures
        r is None <==> piece_count(split, views(sections@).subrange(from as int, to as int)) > usize::MAX,
        r matches Some(c) ==> c == piece_count(split, views(sections@).subrange(from as int, to as int)),
{
    let ghost all = views(sections@).subrange(from as int, to as int);
    let mut total: usize = 0;
    let mut k: usize = from;
    while k < to
        invariant
            from <= k <= to <= sections@.len(),
            all == views(sections@).subrange(from as int, to as int),
            total == piece_count(split, views(sections@).subrange(from as int, k as int)),
        decreases to - k,
    {
        let ghost next = views(sections@).subrange(from as int, k + 1);
        assert(next.drop_last() =~= views(sections@).subrange(from as int, k as int));
        assert(next.last() == sections@[k as int]@);
        assert(next =~= all.take(k + 1 - from));
        proof {
            lemma_piece_count_prefix(split, all, k + 1 - from);
        }
        let n: usize = match sections[k].get_content() {
            Some(content) => {
                let p = split.iter(content);
                proof {
                    lemma_pieces(split, content@, p@.map_values(|x: &'a [char]| x@));
                }
                p.len()
            },
            None => 0,
        };
        match total.checked_add(n) {
            Some(t) => total = t,
            None => return None,
        }
        k = k + 1;
    }
    assert(all == views(sections@).subrange(from as int, k as int));
    Some(total)
}

/// Takes out of `section` what asks for a cut (see [`extract`]), and gives the
/// value and the range of the cut asked for.
fn extract_from<'a, M>(alias: Option<&[char]>, section: &mut Section<'a, M>) -> (r: Option<(&'a [char], usize)>)
    ensures
        final(section)@ == extract(alias_view(alias), old(section)@).0,
        match r {
            Some((value, n)) => extract(alias_view(alias), old(section)@).1 == Some((value@, n as int)),
            None => extract(alias_view(alias), old(section)@).1 is None,
        },
{
    match alias {
        None => {
            let empty: &'a [char] = &[];
            assert(empty@ =~= Seq::<char>::empty());
            Some((empty, 1))
        },
        Some(name) => match named_position(&section.0.modifiers, name) {
            None => None,
            Some(k) => {
                let ghost before = section@;
                let m = section.0.modifiers.remove(k);
                proof {
                    assert(section@.native =~= before.native.remove(k as int));
                }
                match m.value {
                    Dyn::Dynamic(_) => None,
                    Dyn::Static(value) => Some((value, m.subsection_count)),
                }
            },
        },
    }
}

/// Cuts `cur` (see [`replaced`]), adding to each section cut the modifier
/// `rmods` makes from `value` and `count`.
fn cut<'a, M, R: Rmods<M>>(
    split: Split,
    rmods: &mut R,
    value: &[char],
    count: usize,
    cur: Section<'a, M>,
    Ghost(model): Ghost<SectionView<M>>,
) -> (r: Option<Vec<Section<'a, M>>>)
    requires
        agrees(cur@, model, old(rmods).maker()),
        old(rmods).ready(),
    ensures
        r is None <==> cut_panics(split, model),
        r matches Some(v) ==> all_agree(
            views(v@),
            replaced(split, chopped(old(rmods).chops(), value@, count as int), model),
            old(rmods).maker(),
        ) && v@.len() >= 1,
        final(rmods).chops() == old(rmods).chops(),
        final(rmods).maker() == old(rmods).maker(),
        final(rmods).ready(),
{
    let ghost chops = rmods.chops();
    let ghost made = rmods.maker();
    let ghost adds = chopped::<M>(chops, value@, count as int);
    let mut cur = cur;
    match cur.get_content() {
        None => {
            let mut out: Vec<Section<'a, M>> = Vec::new();
            out.push(cur);
            proof {
                assert(views(out@) =~= seq![out@[0]@]);
            }
            Some(out)
        },
        Some(content) => {
            let ghost p = pieces(split, content@);
            if content.len() == 0 {
                return None;
            }
            let (head, tail) = split.first(content);
            proof {
                lemma_pieces(split, content@, seq![head@] + tail@.map_values(|x: &'a [char]| x@));
                assert(p[0] == head@);
                assert(p.len() == tail@.len() + 1);
            }
            let ghost set = with_text(model, head@);
            cur.set_content(head);
            assert(agrees(cur@, set, made));
            proof {
                lemma_agrees_bumped(cur@, set, -1, tail@.len() as int, made);
            }
            if !cur.fits(true, 0, tail.len()) {
                return None;
            }
            cur.bump(true, 0, tail.len());
            let ghost head_model = bumped(set, -1, tail@.len() as int);
            assert(agrees(cur@, head_model, made));
            let ghost ext_len = cur.1@.len();
            let ghost cur_before = cur@;
            let ghost ext_before = cur.1@;
            let rm = rmods.rmod(value, count);
            if let Some(rm) = rm {
                cur.1.push(rm);
                assert(cur.1@ == ext_before.push(rm));
            }
            let ghost first = SectionView {
                native: head_model.native,
                extend: head_model.extend + adds,
            };
            assert(agrees(cur@, first, made)) by {
                assert forall|j: int| 0 <= j < first.extend.len() implies added_agrees(
                    #[trigger] cur@.extend[j],
                    first.extend[j],
                    made,
                ) by {
                    if j < ext_len {
                        assert(cur.1@[j] == ext_before[j]);
                        assert(cur@.extend[j] == cur_before.extend[j]);
                        assert(first.extend[j] == head_model.extend[j]);
                    } else {
                        assert(chops);
                        assert(first.extend[j] == (1int, Added::<M>::Chopped(value@, count as int)));
                    }
                }
            }
            let ghost tails = p.drop_first().map_values(|piece: Seq<char>| piece_section::<M>(piece, adds));
            let mut out: Vec<Section<'a, M>> = Vec::new();
            out.push(cur);
            let mut k: usize = 0;
            while k < tail.len()
                invariant
                    rmods.chops() == chops,
                    rmods.maker() == made,
                    rmods.ready(),
                    adds == chopped::<M>(chops, value@, count as int),
                    k <= tail@.len(),
                    p == seq![head@] + tail@.map_values(|x: &'a [char]| x@),
                    is_split(split, content@, p),
                    tails == p.drop_first().map_values(|piece: Seq<char>| piece_section::<M>(piece, adds)),
                    all_agree(views(out@), seq![first] + tails.take(k as int), made),
                decreases tail@.len() - k,
            {
                let piece = tail[k];
                assert(p[k + 1] == piece@);
                assert(piece@.len() > 0);
                let rm = rmods.rmod(value, count);
                let mut ext: Vec<Modifier<M>> = Vec::new();
                if let Some(x) = rm {
                    ext.push(x);
                }
                let section = tree::Section::free(piece).unwrap();
                let ghost before = out@;
                out.push(Section(section, ext));
                proof {
                    let model_piece = piece_section::<M>(piece@, adds);
                    assert(tails[k as int] == model_piece);
                    assert(out@[k + 1]@.native =~= model_piece.native);
                    assert(agrees(out@[k + 1]@, model_piece, made));
                    assert(seq![first] + tails.take(k + 1) =~= (seq![first] + tails.take(k as int)).push(model_piece));
                    assert forall|x: int| 0 <= x < k + 2 implies agrees(
                        #[trigger] views(out@)[x],
                        (seq![first] + tails.take(k + 1))[x], made,
                    ) by {
                        if x < k + 1 {
                            assert(out@[x] == before[x]);
                            assert(agrees(views(before)[x], (seq![first] + tails.take(k as int))[x], made));
                        }
                    }
                }
                k = k + 1;
            }
            proof {
                assert(tails.take(tail@.len() as int) =~= tails);
                assert(text_of(model) == Some(content@));
            }
            Some(out)
        },
    }
}

proof fn lemma_agrees_extract<M>(
    alias: Option<Seq<char>>,
    a: SectionView<M>,
    m: SectionView<M>,
    made: spec_fn(Seq<char>, int, M) -> bool,
)
    requires
        agrees(a, m, made),
    ensures
        agrees(extract(alias, a).0, extract(alias, m).0, made),
        extract(alias, a).1 == extract(alias, m).1,
{
}

proof fn lemma_views_add<'a, M>(a: Seq<Section<'a, M>>, b: Seq<Section<'a, M>>)
    ensures
        views(a + b) == views(a) + views(b),
{
    assert(views(a + b) =~= views(a) + views(b));
}

/// Splitting ends the same way, with the same sections or a panic, whatever
/// number of steps it is given to end.
proof fn lemma_run_deterministic<M>(
    split: Split,
    alias: Option<Seq<char>>,
    chops: bool,
    secs: Seq<SectionView<M>>,
    i: int,
    f1: nat,
    f2: nat,
)
    requires
        !(split_run(split, alias, chops, secs, i, f1) is Unfinished),
        !(split_run(split, alias, chops, secs, i, f2) is Unfinished),
    ensures
        split_run(split, alias, chops, secs, i, f1) == split_run(split, alias, chops, secs, i, f2),
    decreases f1,
{
    if i < secs.len() {
        if let Some(next) = split_step(split, alias, chops, secs, i) {
            lemma_run_deterministic(split, alias, chops, next, i + 1, (f1 - 1) as nat, (f2 - 1) as nat);
        }
    }
}

/// A step that panics makes splitting from the start panic.
proof fn lemma_step_panics<M>(
    split: Split,
    alias: Option<Seq<char>>,
    chops: bool,
    init: Seq<SectionView<M>>,
    secs: Seq<SectionView<M>>,
    i: int,
    steps: nat,
)
    requires
        0 <= i < secs.len(),
        split_step(split, alias, chops, secs, i) is None,
        forall|g: nat|
            g >= steps ==> #[trigger] split_run(split, alias, chops, init, 0, g) == split_run(
                split,
                alias,
                chops,
                secs,
                i,
                (g - steps) as nat,
            ),
    ensures
        !split_never_panics(split, alias, chops, init),
{
    assert(split_run(split, alias, chops, init, 0, steps + 1) == split_run(
        split,
        alias,
        chops,
        secs,
        i,
        1,
    ));
    assert(split_run(split, alias, chops, init, 0, steps + 1) is Panics);
}

/// Splits `sections`: at each section in turn, what it asks for is taken out
/// of it and the cut it asks for is made (see [`split_step`]), each section
/// cut getting a modifier from `rmods`; `None` where a step would panic.
#[verifier::rlimit(80)]
fn process<'a, 'b, M, R: Rmods<M>>(
    split: Split,
    alias: Option<&'b [char]>,
    rmods: &mut R,
    sections: Vec<Section<'a, M>>,
) -> (r: Option<Vec<Section<'a, M>>>)
    requires
        old(rmods).ready(),
    ensures
        r is None ==> !split_never_panics(
            split,
            alias_view(alias),
            old(rmods).chops(),
            views(sections@),
        ),
        r matches Some(v) ==> splits_cleanly(
            split,
            alias_view(alias),
            old(rmods).chops(),
            views(sections@),
        ) && all_agree(
            views(v@),
            split_outcome(split, alias_view(alias), old(rmods).chops(), views(sections@)),
            old(rmods).maker(),
        ),
        final(rmods).chops() == old(rmods).chops(),
        final(rmods).maker() == old(rmods).maker(),
        final(rmods).ready(),
{
    let ghost chops = rmods.chops();
    let ghost made = rmods.maker();
    let ghost av = alias_view(alias);
    let ghost init = views(sections@);
    assert(chops == old(rmods).chops());
    proof {
        lemma_run_ends(split, av, chops, init, 0);
    }
    let ghost f0 = choose|fuel: nat| !(#[trigger] split_run(split, av, chops, init, 0, fuel) is Unfinished);
    let ghost mut fuel: nat = f0;
    let ghost mut steps: nat = 0;
    let ghost mut model = init;
    let mut sections = sections;
    let mut i: usize = 0;
    #[verifier::loop_isolation(false)]
    loop
        invariant
            rmods.chops() == chops,
            rmods.maker() == made,
            rmods.ready(),
            av == alias_view(alias),
            all_agree(views(sections@), model, made),
            forall|g: nat|
                g >= steps ==> #[trigger] split_run(split, av, chops, init, 0, g) == split_run(
                    split,
                    av,
                    chops,
                    model,
                    i as int,
                    (g - steps) as nat,
                ),
            !(split_run(split, av, chops, model, i as int, fuel) is Unfinished),
        decreases fuel,
    {
        if i >= sections.len() {
            proof {
                assert(split_run(split, av, chops, init, 0, steps) == Outcome::<M>::Finished(model));
                let f = choose|fuel: nat| #[trigger] split_run(split, av, chops, init, 0, fuel) is Finished;
                lemma_run_deterministic(split, av, chops, init, 0, steps, f);
            }
            return Some(sections);
        }
        let ghost ms = extract(av, model[i as int]).0;
        let ghost after = model.update(i as int, ms);
        assert(agrees(views(sections@)[i as int], model[i as int], made));
        proof {
            lemma_agrees_extract(av, sections@[i as int]@, model[i as int], made);
        }
        let ghost before = sections@;
        let found = extract_from(alias, &mut sections[i]);
        assert(all_agree(views(sections@), after, made)) by {
            assert forall|k: int| 0 <= k < after.len() implies agrees(
                #[trigger] views(sections@)[k],
                after[k], made,
            ) by {
                if k != i {
                    assert(sections@[k] == before[k]);
                    assert(agrees(views(before)[k], model[k], made));
                }
            }
        }
        match found {
            None => {
                proof {
                    assert(split_step(split, av, chops, model, i as int) == Some(after));
                    assert forall|g: nat| g >= steps + 1 implies #[trigger] split_run(
                        split,
                        av,
                        chops,
                        init,
                        0,
                        g,
                    ) == split_run(split, av, chops, after, i + 1, (g - (steps + 1)) as nat) by {
                        assert(split_run(split, av, chops, init, 0, g) == split_run(
                            split,
                            av,
                            chops,
                            model,
                            i as int,
                            (g - steps) as nat,
                        ));
                    }
                    model = after;
                }
            },
            Some((value, n)) => {
                if n > sections.len() - i {
                    proof {
                        assert(split_step(split, av, chops, model, i as int) is None);
                        lemma_step_panics(split, av, chops, init, model, i as int, steps);
                    }
                    return None;
                }
                let ghost middle = after.subrange(i as int, i + n);
                proof {
                    lemma_all_agree_subrange(views(sections@), after, i as int, i + n, made);
                    lemma_piece_count_agree(split, views(sections@).subrange(i as int, i + n), middle, made);
                }
                let count = match count_pieces(split, &sections, i, i + n) {
                    Some(c) => c,
                    None => {
                        proof {
                            assert(split_step(split, av, chops, model, i as int) is None);
                            lemma_step_panics(split, av, chops, init, model, i as int, steps);
                        }
                        return None;
                    },
                };
                let ghost adds = chopped::<M>(chops, value@, count as int);
                let ghost whole = sections@;
                let mut end = sections.split_off(i + n);
                let mut middle_secs = sections.split_off(i);
                proof {
                    assert(views(middle_secs@) =~= views(whole).subrange(i as int, i + n));
                    assert(views(end@) =~= views(whole).subrange(i + n, whole.len() as int));
                    assert(views(sections@) =~= views(whole).subrange(0, i as int));
                    lemma_all_agree_subrange(views(whole), after, i + n, whole.len() as int, made);
                    lemma_all_agree_subrange(views(whole), after, 0, i as int, made);
                }
                let mut cut_secs: Vec<Section<'a, M>> = Vec::new();
                let ghost mut j: int = 0;
                proof {
                    assert(middle.skip(0) =~= middle);
                    assert(middle.take(0).len() == 0);
                    assert(views(cut_secs@) =~= cut_all(split, adds, middle.take(0)));
                }
                #[verifier::loop_isolation(false)]
                while middle_secs.len() > 0
                    invariant
                        rmods.chops() == chops,
                        rmods.maker() == made,
                        rmods.ready(),
                        adds == chopped::<M>(chops, value@, count as int),
                        count == piece_count(split, middle),
                        middle.len() == n,
                        0 <= j <= n,
                        middle_secs@.len() == n - j,
                        all_agree(views(middle_secs@), middle.skip(j), made),
                        all_agree(views(cut_secs@), cut_all(split, adds, middle.take(j)), made),
                        cut_secs@.len() >= j,
                        forall|x: int| 0 <= x < j ==> !cut_panics(split, #[trigger] middle[x]),
                        piece_count(split, middle) <= usize::MAX,
                        i + n <= model.len(),
                        0 <= i < model.len(),
                        middle == after.subrange(i as int, i + n),
                        after == model.update(i as int, extract(av, model[i as int]).0),
                        extract(av, model[i as int]).1 == Some((value@, n as int)),
                        forall|g: nat|
                            g >= steps ==> #[trigger] split_run(split, av, chops, init, 0, g) == split_run(
                                split,
                                av,
                                chops,
                                model,
                                i as int,
                                (g - steps) as nat,
                            ),
                    decreases middle_secs@.len(),
                {
                    let ghost rest = middle_secs@;
                    let cur = middle_secs.remove(0);
                    assert(agrees(views(rest)[0], middle.skip(j)[0], made));
                    assert(middle.skip(j)[0] == middle[j]);
                    let mut out = match cut(split, rmods, value, count, cur, Ghost(middle[j])) {
                        Some(out) => out,
                        None => {
                            proof {
                                assert(cut_panics(split, middle[j]));
                                assert(split_step(split, av, chops, model, i as int) is None);
                                lemma_step_panics(split, av, chops, init, model, i as int, steps);
                            }
                            return None;
                        },
                    };
                    let ghost done = cut_secs@;
                    let ghost out_v = out@;
                    cut_secs.append(&mut out);
                    proof {
                        let ghost taken = middle.take(j + 1);
                        assert(taken.drop_last() =~= middle.take(j));
                        assert(taken.last() == middle[j]);
                        lemma_views_add(done, out_v);
                        lemma_all_agree_add(
                            views(done),
                            cut_all(split, adds, middle.take(j)),
                            views(out_v),
                            replaced(split, adds, middle[j]), made,
                        );
                        assert(cut_secs@ =~= done + out_v);
                        assert(middle_secs@ =~= rest.drop_first());
                        assert forall|x: int| 0 <= x < n - j - 1 implies agrees(
                            #[trigger] views(middle_secs@)[x],
                            middle.skip(j + 1)[x], made,
                        ) by {
                            assert(views(middle_secs@)[x] == views(rest)[x + 1]);
                            assert(middle.skip(j + 1)[x] == middle.skip(j)[x + 1]);
                        }
                        j = j + 1;
                    }
                }
                proof {
                    assert(middle.take(n as int) =~= middle);
                }
                let added = cut_secs.len() - n;
                let ghost start = after.take(i as int);
                assert forall|x: int| 0 <= x < i implies agrees(#[trigger] sections@[x]@, start[x], made) by {
                    assert(views(sections@)[x] == sections@[x]@);
                    assert(agrees(views(whole).subrange(0, i as int)[x], after.subrange(0, i as int)[x], made));
                }
                let mut p: usize = 0;
                #[verifier::loop_isolation(false)]
                while p < i
                    invariant
                        sections@.len() == i,
                        p <= i,
                        start == after.take(i as int),
                        forall|x: int| 0 <= x < p ==> bump_fits(#[trigger] start[x], i - x, added as int),
                        start.len() == i,
                        forall|x: int| 0 <= x < n ==> !cut_panics(split, #[trigger] middle[x]),
                        piece_count(split, middle) <= usize::MAX,
                        i + n <= model.len(),
                        middle == after.subrange(i as int, i + n),
                        after == model.update(i as int, extract(av, model[i as int]).0),
                        extract(av, model[i as int]).1 == Some((value@, n as int)),
                        added == cut_all(split, adds, middle).len() - n,
                        adds == chopped::<M>(chops, value@, piece_count(split, middle)),
                        forall|g: nat|
                            g >= steps ==> #[trigger] split_run(split, av, chops, init, 0, g) == split_run(
                                split,
                                av,
                                chops,
                                model,
                                i as int,
                                (g - steps) as nat,
                            ),
                        forall|x: int|
                            0 <= x < p ==> agrees(
                                #[trigger] sections@[x]@,
                                bumped(start[x], i - x, added as int), made,
                            ),
                        forall|x: int| p <= x < i ==> agrees(#[trigger] sections@[x]@, start[x], made),
                    decreases i - p,
                {
                    proof {
                        lemma_agrees_bumped(sections@[p as int]@, start[p as int], i - p, added as int, made);
                    }
                    if !sections[p].fits(false, i - p, added) {
                        proof {
                            assert(!bump_fits(start[p as int], i - p, added as int));
                            assert(split_step(split, av, chops, model, i as int) is None);
                            lemma_step_panics(split, av, chops, init, model, i as int, steps);
                        }
                        return None;
                    }
                    let ghost before = sections@;
                    sections[p].bump(false, i - p, added);
                    proof {
                        assert forall|x: int| 0 <= x < p + 1 implies agrees(
                            #[trigger] sections@[x]@,
                            bumped(start[x], i - x, added as int), made,
                        ) by {
                            if x < p {
                                assert(sections@[x] == before[x]);
                            }
                        }
                        assert forall|x: int| p + 1 <= x < i implies agrees(
                            #[trigger] sections@[x]@,
                            start[x], made,
                        ) by {
                            assert(sections@[x] == before[x]);
                        }
                    }
                    p = p + 1;
                }
                let ghost first_part = sections@;
                let ghost cut_part = cut_secs@;
                let ghost end_part = end@;
                sections.append(&mut cut_secs);
                sections.append(&mut end);
                proof {
                    assert(all_agree(views(first_part), stretched(start, i as int, added as int), made)) by {
                        assert forall|x: int| 0 <= x < i implies agrees(
                            #[trigger] views(first_part)[x],
                            stretched(start, i as int, added as int)[x], made,
                        ) by {
                            assert(agrees(first_part[x]@, bumped(start[x], i - x, added as int), made));
                        }
                    }
                    lemma_all_agree_add(
                        views(first_part),
                        stretched(start, i as int, added as int),
                        views(cut_part),
                        cut_all(split, adds, middle), made,
                    );
                    lemma_all_agree_add(
                        views(first_part) + views(cut_part),
                        stretched(start, i as int, added as int) + cut_all(split, adds, middle),
                        views(end_part),
                        after.skip(i + n), made,
                    );
                    assert(views(sections@) =~= views(first_part) + views(cut_part) + views(end_part));
                    assert(after.subrange(i + n, after.len() as int) =~= after.skip(i + n));
                    assert(split_step(split, av, chops, model, i as int) == Some(
                        stretched(start, i as int, added as int) + cut_all(split, adds, middle) + after.skip(
                            i + n,
                        ),
                    ));
                    let next = stretched(start, i as int, added as int) + cut_all(split, adds, middle)
                        + after.skip(i + n);
                    assert forall|g: nat| g >= steps + 1 implies #[trigger] split_run(
                        split,
                        av,
                        chops,
                        init,
                        0,
                        g,
                    ) == split_run(split, av, chops, next, i + 1, (g - (steps + 1)) as nat) by {
                        assert(split_run(split, av, chops, init, 0, g) == split_run(
                            split,
                            av,
                            chops,
                            model,
                            i as int,
                            (g - steps) as nat,
                        ));
                    }
                    model = next;
                }
            },
        }
        i = i + 1;
        proof {
            fuel = (fuel - 1) as nat;
            steps = steps + 1;
        }
    }
}

/// The texts of the sections `secs`, one after the other; a section without
/// text adds nothing.
pub open spec fn full_text<M>(secs: Seq<SectionView<M>>) -> Seq<char>
    decreases secs.len(),
{
    if secs.len() == 0 {
        Seq::empty()
    } else {
        full_text(secs.drop_last()) + match text_of(secs.last()) {
            Some(text) => text,
            None => Seq::empty(),
        }
    }
}

proof fn lemma_full_text_add<M>(a: Seq<SectionView<M>>, b: Seq<SectionView<M>>)
    ensures
        full_text(a + b) == full_text(a) + full_text(b),
    decreases b.len(),
{
    if b.len() == 0 {
        assert(a + b =~= a);
        assert(full_text(a) + full_text(b) =~= full_text(a));
    } else {
        lemma_full_text_add(a, b.drop_last());
        assert((a + b).drop_last() =~= a + b.drop_last());
        assert((a + b).last() == b.last());
        let t = match text_of(b.last()) {
            Some(text) => text,
            None => Seq::empty(),
        };
        assert(full_text(a) + full_text(b.drop_last()) + t =~= full_text(a) + (full_text(b.drop_last()) + t));
    }
}

/// Two sections with the same names and values of parsed modifiers, in the
/// same order, have the same text.
proof fn lemma_text_of_same_values<M>(a: SectionView<M>, b: SectionView<M>)
    requires
        a.native.len() == b.native.len(),
        forall|k: int|
            0 <= k < a.native.len() ==> (#[trigger] a.native[k]).name == b.native[k].name
                && a.native[k].value == b.native[k].value,
    ensures
        text_of(a) == text_of(b),
{
    if let Some(t) = text_index(a.native) {
        let t0 = choose|k: int| is_first_text(a.native, k);
        assert(is_first_text(a.native, t0));
        assert(a.native[t0].name == b.native[t0].name);
        assert forall|j: int| 0 <= j < t0 implies !is_text(#[trigger] b.native[j]) by {
            assert(!is_text(a.native[j]));
            assert(a.native[j].name == b.native[j].name);
        }
        lemma_text_index(b.native, t0);
    } else if let Some(t) = text_index(b.native) {
        let t0 = choose|k: int| is_first_text(b.native, k);
        assert(is_first_text(b.native, t0));
        assert(a.native[t0].name == b.native[t0].name);
        assert forall|j: int| 0 <= j < t0 implies !is_text(#[trigger] a.native[j]) by {
            assert(!is_text(b.native[j]));
            assert(a.native[j].name == b.native[j].name);
        }
        lemma_text_index(a.native, t0);
    }
}

proof fn lemma_text_of_bumped<M>(s: SectionView<M>, above: int, by: int)
    ensures
        text_of(bumped(s, above, by)) == text_of(s),
{
    lemma_text_of_same_values(bumped(s, above, by), s);
}

/// Sections with the same texts, one for one, have the same full text.
proof fn lemma_full_text_same<M>(a: Seq<SectionView<M>>, b: Seq<SectionView<M>>)
    requires
        a.len() == b.len(),
        forall|k: int| 0 <= k < a.len() ==> text_of(#[trigger] a[k]) == text_of(b[k]),
    ensures
        full_text(a) == full_text(b),
    decreases a.len(),
{
    if a.len() > 0 {
        lemma_full_text_same(a.drop_last(), b.drop_last());
        assert(text_of(a[a.len() - 1]) == text_of(b[b.len() - 1]));
    }
}

proof fn lemma_full_text_pieces<M>(p: Seq<Seq<char>>, adds: Seq<(int, Added<M>)>)
    ensures
        full_text(p.map_values(|piece: Seq<char>| piece_section::<M>(piece, adds))) == p.flatten(),
    decreases p.len(),
{
    let secs = p.map_values(|piece: Seq<char>| piece_section::<M>(piece, adds));
    if p.len() == 0 {
        assert(p.flatten() =~= Seq::<char>::empty());
    } else {
        lemma_full_text_pieces::<M>(p.drop_last(), adds);
        assert(secs.drop_last() =~= p.drop_last().map_values(
            |piece: Seq<char>| piece_section::<M>(piece, adds),
        ));
        let last = piece_section::<M>(p.last(), adds);
        assert(secs.last() == last);
        assert(is_first_text(last.native, 0));
        lemma_text_index(last.native, 0);
        assert(text_of(last) == Some(p.last()));
        p.drop_last().lemma_flatten_push(p.last());
        assert(p.drop_last().push(p.last()) =~= p);
    }
}

/// Cutting a section keeps its text.
proof fn lemma_full_text_replaced<M>(split: Split, adds: Seq<(int, Added<M>)>, s: SectionView<M>)
    requires
        !cut_panics(split, s),
    ensures
        full_text(replaced(split, adds, s)) == match text_of(s) {
            Some(text) => text,
            None => Seq::empty(),
        },
{
    let r = replaced(split, adds, s);
    match text_of(s) {
        None => {
            assert(r.drop_last() =~= Seq::<SectionView<M>>::empty());
            assert(r.last() == s);
            assert(full_text(Seq::<SectionView<M>>::empty()) =~= Seq::<char>::empty());
            assert(full_text(r) =~= Seq::<char>::empty());
        },
        Some(text) => {
            let p = pieces(split, text);
            lemma_pieces_exist(split, text);
            if p.len() == 0 {
                assert(p.flatten() =~= Seq::<char>::empty());
            }
            let t = text_index(s.native)->Some_0;
            let t0 = choose|k: int| is_first_text(s.native, k);
            assert(is_first_text(s.native, t0));
            let w = with_text(s, p[0]);
            assert(is_first_text(w.native, t0)) by {
                assert forall|j: int| 0 <= j < t0 implies !is_text(#[trigger] w.native[j]) by {
                    assert(w.native[j] == s.native[j]);
                    assert(!is_text(s.native[j]));
                }
            }
            lemma_text_index(w.native, t0);
            let head_bumped = bumped(w, -1, p.len() - 1);
            lemma_text_of_bumped(w, -1, p.len() - 1);
            let head = SectionView { native: head_bumped.native, extend: head_bumped.extend + adds };
            lemma_text_of_same_values(head, head_bumped);
            assert(text_of(head) == Some(p[0]));
            let tails = p.drop_first().map_values(|piece: Seq<char>| piece_section::<M>(piece, adds));
            lemma_full_text_pieces::<M>(p.drop_first(), adds);
            lemma_full_text_add(seq![head], tails);
            assert(seq![head].drop_last() =~= Seq::<SectionView<M>>::empty());
            assert(seq![head].last() == head);
            assert(full_text(Seq::<SectionView<M>>::empty()) =~= Seq::<char>::empty());
            assert(full_text(seq![head]) =~= p[0]);
            assert(r == seq![head] + tails);
            assert(p.flatten() == p[0] + p.drop_first().flatten());
        },
    }
}

proof fn lemma_full_text_cut_all<M>(
    split: Split,
    adds: Seq<(int, Added<M>)>,
    secs: Seq<SectionView<M>>,
)
    requires
        forall|j: int| 0 <= j < secs.len() ==> !cut_panics(split, #[trigger] secs[j]),
    ensures
        full_text(cut_all(split, adds, secs)) == full_text(secs),
    decreases secs.len(),
{
    if secs.len() > 0 {
        assert(!cut_panics(split, secs[secs.len() - 1]));
        assert forall|j: int| 0 <= j < secs.drop_last().len() implies !cut_panics(
            split,
            #[trigger] secs.drop_last()[j],
        ) by {
            assert(!cut_panics(split, secs[j]));
        }
        lemma_full_text_cut_all(split, adds, secs.drop_last());
        lemma_full_text_replaced(split, adds, secs.last());
        lemma_full_text_add(cut_all(split, adds, secs.drop_last()), replaced(split, adds, secs.last()));
    }
}

/// Taking out of a section a modifier not named `Content` keeps its text.
proof fn lemma_text_of_remove<M>(s: SectionView<M>, k: int)
    requires
        0 <= k < s.native.len(),
        s.native[k].name != content_name(),
    ensures
        text_of(SectionView { native: s.native.remove(k), extend: s.extend }) == text_of(s),
{
    let r = SectionView { native: s.native.remove(k), extend: s.extend };
    if let Some(t) = text_index(s.native) {
        let t0 = choose|x: int| is_first_text(s.native, x);
        assert(is_first_text(s.native, t0));
        assert(t0 != k);
        let u = if t0 < k { t0 } else { t0 - 1 };
        assert(r.native[u] == s.native[t0]);
        assert forall|j: int| 0 <= j < u implies !is_text(#[trigger] r.native[j]) by {
            if j < k {
                assert(r.native[j] == s.native[j]);
            } else {
                assert(r.native[j] == s.native[j + 1]);
            }
        }
        lemma_text_index(r.native, u);
    } else if let Some(t) = text_index(r.native) {
        let u = choose|x: int| is_first_text(r.native, x);
        assert(is_first_text(r.native, u));
        let t0 = if u < k { u } else { u + 1 };
        assert(r.native[u] == s.native[t0]);
        assert forall|j: int| 0 <= j < t0 implies !is_text(#[trigger] s.native[j]) by {
            if j < k {
                assert(r.native[j] == s.native[j]);
            } else if j > k {
                assert(r.native[j - 1] == s.native[j]);
            }
        }
        lemma_text_index(s.native, t0);
    }
}

proof fn lemma_full_text_step<M>(
    split: Split,
    alias: Option<Seq<char>>,
    chops: bool,
    secs: Seq<SectionView<M>>,
    i: int,
)
    requires
        0 <= i < secs.len(),
        alias != Some(content_name()),
        split_step(split, alias, chops, secs, i) is Some,
    ensures
        full_text(split_step(split, alias, chops, secs, i)->Some_0) == full_text(secs),
{
    let (s, cut) = extract(alias, secs[i]);
    match alias {
        None => {},
        Some(a) => match named_index(secs[i].native, a) {
            None => {},
            Some(k) => {
                let k0 = choose|x: int| is_first_named(secs[i].native, a, x);
                assert(is_first_named(secs[i].native, a, k0));
                lemma_text_of_remove(secs[i], k0);
            },
        },
    }
    assert(text_of(s) == text_of(secs[i]));
    let after = secs.update(i, s);
    assert forall|k: int| 0 <= k < after.len() implies text_of(#[trigger] after[k]) == text_of(secs[k]) by {}
    lemma_full_text_same(after, secs);
    if let Some((v, n)) = cut {
        let middle = after.subrange(i, i + n);
        let start = after.take(i);
        let rest = after.skip(i + n);
        let adds = chopped::<M>(chops, v, piece_count(split, middle));
        let cut_secs = cut_all(split, adds, middle);
        let added = cut_secs.len() - n;
        assert forall|j: int| 0 <= j < middle.len() implies !cut_panics(split, #[trigger] middle[j]) by {}
        lemma_full_text_cut_all(split, adds, middle);
        let st = stretched(start, i, added);
        assert forall|k: int| 0 <= k < st.len() implies text_of(#[trigger] st[k]) == text_of(start[k]) by {
            lemma_text_of_bumped(start[k], i - k, added);
        }
        lemma_full_text_same(st, start);
        lemma_full_text_add(st, cut_secs);
        lemma_full_text_add(st + cut_secs, rest);
        assert(after =~= start + middle + rest);
        lemma_full_text_add(start, middle);
        lemma_full_text_add(start + middle, rest);
    }
}

proof fn lemma_full_text_run<M>(
    split: Split,
    alias: Option<Seq<char>>,
    chops: bool,
    secs: Seq<SectionView<M>>,
    i: int,
    fuel: nat,
)
    requires
        0 <= i,
        alias != Some(content_name()),
        split_run(split, alias, chops, secs, i, fuel) is Finished,
    ensures
        full_text(split_run(split, alias, chops, secs, i, fuel)->Finished_0) == full_text(secs),
    decreases fuel,
{
    if i < secs.len() {
        lemma_full_text_step(split, alias, chops, secs, i);
        lemma_full_text_run(
            split,
            alias,
            chops,
            split_step(split, alias, chops, secs, i)->Some_0,
            i + 1,
            (fuel - 1) as nat,
        );
    }
}

/// Splitting keeps the text: the texts of the sections split, one after the
/// other, are those of `secs`, unless the modifiers that ask for cuts are
/// named `Content`.
pub proof fn law_split_keeps_text<M>(
    split: Split,
    alias: Option<Seq<char>>,
    chops: bool,
    secs: Seq<SectionView<M>>,
)
    requires
        split_never_panics(split, alias, chops, secs),
        alias != Some(content_name()),
    ensures
        full_text(split_outcome(split, alias, chops, secs)) == full_text(secs),
{
    lemma_splits_cleanly(split, alias, chops, secs);
    let fuel = choose|fuel: nat| #[trigger] split_run(split, alias, chops, secs, 0, fuel) is Finished;
    lemma_full_text_run(split, alias, chops, secs, 0, fuel);
}

/// How many more sections cutting `text` adds: its pieces past the first.
pub open spec fn excess(split: Split, text: Seq<char>) -> nat {
    if pieces(split, text).len() > 0 {
        (pieces(split, text).len() - 1) as nat
    } else {
        0
    }
}

/// What the modifier `m` adds to the excess of its section: that of its text
/// if it holds one.
pub open spec fn text_excess(split: Split, m: ModifierView) -> nat {
    if is_text(m) {
        excess(split, m.value->Static_0)
    } else {
        0
    }
}

/// The excess of the texts the modifiers `mods` hold.
pub open spec fn mods_excess(split: Split, mods: Seq<ModifierView>) -> nat
    decreases mods.len(),
{
    if mods.len() == 0 {
        0
    } else {
        mods_excess(split, mods.drop_last()) + text_excess(split, mods.last())
    }
}

/// The excess of the texts of the sections `secs`: how many more sections
/// cutting them all could add.
pub open spec fn secs_excess<M>(split: Split, secs: Seq<SectionView<M>>) -> nat
    decreases secs.len(),
{
    if secs.len() == 0 {
        0
    } else {
        secs_excess(split, secs.drop_last()) + mods_excess(split, secs.last().native)
    }
}

proof fn lemma_secs_excess_add<M>(split: Split, a: Seq<SectionView<M>>, b: Seq<SectionView<M>>)
    ensures
        secs_excess(split, a + b) == secs_excess(split, a) + secs_excess(split, b),
    decreases b.len(),
{
    if b.len() == 0 {
        assert(a + b =~= a);
    } else {
        lemma_secs_excess_add(split, a, b.drop_last());
        assert((a + b).drop_last() =~= a + b.drop_last());
        assert((a + b).last() == b.last());
    }
}

proof fn lemma_mods_excess_update(split: Split, mods: Seq<ModifierView>, t: int, m: ModifierView)
    requires
        0 <= t < mods.len(),
    ensures
        mods_excess(split, mods.update(t, m)) + text_excess(split, mods[t]) == mods_excess(split, mods)
            + text_excess(split, m),
    decreases mods.len(),
{
    let u = mods.update(t, m);
    if t == mods.len() - 1 {
        assert(u.drop_last() =~= mods.drop_last());
    } else {
        lemma_mods_excess_update(split, mods.drop_last(), t, m);
        assert(u.drop_last() =~= mods.drop_last().update(t, m));
    }
}

proof fn lemma_mods_excess_remove(split: Split, mods: Seq<ModifierView>, k: int)
    requires
        0 <= k < mods.len(),
    ensures
        mods_excess(split, mods.remove(k)) + text_excess(split, mods[k]) == mods_excess(split, mods),
    decreases mods.len(),
{
    let r = mods.remove(k);
    if k == mods.len() - 1 {
        assert(r =~= mods.drop_last());
    } else {
        lemma_mods_excess_remove(split, mods.drop_last(), k);
        assert(r.drop_last() =~= mods.drop_last().remove(k));
        assert(r.last() == mods.last());
    }
}

proof fn lemma_mods_excess_same(split: Split, a: Seq<ModifierView>, b: Seq<ModifierView>)
    requires
        a.len() == b.len(),
        forall|k: int|
            0 <= k < a.len() ==> (#[trigger] a[k]).name == b[k].name && a[k].value == b[k].value,
    ensures
        mods_excess(split, a) == mods_excess(split, b),
    decreases a.len(),
{
    if a.len() > 0 {
        lemma_mods_excess_same(split, a.drop_last(), b.drop_last());
        assert(a[a.len() - 1].name == b[b.len() - 1].name);
    }
}

/// A piece of a text is cut into itself alone.
proof fn lemma_piece_excess(split: Split, text: Seq<char>, p: Seq<Seq<char>>, x: int)
    requires
        is_split(split, text, p),
        0 <= x < p.len(),
    ensures
        excess(split, p[x]) == 0,
{
    let piece = p[x];
    let alone = seq![piece];
    assert(alone.drop_first() =~= Seq::<Seq<char>>::empty());
    assert(alone.flatten() == piece + alone.drop_first().flatten());
    assert(alone.flatten() =~= piece);
    assert forall|a: int, y: int| 0 <= a < alone.len() && 0 <= y < alone[a].len() - 1 implies !ends_piece(
        split,
        #[trigger] alone[a][y],
    ) by {
        assert(p[x][y] == alone[a][y]);
    }
    assert(is_split(split, piece, alone));
    lemma_pieces(split, piece, alone);
}

proof fn lemma_pieces_excess<M>(
    split: Split,
    text: Seq<char>,
    p: Seq<Seq<char>>,
    from: int,
    adds: Seq<(int, Added<M>)>,
)
    requires
        is_split(split, text, p),
        0 <= from <= p.len(),
    ensures
        secs_excess(
            split,
            p.skip(from).map_values(|piece: Seq<char>| piece_section::<M>(piece, adds)),
        ) == 0,
    decreases p.len() - from,
{
    let secs = p.skip(from).map_values(|piece: Seq<char>| piece_section::<M>(piece, adds));
    if from < p.len() {
        lemma_pieces_excess::<M>(split, text, p, from + 1, adds);
        let rest = p.skip(from + 1).map_values(|piece: Seq<char>| piece_section::<M>(piece, adds));
        assert(secs =~= seq![piece_section::<M>(p[from], adds)] + rest);
        lemma_secs_excess_add(split, seq![piece_section::<M>(p[from], adds)], rest);
        lemma_piece_excess(split, text, p, from);
        let single = seq![piece_section::<M>(p[from], adds)];
        assert(single.drop_last() =~= Seq::<SectionView<M>>::empty());
        assert(secs_excess(split, Seq::<SectionView<M>>::empty()) == 0);
        assert(single.last() == piece_section::<M>(p[from], adds));
        let native = single.last().native;
        assert(native.drop_last() =~= Seq::<ModifierView>::empty());
        assert(mods_excess(split, Seq::<ModifierView>::empty()) == 0);
        assert(is_text(native.last()));
        assert(text_excess(split, native.last()) == excess(split, p[from]));
        assert(mods_excess(split, native) == 0);
        assert(secs_excess(split, single) == 0);
    } else {
        assert(secs.len() == 0);
    }
}

/// Cutting a section takes away the excess of its text; a cut that adds
/// sections takes away some.
proof fn lemma_replaced_excess<M>(split: Split, adds: Seq<(int, Added<M>)>, s: SectionView<M>)
    requires
        !cut_panics(split, s),
    ensures
        replaced(split, adds, s).len() >= 1,
        secs_excess(split, replaced(split, adds, s)) + (if replaced(split, adds, s).len() > 1 {
            1int
        } else {
            0int
        }) <= mods_excess(split, s.native),
{
    let r = replaced(split, adds, s);
    assert(secs_excess(split, Seq::<SectionView<M>>::empty()) == 0);
    match text_of(s) {
        None => {
            assert(r.drop_last() =~= Seq::<SectionView<M>>::empty());
            assert(r.last() == s);
        },
        Some(text) => {
            lemma_pieces_exist(split, text);
            let p = pieces(split, text);
            if p.len() == 0 {
                assert(p.flatten() =~= Seq::<char>::empty());
            }
            let t = choose|k: int| is_first_text(s.native, k);
            assert(is_first_text(s.native, t));
            let w = with_text(s, p[0]);
            let head_bumped = bumped(w, -1, p.len() - 1);
            let head = SectionView { native: head_bumped.native, extend: head_bumped.extend + adds };
            lemma_mods_excess_same(split, head_bumped.native, w.native);
            lemma_mods_excess_update(
                split,
                s.native,
                t,
                ModifierView { value: ValueView::Static(p[0]), ..s.native[t] },
            );
            lemma_piece_excess(split, text, p, 0);
            assert(text_excess(split, s.native[t]) == excess(split, text));
            let tails = p.drop_first().map_values(|piece: Seq<char>| piece_section::<M>(piece, adds));
            lemma_pieces_excess::<M>(split, text, p, 1, adds);
            assert(p.skip(1) =~= p.drop_first());
            assert(r == seq![head] + tails);
            lemma_secs_excess_add(split, seq![head], tails);
            assert(seq![head].drop_last() =~= Seq::<SectionView<M>>::empty());
            assert(seq![head].last() == head);
            assert(secs_excess(split, seq![head]) == mods_excess(split, head.native));
            assert(w.native == s.native.update(
                t,
                ModifierView { value: ValueView::Static(p[0]), ..s.native[t] },
            ));
            assert(text_excess(split, ModifierView { value: ValueView::Static(p[0]), ..s.native[t] })
                == 0);
            if p.len() > 1 {
                assert(excess(split, text) >= 1);
            }
        },
    }
}

proof fn lemma_cut_all_excess<M>(split: Split, adds: Seq<(int, Added<M>)>, m: Seq<SectionView<M>>)
    requires
        forall|j: int| 0 <= j < m.len() ==> !cut_panics(split, #[trigger] m[j]),
    ensures
        cut_all(split, adds, m).len() >= m.len(),
        secs_excess(split, cut_all(split, adds, m)) + (if cut_all(split, adds, m).len() > m.len() {
            1int
        } else {
            0int
        }) <= secs_excess(split, m),
    decreases m.len(),
{
    if m.len() > 0 {
        assert forall|j: int| 0 <= j < m.drop_last().len() implies !cut_panics(
            split,
            #[trigger] m.drop_last()[j],
        ) by {
            assert(!cut_panics(split, m[j]));
        }
        assert(!cut_panics(split, m[m.len() - 1]));
        lemma_cut_all_excess(split, adds, m.drop_last());
        lemma_replaced_excess(split, adds, m.last());
        lemma_secs_excess_add(split, cut_all(split, adds, m.drop_last()), replaced(split, adds, m.last()));
    }
}

proof fn lemma_secs_excess_skip<M>(split: Split, secs: Seq<SectionView<M>>, i: int)
    requires
        0 <= i < secs.len(),
    ensures
        secs_excess(split, secs.skip(i)) == mods_excess(split, secs[i].native) + secs_excess(
            split,
            secs.skip(i + 1),
        ),
{
    assert(secs.skip(i) =~= seq![secs[i]] + secs.skip(i + 1));
    lemma_secs_excess_add(split, seq![secs[i]], secs.skip(i + 1));
    assert(seq![secs[i]].drop_last() =~= Seq::<SectionView<M>>::empty());
    assert(secs_excess(split, Seq::<SectionView<M>>::empty()) == 0);
    assert(seq![secs[i]].last() == secs[i]);
}

/// A step of splitting lowers the excess of the sections from the next one,
/// or keeps it and the number of sections.
proof fn lemma_step_excess<M>(
    split: Split,
    alias: Option<Seq<char>>,
    chops: bool,
    secs: Seq<SectionView<M>>,
    i: int,
)
    requires
        0 <= i < secs.len(),
        split_step(split, alias, chops, secs, i) is Some,
    ensures
        ({
            let next = split_step(split, alias, chops, secs, i)->Some_0;
            let before = secs_excess(split, secs.skip(i));
            let after = secs_excess(split, next.skip(i + 1));
            &&& after <= before
            &&& after < before || next.len() <= secs.len()
        }),
{
    let next = split_step(split, alias, chops, secs, i)->Some_0;
    let (s, cut) = extract(alias, secs[i]);
    let after = secs.update(i, s);
    assert(mods_excess(split, s.native) <= mods_excess(split, secs[i].native)) by {
        match alias {
            None => {},
            Some(a) => match named_index(secs[i].native, a) {
                None => {},
                Some(k) => {
                    let k0 = choose|x: int| is_first_named(secs[i].native, a, x);
                    assert(is_first_named(secs[i].native, a, k0));
                    lemma_mods_excess_remove(split, secs[i].native, k0);
                },
            },
        }
    }
    lemma_secs_excess_skip(split, secs, i);
    lemma_secs_excess_skip(split, after, i);
    assert(after.skip(i + 1) =~= secs.skip(i + 1));
    match cut {
        None => {
            assert(next == after);
        },
        Some((v, n)) => {
            let middle = after.subrange(i, i + n);
            let start = after.take(i);
            let rest = after.skip(i + n);
            let adds = chopped::<M>(chops, v, piece_count(split, middle));
            let r = cut_all(split, adds, middle);
            let added = r.len() - n;
            assert forall|j: int| 0 <= j < middle.len() implies !cut_panics(
                split,
                #[trigger] middle[j],
            ) by {}
            lemma_cut_all_excess(split, adds, middle);
            assert(after.skip(i) =~= middle + rest);
            lemma_secs_excess_add(split, middle, rest);
            let st = stretched(start, i, added);
            assert(next == st + r + rest);
            if n == 0 {
                assert(r.len() == 0);
                assert(next.skip(i + 1) =~= rest.skip(1));
                assert(rest.skip(1) =~= after.skip(i + 1));
            } else {
                assert(next.skip(i + 1) =~= r.skip(1) + rest);
                lemma_secs_excess_add(split, r.skip(1), rest);
                assert(r =~= r.take(1) + r.skip(1));
                lemma_secs_excess_add(split, r.take(1), r.skip(1));
            }
        },
    }
}

/// Splitting from any section ends, with a panic or not, within some steps.
proof fn lemma_run_ends<M>(
    split: Split,
    alias: Option<Seq<char>>,
    chops: bool,
    secs: Seq<SectionView<M>>,
    i: int,
)
    requires
        0 <= i,
    ensures
        exists|fuel: nat| !(#[trigger] split_run(split, alias, chops, secs, i, fuel) is Unfinished),
    decreases secs_excess(split, secs.skip(i)), secs.len() - i,
{
    if i >= secs.len() {
        assert(split_run(split, alias, chops, secs, i, 0) is Finished);
    } else {
        match split_step(split, alias, chops, secs, i) {
            None => {
                assert(split_run(split, alias, chops, secs, i, 1) is Panics);
            },
            Some(next) => {
                lemma_step_excess(split, alias, chops, secs, i);
                lemma_run_ends(split, alias, chops, next, i + 1);
                let fuel = choose|fuel: nat| !(#[trigger] split_run(split, alias, chops, next, i + 1, fuel) is Unfinished);
                assert(split_run(split, alias, chops, secs, i, fuel + 1) == split_run(
                    split,
                    alias,
                    chops,
                    next,
                    i + 1,
                    fuel,
                ));
            },
        }
    }
}

/// Splitting `secs` never panics.
pub open spec fn split_never_panics<M>(
    split: Split,
    alias: Option<Seq<char>>,
    chops: bool,
    secs: Seq<SectionView<M>>,
) -> bool {
    forall|fuel: nat| !(#[trigger] split_run(split, alias, chops, secs, 0, fuel) is Panics)
}

/// Splitting that ends without a panic never panics.
pub proof fn lemma_never_panics<M>(
    split: Split,
    alias: Option<Seq<char>>,
    chops: bool,
    secs: Seq<SectionView<M>>,
)
    requires
        splits_cleanly(split, alias, chops, secs),
    ensures
        split_never_panics(split, alias, chops, secs),
{
    let f = choose|fuel: nat| #[trigger] split_run(split, alias, chops, secs, 0, fuel) is Finished;
    assert forall|g: nat| !(#[trigger] split_run(split, alias, chops, secs, 0, g) is Panics) by {
        if split_run(split, alias, chops, secs, 0, g) is Panics {
            lemma_run_deterministic(split, alias, chops, secs, 0, f, g);
        }
    }
}

/// Splitting ends: where it never panics, it ends without a panic.
pub proof fn lemma_splits_cleanly<M>(
    split: Split,
    alias: Option<Seq<char>>,
    chops: bool,
    secs: Seq<SectionView<M>>,
)
    requires
        split_never_panics(split, alias, chops, secs),
    ensures
        splits_cleanly(split, alias, chops, secs),
{
    lemma_run_ends(split, alias, chops, secs, 0);
    let fuel = choose|fuel: nat| !(#[trigger] split_run(split, alias, chops, secs, 0, fuel) is Unfinished);
    assert(!(split_run(split, alias, chops, secs, 0, fuel) is Panics));
}

/// The value of every added modifier of `secs` is known.
pub open spec fn all_known<M>(secs: Seq<SectionView<M>>) -> bool {
    forall|k: int, j: int|
        0 <= k < secs.len() && 0 <= j < secs[k].extend.len() ==> (#[trigger] secs[k].extend[j]).1 is Known
}

proof fn lemma_known_bumped<M>(s: SectionView<M>, above: int, by: int)
    requires
        forall|j: int| 0 <= j < s.extend.len() ==> (#[trigger] s.extend[j]).1 is Known,
    ensures
        forall|j: int|
            0 <= j < bumped(s, above, by).extend.len() ==> (#[trigger] bumped(s, above, by).extend[j]).1 is Known,
{
    assert forall|j: int| 0 <= j < bumped(s, above, by).extend.len() implies (#[trigger] bumped(
        s,
        above,
        by,
    ).extend[j]).1 is Known by {
        assert(s.extend[j].1 is Known);
    }
}

proof fn lemma_known_add<M>(a: Seq<SectionView<M>>, b: Seq<SectionView<M>>)
    requires
        all_known(a),
        all_known(b),
    ensures
        all_known(a + b),
{
    assert forall|k: int, j: int|
        0 <= k < (a + b).len() && 0 <= j < (a + b)[k].extend.len() implies (#[trigger] (a
        + b)[k].extend[j]).1 is Known by {
        if k < a.len() {
            assert(a[k].extend[j].1 is Known);
        } else {
            assert(b[k - a.len()].extend[j].1 is Known);
        }
    }
}

proof fn lemma_known_cut_all<M>(split: Split, secs: Seq<SectionView<M>>)
    requires
        all_known(secs),
    ensures
        all_known(cut_all(split, Seq::<(int, Added<M>)>::empty(), secs)),
    decreases secs.len(),
{
    if secs.len() > 0 {
        assert(all_known(secs.drop_last())) by {
            assert forall|k: int, j: int|
                0 <= k < secs.drop_last().len() && 0 <= j < secs.drop_last()[k].extend.len() implies (
            #[trigger] secs.drop_last()[k].extend[j]).1 is Known by {
                assert(secs[k].extend[j].1 is Known);
            }
        }
        lemma_known_cut_all(split, secs.drop_last());
        let s = secs.last();
        assert(forall|j: int| 0 <= j < s.extend.len() ==> (#[trigger] s.extend[j]).1 is Known) by {
            assert forall|j: int| 0 <= j < s.extend.len() implies (#[trigger] s.extend[j]).1 is Known by {
                assert(secs[secs.len() - 1].extend[j].1 is Known);
            }
        }
        let r = replaced(split, Seq::<(int, Added<M>)>::empty(), s);
        match text_of(s) {
            None => {
                assert(all_known(r));
            },
            Some(text) => {
                let p = pieces(split, text);
                let w = with_text(s, p[0]);
                assert(w.extend == s.extend);
                lemma_known_bumped(w, -1, p.len() - 1);
                assert forall|k: int, j: int|
                    0 <= k < r.len() && 0 <= j < r[k].extend.len() implies (#[trigger] r[k].extend[j]).1 is Known by {
                    if k == 0 {
                        assert(r[0].extend =~= bumped(w, -1, p.len() - 1).extend);
                    } else {
                        assert(r[k] == piece_section::<M>(p.drop_first()[k - 1], Seq::empty()));
                    }
                }
            },
        }
        lemma_known_add(cut_all(split, Seq::<(int, Added<M>)>::empty(), secs.drop_last()), r);
    }
}

/// Splitting without a chopper adds no modifier of unknown value.
proof fn lemma_known_step<M>(
    split: Split,
    alias: Option<Seq<char>>,
    secs: Seq<SectionView<M>>,
    i: int,
)
    requires
        0 <= i < secs.len(),
        all_known(secs),
        split_step(split, alias, false, secs, i) is Some,
    ensures
        all_known(split_step(split, alias, false, secs, i)->Some_0),
{
    let (s, cut) = extract(alias, secs[i]);
    assert(s.extend == secs[i].extend);
    let after = secs.update(i, s);
    assert(all_known(after)) by {
        assert forall|k: int, j: int|
            0 <= k < after.len() && 0 <= j < after[k].extend.len() implies (#[trigger] after[k].extend[j]).1 is Known by {
            assert(secs[k].extend[j].1 is Known);
        }
    }
    if let Some((v, n)) = cut {
        let middle = after.subrange(i, i + n);
        let start = after.take(i);
        let cut_secs = cut_all(split, chopped(false, v, piece_count(split, middle)), middle);
        assert(chopped::<M>(false, v, piece_count(split, middle)) =~= Seq::<(int, Added<M>)>::empty());
        let added = cut_secs.len() - n;
        assert(all_known(middle)) by {
            assert forall|k: int, j: int|
                0 <= k < middle.len() && 0 <= j < middle[k].extend.len() implies (#[trigger] middle[k].extend[j]).1 is Known by {
                assert(after[i + k].extend[j].1 is Known);
            }
        }
        lemma_known_cut_all(split, middle);
        let st = stretched(start, i, added);
        assert(all_known(st)) by {
            assert forall|k: int, j: int|
                0 <= k < st.len() && 0 <= j < st[k].extend.len() implies (#[trigger] st[k].extend[j]).1 is Known by {
                assert(after[k].extend[j].1 is Known);
            }
        }
        let rest = after.skip(i + n);
        assert(all_known(rest)) by {
            assert forall|k: int, j: int|
                0 <= k < rest.len() && 0 <= j < rest[k].extend.len() implies (#[trigger] rest[k].extend[j]).1 is Known by {
                assert(after[i + n + k].extend[j].1 is Known);
            }
        }
        lemma_known_add(st, cut_secs);
        lemma_known_add(st + cut_secs, rest);
    }
}

/// Splitting without a chopper gives sections whose added modifiers all have
/// a known value, if those of `secs` do.
proof fn lemma_known_run<M>(
    split: Split,
    alias: Option<Seq<char>>,
    secs: Seq<SectionView<M>>,
    i: int,
    fuel: nat,
)
    requires
        0 <= i,
        all_known(secs),
        split_run(split, alias, false, secs, i, fuel) is Finished,
    ensures
        all_known(split_run(split, alias, false, secs, i, fuel)->Finished_0),
    decreases fuel,
{
    if i < secs.len() {
        lemma_known_step(split, alias, secs, i);
        lemma_known_run(split, alias, split_step(split, alias, false, secs, i)->Some_0, i + 1, (fuel - 1) as nat);
    }
}

proof fn lemma_agree_known<M>(
    a: Seq<SectionView<M>>,
    m: Seq<SectionView<M>>,
    made: spec_fn(Seq<char>, int, M) -> bool,
)
    requires
        all_agree(a, m, made),
        all_known(m),
    ensures
        a == m,
{
    assert forall|k: int| 0 <= k < m.len() implies #[trigger] a[k] == m[k] by {
        assert(agrees(a[k], m[k], made));
        assert forall|j: int| 0 <= j < m[k].extend.len() implies #[trigger] a[k].extend[j] == m[k].extend[j] by {
            assert(m[k].extend[j].1 is Known);
            assert(added_agrees(a[k].extend[j], m[k].extend[j], made));
        }
        assert(a[k].extend =~= m[k].extend);
    }
    assert(a =~= m);
}

/// Two texts: the name of a modifier and its value.
pub trait StringPair<'a> {
    /// The two texts.
    spec fn pair(&self) -> (Seq<char>, Seq<char>);

    /// The two texts, name first.
    fn string_pair(self) -> (r: (&'a [char], &'a [char]))
        ensures
            r.0@ == self.pair().0,
            r.1@ == self.pair().1,
    ;
}

impl<'a> StringPair<'a> for (&'a [char], &'a [char]) {
    open spec fn pair(&self) -> (Seq<char>, Seq<char>) {
        (self.0@, self.1@)
    }

    fn string_pair(self) -> (r: (&'a [char], &'a [char])) {
        self
    }
}

/// The modifiers `mods` but those named `name`, in their order.
pub open spec fn without_name(mods: Seq<ModifierView>, name: Seq<char>) -> Seq<ModifierView>
    decreases mods.len(),
{
    if mods.len() == 0 {
        Seq::empty()
    } else {
        without_name(mods.drop_last(), name) + if mods.last().name == name {
            Seq::<ModifierView>::empty()
        } else {
            seq![mods.last()]
        }
    }
}

/// The modifiers `mods` but those named `name`, in their order.
fn retain_unnamed<'a>(mods: &Vec<tree::Modifier<'a>>, name: &[char]) -> (r: Vec<tree::Modifier<'a>>)
    ensures
        modifiers_view(r@) == without_name(modifiers_view(mods@), name@),
{
    let ghost all = modifiers_view(mods@);
    let mut kept: Vec<tree::Modifier<'a>> = Vec::new();
    let mut k: usize = 0;
    while k < mods.len()
        invariant
            all == modifiers_view(mods@),
            k <= mods@.len(),
            modifiers_view(kept@) == without_name(all.take(k as int), name@),
        decreases mods@.len() - k,
    {
        let m = mods[k];
        let ghost before = kept@;
        assert(all.take(k + 1).drop_last() =~= all.take(k as int));
        assert(all.take(k + 1).last() == modifier_view(m));
        if !same_chars(m.name, name) {
            kept.push(m);
            assert(modifiers_view(kept@) =~= modifiers_view(before) + seq![modifier_view(m)]);
        } else {
            assert(modifiers_view(before) + Seq::<ModifierView>::empty() =~= modifiers_view(before));
        }
        k = k + 1;
    }
    assert(all.take(mods@.len() as int) =~= all);
    kept
}

/// The value the producer gets for section `s`: that of its first modifier
/// named `alias`, if it is static.
pub open spec fn alias_value<'a, M>(s: Section<'a, M>, alias: Seq<char>) -> Option<&'a [char]> {
    match named_index(s@.native, alias) {
        Some(k) => match s.0.modifiers@[k].value {
            Dyn::Static(v) => Some(v),
            Dyn::Dynamic(_) => None,
        },
        None => None,
    }
}

/// The range of the first modifier of `s` named `alias`.
pub open spec fn alias_range<M>(s: SectionView<M>, alias: Seq<char>) -> int {
    match named_index(s.native, alias) {
        Some(k) => s.native[k].subsection_count,
        None => 0,
    }
}

/// `after` is `before` once its modifiers named `alias` are taken out and
/// `produced` put after the others, each with the range of the first
/// `alias` modifier.
pub open spec fn aliased<'a, M, Sp: StringPair<'a>>(
    before: Section<'a, M>,
    alias: Seq<char>,
    produced: Seq<Sp>,
    after: Section<'a, M>,
) -> bool {
    let count = alias_range(before@, alias);
    &&& after@.native == without_name(before@.native, alias) + produced.map_values(
        |sp: Sp|
            ModifierView {
                name: sp.pair().0,
                value: ValueView::Static(sp.pair().1),
                subsection_count: count,
            },
    )
    &&& after.1 == before.1
}

/// `after` is `before` once aliased (see [`aliased`]) with what `producer`
/// gives for the value of its first modifier named `alias`, if it is static.
pub open spec fn aliased_by<'a, M, Sp: StringPair<'a>, F: FnMut(&'a [char]) -> Vec<Sp>>(
    producer: F,
    before: Section<'a, M>,
    alias: Seq<char>,
    after: Section<'a, M>,
) -> bool {
    match alias_value(before, alias) {
        Some(value) => exists|out: Vec<Sp>|
            call_ensures(producer, (value,), out) && #[trigger] aliased(before, alias, out@, after),
        None => aliased(before, alias, Seq::<Sp>::empty(), after),
    }
}

/// `after` is `before` once aliased (see [`aliased_mods`]) with what
/// `producer` gives for the value of its first modifier named `alias`, if it
/// is static.
pub open spec fn aliased_mods_by<'a, M, F: FnMut(&'a [char]) -> Vec<M>>(
    producer: F,
    before: Section<'a, M>,
    alias: Seq<char>,
    after: Section<'a, M>,
) -> bool {
    match alias_value(before, alias) {
        Some(value) => exists|out: Vec<M>|
            call_ensures(producer, (value,), out) && #[trigger] aliased_mods(before, alias, out@, after),
        None => aliased_mods(before, alias, Seq::<M>::empty(), after),
    }
}

/// `after` is `before` once its modifiers named `alias` are taken out, and
/// `produced` added, each with the range of the first `alias` modifier.
pub open spec fn aliased_mods<'a, M>(
    before: Section<'a, M>,
    alias: Seq<char>,
    produced: Seq<M>,
    after: Section<'a, M>,
) -> bool {
    let count = alias_range(before@, alias);
    &&& after@.native == without_name(before@.native, alias)
    &&& after.1@ == before.1@ + produced.map_values(|m: M| Modifier { influence: count as usize, inner: m })
}

/// The sections of a format string, parsed, still open to styling: split,
/// chopped, aliased.
pub struct Styleable<'a, M> {
    pub sections: Vec<Section<'a, M>>,
}

/// No modifier of `sections` reaches the section `u32::MAX`.
pub open spec fn within_u32(sections: Seq<tree::Section>) -> bool {
    &&& sections.len() <= u32::MAX
    &&& forall|i: int, k: int|
        0 <= i < sections.len() && 0 <= k < sections[i].modifiers@.len() ==> i + (
        #[trigger] sections[i].modifiers@[k]).subsection_count < u32::MAX
}

impl<'a> tree::Tree<'a> {
    /// The sections of this tree, ready for styling (see [`Styleable::new`]).
    pub fn transform<M>(self) -> (r: Styleable<'a, M>)
        requires
            within_u32(self.sections@),
        ensures
            views(r.sections@) == self.sections@.map_values(|s: tree::Section<'a>| fresh::<M>(s)),
    {
        Styleable::new(self.sections)
    }
}

/// The parsed section `s` ready for styling: no modifier added yet.
pub open spec fn fresh<M>(s: tree::Section) -> SectionView<M> {
    SectionView { native: modifiers_view(s.modifiers@), extend: Seq::empty() }
}

impl<'a, M> Styleable<'a, M> {
    /// The parsed `sections`, ready for styling; no modifier of them may reach
    /// the section `u32::MAX`.
    pub fn new(sections: Vec<tree::Section<'a>>) -> (r: Self)
        requires
            within_u32(sections@),
        ensures
            views(r.sections@) == sections@.map_values(|s: tree::Section<'a>| fresh::<M>(s)),
    {
        let ghost input = sections@;
        let mut sections = sections;
        let mut out: Vec<Section<'a, M>> = Vec::new();
        while sections.len() > 0
            invariant
                out@.len() + sections@.len() == input.len(),
                sections@ == input.skip(out@.len() as int),
                views(out@) == input.take(out@.len() as int).map_values(|s: tree::Section<'a>| fresh::<M>(s)),
            decreases sections@.len(),
        {
            let ghost done = out@.len();
            let ghost out_before = out@;
            let s = sections.remove(0);
            assert(s == input[done as int]);
            out.push(Section(s, Vec::new()));
            proof {
                assert(views(out@) =~= views(out_before).push(out@[done as int]@));
                assert(input.take(done as int + 1) =~= input.take(done as int).push(input[done as int]));
                assert(input.skip(done as int + 1) =~= input.skip(done as int).drop_first());
                assert(out@[done as int]@.extend =~= Seq::<(int, Added<M>)>::empty());
                assert(views(out@) =~= input.take(done as int + 1).map_values(|s: tree::Section<'a>| fresh::<M>(s)));
            }
        }
        assert(input.take(input.len() as int) =~= input);
        Styleable { sections: out }
    }

    /// Splits the text of each section into pieces, each becoming a section
    /// of its own, the modifiers of the section stretched over them.
    pub fn split(self, split: Split) -> (r: Self)
        requires
            split_never_panics(split, None, false, views(self.sections@)),
        ensures
            views(r.sections@) == split_outcome(split, None, false, views(self.sections@)),
    {
        let ghost init = views(self.sections@);
        proof {
            lemma_splits_cleanly(split, None, false, init);
        }
        let mut rmods = NoChop;
        let sections = match process(split, None, &mut rmods, self.sections) {
            Some(sections) => sections,
            None => {
                assert(false);
                Vec::new()
            },
        };
        proof {
            let fuel = choose|fuel: nat| #[trigger] split_run(split, None, false, init, 0, fuel) is Finished;
            lemma_known_run(split, None, init, 0, fuel);
            lemma_agree_known(views(sections@), split_outcome(split, None, false, init), rmods.maker());
        }
        Styleable { sections }
    }

    /// Splits the text of the sections that a modifier named `alias` applies
    /// to into pieces, each becoming a section of its own, and adds to each
    /// the modifier `chopper` makes from the value of the `alias` modifier and
    /// the number of pieces; the `alias` modifier is taken out.
    pub fn chop<F: FnMut(&[char], usize) -> M>(self, split: Split, alias: &[char], chopper: F) -> (r: Self)
        requires
            forall|value: &[char], count: usize| call_requires(chopper, (value, count)),
            split_never_panics(split, Some(alias@), true, views(self.sections@)),
        ensures
            all_agree(
                views(r.sections@),
                split_outcome(split, Some(alias@), true, views(self.sections@)),
                chopped_by(chopper),
            ),
    {
        proof {
            lemma_splits_cleanly(split, Some(alias@), true, views(self.sections@));
        }
        let mut rmods = Chopping(chopper);
        let sections = match process(split, Some(alias), &mut rmods, self.sections) {
            Some(sections) => sections,
            None => {
                assert(false);
                Vec::new()
            },
        };
        Styleable { sections }
    }

    /// Like [`Styleable::split`], but `None` where splitting would panic: a
    /// text to cut is empty, a range goes past the last section or over
    /// `usize`.
    pub fn try_split(self, split: Split) -> (r: Option<Self>)
        ensures
            r is None <==> !split_never_panics(split, None, false, views(self.sections@)),
            r matches Some(s) ==> views(s.sections@) == split_outcome(
                split,
                None,
                false,
                views(self.sections@),
            ),
    {
        let ghost init = views(self.sections@);
        let mut rmods = NoChop;
        match process(split, None, &mut rmods, self.sections) {
            Some(sections) => {
                proof {
                    lemma_never_panics(split, None, false, init);
                    let fuel = choose|fuel: nat| #[trigger] split_run(split, None, false, init, 0, fuel) is Finished;
                    lemma_known_run(split, None, init, 0, fuel);
                    lemma_agree_known(views(sections@), split_outcome(split, None, false, init), rmods.maker());
                }
                Some(Styleable { sections })
            },
            None => None,
        }
    }

    /// Like [`Styleable::chop`], but `None` where chopping would panic (see
    /// [`Styleable::try_split`]).
    pub fn try_chop<F: FnMut(&[char], usize) -> M>(self, split: Split, alias: &[char], chopper: F) -> (r:
        Option<Self>)
        requires
            forall|value: &[char], count: usize| call_requires(chopper, (value, count)),
        ensures
            r is None <==> !split_never_panics(split, Some(alias@), true, views(self.sections@)),
            r matches Some(s) ==> all_agree(
                views(s.sections@),
                split_outcome(split, Some(alias@), true, views(self.sections@)),
                chopped_by(chopper),
            ),
    {
        let ghost init = views(self.sections@);
        let mut rmods = Chopping(chopper);
        match process(split, Some(alias), &mut rmods, self.sections) {
            Some(sections) => {
                proof {
                    lemma_never_panics(split, Some(alias@), true, init);
                }
                Some(Styleable { sections })
            },
            None => None,
        }
    }

    /// Takes out of each section the modifiers named `alias`, and puts after
    /// the others those that `producer` makes from the value of the first of
    /// them, if it is static, each with its range.
    pub fn alias<Sp: StringPair<'a>, F: FnMut(&'a [char]) -> Vec<Sp>>(
        self,
        alias: &[char],
        mut producer: F,
    ) -> (r: Self)
        requires
            forall|value: &'a [char]| call_requires(producer, (value,)),
        ensures
            r.sections@.len() == self.sections@.len(),
            forall|k: int|
                0 <= k < self.sections@.len() ==> aliased_by(
                    producer,
                    self.sections@[k],
                    alias@,
                    #[trigger] r.sections@[k],
                ),
    {
        let ghost input = self.sections@;
        let ghost given = producer;
        let mut sections = self.sections;
        let mut k: usize = 0;
        while k < sections.len()
            invariant
                producer == given,
                forall|value: &'a [char]| call_requires(producer, (value,)),
                sections@.len() == input.len(),
                k <= input.len(),
                forall|j: int| k <= j < input.len() ==> #[trigger] sections@[j] == input[j],
                forall|j: int|
                    0 <= j < k ==> aliased_by(producer, input[j], alias@, #[trigger] sections@[j]),
            decreases input.len() - k,
        {
            let ghost before = sections@;
            let ghost cur = input[k as int];
            let count: usize = match named_position(&sections[k].0.modifiers, alias) {
                Some(at) => sections[k].0.modifiers[at].subsection_count,
                None => 0,
            };
            let value = match named_position(&sections[k].0.modifiers, alias) {
                Some(at) => match sections[k].0.modifiers[at].value {
                    Dyn::Static(v) => Some(v),
                    Dyn::Dynamic(_) => None,
                },
                None => None,
            };
            assert(value == alias_value(cur, alias@));
            assert(count == alias_range(cur@, alias@));
            let mut extensions: Vec<tree::Modifier<'a>> = Vec::new();
            let ghost mut produced: Seq<Sp> = Seq::empty();
            let ghost mut witness: Option<Vec<Sp>> = None;
            if let Some(v) = value {
                let mut out = producer(v);
                let total = out.len();
                proof {
                    produced = out@;
                    witness = Some(out);
                }
                let mut n: usize = 0;
                while out.len() > 0
                    invariant
                        n <= produced.len() <= usize::MAX,
                        out@ == produced.skip(n as int),
                        modifiers_view(extensions@) == produced.take(n as int).map_values(
                            |sp: Sp|
                                ModifierView {
                                    name: sp.pair().0,
                                    value: ValueView::Static(sp.pair().1),
                                    subsection_count: count as int,
                                },
                        ),
                    decreases out@.len(),
                {
                    let ghost rest = out@;
                    let sp = out.remove(0);
                    assert(sp == produced[n as int]);
                    let (name, text) = sp.string_pair();
                    let ghost done = extensions@;
                    extensions.push(tree::Modifier { name, value: Dyn::Static(text), subsection_count: count });
                    proof {
                        assert(produced.take(n + 1) =~= produced.take(n as int).push(sp));
                        assert(modifiers_view(extensions@) =~= modifiers_view(done).push(modifier_view(
                            extensions@[n as int],
                        )));
                        assert(out@ =~= produced.skip(n + 1));
                    }
                    n = n + 1;
                }
                assert(produced.take(n as int) =~= produced);
            }
            let mut kept = retain_unnamed(&sections[k].0.modifiers, alias);
            let ghost kept_view = modifiers_view(kept@);
            let ghost ext_view = modifiers_view(extensions@);
            kept.append(&mut extensions);
            assert(modifiers_view(kept@) =~= kept_view + ext_view);
            sections[k].0.modifiers = kept;
            proof {
                assert(sections@[k as int].1 == cur.1);
                assert(aliased(cur, alias@, produced, sections@[k as int]));
                assert forall|j: int|
                    0 <= j < k + 1 implies aliased_by(producer, input[j], alias@, #[trigger] sections@[j]) by {
                    if j < k {
                        assert(sections@[j] == before[j]);
                    } else {
                        if let Some(w) = witness {
                            assert(call_ensures(producer, (value.unwrap(),), w));
                            assert(aliased(input[j], alias@, w@, sections@[j]));
                        }
                    }
                }
                assert forall|j: int| k + 1 <= j < input.len() implies #[trigger] sections@[j] == input[j] by {
                    assert(sections@[j] == before[j]);
                }
            }
            k = k + 1;
        }
        Styleable { sections }
    }

    /// Takes out of each section the modifiers named `alias`, and adds those
    /// that `producer` makes from the value of the first of them, if it is
    /// static, each with its range.
    pub fn alias_mods<F: FnMut(&'a [char]) -> Vec<M>>(self, alias: &[char], mut producer: F) -> (r: Self)
        requires
            forall|value: &'a [char]| call_requires(producer, (value,)),
        ensures
            r.sections@.len() == self.sections@.len(),
            forall|k: int|
                0 <= k < self.sections@.len() ==> aliased_mods_by(
                    producer,
                    self.sections@[k],
                    alias@,
                    #[trigger] r.sections@[k],
                ),
    {
        let ghost input = self.sections@;
        let ghost given = producer;
        let mut sections = self.sections;
        let mut k: usize = 0;
        while k < sections.len()
            invariant
                producer == given,
                forall|value: &'a [char]| call_requires(producer, (value,)),
                sections@.len() == input.len(),
                k <= input.len(),
                forall|j: int| k <= j < input.len() ==> #[trigger] sections@[j] == input[j],
                forall|j: int|
                    0 <= j < k ==> aliased_mods_by(producer, input[j], alias@, #[trigger] sections@[j]),
            decreases input.len() - k,
        {
            let ghost before = sections@;
            let ghost cur = input[k as int];
            let count: usize = match named_position(&sections[k].0.modifiers, alias) {
                Some(at) => sections[k].0.modifiers[at].subsection_count,
                None => 0,
            };
            let value = match named_position(&sections[k].0.modifiers, alias) {
                Some(at) => match sections[k].0.modifiers[at].value {
                    Dyn::Static(v) => Some(v),
                    Dyn::Dynamic(_) => None,
                },
                None => None,
            };
            assert(value == alias_value(cur, alias@));
            assert(count == alias_range(cur@, alias@));
            let mut extensions: Vec<Modifier<M>> = Vec::new();
            let ghost mut produced: Seq<M> = Seq::empty();
            let ghost mut witness: Option<Vec<M>> = None;
            if let Some(v) = value {
                let mut out = producer(v);
                let total = out.len();
                proof {
                    produced = out@;
                    witness = Some(out);
                }
                let mut n: usize = 0;
                while out.len() > 0
                    invariant
                        n <= produced.len() <= usize::MAX,
                        out@ == produced.skip(n as int),
                        extensions@ == produced.take(n as int).map_values(
                            |m: M| Modifier { influence: count, inner: m },
                        ),
                    decreases out@.len(),
                {
                    let inner = out.remove(0);
                    assert(inner == produced[n as int]);
                    extensions.push(Modifier { influence: count, inner });
                    proof {
                        assert(produced.take(n + 1) =~= produced.take(n as int).push(inner));
                        assert(extensions@ =~= produced.take(n + 1).map_values(
                            |m: M| Modifier { influence: count, inner: m },
                        ));
                        assert(out@ =~= produced.skip(n + 1));
                    }
                    n = n + 1;
                }
                assert(produced.take(n as int) =~= produced);
            }
            let kept = retain_unnamed(&sections[k].0.modifiers, alias);
            sections[k].0.modifiers = kept;
            let ghost ext = extensions@;
            let ghost old_ext = sections@[k as int].1@;
            sections[k].1.append(&mut extensions);
            proof {
                assert(sections@[k as int].1@ == old_ext + ext);
                assert(old_ext == cur.1@);
                assert(ext == produced.map_values(|m: M| Modifier { influence: (count as int) as usize, inner: m }));
                assert(aliased_mods(cur, alias@, produced, sections@[k as int]));
                assert forall|j: int|
                    0 <= j < k + 1 implies aliased_mods_by(producer, input[j], alias@, #[trigger] sections@[j]) by {
                    if j < k {
                        assert(sections@[j] == before[j]);
                    } else {
                        if let Some(w) = witness {
                            assert(call_ensures(producer, (value.unwrap(),), w));
                            assert(aliased_mods(input[j], alias@, w@, sections@[j]));
                        }
                    }
                }
                assert forall|j: int| k + 1 <= j < input.len() implies #[trigger] sections@[j] == input[j] by {
                    assert(sections@[j] == before[j]);
                }
            }
            k = k + 1;
        }
        Styleable { sections }
    }
}

/// Where the modifiers added while splitting come from: none, or a chopper.
trait Rmods<M> {
    /// Whether a modifier is added to each section cut.
    spec fn chops(&self) -> bool;

    /// Whether modifiers can be made.
    spec fn ready(&self) -> bool;

    /// Which inner modifiers can be made from the value of the modifier that
    /// asked for a cut and the number of pieces cut.
    spec fn maker(&self) -> spec_fn(Seq<char>, int, M) -> bool;

    /// The modifier to add to a section cut, from the value of the modifier
    /// that asked for the cut and the number of pieces cut.
    fn rmod(&mut self, value: &[char], count: usize) -> (r: Option<Modifier<M>>)
        requires
            old(self).ready(),
        ensures
            r is Some <==> old(self).chops(),
            r matches Some(m) ==> m.influence == 1 && (old(self).maker())(value@, count as int, m.inner),
            final(self).chops() == old(self).chops(),
            final(self).maker() == old(self).maker(),
            final(self).ready(),
    ;
}

/// No modifier is added to the sections cut.
struct NoChop;

impl<M> Rmods<M> for NoChop {
    spec fn chops(&self) -> bool {
        false
    }

    spec fn ready(&self) -> bool {
        true
    }

    spec fn maker(&self) -> spec_fn(Seq<char>, int, M) -> bool {
        |value: Seq<char>, count: int, m: M| false
    }

    fn rmod(&mut self, value: &[char], count: usize) -> (r: Option<Modifier<M>>) {
        None
    }
}

/// Which inner modifiers `chopper` can make from the value of the modifier
/// that asked for a cut and the number of pieces cut.
pub open spec fn chopped_by<M, F: FnMut(&[char], usize) -> M>(chopper: F) -> spec_fn(Seq<char>, int, M) -> bool {
    |value: Seq<char>, count: int, m: M|
        exists|v: &[char]| v@ == value && #[trigger] call_ensures(chopper, (v, count as usize), m)
}

/// The modifiers added to the sections cut come from a chopper, given the
/// value of the modifier that asked for the cut and the number of pieces cut.
struct Chopping<F>(F);

impl<M, F: FnMut(&[char], usize) -> M> Rmods<M> for Chopping<F> {
    spec fn chops(&self) -> bool {
        true
    }

    spec fn ready(&self) -> bool {
        forall|value: &[char], count: usize| call_requires(self.0, (value, count))
    }

    spec fn maker(&self) -> spec_fn(Seq<char>, int, M) -> bool {
        chopped_by(self.0)
    }

    fn rmod(&mut self, value: &[char], count: usize) -> (r: Option<Modifier<M>>) {
        let inner = (self.0)(value, count);
        assert(call_ensures(self.0, (value, (count as int) as usize), inner));
        assert(chopped_by(self.0)(value@, count as int, inner));
        Some(Modifier { influence: 1, inner })
    }
}

} // verus!
