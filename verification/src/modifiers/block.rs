//! The items of an `impl_modify` block: its associated types and its modify
//! functions, and the checks on them.
use vstd::prelude::*;

use super::{validation, Modifiers, ValidateError};

verus! {

/// The options of an `impl_modify` attribute.
#[derive(Clone, PartialEq, Eq, Debug)]
pub struct Config {
    /// The path to the `cuicui_fab` crate.
    pub fab_path: String,
    /// The name of the `enumset` crate.
    pub enumset_crate: String,
    /// The visibility of the generated enums.
    pub visibility: String,
    /// `Debug` is not implemented for the generated modifier.
    pub no_debug_derive: bool,
    /// `Clone` is not implemented for the generated modifier.
    pub no_clone_derive: bool,
}

/// One option of an `impl_modify` attribute, its value as written.
#[derive(Clone, PartialEq, Eq, Debug)]
pub enum ConfigOption {
    /// `cuicui_fab_path = path`
    FabPath(String),
    /// `enumset_crate = ident`
    EnumsetCrate(String),
    /// `no_derive(..)`, with the traits named.
    NoDerive(Vec<String>),
    /// `visibility = vis`
    Visibility(String),
    /// Any other option.
    Unrecognized,
}

/// An option of an `impl_modify` attribute is not one.
#[derive(Clone, Copy, PartialEq, Eq, Structural, Debug)]
pub struct UnrecognizedOption;

/// `config` once `option` is applied: a path, name or visibility replaces
/// the one before; `no_derive` turns off the traits named `Debug` or
/// `Clone` among those it names; `None` for an option that is not one.
pub open spec fn with_option(config: Config, option: ConfigOption) -> Option<Config> {
    match option {
        ConfigOption::FabPath(p) => Some(Config { fab_path: p, ..config }),
        ConfigOption::EnumsetCrate(e) => Some(Config { enumset_crate: e, ..config }),
        ConfigOption::Visibility(v) => Some(Config { visibility: v, ..config }),
        ConfigOption::NoDerive(traits) => Some(
            Config {
                no_debug_derive: config.no_debug_derive || traits@.map_values(|t: String| t@).contains(
                    "Debug"@,
                ),
                no_clone_derive: config.no_clone_derive || traits@.map_values(|t: String| t@).contains(
                    "Clone"@,
                ),
                ..config
            },
        ),
        ConfigOption::Unrecognized => None,
    }
}

/// Whether one of `traits` is named `name`.
pub open spec fn names_trait(traits: Seq<String>, name: Seq<char>) -> bool {
    exists|i: int| 0 <= i < traits.len() && #[trigger] traits[i]@ == name
}

/// Law: an accepted option sets the field it names and keeps every other
/// one; `no_derive` turns off `Debug` and `Clone` exactly where it names
/// them, and turns nothing back on; any other option is refused.
pub proof fn law_config_option(config: Config, option: ConfigOption)
    ensures
        option matches ConfigOption::FabPath(p) ==> with_option(config, option) matches Some(c) && {
            &&& c.fab_path == p
            &&& c.enumset_crate == config.enumset_crate
            &&& c.visibility == config.visibility
            &&& c.no_debug_derive == config.no_debug_derive
            &&& c.no_clone_derive == config.no_clone_derive
        },
        option matches ConfigOption::EnumsetCrate(e) ==> with_option(config, option) matches Some(c) && {
            &&& c.enumset_crate == e
            &&& c.fab_path == config.fab_path
            &&& c.visibility == config.visibility
            &&& c.no_debug_derive == config.no_debug_derive
            &&& c.no_clone_derive == config.no_clone_derive
        },
        option matches ConfigOption::Visibility(v) ==> with_option(config, option) matches Some(c) && {
            &&& c.visibility == v
            &&& c.fab_path == config.fab_path
            &&& c.enumset_crate == config.enumset_crate
            &&& c.no_debug_derive == config.no_debug_derive
            &&& c.no_clone_derive == config.no_clone_derive
        },
        option matches ConfigOption::NoDerive(traits) ==> with_option(config, option) matches Some(c) && {
            &&& c.no_debug_derive == (config.no_debug_derive || names_trait(traits@, "Debug"@))
            &&& c.no_clone_derive == (config.no_clone_derive || names_trait(traits@, "Clone"@))
            &&& c.fab_path == config.fab_path
            &&& c.enumset_crate == config.enumset_crate
            &&& c.visibility == config.visibility
        },
        option is Unrecognized ==> with_option(config, option) is None,
{
    match option {
        ConfigOption::NoDerive(traits) => {
            let names = traits@.map_values(|t: String| t@);
            lemma_names_trait(traits@, names, "Debug"@);
            lemma_names_trait(traits@, names, "Clone"@);
        },
        _ => {},
    }
}

proof fn lemma_names_trait(traits: Seq<String>, names: Seq<Seq<char>>, name: Seq<char>)
    requires
        names == traits.map_values(|t: String| t@),
    ensures
        names.contains(name) == names_trait(traits, name),
{
    if names.contains(name) {
        let i = choose|i: int| 0 <= i < names.len() && names[i] == name;
        assert(traits[i]@ == name);
    }
    if names_trait(traits, name) {
        let i = choose|i: int| 0 <= i < traits.len() && #[trigger] traits[i]@ == name;
        assert(names[i] == name);
    }
}

impl Default for Config {
    /// The default options: `::cuicui_fab`, `enumset`, `pub`, both traits
    /// implemented.
    fn default() -> (r: Self)
        ensures
            r.fab_path@ == "::cuicui_fab"@,
            r.enumset_crate@ == "enumset"@,
            r.visibility@ == "pub"@,
            !r.no_debug_derive,
            !r.no_clone_derive,
    {
        Config {
            fab_path: String::from_str("::cuicui_fab"),
            enumset_crate: String::from_str("enumset"),
            visibility: String::from_str("pub"),
            no_debug_derive: false,
            no_clone_derive: false,
        }
    }
}

impl Config {
    /// Applies `option` to these options (see [`with_option`]).
    pub fn parse(&mut self, option: ConfigOption) -> (r: Result<(), UnrecognizedOption>)
        ensures
            match with_option(*old(self), option) {
                Some(c) => r is Ok && *final(self) == c,
                None => r is Err && *final(self) == *old(self),
            },
            option matches ConfigOption::FabPath(p) ==> {
                &&& r is Ok
                &&& final(self).fab_path == p
                &&& final(self).enumset_crate == old(self).enumset_crate
                &&& final(self).visibility == old(self).visibility
                &&& final(self).no_debug_derive == old(self).no_debug_derive
                &&& final(self).no_clone_derive == old(self).no_clone_derive
            },
            option matches ConfigOption::EnumsetCrate(e) ==> {
                &&& r is Ok
                &&& final(self).enumset_crate == e
                &&& final(self).fab_path == old(self).fab_path
                &&& final(self).visibility == old(self).visibility
                &&& final(self).no_debug_derive == old(self).no_debug_derive
                &&& final(self).no_clone_derive == old(self).no_clone_derive
            },
            option matches ConfigOption::Visibility(v) ==> {
                &&& r is Ok
                &&& final(self).visibility == v
                &&& final(self).fab_path == old(self).fab_path
                &&& final(self).enumset_crate == old(self).enumset_crate
                &&& final(self).no_debug_derive == old(self).no_debug_derive
                &&& final(self).no_clone_derive == old(self).no_clone_derive
            },
            option matches ConfigOption::NoDerive(traits) ==> {
                &&& r is Ok
                &&& final(self).no_debug_derive == (old(self).no_debug_derive || names_trait(traits@, "Debug"@))
                &&& final(self).no_clone_derive == (old(self).no_clone_derive || names_trait(traits@, "Clone"@))
                &&& final(self).fab_path == old(self).fab_path
                &&& final(self).enumset_crate == old(self).enumset_crate
                &&& final(self).visibility == old(self).visibility
            },
            option is Unrecognized ==> r is Err && *final(self) == *old(self),
    {
        proof {
            law_config_option(*self, option);
        }
        match option {
            ConfigOption::FabPath(p) => {
                self.fab_path = p;
            },
            ConfigOption::EnumsetCrate(e) => {
                self.enumset_crate = e;
            },
            ConfigOption::Visibility(v) => {
                self.visibility = v;
            },
            ConfigOption::NoDerive(traits) => {
                let debug = String::from_str("Debug");
                let clone = String::from_str("Clone");
                let ghost names = traits@.map_values(|t: String| t@);
                let mut k: usize = 0;
                let ghost start = *self;
                while k < traits.len()
                    invariant
                        k <= traits@.len(),
                        names == traits@.map_values(|t: String| t@),
                        debug@ == "Debug"@,
                        clone@ == "Clone"@,
                        self.fab_path == start.fab_path,
                        self.enumset_crate == start.enumset_crate,
                        self.visibility == start.visibility,
                        self.no_debug_derive == (start.no_debug_derive || names.take(k as int).contains("Debug"@)),
                        self.no_clone_derive == (start.no_clone_derive || names.take(k as int).contains("Clone"@)),
                    decreases traits@.len() - k,
                {
                    proof {
                        assert(names.take(k + 1) =~= names.take(k as int).push(traits@[k as int]@));
                    }
                    if traits[k] == debug {
                        self.no_debug_derive = true;
                    }
                    if traits[k] == clone {
                        self.no_clone_derive = true;
                    }
                    proof {
                        let t0 = names.take(k as int);
                        let t1 = names.take(k + 1);
                        assert(names[k as int] == traits@[k as int]@);
                        assert forall|w: Seq<char>| #[trigger] t1.contains(w) <==> (t0.contains(w) || names[k as int] == w) by {
                            if t1.contains(w) {
                                let j = choose|j: int| 0 <= j < t1.len() && t1[j] == w;
                                if j < k {
                                    assert(t0[j] == w);
                                }
                            }
                            if t0.contains(w) {
                                let j = choose|j: int| 0 <= j < t0.len() && t0[j] == w;
                                assert(t1[j] == w);
                            }
                            if names[k as int] == w {
                                assert(t1[k as int] == w);
                            }
                        }
                        assert(t1.contains("Debug"@) <==> (t0.contains("Debug"@) || names[k as int] == "Debug"@));
                        assert(t1.contains("Clone"@) <==> (t0.contains("Clone"@) || names[k as int] == "Clone"@));
                    }
                    k = k + 1;
                }
                proof {
                    assert(names.take(k as int) =~= names);
                }
            },
            ConfigOption::Unrecognized => {
                return Err(UnrecognizedOption);
            },
        }
        Ok(())
    }
}

/// An item of the block, as far as the checks read it.
#[derive(Clone, PartialEq, Eq, Debug)]
pub enum ImplItemKind {
    /// An associated type, by its name.
    Type(String),
    /// A modify function: its `modify` attributes (`None` when they do not
    /// parse) and its arguments (`None` for one that is not a plain
    /// identifier).
    Fn(Option<Modifiers>, Vec<Option<String>>),
    /// Any other item.
    Other,
}

/// Which item of the block declares each associated type: the last one
/// that does.
#[derive(Clone, Copy, PartialEq, Eq, Structural, Debug)]
pub struct AssociatedTypes {
    pub context: usize,
    pub item: usize,
    pub items: usize,
    pub resolver: Option<usize>,
    pub make_item: Option<usize>,
}

/// Why the block is not a modify block.
#[derive(Clone, Copy, PartialEq, Eq, Structural, Debug)]
pub enum BlockError {
    /// The type the block is for is not a plain identifier (generic
    /// parameters are not supported).
    GenericSelf,
    /// The `modify` attributes of the function at this position do not
    /// parse.
    BadAttributes(usize),
    /// The function at this position does not match its attributes.
    BadFn(usize, ValidateError),
    /// The item at this position is neither a function nor one of the
    /// associated types `Context`, `Item`, `Items`, `Resolver`, `MakeItem`.
    BadItem(usize),
    /// No `type Context` is declared.
    NoContext,
    /// No `type Item` is declared.
    NoItem,
    /// No `type Items` is declared.
    NoItems,
}

/// The names of the associated types a block may declare.
pub open spec fn known_names() -> Seq<Seq<char>> {
    seq!["Context"@, "Item"@, "Items"@, "Resolver"@, "MakeItem"@]
}

/// The errors of the item at position `pos`: none for one of the known
/// associated types or a function that matches its attributes.
pub open spec fn item_errors(item: ImplItemKind, pos: int) -> Seq<BlockError> {
    match item {
        ImplItemKind::Type(name) => if known_names().contains(name@) {
            Seq::empty()
        } else {
            seq![BlockError::BadItem(pos as usize)]
        },
        ImplItemKind::Fn(None, _) => seq![BlockError::BadAttributes(pos as usize)],
        ImplItemKind::Fn(Some(m), inputs) => match validation(m.mods@, m.dynamic is Some, inputs@) {
            Ok(_) => Seq::empty(),
            Err(e) => seq![BlockError::BadFn(pos as usize, e)],
        },
        ImplItemKind::Other => seq![BlockError::BadItem(pos as usize)],
    }
}

/// The last of the first `n` items that declares the associated type `name`.
pub open spec fn last_declaring(items: Seq<ImplItemKind>, name: Seq<char>, n: int) -> Option<usize>
    decreases n,
{
    if n <= 0 {
        None
    } else if items[n - 1] matches ImplItemKind::Type(t) && t@ == name {
        Some((n - 1) as usize)
    } else {
        last_declaring(items, name, n - 1)
    }
}

/// Whether `item` declares the associated type `name`.
pub open spec fn declares(item: ImplItemKind, name: Seq<char>) -> bool {
    item matches ImplItemKind::Type(t) && t@ == name
}

/// Whether `found` is the position of the last of `items` that declares the
/// associated type `name`, or `None` where none of them does.
pub open spec fn is_last_declaring(items: Seq<ImplItemKind>, name: Seq<char>, found: Option<usize>) -> bool {
    match found {
        Some(k) => {
            &&& k < items.len()
            &&& declares(items[k as int], name)
            &&& forall|j: int| k < j < items.len() ==> !#[trigger] declares(items[j], name)
        },
        None => forall|j: int| 0 <= j < items.len() ==> !#[trigger] declares(items[j], name),
    }
}

proof fn lemma_last_declaring(items: Seq<ImplItemKind>, name: Seq<char>, n: int)
    requires
        0 <= n <= items.len(),
        items.len() <= usize::MAX,
    ensures
        is_last_declaring(items.take(n), name, last_declaring(items, name, n)),
    decreases n,
{
    let t = items.take(n);
    if n > 0 {
        lemma_last_declaring(items, name, n - 1);
        let u = items.take(n - 1);
        assert forall|j: int| 0 <= j < n - 1 implies #[trigger] t[j] == u[j] by {}
        assert(t[n - 1] == items[n - 1]);
        if !(items[n - 1] matches ImplItemKind::Type(x) && x@ == name) {
            assert(!declares(t[n - 1], name));
            match last_declaring(items, name, n - 1) {
                Some(k) => {
                    assert(declares(t[k as int], name));
                    assert forall|j: int| k < j < t.len() implies !#[trigger] declares(t[j], name) by {
                        if j < n - 1 {
                            assert(!declares(u[j], name));
                        }
                    }
                },
                None => {
                    assert forall|j: int| 0 <= j < t.len() implies !#[trigger] declares(t[j], name) by {
                        if j < n - 1 {
                            assert(!declares(u[j], name));
                        }
                    }
                },
            }
        }
    }
}

/// Law: a block that checks out is answered, for each associated type, with
/// the last item that declares it; `Context`, `Item` and `Items` are always
/// declared, and `Resolver` and `MakeItem` are `None` exactly where no item
/// declares them.
pub proof fn law_block_last_declaring(self_is_ident: bool, items: Seq<ImplItemKind>)
    requires
        items.len() <= usize::MAX,
    ensures
        block_items(self_is_ident, items) matches Ok(a) ==> {
            &&& is_last_declaring(items, "Context"@, Some(a.context))
            &&& is_last_declaring(items, "Item"@, Some(a.item))
            &&& is_last_declaring(items, "Items"@, Some(a.items))
            &&& is_last_declaring(items, "Resolver"@, a.resolver)
            &&& is_last_declaring(items, "MakeItem"@, a.make_item)
        },
{
    let n = items.len() as int;
    assert(items.take(n) =~= items);
    lemma_last_declaring(items, "Context"@, n);
    lemma_last_declaring(items, "Item"@, n);
    lemma_last_declaring(items, "Items"@, n);
    lemma_last_declaring(items, "Resolver"@, n);
    lemma_last_declaring(items, "MakeItem"@, n);
}

/// Whether `item` may stand in a modify block: it declares one of the
/// associated types `Context`, `Item`, `Items`, `Resolver`, `MakeItem`, or it
/// is a function whose `modify` attributes parse and match it.
pub open spec fn item_accepted(item: ImplItemKind) -> bool {
    ||| declares(item, "Context"@)
    ||| declares(item, "Item"@)
    ||| declares(item, "Items"@)
    ||| declares(item, "Resolver"@)
    ||| declares(item, "MakeItem"@)
    ||| item matches ImplItemKind::Fn(Some(m), inputs) && validation(
        m.mods@,
        m.dynamic is Some,
        inputs@,
    ) is Ok
}

/// The position of the item an error is about, if it is about one.
pub open spec fn error_position(e: BlockError) -> Option<usize> {
    match e {
        BlockError::BadAttributes(p) => Some(p),
        BlockError::BadFn(p, _) => Some(p),
        BlockError::BadItem(p) => Some(p),
        _ => None,
    }
}

/// Whether `errors` holds one error for each of the first `n` items that is
/// not accepted, naming its position, in the order of the items.
pub open spec fn errors_of_items(items: Seq<ImplItemKind>, n: int, errors: Seq<BlockError>) -> bool {
    &&& forall|k: int|
        0 <= k < errors.len() ==> (#[trigger] error_position(errors[k]) matches Some(p) && p < n
            && !item_accepted(items[p as int]))
    &&& forall|k1: int, k2: int|
        0 <= k1 < k2 < errors.len() ==> error_position(#[trigger] errors[k1])->Some_0
            < error_position(#[trigger] errors[k2])->Some_0
    &&& forall|j: int|
        0 <= j < n && !#[trigger] item_accepted(items[j]) ==> exists|k: int|
            0 <= k < errors.len() && #[trigger] error_position(errors[k]) == Some(j as usize)
}

proof fn lemma_item_errors(item: ImplItemKind, pos: int)
    requires
        0 <= pos <= usize::MAX,
    ensures
        item_accepted(item) ==> item_errors(item, pos).len() == 0,
        !item_accepted(item) ==> item_errors(item, pos).len() == 1 && error_position(
            item_errors(item, pos)[0],
        ) == Some(pos as usize),
{
    let names = known_names();
    assert(names[0] == "Context"@);
    assert(names[1] == "Item"@);
    assert(names[2] == "Items"@);
    assert(names[3] == "Resolver"@);
    assert(names[4] == "MakeItem"@);
    match item {
        ImplItemKind::Type(name) => {
            if names.contains(name@) {
                let j = choose|j: int| 0 <= j < names.len() && names[j] == name@;
                assert(j == 0 || j == 1 || j == 2 || j == 3 || j == 4);
            }
            if item_accepted(item) {
                if name@ == "Context"@ {
                    assert(names.contains(names[0]));
                } else if name@ == "Item"@ {
                    assert(names.contains(names[1]));
                } else if name@ == "Items"@ {
                    assert(names.contains(names[2]));
                } else if name@ == "Resolver"@ {
                    assert(names.contains(names[3]));
                } else {
                    assert(names.contains(names[4]));
                }
            }
        },
        _ => {},
    }
}

proof fn lemma_bad_items(items: Seq<ImplItemKind>, n: int)
    requires
        0 <= n <= items.len(),
        items.len() <= usize::MAX,
    ensures
        errors_of_items(items, n, bad_items(items, n)),
        bad_items(items, n).len() == 0 <==> forall|j: int| 0 <= j < n ==> #[trigger] item_accepted(items[j]),
    decreases n,
{
    if n > 0 {
        lemma_bad_items(items, n - 1);
        lemma_item_errors(items[n - 1], n - 1);
        let a = bad_items(items, n - 1);
        let b = item_errors(items[n - 1], n - 1);
        let e = bad_items(items, n);
        assert(e == a + b);
        assert forall|k: int| 0 <= k < e.len() implies (#[trigger] error_position(e[k]) matches Some(p)
            && p < n && !item_accepted(items[p as int])) by {
            if k < a.len() {
                assert(e[k] == a[k]);
                assert(error_position(a[k]) matches Some(p) && p < n - 1);
            } else {
                assert(e[k] == b[k - a.len()]);
            }
        }
        assert forall|k1: int, k2: int| 0 <= k1 < k2 < e.len() implies error_position(
            #[trigger] e[k1],
        )->Some_0 < error_position(#[trigger] e[k2])->Some_0 by {
            assert(e[k1] == a[k1]);
            if k2 < a.len() {
                assert(e[k2] == a[k2]);
            } else {
                assert(e[k2] == b[k2 - a.len()]);
                assert(error_position(a[k1]) matches Some(p) && p < n - 1);
            }
        }
        assert forall|j: int| 0 <= j < n && !#[trigger] item_accepted(items[j]) implies exists|k: int|
            0 <= k < e.len() && #[trigger] error_position(e[k]) == Some(j as usize) by {
            if j < n - 1 {
                let k = choose|k: int| 0 <= k < a.len() && #[trigger] error_position(a[k]) == Some(j as usize);
                assert(e[k] == a[k]);
            } else {
                assert(e[a.len() as int] == b[0]);
            }
        }
        if e.len() == 0 {
            assert forall|j: int| 0 <= j < n implies #[trigger] item_accepted(items[j]) by {
                if j < n - 1 {
                    assert(a.len() == 0);
                }
            }
        }
        if forall|j: int| 0 <= j < n ==> #[trigger] item_accepted(items[j]) {
            assert forall|j: int| 0 <= j < n - 1 implies #[trigger] item_accepted(items[j]) by {
                assert(item_accepted(items[j]));
            }
            assert(item_accepted(items[n - 1]));
        }
    }
}

/// Law: a block checks out exactly when its type is a plain identifier,
/// every item is accepted, and `Context`, `Item` and `Items` are declared.
/// Else the answer is, in this order of precedence: a generic type; one
/// error for each item that is not accepted, naming its position, in the
/// order of the items; no `Context`; no `Item`; no `Items`.
pub proof fn law_block_errors(self_is_ident: bool, items: Seq<ImplItemKind>)
    requires
        items.len() <= usize::MAX,
    ensures
        block_items(self_is_ident, items) is Ok <==> {
            &&& self_is_ident
            &&& forall|j: int| 0 <= j < items.len() ==> #[trigger] item_accepted(items[j])
            &&& exists|j: int| 0 <= j < items.len() && #[trigger] declares(items[j], "Context"@)
            &&& exists|j: int| 0 <= j < items.len() && #[trigger] declares(items[j], "Item"@)
            &&& exists|j: int| 0 <= j < items.len() && #[trigger] declares(items[j], "Items"@)
        },
        !self_is_ident ==> block_items(self_is_ident, items) == Err::<AssociatedTypes, Seq<BlockError>>(
            seq![BlockError::GenericSelf],
        ),
        self_is_ident && (exists|j: int| 0 <= j < items.len() && !#[trigger] item_accepted(items[j]))
            ==> (block_items(self_is_ident, items) matches Err(e) && e.len() > 0 && errors_of_items(
            items,
            items.len() as int,
            e,
        )),
        self_is_ident && (forall|j: int| 0 <= j < items.len() ==> #[trigger] item_accepted(items[j]))
            && !(exists|j: int| 0 <= j < items.len() && #[trigger] declares(items[j], "Context"@))
            ==> block_items(self_is_ident, items) == Err::<AssociatedTypes, Seq<BlockError>>(
            seq![BlockError::NoContext],
        ),
        self_is_ident && (forall|j: int| 0 <= j < items.len() ==> #[trigger] item_accepted(items[j]))
            && (exists|j: int| 0 <= j < items.len() && #[trigger] declares(items[j], "Context"@))
            && !(exists|j: int| 0 <= j < items.len() && #[trigger] declares(items[j], "Item"@))
            ==> block_items(self_is_ident, items) == Err::<AssociatedTypes, Seq<BlockError>>(
            seq![BlockError::NoItem],
        ),
        self_is_ident && (forall|j: int| 0 <= j < items.len() ==> #[trigger] item_accepted(items[j]))
            && (exists|j: int| 0 <= j < items.len() && #[trigger] declares(items[j], "Context"@))
            && (exists|j: int| 0 <= j < items.len() && #[trigger] declares(items[j], "Item"@))
            && !(exists|j: int| 0 <= j < items.len() && #[trigger] declares(items[j], "Items"@))
            ==> block_items(self_is_ident, items) == Err::<AssociatedTypes, Seq<BlockError>>(
            seq![BlockError::NoItems],
        ),
{
    let n = items.len() as int;
    assert(items.take(n) =~= items);
    lemma_bad_items(items, n);
    lemma_last_declaring(items, "Context"@, n);
    lemma_last_declaring(items, "Item"@, n);
    lemma_last_declaring(items, "Items"@, n);
    let bad = bad_items(items, n);
    if exists|j: int| 0 <= j < n && !#[trigger] item_accepted(items[j]) {
        let j = choose|j: int| 0 <= j < n && !#[trigger] item_accepted(items[j]);
        assert(!item_accepted(items[j]));
        assert(bad.len() > 0);
    }
    match last_declaring(items, "Context"@, n) {
        Some(k) => {
            assert(declares(items[k as int], "Context"@));
        },
        None => {},
    }
    match last_declaring(items, "Item"@, n) {
        Some(k) => {
            assert(declares(items[k as int], "Item"@));
        },
        None => {},
    }
    match last_declaring(items, "Items"@, n) {
        Some(k) => {
            assert(declares(items[k as int], "Items"@));
        },
        None => {},
    }
}

/// The errors of the first `n` items, in order.
pub open spec fn bad_items(items: Seq<ImplItemKind>, n: int) -> Seq<BlockError>
    decreases n,
{
    if n <= 0 {
        Seq::empty()
    } else {
        bad_items(items, n - 1) + item_errors(items[n - 1], n - 1)
    }
}

/// What checking a block gives, for a type that is a plain identifier if
/// `self_is_ident`: an error if it is not; else the errors of the items, in
/// order; else an error for the first of `Context`, `Item`, `Items` that is
/// not declared; else which items declare the associated types.
pub open spec fn block_items(self_is_ident: bool, items: Seq<ImplItemKind>) -> Result<
    AssociatedTypes,
    Seq<BlockError>,
> {
    let n = items.len() as int;
    let bad = bad_items(items, n);
    if !self_is_ident {
        Err(seq![BlockError::GenericSelf])
    } else if bad.len() > 0 {
        Err(bad)
    } else if last_declaring(items, "Context"@, n) is None {
        Err(seq![BlockError::NoContext])
    } else if last_declaring(items, "Item"@, n) is None {
        Err(seq![BlockError::NoItem])
    } else if last_declaring(items, "Items"@, n) is None {
        Err(seq![BlockError::NoItems])
    } else {
        Ok(
            AssociatedTypes {
                context: last_declaring(items, "Context"@, n)->Some_0,
                item: last_declaring(items, "Item"@, n)->Some_0,
                items: last_declaring(items, "Items"@, n)->Some_0,
                resolver: last_declaring(items, "Resolver"@, n),
                make_item: last_declaring(items, "MakeItem"@, n),
            },
        )
    }
}

/// Checks an `impl_modify` block for a type that is a plain identifier if
/// `self_is_ident`, with the items `items` (see [`block_items`]).
pub fn read_items(self_is_ident: bool, items: &[ImplItemKind]) -> (r: Result<AssociatedTypes, Vec<BlockError>>)
    ensures
        match r {
            Ok(a) => block_items(self_is_ident, items@) == Ok::<AssociatedTypes, Seq<BlockError>>(a),
            Err(e) => block_items(self_is_ident, items@) == Err::<AssociatedTypes, Seq<BlockError>>(e@),
        },
        r matches Ok(a) ==> {
            &&& is_last_declaring(items@, "Context"@, Some(a.context))
            &&& is_last_declaring(items@, "Item"@, Some(a.item))
            &&& is_last_declaring(items@, "Items"@, Some(a.items))
            &&& is_last_declaring(items@, "Resolver"@, a.resolver)
            &&& is_last_declaring(items@, "MakeItem"@, a.make_item)
        },
{
    let len = items.len();
    proof {
        law_block_last_declaring(self_is_ident, items@);
    }
    if !self_is_ident {
        let mut e = Vec::new();
        e.push(BlockError::GenericSelf);
        assert(e@ =~= seq![BlockError::GenericSelf]);
        return Err(e);
    }
    let context = String::from_str("Context");
    let item = String::from_str("Item");
    let items_name = String::from_str("Items");
    let resolver = String::from_str("Resolver");
    let make_item = String::from_str("MakeItem");
    let mut found_context: Option<usize> = None;
    let mut found_item: Option<usize> = None;
    let mut found_items: Option<usize> = None;
    let mut found_resolver: Option<usize> = None;
    let mut found_make_item: Option<usize> = None;
    let mut errors: Vec<BlockError> = Vec::new();
    let mut k: usize = 0;
    while k < len
        invariant
            k <= items@.len(),
            len == items@.len(),
            context@ == "Context"@,
            item@ == "Item"@,
            items_name@ == "Items"@,
            resolver@ == "Resolver"@,
            make_item@ == "MakeItem"@,
            found_context == last_declaring(items@, "Context"@, k as int),
            found_item == last_declaring(items@, "Item"@, k as int),
            found_items == last_declaring(items@, "Items"@, k as int),
            found_resolver == last_declaring(items@, "Resolver"@, k as int),
            found_make_item == last_declaring(items@, "MakeItem"@, k as int),
            errors@ == bad_items(items@, k as int),
        decreases items@.len() - k,
    {
        match &items[k] {
            ImplItemKind::Type(name) => {
                let is_context = *name == context;
                let is_item = *name == item;
                let is_items = *name == items_name;
                let is_resolver = *name == resolver;
                let is_make_item = *name == make_item;
                if is_context {
                    found_context = Some(k);
                }
                if is_item {
                    found_item = Some(k);
                }
                if is_items {
                    found_items = Some(k);
                }
                if is_resolver {
                    found_resolver = Some(k);
                }
                if is_make_item {
                    found_make_item = Some(k);
                }
                proof {
                    let names = known_names();
                    assert(names[0] == "Context"@);
                    assert(names[1] == "Item"@);
                    assert(names[2] == "Items"@);
                    assert(names[3] == "Resolver"@);
                    assert(names[4] == "MakeItem"@);
                    if names.contains(name@) {
                        let j = choose|j: int| 0 <= j < names.len() && names[j] == name@;
                        assert(j == 0 || j == 1 || j == 2 || j == 3 || j == 4);
                    }
                }
                if !(is_context || is_item || is_items || is_resolver || is_make_item) {
                    errors.push(BlockError::BadItem(k));
                }
            },
            ImplItemKind::Fn(None, _) => {
                errors.push(BlockError::BadAttributes(k));
            },
            ImplItemKind::Fn(Some(m), inputs) => {
                match m.validate(inputs.as_slice()) {
                    Ok(()) => {},
                    Err(e) => {
                        errors.push(BlockError::BadFn(k, e));
                    },
                }
            },
            ImplItemKind::Other => {
                errors.push(BlockError::BadItem(k));
            },
        }
        proof {
            assert(errors@ =~= bad_items(items@, k + 1));
        }
        k = k + 1;
    }
    if errors.len() > 0 {
        return Err(errors);
    }
    let context = match found_context {
        Some(c) => c,
        None => {
            let mut e = Vec::new();
            e.push(BlockError::NoContext);
            assert(e@ =~= seq![BlockError::NoContext]);
            return Err(e);
        },
    };
    let item = match found_item {
        Some(c) => c,
        None => {
            let mut e = Vec::new();
            e.push(BlockError::NoItem);
            assert(e@ =~= seq![BlockError::NoItem]);
            return Err(e);
        },
    };
    let items = match found_items {
        Some(c) => c,
        None => {
            let mut e = Vec::new();
            e.push(BlockError::NoItems);
            assert(e@ =~= seq![BlockError::NoItems]);
            return Err(e);
        },
    };
    Ok(AssociatedTypes { context, item, items, resolver: found_resolver, make_item: found_make_item })
}

} // verus!
