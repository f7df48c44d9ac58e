//! The `modify` attributes of a modify function, as far as the checks on the
//! function read them: the kind of each attribute and the argument it is
//! passed as, and whether the function's arguments are plain identifiers.
//!
//! Identifiers are held as their text.
use vstd::prelude::*;

pub mod block;
pub mod path;

verus! {

/// Whether a field is read or written.
#[derive(Clone, Copy, PartialEq, Eq, Structural, Debug)]
pub enum Mode {
    Read,
    Write,
}

/// The kind of a `modify` attribute.
#[derive(Clone, Copy, PartialEq, Eq, Structural, Debug)]
pub enum ModifyType {
    /// `context([ident =] .path)`: a path in the context.
    Context,
    /// `write(.path)`: the path in the item the return value is written to.
    Write,
    /// `write_mut([ident =] .path)`: a path in the item passed as `&mut`,
    /// only written.
    WriteMut,
    /// `read([ident =] .path)`: a path in the item passed as `&`.
    Read,
    /// `read_write([ident =] .path)`: a path in the item passed as `&mut`.
    ReadWrite,
}

/// Attributes of this kind write to the item.
pub open spec fn writes(ty: ModifyType) -> bool {
    ty is Write || ty is WriteMut || ty is ReadWrite
}

/// Attributes of this kind read the item or the context.
pub open spec fn reads(ty: ModifyType) -> bool {
    ty is Read || ty is ReadWrite || ty is Context
}

/// One `modify` attribute: its kind, and the identifier of the argument of
/// the function it is passed as.
#[derive(Clone, PartialEq, Eq, Debug)]
pub struct Modify {
    pub ty: ModifyType,
    pub ident: String,
}

impl Modify {
    /// This attribute writes to the item.
    pub fn is_write(&self) -> (r: bool)
        ensures
            r == writes(self.ty),
    {
        match self.ty {
            ModifyType::Write | ModifyType::WriteMut | ModifyType::ReadWrite => true,
            _ => false,
        }
    }

    /// This attribute reads the item or the context.
    pub fn is_read(&self) -> (r: bool)
        ensures
            r == reads(self.ty),
    {
        match self.ty {
            ModifyType::Read | ModifyType::ReadWrite | ModifyType::Context => true,
            _ => false,
        }
    }

    /// This attribute is passed to the function as an argument: all but
    /// `write`, whose path gets the return value.
    pub fn requires_identifier(&self) -> (r: bool)
        ensures
            r == !(self.ty is Write),
    {
        match self.ty {
            ModifyType::Write => false,
            _ => true,
        }
    }

    /// This attribute is passed as the argument `ident`.
    pub fn has_ident(&self, ident: &String) -> (r: bool)
        ensures
            r == (self.ident@ == ident@),
    {
        self.ident == *ident
    }
}

/// `dynamic_read_write(read, write [, param_name])`: the item is passed as
/// `param_name`, and its fields `read` and `write` tell which paths it reads
/// and writes.
#[derive(Clone, PartialEq, Eq, Debug)]
pub struct DynamicReadWrite {
    pub read: String,
    pub write: String,
    pub param_name: String,
}

impl DynamicReadWrite {
    /// The field that tells which paths are accessed in `mode`.
    pub fn field_ident(&self, mode: Mode) -> (r: &String)
        ensures
            r == match mode {
                Mode::Read => &self.read,
                Mode::Write => &self.write,
            },
    {
        match mode {
            Mode::Read => &self.read,
            Mode::Write => &self.write,
        }
    }
}

/// The `modify` attributes of one modify function.
#[derive(Clone, PartialEq, Eq, Debug)]
pub struct Modifiers {
    pub mods: Vec<Modify>,
    pub dynamic: Option<DynamicReadWrite>,
}

/// Why a modify function does not match its attributes.
#[derive(Clone, Copy, PartialEq, Eq, Structural, Debug)]
pub enum ValidateError {
    /// It has neither an attribute that writes nor a dynamic one: it does
    /// nothing.
    NoOutput,
    /// Its argument at this position is not a plain identifier.
    NonIdentInput(usize),
    /// The attribute at this position is passed as an argument the function
    /// does not have.
    MissingArgument(usize),
}

/// `k` is the first of `mods` passed as the argument `ident`.
pub open spec fn is_first_with(mods: Seq<Modify>, ident: Seq<char>, k: int) -> bool {
    &&& 0 <= k < mods.len()
    &&& mods[k].ident@ == ident
    &&& forall|j: int| 0 <= j < k ==> (#[trigger] mods[j]).ident@ != ident
}

/// Argument `i` of `inputs` is an identifier, and attribute `k` is the first
/// of `mods` passed as it.
pub open spec fn passes(inputs: Seq<Option<String>>, i: int, mods: Seq<Modify>, k: int) -> bool {
    inputs[i] matches Some(x) && is_first_with(mods, x@, k)
}

/// Attribute `k` of `mods` is matched by the arguments `inputs`: it is not
/// passed as an argument, or it is the first attribute passed as one of
/// them.
pub open spec fn matched(mods: Seq<Modify>, inputs: Seq<Option<String>>, k: int) -> bool {
    ||| mods[k].ty is Write
    ||| exists|i: int|
        0 <= i < inputs.len() && #[trigger] passes(inputs, i, mods, k)
}

/// The first of `inputs` that is not an identifier.
pub open spec fn first_non_ident(inputs: Seq<Option<String>>) -> Option<int>
    decreases inputs.len(),
{
    if inputs.len() == 0 {
        None
    } else {
        match first_non_ident(inputs.drop_last()) {
            Some(i) => Some(i),
            None => if inputs.last() is None {
                Some(inputs.len() - 1)
            } else {
                None
            },
        }
    }
}

/// The first of the first `n` attributes of `mods` that `inputs` does not
/// match.
pub open spec fn first_unmatched(mods: Seq<Modify>, inputs: Seq<Option<String>>, n: int) -> Option<int>
    decreases n,
{
    if n <= 0 {
        None
    } else {
        match first_unmatched(mods, inputs, n - 1) {
            Some(k) => Some(k),
            None => if !matched(mods, inputs, n - 1) {
                Some(n - 1)
            } else {
                None
            },
        }
    }
}

/// What checking a modify function with arguments `inputs` against the
/// attributes `mods` and `has_dynamic` gives, each error in turn.
pub open spec fn validation(mods: Seq<Modify>, has_dynamic: bool, inputs: Seq<Option<String>>) -> Result<
    (),
    ValidateError,
> {
    if !has_dynamic && !(exists|k: int| 0 <= k < mods.len() && writes(#[trigger] mods[k].ty)) {
        Err(ValidateError::NoOutput)
    } else if let Some(i) = first_non_ident(inputs) {
        Err(ValidateError::NonIdentInput(i as usize))
    } else if let Some(k) = first_unmatched(mods, inputs, mods.len() as int) {
        Err(ValidateError::MissingArgument(k as usize))
    } else {
        Ok(())
    }
}

proof fn lemma_first_non_ident(inputs: Seq<Option<String>>, n: int)
    requires
        0 <= n <= inputs.len(),
        forall|i: int| 0 <= i < n ==> #[trigger] inputs[i] is Some,
    ensures
        first_non_ident(inputs.take(n)) is None,
        n < inputs.len() && inputs[n] is None ==> first_non_ident(inputs.take(n + 1)) == Some(n),
        n < inputs.len() && inputs[n] is Some ==> first_non_ident(inputs.take(n + 1)) is None,
    decreases n,
{
    if n > 0 {
        lemma_first_non_ident(inputs, n - 1);
        assert(inputs.take(n).drop_last() =~= inputs.take(n - 1));
    }
    if n < inputs.len() {
        assert(inputs.take(n + 1).drop_last() =~= inputs.take(n));
    }
}

proof fn lemma_first_non_ident_prefix(inputs: Seq<Option<String>>, n: int)
    requires
        0 <= n <= inputs.len(),
        first_non_ident(inputs.take(n)) is Some,
    ensures
        first_non_ident(inputs) == first_non_ident(inputs.take(n)),
    decreases inputs.len(),
{
    if n == inputs.len() {
        assert(inputs.take(n) =~= inputs);
    } else {
        assert(inputs.drop_last().take(n) =~= inputs.take(n));
        lemma_first_non_ident_prefix(inputs.drop_last(), n);
    }
}

proof fn lemma_first_unmatched_prefix(mods: Seq<Modify>, inputs: Seq<Option<String>>, n: int, m: int)
    requires
        0 <= n <= m,
        first_unmatched(mods, inputs, n) is Some,
    ensures
        first_unmatched(mods, inputs, m) == first_unmatched(mods, inputs, n),
    decreases m - n,
{
    if n < m {
        lemma_first_unmatched_prefix(mods, inputs, n, m - 1);
    }
}

impl Modifiers {
    /// The first attribute passed as the argument `ident`.
    fn position(&self, ident: &String) -> (r: Option<usize>)
        ensures
            match r {
                Some(k) => is_first_with(self.mods@, ident@, k as int),
                None => forall|k: int| 0 <= k < self.mods@.len() ==> (#[trigger] self.mods@[k]).ident@ != ident@,
            },
    {
        let mut k: usize = 0;
        while k < self.mods.len()
            invariant
                k <= self.mods@.len(),
                forall|j: int| 0 <= j < k ==> (#[trigger] self.mods@[j]).ident@ != ident@,
            decreases self.mods@.len() - k,
        {
            if self.mods[k].has_ident(ident) {
                return Some(k);
            }
            k = k + 1;
        }
        None
    }

    /// Checks a modify function, whose arguments are `inputs` (`None` for
    /// one that is not a plain identifier), against these attributes (see
    /// [`validation`]).
    pub fn validate(&self, inputs: &[Option<String>]) -> (r: Result<(), ValidateError>)
        ensures
            r == validation(self.mods@, self.dynamic is Some, inputs@),
    {
        let ghost mods = self.mods@;
        let has_dynamic = self.dynamic.is_some();
        let mut has_write = false;
        let mut k: usize = 0;
        while k < self.mods.len()
            invariant
                k <= mods.len(),
                mods == self.mods@,
                has_write == exists|j: int| 0 <= j < k && writes(#[trigger] mods[j].ty),
            decreases mods.len() - k,
        {
            if self.mods[k].is_write() {
                has_write = true;
            }
            k = k + 1;
        }
        if !has_dynamic && !has_write {
            return Err(ValidateError::NoOutput);
        }
        let mut found: Vec<bool> = Vec::new();
        let mut k: usize = 0;
        while k < self.mods.len()
            invariant
                k <= mods.len(),
                mods == self.mods@,
                found@.len() == k,
                forall|j: int| 0 <= j < k ==> #[trigger] found@[j] == (mods[j].ty is Write),
            decreases mods.len() - k,
        {
            found.push(!self.mods[k].requires_identifier());
            k = k + 1;
        }
        let mut i: usize = 0;
        while i < inputs.len()
            invariant
                has_dynamic == (self.dynamic is Some),
                has_dynamic || exists|j: int| 0 <= j < mods.len() && writes(#[trigger] mods[j].ty),
                i <= inputs@.len(),
                mods == self.mods@,
                found@.len() == mods.len(),
                forall|x: int| 0 <= x < i ==> #[trigger] inputs@[x] is Some,
                forall|j: int|
                    0 <= j < mods.len() ==> #[trigger] found@[j] == (mods[j].ty is Write || exists|x: int|
                        0 <= x < i && #[trigger] passes(inputs@, x, mods, j)),
            decreases inputs@.len() - i,
        {
            proof {
                lemma_first_non_ident(inputs@, i as int);
            }
            match &inputs[i] {
                None => {
                    proof {
                        lemma_first_non_ident_prefix(inputs@, i as int + 1);
                    }
                    return Err(ValidateError::NonIdentInput(i));
                },
                Some(ident) => {
                    let ghost before = found@;
                    if let Some(p) = self.position(ident) {
                        found.set(p, true);
                    }
                    proof {
                        assert forall|j: int| 0 <= j < mods.len() implies #[trigger] found@[j] == (mods[j].ty
                            is Write || exists|x: int|
                            0 <= x < i + 1 && #[trigger] passes(inputs@, x, mods, j)) by {
                            if is_first_with(mods, ident@, j) {
                                assert(passes(inputs@, i as int, mods, j));
                            } else {
                                if exists|x: int|
                                    0 <= x < i + 1 && #[trigger] passes(inputs@, x, mods, j) {
                                    let x = choose|x: int|
                                        0 <= x < i + 1 && #[trigger] passes(inputs@, x, mods, j);
                                    assert(x != i);
                                }
                            }
                        }
                    }
                },
            }
            i = i + 1;
        }
        proof {
            lemma_first_non_ident(inputs@, inputs@.len() as int);
            assert(inputs@.take(inputs@.len() as int) =~= inputs@);
            assert forall|j: int| 0 <= j < mods.len() implies #[trigger] found@[j] == matched(mods, inputs@, j) by {}
        }
        let mut k: usize = 0;
        while k < found.len()
            invariant
                mods == self.mods@,
                has_dynamic == (self.dynamic is Some),
                has_dynamic || exists|j: int| 0 <= j < mods.len() && writes(#[trigger] mods[j].ty),
                first_non_ident(inputs@) is None,
                k <= mods.len(),
                found@.len() == mods.len(),
                forall|j: int| 0 <= j < mods.len() ==> #[trigger] found@[j] == matched(mods, inputs@, j),
                first_unmatched(mods, inputs@, k as int) is None,
            decreases mods.len() - k,
        {
            if !found[k] {
                proof {
                    lemma_first_unmatched_prefix(mods, inputs@, k + 1, mods.len() as int);
                }
                return Err(ValidateError::MissingArgument(k));
            }
            k = k + 1;
        }
        Ok(())
    }

    /// The argument `arg` of a checked modify function is state of its own:
    /// neither the dynamic parameter nor passed to an attribute.
    pub fn is_constructor_input(&self, arg: &Option<String>) -> (r: bool)
        requires
            arg is Some,
        ensures
            r == (!(self.dynamic matches Some(d) && d.param_name@ == arg->Some_0@) && !(exists|k: int|
                0 <= k < self.mods@.len() && (#[trigger] self.mods@[k]).ident@ == arg->Some_0@)),
    {
        let ident = match arg {
            Some(ident) => ident,
            None => {
                assert(false);
                return false;
            },
        };
        let dynamic = match &self.dynamic {
            Some(d) => {
                let same = d.param_name == *ident;
                assert(same == (d.param_name@ == ident@));
                same
            },
            None => false,
        };
        let used = match self.position(ident) {
            Some(k) => {
                assert(self.mods@[k as int].ident@ == ident@);
                true
            },
            None => false,
        };
        !dynamic && !used
    }

    /// The fields of the dynamic attribute that tell what is read and
    /// written, if there is one.
    pub fn dynamic_fields(&self) -> (r: Vec<&String>)
        ensures
            match self.dynamic {
                Some(d) => r@ == seq![&d.read, &d.write],
                None => r@.len() == 0,
            },
    {
        let mut out: Vec<&String> = Vec::new();
        if let Some(d) = &self.dynamic {
            out.push(&d.read);
            out.push(&d.write);
        }
        out
    }

    /// The field of the dynamic attribute that tells what is accessed in
    /// `mode`, if there is one.
    pub fn dynamic_field(&self, mode: Mode) -> (r: Option<&String>)
        ensures
            match self.dynamic {
                Some(d) => r == Some(
                    match mode {
                        Mode::Read => &d.read,
                        Mode::Write => &d.write,
                    },
                ),
                None => r is None,
            },
    {
        match &self.dynamic {
            Some(d) => Some(d.field_ident(mode)),
            None => None,
        }
    }
}

} // verus!
