//! Variable identities: unique tags, and the four kinds of variable that
//! carry them.

use vstd::prelude::*;
use crate::text::{decimal, hex_upper, push_decimal, push_hex_upper, push_text};

verus! {

/// A unique tag: an integer that is never zero. Two variables are the same
/// variable exactly when their tags are equal.
#[derive(Debug, Hash, PartialEq, Eq, Clone, Copy, Structural)]
pub struct Uniq(pub(crate) u32);

impl Uniq {
    #[verifier::type_invariant]
    pub closed spec fn inv(self) -> bool {
        self.0 != 0
    }

    /// The integer of the tag.
    pub closed spec fn value(self) -> u32 {
        self.0
    }

    /// The tag with integer `n`, if `n` is not zero.
    pub fn new(n: u32) -> (r: Option<Uniq>)
        ensures
            n == 0 ==> r is None,
            n != 0 ==> r is Some && r->Some_0.value() == n,
    {
        if n == 0 {
            None
        } else {
            Some(Uniq(n))
        }
    }

    /// The integer of the tag, which is not zero.
    pub fn get(self) -> (n: u32)
        ensures
            n == self.value(),
            n != 0,
    {
        proof {
            use_type_invariant(self);
        }
        self.0
    }

    /// Two tags with the same integer are the same tag.
    pub proof fn lemma_same_value(a: Uniq, b: Uniq)
        requires
            a.value() == b.value(),
        ensures
            a == b,
    {
    }
}

/// The pass that made a generated variable.
#[derive(Debug, PartialEq, Eq, Hash, Clone, Copy, Structural)]
pub enum CompilerPhase {
    Parser,
    TyChecker,
    KNormal,
    ANormal,
    ClosureConvert,
}

impl CompilerPhase {
    /// The short name of the pass, as it shows in a generated variable.
    pub open spec fn short_name(self) -> Seq<char> {
        match self {
            CompilerPhase::Parser => "p"@,
            CompilerPhase::TyChecker => "tc"@,
            CompilerPhase::KNormal => "kn"@,
            CompilerPhase::ANormal => "an"@,
            CompilerPhase::ClosureConvert => "cc"@,
        }
    }

    /// The short name of the pass, as it shows in a generated variable.
    pub fn display_str(&self) -> (s: &'static str)
        ensures
            s@ == self.short_name(),
    {
        match self {
            CompilerPhase::Parser => "p",
            CompilerPhase::TyChecker => "tc",
            CompilerPhase::KNormal => "kn",
            CompilerPhase::ANormal => "an",
            CompilerPhase::ClosureConvert => "cc",
        }
    }
}

/// A variable that the source program names.
#[derive(Debug, Hash, Clone)]
pub struct UserVar {
    name: String,
    uniq: Uniq,
}

impl UserVar {
    /// The tag of the variable.
    pub closed spec fn uniq(&self) -> Uniq {
        self.uniq
    }

    /// The name of the variable in the source.
    pub closed spec fn spec_name(&self) -> Seq<char> {
        self.name@
    }

    /// What the variable prints as: its name, an underscore and its tag.
    pub open spec fn text(&self) -> Seq<char> {
        self.spec_name() + "_"@ + decimal(self.uniq().value() as nat)
    }

    pub fn get_unique(&self) -> (u: Uniq)
        ensures
            u == self.uniq(),
    {
        self.uniq
    }

    pub fn name(&self) -> (s: String)
        ensures
            s@ == self.spec_name(),
    {
        self.name.clone()
    }

    /// What the variable prints as.
    pub fn to_string(&self) -> (s: String)
        ensures
            s@ == self.text(),
    {
        let mut s = self.name.clone();
        push_text(&mut s, "_");
        push_decimal(&mut s, self.uniq.get());
        s
    }
}

impl PartialEq for UserVar {
    fn eq(&self, other: &Self) -> (r: bool) {
        self.uniq == other.uniq
    }
}

impl Eq for UserVar {

}

impl vstd::std_specs::cmp::PartialEqSpecImpl for UserVar {
    open spec fn obeys_eq_spec() -> bool {
        true
    }

    open spec fn eq_spec(&self, other: &Self) -> bool {
        self.uniq() == other.uniq()
    }
}

/// A variable that a pass of the compiler made. It has no name in the
/// source.
#[derive(Debug, Hash, Clone)]
pub struct GeneratedVar {
    phase: CompilerPhase,
    uniq: Uniq,
}

impl GeneratedVar {
    /// The tag of the variable.
    pub closed spec fn uniq(&self) -> Uniq {
        self.uniq
    }

    /// The pass that made the variable.
    pub closed spec fn phase(&self) -> CompilerPhase {
        self.phase
    }

    /// What the variable prints as: a hash sign, the short name of its
    /// pass, an underscore and its tag in hexadecimal.
    pub open spec fn text(&self) -> Seq<char> {
        "#"@ + self.phase().short_name() + "_0x"@ + hex_upper(self.uniq().value() as nat)
    }

    pub fn get_unique(&self) -> (u: Uniq)
        ensures
            u == self.uniq(),
    {
        self.uniq
    }

    /// What the variable prints as.
    pub fn to_string(&self) -> (s: String)
        ensures
            s@ == self.text(),
    {
        let mut s = String::new();
        push_text(&mut s, "#");
        push_text(&mut s, self.phase.display_str());
        push_text(&mut s, "_0x");
        push_hex_upper(&mut s, self.uniq.get());
        assert(s@ =~= self.text());
        s
    }
}

impl PartialEq for GeneratedVar {
    fn eq(&self, other: &Self) -> (r: bool) {
        self.uniq == other.uniq
    }
}

impl Eq for GeneratedVar {

}

impl vstd::std_specs::cmp::PartialEqSpecImpl for GeneratedVar {
    open spec fn obeys_eq_spec() -> bool {
        true
    }

    open spec fn eq_spec(&self, other: &Self) -> bool {
        self.uniq() == other.uniq()
    }
}

/// A variable that the compiler knows by itself, such as `print_int`.
#[derive(Debug, Hash, PartialEq, Eq, Clone)]
pub struct BuiltinVar {
    name: String,
    uniq: Uniq,
}

impl BuiltinVar {
    /// The tag of the variable.
    pub closed spec fn uniq(&self) -> Uniq {
        self.uniq
    }

    /// The name that the compiler knows the variable by.
    pub closed spec fn spec_name(&self) -> Seq<char> {
        self.name@
    }

    /// What the variable prints as.
    pub open spec fn text(&self) -> Seq<char> {
        "#builtin["@ + self.spec_name() + "]"@
    }

    pub fn get_unique(&self) -> (u: Uniq)
        ensures
            u == self.uniq(),
    {
        self.uniq
    }

    pub fn name(&self) -> (s: String)
        ensures
            s@ == self.spec_name(),
    {
        self.name.clone()
    }

    /// What the variable prints as.
    pub fn to_string(&self) -> (s: String)
        ensures
            s@ == self.text(),
    {
        let mut s = String::new();
        push_text(&mut s, "#builtin[");
        push_text(&mut s, self.name.as_str());
        push_text(&mut s, "]");
        assert(s@ =~= self.text());
        s
    }
}

/// A variable whose name is resolved when the program is linked.
#[derive(Debug, Hash, PartialEq, Eq, Clone)]
pub struct ExternalVar {
    name: String,
    uniq: Uniq,
}

impl ExternalVar {
    /// The tag of the variable.
    pub closed spec fn uniq(&self) -> Uniq {
        self.uniq
    }

    /// The name that the linker resolves.
    pub closed spec fn spec_name(&self) -> Seq<char> {
        self.name@
    }

    /// What the variable prints as.
    pub open spec fn text(&self) -> Seq<char> {
        "#ext["@ + self.spec_name() + "]"@
    }

    pub fn get_unique(&self) -> (u: Uniq)
        ensures
            u == self.uniq(),
    {
        self.uniq
    }

    pub fn name(&self) -> (s: String)
        ensures
            s@ == self.spec_name(),
    {
        self.name.clone()
    }

    /// What the variable prints as.
    pub fn to_string(&self) -> (s: String)
        ensures
            s@ == self.text(),
    {
        let mut s = String::new();
        push_text(&mut s, "#ext[");
        push_text(&mut s, self.name.as_str());
        push_text(&mut s, "]");
        assert(s@ =~= self.text());
        s
    }
}

/// The mathematical model of a variable: its kind, what the kind carries,
/// and the integer of its tag.
pub enum VarModel {
    User { name: Seq<char>, tag: u32 },
    Generated { phase: CompilerPhase, tag: u32 },
    Builtin { name: Seq<char>, tag: u32 },
    External { name: Seq<char>, tag: u32 },
}

impl VarModel {
    /// The integer of the tag.
    pub open spec fn tag(self) -> u32 {
        match self {
            VarModel::User { name, tag } => tag,
            VarModel::Generated { phase, tag } => tag,
            VarModel::Builtin { name, tag } => tag,
            VarModel::External { name, tag } => tag,
        }
    }

    /// What the variable prints as: `name_tag` for a user variable, with the
    /// tag in decimal; `#phase_0xTAG` for a generated one, with the tag in
    /// upper-case hexadecimal; `#builtin[name]` and `#ext[name]` for the
    /// other two.
    pub open spec fn text(self) -> Seq<char> {
        match self {
            VarModel::User { name, tag } => name + "_"@ + decimal(tag as nat),
            VarModel::Generated { phase, tag } => "#"@ + phase.short_name() + "_0x"@ + hex_upper(
                tag as nat,
            ),
            VarModel::Builtin { name, tag } => "#builtin["@ + name + "]"@,
            VarModel::External { name, tag } => "#ext["@ + name + "]"@,
        }
    }
}

/// A variable: a tagged entity of one of four kinds.
#[derive(Debug, Hash, Clone)]
pub enum Var {
    User(UserVar),
    Generated(GeneratedVar),
    Builtin(BuiltinVar),
    External(ExternalVar),
}

impl View for Var {
    type V = VarModel;

    open spec fn view(&self) -> VarModel {
        match self {
            Var::User(var) => VarModel::User { name: var.spec_name(), tag: var.uniq().value() },
            Var::Generated(var) => VarModel::Generated {
                phase: var.phase(),
                tag: var.uniq().value(),
            },
            Var::Builtin(var) => VarModel::Builtin {
                name: var.spec_name(),
                tag: var.uniq().value(),
            },
            Var::External(var) => VarModel::External {
                name: var.spec_name(),
                tag: var.uniq().value(),
            },
        }
    }
}

impl Var {
    /// The tag of the variable.
    pub open spec fn uniq(&self) -> Uniq {
        match self {
            Var::User(var) => var.uniq(),
            Var::Generated(var) => var.uniq(),
            Var::Builtin(var) => var.uniq(),
            Var::External(var) => var.uniq(),
        }
    }

    /// The name of the variable. A generated variable has none.
    pub open spec fn spec_name(&self) -> Seq<char>
        recommends
            !(self is Generated),
    {
        match self {
            Var::User(var) => var.spec_name(),
            Var::Generated(var) => Seq::empty(),
            Var::Builtin(var) => var.spec_name(),
            Var::External(var) => var.spec_name(),
        }
    }

    pub fn get_uniq(&self) -> (u: Uniq)
        ensures
            u == self.uniq(),
    {
        match self {
            Var::User(var) => var.get_unique(),
            Var::Generated(var) => var.get_unique(),
            Var::Builtin(var) => var.get_unique(),
            Var::External(var) => var.get_unique(),
        }
    }

    pub fn new_user(name: &str, uniq: Uniq) -> (v: Var)
        ensures
            v@ == (VarModel::User { name: name@, tag: uniq.value() }),
            v.uniq() == uniq,
    {
        Var::User(UserVar { name: name.to_owned(), uniq })
    }

    pub fn new_generated(phase: CompilerPhase, uniq: Uniq) -> (v: Var)
        ensures
            v@ == (VarModel::Generated { phase: phase, tag: uniq.value() }),
            v.uniq() == uniq,
    {
        Var::Generated(GeneratedVar { phase, uniq })
    }

    pub fn new_builtin(name: &str, uniq: Uniq) -> (v: Var)
        ensures
            v@ == (VarModel::Builtin { name: name@, tag: uniq.value() }),
            v.uniq() == uniq,
    {
        Var::Builtin(BuiltinVar { name: name.to_owned(), uniq })
    }

    pub fn new_external(name: &str, uniq: Uniq) -> (v: Var)
        ensures
            v@ == (VarModel::External { name: name@, tag: uniq.value() }),
            v.uniq() == uniq,
    {
        Var::External(ExternalVar { name: name.to_owned(), uniq })
    }

    /// The name of the variable, which must not be a generated one.
    pub fn name(&self) -> (s: String)
        requires
            !(self is Generated),
        ensures
            s@ == self.spec_name(),
    {
        match self {
            Var::User(var) => var.name(),
            Var::Generated(var) => String::new(),
            Var::Builtin(var) => var.name(),
            Var::External(var) => var.name(),
        }
    }

    /// What the variable prints as.
    pub fn to_string(&self) -> (s: String)
        ensures
            s@ == self@.text(),
    {
        match self {
            Var::User(var) => var.to_string(),
            Var::Generated(var) => var.to_string(),
            Var::Builtin(var) => var.to_string(),
            Var::External(var) => var.to_string(),
        }
    }
}

impl PartialEq for Var {
    fn eq(&self, other: &Self) -> (r: bool) {
        self.get_uniq() == other.get_uniq()
    }
}

impl Eq for Var {

}

impl vstd::std_specs::cmp::PartialEqSpecImpl for Var {
    open spec fn obeys_eq_spec() -> bool {
        true
    }

    open spec fn eq_spec(&self, other: &Self) -> bool {
        self.uniq() == other.uniq()
    }
}

} // verus!
