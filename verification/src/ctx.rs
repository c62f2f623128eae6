//! The table of variables: it hands out the unique tags, and keeps every
//! variable it made under the index at which it made it.

use vstd::prelude::*;
use crate::var::{CompilerPhase, Uniq, Var, VarModel};

verus! {

/// The identity of a variable in the table: the index at which it stands.
/// The tag of the variable is this index plus one.
pub type VarId = u32;

/// The table of variables.
pub struct Ctx {
    vars: Vec<Var>,
}

impl View for Ctx {
    type V = Seq<VarModel>;

    closed spec fn view(&self) -> Seq<VarModel> {
        Seq::new(self.vars@.len(), |i: int| self.vars@[i]@)
    }
}

/// What adding a variable of the given kind does to a table.
pub enum Fresh {
    User(Seq<char>),
    Generated(CompilerPhase),
    Builtin(Seq<char>),
    External(Seq<char>),
}

impl Fresh {
    /// The variable of this kind with the tag `tag`.
    pub open spec fn with_tag(self, tag: u32) -> VarModel {
        match self {
            Fresh::User(name) => VarModel::User { name, tag },
            Fresh::Generated(phase) => VarModel::Generated { phase, tag },
            Fresh::Builtin(name) => VarModel::Builtin { name, tag },
            Fresh::External(name) => VarModel::External { name, tag },
        }
    }
}

/// The table `vars` with a fresh variable of kind `kind` at its end, and the
/// identity of that variable; `None` where no tag is left.
pub open spec fn extend(vars: Seq<VarModel>, kind: Fresh) -> Option<(Seq<VarModel>, VarId)> {
    if vars.len() >= u32::MAX {
        None
    } else {
        Some((vars.push(kind.with_tag((vars.len() + 1) as u32)), vars.len() as u32))
    }
}

/// What a table is after an attempt to add a variable of kind `kind`, and
/// what the attempt gave.
pub open spec fn extended(
    before: Seq<VarModel>,
    kind: Fresh,
    after: Seq<VarModel>,
    r: Option<VarId>,
) -> bool {
    match extend(before, kind) {
        None => r is None && after == before,
        Some((vars, id)) => r == Some(id) && after == vars,
    }
}

/// Every variable of the table has its index plus one as its tag, and no
/// index is beyond what a tag can hold.
pub open spec fn well_tagged(vars: Seq<VarModel>) -> bool {
    &&& vars.len() <= u32::MAX
    &&& forall|i: int| 0 <= i < vars.len() ==> (#[trigger] vars[i]).tag() == i + 1
}

impl Ctx {
    /// The table is well formed.
    pub open spec fn wf(&self) -> bool {
        well_tagged(self@)
    }

    /// A table without variables.
    pub fn new() -> (ctx: Ctx)
        ensures
            ctx@ == Seq::<VarModel>::empty(),
            ctx.wf(),
    {
        let ctx = Ctx { vars: Vec::new() };
        assert(ctx@ =~= Seq::<VarModel>::empty());
        ctx
    }

    /// The number of variables in the table.
    pub fn len(&self) -> (n: usize)
        ensures
            n == self@.len(),
    {
        self.vars.len()
    }

    /// The variable with identity `id`.
    pub fn get_var(&self, id: VarId) -> (v: &Var)
        requires
            id < self@.len(),
        ensures
            v@ == self@[id as int],
    {
        &self.vars[id as usize]
    }

    /// The tag that the next variable gets, if one is left.
    fn next_tag(&self) -> (r: Option<Uniq>)
        ensures
            self@.len() >= u32::MAX ==> r is None,
            self@.len() < u32::MAX ==> r is Some && r->Some_0.value() == self@.len() + 1,
    {
        let n = self.vars.len();
        if n >= u32::MAX as usize {
            None
        } else {
            Uniq::new((n + 1) as u32)
        }
    }

    fn add(&mut self, v: Var) -> (id: VarId)
        requires
            old(self)@.len() < u32::MAX,
        ensures
            id == old(self)@.len(),
            final(self)@ == old(self)@.push(v@),
    {
        let id = self.vars.len() as u32;
        self.vars.push(v);
        assert(self@ =~= old(self)@.push(v@));
        id
    }

    /// Makes a user variable named `name`. Gives its identity, or `None`
    /// when no tag is left; the table then stays as it is.
    pub fn fresh_user(&mut self, name: &str) -> (r: Option<VarId>)
        ensures
            extended(old(self)@, Fresh::User(name@), final(self)@, r),
            old(self).wf() ==> final(self).wf(),
    {
        match self.next_tag() {
            None => None,
            Some(tag) => Some(self.add(Var::new_user(name, tag))),
        }
    }

    /// Makes a variable generated by `phase`. Gives its identity, or `None`
    /// when no tag is left; the table then stays as it is.
    pub fn fresh_generated(&mut self, phase: CompilerPhase) -> (r: Option<VarId>)
        ensures
            extended(old(self)@, Fresh::Generated(phase), final(self)@, r),
            old(self).wf() ==> final(self).wf(),
    {
        match self.next_tag() {
            None => None,
            Some(tag) => Some(self.add(Var::new_generated(phase, tag))),
        }
    }

    /// Makes a built-in variable named `name`. Gives its identity, or `None`
    /// when no tag is left; the table then stays as it is.
    pub fn fresh_builtin(&mut self, name: &str) -> (r: Option<VarId>)
        ensures
            extended(old(self)@, Fresh::Builtin(name@), final(self)@, r),
            old(self).wf() ==> final(self).wf(),
    {
        match self.next_tag() {
            None => None,
            Some(tag) => Some(self.add(Var::new_builtin(name, tag))),
        }
    }

    /// Makes an external variable named `name`. Gives its identity, or
    /// `None` when no tag is left; the table then stays as it is.
    pub fn fresh_external(&mut self, name: &str) -> (r: Option<VarId>)
        ensures
            extended(old(self)@, Fresh::External(name@), final(self)@, r),
            old(self).wf() ==> final(self).wf(),
    {
        match self.next_tag() {
            None => None,
            Some(tag) => Some(self.add(Var::new_external(name, tag))),
        }
    }
}

} // verus!
