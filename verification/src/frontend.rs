use vstd::prelude::*;

verus! {

/// The most local variables that can be live at once.
pub const LOCALS_COUNT: usize = 256;

/// A local variable: its name, the depth of the scope it belongs to, and whether its
/// initializer has been compiled.
#[derive(Clone, Debug)]
pub struct Local {
    pub name: String,
    pub depth: usize,
    pub initialized: bool,
}

/// The local variables in scope, innermost last; a local's slot is its index.
pub struct Locals {
    locals: Vec<Local>,
}

/// Some local named `name` is declared in a scope at depth `depth` or deeper, with no
/// shallower local declared after it.
pub open spec fn doubly_declared(ls: Seq<Local>, name: Seq<char>, depth: nat) -> bool {
    exists|i: int|
        0 <= i < ls.len() && #[trigger] ls[i].name@ == name && (forall|j: int|
            i <= j < ls.len() ==> #[trigger] ls[j].depth >= depth)
}

/// What resolving `name` gives: whether the variable may be read, and its slot when it is
/// a local (the innermost one of that name).
pub open spec fn resolves_to(ls: Seq<Local>, name: Seq<char>, r: (bool, Option<usize>)) -> bool {
    match r.1 {
        Some(i) => {
            &&& i < ls.len()
            &&& ls[i as int].name@ == name
            &&& r.0 == ls[i as int].initialized
            &&& forall|j: int| i < j < ls.len() ==> #[trigger] ls[j].name@ != name
        },
        None => {
            &&& r.0
            &&& forall|j: int| 0 <= j < ls.len() ==> #[trigger] ls[j].name@ != name
        },
    }
}

impl View for Locals {
    type V = Seq<Local>;

    closed spec fn view(&self) -> Seq<Local> {
        self.locals@
    }
}

impl Locals {
    /// No locals.
    pub fn new() -> (l: Locals)
        ensures
            l@ == Seq::<Local>::empty(),
    {
        Locals { locals: Vec::new() }
    }

    /// The number of locals.
    pub fn size(&self) -> (n: usize)
        ensures
            n == self@.len(),
    {
        self.locals.len()
    }

    /// Whether declaring `name` in the scope at depth `scope_depth` would clash with a
    /// local of that scope: the locals are searched from the innermost, stopping at the
    /// first one of a shallower scope.
    pub fn local_is_doubly_declared(&self, name: &String, scope_depth: usize) -> (b: bool)
        ensures
            b == doubly_declared(self@, name@, scope_depth as nat),
    {
        let mut i = self.locals.len();
        while i > 0
            invariant
                i <= self.locals@.len(),
                forall|j: int| i <= j < self.locals@.len() ==> #[trigger] self.locals@[j].depth >= scope_depth,
                forall|j: int| i <= j < self.locals@.len() ==> #[trigger] self.locals@[j].name@ != name@,
            decreases i,
        {
            i = i - 1;
            if self.locals[i].depth < scope_depth {
                assert forall|k: int|
                    0 <= k < self.locals@.len() && #[trigger] self.locals@[k].name@ == name@ implies
                    !(forall|j: int| k <= j < self.locals@.len() ==> #[trigger] self.locals@[j].depth >= scope_depth) by {
                    assert(k <= i);
                    assert(self.locals@[i as int].depth < scope_depth);
                }
                return false;
            }
            if self.locals[i].name == *name {
                assert(self.locals@[i as int].name@ == name@);
                return true;
            }
        }
        false
    }

    /// Adds an uninitialized local named `name` to the scope at depth `scope_depth`.
    pub fn add_local(&mut self, name: &String, scope_depth: usize)
        ensures
            final(self)@ == old(self)@.push(Local { name: *name, depth: scope_depth, initialized: false }),
    {
        self.locals.push(Local { name: name.clone(), depth: scope_depth, initialized: false });
    }

    /// Marks the innermost local as initialized and belonging to the scope at depth
    /// `scope_depth`.
    pub fn initialize_variable(&mut self, scope_depth: usize)
        ensures
            old(self)@.len() == 0 ==> final(self)@ == old(self)@,
            old(self)@.len() > 0 ==> final(self)@ == old(self)@.update(
                old(self)@.len() - 1,
                Local { name: old(self)@.last().name, depth: scope_depth, initialized: true },
            ),
    {
        match self.locals.pop() {
            Some(last) => {
                self.locals.push(Local { name: last.name, depth: scope_depth, initialized: true });
            },
            None => {},
        }
    }

    /// Removes the innermost locals that belong to scopes deeper than `scope_depth` and
    /// returns how many were removed.
    pub fn remove_locals(&mut self, scope_depth: usize) -> (n: usize)
        ensures
            n <= old(self)@.len(),
            final(self)@ == old(self)@.subrange(0, old(self)@.len() - n),
            forall|i: int| old(self)@.len() - n <= i < old(self)@.len() ==> #[trigger] old(self)@[i].depth > scope_depth,
            final(self)@.len() > 0 ==> final(self)@.last().depth <= scope_depth,
    {
        let mut n: usize = 0;
        let ghost old_ls = self.locals@;
        let len0 = self.locals.len();
        assert(old_ls.len() == len0);
        loop
            invariant
                old_ls.len() <= usize::MAX,
                n <= old_ls.len(),
                self.locals@ == old_ls.subrange(0, old_ls.len() - n),
                forall|i: int| old_ls.len() - n <= i < old_ls.len() ==> #[trigger] old_ls[i].depth > scope_depth,
            ensures
                n <= old_ls.len(),
                self.locals@ == old_ls.subrange(0, old_ls.len() - n),
                forall|i: int| old_ls.len() - n <= i < old_ls.len() ==> #[trigger] old_ls[i].depth > scope_depth,
                self.locals@.len() > 0 ==> self.locals@.last().depth <= scope_depth,
            decreases self.locals@.len(),
        {
            let len = self.locals.len();
            if len == 0 {
                break;
            }
            if self.locals[len - 1].depth <= scope_depth {
                break;
            }
            self.locals.pop();
            n = n + 1;
        }
        n
    }

    /// Finds the innermost local named `name`: whether it may be read (it is initialized)
    /// and its slot. A name that is no local resolves to `(true, None)`.
    pub fn resolve_local(&self, name: &String) -> (r: (bool, Option<usize>))
        ensures
            resolves_to(self@, name@, r),
    {
        let mut i = self.locals.len();
        while i > 0
            invariant
                i <= self.locals@.len(),
                forall|j: int| i <= j < self.locals@.len() ==> #[trigger] self.locals@[j].name@ != name@,
            decreases i,
        {
            i = i - 1;
            if self.locals[i].name == *name {
                return (self.locals[i].initialized, Some(i));
            }
        }
        (true, None)
    }
}

/// A name is refused in the innermost scope exactly when a local of that scope already
/// has it, whichever of the scope's locals that is: the locals being in scopes no deeper
/// than `depth`, innermost last.
pub proof fn law_redeclaration(ls: Seq<Local>, name: Seq<char>, depth: nat)
    requires
        forall|i: int| 0 <= i < ls.len() ==> #[trigger] ls[i].depth <= depth,
        forall|i: int, j: int| 0 <= i < j < ls.len() ==> #[trigger] ls[i].depth <= #[trigger] ls[j].depth,
    ensures
        doubly_declared(ls, name, depth) <==> exists|i: int|
            0 <= i < ls.len() && #[trigger] ls[i].name@ == name && ls[i].depth == depth,
{
    if doubly_declared(ls, name, depth) {
        let w = choose|k: int|
            0 <= k < ls.len() && #[trigger] ls[k].name@ == name && (forall|q: int|
                k <= q < ls.len() ==> #[trigger] ls[q].depth >= depth);
        assert(ls[w].depth >= depth);
    }
    if exists|i: int| 0 <= i < ls.len() && #[trigger] ls[i].name@ == name && ls[i].depth == depth {
        let i = choose|i: int| 0 <= i < ls.len() && #[trigger] ls[i].name@ == name && ls[i].depth == depth;
        assert forall|j: int| i <= j < ls.len() implies #[trigger] ls[j].depth >= depth by {
            if i < j {
                assert(ls[i].depth <= ls[j].depth);
            }
        }
    }
}

} // verus!
