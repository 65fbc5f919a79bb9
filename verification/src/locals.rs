//! Lexical scopes of a layer and the names defined in them, for telling
//! references to local definitions apart from other names.

use vstd::prelude::*;
use crate::query::Capture;
use crate::text::str_eq;

verus! {

/// The index of a scope among the scopes of its layer.
#[derive(Clone, Copy, Debug, PartialEq, Eq, Structural, Hash)]
pub struct Scope(pub u32);

impl Scope {
    /// The scope that spans the whole layer.
    pub fn root() -> (s: Scope)
        ensures
            s.0 == 0,
    {
        Scope(0)
    }

    /// The index as a position in the scope list.
    pub fn idx(self) -> (i: usize)
        ensures
            i == self.0,
    {
        self.0 as usize
    }
}

/// A name defined in a scope, and the capture that it was defined under.
#[derive(Debug)]
pub struct Definition {
    pub name: String,
    pub capture: Capture,
}

/// A lexical scope: the bytes it spans, whether names that it does not
/// define are looked up in its parent, its parent, and its definitions in
/// order.
#[derive(Debug)]
pub struct ScopeData {
    pub start: u32,
    pub end: u32,
    pub inherit: bool,
    pub parent: Option<Scope>,
    pub definitions: Vec<Definition>,
}

impl ScopeData {
    /// Whether the scope spans the byte.
    pub open spec fn contains(&self, pos: u32) -> bool {
        self.start <= pos < self.end
    }
}

/// The capture of the last definition of `name` among the first `n`.
pub open spec fn last_definition(defs: Seq<Definition>, name: Seq<char>, n: int) -> Option<Capture>
    decreases n,
{
    if n <= 0 {
        None
    } else if defs[n - 1].name@ == name {
        Some(defs[n - 1].capture)
    } else {
        last_definition(defs, name, n - 1)
    }
}

/// The scopes are few enough for their indices, in the order of their
/// first bytes, the first spans everything, and each other scope has a
/// parent before it.
pub open spec fn scopes_wf(scopes: Seq<ScopeData>) -> bool {
    &&& 1 <= scopes.len() <= u32::MAX
    &&& scopes[0].start == 0
    &&& scopes[0].end == u32::MAX
    &&& scopes[0].parent is None
    &&& forall|i: int|
        0 < i < scopes.len() ==> (#[trigger] scopes[i]).parent is Some && scopes[i].parent->Some_0.0
            < i
    &&& forall|i: int, j: int|
        0 <= i <= j < scopes.len() ==> (#[trigger] scopes[i]).start <= (#[trigger] scopes[j]).start
}

/// The capture under which a name was last defined in the scope or, as
/// long as scopes inherit, in the nearest scope around it that defines the
/// name.
pub open spec fn lookup(scopes: Seq<ScopeData>, scope: int, name: Seq<char>) -> Option<Capture>
    decreases scope,
{
    if scope < 0 || scope >= scopes.len() {
        None
    } else {
        match last_definition(
            scopes[scope].definitions@,
            name,
            scopes[scope].definitions@.len() as int,
        ) {
            Some(c) => Some(c),
            None => match scopes[scope].parent {
                Some(p) => if scopes[scope].inherit && p.0 < scope {
                    lookup(scopes, p.0 as int, name)
                } else {
                    None
                },
                None => None,
            },
        }
    }
}

/// The last of the first `n` scopes that spans the byte; the first scope
/// if none does. As scopes are listed in the order of their first bytes,
/// this is the innermost scope around the byte.
pub open spec fn innermost(scopes: Seq<ScopeData>, pos: u32, n: int) -> int
    decreases n,
{
    if n <= 1 {
        0
    } else if scopes[n - 1].contains(pos) {
        n - 1
    } else {
        innermost(scopes, pos, n - 1)
    }
}

/// Scopes that start behind the byte do not matter for the innermost
/// scope around it.
pub proof fn lemma_innermost_started(scopes: Seq<ScopeData>, pos: u32, n: int, m: int)
    requires
        0 <= n <= m <= scopes.len(),
        forall|k: int| n <= k < m ==> (#[trigger] scopes[k]).start > pos,
    ensures
        innermost(scopes, pos, m) == innermost(scopes, pos, n),
    decreases m - n,
{
    if n < m {
        lemma_innermost_started(scopes, pos, n, m - 1);
    }
}

/// The innermost scope is one of the scopes.
pub proof fn lemma_innermost_range(scopes: Seq<ScopeData>, pos: u32, n: int)
    requires
        n <= scopes.len(),
        scopes.len() >= 1,
    ensures
        0 <= innermost(scopes, pos, n) < scopes.len(),
    decreases n,
{
    if n > 1 && !scopes[n - 1].contains(pos) {
        lemma_innermost_range(scopes, pos, n - 1);
    }
}

/// The scopes of a layer.
#[derive(Debug)]
pub struct Locals {
    scopes: Vec<ScopeData>,
}

impl View for Locals {
    type V = Seq<ScopeData>;

    closed spec fn view(&self) -> Seq<ScopeData> {
        self.scopes@
    }
}

impl Locals {
    /// The scopes are well-formed.
    pub open spec fn wf(&self) -> bool {
        scopes_wf(self@)
    }

    /// Locals with the one scope that spans everything.
    pub fn new() -> (locals: Locals)
        ensures
            locals.wf(),
            locals@.len() == 1,
            locals@[0].definitions@.len() == 0,
    {
        let mut scopes: Vec<ScopeData> = Vec::new();
        scopes.push(
            ScopeData {
                start: 0,
                end: u32::MAX,
                inherit: false,
                parent: None,
                definitions: Vec::new(),
            },
        );
        Locals { scopes }
    }

    /// Whether the scopes are well-formed.
    pub fn check(&self) -> (ok: bool)
        ensures
            ok == self.wf(),
    {
        let n = self.scopes.len();
        if n < 1 || n > u32::MAX as usize {
            return false;
        }
        let first = &self.scopes[0];
        if first.start != 0 || first.end != u32::MAX || first.parent.is_some() {
            return false;
        }
        let mut i: usize = 1;
        while i < n
            invariant
                n == self.scopes@.len(),
                1 <= i <= n <= u32::MAX,
                forall|k: int|
                    0 < k < i ==> (#[trigger] self.scopes@[k]).parent is Some
                        && self.scopes@[k].parent->Some_0.0 < k,
                forall|a: int, b: int|
                    0 <= a <= b < i ==> (#[trigger] self.scopes@[a]).start <= (
                    #[trigger] self.scopes@[b]).start,
            decreases n - i,
        {
            let inside = match self.scopes[i].parent {
                Some(parent) => (parent.0 as usize) < i,
                None => false,
            };
            if !inside || self.scopes[i - 1].start > self.scopes[i].start {
                proof {
                    if inside {
                        assert(self.scopes@[i - 1].start > self.scopes@[i as int].start);
                    } else {
                        assert(!(self.scopes@[i as int].parent is Some
                            && self.scopes@[i as int].parent->Some_0.0 < i));
                    }
                }
                return false;
            }
            proof {
                assert forall|a: int, b: int| 0 <= a <= b < i + 1 implies (
                #[trigger] self.scopes@[a]).start <= (#[trigger] self.scopes@[b]).start by {
                    if b == i && a < i {
                        assert(self.scopes@[a].start <= self.scopes@[i - 1].start);
                    }
                }
            }
            i += 1;
        }
        true
    }

    /// The number of scopes.
    pub fn len(&self) -> (n: usize)
        ensures
            n == self@.len(),
    {
        self.scopes.len()
    }

    /// Adds a scope inside `parent`. It starts at or behind the first byte
    /// of the scope added last.
    pub fn push_scope(&mut self, parent: Scope, start: u32, end: u32, inherit: bool) -> (scope: Scope)
        requires
            old(self).wf(),
            old(self)@.len() < u32::MAX,
            parent.0 < old(self)@.len(),
            old(self)@.last().start <= start,
        ensures
            final(self).wf(),
            scope.0 == old(self)@.len(),
            final(self)@.len() == old(self)@.len() + 1,
            forall|i: int| 0 <= i < old(self)@.len() ==> final(self)@[i] == old(self)@[i],
            final(self)@.last().start == start,
            final(self)@.last().end == end,
            final(self)@.last().inherit == inherit,
            final(self)@.last().parent == Some(parent),
            final(self)@.last().definitions@.len() == 0,
    {
        let scope = Scope(self.scopes.len() as u32);
        self.scopes.push(
            ScopeData { start, end, inherit, parent: Some(parent), definitions: Vec::new() },
        );
        scope
    }

    /// Defines a name in a scope, under a capture.
    pub fn define(&mut self, scope: Scope, name: String, capture: Capture)
        requires
            old(self).wf(),
            scope.0 < old(self)@.len(),
        ensures
            final(self).wf(),
            final(self)@.len() == old(self)@.len(),
            forall|i: int|
                0 <= i < old(self)@.len() && i != scope.0 ==> final(self)@[i] == old(self)@[i],
            final(self)@[scope.0 as int].start == old(self)@[scope.0 as int].start,
            final(self)@[scope.0 as int].end == old(self)@[scope.0 as int].end,
            final(self)@[scope.0 as int].inherit == old(self)@[scope.0 as int].inherit,
            final(self)@[scope.0 as int].parent == old(self)@[scope.0 as int].parent,
            final(self)@[scope.0 as int].definitions@ == old(self)@[scope.0 as int].definitions@.push(
                Definition { name, capture },
            ),
    {
        let ghost before = self.scopes@;
        let mut data = self.scopes.remove(scope.0 as usize);
        data.definitions.push(Definition { name, capture });
        self.scopes.insert(scope.0 as usize, data);
        proof {
            assert forall|i: int| 0 <= i < before.len() && i != scope.0 implies self.scopes@[i]
                == before[i] by {}
            assert forall|i: int, j: int| 0 <= i <= j < self.scopes@.len() implies (
            #[trigger] self.scopes@[i]).start <= (#[trigger] self.scopes@[j]).start by {
                assert(before[i].start <= before[j].start);
            }
            assert forall|i: int| 0 < i < self.scopes@.len() implies (
            #[trigger] self.scopes@[i]).parent is Some && self.scopes@[i].parent->Some_0.0 < i by {
                assert(before[i].parent is Some);
            }
        }
    }

    /// The capture under which `name` was last defined in `scope` or, as
    /// long as scopes inherit, in the nearest scope around it that defines
    /// the name.
    #[verifier::loop_isolation(false)]
    pub fn lookup_reference(&self, scope: Scope, name: &str) -> (r: Option<Capture>)
        requires
            self.wf(),
            scope.0 < self@.len(),
        ensures
            r == lookup(self@, scope.0 as int, name@),
    {
        let mut current: usize = scope.0 as usize;
        loop
            invariant
                self.wf(),
                current < self@.len(),
                lookup(self@, scope.0 as int, name@) == lookup(self@, current as int, name@),
            decreases current,
        {
            let data = &self.scopes[current];
            let mut n: usize = data.definitions.len();
            while n > 0
                invariant
                    n <= data.definitions@.len(),
                    last_definition(
                        data.definitions@,
                        name@,
                        data.definitions@.len() as int,
                    ) == last_definition(data.definitions@, name@, n as int),
                decreases n,
            {
                n -= 1;
                if str_eq(data.definitions[n].name.as_str(), name) {
                    return Some(data.definitions[n].capture);
                }
            }
            if !data.inherit {
                return None;
            }
            match data.parent {
                Some(p) => {
                    if p.0 as usize >= current {
                        return None;
                    }
                    current = p.0 as usize;
                },
                None => {
                    return None;
                },
            }
        }
    }

    /// A cursor over the scopes, before the first byte.
    pub fn scope_cursor(&self) -> (cursor: ScopeCursor<'_>)
        requires
            self.wf(),
        ensures
            cursor.wf(),
            cursor.locals == self,
    {
        ScopeCursor { locals: self, started: 0, last: 0 }
    }
}

/// A position in the scopes of a layer that follows a scan through the
/// layer's bytes.
#[derive(Debug)]
pub struct ScopeCursor<'a> {
    pub locals: &'a Locals,
    pub started: usize,
    pub last: u32,
}

impl<'a> ScopeCursor<'a> {
    /// The scopes before the cursor start at or before the byte that the
    /// cursor was moved to last.
    pub open spec fn wf(&self) -> bool {
        &&& self.locals.wf()
        &&& self.started <= self.locals@.len()
        &&& forall|k: int| 0 <= k < self.started ==> (#[trigger] self.locals@[k]).start <= self.last
    }

    /// Moves the cursor to a byte and finds the innermost scope around it.
    /// A move forward is a short walk; a move back starts over.
    #[verifier::loop_isolation(false)]
    pub fn advance(&mut self, to: u32) -> (scope: Scope)
        requires
            old(self).wf(),
        ensures
            final(self).wf(),
            final(self).locals == old(self).locals,
            scope.0 == innermost(old(self).locals@, to, old(self).locals@.len() as int),
            scope.0 < old(self).locals@.len(),
    {
        if to < self.last {
            self.started = 0;
        }
        self.last = to;
        let n = self.locals.len();
        while self.started < n && self.locals.scope_start(self.started) <= to
            invariant
                self.locals.wf(),
                self.locals == old(self).locals,
                n == self.locals@.len(),
                self.last == to,
                self.started <= n,
                forall|k: int| 0 <= k < self.started ==> (#[trigger] self.locals@[k]).start <= to,
            decreases n - self.started,
        {
            self.started += 1;
        }
        proof {
            assert forall|k: int| self.started <= k < n implies (#[trigger] self.locals@[k]).start
                > to by {
                assert(self.locals@[self.started as int].start <= self.locals@[k].start);
            }
            lemma_innermost_started(self.locals@, to, self.started as int, n as int);
            lemma_innermost_range(self.locals@, to, self.started as int);
        }
        let mut i: usize = self.started;
        while i > 1
            invariant
                self.locals.wf(),
                i <= self.started <= self.locals@.len(),
                innermost(self.locals@, to, self.started as int) == innermost(
                    self.locals@,
                    to,
                    i as int,
                ),
            decreases i,
        {
            i -= 1;
            if self.locals.scope_start(i) <= to && to < self.locals.scope_end(i) {
                return Scope(i as u32);
            }
        }
        Scope(0)
    }
}

impl Locals {
    /// The first byte of a scope.
    pub fn scope_start(&self, i: usize) -> (start: u32)
        requires
            i < self@.len(),
        ensures
            start == self@[i as int].start,
    {
        self.scopes[i].start
    }

    /// The byte behind the last byte of a scope.
    pub fn scope_end(&self, i: usize) -> (end: u32)
        requires
            i < self@.len(),
        ensures
            end == self@[i as int].end,
    {
        self.scopes[i].end
    }
}

} // verus!
