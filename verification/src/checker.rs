//! The executable evaluator: an arena of bindings, a stack of scopes and a
//! list of borrows, with one method per operation.

use vstd::prelude::*;
use crate::laws::{
    law_name_denotes_latest_binding, law_scope_exit_releases_once, lemma_lookup_valid, visible,
};
use crate::model::{
    ended, holds_resource, released_upto, resolve_upto, Binding, Borrow, BorrowMode, Extent,
    State, Status, ValueKind, Violation,
};

verus! {

/// The state of the evaluation of one program.
pub struct Checker {
    bindings: Vec<Binding>,
    scopes: Vec<usize>,
    borrows: Vec<Borrow>,
}

impl View for Checker {
    type V = State;

    closed spec fn view(&self) -> State {
        State { bindings: self.bindings@, scopes: self.scopes@, borrows: self.borrows@ }
    }
}

impl Checker {
    /// The invariant that every operation keeps.
    pub open spec fn wf(&self) -> bool {
        self@.wf()
    }

    /// An evaluator that has seen nothing yet.
    pub fn new() -> (c: Checker)
        ensures
            c@ == State::initial(),
            c.wf(),
    {
        Checker { bindings: Vec::new(), scopes: Vec::new(), borrows: Vec::new() }
    }

    /// The number of bindings created so far.
    pub fn binding_count(&self) -> (n: usize)
        ensures
            n == self@.bindings.len(),
    {
        self.bindings.len()
    }

    /// The number of borrows created so far.
    pub fn borrow_count(&self) -> (n: usize)
        ensures
            n == self@.borrows.len(),
    {
        self.borrows.len()
    }

    /// The number of scopes that are open.
    pub fn scope_depth(&self) -> (n: usize)
        ensures
            n == self@.scopes.len(),
    {
        self.scopes.len()
    }

    /// The binding at index `i` of the arena.
    pub fn binding(&self, i: usize) -> (b: Option<Binding>)
        ensures
            b == (if i < self@.bindings.len() {
                Some(self@.bindings[i as int])
            } else {
                None
            }),
    {
        if i < self.bindings.len() {
            Some(self.bindings[i])
        } else {
            None
        }
    }

    /// The record of borrow `h`.
    pub fn borrow_record(&self, h: usize) -> (b: Option<Borrow>)
        ensures
            b == (if h < self@.borrows.len() {
                Some(self@.borrows[h as int])
            } else {
                None
            }),
    {
        if h < self.borrows.len() {
            Some(self.borrows[h])
        } else {
            None
        }
    }

    /// The index of the binding that `name` denotes now: the most recent one
    /// of that name whose scope is still open.
    pub fn resolve(&self, name: u64) -> (r: Option<usize>)
        ensures
            match r {
                Some(i) => self@.resolve(name) == Some(i as int) && visible(
                    self@.bindings,
                    name,
                    i as int,
                ) && forall|j: int| i < j ==> !visible(self@.bindings, name, j),
                None => self@.resolve(name) == None::<int> && forall|j: int|
                    !visible(self@.bindings, name, j),
            },
    {
        let mut n: usize = self.bindings.len();
        while n > 0
            invariant
                n <= self.bindings.len(),
                resolve_upto(self.bindings@, name, n as int) == self@.resolve(name),
            decreases n,
        {
            let b = self.bindings[n - 1];
            if b.name == name && b.status != Status::Ended {
                proof {
                    law_name_denotes_latest_binding(self@, name);
                }
                return Some(n - 1);
            }
            n = n - 1;
        }
        proof {
            law_name_denotes_latest_binding(self@, name);
        }
        None
    }

    /// The index of the binding that `name` denotes, provided its value has
    /// not been moved out.
    pub fn lookup(&self, name: u64) -> (r: Result<usize, Violation>)
        ensures
            match r {
                Ok(i) => self@.lookup(name) == Ok::<int, Violation>(i as int) && i
                    < self@.bindings.len(),
                Err(v) => self@.lookup(name) == Err::<int, Violation>(v),
            },
    {
        match self.resolve(name) {
            None => Err(Violation::DanglingReference),
            Some(i) => {
                if self.bindings[i].status == Status::Moved {
                    Err(Violation::UseAfterMove)
                } else {
                    Ok(i)
                }
            },
        }
    }

    /// Whether a live borrow forbids an access of binding `i` in `mode`.
    pub fn conflicts(&self, i: usize, mode: BorrowMode) -> (r: bool)
        ensures
            r == self@.conflicts(i as int, mode),
    {
        let mut h: usize = 0;
        while h < self.borrows.len()
            invariant
                h <= self.borrows.len(),
                forall|g: int| 0 <= g < h ==> !self@.blocks(g, i as int, mode),
            decreases self.borrows.len() - h,
        {
            let b = self.borrows[h];
            if b.live && b.source == i && (mode == BorrowMode::Exclusive || b.mode
                == BorrowMode::Exclusive) {
                assert(self@.blocks(h as int, i as int, mode));
                return true;
            }
            h = h + 1;
        }
        false
    }

    /// Enters a scope: bindings created from now on belong to it.
    pub fn begin_scope(&mut self)
        requires
            old(self).wf(),
        ensures
            final(self).wf(),
            final(self)@ == old(self)@.begin_scope(),
    {
        let n: usize = self.bindings.len();
        self.scopes.push(n);
        assert(self@.bindings == old(self)@.bindings);
        assert forall|k: int| 0 <= k < self@.scopes.len() implies (#[trigger] self@.scopes[k])
            <= self@.bindings.len() by {
            if k < old(self)@.scopes.len() {
                assert(old(self)@.scopes[k] <= old(self)@.bindings.len());
            }
        }
    }

    /// Creates a binding of `name` in the innermost scope and returns its
    /// index. An earlier binding of the same name is shadowed, not touched.
    pub fn bind(&mut self, name: u64, kind: ValueKind, value: u64) -> (idx: usize)
        requires
            old(self).wf(),
        ensures
            final(self).wf(),
            final(self)@ == old(self)@.bind(name, kind, value),
            idx == old(self)@.bindings.len(),
    {
        let idx: usize = self.bindings.len();
        self.bindings.push(Binding { name, kind, value, origin: idx, status: Status::Valid });
        assert(self@.scopes == old(self)@.scopes);
        assert(self.bindings.len() <= usize::MAX);
        idx
    }

    /// Assigns the value of `from` to a new binding `to` in the innermost
    /// scope and returns its index. An owning value leaves `from`; any other
    /// value is duplicated.
    pub fn move_value(&mut self, from: u64, to: u64) -> (r: Result<usize, Violation>)
        requires
            old(self).wf(),
        ensures
            final(self).wf(),
            match r {
                Ok(idx) => old(self)@.move_value(from, to) == Ok::<State, Violation>(final(self)@)
                    && idx == old(self)@.bindings.len(),
                Err(v) => old(self)@.move_value(from, to) == Err::<State, Violation>(v)
                    && final(self)@ == old(self)@,
            },
    {
        match self.lookup(from) {
            Err(v) => Err(v),
            Ok(i) => {
                let src = self.bindings[i];
                if src.kind == ValueKind::Owning {
                    self.bindings.set(
                        i,
                        Binding {
                            name: src.name,
                            kind: src.kind,
                            value: src.value,
                            origin: src.origin,
                            status: Status::Moved,
                        },
                    );
                }
                let idx: usize = self.bindings.len();
                let origin: usize = if src.kind == ValueKind::Owning {
                    src.origin
                } else {
                    idx
                };
                self.bindings.push(
                    Binding {
                        name: to,
                        kind: src.kind,
                        value: src.value,
                        origin,
                        status: Status::Valid,
                    },
                );
                assert(old(self)@.move_value(from, to).unwrap().bindings =~= self@.bindings);
                assert(self.bindings.len() <= usize::MAX);
                proof {
                    let o = old(self)@.bindings;
                    let t = self@.bindings;
                    lemma_lookup_valid(old(self)@, from);
                    assert forall|a: int| 0 <= a < t.len() implies (#[trigger] t[a]).origin
                        <= a by {
                        if a < idx {
                            assert(o[a].origin <= a);
                        } else {
                            assert(o[i as int].origin <= i);
                        }
                    }
                    assert forall|a: int, b: int|
                        0 <= a < t.len() && 0 <= b < t.len() && a != b && holds_resource(
                            #[trigger] t[a],
                        ) && holds_resource(#[trigger] t[b]) implies t[a].origin
                        != t[b].origin by {
                        assert(a < idx ==> holds_resource(o[a]));
                        assert(b < idx ==> holds_resource(o[b]));
                        assert(a == idx || b == idx ==> holds_resource(o[i as int]));
                    }
                }
                Ok(idx)
            },
        }
    }

    /// Leaves the innermost scope with the value of `from` as its result: a
    /// new binding `to` of the enclosing scope takes the value over, as
    /// `move_value` would, and the scope ends as `end_scope` would. Returns
    /// what the scope exit released, latest first.
    pub fn return_value(&mut self, from: u64, to: u64) -> (r: Result<Vec<usize>, Violation>)
        requires
            old(self).wf(),
        ensures
            final(self).wf(),
            match r {
                Ok(out) => old(self)@.return_value(from, to) == Ok::<State, Violation>(
                    final(self)@,
                ) && out@ == old(self)@.give_up(old(self)@.lookup(from).unwrap()).released(),
                Err(v) => old(self)@.return_value(from, to) == Err::<State, Violation>(v)
                    && final(self)@ == old(self)@,
            },
    {
        match self.lookup(from) {
            Err(v) => Err(v),
            Ok(i) => {
                let src = self.bindings[i];
                proof {
                    lemma_lookup_valid(old(self)@, from);
                }
                if src.kind == ValueKind::Owning {
                    self.bindings.set(
                        i,
                        Binding {
                            name: src.name,
                            kind: src.kind,
                            value: src.value,
                            origin: src.origin,
                            status: Status::Moved,
                        },
                    );
                }
                let ghost o = old(self)@.bindings;
                let ghost m = self@.bindings;
                proof {
                    assert(self@ == old(self)@.give_up(i as int));
                    assert(self@.scopes == old(self)@.scopes);
                    assert(self@.borrows == old(self)@.borrows);
                    assert forall|a: int| 0 <= a < m.len() implies (#[trigger] m[a]).origin
                        <= a by {
                        assert(o[a].origin <= a);
                    }
                    assert forall|a: int, b: int|
                        0 <= a < m.len() && 0 <= b < m.len() && a != b && holds_resource(
                            #[trigger] m[a],
                        ) && holds_resource(#[trigger] m[b]) implies m[a].origin
                        != m[b].origin by {
                        assert(holds_resource(o[a]) && holds_resource(o[b]));
                    }
                    assert forall|k: int| 0 <= k < self@.scopes.len() implies (
                    #[trigger] self@.scopes[k]) <= self@.bindings.len() by {
                        assert(old(self)@.scopes[k] <= old(self)@.bindings.len());
                    }
                }
                let out = self.end_scope();
                let ghost e = self@.bindings;
                let idx: usize = self.bindings.len();
                let origin: usize = if src.kind == ValueKind::Owning {
                    src.origin
                } else {
                    idx
                };
                self.bindings.push(
                    Binding {
                        name: to,
                        kind: src.kind,
                        value: src.value,
                        origin,
                        status: Status::Valid,
                    },
                );
                proof {
                    let t = self@.bindings;
                    assert(self.bindings.len() <= usize::MAX);
                    assert forall|a: int| 0 <= a < t.len() implies (#[trigger] t[a]).origin
                        <= a by {
                        if a < idx {
                            assert(m[a].origin <= a);
                        } else {
                            assert(o[i as int].origin <= i);
                        }
                    }
                    assert forall|a: int, b: int|
                        0 <= a < t.len() && 0 <= b < t.len() && a != b && holds_resource(
                            #[trigger] t[a],
                        ) && holds_resource(#[trigger] t[b]) implies t[a].origin
                        != t[b].origin by {
                        assert(a < idx ==> holds_resource(m[a]) && holds_resource(o[a]));
                        assert(b < idx ==> holds_resource(m[b]) && holds_resource(o[b]));
                        assert(a == idx || b == idx ==> holds_resource(o[i as int]));
                    }
                    assert forall|k: int| 0 <= k < self@.scopes.len() implies (
                    #[trigger] self@.scopes[k]) <= self@.bindings.len() by {
                        assert(old(self)@.scopes[k] <= old(self)@.bindings.len());
                    }
                }
                Ok(out)
            },
        }
    }

    /// Borrows the whole value of `name`. The borrow is live until `expire`.
    pub fn borrow(&mut self, name: u64, mode: BorrowMode) -> (r: Result<usize, Violation>)
        requires
            old(self).wf(),
        ensures
            final(self).wf(),
            match r {
                Ok(h) => old(self)@.borrow(name, mode, Extent::Whole) == Ok::<State, Violation>(
                    final(self)@,
                ) && h == old(self)@.borrows.len(),
                Err(v) => old(self)@.borrow(name, mode, Extent::Whole) == Err::<State, Violation>(
                    v,
                ) && final(self)@ == old(self)@,
            },
    {
        self.borrow_extent(name, mode, Extent::Whole)
    }

    /// Takes a read-only view of `len` elements of the sequence `name`,
    /// from offset `start`. The view is live until `expire`.
    pub fn slice(&mut self, name: u64, start: usize, len: usize) -> (r: Result<usize, Violation>)
        requires
            old(self).wf(),
        ensures
            final(self).wf(),
            match r {
                Ok(h) => old(self)@.borrow(
                    name,
                    BorrowMode::Shared,
                    (Extent::Range { start, len }),
                ) == Ok::<State, Violation>(final(self)@) && h == old(self)@.borrows.len(),
                Err(v) => old(self)@.borrow(
                    name,
                    BorrowMode::Shared,
                    (Extent::Range { start, len }),
                ) == Err::<State, Violation>(v) && final(self)@ == old(self)@,
            },
    {
        self.borrow_extent(name, BorrowMode::Shared, Extent::Range { start, len })
    }

    /// Borrows `name` in `mode` over `extent` and returns the new borrow's
    /// handle.
    pub fn borrow_extent(&mut self, name: u64, mode: BorrowMode, extent: Extent) -> (r: Result<
        usize,
        Violation,
    >)
        requires
            old(self).wf(),
        ensures
            final(self).wf(),
            match r {
                Ok(h) => old(self)@.borrow(name, mode, extent) == Ok::<State, Violation>(
                    final(self)@,
                ) && h == old(self)@.borrows.len(),
                Err(v) => old(self)@.borrow(name, mode, extent) == Err::<State, Violation>(v)
                    && final(self)@ == old(self)@,
            },
    {
        match self.lookup(name) {
            Err(v) => Err(v),
            Ok(i) => {
                if self.conflicts(i, mode) {
                    Err(Violation::AliasConflict)
                } else {
                    let h: usize = self.borrows.len();
                    self.borrows.push(Borrow { source: i, mode, extent, live: true });
                    proof {
                        assert(self.borrows.len() <= usize::MAX);
                        assert forall|g: int| 0 <= g < h && old(self)@.borrows[g].live && old(self)@.borrows[g].source == i implies mode == BorrowMode::Shared && old(self)@.borrows[g].mode == BorrowMode::Shared by {
                            assert(!old(self)@.blocks(g, i as int, mode));
                        }
                    }
                    Ok(h)
                }
            },
        }
    }

    /// Borrows the whole value of `name` in an expression that reads through
    /// borrow `reading`, both in one statement. `final_read` says whether that
    /// read is the last use of `reading`. The last read of a shared borrow
    /// counts as done before the new borrow begins; any other borrow is live
    /// while the new one is created, and expires after it if the read was
    /// its last use.
    pub fn borrow_reading(&mut self, name: u64, mode: BorrowMode, reading: usize, final_read: bool)
        -> (r: Result<usize, Violation>)
        requires
            old(self).wf(),
        ensures
            final(self).wf(),
            match r {
                Ok(h) => old(self)@.borrow_reading(name, mode, reading as int, final_read) == Ok::<
                    State,
                    Violation,
                >(final(self)@) && h == old(self)@.borrows.len(),
                Err(v) => old(self)@.borrow_reading(name, mode, reading as int, final_read)
                    == Err::<State, Violation>(v) && final(self)@ == old(self)@,
            },
    {
        match self.use_borrow(reading) {
            Err(v) => {
                return Err(v);
            },
            Ok(_) => {},
        }
        let saved = self.borrows[reading];
        let early = final_read && saved.mode == BorrowMode::Shared;
        if early {
            self.expire(reading);
        }
        match self.borrow(name, mode) {
            Err(v) => {
                if early {
                    self.borrows.set(reading, saved);
                    assert(self.borrows@ =~= old(self).borrows@);
                }
                Err(v)
            },
            Ok(h) => {
                if final_read {
                    self.expire(reading);
                }
                Ok(h)
            },
        }
    }

    /// Reads `name` directly.
    pub fn use_value(&self, name: u64) -> (r: Result<(), Violation>)
        ensures
            r == self@.use_value(name),
    {
        match self.lookup(name) {
            Err(v) => Err(v),
            Ok(i) => {
                if self.conflicts(i, BorrowMode::Shared) {
                    Err(Violation::AliasConflict)
                } else {
                    Ok(())
                }
            },
        }
    }

    /// The value that `name` holds, on the terms of `use_value`.
    pub fn value_of(&self, name: u64) -> (r: Result<u64, Violation>)
        ensures
            match r {
                Ok(v) => self@.use_value(name) == Ok::<(), Violation>(()) && v
                    == self@.bindings[self@.lookup(name).unwrap()].value,
                Err(e) => self@.use_value(name) == Err::<(), Violation>(e),
            },
    {
        match self.lookup(name) {
            Err(v) => Err(v),
            Ok(i) => {
                if self.conflicts(i, BorrowMode::Shared) {
                    Err(Violation::AliasConflict)
                } else {
                    Ok(self.bindings[i].value)
                }
            },
        }
    }

    /// Overwrites the value of `name` directly.
    pub fn mutate(&mut self, name: u64, value: u64) -> (r: Result<(), Violation>)
        requires
            old(self).wf(),
        ensures
            final(self).wf(),
            match r {
                Ok(_) => old(self)@.mutate(name, value) == Ok::<State, Violation>(final(self)@),
                Err(v) => old(self)@.mutate(name, value) == Err::<State, Violation>(v) && final(self)@ == old(self)@,
            },
    {
        match self.lookup(name) {
            Err(v) => Err(v),
            Ok(i) => {
                if self.conflicts(i, BorrowMode::Exclusive) {
                    Err(Violation::AliasConflict)
                } else {
                    let b = self.bindings[i];
                    self.bindings.set(
                        i,
                        Binding {
                            name: b.name,
                            kind: b.kind,
                            value,
                            origin: b.origin,
                            status: b.status,
                        },
                    );
                    Ok(())
                }
            },
        }
    }

    /// Uses the value behind borrow `h`.
    pub fn use_borrow(&self, h: usize) -> (r: Result<(), Violation>)
        requires
            self.wf(),
        ensures
            r == self@.use_borrow(h as int),
    {
        if h < self.borrows.len() {
            let b = self.borrows[h];
            if b.live && self.bindings[b.source].status == Status::Valid {
                return Ok(());
            }
        }
        Err(Violation::DanglingReference)
    }

    /// Marks that borrow `h` has seen its last use. From then on it stands
    /// in the way of nothing, and cannot be used.
    pub fn expire(&mut self, h: usize)
        requires
            old(self).wf(),
        ensures
            final(self).wf(),
            final(self)@ == old(self)@.expire(h as int),
    {
        if h < self.borrows.len() {
            let b = self.borrows[h];
            self.borrows.set(
                h,
                Borrow { source: b.source, mode: b.mode, extent: b.extent, live: false },
            );
        }
        assert(self@.scopes == old(self)@.scopes);
    }

    /// Leaves the innermost scope. Every binding created in it ends; those
    /// that still hold an owning value are released, latest first, and
    /// their indices returned in that order.
    pub fn end_scope(&mut self) -> (out: Vec<usize>)
        requires
            old(self).wf(),
        ensures
            final(self).wf(),
            final(self)@ == old(self)@.end_scope(),
            out@ == old(self)@.released(),
            forall|k: int|
                0 <= k < out@.len() ==> old(self)@.scope_start() <= (#[trigger] out@[k]) < old(self)@.bindings.len() && holds_resource(old(self)@.bindings[out@[k] as int]),
            forall|i: int|
                old(self)@.scope_start() <= i < old(self)@.bindings.len() && holds_resource(
                    #[trigger] old(self)@.bindings[i],
                ) ==> out@.contains(i as usize),
            forall|k1: int, k2: int| 0 <= k1 < k2 < out@.len() ==> out@[k1] > out@[k2],
    {
        proof {
            law_scope_exit_releases_once(old(self)@);
        }
        let start: usize = match self.scopes.pop() {
            Some(s) => s,
            None => 0,
        };
        assert(start == old(self)@.scope_start());
        let ghost orig = self.bindings@;
        let len: usize = self.bindings.len();
        let mut out: Vec<usize> = Vec::new();
        let mut n: usize = len;
        while n > start
            invariant
                start <= n <= len,
                len == orig.len(),
                self.bindings@.len() == len,
                self.scopes@ == old(self)@.end_scope().scopes,
                self.borrows@ == old(self).borrows@,
                forall|i: int| 0 <= i < n ==> self.bindings@[i] == orig[i],
                forall|i: int| n <= i < len ==> self.bindings@[i] == ended(orig[i]),
                out@ + released_upto(orig, start as int, n as int) == released_upto(
                    orig,
                    start as int,
                    len as int,
                ),
            decreases n,
        {
            n = n - 1;
            let b = self.bindings[n];
            let ghost before = out@;
            if b.kind == ValueKind::Owning && b.status == Status::Valid {
                out.push(n);
            }
            self.bindings.set(
                n,
                Binding {
                    name: b.name,
                    kind: b.kind,
                    value: b.value,
                    origin: b.origin,
                    status: Status::Ended,
                },
            );
            assert(out@ + released_upto(orig, start as int, n as int) =~= before + released_upto(
                orig,
                start as int,
                n + 1,
            ));
        }
        assert(out@ =~= out@ + released_upto(orig, start as int, n as int));
        assert(self@.bindings =~= old(self)@.end_scope().bindings);
        out
    }
}

} // verus!
