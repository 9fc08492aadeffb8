//! The mathematical model: bindings, borrows, and the state of the evaluator
//! as plain sequences, with every operation as a function on that state.

use vstd::prelude::*;

verus! {

/// How a value behaves on assignment.
#[derive(Clone, Copy, Debug, PartialEq, Eq, Structural)]
pub enum ValueKind {
    /// Duplicated on assignment; the source stays usable.
    Copy,
    /// Bears a resource that exactly one binding is responsible for.
    Owning,
}

/// What a borrow permits.
#[derive(Clone, Copy, Debug, PartialEq, Eq, Structural)]
pub enum BorrowMode {
    /// Read-only; may coexist with other shared borrows.
    Shared,
    /// Read-write; may coexist with no other borrow.
    Exclusive,
}

/// Why an operation is rejected.
#[derive(Clone, Copy, Debug, PartialEq, Eq, Structural)]
pub enum Violation {
    /// A binding is referred to after its value went elsewhere.
    UseAfterMove,
    /// A borrow or access breaks the shared/exclusive discipline.
    AliasConflict,
    /// A name or a borrow refers to something that is no longer there.
    DanglingReference,
}

/// Where a binding stands in its life.
#[derive(Clone, Copy, Debug, PartialEq, Eq, Structural)]
pub enum Status {
    /// In scope and holding its value.
    Valid,
    /// In scope, but its value was moved out.
    Moved,
    /// Its scope has been left.
    Ended,
}

/// The part of a value that a borrow covers.
#[derive(Clone, Copy, Debug, PartialEq, Eq, Structural)]
pub enum Extent {
    /// The whole value.
    Whole,
    /// A contiguous range of a sequence value.
    Range { start: usize, len: usize },
}

/// One entry of the arena of bindings. Entries are never removed, so an
/// index identifies a binding for good.
#[derive(Clone, Copy, Debug, PartialEq, Eq, Structural)]
pub struct Binding {
    pub name: u64,
    pub kind: ValueKind,
    pub value: u64,
    /// The resource behind the value, named by the index of the binding
    /// that first held it.
    pub origin: usize,
    pub status: Status,
}

/// One borrow: of which binding, in which mode, over which part, and
/// whether its last use is still to come.
#[derive(Clone, Copy, Debug, PartialEq, Eq, Structural)]
pub struct Borrow {
    pub source: usize,
    pub mode: BorrowMode,
    pub extent: Extent,
    pub live: bool,
}

/// The evaluator's state as mathematical sequences.
pub struct State {
    /// Every binding ever created, in creation order.
    pub bindings: Seq<Binding>,
    /// For each open scope, outermost first, the number of bindings that
    /// existed when it was entered.
    pub scopes: Seq<usize>,
    /// Every borrow ever created, in creation order.
    pub borrows: Seq<Borrow>,
}

/// The most recent binding among the first `n` that carries `name` and whose
/// scope is still open.
pub open spec fn resolve_upto(bs: Seq<Binding>, name: u64, n: int) -> Option<int>
    decreases n,
{
    if n <= 0 {
        None
    } else if bs[n - 1].name == name && bs[n - 1].status != Status::Ended {
        Some(n - 1)
    } else {
        resolve_upto(bs, name, n - 1)
    }
}

/// Whether a binding holds a resource: one that a scope exit releases.
pub open spec fn holds_resource(b: Binding) -> bool {
    b.kind == ValueKind::Owning && b.status == Status::Valid
}

/// The bindings with index in `[start, n)` that hold a resource, latest
/// first.
pub open spec fn released_upto(bs: Seq<Binding>, start: int, n: int) -> Seq<usize>
    decreases n - start,
{
    if n <= start {
        Seq::empty()
    } else if holds_resource(bs[n - 1]) {
        seq![(n - 1) as usize] + released_upto(bs, start, n - 1)
    } else {
        released_upto(bs, start, n - 1)
    }
}

/// Binding `b` with its scope left.
pub open spec fn ended(b: Binding) -> Binding {
    Binding { status: Status::Ended, ..b }
}

/// Binding `b` with its value moved out.
pub open spec fn moved_out(b: Binding) -> Binding {
    Binding { status: Status::Moved, ..b }
}

impl State {
    /// The state before anything happened.
    pub open spec fn initial() -> State {
        State { bindings: Seq::empty(), scopes: Seq::empty(), borrows: Seq::empty() }
    }

    /// No two live borrows of one binding coexist unless both are shared.
    pub open spec fn aliasing_respected(self) -> bool {
        forall|g: int, h: int|
            0 <= g < self.borrows.len() && 0 <= h < self.borrows.len() && g != h
                && (#[trigger] self.borrows[g]).live && (#[trigger] self.borrows[h]).live
                && self.borrows[g].source == self.borrows[h].source
                ==> self.borrows[g].mode == BorrowMode::Shared
                    && self.borrows[h].mode == BorrowMode::Shared
    }

    /// No resource is held by two bindings at once, and none is named
    /// after a binding that does not exist yet.
    pub open spec fn single_owner(self) -> bool {
        &&& forall|i: int|
            0 <= i < self.bindings.len() ==> (#[trigger] self.bindings[i]).origin <= i
        &&& forall|i: int, j: int|
            0 <= i < self.bindings.len() && 0 <= j < self.bindings.len() && i != j
                && holds_resource(#[trigger] self.bindings[i]) && holds_resource(
                #[trigger] self.bindings[j],
            ) ==> self.bindings[i].origin != self.bindings[j].origin
    }

    /// Every borrow and every scope refers into the arena, indices fit the
    /// machine, each resource has one owner, and the aliasing rule holds.
    pub open spec fn wf(self) -> bool {
        &&& self.bindings.len() <= usize::MAX
        &&& self.borrows.len() <= usize::MAX
        &&& self.single_owner()
        &&& forall|h: int|
            0 <= h < self.borrows.len() ==> (#[trigger] self.borrows[h]).source
                < self.bindings.len()
        &&& forall|k: int|
            0 <= k < self.scopes.len() ==> (#[trigger] self.scopes[k]) <= self.bindings.len()
        &&& self.aliasing_respected()
    }

    /// The binding that `name` denotes now.
    pub open spec fn resolve(self, name: u64) -> Option<int> {
        resolve_upto(self.bindings, name, self.bindings.len() as int)
    }

    /// The binding that `name` denotes, if its value is still there.
    pub open spec fn lookup(self, name: u64) -> Result<int, Violation> {
        match self.resolve(name) {
            None => Err(Violation::DanglingReference),
            Some(i) => if self.bindings[i].status == Status::Moved {
                Err(Violation::UseAfterMove)
            } else {
                Ok(i)
            },
        }
    }

    /// Whether borrow `h` stands in the way of an access of binding `i` in
    /// the given mode.
    pub open spec fn blocks(self, h: int, i: int, mode: BorrowMode) -> bool {
        &&& 0 <= h < self.borrows.len()
        &&& self.borrows[h].live
        &&& self.borrows[h].source == i
        &&& (mode == BorrowMode::Exclusive || self.borrows[h].mode == BorrowMode::Exclusive)
    }

    /// Whether some live borrow stands in the way of an access of binding `i`
    /// in the given mode.
    pub open spec fn conflicts(self, i: int, mode: BorrowMode) -> bool {
        exists|h: int| self.blocks(h, i, mode)
    }

    /// Entering a scope.
    pub open spec fn begin_scope(self) -> State {
        State { scopes: self.scopes.push(self.bindings.len() as usize), ..self }
    }

    /// Creating a binding in the innermost scope.
    pub open spec fn bind(self, name: u64, kind: ValueKind, value: u64) -> State {
        State {
            bindings: self.bindings.push(
                Binding {
                    name,
                    kind,
                    value,
                    origin: self.bindings.len() as usize,
                    status: Status::Valid,
                },
            ),
            ..self
        }
    }

    /// The state in which binding `i` has given up its value, if the value
    /// is an owning one.
    pub open spec fn give_up(self, i: int) -> State {
        if self.bindings[i].kind == ValueKind::Owning {
            State { bindings: self.bindings.update(i, moved_out(self.bindings[i])), ..self }
        } else {
            self
        }
    }

    /// The binding `to` that takes over the value of binding `i`.
    pub open spec fn receiver(self, i: int, to: u64) -> Binding {
        Binding {
            name: to,
            kind: self.bindings[i].kind,
            value: self.bindings[i].value,
            origin: if self.bindings[i].kind == ValueKind::Owning {
                self.bindings[i].origin
            } else {
                self.bindings.len() as usize
            },
            status: Status::Valid,
        }
    }

    /// Assigning the value of `from` to a new binding `to` of the innermost
    /// scope. An owning value takes its resource along and leaves `from`; a
    /// copy is a value of its own.
    pub open spec fn move_value(self, from: u64, to: u64) -> Result<State, Violation> {
        match self.lookup(from) {
            Err(v) => Err(v),
            Ok(i) => Ok(
                State { bindings: self.give_up(i).bindings.push(self.receiver(i, to)), ..self },
            ),
        }
    }

    /// Leaving the innermost scope with the value of `from` as its result,
    /// which a new binding `to` of the enclosing scope takes over.
    pub open spec fn return_value(self, from: u64, to: u64) -> Result<State, Violation> {
        match self.lookup(from) {
            Err(v) => Err(v),
            Ok(i) => {
                let left = self.give_up(i).end_scope();
                Ok(State { bindings: left.bindings.push(self.receiver(i, to)), ..left })
            },
        }
    }

    /// Borrowing `name` in the given mode over the given extent.
    pub open spec fn borrow(self, name: u64, mode: BorrowMode, extent: Extent) -> Result<
        State,
        Violation,
    > {
        match self.lookup(name) {
            Err(v) => Err(v),
            Ok(i) => if self.conflicts(i, mode) {
                Err(Violation::AliasConflict)
            } else {
                Ok(
                    State {
                        borrows: self.borrows.push(
                            Borrow { source: i as usize, mode, extent, live: true },
                        ),
                        ..self
                    },
                )
            },
        }
    }

    /// Borrowing `name` in an expression that reads through borrow
    /// `reading`, both in one statement. Where that read is the last use of a
    /// shared borrow, it counts as done before the new borrow begins; in every
    /// other case `reading` is live while the new borrow is created.
    pub open spec fn borrow_reading(
        self,
        name: u64,
        mode: BorrowMode,
        reading: int,
        final_read: bool,
    ) -> Result<State, Violation> {
        match self.use_borrow(reading) {
            Err(v) => Err(v),
            Ok(_) => {
                let before = if final_read && self.borrows[reading].mode == BorrowMode::Shared {
                    self.expire(reading)
                } else {
                    self
                };
                match before.borrow(name, mode, Extent::Whole) {
                    Err(v) => Err(v),
                    Ok(t) => Ok(
                        if final_read {
                            t.expire(reading)
                        } else {
                            t
                        },
                    ),
                }
            },
        }
    }

    /// Reading `name` directly.
    pub open spec fn use_value(self, name: u64) -> Result<(), Violation> {
        match self.lookup(name) {
            Err(v) => Err(v),
            Ok(i) => if self.conflicts(i, BorrowMode::Shared) {
                Err(Violation::AliasConflict)
            } else {
                Ok(())
            },
        }
    }

    /// Overwriting the value of `name` directly.
    pub open spec fn mutate(self, name: u64, value: u64) -> Result<State, Violation> {
        match self.lookup(name) {
            Err(v) => Err(v),
            Ok(i) => if self.conflicts(i, BorrowMode::Exclusive) {
                Err(Violation::AliasConflict)
            } else {
                Ok(
                    State {
                        bindings: self.bindings.update(i, Binding { value, ..self.bindings[i] }),
                        ..self
                    },
                )
            },
        }
    }

    /// Using the value behind borrow `h`.
    pub open spec fn use_borrow(self, h: int) -> Result<(), Violation> {
        if 0 <= h < self.borrows.len() && self.borrows[h].live
            && self.bindings[self.borrows[h].source as int].status == Status::Valid {
            Ok(())
        } else {
            Err(Violation::DanglingReference)
        }
    }

    /// Marking that borrow `h` has seen its last use.
    pub open spec fn expire(self, h: int) -> State {
        if 0 <= h < self.borrows.len() {
            State {
                borrows: self.borrows.update(h, Borrow { live: false, ..self.borrows[h] }),
                ..self
            }
        } else {
            self
        }
    }

    /// Where the innermost scope starts in the arena; with no scope open,
    /// the whole arena is the scope.
    pub open spec fn scope_start(self) -> int {
        if self.scopes.len() > 0 {
            self.scopes.last() as int
        } else {
            0
        }
    }

    /// The bindings that leaving the innermost scope releases, in the order
    /// of release: latest created first.
    pub open spec fn released(self) -> Seq<usize> {
        released_upto(self.bindings, self.scope_start(), self.bindings.len() as int)
    }

    /// Leaving the innermost scope.
    pub open spec fn end_scope(self) -> State {
        let start = self.scope_start();
        State {
            bindings: Seq::new(
                self.bindings.len(),
                |i: int| if i >= start { ended(self.bindings[i]) } else { self.bindings[i] },
            ),
            scopes: if self.scopes.len() > 0 { self.scopes.drop_last() } else { self.scopes },
            borrows: self.borrows,
        }
    }
}

} // verus!
