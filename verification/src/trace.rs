//! Whole programs: a trace of operations in program order, and the verdict
//! on it. A borrow is live from its creation to its last use in the trace,
//! not to the end of its scope.
//!
//! A statement that does several things contributes its operations in the
//! order of their evaluation. The one statement that is an operation of its
//! own is the creation of a borrow by an expression that reads through
//! another borrow.

use vstd::prelude::*;
use crate::checker::Checker;
use crate::model::{BorrowMode, Extent, State, ValueKind, Violation};

verus! {

/// One operation of a program. Borrows are numbered in the order of their
/// creation, from zero; `UseBorrow` names one by that number.
#[derive(Clone, Copy, Debug, PartialEq, Eq, Structural)]
pub enum Op {
    /// A block begins.
    BeginScope,
    /// A binding is created in the innermost scope.
    Bind { name: u64, kind: ValueKind, value: u64 },
    /// The value of `from` is assigned to a new binding `to`.
    Move { from: u64, to: u64 },
    /// The whole value of `name` is borrowed.
    Borrow { name: u64, mode: BorrowMode },
    /// The whole value of `name` is borrowed by an expression that reads
    /// through borrow `reading`.
    BorrowReading { name: u64, mode: BorrowMode, reading: usize },
    /// A read-only view of a range of the sequence `name` is taken.
    Slice { name: u64, start: usize, len: usize },
    /// `name` is read directly.
    Use { name: u64 },
    /// The value behind a borrow is used.
    UseBorrow { handle: usize },
    /// The value of `name` is overwritten directly.
    Mutate { name: u64, value: u64 },
    /// The innermost block ends.
    EndScope,
    /// The innermost block ends with the value of `from` as its result,
    /// which a new binding `to` of the enclosing block takes over.
    Return { from: u64, to: u64 },
}

/// The first operation of a trace that breaks a rule, and the rule.
#[derive(Clone, Copy, Debug, PartialEq, Eq, Structural)]
pub struct Rejection {
    pub at: usize,
    pub violation: Violation,
}

/// Whether an operation uses the value behind borrow `h`.
pub open spec fn uses(op: Op, h: usize) -> bool {
    match op {
        Op::UseBorrow { handle } => handle == h,
        Op::BorrowReading { reading, .. } => reading == h,
        _ => false,
    }
}

/// Whether an operation after position `i` uses borrow `h`.
pub open spec fn used_after(trace: Seq<Op>, h: usize, i: int) -> bool {
    exists|j: int| i < j < trace.len() && uses(#[trigger] trace[j], h)
}

/// The borrow that an operation reads through while it creates another.
pub open spec fn read_through(op: Op) -> usize {
    match op {
        Op::BorrowReading { reading, .. } => reading,
        _ => 0,
    }
}

/// The borrow whose liveness an operation bears on: the one it creates or
/// the one it uses.
pub open spec fn subject(s: State, op: Op) -> usize {
    match op {
        Op::UseBorrow { handle } => handle,
        _ => s.borrows.len() as usize,
    }
}

/// State `s` with borrow `h` expired unless it is used later.
pub open spec fn settle(s: State, h: int, used_later: bool) -> State {
    if used_later {
        s
    } else {
        s.expire(h)
    }
}

/// The effect of one operation. `used_later` says whether the operation's
/// subject has a use further on in the program, `read_later` whether the
/// borrow that it reads through has one.
pub open spec fn apply(s: State, op: Op, used_later: bool, read_later: bool) -> Result<
    State,
    Violation,
> {
    match op {
        Op::BeginScope => Ok(s.begin_scope()),
        Op::Bind { name, kind, value } => Ok(s.bind(name, kind, value)),
        Op::Move { from, to } => s.move_value(from, to),
        Op::Borrow { name, mode } => match s.borrow(name, mode, Extent::Whole) {
            Ok(t) => Ok(settle(t, s.borrows.len() as int, used_later)),
            Err(v) => Err(v),
        },
        Op::BorrowReading { name, mode, reading } => match s.borrow_reading(
            name,
            mode,
            reading as int,
            !read_later,
        ) {
            Ok(t) => Ok(settle(t, s.borrows.len() as int, used_later)),
            Err(v) => Err(v),
        },
        Op::Slice { name, start, len } => match s.borrow(
            name,
            BorrowMode::Shared,
            Extent::Range { start, len },
        ) {
            Ok(t) => Ok(settle(t, s.borrows.len() as int, used_later)),
            Err(v) => Err(v),
        },
        Op::Use { name } => match s.use_value(name) {
            Ok(_) => Ok(s),
            Err(v) => Err(v),
        },
        Op::UseBorrow { handle } => match s.use_borrow(handle as int) {
            Ok(_) => Ok(settle(s, handle as int, used_later)),
            Err(v) => Err(v),
        },
        Op::Mutate { name, value } => s.mutate(name, value),
        Op::EndScope => Ok(s.end_scope()),
        Op::Return { from, to } => s.return_value(from, to),
    }
}

/// The effect of operation `i` of `trace`, with liveness read off the rest
/// of the trace.
pub open spec fn step(s: State, trace: Seq<Op>, i: int) -> Result<State, Violation> {
    apply(
        s,
        trace[i],
        used_after(trace, subject(s, trace[i]), i),
        used_after(trace, read_through(trace[i]), i),
    )
}

/// The state after the first `n` operations of `trace`, or the position and
/// kind of the first violation among them.
pub open spec fn run(trace: Seq<Op>, n: int) -> Result<State, (int, Violation)>
    decreases n,
{
    if n <= 0 {
        Ok(State::initial())
    } else {
        match run(trace, n - 1) {
            Err(e) => Err(e),
            Ok(s) => match step(s, trace, n - 1) {
                Ok(t) => Ok(t),
                Err(v) => Err((n - 1, v)),
            },
        }
    }
}

/// The state that the first `n` operations of `trace` lead to, where they
/// are all accepted.
pub open spec fn reached(trace: Seq<Op>, n: int) -> State {
    match run(trace, n) {
        Ok(s) => s,
        Err(_) => State::initial(),
    }
}

/// The verdict on a whole trace.
pub open spec fn verdict(trace: Seq<Op>) -> Result<(), Rejection> {
    match run(trace, trace.len() as int) {
        Ok(_) => Ok(()),
        Err(e) => Err(Rejection { at: e.0 as usize, violation: e.1 }),
    }
}

/// Once a prefix is rejected, every longer prefix is rejected for the same
/// reason.
pub proof fn lemma_rejection_is_final(trace: Seq<Op>, m: int, n: int)
    requires
        m <= n,
        run(trace, m) is Err,
    ensures
        run(trace, n) == run(trace, m),
    decreases n - m,
{
    if m < n {
        lemma_rejection_is_final(trace, m, n - 1);
    }
}

/// Whether an operation after position `i` of `trace` uses borrow `h`.
pub fn used_later(trace: &Vec<Op>, h: usize, i: usize) -> (r: bool)
    ensures
        r == used_after(trace@, h, i as int),
{
    if i >= trace.len() {
        return false;
    }
    let mut j: usize = i + 1;
    while j < trace.len()
        invariant
            i < j <= trace.len(),
            forall|k: int| i < k < j ==> !uses(#[trigger] trace@[k], h),
        decreases trace.len() - j,
    {
        match trace[j] {
            Op::UseBorrow { handle } => {
                if handle == h {
                    return true;
                }
            },
            Op::BorrowReading { name: _, mode: _, reading } => {
                if reading == h {
                    return true;
                }
            },
            _ => {},
        }
        j = j + 1;
    }
    false
}

impl Checker {
    /// Carries out one operation. `used_later` says whether the borrow that
    /// the operation creates or uses has a use further on in the program;
    /// if not, the borrow expires with this operation. `read_later` says the
    /// same of the borrow that the operation reads through while it creates
    /// another.
    pub fn apply(&mut self, op: Op, used_later: bool, read_later: bool) -> (r: Result<
        (),
        Violation,
    >)
        requires
            old(self).wf(),
        ensures
            final(self).wf(),
            match r {
                Ok(_) => apply(old(self)@, op, used_later, read_later) == Ok::<State, Violation>(
                    final(self)@,
                ),
                Err(v) => apply(old(self)@, op, used_later, read_later) == Err::<
                    State,
                    Violation,
                >(v) && final(self)@ == old(self)@,
            },
    {
        match op {
            Op::BeginScope => {
                self.begin_scope();
                Ok(())
            },
            Op::Bind { name, kind, value } => {
                let _ = self.bind(name, kind, value);
                Ok(())
            },
            Op::Move { from, to } => match self.move_value(from, to) {
                Ok(_) => Ok(()),
                Err(v) => Err(v),
            },
            Op::Borrow { name, mode } => match self.borrow(name, mode) {
                Ok(h) => {
                    if !used_later {
                        self.expire(h);
                    }
                    Ok(())
                },
                Err(v) => Err(v),
            },
            Op::BorrowReading { name, mode, reading } => match self.borrow_reading(
                name,
                mode,
                reading,
                !read_later,
            ) {
                Ok(h) => {
                    if !used_later {
                        self.expire(h);
                    }
                    Ok(())
                },
                Err(v) => Err(v),
            },
            Op::Slice { name, start, len } => match self.slice(name, start, len) {
                Ok(h) => {
                    if !used_later {
                        self.expire(h);
                    }
                    Ok(())
                },
                Err(v) => Err(v),
            },
            Op::Use { name } => self.use_value(name),
            Op::UseBorrow { handle } => match self.use_borrow(handle) {
                Ok(_) => {
                    if !used_later {
                        self.expire(handle);
                    }
                    Ok(())
                },
                Err(v) => Err(v),
            },
            Op::Mutate { name, value } => self.mutate(name, value),
            Op::EndScope => {
                let _ = self.end_scope();
                Ok(())
            },
            Op::Return { from, to } => match self.return_value(from, to) {
                Ok(_) => Ok(()),
                Err(v) => Err(v),
            },
        }
    }
}

/// Decides a whole program: accepts it, or names its first violating
/// operation and the rule that it breaks.
pub fn check_trace(trace: &Vec<Op>) -> (r: Result<(), Rejection>)
    ensures
        r == verdict(trace@),
{
    let mut c = Checker::new();
    let mut i: usize = 0;
    while i < trace.len()
        invariant
            i <= trace.len(),
            c.wf(),
            run(trace@, i as int) == Ok::<State, (int, Violation)>(c@),
        decreases trace.len() - i,
    {
        let op = trace[i];
        let later = match op {
            Op::UseBorrow { handle } => used_later(trace, handle, i),
            Op::Borrow { name: _, mode: _ } => used_later(trace, c.borrow_count(), i),
            Op::BorrowReading { name: _, mode: _, reading: _ } => used_later(
                trace,
                c.borrow_count(),
                i,
            ),
            Op::Slice { name: _, start: _, len: _ } => used_later(trace, c.borrow_count(), i),
            _ => false,
        };
        let read_later = match op {
            Op::BorrowReading { name: _, mode: _, reading } => used_later(trace, reading, i),
            _ => false,
        };
        match c.apply(op, later, read_later) {
            Ok(_) => {},
            Err(v) => {
                proof {
                    lemma_rejection_is_final(trace@, i + 1, trace@.len() as int);
                }
                return Err(Rejection { at: i, violation: v });
            },
        }
        i = i + 1;
    }
    Ok(())
}

} // verus!
