//! What holds of every state that a trace reaches: the invariant, and the
//! live range of a borrow, which runs from its creation to its last use.

use vstd::prelude::*;
use crate::laws::lemma_lookup_valid;
use crate::model::{holds_resource, BorrowMode, Extent, State, ValueKind, Violation};
use crate::trace::{apply, reached, read_through, run, step, subject, used_after, uses, Op};

verus! {

/// Where nothing stands in the way of an access of binding `i` in `mode`,
/// every live borrow of `i` is shared, and so is the access.
pub proof fn lemma_unblocked_borrow_fits(s: State, i: int, mode: BorrowMode)
    requires
        !s.conflicts(i, mode),
    ensures
        forall|g: int|
            0 <= g < s.borrows.len() && (#[trigger] s.borrows[g]).live && s.borrows[g].source == i
                ==> mode == BorrowMode::Shared && s.borrows[g].mode == BorrowMode::Shared,
{
    assert forall|g: int|
        0 <= g < s.borrows.len() && (#[trigger] s.borrows[g]).live && s.borrows[g].source
            == i implies mode == BorrowMode::Shared && s.borrows[g].mode
        == BorrowMode::Shared by {
        assert(!s.blocks(g, i, mode));
    }
}

/// Expiry of a borrow keeps the invariant.
pub proof fn lemma_expire_keeps_wf(s: State, h: int)
    requires
        s.wf(),
    ensures
        s.expire(h).wf(),
        s.expire(h).bindings == s.bindings,
        s.expire(h).borrows.len() == s.borrows.len(),
{
}

/// An accepted borrow keeps the invariant and adds one borrow.
pub proof fn lemma_borrow_keeps_wf(s: State, name: u64, mode: BorrowMode, extent: Extent)
    requires
        s.wf(),
        s.borrows.len() < usize::MAX,
    ensures
        s.borrow(name, mode, extent) matches Ok(t) ==> t.wf() && t.bindings == s.bindings
            && t.borrows.len() == s.borrows.len() + 1,
{
    if s.lookup(name) is Ok {
        lemma_lookup_valid(s, name);
        let i = s.lookup(name).unwrap();
        if !s.conflicts(i, mode) {
            lemma_unblocked_borrow_fits(s, i, mode);
        }
    }
}

/// An accepted borrow that reads through another keeps the invariant and
/// adds one borrow.
pub proof fn lemma_borrow_reading_keeps_wf(
    s: State,
    name: u64,
    mode: BorrowMode,
    reading: int,
    final_read: bool,
)
    requires
        s.wf(),
        s.borrows.len() < usize::MAX,
    ensures
        s.borrow_reading(name, mode, reading, final_read) matches Ok(t) ==> t.wf() && t.bindings
            == s.bindings && t.borrows.len() == s.borrows.len() + 1,
{
    if s.use_borrow(reading) is Ok {
        let before = if final_read && s.borrows[reading].mode == BorrowMode::Shared {
            s.expire(reading)
        } else {
            s
        };
        lemma_expire_keeps_wf(s, reading);
        lemma_borrow_keeps_wf(before, name, mode, Extent::Whole);
        if before.borrow(name, mode, Extent::Whole) is Ok {
            lemma_expire_keeps_wf(before.borrow(name, mode, Extent::Whole).unwrap(), reading);
        }
    }
}

/// An accepted assignment keeps the invariant and adds one binding.
pub proof fn lemma_move_keeps_wf(s: State, from: u64, to: u64)
    requires
        s.wf(),
        s.bindings.len() < usize::MAX,
    ensures
        s.move_value(from, to) matches Ok(t) ==> t.wf() && t.bindings.len() == s.bindings.len()
            + 1 && t.borrows == s.borrows,
{
    if s.lookup(from) is Ok {
        lemma_lookup_valid(s, from);
        let t = s.move_value(from, to).unwrap();
        let i = s.lookup(from).unwrap();
        assert forall|a: int, b: int|
            0 <= a < t.bindings.len() && 0 <= b < t.bindings.len() && a != b && holds_resource(
                #[trigger] t.bindings[a],
            ) && holds_resource(#[trigger] t.bindings[b]) implies t.bindings[a].origin
            != t.bindings[b].origin by {
            assert(a < s.bindings.len() ==> holds_resource(s.bindings[a]));
            assert(b < s.bindings.len() ==> holds_resource(s.bindings[b]));
            assert(a == s.bindings.len() || b == s.bindings.len() ==> holds_resource(
                s.bindings[i],
            ));
        }
        assert forall|a: int| 0 <= a < t.bindings.len() implies (#[trigger] t.bindings[a]).origin
            <= a by {
            if a < s.bindings.len() {
                assert(s.bindings[a].origin <= a);
            } else {
                assert(s.bindings[i].origin <= i);
            }
        }
    }
}

/// An accepted scope exit with a result keeps the invariant and adds one
/// binding.
pub proof fn lemma_return_keeps_wf(s: State, from: u64, to: u64)
    requires
        s.wf(),
        s.bindings.len() < usize::MAX,
    ensures
        s.return_value(from, to) matches Ok(t) ==> t.wf() && t.bindings.len() == s.bindings.len()
            + 1 && t.borrows == s.borrows,
{
    if s.lookup(from) is Ok {
        lemma_lookup_valid(s, from);
        let t = s.return_value(from, to).unwrap();
        let i = s.lookup(from).unwrap();
        let n = s.bindings.len() as int;
        assert forall|a: int, b: int|
            0 <= a < t.bindings.len() && 0 <= b < t.bindings.len() && a != b && holds_resource(
                #[trigger] t.bindings[a],
            ) && holds_resource(#[trigger] t.bindings[b]) implies t.bindings[a].origin
            != t.bindings[b].origin by {
            assert(a < n ==> holds_resource(s.bindings[a]));
            assert(b < n ==> holds_resource(s.bindings[b]));
            assert(a == n || b == n ==> holds_resource(s.bindings[i]));
        }
        assert forall|a: int| 0 <= a < t.bindings.len() implies (#[trigger] t.bindings[a]).origin
            <= a by {
            if a < n {
                assert(s.bindings[a].origin <= a);
            } else {
                assert(s.bindings[i].origin <= i);
            }
        }
        assert forall|k: int| 0 <= k < t.scopes.len() implies (#[trigger] t.scopes[k])
            <= t.bindings.len() by {
            assert(s.scopes[k] <= s.bindings.len());
        }
    }
}

/// An accepted write keeps the invariant.
pub proof fn lemma_mutate_keeps_wf(s: State, name: u64, value: u64)
    requires
        s.wf(),
    ensures
        s.mutate(name, value) matches Ok(t) ==> t.wf() && t.bindings.len() == s.bindings.len()
            && t.borrows == s.borrows,
{
    if s.lookup(name) is Ok {
        lemma_lookup_valid(s, name);
        if let Ok(t) = s.mutate(name, value) {
            assert forall|a: int, b: int|
                0 <= a < t.bindings.len() && 0 <= b < t.bindings.len() && a != b
                    && holds_resource(#[trigger] t.bindings[a]) && holds_resource(
                    #[trigger] t.bindings[b],
                ) implies t.bindings[a].origin != t.bindings[b].origin by {
                assert(holds_resource(s.bindings[a]) && holds_resource(s.bindings[b]));
            }
            assert forall|a: int| 0 <= a < t.bindings.len() implies (
            #[trigger] t.bindings[a]).origin <= a by {
                assert(s.bindings[a].origin <= a);
            }
        }
    }
}

/// A new binding, a scope entry and a scope exit keep the invariant.
pub proof fn lemma_scopes_keep_wf(s: State, name: u64, kind: ValueKind, value: u64)
    requires
        s.wf(),
        s.bindings.len() < usize::MAX,
    ensures
        s.begin_scope().wf(),
        s.bind(name, kind, value).wf(),
        s.end_scope().wf(),
        s.end_scope().bindings.len() == s.bindings.len(),
{
    let t = s.end_scope();
    assert forall|a: int, b: int|
        0 <= a < t.bindings.len() && 0 <= b < t.bindings.len() && a != b && holds_resource(
            #[trigger] t.bindings[a],
        ) && holds_resource(#[trigger] t.bindings[b]) implies t.bindings[a].origin
        != t.bindings[b].origin by {
        assert(holds_resource(s.bindings[a]) && holds_resource(s.bindings[b]));
    }
    assert forall|a: int| 0 <= a < t.bindings.len() implies (#[trigger] t.bindings[a]).origin
        <= a by {
        assert(s.bindings[a].origin <= a);
    }
    let u = s.bind(name, kind, value);
    assert forall|a: int, b: int|
        0 <= a < u.bindings.len() && 0 <= b < u.bindings.len() && a != b && holds_resource(
            #[trigger] u.bindings[a],
        ) && holds_resource(#[trigger] u.bindings[b]) implies u.bindings[a].origin
        != u.bindings[b].origin by {
        assert(a < s.bindings.len() ==> s.bindings[a].origin <= a);
        assert(b < s.bindings.len() ==> s.bindings[b].origin <= b);
    }
}

/// One operation keeps the invariant, adds at most one binding and at most
/// one borrow, and removes none.
pub proof fn lemma_apply_keeps_wf(s: State, op: Op, used_later: bool, read_later: bool)
    requires
        s.wf(),
        s.bindings.len() < usize::MAX,
        s.borrows.len() < usize::MAX,
    ensures
        apply(s, op, used_later, read_later) matches Ok(t) ==> t.wf() && s.bindings.len()
            <= t.bindings.len() <= s.bindings.len() + 1 && s.borrows.len() <= t.borrows.len()
            <= s.borrows.len() + 1,
{
    let h = s.borrows.len() as int;
    match op {
        Op::BeginScope => {
            lemma_scopes_keep_wf(s, 0, ValueKind::Copy, 0);
        },
        Op::Bind { name, kind, value } => {
            lemma_scopes_keep_wf(s, name, kind, value);
        },
        Op::EndScope => {
            lemma_scopes_keep_wf(s, 0, ValueKind::Copy, 0);
        },
        Op::Move { from, to } => {
            lemma_move_keeps_wf(s, from, to);
        },
        Op::Return { from, to } => {
            lemma_return_keeps_wf(s, from, to);
        },
        Op::Borrow { name, mode } => {
            lemma_borrow_keeps_wf(s, name, mode, Extent::Whole);
            if let Ok(t) = s.borrow(name, mode, Extent::Whole) {
                lemma_expire_keeps_wf(t, h);
            }
        },
        Op::BorrowReading { name, mode, reading } => {
            lemma_borrow_reading_keeps_wf(s, name, mode, reading as int, !read_later);
            if let Ok(t) = s.borrow_reading(name, mode, reading as int, !read_later) {
                lemma_expire_keeps_wf(t, h);
            }
        },
        Op::Slice { name, start, len } => {
            let extent = Extent::Range { start, len };
            lemma_borrow_keeps_wf(s, name, BorrowMode::Shared, extent);
            if let Ok(t) = s.borrow(name, BorrowMode::Shared, extent) {
                lemma_expire_keeps_wf(t, h);
            }
        },
        Op::Mutate { name, value } => {
            lemma_mutate_keeps_wf(s, name, value);
        },
        Op::Use { name } => {},
        Op::UseBorrow { handle } => {
            lemma_expire_keeps_wf(s, handle as int);
        },
    }
}

/// Every state that a trace reaches satisfies the invariant; in
/// particular, at no point of an accepted program do two bindings hold one
/// resource, nor do two live borrows of one binding coexist unless both are
/// shared.
pub proof fn law_reachable_states_are_wf(trace: Seq<Op>, n: int)
    requires
        0 <= n <= trace.len() <= usize::MAX,
    ensures
        run(trace, n) matches Ok(s) ==> s.wf() && s.single_owner() && s.aliasing_respected()
            && s.bindings.len() <= n
            && s.borrows.len() <= n,
    decreases n,
{
    if n > 0 {
        law_reachable_states_are_wf(trace, n - 1);
        if let Ok(p) = run(trace, n - 1) {
            lemma_apply_keeps_wf(
                p,
                trace[n - 1],
                used_after(trace, subject(p, trace[n - 1]), n - 1),
                used_after(trace, read_through(trace[n - 1]), n - 1),
            );
        }
    }
}

/// Where operation `i` does not use borrow `h`, `h` has a use after `i`
/// exactly if it has one after `i - 1`.
pub proof fn lemma_used_after_skips(trace: Seq<Op>, h: usize, i: int)
    requires
        0 <= i < trace.len(),
        !uses(trace[i], h),
    ensures
        used_after(trace, h, i) == used_after(trace, h, i - 1),
{
    if used_after(trace, h, i - 1) {
        let j = choose|j: int| i - 1 < j < trace.len() && uses(#[trigger] trace[j], h);
        assert(i < j < trace.len() && uses(trace[j], h));
    }
    if used_after(trace, h, i) {
        let j = choose|j: int| i < j < trace.len() && uses(#[trigger] trace[j], h);
        assert(i - 1 < j < trace.len() && uses(trace[j], h));
    }
}

/// Non-lexical liveness: after the first `n` operations of an accepted
/// prefix, a borrow is live exactly if one of the remaining operations uses
/// it. Its live range thus ends with its last use, wherever its scope ends.
pub proof fn law_borrow_lives_until_last_use(trace: Seq<Op>, n: int)
    requires
        0 <= n <= trace.len() <= usize::MAX,
        run(trace, n) is Ok,
    ensures
        forall|h: int|
            0 <= h < reached(trace, n).borrows.len() ==> ((#[trigger] reached(
                trace,
                n,
            ).borrows[h]).live <==> used_after(trace, h as usize, n - 1)),
    decreases n,
{
    if n > 0 {
        let p = reached(trace, n - 1);
        let t = reached(trace, n);
        let op = trace[n - 1];
        law_borrow_lives_until_last_use(trace, n - 1);
        law_reachable_states_are_wf(trace, n - 1);
        assert(step(p, trace, n - 1) == Ok::<State, Violation>(t));
        assert forall|h: int| 0 <= h < t.borrows.len() implies ((#[trigger] t.borrows[h]).live
            <==> used_after(trace, h as usize, n - 1)) by {
            if h < p.borrows.len() {
                if uses(op, h as usize) {
                    assert(p.borrows[h].live);
                } else {
                    lemma_used_after_skips(trace, h as usize, n - 1);
                    assert(t.borrows[h] == p.borrows[h]);
                }
            } else {
                assert(h == p.borrows.len());
            }
        }
    }
}

/// The verdict on the creation of a borrow, read off the program text: a
/// borrow of a valid binding is accepted exactly if every earlier borrow of
/// that binding that is used further on is shared, and the new one is shared
/// too unless there is none. Where it is rejected, it is rejected as an
/// alias conflict at this operation. Earlier borrows whose last use lies
/// before this operation have no say.
pub proof fn law_borrow_verdict_follows_uses(trace: Seq<Op>, n: int, name: u64, mode: BorrowMode)
    requires
        0 <= n < trace.len() <= usize::MAX,
        run(trace, n) is Ok,
        trace[n] == (Op::Borrow { name, mode }),
        reached(trace, n).lookup(name) is Ok,
    ensures
        run(trace, n + 1) is Ok <==> forall|h: int|
            0 <= h < reached(trace, n).borrows.len() && (#[trigger] reached(
                trace,
                n,
            ).borrows[h]).source == reached(trace, n).lookup(name).unwrap() && used_after(
                trace,
                h as usize,
                n,
            ) ==> mode == BorrowMode::Shared && reached(trace, n).borrows[h].mode
                == BorrowMode::Shared,
        run(trace, n + 1) is Err ==> run(trace, n + 1) == Err::<State, (int, Violation)>(
            (n, Violation::AliasConflict),
        ),
{
    let s = reached(trace, n);
    let i = s.lookup(name).unwrap();
    law_borrow_lives_until_last_use(trace, n);
    law_reachable_states_are_wf(trace, n);
    assert forall|h: int| 0 <= h < s.borrows.len() implies ((#[trigger] s.borrows[h]).live
        <==> used_after(trace, h as usize, n)) by {
        lemma_used_after_skips(trace, h as usize, n);
    }
    assert(run(trace, n + 1) is Ok <==> !s.conflicts(i, mode));
    if s.conflicts(i, mode) {
        let h = choose|h: int| s.blocks(h, i, mode);
        assert(s.borrows[h].live && s.borrows[h].source == i);
    } else {
        lemma_unblocked_borrow_fits(s, i, mode);
    }
}

/// The verdict on a direct write, read off the program text: a write to a
/// valid binding is accepted exactly if no earlier borrow of that binding,
/// whole or of a range, is used further on. Where it is rejected, it is
/// rejected as an alias conflict at this operation.
pub proof fn law_write_verdict_follows_uses(trace: Seq<Op>, n: int, name: u64, value: u64)
    requires
        0 <= n < trace.len() <= usize::MAX,
        run(trace, n) is Ok,
        trace[n] == (Op::Mutate { name, value }),
        reached(trace, n).lookup(name) is Ok,
    ensures
        run(trace, n + 1) is Ok <==> forall|h: int|
            0 <= h < reached(trace, n).borrows.len() && (#[trigger] reached(
                trace,
                n,
            ).borrows[h]).source == reached(trace, n).lookup(name).unwrap() ==> !used_after(
                trace,
                h as usize,
                n,
            ),
        run(trace, n + 1) is Err ==> run(trace, n + 1) == Err::<State, (int, Violation)>(
            (n, Violation::AliasConflict),
        ),
{
    let s = reached(trace, n);
    let i = s.lookup(name).unwrap();
    law_borrow_lives_until_last_use(trace, n);
    law_reachable_states_are_wf(trace, n);
    assert forall|h: int| 0 <= h < s.borrows.len() implies ((#[trigger] s.borrows[h]).live
        <==> used_after(trace, h as usize, n)) by {
        lemma_used_after_skips(trace, h as usize, n);
    }
    assert(run(trace, n + 1) is Ok <==> !s.conflicts(i, BorrowMode::Exclusive));
    if s.conflicts(i, BorrowMode::Exclusive) {
        let h = choose|h: int| s.blocks(h, i, BorrowMode::Exclusive);
        assert(s.borrows[h].live && s.borrows[h].source == i);
    } else {
        lemma_unblocked_borrow_fits(s, i, BorrowMode::Exclusive);
    }
}

} // verus!
