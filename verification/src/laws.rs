//! What holds of the rules in every state: each law is a theorem about the
//! model, proved once and for all.

use vstd::prelude::*;
use crate::model::{
    holds_resource, released_upto, resolve_upto, Binding, BorrowMode, Extent, State, Status,
    ValueKind, Violation,
};

verus! {

/// Whether binding `i` carries `name` and its scope is still open.
pub open spec fn visible(bs: Seq<Binding>, name: u64, i: int) -> bool {
    0 <= i < bs.len() && bs[i].name == name && bs[i].status != Status::Ended
}

/// Among the first `n` bindings, resolution finds the latest visible one of
/// the name, and finds nothing only where none is visible.
pub proof fn lemma_resolve_upto_latest(bs: Seq<Binding>, name: u64, n: int)
    requires
        0 <= n <= bs.len(),
    ensures
        match resolve_upto(bs, name, n) {
            Some(i) => i < n && visible(bs, name, i) && forall|j: int|
                i < j < n ==> !visible(bs, name, j),
            None => forall|j: int| 0 <= j < n ==> !visible(bs, name, j),
        },
    decreases n,
{
    if n > 0 {
        lemma_resolve_upto_latest(bs, name, n - 1);
    }
}

/// Resolution depends only on the names of the bindings and on which of
/// them have ended.
pub proof fn lemma_resolve_upto_agrees(a: Seq<Binding>, b: Seq<Binding>, name: u64, n: int)
    requires
        0 <= n <= a.len(),
        n <= b.len(),
        forall|k: int|
            0 <= k < n ==> a[k].name == b[k].name && (a[k].status == Status::Ended) == (b[k].status
                == Status::Ended),
    ensures
        resolve_upto(a, name, n) == resolve_upto(b, name, n),
    decreases n,
{
    if n > 0 {
        lemma_resolve_upto_agrees(a, b, name, n - 1);
    }
}

/// Bindings that have ended are passed over by resolution.
pub proof fn lemma_resolve_upto_skips_ended(bs: Seq<Binding>, name: u64, lo: int, n: int)
    requires
        0 <= lo <= n <= bs.len(),
        forall|k: int| lo <= k < n ==> (#[trigger] bs[k]).status == Status::Ended,
    ensures
        resolve_upto(bs, name, n) == resolve_upto(bs, name, lo),
    decreases n - lo,
{
    if lo < n {
        lemma_resolve_upto_skips_ended(bs, name, lo, n - 1);
    }
}

/// Shadowing: a name denotes the most recent binding of that name whose
/// scope is open; older ones are hidden, not changed. A name denotes nothing
/// only where no binding of it is in scope.
pub proof fn law_name_denotes_latest_binding(s: State, name: u64)
    ensures
        match s.resolve(name) {
            Some(i) => visible(s.bindings, name, i) && forall|j: int|
                i < j ==> !visible(s.bindings, name, j),
            None => forall|j: int| !visible(s.bindings, name, j),
        },
{
    lemma_resolve_upto_latest(s.bindings, name, s.bindings.len() as int);
}

/// A successful lookup yields a binding that is in the arena and valid.
pub proof fn lemma_lookup_valid(s: State, name: u64)
    requires
        s.lookup(name) is Ok,
    ensures
        0 <= s.lookup(name).unwrap() < s.bindings.len(),
        s.bindings[s.lookup(name).unwrap()].status == Status::Valid,
        s.bindings[s.lookup(name).unwrap()].name == name,
{
    lemma_resolve_upto_latest(s.bindings, name, s.bindings.len() as int);
}

/// Assigning a `Copy` value leaves the source as it was and makes the
/// destination a valid binding of the same value; both names can then be
/// used.
pub proof fn law_copy_leaves_both_valid(s: State, from: u64, to: u64)
    requires
        s.wf(),
        s.lookup(from) is Ok,
        s.bindings[s.lookup(from).unwrap()].kind == ValueKind::Copy,
    ensures
        s.move_value(from, to) is Ok,
        ({
            let t = s.move_value(from, to).unwrap();
            let i = s.lookup(from).unwrap();
            let j = s.bindings.len() as int;
            &&& t.bindings.len() == j + 1
            &&& t.bindings[i] == s.bindings[i]
            &&& t.bindings[i].status == Status::Valid
            &&& t.bindings[j] == (Binding {
                name: to,
                kind: ValueKind::Copy,
                value: s.bindings[i].value,
                origin: j as usize,
                status: Status::Valid,
            })
            &&& t.lookup(to) == Ok::<int, Violation>(j)
            &&& from != to ==> t.lookup(from) == Ok::<int, Violation>(i)
        }),
{
    lemma_lookup_valid(s, from);
    let t = s.move_value(from, to).unwrap();
    let j = s.bindings.len() as int;
    lemma_resolve_upto_agrees(s.bindings, t.bindings, from, j);
}

/// After a copy the two bindings are independent: overwriting either one
/// leaves the other as it was. Overwriting the fresh copy always succeeds.
pub proof fn law_copies_are_independent(s: State, from: u64, to: u64, v: u64)
    requires
        s.wf(),
        from != to,
        s.lookup(from) is Ok,
        s.bindings[s.lookup(from).unwrap()].kind == ValueKind::Copy,
    ensures
        ({
            let t = s.move_value(from, to).unwrap();
            let i = s.lookup(from).unwrap();
            let j = s.bindings.len() as int;
            &&& t.mutate(to, v) is Ok
            &&& t.mutate(to, v).unwrap().bindings[j].value == v
            &&& t.mutate(to, v).unwrap().bindings[i] == s.bindings[i]
            &&& t.mutate(from, v) matches Ok(u) ==> u.bindings[i].value == v && u.bindings[j]
                == t.bindings[j]
        }),
{
    law_copy_leaves_both_valid(s, from, to);
    lemma_lookup_valid(s, from);
    let t = s.move_value(from, to).unwrap();
    let j = s.bindings.len() as int;
    assert forall|h: int| !t.blocks(h, j, BorrowMode::Exclusive) by {
        if 0 <= h < t.borrows.len() {
            assert(s.borrows[h].source < s.bindings.len());
        }
    }
    assert(!t.conflicts(j, BorrowMode::Exclusive));
}

/// Assigning an `Owning` value to another name invalidates the source: the
/// destination is valid and holds the value and its resource, the source
/// holds none, and a later use of the source is rejected as a use after
/// move. A borrow of the source does not outlive the move: a later use of it
/// is rejected as a dangling reference.
pub proof fn law_move_invalidates_source(s: State, from: u64, to: u64)
    requires
        s.wf(),
        from != to,
        s.lookup(from) is Ok,
        s.bindings[s.lookup(from).unwrap()].kind == ValueKind::Owning,
    ensures
        s.move_value(from, to) is Ok,
        ({
            let t = s.move_value(from, to).unwrap();
            let i = s.lookup(from).unwrap();
            let j = s.bindings.len() as int;
            &&& t.bindings[i].status == Status::Moved
            &&& t.bindings[j] == (Binding {
                name: to,
                kind: ValueKind::Owning,
                value: s.bindings[i].value,
                origin: s.bindings[i].origin,
                status: Status::Valid,
            })
            &&& holds_resource(t.bindings[j]) && !holds_resource(t.bindings[i])
            &&& t.lookup(to) == Ok::<int, Violation>(j)
            &&& t.use_value(from) == Err::<(), Violation>(Violation::UseAfterMove)
            &&& t.move_value(from, to) == Err::<State, Violation>(Violation::UseAfterMove)
            &&& forall|h: int|
                0 <= h < s.borrows.len() && (#[trigger] s.borrows[h]).source == i
                    ==> t.use_borrow(h) == Err::<(), Violation>(Violation::DanglingReference)
            &&& forall|mode: BorrowMode, extent: Extent|
                t.borrow(from, mode, extent) == Err::<State, Violation>(Violation::UseAfterMove)
        }),
{
    lemma_lookup_valid(s, from);
    let t = s.move_value(from, to).unwrap();
    let j = s.bindings.len() as int;
    lemma_resolve_upto_agrees(s.bindings, t.bindings, from, j);
}

/// A value that leaves a scope as its result is not released with the
/// scope: the binding that gave it up is not among the released, and the
/// binding of the enclosing scope that takes it over holds its resource and
/// can be used under its name.
pub proof fn law_returned_value_outlives_scope(s: State, from: u64, to: u64)
    requires
        s.wf(),
        s.lookup(from) is Ok,
        s.bindings[s.lookup(from).unwrap()].kind == ValueKind::Owning,
    ensures
        s.return_value(from, to) is Ok,
        ({
            let t = s.return_value(from, to).unwrap();
            let i = s.lookup(from).unwrap();
            let j = s.bindings.len() as int;
            &&& !s.give_up(i).released().contains(i as usize)
            &&& !holds_resource(t.bindings[i])
            &&& t.bindings[j] == s.receiver(i, to)
            &&& holds_resource(t.bindings[j])
            &&& t.bindings[j].origin == s.bindings[i].origin
            &&& t.lookup(to) == Ok::<int, Violation>(j)
            &&& t.scopes == s.end_scope().scopes
        }),
{
    lemma_lookup_valid(s, from);
    let i = s.lookup(from).unwrap();
    let g = s.give_up(i);
    lemma_released_upto(g.bindings, g.scope_start(), g.bindings.len() as int);
    if g.released().contains(i as usize) {
        let k = choose|k: int| 0 <= k < g.released().len() && g.released()[k] == i as usize;
        assert(holds_resource(g.bindings[g.released()[k] as int]));
    }
}

/// While an exclusive borrow of a binding is live, no other live borrow of
/// that binding exists, and a new borrow of it in any mode is rejected as an
/// alias conflict; so is a direct read or write of the binding.
pub proof fn law_exclusive_borrow_stands_alone(
    s: State,
    name: u64,
    h: int,
    mode: BorrowMode,
    extent: Extent,
)
    requires
        s.wf(),
        s.lookup(name) is Ok,
        0 <= h < s.borrows.len(),
        s.borrows[h].live,
        s.borrows[h].mode == BorrowMode::Exclusive,
        s.borrows[h].source == s.lookup(name).unwrap(),
    ensures
        forall|g: int|
            0 <= g < s.borrows.len() && g != h && s.borrows[g].live ==> s.borrows[g].source
                != s.borrows[h].source,
        s.borrow(name, mode, extent) == Err::<State, Violation>(Violation::AliasConflict),
        s.use_value(name) == Err::<(), Violation>(Violation::AliasConflict),
        forall|v: u64| s.mutate(name, v) == Err::<State, Violation>(Violation::AliasConflict),
{
    let i = s.lookup(name).unwrap();
    assert(s.blocks(h, i, mode));
    assert(s.blocks(h, i, BorrowMode::Shared));
    assert(s.blocks(h, i, BorrowMode::Exclusive));
}

/// While any borrow of a binding is live, be it shared, exclusive or a view
/// of a range, a new exclusive borrow of the binding is rejected as an alias
/// conflict, and so is a direct write.
pub proof fn law_live_borrow_forbids_mutation(s: State, name: u64, h: int, extent: Extent)
    requires
        s.wf(),
        s.lookup(name) is Ok,
        0 <= h < s.borrows.len(),
        s.borrows[h].live,
        s.borrows[h].source == s.lookup(name).unwrap(),
    ensures
        s.borrow(name, BorrowMode::Exclusive, extent) == Err::<State, Violation>(
            Violation::AliasConflict,
        ),
        forall|v: u64| s.mutate(name, v) == Err::<State, Violation>(Violation::AliasConflict),
{
    let i = s.lookup(name).unwrap();
    assert(s.blocks(h, i, BorrowMode::Exclusive));
}

/// Shared borrows coexist in any number: where every live borrow of a valid
/// binding is shared, one more shared borrow is accepted, and the same holds
/// again of the state that results.
pub proof fn law_shared_borrows_coexist(s: State, name: u64, extent: Extent)
    requires
        s.wf(),
        s.lookup(name) is Ok,
        forall|h: int|
            0 <= h < s.borrows.len() && s.borrows[h].live && s.borrows[h].source == s.lookup(
                name,
            ).unwrap() ==> s.borrows[h].mode == BorrowMode::Shared,
    ensures
        s.borrow(name, BorrowMode::Shared, extent) is Ok,
        ({
            let t = s.borrow(name, BorrowMode::Shared, extent).unwrap();
            &&& t.borrows.len() == s.borrows.len() + 1
            &&& t.borrows.last().live
            &&& forall|h: int| 0 <= h < s.borrows.len() ==> t.borrows[h] == s.borrows[h]
            &&& t.lookup(name) == s.lookup(name)
            &&& forall|h: int|
                0 <= h < t.borrows.len() && t.borrows[h].live && t.borrows[h].source
                    == t.lookup(name).unwrap() ==> t.borrows[h].mode == BorrowMode::Shared
        }),
{
    let i = s.lookup(name).unwrap();
    lemma_lookup_valid(s, name);
    assert forall|h: int| !s.blocks(h, i, BorrowMode::Shared) by {}
}

/// A borrow that has seen its last use stands in the way of nothing, and
/// its end changes nothing for the other borrows.
pub proof fn law_expired_borrow_blocks_nothing(s: State, h: int)
    ensures
        forall|i: int, mode: BorrowMode| !s.expire(h).blocks(h, i, mode),
        forall|g: int, i: int, mode: BorrowMode|
            g != h ==> s.expire(h).blocks(g, i, mode) == s.blocks(g, i, mode),
        forall|name: u64| s.expire(h).lookup(name) == s.lookup(name),
{
}

/// Leaving a scope invalidates every borrow whose source was in the scope:
/// a later use of it is rejected as a dangling reference. Names lose the
/// bindings of the scope and denote again what they denoted outside it.
pub proof fn law_scope_exit_invalidates_borrows(s: State)
    requires
        s.wf(),
    ensures
        forall|h: int|
            0 <= h < s.borrows.len() && (#[trigger] s.borrows[h]).source >= s.scope_start()
                ==> s.end_scope().use_borrow(h) == Err::<(), Violation>(
                Violation::DanglingReference,
            ),
        forall|name: u64| #[trigger]
            s.end_scope().resolve(name) == resolve_upto(s.bindings, name, s.scope_start()),
{
    let e = s.end_scope();
    let start = s.scope_start();
    assert(0 <= start <= s.bindings.len()) by {
        if s.scopes.len() > 0 {
            assert(s.scopes[s.scopes.len() - 1] <= s.bindings.len());
        }
    }
    assert forall|name: u64| #[trigger]
        e.resolve(name) == resolve_upto(s.bindings, name, start) by {
        lemma_resolve_upto_skips_ended(e.bindings, name, start, e.bindings.len() as int);
        lemma_resolve_upto_agrees(e.bindings, s.bindings, name, start);
    }
}

/// What `released_upto` holds: exactly the bindings of the range that hold
/// a resource, each once, the latest first.
pub proof fn lemma_released_upto(bs: Seq<Binding>, start: int, n: int)
    requires
        0 <= start,
        n <= bs.len() <= usize::MAX,
    ensures
        forall|k: int|
            0 <= k < released_upto(bs, start, n).len() ==> start <= (#[trigger] released_upto(
                bs,
                start,
                n,
            )[k]) < n && holds_resource(bs[released_upto(bs, start, n)[k] as int]),
        forall|i: int|
            start <= i < n && holds_resource(#[trigger] bs[i]) ==> released_upto(
                bs,
                start,
                n,
            ).contains(i as usize),
        forall|k1: int, k2: int|
            0 <= k1 < k2 < released_upto(bs, start, n).len() ==> released_upto(bs, start, n)[k1]
                > released_upto(bs, start, n)[k2],
    decreases n - start,
{
    let r = released_upto(bs, start, n);
    if n > start {
        let rest = released_upto(bs, start, n - 1);
        lemma_released_upto(bs, start, n - 1);
        if holds_resource(bs[n - 1]) {
            assert(r == seq![(n - 1) as usize] + rest);
            assert(r[0] == (n - 1) as usize);
            assert forall|k: int| 1 <= k < r.len() implies r[k] == rest[k - 1] by {}
            assert forall|i: int| start <= i < n && holds_resource(#[trigger] bs[i]) implies r.contains(
                i as usize,
            ) by {
                if i == n - 1 {
                    assert(r[0] == i as usize);
                } else {
                    assert(rest.contains(i as usize));
                    let k = choose|k: int| 0 <= k < rest.len() && rest[k] == i as usize;
                    assert(r[k + 1] == i as usize);
                }
            }
            assert forall|k1: int, k2: int| 0 <= k1 < k2 < r.len() implies r[k1] > r[k2] by {
                assert(r[k2] == rest[k2 - 1]);
                if k1 > 0 {
                    assert(r[k1] == rest[k1 - 1]);
                }
            }
            assert forall|k: int| 0 <= k < r.len() implies start <= (#[trigger] r[k]) < n
                && holds_resource(bs[r[k] as int]) by {
                if k > 0 {
                    assert(r[k] == rest[k - 1]);
                }
            }
        }
    }
}

/// Leaving a scope releases exactly the bindings of that scope that still
/// hold an owning value, each once and the latest first. A binding whose
/// value was moved out is not among them. Afterwards every binding of the
/// scope has ended and holds no resource, so that no later scope exit can
/// release it again, and no binding that remains holds a resource that was
/// released.
pub proof fn law_scope_exit_releases_once(s: State)
    requires
        s.wf(),
    ensures
        forall|k: int|
            0 <= k < s.released().len() ==> s.scope_start() <= (#[trigger] s.released()[k])
                < s.bindings.len() && holds_resource(s.bindings[s.released()[k] as int]),
        forall|i: int|
            s.scope_start() <= i < s.bindings.len() && holds_resource(#[trigger] s.bindings[i])
                ==> s.released().contains(i as usize),
        forall|i: int|
            s.scope_start() <= i < s.bindings.len() && (#[trigger] s.bindings[i]).status
                == Status::Moved ==> !s.released().contains(i as usize),
        forall|k1: int, k2: int|
            0 <= k1 < k2 < s.released().len() ==> s.released()[k1] > s.released()[k2],
        s.end_scope().bindings.len() == s.bindings.len(),
        forall|i: int|
            s.scope_start() <= i < s.bindings.len() ==> (#[trigger] s.end_scope().bindings[i]).status
                == Status::Ended,
        forall|i: int|
            0 <= i < s.scope_start() && i < s.bindings.len() ==> (#[trigger] s.end_scope().bindings[i])
                == s.bindings[i],
        forall|start: int, n: int, k: int|
            0 <= start && n <= s.bindings.len() && 0 <= k < released_upto(
                s.end_scope().bindings,
                start,
                n,
            ).len() ==> (#[trigger] released_upto(s.end_scope().bindings, start, n)[k])
                < s.scope_start(),
        forall|k: int, b: int|
            0 <= k < s.released().len() && 0 <= b < s.bindings.len() && holds_resource(
                #[trigger] s.end_scope().bindings[b],
            ) ==> s.end_scope().bindings[b].origin != s.bindings[(#[trigger] s.released()[k]) as int].origin,
{
    let len = s.bindings.len() as int;
    lemma_released_upto(s.bindings, s.scope_start(), len);
    assert forall|i: int|
        s.scope_start() <= i < len && (#[trigger] s.bindings[i]).status
            == Status::Moved implies !s.released().contains(i as usize) by {
        if s.released().contains(i as usize) {
            let k = choose|k: int| 0 <= k < s.released().len() && s.released()[k] == i as usize;
            assert(holds_resource(s.bindings[s.released()[k] as int]));
        }
    }
    let e = s.end_scope().bindings;
    assert forall|start: int, n: int, k: int|
        0 <= start && n <= len && 0 <= k < released_upto(e, start, n).len() implies (
    #[trigger] released_upto(e, start, n)[k]) < s.scope_start() by {
        lemma_released_upto(e, start, n);
        let x = released_upto(e, start, n)[k];
        assert(holds_resource(e[x as int]));
    }
    assert forall|k: int, b: int|
        0 <= k < s.released().len() && 0 <= b < len && holds_resource(
            #[trigger] e[b],
        ) implies e[b].origin != s.bindings[(#[trigger] s.released()[k]) as int].origin by {
        let x = s.released()[k] as int;
        assert(holds_resource(s.bindings[x]));
        assert(holds_resource(s.bindings[b]));
    }
}

} // verus!
