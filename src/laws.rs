//! A model of a run of stack operations, and the laws that every run obeys.
//!
//! The contracts of `List::push` and `List::pop` state their effect on the
//! stack's view through `apply_op` and `op_result`, so what is proved here of
//! runs holds of the stack itself.

use vstd::prelude::*;

verus! {

/// One call on a stack.
pub enum StackOp {
    Push(i32),
    Pop,
}

/// The contents, bottom first, after one operation on contents `s`.
pub open spec fn apply_op(s: Seq<i32>, op: StackOp) -> Seq<i32> {
    match op {
        StackOp::Push(v) => s.push(v),
        StackOp::Pop => if s.len() == 0 {
            s
        } else {
            s.drop_last()
        },
    }
}

/// The value that one operation on contents `s` hands back: the popped value,
/// or nothing for a push or for a pop on an empty stack.
pub open spec fn op_result(s: Seq<i32>, op: StackOp) -> Option<i32> {
    match op {
        StackOp::Push(_) => None,
        StackOp::Pop => if s.len() == 0 {
            None
        } else {
            Some(s.last())
        },
    }
}

/// The contents after running `ops` in order, starting from contents `s`.
pub open spec fn run(s: Seq<i32>, ops: Seq<StackOp>) -> Seq<i32>
    decreases ops.len(),
{
    if ops.len() == 0 {
        s
    } else {
        apply_op(run(s, ops.drop_last()), ops.last())
    }
}

/// The values handed back by the pops of `ops` that found a value, in the
/// order they were handed back.
pub open spec fn popped(s: Seq<i32>, ops: Seq<StackOp>) -> Seq<i32>
    decreases ops.len(),
{
    if ops.len() == 0 {
        Seq::empty()
    } else {
        match op_result(run(s, ops.drop_last()), ops.last()) {
            Some(v) => popped(s, ops.drop_last()).push(v),
            None => popped(s, ops.drop_last()),
        }
    }
}

/// The number of pushes in `ops`.
pub open spec fn count_pushes(ops: Seq<StackOp>) -> nat
    decreases ops.len(),
{
    if ops.len() == 0 {
        0
    } else {
        count_pushes(ops.drop_last()) + if ops.last() is Push {
            1nat
        } else {
            0nat
        }
    }
}

/// One push of each of `vals`, in order.
pub open spec fn pushes_of(vals: Seq<i32>) -> Seq<StackOp> {
    vals.map_values(|v: i32| StackOp::Push(v))
}

/// `n` pops.
pub open spec fn pops_of(n: nat) -> Seq<StackOp> {
    Seq::new(n, |i: int| StackOp::Pop)
}

/// Running `a` and then `b` is running `a + b`.
proof fn lemma_run_concat(s: Seq<i32>, a: Seq<StackOp>, b: Seq<StackOp>)
    ensures
        run(s, a + b) == run(run(s, a), b),
        popped(s, a + b) == popped(s, a) + popped(run(s, a), b),
    decreases b.len(),
{
    if b.len() == 0 {
        assert(a + b =~= a);
        assert(popped(s, a) + popped(run(s, a), b) =~= popped(s, a));
    } else {
        lemma_run_concat(s, a, b.drop_last());
        assert((a + b).drop_last() =~= a + b.drop_last());
        assert((a + b).last() == b.last());
        let t = run(s, a);
        match op_result(run(t, b.drop_last()), b.last()) {
            Some(v) => {
                assert(popped(s, a) + popped(t, b) =~= (popped(s, a) + popped(t, b.drop_last())).push(v));
            },
            None => {},
        }
    }
}

/// Pushing `vals` appends them to the contents and pops nothing.
proof fn lemma_run_pushes(s: Seq<i32>, vals: Seq<i32>)
    ensures
        run(s, pushes_of(vals)) == s + vals,
        popped(s, pushes_of(vals)) == Seq::<i32>::empty(),
    decreases vals.len(),
{
    if vals.len() == 0 {
        assert(s + vals =~= s);
    } else {
        lemma_run_pushes(s, vals.drop_last());
        assert(pushes_of(vals).drop_last() =~= pushes_of(vals.drop_last()));
        assert((s + vals.drop_last()).push(vals.last()) =~= s + vals);
    }
}

/// `m` pops on contents that hold at least `m` values remove the top `m`
/// and hand them back top first.
proof fn lemma_run_pops(t: Seq<i32>, m: nat)
    requires
        m <= t.len(),
    ensures
        run(t, pops_of(m)) == t.subrange(0, t.len() - m),
        popped(t, pops_of(m)) == t.subrange(t.len() - m, t.len() as int).reverse(),
    decreases m,
{
    if m == 0 {
        assert(t.subrange(0, t.len() as int) =~= t);
        assert(t.subrange(t.len() as int, t.len() as int).reverse() =~= Seq::<i32>::empty());
    } else {
        let k = (m - 1) as nat;
        lemma_run_pops(t, k);
        assert(pops_of(m).drop_last() =~= pops_of(k));
        let before = t.subrange(0, t.len() - k);
        assert(before.drop_last() =~= t.subrange(0, t.len() - m));
        assert(before.last() == t[t.len() - m]);
        assert(t.subrange(t.len() - k, t.len() as int).reverse().push(t[t.len() - m])
            =~= t.subrange(t.len() - m, t.len() as int).reverse());
    }
}

/// Pushing any values and then popping as many times hands them back in
/// exactly the reverse order of the pushes, and leaves the stack as it was.
pub proof fn lemma_pushes_then_pops_reverse(s: Seq<i32>, vals: Seq<i32>)
    ensures
        popped(s, pushes_of(vals) + pops_of(vals.len())) == vals.reverse(),
        run(s, pushes_of(vals) + pops_of(vals.len())) == s,
{
    lemma_run_concat(s, pushes_of(vals), pops_of(vals.len()));
    lemma_run_pushes(s, vals);
    let t = s + vals;
    lemma_run_pops(t, vals.len());
    assert(t.subrange(0, t.len() - vals.len()) =~= s);
    assert(t.subrange(t.len() - vals.len(), t.len() as int) =~= vals);
    assert(Seq::<i32>::empty() + vals.reverse() =~= vals.reverse());
}

/// Whatever operations run, the stack holds as many values as it started
/// with, plus the pushes, less the pops that found a value.
pub proof fn lemma_length_counts(s: Seq<i32>, ops: Seq<StackOp>)
    ensures
        run(s, ops).len() == s.len() + count_pushes(ops) - popped(s, ops).len(),
    decreases ops.len(),
{
    if ops.len() > 0 {
        lemma_length_counts(s, ops.drop_last());
    }
}

/// The depth of a stack that started empty, after the first `k` operations
/// of `ops`.
pub open spec fn depth(ops: Seq<StackOp>, k: int) -> nat {
    run(Seq::empty(), ops.take(k)).len()
}

/// The push at position `j` of `ops` has not been popped by the end of
/// `ops`: from just after it to the end, the stack never sinks below the
/// depth that the push brought it to.
pub open spec fn push_survives(ops: Seq<StackOp>, j: int) -> bool {
    &&& 0 <= j < ops.len()
    &&& ops[j] is Push
    &&& forall|k: int| j + 1 <= k <= ops.len() ==> #[trigger] depth(ops, k) >= depth(ops, j + 1)
}

/// Position `j` of `ops` pushed the value that sits at height `i` after a
/// run from an empty stack, and nothing has sunk below height `i` since.
spec fn pushed_at(ops: Seq<StackOp>, i: int, j: int) -> bool {
    &&& 0 <= j < ops.len()
    &&& ops[j] == StackOp::Push(run(Seq::empty(), ops)[i])
    &&& depth(ops, j + 1) == i + 1
    &&& forall|k: int| j + 1 <= k <= ops.len() ==> #[trigger] depth(ops, k) >= i + 1
}

spec fn has_pusher(ops: Seq<StackOp>, i: int) -> bool {
    exists|j: int| pushed_at(ops, i, j)
}

/// Taking one more operation leaves the depths of the earlier prefixes as
/// they were.
proof fn lemma_depth_prefix(ops: Seq<StackOp>)
    requires
        ops.len() > 0,
    ensures
        forall|k: int| 0 <= k <= ops.len() - 1 ==> #[trigger] depth(ops, k) == depth(ops.drop_last(), k),
        depth(ops, ops.len() as int) == run(Seq::empty(), ops).len(),
{
    let p = ops.drop_last();
    assert forall|k: int| 0 <= k <= ops.len() - 1 implies #[trigger] depth(ops, k) == depth(p, k) by {
        assert(ops.take(k) =~= p.take(k));
    }
    assert(ops.take(ops.len() as int) =~= ops);
}

/// Each operation moves the depth by a push's one, a pop's one, or not at all.
proof fn lemma_depth_step(ops: Seq<StackOp>, j: int)
    requires
        0 <= j < ops.len(),
    ensures
        ops[j] is Push ==> depth(ops, j + 1) == depth(ops, j) + 1,
{
    assert(ops.take(j + 1).drop_last() =~= ops.take(j));
}

/// Every value on a stack that started empty was put there by a push that
/// has not been popped since.
proof fn lemma_every_value_has_pusher(ops: Seq<StackOp>)
    ensures
        forall|i: int| 0 <= i < run(Seq::empty(), ops).len() ==> #[trigger] has_pusher(ops, i),
    decreases ops.len(),
{
    if ops.len() > 0 {
        let e = Seq::<i32>::empty();
        let p = ops.drop_last();
        let n = p.len() as int;
        lemma_every_value_has_pusher(p);
        lemma_depth_prefix(ops);
        let before = run(e, p);
        let after = run(e, ops);
        assert forall|i: int| 0 <= i < after.len() implies #[trigger] has_pusher(ops, i) by {
            if i < before.len() {
                assert(has_pusher(p, i));
                let j = choose|j: int| pushed_at(p, i, j);
                assert(after[i] == before[i]);
                assert forall|k: int| j + 1 <= k <= ops.len() implies #[trigger] depth(ops, k) >= i + 1 by {
                    if k <= n {
                        assert(depth(p, k) >= i + 1);
                    }
                }
                assert(pushed_at(ops, i, j));
            } else {
                assert(ops.last() is Push);
                assert(pushed_at(ops, i, n));
            }
        }
    }
}

/// After any run of pushes and pops from an empty stack, the top is the
/// value of the latest push that has not been popped: that push survives,
/// and every later push has been popped.
pub proof fn lemma_top_is_latest_unpopped_push(ops: Seq<StackOp>)
    requires
        run(Seq::empty(), ops).len() > 0,
    ensures
        exists|j: int|
            {
                &&& push_survives(ops, j)
                &&& ops[j] == StackOp::Push(run(Seq::empty(), ops).last())
                &&& forall|j2: int|
                    j < j2 < ops.len() && (#[trigger] ops[j2]) is Push ==> !push_survives(ops, j2)
            },
{
    let c = run(Seq::empty(), ops);
    let top = c.len() - 1;
    lemma_every_value_has_pusher(ops);
    assert(has_pusher(ops, top));
    let j = choose|j: int| pushed_at(ops, top, j);
    lemma_depth_prefix(ops);
    assert forall|j2: int| j < j2 < ops.len() && (#[trigger] ops[j2]) is Push implies !push_survives(ops, j2) by {
        lemma_depth_step(ops, j2);
        assert(depth(ops, j2) >= top + 1);
        assert(depth(ops, ops.len() as int) < depth(ops, j2 + 1));
    }
    assert(push_survives(ops, j));
}

} // verus!
