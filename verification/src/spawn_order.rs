//! Where the preemptive scheduler files a spawned task among its pending
//! tasks, and why the order of spawning matters only among tasks of equal
//! ready tick and priority.

use vstd::prelude::*;
use crate::priority::{key_le, rank, run_spec, sorted_by_release, PreemptiveTask, SimState};

verus! {

/// `a` and `b` have the same ready tick and priority.
pub open spec fn same_key(a: PreemptiveTask, b: PreemptiveTask) -> bool {
    a.ready_at_tick == b.ready_at_tick && rank(a.priority) == rank(b.priority)
}

/// `r` with `t` filed after every task that sorts no later than `t`.
pub open spec fn insert_sorted(r: Seq<PreemptiveTask>, t: PreemptiveTask) -> Seq<PreemptiveTask>
    decreases r.len(),
{
    if r.len() == 0 {
        seq![t]
    } else if key_le(r[0], t) {
        seq![r[0]] + insert_sorted(r.drop_first(), t)
    } else {
        seq![t] + r
    }
}

/// The pending tasks after spawning `s` in order into an empty scheduler.
pub open spec fn spawn_all(s: Seq<PreemptiveTask>) -> Seq<PreemptiveTask>
    decreases s.len(),
{
    if s.len() == 0 {
        Seq::empty()
    } else {
        insert_sorted(spawn_all(s.drop_last()), s.last())
    }
}

/// The tasks of `s` with the ready tick and priority of `x`, in order.
pub open spec fn key_items(s: Seq<PreemptiveTask>, x: PreemptiveTask) -> Seq<PreemptiveTask>
    decreases s.len(),
{
    if s.len() == 0 {
        Seq::empty()
    } else if same_key(s[0], x) {
        seq![s[0]] + key_items(s.drop_first(), x)
    } else {
        key_items(s.drop_first(), x)
    }
}

proof fn lemma_sorted_drop_first(r: Seq<PreemptiveTask>)
    requires
        sorted_by_release(r),
        r.len() > 0,
    ensures
        sorted_by_release(r.drop_first()),
        forall|i: int| 0 <= i < r.len() ==> key_le(r[0], #[trigger] r[i]),
{
    assert forall|i: int, j: int| 0 <= i < j < r.drop_first().len() implies key_le(
        #[trigger] r.drop_first()[i],
        #[trigger] r.drop_first()[j],
    ) by {
        assert(r.drop_first()[i] == r[i + 1] && r.drop_first()[j] == r[j + 1]);
    }
    assert forall|i: int| 0 <= i < r.len() implies key_le(r[0], #[trigger] r[i]) by {
        if i > 0 {
            assert(key_le(r[0], r[i]));
        }
    }
}

/// The rule `spawn` follows picks the place that `insert_sorted` picks.
pub proof fn lemma_insert_at(r: Seq<PreemptiveTask>, p: int, t: PreemptiveTask)
    requires
        sorted_by_release(r),
        0 <= p <= r.len(),
        forall|i: int| 0 <= i < p ==> key_le(#[trigger] r[i], t),
        forall|i: int| p <= i < r.len() ==> !key_le(#[trigger] r[i], t),
    ensures
        r.insert(p, t) == insert_sorted(r, t),
    decreases r.len(),
{
    if r.len() == 0 {
        assert(r.insert(p, t) =~= seq![t]);
    } else if p == 0 {
        assert(!key_le(r[0], t));
        assert(r.insert(0, t) =~= seq![t] + r);
    } else {
        assert(key_le(r[0], t));
        lemma_sorted_drop_first(r);
        let d = r.drop_first();
        assert forall|i: int| 0 <= i < p - 1 implies key_le(#[trigger] d[i], t) by {
            assert(d[i] == r[i + 1]);
        }
        assert forall|i: int| p - 1 <= i < d.len() implies !key_le(#[trigger] d[i], t) by {
            assert(d[i] == r[i + 1]);
        }
        lemma_insert_at(d, p - 1, t);
        assert(r.insert(p, t) =~= seq![r[0]] + d.insert(p - 1, t));
    }
}

proof fn lemma_insert_elements(r: Seq<PreemptiveTask>, t: PreemptiveTask)
    ensures
        insert_sorted(r, t).len() == r.len() + 1,
        forall|i: int|
            0 <= i < insert_sorted(r, t).len() ==> #[trigger] insert_sorted(r, t)[i] == t || exists|j: int|
                0 <= j < r.len() && r[j] == insert_sorted(r, t)[i],
    decreases r.len(),
{
    if r.len() > 0 && key_le(r[0], t) {
        let d = r.drop_first();
        lemma_insert_elements(d, t);
        let ins = insert_sorted(r, t);
        assert forall|i: int| 0 <= i < ins.len() implies #[trigger] ins[i] == t || exists|j: int|
            0 <= j < r.len() && r[j] == ins[i] by {
            if i == 0 {
                assert(r[0] == ins[0]);
            } else {
                assert(ins[i] == insert_sorted(d, t)[i - 1]);
                if ins[i] != t {
                    let j = choose|j: int| 0 <= j < d.len() && d[j] == insert_sorted(d, t)[i - 1];
                    assert(r[j + 1] == ins[i]);
                }
            }
        }
    } else if r.len() > 0 {
        let ins = insert_sorted(r, t);
        assert forall|i: int| 0 <= i < ins.len() implies #[trigger] ins[i] == t || exists|j: int|
            0 <= j < r.len() && r[j] == ins[i] by {
            if i > 0 {
                assert(r[i - 1] == ins[i]);
            }
        }
    }
}

proof fn lemma_insert_sorted_sorted(r: Seq<PreemptiveTask>, t: PreemptiveTask)
    requires
        sorted_by_release(r),
    ensures
        sorted_by_release(insert_sorted(r, t)),
    decreases r.len(),
{
    let ins = insert_sorted(r, t);
    if r.len() == 0 {
    } else if key_le(r[0], t) {
        let d = r.drop_first();
        lemma_sorted_drop_first(r);
        lemma_insert_sorted_sorted(d, t);
        lemma_insert_elements(d, t);
        assert forall|i: int, j: int| 0 <= i < j < ins.len() implies key_le(#[trigger] ins[i], #[trigger] ins[j]) by {
            assert(ins[j] == insert_sorted(d, t)[j - 1]);
            if i == 0 {
                if ins[j] != t {
                    let k = choose|k: int| 0 <= k < d.len() && d[k] == insert_sorted(d, t)[j - 1];
                    assert(d[k] == r[k + 1]);
                }
            } else {
                assert(ins[i] == insert_sorted(d, t)[i - 1]);
            }
        }
    } else {
        lemma_sorted_drop_first(r);
        assert forall|i: int, j: int| 0 <= i < j < ins.len() implies key_le(#[trigger] ins[i], #[trigger] ins[j]) by {
            assert(ins[j] == r[j - 1]);
            if i > 0 {
                assert(ins[i] == r[i - 1]);
            } else {
                assert(key_le(r[0], r[j - 1]));
            }
        }
    }
}

proof fn lemma_key_items_none(s: Seq<PreemptiveTask>, x: PreemptiveTask)
    requires
        forall|i: int| 0 <= i < s.len() ==> !same_key(#[trigger] s[i], x),
    ensures
        key_items(s, x) == Seq::<PreemptiveTask>::empty(),
    decreases s.len(),
{
    if s.len() > 0 {
        assert forall|i: int| 0 <= i < s.drop_first().len() implies !same_key(#[trigger] s.drop_first()[i], x) by {
            assert(s.drop_first()[i] == s[i + 1]);
        }
        lemma_key_items_none(s.drop_first(), x);
    }
}

proof fn lemma_key_items_single(t: PreemptiveTask, x: PreemptiveTask)
    ensures
        key_items(seq![t], x) == if same_key(t, x) {
            seq![t]
        } else {
            Seq::<PreemptiveTask>::empty()
        },
{
    let s = seq![t];
    assert(s.drop_first() =~= Seq::<PreemptiveTask>::empty());
    assert(key_items(s.drop_first(), x) == Seq::<PreemptiveTask>::empty());
    assert(s[0] == t);
    if same_key(t, x) {
        assert(seq![t] + Seq::<PreemptiveTask>::empty() =~= seq![t]);
    }
}

proof fn lemma_key_items_insert(r: Seq<PreemptiveTask>, t: PreemptiveTask, x: PreemptiveTask)
    requires
        sorted_by_release(r),
    ensures
        key_items(insert_sorted(r, t), x) == if same_key(t, x) {
            key_items(r, x).push(t)
        } else {
            key_items(r, x)
        },
    decreases r.len(),
{
    if r.len() == 0 {
        lemma_key_items_single(t, x);
        assert(key_items(r, x) == Seq::<PreemptiveTask>::empty());
        if same_key(t, x) {
            assert(key_items(r, x).push(t) =~= seq![t]);
        }
    } else if key_le(r[0], t) {
        let d = r.drop_first();
        lemma_sorted_drop_first(r);
        lemma_key_items_insert(d, t, x);
        let ins = insert_sorted(r, t);
        assert(ins.drop_first() =~= insert_sorted(d, t));
        assert(ins[0] == r[0]);
        if same_key(t, x) {
            if same_key(r[0], x) {
                assert(key_items(ins, x) =~= seq![r[0]] + key_items(d, x).push(t));
            }
            assert(key_items(ins, x) =~= key_items(r, x).push(t));
        }
    } else {
        let ins = insert_sorted(r, t);
        assert(ins.drop_first() =~= r);
        if same_key(t, x) {
            lemma_sorted_drop_first(r);
            assert forall|i: int| 0 <= i < r.len() implies !same_key(#[trigger] r[i], x) by {
                assert(key_le(r[0], r[i]));
            }
            lemma_key_items_none(r, x);
            assert(key_items(ins, x) =~= key_items(r, x).push(t));
        }
    }
}

proof fn lemma_key_items_push(s: Seq<PreemptiveTask>, t: PreemptiveTask, x: PreemptiveTask)
    ensures
        key_items(s.push(t), x) == if same_key(t, x) {
            key_items(s, x).push(t)
        } else {
            key_items(s, x)
        },
    decreases s.len(),
{
    if s.len() == 0 {
        assert(s.push(t) =~= seq![t]);
        lemma_key_items_single(t, x);
        assert(key_items(s, x) == Seq::<PreemptiveTask>::empty());
        if same_key(t, x) {
            assert(key_items(s, x).push(t) =~= seq![t]);
        }
    } else {
        lemma_key_items_push(s.drop_first(), t, x);
        assert(s.push(t).drop_first() =~= s.drop_first().push(t));
        assert(s.push(t)[0] == s[0]);
        if same_key(s[0], x) && same_key(t, x) {
            assert(key_items(s.push(t), x) =~= key_items(s, x).push(t));
        }
    }
}

/// After spawning `s`, the pending tasks are sorted, and the tasks of each
/// ready tick and priority keep their spawn order.
pub proof fn lemma_spawn_all(s: Seq<PreemptiveTask>)
    ensures
        sorted_by_release(spawn_all(s)),
        forall|x: PreemptiveTask| #[trigger] key_items(spawn_all(s), x) == key_items(s, x),
    decreases s.len(),
{
    if s.len() > 0 {
        let d = s.drop_last();
        lemma_spawn_all(d);
        lemma_insert_sorted_sorted(spawn_all(d), s.last());
        assert forall|x: PreemptiveTask| #[trigger] key_items(spawn_all(s), x) == key_items(s, x) by {
            lemma_key_items_insert(spawn_all(d), s.last(), x);
            lemma_key_items_push(d, s.last(), x);
            assert(d.push(s.last()) =~= s);
        }
    }
}

proof fn lemma_key_items_first(s: Seq<PreemptiveTask>, x: PreemptiveTask)
    requires
        key_items(s, x).len() > 0,
    ensures
        exists|i: int| 0 <= i < s.len() && same_key(#[trigger] s[i], x),
    decreases s.len(),
{
    if !same_key(s[0], x) {
        lemma_key_items_first(s.drop_first(), x);
        let i = choose|i: int| 0 <= i < s.drop_first().len() && same_key(#[trigger] s.drop_first()[i], x);
        assert(s[i + 1] == s.drop_first()[i]);
    }
}

/// Two sorted sequences whose tasks of each ready tick and priority come in
/// the same order are equal.
proof fn lemma_sorted_unique(r1: Seq<PreemptiveTask>, r2: Seq<PreemptiveTask>)
    requires
        sorted_by_release(r1),
        sorted_by_release(r2),
        forall|x: PreemptiveTask| #[trigger] key_items(r1, x) == key_items(r2, x),
    ensures
        r1 == r2,
    decreases r1.len() + r2.len(),
{
    if r1.len() == 0 && r2.len() == 0 {
        assert(r1 =~= r2);
    } else if r1.len() == 0 {
        assert(key_items(r2, r2[0]).len() > 0);
        assert(key_items(r1, r2[0]) == key_items(r2, r2[0]));
    } else if r2.len() == 0 {
        assert(key_items(r1, r1[0]).len() > 0);
        assert(key_items(r1, r1[0]) == key_items(r2, r1[0]));
    } else {
        let a = r1[0];
        let b = r2[0];
        lemma_sorted_drop_first(r1);
        lemma_sorted_drop_first(r2);
        assert(key_items(r1, a) == key_items(r2, a));
        assert(key_items(r1, a).len() > 0);
        lemma_key_items_first(r2, a);
        let c = choose|i: int| 0 <= i < r2.len() && same_key(#[trigger] r2[i], a);
        assert(key_le(b, r2[c]));
        assert(key_items(r1, b) == key_items(r2, b));
        assert(key_items(r2, b).len() > 0);
        lemma_key_items_first(r1, b);
        let e = choose|i: int| 0 <= i < r1.len() && same_key(#[trigger] r1[i], b);
        assert(key_le(a, r1[e]));
        assert(same_key(a, b));
        assert(key_items(r1, a)[0] == a);
        assert(key_items(r2, a)[0] == b);
        let d1 = r1.drop_first();
        let d2 = r2.drop_first();
        assert forall|x: PreemptiveTask| #[trigger] key_items(d1, x) == key_items(d2, x) by {
            assert(key_items(r1, x) == key_items(r2, x));
            if same_key(a, x) {
                assert(key_items(r1, x).drop_first() =~= key_items(d1, x));
                assert(key_items(r2, x).drop_first() =~= key_items(d2, x));
            }
        }
        lemma_sorted_unique(d1, d2);
        assert(r1 =~= seq![a] + d1);
        assert(r2 =~= seq![b] + d2);
    }
}

/// Spawn order law: two spawn orders of the same tasks that keep the tasks
/// of each ready tick and priority in the same relative order leave the same
/// pending tasks, so the scheduler runs them identically.
pub proof fn law_spawn_order_irrelevant(a: Seq<PreemptiveTask>, b: Seq<PreemptiveTask>)
    requires
        forall|x: PreemptiveTask| #[trigger] key_items(a, x) == key_items(b, x),
    ensures
        spawn_all(a) == spawn_all(b),
{
    lemma_spawn_all(a);
    lemma_spawn_all(b);
    assert forall|x: PreemptiveTask| #[trigger] key_items(spawn_all(a), x) == key_items(spawn_all(b), x) by {
        assert(key_items(a, x) == key_items(b, x));
    }
    lemma_sorted_unique(spawn_all(a), spawn_all(b));
}


/// The state from which `run` starts after the tasks `s` were spawned, in
/// order, into a new scheduler.
pub open spec fn spawned_state(s: Seq<PreemptiveTask>) -> SimState {
    SimState {
        pending: spawn_all(s),
        high: Seq::empty(),
        low: Seq::empty(),
        tick: 0,
        events: Seq::empty(),
        completed: Seq::empty(),
    }
}

/// Spawning one more task files it as `spawn` does: a new scheduler holds
/// `spawn_all` of nothing, and after each `spawn(t)` it holds `spawn_all`
/// of the tasks so far followed by `t`.
pub proof fn law_spawn_builds_spawn_all(s: Seq<PreemptiveTask>, t: PreemptiveTask)
    ensures
        spawn_all(Seq::<PreemptiveTask>::empty()) == Seq::<PreemptiveTask>::empty(),
        insert_sorted(spawn_all(s), t) == spawn_all(s.push(t)),
{
    assert(s.push(t).drop_last() =~= s);
}

/// Two spawn orders of the same tasks that keep the tasks of each ready tick
/// and priority in the same relative order make `run` give the same trace:
/// the same dispatch events and the same completion order.
pub proof fn law_spawn_order_same_run(a: Seq<PreemptiveTask>, b: Seq<PreemptiveTask>)
    requires
        forall|x: PreemptiveTask| #[trigger] key_items(a, x) == key_items(b, x),
    ensures
        spawned_state(a) == spawned_state(b),
        run_spec(spawned_state(a)).events == run_spec(spawned_state(b)).events,
        run_spec(spawned_state(a)).completed == run_spec(spawned_state(b)).completed,
{
    law_spawn_order_irrelevant(a, b);
}

} // verus!
