use vstd::prelude::*;

use crate::deps::{dependency_first, depends, Entries};
use crate::graph::{first_ready, has_task, ready};
use crate::task::TaskView;

verus! {

/// Every dependency of a task still in the working order `o` is either in
/// `o` as well or already reported done.
pub open spec fn deps_accounted(e: Entries, o: Seq<Seq<char>>, done: Set<Seq<char>>) -> bool {
    forall|i: int, d: Seq<char>|
        0 <= i < o.len() && #[trigger] depends(e, o[i], d) ==> o.contains(d) || done.contains(d)
}

/// Progress: when the working order is dependency-first and every dependency
/// of a task in it is either still in it or done, the front task is the
/// first ready one, so a poll hands out a task rather than reporting that
/// none is ready.
pub proof fn lemma_front_ready(e: Entries, o: Seq<Seq<char>>, done: Set<Seq<char>>)
    requires
        o.len() > 0,
        dependency_first(e, o),
        deps_accounted(e, o, done),
    ensures
        first_ready(e, done, o, 0),
{
    assert forall|d: Seq<char>| depends(e, o[0], d) implies done.contains(d) by {
        if o.contains(d) {
            let j = choose|j: int| 0 <= j < o.len() && o[j] == d;
            assert(depends(e, o[0], o[j]));
        }
    }
}

/// Counting: a poll that hands out the task at position `i` leaves a
/// working order one shorter, so `remaining` drops by exactly one per task
/// handed out; `done` leaves the working order as it is.
pub proof fn lemma_dispatch_shrinks_by_one(o: Seq<Seq<char>>, i: int)
    requires
        0 <= i < o.len(),
    ensures
        o.remove(i).len() == o.len() - 1,
{
}

/// Liveness: take a working order as `build` fixes it, from a declaration in
/// which every dependency of a registered task is a registered task. An
/// executor that reports each task done once it has it finds, after the
/// first `k` tasks of the order are done, that the `k`-th is the first ready
/// task of what remains. Each poll thus hands out the next task, every task
/// comes out exactly once, and the emptied order then reports exhaustion.
pub proof fn lemma_serial_run(e: Entries, tasks: Seq<TaskView>, o: Seq<Seq<char>>)
    requires
        o.no_duplicates(),
        forall|k: Seq<char>| #[trigger] o.contains(k) <==> has_task(tasks, k),
        dependency_first(e, o),
        forall|t: Seq<char>, d: Seq<char>| has_task(tasks, t) && #[trigger] depends(e, t, d) ==> has_task(tasks, d),
    ensures
        forall|k: int| 0 <= k < o.len() ==> #[trigger] first_ready(
            e,
            o.subrange(0, k).to_set(),
            o.subrange(k, o.len() as int),
            0,
        ),
{
    assert forall|k: int| 0 <= k < o.len() implies #[trigger] first_ready(
        e,
        o.subrange(0, k).to_set(),
        o.subrange(k, o.len() as int),
        0,
    ) by {
        let rest = o.subrange(k, o.len() as int);
        let done = o.subrange(0, k).to_set();
        assert(rest[0] == o[k]);
        assert forall|d: Seq<char>| depends(e, rest[0], d) implies done.contains(d) by {
            assert(o.contains(o[k]));
            assert(has_task(tasks, o[k]));
            assert(has_task(tasks, d));
            assert(o.contains(d));
            let j = choose|j: int| 0 <= j < o.len() && o[j] == d;
            assert(depends(e, o[k], o[j]));
            assert(o.subrange(0, k)[j] == d);
            assert(o.subrange(0, k).contains(d));
        }
        assert(ready(e, rest[0], done));
    }
}

} // verus!
