use vstd::prelude::*;

use crate::deps::{
    contains_str, dependency_first, depends, has_cycle, is_key, keys_unique, on_cycle, DepTable,
    Entries,
};
use crate::task::{Task, TaskID, TaskView};

verus! {

/// Some task of `ts` has id `id`.
pub open spec fn has_task(ts: Seq<TaskView>, id: Seq<char>) -> bool {
    exists|k: int| 0 <= k < ts.len() && (#[trigger] ts[k]).id == id
}

pub open spec fn task_ids_unique(ts: Seq<TaskView>) -> bool {
    forall|i: int, j: int| 0 <= i < j < ts.len() ==> (#[trigger] ts[i]).id != (#[trigger] ts[j]).id
}

/// Every dependency of `t` is in `done`.
pub open spec fn ready(e: Entries, t: Seq<char>, done: Set<Seq<char>>) -> bool {
    forall|d: Seq<char>| depends(e, t, d) ==> done.contains(d)
}

/// `i` is the position of the first task of `o` whose dependencies are all in `done`.
pub open spec fn first_ready(e: Entries, done: Set<Seq<char>>, o: Seq<Seq<char>>, i: int) -> bool {
    &&& 0 <= i < o.len()
    &&& ready(e, o[i], done)
    &&& forall|j: int| 0 <= j < i ==> !ready(e, #[trigger] o[j], done)
}

pub open spec fn task_views(ts: Seq<Task>) -> Seq<TaskView> {
    ts.map_values(|t: Task| t@)
}

/// Finds the task with id `id`.
fn find_task(tasks: &Vec<Task>, id: &String) -> (r: Option<usize>)
    ensures
        match r {
            Some(k) => k < tasks.len() && tasks@[k as int]@.id == id@,
            None => !has_task(task_views(tasks@), id@),
        },
{
    let mut k: usize = 0;
    while k < tasks.len()
        invariant
            k <= tasks.len(),
            forall|j: int| 0 <= j < k ==> tasks@[j]@.id != id@,
        decreases tasks.len() - k,
    {
        if *tasks[k].id() == *id {
            return Some(k);
        }
        k += 1;
    }
    assert forall|j: int| 0 <= j < task_views(tasks@).len() implies
        (#[trigger] task_views(tasks@)[j]).id != id@ by {
        assert(task_views(tasks@)[j] == tasks@[j]@);
    }
    None
}

/// Accumulates tasks and dependency declarations, then builds a [`TaskGraph`].
#[derive(Clone)]
pub struct TaskGraphBuilder {
    tasks: Vec<Task>,
    edges: DepTable,
}

impl TaskGraphBuilder {
    /// The registered tasks.
    pub closed spec fn tasks(&self) -> Seq<TaskView> {
        task_views(self.tasks@)
    }

    /// The dependency map.
    pub closed spec fn deps(&self) -> Entries {
        self.edges@
    }

    pub closed spec fn wf(&self) -> bool {
        &&& keys_unique(self.edges@)
        &&& task_ids_unique(self.tasks())
        &&& forall|k: int| 0 <= k < self.tasks().len() ==> is_key(self.edges@, #[trigger] self.tasks()[k].id)
    }

    pub fn new() -> (r: TaskGraphBuilder)
        ensures
            r.wf(),
            r.tasks() == Seq::<TaskView>::empty(),
            r.deps() == Seq::<(Seq<char>, Seq<Seq<char>>)>::empty(),
    {
        let r = TaskGraphBuilder { tasks: Vec::new(), edges: DepTable::new() };
        assert(r.tasks() =~= Seq::<TaskView>::empty());
        r
    }

    /// Registers `task` under its id, replacing a task of the same id, and
    /// gives the id an empty dependency entry unless it has one.
    pub fn add_task(&mut self, task: Task)
        requires
            old(self).wf(),
        ensures
            final(self).wf(),
            is_key(old(self).deps(), task@.id) ==> final(self).deps() == old(self).deps(),
            !is_key(old(self).deps(), task@.id) ==> final(self).deps() == old(self).deps().push(
                (task@.id, Seq::<Seq<char>>::empty()),
            ),
            forall|k: int| 0 <= k < old(self).tasks().len() && (#[trigger] old(self).tasks()[k]).id == task@.id
                ==> final(self).tasks() == old(self).tasks().update(k, task@),
            !has_task(old(self).tasks(), task@.id) ==> final(self).tasks() == old(self).tasks().push(task@),
    {
        self.edges.ensure_key(task.id());
        let ghost t = task@;
        let ghost e = self.edges@;
        assert forall|k: int| 0 <= k < old(self).tasks().len() implies is_key(e, #[trigger] old(self).tasks()[k].id) by {
            let j = choose|j: int| 0 <= j < old(self).edges@.len() && (#[trigger] old(self).edges@[j]).0 == old(self).tasks()[k].id;
            if !is_key(old(self).edges@, t.id) {
                assert(e[j] == old(self).edges@[j]);
            }
        }
        assert(is_key(e, t.id)) by {
            if is_key(old(self).edges@, t.id) {
            } else {
                assert(e[e.len() - 1].0 == t.id);
            }
        }
        match find_task(&self.tasks, task.id()) {
            Some(k) => {
                assert(old(self).tasks()[k as int].id == t.id);
                self.tasks.set(k, task);
                assert(self.tasks() =~= old(self).tasks().update(k as int, t));
                assert forall|j: int| 0 <= j < old(self).tasks().len() && (#[trigger] old(self).tasks()[j]).id == t.id
                    implies j == k by {}
            },
            None => {
                self.tasks.push(task);
                assert(self.tasks() =~= old(self).tasks().push(t));
            },
        }
        assert forall|k: int| 0 <= k < self.tasks().len() implies is_key(e, #[trigger] self.tasks()[k].id) by {
            if k < old(self).tasks().len() && self.tasks()[k] == old(self).tasks()[k] {
            }
        }
    }

    /// Appends `dependency` to the dependencies of `task`. Neither id has to
    /// be registered.
    pub fn add_dependency(&mut self, task: TaskID, dependency: TaskID)
        requires
            old(self).wf(),
        ensures
            final(self).wf(),
            final(self).tasks() == old(self).tasks(),
            forall|i: int| 0 <= i < old(self).deps().len() && (#[trigger] old(self).deps()[i]).0 == task@
                ==> final(self).deps() == old(self).deps().update(i, (task@, old(self).deps()[i].1.push(dependency@))),
            !is_key(old(self).deps(), task@) ==> final(self).deps() == old(self).deps().push((task@, seq![dependency@])),
    {
        let ghost t = task@;
        self.edges.push_dep(task, dependency);
        let ghost e = self.edges@;
        assert forall|k: int| 0 <= k < self.tasks().len() implies is_key(e, #[trigger] self.tasks()[k].id) by {
            let id = self.tasks()[k].id;
            assert(is_key(old(self).edges@, id));
            let j = choose|j: int| 0 <= j < old(self).edges@.len() && (#[trigger] old(self).edges@[j]).0 == id;
            if is_key(old(self).edges@, t) {
                let i = choose|i: int| 0 <= i < old(self).edges@.len() && (#[trigger] old(self).edges@[i]).0 == t;
                assert(e[j].0 == id);
            } else {
                assert(e[j] == old(self).edges@[j]);
            }
        }
    }

    /// Checks that the dependency map has no cycle and fixes a
    /// dependency-first order of the registered tasks; fails with a task id
    /// that lies on a cycle.
    pub fn build(self) -> (r: Result<TaskGraph, TaskID>)
        requires
            self.wf(),
        ensures
            match r {
                Ok(g) => {
                    &&& g.wf()
                    &&& !has_cycle(self.deps())
                    &&& g.deps() == self.deps()
                    &&& g.tasks() == self.tasks()
                    &&& g.done_set() == Set::<Seq<char>>::empty()
                    &&& g.order().no_duplicates()
                    &&& forall|k: Seq<char>| #[trigger] g.order().contains(k) <==> has_task(self.tasks(), k)
                    &&& dependency_first(self.deps(), g.order())
                },
                Err(k) => on_cycle(self.deps(), k@),
            },
    {
        let w = match self.edges.dependency_order() {
            Err(k) => {
                return Err(k);
            },
            Ok(w) => w,
        };
        let ghost e = self.edges@;
        let ghost wv = w.deep_view();
        let mut order: Vec<String> = Vec::new();
        let ghost mut pos: Seq<int> = Seq::empty();
        let mut i: usize = 0;
        while i < w.len()
            invariant
                i <= w.len(),
                wv == w.deep_view(),
                wv.no_duplicates(),
                dependency_first(e, wv),
                pos.len() == order.deep_view().len(),
                forall|k: int| 0 <= k < pos.len() ==> 0 <= #[trigger] pos[k] < i && wv[pos[k]] == order.deep_view()[k],
                forall|k: int, l: int| 0 <= k < l < pos.len() ==> #[trigger] pos[k] < #[trigger] pos[l],
                forall|m: int| 0 <= m < i && has_task(self.tasks(), #[trigger] wv[m]) ==> order.deep_view().contains(wv[m]),
                forall|k: int| 0 <= k < order.deep_view().len() ==> has_task(self.tasks(), #[trigger] order.deep_view()[k]),
            decreases w.len() - i,
        {
            let ghost prev = order.deep_view();
            assert(w[i as int]@ == wv[i as int]);
            match find_task(&self.tasks, &w[i]) {
                Some(k) => {
                    order.push(w[i].clone());
                    proof {
                        assert(order.deep_view() =~= prev.push(wv[i as int]));
                        pos = pos.push(i as int);
                        assert(self.tasks()[k as int].id == wv[i as int]);
                        assert forall|m: int| 0 <= m < i + 1 && has_task(self.tasks(), #[trigger] wv[m])
                            implies order.deep_view().contains(wv[m]) by {
                            if m < i {
                                let q = choose|q: int| 0 <= q < prev.len() && prev[q] == wv[m];
                                assert(order.deep_view()[q] == wv[m]);
                            } else {
                                assert(order.deep_view()[prev.len() as int] == wv[m]);
                            }
                        }
                    }
                },
                None => {},
            }
            i += 1;
        }
        let ghost ov = order.deep_view();
        proof {
            assert forall|a: int, b: int| 0 <= a < b < ov.len() implies ov[a] != ov[b] by {
                assert(pos[a] < pos[b]);
            }
            assert(ov.no_duplicates());
            assert forall|k: Seq<char>| #[trigger] ov.contains(k) <==> has_task(self.tasks(), k) by {
                if has_task(self.tasks(), k) {
                    let j = choose|j: int| 0 <= j < self.tasks().len() && (#[trigger] self.tasks()[j]).id == k;
                    assert(is_key(e, self.tasks()[j].id));
                    assert(wv.contains(k));
                    let m = choose|m: int| 0 <= m < wv.len() && wv[m] == k;
                }
                if ov.contains(k) {
                    let q = choose|q: int| 0 <= q < ov.len() && ov[q] == k;
                }
            }
            assert forall|a: int, b: int|
                0 <= a < ov.len() && 0 <= b < ov.len() && depends(e, #[trigger] ov[b], #[trigger] ov[a])
                implies a < b by {
                assert(wv[pos[b]] == ov[b] && wv[pos[a]] == ov[a]);
                assert(pos[a] < pos[b]);
                if b <= a {
                    if b < a {
                        assert(pos[b] < pos[a]);
                    }
                }
            }
        }
        let g = TaskGraph { tasks: self.tasks, edges: self.edges, done: Vec::new(), order };
        assert(g.done_set() =~= Set::<Seq<char>>::empty());
        assert forall|j: int| 0 <= j < ov.len() implies has_task(g.tasks(), #[trigger] ov[j]) by {}
        Ok(g)
    }
}

/// The runtime cursor over a validated task graph: hands out tasks whose
/// dependencies have all been reported done, in a fixed dependency-first order.
#[derive(Debug)]
pub struct TaskGraph {
    tasks: Vec<Task>,
    edges: DepTable,
    done: Vec<String>,
    order: Vec<String>,
}

impl TaskGraph {
    /// The registered tasks.
    pub closed spec fn tasks(&self) -> Seq<TaskView> {
        task_views(self.tasks@)
    }

    /// The dependency map.
    pub closed spec fn deps(&self) -> Entries {
        self.edges@
    }

    /// The ids reported done.
    pub closed spec fn done_set(&self) -> Set<Seq<char>> {
        Set::new(|d: Seq<char>| self.done.deep_view().contains(d))
    }

    /// The working order: the ids not yet handed out, in dependency-first order.
    pub closed spec fn order(&self) -> Seq<Seq<char>> {
        self.order.deep_view()
    }

    pub closed spec fn wf(&self) -> bool {
        &&& keys_unique(self.edges@)
        &&& task_ids_unique(self.tasks())
        &&& self.order().no_duplicates()
        &&& forall|j: int| 0 <= j < self.order().len() ==> has_task(self.tasks(), #[trigger] self.order()[j])
    }

    /// Records `task_id` as done. Any id is accepted, and recording one twice
    /// changes nothing.
    pub fn done(&mut self, task_id: &TaskID)
        requires
            old(self).wf(),
        ensures
            final(self).wf(),
            final(self).done_set() == old(self).done_set().insert(task_id@),
            final(self).order() == old(self).order(),
            final(self).deps() == old(self).deps(),
            final(self).tasks() == old(self).tasks(),
    {
        if !contains_str(&self.done, task_id) {
            let ghost prev = self.done.deep_view();
            self.done.push(task_id.clone());
            assert(self.done.deep_view() =~= prev.push(task_id@));
            assert(self.done.deep_view()[prev.len() as int] == task_id@);
        }
        assert(self.done.deep_view().contains(task_id@));
        assert forall|d: Seq<char>| self.done_set().contains(d) == old(self).done_set().insert(task_id@).contains(d) by {
            if d != task_id@ && self.done.deep_view().contains(d) {
                let q = choose|q: int| 0 <= q < self.done.deep_view().len() && self.done.deep_view()[q] == d;
                if q < old(self).done.deep_view().len() {
                    assert(old(self).done.deep_view()[q] == d);
                }
            }
            if old(self).done.deep_view().contains(d) {
                let q = choose|q: int| 0 <= q < old(self).done.deep_view().len() && old(self).done.deep_view()[q] == d;
                assert(self.done.deep_view()[q] == d);
            }
        }
        assert(self.done_set() =~= old(self).done_set().insert(task_id@));
    }

    /// The number of tasks not yet handed out.
    pub fn remaining(&self) -> (r: usize)
        ensures
            r == self.order().len(),
    {
        self.order.len()
    }

    /// Polls for a task: `None` once the working order is empty; `Some(None)`
    /// while no remaining task has all its dependencies done; otherwise
    /// `Some(Some(task))` for the first such task of the working order, which
    /// is taken out of the order.
    pub fn next(&mut self) -> (r: Option<Option<Task>>)
        requires
            old(self).wf(),
        ensures
            final(self).wf(),
            final(self).deps() == old(self).deps(),
            final(self).tasks() == old(self).tasks(),
            final(self).done_set() == old(self).done_set(),
            match r {
                None => old(self).order().len() == 0 && final(self).order() == old(self).order(),
                Some(None) => {
                    &&& old(self).order().len() > 0
                    &&& forall|i: int| 0 <= i < old(self).order().len()
                        ==> !ready(old(self).deps(), #[trigger] old(self).order()[i], old(self).done_set())
                    &&& final(self).order() == old(self).order()
                },
                Some(Some(t)) => exists|i: int| {
                    &&& first_ready(old(self).deps(), old(self).done_set(), old(self).order(), i)
                    &&& t@.id == old(self).order()[i]
                    &&& old(self).tasks().contains(t@)
                    &&& #[trigger] final(self).order() == old(self).order().remove(i)
                },
            },
    {
        if self.order.len() == 0 {
            return None;
        }
        let ghost e = self.edges@;
        let ghost ds = self.done_set();
        let mut i: usize = 0;
        while i < self.order.len()
            invariant
                i <= self.order.len(),
                self.wf(),
                e == self.edges@,
                ds == self.done_set(),
                self.tasks() == old(self).tasks(),
                self.order() == old(self).order(),
                self.done_set() == old(self).done_set(),
                self.edges@ == old(self).edges@,
                forall|j: int| 0 <= j < i ==> !ready(e, #[trigger] self.order()[j], ds),
            decreases self.order.len() - i,
        {
            assert(self.order[i as int]@ == self.order()[i as int]);
            let ok = self.edges.deps_satisfied(&self.order[i], &self.done);
            assert(forall|d: Seq<char>| ds.contains(d) == self.done.deep_view().contains(d));
            proof {
                if ok {
                    assert forall|d: Seq<char>| depends(e, self.order()[i as int], d) implies ds.contains(d) by {
                        assert(self.done.deep_view().contains(d));
                    }
                } else {
                    let d = choose|d: Seq<char>| depends(e, self.order()[i as int], d) && !self.done.deep_view().contains(d);
                    assert(!ds.contains(d));
                }
            }
            assert(ok == ready(e, self.order()[i as int], ds));
            if ok {
                let k = match find_task(&self.tasks, &self.order[i]) {
                    Some(k) => k,
                    None => {
                        // never taken: every id of the order has a task
                        proof {
                            assert(has_task(self.tasks(), self.order()[i as int]));
                        }
                        return Some(None);
                    },
                };
                let t = self.tasks[k].duplicate();
                let ghost o = self.order();
                self.order.remove(i);
                proof {
                    assert(self.order() =~= o.remove(i as int));
                    assert(self.tasks()[k as int] == t@);
                    assert forall|a: int, b: int| 0 <= a < b < self.order().len() implies
                        self.order()[a] != self.order()[b] by {
                        if a >= i {
                            assert(self.order()[a] == o[a + 1]);
                        } else {
                            assert(self.order()[a] == o[a]);
                        }
                        if b >= i {
                            assert(self.order()[b] == o[b + 1]);
                        } else {
                            assert(self.order()[b] == o[b]);
                        }
                    }
                    assert forall|j: int| 0 <= j < self.order().len() implies has_task(self.tasks(), #[trigger] self.order()[j]) by {
                        if j >= i {
                            assert(self.order()[j] == o[j + 1]);
                        } else {
                            assert(self.order()[j] == o[j]);
                        }
                    }
                    assert(first_ready(e, ds, o, i as int));
                    assert(self.order() == o.remove(i as int));
                }
                return Some(Some(t));
            }
            i += 1;
        }
        Some(None)
    }
}

} // verus!
