use vstd::prelude::*;

verus! {

/// The dependency map as a sequence of `(task id, dependency ids)` entries,
/// kept in the order in which task ids first appeared.
pub type Entries = Seq<(Seq<char>, Seq<Seq<char>>)>;

/// `k` has an entry in the dependency map.
pub open spec fn is_key(e: Entries, k: Seq<char>) -> bool {
    exists|i: int| 0 <= i < e.len() && (#[trigger] e[i]).0 == k
}

/// Task `t` lists `d` among its dependencies.
pub open spec fn depends(e: Entries, t: Seq<char>, d: Seq<char>) -> bool {
    exists|i: int| 0 <= i < e.len() && (#[trigger] e[i]).0 == t && e[i].1.contains(d)
}

/// Every task id has at most one entry.
pub open spec fn keys_unique(e: Entries) -> bool {
    forall|i: int, j: int| 0 <= i < j < e.len() ==> (#[trigger] e[i]).0 != (#[trigger] e[j]).0
}

/// `u` is a successor of `t`: `u` is a task that lists `t` as a dependency.
pub open spec fn succ(e: Entries, t: Seq<char>, u: Seq<char>) -> bool {
    depends(e, u, t)
}

/// `p` is a closed walk of at least one step along the successor relation.
pub open spec fn is_cycle(e: Entries, p: Seq<Seq<char>>) -> bool {
    &&& p.len() >= 2
    &&& p[0] == p[p.len() - 1]
    &&& forall|i: int| 0 <= i < p.len() - 1 ==> succ(e, #[trigger] p[i], p[i + 1])
}

/// Task id `k` lies on a cycle of the dependency map.
pub open spec fn on_cycle(e: Entries, k: Seq<char>) -> bool {
    exists|p: Seq<Seq<char>>| #[trigger] is_cycle(e, p) && p[0] == k
}

pub open spec fn has_cycle(e: Entries) -> bool {
    exists|k: Seq<char>| #[trigger] on_cycle(e, k)
}

/// The graph handed to the topological sort: a virtual root (`None`) whose
/// successors are all task ids, and the successor relation between task ids.
pub open spec fn edge(e: Entries, a: Option<Seq<char>>, b: Option<Seq<char>>) -> bool {
    match (a, b) {
        (None, Some(k)) => is_key(e, k),
        (Some(t), Some(u)) => succ(e, t, u),
        _ => false,
    }
}

/// A closed walk of at least one step in the graph of `edge`.
pub open spec fn is_node_cycle(e: Entries, p: Seq<Option<Seq<char>>>) -> bool {
    &&& p.len() >= 2
    &&& p[0] == p[p.len() - 1]
    &&& forall|i: int| 0 <= i < p.len() - 1 ==> edge(e, #[trigger] p[i], p[i + 1])
}

pub open spec fn on_node_cycle(e: Entries, n: Option<Seq<char>>) -> bool {
    exists|p: Seq<Option<Seq<char>>>| #[trigger] is_node_cycle(e, p) && p[0] == n
}

/// Entry `j` is picked when listing the successors of `n`: for the root,
/// the entries without dependencies when `sources` holds and the others when
/// it does not; for `Some(t)`, the entries that list `t`.
pub open spec fn selected(e: Entries, n: Option<Seq<char>>, sources: bool, j: int) -> bool {
    match n {
        None => (e[j].1.len() == 0) == sources,
        Some(t) => e[j].1.contains(t),
    }
}

/// `v` holds no node twice, holds the root, and every successor of a node of
/// `v` stands in `v` after it.
pub open spec fn sorted_from_root(e: Entries, v: Seq<Option<Seq<char>>>) -> bool {
    &&& v.no_duplicates()
    &&& v.contains(None)
    &&& forall|i: int, y: Option<Seq<char>>|
        0 <= i < v.len() && #[trigger] edge(e, v[i], y) ==> exists|j: int|
            i < j < v.len() && #[trigger] v[j] == y
}

/// Every task id of `o` stands after all of its dependencies that `o` holds.
pub open spec fn dependency_first(e: Entries, o: Seq<Seq<char>>) -> bool {
    forall|i: int, j: int|
        0 <= i < o.len() && 0 <= j < o.len() && depends(e, #[trigger] o[j], #[trigger] o[i]) ==> i < j
}

/// `pos` maps each index of `small` to an index of `big` holding `Some` of the same id,
/// in increasing order.
pub open spec fn embeds(small: Seq<Seq<char>>, big: Seq<Option<Seq<char>>>, pos: Seq<int>) -> bool {
    &&& pos.len() == small.len()
    &&& forall|k: int| 0 <= k < pos.len() ==> 0 <= #[trigger] pos[k] < big.len() && big[pos[k]] == Some(small[k])
    &&& forall|k: int, l: int| 0 <= k < l < pos.len() ==> #[trigger] pos[k] < #[trigger] pos[l]
}

/// A sorted node sequence has every task id after the root, and so the
/// dependency map it was sorted from has no cycle.
pub proof fn lemma_sorted_is_acyclic(e: Entries, v: Seq<Option<Seq<char>>>)
    requires
        sorted_from_root(e, v),
    ensures
        !has_cycle(e),
        forall|k: Seq<char>| is_key(e, k) ==> #[trigger] v.contains(Some(k)),
{
    assert forall|k: Seq<char>| is_key(e, k) implies #[trigger] v.contains(Some(k)) by {
        let r = choose|r: int| 0 <= r < v.len() && v[r] == None::<Seq<char>>;
        assert(edge(e, v[r], Some(k)));
        let j = choose|j: int| r < j < v.len() && #[trigger] v[j] == Some(k);
    }
    if has_cycle(e) {
        let k = choose|k: Seq<char>| #[trigger] on_cycle(e, k);
        let p = choose|p: Seq<Seq<char>>| #[trigger] is_cycle(e, p) && p[0] == k;
        let n = p.len() - 1;
        assert(succ(e, p[n - 1], p[n]));
        let ie = choose|ie: int| 0 <= ie < e.len() && (#[trigger] e[ie]).0 == p[n] && e[ie].1.contains(p[n - 1]);
        assert(is_key(e, p[0]));
        assert(v.contains(Some(p[0])));
        let m0 = choose|m0: int| 0 <= m0 < v.len() && v[m0] == Some(p[0]);
        lemma_walk_advances(e, v, p, n, m0);
        let m = choose|m: int| m0 < m < v.len() && #[trigger] v[m] == Some(p[n]);
        assert(v[m] == v[m0]);
    }
}

proof fn lemma_walk_advances(e: Entries, v: Seq<Option<Seq<char>>>, p: Seq<Seq<char>>, i: int, m0: int)
    requires
        sorted_from_root(e, v),
        is_cycle(e, p),
        1 <= i < p.len(),
        0 <= m0 < v.len(),
        v[m0] == Some(p[0]),
    ensures
        exists|m: int| m0 < m < v.len() && #[trigger] v[m] == Some(p[i]),
    decreases i,
{
    assert(succ(e, p[i - 1], p[i]));
    if i == 1 {
        assert(edge(e, v[m0], Some(p[1])));
    } else {
        lemma_walk_advances(e, v, p, i - 1, m0);
        let m = choose|m: int| m0 < m < v.len() && #[trigger] v[m] == Some(p[i - 1]);
        assert(edge(e, v[m], Some(p[i])));
        let m2 = choose|j: int| m < j < v.len() && #[trigger] v[j] == Some(p[i]);
    }
}

/// Relies on `pathfinding::directed::topological_sort::topological_sort`,
/// started from the single root `None` with `successors_of` as successor
/// function: on `Ok` the root and each node reached appear once, each before
/// all of its successors (a node is pushed to the front only after all its
/// successors are marked); on `Err(n)`, `n` lies on a cycle (it was met again
/// while still on the path of the search).
#[verifier::external_body]
fn topological_sort_from_root(table: &DepTable) -> (r: Result<Vec<Option<String>>, Option<String>>)
    ensures
        match r {
            Ok(v) => sorted_from_root(table@, v.deep_view()),
            Err(n) => on_node_cycle(table@, n.deep_view()),
        },
{
    pathfinding::directed::topological_sort::topological_sort(&[None], |n: &Option<String>| table.successors_of(n))
}

/// A cycle through a node of the sort's graph is a cycle of task ids.
pub proof fn lemma_node_cycle(e: Entries, n: Option<Seq<char>>)
    requires
        on_node_cycle(e, n),
    ensures
        n is Some,
        on_cycle(e, n->Some_0),
{
    let p = choose|p: Seq<Option<Seq<char>>>| #[trigger] is_node_cycle(e, p) && p[0] == n;
    assert(edge(e, p[p.len() - 2], p[p.len() - 1]));
    assert forall|i: int| 0 <= i < p.len() implies (#[trigger] p[i]) is Some by {
        if i > 0 {
            assert(edge(e, p[i - 1], p[i]));
        }
    }
    let q = Seq::new(p.len(), |i: int| p[i]->Some_0);
    assert forall|i: int| 0 <= i < q.len() - 1 implies succ(e, #[trigger] q[i], q[i + 1]) by {
        assert(edge(e, p[i], p[i + 1]));
        assert(p[i] is Some && p[i + 1] is Some);
    }
    assert(is_cycle(e, q));
}

/// Does `v` contain a string equal to `s`?
pub fn contains_str(v: &Vec<String>, s: &String) -> (r: bool)
    ensures
        r == v.deep_view().contains(s@),
{
    let mut i: usize = 0;
    while i < v.len()
        invariant
            i <= v.len(),
            forall|j: int| 0 <= j < i ==> v.deep_view()[j] != s@,
        decreases v.len() - i,
    {
        if v[i] == *s {
            assert(v.deep_view()[i as int] == s@);
            return true;
        }
        i += 1;
    }
    proof {
        assert forall|x: Seq<char>| v.deep_view().contains(x) implies x != s@ by {
            let j = choose|j: int| 0 <= j < v.deep_view().len() && v.deep_view()[j] == x;
        }
    }
    false
}

/// Clones each string of `v` into a new vector.
pub fn clone_strings(v: &Vec<String>) -> (r: Vec<String>)
    ensures
        r.deep_view() == v.deep_view(),
{
    let mut r: Vec<String> = Vec::new();
    let mut i: usize = 0;
    while i < v.len()
        invariant
            i <= v.len(),
            r.len() == i,
            r.deep_view() == v.deep_view().subrange(0, i as int),
        decreases v.len() - i,
    {
        let ghost prev = r.deep_view();
        r.push(v[i].clone());
        assert(r.deep_view().len() == i + 1);
        assert(r.deep_view()[i as int] == v.deep_view()[i as int]);
        assert(forall|j: int| 0 <= j < i ==> r.deep_view()[j] == prev[j]);
        assert(r.deep_view() =~= v.deep_view().subrange(0, i + 1));
        i += 1;
    }
    assert(v.deep_view().subrange(0, v.len() as int) =~= v.deep_view());
    r
}

/// The dependency map: for each task id, the ids it depends on.
#[derive(Clone, Debug)]
pub struct DepTable {
    entries: Vec<(String, Vec<String>)>,
}

impl View for DepTable {
    type V = Entries;

    closed spec fn view(&self) -> Entries {
        self.entries.deep_view()
    }
}

impl DepTable {
    pub fn new() -> (r: DepTable)
        ensures
            r@ == Seq::<(Seq<char>, Seq<Seq<char>>)>::empty(),
    {
        DepTable { entries: Vec::new() }
    }

    /// The index of the entry of `k`, if it has one.
    pub fn find(&self, k: &String) -> (r: Option<usize>)
        ensures
            match r {
                Some(i) => i < self@.len() && self@[i as int].0 == k@,
                None => !is_key(self@, k@),
            },
    {
        let mut i: usize = 0;
        while i < self.entries.len()
            invariant
                i <= self.entries.len(),
                self@ == self.entries.deep_view(),
                forall|j: int| 0 <= j < i ==> self@[j].0 != k@,
            decreases self.entries.len() - i,
        {
            if self.entries[i].0 == *k {
                return Some(i);
            }
            i += 1;
        }
        None
    }

    /// Gives `k` an empty entry unless it already has one.
    pub fn ensure_key(&mut self, k: &String)
        requires
            keys_unique(old(self)@),
        ensures
            keys_unique(final(self)@),
            is_key(old(self)@, k@) ==> final(self)@ == old(self)@,
            !is_key(old(self)@, k@) ==> final(self)@ == old(self)@.push((k@, Seq::<Seq<char>>::empty())),
    {
        match self.find(k) {
            Some(_) => {},
            None => {
                let empty: Vec<String> = Vec::new();
                assert(empty.deep_view() =~= Seq::<Seq<char>>::empty());
                self.entries.push((k.clone(), empty));
                assert(self@.len() == old(self)@.len() + 1);
                assert(forall|j: int| 0 <= j < old(self)@.len() ==> self@[j] == old(self)@[j]);
                assert(self@[old(self)@.len() as int] == (k@, Seq::<Seq<char>>::empty()));
                assert(self@ =~= old(self)@.push((k@, Seq::<Seq<char>>::empty())));
                assert forall|i: int, j: int| 0 <= i < j < self@.len() implies
                    (#[trigger] self@[i]).0 != (#[trigger] self@[j]).0 by {
                    if j == self@.len() - 1 {
                        assert(old(self)@[i] == self@[i]);
                    }
                }
            },
        }
    }

    /// Appends `d` to the dependencies of `t`, creating the entry of `t` if needed.
    pub fn push_dep(&mut self, t: String, d: String)
        requires
            keys_unique(old(self)@),
        ensures
            keys_unique(final(self)@),
            forall|i: int| 0 <= i < old(self)@.len() && (#[trigger] old(self)@[i]).0 == t@
                ==> final(self)@ == old(self)@.update(i, (t@, old(self)@[i].1.push(d@))),
            !is_key(old(self)@, t@) ==> final(self)@ == old(self)@.push((t@, seq![d@])),
    {
        match self.find(&t) {
            Some(i) => {
                let mut list = clone_strings(&self.entries[i].1);
                list.push(d);
                let ghost lv = list.deep_view();
                self.entries.set(i, (t, list));
                assert(lv =~= old(self)@[i as int].1.push(d@));
                assert(self@.len() == old(self)@.len());
                assert(forall|j: int| 0 <= j < old(self)@.len() && j != i ==> self@[j] == old(self)@[j]);
                assert(self@[i as int] == (t@, lv));
                assert(self@ =~= old(self)@.update(i as int, (t@, old(self)@[i as int].1.push(d@))));
                assert forall|j: int, k: int| 0 <= j < k < self@.len() implies
                    (#[trigger] self@[j]).0 != (#[trigger] self@[k]).0 by {
                    assert(self@[j].0 == old(self)@[j].0);
                    assert(self@[k].0 == old(self)@[k].0);
                }
                assert forall|j: int| 0 <= j < old(self)@.len() && (#[trigger] old(self)@[j]).0 == t@
                    implies j == i by {}
            },
            None => {
                let mut list: Vec<String> = Vec::new();
                list.push(d);
                assert(list.deep_view() =~= seq![d@]);
                self.entries.push((t, list));
                assert(self@.len() == old(self)@.len() + 1);
                assert(forall|j: int| 0 <= j < old(self)@.len() ==> self@[j] == old(self)@[j]);
                assert(self@[old(self)@.len() as int] == (t@, seq![d@]));
                assert(self@ =~= old(self)@.push((t@, seq![d@])));
                assert forall|i: int, j: int| 0 <= i < j < self@.len() implies
                    (#[trigger] self@[i]).0 != (#[trigger] self@[j]).0 by {
                    if j == self@.len() - 1 {
                        assert(old(self)@[i] == self@[i]);
                    }
                }
            },
        }
    }

    /// Appends `Some(k)` for each task id `k` that `selected` picks, in the
    /// map's order.
    fn push_selected(&self, n: &Option<String>, sources: bool, r: &mut Vec<Option<String>>)
        ensures
            forall|y: Option<Seq<char>>| final(r).deep_view().contains(y) <==> (old(r).deep_view().contains(y)
                || exists|j: int| 0 <= j < self@.len() && #[trigger] selected(self@, n.deep_view(), sources, j)
                    && y == Some(self@[j].0)),
    {
        let ghost start = r.deep_view();
        let mut i: usize = 0;
        while i < self.entries.len()
            invariant
                i <= self.entries.len(),
                self@ == self.entries.deep_view(),
                start == old(r).deep_view(),
                forall|y: Option<Seq<char>>| #[trigger] r.deep_view().contains(y) <==> (start.contains(y) || exists|j: int|
                    0 <= j < i && #[trigger] selected(self@, n.deep_view(), sources, j) && y == Some(self@[j].0)),
            decreases self.entries.len() - i,
        {
            assert(self.entries[i as int].1.deep_view() == self@[i as int].1);
            assert(self.entries[i as int].0@ == self@[i as int].0);
            let take = match n {
                None => (self.entries[i].1.len() == 0) == sources,
                Some(t) => contains_str(&self.entries[i].1, t),
            };
            assert(take == selected(self@, n.deep_view(), sources, i as int));
            let ghost prev = r.deep_view();
            if take {
                r.push(Some(self.entries[i].0.clone()));
                assert(r.deep_view() =~= prev.push(Some(self@[i as int].0)));
            }
            assert forall|y: Option<Seq<char>>| r.deep_view().contains(y) <==> (start.contains(y) || exists|j: int|
                0 <= j < i + 1 && #[trigger] selected(self@, n.deep_view(), sources, j) && y == Some(self@[j].0)) by {
                if r.deep_view().contains(y) {
                    let k = choose|k: int| 0 <= k < r.deep_view().len() && r.deep_view()[k] == y;
                    if k < prev.len() {
                        assert(prev[k] == y);
                        assert(prev.contains(y));
                    }
                }
                if exists|j: int| 0 <= j < i + 1 && #[trigger] selected(self@, n.deep_view(), sources, j) && y == Some(self@[j].0) {
                    let j = choose|j: int| 0 <= j < i + 1 && #[trigger] selected(self@, n.deep_view(), sources, j) && y == Some(self@[j].0);
                    if j < i {
                        assert(prev.contains(y));
                        let q = choose|q: int| 0 <= q < prev.len() && prev[q] == y;
                        assert(r.deep_view()[q] == y);
                    } else {
                        assert(r.deep_view()[prev.len() as int] == y);
                    }
                }
                if start.contains(y) {
                    assert(prev.contains(y));
                    let q = choose|q: int| 0 <= q < prev.len() && prev[q] == y;
                    assert(r.deep_view()[q] == y);
                }
            }
            i += 1;
        }
    }

    /// The successors of a node of the sort's graph: for the root, every
    /// task id, those without dependencies first; for `Some(t)`, the tasks
    /// that list `t` as a dependency.
    pub fn successors_of(&self, n: &Option<String>) -> (r: Vec<Option<String>>)
        ensures
            forall|y: Option<Seq<char>>| r.deep_view().contains(y) <==> edge(self@, n.deep_view(), y),
    {
        let mut r: Vec<Option<String>> = Vec::new();
        assert(r.deep_view() =~= Seq::<Option<Seq<char>>>::empty());
        self.push_selected(n, true, &mut r);
        if n.is_none() {
            self.push_selected(n, false, &mut r);
        }
        proof {
            assert forall|y: Option<Seq<char>>| r.deep_view().contains(y) <==> edge(self@, n.deep_view(), y) by {
                if edge(self@, n.deep_view(), y) {
                    match n.deep_view() {
                        None => {
                            let j = choose|j: int| 0 <= j < self@.len() && (#[trigger] self@[j]).0 == y->Some_0;
                            if self@[j].1.len() == 0 {
                                assert(selected(self@, n.deep_view(), true, j));
                            } else {
                                assert(selected(self@, n.deep_view(), false, j));
                            }
                        },
                        Some(t) => {
                            let j = choose|j: int| 0 <= j < self@.len() && (#[trigger] self@[j]).0 == y->Some_0
                                && self@[j].1.contains(t);
                            assert(selected(self@, n.deep_view(), true, j));
                        },
                    }
                }
                if r.deep_view().contains(y) {
                    if exists|j: int| 0 <= j < self@.len() && #[trigger] selected(self@, n.deep_view(), true, j)
                        && y == Some(self@[j].0) {
                        let j = choose|j: int| 0 <= j < self@.len() && #[trigger] selected(self@, n.deep_view(), true, j)
                            && y == Some(self@[j].0);
                        assert(self@[j].0 == y->Some_0);
                    } else {
                        let j = choose|j: int| 0 <= j < self@.len() && #[trigger] selected(self@, n.deep_view(), false, j)
                            && y == Some(self@[j].0);
                        assert(self@[j].0 == y->Some_0);
                    }
                }
            }
        }
        r
    }

    /// Whether every dependency of `t` is in `done`.
    pub fn deps_satisfied(&self, t: &String, done: &Vec<String>) -> (r: bool)
        requires
            keys_unique(self@),
        ensures
            r == (forall|d: Seq<char>| depends(self@, t@, d) ==> done.deep_view().contains(d)),
    {
        match self.find(t) {
            None => true,
            Some(i) => {
                let list = &self.entries[i].1;
                assert(list.deep_view() == self@[i as int].1);
                assert forall|d: Seq<char>| depends(self@, t@, d) implies self@[i as int].1.contains(d) by {
                    let k = choose|k: int| 0 <= k < self@.len() && (#[trigger] self@[k]).0 == t@ && self@[k].1.contains(d);
                    if k != i {
                        if k < i {
                            assert(self@[k].0 != self@[i as int].0);
                        } else {
                            assert(self@[i as int].0 != self@[k].0);
                        }
                    }
                }
                let mut j: usize = 0;
                while j < list.len()
                    invariant
                        j <= list.len(),
                        i < self@.len(),
                        self@[i as int].0 == t@,
                        list.deep_view() == self@[i as int].1,
                        forall|m: int| 0 <= m < j ==> done.deep_view().contains(#[trigger] list.deep_view()[m]),
                    decreases list.len() - j,
                {
                    if !contains_str(done, &list[j]) {
                        assert(self@[i as int].1[j as int] == list.deep_view()[j as int]);
                        assert(self@[i as int].1.contains(list.deep_view()[j as int]));
                        assert(depends(self@, t@, list.deep_view()[j as int]));
                        return false;
                    }
                    j += 1;
                }
                assert forall|d: Seq<char>| depends(self@, t@, d) implies done.deep_view().contains(d) by {
                    assert(self@[i as int].1.contains(d));
                    let m = choose|m: int| 0 <= m < list.deep_view().len() && list.deep_view()[m] == d;
                }
                true
            },
        }
    }

    /// A dependency-first order of all task ids of the map, or a task id on a cycle.
    ///
    /// The sort starts from a virtual root whose successors are the task ids
    /// without dependencies, then all other task ids. Seeding from the tasks
    /// without dependencies first gives them the front of the order; listing
    /// the others as well finds the cycles that no such task leads to (two
    /// tasks that depend on each other and nothing else). A single root keeps
    /// the order a function of the map and its order of declaration.
    pub fn dependency_order(&self) -> (r: Result<Vec<String>, String>)
        ensures
            match r {
                Ok(w) => {
                    &&& !has_cycle(self@)
                    &&& w.deep_view().no_duplicates()
                    &&& forall|k: Seq<char>| is_key(self@, k) ==> #[trigger] w.deep_view().contains(k)
                    &&& dependency_first(self@, w.deep_view())
                },
                Err(k) => on_cycle(self@, k@),
            },
    {
        match topological_sort_from_root(self) {
            Err(n) => {
                proof {
                    lemma_node_cycle(self@, n.deep_view());
                }
                match n {
                    Some(k) => Err(k),
                    None => Err(String::new()),
                }
            },
            Ok(v) => {
                let ghost vv = v.deep_view();
                proof {
                    lemma_sorted_is_acyclic(self@, vv);
                }
                let mut w: Vec<String> = Vec::new();
                let ghost mut pos: Seq<int> = Seq::empty();
                let mut i: usize = 0;
                while i < v.len()
                    invariant
                        i <= v.len(),
                        vv == v.deep_view(),
                        sorted_from_root(self@, vv),
                        embeds(w.deep_view(), vv, pos),
                        forall|k: int| 0 <= k < pos.len() ==> #[trigger] pos[k] < i,
                        forall|m: int| 0 <= m < i && (#[trigger] vv[m]) is Some ==> w.deep_view().contains(vv[m]->Some_0),
                    decreases v.len() - i,
                {
                    match &v[i] {
                        Some(k) => {
                            let ghost prev = w.deep_view();
                            w.push(k.clone());
                            proof {
                                assert(w.deep_view() =~= prev.push(k@));
                                pos = pos.push(i as int);
                                assert forall|m: int| 0 <= m < i + 1 && (#[trigger] vv[m]) is Some
                                    implies w.deep_view().contains(vv[m]->Some_0) by {
                                    if m < i {
                                        assert(prev.contains(vv[m]->Some_0));
                                        let q = choose|q: int| 0 <= q < prev.len() && prev[q] == vv[m]->Some_0;
                                        assert(w.deep_view()[q] == prev[q]);
                                    } else {
                                        assert(w.deep_view()[prev.len() as int] == k@);
                                    }
                                }
                            }
                        },
                        None => {},
                    }
                    i += 1;
                }
                proof {
                    let wv = w.deep_view();
                    assert forall|a: int, b: int| 0 <= a < b < wv.len() implies wv[a] != wv[b] by {
                        assert(pos[a] < pos[b]);
                    }
                    assert forall|k: Seq<char>| is_key(self@, k) implies #[trigger] wv.contains(k) by {
                        assert(vv.contains(Some(k)));
                        let m = choose|m: int| 0 <= m < vv.len() && vv[m] == Some(k);
                        assert(vv[m] is Some);
                    }
                    assert forall|a: int, b: int|
                        0 <= a < wv.len() && 0 <= b < wv.len() && depends(self@, #[trigger] wv[b], #[trigger] wv[a])
                        implies a < b by {
                        assert(edge(self@, vv[pos[a]], Some(wv[b])));
                        let m = choose|m: int| pos[a] < m < vv.len() && #[trigger] vv[m] == Some(wv[b]);
                        assert(vv[m] == vv[pos[b]]);
                        if b <= a {
                            if b < a {
                                assert(pos[b] < pos[a]);
                            }
                        }
                    }
                }
                Ok(w)
            },
        }
    }
}

} // verus!
