use vstd::prelude::*;

use crate::deps::contains_str;

verus! {

/// The ways a project of a workspace can fail validation.
#[derive(Debug, Clone, PartialEq)]
pub enum ValidateProjectsError {
    /// The project (first field) lacks a required target (second field).
    MissingTargets(String, String),
    /// The project (first field) uses tags that the workspace does not know.
    UnknownTags(String, Vec<String>),
    /// The description of the project could not be read.
    ProjectSerialization(String),
    /// The description of the workspace could not be read.
    WorkspaceSerialization,
}

pub enum ValidationErrorView {
    MissingTargets(Seq<char>, Seq<char>),
    UnknownTags(Seq<char>, Seq<Seq<char>>),
    ProjectSerialization(Seq<char>),
    WorkspaceSerialization,
}

impl View for ValidateProjectsError {
    type V = ValidationErrorView;

    open spec fn view(&self) -> ValidationErrorView {
        match self {
            ValidateProjectsError::MissingTargets(p, t) => ValidationErrorView::MissingTargets(p@, t@),
            ValidateProjectsError::UnknownTags(p, ts) => ValidationErrorView::UnknownTags(p@, ts.deep_view()),
            ValidateProjectsError::ProjectSerialization(p) => ValidationErrorView::ProjectSerialization(p@),
            ValidateProjectsError::WorkspaceSerialization => ValidationErrorView::WorkspaceSerialization,
        }
    }
}

pub open spec fn error_views(es: Seq<ValidateProjectsError>) -> Seq<ValidationErrorView> {
    es.map_values(|e: ValidateProjectsError| e@)
}

/// The elements of `s` that `known` lacks, in their order.
pub open spec fn not_in(s: Seq<Seq<char>>, known: Seq<Seq<char>>) -> Seq<Seq<char>>
    decreases s.len(),
{
    if s.len() == 0 {
        Seq::empty()
    } else if known.contains(s.last()) {
        not_in(s.drop_last(), known)
    } else {
        not_in(s.drop_last(), known).push(s.last())
    }
}

/// The errors of one project: a missing-target error for each required
/// target it lacks, in the workspace's order, then one error listing its
/// unknown tags, affecting tags first, if it has any.
pub open spec fn project_errors(
    name: Seq<char>,
    required: Seq<Seq<char>>,
    targets: Seq<Seq<char>>,
    known: Seq<Seq<char>>,
    affects: Seq<Seq<char>>,
    affected_by: Seq<Seq<char>>,
) -> Seq<ValidationErrorView> {
    let missing = not_in(required, targets).map_values(
        |t: Seq<char>| ValidationErrorView::MissingTargets(name, t),
    );
    let unknown = not_in(affects, known) + not_in(affected_by, known);
    if unknown.len() == 0 {
        missing
    } else {
        missing.push(ValidationErrorView::UnknownTags(name, unknown))
    }
}

/// Collects into `out` the elements of `s` that `known` lacks.
fn push_not_in(s: &Vec<String>, known: &Vec<String>, out: &mut Vec<String>)
    ensures
        final(out).deep_view() == old(out).deep_view() + not_in(s.deep_view(), known.deep_view()),
{
    let ghost start = out.deep_view();
    let mut i: usize = 0;
    while i < s.len()
        invariant
            i <= s.len(),
            out.deep_view() == start + not_in(s.deep_view().subrange(0, i as int), known.deep_view()),
        decreases s.len() - i,
    {
        let ghost prefix = s.deep_view().subrange(0, i as int);
        assert(s.deep_view().subrange(0, i + 1).drop_last() =~= prefix);
        assert(s.deep_view().subrange(0, i + 1).last() == s[i as int]@);
        if !contains_str(known, &s[i]) {
            let ghost prev = out.deep_view();
            out.push(s[i].clone());
            assert(out.deep_view() =~= prev.push(s[i as int]@));
            assert(out.deep_view() =~= start + not_in(s.deep_view().subrange(0, i + 1), known.deep_view()));
        }
        i += 1;
    }
    assert(s.deep_view().subrange(0, s.len() as int) =~= s.deep_view());
}

/// A target of a project. It carries no settings of its own.
#[derive(Debug, Clone, PartialEq)]
pub struct Target {}

/// The description of one project of a workspace.
#[derive(Debug, Clone, PartialEq)]
pub struct Project {
    name: String,
    version: Option<String>,
    description: String,
    owners: Vec<String>,
    affects_tags: Vec<String>,
    affected_by_tags: Vec<String>,
    targets: Vec<String>,
}

impl Project {
    /// A project; `targets` holds the names of its targets.
    pub fn new(
        name: String,
        version: Option<String>,
        description: String,
        owners: Vec<String>,
        affects_tags: Vec<String>,
        affected_by_tags: Vec<String>,
        targets: Vec<String>,
    ) -> (r: Project)
        ensures
            r.name_view() == name@,
            r.affects_view() == affects_tags.deep_view(),
            r.affected_by_view() == affected_by_tags.deep_view(),
            r.targets_view() == targets.deep_view(),
    {
        Project { name, version, description, owners, affects_tags, affected_by_tags, targets }
    }

    pub closed spec fn name_view(&self) -> Seq<char> {
        self.name@
    }

    /// The tags through which this project affects others.
    pub closed spec fn affects_view(&self) -> Seq<Seq<char>> {
        self.affects_tags.deep_view()
    }

    /// The tags through which others affect this project.
    pub closed spec fn affected_by_view(&self) -> Seq<Seq<char>> {
        self.affected_by_tags.deep_view()
    }

    /// The names of the project's targets.
    pub closed spec fn targets_view(&self) -> Seq<Seq<char>> {
        self.targets.deep_view()
    }

    pub fn name(&self) -> &String {
        &self.name
    }

    pub fn version(&self) -> &Option<String> {
        &self.version
    }

    pub fn description(&self) -> &String {
        &self.description
    }

    pub fn owners(&self) -> &Vec<String> {
        &self.owners
    }

    pub fn affects_tags(&self) -> (r: &Vec<String>)
        ensures
            r.deep_view() == self.affects_view(),
    {
        &self.affects_tags
    }

    pub fn affected_by_tags(&self) -> (r: &Vec<String>)
        ensures
            r.deep_view() == self.affected_by_view(),
    {
        &self.affected_by_tags
    }

    pub fn targets(&self) -> &Vec<String> {
        &self.targets
    }
}

/// The description of a workspace: its projects, by name and path, and the
/// policy its projects are held to.
#[derive(Debug, Clone, PartialEq)]
pub struct Workspace {
    name: String,
    app_version: String,
    projects: Vec<(String, String)>,
    tags: Vec<String>,
    maintainers: Vec<String>,
    repository: String,
    required_targets: Vec<String>,
}

impl Workspace {
    pub fn new(
        name: String,
        app_version: String,
        projects: Vec<(String, String)>,
        tags: Vec<String>,
        maintainers: Vec<String>,
        repository: String,
        required_targets: Vec<String>,
    ) -> (r: Workspace)
        ensures
            r.tags_view() == tags.deep_view(),
            r.required_targets_view() == required_targets.deep_view(),
    {
        Workspace { name, app_version, projects, tags, maintainers, repository, required_targets }
    }

    /// The tags the workspace knows.
    pub closed spec fn tags_view(&self) -> Seq<Seq<char>> {
        self.tags.deep_view()
    }

    /// The targets every project must have.
    pub closed spec fn required_targets_view(&self) -> Seq<Seq<char>> {
        self.required_targets.deep_view()
    }

    pub fn name(&self) -> &String {
        &self.name
    }

    pub fn app_version(&self) -> &String {
        &self.app_version
    }

    /// The projects, as `(name, path of its description)`.
    pub fn projects(&self) -> &Vec<(String, String)> {
        &self.projects
    }

    pub fn tags(&self) -> &Vec<String> {
        &self.tags
    }

    pub fn maintainers(&self) -> &Vec<String> {
        &self.maintainers
    }

    pub fn repository(&self) -> &String {
        &self.repository
    }

    pub fn required_targets(&self) -> &Vec<String> {
        &self.required_targets
    }

    /// Holds the project `proj`, registered under `name`, to the workspace's
    /// policy: it must have every required target and use only known tags.
    pub fn check_project(&self, name: &String, proj: &Project) -> (r: Vec<ValidateProjectsError>)
        ensures
            error_views(r@) == project_errors(
                name@,
                self.required_targets_view(),
                proj.targets_view(),
                self.tags_view(),
                proj.affects_view(),
                proj.affected_by_view(),
            ),
    {
        let mut missing: Vec<String> = Vec::new();
        push_not_in(&self.required_targets, &proj.targets, &mut missing);
        let ghost mv = missing.deep_view();
        let mut errors: Vec<ValidateProjectsError> = Vec::new();
        let mut i: usize = 0;
        while i < missing.len()
            invariant
                i <= missing.len(),
                mv == missing.deep_view(),
                error_views(errors@) == mv.subrange(0, i as int).map_values(
                    |t: Seq<char>| ValidationErrorView::MissingTargets(name@, t),
                ),
            decreases missing.len() - i,
        {
            let ghost prev = errors@;
            errors.push(ValidateProjectsError::MissingTargets(name.clone(), missing[i].clone()));
            assert(error_views(errors@) =~= error_views(prev).push(
                ValidationErrorView::MissingTargets(name@, mv[i as int]),
            ));
            assert(mv.subrange(0, i + 1).map_values(|t: Seq<char>| ValidationErrorView::MissingTargets(name@, t))
                =~= mv.subrange(0, i as int).map_values(|t: Seq<char>| ValidationErrorView::MissingTargets(name@, t)).push(
                ValidationErrorView::MissingTargets(name@, mv[i as int]),
            ));
            i += 1;
        }
        assert(mv.subrange(0, mv.len() as int) =~= mv);
        let mut unknown: Vec<String> = Vec::new();
        assert(unknown.deep_view() =~= Seq::<Seq<char>>::empty());
        push_not_in(&proj.affects_tags, &self.tags, &mut unknown);
        push_not_in(&proj.affected_by_tags, &self.tags, &mut unknown);
        assert(unknown.deep_view() =~= not_in(proj.affects_view(), self.tags_view()) + not_in(
            proj.affected_by_view(),
            self.tags_view(),
        ));
        if unknown.len() > 0 {
            let ghost prev = errors@;
            let ghost uv = unknown.deep_view();
            errors.push(ValidateProjectsError::UnknownTags(name.clone(), unknown));
            assert(error_views(errors@) =~= error_views(prev).push(ValidationErrorView::UnknownTags(name@, uv)));
        }
        errors
    }
}

/// Some tag is in both `a` and `b`.
pub open spec fn shares(a: Seq<Seq<char>>, b: Seq<Seq<char>>) -> bool {
    exists|x: Seq<char>| a.contains(x) && #[trigger] b.contains(x)
}

/// Project `i` affects project `j`: a tag that `i` affects is one that `j`
/// is affected by.
pub open spec fn affects(ps: Seq<(String, Project)>, i: int, j: int) -> bool {
    shares(ps[i].1.affects_view(), ps[j].1.affected_by_view())
}

/// `p` is a walk of at least one step from `s` to `j` along `affects`.
pub open spec fn is_walk(ps: Seq<(String, Project)>, p: Seq<int>, s: int, j: int) -> bool {
    &&& p.len() >= 2
    &&& p[0] == s
    &&& p[p.len() - 1] == j
    &&& forall|m: int| 0 <= m < p.len() ==> 0 <= #[trigger] p[m] < ps.len()
    &&& forall|m: int| 0 <= m < p.len() - 1 ==> affects(ps, #[trigger] p[m], p[m + 1])
}

/// Project `j` is affected by project `s`, directly or through others.
pub open spec fn affected(ps: Seq<(String, Project)>, s: int, j: int) -> bool {
    exists|p: Seq<int>| #[trigger] is_walk(ps, p, s, j)
}

/// Whether some element of `a` is in `b`.
fn shares_tag(a: &Vec<String>, b: &Vec<String>) -> (r: bool)
    ensures
        r == shares(a.deep_view(), b.deep_view()),
{
    let mut i: usize = 0;
    while i < a.len()
        invariant
            i <= a.len(),
            forall|m: int| 0 <= m < i ==> !b.deep_view().contains(#[trigger] a.deep_view()[m]),
        decreases a.len() - i,
    {
        if contains_str(b, &a[i]) {
            assert(a.deep_view().contains(a[i as int]@)) by {
                assert(a.deep_view()[i as int] == a[i as int]@);
            }
            return true;
        }
        i += 1;
    }
    assert forall|x: Seq<char>| a.deep_view().contains(x) implies !(#[trigger] b.deep_view().contains(x)) by {
        let m = choose|m: int| 0 <= m < a.deep_view().len() && a.deep_view()[m] == x;
    }
    false
}

proof fn lemma_walk_extends(ps: Seq<(String, Project)>, s: int, i: int, j: int)
    requires
        affected(ps, s, i),
        0 <= j < ps.len(),
        affects(ps, i, j),
    ensures
        affected(ps, s, j),
{
    let p = choose|p: Seq<int>| #[trigger] is_walk(ps, p, s, i);
    let q = p.push(j);
    assert(forall|m: int| 0 <= m < p.len() ==> q[m] == p[m]);
    assert(is_walk(ps, q, s, j));
}

/// Every project on a walk from `s` is marked, when all projects `s`
/// affects are marked and every marked project's affected ones are marked.
proof fn lemma_closed_covers(ps: Seq<(String, Project)>, seen: Seq<bool>, s: int, p: Seq<int>, j: int, m: int)
    requires
        seen.len() == ps.len(),
        is_walk(ps, p, s, j),
        1 <= m < p.len(),
        forall|k: int| 0 <= k < ps.len() && affects(ps, s, k) ==> seen[k],
        forall|a: int, b: int| 0 <= a < ps.len() && 0 <= b < ps.len() && seen[a] && affects(ps, a, b) ==> seen[b],
    ensures
        seen[p[m]],
    decreases m,
{
    assert(affects(ps, p[m - 1], p[m]));
    if m > 1 {
        lemma_closed_covers(ps, seen, s, p, j, m - 1);
    }
}

/// A sequence of distinct indices below `n` has at most `n` elements.
proof fn lemma_distinct_below(f: Seq<usize>, n: int)
    requires
        0 <= n,
        forall|m: int| 0 <= m < f.len() ==> (#[trigger] f[m]) < n,
        forall|a: int, b: int| 0 <= a < b < f.len() ==> (#[trigger] f[a]) != (#[trigger] f[b]),
    ensures
        f.len() <= n,
{
    let g = f.map_values(|x: usize| x as int);
    assert forall|a: int, b: int| 0 <= a < g.len() && 0 <= b < g.len() && a != b implies g[a] != g[b] by {
        if a < b {
            assert(f[a] != f[b]);
        } else {
            assert(f[b] != f[a]);
        }
    }
    g.unique_seq_to_set();
    vstd::set_lib::lemma_int_range(0, n);
    assert(g.to_set().subset_of(vstd::set_lib::set_int_range(0, n)));
    vstd::set_lib::lemma_len_subset(g.to_set(), vstd::set_lib::set_int_range(0, n));
}

/// The bookkeeping of the search for affected projects: `found` lists
/// distinct projects, all affected by `start`, and `seen` marks exactly them.
pub open spec fn search_state(ps: Seq<(String, Project)>, start: int, seen: Seq<bool>, found: Seq<usize>) -> bool {
    &&& seen.len() == ps.len()
    &&& forall|m: int| 0 <= m < found.len() ==> (#[trigger] found[m]) < ps.len() && seen[found[m] as int]
    &&& forall|k: int| 0 <= k < ps.len() && #[trigger] seen[k] ==> found.contains(k as usize)
    &&& forall|a: int, b: int| 0 <= a < b < found.len() ==> (#[trigger] found[a]) != (#[trigger] found[b])
    &&& forall|m: int| 0 <= m < found.len() ==> affected(ps, start, #[trigger] found[m] as int)
}

/// Marks and appends every project that `cur` affects and that is not yet marked.
fn expand(projects: &Vec<(String, Project)>, start: usize, cur: usize, seen: &mut Vec<bool>, found: &mut Vec<usize>)
    requires
        start < projects.len(),
        cur < projects.len(),
        cur == start || affected(projects@, start as int, cur as int),
        search_state(projects@, start as int, old(seen)@, old(found)@),
    ensures
        search_state(projects@, start as int, final(seen)@, final(found)@),
        final(found)@.len() >= old(found)@.len(),
        final(found)@.subrange(0, old(found)@.len() as int) == old(found)@,
        forall|k: int| 0 <= k < projects.len() && old(seen)@[k] ==> #[trigger] final(seen)@[k],
        forall|k: int| 0 <= k < projects.len() && affects(projects@, cur as int, k) ==> #[trigger] final(seen)@[k],
{
    let ghost ps = projects@;
    let n = projects.len();
    let mut j: usize = 0;
    while j < n
        invariant
            n == projects.len(),
            ps == projects@,
            j <= n,
            start < n,
            cur < n,
            cur == start || affected(ps, start as int, cur as int),
            search_state(ps, start as int, seen@, found@),
            found@.len() >= old(found)@.len(),
            found@.subrange(0, old(found)@.len() as int) == old(found)@,
            forall|k: int| 0 <= k < n && old(seen)@[k] ==> #[trigger] seen@[k],
            forall|k: int| 0 <= k < j && affects(ps, cur as int, k) ==> #[trigger] seen@[k],
        decreases n - j,
    {
        let hit = shares_tag(projects[cur].1.affects_tags(), projects[j].1.affected_by_tags());
        assert(hit == affects(ps, cur as int, j as int));
        if !seen[j] && hit {
            proof {
                if cur == start {
                    let w = seq![start as int, j as int];
                    assert(is_walk(ps, w, start as int, j as int));
                } else {
                    lemma_walk_extends(ps, start as int, cur as int, j as int);
                }
            }
            let ghost fprev = found@;
            let ghost sprev = seen@;
            seen.set(j, true);
            found.push(j);
            proof {
                assert(found@ == fprev.push(j));
                assert forall|k: int| 0 <= k < n && #[trigger] seen@[k] implies found@.contains(k as usize) by {
                    if k != j {
                        assert(sprev[k]);
                        let q = choose|q: int| 0 <= q < fprev.len() && fprev[q] == k as usize;
                        assert(found@[q] == k as usize);
                    } else {
                        assert(found@[fprev.len() as int] == j);
                    }
                }
                assert forall|a: int, b: int| 0 <= a < b < found@.len() implies (#[trigger] found@[a]) != (#[trigger] found@[b]) by {
                    if b == fprev.len() {
                        assert(sprev[found@[a] as int]);
                    }
                }
                assert(found@.subrange(0, old(found)@.len() as int) =~= fprev.subrange(0, old(found)@.len() as int));
            }
        }
        j += 1;
    }
}

/// The names of the projects that project `start` affects, directly or
/// through other projects, each once, in the order in which they are found.
pub fn affected_util(start: usize, projects: &Vec<(String, Project)>) -> (r: Vec<String>)
    requires
        start < projects.len(),
    ensures
        forall|n: Seq<char>| #[trigger] r.deep_view().contains(n) <==> exists|j: int|
            0 <= j < projects.len() && (#[trigger] projects@[j]).0@ == n && affected(projects@, start as int, j),
{
    let ghost ps = projects@;
    let n = projects.len();
    let mut seen: Vec<bool> = Vec::new();
    let mut i: usize = 0;
    while i < n
        invariant
            i <= n,
            n == projects.len(),
            seen.len() == i,
            forall|k: int| 0 <= k < i ==> !seen[k],
        decreases n - i,
    {
        seen.push(false);
        i += 1;
    }
    let mut found: Vec<usize> = Vec::new();
    expand(projects, start, start, &mut seen, &mut found);
    let mut done: usize = 0;
    while done < found.len()
        invariant
            n == projects.len(),
            ps == projects@,
            start < n,
            done <= found.len(),
            search_state(ps, start as int, seen@, found@),
            forall|k: int| 0 <= k < n && affects(ps, start as int, k) ==> #[trigger] seen@[k],
            forall|m: int, k: int| 0 <= m < done && 0 <= k < n && affects(ps, #[trigger] found@[m] as int, k) ==> #[trigger] seen@[k],
        decreases n - done,
    {
        proof {
            lemma_distinct_below(found@, n as int);
        }
        let cur = found[done];
        let ghost fprev = found@;
        let ghost sprev = seen@;
        expand(projects, start, cur, &mut seen, &mut found);
        proof {
            assert forall|m: int, k: int| 0 <= m < done + 1 && 0 <= k < n && affects(ps, #[trigger] found@[m] as int, k)
                implies #[trigger] seen@[k] by {
                assert(found@[m] == fprev.subrange(0, fprev.len() as int)[m]);
                if m < done {
                    assert(sprev[k]);
                }
            }
        }
        done += 1;
    }
    let mut r: Vec<String> = Vec::new();
    let mut m: usize = 0;
    while m < found.len()
        invariant
            n == projects.len(),
            ps == projects@,
            m <= found.len(),
            search_state(ps, start as int, seen@, found@),
            r.deep_view().len() == m,
            forall|q: int| 0 <= q < m ==> r.deep_view()[q] == ps[found@[q] as int].0@,
        decreases found.len() - m,
    {
        let ghost prev = r.deep_view();
        r.push(projects[found[m]].0.clone());
        assert(r.deep_view() =~= prev.push(ps[found@[m as int] as int].0@));
        m += 1;
    }
    proof {
        assert forall|nm: Seq<char>| #[trigger] r.deep_view().contains(nm) <==> exists|j: int|
            0 <= j < projects.len() && (#[trigger] projects@[j]).0@ == nm && affected(projects@, start as int, j) by {
            if r.deep_view().contains(nm) {
                let q = choose|q: int| 0 <= q < r.deep_view().len() && r.deep_view()[q] == nm;
                let j = found@[q] as int;
                assert(projects@[j].0@ == nm);
            }
            if exists|j: int| 0 <= j < projects.len() && (#[trigger] projects@[j]).0@ == nm && affected(projects@, start as int, j) {
                let j = choose|j: int| 0 <= j < projects.len() && (#[trigger] projects@[j]).0@ == nm && affected(projects@, start as int, j);
                let p = choose|p: Seq<int>| #[trigger] is_walk(ps, p, start as int, j);
                assert forall|a: int, b: int| 0 <= a < n && 0 <= b < n && seen@[a] && affects(ps, a, b) implies seen@[b] by {
                    let q = choose|q: int| 0 <= q < found@.len() && found@[q] == a as usize;
                    assert(found@[q] as int == a);
                }
                lemma_closed_covers(ps, seen@, start as int, p, j, p.len() - 1);
                let q = choose|q: int| 0 <= q < found@.len() && found@[q] == j as usize;
                assert(r.deep_view()[q] == nm);
            }
        }
    }
    r
}

} // verus!
