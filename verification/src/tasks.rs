//! Tasks (a forest of subtasks) and projects, with the operations the task
//! manager performs on them.
use vstd::prelude::*;

verus! {

#[derive(Debug, Clone)]
pub struct Project {
    pub id: u64,
    pub name: String,
    pub archived: bool,
}

#[derive(Debug, Clone)]
pub struct Task {
    pub id: u64,
    pub title: String,
    pub done: bool,
    /// `None` means a top-level task.
    pub parent_id: Option<u64>,
    /// `None` means no project assigned.
    pub project_id: Option<u64>,
}

#[derive(Debug, Clone)]
pub struct TasksStore {
    pub tasks: Vec<Task>,
    pub projects: Vec<Project>,
    pub active_task_id: Option<u64>,
    pub next_task_id: u64,
    pub next_project_id: u64,
}

/// Index of the first task with id `id`.
pub open spec fn first_task(ts: Seq<Task>, id: u64) -> Option<int>
    decreases ts.len(),
{
    if ts.len() == 0 {
        None
    } else if ts[0].id == id {
        Some(0)
    } else {
        match first_task(ts.drop_first(), id) {
            Some(i) => Some(i + 1),
            None => None,
        }
    }
}

/// Index of the first project with id `id`.
pub open spec fn first_project(ps: Seq<Project>, id: u64) -> Option<int>
    decreases ps.len(),
{
    if ps.len() == 0 {
        None
    } else if ps[0].id == id {
        Some(0)
    } else {
        match first_project(ps.drop_first(), id) {
            Some(i) => Some(i + 1),
            None => None,
        }
    }
}

proof fn lemma_first_task(ts: Seq<Task>, id: u64, i: int)
    requires
        0 <= i <= ts.len(),
        forall|j: int| 0 <= j < i ==> ts[j].id != id,
    ensures
        i < ts.len() && ts[i].id == id ==> first_task(ts, id) == Some(i),
        i == ts.len() ==> first_task(ts, id) is None,
    decreases i,
{
    if i > 0 {
        let rest = ts.drop_first();
        assert forall|j: int| 0 <= j < i - 1 implies rest[j].id != id by {
            assert(rest[j] == ts[j + 1]);
        }
        lemma_first_task(rest, id, i - 1);
    }
}

pub proof fn lemma_first_project(ps: Seq<Project>, id: u64, i: int)
    requires
        0 <= i <= ps.len(),
        forall|j: int| 0 <= j < i ==> ps[j].id != id,
    ensures
        i < ps.len() && ps[i].id == id ==> first_project(ps, id) == Some(i),
        i == ps.len() ==> first_project(ps, id) is None,
    decreases i,
{
    if i > 0 {
        let rest = ps.drop_first();
        assert forall|j: int| 0 <= j < i - 1 implies rest[j].id != id by {
            assert(rest[j] == ps[j + 1]);
        }
        lemma_first_project(rest, id, i - 1);
    }
}

proof fn lemma_first_task_found(ts: Seq<Task>, id: u64)
    ensures
        first_task(ts, id) matches Some(i) ==> 0 <= i < ts.len() && ts[i].id == id,
    decreases ts.len(),
{
    if ts.len() > 0 {
        lemma_first_task_found(ts.drop_first(), id);
    }
}

proof fn lemma_first_project_found(ps: Seq<Project>, id: u64)
    ensures
        first_project(ps, id) matches Some(i) ==> 0 <= i < ps.len() && ps[i].id == id,
    decreases ps.len(),
{
    if ps.len() > 0 {
        lemma_first_project_found(ps.drop_first(), id);
    }
}

pub(crate) fn find_task(ts: &Vec<Task>, id: u64) -> (r: Option<usize>)
    ensures
        match r {
            Some(i) => first_task(ts@, id) == Some(i as int) && i < ts@.len(),
            None => first_task(ts@, id) is None,
        },
{
    let mut i: usize = 0;
    while i < ts.len()
        invariant
            i <= ts@.len(),
            forall|j: int| 0 <= j < i ==> ts@[j].id != id,
        decreases ts@.len() - i,
    {
        if ts[i].id == id {
            proof {
                lemma_first_task(ts@, id, i as int);
            }
            return Some(i);
        }
        i = i + 1;
    }
    proof {
        lemma_first_task(ts@, id, i as int);
    }
    None
}

fn find_project(ps: &Vec<Project>, id: u64) -> (r: Option<usize>)
    ensures
        match r {
            Some(i) => first_project(ps@, id) == Some(i as int) && i < ps@.len(),
            None => first_project(ps@, id) is None,
        },
{
    let mut i: usize = 0;
    while i < ps.len()
        invariant
            i <= ps@.len(),
            forall|j: int| 0 <= j < i ==> ps@[j].id != id,
        decreases ps@.len() - i,
    {
        if ps[i].id == id {
            proof {
                lemma_first_project(ps@, id, i as int);
            }
            return Some(i);
        }
        i = i + 1;
    }
    proof {
        lemma_first_project(ps@, id, i as int);
    }
    None
}

/// The name of the first project with id `id`.
pub open spec fn project_name_of(ps: Seq<Project>, id: u64) -> Option<Seq<char>> {
    match first_project(ps, id) {
        Some(i) => Some(ps[i].name@),
        None => None,
    }
}

/// The first task with the active id, if there is an active id and such a
/// task.
pub open spec fn active_task_of(s: TasksStore) -> Option<Task> {
    match s.active_task_id {
        Some(id) => match first_task(s.tasks@, id) {
            Some(i) => Some(s.tasks@[i]),
            None => None,
        },
        None => None,
    }
}

/// The active task's project name, or the empty string.
pub open spec fn active_project_name_of(s: TasksStore) -> Seq<char> {
    match active_task_of(s) {
        Some(t) => match t.project_id {
            Some(pid) => match project_name_of(s.projects@, pid) {
                Some(n) => n,
                None => Seq::empty(),
            },
            None => Seq::empty(),
        },
        None => Seq::empty(),
    }
}

/// The tasks a sequence of references points at.
pub open spec fn deref_tasks(v: Seq<&Task>) -> Seq<Task> {
    v.map_values(|t: &Task| *t)
}

/// The projects a sequence of references points at.
pub open spec fn deref_projects(v: Seq<&Project>) -> Seq<Project> {
    v.map_values(|p: &Project| *p)
}

pub open spec fn is_child_of(t: Task, id: u64) -> bool {
    t.parent_id == Some(id)
}

/// The tasks whose parent is `id`, in store order.
pub open spec fn children(ts: Seq<Task>, id: u64) -> Seq<Task> {
    ts.filter(|t: Task| is_child_of(t, id))
}

/// The top-level tasks, in store order.
pub open spec fn roots(ts: Seq<Task>) -> Seq<Task> {
    ts.filter(|t: Task| t.parent_id is None)
}

pub open spec fn active_projects_of(ps: Seq<Project>) -> Seq<Project> {
    ps.filter(|p: Project| !p.archived)
}

pub open spec fn archived_projects_of(ps: Seq<Project>) -> Seq<Project> {
    ps.filter(|p: Project| p.archived)
}

/// (done, total) over the descendants of `id` reached within `depth` levels:
/// every task whose parent is `id` counts once (and as done if it is done),
/// plus, recursively, its own descendants one level shallower.
pub open spec fn progress_within(ts: Seq<Task>, id: u64, depth: nat) -> (int, int)
    decreases depth, ts.len() + 1,
{
    if depth == 0 {
        (0, 0)
    } else {
        progress_over(ts, id, depth, ts.len() as int)
    }
}

/// The contribution of the children of `id` among the first `k` tasks.
pub open spec fn progress_over(ts: Seq<Task>, id: u64, depth: nat, k: int) -> (int, int)
    decreases depth, k,
{
    if k <= 0 || depth == 0 || k > ts.len() {
        (0, 0)
    } else {
        let (d0, t0) = progress_over(ts, id, depth, k - 1);
        let t = ts[k - 1];
        if t.parent_id == Some(id) {
            let (d1, t1) = progress_within(ts, t.id, (depth - 1) as nat);
            (d0 + (if t.done { 1int } else { 0int }) + d1, t0 + 1 + t1)
        } else {
            (d0, t0)
        }
    }
}

/// (done, total) over every descendant of `id` — children, grandchildren,
/// ... — not including `id` itself. Descends at most `ts.len()` levels,
/// which reaches every descendant when parent links form no cycle.
pub open spec fn progress_of(ts: Seq<Task>, id: u64) -> (int, int) {
    progress_within(ts, id, ts.len())
}

proof fn lemma_progress_prefix_le(ts: Seq<Task>, id: u64, depth: nat, k: int, n: int)
    requires
        0 <= k <= n <= ts.len(),
    ensures
        progress_over(ts, id, depth, k).1 <= progress_over(ts, id, depth, n).1,
        progress_over(ts, id, depth, k).0 <= progress_over(ts, id, depth, n).0,
    decreases n - k,
{
    if k < n {
        lemma_progress_prefix_le(ts, id, depth, k, n - 1);
        if depth > 0 && n > 0 {
            lemma_progress_nonneg(ts, ts[n - 1].id, (depth - 1) as nat, ts.len() as int);
            lemma_within_nonneg(ts, ts[n - 1].id, (depth - 1) as nat);
        }
    }
}

proof fn lemma_progress_nonneg(ts: Seq<Task>, id: u64, depth: nat, k: int)
    ensures
        0 <= progress_over(ts, id, depth, k).0 <= progress_over(ts, id, depth, k).1,
    decreases depth, k,
{
    if depth > 0 && 0 < k <= ts.len() {
        lemma_progress_nonneg(ts, id, depth, k - 1);
        lemma_progress_nonneg(ts, ts[k - 1].id, (depth - 1) as nat, ts.len() as int);
        lemma_within_nonneg(ts, ts[k - 1].id, (depth - 1) as nat);
    }
}

proof fn lemma_within_nonneg(ts: Seq<Task>, id: u64, depth: nat)
    requires
        0 <= progress_over(ts, id, depth, ts.len() as int).0 <= progress_over(ts, id, depth, ts.len() as int).1,
    ensures
        0 <= progress_within(ts, id, depth).0 <= progress_within(ts, id, depth).1,
{
}

/// Some task carries id `c` and has parent `p`.
pub open spec fn parent_link(ts: Seq<Task>, p: u64, c: u64) -> bool {
    exists|i: int| 0 <= i < ts.len() && ts[i].id == c && ts[i].parent_id == Some(p)
}

/// Each id in `path` is the parent of a task carrying the next id.
pub open spec fn is_chain(ts: Seq<Task>, path: Seq<u64>) -> bool {
    forall|i: int| 0 <= i < path.len() - 1 ==> #[trigger] parent_link(ts, path[i], path[i + 1])
}

/// `x` is `root` itself or one of its descendants (children, grandchildren,
/// ...), following parent links by id.
pub open spec fn in_subtree(ts: Seq<Task>, root: u64, x: u64) -> bool {
    exists|path: Seq<u64>| #[trigger] is_chain(ts, path) && path.len() >= 1 && path[0] == root && path.last() == x
}

/// The tasks of `s` outside the subtree of `root` in the store `ts`.
pub open spec fn outside_subtree(s: Seq<Task>, ts: Seq<Task>, root: u64) -> Seq<Task> {
    s.filter(|t: Task| !in_subtree(ts, root, t.id))
}

/// The tasks left after deleting `root` and everything under it.
pub open spec fn without_subtree(ts: Seq<Task>, root: u64) -> Seq<Task> {
    outside_subtree(ts, ts, root)
}

/// The active task id after deleting the subtree of `root`.
pub open spec fn active_after_delete(ts: Seq<Task>, active: Option<u64>, root: u64) -> Option<u64> {
    match active {
        Some(a) => if in_subtree(ts, root, a) {
            None
        } else {
            active
        },
        None => None,
    }
}

proof fn lemma_subtree_root(ts: Seq<Task>, root: u64)
    ensures
        in_subtree(ts, root, root),
{
    let path = seq![root];
    assert(is_chain(ts, path));
}

proof fn lemma_subtree_extend(ts: Seq<Task>, root: u64, c: u64, k: int)
    requires
        in_subtree(ts, root, c),
        0 <= k < ts.len(),
        ts[k].parent_id == Some(c),
    ensures
        in_subtree(ts, root, ts[k].id),
{
    let path = choose|path: Seq<u64>| #[trigger] is_chain(ts, path) && path.len() >= 1 && path[0] == root && path.last() == c;
    let p2 = path.push(ts[k].id);
    assert(parent_link(ts, c, ts[k].id));
    assert forall|i: int| 0 <= i < p2.len() - 1 implies #[trigger] parent_link(ts, p2[i], p2[i + 1]) by {
        if i < path.len() - 1 {
            assert(p2[i] == path[i] && p2[i + 1] == path[i + 1]);
        } else {
            assert(p2[i] == c);
        }
    }
    assert(is_chain(ts, p2));
}

/// Parent links form no cycle: no chain of parent links visits an id twice.
pub open spec fn acyclic(ts: Seq<Task>) -> bool {
    forall|path: Seq<u64>| #[trigger] is_chain(ts, path) ==> path.no_duplicates()
}

/// Some chain of `m` ids starts at `id`.
pub open spec fn chain_from(ts: Seq<Task>, id: u64, m: nat) -> bool {
    exists|path: Seq<u64>| #[trigger] is_chain(ts, path) && path.len() == m && path[0] == id
}

proof fn lemma_chain_len_bound(ts: Seq<Task>, path: Seq<u64>)
    requires
        acyclic(ts),
        is_chain(ts, path),
        path.len() >= 1,
    ensures
        path.len() <= ts.len() + 1,
{
    let q = path.drop_first();
    let ids = ts.map_values(|t: Task| t.id);
    assert forall|x: u64| q.to_set().contains(x) implies ids.to_set().contains(x) by {
        let i = choose|i: int| 0 <= i < q.len() && q[i] == x;
        assert(parent_link(ts, path[i], path[i + 1]));
        let j = choose|j: int| 0 <= j < ts.len() && ts[j].id == path[i + 1] && ts[j].parent_id == Some(path[i]);
        assert(ids[j] == x);
    }
    assert(path.no_duplicates());
    assert(q.no_duplicates()) by {
        assert forall|a: int, b: int| 0 <= a < q.len() && 0 <= b < q.len() && a != b implies q[a] != q[b] by {
            assert(q[a] == path[a + 1] && q[b] == path[b + 1]);
        }
    }
    q.unique_seq_to_set();
    ids.lemma_cardinality_of_set();
    vstd::set_lib::lemma_len_subset(q.to_set(), ids.to_set());
}

pub(crate) proof fn lemma_task_chain_len_bound(ts: Seq<Task>, path: Seq<u64>, j: int)
    requires
        acyclic(ts),
        is_chain(ts, path),
        path.len() >= 1,
        0 <= j < ts.len(),
        ts[j].id == path[0],
    ensures
        path.len() <= ts.len(),
{
    let ids = ts.map_values(|t: Task| t.id);
    assert forall|x: u64| path.to_set().contains(x) implies ids.to_set().contains(x) by {
        let i = choose|i: int| 0 <= i < path.len() && path[i] == x;
        if i == 0 {
            assert(ids[j] == x);
        } else {
            assert(parent_link(ts, path[i - 1], path[(i - 1) + 1]));
            let m = choose|m: int| 0 <= m < ts.len() && ts[m].id == path[i] && ts[m].parent_id == Some(path[i - 1]);
            assert(ids[m] == x);
        }
    }
    assert(path.no_duplicates());
    path.unique_seq_to_set();
    ids.lemma_cardinality_of_set();
    vstd::set_lib::lemma_len_subset(path.to_set(), ids.to_set());
}

proof fn lemma_no_children_no_progress(ts: Seq<Task>, id: u64, d: nat, k: int)
    requires
        !chain_from(ts, id, 2),
        0 <= k <= ts.len(),
    ensures
        progress_over(ts, id, d, k) == (0int, 0int),
    decreases k,
{
    if k > 0 && d > 0 {
        lemma_no_children_no_progress(ts, id, d, k - 1);
        if ts[k - 1].parent_id == Some(id) {
            let path = seq![id, ts[k - 1].id];
            assert(parent_link(ts, id, ts[k - 1].id));
            assert(is_chain(ts, path));
        }
    }
}

proof fn lemma_height_bound(ts: Seq<Task>, id: u64, h: nat, d: nat)
    requires
        !chain_from(ts, id, h + 2),
        d >= h,
    ensures
        progress_within(ts, id, d) == progress_within(ts, id, h),
    decreases h, ts.len() + 1,
{
    if h == 0 {
        if d > 0 {
            lemma_no_children_no_progress(ts, id, d, ts.len() as int);
        }
    } else {
        lemma_over_same(ts, id, h, d, ts.len() as int);
    }
}

proof fn lemma_over_same(ts: Seq<Task>, id: u64, h: nat, d: nat, k: int)
    requires
        h >= 1,
        d >= h,
        !chain_from(ts, id, h + 2),
        0 <= k <= ts.len(),
    ensures
        progress_over(ts, id, d, k) == progress_over(ts, id, h, k),
    decreases h, k,
{
    if k > 0 {
        lemma_over_same(ts, id, h, d, k - 1);
        let t = ts[k - 1];
        if t.parent_id == Some(id) {
            if chain_from(ts, t.id, h + 1) {
                let path = choose|path: Seq<u64>| #[trigger] is_chain(ts, path) && path.len() == h + 1 && path[0] == t.id;
                let p2 = seq![id] + path;
                assert(parent_link(ts, id, t.id));
                assert forall|i: int| 0 <= i < p2.len() - 1 implies #[trigger] parent_link(ts, p2[i], p2[i + 1]) by {
                    if i > 0 {
                        assert(p2[i] == path[i - 1] && p2[i + 1] == path[i]);
                        assert(parent_link(ts, path[i - 1], path[(i - 1) + 1]));
                    } else {
                        assert(p2[0] == id && p2[1] == path[0]);
                    }
                }
                assert(is_chain(ts, p2));
                assert(p2.len() == h + 2 && p2[0] == id);
            }
            lemma_height_bound(ts, t.id, (h - 1) as nat, (d - 1) as nat);
        }
    }
}

/// On a store whose parent links form no cycle, the rolled-up progress of a
/// task takes in its whole subtree: looking any number of levels deeper
/// than there are tasks changes nothing.
pub proof fn lemma_progress_reaches_the_whole_tree(ts: Seq<Task>, id: u64, d: nat)
    requires
        acyclic(ts),
        d >= ts.len(),
    ensures
        progress_within(ts, id, d) == progress_of(ts, id),
{
    if chain_from(ts, id, ts.len() + 2) {
        let path = choose|path: Seq<u64>| #[trigger] is_chain(ts, path) && path.len() == ts.len() + 2 && path[0] == id;
        lemma_chain_len_bound(ts, path);
    }
    lemma_height_bound(ts, id, ts.len(), d);
}

/// Every id in `rem` has all of its children's ids in `rem`.
pub open spec fn closed_under_children(ts: Seq<Task>, rem: Seq<u64>) -> bool {
    forall|x: u64, k: int|
        #![trigger rem.contains(x), ts[k]]
        rem.contains(x) && 0 <= k < ts.len() && ts[k].parent_id == Some(x) ==> rem.contains(ts[k].id)
}

proof fn lemma_closed_contains_subtree(ts: Seq<Task>, rem: Seq<u64>, root: u64, x: u64)
    requires
        rem.contains(root),
        closed_under_children(ts, rem),
        in_subtree(ts, root, x),
    ensures
        rem.contains(x),
{
    let path = choose|path: Seq<u64>| #[trigger] is_chain(ts, path) && path.len() >= 1 && path[0] == root && path.last() == x;
    lemma_closed_path(ts, rem, path, path.len() - 1);
}

proof fn lemma_closed_path(ts: Seq<Task>, rem: Seq<u64>, path: Seq<u64>, i: int)
    requires
        path.len() >= 1,
        rem.contains(path[0]),
        closed_under_children(ts, rem),
        is_chain(ts, path),
        0 <= i < path.len(),
    ensures
        rem.contains(path[i]),
    decreases i,
{
    if i > 0 {
        lemma_closed_path(ts, rem, path, i - 1);
        let j = i - 1;
        assert(parent_link(ts, path[j], path[j + 1]));
        assert(path[j + 1] == path[i]);
        let k = choose|k: int| 0 <= k < ts.len() && ts[k].id == path[i] && ts[k].parent_id == Some(path[i - 1]);
        assert(rem.contains(ts[k].id));
    }
}

/// How many tasks carry an id not yet in `rem` (among the first `n`).
pub open spec fn unvisited(ts: Seq<Task>, rem: Seq<u64>, n: int) -> nat
    decreases n,
{
    if n <= 0 || n > ts.len() {
        0
    } else {
        unvisited(ts, rem, n - 1) + if rem.contains(ts[n - 1].id) {
            0nat
        } else {
            1nat
        }
    }
}

proof fn lemma_unvisited_mono(ts: Seq<Task>, rem: Seq<u64>, rem2: Seq<u64>, n: int)
    requires
        forall|x: u64| rem.contains(x) ==> rem2.contains(x),
    ensures
        unvisited(ts, rem2, n) <= unvisited(ts, rem, n),
    decreases n,
{
    if n > 0 && n <= ts.len() {
        lemma_unvisited_mono(ts, rem, rem2, n - 1);
    }
}

proof fn lemma_unvisited_drop(ts: Seq<Task>, rem: Seq<u64>, rem2: Seq<u64>, n: int, k: int)
    requires
        forall|x: u64| rem.contains(x) ==> rem2.contains(x),
        0 <= k < n <= ts.len(),
        !rem.contains(ts[k].id),
        rem2.contains(ts[k].id),
    ensures
        unvisited(ts, rem2, n) < unvisited(ts, rem, n),
    decreases n,
{
    if k < n - 1 {
        lemma_unvisited_drop(ts, rem, rem2, n - 1, k);
    } else {
        lemma_unvisited_mono(ts, rem, rem2, n - 1);
    }
}

/// The first task with id `id` given the new title and project.
pub open spec fn edited(ts: Seq<Task>, id: u64, title: String, project_id: Option<u64>) -> Seq<Task> {
    match first_task(ts, id) {
        Some(i) => ts.update(i, Task { title, project_id, ..ts[i] }),
        None => ts,
    }
}

/// The first task with id `id` with its done flag flipped.
pub open spec fn toggled(ts: Seq<Task>, id: u64) -> Seq<Task> {
    match first_task(ts, id) {
        Some(i) => ts.update(i, Task { done: !ts[i].done, ..ts[i] }),
        None => ts,
    }
}

/// The first project with id `id` with its archived flag set to `archived`.
pub open spec fn with_archived(ps: Seq<Project>, id: u64, archived: bool) -> Seq<Project> {
    match first_project(ps, id) {
        Some(i) => ps.update(i, Project { archived, ..ps[i] }),
        None => ps,
    }
}

/// Every task and project id is below the next id to be handed out, so
/// `add_task` and `add_project` never hand out an id already in use.
pub open spec fn ids_fresh(s: TasksStore) -> bool {
    &&& forall|i: int| 0 <= i < s.tasks@.len() ==> #[trigger] s.tasks@[i].id < s.next_task_id
    &&& forall|i: int| 0 <= i < s.projects@.len() ==> #[trigger] s.projects@[i].id < s.next_project_id
}

/// An empty store.
pub open spec fn is_empty_store(s: TasksStore) -> bool {
    &&& s.tasks@.len() == 0
    &&& s.projects@.len() == 0
    &&& s.active_task_id is None
    &&& s.next_task_id == 0
    &&& s.next_project_id == 0
}

fn contains_id(v: &Vec<u64>, x: u64) -> (r: bool)
    ensures
        r == v@.contains(x),
{
    let mut i: usize = 0;
    while i < v.len()
        invariant
            i <= v@.len(),
            forall|j: int| 0 <= j < i ==> v@[j] != x,
        decreases v@.len() - i,
    {
        if v[i] == x {
            assert(v@[i as int] == x);
            return true;
        }
        i = i + 1;
    }
    false
}

impl Default for TasksStore {
    fn default() -> (s: Self)
        ensures
            is_empty_store(s),
    {
        TasksStore {
            tasks: Vec::new(),
            projects: Vec::new(),
            active_task_id: None,
            next_task_id: 0,
            next_project_id: 0,
        }
    }
}

impl TasksStore {
    pub fn project_name(&self, id: u64) -> (r: Option<&str>)
        ensures
            match r {
                Some(n) => project_name_of(self.projects@, id) == Some(n@),
                None => project_name_of(self.projects@, id) is None,
            },
    {
        match find_project(&self.projects, id) {
            Some(i) => Some(self.projects[i].name.as_str()),
            None => None,
        }
    }

    /// Resolves the active task's project name, for crediting a finished
    /// pomodoro work session. `""` if there's no active task, or it has no
    /// project.
    pub fn active_project_name(&self) -> (r: String)
        ensures
            r@ == active_project_name_of(*self),
    {
        let id = match self.active_task_id {
            Some(id) => id,
            None => return String::new(),
        };
        let i = match find_task(&self.tasks, id) {
            Some(i) => i,
            None => return String::new(),
        };
        let pid = match self.tasks[i].project_id {
            Some(pid) => pid,
            None => return String::new(),
        };
        match self.project_name(pid) {
            Some(n) => n.to_owned(),
            None => String::new(),
        }
    }

    /// The starred task's title, if one is set — shown in the applet popup so
    /// starting a session names what you're about to work on.
    pub fn active_task_title(&self) -> (r: Option<&str>)
        ensures
            match r {
                Some(t) => active_task_of(*self) matches Some(task) && task.title@ == t@,
                None => active_task_of(*self) is None,
            },
    {
        let id = match self.active_task_id {
            Some(id) => id,
            None => return None,
        };
        match find_task(&self.tasks, id) {
            Some(i) => Some(self.tasks[i].title.as_str()),
            None => None,
        }
    }

    pub fn children_of(&self, id: u64) -> (r: Vec<&Task>)
        ensures
            deref_tasks(r@) == children(self.tasks@, id),
    {
        let mut out: Vec<&Task> = Vec::new();
        let mut i: usize = 0;
        while i < self.tasks.len()
            invariant
                i <= self.tasks@.len(),
                deref_tasks(out@) == children(self.tasks@.take(i as int), id),
            decreases self.tasks@.len() - i,
        {
            proof {
                reveal_with_fuel(Seq::<_>::filter, 1);
                assert(self.tasks@.take(i + 1).drop_last() =~= self.tasks@.take(i as int));
            }
            let ghost before = out@;
            let ghost t = self.tasks@[i as int];
            assert(self.tasks@.take(i + 1).last() == t);
            let is_child = match self.tasks[i].parent_id {
                Some(p) => p == id,
                None => false,
            };
            if is_child {
                out.push(&self.tasks[i]);
                assert(deref_tasks(out@) =~= deref_tasks(before).push(t));
                assert(is_child_of(t, id));
            } else {
                assert(!is_child_of(t, id));
            }
            i = i + 1;
        }
        assert(self.tasks@.take(i as int) =~= self.tasks@);
        assert(deref_tasks(out@) == children(self.tasks@.take(i as int), id));
        out
    }

    pub fn root_tasks(&self) -> (r: Vec<&Task>)
        ensures
            deref_tasks(r@) == roots(self.tasks@),
    {
        let mut out: Vec<&Task> = Vec::new();
        let mut i: usize = 0;
        while i < self.tasks.len()
            invariant
                i <= self.tasks@.len(),
                deref_tasks(out@) == roots(self.tasks@.take(i as int)),
            decreases self.tasks@.len() - i,
        {
            proof {
                reveal_with_fuel(Seq::<_>::filter, 1);
                assert(self.tasks@.take(i + 1).drop_last() =~= self.tasks@.take(i as int));
            }
            let ghost before = out@;
            let ghost t = self.tasks@[i as int];
            assert(self.tasks@.take(i + 1).last() == t);
            if self.tasks[i].parent_id.is_none() {
                out.push(&self.tasks[i]);
                assert(deref_tasks(out@) =~= deref_tasks(before).push(t));
            }
            i = i + 1;
        }
        assert(self.tasks@.take(i as int) =~= self.tasks@);
        out
    }

    pub fn active_projects(&self) -> (r: Vec<&Project>)
        ensures
            deref_projects(r@) == active_projects_of(self.projects@),
    {
        let mut out: Vec<&Project> = Vec::new();
        let mut i: usize = 0;
        while i < self.projects.len()
            invariant
                i <= self.projects@.len(),
                deref_projects(out@) == active_projects_of(self.projects@.take(i as int)),
            decreases self.projects@.len() - i,
        {
            proof {
                reveal_with_fuel(Seq::<_>::filter, 1);
                assert(self.projects@.take(i + 1).drop_last() =~= self.projects@.take(i as int));
            }
            let ghost before = out@;
            let ghost p = self.projects@[i as int];
            assert(self.projects@.take(i + 1).last() == p);
            if !self.projects[i].archived {
                out.push(&self.projects[i]);
                assert(deref_projects(out@) =~= deref_projects(before).push(p));
            }
            i = i + 1;
        }
        assert(self.projects@.take(i as int) =~= self.projects@);
        out
    }

    pub fn archived_projects(&self) -> (r: Vec<&Project>)
        ensures
            deref_projects(r@) == archived_projects_of(self.projects@),
    {
        let mut out: Vec<&Project> = Vec::new();
        let mut i: usize = 0;
        while i < self.projects.len()
            invariant
                i <= self.projects@.len(),
                deref_projects(out@) == archived_projects_of(self.projects@.take(i as int)),
            decreases self.projects@.len() - i,
        {
            proof {
                reveal_with_fuel(Seq::<_>::filter, 1);
                assert(self.projects@.take(i + 1).drop_last() =~= self.projects@.take(i as int));
            }
            let ghost before = out@;
            let ghost p = self.projects@[i as int];
            assert(self.projects@.take(i + 1).last() == p);
            if self.projects[i].archived {
                out.push(&self.projects[i]);
                assert(deref_projects(out@) =~= deref_projects(before).push(p));
            }
            i = i + 1;
        }
        assert(self.projects@.take(i as int) =~= self.projects@);
        out
    }

    pub fn add_task(&mut self, parent_id: Option<u64>, title: String, project_id: Option<u64>) -> (id: u64)
        requires
            old(self).next_task_id < u64::MAX,
        ensures
            id == old(self).next_task_id,
            final(self).next_task_id == old(self).next_task_id + 1,
            final(self).tasks@ == old(self).tasks@.push(
                Task { id, title, done: false, parent_id, project_id },
            ),
            final(self).projects@ == old(self).projects@,
            final(self).active_task_id == old(self).active_task_id,
            final(self).next_project_id == old(self).next_project_id,
            ids_fresh(*old(self)) ==> ids_fresh(*final(self)),
    {
        let id = self.next_task_id;
        self.next_task_id = self.next_task_id + 1;
        self.tasks.push(Task { id, title, done: false, parent_id, project_id });
        id
    }

    pub fn edit(&mut self, id: u64, title: String, project_id: Option<u64>)
        ensures
            final(self).tasks@ == edited(old(self).tasks@, id, title, project_id),
            final(self).projects@ == old(self).projects@,
            final(self).active_task_id == old(self).active_task_id,
            final(self).next_task_id == old(self).next_task_id,
            final(self).next_project_id == old(self).next_project_id,
            ids_fresh(*old(self)) ==> ids_fresh(*final(self)),
    {
        match find_task(&self.tasks, id) {
            Some(i) => {
                let mut task = self.tasks.remove(i);
                task.title = title;
                task.project_id = project_id;
                self.tasks.insert(i, task);
                proof {
                    assert(self.tasks@ =~= old(self).tasks@.update(
                        i as int,
                        Task { title, project_id, ..old(self).tasks@[i as int] },
                    ));
                }
            },
            None => {},
        }
    }

    pub fn toggle_done(&mut self, id: u64)
        ensures
            final(self).tasks@ == toggled(old(self).tasks@, id),
            final(self).projects@ == old(self).projects@,
            final(self).active_task_id == old(self).active_task_id,
            final(self).next_task_id == old(self).next_task_id,
            final(self).next_project_id == old(self).next_project_id,
            ids_fresh(*old(self)) ==> ids_fresh(*final(self)),
    {
        match find_task(&self.tasks, id) {
            Some(i) => {
                let mut task = self.tasks.remove(i);
                task.done = !task.done;
                self.tasks.insert(i, task);
                proof {
                    assert(self.tasks@ =~= old(self).tasks@.update(
                        i as int,
                        Task { done: !old(self).tasks@[i as int].done, ..old(self).tasks@[i as int] },
                    ));
                }
            },
            None => {},
        }
    }

    pub fn set_active(&mut self, id: Option<u64>)
        ensures
            final(self).active_task_id == id,
            final(self).tasks@ == old(self).tasks@,
            final(self).projects@ == old(self).projects@,
            final(self).next_task_id == old(self).next_task_id,
            final(self).next_project_id == old(self).next_project_id,
            ids_fresh(*old(self)) ==> ids_fresh(*final(self)),
    {
        self.active_task_id = id;
    }

    pub fn add_project(&mut self, name: String) -> (id: u64)
        requires
            old(self).next_project_id < u64::MAX,
        ensures
            id == old(self).next_project_id,
            final(self).next_project_id == old(self).next_project_id + 1,
            final(self).projects@ == old(self).projects@.push(Project { id, name, archived: false }),
            final(self).tasks@ == old(self).tasks@,
            final(self).active_task_id == old(self).active_task_id,
            final(self).next_task_id == old(self).next_task_id,
            ids_fresh(*old(self)) ==> ids_fresh(*final(self)),
    {
        let id = self.next_project_id;
        self.next_project_id = self.next_project_id + 1;
        self.projects.push(Project { id, name, archived: false });
        id
    }

    /// Archives rather than deletes, so tasks/stats keep a meaningful project
    /// name forever — `project_id` lookups never dangle.
    pub fn set_project_archived(&mut self, id: u64, archived: bool)
        ensures
            final(self).projects@ == with_archived(old(self).projects@, id, archived),
            final(self).tasks@ == old(self).tasks@,
            final(self).active_task_id == old(self).active_task_id,
            final(self).next_task_id == old(self).next_task_id,
            final(self).next_project_id == old(self).next_project_id,
            ids_fresh(*old(self)) ==> ids_fresh(*final(self)),
    {
        match find_project(&self.projects, id) {
            Some(i) => {
                let mut project = self.projects.remove(i);
                project.archived = archived;
                self.projects.insert(i, project);
                proof {
                    assert(self.projects@ =~= old(self).projects@.update(
                        i as int,
                        Project { archived, ..old(self).projects@[i as int] },
                    ));
                }
            },
            None => {},
        }
    }

    fn progress_bounded(&self, id: u64, depth: usize) -> (r: (usize, usize))
        requires
            progress_within(self.tasks@, id, depth as nat).1 <= usize::MAX,
        ensures
            (r.0 as int, r.1 as int) == progress_within(self.tasks@, id, depth as nat),
        decreases depth,
    {
        if depth == 0 {
            return (0, 0);
        }
        let mut done: usize = 0;
        let mut total: usize = 0;
        let mut k: usize = 0;
        while k < self.tasks.len()
            invariant
                0 < depth,
                k <= self.tasks@.len(),
                progress_within(self.tasks@, id, depth as nat) == progress_over(self.tasks@, id, depth as nat, self.tasks@.len() as int),
                progress_within(self.tasks@, id, depth as nat).1 <= usize::MAX,
                (done as int, total as int) == progress_over(self.tasks@, id, depth as nat, k as int),
            decreases self.tasks@.len() - k,
        {
            proof {
                lemma_progress_prefix_le(self.tasks@, id, depth as nat, (k + 1) as int, self.tasks@.len() as int);
                lemma_progress_nonneg(self.tasks@, self.tasks@[k as int].id, (depth - 1) as nat, self.tasks@.len() as int);
                lemma_progress_nonneg(self.tasks@, id, depth as nat, (k + 1) as int);
                lemma_within_nonneg(self.tasks@, self.tasks@[k as int].id, (depth - 1) as nat);
            }
            let is_child = match self.tasks[k].parent_id {
                Some(p) => p == id,
                None => false,
            };
            if is_child {
                let (cd, ct) = self.progress_bounded(self.tasks[k].id, depth - 1);
                total = total + 1 + ct;
                if self.tasks[k].done {
                    done = done + 1;
                }
                done = done + cd;
            }
            k = k + 1;
        }
        (done, total)
    }

    /// (done, total) counted recursively over every descendant of `id`
    /// (children, grandchildren, ...) — not including `id` itself.
    pub fn progress(&self, id: u64) -> (r: (usize, usize))
        requires
            progress_of(self.tasks@, id).1 <= usize::MAX,
        ensures
            (r.0 as int, r.1 as int) == progress_of(self.tasks@, id),
    {
        self.progress_bounded(id, self.tasks.len())
    }

    /// Removes `id` and every descendant of it, clearing `active_task_id` if
    /// it pointed anywhere inside the deleted subtree.
    pub fn delete(&mut self, id: u64)
        ensures
            final(self).tasks@ == without_subtree(old(self).tasks@, id),
            final(self).active_task_id == active_after_delete(old(self).tasks@, old(self).active_task_id, id),
            final(self).projects@ == old(self).projects@,
            final(self).next_task_id == old(self).next_task_id,
            final(self).next_project_id == old(self).next_project_id,
            ids_fresh(*old(self)) ==> ids_fresh(*final(self)),
    {
        let ghost ts = self.tasks@;
        let mut to_remove: Vec<u64> = Vec::new();
        to_remove.push(id);
        let mut frontier: Vec<u64> = Vec::new();
        frontier.push(id);
        proof {
            lemma_subtree_root(ts, id);
            assert(to_remove@[0] == id);
        }
        while frontier.len() > 0
            invariant
                self.tasks@ == ts,
                self.projects@ == old(self).projects@,
                self.active_task_id == old(self).active_task_id,
                self.next_task_id == old(self).next_task_id,
                self.next_project_id == old(self).next_project_id,
                to_remove@.contains(id),
                forall|x: u64| to_remove@.contains(x) ==> in_subtree(ts, id, x),
                forall|x: u64| frontier@.contains(x) ==> to_remove@.contains(x),
                forall|x: u64, k: int|
                    #![trigger to_remove@.contains(x), ts[k]]
                    to_remove@.contains(x) && !frontier@.contains(x) && 0 <= k < ts.len() && ts[k].parent_id == Some(x)
                        ==> to_remove@.contains(ts[k].id),
            decreases 2 * unvisited(ts, to_remove@, ts.len() as int) + frontier@.len(),
        {
            let ghost rem0 = to_remove@;
            let ghost fr0 = frontier@;
            let ghost c0 = unvisited(ts, rem0, ts.len() as int);
            let current = frontier.pop().unwrap();
            assert(fr0.contains(current)) by {
                assert(fr0[fr0.len() - 1] == current);
            }
            let ghost fr1 = frontier@;
            assert(fr1 =~= fr0.drop_last());
            assert forall|x: u64| fr1.contains(x) implies fr0.contains(x) && to_remove@.contains(x) by {
                let j = choose|j: int| 0 <= j < fr1.len() && fr1[j] == x;
                assert(fr0[j] == x);
            }
            let mut k: usize = 0;
            while k < self.tasks.len()
                invariant
                    self.tasks@ == ts,
                    self.projects@ == old(self).projects@,
                    self.active_task_id == old(self).active_task_id,
                    self.next_task_id == old(self).next_task_id,
                    self.next_project_id == old(self).next_project_id,
                    k <= ts.len(),
                    to_remove@.contains(current),
                    to_remove@.contains(id),
                    forall|x: u64| rem0.contains(x) ==> to_remove@.contains(x),
                    forall|x: u64| to_remove@.contains(x) ==> in_subtree(ts, id, x),
                    forall|x: u64| frontier@.contains(x) ==> to_remove@.contains(x),
                    forall|x: u64| fr1.contains(x) ==> frontier@.contains(x),
                    forall|x: u64| to_remove@.contains(x) && !rem0.contains(x) ==> frontier@.contains(x),
                    forall|j: int| 0 <= j < k && ts[j].parent_id == Some(current) ==> to_remove@.contains(#[trigger] ts[j].id),
                    forall|x: u64, j: int|
                        #![trigger rem0.contains(x), ts[j]]
                        rem0.contains(x) && !fr0.contains(x) && 0 <= j < ts.len() && ts[j].parent_id == Some(x)
                            ==> rem0.contains(ts[j].id),
                    2 * unvisited(ts, to_remove@, ts.len() as int) + frontier@.len() <= 2 * c0 + fr1.len(),
                decreases ts.len() - k,
            {
                let is_child = match self.tasks[k].parent_id {
                    Some(p) => p == current,
                    None => false,
                };
                if is_child {
                    let cid = self.tasks[k].id;
                    if !contains_id(&to_remove, cid) {
                        let ghost rem_before = to_remove@;
                        let ghost fr_before = frontier@;
                        proof {
                            lemma_subtree_extend(ts, id, current, k as int);
                        }
                        to_remove.push(cid);
                        frontier.push(cid);
                        proof {
                            assert(to_remove@[to_remove@.len() - 1] == cid);
                            assert(frontier@[frontier@.len() - 1] == cid);
                            assert forall|x: u64| rem_before.contains(x) implies to_remove@.contains(x) by {
                                let j = choose|j: int| 0 <= j < rem_before.len() && rem_before[j] == x;
                                assert(to_remove@[j] == x);
                            }
                            assert forall|x: u64| fr_before.contains(x) implies frontier@.contains(x) by {
                                let j = choose|j: int| 0 <= j < fr_before.len() && fr_before[j] == x;
                                assert(frontier@[j] == x);
                            }
                            assert forall|x: u64| to_remove@.contains(x) implies (rem_before.contains(x) || x == cid) by {
                                let j = choose|j: int| 0 <= j < to_remove@.len() && to_remove@[j] == x;
                                if j < rem_before.len() {
                                    assert(rem_before[j] == x);
                                }
                            }
                            assert forall|x: u64| frontier@.contains(x) implies (fr_before.contains(x) || x == cid) by {
                                let j = choose|j: int| 0 <= j < frontier@.len() && frontier@[j] == x;
                                if j < fr_before.len() {
                                    assert(fr_before[j] == x);
                                }
                            }
                            lemma_unvisited_drop(ts, rem_before, to_remove@, ts.len() as int, k as int);
                            assert forall|x: u64| frontier@.contains(x) implies to_remove@.contains(x) by {
                                if x != cid {
                                    assert(fr_before.contains(x));
                                }
                            }
                        }
                    }
                }
                k = k + 1;
            }
            proof {
                lemma_unvisited_mono(ts, rem0, to_remove@, ts.len() as int);
                assert forall|x: u64, j: int|
                    #![trigger to_remove@.contains(x), ts[j]]
                    to_remove@.contains(x) && !frontier@.contains(x) && 0 <= j < ts.len() && ts[j].parent_id == Some(x)
                        implies to_remove@.contains(ts[j].id) by {
                    if x == current {
                        assert(ts[j].parent_id == Some(current));
                    } else if rem0.contains(x) {
                        if fr0.contains(x) {
                            let i = choose|i: int| 0 <= i < fr0.len() && fr0[i] == x;
                            if i < fr0.len() - 1 {
                                assert(fr1[i] == x);
                                assert(fr1.contains(x));
                                assert(frontier@.contains(x));
                            }
                        } else {
                            assert(rem0.contains(ts[j].id));
                        }
                    } else {
                        assert(frontier@.contains(x));
                    }
                }
            }
        }
        proof {
            assert(closed_under_children(ts, to_remove@));
            assert forall|x: u64| in_subtree(ts, id, x) implies to_remove@.contains(x) by {
                lemma_closed_contains_subtree(ts, to_remove@, id, x);
            }
        }
        // Drop every task in the subtree, keeping the order of the rest.
        let n: usize = self.tasks.len();
        let mut i: usize = 0;
        let mut k: usize = 0;
        assert(ts.skip(0) =~= ts);
        assert(ts.take(0) =~= Seq::<Task>::empty());
        proof {
            reveal_with_fuel(Seq::<_>::filter, 1);
        }
        while k < n
            invariant
                n == ts.len(),
                self.projects@ == old(self).projects@,
                self.active_task_id == old(self).active_task_id,
                self.next_task_id == old(self).next_task_id,
                self.next_project_id == old(self).next_project_id,
                k <= ts.len(),
                forall|x: u64| to_remove@.contains(x) <==> in_subtree(ts, id, x),
                self.tasks@ == outside_subtree(ts.take(k as int), ts, id) + ts.skip(k as int),
                i == outside_subtree(ts.take(k as int), ts, id).len(),
            decreases ts.len() - k,
        {
            let ghost kept = outside_subtree(ts.take(k as int), ts, id);
            proof {
                reveal_with_fuel(Seq::<_>::filter, 1);
                assert(ts.take(k + 1).drop_last() =~= ts.take(k as int));
                assert(ts.take(k + 1).last() == ts[k as int]);
                assert(self.tasks@[i as int] == ts[k as int]);
                assert(ts.skip(k as int) =~= seq![ts[k as int]] + ts.skip(k + 1));
            }
            if contains_id(&to_remove, self.tasks[i].id) {
                self.tasks.remove(i);
                assert(self.tasks@ =~= kept + ts.skip(k + 1));
            } else {
                i = i + 1;
                assert(self.tasks@ =~= kept.push(ts[k as int]) + ts.skip(k + 1));
            }
            k = k + 1;
        }
        assert(ts.take(ts.len() as int) =~= ts);
        assert(ts.skip(ts.len() as int) =~= Seq::<Task>::empty());
        assert(self.tasks@ =~= without_subtree(ts, id));
        proof {
            if ids_fresh(*old(self)) {
                assert forall|j: int| 0 <= j < self.tasks@.len() implies #[trigger] self.tasks@[j].id < self.next_task_id by {
                    let t = self.tasks@[j];
                    assert(self.tasks@.contains(t));
                    ts.lemma_filter_contains_rev(|t: Task| !in_subtree(ts, id, t.id), t);
                }
            }
        }
        if let Some(active) = self.active_task_id {
            if contains_id(&to_remove, active) {
                self.active_task_id = None;
            }
        }
    }
}


proof fn lemma_first_task_by_ids(a: Seq<Task>, b: Seq<Task>, id: u64)
    requires
        a.len() == b.len(),
        forall|i: int| 0 <= i < a.len() ==> a[i].id == b[i].id,
    ensures
        first_task(a, id) == first_task(b, id),
    decreases a.len(),
{
    if a.len() > 0 {
        assert(a[0].id == b[0].id);
        let (a1, b1) = (a.drop_first(), b.drop_first());
        assert forall|i: int| 0 <= i < a1.len() implies a1[i].id == b1[i].id by {
            assert(a1[i] == a[i + 1] && b1[i] == b[i + 1]);
        }
        lemma_first_task_by_ids(a1, b1, id);
    }
}

proof fn lemma_first_project_by_ids(a: Seq<Project>, b: Seq<Project>, id: u64)
    requires
        a.len() == b.len(),
        forall|i: int| 0 <= i < a.len() ==> a[i].id == b[i].id,
    ensures
        first_project(a, id) == first_project(b, id),
    decreases a.len(),
{
    if a.len() > 0 {
        assert(a[0].id == b[0].id);
        let (a1, b1) = (a.drop_first(), b.drop_first());
        assert forall|i: int| 0 <= i < a1.len() implies a1[i].id == b1[i].id by {
            assert(a1[i] == a[i + 1] && b1[i] == b[i + 1]);
        }
        lemma_first_project_by_ids(a1, b1, id);
    }
}

/// Toggling the same task twice leaves the task list exactly as it was.
pub proof fn lemma_toggle_twice(ts: Seq<Task>, id: u64)
    ensures
        toggled(toggled(ts, id), id) == ts,
{
    lemma_first_task_found(ts, id);
    let once = toggled(ts, id);
    lemma_first_task_by_ids(ts, once, id);
    if let Some(i) = first_task(ts, id) {
        assert(toggled(once, id) =~= ts);
    }
}

/// Archiving (or restoring) a project never changes which name any project
/// id resolves to, so tasks and stats keep a meaningful project name.
pub proof fn lemma_archiving_keeps_names(ps: Seq<Project>, id: u64, archived: bool, q: u64)
    ensures
        project_name_of(with_archived(ps, id, archived), q) == project_name_of(ps, q),
{
    lemma_first_project_found(ps, id);
    lemma_first_project_by_ids(ps, with_archived(ps, id, archived), q);
    lemma_first_project_found(ps, q);
}

/// Archiving a project moves it from the active list to the archived list
/// and restoring moves it back; no project is ever in both lists.
pub proof fn lemma_project_lists_partition(ps: Seq<Project>, p: Project)
    ensures
        active_projects_of(ps).contains(p) ==> !p.archived && ps.contains(p),
        archived_projects_of(ps).contains(p) ==> p.archived && ps.contains(p),
        ps.contains(p) ==> (active_projects_of(ps).contains(p) || archived_projects_of(ps).contains(p)),
{
    broadcast use vstd::seq_lib::group_filter_ensures;
    if active_projects_of(ps).contains(p) {
        ps.lemma_filter_contains_rev(|q: Project| !q.archived, p);
    }
    if archived_projects_of(ps).contains(p) {
        ps.lemma_filter_contains_rev(|q: Project| q.archived, p);
    }
    if ps.contains(p) {
        let i = choose|i: int| 0 <= i < ps.len() && ps[i] == p;
        if p.archived {
            ps.lemma_filter_contains(|q: Project| q.archived, i);
        } else {
            ps.lemma_filter_contains(|q: Project| !q.archived, i);
        }
    }
}

/// A store whose ids are all below the next id: the id `add_task` hands out
/// is not carried by any existing task.
pub proof fn lemma_new_task_id_unused(s: TasksStore)
    requires
        ids_fresh(s),
    ensures
        first_task(s.tasks@, s.next_task_id) is None,
{
    lemma_first_task_found(s.tasks@, s.next_task_id);
}

/// Rolled-up progress never counts more done tasks than tasks.
pub proof fn lemma_progress_done_le_total(ts: Seq<Task>, id: u64)
    ensures
        0 <= progress_of(ts, id).0 <= progress_of(ts, id).1,
{
    lemma_progress_nonneg(ts, id, ts.len(), ts.len() as int);
    lemma_within_nonneg(ts, id, ts.len());
}

/// The same tasks with every `done` flag turned over.
pub open spec fn flip_done(ts: Seq<Task>) -> Seq<Task> {
    ts.map_values(|t: Task| Task { done: !t.done, ..t })
}

proof fn lemma_flip_over(ts: Seq<Task>, id: u64, depth: nat, k: int)
    ensures
        progress_over(flip_done(ts), id, depth, k).1 == progress_over(ts, id, depth, k).1,
        progress_over(ts, id, depth, k).0 + progress_over(flip_done(ts), id, depth, k).0 == progress_over(ts, id, depth, k).1,
    decreases depth, k,
{
    let fs = flip_done(ts);
    assert(fs.len() == ts.len());
    if depth > 0 && 0 < k <= ts.len() {
        lemma_flip_over(ts, id, depth, k - 1);
        let c = ts[k - 1].id;
        assert(fs[k - 1].id == c && fs[k - 1].parent_id == ts[k - 1].parent_id && fs[k - 1].done == !ts[k - 1].done);
        let d1 = (depth - 1) as nat;
        if d1 > 0 {
            lemma_flip_over(ts, c, d1, ts.len() as int);
            assert(progress_within(ts, c, d1) == progress_over(ts, c, d1, ts.len() as int));
            assert(progress_within(fs, c, d1) == progress_over(fs, c, d1, fs.len() as int));
        } else {
            assert(progress_within(ts, c, d1) == (0int, 0int));
            assert(progress_within(fs, c, d1) == (0int, 0int));
        }
        let a = progress_over(ts, id, depth, k - 1);
        let b = progress_over(fs, id, depth, k - 1);
        let wa = progress_within(ts, c, d1);
        let wb = progress_within(fs, c, d1);
        if ts[k - 1].parent_id == Some(id) {
            assert(progress_over(ts, id, depth, k) == (a.0 + (if ts[k - 1].done { 1int } else { 0int }) + wa.0, a.1 + 1 + wa.1));
            assert(progress_over(fs, id, depth, k) == (b.0 + (if fs[k - 1].done { 1int } else { 0int }) + wb.0, b.1 + 1 + wb.1));
        } else {
            assert(progress_over(ts, id, depth, k) == a);
            assert(progress_over(fs, id, depth, k) == b);
        }
    }
}

/// Rolled-up progress counts each descendant as done by its own `done`
/// flag alone: turning every flag over leaves the total unchanged and
/// turns the done count into its complement, so no task is counted done
/// for another task's sake.
pub proof fn lemma_progress_counts_own_flags(ts: Seq<Task>, id: u64)
    ensures
        progress_of(flip_done(ts), id).1 == progress_of(ts, id).1,
        progress_of(ts, id).0 + progress_of(flip_done(ts), id).0 == progress_of(ts, id).1,
{
    let fs = flip_done(ts);
    assert(fs.len() == ts.len());
    lemma_flip_over(ts, id, ts.len(), ts.len() as int);
}

/// After deleting a task, neither it nor anything under it is left, and
/// every task outside its subtree is kept.
pub proof fn lemma_delete_removes_exactly_the_subtree(ts: Seq<Task>, id: u64, t: Task)
    requires
        ts.contains(t),
    ensures
        without_subtree(ts, id).contains(t) <==> !in_subtree(ts, id, t.id),
{
    let pred = |u: Task| !in_subtree(ts, id, u.id);
    if without_subtree(ts, id).contains(t) {
        let j = choose|j: int| 0 <= j < ts.filter(pred).len() && ts.filter(pred)[j] == t;
        ts.lemma_filter_pred(pred, j);
    }
    if !in_subtree(ts, id, t.id) {
        let i = choose|i: int| 0 <= i < ts.len() && ts[i] == t;
        ts.lemma_filter_contains(pred, i);
    }
}

/// `~/.config/pawpause/tasks.json`, where the task store is kept.
pub fn store_path() -> (r: String)
    ensures
        exists|home: Option<Seq<char>>| r@ == crate::config::pawpause_file_under(home, "tasks.json"@),
{
    crate::config::pawpause_file_in_home("tasks.json")
}

/// No two tasks carry the same id.
pub open spec fn ids_unique(ts: Seq<Task>) -> bool {
    forall|i: int, j: int| 0 <= i < ts.len() && 0 <= j < ts.len() && i != j ==> #[trigger] ts[i].id != #[trigger] ts[j].id
}

proof fn lemma_one_parent(ts: Seq<Task>, a: u64, b: u64, x: u64)
    requires
        ids_unique(ts),
        parent_link(ts, a, x),
        parent_link(ts, b, x),
    ensures
        a == b,
{
    let i = choose|i: int| 0 <= i < ts.len() && ts[i].id == x && ts[i].parent_id == Some(a);
    let j = choose|j: int| 0 <= j < ts.len() && ts[j].id == x && ts[j].parent_id == Some(b);
    if i != j {
        assert(ts[i].id != ts[j].id);
    }
}

proof fn lemma_chain_drop_last(ts: Seq<Task>, p: Seq<u64>)
    requires
        is_chain(ts, p),
        p.len() >= 1,
    ensures
        is_chain(ts, p.drop_last()),
{
    let q = p.drop_last();
    assert forall|i: int| 0 <= i < q.len() - 1 implies #[trigger] parent_link(ts, q[i], q[i + 1]) by {
        assert(parent_link(ts, p[i], p[i + 1]));
    }
}

/// Two chains of parent links with the same first and last ids are the same
/// chain, where ids are unique and links form no cycle.
proof fn lemma_chain_unique(ts: Seq<Task>, p: Seq<u64>, q: Seq<u64>)
    requires
        ids_unique(ts),
        acyclic(ts),
        is_chain(ts, p),
        is_chain(ts, q),
        p.len() >= 1,
        q.len() >= 1,
        p[0] == q[0],
        p.last() == q.last(),
    ensures
        p == q,
    decreases p.len() + q.len(),
{
    assert(p.no_duplicates());
    assert(q.no_duplicates());
    if p.len() == 1 {
        if q.len() > 1 {
            assert(q[0] == q[q.len() - 1]);
        }
        assert(p =~= q);
    } else if q.len() == 1 {
        assert(p[0] == p[p.len() - 1]);
    } else {
        assert(parent_link(ts, p[p.len() - 2], p[p.len() - 2 + 1]));
        assert(parent_link(ts, q[q.len() - 2], q[q.len() - 2 + 1]));
        lemma_one_parent(ts, p[p.len() - 2], q[q.len() - 2], p.last());
        lemma_chain_drop_last(ts, p);
        lemma_chain_drop_last(ts, q);
        lemma_chain_unique(ts, p.drop_last(), q.drop_last());
        assert(p =~= p.drop_last().push(p.last()));
        assert(q =~= q.drop_last().push(q.last()));
    }
}

/// Among the first `n` tasks, those at whose index `f` holds: how many are
/// done, and how many there are.
pub open spec fn tally(ts: Seq<Task>, f: spec_fn(int) -> bool, n: int) -> (int, int)
    decreases n,
{
    if n <= 0 || n > ts.len() {
        (0, 0)
    } else {
        let before = tally(ts, f, n - 1);
        if f(n - 1) {
            (before.0 + if ts[n - 1].done {
                1int
            } else {
                0int
            }, before.1 + 1)
        } else {
            before
        }
    }
}

proof fn lemma_tally_ext(ts: Seq<Task>, f: spec_fn(int) -> bool, g: spec_fn(int) -> bool, n: int)
    requires
        forall|i: int| 0 <= i < n ==> #[trigger] f(i) == g(i),
    ensures
        tally(ts, f, n) == tally(ts, g, n),
    decreases n,
{
    if n > 0 {
        lemma_tally_ext(ts, f, g, n - 1);
    }
}

proof fn lemma_tally_split(ts: Seq<Task>, f: spec_fn(int) -> bool, g: spec_fn(int) -> bool, h: spec_fn(int) -> bool, n: int)
    requires
        forall|i: int| 0 <= i < n ==> #[trigger] f(i) == (g(i) || h(i)),
        forall|i: int| 0 <= i < n ==> !(#[trigger] g(i) && h(i)),
    ensures
        tally(ts, f, n).0 == tally(ts, g, n).0 + tally(ts, h, n).0,
        tally(ts, f, n).1 == tally(ts, g, n).1 + tally(ts, h, n).1,
    decreases n,
{
    if n > 0 {
        lemma_tally_split(ts, f, g, h, n - 1);
    }
}

proof fn lemma_tally_one(ts: Seq<Task>, f: spec_fn(int) -> bool, m: int, n: int)
    requires
        0 <= n <= ts.len(),
        forall|i: int| 0 <= i < n ==> #[trigger] f(i) == (i == m),
    ensures
        tally(ts, f, n) == if 0 <= m < n {
            (if ts[m].done {
                1int
            } else {
                0int
            }, 1int)
        } else {
            (0int, 0int)
        },
    decreases n,
{
    if n > 0 {
        lemma_tally_one(ts, f, m, n - 1);
    }
}

proof fn lemma_tally_none(ts: Seq<Task>, f: spec_fn(int) -> bool, n: int)
    requires
        forall|i: int| 0 <= i < n ==> !#[trigger] f(i),
    ensures
        tally(ts, f, n) == (0int, 0int),
    decreases n,
{
    if n > 0 {
        lemma_tally_none(ts, f, n - 1);
    }
}

proof fn lemma_tally_done_le(ts: Seq<Task>, f: spec_fn(int) -> bool, g: spec_fn(int) -> bool, n: int)
    requires
        forall|i: int| 0 <= i < n && #[trigger] f(i) ==> g(i),
    ensures
        tally(ts, f, n).0 <= tally(ts, g, n).0,
    decreases n,
{
    if n > 0 {
        lemma_tally_done_le(ts, f, g, n - 1);
    }
}

/// `x` is reached from `id` by a chain of one to `d` parent links.
pub open spec fn reach(ts: Seq<Task>, id: u64, x: u64, d: nat) -> bool {
    exists|path: Seq<u64>| #[trigger] is_chain(ts, path) && 2 <= path.len() <= d + 1 && path[0] == id && path.last() == x
}

proof fn lemma_chain_prepend(ts: Seq<Task>, id: u64, p: Seq<u64>)
    requires
        is_chain(ts, p),
        p.len() >= 1,
        parent_link(ts, id, p[0]),
    ensures
        is_chain(ts, seq![id] + p),
{
    let q = seq![id] + p;
    assert forall|i: int| 0 <= i < q.len() - 1 implies #[trigger] parent_link(ts, q[i], q[i + 1]) by {
        if i > 0 {
            assert(q[i] == p[i - 1] && q[i + 1] == p[i]);
            assert(parent_link(ts, p[i - 1], p[(i - 1) + 1]));
        }
    }
}

proof fn lemma_chain_drop_first(ts: Seq<Task>, p: Seq<u64>)
    requires
        is_chain(ts, p),
        p.len() >= 1,
    ensures
        is_chain(ts, p.drop_first()),
{
    let q = p.drop_first();
    assert forall|i: int| 0 <= i < q.len() - 1 implies #[trigger] parent_link(ts, q[i], q[i + 1]) by {
        assert(parent_link(ts, p[i + 1], p[(i + 1) + 1]));
    }
}

/// Task `i` is one of the first `k` tasks whose parent is `id`, or lies
/// within `d - 1` links below one of them.
pub open spec fn under_children(ts: Seq<Task>, id: u64, d: nat, k: int, i: int) -> bool {
    exists|j: int|
        #![trigger ts[j]]
        0 <= j < k && ts[j].parent_id == Some(id) && (j == i || reach(ts, ts[j].id, ts[i].id, (d - 1) as nat))
}

/// The chain from `id` down to task `i` through child `j` of `id`.
proof fn lemma_chain_through_child(ts: Seq<Task>, id: u64, d: nat, j: int, i: int) -> (path: Seq<u64>)
    requires
        d >= 1,
        0 <= j < ts.len(),
        0 <= i < ts.len(),
        ts[j].parent_id == Some(id),
        j == i || reach(ts, ts[j].id, ts[i].id, (d - 1) as nat),
    ensures
        is_chain(ts, path),
        2 <= path.len() <= d + 1,
        path[0] == id,
        path[1] == ts[j].id,
        path.last() == ts[i].id,
{
    assert(parent_link(ts, id, ts[j].id));
    if j == i {
        let path = seq![id, ts[j].id];
        assert(is_chain(ts, path));
        path
    } else {
        let p = choose|p: Seq<u64>|
            #[trigger] is_chain(ts, p) && 2 <= p.len() <= (d - 1) as nat + 1 && p[0] == ts[j].id && p.last() == ts[i].id;
        lemma_chain_prepend(ts, id, p);
        let path = seq![id] + p;
        assert(path.last() == p.last());
        path
    }
}

proof fn lemma_children_disjoint(ts: Seq<Task>, id: u64, d: nat, k: int, i: int)
    requires
        ids_unique(ts),
        acyclic(ts),
        d >= 1,
        0 < k <= ts.len(),
        0 <= i < ts.len(),
        ts[k - 1].parent_id == Some(id),
    ensures
        !(under_children(ts, id, d, k - 1, i) && (i == k - 1 || reach(ts, ts[k - 1].id, ts[i].id, (d - 1) as nat))),
        !(i == k - 1 && reach(ts, ts[k - 1].id, ts[i].id, (d - 1) as nat)),
{
    if under_children(ts, id, d, k - 1, i) && (i == k - 1 || reach(ts, ts[k - 1].id, ts[i].id, (d - 1) as nat)) {
        let j = choose|j: int|
            #![trigger ts[j]]
            0 <= j < k - 1 && ts[j].parent_id == Some(id) && (j == i || reach(ts, ts[j].id, ts[i].id, (d - 1) as nat));
        let a = lemma_chain_through_child(ts, id, d, j, i);
        let b = lemma_chain_through_child(ts, id, d, k - 1, i);
        lemma_chain_unique(ts, a, b);
        assert(ts[j].id == ts[k - 1].id);
    }
    if i == k - 1 && reach(ts, ts[k - 1].id, ts[i].id, (d - 1) as nat) {
        let p = choose|p: Seq<u64>|
            #[trigger] is_chain(ts, p) && 2 <= p.len() <= (d - 1) as nat + 1 && p[0] == ts[k - 1].id && p.last() == ts[i].id;
        assert(p.no_duplicates());
        assert(p[0] == p[p.len() - 1]);
    }
}

proof fn lemma_under_all_children(ts: Seq<Task>, id: u64, d: nat, i: int)
    requires
        ids_unique(ts),
        d >= 1,
        0 <= i < ts.len(),
    ensures
        under_children(ts, id, d, ts.len() as int, i) == reach(ts, id, ts[i].id, d),
{
    if under_children(ts, id, d, ts.len() as int, i) {
        let j = choose|j: int|
            #![trigger ts[j]]
            0 <= j < ts.len() && ts[j].parent_id == Some(id) && (j == i || reach(ts, ts[j].id, ts[i].id, (d - 1) as nat));
        let path = lemma_chain_through_child(ts, id, d, j, i);
    }
    if reach(ts, id, ts[i].id, d) {
        let path = choose|path: Seq<u64>|
            #[trigger] is_chain(ts, path) && 2 <= path.len() <= d + 1 && path[0] == id && path.last() == ts[i].id;
        assert(parent_link(ts, path[0], path[0int + 1]));
        let j = choose|j: int| 0 <= j < ts.len() && ts[j].id == path[1] && ts[j].parent_id == Some(id);
        if path.len() == 2 {
            if j != i {
                assert(ts[j].id != ts[i].id);
            }
        } else {
            let q = path.drop_first();
            lemma_chain_drop_first(ts, path);
            assert(q.last() == path.last());
            assert(reach(ts, ts[j].id, ts[i].id, (d - 1) as nat));
        }
        assert(ts[j] == ts[j]);
    }
}

proof fn lemma_within_tallies(ts: Seq<Task>, id: u64, d: nat)
    requires
        ids_unique(ts),
        acyclic(ts),
    ensures
        progress_within(ts, id, d) == tally(ts, |i: int| reach(ts, id, ts[i].id, d), ts.len() as int),
    decreases d, ts.len() + 1,
{
    let n = ts.len() as int;
    let f = |i: int| reach(ts, id, ts[i].id, d);
    if d == 0 {
        lemma_tally_none(ts, f, n);
    } else {
        let g = |i: int| under_children(ts, id, d, n, i);
        lemma_over_tallies(ts, id, d, n);
        assert forall|i: int| 0 <= i < n implies #[trigger] g(i) == f(i) by {
            lemma_under_all_children(ts, id, d, i);
        }
        lemma_tally_ext(ts, g, f, n);
    }
}

proof fn lemma_over_tallies(ts: Seq<Task>, id: u64, d: nat, k: int)
    requires
        ids_unique(ts),
        acyclic(ts),
        d >= 1,
        0 <= k <= ts.len(),
    ensures
        progress_over(ts, id, d, k) == tally(ts, |i: int| under_children(ts, id, d, k, i), ts.len() as int),
    decreases d, k,
{
    let n = ts.len() as int;
    let f = |i: int| under_children(ts, id, d, k, i);
    if k == 0 {
        lemma_tally_none(ts, f, n);
    } else {
        lemma_over_tallies(ts, id, d, k - 1);
        let before = |i: int| under_children(ts, id, d, k - 1, i);
        let c = ts[k - 1].id;
        let d1 = (d - 1) as nat;
        if ts[k - 1].parent_id == Some(id) {
            let below = |i: int| reach(ts, c, ts[i].id, d1);
            let own = |i: int| i == k - 1;
            let fresh = |i: int| i == k - 1 || reach(ts, c, ts[i].id, d1);
            lemma_within_tallies(ts, c, d1);
            assert forall|i: int| 0 <= i < n implies #[trigger] f(i) == (before(i) || fresh(i)) by {
                if fresh(i) {
                    assert(ts[k - 1] == ts[k - 1]);
                }
                if f(i) {
                    let j = choose|j: int|
                        #![trigger ts[j]]
                        0 <= j < k && ts[j].parent_id == Some(id) && (j == i || reach(ts, ts[j].id, ts[i].id, d1));
                    if j < k - 1 {
                        assert(ts[j] == ts[j]);
                    }
                }
                if before(i) {
                    let j = choose|j: int|
                        #![trigger ts[j]]
                        0 <= j < k - 1 && ts[j].parent_id == Some(id) && (j == i || reach(ts, ts[j].id, ts[i].id, d1));
                    assert(ts[j] == ts[j]);
                }
            }
            assert forall|i: int| 0 <= i < n implies !(#[trigger] before(i) && fresh(i)) by {
                lemma_children_disjoint(ts, id, d, k, i);
            }
            assert forall|i: int| 0 <= i < n implies #[trigger] fresh(i) == (own(i) || below(i)) by {}
            assert forall|i: int| 0 <= i < n implies !(#[trigger] own(i) && below(i)) by {
                lemma_children_disjoint(ts, id, d, k, i);
            }
            assert forall|i: int| 0 <= i < n implies #[trigger] own(i) == (i == k - 1) by {}
            lemma_tally_split(ts, f, before, fresh, n);
            lemma_tally_split(ts, fresh, own, below, n);
            lemma_tally_one(ts, own, k - 1, n);
            if d1 > 0 {
                assert(progress_within(ts, c, d1) == progress_over(ts, c, d1, n));
            }
        } else {
            assert forall|i: int| 0 <= i < n implies #[trigger] f(i) == before(i) by {
                if f(i) {
                    let j = choose|j: int|
                        #![trigger ts[j]]
                        0 <= j < k && ts[j].parent_id == Some(id) && (j == i || reach(ts, ts[j].id, ts[i].id, d1));
                    assert(ts[j] == ts[j]);
                }
                if before(i) {
                    let j = choose|j: int|
                        #![trigger ts[j]]
                        0 <= j < k - 1 && ts[j].parent_id == Some(id) && (j == i || reach(ts, ts[j].id, ts[i].id, d1));
                    assert(ts[j] == ts[j]);
                }
            }
            lemma_tally_ext(ts, f, before, n);
        }
    }
}

/// On a store whose ids are unique and whose parent links form no cycle,
/// rolled-up progress counts each descendant of `id` (child, grandchild,
/// ..., never `id` itself) once: the total is how many descendants there
/// are, and the done count is how many of them are themselves done. So the
/// done count never exceeds the number of done tasks in the store.
pub proof fn lemma_progress_counts_descendants(ts: Seq<Task>, id: u64)
    requires
        ids_unique(ts),
        acyclic(ts),
    ensures
        progress_of(ts, id) == tally(ts, |i: int| in_subtree(ts, id, ts[i].id) && ts[i].id != id, ts.len() as int),
        progress_of(ts, id).0 <= tally(ts, |i: int| true, ts.len() as int).0,
{
    let n = ts.len() as int;
    let f = |i: int| reach(ts, id, ts[i].id, ts.len());
    let g = |i: int| in_subtree(ts, id, ts[i].id) && ts[i].id != id;
    lemma_within_tallies(ts, id, ts.len());
    assert forall|i: int| 0 <= i < n implies #[trigger] f(i) == g(i) by {
        let x = ts[i].id;
        if f(i) {
            let path = choose|path: Seq<u64>|
                #[trigger] is_chain(ts, path) && 2 <= path.len() <= ts.len() + 1 && path[0] == id && path.last() == x;
            assert(path.no_duplicates());
            assert(path[0] != path[path.len() - 1]);
        }
        if g(i) {
            let path = choose|path: Seq<u64>| #[trigger] is_chain(ts, path) && path.len() >= 1 && path[0] == id && path.last() == x;
            lemma_chain_len_bound(ts, path);
            if path.len() == 1 {
                assert(path[0] == path.last());
            }
        }
    }
    lemma_tally_ext(ts, f, g, n);
    lemma_tally_done_le(ts, g, |i: int| true, n);
}

} // verus!
