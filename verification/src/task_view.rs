//! The task list as the task manager shows it: the visible rows of the task
//! tree, and how each editing message changes the editor's state.
use vstd::prelude::*;
use std::collections::HashSet;
use crate::tasks::{Task, TasksStore, Project, active_projects_of, deref_projects, first_project, lemma_first_project,
    first_task, find_task, toggled, edited, with_archived, without_subtree, active_after_delete, project_name_of, children,
    progress_of, deref_tasks, acyclic, chain_from, is_chain, parent_link, lemma_task_chain_len_bound};
use crate::text::{trim, trimmed_string, chars_of, string_of, push_str, push_dec, dec};

verus! {

broadcast use vstd::std_specs::hash::group_hash_axioms;

/// The rows shown for `id` at `depth` and everything under it: the task
/// itself, then — unless it is collapsed — the rows of each of its children
/// in store order, one level deeper. Descends at most `fuel` levels.
pub open spec fn rows_from(ts: Seq<Task>, collapsed: Set<u64>, id: u64, depth: nat, fuel: nat) -> Seq<(u64, nat)>
    decreases fuel, 0nat,
{
    if fuel == 0 {
        Seq::empty()
    } else if collapsed.contains(id) {
        seq![(id, depth)]
    } else {
        seq![(id, depth)] + rows_of_children(ts, collapsed, id, depth + 1, (fuel - 1) as nat, ts.len())
    }
}

/// The rows of the children of `parent` among the first `k` tasks.
pub open spec fn rows_of_children(ts: Seq<Task>, collapsed: Set<u64>, parent: u64, depth: nat, fuel: nat, k: nat) -> Seq<(u64, nat)>
    decreases fuel, k,
{
    if k == 0 || k > ts.len() {
        Seq::empty()
    } else {
        rows_of_children(ts, collapsed, parent, depth, fuel, (k - 1) as nat) + if ts[k - 1].parent_id == Some(parent) {
            rows_from(ts, collapsed, ts[k - 1].id, depth, fuel)
        } else {
            Seq::empty()
        }
    }
}

/// The rows of the top-level tasks among the first `k`, each with its
/// subtree.
pub open spec fn rows_of_roots(ts: Seq<Task>, collapsed: Set<u64>, k: nat) -> Seq<(u64, nat)>
    decreases k,
{
    if k == 0 || k > ts.len() {
        Seq::empty()
    } else {
        rows_of_roots(ts, collapsed, (k - 1) as nat) + if ts[k - 1].parent_id is None {
            rows_from(ts, collapsed, ts[k - 1].id, 0, ts.len())
        } else {
            Seq::empty()
        }
    }
}

/// Depth-first, pre-order (id, depth) pairs for every visible row of the
/// store — children of a collapsed node are skipped entirely. The walk
/// descends at most `tasks.len()` levels, which reaches every task when
/// parent links form no cycle.
pub open spec fn visible_rows_of(ts: Seq<Task>, collapsed: Set<u64>) -> Seq<(u64, nat)> {
    rows_of_roots(ts, collapsed, ts.len())
}

proof fn lemma_no_children_no_rows(ts: Seq<Task>, collapsed: Set<u64>, id: u64, depth: nat, fuel: nat, k: nat)
    requires
        !chain_from(ts, id, 2),
        k <= ts.len(),
    ensures
        rows_of_children(ts, collapsed, id, depth, fuel, k) == Seq::<(u64, nat)>::empty(),
    decreases k,
{
    if k > 0 {
        lemma_no_children_no_rows(ts, collapsed, id, depth, fuel, (k - 1) as nat);
        if ts[k - 1].parent_id == Some(id) {
            let path = seq![id, ts[k - 1].id];
            assert(parent_link(ts, id, ts[k - 1].id));
            assert(is_chain(ts, path));
        }
        assert(rows_of_children(ts, collapsed, id, depth, fuel, (k - 1) as nat) + Seq::<(u64, nat)>::empty()
            =~= Seq::<(u64, nat)>::empty());
    }
}

proof fn lemma_rows_height_bound(ts: Seq<Task>, collapsed: Set<u64>, id: u64, depth: nat, h: nat, fuel: nat)
    requires
        !chain_from(ts, id, h + 2),
        fuel >= h + 1,
    ensures
        rows_from(ts, collapsed, id, depth, fuel) == rows_from(ts, collapsed, id, depth, h + 1),
    decreases h, ts.len() + 1,
{
    if !collapsed.contains(id) {
        if h == 0 {
            lemma_no_children_no_rows(ts, collapsed, id, depth + 1, (fuel - 1) as nat, ts.len());
            lemma_no_children_no_rows(ts, collapsed, id, depth + 1, 0, ts.len());
        } else {
            lemma_children_rows_same(ts, collapsed, id, depth + 1, h, (fuel - 1) as nat, ts.len());
        }
    }
}

proof fn lemma_children_rows_same(ts: Seq<Task>, collapsed: Set<u64>, id: u64, depth: nat, h: nat, fuel: nat, k: nat)
    requires
        h >= 1,
        fuel >= h,
        !chain_from(ts, id, h + 2),
        k <= ts.len(),
    ensures
        rows_of_children(ts, collapsed, id, depth, fuel, k) == rows_of_children(ts, collapsed, id, depth, h, k),
    decreases h, k,
{
    if k > 0 {
        lemma_children_rows_same(ts, collapsed, id, depth, h, fuel, (k - 1) as nat);
        let t = ts[k - 1];
        if t.parent_id == Some(id) {
            if chain_from(ts, t.id, h + 1) {
                let path = choose|path: Seq<u64>| #[trigger] is_chain(ts, path) && path.len() == h + 1 && path[0] == t.id;
                let p2 = seq![id] + path;
                assert(parent_link(ts, id, t.id));
                assert forall|i: int| 0 <= i < p2.len() - 1 implies #[trigger] parent_link(ts, p2[i], p2[i + 1]) by {
                    if i > 0 {
                        assert(p2[i] == path[i - 1] && p2[i + 1] == path[i]);
                        assert(parent_link(ts, path[i - 1], path[(i - 1) + 1]));
                    } else {
                        assert(p2[0] == id && p2[1] == path[0]);
                    }
                }
                assert(is_chain(ts, p2));
            }
            lemma_rows_height_bound(ts, collapsed, t.id, depth, (h - 1) as nat, fuel);
        }
    }
}

/// On a store whose parent links form no cycle, a task's rows already show
/// its whole subtree: walking any number of levels deeper than there are
/// tasks gives the same rows.
pub proof fn lemma_rows_reach_the_whole_tree(ts: Seq<Task>, collapsed: Set<u64>, j: int, depth: nat, fuel: nat)
    requires
        acyclic(ts),
        0 <= j < ts.len(),
        fuel >= ts.len(),
    ensures
        rows_from(ts, collapsed, ts[j].id, depth, fuel) == rows_from(ts, collapsed, ts[j].id, depth, ts.len()),
{
    let id = ts[j].id;
    if chain_from(ts, id, ts.len() + 1) {
        let path = choose|path: Seq<u64>| #[trigger] is_chain(ts, path) && path.len() == ts.len() + 1 && path[0] == id;
        lemma_task_chain_len_bound(ts, path, j);
    }
    let h = (ts.len() - 1) as nat;
    lemma_rows_height_bound(ts, collapsed, id, depth, h, fuel);
}

/// Rows as plain values.
pub open spec fn rows_view(v: Seq<(u64, usize)>) -> Seq<(u64, nat)> {
    v.map_values(|p: (u64, usize)| (p.0, p.1 as nat))
}

fn push_rows(
    ts: &Vec<Task>,
    collapsed: &HashSet<u64>,
    id: u64,
    depth: usize,
    fuel: usize,
    out: &mut Vec<(u64, usize)>,
)
    requires
        depth + fuel <= ts@.len(),
    ensures
        rows_view(final(out)@) == rows_view(old(out)@) + rows_from(ts@, collapsed@, id, depth as nat, fuel as nat),
    decreases fuel, 0nat,
{
    if fuel == 0 {
        return;
    }
    let n = ts.len();
    let ghost start = out@;
    out.push((id, depth));
    assert(rows_view(out@) =~= rows_view(start) + seq![(id, depth as nat)]);
    if collapsed.contains(&id) {
        return;
    }
    push_children(ts, collapsed, id, depth + 1, fuel - 1, ts.len(), out);
    assert(rows_view(out@) =~= rows_view(start) + rows_from(ts@, collapsed@, id, depth as nat, fuel as nat));
}

fn push_children(
    ts: &Vec<Task>,
    collapsed: &HashSet<u64>,
    parent: u64,
    depth: usize,
    fuel: usize,
    k: usize,
    out: &mut Vec<(u64, usize)>,
)
    requires
        depth + fuel <= ts@.len(),
        k <= ts@.len(),
    ensures
        rows_view(final(out)@) == rows_view(old(out)@) + rows_of_children(ts@, collapsed@, parent, depth as nat, fuel as nat, k as nat),
    decreases fuel, k,
{
    if k == 0 {
        assert(rows_view(out@) =~= rows_view(out@) + Seq::<(u64, nat)>::empty());
        return;
    }
    let ghost start = out@;
    push_children(ts, collapsed, parent, depth, fuel, k - 1, out);
    let ghost mid = out@;
    let is_child = match ts[k - 1].parent_id {
        Some(p) => p == parent,
        None => false,
    };
    if is_child {
        push_rows(ts, collapsed, ts[k - 1].id, depth, fuel, out);
    }
    assert(rows_view(out@) =~= rows_view(start) + rows_of_children(ts@, collapsed@, parent, depth as nat, fuel as nat, k as nat));
}

/// Depth-first, pre-order (id, depth) pairs for every visible row —
/// children of a collapsed node are skipped entirely.
pub fn visible_rows(store: &TasksStore, collapsed: &HashSet<u64>) -> (r: Vec<(u64, usize)>)
    ensures
        rows_view(r@) == visible_rows_of(store.tasks@, collapsed@),
{
    let ts = &store.tasks;
    let mut out: Vec<(u64, usize)> = Vec::new();
    let mut k: usize = 0;
    while k < ts.len()
        invariant
            k <= ts@.len(),
            rows_view(out@) == rows_of_roots(ts@, collapsed@, k as nat),
        decreases ts@.len() - k,
    {
        let ghost before = out@;
        if ts[k].parent_id.is_none() {
            push_rows(ts, collapsed, ts[k].id, 0, ts.len(), &mut out);
        } else {
            assert(rows_view(out@) =~= rows_view(before) + Seq::<(u64, nat)>::empty());
        }
        k = k + 1;
    }
    out
}

/// The position of project `project_id` among the active projects, if it is
/// one of them (the first such position).
pub open spec fn project_position(ps: Seq<Project>, project_id: Option<u64>) -> Option<int> {
    match project_id {
        Some(id) => first_project(active_projects_of(ps), id),
        None => None,
    }
}

/// Where the project `project_id` sits in the active-project picker.
pub fn project_index(store: &TasksStore, project_id: Option<u64>) -> (r: Option<usize>)
    ensures
        match r {
            Some(i) => project_position(store.projects@, project_id) == Some(i as int),
            None => project_position(store.projects@, project_id) is None,
        },
{
    let id = match project_id {
        Some(id) => id,
        None => return None,
    };
    let active = store.active_projects();
    let ghost a = deref_projects(active@);
    let mut i: usize = 0;
    while i < active.len()
        invariant
            i <= active@.len(),
            a == deref_projects(active@),
            a == active_projects_of(store.projects@),
            project_id == Some(id),
            forall|j: int| 0 <= j < i ==> a[j].id != id,
        decreases active@.len() - i,
    {
        assert(a[i as int] == *active@[i as int]);
        if active[i].id == id {
            proof {
                assert(a.len() == active@.len());
                assert(a[i as int].id == id);
                lemma_first_project(a, id, i as int);
                assert(first_project(a, id) == Some(i as int));
            }
            return Some(i);
        }
        i = i + 1;
    }
    proof {
        lemma_first_project(a, id, i as int);
    }
    None
}

/// The id of the active project at position `index` of the picker.
pub open spec fn picked_project(ps: Seq<Project>, index: int) -> Option<u64> {
    let active = active_projects_of(ps);
    if 0 <= index < active.len() {
        Some(active[index].id)
    } else {
        None
    }
}

fn pick_project(store: &TasksStore, index: usize) -> (r: Option<u64>)
    ensures
        r == picked_project(store.projects@, index as int),
{
    let active = store.active_projects();
    if index < active.len() {
        assert(deref_projects(active@)[index as int] == *active@[index as int]);
        Some(active[index].id)
    } else {
        None
    }
}


/// A task row's title: marked `(done)` once done.
pub open spec fn title_text(t: Task) -> Seq<char> {
    if t.done {
        t.title@ + " (done)"@
    } else {
        t.title@
    }
}

/// The title shown on a task's row.
pub fn row_title(task: &Task) -> (r: String)
    ensures
        r@ == title_text(*task),
{
    let mut out = chars_of(task.title.as_str());
    if task.done {
        push_str(&mut out, " (done)");
    }
    proof {
        if !task.done {
            assert(out@ == task.title@);
        }
    }
    string_of(out)
}

/// The chip on a task's row: its project's name and, for a task with
/// subtasks, the rolled-up `done/total` (joined by ` · ` when both are
/// there); no chip when there is neither a project name nor a subtask.
pub open spec fn chip_text(s: TasksStore, t: Task) -> Option<Seq<char>> {
    let name = match t.project_id {
        Some(p) => project_name_of(s.projects@, p),
        None => None,
    };
    let has_children = children(s.tasks@, t.id).len() > 0;
    if name is None && !has_children {
        None
    } else {
        let label = match name {
            Some(n) => n,
            None => Seq::empty(),
        };
        if has_children {
            let (done, total) = progress_of(s.tasks@, t.id);
            Some(label + (if label.len() > 0 {
                " · "@
            } else {
                Seq::empty()
            }) + dec(done as nat) + "/"@ + dec(total as nat))
        } else {
            Some(label)
        }
    }
}

/// Plain values of an optional label.
pub open spec fn label_view(r: Option<String>) -> Option<Seq<char>> {
    match r {
        Some(s) => Some(s@),
        None => None,
    }
}

/// The chip shown on `task`'s row, if any.
pub fn row_chip(store: &TasksStore, task: &Task) -> (r: Option<String>)
    requires
        progress_of(store.tasks@, task.id).1 <= usize::MAX,
    ensures
        label_view(r) == chip_text(*store, *task),
{
    let name = match task.project_id {
        Some(p) => store.project_name(p),
        None => None,
    };
    let kids = store.children_of(task.id);
    let has_children = kids.len() > 0;
    proof {
        assert(deref_tasks(kids@).len() == kids@.len());
    }
    if name.is_none() && !has_children {
        return None;
    }
    let mut out: Vec<char> = match name {
        Some(n) => chars_of(n),
        None => Vec::new(),
    };
    if has_children {
        let (done, total) = store.progress(task.id);
        proof {
            crate::tasks::lemma_progress_done_le_total(store.tasks@, task.id);
        }
        if out.len() > 0 {
            push_str(&mut out, " · ");
        }
        push_dec(&mut out, done as u64);
        push_str(&mut out, "/");
        push_dec(&mut out, total as u64);
    }
    Some(string_of(out))
}

/// The expander icon of a task with subtasks.
pub fn expand_icon(expanded: bool) -> (r: &'static str)
    ensures
        r@ == (if expanded {
            "pan-down-symbolic"@
        } else {
            "pan-end-symbolic"@
        }),
{
    if expanded {
        "pan-down-symbolic"
    } else {
        "pan-end-symbolic"
    }
}

/// The star icon: filled on the active task.
pub fn star_icon(is_active: bool) -> (r: &'static str)
    ensures
        r@ == (if is_active {
            "starred-symbolic"@
        } else {
            "non-starred-symbolic"@
        }),
{
    if is_active {
        "starred-symbolic"
    } else {
        "non-starred-symbolic"
    }
}

/// The note above the new-task field while composing a subtask of a task
/// that exists.
pub open spec fn banner_text(s: TasksStore, parent: Option<u64>) -> Option<Seq<char>> {
    match parent {
        Some(id) => match first_task(s.tasks@, id) {
            Some(i) => Some("Adding a subtask under \""@ + s.tasks@[i].title@ + "\""@),
            None => None,
        },
        None => None,
    }
}

/// The note shown while a subtask is being composed.
pub fn subtask_banner(store: &TasksStore, parent: Option<u64>) -> (r: Option<String>)
    ensures
        label_view(r) == banner_text(*store, parent),
{
    let id = match parent {
        Some(id) => id,
        None => return None,
    };
    match find_task(&store.tasks, id) {
        Some(i) => {
            let mut out = chars_of("Adding a subtask under \"");
            push_str(&mut out, store.tasks[i].title.as_str());
            push_str(&mut out, "\"");
            Some(string_of(out))
        },
        None => None,
    }
}

/// The state of the task manager's editing controls, around the store.
pub struct TaskEditor {
    pub store: TasksStore,
    /// Nodes whose children are hidden. Empty by default — everything starts
    /// expanded.
    pub collapsed: HashSet<u64>,
    pub new_task_title: String,
    pub new_task_project: Option<u64>,
    /// `Some(id)` while composing a subtask of `id`; `None` adds a top-level task.
    pub new_task_parent: Option<u64>,
    pub editing: Option<u64>,
    pub edit_title: String,
    pub edit_project: Option<u64>,
    pub new_project_name: String,
}

/// What the user did in the task manager.
pub enum EditorMessage {
    NewTaskTitleChanged(String),
    NewTaskProjectSelected(usize),
    AddTask,
    StartAddSubtask(u64),
    CancelAddSubtask,
    ToggleDone(u64),
    ToggleExpanded(u64),
    SetActive(u64),
    ClearActive,
    DeleteTask(u64),
    StartEdit(u64),
    EditTitleChanged(String),
    EditProjectSelected(usize),
    SaveEdit,
    CancelEdit,
    NewProjectNameChanged(String),
    AddProject,
    ArchiveProject(u64),
    RestoreProject(u64),
}

/// The store is the same in every field.
pub open spec fn same_store(a: TasksStore, b: TasksStore) -> bool {
    &&& a.tasks@ == b.tasks@
    &&& a.projects@ == b.projects@
    &&& a.active_task_id == b.active_task_id
    &&& a.next_task_id == b.next_task_id
    &&& a.next_project_id == b.next_project_id
}

/// The store with only its task list replaced.
pub open spec fn store_with_tasks(a: TasksStore, b: TasksStore, tasks: Seq<Task>) -> bool {
    &&& b.tasks@ == tasks
    &&& b.projects@ == a.projects@
    &&& b.active_task_id == a.active_task_id
    &&& b.next_task_id == a.next_task_id
    &&& b.next_project_id == a.next_project_id
}

/// Every editor field other than the store and those listed is unchanged.
pub open spec fn same_form(a: TaskEditor, b: TaskEditor) -> bool {
    &&& a.collapsed@ == b.collapsed@
    &&& a.new_task_title@ == b.new_task_title@
    &&& a.new_task_project == b.new_task_project
    &&& a.new_task_parent == b.new_task_parent
    &&& a.editing == b.editing
    &&& a.edit_title@ == b.edit_title@
    &&& a.edit_project == b.edit_project
    &&& a.new_project_name@ == b.new_project_name@
}

/// The new editor state `b` after message `m` in state `a`, and whether the
/// store must be saved (`save`).
pub open spec fn editor_step(a: TaskEditor, m: EditorMessage, b: TaskEditor, save: bool) -> bool {
    match m {
        EditorMessage::NewTaskTitleChanged(v) => !save && same_store(a.store, b.store) && same_form(
            TaskEditor { new_task_title: v, ..a },
            b,
        ),
        EditorMessage::NewTaskProjectSelected(index) => !save && same_store(a.store, b.store) && b.new_task_project
            == picked_project(a.store.projects@, index as int) && same_form(TaskEditor { new_task_project: b.new_task_project, ..a }, b),
        EditorMessage::AddTask => {
            let title = trim(a.new_task_title@);
            if title.len() == 0 {
                !save && same_store(a.store, b.store) && same_form(a, b)
            } else {
                &&& save
                &&& exists|t: String|
                    t@ == title && b.store.tasks@ == a.store.tasks@.push(
                        Task {
                            id: a.store.next_task_id,
                            title: t,
                            done: false,
                            parent_id: a.new_task_parent,
                            project_id: a.new_task_project,
                        },
                    )
                &&& b.store.next_task_id == a.store.next_task_id + 1
                &&& b.store.projects@ == a.store.projects@
                &&& b.store.active_task_id == a.store.active_task_id
                &&& b.store.next_project_id == a.store.next_project_id
                &&& b.new_task_title@.len() == 0
                &&& b.new_task_project is None
                &&& b.new_task_parent is None
                &&& same_form(
                    TaskEditor { new_task_title: b.new_task_title, new_task_project: None, new_task_parent: None, ..a },
                    b,
                )
            }
        },
        EditorMessage::StartAddSubtask(id) => !save && same_store(a.store, b.store) && b.new_task_parent == Some(id)
            && b.collapsed@ == a.collapsed@.remove(id) && same_form(
            TaskEditor { new_task_parent: Some(id), collapsed: b.collapsed, ..a },
            b,
        ),
        EditorMessage::CancelAddSubtask => !save && same_store(a.store, b.store) && b.new_task_parent is None && same_form(
            TaskEditor { new_task_parent: None, ..a },
            b,
        ),
        EditorMessage::ToggleDone(id) => save && store_with_tasks(a.store, b.store, toggled(a.store.tasks@, id)) && same_form(a, b),
        EditorMessage::ToggleExpanded(id) => !save && same_store(a.store, b.store) && b.collapsed@ == (if a.collapsed@.contains(
            id,
        ) {
            a.collapsed@.remove(id)
        } else {
            a.collapsed@.insert(id)
        }) && same_form(TaskEditor { collapsed: b.collapsed, ..a }, b),
        EditorMessage::SetActive(id) => save && b.store.active_task_id == Some(id) && store_with_tasks(
            TasksStore { active_task_id: Some(id), ..a.store },
            b.store,
            a.store.tasks@,
        ) && same_form(a, b),
        EditorMessage::ClearActive => save && b.store.active_task_id is None && store_with_tasks(
            TasksStore { active_task_id: None, ..a.store },
            b.store,
            a.store.tasks@,
        ) && same_form(a, b),
        EditorMessage::DeleteTask(id) => {
            &&& save
            &&& b.store.tasks@ == without_subtree(a.store.tasks@, id)
            &&& b.store.active_task_id == active_after_delete(a.store.tasks@, a.store.active_task_id, id)
            &&& b.store.projects@ == a.store.projects@
            &&& b.store.next_task_id == a.store.next_task_id
            &&& b.store.next_project_id == a.store.next_project_id
            &&& b.editing == (if a.editing == Some(id) { None } else { a.editing })
            &&& b.new_task_parent == (if a.new_task_parent == Some(id) { None } else { a.new_task_parent })
            &&& same_form(TaskEditor { editing: b.editing, new_task_parent: b.new_task_parent, ..a }, b)
        },
        EditorMessage::StartEdit(id) => !save && same_store(a.store, b.store) && match first_task(a.store.tasks@, id) {
            Some(i) => b.editing == Some(id) && b.edit_title@ == a.store.tasks@[i].title@ && b.edit_project
                == a.store.tasks@[i].project_id && same_form(
                TaskEditor { editing: Some(id), edit_title: b.edit_title, edit_project: b.edit_project, ..a },
                b,
            ),
            None => same_form(a, b),
        },
        EditorMessage::EditTitleChanged(v) => !save && same_store(a.store, b.store) && same_form(
            TaskEditor { edit_title: v, ..a },
            b,
        ),
        EditorMessage::EditProjectSelected(index) => !save && same_store(a.store, b.store) && b.edit_project
            == picked_project(a.store.projects@, index as int) && same_form(TaskEditor { edit_project: b.edit_project, ..a }, b),
        EditorMessage::SaveEdit => match a.editing {
            Some(id) => {
                &&& save
                &&& exists|t: String|
                    t@ == trim(a.edit_title@) && b.store.tasks@ == edited(a.store.tasks@, id, t, a.edit_project)
                &&& b.store.projects@ == a.store.projects@
                &&& b.store.active_task_id == a.store.active_task_id
                &&& b.store.next_task_id == a.store.next_task_id
                &&& b.store.next_project_id == a.store.next_project_id
                &&& same_form(TaskEditor { editing: None, ..a }, b)
            },
            None => !save && same_store(a.store, b.store) && same_form(a, b),
        },
        EditorMessage::CancelEdit => !save && same_store(a.store, b.store) && b.editing is None && same_form(
            TaskEditor { editing: None, ..a },
            b,
        ),
        EditorMessage::NewProjectNameChanged(v) => !save && same_store(a.store, b.store) && same_form(
            TaskEditor { new_project_name: v, ..a },
            b,
        ),
        EditorMessage::AddProject => {
            let name = trim(a.new_project_name@);
            if name.len() == 0 {
                !save && same_store(a.store, b.store) && same_form(a, b)
            } else {
                &&& save
                &&& exists|n: String|
                    n@ == name && b.store.projects@ == a.store.projects@.push(
                        Project { id: a.store.next_project_id, name: n, archived: false },
                    )
                &&& b.store.next_project_id == a.store.next_project_id + 1
                &&& b.store.tasks@ == a.store.tasks@
                &&& b.store.active_task_id == a.store.active_task_id
                &&& b.store.next_task_id == a.store.next_task_id
                &&& b.new_project_name@.len() == 0
                &&& same_form(TaskEditor { new_project_name: b.new_project_name, ..a }, b)
            }
        },
        EditorMessage::ArchiveProject(id) => save && b.store.projects@ == with_archived(a.store.projects@, id, true)
            && b.store.tasks@ == a.store.tasks@ && b.store.active_task_id == a.store.active_task_id
            && b.store.next_task_id == a.store.next_task_id && b.store.next_project_id == a.store.next_project_id
            && same_form(a, b),
        EditorMessage::RestoreProject(id) => save && b.store.projects@ == with_archived(a.store.projects@, id, false)
            && b.store.tasks@ == a.store.tasks@ && b.store.active_task_id == a.store.active_task_id
            && b.store.next_task_id == a.store.next_task_id && b.store.next_project_id == a.store.next_project_id
            && same_form(a, b),
    }
}

/// Every change to the task store is saved: a message after which the
/// editor does not ask for a save has left the store exactly as it was.
pub proof fn lemma_unsaved_messages_keep_the_store(a: TaskEditor, m: EditorMessage, b: TaskEditor, save: bool)
    requires
        editor_step(a, m, b, save),
        !save,
    ensures
        same_store(a.store, b.store),
{
}

impl TaskEditor {
    /// An editor over `store` with every control empty and every node
    /// expanded.
    pub fn new(store: TasksStore) -> (e: Self)
        ensures
            same_store(e.store, store),
            e.collapsed@ == Set::<u64>::empty(),
            e.new_task_title@.len() == 0,
            e.new_task_project is None,
            e.new_task_parent is None,
            e.editing is None,
            e.edit_title@.len() == 0,
            e.edit_project is None,
            e.new_project_name@.len() == 0,
    {
        TaskEditor {
            store,
            collapsed: HashSet::new(),
            new_task_title: String::new(),
            new_task_project: None,
            new_task_parent: None,
            editing: None,
            edit_title: String::new(),
            edit_project: None,
            new_project_name: String::new(),
        }
    }

    /// Applies one message; returns whether the task store must be saved.
    pub fn update(&mut self, message: EditorMessage) -> (save: bool)
        requires
            message is AddTask && trim(old(self).new_task_title@).len() > 0 ==> old(self).store.next_task_id < u64::MAX,
            message is AddProject && trim(old(self).new_project_name@).len() > 0 ==> old(self).store.next_project_id
                < u64::MAX,
        ensures
            editor_step(*old(self), message, *final(self), save),
    {
        match message {
            EditorMessage::NewTaskTitleChanged(v) => {
                self.new_task_title = v;
                false
            },
            EditorMessage::NewTaskProjectSelected(index) => {
                self.new_task_project = pick_project(&self.store, index);
                false
            },
            EditorMessage::AddTask => {
                let title = trimmed_string(self.new_task_title.as_str());
                if title.as_str().is_empty() {
                    false
                } else {
                    let ghost t = title;
                    self.store.add_task(self.new_task_parent, title, self.new_task_project);
                    self.new_task_title = String::new();
                    self.new_task_project = None;
                    self.new_task_parent = None;
                    assert(self.store.tasks@ == old(self).store.tasks@.push(
                        Task {
                            id: old(self).store.next_task_id,
                            title: t,
                            done: false,
                            parent_id: old(self).new_task_parent,
                            project_id: old(self).new_task_project,
                        },
                    ));
                    true
                }
            },
            EditorMessage::StartAddSubtask(id) => {
                self.new_task_parent = Some(id);
                self.collapsed.remove(&id);
                false
            },
            EditorMessage::CancelAddSubtask => {
                self.new_task_parent = None;
                false
            },
            EditorMessage::ToggleDone(id) => {
                self.store.toggle_done(id);
                true
            },
            EditorMessage::ToggleExpanded(id) => {
                let ghost before = self.collapsed@;
                if !self.collapsed.insert(id) {
                    self.collapsed.remove(&id);
                    assert(self.collapsed@ =~= before.remove(id));
                }
                false
            },
            EditorMessage::SetActive(id) => {
                self.store.set_active(Some(id));
                true
            },
            EditorMessage::ClearActive => {
                self.store.set_active(None);
                true
            },
            EditorMessage::DeleteTask(id) => {
                self.store.delete(id);
                if self.editing == Some(id) {
                    self.editing = None;
                }
                if self.new_task_parent == Some(id) {
                    self.new_task_parent = None;
                }
                true
            },
            EditorMessage::StartEdit(id) => {
                match find_task(&self.store.tasks, id) {
                    Some(i) => {
                        self.edit_title = self.store.tasks[i].title.clone();
                        self.edit_project = self.store.tasks[i].project_id;
                        self.editing = Some(id);
                    },
                    None => {},
                }
                false
            },
            EditorMessage::EditTitleChanged(v) => {
                self.edit_title = v;
                false
            },
            EditorMessage::EditProjectSelected(index) => {
                self.edit_project = pick_project(&self.store, index);
                false
            },
            EditorMessage::SaveEdit => {
                match self.editing.take() {
                    Some(id) => {
                        let title = trimmed_string(self.edit_title.as_str());
                        let ghost t = title;
                        self.store.edit(id, title, self.edit_project);
                        assert(self.store.tasks@ == edited(old(self).store.tasks@, id, t, old(self).edit_project));
                        true
                    },
                    None => false,
                }
            },
            EditorMessage::CancelEdit => {
                self.editing = None;
                false
            },
            EditorMessage::NewProjectNameChanged(v) => {
                self.new_project_name = v;
                false
            },
            EditorMessage::AddProject => {
                let name = trimmed_string(self.new_project_name.as_str());
                if name.as_str().is_empty() {
                    false
                } else {
                    let ghost n = name;
                    self.store.add_project(name);
                    self.new_project_name = String::new();
                    assert(self.store.projects@ == old(self).store.projects@.push(
                        Project { id: old(self).store.next_project_id, name: n, archived: false },
                    ));
                    true
                }
            },
            EditorMessage::ArchiveProject(id) => {
                self.store.set_project_archived(id, true);
                true
            },
            EditorMessage::RestoreProject(id) => {
                self.store.set_project_archived(id, false);
                true
            },
        }
    }
}
} // verus!
