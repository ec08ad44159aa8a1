use std::collections::HashSet;

use pawpause_applet::task_view::{
    expand_icon, project_index, row_chip, row_title, star_icon, subtask_banner, visible_rows, EditorMessage, TaskEditor,
};
use pawpause_applet::tasks::TasksStore;

fn sample() -> (TasksStore, u64, u64, u64, u64) {
    let mut store = TasksStore::default();
    let a = store.add_task(None, "a".into(), None);
    let a1 = store.add_task(Some(a), "a1".into(), None);
    let b = store.add_task(None, "b".into(), None);
    let a1x = store.add_task(Some(a1), "a1x".into(), None);
    (store, a, a1, b, a1x)
}

#[test]
fn rows_are_depth_first_in_store_order() {
    let (store, a, a1, b, a1x) = sample();
    let rows = visible_rows(&store, &HashSet::new());
    assert_eq!(rows, vec![(a, 0), (a1, 1), (a1x, 2), (b, 0)]);
}

#[test]
fn collapsing_hides_the_whole_subtree() {
    let (store, a, _, b, _) = sample();
    let mut collapsed = HashSet::new();
    collapsed.insert(a);
    assert_eq!(visible_rows(&store, &collapsed), vec![(a, 0), (b, 0)]);
}

#[test]
fn project_index_counts_only_active_projects() {
    let mut store = TasksStore::default();
    let p0 = store.add_project("P0".into());
    let p1 = store.add_project("P1".into());
    let p2 = store.add_project("P2".into());
    store.set_project_archived(p0, true);
    assert_eq!(project_index(&store, Some(p2)), Some(1));
    assert_eq!(project_index(&store, Some(p1)), Some(0));
    assert_eq!(project_index(&store, Some(p0)), None);
    assert_eq!(project_index(&store, None), None);
}

#[test]
fn adding_a_task_trims_the_title_and_resets_the_form() {
    let mut store = TasksStore::default();
    let p = store.add_project("P".into());
    let mut ed = TaskEditor::new(store);
    assert!(!ed.update(EditorMessage::NewTaskTitleChanged("  write report ".into())));
    assert!(!ed.update(EditorMessage::NewTaskProjectSelected(0)));
    assert_eq!(ed.new_task_project, Some(p));
    assert!(ed.update(EditorMessage::AddTask));
    assert_eq!(ed.store.tasks.len(), 1);
    assert_eq!(ed.store.tasks[0].title, "write report");
    assert_eq!(ed.store.tasks[0].project_id, Some(p));
    assert_eq!(ed.new_task_title, "");
    assert_eq!(ed.new_task_project, None);
}

#[test]
fn a_blank_title_adds_nothing() {
    let mut ed = TaskEditor::new(TasksStore::default());
    ed.update(EditorMessage::NewTaskTitleChanged("   ".into()));
    assert!(!ed.update(EditorMessage::AddTask));
    assert!(ed.store.tasks.is_empty());
    assert_eq!(ed.new_task_title, "   ");
}

#[test]
fn subtasks_expand_their_parent() {
    let (store, a, _, _, _) = sample();
    let mut ed = TaskEditor::new(store);
    ed.update(EditorMessage::ToggleExpanded(a));
    assert!(ed.collapsed.contains(&a));
    ed.update(EditorMessage::StartAddSubtask(a));
    assert!(!ed.collapsed.contains(&a));
    assert_eq!(ed.new_task_parent, Some(a));
    ed.update(EditorMessage::NewTaskTitleChanged("child".into()));
    ed.update(EditorMessage::AddTask);
    let last = ed.store.tasks.last().unwrap();
    assert_eq!(last.parent_id, Some(a));
    assert_eq!(ed.new_task_parent, None);
}

#[test]
fn editing_round_trip() {
    let (store, _, a1, _, _) = sample();
    let mut ed = TaskEditor::new(store);
    assert!(!ed.update(EditorMessage::StartEdit(a1)));
    assert_eq!(ed.editing, Some(a1));
    assert_eq!(ed.edit_title, "a1");
    ed.update(EditorMessage::EditTitleChanged(" renamed  ".into()));
    assert!(ed.update(EditorMessage::SaveEdit));
    assert_eq!(ed.editing, None);
    assert_eq!(ed.store.tasks[1].title, "renamed");
    assert!(!ed.update(EditorMessage::SaveEdit));
    assert!(!ed.update(EditorMessage::StartEdit(424242)));
    assert_eq!(ed.editing, None);
}

#[test]
fn deleting_the_task_being_edited_closes_the_editor() {
    let (store, a, a1, b, _) = sample();
    let mut ed = TaskEditor::new(store);
    ed.update(EditorMessage::StartEdit(a1));
    ed.update(EditorMessage::StartAddSubtask(a1));
    assert!(ed.update(EditorMessage::DeleteTask(a1)));
    assert_eq!(ed.editing, None);
    assert_eq!(ed.new_task_parent, None);
    assert_eq!(ed.store.tasks.iter().map(|t| t.id).collect::<Vec<_>>(), vec![a, b]);
}

#[test]
fn activity_done_and_projects_are_saved() {
    let (store, a, _, _, _) = sample();
    let mut ed = TaskEditor::new(store);
    assert!(ed.update(EditorMessage::SetActive(a)));
    assert_eq!(ed.store.active_task_id, Some(a));
    assert!(ed.update(EditorMessage::ClearActive));
    assert_eq!(ed.store.active_task_id, None);
    assert!(ed.update(EditorMessage::ToggleDone(a)));
    assert!(ed.store.tasks[0].done);
    ed.update(EditorMessage::NewProjectNameChanged(" Home ".into()));
    assert!(ed.update(EditorMessage::AddProject));
    assert_eq!(ed.store.projects[0].name, "Home");
    assert_eq!(ed.new_project_name, "");
    let id = ed.store.projects[0].id;
    assert!(ed.update(EditorMessage::ArchiveProject(id)));
    assert!(ed.store.projects[0].archived);
    assert!(ed.update(EditorMessage::RestoreProject(id)));
    assert!(!ed.store.projects[0].archived);
    ed.update(EditorMessage::NewProjectNameChanged("  ".into()));
    assert!(!ed.update(EditorMessage::AddProject));
    assert_eq!(ed.store.projects.len(), 1);
}

#[test]
fn cancelling_clears_only_its_own_field() {
    let (store, a, _, _, _) = sample();
    let mut ed = TaskEditor::new(store);
    ed.update(EditorMessage::StartAddSubtask(a));
    ed.update(EditorMessage::StartEdit(a));
    assert!(!ed.update(EditorMessage::CancelAddSubtask));
    assert_eq!(ed.new_task_parent, None);
    assert_eq!(ed.editing, Some(a));
    assert!(!ed.update(EditorMessage::CancelEdit));
    assert_eq!(ed.editing, None);
    ed.update(EditorMessage::EditProjectSelected(5));
    assert_eq!(ed.edit_project, None);
}

#[test]
fn row_text_marks_done_tasks_and_rolls_up_progress() {
    let mut store = TasksStore::default();
    let p = store.add_project("Work".into());
    let root = store.add_task(None, "root".into(), Some(p));
    let kid = store.add_task(Some(root), "kid".into(), None);
    let plain = store.add_task(None, "plain".into(), None);
    store.toggle_done(kid);
    assert_eq!(row_title(&store.tasks[0]), "root");
    assert_eq!(row_title(&store.tasks[1]), "kid (done)");
    assert_eq!(row_chip(&store, &store.tasks[0]), Some("Work · 1/1".to_string()));
    assert_eq!(row_chip(&store, &store.tasks[1]), None);
    assert_eq!(row_chip(&store, &store.tasks[2]), None);
    let other = store.add_task(Some(plain), "x".into(), None);
    assert_eq!(row_chip(&store, &store.tasks[2]), Some("0/1".to_string()));
    assert_eq!(subtask_banner(&store, Some(other)), Some("Adding a subtask under \"x\"".to_string()));
    assert_eq!(subtask_banner(&store, Some(999)), None);
    assert_eq!(subtask_banner(&store, None), None);
    assert_eq!(expand_icon(true), "pan-down-symbolic");
    assert_eq!(expand_icon(false), "pan-end-symbolic");
    assert_eq!(star_icon(true), "starred-symbolic");
    assert_eq!(star_icon(false), "non-starred-symbolic");
}

#[test]
fn a_blank_add_leaves_exhausted_ids_alone() {
    let mut store = TasksStore::default();
    store.next_task_id = u64::MAX;
    store.next_project_id = u64::MAX;
    let mut ed = TaskEditor::new(store);
    ed.update(EditorMessage::NewTaskTitleChanged("  ".into()));
    assert!(!ed.update(EditorMessage::AddTask));
    assert!(!ed.update(EditorMessage::AddProject));
    assert_eq!(ed.store.next_task_id, u64::MAX);
    assert!(ed.store.tasks.is_empty());
}
