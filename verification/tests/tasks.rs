use pawpause_applet::tasks::TasksStore;

fn store_with_chain() -> (TasksStore, u64, u64, u64) {
    let mut store = TasksStore::default();
    let root = store.add_task(None, "root".into(), None);
    let child = store.add_task(Some(root), "child".into(), None);
    let grandchild = store.add_task(Some(child), "grandchild".into(), None);
    (store, root, child, grandchild)
}

#[test]
fn progress_rolls_up_through_the_whole_tree() {
    let (mut store, root, child, grandchild) = store_with_chain();
    assert_eq!(store.progress(root), (0, 2));

    store.toggle_done(grandchild);
    assert_eq!(store.progress(root), (1, 2));
    assert_eq!(store.progress(child), (1, 1));

    store.toggle_done(child);
    assert_eq!(store.progress(root), (2, 2));
}

#[test]
fn delete_cascades_to_all_descendants() {
    let (mut store, root, child, grandchild) = store_with_chain();
    store.set_active(Some(grandchild));

    store.delete(child);

    assert_eq!(store.tasks.len(), 1);
    assert_eq!(store.tasks[0].id, root);
    assert_eq!(store.active_task_id, None, "active task inside the deleted subtree should clear");
}

#[test]
fn deleting_a_leaf_does_not_disturb_siblings() {
    let mut store = TasksStore::default();
    let root = store.add_task(None, "root".into(), None);
    let a = store.add_task(Some(root), "a".into(), None);
    let b = store.add_task(Some(root), "b".into(), None);

    store.delete(a);

    assert_eq!(store.children_of(root).into_iter().map(|t| t.id).collect::<Vec<_>>(), vec![b]);
}

#[test]
fn active_project_name_resolves_through_task_and_project() {
    let mut store = TasksStore::default();
    let project = store.add_project("Work".into());
    let task = store.add_task(None, "t".into(), Some(project));
    store.set_active(Some(task));

    assert_eq!(store.active_project_name(), "Work");
}

#[test]
fn active_project_name_empty_when_no_project() {
    let mut store = TasksStore::default();
    let task = store.add_task(None, "t".into(), None);
    store.set_active(Some(task));

    assert_eq!(store.active_project_name(), "");
}

#[test]
fn archiving_a_project_keeps_it_resolvable() {
    let mut store = TasksStore::default();
    let project = store.add_project("Old".into());
    store.set_project_archived(project, true);

    assert_eq!(store.project_name(project), Some("Old"));
    assert!(store.active_projects().is_empty());
    assert_eq!(store.archived_projects().len(), 1);
}

#[test]
fn ids_are_never_reused_after_a_delete() {
    let mut store = TasksStore::default();
    let a = store.add_task(None, "a".into(), None);
    store.delete(a);
    let b = store.add_task(None, "b".into(), None);
    assert_ne!(a, b);
    assert_eq!(store.next_task_id, 2);
}

#[test]
fn toggling_twice_restores_the_done_flag() {
    let (mut store, root, _, _) = store_with_chain();
    store.toggle_done(root);
    assert!(store.tasks[0].done);
    store.toggle_done(root);
    assert!(!store.tasks[0].done);
}

#[test]
fn edit_changes_only_title_and_project() {
    let (mut store, _, child, _) = store_with_chain();
    let p = store.add_project("P".into());
    store.edit(child, "renamed".into(), Some(p));
    let t = &store.tasks[1];
    assert_eq!(t.title, "renamed");
    assert_eq!(t.project_id, Some(p));
    assert_eq!(t.parent_id, Some(0));
    assert!(!t.done);
    store.edit(999, "nothing".into(), None);
    assert_eq!(store.tasks.len(), 3);
}

#[test]
fn active_task_title_follows_the_active_id() {
    let (mut store, _, child, _) = store_with_chain();
    assert_eq!(store.active_task_title(), None);
    store.set_active(Some(child));
    assert_eq!(store.active_task_title(), Some("child"));
    store.set_active(Some(12345));
    assert_eq!(store.active_task_title(), None);
    assert_eq!(store.active_project_name(), "");
}

#[test]
fn root_tasks_and_children_keep_store_order() {
    let mut store = TasksStore::default();
    let r1 = store.add_task(None, "r1".into(), None);
    let r2 = store.add_task(None, "r2".into(), None);
    let c1 = store.add_task(Some(r2), "c1".into(), None);
    let c2 = store.add_task(Some(r2), "c2".into(), None);
    assert_eq!(store.root_tasks().iter().map(|t| t.id).collect::<Vec<_>>(), vec![r1, r2]);
    assert_eq!(store.children_of(r2).iter().map(|t| t.id).collect::<Vec<_>>(), vec![c1, c2]);
    assert!(store.children_of(r1).is_empty());
}

#[test]
fn progress_of_a_leaf_is_empty() {
    let (store, _, _, grandchild) = store_with_chain();
    assert_eq!(store.progress(grandchild), (0, 0));
    assert_eq!(store.progress(777), (0, 0));
}

#[test]
fn restoring_an_archived_project_lists_it_as_active_again() {
    let mut store = TasksStore::default();
    let a = store.add_project("A".into());
    let b = store.add_project("B".into());
    store.set_project_archived(a, true);
    assert_eq!(store.active_projects().iter().map(|p| p.id).collect::<Vec<_>>(), vec![b]);
    store.set_project_archived(a, false);
    assert_eq!(store.active_projects().iter().map(|p| p.id).collect::<Vec<_>>(), vec![a, b]);
    assert!(store.archived_projects().is_empty());
    assert_eq!(store.project_name(99), None);
}
