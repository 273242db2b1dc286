use rustc_utils::trans::{
    add_clean, add_clean_free, add_clean_return_to_mut, add_clean_temp_immediate,
    add_clean_temp_mem, block_cleanups, block_kind, cleantype, cleanup, cleanup_path,
    grow_scope_clean, heap, revoke_clean, scope_info, shrink_scope_clean, BasicBlockRef,
    path_elt, path_str, CleanupAction, RootMapKey, TyId, ValueRef,
};

fn path(size: usize) -> cleanup_path {
    cleanup_path { target: None, size, dest: BasicBlockRef(size) }
}

fn scope() -> scope_info {
    scope_info {
        loop_break: None,
        loop_label: None,
        cleanups: Vec::new(),
        cleanup_paths: vec![path(0), path(1), path(3), path(2)],
        landing_pad: Some(BasicBlockRef(99)),
    }
}

#[test]
fn adding_cleanups_forgets_the_landing_pad() {
    let mut s = scope();
    assert!(s.empty_cleanups());
    add_clean(&mut s, ValueRef(1), TyId(7), false, true);
    assert!(s.empty_cleanups());
    assert_eq!(s.landing_pad, Some(BasicBlockRef(99)));
    add_clean(&mut s, ValueRef(1), TyId(7), true, true);
    assert_eq!(s.landing_pad, None);
    assert_eq!(s.cleanup_paths.len(), 4);
    assert_eq!(
        s.cleanups,
        vec![cleanup::clean(CleanupAction::DropTy(ValueRef(1), TyId(7)), cleantype::normal_exit_and_unwind)]
    );
    add_clean_temp_immediate(&mut s, ValueRef(2), TyId(8), true, false);
    add_clean_temp_mem(&mut s, ValueRef(3), TyId(9), true, false);
    add_clean_free(&mut s, ValueRef(4), heap::heap_exchange);
    add_clean_free(&mut s, ValueRef(5), heap::heap_managed);
    let key = RootMapKey { id: 3, derefs: 1 };
    add_clean_return_to_mut(&mut s, key, ValueRef(6), ValueRef(7), ValueRef(8), ValueRef(9));
    assert_eq!(
        &s.cleanups[1..],
        &[
            cleanup::clean_temp(ValueRef(2), CleanupAction::DropTyImmediate(ValueRef(2), TyId(8)), cleantype::normal_exit_only),
            cleanup::clean_temp(ValueRef(3), CleanupAction::DropTy(ValueRef(3), TyId(9)), cleantype::normal_exit_only),
            cleanup::clean_temp(ValueRef(4), CleanupAction::TransExchangeFree(ValueRef(4)), cleantype::normal_exit_and_unwind),
            cleanup::clean_temp(ValueRef(5), CleanupAction::TransFree(ValueRef(5)), cleantype::normal_exit_and_unwind),
            cleanup::clean_temp(
                ValueRef(6),
                CleanupAction::ReturnToMut {
                    root_key: key,
                    frozen_val_ref: ValueRef(6),
                    bits_val_ref: ValueRef(7),
                    filename_val: ValueRef(8),
                    line_val: ValueRef(9),
                },
                cleantype::normal_exit_only
            ),
        ]
    );
}

#[test]
fn shrinking_keeps_the_leading_paths_that_fit() {
    let mut s = scope();
    shrink_scope_clean(&mut s, 2);
    assert_eq!(s.landing_pad, None);
    assert_eq!(s.cleanup_paths, vec![path(0), path(1)]);
    let mut t = scope();
    grow_scope_clean(&mut t);
    assert_eq!(t.cleanup_paths.len(), 4);
    assert_eq!(t.landing_pad, None);
}

#[test]
fn revoking_removes_the_first_temporary_cleanup() {
    let mut s = scope();
    add_clean(&mut s, ValueRef(1), TyId(7), true, false);
    add_clean_temp_mem(&mut s, ValueRef(2), TyId(8), true, false);
    add_clean_temp_mem(&mut s, ValueRef(2), TyId(9), true, false);
    s.landing_pad = Some(BasicBlockRef(5));
    revoke_clean(&mut s, ValueRef(1));
    // A variable's cleanup is not revocable: nothing changes.
    assert_eq!(s.cleanups.len(), 3);
    assert_eq!(s.landing_pad, Some(BasicBlockRef(5)));
    revoke_clean(&mut s, ValueRef(2));
    assert_eq!(s.cleanups.len(), 2);
    assert_eq!(s.cleanups[1], cleanup::clean_temp(ValueRef(2), CleanupAction::DropTy(ValueRef(2), TyId(9)), cleantype::normal_exit_only));
    assert_eq!(s.landing_pad, None);
    assert_eq!(s.cleanup_paths, vec![path(0), path(1)]);
}

#[test]
fn revoking_undoes_adding_a_temporary() {
    let mut s = scope();
    add_clean(&mut s, ValueRef(1), TyId(7), true, false);
    let before = s.cleanups.clone();
    add_clean_temp_immediate(&mut s, ValueRef(3), TyId(8), true, true);
    revoke_clean(&mut s, ValueRef(3));
    assert_eq!(s.cleanups, before);
}

#[test]
fn block_cleanups_of_scopes_only() {
    let mut s = scope();
    add_clean(&mut s, ValueRef(1), TyId(7), true, false);
    let expected = s.cleanups.clone();
    assert_eq!(block_cleanups(&block_kind::block_scope(s)), expected);
    assert_eq!(block_cleanups(&block_kind::block_non_scope), vec![]);
}

#[test]
fn paths_are_joined_by_double_colons() {
    let p = vec![
        path_elt::path_mod("std".to_string()),
        path_elt::path_mod("vec".to_string()),
        path_elt::path_name("push".to_string()),
    ];
    assert_eq!(path_str(&p), "std::vec::push");
    assert_eq!(path_str(&vec![path_elt::path_name("main".to_string())]), "main");
    assert_eq!(path_str(&Vec::new()), "");
}
