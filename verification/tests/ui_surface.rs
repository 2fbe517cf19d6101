use ui_commands::ui_surface::ResetChildrenInUiSurface;

#[test]
fn children_are_handed_over_in_order() {
    let children = vec![3u64, 1, 2];
    assert_eq!(ResetChildrenInUiSurface.children_update(Some(&children)), Some(vec![3, 1, 2]));
}

#[test]
fn entity_without_children_component_hands_nothing_over() {
    assert_eq!(ResetChildrenInUiSurface.children_update(None), None);
}
