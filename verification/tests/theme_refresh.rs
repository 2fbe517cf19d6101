use ui_commands::theme_refresh::{
    plan_theme_refresh, refresh_style_update, select_pseudo_themes, style_update, theme_application_order, PseudoThemeFacts, StyleUpdate,
    ThemeSource,
};

fn base() -> PseudoThemeFacts {
    PseudoThemeFacts { is_base: true, match_count: 0 }
}

fn matching(n: usize) -> PseudoThemeFacts {
    PseudoThemeFacts { is_base: false, match_count: n }
}

#[test]
fn themes_apply_from_default_to_own() {
    let order = theme_application_order(true, &vec![false, true, true], true);
    assert_eq!(
        order,
        Some(vec![
            ThemeSource::Default,
            ThemeSource::Ancestor(2),
            ThemeSource::Ancestor(1),
            ThemeSource::Own,
        ])
    );
}

#[test]
fn only_default_theme() {
    assert_eq!(
        theme_application_order(false, &vec![false, false], true),
        Some(vec![ThemeSource::Default])
    );
}

#[test]
fn only_ancestor_themes() {
    assert_eq!(
        theme_application_order(false, &vec![true, false, true], false),
        Some(vec![ThemeSource::Ancestor(2), ThemeSource::Ancestor(0)])
    );
}

#[test]
fn missing_theme_changes_nothing() {
    assert_eq!(theme_application_order(false, &vec![false, false], false), None);
    assert_eq!(theme_application_order(false, &vec![], false), None);
}

#[test]
fn pseudo_themes_merge_base_first_then_by_specificity() {
    let themes = vec![
        vec![base(), matching(1), matching(2)],
        vec![matching(0), base(), base()],
        vec![matching(2), matching(1)],
    ];
    assert_eq!(
        select_pseudo_themes(&themes, 2),
        vec![(0, 0), (1, 1), (0, 1), (2, 1), (0, 2), (2, 0)]
    );
}

#[test]
fn pseudo_themes_without_states_are_base_only() {
    let themes = vec![vec![matching(1), base()], vec![matching(1)]];
    assert_eq!(select_pseudo_themes(&themes, 0), vec![(0, 1)]);
}

#[test]
fn pseudo_themes_more_specific_than_the_entity_are_skipped() {
    let themes = vec![vec![matching(3), matching(1)]];
    assert_eq!(select_pseudo_themes(&themes, 2), vec![(0, 1)]);
    assert_eq!(select_pseudo_themes(&vec![], 3), vec![]);
}

#[test]
fn style_update_decisions() {
    assert_eq!(style_update(false, true, true, false, false), StyleUpdate::RemoveStyle);
    assert_eq!(
        style_update(true, false, false, false, false),
        StyleUpdate::InsertStyle { insert_interaction: false, insert_tracked_interaction: false }
    );
    assert_eq!(
        style_update(true, true, false, false, true),
        StyleUpdate::InsertStyle { insert_interaction: true, insert_tracked_interaction: false }
    );
    assert_eq!(
        style_update(true, false, true, true, false),
        StyleUpdate::InsertStyle { insert_interaction: false, insert_tracked_interaction: true }
    );
    assert_eq!(
        style_update(true, true, true, true, true),
        StyleUpdate::InsertStyle { insert_interaction: false, insert_tracked_interaction: false }
    );
}

#[test]
fn refresh_plan_maps_selection_to_theme_sources() {
    let own = Some(vec![matching(1), base()]);
    let ancestors = vec![None, Some(vec![base(), matching(2)])];
    let default = Some(vec![base(), matching(1)]);
    let plan = plan_theme_refresh(&own, &ancestors, &default, 2);
    assert_eq!(
        plan,
        Some(vec![
            (ThemeSource::Default, 0),
            (ThemeSource::Ancestor(1), 0),
            (ThemeSource::Own, 1),
            (ThemeSource::Default, 1),
            (ThemeSource::Own, 0),
            (ThemeSource::Ancestor(1), 1),
        ])
    );
}

#[test]
fn refresh_plan_without_any_theme() {
    assert_eq!(plan_theme_refresh(&None, &vec![None, None], &None, 1), None);
}

#[test]
fn refresh_plan_with_nothing_selected_removes_style() {
    let plan = plan_theme_refresh(&Some(vec![matching(3)]), &vec![], &None, 1).unwrap();
    assert!(plan.is_empty());
    assert_eq!(refresh_style_update(&plan, true, false, false, false), StyleUpdate::RemoveStyle);
    let plan = plan_theme_refresh(&Some(vec![base()]), &vec![], &None, 0).unwrap();
    assert_eq!(
        refresh_style_update(&plan, true, false, false, true),
        StyleUpdate::InsertStyle { insert_interaction: true, insert_tracked_interaction: false }
    );
}
