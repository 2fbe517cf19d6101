use ui_commands::hierarchy::{
    entity_label_of, entity_label_text, hierarchy_well_formed, log_hierarchy_lines, padding_text, shown_component_names,
    simple_component_name, ComponentEntry, EntityCommandsNamedExt, HierarchyNode, LogHierarchy,
};

fn bits(index: u32, generation: u32) -> u64 {
    ((generation as u64) << 32) | index as u64
}

fn node(index: u32, generation: u32, children: Vec<HierarchyNode>) -> HierarchyNode {
    HierarchyNode {
        entity: bits(index, generation),
        name: None,
        components: vec![ComponentEntry {
            full_name: "bevy_ui::node::Node".to_string(),
            shown: true,
        }],
        children,
    }
}

#[test]
fn log_hierarchy_output_example() {
    let tree = node(
        254,
        2,
        vec![
            node(
                252,
                2,
                vec![node(
                    158,
                    2,
                    vec![node(159, 2, vec![node(286, 1, vec![])]), node(287, 1, vec![])],
                )],
            ),
            node(292, 1, vec![]),
        ],
    );
    let lines = log_hierarchy_lines(&tree);
    let expected = vec![
        "╚══ Entity 254v2:",
        "    ║      └── Node",
        "    ╠══ Entity 252v2:",
        "    ║   ║      └── Node",
        "    ║   ╚══ Entity 158v2:",
        "    ║       ║      └── Node",
        "    ║       ╠══ Entity 159v2:",
        "    ║       ║   ║      └── Node",
        "    ║       ║   ╚══ Entity 286v1:",
        "    ║       ║              └── Node",
        "    ║       ╚══ Entity 287v1:",
        "    ║                  └── Node",
        "    ╚══ Entity 292v1:",
        "               └── Node",
    ];
    assert_eq!(lines, expected);
}

#[test]
fn log_hierarchy_line_count_matches_entities_and_shown_components() {
    let mut root = node(1, 1, vec![node(2, 1, vec![]), node(3, 1, vec![node(4, 1, vec![])])]);
    root.components.push(ComponentEntry { full_name: "my::Hidden".to_string(), shown: false });
    root.components.push(ComponentEntry { full_name: "my::Shown".to_string(), shown: true });
    let lines = log_hierarchy_lines(&root);
    // 4 entities, 4 `Node` components and one more shown component.
    assert_eq!(lines.len(), 9);
    assert_eq!(lines[1], "    ║      ├── Node");
    assert_eq!(lines[2], "    ║      └── Shown");
    assert!(lines.iter().all(|l| !l.contains("Hidden")));
}

#[test]
fn log_hierarchy_entity_without_components_or_children() {
    let root = HierarchyNode { entity: bits(7, 3), name: None, components: vec![], children: vec![] };
    assert_eq!(log_hierarchy_lines(&root), vec!["╚══ Entity 7v3:"]);
}

#[test]
fn log_hierarchy_named_entity() {
    let mut root = node(5, 1, vec![]);
    root.named("Button".to_string());
    let lines = log_hierarchy_lines(&root);
    assert_eq!(lines[0], "╚══ [5v1] Button:");
    assert_eq!(lines[1], "           └── Node");
}

#[test]
fn log_hierarchy_subtree_command_indents_and_traces() {
    // An entity at depth 2 that is not the last child, under an ancestor
    // at depth 0 that still has siblings to come.
    let cmd = LogHierarchy { level: 2, is_last: false, trace_levels: vec![0] };
    let mut out = Vec::new();
    cmd.apply(&node(9, 1, vec![node(10, 1, vec![])]), &mut out);
    assert_eq!(
        out,
        vec![
            "    ║   ╠══ Entity 9v1:",
            "    ║   ║   ║      └── Node",
            "    ║       ╚══ Entity 10v1:",
            "    ║                  └── Node",
        ]
    );
}

#[test]
fn log_hierarchy_new_is_root_command() {
    let cmd = LogHierarchy::new();
    assert_eq!(cmd.level, 0);
    assert!(cmd.is_last);
    assert!(cmd.trace_levels.is_empty());
}

#[test]
fn padding_follows_traced_levels() {
    assert_eq!(padding_text(0, &vec![]), "");
    assert_eq!(padding_text(1, &vec![0]), "    ");
    assert_eq!(padding_text(3, &vec![0, 2]), "      ║     ");
    assert_eq!(padding_text(4, &vec![0, 2]), "      ║       ║ ");
}

#[test]
fn simple_names_of_components() {
    assert_eq!(simple_component_name("bevy_ui::node::Node"), "Node");
    assert_eq!(simple_component_name("Plain"), "Plain");
    assert_eq!(simple_component_name("a::Foo<b::Bar>"), "Foo<Bar>");
    assert_eq!(simple_component_name("bevy::Foo<bevy::Bar<baz::Qux>>"), "Foo<Bar");
    assert_eq!(simple_component_name("a:::b"), ":b");
    assert_eq!(simple_component_name("x::"), "");
    assert_eq!(simple_component_name("<T>"), "<T>");
}

#[test]
fn shown_names_keep_filtered_components_in_order() {
    let comps = vec![
        ComponentEntry { full_name: "a::First".to_string(), shown: true },
        ComponentEntry { full_name: "a::Second".to_string(), shown: false },
        ComponentEntry { full_name: "a::Third<b::T>".to_string(), shown: true },
    ];
    assert_eq!(shown_component_names(&comps), vec!["First", "Third<T>"]);
}

#[test]
fn entity_labels() {
    assert_eq!(entity_label_text("3v1", &None), "Entity 3v1");
    assert_eq!(entity_label_text("3v1", &Some("Panel".to_string())), "[3v1] Panel");
    assert_eq!(entity_label_of(bits(254, 2), &None), "Entity 254v2");
    assert_eq!(entity_label_of(bits(0, 1), &Some("Root".to_string())), "[0v1] Root");
}

#[test]
fn named_sets_only_the_name() {
    let mut n = node(1, 1, vec![node(2, 1, vec![])]);
    n.named("A".to_string()).named("B".to_string());
    assert_eq!(n.name, Some("B".to_string()));
    assert_eq!(n.entity, bits(1, 1));
    assert_eq!(n.children.len(), 1);
    assert_eq!(n.components.len(), 1);
}

#[test]
fn well_formed_hierarchies() {
    assert!(hierarchy_well_formed(&node(1, 1, vec![node(2, 1, vec![])])));
    // A zero generation is no valid entity identifier.
    assert!(!hierarchy_well_formed(&node(1, 1, vec![node(2, 0, vec![])])));
    let mut placeholder = node(3, 1, vec![]);
    placeholder.entity |= 1u64 << 63;
    assert!(!hierarchy_well_formed(&placeholder));
}

#[test]
fn entity_labels_are_decimal_index_and_generation() {
    assert_eq!(entity_label_of(bits(0, 1), &None), "Entity 0v1");
    assert_eq!(entity_label_of(bits(4294967295, 2147483647), &None), "Entity 4294967295v2147483647");
    assert_eq!(entity_label_of(bits(10, 10), &None), "Entity 10v10");
}
