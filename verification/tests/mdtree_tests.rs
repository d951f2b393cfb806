use mdtree::{construct, pretty_print, GenTree, Heading, Node, StructureError};

#[test]
fn basic_function_test() {
    // Creates a tree with a default ROOT node
    let mut tree = GenTree::new();
    if let Some(h) = tree.get(&tree.root()) {
        assert_eq!(&h.title, "ROOT");
    } else {
        panic!("Data is None!");
    }

    // Builds a Heading that simulates an H2, stores it, and gets its handle
    let h2 = Heading::new("H2".to_string(), 2);
    let node_a = tree.store(Node::build(Some(h2)));

    // Adds a to root
    tree.add_child(tree.root(), Some(node_a));

    // Checks that add_child() assigns correct parent for the node
    assert_eq!(tree.root(), tree.parent(Some(node_a)).expect("No parent"));
    // Checks that the parent (ROOT) has exactly one child as the "a" node
    assert_eq!(tree._children(tree.root()), Some(&vec![node_a]));
    // Checks that the ROOT's children list _contains_ the "a" node
    assert!(tree
        ._children(tree.root())
        .unwrap()
        .iter()
        .any(|&item| item == node_a));

    // At this point there should be one node with one default ROOT node
    assert_eq!(tree.size, 2);

    // Builds a Heading that simulates an H3 and adds "b" to "a"
    let h3 = Heading::new("H3".to_string(), 3);
    let node_b = tree.store(Node::build(Some(h3)));
    tree.add_child(Some(node_a), Some(node_b));

    // Checks the tree's size, height, and depth of "b"
    // NOTE: size, height, and depth include the ROOT node
    assert_eq!(tree.size, 3);
    assert_eq!(tree._height(tree.root()), Some(3));
    assert_eq!(tree._depth(Some(node_b)), Some(3));
}

fn lorem_ipsum_headings() -> Vec<Heading> {
    vec![
        Heading::new("Landlocked".to_string(), 1),
        Heading::new("Switzerland".to_string(), 2),
        Heading::new("Geneva".to_string(), 3),
        Heading::new("Old Town".to_string(), 4),
        Heading::new("Cathédrale Saint-Pierre".to_string(), 5),
        Heading::new("Bolivia".to_string(), 2),
        Heading::new("Island".to_string(), 1),
        Heading::new("Marine".to_string(), 2),
        Heading::new("Australiae".to_string(), 3),
        Heading::new("Fresh Water".to_string(), 2),
    ]
}

#[test]
fn n_ary_algorithm_test() {
    let tree = construct(0, lorem_ipsum_headings()).unwrap();

    // Ten headings, no gaps: root plus one node per heading
    assert_eq!(tree.size, 11);

    // Storage order: 0 ROOT, 1 Landlocked, 2 Switzerland, 3 Geneva,
    // 4 Old Town, 5 Cathédrale, 6 Bolivia, 7 Island, 8 Marine,
    // 9 Australiae, 10 Fresh Water
    assert_eq!(tree._children(tree.root()), Some(&vec![1, 7]));
    assert_eq!(tree._children(Some(1)), Some(&vec![2, 6]));
    assert_eq!(tree._children(Some(2)), Some(&vec![3]));
    assert_eq!(tree._children(Some(7)), Some(&vec![8, 10]));
    assert_eq!(tree._children(Some(8)), Some(&vec![9]));

    // Checks the height of the whole tree: ROOT down to the H5
    assert_eq!(tree._height(tree.root()), Some(6));

    // Checks the depth of the H5
    assert_eq!(tree._depth(Some(5)), Some(6));

    // Empty doc test
    let empty = construct(0, Vec::new()).unwrap();
    assert_eq!(empty.size, 1);
    assert_eq!(
        pretty_print("Lorem Ipsum Test", &empty),
        "📄 Lorem Ipsum Test\n\t[]\n\n"
    );
}

#[test]
fn lorem_ipsum_render() {
    let tree = construct(0, lorem_ipsum_headings()).unwrap();
    let expected = "📄 Lorem Ipsum Test\n\t│\n\
                    \t├── Landlocked\n\
                    \t│   ├── Switzerland\n\
                    \t│   │   └── Geneva\n\
                    \t│   │       └── Old Town\n\
                    \t│   │           └── Cathédrale Saint-Pierre\n\
                    \t│   └── Bolivia\n\
                    \t└── Island\n\
                    \t    ├── Marine\n\
                    \t    │   └── Australiae\n\
                    \t    └── Fresh Water\n\n";
    assert_eq!(pretty_print("Lorem Ipsum Test", &tree), expected);
}

#[test]
fn scenario_flat_list() {
    let tree = construct(0, vec![Heading::new("Intro".to_string(), 1)]).unwrap();
    assert_eq!(tree.size, 2);
    assert_eq!(tree._children(tree.root()), Some(&vec![1]));
    assert_eq!(pretty_print("Doc", &tree), "📄 Doc\n\t│\n\t└── Intro\n\n");
}

#[test]
fn scenario_gap() {
    let headings = vec![
        Heading::new("A".to_string(), 1),
        Heading::new("B".to_string(), 3),
    ];
    let tree = construct(0, headings).unwrap();
    // Root -> A -> placeholder -> B
    assert_eq!(tree.size, 4);
    assert_eq!(tree._children(tree.root()), Some(&vec![1]));
    assert_eq!(tree._children(Some(1)), Some(&vec![2]));
    assert_eq!(tree._children(Some(2)), Some(&vec![3]));
    assert_eq!(tree.get(&Some(2)).unwrap().title, "[]");
    assert_eq!(tree.get(&Some(2)).unwrap().level, 0);
    assert_eq!(tree.get(&Some(3)).unwrap().title, "B");
    assert_eq!(
        pretty_print("Doc", &tree),
        "📄 Doc\n\t│\n\t└── A\n\t    └── []\n\t        └── B\n\n"
    );
}

#[test]
fn scenario_sibling_then_deeper() {
    let headings = vec![
        Heading::new("A".to_string(), 1),
        Heading::new("B".to_string(), 1),
        Heading::new("C".to_string(), 2),
    ];
    let tree = construct(0, headings).unwrap();
    // Root has children A, B in order; C is a child of B, not A
    assert_eq!(tree._children(tree.root()), Some(&vec![1, 2]));
    assert_eq!(tree._children(Some(1)), Some(&Vec::<usize>::new()));
    assert_eq!(tree._children(Some(2)), Some(&vec![3]));
    assert_eq!(
        pretty_print("Doc", &tree),
        "📄 Doc\n\t│\n\t├── A\n\t└── B\n\t    └── C\n\n"
    );
}

#[test]
fn scenario_drop() {
    let headings = vec![
        Heading::new("A".to_string(), 1),
        Heading::new("B".to_string(), 2),
        Heading::new("C".to_string(), 1),
    ];
    let tree = construct(0, headings).unwrap();
    // C attaches to root as a sibling of A, not under B
    assert_eq!(tree._children(tree.root()), Some(&vec![1, 3]));
    assert_eq!(tree._children(Some(1)), Some(&vec![2]));
    assert_eq!(tree._children(Some(3)), Some(&Vec::<usize>::new()));
    assert_eq!(
        pretty_print("Doc", &tree),
        "📄 Doc\n\t│\n\t├── A\n\t│   └── B\n\t└── C\n\n"
    );
}

#[test]
fn scenario_empty_list() {
    let tree = construct(3, Vec::new()).unwrap();
    assert_eq!(tree.size, 1);
    assert_eq!(tree._height(tree.root()), Some(1));
    assert_eq!(pretty_print("Doc", &tree), "📄 Doc\n\t[]\n\n");
}

#[test]
fn render_is_idempotent() {
    let tree = construct(0, lorem_ipsum_headings()).unwrap();
    let once = pretty_print("Same", &tree);
    let twice = pretty_print("Same", &tree);
    assert_eq!(once.as_bytes(), twice.as_bytes());
}

#[test]
fn structure_error_on_level_at_base() {
    // A heading at the base level would have to attach above the root
    assert!(matches!(
        construct(1, vec![Heading::new("A".to_string(), 1)]),
        Err(StructureError)
    ));
    // ... also when it comes after well-placed headings
    let headings = vec![
        Heading::new("A".to_string(), 2),
        Heading::new("B".to_string(), 1),
    ];
    assert!(matches!(construct(1, headings), Err(StructureError)));
    // A level-0 heading cannot hang below the default base either
    assert!(matches!(
        construct(0, vec![Heading::new("A".to_string(), 0)]),
        Err(StructureError)
    ));
}

#[test]
fn size_counts_real_headings_and_placeholders() {
    // One gap of two missing levels: 1 -> 4 inserts two placeholders
    let headings = vec![
        Heading::new("A".to_string(), 1),
        Heading::new("B".to_string(), 4),
        Heading::new("C".to_string(), 2),
    ];
    let tree = construct(0, headings).unwrap();
    assert_eq!(tree.size, 1 + 3 + 2);
}

#[test]
fn depth_steps_by_one_along_edges() {
    let tree = construct(0, lorem_ipsum_headings()).unwrap();
    assert_eq!(tree._depth(tree.root()), Some(1));
    for parent in 0..11usize {
        let d = tree._depth(Some(parent)).unwrap();
        for &child in tree._children(Some(parent)).unwrap() {
            assert_eq!(tree._depth(Some(child)), Some(d + 1));
        }
    }
}

#[test]
fn height_is_one_plus_tallest_child() {
    let tree = construct(0, lorem_ipsum_headings()).unwrap();
    for node in 0..11usize {
        let children = tree._children(Some(node)).unwrap().clone();
        let h = tree._height(Some(node)).unwrap();
        if children.is_empty() {
            assert_eq!(h, 1);
        } else {
            let tallest = children
                .iter()
                .map(|&c| tree._height(Some(c)).unwrap())
                .max()
                .unwrap();
            assert_eq!(h, 1 + tallest);
        }
    }
}

#[test]
fn round_trip_line_per_heading() {
    // No gaps, no drop below the base: one line per heading plus the name
    // line, the lead-in line and the closing blank line
    let headings = vec![
        Heading::new("One".to_string(), 1),
        Heading::new("Two".to_string(), 2),
        Heading::new("Three".to_string(), 2),
        Heading::new("Four".to_string(), 1),
    ];
    let n = headings.len();
    let tree = construct(0, headings).unwrap();
    let out = pretty_print("Doc", &tree);
    let lines: Vec<&str> = out.lines().collect();
    assert_eq!(lines.len(), 2 + n + 1);
    assert!(lines[2].ends_with("One"));
    assert!(lines[3].ends_with("Two"));
    assert!(lines[4].ends_with("Three"));
    assert!(lines[5].ends_with("Four"));
}

#[test]
fn no_op_attach_leaves_tree_unchanged() {
    let mut tree = GenTree::new();
    let n = tree.store(Node::build(Some(Heading::new("X".to_string(), 1))));
    tree.add_child(None, Some(n));
    assert_eq!(tree.size, 1);
    assert_eq!(tree._children(tree.root()), Some(&Vec::<usize>::new()));
}

#[test]
fn queries_on_absent_positions() {
    let tree = GenTree::new();
    assert!(tree.get(&None).is_none());
    assert!(tree.get(&Some(7)).is_none());
    assert!(tree.parent(None).is_none());
    assert!(tree.parent(Some(7)).is_none());
    assert_eq!(tree.parent(Some(0)), Some(None));
    assert!(tree._children(None).is_none());
    assert!(tree._is_root(Some(0)));
    assert!(!tree._is_root(None));
    assert!(tree._depth(None).is_none());
    assert!(tree._depth(Some(7)).is_none());
}

#[test]
fn placeholder_count_matches_gaps() {
    // Exercised through construct: levels 2 then 5 under base 0 need one
    // placeholder before the 2 and two more between 2 and 5
    let headings = vec![
        Heading::new("A".to_string(), 2),
        Heading::new("B".to_string(), 5),
    ];
    let tree = construct(0, headings).unwrap();
    assert_eq!(tree.size, 1 + 2 + 3);
}

#[test]
fn first_heading_gap_bridges_under_root() {
    // The very first heading already sits two levels down: bridging fires
    // immediately under the root
    let tree = construct(0, vec![Heading::new("X".to_string(), 2)]).unwrap();
    assert_eq!(tree.size, 3);
    assert_eq!(tree._children(tree.root()), Some(&vec![1]));
    assert_eq!(tree.get(&Some(1)).unwrap().title, "[]");
    assert_eq!(tree._children(Some(1)), Some(&vec![2]));
    assert_eq!(tree.get(&Some(2)).unwrap().title, "X");
    assert_eq!(
        pretty_print("Doc", &tree),
        "📄 Doc\n\t│\n\t└── []\n\t    └── X\n\n"
    );
}

#[test]
fn six_level_chain() {
    let headings: Vec<Heading> = (1..=6)
        .map(|lvl| Heading::new(format!("H{}", lvl), lvl))
        .collect();
    let tree = construct(0, headings).unwrap();
    assert_eq!(tree.size, 7);
    assert_eq!(tree._height(tree.root()), Some(7));
    assert_eq!(tree._depth(Some(6)), Some(7));
    for node in 1..6usize {
        assert_eq!(tree._children(Some(node)), Some(&vec![node + 1]));
    }
}
