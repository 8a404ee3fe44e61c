use petgraph::Direction;
use rbt_model::description::{index_description, BuildError, JointKind, JointRecord};
use rbt_model::topology::{build_topology, check_traversal, KinematicTopology};

fn names(list: &[&str]) -> Vec<String> {
    list.iter().map(|s| s.to_string()).collect()
}

fn joint(name: &str, kind: JointKind, parent: &str, child: &str) -> JointRecord {
    JointRecord {
        name: name.to_string(),
        kind,
        parent: parent.to_string(),
        child: child.to_string(),
    }
}

/// hand <- wrist <- elbow <- base -> camera, and wrist -> tool; ids in the
/// order listed below.
fn arm() -> (Vec<String>, Vec<JointRecord>) {
    let links = names(&["tool", "hand", "base", "wrist", "camera", "elbow"]);
    let joints = vec![
        joint("j_hand", JointKind::Revolute, "wrist", "hand"),
        joint("j_elbow", JointKind::Revolute, "base", "elbow"),
        joint("j_tool", JointKind::Fixed, "wrist", "tool"),
        joint("j_wrist", JointKind::Prismatic, "elbow", "wrist"),
        joint("j_camera", JointKind::Fixed, "base", "camera"),
    ];
    (links, joints)
}

fn position_of(order: &[usize], id: usize) -> usize {
    order.iter().position(|&x| x == id).unwrap()
}

#[test]
fn example_two_links() {
    let links = names(&["base", "arm"]);
    let joints = vec![joint("j1", JointKind::Revolute, "base", "arm")];
    let t = build_topology(&links, &joints).unwrap();
    assert_eq!(t.root(), 0);
    assert_eq!(t.traversal_order(), &vec![0, 1]);
    assert_eq!(t.parent(1), Some(0));
    assert_eq!(t.parent(0), None);
    assert_eq!(t.joint(1), Some(0));
    assert_eq!(t.joint(0), None);
    assert_eq!(t.children(0), vec![1]);
    assert_eq!(t.leaves(), &vec![1]);
}

#[test]
fn index_ties_links_to_joints() {
    let (links, joints) = arm();
    let idx = index_description(&links, &joints).unwrap();
    assert_eq!(idx.root, 2);
    assert_eq!(idx.joint_of, vec![Some(2), Some(0), None, Some(3), Some(4), Some(1)]);
    assert_eq!(idx.parent_of, vec![Some(3), Some(3), None, Some(5), Some(2), Some(2)]);
}

#[test]
fn parents_come_first_in_traversal() {
    let (links, joints) = arm();
    let t = build_topology(&links, &joints).unwrap();
    let order = t.traversal_order().clone();
    assert_eq!(order.len(), 6);
    assert_eq!(order[0], 2);
    let mut sorted = order.clone();
    sorted.sort();
    assert_eq!(sorted, vec![0, 1, 2, 3, 4, 5]);
    for id in 0..6 {
        if let Some(p) = t.parent(id) {
            assert!(position_of(&order, p) < position_of(&order, id));
        }
    }
}

#[test]
fn children_and_leaves() {
    let (links, joints) = arm();
    let t = build_topology(&links, &joints).unwrap();
    assert_eq!(t.link_count(), 6);
    assert_eq!(t.children(2), vec![4, 5]);
    assert_eq!(t.children(3), vec![0, 1]);
    assert_eq!(t.children(5), vec![3]);
    assert_eq!(t.children(0), Vec::<usize>::new());
    assert_eq!(t.leaves(), &vec![0, 1, 4]);
}

#[test]
fn graph_has_single_source_at_root() {
    let (links, joints) = arm();
    let t: KinematicTopology = build_topology(&links, &joints).unwrap();
    assert_eq!(t.graph.node_count(), 6);
    assert_eq!(t.graph.edge_count(), 5);
    let sources: Vec<usize> = (0..6)
        .filter(|&v| t.graph.neighbors_directed(v, Direction::Incoming).count() == 0)
        .collect();
    assert_eq!(sources, vec![2]);
    assert!(t.graph.contains_edge(3, 1));
    assert!(t.graph.contains_edge(2, 5));
    assert!(!t.graph.contains_edge(1, 3));
}

#[test]
fn single_link_is_root_and_leaf() {
    let t = build_topology(&names(&["only"]), &vec![]).unwrap();
    assert_eq!(t.root(), 0);
    assert_eq!(t.traversal_order(), &vec![0]);
    assert_eq!(t.leaves(), &vec![0]);
}

#[test]
fn unknown_link_name_is_malformed() {
    let links = names(&["base", "arm"]);
    let joints = vec![joint("j1", JointKind::Revolute, "bse", "arm")];
    assert_eq!(build_topology(&links, &joints).err(), Some(BuildError::MalformedDescription));
    let joints = vec![joint("j1", JointKind::Revolute, "base", "hand")];
    assert_eq!(build_topology(&links, &joints).err(), Some(BuildError::MalformedDescription));
}

#[test]
fn two_parents_is_malformed() {
    let links = names(&["a", "b", "c"]);
    let joints = vec![
        joint("j1", JointKind::Fixed, "a", "c"),
        joint("j2", JointKind::Fixed, "b", "c"),
        joint("j3", JointKind::Fixed, "a", "b"),
    ];
    assert_eq!(build_topology(&links, &joints).err(), Some(BuildError::MalformedDescription));
}

#[test]
fn two_roots_is_malformed() {
    let links = names(&["a", "b", "c"]);
    let joints = vec![joint("j1", JointKind::Fixed, "a", "c")];
    assert_eq!(build_topology(&links, &joints).err(), Some(BuildError::MalformedDescription));
}

#[test]
fn no_root_is_malformed() {
    let links = names(&["a", "b"]);
    let joints = vec![
        joint("j1", JointKind::Fixed, "a", "b"),
        joint("j2", JointKind::Fixed, "b", "a"),
    ];
    assert_eq!(build_topology(&links, &joints).err(), Some(BuildError::MalformedDescription));
    assert_eq!(build_topology(&vec![], &vec![]).err(), Some(BuildError::MalformedDescription));
}

#[test]
fn duplicate_link_names_are_malformed() {
    let links = names(&["a", "b", "b"]);
    let joints = vec![joint("j1", JointKind::Fixed, "a", "b")];
    assert_eq!(index_description(&links, &joints).err(), Some(BuildError::MalformedDescription));
}

#[test]
fn cycle_beside_root_is_unreachable() {
    let links = names(&["r", "a", "b"]);
    let joints = vec![
        joint("j1", JointKind::Fixed, "a", "b"),
        joint("j2", JointKind::Fixed, "b", "a"),
    ];
    assert!(index_description(&links, &joints).is_ok());
    assert_eq!(build_topology(&links, &joints).err(), Some(BuildError::UnreachableLink));
}

#[test]
fn traversal_check_cases() {
    let parents = vec![None, Some(0), Some(1)];
    assert_eq!(check_traversal(&parents, 0, &vec![0, 1, 2]), Some(vec![0, 1, 2]));
    assert_eq!(check_traversal(&parents, 0, &vec![0, 2, 1]), None);
    assert_eq!(check_traversal(&parents, 0, &vec![0, 1]), None);
    assert_eq!(check_traversal(&parents, 0, &vec![0, 1, 1]), None);
    assert_eq!(check_traversal(&parents, 0, &vec![1, 0, 2]), None);
    let parents = vec![Some(2), None, Some(1)];
    assert_eq!(check_traversal(&parents, 1, &vec![1, 2, 0]), Some(vec![2, 0, 1]));
    assert_eq!(check_traversal(&parents, 1, &vec![1, 2, 3]), None);
}
