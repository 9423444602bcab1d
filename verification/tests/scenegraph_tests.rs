use scenegraph::Node;
use scenegraph::SceneGraph;
use std::cell::RefCell;

fn id_string(id: u128) -> String {
    format!("{:032x}", id)
}

fn graph_json(g: &SceneGraph) -> serde_json::Value {
    let mut nodes = Vec::new();
    for n in g.to_nodes() {
        let mut obj = serde_json::Map::new();
        obj.insert(
            "instanceid".to_string(),
            serde_json::Value::String(id_string(n.instanceid)),
        );
        obj.insert(
            "parentid".to_string(),
            match n.parentid {
                Some(p) => serde_json::Value::String(id_string(p)),
                None => serde_json::Value::Null,
            },
        );
        obj.insert(
            "childs".to_string(),
            serde_json::Value::Array(
                n.childs
                    .iter()
                    .map(|c| serde_json::Value::String(id_string(*c)))
                    .collect(),
            ),
        );
        nodes.push(serde_json::Value::Object(obj));
    }
    let mut top = serde_json::Map::new();
    top.insert("nodes".to_string(), serde_json::Value::Array(nodes));
    top.insert(
        "root".to_string(),
        serde_json::Value::String(id_string(g.get_root_id())),
    );
    serde_json::Value::Object(top)
}

fn graph_from_json(v: &serde_json::Value) -> Option<SceneGraph> {
    let top = v.as_object()?;
    let root = u128::from_str_radix(top.get("root")?.as_str()?, 16).ok()?;
    let mut nodes = Vec::new();
    for nv in top.get("nodes")?.as_array()? {
        let o = nv.as_object()?;
        let instanceid = u128::from_str_radix(o.get("instanceid")?.as_str()?, 16).ok()?;
        let parentid = match o.get("parentid")? {
            serde_json::Value::Null => None,
            other => Some(u128::from_str_radix(other.as_str()?, 16).ok()?),
        };
        let mut childs = Vec::new();
        for c in o.get("childs")?.as_array()? {
            childs.push(u128::from_str_radix(c.as_str()?, 16).ok()?);
        }
        nodes.push(Node {
            instanceid,
            parentid,
            childs,
        });
    }
    SceneGraph::from_nodes(&nodes, root)
}

#[test]
fn scene_graph_test() {
    let mut scenegraph = SceneGraph::default();
    let id_1 = scenegraph.create_node();
    scenegraph.set_parent_root(id_1);
    let id_2 = scenegraph.create_node();
    scenegraph.set_parent(id_2, id_1);
    let id_30 = scenegraph.create_node();
    scenegraph.set_parent(id_30, id_2);
    let id_31 = scenegraph.create_node();
    scenegraph.set_parent(id_31, id_2);
    assert_eq!(1, scenegraph.get_sibling_index(id_31).unwrap());
    scenegraph.change_sibling_index(0, id_31);
    assert_eq!(0, scenegraph.get_sibling_index(id_31).unwrap());
    assert_eq!(2, scenegraph.get_childs(id_2).unwrap().len());
    {
        let node_2 = scenegraph.get(id_2).unwrap();
        assert_eq!(node_2.childs.len(), 2);
    }
    {
        if let Some(childs_list) = scenegraph.get_childs(id_1) {
            for id in childs_list {
                assert_eq!(*id, id_2);
            }
        }
    }
    scenegraph.delete_node_recursive_call(id_30, &|_id: u128| {});
    {
        let node_2 = scenegraph.get(id_2).unwrap();
        assert_eq!(node_2.childs.len(), 1);
    }
    scenegraph.delete_node_recursive(id_2);
    let json_enc = serde_json::to_string(&graph_json(&scenegraph)).ok();
    println!("{}", json_enc.unwrap());
    assert_eq!(scenegraph.node_count(), 2); // the root and id_1 remain
}

#[test]
fn create_and_query() {
    let mut g = SceneGraph::default();
    let root = g.get_root_id();
    {
        let rn = g.get_root().unwrap();
        assert_eq!(rn.instanceid, root);
        assert_eq!(rn.parentid, None);
        assert!(rn.childs.is_empty());
    }
    let a = g.create_node();
    assert!(g.get(a).is_some());
    assert_eq!(g.get_parent_id(a), None);
    assert_eq!(g.child_len(a), 0);
    assert_eq!(g.get_sibling_index(a), None);
    assert!(g.get_siblings(a).is_none());
    g.set_parent_root(a);
    assert_eq!(g.get_parent_id(a), Some(root));
    assert_eq!(*g.get_childs(root).unwrap(), vec![a]);
    assert_eq!(*g.get_siblings(a).unwrap(), vec![a]);
    assert_eq!(g.get_sibling_index(a), Some(0));
    assert_eq!(g.get_mut_sibling_index(a), Some(0));
    let b = g.create_node();
    g.set_parent(b, root);
    assert_eq!(*g.get_childs(root).unwrap(), vec![a, b]);
    // re-attaching an already attached node moves it to the end
    g.set_parent(a, root);
    assert_eq!(*g.get_childs(root).unwrap(), vec![b, a]);
    assert_eq!(g.child_len(root), 2);
}

#[test]
fn recursive_delete_removes_exactly_subtree() {
    let mut g = SceneGraph::default();
    let root = g.get_root_id();
    let a = g.create_node();
    g.set_parent_root(a);
    let b = g.create_node();
    g.set_parent(b, a);
    let c = g.create_node();
    g.set_parent(c, a);
    assert_eq!(g.node_count(), 4);
    g.delete_node_recursive(a);
    assert_eq!(g.node_count(), 1);
    assert!(g.get(a).is_none());
    assert!(g.get(b).is_none());
    assert!(g.get(c).is_none());
    assert!(g.get_childs(root).unwrap().is_empty());
}

#[test]
fn non_recursive_delete_orphans_children() {
    let mut g = SceneGraph::default();
    let root = g.get_root_id();
    let a = g.create_node();
    g.set_parent_root(a);
    let b = g.create_node();
    g.set_parent(b, a);
    g.delete_node(a);
    assert!(g.get(a).is_none());
    // the child stays behind, with its stale parent link
    assert!(g.get(b).is_some());
    assert_eq!(g.get_parent_id(b), Some(a));
    assert!(g.get_childs(root).unwrap().is_empty());
    // no surviving node lists the orphan as a child
    for n in g.to_nodes() {
        assert!(!n.childs.contains(&b));
    }
}

#[test]
fn sibling_reorder_yields_expected_order() {
    let mut g = SceneGraph::default();
    let p = g.create_node();
    g.set_parent_root(p);
    let x = g.create_node();
    g.set_parent(x, p);
    let y = g.create_node();
    g.set_parent(y, p);
    let z = g.create_node();
    g.set_parent(z, p);
    assert_eq!(g.get_sibling_index(y), Some(1));
    g.change_sibling_index(0, z);
    assert_eq!(*g.get_childs(p).unwrap(), vec![z, x, y]);
    assert_eq!(g.get_sibling_index(z), Some(0));
    // an index past the end appends
    g.change_sibling_index(17, z);
    assert_eq!(*g.get_childs(p).unwrap(), vec![x, y, z]);
}

#[test]
fn callback_fires_once_per_node_descendants_first() {
    let mut g = SceneGraph::default();
    let a = g.create_node();
    g.set_parent_root(a);
    let b = g.create_node();
    g.set_parent(b, a);
    let c = g.create_node();
    g.set_parent(c, a);
    let d = g.create_node();
    g.set_parent(d, b);
    let seen: RefCell<Vec<u128>> = RefCell::new(Vec::new());
    g.delete_node_recursive_call(a, &|id: u128| seen.borrow_mut().push(id));
    let seen = seen.into_inner();
    // each node exactly once, descendants strictly before their ancestors
    assert_eq!(seen, vec![d, b, c, a]);
    assert_eq!(g.node_count(), 1);
}

#[test]
fn delete_subtree_postorder_lists_deletion_order() {
    let mut g = SceneGraph::default();
    let a = g.create_node();
    g.set_parent_root(a);
    let b = g.create_node();
    g.set_parent(b, a);
    let c = g.create_node();
    g.set_parent(c, b);
    let order = g.delete_subtree_postorder(a);
    assert_eq!(order, vec![c, b, a]);
    assert_eq!(g.node_count(), 1);
}

#[test]
fn delete_call_invokes_hook_before_removal() {
    let mut g = SceneGraph::default();
    let a = g.create_node();
    g.set_parent_root(a);
    let seen: RefCell<Vec<u128>> = RefCell::new(Vec::new());
    g.delete_node_call(a, &|id: u128| seen.borrow_mut().push(id));
    assert_eq!(seen.into_inner(), vec![a]);
    assert!(g.get(a).is_none());
    // the hook does not fire for an unknown id: nothing is deleted
    let mut other = SceneGraph::default();
    let stranger = other.create_node();
    let seen2: RefCell<Vec<u128>> = RefCell::new(Vec::new());
    g.delete_node_call(stranger, &|id: u128| seen2.borrow_mut().push(id));
    assert_eq!(seen2.into_inner(), Vec::<u128>::new());
}

#[test]
fn unknown_ids_are_tolerated() {
    let mut g = SceneGraph::default();
    let root = g.get_root_id();
    let mut other = SceneGraph::default();
    let stranger = other.create_node();
    let count = g.node_count();
    assert!(g.get(stranger).is_none());
    assert_eq!(g.get_parent_id(stranger), None);
    assert!(g.get_childs(stranger).is_none());
    assert!(g.get_siblings(stranger).is_none());
    assert_eq!(g.get_sibling_index(stranger), None);
    assert_eq!(g.get_mut_sibling_index(stranger), None);
    assert_eq!(g.child_len(stranger), 0);
    g.remove_parent(stranger);
    g.set_parent_root(stranger);
    g.set_parent(stranger, root);
    g.change_sibling_index(3, stranger);
    g.delete_node(stranger);
    g.delete_node_recursive(stranger);
    g.delete_node_recursive_call(stranger, &|_id: u128| {});
    assert_eq!(g.node_count(), count);
    assert_eq!(g.child_len(root), 0);
    assert!(g.get_root().is_some());
}

#[test]
fn round_trip_preserves_structure() {
    let mut g = SceneGraph::default();
    let a = g.create_node();
    g.set_parent_root(a);
    let b = g.create_node();
    g.set_parent(b, a);
    let c = g.create_node();
    g.set_parent(c, a);
    g.change_sibling_index(0, c);
    let encoded = serde_json::to_string(&graph_json(&g)).unwrap();
    let decoded: serde_json::Value = serde_json::from_str(&encoded).unwrap();
    let g2 = graph_from_json(&decoded).expect("a serialized store must decode");
    assert_eq!(g2.get_root_id(), g.get_root_id());
    assert_eq!(g2.node_count(), g.node_count());
    for n in g.to_nodes() {
        let m = g2.get(n.instanceid).unwrap();
        assert_eq!(m.instanceid, n.instanceid);
        assert_eq!(m.parentid, n.parentid);
        assert_eq!(m.childs, n.childs);
    }
    assert_eq!(*g2.get_childs(a).unwrap(), vec![c, b]);
}

#[test]
fn from_nodes_accepts_only_well_formed_input() {
    // a valid two-node store decodes
    let ok = SceneGraph::from_nodes(
        &vec![
            Node {
                instanceid: 1,
                parentid: None,
                childs: vec![2],
            },
            Node {
                instanceid: 2,
                parentid: Some(1),
                childs: vec![],
            },
        ],
        1,
    );
    let g = ok.expect("well-formed input must decode");
    assert_eq!(g.get_root_id(), 1);
    assert_eq!(g.child_len(1), 1);
    assert_eq!(g.get_parent_id(2), Some(1));
    // duplicate identifiers are rejected
    assert!(SceneGraph::from_nodes(
        &vec![
            Node {
                instanceid: 1,
                parentid: None,
                childs: vec![],
            },
            Node {
                instanceid: 1,
                parentid: None,
                childs: vec![],
            },
        ],
        1,
    )
    .is_none());
    // the root must be present
    assert!(SceneGraph::from_nodes(
        &vec![Node {
            instanceid: 1,
            parentid: None,
            childs: vec![],
        }],
        2,
    )
    .is_none());
    // the root must have no parent
    assert!(SceneGraph::from_nodes(
        &vec![Node {
            instanceid: 1,
            parentid: Some(5),
            childs: vec![],
        }],
        1,
    )
    .is_none());
    // child entries must exist
    assert!(SceneGraph::from_nodes(
        &vec![Node {
            instanceid: 1,
            parentid: None,
            childs: vec![7],
        }],
        1,
    )
    .is_none());
    // child entries must point back at their parent
    assert!(SceneGraph::from_nodes(
        &vec![
            Node {
                instanceid: 1,
                parentid: None,
                childs: vec![2],
            },
            Node {
                instanceid: 2,
                parentid: None,
                childs: vec![],
            },
        ],
        1,
    )
    .is_none());
    // no child may be listed twice
    assert!(SceneGraph::from_nodes(
        &vec![
            Node {
                instanceid: 1,
                parentid: None,
                childs: vec![2, 2],
            },
            Node {
                instanceid: 2,
                parentid: Some(1),
                childs: vec![],
            },
        ],
        1,
    )
    .is_none());
}
