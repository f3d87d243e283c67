use oktree::bounding::{Aabb, TUVec3, TUVec3u16, TUVec3u8, Unsigned};
use oktree::node::{Branch, NodeType};
use oktree::text::push_decimal;
use oktree::tree::Octree;
use oktree::{ElementId, NodeId, Position, TreeError, Volume};

#[derive(Debug, Clone, Copy, PartialEq)]
struct Tagged<U: Unsigned> {
    position: TUVec3<U>,
    tag: u32,
}

impl<U: Unsigned> Position for Tagged<U> {
    type U = U;
    fn spec_position(&self) -> TUVec3<U> {
        self.position
    }
    fn position(&self) -> TUVec3<U> {
        self.position
    }
}

#[derive(Debug, Clone, PartialEq)]
struct Block<U: Unsigned> {
    aabb: Aabb<U>,
}

impl<U: Unsigned> Volume for Block<U> {
    type U = U;
    fn spec_volume(&self) -> Aabb<U> {
        self.aabb
    }
    fn volume(&self) -> Aabb<U> {
        self.aabb
    }
}

fn block(min: u16, max: u16) -> Block<u16> {
    Block {
        aabb: Aabb::from_min_max(TUVec3::splat(min), TUVec3::splat(max)),
    }
}

#[test]
fn readme_scenario() {
    let aabb = Aabb::new(TUVec3::splat(16u8), 16u8).unwrap();
    let mut tree: Octree<u8, TUVec3u8> = Octree::from_aabb_with_capacity(aabb, 10);

    let c1_id = tree.insert(TUVec3::splat(1u8)).unwrap();
    let c2_id = tree.insert(TUVec3::splat(8u8)).unwrap();

    assert_eq!(tree.find(&TUVec3::new(1, 1, 1)), Some(c1_id));
    assert_eq!(tree.find(&TUVec3::new(8, 8, 8)), Some(c2_id));
    assert_eq!(tree.find(&TUVec3::new(1, 2, 8)), None);
    assert_eq!(tree.find(&TUVec3::splat(100)), None);

    assert_eq!(tree.remove(ElementId(0)), Ok(()));
    assert_eq!(tree.find(&TUVec3::new(1, 1, 1)), None);

    let c1_id = tree.insert(TUVec3::splat(1u8)).unwrap();
    assert_eq!(c1_id, ElementId(0));

    let query = Aabb::new(TUVec3::splat(2u8), 2u8).unwrap();
    assert_eq!(tree.intersect_with(|b| query.overlaps(b)), vec![c1_id]);
}

#[test]
fn insert_gives_first_id() {
    let mut tree = Octree::from_aabb(Aabb::new(TUVec3::splat(16), 16).unwrap());
    let c1 = TUVec3u8::new(1u8, 1, 1);
    let c1_id = tree.insert(c1).unwrap();
    assert_eq!(c1_id, ElementId(0));
}

#[test]
fn get_element_gives_inserted_value() {
    let mut tree = Octree::from_aabb_with_capacity(Aabb::new(TUVec3::splat(16), 16u16).unwrap(), 10);
    tree.insert(TUVec3u16::new(5, 5, 5)).unwrap();
    let element: &TUVec3u16 = tree.get_element(ElementId(0)).unwrap();
    assert_eq!(*element, TUVec3::new(5, 5, 5));
    assert_eq!(tree.get_element(ElementId(1)), None);
}

#[test]
fn aabb_new_checks_its_box() {
    assert_eq!(
        Aabb::new(TUVec3::splat(4u8), 0),
        Err(TreeError::NotPositive("center: (4, 4, 4), half size: 0".to_string()))
    );
    assert_eq!(
        Aabb::new(TUVec3::new(2u8, 8, 8), 4),
        Err(TreeError::NotPositive("center: (2, 8, 8), half size: 4".to_string()))
    );
    assert_eq!(
        Aabb::new(TUVec3::splat(8u8), 3),
        Err(TreeError::NotPower2("half size: 3".to_string()))
    );
    let a = Aabb::new(TUVec3::splat(8u8), 4).unwrap();
    assert_eq!(a.min, TUVec3::splat(4));
    assert_eq!(a.max, TUVec3::splat(12));
}

#[test]
fn texts_are_exact() {
    assert_eq!(
        TreeError::NotPower2("half size: 3".to_string()).to_text(),
        "All AABB dimensions should be the power of 2. half size: 3"
    );
    assert_eq!(
        TreeError::ElementNotFound("x".to_string()).to_text(),
        "Element not found. x"
    );
    assert_eq!(NodeId(42).to_text(), "NodeId 42");
    assert_eq!(ElementId(7).to_text(), "ElementId: 7");
    assert_eq!(TUVec3::new(1u16, 20, 300).to_text(), "(1, 20, 300)");
    assert_eq!(
        Aabb::from_min_max(TUVec3::splat(0u8), TUVec3::splat(32u8)).to_text(),
        "[(0, 0, 0), (32, 32, 32))"
    );

    let mut s = String::from("n=");
    push_decimal(&mut s, 0);
    assert_eq!(s, "n=0");
    let mut s = String::new();
    push_decimal(&mut s, u128::MAX);
    assert_eq!(s, "340282366920938463463374607431768211455");
}

#[test]
fn insert_outside_changes_nothing() {
    let mut tree: Octree<u8, TUVec3u8> = Octree::from_aabb(Aabb::new(TUVec3::splat(4u8), 4).unwrap());
    assert_eq!(
        tree.insert(TUVec3::splat(20u8)),
        Err(TreeError::OutOfTreeBounds(
            "[(20, 20, 20), (21, 21, 21)) is outside of aabb: min: (0, 0, 0) max: (8, 8, 8)".to_string()
        ))
    );
    assert_eq!(tree.len(), 0);
    assert_eq!(tree.nodes.len(), 1);
    assert_eq!(tree.elements.vec.len(), 0);
}

#[test]
fn remove_of_unknown_element_fails() {
    let mut tree: Octree<u8, TUVec3u8> = Octree::from_aabb(Aabb::new(TUVec3::splat(4u8), 4).unwrap());
    assert_eq!(
        tree.remove(ElementId(3)),
        Err(TreeError::ElementNotFound("Element with id: 3 not found".to_string()))
    );
    let id = tree.insert(TUVec3::splat(1u8)).unwrap();
    assert_eq!(tree.remove(id), Ok(()));
    assert_eq!(
        tree.remove(id),
        Err(TreeError::ElementNotFound("Element with id: 0 not found".to_string()))
    );
}

#[test]
fn overlapping_insert_is_refused() {
    let mut tree = Octree::from_aabb(Aabb::new(TUVec3::splat(16u16), 16).unwrap());
    let first = tree.insert(block(4, 8)).unwrap();
    assert_eq!(
        tree.insert(block(6, 10)),
        Err(TreeError::AlreadyOccupied(
            "Elements for volume: [(6, 6, 6), (10, 10, 10)) already exists".to_string()
        ))
    );
    assert_eq!(tree.len(), 1);
    assert_eq!(tree.find(&TUVec3::splat(7)), Some(first));
    assert_eq!(tree.find(&TUVec3::splat(9)), None);
}

#[test]
fn insert_then_find_then_remove() {
    let mut tree = Octree::from_aabb(Aabb::new(TUVec3::splat(16u16), 16).unwrap());
    let a = tree.insert(block(4, 8)).unwrap();
    for v in 0..32u16 {
        let p = TUVec3::new(v, 5, 6);
        let expected = if (4..8).contains(&v) { Some(a) } else { None };
        assert_eq!(tree.find(&p), expected);
    }

    let b = tree.insert(block(20, 24)).unwrap();
    assert_eq!(b, ElementId(1));
    for v in 0..32u16 {
        let p = TUVec3::splat(v);
        let expected = if (4..8).contains(&v) {
            Some(a)
        } else if (20..24).contains(&v) {
            Some(b)
        } else {
            None
        };
        assert_eq!(tree.find(&p), expected);
    }

    assert_eq!(tree.remove(a), Ok(()));
    for v in 0..32u16 {
        let p = TUVec3::splat(v);
        let expected = if (20..24).contains(&v) { Some(b) } else { None };
        assert_eq!(tree.find(&p), expected);
    }
    assert_eq!(tree.len(), 1);
}

#[test]
fn clear_empties_the_tree() {
    let mut tree: Octree<u8, TUVec3u8> = Octree::from_aabb(Aabb::new(TUVec3::splat(8u8), 8).unwrap());
    for i in 0..8u8 {
        tree.insert(TUVec3::splat(i)).unwrap();
    }
    assert_eq!(tree.len(), 8);
    tree.clear();
    assert_eq!(tree.len(), 0);
    assert!(tree.is_empty());
    assert_eq!(tree.nodes.len(), 1);
    for i in 0..8u8 {
        assert_eq!(tree.find(&TUVec3::splat(i)), None);
    }
    assert_eq!(tree.insert(TUVec3::splat(3u8)), Ok(ElementId(0)));
    assert_eq!(tree.find(&TUVec3::splat(3)), Some(ElementId(0)));

    let mut bare: Octree<u8, TUVec3u8> = Octree::with_capacity(4);
    bare.clear();
    assert_eq!(bare.nodes.len(), 1);
    assert!(bare.insert(TUVec3::splat(0u8)).is_err());
}

#[test]
fn removed_slots_are_reused_last_first() {
    let mut tree: Octree<u8, TUVec3u8> = Octree::from_aabb(Aabb::new(TUVec3::splat(8u8), 8).unwrap());
    for i in 0..3u8 {
        assert_eq!(tree.insert(TUVec3::splat(i)), Ok(ElementId(i as u32)));
    }
    assert_eq!(tree.remove(ElementId(0)), Ok(()));
    assert_eq!(tree.remove(ElementId(2)), Ok(()));
    assert_eq!(tree.elements.garbage_len(), 2);
    assert_eq!(tree.insert(TUVec3::splat(10u8)), Ok(ElementId(2)));
    assert_eq!(tree.insert(TUVec3::splat(11u8)), Ok(ElementId(0)));
    assert_eq!(tree.insert(TUVec3::splat(12u8)), Ok(ElementId(3)));
    assert_eq!(tree.elements.garbage_len(), 0);
}

#[test]
fn restore_garbage_brings_slots_back() {
    let mut tree: Octree<u8, TUVec3u8> = Octree::from_aabb(Aabb::new(TUVec3::splat(8u8), 8).unwrap());
    for i in 0..3u8 {
        tree.insert(TUVec3::splat(i * 4)).unwrap();
    }
    tree.remove(ElementId(0)).unwrap();
    tree.remove(ElementId(1)).unwrap();
    assert_eq!(tree.len(), 1);
    assert_eq!(tree.restore_garbage(), Ok(()));
    assert_eq!(tree.len(), 3);
    assert_eq!(tree.elements.garbage_len(), 0);
    assert_eq!(tree.get_element(ElementId(1)), Some(&TUVec3::splat(4)));
    assert_eq!(tree.find(&TUVec3::splat(0u8)), Some(ElementId(0)));
    assert_eq!(tree.find(&TUVec3::splat(4u8)), Some(ElementId(1)));
    assert_eq!(tree.find(&TUVec3::splat(8u8)), Some(ElementId(2)));
}

#[test]
fn get_element_mut_changes_the_element() {
    let mut tree = Octree::from_aabb(Aabb::new(TUVec3::splat(8u8), 8).unwrap());
    let id = tree
        .insert(Tagged {
            position: TUVec3::splat(3u8),
            tag: 1,
        })
        .unwrap();
    tree.get_element_mut(id).unwrap().tag = 9;
    assert_eq!(tree.get_element(id).unwrap().tag, 9);
    assert_eq!(tree.get(&TUVec3::splat(3)).unwrap().tag, 9);
    tree.get_mut(&TUVec3::splat(3)).unwrap().tag = 4;
    assert_eq!(tree.get_element(id).unwrap().tag, 4);
    assert!(tree.get_element_mut(ElementId(5)).is_none());
    assert!(tree.get_mut(&TUVec3::splat(6)).is_none());
}

#[test]
fn unit_aabb_stops_at_the_largest_value() {
    let b = TUVec3::new(255u8, 0, 3).unit_aabb();
    assert_eq!(b.min, TUVec3::new(255, 0, 3));
    assert_eq!(b.max, TUVec3::new(255, 1, 4));
}

#[test]
fn intersect_with_follows_its_predicate() {
    let mut tree = Octree::from_aabb(Aabb::new(TUVec3::splat(16u16), 16).unwrap());
    let a = tree.insert(block(4, 8)).unwrap();
    let b = tree.insert(block(20, 24)).unwrap();
    assert!(tree.intersect_with(|_| false).is_empty());

    let mut all = tree.intersect_with(|_| true);
    all.sort();
    all.dedup();
    assert_eq!(all, vec![a, b]);

    let query = Aabb::from_min_max(TUVec3::splat(0u16), TUVec3::splat(6u16));
    let mut hits = tree.intersect_with(|x| query.overlaps(x));
    hits.dedup();
    assert_eq!(hits, vec![a]);
}

#[test]
fn ids_convert() {
    assert_eq!(ElementId::from(NodeId(3)), ElementId(3));
    assert_eq!(usize::from(NodeId(5)), 5);
    assert_eq!(NodeId::from(7usize), NodeId(7));
    assert_eq!(usize::from(ElementId(8)), 8);
    assert_eq!(ElementId::from(9usize), ElementId(9));
}

#[test]
fn deep_split_collapses_back() {
    let mut tree: Octree<u16, TUVec3u16> = Octree::from_aabb(Aabb::new(TUVec3::splat(128u16), 128).unwrap());
    let a = tree.insert(TUVec3::splat(0u16)).unwrap();
    let b = tree.insert(TUVec3::splat(1u16)).unwrap();
    assert!(tree.nodes.len() > 8);
    assert_eq!(tree.find(&TUVec3::splat(0)), Some(a));
    assert_eq!(tree.find(&TUVec3::splat(1)), Some(b));
    assert_eq!(tree.remove(a), Ok(()));
    assert_eq!(tree.find(&TUVec3::splat(1)), Some(b));
    assert_eq!(tree.remove(b), Ok(()));
    assert_eq!(tree.nodes.len(), 1);
    assert_eq!(tree.find(&TUVec3::splat(1)), None);
}

#[test]
fn remove_undoes_insert_on_a_grid() {
    let mut tree = Octree::from_aabb(Aabb::new(TUVec3::splat(8u16), 8).unwrap());
    tree.insert(block(0, 2)).unwrap();
    tree.insert(block(10, 12)).unwrap();
    let mut before = Vec::new();
    for x in 0..16u16 {
        for y in 0..16u16 {
            before.push(tree.find(&TUVec3::new(x, y, x)));
        }
    }
    let id = tree.insert(block(4, 8)).unwrap();
    assert_eq!(tree.find(&TUVec3::new(5, 6, 7)), Some(id));
    assert_eq!(tree.remove(id), Ok(()));
    let mut k = 0;
    for x in 0..16u16 {
        for y in 0..16u16 {
            assert_eq!(tree.find(&TUVec3::new(x, y, x)), before[k]);
            k += 1;
        }
    }
}

#[test]
fn find_child_picks_the_child_holding_the_point() {
    let a = Aabb::new(TUVec3::splat(4u8), 4).unwrap();
    let center = a.center();
    let kids = a.split();
    let mut ids = [NodeId(0); 8];
    for (i, id) in ids.iter_mut().enumerate() {
        *id = NodeId(i as u32);
    }
    let branch = Branch::new(ids);
    for x in 0..8u8 {
        for y in 0..8u8 {
            for z in 0..8u8 {
                let p = TUVec3::new(x, y, z);
                let chosen = branch.find_child(&p, center).0 as usize;
                for (i, kid) in kids.iter().enumerate() {
                    assert_eq!(kid.contains(&p), i == chosen);
                }
            }
        }
    }
}

fn reference_walk(tree: &Octree<u16, TUVec3u16>, node: NodeId, out: &mut Vec<NodeId>) {
    let mut stack: Vec<NodeId> = Vec::new();
    stack.push(node);
    while let Some(n) = stack.pop() {
        match tree.nodes[n].ntype {
            NodeType::Branch(b) => {
                let mut iter = b.children.iter();
                while let Some(c) = iter.next() {
                    if stack.len() < 32 {
                        stack.push(*c);
                    } else {
                        reference_walk(tree, *c, out);
                        for c in iter.by_ref() {
                            reference_walk(tree, *c, out);
                        }
                    }
                }
            }
            _ => out.push(n),
        }
    }
}

#[test]
fn walk_visits_in_stack_order_past_a_full_stack() {
    let mut tree: Octree<u16, TUVec3u16> = Octree::from_aabb(Aabb::new(TUVec3::splat(16384u16), 16384).unwrap());
    tree.insert(TUVec3::splat(0u16)).unwrap();
    tree.insert(TUVec3::splat(1u16)).unwrap();
    tree.insert(TUVec3::new(20000u16, 3, 9)).unwrap();

    let mut reached = Vec::new();
    tree.walk_from(tree.root, &|_: &Aabb<u16>| true, &mut reached);
    let mut expected = Vec::new();
    reference_walk(&tree, tree.root, &mut expected);
    assert!(expected.len() > 100);
    assert_eq!(reached, expected);

    let leaves = tree
        .iter_nodes()
        .filter(|n| matches!(n.ntype, NodeType::Leaf(_)))
        .count();
    let reached_leaves = reached
        .iter()
        .filter(|id| matches!(tree.nodes[**id].ntype, NodeType::Leaf(_)))
        .count();
    assert_eq!(leaves, 3);
    assert_eq!(reached_leaves, 3);

    let mut none = Vec::new();
    tree.walk_from(tree.root, &|_: &Aabb<u16>| false, &mut none);
    assert!(none.is_empty());

    let low = Aabb::from_min_max(TUVec3::splat(0u16), TUVec3::splat(2u16));
    let mut near = Vec::new();
    tree.walk_from(tree.root, &|b: &Aabb<u16>| low.overlaps(b), &mut near);
    let found: Vec<ElementId> = near
        .iter()
        .filter_map(|id| match tree.nodes[*id].ntype {
            NodeType::Leaf(e) => Some(e),
            _ => None,
        })
        .collect();
    assert_eq!(found, vec![ElementId(2), ElementId(1), ElementId(0)]);
}

#[test]
fn into_iter_gives_the_live_elements_in_slot_order() {
    let mut tree: Octree<u8, TUVec3u8> = Octree::from_aabb(Aabb::new(TUVec3::splat(8u8), 8).unwrap());
    for i in 0..4u8 {
        tree.insert(TUVec3::splat(i * 3)).unwrap();
    }
    tree.remove(ElementId(1)).unwrap();
    let items: Vec<TUVec3u8> = tree.into_iter().collect();
    assert_eq!(
        items,
        vec![TUVec3::splat(0), TUVec3::splat(6), TUVec3::splat(9)]
    );
}

#[test]
fn boxed_and_shared_points_are_unit_cells() {
    let mut boxed: Octree<u8, Box<TUVec3u8>> = Octree::from_aabb(Aabb::new(TUVec3::splat(8u8), 8).unwrap());
    let id = boxed.insert(Box::new(TUVec3::splat(3u8))).unwrap();
    assert_eq!(boxed.find(&TUVec3::splat(3)), Some(id));
    assert_eq!(boxed.find(&TUVec3::splat(4)), None);

    let mut shared: Octree<u8, std::sync::Arc<TUVec3u8>> =
        Octree::from_aabb(Aabb::new(TUVec3::splat(8u8), 8).unwrap());
    let point = std::sync::Arc::new(TUVec3::new(2u8, 5, 7));
    let id = shared.insert(point.clone()).unwrap();
    assert_eq!(shared.find(&TUVec3::new(2, 5, 7)), Some(id));
    assert_eq!(point.volume().max, TUVec3::new(3, 6, 8));
}

#[test]
fn find_node_gives_the_leaf_of_the_element() {
    let mut tree: Octree<u8, TUVec3u8> = Octree::from_aabb(Aabb::new(TUVec3::splat(8u8), 8).unwrap());
    let a = tree.insert(TUVec3::splat(2u8)).unwrap();
    let b = tree.insert(TUVec3::splat(12u8)).unwrap();
    let na = tree.find_node(&TUVec3::splat(2)).unwrap();
    let nb = tree.find_node(&TUVec3::splat(12)).unwrap();
    assert_eq!(tree.nodes[na].ntype, NodeType::Leaf(a));
    assert_eq!(tree.nodes[nb].ntype, NodeType::Leaf(b));
    assert_eq!(tree.find_node(&TUVec3::splat(7)), None);
    assert_eq!(tree.rfind(na, &TUVec3::splat(2)), Some(a));
    assert_eq!(tree.rfind_node(tree.root, &TUVec3::splat(12)), Some(nb));
}

#[test]
fn intersect_sorted_gives_each_element_once_in_order() {
    let mut tree = Octree::from_aabb(Aabb::new(TUVec3::splat(16u16), 16).unwrap());
    let a = tree.insert(block(4, 12)).unwrap();
    let b = tree.insert(block(20, 24)).unwrap();
    let c = tree.insert(block(0, 2)).unwrap();
    let all = tree.intersect_with(|_| true);
    assert!(all.len() > 3);
    assert_eq!(tree.intersect_sorted(|_| true), vec![a, b, c]);
    let query = Aabb::from_min_max(TUVec3::splat(1u16), TUVec3::splat(6u16));
    assert_eq!(tree.intersect_sorted(|x| query.overlaps(x)), vec![a, c]);
    assert!(tree.intersect_sorted(|_| false).is_empty());
}

#[test]
fn removal_leaves_no_branch_of_empty_children() {
    let mut tree: Octree<u16, TUVec3u16> = Octree::from_aabb(Aabb::new(TUVec3::splat(64u16), 64).unwrap());
    let ids: Vec<ElementId> = (0..10u16)
        .map(|i| tree.insert(TUVec3::new(i * 7, i * 3, i)).unwrap())
        .collect();
    for id in ids.iter().rev() {
        assert_eq!(tree.remove(*id), Ok(()));
        for n in tree.iter_nodes() {
            if let NodeType::Branch(b) = n.ntype {
                assert!(b
                    .children
                    .iter()
                    .any(|c| !matches!(tree.nodes[*c].ntype, NodeType::Empty)));
            }
        }
    }
    assert_eq!(tree.nodes.len(), 1);
}

#[test]
fn get_element_reads_after_the_box_changed() {
    let mut tree = Octree::from_aabb(Aabb::new(TUVec3::splat(16u16), 16).unwrap());
    let id = tree.insert(block(4, 8)).unwrap();
    let garbage = tree.elements.garbage_len();
    let len = tree.elements.len();
    tree.get_element_mut(id).unwrap().aabb = Aabb::from_min_max(TUVec3::splat(1u16), TUVec3::splat(2u16));
    assert_eq!(tree.elements.garbage_len(), garbage);
    assert_eq!(tree.elements.len(), len);
    assert_eq!(tree.get_element(id).unwrap().aabb.max, TUVec3::splat(2));
}

#[test]
fn first_insert_into_an_empty_root_adds_no_node() {
    let mut tree: Octree<u8, TUVec3u8> = Octree::from_aabb(Aabb::new(TUVec3::splat(4u8), 4).unwrap());
    assert_eq!(tree.insert(TUVec3::splat(1u8)), Ok(ElementId(0)));
    assert_eq!(tree.nodes.len(), 1);
    assert_eq!(tree.nodes[NodeId(0)].ntype, NodeType::Leaf(ElementId(0)));
    assert_eq!(tree.insert(TUVec3::splat(7u8)), Ok(ElementId(1)));
    assert_eq!(tree.nodes.len(), 9);
}

#[test]
fn restore_garbage_rolls_back_a_removal() {
    let mut tree: Octree<u8, TUVec3u8> = Octree::from_aabb(Aabb::new(TUVec3::splat(16u8), 16).unwrap());
    assert_eq!(tree.insert(TUVec3::new(1u8, 1, 1)), Ok(ElementId(0)));
    assert_eq!(tree.remove(ElementId(0)), Ok(()));
    assert_eq!(tree.restore_garbage(), Ok(()));
    assert_eq!(tree.len(), 1);
    assert_eq!(tree.get_element(ElementId(0)), Some(&TUVec3::new(1, 1, 1)));
    assert_eq!(tree.find(&TUVec3::new(1, 1, 1)), Some(ElementId(0)));
}

#[test]
fn restore_garbage_stops_at_a_taken_place() {
    let mut tree: Octree<u8, TUVec3u8> = Octree::from_aabb(Aabb::new(TUVec3::splat(16u8), 16).unwrap());
    assert_eq!(tree.insert(TUVec3::new(1u8, 1, 1)), Ok(ElementId(0)));
    assert_eq!(tree.insert(TUVec3::new(9u8, 9, 9)), Ok(ElementId(1)));
    assert_eq!(tree.remove(ElementId(0)), Ok(()));
    assert_eq!(tree.insert(TUVec3::new(1u8, 1, 1)), Ok(ElementId(0)));
    assert_eq!(tree.remove(ElementId(1)), Ok(()));
    assert_eq!(tree.insert(TUVec3::new(1u8, 1, 1)).is_err(), true);
    assert_eq!(tree.elements.garbage_len(), 1);
    assert_eq!(tree.restore_garbage().is_err(), true);
    assert_eq!(tree.len(), 1);
    assert_eq!(tree.elements.garbage_len(), 1);
    assert_eq!(tree.get_element(ElementId(1)), None);
    assert_eq!(tree.find(&TUVec3::new(9u8, 9, 9)), None);
    assert_eq!(tree.find(&TUVec3::new(1u8, 1, 1)), Some(ElementId(0)));
}
