use oktree::bounding::{Aabb, TUVec3, Unsigned};
use oktree::node::NodeType;
use oktree::tree::Octree;
use oktree::{ElementId, NodeId, Position, Volume};
use rand::Rng;
use std::collections::HashSet;

const RANGE: usize = 65536;

#[derive(Debug, Clone, Copy, PartialEq)]
struct DummyCell<U: Unsigned> {
    position: TUVec3<U>,
    node: NodeId,
}

impl<U: Unsigned> Position for DummyCell<U> {
    type U = U;
    fn spec_position(&self) -> TUVec3<U> {
        self.position
    }
    fn position(&self) -> TUVec3<U> {
        self.position
    }
}

impl<U: Unsigned> DummyCell<U> {
    fn new(position: TUVec3<U>) -> Self {
        DummyCell {
            position,
            node: Default::default(),
        }
    }
}

#[derive(Debug, Clone, PartialEq, Eq, PartialOrd, Ord, Hash)]
struct DummyVolume<U: Unsigned> {
    aabb: Aabb<U>,
    node: NodeId,
}

impl<U: Unsigned> Volume for DummyVolume<U> {
    type U = U;
    fn spec_volume(&self) -> Aabb<U> {
        self.aabb
    }
    fn volume(&self) -> Aabb<U> {
        self.aabb
    }
}

impl<U: Unsigned> DummyVolume<U> {
    fn new(aabb: Aabb<U>) -> Self {
        Self {
            aabb,
            node: Default::default(),
        }
    }
}

#[test]
fn test_insert() {
    let mut tree = Octree::from_aabb(Aabb::new_unchecked(TUVec3::new(4, 4, 4), 4));

    assert_eq!(tree.elements.len(), 0);
    assert_eq!(tree.elements.garbage_len(), 0);

    assert_eq!(tree.nodes.len(), 1);
    assert_eq!(tree.nodes.garbage_len(), 0);

    assert_eq!(tree.nodes[0.into()].ntype, NodeType::Empty);
    assert_eq!(tree.nodes[0.into()].parent, None);

    let c1 = DummyCell::new(TUVec3::new(1u8, 1, 1));
    assert_eq!(tree.insert(c1), Ok(ElementId(0)));

    assert_eq!(tree.elements.len(), 1);
    assert_eq!(tree.elements.garbage_len(), 0);

    assert_eq!(tree.nodes.len(), 1);
    assert_eq!(tree.nodes.garbage_len(), 0);

    assert_eq!(tree.nodes[0.into()].ntype, NodeType::Leaf(0.into()));
    assert_eq!(tree.nodes[0.into()].parent, None);

    let c2 = DummyCell::new(TUVec3::new(7, 7, 7));
    assert_eq!(tree.insert(c2), Ok(ElementId(1)));

    assert_eq!(tree.elements.len(), 2);
    assert_eq!(tree.elements.garbage_len(), 0);

    assert_eq!(tree.nodes.len(), 9);
    assert_eq!(tree.nodes.garbage_len(), 0);

    assert_eq!(tree.nodes[0.into()].parent, None);

    assert_eq!(tree.nodes[1.into()].ntype, NodeType::Leaf(0.into()));
    assert_eq!(tree.nodes[1.into()].parent, Some(0.into()));
    assert_eq!(tree.nodes[8.into()].ntype, NodeType::Leaf(1.into()));
    assert_eq!(tree.nodes[8.into()].parent, Some(0.into()));
    for i in 2..8 {
        assert_eq!(tree.nodes[i.into()].ntype, NodeType::Empty);
    }
}

#[test]
fn test_remove() {
    let mut tree = Octree::from_aabb(Aabb::new_unchecked(TUVec3::new(8u16, 8, 8), 8));

    let c1 = DummyCell::new(TUVec3::new(1, 1, 1));
    assert_eq!(tree.insert(c1), Ok(ElementId(0)));
    let c2 = DummyCell::new(TUVec3::new(2, 2, 2));
    assert_eq!(tree.insert(c2), Ok(ElementId(1)));
    assert_eq!(tree.nodes[17.into()].ntype, NodeType::Leaf(0.into()));

    assert_eq!(tree.nodes.len(), 25);

    let c2r = DummyCell::new(TUVec3::new(1, 1, 1));
    assert!(tree.insert(c2r).is_err());
    assert_eq!(tree.find(&TUVec3::new(1, 1, 1)), Some(ElementId(0)));

    assert_eq!(tree.nodes.len(), 25);
    assert_eq!(tree.elements.len(), 2);

    tree.remove(0.into()).unwrap();

    assert_eq!(tree.elements.len(), 1);
    assert_eq!(tree.nodes.len(), 25);

    tree.remove(1.into()).unwrap();

    assert_eq!(tree.elements.len(), 0);
    assert_eq!(tree.nodes.len(), 1);

    assert_eq!(tree.nodes[0.into()].ntype, NodeType::Empty)
}

#[test]
fn test_insert_remove() {
    let mut tree = Octree::from_aabb(Aabb::new_unchecked(TUVec3::new(4u8, 4, 4), 4));

    let c1 = DummyCell::new(TUVec3::new(1, 1, 1));
    assert_eq!(tree.insert(c1), Ok(ElementId(0)));

    let c2 = DummyCell::new(TUVec3::new(2, 2, 1));
    assert_eq!(tree.insert(c2), Ok(ElementId(1)));

    let c3 = DummyCell::new(TUVec3::new(6, 6, 1));
    assert_eq!(tree.insert(c3), Ok(ElementId(2)));

    let c4 = DummyCell::new(TUVec3::new(7, 7, 1));
    assert_eq!(tree.insert(c4), Ok(ElementId(3)));

    let c5 = DummyCell::new(TUVec3::new(6, 7, 1));
    assert_eq!(tree.insert(c5), Ok(ElementId(4)));

    assert_eq!(tree.remove(0.into()), Ok(()));

    assert_eq!(tree.remove(1.into()), Ok(()));

    assert_eq!(tree.nodes[1.into()].ntype, NodeType::Empty);

    assert_eq!(tree.remove(2.into()), Ok(()));
    assert_eq!(tree.remove(3.into()), Ok(()));

    assert_eq!(tree.nodes[1.into()].ntype, NodeType::Empty);

    assert_eq!(tree.remove(4.into()), Ok(()));

    assert_eq!(tree.nodes[0.into()].ntype, NodeType::Empty);
    assert_eq!(tree.nodes.len(), 1);
    assert_eq!(tree.elements.len(), 0);
}

fn random_point() -> DummyCell<usize> {
    let mut rnd = rand::thread_rng();

    let x = rnd.gen_range(0..=RANGE);
    let y = rnd.gen_range(0..=RANGE);
    let z = rnd.gen_range(0..=RANGE);
    let position = TUVec3::new(x, y, z);
    DummyCell::new(position)
}

#[test]
fn test_65536() {
    let mut tree = Octree::from_aabb(Aabb::new_unchecked(TUVec3::splat(RANGE / 2), RANGE / 2));

    for _ in 0..RANGE {
        let p = random_point();
        let pos = p.position;
        if let Ok(e) = tree.insert(p) {
            assert_eq!(tree.find(&pos), Some(e));
        }
    }

    assert!(tree.elements.len() > (RANGE as f32 * 0.98) as usize);

    for element in 0..tree.len() {
        let e = ElementId(element as u32);
        let pos = tree.elements[e].position;
        assert_eq!(tree.find(&pos), Some(e));
        assert_eq!(tree.remove(element.into()), Ok(()));
        assert_eq!(tree.find(&pos), None);
    }

    assert_eq!(tree.elements.len(), 0);
    assert_eq!(tree.nodes.len(), 1);
}

#[test]
fn test_iterator() {
    let mut tree = Octree::from_aabb(Aabb::new_unchecked(TUVec3::splat(16), 16));

    for i in 0..16u32 {
        assert_eq!(
            tree.insert(DummyCell::new(TUVec3::splat(i))),
            Ok(ElementId(i))
        );
        assert_eq!(tree.elements.len(), (i + 1) as usize);
        assert_eq!(tree.elements.vec.len(), (i + 1) as usize);
        assert_eq!(tree.elements.garbage_len(), 0);
    }

    for i in 0..16u32 {
        assert_eq!(
            tree.elements.iter().next().unwrap().position,
            TUVec3::splat(i)
        );

        assert_eq!(tree.remove(ElementId(i)), Ok(()));
        assert_eq!(tree.elements.len(), (15 - i) as usize);
        assert_eq!(tree.elements.vec.len(), 16);
        assert_eq!(tree.elements.garbage_len(), (i + 1) as usize);
    }

    for i in 0..16u32 {
        assert_eq!(
            tree.insert(DummyCell::new(TUVec3::splat(i))),
            Ok(ElementId(15 - i))
        );
        assert_eq!(tree.elements.len(), (i + 1) as usize);
        assert_eq!(tree.elements.vec.len(), 16);
        assert_eq!(tree.elements.garbage_len(), (15 - i) as usize);
    }

    for i in 0..16u32 {
        assert_eq!(
            tree.elements.iter().next().unwrap().position,
            TUVec3::splat(15 - i)
        );

        assert_eq!(tree.remove(ElementId(i)), Ok(()));
        assert_eq!(tree.elements.len(), (15 - i) as usize);
        assert_eq!(tree.elements.vec.len(), 16);
        assert_eq!(tree.elements.garbage_len(), (i + 1) as usize);
    }
}

#[test]
fn test_constructors() {
    let aabb = Aabb::default();

    let tree: Octree<u8, DummyCell<u8>> = Octree::from_aabb(aabb);
    assert_eq!(tree.elements.len(), 0);
    assert_eq!(tree.elements.garbage_len(), 0);
    assert_eq!(tree.nodes.len(), 1);
    assert_eq!(tree.nodes.garbage_len(), 0);
    assert_eq!(tree.nodes[0.into()].aabb, aabb);

    let tree: Octree<u8, DummyCell<u8>> = Octree::with_capacity(100);
    assert_eq!(tree.elements.len(), 0);
    assert_eq!(tree.elements.garbage_len(), 0);
    assert_eq!(tree.elements.vec.capacity(), 100);
    assert_eq!(tree.nodes.len(), 1);
    assert_eq!(tree.nodes.garbage_len(), 0);
    assert_eq!(tree.nodes.vec.capacity(), 100);
    assert_eq!(tree.nodes[0.into()].aabb, Aabb::default());

    let tree: Octree<u8, DummyCell<u8>> = Octree::from_aabb_with_capacity(aabb, 50);
    assert_eq!(tree.elements.len(), 0);
    assert_eq!(tree.elements.garbage_len(), 0);
    assert_eq!(tree.elements.vec.capacity(), 50);
    assert_eq!(tree.nodes.len(), 1);
    assert_eq!(tree.nodes.garbage_len(), 0);
    assert_eq!(tree.nodes.vec.capacity(), 50);
    assert_eq!(tree.nodes[0.into()].aabb, aabb);
}

#[test]
fn test_to_vec() {
    let mut tree = Octree::from_aabb(Aabb::new_unchecked(TUVec3::splat(16), 16));
    assert_eq!(
        tree.insert(DummyCell::new(TUVec3::splat(1u8))),
        Ok(ElementId(0))
    );
    assert_eq!(
        tree.insert(DummyCell::new(TUVec3::splat(2u8))),
        Ok(ElementId(1))
    );
    assert_eq!(
        tree.insert(DummyCell::new(TUVec3::splat(3u8))),
        Ok(ElementId(2))
    );

    assert_eq!(tree.remove(1.into()), Ok(()));

    assert_eq!(
        tree.to_vec(),
        vec![
            DummyCell::new(TUVec3::splat(1u8)),
            DummyCell::new(TUVec3::splat(3u8))
        ]
    )
}

#[test]
fn test_overlap() {
    let mut tree = Octree::from_aabb(Aabb::new_unchecked(TUVec3::splat(8u16), 8));

    let v1_volume = Aabb::new(TUVec3::new(9, 5, 4), 4).unwrap();
    let v1 = DummyVolume::new(v1_volume);
    assert_eq!(tree.insert(v1), Ok(ElementId(0)));

    let v2_volume = Aabb::new(TUVec3::new(14, 14, 4), 4).unwrap();
    let v2 = DummyVolume::new(v2_volume);
    assert_eq!(tree.insert(v2), Ok(ElementId(1)));

    let v3_volume = Aabb::new(TUVec3::new(7, 5, 4), 4).unwrap();
    let v3 = DummyVolume::new(v3_volume);
    assert!(tree.insert(v3).is_err());

    assert!(!v1_volume.overlaps(&v2_volume));
    assert!(v1_volume.overlaps(&v3_volume));
}

#[test]
fn test_volumes() {
    let mut tree = Octree::from_aabb(Aabb::new_unchecked(TUVec3::splat(16u16), 16u16));

    tree.insert(DummyVolume::new(Aabb::new_unchecked(
        TUVec3::new(13, 13, 13),
        3,
    )))
    .unwrap();
    tree.insert(DummyVolume::new(Aabb::new_unchecked(
        TUVec3::new(19, 13, 13),
        3,
    )))
    .unwrap();

    assert_eq!(tree.find(&TUVec3::new(9, 13, 13)), None);
    assert_eq!(tree.find(&TUVec3::new(10, 13, 13)), Some(ElementId(0)));
    assert_eq!(tree.find(&TUVec3::new(13, 13, 13)), Some(ElementId(0)));
    assert_eq!(tree.find(&TUVec3::new(15, 13, 13)), Some(ElementId(0)));
    assert_eq!(tree.find(&TUVec3::new(16, 13, 13)), Some(ElementId(1)));
    assert_eq!(tree.find(&TUVec3::new(19, 13, 13)), Some(ElementId(1)));
    assert_eq!(tree.find(&TUVec3::new(21, 13, 13)), Some(ElementId(1)));
    assert_eq!(tree.find(&TUVec3::new(22, 13, 13)), None);

    assert_eq!(tree.find(&TUVec3::new(13, 9, 13)), None);

    assert!(tree
        .insert(DummyVolume::new(Aabb::new_unchecked(
            TUVec3::new(20, 13, 13),
            3,
        )))
        .is_err());

    assert_eq!(tree.find(&TUVec3::new(19, 13, 13)), Some(ElementId(1)));
    assert_eq!(tree.find(&TUVec3::new(21, 13, 13)), Some(ElementId(1)));
    assert_eq!(tree.find(&TUVec3::new(22, 13, 13)), None);

    let mut hits = HashSet::new();
    tree.intersect_with_for_each(
        |aabb| {
            Aabb::from_min_max(TUVec3::new(10, 13, 13), TUVec3::new(24, 14, 14)).overlaps(aabb)
        },
        |e| {
            hits.insert(e.clone());
        },
    );
    assert_eq!(hits.len(), 2);

    let mut hits = HashSet::new();
    tree.intersect_with_for_each(
        |aabb| {
            Aabb::from_min_max(TUVec3::new(10, 13, 13), TUVec3::new(20, 14, 14)).overlaps(aabb)
        },
        |e| {
            hits.insert(e.clone());
        },
    );
    assert_eq!(hits.len(), 2);
}
