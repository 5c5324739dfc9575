use ilha::fixed::{Fixed, UNIT};
use ilha::scene::entity::tree_entity::TreeEntity;
use ilha::scene::entity::{Entity, EntityType};

fn plant(x: Fixed, z: Fixed) -> Entity {
    Entity::new([x * UNIT, 0, z * UNIT], EntityType::Plant1)
}

#[test]
fn should_create() {
    let entity = Entity::new([0; 3], EntityType::Plant1);
    let tree = TreeEntity::new(entity);

    assert_eq!(tree.key, entity);
}

#[test]
#[allow(non_snake_case)]
fn should_initialize_leafs_with_None() {
    let entity = Entity::new([0; 3], EntityType::Plant1);
    let tree = TreeEntity::new(entity);

    assert_eq!([tree.leaf(0), tree.leaf(1), tree.leaf(2), tree.leaf(3)], [None, None, None, None]);
}

#[test]
fn children_go_to_the_quadrant_they_lie_in() {
    let mut tree = TreeEntity::new(plant(5, 5));
    tree.add(plant(6, 6));
    tree.add(plant(6, 5));
    tree.add(plant(5, 6));
    tree.add(plant(5, 5));

    assert_eq!(tree.key, plant(5, 5));
    assert_eq!(tree.leaf(0).map(|node| node.key), Some(plant(6, 6)));
    assert_eq!(tree.leaf(1).map(|node| node.key), Some(plant(6, 5)));
    assert_eq!(tree.leaf(2).map(|node| node.key), Some(plant(5, 6)));
    assert_eq!(tree.leaf(3).map(|node| node.key), Some(plant(5, 5)));
    assert!(tree.leaf(4).is_none());
}

#[test]
fn children_go_down_into_the_subtree_of_their_quadrant() {
    let mut tree = TreeEntity::new(plant(5, 5));
    tree.add(plant(7, 7));
    tree.add(plant(6, 8));
    tree.add(plant(9, 1));

    let node = tree.leaf(0).unwrap();
    assert_eq!(node.key, plant(7, 7));
    assert_eq!(node.leaf(2).map(|child| child.key), Some(plant(6, 8)));
    assert_eq!(tree.leaf(1).map(|child| child.key), Some(plant(9, 1)));
    assert!(tree.leaf(2).is_none());
    assert!(tree.leaf(3).is_none());
}

#[test]
fn same_insertions_give_the_same_tree() {
    let mut first = TreeEntity::new(plant(3, 3));
    let mut second = TreeEntity::new(plant(3, 3));
    for (x, z) in [(1, 4), (4, 1), (2, 2), (4, 4), (0, 0), (4, 5)] {
        first.add(plant(x, z));
        second.add(plant(x, z));
    }
    assert_eq!(first, second);
}

#[test]
fn tree_collides_where_an_entity_was_added() {
    let cells = [(3, 3), (1, 4), (4, 1), (2, 2), (4, 4), (0, 0), (4, 5), (3, 3)];
    let mut tree = TreeEntity::new(plant(cells[0].0, cells[0].1));
    for (x, z) in &cells[1..] {
        tree.add(plant(*x, *z));
    }
    for x in -1..7 {
        for z in -1..7 {
            let expected = cells.contains(&(x, z));
            assert_eq!(tree.collide([x * UNIT, 0, z * UNIT]), expected);
            assert_eq!(tree.collide([x * UNIT, 99, z * UNIT]), expected);
            assert!(!tree.collide([x * UNIT + 1, 0, z * UNIT]));
        }
    }
}

#[test]
fn tree_collides_alike_in_any_order_of_insertion() {
    let cells = [(1, 4), (4, 1), (2, 2), (4, 4), (0, 0), (4, 5)];
    let mut forward = TreeEntity::new(plant(3, 3));
    for (x, z) in cells.iter() {
        forward.add(plant(*x, *z));
    }
    let mut backward = TreeEntity::new(plant(3, 3));
    for (x, z) in cells.iter().rev() {
        backward.add(plant(*x, *z));
    }
    assert_ne!(forward, backward);
    for x in -1..7 {
        for z in -1..7 {
            let position = [x * UNIT, 0, z * UNIT];
            assert_eq!(forward.collide(position), backward.collide(position));
        }
    }
}

#[test]
fn function_is_applied_to_every_node_root_first() {
    let mut tree = TreeEntity::new(plant(5, 5));
    for (x, z) in [(5, 5), (6, 6), (7, 7), (6, 5), (5, 6), (8, 6)] {
        tree.add(plant(x, z));
    }
    let seen = std::cell::RefCell::new(Vec::new());
    tree.applly_function(&|node: &TreeEntity| {
        seen.borrow_mut().push((node.key.position[0] / UNIT, node.key.position[2] / UNIT))
    });
    assert_eq!(seen.into_inner(), vec![(5, 5), (6, 6), (7, 7), (8, 6), (6, 5), (5, 6), (5, 5)]);
}

#[test]
fn entities_are_listed_root_first_and_by_quadrant() {
    let mut tree = TreeEntity::new(plant(5, 5));
    assert_eq!(tree.entities(), vec![plant(5, 5)]);

    for (x, z) in [(5, 5), (6, 6), (7, 7), (6, 5), (5, 6), (8, 6)] {
        tree.add(plant(x, z));
    }
    let cells: Vec<(Fixed, Fixed)> = tree
        .entities()
        .iter()
        .map(|entity| (entity.position[0] / UNIT, entity.position[2] / UNIT))
        .collect();
    assert_eq!(cells, vec![(5, 5), (6, 6), (7, 7), (8, 6), (6, 5), (5, 6), (5, 5)]);

    let seen = std::cell::RefCell::new(Vec::new());
    tree.applly_function(&|node: &TreeEntity| seen.borrow_mut().push(node.key));
    assert_eq!(seen.into_inner(), tree.entities());
}
