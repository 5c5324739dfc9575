use ilha::fixed::{Fixed, UNIT};
use ilha::scene::entity::tree_entity::TreeEntity;
use ilha::scene::entity::{Entity, EntityMode, EntityType, SPEED, TURN};
use ilha::utils::height_map::init_height_map;
use rand::rngs::StdRng;
use rand::SeedableRng;

#[test]
fn should_create_a_entity() {
    const POSITION: [Fixed; 3] = [UNIT; 3];
    const ENTITY_TYPE: EntityType = EntityType::Animal1;

    let entity = Entity::new(POSITION, ENTITY_TYPE);

    assert_eq!(entity.rotation, 0);
    assert_eq!(entity.entity_type, ENTITY_TYPE);
}

#[test]
fn should_set_rotaion_to_zero_if_is_an_animal() {
    let animal1 = Entity::new([0; 3], EntityType::Animal1);
    let animal2 = Entity::new([0; 3], EntityType::Animal2);

    assert_eq!(animal1.rotation, 0);
    assert_eq!(animal2.rotation, 0);
}

#[test]
fn new_entity_is_idle_where_it_was_put() {
    let entity = Entity::new([3, -4, 5], EntityType::Plant2);

    assert_eq!(entity.position, [3, -4, 5]);
    assert_eq!(entity.entity_mode, EntityMode::Idle);
    assert_eq!(entity.entity_type, EntityType::Plant2);
}

#[test]
fn should_get_entity_type() {
    const ENTITY_TYPE: EntityType = EntityType::Plant1;
    let entity = Entity::new([UNIT; 3], ENTITY_TYPE);

    assert_eq!(entity.get_type(), ENTITY_TYPE);
}

#[test]
fn should_update_rotation() {
    const NEW_ROTATION: Fixed = 45 * UNIT;

    let mut entity = Entity::new([UNIT; 3], EntityType::Animal2);

    entity.set_rotation(NEW_ROTATION);

    assert_eq!(entity.rotation, NEW_ROTATION);
}

#[test]
fn should_be_a_scene_position() {
    let height_map = init_height_map::<5, 5>(UNIT);
    let tree_plants = TreeEntity::new(Entity::new([-100 * UNIT; 3], EntityType::Animal1));
    let animals = vec![];

    let valid_possible_position =
        vec![(2, 2), (1, 2), (3, 2), (1, 1), (3, 1), (1, 3), (2, 3), (3, 3)];

    assert_eq!(
        Entity::get_valid_position(&valid_possible_position, &height_map, &tree_plants, &animals)
            .len(),
        valid_possible_position.len(),
    );

    let invalid_possible_position =
        vec![(6, 6), (7, 6), (8, 6), (7, 7), (8, 7), (6, 8), (7, 8), (8, 8)];

    assert_eq!(
        Entity::get_valid_position(
            &invalid_possible_position,
            &height_map,
            &tree_plants,
            &animals
        )
        .len(),
        0
    );
}

#[test]
fn should_be_valid_land_position() {
    let invalid_height_map = init_height_map::<5, 5>(0);
    let tree_plants = TreeEntity::new(Entity::new([-100 * UNIT; 3], EntityType::Animal1));
    let animals = vec![];

    let possible_position = vec![(0, 0), (1, 0), (2, 0), (0, 1), (2, 1), (0, 2), (1, 2), (2, 2)];

    assert_eq!(
        Entity::get_valid_position(
            &possible_position,
            &invalid_height_map,
            &tree_plants,
            &animals
        )
        .len(),
        0
    );

    let valid_height_map = init_height_map::<5, 5>(UNIT);

    assert_eq!(
        Entity::get_valid_position(&possible_position, &valid_height_map, &tree_plants, &animals)
            .len(),
        8
    );
}

#[test]
fn should_not_collide_with_a_plant() {
    let height_map = init_height_map::<5, 5>(UNIT);
    let tree_plants = TreeEntity::new(Entity::new([0; 3], EntityType::Animal1));
    let animals = vec![];

    let possible_position = vec![(0, 0), (1, 0), (2, 0), (0, 1), (2, 1), (0, 2), (1, 2), (2, 2)];

    assert_eq!(
        Entity::get_valid_position(&possible_position, &height_map, &tree_plants, &animals).len(),
        7
    );
}

#[test]
fn should_not_collide_with_an_animal() {
    let height_map = init_height_map::<5, 5>(UNIT);
    let tree_plants = TreeEntity::new(Entity::new([-100 * UNIT; 3], EntityType::Animal1));
    let animals = vec![Entity::new([0; 3], EntityType::Animal2)];

    let possible_position = vec![(0, 0), (1, 0), (2, 0), (0, 1), (2, 1), (0, 2), (1, 2), (2, 2)];

    assert_eq!(
        Entity::get_valid_position(&possible_position, &height_map, &tree_plants, &animals).len(),
        7
    );
}

#[test]
fn valid_positions_are_listed_by_index_in_order() {
    let mut height_map = init_height_map::<4, 4>(UNIT);
    height_map[1][0] = UNIT - 1;
    height_map[3][3] = 2 * UNIT;
    let mut tree_plants = TreeEntity::new(Entity::new([2 * UNIT, 0, 2 * UNIT], EntityType::Plant1));
    tree_plants.add(Entity::new([0, 7, UNIT], EntityType::Plant2));
    let animals = vec![Entity::new([3 * UNIT, 0, 0], EntityType::Animal1)];

    let possible_position =
        vec![(1, 0), (0, 0), (2, 2), (-1, 0), (3, 3), (0, 1), (4, 0), (3, 0), (0, -1), (1, 1)];

    assert_eq!(
        Entity::get_valid_position(&possible_position, &height_map, &tree_plants, &animals),
        vec![1, 4, 9]
    );
    assert_eq!(
        Entity::get_valid_position(&vec![], &height_map, &tree_plants, &animals),
        Vec::<usize>::new()
    );
}

#[test]
fn should_be_true_if_have_an_animal_in_same_position() {
    let position = [0; 3];

    let animals = vec![Entity::new([0; 3], EntityType::Animal1)];

    assert!(Entity::have_another_animal(position, &animals));
}

#[test]
fn should_be_false_if_do_not_have_an_animal_in_same_position() {
    let position = [0; 3];

    let animals = vec![Entity::new([UNIT; 3], EntityType::Animal1)];

    assert_eq!(Entity::have_another_animal(position, &animals), false);
}

#[test]
fn animals_are_found_by_x_and_z_alone() {
    let animals = vec![
        Entity::new([UNIT, 5, 2 * UNIT], EntityType::Animal1),
        Entity::new([3 * UNIT, 0, UNIT], EntityType::Animal2),
    ];

    assert!(Entity::have_another_animal([3 * UNIT, 77, UNIT], &animals));
    assert!(Entity::have_another_animal([UNIT, 0, 2 * UNIT], &animals));
    assert!(!Entity::have_another_animal([UNIT, 5, UNIT], &animals));
    assert!(!Entity::have_another_animal([2 * UNIT, 5, UNIT], &animals));
    assert!(!Entity::have_another_animal([UNIT, 5, 2 * UNIT], &vec![]));
}

#[test]
fn should_not_update_plant_mode() {
    let mut rng = StdRng::seed_from_u64(1);
    let mut plant1 = Entity::new([0; 3], EntityType::Plant1);
    let mut plant2 = Entity::new([UNIT; 3], EntityType::Plant2);

    let height_map = [[UNIT; 25]; 25];
    let tree_plants = TreeEntity::new(Entity::new([2 * UNIT; 3], EntityType::Plant1));
    let animals = Vec::<Entity>::new();

    plant1.change_mode(&height_map, &tree_plants, &animals, &mut rng);
    assert_eq!(plant1.entity_mode, EntityMode::Idle);

    plant2.change_mode(&height_map, &tree_plants, &animals, &mut rng);
    assert_eq!(plant2.entity_mode, EntityMode::Idle);
}

#[test]
fn should_update_idle_animals_mode() {
    let mut rng = StdRng::seed_from_u64(1);
    let mut animal = Entity::new([0; 3], EntityType::Animal1);

    let height_map = [[UNIT; 25]; 25];
    let tree_plants = TreeEntity::new(Entity::new([2 * UNIT; 3], EntityType::Plant1));
    let animals = Vec::<Entity>::new();

    animal.change_mode(&height_map, &tree_plants, &animals, &mut rng);

    assert_ne!(animal.entity_mode, EntityMode::Idle);
}

#[test]
fn should_move_animals_position_when_walking() {
    const INITIAL_POSITION: [Fixed; 3] = [0; 3];
    let mut rng = StdRng::seed_from_u64(1);
    let mut animal = Entity::new(INITIAL_POSITION, EntityType::Animal1);
    animal.entity_mode = EntityMode::Walking { target: (UNIT, UNIT) };

    let height_map = [[UNIT; 25]; 25];
    let tree_plants = TreeEntity::new(Entity::new([2 * UNIT; 3], EntityType::Plant1));
    let animals = Vec::<Entity>::new();

    animal.change_mode(&height_map, &tree_plants, &animals, &mut rng);

    assert_ne!(animal.entity_mode, EntityMode::Idle);
    assert_ne!(animal.position, INITIAL_POSITION);
}

#[test]
fn should_be_idle_if_the_target_is_actived() {
    const INITIAL_POSITION: [Fixed; 3] = [0; 3];
    let mut rng = StdRng::seed_from_u64(1);
    let mut animal = Entity::new(INITIAL_POSITION, EntityType::Animal1);
    animal.entity_mode = EntityMode::Walking { target: (INITIAL_POSITION[0], INITIAL_POSITION[2]) };

    let height_map = [[UNIT; 25]; 25];
    let tree_plants = TreeEntity::new(Entity::new([2 * UNIT; 3], EntityType::Plant1));
    let animals = Vec::<Entity>::new();

    animal.change_mode(&height_map, &tree_plants, &animals, &mut rng);

    assert_eq!(animal.entity_mode, EntityMode::Idle);
    assert_eq!(animal.position, INITIAL_POSITION);
}

#[test]
fn walking_takes_half_a_cell_on_each_axis() {
    let mut animal = Entity::new([2 * UNIT, 7, 2 * UNIT], EntityType::Animal2);
    animal.entity_mode = EntityMode::Walking { target: (3 * UNIT, UNIT) };
    assert_eq!(SPEED, UNIT / 2);

    animal.walk();
    assert_eq!(animal.position, [2 * UNIT + SPEED, 7, 2 * UNIT - SPEED]);
    assert_eq!(animal.entity_mode, EntityMode::Walking { target: (3 * UNIT, UNIT) });

    animal.walk();
    assert_eq!(animal.position, [3 * UNIT, 7, UNIT]);
    assert_eq!(animal.entity_mode, EntityMode::Walking { target: (3 * UNIT, UNIT) });

    animal.walk();
    assert_eq!(animal.position, [3 * UNIT, 7, UNIT]);
    assert_eq!(animal.entity_mode, EntityMode::Idle);

    animal.walk();
    assert_eq!(animal.position, [3 * UNIT, 7, UNIT]);
    assert_eq!(animal.entity_mode, EntityMode::Idle);
}

#[test]
fn walking_along_one_axis_keeps_the_other() {
    let mut animal = Entity::new([0; 3], EntityType::Animal1);
    animal.entity_mode = EntityMode::Walking { target: (0, UNIT) };

    animal.walk();
    assert_eq!(animal.position, [0, 0, SPEED]);
    assert_eq!(animal.entity_mode, EntityMode::Walking { target: (0, UNIT) });

    animal.walk();
    assert_eq!(animal.position, [0, 0, UNIT]);
    assert_eq!(animal.entity_mode, EntityMode::Walking { target: (0, UNIT) });

    animal.walk();
    assert_eq!(animal.position, [0, 0, UNIT]);
    assert_eq!(animal.entity_mode, EntityMode::Idle);

    let mut animal = Entity::new([2 * UNIT, 0, 2 * UNIT], EntityType::Animal2);
    animal.entity_mode = EntityMode::Walking { target: (UNIT, 2 * UNIT) };
    animal.walk();
    assert_eq!(animal.position, [2 * UNIT - SPEED, 0, 2 * UNIT]);
}

#[test]
fn walking_takes_a_full_step_where_less_is_left() {
    let mut animal = Entity::new([10, 0, -10], EntityType::Animal1);
    animal.entity_mode = EntityMode::Walking { target: (0, 0) };

    animal.walk();
    assert_eq!(animal.position, [10 - SPEED, 0, SPEED - 10]);

    animal.walk();
    assert_eq!(animal.position, [10, 0, -10]);
    assert_eq!(animal.entity_mode, EntityMode::Walking { target: (0, 0) });
}

#[test]
fn plants_do_not_walk() {
    let mut plant = Entity::new([0; 3], EntityType::Plant1);
    plant.entity_mode = EntityMode::Walking { target: (UNIT, UNIT) };
    let before = plant;

    plant.walk();

    assert_eq!(plant, before);
}

#[test]
fn setting_out_faces_the_heading_of_the_neighbour() {
    let mut animal = Entity::new([4 * UNIT, 3, 4 * UNIT], EntityType::Animal1);

    animal.set_out(3, 5, 3);

    assert_eq!(animal.position, [4 * UNIT, 3, 4 * UNIT]);
    assert_eq!(animal.entity_mode, EntityMode::Walking { target: (3 * UNIT, 5 * UNIT) });
    assert_eq!(animal.rotation, 135 * UNIT);
    assert_eq!(TURN, 45 * UNIT);
    assert_eq!(animal.entity_type, EntityType::Animal1);
}

#[test]
fn hemmed_in_animal_stays_idle() {
    let mut rng = StdRng::seed_from_u64(9);
    let tree_plants = TreeEntity::new(Entity::new([-100 * UNIT; 3], EntityType::Plant1));

    // Nothing around is high enough.
    let mut low = init_height_map::<3, 3>(UNIT - 1);
    low[1][1] = UNIT;
    let mut animal = Entity::new([UNIT, 0, UNIT], EntityType::Animal1);
    let before = animal;
    animal.change_mode(&low, &tree_plants, &vec![], &mut rng);
    assert_eq!(animal, before);

    // Nothing around is on the map.
    let single = init_height_map::<1, 1>(UNIT);
    let mut animal = Entity::new([0; 3], EntityType::Animal2);
    let before = animal;
    animal.change_mode(&single, &tree_plants, &vec![], &mut rng);
    assert_eq!(animal, before);

    // Everything around is taken.
    let high = init_height_map::<2, 2>(2 * UNIT);
    let mut plants = TreeEntity::new(Entity::new([UNIT, 0, 0], EntityType::Plant1));
    plants.add(Entity::new([UNIT, 0, UNIT], EntityType::Plant2));
    let animals =
        vec![Entity::new([0; 3], EntityType::Animal1), Entity::new([0, 0, UNIT], EntityType::Animal1)];
    let mut animal = animals[0];
    animal.change_mode(&high, &plants, &animals, &mut rng);
    assert_eq!(animal, animals[0]);
}

#[test]
fn idle_animal_sets_out_for_a_free_cell_around_it() {
    let mut height_map = init_height_map::<5, 5>(UNIT);
    height_map[3][2] = 0;
    height_map[3][3] = 0;
    let tree_plants = TreeEntity::new(Entity::new([2 * UNIT, 0, 3 * UNIT], EntityType::Plant1));
    let animals = vec![
        Entity::new([2 * UNIT + SPEED, 0, 2 * UNIT + 7], EntityType::Animal1),
        Entity::new([UNIT, 0, 3 * UNIT], EntityType::Animal2),
    ];
    let cells = [(3, 2), (3, 3), (2, 3), (1, 3), (1, 2), (1, 1), (2, 1), (3, 1)];
    let mut seen = [false; 8];

    for seed in 0..200 {
        let mut rng = StdRng::seed_from_u64(seed);
        let mut animal = animals[0];
        animal.change_mode(&height_map, &tree_plants, &animals, &mut rng);

        assert_eq!(animal.position, animals[0].position);
        let index = (animal.rotation / TURN) as usize;
        assert_eq!(animal.rotation, index as Fixed * TURN);
        assert!(4 <= index && index < 8);
        let (x, z) = cells[index];
        assert_eq!(animal.entity_mode, EntityMode::Walking { target: (x * UNIT, z * UNIT) });
        seen[index] = true;
    }
    assert_eq!(seen, [false, false, false, false, true, true, true, true]);
}

#[test]
fn last_cell_of_the_widest_map_is_valid() {
    let height_map = Box::new(init_height_map::<163_655, 1>(UNIT));
    let tree_plants = TreeEntity::new(Entity::new([-100 * UNIT; 3], EntityType::Plant1));
    let animals = vec![Entity::new([163_653 * UNIT, 0, 0], EntityType::Animal1)];

    let possible_position = vec![(163_654, 0), (163_655, 0), (163_653, 0), (163_652, 0)];

    assert_eq!(
        Entity::get_valid_position(&possible_position, &height_map, &tree_plants, &animals),
        vec![0, 3]
    );

    let mut rng = StdRng::seed_from_u64(3);
    let mut animal = animals[0];
    let others = vec![animal, Entity::new([163_652 * UNIT, 0, 0], EntityType::Animal2)];
    animal.change_mode(&height_map, &tree_plants, &others, &mut rng);
    assert_eq!(animal.entity_mode, EntityMode::Walking { target: (163_654 * UNIT, 0) });
    assert_eq!(animal.rotation, 0);
}
