use ilha::fixed::{Fixed, UNIT};
use ilha::scene::entity::{Entity, EntityMode, EntityType, SPEED, TURN};
use ilha::scene::{Scene, DEEP_VALUE};
use ilha::utils::height_map::LAND_VALUE;
use rand::rngs::StdRng;
use rand::SeedableRng;

fn scene_with_land(seed: u64) -> (Scene<10, 10>, StdRng) {
    let mut rng = StdRng::seed_from_u64(seed);
    let scene = Scene::<10, 10>::new(&mut rng);
    assert!(scene.has_available_position());
    (scene, rng)
}

#[test]
fn scene_has_room_where_it_has_land() {
    let mut rng = StdRng::seed_from_u64(0);
    let mut scene = Scene::<1, 1>::new(&mut rng);
    assert!(!scene.has_available_position());

    scene.add_entity(Entity::new([UNIT, 0, 0], EntityType::Plant1));
    assert!(!scene.has_available_position());

    scene.add_entity(Entity::new([0, 0, 0], EntityType::Animal1));
    assert!(scene.collides((0, 0)));
    assert!(!scene.has_available_position());

    let (scene, _) = scene_with_land(0);
    let land = scene.get_height_map().iter().any(|row| row.iter().any(|height| *height >= LAND_VALUE));
    assert!(land);
}

#[test]
fn new_scene_of_one_cell_is_a_smoothed_peak() {
    let mut rng = StdRng::seed_from_u64(0);
    let scene = Scene::<1, 1>::new(&mut rng);

    assert_eq!(*scene.get_height_map(), [[UNIT / 3]]);
    assert!(scene.get_plants().is_none());
    assert!(scene.get_animals().is_empty());
}

#[test]
fn new_scene_is_a_smoothed_island() {
    for seed in 0..10 {
        let mut rng = StdRng::seed_from_u64(seed);
        let scene = Scene::<6, 8>::new(&mut rng);

        let ninth = UNIT / 9;
        let mut total: i64 = 0;
        for row in scene.get_height_map() {
            for height in row {
                assert_eq!(height % ninth, 0);
                assert!(11 * DEEP_VALUE / 9 <= *height && *height <= 11 * LAND_VALUE / 9);
                total += *height as i64;
            }
        }
        // 36 cells of land and 12 of deep sea, each spread over the cells
        // around it; what the border cells send off the map is lost.
        assert!(total <= 11 * (36 * LAND_VALUE as i64 + 12 * DEEP_VALUE as i64) / 9 + 12 * 5 * 2 * UNIT as i64 / 9);
        assert!(scene.get_plants().is_none());
        assert!(scene.get_animals().is_empty());
        assert!(scene.get_height_map().iter().flatten().any(|height| {
            *height != LAND_VALUE && *height != DEEP_VALUE
        }));
    }
}

#[test]
fn entity_is_put_at_the_height_of_the_ground() {
    let mut rng = StdRng::seed_from_u64(0);
    let mut scene = Scene::<1, 1>::new(&mut rng);

    scene.add_entity(Entity::new([SPEED, 99, UNIT - 1], EntityType::Animal1));
    scene.add_entity(Entity::new([UNIT, 99, 0], EntityType::Animal2));
    scene.add_entity(Entity::new([0, 99, -1], EntityType::Animal2));
    scene.add_entity(Entity::new([0, 99, 0], EntityType::Plant1));
    scene.add_entity(Entity::new([-UNIT, 99, 0], EntityType::Plant2));

    let animals = scene.get_animals();
    assert_eq!(animals.len(), 3);
    assert_eq!(animals[0], Entity::new([SPEED, UNIT / 3, UNIT - 1], EntityType::Animal1));
    assert_eq!(animals[1], Entity::new([UNIT, 99, 0], EntityType::Animal2));
    assert_eq!(animals[2], Entity::new([0, 99, -1], EntityType::Animal2));
    let plants = scene.get_plants().as_ref().unwrap();
    assert_eq!(plants.key, Entity::new([0, UNIT / 3, 0], EntityType::Plant1));
    assert_eq!(
        plants.leaf(3).map(|node| node.key),
        Some(Entity::new([-UNIT, 99, 0], EntityType::Plant2))
    );
}

#[test]
fn fixing_a_position_sets_the_height_only() {
    let (scene, _) = scene_with_land(1);
    let height_map = *scene.get_height_map();

    let mut entity = Entity::new([3 * UNIT + 5, -7, 9 * UNIT + SPEED], EntityType::Animal1);
    entity.rotation = 3 * TURN;
    entity.entity_mode = EntityMode::Walking { target: (UNIT, UNIT) };
    scene.fix_position(&mut entity);
    assert_eq!(entity.position, [3 * UNIT + 5, height_map[3][9], 9 * UNIT + SPEED]);
    assert_eq!(entity.rotation, 3 * TURN);
    assert_eq!(entity.entity_mode, EntityMode::Walking { target: (UNIT, UNIT) });

    let mut entity = Entity::new([10 * UNIT, -7, 0], EntityType::Plant1);
    scene.fix_position(&mut entity);
    assert_eq!(entity.position, [10 * UNIT, -7, 0]);

    let mut entity = Entity::new([10 * UNIT - 1, -7, 0], EntityType::Plant1);
    scene.fix_position(&mut entity);
    assert_eq!(entity.position, [10 * UNIT - 1, height_map[9][0], 0]);

    let mut entity = Entity::new([0, -7, -1], EntityType::Plant1);
    scene.fix_position(&mut entity);
    assert_eq!(entity.position, [0, -7, -1]);
}

#[test]
fn scene_collides_where_an_entity_is() {
    let (mut scene, _) = scene_with_land(2);
    scene.add_entity(Entity::new([2 * UNIT, 0, 3 * UNIT], EntityType::Plant1));
    scene.add_entity(Entity::new([4 * UNIT, 0, UNIT], EntityType::Plant2));
    scene.add_entity(Entity::new([5 * UNIT, 0, 5 * UNIT], EntityType::Animal1));
    scene.add_entity(Entity::new([6 * UNIT + SPEED, 0, 5 * UNIT], EntityType::Animal1));

    for x in 0..12 {
        for z in 0..12 {
            let expected = (x, z) == (2, 3) || (x, z) == (4, 1) || (x, z) == (5, 5);
            assert_eq!(scene.collides((x, z)), expected);
        }
    }
    assert!(!scene.collides((usize::MAX, 3)));
    assert!(!scene.collides((163_656, 163_657)));
}

#[test]
fn created_entities_stand_idle_on_land() {
    for seed in 0..10 {
        let (mut scene, mut rng) = scene_with_land(seed);
        let height_map = *scene.get_height_map();

        scene.create_entities(4, EntityType::Animal2, &mut rng);
        scene.create_entities(0, EntityType::Animal1, &mut rng);
        scene.create_entities(3, EntityType::Plant1, &mut rng);

        assert_eq!(*scene.get_height_map(), height_map);
        assert_eq!(scene.get_animals().len(), 4);
        for animal in scene.get_animals() {
            let x = (animal.position[0] / UNIT) as usize;
            let z = (animal.position[2] / UNIT) as usize;
            assert_eq!(animal.position, [x as Fixed * UNIT, height_map[x][z], z as Fixed * UNIT]);
            assert!(height_map[x][z] >= LAND_VALUE);
            assert_eq!(animal.entity_type, EntityType::Animal2);
            assert_eq!(animal.entity_mode, EntityMode::Idle);
            assert_eq!(animal.rotation, 0);
        }
        let plants = std::cell::RefCell::new(Vec::new());
        scene.get_plants().as_ref().unwrap().applly_function(&|node| plants.borrow_mut().push(node.key));
        let plants = plants.into_inner();
        assert_eq!(plants.len(), 3);
        for plant in plants {
            let x = (plant.position[0] / UNIT) as usize;
            let z = (plant.position[2] / UNIT) as usize;
            assert_eq!(plant.position, [x as Fixed * UNIT, height_map[x][z], z as Fixed * UNIT]);
            assert!(height_map[x][z] >= LAND_VALUE);
            assert_eq!(plant.entity_type, EntityType::Plant1);
            assert_eq!(plant.entity_mode, EntityMode::Idle);
        }
    }
}

#[test]
fn available_position_is_land() {
    let (mut scene, mut rng) = scene_with_land(3);
    let height_map = *scene.get_height_map();
    let mut sea = None;
    let mut land = None;
    for x in 0..10 {
        for z in 0..10 {
            if height_map[x][z] < LAND_VALUE {
                sea = Some((x, z));
            } else {
                land = Some((x, z));
            }
        }
    }
    let (sea_x, sea_z) = sea.unwrap();
    let (land_x, land_z) = land.unwrap();
    scene.add_entity(Entity::new([sea_x as Fixed * UNIT, 0, sea_z as Fixed * UNIT], EntityType::Animal1));
    scene.add_entity(Entity::new([land_x as Fixed * UNIT, 0, land_z as Fixed * UNIT], EntityType::Plant1));

    let mut taken = false;
    for _ in 0..2000 {
        let (x, z) = scene.get_avaliable_position(&mut rng);
        assert!(x < 10 && z < 10);
        assert!(height_map[x][z] >= LAND_VALUE);
        taken = taken || (x, z) == (land_x, land_z);
    }
    assert!(taken);
}

#[test]
fn animals_walk_to_a_cell_beside_them_and_rest() {
    for seed in 0..10 {
        let (mut scene, mut rng) = scene_with_land(seed);
        let height_map = *scene.get_height_map();
        scene.create_entities(3, EntityType::Animal1, &mut rng);
        scene.create_entities(2, EntityType::Plant2, &mut rng);
        let plants = std::cell::RefCell::new(Vec::new());
        scene.get_plants().as_ref().unwrap().applly_function(&|node| plants.borrow_mut().push(node.key));
        let plants = plants.into_inner();

        for _ in 0..12 {
            let before = scene.get_animals().clone();
            scene.move_animals(&mut rng);
            let after = scene.get_animals().clone();

            assert_eq!(*scene.get_height_map(), height_map);
            assert_eq!(after.len(), before.len());
            for (old, new) in before.iter().zip(after.iter()) {
                assert_eq!(new.entity_type, old.entity_type);
                match old.entity_mode {
                    EntityMode::Walking { target } => {
                        if (old.position[0], old.position[2]) == target {
                            assert_eq!(new.entity_mode, EntityMode::Idle);
                            assert_eq!(new.position, old.position);
                        } else {
                            assert_eq!(new.entity_mode, old.entity_mode);
                            let step_x = if target.0 == old.position[0] { 0 } else { SPEED };
                            let step_z = if target.1 == old.position[2] { 0 } else { SPEED };
                            assert_eq!((new.position[0] - old.position[0]).abs(), step_x);
                            assert_eq!((new.position[2] - old.position[2]).abs(), step_z);
                            assert!((target.0 - new.position[0]).abs() < (target.0 - old.position[0]).abs() || step_x == 0);
                            assert!((target.1 - new.position[2]).abs() < (target.1 - old.position[2]).abs() || step_z == 0);
                            assert_eq!(new.position[1], old.position[1]);
                        }
                        assert_eq!(new.rotation, old.rotation);
                    },
                    EntityMode::Idle => {
                        assert_eq!(new.position, old.position);
                        if let EntityMode::Walking { target } = new.entity_mode {
                            let (x, z) = ((target.0 / UNIT) as usize, (target.1 / UNIT) as usize);
                            assert_eq!(target, (x as Fixed * UNIT, z as Fixed * UNIT));
                            assert!((target.0 - old.position[0]).abs() <= UNIT);
                            assert!((target.1 - old.position[2]).abs() <= UNIT);
                            assert!(target != (old.position[0], old.position[2]));
                            assert!(height_map[x][z] >= LAND_VALUE);
                            assert!(!Entity::have_another_animal([target.0, 0, target.1], &before));
                            assert!(!Entity::have_another_animal([target.0, 0, target.1], &plants));
                            assert_eq!(new.rotation % TURN, 0);
                        } else {
                            assert_eq!(new, old);
                        }
                    },
                }
            }
        }
    }
}

#[test]
fn scene_without_animals_moves_nothing() {
    let (mut scene, mut rng) = scene_with_land(4);
    scene.create_entities(2, EntityType::Plant1, &mut rng);
    let height_map = *scene.get_height_map();

    scene.move_animals(&mut rng);

    assert_eq!(*scene.get_height_map(), height_map);
    assert!(scene.get_animals().is_empty());
}
