//! The scene: the island with the plants and the animals that live on it.
use crate::fixed::{from_whole, to_whole, whole_part, Fixed, UNIT};
use crate::random::random_in_range;
use crate::scene::entity::tree_entity::TreeEntity;
use crate::scene::entity::{any_at, Entity, EntityMode, EntityType, MAX_CELL};
use crate::utils::height_map::grid::{
    count_cells, in_bounds, is_land, land_connected, lemma_count_bounds,
};
use crate::utils::height_map::land::sampling_budget;
use crate::utils::height_map::smooth::{
    blurred, is_flat, is_stepped, lemma_smoothing_in_range, steps_are_alike,
};
use crate::utils::height_map::{create_land, init_height_map, smooth_height_map, LAND_VALUE};
use rand::rngs::StdRng;
use vstd::prelude::*;

pub mod entity;

verus! {

/// The elevation of the sea floor that the island rises from.
pub const DEEP_VALUE: Fixed = -26244;

/// The coordinate, on every axis, of the plant that stands in for the plants
/// of a scene that has none. It is far off every map.
pub const FAR_AWAY: Fixed = -13122000;

/// The island with its plants and animals.
pub struct Scene<const W: usize, const H: usize> {
    width: usize,
    height: usize,
    height_map: [[Fixed; H]; W],
    plants: Option<TreeEntity>,
    animals: Vec<Entity>,
}

/// The number of land cells of the island of a new scene: three quarters of
/// the cells of the map, rounded down, but at least one.
pub open spec fn island_size<const W: usize, const H: usize>() -> int {
    if 3 * (W * H) / 4 >= 1 {
        3 * (W * H) / 4
    } else {
        1
    }
}

/// Whether `raw` is a map of one island of `size` cells: every cell is land
/// or deep sea, `size` cells are land, and all land is connected to the
/// centre of the map.
pub open spec fn is_island<const W: usize, const H: usize>(raw: [[Fixed; H]; W], size: int) -> bool {
    &&& forall|x: int, y: int|
        in_bounds::<W, H>(x, y) ==> raw[x][y] == LAND_VALUE || raw[x][y] == DEEP_VALUE
    &&& count_cells(raw, LAND_VALUE) == size
    &&& forall|x: int, y: int|
        is_land(raw, x, y) ==> land_connected(raw, (W as int / 2, H as int / 2), (x, y))
}

/// Whether `smoothed` is the map `raw` after one pass of smoothing.
pub open spec fn is_smoothed<const W: usize, const H: usize>(
    raw: [[Fixed; H]; W],
    smoothed: [[Fixed; H]; W],
) -> bool {
    forall|x: int, y: int| in_bounds::<W, H>(x, y) ==> smoothed[x][y] == blurred(raw, x, y)
}

/// The plant that stands in for the plants of a scene that has none.
pub open spec fn far_plant() -> Entity {
    Entity {
        position: [FAR_AWAY, FAR_AWAY, FAR_AWAY],
        rotation: 0,
        entity_type: EntityType::Plant1,
        entity_mode: EntityMode::Idle,
    }
}

impl<const W: usize, const H: usize> Scene<W, H> {
    /// The height map of the scene.
    pub closed spec fn height_map_view(self) -> [[Fixed; H]; W] {
        self.height_map
    }

    /// The tree of the plants, if the scene has any.
    pub closed spec fn plants_view(self) -> Option<TreeEntity> {
        self.plants
    }

    /// The animals, in the order in which they were added.
    pub closed spec fn animals_view(self) -> Seq<Entity> {
        self.animals@
    }

    /// The plants of the scene, in the order of a walk over their tree.
    pub open spec fn plant_entities(self) -> Seq<Entity> {
        match self.plants_view() {
            Some(tree) => tree@,
            None => Seq::empty(),
        }
    }

    /// The tree that animals are kept off: the tree of the plants, or, in a
    /// scene without plants, a tree of one plant far off the map.
    pub open spec fn obstacles(self) -> TreeEntity {
        match self.plants_view() {
            Some(tree) => tree,
            None => TreeEntity::single(far_plant()),
        }
    }

    /// Whether the scene is in order: the map is small enough for every cell
    /// to be a position that an animal can walk to, and every walking animal
    /// has a target that it can step beyond.
    pub closed spec fn wf(self) -> bool {
        &&& self.width == W
        &&& self.height == H
        &&& W <= MAX_CELL + 1
        &&& H <= MAX_CELL + 1
        &&& forall|i: int|
            0 <= i < self.animals@.len() ==> (#[trigger] self.animals@[i]).target_in_range()
    }

    /// Whether a plant or an animal is at the cell `(x, z)`.
    pub open spec fn occupied(self, x: int, z: int) -> bool {
        any_at(self.plant_entities(), x * UNIT, z * UNIT) || any_at(
            self.animals_view(),
            x * UNIT,
            z * UNIT,
        )
    }

    /// Whether a new entity may be put on the cell `(x, z)`: it is a cell of
    /// the map that is at least as high as land. What stands on it already
    /// plays no part.
    pub open spec fn is_available(self, x: int, z: int) -> bool {
        in_bounds::<W, H>(x, z) && self.height_map_view()[x][z] >= LAND_VALUE
    }

    /// Whether the position of `entity` is on the map.
    pub open spec fn on_map(entity: Entity) -> bool {
        &&& 0 <= entity.position[0] < W * UNIT
        &&& 0 <= entity.position[2] < H * UNIT
    }

    /// The entity at the height of the ground below it: the elevation of the
    /// cell that it is on, if it is on the map, else the height it has.
    pub open spec fn settled(self, entity: Entity) -> Entity {
        if Self::on_map(entity) {
            Entity {
                position: [
                    entity.position[0],
                    self.height_map_view()[entity.cell().0][entity.cell().1],
                    entity.position[2],
                ],
                ..entity
            }
        } else {
            entity
        }
    }

    /// Whether `after` is this scene with `entity` added at the height of the
    /// ground below it: a plant has gone into the tree of the plants, where
    /// it starts a tree if there was none, and an animal behind the animals.
    /// Nothing else has changed.
    pub open spec fn gains(self, after: Self, entity: Entity) -> bool {
        let settled = self.settled(entity);
        &&& after.height_map_view() == self.height_map_view()
        &&& if entity.is_plant() {
            &&& after.animals_view() == self.animals_view()
            &&& after.plants_view() == Some(
                match self.plants_view() {
                    Some(tree) => tree.inserted(settled),
                    None => TreeEntity::single(settled),
                },
            )
            &&& after.plant_entities().to_multiset() == self.plant_entities().to_multiset().insert(
                settled,
            )
        } else {
            &&& after.plants_view() == self.plants_view()
            &&& after.animals_view() == self.animals_view().push(settled)
        }
    }

    /// The new entity of the given kind on the cell `(x, z)`: idle, facing
    /// the heading zero, at the height of the ground.
    pub open spec fn newcomer(self, x: int, z: int, entity_type: EntityType) -> Entity {
        Entity {
            position: [(x * UNIT) as Fixed, self.height_map_view()[x][z], (z * UNIT) as Fixed],
            rotation: 0,
            entity_type,
            entity_mode: EntityMode::Idle,
        }
    }

    /// Whether `entity` is a new entity of the given kind on a cell that is
    /// available in this scene.
    pub open spec fn is_newcomer(self, entity: Entity, entity_type: EntityType) -> bool {
        exists|x: int, z: int|
            self.is_available(x, z) && entity == #[trigger] self.newcomer(x, z, entity_type)
    }

    /// The height map of the scene.
    pub fn get_height_map(&self) -> (height_map: &[[Fixed; H]; W])
        ensures
            *height_map == self.height_map_view(),
    {
        &self.height_map
    }

    /// The tree of the plants, if the scene has any.
    pub fn get_plants(&self) -> (plants: &Option<TreeEntity>)
        ensures
            *plants == self.plants_view(),
    {
        &self.plants
    }

    /// The animals of the scene.
    pub fn get_animals(&self) -> (animals: &Vec<Entity>)
        ensures
            animals@ == self.animals_view(),
    {
        &self.animals
    }

    /// Creates the scene of a new island without plants or animals.
    ///
    /// The map starts as deep sea, an island of three quarters of its cells
    /// grows around its centre, and the whole is smoothed once, which changes
    /// it.
    pub fn new(rng: &mut StdRng) -> (scene: Self)
        requires
            W > 0,
            H > 0,
            W <= MAX_CELL + 1,
            H <= MAX_CELL + 1,
            W * H <= usize::MAX,
        ensures
            scene.wf(),
            scene.plants_view() is None,
            scene.animals_view().len() == 0,
            exists|raw: [[Fixed; H]; W]|
                is_island(raw, island_size::<W, H>()) && is_smoothed(raw, scene.height_map_view())
                    && raw != scene.height_map_view(),
    {
        let mut height_map = init_height_map::<W, H>(DEEP_VALUE);
        assert(W * H <= 163655 * 163655) by (nonlinear_arith)
            requires
                0 < W <= 163655,
                0 < H <= 163655,
        ;
        let cells: u64 = (W as u64) * (H as u64);
        let size: usize = (3 * cells / 4) as usize;
        proof {
            lemma_count_bounds(height_map, LAND_VALUE);
            assert(W * H >= 1) by (nonlinear_arith)
                requires
                    W >= 1,
                    H >= 1,
            ;
        }
        create_land(&mut height_map, size, rng);
        let ghost raw = height_map;
        proof {
            lemma_smoothing_in_range(raw, 26244);
        }
        let smoothed = smooth_height_map(height_map);
        let scene = Self { width: W, height: H, height_map: smoothed, plants: None, animals: Vec::new() };
        proof {
            let sunk = (26244int, 26244int);
            let raised = (13122int, 13122int);
            assert(is_stepped(raw, sunk, raised));
            assert(steps_are_alike(sunk, raised));
            assert(in_bounds::<W, H>(W as int / 2, H as int / 2));
            assert(!is_flat(raw));
            assert(raw != smoothed);
        }
        assert(is_island(raw, island_size::<W, H>()));
        assert(is_smoothed(raw, scene.height_map_view()));
        scene
    }

    /// Tells whether a plant or an animal is at the cell `(x, z)`.
    pub fn collides(&self, cell: (usize, usize)) -> (hit: bool)
        ensures
            hit == self.occupied(cell.0 as int, cell.1 as int),
    {
        let (x, z) = cell;
        if x > MAX_CELL + 1 || z > MAX_CELL + 1 {
            proof {
                lemma_none_beyond(self.plant_entities(), x as int, z as int);
                lemma_none_beyond(self.animals@, x as int, z as int);
            }
            return false;
        }
        let position: [Fixed; 3] = [from_whole(x), 0, from_whole(z)];
        if let Some(plants) = &self.plants {
            if plants.collide(position) {
                return true;
            }
        }
        Entity::have_another_animal(position, &self.animals)
    }

    /// Puts `entity` at the height of the ground below it, see
    /// [`Scene::settled`].
    pub fn fix_position(&self, entity: &mut Entity)
        requires
            self.wf(),
        ensures
            *final(entity) == self.settled(*old(entity)),
    {
        let x: Fixed = entity.position[0];
        let z: Fixed = entity.position[2];

        let valid_x: bool = x >= 0 && (x as i64) < (self.width as i64) * (UNIT as i64);
        let valid_z: bool = z >= 0 && (z as i64) < (self.height as i64) * (UNIT as i64);
        if valid_x && valid_z {
            let cell_x: usize = to_whole(x) as usize;
            let cell_z: usize = to_whole(z) as usize;
            assert(cell_x < W && cell_z < H) by (nonlinear_arith)
                requires
                    0 <= x < W * 13122,
                    0 <= z < H * 13122,
                    cell_x == x as int / 13122,
                    cell_z == z as int / 13122,
            ;
            let ghost before = *entity;
            entity.position[1] = self.height_map[cell_x][cell_z];
            assert(entity.position =~= self.settled(before).position);
        }
    }

    fn add_plant(&mut self, entity: Entity)
        ensures
            final(self).plants == Some(
                match old(self).plants {
                    Some(tree) => tree.inserted(entity),
                    None => TreeEntity::single(entity),
                },
            ),
            final(self).width == old(self).width,
            final(self).height == old(self).height,
            final(self).height_map == old(self).height_map,
            final(self).animals == old(self).animals,
    {
        match self.plants.take() {
            Some(mut first_node) => {
                first_node.add(entity);
                self.plants = Some(first_node);
            },
            None => {
                self.plants = Some(TreeEntity::new(entity));
            },
        }
    }

    /// Adds `entity` to the scene, at the height of the ground below it: a
    /// plant goes into the tree of the plants, an animal behind the animals.
    pub fn add_entity(&mut self, entity: Entity)
        requires
            old(self).wf(),
            entity.target_in_range(),
        ensures
            final(self).wf(),
            old(self).gains(*final(self), entity),
            forall|x: int, z: int|
                final(self).occupied(x, z) <==> old(self).occupied(x, z) || entity.is_at(
                    x * UNIT,
                    z * UNIT,
                ),
    {
        let ghost before = *self;
        let mut entity = entity;
        self.fix_position(&mut entity);
        proof {
            assert(entity.target_in_range());
            assert(forall|x: int, z: int| entity.is_at(x, z) == before.settled(entity).is_at(x, z));
        }
        match entity.get_type() {
            EntityType::Plant1 | EntityType::Plant2 => {
                proof {
                    if before.plants is Some {
                        before.plants->0.lemma_inserted(entity);
                    } else {
                        lemma_single(entity);
                    }
                }
                self.add_plant(entity);
                proof {
                    assert forall|x: int, z: int|
                        self.occupied(x, z) <==> before.occupied(x, z) || entity.is_at(
                            x * UNIT,
                            z * UNIT,
                        ) by {
                        lemma_single_occupied(entity, x * UNIT, z * UNIT);
                    }
                }
            },
            EntityType::Animal1 | EntityType::Animal2 => {
                self.animals.push(entity);
                proof {
                    assert forall|x: int, z: int|
                        self.occupied(x, z) <==> before.occupied(x, z) || entity.is_at(
                            x * UNIT,
                            z * UNIT,
                        ) by {
                        crate::scene::entity::lemma_any_at_insert(
                            before.animals@,
                            before.animals@.len() as int,
                            entity,
                            x * UNIT,
                            z * UNIT,
                        );
                        assert(before.animals@.insert(before.animals@.len() as int, entity)
                            =~= self.animals@);
                    }
                }
            },
        }
    }

    /// Lists, row by row, the cells on which a new entity may be put.
    fn available_positions(&self) -> (positions: Vec<(usize, usize)>)
        ensures
            forall|k: int|
                0 <= k < positions.len() ==> self.is_available(
                    (#[trigger] positions[k]).0 as int,
                    positions[k].1 as int,
                ),
            forall|x: int, z: int|
                self.is_available(x, z) ==> positions@.contains((x as usize, z as usize)),
    {
        let mut positions: Vec<(usize, usize)> = Vec::new();
        let mut x: usize = 0;
        while x < W
            invariant
                x <= W,
                forall|k: int|
                    0 <= k < positions.len() ==> self.is_available(
                        (#[trigger] positions[k]).0 as int,
                        positions[k].1 as int,
                    ),
                forall|i: int, j: int|
                    i < x && self.is_available(i, j) ==> positions@.contains(
                        (i as usize, j as usize),
                    ),
            decreases W - x,
        {
            let mut z: usize = 0;
            while z < H
                invariant
                    x < W,
                    z <= H,
                    forall|k: int|
                        0 <= k < positions.len() ==> self.is_available(
                            (#[trigger] positions[k]).0 as int,
                            positions[k].1 as int,
                        ),
                    forall|i: int, j: int|
                        (i < x || (i == x && j < z)) && self.is_available(i, j)
                            ==> positions@.contains((i as usize, j as usize)),
                decreases H - z,
            {
                let ghost earlier = positions@;
                if self.height_map[x][z] >= LAND_VALUE {
                    positions.push((x, z));
                    assert(positions@.last() == (x, z));
                }
                proof {
                    assert forall|i: int, j: int|
                        (i < x || (i == x && j < z + 1)) && self.is_available(
                            i,
                            j,
                        ) implies positions@.contains((i as usize, j as usize)) by {
                        if i == x && j == z {
                            assert(positions@[positions@.len() - 1] == (x, z));
                        } else {
                            assert(earlier.contains((i as usize, j as usize)));
                            let k = choose|k: int|
                                0 <= k < earlier.len() && earlier[k] == (i as usize, j as usize);
                            assert(positions@[k] == (i as usize, j as usize));
                        }
                    }
                }
                z += 1;
            }
            x += 1;
        }
        positions
    }

    /// Tells whether the scene has a cell on which a new entity may be put.
    pub fn has_available_position(&self) -> (found: bool)
        ensures
            found == exists|x: int, z: int| self.is_available(x, z),
    {
        let positions = self.available_positions();
        proof {
            if exists|x: int, z: int| self.is_available(x, z) {
                let (x, z) = choose|x: int, z: int| self.is_available(x, z);
                assert(positions@.contains((x as usize, z as usize)));
            }
            if positions.len() > 0 {
                assert(self.is_available(positions[0].0 as int, positions[0].1 as int));
            }
        }
        positions.len() > 0
    }

    /// Picks at random a cell on which a new entity may be put, see
    /// [`Scene::is_available`].
    ///
    /// Cells are drawn at random and rejected until one is suitable. After as
    /// many draws as the map has cells the position is drawn among the
    /// suitable cells directly, so the search always ends.
    pub fn get_avaliable_position(&self, rng: &mut StdRng) -> (position: (usize, usize))
        requires
            exists|x: int, z: int| self.is_available(x, z),
        ensures
            self.is_available(position.0 as int, position.1 as int),
    {
        let budget: usize = sampling_budget::<W, H>();
        let mut draws: usize = 0;
        while draws < budget
            invariant
                W > 0,
                H > 0,
            decreases budget - draws,
        {
            let x: usize = random_in_range(rng, 0, W);
            let z: usize = random_in_range(rng, 0, H);
            if self.height_map[x][z] >= LAND_VALUE {
                return (x, z);
            }
            draws += 1;
        }
        let candidates = self.available_positions();
        proof {
            let (x, z) = choose|x: int, z: int| self.is_available(x, z);
            assert(candidates@.contains((x as usize, z as usize)));
        }
        let index: usize = random_in_range(rng, 0, candidates.len());
        candidates[index]
    }

    /// Whether `after` is this scene with the entities `added`, all of the
    /// given kind, put on it: plants have gone into the tree of the plants
    /// and animals, in order, behind the animals. Nothing else has changed.
    pub open spec fn populated_with(
        self,
        after: Self,
        added: Seq<Entity>,
        entity_type: EntityType,
    ) -> bool {
        &&& after.height_map_view() == self.height_map_view()
        &&& forall|i: int|
            0 <= i < added.len() ==> self.is_newcomer(#[trigger] added[i], entity_type)
        &&& if entity_type == EntityType::Plant1 || entity_type == EntityType::Plant2 {
            &&& after.animals_view() == self.animals_view()
            &&& after.plant_entities().to_multiset() == self.plant_entities().to_multiset().add(
                added.to_multiset(),
            )
        } else {
            &&& after.plants_view() == self.plants_view()
            &&& after.animals_view() == self.animals_view() + added
        }
    }

    /// Puts `quantity` new entities of the given kind on the island, each on
    /// a land cell drawn at random, see [`Scene::get_avaliable_position`],
    /// idle and at the height of the ground.
    pub fn create_entities(&mut self, quantity: usize, entity_type: EntityType, rng: &mut StdRng)
        requires
            old(self).wf(),
            exists|x: int, z: int| old(self).is_available(x, z),
        ensures
            final(self).wf(),
            exists|added: Seq<Entity>|
                added.len() == quantity && old(self).populated_with(
                    *final(self),
                    added,
                    entity_type,
                ),
            forall|x: int, z: int| final(self).is_available(x, z) <==> old(self).is_available(x, z),
    {
        let ghost before = *self;
        let ghost mut added: Seq<Entity> = Seq::empty();
        let mut count: usize = 0;
        proof {
            assert(before.animals_view() + added =~= before.animals_view());
            added.to_multiset_ensures();
            assert forall|e: Entity| added.to_multiset().count(e) == 0 by {
                assert(!added.contains(e));
            }
            assert(before.plant_entities().to_multiset().add(added.to_multiset())
                =~= before.plant_entities().to_multiset());
        }
        while count < quantity
            invariant
                count <= quantity,
                added.len() == count,
                self.wf(),
                before.populated_with(*self, added, entity_type),
                forall|x: int, z: int| self.is_available(x, z) <==> before.is_available(x, z),
                exists|x: int, z: int| before.is_available(x, z),
            decreases quantity - count,
        {
            let (x, z) = self.get_avaliable_position(rng);
            let ghost previous = *self;
            let entity = Entity::new([from_whole(x), 0, from_whole(z)], entity_type);

            self.add_entity(entity);
            count += 1;

            proof {
                let settled = previous.settled(entity);
                assert(whole_part(x * UNIT) == x && whole_part(z * UNIT) == z);
                assert(settled.position =~= before.newcomer(
                    x as int,
                    z as int,
                    entity_type,
                ).position);
                assert(settled == before.newcomer(x as int, z as int, entity_type));
                assert(before.is_available(x as int, z as int));
                assert(before.is_newcomer(settled, entity_type));
                added.to_multiset_ensures();
                let longer = added.push(settled);
                assert(forall|i: int| 0 <= i < added.len() ==> longer[i] == added[i]);
                assert(before.animals_view() + longer =~= (before.animals_view() + added).push(
                    settled,
                ));
                assert(before.plant_entities().to_multiset().add(longer.to_multiset())
                    =~= before.plant_entities().to_multiset().add(added.to_multiset()).insert(
                    settled,
                ));
                added = longer;
            }
        }
    }

    /// Lets every animal act for one tick, see [`Entity::change_mode`]. Each
    /// animal sees the others where they were when the tick began.
    pub fn move_animals(&mut self, rng: &mut StdRng)
        requires
            old(self).wf(),
        ensures
            final(self).wf(),
            final(self).height_map_view() == old(self).height_map_view(),
            final(self).plants_view() == old(self).plants_view(),
            final(self).animals_view().len() == old(self).animals_view().len(),
            forall|i: int|
                0 <= i < old(self).animals_view().len() ==> (#[trigger] old(self).animals_view()[i]).acts(
                    final(self).animals_view()[i],
                    old(self).height_map_view(),
                    old(self).obstacles(),
                    old(self).animals_view(),
                ),
    {
        let far: TreeEntity = TreeEntity::new(
            Entity::new([FAR_AWAY, FAR_AWAY, FAR_AWAY], EntityType::Plant1),
        );
        let ghost before = *self;
        let animals = self.animals.clone();
        assert(animals@ =~= self.animals@);

        let mut i: usize = 0;
        while i < self.animals.len()
            invariant
                i <= self.animals.len(),
                self.wf(),
                self.width == before.width,
                self.height == before.height,
                self.height_map == before.height_map,
                self.plants == before.plants,
                animals@ == before.animals@,
                self.animals@.len() == before.animals@.len(),
                far == TreeEntity::single(far_plant()),
                forall|j: int| i <= j < self.animals@.len() ==> self.animals@[j] == before.animals@[j],
                forall|j: int|
                    0 <= j < i ==> (#[trigger] before.animals@[j]).acts(
                        self.animals@[j],
                        before.height_map,
                        before.obstacles(),
                        before.animals@,
                    ),
            decreases self.animals.len() - i,
        {
            let mut animal: Entity = self.animals[i];
            proof {
                animal.lemma_target_in_range();
            }
            match &self.plants {
                Some(plants) => {
                    animal.change_mode(&self.height_map, plants, &animals, rng);
                },
                None => {
                    animal.change_mode(&self.height_map, &far, &animals, rng);
                },
            }
            self.animals[i] = animal;
            i += 1;
        }
    }
}

/// No entity is at a cell with a coordinate that no position can hold.
proof fn lemma_none_beyond(entities: Seq<Entity>, x: int, z: int)
    requires
        x > MAX_CELL + 1 || z > MAX_CELL + 1,
    ensures
        !any_at(entities, x * UNIT, z * UNIT),
{
    assert forall|i: int| 0 <= i < entities.len() implies !(#[trigger] entities[i]).is_at(
        x * UNIT,
        z * UNIT,
    ) by {
        assert(entities[i].position[0] <= Fixed::MAX);
        assert(entities[i].position[2] <= Fixed::MAX);
    }
}

/// The tree of one entity holds that entity alone.
proof fn lemma_single(entity: Entity)
    ensures
        TreeEntity::single(entity)@ == seq![entity],
        TreeEntity::single(entity)@.to_multiset() == Seq::<Entity>::empty().to_multiset().insert(
            entity,
        ),
{
    TreeEntity::lemma_single_view(entity);
    crate::scene::entity::lemma_insert_to_multiset(Seq::empty(), 0, entity);
    assert(Seq::<Entity>::empty().insert(0, entity) =~= seq![entity]);
}

/// The tree of one entity is occupied where that entity is.
proof fn lemma_single_occupied(entity: Entity, x: int, z: int)
    ensures
        TreeEntity::single(entity).occupied(x, z) <==> entity.is_at(x, z),
{
    TreeEntity::lemma_built_occupied(entity, Seq::empty(), x, z);
}

} // verus!
