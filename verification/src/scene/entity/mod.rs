//! The plants and animals of the island.
use crate::fixed::{from_whole, to_whole, whole_part, Fixed, UNIT};
use crate::random::random_in_range;
use crate::scene::entity::tree_entity::TreeEntity;
use crate::utils::height_map::grid::in_bounds;
use rand::rngs::StdRng;
use vstd::prelude::*;

pub mod tree_entity;

verus! {

/// What an entity is doing.
#[derive(Clone, Copy, PartialEq, Eq, Debug)]
pub enum EntityMode {
    Idle,
    Walking { target: (Fixed, Fixed) },
}

/// The kinds of entities.
#[derive(Clone, Copy, PartialEq, Eq, Debug)]
pub enum EntityType {
    Animal1,
    Animal2,
    Plant1,
    Plant2,
}

/// A plant or an animal at a position of the island.
#[derive(Clone, Copy, PartialEq, Eq, Debug)]
pub struct Entity {
    pub position: [Fixed; 3],
    pub rotation: Fixed,
    pub entity_type: EntityType,
    pub entity_mode: EntityMode,
}

/// Whether one of `entities` is at `(x, z)`. Heights play no part.
pub open spec fn any_at(entities: Seq<Entity>, x: int, z: int) -> bool {
    exists|i: int| 0 <= i < entities.len() && (#[trigger] entities[i]).is_at(x, z)
}

/// A sequence in two parts holds an entity at a place where one of the parts does.
pub proof fn lemma_any_at_concat(front: Seq<Entity>, back: Seq<Entity>, x: int, z: int)
    ensures
        any_at(front + back, x, z) <==> any_at(front, x, z) || any_at(back, x, z),
{
    let whole = front + back;
    if any_at(front, x, z) {
        let i = choose|i: int| 0 <= i < front.len() && (#[trigger] front[i]).is_at(x, z);
        assert(whole[i].is_at(x, z));
    }
    if any_at(back, x, z) {
        let i = choose|i: int| 0 <= i < back.len() && (#[trigger] back[i]).is_at(x, z);
        assert(whole[front.len() + i].is_at(x, z));
    }
    if any_at(whole, x, z) {
        let i = choose|i: int| 0 <= i < whole.len() && (#[trigger] whole[i]).is_at(x, z);
        if i < front.len() {
            assert(front[i].is_at(x, z));
        } else {
            assert(back[i - front.len()].is_at(x, z));
        }
    }
}

/// Putting an entity into a sequence adds the place of that entity to the
/// places that the sequence holds.
pub proof fn lemma_any_at_insert(entities: Seq<Entity>, k: int, entity: Entity, x: int, z: int)
    requires
        0 <= k <= entities.len(),
    ensures
        any_at(entities.insert(k, entity), x, z) <==> any_at(entities, x, z) || entity.is_at(x, z),
{
    let longer = entities.insert(k, entity);
    assert(longer[k] == entity);
    if any_at(entities, x, z) {
        let i = choose|i: int| 0 <= i < entities.len() && (#[trigger] entities[i]).is_at(x, z);
        if i < k {
            assert(longer[i].is_at(x, z));
        } else {
            assert(longer[i + 1].is_at(x, z));
        }
    }
    if any_at(longer, x, z) {
        let i = choose|i: int| 0 <= i < longer.len() && (#[trigger] longer[i]).is_at(x, z);
        if i < k {
            assert(entities[i].is_at(x, z));
        } else if i > k {
            assert(entities[i - 1].is_at(x, z));
        }
    }
}

/// Putting an entity into a sequence adds it to the entities that the
/// sequence holds, wherever it is put.
pub proof fn lemma_insert_to_multiset(entities: Seq<Entity>, k: int, entity: Entity)
    requires
        0 <= k <= entities.len(),
    ensures
        entities.insert(k, entity).to_multiset() == entities.to_multiset().insert(entity),
{
    let longer = entities.insert(k, entity);
    longer.to_multiset_ensures();
    assert(longer[k] == entity);
    assert(longer.remove(k) =~= entities);
    assert(longer.contains(entity));
    assert(longer.to_multiset().count(entity) > 0);
    assert(longer.to_multiset() =~= longer.to_multiset().remove(entity).insert(entity));
}

/// Two sequences of the same entities, in whatever order, hold the same places.
pub proof fn lemma_any_at_same_entities(
    first: Seq<Entity>,
    second: Seq<Entity>,
    x: int,
    z: int,
)
    requires
        first.to_multiset() == second.to_multiset(),
    ensures
        any_at(first, x, z) ==> any_at(second, x, z),
{
    if any_at(first, x, z) {
        let i = choose|i: int| 0 <= i < first.len() && (#[trigger] first[i]).is_at(x, z);
        first.to_multiset_ensures();
        second.to_multiset_ensures();
        assert(first.contains(first[i]));
        assert(first.to_multiset().count(first[i]) > 0);
        assert(second.to_multiset().count(first[i]) > 0);
        assert(second.contains(first[i]));
        let j = choose|j: int| 0 <= j < second.len() && second[j] == first[i];
        assert(second[j].is_at(x, z));
    }
}

/// The distance that a walking animal covers on each axis in one tick: half a cell.
pub const SPEED: Fixed = 6561;

/// The lowest elevation on which an animal walks.
pub const VALID_HEIGHT: Fixed = UNIT;

/// The angle between two neighbouring headings: 45 degrees.
pub const TURN: Fixed = 590490;

/// The greatest coordinate of a cell that an animal walks to: a step beyond
/// that cell is still a fixed-point number.
pub const MAX_CELL: usize = 163654;

/// Whether every cell of a `W` by `H` map is a position that an animal can
/// walk to: the map has no row or column beyond [`MAX_CELL`].
pub open spec fn is_walkable_size<const W: usize, const H: usize>() -> bool {
    W <= MAX_CELL + 1 && H <= MAX_CELL + 1
}

/// The `k`-th of the eight cells around the cell `(x, z)`, counted from the
/// one with the greater `x` round by the one with the greater `z`.
pub open spec fn neighbor_cell(x: int, z: int, k: int) -> (int, int) {
    if k == 0 {
        (x + 1, z)
    } else if k == 1 {
        (x + 1, z + 1)
    } else if k == 2 {
        (x, z + 1)
    } else if k == 3 {
        (x - 1, z + 1)
    } else if k == 4 {
        (x - 1, z)
    } else if k == 5 {
        (x - 1, z - 1)
    } else if k == 6 {
        (x, z - 1)
    } else {
        (x + 1, z - 1)
    }
}

/// Whether an animal may step onto the cell `(x, z)`: it is a cell of the
/// map, it is at least as high as [`VALID_HEIGHT`], and neither a plant nor
/// an animal is there.
pub open spec fn is_free_cell<const W: usize, const H: usize>(
    height_map: [[Fixed; H]; W],
    tree_plants: TreeEntity,
    animals: Seq<Entity>,
    x: int,
    z: int,
) -> bool {
    &&& in_bounds::<W, H>(x, z)
    &&& height_map[x][z] >= VALID_HEIGHT
    &&& !tree_plants.occupied(x * UNIT, z * UNIT)
    &&& !any_at(animals, x * UNIT, z * UNIT)
}

/// The indices, in order, of those among the first `k` of `cells` that an
/// animal may step onto.
pub open spec fn valid_among<const W: usize, const H: usize>(
    cells: Seq<(isize, isize)>,
    height_map: [[Fixed; H]; W],
    tree_plants: TreeEntity,
    animals: Seq<Entity>,
    k: nat,
) -> Seq<usize>
    decreases k,
{
    if k == 0 {
        Seq::empty()
    } else {
        let earlier = valid_among(cells, height_map, tree_plants, animals, (k - 1) as nat);
        if is_free_cell(
            height_map,
            tree_plants,
            animals,
            cells[k - 1].0 as int,
            cells[k - 1].1 as int,
        ) {
            earlier.push((k - 1) as usize)
        } else {
            earlier
        }
    }
}

/// The whole part of a fixed-point number is within the whole numbers that
/// the type can hold.
pub proof fn lemma_whole_part_bounds(value: int)
    requires
        Fixed::MIN <= value <= Fixed::MAX,
    ensures
        -163655 <= whole_part(value) <= 163655,
{
    assert(-163655 <= whole_part(value) <= 163655) by (nonlinear_arith)
        requires
            -2147483648 <= value <= 2147483647,
            whole_part(value) == if value >= 0 {
                value / 13122
            } else {
                -((-value) / 13122)
            },
    ;
}

/// The indices of the valid cells are indices of `cells`, each of a cell
/// that is free, and none is listed if no cell is free.
pub proof fn lemma_valid_among<const W: usize, const H: usize>(
    cells: Seq<(isize, isize)>,
    height_map: [[Fixed; H]; W],
    tree_plants: TreeEntity,
    animals: Seq<Entity>,
    k: nat,
)
    requires
        k <= cells.len(),
        k <= usize::MAX,
    ensures
        forall|j: int|
            0 <= j < valid_among(cells, height_map, tree_plants, animals, k).len() ==> {
                let i = #[trigger] valid_among(cells, height_map, tree_plants, animals, k)[j];
                &&& i < k
                &&& is_free_cell(
                    height_map,
                    tree_plants,
                    animals,
                    cells[i as int].0 as int,
                    cells[i as int].1 as int,
                )
            },
        (forall|i: int|
            0 <= i < k ==> !is_free_cell(
                height_map,
                tree_plants,
                animals,
                (#[trigger] cells[i]).0 as int,
                cells[i].1 as int,
            )) ==> valid_among(cells, height_map, tree_plants, animals, k).len() == 0,
    decreases k,
{
    if k > 0 {
        lemma_valid_among(cells, height_map, tree_plants, animals, (k - 1) as nat);
        let earlier = valid_among(cells, height_map, tree_plants, animals, (k - 1) as nat);
        let all = valid_among(cells, height_map, tree_plants, animals, k);
        assert forall|j: int| 0 <= j < all.len() implies {
            let i = #[trigger] all[j];
            &&& i < k
            &&& is_free_cell(
                height_map,
                tree_plants,
                animals,
                cells[i as int].0 as int,
                cells[i as int].1 as int,
            )
        } by {
            if j < earlier.len() {
                assert(all[j] == earlier[j]);
            }
        }
    }
}

impl Entity {
    /// Whether the entity is a plant.
    pub open spec fn is_plant(self) -> bool {
        self.entity_type == EntityType::Plant1 || self.entity_type == EntityType::Plant2
    }

    /// Where a coordinate at `from` is after one step towards `to`: it moves
    /// by [`SPEED`] towards `to`, and stays where it is if it is there.
    pub open spec fn stepped(from: int, to: int) -> int {
        if to > from {
            from + SPEED
        } else if to < from {
            from - SPEED
        } else {
            from
        }
    }

    /// Whether the entity can take its next step: it takes none, or the
    /// position after the step is a fixed-point number on both axes.
    pub open spec fn can_step(self) -> bool {
        match self.entity_mode {
            EntityMode::Idle => true,
            EntityMode::Walking { target } => self.is_plant() || self.is_at(
                target.0 as int,
                target.1 as int,
            ) || {
                &&& Fixed::MIN <= Self::stepped(self.position[0] as int, target.0 as int)
                    <= Fixed::MAX
                &&& Fixed::MIN <= Self::stepped(self.position[2] as int, target.1 as int)
                    <= Fixed::MAX
            },
        }
    }

    /// The entity after walking for one tick. A plant and an idle entity stay
    /// as they are. A walking animal that is at its target becomes idle where
    /// it is. Any other takes one step towards the target on each axis on
    /// which it is not there yet, a full step even where less is left.
    pub open spec fn walked(self) -> Entity {
        match self.entity_mode {
            EntityMode::Idle => self,
            EntityMode::Walking { target } => if self.is_plant() {
                self
            } else if self.is_at(target.0 as int, target.1 as int) {
                Entity { entity_mode: EntityMode::Idle, ..self }
            } else {
                Entity {
                    position: [
                        Self::stepped(self.position[0] as int, target.0 as int) as Fixed,
                        self.position[1],
                        Self::stepped(self.position[2] as int, target.1 as int) as Fixed,
                    ],
                    ..self
                }
            },
        }
    }

    /// The entity setting out for the cell `(x, z)`, the neighbour of number
    /// `index` of its own: it walks to that cell and faces the heading of
    /// that number, where it is.
    pub open spec fn heading_for(self, x: int, z: int, index: int) -> Entity {
        Entity {
            rotation: (index * TURN) as Fixed,
            entity_mode: EntityMode::Walking { target: ((x * UNIT) as Fixed, (z * UNIT) as Fixed) },
            ..self
        }
    }

    /// Whether the target of the entity, if it walks, leaves room for a step
    /// beyond it on both axes. Such an entity can always take its next step.
    pub open spec fn target_in_range(self) -> bool {
        match self.entity_mode {
            EntityMode::Idle => true,
            EntityMode::Walking { target } => {
                &&& Fixed::MIN + SPEED <= target.0 <= Fixed::MAX - SPEED
                &&& Fixed::MIN + SPEED <= target.1 <= Fixed::MAX - SPEED
            },
        }
    }

    /// Whether `after` is what the idle animal `self` may become in one tick:
    /// itself if it may step onto none of the cells around it, else itself
    /// setting out for one of those that it may step onto.
    pub open spec fn idle_turn<const W: usize, const H: usize>(
        self,
        after: Entity,
        height_map: [[Fixed; H]; W],
        tree_plants: TreeEntity,
        animals: Seq<Entity>,
    ) -> bool {
        let cells = self.neighbor_cells();
        let valid = valid_among(cells, height_map, tree_plants, animals, 8);
        if valid.len() == 0 {
            after == self
        } else {
            exists|j: int|
                0 <= j < valid.len() && after == self.heading_for(
                    cells[(#[trigger] valid[j]) as int].0 as int,
                    cells[valid[j] as int].1 as int,
                    valid[j] as int,
                )
        }
    }

    /// Whether `after` is what the entity may become in one tick: a plant
    /// stays as it is, a walking animal walks, and an idle animal stays or
    /// sets out, see [`Entity::idle_turn`].
    pub open spec fn acts<const W: usize, const H: usize>(
        self,
        after: Entity,
        height_map: [[Fixed; H]; W],
        tree_plants: TreeEntity,
        animals: Seq<Entity>,
    ) -> bool {
        if self.is_plant() {
            after == self
        } else if self.entity_mode == EntityMode::Idle {
            self.idle_turn(after, height_map, tree_plants, animals)
        } else {
            after == self.walked()
        }
    }

    /// An idle animal that may step onto none of the eight cells around its
    /// own stays idle, and stays where it is, for the tick.
    pub proof fn lemma_hemmed_in_stays<const W: usize, const H: usize>(
        self,
        after: Entity,
        height_map: [[Fixed; H]; W],
        tree_plants: TreeEntity,
        animals: Seq<Entity>,
    )
        requires
            !self.is_plant(),
            self.entity_mode == EntityMode::Idle,
            forall|k: int|
                0 <= k < 8 ==> !is_free_cell(
                    height_map,
                    tree_plants,
                    animals,
                    #[trigger] neighbor_cell(self.cell().0, self.cell().1, k).0,
                    neighbor_cell(self.cell().0, self.cell().1, k).1,
                ),
            self.acts(after, height_map, tree_plants, animals),
        ensures
            after.entity_mode == EntityMode::Idle,
            after.position == self.position,
            after == self,
    {
        let cells = self.neighbor_cells();
        lemma_whole_part_bounds(self.position[0] as int);
        lemma_whole_part_bounds(self.position[2] as int);
        assert forall|i: int| 0 <= i < 8 implies !is_free_cell(
            height_map,
            tree_plants,
            animals,
            (#[trigger] cells[i]).0 as int,
            cells[i].1 as int,
        ) by {
            let c = neighbor_cell(self.cell().0, self.cell().1, i);
            assert(cells[i].0 == c.0 && cells[i].1 == c.1);
        }
        lemma_valid_among(cells, height_map, tree_plants, animals, 8);
    }

    /// A walking animal that is at its target already becomes idle, and
    /// stays where it is, for the tick.
    pub proof fn lemma_arrival<const W: usize, const H: usize>(
        self,
        after: Entity,
        height_map: [[Fixed; H]; W],
        tree_plants: TreeEntity,
        animals: Seq<Entity>,
    )
        requires
            !self.is_plant(),
            self.entity_mode matches EntityMode::Walking { target } && self.is_at(
                target.0 as int,
                target.1 as int,
            ),
            self.acts(after, height_map, tree_plants, animals),
        ensures
            after.entity_mode == EntityMode::Idle,
            after.position == self.position,
    {
    }

    /// An entity whose target is in range can take its next step, and its
    /// target is in range after it.
    pub proof fn lemma_target_in_range(self)
        requires
            self.target_in_range(),
        ensures
            self.can_step(),
            self.walked().target_in_range(),
    {
    }

    /// The cell that the entity is on: its position, each coordinate rounded
    /// towards zero.
    pub open spec fn cell(self) -> (int, int) {
        (whole_part(self.position[0] as int), whole_part(self.position[2] as int))
    }

    /// The eight cells around the cell that the entity is on.
    pub open spec fn neighbor_cells(self) -> Seq<(isize, isize)> {
        Seq::new(
            8,
            |k: int|
                (
                    neighbor_cell(self.cell().0, self.cell().1, k).0 as isize,
                    neighbor_cell(self.cell().0, self.cell().1, k).1 as isize,
                ),
        )
    }

    /// Whether the entity is at `(x, z)`, whatever its height.
    pub open spec fn is_at(self, x: int, z: int) -> bool {
        self.position[0] == x && self.position[2] == z
    }

    /// Creates an idle entity of the given kind at `position`, facing the
    /// heading zero.
    pub fn new(position: [Fixed; 3], entity_type: EntityType) -> (entity: Self)
        ensures
            entity.position == position,
            entity.rotation == 0,
            entity.entity_type == entity_type,
            entity.entity_mode == EntityMode::Idle,
    {
        Self { position, rotation: 0, entity_type, entity_mode: EntityMode::Idle }
    }

    /// The kind of the entity.
    pub fn get_type(&self) -> (entity_type: EntityType)
        ensures
            entity_type == self.entity_type,
    {
        self.entity_type
    }

    /// Makes the entity face `angle`.
    pub fn set_rotation(&mut self, angle: Fixed)
        ensures
            final(self).rotation == angle,
            final(self).position == old(self).position,
            final(self).entity_type == old(self).entity_type,
            final(self).entity_mode == old(self).entity_mode,
    {
        self.rotation = angle;
    }

    fn plant(&self) -> (plant: bool)
        ensures
            plant == self.is_plant(),
    {
        match self.entity_type {
            EntityType::Plant1 => true,
            EntityType::Plant2 => true,
            _ => false,
        }
    }

    /// Lets the entity walk for one tick, see [`Entity::walked`].
    pub fn walk(&mut self)
        requires
            old(self).can_step(),
        ensures
            *final(self) == old(self).walked(),
    {
        let ghost before = *self;
        if self.plant() {
            return ;
        }
        let (target_x, target_z) = match self.entity_mode {
            EntityMode::Walking { target } => target,
            EntityMode::Idle => {
                return ;
            },
        };

        if self.position[0] == target_x && self.position[2] == target_z {
            self.entity_mode = EntityMode::Idle;
            return ;
        }
        let step_x: Fixed = if target_x > self.position[0] {
            SPEED
        } else if target_x < self.position[0] {
            -SPEED
        } else {
            0
        };
        let step_z: Fixed = if target_z > self.position[2] {
            SPEED
        } else if target_z < self.position[2] {
            -SPEED
        } else {
            0
        };

        self.position[0] = self.position[0] + step_x;
        self.position[2] = self.position[2] + step_z;
        assert(self.position =~= before.walked().position);
    }

    /// Sends the entity to the cell `(x, z)`, which is the neighbour of number
    /// `position_index` of its own cell: the entity now walks to that cell and
    /// faces the heading of that number.
    pub fn set_out(&mut self, x: usize, z: usize, position_index: usize)
        requires
            x <= MAX_CELL,
            z <= MAX_CELL,
            position_index < 8,
        ensures
            *final(self) == old(self).heading_for(x as int, z as int, position_index as int),
            final(self).target_in_range(),
    {
        self.entity_mode = EntityMode::Walking { target: (from_whole(x), from_whole(z)) };
        self.set_rotation((position_index as Fixed) * TURN);
    }

    /// Tells whether one of `animals` is at the `x` and the `z` of `position`.
    pub fn have_another_animal(position: [Fixed; 3], animals: &Vec<Entity>) -> (found: bool)
        ensures
            found == any_at(animals@, position[0] as int, position[2] as int),
    {
        let mut i: usize = 0;
        while i < animals.len()
            invariant
                i <= animals.len(),
                forall|j: int|
                    0 <= j < i ==> !(#[trigger] animals@[j]).is_at(
                        position[0] as int,
                        position[2] as int,
                    ),
            decreases animals.len() - i,
        {
            if animals[i].position[0] == position[0] && animals[i].position[2] == position[2] {
                return true;
            }
            i += 1;
        }
        false
    }

    fn free_cell<const W: usize, const H: usize>(
        x: isize,
        z: isize,
        height_map: &[[Fixed; H]; W],
        tree_plants: &TreeEntity,
        animals: &Vec<Entity>,
    ) -> (free: bool)
        requires
            is_walkable_size::<W, H>(),
        ensures
            free == is_free_cell(*height_map, *tree_plants, animals@, x as int, z as int),
    {
        if x < 0 || z < 0 {
            return false;
        }
        let cell_x: usize = x as usize;
        let cell_z: usize = z as usize;
        if !(cell_x < W && cell_z < H) {
            return false;
        }
        let pos: [Fixed; 3] = [from_whole(cell_x), 0, from_whole(cell_z)];
        height_map[cell_x][cell_z] >= VALID_HEIGHT && !tree_plants.collide(pos)
            && !Self::have_another_animal(pos, animals)
    }

    /// Lists the indices of those of `possible_position` that an animal may
    /// step onto, see [`is_free_cell`]. The map is one on which every cell is
    /// a fixed-point position, see [`is_walkable_size`].
    pub fn get_valid_position<const W: usize, const H: usize>(
        possible_position: &Vec<(isize, isize)>,
        height_map: &[[Fixed; H]; W],
        tree_plants: &TreeEntity,
        animals: &Vec<Entity>,
    ) -> (valid_positions: Vec<usize>)
        requires
            is_walkable_size::<W, H>(),
        ensures
            valid_positions@ == valid_among(
                possible_position@,
                *height_map,
                *tree_plants,
                animals@,
                possible_position@.len(),
            ),
    {
        let mut valid_positions: Vec<usize> = Vec::new();
        let mut i: usize = 0;
        while i < possible_position.len()
            invariant
                i <= possible_position.len(),
                is_walkable_size::<W, H>(),
                valid_positions@ == valid_among(
                    possible_position@,
                    *height_map,
                    *tree_plants,
                    animals@,
                    i as nat,
                ),
            decreases possible_position.len() - i,
        {
            let (x, z) = possible_position[i];
            if Self::free_cell(x, z, height_map, tree_plants, animals) {
                valid_positions.push(i);
            }
            i += 1;
        }
        valid_positions
    }

    /// Lets the entity act for one tick.
    ///
    /// A plant does nothing. A walking animal walks, see [`Entity::walk`]. An
    /// idle animal looks at the eight cells around its own: if it may step
    /// onto none of them it stays idle where it is, else it sets out for one
    /// of those it may step onto, drawn at random, see [`Entity::set_out`].
    pub fn change_mode<const W: usize, const H: usize>(
        &mut self,
        height_map: &[[Fixed; H]; W],
        tree_plants: &TreeEntity,
        animals: &Vec<Entity>,
        rng: &mut StdRng,
    )
        requires
            old(self).can_step(),
            is_walkable_size::<W, H>(),
        ensures
            old(self).acts(*final(self), *height_map, *tree_plants, animals@),
            old(self).target_in_range() ==> final(self).target_in_range(),
    {
        proof {
            if self.target_in_range() {
                self.lemma_target_in_range();
            }
        }
        if self.plant() {
            return ;
        }
        match self.entity_mode {
            EntityMode::Idle => {
                let current_x: isize = to_whole(self.position[0]) as isize;
                let current_z: isize = to_whole(self.position[2]) as isize;
                let possible_position: Vec<(isize, isize)> = vec![
                    (current_x + 1, current_z),
                    (current_x + 1, current_z + 1),
                    (current_x, current_z + 1),
                    (current_x - 1, current_z + 1),
                    (current_x - 1, current_z),
                    (current_x - 1, current_z - 1),
                    (current_x, current_z - 1),
                    (current_x + 1, current_z - 1),
                ];
                assert(possible_position@ =~= self.neighbor_cells());
                let valid_positions = Self::get_valid_position(
                    &possible_position,
                    height_map,
                    tree_plants,
                    animals,
                );
                proof {
                    lemma_valid_among(
                        possible_position@,
                        *height_map,
                        *tree_plants,
                        animals@,
                        8,
                    );
                }

                if valid_positions.len() == 0 {
                    return ;
                }
                let index: usize = random_in_range(rng, 0, valid_positions.len());

                let position_index: usize = valid_positions[index];
                let (x, z) = possible_position[position_index];
                self.set_out(x as usize, z as usize, position_index);
            },
            EntityMode::Walking { .. } => {
                self.walk();
            },
        }
    }
}

} // verus!
