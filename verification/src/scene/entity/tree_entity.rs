//! The tree that holds the plants: every node keeps one entity and up to four
//! subtrees, one for each quadrant around the position of that entity.
use crate::fixed::Fixed;
use crate::scene::entity::{
    any_at, lemma_any_at_concat, lemma_any_at_insert, lemma_any_at_same_entities,
    lemma_insert_to_multiset, Entity,
};
use vstd::prelude::*;

verus! {

/// A node of the tree, with the subtrees of its four quadrants.
#[derive(Debug, PartialEq)]
pub struct TreeEntity {
    pub key: Entity,
    /// The entities with a greater `x` and a greater `z` than the key.
    beyond_both: Option<Box<TreeEntity>>,
    /// The entities with a greater `x` only.
    beyond_x: Option<Box<TreeEntity>>,
    /// The entities with a greater `z` only.
    beyond_z: Option<Box<TreeEntity>>,
    /// The entities with neither.
    beyond_none: Option<Box<TreeEntity>>,
}

/// The quadrant around `key` in which `child` lies, by strict comparison of
/// `x` and of `z`: 0 if both are greater than the key's, 1 if only `x` is,
/// 2 if only `z` is, 3 if neither is.
pub open spec fn quadrant(key: Entity, child: Entity) -> int {
    if key.position[0] < child.position[0] {
        if key.position[2] < child.position[2] {
            0
        } else {
            1
        }
    } else {
        if key.position[2] < child.position[2] {
            2
        } else {
            3
        }
    }
}

/// Whether every one of `entities` lies in quadrant `q` around `key`.
pub open spec fn all_in_quadrant(key: Entity, entities: Seq<Entity>, q: int) -> bool {
    forall|i: int| 0 <= i < entities.len() ==> quadrant(key, #[trigger] entities[i]) == q
}

impl View for TreeEntity {
    type V = Seq<Entity>;

    /// The entities of the tree in the order of a walk that visits a node
    /// before its subtrees, and the subtrees by the number of their quadrant.
    open spec fn view(&self) -> Seq<Entity> {
        self.keys()
    }
}

impl TreeEntity {
    /// The entity that the root of the tree holds.
    pub closed spec fn root(self) -> Entity {
        self.key
    }

    /// The entities of the tree, the key first, then those of each quadrant.
    pub closed spec fn keys(self) -> Seq<Entity>
        decreases self,
    {
        seq![self.key] + Self::leaf_keys(self.beyond_both) + Self::leaf_keys(self.beyond_x)
            + Self::leaf_keys(self.beyond_z) + Self::leaf_keys(self.beyond_none)
    }

    /// The entities of a subtree that may be missing.
    pub closed spec fn leaf_keys(leaf: Option<Box<TreeEntity>>) -> Seq<Entity>
        decreases leaf,
    {
        match leaf {
            None => Seq::empty(),
            Some(node) => node.keys(),
        }
    }

    /// The subtree of quadrant `q`, if `q` is one of the four quadrants and
    /// the tree has a subtree there.
    pub closed spec fn leaf_at(self, q: int) -> Option<TreeEntity> {
        let leaf = if q == 0 {
            self.beyond_both
        } else if q == 1 {
            self.beyond_x
        } else if q == 2 {
            self.beyond_z
        } else if q == 3 {
            self.beyond_none
        } else {
            None
        };
        match leaf {
            None => None,
            Some(node) => Some(*node),
        }
    }

    /// The entities of the subtree of quadrant `q`, in the order of a walk
    /// over it; none where the tree has no subtree there.
    pub open spec fn leaf_view(self, q: int) -> Seq<Entity> {
        match self.leaf_at(q) {
            Some(tree) => tree@,
            None => Seq::empty(),
        }
    }

    /// Whether `after` is this tree with `child` added: the root is the same,
    /// the subtree of the quadrant around the root in which `child` lies has
    /// taken `child` in, or holds `child` alone if there was none, and the
    /// other three subtrees are as they were. The walk over `after` visits
    /// the root, then the four subtrees in the order of their quadrants.
    pub open spec fn takes_in(self, after: TreeEntity, child: Entity) -> bool {
        let q = quadrant(self.root(), child);
        &&& after.root() == self.root()
        &&& after.leaf_at(q) == Some(
            match self.leaf_at(q) {
                Some(tree) => tree.inserted(child),
                None => Self::single(child),
            },
        )
        &&& forall|p: int| p != q ==> after.leaf_at(p) == self.leaf_at(p)
        &&& after.leaf_view(q) == match self.leaf_at(q) {
            Some(tree) => tree.inserted(child)@,
            None => seq![child],
        }
        &&& after@ == seq![after.root()] + after.leaf_view(0) + after.leaf_view(1)
            + after.leaf_view(2) + after.leaf_view(3)
    }

    /// Whether `node` is the tree itself or one of the subtrees below it.
    pub closed spec fn has_node(self, node: TreeEntity) -> bool
        decreases self,
    {
        ||| node == self
        ||| Self::leaf_has_node(self.beyond_both, node)
        ||| Self::leaf_has_node(self.beyond_x, node)
        ||| Self::leaf_has_node(self.beyond_z, node)
        ||| Self::leaf_has_node(self.beyond_none, node)
    }

    /// Whether `node` is in a subtree that may be missing.
    pub closed spec fn leaf_has_node(leaf: Option<Box<TreeEntity>>, node: TreeEntity) -> bool
        decreases leaf,
    {
        match leaf {
            None => false,
            Some(child) => child.has_node(node),
        }
    }

    /// Whether every entity below a node lies in the quadrant of the subtree
    /// that holds it, at every node of the tree.
    pub closed spec fn well_formed(self) -> bool
        decreases self,
    {
        &&& all_in_quadrant(self.key, Self::leaf_keys(self.beyond_both), 0)
        &&& all_in_quadrant(self.key, Self::leaf_keys(self.beyond_x), 1)
        &&& all_in_quadrant(self.key, Self::leaf_keys(self.beyond_z), 2)
        &&& all_in_quadrant(self.key, Self::leaf_keys(self.beyond_none), 3)
        &&& Self::leaf_well_formed(self.beyond_both)
        &&& Self::leaf_well_formed(self.beyond_x)
        &&& Self::leaf_well_formed(self.beyond_z)
        &&& Self::leaf_well_formed(self.beyond_none)
    }

    /// Whether a subtree that may be missing is well formed.
    pub closed spec fn leaf_well_formed(leaf: Option<Box<TreeEntity>>) -> bool
        decreases leaf,
    {
        match leaf {
            None => true,
            Some(node) => node.well_formed(),
        }
    }

    /// The tree with `child` added: `child` goes down from the root, at each
    /// node into the quadrant in which it lies, and becomes a node of its own
    /// where that quadrant has no subtree yet.
    pub closed spec fn inserted(self, child: Entity) -> TreeEntity
        decreases self,
    {
        let q = quadrant(self.key, child);
        if q == 0 {
            TreeEntity { beyond_both: Self::leaf_inserted(self.beyond_both, child), ..self }
        } else if q == 1 {
            TreeEntity { beyond_x: Self::leaf_inserted(self.beyond_x, child), ..self }
        } else if q == 2 {
            TreeEntity { beyond_z: Self::leaf_inserted(self.beyond_z, child), ..self }
        } else {
            TreeEntity { beyond_none: Self::leaf_inserted(self.beyond_none, child), ..self }
        }
    }

    /// A subtree that may be missing, with `child` added.
    pub closed spec fn leaf_inserted(leaf: Option<Box<TreeEntity>>, child: Entity) -> Option<
        Box<TreeEntity>,
    >
        decreases leaf,
    {
        match leaf {
            None => Some(Box::new(Self::single(child))),
            Some(node) => Some(Box::new(node.inserted(child))),
        }
    }

    /// The tree that holds `key` alone.
    pub closed spec fn single(key: Entity) -> TreeEntity {
        TreeEntity { key, beyond_both: None, beyond_x: None, beyond_z: None, beyond_none: None }
    }

    /// The tree that results from adding each of `items`, in order, to the
    /// tree that holds `root` alone.
    pub open spec fn built(root: Entity, items: Seq<Entity>) -> TreeEntity
        decreases items.len(),
    {
        if items.len() == 0 {
            Self::single(root)
        } else {
            Self::built(root, items.drop_last()).inserted(items.last())
        }
    }

    /// Whether `after` is `before` with `child` put in somewhere behind the
    /// first entity.
    pub open spec fn inserted_somewhere(
        before: Seq<Entity>,
        after: Seq<Entity>,
        child: Entity,
    ) -> bool {
        exists|k: int| 1 <= k <= before.len() && after == #[trigger] before.insert(k, child)
    }

    /// Whether an entity of the tree is at `(x, z)`.
    pub open spec fn occupied(self, x: int, z: int) -> bool {
        any_at(self@, x, z)
    }

    /// Creates the tree that holds `key` alone.
    pub fn new(key: Entity) -> (tree: Self)
        ensures
            tree == Self::single(key),
            tree.root() == key,
            tree@ == seq![key],
            tree.well_formed(),
            forall|q: int| tree.leaf_at(q) is None,
    {
        let tree = Self {
            key,
            beyond_both: None,
            beyond_x: None,
            beyond_z: None,
            beyond_none: None,
        };
        assert(tree.keys() =~= seq![key]);
        tree
    }

    fn add_to_leaf(leaf: &mut Option<Box<TreeEntity>>, child: Entity)
        ensures
            *final(leaf) == Self::leaf_inserted(*old(leaf), child),
        decreases *old(leaf),
    {
        match leaf.take() {
            None => {
                *leaf = Some(Box::new(TreeEntity::new(child)));
            },
            Some(mut node) => {
                node.add(child);
                *leaf = Some(node);
            },
        }
    }

    /// Adds `child` to the tree. It goes down from the root, at each node into
    /// the quadrant in which it lies, see [`quadrant`], and becomes a node of
    /// its own where that quadrant has no subtree yet. Nothing else in the
    /// tree moves.
    pub fn add(&mut self, child: Entity)
        ensures
            *final(self) == old(self).inserted(child),
            old(self).takes_in(*final(self), child),
            Self::inserted_somewhere(old(self)@, final(self)@, child),
            final(self)@.to_multiset() == old(self)@.to_multiset().insert(child),
            forall|x: int, z: int|
                final(self).occupied(x, z) <==> old(self).occupied(x, z) || child.is_at(x, z),
            old(self).well_formed() ==> final(self).well_formed(),
        decreases *old(self),
    {
        proof {
            old(self).lemma_inserted(child);
        }
        if self.key.position[0] < child.position[0] {
            if self.key.position[2] < child.position[2] {
                Self::add_to_leaf(&mut self.beyond_both, child);
            } else {
                Self::add_to_leaf(&mut self.beyond_x, child);
            }
        } else {
            if self.key.position[2] < child.position[2] {
                Self::add_to_leaf(&mut self.beyond_z, child);
            } else {
                Self::add_to_leaf(&mut self.beyond_none, child);
            }
        }
    }

    fn leaf_collides(leaf: &Option<Box<TreeEntity>>, position: [Fixed; 3]) -> (hit: bool)
        ensures
            hit == any_at(Self::leaf_keys(*leaf), position[0] as int, position[2] as int),
        decreases leaf,
    {
        match leaf {
            None => false,
            Some(child) => child.collide(position),
        }
    }

    /// Tells whether an entity of the tree is at the `x` and the `z` of
    /// `position`. The height plays no part. Every node is looked at.
    pub fn collide(&self, position: [Fixed; 3]) -> (hit: bool)
        ensures
            hit == self.occupied(position[0] as int, position[2] as int),
        decreases self,
    {
        let ghost x = position[0] as int;
        let ghost z = position[2] as int;
        let ghost k0 = Self::leaf_keys(self.beyond_both);
        let ghost k1 = Self::leaf_keys(self.beyond_x);
        let ghost k2 = Self::leaf_keys(self.beyond_z);
        let ghost k3 = Self::leaf_keys(self.beyond_none);
        proof {
            let head = seq![self.key];
            lemma_any_at_concat(head, k0, x, z);
            lemma_any_at_concat(head + k0, k1, x, z);
            lemma_any_at_concat(head + k0 + k1, k2, x, z);
            lemma_any_at_concat(head + k0 + k1 + k2, k3, x, z);
            assert(head[0] == self.key);
            assert(any_at(head, x, z) == self.key.is_at(x, z));
        }
        if self.key.position[0] == position[0] && self.key.position[2] == position[2] {
            return true;
        }
        if Self::leaf_collides(&self.beyond_both, position) {
            return true;
        }
        if Self::leaf_collides(&self.beyond_x, position) {
            return true;
        }
        if Self::leaf_collides(&self.beyond_z, position) {
            return true;
        }
        Self::leaf_collides(&self.beyond_none, position)
    }

    fn leaf_entities(leaf: &Option<Box<TreeEntity>>) -> (walk: Vec<Entity>)
        ensures
            walk@ == Self::leaf_keys(*leaf),
        decreases leaf,
    {
        match leaf {
            None => Vec::new(),
            Some(child) => child.entities(),
        }
    }

    /// Lists the entities of the tree in the order of a walk that visits a
    /// node before the nodes below it, and the subtrees by the number of
    /// their quadrant.
    pub fn entities(&self) -> (walk: Vec<Entity>)
        ensures
            walk@ == self@,
        decreases self,
    {
        let mut walk: Vec<Entity> = Vec::new();
        walk.push(self.key);
        let mut beyond_both = Self::leaf_entities(&self.beyond_both);
        walk.append(&mut beyond_both);
        let mut beyond_x = Self::leaf_entities(&self.beyond_x);
        walk.append(&mut beyond_x);
        let mut beyond_z = Self::leaf_entities(&self.beyond_z);
        walk.append(&mut beyond_z);
        let mut beyond_none = Self::leaf_entities(&self.beyond_none);
        walk.append(&mut beyond_none);
        assert(walk@ =~= self.keys());
        walk
    }

    /// The subtree of the given quadrant, if the tree has one there.
    pub fn leaf(&self, quadrant: usize) -> (subtree: Option<&TreeEntity>)
        ensures
            match subtree {
                Some(node) => self.leaf_at(quadrant as int) == Some(*node),
                None => self.leaf_at(quadrant as int) is None,
            },
    {
        let leaf = if quadrant == 0 {
            &self.beyond_both
        } else if quadrant == 1 {
            &self.beyond_x
        } else if quadrant == 2 {
            &self.beyond_z
        } else if quadrant == 3 {
            &self.beyond_none
        } else {
            return None;
        };
        match leaf {
            Some(node) => Some(&**node),
            None => None,
        }
    }

    fn apply_to_leaf<F: Fn(&TreeEntity)>(leaf: &Option<Box<TreeEntity>>, function: &F)
        requires
            forall|node: TreeEntity|
                Self::leaf_has_node(*leaf, node) ==> call_requires(*function, (&node,)),
        decreases leaf,
    {
        match leaf {
            None => {},
            Some(child) => {
                assert forall|node: TreeEntity| child.has_node(node) implies call_requires(
                    *function,
                    (&node,),
                ) by {
                    assert(Self::leaf_has_node(*leaf, node));
                }
                child.applly_function(function)
            },
        }
    }

    /// Calls `function` on every node of the tree: on a node before the
    /// nodes below it, and on the subtrees by the number of their quadrant.
    pub fn applly_function<F: Fn(&TreeEntity)>(&self, function: &F)
        requires
            forall|node: TreeEntity| self.has_node(node) ==> call_requires(*function, (&node,)),
        decreases self,
    {
        assert(self.has_node(*self));
        assert forall|node: TreeEntity|
            Self::leaf_has_node(self.beyond_both, node) || Self::leaf_has_node(self.beyond_x, node)
                || Self::leaf_has_node(self.beyond_z, node) || Self::leaf_has_node(
                self.beyond_none,
                node,
            ) implies call_requires(*function, (&node,)) by {
            assert(self.has_node(node));
        }
        function(self);
        Self::apply_to_leaf(&self.beyond_both, function);
        Self::apply_to_leaf(&self.beyond_x, function);
        Self::apply_to_leaf(&self.beyond_z, function);
        Self::apply_to_leaf(&self.beyond_none, function);
    }

    /// The tree of one entity holds that entity alone, has no subtree and is
    /// well formed.
    pub proof fn lemma_single_view(key: Entity)
        ensures
            Self::single(key)@ == seq![key],
            Self::single(key).root() == key,
            forall|q: int| Self::single(key).leaf_at(q) is None,
            Self::single(key).well_formed(),
    {
        assert(Self::single(key).keys() =~= seq![key]);
    }

    /// The walk over a tree visits the root, then the subtrees of the four
    /// quadrants in the order of their numbers. A tree is well formed if
    /// every entity of each subtree lies in the quadrant of that subtree
    /// around the root, and every subtree is well formed.
    pub proof fn lemma_shape(self)
        ensures
            self@ == seq![self.root()] + self.leaf_view(0) + self.leaf_view(1) + self.leaf_view(2)
                + self.leaf_view(3),
            self.well_formed() <==> forall|q: int|
                0 <= q < 4 ==> all_in_quadrant(self.root(), #[trigger] self.leaf_view(q), q) && (
                self.leaf_at(q) is Some ==> self.leaf_at(q)->0.well_formed()),
    {
        assert(self.leaf_view(0) == Self::leaf_keys(self.beyond_both));
        assert(self.leaf_view(1) == Self::leaf_keys(self.beyond_x));
        assert(self.leaf_view(2) == Self::leaf_keys(self.beyond_z));
        assert(self.leaf_view(3) == Self::leaf_keys(self.beyond_none));
        if self.well_formed() {
            assert forall|q: int| 0 <= q < 4 implies all_in_quadrant(
                self.root(),
                #[trigger] self.leaf_view(q),
                q,
            ) && (self.leaf_at(q) is Some ==> self.leaf_at(q)->0.well_formed()) by {}
        }
        if forall|q: int|
            0 <= q < 4 ==> all_in_quadrant(self.root(), #[trigger] self.leaf_view(q), q) && (
            self.leaf_at(q) is Some ==> self.leaf_at(q)->0.well_formed()) {
            assert(all_in_quadrant(self.root(), self.leaf_view(0), 0));
            assert(all_in_quadrant(self.root(), self.leaf_view(1), 1));
            assert(all_in_quadrant(self.root(), self.leaf_view(2), 2));
            assert(all_in_quadrant(self.root(), self.leaf_view(3), 3));
        }
    }

    /// Adding an entity changes the subtree of its quadrant alone.
    proof fn lemma_inserted_shape(self, child: Entity)
        ensures
            self.takes_in(self.inserted(child), child),
    {
        let after = self.inserted(child);
        let q = quadrant(self.root(), child);
        Self::lemma_single_view(child);
        after.lemma_shape();
        assert(after.root() == self.root());
        assert(after.leaf_at(q) == Some(
            match self.leaf_at(q) {
                Some(tree) => tree.inserted(child),
                None => Self::single(child),
            },
        ));
        assert forall|p: int| p != q implies after.leaf_at(p) == self.leaf_at(p) by {}
    }

    /// Adding an entity changes the subtree of its quadrant alone, puts the
    /// entity somewhere behind the root in the walk over the tree, leaves the
    /// other entities where they are, and keeps the tree well formed.
    pub proof fn lemma_inserted(self, child: Entity)
        ensures
            self.takes_in(self.inserted(child), child),
            Self::inserted_somewhere(self@, self.inserted(child)@, child),
            self.inserted(child)@.to_multiset() == self@.to_multiset().insert(child),
            forall|x: int, z: int|
                self.inserted(child).occupied(x, z) <==> self.occupied(x, z) || child.is_at(x, z),
            self.well_formed() ==> self.inserted(child).well_formed(),
        decreases self,
    {
        let k0 = Self::leaf_keys(self.beyond_both);
        let k1 = Self::leaf_keys(self.beyond_x);
        let k2 = Self::leaf_keys(self.beyond_z);
        let k3 = Self::leaf_keys(self.beyond_none);
        let head = seq![self.key];
        let q = quadrant(self.key, child);
        let leaf = if q == 0 {
            self.beyond_both
        } else if q == 1 {
            self.beyond_x
        } else if q == 2 {
            self.beyond_z
        } else {
            self.beyond_none
        };
        let part = Self::leaf_keys(leaf);
        let k: int = match leaf {
            None => 0,
            Some(node) => {
                node.lemma_inserted(child);
                choose|k: int|
                    1 <= k <= node@.len() && node.inserted(child)@ == #[trigger] node@.insert(
                        k,
                        child,
                    )
            },
        };
        assert(Self::single(child).keys() =~= seq![child]);
        assert(Self::single(child).well_formed());
        assert(Self::leaf_keys(Self::leaf_inserted(leaf, child)) =~= part.insert(k, child));
        assert(Self::leaf_well_formed(leaf) ==> Self::leaf_well_formed(
            Self::leaf_inserted(leaf, child),
        ));
        lemma_insert_in_parts(head, k0, k1, k2, k3, q, k, child);
        lemma_insert_keeps_quadrant(self.key, part, k, child, q);
        let offset = if q == 0 {
            1
        } else if q == 1 {
            1 + k0.len()
        } else if q == 2 {
            1 + k0.len() + k1.len()
        } else {
            1 + k0.len() + k1.len() + k2.len()
        };
        assert(self.inserted(child).keys() == self.keys().insert(offset + k, child));
        lemma_insert_to_multiset(self.keys(), offset + k, child);
        self.lemma_inserted_shape(child);
        assert forall|x: int, z: int|
            self.inserted(child).occupied(x, z) <==> self.occupied(x, z) || child.is_at(
                x,
                z,
            ) by {
            lemma_any_at_insert(self.keys(), offset + k, child, x, z);
        }
    }

    /// The tree that results from adding entities one by one is occupied
    /// exactly where the first entity or one of those added is.
    pub proof fn lemma_built_occupied(root: Entity, items: Seq<Entity>, x: int, z: int)
        ensures
            Self::built(root, items).occupied(x, z) <==> root.is_at(x, z) || any_at(items, x, z),
        decreases items.len(),
    {
        if items.len() == 0 {
            assert(Self::single(root).keys() =~= seq![root]);
            assert(seq![root][0] == root);
        } else {
            let earlier = Self::built(root, items.drop_last());
            Self::lemma_built_occupied(root, items.drop_last(), x, z);
            earlier.lemma_inserted(items.last());
            let k = choose|k: int|
                1 <= k <= earlier@.len() && earlier.inserted(items.last())@
                    == #[trigger] earlier@.insert(k, items.last());
            lemma_any_at_insert(earlier@, k, items.last(), x, z);
            assert(items =~= items.drop_last().push(items.last()));
            lemma_any_at_insert(
                items.drop_last(),
                items.len() - 1,
                items.last(),
                x,
                z,
            );
            assert(items.drop_last().insert(items.len() - 1, items.last()) =~= items);
        }
    }

    /// Whether a place is occupied does not depend on the order in which the
    /// entities were added, though the shape of the tree does: two trees
    /// built from the same first entity and the same further entities, in
    /// any two orders, are occupied at the same places.
    pub proof fn lemma_occupied_in_any_order(
        root: Entity,
        first: Seq<Entity>,
        second: Seq<Entity>,
        x: int,
        z: int,
    )
        requires
            first.to_multiset() == second.to_multiset(),
        ensures
            Self::built(root, first).occupied(x, z) == Self::built(root, second).occupied(x, z),
    {
        Self::lemma_built_occupied(root, first, x, z);
        Self::lemma_built_occupied(root, second, x, z);
        lemma_any_at_same_entities(first, second, x, z);
        lemma_any_at_same_entities(second, first, x, z);
    }
}

/// Inserting into one of the four parts that follow the head of a sequence
/// inserts into the whole.
proof fn lemma_insert_in_parts(
    head: Seq<Entity>,
    k0: Seq<Entity>,
    k1: Seq<Entity>,
    k2: Seq<Entity>,
    k3: Seq<Entity>,
    q: int,
    k: int,
    child: Entity,
)
    requires
        0 <= q < 4,
        0 <= k,
        q == 0 ==> k <= k0.len(),
        q == 1 ==> k <= k1.len(),
        q == 2 ==> k <= k2.len(),
        q == 3 ==> k <= k3.len(),
    ensures
        q == 0 ==> head + k0.insert(k, child) + k1 + k2 + k3 == (head + k0 + k1 + k2 + k3).insert(
            head.len() + k,
            child,
        ),
        q == 1 ==> head + k0 + k1.insert(k, child) + k2 + k3 == (head + k0 + k1 + k2 + k3).insert(
            head.len() + k0.len() + k,
            child,
        ),
        q == 2 ==> head + k0 + k1 + k2.insert(k, child) + k3 == (head + k0 + k1 + k2 + k3).insert(
            head.len() + k0.len() + k1.len() + k,
            child,
        ),
        q == 3 ==> head + k0 + k1 + k2 + k3.insert(k, child) == (head + k0 + k1 + k2 + k3).insert(
            head.len() + k0.len() + k1.len() + k2.len() + k,
            child,
        ),
{
    let whole = head + k0 + k1 + k2 + k3;
    if q == 0 {
        assert(head + k0.insert(k, child) + k1 + k2 + k3 =~= whole.insert(head.len() + k, child));
    } else if q == 1 {
        assert(head + k0 + k1.insert(k, child) + k2 + k3 =~= whole.insert(
            head.len() + k0.len() + k,
            child,
        ));
    } else if q == 2 {
        assert(head + k0 + k1 + k2.insert(k, child) + k3 =~= whole.insert(
            head.len() + k0.len() + k1.len() + k,
            child,
        ));
    } else {
        assert(head + k0 + k1 + k2 + k3.insert(k, child) =~= whole.insert(
            head.len() + k0.len() + k1.len() + k2.len() + k,
            child,
        ));
    }
}

proof fn lemma_insert_keeps_quadrant(
    key: Entity,
    part: Seq<Entity>,
    k: int,
    child: Entity,
    q: int,
)
    requires
        0 <= k <= part.len(),
        quadrant(key, child) == q,
    ensures
        all_in_quadrant(key, part, q) ==> all_in_quadrant(key, part.insert(k, child), q),
{
    if all_in_quadrant(key, part, q) {
        let longer = part.insert(k, child);
        assert forall|i: int| 0 <= i < longer.len() implies quadrant(key, #[trigger] longer[i])
            == q by {
            if i < k {
                assert(longer[i] == part[i]);
            } else if i > k {
                assert(longer[i] == part[i - 1]);
            }
        }
    }
}


} // verus!
