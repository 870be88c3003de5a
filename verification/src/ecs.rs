//! The entity/component store.
//!
//! An [`Entity`] is an opaque identifier issued by a [`World`]; a
//! [`ComponentStorage`] maps entities to values of one component kind; the
//! [`World`] owns one storage per component kind together with the entity
//! allocator, and is the sole mutation point for entity and component data.
//!
//! Each storage is modelled as a mathematical `Map<Entity, T>`, and every
//! operation is specified against that map.

use vstd::prelude::*;

use crate::components::{Player, Position, Size, Velocity};

verus! {

/// An opaque, copyable, equality-comparable identifier for one simulated
/// object. It carries no data itself: it is a lookup key into the storages
/// of the [`World`] that issued it. Identifiers are assigned monotonically
/// by one world and never reused within that world's lifetime; `0` is an
/// ordinary identifier, not a reserved sentinel.
#[derive(Clone, Copy, Debug, Hash, PartialEq, Eq, Structural)]
pub struct Entity(u32);

impl Entity {
    /// The numeric identifier, for specifications.
    pub closed spec fn id(self) -> int {
        self.0 as int
    }
}

/// The mathematical contents of an association list: later entries win,
/// matching repeated insertion.
pub open spec fn map_of<T>(entries: Seq<(Entity, T)>) -> Map<Entity, T>
    decreases entries.len(),
{
    if entries.len() == 0 {
        Map::empty()
    } else {
        map_of(entries.drop_last()).insert(entries.last().0, entries.last().1)
    }
}

/// Whether an association list binds some key to `entity`.
pub open spec fn has_key<T>(entries: Seq<(Entity, T)>, entity: Entity) -> bool {
    exists|i: int| 0 <= i < entries.len() && entries[i].0 == entity
}

/// Whether every key occurs at most once.
pub open spec fn distinct_keys<T>(entries: Seq<(Entity, T)>) -> bool {
    forall|i: int, j: int|
        0 <= i < j < entries.len() ==> (#[trigger] entries[i]).0 != (#[trigger] entries[j]).0
}

/// The domain of `map_of` is exactly the set of keys that occur.
proof fn lemma_map_of_dom<T>(entries: Seq<(Entity, T)>)
    ensures
        forall|e: Entity| #[trigger] map_of(entries).dom().contains(e) <==> has_key(entries, e),
    decreases entries.len(),
{
    if entries.len() == 0 {
    } else {
        let prefix = entries.drop_last();
        lemma_map_of_dom(prefix);
        assert forall|e: Entity| has_key(entries, e) implies #[trigger] map_of(
            entries,
        ).dom().contains(e) by {
            let i = choose|i: int| 0 <= i < entries.len() && entries[i].0 == e;
            if i < entries.len() - 1 {
                assert(prefix[i] == entries[i]);
                assert(has_key(prefix, e));
                assert(map_of(prefix).dom().contains(e));
                assert(map_of(entries) == map_of(prefix).insert(
                    entries.last().0,
                    entries.last().1,
                ));
            } else {
                assert(entries.last().0 == e);
            }
        }
        assert forall|e: Entity| #[trigger] map_of(entries).dom().contains(e) implies has_key(
            entries,
            e,
        ) by {
            if e == entries.last().0 {
                assert(entries[entries.len() - 1].0 == e);
            } else {
                assert(map_of(prefix).dom().contains(e));
                assert(has_key(prefix, e));
                let i = choose|i: int| 0 <= i < prefix.len() && prefix[i].0 == e;
                assert(entries[i] == prefix[i]);
                assert(entries[i].0 == e);
            }
        }
    }
}

/// Under distinct keys, the entry at index `i` gives the value of `map_of`
/// at its key.
proof fn lemma_map_of_index<T>(entries: Seq<(Entity, T)>, i: int)
    requires
        distinct_keys(entries),
        0 <= i < entries.len(),
    ensures
        map_of(entries).dom().contains(entries[i].0),
        map_of(entries)[entries[i].0] == entries[i].1,
    decreases entries.len(),
{
    if i == entries.len() - 1 {
    } else {
        let prefix = entries.drop_last();
        assert(prefix[i] == entries[i]);
        lemma_map_of_index(prefix, i);
        assert(entries.last().0 != entries[i].0);
    }
}

/// Overwriting the entry that holds `entity` with value `v` is insertion
/// into the map.
proof fn lemma_map_of_update_one<T>(entries: Seq<(Entity, T)>, i: int, entity: Entity, v: T)
    requires
        distinct_keys(entries),
        0 <= i < entries.len(),
        entries[i].0 == entity,
    ensures
        map_of(entries.update(i, (entity, v))) == map_of(entries).insert(entity, v),
        distinct_keys(entries.update(i, (entity, v))),
    decreases entries.len(),
{
    let updated = entries.update(i, (entity, v));
    let prefix = entries.drop_last();
    assert forall|a: int, b: int| 0 <= a < b < updated.len() implies (#[trigger] updated[a]).0 != (
    #[trigger] updated[b]).0 by {
        assert(updated[a].0 == entries[a].0);
        assert(updated[b].0 == entries[b].0);
    }
    if i == entries.len() - 1 {
        assert(updated.drop_last() =~= prefix);
        assert(updated.last() == (entity, v));
        assert(entries.last().0 == entity);
        assert(map_of(updated) == map_of(prefix).insert(entity, v));
        assert(map_of(entries).insert(entity, v) == map_of(prefix).insert(
            entity,
            entries.last().1,
        ).insert(entity, v));
        assert(map_of(prefix).insert(entity, entries.last().1).insert(entity, v) =~= map_of(
            prefix,
        ).insert(entity, v));
    } else {
        assert(prefix[i] == entries[i]);
        lemma_map_of_update_one(prefix, i, entity, v);
        assert(updated.drop_last() =~= prefix.update(i, (entity, v)));
        assert(updated.last() == entries.last());
        assert(entries.last().0 != entity);
        assert(map_of(updated) == map_of(prefix).insert(entity, v).insert(
            entries.last().0,
            entries.last().1,
        ));
        assert(map_of(prefix).insert(entity, v).insert(entries.last().0, entries.last().1)
            =~= map_of(prefix).insert(entries.last().0, entries.last().1).insert(entity, v));
    }
}

/// Overwriting the entry that holds `entity` is insertion into the map,
/// for every replacement value.
proof fn lemma_map_of_update<T>(entries: Seq<(Entity, T)>, i: int, entity: Entity)
    requires
        distinct_keys(entries),
        0 <= i < entries.len(),
        entries[i].0 == entity,
    ensures
        forall|v: T| #[trigger] map_of(entries.update(i, (entity, v)))
            == map_of(entries).insert(entity, v),
        forall|v: T| distinct_keys(#[trigger] entries.update(i, (entity, v))),
{
    assert forall|v: T| #[trigger] map_of(entries.update(i, (entity, v))) == map_of(
        entries,
    ).insert(entity, v) by {
        lemma_map_of_update_one(entries, i, entity, v);
    }
    assert forall|v: T| distinct_keys(#[trigger] entries.update(i, (entity, v))) by {
        lemma_map_of_update_one(entries, i, entity, v);
    }
}

/// Appending an entry for a key that is not yet bound is insertion into the
/// map.
proof fn lemma_map_of_push<T>(entries: Seq<(Entity, T)>, entity: Entity, v: T)
    requires
        distinct_keys(entries),
        !has_key(entries, entity),
    ensures
        map_of(entries.push((entity, v))) == map_of(entries).insert(entity, v),
        distinct_keys(entries.push((entity, v))),
{
    let pushed = entries.push((entity, v));
    assert(pushed.drop_last() =~= entries);
    assert(pushed.last() == (entity, v));
    assert forall|a: int, b: int| 0 <= a < b < pushed.len() implies (#[trigger] pushed[a]).0 != (
    #[trigger] pushed[b]).0 by {
        if b < pushed.len() - 1 {
            assert(pushed[a] == entries[a]);
            assert(pushed[b] == entries[b]);
        } else {
            assert(pushed[a] == entries[a]);
            assert(entries[a].0 != entity);
        }
    }
}

/// Deleting the entry at index `i` is removal of its key from the map.
proof fn lemma_map_of_remove<T>(entries: Seq<(Entity, T)>, i: int)
    requires
        distinct_keys(entries),
        0 <= i < entries.len(),
    ensures
        map_of(entries.remove(i)) == map_of(entries).remove(entries[i].0),
        distinct_keys(entries.remove(i)),
    decreases entries.len(),
{
    let shortened = entries.remove(i);
    let prefix = entries.drop_last();
    assert forall|a: int, b: int| 0 <= a < b < shortened.len() implies (#[trigger] shortened[a]).0
        != (#[trigger] shortened[b]).0 by {
        let a0: int = if a < i {
            a
        } else {
            a + 1
        };
        let b0: int = if b < i {
            b
        } else {
            b + 1
        };
        assert(shortened[a] == entries[a0]);
        assert(shortened[b] == entries[b0]);
    }
    if i == entries.len() - 1 {
        assert(shortened =~= prefix);
        lemma_map_of_dom(prefix);
        assert forall|a: int| 0 <= a < prefix.len() implies (#[trigger] prefix[a]).0
            != entries[i].0 by {
            assert(prefix[a] == entries[a]);
        }
        assert(!map_of(prefix).dom().contains(entries[i].0));
        assert(map_of(prefix).insert(entries[i].0, entries[i].1).remove(entries[i].0) =~= map_of(
            prefix,
        ));
    } else {
        lemma_map_of_remove(prefix, i);
        assert(shortened.drop_last() =~= prefix.remove(i));
        assert(shortened.last() == entries.last());
        assert(prefix[i] == entries[i]);
        assert(entries.last().0 != entries[i].0);
        assert(map_of(prefix).remove(entries[i].0).insert(entries.last().0, entries.last().1)
            =~= map_of(prefix).insert(entries.last().0, entries.last().1).remove(entries[i].0));
    }
}

/// Storage for exactly one component kind `T`: a mapping from entities to
/// component values, with each entity bound at most once. Entries are
/// created by insertion, overwritten on repeated insertion for the same
/// entity, and removable individually.
pub struct ComponentStorage<T> {
    entries: Vec<(Entity, T)>,
}

impl<T> View for ComponentStorage<T> {
    type V = Map<Entity, T>;

    closed spec fn view(&self) -> Map<Entity, T> {
        map_of(self.entries@)
    }
}

impl<T> ComponentStorage<T> {
    /// Each entity is bound at most once.
    pub closed spec fn wf(self) -> bool {
        distinct_keys(self.entries@)
    }

    /// An empty storage.
    pub fn new() -> (storage: Self)
        ensures
            storage.wf(),
            storage@ == Map::<Entity, T>::empty(),
    {
        ComponentStorage { entries: Vec::new() }
    }

    /// The index of the entry binding `entity`, if there is one.
    fn find_index(&self, entity: Entity) -> (r: Option<usize>)
        ensures
            match r {
                Some(i) => i < self.entries@.len() && self.entries@[i as int].0 == entity,
                None => !has_key(self.entries@, entity),
            },
    {
        let n = self.entries.len();
        let mut i: usize = 0;
        while i < n
            invariant
                i <= n,
                n == self.entries@.len(),
                forall|j: int| 0 <= j < i ==> (#[trigger] self.entries@[j]).0 != entity,
            decreases n - i,
        {
            if self.entries[i].0 == entity {
                return Some(i);
            }
            i = i + 1;
        }
        None
    }

    /// Binds `entity` to `component`, overwriting any earlier binding:
    /// unconditional overwrite, no error conditions.
    pub fn insert_component(&mut self, entity: Entity, component: T)
        requires
            old(self).wf(),
        ensures
            final(self).wf(),
            final(self)@ == old(self)@.insert(entity, component),
    {
        match self.find_index(entity) {
            Some(i) => {
                proof {
                    lemma_map_of_update(self.entries@, i as int, entity);
                }
                self.entries.set(i, (entity, component));
            },
            None => {
                proof {
                    lemma_map_of_push(self.entries@, entity, component);
                }
                self.entries.push((entity, component));
            },
        }
    }

    /// The component bound to `entity`, absent if this storage has no entry
    /// for it; never fails.
    pub fn get(&self, entity: Entity) -> (r: Option<&T>)
        requires
            self.wf(),
        ensures
            match r {
                Some(component) => self@.dom().contains(entity) && *component == self@[entity],
                None => !self@.dom().contains(entity),
            },
    {
        match self.find_index(entity) {
            Some(i) => {
                proof {
                    lemma_map_of_index(self.entries@, i as int);
                }
                Some(&self.entries[i].1)
            },
            None => {
                proof {
                    lemma_map_of_dom(self.entries@);
                }
                None
            },
        }
    }

    /// Mutable access to the component bound to `entity`, absent if this
    /// storage has no entry for it. The storage afterwards binds `entity`
    /// to whatever the caller wrote through the returned reference.
    pub fn get_mut(&mut self, entity: Entity) -> (r: Option<&mut T>)
        requires
            old(self).wf(),
        ensures
            final(self).wf(),
            old(self)@.dom().contains(entity) ==> r is Some && *r.unwrap() == old(self)@[entity]
                && final(self)@ == old(self)@.insert(entity, *final(r.unwrap())),
            !old(self)@.dom().contains(entity) ==> r is None && final(self)@ == old(self)@,
    {
        match self.find_index(entity) {
            Some(i) => {
                proof {
                    lemma_map_of_index(self.entries@, i as int);
                    lemma_map_of_update(self.entries@, i as int, entity);
                }
                let pair = &mut self.entries[i];
                Some(&mut pair.1)
            },
            None => {
                proof {
                    lemma_map_of_dom(self.entries@);
                }
                None
            },
        }
    }

    /// Unbinds `entity`; a no-op if this storage has no entry for it.
    pub fn remove(&mut self, entity: Entity)
        requires
            old(self).wf(),
        ensures
            final(self).wf(),
            final(self)@ == old(self)@.remove(entity),
    {
        match self.find_index(entity) {
            Some(i) => {
                proof {
                    lemma_map_of_remove(self.entries@, i as int);
                }
                let _ = self.entries.remove(i);
            },
            None => {
                proof {
                    lemma_map_of_dom(self.entries@);
                    assert(self@.remove(entity) =~= self@);
                }
            },
        }
    }

    /// Whether each entity is bound at most once, decided at run time, for
    /// hosts that hold no proof of how this storage was built.
    pub fn is_wf(&self) -> (b: bool)
        ensures
            b == self.wf(),
    {
        let n = self.entries.len();
        let mut i: usize = 0;
        while i < n
            invariant
                i <= n,
                n == self.entries@.len(),
                forall|a: int, b: int|
                    0 <= a < b < self.entries@.len() && a < i ==> (#[trigger] self.entries@[a]).0
                        != (#[trigger] self.entries@[b]).0,
            decreases n - i,
        {
            let mut j: usize = i + 1;
            while j < n
                invariant
                    i < j <= n,
                    n == self.entries@.len(),
                    forall|b: int|
                        i < b < j ==> (#[trigger] self.entries@[b]).0 != self.entries@[i as int].0,
                decreases n - j,
            {
                if self.entries[j].0 == self.entries[i].0 {
                    return false;
                }
                j = j + 1;
            }
            i = i + 1;
        }
        true
    }

    /// Every entity this storage holds a component for, each exactly once.
    pub fn keys(&self) -> (r: Vec<Entity>)
        requires
            self.wf(),
        ensures
            r@.no_duplicates(),
            forall|i: int| 0 <= i < r@.len() ==> self@.dom().contains(#[trigger] r@[i]),
            forall|e: Entity| self@.dom().contains(e) ==> r@.contains(e),
    {
        let n = self.entries.len();
        let mut r: Vec<Entity> = Vec::new();
        let mut i: usize = 0;
        while i < n
            invariant
                i <= n,
                n == self.entries@.len(),
                r@.len() == i,
                forall|j: int| 0 <= j < i ==> #[trigger] r@[j] == self.entries@[j].0,
            decreases n - i,
        {
            r.push(self.entries[i].0);
            i = i + 1;
        }
        proof {
            lemma_map_of_dom(self.entries@);
            assert forall|a: int, b: int| 0 <= a < b < r@.len() implies r@[a] != r@[b] by {
                assert(self.entries@[a].0 != self.entries@[b].0);
            }
            assert forall|j: int| 0 <= j < r@.len() implies self@.dom().contains(
                #[trigger] r@[j],
            ) by {
                assert(self.entries@[j].0 == r@[j]);
            }
            assert forall|e: Entity| self@.dom().contains(e) implies r@.contains(e) by {
                let j = choose|j: int| 0 <= j < self.entries@.len() && self.entries@[j].0 == e;
                assert(r@[j] == e);
            }
        }
        r
    }
}

/// The aggregate owner of all entity and component data: the entity
/// allocator's counter and one storage per component kind. Storages are
/// reached through the [`Component`] trait, which keys access by component
/// kind, so each system touches only the kinds it needs.
pub struct World {
    next_id: u32,
    positions: ComponentStorage<Position>,
    velocities: ComponentStorage<Velocity>,
    sizes: ComponentStorage<Size>,
    players: ComponentStorage<Player>,
}

/// A component kind the [`World`] owns a storage for. `wmap` is this kind's
/// storage contents; `frame` says that an operation left every *other*
/// kind's storage and the entity allocator untouched.
pub trait Component: Sized {
    /// The world's mapping from entities to components of this kind.
    spec fn wmap(w: World) -> Map<Entity, Self>;

    /// The allocator and the storages of every other component kind agree
    /// between `pre` and `post`.
    spec fn frame(pre: World, post: World) -> bool;

    /// The world's storage for this kind.
    fn storage_of(w: &World) -> (storage: &ComponentStorage<Self>)
        requires
            w.wf(),
        ensures
            storage.wf(),
            storage@ == Self::wmap(*w),
    ;

    /// Binds `entity` to `component` in this kind's storage, overwriting
    /// any earlier binding and touching nothing else.
    fn insert_into(w: &mut World, entity: Entity, component: Self)
        requires
            old(w).wf(),
        ensures
            final(w).wf(),
            Self::wmap(*final(w)) == Self::wmap(*old(w)).insert(entity, component),
            Self::frame(*old(w), *final(w)),
    ;

    /// The component of this kind bound to `entity`, if any.
    fn get_from(w: &World, entity: Entity) -> (r: Option<&Self>)
        requires
            w.wf(),
        ensures
            match r {
                Some(component) => Self::wmap(*w).dom().contains(entity) && *component
                    == Self::wmap(*w)[entity],
                None => !Self::wmap(*w).dom().contains(entity),
            },
    ;

    /// Mutable access to the component of this kind bound to `entity`, if
    /// any; nothing else is touched.
    fn get_mut_from(w: &mut World, entity: Entity) -> (r: Option<&mut Self>)
        requires
            old(w).wf(),
        ensures
            final(w).wf(),
            Self::frame(*old(w), *final(w)),
            Self::wmap(*old(w)).dom().contains(entity) ==> r is Some && *r.unwrap()
                == Self::wmap(*old(w))[entity] && Self::wmap(*final(w)) == Self::wmap(
                *old(w),
            ).insert(entity, *final(r.unwrap())),
            !Self::wmap(*old(w)).dom().contains(entity) ==> r is None && Self::wmap(*final(w))
                == Self::wmap(*old(w)),
    ;
}

impl Component for Position {
    open spec fn wmap(w: World) -> Map<Entity, Position> {
        w.position_map()
    }

    open spec fn frame(pre: World, post: World) -> bool {
        post.allocated() == pre.allocated() && post.velocity_map() == pre.velocity_map()
            && post.size_map() == pre.size_map() && post.player_map() == pre.player_map()
    }

    fn storage_of(w: &World) -> &ComponentStorage<Position> {
        &w.positions
    }

    fn insert_into(w: &mut World, entity: Entity, component: Position) {
        w.positions.insert_component(entity, component)
    }

    fn get_from(w: &World, entity: Entity) -> Option<&Position> {
        w.positions.get(entity)
    }

    fn get_mut_from(w: &mut World, entity: Entity) -> Option<&mut Position> {
        w.positions.get_mut(entity)
    }
}

impl Component for Velocity {
    open spec fn wmap(w: World) -> Map<Entity, Velocity> {
        w.velocity_map()
    }

    open spec fn frame(pre: World, post: World) -> bool {
        post.allocated() == pre.allocated() && post.position_map() == pre.position_map()
            && post.size_map() == pre.size_map() && post.player_map() == pre.player_map()
    }

    fn storage_of(w: &World) -> &ComponentStorage<Velocity> {
        &w.velocities
    }

    fn insert_into(w: &mut World, entity: Entity, component: Velocity) {
        w.velocities.insert_component(entity, component)
    }

    fn get_from(w: &World, entity: Entity) -> Option<&Velocity> {
        w.velocities.get(entity)
    }

    fn get_mut_from(w: &mut World, entity: Entity) -> Option<&mut Velocity> {
        w.velocities.get_mut(entity)
    }
}

impl Component for Size {
    open spec fn wmap(w: World) -> Map<Entity, Size> {
        w.size_map()
    }

    open spec fn frame(pre: World, post: World) -> bool {
        post.allocated() == pre.allocated() && post.position_map() == pre.position_map()
            && post.velocity_map() == pre.velocity_map() && post.player_map() == pre.player_map()
    }

    fn storage_of(w: &World) -> &ComponentStorage<Size> {
        &w.sizes
    }

    fn insert_into(w: &mut World, entity: Entity, component: Size) {
        w.sizes.insert_component(entity, component)
    }

    fn get_from(w: &World, entity: Entity) -> Option<&Size> {
        w.sizes.get(entity)
    }

    fn get_mut_from(w: &mut World, entity: Entity) -> Option<&mut Size> {
        w.sizes.get_mut(entity)
    }
}

impl Component for Player {
    open spec fn wmap(w: World) -> Map<Entity, Player> {
        w.player_map()
    }

    open spec fn frame(pre: World, post: World) -> bool {
        post.allocated() == pre.allocated() && post.position_map() == pre.position_map()
            && post.velocity_map() == pre.velocity_map() && post.size_map() == pre.size_map()
    }

    fn storage_of(w: &World) -> &ComponentStorage<Player> {
        &w.players
    }

    fn insert_into(w: &mut World, entity: Entity, component: Player) {
        w.players.insert_component(entity, component)
    }

    fn get_from(w: &World, entity: Entity) -> Option<&Player> {
        w.players.get(entity)
    }

    fn get_mut_from(w: &mut World, entity: Entity) -> Option<&mut Player> {
        w.players.get_mut(entity)
    }
}

impl World {
    /// How many identifiers this world has issued so far; the next entity
    /// created gets exactly this identifier.
    pub closed spec fn allocated(self) -> int {
        self.next_id as int
    }

    /// Every storage binds each entity at most once.
    pub closed spec fn wf(self) -> bool {
        self.positions.wf() && self.velocities.wf() && self.sizes.wf() && self.players.wf()
    }

    /// The mapping from entities to their positions.
    pub closed spec fn position_map(self) -> Map<Entity, Position> {
        self.positions@
    }

    /// The mapping from entities to their velocities.
    pub closed spec fn velocity_map(self) -> Map<Entity, Velocity> {
        self.velocities@
    }

    /// The mapping from entities to their sizes.
    pub closed spec fn size_map(self) -> Map<Entity, Size> {
        self.sizes@
    }

    /// The mapping from entities to their player markers.
    pub closed spec fn player_map(self) -> Map<Entity, Player> {
        self.players@
    }

    /// A world with no entities and every storage empty.
    pub fn new() -> (w: World)
        ensures
            w.wf(),
            w.allocated() == 0,
            Position::wmap(w) == Map::<Entity, Position>::empty(),
            Velocity::wmap(w) == Map::<Entity, Velocity>::empty(),
            Size::wmap(w) == Map::<Entity, Size>::empty(),
            Player::wmap(w) == Map::<Entity, Player>::empty(),
    {
        World {
            next_id: 0,
            positions: ComponentStorage::new(),
            velocities: ComponentStorage::new(),
            sizes: ComponentStorage::new(),
            players: ComponentStorage::new(),
        }
    }

    /// Whether every storage binds each entity at most once, decided at run
    /// time, for hosts that hold no proof of how this world was built.
    pub fn is_wf(&self) -> (b: bool)
        ensures
            b == self.wf(),
    {
        self.positions.is_wf() && self.velocities.is_wf() && self.sizes.is_wf()
            && self.players.is_wf()
    }

    /// Issues a fresh entity identifier: the current allocation counter,
    /// which is then incremented, so no two calls on one world return the
    /// same identifier. No component storage is touched.
    pub fn create_entity(&mut self) -> (entity: Entity)
        requires
            old(self).wf(),
            old(self).allocated() < u32::MAX,
        ensures
            final(self).wf(),
            entity.id() == old(self).allocated(),
            final(self).allocated() == old(self).allocated() + 1,
            Position::wmap(*final(self)) == Position::wmap(*old(self)),
            Velocity::wmap(*final(self)) == Velocity::wmap(*old(self)),
            Size::wmap(*final(self)) == Size::wmap(*old(self)),
            Player::wmap(*final(self)) == Player::wmap(*old(self)),
    {
        let id = self.next_id;
        self.next_id = self.next_id + 1;
        Entity(id)
    }

    /// The storage for component kind `T`, for iterating all its entries.
    pub fn get_storage<T: Component>(&self) -> (storage: &ComponentStorage<T>)
        requires
            self.wf(),
        ensures
            storage.wf(),
            storage@ == T::wmap(*self),
    {
        T::storage_of(self)
    }

    /// Binds `entity` to `component` in the storage for `T`, overwriting
    /// any earlier binding. No error conditions; nothing else is touched.
    pub fn add_component<T: Component>(&mut self, entity: Entity, component: T)
        requires
            old(self).wf(),
        ensures
            final(self).wf(),
            T::wmap(*final(self)) == T::wmap(*old(self)).insert(entity, component),
            T::frame(*old(self), *final(self)),
    {
        T::insert_into(self, entity, component)
    }

    /// The component of kind `T` bound to `entity`: absent if no entry for
    /// `entity` exists; never fails.
    pub fn get_component<T: Component>(&self, entity: Entity) -> (r: Option<&T>)
        requires
            self.wf(),
        ensures
            match r {
                Some(component) => T::wmap(*self).dom().contains(entity) && *component == T::wmap(
                    *self,
                )[entity],
                None => !T::wmap(*self).dom().contains(entity),
            },
    {
        T::get_from(self, entity)
    }

    /// Mutable access to the component of kind `T` bound to `entity`,
    /// absent if no entry for `entity` exists. Afterwards the storage for
    /// `T` binds `entity` to whatever the caller wrote through the returned
    /// reference; nothing else is touched.
    pub fn get_component_mut<T: Component>(&mut self, entity: Entity) -> (r: Option<&mut T>)
        requires
            old(self).wf(),
        ensures
            final(self).wf(),
            T::frame(*old(self), *final(self)),
            T::wmap(*old(self)).dom().contains(entity) ==> r is Some && *r.unwrap() == T::wmap(
                *old(self),
            )[entity] && T::wmap(*final(self)) == T::wmap(*old(self)).insert(
                entity,
                *final(r.unwrap()),
            ),
            !T::wmap(*old(self)).dom().contains(entity) ==> r is None && T::wmap(*final(self))
                == T::wmap(*old(self)),
    {
        T::get_mut_from(self, entity)
    }
}

/// Entity uniqueness: identifiers issued by successive `create_entity`
/// calls on one world are pairwise distinct. Each call returns the world's
/// allocation counter and leaves the counter strictly larger, and no other
/// world operation changes the counter, so across any sequence of calls the
/// counters seen are strictly increasing and the identifiers never repeat.
pub proof fn lemma_entity_uniqueness(ids: Seq<Entity>, counters: Seq<int>)
    requires
        counters.len() == ids.len(),
        forall|i: int| 0 <= i < ids.len() ==> (#[trigger] ids[i]).id() == counters[i],
        forall|i: int| 0 <= i < ids.len() - 1 ==> #[trigger] counters[i] < counters[i + 1],
    ensures
        forall|i: int, j: int| 0 <= i < j < ids.len() ==> ids[i] != ids[j],
{
    assert forall|i: int, j: int| 0 <= i < j < ids.len() implies ids[i] != ids[j] by {
        lemma_counters_increase(counters, i, j);
        assert(ids[i].id() != ids[j].id());
    }
}

/// A chain that grows at every step is strictly increasing overall.
proof fn lemma_counters_increase(counters: Seq<int>, i: int, j: int)
    requires
        forall|k: int| 0 <= k < counters.len() - 1 ==> #[trigger] counters[k] < counters[k + 1],
        0 <= i < j < counters.len(),
    ensures
        counters[i] < counters[j],
    decreases j - i,
{
    if i + 1 < j {
        lemma_counters_increase(counters, i + 1, j);
    }
}

/// Storage overwrite: binding one entity twice leaves exactly the state in
/// which only the second binding was made, so only the second value is
/// retrievable.
pub proof fn lemma_storage_overwrite<T>(m: Map<Entity, T>, entity: Entity, first: T, second: T)
    ensures
        m.insert(entity, first).insert(entity, second) == m.insert(entity, second),
{
    assert(m.insert(entity, first).insert(entity, second) =~= m.insert(entity, second));
}

} // verus!
