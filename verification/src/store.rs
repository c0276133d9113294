//! The relational store at the heart of the knowledge graph: entities,
//! entity aliases, typed relations, memories, and the memory-entity join
//! table, held as in-memory rows with the same uniqueness and cascade rules
//! that the persistent schema enforces.
//!
//! Uniqueness invariants: an entity's `(type, name)` pair, an alias string,
//! a relation's `(from, to, type)` triple, and a link's `(memory, entity)`
//! pair each occur at most once; every row id is unique and below the next
//! free id of its table.

use vstd::prelude::*;

use crate::attrs::Attributes;
use crate::attrs::AttrsView;
use crate::attrs::attrs_view;
use crate::attrs::copy_attrs;
use crate::attrs::merge_attributes;
use crate::attrs::spec_merge_attrs;
use crate::text::string_eq;

verus! {

broadcast use vstd::seq_lib::group_filter_ensures;

/// A named, typed node of the graph.
#[derive(Debug)]
pub struct Entity {
    pub id: i64,
    pub entity_type: String,
    pub name: String,
    pub attributes: Option<Attributes>,
    pub created_at: String,
    pub updated_at: String,
}

/// Spec-level value of an entity row.
#[verifier::ext_equal]
pub struct EntityV {
    pub id: int,
    pub etype: Seq<char>,
    pub name: Seq<char>,
    pub attrs: AttrsView,
    pub created_at: Seq<char>,
    pub updated_at: Seq<char>,
}

impl View for Entity {
    type V = EntityV;

    open spec fn view(&self) -> EntityV {
        EntityV {
            id: self.id as int,
            etype: self.entity_type@,
            name: self.name@,
            attrs: attrs_view(self.attributes),
            created_at: self.created_at@,
            updated_at: self.updated_at@,
        }
    }
}

/// A secondary name resolving to one entity.
#[derive(Debug)]
pub struct AliasEntry {
    pub id: i64,
    pub entity_id: i64,
    pub alias: String,
    pub created_at: String,
}

/// Spec-level value of an alias row.
#[verifier::ext_equal]
pub struct AliasV {
    pub id: int,
    pub entity_id: int,
    pub alias: Seq<char>,
    pub created_at: Seq<char>,
}

impl View for AliasEntry {
    type V = AliasV;

    open spec fn view(&self) -> AliasV {
        AliasV {
            id: self.id as int,
            entity_id: self.entity_id as int,
            alias: self.alias@,
            created_at: self.created_at@,
        }
    }
}

/// A typed, strength-weighted directed edge between two entities.
#[derive(Debug)]
pub struct Relation {
    pub id: i64,
    pub from_entity_id: i64,
    pub to_entity_id: i64,
    pub relation_type: String,
    pub strength: i32,
    pub created_at: Option<String>,
}

/// Spec-level value of a relation row.
#[verifier::ext_equal]
pub struct RelationV {
    pub id: int,
    pub from: int,
    pub to: int,
    pub rtype: Seq<char>,
    pub strength: int,
    pub created_at: Option<Seq<char>>,
}

impl View for Relation {
    type V = RelationV;

    open spec fn view(&self) -> RelationV {
        RelationV {
            id: self.id as int,
            from: self.from_entity_id as int,
            to: self.to_entity_id as int,
            rtype: self.relation_type@,
            strength: self.strength as int,
            created_at: match self.created_at {
                Some(ref c) => Some(c@),
                None => None,
            },
        }
    }
}

/// A stored note, the unit of user-authored content.
#[derive(Debug)]
pub struct Memory {
    pub id: i64,
    pub content: String,
    pub md_file_path: Option<String>,
    pub created_at: String,
    pub tags: Option<String>,
}

/// Spec-level value of a memory row.
#[verifier::ext_equal]
pub struct MemoryV {
    pub id: int,
    pub content: Seq<char>,
    pub md_file_path: Option<Seq<char>>,
    pub created_at: Seq<char>,
    pub tags: Option<Seq<char>>,
}

impl View for Memory {
    type V = MemoryV;

    open spec fn view(&self) -> MemoryV {
        MemoryV {
            id: self.id as int,
            content: self.content@,
            md_file_path: match self.md_file_path {
                Some(ref p) => Some(p@),
                None => None,
            },
            created_at: self.created_at@,
            tags: match self.tags {
                Some(ref t) => Some(t@),
                None => None,
            },
        }
    }
}

/// One memory-entity association; the join table's composite key.
#[derive(Debug)]
pub struct MemoryEntity {
    pub memory_id: i64,
    pub entity_id: i64,
}

/// Spec-level value of a link row.
#[verifier::ext_equal]
pub struct LinkV {
    pub memory_id: int,
    pub entity_id: int,
}

impl View for MemoryEntity {
    type V = LinkV;

    open spec fn view(&self) -> LinkV {
        LinkV { memory_id: self.memory_id as int, entity_id: self.entity_id as int }
    }
}

/// Why a store operation failed.
#[derive(PartialEq, Eq, Structural, Clone, Copy, Debug)]
pub enum StoreError {
    /// The id given to a lookup or mutation matches no row.
    NotFound,
    /// A table's id sequence is exhausted.
    Full,
    /// A unique column already holds the given value.
    Conflict,
}

/// The whole graph: five tables and their id sequences.
pub struct Store {
    pub entities: Vec<Entity>,
    pub aliases: Vec<AliasEntry>,
    pub relations: Vec<Relation>,
    pub memories: Vec<Memory>,
    pub links: Vec<MemoryEntity>,
    pub next_entity_id: i64,
    pub next_alias_id: i64,
    pub next_relation_id: i64,
    pub next_memory_id: i64,
}

impl Store {
    pub open spec fn ents(self) -> Seq<EntityV> {
        Seq::new(self.entities@.len(), |i: int| self.entities@[i]@)
    }

    pub open spec fn als(self) -> Seq<AliasV> {
        Seq::new(self.aliases@.len(), |i: int| self.aliases@[i]@)
    }

    pub open spec fn rels(self) -> Seq<RelationV> {
        Seq::new(self.relations@.len(), |i: int| self.relations@[i]@)
    }

    pub open spec fn mems(self) -> Seq<MemoryV> {
        Seq::new(self.memories@.len(), |i: int| self.memories@[i]@)
    }

    pub open spec fn lnks(self) -> Seq<LinkV> {
        Seq::new(self.links@.len(), |i: int| self.links@[i]@)
    }

    /// An entity row with this id exists.
    pub open spec fn has_entity(self, id: int) -> bool {
        exists|i: int| 0 <= i < self.ents().len() && self.ents()[i].id == id
    }

    /// The entity row with this id (meaningful when `has_entity`).
    pub open spec fn entity_ix(self, id: int) -> int {
        choose|i: int| 0 <= i < self.ents().len() && self.ents()[i].id == id
    }

    pub open spec fn entity_of(self, id: int) -> EntityV {
        self.ents()[self.entity_ix(id)]
    }

    pub open spec fn has_memory(self, id: int) -> bool {
        exists|i: int| 0 <= i < self.mems().len() && self.mems()[i].id == id
    }

    pub open spec fn memory_ix(self, id: int) -> int {
        choose|i: int| 0 <= i < self.mems().len() && self.mems()[i].id == id
    }

    pub open spec fn memory_of(self, id: int) -> MemoryV {
        self.mems()[self.memory_ix(id)]
    }

    /// An entity of this `(type, name)` pair exists.
    pub open spec fn has_named(self, etype: Seq<char>, name: Seq<char>) -> bool {
        exists|i: int|
            0 <= i < self.ents().len() && self.ents()[i].etype == etype && self.ents()[i].name
                == name
    }

    pub open spec fn named_ix(self, etype: Seq<char>, name: Seq<char>) -> int {
        choose|i: int|
            0 <= i < self.ents().len() && self.ents()[i].etype == etype && self.ents()[i].name
                == name
    }

    /// Some entity carries this name (of any type).
    pub open spec fn has_entity_name(self, name: Seq<char>) -> bool {
        exists|i: int| 0 <= i < self.ents().len() && self.ents()[i].name == name
    }

    /// An alias row with this alias string exists.
    pub open spec fn has_alias(self, alias: Seq<char>) -> bool {
        exists|i: int| 0 <= i < self.als().len() && self.als()[i].alias == alias
    }

    pub open spec fn alias_ix(self, alias: Seq<char>) -> int {
        choose|i: int| 0 <= i < self.als().len() && self.als()[i].alias == alias
    }

    /// A relation row with this `(from, to, type)` triple exists.
    pub open spec fn has_triple(self, from: int, to: int, rtype: Seq<char>) -> bool {
        exists|i: int|
            0 <= i < self.rels().len() && self.rels()[i].from == from && self.rels()[i].to == to
                && self.rels()[i].rtype == rtype
    }

    pub open spec fn triple_ix(self, from: int, to: int, rtype: Seq<char>) -> int {
        choose|i: int|
            0 <= i < self.rels().len() && self.rels()[i].from == from && self.rels()[i].to == to
                && self.rels()[i].rtype == rtype
    }

    /// A link row for this `(memory, entity)` pair exists.
    pub open spec fn has_link(self, memory_id: int, entity_id: int) -> bool {
        exists|i: int|
            0 <= i < self.lnks().len() && self.lnks()[i].memory_id == memory_id
                && self.lnks()[i].entity_id == entity_id
    }

    /// The memory ids linked to this entity.
    pub open spec fn entity_is_linked(self, entity_id: int) -> bool {
        exists|i: int| 0 <= i < self.lnks().len() && self.lnks()[i].entity_id == entity_id
    }

    /// The entity is linked by some memory other than the one given.
    pub open spec fn entity_linked_besides(self, entity_id: int, memory_id: int) -> bool {
        exists|i: int|
            0 <= i < self.lnks().len() && #[trigger] self.lnks()[i].entity_id == entity_id
                && self.lnks()[i].memory_id != memory_id
    }

    /// The entity has a link whose both sides exist: the links cleanup keeps.
    pub open spec fn validly_linked(self, entity_id: int) -> bool {
        exists|i: int|
            0 <= i < self.lnks().len() && #[trigger] self.lnks()[i].entity_id == entity_id
                && self.has_memory(self.lnks()[i].memory_id) && self.has_entity(entity_id)
    }

    /// Structural well-formedness: id bounds and the four uniqueness rules.
    pub open spec fn wf(self) -> bool {
        &&& forall|i: int|
            0 <= i < self.ents().len() ==> 1 <= #[trigger] self.ents()[i].id
                < self.next_entity_id as int
        &&& forall|i: int, j: int|
            0 <= i < j < self.ents().len() ==> #[trigger] self.ents()[i].id
                != #[trigger] self.ents()[j].id
        &&& forall|i: int, j: int|
            0 <= i < j < self.ents().len() ==> !(#[trigger] self.ents()[i].etype
                == #[trigger] self.ents()[j].etype && self.ents()[i].name == self.ents()[j].name)
        &&& forall|i: int|
            0 <= i < self.als().len() ==> 1 <= #[trigger] self.als()[i].id
                < self.next_alias_id as int
        &&& forall|i: int, j: int|
            0 <= i < j < self.als().len() ==> #[trigger] self.als()[i].id
                != #[trigger] self.als()[j].id
        &&& forall|i: int, j: int|
            0 <= i < j < self.als().len() ==> #[trigger] self.als()[i].alias
                != #[trigger] self.als()[j].alias
        &&& forall|i: int|
            0 <= i < self.rels().len() ==> 1 <= #[trigger] self.rels()[i].id
                < self.next_relation_id as int
        &&& forall|i: int, j: int|
            0 <= i < j < self.rels().len() ==> #[trigger] self.rels()[i].id
                != #[trigger] self.rels()[j].id
        &&& forall|i: int, j: int|
            0 <= i < j < self.rels().len() ==> !(#[trigger] self.rels()[i].from
                == #[trigger] self.rels()[j].from && self.rels()[i].to == self.rels()[j].to
                && self.rels()[i].rtype == self.rels()[j].rtype)
        &&& forall|i: int| 0 <= i < self.rels().len() ==> #[trigger] self.rels()[i].strength >= 1
        &&& forall|i: int|
            0 <= i < self.mems().len() ==> 1 <= #[trigger] self.mems()[i].id
                < self.next_memory_id as int
        &&& forall|i: int, j: int|
            0 <= i < j < self.mems().len() ==> #[trigger] self.mems()[i].id
                != #[trigger] self.mems()[j].id
        &&& forall|i: int, j: int|
            0 <= i < j < self.mems().len() ==> !(#[trigger] self.mems()[i].md_file_path is Some
                && #[trigger] self.mems()[j].md_file_path is Some
                && self.mems()[i].md_file_path->0 == self.mems()[j].md_file_path->0)
        &&& forall|i: int, j: int|
            0 <= i < j < self.lnks().len() ==> !(#[trigger] self.lnks()[i].memory_id
                == #[trigger] self.lnks()[j].memory_id && self.lnks()[i].entity_id
                == self.lnks()[j].entity_id)
        &&& 1 <= self.next_entity_id as int
        &&& 1 <= self.next_alias_id as int
        &&& 1 <= self.next_relation_id as int
        &&& 1 <= self.next_memory_id as int
    }

    /// Every alias row points at an existing entity, and its string is not
    /// also the name of a different entity: an alias never shadows a name
    /// and never chains through another alias.
    pub open spec fn aliases_sound(self) -> bool {
        forall|i: int|
            0 <= i < self.als().len() ==> self.has_entity(#[trigger] self.als()[i].entity_id)
                && forall|j: int|
                0 <= j < self.ents().len() && #[trigger] self.ents()[j].name == self.als()[i].alias
                    ==> self.ents()[j].id == self.als()[i].entity_id
    }

    /// Every link row joins an existing memory to an existing entity.
    pub open spec fn links_sound(self) -> bool {
        forall|i: int|
            0 <= i < self.lnks().len() ==> self.has_memory(#[trigger] self.lnks()[i].memory_id)
                && self.has_entity(self.lnks()[i].entity_id)
    }

    /// Every relation's both endpoints exist.
    pub open spec fn relations_sound(self) -> bool {
        forall|i: int|
            0 <= i < self.rels().len() ==> self.has_entity((#[trigger] self.rels()[i]).from)
                && self.has_entity(self.rels()[i].to)
    }

    /// Every entity is linked to at least one memory.
    pub open spec fn entities_linked(self) -> bool {
        forall|i: int|
            0 <= i < self.ents().len() ==> self.entity_is_linked(#[trigger] self.ents()[i].id)
    }

    /// The orphan-free global invariant that pruning restores.
    pub open spec fn orphan_free(self) -> bool {
        self.relations_sound() && self.entities_linked()
    }

    /// An empty store with id sequences starting at one.
    pub fn new() -> (r: Store)
        ensures
            r.wf(),
            r.ents().len() == 0,
            r.als().len() == 0,
            r.rels().len() == 0,
            r.mems().len() == 0,
            r.lnks().len() == 0,
            r.next_entity_id == 1 && r.next_alias_id == 1 && r.next_relation_id == 1
                && r.next_memory_id == 1,
    {
        Store {
            entities: Vec::new(),
            aliases: Vec::new(),
            relations: Vec::new(),
            memories: Vec::new(),
            links: Vec::new(),
            next_entity_id: 1,
            next_alias_id: 1,
            next_relation_id: 1,
            next_memory_id: 1,
        }
    }

    /// Index of the entity row with this id.
    fn find_entity_ix(&self, id: i64) -> (r: Option<usize>)
        ensures
            match r {
                Some(i) => i < self.ents().len() && self.ents()[i as int].id == id as int,
                None => !self.has_entity(id as int),
            },
    {
        let mut i: usize = 0;
        while i < self.entities.len()
            invariant
                i <= self.ents().len(),
                forall|j: int| 0 <= j < i ==> #[trigger] self.ents()[j].id != id as int,
            decreases self.ents().len() - i,
        {
            if self.entities[i].id == id {
                return Some(i);
            }
            i = i + 1;
        }
        None
    }

    /// Index of the memory row with this id.
    fn find_memory_ix(&self, id: i64) -> (r: Option<usize>)
        ensures
            match r {
                Some(i) => i < self.mems().len() && self.mems()[i as int].id == id as int,
                None => !self.has_memory(id as int),
            },
    {
        let mut i: usize = 0;
        while i < self.memories.len()
            invariant
                i <= self.mems().len(),
                forall|j: int| 0 <= j < i ==> #[trigger] self.mems()[j].id != id as int,
            decreases self.mems().len() - i,
        {
            if self.memories[i].id == id {
                return Some(i);
            }
            i = i + 1;
        }
        None
    }

    /// Point lookup of an entity by id; `NotFound` exactly when no row has it.
    pub fn get_entity_by_id(&self, id: i64) -> (r: Result<Entity, StoreError>)
        requires
            self.wf(),
        ensures
            match r {
                Ok(e) => self.has_entity(id as int) && e@ == self.entity_of(id as int),
                Err(er) => er == StoreError::NotFound && !self.has_entity(id as int),
            },
    {
        match self.find_entity_ix(id) {
            Some(i) => {
                let e = copy_entity(&self.entities[i]);
                proof {
                    lemma_unique_entity_ix(*self, id as int, i as int);
                }
                Ok(e)
            },
            None => Err(StoreError::NotFound),
        }
    }

    /// Point lookup of a memory by id; `NotFound` exactly when no row has it.
    pub fn get_memory_by_id(&self, id: i64) -> (r: Result<Memory, StoreError>)
        requires
            self.wf(),
        ensures
            match r {
                Ok(m) => self.has_memory(id as int) && m@ == self.memory_of(id as int),
                Err(er) => er == StoreError::NotFound && !self.has_memory(id as int),
            },
    {
        match self.find_memory_ix(id) {
            Some(i) => {
                let m = copy_memory(&self.memories[i]);
                proof {
                    lemma_unique_memory_ix(*self, id as int, i as int);
                }
                Ok(m)
            },
            None => Err(StoreError::NotFound),
        }
    }

    /// Index of the first entity row carrying `name` (of any type).
    fn find_entity_by_name_ix(&self, name: &String) -> (r: Option<usize>)
        ensures
            match r {
                Some(i) => i < self.ents().len() && self.ents()[i as int].name == name@ && forall|
                    j: int,
                |
                    0 <= j < i ==> #[trigger] self.ents()[j].name != name@,
                None => !self.has_entity_name(name@),
            },
    {
        let mut i: usize = 0;
        while i < self.entities.len()
            invariant
                i <= self.ents().len(),
                forall|j: int| 0 <= j < i ==> #[trigger] self.ents()[j].name != name@,
            decreases self.ents().len() - i,
        {
            if string_eq(&self.entities[i].name, name) {
                return Some(i);
            }
            i = i + 1;
        }
        None
    }

    /// Index of the entity row with this `(type, name)` pair.
    fn find_named_ix(&self, entity_type: &String, name: &String) -> (r: Option<usize>)
        requires
            self.wf(),
        ensures
            match r {
                Some(i) => {
                    &&& i < self.ents().len()
                    &&& self.ents()[i as int].etype == entity_type@
                    &&& self.ents()[i as int].name == name@
                    &&& self.has_named(entity_type@, name@)
                    &&& self.named_ix(entity_type@, name@) == i as int
                },
                None => !self.has_named(entity_type@, name@),
            },
    {
        let mut i: usize = 0;
        while i < self.entities.len()
            invariant
                self.wf(),
                i <= self.ents().len(),
                forall|j: int|
                    0 <= j < i ==> !(#[trigger] self.ents()[j].etype == entity_type@
                        && self.ents()[j].name == name@),
            decreases self.ents().len() - i,
        {
            if string_eq(&self.entities[i].entity_type, entity_type) && string_eq(
                &self.entities[i].name,
                name,
            ) {
                proof {
                    lemma_unique_named_ix(*self, entity_type@, name@, i as int);
                }
                return Some(i);
            }
            i = i + 1;
        }
        None
    }

    /// Index of the first alias row whose string is `alias`.
    fn find_alias_ix(&self, alias: &String) -> (r: Option<usize>)
        ensures
            match r {
                Some(i) => i < self.als().len() && self.als()[i as int].alias == alias@,
                None => !self.has_alias(alias@),
            },
    {
        let mut i: usize = 0;
        while i < self.aliases.len()
            invariant
                i <= self.als().len(),
                forall|j: int| 0 <= j < i ==> #[trigger] self.als()[j].alias != alias@,
            decreases self.als().len() - i,
        {
            if string_eq(&self.aliases[i].alias, alias) {
                return Some(i);
            }
            i = i + 1;
        }
        None
    }

    /// Insert or update an entity, unique on `(type, name)`.
    ///
    /// On a fresh pair a new row is created with the given attributes and
    /// the next free id. On an existing pair no duplicate row appears: the
    /// row's attributes are merged (existing non-null fields surviving an
    /// incoming null) and its `updated_at` is bumped, and the row keeps its
    /// id, so the pair stays unique.
    pub fn upsert_entity(
        &mut self,
        entity_type: &String,
        name: &String,
        attributes: &Option<Attributes>,
        now: &String,
    ) -> (r: Result<i64, StoreError>)
        requires
            old(self).wf(),
        ensures
            final(self).wf(),
            final(self).als() == old(self).als(),
            final(self).rels() == old(self).rels(),
            final(self).mems() == old(self).mems(),
            final(self).lnks() == old(self).lnks(),
            final(self).next_alias_id == old(self).next_alias_id,
            final(self).next_relation_id == old(self).next_relation_id,
            final(self).next_memory_id == old(self).next_memory_id,
            match r {
                Ok(id) => {
                    &&& final(self).has_entity(id as int)
                    &&& final(self).entity_of(id as int).etype == entity_type@
                    &&& final(self).entity_of(id as int).name == name@
                    &&& if old(self).has_named(entity_type@, name@) {
                        let ix = old(self).named_ix(entity_type@, name@);
                        &&& id as int == old(self).ents()[ix].id
                        &&& final(self).next_entity_id == old(self).next_entity_id
                        &&& final(self).ents() == old(self).ents().update(
                            ix,
                            (EntityV {
                                attrs: spec_merge_attrs(
                                    old(self).ents()[ix].attrs,
                                    attrs_view(*attributes),
                                ),
                                updated_at: now@,
                                ..old(self).ents()[ix]
                            }),
                        )
                    } else {
                        &&& id == old(self).next_entity_id
                        &&& final(self).next_entity_id as int == old(self).next_entity_id as int + 1
                        &&& final(self).ents() == old(self).ents().push(
                            (EntityV {
                                id: id as int,
                                etype: entity_type@,
                                name: name@,
                                attrs: attrs_view(*attributes),
                                created_at: now@,
                                updated_at: now@,
                            }),
                        )
                    }
                },
                Err(e) => {
                    &&& e == StoreError::Full
                    &&& !old(self).has_named(entity_type@, name@)
                    &&& old(self).next_entity_id == i64::MAX
                    &&& *final(self) == *old(self)
                },
            },
            old(self).aliases_sound() && (old(self).has_named(entity_type@, name@) || !old(self).has_alias(name@)) ==> final(self).aliases_sound(),
            old(self).links_sound() ==> final(self).links_sound(),
            old(self).relations_sound() ==> final(self).relations_sound(),
    {
        let ghost pre = *self;
        match self.find_named_ix(entity_type, name) {
            Some(ix) => {
                let merged = merge_attributes(&self.entities[ix].attributes, attributes);
                let row = &self.entities[ix];
                let new_row = Entity {
                    id: row.id,
                    entity_type: row.entity_type.clone(),
                    name: row.name.clone(),
                    attributes: merged,
                    created_at: row.created_at.clone(),
                    updated_at: now.clone(),
                };
                let id = row.id;
                self.entities.set(ix, new_row);
                proof {
                    assert(self.ents() =~= pre.ents().update(
                        ix as int,
                        (EntityV {
                            attrs: spec_merge_attrs(
                                pre.ents()[ix as int].attrs,
                                attrs_view(*attributes),
                            ),
                            updated_at: now@,
                            ..pre.ents()[ix as int]
                        }),
                    ));
                    assert(self.als() =~= pre.als());
                    assert(self.rels() =~= pre.rels());
                    assert(self.mems() =~= pre.mems());
                    assert(self.lnks() =~= pre.lnks());
                    lemma_wf_after_entity_update(
                        pre,
                        *self,
                        ix as int,
                    );
                    lemma_unique_entity_ix(*self, id as int, ix as int);
                }
                Ok(id)
            },
            None => {
                if self.next_entity_id == i64::MAX {
                    return Err(StoreError::Full);
                }
                let id = self.next_entity_id;
                let row = Entity {
                    id,
                    entity_type: entity_type.clone(),
                    name: name.clone(),
                    attributes: copy_attrs(attributes),
                    created_at: now.clone(),
                    updated_at: now.clone(),
                };
                self.entities.push(row);
                self.next_entity_id = id + 1;
                proof {
                    assert(self.ents() =~= pre.ents().push(
                        (EntityV {
                            id: id as int,
                            etype: entity_type@,
                            name: name@,
                            attrs: attrs_view(*attributes),
                            created_at: now@,
                            updated_at: now@,
                        }),
                    ));
                    assert(self.als() =~= pre.als());
                    assert(self.rels() =~= pre.rels());
                    assert(self.mems() =~= pre.mems());
                    assert(self.lnks() =~= pre.lnks());
                    lemma_wf_after_entity_push(pre, *self, entity_type@, name@);
                    lemma_unique_entity_ix(*self, id as int, pre.ents().len() as int);
                }
                Ok(id)
            },
        }
    }

    /// Exact-name-then-alias resolution of a free-text name to an entity id.
    ///
    /// The id returned belongs to an entity carrying the name, or, when no
    /// entity does, to the entity that an alias row with that string points
    /// at; `None` exactly when neither exists.
    pub fn find_entity_id_by_name_or_alias(&self, name: &String) -> (r: Option<i64>)
        ensures
            match r {
                Some(id) => {
                    if self.has_entity_name(name@) {
                        exists|i: int|
                            0 <= i < self.ents().len() && #[trigger] self.ents()[i].name == name@
                                && self.ents()[i].id == id as int
                    } else {
                        self.has_alias(name@) && exists|i: int|
                            0 <= i < self.als().len() && #[trigger] self.als()[i].alias == name@
                                && self.als()[i].entity_id == id as int
                    }
                },
                None => !self.has_entity_name(name@) && !self.has_alias(name@),
            },
    {
        match self.find_entity_by_name_ix(name) {
            Some(i) => Some(self.entities[i].id),
            None => {
                match self.find_alias_ix(name) {
                    Some(i) => Some(self.aliases[i].entity_id),
                    None => None,
                }
            },
        }
    }

    /// Register `alias` as a secondary name of the entity.
    ///
    /// The insert is dropped silently when the string is already an alias,
    /// or is the name of some other entity (an alias never shadows a name);
    /// `NotFound` exactly when the entity does not exist.
    pub fn add_entity_alias(&mut self, entity_id: i64, alias: &String, now: &String) -> (r: Result<
        (),
        StoreError,
    >)
        requires
            old(self).wf(),
        ensures
            final(self).wf(),
            final(self).ents() == old(self).ents(),
            final(self).rels() == old(self).rels(),
            final(self).mems() == old(self).mems(),
            final(self).lnks() == old(self).lnks(),
            final(self).next_entity_id == old(self).next_entity_id,
            final(self).next_relation_id == old(self).next_relation_id,
            final(self).next_memory_id == old(self).next_memory_id,
            match r {
                Ok(_) => {
                    &&& old(self).has_entity(entity_id as int)
                    &&& if old(self).has_alias(alias@) || (exists|j: int|
                        0 <= j < old(self).ents().len() && #[trigger] old(self).ents()[j].name
                            == alias@ && old(self).ents()[j].id != entity_id as int) {
                        *final(self) == *old(self)
                    } else {
                        &&& final(self).next_alias_id as int == old(self).next_alias_id as int + 1
                        &&& final(self).als() == old(self).als().push(
                            (AliasV {
                                id: old(self).next_alias_id as int,
                                entity_id: entity_id as int,
                                alias: alias@,
                                created_at: now@,
                            }),
                        )
                    }
                },
                Err(e) => {
                    &&& *final(self) == *old(self)
                    &&& (e == StoreError::NotFound && !old(self).has_entity(entity_id as int)) || (
                    e == StoreError::Full && old(self).has_entity(entity_id as int) && old(self).next_alias_id == i64::MAX)
                },
            },
            old(self).aliases_sound() ==> final(self).aliases_sound(),
            old(self).links_sound() ==> final(self).links_sound(),
            old(self).relations_sound() ==> final(self).relations_sound(),
    {
        let ghost pre = *self;
        match self.find_entity_ix(entity_id) {
            None => Err(StoreError::NotFound),
            Some(eix) => {
                match self.find_alias_ix(alias) {
                    Some(_) => Ok(()),
                    None => {
                        if self.other_entity_has_name(alias, entity_id) {
                            return Ok(());
                        }
                        self.push_alias_row(entity_id, alias, now)
                    },
                }
            },
        }
    }

    /// Index of the relation row with this `(from, to, type)` triple.
    fn find_triple_ix(&self, from: i64, to: i64, rtype: &String) -> (r: Option<usize>)
        requires
            self.wf(),
        ensures
            match r {
                Some(i) => {
                    &&& i < self.rels().len()
                    &&& self.rels()[i as int].from == from as int
                    &&& self.rels()[i as int].to == to as int
                    &&& self.rels()[i as int].rtype == rtype@
                    &&& self.has_triple(from as int, to as int, rtype@)
                    &&& self.triple_ix(from as int, to as int, rtype@) == i as int
                },
                None => !self.has_triple(from as int, to as int, rtype@),
            },
    {
        let mut i: usize = 0;
        while i < self.relations.len()
            invariant
                self.wf(),
                i <= self.rels().len(),
                forall|j: int|
                    0 <= j < i ==> !((#[trigger] self.rels()[j]).from == from as int
                        && self.rels()[j].to == to as int && self.rels()[j].rtype == rtype@),
            decreases self.rels().len() - i,
        {
            if self.relations[i].from_entity_id == from && self.relations[i].to_entity_id == to
                && string_eq(&self.relations[i].relation_type, rtype) {
                proof {
                    lemma_unique_triple_ix(*self, from as int, to as int, rtype@, i as int);
                }
                return Some(i);
            }
            i = i + 1;
        }
        None
    }

    /// Insert a relation or bump its repetition counter.
    ///
    /// A fresh `(from, to, type)` triple becomes a row with `strength` one;
    /// re-asserting an existing triple increments its `strength` (saturating
    /// at the counter's maximum) instead of duplicating the row. `NotFound`
    /// exactly when an endpoint entity does not exist.
    pub fn upsert_relation(&mut self, from: i64, to: i64, rtype: &String, now: &String) -> (r:
        Result<(), StoreError>)
        requires
            old(self).wf(),
        ensures
            final(self).wf(),
            final(self).ents() == old(self).ents(),
            final(self).als() == old(self).als(),
            final(self).mems() == old(self).mems(),
            final(self).lnks() == old(self).lnks(),
            final(self).next_entity_id == old(self).next_entity_id,
            final(self).next_alias_id == old(self).next_alias_id,
            final(self).next_memory_id == old(self).next_memory_id,
            match r {
                Ok(_) => {
                    &&& old(self).has_entity(from as int)
                    &&& old(self).has_entity(to as int)
                    &&& if old(self).has_triple(from as int, to as int, rtype@) {
                        let ix = old(self).triple_ix(from as int, to as int, rtype@);
                        &&& final(self).next_relation_id == old(self).next_relation_id
                        &&& final(self).rels() == old(self).rels().update(
                            ix,
                            (RelationV {
                                strength: if old(self).rels()[ix].strength < i32::MAX as int {
                                    old(self).rels()[ix].strength + 1
                                } else {
                                    old(self).rels()[ix].strength
                                },
                                ..old(self).rels()[ix]
                            }),
                        )
                    } else {
                        &&& final(self).next_relation_id as int == old(self).next_relation_id as int + 1
                        &&& final(self).rels() == old(self).rels().push(
                            (RelationV {
                                id: old(self).next_relation_id as int,
                                from: from as int,
                                to: to as int,
                                rtype: rtype@,
                                strength: 1,
                                created_at: Some(now@),
                            }),
                        )
                    }
                },
                Err(e) => {
                    &&& *final(self) == *old(self)
                    &&& (e == StoreError::NotFound && !(old(self).has_entity(from as int) && old(self).has_entity(to as int))) || (e == StoreError::Full && old(self).has_entity(
                        from as int,
                    ) && old(self).has_entity(to as int) && !old(self).has_triple(
                        from as int,
                        to as int,
                        rtype@,
                    ) && old(self).next_relation_id == i64::MAX)
                },
            },
            old(self).aliases_sound() ==> final(self).aliases_sound(),
            old(self).links_sound() ==> final(self).links_sound(),
            old(self).relations_sound() ==> final(self).relations_sound(),
            old(self).entities_linked() ==> final(self).entities_linked(),
    {
        let ghost pre = *self;
        if self.find_entity_ix(from).is_none() || self.find_entity_ix(to).is_none() {
            return Err(StoreError::NotFound);
        }
        match self.find_triple_ix(from, to, rtype) {
            Some(ix) => {
                let row = &self.relations[ix];
                let bumped: i32 = if row.strength < i32::MAX {
                    row.strength + 1
                } else {
                    row.strength
                };
                let new_row = Relation {
                    id: row.id,
                    from_entity_id: row.from_entity_id,
                    to_entity_id: row.to_entity_id,
                    relation_type: row.relation_type.clone(),
                    strength: bumped,
                    created_at: match &row.created_at {
                        Some(c) => Some(c.clone()),
                        None => None,
                    },
                };
                self.relations.set(ix, new_row);
                proof {
                    assert(self.rels() =~= pre.rels().update(
                        ix as int,
                        (RelationV {
                            strength: if pre.rels()[ix as int].strength < i32::MAX as int {
                                pre.rels()[ix as int].strength + 1
                            } else {
                                pre.rels()[ix as int].strength
                            },
                            ..pre.rels()[ix as int]
                        }),
                    ));
                    assert(self.ents() =~= pre.ents());
                    assert(self.als() =~= pre.als());
                    assert(self.mems() =~= pre.mems());
                    assert(self.lnks() =~= pre.lnks());
                    lemma_wf_after_relation_update(pre, *self, ix as int);
                }
                Ok(())
            },
            None => {
                if self.next_relation_id == i64::MAX {
                    return Err(StoreError::Full);
                }
                let row = Relation {
                    id: self.next_relation_id,
                    from_entity_id: from,
                    to_entity_id: to,
                    relation_type: rtype.clone(),
                    strength: 1,
                    created_at: Some(now.clone()),
                };
                self.relations.push(row);
                self.next_relation_id = self.next_relation_id + 1;
                proof {
                    assert(self.rels() =~= pre.rels().push(
                        (RelationV {
                            id: pre.next_relation_id as int,
                            from: from as int,
                            to: to as int,
                            rtype: rtype@,
                            strength: 1,
                            created_at: Some(now@),
                        }),
                    ));
                    assert(self.ents() =~= pre.ents());
                    assert(self.als() =~= pre.als());
                    assert(self.mems() =~= pre.mems());
                    assert(self.lnks() =~= pre.lnks());
                    lemma_wf_after_relation_push(pre, *self, from as int, to as int, rtype@);
                }
                Ok(())
            },
        }
    }

    /// Index of the memory row whose file path is `path`.
    fn find_memory_by_path_ix(&self, path: &String) -> (r: Option<usize>)
        ensures
            match r {
                Some(i) => i < self.mems().len() && self.mems()[i as int].md_file_path is Some
                    && self.mems()[i as int].md_file_path->0 == path@,
                None => forall|j: int|
                    0 <= j < self.mems().len() ==> !((#[trigger] self.mems()[j]).md_file_path
                        is Some && self.mems()[j].md_file_path->0 == path@),
            },
    {
        let mut i: usize = 0;
        while i < self.memories.len()
            invariant
                i <= self.mems().len(),
                forall|j: int|
                    0 <= j < i ==> !((#[trigger] self.mems()[j]).md_file_path is Some
                        && self.mems()[j].md_file_path->0 == path@),
            decreases self.mems().len() - i,
        {
            let hit = match &self.memories[i].md_file_path {
                Some(p) => string_eq(p, path),
                None => false,
            };
            if hit {
                return Some(i);
            }
            i = i + 1;
        }
        None
    }

    /// Append a new memory row.
    ///
    /// `Conflict` exactly when the given file path is already recorded on
    /// another memory (the path column is unique); otherwise the note is
    /// stored under the next free id, which is returned.
    pub fn insert_memory(
        &mut self,
        content: &String,
        md_file_path: &Option<String>,
        tags: &Option<String>,
        now: &String,
    ) -> (r: Result<i64, StoreError>)
        requires
            old(self).wf(),
        ensures
            final(self).wf(),
            final(self).ents() == old(self).ents(),
            final(self).als() == old(self).als(),
            final(self).rels() == old(self).rels(),
            final(self).lnks() == old(self).lnks(),
            final(self).next_entity_id == old(self).next_entity_id,
            final(self).next_alias_id == old(self).next_alias_id,
            final(self).next_relation_id == old(self).next_relation_id,
            match r {
                Ok(id) => {
                    &&& id == old(self).next_memory_id
                    &&& final(self).next_memory_id as int == old(self).next_memory_id as int + 1
                    &&& final(self).mems() == old(self).mems().push(
                        (MemoryV {
                            id: id as int,
                            content: content@,
                            md_file_path: match *md_file_path {
                                Some(ref p) => Some(p@),
                                None => None,
                            },
                            created_at: now@,
                            tags: match *tags {
                                Some(ref t) => Some(t@),
                                None => None,
                            },
                        }),
                    )
                    &&& final(self).has_memory(id as int)
                },
                Err(e) => {
                    &&& *final(self) == *old(self)
                    &&& (e == StoreError::Conflict && *md_file_path is Some && exists|j: int|
                        0 <= j < old(self).mems().len() && (#[trigger] old(self).mems()[j]).md_file_path is Some && old(self).mems()[j].md_file_path->0
                            == md_file_path->0@) || (e == StoreError::Full && old(self).next_memory_id == i64::MAX)
                },
            },
            old(self).aliases_sound() ==> final(self).aliases_sound(),
            old(self).links_sound() ==> final(self).links_sound(),
            old(self).relations_sound() ==> final(self).relations_sound(),
            old(self).entities_linked() ==> final(self).entities_linked(),
    {
        let ghost pre = *self;
        match md_file_path {
            Some(p) => {
                if self.find_memory_by_path_ix(p).is_some() {
                    return Err(StoreError::Conflict);
                }
            },
            None => {},
        }
        if self.next_memory_id == i64::MAX {
            return Err(StoreError::Full);
        }
        let id = self.next_memory_id;
        let row = Memory {
            id,
            content: content.clone(),
            md_file_path: match md_file_path {
                Some(p) => Some(p.clone()),
                None => None,
            },
            created_at: now.clone(),
            tags: match tags {
                Some(t) => Some(t.clone()),
                None => None,
            },
        };
        self.memories.push(row);
        self.next_memory_id = id + 1;
        proof {
            assert(self.mems() =~= pre.mems().push(
                (MemoryV {
                    id: id as int,
                    content: content@,
                    md_file_path: match *md_file_path {
                        Some(ref p) => Some(p@),
                        None => None,
                    },
                    created_at: now@,
                    tags: match *tags {
                        Some(ref t) => Some(t@),
                        None => None,
                    },
                }),
            ));
            assert(self.ents() =~= pre.ents());
            assert(self.als() =~= pre.als());
            assert(self.rels() =~= pre.rels());
            assert(self.lnks() =~= pre.lnks());
            lemma_wf_after_memory_push(pre, *self);
            assert(self.mems()[pre.mems().len() as int].id == id as int);
        }
        Ok(id)
    }

    /// Whether the `(memory, entity)` link row exists.
    fn find_link(&self, memory_id: i64, entity_id: i64) -> (r: bool)
        ensures
            r == self.has_link(memory_id as int, entity_id as int),
    {
        let mut i: usize = 0;
        while i < self.links.len()
            invariant
                i <= self.lnks().len(),
                forall|j: int|
                    0 <= j < i ==> !((#[trigger] self.lnks()[j]).memory_id == memory_id as int
                        && self.lnks()[j].entity_id == entity_id as int),
            decreases self.lnks().len() - i,
        {
            if self.links[i].memory_id == memory_id && self.links[i].entity_id == entity_id {
                proof {
                    assert(self.lnks()[i as int].memory_id == memory_id as int);
                }
                return true;
            }
            i = i + 1;
        }
        false
    }

    /// Associate a memory with an entity; re-linking an existing pair is a
    /// silent no-op. `NotFound` exactly when either side does not exist.
    pub fn link_memory_entity(&mut self, memory_id: i64, entity_id: i64) -> (r: Result<
        (),
        StoreError,
    >)
        requires
            old(self).wf(),
        ensures
            final(self).wf(),
            final(self).ents() == old(self).ents(),
            final(self).als() == old(self).als(),
            final(self).rels() == old(self).rels(),
            final(self).mems() == old(self).mems(),
            final(self).next_entity_id == old(self).next_entity_id,
            final(self).next_alias_id == old(self).next_alias_id,
            final(self).next_relation_id == old(self).next_relation_id,
            final(self).next_memory_id == old(self).next_memory_id,
            match r {
                Ok(_) => {
                    &&& old(self).has_memory(memory_id as int)
                    &&& old(self).has_entity(entity_id as int)
                    &&& final(self).has_link(memory_id as int, entity_id as int)
                    &&& final(self).entity_is_linked(entity_id as int)
                    &&& if old(self).has_link(memory_id as int, entity_id as int) {
                        *final(self) == *old(self)
                    } else {
                        final(self).lnks() == old(self).lnks().push(
                            (LinkV { memory_id: memory_id as int, entity_id: entity_id as int }),
                        )
                    }
                },
                Err(e) => {
                    &&& *final(self) == *old(self)
                    &&& e == StoreError::NotFound
                    &&& !(old(self).has_memory(memory_id as int) && old(self).has_entity(
                        entity_id as int,
                    ))
                },
            },
            old(self).aliases_sound() ==> final(self).aliases_sound(),
            old(self).links_sound() ==> final(self).links_sound(),
            old(self).relations_sound() ==> final(self).relations_sound(),
            forall|id: int|
                old(self).entity_is_linked(id) ==> final(self).entity_is_linked(id),
    {
        let ghost pre = *self;
        if self.find_memory_ix(memory_id).is_none() || self.find_entity_ix(entity_id).is_none() {
            return Err(StoreError::NotFound);
        }
        if self.find_link(memory_id, entity_id) {
            return Ok(());
        }
        self.links.push(MemoryEntity { memory_id, entity_id });
        proof {
            assert(self.lnks() =~= pre.lnks().push(
                (LinkV { memory_id: memory_id as int, entity_id: entity_id as int }),
            ));
            assert(self.ents() =~= pre.ents());
            assert(self.als() =~= pre.als());
            assert(self.rels() =~= pre.rels());
            assert(self.mems() =~= pre.mems());
            lemma_wf_after_link_push(pre, *self, memory_id as int, entity_id as int);
            assert(self.lnks()[pre.lnks().len() as int].memory_id == memory_id as int);
            assert(self.lnks()[pre.lnks().len() as int].entity_id == entity_id as int);
        }
        Ok(())
    }

    /// Replace a memory's content and tags in place; `NotFound` exactly
    /// when the id matches no row.
    pub fn update_memory(&mut self, id: i64, content: &String, tags: &Option<String>) -> (r: Result<
        (),
        StoreError,
    >)
        requires
            old(self).wf(),
        ensures
            final(self).wf(),
            final(self).ents() == old(self).ents(),
            final(self).als() == old(self).als(),
            final(self).rels() == old(self).rels(),
            final(self).lnks() == old(self).lnks(),
            final(self).next_entity_id == old(self).next_entity_id,
            final(self).next_alias_id == old(self).next_alias_id,
            final(self).next_relation_id == old(self).next_relation_id,
            final(self).next_memory_id == old(self).next_memory_id,
            match r {
                Ok(_) => {
                    &&& old(self).has_memory(id as int)
                    &&& final(self).mems() == old(self).mems().update(
                        old(self).memory_ix(id as int),
                        (MemoryV {
                            content: content@,
                            tags: match *tags {
                                Some(ref t) => Some(t@),
                                None => None,
                            },
                            ..old(self).mems()[old(self).memory_ix(id as int)]
                        }),
                    )
                },
                Err(e) => {
                    &&& *final(self) == *old(self)
                    &&& e == StoreError::NotFound
                    &&& !old(self).has_memory(id as int)
                },
            },
            old(self).aliases_sound() ==> final(self).aliases_sound(),
            old(self).links_sound() ==> final(self).links_sound(),
            old(self).relations_sound() ==> final(self).relations_sound(),
            old(self).entities_linked() ==> final(self).entities_linked(),
    {
        let ghost pre = *self;
        match self.find_memory_ix(id) {
            None => Err(StoreError::NotFound),
            Some(ix) => {
                let row = &self.memories[ix];
                let new_row = Memory {
                    id: row.id,
                    content: content.clone(),
                    md_file_path: match &row.md_file_path {
                        Some(p) => Some(p.clone()),
                        None => None,
                    },
                    created_at: row.created_at.clone(),
                    tags: match tags {
                        Some(t) => Some(t.clone()),
                        None => None,
                    },
                };
                self.memories.set(ix, new_row);
                proof {
                    lemma_unique_memory_ix(pre, id as int, ix as int);
                    assert(self.mems() =~= pre.mems().update(
                        ix as int,
                        (MemoryV {
                            content: content@,
                            tags: match *tags {
                                Some(ref t) => Some(t@),
                                None => None,
                            },
                            ..pre.mems()[ix as int]
                        }),
                    ));
                    assert(self.ents() =~= pre.ents());
                    assert(self.als() =~= pre.als());
                    assert(self.rels() =~= pre.rels());
                    assert(self.lnks() =~= pre.lnks());
                    lemma_wf_after_memory_update(pre, *self, ix as int);
                }
                Ok(())
            },
        }
    }

    /// Drop every link row of this memory (the unlink step of an edit).
    pub fn clear_memory_entities(&mut self, memory_id: i64)
        requires
            old(self).wf(),
        ensures
            final(self).wf(),
            final(self).ents() == old(self).ents(),
            final(self).als() == old(self).als(),
            final(self).rels() == old(self).rels(),
            final(self).mems() == old(self).mems(),
            final(self).next_entity_id == old(self).next_entity_id,
            final(self).next_alias_id == old(self).next_alias_id,
            final(self).next_relation_id == old(self).next_relation_id,
            final(self).next_memory_id == old(self).next_memory_id,
            final(self).lnks() == old(self).lnks().filter(
                |l: LinkV| l.memory_id != memory_id as int,
            ),
            old(self).aliases_sound() ==> final(self).aliases_sound(),
            old(self).links_sound() ==> final(self).links_sound(),
            old(self).relations_sound() ==> final(self).relations_sound(),
    {
        let ghost pre = *self;
        let ghost pred = |l: LinkV| l.memory_id != memory_id as int;
        let mut kept: Vec<MemoryEntity> = Vec::new();
        let mut i: usize = 0;
        while i < self.links.len()
            invariant
                i <= self.lnks().len(),
                self.links@ == pre.links@,
                self.entities@ == pre.entities@,
                self.aliases@ == pre.aliases@,
                self.relations@ == pre.relations@,
                self.memories@ == pre.memories@,
                kept_view(kept@) == pre.lnks().subrange(0, i as int).filter(pred),
                pred == (|l: LinkV| l.memory_id != memory_id as int),
            decreases self.lnks().len() - i,
        {
            let ghost prefix = pre.lnks().subrange(0, i as int);
            let l = &self.links[i];
            proof {
                assert(prefix.push(pre.lnks()[i as int]) =~= pre.lnks().subrange(0, i + 1));
                lemma_filter_push(prefix, pre.lnks()[i as int], pred);
            }
            if l.memory_id != memory_id {
                kept.push(MemoryEntity { memory_id: l.memory_id, entity_id: l.entity_id });
                proof {
                    assert(kept_view(kept@) =~= prefix.filter(pred).push(pre.lnks()[i as int]));
                }
            }
            i = i + 1;
        }
        self.links = kept;
        proof {
            assert(pre.lnks().subrange(0, pre.lnks().len() as int) =~= pre.lnks());
            assert(self.lnks() =~= kept_view(kept@));
            assert(self.ents() =~= pre.ents());
            assert(self.als() =~= pre.als());
            assert(self.rels() =~= pre.rels());
            assert(self.mems() =~= pre.mems());
            lemma_wf_after_link_filter(pre, *self, pred);
        }
    }

    /// Whether any link row references this entity.
    fn entity_linked(&self, entity_id: i64) -> (r: bool)
        ensures
            r == self.entity_is_linked(entity_id as int),
    {
        let mut i: usize = 0;
        while i < self.links.len()
            invariant
                i <= self.lnks().len(),
                forall|j: int| 0 <= j < i ==> #[trigger] self.lnks()[j].entity_id != entity_id as int,
            decreases self.lnks().len() - i,
        {
            if self.links[i].entity_id == entity_id {
                proof {
                    assert(self.lnks()[i as int].entity_id == entity_id as int);
                }
                return true;
            }
            i = i + 1;
        }
        false
    }

    /// Whether an entity row with this id exists.
    pub fn has_entity_row(&self, id: i64) -> (r: bool)
        ensures
            r == self.has_entity(id as int),
    {
        self.find_entity_ix(id).is_some()
    }

    /// Drop relation rows whose endpoints are gone; one pruning pass.
    fn drop_dangling_relations(&mut self)
        requires
            old(self).wf(),
        ensures
            final(self).wf(),
            final(self).ents() == old(self).ents(),
            final(self).als() == old(self).als(),
            final(self).mems() == old(self).mems(),
            final(self).lnks() == old(self).lnks(),
            final(self).next_entity_id == old(self).next_entity_id,
            final(self).next_alias_id == old(self).next_alias_id,
            final(self).next_relation_id == old(self).next_relation_id,
            final(self).next_memory_id == old(self).next_memory_id,
            final(self).rels() == old(self).rels().filter(
                |r: RelationV| old(self).has_entity(r.from) && old(self).has_entity(r.to),
            ),
    {
        let ghost pre = *self;
        let ghost pred = |r: RelationV| pre.has_entity(r.from) && pre.has_entity(r.to);
        let mut kept: Vec<Relation> = Vec::new();
        let mut i: usize = 0;
        while i < self.relations.len()
            invariant
                *self == pre,
                i <= pre.rels().len(),
                rels_view(kept@) == pre.rels().subrange(0, i as int).filter(pred),
                pred == (|r: RelationV| pre.has_entity(r.from) && pre.has_entity(r.to)),
            decreases pre.rels().len() - i,
        {
            let ghost prefix = pre.rels().subrange(0, i as int);
            proof {
                assert(prefix.push(pre.rels()[i as int]) =~= pre.rels().subrange(0, i + 1));
                lemma_filter_push(prefix, pre.rels()[i as int], pred);
            }
            let keep = self.find_entity_ix(self.relations[i].from_entity_id).is_some()
                && self.find_entity_ix(self.relations[i].to_entity_id).is_some();
            if keep {
                kept.push(copy_relation(&self.relations[i]));
                proof {
                    assert(rels_view(kept@) =~= prefix.filter(pred).push(pre.rels()[i as int]));
                }
            }
            i = i + 1;
        }
        self.relations = kept;
        proof {
            assert(pre.rels().subrange(0, pre.rels().len() as int) =~= pre.rels());
            assert(self.rels() =~= rels_view(kept@));
            assert(self.ents() =~= pre.ents());
            assert(self.als() =~= pre.als());
            assert(self.mems() =~= pre.mems());
            assert(self.lnks() =~= pre.lnks());
            lemma_wf_after_table_filters(pre, *self);
        }
    }

    /// The fixed two-pass orphan-pruning sequence.
    ///
    /// First pass drops relations with a missing endpoint; then entities
    /// with no memory link are removed, their alias rows removed with them
    /// as the cascade would; the second relation pass drops the relations
    /// newly orphaned by those entity removals. Two passes are required:
    /// entity removal can orphan a relation whose other endpoint was fine.
    /// On a store already orphan-free the whole sequence changes nothing.
    #[verifier::rlimit(100)]
    pub fn prune_orphan_entities_and_relations(&mut self)
        requires
            old(self).wf(),
        ensures
            final(self).wf(),
            final(self).mems() == old(self).mems(),
            final(self).lnks() == old(self).lnks(),
            final(self).next_entity_id == old(self).next_entity_id,
            final(self).next_alias_id == old(self).next_alias_id,
            final(self).next_relation_id == old(self).next_relation_id,
            final(self).next_memory_id == old(self).next_memory_id,
            final(self).ents() == old(self).ents().filter(
                |e: EntityV| old(self).entity_is_linked(e.id),
            ),
            final(self).als() == old(self).als().filter(
                |a: AliasV| !(old(self).has_entity(a.entity_id) && !old(self).entity_is_linked(
                    a.entity_id,
                )),
            ),
            final(self).rels() == old(self).rels().filter(
                |r: RelationV| old(self).has_entity(r.from) && old(self).entity_is_linked(r.from)
                    && old(self).has_entity(r.to) && old(self).entity_is_linked(r.to),
            ),
            final(self).entities_linked(),
            final(self).relations_sound(),
            old(self).links_sound() ==> final(self).links_sound(),
            old(self).aliases_sound() ==> final(self).aliases_sound(),
            old(self).orphan_free() ==> final(self).ents() == old(self).ents()
                && final(self).als() == old(self).als()
                && final(self).rels() == old(self).rels(),
    {
        let ghost pre = *self;
        self.drop_dangling_relations();
        let ghost mid1 = *self;

        // cascade: aliases of entities about to be removed go with them
        let ghost apred = |a: AliasV| !(pre.has_entity(a.entity_id) && !pre.entity_is_linked(
            a.entity_id,
        ));
        let mut kept_als: Vec<AliasEntry> = Vec::new();
        let mut i: usize = 0;
        while i < self.aliases.len()
            invariant
                *self == mid1,
                pre.als() == mid1.als(),
                pre.ents() == mid1.ents(),
                pre.lnks() == mid1.lnks(),
                i <= pre.als().len(),
                als_view(kept_als@) == pre.als().subrange(0, i as int).filter(apred),
                apred == (|a: AliasV| !(pre.has_entity(a.entity_id) && !pre.entity_is_linked(
                    a.entity_id,
                ))),
            decreases pre.als().len() - i,
        {
            let ghost prefix = pre.als().subrange(0, i as int);
            proof {
                assert(prefix.push(pre.als()[i as int]) =~= pre.als().subrange(0, i + 1));
                lemma_filter_push(prefix, pre.als()[i as int], apred);
            }
            let target = self.aliases[i].entity_id;
            let keep = !(self.has_entity_row(target) && !self.entity_linked(target));
            if keep {
                let a = &self.aliases[i];
                kept_als.push(AliasEntry {
                    id: a.id,
                    entity_id: a.entity_id,
                    alias: a.alias.clone(),
                    created_at: a.created_at.clone(),
                });
                proof {
                    assert(als_view(kept_als@) =~= prefix.filter(apred).push(pre.als()[i as int]));
                }
            }
            i = i + 1;
        }

        // entities with no memory link are orphans
        let ghost epred = |e: EntityV| pre.entity_is_linked(e.id);
        let mut kept_ents: Vec<Entity> = Vec::new();
        let mut j: usize = 0;
        while j < self.entities.len()
            invariant
                *self == mid1,
                pre.ents() == mid1.ents(),
                pre.lnks() == mid1.lnks(),
                j <= pre.ents().len(),
                ents_view(kept_ents@) == pre.ents().subrange(0, j as int).filter(epred),
                epred == (|e: EntityV| pre.entity_is_linked(e.id)),
            decreases pre.ents().len() - j,
        {
            let ghost prefix = pre.ents().subrange(0, j as int);
            proof {
                assert(prefix.push(pre.ents()[j as int]) =~= pre.ents().subrange(0, j + 1));
                lemma_filter_push(prefix, pre.ents()[j as int], epred);
            }
            if self.entity_linked(self.entities[j].id) {
                kept_ents.push(copy_entity(&self.entities[j]));
                proof {
                    assert(ents_view(kept_ents@) =~= prefix.filter(epred).push(pre.ents()[j as int]));
                }
            }
            j = j + 1;
        }

        self.aliases = kept_als;
        self.entities = kept_ents;
        proof {
            assert(pre.als().subrange(0, pre.als().len() as int) =~= pre.als());
            assert(pre.ents().subrange(0, pre.ents().len() as int) =~= pre.ents());
            assert(self.als() =~= als_view(kept_als@));
            assert(self.ents() =~= ents_view(kept_ents@));
            assert(self.rels() =~= mid1.rels());
            assert(self.mems() =~= mid1.mems());
            assert(self.lnks() =~= mid1.lnks());
            lemma_wf_after_table_filters(mid1, *self);
        }
        let ghost mid2 = *self;

        // second relation pass: entity removal may have orphaned more
        self.drop_dangling_relations();

        proof {
            // entity membership after the removals
            assert forall|id: int|
                final(self).has_entity(id) <==> (pre.has_entity(id) && pre.entity_is_linked(
                    id,
                )) by {
                lemma_filtered_entity_membership(pre, mid2, id);
                assert(mid2.has_entity(id) == final(self).has_entity(id));
            }
            // the two relation passes compose into one net filter
            lemma_filter_compose(
                pre.rels(),
                |r: RelationV| pre.has_entity(r.from) && pre.has_entity(r.to),
                |r: RelationV| mid2.has_entity(r.from) && mid2.has_entity(r.to),
                |r: RelationV| pre.has_entity(r.from) && pre.entity_is_linked(r.from)
                    && pre.has_entity(r.to) && pre.entity_is_linked(r.to),
            );
            // remaining relations are sound
            assert forall|k: int| 0 <= k < final(self).rels().len() implies final(self).has_entity((#[trigger] final(self).rels()[k]).from) && final(self).has_entity(
                final(self).rels()[k].to,
            ) by {
                let p = lemma_filter_element_origin(
                    mid2.rels(),
                    |r: RelationV| mid2.has_entity(r.from) && mid2.has_entity(r.to),
                    k,
                );
            }
            // remaining entities are linked
            assert forall|k: int| 0 <= k < final(self).ents().len() implies final(self).entity_is_linked((#[trigger] final(self).ents()[k]).id) by {
                let p = lemma_filter_element_origin(
                    pre.ents(),
                    |e: EntityV| pre.entity_is_linked(e.id),
                    k,
                );
                assert(pre.entity_is_linked(final(self).ents()[k].id));
                let w = choose|w: int|
                    0 <= w < pre.lnks().len() && #[trigger] pre.lnks()[w].entity_id == final(self).ents()[k].id;
                assert(final(self).lnks()[w].entity_id == final(self).ents()[k].id);
            }
            if pre.aliases_sound() {
                assert forall|a: int| 0 <= a < final(self).als().len() implies final(self).has_entity((#[trigger] final(self).als()[a]).entity_id) && forall|j: int|
                    0 <= j < final(self).ents().len() && #[trigger] final(self).ents()[j].name
                        == final(self).als()[a].alias ==> final(self).ents()[j].id == final(self).als()[a].entity_id by {
                    let o = lemma_filter_element_origin(pre.als(), apred, a);
                    assert(pre.als()[o] == final(self).als()[a]);
                    let t = pre.als()[o].entity_id;
                    assert(pre.has_entity(t));
                    assert(pre.entity_is_linked(t));
                    assert(final(self).has_entity(t));
                    assert forall|j: int|
                        0 <= j < final(self).ents().len() && #[trigger] final(self).ents()[j].name
                            == final(self).als()[a].alias implies final(self).ents()[j].id
                        == t by {
                        let eo = lemma_filter_element_origin(pre.ents(), epred, j);
                        assert(pre.ents()[eo] == final(self).ents()[j]);
                        assert(pre.ents()[eo].name == pre.als()[o].alias);
                    }
                }
            }
            if pre.links_sound() {
                assert forall|k: int| 0 <= k < final(self).lnks().len() implies final(self).has_memory((#[trigger] final(self).lnks()[k]).memory_id) && final(self).has_entity(final(self).lnks()[k].entity_id) by {
                    assert(pre.lnks()[k] == final(self).lnks()[k]);
                    assert(pre.has_memory(pre.lnks()[k].memory_id));
                    let m = pre.memory_ix(pre.lnks()[k].memory_id);
                    assert(final(self).mems()[m].id == pre.lnks()[k].memory_id);
                    assert(pre.has_entity(pre.lnks()[k].entity_id));
                    assert(pre.entity_is_linked(pre.lnks()[k].entity_id));
                }
            }
            if pre.orphan_free() {
                lemma_filter_all_true(
                    pre.ents(),
                    |e: EntityV| pre.entity_is_linked(e.id),
                );
                lemma_filter_all_true(
                    pre.als(),
                    |a: AliasV| !(pre.has_entity(a.entity_id) && !pre.entity_is_linked(
                        a.entity_id,
                    )),
                );
                assert forall|k: int| 0 <= k < pre.rels().len() implies (pre.has_entity(
                    (#[trigger] pre.rels()[k]).from,
                ) && pre.entity_is_linked(pre.rels()[k].from) && pre.has_entity(pre.rels()[k].to)
                    && pre.entity_is_linked(pre.rels()[k].to)) by {
                    assert(pre.has_entity(pre.rels()[k].from));
                    assert(pre.has_entity(pre.rels()[k].to));
                    let f = pre.entity_ix(pre.rels()[k].from);
                    assert(pre.entity_is_linked(pre.ents()[f].id));
                    let t = pre.entity_ix(pre.rels()[k].to);
                    assert(pre.entity_is_linked(pre.ents()[t].id));
                }
                lemma_filter_all_true(
                    pre.rels(),
                    |r: RelationV| pre.has_entity(r.from) && pre.entity_is_linked(r.from)
                        && pre.has_entity(r.to) && pre.entity_is_linked(r.to),
                );
            }
        }
    }

    /// Drop the memory row with this id, if any.
    fn drop_memory_row(&mut self, id: i64)
        requires
            old(self).wf(),
        ensures
            final(self).wf(),
            final(self).ents() == old(self).ents(),
            final(self).als() == old(self).als(),
            final(self).rels() == old(self).rels(),
            final(self).lnks() == old(self).lnks(),
            final(self).next_entity_id == old(self).next_entity_id,
            final(self).next_alias_id == old(self).next_alias_id,
            final(self).next_relation_id == old(self).next_relation_id,
            final(self).next_memory_id == old(self).next_memory_id,
            final(self).mems() == old(self).mems().filter(|m: MemoryV| m.id != id as int),
    {
        let ghost pre = *self;
        let ghost pred = |m: MemoryV| m.id != id as int;
        let mut kept: Vec<Memory> = Vec::new();
        let mut i: usize = 0;
        while i < self.memories.len()
            invariant
                *self == pre,
                i <= pre.mems().len(),
                mems_view(kept@) == pre.mems().subrange(0, i as int).filter(pred),
                pred == (|m: MemoryV| m.id != id as int),
            decreases pre.mems().len() - i,
        {
            let ghost prefix = pre.mems().subrange(0, i as int);
            proof {
                assert(prefix.push(pre.mems()[i as int]) =~= pre.mems().subrange(0, i + 1));
                lemma_filter_push(prefix, pre.mems()[i as int], pred);
            }
            if self.memories[i].id != id {
                kept.push(copy_memory(&self.memories[i]));
                proof {
                    assert(mems_view(kept@) =~= prefix.filter(pred).push(pre.mems()[i as int]));
                }
            }
            i = i + 1;
        }
        self.memories = kept;
        proof {
            assert(pre.mems().subrange(0, pre.mems().len() as int) =~= pre.mems());
            assert(self.mems() =~= mems_view(kept@));
            assert(self.ents() =~= pre.ents());
            assert(self.als() =~= pre.als());
            assert(self.rels() =~= pre.rels());
            assert(self.lnks() =~= pre.lnks());
            lemma_wf_after_table_filters(pre, *self);
        }
    }

    /// Delete a memory: its row and its links go, and the fixed pruning
    /// sequence then removes any entity left without a memory link and any
    /// relation left without both endpoints.
    pub fn delete_memory(&mut self, id: i64)
        requires
            old(self).wf(),
        ensures
            final(self).wf(),
            final(self).next_entity_id == old(self).next_entity_id,
            final(self).next_alias_id == old(self).next_alias_id,
            final(self).next_relation_id == old(self).next_relation_id,
            final(self).next_memory_id == old(self).next_memory_id,
            final(self).mems() == old(self).mems().filter(|m: MemoryV| m.id != id as int),
            final(self).lnks() == old(self).lnks().filter(
                |l: LinkV| l.memory_id != id as int,
            ),
            final(self).ents() == old(self).ents().filter(
                |e: EntityV| old(self).entity_linked_besides(e.id, id as int),
            ),
            forall|eid: int|
                final(self).has_entity(eid) <==> (old(self).has_entity(eid) && old(self).entity_linked_besides(eid, id as int)),
            final(self).entities_linked(),
            final(self).relations_sound(),
            old(self).links_sound() ==> final(self).links_sound(),
            final(self).rels() == old(self).rels().filter(
                |r: RelationV| old(self).has_entity(r.from) && old(self).entity_linked_besides(
                    r.from,
                    id as int,
                ) && old(self).has_entity(r.to) && old(self).entity_linked_besides(
                    r.to,
                    id as int,
                ),
            ),
            final(self).als() == old(self).als().filter(
                |a: AliasV| !(old(self).has_entity(a.entity_id) && !old(self).entity_linked_besides(
                    a.entity_id,
                    id as int,
                )),
            ),
    {
        let ghost pre = *self;
        self.drop_memory_row(id);
        self.clear_memory_entities(id);
        let ghost mid = *self;
        self.prune_orphan_entities_and_relations();
        proof {
            let lpred = |l: LinkV| l.memory_id != id as int;
            assert forall|eid: int|
                mid.entity_is_linked(eid) <==> pre.entity_linked_besides(eid, id as int) by {
                if mid.entity_is_linked(eid) {
                    let w = choose|w: int|
                        0 <= w < mid.lnks().len() && #[trigger] mid.lnks()[w].entity_id == eid;
                    let o = lemma_filter_element_origin(pre.lnks(), lpred, w);
                    assert(pre.lnks()[o].entity_id == eid && pre.lnks()[o].memory_id != id as int);
                }
                if pre.entity_linked_besides(eid, id as int) {
                    let w = choose|w: int|
                        0 <= w < pre.lnks().len() && #[trigger] pre.lnks()[w].entity_id == eid
                            && pre.lnks()[w].memory_id != id as int;
                    assert(lpred(pre.lnks()[w]));
                    assert(pre.lnks().filter(lpred).contains(pre.lnks()[w]));
                    let k = choose|k: int|
                        0 <= k < mid.lnks().len() && #[trigger] mid.lnks()[k] == pre.lnks()[w];
                    assert(mid.lnks()[k].entity_id == eid);
                }
            }
            lemma_filter_ext(
                mid.ents(),
                |e: EntityV| mid.entity_is_linked(e.id),
                |e: EntityV| pre.entity_linked_besides(e.id, id as int),
            );
            assert forall|x: int| mid.has_entity(x) <==> pre.has_entity(x) by {
                if mid.has_entity(x) {
                    let w = mid.entity_ix(x);
                    assert(pre.ents()[w].id == x);
                }
                if pre.has_entity(x) {
                    let w = pre.entity_ix(x);
                    assert(mid.ents()[w].id == x);
                }
            }
            lemma_filter_ext(
                mid.rels(),
                |r: RelationV| mid.has_entity(r.from) && mid.entity_is_linked(r.from)
                    && mid.has_entity(r.to) && mid.entity_is_linked(r.to),
                |r: RelationV| pre.has_entity(r.from) && pre.entity_linked_besides(
                    r.from,
                    id as int,
                ) && pre.has_entity(r.to) && pre.entity_linked_besides(r.to, id as int),
            );
            lemma_filter_ext(
                mid.als(),
                |a: AliasV| !(mid.has_entity(a.entity_id) && !mid.entity_is_linked(a.entity_id)),
                |a: AliasV| !(pre.has_entity(a.entity_id) && !pre.entity_linked_besides(
                    a.entity_id,
                    id as int,
                )),
            );
            assert forall|eid: int|
                final(self).has_entity(eid) <==> (pre.has_entity(eid) && pre.entity_linked_besides(
                    eid,
                    id as int,
                )) by {
                lemma_filtered_entity_membership(mid, *self, eid);
            }
            assert forall|i: int| 0 <= i < final(self).rels().len() implies pre.rels().contains(
                #[trigger] final(self).rels()[i],
            ) by {
                let o = lemma_filter_element_origin(
                    mid.rels(),
                    |r: RelationV| mid.has_entity(r.from) && mid.entity_is_linked(r.from)
                        && mid.has_entity(r.to) && mid.entity_is_linked(r.to),
                    i,
                );
                assert(pre.rels()[o] == final(self).rels()[i]);
            }
            assert forall|i: int| 0 <= i < final(self).als().len() implies pre.als().contains(
                #[trigger] final(self).als()[i],
            ) by {
                let o = lemma_filter_element_origin(
                    mid.als(),
                    |a: AliasV| !(mid.has_entity(a.entity_id) && !mid.entity_is_linked(
                        a.entity_id,
                    )),
                    i,
                );
                assert(pre.als()[o] == final(self).als()[i]);
            }
            if pre.links_sound() {
                assert forall|i: int| 0 <= i < mid.lnks().len() implies mid.has_memory(
                    (#[trigger] mid.lnks()[i]).memory_id,
                ) && mid.has_entity(mid.lnks()[i].entity_id) by {
                    let o = lemma_filter_element_origin(pre.lnks(), lpred, i);
                    assert(pre.has_memory(pre.lnks()[o].memory_id));
                    assert(pre.lnks()[o].memory_id != id as int);
                    let m = pre.memory_ix(pre.lnks()[o].memory_id);
                    assert((|m2: MemoryV| m2.id != id as int)(pre.mems()[m]));
                    assert(pre.mems().filter(|m2: MemoryV| m2.id != id as int).contains(
                        pre.mems()[m],
                    ));
                    let k = choose|k: int|
                        0 <= k < mid.mems().len() && #[trigger] mid.mems()[k] == pre.mems()[m];
                    assert(mid.mems()[k].id == mid.lnks()[i].memory_id);
                    assert(pre.has_entity(pre.lnks()[o].entity_id));
                }
            }
        }
    }

    /// Remove stale records: links whose memory or entity no longer exists,
    /// then the fixed two-pass orphan-pruning sequence. Afterwards every
    /// link joins existing rows, every relation has both endpoints, and
    /// every entity has at least one memory link; running it again on its
    /// own output changes nothing.
    pub fn cleanup_database(&mut self)
        requires
            old(self).wf(),
        ensures
            final(self).wf(),
            final(self).mems() == old(self).mems(),
            final(self).next_entity_id == old(self).next_entity_id,
            final(self).next_alias_id == old(self).next_alias_id,
            final(self).next_relation_id == old(self).next_relation_id,
            final(self).next_memory_id == old(self).next_memory_id,
            final(self).lnks() == old(self).lnks().filter(
                |l: LinkV| old(self).has_memory(l.memory_id) && old(self).has_entity(l.entity_id),
            ),
            final(self).links_sound(),
            final(self).entities_linked(),
            final(self).relations_sound(),
            final(self).ents() == old(self).ents().filter(
                |e: EntityV| old(self).validly_linked(e.id),
            ),
            final(self).als() == old(self).als().filter(
                |a: AliasV| !(old(self).has_entity(a.entity_id) && !old(self).validly_linked(
                    a.entity_id,
                )),
            ),
            final(self).rels() == old(self).rels().filter(
                |r: RelationV| old(self).has_entity(r.from) && old(self).validly_linked(r.from)
                    && old(self).has_entity(r.to) && old(self).validly_linked(r.to),
            ),
            old(self).links_sound() && old(self).orphan_free() ==> final(self).lnks() == old(self).lnks() && final(self).ents() == old(self).ents() && final(self).als() == old(self).als() && final(self).rels() == old(self).rels(),
    {
        let ghost pre = *self;
        let ghost lpred = |l: LinkV| pre.has_memory(l.memory_id) && pre.has_entity(l.entity_id);
        let mut kept: Vec<MemoryEntity> = Vec::new();
        let mut i: usize = 0;
        while i < self.links.len()
            invariant
                *self == pre,
                i <= pre.lnks().len(),
                kept_view(kept@) == pre.lnks().subrange(0, i as int).filter(lpred),
                lpred == (|l: LinkV| pre.has_memory(l.memory_id) && pre.has_entity(l.entity_id)),
            decreases pre.lnks().len() - i,
        {
            let ghost prefix = pre.lnks().subrange(0, i as int);
            proof {
                assert(prefix.push(pre.lnks()[i as int]) =~= pre.lnks().subrange(0, i + 1));
                lemma_filter_push(prefix, pre.lnks()[i as int], lpred);
            }
            let keep = self.find_memory_ix(self.links[i].memory_id).is_some()
                && self.find_entity_ix(self.links[i].entity_id).is_some();
            if keep {
                let l = &self.links[i];
                kept.push(MemoryEntity { memory_id: l.memory_id, entity_id: l.entity_id });
                proof {
                    assert(kept_view(kept@) =~= prefix.filter(lpred).push(pre.lnks()[i as int]));
                }
            }
            i = i + 1;
        }
        self.links = kept;
        proof {
            assert(pre.lnks().subrange(0, pre.lnks().len() as int) =~= pre.lnks());
            assert(self.lnks() =~= kept_view(kept@));
            assert(self.ents() =~= pre.ents());
            assert(self.als() =~= pre.als());
            assert(self.rels() =~= pre.rels());
            assert(self.mems() =~= pre.mems());
            lemma_wf_after_table_filters(pre, *self);
        }
        let ghost mid = *self;
        proof {
            assert forall|k: int| 0 <= k < mid.lnks().len() implies mid.has_memory(
                (#[trigger] mid.lnks()[k]).memory_id,
            ) && mid.has_entity(mid.lnks()[k].entity_id) by {
                let o = lemma_filter_element_origin(pre.lnks(), lpred, k);
                assert(pre.has_memory(pre.lnks()[o].memory_id));
                assert(pre.has_entity(pre.lnks()[o].entity_id));
            }
            assert(mid.links_sound());
        }
        self.prune_orphan_entities_and_relations();
        proof {
            assert forall|x: int| mid.has_entity(x) <==> pre.has_entity(x) by {
                if mid.has_entity(x) {
                    let w = mid.entity_ix(x);
                    assert(pre.ents()[w].id == x);
                }
                if pre.has_entity(x) {
                    let w = pre.entity_ix(x);
                    assert(mid.ents()[w].id == x);
                }
            }
            assert forall|x: int| mid.has_memory(x) <==> pre.has_memory(x) by {
                if mid.has_memory(x) {
                    let w = mid.memory_ix(x);
                    assert(pre.mems()[w].id == x);
                }
                if pre.has_memory(x) {
                    let w = pre.memory_ix(x);
                    assert(mid.mems()[w].id == x);
                }
            }
            assert forall|eid: int| mid.entity_is_linked(eid) <==> pre.validly_linked(eid) by {
                if mid.entity_is_linked(eid) {
                    let w = choose|w: int|
                        0 <= w < mid.lnks().len() && #[trigger] mid.lnks()[w].entity_id == eid;
                    let o = lemma_filter_element_origin(pre.lnks(), lpred, w);
                    assert(pre.lnks()[o].entity_id == eid);
                    assert(pre.has_memory(pre.lnks()[o].memory_id));
                    assert(pre.has_entity(pre.lnks()[o].entity_id));
                }
                if pre.validly_linked(eid) {
                    let w = choose|w: int|
                        0 <= w < pre.lnks().len() && #[trigger] pre.lnks()[w].entity_id == eid
                            && pre.has_memory(pre.lnks()[w].memory_id) && pre.has_entity(eid);
                    assert(lpred(pre.lnks()[w]));
                    assert(pre.lnks().filter(lpred).contains(pre.lnks()[w]));
                    let k = choose|k: int|
                        0 <= k < mid.lnks().len() && #[trigger] mid.lnks()[k] == pre.lnks()[w];
                    assert(mid.lnks()[k].entity_id == eid);
                }
            }
            lemma_filter_ext(
                mid.ents(),
                |e: EntityV| mid.entity_is_linked(e.id),
                |e: EntityV| pre.validly_linked(e.id),
            );
            lemma_filter_ext(
                mid.als(),
                |a: AliasV| !(mid.has_entity(a.entity_id) && !mid.entity_is_linked(a.entity_id)),
                |a: AliasV| !(pre.has_entity(a.entity_id) && !pre.validly_linked(a.entity_id)),
            );
            lemma_filter_ext(
                mid.rels(),
                |r: RelationV| mid.has_entity(r.from) && mid.entity_is_linked(r.from)
                    && mid.has_entity(r.to) && mid.entity_is_linked(r.to),
                |r: RelationV| pre.has_entity(r.from) && pre.validly_linked(r.from)
                    && pre.has_entity(r.to) && pre.validly_linked(r.to),
            );
            if pre.links_sound() && pre.orphan_free() {
                assert forall|k: int| 0 <= k < pre.lnks().len() implies lpred(
                    #[trigger] pre.lnks()[k],
                ) by {
                    assert(pre.has_memory(pre.lnks()[k].memory_id));
                    assert(pre.has_entity(pre.lnks()[k].entity_id));
                }
                lemma_filter_all_true(pre.lnks(), lpred);
                assert(mid.lnks() == pre.lnks());
                assert(mid.orphan_free()) by {
                    assert forall|k: int| 0 <= k < mid.ents().len() implies mid.entity_is_linked(
                        (#[trigger] mid.ents()[k]).id,
                    ) by {
                        assert(pre.entity_is_linked(pre.ents()[k].id));
                        let w = choose|w: int|
                            0 <= w < pre.lnks().len() && #[trigger] pre.lnks()[w].entity_id
                                == pre.ents()[k].id;
                        assert(mid.lnks()[w].entity_id == mid.ents()[k].id);
                    }
                    assert forall|k: int| 0 <= k < mid.rels().len() implies mid.has_entity(
                        (#[trigger] mid.rels()[k]).from,
                    ) && mid.has_entity(mid.rels()[k].to) by {
                        assert(pre.has_entity(pre.rels()[k].from));
                        assert(pre.has_entity(pre.rels()[k].to));
                    }
                }
            }
        }
    }

    /// Delete all rows of every table and reset every id sequence, leaving
    /// the schema (an empty, well-formed store) intact.
    pub fn clear_all_data(&mut self)
        ensures
            final(self).wf(),
            final(self).ents().len() == 0,
            final(self).als().len() == 0,
            final(self).rels().len() == 0,
            final(self).mems().len() == 0,
            final(self).lnks().len() == 0,
            final(self).next_entity_id == 1 && final(self).next_alias_id == 1 && final(self).next_relation_id == 1 && final(self).next_memory_id == 1,
    {
        self.entities = Vec::new();
        self.aliases = Vec::new();
        self.relations = Vec::new();
        self.memories = Vec::new();
        self.links = Vec::new();
        self.next_entity_id = 1;
        self.next_alias_id = 1;
        self.next_relation_id = 1;
        self.next_memory_id = 1;
    }

    /// Repoint every alias of `source` at `target` (merge step one).
    fn merge_move_aliases(&mut self, source: i64, target: i64)
        requires
            old(self).wf(),
        ensures
            final(self).wf(),
            final(self).ents() == old(self).ents(),
            final(self).rels() == old(self).rels(),
            final(self).mems() == old(self).mems(),
            final(self).lnks() == old(self).lnks(),
            final(self).next_entity_id == old(self).next_entity_id,
            final(self).next_alias_id == old(self).next_alias_id,
            final(self).next_relation_id == old(self).next_relation_id,
            final(self).next_memory_id == old(self).next_memory_id,
            final(self).als().len() == old(self).als().len(),
            forall|i: int|
                0 <= i < old(self).als().len() ==> final(self).als()[i] == (AliasV {
                    entity_id: subst_id(
                        old(self).als()[i].entity_id,
                        source as int,
                        target as int,
                    ),
                    ..old(self).als()[i]
                }),
    {
        let ghost pre = *self;
        let mut i: usize = 0;
        while i < self.aliases.len()
            invariant
                pre.wf(),
                self.aliases@.len() == pre.aliases@.len(),
                i <= pre.als().len(),
                self.entities@ == pre.entities@,
                self.relations@ == pre.relations@,
                self.memories@ == pre.memories@,
                self.links@ == pre.links@,
                self.next_entity_id == pre.next_entity_id,
                self.next_alias_id == pre.next_alias_id,
                self.next_relation_id == pre.next_relation_id,
                self.next_memory_id == pre.next_memory_id,
                forall|j: int|
                    0 <= j < i ==> #[trigger] self.als()[j] == (AliasV {
                        entity_id: subst_id(pre.als()[j].entity_id, source as int, target as int),
                        ..pre.als()[j]
                    }),
                forall|j: int| i <= j < pre.als().len() ==> #[trigger] self.als()[j] == pre.als()[j],
            decreases pre.als().len() - i,
        {
            let ghost prev = *self;
            if self.aliases[i].entity_id == source {
                let a = &self.aliases[i];
                let row = AliasEntry {
                    id: a.id,
                    entity_id: target,
                    alias: a.alias.clone(),
                    created_at: a.created_at.clone(),
                };
                self.aliases.set(i, row);
            }
            proof {
                assert(self.aliases@.len() == prev.aliases@.len());
                assert(forall|j: int|
                    0 <= j < pre.als().len() && j != i ==> #[trigger] self.als()[j]
                        == prev.als()[j]);
                assert(prev.als()[i as int] == pre.als()[i as int]);
                if pre.als()[i as int].entity_id == source as int {
                    assert(self.als()[i as int].id == pre.als()[i as int].id);
                    assert(self.als()[i as int].entity_id == target as int);
                    assert(self.als()[i as int].alias == pre.als()[i as int].alias);
                    assert(self.als()[i as int].created_at == pre.als()[i as int].created_at);
                    assert(self.als()[i as int] =~= (AliasV {
                        entity_id: subst_id(pre.als()[i as int].entity_id, source as int, target as int),
                        ..pre.als()[i as int]
                    }));
                } else {
                    assert(self.als()[i as int] == prev.als()[i as int]);
                    assert(self.als()[i as int] =~= (AliasV {
                        entity_id: subst_id(pre.als()[i as int].entity_id, source as int, target as int),
                        ..pre.als()[i as int]
                    }));
                }
            }
            i = i + 1;
        }
        proof {
            assert(self.ents() =~= pre.ents());
            assert(self.rels() =~= pre.rels());
            assert(self.mems() =~= pre.mems());
            assert(self.lnks() =~= pre.lnks());
            assert forall|p: int, q: int| 0 <= p < q < self.als().len() implies #[trigger] self.als()[p].id
                != #[trigger] self.als()[q].id && self.als()[p].alias != self.als()[q].alias by {
                assert(pre.als()[p].id != pre.als()[q].id);
                assert(pre.als()[p].alias != pre.als()[q].alias);
            }
            assert forall|p: int| 0 <= p < self.als().len() implies 1 <= (#[trigger] self.als()[p]).id
                < self.next_alias_id as int by {
                assert(1 <= pre.als()[p].id < pre.next_alias_id as int);
            }
        }
    }

    /// Repoint every memory link of `source` at `target`, silently dropping
    /// a link whose memory is already linked to `target` (merge step two).
    fn merge_move_links(&mut self, source: i64, target: i64)
        requires
            old(self).wf(),
        ensures
            final(self).wf(),
            final(self).ents() == old(self).ents(),
            final(self).als() == old(self).als(),
            final(self).rels() == old(self).rels(),
            final(self).mems() == old(self).mems(),
            final(self).next_entity_id == old(self).next_entity_id,
            final(self).next_alias_id == old(self).next_alias_id,
            final(self).next_relation_id == old(self).next_relation_id,
            final(self).next_memory_id == old(self).next_memory_id,
            final(self).lnks() == old(self).lnks().filter(
                |l: LinkV| !(l.entity_id == source as int && old(self).has_link(
                    l.memory_id,
                    target as int,
                )),
            ).map_values(
                |l: LinkV| (LinkV {
                    memory_id: l.memory_id,
                    entity_id: subst_id(l.entity_id, source as int, target as int),
                }),
            ),
    {
        let ghost pre = *self;
        let ghost keep = |l: LinkV| !(l.entity_id == source as int && pre.has_link(
            l.memory_id,
            target as int,
        ));
        let ghost remap = |l: LinkV| (LinkV {
            memory_id: l.memory_id,
            entity_id: subst_id(l.entity_id, source as int, target as int),
        });
        let mut kept: Vec<MemoryEntity> = Vec::new();
        let mut i: usize = 0;
        while i < self.links.len()
            invariant
                *self == pre,
                pre.wf(),
                i <= pre.lnks().len(),
                kept_view(kept@) == pre.lnks().subrange(0, i as int).filter(keep).map_values(
                    remap,
                ),
                keep == (|l: LinkV| !(l.entity_id == source as int && pre.has_link(
                    l.memory_id,
                    target as int,
                ))),
                remap == (|l: LinkV| (LinkV {
                    memory_id: l.memory_id,
                    entity_id: subst_id(l.entity_id, source as int, target as int),
                })),
            decreases pre.lnks().len() - i,
        {
            let ghost prefix = pre.lnks().subrange(0, i as int);
            proof {
                assert(prefix.push(pre.lnks()[i as int]) =~= pre.lnks().subrange(0, i + 1));
                lemma_filter_push(prefix, pre.lnks()[i as int], keep);
            }
            let l_mem = self.links[i].memory_id;
            let l_ent = self.links[i].entity_id;
            if l_ent == source {
                if !self.find_link(l_mem, target) {
                    kept.push(MemoryEntity { memory_id: l_mem, entity_id: target });
                    proof {
                        assert(kept_view(kept@) =~= prefix.filter(keep).map_values(remap).push(
                            remap(pre.lnks()[i as int]),
                        ));
                        assert(prefix.filter(keep).push(pre.lnks()[i as int]).map_values(remap)
                            =~= prefix.filter(keep).map_values(remap).push(
                            remap(pre.lnks()[i as int]),
                        ));
                    }
                }
            } else {
                kept.push(MemoryEntity { memory_id: l_mem, entity_id: l_ent });
                proof {
                    assert(remap(pre.lnks()[i as int]) == pre.lnks()[i as int]);
                    assert(kept_view(kept@) =~= prefix.filter(keep).map_values(remap).push(
                        remap(pre.lnks()[i as int]),
                    ));
                    assert(prefix.filter(keep).push(pre.lnks()[i as int]).map_values(remap)
                        =~= prefix.filter(keep).map_values(remap).push(
                        remap(pre.lnks()[i as int]),
                    ));
                }
            }
            i = i + 1;
        }
        self.links = kept;
        proof {
            assert(pre.lnks().subrange(0, pre.lnks().len() as int) =~= pre.lnks());
            assert(self.lnks() =~= kept_view(kept@));
            assert(self.ents() =~= pre.ents());
            assert(self.als() =~= pre.als());
            assert(self.rels() =~= pre.rels());
            assert(self.mems() =~= pre.mems());
            let mapped = pre.lnks().filter(keep).map_values(remap);
            assert forall|p: int, q: int| 0 <= p < q < mapped.len() implies !(#[trigger] mapped[p].memory_id
                == #[trigger] mapped[q].memory_id && mapped[p].entity_id
                == mapped[q].entity_id) by {
                lemma_filter_is_subsequence(pre.lnks(), keep, p, q);
                let (a, b): (int, int) = choose|a: int, b: int|
                    0 <= a < b < pre.lnks().len() && pre.lnks()[a] == #[trigger] pre.lnks().filter(
                        keep,
                    )[p] && pre.lnks()[b] == pre.lnks().filter(keep)[q];
                assert(mapped[p] == remap(pre.lnks()[a]));
                assert(mapped[q] == remap(pre.lnks()[b]));
                if mapped[p].memory_id == mapped[q].memory_id && mapped[p].entity_id
                    == mapped[q].entity_id {
                    // the two original rows share a memory and map to one entity
                    let la = pre.lnks()[a];
                    let lb = pre.lnks()[b];
                    assert(la.memory_id == lb.memory_id);
                    assert(subst_id(la.entity_id, source as int, target as int) == subst_id(
                        lb.entity_id,
                        source as int,
                        target as int,
                    ));
                    assert(!(la.memory_id == lb.memory_id && la.entity_id == lb.entity_id));
                    // so exactly one of them was the source row and the other the
                    // target row, but then the source row was dropped by the filter
                    assert(la.entity_id == source as int || lb.entity_id == source as int);
                    if la.entity_id == source as int {
                        assert(lb.entity_id == target as int);
                        assert(pre.has_link(lb.memory_id, target as int));
                        assert(!keep(la));
                        assert(keep(pre.lnks()[a]));
                        assert(false);
                    } else {
                        assert(lb.entity_id == source as int);
                        assert(la.entity_id == target as int);
                        assert(pre.has_link(la.memory_id, target as int));
                        assert(!keep(lb));
                        assert(keep(pre.lnks()[b]));
                        assert(false);
                    }
                }
            }
        }
    }

    /// Delete every relation still touching `source` (merge step five).
    fn drop_relations_touching(&mut self, source: i64)
        requires
            old(self).wf(),
        ensures
            final(self).wf(),
            final(self).ents() == old(self).ents(),
            final(self).als() == old(self).als(),
            final(self).mems() == old(self).mems(),
            final(self).lnks() == old(self).lnks(),
            final(self).next_entity_id == old(self).next_entity_id,
            final(self).next_alias_id == old(self).next_alias_id,
            final(self).next_relation_id == old(self).next_relation_id,
            final(self).next_memory_id == old(self).next_memory_id,
            final(self).rels() == old(self).rels().filter(
                |r: RelationV| r.from != source as int && r.to != source as int,
            ),
    {
        let ghost pre = *self;
        let ghost pred = |r: RelationV| r.from != source as int && r.to != source as int;
        let mut kept: Vec<Relation> = Vec::new();
        let mut i: usize = 0;
        while i < self.relations.len()
            invariant
                *self == pre,
                i <= pre.rels().len(),
                rels_view(kept@) == pre.rels().subrange(0, i as int).filter(pred),
                pred == (|r: RelationV| r.from != source as int && r.to != source as int),
            decreases pre.rels().len() - i,
        {
            let ghost prefix = pre.rels().subrange(0, i as int);
            proof {
                assert(prefix.push(pre.rels()[i as int]) =~= pre.rels().subrange(0, i + 1));
                lemma_filter_push(prefix, pre.rels()[i as int], pred);
            }
            if self.relations[i].from_entity_id != source && self.relations[i].to_entity_id
                != source {
                kept.push(copy_relation(&self.relations[i]));
                proof {
                    assert(rels_view(kept@) =~= prefix.filter(pred).push(pre.rels()[i as int]));
                }
            }
            i = i + 1;
        }
        self.relations = kept;
        proof {
            assert(pre.rels().subrange(0, pre.rels().len() as int) =~= pre.rels());
            assert(self.rels() =~= rels_view(kept@));
            assert(self.ents() =~= pre.ents());
            assert(self.als() =~= pre.als());
            assert(self.mems() =~= pre.mems());
            assert(self.lnks() =~= pre.lnks());
            lemma_wf_after_table_filters(pre, *self);
        }
    }

    /// Delete the entity row with this id (merge step seven).
    fn drop_entity_row(&mut self, id: i64)
        requires
            old(self).wf(),
        ensures
            final(self).wf(),
            final(self).als() == old(self).als(),
            final(self).rels() == old(self).rels(),
            final(self).mems() == old(self).mems(),
            final(self).lnks() == old(self).lnks(),
            final(self).next_entity_id == old(self).next_entity_id,
            final(self).next_alias_id == old(self).next_alias_id,
            final(self).next_relation_id == old(self).next_relation_id,
            final(self).next_memory_id == old(self).next_memory_id,
            final(self).ents() == old(self).ents().filter(|e: EntityV| e.id != id as int),
    {
        let ghost pre = *self;
        let ghost pred = |e: EntityV| e.id != id as int;
        let mut kept: Vec<Entity> = Vec::new();
        let mut i: usize = 0;
        while i < self.entities.len()
            invariant
                *self == pre,
                i <= pre.ents().len(),
                ents_view(kept@) == pre.ents().subrange(0, i as int).filter(pred),
                pred == (|e: EntityV| e.id != id as int),
            decreases pre.ents().len() - i,
        {
            let ghost prefix = pre.ents().subrange(0, i as int);
            proof {
                assert(prefix.push(pre.ents()[i as int]) =~= pre.ents().subrange(0, i + 1));
                lemma_filter_push(prefix, pre.ents()[i as int], pred);
            }
            if self.entities[i].id != id {
                kept.push(copy_entity(&self.entities[i]));
                proof {
                    assert(ents_view(kept@) =~= prefix.filter(pred).push(pre.ents()[i as int]));
                }
            }
            i = i + 1;
        }
        self.entities = kept;
        proof {
            assert(pre.ents().subrange(0, pre.ents().len() as int) =~= pre.ents());
            assert(self.ents() =~= ents_view(kept@));
            assert(self.als() =~= pre.als());
            assert(self.rels() =~= pre.rels());
            assert(self.mems() =~= pre.mems());
            assert(self.lnks() =~= pre.lnks());
            lemma_wf_after_table_filters(pre, *self);
        }
    }

    /// Repoint at `target` every relation that leaves `source`, skipping
    /// (leaving at `source`) any row whose repointed triple already exists
    /// (merge step three).
    fn merge_move_relation_sources(&mut self, source: i64, target: i64)
        requires
            old(self).wf(),
            source != target,
        ensures
            final(self).wf(),
            final(self).ents() == old(self).ents(),
            final(self).als() == old(self).als(),
            final(self).mems() == old(self).mems(),
            final(self).lnks() == old(self).lnks(),
            final(self).next_entity_id == old(self).next_entity_id,
            final(self).next_alias_id == old(self).next_alias_id,
            final(self).next_relation_id == old(self).next_relation_id,
            final(self).next_memory_id == old(self).next_memory_id,
            final(self).rels().len() == old(self).rels().len(),
            forall|i: int|
                0 <= i < old(self).rels().len() ==> #[trigger] final(self).rels()[i] == (if old(self).rels()[i].from == source as int && !old(self).has_triple(
                    target as int,
                    old(self).rels()[i].to,
                    old(self).rels()[i].rtype,
                ) {
                    (RelationV { from: target as int, ..old(self).rels()[i] })
                } else {
                    old(self).rels()[i]
                }),
    {
        let ghost pre = *self;
        let mut move_flags: Vec<bool> = Vec::new();
        let mut i: usize = 0;
        while i < self.relations.len()
            invariant
                *self == pre,
                pre.wf(),
                i <= pre.rels().len(),
                move_flags@.len() == i,
                forall|j: int|
                    0 <= j < i ==> #[trigger] move_flags@[j] == (pre.rels()[j].from
                        == source as int && !pre.has_triple(
                        target as int,
                        pre.rels()[j].to,
                        pre.rels()[j].rtype,
                    )),
            decreases pre.rels().len() - i,
        {
            let from_matches = self.relations[i].from_entity_id == source;
            let collides = self.find_triple_ix(
                target,
                self.relations[i].to_entity_id,
                &self.relations[i].relation_type,
            ).is_some();
            move_flags.push(from_matches && !collides);
            i = i + 1;
        }
        let mut j: usize = 0;
        while j < self.relations.len()
            invariant
                pre.wf(),
                self.relations@.len() == pre.relations@.len(),
                j <= pre.rels().len(),
                move_flags@.len() == pre.rels().len(),
                self.entities@ == pre.entities@,
                self.aliases@ == pre.aliases@,
                self.memories@ == pre.memories@,
                self.links@ == pre.links@,
                self.next_entity_id == pre.next_entity_id,
                self.next_alias_id == pre.next_alias_id,
                self.next_relation_id == pre.next_relation_id,
                self.next_memory_id == pre.next_memory_id,
                forall|k: int|
                    0 <= k < pre.rels().len() ==> #[trigger] move_flags@[k] == (pre.rels()[k].from
                        == source as int && !pre.has_triple(
                        target as int,
                        pre.rels()[k].to,
                        pre.rels()[k].rtype,
                    )),
                forall|k: int|
                    0 <= k < j ==> #[trigger] self.rels()[k] == (if move_flags@[k] {
                        (RelationV { from: target as int, ..pre.rels()[k] })
                    } else {
                        pre.rels()[k]
                    }),
                forall|k: int|
                    j <= k < pre.rels().len() ==> #[trigger] self.rels()[k] == pre.rels()[k],
            decreases pre.rels().len() - j,
        {
            let ghost prev = *self;
            if move_flags[j] {
                let r = &self.relations[j];
                let row = Relation {
                    id: r.id,
                    from_entity_id: target,
                    to_entity_id: r.to_entity_id,
                    relation_type: r.relation_type.clone(),
                    strength: r.strength,
                    created_at: match &r.created_at {
                        Some(c) => Some(c.clone()),
                        None => None,
                    },
                };
                self.relations.set(j, row);
            }
            proof {
                assert(self.relations@.len() == prev.relations@.len());
                assert(prev.rels()[j as int] == pre.rels()[j as int]);
                assert(forall|k: int|
                    0 <= k < pre.rels().len() && k != j ==> #[trigger] self.rels()[k]
                        == prev.rels()[k]);
                if move_flags@[j as int] {
                    assert(self.rels()[j as int] =~= (RelationV {
                        from: target as int,
                        ..pre.rels()[j as int]
                    }));
                } else {
                    assert(self.rels()[j as int] == prev.rels()[j as int]);
                }
            }
            j = j + 1;
        }
        proof {
            assert(self.ents() =~= pre.ents());
            assert(self.als() =~= pre.als());
            assert(self.mems() =~= pre.mems());
            assert(self.lnks() =~= pre.lnks());
            assert forall|p: int, q: int| 0 <= p < q < self.rels().len() implies !((#[trigger] self.rels()[p]).from
                == (#[trigger] self.rels()[q]).from && self.rels()[p].to == self.rels()[q].to
                && self.rels()[p].rtype == self.rels()[q].rtype) by {
                let rp = pre.rels()[p];
                let rq = pre.rels()[q];
                assert(!(rp.from == rq.from && rp.to == rq.to && rp.rtype == rq.rtype));
                if move_flags@[p] && !move_flags@[q] {
                    if self.rels()[q].from == target as int && self.rels()[q].to == rp.to
                        && self.rels()[q].rtype == rp.rtype {
                        assert(pre.has_triple(target as int, rp.to, rp.rtype)) by {
                            assert(pre.rels()[q].from == target as int && pre.rels()[q].to == rp.to
                                && pre.rels()[q].rtype == rp.rtype);
                        }
                    }
                }
                if !move_flags@[p] && move_flags@[q] {
                    if self.rels()[p].from == target as int && self.rels()[p].to == rq.to
                        && self.rels()[p].rtype == rq.rtype {
                        assert(pre.has_triple(target as int, rq.to, rq.rtype)) by {
                            assert(pre.rels()[p].from == target as int && pre.rels()[p].to == rq.to
                                && pre.rels()[p].rtype == rq.rtype);
                        }
                    }
                }
            }
            assert forall|p: int, q: int| 0 <= p < q < self.rels().len() implies #[trigger] self.rels()[p].id
                != #[trigger] self.rels()[q].id by {
                assert(pre.rels()[p].id != pre.rels()[q].id);
            }
            assert forall|p: int| 0 <= p < self.rels().len() implies 1 <= (#[trigger] self.rels()[p]).id
                < self.next_relation_id as int && self.rels()[p].strength >= 1 by {
                assert(1 <= pre.rels()[p].id < pre.next_relation_id as int);
                assert(pre.rels()[p].strength >= 1);
            }
        }
    }

    /// Repoint at `target` every relation that arrives at `source`,
    /// skipping rows whose repointed triple already exists (merge step
    /// four).
    fn merge_move_relation_targets(&mut self, source: i64, target: i64)
        requires
            old(self).wf(),
            source != target,
        ensures
            final(self).wf(),
            final(self).ents() == old(self).ents(),
            final(self).als() == old(self).als(),
            final(self).mems() == old(self).mems(),
            final(self).lnks() == old(self).lnks(),
            final(self).next_entity_id == old(self).next_entity_id,
            final(self).next_alias_id == old(self).next_alias_id,
            final(self).next_relation_id == old(self).next_relation_id,
            final(self).next_memory_id == old(self).next_memory_id,
            final(self).rels().len() == old(self).rels().len(),
            forall|i: int|
                0 <= i < old(self).rels().len() ==> #[trigger] final(self).rels()[i] == (if old(self).rels()[i].to == source as int && !old(self).has_triple(
                    old(self).rels()[i].from,
                    target as int,
                    old(self).rels()[i].rtype,
                ) {
                    (RelationV { to: target as int, ..old(self).rels()[i] })
                } else {
                    old(self).rels()[i]
                }),
    {
        let ghost pre = *self;
        let mut move_flags: Vec<bool> = Vec::new();
        let mut i: usize = 0;
        while i < self.relations.len()
            invariant
                *self == pre,
                pre.wf(),
                i <= pre.rels().len(),
                move_flags@.len() == i,
                forall|j: int|
                    0 <= j < i ==> #[trigger] move_flags@[j] == (pre.rels()[j].to == source as int
                        && !pre.has_triple(
                        pre.rels()[j].from,
                        target as int,
                        pre.rels()[j].rtype,
                    )),
            decreases pre.rels().len() - i,
        {
            let to_matches = self.relations[i].to_entity_id == source;
            let collides = self.find_triple_ix(
                self.relations[i].from_entity_id,
                target,
                &self.relations[i].relation_type,
            ).is_some();
            move_flags.push(to_matches && !collides);
            i = i + 1;
        }
        let mut j: usize = 0;
        while j < self.relations.len()
            invariant
                pre.wf(),
                self.relations@.len() == pre.relations@.len(),
                j <= pre.rels().len(),
                move_flags@.len() == pre.rels().len(),
                self.entities@ == pre.entities@,
                self.aliases@ == pre.aliases@,
                self.memories@ == pre.memories@,
                self.links@ == pre.links@,
                self.next_entity_id == pre.next_entity_id,
                self.next_alias_id == pre.next_alias_id,
                self.next_relation_id == pre.next_relation_id,
                self.next_memory_id == pre.next_memory_id,
                forall|k: int|
                    0 <= k < pre.rels().len() ==> #[trigger] move_flags@[k] == (pre.rels()[k].to
                        == source as int && !pre.has_triple(
                        pre.rels()[k].from,
                        target as int,
                        pre.rels()[k].rtype,
                    )),
                forall|k: int|
                    0 <= k < j ==> #[trigger] self.rels()[k] == (if move_flags@[k] {
                        (RelationV { to: target as int, ..pre.rels()[k] })
                    } else {
                        pre.rels()[k]
                    }),
                forall|k: int|
                    j <= k < pre.rels().len() ==> #[trigger] self.rels()[k] == pre.rels()[k],
            decreases pre.rels().len() - j,
        {
            let ghost prev = *self;
            if move_flags[j] {
                let r = &self.relations[j];
                let row = Relation {
                    id: r.id,
                    from_entity_id: r.from_entity_id,
                    to_entity_id: target,
                    relation_type: r.relation_type.clone(),
                    strength: r.strength,
                    created_at: match &r.created_at {
                        Some(c) => Some(c.clone()),
                        None => None,
                    },
                };
                self.relations.set(j, row);
            }
            proof {
                assert(self.relations@.len() == prev.relations@.len());
                assert(prev.rels()[j as int] == pre.rels()[j as int]);
                assert(forall|k: int|
                    0 <= k < pre.rels().len() && k != j ==> #[trigger] self.rels()[k]
                        == prev.rels()[k]);
                if move_flags@[j as int] {
                    assert(self.rels()[j as int] =~= (RelationV {
                        to: target as int,
                        ..pre.rels()[j as int]
                    }));
                } else {
                    assert(self.rels()[j as int] == prev.rels()[j as int]);
                }
            }
            j = j + 1;
        }
        proof {
            assert(self.ents() =~= pre.ents());
            assert(self.als() =~= pre.als());
            assert(self.mems() =~= pre.mems());
            assert(self.lnks() =~= pre.lnks());
            assert forall|p: int, q: int| 0 <= p < q < self.rels().len() implies !((#[trigger] self.rels()[p]).from
                == (#[trigger] self.rels()[q]).from && self.rels()[p].to == self.rels()[q].to
                && self.rels()[p].rtype == self.rels()[q].rtype) by {
                let rp = pre.rels()[p];
                let rq = pre.rels()[q];
                assert(!(rp.from == rq.from && rp.to == rq.to && rp.rtype == rq.rtype));
                if move_flags@[p] && !move_flags@[q] {
                    if self.rels()[q].to == target as int && self.rels()[q].from == rp.from
                        && self.rels()[q].rtype == rp.rtype {
                        assert(pre.has_triple(rp.from, target as int, rp.rtype)) by {
                            assert(pre.rels()[q].to == target as int && pre.rels()[q].from
                                == rp.from && pre.rels()[q].rtype == rp.rtype);
                        }
                    }
                }
                if !move_flags@[p] && move_flags@[q] {
                    if self.rels()[p].to == target as int && self.rels()[p].from == rq.from
                        && self.rels()[p].rtype == rq.rtype {
                        assert(pre.has_triple(rq.from, target as int, rq.rtype)) by {
                            assert(pre.rels()[p].to == target as int && pre.rels()[p].from
                                == rq.from && pre.rels()[p].rtype == rq.rtype);
                        }
                    }
                }
            }
            assert forall|p: int, q: int| 0 <= p < q < self.rels().len() implies #[trigger] self.rels()[p].id
                != #[trigger] self.rels()[q].id by {
                assert(pre.rels()[p].id != pre.rels()[q].id);
            }
            assert forall|p: int| 0 <= p < self.rels().len() implies 1 <= (#[trigger] self.rels()[p]).id
                < self.next_relation_id as int && self.rels()[p].strength >= 1 by {
                assert(1 <= pre.rels()[p].id < pre.next_relation_id as int);
                assert(pre.rels()[p].strength >= 1);
            }
        }
    }

    /// Fold `source` into `target`, irreversibly.
    ///
    /// Aliases, memory links, and relations of `source` are repointed at
    /// `target`, with ignore-on-conflict semantics: a link or relation
    /// whose repointed form already exists is silently dropped (the
    /// surviving relation keeps its own strength; the collided count is
    /// lost by design). The former name of `source` becomes an alias of
    /// `target` unless that string is already an alias or is the name of
    /// some other surviving entity, and the `source` row is deleted.
    /// `NotFound`, before anything changes, exactly when either entity
    /// does not exist; an exhausted alias id sequence surfaces after the
    /// reassignments, as the same failure would in the storage layer.
    #[verifier::rlimit(100)]
    pub fn merge_entities(&mut self, source_id: i64, target_id: i64, now: &String) -> (r: Result<
        (),
        StoreError,
    >)
        requires
            old(self).wf(),
            source_id != target_id,
        ensures
            final(self).wf(),
            final(self).mems() == old(self).mems(),
            final(self).next_entity_id == old(self).next_entity_id,
            final(self).next_relation_id == old(self).next_relation_id,
            final(self).next_memory_id == old(self).next_memory_id,
            match r {
                Ok(_) => {
                    let src = source_id as int;
                    let tgt = target_id as int;
                    let srcname = old(self).entity_of(src).name;
                    let mapped_als = Seq::new(
                        old(self).als().len(),
                        |i: int| (AliasV {
                            entity_id: subst_id(old(self).als()[i].entity_id, src, tgt),
                            ..old(self).als()[i]
                        }),
                    );
                    let alias_added = !old(self).has_alias(srcname) && !(exists|j: int|
                        0 <= j < old(self).ents().len() && #[trigger] old(self).ents()[j].name
                            == srcname && old(self).ents()[j].id != src && old(self).ents()[j].id
                            != tgt);
                    &&& old(self).has_entity(src)
                    &&& old(self).has_entity(tgt)
                    &&& final(self).ents() == old(self).ents().filter(
                        |e: EntityV| e.id != src,
                    )
                    &&& final(self).lnks() == old(self).lnks().filter(
                        |l: LinkV| !(l.entity_id == src && old(self).has_link(l.memory_id, tgt)),
                    ).map_values(
                        |l: LinkV| (LinkV {
                            memory_id: l.memory_id,
                            entity_id: subst_id(l.entity_id, src, tgt),
                        }),
                    )
                    &&& final(self).als() == if alias_added {
                        mapped_als.push(
                            (AliasV {
                                id: old(self).next_alias_id as int,
                                entity_id: tgt,
                                alias: srcname,
                                created_at: now@,
                            }),
                        )
                    } else {
                        mapped_als
                    }
                    &&& forall|i: int|
                        0 <= i < old(self).rels().len() ==> final(self).has_triple(
                            subst_id((#[trigger] old(self).rels()[i]).from, src, tgt),
                            subst_id(old(self).rels()[i].to, src, tgt),
                            old(self).rels()[i].rtype,
                        )
                    &&& forall|j: int|
                        0 <= j < final(self).rels().len() ==> (#[trigger] final(self).rels()[j]).from != src && final(self).rels()[j].to != src
                    &&& forall|j: int|
                        0 <= j < final(self).rels().len() ==> exists|i: int|
                            0 <= i < old(self).rels().len() && (#[trigger] final(self).rels()[j]).id == old(self).rels()[i].id && final(self).rels()[j].rtype
                                == old(self).rels()[i].rtype && final(self).rels()[j].strength
                                == old(self).rels()[i].strength && final(self).rels()[j].from
                                == subst_id(old(self).rels()[i].from, src, tgt) && final(self).rels()[j].to == subst_id(old(self).rels()[i].to, src, tgt)
                    &&& forall|i: int|
                        0 <= i < old(self).rels().len() && (#[trigger] old(self).rels()[i]).from
                            != src && old(self).rels()[i].to != src ==> final(self).rels().contains(
                            old(self).rels()[i],
                        )
                    &&& ((!(exists|j: int|
                        0 <= j < old(self).ents().len() && #[trigger] old(self).ents()[j].name
                            == srcname && old(self).ents()[j].id != src) && (forall|a: int|
                        0 <= a < old(self).als().len() && #[trigger] old(self).als()[a].alias
                            == srcname ==> old(self).als()[a].entity_id == src)) ==> (!final(self).has_entity_name(srcname) && exists|a: int|
                        0 <= a < final(self).als().len() && #[trigger] final(self).als()[a].alias
                            == srcname && final(self).als()[a].entity_id == tgt))
                },
                Err(e) => {
                    (e == StoreError::NotFound && !(old(self).has_entity(source_id as int) && old(self).has_entity(target_id as int)) && *final(self) == *old(self)) || (e
                        == StoreError::Full && old(self).next_alias_id == i64::MAX)
                },
            },
            r is Ok && old(self).relations_sound() ==> final(self).relations_sound(),
            r is Ok && old(self).entities_linked() ==> final(self).entities_linked(),
            r is Ok && old(self).links_sound() ==> final(self).links_sound(),
            old(self).aliases_sound() ==> final(self).aliases_sound(),
    {
        let ghost pre = *self;
        let ghost src = source_id as int;
        let ghost tgt = target_id as int;
        let source_ix = match self.find_entity_ix(source_id) {
            Some(ix) => ix,
            None => {
                return Err(StoreError::NotFound);
            },
        };
        if !self.has_entity_row(target_id) {
            return Err(StoreError::NotFound);
        }
        let source_name = self.entities[source_ix].name.clone();
        proof {
            lemma_unique_entity_ix(pre, src, source_ix as int);
            assert(source_name@ == pre.entity_of(src).name);
        }
        self.merge_move_aliases(source_id, target_id);
        let ghost s_a = *self;
        self.merge_move_links(source_id, target_id);
        let ghost s_l = *self;
        self.merge_move_relation_sources(source_id, target_id);
        let ghost s_f = *self;
        self.merge_move_relation_targets(source_id, target_id);
        let ghost s_t = *self;
        self.drop_relations_touching(source_id);
        let ghost s_d = *self;
        self.drop_entity_row(source_id);
        let ghost s_e = *self;
        proof {
            // link table: the move step saw the original links
            assert(s_l.lnks() == pre.lnks().filter(
                |l: LinkV| !(l.entity_id == src && pre.has_link(l.memory_id, tgt)),
            ).map_values(
                |l: LinkV| (LinkV {
                    memory_id: l.memory_id,
                    entity_id: subst_id(l.entity_id, src, tgt),
                }),
            )) by {
                assert forall|m: int, e: int| s_a.has_link(m, e) <==> pre.has_link(m, e) by {}
                lemma_filter_ext(
                    pre.lnks(),
                    |l: LinkV| !(l.entity_id == src && s_a.has_link(l.memory_id, tgt)),
                    |l: LinkV| !(l.entity_id == src && pre.has_link(l.memory_id, tgt)),
                );
            }
            // entity membership after the drop
            assert forall|x: int| s_e.has_entity(x) <==> (pre.has_entity(x) && x != src) by {
                let dpred = |e: EntityV| e.id != src;
                if s_e.has_entity(x) {
                    let i = s_e.entity_ix(x);
                    let o = lemma_filter_element_origin(pre.ents(), dpred, i);
                    assert(pre.ents()[o].id == x);
                    assert(dpred(pre.ents()[o]));
                }
                if pre.has_entity(x) && x != src {
                    let i = pre.entity_ix(x);
                    assert(dpred(pre.ents()[i]));
                    assert(pre.ents().filter(dpred).contains(pre.ents()[i]));
                    let k = choose|k: int|
                        0 <= k < s_e.ents().len() && #[trigger] s_e.ents()[k] == pre.ents()[i];
                    assert(s_e.ents()[k].id == x);
                }
            }
            assert(s_e.has_entity(tgt));
            // the alias table at this point holds the repointed rows; that
            // state is already alias-sound, and the append step preserves it
            if pre.aliases_sound() {
                let mapped_pre = Seq::new(
                    pre.als().len(),
                    |i: int| (AliasV {
                        entity_id: subst_id(pre.als()[i].entity_id, src, tgt),
                        ..pre.als()[i]
                    }),
                );
                assert(s_e.als() =~= mapped_pre);
                assert forall|a: int| 0 <= a < s_e.als().len() implies s_e.has_entity(
                    (#[trigger] s_e.als()[a]).entity_id,
                ) && forall|j: int|
                    0 <= j < s_e.ents().len() && #[trigger] s_e.ents()[j].name
                        == s_e.als()[a].alias ==> s_e.ents()[j].id == s_e.als()[a].entity_id by {
                    assert(s_e.als()[a] == mapped_pre[a]);
                    let old_target = pre.als()[a].entity_id;
                    assert(pre.has_entity(old_target));
                    if old_target == src {
                        assert(s_e.als()[a].entity_id == tgt);
                        assert(s_e.has_entity(tgt));
                    } else {
                        assert(s_e.has_entity(old_target));
                    }
                    assert forall|j: int|
                        0 <= j < s_e.ents().len() && #[trigger] s_e.ents()[j].name
                            == s_e.als()[a].alias implies s_e.ents()[j].id
                        == s_e.als()[a].entity_id by {
                        let dpred = |e: EntityV| e.id != src;
                        let o = lemma_filter_element_origin(pre.ents(), dpred, j);
                        assert(pre.ents()[o] == s_e.ents()[j]);
                        assert(pre.ents()[o].name == pre.als()[a].alias);
                        assert(pre.ents()[o].id == old_target);
                        assert(pre.ents()[o].id != src);
                    }
                }
                assert(s_e.aliases_sound());
            }
        }
        let res = self.add_entity_alias(target_id, &source_name, now);
        match res {
            Err(e) => {
                proof {
                    assert(e == StoreError::Full);
                    assert(*self == s_e);
                }
                return Err(e);
            },
            Ok(_) => {},
        }
        proof {
            let srcname = pre.entity_of(src).name;
            let mapped_als = Seq::new(
                pre.als().len(),
                |i: int| (AliasV {
                    entity_id: subst_id(pre.als()[i].entity_id, src, tgt),
                    ..pre.als()[i]
                }),
            );
            // the alias table reached the alias-append step in mapped form
            assert(s_e.als() =~= mapped_als);
            // the append conditions over that state, translated to the start state
            assert(s_e.has_alias(srcname) <==> pre.has_alias(srcname)) by {
                if s_e.has_alias(srcname) {
                    let i = s_e.alias_ix(srcname);
                    assert(pre.als()[i].alias == srcname);
                }
                if pre.has_alias(srcname) {
                    let i = pre.alias_ix(srcname);
                    assert(s_e.als()[i].alias == srcname);
                }
            }
            assert((exists|j: int|
                0 <= j < s_e.ents().len() && #[trigger] s_e.ents()[j].name == srcname
                    && s_e.ents()[j].id != tgt) <==> (exists|j: int|
                0 <= j < pre.ents().len() && #[trigger] pre.ents()[j].name == srcname
                    && pre.ents()[j].id != src && pre.ents()[j].id != tgt)) by {
                let dpred = |e: EntityV| e.id != src;
                if exists|j: int|
                    0 <= j < s_e.ents().len() && #[trigger] s_e.ents()[j].name == srcname
                        && s_e.ents()[j].id != tgt {
                    let j = choose|j: int|
                        0 <= j < s_e.ents().len() && #[trigger] s_e.ents()[j].name == srcname
                            && s_e.ents()[j].id != tgt;
                    let o = lemma_filter_element_origin(pre.ents(), dpred, j);
                    assert(pre.ents()[o].name == srcname && pre.ents()[o].id != src
                        && pre.ents()[o].id != tgt);
                }
                if exists|j: int|
                    0 <= j < pre.ents().len() && #[trigger] pre.ents()[j].name == srcname
                        && pre.ents()[j].id != src && pre.ents()[j].id != tgt {
                    let j = choose|j: int|
                        0 <= j < pre.ents().len() && #[trigger] pre.ents()[j].name == srcname
                            && pre.ents()[j].id != src && pre.ents()[j].id != tgt;
                    assert(dpred(pre.ents()[j]));
                    assert(pre.ents().filter(dpred).contains(pre.ents()[j]));
                    let k = choose|k: int|
                        0 <= k < s_e.ents().len() && #[trigger] s_e.ents()[k] == pre.ents()[j];
                }
            }
            // relations: survival of every substituted triple
            let fpred = |r: RelationV| r.from != src && r.to != src;
            assert forall|i: int| 0 <= i < pre.rels().len() implies final(self).has_triple(
                subst_id((#[trigger] pre.rels()[i]).from, src, tgt),
                subst_id(pre.rels()[i].to, src, tgt),
                pre.rels()[i].rtype,
            ) by {
                let r0 = pre.rels()[i];
                let sf = subst_id(r0.from, src, tgt);
                let st = subst_id(r0.to, src, tgt);
                // a row with (sf, to, rtype) exists after the source pass
                let k1: int = if r0.from == src && !pre.has_triple(tgt, r0.to, r0.rtype) {
                    i
                } else if r0.from == src {
                    pre.triple_ix(tgt, r0.to, r0.rtype)
                } else {
                    i
                };
                assert(0 <= k1 < s_f.rels().len());
                assert(s_f.rels()[k1].from == sf && s_f.rels()[k1].to == r0.to
                    && s_f.rels()[k1].rtype == r0.rtype) by {
                    if r0.from == src && pre.has_triple(tgt, r0.to, r0.rtype) {
                        lemma_triple_ix_props(pre, tgt, r0.to, r0.rtype);
                        assert(pre.rels()[k1].from == tgt && pre.rels()[k1].to == r0.to
                            && pre.rels()[k1].rtype == r0.rtype);
                        assert(pre.rels()[k1].from != src);
                    }
                }
                // a row with (sf, st, rtype) exists after the target pass
                let r1 = s_f.rels()[k1];
                let k2: int = if r1.to == src && !s_f.has_triple(r1.from, tgt, r1.rtype) {
                    k1
                } else if r1.to == src {
                    s_f.triple_ix(r1.from, tgt, r1.rtype)
                } else {
                    k1
                };
                assert(0 <= k2 < s_t.rels().len());
                assert(st == subst_id(r1.to, src, tgt));
                assert(s_t.rels()[k2].from == sf && s_t.rels()[k2].to == st
                    && s_t.rels()[k2].rtype == r0.rtype) by {
                    if r1.to == src && s_f.has_triple(r1.from, tgt, r1.rtype) {
                        lemma_triple_ix_props(s_f, r1.from, tgt, r1.rtype);
                        assert(s_f.rels()[k2].from == r1.from && s_f.rels()[k2].to == tgt
                            && s_f.rels()[k2].rtype == r1.rtype);
                        assert(s_f.rels()[k2].to != src);
                        assert(s_t.rels()[k2] == s_f.rels()[k2]);
                    }
                }
                // that row is free of `source`, so the delete pass keeps it
                assert(sf != src && st != src);
                assert(fpred(s_t.rels()[k2]));
                assert(s_t.rels().filter(fpred).contains(s_t.rels()[k2]));
                let k3 = choose|k3: int|
                    0 <= k3 < s_d.rels().len() && #[trigger] s_d.rels()[k3] == s_t.rels()[k2];
                assert(final(self).rels()[k3].from == sf && final(self).rels()[k3].to == st
                    && final(self).rels()[k3].rtype == r0.rtype);
            }
            // relations: nothing invented
            assert forall|j: int| 0 <= j < final(self).rels().len() implies exists|i: int|
                0 <= i < pre.rels().len() && (#[trigger] final(self).rels()[j]).id
                    == pre.rels()[i].id && final(self).rels()[j].rtype == pre.rels()[i].rtype
                    && final(self).rels()[j].strength == pre.rels()[i].strength && final(self).rels()[j].from == subst_id(pre.rels()[i].from, src, tgt) && final(self).rels()[j].to == subst_id(pre.rels()[i].to, src, tgt) by {
                let o = lemma_filter_element_origin(s_t.rels(), fpred, j);
                let rt = s_t.rels()[o];
                let rf = s_f.rels()[o];
                let r0 = pre.rels()[o];
                assert(final(self).rels()[j] == rt);
                assert(rt.from != src && rt.to != src);
                assert(rt.id == r0.id && rt.rtype == r0.rtype && rt.strength == r0.strength);
                assert(rt.from == subst_id(r0.from, src, tgt)) by {
                    if r0.from == src {
                        assert(rf.from == src || rf.from == tgt);
                        assert(rt.from == rf.from);
                    }
                }
                assert(rt.to == subst_id(r0.to, src, tgt)) by {
                    if r0.to == src {
                        assert(rf.to == r0.to);
                        assert(rt.to == src || rt.to == tgt);
                    }
                }
            }
            // endpoints clean of `source`
            assert forall|j: int| 0 <= j < final(self).rels().len() implies (#[trigger] final(self).rels()[j]).from != src && final(self).rels()[j].to != src by {
                let o = lemma_filter_element_origin(s_t.rels(), fpred, j);
            }
            // a relation that never touched `source` (such as a pre-existing
            // triple on the target) survives unchanged, its strength with it
            assert forall|i: int|
                0 <= i < pre.rels().len() && (#[trigger] pre.rels()[i]).from != src
                    && pre.rels()[i].to != src implies final(self).rels().contains(
                pre.rels()[i],
            ) by {
                assert(s_f.rels()[i] == pre.rels()[i]);
                assert(s_t.rels()[i] == s_f.rels()[i]);
                assert(fpred(s_t.rels()[i]));
                assert(s_t.rels().filter(fpred).contains(s_t.rels()[i]));
                let k = choose|k: int|
                    0 <= k < s_d.rels().len() && #[trigger] s_d.rels()[k] == s_t.rels()[i];
                assert(final(self).rels()[k] == pre.rels()[i]);
            }
            // entity membership after the merge, for the soundness carries
            assert forall|x: int| final(self).has_entity(x) <==> (pre.has_entity(x) && x != src) by {
                let dpred = |e: EntityV| e.id != src;
                if final(self).has_entity(x) {
                    let i = final(self).entity_ix(x);
                    let o = lemma_filter_element_origin(pre.ents(), dpred, i);
                    assert(pre.ents()[o].id == x);
                    assert(dpred(pre.ents()[o]));
                }
                if pre.has_entity(x) && x != src {
                    let i = pre.entity_ix(x);
                    assert(dpred(pre.ents()[i]));
                    assert(pre.ents().filter(dpred).contains(pre.ents()[i]));
                    let k = choose|k: int|
                        0 <= k < final(self).ents().len() && #[trigger] final(self).ents()[k]
                            == pre.ents()[i];
                    assert(final(self).ents()[k].id == x);
                }
            }
            if pre.relations_sound() {
                assert forall|j: int| 0 <= j < final(self).rels().len() implies final(self).has_entity((#[trigger] final(self).rels()[j]).from) && final(self).has_entity(
                    final(self).rels()[j].to,
                ) by {
                    let w = choose|i: int|
                        0 <= i < pre.rels().len() && (#[trigger] final(self).rels()[j]).id
                            == pre.rels()[i].id && final(self).rels()[j].rtype
                            == pre.rels()[i].rtype && final(self).rels()[j].strength
                            == pre.rels()[i].strength && final(self).rels()[j].from == subst_id(
                            pre.rels()[i].from,
                            src,
                            tgt,
                        ) && final(self).rels()[j].to == subst_id(pre.rels()[i].to, src, tgt);
                    assert(pre.has_entity(pre.rels()[w].from));
                    assert(pre.has_entity(pre.rels()[w].to));
                }
            }
            if pre.entities_linked() {
                let lkeep = |l: LinkV| !(l.entity_id == src && pre.has_link(l.memory_id, tgt));
                let lmap = |l: LinkV| (LinkV {
                    memory_id: l.memory_id,
                    entity_id: subst_id(l.entity_id, src, tgt),
                });
                assert forall|j: int| 0 <= j < final(self).ents().len() implies final(self).entity_is_linked((#[trigger] final(self).ents()[j]).id) by {
                    let e = final(self).ents()[j].id;
                    assert(final(self).has_entity(e));
                    assert(pre.has_entity(e) && e != src);
                    assert(pre.entity_is_linked(e));
                    let w = choose|w: int|
                        0 <= w < pre.lnks().len() && #[trigger] pre.lnks()[w].entity_id == e;
                    assert(lkeep(pre.lnks()[w]));
                    assert(pre.lnks().filter(lkeep).contains(pre.lnks()[w]));
                    let k = choose|k: int|
                        0 <= k < pre.lnks().filter(lkeep).len() && #[trigger] pre.lnks().filter(
                            lkeep,
                        )[k] == pre.lnks()[w];
                    assert(final(self).lnks()[k] == lmap(pre.lnks()[w]));
                    assert(final(self).lnks()[k].entity_id == e);
                }
            }
            if pre.links_sound() {
                let lkeep = |l: LinkV| !(l.entity_id == src && pre.has_link(l.memory_id, tgt));
                let lmap = |l: LinkV| (LinkV {
                    memory_id: l.memory_id,
                    entity_id: subst_id(l.entity_id, src, tgt),
                });
                assert forall|j: int| 0 <= j < final(self).lnks().len() implies final(self).has_memory((#[trigger] final(self).lnks()[j]).memory_id) && final(self).has_entity(final(self).lnks()[j].entity_id) by {
                    let fl = pre.lnks().filter(lkeep);
                    assert(final(self).lnks()[j] == lmap(fl[j]));
                    let o = lemma_filter_element_origin(pre.lnks(), lkeep, j);
                    let l0 = pre.lnks()[o];
                    assert(l0 == fl[j]);
                    assert(pre.has_memory(l0.memory_id));
                    let mw = pre.memory_ix(l0.memory_id);
                    assert(final(self).mems()[mw].id == l0.memory_id);
                    if l0.entity_id == src {
                        assert(final(self).lnks()[j].entity_id == tgt);
                        assert(final(self).has_entity(tgt));
                    } else {
                        assert(pre.has_entity(l0.entity_id));
                        assert(final(self).has_entity(l0.entity_id));
                    }
                }
            }
            if pre.aliases_sound() {
                assert(final(self).aliases_sound());
            }
            // name resolution lands on the merge target
            if !(exists|j: int|
                0 <= j < pre.ents().len() && #[trigger] pre.ents()[j].name == srcname
                    && pre.ents()[j].id != src) && (forall|a: int|
                0 <= a < pre.als().len() && #[trigger] pre.als()[a].alias == srcname
                    ==> pre.als()[a].entity_id == src) {
                assert forall|j: int| 0 <= j < final(self).ents().len() implies (#[trigger] final(self).ents()[j]).name != srcname by {
                    let dpred = |e: EntityV| e.id != src;
                    let o = lemma_filter_element_origin(pre.ents(), dpred, j);
                    assert(pre.ents()[o].id != src);
                }
                if pre.has_alias(srcname) {
                    let a = pre.alias_ix(srcname);
                    assert(pre.als()[a].entity_id == src);
                    assert(final(self).als()[a].alias == srcname && final(self).als()[a].entity_id
                        == tgt);
                } else {
                    assert(final(self).als()[pre.als().len() as int].alias == srcname && final(self).als()[pre.als().len() as int].entity_id == tgt);
                }
            }
        }
        Ok(())
    }

    /// All entities, ordered by type then name.
    pub fn list_entities(&self) -> (r: Vec<Entity>)
        ensures
            ents_view(r@).to_multiset() == self.ents().to_multiset(),
            forall|i: int, j: int|
                0 <= i < j < r@.len() ==> ent_le(
                    #[trigger] ents_view(r@)[i],
                    #[trigger] ents_view(r@)[j],
                ),
    {
        let mut rows: Vec<Entity> = Vec::new();
        let mut i: usize = 0;
        while i < self.entities.len()
            invariant
                i <= self.ents().len(),
                rows@.len() == i,
                ents_view(rows@) == self.ents().subrange(0, i as int),
            decreases self.ents().len() - i,
        {
            let ghost prev = rows@;
            rows.push(copy_entity(&self.entities[i]));
            i = i + 1;
            proof {
                assert forall|j: int| 0 <= j < i implies ents_view(rows@)[j] == self.ents().subrange(
                    0,
                    i as int,
                )[j] by {
                    if j < i - 1 {
                        assert(rows@[j] == prev[j]);
                        assert(ents_view(prev)[j] == self.ents().subrange(0, i - 1)[j]);
                    } else {
                        assert(rows@[j]@ == self.entities@[j]@);
                    }
                }
                assert(ents_view(rows@) =~= self.ents().subrange(0, i as int));
            }
        }
        proof {
            assert(self.ents().subrange(0, self.ents().len() as int) =~= self.ents());
        }
        sort_entities_asc(rows)
    }

    /// All memories, most recent first.
    pub fn list_memories(&self) -> (r: Vec<Memory>)
        ensures
            mems_view(r@).to_multiset() == self.mems().to_multiset(),
            forall|i: int, j: int|
                0 <= i < j < r@.len() ==> mem_ge(
                    #[trigger] mems_view(r@)[i],
                    #[trigger] mems_view(r@)[j],
                ),
    {
        let mut rows: Vec<Memory> = Vec::new();
        let mut i: usize = 0;
        while i < self.memories.len()
            invariant
                i <= self.mems().len(),
                rows@.len() == i,
                mems_view(rows@) == self.mems().subrange(0, i as int),
            decreases self.mems().len() - i,
        {
            let ghost prev = rows@;
            rows.push(copy_memory(&self.memories[i]));
            i = i + 1;
            proof {
                assert forall|j: int| 0 <= j < i implies mems_view(rows@)[j] == self.mems().subrange(
                    0,
                    i as int,
                )[j] by {
                    if j < i - 1 {
                        assert(rows@[j] == prev[j]);
                        assert(mems_view(prev)[j] == self.mems().subrange(0, i - 1)[j]);
                    } else {
                        assert(rows@[j]@ == self.memories@[j]@);
                    }
                }
                assert(mems_view(rows@) =~= self.mems().subrange(0, i as int));
            }
        }
        proof {
            assert(self.mems().subrange(0, self.mems().len() as int) =~= self.mems());
        }
        sort_memories_desc(rows)
    }

    /// All relations, in row order.
    pub fn list_relations(&self) -> (r: Vec<Relation>)
        ensures
            rels_view(r@) == self.rels(),
    {
        let mut rows: Vec<Relation> = Vec::new();
        let mut i: usize = 0;
        while i < self.relations.len()
            invariant
                i <= self.rels().len(),
                rows@.len() == i,
                rels_view(rows@) == self.rels().subrange(0, i as int),
            decreases self.rels().len() - i,
        {
            let ghost prev = rows@;
            rows.push(copy_relation(&self.relations[i]));
            i = i + 1;
            proof {
                assert forall|j: int| 0 <= j < i implies rels_view(rows@)[j] == self.rels().subrange(
                    0,
                    i as int,
                )[j] by {
                    if j < i - 1 {
                        assert(rows@[j] == prev[j]);
                        assert(rels_view(prev)[j] == self.rels().subrange(0, i - 1)[j]);
                    } else {
                        assert(rows@[j]@ == self.relations@[j]@);
                    }
                }
                assert(rels_view(rows@) =~= self.rels().subrange(0, i as int));
            }
        }
        proof {
            assert(self.rels().subrange(0, self.rels().len() as int) =~= self.rels());
        }
        rows
    }

    /// The alias strings of one entity, in row order.
    pub fn get_entity_aliases(&self, entity_id: i64) -> (r: Vec<String>)
        ensures
            strings_view(r@) == self.als().filter(
                |a: AliasV| a.entity_id == entity_id as int,
            ).map_values(|a: AliasV| a.alias),
    {
        let ghost pred = |a: AliasV| a.entity_id == entity_id as int;
        let ghost tostr = |a: AliasV| a.alias;
        let mut out: Vec<String> = Vec::new();
        let mut i: usize = 0;
        while i < self.aliases.len()
            invariant
                i <= self.als().len(),
                strings_view(out@) == self.als().subrange(0, i as int).filter(pred).map_values(
                    tostr,
                ),
                pred == (|a: AliasV| a.entity_id == entity_id as int),
                tostr == (|a: AliasV| a.alias),
            decreases self.als().len() - i,
        {
            let ghost prefix = self.als().subrange(0, i as int);
            proof {
                assert(prefix.push(self.als()[i as int]) =~= self.als().subrange(0, i + 1));
                lemma_filter_push(prefix, self.als()[i as int], pred);
            }
            if self.aliases[i].entity_id == entity_id {
                out.push(self.aliases[i].alias.clone());
                proof {
                    assert(strings_view(out@) =~= prefix.filter(pred).map_values(tostr).push(
                        tostr(self.als()[i as int]),
                    ));
                    assert(prefix.filter(pred).push(self.als()[i as int]).map_values(tostr)
                        =~= prefix.filter(pred).map_values(tostr).push(
                        tostr(self.als()[i as int]),
                    ));
                }
            }
            i = i + 1;
        }
        proof {
            assert(self.als().subrange(0, self.als().len() as int) =~= self.als());
        }
        out
    }

    /// The entity ids linked to one memory, in row order.
    pub fn get_entity_ids_for_memory(&self, memory_id: i64) -> (r: Vec<i64>)
        ensures
            ids_view(r@) == self.lnks().filter(
                |l: LinkV| l.memory_id == memory_id as int,
            ).map_values(|l: LinkV| l.entity_id),
    {
        let ghost pred = |l: LinkV| l.memory_id == memory_id as int;
        let ghost toid = |l: LinkV| l.entity_id;
        let mut out: Vec<i64> = Vec::new();
        let mut i: usize = 0;
        while i < self.links.len()
            invariant
                i <= self.lnks().len(),
                ids_view(out@) == self.lnks().subrange(0, i as int).filter(pred).map_values(toid),
                pred == (|l: LinkV| l.memory_id == memory_id as int),
                toid == (|l: LinkV| l.entity_id),
            decreases self.lnks().len() - i,
        {
            let ghost prefix = self.lnks().subrange(0, i as int);
            proof {
                assert(prefix.push(self.lnks()[i as int]) =~= self.lnks().subrange(0, i + 1));
                lemma_filter_push(prefix, self.lnks()[i as int], pred);
            }
            if self.links[i].memory_id == memory_id {
                out.push(self.links[i].entity_id);
                proof {
                    assert(ids_view(out@) =~= prefix.filter(pred).map_values(toid).push(
                        toid(self.lnks()[i as int]),
                    ));
                    assert(prefix.filter(pred).push(self.lnks()[i as int]).map_values(toid)
                        =~= prefix.filter(pred).map_values(toid).push(toid(self.lnks()[i as int])));
                }
            }
            i = i + 1;
        }
        proof {
            assert(self.lnks().subrange(0, self.lnks().len() as int) =~= self.lnks());
        }
        out
    }

    /// The memories linked to one entity, most recent first.
    pub fn get_memories_for_entity(&self, entity_id: i64) -> (r: Vec<Memory>)
        ensures
            mems_view(r@).to_multiset() == self.mems().filter(
                |m: MemoryV| self.has_link(m.id, entity_id as int),
            ).to_multiset(),
            forall|i: int, j: int|
                0 <= i < j < r@.len() ==> mem_ge(
                    #[trigger] mems_view(r@)[i],
                    #[trigger] mems_view(r@)[j],
                ),
            forall|j: int|
                0 <= j < r@.len() ==> self.mems().contains(#[trigger] mems_view(r@)[j])
                    && self.has_link(mems_view(r@)[j].id, entity_id as int),
    {
        let ghost pred = |m: MemoryV| self.has_link(m.id, entity_id as int);
        let mut rows: Vec<Memory> = Vec::new();
        let mut i: usize = 0;
        while i < self.memories.len()
            invariant
                i <= self.mems().len(),
                mems_view(rows@) == self.mems().subrange(0, i as int).filter(pred),
                pred == (|m: MemoryV| self.has_link(m.id, entity_id as int)),
            decreases self.mems().len() - i,
        {
            let ghost prefix = self.mems().subrange(0, i as int);
            proof {
                assert(prefix.push(self.mems()[i as int]) =~= self.mems().subrange(0, i + 1));
                lemma_filter_push(prefix, self.mems()[i as int], pred);
            }
            if self.find_link(self.memories[i].id, entity_id) {
                rows.push(copy_memory(&self.memories[i]));
                proof {
                    assert(mems_view(rows@) =~= prefix.filter(pred).push(self.mems()[i as int]));
                }
            }
            i = i + 1;
        }
        proof {
            assert(self.mems().subrange(0, self.mems().len() as int) =~= self.mems());
        }
        let sorted = sort_memories_desc(rows);
        proof {
            broadcast use vstd::seq_lib::group_to_multiset_ensures;

            let fpred = |m: MemoryV| self.has_link(m.id, entity_id as int);
            assert forall|j: int| 0 <= j < sorted@.len() implies self.mems().contains(
                #[trigger] mems_view(sorted@)[j],
            ) && self.has_link(mems_view(sorted@)[j].id, entity_id as int) by {
                mems_view(sorted@).to_multiset_ensures();
                self.mems().filter(fpred).to_multiset_ensures();
                assert(mems_view(sorted@).contains(mems_view(sorted@)[j]));
                assert(mems_view(sorted@).to_multiset().count(mems_view(sorted@)[j]) > 0);
                assert(self.mems().filter(fpred).contains(mems_view(sorted@)[j]));
                let o = choose|o: int|
                    0 <= o < self.mems().filter(fpred).len() && #[trigger] self.mems().filter(
                        fpred,
                    )[o] == mems_view(sorted@)[j];
                let w = lemma_filter_element_origin(self.mems(), fpred, o);
                assert(self.mems()[w] == mems_view(sorted@)[j]);
                assert(fpred(self.mems()[w]));
            }
        }
        sorted
    }

    /// Human-facing fuzzy lookup: the first entity whose name contains the
    /// given text, else the target of the first alias containing it.
    ///
    /// Callers must not rely on which row wins when several match.
    /// `NotFound` exactly when the winning alias points at a missing
    /// entity; `None` exactly when nothing matches at all.
    pub fn get_entity_by_name(&self, name: &String) -> (r: Result<Option<Entity>, StoreError>)
        requires
            self.wf(),
        ensures
            match r {
                Ok(Some(e)) => (exists|i: int|
                    0 <= i < self.ents().len() && crate::text::spec_contains_sub(
                        (#[trigger] self.ents()[i]).name,
                        name@,
                    ) && self.ents()[i] == e@) || (self.has_entity(e@.id) && e@ == self.entity_of(
                    e@.id,
                ) && exists|i: int|
                    0 <= i < self.als().len() && crate::text::spec_contains_sub(
                        (#[trigger] self.als()[i]).alias,
                        name@,
                    ) && self.als()[i].entity_id == e@.id),
                Ok(None) => (forall|i: int|
                    0 <= i < self.ents().len() ==> !crate::text::spec_contains_sub(
                        (#[trigger] self.ents()[i]).name,
                        name@,
                    )) && (forall|i: int|
                    0 <= i < self.als().len() ==> !crate::text::spec_contains_sub(
                        (#[trigger] self.als()[i]).alias,
                        name@,
                    )),
                Err(er) => er == StoreError::NotFound && (forall|i: int|
                    0 <= i < self.ents().len() ==> !crate::text::spec_contains_sub(
                        (#[trigger] self.ents()[i]).name,
                        name@,
                    )) && exists|i: int|
                    0 <= i < self.als().len() && crate::text::spec_contains_sub(
                        (#[trigger] self.als()[i]).alias,
                        name@,
                    ) && (forall|q: int|
                        0 <= q < i ==> !crate::text::spec_contains_sub(
                            (#[trigger] self.als()[q]).alias,
                            name@,
                        )) && !self.has_entity(self.als()[i].entity_id),
            },
    {
        let pat = crate::text::chars_vec(name.as_str());
        let mut i: usize = 0;
        while i < self.entities.len()
            invariant
                pat@ == name@,
                i <= self.ents().len(),
                forall|j: int|
                    0 <= j < i ==> !crate::text::spec_contains_sub(
                        (#[trigger] self.ents()[j]).name,
                        name@,
                    ),
            decreases self.ents().len() - i,
        {
            let hay = crate::text::chars_vec(self.entities[i].name.as_str());
            if crate::text::contains_sub(&hay, &pat) {
                let e = copy_entity(&self.entities[i]);
                proof {
                    assert(crate::text::spec_contains_sub(self.ents()[i as int].name, name@));
                    assert(self.ents()[i as int] == e@);
                }
                return Ok(Some(e));
            }
            i = i + 1;
        }
        let mut j: usize = 0;
        while j < self.aliases.len()
            invariant
                pat@ == name@,
                self.wf(),
                j <= self.als().len(),
                forall|k: int|
                    0 <= k < self.ents().len() ==> !crate::text::spec_contains_sub(
                        (#[trigger] self.ents()[k]).name,
                        name@,
                    ),
                forall|k: int|
                    0 <= k < j ==> !crate::text::spec_contains_sub(
                        (#[trigger] self.als()[k]).alias,
                        name@,
                    ),
            decreases self.als().len() - j,
        {
            let hay = crate::text::chars_vec(self.aliases[j].alias.as_str());
            if crate::text::contains_sub(&hay, &pat) {
                proof {
                    assert(crate::text::spec_contains_sub(self.als()[j as int].alias, name@));
                }
                return match self.get_entity_by_id(self.aliases[j].entity_id) {
                    Ok(e) => Ok(Some(e)),
                    Err(er) => {
                        proof {
                            assert(0 <= j < self.als().len() && crate::text::spec_contains_sub(
                                self.als()[j as int].alias,
                                name@,
                            ) && (forall|q: int|
                                0 <= q < j ==> !crate::text::spec_contains_sub(
                                    (#[trigger] self.als()[q]).alias,
                                    name@,
                                )) && !self.has_entity(self.als()[j as int].entity_id));
                        }
                        Err(er)
                    },
                };
            }
            j = j + 1;
        }
        Ok(None)
    }

    /// The write-path resolver: exact name, then alias, else create a new
    /// entity of the given type; no fuzzy matching on this path.
    pub fn resolve_or_create(
        &mut self,
        name: &String,
        entity_type: &String,
        attributes: &Option<Attributes>,
        now: &String,
    ) -> (r: Result<i64, StoreError>)
        requires
            old(self).wf(),
        ensures
            final(self).wf(),
            match r {
                Ok(id) => {
                    &&& if old(self).has_entity_name(name@) || old(self).has_alias(name@) {
                        *final(self) == *old(self) && (if old(self).has_entity_name(name@) {
                            exists|i: int|
                                0 <= i < old(self).ents().len() && #[trigger] old(
                                    self,
                                ).ents()[i].name == name@ && old(self).ents()[i].id == id as int
                        } else {
                            exists|i: int|
                                0 <= i < old(self).als().len() && #[trigger] old(
                                    self,
                                ).als()[i].alias == name@ && old(self).als()[i].entity_id
                                    == id as int
                        })
                    } else {
                        &&& id == old(self).next_entity_id
                        &&& final(self).next_entity_id as int == old(self).next_entity_id as int
                            + 1
                        &&& final(self).ents() == old(self).ents().push(
                            (EntityV {
                                id: id as int,
                                etype: entity_type@,
                                name: name@,
                                attrs: crate::attrs::attrs_view(*attributes),
                                created_at: now@,
                                updated_at: now@,
                            }),
                        )
                        &&& final(self).als() == old(self).als()
                        &&& final(self).rels() == old(self).rels()
                        &&& final(self).mems() == old(self).mems()
                        &&& final(self).lnks() == old(self).lnks()
                    }
                },
                Err(e) => {
                    &&& *final(self) == *old(self)
                    &&& e == StoreError::Full
                    &&& old(self).next_entity_id == i64::MAX
                },
            },
            old(self).aliases_sound() ==> final(self).aliases_sound(),
            old(self).links_sound() ==> final(self).links_sound(),
            old(self).relations_sound() ==> final(self).relations_sound(),
    {
        match self.find_entity_id_by_name_or_alias(name) {
            Some(id) => {
                proof {
                    if self.has_entity_name(name@) {
                        let i = choose|i: int|
                            0 <= i < self.ents().len() && #[trigger] self.ents()[i].name == name@
                                && self.ents()[i].id == id as int;
                        assert(self.has_entity(id as int));
                    } else {
                        let i = choose|i: int|
                            0 <= i < self.als().len() && #[trigger] self.als()[i].alias == name@
                                && self.als()[i].entity_id == id as int;
                        assert(self.has_alias(name@));
                    }
                }
                Ok(id)
            },
            None => {
                proof {
                    if old(self).has_named(entity_type@, name@) {
                        let i = old(self).named_ix(entity_type@, name@);
                        assert(old(self).ents()[i].name == name@);
                        assert(old(self).has_entity_name(name@));
                    }
                }
                self.upsert_entity(entity_type, name, attributes, now)
            },
        }
    }

    /// Export the graph: all entities as nodes (ordered by type then
    /// name), and exactly the relations whose both endpoints still exist
    /// as edges, in relation row order; an inconsistent edge is silently
    /// dropped rather than surfaced.
    pub fn get_graph_data(&self) -> (r: GraphData)
        requires
            self.wf(),
        ensures
            exists|es: Seq<EntityV>|
                {
                    &&& (#[trigger] es.to_multiset()) == self.ents().to_multiset()
                    &&& forall|i: int, j: int| 0 <= i < j < es.len() ==> ent_le(es[i], es[j])
                    &&& r.nodes@.len() == es.len()
                    &&& forall|i: int|
                        0 <= i < es.len() ==> node_matches(#[trigger] nodes_view(r.nodes@)[i], es[i])
                },
            glinks_view(r.links@).len() == self.rels().filter(
                |x: RelationV| self.has_entity(x.from) && self.has_entity(x.to),
            ).len(),
            forall|k: int|
                0 <= k < glinks_view(r.links@).len() ==> glink_matches(
                    #[trigger] glinks_view(r.links@)[k],
                    self.rels().filter(
                        |x: RelationV| self.has_entity(x.from) && self.has_entity(x.to),
                    )[k],
                ),
    {
        broadcast use vstd::seq_lib::group_to_multiset_ensures;

        let sorted = self.list_entities();
        let mut nodes: Vec<GraphNode> = Vec::new();
        let mut i: usize = 0;
        while i < sorted.len()
            invariant
                self.wf(),
                ents_view(sorted@).to_multiset() == self.ents().to_multiset(),
                i <= sorted@.len(),
                nodes@.len() == i,
                forall|k: int|
                    0 <= k < i ==> node_matches(
                        #[trigger] nodes_view(nodes@)[k],
                        ents_view(sorted@)[k],
                    ),
            decreases sorted@.len() - i,
        {
            let e = &sorted[i];
            proof {
                ents_view(sorted@).to_multiset_ensures();
                self.ents().to_multiset_ensures();
                assert(ents_view(sorted@)[i as int] == e@);
                assert(ents_view(sorted@).contains(e@));
                assert(ents_view(sorted@).to_multiset().count(e@) > 0);
                assert(self.ents().to_multiset().count(e@) > 0);
                assert(self.ents().contains(e@));
                let w = choose|w: int| 0 <= w < self.ents().len() && self.ents()[w] == e@;
                assert(1 <= self.ents()[w].id);
            }
            let digits = crate::text::u64_to_chars(e.id as u64);
            let ghost prev = nodes@;
            nodes.push(
                GraphNode {
                    id: crate::text::string_from_chars(&digits),
                    name: e.name.clone(),
                    node_type: e.entity_type.clone(),
                    attributes: copy_attrs(&e.attributes),
                },
            );
            i = i + 1;
            proof {
                assert forall|k: int| 0 <= k < i implies node_matches(
                    #[trigger] nodes_view(nodes@)[k],
                    ents_view(sorted@)[k],
                ) by {
                    if k < i - 1 {
                        assert(nodes@[k] == prev[k]);
                        assert(node_matches(nodes_view(prev)[k], ents_view(sorted@)[k]));
                    } else {
                        assert(nodes_view(nodes@)[k].id == digits@);
                    }
                }
            }
        }
        let ghost vpred = |x: RelationV| self.has_entity(x.from) && self.has_entity(x.to);
        let mut links: Vec<GraphLink> = Vec::new();
        let mut j: usize = 0;
        while j < self.relations.len()
            invariant
                self.wf(),
                j <= self.rels().len(),
                glinks_view(links@).len() == self.rels().subrange(0, j as int).filter(
                    vpred,
                ).len(),
                forall|k: int|
                    0 <= k < glinks_view(links@).len() ==> glink_matches(
                        #[trigger] glinks_view(links@)[k],
                        self.rels().subrange(0, j as int).filter(vpred)[k],
                    ),
                vpred == (|x: RelationV| self.has_entity(x.from) && self.has_entity(x.to)),
            decreases self.rels().len() - j,
        {
            let ghost prefix = self.rels().subrange(0, j as int);
            proof {
                assert(prefix.push(self.rels()[j as int]) =~= self.rels().subrange(0, j + 1));
                lemma_filter_push(prefix, self.rels()[j as int], vpred);
            }
            let rel = &self.relations[j];
            let from_ok = self.find_entity_ix(rel.from_entity_id).is_some();
            let to_ok = self.find_entity_ix(rel.to_entity_id).is_some();
            if from_ok && to_ok {
                proof {
                    let w = self.entity_ix(rel.from_entity_id as int);
                    assert(1 <= self.ents()[w].id);
                    let w2 = self.entity_ix(rel.to_entity_id as int);
                    assert(1 <= self.ents()[w2].id);
                }
                let sdigits = crate::text::u64_to_chars(rel.from_entity_id as u64);
                let tdigits = crate::text::u64_to_chars(rel.to_entity_id as u64);
                let ghost prevl = links@;
                links.push(
                    GraphLink {
                        source: crate::text::string_from_chars(&sdigits),
                        target: crate::text::string_from_chars(&tdigits),
                        relation: rel.relation_type.clone(),
                        strength: rel.strength,
                    },
                );
                proof {
                    assert forall|k: int| 0 <= k < glinks_view(links@).len() implies glink_matches(
                        #[trigger] glinks_view(links@)[k],
                        self.rels().subrange(0, j + 1).filter(vpred)[k],
                    ) by {
                        if k < glinks_view(prevl).len() {
                            assert(links@[k] == prevl[k]);
                            assert(glink_matches(glinks_view(prevl)[k], prefix.filter(vpred)[k]));
                            assert(self.rels().subrange(0, j + 1).filter(vpred)[k]
                                == prefix.filter(vpred)[k]);
                        } else {
                            assert(glinks_view(links@)[k].source == sdigits@);
                            assert(self.rels().subrange(0, j + 1).filter(vpred)[k]
                                == self.rels()[j as int]);
                        }
                    }
                }
            } else {
                proof {
                    assert(!vpred(self.rels()[j as int]));
                }
            }
            j = j + 1;
        }
        proof {
            assert(self.rels().subrange(0, self.rels().len() as int) =~= self.rels());
            let ghost es = ents_view(sorted@);
            assert(es.to_multiset() == self.ents().to_multiset());
        }
        GraphData { nodes, links }
    }

    /// Decide well-formedness at run time, so an embedding that loads rows
    /// from outside storage can check the invariant before operating.
    pub fn check_wf(&self) -> (r: bool)
        ensures
            r == self.wf(),
    {
        if !(1 <= self.next_entity_id && 1 <= self.next_alias_id && 1 <= self.next_relation_id
            && 1 <= self.next_memory_id) {
            return false;
        }
        // entities: id bounds, unique ids, unique (type, name)
        let mut i: usize = 0;
        while i < self.entities.len()
            invariant
                i <= self.ents().len(),
                forall|p: int|
                    0 <= p < i ==> 1 <= (#[trigger] self.ents()[p]).id
                        < self.next_entity_id as int,
                forall|p: int, q: int|
                    0 <= p < q < i ==> #[trigger] self.ents()[p].id
                        != #[trigger] self.ents()[q].id,
                forall|p: int, q: int|
                    0 <= p < q < i ==> !(#[trigger] self.ents()[p].etype
                        == #[trigger] self.ents()[q].etype && self.ents()[p].name
                        == self.ents()[q].name),
            decreases self.ents().len() - i,
        {
            if !(1 <= self.entities[i].id && self.entities[i].id < self.next_entity_id) {
                proof {
                    assert(!(1 <= self.ents()[i as int].id < self.next_entity_id as int));
                }
                return false;
            }
            let mut j: usize = 0;
            while j < i
                invariant
                    j <= i < self.ents().len(),
                    forall|q: int|
                        0 <= q < j ==> #[trigger] self.ents()[q].id != self.ents()[i as int].id,
                    forall|q: int|
                        0 <= q < j ==> !(#[trigger] self.ents()[q].etype
                            == self.ents()[i as int].etype && self.ents()[q].name
                            == self.ents()[i as int].name),
                decreases i - j,
            {
                if self.entities[j].id == self.entities[i].id {
                    proof {
                        assert(self.ents()[j as int].id == self.ents()[i as int].id);
                    }
                    return false;
                }
                if string_eq(&self.entities[j].entity_type, &self.entities[i].entity_type)
                    && string_eq(&self.entities[j].name, &self.entities[i].name) {
                    proof {
                        assert(self.ents()[j as int].etype == self.ents()[i as int].etype
                            && self.ents()[j as int].name == self.ents()[i as int].name);
                    }
                    return false;
                }
                proof {
                    assert(self.ents()[j as int].id != self.ents()[i as int].id);
                    assert(!(self.ents()[j as int].etype == self.ents()[i as int].etype
                        && self.ents()[j as int].name == self.ents()[i as int].name));
                }
                j = j + 1;
            }
            proof {
                assert forall|p: int, q: int| 0 <= p < q < i + 1 implies #[trigger] self.ents()[p].id
                    != #[trigger] self.ents()[q].id by {}
                assert forall|p: int, q: int| 0 <= p < q < i + 1 implies !(#[trigger] self.ents()[p].etype
                    == #[trigger] self.ents()[q].etype && self.ents()[p].name
                    == self.ents()[q].name) by {}
            }
            i = i + 1;
        }
        // aliases: id bounds, unique ids, unique strings
        let mut i2: usize = 0;
        while i2 < self.aliases.len()
            invariant
                i2 <= self.als().len(),
                forall|p: int|
                    0 <= p < i2 ==> 1 <= (#[trigger] self.als()[p]).id < self.next_alias_id as int,
                forall|p: int, q: int|
                    0 <= p < q < i2 ==> #[trigger] self.als()[p].id != #[trigger] self.als()[q].id,
                forall|p: int, q: int|
                    0 <= p < q < i2 ==> #[trigger] self.als()[p].alias
                        != #[trigger] self.als()[q].alias,
            decreases self.als().len() - i2,
        {
            if !(1 <= self.aliases[i2].id && self.aliases[i2].id < self.next_alias_id) {
                proof {
                    assert(!(1 <= self.als()[i2 as int].id < self.next_alias_id as int));
                }
                return false;
            }
            let mut j: usize = 0;
            while j < i2
                invariant
                    j <= i2 < self.als().len(),
                    forall|q: int|
                        0 <= q < j ==> #[trigger] self.als()[q].id != self.als()[i2 as int].id,
                    forall|q: int|
                        0 <= q < j ==> #[trigger] self.als()[q].alias
                            != self.als()[i2 as int].alias,
                decreases i2 - j,
            {
                if self.aliases[j].id == self.aliases[i2].id {
                    proof {
                        assert(self.als()[j as int].id == self.als()[i2 as int].id);
                    }
                    return false;
                }
                if string_eq(&self.aliases[j].alias, &self.aliases[i2].alias) {
                    proof {
                        assert(self.als()[j as int].alias == self.als()[i2 as int].alias);
                    }
                    return false;
                }
                proof {
                    assert(self.als()[j as int].id != self.als()[i2 as int].id);
                    assert(self.als()[j as int].alias != self.als()[i2 as int].alias);
                }
                j = j + 1;
            }
            proof {
                assert forall|p: int, q: int| 0 <= p < q < i2 + 1 implies #[trigger] self.als()[p].id
                    != #[trigger] self.als()[q].id by {}
                assert forall|p: int, q: int| 0 <= p < q < i2 + 1 implies #[trigger] self.als()[p].alias
                    != #[trigger] self.als()[q].alias by {}
            }
            i2 = i2 + 1;
        }
        // relations: id bounds, unique ids, unique triples, strength
        let mut i3: usize = 0;
        while i3 < self.relations.len()
            invariant
                i3 <= self.rels().len(),
                forall|p: int|
                    0 <= p < i3 ==> 1 <= (#[trigger] self.rels()[p]).id
                        < self.next_relation_id as int,
                forall|p: int| 0 <= p < i3 ==> (#[trigger] self.rels()[p]).strength >= 1,
                forall|p: int, q: int|
                    0 <= p < q < i3 ==> #[trigger] self.rels()[p].id
                        != #[trigger] self.rels()[q].id,
                forall|p: int, q: int|
                    0 <= p < q < i3 ==> !(#[trigger] self.rels()[p].from
                        == #[trigger] self.rels()[q].from && self.rels()[p].to == self.rels()[q].to
                        && self.rels()[p].rtype == self.rels()[q].rtype),
            decreases self.rels().len() - i3,
        {
            if !(1 <= self.relations[i3].id && self.relations[i3].id < self.next_relation_id
                && self.relations[i3].strength >= 1) {
                proof {
                    assert(!(1 <= self.rels()[i3 as int].id < self.next_relation_id as int
                        && self.rels()[i3 as int].strength >= 1));
                }
                return false;
            }
            let mut j: usize = 0;
            while j < i3
                invariant
                    j <= i3 < self.rels().len(),
                    forall|q: int|
                        0 <= q < j ==> #[trigger] self.rels()[q].id != self.rels()[i3 as int].id,
                    forall|q: int|
                        0 <= q < j ==> !(#[trigger] self.rels()[q].from
                            == self.rels()[i3 as int].from && self.rels()[q].to
                            == self.rels()[i3 as int].to && self.rels()[q].rtype
                            == self.rels()[i3 as int].rtype),
                decreases i3 - j,
            {
                if self.relations[j].id == self.relations[i3].id {
                    proof {
                        assert(self.rels()[j as int].id == self.rels()[i3 as int].id);
                    }
                    return false;
                }
                if self.relations[j].from_entity_id == self.relations[i3].from_entity_id
                    && self.relations[j].to_entity_id == self.relations[i3].to_entity_id
                    && string_eq(&self.relations[j].relation_type, &self.relations[i3].relation_type) {
                    proof {
                        assert(self.rels()[j as int].from == self.rels()[i3 as int].from
                            && self.rels()[j as int].to == self.rels()[i3 as int].to
                            && self.rels()[j as int].rtype == self.rels()[i3 as int].rtype);
                    }
                    return false;
                }
                proof {
                    assert(self.rels()[j as int].id != self.rels()[i3 as int].id);
                    assert(!(self.rels()[j as int].from == self.rels()[i3 as int].from
                        && self.rels()[j as int].to == self.rels()[i3 as int].to
                        && self.rels()[j as int].rtype == self.rels()[i3 as int].rtype));
                }
                j = j + 1;
            }
            proof {
                assert forall|p: int, q: int| 0 <= p < q < i3 + 1 implies #[trigger] self.rels()[p].id
                    != #[trigger] self.rels()[q].id by {}
                assert forall|p: int, q: int| 0 <= p < q < i3 + 1 implies !(#[trigger] self.rels()[p].from
                    == #[trigger] self.rels()[q].from && self.rels()[p].to == self.rels()[q].to
                    && self.rels()[p].rtype == self.rels()[q].rtype) by {}
            }
            i3 = i3 + 1;
        }
        // memories: id bounds, unique ids, unique file paths
        let mut i4: usize = 0;
        while i4 < self.memories.len()
            invariant
                i4 <= self.mems().len(),
                forall|p: int|
                    0 <= p < i4 ==> 1 <= (#[trigger] self.mems()[p]).id
                        < self.next_memory_id as int,
                forall|p: int, q: int|
                    0 <= p < q < i4 ==> #[trigger] self.mems()[p].id
                        != #[trigger] self.mems()[q].id,
                forall|p: int, q: int|
                    0 <= p < q < i4 ==> !(#[trigger] self.mems()[p].md_file_path is Some
                        && #[trigger] self.mems()[q].md_file_path is Some
                        && self.mems()[p].md_file_path->0 == self.mems()[q].md_file_path->0),
            decreases self.mems().len() - i4,
        {
            if !(1 <= self.memories[i4].id && self.memories[i4].id < self.next_memory_id) {
                proof {
                    assert(!(1 <= self.mems()[i4 as int].id < self.next_memory_id as int));
                }
                return false;
            }
            let mut j: usize = 0;
            while j < i4
                invariant
                    j <= i4 < self.mems().len(),
                    forall|q: int|
                        0 <= q < j ==> #[trigger] self.mems()[q].id != self.mems()[i4 as int].id,
                    forall|q: int|
                        0 <= q < j ==> !(#[trigger] self.mems()[q].md_file_path is Some
                            && self.mems()[i4 as int].md_file_path is Some
                            && self.mems()[q].md_file_path->0
                            == self.mems()[i4 as int].md_file_path->0),
                decreases i4 - j,
            {
                if self.memories[j].id == self.memories[i4].id {
                    proof {
                        assert(self.mems()[j as int].id == self.mems()[i4 as int].id);
                    }
                    return false;
                }
                let path_clash = match (&self.memories[j].md_file_path, &self.memories[i4].md_file_path) {
                    (Some(a), Some(b)) => string_eq(a, b),
                    _ => false,
                };
                if path_clash {
                    proof {
                        assert(self.mems()[j as int].md_file_path is Some
                            && self.mems()[i4 as int].md_file_path is Some
                            && self.mems()[j as int].md_file_path->0
                            == self.mems()[i4 as int].md_file_path->0);
                    }
                    return false;
                }
                proof {
                    assert(self.mems()[j as int].id != self.mems()[i4 as int].id);
                    assert(!(self.mems()[j as int].md_file_path is Some
                        && self.mems()[i4 as int].md_file_path is Some
                        && self.mems()[j as int].md_file_path->0
                        == self.mems()[i4 as int].md_file_path->0));
                }
                j = j + 1;
            }
            proof {
                assert forall|p: int, q: int| 0 <= p < q < i4 + 1 implies #[trigger] self.mems()[p].id
                    != #[trigger] self.mems()[q].id by {}
                assert forall|p: int, q: int| 0 <= p < q < i4 + 1 implies !(#[trigger] self.mems()[p].md_file_path
                    is Some && #[trigger] self.mems()[q].md_file_path is Some
                    && self.mems()[p].md_file_path->0 == self.mems()[q].md_file_path->0) by {}
            }
            i4 = i4 + 1;
        }
        // links: unique pairs
        let mut i5: usize = 0;
        while i5 < self.links.len()
            invariant
                i5 <= self.lnks().len(),
                forall|p: int, q: int|
                    0 <= p < q < i5 ==> !(#[trigger] self.lnks()[p].memory_id
                        == #[trigger] self.lnks()[q].memory_id && self.lnks()[p].entity_id
                        == self.lnks()[q].entity_id),
            decreases self.lnks().len() - i5,
        {
            let mut j: usize = 0;
            while j < i5
                invariant
                    j <= i5 < self.lnks().len(),
                    forall|q: int|
                        0 <= q < j ==> !(#[trigger] self.lnks()[q].memory_id
                            == self.lnks()[i5 as int].memory_id && self.lnks()[q].entity_id
                            == self.lnks()[i5 as int].entity_id),
                decreases i5 - j,
            {
                if self.links[j].memory_id == self.links[i5].memory_id && self.links[j].entity_id
                    == self.links[i5].entity_id {
                    proof {
                        assert(self.lnks()[j as int].memory_id == self.lnks()[i5 as int].memory_id
                            && self.lnks()[j as int].entity_id
                            == self.lnks()[i5 as int].entity_id);
                    }
                    return false;
                }
                proof {
                    assert(!(self.lnks()[j as int].memory_id == self.lnks()[i5 as int].memory_id
                        && self.lnks()[j as int].entity_id == self.lnks()[i5 as int].entity_id));
                }
                j = j + 1;
            }
            proof {
                assert forall|p: int, q: int| 0 <= p < q < i5 + 1 implies !(#[trigger] self.lnks()[p].memory_id
                    == #[trigger] self.lnks()[q].memory_id && self.lnks()[p].entity_id
                    == self.lnks()[q].entity_id) by {}
            }
            i5 = i5 + 1;
        }
        true
    }

    /// Whether some entity other than `id` carries `name`.
    fn other_entity_has_name(&self, name: &String, id: i64) -> (r: bool)
        ensures
            r == exists|j: int|
                0 <= j < self.ents().len() && #[trigger] self.ents()[j].name == name@
                    && self.ents()[j].id != id as int,
    {
        let mut i: usize = 0;
        while i < self.entities.len()
            invariant
                i <= self.ents().len(),
                forall|j: int|
                    0 <= j < i ==> !(#[trigger] self.ents()[j].name == name@ && self.ents()[j].id
                        != id as int),
            decreases self.ents().len() - i,
        {
            if string_eq(&self.entities[i].name, name) && self.entities[i].id != id {
                proof {
                    assert(self.ents()[i as int].name == name@ && self.ents()[i as int].id != id as int);
                }
                return true;
            }
            i = i + 1;
        }
        false
    }

    /// Append a fresh alias row; the callers have checked uniqueness.
    fn push_alias_row(&mut self, entity_id: i64, alias: &String, now: &String) -> (r: Result<
        (),
        StoreError,
    >)
        requires
            old(self).wf(),
            old(self).has_entity(entity_id as int),
            !old(self).has_alias(alias@),
            forall|j: int|
                0 <= j < old(self).ents().len() && #[trigger] old(self).ents()[j].name == alias@
                    ==> old(self).ents()[j].id == entity_id as int,
        ensures
            final(self).wf(),
            final(self).ents() == old(self).ents(),
            final(self).rels() == old(self).rels(),
            final(self).mems() == old(self).mems(),
            final(self).lnks() == old(self).lnks(),
            final(self).next_entity_id == old(self).next_entity_id,
            final(self).next_relation_id == old(self).next_relation_id,
            final(self).next_memory_id == old(self).next_memory_id,
            match r {
                Ok(_) => {
                    &&& final(self).next_alias_id as int == old(self).next_alias_id as int + 1
                    &&& final(self).als() == old(self).als().push(
                        (AliasV {
                            id: old(self).next_alias_id as int,
                            entity_id: entity_id as int,
                            alias: alias@,
                            created_at: now@,
                        }),
                    )
                },
                Err(e) => {
                    &&& *final(self) == *old(self)
                    &&& e == StoreError::Full
                    &&& old(self).next_alias_id == i64::MAX
                },
            },
            old(self).aliases_sound() ==> final(self).aliases_sound(),
            old(self).links_sound() ==> final(self).links_sound(),
            old(self).relations_sound() ==> final(self).relations_sound(),
    {
        let ghost pre = *self;
        if self.next_alias_id == i64::MAX {
            return Err(StoreError::Full);
        }
        let row = AliasEntry {
            id: self.next_alias_id,
            entity_id,
            alias: alias.clone(),
            created_at: now.clone(),
        };
        self.aliases.push(row);
        self.next_alias_id = self.next_alias_id + 1;
        proof {
            assert(self.als() =~= pre.als().push(
                (AliasV {
                    id: pre.next_alias_id as int,
                    entity_id: entity_id as int,
                    alias: alias@,
                    created_at: now@,
                }),
            ));
            assert(self.ents() =~= pre.ents());
            assert(self.rels() =~= pre.rels());
            assert(self.mems() =~= pre.mems());
            assert(self.lnks() =~= pre.lnks());
            lemma_wf_after_alias_push(pre, *self, entity_id as int, alias@);
        }
        Ok(())
    }
}

/// With unique entity ids, any index holding `id` is the chosen one.
pub proof fn lemma_unique_entity_ix(s: Store, id: int, i: int)
    requires
        forall|p: int, q: int|
            0 <= p < q < s.ents().len() ==> #[trigger] s.ents()[p].id != #[trigger] s.ents()[q].id,
        0 <= i < s.ents().len(),
        s.ents()[i].id == id,
    ensures
        s.has_entity(id),
        s.entity_ix(id) == i,
{
    assert(s.has_entity(id));
    let j = s.entity_ix(id);
    if j != i {
        if j < i {
            assert(s.ents()[j].id != s.ents()[i].id);
        } else {
            assert(s.ents()[i].id != s.ents()[j].id);
        }
    }
}

/// With unique memory ids, any index holding `id` is the chosen one.
pub proof fn lemma_unique_memory_ix(s: Store, id: int, i: int)
    requires
        forall|p: int, q: int|
            0 <= p < q < s.mems().len() ==> #[trigger] s.mems()[p].id != #[trigger] s.mems()[q].id,
        0 <= i < s.mems().len(),
        s.mems()[i].id == id,
    ensures
        s.has_memory(id),
        s.memory_ix(id) == i,
{
    assert(s.has_memory(id));
    let j = s.memory_ix(id);
    if j != i {
        if j < i {
            assert(s.mems()[j].id != s.mems()[i].id);
        } else {
            assert(s.mems()[i].id != s.mems()[j].id);
        }
    }
}

/// With a unique `(type, name)` pair, any index holding it is the chosen one.
pub proof fn lemma_unique_named_ix(s: Store, etype: Seq<char>, name: Seq<char>, i: int)
    requires
        forall|p: int, q: int|
            0 <= p < q < s.ents().len() ==> !(#[trigger] s.ents()[p].etype
                == #[trigger] s.ents()[q].etype && s.ents()[p].name == s.ents()[q].name),
        0 <= i < s.ents().len(),
        s.ents()[i].etype == etype,
        s.ents()[i].name == name,
    ensures
        s.has_named(etype, name),
        s.named_ix(etype, name) == i,
{
    assert(s.has_named(etype, name));
    let j = s.named_ix(etype, name);
    if j != i {
        if j < i {
            assert(!(s.ents()[j].etype == s.ents()[i].etype && s.ents()[j].name
                == s.ents()[i].name));
        } else {
            assert(!(s.ents()[i].etype == s.ents()[j].etype && s.ents()[i].name
                == s.ents()[j].name));
        }
    }
}

/// Well-formedness survives an in-place entity update that keeps the row's
/// id, type and name.
#[verifier::rlimit(100)]
pub proof fn lemma_wf_after_entity_update(pre: Store, post: Store, ix: int)
    requires
        pre.wf(),
        0 <= ix < pre.ents().len(),
        post.ents().len() == pre.ents().len(),
        post.ents()[ix].id == pre.ents()[ix].id,
        post.ents()[ix].etype == pre.ents()[ix].etype,
        post.ents()[ix].name == pre.ents()[ix].name,
        forall|j: int| 0 <= j < pre.ents().len() && j != ix ==> post.ents()[j] == pre.ents()[j],
        post.als() == pre.als(),
        post.rels() == pre.rels(),
        post.mems() == pre.mems(),
        post.lnks() == pre.lnks(),
        post.next_entity_id == pre.next_entity_id,
        post.next_alias_id == pre.next_alias_id,
        post.next_relation_id == pre.next_relation_id,
        post.next_memory_id == pre.next_memory_id,
    ensures
        post.wf(),
        forall|id: int| post.has_entity(id) <==> pre.has_entity(id),
        pre.aliases_sound() ==> post.aliases_sound(),
        pre.links_sound() ==> post.links_sound(),
        pre.relations_sound() ==> post.relations_sound(),
        pre.entities_linked() ==> post.entities_linked(),
{
    assert(forall|j: int|
        0 <= j < post.ents().len() ==> #[trigger] post.ents()[j].id == pre.ents()[j].id
            && post.ents()[j].etype == pre.ents()[j].etype && post.ents()[j].name
            == pre.ents()[j].name);
    assert forall|id: int| post.has_entity(id) <==> pre.has_entity(id) by {
        if pre.has_entity(id) {
            let i = pre.entity_ix(id);
            assert(post.ents()[i].id == id);
        }
        if post.has_entity(id) {
            let i = post.entity_ix(id);
            assert(pre.ents()[i].id == id);
        }
    }
    assert forall|id: int| pre.has_memory(id) implies post.has_memory(id) by {
        let i = pre.memory_ix(id);
        assert(post.mems()[i].id == id);
    }
    assert forall|id: int| pre.entity_is_linked(id) implies post.entity_is_linked(id) by {
        let i = choose|i: int|
            0 <= i < pre.lnks().len() && #[trigger] pre.lnks()[i].entity_id == id;
        assert(post.lnks()[i].entity_id == id);
    }
    if pre.links_sound() {
        assert(post.links_sound()) by {
            assert forall|i: int| 0 <= i < post.lnks().len() implies post.has_memory(
                #[trigger] post.lnks()[i].memory_id,
            ) && post.has_entity(post.lnks()[i].entity_id) by {
                assert(pre.lnks()[i] == post.lnks()[i]);
                assert(pre.has_memory(pre.lnks()[i].memory_id));
                assert(pre.has_entity(pre.lnks()[i].entity_id));
            }
        }
    }
    if pre.relations_sound() {
        assert forall|i: int| 0 <= i < post.rels().len() implies post.has_entity(
            (#[trigger] post.rels()[i]).from,
        ) && post.has_entity(post.rels()[i].to) by {
            assert(pre.rels()[i] == post.rels()[i]);
            assert(pre.has_entity(pre.rels()[i].from));
            assert(pre.has_entity(pre.rels()[i].to));
        }
        assert(post.relations_sound());
    }
    if pre.entities_linked() {
        assert forall|i: int| 0 <= i < post.ents().len() implies post.entity_is_linked(
            #[trigger] post.ents()[i].id,
        ) by {
            assert(pre.ents()[i].id == post.ents()[i].id);
            assert(pre.entity_is_linked(pre.ents()[i].id));
        }
        assert(post.entities_linked());
    }
}

/// Well-formedness survives appending a fresh entity row under a fresh id
/// and a fresh `(type, name)` pair.
pub proof fn lemma_wf_after_entity_push(pre: Store, post: Store, etype: Seq<char>, name: Seq<char>)
    requires
        pre.wf(),
        !pre.has_named(etype, name),
        pre.next_entity_id < i64::MAX,
        post.ents().len() == pre.ents().len() + 1,
        forall|j: int| 0 <= j < pre.ents().len() ==> post.ents()[j] == pre.ents()[j],
        post.ents()[pre.ents().len() as int].id == pre.next_entity_id as int,
        post.ents()[pre.ents().len() as int].etype == etype,
        post.ents()[pre.ents().len() as int].name == name,
        post.als() == pre.als(),
        post.rels() == pre.rels(),
        post.mems() == pre.mems(),
        post.lnks() == pre.lnks(),
        post.next_entity_id as int == pre.next_entity_id as int + 1,
        post.next_alias_id == pre.next_alias_id,
        post.next_relation_id == pre.next_relation_id,
        post.next_memory_id == pre.next_memory_id,
    ensures
        post.wf(),
        !pre.has_entity(pre.next_entity_id as int),
        forall|id: int|
            post.has_entity(id) <==> (pre.has_entity(id) || id == pre.next_entity_id as int),
        pre.links_sound() ==> post.links_sound(),
        pre.relations_sound() ==> post.relations_sound(),
        pre.aliases_sound() && !pre.has_alias(name) ==> post.aliases_sound(),
{
    let n = pre.ents().len() as int;
    let fresh = pre.next_entity_id as int;
    assert(!pre.has_entity(fresh));
    assert forall|id: int|
        post.has_entity(id) <==> (pre.has_entity(id) || id == fresh) by {
        if pre.has_entity(id) {
            let i = pre.entity_ix(id);
            assert(post.ents()[i].id == id);
        }
        if id == fresh {
            assert(post.ents()[n].id == id);
        }
        if post.has_entity(id) {
            let i = post.entity_ix(id);
            if i < n {
                assert(pre.ents()[i].id == id);
            }
        }
    }
    assert forall|id: int| pre.has_memory(id) implies post.has_memory(id) by {
        let i = pre.memory_ix(id);
        assert(post.mems()[i].id == id);
    }
    if pre.links_sound() {
        assert forall|i: int| 0 <= i < post.lnks().len() implies post.has_memory(
            #[trigger] post.lnks()[i].memory_id,
        ) && post.has_entity(post.lnks()[i].entity_id) by {
            assert(pre.lnks()[i] == post.lnks()[i]);
            assert(pre.has_memory(pre.lnks()[i].memory_id));
            assert(pre.has_entity(pre.lnks()[i].entity_id));
        }
    }
    if pre.relations_sound() {
        assert forall|i: int| 0 <= i < post.rels().len() implies post.has_entity(
            #[trigger] post.rels()[i].from,
        ) && post.has_entity(post.rels()[i].to) by {
            assert(pre.rels()[i] == post.rels()[i]);
            assert(pre.has_entity(pre.rels()[i].from));
            assert(pre.has_entity(pre.rels()[i].to));
        }
    }
    if pre.aliases_sound() && !pre.has_alias(name) {
        assert forall|i: int| 0 <= i < post.als().len() implies post.has_entity(
            #[trigger] post.als()[i].entity_id,
        ) && forall|j: int|
            0 <= j < post.ents().len() && #[trigger] post.ents()[j].name == post.als()[i].alias
                ==> post.ents()[j].id == post.als()[i].entity_id by {
            assert(pre.als()[i] == post.als()[i]);
            assert(pre.has_entity(pre.als()[i].entity_id));
            assert forall|j: int|
                0 <= j < post.ents().len() && #[trigger] post.ents()[j].name
                    == post.als()[i].alias implies post.ents()[j].id
                == post.als()[i].entity_id by {
                if j < n {
                    assert(pre.ents()[j].name == pre.als()[i].alias);
                } else {
                    assert(post.ents()[j].name == name);
                    assert(pre.als()[i].alias != name);
                }
            }
        }
    }
}

/// Well-formedness survives appending a fresh alias row whose string is
/// neither an existing alias nor the name of a different entity.
pub proof fn lemma_wf_after_alias_push(pre: Store, post: Store, entity_id: int, alias: Seq<char>)
    requires
        pre.wf(),
        pre.has_entity(entity_id),
        !pre.has_alias(alias),
        forall|j: int|
            0 <= j < pre.ents().len() && #[trigger] pre.ents()[j].name == alias ==> pre.ents()[j].id
                == entity_id,
        pre.next_alias_id < i64::MAX,
        post.als().len() == pre.als().len() + 1,
        forall|j: int| 0 <= j < pre.als().len() ==> post.als()[j] == pre.als()[j],
        post.als()[pre.als().len() as int].id == pre.next_alias_id as int,
        post.als()[pre.als().len() as int].entity_id == entity_id,
        post.als()[pre.als().len() as int].alias == alias,
        post.ents() == pre.ents(),
        post.rels() == pre.rels(),
        post.mems() == pre.mems(),
        post.lnks() == pre.lnks(),
        post.next_alias_id as int == pre.next_alias_id as int + 1,
        post.next_entity_id == pre.next_entity_id,
        post.next_relation_id == pre.next_relation_id,
        post.next_memory_id == pre.next_memory_id,
    ensures
        post.wf(),
        pre.aliases_sound() ==> post.aliases_sound(),
        pre.links_sound() ==> post.links_sound(),
        pre.relations_sound() ==> post.relations_sound(),
        pre.entities_linked() ==> post.entities_linked(),
{
    let n = pre.als().len() as int;
    assert(forall|j: int| 0 <= j < pre.als().len() ==> !(#[trigger] pre.als()[j].alias == alias));
    assert forall|i: int, j: int| 0 <= i < j < post.als().len() implies #[trigger] post.als()[i].id
        != #[trigger] post.als()[j].id by {
        if j < n {
            assert(pre.als()[i].id != pre.als()[j].id);
        } else {
            assert(pre.als()[i].id < pre.next_alias_id as int);
        }
    }
    assert forall|i: int, j: int| 0 <= i < j < post.als().len() implies #[trigger] post.als()[i].alias
        != #[trigger] post.als()[j].alias by {
        if j < n {
            assert(pre.als()[i].alias != pre.als()[j].alias);
        } else {
            assert(!(pre.als()[i].alias == alias));
        }
    }
    assert forall|i: int| 0 <= i < post.als().len() implies 1 <= #[trigger] post.als()[i].id
        < post.next_alias_id as int by {
        if i < n {
            assert(1 <= pre.als()[i].id < pre.next_alias_id as int);
        }
    }
    if pre.aliases_sound() {
        assert forall|i: int| 0 <= i < post.als().len() implies post.has_entity(
            #[trigger] post.als()[i].entity_id,
        ) && forall|j: int|
            0 <= j < post.ents().len() && #[trigger] post.ents()[j].name == post.als()[i].alias
                ==> post.ents()[j].id == post.als()[i].entity_id by {
            if i < n {
                assert(pre.als()[i] == post.als()[i]);
                assert(pre.has_entity(pre.als()[i].entity_id));
            } else {
                assert(post.als()[i].alias == alias);
                assert(pre.has_entity(entity_id));
            }
        }
    }
}

/// With a unique triple, any index holding it is the chosen one.
pub proof fn lemma_unique_triple_ix(s: Store, from: int, to: int, rtype: Seq<char>, i: int)
    requires
        forall|p: int, q: int|
            0 <= p < q < s.rels().len() ==> !(#[trigger] s.rels()[p].from
                == #[trigger] s.rels()[q].from && s.rels()[p].to == s.rels()[q].to
                && s.rels()[p].rtype == s.rels()[q].rtype),
        0 <= i < s.rels().len(),
        s.rels()[i].from == from,
        s.rels()[i].to == to,
        s.rels()[i].rtype == rtype,
    ensures
        s.has_triple(from, to, rtype),
        s.triple_ix(from, to, rtype) == i,
{
    assert(s.has_triple(from, to, rtype));
    let j = s.triple_ix(from, to, rtype);
    if j != i {
        if j < i {
            assert(!(s.rels()[j].from == s.rels()[i].from && s.rels()[j].to == s.rels()[i].to
                && s.rels()[j].rtype == s.rels()[i].rtype));
        } else {
            assert(!(s.rels()[i].from == s.rels()[j].from && s.rels()[i].to == s.rels()[j].to
                && s.rels()[i].rtype == s.rels()[j].rtype));
        }
    }
}

/// Everything that only touches one relation row's strength keeps the store
/// well-formed and sound.
pub proof fn lemma_wf_after_relation_update(pre: Store, post: Store, ix: int)
    requires
        pre.wf(),
        0 <= ix < pre.rels().len(),
        post.rels().len() == pre.rels().len(),
        post.rels()[ix].id == pre.rels()[ix].id,
        post.rels()[ix].from == pre.rels()[ix].from,
        post.rels()[ix].to == pre.rels()[ix].to,
        post.rels()[ix].rtype == pre.rels()[ix].rtype,
        post.rels()[ix].strength >= 1,
        forall|j: int| 0 <= j < pre.rels().len() && j != ix ==> post.rels()[j] == pre.rels()[j],
        post.ents() == pre.ents(),
        post.als() == pre.als(),
        post.mems() == pre.mems(),
        post.lnks() == pre.lnks(),
        post.next_entity_id == pre.next_entity_id,
        post.next_alias_id == pre.next_alias_id,
        post.next_relation_id == pre.next_relation_id,
        post.next_memory_id == pre.next_memory_id,
    ensures
        post.wf(),
        pre.aliases_sound() ==> post.aliases_sound(),
        pre.links_sound() ==> post.links_sound(),
        pre.relations_sound() ==> post.relations_sound(),
        pre.entities_linked() ==> post.entities_linked(),
{
    assert(forall|j: int|
        0 <= j < post.rels().len() ==> (#[trigger] post.rels()[j]).id == pre.rels()[j].id
            && post.rels()[j].from == pre.rels()[j].from && post.rels()[j].to == pre.rels()[j].to
            && post.rels()[j].rtype == pre.rels()[j].rtype && post.rels()[j].strength >= 1);
    if pre.relations_sound() {
        assert forall|i: int| 0 <= i < post.rels().len() implies post.has_entity(
            (#[trigger] post.rels()[i]).from,
        ) && post.has_entity(post.rels()[i].to) by {
            assert(pre.has_entity(pre.rels()[i].from));
            assert(pre.has_entity(pre.rels()[i].to));
        }
    }
}

/// Appending a fresh relation row with existing endpoints keeps the store
/// well-formed and sound.
pub proof fn lemma_wf_after_relation_push(pre: Store, post: Store, from: int, to: int, rtype: Seq<
    char,
>)
    requires
        pre.wf(),
        !pre.has_triple(from, to, rtype),
        pre.has_entity(from),
        pre.has_entity(to),
        pre.next_relation_id < i64::MAX,
        post.rels().len() == pre.rels().len() + 1,
        forall|j: int| 0 <= j < pre.rels().len() ==> post.rels()[j] == pre.rels()[j],
        post.rels()[pre.rels().len() as int].id == pre.next_relation_id as int,
        post.rels()[pre.rels().len() as int].from == from,
        post.rels()[pre.rels().len() as int].to == to,
        post.rels()[pre.rels().len() as int].rtype == rtype,
        post.rels()[pre.rels().len() as int].strength == 1,
        post.ents() == pre.ents(),
        post.als() == pre.als(),
        post.mems() == pre.mems(),
        post.lnks() == pre.lnks(),
        post.next_entity_id == pre.next_entity_id,
        post.next_alias_id == pre.next_alias_id,
        post.next_relation_id as int == pre.next_relation_id as int + 1,
        post.next_memory_id == pre.next_memory_id,
    ensures
        post.wf(),
        pre.aliases_sound() ==> post.aliases_sound(),
        pre.links_sound() ==> post.links_sound(),
        pre.relations_sound() ==> post.relations_sound(),
        pre.entities_linked() ==> post.entities_linked(),
{
    let n = pre.rels().len() as int;
    assert(forall|j: int|
        0 <= j < n ==> !((#[trigger] pre.rels()[j]).from == from && pre.rels()[j].to == to
            && pre.rels()[j].rtype == rtype));
    assert forall|i: int, j: int| 0 <= i < j < post.rels().len() implies #[trigger] post.rels()[i].id
        != #[trigger] post.rels()[j].id by {
        if j < n {
            assert(pre.rels()[i].id != pre.rels()[j].id);
        } else {
            assert(pre.rels()[i].id < pre.next_relation_id as int);
        }
    }
    assert forall|i: int, j: int| 0 <= i < j < post.rels().len() implies !(#[trigger] post.rels()[i].from
        == #[trigger] post.rels()[j].from && post.rels()[i].to == post.rels()[j].to
        && post.rels()[i].rtype == post.rels()[j].rtype) by {
        if j < n {
            assert(!(pre.rels()[i].from == pre.rels()[j].from && pre.rels()[i].to
                == pre.rels()[j].to && pre.rels()[i].rtype == pre.rels()[j].rtype));
        } else {
            assert(!((pre.rels()[i]).from == from && pre.rels()[i].to == to && pre.rels()[i].rtype
                == rtype));
        }
    }
    assert forall|i: int| 0 <= i < post.rels().len() implies 1 <= #[trigger] post.rels()[i].id
        < post.next_relation_id as int by {
        if i < n {
            assert(1 <= pre.rels()[i].id < pre.next_relation_id as int);
        }
    }
    assert forall|i: int| 0 <= i < post.rels().len() implies (#[trigger] post.rels()[i]).strength
        >= 1 by {
        if i < n {
            assert(pre.rels()[i].strength >= 1);
        }
    }
    if pre.relations_sound() {
        assert forall|i: int| 0 <= i < post.rels().len() implies post.has_entity(
            (#[trigger] post.rels()[i]).from,
        ) && post.has_entity(post.rels()[i].to) by {
            if i < n {
                assert(pre.has_entity(pre.rels()[i].from));
                assert(pre.has_entity(pre.rels()[i].to));
            }
        }
    }
}

/// Appending a fresh memory row keeps the store well-formed and sound.
pub proof fn lemma_wf_after_memory_push(pre: Store, post: Store)
    requires
        pre.wf(),
        pre.next_memory_id < i64::MAX,
        post.mems().len() == pre.mems().len() + 1,
        forall|j: int| 0 <= j < pre.mems().len() ==> post.mems()[j] == pre.mems()[j],
        post.mems()[pre.mems().len() as int].id == pre.next_memory_id as int,
        post.mems()[pre.mems().len() as int].md_file_path is Some ==> forall|j: int|
            0 <= j < pre.mems().len() ==> !((#[trigger] pre.mems()[j]).md_file_path is Some
                && pre.mems()[j].md_file_path->0 == post.mems()[pre.mems().len() as int].md_file_path->0),
        post.ents() == pre.ents(),
        post.als() == pre.als(),
        post.rels() == pre.rels(),
        post.lnks() == pre.lnks(),
        post.next_entity_id == pre.next_entity_id,
        post.next_alias_id == pre.next_alias_id,
        post.next_relation_id == pre.next_relation_id,
        post.next_memory_id as int == pre.next_memory_id as int + 1,
    ensures
        post.wf(),
        forall|id: int|
            post.has_memory(id) <==> (pre.has_memory(id) || id == pre.next_memory_id as int),
        pre.aliases_sound() ==> post.aliases_sound(),
        pre.links_sound() ==> post.links_sound(),
        pre.relations_sound() ==> post.relations_sound(),
        pre.entities_linked() ==> post.entities_linked(),
{
    let n = pre.mems().len() as int;
    assert forall|id: int|
        post.has_memory(id) <==> (pre.has_memory(id) || id == pre.next_memory_id as int) by {
        if pre.has_memory(id) {
            let i = pre.memory_ix(id);
            assert(post.mems()[i].id == id);
        }
        if id == pre.next_memory_id as int {
            assert(post.mems()[n].id == id);
        }
        if post.has_memory(id) {
            let i = post.memory_ix(id);
            if i < n {
                assert(pre.mems()[i].id == id);
            }
        }
    }
    assert forall|i: int, j: int| 0 <= i < j < post.mems().len() implies #[trigger] post.mems()[i].id
        != #[trigger] post.mems()[j].id by {
        if j < n {
            assert(pre.mems()[i].id != pre.mems()[j].id);
        } else {
            assert(pre.mems()[i].id < pre.next_memory_id as int);
        }
    }
    assert forall|i: int, j: int| 0 <= i < j < post.mems().len() implies !(#[trigger] post.mems()[i].md_file_path
        is Some && #[trigger] post.mems()[j].md_file_path is Some && post.mems()[i].md_file_path->0
        == post.mems()[j].md_file_path->0) by {
        if j < n {
            assert(!(pre.mems()[i].md_file_path is Some && pre.mems()[j].md_file_path is Some
                && pre.mems()[i].md_file_path->0 == pre.mems()[j].md_file_path->0));
        } else {
            if post.mems()[j].md_file_path is Some && i < n {
                assert(!((pre.mems()[i]).md_file_path is Some && pre.mems()[i].md_file_path->0
                    == post.mems()[n].md_file_path->0));
            }
        }
    }
    assert forall|i: int| 0 <= i < post.mems().len() implies 1 <= #[trigger] post.mems()[i].id
        < post.next_memory_id as int by {
        if i < n {
            assert(1 <= pre.mems()[i].id < pre.next_memory_id as int);
        }
    }
    if pre.links_sound() {
        assert forall|i: int| 0 <= i < post.lnks().len() implies post.has_memory(
            (#[trigger] post.lnks()[i]).memory_id,
        ) && post.has_entity(post.lnks()[i].entity_id) by {
            assert(pre.lnks()[i] == post.lnks()[i]);
            assert(pre.has_memory(pre.lnks()[i].memory_id));
            assert(pre.has_entity(pre.lnks()[i].entity_id));
        }
    }
}

/// Appending a link between an existing memory and entity keeps the store
/// well-formed and sound.
pub proof fn lemma_wf_after_link_push(pre: Store, post: Store, memory_id: int, entity_id: int)
    requires
        pre.wf(),
        pre.has_memory(memory_id),
        pre.has_entity(entity_id),
        !pre.has_link(memory_id, entity_id),
        post.lnks().len() == pre.lnks().len() + 1,
        forall|j: int| 0 <= j < pre.lnks().len() ==> post.lnks()[j] == pre.lnks()[j],
        post.lnks()[pre.lnks().len() as int].memory_id == memory_id,
        post.lnks()[pre.lnks().len() as int].entity_id == entity_id,
        post.ents() == pre.ents(),
        post.als() == pre.als(),
        post.rels() == pre.rels(),
        post.mems() == pre.mems(),
        post.next_entity_id == pre.next_entity_id,
        post.next_alias_id == pre.next_alias_id,
        post.next_relation_id == pre.next_relation_id,
        post.next_memory_id == pre.next_memory_id,
    ensures
        post.wf(),
        pre.aliases_sound() ==> post.aliases_sound(),
        pre.links_sound() ==> post.links_sound(),
        pre.relations_sound() ==> post.relations_sound(),
        forall|id: int| pre.entity_is_linked(id) ==> post.entity_is_linked(id),
        post.entity_is_linked(entity_id),
{
    let n = pre.lnks().len() as int;
    assert(forall|j: int|
        0 <= j < n ==> !((#[trigger] pre.lnks()[j]).memory_id == memory_id
            && pre.lnks()[j].entity_id == entity_id));
    assert forall|i: int, j: int| 0 <= i < j < post.lnks().len() implies !(#[trigger] post.lnks()[i].memory_id
        == #[trigger] post.lnks()[j].memory_id && post.lnks()[i].entity_id
        == post.lnks()[j].entity_id) by {
        if j < n {
            assert(!(pre.lnks()[i].memory_id == pre.lnks()[j].memory_id
                && pre.lnks()[i].entity_id == pre.lnks()[j].entity_id));
        } else {
            assert(!((pre.lnks()[i]).memory_id == memory_id && pre.lnks()[i].entity_id
                == entity_id));
        }
    }
    if pre.links_sound() {
        assert forall|i: int| 0 <= i < post.lnks().len() implies post.has_memory(
            (#[trigger] post.lnks()[i]).memory_id,
        ) && post.has_entity(post.lnks()[i].entity_id) by {
            if i < n {
                assert(pre.has_memory(pre.lnks()[i].memory_id));
                assert(pre.has_entity(pre.lnks()[i].entity_id));
            }
        }
    }
    assert forall|id: int| pre.entity_is_linked(id) implies post.entity_is_linked(id) by {
        let i = choose|i: int|
            0 <= i < pre.lnks().len() && #[trigger] pre.lnks()[i].entity_id == id;
        assert(post.lnks()[i].entity_id == id);
    }
    assert(post.lnks()[n].entity_id == entity_id);
}

/// An in-place memory update that keeps id and path keeps the store
/// well-formed and sound.
pub proof fn lemma_wf_after_memory_update(pre: Store, post: Store, ix: int)
    requires
        pre.wf(),
        0 <= ix < pre.mems().len(),
        post.mems().len() == pre.mems().len(),
        post.mems()[ix].id == pre.mems()[ix].id,
        post.mems()[ix].md_file_path == pre.mems()[ix].md_file_path,
        forall|j: int| 0 <= j < pre.mems().len() && j != ix ==> post.mems()[j] == pre.mems()[j],
        post.ents() == pre.ents(),
        post.als() == pre.als(),
        post.rels() == pre.rels(),
        post.lnks() == pre.lnks(),
        post.next_entity_id == pre.next_entity_id,
        post.next_alias_id == pre.next_alias_id,
        post.next_relation_id == pre.next_relation_id,
        post.next_memory_id == pre.next_memory_id,
    ensures
        post.wf(),
        forall|id: int| post.has_memory(id) <==> pre.has_memory(id),
        pre.aliases_sound() ==> post.aliases_sound(),
        pre.links_sound() ==> post.links_sound(),
        pre.relations_sound() ==> post.relations_sound(),
        pre.entities_linked() ==> post.entities_linked(),
{
    assert(forall|j: int|
        0 <= j < post.mems().len() ==> (#[trigger] post.mems()[j]).id == pre.mems()[j].id
            && post.mems()[j].md_file_path == pre.mems()[j].md_file_path);
    assert forall|id: int| post.has_memory(id) <==> pre.has_memory(id) by {
        if pre.has_memory(id) {
            let i = pre.memory_ix(id);
            assert(post.mems()[i].id == id);
        }
        if post.has_memory(id) {
            let i = post.memory_ix(id);
            assert(pre.mems()[i].id == id);
        }
    }
    if pre.links_sound() {
        assert forall|i: int| 0 <= i < post.lnks().len() implies post.has_memory(
            (#[trigger] post.lnks()[i]).memory_id,
        ) && post.has_entity(post.lnks()[i].entity_id) by {
            assert(pre.has_memory(pre.lnks()[i].memory_id));
            assert(pre.has_entity(pre.lnks()[i].entity_id));
        }
    }
}

/// The view of a link vector.
pub open spec fn kept_view(s: Seq<MemoryEntity>) -> Seq<LinkV> {
    Seq::new(s.len(), |i: int| s[i]@)
}

/// `filter` over a sequence extended by one element.
pub proof fn lemma_filter_push<A>(s: Seq<A>, x: A, pred: spec_fn(A) -> bool)
    ensures
        s.push(x).filter(pred) == if pred(x) {
            s.filter(pred).push(x)
        } else {
            s.filter(pred)
        },
{
    reveal(Seq::filter);
    assert(s.push(x).drop_last() =~= s);
    assert(s.push(x).last() == x);
}

/// Replacing the link table by a subset keeps the store well-formed; link
/// and relation soundness carry over, and so does alias soundness.
pub proof fn lemma_wf_after_link_filter(pre: Store, post: Store, pred: spec_fn(LinkV) -> bool)
    requires
        pre.wf(),
        post.lnks() == pre.lnks().filter(pred),
        post.ents() == pre.ents(),
        post.als() == pre.als(),
        post.rels() == pre.rels(),
        post.mems() == pre.mems(),
        post.next_entity_id == pre.next_entity_id,
        post.next_alias_id == pre.next_alias_id,
        post.next_relation_id == pre.next_relation_id,
        post.next_memory_id == pre.next_memory_id,
    ensures
        post.wf(),
        pre.aliases_sound() ==> post.aliases_sound(),
        pre.links_sound() ==> post.links_sound(),
        pre.relations_sound() ==> post.relations_sound(),
        forall|i: int|
            0 <= i < post.lnks().len() ==> pre.lnks().contains(#[trigger] post.lnks()[i]),
{
    assert forall|i: int, j: int| 0 <= i < j < post.lnks().len() implies !(#[trigger] post.lnks()[i].memory_id
        == #[trigger] post.lnks()[j].memory_id && post.lnks()[i].entity_id
        == post.lnks()[j].entity_id) by {
        lemma_filter_is_subsequence(pre.lnks(), pred, i, j);
    }
    assert forall|i: int| 0 <= i < post.lnks().len() implies pre.lnks().contains(
        #[trigger] post.lnks()[i],
    ) by {
        let p = lemma_filter_element_origin(pre.lnks(), pred, i);
        assert(pre.lnks()[p] == post.lnks()[i]);
    }
    if pre.links_sound() {
        assert forall|i: int| 0 <= i < post.lnks().len() implies post.has_memory(
            (#[trigger] post.lnks()[i]).memory_id,
        ) && post.has_entity(post.lnks()[i].entity_id) by {
            let p = lemma_filter_element_origin(pre.lnks(), pred, i);
            assert(pre.has_memory(pre.lnks()[p].memory_id));
            assert(pre.has_entity(pre.lnks()[p].entity_id));
        }
    }
}

/// Two distinct positions of a filtered sequence come from two distinct
/// positions of the original, in order.
pub proof fn lemma_filter_is_subsequence<A>(s: Seq<A>, pred: spec_fn(A) -> bool, i: int, j: int)
    requires
        0 <= i < j < s.filter(pred).len(),
    ensures
        exists|p: int, q: int|
            0 <= p < q < s.len() && s[p] == #[trigger] s.filter(pred)[i] && s[q] == s.filter(pred)[j],
    decreases s.len(),
{
    reveal(Seq::filter);
    if s.len() > 0 {
        let rest = s.drop_last();
        if pred(s.last()) {
            if j == s.filter(pred).len() - 1 {
                // last filtered element is the last of s; i comes from rest
                assert(s.filter(pred) == rest.filter(pred).push(s.last()));
                assert(s.filter(pred)[j] == s.last());
                let p = lemma_filter_element_origin(rest, pred, i);
                assert(s[p] == rest.filter(pred)[i]);
                assert(rest.filter(pred)[i] == s.filter(pred)[i]);
                assert(s[s.len() - 1] == s.last());
                assert(0 <= p < s.len() - 1 < s.len());
            } else {
                assert(s.filter(pred) == rest.filter(pred).push(s.last()));
                assert(s.filter(pred)[i] == rest.filter(pred)[i]);
                assert(s.filter(pred)[j] == rest.filter(pred)[j]);
                lemma_filter_is_subsequence(rest, pred, i, j);
                let (p, q): (int, int) = choose|p: int, q: int|
                    0 <= p < q < rest.len() && rest[p] == #[trigger] rest.filter(pred)[i]
                        && rest[q] == rest.filter(pred)[j];
                assert(s[p] == rest[p] && s[q] == rest[q]);
            }
        } else {
            assert(s.filter(pred) == rest.filter(pred));
            lemma_filter_is_subsequence(rest, pred, i, j);
            let (p, q): (int, int) = choose|p: int, q: int|
                0 <= p < q < rest.len() && rest[p] == #[trigger] rest.filter(pred)[i] && rest[q]
                    == rest.filter(pred)[j];
            assert(s[p] == rest[p] && s[q] == rest[q]);
        }
    }
}

/// Every element of a filtered sequence sits at some position of the
/// original sequence.
pub proof fn lemma_filter_element_origin<A>(s: Seq<A>, pred: spec_fn(A) -> bool, i: int) -> (p: int)
    requires
        0 <= i < s.filter(pred).len(),
    ensures
        0 <= p < s.len(),
        s[p] == s.filter(pred)[i],
    decreases s.len(),
{
    reveal(Seq::filter);
    if s.len() == 0 {
        0
    } else {
        let rest = s.drop_last();
        if pred(s.last()) {
            assert(s.filter(pred) == rest.filter(pred).push(s.last()));
            if i == s.filter(pred).len() - 1 {
                assert(s[s.len() - 1] == s.filter(pred)[i]);
                s.len() - 1
            } else {
                let p = lemma_filter_element_origin(rest, pred, i);
                assert(s[p] == rest[p]);
                p
            }
        } else {
            assert(s.filter(pred) == rest.filter(pred));
            let p = lemma_filter_element_origin(rest, pred, i);
            assert(s[p] == rest[p]);
            p
        }
    }
}

/// The views of whole rows of the remaining tables.
pub open spec fn rels_view(s: Seq<Relation>) -> Seq<RelationV> {
    Seq::new(s.len(), |i: int| s[i]@)
}

pub open spec fn ents_view(s: Seq<Entity>) -> Seq<EntityV> {
    Seq::new(s.len(), |i: int| s[i]@)
}

pub open spec fn als_view(s: Seq<AliasEntry>) -> Seq<AliasV> {
    Seq::new(s.len(), |i: int| s[i]@)
}

pub open spec fn mems_view(s: Seq<Memory>) -> Seq<MemoryV> {
    Seq::new(s.len(), |i: int| s[i]@)
}

/// A filter keeps everything when the predicate holds everywhere.
pub proof fn lemma_filter_all_true<A>(s: Seq<A>, pred: spec_fn(A) -> bool)
    requires
        forall|i: int| 0 <= i < s.len() ==> pred(#[trigger] s[i]),
    ensures
        s.filter(pred) == s,
    decreases s.len(),
{
    reveal(Seq::filter);
    if s.len() > 0 {
        let rest = s.drop_last();
        assert(forall|i: int| 0 <= i < rest.len() ==> rest[i] == s[i]);
        lemma_filter_all_true(rest, pred);
        assert(s.filter(pred) =~= s);
    }
}

/// Filtering twice is filtering by the conjunction; stated for the case
/// where the conjunction is a single given predicate.
pub proof fn lemma_filter_compose<A>(
    s: Seq<A>,
    p: spec_fn(A) -> bool,
    q: spec_fn(A) -> bool,
    both: spec_fn(A) -> bool,
)
    requires
        forall|x: A| #[trigger] both(x) == (p(x) && q(x)),
    ensures
        s.filter(p).filter(q) == s.filter(both),
    decreases s.len(),
{
    reveal(Seq::filter);
    if s.len() > 0 {
        let rest = s.drop_last();
        lemma_filter_compose(rest, p, q, both);
        if p(s.last()) {
            lemma_filter_push(rest.filter(p), s.last(), q);
        }
    }
}

/// Membership in an entity table filtered by link status.
pub proof fn lemma_filtered_entity_membership(pre: Store, post: Store, id: int)
    requires
        pre.wf(),
        post.ents() == pre.ents().filter(|e: EntityV| pre.entity_is_linked(e.id)),
    ensures
        post.has_entity(id) <==> (pre.has_entity(id) && pre.entity_is_linked(id)),
{
    broadcast use vstd::seq_lib::group_filter_ensures;

    let epred = |e: EntityV| pre.entity_is_linked(e.id);
    if post.has_entity(id) {
        let i = post.entity_ix(id);
        let p = lemma_filter_element_origin(pre.ents(), epred, i);
        assert(pre.ents()[p].id == id);
        assert(epred(pre.ents()[p]));
    }
    if pre.has_entity(id) && pre.entity_is_linked(id) {
        let i = pre.entity_ix(id);
        assert(epred(pre.ents()[i]));
        assert(pre.ents().filter(epred).contains(pre.ents()[i]));
        let j = choose|j: int|
            0 <= j < post.ents().len() && #[trigger] post.ents()[j] == pre.ents()[i];
        assert(post.ents()[j].id == id);
    }
}

/// Replacing each table by a subsequence of itself keeps the store
/// well-formed.
pub proof fn lemma_wf_after_table_filters(pre: Store, post: Store)
    requires
        pre.wf(),
        (exists|p: spec_fn(EntityV) -> bool| post.ents() == pre.ents().filter(p)) || post.ents()
            == pre.ents(),
        (exists|p: spec_fn(AliasV) -> bool| post.als() == pre.als().filter(p)) || post.als()
            == pre.als(),
        (exists|p: spec_fn(RelationV) -> bool| post.rels() == pre.rels().filter(p)) || post.rels()
            == pre.rels(),
        (exists|p: spec_fn(MemoryV) -> bool| post.mems() == pre.mems().filter(p)) || post.mems()
            == pre.mems(),
        (exists|p: spec_fn(LinkV) -> bool| post.lnks() == pre.lnks().filter(p)) || post.lnks()
            == pre.lnks(),
        post.next_entity_id == pre.next_entity_id,
        post.next_alias_id == pre.next_alias_id,
        post.next_relation_id == pre.next_relation_id,
        post.next_memory_id == pre.next_memory_id,
    ensures
        post.wf(),
{
    lemma_wf_of_subseq_tables(pre, post);
}

/// The underlying argument: every pairwise-uniqueness and bound conjunct of
/// `wf` holds of any subsequence of each table.
proof fn lemma_wf_of_subseq_tables(pre: Store, post: Store)
    requires
        pre.wf(),
        (exists|p: spec_fn(EntityV) -> bool| post.ents() == pre.ents().filter(p)) || post.ents()
            == pre.ents(),
        (exists|p: spec_fn(AliasV) -> bool| post.als() == pre.als().filter(p)) || post.als()
            == pre.als(),
        (exists|p: spec_fn(RelationV) -> bool| post.rels() == pre.rels().filter(p)) || post.rels()
            == pre.rels(),
        (exists|p: spec_fn(MemoryV) -> bool| post.mems() == pre.mems().filter(p)) || post.mems()
            == pre.mems(),
        (exists|p: spec_fn(LinkV) -> bool| post.lnks() == pre.lnks().filter(p)) || post.lnks()
            == pre.lnks(),
        post.next_entity_id == pre.next_entity_id,
        post.next_alias_id == pre.next_alias_id,
        post.next_relation_id == pre.next_relation_id,
        post.next_memory_id == pre.next_memory_id,
    ensures
        post.wf(),
{
    if exists|p: spec_fn(EntityV) -> bool| post.ents() == pre.ents().filter(p) {
        let p = choose|p: spec_fn(EntityV) -> bool| post.ents() == pre.ents().filter(p);
        assert forall|i: int| 0 <= i < post.ents().len() implies 1 <= (#[trigger] post.ents()[i]).id
            < post.next_entity_id as int by {
            let o = lemma_filter_element_origin(pre.ents(), p, i);
        }
        assert forall|i: int, j: int| 0 <= i < j < post.ents().len() implies #[trigger] post.ents()[i].id
            != #[trigger] post.ents()[j].id && !(post.ents()[i].etype == post.ents()[j].etype
            && post.ents()[i].name == post.ents()[j].name) by {
            lemma_filter_is_subsequence(pre.ents(), p, i, j);
            let (a, b): (int, int) = choose|a: int, b: int|
                0 <= a < b < pre.ents().len() && pre.ents()[a] == #[trigger] pre.ents().filter(p)[i]
                    && pre.ents()[b] == pre.ents().filter(p)[j];
            assert(pre.ents()[a].id != pre.ents()[b].id);
            assert(!(pre.ents()[a].etype == pre.ents()[b].etype && pre.ents()[a].name
                == pre.ents()[b].name));
        }
    }
    if exists|p: spec_fn(AliasV) -> bool| post.als() == pre.als().filter(p) {
        let p = choose|p: spec_fn(AliasV) -> bool| post.als() == pre.als().filter(p);
        assert forall|i: int| 0 <= i < post.als().len() implies 1 <= (#[trigger] post.als()[i]).id
            < post.next_alias_id as int by {
            let o = lemma_filter_element_origin(pre.als(), p, i);
        }
        assert forall|i: int, j: int| 0 <= i < j < post.als().len() implies #[trigger] post.als()[i].id
            != #[trigger] post.als()[j].id && post.als()[i].alias != post.als()[j].alias by {
            lemma_filter_is_subsequence(pre.als(), p, i, j);
            let (a, b): (int, int) = choose|a: int, b: int|
                0 <= a < b < pre.als().len() && pre.als()[a] == #[trigger] pre.als().filter(p)[i]
                    && pre.als()[b] == pre.als().filter(p)[j];
            assert(pre.als()[a].id != pre.als()[b].id);
            assert(pre.als()[a].alias != pre.als()[b].alias);
        }
    }
    if exists|p: spec_fn(RelationV) -> bool| post.rels() == pre.rels().filter(p) {
        let p = choose|p: spec_fn(RelationV) -> bool| post.rels() == pre.rels().filter(p);
        assert forall|i: int| 0 <= i < post.rels().len() implies 1 <= (#[trigger] post.rels()[i]).id
            < post.next_relation_id as int && post.rels()[i].strength >= 1 by {
            let o = lemma_filter_element_origin(pre.rels(), p, i);
        }
        assert forall|i: int, j: int| 0 <= i < j < post.rels().len() implies #[trigger] post.rels()[i].id
            != #[trigger] post.rels()[j].id && !(post.rels()[i].from == post.rels()[j].from
            && post.rels()[i].to == post.rels()[j].to && post.rels()[i].rtype
            == post.rels()[j].rtype) by {
            lemma_filter_is_subsequence(pre.rels(), p, i, j);
            let (a, b): (int, int) = choose|a: int, b: int|
                0 <= a < b < pre.rels().len() && pre.rels()[a] == #[trigger] pre.rels().filter(
                    p,
                )[i] && pre.rels()[b] == pre.rels().filter(p)[j];
            assert(pre.rels()[a].id != pre.rels()[b].id);
            assert(!(pre.rels()[a].from == pre.rels()[b].from && pre.rels()[a].to
                == pre.rels()[b].to && pre.rels()[a].rtype == pre.rels()[b].rtype));
        }
    }
    if exists|p: spec_fn(MemoryV) -> bool| post.mems() == pre.mems().filter(p) {
        let p = choose|p: spec_fn(MemoryV) -> bool| post.mems() == pre.mems().filter(p);
        assert forall|i: int| 0 <= i < post.mems().len() implies 1 <= (#[trigger] post.mems()[i]).id
            < post.next_memory_id as int by {
            let o = lemma_filter_element_origin(pre.mems(), p, i);
        }
        assert forall|i: int, j: int| 0 <= i < j < post.mems().len() implies #[trigger] post.mems()[i].id
            != #[trigger] post.mems()[j].id && !(post.mems()[i].md_file_path is Some
            && post.mems()[j].md_file_path is Some && post.mems()[i].md_file_path->0
            == post.mems()[j].md_file_path->0) by {
            lemma_filter_is_subsequence(pre.mems(), p, i, j);
            let (a, b): (int, int) = choose|a: int, b: int|
                0 <= a < b < pre.mems().len() && pre.mems()[a] == #[trigger] pre.mems().filter(
                    p,
                )[i] && pre.mems()[b] == pre.mems().filter(p)[j];
            assert(pre.mems()[a].id != pre.mems()[b].id);
            assert(!(pre.mems()[a].md_file_path is Some && pre.mems()[b].md_file_path is Some
                && pre.mems()[a].md_file_path->0 == pre.mems()[b].md_file_path->0));
        }
    }
    if exists|p: spec_fn(LinkV) -> bool| post.lnks() == pre.lnks().filter(p) {
        let p = choose|p: spec_fn(LinkV) -> bool| post.lnks() == pre.lnks().filter(p);
        assert forall|i: int, j: int| 0 <= i < j < post.lnks().len() implies !(#[trigger] post.lnks()[i].memory_id
            == #[trigger] post.lnks()[j].memory_id && post.lnks()[i].entity_id
            == post.lnks()[j].entity_id) by {
            lemma_filter_is_subsequence(pre.lnks(), p, i, j);
            let (a, b): (int, int) = choose|a: int, b: int|
                0 <= a < b < pre.lnks().len() && pre.lnks()[a] == #[trigger] pre.lnks().filter(
                    p,
                )[i] && pre.lnks()[b] == pre.lnks().filter(p)[j];
            assert(!(pre.lnks()[a].memory_id == pre.lnks()[b].memory_id
                && pre.lnks()[a].entity_id == pre.lnks()[b].entity_id));
        }
    }
}

/// Pointwise-equal predicates filter a sequence identically.
pub proof fn lemma_filter_ext<A>(s: Seq<A>, p: spec_fn(A) -> bool, q: spec_fn(A) -> bool)
    requires
        forall|x: A| #[trigger] p(x) == q(x),
    ensures
        s.filter(p) == s.filter(q),
    decreases s.len(),
{
    reveal(Seq::filter);
    if s.len() > 0 {
        lemma_filter_ext(s.drop_last(), p, q);
    }
}

/// A node of the exported graph; the id is the entity id in decimal.
pub struct GraphNode {
    pub id: String,
    pub name: String,
    pub node_type: String,
    pub attributes: Option<Attributes>,
}

/// Spec-level value of an exported node.
#[verifier::ext_equal]
pub struct NodeV {
    pub id: Seq<char>,
    pub name: Seq<char>,
    pub ntype: Seq<char>,
    pub attrs: AttrsView,
}

impl View for GraphNode {
    type V = NodeV;

    open spec fn view(&self) -> NodeV {
        NodeV {
            id: self.id@,
            name: self.name@,
            ntype: self.node_type@,
            attrs: attrs_view(self.attributes),
        }
    }
}

/// An edge of the exported graph, between two node ids in decimal.
pub struct GraphLink {
    pub source: String,
    pub target: String,
    pub relation: String,
    pub strength: i32,
}

/// Spec-level value of an exported edge.
#[verifier::ext_equal]
pub struct GlinkV {
    pub source: Seq<char>,
    pub target: Seq<char>,
    pub relation: Seq<char>,
    pub strength: int,
}

impl View for GraphLink {
    type V = GlinkV;

    open spec fn view(&self) -> GlinkV {
        GlinkV {
            source: self.source@,
            target: self.target@,
            relation: self.relation@,
            strength: self.strength as int,
        }
    }
}

/// The exported graph: nodes plus edges whose endpoints both exist.
pub struct GraphData {
    pub nodes: Vec<GraphNode>,
    pub links: Vec<GraphLink>,
}

pub open spec fn nodes_view(s: Seq<GraphNode>) -> Seq<NodeV> {
    Seq::new(s.len(), |i: int| s[i]@)
}

pub open spec fn glinks_view(s: Seq<GraphLink>) -> Seq<GlinkV> {
    Seq::new(s.len(), |i: int| s[i]@)
}

/// A decimal digit string: nonempty, digits only, no leading zero.
pub open spec fn is_decimal(s: Seq<char>) -> bool {
    s.len() >= 1 && crate::text::all_digits(s) && (s.len() > 1 ==> s[0] != '0')
}

/// An exported node presents exactly this entity row.
pub open spec fn node_matches(n: NodeV, e: EntityV) -> bool {
    &&& is_decimal(n.id)
    &&& crate::text::digits_val(n.id) == e.id
    &&& n.name == e.name
    &&& n.ntype == e.etype
    &&& n.attrs == e.attrs
}

/// An exported edge presents exactly this relation row.
pub open spec fn glink_matches(g: GlinkV, r: RelationV) -> bool {
    &&& is_decimal(g.source)
    &&& crate::text::digits_val(g.source) == r.from
    &&& is_decimal(g.target)
    &&& crate::text::digits_val(g.target) == r.to
    &&& g.relation == r.rtype
    &&& g.strength == r.strength
}

/// Endpoint substitution used by entity merging.
pub open spec fn subst_id(x: int, source: int, target: int) -> int {
    if x == source {
        target
    } else {
        x
    }
}

/// What the chosen triple index satisfies when the triple exists.
pub proof fn lemma_triple_ix_props(s: Store, from: int, to: int, rtype: Seq<char>)
    requires
        s.has_triple(from, to, rtype),
    ensures
        0 <= s.triple_ix(from, to, rtype) < s.rels().len(),
        s.rels()[s.triple_ix(from, to, rtype)].from == from,
        s.rels()[s.triple_ix(from, to, rtype)].to == to,
        s.rels()[s.triple_ix(from, to, rtype)].rtype == rtype,
{
}

/// Listing order of entities: by type, then name.
pub open spec fn ent_le(a: EntityV, b: EntityV) -> bool {
    if a.etype == b.etype {
        crate::text::lex_le(a.name, b.name)
    } else {
        crate::text::lex_le(a.etype, b.etype) && a.etype != b.etype
    }
}

/// Listing order of memories: most recent first, by creation stamp.
pub open spec fn mem_ge(a: MemoryV, b: MemoryV) -> bool {
    crate::text::lex_le(b.created_at, a.created_at)
}

pub proof fn lemma_ent_le_total(a: EntityV, b: EntityV)
    ensures
        ent_le(a, b) || ent_le(b, a),
{
    crate::text::lemma_lex_le_total(a.etype, b.etype);
    if a.etype == b.etype {
        crate::text::lemma_lex_le_total(a.name, b.name);
    }
}

pub proof fn lemma_ent_le_trans(a: EntityV, b: EntityV, c: EntityV)
    requires
        ent_le(a, b),
        ent_le(b, c),
    ensures
        ent_le(a, c),
{
    crate::text::lemma_lex_le_total(a.etype, b.etype);
    crate::text::lemma_lex_le_total(b.etype, c.etype);
    if a.etype == b.etype && b.etype == c.etype {
        crate::text::lemma_lex_le_trans(a.name, b.name, c.name);
    } else {
        crate::text::lemma_lex_le_trans(a.etype, b.etype, c.etype);
        crate::text::lemma_lex_le_total(a.etype, c.etype);
    }
}

pub proof fn lemma_mem_ge_total(a: MemoryV, b: MemoryV)
    ensures
        mem_ge(a, b) || mem_ge(b, a),
{
    crate::text::lemma_lex_le_total(a.created_at, b.created_at);
}

pub proof fn lemma_mem_ge_trans(a: MemoryV, b: MemoryV, c: MemoryV)
    requires
        mem_ge(a, b),
        mem_ge(b, c),
    ensures
        mem_ge(a, c),
{
    crate::text::lemma_lex_le_trans(c.created_at, b.created_at, a.created_at);
}

/// Insertion sort of memory rows, most recent first; a stable sort, so rows
/// with equal stamps keep their relative order.
pub fn sort_memories_desc(v: Vec<Memory>) -> (r: Vec<Memory>)
    ensures
        mems_view(r@).to_multiset() == mems_view(v@).to_multiset(),
        forall|i: int, j: int|
            0 <= i < j < r@.len() ==> mem_ge(#[trigger] mems_view(r@)[i], #[trigger] mems_view(
                r@,
            )[j]),
{
    broadcast use vstd::seq_lib::group_to_multiset_ensures;
    broadcast use vstd::seq_lib::to_multiset_insert;

    let mut out: Vec<Memory> = Vec::new();
    let mut i: usize = 0;
    proof {
        assert(mems_view(v@.subrange(0, 0)).to_multiset() =~= mems_view(
            out@,
        ).to_multiset());
    }
    while i < v.len()
        invariant
            i <= v@.len(),
            mems_view(out@).to_multiset() == mems_view(v@.subrange(0, i as int)).to_multiset(),
            forall|p: int, q: int|
                0 <= p < q < out@.len() ==> mem_ge(#[trigger] mems_view(out@)[p], #[trigger] mems_view(
                    out@,
                )[q]),
        decreases v@.len() - i,
    {
        let key = copy_memory(&v[i]);
        let key_stamp = crate::text::chars_vec(key.created_at.as_str());
        let p = memory_insert_pos(&out, &key_stamp);
        proof {
            if p < out@.len() {
                crate::text::lemma_lex_le_total(key@.created_at, mems_view(out@)[p as int].created_at);
            }
        }
        let ghost pre_out = out@;
        let ghost keyv = key@;
        out.insert(p, key);
        proof {
            assert(mems_view(out@) =~= mems_view(pre_out).insert(p as int, keyv));
            vstd::seq_lib::to_multiset_insert(mems_view(pre_out), p as int, keyv);
            assert(mems_view(out@).to_multiset() == mems_view(pre_out).to_multiset().insert(keyv));
            assert(mems_view(v@.subrange(0, i + 1)) =~= mems_view(v@.subrange(0, i as int)).push(
                v@[i as int]@,
            ));
            assert(v@[i as int]@ == keyv);
            mems_view(v@.subrange(0, i as int)).to_multiset_ensures();
            assert(mems_view(v@.subrange(0, i as int)).push(keyv).to_multiset() =~= mems_view(
                v@.subrange(0, i as int),
            ).to_multiset().insert(keyv));
            assert forall|a: int, b: int| 0 <= a < b < out@.len() implies mem_ge(
                #[trigger] mems_view(out@)[a],
                #[trigger] mems_view(out@)[b],
            ) by {
                let mv = mems_view(out@);
                let old_mv = mems_view(pre_out);
                if a < p && b == p {
                    assert(mv[a] == old_mv[a]);
                    assert(mem_ge(mv[a], keyv));
                } else if a == p && b > p {
                    assert(mv[b] == old_mv[b - 1]);
                    if b - 1 == p {
                        assert(mem_ge(keyv, old_mv[p as int]));
                    } else {
                        assert(mem_ge(old_mv[p as int], old_mv[b - 1]));
                        assert(mem_ge(keyv, old_mv[p as int]));
                        lemma_mem_ge_trans(keyv, old_mv[p as int], old_mv[b - 1]);
                    }
                } else if b < p {
                    assert(mv[a] == old_mv[a] && mv[b] == old_mv[b]);
                } else if a > p {
                    assert(mv[a] == old_mv[a - 1] && mv[b] == old_mv[b - 1]);
                } else if a < p && b > p {
                    assert(mv[a] == old_mv[a] && mv[b] == old_mv[b - 1]);
                    if b - 1 == p {
                        assert(mem_ge(mv[a], keyv));
                        assert(mem_ge(keyv, old_mv[p as int]));
                    } else {
                        assert(mem_ge(old_mv[a], old_mv[b - 1]));
                    }
                }
            }
        }
        i = i + 1;
    }
    proof {
        assert(v@.subrange(0, v@.len() as int) =~= v@);
    }
    out
}

/// First position whose creation stamp is strictly older than the key.
fn memory_insert_pos(out: &Vec<Memory>, key: &Vec<char>) -> (p: usize)
    ensures
        p <= out@.len(),
        forall|k: int|
            0 <= k < p ==> crate::text::lex_le(
                key@,
                (#[trigger] mems_view(out@)[k]).created_at,
            ),
        p < out@.len() ==> !crate::text::lex_le(key@, mems_view(out@)[p as int].created_at),
{
    let mut p: usize = 0;
    while p < out.len()
        invariant
            p <= out@.len(),
            forall|k: int|
                0 <= k < p ==> crate::text::lex_le(
                    key@,
                    (#[trigger] mems_view(out@)[k]).created_at,
                ),
        decreases out@.len() - p,
    {
        let cur = crate::text::chars_vec(out[p].created_at.as_str());
        if !crate::text::chars_le(key, &cur) {
            return p;
        }
        p = p + 1;
    }
    p
}

/// Insertion sort of entity rows by type, then name; stable.
pub fn sort_entities_asc(v: Vec<Entity>) -> (r: Vec<Entity>)
    ensures
        ents_view(r@).to_multiset() == ents_view(v@).to_multiset(),
        forall|i: int, j: int|
            0 <= i < j < r@.len() ==> ent_le(#[trigger] ents_view(r@)[i], #[trigger] ents_view(
                r@,
            )[j]),
{
    broadcast use vstd::seq_lib::group_to_multiset_ensures;
    broadcast use vstd::seq_lib::to_multiset_insert;

    let mut out: Vec<Entity> = Vec::new();
    let mut i: usize = 0;
    proof {
        assert(ents_view(v@.subrange(0, 0)).to_multiset() =~= ents_view(out@).to_multiset());
    }
    while i < v.len()
        invariant
            i <= v@.len(),
            ents_view(out@).to_multiset() == ents_view(v@.subrange(0, i as int)).to_multiset(),
            forall|p: int, q: int|
                0 <= p < q < out@.len() ==> ent_le(#[trigger] ents_view(out@)[p], #[trigger] ents_view(
                    out@,
                )[q]),
        decreases v@.len() - i,
    {
        let key = copy_entity(&v[i]);
        let mut p: usize = 0;
        while p < out.len() && ent_le_exec(&out[p], &key)
            invariant
                p <= out@.len(),
                forall|k: int|
                    0 <= k < p ==> ent_le((#[trigger] ents_view(out@)[k]), key@),
            decreases out@.len() - p,
        {
            p = p + 1;
        }
        proof {
            if p < out@.len() {
                lemma_ent_le_total(ents_view(out@)[p as int], key@);
            }
        }
        let ghost pre_out = out@;
        let ghost keyv = key@;
        out.insert(p, key);
        proof {
            assert(ents_view(out@) =~= ents_view(pre_out).insert(p as int, keyv));
            vstd::seq_lib::to_multiset_insert(ents_view(pre_out), p as int, keyv);
            assert(ents_view(out@).to_multiset() == ents_view(pre_out).to_multiset().insert(keyv));
            assert(ents_view(v@.subrange(0, i + 1)) =~= ents_view(v@.subrange(0, i as int)).push(
                v@[i as int]@,
            ));
            assert(v@[i as int]@ == keyv);
            ents_view(v@.subrange(0, i as int)).to_multiset_ensures();
            assert(ents_view(v@.subrange(0, i as int)).push(keyv).to_multiset() =~= ents_view(
                v@.subrange(0, i as int),
            ).to_multiset().insert(keyv));
            assert forall|a: int, b: int| 0 <= a < b < out@.len() implies ent_le(
                #[trigger] ents_view(out@)[a],
                #[trigger] ents_view(out@)[b],
            ) by {
                let mv = ents_view(out@);
                let old_mv = ents_view(pre_out);
                if a < p && b == p {
                    assert(mv[a] == old_mv[a]);
                    assert(ent_le(old_mv[a], keyv));
                } else if a == p && b > p {
                    assert(mv[b] == old_mv[b - 1]);
                    if b - 1 == p {
                        assert(ent_le(keyv, old_mv[p as int]));
                    } else {
                        assert(ent_le(old_mv[p as int], old_mv[b - 1]));
                        assert(ent_le(keyv, old_mv[p as int]));
                        lemma_ent_le_trans(keyv, old_mv[p as int], old_mv[b - 1]);
                    }
                } else if b < p {
                    assert(mv[a] == old_mv[a] && mv[b] == old_mv[b]);
                } else if a > p {
                    assert(mv[a] == old_mv[a - 1] && mv[b] == old_mv[b - 1]);
                } else if a < p && b > p {
                    assert(mv[a] == old_mv[a] && mv[b] == old_mv[b - 1]);
                    if b - 1 == p {
                        assert(ent_le(mv[a], keyv));
                        assert(ent_le(keyv, old_mv[p as int]));
                    } else {
                        assert(ent_le(old_mv[a], old_mv[b - 1]));
                    }
                }
            }
        }
        i = i + 1;
    }
    proof {
        assert(v@.subrange(0, v@.len() as int) =~= v@);
    }
    out
}

/// Decide the entity listing order on two rows.
fn ent_le_exec(a: &Entity, b: &Entity) -> (r: bool)
    ensures
        r == ent_le(a@, b@),
{
    if string_eq(&a.entity_type, &b.entity_type) {
        let na = crate::text::chars_vec(a.name.as_str());
        let nb = crate::text::chars_vec(b.name.as_str());
        crate::text::chars_le(&na, &nb)
    } else {
        let ta = crate::text::chars_vec(a.entity_type.as_str());
        let tb = crate::text::chars_vec(b.entity_type.as_str());
        crate::text::chars_le(&ta, &tb)
    }
}

/// The view of a vector of strings.
pub open spec fn strings_view(s: Seq<String>) -> Seq<Seq<char>> {
    Seq::new(s.len(), |i: int| s[i]@)
}

/// The view of a vector of row ids.
pub open spec fn ids_view(s: Seq<i64>) -> Seq<int> {
    Seq::new(s.len(), |i: int| s[i] as int)
}

/// Copy a whole store: equal tables and id sequences, so an edit can be
/// prepared aside and committed only when every step succeeds.
pub fn copy_store(s: &Store) -> (r: Store)
    ensures
        r.ents() == s.ents(),
        r.als() == s.als(),
        r.rels() == s.rels(),
        r.mems() == s.mems(),
        r.lnks() == s.lnks(),
        r.next_entity_id == s.next_entity_id,
        r.next_alias_id == s.next_alias_id,
        r.next_relation_id == s.next_relation_id,
        r.next_memory_id == s.next_memory_id,
        s.wf() ==> r.wf(),
        s.aliases_sound() ==> r.aliases_sound(),
        forall|x: int| r.has_memory(x) == s.has_memory(x),
        forall|x: int| r.has_entity(x) == s.has_entity(x),
{
    let mut entities: Vec<Entity> = Vec::new();
    let mut i: usize = 0;
    while i < s.entities.len()
        invariant
            i <= s.ents().len(),
            entities@.len() == i,
            ents_view(entities@) == s.ents().subrange(0, i as int),
        decreases s.ents().len() - i,
    {
        let ghost prev = entities@;
        entities.push(copy_entity(&s.entities[i]));
        i = i + 1;
        proof {
            assert forall|j: int| 0 <= j < i implies ents_view(entities@)[j] == s.ents().subrange(
                0,
                i as int,
            )[j] by {
                if j < i - 1 {
                    assert(entities@[j] == prev[j]);
                    assert(ents_view(prev)[j] == s.ents().subrange(0, i - 1)[j]);
                }
            }
            assert(ents_view(entities@) =~= s.ents().subrange(0, i as int));
        }
    }
    let mut aliases: Vec<AliasEntry> = Vec::new();
    let mut a: usize = 0;
    while a < s.aliases.len()
        invariant
            a <= s.als().len(),
            aliases@.len() == a,
            als_view(aliases@) == s.als().subrange(0, a as int),
        decreases s.als().len() - a,
    {
        let ghost prev = aliases@;
        let row = &s.aliases[a];
        aliases.push(
            AliasEntry {
                id: row.id,
                entity_id: row.entity_id,
                alias: row.alias.clone(),
                created_at: row.created_at.clone(),
            },
        );
        a = a + 1;
        proof {
            assert forall|j: int| 0 <= j < a implies als_view(aliases@)[j] == s.als().subrange(
                0,
                a as int,
            )[j] by {
                if j < a - 1 {
                    assert(aliases@[j] == prev[j]);
                    assert(als_view(prev)[j] == s.als().subrange(0, a - 1)[j]);
                }
            }
            assert(als_view(aliases@) =~= s.als().subrange(0, a as int));
        }
    }
    let mut relations: Vec<Relation> = Vec::new();
    let mut x: usize = 0;
    while x < s.relations.len()
        invariant
            x <= s.rels().len(),
            relations@.len() == x,
            rels_view(relations@) == s.rels().subrange(0, x as int),
        decreases s.rels().len() - x,
    {
        let ghost prev = relations@;
        relations.push(copy_relation(&s.relations[x]));
        x = x + 1;
        proof {
            assert forall|j: int| 0 <= j < x implies rels_view(relations@)[j] == s.rels().subrange(
                0,
                x as int,
            )[j] by {
                if j < x - 1 {
                    assert(relations@[j] == prev[j]);
                    assert(rels_view(prev)[j] == s.rels().subrange(0, x - 1)[j]);
                }
            }
            assert(rels_view(relations@) =~= s.rels().subrange(0, x as int));
        }
    }
    let mut memories: Vec<Memory> = Vec::new();
    let mut m: usize = 0;
    while m < s.memories.len()
        invariant
            m <= s.mems().len(),
            memories@.len() == m,
            mems_view(memories@) == s.mems().subrange(0, m as int),
        decreases s.mems().len() - m,
    {
        let ghost prev = memories@;
        memories.push(copy_memory(&s.memories[m]));
        m = m + 1;
        proof {
            assert forall|j: int| 0 <= j < m implies mems_view(memories@)[j] == s.mems().subrange(
                0,
                m as int,
            )[j] by {
                if j < m - 1 {
                    assert(memories@[j] == prev[j]);
                    assert(mems_view(prev)[j] == s.mems().subrange(0, m - 1)[j]);
                }
            }
            assert(mems_view(memories@) =~= s.mems().subrange(0, m as int));
        }
    }
    let mut links: Vec<MemoryEntity> = Vec::new();
    let mut l: usize = 0;
    while l < s.links.len()
        invariant
            l <= s.lnks().len(),
            links@.len() == l,
            kept_view(links@) == s.lnks().subrange(0, l as int),
        decreases s.lnks().len() - l,
    {
        links.push(
            MemoryEntity { memory_id: s.links[l].memory_id, entity_id: s.links[l].entity_id },
        );
        l = l + 1;
        proof {
            assert(kept_view(links@) =~= s.lnks().subrange(0, l as int));
        }
    }
    let r = Store {
        entities,
        aliases,
        relations,
        memories,
        links,
        next_entity_id: s.next_entity_id,
        next_alias_id: s.next_alias_id,
        next_relation_id: s.next_relation_id,
        next_memory_id: s.next_memory_id,
    };
    proof {
        assert(r.ents() =~= s.ents().subrange(0, s.ents().len() as int));
        assert(s.ents().subrange(0, s.ents().len() as int) =~= s.ents());
        assert(r.als() =~= s.als().subrange(0, s.als().len() as int));
        assert(s.als().subrange(0, s.als().len() as int) =~= s.als());
        assert(r.rels() =~= s.rels().subrange(0, s.rels().len() as int));
        assert(s.rels().subrange(0, s.rels().len() as int) =~= s.rels());
        assert(r.mems() =~= s.mems().subrange(0, s.mems().len() as int));
        assert(s.mems().subrange(0, s.mems().len() as int) =~= s.mems());
        assert(r.lnks() =~= s.lnks().subrange(0, s.lnks().len() as int));
        assert(s.lnks().subrange(0, s.lnks().len() as int) =~= s.lnks());
        assert forall|q: int| r.has_memory(q) == s.has_memory(q) by {
            if r.has_memory(q) {
                let w = r.memory_ix(q);
                assert(s.mems()[w].id == q);
            }
            if s.has_memory(q) {
                let w = s.memory_ix(q);
                assert(r.mems()[w].id == q);
            }
        }
        assert forall|q: int| r.has_entity(q) == s.has_entity(q) by {
            if r.has_entity(q) {
                let w = r.entity_ix(q);
                assert(s.ents()[w].id == q);
            }
            if s.has_entity(q) {
                let w = s.entity_ix(q);
                assert(r.ents()[w].id == q);
            }
        }
        if s.aliases_sound() {
            assert forall|q: int| 0 <= q < r.als().len() implies r.has_entity(
                (#[trigger] r.als()[q]).entity_id,
            ) && forall|j: int|
                0 <= j < r.ents().len() && #[trigger] r.ents()[j].name == r.als()[q].alias
                    ==> r.ents()[j].id == r.als()[q].entity_id by {
                assert(s.has_entity(s.als()[q].entity_id));
            }
        }
    }
    r
}

/// Copy an entity row.
pub fn copy_entity(e: &Entity) -> (r: Entity)
    ensures
        r@ == e@,
{
    let r = Entity {
        id: e.id,
        entity_type: e.entity_type.clone(),
        name: e.name.clone(),
        attributes: copy_attrs(&e.attributes),
        created_at: e.created_at.clone(),
        updated_at: e.updated_at.clone(),
    };
    proof {
        assert(r@ =~= e@);
    }
    r
}

/// Copy a memory row.
pub fn copy_memory(m: &Memory) -> (r: Memory)
    ensures
        r@ == m@,
{
    let r = Memory {
        id: m.id,
        content: m.content.clone(),
        md_file_path: match &m.md_file_path {
            Some(p) => Some(p.clone()),
            None => None,
        },
        created_at: m.created_at.clone(),
        tags: match &m.tags {
            Some(t) => Some(t.clone()),
            None => None,
        },
    };
    proof {
        assert(r@ =~= m@);
    }
    r
}

/// Copy a relation row.
pub fn copy_relation(x: &Relation) -> (r: Relation)
    ensures
        r@ == x@,
{
    let r = Relation {
        id: x.id,
        from_entity_id: x.from_entity_id,
        to_entity_id: x.to_entity_id,
        relation_type: x.relation_type.clone(),
        strength: x.strength,
        created_at: match &x.created_at {
            Some(c) => Some(c.clone()),
            None => None,
        },
    };
    proof {
        assert(r@ =~= x@);
    }
    r
}

} // verus!
