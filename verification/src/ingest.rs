//! Persisting extraction and fusion results into the store.
//!
//! The extraction step of the pipeline hands back entities and relations
//! named by plain strings (a fusion step adds alias pairs); this module
//! resolves those names through the store's exact-name-or-alias path,
//! creates what is missing, links everything to the saved note, folds
//! alias pairs into merges, and records the relations between resolved
//! names.

use vstd::prelude::*;

use crate::attrs::Attributes;
use crate::store::Store;
use crate::store::StoreError;
use crate::store::MemoryV;
use crate::text::string_eq;

verus! {

/// An entity as the extraction step reports it.
pub struct ExtractedEntity {
    pub entity_type: String,
    pub name: String,
    pub attributes: Option<Attributes>,
}

/// A relation between two entity names as the extraction step reports it.
pub struct ExtractedRelation {
    pub from: String,
    pub to: String,
    pub relation: String,
}

/// A whole extraction result.
pub struct ExtractedData {
    pub entities: Vec<ExtractedEntity>,
    pub relations: Vec<ExtractedRelation>,
}

/// An alias pair from the fusion step: `alias` names the same thing as
/// `primary`.
pub struct EntityAlias {
    pub primary: String,
    pub alias: String,
}

/// A whole fusion result.
pub struct FusedKnowledge {
    pub entities: Vec<ExtractedEntity>,
    pub aliases: Vec<EntityAlias>,
    pub relations: Vec<ExtractedRelation>,
}

/// First value bound to `key` in a name-to-id list.
pub open spec fn spec_assoc(s: Seq<(Seq<char>, int)>, key: Seq<char>) -> Option<int>
    decreases s.len(),
{
    if s.len() == 0 {
        None
    } else if s[0].0 == key {
        Some(s[0].1)
    } else {
        spec_assoc(s.skip(1), key)
    }
}

pub open spec fn assoc_view(s: Seq<(String, i64)>) -> Seq<(Seq<char>, int)> {
    Seq::new(s.len(), |i: int| (s[i].0@, s[i].1 as int))
}

/// Look a name up in the resolution list built so far.
fn assoc_lookup(s: &Vec<(String, i64)>, key: &String) -> (r: Option<i64>)
    ensures
        match r {
            Some(v) => spec_assoc(assoc_view(s@), key@) == Some(v as int),
            None => spec_assoc(assoc_view(s@), key@) is None,
        },
{
    proof {
        assert(assoc_view(s@).skip(0) =~= assoc_view(s@));
    }
    let mut i: usize = 0;
    while i < s.len()
        invariant
            i <= s@.len(),
            spec_assoc(assoc_view(s@), key@) == spec_assoc(
                assoc_view(s@).skip(i as int),
                key@,
            ),
        decreases s@.len() - i,
    {
        proof {
            assert(assoc_view(s@).skip(i as int)[0] == (s@[i as int].0@, s@[i as int].1 as int));
            assert(assoc_view(s@).skip(i as int).skip(1) =~= assoc_view(s@).skip(i + 1));
        }
        if string_eq(&s[i].0, key) {
            return Some(s[i].1);
        }
        i = i + 1;
    }
    None
}

/// Bind a name to an id, overwriting an earlier binding of the same name.
fn assoc_set(s: &mut Vec<(String, i64)>, key: &String, value: i64)
    ensures
        forall|k: Seq<char>|
            #[trigger] spec_assoc(assoc_view(final(s)@), k) == if k == key@ {
                Some(value as int)
            } else {
                spec_assoc(assoc_view(old(s)@), k)
            },
{
    let ghost pre = s@;
    let mut i: usize = 0;
    while i < s.len()
        invariant
            old(s)@ == pre,
            s@ == pre,
            i <= s@.len(),
            forall|j: int| 0 <= j < i ==> #[trigger] assoc_view(s@)[j].0 != key@,
        decreases s@.len() - i,
    {
        if string_eq(&s[i].0, key) {
            let ghost mid = s@;
            s.set(i, (key.clone(), value));
            proof {
                assert forall|k: Seq<char>|
                    #[trigger] spec_assoc(assoc_view(s@), k) == if k == key@ {
                        Some(value as int)
                    } else {
                        spec_assoc(assoc_view(pre), k)
                    } by {
                    lemma_assoc_update(assoc_view(pre), assoc_view(s@), i as int, key@,
                        value as int, k);
                }
            }
            return ;
        }
        proof {
            assert(assoc_view(s@)[i as int].0 == s@[i as int].0@);
        }
        i = i + 1;
    }
    let ghost mid = s@;
    s.push((key.clone(), value));
    proof {
        assert forall|k: Seq<char>|
            #[trigger] spec_assoc(assoc_view(s@), k) == if k == key@ {
                Some(value as int)
            } else {
                spec_assoc(assoc_view(pre), k)
            } by {
            assert(assoc_view(s@) =~= assoc_view(pre).push((key@, value as int)));
            lemma_assoc_append_missing(assoc_view(pre), key@, value as int, k);
        }
    }
}

/// Updating the first binding of a key rewrites lookups of that key alone.
proof fn lemma_assoc_update(
    pre: Seq<(Seq<char>, int)>,
    post: Seq<(Seq<char>, int)>,
    i: int,
    key: Seq<char>,
    value: int,
    k: Seq<char>,
)
    requires
        0 <= i < pre.len(),
        post.len() == pre.len(),
        post[i] == (key, value),
        forall|j: int| 0 <= j < pre.len() && j != i ==> post[j] == pre[j],
        forall|j: int| 0 <= j < i ==> #[trigger] pre[j].0 != key,
        pre[i].0 == key,
    ensures
        spec_assoc(post, k) == if k == key {
            Some(value)
        } else {
            spec_assoc(pre, k)
        },
    decreases pre.len(),
{
    if pre.len() > 0 {
        if i == 0 {
            assert(post.skip(1) =~= pre.skip(1));
            if k == key {
            } else {
                assert(pre[0].0 == key);
            }
        } else {
            assert(post[0] == pre[0]);
            if pre[0].0 == k {
            } else {
                assert(forall|j: int| 0 <= j < i - 1 ==> #[trigger] pre.skip(1)[j].0 != key);
                assert(pre.skip(1)[i - 1].0 == key);
                lemma_assoc_update(pre.skip(1), post.skip(1), i - 1, key, value, k);
            }
        }
    }
}

/// Appending a binding for an absent key rewrites lookups of that key alone.
proof fn lemma_assoc_append_missing(
    pre: Seq<(Seq<char>, int)>,
    key: Seq<char>,
    value: int,
    k: Seq<char>,
)
    requires
        forall|j: int| 0 <= j < pre.len() ==> #[trigger] pre[j].0 != key,
    ensures
        spec_assoc(pre.push((key, value)), k) == if k == key {
            Some(value)
        } else {
            spec_assoc(pre, k)
        },
    decreases pre.len(),
{
    let post = pre.push((key, value));
    assert(post.len() == pre.len() + 1);
    assert(spec_assoc(post, k) == if post[0].0 == k {
        Some(post[0].1)
    } else {
        spec_assoc(post.skip(1), k)
    });
    if pre.len() == 0 {
        assert(post[0] == (key, value));
        assert(post.skip(1) =~= Seq::<(Seq<char>, int)>::empty());
        assert(spec_assoc(post.skip(1), k) is None);
        assert(spec_assoc(pre, k) is None);
    } else {
        assert(post[0] == pre[0]);
        assert(post.skip(1) =~= pre.skip(1).push((key, value)));
        assert(forall|j: int| 0 <= j < pre.len() - 1 ==> #[trigger] pre.skip(1)[j].0 != key);
        lemma_assoc_append_missing(pre.skip(1), key, value, k);
        assert(spec_assoc(pre, k) == if pre[0].0 == k {
            Some(pre[0].1)
        } else {
            spec_assoc(pre.skip(1), k)
        });
        if pre[0].0 == k {
            assert(pre[0].0 != key);
        }
    }
}

/// Resolve-or-create every extracted entity, link it to the memory, fold
/// alias pairs into merges or alias rows, and record relations between
/// resolved names: the persistence phase shared by saving and editing.
///
/// Runs against the given store without a wrapping transaction; an error
/// leaves the rows already written in place (the caller decides whether
/// that store was the live one or a working copy). Success is owed
/// whenever the memory exists, every alias row points at a live entity,
/// no alias pairs ask for merges, and the entity id sequence has room for
/// the batch.
fn apply_knowledge(
    store: &mut Store,
    memory_id: i64,
    entities: &Vec<ExtractedEntity>,
    relations: &Vec<ExtractedRelation>,
    aliases: &Vec<EntityAlias>,
    now: &String,
) -> (r: Result<(), StoreError>)
    requires
        old(store).wf(),
    ensures
        final(store).wf(),
        final(store).mems() == old(store).mems(),
        final(store).next_memory_id == old(store).next_memory_id,
        old(store).aliases_sound() ==> final(store).aliases_sound(),
        old(store).aliases_sound() && aliases@.len() == 0 && old(store).has_memory(
            memory_id as int,
        ) && old(store).next_entity_id as int + entities@.len() <= i64::MAX as int ==> r is Ok,
        r matches Err(e) ==> e != StoreError::Conflict,
        r == Result::<(), StoreError>::Err(StoreError::NotFound) ==> !(old(store).aliases_sound()
            && old(store).has_memory(memory_id as int) && aliases@.len() == 0),
{
    let ghost base = *store;
    let mut name_to_id: Vec<(String, i64)> = Vec::new();
    let mut i: usize = 0;
    while i < entities.len()
        invariant
            store.wf(),
            store.mems() == old(store).mems(),
            store.next_memory_id == old(store).next_memory_id,
            base == *old(store),
            base.wf(),
            base.aliases_sound() ==> store.aliases_sound(),
            store.next_entity_id as int <= base.next_entity_id as int + i,
            i <= entities@.len(),
        decreases entities@.len() - i,
    {
        let ghost pre_iter = *store;
        let e = &entities[i];
        let entity_id = match store.find_entity_id_by_name_or_alias(&e.name) {
            Some(id) => id,
            None => {
                match store.upsert_entity(&e.entity_type, &e.name, &e.attributes, now) {
                    Ok(id) => id,
                    Err(er) => {
                        proof {
                            assert(*store == pre_iter);
                            assert(base == *old(store));
                            assert(old(store).aliases_sound() ==> base.aliases_sound());
                            if base.aliases_sound() {
                                assert(store.aliases_sound());
                            }
                            assert(old(store).aliases_sound() ==> store.aliases_sound());
                            assert(pre_iter.next_entity_id == i64::MAX);
                            assert(!(base.aliases_sound() && aliases@.len() == 0 && base.has_memory(
                                memory_id as int,
                            ) && base.next_entity_id as int + entities@.len()
                                <= i64::MAX as int));
                        }
                        return Err(er);
                    },
                }
            },
        };
        proof {
            if base.aliases_sound() && base.has_memory(memory_id as int) {
                // the resolved or created entity exists, and the memory does
                let w = base.memory_ix(memory_id as int);
                assert(store.mems()[w].id == memory_id as int);
                assert(store.has_memory(memory_id as int));
                if pre_iter.has_entity_name(e.name@) {
                    let q = choose|q: int|
                        0 <= q < pre_iter.ents().len() && #[trigger] pre_iter.ents()[q].name
                            == e.name@ && pre_iter.ents()[q].id == entity_id as int;
                    assert(pre_iter.has_entity(entity_id as int));
                } else if pre_iter.has_alias(e.name@) {
                    let q = choose|q: int|
                        0 <= q < pre_iter.als().len() && #[trigger] pre_iter.als()[q].alias
                            == e.name@ && pre_iter.als()[q].entity_id == entity_id as int;
                    assert(pre_iter.has_entity(entity_id as int));
                }
            }
        }
        match store.link_memory_entity(memory_id, entity_id) {
            Ok(_) => {},
            Err(er) => {
                proof {
                    assert(!(base.aliases_sound() && base.has_memory(memory_id as int)));
                }
                return Err(er);
            },
        }
        assoc_set(&mut name_to_id, &e.name, entity_id);
        i = i + 1;
    }
    let mut j: usize = 0;
    while j < aliases.len()
        invariant
            store.wf(),
            store.mems() == old(store).mems(),
            store.next_memory_id == old(store).next_memory_id,
            base == *old(store),
            base.aliases_sound() ==> store.aliases_sound(),
            j <= aliases@.len(),
        decreases aliases@.len() - j,
    {
        let pair = &aliases[j];
        let primary_id = assoc_lookup(&name_to_id, &pair.primary);
        let alias_id = assoc_lookup(&name_to_id, &pair.alias);
        match (primary_id, alias_id) {
            (Some(pid), Some(aid)) => {
                if pid != aid {
                    match store.merge_entities(aid, pid, now) {
                        Ok(_) => {},
                        Err(er) => {
                            proof {
                                assert(aliases@.len() > 0);
                            }
                            return Err(er);
                        },
                    }
                    assoc_set(&mut name_to_id, &pair.alias, pid);
                }
            },
            (Some(pid), None) => {
                match store.add_entity_alias(pid, &pair.alias, now) {
                    Ok(_) => {},
                    Err(er) => {
                        proof {
                            assert(aliases@.len() > 0);
                        }
                        return Err(er);
                    },
                }
            },
            _ => {},
        }
        j = j + 1;
    }
    let mut k: usize = 0;
    while k < relations.len()
        invariant
            store.wf(),
            store.mems() == old(store).mems(),
            store.next_memory_id == old(store).next_memory_id,
            base == *old(store),
            base.aliases_sound() ==> store.aliases_sound(),
            k <= relations@.len(),
        decreases relations@.len() - k,
    {
        let rel = &relations[k];
        let from_id = assoc_lookup(&name_to_id, &rel.from);
        let to_id = assoc_lookup(&name_to_id, &rel.to);
        match (from_id, to_id) {
            (Some(f), Some(t)) => {
                // an unresolvable or conflicting relation is skipped silently
                let _ignored = store.upsert_relation(f, t, &rel.relation, now);
            },
            _ => {},
        }
        k = k + 1;
    }
    Ok(())
}

/// Save a new note: insert the memory row, then persist the extracted
/// knowledge against it. Returns the new memory id; the memory table gains
/// exactly that one row, whatever else the knowledge application touches.
///
/// Success is owed whenever the file path is fresh, the id sequences have
/// room, every alias row points at a live entity, and no alias pairs ask
/// for merges; failing that, a mid-way error leaves the rows already
/// written in place (the save path runs without a transaction), with at
/// most the one new memory row in the memory table.
pub fn persist_save(
    store: &mut Store,
    content: &String,
    md_file_path: &Option<String>,
    tags_joined: &Option<String>,
    entities: &Vec<ExtractedEntity>,
    relations: &Vec<ExtractedRelation>,
    aliases: &Vec<EntityAlias>,
    now: &String,
) -> (r: Result<i64, StoreError>)
    requires
        old(store).wf(),
    ensures
        final(store).wf(),
        match r {
            Ok(mid) => {
                &&& mid == old(store).next_memory_id
                &&& final(store).mems() == old(store).mems().push(
                    (MemoryV {
                        id: mid as int,
                        content: content@,
                        md_file_path: match *md_file_path {
                            Some(ref p) => Some(p@),
                            None => None,
                        },
                        created_at: now@,
                        tags: match *tags_joined {
                            Some(ref t) => Some(t@),
                            None => None,
                        },
                    }),
                )
                &&& final(store).has_memory(mid as int)
            },
            Err(e) => {
                &&& (final(store).mems() == old(store).mems() || final(store).mems() == old(store).mems().push(
                    (MemoryV {
                        id: old(store).next_memory_id as int,
                        content: content@,
                        md_file_path: match *md_file_path {
                            Some(ref p) => Some(p@),
                            None => None,
                        },
                        created_at: now@,
                        tags: match *tags_joined {
                            Some(ref t) => Some(t@),
                            None => None,
                        },
                    }),
                ))
                &&& (e == StoreError::Conflict ==> *md_file_path is Some && exists|j: int|
                    0 <= j < old(store).mems().len() && (#[trigger] old(store).mems()[j]).md_file_path is Some
                        && old(store).mems()[j].md_file_path->0 == md_file_path->0@)
            },
        },
        old(store).aliases_sound() ==> final(store).aliases_sound(),
        !(*md_file_path is Some && exists|j: int|
            0 <= j < old(store).mems().len() && (#[trigger] old(store).mems()[j]).md_file_path
                is Some && old(store).mems()[j].md_file_path->0 == md_file_path->0@) && old(store).next_memory_id < i64::MAX && old(store).aliases_sound() && aliases@.len() == 0 && old(store).next_entity_id as int + entities@.len() <= i64::MAX as int ==> r is Ok,
{
    let ghost base = *store;
    let memory_id = match store.insert_memory(content, md_file_path, tags_joined, now) {
        Ok(id) => id,
        Err(er) => {
            return Err(er);
        },
    };
    let ghost mid_state = *store;
    proof {
        assert(mid_state.has_memory(memory_id as int));
        if base.aliases_sound() {
            assert(mid_state.aliases_sound());
        }
    }
    match apply_knowledge(store, memory_id, entities, relations, aliases, now) {
        Ok(_) => {
            proof {
                assert(final(store).mems() == mid_state.mems());
                assert forall|id: int| mid_state.has_memory(id) implies final(store).has_memory(
                    id,
                ) by {
                    let w = mid_state.memory_ix(id);
                    assert(final(store).mems()[w].id == id);
                }
            }
            Ok(memory_id)
        },
        Err(er) => Err(er),
    }
}

/// Edit a note in place: replace its content and tags, drop and rebuild
/// its entity links from the fresh extraction, and finish with the fixed
/// orphan-pruning sequence, leaving no dangling relation and no entity
/// without a memory link.
///
/// The whole edit is prepared on a working copy and committed only when
/// every step succeeds: an error of any step leaves the store exactly as
/// it was, so a failed edit never leaves partial graph state behind.
/// `NotFound` exactly when the memory id matches no row; success is owed
/// whenever the memory exists, every alias row points at a live entity,
/// no alias pairs ask for merges, and the entity id sequence has room.
pub fn persist_update(
    store: &mut Store,
    memory_id: i64,
    content: &String,
    tags_joined: &Option<String>,
    entities: &Vec<ExtractedEntity>,
    relations: &Vec<ExtractedRelation>,
    aliases: &Vec<EntityAlias>,
    now: &String,
) -> (r: Result<(), StoreError>)
    requires
        old(store).wf(),
    ensures
        final(store).wf(),
        r is Err ==> *final(store) == *old(store),
        !old(store).has_memory(memory_id as int) ==> r == Result::<(), StoreError>::Err(
            StoreError::NotFound,
        ),
        r == Result::<(), StoreError>::Err(StoreError::NotFound) ==> !old(store).has_memory(
            memory_id as int,
        ) || aliases@.len() > 0 || !old(store).aliases_sound(),
        old(store).has_memory(memory_id as int) && old(store).aliases_sound() && aliases@.len()
            == 0 && old(store).next_entity_id as int + entities@.len() <= i64::MAX as int
            ==> r is Ok,
        old(store).aliases_sound() ==> final(store).aliases_sound(),
        match r {
            Ok(_) => {
                &&& old(store).has_memory(memory_id as int)
                &&& final(store).entities_linked()
                &&& final(store).relations_sound()
                &&& final(store).has_memory(memory_id as int)
                &&& final(store).memory_of(memory_id as int).content == content@
                &&& final(store).memory_of(memory_id as int).tags == (match *tags_joined {
                    Some(ref t) => Some(t@),
                    None => None,
                })
            },
            Err(_) => true,
        },
{
    let ghost pre = *store;
    let mut work = crate::store::copy_store(store);
    match work.update_memory(memory_id, content, tags_joined) {
        Ok(_) => {},
        Err(er) => {
            proof {
                assert(er == StoreError::NotFound);
                assert(!pre.has_memory(memory_id as int));
            }
            return Err(er);
        },
    }
    work.clear_memory_entities(memory_id);
    let ghost s1 = work;
    proof {
        assert(s1.has_memory(memory_id as int)) by {
            let ix = pre.memory_ix(memory_id as int);
            crate::store::lemma_unique_memory_ix(pre, memory_id as int, ix);
            assert(s1.mems()[ix].id == memory_id as int);
        }
        if pre.aliases_sound() {
            assert(s1.aliases_sound());
        }
    }
    match apply_knowledge(&mut work, memory_id, entities, relations, aliases, now) {
        Ok(_) => {},
        Err(er) => {
            return Err(er);
        },
    }
    let ghost s2 = work;
    work.prune_orphan_entities_and_relations();
    proof {
        let ix = pre.memory_ix(memory_id as int);
        crate::store::lemma_unique_memory_ix(pre, memory_id as int, ix);
        assert(s1.mems()[ix].id == memory_id as int && s1.mems()[ix].content == content@);
        assert(s2.mems() == s1.mems());
        assert(work.mems() == s2.mems());
        crate::store::lemma_unique_memory_ix(work, memory_id as int, ix);
        assert(work.memory_of(memory_id as int) == s1.mems()[ix]);
        if pre.aliases_sound() {
            assert(s2.aliases_sound());
        }
    }
    *store = work;
    Ok(())
}

/// The knowledge that actually gets persisted: the fusion result when the
/// fusion step produced one, else the quick extraction, else nothing.
pub fn choose_knowledge(fused: Option<FusedKnowledge>, quick: Option<ExtractedData>) -> (r: (
    Vec<ExtractedEntity>,
    Vec<ExtractedRelation>,
    Vec<EntityAlias>,
))
    ensures
        match (fused, quick) {
            (Some(f), _) => r.0 == f.entities && r.1 == f.relations && r.2 == f.aliases,
            (None, Some(q)) => r.0 == q.entities && r.1 == q.relations && r.2@.len() == 0,
            (None, None) => r.0@.len() == 0 && r.1@.len() == 0 && r.2@.len() == 0,
        },
{
    match fused {
        Some(f) => (f.entities, f.relations, f.aliases),
        None => match quick {
            Some(q) => (q.entities, q.relations, Vec::new()),
            None => (Vec::new(), Vec::new(), Vec::new()),
        },
    }
}

/// The number of bytes a character occupies in UTF-8.
pub open spec fn spec_utf8_len(c: char) -> int {
    if (c as int) < 0x80 {
        1
    } else if (c as int) < 0x800 {
        2
    } else if (c as int) < 0x10000 {
        3
    } else {
        4
    }
}

/// The UTF-8 byte length of a character sequence.
pub open spec fn spec_utf8_total(s: Seq<char>) -> int
    decreases s.len(),
{
    if s.len() == 0 {
        0
    } else {
        spec_utf8_len(s[0]) + spec_utf8_total(s.skip(1))
    }
}

/// Whether a note is substantial enough to feed to the extraction step:
/// more than five bytes of content after trimming.
pub fn should_run_extraction(content: &String) -> (r: bool)
    ensures
        r == (spec_utf8_total(crate::text::spec_trim(content@)) > 5),
{
    let chars = crate::text::chars_vec(content.as_str());
    let trimmed = crate::text::trim_chars(&chars);
    let mut total: u64 = 0;
    let mut i: usize = 0;
    while i < trimmed.len()
        invariant
            trimmed@ == crate::text::spec_trim(content@),
            i <= trimmed@.len(),
            total <= 6,
            total == if spec_utf8_total(trimmed@.take(i as int)) <= 6 {
                spec_utf8_total(trimmed@.take(i as int))
            } else {
                6int
            },
        decreases trimmed@.len() - i,
    {
        if total > 5 {
            proof {
                lemma_utf8_total_grows(trimmed@, i as int);
            }
            return true;
        }
        let c = trimmed[i];
        proof {
            crate::text::lemma_char_value_range(c);
        }
        let cl: u64 = if (c as u32) < 0x80 {
            1
        } else if (c as u32) < 0x800 {
            2
        } else if (c as u32) < 0x10000 {
            3
        } else {
            4
        };
        proof {
            lemma_utf8_total_step(trimmed@, i as int);
        }
        total = if total + cl <= 6 {
            total + cl
        } else {
            6
        };
        i = i + 1;
    }
    proof {
        assert(trimmed@.take(trimmed@.len() as int) =~= trimmed@);
    }
    total > 5
}

/// Extending a prefix by one character adds that character's width.
pub proof fn lemma_utf8_total_step_pub(s: Seq<char>, i: int)
    requires
        0 <= i < s.len(),
    ensures
        spec_utf8_total(s.take(i + 1)) == spec_utf8_total(s.take(i)) + spec_utf8_len(s[i]),
{
    lemma_utf8_total_step(s, i);
}

/// Extending a prefix by one character adds that character's width.
proof fn lemma_utf8_total_step(s: Seq<char>, i: int)
    requires
        0 <= i < s.len(),
    ensures
        spec_utf8_total(s.take(i + 1)) == spec_utf8_total(s.take(i)) + spec_utf8_len(s[i]),
    decreases i,
{
    if i == 0 {
        assert(s.take(1)[0] == s[0]);
        assert(s.take(1).skip(1) =~= s.take(0));
        assert(spec_utf8_total(s.take(0)) == 0);
    } else {
        assert(s.take(i + 1)[0] == s[0]);
        assert(s.take(i)[0] == s[0]);
        assert(s.take(i + 1).skip(1) =~= s.skip(1).take(i));
        assert(s.take(i).skip(1) =~= s.skip(1).take(i - 1));
        lemma_utf8_total_step(s.skip(1), i - 1);
        assert(s.skip(1)[i - 1] == s[i]);
    }
}

/// A longer prefix never has a smaller byte length.
pub proof fn lemma_utf8_total_grows_pub(s: Seq<char>, i: int)
    requires
        0 <= i <= s.len(),
    ensures
        spec_utf8_total(s) >= spec_utf8_total(s.take(i)),
{
    lemma_utf8_total_grows(s, i);
}

/// A longer prefix never has a smaller byte length.
proof fn lemma_utf8_total_grows(s: Seq<char>, i: int)
    requires
        0 <= i <= s.len(),
    ensures
        spec_utf8_total(s) >= spec_utf8_total(s.take(i)),
    decreases s.len() - i,
{
    if i < s.len() {
        lemma_utf8_total_step(s, i);
        lemma_utf8_total_grows(s, i + 1);
        assert(spec_utf8_len(s[i]) >= 1);
    } else {
        assert(s.take(i) =~= s);
    }
}

} // verus!
