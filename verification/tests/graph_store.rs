//! Store-level behavior: uniqueness, aliasing, merging, deletion and
//! cleanup, and the graph export.

use memory_graph::attrs::{AttrEntry, Attributes};
use memory_graph::store::{Store, StoreError};

fn now() -> String {
    "2024-05-01 10:00:00".to_string()
}

fn rec(fields: &[(&str, Option<&str>)]) -> Option<Attributes> {
    let mut v = Vec::new();
    for (k, val) in fields {
        v.push(AttrEntry { key: k.to_string(), value: val.map(|s| s.to_string()) });
    }
    Some(Attributes::Record(v))
}

fn attrs_as_pairs(a: &Option<Attributes>) -> Vec<(String, Option<String>)> {
    match a {
        Some(Attributes::Record(v)) => {
            v.iter().map(|e| (e.key.clone(), e.value.clone())).collect()
        }
        _ => Vec::new(),
    }
}

#[test]
fn upsert_same_pair_never_duplicates() {
    let mut s = Store::new();
    let a = s
        .upsert_entity(
            &"Person".to_string(),
            &"Li Ming".to_string(),
            &rec(&[("rank", Some("\"captain\""))]),
            &now(),
        )
        .unwrap();
    let b = s
        .upsert_entity(
            &"Person".to_string(),
            &"Li Ming".to_string(),
            &rec(&[("age", Some("30"))]),
            &now(),
        )
        .unwrap();
    assert_eq!(a, b);
    assert_eq!(s.entities.len(), 1);
    let row = s.get_entity_by_id(a).unwrap();
    let pairs = attrs_as_pairs(&row.attributes);
    assert!(pairs.iter().any(|(k, v)| k == "rank" && v.as_deref() == Some("\"captain\"")));
    assert!(pairs.iter().any(|(k, v)| k == "age" && v.as_deref() == Some("30")));
}

#[test]
fn attribute_merge_keeps_existing_on_null() {
    let mut s = Store::new();
    s.upsert_entity(
        &"Person".to_string(),
        &"Zhao".to_string(),
        &rec(&[("rank", Some("\"major\""))]),
        &now(),
    )
    .unwrap();
    let id = s
        .upsert_entity(&"Person".to_string(), &"Zhao".to_string(), &rec(&[("rank", None)]), &now())
        .unwrap();
    let row = s.get_entity_by_id(id).unwrap();
    let pairs = attrs_as_pairs(&row.attributes);
    assert!(pairs.iter().any(|(k, v)| k == "rank" && v.as_deref() == Some("\"major\"")));
}

#[test]
fn relation_asserted_twice_bumps_strength() {
    let mut s = Store::new();
    let a = s.upsert_entity(&"Person".to_string(), &"A".to_string(), &None, &now()).unwrap();
    let b = s.upsert_entity(&"Person".to_string(), &"B".to_string(), &None, &now()).unwrap();
    s.upsert_relation(a, b, &"colleague".to_string(), &now()).unwrap();
    s.upsert_relation(a, b, &"colleague".to_string(), &now()).unwrap();
    assert_eq!(s.relations.len(), 1);
    assert_eq!(s.relations[0].strength, 2);
}

#[test]
fn alias_never_shadows_another_entity_name() {
    let mut s = Store::new();
    let a = s.upsert_entity(&"Person".to_string(), &"Li".to_string(), &None, &now()).unwrap();
    let b = s.upsert_entity(&"Location".to_string(), &"Beijing".to_string(), &None, &now()).unwrap();
    // an alias equal to another entity's name is silently dropped
    s.add_entity_alias(a, &"Beijing".to_string(), &now()).unwrap();
    assert_eq!(s.aliases.len(), 0);
    // a fresh alias lands, and resolves to its entity
    s.add_entity_alias(a, &"Xiao Li".to_string(), &now()).unwrap();
    assert_eq!(s.aliases.len(), 1);
    assert_eq!(s.find_entity_id_by_name_or_alias(&"Xiao Li".to_string()), Some(a));
    assert_eq!(s.find_entity_id_by_name_or_alias(&"Beijing".to_string()), Some(b));
    // an alias string is unique: re-adding for another entity is dropped
    s.add_entity_alias(b, &"Xiao Li".to_string(), &now()).unwrap();
    assert_eq!(s.aliases.len(), 1);
    assert_eq!(s.aliases[0].entity_id, a);
}

#[test]
fn merge_collision_keeps_one_row() {
    let mut s = Store::new();
    let mem = s.insert_memory(&"note".to_string(), &None, &None, &now()).unwrap();
    let src = s.upsert_entity(&"Person".to_string(), &"Lao Wang".to_string(), &None, &now()).unwrap();
    let tgt = s.upsert_entity(&"Person".to_string(), &"Wang Wei".to_string(), &None, &now()).unwrap();
    let c = s.upsert_entity(&"Person".to_string(), &"C".to_string(), &None, &now()).unwrap();
    s.link_memory_entity(mem, src).unwrap();
    s.link_memory_entity(mem, tgt).unwrap();
    s.link_memory_entity(mem, c).unwrap();
    s.upsert_relation(src, c, &"ally".to_string(), &now()).unwrap();
    s.upsert_relation(tgt, c, &"ally".to_string(), &now()).unwrap();
    s.upsert_relation(tgt, c, &"ally".to_string(), &now()).unwrap(); // strength 2

    s.merge_entities(src, tgt, &now()).unwrap();

    // exactly one (target, C, ally) row remains; the collided copy is gone
    let allies: Vec<_> = s
        .relations
        .iter()
        .filter(|r| r.from_entity_id == tgt && r.to_entity_id == c && r.relation_type == "ally")
        .collect();
    assert_eq!(allies.len(), 1);
    assert_eq!(allies[0].strength, 2);
    assert_eq!(s.relations.len(), 1);
    // the source row is gone, and its old name resolves to the target
    assert!(s.get_entity_by_id(src).is_err());
    assert_eq!(s.find_entity_id_by_name_or_alias(&"Lao Wang".to_string()), Some(tgt));
}

#[test]
fn merge_moves_aliases_and_links() {
    let mut s = Store::new();
    let mem = s.insert_memory(&"note".to_string(), &None, &None, &now()).unwrap();
    let src = s.upsert_entity(&"Person".to_string(), &"S".to_string(), &None, &now()).unwrap();
    let tgt = s.upsert_entity(&"Person".to_string(), &"T".to_string(), &None, &now()).unwrap();
    s.link_memory_entity(mem, src).unwrap();
    s.add_entity_alias(src, &"Essie".to_string(), &now()).unwrap();
    s.merge_entities(src, tgt, &now()).unwrap();
    assert_eq!(s.find_entity_id_by_name_or_alias(&"Essie".to_string()), Some(tgt));
    assert_eq!(s.find_entity_id_by_name_or_alias(&"S".to_string()), Some(tgt));
    assert!(s.links.iter().any(|l| l.memory_id == mem && l.entity_id == tgt));
    assert!(!s.links.iter().any(|l| l.entity_id == src));
}

#[test]
fn delete_only_memory_prunes_entity_and_relations() {
    let mut s = Store::new();
    let m1 = s.insert_memory(&"first".to_string(), &None, &None, &now()).unwrap();
    let m2 = s.insert_memory(&"second".to_string(), &None, &None, &now()).unwrap();
    let x = s.upsert_entity(&"Person".to_string(), &"X".to_string(), &None, &now()).unwrap();
    let y = s.upsert_entity(&"Person".to_string(), &"Y".to_string(), &None, &now()).unwrap();
    s.link_memory_entity(m1, x).unwrap();
    s.link_memory_entity(m2, y).unwrap();
    s.upsert_relation(x, y, &"knows".to_string(), &now()).unwrap();

    s.delete_memory(m1);

    assert!(s.get_entity_by_id(x).is_err());
    assert!(s.get_entity_by_id(y).is_ok());
    assert!(s.relations.is_empty());
    assert!(s.get_memory_by_id(m2).is_ok());
}

#[test]
fn cleanup_fixes_dirty_store_and_is_idempotent() {
    // a store as a foreign writer might leave it: a dangling relation and
    // an entity with no memory link
    let mut s = Store::new();
    let m = s.insert_memory(&"note".to_string(), &None, &None, &now()).unwrap();
    let a = s.upsert_entity(&"Person".to_string(), &"A".to_string(), &None, &now()).unwrap();
    let b = s.upsert_entity(&"Person".to_string(), &"Orphan".to_string(), &None, &now()).unwrap();
    s.link_memory_entity(m, a).unwrap();
    s.upsert_relation(a, b, &"knows".to_string(), &now()).unwrap();

    s.cleanup_database();
    // the unlinked entity and the relation through it are gone
    assert!(s.get_entity_by_id(b).is_err());
    assert!(s.relations.is_empty());
    assert!(s.get_entity_by_id(a).is_ok());

    // a second run changes nothing
    let ents: Vec<i64> = s.entities.iter().map(|e| e.id).collect();
    let rels = s.relations.len();
    let links = s.links.len();
    s.cleanup_database();
    assert_eq!(ents, s.entities.iter().map(|e| e.id).collect::<Vec<i64>>());
    assert_eq!(rels, s.relations.len());
    assert_eq!(links, s.links.len());
}

#[test]
fn graph_export_drops_dangling_edges() {
    let mut s = Store::new();
    let m = s.insert_memory(&"note".to_string(), &None, &None, &now()).unwrap();
    let a = s.upsert_entity(&"Person".to_string(), &"A".to_string(), &None, &now()).unwrap();
    let b = s.upsert_entity(&"Person".to_string(), &"B".to_string(), &None, &now()).unwrap();
    s.link_memory_entity(m, a).unwrap();
    s.link_memory_entity(m, b).unwrap();
    s.upsert_relation(a, b, &"knows".to_string(), &now()).unwrap();
    // a foreign writer leaves an edge to a missing entity
    s.relations.push(memory_graph::store::Relation {
        id: 99,
        from_entity_id: a,
        to_entity_id: 12345,
        relation_type: "ghost".to_string(),
        strength: 1,
        created_at: None,
    });
    let g = s.get_graph_data();
    assert_eq!(g.nodes.len(), 2);
    assert_eq!(g.links.len(), 1);
    assert_eq!(g.links[0].relation, "knows");
    assert_eq!(g.links[0].source, a.to_string());
    assert_eq!(g.links[0].target, b.to_string());
}

#[test]
fn listings_are_ordered() {
    let mut s = Store::new();
    s.upsert_entity(&"Person".to_string(), &"Zed".to_string(), &None, &now()).unwrap();
    s.upsert_entity(&"Location".to_string(), &"Alps".to_string(), &None, &now()).unwrap();
    s.upsert_entity(&"Person".to_string(), &"Amy".to_string(), &None, &now()).unwrap();
    let names: Vec<String> =
        s.list_entities().iter().map(|e| format!("{}/{}", e.entity_type, e.name)).collect();
    assert_eq!(names, vec!["Location/Alps", "Person/Amy", "Person/Zed"]);

    s.insert_memory(&"old".to_string(), &None, &None, &"2024-01-01 00:00:00".to_string()).unwrap();
    s.insert_memory(&"new".to_string(), &None, &None, &"2024-03-01 00:00:00".to_string()).unwrap();
    let mems: Vec<String> = s.list_memories().iter().map(|m| m.content.clone()).collect();
    assert_eq!(mems, vec!["new", "old"]);
}

#[test]
fn not_found_and_conflict_errors() {
    let mut s = Store::new();
    assert_eq!(s.get_entity_by_id(7).unwrap_err(), StoreError::NotFound);
    assert_eq!(s.get_memory_by_id(7).unwrap_err(), StoreError::NotFound);
    assert_eq!(
        s.upsert_relation(1, 2, &"x".to_string(), &now()).unwrap_err(),
        StoreError::NotFound
    );
    assert_eq!(s.link_memory_entity(1, 1).unwrap_err(), StoreError::NotFound);
    s.insert_memory(&"a".to_string(), &Some("p.md".to_string()), &None, &now()).unwrap();
    assert_eq!(
        s.insert_memory(&"b".to_string(), &Some("p.md".to_string()), &None, &now()).unwrap_err(),
        StoreError::Conflict
    );
}

#[test]
fn fuzzy_lookup_matches_substrings() {
    let mut s = Store::new();
    let a = s.upsert_entity(&"Person".to_string(), &"Wang Xiaoming".to_string(), &None, &now()).unwrap();
    let hit = s.get_entity_by_name(&"Xiaoming".to_string()).unwrap();
    assert_eq!(hit.map(|e| e.id), Some(a));
    s.add_entity_alias(a, &"Old Wang".to_string(), &now()).unwrap();
    let via_alias = s.get_entity_by_name(&"Old".to_string()).unwrap();
    assert_eq!(via_alias.map(|e| e.id), Some(a));
    assert!(s.get_entity_by_name(&"nobody".to_string()).unwrap().is_none());
}

#[test]
fn check_wf_accepts_built_store_and_rejects_corrupted_rows() {
    let mut s = Store::new();
    assert!(s.check_wf());
    let a = s.upsert_entity(&"person".to_string(), &"Wang".to_string(), &rec(&[]), &now()).unwrap();
    let b = s.upsert_entity(&"person".to_string(), &"Li".to_string(), &rec(&[]), &now()).unwrap();
    s.upsert_relation(a, b, &"knows".to_string(), &now()).unwrap();
    let m = s.insert_memory(&"met at the park".to_string(), &None, &None, &now()).unwrap();
    s.link_memory_entity(m, a).unwrap();
    assert!(s.check_wf());

    // a duplicated entity id breaks the invariant
    let mut dup = Store::new();
    let e = dup.upsert_entity(&"person".to_string(), &"Wang".to_string(), &rec(&[]), &now()).unwrap();
    let row = memory_graph::store::Entity {
        id: e,
        entity_type: "place".to_string(),
        name: "Park".to_string(),
        attributes: None,
        created_at: now(),
        updated_at: now(),
    };
    dup.entities.push(row);
    assert!(!dup.check_wf());

    // an out-of-sequence id breaks it too
    let mut high = Store::new();
    high.entities.push(memory_graph::store::Entity {
        id: 99,
        entity_type: "person".to_string(),
        name: "Wang".to_string(),
        attributes: None,
        created_at: now(),
        updated_at: now(),
    });
    assert!(!high.check_wf());
}
