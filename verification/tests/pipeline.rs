//! Pipeline behavior: persisting extraction results, retrieval scoring and
//! packing, JSON repair, time normalization, and model-availability
//! decisions.

use memory_graph::ingest::{
    persist_save, persist_update, ExtractedEntity, ExtractedRelation, EntityAlias,
};
use memory_graph::repair::{extract_json_from_response, repair_truncated_json, salvage_json_response};
use memory_graph::retrieval::{
    collect_relevant_historical_memories, dedup_tokens, memory_relevance_score, pack_snippets,
    tokenize_for_rag, truncate_for_prompt, Ranked, RAG_TOP_K,
};
use memory_graph::store::Store;
use memory_graph::timenorm::{
    apply_time_normalization, format_iso, parse_chinese_number_token,
    parse_date_from_time_text_rule, parse_iso_date_from_string, plan_time_normalization, weekday,
    Date,
};
use memory_graph::modelcfg::{ensure_model_available, extract_stderr, ollama_error_hint, should_redownload_model};
use memory_graph::naming::{normalize_library_id, normalize_plugin_id, slug_from_content, validate_plugin_id};

fn now() -> String {
    "2024-05-01 10:00:00".to_string()
}

fn ent(t: &str, n: &str) -> ExtractedEntity {
    ExtractedEntity { entity_type: t.to_string(), name: n.to_string(), attributes: None }
}

fn rel(f: &str, t: &str, r: &str) -> ExtractedRelation {
    ExtractedRelation { from: f.to_string(), to: t.to_string(), relation: r.to_string() }
}

#[test]
fn save_persists_entities_links_and_relations() {
    let mut s = Store::new();
    let mid = persist_save(
        &mut s,
        &"Li Ming met Wang Wei in Beijing".to_string(),
        &None,
        &None,
        &vec![ent("Person", "Li Ming"), ent("Person", "Wang Wei"), ent("Location", "Beijing")],
        &vec![rel("Li Ming", "Wang Wei", "colleague")],
        &Vec::new(),
        &now(),
    )
    .unwrap();
    assert_eq!(s.memories.len(), 1);
    assert_eq!(s.entities.len(), 3);
    assert_eq!(s.links.len(), 3);
    assert_eq!(s.relations.len(), 1);
    assert!(s.get_memory_by_id(mid).is_ok());
}

#[test]
fn save_folds_fusion_aliases_into_merges() {
    let mut s = Store::new();
    persist_save(
        &mut s,
        &"note".to_string(),
        &None,
        &None,
        &vec![ent("Person", "Wang Wei"), ent("Person", "Lao Wang")],
        &Vec::new(),
        &vec![EntityAlias { primary: "Wang Wei".to_string(), alias: "Lao Wang".to_string() }],
        &now(),
    )
    .unwrap();
    // the two names collapsed into one entity reachable by both
    assert_eq!(s.entities.len(), 1);
    let a = s.find_entity_id_by_name_or_alias(&"Wang Wei".to_string()).unwrap();
    let b = s.find_entity_id_by_name_or_alias(&"Lao Wang".to_string()).unwrap();
    assert_eq!(a, b);
}

#[test]
fn update_rebuilds_links_and_prunes() {
    let mut s = Store::new();
    let mid = persist_save(
        &mut s,
        &"about X".to_string(),
        &None,
        &None,
        &vec![ent("Person", "X")],
        &Vec::new(),
        &Vec::new(),
        &now(),
    )
    .unwrap();
    persist_update(
        &mut s,
        mid,
        &"now about Y".to_string(),
        &Some("tag1".to_string()),
        &vec![ent("Person", "Y")],
        &Vec::new(),
        &Vec::new(),
        &now(),
    )
    .unwrap();
    let m = s.get_memory_by_id(mid).unwrap();
    assert_eq!(m.content, "now about Y");
    assert_eq!(m.tags.as_deref(), Some("tag1"));
    // X lost its only link and is pruned; Y is linked
    assert!(s.find_entity_id_by_name_or_alias(&"X".to_string()).is_none());
    assert!(s.find_entity_id_by_name_or_alias(&"Y".to_string()).is_some());
}

#[test]
fn tokenizer_splits_by_script() {
    let toks = tokenize_for_rag(&"Rust 2024 \u{5317}\u{4EAC}\u{5927}\u{5B66} x".to_string());
    let toks: Vec<String> = toks.into_iter().collect();
    assert_eq!(
        toks,
        vec![
            "rust".to_string(),
            "2024".to_string(),
            "\u{5317}\u{4EAC}".to_string(),
            "\u{4EAC}\u{5927}".to_string(),
            "\u{5927}\u{5B66}".to_string(),
        ]
    );
    let single = tokenize_for_rag(&"\u{5317}".to_string());
    assert_eq!(single, vec!["\u{5317}".to_string()]);
}

#[test]
fn relevance_score_formula_exact() {
    // two query tokens, one entity term; candidate shares one token and
    // carries the term literally; two seed hits
    let query = dedup_tokens(&tokenize_for_rag(&"alpha beta".to_string()));
    let terms = vec!["alpha".to_string()];
    let (num, overlap, hits) =
        memory_relevance_score(&query, &terms, &"alpha gamma".to_string(), 2);
    assert_eq!(overlap, 1);
    assert_eq!(hits, 1);
    // numerator over 60*q*t with q = 2, t = 1: 39*o*t + 15*h*q + 2*min(s,3)*q*t
    assert_eq!(num, 39 * 1 * 1 + 15 * 1 * 2 + 2 * 2 * 2 * 1);
}

#[test]
fn packing_respects_budget_and_caps() {
    let items = vec![
        Ranked {
            memory_id: 1,
            content: "abcdefgh".to_string(),
            seed_hits: 1,
            relevant: true,
            score_num: 10,
        },
        Ranked {
            memory_id: 2,
            content: "ijklmnop".to_string(),
            seed_hits: 1,
            relevant: false,
            score_num: 9,
        },
        Ranked {
            memory_id: 3,
            content: "qrstuvwx".to_string(),
            seed_hits: 1,
            relevant: true,
            score_num: 8,
        },
    ];
    let packed = pack_snippets(&items, RAG_TOP_K, 10);
    // first snippet whole (8 chars), second relevant one cut to 2 + ellipsis
    assert_eq!(packed.len(), 2);
    assert_eq!(packed[0], "abcdefgh");
    assert_eq!(packed[1], "qr\u{2026}");
}

#[test]
fn packing_budget_is_monotone() {
    // distinct leading letters identify the selected notes even when cut
    let names = ["alpha alpha alpha", "beta beta beta", "gamma gamma", "delta delta", "epsilon"];
    let items: Vec<Ranked> = (0..5)
        .map(|i| Ranked {
            memory_id: i as i64,
            content: names[i].to_string(),
            seed_hits: 1,
            relevant: true,
            score_num: (10 - i) as u128,
        })
        .collect();
    let small = pack_snippets(&items, RAG_TOP_K, 20);
    let large = pack_snippets(&items, RAG_TOP_K, 60);
    // everything selected under the small budget is selected under the large
    assert!(small.len() <= large.len());
    for s in &small {
        let head = s.chars().next().unwrap();
        assert!(large.iter().any(|l| l.chars().next() == Some(head)));
    }
}

#[test]
fn retrieval_returns_empty_without_candidates() {
    let s = Store::new();
    let out = collect_relevant_historical_memories(
        &s,
        &vec![ent("Person", "Nobody")],
        &"fresh text".to_string(),
        None,
    );
    assert!(out.is_empty());
}

#[test]
fn retrieval_finds_linked_history() {
    let mut s = Store::new();
    persist_save(
        &mut s,
        &"Li Ming likes alpine hiking".to_string(),
        &None,
        &None,
        &vec![ent("Person", "Li Ming")],
        &Vec::new(),
        &Vec::new(),
        &now(),
    )
    .unwrap();
    let out = collect_relevant_historical_memories(
        &s,
        &vec![ent("Person", "Li Ming")],
        &"Li Ming hiking plans".to_string(),
        None,
    );
    assert_eq!(out.len(), 1);
    assert_eq!(out[0], "Li Ming likes alpine hiking");
}

#[test]
fn valid_json_passes_repair_unchanged() {
    let valid = "{\"entities\":[{\"name\":\"X\"}]}".to_string();
    assert_eq!(salvage_json_response(&valid).unwrap(), valid);
    // nothing to repair on a balanced document
    assert!(repair_truncated_json(&valid).is_none());
}

#[test]
fn truncated_json_is_repaired_and_parses() {
    let truncated = "{\"entities\":[{\"name\":\"X\"".to_string();
    let fixed = salvage_json_response(&truncated).unwrap();
    let value: serde_json::Value = serde_json::from_str(&fixed).unwrap();
    assert_eq!(value["entities"][0]["name"], serde_json::Value::String("X".to_string()));
}

#[test]
fn fenced_json_is_unwrapped() {
    let fenced = "```json\n{\"a\":1}\n```".to_string();
    assert_eq!(extract_json_from_response(&fenced).unwrap(), "{\"a\":1}");
    let out = salvage_json_response(&fenced).unwrap();
    assert_eq!(out, "{\"a\":1}");
}

#[test]
fn unrepairable_text_reports_length() {
    let garbage = "no json here at all".to_string();
    let err = salvage_json_response(&garbage).unwrap_err();
    assert!(err.contains("19"));
}

#[test]
fn chinese_numerals_read_exactly() {
    assert_eq!(parse_chinese_number_token(&"12".to_string()), Some(12));
    assert_eq!(parse_chinese_number_token(&"\u{5341}".to_string()), Some(10));
    assert_eq!(
        parse_chinese_number_token(&"\u{4E8C}\u{5341}\u{4E09}".to_string()),
        Some(23)
    );
    assert_eq!(parse_chinese_number_token(&"\u{5341}\u{4E94}".to_string()), Some(15));
    assert_eq!(parse_chinese_number_token(&"\u{4E24}".to_string()), Some(2));
    assert_eq!(parse_chinese_number_token(&"".to_string()), None);
    assert_eq!(parse_chinese_number_token(&"abc".to_string()), None);
}

#[test]
fn calendar_facts() {
    let d = Date { year: 2024, month: 1, day: 1 };
    assert_eq!(weekday(d), 0); // a Monday
    assert_eq!(format_iso(d), "2024-01-01");
    assert_eq!(
        parse_iso_date_from_string(&" 2024-02-29 extra".to_string()),
        Some(Date { year: 2024, month: 2, day: 29 })
    );
    assert_eq!(parse_iso_date_from_string(&"2023-02-29".to_string()), None);
}

#[test]
fn rule_parser_relative_days() {
    let r = Date { year: 2024, month: 5, day: 1 };
    let p = |t: &str| parse_date_from_time_text_rule(&t.to_string(), r);
    assert_eq!(p("\u{4ECA}\u{5929}"), Some(r));
    assert_eq!(p("\u{660E}\u{5929}"), Some(Date { year: 2024, month: 5, day: 2 }));
    assert_eq!(p("\u{540E}\u{5929}"), Some(Date { year: 2024, month: 5, day: 3 }));
    // "three days after"
    assert_eq!(
        p("\u{4E09}\u{5929}\u{540E}"),
        Some(Date { year: 2024, month: 5, day: 4 })
    );
    assert_eq!(p("2024-06-07"), Some(Date { year: 2024, month: 6, day: 7 }));
    // a month-day already past this year moves to the next
    assert_eq!(
        p("1\u{6708}2\u{65E5}"),
        Some(Date { year: 2025, month: 1, day: 2 })
    );
    // weekday of next week: Wednesday after the week of the reference
    assert_eq!(
        p("\u{4E0B}\u{5468}\u{4E09}"),
        Some(Date { year: 2024, month: 5, day: 8 })
    );
    assert_eq!(p("nothing datelike"), None);
}

#[test]
fn time_normalization_rewrites_entities_and_relations() {
    let r = Date { year: 2024, month: 5, day: 1 };
    let mut entities = vec![
        ExtractedEntity {
            entity_type: "Time".to_string(),
            name: "\u{660E}\u{5929}".to_string(),
            attributes: None,
        },
        ent("Person", "Li Ming"),
    ];
    let mut relations = vec![rel("Li Ming", "\u{660E}\u{5929}", "meets on")];
    let pending = plan_time_normalization(&entities, r);
    assert!(pending.is_empty()); // the rule already resolves it
    apply_time_normalization(&mut entities, &mut relations, r, &Vec::new());
    assert_eq!(entities[0].name, "2024-05-02");
    assert_eq!(entities[1].name, "Li Ming");
    assert_eq!(relations[0].to, "2024-05-02");
}

#[test]
fn unresolved_time_names_go_to_the_model() {
    let r = Date { year: 2024, month: 5, day: 1 };
    let mut entities = vec![ExtractedEntity {
        entity_type: "Time".to_string(),
        name: "the far future".to_string(),
        attributes: None,
    }];
    let mut relations = Vec::new();
    let pending = plan_time_normalization(&entities, r);
    assert_eq!(pending, vec!["the far future".to_string()]);
    // a model answer resolves it; the method is recorded in the attributes
    let answers = vec![(
        "the far future".to_string(),
        Some(Date { year: 2030, month: 1, day: 1 }),
    )];
    apply_time_normalization(&mut entities, &mut relations, r, &answers);
    assert_eq!(entities[0].name, "2030-01-01");
}

#[test]
fn model_availability_prefix_rule() {
    let installed = vec!["qwen2.5:7b-instruct".to_string(), "llama3:8b".to_string()];
    assert!(!ensure_model_available(&installed, &"qwen2.5:7b".to_string()));
    assert!(ensure_model_available(&installed, &"qwen2.5:14b".to_string()));
    assert!(ensure_model_available(&Vec::new(), &"qwen2.5:7b".to_string()));
}

#[test]
fn diagnostics_helpers() {
    assert!(should_redownload_model(&"error: NOT ALL TENSORS loaded".to_string()));
    assert!(!should_redownload_model(&"disk full".to_string()));
    assert_eq!(
        extract_stderr(&"run failed\nstderr:\nboom".to_string()),
        "boom"
    );
    assert_eq!(extract_stderr(&"plain".to_string()), "plain");
    assert_eq!(ollama_error_hint(&"some other problem".to_string()), "some other problem");
    assert!(ollama_error_hint(&"502 Bad Gateway".to_string()).contains("Original error"));
}

#[test]
fn truncation_marks_the_cut() {
    assert_eq!(truncate_for_prompt(&"hello".to_string(), 10), "hello");
    assert_eq!(truncate_for_prompt(&"hello".to_string(), 3), "hel\u{2026}");
}

#[test]
fn slugs_and_ids_normalize() {
    assert_eq!(slug_from_content(&"My first note!\nmore text".to_string()), "My_first_note_");
    assert_eq!(slug_from_content(&"   \nbody".to_string()), "\u{672A}\u{547D}\u{540D}");
    assert_eq!(normalize_library_id(&"  My Library 2024! ".to_string()), "my-library-2024");
    assert_eq!(normalize_library_id(&"??!!".to_string()), "");
    assert_eq!(normalize_plugin_id(&"Graph-View".to_string()), "graph-view");
    assert!(validate_plugin_id(&"graph-view".to_string()));
    assert!(!validate_plugin_id(&"Graph View".to_string()));
    assert!(!validate_plugin_id(&"  ".to_string()));
}

#[test]
fn repair_closes_open_string_and_brackets_innermost_first() {
    // the walk ends inside a string literal: the quote is closed, then
    // the brace and bracket in innermost-first order
    let cut = "{\"items\":[\"a".to_string();
    let fixed = repair_truncated_json(&cut).unwrap();
    assert_eq!(fixed, "{\"items\":[\"a\"]}");
    assert!(serde_json::from_str::<serde_json::Value>(&fixed).is_ok());
}

#[test]
fn graph_ids_are_decimal_entity_ids() {
    let mut s = Store::new();
    let m = s.insert_memory(&"n".to_string(), &None, &None, &now()).unwrap();
    let a = s.upsert_entity(&"Person".to_string(), &"Solo".to_string(), &None, &now()).unwrap();
    s.link_memory_entity(m, a).unwrap();
    let g = s.get_graph_data();
    assert_eq!(g.nodes.len(), 1);
    assert_eq!(g.nodes[0].id, a.to_string());
    assert_eq!(g.nodes[0].name, "Solo");
    assert_eq!(g.nodes[0].node_type, "Person");
}
