use synapse_core::domain::{CardContent, MemoryItem};
use synapse_core::error::SynapseError;
use synapse_core::graph::{build_graph, link, unlink};

fn item(track: &str, prompt: &str) -> MemoryItem {
    MemoryItem::new(track, prompt, CardContent::basic("..."))
}

fn named(id: &str) -> MemoryItem {
    MemoryItem::new_at(id.to_string(), "Rust", id, CardContent::basic("..."), 0)
}

#[test]
fn link_is_symmetric_and_deduplicated_in_the_graph() {
    let mut items = vec![item("Rust", "What is a trait?"), item("Rust", "What is a trait object?")];
    let (id_a, id_b) = (items[0].id.clone(), items[1].id.clone());

    link(&mut items, &id_a, &id_b).unwrap();
    assert!(items[0].related_ids.contains(&id_b));
    assert!(items[1].related_ids.contains(&id_a));

    // linking again is a no-op, not a duplicate
    link(&mut items, &id_a, &id_b).unwrap();
    assert_eq!(items[0].related_ids.len(), 1);

    let graph = build_graph(&items);
    assert_eq!(graph.nodes.len(), 2);
    assert_eq!(graph.edges.len(), 1);
}

#[test]
fn linking_to_self_or_missing_id_errors() {
    let mut items = vec![item("Rust", "What is a trait?")];
    let id = items[0].id.clone();

    assert!(matches!(link(&mut items, &id, &id), Err(SynapseError::InvalidOperation(_))));
    assert!(matches!(link(&mut items, &id, "missing"), Err(SynapseError::NotFound(_))));
}

#[test]
fn unlink_removes_both_sides() {
    let mut items = vec![item("Rust", "A"), item("Rust", "B")];
    let (id_a, id_b) = (items[0].id.clone(), items[1].id.clone());
    link(&mut items, &id_a, &id_b).unwrap();

    unlink(&mut items, &id_a, &id_b);
    assert!(items[0].related_ids.is_empty());
    assert!(items[1].related_ids.is_empty());
}

#[test]
fn link_errors_name_the_missing_id_and_change_nothing() {
    let mut items = vec![named("a"), named("b")];
    match link(&mut items, "zz", "a") {
        Err(SynapseError::NotFound(id)) => assert_eq!(id, "zz"),
        _ => panic!("expected NotFound"),
    }
    match link(&mut items, "a", "zz") {
        Err(SynapseError::NotFound(id)) => assert_eq!(id, "zz"),
        _ => panic!("expected NotFound"),
    }
    match link(&mut items, "a", "a") {
        Err(SynapseError::InvalidOperation(msg)) => assert_eq!(msg, "cannot link a memory to itself"),
        _ => panic!("expected InvalidOperation"),
    }
    assert!(items.iter().all(|m| m.related_ids.is_empty()));
}

#[test]
fn graph_edges_put_the_smaller_id_first_in_link_order() {
    let mut items = vec![named("m"), named("c"), named("x")];
    link(&mut items, "m", "x").unwrap();
    link(&mut items, "m", "c").unwrap();
    let graph = build_graph(&items);
    let edges: Vec<(String, String)> =
        graph.edges.iter().map(|e| (e.source.clone(), e.target.clone())).collect();
    assert_eq!(edges, vec![("m".to_string(), "x".to_string()), ("c".to_string(), "m".to_string())]);
    assert_eq!(graph.nodes[1].id, "c");
    assert_eq!(graph.nodes[1].label, "c");
    assert_eq!(graph.nodes[1].track, "Rust");
}

#[test]
fn one_sided_links_still_make_one_edge() {
    let mut items = vec![named("a"), named("b")];
    items[1].related_ids.push("a".to_string());
    items[1].related_ids.push("a".to_string());
    let graph = build_graph(&items);
    assert_eq!(graph.edges.len(), 1);
    assert_eq!((graph.edges[0].source.as_str(), graph.edges[0].target.as_str()), ("a", "b"));
}

#[test]
fn unlink_after_link_restores_the_items() {
    let mut items = vec![named("a"), named("b"), named("c")];
    items[0].related_ids.push("c".to_string());
    link(&mut items, "a", "b").unwrap();
    unlink(&mut items, "a", "b");
    assert_eq!(items[0].related_ids, vec!["c".to_string()]);
    assert!(items[1].related_ids.is_empty());
}

#[test]
fn unlinking_an_unlinked_pair_changes_nothing() {
    let mut items = vec![named("a"), named("b")];
    items[0].related_ids.push("q".to_string());
    unlink(&mut items, "a", "b");
    assert_eq!(items[0].related_ids, vec!["q".to_string()]);
}
