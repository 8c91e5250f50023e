//! End-to-end scenarios against a fresh temporary store.

use sled_datastore::codec::Ident;
use sled_datastore::datastore::{SledConfig, SledDatastore};
use sled_datastore::models::{BulkInsertItem, Edge, PropValue, Vertex};
use sled_datastore::transaction::SledTransaction;

fn uid(n: u8) -> [u8; 16] {
    let mut a = [0u8; 16];
    a[15] = n;
    a
}

fn ident(s: &str) -> Ident {
    Ident::new(s.as_bytes().to_vec()).unwrap()
}

fn json_num(n: i64) -> PropValue {
    PropValue::new(serde_json::to_vec(&serde_json::Value::from(n)).unwrap())
}

fn fresh() -> SledTransaction {
    SledDatastore::new_temporary().unwrap().transaction().unwrap()
}

fn edge(out: u8, label: &str, inn: u8) -> Edge {
    Edge::new(uid(out), ident(label), uid(inn))
}

#[test]
fn create_vertices_and_edge() {
    let mut tx = fresh();
    assert!(tx.create_vertex(&Vertex::new(uid(1), ident("person"))).unwrap());
    assert!(tx.create_vertex(&Vertex::new(uid(2), ident("person"))).unwrap());
    assert_eq!(tx.vertex_count().unwrap(), 2);
    assert!(tx.create_edge(&edge(1, "knows", 2)).unwrap());
    assert_eq!(tx.edge_count().unwrap(), 1);
    let all = tx.all_edges().unwrap();
    assert_eq!(all.len(), 1);
    assert_eq!(all[0].outbound_id, uid(1));
    assert_eq!(all[0].t.as_bytes().as_slice(), b"knows");
    assert_eq!(all[0].inbound_id, uid(2));
    // The reversed tree lists the edge keyed by its inbound endpoint.
    let rev = tx.range_reversed_edges(&edge(2, "knows", 1)).unwrap();
    assert_eq!(rev.len(), 1);
    assert_eq!(rev[0].outbound_id, uid(2));
    assert_eq!(rev[0].inbound_id, uid(1));
}

#[test]
fn create_edge_requires_both_endpoints() {
    let mut tx = fresh();
    assert!(tx.create_vertex(&Vertex::new(uid(1), ident("person"))).unwrap());
    assert!(tx.create_vertex(&Vertex::new(uid(2), ident("person"))).unwrap());
    assert!(tx.create_edge(&edge(1, "knows", 2)).unwrap());
    assert!(!tx.create_edge(&edge(1, "knows", 9)).unwrap());
    assert_eq!(tx.edge_count().unwrap(), 1);
}

#[test]
fn create_vertex_is_idempotent() {
    let mut tx = fresh();
    assert!(tx.create_vertex(&Vertex::new(uid(1), ident("person"))).unwrap());
    assert!(!tx.create_vertex(&Vertex::new(uid(1), ident("person"))).unwrap());
    assert_eq!(tx.vertex_count().unwrap(), 1);
    let all = tx.all_vertices().unwrap();
    assert_eq!(all.len(), 1);
    assert_eq!(all[0].t.as_bytes().as_slice(), b"person");
}

#[test]
fn property_index_queries() {
    let mut tx = fresh();
    assert!(tx.create_vertex(&Vertex::new(uid(1), ident("person"))).unwrap());
    tx.set_vertex_properties(&vec![uid(1)], &ident("age"), &json_num(30)).unwrap();
    tx.index_property(&ident("age")).unwrap();
    let with_name = tx.vertex_ids_with_property(&ident("age")).unwrap().unwrap();
    assert_eq!(with_name, vec![uid(1)]);
    let at_30 = tx.vertex_ids_with_property_value(&ident("age"), &json_num(30)).unwrap().unwrap();
    assert_eq!(at_30, vec![uid(1)]);
    let at_31 = tx.vertex_ids_with_property_value(&ident("age"), &json_num(31)).unwrap().unwrap();
    assert!(at_31.is_empty());
    // An unindexed name is reported as "no index", not as "no results".
    assert!(tx.vertex_ids_with_property(&ident("height")).unwrap().is_none());
}

#[test]
fn property_overwrite_moves_index_entry() {
    let mut tx = fresh();
    assert!(tx.create_vertex(&Vertex::new(uid(1), ident("person"))).unwrap());
    tx.set_vertex_properties(&vec![uid(1)], &ident("age"), &json_num(30)).unwrap();
    tx.index_property(&ident("age")).unwrap();
    tx.set_vertex_properties(&vec![uid(1)], &ident("age"), &json_num(31)).unwrap();
    let at_30 = tx.vertex_ids_with_property_value(&ident("age"), &json_num(30)).unwrap().unwrap();
    assert!(at_30.is_empty());
    let at_31 = tx.vertex_ids_with_property_value(&ident("age"), &json_num(31)).unwrap().unwrap();
    assert_eq!(at_31, vec![uid(1)]);
    let stored = tx.vertex_property(&Vertex::new(uid(1), ident("person")), &ident("age")).unwrap();
    assert_eq!(stored.unwrap().as_bytes(), json_num(31).as_bytes());
}

#[test]
fn vertex_delete_cascades() {
    let mut tx = fresh();
    assert!(tx.create_vertex(&Vertex::new(uid(1), ident("person"))).unwrap());
    assert!(tx.create_vertex(&Vertex::new(uid(2), ident("person"))).unwrap());
    assert!(tx.create_edge(&edge(1, "knows", 2)).unwrap());
    tx.set_vertex_properties(&vec![uid(1)], &ident("age"), &json_num(30)).unwrap();
    tx.set_edge_properties(&vec![edge(1, "knows", 2)], &ident("weight"), &json_num(7)).unwrap();
    tx.delete_vertices(&vec![Vertex::new(uid(1), ident("person"))]).unwrap();
    assert_eq!(tx.vertex_count().unwrap(), 1);
    assert_eq!(tx.edge_count().unwrap(), 0);
    assert!(tx.all_edges().unwrap().is_empty());
    let props = tx
        .all_vertex_properties_for_vertex(&Vertex::new(uid(1), ident("person")))
        .unwrap();
    assert!(props.is_empty());
    let eprops = tx.all_edge_properties_for_edge(&edge(1, "knows", 2)).unwrap();
    assert!(eprops.is_empty());
}

#[test]
fn incoming_edges_are_cascaded_too() {
    let mut tx = fresh();
    assert!(tx.create_vertex(&Vertex::new(uid(1), ident("person"))).unwrap());
    assert!(tx.create_vertex(&Vertex::new(uid(2), ident("person"))).unwrap());
    assert!(tx.create_edge(&edge(1, "knows", 2)).unwrap());
    // Deleting the inbound endpoint removes the edge as well.
    tx.delete_vertices(&vec![Vertex::new(uid(2), ident("person"))]).unwrap();
    assert_eq!(tx.edge_count().unwrap(), 0);
    assert!(tx.all_edges().unwrap().is_empty());
    assert_eq!(tx.vertex_count().unwrap(), 1);
}

#[test]
fn delete_edges_removes_rows_and_properties() {
    let mut tx = fresh();
    assert!(tx.create_vertex(&Vertex::new(uid(1), ident("person"))).unwrap());
    assert!(tx.create_vertex(&Vertex::new(uid(2), ident("person"))).unwrap());
    assert!(tx.create_edge(&edge(1, "knows", 2)).unwrap());
    tx.set_edge_properties(&vec![edge(1, "knows", 2)], &ident("weight"), &json_num(7)).unwrap();
    tx.delete_edges(&vec![edge(1, "knows", 2)]).unwrap();
    assert_eq!(tx.edge_count().unwrap(), 0);
    assert!(tx.all_edge_properties_for_edge(&edge(1, "knows", 2)).unwrap().is_empty());
    assert_eq!(tx.vertex_count().unwrap(), 2);
}

#[test]
fn edge_property_index_queries() {
    let mut tx = fresh();
    assert!(tx.create_vertex(&Vertex::new(uid(1), ident("person"))).unwrap());
    assert!(tx.create_vertex(&Vertex::new(uid(2), ident("person"))).unwrap());
    assert!(tx.create_edge(&edge(1, "knows", 2)).unwrap());
    tx.set_edge_properties(&vec![edge(1, "knows", 2)], &ident("weight"), &json_num(7)).unwrap();
    tx.index_property(&ident("weight")).unwrap();
    let with_name = tx.edges_with_property(&ident("weight")).unwrap().unwrap();
    assert_eq!(with_name.len(), 1);
    assert_eq!(with_name[0].outbound_id, uid(1));
    let at_7 = tx.edges_with_property_value(&ident("weight"), &json_num(7)).unwrap().unwrap();
    assert_eq!(at_7.len(), 1);
    let at_8 = tx.edges_with_property_value(&ident("weight"), &json_num(8)).unwrap().unwrap();
    assert!(at_8.is_empty());
    assert!(tx.edges_with_property(&ident("color")).unwrap().is_none());
}

#[test]
fn bulk_insert_makes_all_items_visible() {
    let mut tx = fresh();
    let items = vec![
        BulkInsertItem::Vertex(Vertex::new(uid(3), ident("person"))),
        BulkInsertItem::Vertex(Vertex::new(uid(4), ident("person"))),
        BulkInsertItem::Edge(edge(3, "likes", 4)),
        BulkInsertItem::VertexProperty(uid(3), ident("age"), json_num(40)),
    ];
    tx.bulk_insert(&items).unwrap();
    let got = tx.specific_vertices(&vec![uid(3), uid(4)]).unwrap();
    assert_eq!(got.len(), 2);
    assert_eq!(tx.edge_count().unwrap(), 1);
    let all = tx.all_edges().unwrap();
    assert_eq!(all[0].t.as_bytes().as_slice(), b"likes");
    let stored = tx.vertex_property(&Vertex::new(uid(3), ident("person")), &ident("age")).unwrap();
    assert_eq!(stored.unwrap().as_bytes(), json_num(40).as_bytes());
}

#[test]
fn range_and_specific_enumerations() {
    let mut tx = fresh();
    for n in [1u8, 2, 3] {
        assert!(tx.create_vertex(&Vertex::new(uid(n), ident("person"))).unwrap());
    }
    let from_two = tx.range_vertices(&uid(2)).unwrap();
    assert_eq!(from_two.len(), 2);
    assert_eq!(from_two[0].0, uid(2));
    assert_eq!(from_two[1].0, uid(3));
    let got = tx.specific_vertices(&vec![uid(3), uid(9), uid(1)]).unwrap();
    assert_eq!(got.len(), 2);
    assert!(tx.create_vertex(&Vertex::new(uid(4), ident("person"))).unwrap());
    assert!(tx.create_edge(&edge(1, "a", 2)).unwrap());
    assert!(tx.create_edge(&edge(3, "b", 4)).unwrap());
    let some = tx.specific_edges(vec![edge(3, "b", 4), edge(1, "x", 2)]).unwrap();
    assert_eq!(some.len(), 1);
    assert_eq!(some[0].t.as_bytes().as_slice(), b"b");
    let ranged = tx.range_edges(&edge(2, "", 0)).unwrap();
    assert_eq!(ranged.len(), 1);
    assert_eq!(ranged[0].outbound_id, uid(3));
}

#[test]
fn metadata_registry_roundtrip() {
    let mut tx = fresh();
    tx.index_property(&ident("age")).unwrap();
    tx.index_property(&ident("age")).unwrap();
    assert!(sled_datastore::metadata::is_indexed(&tx.indexed, &ident("age")));
    sled_datastore::metadata::remove_index(
        &mut tx.indexed,
        &mut tx.holder.metadata,
        &ident("age"),
    )
    .unwrap();
    assert!(!sled_datastore::metadata::is_indexed(&tx.indexed, &ident("age")));
    assert!(tx.vertex_ids_with_property(&ident("age")).unwrap().is_none());
}

#[test]
fn delete_vertex_properties_clears_value_index() {
    let mut tx = fresh();
    assert!(tx.create_vertex(&Vertex::new(uid(1), ident("person"))).unwrap());
    tx.set_vertex_properties(&vec![uid(1)], &ident("age"), &json_num(30)).unwrap();
    tx.index_property(&ident("age")).unwrap();
    tx.delete_vertex_properties(&vec![(uid(1), ident("age"))]).unwrap();
    let stored = tx.vertex_property(&Vertex::new(uid(1), ident("person")), &ident("age")).unwrap();
    assert!(stored.is_none());
    let at_30 = tx.vertex_ids_with_property_value(&ident("age"), &json_num(30)).unwrap().unwrap();
    assert!(at_30.is_empty());
}

#[test]
fn compression_config_carries_its_options() {
    let cfg = SledConfig::with_compression(Some(3));
    assert!(cfg.use_compression);
    assert_eq!(cfg.compression_factor, Some(3));
    let default_cfg = SledConfig::default();
    assert!(!default_cfg.use_compression);
}

#[test]
fn self_loop_cascade() {
    let mut tx = fresh();
    assert!(tx.create_vertex(&Vertex::new(uid(1), ident("person"))).unwrap());
    assert!(tx.create_edge(&edge(1, "self", 1)).unwrap());
    tx.set_edge_properties(&vec![edge(1, "self", 1)], &ident("weight"), &json_num(7)).unwrap();
    assert_eq!(tx.edge_count().unwrap(), 1);
    tx.delete_vertices(&vec![Vertex::new(uid(1), ident("person"))]).unwrap();
    assert_eq!(tx.vertex_count().unwrap(), 0);
    assert_eq!(tx.edge_count().unwrap(), 0);
    assert!(tx.all_edges().unwrap().is_empty());
    assert!(tx.all_edge_properties_for_edge(&edge(1, "self", 1)).unwrap().is_empty());
}

#[test]
fn empty_label_edges_are_legal() {
    let mut tx = fresh();
    assert!(tx.create_vertex(&Vertex::new(uid(1), ident("v"))).unwrap());
    assert!(tx.create_vertex(&Vertex::new(uid(2), ident("v"))).unwrap());
    assert!(tx.create_edge(&edge(1, "", 2)).unwrap());
    let all = tx.all_edges().unwrap();
    assert_eq!(all.len(), 1);
    assert_eq!(all[0].t.as_bytes().len(), 0);
}

#[test]
fn bulk_insert_overwrites_vertex_labels() {
    let mut tx = fresh();
    assert!(tx.create_vertex(&Vertex::new(uid(5), ident("old"))).unwrap());
    let items = vec![BulkInsertItem::Vertex(Vertex::new(uid(5), ident("new")))];
    tx.bulk_insert(&items).unwrap();
    assert_eq!(tx.vertex_count().unwrap(), 1);
    let all = tx.all_vertices().unwrap();
    assert_eq!(all.len(), 1);
    assert_eq!(all[0].t.as_bytes().as_slice(), b"new");
}

#[test]
fn specific_queries_keep_input_order_and_multiplicity() {
    let mut tx = fresh();
    for n in [1u8, 2] {
        assert!(tx.create_vertex(&Vertex::new(uid(n), ident("v"))).unwrap());
    }
    let got = tx.specific_vertices(&vec![uid(2), uid(9), uid(1), uid(2)]).unwrap();
    assert_eq!(got.len(), 3);
    assert_eq!(got[0].id, uid(2));
    assert_eq!(got[1].id, uid(1));
    assert_eq!(got[2].id, uid(2));
}
