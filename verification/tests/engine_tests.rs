use granat::GranatStore;
use granat::KVPair;
use granat::entry::Entry;
use granat::list::ListStore;

fn create_kv_pair(key: &str, value: &str) -> KVPair {
    (key.to_string(), Entry::new(value))
}

fn full_list(list_store: &ListStore, key: &str) -> Vec<String> {
    list_store.range(key, 0, -1).iter().map(|e| e.render()).collect()
}

#[test]
fn bundled_store_constructs() {
    let _ = GranatStore::new();
}

#[test]
fn list_trim_range_pop_scenario() {
    let mut ls = ListStore::new();
    for v in ["0", "1", "2", "3", "4"] {
        ls.right_push(create_kv_pair("L", v));
    }
    assert_eq!(ls.len("L"), 5);

    ls.trim("L", 2, 4);
    assert_eq!(
        full_list(&ls, "L"),
        vec!["2".to_string(), "3".to_string(), "4".to_string()]
    );

    let popped = ls.left_pop("L").unwrap().render();
    assert_eq!(popped, "2".to_string());
    assert_eq!(ls.len("L"), 2);
}

#[test]
fn length_tracks_net_pushes_and_pops() {
    let mut ls = ListStore::new();
    assert_eq!(ls.len("k"), 0);

    ls.left_push(create_kv_pair("k", "1"));
    ls.right_push(create_kv_pair("k", "2"));
    ls.left_push(create_kv_pair("k", "0"));
    assert_eq!(ls.len("k"), 3);

    let _ = ls.right_pop("k");
    assert_eq!(ls.len("k"), 2);
    let _ = ls.left_pop("k");
    let _ = ls.left_pop("k");

    // Length zero and absence coincide: every read sees an absent key.
    assert_eq!(ls.len("k"), 0);
    assert!(ls.left_pop("k").is_none());
    assert!(ls.right_pop("k").is_none());
    assert!(ls.index("k", 0).is_none());
    assert!(ls.range("k", 0, -1).is_empty());
}

#[test]
fn full_range_returns_original_order() {
    let mut ls = ListStore::new();
    for v in ["x", "y", "z"] {
        ls.right_push(create_kv_pair("k", v));
    }
    assert_eq!(
        full_list(&ls, "k"),
        vec!["x".to_string(), "y".to_string(), "z".to_string()]
    );
}

#[test]
fn positional_set_out_of_range_reports_error() {
    let mut ls = ListStore::new();
    for v in ["0", "1", "2", "3", "4"] {
        ls.right_push(create_kv_pair("k", v));
    }

    // An index naming the last position affects the last-position region.
    let res = ls.set(create_kv_pair("k", "tail"), -1);
    assert!(res.is_ok());
    assert_eq!(ls.index("k", -1).unwrap().render(), "tail".to_string());

    let res = ls.set(create_kv_pair("k", "nope"), 500);
    assert!(matches!(res, Err(granat::errors::StoreError::IndexOutOfRange)));

    // A write to an absent key is accepted and changes nothing.
    let res = ls.set(create_kv_pair("missing", "v"), 0);
    assert!(res.is_ok());
    assert_eq!(ls.len("missing"), 0);
}
