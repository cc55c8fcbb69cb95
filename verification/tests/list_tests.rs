use granat::KVPair;
use granat::entry::Entry;
use granat::list::ListStore;

fn create_kv_pair(key: &str, value: &str) -> KVPair {
    (key.to_string(), Entry::new(value))
}

fn create_basic_list_store() -> ListStore {
    let mut list_store = ListStore::new();
    list_store.right_push(create_kv_pair("test", "0"));
    list_store.right_push(create_kv_pair("test", "1"));
    list_store.right_push(create_kv_pair("test", "2"));
    list_store.right_push(create_kv_pair("test", "3"));
    list_store.right_push(create_kv_pair("test", "4"));

    list_store
}

fn list_to_vec(list: &Vec<Entry>) -> Vec<String> {
    list.iter().map(|e| e.render()).collect::<Vec<String>>()
}

fn full_list(list_store: &ListStore, key: &str) -> Vec<String> {
    list_to_vec(&list_store.range(key, 0, -1))
}

#[test]
fn push_left() {
    let mut list_store = ListStore::new();
    list_store.left_push(create_kv_pair("test", "2"));
    list_store.left_push(create_kv_pair("test", "1"));
    list_store.left_push(create_kv_pair("test", "0"));

    let mut val = list_store.left_pop("test").unwrap().render();
    assert_eq!(val, "0".to_string());

    val = list_store.left_pop("test").unwrap().render();
    assert_eq!(val, "1".to_string());

    val = list_store.left_pop("test").unwrap().render();
    assert_eq!(val, "2".to_string());
}

#[test]
fn push_right() {
    let mut list_store = ListStore::new();
    list_store.right_push(create_kv_pair("test", "0"));
    list_store.right_push(create_kv_pair("test", "1"));
    list_store.right_push(create_kv_pair("test", "2"));

    let mut val = list_store.left_pop("test").unwrap().render();
    assert_eq!(val, "0".to_string());

    val = list_store.left_pop("test").unwrap().render();
    assert_eq!(val, "1".to_string());

    val = list_store.left_pop("test").unwrap().render();
    assert_eq!(val, "2".to_string());
}

#[test]
fn length() {
    let mut list_store = ListStore::new();
    list_store.right_push(create_kv_pair("test", "0"));
    list_store.right_push(create_kv_pair("test", "1"));
    list_store.right_push(create_kv_pair("test", "2"));

    assert_eq!(list_store.len("test"), 3);
}

#[test]
fn pop_left() {
    let mut list_store = ListStore::new();
    list_store.right_push(create_kv_pair("test", "0"));
    list_store.right_push(create_kv_pair("test", "1"));
    list_store.right_push(create_kv_pair("test", "2"));

    let mut entry = list_store.left_pop("test");
    assert!(entry.is_some());
    let mut value = entry.unwrap().render();
    assert_eq!(value, "0".to_string());
    assert_eq!(list_store.len("test"), 2);

    entry = list_store.left_pop("test");
    assert!(entry.is_some());
    value = entry.unwrap().render();
    assert_eq!(value, "1".to_string());
    assert_eq!(list_store.len("test"), 1);

    entry = list_store.left_pop("test");
    assert!(entry.is_some());
    value = entry.unwrap().render();
    assert_eq!(value, "2".to_string());
    assert_eq!(list_store.len("test"), 0);

    entry = list_store.left_pop("test");
    assert!(entry.is_none());
}

#[test]
fn pop_right() {
    let mut list_store = ListStore::new();
    list_store.right_push(create_kv_pair("test", "0"));
    list_store.right_push(create_kv_pair("test", "1"));
    list_store.right_push(create_kv_pair("test", "2"));

    let mut entry = list_store.right_pop("test");
    assert!(entry.is_some());
    let mut value = entry.unwrap().render();
    assert_eq!(value, "2".to_string());
    assert_eq!(list_store.len("test"), 2);

    entry = list_store.right_pop("test");
    assert!(entry.is_some());
    value = entry.unwrap().render();
    assert_eq!(value, "1".to_string());
    assert_eq!(list_store.len("test"), 1);

    entry = list_store.right_pop("test");
    assert!(entry.is_some());
    value = entry.unwrap().render();
    assert_eq!(value, "0".to_string());
    assert_eq!(list_store.len("test"), 0);

    entry = list_store.right_pop("test");
    assert!(entry.is_none());
}

#[test]
fn index_from_left() {
    let list_store = create_basic_list_store();

    for i in 0..5 {
        let entry = list_store.index("test", i as isize);
        assert!(entry.is_some());
        let value = entry.unwrap().render();
        assert_eq!(value, i.to_string());
    }

    let entry = list_store.index("test", 563);
    assert!(entry.is_none());
}

#[test]
fn index_from_right() {
    let list_store = create_basic_list_store();

    let mut str_val = 4;
    for i in (-5..0).rev() {
        let entry = list_store.index("test", i as isize);
        assert!(entry.is_some());
        let value = entry.unwrap().render();
        assert_eq!(value, str_val.to_string());
        str_val -= 1;
    }

    let entry = list_store.index("test", -324);
    assert!(entry.is_none());
}

#[test]
fn set() {
    let mut list_store = create_basic_list_store();

    // Set in the middle
    let mut res = list_store.set(create_kv_pair("test", "new_value"), 1);
    assert!(res.is_ok());
    assert_eq!(list_store.len("test"), 6);
    let mut entry = list_store.index("test", 1);
    assert!(entry.is_some());
    let mut value = entry.unwrap().render();
    assert_eq!(value, "new_value".to_string());

    // Set at the start
    res = list_store.set(create_kv_pair("test", "another-new-value"), 0);
    assert!(res.is_ok());
    assert_eq!(list_store.len("test"), 7);
    entry = list_store.index("test", 0);
    assert!(entry.is_some());
    value = entry.unwrap().render();
    assert_eq!(value, "another-new-value".to_string());

    // Set at the end
    res = list_store.set(create_kv_pair("test", "last-new-value"), -1);
    assert!(res.is_ok());
    assert_eq!(list_store.len("test"), 8);
    entry = list_store.index("test", -1);
    assert!(entry.is_some());
    value = entry.unwrap().render();
    assert_eq!(value, "last-new-value".to_string());

    // Out of bounds errors
    res = list_store.set(create_kv_pair("test", "new_value"), 500);
    assert!(res.is_err());

    res = list_store.set(create_kv_pair("test", "new_value"), -2354);
    assert!(res.is_err());
}

#[test]
fn range_forward() {
    let list_store = create_basic_list_store();

    let mut range = list_store.range("test", 1, 3);
    assert_eq!(range.len(), 3);
    let mut vals = list_to_vec(&range);

    assert_eq!(vals, vec!["1".to_string(), "2".to_string(), "3".to_string()]);

    range = list_store.range("test", -2, -1);
    assert_eq!(range.len(), 2);
    vals = list_to_vec(&range);
    assert_eq!(vals, vec!["3".to_string(), "4".to_string()]);

    range = list_store.range("test", 0, 500);
    assert_eq!(range.len(), 5);

    range = list_store.range("test", -1, -5);
    assert_eq!(range.len(), 0);
}

#[test]
fn range_backwards() {
    let list_store = create_basic_list_store();
    let mut range = list_store.range("test", -2, -1);
    assert_eq!(range.len(), 2);
    let vals = list_to_vec(&range);
    assert_eq!(vals, vec!["3".to_string(), "4".to_string()]);

    range = list_store.range("test", -1, -5);
    assert_eq!(range.len(), 0);
}

#[test]
fn trim_forward() {
    let mut list_store = create_basic_list_store();
    list_store.trim("test", 0, 2);
    let mut result = full_list(&list_store, "test");
    assert_eq!(result, vec!["0".to_string(), "1".to_string(), "2".to_string()]);

    list_store = create_basic_list_store();
    list_store.trim("test", 0, 4);
    result = full_list(&list_store, "test");
    assert_eq!(
        result,
        vec![
            "0".to_string(),
            "1".to_string(),
            "2".to_string(),
            "3".to_string(),
            "4".to_string()
        ]
    );

    list_store = create_basic_list_store();
    list_store.trim("test", 0, 20);
    result = full_list(&list_store, "test");
    assert_eq!(
        result,
        vec![
            "0".to_string(),
            "1".to_string(),
            "2".to_string(),
            "3".to_string(),
            "4".to_string()
        ]
    );

    list_store = create_basic_list_store();
    list_store.trim("test", 3, 20);
    result = full_list(&list_store, "test");
    assert_eq!(result, vec!["3".to_string(), "4".to_string()]);

    list_store = create_basic_list_store();
    list_store.trim("test", 1, 3);
    result = full_list(&list_store, "test");
    assert_eq!(result, vec!["1".to_string(), "2".to_string(), "3".to_string()]);

    list_store = create_basic_list_store();
    list_store.trim("test", 0, 0);
    result = full_list(&list_store, "test");
    assert_eq!(result, vec!["0".to_string()]);

    list_store = create_basic_list_store();
    list_store.trim("test", 3, 1);
    assert_eq!(list_store.len("test"), 0);
}

#[test]
fn trim_backwards() {
    let mut list_store = create_basic_list_store();
    list_store.trim("test", -2, -1);
    let mut result = full_list(&list_store, "test");
    assert_eq!(result, vec!["3".to_string(), "4".to_string()]);

    list_store = create_basic_list_store();
    list_store.trim("test", -5, -1);
    result = full_list(&list_store, "test");
    assert_eq!(
        result,
        vec![
            "0".to_string(),
            "1".to_string(),
            "2".to_string(),
            "3".to_string(),
            "4".to_string()
        ]
    );

    list_store = create_basic_list_store();
    list_store.trim("test", -1, -1);
    result = full_list(&list_store, "test");
    assert_eq!(result, vec!["4".to_string()]);

    list_store = create_basic_list_store();
    list_store.trim("test", -20, -1);
    assert_eq!(list_store.len("test"), 0);

    list_store = create_basic_list_store();
    list_store.trim("test", -1, 1);
    assert_eq!(list_store.len("test"), 0);

    list_store = create_basic_list_store();
    list_store.trim("test", -1, -4);
    assert_eq!(list_store.len("test"), 0);
}

#[test]
fn trim_is_idempotent_for_anchored_bounds() {
    let mut once = create_basic_list_store();
    once.trim("test", 0, 2);
    let mut twice = create_basic_list_store();
    twice.trim("test", 0, 2);
    twice.trim("test", 0, 2);
    assert_eq!(full_list(&once, "test"), full_list(&twice, "test"));

    let mut once_tail = create_basic_list_store();
    once_tail.trim("test", -2, -1);
    let mut twice_tail = create_basic_list_store();
    twice_tail.trim("test", -2, -1);
    twice_tail.trim("test", -2, -1);
    assert_eq!(full_list(&once_tail, "test"), full_list(&twice_tail, "test"));
}

#[test]
fn remove_all_occurrences() {
    let mut list_store = ListStore::new();
    for v in ["a", "b", "a", "c", "a"] {
        list_store.right_push(create_kv_pair("test", v));
    }

    let removed = list_store.remove("test", "a", 0);
    assert_eq!(removed, 3);
    assert_eq!(list_store.len("test"), 2);
    assert_eq!(full_list(&list_store, "test"), vec!["b".to_string(), "c".to_string()]);
}

#[test]
fn remove_counted_from_the_left() {
    let mut list_store = ListStore::new();
    for v in ["a", "b", "a", "c", "a"] {
        list_store.right_push(create_kv_pair("test", v));
    }

    let removed = list_store.remove("test", "a", 2);
    assert_eq!(removed, 2);
    assert_eq!(
        full_list(&list_store, "test"),
        vec!["b".to_string(), "c".to_string(), "a".to_string()]
    );
}

#[test]
fn remove_counted_from_the_right() {
    let mut list_store = ListStore::new();
    for v in ["a", "b", "a", "c", "a"] {
        list_store.right_push(create_kv_pair("test", v));
    }

    let removed = list_store.remove("test", "a", -2);
    assert_eq!(removed, 2);
    assert_eq!(
        full_list(&list_store, "test"),
        vec!["a".to_string(), "b".to_string(), "c".to_string()]
    );
}

#[test]
fn remove_matches_by_value_and_empties_the_key() {
    let mut list_store = ListStore::new();
    list_store.right_push(create_kv_pair("test", "07"));
    // The removal value is converted before comparison: "7" and "07"
    // denote the same integer.
    let removed = list_store.remove("test", "7", 0);
    assert_eq!(removed, 1);
    assert_eq!(list_store.len("test"), 0);
    assert!(list_store.index("test", 0).is_none());

    // An absent key removes nothing.
    assert_eq!(list_store.remove("missing", "7", 0), 0);
}

#[test]
fn index_negative_counterpart_agrees() {
    let list_store = create_basic_list_store();
    let n = list_store.len("test") as isize;
    for i in 0..n {
        let direct = list_store.index("test", i).unwrap().render();
        let counterpart = list_store.index("test", i - n).unwrap().render();
        assert_eq!(direct, counterpart);
    }
}
