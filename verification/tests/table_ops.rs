use hashtable::HashTable;

#[test]
fn it_works() {
    let mut hashtable = HashTable::new();
    hashtable.insert("Horse".to_string(), 11);
    hashtable.insert("Monkey".to_string(), 22);
    hashtable.insert("Elephant".to_string(), 33);
    hashtable.insert("Lion".to_string(), 44);

    assert_eq!(Some(&11), hashtable.get(&"Horse".to_string()));
    assert_eq!(Some(&22), hashtable.get(&"Monkey".to_string()));
    assert_eq!(Some(&33), hashtable.get(&"Elephant".to_string()));
    assert_eq!(Some(&44), hashtable.get(&"Lion".to_string()));
    assert_eq!(None, hashtable.get(&"Tiger".to_string()));

    hashtable.remove(&"Lion".to_string());
    assert_eq!(None, hashtable.get(&"Lion".to_string()));
    assert_eq!(3, hashtable.len());
}

#[test]
fn round_trip_single_key() {
    let mut table = HashTable::new();
    table.insert("answer".to_string(), 42);
    assert_eq!(Some(&42), table.get(&"answer".to_string()));
    assert_eq!(1, table.len());
}

#[test]
fn update_overwrites_without_duplicating() {
    let mut table = HashTable::new();
    table.insert("key".to_string(), 1);
    table.insert("key".to_string(), 2);
    assert_eq!(1, table.len());
    assert_eq!(Some(&2), table.get(&"key".to_string()));
}

#[test]
fn update_keeps_other_entries() {
    let mut table = HashTable::new();
    table.insert("a".to_string(), 10);
    table.insert("b".to_string(), 20);
    table.insert("a".to_string(), 30);
    assert_eq!(2, table.len());
    assert_eq!(Some(&30), table.get(&"a".to_string()));
    assert_eq!(Some(&20), table.get(&"b".to_string()));
}

#[test]
fn remove_makes_key_absent_and_shrinks_len() {
    let mut table = HashTable::new();
    table.insert("first".to_string(), 1);
    table.insert("second".to_string(), 2);
    assert_eq!(2, table.len());
    table.remove(&"first".to_string());
    assert_eq!(None, table.get(&"first".to_string()));
    assert_eq!(Some(&2), table.get(&"second".to_string()));
    assert_eq!(1, table.len());
}

#[test]
fn remove_absent_key_is_noop() {
    let mut table = HashTable::new();
    table.remove(&"nothing".to_string());
    assert_eq!(0, table.len());

    table.insert("a".to_string(), 1);
    table.insert("b".to_string(), 2);
    table.insert("c".to_string(), 3);
    table.remove(&"never inserted".to_string());
    assert_eq!(3, table.len());
    assert_eq!(Some(&1), table.get(&"a".to_string()));
    assert_eq!(Some(&2), table.get(&"b".to_string()));
    assert_eq!(Some(&3), table.get(&"c".to_string()));
}

#[test]
fn len_tracks_inserts_and_removes() {
    let mut table = HashTable::new();
    assert_eq!(0, table.len());
    table.insert("one".to_string(), 1);
    assert_eq!(1, table.len());
    table.insert("two".to_string(), 2);
    assert_eq!(2, table.len());
    table.insert("two".to_string(), 22);
    assert_eq!(2, table.len());
    table.remove(&"one".to_string());
    assert_eq!(1, table.len());
    table.remove(&"one".to_string());
    assert_eq!(1, table.len());
    table.remove(&"two".to_string());
    assert_eq!(0, table.len());
}

#[test]
fn colliding_keys_stay_independent() {
    // Twelve distinct keys in eight buckets: at least one bucket holds two
    // or more keys, so chained entries are exercised whatever the hash.
    let keys = [
        "alpha", "beta", "gamma", "delta", "epsilon", "zeta", "eta", "theta", "iota", "kappa",
        "lambda", "mu",
    ];
    let mut table = HashTable::new();
    for (i, key) in keys.iter().enumerate() {
        table.insert(key.to_string(), i as i32);
    }
    assert_eq!(keys.len(), table.len());
    for (i, key) in keys.iter().enumerate() {
        assert_eq!(Some(&(i as i32)), table.get(&key.to_string()));
    }
    // Remove one key at a time: the removed key vanishes, the rest keep
    // their values.
    for (i, key) in keys.iter().enumerate() {
        table.remove(&key.to_string());
        assert_eq!(None, table.get(&key.to_string()));
        assert_eq!(keys.len() - i - 1, table.len());
        for (j, other) in keys.iter().enumerate() {
            if j > i {
                assert_eq!(Some(&(j as i32)), table.get(&other.to_string()));
            }
        }
    }
    assert_eq!(0, table.len());
}

#[test]
fn fresh_table_is_empty() {
    let table: HashTable<i32> = HashTable::new();
    assert_eq!(0, table.len());
    assert_eq!(None, table.get(&"anything".to_string()));
}

#[test]
fn empty_string_is_a_valid_key() {
    let mut table = HashTable::new();
    table.insert(String::new(), 7);
    assert_eq!(Some(&7), table.get(&String::new()));
    assert_eq!(1, table.len());
    table.remove(&String::new());
    assert_eq!(None, table.get(&String::new()));
    assert_eq!(0, table.len());
}

#[test]
fn values_need_not_be_integers() {
    let mut table = HashTable::new();
    table.insert("greeting".to_string(), "hello".to_string());
    table.insert("farewell".to_string(), "goodbye".to_string());
    assert_eq!(Some(&"hello".to_string()), table.get(&"greeting".to_string()));
    assert_eq!(Some(&"goodbye".to_string()), table.get(&"farewell".to_string()));
}
