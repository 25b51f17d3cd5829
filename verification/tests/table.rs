use chained_hashmap::HashMap;

#[test]
fn it_works() {
    // create a new HashMap
    let mut map = HashMap::new();

    // insert key/value pairs into the HashMap
    assert_eq!(map.insert(String::from("foo"), "bar"), None);
    // if an item already exists for that value, it should return the old value
    assert_eq!(map.insert(String::from("foo"), "lol"), Some("bar"));

    // get a value based on its key
    assert_eq!(map.get(&String::from("foo")), Some(&"lol"));
    // you should be able to do this multiple times
    assert_eq!(map.get(&String::from("foo")), Some(&"lol"));
    // if no value exists for a key, return None
    assert_eq!(map.get(&String::from("qux")), None);

    // remove a value for a key
    assert_eq!(map.remove(&String::from("foo")), Some("lol"));
    // once it no longer exists in the map, it should return None
    assert_eq!(map.get(&String::from("foo")), None);
}

#[test]
fn insert_then_get_round_trip() {
    let mut map = HashMap::new();
    assert_eq!(map.insert(String::from("alpha"), 1u64), None);
    assert_eq!(map.insert(String::from("beta"), 2u64), None);
    assert_eq!(map.insert(String::from("gamma"), 3u64), None);
    assert_eq!(map.get(&String::from("alpha")), Some(&1u64));
    assert_eq!(map.get(&String::from("beta")), Some(&2u64));
    assert_eq!(map.get(&String::from("gamma")), Some(&3u64));
}

#[test]
fn replace_returns_previous_value() {
    let mut map = HashMap::new();
    assert_eq!(map.insert(String::from("k"), 10u32), None);
    assert_eq!(map.insert(String::from("k"), 20u32), Some(10u32));
    assert_eq!(map.insert(String::from("k"), 30u32), Some(20u32));
    assert_eq!(map.get(&String::from("k")), Some(&30u32));
}

#[test]
fn repeated_get_is_stable() {
    let mut map = HashMap::new();
    map.insert(String::from("stable"), 7i32);
    let first = map.get(&String::from("stable")).copied();
    for _ in 0..10 {
        assert_eq!(map.get(&String::from("stable")).copied(), first);
    }
    assert_eq!(first, Some(7i32));
}

#[test]
fn get_never_inserted_is_none() {
    let mut map = HashMap::new();
    assert_eq!(map.get(&String::from("ghost")), None::<&u8>);
    map.insert(String::from("real"), 1u8);
    assert_eq!(map.get(&String::from("ghost")), None);
}

#[test]
fn remove_then_get_is_none() {
    let mut map = HashMap::new();
    map.insert(String::from("gone"), 5u64);
    assert_eq!(map.remove(&String::from("gone")), Some(5u64));
    assert_eq!(map.get(&String::from("gone")), None);
    assert_eq!(map.remove(&String::from("gone")), None);
}

#[test]
fn remove_absent_leaves_table_unchanged() {
    let mut map = HashMap::new();
    map.insert(String::from("keep"), 11u64);
    assert_eq!(map.remove(&String::from("absent")), None);
    assert_eq!(map.get(&String::from("keep")), Some(&11u64));
    assert_eq!(map.get(&String::from("absent")), None);
}

#[test]
fn empty_string_key_is_a_key_like_any_other() {
    let mut map = HashMap::new();
    assert_eq!(map.insert(String::new(), 42u64), None);
    assert_eq!(map.get(&String::new()), Some(&42u64));
    assert_eq!(map.remove(&String::new()), Some(42u64));
    assert_eq!(map.get(&String::new()), None);
}

// With sixteen buckets, sixty-four keys are sure to collide somewhere, so
// this exercises chains of several pairs in one bucket; keys must neither
// displace nor shadow one another.
#[test]
fn colliding_keys_do_not_interfere() {
    let mut map = HashMap::new();
    for i in 0..64u64 {
        assert_eq!(map.insert(format!("key{}", i), i), None);
    }
    for i in 0..64u64 {
        assert_eq!(map.get(&format!("key{}", i)), Some(&i));
    }
    // removing every even key leaves every odd key in place
    for i in (0..64u64).step_by(2) {
        assert_eq!(map.remove(&format!("key{}", i)), Some(i));
    }
    for i in 0..64u64 {
        if i % 2 == 0 {
            assert_eq!(map.get(&format!("key{}", i)), None);
        } else {
            assert_eq!(map.get(&format!("key{}", i)), Some(&i));
        }
    }
}

#[test]
fn reinsert_after_remove() {
    let mut map = HashMap::new();
    map.insert(String::from("phoenix"), "first");
    assert_eq!(map.remove(&String::from("phoenix")), Some("first"));
    assert_eq!(map.insert(String::from("phoenix"), "second"), None);
    assert_eq!(map.get(&String::from("phoenix")), Some(&"second"));
}
