use resource_pool::allocator::allocate;
use resource_pool::error::ResourcePoolError;
use resource_pool::grow::grow;
use resource_pool::populate::populate;
use resource_pool::stats::{all, bounds, stats, ResourcePoolStats as St};
use resource_pool::store::{OwnerType, ResourcePool, Store};
use resource_pool::transaction::{commit, rollback};
use resource_pool::value::ValueType;

const COMMITTED: u64 = resource_pool::store::NO_TRANSACTION;

fn all_free(n: usize) -> St {
    St {
        used: 0,
        free: n,
        auto_assign_free: n,
        auto_assign_used: 0,
        non_auto_assign_free: 0,
        non_auto_assign_used: 0,
    }
}

// Define an IPv4 pool from a range
#[test]
fn test_define_range() {
    let mut store = Store::new();
    let toml = r#"
[test_define_range]
type = "ipv4"
ranges = [{ start = "172.0.1.0", end = "172.0.1.255" }]
"#;
    let txn = store.begin().unwrap();
    grow(&mut store, txn, toml).unwrap();
    commit(&mut store, txn);

    let pool = ResourcePool::new("test_define_range".to_string(), ValueType::Ipv4);

    let txn = store.begin().unwrap();
    assert_eq!(
        stats(&store, txn, pool.name()).unwrap(),
        St {
            used: 0,
            free: 255,
            auto_assign_free: 255,
            auto_assign_used: 0,
            non_auto_assign_free: 0,
            non_auto_assign_used: 0
        }
    );
    assert_eq!(
        bounds(&store, txn, pool.name()),
        ("172.0.1.0".to_string(), "172.0.1.254".to_string())
    );
}

// Define an IPv4 pool from a prefix
#[test]
fn test_define_prefix() {
    let mut store = Store::new();
    let toml = r#"
[test_define_range]
type = "ipv4"
prefix = "172.0.1.0/24"
"#;
    let txn = store.begin().unwrap();
    grow(&mut store, txn, toml).unwrap();
    commit(&mut store, txn);

    let pool = ResourcePool::new("test_define_range".to_string(), ValueType::Ipv4);

    let txn = store.begin().unwrap();
    assert_eq!(
        stats(&store, txn, pool.name()).unwrap(),
        St {
            used: 0,
            free: 255,
            auto_assign_free: 255,
            auto_assign_used: 0,
            non_auto_assign_free: 0,
            non_auto_assign_used: 0
        }
    );
    assert_eq!(
        bounds(&store, txn, pool.name()),
        ("172.0.1.0".to_string(), "172.0.1.254".to_string())
    );
}

#[test]
fn prefix_lengths_give_one_address_less_than_the_block() {
    for (prefix, expected, first, last) in [
        ("10.1.2.3/32", 0usize, "", ""),
        ("10.1.2.3/31", 1, "10.1.2.2", "10.1.2.2"),
        ("10.1.2.3/30", 3, "10.1.2.0", "10.1.2.2"),
        ("10.1.2.77/26", 63, "10.1.2.64", "10.1.2.126"),
        ("255.255.255.255/20", 4095, "255.255.240.0", "255.255.255.254"),
    ] {
        let mut store = Store::new();
        let txn = store.begin().unwrap();
        let text = format!("[p]\ntype = \"ipv4\"\nprefix = \"{prefix}\"\n");
        grow(&mut store, txn, &text).unwrap();
        assert_eq!(stats(&store, txn, "p").unwrap(), all_free(expected));
        assert_eq!(bounds(&store, txn, "p"), (first.to_string(), last.to_string()));
    }
}

#[test]
fn integer_ranges_stop_before_their_end() {
    let mut store = Store::new();
    let txn = store.begin().unwrap();
    let text = r#"
# two pools in one text
[vni]
type = "integer"
ranges = [
    { start = "100", end = "105" },   # 100 to 104
    { end = "12", start = "-3" },
    { start = "103", end = "107" },
]

["with space"]
type = "integer"
ranges = []
"#;
    grow(&mut store, txn, text).unwrap();
    commit(&mut store, txn);
    // 100..105 and 103..107 overlap in 103 and 104
    assert_eq!(stats(&store, COMMITTED, "vni").unwrap(), all_free(5 + 15 + 2));
    assert_eq!(bounds(&store, COMMITTED, "vni"), ("-3".to_string(), "106".to_string()));
    assert_eq!(stats(&store, COMMITTED, "with space").unwrap(), all_free(0));
    assert_eq!(bounds(&store, COMMITTED, "with space"), (String::new(), String::new()));

    let listed = all(&store, COMMITTED);
    assert_eq!(listed.len(), 2);
    assert_eq!(listed[0].name, "vni");
    assert_eq!(listed[0].min, "-3");
    assert_eq!(listed[0].max, "106");
    assert_eq!(listed[0].value_type, ValueType::Integer);
    assert_eq!(listed[0].stats, all_free(22));
    assert_eq!(listed[1].name, "with space");
    assert_eq!(listed[1].min, "");

    // the lowest value goes first, in the order of the numbers
    let pool = ResourcePool::new("vni".to_string(), ValueType::Integer);
    let txn = store.begin().unwrap();
    let got = allocate(&pool, &mut store, txn, OwnerType::Vpc, "v", None, 0).unwrap();
    assert_eq!(got, "-3");
    let got = allocate(&pool, &mut store, txn, OwnerType::Vpc, "v", None, 0).unwrap();
    assert_eq!(got, "-2");
}

#[test]
fn growing_twice_changes_nothing() {
    let text = r#"
[a]
type = "integer"
ranges = [{ start = "1", end = "11" }]
[b]
type = "ipv4"
prefix = "192.168.0.0/28"
[a]
type = "integer"
ranges = [{ start = "5", end = "21" }]
"#;
    let mut store = Store::new();
    let txn = store.begin().unwrap();
    grow(&mut store, txn, text).unwrap();
    let a = stats(&store, txn, "a").unwrap();
    let b = stats(&store, txn, "b").unwrap();
    assert_eq!(a, all_free(20));
    assert_eq!(b, all_free(15));
    // again in the same transaction
    grow(&mut store, txn, text).unwrap();
    assert_eq!(stats(&store, txn, "a").unwrap(), a);
    assert_eq!(stats(&store, txn, "b").unwrap(), b);
    commit(&mut store, txn);
    // and again in another one, after some were allocated
    let pool = ResourcePool::new("a".to_string(), ValueType::Integer);
    let txn = store.begin().unwrap();
    allocate(&pool, &mut store, txn, OwnerType::Machine, "m", None, 0).unwrap();
    grow(&mut store, txn, text).unwrap();
    commit(&mut store, txn);
    assert_eq!(
        stats(&store, COMMITTED, "a").unwrap(),
        St {
            used: 1,
            free: 19,
            auto_assign_free: 19,
            auto_assign_used: 1,
            non_auto_assign_free: 0,
            non_auto_assign_used: 0
        }
    );
    assert_eq!(stats(&store, COMMITTED, "b").unwrap(), b);
}

#[test]
fn the_first_classification_of_a_value_stays() {
    let mut store = Store::new();
    let txn = store.begin().unwrap();
    let pool = ResourcePool::new("p".to_string(), ValueType::Integer);
    let values = |v: &[&str]| v.iter().map(|s| s.to_string()).collect::<Vec<_>>();
    populate(&pool, &mut store, txn, values(&["3", "1", "3", "2", "1"]), false).unwrap();
    populate(&pool, &mut store, txn, values(&["2", "4"]), true).unwrap();
    assert_eq!(
        stats(&store, txn, "p").unwrap(),
        St {
            used: 0,
            free: 4,
            auto_assign_free: 1,
            auto_assign_used: 0,
            non_auto_assign_free: 3,
            non_auto_assign_used: 0
        }
    );
    // the rows stand in the order in which the values came first
    let order: Vec<&str> = store.values.iter().map(|r| r.value.as_str()).collect();
    assert_eq!(order, ["3", "1", "2", "4"]);
    assert!(!store.values[2].auto_assignable);
    assert!(store.values[3].auto_assignable);
}

#[test]
fn a_text_that_is_no_definition_is_invalid() {
    let bad = [
        "[p]\ntype = \"ipv4\"\n",                                         // neither ranges nor prefix
        "[p]\nranges = []\n",                                             // no type
        "[p]\ntype = \"ipv4\"\nranges = []\nprefix = \"10.0.0.0/8\"\n",   // both
        "[p]\ntype = \"float\"\nranges = []\n",                           // unknown type
        "[p]\ntype = \"integer\"\ntype = \"integer\"\nranges = []\n",     // a key twice
        "[p]\ntype = \"integer\"\nsize = \"3\"\nranges = []\n",           // unknown key
        "[p] type = \"integer\"\nranges = []\n",                          // head not on its own line
        "[p]\ntype = \"integer\" ranges = []\n",                          // two entries on a line
        "[p]\ntype = \"integer\"\nranges = [{ start = \"1\" }]\n",        // a range without end
        "[p]\ntype = \"integer\"\nranges = [{ start = \"1\", end = \"2\" }\n", // list not closed
        "[p]\ntype = \"integer\nranges = []\n",                           // text not closed
        "[]\ntype = \"integer\"\nranges = []\n",                          // no name
        "[\"\"]\ntype = \"integer\"\nranges = []\n",                      // empty name
        "type = \"integer\"\n",                                           // entry outside a section
        "[p]\ntype = \"integer\"\nranges = [{ start = \"1\", end = \"2\" }]\n?", // stray byte
        "[p]\ntype = \"integer\"\nranges = [{ start = \"5\", end = \"2\" }]\n", // end before start
        "[p]\ntype = \"integer\"\nranges = [{ start = \"01\", end = \"2\" }]\n", // not canonical
        "[p]\ntype = \"integer\"\nranges = [{ start = \"1\", end = \"1.2.3.4\" }]\n", // wrong type
        "[p]\ntype = \"string\"\nranges = [{ start = \"a\", end = \"b\" }]\n", // cannot be counted
        "[p]\ntype = \"integer\"\nprefix = \"10.0.0.0/8\"\n",             // prefix of integers
        "[p]\ntype = \"ipv4\"\nprefix = \"10.0.0.0\"\n",                  // no length
        "[p]\ntype = \"ipv4\"\nprefix = \"10.0.0.0/33\"\n",               // length too great
        "[p]\ntype = \"ipv4\"\nprefix = \"10.0.0/8\"\n",                  // no address
        "[p]\ntype = \"ipv4\"\nprefix = \"10.0.0.0/8/9\"\n",              // two slashes
        "[p]\ntype = \"ipv4\"\nprefix = \"10.0.0.0/08\"\n",               // length not canonical
    ];
    for text in bad {
        let mut store = Store::new();
        let txn = store.begin().unwrap();
        assert_eq!(grow(&mut store, txn, text), Err(ResourcePoolError::InvalidValue), "{text}");
        assert!(store.pools.is_empty(), "{text}");
        assert!(store.values.is_empty(), "{text}");
    }
}

#[test]
fn growth_stops_at_the_first_definition_that_is_refused() {
    let mut store = Store::new();
    let txn = store.begin().unwrap();
    let text = r#"
[a]
type = "integer"
ranges = [{ start = "1", end = "4" }]
[b]
type = "integer"
ranges = [{ start = "9", end = "4" }]
[c]
type = "integer"
ranges = [{ start = "1", end = "4" }]
"#;
    assert_eq!(grow(&mut store, txn, text), Err(ResourcePoolError::InvalidValue));
    assert_eq!(stats(&store, txn, "a").unwrap(), all_free(3));
    assert_eq!(stats(&store, txn, "b"), Err(ResourcePoolError::PoolUnknown));
    assert_eq!(stats(&store, txn, "c"), Err(ResourcePoolError::PoolUnknown));
    // the caller rolls back, and nothing is left
    rollback(&mut store, txn);
    assert!(store.pools.is_empty());
    assert!(store.values.is_empty());
}

#[test]
fn growing_a_pool_with_another_type_is_a_mismatch() {
    let mut store = Store::new();
    let txn = store.begin().unwrap();
    grow(&mut store, txn, "[p]\ntype = \"integer\"\nranges = [{ start = \"1\", end = \"3\" }]\n")
        .unwrap();
    assert_eq!(
        grow(&mut store, txn, "[p]\ntype = \"ipv4\"\nprefix = \"10.0.0.0/30\"\n"),
        Err(ResourcePoolError::TypeMismatch)
    );
    let wrong = ResourcePool::new("p".to_string(), ValueType::String);
    assert_eq!(
        populate(&wrong, &mut store, txn, vec!["x".to_string()], true),
        Err(ResourcePoolError::TypeMismatch)
    );
    // a value that is not one of the pool's type
    let pool = ResourcePool::new("p".to_string(), ValueType::Integer);
    assert_eq!(
        populate(&pool, &mut store, txn, vec!["7".to_string(), "seven".to_string()], true),
        Err(ResourcePoolError::TypeMismatch)
    );
    assert_eq!(stats(&store, txn, "p").unwrap(), all_free(2));
}
