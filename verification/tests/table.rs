use epoch_map::row::Retired;
use epoch_map::table::Table;

#[test]
fn table_new_is_empty() {
    let table = Table::new(8);
    assert_eq!(table.nbuckets(), 8);
    assert_eq!(table.nitems(), 0);
    assert!(table.is_compact());
    let mut acc: Vec<Retired> = Vec::new();
    assert_eq!(table.get(1, &mut acc), None);
    assert!(acc.is_empty());
}

#[test]
fn table_counts_bound_keys() {
    let mut table = Table::new(4);
    let mut acc: Vec<Retired> = Vec::new();
    assert_eq!(table.insert(1, 1, &mut acc), None);
    assert_eq!(table.insert(2, 2, &mut acc), None);
    assert_eq!(table.nitems(), 2);
    assert_eq!(table.insert(2, 3, &mut acc), Some(2));
    assert_eq!(table.nitems(), 2);
    assert_eq!(table.delete(1, &mut acc), Some(1));
    assert_eq!(table.nitems(), 1);
    assert_eq!(table.delete(1, &mut acc), None);
    assert_eq!(table.nitems(), 1);
    assert_eq!(table.get(2, &mut acc), Some(3));
    assert_eq!(table.get(1, &mut acc), None);
}

#[test]
fn table_names_what_it_retires() {
    let mut table = Table::new(4);
    let mut acc: Vec<Retired> = Vec::new();
    table.insert(10, 1, &mut acc);
    assert!(acc.is_empty());
    table.insert(10, 2, &mut acc);
    assert_eq!(acc.len(), 1);
    assert!(acc[0].bucket < 4);
    assert_eq!(acc[0].slot, 0);
    table.delete(10, &mut acc);
    assert_eq!(acc.len(), 2);
    // The same key goes to the same bucket every time.
    assert_eq!(acc[1].bucket, acc[0].bucket);
    assert_eq!(acc[1].slot, 1);
    table.get(10, &mut acc);
    assert_eq!(acc.len(), 2);
}

#[test]
fn table_free_leaves_bindings_alone() {
    let mut table = Table::new(2);
    let mut acc: Vec<Retired> = Vec::new();
    let mut key: u64 = 0;
    while key < 10 {
        table.insert(key, key, &mut acc);
        key += 1;
    }
    key = 0;
    while key < 10 {
        table.insert(key, key + 100, &mut acc);
        key += 2;
    }
    table.delete(1, &mut acc);
    assert_eq!(acc.len(), 6);
    assert!(!table.is_compact());
    assert_eq!(table.nitems(), 9);
    table.free(&acc);
    assert!(table.is_compact());
    assert_eq!(table.nitems(), 9);
    let mut none: Vec<Retired> = Vec::new();
    assert_eq!(table.get(0, &mut none), Some(100));
    assert_eq!(table.get(1, &mut none), None);
    assert_eq!(table.get(2, &mut none), Some(102));
    assert_eq!(table.get(3, &mut none), Some(3));
    assert_eq!(table.get(9, &mut none), Some(9));
    table.free(&none);
    assert_eq!(table.nitems(), 9);
}

#[test]
fn table_spreads_keys_over_buckets() {
    // With one bucket every retirement lands in bucket 0; with many, the
    // keys below 64 do not all share one.
    let mut one = Table::new(1);
    let mut many = Table::new(16);
    let mut acc_one: Vec<Retired> = Vec::new();
    let mut acc_many: Vec<Retired> = Vec::new();
    let mut key: u64 = 0;
    while key < 64 {
        one.insert(key, 0, &mut acc_one);
        one.insert(key, 1, &mut acc_one);
        many.insert(key, 0, &mut acc_many);
        many.insert(key, 1, &mut acc_many);
        key += 1;
    }
    assert_eq!(acc_one.len(), 64);
    assert!(acc_one.iter().all(|r| r.bucket == 0));
    assert_eq!(acc_many.len(), 64);
    assert!(acc_many.iter().all(|r| r.bucket < 16));
    assert!(acc_many.iter().any(|r| r.bucket != acc_many[0].bucket));
}
