//! The registry: idempotent creation, implicit creation on append, lookup.

use tsdb::{new_shared_rw_lock, new_shared_rw_lock_vec, BTreeEngine, Raw, Sample};

#[test]
fn create_table_idempotent_test() {
    let mut engine = BTreeEngine::new();
    assert!(engine.get(&"cpu".to_string()).is_none());
    engine.create_table("cpu".to_string());
    assert!(engine.get(&"cpu".to_string()).is_some());
    engine.create_table("cpu".to_string());
    assert!(engine.get(&"cpu".to_string()).is_some());
    assert!(engine.get(&"mem".to_string()).is_none());
}

#[test]
fn engine_append_test() {
    let mut engine = BTreeEngine::new();
    engine.create_table("cpu".to_string());
    engine.append(Raw {
        table_name: "cpu".to_string(),
        data_point: Sample::new(1000, 1.0f64.to_bits()),
    });
    engine.append(Raw {
        table_name: "cpu".to_string(),
        data_point: Sample::new(1010, 2.0f64.to_bits()),
    });
    let ts = engine.get(&"cpu".to_string()).unwrap();
    let out = ts.scan(0, 7200);
    assert_eq!(out.len(), 2);
    assert_eq!(out[0], Sample::new(1000, 1.0f64.to_bits()));
    assert_eq!(out[1], Sample::new(1010, 2.0f64.to_bits()));
}

#[test]
fn engine_append_creates_test() {
    // appending to an unknown series registers it implicitly
    let mut engine = BTreeEngine::new();
    engine.append(Raw {
        table_name: "disk".to_string(),
        data_point: Sample::new(42, 3.5f64.to_bits()),
    });
    let ts = engine.get(&"disk".to_string()).unwrap();
    assert_eq!(ts.scan(0, 7200), vec![Sample::new(42, 3.5f64.to_bits())]);
}

#[test]
fn engine_two_series_test() {
    let mut engine = BTreeEngine::new();
    engine.append(Raw {
        table_name: "a".to_string(),
        data_point: Sample::new(1, 1.0f64.to_bits()),
    });
    engine.append(Raw {
        table_name: "b".to_string(),
        data_point: Sample::new(2, 2.0f64.to_bits()),
    });
    assert_eq!(engine.get(&"a".to_string()).unwrap().scan(0, 7200).len(), 1);
    assert_eq!(engine.get(&"b".to_string()).unwrap().scan(0, 7200).len(), 1);
}

#[test]
fn shared_lock_test() {
    let shared = new_shared_rw_lock(5u64);
    {
        let mut w = shared.write().unwrap();
        *w += 1;
    }
    assert_eq!(*shared.read().unwrap(), 6);

    let v = new_shared_rw_lock_vec::<u64>();
    v.write().unwrap().push(7);
    assert_eq!(v.read().unwrap().len(), 1);
}
