use tank_game::{Attribute, AttributeContainer, GatheredResult, Handle, Index, Pool, RuleError, Transaction};

fn dummy_attribute() -> Attribute<u32> {
    Attribute::new("DUMMY_ATTRIBUTE")
}

#[test]
fn pool_can_modify_and_retrieve_containers() {
    let dummy = dummy_attribute();
    let mut pool = Pool::new();
    let handle = pool.add_attribute_container();

    pool.set_attribute(handle, &dummy, 2).unwrap();

    let container = pool.get_attribute_container(handle).unwrap();
    assert_eq!(*container.get(&dummy).unwrap(), 2);
}

#[test]
fn pool_can_add_a_container_with_an_existing_handle() {
    let mut pool = Pool::new();
    let handle = pool.new_handle();

    pool.add_attribute_container_with_handle(handle).unwrap();
    pool.get_attribute_container(handle).unwrap();

    let error = pool.add_attribute_container_with_handle(handle);
    assert!(error.is_err());
}

#[test]
fn pool_can_gather_containers() {
    let dummy = dummy_attribute();
    let mut pool = Pool::new();
    let first_handle = pool.add_attribute_container();
    pool.set_attribute(first_handle, &dummy, 2).unwrap();

    let second_handle = pool.add_attribute_container();
    pool.set_attribute(second_handle, &dummy, 1).unwrap();

    pool.add_attribute_container();

    // Gather one of the containers
    let one: Vec<GatheredResult> = pool.gather(|container: &AttributeContainer| container.get_or_else(&dummy, 5) < 2);

    assert_eq!(one.len(), 1);
    assert_eq!(one[0].handle, second_handle);
    assert_eq!(*one[0].container.get(&dummy).unwrap(), 1);

    // Gather both of the ones with attributes
    let two: Vec<Handle> = pool
        .gather(|container: &AttributeContainer| container.has(&dummy))
        .iter()
        .map(|result| result.handle)
        .collect();

    println!("{:?} - {:?}, {:?}", two, first_handle, second_handle);
    assert_eq!(two.len(), 2);
    assert!(two.contains(&first_handle));
    assert!(two.contains(&second_handle));
}

#[test]
fn can_gather_containers_from_handles() {
    let dummy = dummy_attribute();
    let mut pool = Pool::new();
    let first_handle = pool.add_attribute_container();
    pool.set_attribute(first_handle, &dummy, 2).unwrap();

    let second_handle = pool.add_attribute_container();
    pool.set_attribute(second_handle, &dummy, 1).unwrap();

    pool.add_attribute_container();

    // Gather two of the containers
    let matches = pool.gather_handles(&[first_handle, second_handle]).unwrap();

    assert_eq!(matches.len(), 2);

    let handles: Vec<Handle> = matches.iter().map(|result| result.handle).collect();
    assert!(handles.contains(&first_handle));
    assert!(handles.contains(&second_handle));

    let attributes: Vec<u32> = matches.iter().map(|result| *result.container.get(&dummy).unwrap()).collect();
    assert!(attributes.contains(&1));
    assert!(attributes.contains(&2));
}

#[test]
fn pool_index_test() {
    let dummy = dummy_attribute();
    let mut pool = Pool::new();
    pool.add_index(&dummy, Index::new());

    pool.add_attribute_container();

    let handle = pool.add_attribute_container();

    let mut transaction = Transaction::new();
    transaction.set_attribute(handle, &dummy, 2);

    transaction.apply(&mut pool).unwrap();

    let index = pool.get_index(&dummy).unwrap();
    let matches = pool.gather_handles(&index.handles()).unwrap();

    assert_eq!(matches.len(), 1);
    assert_eq!(matches[0].handle, handle);
}

#[test]
fn handles_from_add_container_are_distinct() {
    let mut pool = Pool::new();
    let mut handles: Vec<Handle> = Vec::new();
    for _ in 0..50 {
        handles.push(pool.add_attribute_container());
    }
    for i in 0..handles.len() {
        for j in 0..handles.len() {
            if i != j {
                assert_ne!(handles[i], handles[j]);
            }
        }
    }
}

#[test]
fn duplicate_handle_leaves_the_container_untouched() {
    let dummy = dummy_attribute();
    let mut pool = Pool::new();
    let handle = pool.add_attribute_container();
    pool.set_attribute(handle, &dummy, 42).unwrap();

    let result = pool.add_attribute_container_with_handle(handle);
    assert!(matches!(result, Err(RuleError::DuplicateHandle { handle: h }) if h == handle));
    assert_eq!(pool.get_attribute_container(handle).unwrap().get(&dummy), Some(&42));
}

#[test]
fn handle_from_another_pool_is_refused() {
    let mut other = Pool::new();
    other.add_attribute_container();
    other.add_attribute_container();
    let foreign = other.add_attribute_container();

    let mut pool = Pool::new();
    let result = pool.add_attribute_container_with_handle(foreign);
    assert!(matches!(result, Err(RuleError::ForeignHandle { handle: h }) if h == foreign));
    assert!(matches!(pool.get_attribute_container(foreign), Err(RuleError::NotFound { .. })));
}

#[test]
fn missing_container_is_not_found() {
    let dummy = dummy_attribute();
    let mut pool = Pool::new();
    let handle = pool.new_handle();
    assert!(matches!(pool.get_attribute_container(handle), Err(RuleError::NotFound { handle: h }) if h == handle));
    assert!(matches!(pool.set_attribute(handle, &dummy, 1), Err(RuleError::NotFound { .. })));
    assert!(matches!(pool.gather_handles(&[handle]), Err(RuleError::NotFound { handle: h }) if h == handle));
}

#[test]
fn missing_attribute_is_reported() {
    let dummy = dummy_attribute();
    let mut pool = Pool::new();
    let handle = pool.add_attribute_container();
    match pool.get_attribute(handle, &dummy) {
        Err(RuleError::AttributeNotFound { name }) => assert_eq!(name, "DUMMY_ATTRIBUTE"),
        other => panic!("expected AttributeNotFound, got {:?}", other),
    }
    pool.set_attribute(handle, &dummy, 6).unwrap();
    assert_eq!(*pool.get_attribute(handle, &dummy).unwrap(), 6);
}

#[test]
fn missing_index_is_reported() {
    let dummy = dummy_attribute();
    let pool = Pool::new();
    match pool.get_index(&dummy) {
        Err(RuleError::IndexMissing { name }) => assert_eq!(name, "DUMMY_ATTRIBUTE"),
        Err(other) => panic!("expected IndexMissing, got {:?}", other),
        Ok(_) => panic!("no index was registered"),
    }
}

#[test]
fn index_tracks_added_and_updated_values() {
    let dummy = dummy_attribute();
    let other = Attribute::<i32>::new("OTHER");
    let mut pool = Pool::new();
    pool.add_index(&dummy, Index::new());
    let a = pool.add_attribute_container();
    let b = pool.add_attribute_container();
    let c = pool.add_attribute_container();
    pool.set_attribute(b, &dummy, 1).unwrap();
    pool.set_attribute(a, &dummy, 2).unwrap();
    pool.set_attribute(b, &dummy, 3).unwrap();
    pool.set_attribute(c, &other, 4).unwrap();

    let index = pool.get_index(&dummy).unwrap();
    assert_eq!(index.handles(), vec![b, a]);
    assert_eq!(index.len(), 2);
    assert!(index.contains(a));
    assert!(!index.contains(c));
    assert!(matches!(index.value_of(b), Some(tank_game::Value::U32(3))));
    assert!(index.value_of(c).is_none());

    // The handles the index reports are exactly those whose container has the attribute.
    let with_attribute: Vec<Handle> = pool
        .gather(|container: &AttributeContainer| container.has(&dummy))
        .iter()
        .map(|result| result.handle)
        .collect();
    assert_eq!(with_attribute, vec![a, b]);
    for h in &with_attribute {
        assert!(index.contains(*h));
    }
}

#[test]
fn gather_keeps_creation_order() {
    let dummy = dummy_attribute();
    let mut pool = Pool::new();
    let first = pool.add_attribute_container();
    let second = pool.add_attribute_container();
    pool.set_attribute(second, &dummy, 1).unwrap();
    pool.set_attribute(first, &dummy, 1).unwrap();
    let all: Vec<Handle> = pool.gather(|_container: &AttributeContainer| true).iter().map(|r| r.handle).collect();
    assert_eq!(all, vec![first, second]);
    assert!(pool.gather(|_container: &AttributeContainer| false).is_empty());
}

#[test]
fn creation_order_is_kept_by_records_and_indexes() {
    let dummy = dummy_attribute();
    let mut pool = Pool::new();
    pool.add_index(&dummy, Index::new());
    let a = pool.add_attribute_container();
    let b = pool.add_attribute_container();
    pool.set_attribute(b, &dummy, 1).unwrap();
    pool.set_attribute(a, &dummy, 2).unwrap();
    let record = pool.to_record();
    let ids: Vec<u64> = record.containers.iter().map(|(id, _)| *id).collect();
    let rebuilt = Pool::from_record(&record).unwrap();
    let order: Vec<Handle> = rebuilt.gather(|_c: &AttributeContainer| true).iter().map(|r| r.handle).collect();
    assert_eq!(order, vec![a, b]);
    assert_eq!(ids.len(), 2);
    assert_eq!(pool.get_index(&dummy).unwrap().handles(), vec![b, a]);
}
