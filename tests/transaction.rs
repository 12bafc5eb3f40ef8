use tank_game::{
    AddContainerModification, Attribute, AttributeModification, Handle, Index, Modification, Pool, RuleError,
    Transaction,
};

fn dummy_attribute() -> Attribute<u32> {
    Attribute::new("DUMMY_ATTRIBUTE")
}

#[test]
fn transaction_index_test() {
    let dummy = dummy_attribute();
    let mut pool = Pool::new();
    pool.add_index(&dummy, Index::new());

    let handle = pool.add_attribute_container();

    let mut transaction = Transaction::new();
    transaction.set_attribute(handle, &dummy, 2);

    transaction.apply(&mut pool).unwrap();

    pool.add_attribute_container();

    let index = pool.get_index(&dummy).unwrap();
    assert_eq!(index.handles(), vec![handle]);
}

#[test]
fn scenario_tank_gets_a_player() {
    let durability = Attribute::<i32>::new("DURABILITY");
    let player = Attribute::<Handle>::new("PLAYER");
    let mut pool = Pool::new();

    let h1 = pool.add_attribute_container();
    pool.set_attribute(h1, &durability, 1).unwrap();

    let mut transaction = Transaction::new();
    let h2 = transaction.add_container(&mut pool);
    transaction.set_attribute(h2, &durability, 1);
    let tank_durability = *pool.get_attribute(h1, &durability).unwrap();
    transaction.set_attribute(h1, &durability, tank_durability + 1);
    transaction.set_attribute(h1, &player, h2);
    transaction.apply(&mut pool).unwrap();

    let tank = pool.get_attribute_container(h1).unwrap();
    assert_eq!(tank.get(&player), Some(&h2));
    assert_eq!(tank.get(&durability), Some(&2));
    let created = pool.get_attribute_container(h2).unwrap();
    assert_eq!(created.get(&durability), Some(&1));
}

#[test]
fn last_write_in_a_transaction_wins() {
    let dummy = dummy_attribute();
    let mut pool = Pool::new();
    let handle = pool.add_attribute_container();
    let mut transaction = Transaction::new();
    transaction.add(Modification::SetAttribute(AttributeModification::new(handle, &dummy, 10)));
    transaction.add(Modification::SetAttribute(AttributeModification::new(handle, &dummy, 20)));
    transaction.apply(&mut pool).unwrap();
    assert_eq!(*pool.get_attribute(handle, &dummy).unwrap(), 20);
}

#[test]
fn failure_keeps_earlier_effects_and_stops() {
    let dummy = dummy_attribute();
    let mut pool = Pool::new();
    let present = pool.add_attribute_container();
    let missing = pool.new_handle();

    let mut transaction = Transaction::new();
    transaction.set_attribute(present, &dummy, 1);
    transaction.set_attribute(missing, &dummy, 2);
    transaction.set_attribute(present, &dummy, 3);
    let error = transaction.apply(&mut pool).unwrap_err();

    assert_eq!(error.position, 1);
    assert!(matches!(error.cause, RuleError::NotFound { handle } if handle == missing));
    assert_eq!(*pool.get_attribute(present, &dummy).unwrap(), 1);
    assert!(pool.get_attribute_container(missing).is_err());
}

#[test]
fn creating_a_container_twice_fails_at_the_second() {
    let mut pool = Pool::new();
    let (handle, first) = AddContainerModification::new(&mut pool);
    let second = AddContainerModification { handle };
    let mut transaction = Transaction::new();
    transaction.add(Modification::CreateContainer(first));
    transaction.add(Modification::CreateContainer(second));
    let error = transaction.apply(&mut pool).unwrap_err();
    assert_eq!(error.position, 1);
    assert!(matches!(error.cause, RuleError::DuplicateHandle { handle: h } if h == handle));
    assert!(pool.get_attribute_container(handle).is_ok());
}

#[test]
fn modification_applies_on_its_own() {
    let dummy = dummy_attribute();
    let mut pool = Pool::new();
    let (handle, create) = AddContainerModification::new(&mut pool);
    Modification::CreateContainer(create).apply(&mut pool).unwrap();
    Modification::SetAttribute(AttributeModification::new(handle, &dummy, 5)).apply(&mut pool).unwrap();
    assert_eq!(*pool.get_attribute(handle, &dummy).unwrap(), 5);
}

#[test]
fn empty_transaction_changes_nothing() {
    let mut pool = Pool::new();
    let handle = pool.add_attribute_container();
    Transaction::new().apply(&mut pool).unwrap();
    assert!(pool.get_attribute_container(handle).unwrap().iter().is_empty());
}

#[test]
fn index_stays_consistent_across_transactions() {
    let dummy = dummy_attribute();
    let mut pool = Pool::new();
    pool.add_index(&dummy, Index::new());

    let mut first = Transaction::new();
    let a = first.add_container(&mut pool);
    let b = first.add_container(&mut pool);
    first.set_attribute(a, &dummy, 1);
    first.apply(&mut pool).unwrap();

    let mut second = Transaction::new();
    second.set_attribute(b, &dummy, 2);
    second.set_attribute(a, &dummy, 3);
    second.apply(&mut pool).unwrap();

    let index = pool.get_index(&dummy).unwrap();
    assert_eq!(index.handles(), vec![a, b]);
    assert!(matches!(index.value_of(a), Some(tank_game::Value::U32(3))));
    assert!(matches!(index.value_of(b), Some(tank_game::Value::U32(2))));
}
