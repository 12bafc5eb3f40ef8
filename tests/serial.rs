use tank_game::serial::{from_tagged, to_tagged};
use tank_game::{
    Attribute, AttributeContainer, ContainerRecord, Handle, Payload, Pool, PoolRecord, RuleError, TaggedValue, Value,
};

#[test]
fn container_round_trips_through_its_record() {
    let mut pool = Pool::new();
    let other = pool.add_attribute_container();
    let durability = Attribute::<i32>::new("DURABILITY");
    let name = Attribute::<String>::new("NAME");
    let walkable = Attribute::<bool>::new("WALKABLE");
    let gold = Attribute::<i64>::new("GOLD");
    let range = Attribute::<u32>::new("RANGE");
    let big = Attribute::<u64>::new("BIG");
    let player = Attribute::<Handle>::new("PLAYER");

    let mut container = AttributeContainer::new_with_class(String::from("Tank"));
    container.set(&durability, -4);
    container.set(&name, String::from("alpha"));
    container.set(&walkable, false);
    container.set(&gold, 1 << 40);
    container.set(&range, 3);
    container.set(&big, u64::MAX);
    container.set(&player, other);

    let record = container.to_record();
    assert_eq!(record.values.len(), 7);
    let rebuilt = AttributeContainer::from_record(&record).unwrap();

    assert_eq!(rebuilt.get_class(), Some(&String::from("Tank")));
    assert_eq!(rebuilt.iter().len(), 7);
    assert_eq!(rebuilt.get(&durability), Some(&-4));
    assert_eq!(rebuilt.get(&name), Some(&String::from("alpha")));
    assert_eq!(rebuilt.get(&walkable), Some(&false));
    assert_eq!(rebuilt.get(&gold), Some(&(1 << 40)));
    assert_eq!(rebuilt.get(&range), Some(&3));
    assert_eq!(rebuilt.get(&big), Some(&u64::MAX));
    assert_eq!(rebuilt.get(&player), Some(&other));
}

#[test]
fn values_carry_their_discriminator() {
    let tagged = to_tagged(&Value::I32(-5));
    assert_eq!(tagged.discriminator, "i32");
    assert!(matches!(tagged.payload, Payload::Int(-5)));

    let tagged = to_tagged(&Value::Text(String::from("x")));
    assert_eq!(tagged.discriminator, "string");
    assert!(matches!(tagged.payload, Payload::Text(ref s) if s == "x"));

    let tagged = to_tagged(&Value::U32(7));
    assert_eq!(tagged.discriminator, "u32");
    assert!(matches!(tagged.payload, Payload::UInt(7)));

    assert_eq!(to_tagged(&Value::Bool(true)).discriminator, "bool");
    assert_eq!(to_tagged(&Value::I64(1)).discriminator, "i64");
    assert_eq!(to_tagged(&Value::U64(1)).discriminator, "u64");
}

#[test]
fn unknown_discriminator_is_an_error() {
    let tagged = TaggedValue { discriminator: String::from("float"), payload: Payload::Int(1) };
    match from_tagged(&tagged) {
        Err(RuleError::UnknownDiscriminator { discriminator }) => assert_eq!(discriminator, "float"),
        other => panic!("expected UnknownDiscriminator, got {:?}", other),
    }
}

#[test]
fn payload_of_the_wrong_shape_is_an_error() {
    let tagged = TaggedValue { discriminator: String::from("bool"), payload: Payload::Int(1) };
    assert!(matches!(from_tagged(&tagged), Err(RuleError::MalformedPayload { .. })));
    let too_big = TaggedValue { discriminator: String::from("i32"), payload: Payload::Int(1 << 40) };
    assert!(matches!(from_tagged(&too_big), Err(RuleError::MalformedPayload { discriminator }) if discriminator == "i32"));
    let too_big = TaggedValue { discriminator: String::from("u32"), payload: Payload::UInt(1 << 33) };
    assert!(matches!(from_tagged(&too_big), Err(RuleError::MalformedPayload { .. })));
}

#[test]
fn record_with_a_bad_entry_is_refused() {
    let record = ContainerRecord {
        class: None,
        values: vec![
            (String::from("A"), TaggedValue { discriminator: String::from("u64"), payload: Payload::UInt(1) }),
            (String::from("B"), TaggedValue { discriminator: String::from("blob"), payload: Payload::UInt(2) }),
        ],
    };
    assert!(matches!(
        AttributeContainer::from_record(&record),
        Err(RuleError::UnknownDiscriminator { discriminator }) if discriminator == "blob"
    ));
}

#[test]
fn record_entries_are_stored_in_order() {
    let record = ContainerRecord {
        class: None,
        values: vec![
            (String::from("A"), TaggedValue { discriminator: String::from("i64"), payload: Payload::Int(1) }),
            (String::from("A"), TaggedValue { discriminator: String::from("i64"), payload: Payload::Int(2) }),
        ],
    };
    let container = AttributeContainer::from_record(&record).unwrap();
    let a = Attribute::<i64>::new("A");
    assert_eq!(container.get(&a), Some(&2));
    assert_eq!(container.get_class(), None);
}

#[test]
fn pool_round_trips_through_its_record() {
    let durability = Attribute::<i32>::new("DURABILITY");
    let player = Attribute::<Handle>::new("PLAYER");
    let mut pool = Pool::new();
    let tank = pool.add_attribute_container();
    let owner = pool.add_attribute_container();
    pool.set_attribute(tank, &durability, 2).unwrap();
    pool.set_attribute(tank, &player, owner).unwrap();
    pool.set_attribute(owner, &durability, 1).unwrap();

    let record = pool.to_record();
    assert_eq!(record.containers.len(), 2);
    let mut rebuilt = Pool::from_record(&record).unwrap();

    assert_eq!(*rebuilt.get_attribute(tank, &durability).unwrap(), 2);
    assert_eq!(*rebuilt.get_attribute(tank, &player).unwrap(), owner);
    assert_eq!(*rebuilt.get_attribute(owner, &durability).unwrap(), 1);

    // New handles from the rebuilt pool do not collide with restored ones.
    let fresh = rebuilt.add_attribute_container();
    assert_ne!(fresh, tank);
    assert_ne!(fresh, owner);
}

#[test]
fn pool_record_with_a_repeated_handle_is_refused() {
    let mut pool = Pool::new();
    pool.add_attribute_container();
    let mut record = pool.to_record();
    let copy = AttributeContainer::new().to_record();
    let id = record.containers[0].0;
    record.containers.push((id, copy));
    assert!(matches!(Pool::from_record(&record), Err(RuleError::DuplicateHandle { .. })));
}

#[test]
fn pool_record_with_an_unmintable_handle_is_refused() {
    let record = PoolRecord { containers: vec![(u64::MAX, AttributeContainer::new().to_record())] };
    assert!(matches!(Pool::from_record(&record), Err(RuleError::ForeignHandle { .. })));
}
