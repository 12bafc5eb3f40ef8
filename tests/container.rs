use std::cell::RefCell;
use std::collections::hash_map::DefaultHasher;
use std::hash::{Hash, Hasher};

use tank_game::{Attribute, AttributeContainer, Handle, Pool, RuleError, Value};

fn dummy_attribute() -> Attribute<u32> {
    Attribute::new("DUMMY_ATTRIBUTE")
}

#[test]
fn foo() {}

#[test]
fn can_get_and_set_basic_attributes() {
    let dummy = dummy_attribute();
    let mut container = AttributeContainer::new();
    container.set(&dummy, 123);
    assert_eq!(*container.get(&dummy).unwrap(), 123);
}

#[test]
fn can_check_if_an_attribute_exists() {
    let dummy = dummy_attribute();
    let mut container = AttributeContainer::new();
    assert!(!container.has(&dummy));
    container.set(&dummy, 5);
    assert!(container.has(&dummy));
}

#[test]
fn can_remove_an_attribute() {
    let dummy = dummy_attribute();
    let mut container = AttributeContainer::new();
    container.set(&dummy, 4);
    assert!(container.has(&dummy));
    container.remove(&dummy);
    assert!(!container.has(&dummy));
}

#[test]
fn get_after_set_returns_the_value() {
    let name = Attribute::<String>::new("NAME");
    let mut container = AttributeContainer::new();
    container.set(&name, String::from("tank"));
    assert_eq!(container.get(&name), Some(&String::from("tank")));
}

#[test]
fn unset_attribute_is_absent() {
    let dummy = dummy_attribute();
    let other = Attribute::<i32>::new("OTHER");
    let mut container = AttributeContainer::new();
    container.set(&other, -3);
    assert_eq!(container.get(&dummy), None);
    assert!(!container.has(&dummy));
}

#[test]
fn second_set_overwrites_the_first() {
    let dummy = dummy_attribute();
    let mut container = AttributeContainer::new();
    container.set(&dummy, 1);
    container.set(&dummy, 2);
    assert_eq!(container.get(&dummy), Some(&2));
    assert_eq!(container.iter().len(), 1);
}

#[test]
fn removing_an_absent_attribute_is_a_no_op() {
    let dummy = dummy_attribute();
    let other = Attribute::<bool>::new("OTHER");
    let mut container = AttributeContainer::new();
    container.set(&other, true);
    container.remove(&dummy);
    container.remove(&dummy);
    assert!(!container.has(&dummy));
    assert_eq!(container.get(&other), Some(&true));
}

#[test]
fn put_is_the_same_as_set() {
    let dummy = dummy_attribute();
    let mut container = AttributeContainer::new();
    container.put(&dummy, 9);
    assert_eq!(container.get(&dummy), Some(&9));
}

#[test]
fn get_or_else_returns_default_only_when_absent() {
    let gold = Attribute::<i32>::new("GOLD");
    let mut container = AttributeContainer::new();
    assert_eq!(container.get_or_else(&gold, 0), 0);
    container.set(&gold, 12);
    assert_eq!(container.get_or_else(&gold, 0), 12);
}

#[test]
fn get_unsafe_reads_a_present_value() {
    let durability = Attribute::<i32>::new("DURABILITY");
    let mut container = AttributeContainer::new();
    container.set(&durability, 3);
    assert_eq!(*container.get_unsafe(&durability), 3);
}

#[test]
fn class_is_kept() {
    let container = AttributeContainer::new_with_class(String::from("Tank"));
    assert_eq!(container.get_class(), Some(&String::from("Tank")));
    assert_eq!(AttributeContainer::new().get_class(), None);
}

#[test]
fn iter_lists_each_name_once() {
    let a = Attribute::<u64>::new("A");
    let b = Attribute::<i64>::new("B");
    let mut container = AttributeContainer::new();
    container.set(&a, 7);
    container.set(&b, -7);
    container.set(&a, 8);
    let entries = container.iter();
    assert_eq!(entries.len(), 2);
    assert_eq!(entries[0].0, "A");
    assert!(matches!(entries[0].1, Value::U64(8)));
    assert_eq!(entries[1].0, "B");
    assert!(matches!(entries[1].1, Value::I64(-7)));
}

#[test]
fn store_and_lookup_tagged_values() {
    let mut container = AttributeContainer::new();
    container.store(String::from("FLAG"), Value::Bool(true));
    assert!(matches!(container.lookup("FLAG"), Some(Value::Bool(true))));
    assert!(container.lookup("MISSING").is_none());
}

#[test]
fn attributes_are_equal_by_name() {
    let a = Attribute::<u32>::new("SPEED");
    let b = Attribute::<u32>::new("SPEED");
    let c = Attribute::<u32>::new("RANGE");
    assert!(a == b);
    assert!(a != c);
    assert_eq!(a.get_name(), "SPEED");
    assert_eq!(c.key(), "RANGE");
}

#[test]
fn handle_values_can_be_stored() {
    let mut pool = Pool::new();
    let target = pool.add_attribute_container();
    let player = Attribute::<Handle>::new("PLAYER");
    let mut container = AttributeContainer::new();
    container.set(&player, target);
    assert_eq!(container.get(&player), Some(&target));
}

#[test]
fn get_mut_writes_through() {
    let gold = Attribute::<i32>::new("GOLD");
    let mut container = AttributeContainer::new();
    assert!(container.get_mut(&gold).is_none());
    container.set(&gold, 10);
    *container.get_mut(&gold).unwrap() += 5;
    assert_eq!(container.get(&gold), Some(&15));
    *container.get_mut_unsafe(&gold) = 1;
    assert_eq!(container.get(&gold), Some(&1));
}

#[test]
fn visit_all_dispatches_each_entry_in_order() {
    let a = Attribute::<u32>::new("A");
    let b = Attribute::<String>::new("B");
    let mut container = AttributeContainer::new();
    container.set(&a, 1);
    container.set(&b, String::from("x"));

    let seen = RefCell::new(Vec::new());
    let result = container.visit_all(|name: &String, value: &Value| -> Result<(), RuleError> {
        match value {
            Value::U32(n) => seen.borrow_mut().push(format!("{}={}", name, n)),
            Value::Text(s) => seen.borrow_mut().push(format!("{}={}", name, s)),
            _ => return Err(RuleError::UnknownDiscriminator { discriminator: name.clone() }),
        }
        Ok(())
    });
    assert!(result.is_ok());
    assert_eq!(seen.into_inner(), vec![String::from("A=1"), String::from("B=x")]);

    let only_numbers = container.visit_all(|name: &String, value: &Value| -> Result<(), RuleError> {
        match value {
            Value::U32(_) => Ok(()),
            _ => Err(RuleError::UnknownDiscriminator { discriminator: name.clone() }),
        }
    });
    assert!(matches!(only_numbers, Err(RuleError::UnknownDiscriminator { discriminator }) if discriminator == "B"));
}

#[test]
fn equal_attributes_hash_alike() {
    let hash_of = |a: &Attribute<u32>| {
        let mut hasher = DefaultHasher::new();
        a.hash(&mut hasher);
        hasher.finish()
    };
    assert_eq!(hash_of(&Attribute::new("SPEED")), hash_of(&Attribute::new("SPEED")));
}
