use autumn_core::bean::{autumn_id, AutumnBean, AutumnBeanMap, AutumnIdentified};
use autumn_core::service::RunnableMethodType;

struct Red;

struct Green;

impl AutumnIdentified for Red {
    const IDENTIFIER: u64 = 10;
    const NAME: &'static str = "Red";
}

impl AutumnBean for Red {}

impl AutumnIdentified for Green {
    const IDENTIFIER: u64 = 20;
    const NAME: &'static str = "Green";
}

impl AutumnBean for Green {}

#[test]
fn identifier_is_the_constant_of_the_type() {
    assert_eq!(autumn_id::<Red>(), 10);
    assert_eq!(autumn_id::<Green>(), 20);
    assert_eq!(autumn_id::<RunnableMethodType>(), 0);
}

#[test]
fn map_stores_by_type_and_name() {
    let mut map: AutumnBeanMap<String> = AutumnBeanMap::new();
    assert!(map.get::<Red>().is_none());
    assert!(map.lookup(10, None).is_none());
    assert!(map.keys().is_empty());
    assert_eq!(map.store(10, None, "red".to_string()), None);
    assert_eq!(map.store(10, Some("dark"), "dark red".to_string()), None);
    assert_eq!(map.store(20, Some("dark"), "dark green".to_string()), None);
    assert_eq!(map.lookup(10, None), Some(&"red".to_string()));
    assert_eq!(map.lookup(10, Some("dark")), Some(&"dark red".to_string()));
    assert_eq!(map.lookup(20, Some("dark")), Some(&"dark green".to_string()));
    assert_eq!(map.lookup(20, None), None);
    assert_eq!(map.lookup(30, None), None);
    assert_eq!(map.keys(), vec![10, 20]);
    assert_eq!(map.entries(), vec![(10, None), (10, Some("dark")), (20, Some("dark"))]);
    assert_eq!(map.store(10, Some("dark"), "maroon".to_string()), Some("dark red".to_string()));
    assert_eq!(map.lookup(10, Some("dark")), Some(&"maroon".to_string()));
    assert_eq!(map.entries(), vec![(10, None), (10, Some("dark")), (20, Some("dark"))]);
}

#[test]
fn map_take_removes_one_entry() {
    let mut map: AutumnBeanMap<u32> = AutumnBeanMap::new();
    map.store(10, None, 1);
    map.store(10, Some("a"), 2);
    map.store(10, Some("b"), 3);
    assert_eq!(map.take(20, None), None);
    assert_eq!(map.take(10, Some("c")), None);
    assert_eq!(map.take(10, Some("a")), Some(2));
    assert_eq!(map.take(10, Some("a")), None);
    assert_eq!(map.lookup(10, None), Some(&1));
    assert_eq!(map.lookup(10, Some("b")), Some(&3));
    assert_eq!(map.take(10, None), Some(1));
    assert_eq!(map.entries(), vec![(10, Some("b"))]);
    assert_eq!(map.keys(), vec![10]);
}

#[test]
fn slot_insert_get_remove() {
    let mut map: AutumnBeanMap<u32> = AutumnBeanMap::new();
    map.store(10, Some("first"), 1);
    map.store(10, None, 0);
    map.store(10, Some("second"), 2);
    let slot = map.get::<Red>().unwrap();
    assert_eq!(slot.get(None), Some(&0));
    assert_eq!(slot.get(Some("first")), Some(&1));
    assert_eq!(slot.get(Some("second")), Some(&2));
    assert_eq!(slot.get(Some("third")), None);
    assert_eq!(slot.names(), vec![None, Some("first"), Some("second")]);
    assert!(map.get::<Green>().is_none());
    assert!(map.get_by_id(10).is_some());
}

#[test]
fn entries_change_in_place() {
    let mut map: AutumnBeanMap<u32> = AutumnBeanMap::default();
    {
        let slot = map.get_mut::<Red>();
        assert_eq!(slot.names(), Vec::<Option<&'static str>>::new());
        assert_eq!(slot.insert(Some("a"), 1), None);
        assert_eq!(slot.insert(None, 2), None);
        assert_eq!(slot.insert(Some("a"), 3), Some(1));
        assert_eq!(slot.get_mut(Some("b")), None);
        *slot.get_mut(Some("a")).unwrap() += 10;
        *slot.get_mut(None).unwrap() += 20;
    }
    assert_eq!(map.lookup(10, Some("a")), Some(&13));
    assert_eq!(map.lookup(10, None), Some(&22));
    {
        let slot = map.get_mut_by_id(20);
        assert_eq!(slot.get(None), None);
        slot.insert(Some("g"), 5);
        assert_eq!(slot.remove(Some("g")), Some(5));
        assert_eq!(slot.remove(Some("g")), None);
        slot.insert(Some("h"), 6);
    }
    assert_eq!(map.keys(), vec![10, 20]);
    assert_eq!(map.entries(), vec![(10, None), (10, Some("a")), (20, Some("h"))]);
    assert_eq!(map.get::<Green>().unwrap().get(Some("h")), Some(&6));
}

#[test]
fn names_that_differ_in_one_character_are_distinct() {
    let mut map: AutumnBeanMap<u32> = AutumnBeanMap::new();
    map.store(1, Some("bean"), 1);
    map.store(1, Some("beam"), 2);
    map.store(1, Some(""), 3);
    assert_eq!(map.lookup(1, Some("bean")), Some(&1));
    assert_eq!(map.lookup(1, Some("beam")), Some(&2));
    assert_eq!(map.lookup(1, Some("")), Some(&3));
    assert_eq!(map.lookup(1, None), None);
    assert_eq!(map.lookup(1, Some("bea")), None);
    let owned = String::from("bean");
    let leaked: &'static str = Box::leak(owned.into_boxed_str());
    assert_eq!(map.lookup(1, Some(leaked)), Some(&1));
}
