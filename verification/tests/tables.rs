use dream::table::Table;
use dream::{Id, Object, Tables, WriteTransaction};

fn id(last: u8) -> Id {
    let mut value = [0u8; 16];
    value[15] = last;
    Id { value }
}

fn named(last: u8) -> Object {
    Object::Identified(id(last))
}

#[test]
fn table_keeps_its_keys_in_ascending_order() {
    let mut table: Table<Id, u32> = Table::new();
    assert_eq!(table.len(), 0);
    table.insert(id(5), 50);
    table.insert(id(1), 10);
    table.insert(id(9), 90);
    table.insert(id(3), 30);
    assert_eq!(table.len(), 4);
    assert_eq!(*table.key_at(0), id(1));
    assert_eq!(*table.key_at(1), id(3));
    assert_eq!(*table.key_at(2), id(5));
    assert_eq!(*table.key_at(3), id(9));
    assert_eq!(*table.value_at(2), 50);
}

#[test]
fn table_insert_sets_the_value_of_a_key_that_it_holds() {
    let mut table: Table<Id, u32> = Table::new();
    table.insert(id(5), 50);
    table.insert(id(5), 51);
    assert_eq!(table.len(), 1);
    assert_eq!(table.get(&id(5)), Some(&51));
    assert_eq!(table.get(&id(4)), None);
}

#[test]
fn table_remove_takes_the_key_out() {
    let mut table: Table<Id, u32> = Table::new();
    table.insert(id(1), 10);
    table.insert(id(2), 20);
    table.insert(id(3), 30);
    table.remove(&id(2));
    assert_eq!(table.len(), 2);
    assert_eq!(table.get(&id(2)), None);
    assert_eq!(table.get(&id(1)), Some(&10));
    assert_eq!(table.get(&id(3)), Some(&30));
    table.remove(&id(7));
    assert_eq!(table.len(), 2);
}

#[test]
fn table_seek_finds_the_first_key_that_does_not_come_before() {
    let mut table: Table<Id, u32> = Table::new();
    for last in [10u8, 20, 30] {
        table.insert(id(last), 0);
    }
    assert_eq!(table.seek(&id(0)), 0);
    assert_eq!(table.seek(&id(10)), 0);
    assert_eq!(table.seek(&id(11)), 1);
    assert_eq!(table.seek(&id(20)), 1);
    assert_eq!(table.seek(&id(30)), 2);
    assert_eq!(table.seek(&id(31)), 3);
}

#[test]
fn table_of_pairs_orders_by_the_first_then_by_the_second() {
    let mut table: Table<(Id, Id), ()> = Table::new();
    table.insert((id(2), id(1)), ());
    table.insert((id(1), id(9)), ());
    table.insert((id(1), id(3)), ());
    table.insert((id(2), id(0)), ());
    assert_eq!(*table.key_at(0), (id(1), id(3)));
    assert_eq!(*table.key_at(1), (id(1), id(9)));
    assert_eq!(*table.key_at(2), (id(2), id(0)));
    assert_eq!(*table.key_at(3), (id(2), id(1)));
    assert_eq!(table.seek(&(id(2), Id::default())), 2);
    assert_eq!(table.seek(&(id(1), id(4))), 1);
    assert!(table.get(&(id(1), id(9))).is_some());
    assert!(table.get(&(id(9), id(1))).is_none());
}

#[test]
fn new_tables_are_empty_and_consistent() {
    let tables = Tables::new();
    assert!(tables.is_consistent());
    assert_eq!(tables.tag_and_object.len(), 0);
    assert_eq!(tables.object_and_tag.len(), 0);
    assert_eq!(tables.id_to_source.len(), 0);
    assert_eq!(tables.tag_to_objects_count.len(), 0);
    assert_eq!(tables.object_to_tags_count.len(), 0);
}

#[test]
fn every_write_leaves_the_tables_consistent() {
    let mut tables = Tables::new();
    let a = Object::Raw("a".as_bytes().to_vec());
    let b = Object::Raw("b".as_bytes().to_vec());
    let c = Object::Raw("c".as_bytes().to_vec());
    let o1 = Object::Raw("o1".as_bytes().to_vec());
    let o2 = Object::Raw("o2".as_bytes().to_vec());
    let o3 = Object::Raw("o3".as_bytes().to_vec());

    let mut transaction = WriteTransaction::new(tables);
    transaction.insert(&o1, &vec![a.clone()]);
    tables = transaction.commit();
    assert!(tables.is_consistent());

    let mut transaction = WriteTransaction::new(tables);
    transaction.insert(&o2, &vec![a.clone(), b.clone()]);
    transaction.insert(&o3, &vec![a.clone(), b.clone(), c.clone(), a.clone()]);
    tables = transaction.commit();
    assert!(tables.is_consistent());
    assert_eq!(tables.tag_and_object.len(), 6);
    assert_eq!(tables.object_and_tag.len(), 6);
    assert_eq!(tables.tag_to_objects_count.get(&a.get_id()), Some(&3));
    assert_eq!(tables.tag_to_objects_count.get(&b.get_id()), Some(&2));
    assert_eq!(tables.tag_to_objects_count.get(&c.get_id()), Some(&1));
    assert_eq!(tables.object_to_tags_count.get(&o1.get_id()), Some(&1));
    assert_eq!(tables.object_to_tags_count.get(&o2.get_id()), Some(&2));
    assert_eq!(tables.object_to_tags_count.get(&o3.get_id()), Some(&3));
    assert_eq!(tables.id_to_source.len(), 6);

    let mut transaction = WriteTransaction::new(tables);
    transaction.remove_tags_from_object(&o3, &vec![a.clone(), c.clone()]);
    tables = transaction.commit();
    assert!(tables.is_consistent());
    assert_eq!(tables.tag_to_objects_count.get(&a.get_id()), Some(&2));
    assert_eq!(tables.tag_to_objects_count.get(&c.get_id()), None);
    assert_eq!(tables.object_to_tags_count.get(&o3.get_id()), Some(&1));
    assert!(tables.tag_and_object.get(&(b.get_id(), o3.get_id())).is_some());
    assert!(tables.object_and_tag.get(&(o3.get_id(), b.get_id())).is_some());
    assert!(tables.tag_and_object.get(&(a.get_id(), o3.get_id())).is_none());
    assert!(tables.object_and_tag.get(&(o3.get_id(), a.get_id())).is_none());

    let mut transaction = WriteTransaction::new(tables);
    transaction.remove_object(&o2);
    tables = transaction.commit();
    assert!(tables.is_consistent());
    assert_eq!(tables.tag_to_objects_count.get(&a.get_id()), Some(&1));
    assert_eq!(tables.tag_to_objects_count.get(&b.get_id()), Some(&1));
    assert_eq!(tables.tag_to_objects_count.get(&c.get_id()), None);
    assert_eq!(tables.object_to_tags_count.get(&o2.get_id()), None);
    assert_eq!(tables.tag_and_object.len(), 2);
    assert_eq!(tables.object_and_tag.len(), 2);

    let mut transaction = WriteTransaction::new(tables);
    transaction.remove_object(&o1);
    transaction.remove_object(&o3);
    tables = transaction.commit();
    assert!(tables.is_consistent());
    assert_eq!(tables.tag_and_object.len(), 0);
    assert_eq!(tables.tag_to_objects_count.len(), 0);
    assert_eq!(tables.object_to_tags_count.len(), 0);
}

#[test]
fn a_count_that_falls_to_zero_is_taken_out() {
    let mut transaction = WriteTransaction::new(Tables::new());
    transaction.insert(&named(1), &vec![named(10)]);
    transaction.insert(&named(2), &vec![named(10)]);
    transaction.remove_object(&named(1));
    let tables = transaction.commit();
    assert_eq!(tables.tag_to_objects_count.get(&id(10)), Some(&1));
    let mut transaction = WriteTransaction::new(tables);
    transaction.remove_object(&named(2));
    let tables = transaction.commit();
    assert_eq!(tables.tag_to_objects_count.get(&id(10)), None);
    assert!(tables.is_consistent());
}

#[test]
fn an_object_without_tags_is_counted_with_zero() {
    let mut transaction = WriteTransaction::new(Tables::new());
    transaction.insert(&named(1), &vec![]);
    let tables = transaction.commit();
    assert_eq!(tables.object_to_tags_count.get(&id(1)), Some(&0));
    assert!(tables.is_consistent());
}

fn consistent_parts() -> Tables {
    let mut tables = Tables::new();
    tables.tag_and_object.insert((id(10), id(1)), ());
    tables.tag_and_object.insert((id(10), id(2)), ());
    tables.object_and_tag.insert((id(1), id(10)), ());
    tables.object_and_tag.insert((id(2), id(10)), ());
    tables.tag_to_objects_count.insert(id(10), 2);
    tables.object_to_tags_count.insert(id(1), 1);
    tables.object_to_tags_count.insert(id(2), 1);
    tables
}

#[test]
fn tables_put_together_by_hand_are_consistent_where_they_agree() {
    let tables = consistent_parts();
    assert!(tables.is_consistent());
    let transaction = WriteTransaction::new(tables);
    assert_eq!(
        transaction.search(&vec![named(10)], &vec![], None).collect(),
        vec![id(1), id(2)]
    );
}

#[test]
fn a_pair_without_its_mirror_is_not_consistent() {
    let mut tables = consistent_parts();
    tables.object_and_tag.remove(&(id(2), id(10)));
    assert!(!tables.is_consistent());
    let mut tables = consistent_parts();
    tables.tag_and_object.remove(&(id(10), id(2)));
    assert!(!tables.is_consistent());
    let mut tables = consistent_parts();
    tables.object_and_tag.insert((id(10), id(1)), ());
    assert!(!tables.is_consistent());
}

#[test]
fn a_wrong_or_missing_count_is_not_consistent() {
    let mut tables = consistent_parts();
    tables.tag_to_objects_count.insert(id(10), 3);
    assert!(!tables.is_consistent());
    let mut tables = consistent_parts();
    tables.tag_to_objects_count.remove(&id(10));
    assert!(!tables.is_consistent());
    let mut tables = consistent_parts();
    tables.object_to_tags_count.insert(id(1), 0);
    assert!(!tables.is_consistent());
    let mut tables = consistent_parts();
    tables.object_to_tags_count.remove(&id(2));
    assert!(!tables.is_consistent());
    let mut tables = consistent_parts();
    tables.tag_to_objects_count.insert(id(11), 0);
    assert!(!tables.is_consistent());
    let mut tables = consistent_parts();
    tables.object_to_tags_count.insert(id(3), 0);
    assert!(tables.is_consistent());
}
