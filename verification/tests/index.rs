use dream::{Id, Object, ReadTransaction, Tables, WriteTransaction};

fn id(last: u8) -> Id {
    let mut value = [0u8; 16];
    value[15] = last;
    Id { value }
}

fn named(last: u8) -> Object {
    Object::Identified(id(last))
}

fn raw(text: &str) -> Object {
    Object::Raw(text.as_bytes().to_vec())
}

fn ids(of: &[u8]) -> Vec<Id> {
    of.iter().map(|last| id(*last)).collect()
}

/// Objects 1..=6 with tags out of 101..=104.
fn sample() -> WriteTransaction {
    let mut transaction = WriteTransaction::new(Tables::new());
    transaction.insert(&named(1), &vec![named(101)]);
    transaction.insert(&named(2), &vec![named(101), named(102)]);
    transaction.insert(&named(3), &vec![named(101), named(102), named(103)]);
    transaction.insert(&named(4), &vec![named(102), named(103)]);
    transaction.insert(&named(5), &vec![named(101), named(103), named(104)]);
    transaction.insert(&named(6), &vec![]);
    transaction
}

#[test]
fn identifiers_are_ordered_as_byte_strings() {
    let mut low = [0u8; 16];
    low[0] = 1;
    low[15] = 255;
    let mut high = [0u8; 16];
    high[0] = 2;
    let low = Id { value: low };
    let high = Id { value: high };
    assert!(low.less(&high));
    assert!(!high.less(&low));
    assert!(!low.less(&low));
    assert!(low.same(&low));
    assert!(!low.same(&high));
    assert!(id(1).less(&id(2)));
    assert!(id(255).less(&low));
    assert_eq!(low.less(&high), low < high);
}

#[test]
fn default_identifier_is_sixteen_zero_bytes_and_the_least() {
    assert_eq!(Id::default(), Id { value: [0u8; 16] });
    assert!(!id(0).less(&Id::default()));
    assert!(Id::default().same(&id(0)));
    assert!(Id::default().less(&id(1)));
}

#[test]
fn identifier_of_a_hash_holds_its_bytes_least_significant_first() {
    let hash: u128 = 0x0f0e0d0c_0b0a0908_07060504_03020100;
    assert_eq!(
        Id::from_hash(hash),
        Id { value: [0, 1, 2, 3, 4, 5, 6, 7, 8, 9, 10, 11, 12, 13, 14, 15] }
    );
    assert_eq!(Id::from_hash(1).value[0], 1);
    assert_eq!(Id::from_hash(1u128 << 127).value[15], 0x80);
}

#[test]
fn identified_object_is_its_identifier() {
    assert_eq!(named(7).get_id(), id(7));
}

#[test]
fn equal_bytes_have_equal_identifiers() {
    assert_eq!(raw("same").get_id(), raw("same").get_id());
}

#[test]
fn insert_then_get_tags_gives_the_inserted_tags() {
    let mut transaction = WriteTransaction::new(Tables::new());
    transaction.insert(&named(1), &vec![named(30), named(10), named(20)]);
    assert_eq!(transaction.get_tags(&named(1)), ids(&[10, 20, 30]));
    assert!(transaction.has_object(&named(1)));
    assert!(transaction.has_tag(&named(1), &named(20)));
    assert!(!transaction.has_tag(&named(1), &named(40)));
    assert!(!transaction.has_tag(&named(2), &named(20)));
}

#[test]
fn insert_adds_to_the_tags_that_the_object_had() {
    let mut transaction = WriteTransaction::new(Tables::new());
    transaction.insert(&named(1), &vec![named(10)]);
    transaction.insert(&named(1), &vec![named(20)]);
    assert_eq!(transaction.get_tags(&named(1)), ids(&[10, 20]));
}

#[test]
fn insert_twice_changes_nothing() {
    let mut transaction = WriteTransaction::new(Tables::new());
    let tags = vec![named(10), named(20)];
    transaction.insert(&named(1), &tags);
    transaction.insert(&named(1), &tags);
    assert_eq!(transaction.get_tags(&named(1)), ids(&[10, 20]));
    assert_eq!(transaction.links(), 2);
    assert_eq!(
        transaction.search(&vec![named(10)], &vec![], None).collect(),
        ids(&[1])
    );
}

#[test]
fn insert_passes_over_a_tag_that_stands_twice() {
    let mut transaction = WriteTransaction::new(Tables::new());
    transaction.insert(&named(1), &vec![named(10), named(10), named(20), named(10)]);
    assert_eq!(transaction.get_tags(&named(1)), ids(&[10, 20]));
    assert_eq!(transaction.links(), 2);
    transaction.remove_tags_from_object(&named(1), &vec![named(10)]);
    assert_eq!(transaction.get_tags(&named(1)), ids(&[20]));
    assert!(!transaction.has_object_with_tag(&named(10)));
}

#[test]
fn insert_without_tags_makes_the_object_known() {
    let mut transaction = WriteTransaction::new(Tables::new());
    transaction.insert(&named(1), &vec![]);
    assert!(transaction.has_object(&named(1)));
    assert_eq!(transaction.get_tags(&named(1)), ids(&[]));
    assert_eq!(
        transaction.search(&vec![], &vec![], None).collect(),
        ids(&[1])
    );
    transaction.remove_tags_from_object(&named(1), &vec![]);
    assert!(!transaction.has_object(&named(1)));
}

#[test]
fn insert_then_remove_tags_forgets_the_object() {
    let mut transaction = WriteTransaction::new(Tables::new());
    let tags = vec![named(10), named(20)];
    transaction.insert(&named(1), &tags);
    transaction.remove_tags_from_object(&named(1), &tags);
    assert!(!transaction.has_object(&named(1)));
    assert_eq!(transaction.get_tags(&named(1)), ids(&[]));
    assert_eq!(transaction.links(), 0);
    assert!(!transaction.has_object_with_tag(&named(10)));
}

#[test]
fn remove_tags_keeps_an_object_that_has_other_tags() {
    let mut transaction = WriteTransaction::new(Tables::new());
    transaction.insert(&named(1), &vec![named(10)]);
    transaction.insert(&named(1), &vec![named(20), named(30)]);
    transaction.remove_tags_from_object(&named(1), &vec![named(20), named(30)]);
    assert!(transaction.has_object(&named(1)));
    assert_eq!(transaction.get_tags(&named(1)), ids(&[10]));
}

#[test]
fn remove_tags_passes_over_tags_that_the_object_does_not_carry() {
    let mut transaction = sample();
    transaction.remove_tags_from_object(&named(1), &vec![named(102), named(104)]);
    assert_eq!(transaction.get_tags(&named(1)), ids(&[101]));
    assert_eq!(
        transaction.search(&vec![named(102)], &vec![], None).collect(),
        ids(&[2, 3, 4])
    );
    assert_eq!(
        transaction.search(&vec![named(104)], &vec![], None).collect(),
        ids(&[5])
    );
}

#[test]
fn remove_tags_passes_over_a_tag_that_stands_twice() {
    let mut transaction = sample();
    transaction.remove_tags_from_object(&named(3), &vec![named(101), named(101)]);
    assert!(transaction.has_object(&named(3)));
    assert_eq!(transaction.get_tags(&named(3)), ids(&[102, 103]));
    assert_eq!(
        transaction.search(&vec![named(101)], &vec![], None).collect(),
        ids(&[1, 2, 5])
    );
}

#[test]
fn remove_tags_from_an_unknown_object_changes_nothing() {
    let mut transaction = sample();
    transaction.remove_tags_from_object(&named(9), &vec![named(101)]);
    assert_eq!(transaction.links(), 11);
    assert_eq!(
        transaction.search(&vec![named(101)], &vec![], None).collect(),
        ids(&[1, 2, 3, 5])
    );
}

#[test]
fn insert_then_remove_object_leaves_no_tag() {
    let mut transaction = WriteTransaction::new(Tables::new());
    transaction.insert(&named(1), &vec![named(10), named(20)]);
    transaction.insert(&named(2), &vec![named(10)]);
    transaction.remove_object(&named(1));
    assert!(!transaction.has_object(&named(1)));
    assert_eq!(transaction.get_tags(&named(1)), ids(&[]));
    assert!(!transaction.has_tag(&named(1), &named(10)));
    assert!(transaction.has_object_with_tag(&named(10)));
    assert!(!transaction.has_object_with_tag(&named(20)));
    assert_eq!(transaction.links(), 1);
    assert_eq!(
        transaction.search(&vec![], &vec![], None).collect(),
        ids(&[2])
    );
}

#[test]
fn remove_object_that_is_unknown_changes_nothing() {
    let mut transaction = sample();
    transaction.remove_object(&named(9));
    assert_eq!(transaction.links(), 11);
    assert_eq!(
        transaction.search(&vec![], &vec![], None).collect(),
        ids(&[1, 2, 3, 4, 5, 6])
    );
}

#[test]
fn sources_come_and_go_with_raw_objects_and_tags() {
    let mut transaction = WriteTransaction::new(Tables::new());
    let object = raw("object");
    let tag = raw("tag");
    transaction.insert(&object, &vec![tag.clone(), named(7)]);
    assert_eq!(transaction.get_source(&object.get_id()), Some(object.clone()));
    assert_eq!(transaction.get_source(&tag.get_id()), Some(tag.clone()));
    assert_eq!(transaction.get_source(&id(7)), None);
    transaction.remove_tags_from_object(&object, &vec![tag.clone()]);
    assert_eq!(transaction.get_source(&tag.get_id()), None);
    assert_eq!(transaction.get_source(&object.get_id()), Some(object.clone()));
    transaction.remove_tags_from_object(&object, &vec![named(7)]);
    assert_eq!(transaction.get_source(&object.get_id()), None);
    assert!(!transaction.has_object(&object));
}

#[test]
fn source_of_a_tag_stays_while_another_object_carries_it() {
    let mut transaction = WriteTransaction::new(Tables::new());
    let tag = raw("tag");
    transaction.insert(&named(1), &vec![tag.clone()]);
    transaction.insert(&named(2), &vec![tag.clone()]);
    transaction.remove_tags_from_object(&named(1), &vec![tag.clone()]);
    assert_eq!(transaction.get_source(&tag.get_id()), Some(tag.clone()));
    transaction.remove_tags_from_object(&named(2), &vec![tag.clone()]);
    assert_eq!(transaction.get_source(&tag.get_id()), None);
}

#[test]
fn remove_object_takes_its_bytes_and_leaves_those_of_its_tags() {
    let mut transaction = WriteTransaction::new(Tables::new());
    let object = raw("object");
    let tag = raw("tag");
    transaction.insert(&object, &vec![tag.clone()]);
    transaction.remove_object(&object);
    assert_eq!(transaction.get_source(&object.get_id()), None);
    assert_eq!(transaction.get_source(&tag.get_id()), Some(tag.clone()));
    assert!(!transaction.has_object_with_tag(&tag));
}

#[test]
fn remove_object_by_identifier_leaves_its_bytes() {
    let mut transaction = WriteTransaction::new(Tables::new());
    let object = raw("object");
    transaction.insert(&object, &vec![named(7)]);
    transaction.remove_object(&Object::Identified(object.get_id()));
    assert!(!transaction.has_object(&object));
    assert_eq!(transaction.get_source(&object.get_id()), Some(object.clone()));
}

#[test]
fn a_tag_that_the_object_carries_keeps_its_old_bytes() {
    let mut transaction = WriteTransaction::new(Tables::new());
    let tag = raw("tag");
    transaction.insert(&named(1), &vec![Object::Identified(tag.get_id())]);
    transaction.insert(&named(1), &vec![tag.clone()]);
    assert_eq!(transaction.get_source(&tag.get_id()), None);
    transaction.insert(&named(2), &vec![tag.clone()]);
    assert_eq!(transaction.get_source(&tag.get_id()), Some(tag.clone()));
}

#[test]
fn has_object_with_tag_follows_the_posting_list() {
    let mut transaction = sample();
    assert!(transaction.has_object_with_tag(&named(104)));
    assert!(!transaction.has_object_with_tag(&named(105)));
    assert!(!transaction.has_object_with_tag(&named(1)));
    transaction.remove_object(&named(5));
    assert!(!transaction.has_object_with_tag(&named(104)));
    assert!(transaction.has_object_with_tag(&named(103)));
}

#[test]
fn links_counts_the_pairs() {
    let transaction = sample();
    assert_eq!(transaction.links(), 11);
    assert_eq!(WriteTransaction::new(Tables::new()).links(), 0);
}

#[test]
fn search_yields_the_objects_with_all_present_and_no_absent_tag() {
    let transaction = sample();
    assert_eq!(
        transaction.search(&vec![named(101)], &vec![], None).collect(),
        ids(&[1, 2, 3, 5])
    );
    assert_eq!(
        transaction
            .search(&vec![named(101), named(102)], &vec![], None)
            .collect(),
        ids(&[2, 3])
    );
    assert_eq!(
        transaction
            .search(&vec![named(101), named(102), named(103)], &vec![], None)
            .collect(),
        ids(&[3])
    );
    assert_eq!(
        transaction
            .search(&vec![named(101), named(103)], &vec![named(102)], None)
            .collect(),
        ids(&[5])
    );
    assert_eq!(
        transaction
            .search(&vec![named(101)], &vec![named(102), named(104)], None)
            .collect(),
        ids(&[1])
    );
    assert_eq!(
        transaction
            .search(&vec![], &vec![named(101)], None)
            .collect(),
        ids(&[4, 6])
    );
    assert_eq!(
        transaction
            .search(&vec![named(102), named(103)], &vec![named(101)], None)
            .collect(),
        ids(&[4])
    );
}

#[test]
fn search_after_an_identifier_yields_what_lies_behind_it() {
    let transaction = sample();
    assert_eq!(
        transaction
            .search(&vec![named(101)], &vec![], Some(id(2)))
            .collect(),
        ids(&[3, 5])
    );
    assert_eq!(
        transaction
            .search(&vec![named(101), named(102)], &vec![], Some(id(2)))
            .collect(),
        ids(&[3])
    );
    assert_eq!(
        transaction.search(&vec![], &vec![], Some(id(3))).collect(),
        ids(&[4, 5, 6])
    );
    assert_eq!(
        transaction
            .search(&vec![named(101), named(103)], &vec![], Some(id(3)))
            .collect(),
        ids(&[5])
    );
}

#[test]
fn search_after_the_last_identifier_yields_nothing() {
    let transaction = sample();
    let last = Id { value: [255u8; 16] };
    assert_eq!(
        transaction.search(&vec![], &vec![], Some(last)).collect(),
        ids(&[])
    );
    assert_eq!(
        transaction
            .search(&vec![named(101)], &vec![], Some(last))
            .collect(),
        ids(&[])
    );
    assert_eq!(
        transaction
            .search(&vec![named(101), named(102)], &vec![], Some(last))
            .collect(),
        ids(&[])
    );
    assert_eq!(
        transaction.search(&vec![], &vec![], Some(id(6))).collect(),
        ids(&[])
    );
}

#[test]
fn search_passes_over_the_first_entry_from_the_start_on() {
    // The walk starts at the first entry that does not come before the
    // start, and passes over it, whether or not it is the start itself.
    let mut transaction = WriteTransaction::new(Tables::new());
    transaction.insert(&named(5), &vec![named(101)]);
    transaction.insert(&named(9), &vec![named(101)]);
    transaction.insert(&named(12), &vec![named(101)]);
    assert_eq!(
        transaction
            .search(&vec![named(101)], &vec![], Some(id(7)))
            .collect(),
        ids(&[12])
    );
    assert_eq!(
        transaction
            .search(&vec![named(101)], &vec![], Some(id(5)))
            .collect(),
        ids(&[9, 12])
    );
    assert_eq!(
        transaction.search(&vec![], &vec![], Some(id(7))).collect(),
        ids(&[12])
    );
    assert_eq!(
        transaction.search(&vec![], &vec![], Some(id(0))).collect(),
        ids(&[9, 12])
    );
}

#[test]
fn search_passes_over_the_start_before_it_rules_out() {
    let mut transaction = WriteTransaction::new(Tables::new());
    transaction.insert(&named(1), &vec![named(101), named(102)]);
    transaction.insert(&named(2), &vec![named(101)]);
    transaction.insert(&named(3), &vec![named(101)]);
    assert_eq!(
        transaction
            .search(&vec![named(101)], &vec![named(102)], Some(id(1)))
            .collect(),
        ids(&[2, 3])
    );
}

#[test]
fn search_with_several_tags_starts_in_the_list_of_the_rarest() {
    // Tag 102 is the rarer one, so its list is walked first: from 2 on its
    // first entry is 3, which is passed over.
    let mut transaction = WriteTransaction::new(Tables::new());
    transaction.insert(&named(1), &vec![named(101), named(102)]);
    transaction.insert(&named(2), &vec![named(101)]);
    transaction.insert(&named(3), &vec![named(101), named(102)]);
    transaction.insert(&named(4), &vec![named(101), named(102)]);
    assert_eq!(
        transaction
            .search(&vec![named(101), named(102)], &vec![], Some(id(2)))
            .collect(),
        ids(&[4])
    );
    assert_eq!(
        transaction
            .search(&vec![named(102), named(101)], &vec![], Some(id(2)))
            .collect(),
        ids(&[4])
    );
    assert_eq!(
        transaction
            .search(&vec![named(101)], &vec![], Some(id(2)))
            .collect(),
        ids(&[3, 4])
    );
}

#[test]
fn search_with_equally_rare_tags_starts_in_the_list_of_the_first() {
    let mut transaction = WriteTransaction::new(Tables::new());
    transaction.insert(&named(1), &vec![named(101)]);
    transaction.insert(&named(3), &vec![named(101), named(102)]);
    transaction.insert(&named(4), &vec![named(102)]);
    transaction.insert(&named(5), &vec![named(101), named(102)]);
    transaction.insert(&named(6), &vec![named(101), named(102)]);
    transaction.insert(&named(7), &vec![named(101)]);
    transaction.insert(&named(8), &vec![named(102)]);
    // Both tags have five objects. From 4 on, the list of 101 starts with
    // 5 and the list of 102 with 4.
    assert_eq!(
        transaction
            .search(&vec![named(101), named(102)], &vec![], Some(id(4)))
            .collect(),
        ids(&[6])
    );
    assert_eq!(
        transaction
            .search(&vec![named(102), named(101)], &vec![], Some(id(4)))
            .collect(),
        ids(&[5, 6])
    );
}

#[test]
fn search_for_nothing_yields_all_known_objects() {
    let mut transaction = sample();
    assert_eq!(
        transaction.search(&vec![], &vec![], None).collect(),
        ids(&[1, 2, 3, 4, 5, 6])
    );
    transaction.remove_object(&named(3));
    assert_eq!(
        transaction.search(&vec![], &vec![], None).collect(),
        ids(&[1, 2, 4, 5, 6])
    );
    assert_eq!(
        WriteTransaction::new(Tables::new())
            .search(&vec![], &vec![], None)
            .collect(),
        ids(&[])
    );
}

#[test]
fn search_for_a_tag_that_nothing_carries_yields_nothing() {
    let transaction = sample();
    assert_eq!(
        transaction.search(&vec![named(105)], &vec![], None).collect(),
        ids(&[])
    );
    assert_eq!(
        transaction
            .search(&vec![named(101), named(105)], &vec![], None)
            .collect(),
        ids(&[])
    );
    assert_eq!(
        transaction
            .search(&vec![named(105), named(101), named(102)], &vec![], None)
            .collect(),
        ids(&[])
    );
}

#[test]
fn search_that_rules_out_unknown_tags_rules_out_nothing() {
    let transaction = sample();
    assert_eq!(
        transaction
            .search(&vec![named(101)], &vec![named(105), named(106)], None)
            .collect(),
        ids(&[1, 2, 3, 5])
    );
    assert_eq!(
        transaction
            .search(&vec![], &vec![named(105)], None)
            .collect(),
        ids(&[1, 2, 3, 4, 5, 6])
    );
    assert_eq!(
        transaction
            .search(&vec![named(101), named(102)], &vec![named(105)], None)
            .collect(),
        ids(&[2, 3])
    );
}

#[test]
fn search_for_the_same_tag_twice_is_the_search_for_the_tag() {
    let transaction = sample();
    assert_eq!(
        transaction
            .search(&vec![named(101), named(101)], &vec![], None)
            .collect(),
        ids(&[1, 2, 3, 5])
    );
    assert_eq!(
        transaction
            .search(&vec![named(103), named(101), named(103)], &vec![], None)
            .collect(),
        ids(&[3, 5])
    );
}

#[test]
fn search_goes_on_behind_an_object_that_is_ruled_out() {
    let transaction = sample();
    assert_eq!(
        transaction
            .search(&vec![named(101), named(103)], &vec![named(102)], None)
            .collect(),
        ids(&[5])
    );
    let mut search = transaction.search(&vec![named(101), named(103)], &vec![named(102)], None);
    assert_eq!(search.next(), Some(id(5)));
    assert_eq!(search.next(), None);
    assert_eq!(search.next(), None);
}

#[test]
fn next_yields_one_object_after_the_other() {
    let transaction = sample();
    let mut search = transaction.search(&vec![named(101), named(102)], &vec![], None);
    assert_eq!(search.next(), Some(id(2)));
    assert_eq!(search.next(), Some(id(3)));
    assert_eq!(search.next(), None);
    assert_eq!(search.next(), None);
    let mut search = transaction.search(&vec![named(103)], &vec![], None);
    assert_eq!(search.next(), Some(id(3)));
    assert_eq!(search.collect(), ids(&[4, 5]));
    let mut search = transaction.search(&vec![], &vec![named(103)], None);
    assert_eq!(search.next(), Some(id(1)));
    assert_eq!(search.next(), Some(id(2)));
    assert_eq!(search.next(), Some(id(6)));
    assert_eq!(search.next(), None);
}

#[test]
fn search_is_the_cut_of_the_searches_for_single_tags() {
    let transaction = sample();
    let tags = [101u8, 102, 103, 104, 105];
    let single: Vec<Vec<Id>> = tags
        .iter()
        .map(|tag| transaction.search(&vec![named(*tag)], &vec![], None).collect())
        .collect();
    let known = transaction.search(&vec![], &vec![], None).collect();
    for mask in 0..243u32 {
        // Each tag is asked for, ruled out, or left alone.
        let mut present = vec![];
        let mut absent = vec![];
        let mut digits = mask;
        let mut expected = known.clone();
        for (place, tag) in tags.iter().enumerate() {
            match digits % 3 {
                1 => {
                    present.push(named(*tag));
                    expected.retain(|object| single[place].contains(object));
                }
                2 => {
                    absent.push(named(*tag));
                    expected.retain(|object| !single[place].contains(object));
                }
                _ => {}
            }
            digits /= 3;
        }
        assert_eq!(transaction.search(&present, &absent, None).collect(), expected);
    }
}

#[test]
fn search_with_three_tags_agrees_with_an_exhaustive_count() {
    // Every object from 1 to 63 carries the tags whose bits its number has.
    let mut transaction = WriteTransaction::new(Tables::new());
    for object in 1..64u8 {
        let tags = (0..6u8)
            .filter(|bit| object & (1 << bit) != 0)
            .map(|bit| named(200 + bit))
            .collect::<Vec<_>>();
        transaction.insert(&named(object), &tags);
    }
    for first in 0..6u8 {
        for second in 0..6u8 {
            for third in 0..6u8 {
                let mask = (1 << first) | (1 << second) | (1 << third);
                let expected = (1..64u8)
                    .filter(|object| object & mask == mask)
                    .map(id)
                    .collect::<Vec<_>>();
                let present = vec![named(200 + first), named(200 + second), named(200 + third)];
                assert_eq!(transaction.search(&present, &vec![], None).collect(), expected);
                let behind = expected.iter().skip(1).cloned().collect::<Vec<_>>();
                assert_eq!(
                    transaction
                        .search(&present, &vec![], Some(expected[0]))
                        .collect(),
                    behind
                );
            }
        }
    }
}

#[test]
fn search_with_a_small_cut_of_long_lists() {
    let mut transaction = WriteTransaction::new(Tables::new());
    for object in 1..=120u8 {
        let mut tags = vec![];
        if object % 2 == 0 {
            tags.push(named(201));
        }
        if object % 3 == 0 {
            tags.push(named(202));
        }
        if object % 5 == 0 {
            tags.push(named(203));
        }
        if object % 7 == 0 {
            tags.push(named(204));
        }
        transaction.insert(&named(object), &tags);
    }
    assert_eq!(
        transaction
            .search(&vec![named(201), named(202), named(203)], &vec![], None)
            .collect(),
        ids(&[30, 60, 90, 120])
    );
    assert_eq!(
        transaction
            .search(&vec![named(203), named(201), named(202)], &vec![named(204)], None)
            .collect(),
        ids(&[30, 60, 90, 120])
    );
    assert_eq!(
        transaction
            .search(&vec![named(201), named(204), named(202)], &vec![named(203)], None)
            .collect(),
        ids(&[42, 84])
    );
    assert_eq!(
        transaction
            .search(&vec![named(201), named(202), named(203), named(204)], &vec![], None)
            .collect(),
        ids(&[])
    );
}

#[test]
fn read_transaction_sees_what_was_committed() {
    let tables = sample().commit();
    let transaction = ReadTransaction::new(&tables);
    assert!(transaction.has_object(&named(6)));
    assert!(transaction.has_tag(&named(4), &named(103)));
    assert!(transaction.has_object_with_tag(&named(104)));
    assert_eq!(transaction.get_tags(&named(5)), ids(&[101, 103, 104]));
    assert_eq!(transaction.get_source(&id(1)), None);
    assert_eq!(
        transaction
            .search(&vec![named(103)], &vec![named(104)], None)
            .collect(),
        ids(&[3, 4])
    );
    let mut again = WriteTransaction::new(tables);
    again.remove_object(&named(3));
    assert_eq!(
        again.reader().search(&vec![named(103)], &vec![], None).collect(),
        ids(&[4, 5])
    );
}

#[test]
fn an_object_can_be_a_tag() {
    let mut transaction = WriteTransaction::new(Tables::new());
    transaction.insert(&named(1), &vec![named(2)]);
    transaction.insert(&named(2), &vec![named(1), named(2)]);
    assert_eq!(
        transaction.search(&vec![named(2)], &vec![], None).collect(),
        ids(&[1, 2])
    );
    assert_eq!(
        transaction.search(&vec![named(1)], &vec![], None).collect(),
        ids(&[2])
    );
    transaction.remove_object(&named(2));
    assert!(transaction.has_object_with_tag(&named(2)));
    assert!(!transaction.has_object_with_tag(&named(1)));
    assert!(!transaction.has_object(&named(2)));
}

#[test]
fn plan_of_present_tags_goes_from_the_rarest_to_the_most_frequent() {
    let tables = sample().commit();
    // 101 has four objects, 102 and 103 three each, 104 one, 105 none.
    assert_eq!(
        dream::plan::plan_present(
            &tables,
            &vec![named(101), named(102), named(103), named(104), named(105)]
        ),
        ids(&[105, 104, 102, 103, 101])
    );
    assert_eq!(
        dream::plan::plan_present(&tables, &vec![named(103), named(101), named(102)]),
        ids(&[103, 102, 101])
    );
    assert_eq!(
        dream::plan::plan_present(&tables, &vec![named(102), named(102), named(104)]),
        ids(&[104, 102, 102])
    );
    assert_eq!(dream::plan::plan_present(&tables, &vec![]), ids(&[]));
}

#[test]
fn plan_of_absent_tags_goes_from_the_most_frequent_to_the_rarest() {
    let tables = sample().commit();
    assert_eq!(
        dream::plan::plan_absent(
            &tables,
            &vec![named(105), named(104), named(102), named(103), named(101)]
        ),
        ids(&[101, 103, 102, 104])
    );
    assert_eq!(
        dream::plan::plan_absent(&tables, &vec![named(102), named(103)]),
        ids(&[103, 102])
    );
    assert_eq!(
        dream::plan::plan_absent(&tables, &vec![named(105), named(106)]),
        ids(&[])
    );
}
