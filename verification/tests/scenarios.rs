use dream::{Id, Object, ReadTransaction, Tables, WriteTransaction};
use nanorand::{Rng, WyRand};
use std::collections::{BTreeMap, BTreeSet};

fn raw(text: &str) -> Object {
    Object::Raw(text.as_bytes().to_vec())
}

#[test]
fn test_simple() {
    let mut transaction = WriteTransaction::new(Tables::new());

    let a = Object::Raw("a".as_bytes().to_vec());
    let b = Object::Raw("b".as_bytes().to_vec());
    let c = Object::Raw("c".as_bytes().to_vec());
    let o1 = Object::Raw("o1".as_bytes().to_vec());
    let o2 = Object::Raw("o2".as_bytes().to_vec());
    let o3 = Object::Raw("o3".as_bytes().to_vec());

    transaction.insert(&o1, &vec![a.clone()]);
    transaction.insert(&o2, &vec![a.clone(), b.clone()]);
    transaction.insert(&o3, &vec![a.clone(), b.clone(), c.clone()]);
    assert_eq!(
        transaction
            .search(&vec![a.clone(), b.clone(), c.clone()], &vec![], None)
            .collect(),
        [o3.get_id()]
    );
    assert_eq!(
        transaction
            .search(&vec![a.clone(), b.clone()], &vec![], None)
            .collect(),
        [o3.get_id(), o2.get_id()]
    );
    assert_eq!(
        transaction.search(&vec![a.clone()], &vec![], None).collect(),
        [o3.get_id(), o2.get_id(), o1.get_id()]
    );

    assert_eq!(
        transaction
            .search(&vec![a.clone()], &vec![a.clone()], None)
            .collect(),
        []
    );
    assert_eq!(
        transaction
            .search(&vec![a.clone()], &vec![], Some(o1.get_id()))
            .collect(),
        []
    );
    assert_eq!(
        transaction
            .search(&vec![], &vec![], Some(o1.get_id()))
            .collect(),
        []
    );
    assert_eq!(
        transaction
            .search(&vec![], &vec![a.clone(), b.clone(), c.clone()], None)
            .collect(),
        []
    );

    assert_eq!(
        transaction
            .search(&vec![a.clone()], &vec![b.clone()], None)
            .collect(),
        [o1.get_id()]
    );
    assert_eq!(
        transaction
            .search(&vec![a.clone()], &vec![c.clone()], None)
            .collect(),
        [o2.get_id(), o1.get_id()]
    );

    transaction.remove_tags_from_object(&o3, &vec![a.clone(), c.clone()]);
    assert_eq!(
        transaction.search(&vec![a.clone()], &vec![], None).collect(),
        [o2.get_id(), o1.get_id()]
    );
    assert_eq!(
        transaction.search(&vec![b.clone()], &vec![], None).collect(),
        [o3.get_id(), o2.get_id()]
    );
    assert_eq!(
        transaction.search(&vec![c.clone()], &vec![], None).collect(),
        []
    );

    transaction.remove_object(&o2);
    assert_eq!(
        transaction.search(&vec![a.clone()], &vec![], None).collect(),
        [o1.get_id()]
    );
    assert_eq!(
        transaction.search(&vec![b.clone()], &vec![], None).collect(),
        [o3.get_id()]
    );
    assert_eq!(
        transaction.search(&vec![c.clone()], &vec![], None).collect(),
        []
    );
}

#[test]
fn test_generative() {
    const TOTAL_TAGS_COUNT: usize = 8;
    const OBJECT_TAGS_COUNT: usize = 3;
    const OBJECTS_COUNT: usize = 3;
    const SEARCHES_COUNT: usize = 100;

    let mut rng = WyRand::new_seed(0);

    let mut tags = (0..TOTAL_TAGS_COUNT)
        .map(|_| {
            let mut tag = vec![0u8; 16];
            rng.fill(&mut tag);
            Object::Raw(tag)
        })
        .collect::<Vec<_>>();
    let object_to_tags = (0..OBJECTS_COUNT)
        .map(|_| {
            let mut object_value = vec![0u8; 16];
            rng.fill(&mut object_value);
            let mut tags = (0..OBJECT_TAGS_COUNT)
                .map(|_| tags[rng.generate_range(0..tags.len())].clone())
                .collect::<Vec<_>>();
            tags.sort();
            tags.dedup();
            (Object::Raw(object_value), tags)
        })
        .collect::<BTreeMap<_, _>>();

    let mut transaction = WriteTransaction::new(Tables::new());
    for (object, tags) in object_to_tags.iter() {
        transaction.insert(object, tags);
    }
    for (object, tags) in object_to_tags.iter() {
        for tag in tags.iter() {
            assert_eq!(transaction.has_tag(object, tag), true);
        }
        let result_tags = BTreeSet::from_iter(
            transaction
                .get_tags(object)
                .iter()
                .map(|tag_id| transaction.get_source(tag_id).unwrap()),
        );
        let correct_tags = BTreeSet::from_iter(tags.iter().cloned());
        assert_eq!(result_tags, correct_tags);
    }
    let tables = transaction.commit();

    let tag_to_objects = {
        let mut result: BTreeMap<Object, Vec<Object>> = BTreeMap::new();
        object_to_tags.iter().for_each(|(object, tags)| {
            tags.iter().for_each(|tag| {
                (*result.entry(tag.clone()).or_insert(vec![])).push(object.clone());
            })
        });
        result
    };
    let transaction = ReadTransaction::new(&tables);
    for (tag, objects) in tag_to_objects.iter() {
        let found = transaction
            .search(&vec![tag.clone()], &vec![], None)
            .collect()
            .iter()
            .map(|object_id| match transaction.get_source(object_id) {
                Some(source) => source,
                None => panic!("No source for object id {object_id:?} found"),
            })
            .collect::<BTreeSet<_>>();
        assert_eq!(found, BTreeSet::from_iter(objects.iter().cloned()));
    }

    for _ in 0..SEARCHES_COUNT {
        rng.shuffle(&mut tags);
        let present_tags = tags.iter().take(2).cloned().collect::<Vec<_>>();
        let result = BTreeSet::from_iter(
            transaction
                .search(&present_tags, &vec![], None)
                .collect()
                .iter()
                .map(|object_id| transaction.get_source(object_id).unwrap()),
        );
        let correct = present_tags
            .iter()
            .map(|tag| BTreeSet::from_iter(tag_to_objects.get(tag).unwrap_or(&vec![]).clone()))
            .reduce(|accumulator, current| {
                accumulator
                    .intersection(&current)
                    .cloned()
                    .collect::<BTreeSet<_>>()
            })
            .unwrap_or_default();
        assert_eq!(result, correct);
    }
}

#[test]
fn raw_identifier_is_the_digest_least_significant_byte_first() {
    let bytes = "o1".as_bytes().to_vec();
    let expected = xxhash_rust::xxh3::xxh3_128(&bytes).to_le_bytes();
    assert_eq!(Object::Raw(bytes).get_id(), Id { value: expected });
    assert_ne!(raw("a").get_id(), raw("b").get_id());
}

fn sorted(mut ids: Vec<Id>) -> Vec<Id> {
    ids.sort();
    ids
}

#[test]
fn scenarios_with_expectations_sorted_by_identifier() {
    let (a, b, c) = (raw("a"), raw("b"), raw("c"));
    let (o1, o2, o3) = (raw("o1"), raw("o2"), raw("o3"));
    let (i1, i2, i3) = (o1.get_id(), o2.get_id(), o3.get_id());
    let mut transaction = WriteTransaction::new(Tables::new());
    transaction.insert(&o1, &vec![a.clone()]);
    transaction.insert(&o2, &vec![a.clone(), b.clone()]);
    transaction.insert(&o3, &vec![a.clone(), b.clone(), c.clone()]);

    assert_eq!(
        transaction
            .search(&vec![a.clone(), b.clone(), c.clone()], &vec![], None)
            .collect(),
        vec![i3]
    );
    assert_eq!(
        transaction
            .search(&vec![a.clone(), b.clone()], &vec![], None)
            .collect(),
        sorted(vec![i2, i3])
    );
    assert_eq!(
        transaction.search(&vec![a.clone()], &vec![], None).collect(),
        sorted(vec![i1, i2, i3])
    );

    assert_eq!(
        transaction
            .search(&vec![a.clone()], &vec![a.clone()], None)
            .collect(),
        vec![]
    );
    let behind = sorted(vec![i1, i2, i3])
        .into_iter()
        .filter(|id| *id > i1)
        .collect::<Vec<_>>();
    assert_eq!(
        transaction
            .search(&vec![a.clone()], &vec![], Some(i1))
            .collect(),
        behind
    );
    assert_eq!(behind.is_empty(), i1 > i2 && i1 > i3);
    assert_eq!(
        transaction
            .search(&vec![], &vec![a.clone(), b.clone(), c.clone()], None)
            .collect(),
        vec![]
    );

    assert_eq!(
        transaction
            .search(&vec![a.clone()], &vec![b.clone()], None)
            .collect(),
        vec![i1]
    );
    assert_eq!(
        transaction
            .search(&vec![a.clone()], &vec![c.clone()], None)
            .collect(),
        sorted(vec![i1, i2])
    );

    transaction.remove_tags_from_object(&o3, &vec![a.clone(), c.clone()]);
    assert_eq!(
        transaction.search(&vec![a.clone()], &vec![], None).collect(),
        sorted(vec![i1, i2])
    );
    assert_eq!(
        transaction.search(&vec![b.clone()], &vec![], None).collect(),
        sorted(vec![i2, i3])
    );
    assert_eq!(
        transaction.search(&vec![c.clone()], &vec![], None).collect(),
        vec![]
    );
    assert!(!transaction.has_object_with_tag(&c));

    transaction.remove_object(&o2);
    assert_eq!(
        transaction.search(&vec![a.clone()], &vec![], None).collect(),
        vec![i1]
    );
    assert_eq!(
        transaction.search(&vec![b.clone()], &vec![], None).collect(),
        vec![i3]
    );
    let tables = transaction.commit();
    assert_eq!(tables.tag_to_objects_count.get(&c.get_id()), None);
    assert_eq!(tables.tag_to_objects_count.get(&a.get_id()), Some(&1));
}

#[test]
fn a_hundred_random_objects_with_three_of_eight_tags() {
    let mut rng = WyRand::new_seed(1);
    let tags = (0..8)
        .map(|_| {
            let mut tag = vec![0u8; 16];
            rng.fill(&mut tag);
            Object::Raw(tag)
        })
        .collect::<Vec<_>>();
    let mut carried: BTreeMap<Id, BTreeSet<usize>> = BTreeMap::new();
    let mut transaction = WriteTransaction::new(Tables::new());
    for _ in 0..100 {
        let mut bytes = vec![0u8; 16];
        rng.fill(&mut bytes);
        let object = Object::Raw(bytes);
        let mut picked = (0..3)
            .map(|_| rng.generate_range(0..tags.len()))
            .collect::<Vec<_>>();
        picked.sort();
        picked.dedup();
        let given = picked.iter().map(|at| tags[*at].clone()).collect::<Vec<_>>();
        transaction.insert(&object, &given);
        carried.insert(object.get_id(), picked.into_iter().collect());
    }
    for _ in 0..100 {
        let first = rng.generate_range(0..tags.len());
        let second = rng.generate_range(0..tags.len());
        let expected = carried
            .iter()
            .filter(|(_, picked)| picked.contains(&first) && picked.contains(&second))
            .map(|(id, _)| *id)
            .collect::<Vec<_>>();
        assert_eq!(
            transaction
                .search(&vec![tags[first].clone(), tags[second].clone()], &vec![], None)
                .collect(),
            expected
        );
    }
}
