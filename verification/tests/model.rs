use dream::{Id, Object, Tables, WriteTransaction};
use nanorand::{Rng, WyRand};
use std::collections::{BTreeMap, BTreeSet};

fn id(last: u8) -> Id {
    let mut value = [0u8; 16];
    value[15] = last;
    Id { value }
}

fn named(last: u8) -> Object {
    Object::Identified(id(last))
}

/// What a search is to yield, counted out on a plain map from each known
/// object to its tags.
fn expected(
    model: &BTreeMap<u8, BTreeSet<u8>>,
    present: &[u8],
    absent: &[u8],
    start: Option<u8>,
) -> Vec<Id> {
    let frequency = |tag: &u8| model.values().filter(|tags| tags.contains(tag)).count();
    // The list that is walked first: that of the rarest tag, of the first
    // among several; all known objects where no tag is asked for.
    let driver: Vec<u8> = match present.iter().min_by_key(|tag| frequency(tag)) {
        Some(rarest) => model
            .iter()
            .filter(|(_, tags)| tags.contains(rarest))
            .map(|(object, _)| *object)
            .collect(),
        None => model.keys().cloned().collect(),
    };
    let passed = start.and_then(|from| driver.iter().find(|object| **object >= from).cloned());
    model
        .iter()
        .filter(|(_, tags)| present.iter().all(|tag| tags.contains(tag)))
        .filter(|(_, tags)| !absent.iter().any(|tag| tags.contains(tag)))
        .filter(|(object, _)| match (start, passed) {
            (None, _) => true,
            (Some(_), Some(passed)) => **object > passed,
            (Some(_), None) => false,
        })
        .map(|(object, _)| id(*object))
        .collect()
}

fn some_tags(rng: &mut WyRand, most: usize) -> Vec<u8> {
    let count = rng.generate_range(0..=most);
    (0..count).map(|_| rng.generate_range(100u8..108)).collect()
}

#[test]
fn random_writes_and_searches_agree_with_a_plain_model() {
    let mut rng = WyRand::new_seed(7);
    for _ in 0..40 {
        let mut transaction = WriteTransaction::new(Tables::new());
        let mut model: BTreeMap<u8, BTreeSet<u8>> = BTreeMap::new();
        for _ in 0..60 {
            let object = rng.generate_range(1u8..25);
            let tags = some_tags(&mut rng, 4);
            let given = tags.iter().map(|tag| named(*tag)).collect::<Vec<_>>();
            match rng.generate_range(0u8..6) {
                0 => {
                    transaction.remove_object(&named(object));
                    model.remove(&object);
                }
                1 | 2 => {
                    transaction.remove_tags_from_object(&named(object), &given);
                    if let Some(carried) = model.get_mut(&object) {
                        for tag in tags.iter() {
                            carried.remove(tag);
                        }
                        if carried.is_empty() {
                            model.remove(&object);
                        }
                    }
                }
                _ => {
                    transaction.insert(&named(object), &given);
                    model.entry(object).or_default().extend(tags.iter().cloned());
                }
            }
        }
        for object in 1u8..25 {
            assert_eq!(transaction.has_object(&named(object)), model.contains_key(&object));
            let carried = model.get(&object).cloned().unwrap_or_default();
            assert_eq!(
                transaction.get_tags(&named(object)),
                carried.iter().map(|tag| id(*tag)).collect::<Vec<_>>()
            );
        }
        for tag in 100u8..108 {
            assert_eq!(
                transaction.has_object_with_tag(&named(tag)),
                model.values().any(|tags| tags.contains(&tag))
            );
        }
        assert_eq!(
            transaction.links(),
            model.values().map(|tags| tags.len()).sum::<usize>()
        );
        for _ in 0..60 {
            let present = some_tags(&mut rng, 3);
            let absent = some_tags(&mut rng, 2);
            let start = match rng.generate_range(0u8..3) {
                0 => None,
                _ => Some(rng.generate_range(0u8..26)),
            };
            let found = transaction
                .search(
                    &present.iter().map(|tag| named(*tag)).collect(),
                    &absent.iter().map(|tag| named(*tag)).collect(),
                    start.map(id),
                )
                .collect();
            assert_eq!(found, expected(&model, &present, &absent, start));
        }
        assert!(transaction.commit().is_consistent());
    }
}
