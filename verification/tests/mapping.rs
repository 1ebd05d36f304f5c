use std::collections::HashSet;

use rust_graph_lib::mapping::DoubleMapping;

#[derive(Eq, PartialEq, Debug, Hash)]
struct S(u32);

fn live<'a>(d: &'a DoubleMapping<S>) -> HashSet<&'a S> {
    d.iter_obj().into_iter().collect::<HashSet<_>>()
}

#[test]
fn test_insert_get_remove() {
    let mut d = DoubleMapping::default();
    let id1 = d.insert(S(1)).unwrap();
    let id2 = d.insert(S(2)).unwrap();
    let id3 = id2 + 1;

    assert_eq!(d.contains_id(id1), true);
    assert_eq!(d.contains_id(id2), true);
    assert_eq!(d.contains_id(id3), false);

    assert_eq!(live(&d), HashSet::from_iter(vec![&S(1), &S(2)].into_iter()));

    assert_eq!(d.get_by_id(id1), Some(&S(1)));
    assert_eq!(d.get_by_id(id2), Some(&S(2)));
    assert_eq!(d.get_by_id(id3), None);

    assert_eq!(d.get_by_obj(&S(1)), Some(id1));
    assert_eq!(d.get_by_obj(&S(2)), Some(id2));
    assert_eq!(d.get_by_obj(&S(3)), None);

    assert_eq!(d.remove(id1), Some(S(1)));

    assert_eq!(live(&d), HashSet::from_iter(vec![&S(2)].into_iter()));

    assert_eq!(d.get_by_id(id1), None);
    assert_eq!(d.get_by_id(id2), Some(&S(2)));
    assert_eq!(d.get_by_id(id3), None);

    assert_eq!(d.get_by_obj(&S(1)), None);
    assert_eq!(d.get_by_obj(&S(2)), Some(id2));
    assert_eq!(d.get_by_obj(&S(3)), None);

    assert_eq!(d.remove(id2), Some(S(2)));

    assert!(d.iter_obj().into_iter().collect::<Vec<_>>().is_empty());

    assert_eq!(d.get_by_id(id1), None);
    assert_eq!(d.get_by_id(id2), None);
    assert_eq!(d.get_by_id(id3), None);

    assert_eq!(d.get_by_obj(&S(1)), None);
    assert_eq!(d.get_by_obj(&S(2)), None);
    assert_eq!(d.get_by_obj(&S(3)), None);

    assert_eq!(d.remove(id2), None);
    assert_eq!(d.remove(id3), None);
}

#[test]
fn test_autodecrement() {
    let mut d = DoubleMapping::new(true);

    assert_eq!(d.insert(S(1)).unwrap(), 1);
    assert_eq!(d.insert(S(2)).unwrap(), 2);

    assert_eq!(d.contains_id(1), true);
    assert_eq!(d.contains_id(2), true);
    assert_eq!(d.contains_id(3), false);

    assert_eq!(live(&d), HashSet::from_iter(vec![&S(1), &S(2)].into_iter()));

    assert_eq!(d.get_by_id(1), Some(&S(1)));
    assert_eq!(d.get_by_id(2), Some(&S(2)));
    assert_eq!(d.get_by_id(3), None);

    assert_eq!(d.get_by_obj(&S(1)), Some(1));
    assert_eq!(d.get_by_obj(&S(2)), Some(2));
    assert_eq!(d.get_by_obj(&S(3)), None);

    assert_eq!(d.remove(1), Some(S(1)));

    assert_eq!(live(&d), HashSet::from_iter(vec![&S(2)].into_iter()));

    assert_eq!(d.get_by_id(1), Some(&S(2)));
    assert_eq!(d.get_by_id(2), None);
    assert_eq!(d.get_by_id(3), None);

    assert_eq!(d.get_by_obj(&S(1)), None);
    assert_eq!(d.get_by_obj(&S(2)), Some(1));
    assert_eq!(d.get_by_obj(&S(3)), None);

    assert_eq!(d.remove(1), Some(S(2)));

    assert!(d.iter_obj().into_iter().collect::<Vec<_>>().is_empty());

    assert_eq!(d.get_by_id(1), None);
    assert_eq!(d.get_by_id(2), None);
    assert_eq!(d.get_by_id(3), None);

    assert_eq!(d.get_by_obj(&S(1)), None);
    assert_eq!(d.get_by_obj(&S(2)), None);
    assert_eq!(d.get_by_obj(&S(3)), None);

    assert_eq!(d.remove(2), None);
    assert_eq!(d.remove(3), None);
}

#[test]
fn insert_twice_is_refused() {
    let mut d = DoubleMapping::new(false);
    assert_eq!(d.insert(S(7)), Some(1));
    assert_eq!(d.insert(S(7)), None);
    assert_eq!(d.get_by_obj(&S(7)), Some(1));
    assert_eq!(d.iter_obj().len(), 1);
}

#[test]
fn sparse_ids_are_never_reused() {
    let mut d = DoubleMapping::new(false);
    assert_eq!(d.insert(S(1)), Some(1));
    assert_eq!(d.insert(S(2)), Some(2));
    assert_eq!(d.remove(2), Some(S(2)));
    assert_eq!(d.insert(S(3)), Some(3));
    assert_eq!(d.get_by_id(2), None);
    assert_eq!(d.insert(S(2)), Some(4));
}

#[test]
fn compacting_ids_stay_dense() {
    let mut d = DoubleMapping::new(true);
    assert_eq!(d.insert(S(10)), Some(1));
    assert_eq!(d.insert(S(20)), Some(2));
    assert_eq!(d.insert(S(30)), Some(3));
    assert_eq!(d.remove(2), Some(S(20)));
    assert_eq!(d.get_by_obj(&S(10)), Some(1));
    assert_eq!(d.get_by_obj(&S(30)), Some(2));
    assert_eq!(d.get_by_id(3), None);
    assert_eq!(d.insert(S(40)), Some(3));
}

#[test]
fn id_zero_names_nothing() {
    let mut d = DoubleMapping::new(false);
    d.insert(S(1));
    assert_eq!(d.get_by_id(0), None);
    assert_eq!(d.contains_id(0), false);
    assert_eq!(d.remove(0), None);
    assert_eq!(d.contains_obj(&S(1)), true);
    assert_eq!(d.contains_obj(&S(2)), false);
}
