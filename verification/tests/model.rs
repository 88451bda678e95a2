use arbitrary::Unstructured;
use t4::model::{expected_get_range, limited_bytes, Expected, ExpectedGetRange, FuzzInput, Model, Operation};

#[test]
fn strings_are_drawn_with_their_length() {
    let bytes = [3, 0, 10, 20, 30, 40];
    let mut u = Unstructured::new(&bytes);
    assert_eq!(limited_bytes(&mut u, 64), Some(vec![10, 20, 30]));
    assert_eq!(u.len(), 1);
    // 0x0028 % 65 == 40 bytes, none of which is left.
    assert_eq!(limited_bytes(&mut u, 64), Some(vec![0; 40]));
    assert_eq!(limited_bytes(&mut u, 64), Some(vec![]));
    // 0x0102 % 65 == 63.
    let mut u = Unstructured::new(&[2, 1]);
    assert_eq!(limited_bytes(&mut u, 64).map(|b| b.len()), Some(63));
}

#[test]
fn operations_are_drawn_in_order() {
    let mut bytes = vec![7u8];
    bytes.extend([1, 0, b'a', 0, 2, 0, 8, 9]); // put "a" -> [8, 9]
    bytes.extend([1, 0, b'b', 1]); // get "b"
    bytes.extend([1, 0, b'c', 2, 5, 1, 6, 0]); // get "c", from 261 on, 6 bytes
    bytes.extend([1, 0, b'd', 3]); // remove "d"
    bytes.extend([0, 0, 4]); // sync
    bytes.extend([0, 0, 11]); // remount
    let mut u = Unstructured::new(&bytes);
    let input = FuzzInput::arbitrary(&mut u).unwrap();
    assert_eq!(input.operations.len(), 7);
    assert!(matches!(&input.operations[0], Operation::Put { key, value } if key == b"a" && value == &[8, 9]));
    assert!(matches!(&input.operations[1], Operation::Get { key } if key == b"b"));
    assert!(matches!(
        &input.operations[2],
        Operation::GetRange { key, start: 261, len: 6 } if key == b"c"
    ));
    assert!(matches!(&input.operations[3], Operation::Remove { key } if key == b"d"));
    assert!(matches!(&input.operations[4], Operation::Sync));
    assert!(matches!(&input.operations[5], Operation::Remount));
    // Behind the end everything is zero.
    assert!(matches!(&input.operations[6], Operation::Put { key, value } if key.is_empty() && value.is_empty()));
}

#[test]
fn the_model_answers_for_a_store() {
    let mut model = Model::new();
    let key = || b"k".to_vec();
    assert!(matches!(model.apply(Operation::Get { key: key() }), Expected::Value(None)));
    assert!(matches!(
        model.apply(Operation::Put { key: key(), value: vec![1, 2, 3, 4] }),
        Expected::Done
    ));
    assert!(matches!(
        model.apply(Operation::Get { key: key() }),
        Expected::Value(Some(value)) if value == vec![1, 2, 3, 4]
    ));
    assert_eq!(expected_get_range(&model, b"k", 1, 2), Ok(vec![2, 3]));
    assert_eq!(expected_get_range(&model, b"k", 4, 0), Ok(vec![]));
    assert_eq!(expected_get_range(&model, b"k", 4, 1), Err(ExpectedGetRange::RangeOutOfBounds));
    assert_eq!(expected_get_range(&model, b"x", 0, 0), Err(ExpectedGetRange::NotFound));
    assert!(matches!(
        model.apply(Operation::GetRange { key: key(), start: 3, len: 1 }),
        Expected::Range(Ok(bytes)) if bytes == vec![4]
    ));
    assert!(matches!(model.apply(Operation::Sync), Expected::Settled));
    assert!(matches!(model.apply(Operation::Remove { key: key() }), Expected::Removed(true)));
    assert!(matches!(model.apply(Operation::Remove { key: key() }), Expected::Removed(false)));
    assert!(matches!(model.apply(Operation::Remount), Expected::Settled));
    assert!(model.get(b"k").is_none());
}

#[test]
fn the_model_lists_each_key_once() {
    let mut model = Model::new();
    model.insert(b"a".to_vec(), vec![1]);
    model.insert(b"b".to_vec(), vec![2]);
    model.insert(b"a".to_vec(), vec![3]);
    let mut held: Vec<(Vec<u8>, Vec<u8>)> =
        model.entries().iter().map(|e| (e.key.clone(), e.value.clone())).collect();
    held.sort();
    assert_eq!(held, vec![(b"a".to_vec(), vec![3]), (b"b".to_vec(), vec![2])]);
    assert!(model.remove(b"a"));
    assert_eq!(model.entries().len(), 1);
}
