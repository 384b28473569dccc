use core::fmt::Debug;
use guestio::deserialize::Deserialize;
use guestio::record::Record;
use guestio::serialize::{serialize, Serialize};
use guestio::PAD_WORDS;

// StructContainer<T> { a: u32, b: T, c: u32 }
type StructContainer<T> = Record<(u32, T, u32)>;
// StructContainer2<T> { a: u32, b: Option<T>, c: u32 }
type StructContainer2<T> = Record<(u32, Option<T>, u32)>;
// StructContainer3<T> { a: u32, b: Box<StructContainer2<T>>, c: u32 }
type StructContainer3<T> = Record<(u32, Box<StructContainer2<T>>, u32)>;
// SimpleStruct { a: u32 }
type SimpleStruct = Record<(u32,)>;

fn test_round_trip_no_containers<T: Serialize + for<'a> Deserialize<'a> + Eq + Debug + Clone>(
    val: &T,
) {
    let u32s: Vec<u32> = serialize(val).unwrap();
    assert_eq!(u32s.len() % PAD_WORDS, 0);

    let deser = T::deserialize_from(&u32s);
    let actual = T::into_orig(deser);

    assert_eq!(*val, actual);
}

fn test_round_trip<T: Serialize + for<'a> Deserialize<'a> + Eq + Debug + Clone>(val: &T) {
    test_round_trip_no_containers(val);

    let one: StructContainer<T> = Record((1, val.clone(), 2));
    test_round_trip_no_containers(&one);

    test_round_trip_no_containers(&Vec::<StructContainer2<T>>::from([
        Record((3, None, 4)),
        Record((5, Some(val.clone()), 6)),
    ]));

    let three: StructContainer3<T> =
        Record((7, Box::from(Record((8, Some(val.clone()), 9))), 10));
    test_round_trip_no_containers(&Vec::<Option<StructContainer3<T>>>::from([
        Some(three),
        None,
    ]));
}

#[test]
fn basic_types() {
    test_round_trip(&0u32);
    test_round_trip(&1u32);
    test_round_trip(&u32::MAX);
    let simple: SimpleStruct = Record((3,));
    test_round_trip(&simple);
    test_round_trip(&String::from(""));
    test_round_trip(&String::from("How"));
    test_round_trip(&String::from("Howd"));
    test_round_trip(&String::from("Howdy"));
    test_round_trip(&[1u32, 2, 3]);
    test_round_trip(&[1u32, 2, 3, 4]);
    test_round_trip(&[1u32, 2, 3, 4, 5]);
}
