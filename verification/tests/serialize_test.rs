use guestio::deserialize::Deserialize;
use guestio::record::Record;
use guestio::serialize::serialize;

// MyStruct { foo: u32, bar: String, next: Option<Box<MyStruct>> }
// The chain of records is written out as far as the values go.
type Last = Record<(u32, std::string::String, Option<Box<()>>)>;
type MyStruct = Record<(u32, std::string::String, Option<Box<Last>>)>;

#[test]
fn ser_test() {
    let a: MyStruct = Record((5, "hi".into(), None));
    println!("Orig: {:?}", a);

    let b = serialize(&a).unwrap();

    println!("Serialized: {:?}", b);

    let des = MyStruct::deserialize_from(&*b);

    println!("foo: {}", des.field0());
    println!("bar: {}", des.field1().as_str().unwrap());
    assert_eq!(des.field0(), 5);
    assert_eq!(des.field1().as_str(), Some("hi"));
    assert!(des.field2().is_none());

    let mys: MyStruct = MyStruct::into_orig(des);
    println!("Deserialized: {:?}", mys);
    assert_eq!(mys, a);
}

#[test]
fn ser_test_link() {
    let a: MyStruct = Record((
        5,
        "hi".into(),
        Some(Box::new(Record((6, "Why hello there!".into(), None)))),
    ));
    println!("Orig: {:?}", a);

    let b = serialize(&a).unwrap();

    println!("Serialized: {:?}", b);

    let des = MyStruct::deserialize_from(&*b);
    println!("foo: {}", des.field0());
    println!("bar: {}", des.field1().as_str().unwrap());
    assert_eq!(des.field0(), 5);
    assert_eq!(des.field1().as_str(), Some("hi"));
    let link = des.field2().unwrap();
    assert_eq!(link.field0(), 6);
    assert_eq!(link.field1().as_str(), Some("Why hello there!"));
    assert!(link.field2().is_none());

    let mys: MyStruct = MyStruct::into_orig(des);
    println!("Deserialized: {:?}", mys);
    assert_eq!(mys, a);
    let next = (mys.0).2.unwrap();
    assert_eq!((next.0).0, 6);
    assert_eq!((next.0).1, "Why hello there!");
    assert!((next.0).2.is_none());
}
