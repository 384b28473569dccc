use guestio::record::Record;
use guestio::{deserialize::Deserialize, serialize};

// Foo { firstval: u32, b: Vec<u32> }
type Foo = Record<(u32, std::vec::Vec<u32>)>;

#[test]
fn test_foo() {
    let f: Foo = Record((5, vec![1, 2, 3]));

    println!("Orig: {:?}", f);
    let be = serialize(&f).unwrap();

    println!("Serialized: {:?}", be);

    let de = Foo::deserialize_from(&be);

    let mys: Foo = Foo::into_orig(de);

    println!("Deserialized: {:?}", mys);

    assert_eq!(f, mys);
}
