use guestio::deserialize::{field_at, Deserialize, VecRef};
use guestio::record::Record;
use guestio::serialize::serialize;
use guestio::util::as_words_padded;

#[test]
fn words_come_one_by_one() {
    let bytes = [1u8, 2, 3, 4, 5];
    let mut it = as_words_padded(&bytes);
    assert_eq!(it.next(), Some(1 + 2 * 256 + 3 * 256 * 256 + 4 * 256 * 256 * 256));
    assert_eq!(it.next(), Some(5));
    assert_eq!(it.next(), None);
    assert_eq!(it.next(), None);
    let mut it = as_words_padded(&bytes);
    it.next();
    assert_eq!(it.collect(), vec![5]);
    let mut none = as_words_padded(&[]);
    assert_eq!(none.next(), None);
    let high = [0xffu8, 0xff, 0xff, 0xff];
    assert_eq!(as_words_padded(&high).collect(), vec![u32::MAX]);
}

#[test]
fn text_view_reads_bytes_in_place() {
    let words = vec![5u32, 2, 0x64776f48, 0x79];
    let view = String::deserialize_from(&words);
    assert_eq!(view.len(), 5);
    assert_eq!(view.byte(0), b'H');
    assert_eq!(view.byte(3), b'd');
    assert_eq!(view.byte(4), b'y');
    assert_eq!(view.to_bytes(), b"Howdy".to_vec());
    assert_eq!(view.as_str(), Some("Howdy"));
    assert_eq!(view.text_in(b"Howdy, all"), Some("Howdy"));
    assert_eq!(view.text_in(b"Howdx, all"), None);
    assert_eq!(view.text_in(b"How"), None);
    assert_eq!(String::into_orig(view), "Howdy");
}

#[test]
fn sequence_view_has_length_and_random_access() {
    let seq = vec![10u32, 20, 30, 40];
    let words = serialize(&seq).unwrap();
    let view: VecRef<u32> = <Vec<u32>>::deserialize_from(&words);
    assert_eq!(view.len(), 4);
    assert_eq!(view.index(3), 40);
    assert_eq!(view.index(0), 10);
    assert_eq!(view.index(2), 30);
    assert_eq!(<Vec<u32>>::into_orig(view), seq);
}

#[test]
fn element_is_found_without_its_neighbours() {
    // three texts; the headers of the first and the last point out of the buffer
    let words = vec![3u32, 2, 1, 1000, 1, 4, 1, 2000, 0x62];
    let view: VecRef<String> = <Vec<String>>::deserialize_from(&words);
    assert_eq!(view.len(), 3);
    let second = view.index(1);
    assert_eq!(second.len(), 1);
    assert_eq!(second.byte(0), b'b');
    assert_eq!(String::into_orig(second), "b");
}

#[test]
fn sequence_view_walks_first_to_last() {
    let seq = vec![String::from("a"), String::from("bc"), String::from("")];
    let words = serialize(&seq).unwrap();
    let view: VecRef<String> = <Vec<String>>::deserialize_from(&words);
    let mut again = view.iter();
    assert_eq!(again.next().unwrap().as_str(), Some("a"));
    let mut once_more = view.iter();
    assert_eq!(once_more.next().unwrap().as_str(), Some("a"));
    assert_eq!(once_more.next().unwrap().as_str(), Some("bc"));
    let mut it = view.into_iter();
    assert_eq!(String::into_orig(it.next().unwrap()), "a");
    assert_eq!(String::into_orig(it.next().unwrap()), "bc");
    assert_eq!(String::into_orig(it.next().unwrap()), "");
    assert!(it.next().is_none());
    assert!(it.next().is_none());
}

#[test]
fn array_view_starts_at_the_fixed_region() {
    let words = vec![7u32, 8, 9];
    let view: VecRef<u32> = <[u32; 3]>::deserialize_from(&words);
    assert_eq!(view.len(), 3);
    assert_eq!(view.index(1), 8);
    assert_eq!(<[u32; 3]>::into_orig(view), [7, 8, 9]);
    assert_eq!(<[u32; 3] as Deserialize>::fixed_words(), 3);
    assert_eq!(<[(u32, u32); 3] as Deserialize>::fixed_words(), 6);
}

#[test]
fn record_fields_are_read_at_their_offsets() {
    let words = vec![1u32, 0, 3, 2, 2, 4, 5];
    let view = <(u32, Option<u32>, u32, Vec<u32>)>::deserialize_from(&words);
    assert_eq!(view.0, 1);
    assert!(view.1.is_none());
    assert_eq!(view.2, 3);
    assert_eq!(view.3.len(), 2);
    assert_eq!(view.3.index(1), 5);
    assert_eq!(
        <(u32, Option<u32>, u32, Vec<u32>)>::into_orig(view),
        (1, None, 3, vec![4, 5])
    );
    assert_eq!(<(u32, Option<u32>, u32, Vec<u32>) as Deserialize>::fixed_words(), 5);
}

#[test]
fn optional_view_follows_its_offset() {
    let words = vec![2u32, 0, 41];
    assert_eq!(<Option<u32>>::deserialize_from(&words), Some(41));
    let words = vec![0u32, 41];
    assert_eq!(<Option<u32>>::deserialize_from(&words), None);
    assert_eq!(<Option<u32> as Deserialize>::fixed_words(), 1);
    assert_eq!(<String as Deserialize>::fixed_words(), 2);
    assert_eq!(<Vec<u32> as Deserialize>::fixed_words(), 2);
    assert_eq!(<() as Deserialize>::fixed_words(), 0);
    assert_eq!(<Box<String> as Deserialize>::fixed_words(), 2);
}

#[test]
fn text_view_refuses_bytes_that_are_no_text() {
    // two bytes, 0xff 0xfe: not UTF-8
    let words = vec![2u32, 2, 0xfeff];
    let view = String::deserialize_from(&words);
    assert_eq!(view.len(), 2);
    assert_eq!(view.to_bytes(), vec![0xff, 0xfe]);
    assert_eq!(view.as_str(), None);
    assert_eq!(view.text_in(&[0xff, 0xfe]), None);
    // a text that ends in the middle of a word is cut off by its length
    let words = vec![3u32, 2, 0x21636261];
    let view = String::deserialize_from(&words);
    assert_eq!(view.as_str(), Some("abc"));
}

#[test]
fn record_view_reads_only_the_field_asked_for() {
    // { a: u32, b: String, c: u32 }, the text's header pointing out of the buffer
    let words = vec![1u32, 4, 1000, 3];
    let view = <Record<(u32, String, u32)>>::deserialize_from(&words);
    assert_eq!(view.field2(), 3);
    assert_eq!(view.field0(), 1);
    assert_eq!(field_at::<u32>(&words, 3), 3);
    assert_eq!(<Record<(u32, String, u32)> as Deserialize>::fixed_words(), 4);
}

#[test]
fn record_view_gives_each_field() {
    let rec: Record<(Vec<u32>, u32, Option<String>, [u32; 2], String)> = Record((
        vec![1, 2],
        3,
        Some("four".into()),
        [5, 6],
        "seven".into(),
    ));
    let words = guestio::serialize::serialize(&rec).unwrap();
    let view = <Record<(Vec<u32>, u32, Option<String>, [u32; 2], String)>>::deserialize_from(&words);
    assert_eq!(view.field4().as_str(), Some("seven"));
    assert_eq!(view.field3().index(1), 6);
    assert_eq!(view.field2().unwrap().as_str(), Some("four"));
    assert_eq!(view.field1(), 3);
    assert_eq!(view.field0().len(), 2);
    assert_eq!(view.field0().index(0), 1);
    assert_eq!(
        <Record<(Vec<u32>, u32, Option<String>, [u32; 2], String)>>::into_orig(view),
        rec
    );
}

#[test]
fn empty_text_is_always_there() {
    let words = vec![0u32, 2];
    let view = String::deserialize_from(&words);
    assert_eq!(view.len(), 0);
    assert_eq!(view.as_str(), Some(""));
    assert_eq!(view.text_in(&[]), Some(""));
    let words = guestio::serialize::serialize(&String::new()).unwrap();
    assert_eq!(String::deserialize_from(&words).as_str(), Some(""));
}
