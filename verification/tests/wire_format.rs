use guestio::deserialize::Deserialize;
use guestio::laws::test_round_trip_no_containers;
use guestio::record::Record;
use guestio::serialize::{serialize, Serialize};
use guestio::{align_bytes_to_words, align_words_to_pads, pad_words, GuestioError, PAD_WORDS};

#[test]
fn scalar_is_one_raw_word() {
    assert_eq!(serialize(&5u32).unwrap(), vec![5, 0, 0, 0, 0, 0, 0, 0]);
    assert_eq!(
        serialize(&u32::MAX).unwrap(),
        vec![u32::MAX, 0, 0, 0, 0, 0, 0, 0]
    );
    assert_eq!(<u32 as Serialize>::fixed_words(), 1);
    assert_eq!(7u32.tot_len(), 1);
}

#[test]
fn unit_takes_no_words() {
    assert_eq!(<() as Serialize>::fixed_words(), 0);
    assert_eq!(().tot_len(), 0);
    assert_eq!(serialize(&()).unwrap(), vec![0; 8]);
}

#[test]
fn empty_text_has_header_and_no_payload() {
    let s = String::new();
    assert_eq!(s.tot_len(), 2);
    assert_eq!(serialize(&s).unwrap(), vec![0, 2, 0, 0, 0, 0, 0, 0]);
}

#[test]
fn text_is_packed_low_byte_first() {
    let s = String::from("hi");
    assert_eq!(s.tot_len(), 3);
    assert_eq!(
        serialize(&s).unwrap(),
        vec![2, 2, 0x68 + 0x69 * 256, 0, 0, 0, 0, 0]
    );
    let s = String::from("Howdy");
    assert_eq!(s.tot_len(), 4);
    assert_eq!(
        serialize(&s).unwrap(),
        vec![
            5,
            2,
            0x48 + 0x6f * 256 + 0x77 * 256 * 256 + 0x64 * 256 * 256 * 256,
            0x79,
            0,
            0,
            0,
            0
        ]
    );
}

#[test]
fn text_beyond_ascii_round_trips() {
    let s = String::from("gr\u{fc}\u{df}e, \u{4e16}\u{754c} \u{1f600}");
    let words = serialize(&s).unwrap();
    assert_eq!(words[0] as usize, s.len());
    let back = String::into_orig(String::deserialize_from(&words));
    assert_eq!(back, s);
}

#[test]
fn absent_is_zero_and_present_is_an_offset() {
    let none: Option<u32> = None;
    assert_eq!(none.tot_len(), 1);
    assert_eq!(serialize(&none).unwrap(), vec![0; 8]);
    let some: Option<u32> = Some(7);
    assert_eq!(some.tot_len(), 2);
    assert_eq!(serialize(&some).unwrap(), vec![1, 7, 0, 0, 0, 0, 0, 0]);
    let zero: Option<u32> = Some(0);
    let words = serialize(&zero).unwrap();
    assert_eq!(words, vec![1, 0, 0, 0, 0, 0, 0, 0]);
    assert_eq!(
        <Option<u32>>::into_orig(<Option<u32>>::deserialize_from(&words)),
        Some(0)
    );
}

#[test]
fn record_with_text_and_absent_link() {
    // { a: 5u32, b: "hi", next: absent }
    let rec: Record<(u32, String, Option<Box<()>>)> = Record((5, "hi".into(), None));
    let words = serialize(&rec).unwrap();
    assert_eq!(words, vec![5, 2, 3, 0, 0x68 + 0x69 * 256, 0, 0, 0]);
    assert_eq!(serialize(&rec.0).unwrap(), words);
    let view = <Record<(u32, String, Option<Box<()>>)>>::deserialize_from(&words);
    assert_eq!(view.field0(), 5);
    assert_eq!(view.field1().len(), 2);
    assert_eq!(view.field1().byte(0), b'h');
    assert_eq!(view.field1().byte(1), b'i');
    assert!(view.field2().is_none());
    assert_eq!(<Record<(u32, String, Option<Box<()>>)>>::into_orig(view), rec);
    let eager = <(u32, String, Option<Box<()>>)>::deserialize_from(&words);
    assert_eq!(eager.0, 5);
    assert_eq!(eager.1.as_str(), Some("hi"));
    assert!(eager.2.is_none());
    assert_eq!(<(u32, String, Option<Box<()>>)>::into_orig(eager), rec.0);
}

#[test]
fn nested_optional_record_offset() {
    // outer { a: 9, inner: Some(inner { x: 7, y: 8 }), c: 10 }
    let rec: (u32, Option<(u32, u32)>, u32) = (9, Some((7, 8)), 10);
    let words = serialize(&rec).unwrap();
    // the header of `inner` is word 1, its record begins at word 3
    assert_eq!(words, vec![9, 2, 10, 7, 8, 0, 0, 0]);
    let back = <(u32, Option<(u32, u32)>, u32)>::into_orig(
        <(u32, Option<(u32, u32)>, u32)>::deserialize_from(&words),
    );
    assert_eq!(back, rec);
}

#[test]
fn array_is_inline_and_sequence_is_not() {
    let arr = [1u32, 2, 3];
    assert_eq!(<[u32; 3] as Serialize>::fixed_words(), 3);
    assert_eq!(arr.tot_len(), 3);
    assert_eq!(serialize(&arr).unwrap(), vec![1, 2, 3, 0, 0, 0, 0, 0]);
    let seq = vec![1u32, 2, 3];
    assert_eq!(<Vec<u32> as Serialize>::fixed_words(), 2);
    assert_eq!(seq.tot_len(), 5);
    assert_eq!(serialize(&seq).unwrap(), vec![3, 2, 1, 2, 3, 0, 0, 0]);
}

#[test]
fn sequence_of_texts_layout() {
    let seq = vec![String::from("a"), String::from("bc")];
    // header, two element headers, two payloads
    assert_eq!(seq.tot_len(), 2 + 2 * 2 + 1 + 1);
    let words = serialize(&seq).unwrap();
    assert_eq!(
        words,
        vec![2, 2, 1, 4, 2, 3, 0x61, 0x62 + 0x63 * 256, 0, 0, 0, 0, 0, 0, 0, 0]
    );
    let back = <Vec<String>>::into_orig(<Vec<String>>::deserialize_from(&words));
    assert_eq!(back, seq);
}

#[test]
fn field_order_is_part_of_the_encoding() {
    let ab: (u32, String) = (1, "a".into());
    let ba: (String, u32) = ("a".into(), 1);
    let first = serialize(&ab).unwrap();
    let second = serialize(&ba).unwrap();
    assert_eq!(first, vec![1, 1, 2, 0x61, 0, 0, 0, 0]);
    assert_eq!(second, vec![1, 3, 1, 0x61, 0, 0, 0, 0]);
    assert_ne!(first, second);
}

#[test]
fn boxed_value_has_no_words_of_its_own() {
    let plain = (3u32, 4u32);
    let boxed = Box::new((3u32, 4u32));
    assert_eq!(
        <Box<(u32, u32)> as Serialize>::fixed_words(),
        <(u32, u32) as Serialize>::fixed_words()
    );
    assert_eq!(boxed.tot_len(), plain.tot_len());
    assert_eq!(serialize(&boxed).unwrap(), serialize(&plain).unwrap());
    let words = serialize(&boxed).unwrap();
    assert_eq!(
        <Box<(u32, u32)>>::into_orig(<Box<(u32, u32)>>::deserialize_from(&words)),
        boxed
    );
}

#[test]
fn buffers_are_whole_blocks_with_a_reserved_word() {
    assert_eq!(serialize(&[7u32; 7]).unwrap().len(), 8);
    let full = serialize(&[7u32; 8]).unwrap();
    assert_eq!(full.len(), 16);
    assert_eq!(full[15], 0);
    assert_eq!(&full[..8], &[7u32; 8]);
    assert_eq!(&full[8..], &[0u32; 8]);
    for n in 0..40usize {
        let v: Vec<u32> = (0..n as u32).collect();
        let words = serialize(&v).unwrap();
        assert_eq!(words.len() % PAD_WORDS, 0);
        assert!(words.len() > v.tot_len());
        assert!(words.len() <= v.tot_len() + PAD_WORDS);
        assert_eq!(*words.last().unwrap(), 0);
    }
}

#[test]
fn encoding_is_canonical() {
    let a: (u32, Vec<String>, Option<Box<u32>>) = (4, vec!["x".into(), "yz".into()], Some(Box::new(9)));
    let b = a.clone();
    assert_eq!(serialize(&a).unwrap(), serialize(&a).unwrap());
    assert_eq!(serialize(&a).unwrap(), serialize(&b).unwrap());
}

#[test]
fn equal_buffers_decode_to_equal_values() {
    let a: Vec<Option<u32>> = vec![Some(1), None, Some(3)];
    let b: Vec<Option<u32>> = vec![Some(1), None, Some(3)];
    let wa = serialize(&a).unwrap();
    let wb = serialize(&b).unwrap();
    assert_eq!(wa, wb);
    assert_eq!(
        <Vec<Option<u32>>>::into_orig(<Vec<Option<u32>>>::deserialize_from(&wa)),
        <Vec<Option<u32>>>::into_orig(<Vec<Option<u32>>>::deserialize_from(&wb))
    );
}

#[test]
fn round_trip_gives_the_value_back() {
    assert_eq!(test_round_trip_no_containers(&17u32), 17);
    assert_eq!(
        test_round_trip_no_containers(&String::from("Why hello there!")),
        "Why hello there!"
    );
    let v: Vec<(u32, Option<String>)> = vec![(1, None), (2, Some("two".into()))];
    assert_eq!(test_round_trip_no_containers(&v), v);
    let arr: [Option<[u32; 2]>; 3] = [Some([1, 2]), None, Some([5, 6])];
    assert_eq!(test_round_trip_no_containers(&arr), arr);
    let empty: Vec<String> = Vec::new();
    assert_eq!(test_round_trip_no_containers(&empty), empty);
    let none: [u32; 0] = [];
    assert_eq!(test_round_trip_no_containers(&none), none);
}

#[test]
fn records_of_one_to_five_fields() {
    let one: (String,) = ("a".into(),);
    assert_eq!(test_round_trip_no_containers(&one), one);
    let two: (u32, String) = (1, "b".into());
    assert_eq!(test_round_trip_no_containers(&two), two);
    let three: (String, u32, Vec<u32>) = ("c".into(), 2, vec![3, 4]);
    assert_eq!(test_round_trip_no_containers(&three), three);
    let four: (u32, Option<u32>, String, [u32; 2]) = (1, Some(2), "d".into(), [3, 4]);
    assert_eq!(test_round_trip_no_containers(&four), four);
    let five: (Vec<String>, u32, (), Box<u32>, Option<String>) =
        (vec!["e".into(), "".into()], 5, (), Box::new(6), Some("f".into()));
    assert_eq!(test_round_trip_no_containers(&five), five);
    assert_eq!(
        serialize(&five).unwrap(),
        vec![
            2, 5, 5, 6, 6, // fixed region: sequence header, 5, 6, offset of the text
            1, 4, 0, 3, // headers of "e" and ""
            0x65, // "e"
            1, 2, 0x66, // "f": header, then payload
            0, 0, 0
        ]
    );
}

#[test]
fn sizes_round_up() {
    assert_eq!(align_bytes_to_words(0), 0);
    assert_eq!(align_bytes_to_words(1), 1);
    assert_eq!(align_bytes_to_words(4), 1);
    assert_eq!(align_bytes_to_words(5), 2);
    assert_eq!(align_bytes_to_words(usize::MAX), usize::MAX / 4 + 1);
    assert_eq!(align_words_to_pads(0), 0);
    assert_eq!(align_words_to_pads(1), 1);
    assert_eq!(align_words_to_pads(8), 1);
    assert_eq!(align_words_to_pads(9), 2);
    assert_eq!(align_words_to_pads(usize::MAX), usize::MAX / 8 + 1);
    assert_eq!(pad_words(0), Some(8));
    assert_eq!(pad_words(7), Some(8));
    assert_eq!(pad_words(8), Some(16));
    assert_eq!(pad_words(15), Some(16));
    assert_eq!(pad_words(usize::MAX), None);
    assert_eq!(pad_words(usize::MAX - 1), None);
    assert_eq!(pad_words(usize::MAX - 8), Some(usize::MAX - 7));
}

#[test]
fn errors_have_messages() {
    assert_eq!(
        GuestioError::AllocationSizeMismatch.message(),
        "Allocation size mismatch"
    );
    assert_eq!(GuestioError::FillOverrun.message(), "Fill overrun");
}
