use guestio::util::as_words_padded;

#[test]
fn test_pads() {
    let mut a: Vec<u32> = as_words_padded(&[]).collect();
    assert_eq!(a, Vec::<u32>::new());

    a = as_words_padded(&[1]).collect();
    assert_eq!(a, vec![1]);

    a = as_words_padded(&[1, 3]).collect();
    assert_eq!(a, vec![1 + 3 * 256]);

    a = as_words_padded(&[1, 3, 5]).collect();
    assert_eq!(a, vec![1 + 3 * 256 + 5 * 256 * 256]);

    a = as_words_padded(&[1, 3, 5, 7]).collect();
    assert_eq!(a, vec![1 + 3 * 256 + 5 * 256 * 256 + 7 * 256 * 256 * 256]);

    a = as_words_padded(&[1, 3, 5, 7, 9]).collect();
    assert_eq!(
        a,
        vec![1 + 3 * 256 + 5 * 256 * 256 + 7 * 256 * 256 * 256, 9]
    );
}
