use guestio::serialize::{Alloc, Serialize};
use guestio::GuestioError;

#[test]
fn allocate_takes_from_the_front() {
    let mut a = Alloc::new(5);
    let first = a.allocate(2).unwrap();
    let second = a.allocate(3).unwrap();
    assert_eq!(first.len(), 2);
    assert_eq!(second.len(), 3);
    assert_eq!(second.rel_ptr_from(&first), 2);
    assert_eq!(first.rel_ptr_from(&first), 0);
    let empty = a.allocate(0).unwrap();
    assert_eq!(empty.len(), 0);
    assert_eq!(empty.rel_ptr_from(&first), 5);
    assert_eq!(a.into_words(), vec![0; 5]);
}

#[test]
fn allocate_fails_when_too_little_is_left() {
    let mut a = Alloc::new(4);
    assert_eq!(
        a.allocate(5).unwrap_err(),
        GuestioError::AllocationSizeMismatch
    );
    // nothing was handed out by the failed call
    let all = a.allocate(4).unwrap();
    assert_eq!(all.len(), 4);
    assert_eq!(
        a.allocate(1).unwrap_err(),
        GuestioError::AllocationSizeMismatch
    );
    assert_eq!(
        a.allocate(usize::MAX).unwrap_err(),
        GuestioError::AllocationSizeMismatch
    );
}

#[test]
fn descend_narrows_and_keeps_the_base() {
    let mut a = Alloc::new(10);
    let skip = a.allocate(3).unwrap();
    let window = a.allocate(6).unwrap();
    let inner = window.descend(2, 3).unwrap();
    assert_eq!(inner.len(), 3);
    assert_eq!(inner.rel_ptr_from(&window), 2);
    assert_eq!(inner.rel_ptr_from(&skip), 5);
    let whole = window.descend(0, 6).unwrap();
    assert_eq!(whole.len(), 6);
    let end = window.descend(6, 0).unwrap();
    assert_eq!(end.len(), 0);
    inner.fill_from(&mut a, [7, 8, 9]).unwrap();
    assert_eq!(a.into_words(), vec![0, 0, 0, 0, 0, 7, 8, 9, 0, 0]);
}

#[test]
fn descend_fails_beyond_the_window() {
    let mut a = Alloc::new(10);
    let window = a.allocate(6).unwrap();
    assert_eq!(window.descend(4, 3).unwrap_err(), GuestioError::FillOverrun);
    assert_eq!(window.descend(7, 0).unwrap_err(), GuestioError::FillOverrun);
    assert_eq!(window.descend(0, 7).unwrap_err(), GuestioError::FillOverrun);
    assert_eq!(
        window.descend(usize::MAX, 2).unwrap_err(),
        GuestioError::FillOverrun
    );
    assert_eq!(
        window.descend(2, usize::MAX).unwrap_err(),
        GuestioError::FillOverrun
    );
}

#[test]
fn fill_from_needs_the_exact_length() {
    let mut a = Alloc::new(4);
    let window = a.allocate(2).unwrap();
    assert_eq!(
        window.fill_from(&mut a, [1]).unwrap_err(),
        GuestioError::FillOverrun
    );
    assert_eq!(
        window.fill_from(&mut a, [1, 2, 3]).unwrap_err(),
        GuestioError::FillOverrun
    );
    window.fill_from(&mut a, [1, 2]).unwrap();
    assert_eq!(a.into_words(), vec![1, 2, 0, 0]);
}

#[test]
fn fill_from_refuses_a_window_of_another_arena() {
    let mut big = Alloc::new(8);
    big.allocate(4).unwrap();
    let far = big.allocate(4).unwrap();
    let mut small = Alloc::new(8);
    small.allocate(2).unwrap();
    assert_eq!(
        far.fill_from(&mut small, [1, 2, 3, 4]).unwrap_err(),
        GuestioError::FillOverrun
    );
    assert_eq!(small.into_words(), vec![0; 8]);
}

#[test]
fn buf_gives_the_window_to_write() {
    let mut a = Alloc::new(6);
    a.allocate(1).unwrap();
    let window = a.allocate(3).unwrap();
    assert_eq!(window.buf(&mut a, 2).unwrap_err(), GuestioError::FillOverrun);
    assert_eq!(window.buf(&mut a, 4).unwrap_err(), GuestioError::FillOverrun);
    {
        let words = window.buf(&mut a, 3).unwrap();
        assert_eq!(words.len(), 3);
        words[0] = 11;
        words[2] = 13;
    }
    assert_eq!(a.into_words(), vec![0, 11, 0, 13, 0, 0]);
}

#[test]
fn fill_reports_an_arena_that_is_too_small() {
    let text = String::from("Howdy");
    let mut a = Alloc::new(3);
    let fixed = a.allocate(2).unwrap();
    assert_eq!(
        text.fill(&fixed, &mut a).unwrap_err(),
        GuestioError::AllocationSizeMismatch
    );
    let seq = vec![1u32, 2, 3];
    let mut a = Alloc::new(4);
    let fixed = a.allocate(2).unwrap();
    assert_eq!(
        seq.fill(&fixed, &mut a).unwrap_err(),
        GuestioError::AllocationSizeMismatch
    );
    let some: Option<(u32, String)> = Some((1, "abcde".into()));
    let mut a = Alloc::new(5);
    let fixed = a.allocate(1).unwrap();
    assert_eq!(
        some.fill(&fixed, &mut a).unwrap_err(),
        GuestioError::AllocationSizeMismatch
    );
}

#[test]
fn fill_reports_a_window_that_is_too_short() {
    let mut a = Alloc::new(8);
    let short = a.allocate(0).unwrap();
    assert_eq!(
        5u32.fill(&short, &mut a).unwrap_err(),
        GuestioError::FillOverrun
    );
    let one = a.allocate(1).unwrap();
    assert_eq!(
        String::from("hi").fill(&one, &mut a).unwrap_err(),
        GuestioError::FillOverrun
    );
    let mut a = Alloc::new(8);
    let two = a.allocate(2).unwrap();
    assert_eq!(
        [1u32, 2, 3].fill(&two, &mut a).unwrap_err(),
        GuestioError::FillOverrun
    );
    assert_eq!(
        (1u32, 2u32, 3u32).fill(&two, &mut a).unwrap_err(),
        GuestioError::FillOverrun
    );
    let none: Option<u32> = None;
    let empty = two.descend(0, 0).unwrap();
    assert_eq!(none.fill(&empty, &mut a).unwrap_err(), GuestioError::FillOverrun);
}

#[test]
fn fill_writes_header_and_payload_where_they_belong() {
    let mut a = Alloc::new(8);
    let before = a.allocate(1).unwrap();
    let window = a.allocate(2).unwrap();
    before.fill_from(&mut a, [99]).unwrap();
    vec![4u32, 5].fill(&window, &mut a).unwrap();
    // header at 1: two elements, found two words after the header
    assert_eq!(a.into_words(), vec![99, 2, 2, 4, 5, 0, 0, 0]);
}
