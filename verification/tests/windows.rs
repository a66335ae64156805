use streaming_iterator::{
    windows_mut, DoubleEndedStreamingIteratorMut, StreamingIterator, StreamingIteratorMut,
};

#[test]
fn test_windows_mut() {
    let slice: &mut [_] = &mut [0; 6];

    windows_mut(slice, 3).fold_mut(0, |i, win| {
        win.copy_from_slice(&[i; 3]);
        i + 1
    });
    assert_eq!(slice, &[0, 1, 2, 3, 3, 3]);

    windows_mut(slice, 2).rfold_mut(0, |i, win| {
        win.copy_from_slice(&[i; 2]);
        i + 1
    });
    assert_eq!(slice, &[4, 4, 3, 2, 1, 0]);

    let mut i = 0;
    let mut iter = windows_mut(slice, 1);
    while let Some(win) = iter.next_mut() {
        win.copy_from_slice(&[i]);
        i += 1;

        if let Some(win) = iter.next_back_mut() {
            win.copy_from_slice(&[i]);
            i += 1;
        }
    }
    assert_eq!(slice, &[0, 2, 4, 5, 3, 1]);
}

#[test]
fn test_windows_mut_count() {
    let slice: &mut [_] = &mut [0; 6];

    assert_eq!(windows_mut(slice, 3).count(), 4);
    assert_eq!(windows_mut(slice, 6).count(), 1);
    assert_eq!(windows_mut(slice, 9).count(), 0);

    let mut iter = windows_mut(slice, 3);
    assert_eq!(iter.size_hint(), (4, Some(4)));
    iter.advance();
    assert_eq!(iter.count(), 3);
}
