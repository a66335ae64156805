use std::fmt::Debug;

use streaming_iterator::{convert, convert_mut, convert_ref, StreamingIterator, StreamingIteratorMut};

fn test_deref<I>(mut it: I, expected: &[I::Item])
where
    I: Iterator,
    I::Item: Sized + PartialEq + Debug,
{
    for item in expected {
        assert_eq!(it.next().as_ref(), Some(item));
    }
    assert_eq!(it.next(), None)
}

#[test]
fn cloned() {
    let items = [0, 1];
    let mut it = convert(items.to_vec()).cloned();
    assert_eq!(it.next(), Some(0));
    assert_eq!(it.next(), Some(1));
    assert_eq!(it.next(), None);
}

#[test]
fn copied() {
    let items = [0, 1];
    let mut it = convert(items.to_vec()).copied();
    assert_eq!(it.next(), Some(0));
    assert_eq!(it.next(), Some(1));
    assert_eq!(it.next(), None);
}

#[test]
fn map_deref() {
    let items = [0, 1];
    let mut it =
        convert(items.iter().map(|&i| i as usize).collect()).map_deref(|&i| i as i32);
    test_deref(std::iter::from_fn(|| it.next()), &items);
}

#[test]
fn map_deref_mut() {
    let mut items = [1, 2, 3];
    {
        let mut it = convert_mut(items.iter_mut().collect())
            .map_deref_mut(|i| -core::mem::replace(i, 0));
        test_deref(std::iter::from_fn(|| it.next()), &[-1, -2, -3]);
    }
    assert_eq!(items, [0, 0, 0]);
}

#[test]
fn filter_map_deref() {
    let items = [0u8, 1, 1, 2, 4];
    let mut it = convert(items.to_vec())
        .filter_map_deref(|&i| if i % 2 == 0 { Some(i) } else { None });
    test_deref(std::iter::from_fn(|| it.next()), &[0, 2, 4])
}

#[test]
fn owned() {
    let items = [0, 1];
    let mut it = convert(items.to_vec()).owned();
    assert_eq!(std::iter::from_fn(|| it.next()).collect::<Vec<_>>(), items);
}

#[test]
fn owned_str() {
    let s = "The quick brown fox jumps over the lazy dog";
    let words = s.split_whitespace().map(str::to_owned).collect::<Vec<_>>();
    let mut it = convert_ref(s.split_whitespace().collect()).owned();
    assert_eq!(std::iter::from_fn(|| it.next()).collect::<Vec<_>>(), words);
}

#[test]
fn cloned_from_the_back() {
    let mut it = convert(vec![1, 2, 3]).cloned();
    assert_eq!(it.next_back(), Some(3));
    assert_eq!(it.next(), Some(1));
    assert_eq!(it.next_back(), Some(2));
    assert_eq!(it.next_back(), None);
    assert_eq!(it.next(), None);
}

#[test]
fn filter_map_deref_from_the_back() {
    let mut it = convert(vec![1u8, 2, 3, 4, 5])
        .filter_map_deref(|&i| if i % 2 == 0 { Some(i * 10) } else { None });
    assert_eq!(it.next_back(), Some(40));
    assert_eq!(it.next_back(), Some(20));
    assert_eq!(it.next_back(), None);
}
