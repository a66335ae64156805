use std::fmt::Debug;

use streaming_iterator::{
    convert, convert_mut, convert_ref, empty, once, DoubleEndedStreamingIterator, Empty,
    IntoStreamingIterator,
    StreamingIterator, StreamingIteratorMut,
};

fn test<I>(mut it: I, expected: &[I::Item])
where
    I: StreamingIterator,
    I::Item: Sized + PartialEq + Debug,
{
    for item in expected {
        it.advance();
        assert_eq!(it.get(), Some(item));
        assert_eq!(it.get(), Some(item));
    }
    it.advance();
    assert_eq!(it.get(), None);
    assert_eq!(it.get(), None);
}

fn test_back<I>(mut it: I, expected: &[I::Item])
where
    I: DoubleEndedStreamingIterator,
    I::Item: Sized + PartialEq + Debug,
{
    for item in expected {
        it.advance_back();
        assert_eq!(it.get(), Some(item));
        assert_eq!(it.get(), Some(item));
    }
    it.advance_back();
    assert_eq!(it.get(), None);
    assert_eq!(it.get(), None);
}

#[test]
fn all() {
    let items = [0, 1, 2];
    let mut it = convert(items.to_vec());
    assert!(it.clone().all(|&i| i < 3));
    assert!(!it.all(|&i| i % 2 == 0));
}

#[test]
fn any() {
    let items = [0, 1, 2];
    let mut it = convert(items.to_vec());
    assert!(it.clone().any(|&i| i > 1));
    assert!(!it.any(|&i| i > 2));
}

#[test]
fn test_chain() {
    let items_a = [0, 1, 2, 3];
    let items_b = [10, 20, 30];
    let expected = [0, 1, 2, 3, 10, 20, 30];

    let it = convert(items_a.to_vec()).chain(convert(items_b.to_vec()));
    test(it, &expected);
}

#[test]
fn test_chain_back() {
    let items_a = [0, 1, 2, 3];
    let items_b = [10, 20, 30];
    let expected = [30, 20, 10, 3, 2, 1, 0];

    let it = convert(items_a.to_vec()).chain(convert(items_b.to_vec()));
    test_back(it, &expected);
}

#[test]
fn test_chain_mixed() {
    let items_a = [0, 1, 2, 3];
    let items_b = [10, 20, 30];

    let mut it = convert(items_a.to_vec()).chain(convert(items_b.to_vec()));

    assert_eq!(it.get(), None);
    it.advance();
    assert_eq!(it.get().copied(), Some(0));
    it.advance_back();
    assert_eq!(it.get().copied(), Some(30));
    it.advance();
    assert_eq!(it.get().copied(), Some(1));
    it.advance_back();
    assert_eq!(it.get().copied(), Some(20));
    it.advance();
    assert_eq!(it.get().copied(), Some(2));
    it.advance_back();
    assert_eq!(it.get().copied(), Some(10));
    it.advance_back();
    assert_eq!(it.get().copied(), Some(3));
}

#[test]
fn test_convert() {
    let items = [0, 1];
    let it = convert(items.to_vec());
    test(it, &items);
}

#[test]
fn test_convert_ref() {
    let items = [&0, &1];
    let it = convert_ref(items.iter().collect());
    test(it, &items);
}

#[test]
fn count() {
    let items = [0, 1, 2, 3];
    let it = convert(items.to_vec());
    assert_eq!(it.count(), 4);
}

#[test]
fn filter() {
    let items = [0, 1, 2, 3];
    let it = convert(items.to_vec()).filter(|x| x % 2 == 0);
    test(it, &[0, 2]);
}

#[test]
fn fuse() {
    struct Flicker(i32);

    impl StreamingIterator for Flicker {
        type Item = i32;

        fn advance(&mut self) {
            self.0 += 1;
        }

        fn get(&self) -> Option<&i32> {
            if self.0 % 4 == 3 {
                None
            } else {
                Some(&self.0)
            }
        }
    }

    let mut it = Flicker(0).fuse();
    assert_eq!(it.get(), None);
    it.advance();
    assert_eq!(it.get(), Some(&1));
    assert_eq!(it.get(), Some(&1));
    it.advance();
    assert_eq!(it.get(), Some(&2));
    assert_eq!(it.get(), Some(&2));
    it.advance();
    assert_eq!(it.get(), None);
    assert_eq!(it.get(), None);
    it.advance();
    assert_eq!(it.get(), None);
    assert_eq!(it.get(), None);
}

#[test]
fn map() {
    let items = [0, 1];
    let it = convert(items.iter().map(|&i| i as usize).collect()).map(|&i| i as i32);
    test(it, &items);
}

#[test]
fn nth() {
    let items = [0, 1];
    let mut it = convert(items.to_vec());
    assert_eq!(it.clone().nth(0), Some(&0));
    assert_eq!(it.clone().nth(1), Some(&1));
    assert_eq!(it.nth(2), None);
}

#[test]
fn filter_map() {
    let items = [0u8, 1, 1, 2, 4];
    let it = convert(items.to_vec()).filter_map(|&i| if i % 2 == 0 { Some(i) } else { None });
    test(it, &[0, 2, 4])
}

#[test]
fn find() {
    let items = [0, 1];
    let mut it = convert(items.to_vec());
    assert_eq!(it.clone().find(|&x| x % 2 == 1), Some(&1));
    assert_eq!(it.find(|&x| x % 3 == 2), None);
}

#[test]
fn position() {
    let items = [0, 1];
    let mut it = convert(items.to_vec());
    assert_eq!(it.clone().position(|&x| x % 2 == 1), Some(1));
    assert_eq!(it.position(|&x| x % 3 == 2), None);
}

#[test]
fn empty_iterator() {
    let mut it: Empty<u8> = empty();

    assert_eq!(it.next(), None);
}

#[test]
fn is_done_empty() {
    let mut empty = empty::<u8>();
    empty.advance();
    assert!(empty.is_done());
}

#[test]
fn fold() {
    let items = [0, 1, 2, 3];
    let it = convert(items.to_vec());
    assert_eq!(it.fold(0, |acc, i| acc * 10 + i), 123);
}

#[test]
fn for_each() {
    let items = [0, 1, 2, 3];
    let it = convert(items.to_vec());
    let mut acc = 0;
    it.for_each(|i| acc = acc * 10 + i);
    assert_eq!(acc, 123);
}

#[test]
fn rfold() {
    let items = [0, 1, 2, 3];
    let it = convert(items.to_vec());
    assert_eq!(it.rfold(0, |acc, i| acc * 10 + i), 3210);
}

#[test]
fn for_each_mut() {
    let mut items = [0, 1, 2, 3];

    convert_mut(items.iter_mut().collect()).for_each_mut(|i: &mut i32| *i += 10);
    assert_eq!(items, [10, 11, 12, 13]);

    // Note that filter sees a direct `&T` reference,
    // rather than `&&mut T` like `Iterator` would.
    convert_mut(items.iter_mut().collect())
        .filter(|&i: &i32| i & 1 == 0)
        .for_each_mut(|i: &mut i32| *i /= 2);
    assert_eq!(items, [5, 11, 6, 13]);
}

#[test]
fn skip() {
    let items = [0, 1, 2, 3];
    let it = convert(items.to_vec());
    test(it.clone().skip(0), &[0, 1, 2, 3]);
    test(it.clone().skip(2), &[2, 3]);
    test(it.skip(5), &[]);
}

#[test]
fn take() {
    let items = [0, 1, 2, 3];
    let it = convert(items.to_vec());
    test(it.clone().take(0), &[]);
    test(it.clone().take(2), &[0, 1]);
    test(it.take(5), &[0, 1, 2, 3]);
}

#[test]
fn take_while() {
    let items = [0, 1, 2, 3];
    let it = convert(items.to_vec());
    test(it.clone().take_while(|&i| i < 0), &[]);
    test(it.clone().take_while(|&i| i < 2), &[0, 1]);
    test(it.take_while(|&i| i < 5), &[0, 1, 2, 3]);
}

#[test]
fn rev() {
    let items = [0, 1, 2, 3];
    let it = convert(items.to_vec());
    test(it.rev(), &[3, 2, 1, 0]);
}

#[test]
fn for_each_rev() {
    let items = [0, 1, 2, 3];
    let it = convert(items.to_vec());
    let mut acc = 0;
    it.rev().for_each(|i| acc = acc * 10 + i);
    assert_eq!(acc, 3210);
}

#[test]
fn inspect() {
    let items = [0, 1, 2, 3];
    let mut idx = 0;
    let mut items_inspected = [-1, -1, -1, -1];

    {
        let it = convert(items.to_vec()).inspect(|&i| {
            items_inspected[idx] = i;
            idx += 1;
        });

        test(it, &items);
    }

    assert_eq!(&items_inspected, &items);
}

#[test]
fn map_ref() {
    #[derive(Clone)]
    struct Foo(i32);

    let items = [Foo(0), Foo(1)];
    let it = convert(items.to_vec()).map_ref(|f| &f.0);
    test(it, &[0, 1]);
}

#[test]
fn skip_while() {
    let items = [0, 1, 2, 3];
    let it = convert(items.to_vec());
    test(it.clone().skip_while(|&i| i < 0), &[0, 1, 2, 3]);
    test(it.clone().skip_while(|&i| i < 2), &[2, 3]);
    test(it.skip_while(|&i| i < 5), &[]);
}

#[test]
fn is_done_map() {
    let items = [1];
    let mut it = convert(items.to_vec()).map_ref::<u16, _>(|_| panic!("only called during get()"));
    it.advance();
    assert!(!it.is_done());
    it.advance();
    assert!(it.is_done());
}

#[test]
fn flat_map() {
    let items = [[0, 1, 2], [3, 4, 5]];
    let it = convert(items.to_vec()).flat_map(|&i| convert(i.to_vec()));

    test(it, &[0, 1, 2, 3, 4, 5]);
}

#[test]
fn flatten() {
    let mut items = [
        convert_ref([].iter().collect()),
        convert_ref([1].iter().collect()),
        convert_ref([].iter().collect()),
        convert_ref([2, 3].iter().collect()),
        convert_ref([].iter().collect()),
    ];
    let it = convert_mut(items.iter_mut().collect()).flatten();

    test(it, &[1, 2, 3]);
}

#[test]
fn flatten_unsized() {
    type DynI32 = dyn StreamingIterator<Item = i32>;
    let mut items = [
        &mut once(1) as &mut DynI32,
        &mut empty(),
        &mut convert((2..=3).collect()),
    ];
    let iters = items.iter_mut().map(|iter| &mut **iter);
    let it = convert_mut(iters.collect()).flatten();

    test(it, &[1, 2, 3]);
}

fn _is_object_safe(_: &dyn StreamingIterator<Item = ()>) {}

fn _is_object_safe_mut(_: &dyn StreamingIteratorMut<Item = ()>) {}

#[test]
fn into_streaming_iter() {
    let items = [0, 1, 2, 3];
    let iter = items.to_vec().into_streaming_iter();
    test(iter, &items);
    let iter = items.iter().collect::<Vec<_>>().into_streaming_iter_ref();
    test(iter, &items);
    let mut mut_items = items;
    let iter = mut_items.iter_mut().collect::<Vec<_>>().into_streaming_iter_mut();
    test(iter, &items);
}
