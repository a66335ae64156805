use streaming_iterator::{
    convert, convert_mut, convert_ref, empty, once, windows_mut, DoubleEndedStreamingIterator,
    DoubleEndedStreamingIteratorMut, StreamingIterator, StreamingIteratorMut,
};

fn drain<I>(mut it: I) -> Vec<I::Item>
where
    I: StreamingIterator,
    I::Item: Sized + Clone,
{
    let mut out = Vec::new();
    while let Some(x) = it.next() {
        out.push(x.clone());
    }
    assert!(it.next().is_none());
    out
}

fn drain_back<I>(mut it: I) -> Vec<I::Item>
where
    I: DoubleEndedStreamingIterator,
    I::Item: Sized + Clone,
{
    let mut out = Vec::new();
    while let Some(x) = it.next_back() {
        out.push(x.clone());
    }
    out
}

struct Flicker(i32);

impl StreamingIterator for Flicker {
    type Item = i32;

    fn advance(&mut self) {
        self.0 += 1;
    }

    fn get(&self) -> Option<&i32> {
        if self.0 % 4 == 3 {
            None
        } else {
            Some(&self.0)
        }
    }
}

#[test]
fn n_elements_give_n_steps_then_nothing() {
    for n in 0..5usize {
        let items: Vec<usize> = (0..n).collect();
        let mut it = convert(items.clone());
        for k in 0..n {
            assert_eq!(it.next(), Some(&items[k]));
        }
        assert_eq!(it.next(), None);
        assert_eq!(it.next(), None);
    }
}

#[test]
fn fused_cursor_stays_at_the_end() {
    let mut plain = Flicker(0);
    plain.advance();
    plain.advance();
    plain.advance();
    assert_eq!(plain.get(), None);
    plain.advance();
    assert_eq!(plain.get(), Some(&4));

    let mut it = Flicker(0).fuse();
    assert_eq!(it.next(), Some(&1));
    assert_eq!(it.next(), Some(&2));
    assert_eq!(it.next(), None);
    for _ in 0..6 {
        assert_eq!(it.next(), None);
        assert!(it.is_done());
    }
}

#[test]
fn fuse_counts_and_folds_what_is_left() {
    assert_eq!(convert(vec![1, 2, 3]).fuse().count(), 3);
    let mut it = convert(vec![1, 2, 3]).fuse();
    it.advance();
    assert_eq!(it.size_hint(), (2, Some(2)));
    assert_eq!(it.fold(0, |acc, x| acc * 10 + x), 23);
    let mut spent = convert(Vec::<i32>::new()).fuse();
    spent.advance();
    assert_eq!(spent.fold(7, |acc, x| acc + x), 7);
    let mut spent = convert(Vec::<i32>::new()).fuse();
    spent.advance();
    assert_eq!(spent.count(), 0);
    let mut it = convert(vec![1, 2]).fuse();
    assert_eq!(it.get_mut(), None);
    *it.next_mut().unwrap() = 9;
    assert_eq!(it.get(), Some(&9));
    assert_eq!(it.fold_mut(0, |acc, x| acc + *x), 2);
}

#[test]
fn rev_of_rev_is_the_cursor() {
    let items = vec![3, 1, 4, 1, 5];
    assert_eq!(drain(convert(items.clone()).rev().rev()), items);
    assert_eq!(drain_back(convert(items.clone()).rev().rev()), drain_back(convert(items.clone())));
    assert_eq!(drain(convert(Vec::<i32>::new()).rev().rev()), Vec::<i32>::new());
    let mut both = convert(items.clone()).rev().rev();
    let mut plain = convert(items);
    assert_eq!(both.next().copied(), plain.next().copied());
    assert_eq!(both.next_back().copied(), plain.next_back().copied());
    assert_eq!(both.size_hint(), plain.size_hint());
    assert_eq!(drain(both), drain(plain));
}

#[test]
fn rev_folds_from_the_other_end() {
    let items = vec![1, 2, 3];
    assert_eq!(convert(items.clone()).rev().fold(0, |acc, x| acc * 10 + x), 321);
    assert_eq!(convert(items.clone()).rev().rfold(0, |acc, x| acc * 10 + x), 123);
    assert_eq!(convert(items.clone()).rev().fold_mut(0, |acc, x| acc * 10 + *x), 321);
    assert_eq!(convert(items.clone()).rev().rfold_mut(0, |acc, x| acc * 10 + *x), 123);
    let mut it = convert(items).rev();
    assert_eq!(it.next_back(), Some(&1));
    *it.next_mut().unwrap() = 7;
    assert_eq!(it.get(), Some(&7));
    assert!(!it.is_done());
}

#[test]
fn filter_that_accepts_all_changes_nothing() {
    let items = vec![5, 6, 7, 8];
    assert_eq!(drain(convert(items.clone()).filter(|_| true)), items);
    assert_eq!(drain_back(convert(items.clone()).filter(|_| true)), vec![8, 7, 6, 5]);
    assert_eq!(convert(items.clone()).filter(|_| true).count(), items.len());
    assert_eq!(drain(convert(Vec::<i32>::new()).filter(|_| true)), Vec::<i32>::new());
    let mut it = convert(items.clone()).filter(|_| true);
    let mut plain = convert(items);
    for _ in 0..6 {
        assert_eq!(it.next(), plain.next());
        assert_eq!(it.is_done(), plain.is_done());
    }
}

#[test]
fn filter_that_rejects_all_has_nothing() {
    let mut it = convert(vec![1, 2, 3]).filter(|_| false);
    assert_eq!(it.size_hint(), (0, Some(3)));
    assert_eq!(it.next(), None);
    assert_eq!(it.next(), None);
}

#[test]
fn count_is_the_number_of_steps() {
    fn steps<I: StreamingIterator>(mut it: I) -> usize {
        let mut n = 0;
        while it.next().is_some() {
            n += 1;
        }
        n
    }
    let items = vec![0, 1, 2, 3, 4, 5, 6];
    assert_eq!(convert(items.clone()).count(), steps(convert(items.clone())));
    assert_eq!(
        convert(items.clone()).filter(|x| x % 3 == 0).count(),
        steps(convert(items.clone()).filter(|x| x % 3 == 0))
    );
    assert_eq!(convert(items.clone()).filter(|x| x % 3 == 0).count(), 3);
    assert_eq!(convert(items.clone()).skip(2).count(), 5);
    assert_eq!(convert(items.clone()).take(3).count(), 3);
    assert_eq!(convert(items.clone()).take(30).count(), 7);
    assert_eq!(convert(items.clone()).skip_while(|x| *x < 4).count(), 3);
    assert_eq!(convert(items.clone()).take_while(|x| *x < 4).count(), 4);
    assert_eq!(convert(items.clone()).chain(convert(items.clone())).count(), 14);
    assert_eq!(convert(items.clone()).rev().count(), 7);
    assert_eq!(convert(items.clone()).fuse().count(), 7);
    assert_eq!(convert(items.clone()).map(|x| x * 2).count(), 7);
    assert_eq!(convert(items.clone()).inspect(|_| ()).count(), 7);
    assert_eq!(empty::<i32>().count(), 0);
    assert_eq!(once(1).count(), 1);
    assert_eq!(convert(items.clone()).fold(0usize, |n, _| n + 1), 7);
    let refs: Vec<&i32> = items.iter().collect();
    assert_eq!(convert_ref(refs).count(), 7);
}

#[test]
fn chain_has_the_elements_of_both() {
    let a = vec![1, 2, 3];
    let b = vec![10, 20];
    assert_eq!(drain(convert(a.clone()).chain(convert(b.clone()))), vec![1, 2, 3, 10, 20]);
    assert_eq!(drain(convert(a.clone()).chain(convert(b.clone())).rev()), vec![20, 10, 3, 2, 1]);
    assert_eq!(convert(a.clone()).chain(convert(b.clone())).count(), a.len() + b.len());
    assert_eq!(drain(convert(a.clone()).chain(empty())), a);
    assert_eq!(drain(empty().chain(convert(b.clone()))), b);
    assert_eq!(drain(empty::<i32>().chain(empty())), Vec::<i32>::new());
    assert_eq!(drain_back(empty().chain(convert(b.clone()))), vec![20, 10]);
    assert_eq!(drain_back(convert(a.clone()).chain(empty())), vec![3, 2, 1]);
}

#[test]
fn chain_folds_over_both() {
    let a = vec![1, 2, 3];
    let b = vec![4, 5];
    let chain = || convert(a.clone()).chain(convert(b.clone()));
    assert_eq!(chain().fold(0, |acc, x| acc * 10 + x), 12345);
    assert_eq!(chain().rfold(0, |acc, x| acc * 10 + x), 54321);
    assert_eq!(chain().fold_mut(0, |acc, x| acc * 10 + *x), 12345);
    assert_eq!(chain().rfold_mut(0, |acc, x| acc * 10 + *x), 54321);
    let mut it = chain();
    it.advance();
    it.advance_back();
    assert_eq!(it.fold(0, |acc, x| acc * 10 + x), 234);
    let mut it = chain();
    for _ in 0..4 {
        it.advance();
    }
    assert_eq!(it.get(), Some(&4));
    assert!(!it.is_done());
    *it.get_mut().unwrap() = 40;
    assert_eq!(it.get(), Some(&40));
    assert_eq!(it.fold(0, |acc, x| acc * 10 + x), 5);
    let mut it = chain();
    for _ in 0..3 {
        it.advance_back();
    }
    assert_eq!(it.get(), Some(&3));
    assert_eq!(it.rfold(0, |acc, x| acc * 10 + x), 21);
}

#[test]
fn windows_are_counted_sized_and_overlapping() {
    for len in 0..7usize {
        for size in 1..8usize {
            let mut buf: Vec<usize> = (0..len).collect();
            let expected = if len >= size { len - size + 1 } else { 0 };
            assert_eq!(windows_mut(&mut buf, size).count(), expected);
            assert_eq!(windows_mut(&mut buf, size).size_hint(), (expected, Some(expected)));
            let mut it = windows_mut(&mut buf, size);
            let mut seen = 0;
            let mut last: Option<Vec<usize>> = None;
            while let Some(w) = it.next() {
                assert_eq!(w.len(), size);
                assert_eq!(w[0], seen);
                if let Some(prev) = &last {
                    assert_eq!(&prev[1..], &w[..size - 1]);
                }
                last = Some(w.to_vec());
                seen += 1;
            }
            assert_eq!(seen, expected);
            assert_eq!(it.next(), None);
            assert!(it.is_done());
        }
    }
}

#[test]
fn windows_from_the_back() {
    let mut buf = [1, 2, 3, 4, 5];
    let mut it = windows_mut(&mut buf, 2);
    assert!(it.is_done());
    assert_eq!(it.get(), None);
    assert_eq!(it.next_back(), Some(&[4, 5][..]));
    assert!(!it.is_done());
    assert_eq!(it.size_hint(), (3, Some(3)));
    assert_eq!(it.next(), Some(&[1, 2][..]));
    assert_eq!(it.next_back(), Some(&[3, 4][..]));
    assert_eq!(it.next_back(), Some(&[2, 3][..]));
    assert_eq!(it.next_back(), None);
    assert_eq!(it.next(), None);
    assert_eq!(it.size_hint(), (0, Some(0)));
}

#[test]
fn what_is_written_to_a_window_is_in_the_buffer() {
    let mut buf = [0; 5];
    {
        let mut it = windows_mut(&mut buf, 2);
        it.advance();
        it.get_mut().unwrap()[1] = 7;
        assert_eq!(it.get(), Some(&[0, 7][..]));
        assert_eq!(it.next(), Some(&[7, 0][..]));
        it.advance_back();
        it.get_mut().unwrap().copy_from_slice(&[8, 9]);
    }
    assert_eq!(buf, [0, 7, 0, 8, 9]);
}

#[test]
fn adapters_over_nothing_have_nothing() {
    let none = || convert(Vec::<i32>::new());
    assert_eq!(drain(none().map(|x| x + 1)), Vec::<i32>::new());
    assert_eq!(drain(none().filter_map(|x| Some(*x))), Vec::<i32>::new());
    assert_eq!(drain(none().skip(3)), Vec::<i32>::new());
    assert_eq!(drain(none().take(3)), Vec::<i32>::new());
    assert_eq!(drain(none().skip_while(|_| true)), Vec::<i32>::new());
    assert_eq!(drain(none().take_while(|_| true)), Vec::<i32>::new());
    assert_eq!(drain(none().inspect(|_| ())), Vec::<i32>::new());
    assert_eq!(drain(none().fuse()), Vec::<i32>::new());
    assert_eq!(drain(none().rev()), Vec::<i32>::new());
    assert_eq!(drain(none().flat_map(|&x| once(x))), Vec::<i32>::new());
    assert_eq!(none().fold(5, |acc, x| acc + x), 5);
    assert_eq!(none().rfold(5, |acc, x| acc + x), 5);
    assert!(none().all(|_| false));
    assert!(!none().any(|_| true));
    assert_eq!(none().find(|_| true), None);
    assert_eq!(none().position(|_| true), None);
    assert_eq!(none().nth(0), None);
}

#[test]
fn overridden_folds_agree_with_stepping() {
    let items = vec![1, 2, 3, 4, 5, 6];
    let digits = |acc: i64, x: &i64| acc * 10 + x;
    let stepped = |v: Vec<i64>| v.iter().fold(0, |acc, x| acc * 10 + x);
    let src = || convert(items.clone());

    let even = |x: &i64| x % 2 == 0;
    assert_eq!(src().filter(even).fold(0, digits), stepped(drain(src().filter(even))));
    assert_eq!(src().filter(even).fold(0, digits), 246);
    assert_eq!(src().filter(even).rfold(0, digits), 642);
    assert_eq!(src().filter(even).fold_mut(0, |acc, x| acc * 10 + *x), 246);
    assert_eq!(src().filter(even).rfold_mut(0, |acc, x| acc * 10 + *x), 642);

    let halve = |x: &i64| if x % 2 == 0 { Some(x / 2) } else { None };
    assert_eq!(src().filter_map(halve).fold(0, digits), 123);
    assert_eq!(src().filter_map(halve).rfold(0, digits), 321);
    assert_eq!(src().filter_map(halve).fold_mut(0, |acc, x| acc * 10 + *x), 123);
    assert_eq!(src().filter_map(halve).rfold_mut(0, |acc, x| acc * 10 + *x), 321);
    assert_eq!(drain_back(src().filter_map(halve)), vec![3, 2, 1]);

    assert_eq!(src().map(|x| x + 1).fold(0, digits), 234567);
    assert_eq!(drain_back(src().map(|x| x + 1)), vec![7, 6, 5, 4, 3, 2]);

    let mut seen = Vec::new();
    assert_eq!(src().inspect(|x| seen.push(*x)).fold(0, digits), 123456);
    assert_eq!(seen, items);
    let mut seen = Vec::new();
    assert_eq!(src().inspect(|x| seen.push(*x)).rfold(0, digits), 654321);
    assert_eq!(seen, vec![6, 5, 4, 3, 2, 1]);
    let mut seen = Vec::new();
    assert_eq!(src().inspect(|x| seen.push(*x)).fold_mut(0, |acc, x| acc * 10 + *x), 123456);
    assert_eq!(seen, items);
    let mut seen = Vec::new();
    assert_eq!(src().inspect(|x| seen.push(*x)).rfold_mut(0, |acc, x| acc * 10 + *x), 654321);
    assert_eq!(seen, vec![6, 5, 4, 3, 2, 1]);

    assert_eq!(src().skip(0).fold(0, digits), 123456);
    assert_eq!(src().skip(2).fold(0, digits), 3456);
    assert_eq!(src().skip(6).fold(0, digits), 0);
    assert_eq!(src().skip(9).fold(0, digits), 0);
    assert_eq!(src().skip(4).fold_mut(0, |acc, x| acc * 10 + *x), 56);
    assert_eq!(src().skip(7).fold_mut(3, |acc, x| acc * 10 + *x), 3);

    assert_eq!(src().skip_while(|x| *x < 4).fold(0, digits), 456);
    assert_eq!(src().skip_while(|x| *x < 9).fold(1, digits), 1);
    assert_eq!(src().skip_while(|x| *x < 5).fold_mut(0, |acc, x| acc * 10 + *x), 56);
    let mut started = src().skip_while(|x| *x < 3);
    started.advance();
    assert_eq!(started.fold(0, digits), 456);

    assert_eq!(src().flat_map(|&x| convert(vec![x, x])).fold(0, digits), 112233445566);
    assert_eq!(
        src().flat_map(|&x| convert(vec![x])).fold_mut(0, |acc, x| acc * 10 + *x),
        123456
    );
    let mut part = src().flat_map(|&x| convert(vec![x, x + 1]));
    part.advance();
    assert_eq!(part.fold(0, digits), 22334455667);
}

#[test]
fn size_hints_follow_the_wrapped_cursor() {
    let src = || convert(vec![1, 2, 3, 4]);
    assert_eq!(src().filter(|_| true).size_hint(), (0, Some(4)));
    assert_eq!(src().filter_map(|x| Some(*x)).size_hint(), (0, Some(4)));
    assert_eq!(src().map(|x| *x).size_hint(), (4, Some(4)));
    assert_eq!(src().inspect(|_| ()).size_hint(), (4, Some(4)));
    assert_eq!(src().fuse().size_hint(), (4, Some(4)));
    assert_eq!(src().rev().size_hint(), (4, Some(4)));
    assert_eq!(src().skip(1).size_hint(), (3, Some(3)));
    assert_eq!(src().skip(9).size_hint(), (0, Some(0)));
    assert_eq!(src().skip_while(|_| true).size_hint(), (0, Some(4)));
    assert_eq!(src().take(2).size_hint(), (2, Some(2)));
    assert_eq!(src().take(9).size_hint(), (4, Some(9)));
    assert_eq!(src().take_while(|_| true).size_hint(), (0, Some(4)));
    let mut stopped = src().take_while(|x| *x < 2);
    stopped.advance();
    stopped.advance();
    assert_eq!(stopped.size_hint(), (0, Some(0)));
    assert_eq!(src().chain(src()).size_hint(), (0, None));
    assert_eq!(src().flat_map(|&x| once(x)).size_hint(), (0, None));
    assert_eq!(src().map_ref(|x| x).size_hint(), (4, Some(4)));
    assert_eq!(src().cloned().size_hint(), (4, Some(4)));
    assert_eq!(src().copied().size_hint(), (4, Some(4)));
    assert_eq!(src().owned().size_hint(), (4, Some(4)));
    assert_eq!(src().map_deref(|x| *x).size_hint(), (4, Some(4)));
    assert_eq!(src().map_deref_mut(|x| *x).size_hint(), (4, Some(4)));
}

#[test]
fn steps_past_the_end_stay_at_the_end() {
    let src = || convert(vec![1, 2]);
    fn past_the_end<I: StreamingIterator>(mut it: I, n: usize) {
        for _ in 0..n {
            assert!(it.next().is_some());
        }
        for _ in 0..3 {
            assert!(it.next().is_none());
            assert!(it.is_done());
        }
    }
    past_the_end(src(), 2);
    past_the_end(src().chain(src()), 4);
    past_the_end(src().filter(|_| true), 2);
    past_the_end(src().filter_map(|x| Some(*x)), 2);
    past_the_end(src().map(|x| *x), 2);
    past_the_end(src().map_ref(|x| x), 2);
    past_the_end(src().inspect(|_| ()), 2);
    past_the_end(src().skip(1), 1);
    past_the_end(src().skip(5), 0);
    past_the_end(src().take(1), 1);
    past_the_end(src().take(0), 0);
    past_the_end(src().skip_while(|x| *x < 2), 1);
    past_the_end(src().take_while(|x| *x < 2), 1);
    past_the_end(src().rev(), 2);
    past_the_end(src().fuse(), 2);
    past_the_end(src().flat_map(|&x| convert(vec![x, x])), 4);
    past_the_end(once(1), 1);
    past_the_end(empty::<i32>(), 0);
}

#[test]
fn filter_and_map_from_both_ends() {
    let mut it = convert(vec![1, 2, 3, 4, 5, 6]).filter(|x| x % 2 == 0);
    assert_eq!(it.next(), Some(&2));
    assert_eq!(it.next_back(), Some(&6));
    assert_eq!(it.next_back(), Some(&4));
    assert_eq!(it.next(), None);
    assert_eq!(it.next_back(), None);
    let mut it = convert(vec![1, 2, 3]).map(|x| x * 10);
    assert_eq!(it.next_back(), Some(&30));
    assert_eq!(it.next(), Some(&10));
    *it.get_mut().unwrap() = 11;
    assert_eq!(it.get(), Some(&11));
    assert_eq!(it.next(), Some(&20));
    assert_eq!(it.next(), None);
    let mut it = convert(vec![1, 2, 3, 4]).filter_map(|x| if *x > 1 { Some(x * 2) } else { None });
    assert_eq!(it.next_back(), Some(&8));
    assert_eq!(it.next(), Some(&4));
    *it.get_mut().unwrap() = 5;
    assert_eq!(it.get(), Some(&5));
    assert_eq!(it.next(), Some(&6));
    assert_eq!(it.next_back(), None);
    let mut it = convert(vec![1, 2, 3]).inspect(|_| ());
    assert_eq!(it.next_back(), Some(&3));
    *it.next_mut().unwrap() = 9;
    assert_eq!(it.get(), Some(&9));
}

#[test]
fn consumers_stop_where_they_say() {
    let mut it = convert(vec![1, 2, 3, 4]);
    assert!(!it.all(|x| *x < 3));
    assert_eq!(it.get(), Some(&3));
    assert_eq!(it.next(), Some(&4));
    let mut it = convert(vec![1, 2, 3, 4]);
    assert!(it.any(|x| *x == 2));
    assert_eq!(it.get(), Some(&2));
    let mut it = convert(vec![1, 2, 3, 4]);
    assert_eq!(it.find(|x| *x > 2), Some(&3));
    assert_eq!(it.next(), Some(&4));
    let mut it = convert(vec![1, 2, 3, 4]);
    assert_eq!(it.position(|x| *x == 3), Some(2));
    assert_eq!(it.position(|x| *x == 4), Some(0));
    assert_eq!(it.position(|_| true), None);
    let mut it = convert(vec![1, 2, 3, 4]);
    assert_eq!(it.nth(1), Some(&2));
    assert_eq!(it.nth(0), Some(&3));
    assert_eq!(it.nth(5), None);
    let mut it = convert(vec![1, 2, 3, 4]);
    assert_eq!(it.by_ref().take(2).fold(0, |acc, x| acc + x), 3);
    assert_eq!(it.next(), Some(&3));
}

#[test]
fn take_and_skip_lend_mutably() {
    let mut items = [1, 2, 3, 4];
    convert_mut(items.iter_mut().collect()).take(2).for_each_mut(|x| *x = 0);
    assert_eq!(items, [0, 0, 3, 4]);
    convert_mut(items.iter_mut().collect()).skip(3).for_each_mut(|x| *x = 9);
    assert_eq!(items, [0, 0, 3, 9]);
    convert_mut(items.iter_mut().collect())
        .skip_while(|x| *x == 0)
        .for_each_mut(|x| *x += 1);
    assert_eq!(items, [0, 0, 4, 10]);
    convert_mut(items.iter_mut().collect())
        .take_while(|x| *x == 0)
        .for_each_mut(|x| *x = 1);
    assert_eq!(items, [1, 1, 4, 10]);
    let mut taken = convert_mut(items.iter_mut().collect()).take(0);
    taken.advance();
    assert_eq!(taken.get_mut(), None);
    let mut stopped = convert_mut(items.iter_mut().collect()).take_while(|_| false);
    stopped.advance();
    assert_eq!(stopped.get_mut(), None);
    assert_eq!(stopped.next(), None);
}

#[test]
fn flatten_lends_mutably() {
    let mut a = [1, 2];
    let mut b = [3];
    let mut inner = [
        convert_mut(a.iter_mut().collect()),
        convert_mut(Vec::new()),
        convert_mut(b.iter_mut().collect()),
    ];
    {
        let mut it = convert_mut(inner.iter_mut().collect()).flatten();
        assert!(it.is_done());
        while let Some(x) = it.next_mut() {
            *x *= 10;
        }
        assert!(it.is_done());
    }
    assert_eq!(a, [10, 20]);
    assert_eq!(b, [30]);
}

#[test]
fn take_while_folds_up_to_the_first_rejected() {
    let items = vec![1, 2, 3, 4, 1, 2];
    let digits = |acc: i64, x: &i64| acc * 10 + x;
    let src = || convert(items.clone());

    assert_eq!(src().take_while(|x| *x < 4).fold(0, digits), 123);
    assert_eq!(src().take_while(|x| *x < 1).fold(7, digits), 7);
    assert_eq!(src().take_while(|_| true).fold(0, digits), 123412);

    let mut calls = 0;
    let folded = src()
        .take_while(|x| {
            calls += 1;
            *x < 3
        })
        .fold(0, digits);
    assert_eq!(folded, 12);
    assert_eq!(calls, 3);

    let mut stopped = src().take_while(|x| *x < 2);
    stopped.advance();
    stopped.advance();
    assert!(stopped.is_done());
    assert_eq!(stopped.fold(5, digits), 5);

    let mut going = src().take_while(|x| *x < 4);
    going.advance();
    assert_eq!(going.fold(0, digits), 23);
}
