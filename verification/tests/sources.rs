use streaming_iterator::{
    convert, convert_mut, convert_ref, empty, from_fn, once, once_with, repeat, repeat_with,
    successors, DoubleEndedStreamingIterator, DoubleEndedStreamingIteratorMut, StreamingIterator,
    StreamingIteratorMut,
};

#[test]
fn from_fn_yields_until_none() {
    let mut count = 0;
    let mut it = from_fn(|| {
        count += 1;
        if count < 4 {
            Some(count)
        } else {
            None
        }
    });
    assert_eq!(it.get(), None);
    assert_eq!(it.next(), Some(&1));
    assert_eq!(it.next(), Some(&2));
    assert_eq!(it.next(), Some(&3));
    assert_eq!(it.next(), None);
    assert_eq!(it.size_hint(), (0, None));
}

#[test]
fn once_yields_one_element() {
    let mut it = once(1);
    assert_eq!(it.size_hint(), (1, Some(1)));
    assert_eq!(it.next(), Some(&1));
    assert_eq!(it.size_hint(), (0, Some(0)));
    assert_eq!(it.next(), None);
    assert_eq!(it.next(), None);
}

#[test]
fn once_from_the_back() {
    let mut it = once(7);
    it.advance_back();
    assert_eq!(it.get(), Some(&7));
    it.advance();
    assert_eq!(it.get(), None);
}

#[test]
fn once_with_calls_its_closure_at_the_first_step() {
    #[derive(Debug, PartialEq)]
    struct Expensive(i32);
    let mut it = once_with(|| Expensive(1));
    assert_eq!(it.get(), None);
    assert_eq!(it.size_hint(), (1, Some(1)));
    assert_eq!(it.next(), Some(&Expensive(1)));
    assert_eq!(it.size_hint(), (0, Some(0)));
    assert_eq!(it.next(), None);
    assert_eq!(it.next(), None);
}

#[test]
fn repeat_never_ends() {
    let mut it = repeat(1);
    for _ in 0..5 {
        assert_eq!(it.next(), Some(&1));
    }
    assert_eq!(it.size_hint(), (usize::MAX, None));
    assert!(!it.is_done());
}

#[test]
fn repeat_keeps_what_is_written() {
    let mut it = repeat(1);
    *it.next_mut().unwrap() = 5;
    assert_eq!(it.next(), Some(&5));
    assert_eq!(it.next_back(), Some(&5));
}

#[test]
fn repeat_with_calls_its_closure_at_every_step() {
    let mut count = 0;
    let mut it = repeat_with(|| {
        count += 1;
        count
    });
    assert_eq!(it.get(), None);
    assert_eq!(it.next(), Some(&1));
    assert_eq!(it.next(), Some(&2));
    assert_eq!(it.next(), Some(&3));
    assert_eq!(it.next(), Some(&4));
    assert_eq!(it.next(), Some(&5));
    assert_eq!(it.size_hint(), (usize::MAX, None));
}

#[test]
fn successors_follow_the_closure() {
    let mut it = successors(Some(1), |count| if count < 3 { Some(count + 1) } else { None });
    assert_eq!(it.size_hint(), (1, None));
    assert_eq!(it.next(), Some(&1));
    assert_eq!(it.size_hint(), (0, None));
    assert_eq!(it.next(), Some(&2));
    assert_eq!(it.next(), Some(&3));
    assert_eq!(it.next(), None);
    assert_eq!(it.size_hint(), (0, Some(0)));
    assert_eq!(it.next(), None);
}

#[test]
fn successors_without_a_seed() {
    let mut it = successors(None, |x: i32| Some(x + 1));
    assert_eq!(it.size_hint(), (0, Some(0)));
    assert_eq!(it.next(), None);
    assert_eq!(it.next(), None);
}

#[test]
fn successors_see_what_is_written() {
    let mut it = successors(Some(1), |x| if x < 100 { Some(x * 2) } else { None });
    assert_eq!(it.next(), Some(&1));
    *it.get_mut().unwrap() = 10;
    assert_eq!(it.next(), Some(&20));
}

#[test]
fn empty_has_nothing() {
    let mut it = empty::<i32>();
    assert_eq!(it.size_hint(), (0, Some(0)));
    assert_eq!(it.get(), None);
    assert_eq!(it.next(), None);
    assert_eq!(it.next_back(), None);
    assert_eq!(it.get_mut(), None);
    assert_eq!(it.clone().count(), 0);
}

#[test]
fn convert_of_nothing() {
    let mut it = convert(Vec::<i32>::new());
    assert_eq!(it.size_hint(), (0, Some(0)));
    assert_eq!(it.next(), None);
    assert_eq!(it.next(), None);
    assert_eq!(it.next_back(), None);
    assert!(it.is_done());
}

#[test]
fn convert_size_hint_counts_what_is_left() {
    let mut it = convert(vec![1, 2, 3]);
    assert_eq!(it.size_hint(), (3, Some(3)));
    it.advance();
    assert_eq!(it.size_hint(), (2, Some(2)));
    it.advance_back();
    assert_eq!(it.size_hint(), (1, Some(1)));
    assert_eq!(it.clone().count(), 1);
    it.advance();
    assert_eq!(it.get(), Some(&2));
    assert_eq!(it.size_hint(), (0, Some(0)));
    it.advance();
    assert_eq!(it.get(), None);
    it.advance_back();
    assert_eq!(it.get(), None);
}

#[test]
fn convert_from_both_ends_meets_in_the_middle() {
    let mut it = convert(vec![1, 2, 3, 4, 5]);
    assert_eq!(it.next(), Some(&1));
    assert_eq!(it.next_back(), Some(&5));
    assert_eq!(it.next_back(), Some(&4));
    assert_eq!(it.next(), Some(&2));
    assert_eq!(it.next(), Some(&3));
    assert_eq!(it.next(), None);
    assert_eq!(it.next_back(), None);
}

#[test]
fn convert_lends_its_elements_mutably() {
    let mut it = convert(vec![1, 2, 3]);
    while let Some(x) = it.next_mut() {
        *x += 10;
        assert_eq!(it.get().copied().map(|y| y > 10), Some(true));
    }
    let total = convert(vec![1, 2, 3]).fold_mut(0, |acc, x| {
        *x *= 2;
        acc + *x
    });
    assert_eq!(total, 12);
    let backwards = convert(vec![1, 2, 3]).rfold_mut(0, |acc, x| acc * 10 + *x);
    assert_eq!(backwards, 321);
}

#[test]
fn convert_ref_from_both_ends() {
    let items = [1, 2, 3];
    let mut it = convert_ref(items.iter().collect());
    assert_eq!(it.size_hint(), (3, Some(3)));
    assert_eq!(it.next_back(), Some(&3));
    assert_eq!(it.next(), Some(&1));
    assert_eq!(it.clone().count(), 1);
    assert_eq!(it.next(), Some(&2));
    assert_eq!(it.next(), None);
}

#[test]
fn convert_ref_over_unsized_elements() {
    let words = ["a", "bc"];
    let mut it = convert_ref(words.iter().copied().collect());
    assert_eq!(it.next(), Some("a"));
    assert_eq!(it.next(), Some("bc"));
    assert_eq!(it.next(), None);
}

#[test]
fn convert_mut_writes_to_the_referents() {
    let mut scores = vec![Some(100), None, Some(80)];
    {
        let mut it = convert_mut(scores.iter_mut().collect());
        assert_eq!(it.size_hint(), (3, Some(3)));
        while let Some(opt_score) = it.next_mut() {
            opt_score.take();
        }
    }
    assert_eq!(scores, [None, None, None]);
}

#[test]
fn convert_mut_from_the_back() {
    let mut items = [1, 2, 3];
    {
        let mut it = convert_mut(items.iter_mut().collect());
        *it.next_back_mut().unwrap() = 30;
        *it.next_mut().unwrap() = 10;
        assert_eq!(it.size_hint(), (1, Some(1)));
    }
    assert_eq!(items, [10, 2, 30]);
}
