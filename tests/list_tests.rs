use safe_collections::safe_list::{IntoIter, Iter};
use safe_collections::SafeList;

fn items(list: &SafeList<i32>) -> Vec<i32> {
    let mut out = Vec::new();
    let mut it: Iter<'_, i32> = list.iter();
    while let Some(x) = it.next() {
        out.push(*x);
    }
    out
}

fn items_backward(list: &SafeList<i32>) -> Vec<i32> {
    let mut out = Vec::new();
    let mut it = list.iter();
    while let Some(x) = it.next_back() {
        out.push(*x);
    }
    out
}

#[test]
fn test_push_and_pop() {
    let mut list = SafeList::new();
    for i in 1..=1000 {
        list.push_back(i);
        assert_eq!(*list.back().unwrap(), i);
    }
    for j in 1001..=2000 {
        list.push_front(j);
        assert_eq!(*list.front().unwrap(), j);
    }
    assert_eq!(list.len(), 2000);
    for n in (1..=1000).rev() {
        let i = list.pop_back().unwrap();
        assert_eq!(n, i);
    }
    for n in (1001..=2000).rev() {
        let i = list.pop_front().unwrap();
        assert_eq!(n, i);
    }
    assert_eq!(list.len(), 0)
}

#[test]
fn test_iter() {
    let mut list = SafeList::new();
    for i in 1..=100 {
        list.push_back(i);
    }
    let mut iter1 = list.iter();
    for i in 1..=100 {
        assert_eq!(i, *iter1.next().unwrap());
    }
    assert_eq!(None, iter1.next());
    let mut into: IntoIter<i32> = list.into_iter();
    for j in 1..=100 {
        let i = into.next().unwrap();
        assert_eq!(i, j);
    }
}

#[test]
fn test_from_and_append() {
    let vec1 = vec![1, 2, 3, 4, 5];
    let mut list = SafeList::from_iter(vec1);
    let mut it = list.iter();
    for j in 1..=5 {
        assert_eq!(*it.next().unwrap(), j);
    }

    let vec2 = vec![5, 4, 3, 2, 1];
    let mut list2 = SafeList::from_iter(vec2);
    list.append(&mut list2);
    assert!(list2.is_empty());
    let mut into = list.into_iter();
    for j in vec![1, 2, 3, 4, 5, 5, 4, 3, 2, 1] {
        assert_eq!(into.next().unwrap(), j);
    }
}

#[test]
fn back_pops_reverse_back_pushes() {
    let mut list = SafeList::new();
    for v in [7, -3, 12, 0, 5] {
        list.push_back(v);
    }
    let mut out = Vec::new();
    while let Some(v) = list.pop_back() {
        out.push(v);
    }
    assert_eq!(out, vec![5, 0, 12, -3, 7]);
    assert!(list.is_empty());
}

#[test]
fn front_pops_reverse_front_pushes() {
    let mut list = SafeList::new();
    for v in [7, -3, 12, 0, 5] {
        list.push_front(v);
    }
    assert_eq!(items(&list), vec![5, 0, 12, -3, 7]);
    let mut out = Vec::new();
    while let Some(v) = list.pop_front() {
        out.push(v);
    }
    assert_eq!(out, vec![5, 0, 12, -3, 7]);
    assert_eq!(list.len(), 0);
}

#[test]
fn interleaved_pushes_keep_ends() {
    let mut list = SafeList::new();
    for i in 1..=1000 {
        list.push_back(i);
    }
    for j in 1001..=2000 {
        list.push_front(j);
    }
    assert_eq!(list.len(), 2000);
    assert_eq!(list.front(), Some(&2000));
    assert_eq!(list.back(), Some(&1000));
}

#[test]
fn round_trip_through_forward_walk() {
    for n in [0usize, 1, 2, 17] {
        let input: Vec<i32> = (0..n as i32).map(|x| x * 3 - 4).collect();
        let list = SafeList::from_iter(input.clone());
        assert_eq!(items(&list), input);
        let mut reversed = input.clone();
        reversed.reverse();
        assert_eq!(items_backward(&list), reversed);
    }
}

#[test]
fn empty_pops_stay_empty() {
    let mut list: SafeList<i32> = SafeList::new();
    for _ in 0..5 {
        assert_eq!(list.pop_front(), None);
        assert_eq!(list.len(), 0);
        assert_eq!(list.pop_back(), None);
        assert_eq!(list.len(), 0);
    }
    assert_eq!(list.front(), None);
    assert_eq!(list.back(), None);
    assert!(list.is_empty());
}

#[test]
fn mixed_walk_takes_each_once() {
    let list = SafeList::from_iter(vec![10, 20, 30, 40, 50, 60]);
    let mut it = list.iter();
    assert_eq!(it.size_hint(), (6, Some(6)));
    let mut seen = vec![
        *it.next().unwrap(),
        *it.next_back().unwrap(),
        *it.next_back().unwrap(),
        *it.next().unwrap(),
        *it.next_back().unwrap(),
        *it.next().unwrap(),
    ];
    assert_eq!(seen, vec![10, 60, 50, 20, 40, 30]);
    assert_eq!(it.size_hint(), (0, Some(0)));
    assert_eq!(it.next(), None);
    assert_eq!(it.next_back(), None);
    seen.sort();
    assert_eq!(seen, vec![10, 20, 30, 40, 50, 60]);
}

#[test]
fn consuming_walk_from_both_ends() {
    let list = SafeList::from_iter(vec![1, 2, 3, 4]);
    let mut it = list.into_iter();
    assert_eq!(it.len(), 4);
    assert_eq!(it.next_back(), Some(4));
    assert_eq!(it.next(), Some(1));
    assert_eq!(it.next_back(), Some(3));
    assert_eq!(it.next(), Some(2));
    assert_eq!(it.next(), None);
    assert_eq!(it.next_back(), None);
    assert_eq!(it.len(), 0);
}

#[test]
fn iter_last_is_back() {
    let list = SafeList::from_iter(vec![3, 1, 4]);
    assert_eq!(list.iter().last(), Some(&4));
    let empty: SafeList<i32> = SafeList::new();
    assert_eq!(empty.iter().last(), None);
}

#[test]
fn iter_mut_changes_elements() {
    let mut list = SafeList::from_iter(vec![1, 2, 3, 4, 5]);
    {
        let mut it = list.iter_mut();
        assert_eq!(it.size_hint(), (5, Some(5)));
        while let Some(x) = it.next() {
            *x *= 10;
        }
        assert_eq!(it.next_back(), None);
    }
    assert_eq!(items(&list), vec![10, 20, 30, 40, 50]);
    {
        let mut it = list.iter_mut();
        *it.next_back().unwrap() = -1;
        *it.next().unwrap() = -2;
        assert_eq!(it.size_hint(), (3, Some(3)));
        *it.last().unwrap() = 7;
    }
    assert_eq!(items(&list), vec![-2, 20, 30, 7, -1]);
}

#[test]
fn append_cases() {
    let mut a: SafeList<i32> = SafeList::new();
    let mut b = SafeList::from_iter(vec![1, 2]);
    a.append(&mut b);
    assert_eq!(items(&a), vec![1, 2]);
    assert!(b.is_empty());
    let mut c: SafeList<i32> = SafeList::new();
    a.append(&mut c);
    assert_eq!(items(&a), vec![1, 2]);
    let mut d = SafeList::from_iter(vec![3, 4, 5]);
    a.append(&mut d);
    assert_eq!(a.len(), 5);
    assert_eq!(items(&a), vec![1, 2, 3, 4, 5]);
    assert_eq!(items_backward(&a), vec![5, 4, 3, 2, 1]);
    assert_eq!(a.pop_front(), Some(1));
    assert_eq!(a.pop_back(), Some(5));
    a.push_front(0);
    a.push_back(9);
    assert_eq!(items(&a), vec![0, 2, 3, 4, 9]);
    assert_eq!(d.len(), 0);
    d.push_back(8);
    assert_eq!(items(&d), vec![8]);
}

#[test]
fn pops_after_mixed_pushes_keep_links() {
    let mut list = SafeList::new();
    list.push_back(1);
    list.push_back(2);
    list.push_front(0);
    list.push_back(3);
    list.push_front(-1);
    assert_eq!(list.pop_front(), Some(-1));
    assert_eq!(items(&list), vec![0, 1, 2, 3]);
    assert_eq!(list.pop_back(), Some(3));
    assert_eq!(list.pop_front(), Some(0));
    list.push_back(4);
    assert_eq!(items(&list), vec![1, 2, 4]);
    assert_eq!(items_backward(&list), vec![4, 2, 1]);
    assert_eq!(list.front(), Some(&1));
    assert_eq!(list.back(), Some(&4));
}

#[test]
fn clone_is_independent() {
    let mut list = SafeList::from_iter(vec![String::from("a"), String::from("b")]);
    let copy = list.clone();
    list.push_back(String::from("c"));
    assert_eq!(list.len(), 3);
    assert_eq!(copy.len(), 2);
    let mut it = copy.iter();
    assert_eq!(it.next().map(|s| s.as_str()), Some("a"));
    assert_eq!(it.next().map(|s| s.as_str()), Some("b"));
    assert_eq!(it.next(), None);
}

#[test]
fn extend_and_clear() {
    let mut list = SafeList::from_iter(vec![1]);
    list.extend(vec![2, 3]);
    list.extend(Vec::new());
    assert_eq!(items(&list), vec![1, 2, 3]);
    list.clear();
    assert!(list.is_empty());
    assert_eq!(list.front(), None);
    list.push_front(6);
    assert_eq!(items(&list), vec![6]);
}

#[test]
fn pushes_then_fewer_pops_leave_the_rest() {
    let mut list = SafeList::new();
    for i in 0..100 {
        list.push_back(i);
    }
    for i in (60..100).rev() {
        assert_eq!(list.pop_back(), Some(i));
    }
    assert_eq!(list.len(), 60);
    assert_eq!(items(&list), (0..60).collect::<Vec<i32>>());
}

fn shareable<X: Send + Sync>(_: &X) {}

#[test]
fn list_can_be_shared_between_threads() {
    let list = SafeList::from_iter(vec![1, 2, 3]);
    shareable(&list);
    let walk = list.iter();
    let again = walk.clone();
    let mut walk = walk;
    assert_eq!(walk.next(), Some(&1));
    let mut again = again;
    assert_eq!(again.next_back(), Some(&3));
    let into = list.clone().into_iter();
    let mut copy = into.clone();
    assert_eq!(copy.next(), Some(1));
    assert_eq!(into.len(), 3);
}
