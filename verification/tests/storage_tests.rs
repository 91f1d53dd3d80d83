use apecs::btree::BTreeStorage;
use apecs::concat::Concat;
use apecs::entity::Entities;
use apecs::join::{sync, IdIter, IntoJoinIterator, JoinedIter, Maybe, MaybeIter, WithoutIter};
use apecs::par_groups::{ParGroupIter, RangeStoreParIter};
use apecs::range_store::RangeStore;
use apecs::sparse::SparseStorage;
use apecs::storage::Entry;
use apecs::tuple_join::{JoinIter, TupleListIntoIter, TupleOfOptions};
use apecs::vec_storage::VecStorage;

fn drain<T>(mut it: IdIter<T>) -> Vec<T> {
    let mut out = Vec::new();
    while let Some(x) = it.next() {
        out.push(x);
    }
    out
}

fn make_abc_vecstorage() -> VecStorage<String> {
    let mut vs = VecStorage::new_with_capacity(0);
    assert!(vs.insert(0, "abc".to_string()).is_none());
    assert!(vs.insert(1, "def".to_string()).is_none());
    assert!(vs.insert(2, "hij".to_string()).is_none());
    assert!(vs.insert(10, "666".to_string()).is_none());
    vs
}

fn make_2468_vecstorage() -> VecStorage<i32> {
    let mut vs = VecStorage::new_with_capacity(0);
    assert!(vs.insert(0, 0).is_none());
    assert!(vs.insert(2, 2).is_none());
    assert!(vs.insert(4, 4).is_none());
    assert!(vs.insert(6, 6).is_none());
    assert!(vs.insert(8, 8).is_none());
    assert!(vs.insert(10, 10).is_none());
    vs
}

#[test]
fn range_store_sanity() {
    let mut store = RangeStore::<usize>::default();
    store.insert(0, 0);
    assert_eq!(store.get(0), Some(&0));

    store.insert(1, 1);
    store.insert(2, 2);
    assert_eq!(store.get(2), Some(&2));

    store.insert(10, 10);
    store.insert(11, 11);
    store.insert(12, 12);
    assert_eq!(store.get(12), Some(&12));
    assert_eq!(store.get(13), None);
    assert_eq!(store.groups().len(), 2);
    assert_eq!(store.groups()[0].0, (0, 2));
    assert_eq!(store.groups()[1].0, (10, 12));

    store.insert(9, 9);
    assert_eq!(store.get(9), Some(&9));
    assert_eq!(store.groups()[1].0, (9, 12));

    store.insert(5, 5);
    assert_eq!(store.get(5), Some(&5));
    assert_eq!(store.groups().len(), 3);
    assert_eq!(store.groups()[1].0, (5, 5));

    *store.get_mut(9).unwrap() = 999;
    assert_eq!(store.get(9), Some(&999));
    *store.get_mut(9).unwrap() = 9;

    let removed = store.remove(11);
    assert_eq!(11, removed.unwrap());
    assert_eq!(4, store.groups().len());

    let expected: Vec<((usize, usize), Vec<usize>)> = vec![
        ((0, 2), vec![0, 1, 2]),
        ((5, 5), vec![5]),
        ((9, 10), vec![9, 10]),
        ((12, 12), vec![12]),
    ];
    assert_eq!(expected, store.groups());

    store.remove(5);
    assert_eq!(
        vec![((0, 2), vec![0, 1, 2]), ((9, 10), vec![9, 10]), ((12, 12), vec![12]),],
        store.groups()
    );

    store.remove(0);
    assert_eq!(
        vec![((1, 2), vec![1, 2]), ((9, 10), vec![9, 10]), ((12, 12), vec![12]),],
        store.groups()
    );

    store.remove(10);
    assert_eq!(
        vec![((1, 2), vec![1, 2]), ((9, 9), vec![9]), ((12, 12), vec![12]),],
        store.groups()
    );

    store.insert(4, 4);
    assert_eq!(
        vec![((1, 2), vec![1, 2]), ((4, 4), vec![4]), ((9, 9), vec![9]), ((12, 12), vec![12]),],
        store.groups()
    );

    store.insert(3, 3);
    assert_eq!(
        vec![((1, 2), vec![1, 2]), ((3, 4), vec![3, 4]), ((9, 9), vec![9]), ((12, 12), vec![12]),],
        store.groups()
    );

    store.defrag();
    assert_eq!(
        vec![((1, 4), vec![1, 2, 3, 4]), ((9, 9), vec![9]), ((12, 12), vec![12]),],
        store.groups()
    );
}

#[test]
fn range_map_sanity() {
    let mut store = RangeStore::<usize>::default();
    store.insert(0, 0);
    assert_eq!(store.get(0), Some(&0));
    store.insert(1, 1);
    store.insert(2, 2);
    assert_eq!(store.get(2), Some(&2));
    store.insert(10, 10);
    store.insert(11, 11);
    store.insert(12, 12);
    assert_eq!(store.get(12), Some(&12));
    assert_eq!(store.get(13), None);
    assert_eq!(store.groups().len(), 2);
    store.insert(9, 9);
    store.insert(5, 5);
    assert_eq!(store.groups().len(), 3);
    store.remove(11);
    store.remove(5);
    store.remove(0);
    store.remove(10);
    store.insert(4, 4);
    store.insert(3, 3);
    store.defrag();
    assert_eq!(
        vec![((1, 4), vec![1, 2, 3, 4]), ((9, 9), vec![9]), ((12, 12), vec![12]),],
        store.groups()
    );

    store.remove(3);
    store.remove(4);
    store.remove(9);
    store.remove(12);
    store.insert(0, 0);
    assert_eq!(vec![((0, 2), vec![0, 1, 2]),], store.groups());

    store.remove(1);
    assert_eq!(vec![((0, 0), vec![0]), ((2, 2), vec![2]),], store.groups());
}

#[test]
fn can_remove() {
    let mut store = RangeStore::<u32>::default();
    store.insert(0, 0);
    store.insert(1, 1);
    store.insert(2, 2);
    assert_eq!(vec![((0, 2), vec![0, 1, 2])], store.groups());
    store.remove(1);
    assert_eq!(vec![((0, 0), vec![0]), ((2, 2), vec![2]),], store.groups());
    assert_eq!(vec![0, 2], store.iter_mut().into_iter().map(|(id, _)| id).collect::<Vec<_>>());
}

#[test]
fn range_store_iter_mut_writes_through() {
    let mut store = RangeStore::<u32>::default();
    for id in [5usize, 1, 2, 9] {
        store.insert(id, id as u32);
    }
    for (id, v) in store.iter_mut() {
        *v = (id as u32) * 100;
    }
    assert_eq!(
        store.iter().into_iter().map(|(id, v)| (id, *v)).collect::<Vec<_>>(),
        vec![(1, 100), (2, 200), (5, 500), (9, 900)]
    );
    assert_eq!(store.groups().len(), 4);
}

#[test]
fn range_sanity() {
    let end_prev = 2;
    let start = 3;
    let range = (end_prev + 1)..start;
    assert_eq!(range.len(), 0);
}

#[test]
fn range_store_push_pop_and_contains() {
    let mut store = RangeStore::<&str>::new();
    assert_eq!(store.push("a"), 0);
    assert_eq!(store.push("b"), 1);
    store.insert(5, "f");
    assert_eq!(store.push("g"), 6);
    assert_eq!(store.groups(), vec![((0, 1), vec!["a", "b"]), ((5, 6), vec!["f", "g"])]);
    assert!(store.contains(5));
    assert!(!store.contains(4));
    assert_eq!(store.pop(), Some("g"));
    assert_eq!(store.groups(), vec![((0, 1), vec!["a", "b"]), ((5, 5), vec!["f"])]);
    assert_eq!(store.pop(), Some("f"));
    assert_eq!(store.groups(), vec![((0, 1), vec!["a", "b"])]);
    assert_eq!(store.get(5), None);
    assert_eq!(store.pop(), Some("b"));
    assert_eq!(store.pop(), Some("a"));
    assert_eq!(store.pop(), None);
}

#[test]
fn range_store_defrag_partial_merges_a_bounded_number() {
    let mut store = RangeStore::<usize>::new();
    for id in [0usize, 2, 4, 6] {
        store.insert(id, id);
    }
    store.insert(1, 1);
    store.insert(3, 3);
    store.insert(5, 5);
    assert_eq!(store.groups().len(), 4);
    store.defrag_partial(1);
    assert_eq!(store.groups().len(), 3);
    store.defrag_partial(10);
    assert_eq!(vec![((0, 6), vec![0, 1, 2, 3, 4, 5, 6])], store.groups());
}

#[test]
fn range_store_iter_order_survives_defrag() {
    let mut store = RangeStore::<usize>::new();
    for id in [9usize, 0, 4, 2, 6, 1, 3, 5] {
        store.insert(id, id * 10);
    }
    let before = store.iter().into_iter().map(|(id, v)| (id, *v)).collect::<Vec<_>>();
    assert_eq!(
        before,
        vec![(0, 0), (1, 10), (2, 20), (3, 30), (4, 40), (5, 50), (6, 60), (9, 90)]
    );
    assert!(store.groups().len() > 2);
    store.defrag();
    assert_eq!(store.groups().len(), 2);
    let after = store.iter().into_iter().map(|(id, v)| (id, *v)).collect::<Vec<_>>();
    assert_eq!(before, after);
}

#[test]
fn range_store_par_iter_splits_and_collects() {
    let mut store = RangeStore::<usize>::new();
    store.insert(1, 10);
    store.insert(2, 20);
    store.insert(5, 50);
    let it = store.par_iter();
    assert_eq!(it.len(), 6);
    let all = store.par_iter().into_items();
    assert_eq!(all, vec![None, Some(&10), Some(&20), None, None, Some(&50)]);
    let (left, right) = it.split_at(2);
    assert_eq!(left.len(), 2);
    assert_eq!(right.len(), 4);
    assert_eq!(left.into_items(), vec![None, Some(&10)]);
    assert_eq!(right.into_items(), vec![Some(&20), None, None, Some(&50)]);
}

#[test]
fn par_group_iter_len() {
    let present: ParGroupIter<u8> = ParGroupIter::Present(vec![1, 2, 3]);
    let missing: ParGroupIter<u8> = ParGroupIter::Missing(4);
    assert_eq!(present.len(), 3);
    assert_eq!(missing.len(), 4);
    let it = RangeStoreParIter(vec![missing, present]);
    assert_eq!(it.len(), 7);
    assert_eq!(it.into_items(), vec![None, None, None, None, Some(1), Some(2), Some(3)]);
}

#[test]
fn vec_vec_store_can_insert_and_remove() {
    let mut store = VecStorage::<usize>::new_with_capacity(10);
    let _ = store.insert(0, 0);
    let _ = store.insert(1, 1);
    let _ = store.insert(2, 2);

    assert!(store.remove(0).is_some());
    assert!(store.remove(1).is_some());
    assert!(store.remove(2).is_some());
    assert!(store.remove(0).is_none());

    let size = 10_000;
    let mut store = VecStorage::<usize>::new_with_capacity(size);
    for i in 0..size {
        let _ = store.insert(i, i);
    }

    for i in 0..size {
        assert!(store.remove(i).is_some(), "{} not in store", i);
    }
}

#[test]
fn vec_storage_get_last_and_replace() {
    let mut store = VecStorage::<&str>::default();
    assert!(store.last().is_none());
    assert_eq!(store.insert(3, "three"), None);
    assert_eq!(store.insert(3, "tres"), Some("three"));
    assert_eq!(store.get(3), Some(&"tres"));
    assert_eq!(store.get(2), None);
    let last = store.last().unwrap();
    assert_eq!(last.key, 3);
    assert_eq!(last.value, "tres");
}

#[test]
fn sparse_sorting_problem() {
    let mut sparse: SparseStorage<&str> = SparseStorage::default();
    sparse.insert(0, "zero");
    sparse.insert(1, "one");
    sparse.insert(2, "two");
    sparse.insert(10, "ten");
    assert_eq!(sparse.get(0).unwrap(), &"zero");
    assert_eq!(sparse.get(1).unwrap(), &"one");
    assert_eq!(sparse.get(2).unwrap(), &"two");
    assert_eq!(sparse.get(10).unwrap(), &"ten");

    let keys = sparse.keys();
    assert_eq!(&keys, &[0, 1, 2, 10]);

    let pointers = sparse.pointers().iter().take(4).collect::<Vec<_>>();
    assert_eq!(&pointers, &[&Some(0), &Some(1), &Some(2), &None]);

    sparse.insert(6, "six");

    let keys = sparse.keys();
    assert_eq!(&keys, &[0, 1, 2, 6, 10]);

    assert_eq!(sparse.get(0).unwrap(), &"zero");
    assert_eq!(sparse.get(1).unwrap(), &"one");
    assert_eq!(sparse.get(2).unwrap(), &"two");
    assert_eq!(sparse.get(6).unwrap(), &"six");
    assert_eq!(sparse.get(10).unwrap(), &"ten");

    let values = drain(sparse.iter()).into_iter().map(|(_, v)| v).collect::<Vec<_>>();
    assert_eq!(&values, &[&"zero", &"one", &"two", &"six", &"ten"]);

    for n in 0..=10 {
        sparse.remove(n);
    }
    assert!(sparse.keys().is_empty());
}

#[test]
fn spliterators() {
    let v = vec![0, 1, 2, 3, 4, 5, 6];
    let v_ref = v.as_slice();
    let (va, vb) = v_ref.split_at(3);
    assert!(va[0] == 0);
    assert!(vb[0] == 3);
}

#[test]
fn sparse_remove_keeps_the_rest_in_order() {
    let mut sparse: SparseStorage<u32> = SparseStorage::new_with_capacity(4);
    sparse.insert(1, 1);
    sparse.insert(3, 3);
    sparse.insert(2, 2);
    assert_eq!(sparse.keys(), vec![1, 2, 3]);
    assert_eq!(sparse.insert(2, 22), Some(2));
    assert_eq!(sparse.remove(2), Some(22));
    assert_eq!(sparse.remove(2), None);
    assert_eq!(sparse.keys(), vec![1, 3]);
    assert_eq!(sparse.get(3), Some(&3));
}

#[test]
fn sparse_insert_below_every_stored_id() {
    let mut sparse: SparseStorage<u32> = SparseStorage::new_with_capacity(0);
    sparse.insert(7, 70);
    sparse.insert(4, 40);
    sparse.insert(0, 0);
    assert_eq!(sparse.keys(), vec![0, 4, 7]);
    assert_eq!(sparse.get(4), Some(&40));
    assert_eq!(sparse.get(7), Some(&70));
    assert_eq!(sparse.get(0), Some(&0));
}

#[test]
fn btree_storage_insert_get_remove_iter() {
    let mut store = BTreeStorage::<&str>::default();
    assert!(store.last().is_none());
    assert_eq!(store.insert(4, "four"), None);
    assert_eq!(store.insert(1, "one"), None);
    assert_eq!(store.insert(4, "FOUR"), Some("four"));
    assert_eq!(store.get(4), Some(&"FOUR"));
    let last = store.last().unwrap();
    assert_eq!(last.key, 4);
    assert_eq!(*last.value, "FOUR");
    assert_eq!(drain(store.iter()), vec![(1, &"one"), (4, &"FOUR")]);
    assert_eq!(store.remove(1), Some("one"));
    assert_eq!(store.remove(1), None);
    assert_eq!(store.get(1), None);
}

#[test]
fn join_decide_bool_or_option_unit_by_size() {
    let o = std::mem::size_of::<Option<()>>();
    let b = std::mem::size_of::<bool>();
    assert!(o == b, "{} bytes", o);
}

#[test]
fn join_old_decide_bool_or_option_unit_by_size() {
    let o = std::mem::size_of::<Option<()>>();
    let b = std::mem::size_of::<bool>();
    assert!(o == b, "{} bytes", o);
}

#[test]
fn join_can_join_without() {
    let vs_abc = make_abc_vecstorage();
    let vs_246 = make_2468_vecstorage();

    // the ids below 11 that vs_246 does not hold
    let mut without = vs_246.without();
    let mut free_ids = vec![];
    for _ in 0..5 {
        free_ids.push(without.next().unwrap().key);
    }
    assert_eq!(free_ids, vec![1, 3, 5, 7, 9]);

    let mut joined = JoinedIter((vs_abc.iter(), IdIter::new(free_ids)));
    assert_eq!(joined.next(), Some((1, &"def".to_string(), 1)));
    assert_eq!(joined.next(), None);

    let mut vs_a: VecStorage<&str> = VecStorage::default();
    vs_a.insert(0, "a0");
    vs_a.insert(1, "a1");
    vs_a.insert(3, "a3");
    vs_a.insert(4, "a4");
    vs_a.insert(8, "a8");

    let mut w = vs_a.without();
    let withouts = (0..5).map(|_| w.next().unwrap().key).collect::<Vec<_>>();
    assert_eq!(&withouts, &[2, 5, 6, 7, 9]);
}

#[test]
fn join_can_join_maybe() {
    let mut vs: VecStorage<&str> = VecStorage::default();
    vs.insert(1, "1");
    vs.insert(2, "2");
    vs.insert(3, "3");
    vs.insert(6, "6");

    let mut m = vs.maybe();
    let maybes = (0..7)
        .map(|_| {
            let x = m.next().unwrap();
            (x.key, x.inner.map(|(_, v)| v))
        })
        .collect::<Vec<_>>();
    assert_eq!(
        &maybes,
        &[
            (0usize, None),
            (1, Some(&"1")),
            (2, Some(&"2")),
            (3, Some(&"3")),
            (4, None),
            (5, None),
            (6, Some(&"6"))
        ]
    );
}

#[test]
fn join_old_can_join_maybe() {
    let entries = vec![
        Entry { key: 1, value: "1" },
        Entry { key: 2, value: "2" },
        Entry { key: 6, value: "6" },
    ];
    let mut m = MaybeIter::new(IdIter::new(entries));
    let maybes = (0..4)
        .map(|_| {
            let x = m.next().unwrap();
            (x.key, x.inner.map(|e| *e.value()))
        })
        .collect::<Vec<_>>();
    assert_eq!(&maybes, &[(0usize, None), (1, Some("1")), (2, Some("2")), (3, None)]);
}

#[test]
fn join_old_can_join_without() {
    let mut w = WithoutIter::new(IdIter::new(vec![0usize, 1, 3, 4, 8]));
    let withouts = (0..5).map(|_| w.next().unwrap().id()).collect::<Vec<_>>();
    assert_eq!(&withouts, &[2, 5, 6, 7, 9]);
}

#[test]
fn join_tuple_list_iters() {
    let u32s = vec![(0usize, 0u32), (1, 1), (2, 2), (3, 3), (6, 6)];
    let strs = vec![(0usize, "zero"), (2, "two"), (3, "three"), (6, "six")];
    let evns = vec![(0usize, true), (1, false), (3, false), (4, true), (6, true)];
    let f32s = vec![(1usize, 1.0f32), (3, 3.0), (4, 4.0), (6, 6.0)];
    let streams = (u32s, (strs, (evns, (f32s, ())))).tuple_list_into_iter();
    let mut join = JoinIter(streams);
    let mut joined = vec![];
    let mut ids = vec![];
    while let Some((u, (s, (b, (f, ()))))) = join.next() {
        joined.push((u.1, s.1, b.1, f.1));
        ids.push((u.0, s.0, b.0, f.0));
    }
    let mut join_iter = joined.into_iter();
    assert_eq!((3u32, "three", false, 3.0), join_iter.next().unwrap());
    assert_eq!((6u32, "six", true, 6.0), join_iter.next().unwrap());
    assert!(join_iter.next().is_none());
    assert_eq!(vec![(3, 3, 3, 3), (6, 6, 6, 6)], ids);
}

#[test]
fn join_two_stream_pairs() {
    let u32s = vec![(0usize, 0u32), (1, 1), (2, 2), (3, 3), (6, 6)];
    let strs = vec![(0usize, "zero"), (2, "two"), (3, "three"), (6, "six")];
    let mut us_strs = JoinedIter((IdIter::new(u32s), IdIter::new(strs)));
    let mut ids = vec![];
    while let Some((id, u, s)) = us_strs.next() {
        ids.push((id, u, s));
    }
    assert_eq!(ids, vec![(0, 0, "zero"), (2, 2, "two"), (3, 3, "three"), (6, 6, "six")]);
}

#[test]
fn tuple_of_options_into_option_of_tuple() {
    assert_eq!((Some(1u8), Some('a')).into_option_of_tuple(), Some((1u8, 'a')));
    assert_eq!((Some(1u8), None::<char>).into_option_of_tuple(), None);
    assert_eq!((Some(1u8), Some('a'), Some(true)).into_option_of_tuple(), Some((1u8, 'a', true)));
    assert_eq!((None::<u8>,).into_option_of_tuple(), None);
}

#[test]
fn join_can_join_single_stream() {
    let mut j = JoinedIter((IdIter::new(vec![(2usize, 'a'), (5, 'b')]),));
    assert_eq!(j.next(), Some((2, 'a')));
    assert_eq!(j.next(), Some((5, 'b')));
    assert_eq!(j.next(), None);
}

#[test]
fn sync_finds_the_smallest_common_id() {
    let mut a = IdIter::new(vec![3usize, 5, 9]);
    let mut next_a = 1usize;
    let mut b = IdIter::new(vec![4usize, 5, 9]);
    let mut next_b = 2usize;
    assert_eq!(sync(&mut a, &mut next_a, &mut b, &mut next_b), Some(()));
    assert_eq!((next_a, next_b), (5, 5));
    assert_eq!(a.len(), 1);
    assert_eq!(b.len(), 1);

    let mut c = IdIter::new(vec![3usize]);
    let mut next_c = 1usize;
    let mut d = IdIter::new(vec![4usize]);
    let mut next_d = 2usize;
    assert_eq!(sync(&mut c, &mut next_c, &mut d, &mut next_d), None);
}

#[test]
fn sync_with_equal_ids_advances_nothing() {
    let mut a = IdIter::new(vec![9usize, 1]);
    let mut next_a = 4usize;
    let mut b = IdIter::new(vec![2usize]);
    let mut next_b = 4usize;
    assert_eq!(sync(&mut a, &mut next_a, &mut b, &mut next_b), Some(()));
    assert_eq!((next_a, next_b), (4, 4));
    assert_eq!(a.len(), 2);
    assert_eq!(b.len(), 1);
}

#[test]
fn can_thruple_join() {
    let mut strings: VecStorage<String> = VecStorage::default();
    let mut numbers: VecStorage<u32> = VecStorage::default();
    strings.insert(0, "A".to_string());
    numbers.insert(0, 1u32);
    strings.insert(1, "B".to_string());
    numbers.insert(1, 2u32);
    strings.insert(2, "C".to_string());

    let mut updates = vec![];
    {
        let mut joined = JoinedIter((strings.iter(), numbers.iter()));
        while let Some((id, s, n)) = joined.next() {
            updates.push((id, format!("{}{}{}", s, id, n)));
        }
    }
    for (id, s) in updates {
        strings.insert(id, s);
    }

    assert_eq!(strings.get(0), Some(&"A01".to_string()));
    assert_eq!(strings.get(1), Some(&"B12".to_string()));
    assert_eq!(strings.get(2), Some(&"C".to_string()));
}

#[test]
fn into_join_iterator_streams() {
    let vs = make_abc_vecstorage();
    let ids = drain((&vs).join_iter()).into_iter().map(|(id, _)| id).collect::<Vec<_>>();
    assert_eq!(ids, vec![0, 1, 2, 10]);

    let mut sparse: SparseStorage<u8> = SparseStorage::default();
    sparse.insert(3, 3);
    sparse.insert(7, 7);
    assert_eq!(drain((&sparse).join_iter()), vec![(3, &3u8), (7, &7u8)]);

    let mut bt: BTreeStorage<u8> = BTreeStorage::default();
    bt.insert(9, 1);
    bt.insert(2, 2);
    assert_eq!(drain((&bt).join_iter()), vec![(2, &2u8), (9, &1u8)]);

    let mut joined = JoinedIter(((&vs).join_iter(), vec![(1usize, 'x'), (10, 'y')].join_iter()));
    assert_eq!(joined.next(), Some((1, &"def".to_string(), 'x')));
    assert_eq!(joined.next(), Some((10, &"666".to_string(), 'y')));
    assert_eq!(joined.next(), None);
}

#[test]
fn mod_can_join_a_b() {
    let vs_abc = make_abc_vecstorage();
    let vs_246 = make_2468_vecstorage();
    let mut iter = JoinedIter((vs_abc.iter(), vs_246.iter()));
    let mut next = || iter.next().map(|(id, s, i)| (id, s.as_str(), *i));
    assert_eq!(next(), Some((0, "abc", 0)));
    assert_eq!(next(), Some((2, "hij", 2)));
    assert_eq!(next(), Some((10, "666", 10)));
    assert_eq!(next(), None);
}

#[test]
fn mod_can_join_maybe() {
    let vs_abc = make_abc_vecstorage();
    let vs_246 = make_2468_vecstorage();
    let mut m = vs_246.maybe();
    let maybes: Vec<Maybe<(usize, &i32)>> = (0..11).map(|_| m.next().unwrap()).collect();
    let mut joined = JoinIter((vs_abc.iter(), (IdIter::new(maybes), ())));
    let mut unwrap = || {
        let ((id, s), (Maybe { key, inner }, ())) = joined.next().unwrap();
        assert!(id == key);
        (id, s.clone(), inner.map(|(_, v)| *v))
    };
    assert_eq!(unwrap(), (0, "abc".to_string(), Some(0)));
    assert_eq!(unwrap(), (1, "def".to_string(), None));
    assert_eq!(unwrap(), (2, "hij".to_string(), Some(2)));
    assert_eq!(unwrap(), (10, "666".to_string(), Some(10)));
    assert!(joined.next().is_none());
}

#[test]
fn mod_can_join_not() {
    let vs_abc = make_abc_vecstorage();
    let vs_246 = make_2468_vecstorage();
    let mut w = vs_246.without();
    let free: Vec<usize> = (0..6).map(|_| w.next().unwrap().key).collect();
    let mut joined = JoinedIter((vs_abc.iter(), IdIter::new(free)));
    let mut out = vec![];
    while let Some((id, s, t)) = joined.next() {
        assert!(id == t);
        out.push((id, s.as_str(), ()));
    }
    assert_eq!(out, vec![(1, "def", ())]);
}

#[test]
fn join_can_join_entities() {
    let entities = Entities::default();
    let abc_store: VecStorage<String> = VecStorage::default();
    let alive = entities.alive_iter().into_iter().map(|e| e.id()).collect::<Vec<_>>();
    let mut joined = JoinedIter((IdIter::new(alive), abc_store.iter()));
    assert!(joined.next().is_none());
}

#[test]
fn join_old_can_join_entities() {
    let mut entities = Entities::default();
    let a = entities.create();
    let _b = entities.create();
    let mut abc_store: VecStorage<String> = VecStorage::default();
    abc_store.insert(a.id(), "a".to_string());
    let alive = entities.alive_iter().into_iter().map(|e| e.id()).collect::<Vec<_>>();
    let mut joined = JoinedIter((IdIter::new(alive), abc_store.iter()));
    assert_eq!(joined.next(), Some((0, 0, &"a".to_string())));
    assert!(joined.next().is_none());
}

#[test]
fn get_mut_writes_through() {
    let mut vs: VecStorage<u32> = VecStorage::default();
    vs.insert(2, 20);
    *vs.get_mut(2).unwrap() = 22;
    assert_eq!(vs.get(2), Some(&22));
    assert!(vs.get_mut(3).is_none());

    let mut sp: SparseStorage<u32> = SparseStorage::default();
    sp.insert(4, 40);
    *sp.get_mut(4).unwrap() = 44;
    assert_eq!(sp.get(4), Some(&44));
    assert!(sp.get_mut(5).is_none());

    let mut bt: BTreeStorage<u32> = BTreeStorage::default();
    bt.insert(6, 60);
    *bt.get_mut(6).unwrap() = 66;
    assert_eq!(bt.get(6), Some(&66));
    assert!(bt.get_mut(7).is_none());

    let mut rs: RangeStore<u32> = RangeStore::default();
    rs.insert(1, 10);
    rs.insert(2, 20);
    rs.insert(5, 50);
    let layout = rs.groups();
    *rs.get_mut(2).unwrap() = 22;
    assert_eq!(rs.get(2), Some(&22));
    assert_eq!(rs.get(1), Some(&10));
    assert!(rs.get_mut(3).is_none());
    assert_eq!(rs.groups().len(), layout.len());
    assert_eq!(rs.groups()[0], ((1, 2), vec![10, 22]));
}

#[test]
fn parallel_concat_sanity() {
    let x = 1000;
    let y = 1000;
    let vs = vec![vec![1.0f32; x]; y];
    let concat = Concat(vs);
    assert_eq!(concat.len(), x * y);
    let sum: f32 = concat.producer().into_items().into_iter().sum();
    assert_eq!((x * y) as f32, sum);
}

#[test]
fn concat_split_at_keeps_order() {
    let parts = vec![vec![0u32, 1], vec![], vec![2, 3, 4], vec![5]];
    let p = Concat(parts).producer();
    assert_eq!(p.total_len(), 6);
    let (left, right) = p.split_at(3);
    assert_eq!(left.total_len(), 3);
    let (l1, l2) = left.split_at(1);
    let (r1, r2) = right.split_at(2);
    assert_eq!(l1.into_items(), vec![0]);
    assert_eq!(l2.into_items(), vec![1, 2]);
    assert_eq!(r1.into_items(), vec![3, 4]);
    assert_eq!(r2.into_items(), vec![5]);

    let (a, b) = Concat(vec![vec![7u32, 8]]).producer().split_at(0);
    assert!(a.into_items().is_empty());
    assert_eq!(b.into_items(), vec![7, 8]);
    let (a, b) = Concat(vec![vec![7u32, 8]]).producer().split_at(2);
    assert_eq!(a.into_items(), vec![7, 8]);
    assert!(b.into_items().is_empty());
}
