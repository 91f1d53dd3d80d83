use apecs::archetype::Archetype;
use apecs::bundle::{ensure_type_info, ordered_types, AnyBundle, BundleError, IsBundle, TypeInfoError};
use apecs::components::AllArchetypes;
use apecs::entry::Entry;
use apecs::query::{borrows, lock_columns, Borrow, QueryColumn};

const F32: u64 = 1;
const STR: u64 = 2;
const BOOL: u64 = 3;
const U32: u64 = 4;
const USIZE: u64 = 5;
const UNIT: u64 = 6;

#[derive(Debug, Clone, PartialEq)]
enum Comp {
    F32(f32),
    Str(String),
    Bool(bool),
    U32(u32),
    Usize(usize),
    Unit,
}

fn s(x: &str) -> Comp {
    Comp::Str(x.to_string())
}

fn bundle(types: &[u64], values: Vec<Comp>) -> AnyBundle<Comp> {
    AnyBundle::from_pairs(types, values).unwrap()
}

fn f32_of(e: Option<&Entry<Comp>>) -> f32 {
    match e {
        Some(Entry { value: Comp::F32(f), .. }) => *f,
        other => panic!("not an f32: {:?}", other.map(|e| &e.value)),
    }
}

fn str_of(e: Option<&Entry<Comp>>) -> String {
    match e {
        Some(Entry { value: Comp::Str(x), .. }) => x.clone(),
        other => panic!("not a string: {:?}", other.map(|e| &e.value)),
    }
}

fn bool_of(e: Option<&Entry<Comp>>) -> Option<bool> {
    match e {
        Some(Entry { value: Comp::Bool(b), .. }) => Some(*b),
        None => None,
        other => panic!("not a bool: {:?}", other.map(|e| &e.value)),
    }
}

#[test]
fn ref_bundle() {
    let a: f32 = 0.0;
    let mut b: String = "hello".to_string();
    let c: bool = true;
    let abc = (&a, &mut b, &c);
    let (_a_ref, may_tail) = abc.uncons().unwrap();
    let (b_mut_ref, may_tail) = may_tail.unwrap().uncons().unwrap();
    let (_c_ref, _) = may_tail.unwrap().uncons().unwrap();
    *b_mut_ref = "goodbye".to_string();
    assert_eq!(b, "goodbye");
}

#[test]
fn bundle_cons_rebuilds_the_tuple() {
    let t = (1u8, 'x', true);
    let (h, tail) = t.uncons().unwrap();
    assert_eq!(<(u8, char, bool)>::cons(h, tail.unwrap()), (1u8, 'x', true));
    assert!(().uncons().is_none());
}

#[test]
fn bundle_bundle_union_returns_prev() {
    let mut left = bundle(&[STR, F32, BOOL], vec![s("one"), Comp::F32(1.0), Comp::Bool(true)]);
    let right = bundle(&[STR, BOOL], vec![s("two"), Comp::Bool(false)]);
    let leftover: AnyBundle<Comp> = left.union(right).unwrap();
    let ab = leftover.take(&[STR, BOOL]).unwrap();
    assert_eq!(ab[0], s("one"));
    assert_eq!(ab[1], Comp::Bool(true));

    let abc = left.take(&[STR, F32, BOOL]).unwrap();
    assert_eq!(abc[0], s("two"));
    assert_eq!(abc[1], Comp::F32(1.0));
    assert_eq!(abc[2], Comp::Bool(false));
}

#[test]
fn bundle_union_of_disjoint_bundles_returns_none() {
    let mut left = bundle(&[F32], vec![Comp::F32(1.0)]);
    let right = bundle(&[BOOL], vec![Comp::Bool(true)]);
    assert!(left.union(right).is_none());
    assert_eq!(left.type_info().to_vec(), vec![F32, BOOL]);
}

#[test]
fn bundle_type_info() {
    let any = bundle(&[F32], vec![Comp::F32(0.0)]);
    assert_eq!(vec![F32], any.type_info().to_vec());
}

#[test]
fn empty_bundle_type_info() {
    let tys = ordered_types(&[F32, BOOL, STR]).unwrap();
    assert!(!tys.to_vec().is_empty());
    let again = ordered_types(&[STR, BOOL, F32]).unwrap();
    assert_eq!(tys.to_vec(), again.to_vec());
}

#[test]
fn basic_type_info() {
    let tys = ordered_types(&[F32]).unwrap();
    assert_eq!(vec![F32], tys.to_vec());

    let tys_a = ordered_types(&[F32, BOOL, STR]).unwrap().to_vec();
    assert!(!tys_a.is_empty(), "types are empty");

    let tys_b = ordered_types(&[BOOL, F32, STR]).unwrap().to_vec();
    assert_eq!(tys_a, tys_b);
    assert!(tys_a == tys_b);
    assert_eq!(tys_a, vec![F32, STR, BOOL]);
}

#[test]
fn type_info_errors() {
    assert_eq!(ensure_type_info(&[1, 2, 3]), Ok(()));
    assert_eq!(ensure_type_info(&[1, 1, 3]), Err(TypeInfoError::Duplicate));
    assert_eq!(ensure_type_info(&[1, 3, 2]), Err(TypeInfoError::Unsorted));
    assert!(matches!(ordered_types(&[4, 2, 4]), Err(TypeInfoError::Duplicate)));
    assert!(matches!(AnyBundle::from_pairs(&[F32, F32], vec![Comp::F32(0.0), Comp::F32(1.0)]), Err(TypeInfoError::Duplicate)));
}

#[test]
fn bundle_insert_remove_and_missing_type() {
    let mut b: AnyBundle<Comp> = AnyBundle::new();
    assert!(b.is_empty());
    assert_eq!(b.insert(U32, Comp::U32(3)), None);
    assert_eq!(b.insert(F32, Comp::F32(2.0)), None);
    assert_eq!(b.insert(U32, Comp::U32(4)), Some(Comp::U32(3)));
    assert_eq!(b.type_info().to_vec(), vec![F32, U32]);
    assert_eq!(b.remove(F32), Ok(Comp::F32(2.0)));
    assert_eq!(b.remove(F32), Err(BundleError::MissingType));
    let rest = b.remove_any(U32).unwrap();
    assert!(b.is_empty());
    assert_eq!(rest.take(&[U32]), Ok(vec![Comp::U32(4)]));
    let b2 = bundle(&[F32], vec![Comp::F32(0.5)]);
    assert_eq!(b2.take(&[F32, BOOL]), Err(BundleError::MissingType));
}

#[test]
fn bundle_into_entry_bundle_stamps_entries() {
    let b = bundle(&[BOOL, F32], vec![Comp::Bool(true), Comp::F32(7.0)]);
    let entries = b.into_entry_bundle(9, 3);
    let es = entries.take(&[F32, BOOL]).unwrap();
    assert_eq!(es[0].key, 9);
    assert_eq!(es[0].changed, 3);
    assert!(es[0].added);
    assert_eq!(es[0].value, Comp::F32(7.0));
    assert_eq!(es[1].value, Comp::Bool(true));
}

#[test]
fn new_archetype_has_ty() {
    let arch: Archetype<Comp> = Archetype::new(&[F32]).unwrap();
    assert_eq!(Some(0), arch.index_of(F32));
    assert!(arch.has_component(F32));
    assert!(!arch.has_component(BOOL));
    assert!(arch.is_empty());
}

#[test]
fn archetype_archetype_can_match() {
    let arch: Archetype<Comp> = Archetype::new(&[F32, BOOL]).unwrap();
    assert!(!arch.type_list().to_vec().is_empty(), "archetype types is empty");
    assert_eq!(arch.matches_bundle(&[F32, BOOL]), Ok(true));
    assert_eq!(arch.matches_bundle(&[BOOL, F32]), Ok(true));
    assert_eq!(arch.matches_bundle(&[STR, BOOL]), Ok(false));
    assert_eq!(arch.matches_bundle(&[F32, BOOL, STR]), Ok(false));
    assert_eq!(arch.matches_bundle(&[F32]), Ok(false));
    assert_eq!(arch.matches_bundle(&[F32, F32]), Err(TypeInfoError::Duplicate));
    assert!(arch.contains_entry_types(&[F32]));
    assert!(!arch.contains_entry_types(&[F32, STR]));
    assert!(arch.same_types(&[F32, BOOL]));
    assert!(matches!(Archetype::<Comp>::new(&[F32, F32]), Err(TypeInfoError::Duplicate)));
}

#[test]
fn archetype_from_entry_bundle_holds_one_row() {
    let b = bundle(&[F32, STR], vec![Comp::F32(1.0), s("a")]).into_entry_bundle(4, 0);
    let arch = Archetype::try_from_any_entry_bundle(Some(4), b);
    assert_eq!(arch.len(), 1);
    assert_eq!(arch.column_of(F32).unwrap()[0].value, Comp::F32(1.0));
    assert!(arch.column_of(BOOL).is_none());
}

#[test]
fn all_all_archetypes_can_create_add_remove_get_mut() {
    let mut arch: AllArchetypes<Comp> = AllArchetypes::default();
    assert!(arch.insert_component(0, F32, Comp::F32(0.0), 0).is_none());
    assert!(arch.insert_component(1, F32, Comp::F32(1.0), 0).is_none());
    assert!(arch.insert_component(2, F32, Comp::F32(2.0), 0).is_none());
    assert!(arch.insert_component(3, F32, Comp::F32(3.0), 0).is_none());
    assert!(arch.insert_component(1, STR, s("one"), 0).is_none());
    assert!(arch.insert_component(2, STR, s("two"), 0).is_none());
    assert_eq!(arch.insert_component(3, F32, Comp::F32(3.33), 0).unwrap(), Comp::F32(3.00));

    let mut arch: AllArchetypes<Comp> = AllArchetypes::default();
    arch.insert_bundle(0, bundle(&[F32, STR, U32], vec![Comp::F32(0.0), s("zero"), Comp::U32(0)]), 0);
    arch.insert_bundle(1, bundle(&[F32, STR, U32], vec![Comp::F32(1.0), s("one"), Comp::U32(1)]), 0);
    arch.insert_bundle(2, bundle(&[F32, STR, U32], vec![Comp::F32(2.0), s("two"), Comp::U32(2)]), 0);
    arch.insert_bundle(3, bundle(&[F32, STR, U32], vec![Comp::F32(3.0), s("three"), Comp::U32(3)]), 0);
    arch.insert_bundle(1, bundle(&[F32, STR, U32], vec![Comp::F32(111.0), s("one"), Comp::U32(1)]), 0);
    assert_eq!(
        vec![Comp::F32(111.0), s("one"), Comp::U32(1)],
        arch.remove(1).unwrap().take(&[F32, STR, U32]).unwrap()
    );
}

#[test]
fn mod_all_archetypes_can_create_add_remove_get_mut() {
    let mut all: AllArchetypes<Comp> = AllArchetypes::new();
    all.insert_bundle(0, bundle(&[F32, BOOL], vec![Comp::F32(0.0), Comp::Bool(true)]), 1);
    all.insert_bundle(1, bundle(&[F32], vec![Comp::F32(1.0)]), 1);
    assert_eq!(all.len(), 2);
    assert_eq!(all.remove_component(0, BOOL), Some(Comp::Bool(true)));
    assert_eq!(all.remove_component(0, BOOL), None);
    assert_eq!(all.entity_types(0).to_vec(), vec![F32]);
    assert_eq!(all.entity_types(7).to_vec(), Vec::<u64>::new());
    assert!(all.remove(5).is_none());
    assert!(all.remove(0).is_some());
    assert!(all.remove(1).is_some());
    assert!(all.is_empty());
}

#[test]
fn all_archetypes_can_remove() {
    let mut all: AllArchetypes<Comp> = AllArchetypes::default();

    for id in 0..10000 {
        all.insert_component(id, USIZE, Comp::Usize(id), 0);
    }

    {
        let q = all.query(&[QueryColumn::Ref(USIZE)]);
        let got = q
            .iter_mut()
            .into_iter()
            .map(|(id, row)| match row[0] {
                Some(Entry { value: Comp::Usize(u), .. }) => (id, *u),
                _ => panic!("missing usize"),
            })
            .collect::<Vec<_>>();
        assert_eq!((0..10000).map(|i| (i, i)).collect::<Vec<_>>(), got);
    }

    for id in 0..10000 {
        all.insert_component(id, F32, Comp::F32(id as f32), 0);
    }

    {
        let q = all.query(&[QueryColumn::Ref(USIZE), QueryColumn::Ref(F32)]);
        let got = q
            .iter_mut()
            .into_iter()
            .map(|(id, row)| match (row[0], row[1]) {
                (Some(Entry { value: Comp::Usize(u), .. }), Some(Entry { value: Comp::F32(f), .. })) => (id, *u, *f),
                _ => panic!("missing component"),
            })
            .collect::<Vec<_>>();
        assert_eq!((0..10000).map(|i| (i, i, i as f32)).collect::<Vec<_>>(), got);
    }

    for id in 0..10000 {
        let _ = all.remove(id);
    }
    assert!(all.is_empty());
}

#[test]
fn all_archetypes_columns_and_archetype_lookup() {
    let mut all: AllArchetypes<Comp> = AllArchetypes::default();
    all.insert_bundle(0, bundle(&[F32, STR], vec![Comp::F32(0.0), s("zero")]), 0);
    all.insert_bundle(1, bundle(&[F32], vec![Comp::F32(1.0)]), 0);
    all.insert_bundle(2, bundle(&[F32, STR], vec![Comp::F32(2.0), s("two")]), 0);
    let cols = all.get_column(F32);
    assert_eq!(cols.len(), 2);
    assert_eq!(cols[0].iter().map(|e| e.key).collect::<Vec<_>>(), vec![0, 2]);
    assert_eq!(cols[1].iter().map(|e| e.key).collect::<Vec<_>>(), vec![1]);
    let (k, arch) = all.get_archetype_mut(&[F32]).unwrap();
    assert_eq!(k, 1);
    assert_eq!(arch.len(), 1);
    assert!(all.get_archetype_mut(&[BOOL]).is_none());
    assert_eq!(all.num_archetypes(), 2);
    assert_eq!(all.lookup_of(2), Some((0, 1)));
    assert_eq!(all.lookup_of(9), None);
}

#[test]
fn all_archetypes_extend_and_insert_archetype() {
    let mut all: AllArchetypes<Comp> = AllArchetypes::default();
    let columns = vec![
        vec![Entry::new(5, Comp::F32(5.0), 0), Entry::new(6, Comp::F32(6.0), 0)],
        vec![Entry::new(5, s("five"), 0), Entry::new(6, s("six"), 0)],
    ];
    all.extend(&[F32, STR], columns);
    assert_eq!(all.len(), 2);
    assert_eq!(all.entity_types(6).to_vec(), vec![F32, STR]);

    let arch = Archetype::try_from_any_entry_bundle(Some(8), bundle(&[BOOL], vec![Comp::Bool(false)]).into_entry_bundle(8, 0));
    all.insert_archetype(arch);
    assert_eq!(all.len(), 3);
    assert_eq!(all.entity_types(8).to_vec(), vec![BOOL]);
    assert_eq!(all.remove_component(8, BOOL), Some(Comp::Bool(false)));
}

#[test]
fn all_archetypes_upkeep_removes_dead() {
    let mut all: AllArchetypes<Comp> = AllArchetypes::default();
    all.insert_component(0, U32, Comp::U32(0), 0);
    all.insert_component(1, U32, Comp::U32(1), 0);
    all.insert_component(2, BOOL, Comp::Bool(true), 0);
    assert_eq!(all.num_archetypes(), 2);
    all.upkeep(&[0, 2, 40]);
    assert_eq!(all.len(), 1);
    // the archetype of entity 2 was emptied and is gone
    assert_eq!(all.num_archetypes(), 1);
    assert_eq!(all.entity_types(1).to_vec(), vec![U32]);
    assert_eq!(all.entity_types(2).to_vec(), Vec::<u64>::new());
}

#[test]
fn can_query_all() {
    let mut all: AllArchetypes<Comp> = AllArchetypes::default();
    all.insert_bundle(0, bundle(&[F32, BOOL], vec![Comp::F32(0.0), Comp::Bool(true)]), 0);
    all.insert_bundle(1, bundle(&[F32, BOOL, STR], vec![Comp::F32(1.0), Comp::Bool(false), s("hello")]), 0);
    all.insert_bundle(2, bundle(&[F32, BOOL, UNIT], vec![Comp::F32(2.0), Comp::Bool(true), Comp::Unit]), 0);
    all.insert_bundle(3, bundle(&[F32, BOOL], vec![Comp::F32(3.0), Comp::Bool(false)]), 0);

    let q = all.query(&[QueryColumn::Ref(F32)]);
    let sum = q.iter_mut().into_iter().fold(0.0f32, |sum, (_, row)| sum + f32_of(row[0]));
    assert_eq!(6.0, sum);
}

fn three_rows() -> AllArchetypes<Comp> {
    let mut store: AllArchetypes<Comp> = AllArchetypes::default();
    store.insert_bundle(0, bundle(&[F32, STR, BOOL], vec![Comp::F32(0.0), s("zero"), Comp::Bool(false)]), 0);
    store.insert_bundle(1, bundle(&[F32, STR, BOOL], vec![Comp::F32(1.0), s("one"), Comp::Bool(false)]), 0);
    store.insert_bundle(2, bundle(&[F32, STR, BOOL], vec![Comp::F32(2.0), s("two"), Comp::Bool(false)]), 0);
    store
}

#[test]
fn iter_types() {
    let mut store = three_rows();
    {
        let q = store.query(&[QueryColumn::Ref(F32)]);
        let f32s = q.iter_mut().into_iter().map(|(_, r)| f32_of(r[0])).collect::<Vec<_>>();
        let f32s_again = q.iter_mut().into_iter().map(|(_, r)| f32_of(r[0])).collect::<Vec<_>>();
        assert_eq!(vec![0.0f32, 1.0, 2.0f32], f32s);
        assert_eq!(vec![0.0f32, 1.0, 2.0f32], f32s_again);
    }
    let writes = {
        let q = store.query(&[QueryColumn::Mut(BOOL), QueryColumn::Ref(F32)]);
        let rows = q.iter_mut();
        assert_eq!(3, rows.len());
        rows.into_iter()
            .enumerate()
            .map(|(i, (id, r))| {
                assert!(f32_of(r[1]) as usize == i);
                (id, !bool_of(r[0]).unwrap())
            })
            .collect::<Vec<_>>()
    };
    for (id, b) in writes {
        *store.get_mut(id, BOOL, 1).unwrap() = Comp::Bool(b);
    }
    let writes = {
        let q = store.query(&[QueryColumn::Ref(STR), QueryColumn::Mut(BOOL), QueryColumn::Mut(F32)]);
        q.iter_mut().into_iter().map(|(id, r)| (id, str_of(r[0]).len() as f32)).collect::<Vec<_>>()
    };
    for (id, f) in writes {
        *store.get_mut(id, F32, 2).unwrap() = Comp::F32(f);
    }
    let q = store.query(&[QueryColumn::Ref(BOOL), QueryColumn::Ref(F32), QueryColumn::Ref(STR)]);
    for (_, r) in q.iter_mut() {
        assert_eq!(bool_of(r[0]), Some(true));
        assert_eq!(f32_of(r[1]), str_of(r[2]).len() as f32, "{}.len() != {}", str_of(r[2]), f32_of(r[1]));
    }
}

#[test]
fn query_one() {
    let mut store = three_rows();
    let (f, b) = {
        let q = store.query(&[QueryColumn::Mut(F32), QueryColumn::Mut(STR), QueryColumn::Ref(BOOL)]);
        let row = q.find_one(1).unwrap();
        assert_eq!(f32_of(row[0]), 1.0);
        assert!(q.find_one(9).is_none());
        (666.0f32, bool_of(row[2]).unwrap())
    };
    let columns = [QueryColumn::Mut(F32), QueryColumn::Mut(STR), QueryColumn::Ref(BOOL)];
    assert!(store.find_one_mut(9, &columns, 1).is_none());
    {
        let mut row = store.find_one_mut(1, &columns, 1).unwrap();
        assert_eq!(row.len(), 3);
        assert!(row[2].is_none());
        **row[0].as_mut().unwrap() = Comp::F32(f);
        **row[1].as_mut().unwrap() = Comp::Str(format!("blah {:?} {:?}", f, b));
    }
    assert!(store.get_mut(1, U32, 1).is_none());
    let q = store.query(&[QueryColumn::Ref(F32)]);
    let e = q.find_one(1).unwrap()[0].unwrap();
    assert_eq!(e.changed, 1);
    assert!(!e.added);

    let q = store.query(&[QueryColumn::Ref(F32), QueryColumn::Ref(STR), QueryColumn::Ref(BOOL)]);
    let vs = q
        .iter_mut()
        .into_iter()
        .map(|(id, r)| (id, f32_of(r[0]), str_of(r[1]), bool_of(r[2]).unwrap()))
        .collect::<Vec<_>>();
    assert_eq!(
        vec![
            (0usize, 0.0f32, "zero".to_string(), false,),
            (1, 666.0, "blah 666.0 false".to_string(), false,),
            (2, 2.0, "two".to_string(), false,),
        ],
        vs
    );
}

#[test]
fn sanity_query_iter() {
    let store = three_rows();
    let cols = [QueryColumn::Ref(F32), QueryColumn::Ref(STR), QueryColumn::Ref(BOOL)];
    let mut count = 0;
    for a in 0..store.num_archetypes() {
        let arch = store.archetype(a);
        if let Some(positions) = lock_columns(arch, &cols) {
            assert_eq!(positions, vec![Some(0), Some(1), Some(2)]);
            count += arch.len();
        }
    }
    assert_eq!(3, count);
}

#[test]
fn query_borrows_name_each_column() {
    let b = borrows(&[QueryColumn::Ref(F32), QueryColumn::Mut(STR), QueryColumn::MaybeMut(BOOL), QueryColumn::Without(U32)]);
    assert_eq!(
        b,
        vec![
            Borrow { id: F32, is_exclusive: false },
            Borrow { id: STR, is_exclusive: true },
            Borrow { id: BOOL, is_exclusive: true },
            Borrow { id: U32, is_exclusive: false },
        ]
    );
}

fn mixed() -> AllArchetypes<Comp> {
    let mut components: AllArchetypes<Comp> = AllArchetypes::default();
    components.insert_bundle(0, bundle(&[F32, STR], vec![Comp::F32(0.0), s("zero")]), 0);
    components.insert_bundle(1, bundle(&[F32, STR, BOOL], vec![Comp::F32(1.0), s("one"), Comp::Bool(false)]), 0);
    components.insert_bundle(2, bundle(&[F32, STR], vec![Comp::F32(2.0), s("two")]), 0);
    components
}

#[test]
fn can_query_maybe() {
    let components = mixed();
    let cols = components
        .query(&[QueryColumn::Ref(F32), QueryColumn::MaybeRef(BOOL), QueryColumn::Ref(STR)])
        .iter_mut()
        .into_iter()
        .map(|(_, r)| (f32_of(r[0]), bool_of(r[1]), str_of(r[2])))
        .collect::<Vec<_>>();
    // these appear in order of archetypes added
    assert_eq!(
        vec![(0.0, None, "zero".to_string()), (2.0, None, "two".to_string()), (1.0, Some(false), "one".to_string()),],
        cols
    );
}

#[test]
fn can_query_without() {
    let components = mixed();
    let cols = components
        .query(&[QueryColumn::Ref(F32), QueryColumn::Without(BOOL), QueryColumn::Ref(STR)])
        .iter_mut()
        .into_iter()
        .map(|(_, r)| {
            assert!(r[1].is_none());
            (f32_of(r[0]), (), str_of(r[2]))
        })
        .collect::<Vec<_>>();
    assert_eq!(vec![(0.0, (), "zero".to_string()), (2.0, (), "two".to_string()),], cols);
}

#[test]
fn all_archetypes_send_sync() {
    let _: Box<dyn Send + Sync + 'static> = Box::new(AllArchetypes::<u32>::default());
}

#[test]
fn query_is_bounded_only_with_a_required_column() {
    let all = mixed();
    assert!(all.query(&[QueryColumn::Ref(F32), QueryColumn::Without(BOOL)]).is_bounded());
    assert!(!all.query(&[QueryColumn::MaybeRef(BOOL)]).is_bounded());
    assert!(all.query(&[QueryColumn::MaybeRef(F32)]).is_bounded());
}

#[test]
fn archetype_order_follows_first_insertion() {
    let mut all: AllArchetypes<Comp> = AllArchetypes::default();
    all.insert_component(0, F32, Comp::F32(0.0), 0);
    all.insert_component(1, BOOL, Comp::Bool(true), 0);
    all.insert_component(2, F32, Comp::F32(2.0), 0);
    // entity 0 moves to a new archetype at the end; entity 2 takes its row
    all.insert_component(0, BOOL, Comp::Bool(false), 0);
    assert_eq!(all.num_archetypes(), 3);
    assert_eq!(all.lookup_of(2), Some((0, 0)));
    assert_eq!(all.lookup_of(0), Some((2, 0)));
    assert_eq!(all.archetype(2).type_list().to_vec(), vec![F32, BOOL]);
}

#[test]
fn twelve_tuple_is_a_bundle() {
    let t = (1u8, 2u16, 3u32, 4u64, 5i8, 6i16, 7i32, 8i64, 'i', "j", true, 12usize);
    let (head, tail) = t.uncons().unwrap();
    assert_eq!(head, 1u8);
    let tail = tail.unwrap();
    assert_eq!(tail, (2u16, 3u32, 4u64, 5i8, 6i16, 7i32, 8i64, 'i', "j", true, 12usize));
    assert_eq!(<(u8, u16, u32, u64, i8, i16, i32, i64, char, &str, bool, usize) as IsBundle>::cons(head, tail), t);
}
