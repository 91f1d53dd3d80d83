//! Component queries: which archetypes a query visits and the rows it
//! yields.
use vstd::prelude::*;

use crate::archetype::Archetype;
use crate::components::AllArchetypes;
use crate::entry::Entry;

verus! {

/// How a query uses the column of one component type.
#[derive(Clone, Copy, Debug, PartialEq, Eq, Structural)]
pub enum QueryColumn {
    /// Read the component, which the entity must have.
    Ref(u64),
    /// Write the component, which the entity must have, in a column the
    /// query borrows exclusively: `AllArchetypes::find_one_mut` hands it out
    /// for writing.
    Mut(u64),
    /// Read the component if the entity has it.
    MaybeRef(u64),
    /// Write the component if the entity has it, in a column the query
    /// borrows exclusively: `AllArchetypes::find_one_mut` hands it out for
    /// writing.
    MaybeMut(u64),
    /// The entity must not have the component.
    Without(u64),
}

/// A column that a query borrows, and whether it borrows it exclusively.
#[derive(Clone, Copy, Debug, PartialEq, Eq, Structural)]
pub struct Borrow {
    pub id: u64,
    pub is_exclusive: bool,
}

/// The type key of a query column.
pub open spec fn column_type(col: QueryColumn) -> u64 {
    match col {
        QueryColumn::Ref(t) => t,
        QueryColumn::Mut(t) => t,
        QueryColumn::MaybeRef(t) => t,
        QueryColumn::MaybeMut(t) => t,
        QueryColumn::Without(t) => t,
    }
}

/// The borrow that a query column takes: the optional columns borrow
/// exclusively, and the excluded ones are borrowed for reading.
pub open spec fn column_borrow(col: QueryColumn) -> Borrow {
    match col {
        QueryColumn::Ref(t) => Borrow { id: t, is_exclusive: false },
        QueryColumn::Mut(t) => Borrow { id: t, is_exclusive: true },
        QueryColumn::MaybeRef(t) => Borrow { id: t, is_exclusive: true },
        QueryColumn::MaybeMut(t) => Borrow { id: t, is_exclusive: true },
        QueryColumn::Without(t) => Borrow { id: t, is_exclusive: false },
    }
}

/// Whether a query column hands out its component for writing.
pub open spec fn column_writes(col: QueryColumn) -> bool {
    match col {
        QueryColumn::Mut(_) => true,
        QueryColumn::MaybeMut(_) => true,
        _ => false,
    }
}

/// Whether no two columns of a query write the same type: each written
/// column is borrowed exclusively.
pub open spec fn writes_distinct(columns: Seq<QueryColumn>) -> bool {
    forall|k: int, j: int|
        0 <= k < j < columns.len() && column_writes(#[trigger] columns[k]) && column_writes(#[trigger] columns[j])
            ==> column_type(columns[k]) != column_type(columns[j])
}

/// Whether some column of the query writes type `t`.
pub open spec fn writes_type(columns: Seq<QueryColumn>, t: u64) -> bool {
    exists|k: int| 0 <= k < columns.len() && column_writes(#[trigger] columns[k]) && column_type(columns[k]) == t
}

/// Whether an archetype with the given types is visited by a query: it
/// has every required type and none of the excluded ones.
pub open spec fn query_matches(types: Seq<u64>, columns: Seq<QueryColumn>) -> bool {
    forall|k: int|
        0 <= k < columns.len() ==> match #[trigger] columns[k] {
            QueryColumn::Ref(t) => types.contains(t),
            QueryColumn::Mut(t) => types.contains(t),
            QueryColumn::Without(t) => !types.contains(t),
            _ => true,
        }
}

/// Whether a query column ends when an archetype's rows do: a required
/// column always does, an optional one when the archetype has it, and an
/// excluded one when the archetype has it, so that it yields nothing.
pub open spec fn column_bounded(types: Seq<u64>, col: QueryColumn) -> bool {
    match col {
        QueryColumn::Ref(_) => true,
        QueryColumn::Mut(_) => true,
        QueryColumn::MaybeRef(t) => types.contains(t),
        QueryColumn::MaybeMut(t) => types.contains(t),
        QueryColumn::Without(t) => types.contains(t),
    }
}

/// Whether iterating the query over an archetype with these types ends:
/// some column ends with the archetype's rows.
pub open spec fn query_bounded(types: Seq<u64>, columns: Seq<QueryColumn>) -> bool {
    exists|k: int| 0 <= k < columns.len() && column_bounded(types, #[trigger] columns[k])
}

/// The column position that a query column reads in an archetype with
/// the given types, if it reads one.
pub open spec fn column_position(types: Seq<u64>, col: QueryColumn) -> Option<usize> {
    match col {
        QueryColumn::Without(_) => None,
        _ => if types.contains(column_type(col)) {
            Some(types.index_of(column_type(col)) as usize)
        } else {
            None
        },
    }
}

/// The item of a query column in row `i` of an archetype: the entry it
/// reads, if it reads one.
pub open spec fn row_item<V>(arch: Archetype<V>, col: QueryColumn, i: int) -> Option<Entry<V>> {
    match column_position(arch.types(), col) {
        Some(c) => Some(arch.column(c as int)[i]),
        None => None,
    }
}

/// The row that a query yields for row `i` of an archetype: the entity id
/// and one item per query column.
pub open spec fn query_row<V>(arch: Archetype<V>, columns: Seq<QueryColumn>, i: int) -> (usize, Seq<Option<Entry<V>>>) {
    (arch.ids()[i], Seq::new(columns.len(), |k: int| row_item(arch, columns[k], i)))
}

/// The rows that a query yields for one archetype, in row order.
pub open spec fn archetype_rows<V>(arch: Archetype<V>, columns: Seq<QueryColumn>) -> Seq<(usize, Seq<Option<Entry<V>>>)> {
    if query_matches(arch.types(), columns) {
        Seq::new(arch.ids().len(), |i: int| query_row(arch, columns, i))
    } else {
        Seq::empty()
    }
}

/// The rows that a query yields over the archetypes, archetype by
/// archetype.
pub open spec fn query_result<V>(archs: Seq<Archetype<V>>, columns: Seq<QueryColumn>) -> Seq<(usize, Seq<Option<Entry<V>>>)>
    decreases archs.len(),
{
    if archs.len() == 0 {
        Seq::empty()
    } else {
        query_result(archs.drop_last(), columns) + archetype_rows(archs.last(), columns)
    }
}

/// Whether an item that a query returns is the one the spec describes.
pub open spec fn item_matches<V>(item: Option<&Entry<V>>, spec: Option<Entry<V>>) -> bool {
    match item {
        Some(e) => spec == Some(*e),
        None => spec is None,
    }
}

/// Whether a returned row of items is the one the spec describes.
pub open spec fn row_matches<V>(row: Seq<Option<&Entry<V>>>, spec: Seq<Option<Entry<V>>>) -> bool {
    &&& row.len() == spec.len()
    &&& forall|k: int| 0 <= k < row.len() ==> item_matches(#[trigger] row[k], spec[k])
}

/// The borrows that a query takes, one per column, in column order.
pub fn borrows(columns: &[QueryColumn]) -> (r: Vec<Borrow>)
    ensures
        r@ == columns@.map_values(|c: QueryColumn| column_borrow(c)),
{
    let mut r: Vec<Borrow> = Vec::new();
    let n = columns.len();
    let mut k: usize = 0;
    while k < n
        invariant
            n == columns@.len(),
            k <= n,
            r@ == columns@.take(k as int).map_values(|c: QueryColumn| column_borrow(c)),
        decreases n - k,
    {
        let b = match columns[k] {
            QueryColumn::Ref(t) => Borrow { id: t, is_exclusive: false },
            QueryColumn::Mut(t) => Borrow { id: t, is_exclusive: true },
            QueryColumn::MaybeRef(t) => Borrow { id: t, is_exclusive: true },
            QueryColumn::MaybeMut(t) => Borrow { id: t, is_exclusive: true },
            QueryColumn::Without(t) => Borrow { id: t, is_exclusive: false },
        };
        r.push(b);
        proof {
            assert(columns@.take(k + 1) =~= columns@.take(k as int).push(columns@[k as int]));
        }
        k += 1;
        proof {
            assert(r@ =~= columns@.take(k as int).map_values(|c: QueryColumn| column_borrow(c)));
        }
    }
    proof {
        assert(columns@.take(n as int) =~= columns@);
    }
    r
}

/// The columns of an archetype that a query reads: `None` when the query
/// does not visit the archetype, otherwise the column position each query
/// column reads, if any.
pub fn lock_columns<V>(arch: &Archetype<V>, columns: &[QueryColumn]) -> (r: Option<Vec<Option<usize>>>)
    requires
        arch.wf(),
    ensures
        match r {
            Some(l) => query_matches(arch.types(), columns@) && l@ == columns@.map_values(
                |c: QueryColumn| column_position(arch.types(), c),
            ),
            None => !query_matches(arch.types(), columns@),
        },
{
    proof {
        arch.lemma_types();
    }
    let mut l: Vec<Option<usize>> = Vec::new();
    let n = columns.len();
    let mut k: usize = 0;
    while k < n
        invariant
            arch.wf(),
            n == columns@.len(),
            k <= n,
            l@ == columns@.take(k as int).map_values(|c: QueryColumn| column_position(arch.types(), c)),
            query_matches(arch.types(), columns@.take(k as int)),
        decreases n - k,
    {
        let col = columns[k];
        let p = match col {
            QueryColumn::Ref(t) => {
                let p = arch.index_of(t);
                if p.is_none() {
                    proof {
                        assert(!query_matches(arch.types(), columns@)) by {
                            assert(columns@[k as int] == col);
                        }
                    }
                    return None;
                }
                p
            },
            QueryColumn::Mut(t) => {
                let p = arch.index_of(t);
                if p.is_none() {
                    proof {
                        assert(!query_matches(arch.types(), columns@)) by {
                            assert(columns@[k as int] == col);
                        }
                    }
                    return None;
                }
                p
            },
            QueryColumn::MaybeRef(t) => arch.index_of(t),
            QueryColumn::MaybeMut(t) => arch.index_of(t),
            QueryColumn::Without(t) => {
                if arch.has_component(t) {
                    proof {
                        assert(!query_matches(arch.types(), columns@)) by {
                            assert(columns@[k as int] == col);
                        }
                    }
                    return None;
                }
                None
            },
        };
        proof {
            let ts = arch.types();
            arch.lemma_types();
            match p {
                Some(c) => {
                    crate::bundle::lemma_index_of_ascending(ts, c as int);
                },
                None => {},
            }
            assert(p == column_position(ts, col));
            assert(columns@.take(k + 1) =~= columns@.take(k as int).push(col));
        }
        l.push(p);
        k += 1;
        proof {
            assert(l@ =~= columns@.take(k as int).map_values(|c: QueryColumn| column_position(arch.types(), c)));
            assert forall|j: int| 0 <= j < k implies match #[trigger] columns@.take(k as int)[j] {
                QueryColumn::Ref(t) => arch.types().contains(t),
                QueryColumn::Mut(t) => arch.types().contains(t),
                QueryColumn::Without(t) => !arch.types().contains(t),
                _ => true,
            } by {
                if j < k - 1 {
                    assert(columns@.take(k as int)[j] == columns@.take(k - 1)[j]);
                }
            }
        }
    }
    proof {
        assert(columns@.take(n as int) =~= columns@);
    }
    Some(l)
}


/// Whether the returned rows are the ones the spec describes, in order.
pub open spec fn rows_match<V>(rows: Seq<(usize, Vec<Option<&Entry<V>>>)>, spec: Seq<(usize, Seq<Option<Entry<V>>>)>) -> bool {
    &&& rows.len() == spec.len()
    &&& forall|n: int| 0 <= n < rows.len() ==> (#[trigger] rows[n]).0 == spec[n].0 && row_matches(rows[n].1@, spec[n].1)
}

/// Whether an entity with these components is visited by a query.
pub open spec fn components_match<V>(m: Map<u64, Entry<V>>, columns: Seq<QueryColumn>) -> bool {
    forall|k: int|
        0 <= k < columns.len() ==> match #[trigger] columns[k] {
            QueryColumn::Ref(t) => m.contains_key(t),
            QueryColumn::Mut(t) => m.contains_key(t),
            QueryColumn::Without(t) => !m.contains_key(t),
            _ => true,
        }
}

/// The item of a query column for an entity with these components.
pub open spec fn component_item<V>(m: Map<u64, Entry<V>>, col: QueryColumn) -> Option<Entry<V>> {
    match col {
        QueryColumn::Without(_) => None,
        _ => if m.contains_key(column_type(col)) {
            Some(m[column_type(col)])
        } else {
            None
        },
    }
}

/// The items of a query for an entity with these components.
pub open spec fn components_row<V>(m: Map<u64, Entry<V>>, columns: Seq<QueryColumn>) -> Seq<Option<Entry<V>>> {
    Seq::new(columns.len(), |k: int| component_item(m, columns[k]))
}

/// For a row of a well formed archetype, the query's view of the row's
/// components agrees with its view of the archetype's columns.
pub proof fn lemma_row_components<V>(arch: Archetype<V>, columns: Seq<QueryColumn>, i: int)
    requires
        arch.wf(),
        0 <= i < arch.ids().len(),
    ensures
        components_match(arch.row(i), columns) == query_matches(arch.types(), columns),
        components_row(arch.row(i), columns) == query_row(arch, columns, i).1,
{
    arch.lemma_types();
    let ts = arch.types();
    let m = arch.row(i);
    assert forall|t: u64| #[trigger] m.contains_key(t) == ts.contains(t) by {
    }
    assert forall|k: int| 0 <= k < columns.len() implies #[trigger] component_item(m, columns[k]) == row_item(arch, columns[k], i) by {
        let t = column_type(columns[k]);
        if ts.contains(t) {
            let c = ts.index_of(t);
            crate::bundle::lemma_index_of_ascending(ts, c);
        }
    }
    assert(components_row(m, columns) =~= query_row(arch, columns, i).1);
}

/// Whether iterating the query over one entity with these components ends.
pub open spec fn components_bounded<V>(m: Map<u64, Entry<V>>, columns: Seq<QueryColumn>) -> bool {
    exists|k: int| 0 <= k < columns.len() && #[trigger] column_ends(m, columns[k])
}

/// Whether a query column ends with the row of an entity with these
/// components.
pub open spec fn column_ends<V>(m: Map<u64, Entry<V>>, col: QueryColumn) -> bool {
    match col {
        QueryColumn::Ref(_) => true,
        QueryColumn::Mut(_) => true,
        QueryColumn::MaybeRef(t) => m.contains_key(t),
        QueryColumn::MaybeMut(t) => m.contains_key(t),
        QueryColumn::Without(t) => m.contains_key(t),
    }
}

/// Whether a query row is the row `i` of one of the first `k` archetypes,
/// one that the query visits.
spec fn row_from<V>(row: (usize, Seq<Option<Entry<V>>>), archs: Seq<Archetype<V>>, columns: Seq<QueryColumn>, k: int) -> bool {
    exists|a: int, i: int|
        0 <= a < k && 0 <= i < archs[a].ids().len() && query_matches(archs[a].types(), columns) && row
            === #[trigger] query_row(archs[a], columns, i)
}

/// Whether some row has the id.
spec fn yields_id<V>(rows: Seq<(usize, Seq<Option<Entry<V>>>)>, id: usize) -> bool {
    exists|n: int| 0 <= n < rows.len() && (#[trigger] rows[n]).0 == id
}

/// The rows that a query yields over the first `k` archetypes come from
/// visited archetypes among them, each visited row once, with distinct ids.
spec fn prefix_rows_ok<V>(c: AllArchetypes<V>, columns: Seq<QueryColumn>, k: int) -> bool {
    let archs = c.archs();
    let qr = query_result(archs.take(k), columns);
    &&& forall|n: int| 0 <= n < qr.len() ==> #[trigger] row_from(qr[n], archs, columns, k)
    &&& forall|a: int, i: int|
        0 <= a < k && 0 <= i < archs[a].ids().len() && query_matches(archs[a].types(), columns) ==> #[trigger] yields_id(
            qr,
            archs[a].ids()[i],
        )
    &&& forall|n: int, m: int| 0 <= n < qr.len() && 0 <= m < qr.len() && n != m ==> (#[trigger] qr[n]).0 != (#[trigger] qr[m]).0
}

proof fn lemma_query_prefix<V>(c: AllArchetypes<V>, columns: Seq<QueryColumn>, k: int)
    requires
        c.wf(),
        0 <= k <= c.archs().len(),
    ensures
        prefix_rows_ok(c, columns, k),
    decreases k,
{
    let archs = c.archs();
    c.lemma_rows();
    if k == 0 {
        assert(archs.take(0) =~= Seq::<Archetype<V>>::empty());
        assert(query_result(archs.take(0), columns).len() == 0);
        assert(prefix_rows_ok(c, columns, k));
    } else {
        lemma_query_prefix(c, columns, k - 1);
        let prev = query_result(archs.take(k - 1), columns);
        let here = archetype_rows(archs[k - 1], columns);
        assert(archs.take(k).drop_last() =~= archs.take(k - 1));
        assert(archs.take(k).last() == archs[k - 1]);
        let qr = query_result(archs.take(k), columns);
        assert(qr =~= prev + here);
        assert forall|n: int| 0 <= n < qr.len() implies #[trigger] row_from(qr[n], archs, columns, k) by {
            if n < prev.len() {
                assert(qr[n] == prev[n]);
                assert(row_from(prev[n], archs, columns, k - 1));
                let (a, i) = choose|a: int, i: int|
                    0 <= a < k - 1 && 0 <= i < archs[a].ids().len() && query_matches(archs[a].types(), columns) && prev[n]
                        === #[trigger] query_row(archs[a], columns, i);
                assert(qr[n] === query_row(archs[a], columns, i));
            } else {
                assert(qr[n] == here[n - prev.len()]);
                assert(qr[n] === query_row(archs[k - 1], columns, n - prev.len()));
            }
        }
        assert forall|a: int, i: int|
            0 <= a < k && 0 <= i < archs[a].ids().len() && query_matches(archs[a].types(), columns) implies #[trigger] yields_id(
            qr,
            archs[a].ids()[i],
        ) by {
            if a < k - 1 {
                assert(yields_id(prev, archs[a].ids()[i]));
                let n = choose|n: int| 0 <= n < prev.len() && (#[trigger] prev[n]).0 == archs[a].ids()[i];
                assert(qr[n] == prev[n]);
            } else {
                assert(qr[prev.len() + i] == here[i]);
            }
        }
        assert forall|n: int, m: int| 0 <= n < qr.len() && 0 <= m < qr.len() && n != m implies (#[trigger] qr[n]).0 != (#[trigger] qr[m]).0 by {
            let row_of = |x: int|
                if x < prev.len() {
                    choose|a: int, i: int|
                        0 <= a < k - 1 && 0 <= i < archs[a].ids().len() && query_matches(archs[a].types(), columns) && prev[x]
                            === #[trigger] query_row(archs[a], columns, i)
                } else {
                    (k - 1, x - prev.len())
                };
            if n < prev.len() {
                assert(row_from(prev[n], archs, columns, k - 1));
            }
            if m < prev.len() {
                assert(row_from(prev[m], archs, columns, k - 1));
            }
            if n < prev.len() && m < prev.len() {
                assert(qr[n] == prev[n] && qr[m] == prev[m]);
            } else {
                let (a, i) = row_of(n);
                let (b, j) = row_of(m);
                if n < prev.len() {
                    assert(qr[n] == prev[n]);
                } else {
                    assert(qr[n] == here[n - prev.len()]);
                }
                if m < prev.len() {
                    assert(qr[m] == prev[m]);
                } else {
                    assert(qr[m] == here[m - prev.len()]);
                }
                assert(qr[n].0 == archs[a].ids()[i]);
                assert(qr[m].0 == archs[b].ids()[j]);
            }
        }
        assert(prefix_rows_ok(c, columns, k));
    }
}

/// A query yields each stored entity that it visits exactly once, with
/// the items of its components, and nothing else.
pub proof fn law_query_visits_matching<V>(c: AllArchetypes<V>, columns: Seq<QueryColumn>)
    requires
        c.wf(),
    ensures
        ({
            let qr = query_result(c.archs(), columns);
            &&& forall|n: int|
                0 <= n < qr.len() ==> {
                    &&& c@.contains_key((#[trigger] qr[n]).0)
                    &&& components_match(c@[qr[n].0], columns)
                    &&& qr[n].1 == components_row(c@[qr[n].0], columns)
                }
            &&& forall|e: usize| #[trigger] c@.contains_key(e) && components_match(c@[e], columns) ==> exists|n: int|
                0 <= n < qr.len() && (#[trigger] qr[n]).0 == e
            &&& forall|n: int, m: int| 0 <= n < qr.len() && 0 <= m < qr.len() && n != m ==> (#[trigger] qr[n]).0 != (#[trigger] qr[m]).0
        }),
{
    let archs = c.archs();
    lemma_query_prefix(c, columns, archs.len() as int);
    assert(archs.take(archs.len() as int) =~= archs);
    c.lemma_rows();
    let qr = query_result(archs, columns);
    assert forall|n: int| 0 <= n < qr.len() implies {
        &&& c@.contains_key((#[trigger] qr[n]).0)
        &&& components_match(c@[qr[n].0], columns)
        &&& qr[n].1 == components_row(c@[qr[n].0], columns)
    } by {
        assert(row_from(qr[n], archs, columns, archs.len() as int));
        let (a, i) = choose|a: int, i: int|
            0 <= a < archs.len() && 0 <= i < archs[a].ids().len() && query_matches(archs[a].types(), columns) && qr[n]
                === #[trigger] query_row(archs[a], columns, i);
        lemma_row_components(archs[a], columns, i);
        assert(qr[n].0 == archs[a].ids()[i]);
    }
    assert forall|e: usize| #[trigger] c@.contains_key(e) && components_match(c@[e], columns) implies exists|n: int|
        0 <= n < qr.len() && (#[trigger] qr[n]).0 == e by {
        let (a, i) = choose|a: int, i: int| 0 <= a < archs.len() && 0 <= i < archs[a].ids().len() && #[trigger] archs[a].ids()[i] == e;
        lemma_row_components(archs[a], columns, i);
        assert(yields_id(qr, archs[a].ids()[i]));
    }
}

/// A query prepared over the component storage: the columns it reads in
/// each archetype.
pub struct QueryGuard<'a, V> {
    locks: Vec<Option<Vec<Option<usize>>>>,
    columns: Vec<QueryColumn>,
    components: &'a AllArchetypes<V>,
}

impl<'a, V> QueryGuard<'a, V> {
    /// The columns of the query.
    pub closed spec fn columns(&self) -> Seq<QueryColumn> {
        self.columns@
    }

    /// The storage the query reads.
    pub closed spec fn storage(&self) -> AllArchetypes<V> {
        *self.components
    }

    /// The storage is well formed and each archetype's lock is the one
    /// `lock_columns` gives it.
    pub closed spec fn wf(&self) -> bool {
        &&& self.components.wf()
        &&& self.locks@.len() == self.components.archs().len()
        &&& forall|a: int|
            0 <= a < self.locks@.len() ==> match #[trigger] self.locks@[a] {
                Some(l) => query_matches(self.components.archs()[a].types(), self.columns@) && l@ == self.columns@.map_values(
                    |c: QueryColumn| column_position(self.components.archs()[a].types(), c),
                ),
                None => !query_matches(self.components.archs()[a].types(), self.columns@),
            }
    }

    /// Whether iterating the query ends: it does on every archetype that it
    /// visits.
    pub open spec fn bounded(&self) -> bool {
        forall|a: int|
            0 <= a < self.storage().archs().len() && query_matches(#[trigger] self.storage().archs()[a].types(), self.columns())
                ==> query_bounded(self.storage().archs()[a].types(), self.columns())
    }

    /// Whether iterating the query ends, as `bounded` says.
    pub fn is_bounded(&self) -> (b: bool)
        requires
            self.wf(),
        ensures
            b == self.bounded(),
    {
        let comps: &'a AllArchetypes<V> = self.components;
        let na = comps.num_archetypes();
        let nk = self.columns.len();
        let mut a: usize = 0;
        while a < na
            invariant
                self.wf(),
                comps == self.components,
                na == self.storage().archs().len(),
                nk == self.columns@.len(),
                a <= na,
                forall|j: int|
                    0 <= j < a && query_matches(#[trigger] self.storage().archs()[j].types(), self.columns())
                        ==> query_bounded(self.storage().archs()[j].types(), self.columns()),
            decreases na - a,
        {
            let ghost ts = self.storage().archs()[a as int].types();
            if self.locks[a].is_some() {
                proof {
                    comps.lemma_view();
                }
                let arch = comps.archetype(a);
                let mut found = false;
                let mut k: usize = 0;
                while k < nk
                    invariant
                        nk == self.columns@.len(),
                        k <= nk,
                        *arch == self.storage().archs()[a as int],
                        ts == arch.types(),
                        arch.wf(),
                        found == exists|m: int| 0 <= m < k && column_bounded(ts, #[trigger] self.columns@[m]),
                    decreases nk - k,
                {
                    let here = match self.columns[k] {
                        QueryColumn::Ref(_) => true,
                        QueryColumn::Mut(_) => true,
                        QueryColumn::MaybeRef(t) => arch.has_component(t),
                        QueryColumn::MaybeMut(t) => arch.has_component(t),
                        QueryColumn::Without(t) => arch.has_component(t),
                    };
                    proof {
                        assert(here == column_bounded(ts, self.columns@[k as int]));
                        if here {
                            assert(column_bounded(ts, self.columns@[k as int]));
                        }
                    }
                    found = found || here;
                    k += 1;
                }
                if !found {
                    proof {
                        assert(query_matches(ts, self.columns()));
                    }
                    return false;
                }
            }
            a += 1;
        }
        true
    }

    /// The rows of one archetype's locked columns.
    fn archetype_rows(arch: &'a Archetype<V>, l: &Vec<Option<usize>>, Ghost(columns): Ghost<Seq<QueryColumn>>) -> (r: Vec<(usize, Vec<Option<&'a Entry<V>>>)>)
        requires
            arch.wf(),
            query_matches(arch.types(), columns),
            l@ == columns.map_values(|c: QueryColumn| column_position(arch.types(), c)),
        ensures
            rows_match(r@, archetype_rows(*arch, columns)),
    {
        let mut r: Vec<(usize, Vec<Option<&'a Entry<V>>>)> = Vec::new();
        let m = arch.len();
        let nk = l.len();
        let mut i: usize = 0;
        while i < m
            invariant
                arch.wf(),
                m == arch.ids().len(),
                nk == l@.len(),
                l@ == columns.map_values(|c: QueryColumn| column_position(arch.types(), c)),
                query_matches(arch.types(), columns),
                i <= m,
                rows_match(r@, archetype_rows(*arch, columns).take(i as int)),
            decreases m - i,
        {
            let mut row: Vec<Option<&'a Entry<V>>> = Vec::new();
            let mut k: usize = 0;
            while k < nk
                invariant
                    arch.wf(),
                    i < m,
                    m == arch.ids().len(),
                    nk == l@.len(),
                    l@ == columns.map_values(|c: QueryColumn| column_position(arch.types(), c)),
                    k <= nk,
                    row@.len() == k,
                    forall|j: int| 0 <= j < k ==> item_matches(#[trigger] row@[j], row_item(*arch, columns[j], i as int)),
                decreases nk - k,
            {
                match l[k] {
                    Some(c) => {
                        proof {
                            assert(l@[k as int] == column_position(arch.types(), columns[k as int]));
                        }
                        row.push(Some(arch.entry_at(c, i)));
                    },
                    None => {
                        row.push(None);
                    },
                }
                k += 1;
            }
            let id = arch.id_at(i);
            r.push((id, row));
            proof {
                let spec = archetype_rows(*arch, columns);
                assert(spec[i as int] == query_row(*arch, columns, i as int));
                assert(row_matches(row@, spec[i as int].1));
                assert(archetype_rows(*arch, columns).take(i + 1) =~= archetype_rows(*arch, columns).take(i as int).push(spec[i as int]));
            }
            i += 1;
        }
        proof {
            assert(archetype_rows(*arch, columns).take(m as int) =~= archetype_rows(*arch, columns));
        }
        r
    }

    /// The items of the query for entity `entity_id`, when the query visits
    /// it: one per query column, the entry it reads, or `None` for an
    /// optional column that is missing and for an excluded one. The entries
    /// are shared references; `AllArchetypes::find_one_mut` hands out the
    /// written columns of a row for writing.
    pub fn find_one(&self, entity_id: usize) -> (r: Option<Vec<Option<&'a Entry<V>>>>)
        requires
            self.wf(),
            self.storage()@.contains_key(entity_id) && components_match(self.storage()@[entity_id], self.columns())
                ==> components_bounded(self.storage()@[entity_id], self.columns()),
        ensures
            match r {
                Some(row) => {
                    &&& self.storage()@.contains_key(entity_id)
                    &&& components_match(self.storage()@[entity_id], self.columns())
                    &&& row_matches(row@, components_row(self.storage()@[entity_id], self.columns()))
                },
                None => !(self.storage()@.contains_key(entity_id) && components_match(
                    self.storage()@[entity_id],
                    self.columns(),
                )),
            },
    {
        let comps: &'a AllArchetypes<V> = self.components;
        proof {
            comps.lemma_view();
        }
        match comps.lookup_of(entity_id) {
            Some((a, i)) => {
                proof {
                    comps.lemma_lookup(entity_id as int);
                    lemma_row_components(comps.archs()[a as int], self.columns@, i as int);
                }
                match &self.locks[a] {
                    Some(l) => {
                        let arch = comps.archetype(a);
                        let nk = l.len();
                        let mut row: Vec<Option<&'a Entry<V>>> = Vec::new();
                        let mut k: usize = 0;
                        while k < nk
                            invariant
                                arch.wf(),
                                i < arch.ids().len(),
                                nk == l@.len(),
                                l@ == self.columns@.map_values(|c: QueryColumn| column_position(arch.types(), c)),
                                k <= nk,
                                row@.len() == k,
                                forall|j: int| 0 <= j < k ==> item_matches(#[trigger] row@[j], row_item(*arch, self.columns@[j], i as int)),
                            decreases nk - k,
                        {
                            match l[k] {
                                Some(c) => {
                                    proof {
                                        assert(l@[k as int] == column_position(arch.types(), self.columns@[k as int]));
                                    }
                                    row.push(Some(arch.entry_at(c, i)));
                                },
                                None => {
                                    row.push(None);
                                },
                            }
                            k += 1;
                        }
                        Some(row)
                    },
                    None => None,
                }
            },
            None => None,
        }
    }

    /// The rows the query yields, archetype by archetype, each with its
    /// entity id and one item per query column: the entry it reads, or
    /// `None` for an optional column that is missing and for an excluded
    /// one. The entries are shared references; `AllArchetypes::find_one_mut`
    /// hands out the written columns of a row for writing.
    pub fn iter_mut(&self) -> (r: Vec<(usize, Vec<Option<&'a Entry<V>>>)>)
        requires
            self.wf(),
            self.bounded(),
        ensures
            rows_match(r@, query_result(self.storage().archs(), self.columns())),
    {
        let comps: &'a AllArchetypes<V> = self.components;
        let ghost archs = comps.archs();
        let ghost columns = self.columns@;
        proof {
            comps.lemma_view();
        }
        let na = comps.num_archetypes();
        let mut r: Vec<(usize, Vec<Option<&'a Entry<V>>>)> = Vec::new();
        let mut a: usize = 0;
        while a < na
            invariant
                self.wf(),
                comps == self.components,
                archs == comps.archs(),
                columns == self.columns@,
                na == archs.len(),
                a <= na,
                forall|j: int| 0 <= j < archs.len() ==> (#[trigger] archs[j]).wf(),
                rows_match(r@, query_result(archs.take(a as int), columns)),
            decreases na - a,
        {
            let ghost before = r@;
            proof {
                assert(archs.take(a + 1).drop_last() =~= archs.take(a as int));
                assert(archs.take(a + 1).last() == archs[a as int]);
            }
            match &self.locks[a] {
                Some(l) => {
                    let arch = comps.archetype(a);
                    let mut rows = Self::archetype_rows(arch, l, Ghost(columns));
                    let ghost rs = rows@;
                    r.append(&mut rows);
                    proof {
                        let spec = query_result(archs.take(a + 1), columns);
                        let prev = query_result(archs.take(a as int), columns);
                        let here = archetype_rows(archs[a as int], columns);
                        assert(spec =~= prev + here);
                        assert forall|n: int| 0 <= n < r@.len() implies (#[trigger] r@[n]).0 == spec[n].0 && row_matches(r@[n].1@, spec[n].1) by {
                            if n < prev.len() {
                                assert(r@[n] == before[n]);
                            } else {
                                assert(r@[n] == rs[n - prev.len()]);
                            }
                        }
                    }
                },
                None => {
                    proof {
                        let spec = query_result(archs.take(a + 1), columns);
                        assert(spec =~= query_result(archs.take(a as int), columns));
                    }
                },
            }
            a += 1;
        }
        proof {
            assert(archs.take(na as int) =~= archs);
        }
        r
    }
}

impl<V> AllArchetypes<V> {
    /// Prepare a query with the given columns.
    pub fn query(&self, columns: &[QueryColumn]) -> (q: QueryGuard<'_, V>)
        requires
            self.wf(),
        ensures
            q.wf(),
            q.storage() == *self,
            q.columns() == columns@,
    {
        proof {
            self.lemma_view();
        }
        let na = self.num_archetypes();
        let mut locks: Vec<Option<Vec<Option<usize>>>> = Vec::new();
        let mut a: usize = 0;
        while a < na
            invariant
                self.wf(),
                na == self.archs().len(),
                a <= na,
                locks@.len() == a,
                forall|j: int| 0 <= j < self.archs().len() ==> (#[trigger] self.archs()[j]).wf(),
                forall|j: int|
                    0 <= j < a ==> match #[trigger] locks@[j] {
                        Some(l) => query_matches(self.archs()[j].types(), columns@) && l@ == columns@.map_values(
                            |c: QueryColumn| column_position(self.archs()[j].types(), c),
                        ),
                        None => !query_matches(self.archs()[j].types(), columns@),
                    },
            decreases na - a,
        {
            let l = lock_columns(self.archetype(a), columns);
            locks.push(l);
            a += 1;
        }
        let mut cols: Vec<QueryColumn> = Vec::new();
        let n = columns.len();
        let mut k: usize = 0;
        while k < n
            invariant
                n == columns@.len(),
                k <= n,
                cols@ == columns@.take(k as int),
            decreases n - k,
        {
            cols.push(columns[k]);
            k += 1;
            proof {
                assert(cols@ =~= columns@.take(k as int));
            }
        }
        proof {
            assert(cols@ =~= columns@);
        }
        QueryGuard { locks, columns: cols, components: self }
    }
}

} // verus!
