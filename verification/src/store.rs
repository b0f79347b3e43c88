//! The graph store: work items and their dependency edges.
//!
//! An item may declare a dependency only on an id already present, so every
//! edge points at an earlier insertion and cycles are structurally
//! impossible. The store is the single mutable structure; one run of the
//! executor treats it as read-only apart from status and level updates.

use vstd::prelude::*;

verus! {

/// Lifecycle state of a work item. An item is created `Pending`, moves to
/// `Running` exactly once when dispatched, and ends in exactly one of
/// `Succeeded`, `Failed` or `Skipped`; it is never mutated afterwards.
#[derive(Clone, Copy, Debug, PartialEq, Eq, Structural)]
pub enum Status {
    Pending,
    Running,
    Succeeded,
    Failed,
    Skipped,
}

/// Why an insertion was refused. The store is left unchanged in either case.
#[derive(Clone, Copy, Debug, PartialEq, Eq, Structural)]
pub enum AddError {
    /// The id is already present in the store.
    DuplicateId,
    /// Some declared dependency id is not present in the store.
    UnknownDependency,
}

/// A unit of work: a stable id, an opaque payload, the ids it must run
/// after, its lifecycle status, and its level once planning has run.
pub struct WorkItem<P> {
    pub id: u64,
    pub payload: P,
    pub dependencies: Vec<u64>,
    pub status: Status,
    /// Level of the item, `None` until a run assigns it. Levels start at 1.
    pub level: Option<usize>,
}

/// Mathematical model of a store: the item table and, for each item, the
/// positions of its dependencies in that table.
pub struct StoreModel<P> {
    pub items: Seq<WorkItem<P>>,
    pub edges: Seq<Seq<usize>>,
}

/// Well-formedness: edges mirror the dependency ids one for one, every edge
/// points strictly backwards (insertion-order acyclicity), and ids are
/// unique.
pub open spec fn store_wf<P>(m: StoreModel<P>) -> bool {
    &&& m.edges.len() == m.items.len()
    &&& (forall|i: int|
        0 <= i < m.items.len() ==> (#[trigger] m.edges[i].len()) == m.items[i].dependencies@.len())
    &&& (forall|i: int, k: int|
        0 <= i < m.items.len() && 0 <= k < m.edges[i].len() ==> {
            &&& (#[trigger] m.edges[i][k]) < i
            &&& m.items[m.edges[i][k] as int].id == m.items[i].dependencies@[k]
        })
    &&& (forall|i: int, j: int|
        #![trigger m.items[i].id, m.items[j].id]
        0 <= i < m.items.len() && 0 <= j < m.items.len() && i != j ==> m.items[i].id
            != m.items[j].id)
}

/// Some item of the model carries this id.
pub open spec fn has_id<P>(m: StoreModel<P>, id: u64) -> bool {
    exists|j: int| 0 <= j < m.items.len() && m.items[j].id == id
}

/// The position of the item with this id; meaningful only when `has_id`
/// holds, and then unique because ids are unique.
pub open spec fn spec_index_of<P>(m: StoreModel<P>, id: u64) -> int {
    choose|j: int| 0 <= j < m.items.len() && m.items[j].id == id
}

/// Every id of `deps` names an item of the model.
pub open spec fn all_deps_present<P>(m: StoreModel<P>, deps: Seq<u64>) -> bool {
    forall|k: int| 0 <= k < deps.len() ==> has_id(m, #[trigger] deps[k])
}

/// The edge row for a new item with these dependency ids.
pub open spec fn resolved_edges<P>(m: StoreModel<P>, deps: Seq<u64>) -> Seq<usize> {
    Seq::new(deps.len(), |k: int| spec_index_of(m, deps[k]) as usize)
}

/// The model of an empty store.
pub open spec fn empty_store_model<P>() -> StoreModel<P> {
    StoreModel { items: Seq::empty(), edges: Seq::empty() }
}

/// What one `add` call does to the model: nothing on a refused insertion,
/// otherwise a new pending item with its resolved edge row.
pub open spec fn apply_add<P>(
    m: StoreModel<P>,
    id: u64,
    payload: P,
    dependencies: Vec<u64>,
) -> StoreModel<P> {
    if has_id(m, id) || !all_deps_present(m, dependencies@) {
        m
    } else {
        StoreModel {
            items: m.items.push(
                WorkItem { id, payload, dependencies, status: Status::Pending, level: None },
            ),
            edges: m.edges.push(resolved_edges(m, dependencies@)),
        }
    }
}

/// One recorded insertion, as a producer would issue it.
pub struct AddCall<P> {
    pub id: u64,
    pub payload: P,
    pub dependencies: Vec<u64>,
}

/// The model reached by applying the calls in order, starting from `m`.
pub open spec fn replay_from<P>(m: StoreModel<P>, calls: Seq<AddCall<P>>) -> StoreModel<P>
    decreases calls.len(),
{
    if calls.len() == 0 {
        m
    } else {
        replay_from(
            apply_add(m, calls[0].id, calls[0].payload, calls[0].dependencies),
            calls.drop_first(),
        )
    }
}

/// The model reached by applying the calls in order to an empty store.
pub open spec fn replay<P>(calls: Seq<AddCall<P>>) -> StoreModel<P> {
    replay_from(empty_store_model(), calls)
}

/// Holds work items in insertion order; `edges[i]` lists, for each declared
/// dependency of item `i`, the position of that dependency in the table.
pub struct GraphStore<P> {
    items: Vec<WorkItem<P>>,
    edges: Vec<Vec<usize>>,
}

impl<P> View for GraphStore<P> {
    type V = StoreModel<P>;

    closed spec fn view(&self) -> StoreModel<P> {
        StoreModel { items: self.items@, edges: self.edges@.map_values(|e: Vec<usize>| e@) }
    }
}

impl<P> GraphStore<P> {
    pub open spec fn wf(&self) -> bool {
        store_wf(self@)
    }

    /// A store with no items.
    pub fn new() -> (s: Self)
        ensures
            s@ == empty_store_model::<P>(),
            s.wf(),
    {
        let s = GraphStore { items: Vec::new(), edges: Vec::new() };
        proof {
            assert(s@.items =~= empty_store_model::<P>().items);
            assert(s@.edges =~= empty_store_model::<P>().edges);
            assert(s@ == empty_store_model::<P>());
        }
        s
    }

    /// Number of items held.
    pub fn len(&self) -> (n: usize)
        ensures
            n == self@.items.len(),
    {
        self.items.len()
    }

    /// Whether an item with this id is present.
    pub fn contains(&self, id: u64) -> (r: bool)
        ensures
            r == has_id(self@, id),
    {
        let n = self.items.len();
        let mut i: usize = 0;
        while i < n
            invariant
                0 <= i <= n,
                n == self@.items.len(),
                forall|j: int| 0 <= j < i ==> self@.items[j].id != id,
            decreases n - i,
        {
            if self.items[i].id == id {
                return true;
            }
            i += 1;
        }
        false
    }

    /// Position of the item with this id, if present.
    fn index_of(&self, id: u64) -> (r: Option<usize>)
        ensures
            (r is Some) == has_id(self@, id),
            r matches Some(j) ==> 0 <= j < self@.items.len() && self@.items[j as int].id == id,
    {
        let n = self.items.len();
        let mut i: usize = 0;
        while i < n
            invariant
                0 <= i <= n,
                n == self@.items.len(),
                forall|j: int| 0 <= j < i ==> self@.items[j].id != id,
            decreases n - i,
        {
            if self.items[i].id == id {
                return Some(i);
            }
            i += 1;
        }
        None
    }

    /// The item with this id, if present. Its fields pin it: with unique ids
    /// there is exactly one such item.
    pub fn get(&self, id: u64) -> (r: Option<&WorkItem<P>>)
        requires
            self.wf(),
        ensures
            (r is Some) == has_id(self@, id),
            r matches Some(it) ==> {
                &&& 0 <= spec_index_of(self@, id) < self@.items.len()
                &&& *it == self@.items[spec_index_of(self@, id)]
                &&& it.id == id
            },
    {
        match self.index_of(id) {
            Some(i) => {
                proof {
                    assert(has_id(self@, id));
                    let c = spec_index_of(self@, id);
                    assert(0 <= c < self@.items.len() && self@.items[c].id == id);
                    if c != i as int {
                        assert(self@.items[c].id != self@.items[i as int].id);
                    }
                }
                Some(&self.items[i])
            },
            None => None,
        }
    }

    /// The full item table: every item together with its dependency ids, in
    /// insertion order. Read-only.
    pub fn snapshot(&self) -> (r: &Vec<WorkItem<P>>)
        ensures
            r@ == self@.items,
    {
        &self.items
    }

    /// The item at a position of the table.
    pub fn item_at(&self, i: usize) -> (r: &WorkItem<P>)
        requires
            i < self@.items.len(),
        ensures
            *r == self@.items[i as int],
    {
        &self.items[i]
    }

    /// How many dependencies item `i` declares.
    pub fn dep_count(&self, i: usize) -> (n: usize)
        requires
            self.wf(),
            i < self@.items.len(),
        ensures
            n == self@.edges[i as int].len(),
    {
        self.edges[i].len()
    }

    /// The position of the `k`-th dependency of item `i`; always an earlier
    /// position.
    pub fn dep_index(&self, i: usize, k: usize) -> (d: usize)
        requires
            self.wf(),
            i < self@.items.len(),
            k < self@.edges[i as int].len(),
        ensures
            d == self@.edges[i as int][k as int],
            d < i,
    {
        self.edges[i][k]
    }

    /// The status of the item at a position.
    pub fn status_at(&self, i: usize) -> (st: Status)
        requires
            i < self@.items.len(),
        ensures
            st == self@.items[i as int].status,
    {
        self.items[i].status
    }

    /// Record the settlement state of the item at a position: its status and
    /// its level. Everything else about the item, and every other item, is
    /// untouched.
    pub(crate) fn set_state(&mut self, i: usize, st: Status, lev: usize)
        requires
            i < old(self)@.items.len(),
        ensures
            final(self)@.items == old(self)@.items.update(
                i as int,
                (WorkItem { status: st, level: Some(lev), ..old(self)@.items[i as int] }),
            ),
            final(self)@.edges == old(self)@.edges,
            old(self).wf() ==> final(self).wf(),
    {
        let it = &mut self.items[i];
        it.status = st;
        it.level = Some(lev);
        proof {
            assert(final(self)@.edges =~= old(self)@.edges);
            if old(self).wf() {
                assert(store_wf(final(self)@));
            }
        }
    }

    /// Insert an item. Refused with `DuplicateId` when the id is already
    /// present and with `UnknownDependency` when some dependency id is not;
    /// in both cases the store is unchanged. On success the item is appended
    /// with status `Pending` and no level.
    pub fn add(&mut self, id: u64, payload: P, dependencies: Vec<u64>) -> (r: Result<
        (),
        AddError,
    >)
        requires
            old(self).wf(),
        ensures
            final(self).wf(),
            final(self)@ == apply_add(old(self)@, id, payload, dependencies),
            (r is Ok) <==> (!has_id(old(self)@, id) && all_deps_present(
                old(self)@,
                dependencies@,
            )),
            (r == Err::<(), AddError>(AddError::DuplicateId)) <==> has_id(old(self)@, id),
            (r == Err::<(), AddError>(AddError::UnknownDependency)) <==> (!has_id(old(self)@, id)
                && !all_deps_present(old(self)@, dependencies@)),
            r is Err ==> final(self)@ == old(self)@,
            r is Ok ==> final(self)@.items == old(self)@.items.push(
                (WorkItem { id, payload, dependencies, status: Status::Pending, level: None }),
            ),
    {
        if self.contains(id) {
            return Err(AddError::DuplicateId);
        }
        let mut edge: Vec<usize> = Vec::new();
        let mut k: usize = 0;
        let dn = dependencies.len();
        while k < dn
            invariant
                self.wf(),
                self@ == old(self)@,
                0 <= k <= dn,
                dn == dependencies@.len(),
                edge@.len() == k,
                !has_id(self@, id),
                forall|t: int|
                    0 <= t < k ==> {
                        &&& 0 <= (#[trigger] edge@[t]) < self@.items.len()
                        &&& self@.items[edge@[t] as int].id == dependencies@[t]
                        &&& has_id(self@, dependencies@[t])
                    },
            decreases dn - k,
        {
            match self.index_of(dependencies[k]) {
                Some(j) => {
                    edge.push(j);
                },
                None => {
                    proof {
                        assert(!has_id(self@, dependencies@[k as int]));
                    }
                    return Err(AddError::UnknownDependency);
                },
            }
            k += 1;
        }
        proof {
            assert forall|t: int| 0 <= t < dependencies@.len() implies has_id(
                self@,
                #[trigger] dependencies@[t],
            ) by {
                assert(0 <= (edge@[t]) < self@.items.len() && self@.items[edge@[t] as int].id
                    == dependencies@[t]);
            }
            assert(all_deps_present(self@, dependencies@));
        }
        let ghost m0 = self@;
        let ghost edge_row = edge@;
        self.items.push(
            WorkItem { id, payload, dependencies, status: Status::Pending, level: None },
        );
        self.edges.push(edge);
        proof {
            let m1 = self@;
            assert(m1.items =~= m0.items.push(
                WorkItem { id, payload, dependencies, status: Status::Pending, level: None },
            ));
            assert(m1.edges =~= m0.edges.push(edge_row));
            // the resolved row equals the one the model predicts, id by id
            assert forall|t: int| 0 <= t < edge_row.len() implies edge_row[t]
                == resolved_edges(m0, dependencies@)[t] by {
                let c = spec_index_of(m0, dependencies@[t]);
                assert(0 <= c < m0.items.len() && m0.items[c].id == dependencies@[t]);
                assert(m0.items[edge_row[t] as int].id == dependencies@[t]);
                assert(store_wf(m0));
                if c != edge_row[t] as int {
                    assert(m0.items[c].id != m0.items[edge_row[t] as int].id);
                }
            }
            assert(edge_row =~= resolved_edges(m0, dependencies@));
            assert(m1 == apply_add(m0, id, payload, dependencies));
            // well-formedness of the grown store
            assert forall|i: int|
                0 <= i < m1.items.len() implies (#[trigger] m1.edges[i].len())
                == m1.items[i].dependencies@.len() by {
                if i < m0.items.len() {
                    assert(m0.edges[i].len() == m0.items[i].dependencies@.len());
                }
            }
            assert forall|i: int, k2: int|
                0 <= i < m1.items.len() && 0 <= k2 < m1.edges[i].len() implies {
                &&& (#[trigger] m1.edges[i][k2]) < i
                &&& m1.items[m1.edges[i][k2] as int].id == m1.items[i].dependencies@[k2]
            } by {
                if i < m0.items.len() {
                    assert(m0.edges[i][k2] < i);
                    assert(m0.items[m0.edges[i][k2] as int].id == m0.items[i].dependencies@[k2]);
                }
            }
            assert(store_wf(m1));
        }
        Ok(())
    }

    /// Build a store by replaying recorded insertions in order, starting
    /// from an empty store. Refused insertions leave the store unchanged,
    /// exactly as the live calls would have.
    pub fn rebuild(calls: Vec<AddCall<P>>) -> (s: GraphStore<P>)
        ensures
            s.wf(),
            s@ == replay(calls@),
    {
        let ghost orig = calls@;
        let mut rest = calls;
        let mut s = GraphStore::new();
        while rest.len() > 0
            invariant
                s.wf(),
                replay_from(s@, rest@) == replay(orig),
            decreases rest@.len(),
        {
            let ghost pre = rest@;
            let c = rest.remove(0);
            let ghost m0 = s@;
            let _ = s.add(c.id, c.payload, c.dependencies);
            proof {
                assert(pre[0] == c);
                assert(rest@ =~= pre.drop_first());
                assert(replay_from(m0, pre) == replay_from(
                    apply_add(m0, c.id, c.payload, c.dependencies),
                    pre.drop_first(),
                ));
            }
        }
        s
    }
}

} // verus!
