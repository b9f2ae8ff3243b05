use vstd::prelude::*;

use crate::cache::{CacheEntry, TtlCache, VEHICLE_CACHE_CAPACITY, VEHICLE_CACHE_TTL_SECONDS};
use crate::errors::DispatchError;
use crate::graph::{spec_distance, Graph};
use crate::orders::{CompletedOrder, Order, OrderStatus, TowTruck};

verus! {

/// The durable store's responses to the writes one dispatch issues, handed
/// in by the caller that performs them: the anchoring completed-order
/// append, the order mutation, and the vehicle status mutation.
#[derive(Clone, Copy, Debug, PartialEq, Eq, Structural)]
pub struct WriteOutcome {
    pub completed_record_ok: bool,
    pub order_update_ok: bool,
    pub status_update_ok: bool,
}

/// A status transition the order store accepts: staying in place, or the
/// completion step of the linear pending -> dispatched -> completed chain.
/// The move out of pending happens only through `dispatch`.
pub open spec fn transition_ok(from: OrderStatus, to: OrderStatus) -> bool {
    to == from || (from == OrderStatus::Dispatched && to == OrderStatus::Completed)
}

/// A vehicle satisfies the listing filter: each given criterion must match.
pub open spec fn truck_matches(t: TowTruck, busy: Option<bool>, area_id: Option<i32>) -> bool {
    &&& (match busy {
        Option::Some(b) => t.busy == b,
        Option::None => true,
    })
    &&& (match area_id {
        Option::Some(a) => t.area_id == a,
        Option::None => true,
    })
}

/// The subsequence of vehicles satisfying the listing filter, in order.
pub open spec fn spec_filter_trucks(
    s: Seq<TowTruck>,
    busy: Option<bool>,
    area_id: Option<i32>,
) -> Seq<TowTruck>
    decreases s.len(),
{
    if s.len() == 0 {
        Seq::<TowTruck>::empty()
    } else {
        spec_filter_trucks(s.drop_last(), busy, area_id) + (if truck_matches(
            s.last(),
            busy,
            area_id,
        ) {
            seq![s.last()]
        } else {
            Seq::<TowTruck>::empty()
        })
    }
}

/// The vehicle reference is set exactly when the status has moved past
/// pending.
pub open spec fn order_lifecycle_ok(o: Order) -> bool {
    o.tow_truck_id is Some <==> o.status != OrderStatus::Pending
}

/// Orchestrates an order's lifecycle over an in-memory model of the durable
/// stores: creation, nearest-vehicle selection through the caches and the
/// road graph, and the two-step commit that marks an order dispatched and
/// its vehicle busy. The caller performs the real durable writes and hands
/// their outcomes in as plain values; every decision here is verified.
#[derive(Debug)]
pub struct DispatchCoordinator {
    graph: Graph,
    orders: Vec<Order>,
    completed: Vec<CompletedOrder>,
    trucks: Vec<TowTruck>,
    location_cache: TtlCache<i32>,
    busy_cache: TtlCache<bool>,
    next_order_id: i32,
}

impl DispatchCoordinator {
    pub closed spec fn graph_view(self) -> Graph {
        self.graph
    }

    pub closed spec fn orders_seq(self) -> Seq<Order> {
        self.orders@
    }

    pub closed spec fn completed_seq(self) -> Seq<CompletedOrder> {
        self.completed@
    }

    pub closed spec fn trucks_seq(self) -> Seq<TowTruck> {
        self.trucks@
    }

    pub closed spec fn location_cache_view(self) -> TtlCache<i32> {
        self.location_cache
    }

    pub closed spec fn busy_cache_view(self) -> TtlCache<bool> {
        self.busy_cache
    }

    /// The id the next created order receives.
    pub closed spec fn spec_next_order_id(self) -> i32 {
        self.next_order_id
    }

    pub open spec fn has_order(self, id: i32) -> bool {
        exists|i: int|
            0 <= i < self.orders_seq().len() && (#[trigger] self.orders_seq()[i]).id == id
    }

    /// The unique order carrying `id`.
    pub open spec fn spec_order(self, id: i32) -> Order
        recommends
            self.has_order(id),
    {
        self.orders_seq()[choose|i: int|
            0 <= i < self.orders_seq().len() && (#[trigger] self.orders_seq()[i]).id == id]
    }

    pub open spec fn has_truck(self, id: i32) -> bool {
        exists|i: int|
            0 <= i < self.trucks_seq().len() && (#[trigger] self.trucks_seq()[i]).id == id
    }

    /// The unique vehicle carrying `id`.
    pub open spec fn spec_truck(self, id: i32) -> TowTruck
        recommends
            self.has_truck(id),
    {
        self.trucks_seq()[choose|i: int|
            0 <= i < self.trucks_seq().len() && (#[trigger] self.trucks_seq()[i]).id == id]
    }

    /// The busy flag a dispatch decision sees at `now`: the cached flag
    /// while fresh, else the durable record.
    pub open spec fn spec_busy_of(self, t: TowTruck, now: i64) -> bool {
        match self.busy_cache_view().spec_get(t.id, now) {
            Option::Some(b) => b,
            Option::None => t.busy,
        }
    }

    /// The last-known node a dispatch decision sees at `now`: the cached
    /// node while fresh, else the durable record.
    pub open spec fn spec_node_of(self, t: TowTruck, now: i64) -> i32 {
        match self.location_cache_view().spec_get(t.id, now) {
            Option::Some(n) => n,
            Option::None => t.node_id,
        }
    }

    /// A vehicle eligible for the nearest-goal search: serving the area and
    /// not busy, as seen through the caches at `now`.
    pub open spec fn is_candidate(self, t: TowTruck, area_id: i32, now: i64) -> bool {
        t.area_id == area_id && !self.spec_busy_of(t, now)
    }

    /// One gathered candidate entry: some vehicle of the store carries this
    /// id, is eligible, and stands at this cache-first node.
    pub open spec fn candidate_entry(self, area_id: i32, now: i64, id: i32, node: i32) -> bool {
        exists|ti: int|
            0 <= ti < self.trucks_seq().len() && (#[trigger] self.trucks_seq()[ti]).id == id
                && self.is_candidate(self.trucks_seq()[ti], area_id, now) && node
                == self.spec_node_of(self.trucks_seq()[ti], now)
    }

    pub open spec fn wf(self) -> bool {
        &&& self.graph_view().wf()
        &&& self.location_cache_view().wf()
        &&& self.busy_cache_view().wf()
        &&& self.spec_next_order_id() >= 1
        &&& forall|i: int|
            0 <= i < self.orders_seq().len() ==> (#[trigger] self.orders_seq()[i]).id
                < self.spec_next_order_id()
        &&& forall|i: int, j: int|
            0 <= i < self.orders_seq().len() && 0 <= j < self.orders_seq().len()
                && (#[trigger] self.orders_seq()[i]).id == (#[trigger] self.orders_seq()[j]).id
                ==> i == j
        &&& forall|i: int|
            0 <= i < self.orders_seq().len() ==> order_lifecycle_ok(
                #[trigger] self.orders_seq()[i],
            )
        &&& forall|i: int, j: int|
            0 <= i < self.trucks_seq().len() && 0 <= j < self.trucks_seq().len()
                && (#[trigger] self.trucks_seq()[i]).id == (#[trigger] self.trucks_seq()[j]).id
                ==> i == j
    }

    proof fn lemma_spec_order_is(self, i: int)
        requires
            self.wf(),
            0 <= i < self.orders_seq().len(),
        ensures
            self.has_order(self.orders_seq()[i].id),
            self.spec_order(self.orders_seq()[i].id) == self.orders_seq()[i],
    {
        let id = self.orders_seq()[i].id;
        assert(self.has_order(id));
        let j = choose|j: int|
            0 <= j < self.orders_seq().len() && (#[trigger] self.orders_seq()[j]).id == id;
        assert(j == i);
    }

    proof fn lemma_spec_truck_is(self, i: int)
        requires
            self.wf(),
            0 <= i < self.trucks_seq().len(),
        ensures
            self.has_truck(self.trucks_seq()[i].id),
            self.spec_truck(self.trucks_seq()[i].id) == self.trucks_seq()[i],
    {
        let id = self.trucks_seq()[i].id;
        assert(self.has_truck(id));
        let j = choose|j: int|
            0 <= j < self.trucks_seq().len() && (#[trigger] self.trucks_seq()[j]).id == id;
        assert(j == i);
    }

    /// A coordinator over a freshly built road graph, with empty stores and
    /// empty caches sized and timed as the vehicle-state caches are.
    pub fn new(graph: Graph) -> (c: DispatchCoordinator)
        requires
            graph.wf(),
        ensures
            c.wf(),
            c.graph_view() == graph,
            c.orders_seq() === Seq::<Order>::empty(),
            c.completed_seq() === Seq::<CompletedOrder>::empty(),
            c.trucks_seq() === Seq::<TowTruck>::empty(),
            c.location_cache_view().entries_seq() === Seq::<CacheEntry<i32>>::empty(),
            c.busy_cache_view().entries_seq() === Seq::<CacheEntry<bool>>::empty(),
            c.spec_next_order_id() == 1,
    {
        DispatchCoordinator {
            graph,
            orders: Vec::new(),
            completed: Vec::new(),
            trucks: Vec::new(),
            location_cache: TtlCache::new(VEHICLE_CACHE_CAPACITY, VEHICLE_CACHE_TTL_SECONDS),
            busy_cache: TtlCache::new(VEHICLE_CACHE_CAPACITY, VEHICLE_CACHE_TTL_SECONDS),
            next_order_id: 1,
        }
    }

    /// Index of the vehicle carrying `id` in the store, if any.
    fn truck_index(&self, id: i32) -> (r: Option<usize>)
        ensures
            match r {
                Option::Some(i) => 0 <= i < self.trucks_seq().len()
                    && self.trucks_seq()[i as int].id == id,
                Option::None => !self.has_truck(id),
            },
    {
        let n = self.trucks.len();
        let mut i: usize = 0;
        while i < n
            invariant
                n == self.trucks@.len(),
                i <= n,
                forall|m: int| 0 <= m < i ==> (#[trigger] self.trucks@[m]).id != id,
            decreases n - i,
        {
            if self.trucks[i].id == id {
                proof {
                    assert(self.trucks_seq() == self.trucks@);
                }
                return Some(i);
            }
            i += 1;
        }
        proof {
            assert(self.trucks_seq() == self.trucks@);
            assert(!self.has_truck(id));
        }
        None
    }

    /// Index of the order carrying `id` in the store, if any.
    fn order_index(&self, id: i32) -> (r: Option<usize>)
        ensures
            match r {
                Option::Some(i) => 0 <= i < self.orders_seq().len()
                    && self.orders_seq()[i as int].id == id,
                Option::None => !self.has_order(id),
            },
    {
        let n = self.orders.len();
        let mut i: usize = 0;
        while i < n
            invariant
                n == self.orders@.len(),
                i <= n,
                forall|m: int| 0 <= m < i ==> (#[trigger] self.orders@[m]).id != id,
            decreases n - i,
        {
            if self.orders[i].id == id {
                proof {
                    assert(self.orders_seq() == self.orders@);
                }
                return Some(i);
            }
            i += 1;
        }
        proof {
            assert(self.orders_seq() == self.orders@);
            assert(!self.has_order(id));
        }
        None
    }

    /// Registers a vehicle in the durable store model. A second vehicle
    /// with the same id is refused.
    pub fn add_truck(&mut self, truck: TowTruck) -> (r: Result<(), DispatchError>)
        requires
            old(self).wf(),
        ensures
            final(self).wf(),
            final(self).graph_view() == old(self).graph_view(),
            final(self).orders_seq() == old(self).orders_seq(),
            final(self).completed_seq() == old(self).completed_seq(),
            final(self).location_cache_view() == old(self).location_cache_view(),
            final(self).busy_cache_view() == old(self).busy_cache_view(),
            final(self).spec_next_order_id() == old(self).spec_next_order_id(),
            old(self).has_truck(truck.id) ==> r == Err::<(), DispatchError>(DispatchError::Conflict)
                && final(self).trucks_seq() == old(self).trucks_seq(),
            !old(self).has_truck(truck.id) ==> r == Ok::<(), DispatchError>(())
                && final(self).trucks_seq() == old(self).trucks_seq().push(truck),
    {
        match self.truck_index(truck.id) {
            Some(_) => {
                proof {
                    let ts = self.trucks_seq();
                    assert(self.has_truck(truck.id));
                }
                Err(DispatchError::Conflict)
            },
            None => {
                self.trucks.push(truck);
                proof {
                    let ts0 = old(self).trucks_seq();
                    let ts = self.trucks_seq();
                    assert(ts0 == old(self).trucks@);
                    assert(ts == self.trucks@);
                    assert(ts == ts0.push(truck));
                    assert forall|m: int, l: int|
                        0 <= m < ts.len() && 0 <= l < ts.len() && (#[trigger] ts[m]).id == (
                        #[trigger] ts[l]).id implies m == l by {
                        if m < ts0.len() && l < ts0.len() {
                            assert(ts[m] == ts0[m]);
                            assert(ts[l] == ts0[l]);
                        } else if m < ts0.len() {
                            assert(ts0[m].id != truck.id);
                        } else if l < ts0.len() {
                            assert(ts0[l].id != truck.id);
                        }
                    }
                }
                Ok(())
            },
        }
    }

    /// The stored vehicle record, as a plain durable read.
    pub fn get_truck(&self, id: i32) -> (r: Option<TowTruck>)
        requires
            self.wf(),
        ensures
            self.has_truck(id) ==> r == Option::Some(self.spec_truck(id)),
            !self.has_truck(id) ==> r == Option::<TowTruck>::None,
    {
        match self.truck_index(id) {
            Some(i) => {
                proof {
                    self.lemma_spec_truck_is(i as int);
                }
                Some(self.trucks[i])
            },
            None => None,
        }
    }

    /// The stored order record, as a plain durable read.
    pub fn find_order(&self, id: i32) -> (r: Option<Order>)
        requires
            self.wf(),
        ensures
            self.has_order(id) ==> r == Option::Some(self.spec_order(id)),
            !self.has_order(id) ==> r == Option::<Order>::None,
    {
        match self.order_index(id) {
            Some(i) => {
                proof {
                    self.lemma_spec_order_is(i as int);
                }
                Some(self.orders[i])
            },
            None => None,
        }
    }

    /// Every completed-order record, in append order.
    pub fn get_completed_orders(&self) -> (r: Vec<CompletedOrder>)
        ensures
            r@ == self.completed_seq(),
    {
        let n = self.completed.len();
        let mut r: Vec<CompletedOrder> = Vec::new();
        let mut i: usize = 0;
        while i < n
            invariant
                n == self.completed@.len(),
                i <= n,
                r@ == self.completed@.take(i as int),
            decreases n - i,
        {
            r.push(self.completed[i]);
            proof {
                assert(r@ =~= self.completed@.take(i + 1 as int));
            }
            i += 1;
        }
        proof {
            assert(self.completed@.take(n as int) =~= self.completed@);
            assert(self.completed_seq() == self.completed@);
        }
        r
    }

    /// Creates an order in pending status at the client's node. A node the
    /// road graph does not know is refused; when no further id can be
    /// issued the store reports a dependency failure.
    pub fn create_order(
        &mut self,
        client_id: i32,
        node_id: i32,
        car_value: i64,
        order_time: i64,
    ) -> (r: Result<i32, DispatchError>)
        requires
            old(self).wf(),
        ensures
            final(self).wf(),
            final(self).graph_view() == old(self).graph_view(),
            final(self).trucks_seq() == old(self).trucks_seq(),
            final(self).completed_seq() == old(self).completed_seq(),
            final(self).location_cache_view() == old(self).location_cache_view(),
            final(self).busy_cache_view() == old(self).busy_cache_view(),
            !old(self).graph_view().has_node(node_id) ==> r == Err::<i32, DispatchError>(
                DispatchError::ValidationFailed,
            ) && *final(self) == *old(self),
            old(self).graph_view().has_node(node_id) && old(self).spec_next_order_id() == i32::MAX
                ==> r == Err::<i32, DispatchError>(DispatchError::DependencyFailure) && *final(self)
                == *old(self),
            old(self).graph_view().has_node(node_id) && old(self).spec_next_order_id() < i32::MAX
                ==> r == Ok::<i32, DispatchError>(old(self).spec_next_order_id())
                && final(self).orders_seq() == old(self).orders_seq().push(
                (Order {
                    id: old(self).spec_next_order_id(),
                    client_id,
                    node_id,
                    car_value,
                    status: OrderStatus::Pending,
                    dispatcher_id: Option::None,
                    tow_truck_id: Option::None,
                    order_time,
                    completed_time: Option::None,
                }),
            ) && final(self).spec_next_order_id() == old(self).spec_next_order_id() + 1,
    {
        proof {
            assert(self.graph_view() == self.graph);
        }
        if !self.graph.contains_node(node_id) {
            return Err(DispatchError::ValidationFailed);
        }
        if self.next_order_id == i32::MAX {
            return Err(DispatchError::DependencyFailure);
        }
        let id = self.next_order_id;
        let order = Order {
            id,
            client_id,
            node_id,
            car_value,
            status: OrderStatus::Pending,
            dispatcher_id: None,
            tow_truck_id: None,
            order_time,
            completed_time: None,
        };
        self.orders.push(order);
        self.next_order_id = id + 1;
        proof {
            let os0 = old(self).orders_seq();
            let os = self.orders_seq();
            assert(os0 == old(self).orders@);
            assert(os == self.orders@);
            assert(os == os0.push(order));
            assert(self.trucks_seq() == old(self).trucks_seq());
            assert(self.completed_seq() == old(self).completed_seq());
            assert forall|m: int, l: int|
                0 <= m < os.len() && 0 <= l < os.len() && (#[trigger] os[m]).id == (
                #[trigger] os[l]).id implies m == l by {
                if m < os0.len() && l < os0.len() {
                    assert(os[m] == os0[m]);
                    assert(os[l] == os0[l]);
                } else if m < os0.len() {
                    assert(os0[m].id < id);
                } else if l < os0.len() {
                    assert(os0[l].id < id);
                }
            }
            assert forall|m: int| 0 <= m < os.len() implies (#[trigger] os[m]).id
                < self.spec_next_order_id() by {
                if m < os0.len() {
                    assert(os[m] == os0[m]);
                }
            }
            assert forall|m: int| 0 <= m < os.len() implies order_lifecycle_ok(
                #[trigger] os[m],
            ) by {
                if m < os0.len() {
                    assert(os[m] == os0[m]);
                }
            }
        }
        Ok(id)
    }

    /// Accepts a vehicle's position report: the cache is written first, so
    /// readers see the fresh node at once, then the durable store is asked
    /// to append the location. A store failure therefore leaves the cache
    /// already updated, exactly as the write order implies.
    pub fn update_location(&mut self, truck_id: i32, node_id: i32, now: i64, store_ok: bool) -> (r:
        Result<(), DispatchError>)
        requires
            old(self).wf(),
            now >= 0,
        ensures
            final(self).wf(),
            final(self).graph_view() == old(self).graph_view(),
            final(self).orders_seq() == old(self).orders_seq(),
            final(self).completed_seq() == old(self).completed_seq(),
            final(self).busy_cache_view() == old(self).busy_cache_view(),
            final(self).spec_next_order_id() == old(self).spec_next_order_id(),
            final(self).location_cache_view().spec_lookup(truck_id) == Option::Some(
                (CacheEntry { key: truck_id, value: node_id, inserted_at: now }),
            ),
            forall|k2: i32|
                k2 != truck_id ==> #[trigger] final(self).location_cache_view().spec_lookup(k2)
                    == old(self).location_cache_view().spec_lookup(k2) || final(self).location_cache_view().spec_lookup(k2) == Option::<CacheEntry<i32>>::None,
            !store_ok ==> r == Err::<(), DispatchError>(DispatchError::DependencyFailure) && final(self).trucks_seq() == old(self).trucks_seq(),
            store_ok && !old(self).has_truck(truck_id) ==> r == Err::<(), DispatchError>(
                DispatchError::NotFound,
            ) && final(self).trucks_seq() == old(self).trucks_seq(),
            store_ok && old(self).has_truck(truck_id) ==> r == Ok::<(), DispatchError>(()),
            store_ok && old(self).has_truck(truck_id) ==> final(self).has_truck(truck_id),
            store_ok && old(self).has_truck(truck_id) ==> final(self).spec_truck(truck_id) == (
            TowTruck { node_id: node_id, ..old(self).spec_truck(truck_id) }),
            store_ok && old(self).has_truck(truck_id) ==> forall|id2: i32|
                id2 != truck_id ==> #[trigger] final(self).has_truck(id2) == old(self).has_truck(
                    id2,
                ),
            store_ok && old(self).has_truck(truck_id) ==> forall|id2: i32|
                id2 != truck_id && old(self).has_truck(id2) ==> #[trigger] final(self).spec_truck(
                    id2,
                ) == old(self).spec_truck(id2),
    {
        let idx_opt = self.truck_index(truck_id);
        self.location_cache.set(truck_id, node_id, now);
        proof {
            assert(self.trucks_seq() == old(self).trucks_seq());
            assert(self.orders_seq() == old(self).orders_seq());
            assert(self.completed_seq() == old(self).completed_seq());
        }
        if !store_ok {
            return Err(DispatchError::DependencyFailure);
        }
        match idx_opt {
            None => Err(DispatchError::NotFound),
            Some(i) => {
                proof {
                    old(self).lemma_spec_truck_is(i as int);
                }
                let t = self.trucks[i];
                self.trucks[i] = TowTruck { node_id, ..t };
                proof {
                    let ts0 = old(self).trucks_seq();
                    let ts = self.trucks_seq();
                    assert(ts0 == old(self).trucks@);
                    assert(ts == self.trucks@);
                    let nt = TowTruck { node_id: node_id, ..ts0[i as int] };
                    assert(ts == ts0.update(i as int, nt));
                    lemma_unique_ids_after_truck_update(*old(self), *self, i as int, nt);
                    assert(ts[i as int].id == truck_id);
                    assert(self.has_truck(truck_id));
                    let j = choose|j: int|
                        0 <= j < ts.len() && (#[trigger] ts[j]).id == truck_id;
                    assert(ts[j].id == ts[i as int].id);
                    assert(j == i as int);
                    assert(self.spec_truck(truck_id) == nt);
                    assert forall|id2: i32| id2 != truck_id implies #[trigger] self.has_truck(id2)
                        == old(self).has_truck(id2) by {
                        lemma_truck_lookup_after_update(*old(self), *self, i as int, nt, id2);
                    }
                    assert forall|id2: i32|
                        id2 != truck_id && old(self).has_truck(id2) implies #[trigger] self.spec_truck(
                        id2) == old(self).spec_truck(id2) by {
                        lemma_truck_lookup_after_update(*old(self), *self, i as int, nt, id2);
                    }
                    assert(self.orders_seq() == old(self).orders_seq());
                    assert(self.completed_seq() == old(self).completed_seq());
                }
                Ok(())
            },
        }
    }

    /// Marks a vehicle available or busy: the durable store commits first;
    /// only then is the cached flag refreshed, so after success the cache
    /// and the durable record agree at once.
    pub fn update_status(&mut self, truck_id: i32, busy: bool, now: i64, store_ok: bool) -> (r:
        Result<(), DispatchError>)
        requires
            old(self).wf(),
            now >= 0,
        ensures
            final(self).wf(),
            final(self).graph_view() == old(self).graph_view(),
            final(self).orders_seq() == old(self).orders_seq(),
            final(self).completed_seq() == old(self).completed_seq(),
            final(self).location_cache_view() == old(self).location_cache_view(),
            final(self).spec_next_order_id() == old(self).spec_next_order_id(),
            !store_ok ==> r == Err::<(), DispatchError>(DispatchError::DependencyFailure) && *final(self) == *old(self),
            store_ok && !old(self).has_truck(truck_id) ==> r == Err::<(), DispatchError>(
                DispatchError::NotFound,
            ) && *final(self) == *old(self),
            store_ok && old(self).has_truck(truck_id) ==> r == Ok::<(), DispatchError>(()),
            store_ok && old(self).has_truck(truck_id) ==> final(self).has_truck(truck_id),
            store_ok && old(self).has_truck(truck_id) ==> final(self).spec_truck(truck_id) == (
            TowTruck { busy: busy, ..old(self).spec_truck(truck_id) }),
            store_ok && old(self).has_truck(truck_id) ==> final(self).busy_cache_view().spec_lookup(
                truck_id,
            ) == Option::Some((CacheEntry { key: truck_id, value: busy, inserted_at: now })),
            store_ok && old(self).has_truck(truck_id) ==> final(self).busy_cache_view().spec_get(
                truck_id,
                now,
            ) == Option::Some(busy),
            store_ok && old(self).has_truck(truck_id) ==> forall|k2: i32|
                k2 != truck_id ==> #[trigger] final(self).busy_cache_view().spec_lookup(k2) == old(self).busy_cache_view().spec_lookup(k2) || final(self).busy_cache_view().spec_lookup(k2)
                    == Option::<CacheEntry<bool>>::None,
            store_ok && old(self).has_truck(truck_id) ==> forall|id2: i32|
                id2 != truck_id ==> #[trigger] final(self).has_truck(id2) == old(self).has_truck(
                    id2,
                ),
            store_ok && old(self).has_truck(truck_id) ==> forall|id2: i32|
                id2 != truck_id && old(self).has_truck(id2) ==> #[trigger] final(self).spec_truck(
                    id2,
                ) == old(self).spec_truck(id2),
    {
        if !store_ok {
            return Err(DispatchError::DependencyFailure);
        }
        match self.truck_index(truck_id) {
            None => Err(DispatchError::NotFound),
            Some(i) => {
                proof {
                    old(self).lemma_spec_truck_is(i as int);
                }
                let t = self.trucks[i];
                self.trucks[i] = TowTruck { busy, ..t };
                self.busy_cache.set(truck_id, busy, now);
                proof {
                    let ts0 = old(self).trucks_seq();
                    let ts = self.trucks_seq();
                    assert(ts0 == old(self).trucks@);
                    assert(ts == self.trucks@);
                    let nt = TowTruck { busy: busy, ..ts0[i as int] };
                    assert(ts == ts0.update(i as int, nt));
                    lemma_unique_ids_after_truck_update(*old(self), *self, i as int, nt);
                    assert(ts[i as int].id == truck_id);
                    assert(self.has_truck(truck_id));
                    let j = choose|j: int|
                        0 <= j < ts.len() && (#[trigger] ts[j]).id == truck_id;
                    assert(ts[j].id == ts[i as int].id);
                    assert(j == i as int);
                    assert(self.spec_truck(truck_id) == nt);
                    assert forall|id2: i32| id2 != truck_id implies #[trigger] self.has_truck(id2)
                        == old(self).has_truck(id2) by {
                        lemma_truck_lookup_after_update(*old(self), *self, i as int, nt, id2);
                    }
                    assert forall|id2: i32|
                        id2 != truck_id && old(self).has_truck(id2) implies #[trigger] self.spec_truck(
                        id2) == old(self).spec_truck(id2) by {
                        lemma_truck_lookup_after_update(*old(self), *self, i as int, nt, id2);
                    }
                    assert(self.orders_seq() == old(self).orders_seq());
                    assert(self.completed_seq() == old(self).completed_seq());
                }
                Ok(())
            },
        }
    }

    /// The vehicles matching an optional busy-state and an optional area,
    /// in store order: the filter the fleet listing expresses. Paging and
    /// the query text of a real store stand outside the core.
    pub fn list_trucks(&self, busy: Option<bool>, area_id: Option<i32>) -> (r: Vec<TowTruck>)
        ensures
            r@ == spec_filter_trucks(self.trucks_seq(), busy, area_id),
    {
        let n = self.trucks.len();
        let mut r: Vec<TowTruck> = Vec::new();
        let mut i: usize = 0;
        proof {
            assert(self.trucks_seq() == self.trucks@);
            assert(self.trucks@.take(0) =~= Seq::<TowTruck>::empty());
        }
        while i < n
            invariant
                n == self.trucks@.len(),
                i <= n,
                r@ == spec_filter_trucks(self.trucks@.take(i as int), busy, area_id),
            decreases n - i,
        {
            proof {
                assert(self.trucks@.take(i + 1 as int).drop_last() =~= self.trucks@.take(i as int));
                assert(self.trucks@.take(i + 1 as int).last() == self.trucks@[i as int]);
            }
            let t = self.trucks[i];
            let busy_matches = match busy {
                Some(b) => t.busy == b,
                None => true,
            };
            let area_matches = match area_id {
                Some(a) => t.area_id == a,
                None => true,
            };
            if busy_matches && area_matches {
                r.push(t);
            }
            proof {
                assert(r@ =~= spec_filter_trucks(self.trucks@.take(i + 1 as int), busy, area_id));
            }
            i += 1;
        }
        proof {
            assert(self.trucks@.take(n as int) =~= self.trucks@);
        }
        r
    }

    /// Both records a dispatch binds exist in the stores.
    pub open spec fn dispatch_applies(self, order_id: i32, tow_truck_id: i32) -> bool {
        self.has_order(order_id) && self.has_truck(tow_truck_id)
    }

    /// Binds an order to a dispatcher and a vehicle through the two-step
    /// commit. First the completed-order record is appended: if that write
    /// fails, nothing is mutated and the dispatch fails. Then the order
    /// mutation and the vehicle status mutation are issued independently:
    /// if either fails the dispatch reports failure, yet the anchoring
    /// record and whichever half succeeded remain in place. That gap is
    /// deliberate and documented, not rolled back.
    pub fn dispatch(
        &mut self,
        order_id: i32,
        dispatcher_id: i32,
        tow_truck_id: i32,
        now: i64,
        outcome: WriteOutcome,
    ) -> (r: Result<(), DispatchError>)
        requires
            old(self).wf(),
            now >= 0,
        ensures
            final(self).wf(),
            final(self).graph_view() == old(self).graph_view(),
            final(self).location_cache_view() == old(self).location_cache_view(),
            final(self).spec_next_order_id() == old(self).spec_next_order_id(),
            !old(self).has_order(order_id) ==> r == Err::<(), DispatchError>(
                DispatchError::NotFound,
            ) && *final(self) == *old(self),
            old(self).has_order(order_id) && !old(self).has_truck(tow_truck_id) ==> r == Err::<
                (),
                DispatchError,
            >(DispatchError::NotFound) && *final(self) == *old(self),
            old(self).dispatch_applies(order_id, tow_truck_id) && !outcome.completed_record_ok
                ==> r == Err::<(), DispatchError>(DispatchError::DependencyFailure) && *final(self)
                == *old(self),
            old(self).dispatch_applies(order_id, tow_truck_id) && outcome.completed_record_ok ==>
                final(self).completed_seq() == old(self).completed_seq().push(
                (CompletedOrder { order_id, tow_truck_id, completed_time: now }),
            ),
            old(self).dispatch_applies(order_id, tow_truck_id) && outcome.completed_record_ok
                && outcome.order_update_ok ==> final(self).has_order(order_id) && final(self).spec_order(order_id) == (Order {
                status: OrderStatus::Dispatched,
                dispatcher_id: Option::Some(dispatcher_id),
                tow_truck_id: Option::Some(tow_truck_id),
                ..old(self).spec_order(order_id)
            }),
            old(self).dispatch_applies(order_id, tow_truck_id) && outcome.completed_record_ok
                && !outcome.order_update_ok ==> final(self).orders_seq() == old(self).orders_seq(),
            old(self).dispatch_applies(order_id, tow_truck_id) && outcome.completed_record_ok ==>
                forall|id2: i32|
                id2 != order_id ==> #[trigger] final(self).has_order(id2) == old(self).has_order(
                    id2,
                ),
            old(self).dispatch_applies(order_id, tow_truck_id) && outcome.completed_record_ok ==>
                forall|id2: i32|
                id2 != order_id && old(self).has_order(id2) ==> #[trigger] final(self).spec_order(
                    id2,
                ) == old(self).spec_order(id2),
            old(self).dispatch_applies(order_id, tow_truck_id) && outcome.completed_record_ok
                && outcome.status_update_ok ==> final(self).has_truck(tow_truck_id) && final(self).spec_truck(tow_truck_id) == (TowTruck {
                busy: true,
                ..old(self).spec_truck(tow_truck_id)
            }) && final(self).busy_cache_view().spec_get(tow_truck_id, now) == Option::Some(true),
            old(self).dispatch_applies(order_id, tow_truck_id) && outcome.completed_record_ok
                && !outcome.status_update_ok ==> final(self).trucks_seq() == old(self).trucks_seq()
                && final(self).busy_cache_view() == old(self).busy_cache_view(),
            old(self).dispatch_applies(order_id, tow_truck_id) && outcome.completed_record_ok ==>
                forall|id2: i32|
                id2 != tow_truck_id ==> #[trigger] final(self).has_truck(id2) == old(self).has_truck(id2),
            old(self).dispatch_applies(order_id, tow_truck_id) && outcome.completed_record_ok ==>
                forall|id2: i32|
                id2 != tow_truck_id && old(self).has_truck(id2) ==> #[trigger] final(self).spec_truck(id2) == old(self).spec_truck(id2),
            old(self).dispatch_applies(order_id, tow_truck_id) && outcome.completed_record_ok ==>
                forall|k2: i32|
                k2 != tow_truck_id ==> #[trigger] final(self).busy_cache_view().spec_lookup(k2)
                    == old(self).busy_cache_view().spec_lookup(k2) || final(self).busy_cache_view().spec_lookup(k2) == Option::<CacheEntry<bool>>::None,
            old(self).dispatch_applies(order_id, tow_truck_id) && outcome.completed_record_ok ==> (
            r == Ok::<(), DispatchError>(()) <==> outcome.order_update_ok
                && outcome.status_update_ok),
            old(self).dispatch_applies(order_id, tow_truck_id) && outcome.completed_record_ok && !(
            outcome.order_update_ok && outcome.status_update_ok) ==> r == Err::<(), DispatchError>(
                DispatchError::DependencyFailure,
            ),
    {
        let oidx = match self.order_index(order_id) {
            None => {
                return Err(DispatchError::NotFound);
            },
            Some(i) => i,
        };
        let tidx = match self.truck_index(tow_truck_id) {
            None => {
                return Err(DispatchError::NotFound);
            },
            Some(i) => i,
        };
        if !outcome.completed_record_ok {
            return Err(DispatchError::DependencyFailure);
        }
        proof {
            old(self).lemma_spec_order_is(oidx as int);
            old(self).lemma_spec_truck_is(tidx as int);
        }
        self.completed.push(CompletedOrder { order_id, tow_truck_id, completed_time: now });
        if outcome.order_update_ok {
            let o = self.orders[oidx];
            self.orders[oidx] = Order {
                status: OrderStatus::Dispatched,
                dispatcher_id: Some(dispatcher_id),
                tow_truck_id: Some(tow_truck_id),
                ..o
            };
        }
        if outcome.status_update_ok {
            let t = self.trucks[tidx];
            self.trucks[tidx] = TowTruck { busy: true, ..t };
            self.busy_cache.set(tow_truck_id, true, now);
        }
        proof {
            let os0 = old(self).orders_seq();
            let os = self.orders_seq();
            let ts0 = old(self).trucks_seq();
            let ts = self.trucks_seq();
            assert(os0 == old(self).orders@);
            assert(os == self.orders@);
            assert(ts0 == old(self).trucks@);
            assert(ts == self.trucks@);
            assert(self.completed_seq() == old(self).completed_seq().push(
                CompletedOrder { order_id, tow_truck_id, completed_time: now },
            ));
            let no = Order {
                status: OrderStatus::Dispatched,
                dispatcher_id: Option::Some(dispatcher_id),
                tow_truck_id: Option::Some(tow_truck_id),
                ..os0[oidx as int]
            };
            let nt = TowTruck { busy: true, ..ts0[tidx as int] };
            if outcome.order_update_ok {
                assert(os == os0.update(oidx as int, no));
                lemma_unique_ids_after_order_update(*old(self), *self, oidx as int, no);
                assert forall|m: int| 0 <= m < os.len() implies order_lifecycle_ok(
                    #[trigger] os[m],
                ) by {
                    if m != oidx as int {
                        assert(os[m] == os0[m]);
                    }
                }
                assert(os[oidx as int].id == order_id);
                assert(self.has_order(order_id));
                let j = choose|j: int| 0 <= j < os.len() && (#[trigger] os[j]).id == order_id;
                assert(os[j].id == os[oidx as int].id);
                assert(j == oidx as int);
                assert(self.spec_order(order_id) == no);
                assert forall|id2: i32| id2 != order_id implies #[trigger] self.has_order(id2)
                    == old(self).has_order(id2) by {
                    lemma_order_lookup_after_update(*old(self), *self, oidx as int, no, id2);
                }
                assert forall|id2: i32|
                    id2 != order_id && old(self).has_order(id2) implies #[trigger] self.spec_order(
                    id2) == old(self).spec_order(id2) by {
                    lemma_order_lookup_after_update(*old(self), *self, oidx as int, no, id2);
                }
            } else {
                assert(os == os0);
            }
            if outcome.status_update_ok {
                assert(ts == ts0.update(tidx as int, nt));
                lemma_unique_ids_after_truck_update(*old(self), *self, tidx as int, nt);
                assert(ts[tidx as int].id == tow_truck_id);
                assert(self.has_truck(tow_truck_id));
                let j = choose|j: int| 0 <= j < ts.len() && (#[trigger] ts[j]).id == tow_truck_id;
                assert(ts[j].id == ts[tidx as int].id);
                assert(j == tidx as int);
                assert(self.spec_truck(tow_truck_id) == nt);
                assert forall|id2: i32| id2 != tow_truck_id implies #[trigger] self.has_truck(id2)
                    == old(self).has_truck(id2) by {
                    lemma_truck_lookup_after_update(*old(self), *self, tidx as int, nt, id2);
                }
                assert forall|id2: i32|
                    id2 != tow_truck_id && old(self).has_truck(id2) implies #[trigger] self.spec_truck(
                    id2) == old(self).spec_truck(id2) by {
                    lemma_truck_lookup_after_update(*old(self), *self, tidx as int, nt, id2);
                }
            } else {
                assert(ts == ts0);
                assert(self.busy_cache_view() == old(self).busy_cache_view());
            }
        }
        if outcome.order_update_ok && outcome.status_update_ok {
            Ok(())
        } else {
            Err(DispatchError::DependencyFailure)
        }
    }

    /// Applies a status transition the linear lifecycle accepts: staying in
    /// place, or completing a dispatched order, which stamps the completion
    /// time. Any other transition is refused; a store failure changes
    /// nothing.
    pub fn update_order_status(
        &mut self,
        order_id: i32,
        status: OrderStatus,
        now: i64,
        store_ok: bool,
    ) -> (r: Result<(), DispatchError>)
        requires
            old(self).wf(),
        ensures
            final(self).wf(),
            final(self).graph_view() == old(self).graph_view(),
            final(self).trucks_seq() == old(self).trucks_seq(),
            final(self).completed_seq() == old(self).completed_seq(),
            final(self).location_cache_view() == old(self).location_cache_view(),
            final(self).busy_cache_view() == old(self).busy_cache_view(),
            final(self).spec_next_order_id() == old(self).spec_next_order_id(),
            !old(self).has_order(order_id) ==> r == Err::<(), DispatchError>(
                DispatchError::NotFound,
            ) && *final(self) == *old(self),
            old(self).has_order(order_id) && !transition_ok(
                old(self).spec_order(order_id).status,
                status,
            ) ==> r == Err::<(), DispatchError>(DispatchError::ValidationFailed) && *final(self)
                == *old(self),
            old(self).has_order(order_id) && transition_ok(
                old(self).spec_order(order_id).status,
                status,
            ) && !store_ok ==> r == Err::<(), DispatchError>(DispatchError::DependencyFailure)
                && *final(self) == *old(self),
            old(self).has_order(order_id) && transition_ok(
                old(self).spec_order(order_id).status,
                status,
            ) && store_ok ==> r == Ok::<(), DispatchError>(()) && final(self).has_order(order_id)
                && final(self).spec_order(order_id) == (Order {
                status: status,
                completed_time: if old(self).spec_order(order_id).status
                    == OrderStatus::Dispatched && status == OrderStatus::Completed {
                    Option::Some(now)
                } else {
                    old(self).spec_order(order_id).completed_time
                },
                ..old(self).spec_order(order_id)
            }),
            old(self).has_order(order_id) && transition_ok(
                old(self).spec_order(order_id).status,
                status,
            ) && store_ok ==> forall|id2: i32|
                id2 != order_id ==> #[trigger] final(self).has_order(id2) == old(self).has_order(
                    id2,
                ),
            old(self).has_order(order_id) && transition_ok(
                old(self).spec_order(order_id).status,
                status,
            ) && store_ok ==> forall|id2: i32|
                id2 != order_id && old(self).has_order(id2) ==> #[trigger] final(self).spec_order(
                    id2,
                ) == old(self).spec_order(id2),
    {
        match self.order_index(order_id) {
            None => Err(DispatchError::NotFound),
            Some(i) => {
                proof {
                    old(self).lemma_spec_order_is(i as int);
                }
                let o = self.orders[i];
                let legal = o.status == status || (o.status == OrderStatus::Dispatched && status
                    == OrderStatus::Completed);
                if !legal {
                    return Err(DispatchError::ValidationFailed);
                }
                if !store_ok {
                    return Err(DispatchError::DependencyFailure);
                }
                let completing = o.status == OrderStatus::Dispatched && status
                    == OrderStatus::Completed;
                let completed_time = if completing {
                    Some(now)
                } else {
                    o.completed_time
                };
                self.orders[i] = Order { status, completed_time, ..o };
                proof {
                    let os0 = old(self).orders_seq();
                    let os = self.orders_seq();
                    assert(os0 == old(self).orders@);
                    assert(os == self.orders@);
                    let no = Order {
                        status: status,
                        completed_time: if os0[i as int].status == OrderStatus::Dispatched
                            && status == OrderStatus::Completed {
                            Option::Some(now)
                        } else {
                            os0[i as int].completed_time
                        },
                        ..os0[i as int]
                    };
                    assert(os == os0.update(i as int, no));
                    lemma_unique_ids_after_order_update(*old(self), *self, i as int, no);
                    assert(order_lifecycle_ok(os0[i as int]));
                    assert forall|m: int| 0 <= m < os.len() implies order_lifecycle_ok(
                        #[trigger] os[m],
                    ) by {
                        if m != i as int {
                            assert(os[m] == os0[m]);
                        }
                    }
                    assert(os[i as int].id == order_id);
                    assert(self.has_order(order_id));
                    let j = choose|j: int| 0 <= j < os.len() && (#[trigger] os[j]).id == order_id;
                    assert(os[j].id == os[i as int].id);
                    assert(j == i as int);
                    assert(self.spec_order(order_id) == no);
                    assert forall|id2: i32| id2 != order_id implies #[trigger] self.has_order(id2)
                        == old(self).has_order(id2) by {
                        lemma_order_lookup_after_update(*old(self), *self, i as int, no, id2);
                    }
                    assert forall|id2: i32|
                        id2 != order_id && old(self).has_order(id2) implies #[trigger] self.spec_order(
                        id2) == old(self).spec_order(id2) by {
                        lemma_order_lookup_after_update(*old(self), *self, i as int, no, id2);
                    }
                    assert(self.trucks_seq() == old(self).trucks_seq());
                    assert(self.completed_seq() == old(self).completed_seq());
                }
                Ok(())
            },
        }
    }

    /// The vehicle record as the dispatch path reads it: fetched from the
    /// store, its busy flag re-cached, and its node resolved cache-first,
    /// with a miss falling back to the stored node and repopulating the
    /// location cache.
    pub fn find_tow_truck_by_id(&mut self, id: i32, now: i64) -> (r: Option<TowTruck>)
        requires
            old(self).wf(),
            now >= 0,
        ensures
            final(self).wf(),
            final(self).graph_view() == old(self).graph_view(),
            final(self).orders_seq() == old(self).orders_seq(),
            final(self).completed_seq() == old(self).completed_seq(),
            final(self).trucks_seq() == old(self).trucks_seq(),
            final(self).spec_next_order_id() == old(self).spec_next_order_id(),
            !old(self).has_truck(id) ==> r == Option::<TowTruck>::None && *final(self) == *old(self),
            old(self).has_truck(id) ==> r == Option::Some(
                (TowTruck {
                    node_id: old(self).spec_node_of(old(self).spec_truck(id), now),
                    ..old(self).spec_truck(id)
                }),
            ),
            old(self).has_truck(id) ==> final(self).busy_cache_view().spec_lookup(id)
                == Option::Some(
                (CacheEntry { key: id, value: old(self).spec_truck(id).busy, inserted_at: now }),
            ),
            old(self).has_truck(id) ==> (match final(self).location_cache_view().spec_lookup(id) {
                Option::Some(e) => e.value == old(self).spec_node_of(old(self).spec_truck(id), now),
                Option::None => false,
            }),
            old(self).has_truck(id) ==> forall|k2: i32|
                k2 != id ==> #[trigger] final(self).busy_cache_view().spec_lookup(k2) == old(self).busy_cache_view().spec_lookup(k2) || final(self).busy_cache_view().spec_lookup(k2)
                    == Option::<CacheEntry<bool>>::None,
            old(self).has_truck(id) ==> forall|k2: i32|
                k2 != id ==> #[trigger] final(self).location_cache_view().spec_lookup(k2) == old(self).location_cache_view().spec_lookup(k2) || final(self).location_cache_view().spec_lookup(k2) == Option::<CacheEntry<i32>>::None,
    {
        let i = match self.truck_index(id) {
            None => {
                return None;
            },
            Some(i) => i,
        };
        proof {
            old(self).lemma_spec_truck_is(i as int);
        }
        let t = self.trucks[i];
        self.busy_cache.set(id, t.busy, now);
        let node = self.location_cache.get_or_insert(id, t.node_id, now);
        proof {
            assert(self.trucks_seq() == old(self).trucks_seq());
            assert(self.orders_seq() == old(self).orders_seq());
            assert(self.completed_seq() == old(self).completed_seq());
            assert(old(self).location_cache_view() == self.location_cache_view()
                || match old(self).location_cache_view().spec_get(id, now) {
                Option::Some(_) => false,
                Option::None => true,
            });
        }
        Some(TowTruck { node_id: node, ..t })
    }

    /// Picks the nearest available vehicle for an order: the candidates are
    /// the vehicles of the area whose busy flag, read cache-first at `now`,
    /// is clear; each is placed at its cache-first last-known node, and the
    /// bounded nearest-goal search decides. `None` means no candidate stands
    /// within `search_limit`, an empty result rather than a failure.
    pub fn assign_nearest_vehicle(
        &self,
        order_node_id: i32,
        area_id: i32,
        search_limit: i32,
        now: i64,
    ) -> (r: Option<i32>)
        requires
            self.wf(),
            now >= 0,
            2 * self.graph_view().edges_seq().len() + 1 <= usize::MAX,
        ensures
            (match r {
                Option::Some(v) => exists|i: int|
                    0 <= i < self.trucks_seq().len() && (#[trigger] self.trucks_seq()[i]).id == v
                        && self.is_candidate(self.trucks_seq()[i], area_id, now) && spec_distance(
                        self.graph_view().edges_seq(),
                        order_node_id,
                        self.spec_node_of(self.trucks_seq()[i], now),
                    ) <= search_limit as int && (forall|j: int|
                        0 <= j < self.trucks_seq().len() && self.is_candidate(
                            #[trigger] self.trucks_seq()[j],
                            area_id,
                            now,
                        ) ==> spec_distance(
                            self.graph_view().edges_seq(),
                            order_node_id,
                            self.spec_node_of(self.trucks_seq()[i], now),
                        ) <= spec_distance(
                            self.graph_view().edges_seq(),
                            order_node_id,
                            self.spec_node_of(self.trucks_seq()[j], now),
                        )),
                Option::None => forall|j: int|
                    0 <= j < self.trucks_seq().len() && self.is_candidate(
                        #[trigger] self.trucks_seq()[j],
                        area_id,
                        now,
                    ) ==> spec_distance(
                        self.graph_view().edges_seq(),
                        order_node_id,
                        self.spec_node_of(self.trucks_seq()[j], now),
                    ) > search_limit as int,
            }),
    {
        let ghost ts = self.trucks_seq();
        let tcount = self.trucks.len();
        let mut cand_ids: Vec<i32> = Vec::new();
        let mut cand_nodes: Vec<i32> = Vec::new();
        let mut search_nodes: Vec<i32> = Vec::new();
        let mut i: usize = 0;
        while i < tcount
            invariant
                self.wf(),
                now >= 0,
                ts == self.trucks_seq(),
                ts == self.trucks@,
                tcount == ts.len(),
                i <= tcount,
                cand_ids@.len() == cand_nodes@.len(),
                search_nodes@ == cand_nodes@,
                forall|m: int|
                    0 <= m < cand_ids@.len() ==> self.candidate_entry(
                        area_id,
                        now,
                        #[trigger] cand_ids@[m],
                        cand_nodes@[m],
                    ),
                forall|ti: int|
                    0 <= ti < i && self.is_candidate(#[trigger] ts[ti], area_id, now) ==> exists|
                        m: int,
                    |
                        0 <= m < cand_nodes@.len() && cand_nodes@[m] == self.spec_node_of(
                            ts[ti],
                            now,
                        ),
            decreases tcount - i,
        {
            let t = self.trucks[i];
            proof {
                assert(self.busy_cache_view() == self.busy_cache);
                assert(self.location_cache_view() == self.location_cache);
            }
            let busy = match self.busy_cache.get(t.id, now) {
                Some(b) => b,
                None => t.busy,
            };
            proof {
                assert(busy == self.spec_busy_of(t, now));
            }
            if t.area_id == area_id && !busy {
                let node = match self.location_cache.get(t.id, now) {
                    Some(nd) => nd,
                    None => t.node_id,
                };
                proof {
                    assert(node == self.spec_node_of(t, now));
                    assert(self.is_candidate(t, area_id, now));
                }
                let ghost ci0 = cand_ids@;
                let ghost cn0 = cand_nodes@;
                cand_ids.push(t.id);
                cand_nodes.push(node);
                search_nodes.push(node);
                proof {
                    let ci = cand_ids@;
                    let cn = cand_nodes@;
                    assert(ci == ci0.push(t.id));
                    assert(cn == cn0.push(node));
                    let m_new = ci.len() - 1;
                    assert(cn[m_new] == self.spec_node_of(ts[i as int], now));
                    assert(ts[i as int].id == ci[m_new]);
                    assert(self.candidate_entry(area_id, now, t.id, node));
                    assert forall|m: int|
                        0 <= m < ci.len() implies self.candidate_entry(
                        area_id,
                        now,
                        #[trigger] ci[m],
                        cn[m],
                    ) by {
                        if m < m_new {
                            assert(ci[m] == ci0[m]);
                            assert(cn[m] == cn0[m]);
                            assert(self.candidate_entry(area_id, now, ci0[m], cn0[m]));
                        } else {
                            assert(ci[m] == t.id && cn[m] == node);
                        }
                    }
                    assert forall|ti: int|
                        0 <= ti < i + 1 && self.is_candidate(
                            #[trigger] ts[ti],
                            area_id,
                            now,
                        ) implies exists|m: int|
                        0 <= m < cn.len() && cn[m] == self.spec_node_of(ts[ti], now) by {
                        if ti < i as int {
                            let m = choose|m: int|
                                0 <= m < cn0.len() && cn0[m] == self.spec_node_of(ts[ti], now);
                            assert(cn[m] == cn0[m]);
                            assert(0 <= m < cn.len() && cn[m] == self.spec_node_of(ts[ti], now));
                        } else {
                            assert(0 <= m_new < cn.len() && cn[m_new] == self.spec_node_of(
                                ts[ti],
                                now,
                            ));
                        }
                    }
                }
            } else {
                proof {
                    assert(!self.is_candidate(ts[i as int], area_id, now));
                }
            }
            i += 1;
        }
        let ghost nodes_view = cand_nodes@;
        let ghost search_view = search_nodes@;
        proof {
            assert(self.graph_view() == self.graph);
            assert(search_view == nodes_view);
        }
        let closest = self.graph.find_closest_node(order_node_id, search_nodes, search_limit);
        proof {
            if let Option::Some(g) = closest {
                let mi = choose|mi: int| 0 <= mi < search_view.len() && search_view[mi] == g;
                assert(nodes_view[mi] == g);
                assert(exists|m2: int| 0 <= m2 < nodes_view.len() && nodes_view[m2] == g);
                assert forall|m2: int|
                    0 <= m2 < nodes_view.len() implies spec_distance(
                    self.graph_view().edges_seq(),
                    order_node_id,
                    g,
                ) <= spec_distance(
                    self.graph_view().edges_seq(),
                    order_node_id,
                    #[trigger] nodes_view[m2],
                ) by {
                    assert(nodes_view[m2] == search_view[m2]);
                    assert(spec_distance(self.graph_view().edges_seq(), order_node_id, g)
                        <= spec_distance(
                        self.graph_view().edges_seq(),
                        order_node_id,
                        search_view[m2],
                    ));
                }
            } else {
                assert forall|m2: int|
                    0 <= m2 < nodes_view.len() implies spec_distance(
                    self.graph_view().edges_seq(),
                    order_node_id,
                    #[trigger] nodes_view[m2],
                ) > search_limit as int by {
                    assert(nodes_view[m2] == search_view[m2]);
                    assert(spec_distance(
                        self.graph_view().edges_seq(),
                        order_node_id,
                        search_view[m2],
                    ) > search_limit as int);
                }
            }
        }
        match closest {
            None => {
                proof {
                    assert forall|j: int|
                        0 <= j < ts.len() && self.is_candidate(
                            #[trigger] ts[j],
                            area_id,
                            now,
                        ) implies spec_distance(
                        self.graph_view().edges_seq(),
                        order_node_id,
                        self.spec_node_of(ts[j], now),
                    ) > search_limit as int by {
                        let m = choose|m: int|
                            0 <= m < nodes_view.len() && nodes_view[m] == self.spec_node_of(
                                ts[j],
                                now,
                            );
                        assert(spec_distance(
                            self.graph_view().edges_seq(),
                            order_node_id,
                            nodes_view[m],
                        ) > search_limit as int);
                    }
                }
                None
            },
            Some(gnode) => {
                let n = cand_nodes.len();
                let mut m: usize = 0;
                while m < n
                    invariant
                        self.wf(),
                        now >= 0,
                        ts == self.trucks_seq(),
                        n == cand_nodes@.len(),
                        cand_ids@.len() == cand_nodes@.len(),
                        nodes_view == cand_nodes@,
                        m <= n,
                        forall|m2: int| 0 <= m2 < m ==> #[trigger] cand_nodes@[m2] != gnode,
                        forall|m2: int|
                            0 <= m2 < cand_ids@.len() ==> self.candidate_entry(
                                area_id,
                                now,
                                #[trigger] cand_ids@[m2],
                                cand_nodes@[m2],
                            ),
                        forall|ti: int|
                            0 <= ti < ts.len() && self.is_candidate(
                                #[trigger] ts[ti],
                                area_id,
                                now,
                            ) ==> exists|m2: int|
                                0 <= m2 < cand_nodes@.len() && cand_nodes@[m2]
                                    == self.spec_node_of(ts[ti], now),
                        exists|m2: int| 0 <= m2 < nodes_view.len() && nodes_view[m2] == gnode,
                        spec_distance(self.graph_view().edges_seq(), order_node_id, gnode)
                            <= search_limit as int,
                        forall|m2: int|
                            0 <= m2 < nodes_view.len() ==> spec_distance(
                                self.graph_view().edges_seq(),
                                order_node_id,
                                gnode,
                            ) <= spec_distance(
                                self.graph_view().edges_seq(),
                                order_node_id,
                                #[trigger] nodes_view[m2],
                            ),
                    decreases n - m,
                {
                    if cand_nodes[m] == gnode {
                        let chosen = cand_ids[m];
                        proof {
                            assert(self.candidate_entry(
                                area_id,
                                now,
                                cand_ids@[m as int],
                                cand_nodes@[m as int],
                            ));
                            let ti = choose|ti: int|
                                0 <= ti < ts.len() && (#[trigger] ts[ti]).id == cand_ids@[m as int]
                                    && self.is_candidate(ts[ti], area_id, now) && cand_nodes@[
                                m as int] == self.spec_node_of(ts[ti], now);
                            assert forall|j: int|
                                0 <= j < ts.len() && self.is_candidate(
                                    #[trigger] ts[j],
                                    area_id,
                                    now,
                                ) implies spec_distance(
                                self.graph_view().edges_seq(),
                                order_node_id,
                                self.spec_node_of(ts[ti], now),
                            ) <= spec_distance(
                                self.graph_view().edges_seq(),
                                order_node_id,
                                self.spec_node_of(ts[j], now),
                            ) by {
                                let m2 = choose|m2: int|
                                    0 <= m2 < nodes_view.len() && nodes_view[m2]
                                        == self.spec_node_of(ts[j], now);
                                assert(spec_distance(
                                    self.graph_view().edges_seq(),
                                    order_node_id,
                                    gnode,
                                ) <= spec_distance(
                                    self.graph_view().edges_seq(),
                                    order_node_id,
                                    nodes_view[m2],
                                ));
                            }
                        }
                        return Some(chosen);
                    }
                    m += 1;
                }
                proof {
                    let m2 = choose|m2: int|
                        0 <= m2 < nodes_view.len() && nodes_view[m2] == gnode;
                    assert(nodes_view[m2] != gnode);
                    assert(false);
                }
                None
            },
        }
    }
}

proof fn lemma_unique_ids_after_truck_update(
    pre: DispatchCoordinator,
    post: DispatchCoordinator,
    i: int,
    nt: TowTruck,
)
    requires
        pre.wf(),
        0 <= i < pre.trucks_seq().len(),
        nt.id == pre.trucks_seq()[i].id,
        post.trucks_seq() == pre.trucks_seq().update(i, nt),
    ensures
        forall|m: int, l: int|
            0 <= m < post.trucks_seq().len() && 0 <= l < post.trucks_seq().len()
                && (#[trigger] post.trucks_seq()[m]).id == (#[trigger] post.trucks_seq()[l]).id
                ==> m == l,
{
    let ts0 = pre.trucks_seq();
    let ts = post.trucks_seq();
    assert forall|m: int, l: int|
        0 <= m < ts.len() && 0 <= l < ts.len() && (#[trigger] ts[m]).id == (#[trigger] ts[l]).id
        implies m == l by {
        assert(ts[m].id == ts0[m].id);
        assert(ts[l].id == ts0[l].id);
    }
}

proof fn lemma_truck_lookup_after_update(
    pre: DispatchCoordinator,
    post: DispatchCoordinator,
    i: int,
    nt: TowTruck,
    id2: i32,
)
    requires
        pre.wf(),
        0 <= i < pre.trucks_seq().len(),
        nt.id == pre.trucks_seq()[i].id,
        post.trucks_seq() == pre.trucks_seq().update(i, nt),
        id2 != nt.id,
    ensures
        post.has_truck(id2) == pre.has_truck(id2),
        pre.has_truck(id2) ==> post.spec_truck(id2) == pre.spec_truck(id2),
{
    let ts0 = pre.trucks_seq();
    let ts = post.trucks_seq();
    if pre.has_truck(id2) {
        let m = choose|m: int| 0 <= m < ts0.len() && (#[trigger] ts0[m]).id == id2;
        assert(m != i);
        assert(ts[m] == ts0[m]);
        assert(post.has_truck(id2));
        let m1 = choose|m1: int| 0 <= m1 < ts.len() && (#[trigger] ts[m1]).id == id2;
        assert(m1 != i);
        assert(ts[m1] == ts0[m1]);
        assert(m1 == m);
    } else {
        if post.has_truck(id2) {
            let m1 = choose|m1: int| 0 <= m1 < ts.len() && (#[trigger] ts[m1]).id == id2;
            assert(m1 != i);
            assert(ts[m1] == ts0[m1]);
            assert(pre.has_truck(id2));
        }
    }
}

proof fn lemma_unique_ids_after_order_update(
    pre: DispatchCoordinator,
    post: DispatchCoordinator,
    i: int,
    no: Order,
)
    requires
        pre.wf(),
        0 <= i < pre.orders_seq().len(),
        no.id == pre.orders_seq()[i].id,
        post.orders_seq() == pre.orders_seq().update(i, no),
    ensures
        forall|m: int, l: int|
            0 <= m < post.orders_seq().len() && 0 <= l < post.orders_seq().len()
                && (#[trigger] post.orders_seq()[m]).id == (#[trigger] post.orders_seq()[l]).id
                ==> m == l,
        forall|m: int|
            0 <= m < post.orders_seq().len() ==> (#[trigger] post.orders_seq()[m]).id
                < pre.spec_next_order_id(),
{
    let os0 = pre.orders_seq();
    let os = post.orders_seq();
    assert forall|m: int, l: int|
        0 <= m < os.len() && 0 <= l < os.len() && (#[trigger] os[m]).id == (#[trigger] os[l]).id
        implies m == l by {
        assert(os[m].id == os0[m].id);
        assert(os[l].id == os0[l].id);
    }
    assert forall|m: int| 0 <= m < os.len() implies (#[trigger] os[m]).id
        < pre.spec_next_order_id() by {
        assert(os[m].id == os0[m].id);
    }
}

proof fn lemma_order_lookup_after_update(
    pre: DispatchCoordinator,
    post: DispatchCoordinator,
    i: int,
    no: Order,
    id2: i32,
)
    requires
        pre.wf(),
        0 <= i < pre.orders_seq().len(),
        no.id == pre.orders_seq()[i].id,
        post.orders_seq() == pre.orders_seq().update(i, no),
        id2 != no.id,
    ensures
        post.has_order(id2) == pre.has_order(id2),
        pre.has_order(id2) ==> post.spec_order(id2) == pre.spec_order(id2),
{
    let os0 = pre.orders_seq();
    let os = post.orders_seq();
    if pre.has_order(id2) {
        let m = choose|m: int| 0 <= m < os0.len() && (#[trigger] os0[m]).id == id2;
        assert(m != i);
        assert(os[m] == os0[m]);
        assert(post.has_order(id2));
        let m1 = choose|m1: int| 0 <= m1 < os.len() && (#[trigger] os[m1]).id == id2;
        assert(m1 != i);
        assert(os[m1] == os0[m1]);
        assert(m1 == m);
    } else {
        if post.has_order(id2) {
            let m1 = choose|m1: int| 0 <= m1 < os.len() && (#[trigger] os[m1]).id == id2;
            assert(m1 != i);
            assert(os[m1] == os0[m1]);
            assert(pre.has_order(id2));
        }
    }
}

} // verus!
