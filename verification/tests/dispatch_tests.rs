use tow_dispatch::dispatch::{DispatchCoordinator, WriteOutcome};
use tow_dispatch::errors::DispatchError;
use tow_dispatch::graph::{Edge, Graph, Node};
use tow_dispatch::orders::{OrderStatus, TowTruck};

fn node(id: i32) -> Node {
    Node { id, x: 0, y: 0 }
}

fn edge(a: i32, b: i32, w: i32) -> Edge {
    Edge {
        node_a_id: a,
        node_b_id: b,
        weight: w,
    }
}

fn truck(id: i32, node_id: i32, area_id: i32, busy: bool) -> TowTruck {
    TowTruck {
        id,
        driver_id: 100 + id,
        busy,
        area_id,
        node_id,
    }
}

fn small_world() -> DispatchCoordinator {
    // 1 --5-- 2 --3-- 3, and a far node 4 at weight 50 from 1.
    let mut g = Graph::new();
    for id in 1..=4 {
        g.add_node(node(id));
    }
    g.add_edge(edge(1, 2, 5)).unwrap();
    g.add_edge(edge(2, 3, 3)).unwrap();
    g.add_edge(edge(1, 4, 50)).unwrap();
    DispatchCoordinator::new(g)
}

fn all_ok() -> WriteOutcome {
    WriteOutcome {
        completed_record_ok: true,
        order_update_ok: true,
        status_update_ok: true,
    }
}

#[test]
fn create_order_requires_a_known_node() {
    let mut c = small_world();
    assert_eq!(
        c.create_order(10, 99, 1500, 0),
        Err(DispatchError::ValidationFailed)
    );
    let id = c.create_order(10, 1, 1500, 7).unwrap();
    assert_eq!(id, 1);
    let o = c.find_order(1).unwrap();
    assert_eq!(o.client_id, 10);
    assert_eq!(o.node_id, 1);
    assert_eq!(o.car_value, 1500);
    assert_eq!(o.status, OrderStatus::Pending);
    assert_eq!(o.dispatcher_id, None);
    assert_eq!(o.tow_truck_id, None);
    assert_eq!(o.order_time, 7);
    assert_eq!(o.completed_time, None);
}

#[test]
fn order_ids_are_issued_in_sequence() {
    let mut c = small_world();
    assert_eq!(c.create_order(10, 1, 100, 0), Ok(1));
    assert_eq!(c.create_order(11, 2, 100, 0), Ok(2));
    assert_eq!(c.create_order(12, 3, 100, 0), Ok(3));
}

#[test]
fn duplicate_truck_registration_conflicts() {
    let mut c = small_world();
    assert_eq!(c.add_truck(truck(7, 2, 1, false)), Ok(()));
    assert_eq!(
        c.add_truck(truck(7, 3, 1, false)),
        Err(DispatchError::Conflict)
    );
}

#[test]
fn scenario_sole_candidate_is_assigned_and_dispatch_marks_it_busy() {
    let mut c = small_world();
    c.add_truck(truck(7, 2, 1, false)).unwrap();
    // The vehicle reports its position and availability, priming the caches.
    c.update_location(7, 2, 10, true).unwrap();
    c.update_status(7, false, 10, true).unwrap();
    let order_id = c.create_order(55, 1, 900, 10).unwrap();

    // Sole candidate within the bound: distance 1 -> 2 is 5 <= 10.
    assert_eq!(c.assign_nearest_vehicle(1, 1, 10, 20), Some(7));

    assert_eq!(c.dispatch(order_id, 9, 7, 30, all_ok()), Ok(()));
    let o = c.find_order(order_id).unwrap();
    assert_eq!(o.status, OrderStatus::Dispatched);
    assert_eq!(o.dispatcher_id, Some(9));
    assert_eq!(o.tow_truck_id, Some(7));
    let t = c.get_truck(7).unwrap();
    assert!(t.busy);
    // The cached busy flag is true as well: the vehicle is no candidate now.
    assert_eq!(c.assign_nearest_vehicle(1, 1, 10, 31), None);
}

#[test]
fn assign_respects_the_search_limit() {
    let mut c = small_world();
    c.add_truck(truck(7, 4, 1, false)).unwrap();
    // Node 4 is 50 away from node 1: outside a limit of 10.
    assert_eq!(c.assign_nearest_vehicle(1, 1, 10, 0), None);
    assert_eq!(c.assign_nearest_vehicle(1, 1, 50, 0), Some(7));
}

#[test]
fn assign_filters_by_area_and_busy_flag() {
    let mut c = small_world();
    c.add_truck(truck(1, 2, 1, true)).unwrap();
    c.add_truck(truck(2, 2, 2, false)).unwrap();
    c.add_truck(truck(3, 3, 1, false)).unwrap();
    // Truck 1 is busy, truck 2 serves another area: truck 3 wins at 8.
    assert_eq!(c.assign_nearest_vehicle(1, 1, 100, 0), Some(3));
}

#[test]
fn assign_prefers_the_cached_location() {
    let mut c = small_world();
    // Durable record says the far node 4; a fresher report says node 2.
    c.add_truck(truck(7, 4, 1, false)).unwrap();
    c.update_location(7, 2, 10, true).unwrap();
    assert_eq!(c.assign_nearest_vehicle(1, 1, 10, 20), Some(7));
}

#[test]
fn busy_flag_falls_back_to_the_durable_record_on_a_cache_miss() {
    let mut c = small_world();
    // Nothing cached for this vehicle: its durable flag decides.
    c.add_truck(truck(7, 2, 1, true)).unwrap();
    assert_eq!(c.assign_nearest_vehicle(1, 1, 100, 0), None);
    c.update_status(7, false, 5, true).unwrap();
    assert_eq!(c.assign_nearest_vehicle(1, 1, 100, 6), Some(7));
}

#[test]
fn expired_location_cache_falls_back_to_the_durable_node() {
    let mut c = small_world();
    // Durable node stays 4: the store append fails, only the cache says 2.
    c.add_truck(truck(7, 4, 1, false)).unwrap();
    c.update_location(7, 2, 10, false).unwrap_err();
    // Fresh cache: the vehicle appears to stand at node 2, within reach.
    assert_eq!(c.assign_nearest_vehicle(1, 1, 10, 20), Some(7));
    // After the TTL the cached node is gone; the far durable node decides.
    assert_eq!(c.assign_nearest_vehicle(1, 1, 10, 10_000), None);
}

#[test]
fn dispatch_fails_cleanly_when_the_anchor_write_fails() {
    let mut c = small_world();
    c.add_truck(truck(7, 2, 1, false)).unwrap();
    let order_id = c.create_order(55, 1, 900, 0).unwrap();
    let outcome = WriteOutcome {
        completed_record_ok: false,
        order_update_ok: true,
        status_update_ok: true,
    };
    assert_eq!(
        c.dispatch(order_id, 9, 7, 5, outcome),
        Err(DispatchError::DependencyFailure)
    );
    // Nothing moved: no completed record, order pending, vehicle available.
    assert!(c.get_completed_orders().is_empty());
    let o = c.find_order(order_id).unwrap();
    assert_eq!(o.status, OrderStatus::Pending);
    assert_eq!(o.tow_truck_id, None);
    assert!(!c.get_truck(7).unwrap().busy);
}

#[test]
fn dispatch_keeps_the_anchor_record_when_a_later_write_fails() {
    let mut c = small_world();
    c.add_truck(truck(7, 2, 1, false)).unwrap();
    let order_id = c.create_order(55, 1, 900, 0).unwrap();
    let outcome = WriteOutcome {
        completed_record_ok: true,
        order_update_ok: true,
        status_update_ok: false,
    };
    assert_eq!(
        c.dispatch(order_id, 9, 7, 5, outcome),
        Err(DispatchError::DependencyFailure)
    );
    // The documented consistency gap: the anchor record exists, the order
    // moved, yet the vehicle's durable status did not.
    let completed = c.get_completed_orders();
    assert_eq!(completed.len(), 1);
    assert_eq!(completed[0].order_id, order_id);
    assert_eq!(completed[0].tow_truck_id, 7);
    assert_eq!(completed[0].completed_time, 5);
    assert_eq!(c.find_order(order_id).unwrap().status, OrderStatus::Dispatched);
    assert!(!c.get_truck(7).unwrap().busy);
}

#[test]
fn dispatch_keeps_the_anchor_record_when_the_order_write_fails() {
    let mut c = small_world();
    c.add_truck(truck(7, 2, 1, false)).unwrap();
    let order_id = c.create_order(55, 1, 900, 0).unwrap();
    let outcome = WriteOutcome {
        completed_record_ok: true,
        order_update_ok: false,
        status_update_ok: true,
    };
    assert_eq!(
        c.dispatch(order_id, 9, 7, 5, outcome),
        Err(DispatchError::DependencyFailure)
    );
    assert_eq!(c.get_completed_orders().len(), 1);
    assert_eq!(c.find_order(order_id).unwrap().status, OrderStatus::Pending);
    assert!(c.get_truck(7).unwrap().busy);
}

#[test]
fn dispatch_of_missing_records_is_not_found() {
    let mut c = small_world();
    c.add_truck(truck(7, 2, 1, false)).unwrap();
    let order_id = c.create_order(55, 1, 900, 0).unwrap();
    assert_eq!(
        c.dispatch(99, 9, 7, 5, all_ok()),
        Err(DispatchError::NotFound)
    );
    assert_eq!(
        c.dispatch(order_id, 9, 99, 5, all_ok()),
        Err(DispatchError::NotFound)
    );
    assert!(c.get_completed_orders().is_empty());
}

#[test]
fn completing_a_dispatched_order_stamps_the_time() {
    let mut c = small_world();
    c.add_truck(truck(7, 2, 1, false)).unwrap();
    let order_id = c.create_order(55, 1, 900, 0).unwrap();
    c.dispatch(order_id, 9, 7, 5, all_ok()).unwrap();
    assert_eq!(
        c.update_order_status(order_id, OrderStatus::Completed, 44, true),
        Ok(())
    );
    let o = c.find_order(order_id).unwrap();
    assert_eq!(o.status, OrderStatus::Completed);
    assert_eq!(o.completed_time, Some(44));
}

#[test]
fn illegal_status_transitions_are_refused() {
    let mut c = small_world();
    let order_id = c.create_order(55, 1, 900, 0).unwrap();
    assert_eq!(
        c.update_order_status(order_id, OrderStatus::Completed, 1, true),
        Err(DispatchError::ValidationFailed)
    );
    assert_eq!(
        c.update_order_status(order_id, OrderStatus::Dispatched, 1, true),
        Err(DispatchError::ValidationFailed)
    );
    assert_eq!(
        c.update_order_status(99, OrderStatus::Pending, 1, true),
        Err(DispatchError::NotFound)
    );
    // A same-status write is accepted and changes nothing visible.
    assert_eq!(
        c.update_order_status(order_id, OrderStatus::Pending, 1, true),
        Ok(())
    );
    assert_eq!(c.find_order(order_id).unwrap().status, OrderStatus::Pending);
}

#[test]
fn status_update_store_failure_changes_nothing() {
    let mut c = small_world();
    c.add_truck(truck(7, 2, 1, false)).unwrap();
    assert_eq!(
        c.update_status(7, true, 5, false),
        Err(DispatchError::DependencyFailure)
    );
    assert!(!c.get_truck(7).unwrap().busy);
    // The cache saw no write either: the vehicle is still a candidate.
    assert_eq!(c.assign_nearest_vehicle(1, 1, 100, 6), Some(7));
}

#[test]
fn location_update_writes_the_cache_before_the_store() {
    let mut c = small_world();
    c.add_truck(truck(7, 4, 1, false)).unwrap();
    // The durable append fails, yet the fresher node is already cached.
    assert_eq!(
        c.update_location(7, 2, 10, false),
        Err(DispatchError::DependencyFailure)
    );
    assert_eq!(c.get_truck(7).unwrap().node_id, 4);
    assert_eq!(c.assign_nearest_vehicle(1, 1, 10, 20), Some(7));
}

#[test]
fn find_tow_truck_resolves_the_node_cache_first() {
    let mut c = small_world();
    c.add_truck(truck(7, 4, 1, false)).unwrap();
    // Only the cache learns of node 2: the durable append fails.
    c.update_location(7, 2, 10, false).unwrap_err();
    let t = c.find_tow_truck_by_id(7, 20).unwrap();
    assert_eq!(t.node_id, 2);
    assert_eq!(t.id, 7);
    assert!(!t.busy);
    // After the TTL the cached node is gone; the durable node shows, and
    // the successful fallback read repopulates the cache with it.
    let t2 = c.find_tow_truck_by_id(7, 10_000).unwrap();
    assert_eq!(t2.node_id, 4);
    assert_eq!(c.find_tow_truck_by_id(7, 10_001).unwrap().node_id, 4);
    assert!(c.find_tow_truck_by_id(99, 0).is_none());
}

#[test]
fn listing_filters_by_busy_state_and_area() {
    let mut c = small_world();
    c.add_truck(truck(1, 2, 1, true)).unwrap();
    c.add_truck(truck(2, 2, 2, false)).unwrap();
    c.add_truck(truck(3, 3, 1, false)).unwrap();
    let all = c.list_trucks(None, None);
    assert_eq!(all.len(), 3);
    assert_eq!(all[0].id, 1);
    let available = c.list_trucks(Some(false), None);
    assert_eq!(available.len(), 2);
    assert_eq!(available[0].id, 2);
    assert_eq!(available[1].id, 3);
    let available_area_one = c.list_trucks(Some(false), Some(1));
    assert_eq!(available_area_one.len(), 1);
    assert_eq!(available_area_one[0].id, 3);
    assert!(c.list_trucks(Some(true), Some(2)).is_empty());
}
