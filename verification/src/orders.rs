use vstd::prelude::*;

verus! {

/// Lifecycle of an order: linear, with no cancellation path.
#[derive(Clone, Copy, Debug, PartialEq, Eq, Structural)]
pub enum OrderStatus {
    Pending,
    Dispatched,
    Completed,
}

/// A service request. The car value is held in minor currency units, so the
/// whole record is plain integer data. The vehicle reference is set exactly
/// when the status has moved past pending.
#[derive(Clone, Copy, Debug)]
pub struct Order {
    pub id: i32,
    pub client_id: i32,
    pub node_id: i32,
    pub car_value: i64,
    pub status: OrderStatus,
    pub dispatcher_id: Option<i32>,
    pub tow_truck_id: Option<i32>,
    pub order_time: i64,
    pub completed_time: Option<i64>,
}

/// Append-only record written as the first, anchoring step of a dispatch;
/// immutable afterward.
#[derive(Clone, Copy, Debug, PartialEq, Eq, Structural)]
pub struct CompletedOrder {
    pub order_id: i32,
    pub tow_truck_id: i32,
    pub completed_time: i64,
}

/// A service vehicle. `busy` and `node_id` are the volatile fields mirrored
/// by the vehicle-state caches.
#[derive(Clone, Copy, Debug, PartialEq, Eq, Structural)]
pub struct TowTruck {
    pub id: i32,
    pub driver_id: i32,
    pub busy: bool,
    pub area_id: i32,
    pub node_id: i32,
}

/// An identity record, as the identity lookup hands it back.
#[derive(Clone, Debug)]
pub struct User {
    pub id: i32,
    pub username: String,
}

/// A dispatcher record: an identity plus the area it serves.
#[derive(Clone, Copy, Debug, PartialEq, Eq, Structural)]
pub struct Dispatcher {
    pub id: i32,
    pub user_id: i32,
    pub area_id: i32,
}

/// An order joined with its display fields: client, dispatcher and driver
/// usernames and the order's area. Pure assembly, not dispatch logic.
#[derive(Clone, Debug)]
pub struct OrderRecord {
    pub id: i32,
    pub client_id: i32,
    pub client_username: Option<String>,
    pub dispatcher_id: Option<i32>,
    pub dispatcher_user_id: Option<i32>,
    pub dispatcher_username: Option<String>,
    pub tow_truck_id: Option<i32>,
    pub driver_user_id: Option<i32>,
    pub driver_username: Option<String>,
    pub area_id: Option<i32>,
    pub status: OrderStatus,
    pub node_id: i32,
    pub car_value: i64,
    pub order_time: i64,
    pub completed_time: Option<i64>,
}

/// The client id of every order, in order: the batched key set for the
/// username lookup.
pub fn client_ids_of(orders: &Vec<Order>) -> (r: Vec<i32>)
    ensures
        r@.len() == orders@.len(),
        forall|i: int| 0 <= i < orders@.len() ==> r@[i] == (#[trigger] orders@[i]).client_id,
{
    let mut r: Vec<i32> = Vec::new();
    let mut i: usize = 0;
    while i < orders.len()
        invariant
            i <= orders@.len(),
            r@.len() == i,
            forall|m: int| 0 <= m < i ==> r@[m] == (#[trigger] orders@[m]).client_id,
        decreases orders@.len() - i,
    {
        r.push(orders[i].client_id);
        i += 1;
    }
    r
}

/// The dispatcher ids of the orders that already carry one, in order: the
/// batched key set for the dispatcher lookup.
pub open spec fn spec_dispatcher_ids(s: Seq<Order>) -> Seq<i32>
    decreases s.len(),
{
    if s.len() == 0 {
        Seq::<i32>::empty()
    } else {
        spec_dispatcher_ids(s.drop_last()) + (match s.last().dispatcher_id {
            Option::Some(d) => seq![d],
            Option::None => Seq::<i32>::empty(),
        })
    }
}

pub fn dispatcher_ids_of(orders: &Vec<Order>) -> (r: Vec<i32>)
    ensures
        r@ == spec_dispatcher_ids(orders@),
{
    let mut r: Vec<i32> = Vec::new();
    let mut i: usize = 0;
    while i < orders.len()
        invariant
            i <= orders@.len(),
            r@ == spec_dispatcher_ids(orders@.take(i as int)),
        decreases orders@.len() - i,
    {
        proof {
            assert(orders@.take(i + 1 as int).drop_last() =~= orders@.take(i as int));
            assert(orders@.take(i + 1 as int).last() == orders@[i as int]);
        }
        match orders[i].dispatcher_id {
            Some(d) => {
                r.push(d);
                proof {
                    assert(r@ =~= spec_dispatcher_ids(orders@.take(i + 1 as int)));
                }
            },
            None => {
                proof {
                    assert(r@ =~= spec_dispatcher_ids(orders@.take(i + 1 as int)));
                }
            },
        }
        i += 1;
    }
    proof {
        assert(orders@.take(orders@.len() as int) =~= orders@);
    }
    r
}

/// The username of the first user carrying `id`, as a batched id-to-name
/// map hands it back.
pub open spec fn spec_username_of(s: Seq<User>, id: i32) -> Option<Seq<char>>
    decreases s.len(),
{
    if s.len() == 0 {
        Option::None
    } else if s[0].id == id {
        Option::Some(s[0].username@)
    } else {
        spec_username_of(s.drop_first(), id)
    }
}

pub fn username_of(users: &Vec<User>, id: i32) -> (r: Option<String>)
    ensures
        match r {
            Option::Some(name) => spec_username_of(users@, id) == Option::Some(name@),
            Option::None => spec_username_of(users@, id) == Option::<Seq<char>>::None,
        },
{
    let mut i: usize = 0;
    proof {
        assert(users@.skip(0) =~= users@);
    }
    while i < users.len()
        invariant
            i <= users@.len(),
            spec_username_of(users@, id) == spec_username_of(users@.skip(i as int), id),
        decreases users@.len() - i,
    {
        proof {
            assert(users@.skip(i as int)[0] == users@[i as int]);
            assert(users@.skip(i as int).drop_first() =~= users@.skip(i + 1 as int));
        }
        if users[i].id == id {
            return Some(users[i].username.clone());
        }
        i += 1;
    }
    proof {
        assert(users@.skip(users@.len() as int).len() == 0);
    }
    None
}

/// Pairs each dispatcher with the identity fetched for it: the two batched
/// reads return one user per dispatcher, in the same order.
pub fn zip_dispatcher_users(dispatchers: &Vec<Dispatcher>, users: &Vec<User>) -> (r: Vec<
    (i32, i32, String),
>)
    requires
        dispatchers@.len() == users@.len(),
    ensures
        r@.len() == dispatchers@.len(),
        forall|i: int|
            0 <= i < r@.len() ==> (#[trigger] r@[i]).0 == dispatchers@[i].id && r@[i].1
                == users@[i].id && r@[i].2@ == users@[i].username@,
{
    let mut r: Vec<(i32, i32, String)> = Vec::new();
    let mut i: usize = 0;
    while i < dispatchers.len()
        invariant
            dispatchers@.len() == users@.len(),
            i <= dispatchers@.len(),
            r@.len() == i,
            forall|m: int|
                0 <= m < i ==> (#[trigger] r@[m]).0 == dispatchers@[m].id && r@[m].1
                    == users@[m].id && r@[m].2@ == users@[m].username@,
        decreases dispatchers@.len() - i,
    {
        r.push((dispatchers[i].id, users[i].id, users[i].username.clone()));
        i += 1;
    }
    r
}

/// Joins one order with its display fields. The caller resolves the client,
/// dispatcher and driver identities and the area; this assembly is exact:
/// every output field is pinned to its input.
pub fn assemble_order_record(
    order: &Order,
    client_username: Option<String>,
    dispatcher_user: Option<(i32, String)>,
    driver_user: Option<(i32, String)>,
    area_id: Option<i32>,
) -> (r: OrderRecord)
    ensures
        r.id == order.id,
        r.client_id == order.client_id,
        r.client_username == client_username,
        r.dispatcher_id == order.dispatcher_id,
        r.dispatcher_user_id == (match dispatcher_user {
            Option::Some(u) => Option::Some(u.0),
            Option::None => Option::<i32>::None,
        }),
        r.dispatcher_username == (match dispatcher_user {
            Option::Some(u) => Option::Some(u.1),
            Option::None => Option::<String>::None,
        }),
        r.tow_truck_id == order.tow_truck_id,
        r.driver_user_id == (match driver_user {
            Option::Some(u) => Option::Some(u.0),
            Option::None => Option::<i32>::None,
        }),
        r.driver_username == (match driver_user {
            Option::Some(u) => Option::Some(u.1),
            Option::None => Option::<String>::None,
        }),
        r.area_id == area_id,
        r.status == order.status,
        r.node_id == order.node_id,
        r.car_value == order.car_value,
        r.order_time == order.order_time,
        r.completed_time == order.completed_time,
{
    let (dispatcher_user_id, dispatcher_username) = match dispatcher_user {
        Some((uid, name)) => (Some(uid), Some(name)),
        None => (None, None),
    };
    let (driver_user_id, driver_username) = match driver_user {
        Some((uid, name)) => (Some(uid), Some(name)),
        None => (None, None),
    };
    OrderRecord {
        id: order.id,
        client_id: order.client_id,
        client_username,
        dispatcher_id: order.dispatcher_id,
        dispatcher_user_id,
        dispatcher_username,
        tow_truck_id: order.tow_truck_id,
        driver_user_id,
        driver_username,
        area_id,
        status: order.status,
        node_id: order.node_id,
        car_value: order.car_value,
        order_time: order.order_time,
        completed_time: order.completed_time,
    }
}

} // verus!
