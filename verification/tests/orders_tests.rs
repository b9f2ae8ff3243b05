use tow_dispatch::auth::{registration_check, AuthRepository, AuthService, Role};
use tow_dispatch::errors::DispatchError;
use tow_dispatch::orders::{
    assemble_order_record, client_ids_of, dispatcher_ids_of, username_of, zip_dispatcher_users,
    Dispatcher, Order, OrderStatus, User,
};

fn order(id: i32, client_id: i32, dispatcher_id: Option<i32>) -> Order {
    Order {
        id,
        client_id,
        node_id: 3,
        car_value: 800,
        status: if dispatcher_id.is_some() {
            OrderStatus::Dispatched
        } else {
            OrderStatus::Pending
        },
        dispatcher_id,
        tow_truck_id: dispatcher_id.map(|_| 7),
        order_time: 50,
        completed_time: None,
    }
}

fn user(id: i32, name: &str) -> User {
    User {
        id,
        username: name.to_string(),
    }
}

#[test]
fn client_ids_follow_the_orders() {
    let orders = vec![order(1, 10, None), order(2, 11, Some(5)), order(3, 10, None)];
    assert_eq!(client_ids_of(&orders), vec![10, 11, 10]);
    assert_eq!(client_ids_of(&Vec::new()), Vec::<i32>::new());
}

#[test]
fn dispatcher_ids_keep_only_assigned_orders() {
    let orders = vec![order(1, 10, None), order(2, 11, Some(5)), order(3, 12, Some(6))];
    assert_eq!(dispatcher_ids_of(&orders), vec![5, 6]);
    assert_eq!(dispatcher_ids_of(&Vec::new()), Vec::<i32>::new());
}

#[test]
fn username_lookup_finds_the_first_match() {
    let users = vec![user(1, "ada"), user(2, "bob"), user(1, "shadowed")];
    assert_eq!(username_of(&users, 1), Some("ada".to_string()));
    assert_eq!(username_of(&users, 2), Some("bob".to_string()));
    assert_eq!(username_of(&users, 3), None);
}

#[test]
fn dispatcher_zip_pairs_by_position() {
    let dispatchers = vec![
        Dispatcher { id: 5, user_id: 51, area_id: 1 },
        Dispatcher { id: 6, user_id: 61, area_id: 2 },
    ];
    let users = vec![user(51, "dora"), user(61, "emil")];
    let zipped = zip_dispatcher_users(&dispatchers, &users);
    assert_eq!(zipped.len(), 2);
    assert_eq!(zipped[0], (5, 51, "dora".to_string()));
    assert_eq!(zipped[1], (6, 61, "emil".to_string()));
}

#[test]
fn assembled_record_carries_every_field() {
    let o = order(2, 11, Some(5));
    let r = assemble_order_record(
        &o,
        Some("carla".to_string()),
        Some((51, "dora".to_string())),
        Some((71, "frank".to_string())),
        Some(4),
    );
    assert_eq!(r.id, 2);
    assert_eq!(r.client_id, 11);
    assert_eq!(r.client_username, Some("carla".to_string()));
    assert_eq!(r.dispatcher_id, Some(5));
    assert_eq!(r.dispatcher_user_id, Some(51));
    assert_eq!(r.dispatcher_username, Some("dora".to_string()));
    assert_eq!(r.tow_truck_id, Some(7));
    assert_eq!(r.driver_user_id, Some(71));
    assert_eq!(r.driver_username, Some("frank".to_string()));
    assert_eq!(r.area_id, Some(4));
    assert_eq!(r.status, OrderStatus::Dispatched);
    assert_eq!(r.node_id, 3);
    assert_eq!(r.car_value, 800);
    assert_eq!(r.order_time, 50);
    assert_eq!(r.completed_time, None);
}

#[test]
fn assembled_record_of_a_pending_order_has_empty_joins() {
    let o = order(1, 10, None);
    let r = assemble_order_record(&o, None, None, None, None);
    assert_eq!(r.client_username, None);
    assert_eq!(r.dispatcher_user_id, None);
    assert_eq!(r.dispatcher_username, None);
    assert_eq!(r.driver_user_id, None);
    assert_eq!(r.driver_username, None);
    assert_eq!(r.area_id, None);
    assert_eq!(r.status, OrderStatus::Pending);
}

#[test]
fn registration_requires_an_area_for_dispatchers() {
    assert_eq!(
        registration_check(Role::Dispatcher, None, false),
        Err(DispatchError::ValidationFailed)
    );
    assert_eq!(registration_check(Role::Dispatcher, Some(3), false), Ok(()));
    assert_eq!(registration_check(Role::Client, None, false), Ok(()));
    assert_eq!(registration_check(Role::Driver, None, false), Ok(()));
}

#[test]
fn registration_refuses_taken_usernames() {
    assert_eq!(
        registration_check(Role::Client, None, true),
        Err(DispatchError::Conflict)
    );
    // The missing-area check comes first.
    assert_eq!(
        registration_check(Role::Dispatcher, None, true),
        Err(DispatchError::ValidationFailed)
    );
}

struct MapLookup {
    users: Vec<User>,
}

impl AuthRepository for MapLookup {
    fn find_username_by_id(&self, id: i32) -> Option<String> {
        self.users
            .iter()
            .find(|u| u.id == id)
            .map(|u| u.username.clone())
    }
}

#[test]
fn auth_service_resolves_usernames_through_its_repository() {
    let service = AuthService::new(MapLookup {
        users: vec![user(1, "ada"), user(2, "bob")],
    });
    assert_eq!(service.username_for(1), Some("ada".to_string()));
    assert_eq!(service.username_for(9), None);
}
