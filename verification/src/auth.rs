use vstd::prelude::*;

use crate::errors::DispatchError;

verus! {

/// A user's role, as registration states it.
#[derive(Clone, Copy, Debug, PartialEq, Eq, Structural)]
pub enum Role {
    Client,
    Dispatcher,
    Driver,
}

/// The identity lookup the order enrichment consumes: resolves a user id to
/// its display username. Concrete implementations live with the callers
/// that own the identity store.
pub trait AuthRepository {
    fn find_username_by_id(&self, id: i32) -> Option<String>;
}

/// Holds the identity lookup for the flows around dispatch. Session
/// issuance, password handling and profile images are plumbing outside this
/// core; only the decisions below are modelled here.
pub struct AuthService<T: AuthRepository> {
    repository: T,
}

impl<T: AuthRepository> AuthService<T> {
    /// The identity lookup this service consults.
    pub closed spec fn repository_view(self) -> T {
        self.repository
    }

    pub fn new(repository: T) -> (s: AuthService<T>)
        ensures
            s.repository_view() == repository,
    {
        AuthService { repository }
    }

    /// Resolves a user id to a display username through the repository.
    pub fn username_for(&self, id: i32) -> Option<String> {
        self.repository.find_username_by_id(id)
    }
}

/// The admission decision of registration: a dispatcher must name an area,
/// and a taken username is a conflict. The area check comes first, as the
/// registration flow applies it before consulting the user store.
pub fn registration_check(role: Role, area: Option<i32>, username_taken: bool) -> (r: Result<
    (),
    DispatchError,
>)
    ensures
        role == Role::Dispatcher && area is None ==> r == Err::<(), DispatchError>(
            DispatchError::ValidationFailed,
        ),
        !(role == Role::Dispatcher && area is None) && username_taken ==> r == Err::<
            (),
            DispatchError,
        >(DispatchError::Conflict),
        !(role == Role::Dispatcher && area is None) && !username_taken ==> r == Ok::<
            (),
            DispatchError,
        >(()),
{
    if role == Role::Dispatcher && area.is_none() {
        return Err(DispatchError::ValidationFailed);
    }
    if username_taken {
        return Err(DispatchError::Conflict);
    }
    Ok(())
}

} // verus!
