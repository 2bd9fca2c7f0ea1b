use vstd::prelude::*;

verus! {

/// One registered application: the hostname it is served under, the loopback
/// port its backend listens on, and the process that owns the registration.
#[derive(Debug, Clone, PartialEq, Eq)]
pub struct Route {
    pub hostname: String,
    pub port: u16,
    pub pid: u32,
}

/// The mathematical value of a [`Route`].
pub struct RouteView {
    pub hostname: Seq<char>,
    pub port: u16,
    pub pid: u32,
}

impl View for Route {
    type V = RouteView;

    open spec fn view(&self) -> RouteView {
        RouteView { hostname: self.hostname@, port: self.port, pid: self.pid }
    }
}

impl Route {
    /// A copy of this route, field by field.
    pub fn duplicate(&self) -> (r: Route)
        ensures
            r@ == self@,
    {
        Route { hostname: self.hostname.clone(), port: self.port, pid: self.pid }
    }
}

} // verus!
