use vstd::prelude::*;
use crate::compose::{compose, composed, Handler, HandlerView};
use crate::descriptor::{same_chars, DescriptorView, Method, RouteDescriptor};
use crate::registry::{descriptor_views, drain_step, BuildError, BuildErrorView, Registry, RegistryState};

verus! {

/// One entry of a dispatch table.
#[derive(Debug)]
pub struct Route {
    pub method: Method,
    pub path: String,
    pub handler: Handler,
}

pub struct RouteView {
    pub method: Method,
    pub path: Seq<char>,
    pub handler: HandlerView,
}

impl View for Route {
    type V = RouteView;

    open spec fn view(&self) -> RouteView {
        RouteView { method: self.method, path: self.path@, handler: self.handler@ }
    }
}

pub open spec fn route_views(s: Seq<Route>) -> Seq<RouteView> {
    s.map_values(|r: Route| r@)
}

pub open spec fn route_key(r: RouteView) -> (Method, Seq<char>) {
    (r.method, r.path)
}

pub open spec fn key_of(d: DescriptorView) -> (Method, Seq<char>) {
    (d.method, d.path)
}

/// The map from `(method, path)` that a list of routes describes.
pub open spec fn routes_map(s: Seq<RouteView>) -> Map<(Method, Seq<char>), HandlerView>
    decreases s.len(),
{
    if s.len() == 0 {
        Map::empty()
    } else {
        routes_map(s.drop_last()).insert(route_key(s.last()), s.last().handler)
    }
}

pub open spec fn route_keys_distinct(s: Seq<RouteView>) -> bool {
    forall|i: int, j: int|
        0 <= i < j < s.len() ==> route_key(#[trigger] s[i]) != route_key(#[trigger] s[j])
}

/// The handler a descriptor contributes: its base handler, bound to the
/// state when it asks for one, wrapped in its middleware.
pub open spec fn entry_handler(d: DescriptorView, state: Option<u64>) -> HandlerView {
    composed(
        HandlerView::Base {
            name: d.handler,
            state: if d.requires_state {
                state
            } else {
                None
            },
        },
        d.middleware,
    )
}

pub open spec fn route_of(d: DescriptorView, state: Option<u64>) -> RouteView {
    RouteView { method: d.method, path: d.path, handler: entry_handler(d, state) }
}

pub open spec fn state_missing(d: DescriptorView, state: Option<u64>) -> bool {
    d.requires_state && state is None
}

/// Folds the descriptors, in order, into a table. The first descriptor that
/// needs a state that was not supplied, or whose key is already taken, ends
/// the fold with an error.
pub open spec fn assembled(ds: Seq<DescriptorView>, state: Option<u64>) -> Result<
    Map<(Method, Seq<char>), HandlerView>,
    BuildErrorView,
>
    decreases ds.len(),
{
    if ds.len() == 0 {
        Ok(Map::empty())
    } else {
        match assembled(ds.drop_last(), state) {
            Err(e) => Err(e),
            Ok(m) => {
                let d = ds.last();
                if state_missing(d, state) {
                    Err(BuildErrorView::MissingState { method: d.method, path: d.path })
                } else if m.contains_key(key_of(d)) {
                    Err(BuildErrorView::DuplicateRoute { method: d.method, path: d.path })
                } else {
                    Ok(m.insert(key_of(d), entry_handler(d, state)))
                }
            },
        }
    }
}

/// What `build` yields on a registry in state `s`.
pub open spec fn built(s: RegistryState, state: Option<u64>) -> Result<
    Map<(Method, Seq<char>), HandlerView>,
    BuildErrorView,
> {
    match drain_step(s).1 {
        Err(e) => Err(e),
        Ok(ds) => assembled(ds, state),
    }
}

pub proof fn lemma_routes_map_keys(s: Seq<RouteView>)
    ensures
        forall|k: (Method, Seq<char>)| #[trigger]
            routes_map(s).contains_key(k) <==> exists|j: int|
                0 <= j < s.len() && route_key(#[trigger] s[j]) == k,
    decreases s.len(),
{
    if s.len() > 0 {
        let t = s.drop_last();
        lemma_routes_map_keys(t);
        assert forall|k: (Method, Seq<char>)| #[trigger]
            routes_map(s).contains_key(k) <==> exists|j: int|
                0 <= j < s.len() && route_key(#[trigger] s[j]) == k by {
            assert(routes_map(s) == routes_map(t).insert(route_key(s.last()), s.last().handler));
            if routes_map(s).contains_key(k) && k != route_key(s.last()) {
                assert(routes_map(t).contains_key(k));
                let j = choose|j: int| 0 <= j < t.len() && route_key(#[trigger] t[j]) == k;
                assert(s[j] == t[j]);
            }
            if exists|j: int| 0 <= j < s.len() && route_key(#[trigger] s[j]) == k {
                let j = choose|j: int| 0 <= j < s.len() && route_key(#[trigger] s[j]) == k;
                if j < s.len() - 1 {
                    assert(s[j] == t[j]);
                    assert(routes_map(t).contains_key(k));
                }
            }
        }
    }
}

pub proof fn lemma_routes_map_value(s: Seq<RouteView>, j: int)
    requires
        route_keys_distinct(s),
        0 <= j < s.len(),
    ensures
        routes_map(s).contains_key(route_key(s[j])),
        routes_map(s)[route_key(s[j])] == s[j].handler,
    decreases s.len(),
{
    let t = s.drop_last();
    if j < s.len() - 1 {
        assert(t[j] == s[j]);
        assert(route_keys_distinct(t)) by {
            assert forall|a: int, b: int| 0 <= a < b < t.len() implies route_key(#[trigger] t[a])
                != route_key(#[trigger] t[b]) by {
                assert(t[a] == s[a] && t[b] == s[b]);
            }
        }
        lemma_routes_map_value(t, j);
        assert(route_key(s[j]) != route_key(s[s.len() - 1]));
    }
}

pub proof fn lemma_routes_map_len(s: Seq<RouteView>)
    requires
        route_keys_distinct(s),
    ensures
        routes_map(s).dom().finite(),
        routes_map(s).dom().len() == s.len(),
    decreases s.len(),
{
    if s.len() > 0 {
        let t = s.drop_last();
        assert(route_keys_distinct(t)) by {
            assert forall|a: int, b: int| 0 <= a < b < t.len() implies route_key(#[trigger] t[a])
                != route_key(#[trigger] t[b]) by {
                assert(t[a] == s[a] && t[b] == s[b]);
            }
        }
        lemma_routes_map_len(t);
        lemma_routes_map_keys(t);
        if routes_map(t).contains_key(route_key(s.last())) {
            let j = choose|j: int| 0 <= j < t.len() && route_key(#[trigger] t[j]) == route_key(
                s.last(),
            );
            assert(s[j] == t[j]);
        }
        assert(routes_map(s).dom() =~= routes_map(t).dom().insert(route_key(s.last())));
    }
}

proof fn lemma_error_persists(ds: Seq<DescriptorView>, k: int, state: Option<u64>)
    requires
        0 <= k <= ds.len(),
        assembled(ds.take(k), state) is Err,
    ensures
        assembled(ds, state) == assembled(ds.take(k), state),
    decreases ds.len() - k,
{
    if k == ds.len() {
        assert(ds.take(k) =~= ds);
    } else {
        assert(ds.take(k + 1).drop_last() =~= ds.take(k));
        lemma_error_persists(ds, k + 1, state);
    }
}

/// The assembled table from `(method, path)` to a fully composed handler.
#[derive(Debug)]
pub struct DispatchTable {
    routes: Vec<Route>,
}

impl View for DispatchTable {
    type V = Map<(Method, Seq<char>), HandlerView>;

    closed spec fn view(&self) -> Map<(Method, Seq<char>), HandlerView> {
        routes_map(route_views(self.routes@))
    }
}

impl DispatchTable {
    /// No two entries share a key.
    pub closed spec fn wf(&self) -> bool {
        route_keys_distinct(route_views(self.routes@))
    }

    /// The table's entries, one per key.
    pub fn routes(&self) -> (r: &Vec<Route>)
        requires
            self.wf(),
        ensures
            routes_map(route_views(r@)) == self@,
            route_keys_distinct(route_views(r@)),
    {
        &self.routes
    }

    /// The number of routes in the table.
    pub fn len(&self) -> (r: usize)
        requires
            self.wf(),
        ensures
            self@.dom().finite(),
            r == self@.dom().len(),
    {
        proof {
            lemma_routes_map_len(route_views(self.routes@));
        }
        self.routes.len()
    }

    /// The handler routed under `method` and `path`, if there is one.
    pub fn get(&self, method: Method, path: &str) -> (r: Option<&Handler>)
        requires
            self.wf(),
        ensures
            r is Some <==> self@.contains_key((method, path@)),
            r is Some ==> r->Some_0@ == self@[(method, path@)],
    {
        let ghost rv = route_views(self.routes@);
        proof {
            lemma_routes_map_keys(rv);
        }
        let mut j: usize = 0;
        while j < self.routes.len()
            invariant
                rv == route_views(self.routes@),
                j <= rv.len(),
                forall|k: int| 0 <= k < j ==> route_key(#[trigger] rv[k]) != (method, path@),
                route_keys_distinct(rv),
            decreases rv.len() - j,
        {
            let r = &self.routes[j];
            assert(rv[j as int] == r@);
            if r.method == method && same_chars(r.path.as_str(), path) {
                proof {
                    lemma_routes_map_value(rv, j as int);
                }
                return Some(&r.handler);
            }
            j = j + 1;
        }
        None
    }
}

/// Folds drained descriptors into a dispatch table: each handler is bound
/// to `state` when it asks for it and wrapped in its middleware. Fails on
/// the first descriptor that needs a state that was not supplied, or whose
/// `(method, path)` is already in the table; no partial table is returned.
pub fn assemble(descs: Vec<RouteDescriptor>, state: Option<u64>) -> (r: Result<
    DispatchTable,
    BuildError,
>)
    ensures
        match r {
            Ok(t) => t.wf() && assembled(descriptor_views(descs@), state) == Ok::<
                Map<(Method, Seq<char>), HandlerView>,
                BuildErrorView,
            >(t@),
            Err(e) => assembled(descriptor_views(descs@), state) == Err::<
                Map<(Method, Seq<char>), HandlerView>,
                BuildErrorView,
            >(e@),
        },
{
    let ghost dv = descriptor_views(descs@);
    let mut routes: Vec<Route> = Vec::new();
    let n = descs.len();
    let mut i: usize = 0;
    assert(dv.take(0) =~= Seq::<DescriptorView>::empty());
    assert(route_views(routes@) =~= dv.take(0).map_values(|d: DescriptorView| route_of(d, state)));
    while i < n
        invariant
            n == descs@.len(),
            i <= n,
            dv == descriptor_views(descs@),
            route_views(routes@) == dv.take(i as int).map_values(
                |d: DescriptorView| route_of(d, state),
            ),
            route_keys_distinct(route_views(routes@)),
            assembled(dv.take(i as int), state) == Ok::<
                Map<(Method, Seq<char>), HandlerView>,
                BuildErrorView,
            >(routes_map(route_views(routes@))),
        decreases n - i,
    {
        let d = &descs[i];
        let ghost rv = route_views(routes@);
        let ghost pre = dv.take(i + 1);
        assert(pre.drop_last() =~= dv.take(i as int));
        assert(pre.last() == d@);
        if d.requires_state() && state.is_none() {
            proof {
                lemma_error_persists(dv, i + 1, state);
            }
            return Err(BuildError::MissingState { method: d.method(), path: d.path().clone() });
        }
        proof {
            lemma_routes_map_keys(rv);
        }
        let mut j: usize = 0;
        while j < routes.len()
            invariant
                rv == route_views(routes@),
                j <= rv.len(),
                forall|k: int| 0 <= k < j ==> route_key(#[trigger] rv[k]) != key_of(d@),
                i < n,
                n == descs@.len(),
                dv == descriptor_views(descs@),
                d@ == dv[i as int],
                pre == dv.take(i + 1),
                pre.drop_last() == dv.take(i as int),
                pre.last() == d@,
                !state_missing(d@, state),
                assembled(dv.take(i as int), state) == Ok::<
                    Map<(Method, Seq<char>), HandlerView>,
                    BuildErrorView,
                >(routes_map(rv)),
            decreases rv.len() - j,
        {
            let r = &routes[j];
            assert(rv[j as int] == r@);
            if r.method == d.method() && same_chars(r.path.as_str(), d.path().as_str()) {
                proof {
                    lemma_routes_map_keys(rv);
                    assert(route_key(rv[j as int]) == key_of(d@));
                    assert(routes_map(rv).contains_key(key_of(d@)));
                    lemma_error_persists(dv, i + 1, state);
                }
                return Err(BuildError::DuplicateRoute { method: d.method(), path: d.path().clone() });
            }
            j = j + 1;
        }
        proof {
            lemma_routes_map_keys(rv);
        }
        let bound = if d.requires_state() {
            state
        } else {
            None
        };
        let base = Handler::Base { name: d.handler().clone(), state: bound };
        let handler = compose(base, d.middleware());
        let route = Route { method: d.method(), path: d.path().clone(), handler };
        assert(route@ == route_of(d@, state));
        routes.push(route);
        assert(route_views(routes@) =~= rv.push(route_of(d@, state)));
        assert(route_views(routes@).drop_last() =~= rv);
        assert(route_views(routes@) =~= dv.take(i + 1).map_values(
            |d: DescriptorView| route_of(d, state),
        ));
        i = i + 1;
    }
    assert(dv.take(n as int) =~= dv);
    Ok(DispatchTable { routes })
}

/// Drains the registry and assembles what it held. Runs once: a second call
/// fails with `AlreadyDrained`.
pub fn build(registry: &mut Registry, state: Option<u64>) -> (r: Result<DispatchTable, BuildError>)
    ensures
        final(registry)@ == drain_step(old(registry)@).0,
        match r {
            Ok(t) => t.wf() && built(old(registry)@, state) == Ok::<
                Map<(Method, Seq<char>), HandlerView>,
                BuildErrorView,
            >(t@),
            Err(e) => built(old(registry)@, state) == Err::<
                Map<(Method, Seq<char>), HandlerView>,
                BuildErrorView,
            >(e@),
        },
{
    match registry.drain() {
        Err(e) => Err(e),
        Ok(descs) => assemble(descs, state),
    }
}

} // verus!
