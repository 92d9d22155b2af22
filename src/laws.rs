use vstd::prelude::*;
use crate::assemble::{
    assembled, built, entry_handler, key_of, lemma_routes_map_keys, lemma_routes_map_value,
    route_key, route_keys_distinct, route_of, routes_map, state_missing, RouteView,
};
use crate::compose::{enters, leaves, lemma_trace_of_composed, trace, EventView};
use crate::compose::HandlerView;
use crate::descriptor::{DescriptorView, Method};
use crate::registry::{drain_step, BuildErrorView, RegistryState};

verus! {

/// No two descriptors share a `(method, path)`.
pub open spec fn keys_distinct(ds: Seq<DescriptorView>) -> bool {
    forall|i: int, j: int| 0 <= i < j < ds.len() ==> key_of(#[trigger] ds[i]) != key_of(#[trigger] ds[j])
}

/// Every descriptor that needs a state gets one.
pub open spec fn state_satisfied(ds: Seq<DescriptorView>, state: Option<u64>) -> bool {
    forall|i: int| 0 <= i < ds.len() ==> !state_missing(#[trigger] ds[i], state)
}

/// The routes that the descriptors describe, in order.
pub open spec fn planned(ds: Seq<DescriptorView>, state: Option<u64>) -> Seq<RouteView> {
    ds.map_values(|d: DescriptorView| route_of(d, state))
}

/// `b` holds the descriptors of `a` in another order: `b[i]` is `a[p[i]]`,
/// and `p` is a bijection between the positions.
pub open spec fn is_reordering(a: Seq<DescriptorView>, b: Seq<DescriptorView>, p: Seq<int>) -> bool {
    &&& a.len() == b.len()
    &&& p.len() == b.len()
    &&& forall|i: int| 0 <= i < b.len() ==> 0 <= #[trigger] p[i] < a.len() && b[i] == a[p[i]]
    &&& forall|i: int, j: int| 0 <= i < j < b.len() ==> #[trigger] p[i] != #[trigger] p[j]
    &&& forall|k: int|
        #![trigger a[k]]
        0 <= k < a.len() ==> exists|i: int| 0 <= i < b.len() && #[trigger] p[i] == k && b[i] == a[k]
}

proof fn lemma_planned_distinct(ds: Seq<DescriptorView>, state: Option<u64>)
    requires
        keys_distinct(ds),
    ensures
        route_keys_distinct(planned(ds, state)),
{
    let s = planned(ds, state);
    assert forall|i: int, j: int| 0 <= i < j < s.len() implies route_key(#[trigger] s[i])
        != route_key(#[trigger] s[j]) by {
        assert(key_of(ds[i]) != key_of(ds[j]));
    }
}

/// Assembly succeeds exactly when every descriptor that needs a state gets
/// one and no two descriptors share a key; the table then maps each key to
/// the handler of its one descriptor.
pub proof fn lemma_assembled_ok(ds: Seq<DescriptorView>, state: Option<u64>)
    ensures
        (assembled(ds, state) is Ok) <==> (state_satisfied(ds, state) && keys_distinct(ds)),
        assembled(ds, state) is Ok ==> assembled(ds, state)->Ok_0 == routes_map(
            planned(ds, state),
        ),
    decreases ds.len(),
{
    if ds.len() > 0 {
        let t = ds.drop_last();
        let d = ds.last();
        let n = ds.len() - 1;
        lemma_assembled_ok(t, state);
        assert(planned(ds, state).drop_last() =~= planned(t, state));
        assert(forall|i: int| 0 <= i < n ==> #[trigger] t[i] == ds[i]);
        if state_satisfied(ds, state) {
            assert(state_satisfied(t, state));
        }
        if keys_distinct(ds) {
            assert(keys_distinct(t));
        }
        if assembled(t, state) is Ok {
            let m = routes_map(planned(t, state));
            lemma_routes_map_keys(planned(t, state));
            if m.contains_key(key_of(d)) {
                let j = choose|j: int|
                    0 <= j < planned(t, state).len() && route_key(
                        #[trigger] planned(t, state)[j],
                    ) == key_of(d);
                assert(key_of(ds[j]) == key_of(ds[n]));
            } else {
                if state_satisfied(t, state) && !state_missing(d, state) {
                    assert forall|i: int| 0 <= i < ds.len() implies !state_missing(
                        #[trigger] ds[i],
                        state,
                    ) by {
                        if i < n {
                            assert(t[i] == ds[i]);
                        }
                    }
                }
                if keys_distinct(t) {
                    assert forall|i: int, j: int| 0 <= i < j < ds.len() implies key_of(
                        #[trigger] ds[i],
                    ) != key_of(#[trigger] ds[j]) by {
                        if j == n {
                            assert(route_key(planned(t, state)[i]) == key_of(ds[i]));
                        } else {
                            assert(key_of(t[i]) != key_of(t[j]));
                        }
                    }
                }
            }
        }
    }
}

/// An assembly error names what caused it: a descriptor that lacks its
/// state, or a key that two descriptors share.
pub proof fn lemma_assembled_err(ds: Seq<DescriptorView>, state: Option<u64>)
    ensures
        match assembled(ds, state) {
            Ok(_) => true,
            Err(BuildErrorView::AlreadyDrained) => false,
            Err(BuildErrorView::MissingState { method, path }) => exists|i: int|
                0 <= i < ds.len() && state_missing(#[trigger] ds[i], state) && key_of(ds[i]) == (
                method,
                path,
            ),
            Err(BuildErrorView::DuplicateRoute { method, path }) => exists|i: int, j: int|
                0 <= i < j < ds.len() && key_of(#[trigger] ds[i]) == (method, path) && key_of(
                    #[trigger] ds[j],
                ) == (method, path),
        },
    decreases ds.len(),
{
    if ds.len() > 0 {
        let t = ds.drop_last();
        let d = ds.last();
        let n = ds.len() - 1;
        lemma_assembled_err(t, state);
        lemma_assembled_ok(t, state);
        assert(forall|i: int| 0 <= i < n ==> #[trigger] t[i] == ds[i]);
        match assembled(t, state) {
            Err(BuildErrorView::MissingState { method, path }) => {
                let i = choose|i: int|
                    0 <= i < t.len() && state_missing(#[trigger] t[i], state) && key_of(t[i]) == (
                    method,
                    path,
                );
                assert(ds[i] == t[i]);
            },
            Err(BuildErrorView::DuplicateRoute { method, path }) => {
                let (i, j) = choose|i: int, j: int|
                    0 <= i < j < t.len() && key_of(#[trigger] t[i]) == (method, path) && key_of(
                        #[trigger] t[j],
                    ) == (method, path);
                assert(ds[i] == t[i] && ds[j] == t[j]);
            },
            Err(BuildErrorView::AlreadyDrained) => {},
            Ok(m) => {
                if state_missing(d, state) {
                    assert(state_missing(ds[n], state));
                } else if m.contains_key(key_of(d)) {
                    lemma_routes_map_keys(planned(t, state));
                    let j = choose|j: int|
                        0 <= j < planned(t, state).len() && route_key(
                            #[trigger] planned(t, state)[j],
                        ) == key_of(d);
                    assert(key_of(ds[j]) == key_of(ds[n]));
                }
            },
        }
    }
}

/// Registration order does not matter: assembling the same descriptors in
/// any order succeeds or fails alike, and on success yields the same table.
pub proof fn lemma_assembly_order_independent(
    a: Seq<DescriptorView>,
    b: Seq<DescriptorView>,
    p: Seq<int>,
    state: Option<u64>,
)
    requires
        is_reordering(a, b, p),
    ensures
        (assembled(a, state) is Ok) == (assembled(b, state) is Ok),
        assembled(a, state) is Ok ==> assembled(a, state) == assembled(b, state),
{
    lemma_assembled_ok(a, state);
    lemma_assembled_ok(b, state);
    if state_satisfied(a, state) {
        assert forall|i: int| 0 <= i < b.len() implies !state_missing(#[trigger] b[i], state) by {
            assert(b[i] == a[p[i]]);
        }
    }
    if state_satisfied(b, state) {
        assert forall|k: int| 0 <= k < a.len() implies !state_missing(#[trigger] a[k], state) by {
            assert(a[k] == a[k]);
            let i = choose|i: int| 0 <= i < b.len() && #[trigger] p[i] == k && b[i] == a[k];
        }
    }
    if keys_distinct(a) {
        assert forall|i: int, j: int| 0 <= i < j < b.len() implies key_of(#[trigger] b[i])
            != key_of(#[trigger] b[j]) by {
            assert(p[i] != p[j]);
            assert(b[i] == a[p[i]] && b[j] == a[p[j]]);
            if p[i] < p[j] {
                assert(key_of(a[p[i]]) != key_of(a[p[j]]));
            } else {
                assert(key_of(a[p[j]]) != key_of(a[p[i]]));
            }
        }
    }
    if keys_distinct(b) {
        assert forall|k1: int, k2: int| 0 <= k1 < k2 < a.len() implies key_of(#[trigger] a[k1])
            != key_of(#[trigger] a[k2]) by {
            assert(a[k1] == a[k1] && a[k2] == a[k2]);
            let i1 = choose|i: int| 0 <= i < b.len() && #[trigger] p[i] == k1 && b[i] == a[k1];
            let i2 = choose|i: int| 0 <= i < b.len() && #[trigger] p[i] == k2 && b[i] == a[k2];
            assert(b[i1] == a[k1] && b[i2] == a[k2]);
            if i1 < i2 {
                assert(key_of(b[i1]) != key_of(b[i2]));
            } else {
                assert(i1 != i2);
                assert(key_of(b[i2]) != key_of(b[i1]));
            }
        }
    }
    if assembled(a, state) is Ok {
        let pa = planned(a, state);
        let pb = planned(b, state);
        lemma_planned_distinct(a, state);
        lemma_planned_distinct(b, state);
        lemma_routes_map_keys(pa);
        lemma_routes_map_keys(pb);
        let ma = routes_map(pa);
        let mb = routes_map(pb);
        assert forall|k: (Method, Seq<char>)| #[trigger] ma.contains_key(k) implies mb.contains_key(k)
            && mb[k] == ma[k] by {
            let j = choose|j: int| 0 <= j < pa.len() && route_key(#[trigger] pa[j]) == k;
            assert(a[j] == a[j]);
            let i = choose|i: int| 0 <= i < b.len() && #[trigger] p[i] == j && b[i] == a[j];
            assert(pb[i] == pa[j]);
            lemma_routes_map_value(pa, j);
            lemma_routes_map_value(pb, i);
        }
        assert forall|k: (Method, Seq<char>)| mb.contains_key(k) implies ma.contains_key(k) by {
            let i = choose|i: int| 0 <= i < pb.len() && route_key(#[trigger] pb[i]) == k;
            assert(pb[i] == pa[p[i]]);
            assert(route_key(pa[p[i]]) == k);
        }
        assert forall|k: (Method, Seq<char>)| #[trigger] ma.dom().contains(k) == mb.dom().contains(
            k,
        ) by {
            if ma.contains_key(k) {
                let j = choose|j: int| 0 <= j < pa.len() && route_key(#[trigger] pa[j]) == k;
                assert(a[j] == a[j]);
                let i = choose|i: int| 0 <= i < b.len() && #[trigger] p[i] == j && b[i] == a[j];
                assert(pb[i] == pa[j]);
                assert(route_key(pb[i]) == k);
            }
            if mb.contains_key(k) {
                assert(ma.contains_key(k));
            }
        }
        assert(ma.dom() =~= mb.dom());
        assert(ma =~= mb);
    }
}

/// Whenever two descriptors share a key, and none lacks its state,
/// assembly fails with `DuplicateRoute` naming a key that two descriptors
/// share, whichever of them registered first.
pub proof fn lemma_duplicate_rejected(
    ds: Seq<DescriptorView>,
    state: Option<u64>,
    i: int,
    j: int,
)
    requires
        0 <= i < j < ds.len(),
        key_of(ds[i]) == key_of(ds[j]),
        state_satisfied(ds, state),
    ensures
        match assembled(ds, state) {
            Err(BuildErrorView::DuplicateRoute { method, path }) => exists|a: int, b: int|
                0 <= a < b < ds.len() && key_of(#[trigger] ds[a]) == (method, path) && key_of(
                    #[trigger] ds[b],
                ) == (method, path),
            _ => false,
        },
{
    lemma_assembled_ok(ds, state);
    lemma_assembled_err(ds, state);
    match assembled(ds, state) {
        Err(BuildErrorView::MissingState { method, path }) => {
            let k = choose|k: int|
                0 <= k < ds.len() && state_missing(#[trigger] ds[k], state) && key_of(ds[k]) == (
                method,
                path,
            );
            assert(!state_missing(ds[k], state));
        },
        _ => {},
    }
}

/// A descriptor that needs a state, assembled without one, makes assembly
/// fail: no table is produced. Where no key is shared, the error is
/// `MissingState`, naming a descriptor that needs a state.
pub proof fn lemma_missing_state_rejected(ds: Seq<DescriptorView>, i: int)
    requires
        0 <= i < ds.len(),
        ds[i].requires_state,
    ensures
        assembled(ds, None) is Err,
        keys_distinct(ds) ==> match assembled(ds, None) {
            Err(BuildErrorView::MissingState { method, path }) => exists|k: int|
                0 <= k < ds.len() && (#[trigger] ds[k]).requires_state && key_of(ds[k]) == (
                method,
                path,
            ),
            _ => false,
        },
{
    lemma_assembled_ok(ds, None);
    lemma_assembled_err(ds, None);
    assert(state_missing(ds[i], None));
    if keys_distinct(ds) {
        match assembled(ds, None) {
            Err(BuildErrorView::DuplicateRoute { method, path }) => {
                let (a, b) = choose|a: int, b: int|
                    0 <= a < b < ds.len() && key_of(#[trigger] ds[a]) == (method, path) && key_of(
                        #[trigger] ds[b],
                    ) == (method, path);
                assert(key_of(ds[a]) != key_of(ds[b]));
            },
            Err(BuildErrorView::MissingState { method, path }) => {
                let k = choose|k: int|
                    0 <= k < ds.len() && state_missing(#[trigger] ds[k], None) && key_of(ds[k]) == (
                    method,
                    path,
                );
                assert(ds[k].requires_state);
            },
            _ => {},
        }
    }
}

/// In an assembled table, the handler of each descriptor enters its
/// middleware in declared order, runs the base handler (bound to the state
/// when it asks for one), and leaves the middleware in reverse order,
/// however many other descriptors were registered around it.
pub proof fn lemma_middleware_order(ds: Seq<DescriptorView>, state: Option<u64>, i: int)
    requires
        0 <= i < ds.len(),
        assembled(ds, state) is Ok,
    ensures
        assembled(ds, state)->Ok_0.contains_key(key_of(ds[i])),
        trace(assembled(ds, state)->Ok_0[key_of(ds[i])]) == enters(ds[i].middleware) + seq![
            EventView::Call {
                handler: ds[i].handler,
                state: if ds[i].requires_state {
                    state
                } else {
                    None
                },
            },
        ] + leaves(ds[i].middleware),
{
    lemma_assembled_ok(ds, state);
    lemma_planned_distinct(ds, state);
    lemma_routes_map_value(planned(ds, state), i);
    let d = ds[i];
    let base = HandlerView::Base {
        name: d.handler,
        state: if d.requires_state {
            state
        } else {
            None
        },
    };
    lemma_trace_of_composed(base, d.middleware);
    assert(entry_handler(d, state) == crate::compose::composed(base, d.middleware));
}

/// Building is one-shot: once a build has drained the registry, a second
/// build fails with `AlreadyDrained`, whatever state it is given.
pub proof fn lemma_second_build_fails(s: RegistryState, second: Option<u64>)
    ensures
        built(drain_step(s).0, second) == Err::<
            Map<(Method, Seq<char>), HandlerView>,
            BuildErrorView,
        >(BuildErrorView::AlreadyDrained),
{
}

} // verus!
