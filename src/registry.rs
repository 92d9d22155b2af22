use vstd::prelude::*;
use crate::descriptor::{DescriptorView, Method, RouteDescriptor};

verus! {

/// Why assembling the dispatch table failed.
#[derive(Debug, PartialEq, Eq)]
pub enum BuildError {
    /// The registry was already drained: assembly runs once.
    AlreadyDrained,
    /// A route that needs application state was assembled without one.
    MissingState { method: Method, path: String },
    /// Two declarations claim the same method and path.
    DuplicateRoute { method: Method, path: String },
}

pub enum BuildErrorView {
    AlreadyDrained,
    MissingState { method: Method, path: Seq<char> },
    DuplicateRoute { method: Method, path: Seq<char> },
}

impl View for BuildError {
    type V = BuildErrorView;

    open spec fn view(&self) -> BuildErrorView {
        match self {
            BuildError::AlreadyDrained => BuildErrorView::AlreadyDrained,
            BuildError::MissingState { method, path } => BuildErrorView::MissingState {
                method: *method,
                path: path@,
            },
            BuildError::DuplicateRoute { method, path } => BuildErrorView::DuplicateRoute {
                method: *method,
                path: path@,
            },
        }
    }
}

pub open spec fn descriptor_views(s: Seq<RouteDescriptor>) -> Seq<DescriptorView> {
    s.map_values(|d: RouteDescriptor| d@)
}

/// The registry's contents and whether it has been drained.
pub struct RegistryState {
    pub pending: Seq<DescriptorView>,
    pub drained: bool,
}

/// The collection that route descriptors are registered into before the
/// dispatch table is assembled. It accepts descriptors until it is drained,
/// once; after that it accepts nothing.
pub struct Registry {
    pending: Vec<RouteDescriptor>,
    drained: bool,
}

impl View for Registry {
    type V = RegistryState;

    closed spec fn view(&self) -> RegistryState {
        RegistryState { pending: descriptor_views(self.pending@), drained: self.drained }
    }
}

/// The state after an insert, and its outcome.
pub open spec fn insert_step(s: RegistryState, d: DescriptorView) -> (
    RegistryState,
    Result<(), BuildErrorView>,
) {
    if s.drained {
        (s, Err(BuildErrorView::AlreadyDrained))
    } else {
        (RegistryState { pending: s.pending.push(d), drained: false }, Ok(()))
    }
}

/// The state after a drain, and its outcome.
pub open spec fn drain_step(s: RegistryState) -> (
    RegistryState,
    Result<Seq<DescriptorView>, BuildErrorView>,
) {
    if s.drained {
        (s, Err(BuildErrorView::AlreadyDrained))
    } else {
        (RegistryState { pending: seq![], drained: true }, Ok(s.pending))
    }
}

/// Draining is one-shot: whatever the state, a second drain fails with
/// `AlreadyDrained` and leaves the registry as the first one left it.
pub proof fn lemma_second_drain_fails(s: RegistryState)
    ensures
        drain_step(drain_step(s).0).1 == Err::<Seq<DescriptorView>, BuildErrorView>(
            BuildErrorView::AlreadyDrained,
        ),
        drain_step(drain_step(s).0).0 == drain_step(s).0,
{
}

/// After a drain no insert is accepted.
pub proof fn lemma_no_insert_after_drain(s: RegistryState, d: DescriptorView)
    ensures
        insert_step(drain_step(s).0, d).1 == Err::<(), BuildErrorView>(
            BuildErrorView::AlreadyDrained,
        ),
{
}

impl Registry {
    /// An empty registry that accepts descriptors.
    pub fn new() -> (r: Registry)
        ensures
            r@.pending == Seq::<DescriptorView>::empty(),
            !r@.drained,
    {
        let r = Registry { pending: Vec::new(), drained: false };
        assert(r@.pending =~= Seq::<DescriptorView>::empty());
        r
    }

    /// Adds a descriptor; refused once the registry has been drained.
    pub fn insert(&mut self, d: RouteDescriptor) -> (r: Result<(), BuildError>)
        ensures
            final(self)@ == insert_step(old(self)@, d@).0,
            match r {
                Ok(()) => insert_step(old(self)@, d@).1 is Ok,
                Err(e) => insert_step(old(self)@, d@).1 == Err::<(), BuildErrorView>(e@),
            },
    {
        if self.drained {
            return Err(BuildError::AlreadyDrained);
        }
        let ghost dv = d@;
        self.pending.push(d);
        assert(self@.pending =~= old(self)@.pending.push(dv));
        Ok(())
    }

    /// Whether the registry has been drained.
    pub fn is_drained(&self) -> (r: bool)
        ensures
            r == self@.drained,
    {
        self.drained
    }

    /// The number of descriptors waiting to be assembled.
    pub fn len(&self) -> (r: usize)
        ensures
            r == self@.pending.len(),
    {
        self.pending.len()
    }

    /// Hands out every registered descriptor, in the order of insertion,
    /// and closes the registry. A second call fails with `AlreadyDrained`.
    pub fn drain(&mut self) -> (r: Result<Vec<RouteDescriptor>, BuildError>)
        ensures
            final(self)@ == drain_step(old(self)@).0,
            match r {
                Ok(v) => drain_step(old(self)@).1 == Ok::<
                    Seq<DescriptorView>,
                    BuildErrorView,
                >(descriptor_views(v@)),
                Err(e) => drain_step(old(self)@).1 == Err::<Seq<DescriptorView>, BuildErrorView>(
                    e@,
                ),
            },
    {
        if self.drained {
            return Err(BuildError::AlreadyDrained);
        }
        let mut out: Vec<RouteDescriptor> = Vec::new();
        std::mem::swap(&mut out, &mut self.pending);
        self.drained = true;
        assert(self@.pending =~= Seq::<DescriptorView>::empty());
        Ok(out)
    }
}

} // verus!
