use vstd::prelude::*;
use crate::descriptor::string_views;

verus! {

/// A request handler, possibly wrapped in middleware layers. The base is a
/// named handler, bound to an application state handle when it needs one.
#[derive(Debug)]
pub enum Handler {
    Base { name: String, state: Option<u64> },
    Layer { middleware: String, inner: Box<Handler> },
}

pub enum HandlerView {
    Base { name: Seq<char>, state: Option<u64> },
    Layer { middleware: Seq<char>, inner: Box<HandlerView> },
}

pub open spec fn handler_view(h: Handler) -> HandlerView
    decreases h,
{
    match h {
        Handler::Base { name, state } => HandlerView::Base { name: name@, state },
        Handler::Layer { middleware, inner } => HandlerView::Layer {
            middleware: middleware@,
            inner: Box::new(handler_view(*inner)),
        },
    }
}

impl View for Handler {
    type V = HandlerView;

    open spec fn view(&self) -> HandlerView {
        handler_view(*self)
    }
}

/// One step observed while a request passes through a composed handler.
#[derive(Debug, PartialEq, Eq)]
pub enum Event {
    /// A middleware layer sees the request on its way in.
    Enter(String),
    /// The base handler runs, with the state bound to it.
    Call { handler: String, state: Option<u64> },
    /// A middleware layer sees the response on its way out.
    Leave(String),
}

pub enum EventView {
    Enter(Seq<char>),
    Call { handler: Seq<char>, state: Option<u64> },
    Leave(Seq<char>),
}

impl View for Event {
    type V = EventView;

    open spec fn view(&self) -> EventView {
        match self {
            Event::Enter(m) => EventView::Enter(m@),
            Event::Call { handler, state } => EventView::Call { handler: handler@, state: *state },
            Event::Leave(m) => EventView::Leave(m@),
        }
    }
}

pub open spec fn event_views(s: Seq<Event>) -> Seq<EventView> {
    s.map_values(|e: Event| e@)
}

/// `m1(m2(...(mk(base))...))` for the middleware list `[m1, ..., mk]`.
pub open spec fn composed(base: HandlerView, mws: Seq<Seq<char>>) -> HandlerView
    decreases mws.len(),
{
    if mws.len() == 0 {
        base
    } else {
        HandlerView::Layer { middleware: mws[0], inner: Box::new(composed(base, mws.drop_first())) }
    }
}

/// The steps that running a handler goes through, in order.
pub open spec fn trace(h: HandlerView) -> Seq<EventView>
    decreases h,
{
    match h {
        HandlerView::Base { name, state } => seq![EventView::Call { handler: name, state }],
        HandlerView::Layer { middleware, inner } => seq![EventView::Enter(middleware)] + trace(
            *inner,
        ) + seq![EventView::Leave(middleware)],
    }
}

pub open spec fn enters(mws: Seq<Seq<char>>) -> Seq<EventView> {
    mws.map_values(|m: Seq<char>| EventView::Enter(m))
}

pub open spec fn leaves(mws: Seq<Seq<char>>) -> Seq<EventView> {
    mws.reverse().map_values(|m: Seq<char>| EventView::Leave(m))
}

/// Middleware order is fixed by the declared list alone: the composed
/// handler enters each layer in declared order, runs the base handler, then
/// leaves the layers in reverse order.
pub proof fn lemma_trace_of_composed(base: HandlerView, mws: Seq<Seq<char>>)
    ensures
        trace(composed(base, mws)) == enters(mws) + trace(base) + leaves(mws),
    decreases mws.len(),
{
    if mws.len() == 0 {
        assert(enters(mws) =~= Seq::<EventView>::empty());
        assert(leaves(mws) =~= Seq::<EventView>::empty());
        assert(enters(mws) + trace(base) + leaves(mws) =~= trace(base));
    } else {
        let tail = mws.drop_first();
        lemma_trace_of_composed(base, tail);
        assert(enters(mws) =~= seq![EventView::Enter(mws[0])] + enters(tail));
        assert(mws.reverse() =~= tail.reverse().push(mws[0]));
        assert(leaves(mws) =~= leaves(tail) + seq![EventView::Leave(mws[0])]);
        assert(trace(composed(base, mws)) =~= enters(mws) + trace(base) + leaves(mws));
    }
}

proof fn lemma_composed_step(base: HandlerView, mws: Seq<Seq<char>>, i: int)
    requires
        0 < i <= mws.len(),
    ensures
        composed(base, mws.subrange(i - 1, mws.len() as int)) == (HandlerView::Layer {
            middleware: mws[i - 1],
            inner: Box::new(composed(base, mws.subrange(i, mws.len() as int))),
        }),
{
    let s = mws.subrange(i - 1, mws.len() as int);
    assert(s.drop_first() =~= mws.subrange(i, mws.len() as int));
}

/// Wraps `base` in the middleware list, the first listed outermost.
pub fn compose(base: Handler, mws: &Vec<String>) -> (r: Handler)
    ensures
        r@ == composed(base@, string_views(mws@)),
{
    let ghost sv = string_views(mws@);
    let mut acc = base;
    let mut i = mws.len();
    assert(sv.subrange(i as int, i as int) =~= Seq::<Seq<char>>::empty());
    while i > 0
        invariant
            i <= mws@.len(),
            sv == string_views(mws@),
            acc@ == composed(base@, sv.subrange(i as int, sv.len() as int)),
        decreases i,
    {
        proof {
            lemma_composed_step(base@, sv, i as int);
        }
        let m = mws[i - 1].clone();
        acc = Handler::Layer { middleware: m, inner: Box::new(acc) };
        i = i - 1;
    }
    assert(sv.subrange(0, sv.len() as int) =~= sv);
    acc
}

impl Handler {
    /// Runs the handler and reports the steps it went through.
    pub fn invoke(&self) -> (r: Vec<Event>)
        ensures
            event_views(r@) == trace(self@),
        decreases self,
    {
        match self {
            Handler::Base { name, state } => {
                let mut v: Vec<Event> = Vec::new();
                v.push(Event::Call { handler: name.clone(), state: *state });
                assert(event_views(v@) =~= trace(self@));
                v
            },
            Handler::Layer { middleware, inner } => {
                let mut v: Vec<Event> = Vec::new();
                v.push(Event::Enter(middleware.clone()));
                let mut inner_steps = inner.invoke();
                let ghost first = v@;
                let ghost mid = inner_steps@;
                v.append(&mut inner_steps);
                v.push(Event::Leave(middleware.clone()));
                assert(event_views(v@) =~= event_views(first) + event_views(mid) + seq![
                    EventView::Leave(middleware@),
                ]);
                assert(event_views(v@) =~= trace(self@));
                v
            },
        }
    }
}

} // verus!
