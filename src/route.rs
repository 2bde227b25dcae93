use vstd::prelude::*;

verus! {

/// A compile unit that, on demand, writes its asset graph to disk.
#[derive(Clone, Copy, Debug, PartialEq, Eq, Structural)]
pub struct Endpoint {
    pub id: u64,
}

/// One page of an app-router route.
#[derive(Clone, Debug)]
pub struct AppPageRoute {
    pub original_name: String,
    pub html_endpoint: Endpoint,
}

/// A named build entry point, by kind.
#[derive(Clone, Debug)]
pub enum Route {
    Page { html_endpoint: Endpoint, data_endpoint: Endpoint },
    PageApi { endpoint: Endpoint },
    AppPage(Vec<AppPageRoute>),
    AppRoute { original_name: String, endpoint: Endpoint },
    Conflict,
}

/// What building one route does: the endpoints written, in order, and
/// whether a conflict is reported.
pub struct RoutePlan {
    pub endpoints: Vec<Endpoint>,
    pub conflict: bool,
}

/// The endpoints that building `r` writes, in order.
pub open spec fn route_writes(r: Route) -> Seq<Endpoint> {
    match r {
        Route::Page { html_endpoint, .. } => seq![html_endpoint],
        Route::PageApi { endpoint } => seq![endpoint],
        Route::AppPage(pages) => pages@.map_values(|p: AppPageRoute| p.html_endpoint),
        Route::AppRoute { endpoint, .. } => seq![endpoint],
        Route::Conflict => seq![],
    }
}

/// Decides what building `route` does.
pub fn plan_route(route: &Route) -> (r: RoutePlan)
    ensures
        r.endpoints@ == route_writes(*route),
        r.conflict == (*route is Conflict),
{
    match route {
        Route::Page { html_endpoint, data_endpoint: _ } => {
            RoutePlan { endpoints: vec![*html_endpoint], conflict: false }
        },
        Route::PageApi { endpoint } => RoutePlan { endpoints: vec![*endpoint], conflict: false },
        Route::AppPage(pages) => {
            let mut endpoints: Vec<Endpoint> = Vec::new();
            let mut i: usize = 0;
            while i < pages.len()
                invariant
                    i <= pages.len(),
                    endpoints@ == pages@.subrange(0, i as int).map_values(
                        |p: AppPageRoute| p.html_endpoint,
                    ),
                decreases pages.len() - i,
            {
                endpoints.push(pages[i].html_endpoint);
                i = i + 1;
                assert(endpoints@ =~= pages@.subrange(0, i as int).map_values(
                    |p: AppPageRoute| p.html_endpoint,
                ));
            }
            assert(pages@.subrange(0, i as int) =~= pages@);
            RoutePlan { endpoints, conflict: false }
        },
        Route::AppRoute { original_name: _, endpoint } => {
            RoutePlan { endpoints: vec![*endpoint], conflict: false }
        },
        Route::Conflict => RoutePlan { endpoints: Vec::new(), conflict: true },
    }
}

/// A page route writes its html endpoint alone, never its data endpoint; an
/// app page writes one endpoint for each of its pages, that page's html
/// endpoint; a conflict writes nothing and is reported once.
pub proof fn lemma_route_dispatch(r: Route)
    ensures
        r matches Route::Page { html_endpoint, data_endpoint } ==> route_writes(r) == seq![
            html_endpoint,
        ],
        r matches Route::AppPage(pages) ==> route_writes(r).len() == pages@.len() && forall|i: int|
            0 <= i < pages@.len() ==> #[trigger] route_writes(r)[i] == pages@[i].html_endpoint,
        r is Conflict ==> route_writes(r).len() == 0,
        r is PageApi || r is AppRoute ==> route_writes(r).len() == 1,
{
}

/// The next thing the build driver asks for.
#[derive(Clone, Copy, Debug, PartialEq, Eq, Structural)]
pub enum DriverAction {
    /// Write this endpoint of the current route to disk.
    Write(Endpoint),
    /// Report that the route at this position is a conflict.
    WarnConflict(usize),
    /// Run one garbage collection pass and report whether it freed anything.
    CollectGarbage,
    /// Every route is built.
    Finish,
}

/// Builds routes one after another: writes each route's endpoints, reports a
/// conflict once, then collects garbage until a pass frees nothing.
pub struct BuildDriver {
    plans: Vec<RoutePlan>,
    route: usize,
    written: usize,
    warned: bool,
}

impl BuildDriver {
    pub closed spec fn plans(&self) -> Seq<RoutePlan> {
        self.plans@
    }

    /// Position of the route being built.
    pub closed spec fn route(&self) -> nat {
        self.route as nat
    }

    /// How many endpoints of the current route are written.
    pub closed spec fn written(&self) -> nat {
        self.written as nat
    }

    /// Whether the current route's conflict has been reported.
    pub closed spec fn warned(&self) -> bool {
        self.warned
    }

    pub open spec fn wf(&self) -> bool {
        &&& self.route() <= self.plans().len()
        &&& self.route() < self.plans().len() ==> self.written() <= self.plans()[self.route() as int].endpoints@.len()
    }

    /// The current route is fully written and reported.
    pub open spec fn route_done(&self) -> bool {
        let p = self.plans()[self.route() as int];
        self.written() == p.endpoints@.len() && (p.conflict ==> self.warned())
    }

    /// What the driver asks for next.
    pub open spec fn spec_next(&self) -> DriverAction {
        if self.route() >= self.plans().len() {
            DriverAction::Finish
        } else {
            let p = self.plans()[self.route() as int];
            if p.conflict && !self.warned() {
                DriverAction::WarnConflict(self.route() as usize)
            } else if self.written() < p.endpoints@.len() {
                DriverAction::Write(p.endpoints@[self.written() as int])
            } else {
                DriverAction::CollectGarbage
            }
        }
    }

    /// A driver at the first route of `plans`.
    pub fn new(plans: Vec<RoutePlan>) -> (r: BuildDriver)
        ensures
            r.wf(),
            r.plans() == plans@,
            r.route() == 0,
            r.written() == 0,
            !r.warned(),
    {
        BuildDriver { plans, route: 0, written: 0, warned: false }
    }

    /// Position of the route being built; the number of routes once all are.
    pub fn current_route(&self) -> (r: usize)
        ensures
            r == self.route(),
    {
        self.route
    }

    /// What the driver asks for next.
    pub fn next_action(&self) -> (r: DriverAction)
        requires
            self.wf(),
        ensures
            r == self.spec_next(),
    {
        if self.route >= self.plans.len() {
            return DriverAction::Finish;
        }
        let p = &self.plans[self.route];
        if p.conflict && !self.warned {
            DriverAction::WarnConflict(self.route)
        } else if self.written < p.endpoints.len() {
            DriverAction::Write(p.endpoints[self.written])
        } else {
            DriverAction::CollectGarbage
        }
    }

    /// Takes the outcome of the action that `next_action` asked for: a write
    /// or a report is done, or a collection pass freed something (`freed`) or
    /// nothing. A pass that frees nothing ends the route.
    pub fn on_done(&mut self, freed: bool)
        requires
            old(self).wf(),
        ensures
            final(self).wf(),
            final(self).plans() == old(self).plans(),
            old(self).spec_next() matches DriverAction::Write(_) ==> final(self).route() == old(
                self,
            ).route() && final(self).written() == old(self).written() + 1 && final(self).warned()
                == old(self).warned(),
            old(self).spec_next() is WarnConflict ==> final(self).route() == old(self).route()
                && final(self).written() == old(self).written() && final(self).warned(),
            old(self).spec_next() is CollectGarbage && freed ==> final(self).route() == old(
                self,
            ).route() && final(self).written() == old(self).written() && final(self).warned()
                == old(self).warned(),
            old(self).spec_next() is CollectGarbage && !freed ==> final(self).route() == old(
                self,
            ).route() + 1 && final(self).written() == 0 && !final(self).warned(),
            old(self).spec_next() is Finish ==> *final(self) == *old(self),
    {
        if self.route < self.plans.len() {
            let n = self.plans[self.route].endpoints.len();
            if self.plans[self.route].conflict && !self.warned {
                self.warned = true;
            } else if self.written < n {
                self.written = self.written + 1;
            } else if !freed {
                self.route = self.route + 1;
                self.written = 0;
                self.warned = false;
            }
        }
    }
}

/// At a conflict route the driver asks for no write: first for one report,
/// and once it is made, for collection alone.
pub proof fn lemma_conflict_driver(d: BuildDriver)
    requires
        d.wf(),
        d.route() < d.plans().len(),
        d.plans()[d.route() as int].conflict,
        d.plans()[d.route() as int].endpoints@.len() == 0,
    ensures
        !d.warned() ==> d.spec_next() == DriverAction::WarnConflict(d.route() as usize),
        d.warned() ==> d.spec_next() == DriverAction::CollectGarbage,
{
}

/// Passes of the collection loop from a cache with `reclaimable` units left,
/// where one pass leaves `pass(r)` of `r` units: the loop goes on while a pass
/// frees something.
pub open spec fn gc_passes(reclaimable: nat, pass: spec_fn(nat) -> nat) -> nat
    decreases reclaimable,
{
    if pass(reclaimable) < reclaimable {
        1 + gc_passes(pass(reclaimable), pass)
    } else {
        1
    }
}

/// The collection loop ends, whatever a pass frees: after at most one pass
/// more than there are reclaimable units.
pub proof fn lemma_gc_terminates(reclaimable: nat, pass: spec_fn(nat) -> nat)
    ensures
        1 <= gc_passes(reclaimable, pass) <= reclaimable + 1,
    decreases reclaimable,
{
    if pass(reclaimable) < reclaimable {
        lemma_gc_terminates(pass(reclaimable), pass);
    }
}

} // verus!
