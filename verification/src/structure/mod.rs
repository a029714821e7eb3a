//! The structure of an Angular application: its components and its routes.
use vstd::prelude::*;
use crate::component::{inserted_all, names_distinct, views_of, AngularComponent, AngularComponents, ComponentType, ComponentView};
use crate::structure::route::{routes_of, AngularRoutes, RouteError};

pub mod route;
pub mod utilities;

verus! {

/// The components of an application and the routes read from one of its
/// routing modules.
pub struct AngularStructure {
    pub routes: AngularRoutes,
    pub components: AngularComponents,
}

/// The components of `entries` of the kind `kind`, in order.
pub open spec fn of_kind(entries: Seq<ComponentView>, kind: ComponentType) -> Seq<ComponentView>
    decreases entries.len(),
{
    if entries.len() == 0 {
        entries
    } else if entries.last().kind == kind {
        of_kind(entries.drop_last(), kind).push(entries.last())
    } else {
        of_kind(entries.drop_last(), kind)
    }
}

/// Everything `of_kind` returns has that kind, and every component of that
/// kind is returned.
pub proof fn lemma_of_kind(entries: Seq<ComponentView>, kind: ComponentType)
    ensures
        forall|i: int| 0 <= i < of_kind(entries, kind).len() ==> (#[trigger] of_kind(entries, kind)[i]).kind == kind,
        forall|i: int| 0 <= i < entries.len() && (#[trigger] entries[i]).kind == kind ==> of_kind(entries, kind).contains(entries[i]),
        forall|i: int| 0 <= i < of_kind(entries, kind).len() ==> entries.contains(#[trigger] of_kind(entries, kind)[i]),
    decreases entries.len(),
{
    if entries.len() > 0 {
        let d = entries.drop_last();
        lemma_of_kind(d, kind);
        let r = of_kind(entries, kind);
        let rd = of_kind(d, kind);
        assert forall|i: int| 0 <= i < entries.len() && (#[trigger] entries[i]).kind == kind implies r.contains(entries[i]) by {
            if i < d.len() {
                assert(d[i] == entries[i]);
                let j = choose|j: int| 0 <= j < rd.len() && rd[j] == d[i];
                assert(r[j] == rd[j]);
            } else {
                assert(r[r.len() - 1] == entries.last());
            }
        }
        assert forall|i: int| 0 <= i < r.len() implies entries.contains(#[trigger] r[i]) by {
            if i < rd.len() {
                assert(r[i] == rd[i]);
                let j = choose|j: int| 0 <= j < d.len() && d[j] == rd[i];
                assert(entries[j] == d[j]);
            } else {
                assert(entries[entries.len() - 1] == r[i]);
            }
        }
    }
}

impl AngularStructure {
    /// The structure of the application made of `components`, with no
    /// routes read yet.
    pub fn new(components: Vec<AngularComponent>) -> (s: AngularStructure)
        ensures
            s.components@ == inserted_all(Seq::empty(), views_of(components@)),
            s.routes@ == Seq::<(Seq<char>, Seq<Seq<char>>)>::empty(),
            names_distinct(s.components@),
    {
        let structure = AngularStructure {
            components: Self::setup_components(components),
            routes: AngularRoutes::empty(),
        };
        structure
    }

    /// Reads the routes of the routing module `component` (see
    /// `routes_of`), when they can be read.
    pub fn setup_routes(&mut self, component: &AngularComponent)
        requires
            routes_of(old(self).components@, component@) is Ok,
        ensures
            final(self).components@ == old(self).components@,
            final(self).routes@ == routes_of(old(self).components@, component@)->Ok_0,
    {
        self.routes = AngularRoutes::new(component, &self.components);
    }

    /// Reads the routes of the routing module `component`, or tells why they
    /// cannot be read; then the routes stay as they were.
    pub fn try_setup_routes(&mut self, component: &AngularComponent) -> (r: Result<(), RouteError>)
        ensures
            final(self).components@ == old(self).components@,
            match routes_of(old(self).components@, component@) {
                Ok(t) => r is Ok && final(self).routes@ == t,
                Err(e) => r matches Err(x) && x@ == e && final(self).routes@ == old(self).routes@,
            },
    {
        match AngularRoutes::try_new(component, &self.components) {
            Ok(routes) => {
                self.routes = routes;
                Ok(())
            },
            Err(e) => Err(e),
        }
    }

    /// The components of the kind `kind`, in order.
    pub fn get_component_by_kind(&self, kind: ComponentType) -> (r: Vec<AngularComponent>)
        ensures
            views_of(r@) == of_kind(self.components@, kind),
    {
        let ghost all = self.components@;
        let mut r: Vec<AngularComponent> = Vec::new();
        let mut i: usize = 0;
        assert(views_of(r@) =~= of_kind(all.take(0), kind));
        while i < self.components.value.len()
            invariant
                i <= self.components.value.len(),
                all == self.components@,
                views_of(r@) == of_kind(all.take(i as int), kind),
            decreases self.components.value.len() - i,
        {
            assert(all.take(i + 1).drop_last() =~= all.take(i as int));
            assert(all.take(i + 1).last() == self.components.value[i as int]@);
            if self.components.value[i].kind == kind {
                let c = self.components.value[i].clone();
                let ghost before = views_of(r@);
                r.push(c);
                assert(views_of(r@) =~= before.push(all[i as int]));
            }
            i = i + 1;
        }
        assert(all.take(all.len() as int) =~= all);
        r
    }

    /// The components of the application, found by name.
    fn setup_components(components: Vec<AngularComponent>) -> (r: AngularComponents)
        ensures
            r@ == inserted_all(Seq::empty(), views_of(components@)),
            names_distinct(r@),
    {
        AngularComponents::new(components)
    }
}

} // verus!
