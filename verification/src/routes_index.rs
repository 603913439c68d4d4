//! A small route index: lookup of a route by identifier or by its
//! public short name.
use vstd::prelude::*;
use crate::feed::{Feed, Route, copy_routes};
use crate::text::str_eq_string;

verus! {

/// The routes of a feed, in feed order.
pub struct RoutesIndex {
    pub routes: Vec<Route>,
}

/// The first position of the route with the given identifier, or -1.
pub open spec fn first_route_by_id(routes: Seq<Route>, id: Seq<char>) -> int
    decreases routes.len(),
{
    if routes.len() == 0 {
        -1
    } else if routes[0].id@ == id {
        0
    } else {
        let r = first_route_by_id(routes.drop_first(), id);
        if r == -1 {
            -1
        } else {
            r + 1
        }
    }
}

/// Whether a route bears the given short name.
pub open spec fn route_named(route: Route, name: Seq<char>) -> bool {
    match route.short_name {
        Some(n) => n@ == name,
        None => false,
    }
}

/// The first position of the route with the given short name, or -1.
pub open spec fn first_route_by_name(routes: Seq<Route>, name: Seq<char>) -> int
    decreases routes.len(),
{
    if routes.len() == 0 {
        -1
    } else if route_named(routes[0], name) {
        0
    } else {
        let r = first_route_by_name(routes.drop_first(), name);
        if r == -1 {
            -1
        } else {
            r + 1
        }
    }
}

/// What `first_route_by_id` returns.
pub proof fn lemma_first_route_by_id(routes: Seq<Route>, id: Seq<char>)
    ensures
        first_route_by_id(routes, id) == -1 <==> (forall|k: int|
            0 <= k < routes.len() ==> (#[trigger] routes[k]).id@ != id),
        first_route_by_id(routes, id) != -1 ==> {
            &&& 0 <= first_route_by_id(routes, id) < routes.len()
            &&& routes[first_route_by_id(routes, id)].id@ == id
            &&& forall|k: int|
                0 <= k < first_route_by_id(routes, id) ==> (#[trigger] routes[k]).id@ != id
        },
    decreases routes.len(),
{
    if routes.len() > 0 && routes[0].id@ != id {
        let d = routes.drop_first();
        lemma_first_route_by_id(d, id);
        assert(forall|k: int| 0 <= k < d.len() ==> #[trigger] d[k] == routes[k + 1]);
        let rd = first_route_by_id(d, id);
        if rd == -1 {
            assert forall|k: int| 0 <= k < routes.len() implies (#[trigger] routes[k]).id@
                != id by {
                if k > 0 {
                    assert(d[k - 1].id@ != id);
                }
            }
        } else {
            assert(routes[rd + 1].id@ == id);
            assert forall|k: int| 0 <= k < rd + 1 implies (#[trigger] routes[k]).id@ != id by {
                if k > 0 {
                    assert(d[k - 1].id@ != id);
                }
            }
        }
    }
}

/// What `first_route_by_name` returns.
pub proof fn lemma_first_route_by_name(routes: Seq<Route>, name: Seq<char>)
    ensures
        first_route_by_name(routes, name) == -1 <==> (forall|k: int|
            0 <= k < routes.len() ==> !route_named(#[trigger] routes[k], name)),
        first_route_by_name(routes, name) != -1 ==> {
            &&& 0 <= first_route_by_name(routes, name) < routes.len()
            &&& route_named(routes[first_route_by_name(routes, name)], name)
            &&& forall|k: int|
                0 <= k < first_route_by_name(routes, name) ==> !route_named(
                    #[trigger] routes[k],
                    name,
                )
        },
    decreases routes.len(),
{
    if routes.len() > 0 && !route_named(routes[0], name) {
        let d = routes.drop_first();
        lemma_first_route_by_name(d, name);
        assert(forall|k: int| 0 <= k < d.len() ==> #[trigger] d[k] == routes[k + 1]);
        let rd = first_route_by_name(d, name);
        if rd == -1 {
            assert forall|k: int| 0 <= k < routes.len() implies !route_named(
                #[trigger] routes[k],
                name,
            ) by {
                if k > 0 {
                    assert(!route_named(d[k - 1], name));
                }
            }
        } else {
            assert(route_named(routes[rd + 1], name));
            assert forall|k: int| 0 <= k < rd + 1 implies !route_named(
                #[trigger] routes[k],
                name,
            ) by {
                if k > 0 {
                    assert(!route_named(d[k - 1], name));
                }
            }
        }
    }
}

impl RoutesIndex {
    /// Collect the feed's routes.
    pub fn new(feed: &Feed) -> (r: RoutesIndex)
        ensures
            r.routes@ == feed.model().routes,
    {
        proof {
            assert(feed.model().routes =~= feed.routes@);
        }
        RoutesIndex { routes: copy_routes(&feed.routes) }
    }

    /// The first route with the given identifier, if any.
    pub fn get_route_by_id(&self, route_id: &str) -> (r: Option<&Route>)
        ensures
            match r {
                Some(route) => {
                    &&& first_route_by_id(self.routes@, route_id@) != -1
                    &&& *route == self.routes@[first_route_by_id(self.routes@, route_id@)]
                },
                None => first_route_by_id(self.routes@, route_id@) == -1,
            },
    {
        let mut k: usize = 0;
        while k < self.routes.len()
            invariant
                k <= self.routes@.len(),
                forall|m: int| 0 <= m < k ==> (#[trigger] self.routes@[m]).id@ != route_id@,
            decreases self.routes@.len() - k,
        {
            if str_eq_string(route_id, &self.routes[k].id) {
                proof {
                    lemma_first_route_by_id(self.routes@, route_id@);
                    let f = first_route_by_id(self.routes@, route_id@);
                    assert(f != -1);
                    if f < k as int {
                        assert(self.routes@[f].id@ != route_id@);
                    }
                    if f > k as int {
                        assert(self.routes@[k as int].id@ != route_id@);
                    }
                }
                return Some(&self.routes[k]);
            }
            k = k + 1;
        }
        proof {
            lemma_first_route_by_id(self.routes@, route_id@);
        }
        None
    }

    /// The first route with the given public short name, if any.
    pub fn get_route_by_name(&self, route_name: &str) -> (r: Option<&Route>)
        ensures
            match r {
                Some(route) => {
                    &&& first_route_by_name(self.routes@, route_name@) != -1
                    &&& *route == self.routes@[first_route_by_name(self.routes@, route_name@)]
                },
                None => first_route_by_name(self.routes@, route_name@) == -1,
            },
    {
        let mut k: usize = 0;
        while k < self.routes.len()
            invariant
                k <= self.routes@.len(),
                forall|m: int| 0 <= m < k ==> !route_named(#[trigger] self.routes@[m], route_name@),
            decreases self.routes@.len() - k,
        {
            let named = match &self.routes[k].short_name {
                Some(n) => str_eq_string(route_name, n),
                None => false,
            };
            if named {
                proof {
                    assert(route_named(self.routes@[k as int], route_name@));
                    lemma_first_route_by_name(self.routes@, route_name@);
                    let f = first_route_by_name(self.routes@, route_name@);
                    assert(f != -1);
                    if f < k as int {
                        assert(!route_named(self.routes@[f], route_name@));
                    }
                    if f > k as int {
                        assert(!route_named(self.routes@[k as int], route_name@));
                    }
                }
                return Some(&self.routes[k]);
            }
            k = k + 1;
        }
        proof {
            lemma_first_route_by_name(self.routes@, route_name@);
        }
        None
    }
}

} // verus!
