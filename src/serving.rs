//! Building each context's router from its registrations, and the plan of
//! listeners that serves them.

use vstd::prelude::*;

use crate::router::{
    all_routable, copy_router, custom_fallback, empty_router, fallback_nestable, fallback_paths,
    merge_router, mount_is_injective, mounted_fallback_paths, mounted_paths, nest_router,
    route_paths, served_paths, shapes_apart, shapes_distinct, supply_state, valid_prefix,
};
use crate::service::{
    lemma_index_of_unique, Entry, RouterKind, WebService, WebServiceRouter, WebServiceState,
};

verus! {

/// The paths that one registration adds to its context's router.
pub open spec fn contributed(e: Entry) -> Set<Seq<char>> {
    match e.0 {
        Some(p) => mounted_paths(p, route_paths(e.1)),
        None => route_paths(e.1),
    }
}

/// The paths of the router built by folding `es` left to right over an empty
/// router.
pub open spec fn composed_paths(es: Seq<Entry>) -> Set<Seq<char>>
    decreases es.len(),
{
    if es.len() == 0 {
        Set::empty()
    } else {
        composed_paths(es.drop_last()) + contributed(es.last())
    }
}

/// Whether that router has a custom fallback: one came in by a merge.
pub open spec fn composed_fallback(es: Seq<Entry>) -> bool
    decreases es.len(),
{
    if es.len() == 0 {
        false
    } else {
        composed_fallback(es.drop_last()) || (es.last().0 is None && custom_fallback(es.last().1))
    }
}

/// Whether axum accepts joining `e` onto a router with the given paths,
/// custom fallback and nested fallback paths: paths that its matcher takes, a
/// prefix without a wildcard, no two routes that clash in the matcher, at most
/// one custom fallback at the top level, and no clash between fallbacks nested
/// into the same table.
pub open spec fn joinable(
    paths: Set<Seq<char>>,
    fallback: bool,
    nested: Set<Seq<char>>,
    e: Entry,
) -> bool {
    match e.0 {
        Some(p) => {
            &&& valid_prefix(p)
            &&& all_routable(mounted_paths(p, route_paths(e.1)))
            &&& mount_is_injective(p, route_paths(e.1))
            &&& shapes_distinct(mounted_paths(p, route_paths(e.1)))
            &&& shapes_apart(mounted_paths(p, route_paths(e.1)), paths)
            &&& custom_fallback(e.1) ==> fallback_nestable(p, e.1, nested)
        },
        None => {
            &&& all_routable(route_paths(e.1))
            &&& shapes_distinct(route_paths(e.1))
            &&& shapes_apart(route_paths(e.1), paths)
            &&& !(fallback && custom_fallback(e.1))
            &&& shapes_apart(fallback_paths(e.1), nested)
        },
    }
}

/// The nested fallback paths of that router: those that merged fragments
/// bring, and the fallbacks of nested fragments, mounted.
pub open spec fn composed_fallback_paths(es: Seq<Entry>) -> Set<Seq<char>>
    decreases es.len(),
{
    if es.len() == 0 {
        Set::empty()
    } else {
        let init = composed_fallback_paths(es.drop_last());
        match es.last().0 {
            None => init + fallback_paths(es.last().1),
            Some(p) => if custom_fallback(es.last().1) {
                init + mounted_fallback_paths(p, es.last().1)
            } else {
                init
            },
        }
    }
}

/// Whether every step of the fold over `es` is accepted.
pub open spec fn composable(es: Seq<Entry>) -> bool
    decreases es.len(),
{
    es.len() == 0 || (composable(es.drop_last()) && joinable(
        composed_paths(es.drop_last()),
        composed_fallback(es.drop_last()),
        composed_fallback_paths(es.drop_last()),
        es.last(),
    ))
}

proof fn lemma_composable_prefix(es: Seq<Entry>, k: int)
    requires
        composable(es),
        0 <= k <= es.len(),
    ensures
        composable(es.take(k)),
    decreases es.len(),
{
    if k < es.len() {
        assert(es.drop_last().take(k) =~= es.take(k));
        lemma_composable_prefix(es.drop_last(), k);
    } else {
        assert(es.take(k) =~= es);
    }
}

/// The registrations of a list as the contracts see them.
pub open spec fn entries_view(v: Seq<WebServiceRouter>) -> Seq<Entry> {
    v.map_values(|e: WebServiceRouter| e@)
}

/// Folds `entries` left to right over an empty router: a `Nest` entry mounts its
/// fragment under its prefix, a `Merge` entry adds its routes at the top level.
pub fn build_router(entries: &Vec<WebServiceRouter>) -> (r: axum::Router<WebServiceState>)
    requires
        composable(entries_view(entries@)),
    ensures
        route_paths(r) == composed_paths(entries_view(entries@)),
        custom_fallback(r) == composed_fallback(entries_view(entries@)),
        fallback_paths(r) == composed_fallback_paths(entries_view(entries@)),
{
    let ghost es = entries_view(entries@);
    let mut acc = empty_router();
    let mut i: usize = 0;
    assert(es.take(0) =~= Seq::<Entry>::empty());
    while i < entries.len()
        invariant
            i <= entries@.len(),
            es == entries_view(entries@),
            composable(es),
            route_paths(acc) == composed_paths(es.take(i as int)),
            custom_fallback(acc) == composed_fallback(es.take(i as int)),
            fallback_paths(acc) == composed_fallback_paths(es.take(i as int)),
        decreases entries@.len() - i,
    {
        let ghost pre = es.take(i as int);
        let ghost next = es.take(i + 1);
        proof {
            lemma_composable_prefix(es, i + 1);
            assert(next.drop_last() =~= pre);
            assert(next.last() == es[i as int]);
        }
        let fragment = copy_router(&entries[i].router);
        match &entries[i].kind {
            RouterKind::Nest(prefix) => {
                acc = nest_router(acc, prefix.as_str(), fragment);
            },
            RouterKind::Merge => {
                acc = merge_router(acc, fragment);
            },
        }
        i = i + 1;
    }
    assert(es.take(i as int) =~= es);
    acc
}

/// One listener to start: the context it serves, the address it binds and the
/// router it serves there.
pub struct ListenerPlan {
    pub ctx: String,
    pub host: [u8; 4],
    pub port: u16,
    pub router: axum::Router,
}

impl WebService {
    /// The listeners that serve the registry as it stands: one per served
    /// context, bound to `127.0.0.1` at the context's port, serving the router
    /// folded from its registrations.
    pub fn serving_plan(&self) -> (plans: Vec<ListenerPlan>)
        requires
            self.wf(),
            forall|c: Seq<char>| composable(#[trigger] self.routes_of(c)),
        ensures
            plans@.len() == self.served_contexts().len(),
            forall|i: int|
                0 <= i < plans@.len() ==> {
                    let c = #[trigger] self.served_contexts()[i];
                    &&& plans@[i].ctx@ == c
                    &&& plans@[i].host@ == seq![127u8, 0u8, 0u8, 1u8]
                    &&& plans@[i].port == self.listen_port(c)
                    &&& served_paths(plans@[i].router) == composed_paths(self.routes_of(c))
                },
    {
        let ghost served = self.served_contexts();
        let ghost ctxs = self.contexts();
        let ghost pred = |c: Seq<char>| !self.contexts().contains(c);
        let mut plans: Vec<ListenerPlan> = Vec::new();
        let mut i: usize = 0;
        while i < self.services.len()
            invariant
                self.wf(),
                forall|c: Seq<char>| composable(#[trigger] self.routes_of(c)),
                served == self.served_contexts(),
                ctxs == self.contexts(),
                i <= self.services@.len(),
                plans@.len() == i,
                forall|k: int|
                    0 <= k < i ==> {
                        let c = #[trigger] served[k];
                        &&& plans@[k].ctx@ == c
                        &&& plans@[k].host@ == seq![127u8, 0u8, 0u8, 1u8]
                        &&& plans@[k].port == self.listen_port(c)
                        &&& served_paths(plans@[k].router) == composed_paths(self.routes_of(c))
                    },
            decreases self.services@.len() - i,
        {
            let ctx = self.services[i].0.clone();
            proof {
                lemma_index_of_unique(ctxs, i as int);
                assert(ctxs[i as int] == ctx@);
                assert(served[i as int] == ctx@);
                assert(self.routes_of(ctx@) =~= entries_view(self.services@[i as int].1@));
                assert(composable(self.routes_of(ctx@)));
            }
            let config = self.server_config(ctx.as_str());
            let router = build_router(&self.services[i].1);
            let router = supply_state(router, WebServiceState);
            plans.push(ListenerPlan { ctx, host: [127u8, 0u8, 0u8, 1u8], port: config.port, router });
            i = i + 1;
        }
        let mut j: usize = 0;
        assert(self.configured().take(0).filter(pred) =~= Seq::<Seq<char>>::empty()) by {
            reveal(Seq::filter);
        }
        assert(ctxs + self.configured().take(0).filter(pred) =~= ctxs);
        assert forall|k: int| 0 <= k < plans@.len() implies #[trigger] ctxs[k] == served[k] by {
            assert(served[k] == (ctxs + self.configured().filter(pred))[k]);
        }
        while j < self.servers.len()
            invariant
                self.wf(),
                served == self.served_contexts(),
                ctxs == self.contexts(),
                pred == (|c: Seq<char>| !self.contexts().contains(c)),
                served == ctxs + self.configured().filter(pred),
                j <= self.servers@.len(),
                plans@.len() == ctxs.len() + self.configured().take(j as int).filter(pred).len(),
                forall|k: int|
                    0 <= k < plans@.len() ==> {
                        let c = #[trigger] (ctxs + self.configured().take(j as int).filter(pred))[k];
                        &&& plans@[k].ctx@ == c
                        &&& plans@[k].host@ == seq![127u8, 0u8, 0u8, 1u8]
                        &&& plans@[k].port == self.listen_port(c)
                        &&& served_paths(plans@[k].router) == composed_paths(self.routes_of(c))
                    },
            decreases self.servers@.len() - j,
        {
            let ghost before = self.configured().take(j as int).filter(pred);
            proof {
                assert(self.configured().take(j + 1).drop_last() =~= self.configured().take(j as int));
                reveal(Seq::filter);
            }
            let ghost shown = ctxs + before;
            let ctx = &self.servers[j].ctx;
            if self.find_context(ctx).is_none() {
                let c = self.servers[j].ctx.clone();
                proof {
                    lemma_index_of_unique(self.configured(), j as int);
                    assert(self.configured()[j as int] == c@);
                    assert(self.configured().take(j + 1).filter(pred) == before.push(c@));
                    assert(self.routes_of(c@) =~= Seq::<Entry>::empty());
                    assert(ctxs + self.configured().take(j + 1).filter(pred) =~= shown.push(c@));
                }
                let router = supply_state(empty_router(), WebServiceState);
                plans.push(ListenerPlan { ctx: c, host: [127u8, 0u8, 0u8, 1u8], port: self.servers[j].port, router });
            } else {
                assert(self.configured().take(j + 1).filter(pred) == before);
            }
            j = j + 1;
        }
        assert(self.configured().take(j as int) =~= self.configured());
        plans
    }

    /// The listener of one context: `127.0.0.1` at the context's port, serving
    /// the router folded from its registrations.
    pub fn listener_plan(&self, ctx: &str) -> (plan: ListenerPlan)
        requires
            self.wf(),
            composable(self.routes_of(ctx@)),
        ensures
            plan.ctx@ == ctx@,
            plan.host@ == seq![127u8, 0u8, 0u8, 1u8],
            plan.port == self.listen_port(ctx@),
            served_paths(plan.router) == composed_paths(self.routes_of(ctx@)),
    {
        let key = ctx.to_owned();
        let config = self.server_config(ctx);
        let router = match self.find_context(&key) {
            Some(i) => {
                proof {
                    assert(self.routes_of(ctx@) =~= entries_view(self.services@[i as int].1@));
                }
                build_router(&self.services[i].1)
            },
            None => {
                assert(self.routes_of(ctx@) =~= Seq::<Entry>::empty());
                empty_router()
            },
        };
        let router = supply_state(router, WebServiceState);
        ListenerPlan { ctx: key, host: [127u8, 0u8, 0u8, 1u8], port: config.port, router }
    }

    /// The names of the contexts that get a listener, in order.
    pub fn served_context_names(&self) -> (names: Vec<String>)
        requires
            self.wf(),
        ensures
            names@.map_values(|n: String| n@) == self.served_contexts(),
    {
        let ghost pred = |c: Seq<char>| !self.contexts().contains(c);
        let mut names: Vec<String> = Vec::new();
        let mut i: usize = 0;
        while i < self.services.len()
            invariant
                self.wf(),
                i <= self.services@.len(),
                names@.map_values(|n: String| n@) == self.contexts().take(i as int),
            decreases self.services@.len() - i,
        {
            names.push(self.services[i].0.clone());
            assert(self.contexts().take(i + 1) =~= self.contexts().take(i as int).push(self.services@[i as int].0@));
            assert(names@.map_values(|n: String| n@) =~= self.contexts().take(i + 1));
            i = i + 1;
        }
        assert(self.contexts().take(i as int) =~= self.contexts());
        let mut j: usize = 0;
        assert(self.configured().take(0).filter(pred) =~= Seq::<Seq<char>>::empty()) by {
            reveal(Seq::filter);
        }
        assert(self.contexts() + self.configured().take(0).filter(pred) =~= self.contexts());
        while j < self.servers.len()
            invariant
                self.wf(),
                pred == (|c: Seq<char>| !self.contexts().contains(c)),
                j <= self.servers@.len(),
                names@.map_values(|n: String| n@) == self.contexts() + self.configured().take(j as int).filter(pred),
            decreases self.servers@.len() - j,
        {
            let ghost before = self.configured().take(j as int).filter(pred);
            proof {
                assert(self.configured().take(j + 1).drop_last() =~= self.configured().take(j as int));
                reveal(Seq::filter);
            }
            if self.find_context(&self.servers[j].ctx).is_none() {
                let ghost shown = names@.map_values(|n: String| n@);
                let name = self.servers[j].ctx.clone();
                assert(name@ == self.configured()[j as int]);
                names.push(name);
                assert(names@.map_values(|n: String| n@) =~= shown.push(name@));
                assert(self.configured().take(j + 1).filter(pred) == before.push(self.configured()[j as int]));
                assert(names@.map_values(|n: String| n@) =~= self.contexts() + self.configured().take(j + 1).filter(pred));
            } else {
                assert(self.configured().take(j + 1).filter(pred) == before);
            }
            j = j + 1;
        }
        assert(self.configured().take(j as int) =~= self.configured());
        names
    }
}

} // verus!
