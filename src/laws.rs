//! Facts about the registry and the routers built from it, stated over all
//! inputs.

use vstd::prelude::*;

use crate::router::{
    clash, custom_fallback, fallback_paths, lemma_apart_symmetric, mounted_fallback_paths,
    mounted_paths, root_fallback_paths, route_paths, shapes_apart,
};
use crate::serving::{
    composable, composed_fallback, composed_fallback_paths, composed_paths, contributed, joinable,
};
use crate::service::{Entry, WebService, WebServiceState, DEFAULT_PORT};

verus! {

/// The registrations for `ctx` among `steps`, each a context and a
/// registration, in the order of the steps.
pub open spec fn registrations_for(steps: Seq<(Seq<char>, Entry)>, ctx: Seq<char>) -> Seq<Entry>
    decreases steps.len(),
{
    if steps.len() == 0 {
        seq![]
    } else {
        let init = registrations_for(steps.drop_last(), ctx);
        if steps.last().0 == ctx {
            init.push(steps.last().1)
        } else {
            init
        }
    }
}

/// A run of registrations for any contexts, interleaved in any way, leaves for
/// each context exactly the registrations made for it, in call order, after the
/// ones that were there; the folded router of that context then holds the
/// paths of every fragment registered for it, each mounted as registered.
pub proof fn lemma_interleaved_registrations_in_order(
    states: Seq<WebService>,
    steps: Seq<(Seq<char>, Entry)>,
    ctx: Seq<char>,
)
    requires
        states.len() == steps.len() + 1,
        forall|i: int|
            0 <= i < steps.len() ==> #[trigger] states[i].registered(&states[i + 1], steps[i].0, steps[i].1),
    ensures
        states.last().routes_of(ctx) == states[0].routes_of(ctx) + registrations_for(steps, ctx),
        forall|i: int|
            0 <= i < registrations_for(steps, ctx).len() ==> #[trigger] contributed(
                registrations_for(steps, ctx)[i],
            ).subset_of(composed_paths(states.last().routes_of(ctx))),
    decreases steps.len(),
{
    let regs = registrations_for(steps, ctx);
    if steps.len() == 0 {
        assert(states[0].routes_of(ctx) + regs =~= states[0].routes_of(ctx));
    } else {
        let n = steps.len() - 1;
        lemma_interleaved_registrations_in_order(states.drop_last(), steps.drop_last(), ctx);
        assert(states.drop_last().last() == states[n]);
        assert(states[n].registered(&states[n + 1], steps[n].0, steps[n].1));
        let init = registrations_for(steps.drop_last(), ctx);
        if steps[n].0 == ctx {
            assert(states[0].routes_of(ctx) + regs =~= (states[0].routes_of(ctx) + init).push(steps[n].1));
        } else {
            assert(states[n + 1].routes_of(ctx) == states[n].routes_of(ctx));
        }
    }
    lemma_composed_holds_each(states.last().routes_of(ctx));
    assert forall|i: int| 0 <= i < regs.len() implies #[trigger] contributed(regs[i]).subset_of(
        composed_paths(states.last().routes_of(ctx)),
    ) by {
        let k = states[0].routes_of(ctx).len() + i;
        assert(states.last().routes_of(ctx)[k] == regs[i]);
    }
}

/// The folded router holds a path exactly when some registration contributes
/// it.
pub proof fn lemma_composed_holds_each(es: Seq<Entry>)
    ensures
        forall|i: int| 0 <= i < es.len() ==> #[trigger] contributed(es[i]).subset_of(composed_paths(es)),
        forall|s: Seq<char>|
            #[trigger] composed_paths(es).contains(s) <==> exists|i: int|
                0 <= i < es.len() && #[trigger] contributed(es[i]).contains(s),
    decreases es.len(),
{
    if es.len() > 0 {
        let init = es.drop_last();
        let last = es.len() - 1;
        lemma_composed_holds_each(init);
        assert(composed_paths(es) == composed_paths(init) + contributed(es[last]));
        assert forall|i: int| 0 <= i < es.len() implies #[trigger] contributed(es[i]).subset_of(composed_paths(es)) by {
            if i < last {
                assert(init[i] == es[i]);
                assert(contributed(init[i]).subset_of(composed_paths(init)));
            }
        }
        assert forall|s: Seq<char>|
            #[trigger] composed_paths(es).contains(s) <==> exists|i: int|
                0 <= i < es.len() && #[trigger] contributed(es[i]).contains(s) by {
            if composed_paths(es).contains(s) {
                if composed_paths(init).contains(s) {
                    let i = choose|i: int| 0 <= i < init.len() && #[trigger] contributed(init[i]).contains(s);
                    assert(init[i] == es[i]);
                } else {
                    assert(contributed(es[last]).contains(s));
                }
            }
            if exists|i: int| 0 <= i < es.len() && #[trigger] contributed(es[i]).contains(s) {
                let i = choose|i: int| 0 <= i < es.len() && #[trigger] contributed(es[i]).contains(s);
                assert(contributed(es[i]).subset_of(composed_paths(es)));
            }
        }
    }
}

/// A fragment nested at `prefix` and a fragment merged at the top level: the
/// router serves the nested routes under the prefix and the merged routes as
/// they are, and the order of the two registrations changes neither the
/// routes nor whether axum accepts them.
pub proof fn lemma_nest_and_merge_commute(
    prefix: Seq<char>,
    nested: axum::Router<WebServiceState>,
    merged: axum::Router<WebServiceState>,
)
    ensures
        ({
            let a: Seq<Entry> = seq![(Some(prefix), nested), (None, merged)];
            let b: Seq<Entry> = seq![(None, merged), (Some(prefix), nested)];
            &&& composed_paths(a) == mounted_paths(prefix, route_paths(nested)) + route_paths(merged)
            &&& composed_paths(b) == composed_paths(a)
            &&& composable(a) == composable(b)
        }),
{
    let a: Seq<Entry> = seq![(Some(prefix), nested), (None, merged)];
    let b: Seq<Entry> = seq![(None, merged), (Some(prefix), nested)];
    let e: Seq<Entry> = seq![];
    let none = Set::<Seq<char>>::empty();
    let m = mounted_paths(prefix, route_paths(nested));
    let r = route_paths(merged);
    let fm = fallback_paths(merged);
    let fb = mounted_fallback_paths(prefix, nested);
    let fa = if custom_fallback(nested) {
        fb
    } else {
        none
    };
    assert(a.drop_last() =~= seq![(Some(prefix), nested)]);
    assert(b.drop_last() =~= seq![(None, merged)]);
    assert(a.drop_last().drop_last() =~= e);
    assert(b.drop_last().drop_last() =~= e);
    assert(composed_paths(e) == none);
    assert(composed_paths(a.drop_last()) == none + contributed(a[0]));
    assert(composed_paths(b.drop_last()) == none + contributed(b[0]));
    assert(composed_paths(a.drop_last()) =~= m);
    assert(composed_paths(b.drop_last()) =~= r);
    assert(composed_paths(a) == composed_paths(a.drop_last()) + contributed(a[1]));
    assert(composed_paths(b) == composed_paths(b.drop_last()) + contributed(b[1]));
    assert(composed_paths(a) =~= m + r);
    assert(composed_paths(b) =~= composed_paths(a));
    assert(composed_fallback(e) == false);
    assert(composable(e));
    assert(composed_fallback(a.drop_last()) == false);
    assert(composed_fallback(b.drop_last()) == custom_fallback(merged));
    assert(composed_fallback_paths(e) == none);
    assert(composed_fallback_paths(a.drop_last()) =~= fa);
    assert(composed_fallback_paths(b.drop_last()) =~= fm);
    assert(composable(a.drop_last()) == joinable(none, false, none, a[0]));
    assert(composable(b.drop_last()) == joinable(none, false, none, b[0]));
    assert(composable(a) == (composable(a.drop_last()) && joinable(m, false, fa, a[1])));
    assert(composable(b) == (composable(b.drop_last()) && joinable(r, custom_fallback(merged), fm, b[1])));
    assert(shapes_apart(m, none));
    assert(shapes_apart(r, none));
    assert(shapes_apart(fm, none));
    lemma_apart_symmetric(m, r);
    lemma_apart_symmetric(fm, fb);
    lemma_apart_union(fb, none, root_fallback_paths());
    lemma_apart_union(fb, fm, root_fallback_paths());
    assert(shapes_apart(fb, none));
}

/// No path of `a` clashes with `b + c` exactly when none clashes with `b` and
/// none with `c`.
proof fn lemma_apart_union(a: Set<Seq<char>>, b: Set<Seq<char>>, c: Set<Seq<char>>)
    ensures
        shapes_apart(a, b + c) == (shapes_apart(a, b) && shapes_apart(a, c)),
{
    if shapes_apart(a, b) && shapes_apart(a, c) {
        assert forall|x: Seq<char>, y: Seq<char>| #[trigger] a.contains(x) && #[trigger] (b + c).contains(y) implies !clash(x, y) by {
            if b.contains(y) {
                assert(a.contains(x) && b.contains(y));
            } else {
                assert(a.contains(x) && c.contains(y));
            }
        }
    }
    if shapes_apart(a, b + c) {
        assert forall|x: Seq<char>, y: Seq<char>| #[trigger] a.contains(x) && #[trigger] b.contains(y) implies !clash(x, y) by {
            assert((b + c).contains(y));
        }
        assert forall|x: Seq<char>, y: Seq<char>| #[trigger] a.contains(x) && #[trigger] c.contains(y) implies !clash(x, y) by {
            assert((b + c).contains(y));
        }
    }
}

/// Configuring a context twice keeps the second configuration only.
pub proof fn lemma_last_configuration_wins(
    s0: WebService,
    s1: WebService,
    s2: WebService,
    ctx: Seq<char>,
    first: u16,
    second: u16,
)
    requires
        s0.reconfigured(&s1, ctx, first),
        s1.reconfigured(&s2, ctx, second),
    ensures
        s2.port_of(ctx) == Some(second),
        s2.listen_port(ctx) == second,
        forall|c: Seq<char>| c != ctx ==> #[trigger] s2.port_of(c) == s0.port_of(c),
{
    assert forall|c: Seq<char>| c != ctx implies #[trigger] s2.port_of(c) == s0.port_of(c) by {
        assert(s2.port_of(c) == s1.port_of(c));
    }
}

/// A context without a server configuration listens on the default port.
pub proof fn lemma_unconfigured_listens_on_default(s: WebService, ctx: Seq<char>)
    requires
        s.port_of(ctx) is None,
    ensures
        s.listen_port(ctx) == DEFAULT_PORT,
        DEFAULT_PORT == 3000,
{
}

/// Each context that gets a listener gets exactly one: the served contexts are
/// distinct, so no two listeners share a context.
pub proof fn lemma_one_listener_per_context(s: WebService)
    requires
        s.wf(),
    ensures
        s.served_contexts().no_duplicates(),
{
    let pred = |c: Seq<char>| !s.contexts().contains(c);
    let extra = s.configured().filter(pred);
    lemma_filter_keeps_distinct(s.configured(), pred);
    assert forall|i: int, j: int|
        0 <= i < j < s.served_contexts().len() implies s.served_contexts()[i] != s.served_contexts()[j] by {
        let n = s.contexts().len();
        if j >= n && i < n {
            s.configured().lemma_filter_pred(pred, j - n);
            assert(s.contexts().contains(s.contexts()[i]));
        } else if j >= n {
            assert(extra[i - n] != extra[j - n]);
        }
    }
}

proof fn lemma_filter_keeps_distinct(s: Seq<Seq<char>>, pred: spec_fn(Seq<char>) -> bool)
    requires
        s.no_duplicates(),
    ensures
        s.filter(pred).no_duplicates(),
        forall|x: Seq<char>| s.filter(pred).contains(x) ==> s.contains(x),
    decreases s.len(),
{
    reveal(Seq::filter);
    if s.len() > 0 {
        let init = s.drop_last();
        assert forall|i: int, j: int| 0 <= i < j < init.len() implies init[i] != init[j] by {
            assert(init[i] == s[i] && init[j] == s[j]);
        }
        lemma_filter_keeps_distinct(init, pred);
        assert forall|x: Seq<char>| init.contains(x) implies s.contains(x) by {
            let k = choose|k: int| 0 <= k < init.len() && init[k] == x;
            assert(s[k] == x);
        }
        if pred(s.last()) {
            assert(!init.contains(s.last())) by {
                if init.contains(s.last()) {
                    let k = choose|k: int| 0 <= k < init.len() && init[k] == s.last();
                    assert(s[k] == s[s.len() - 1]);
                }
            }
            assert(!init.filter(pred).contains(s.last()));
            let f = init.filter(pred).push(s.last());
            assert forall|i: int, j: int| 0 <= i < j < f.len() implies f[i] != f[j] by {
                if j == f.len() - 1 {
                    assert(init.filter(pred).contains(f[i]));
                }
            }
            assert forall|x: Seq<char>| f.contains(x) implies s.contains(x) by {
                let k = choose|k: int| 0 <= k < f.len() && f[k] == x;
                if k < f.len() - 1 {
                    assert(init.filter(pred).contains(x));
                }
            }
        }
    }
}

} // verus!
