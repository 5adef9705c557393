//! The router fragments of axum, seen through the set of paths that they route.

use vstd::prelude::*;

use crate::service::WebServiceState;

verus! {

#[verifier::external_type_specification]
#[verifier::external_body]
#[verifier::reject_recursive_types(S)]
pub struct ExRouter<S>(axum::Router<S>);

#[verifier::external_type_specification]
#[verifier::external_body]
#[verifier::reject_recursive_types(S)]
#[verifier::reject_recursive_types(E)]
pub struct ExMethodRouter<S, E>(axum::routing::MethodRouter<S, E>);

/// The paths at which a router fragment has an endpoint: the keys of its path
/// table (not of its fallback table), as given to `route` or produced by `nest`.
pub uninterp spec fn route_paths(r: axum::Router<WebServiceState>) -> Set<Seq<char>>;

/// Whether a router fragment carries a fallback of its own (axum keeps this as
/// the negation of `default_fallback`).
pub uninterp spec fn custom_fallback(r: axum::Router<WebServiceState>) -> bool;

/// The paths of the fallback table of a router fragment other than its own
/// root fallback (`/` and axum's private catch-all): those of fallbacks nested
/// under a prefix.
pub uninterp spec fn fallback_paths(r: axum::Router<WebServiceState>) -> Set<Seq<char>>;

/// The paths at which a router whose state has been supplied has an endpoint.
pub uninterp spec fn served_paths(r: axum::Router) -> Set<Seq<char>>;

/// A path without a catch-all wildcard (`*`).
pub open spec fn star_free(s: Seq<char>) -> bool {
    forall|i: int| 0 <= i < s.len() ==> s[i] != '*'
}

/// The number of `:` in a path.
pub open spec fn colon_count(s: Seq<char>) -> nat
    decreases s.len(),
{
    if s.len() == 0 {
        0
    } else {
        colon_count(s.drop_last()) + if s.last() == ':' {
            1nat
        } else {
            0nat
        }
    }
}

/// A wildcard character of the matcher: `:` opens a capture, `*` a catch-all.
pub open spec fn is_wild(c: char) -> bool {
    c == ':' || c == '*'
}

/// A path that axum and its matcher take as a route: it starts with `/`; each
/// `:` or `*` opens a named wildcard that runs to the next `/` without a second
/// `:` or `*`; a catch-all comes right after a `/` and runs to the end; and
/// there are at most 25 captures (the matcher renames them `a`, `b`, ... and
/// panics once it has renamed a 26th).
pub open spec fn routable(s: Seq<char>) -> bool {
    &&& s.len() > 0
    &&& s[0] == '/'
    &&& forall|i: int|
        0 <= i < s.len() && is_wild(#[trigger] s[i]) ==> i + 1 < s.len() && s[i + 1] != '/'
    &&& forall|i: int, j: int|
        0 <= i < j < s.len() && is_wild(#[trigger] s[i]) && is_wild(#[trigger] s[j]) ==> exists|k: int|
            i < k < j && #[trigger] s[k] == '/'
    &&& forall|i: int| 0 < i < s.len() && #[trigger] s[i] == '*' ==> s[i - 1] == '/'
    &&& forall|i: int, j: int| 0 <= i < j < s.len() && #[trigger] s[i] == '*' ==> #[trigger] s[j] != '/'
    &&& colon_count(s) <= 25
}

pub open spec fn all_routable(paths: Set<Seq<char>>) -> bool {
    forall|s: Seq<char>| #[trigger] paths.contains(s) ==> routable(s)
}

/// A path with the name of each wildcard dropped; `in_name` says that `s`
/// starts inside a wildcard name.
pub open spec fn shape_from(s: Seq<char>, in_name: bool) -> Seq<char>
    decreases s.len(),
{
    if s.len() == 0 {
        s
    } else if is_wild(s[0]) {
        seq![s[0]] + shape_from(s.drop_first(), true)
    } else if s[0] == '/' {
        seq!['/'] + shape_from(s.drop_first(), false)
    } else if in_name {
        shape_from(s.drop_first(), true)
    } else {
        seq![s[0]] + shape_from(s.drop_first(), false)
    }
}

/// A path as the matcher walks it: captures are renamed in order, and
/// catch-alls clash whatever their names, so names are dropped.
pub open spec fn shape(s: Seq<char>) -> Seq<char> {
    shape_from(s, false)
}

/// Two routes that the matcher cannot hold together: they walk alike, or they
/// walk alike up to a point where one has a capture and the other a catch-all.
pub open spec fn clash(x: Seq<char>, y: Seq<char>) -> bool {
    let a = shape(x);
    let b = shape(y);
    a == b || exists|k: int|
        0 <= k < a.len() && k < b.len() && a.take(k) == b.take(k) && #[trigger] is_wild(a[k])
            && #[trigger] is_wild(b[k]) && a[k] != b[k]
}

/// No two paths of `paths` clash in the matcher.
pub open spec fn shapes_distinct(paths: Set<Seq<char>>) -> bool {
    forall|x: Seq<char>, y: Seq<char>|
        #[trigger] paths.contains(x) && #[trigger] paths.contains(y) && clash(x, y) ==> x == y
}

/// No path of `a` clashes in the matcher with a path of `b`.
pub open spec fn shapes_apart(a: Set<Seq<char>>, b: Set<Seq<char>>) -> bool {
    forall|x: Seq<char>, y: Seq<char>| #[trigger] a.contains(x) && #[trigger] b.contains(y) ==> !clash(x, y)
}

/// Clashing does not depend on the order of the two routes.
pub proof fn lemma_clash_symmetric(x: Seq<char>, y: Seq<char>)
    ensures
        clash(x, y) == clash(y, x),
{
    let a = shape(x);
    let b = shape(y);
    if clash(x, y) && a != b {
        let k = choose|k: int|
            0 <= k < a.len() && k < b.len() && a.take(k) == b.take(k) && #[trigger] is_wild(a[k])
                && #[trigger] is_wild(b[k]) && a[k] != b[k];
        assert(b.take(k) == a.take(k));
    }
    if clash(y, x) && a != b {
        let k = choose|k: int|
            0 <= k < b.len() && k < a.len() && b.take(k) == a.take(k) && #[trigger] is_wild(b[k])
                && #[trigger] is_wild(a[k]) && b[k] != a[k];
        assert(a.take(k) == b.take(k));
    }
}

/// Whether no path of `a` clashes with a path of `b` does not depend on the
/// order of the two sets.
pub proof fn lemma_apart_symmetric(a: Set<Seq<char>>, b: Set<Seq<char>>)
    ensures
        shapes_apart(a, b) == shapes_apart(b, a),
{
    if shapes_apart(a, b) {
        assert forall|x: Seq<char>, y: Seq<char>| #[trigger] b.contains(x) && #[trigger] a.contains(y) implies !clash(x, y) by {
            lemma_clash_symmetric(x, y);
            assert(a.contains(y) && b.contains(x));
        }
    }
    if shapes_apart(b, a) {
        assert forall|x: Seq<char>, y: Seq<char>| #[trigger] a.contains(x) && #[trigger] b.contains(y) implies !clash(x, y) by {
            lemma_clash_symmetric(x, y);
            assert(b.contains(y) && a.contains(x));
        }
    }
}

/// The root fallback that every fallback table holds: `/` and axum's private
/// catch-all.
pub open spec fn root_fallback_paths() -> Set<Seq<char>> {
    set![seq!['/'], "/*__private__axum_fallback"@]
}

/// The fallback paths that nesting `inner` at `p` adds: its root fallback and
/// its own nested fallbacks, mounted under the prefix.
pub open spec fn mounted_fallback_paths(p: Seq<char>, inner: axum::Router<WebServiceState>) -> Set<
    Seq<char>,
> {
    mounted_paths(p, root_fallback_paths() + fallback_paths(inner))
}

/// Whether axum takes the fallbacks of `inner`, nested at `p`, into a fallback
/// table whose nested fallback paths are `existing`. Nesting at the root fails:
/// its `/` clashes with the table's own.
pub open spec fn fallback_nestable(
    p: Seq<char>,
    inner: axum::Router<WebServiceState>,
    existing: Set<Seq<char>>,
) -> bool {
    let fb = mounted_fallback_paths(p, inner);
    &&& all_routable(fb)
    &&& mount_is_injective(p, root_fallback_paths() + fallback_paths(inner))
    &&& shapes_distinct(fb)
    &&& shapes_apart(fb, existing + root_fallback_paths())
}

/// A nesting prefix accepted by axum: one without a wildcard (the empty prefix
/// means the root).
pub open spec fn valid_prefix(p: Seq<char>) -> bool {
    star_free(p)
}

pub open spec fn trim_leading_slashes(s: Seq<char>) -> Seq<char>
    decreases s.len(),
{
    if s.len() > 0 && s[0] == '/' {
        trim_leading_slashes(s.drop_first())
    } else {
        s
    }
}

/// The prefix that nesting at `p` mounts under: the empty prefix means the root.
pub open spec fn nest_prefix(p: Seq<char>) -> Seq<char> {
    if p.len() == 0 {
        seq!['/']
    } else {
        p
    }
}

/// Where a route at `q` of a fragment nested at `p` ends up.
pub open spec fn nested_path(p: Seq<char>, q: Seq<char>) -> Seq<char> {
    let pre = nest_prefix(p);
    if pre.last() == '/' {
        pre + trim_leading_slashes(q)
    } else if q == seq!['/'] {
        pre
    } else {
        pre + q
    }
}

/// The paths of a fragment once nested at `p`.
pub open spec fn mounted_paths(p: Seq<char>, paths: Set<Seq<char>>) -> Set<Seq<char>> {
    paths.map(|q: Seq<char>| nested_path(p, q))
}

/// No two routes of the fragment land on the same path when nested at `p`.
pub open spec fn mount_is_injective(p: Seq<char>, paths: Set<Seq<char>>) -> bool {
    forall|q1: Seq<char>, q2: Seq<char>|
        paths.contains(q1) && paths.contains(q2) && #[trigger] nested_path(p, q1)
            == #[trigger] nested_path(p, q2) ==> q1 == q2
}

/// Relies on axum's `Router::new`: a router with no routes and the default
/// fallback.
#[verifier::external_body]
pub(crate) fn empty_router() -> (r: axum::Router<WebServiceState>)
    ensures
        route_paths(r) == Set::<Seq<char>>::empty(),
        !custom_fallback(r),
        fallback_paths(r) == Set::<Seq<char>>::empty(),
{
    axum::Router::new()
}

/// Relies on axum's `Router::nest`: each route of `inner` is added at its nested
/// path, the outer router keeps its own fallback, and a custom fallback of
/// `inner` is nested into the outer fallback table with the nested fallbacks of
/// `inner`. axum panics on a wildcard in the prefix, on a path that its matcher
/// refuses (no leading `/`, an unnamed or doubled wildcard, a misplaced
/// catch-all, over 25 captures), and on a path that clashes with one already in
/// the table it goes to; the `requires` leaves all of these out.
#[verifier::external_body]
pub(crate) fn nest_router(
    acc: axum::Router<WebServiceState>,
    prefix: &str,
    inner: axum::Router<WebServiceState>,
) -> (r: axum::Router<WebServiceState>)
    requires
        valid_prefix(prefix@),
        all_routable(mounted_paths(prefix@, route_paths(inner))),
        mount_is_injective(prefix@, route_paths(inner)),
        shapes_distinct(mounted_paths(prefix@, route_paths(inner))),
        shapes_apart(mounted_paths(prefix@, route_paths(inner)), route_paths(acc)),
        custom_fallback(inner) ==> fallback_nestable(prefix@, inner, fallback_paths(acc)),
    ensures
        route_paths(r) == route_paths(acc) + mounted_paths(prefix@, route_paths(inner)),
        custom_fallback(r) == custom_fallback(acc),
        fallback_paths(r) == if custom_fallback(inner) {
            fallback_paths(acc) + mounted_fallback_paths(prefix@, inner)
        } else {
            fallback_paths(acc)
        },
{
    acc.nest(prefix, inner)
}

/// Relies on axum's `Router::merge`: the routes of both routers, and the one
/// custom fallback if there is one. axum panics on a path that its matcher
/// refuses or that clashes with one already routed, on two custom fallbacks,
/// and on nested fallbacks of the two sides that clash; the `requires` leaves
/// these out.
#[verifier::external_body]
pub(crate) fn merge_router(
    acc: axum::Router<WebServiceState>,
    other: axum::Router<WebServiceState>,
) -> (r: axum::Router<WebServiceState>)
    requires
        all_routable(route_paths(other)),
        shapes_distinct(route_paths(other)),
        shapes_apart(route_paths(other), route_paths(acc)),
        !(custom_fallback(acc) && custom_fallback(other)),
        shapes_apart(fallback_paths(other), fallback_paths(acc)),
    ensures
        route_paths(r) == route_paths(acc) + route_paths(other),
        custom_fallback(r) == (custom_fallback(acc) || custom_fallback(other)),
        fallback_paths(r) == fallback_paths(acc) + fallback_paths(other),
{
    acc.merge(other)
}

/// Relies on axum's `Router::route`: the method router is added at `path`.
/// axum panics on a path that its matcher refuses or that clashes with one
/// already routed; the `requires` leaves these out, and with them the merging
/// of two method routers at one path.
#[verifier::external_body]
fn route_router(
    acc: axum::Router<WebServiceState>,
    path: &str,
    method_router: axum::routing::MethodRouter<WebServiceState>,
) -> (r: axum::Router<WebServiceState>)
    requires
        routable(path@),
        forall|y: Seq<char>| #[trigger] route_paths(acc).contains(y) ==> !clash(y, path@),
    ensures
        route_paths(r) == route_paths(acc).insert(path@),
        custom_fallback(r) == custom_fallback(acc),
        fallback_paths(r) == fallback_paths(acc),
{
    acc.route(path, method_router)
}

/// A fragment without routes, to which `with_route` adds them.
pub fn new_fragment() -> (r: axum::Router<WebServiceState>)
    ensures
        route_paths(r) == Set::<Seq<char>>::empty(),
        !custom_fallback(r),
        fallback_paths(r) == Set::<Seq<char>>::empty(),
{
    empty_router()
}

/// `fragment` with `method_router` added at `path`, which must be a path that
/// clashes with none of the fragment's routes.
pub fn with_route(
    fragment: axum::Router<WebServiceState>,
    path: &str,
    method_router: axum::routing::MethodRouter<WebServiceState>,
) -> (r: axum::Router<WebServiceState>)
    requires
        routable(path@),
        forall|y: Seq<char>| #[trigger] route_paths(fragment).contains(y) ==> !clash(y, path@),
    ensures
        route_paths(r) == route_paths(fragment).insert(path@),
        custom_fallback(r) == custom_fallback(fragment),
        fallback_paths(r) == fallback_paths(fragment),
{
    route_router(fragment, path, method_router)
}

/// Relies on axum's `Clone` for `Router`: the copy shares the routes and
/// fallbacks of the original.
#[verifier::external_body]
pub(crate) fn copy_router(r: &axum::Router<WebServiceState>) -> (c: axum::Router<WebServiceState>)
    ensures
        route_paths(c) == route_paths(*r),
        custom_fallback(c) == custom_fallback(*r),
        fallback_paths(c) == fallback_paths(*r),
{
    r.clone()
}

/// Relies on axum's `Router::with_state`: the same routes, with the state
/// supplied to every handler.
#[verifier::external_body]
pub(crate) fn supply_state(r: axum::Router<WebServiceState>, state: WebServiceState) -> (s:
    axum::Router)
    ensures
        served_paths(s) == route_paths(r),
{
    r.with_state(state)
}

} // verus!
