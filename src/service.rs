//! The registry: route fragments and server settings, kept per named context.

use vstd::prelude::*;

verus! {

/// The port that a context without a server configuration listens on.
pub const DEFAULT_PORT: u16 = 3000;

/// How a fragment joins the router of its context.
#[derive(Clone)]
pub enum RouterKind {
    /// Mounted under a path prefix.
    Nest(String),
    /// Spliced in at the top level.
    Merge,
}

impl RouterKind {
    /// The prefix that a `Nest` mounts under; `None` for a `Merge`.
    pub open spec fn prefix(self) -> Option<Seq<char>> {
        match self {
            RouterKind::Nest(p) => Some(p@),
            RouterKind::Merge => None,
        }
    }
}

/// The state handed to every handler of a served router.
#[derive(Clone, Copy)]
pub struct WebServiceState;

/// One registration: a fragment and the way it joins its context's router.
pub struct WebServiceRouter {
    pub router: axum::Router<WebServiceState>,
    pub kind: RouterKind,
}

impl View for WebServiceRouter {
    type V = Entry;

    open spec fn view(&self) -> Self::V {
        (self.kind.prefix(), self.router)
    }
}

impl WebServiceRouter {
    pub fn new(router: axum::Router<WebServiceState>, kind: RouterKind) -> (r: Self)
        ensures
            r.router == router,
            r.kind == kind,
    {
        Self { router, kind }
    }
}

/// A registration as the contracts see it: the nesting prefix (`None` for a
/// merge) and the fragment.
pub type Entry = (Option<Seq<char>>, axum::Router<WebServiceState>);

/// The server settings of one context.
#[derive(Clone)]
pub struct WebServiceConfig {
    pub ctx: String,
    pub port: u16,
}

impl Default for WebServiceConfig {
    fn default() -> (r: Self)
        ensures
            r.ctx@ == "default"@,
            r.port == DEFAULT_PORT,
    {
        Self { ctx: "default".to_owned(), port: DEFAULT_PORT }
    }
}

/// Route fragments and server configurations, keyed by context name.
///
/// Contexts are kept in the order of their first registration, each fragment
/// list in registration order, and each name at most once in either table.
pub struct WebService {
    pub(crate) services: Vec<(String, Vec<WebServiceRouter>)>,
    pub(crate) servers: Vec<WebServiceConfig>,
}

/// In a sequence without duplicates, `index_of` finds the one position of an
/// element.
pub proof fn lemma_index_of_unique<A>(s: Seq<A>, k: int)
    requires
        s.no_duplicates(),
        0 <= k < s.len(),
    ensures
        s.index_of(s[k]) == k,
{
    assert(s.contains(s[k]));
}

impl WebService {
    /// The contexts that have fragments, in order of first registration.
    pub open(crate) spec fn contexts(&self) -> Seq<Seq<char>> {
        self.services@.map_values(|e: (String, Vec<WebServiceRouter>)| e.0@)
    }

    /// The contexts that have a server configuration.
    pub open(crate) spec fn configured(&self) -> Seq<Seq<char>> {
        self.servers@.map_values(|c: WebServiceConfig| c.ctx@)
    }

    /// The contexts that get a listener: those with fragments, in order of first
    /// registration, then those with only a server configuration.
    pub open(crate) spec fn served_contexts(&self) -> Seq<Seq<char>> {
        self.contexts() + self.configured().filter(|c: Seq<char>| !self.contexts().contains(c))
    }

    pub open(crate) spec fn wf(&self) -> bool {
        &&& self.contexts().no_duplicates()
        &&& self.configured().no_duplicates()
    }

    /// The registrations of `ctx`, in order; empty for an unknown context.
    pub open(crate) spec fn routes_of(&self, ctx: Seq<char>) -> Seq<Entry> {
        if self.contexts().contains(ctx) {
            self.services@[self.contexts().index_of(ctx)].1@.map_values(
                |e: WebServiceRouter| e@,
            )
        } else {
            seq![]
        }
    }

    /// The port configured for `ctx`, if any.
    pub open(crate) spec fn port_of(&self, ctx: Seq<char>) -> Option<u16> {
        if self.configured().contains(ctx) {
            Some(self.servers@[self.configured().index_of(ctx)].port)
        } else {
            None
        }
    }

    /// The port that `ctx` listens on.
    pub open spec fn listen_port(&self, ctx: Seq<char>) -> u16 {
        match self.port_of(ctx) {
            Some(p) => p,
            None => DEFAULT_PORT,
        }
    }

    /// `next` is `self` with `entry` appended to the registrations of `ctx`,
    /// and nothing else changed.
    pub open spec fn registered(&self, next: &Self, ctx: Seq<char>, entry: Entry) -> bool {
        &&& next.routes_of(ctx) == self.routes_of(ctx).push(entry)
        &&& forall|c: Seq<char>| c != ctx ==> #[trigger] next.routes_of(c) == self.routes_of(c)
        &&& next.contexts() == if self.contexts().contains(ctx) {
            self.contexts()
        } else {
            self.contexts().push(ctx)
        }
        &&& next.configured() == self.configured()
        &&& forall|c: Seq<char>| #[trigger] next.port_of(c) == self.port_of(c)
    }

    /// `next` is `self` with the configuration of `ctx` set to `port`, and
    /// nothing else changed.
    pub open spec fn reconfigured(&self, next: &Self, ctx: Seq<char>, port: u16) -> bool {
        &&& next.port_of(ctx) == Some(port)
        &&& forall|c: Seq<char>| c != ctx ==> #[trigger] next.port_of(c) == self.port_of(c)
        &&& next.configured() == if self.configured().contains(ctx) {
            self.configured()
        } else {
            self.configured().push(ctx)
        }
        &&& forall|c: Seq<char>| #[trigger] next.routes_of(c) == self.routes_of(c)
        &&& next.contexts() == self.contexts()
    }

    pub fn new() -> (s: Self)
        ensures
            s.wf(),
            s.contexts() == Seq::<Seq<char>>::empty(),
            s.configured() == Seq::<Seq<char>>::empty(),
            forall|c: Seq<char>| #[trigger] s.routes_of(c) == Seq::<Entry>::empty(),
            forall|c: Seq<char>| #[trigger] s.port_of(c) == None::<u16>,
    {
        let s = WebService { services: Vec::new(), servers: Vec::new() };
        assert(s.contexts() =~= Seq::<Seq<char>>::empty());
        assert(s.configured() =~= Seq::<Seq<char>>::empty());
        s
    }

    /// The position of `key` among the contexts with fragments.
    pub(crate) fn find_context(&self, key: &String) -> (r: Option<usize>)
        requires
            self.wf(),
        ensures
            r is Some <==> self.contexts().contains(key@),
            r matches Some(i) ==> i < self.services@.len() && i == self.contexts().index_of(key@),
    {
        let mut i: usize = 0;
        while i < self.services.len()
            invariant
                self.wf(),
                i <= self.services@.len(),
                forall|j: int| 0 <= j < i ==> self.contexts()[j] != key@,
            decreases self.services@.len() - i,
        {
            if self.services[i].0 == *key {
                proof {
                    lemma_index_of_unique(self.contexts(), i as int);
                }
                return Some(i);
            }
            i = i + 1;
        }
        None
    }

    /// The position of `key` among the configured contexts.
    fn find_server(&self, key: &String) -> (r: Option<usize>)
        requires
            self.wf(),
        ensures
            r is Some <==> self.configured().contains(key@),
            r matches Some(i) ==> i < self.servers@.len() && i == self.configured().index_of(key@),
    {
        let mut i: usize = 0;
        while i < self.servers.len()
            invariant
                self.wf(),
                i <= self.servers@.len(),
                forall|j: int| 0 <= j < i ==> self.configured()[j] != key@,
            decreases self.servers@.len() - i,
        {
            if self.servers[i].ctx == *key {
                proof {
                    lemma_index_of_unique(self.configured(), i as int);
                }
                return Some(i);
            }
            i = i + 1;
        }
        None
    }

    /// Appends `entry` to the registrations of `ctx`, adding the context if it
    /// has none yet.
    fn register(&mut self, ctx: &str, entry: WebServiceRouter)
        requires
            old(self).wf(),
        ensures
            final(self).wf(),
            old(self).registered(final(self), ctx@, entry@),
    {
        let key = ctx.to_owned();
        match self.find_context(&key) {
            Some(i) => {
                let ghost before = self.contexts();
                let (k, mut entries) = self.services.remove(i);
                entries.push(entry);
                self.services.insert(i, (k, entries));
                assert(self.contexts() =~= before);
                proof {
                    lemma_index_of_unique(before, i as int);
                    assert forall|c: Seq<char>| c != ctx@ implies #[trigger] self.routes_of(c) == old(self).routes_of(c) by {
                        if before.contains(c) {
                            let j = before.index_of(c);
                            assert(j != i);
                            assert(self.services@[j] == old(self).services@[j]);
                        }
                    }
                    assert(self.routes_of(ctx@) =~= old(self).routes_of(ctx@).push(entry@));
                }
            },
            None => {
                let ghost before = self.contexts();
                let mut entries: Vec<WebServiceRouter> = Vec::new();
                entries.push(entry);
                self.services.push((key, entries));
                assert(self.contexts() =~= before.push(ctx@));
                proof {
                    let n = before.len() as int;
                    assert(self.contexts()[n] == ctx@);
                    lemma_index_of_unique(self.contexts(), n);
                    assert forall|c: Seq<char>| c != ctx@ implies #[trigger] self.routes_of(c) == old(self).routes_of(c) by {
                        if before.contains(c) {
                            let j = before.index_of(c);
                            lemma_index_of_unique(self.contexts(), j);
                            assert(self.contexts()[j] == c);
                            assert(self.services@[j] == old(self).services@[j]);
                        } else {
                            if self.contexts().contains(c) {
                                let j = self.contexts().index_of(c);
                                assert(j != n);
                                assert(before[j] == c);
                            }
                        }
                    }
                    assert(self.routes_of(ctx@) =~= old(self).routes_of(ctx@).push(entry@));
                }
            },
        }
    }

    /// Registers `router` to be mounted under `nest` in the router of `ctx`.
    pub fn nesting(&mut self, ctx: &str, nest: &str, router: axum::Router<WebServiceState>)
        requires
            old(self).wf(),
        ensures
            final(self).wf(),
            old(self).registered(final(self), ctx@, (Some(nest@), router)),
    {
        self.register(ctx, WebServiceRouter::new(router, RouterKind::Nest(nest.to_owned())));
    }

    /// Registers `router` to be merged into the router of `ctx`.
    pub fn merging(&mut self, ctx: &str, router: axum::Router<WebServiceState>)
        requires
            old(self).wf(),
        ensures
            final(self).wf(),
            old(self).registered(final(self), ctx@, (None, router)),
    {
        self.register(ctx, WebServiceRouter::new(router, RouterKind::Merge));
    }

    /// Sets the configuration of `server.ctx`, replacing any earlier one whole.
    pub fn add_server(&mut self, server: WebServiceConfig)
        requires
            old(self).wf(),
        ensures
            final(self).wf(),
            old(self).reconfigured(final(self), server.ctx@, server.port),
    {
        let ghost key = server.ctx@;
        let ghost before = self.configured();
        match self.find_server(&server.ctx) {
            Some(i) => {
                self.servers.set(i, server);
                assert(self.configured() =~= before);
                assert(before.contains(key));
                proof {
                    lemma_index_of_unique(before, i as int);
                    assert forall|c: Seq<char>| c != key implies #[trigger] self.port_of(c) == old(self).port_of(c) by {
                        if before.contains(c) {
                            let j = before.index_of(c);
                            assert(j != i);
                        }
                    }
                }
            },
            None => {
                self.servers.push(server);
                assert(self.configured() =~= before.push(key));
                proof {
                    let n = before.len() as int;
                    assert(self.configured()[n] == key);
                    lemma_index_of_unique(self.configured(), n);
                    assert forall|c: Seq<char>| c != key implies #[trigger] self.port_of(c) == old(self).port_of(c) by {
                        if before.contains(c) {
                            let j = before.index_of(c);
                            lemma_index_of_unique(self.configured(), j);
                            assert(self.configured()[j] == c);
                        } else {
                            if self.configured().contains(c) {
                                let j = self.configured().index_of(c);
                                assert(j != n);
                                assert(before[j] == c);
                            }
                        }
                    }
                }
            },
        }
    }

    /// The configuration that `ctx` is served with: its own, or the default one.
    pub fn server_config(&self, ctx: &str) -> (r: WebServiceConfig)
        requires
            self.wf(),
        ensures
            r.port == self.listen_port(ctx@),
            self.port_of(ctx@) is Some ==> r.ctx@ == ctx@,
            self.port_of(ctx@) is None ==> r.ctx@ == "default"@,
    {
        let key = ctx.to_owned();
        match self.find_server(&key) {
            Some(i) => WebServiceConfig {
                ctx: self.servers[i].ctx.clone(),
                port: self.servers[i].port,
            },
            None => WebServiceConfig::default(),
        }
    }
}

} // verus!
