//! The reachability engine: cycle-safe traversal of the direct call graph,
//! with memoization of completed sub-graphs.
//!
//! The traversal context keeps two collections: `reached`, the
//! insertion-ordered set of functions reached in the current top-level
//! traversal (cleared before each new entry), and a `completed` cache mapping
//! a function to its full transitive callee set (never cleared, and an entry,
//! once registered, is final). Both collections come from an outside crate
//! and are used through trusted wrappers whose contracts speak of the named
//! contents [`index_set_elems`] and [`index_map_entries`].

use vstd::prelude::*;
use indexmap::{IndexMap, IndexSet};
use crate::cache::FunctionCache;
use crate::program::{
    Program, lemma_closed_set_covers, lemma_edge_reaches, lemma_reaches_in_range,
    lemma_reaches_step, lemma_reaches_trans, reaches,
};

verus! {

#[verifier::external_type_specification]
#[verifier::external_body]
#[verifier::reject_recursive_types(T)]
#[verifier::reject_recursive_types(S)]
pub struct ExIndexSet<T, S>(IndexSet<T, S>);

#[verifier::external_type_specification]
#[verifier::external_body]
#[verifier::reject_recursive_types(K)]
#[verifier::reject_recursive_types(V)]
#[verifier::reject_recursive_types(S)]
pub struct ExIndexMap<K, V, S>(IndexMap<K, V, S>);

/// The elements of an insertion-ordered set, in insertion order.
pub uninterp spec fn index_set_elems(s: IndexSet<usize>) -> Seq<usize>;

/// The completed-graph cache collection: function index to its transitive
/// callee list.
pub type CompletedMap = IndexMap<usize, Vec<usize>>;

/// The entries of an insertion-ordered map, as a map from key to the view of
/// its value.
pub uninterp spec fn index_map_entries(m: CompletedMap) -> Map<usize, Seq<usize>>;

/// The contents of an empty completed-graph cache.
pub open spec fn no_entries() -> Map<usize, Seq<usize>> {
    Map::empty()
}

/// Relies on indexmap::IndexSet::new: a fresh set is empty.
#[verifier::external_body]
fn idx_set_new() -> (r: IndexSet<usize>)
    ensures
        index_set_elems(r) == Seq::<usize>::empty(),
{
    IndexSet::new()
}

/// Relies on indexmap::IndexSet::insert: a value not yet present is appended
/// and `true` returned; a present value leaves the set unchanged, `false`
/// returned.
#[verifier::external_body]
fn idx_set_insert(s: &mut IndexSet<usize>, v: usize) -> (r: bool)
    ensures
        r == !index_set_elems(*old(s)).contains(v),
        index_set_elems(*final(s)) == if index_set_elems(*old(s)).contains(v) {
            index_set_elems(*old(s))
        } else {
            index_set_elems(*old(s)).push(v)
        },
{
    s.insert(v)
}

/// Relies on indexmap::IndexSet::contains.
#[verifier::external_body]
fn idx_set_contains(s: &IndexSet<usize>, v: usize) -> (r: bool)
    ensures
        r == index_set_elems(*s).contains(v),
{
    s.contains(&v)
}

/// Relies on indexmap::IndexSet::clear: all elements are removed.
#[verifier::external_body]
fn idx_set_clear(s: &mut IndexSet<usize>)
    ensures
        index_set_elems(*final(s)) == Seq::<usize>::empty(),
{
    s.clear()
}

/// Relies on indexmap::IndexSet::iter: the elements come out in insertion
/// order.
#[verifier::external_body]
fn idx_set_to_vec(s: &IndexSet<usize>) -> (r: Vec<usize>)
    ensures
        r@ == index_set_elems(*s),
{
    s.iter().copied().collect()
}

/// Relies on indexmap::IndexMap::new: a fresh map is empty.
#[verifier::external_body]
fn idx_map_new() -> (r: CompletedMap)
    ensures
        index_map_entries(r) == no_entries(),
{
    IndexMap::new()
}

/// Relies on indexmap::IndexMap::get (and Option::cloned): the value stored
/// under the key, if any.
#[verifier::external_body]
fn idx_map_get(m: &CompletedMap, k: usize) -> (r: Option<Vec<usize>>)
    ensures
        match r {
            Option::Some(v) => index_map_entries(*m).dom().contains(k) && v@ == index_map_entries(
                *m,
            )[k],
            Option::None => !index_map_entries(*m).dom().contains(k),
        },
{
    m.get(&k).cloned()
}

/// Relies on indexmap::IndexMap::insert: the value is stored under the key;
/// the previous value, if any, is returned (and the key was present exactly
/// when one is).
#[verifier::external_body]
fn idx_map_insert(m: &mut CompletedMap, k: usize, v: Vec<usize>) -> (r: Option<Vec<usize>>)
    ensures
        index_map_entries(*final(m)) == index_map_entries(*old(m)).insert(k, v@),
        r is Some <==> index_map_entries(*old(m)).dom().contains(k),
{
    m.insert(k, v)
}

/// Relies on indexmap::IndexMap::contains_key.
#[verifier::external_body]
fn idx_map_contains(m: &CompletedMap, k: usize) -> (r: bool)
    ensures
        r == index_map_entries(*m).dom().contains(k),
{
    m.contains_key(&k)
}

/// Traversal state shared across calls and top-level functions.
pub struct CtxInner {
    /// Functions reached in the current top-level traversal, in first
    /// occurrence order. Cleared at each new top-level function.
    reached: IndexSet<usize>,
    /// Completed call graphs: for each registered function, its full
    /// transitive callee set. Entries are final; persists across traversals.
    cache: CompletedMap,
}

/// The traversal context. Passed explicitly through the analysis.
pub struct Ctx {
    inner: CtxInner,
}

/// A completed call graph for one function: the set of all functions
/// transitively reachable from it.
pub struct CallGraph {
    /// The function this graph was computed for.
    pub func: usize,
    /// Its transitive callees, each exactly once, in first-reached order.
    pub callees: Vec<usize>,
}

/// State of pushing one callee during a traversal.
pub enum PushState {
    /// Never seen in this traversal: recurse into it.
    FirstPush,
    /// Seen earlier in this traversal but not yet complete (a cycle or a
    /// shared-callee join): do not recurse.
    Reached,
    /// A previously completed sub-graph: splice it in without recursing.
    FullCallGraph(CallGraph),
}

impl PushState {
    pub fn is_fist_push(&self) -> (r: bool)
        ensures
            r == (self is FirstPush),
    {
        matches!(self, PushState::FirstPush)
    }

    pub fn get_call_graph(self) -> (r: Option<CallGraph>)
        ensures
            match self {
                PushState::FullCallGraph(g) => r matches Option::Some(rg) && rg == g,
                _ => r is None,
            },
    {
        match self {
            PushState::FullCallGraph(callgraph) => Option::Some(callgraph),
            _ => Option::None,
        }
    }
}

/// A correct completed entry for `k`: exactly the functions reachable from
/// `k`, each once.
pub open spec fn completed_entry_ok(p: &Program, k: usize, s: Seq<usize>) -> bool {
    &&& s.no_duplicates()
    &&& forall|x: usize| s.contains(x) <==> reaches(p, k as int, x as int)
}

impl Ctx {
    /// The functions reached in the current traversal, in insertion order.
    pub closed spec fn reached(&self) -> Seq<usize> {
        index_set_elems(self.inner.reached)
    }

    /// The completed call graphs registered so far.
    pub closed spec fn completed(&self) -> Map<usize, Seq<usize>> {
        index_map_entries(self.inner.cache)
    }

    /// Context consistency with program `p`: every completed entry is the
    /// true reachable set of its function.
    pub open spec fn wf(&self, p: &Program) -> bool {
        forall|k: usize|
            #[trigger] self.completed().dom().contains(k) ==> completed_entry_ok(
                p,
                k,
                self.completed()[k],
            )
    }

    /// A fresh context: nothing reached, nothing completed.
    pub fn new() -> (r: Ctx)
        ensures
            r.reached() == Seq::<usize>::empty(),
            r.completed() == Map::<usize, Seq<usize>>::empty(),
    {
        Ctx { inner: CtxInner { reached: idx_set_new(), cache: idx_map_new() } }
    }

    /// Clear the reached set. Called at each new top-level function; the
    /// completed cache persists.
    pub fn clear_reached_set(&mut self)
        ensures
            final(self).reached() == Seq::<usize>::empty(),
            final(self).completed() == old(self).completed(),
    {
        idx_set_clear(&mut self.inner.reached);
    }

    /// Push one reached function. Returns whether the call was reached
    /// before in this traversal, and the completed call graph registered for
    /// it, if any.
    pub fn push_reached_fn(&mut self, id: usize) -> (r: (bool, Option<CallGraph>))
        ensures
            final(self).completed() == old(self).completed(),
            r.0 == old(self).reached().contains(id),
            final(self).reached() == if old(self).reached().contains(id) {
                old(self).reached()
            } else {
                old(self).reached().push(id)
            },
            match r.1 {
                Option::Some(g) => old(self).completed().dom().contains(id) && g.func == id
                    && g.callees@ == old(self).completed()[id],
                Option::None => !old(self).completed().dom().contains(id),
            },
    {
        let callgraph = match idx_map_get(&self.inner.cache, id) {
            Option::Some(callees) => Option::Some(CallGraph { func: id, callees }),
            Option::None => Option::None,
        };
        let newly = idx_set_insert(&mut self.inner.reached, id);
        (!newly, callgraph)
    }

    /// Whether a completed call graph is registered for `id`.
    pub fn has_call_graph(&self, id: usize) -> (r: bool)
        ensures
            r == self.completed().dom().contains(id),
    {
        idx_map_contains(&self.inner.cache, id)
    }

    /// Register a completed call graph. An identity may be registered only
    /// once and only with its true reachable set: re-registration would mean
    /// a sub-graph was computed twice, a correctness hazard for hashing.
    pub fn push_call_graph(&mut self, p: &Program, id: usize, callgraph: CallGraph)
        requires
            old(self).wf(p),
            !old(self).completed().dom().contains(id),
            callgraph.func == id,
            completed_entry_ok(p, id, callgraph.callees@),
        ensures
            final(self).wf(p),
            final(self).completed() == old(self).completed().insert(id, callgraph.callees@),
            final(self).reached() == old(self).reached(),
    {
        let existed = idx_map_insert(&mut self.inner.cache, id, callgraph.callees);
        proof {
            assert(existed is None);
        }
    }
}

impl CallGraph {
    /// A new, not yet completed node for `func`.
    pub fn new(func: usize) -> (r: CallGraph)
        ensures
            r.func == func,
            r.callees@ == Seq::<usize>::empty(),
    {
        CallGraph { func, callees: Vec::new() }
    }

    /// Push one callee into the traversal: insert it into the reached set
    /// and report which of the three states it is in. The completed cache is
    /// consulted first: a callee with a registered sub-graph is
    /// `FullCallGraph` even when it was already reached, since `Reached`
    /// means seen but not yet complete.
    pub fn push(&self, ctx: &mut Ctx, callee: usize) -> (st: PushState)
        ensures
            final(ctx).completed() == old(ctx).completed(),
            final(ctx).reached() == if old(ctx).reached().contains(callee) {
                old(ctx).reached()
            } else {
                old(ctx).reached().push(callee)
            },
            match st {
                PushState::FullCallGraph(g) => old(ctx).completed().dom().contains(callee)
                    && g.func == callee && g.callees@ == old(ctx).completed()[callee],
                PushState::Reached => !old(ctx).completed().dom().contains(callee) && old(
                    ctx,
                ).reached().contains(callee),
                PushState::FirstPush => !old(ctx).completed().dom().contains(callee) && !old(
                    ctx,
                ).reached().contains(callee),
            },
    {
        let (reached_before, callgraph) = ctx.push_reached_fn(callee);
        if let Option::Some(call_graph) = callgraph {
            PushState::FullCallGraph(call_graph)
        } else if reached_before {
            PushState::Reached
        } else {
            PushState::FirstPush
        }
    }
}

/// A sequence without duplicates whose elements lie below `n` has at most `n`
/// elements.
proof fn lemma_bounded_no_dup_seq_len(s: Seq<usize>, n: int)
    requires
        s.no_duplicates(),
        n >= 0,
        forall|i: int| 0 <= i < s.len() ==> (s[i] as int) < n,
    ensures
        s.len() <= n,
{
    let si = s.map_values(|x: usize| x as int);
    assert(si.no_duplicates()) by {
        assert forall|i: int, j: int|
            0 <= i < si.len() && 0 <= j < si.len() && i != j implies si[i] != si[j] by {
            assert(s[i] != s[j]);
        }
    }
    si.unique_seq_to_set();
    let range = vstd::set_lib::set_int_range(0, n);
    vstd::set_lib::lemma_int_range(0, n);
    assert(si.to_set().subset_of(range)) by {
        assert forall|x: int| si.to_set().contains(x) implies range.contains(x) by {
            let k = choose|k: int| 0 <= k < si.len() && si[k] == x;
            assert((s[k] as int) < n);
        }
    }
    vstd::set_lib::lemma_len_subset(si.to_set(), range);
}

/// Pushing keeps every element present.
proof fn lemma_contains_after_push(s: Seq<usize>, y: usize, x: usize)
    requires
        s.contains(x),
    ensures
        s.push(y).contains(x),
{
    let i = choose|i: int| 0 <= i < s.len() && s[i] == x;
    assert(s.push(y)[i] == x);
}

/// Pushing a fresh element keeps a sequence duplicate-free.
proof fn lemma_push_no_dup(s: Seq<usize>, y: usize)
    requires
        s.no_duplicates(),
        !s.contains(y),
    ensures
        s.push(y).no_duplicates(),
{
    let t = s.push(y);
    assert forall|i: int, j: int|
        0 <= i < t.len() && 0 <= j < t.len() && i != j implies t[i] != t[j] by {
        if i < s.len() && j < s.len() {
            assert(s[i] != s[j]);
        } else if i < s.len() {
            assert(t[j] == y && t[i] == s[i]);
        } else {
            assert(t[i] == y && t[j] == s[j]);
        }
    }
}

impl Ctx {
    /// Splice a completed sub-graph into the reached set: after the call,
    /// every function in the graph is reached, and nothing else was added.
    fn splice_completed(&mut self, p: &Program, id: usize, g: &CallGraph)
        requires
            old(self).wf(p),
            p.wf(),
            (id as int) < p.n(),
            old(self).completed().dom().contains(id),
            g.func == id,
            g.callees@ == old(self).completed()[id],
            old(self).reached().no_duplicates(),
            forall|i: int|
                0 <= i < old(self).reached().len() ==> (#[trigger] old(self).reached()[i] as int)
                    < p.n(),
        ensures
            final(self).completed() == old(self).completed(),
            final(self).reached().no_duplicates(),
            forall|i: int|
                0 <= i < final(self).reached().len() ==> (#[trigger] final(self).reached()[i] as int)
                    < p.n(),
            final(self).reached().len() >= old(self).reached().len(),
            forall|x: usize| old(self).reached().contains(x) ==> final(self).reached().contains(x),
            forall|x: usize|
                final(self).reached().contains(x) ==> old(self).reached().contains(x)
                    || g.callees@.contains(x),
            forall|x: usize| g.callees@.contains(x) ==> final(self).reached().contains(x),
    {
        let ghost r0 = self.reached();
        proof {
            assert(completed_entry_ok(p, id, g.callees@));
        }
        let m = g.callees.len();
        let mut j: usize = 0;
        while j < m
            invariant
                m == g.callees.len(),
                j <= m,
                p.wf(),
                (id as int) < p.n(),
                completed_entry_ok(p, id, g.callees@),
                self.completed() == old(self).completed(),
                self.reached().no_duplicates(),
                self.reached().len() >= r0.len(),
                forall|i: int|
                    0 <= i < self.reached().len() ==> (#[trigger] self.reached()[i] as int)
                        < p.n(),
                forall|x: usize| r0.contains(x) ==> self.reached().contains(x),
                forall|x: usize|
                    self.reached().contains(x) ==> r0.contains(x) || g.callees@.contains(x),
                forall|k: int| 0 <= k < j ==> self.reached().contains(g.callees@[k]),
            decreases m - j,
        {
            let y = g.callees[j];
            proof {
                assert(g.callees@.contains(g.callees@[j as int]));
                assert(reaches(p, id as int, y as int));
                lemma_reaches_in_range(p, id as int, y as int);
            }
            let ghost rp = self.reached();
            let (_newly, _cg) = self.push_reached_fn(y);
            proof {
                if !rp.contains(y) {
                    lemma_push_no_dup(rp, y);
                    assert forall|x: usize| rp.contains(x) implies self.reached().contains(x) by {
                        lemma_contains_after_push(rp, y, x);
                    }
                    assert(self.reached()[rp.len() as int] == y);
                    assert(self.reached().contains(y));
                    assert forall|x: usize|
                        self.reached().contains(x) implies rp.contains(x) || x == y by {
                        let i = choose|i: int|
                            0 <= i < self.reached().len() && self.reached()[i] == x;
                        if i < rp.len() {
                            assert(rp[i] == x);
                        }
                    }
                }
                assert forall|k: int| 0 <= k < j + 1 implies self.reached().contains(
                    g.callees@[k],
                ) by {
                    if k < j {
                        assert(self.reached().contains(g.callees@[k]));
                    } else {
                        assert(g.callees@[k] == y);
                        assert(self.reached().contains(y));
                    }
                }
            }
            j = j + 1;
        }
    }

    /// Compute the complete set of functions transitively reachable from
    /// `entry` by direct calls: exactly the functions with a call path from
    /// `entry`, each reported once, cycles and shared callees
    /// notwithstanding.
    ///
    /// The traversal is seeded with `entry`'s direct callees, never recurses
    /// into a function already reached in this traversal (which cuts cycles),
    /// and splices in completed sub-graphs from earlier traversals without
    /// re-deriving them.
    #[verifier::rlimit(60)]
    pub fn recursive_callees(&mut self, p: &Program, cache: &mut FunctionCache, entry: usize) -> (r:
        Vec<usize>)
        requires
            old(self).wf(p),
            old(cache).wf(p),
            p.wf(),
            (entry as int) < p.n(),
        ensures
            final(self).wf(p),
            final(cache).wf(p),
            final(cache).pwd() == old(cache).pwd(),
            final(cache).sysroot() == old(cache).sysroot(),
            final(self).completed() == old(self).completed(),
            r@.no_duplicates(),
            forall|x: usize| r@.contains(x) <==> reaches(p, entry as int, x as int),
            forall|i: int| 0 <= i < r@.len() ==> (r@[i] as int) < p.n(),
    {
        let ghost completed0 = self.completed();
        let ghost pwd0 = cache.pwd();
        let ghost sr0 = cache.sysroot();
        self.clear_reached_set();
        let mut worklist: Vec<usize> = match cache.get_body(p, entry) {
            Option::Some(b) => b.calls,
            Option::None => Vec::new(),
        };
        proof {
            assert forall|k: int| 0 <= k < worklist@.len() implies reaches(
                p,
                entry as int,
                #[trigger] worklist@[k] as int,
            ) by {
                assert(p.callees_of(entry as int)[k] == worklist@[k]);
                assert(p.edge(entry as int, worklist@[k] as int));
                lemma_edge_reaches(p, entry as int, worklist@[k] as int);
            }
            assert forall|c: usize|
                p.edge(entry as int, c as int) implies self.reached().contains(c)
                || worklist@.contains(c) by {
                let j = choose|j: int|
                    0 <= j < p.callees_of(entry as int).len() && p.callees_of(entry as int)[j] == (
                    c as int);
                assert(worklist@[j] == c);
            }
        }
        loop
            invariant
                p.wf(),
                (entry as int) < p.n(),
                self.wf(p),
                cache.wf(p),
                cache.pwd() == pwd0,
                cache.sysroot() == sr0,
                self.completed() == completed0,
                self.reached().no_duplicates(),
                forall|i: int|
                    0 <= i < self.reached().len() ==> (#[trigger] self.reached()[i] as int)
                        < p.n(),
                forall|x: usize| self.reached().contains(x) ==> reaches(p, entry as int, x as int),
                forall|k: int|
                    0 <= k < worklist@.len() ==> reaches(
                        p,
                        entry as int,
                        #[trigger] worklist@[k] as int,
                    ),
                forall|c: usize|
                    p.edge(entry as int, c as int) ==> self.reached().contains(c)
                        || worklist@.contains(c),
                forall|a: usize, j: int|
                    self.reached().contains(a) && 0 <= j < p.callees_of(a as int).len()
                        ==> self.reached().contains(#[trigger] p.callees_of(a as int)[j])
                        || worklist@.contains(p.callees_of(a as int)[j]),
            ensures
                worklist@.len() == 0,
            decreases p.n() - self.reached().len(), worklist.len(),
        {
            proof {
                lemma_bounded_no_dup_seq_len(self.reached(), p.n());
            }
            let l = worklist.len();
            if l == 0 {
                break ;
            }
            let ghost wl_before = worklist@;
            let ghost r_before = self.reached();
            let id = match worklist.pop() {
                Option::Some(id) => id,
                Option::None => {
                    proof {
                        assert(false);
                    }
                    0
                },
            };
            proof {
                assert(id == wl_before[wl_before.len() - 1]);
                assert(wl_before.contains(id));
                assert(reaches(p, entry as int, id as int));
                lemma_reaches_in_range(p, entry as int, id as int);
                assert forall|c: usize| wl_before.contains(c) && c != id implies worklist@.contains(
                    c,
                ) by {
                    let kk = choose|kk: int| 0 <= kk < wl_before.len() && wl_before[kk] == c;
                    if kk < wl_before.len() - 1 {
                        assert(worklist@[kk] == c);
                    }
                }
            }
            let node = CallGraph::new(id);
            let st = node.push(self, id);
            match st {
                PushState::Reached => {
                    // already processed or spliced: its callees are covered
                    proof {
                        assert forall|c: usize|
                            p.edge(entry as int, c as int) implies self.reached().contains(c)
                            || worklist@.contains(c) by {
                            if !self.reached().contains(c) && c != id {
                                assert(wl_before.contains(c));
                            }
                        }
                        assert forall|a: usize, j: int|
                            self.reached().contains(a) && 0 <= j < p.callees_of(
                                a as int,
                            ).len() implies self.reached().contains(
                            #[trigger] p.callees_of(a as int)[j],
                        ) || worklist@.contains(p.callees_of(a as int)[j]) by {
                            let c = p.callees_of(a as int)[j];
                            if !self.reached().contains(c) && c != id {
                                assert(wl_before.contains(c));
                            }
                        }
                    }
                },
                PushState::FullCallGraph(g) => {
                    // splice the completed sub-graph: id and everything
                    // reachable from it, without recursing; the callee may or
                    // may not have been reached already
                    proof {
                        if r_before.contains(id) {
                            assert(self.reached() == r_before);
                        } else {
                            assert(self.reached() == r_before.push(id));
                            lemma_push_no_dup(r_before, id);
                            assert(self.reached()[r_before.len() as int] == id);
                            assert forall|x: usize|
                                r_before.contains(x) implies self.reached().contains(x) by {
                                lemma_contains_after_push(r_before, id, x);
                            }
                        }
                        assert(self.reached().contains(id));
                        assert forall|x: usize|
                            self.reached().contains(x) implies r_before.contains(x) || x == id by {
                            let i = choose|i: int|
                                0 <= i < self.reached().len() && self.reached()[i] == x;
                            if i < r_before.len() {
                                assert(r_before[i] == x);
                            }
                        }
                        assert(completed_entry_ok(p, id, g.callees@));
                    }
                    let ghost r_mid = self.reached();
                    self.splice_completed(p, id, &g);
                    proof {
                        // soundness of the spliced elements
                        assert forall|x: usize| self.reached().contains(x) implies reaches(
                            p,
                            entry as int,
                            x as int,
                        ) by {
                            if !r_mid.contains(x) {
                                assert(g.callees@.contains(x));
                                assert(reaches(p, id as int, x as int));
                                lemma_reaches_trans(p, entry as int, id as int, x as int);
                            }
                        }
                        // closure: the spliced set is closed under calls
                        assert forall|a: usize, j: int|
                            self.reached().contains(a) && 0 <= j < p.callees_of(
                                a as int,
                            ).len() implies self.reached().contains(
                            #[trigger] p.callees_of(a as int)[j],
                        ) || worklist@.contains(p.callees_of(a as int)[j]) by {
                            let c = p.callees_of(a as int)[j];
                            if r_before.contains(a) {
                                if !r_before.contains(c) && !self.reached().contains(c) {
                                    assert(wl_before.contains(c));
                                    assert(c != id);
                                }
                            } else {
                                // a is id or a spliced callee: c is reachable
                                // from id, hence spliced in
                                assert(p.edge(a as int, c as int));
                                if a == id {
                                    lemma_edge_reaches(p, id as int, c as int);
                                } else {
                                    assert(g.callees@.contains(a));
                                    assert(reaches(p, id as int, a as int));
                                    lemma_reaches_step(p, id as int, a as int, c as int);
                                }
                                assert(g.callees@.contains(c));
                            }
                        }
                        assert forall|c: usize|
                            p.edge(entry as int, c as int) implies self.reached().contains(c)
                            || worklist@.contains(c) by {
                            if !self.reached().contains(c) && c != id {
                                assert(wl_before.contains(c));
                            }
                        }
                    }
                },
                PushState::FirstPush => {
                    // expand: fetch the body and queue its direct callees
                    proof {
                        assert(self.reached() == r_before.push(id));
                        lemma_push_no_dup(r_before, id);
                        assert(self.reached()[r_before.len() as int] == id);
                        assert(self.reached().contains(id));
                        assert forall|x: usize| r_before.contains(x) implies self.reached().contains(
                            x,
                        ) by {
                            lemma_contains_after_push(r_before, id, x);
                        }
                        assert forall|x: usize|
                            self.reached().contains(x) implies r_before.contains(x) || x == id by {
                            let i = choose|i: int|
                                0 <= i < self.reached().len() && self.reached()[i] == x;
                            if i < r_before.len() {
                                assert(r_before[i] == x);
                            }
                        }
                    }
                    let mut calls: Vec<usize> = match cache.get_body(p, id) {
                        Option::Some(b) => b.calls,
                        Option::None => Vec::new(),
                    };
                    proof {
                        assert(calls@ == p.callees_of(id as int));
                    }
                    let ghost wl_mid = worklist@;
                    worklist.append(&mut calls);
                    proof {
                        assert(worklist@ == wl_mid + p.callees_of(id as int));
                        assert forall|k: int| 0 <= k < worklist@.len() implies reaches(
                            p,
                            entry as int,
                            #[trigger] worklist@[k] as int,
                        ) by {
                            if k < wl_mid.len() {
                                assert(worklist@[k] == wl_mid[k]);
                            } else {
                                let c = p.callees_of(id as int)[k - wl_mid.len()];
                                assert(worklist@[k] == c);
                                assert(p.edge(id as int, c as int));
                                lemma_reaches_step(p, entry as int, id as int, c as int);
                            }
                        }
                        assert forall|a: usize, j: int|
                            self.reached().contains(a) && 0 <= j < p.callees_of(
                                a as int,
                            ).len() implies self.reached().contains(
                            #[trigger] p.callees_of(a as int)[j],
                        ) || worklist@.contains(p.callees_of(a as int)[j]) by {
                            let c = p.callees_of(a as int)[j];
                            if a == id {
                                assert(worklist@[wl_mid.len() + j] == c);
                                assert(worklist@.contains(c));
                            } else {
                                assert(r_before.contains(a));
                                if !self.reached().contains(c) {
                                    assert(r_before.contains(c) || wl_before.contains(c));
                                    assert(wl_before.contains(c));
                                    assert(c != id);
                                    let kk = choose|kk: int|
                                        0 <= kk < wl_mid.len() && wl_mid[kk] == c;
                                    assert(worklist@[kk] == c);
                                }
                            }
                        }
                        assert forall|c: usize|
                            p.edge(entry as int, c as int) implies self.reached().contains(c)
                            || worklist@.contains(c) by {
                            if !self.reached().contains(c) && c != id {
                                assert(wl_before.contains(c));
                                let kk = choose|kk: int|
                                    0 <= kk < wl_mid.len() && wl_mid[kk] == c;
                                assert(worklist@[kk] == c);
                            }
                        }
                    }
                },
            }
            proof {
                lemma_bounded_no_dup_seq_len(self.reached(), p.n());
            }
        }
        // the worklist is exhausted: the reached set is closed under direct
        // calls and covers the seeds, so it is exactly the reachable set
        proof {
            let rs = self.reached();
            assert(worklist@.len() == 0);
            let rset = Set::new(|i: int| exists|u: usize| i == u as int && rs.contains(u));
            assert forall|x: usize| reaches(p, entry as int, x as int) implies rs.contains(x) by {
                assert forall|c: int| p.edge(entry as int, c) implies rset.contains(c) by {
                    let j = choose|j: int|
                        0 <= j < p.callees_of(entry as int).len() && p.callees_of(entry as int)[j]
                            == c;
                    let cu = p.callees_of(entry as int)[j];
                    assert(p.edge(entry as int, cu as int));
                    assert(rs.contains(cu));
                    assert(rset.contains(cu as int));
                }
                assert forall|a: int, c: int|
                    rset.contains(a) && p.edge(a, c) implies rset.contains(c) by {
                    let au = choose|au: usize| a == au as int && rs.contains(au);
                    let j = choose|j: int| 0 <= j < p.callees_of(a).len() && p.callees_of(a)[j] == c;
                    let cu = p.callees_of(au as int)[j];
                    assert(rs.contains(cu) || worklist@.contains(cu));
                    assert(rs.contains(cu));
                    assert(rset.contains(cu as int));
                }
                lemma_closed_set_covers(p, entry as int, rset, x as int);
                let xu = choose|xu: usize| (x as int) == xu as int && rs.contains(xu);
                assert(xu == x);
            }
        }
        idx_set_to_vec(&self.inner.reached)
    }
}

} // verus!
