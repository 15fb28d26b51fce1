//! The program model: the plain-value view of what the compiler's program
//! representation supplies for one crate under analysis.
//!
//! A function definition is identified by its index in [`Program::defs`]; the
//! `def_id` string is the formatted stable identity and is unique in a
//! well-formed program. Everything the analysis consumes — bodies, direct
//! call sites, attributes, raw source records — is held here as plain data;
//! obtaining it from the compiler is the embedder's concern.

use vstd::prelude::*;
use crate::source_code::{SourceCode, source_wf};

verus! {

/// A resolved function body, reduced to what the call-graph analysis reads
/// from it: the functions it references as call targets or call-like
/// operands, in call-site order.
#[derive(Debug)]
pub struct Body {
    /// Direct callees, by definition index, in first-occurrence order.
    pub calls: Vec<usize>,
}

impl Clone for Body {
    /// A clone lists the same callees.
    fn clone(&self) -> (r: Self)
        ensures
            r.calls@ == self.calls@,
    {
        let mut calls: Vec<usize> = Vec::new();
        let n = self.calls.len();
        let mut i: usize = 0;
        while i < n
            invariant
                i <= n,
                n == self.calls.len(),
                calls@ =~= self.calls@.take(i as int),
            decreases n - i,
        {
            calls.push(self.calls[i]);
            proof {
                assert(calls@ =~= self.calls@.take(i as int + 1));
            }
            i = i + 1;
        }
        proof {
            assert(self.calls@.take(n as int) =~= self.calls@);
        }
        Body { calls }
    }
}

/// One local function-like definition.
#[derive(Debug)]
pub struct FnDef {
    /// Formatted stable identity of the definition.
    pub def_id: String,
    /// The resolved body, or `None` when the program representation reports
    /// no resolvable body (an external or intrinsic function).
    pub body: Option<Body>,
    /// Raw tool attribute strings attached to the definition, e.g.
    /// `#[kanitool::proof]`, in their collected order.
    pub attrs: Vec<String>,
    /// The raw extracted source record; its file path is not yet stripped.
    pub source: SourceCode,
}

/// The program under analysis: its local definitions.
#[derive(Debug)]
pub struct Program {
    pub defs: Vec<FnDef>,
}

impl Program {
    /// Number of definitions.
    pub open spec fn n(&self) -> int {
        self.defs@.len() as int
    }

    /// The direct callees of definition `id`, or the empty sequence when it
    /// has no body.
    pub open spec fn callees_of(&self, id: int) -> Seq<usize> {
        match self.defs@[id].body {
            Option::Some(b) => b.calls@,
            Option::None => Seq::<usize>::empty(),
        }
    }

    /// A well-formed program: callee indices are in range, identities are
    /// pairwise distinct (two identities are equal only when they denote the
    /// same definition), and every raw source record is consistent.
    pub open spec fn wf(&self) -> bool {
        &&& forall|i: int, j: int|
            0 <= i < self.n() && 0 <= j < self.callees_of(i).len() ==> (
            #[trigger] self.callees_of(i)[j]) < self.n()
        &&& forall|i: int, j: int|
            0 <= i < self.n() && 0 <= j < self.n() && i != j ==> (#[trigger] self.defs@[i].def_id@)
                != (#[trigger] self.defs@[j].def_id@)
        &&& forall|i: int| 0 <= i < self.n() ==> source_wf((#[trigger] self.defs@[i]).source@)
    }

    /// There is a direct call edge from `a` to `b`.
    pub open spec fn edge(&self, a: int, b: int) -> bool {
        &&& 0 <= a < self.n()
        &&& exists|j: int| 0 <= j < self.callees_of(a).len() && self.callees_of(a)[j] == b
    }
}

/// `s` is a chain of direct call edges in `p` (at least one edge).
pub open spec fn is_path(p: &Program, s: Seq<int>) -> bool {
    &&& s.len() >= 2
    &&& forall|k: int| 0 <= k < s.len() - 1 ==> p.edge(#[trigger] s[k], s[k + 1])
}

/// `to` is reachable from `from` by one or more direct call edges.
pub open spec fn reaches(p: &Program, from: int, to: int) -> bool {
    exists|s: Seq<int>| is_path(p, s) && s.first() == from && s.last() == to
}

/// A direct call edge is a reachability witness.
pub proof fn lemma_edge_reaches(p: &Program, a: int, b: int)
    requires
        p.edge(a, b),
    ensures
        reaches(p, a, b),
{
    let s = seq![a, b];
    assert(is_path(p, s) && s.first() == a && s.last() == b);
}

/// Extending a reachability witness by one edge.
pub proof fn lemma_reaches_step(p: &Program, a: int, b: int, c: int)
    requires
        reaches(p, a, b),
        p.edge(b, c),
    ensures
        reaches(p, a, c),
{
    let s = choose|s: Seq<int>| is_path(p, s) && s.first() == a && s.last() == b;
    let t = s.push(c);
    assert forall|k: int| 0 <= k < t.len() - 1 implies p.edge(#[trigger] t[k], t[k + 1]) by {
        if k < s.len() - 1 {
            assert(p.edge(s[k], s[k + 1]));
        } else {
            assert(t[k] == b && t[k + 1] == c);
        }
    }
    assert(is_path(p, t) && t.first() == a && t.last() == c);
}

/// Reachability is transitive.
pub proof fn lemma_reaches_trans(p: &Program, a: int, b: int, c: int)
    requires
        reaches(p, a, b),
        reaches(p, b, c),
    ensures
        reaches(p, a, c),
{
    let s = choose|s: Seq<int>| is_path(p, s) && s.first() == a && s.last() == b;
    let t = choose|t: Seq<int>| is_path(p, t) && t.first() == b && t.last() == c;
    let u = s + t.drop_first();
    assert(u.len() >= 2);
    assert forall|k: int| 0 <= k < u.len() - 1 implies p.edge(#[trigger] u[k], u[k + 1]) by {
        if k < s.len() - 1 {
            assert(p.edge(s[k], s[k + 1]));
            assert(u[k] == s[k] && u[k + 1] == s[k + 1]);
        } else if k == s.len() - 1 {
            assert(u[k] == s.last());
            assert(u[k + 1] == t[1]);
            assert(p.edge(t[0], t[1]));
        } else {
            let k2 = k - s.len();
            assert(u[k] == t[k2 + 1] && u[k + 1] == t[k2 + 2]);
            assert(p.edge(t[k2 + 1], t[k2 + 2]));
        }
    }
    assert(u.first() == a && u.last() == c);
    assert(is_path(p, u));
}

/// Any set that contains the direct callees of `entry` and is closed under
/// direct call edges contains everything reachable from `entry`.
pub proof fn lemma_closed_set_covers(p: &Program, entry: int, r: Set<int>, to: int)
    requires
        forall|c: int| p.edge(entry, c) ==> r.contains(c),
        forall|a: int, c: int| r.contains(a) && p.edge(a, c) ==> r.contains(c),
        reaches(p, entry, to),
    ensures
        r.contains(to),
{
    let s = choose|s: Seq<int>| is_path(p, s) && s.first() == entry && s.last() == to;
    lemma_path_tail_in_closed_set(p, entry, r, s);
}

proof fn lemma_path_tail_in_closed_set(p: &Program, entry: int, r: Set<int>, s: Seq<int>)
    requires
        forall|c: int| p.edge(entry, c) ==> r.contains(c),
        forall|a: int, c: int| r.contains(a) && p.edge(a, c) ==> r.contains(c),
        is_path(p, s),
        s.first() == entry,
    ensures
        r.contains(s.last()),
    decreases s.len(),
{
    if s.len() == 2 {
        assert(p.edge(s[0], s[1]));
    } else {
        let s2 = s.drop_last();
        assert(forall|k: int| 0 <= k < s2.len() - 1 ==> p.edge(#[trigger] s2[k], s2[k + 1]));
        lemma_path_tail_in_closed_set(p, entry, r, s2);
        assert(p.edge(s[s.len() - 2], s[s.len() - 1]));
        assert(s2.last() == s[s.len() - 2]);
    }
}

/// A path stays within a well-formed program's definitions.
pub proof fn lemma_reaches_in_range(p: &Program, from: int, to: int)
    requires
        p.wf(),
        reaches(p, from, to),
    ensures
        0 <= to < p.n(),
{
    let s = choose|s: Seq<int>| is_path(p, s) && s.first() == from && s.last() == to;
    let k = s.len() - 2;
    assert(p.edge(s[k], s[k + 1]));
    let a = s[k];
    let j = choose|j: int| 0 <= j < p.callees_of(a).len() && p.callees_of(a)[j] == to;
    assert(p.callees_of(a)[j] < p.n());
}


/// Two programs that agree on the first `n1` definitions, the first being
/// well-formed with exactly those definitions.
pub open spec fn extends(p1: &Program, p2: &Program) -> bool {
    &&& p1.n() <= p2.n()
    &&& forall|i: int| 0 <= i < p1.n() ==> p2.defs@[i] == #[trigger] p1.defs@[i]
}

/// In a well-formed program, a path starting among the original definitions
/// stays among them after the program is extended.
proof fn lemma_extended_path_stays(p1: &Program, p2: &Program, s: Seq<int>, k: int)
    requires
        p1.wf(),
        extends(p1, p2),
        is_path(p2, s),
        0 <= s.first() < p1.n(),
        0 <= k < s.len(),
    ensures
        0 <= s[k] < p1.n(),
    decreases k,
{
    if k > 0 {
        lemma_extended_path_stays(p1, p2, s, k - 1);
        assert(p2.edge(s[k - 1], s[k]));
        let a = s[k - 1];
        assert(p2.defs@[a] == p1.defs@[a]);
        assert(p2.callees_of(a) == p1.callees_of(a));
        let j = choose|j: int| 0 <= j < p2.callees_of(a).len() && p2.callees_of(a)[j] == s[k];
        assert(p1.callees_of(a)[j] < p1.n());
    }
}

/// Appending definitions to a well-formed program changes no reachability
/// fact between the original definitions: nothing old can reach the new
/// definitions, and no path gains or loses an edge.
pub proof fn lemma_reaches_extension(p1: &Program, p2: &Program, from: int, to: int)
    requires
        p1.wf(),
        extends(p1, p2),
        0 <= from < p1.n(),
    ensures
        reaches(p1, from, to) <==> reaches(p2, from, to),
        reaches(p2, from, to) ==> 0 <= to < p1.n(),
{
    if reaches(p1, from, to) {
        let s = choose|s: Seq<int>| is_path(p1, s) && s.first() == from && s.last() == to;
        assert forall|k: int| 0 <= k < s.len() - 1 implies p2.edge(#[trigger] s[k], s[k + 1]) by {
            assert(p1.edge(s[k], s[k + 1]));
            let a = s[k];
            assert(p2.defs@[a] == p1.defs@[a]);
            assert(p2.callees_of(a) == p1.callees_of(a));
        }
        assert(is_path(p2, s));
    }
    if reaches(p2, from, to) {
        let s = choose|s: Seq<int>| is_path(p2, s) && s.first() == from && s.last() == to;
        assert forall|k: int| 0 <= k < s.len() implies 0 <= #[trigger] s[k] < p1.n() by {
            lemma_extended_path_stays(p1, p2, s, k);
        }
        assert forall|k: int| 0 <= k < s.len() - 1 implies p1.edge(#[trigger] s[k], s[k + 1]) by {
            assert(p2.edge(s[k], s[k + 1]));
            let a = s[k];
            assert(p2.defs@[a] == p1.defs@[a]);
            assert(p2.callees_of(a) == p1.callees_of(a));
        }
        assert(is_path(p1, s));
        assert(0 <= s.last() < p1.n());
    }
}


/// Two programs of the same size that agree everywhere but at definition
/// `j`.
pub open spec fn differs_only_at(p1: &Program, p2: &Program, j: int) -> bool {
    &&& p1.n() == p2.n()
    &&& forall|i: int| 0 <= i < p1.n() && i != j ==> p2.defs@[i] == #[trigger] p1.defs@[i]
}

/// A path from `from` in either program avoids an unreachable `j`, so its
/// nodes carry over.
proof fn lemma_avoiding_path_node(
    p1: &Program,
    p2: &Program,
    j: int,
    from: int,
    s: Seq<int>,
    k: int,
)
    requires
        differs_only_at(p1, p2, j),
        is_path(p2, s),
        s.first() == from,
        from != j,
        !reaches(p1, from, j),
        0 <= k < s.len(),
    ensures
        s[k] != j,
        k > 0 ==> reaches(p1, from, s[k]),
    decreases k,
{
    if k > 0 {
        lemma_avoiding_path_node(p1, p2, j, from, s, k - 1);
        assert(p2.edge(s[k - 1], s[k]));
        let a = s[k - 1];
        assert(p2.defs@[a] == p1.defs@[a]);
        assert(p2.callees_of(a) == p1.callees_of(a));
        assert(p1.edge(a, s[k]));
        if k == 1 {
            lemma_edge_reaches(p1, from, s[k]);
        } else {
            lemma_reaches_step(p1, from, a, s[k]);
        }
    }
}

/// Changing a definition that a function cannot reach changes nothing that
/// function reaches.
pub proof fn lemma_reaches_unreachable_change(
    p1: &Program,
    p2: &Program,
    j: int,
    from: int,
    to: int,
)
    requires
        differs_only_at(p1, p2, j),
        0 <= from < p1.n(),
        from != j,
        !reaches(p1, from, j),
    ensures
        reaches(p1, from, to) <==> reaches(p2, from, to),
{
    if reaches(p1, from, to) {
        let s = choose|s: Seq<int>| is_path(p1, s) && s.first() == from && s.last() == to;
        assert forall|k: int| 0 <= k < s.len() - 1 implies p2.edge(#[trigger] s[k], s[k + 1]) by {
            assert(p1.edge(s[k], s[k + 1]));
            let a = s[k];
            assert(a != j) by {
                if k == 0 {
                } else {
                    assert(p1.edge(s[k - 1], s[k]));
                    lemma_p1_path_node_avoids(p1, j, from, s, k);
                }
            }
            assert(p2.defs@[a] == p1.defs@[a]);
            assert(p2.callees_of(a) == p1.callees_of(a));
        }
        assert(is_path(p2, s));
    }
    if reaches(p2, from, to) {
        let s = choose|s: Seq<int>| is_path(p2, s) && s.first() == from && s.last() == to;
        assert forall|k: int| 0 <= k < s.len() - 1 implies p1.edge(#[trigger] s[k], s[k + 1]) by {
            lemma_avoiding_path_node(p1, p2, j, from, s, k);
            assert(p2.edge(s[k], s[k + 1]));
            let a = s[k];
            assert(a != j);
            assert(p2.defs@[a] == p1.defs@[a]);
            assert(p2.callees_of(a) == p1.callees_of(a));
        }
        assert(is_path(p1, s));
    }
}

/// A node on a path from `from` in a program where `j` is unreachable from
/// `from` is not `j`.
proof fn lemma_p1_path_node_avoids(p1: &Program, j: int, from: int, s: Seq<int>, k: int)
    requires
        is_path(p1, s),
        s.first() == from,
        from != j,
        !reaches(p1, from, j),
        0 <= k < s.len(),
    ensures
        s[k] != j,
        k > 0 ==> reaches(p1, from, s[k]),
    decreases k,
{
    if k > 0 {
        lemma_p1_path_node_avoids(p1, j, from, s, k - 1);
        assert(p1.edge(s[k - 1], s[k]));
        if k == 1 {
            lemma_edge_reaches(p1, from, s[k]);
        } else {
            lemma_reaches_step(p1, from, s[k - 1], s[k]);
        }
    }
}

} // verus!
