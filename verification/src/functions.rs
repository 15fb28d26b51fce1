//! The analysis pipeline: filter the program's definitions down to
//! harnesses, compute each harness's transitive callees, order everything by
//! source record, and emit the fingerprinted, serialized harnesses.

use vstd::prelude::*;
use vstd::multiset::Multiset;
use core::cmp::Ordering;
use crate::attrs::{recognized_attrs, recognized_of, strings_view};
use crate::cache::{FunctionCache, PathPrefixes, spec_source_of};
use crate::call_graph::{CallGraph, Ctx, completed_entry_ok};
use crate::ordering::{
    chars_cmp, cmp_str, lemma_chars_cmp_eq, lemma_chars_cmp_flip, lemma_chars_cmp_trans,
    ord_flip, ord_then,
};
use crate::program::{Program, reaches};
use crate::serialization::{
    Callee, ClassifyError, Kind, SerFunction, SerFunctionV, callee_srcs, dedup_adj, dedup_sources,
    harness_hash, sources_view, spec_callee_src, spec_classify, spec_harness_hash,
};
use crate::source_code::{
    SourceCode, lemma_source_cmp_eq, lemma_source_cmp_flip, lemma_source_cmp_self,
    lemma_source_cmp_trans, opt_source_cmp, lemma_opt_source_cmp_eq, lemma_opt_source_cmp_flip,
    lemma_opt_source_cmp_self, lemma_opt_source_cmp_trans, source_cmp,
};

verus! {

// ************* the two sort orders *************
/// The order of callee entries: by cached source record, ties broken by
/// identity so that the order is total on distinct definitions.
pub open spec fn callee_key_cmp(
    p: &Program,
    pwd: Seq<char>,
    sr: Seq<char>,
    a: usize,
    b: usize,
) -> Ordering {
    ord_then(
        opt_source_cmp(spec_source_of(p, a as int, pwd, sr), spec_source_of(p, b as int, pwd, sr)),
        chars_cmp(p.defs@[a as int].def_id@, p.defs@[b as int].def_id@),
    )
}

/// The order of serialized harnesses: by function record, ties broken by
/// identity.
#[verifier::opaque]
pub open spec fn ser_key_cmp(a: SerFunctionV, b: SerFunctionV) -> Ordering {
    ord_then(source_cmp(a.func, b.func), chars_cmp(a.def_id, b.def_id))
}

pub proof fn lemma_callee_key_cmp_flip(
    p: &Program,
    pwd: Seq<char>,
    sr: Seq<char>,
    a: usize,
    b: usize,
)
    ensures
        callee_key_cmp(p, pwd, sr, b, a) == ord_flip(callee_key_cmp(p, pwd, sr, a, b)),
{
    lemma_opt_source_cmp_flip(
        spec_source_of(p, a as int, pwd, sr),
        spec_source_of(p, b as int, pwd, sr),
    );
    lemma_chars_cmp_flip(p.defs@[a as int].def_id@, p.defs@[b as int].def_id@);
}

pub proof fn lemma_callee_key_cmp_trans(
    p: &Program,
    pwd: Seq<char>,
    sr: Seq<char>,
    a: usize,
    b: usize,
    c: usize,
)
    requires
        callee_key_cmp(p, pwd, sr, a, b) != Ordering::Greater,
        callee_key_cmp(p, pwd, sr, b, c) != Ordering::Greater,
    ensures
        callee_key_cmp(p, pwd, sr, a, c) != Ordering::Greater,
{
    let sa = spec_source_of(p, a as int, pwd, sr);
    let sb = spec_source_of(p, b as int, pwd, sr);
    let sc = spec_source_of(p, c as int, pwd, sr);
    let ab = opt_source_cmp(sa, sb);
    let bc = opt_source_cmp(sb, sc);
    if ab == Ordering::Less || bc == Ordering::Less {
        lemma_opt_source_cmp_trans(sa, sb, sc);
    } else {
        lemma_opt_source_cmp_eq(sa, sb);
        lemma_opt_source_cmp_eq(sb, sc);
        lemma_opt_source_cmp_self(sa);
        assert(opt_source_cmp(sa, sc) == Ordering::Equal);
        lemma_chars_cmp_trans(
            p.defs@[a as int].def_id@,
            p.defs@[b as int].def_id@,
            p.defs@[c as int].def_id@,
        );
    }
}

/// On a well-formed program, the callee order is strict: a tie is the same
/// definition.
pub proof fn lemma_callee_key_cmp_strict(
    p: &Program,
    pwd: Seq<char>,
    sr: Seq<char>,
    a: usize,
    b: usize,
)
    requires
        p.wf(),
        (a as int) < p.n(),
        (b as int) < p.n(),
        callee_key_cmp(p, pwd, sr, a, b) == Ordering::Equal,
    ensures
        a == b,
{
    lemma_chars_cmp_eq(p.defs@[a as int].def_id@, p.defs@[b as int].def_id@);
    if a != b {
        assert(p.defs@[a as int].def_id@ != p.defs@[b as int].def_id@);
    }
}

pub proof fn lemma_ser_key_cmp_flip(a: SerFunctionV, b: SerFunctionV)
    ensures
        ser_key_cmp(b, a) == ord_flip(ser_key_cmp(a, b)),
{
    reveal(ser_key_cmp);
    lemma_source_cmp_flip(a.func, b.func);
    lemma_chars_cmp_flip(a.def_id, b.def_id);
}

pub proof fn lemma_ser_key_cmp_trans(a: SerFunctionV, b: SerFunctionV, c: SerFunctionV)
    requires
        ser_key_cmp(a, b) != Ordering::Greater,
        ser_key_cmp(b, c) != Ordering::Greater,
    ensures
        ser_key_cmp(a, c) != Ordering::Greater,
{
    reveal(ser_key_cmp);
    let ab = source_cmp(a.func, b.func);
    let bc = source_cmp(b.func, c.func);
    if ab == Ordering::Less || bc == Ordering::Less {
        lemma_source_cmp_trans(a.func, b.func, c.func);
    } else {
        lemma_source_cmp_eq(a.func, b.func);
        lemma_source_cmp_eq(b.func, c.func);
        lemma_source_cmp_self(a.func);
        assert(source_cmp(a.func, c.func) == Ordering::Equal);
        lemma_chars_cmp_trans(a.def_id, b.def_id, c.def_id);
    }
}

/// Ties in the harness order have the same function record and identity.
pub proof fn lemma_ser_key_cmp_eq(a: SerFunctionV, b: SerFunctionV)
    requires
        ser_key_cmp(a, b) == Ordering::Equal,
    ensures
        a.func =~= b.func,
        a.def_id =~= b.def_id,
{
    reveal(ser_key_cmp);
    lemma_source_cmp_eq(a.func, b.func);
    lemma_chars_cmp_eq(a.def_id, b.def_id);
}

/// Compare two callee entries in the callee order.
fn cmp_callee_ids(p: &Program, cache: &mut FunctionCache, a: usize, b: usize) -> (r: Ordering)
    requires
        p.wf(),
        old(cache).wf(p),
        (a as int) < p.n(),
        (b as int) < p.n(),
    ensures
        final(cache).wf(p),
        final(cache).pwd() == old(cache).pwd(),
        final(cache).sysroot() == old(cache).sysroot(),
        r == callee_key_cmp(p, old(cache).pwd(), old(cache).sysroot(), a, b),
{
    let c = cache.cmp_callees(p, a, b);
    if matches!(c, Ordering::Equal) {
        cmp_str(p.defs[a].def_id.as_str(), p.defs[b].def_id.as_str())
    } else {
        c
    }
}

/// Compare two serialized harnesses in the harness order.
fn cmp_ser_functions(a: &SerFunction, b: &SerFunction) -> (r: Ordering)
    ensures
        r == ser_key_cmp(a@, b@),
{
    proof {
        reveal(ser_key_cmp);
    }
    let c = a.cmp_by_file_and_func(b);
    if matches!(c, Ordering::Equal) {
        cmp_str(a.def_id.as_str(), b.def_id.as_str())
    } else {
        c
    }
}

// ************* sorting *************
/// Sort the callee list by source record, identity-tie-broken. Selection
/// sort: repeatedly extract the minimum.
fn sort_callee_ids(p: &Program, cache: &mut FunctionCache, v: Vec<usize>) -> (r: Vec<usize>)
    requires
        p.wf(),
        old(cache).wf(p),
        forall|i: int| 0 <= i < v@.len() ==> (v@[i] as int) < p.n(),
    ensures
        final(cache).wf(p),
        final(cache).pwd() == old(cache).pwd(),
        final(cache).sysroot() == old(cache).sysroot(),
        r@.to_multiset() == v@.to_multiset(),
        forall|i: int| 0 <= i < r@.len() ==> (r@[i] as int) < p.n(),
        forall|i: int, j: int|
            0 <= i < j < r@.len() ==> callee_key_cmp(
                p,
                old(cache).pwd(),
                old(cache).sysroot(),
                r@[i],
                r@[j],
            ) != Ordering::Greater,
{
    broadcast use vstd::seq_lib::group_to_multiset_ensures;

    let ghost pwd = cache.pwd();
    let ghost sr = cache.sysroot();
    let mut rest = v;
    let mut out: Vec<usize> = Vec::new();
    proof {
        assert(out@.to_multiset().add(rest@.to_multiset()) =~= v@.to_multiset());
    }
    while rest.len() > 0
        invariant
            p.wf(),
            cache.wf(p),
            cache.pwd() == pwd,
            cache.sysroot() == sr,
            out@.to_multiset().add(rest@.to_multiset()) == v@.to_multiset(),
            forall|i: int| 0 <= i < rest@.len() ==> (#[trigger] rest@[i] as int) < p.n(),
            forall|i: int| 0 <= i < out@.len() ==> (#[trigger] out@[i] as int) < p.n(),
            forall|i: int, j: int|
                0 <= i < j < out@.len() ==> callee_key_cmp(p, pwd, sr, out@[i], out@[j])
                    != Ordering::Greater,
            forall|i: int, j: int|
                0 <= i < out@.len() && 0 <= j < rest@.len() ==> callee_key_cmp(
                    p,
                    pwd,
                    sr,
                    out@[i],
                    rest@[j],
                ) != Ordering::Greater,
        decreases rest.len(),
    {
        let n = rest.len();
        let mut m: usize = 0;
        let mut k: usize = 1;
        proof {
            lemma_callee_key_cmp_flip(p, pwd, sr, rest@[0], rest@[0]);
        }
        while k < n
            invariant
                p.wf(),
                cache.wf(p),
                cache.pwd() == pwd,
                cache.sysroot() == sr,
                n == rest.len(),
                0 < n,
                m < k <= n || (m == 0 && k <= n),
                m < n,
                forall|i: int| 0 <= i < rest@.len() ==> (#[trigger] rest@[i] as int) < p.n(),
                forall|t: int|
                    0 <= t < k ==> callee_key_cmp(p, pwd, sr, rest@[m as int], rest@[t])
                        != Ordering::Greater,
            decreases n - k,
        {
            let c = cmp_callee_ids(p, cache, rest[m], rest[k]);
            if matches!(c, Ordering::Greater) {
                proof {
                    lemma_callee_key_cmp_flip(p, pwd, sr, rest@[m as int], rest@[k as int]);
                    assert forall|t: int|
                        0 <= t < k + 1 implies callee_key_cmp(
                        p,
                        pwd,
                        sr,
                        rest@[k as int],
                        rest@[t],
                    ) != Ordering::Greater by {
                        if t < k {
                            lemma_callee_key_cmp_trans(
                                p,
                                pwd,
                                sr,
                                rest@[k as int],
                                rest@[m as int],
                                rest@[t],
                            );
                        } else {
                            lemma_callee_key_cmp_flip(p, pwd, sr, rest@[k as int], rest@[k as int]);
                        }
                    }
                }
                m = k;
            } else {
                proof {
                    assert forall|t: int|
                        0 <= t < k + 1 implies callee_key_cmp(
                        p,
                        pwd,
                        sr,
                        rest@[m as int],
                        rest@[t],
                    ) != Ordering::Greater by {
                        if t == k {
                            assert(callee_key_cmp(p, pwd, sr, rest@[m as int], rest@[k as int])
                                != Ordering::Greater);
                        }
                    }
                }
            }
            k = k + 1;
        }
        let ghost rest0 = rest@;
        let ghost out0 = out@;
        let x = rest.remove(m);
        out.push(x);
        proof {
            assert(rest@ == rest0.remove(m as int));
            assert(out@ == out0.push(x));
            vstd::seq_lib::to_multiset_build(out0, x);
            vstd::seq_lib::to_multiset_remove(rest0, m as int);
            vstd::seq_lib::to_multiset_contains(rest0, x);
            assert(rest0.contains(rest0[m as int]));
            assert(rest0.to_multiset().count(x) > 0);
            assert(out@.to_multiset().add(rest@.to_multiset()) =~= out0.to_multiset().add(
                rest0.to_multiset(),
            ));
            assert forall|i: int| 0 <= i < rest@.len() implies (#[trigger] rest@[i] as int)
                < p.n() by {
                if i < m {
                    assert(rest@[i] == rest0[i]);
                } else {
                    assert(rest@[i] == rest0[i + 1]);
                }
            }
            assert forall|i: int, j: int|
                0 <= i < j < out@.len() implies callee_key_cmp(p, pwd, sr, out@[i], out@[j])
                != Ordering::Greater by {
                if j < out0.len() {
                    assert(callee_key_cmp(p, pwd, sr, out0[i], out0[j]) != Ordering::Greater);
                } else {
                    assert(out@[j] == x && x == rest0[m as int]);
                    assert(callee_key_cmp(p, pwd, sr, out0[i], rest0[m as int])
                        != Ordering::Greater);
                }
            }
            assert forall|i: int, j: int|
                0 <= i < out@.len() && 0 <= j < rest@.len() implies callee_key_cmp(
                p,
                pwd,
                sr,
                out@[i],
                rest@[j],
            ) != Ordering::Greater by {
                let y = if j < m {
                    rest0[j]
                } else {
                    rest0[j + 1]
                };
                assert(rest@[j] == y);
                if i < out0.len() {
                    assert(callee_key_cmp(p, pwd, sr, out0[i], y) != Ordering::Greater);
                } else {
                    assert(out@[i] == x && x == rest0[m as int]);
                    assert(callee_key_cmp(p, pwd, sr, rest0[m as int], y) != Ordering::Greater);
                }
            }
        }
    }
    proof {
        assert(rest@.to_multiset() =~= Multiset::<usize>::empty());
        assert(out@.to_multiset() =~= v@.to_multiset());
    }
    out
}

/// Sort the serialized harnesses by function record, identity-tie-broken.
/// Selection sort: repeatedly extract the minimum.
fn sort_ser_functions(v: Vec<SerFunction>) -> (r: Vec<SerFunction>)
    ensures
        r@.to_multiset() == v@.to_multiset(),
        forall|i: int, j: int|
            0 <= i < j < r@.len() ==> ser_key_cmp(r@[i]@, r@[j]@) != Ordering::Greater,
{
    broadcast use vstd::seq_lib::group_to_multiset_ensures;

    let mut rest = v;
    let mut out: Vec<SerFunction> = Vec::new();
    proof {
        assert(out@.to_multiset().add(rest@.to_multiset()) =~= v@.to_multiset());
    }
    while rest.len() > 0
        invariant
            out@.to_multiset().add(rest@.to_multiset()) == v@.to_multiset(),
            forall|i: int, j: int|
                0 <= i < j < out@.len() ==> ser_key_cmp(out@[i]@, out@[j]@) != Ordering::Greater,
            forall|i: int, j: int|
                0 <= i < out@.len() && 0 <= j < rest@.len() ==> ser_key_cmp(out@[i]@, rest@[j]@)
                    != Ordering::Greater,
        decreases rest.len(),
    {
        let n = rest.len();
        let mut m: usize = 0;
        let mut k: usize = 1;
        proof {
            lemma_ser_key_cmp_flip(rest@[0]@, rest@[0]@);
        }
        while k < n
            invariant
                n == rest.len(),
                0 < n,
                m < n,
                k <= n,
                forall|t: int|
                    0 <= t < k ==> ser_key_cmp(rest@[m as int]@, rest@[t]@) != Ordering::Greater,
            decreases n - k,
        {
            let c = cmp_ser_functions(&rest[m], &rest[k]);
            if matches!(c, Ordering::Greater) {
                proof {
                    lemma_ser_key_cmp_flip(rest@[m as int]@, rest@[k as int]@);
                    assert forall|t: int|
                        0 <= t < k + 1 implies ser_key_cmp(rest@[k as int]@, rest@[t]@)
                        != Ordering::Greater by {
                        if t < k {
                            lemma_ser_key_cmp_trans(
                                rest@[k as int]@,
                                rest@[m as int]@,
                                rest@[t]@,
                            );
                        } else {
                            lemma_ser_key_cmp_flip(rest@[k as int]@, rest@[k as int]@);
                        }
                    }
                }
                m = k;
            } else {
                proof {
                    assert forall|t: int|
                        0 <= t < k + 1 implies ser_key_cmp(rest@[m as int]@, rest@[t]@)
                        != Ordering::Greater by {
                        if t == k {
                            assert(ser_key_cmp(rest@[m as int]@, rest@[k as int]@)
                                != Ordering::Greater);
                        }
                    }
                }
            }
            k = k + 1;
        }
        let ghost rest0 = rest@;
        let ghost out0 = out@;
        let x = rest.remove(m);
        out.push(x);
        proof {
            assert(rest@ == rest0.remove(m as int));
            assert(out@ == out0.push(x));
            vstd::seq_lib::to_multiset_build(out0, x);
            vstd::seq_lib::to_multiset_remove(rest0, m as int);
            vstd::seq_lib::to_multiset_contains(rest0, x);
            assert(rest0.contains(rest0[m as int]));
            assert(rest0.to_multiset().count(x) > 0);
            assert(out@.to_multiset().add(rest@.to_multiset()) =~= out0.to_multiset().add(
                rest0.to_multiset(),
            ));
            assert forall|i: int, j: int|
                0 <= i < j < out@.len() implies ser_key_cmp(out@[i]@, out@[j]@)
                != Ordering::Greater by {
                if j < out0.len() {
                    assert(ser_key_cmp(out0[i]@, out0[j]@) != Ordering::Greater);
                } else {
                    assert(out@[j] == x && x == rest0[m as int]);
                    assert(ser_key_cmp(out0[i]@, rest0[m as int]@) != Ordering::Greater);
                }
            }
            assert forall|i: int, j: int|
                0 <= i < out@.len() && 0 <= j < rest@.len() implies ser_key_cmp(
                out@[i]@,
                rest@[j]@,
            ) != Ordering::Greater by {
                let y = if j < m {
                    rest0[j]
                } else {
                    rest0[j + 1]
                };
                assert(rest@[j] == y);
                if i < out0.len() {
                    assert(ser_key_cmp(out0[i]@, y@) != Ordering::Greater);
                } else {
                    assert(out@[i] == x && x == rest0[m as int]);
                    assert(ser_key_cmp(rest0[m as int]@, y@) != Ordering::Greater);
                }
            }
        }
    }
    proof {
        assert(rest@.to_multiset() =~= Multiset::<SerFunction>::empty());
        assert(out@.to_multiset() =~= v@.to_multiset());
    }
    out
}


// ************* harness discovery *************
/// The raw attribute strings of one definition.
pub open spec fn def_attrs_view(p: &Program, id: int) -> Seq<Seq<char>> {
    strings_view(p.defs@[id].attrs@)
}

/// A definition is a harness when it carries at least one proof-kind marker
/// among its recognized tool attributes.
#[verifier::opaque]
pub open spec fn is_harness(p: &Program, id: int) -> bool {
    spec_classify(recognized_of(def_attrs_view(p, id))) != Result::<Kind, ClassifyError>::Err(
        ClassifyError::NoProofMarker,
    )
}

/// What classification yields for definition `id`.
#[verifier::opaque]
pub open spec fn classify_of(p: &Program, id: int) -> Result<Kind, ClassifyError> {
    spec_classify(recognized_of(def_attrs_view(p, id)))
}

/// The ids of a correct callee list lie within the program.
proof fn lemma_callee_list_in_range(
    p: &Program,
    pwd: Seq<char>,
    sr: Seq<char>,
    id: int,
    ids: Seq<usize>,
)
    requires
        harness_callee_list(p, pwd, sr, id, ids),
    ensures
        forall|i: int| 0 <= i < ids.len() ==> (#[trigger] ids[i] as int) < p.n(),
{
    reveal(harness_callee_list);
}

/// A correct callee list for harness `id`: exactly the definitions reachable
/// from it, each once, sorted in the callee order.
#[verifier::opaque]
pub open spec fn harness_callee_list(
    p: &Program,
    pwd: Seq<char>,
    sr: Seq<char>,
    id: int,
    ids: Seq<usize>,
) -> bool {
    &&& ids.no_duplicates()
    &&& (forall|x: usize| ids.contains(x) <==> reaches(p, id, x as int))
    &&& (forall|i: int| 0 <= i < ids.len() ==> (#[trigger] ids[i] as int) < p.n())
    &&& (forall|i: int, j: int|
        0 <= i < j < ids.len() ==> callee_key_cmp(p, pwd, sr, ids[i], ids[j]) != Ordering::Greater)
}

/// Copy a list of definition indices.
fn copy_ids(v: &Vec<usize>) -> (r: Vec<usize>)
    ensures
        r@ == v@,
{
    let mut r: Vec<usize> = Vec::new();
    let n = v.len();
    let mut i: usize = 0;
    while i < n
        invariant
            i <= n,
            n == v.len(),
            r@ =~= v@.take(i as int),
        decreases n - i,
    {
        r.push(v[i]);
        proof {
            assert(r@ =~= v@.take(i as int + 1));
        }
        i = i + 1;
    }
    proof {
        assert(v@.take(n as int) =~= v@);
    }
    r
}

/// A harness with its recognized attributes and its sorted transitive
/// callees, ready for serialization.
#[derive(Debug)]
pub struct Function {
    /// The harness's definition.
    pub id: usize,
    /// Its recognized tool attributes, grouped by marker.
    pub attrs: Vec<String>,
    /// Its transitive callees, sorted in the callee order.
    pub callees: Vec<usize>,
}

impl Function {
    /// Inspect one definition: `None` when it is not a harness; otherwise
    /// its recognized attributes and its sorted transitive callee list. The
    /// completed traversal is registered in the context's cache for later
    /// harnesses to splice in.
    pub fn new(p: &Program, cache: &mut FunctionCache, ctx: &mut Ctx, id: usize) -> (r: Option<
        Function,
    >)
        requires
            p.wf(),
            old(cache).wf(p),
            old(ctx).wf(p),
            (id as int) < p.n(),
        ensures
            final(cache).wf(p),
            final(cache).pwd() == old(cache).pwd(),
            final(cache).sysroot() == old(cache).sysroot(),
            final(ctx).wf(p),
            r is Some <==> is_harness(p, id as int),
            match r {
                Option::Some(fun) => {
                    &&& fun.id == id
                    &&& strings_view(fun.attrs@) == recognized_of(def_attrs_view(p, id as int))
                    &&& harness_callee_list(
                        p,
                        old(cache).pwd(),
                        old(cache).sysroot(),
                        id as int,
                        fun.callees@,
                    )
                },
                Option::None => true,
            },
    {
        proof {
            reveal(is_harness);
        }
        let attrs = recognized_attrs(&p.defs[id].attrs);
        if matches!(Kind::classify(&attrs), Result::Err(ClassifyError::NoProofMarker)) {
            return Option::None;
        }
        let reached = ctx.recursive_callees(p, cache, id);
        if !ctx.has_call_graph(id) {
            let node = CallGraph { func: id, callees: copy_ids(&reached) };
            proof {
                assert(completed_entry_ok(p, id, node.callees@));
            }
            ctx.push_call_graph(p, id, node);
        }
        let ghost rv = reached@;
        let callees = sort_callee_ids(p, cache, reached);
        proof {
            broadcast use vstd::seq_lib::group_to_multiset_ensures;

            rv.lemma_multiset_has_no_duplicates();
            callees@.lemma_multiset_has_no_duplicates_conv();
            assert forall|x: usize| callees@.contains(x) <==> reaches(
                p,
                id as int,
                x as int,
            ) by {
                vstd::seq_lib::to_multiset_contains(callees@, x);
                vstd::seq_lib::to_multiset_contains(rv, x);
            }
        }
        proof {
            reveal(harness_callee_list);
        }
        Option::Some(Function { id, attrs, callees })
    }
}

// ************* serialization of one harness *************
/// Everything the serialized record of harness `id` must hold, given its
/// recognized attributes and its sorted callee list.
#[verifier::opaque]
pub open spec fn ser_function_matches(
    p: &Program,
    pwd: Seq<char>,
    sr: Seq<char>,
    id: int,
    attrs: Seq<Seq<char>>,
    callee_ids: Seq<usize>,
    f: SerFunction,
) -> bool {
    &&& f.def_id@ == p.defs@[id].def_id@
    &&& f.func@ == spec_callee_src(p, pwd, sr, id)
    &&& strings_view(f.attrs@) == attrs
    &&& Result::<Kind, ClassifyError>::Ok(f.kind) == spec_classify(attrs)
    &&& f.callees_len == callee_ids.len()
    &&& f.callees@.len() == callee_ids.len()
    &&& (forall|i: int|
        0 <= i < callee_ids.len() ==> (#[trigger] f.callees@[i])@.def_id == p.defs@[callee_ids[i] as int].def_id@
            && f.callees@[i]@.func == spec_callee_src(p, pwd, sr, callee_ids[i] as int))
    &&& f.hash@ == spec_harness_hash(
        spec_callee_src(p, pwd, sr, id),
        attrs,
        dedup_adj(callee_srcs(p, pwd, sr, callee_ids)),
    )
}

impl SerFunction {
    /// Serialize one harness: resolve its own and its callees' source
    /// records, classify it, and fingerprint its content. The fingerprint
    /// covers the harness's own record, its attributes, and its callee
    /// sources with adjacent equal sources collapsed.
    pub fn new(p: &Program, cache: &mut FunctionCache, fun: Function) -> (r: SerFunction)
        requires
            p.wf(),
            old(cache).wf(p),
            (fun.id as int) < p.n(),
            forall|i: int| 0 <= i < fun.callees@.len() ==> (#[trigger] fun.callees@[i] as int) < p.n(),
            spec_classify(strings_view(fun.attrs@)) is Ok,
        ensures
            final(cache).wf(p),
            final(cache).pwd() == old(cache).pwd(),
            final(cache).sysroot() == old(cache).sysroot(),
            ser_function_matches(
                p,
                old(cache).pwd(),
                old(cache).sysroot(),
                fun.id as int,
                strings_view(fun.attrs@),
                fun.callees@,
                r,
            ),
    {
        let ghost pwd = cache.pwd();
        let ghost sr = cache.sysroot();
        let id = fun.id;
        let def_id = p.defs[id].def_id.clone();
        let attrs = fun.attrs;
        let kind = match Kind::classify(&attrs) {
            Result::Ok(k) => k,
            Result::Err(_) => {
                proof {
                    assert(false);
                }
                Kind::Standard
            },
        };
        let func = match cache.get_source_code(p, id) {
            Option::Some(s) => s,
            Option::None => SourceCode::default(),
        };
        proof {
            assert(func@ == spec_callee_src(p, pwd, sr, id as int));
        }
        let mut callees: Vec<Callee> = Vec::new();
        let mut srcs: Vec<SourceCode> = Vec::new();
        let n = fun.callees.len();
        let mut i: usize = 0;
        let ghost ids = fun.callees@;
        proof {
            assert(sources_view(srcs@) =~= callee_srcs(p, pwd, sr, ids.take(0)));
        }
        while i < n
            invariant
                i <= n,
                n == fun.callees.len(),
                ids == fun.callees@,
                p.wf(),
                cache.wf(p),
                cache.pwd() == pwd,
                cache.sysroot() == sr,
                forall|k: int| 0 <= k < ids.len() ==> (#[trigger] ids[k] as int) < p.n(),
                callees@.len() == i,
                srcs@.len() == i,
                sources_view(srcs@) == callee_srcs(p, pwd, sr, ids.take(i as int)),
                forall|k: int|
                    0 <= k < i ==> (#[trigger] callees@[k])@.def_id == p.defs@[ids[k] as int].def_id@
                        && callees@[k]@.func == spec_callee_src(p, pwd, sr, ids[k] as int),
            decreases n - i,
        {
            let cid = fun.callees[i];
            let cfunc = match cache.get_source_code(p, cid) {
                Option::Some(s) => s,
                Option::None => SourceCode::default(),
            };
            proof {
                assert(cfunc@ == spec_callee_src(p, pwd, sr, cid as int));
            }
            let ghost srcs_prev = srcs@;
            let ghost callees_prev = callees@;
            srcs.push(cfunc.clone());
            callees.push(Callee { def_id: p.defs[cid].def_id.clone(), func: cfunc });
            proof {
                assert(sources_view(srcs@) =~= sources_view(srcs_prev).push(
                    spec_callee_src(p, pwd, sr, cid as int),
                ));
                assert(callee_srcs(p, pwd, sr, ids.take(i as int + 1)) =~= callee_srcs(
                    p,
                    pwd,
                    sr,
                    ids.take(i as int),
                ).push(spec_callee_src(p, pwd, sr, ids[i as int] as int)));
                assert(sources_view(srcs@) =~= callee_srcs(p, pwd, sr, ids.take(i as int + 1)));
                assert(callees@ =~= callees_prev.push(callees@[i as int]));
            }
            i = i + 1;
        }
        proof {
            assert(ids.take(n as int) =~= ids);
        }
        let hashed = dedup_sources(&srcs);
        let hash = harness_hash(&func, &attrs, &hashed);
        let callees_len = callees.len();
        let r = SerFunction { hash, def_id, attrs, kind, func, callees_len, callees };
        proof {
            reveal(ser_function_matches);
        }
        r
    }
}


// ************* the whole analysis *************
/// The record any output entry for harness `id` must hold: a correct sorted
/// callee list exists for which the entry is the exact serialization.
#[verifier::opaque]
pub open spec fn harness_record(
    p: &Program,
    pwd: Seq<char>,
    sr: Seq<char>,
    id: int,
    f: SerFunction,
) -> bool {
    exists|ids: Seq<usize>|
        #![trigger harness_callee_list(p, pwd, sr, id, ids)]
        harness_callee_list(p, pwd, sr, id, ids) && ser_function_matches(
            p,
            pwd,
            sr,
            id,
            recognized_of(def_attrs_view(p, id)),
            ids,
            f,
        )
}

/// `f` records one of the harnesses below `i`.
pub open spec fn recorded_in(p: &Program, pwd: Seq<char>, sr: Seq<char>, i: int, f: SerFunction) -> bool {
    exists|id: int| 0 <= id < i && #[trigger] is_harness(p, id) && harness_record(p, pwd, sr, id, f)
}

/// Some entry of `proofs` records harness `id`.
pub open spec fn has_record(
    p: &Program,
    pwd: Seq<char>,
    sr: Seq<char>,
    proofs: Seq<SerFunction>,
    id: int,
) -> bool {
    exists|k: int| 0 <= k < proofs.len() && harness_record(p, pwd, sr, id, #[trigger] proofs[k])
}

/// Every collected entry records some harness below `i`.
pub open spec fn records_sound(
    p: &Program,
    pwd: Seq<char>,
    sr: Seq<char>,
    i: int,
    proofs: Seq<SerFunction>,
) -> bool {
    forall|k: int| 0 <= k < proofs.len() ==> recorded_in(p, pwd, sr, i, #[trigger] proofs[k])
}

/// Every harness below `i` classifies cleanly and is recorded by some entry.
pub open spec fn records_complete(
    p: &Program,
    pwd: Seq<char>,
    sr: Seq<char>,
    i: int,
    proofs: Seq<SerFunction>,
) -> bool {
    forall|id: int|
        0 <= id < i && #[trigger] is_harness(p, id) ==> classify_of(p, id) is Ok && has_record(
            p,
            pwd,
            sr,
            proofs,
            id,
        )
}

/// The collected entries carry pairwise distinct identities.
pub open spec fn records_distinct(proofs: Seq<SerFunction>) -> bool {
    forall|k1: int, k2: int|
        #![trigger proofs[k1], proofs[k2]]
        0 <= k1 < proofs.len() && 0 <= k2 < proofs.len() && k1 != k2 ==> proofs[k1].def_id@
            != proofs[k2].def_id@
}

/// What the analysis output is: one exact record per harness of the
/// program, nothing else, sorted in the harness order, with pairwise
/// distinct identities.
pub open spec fn analysis_post(p: &Program, pwd: Seq<char>, sr: Seq<char>, v: Seq<SerFunction>) -> bool {
    &&& records_sound(p, pwd, sr, p.n(), v)
    &&& records_complete(p, pwd, sr, p.n(), v)
    &&& (forall|k1: int, k2: int|
        0 <= k1 < k2 < v.len() ==> ser_key_cmp(v[k1]@, v[k2]@) != Ordering::Greater)
    &&& records_distinct(v)
}

/// A record of harness `id` carries that harness's identity.
proof fn lemma_record_def_id(p: &Program, pwd: Seq<char>, sr: Seq<char>, id: int, f: SerFunction)
    requires
        harness_record(p, pwd, sr, id, f),
    ensures
        f.def_id@ == p.defs@[id].def_id@,
{
    reveal(harness_record);
    reveal(ser_function_matches);
    let ids = choose|ids: Seq<usize>|
        #![trigger harness_callee_list(p, pwd, sr, id, ids)]
        harness_callee_list(p, pwd, sr, id, ids) && ser_function_matches(
            p,
            pwd,
            sr,
            id,
            recognized_of(def_attrs_view(p, id)),
            ids,
            f,
        );
}

/// Skipping a non-harness definition keeps the collected records adequate.
proof fn lemma_records_skip(
    p: &Program,
    pwd: Seq<char>,
    sr: Seq<char>,
    i: int,
    proofs: Seq<SerFunction>,
)
    requires
        records_sound(p, pwd, sr, i, proofs),
        records_complete(p, pwd, sr, i, proofs),
        !is_harness(p, i),
    ensures
        records_sound(p, pwd, sr, i + 1, proofs),
        records_complete(p, pwd, sr, i + 1, proofs),
{
    assert(records_sound(p, pwd, sr, i + 1, proofs)) by {
        assert forall|k: int| 0 <= k < proofs.len() implies recorded_in(
            p,
            pwd,
            sr,
            i + 1,
            #[trigger] proofs[k],
        ) by {
            let f = proofs[k];
            assert(recorded_in(p, pwd, sr, i, f));
            let id0 = choose|id0: int|
                0 <= id0 < i && #[trigger] is_harness(p, id0) && harness_record(
                    p,
                    pwd,
                    sr,
                    id0,
                    f,
                );
            assert(0 <= id0 < i + 1 && is_harness(p, id0) && harness_record(p, pwd, sr, id0, f));
        }
    }
    assert(records_complete(p, pwd, sr, i + 1, proofs)) by {
        assert forall|id: int| 0 <= id < i + 1 && #[trigger] is_harness(p, id) implies classify_of(
            p,
            id,
        ) is Ok && has_record(p, pwd, sr, proofs, id) by {
            assert(id < i);
        }
    }
}

/// Appending the exact record of harness `i` keeps the collected records
/// adequate and their identities distinct.
proof fn lemma_records_push(
    p: &Program,
    pwd: Seq<char>,
    sr: Seq<char>,
    i: int,
    proofs: Seq<SerFunction>,
    sf: SerFunction,
    fun_ids: Seq<usize>,
)
    requires
        p.wf(),
        0 <= i < p.n(),
        records_sound(p, pwd, sr, i, proofs),
        records_complete(p, pwd, sr, i, proofs),
        records_distinct(proofs),
        is_harness(p, i),
        classify_of(p, i) is Ok,
        harness_callee_list(p, pwd, sr, i, fun_ids),
        ser_function_matches(p, pwd, sr, i, recognized_of(def_attrs_view(p, i)), fun_ids, sf),
    ensures
        records_sound(p, pwd, sr, i + 1, proofs.push(sf)),
        records_complete(p, pwd, sr, i + 1, proofs.push(sf)),
        records_distinct(proofs.push(sf)),
{
    let pp = proofs.push(sf);
    assert(harness_record(p, pwd, sr, i, sf)) by {
        reveal(harness_record);
    }
    assert(records_sound(p, pwd, sr, i + 1, pp)) by {
        assert forall|k: int| 0 <= k < pp.len() implies recorded_in(
            p,
            pwd,
            sr,
            i + 1,
            #[trigger] pp[k],
        ) by {
            if k < proofs.len() {
                assert(pp[k] == proofs[k]);
                assert(recorded_in(p, pwd, sr, i, proofs[k]));
                let id0 = choose|id0: int|
                    0 <= id0 < i && #[trigger] is_harness(p, id0) && harness_record(
                        p,
                        pwd,
                        sr,
                        id0,
                        proofs[k],
                    );
                assert(0 <= id0 < i + 1 && is_harness(p, id0) && harness_record(
                    p,
                    pwd,
                    sr,
                    id0,
                    pp[k],
                ));
            } else {
                assert(pp[k] == sf);
                assert(0 <= i < i + 1 && is_harness(p, i) && harness_record(p, pwd, sr, i, pp[k]));
            }
        }
    }
    assert(records_complete(p, pwd, sr, i + 1, pp)) by {
        assert forall|id: int| 0 <= id < i + 1 && #[trigger] is_harness(p, id) implies classify_of(
            p,
            id,
        ) is Ok && has_record(p, pwd, sr, pp, id) by {
            if id < i {
                assert(has_record(p, pwd, sr, proofs, id));
                let k0 = choose|k0: int|
                    0 <= k0 < proofs.len() && harness_record(p, pwd, sr, id, #[trigger] proofs[k0]);
                assert(pp[k0] == proofs[k0]);
                assert(0 <= k0 < pp.len() && harness_record(p, pwd, sr, id, pp[k0]));
            } else {
                let kn = proofs.len() as int;
                assert(pp[kn] == sf);
                assert(0 <= kn < pp.len() && harness_record(p, pwd, sr, id, pp[kn]));
            }
        }
    }
    assert(records_distinct(pp)) by {
        assert forall|k1: int, k2: int|
            #![trigger pp[k1], pp[k2]]
            0 <= k1 < pp.len() && 0 <= k2 < pp.len() && k1 != k2 implies pp[k1].def_id@
            != pp[k2].def_id@ by {
            if k1 < proofs.len() && k2 < proofs.len() {
                assert(pp[k1] == proofs[k1] && pp[k2] == proofs[k2]);
            } else if k1 < proofs.len() {
                assert(recorded_in(p, pwd, sr, i, proofs[k1]));
                let id1 = choose|id1: int|
                    0 <= id1 < i && #[trigger] is_harness(p, id1) && harness_record(
                        p,
                        pwd,
                        sr,
                        id1,
                        proofs[k1],
                    );
                lemma_record_def_id(p, pwd, sr, id1, proofs[k1]);
                lemma_record_def_id(p, pwd, sr, i, sf);
                assert(pp[k1].def_id@ == p.defs@[id1].def_id@);
                assert(pp[k2].def_id@ == p.defs@[i].def_id@);
            } else {
                assert(recorded_in(p, pwd, sr, i, proofs[k2]));
                let id2 = choose|id2: int|
                    0 <= id2 < i && #[trigger] is_harness(p, id2) && harness_record(
                        p,
                        pwd,
                        sr,
                        id2,
                        proofs[k2],
                    );
                lemma_record_def_id(p, pwd, sr, id2, proofs[k2]);
                lemma_record_def_id(p, pwd, sr, i, sf);
                assert(pp[k2].def_id@ == p.defs@[id2].def_id@);
                assert(pp[k1].def_id@ == p.defs@[i].def_id@);
            }
        }
    }
}

/// Re-ordering keeps every entry a record of some harness: membership
/// carries over through the multiset.
proof fn lemma_sound_transfer(
    p: &Program,
    pwd: Seq<char>,
    sr: Seq<char>,
    pv: Seq<SerFunction>,
    sv: Seq<SerFunction>,
)
    requires
        records_sound(p, pwd, sr, p.n(), pv),
        sv.to_multiset() == pv.to_multiset(),
    ensures
        records_sound(p, pwd, sr, p.n(), sv),
{
    assert forall|k: int| 0 <= k < sv.len() implies recorded_in(
        p,
        pwd,
        sr,
        p.n(),
        #[trigger] sv[k],
    ) by {
        assert(sv.contains(sv[k]));
        vstd::seq_lib::to_multiset_contains(sv, sv[k]);
        vstd::seq_lib::to_multiset_contains(pv, sv[k]);
        assert(pv.contains(sv[k]));
        let k0 = choose|k0: int| 0 <= k0 < pv.len() && pv[k0] == sv[k];
        assert(recorded_in(p, pwd, sr, p.n(), pv[k0]));
    }
}

/// Re-ordering keeps every harness recorded: membership carries over through
/// the multiset.
proof fn lemma_complete_transfer(
    p: &Program,
    pwd: Seq<char>,
    sr: Seq<char>,
    pv: Seq<SerFunction>,
    sv: Seq<SerFunction>,
)
    requires
        records_complete(p, pwd, sr, p.n(), pv),
        sv.to_multiset() == pv.to_multiset(),
    ensures
        records_complete(p, pwd, sr, p.n(), sv),
{
    assert forall|id: int| 0 <= id < p.n() && #[trigger] is_harness(p, id) implies classify_of(
        p,
        id,
    ) is Ok && has_record(p, pwd, sr, sv, id) by {
        assert(has_record(p, pwd, sr, pv, id));
        let k0 = choose|k0: int|
            0 <= k0 < pv.len() && harness_record(p, pwd, sr, id, #[trigger] pv[k0]);
        let v = pv[k0];
        assert(pv.contains(v));
        vstd::seq_lib::to_multiset_contains(pv, v);
        vstd::seq_lib::to_multiset_contains(sv, v);
        assert(sv.contains(v));
        let k = choose|k: int| 0 <= k < sv.len() && sv[k] == v;
        assert(0 <= k < sv.len() && harness_record(p, pwd, sr, id, sv[k]));
    }
}

/// Re-ordering keeps the identities pairwise distinct.
proof fn lemma_distinct_transfer(pv: Seq<SerFunction>, sv: Seq<SerFunction>)
    requires
        records_distinct(pv),
        sv.to_multiset() == pv.to_multiset(),
    ensures
        records_distinct(sv),
{
    assert(pv.no_duplicates()) by {
        assert forall|k1: int, k2: int|
            0 <= k1 < pv.len() && 0 <= k2 < pv.len() && k1 != k2 implies pv[k1] != pv[k2] by {
            if pv[k1] == pv[k2] {
                assert(pv[k1].def_id@ == pv[k2].def_id@);
            }
        }
    }
    pv.lemma_multiset_has_no_duplicates();
    sv.lemma_multiset_has_no_duplicates_conv();
    assert forall|k1: int, k2: int|
        #![trigger sv[k1], sv[k2]]
        0 <= k1 < sv.len() && 0 <= k2 < sv.len() && k1 != k2 implies sv[k1].def_id@
        != sv[k2].def_id@ by {
        assert(sv.no_duplicates());
        assert(sv[k1] != sv[k2]);
        assert(sv.contains(sv[k1]) && sv.contains(sv[k2]));
        vstd::seq_lib::to_multiset_contains(sv, sv[k1]);
        vstd::seq_lib::to_multiset_contains(sv, sv[k2]);
        vstd::seq_lib::to_multiset_contains(pv, sv[k1]);
        vstd::seq_lib::to_multiset_contains(pv, sv[k2]);
        assert(pv.contains(sv[k1]) && pv.contains(sv[k2]));
        let j1 = choose|j1: int| 0 <= j1 < pv.len() && pv[j1] == sv[k1];
        let j2 = choose|j2: int| 0 <= j2 < pv.len() && pv[j2] == sv[k2];
        assert(j1 != j2);
        assert(pv[j1].def_id@ != pv[j2].def_id@);
    }
}

/// Analyze a program: every definition carrying a proof-kind marker becomes
/// one serialized harness with its transitive callees and content
/// fingerprint; the output is sorted by source record. Fails exactly when
/// some harness carries more than one proof-kind marker.
pub fn analyze(p: &Program, prefixes: PathPrefixes) -> (r: Result<Vec<SerFunction>, ClassifyError>)
    requires
        p.wf(),
    ensures
        match r {
            Result::Ok(v) => analysis_post(p, prefixes.pwd@, prefixes.sysroot@, v@),
            Result::Err(e) => e == ClassifyError::AmbiguousProofMarkers && (exists|id: int|
                0 <= id < p.n() && is_harness(p, id) && classify_of(p, id)
                    == Result::<Kind, ClassifyError>::Err(e)),
        },
{
    let mut cache = FunctionCache::new(p, prefixes);
    let mut ctx = Ctx::new();
    let ghost pwd = cache.pwd();
    let ghost sr = cache.sysroot();
    let mut proofs: Vec<SerFunction> = Vec::new();
    let n = p.defs.len();
    let mut i: usize = 0;
    while i < n
        invariant
            p.wf(),
            i <= n,
            n == p.defs.len(),
            cache.wf(p),
            cache.pwd() == pwd,
            cache.sysroot() == sr,
            ctx.wf(p),
            records_sound(p, pwd, sr, i as int, proofs@),
            records_complete(p, pwd, sr, i as int, proofs@),
            records_distinct(proofs@),
        decreases n - i,
    {
        let step = Function::new(p, &mut cache, &mut ctx, i);
        match step {
            Option::None => {
                proof {
                    lemma_records_skip(p, pwd, sr, i as int, proofs@);
                }
            },
            Option::Some(fun) => {
                match Kind::classify(&fun.attrs) {
                    Result::Err(ClassifyError::NoProofMarker) => {
                        proof {
                            reveal(is_harness);
                            assert(false);
                        }
                    },
                    Result::Err(ClassifyError::AmbiguousProofMarkers) => {
                        proof {
                            reveal(classify_of);
                        }
                        return Result::Err(ClassifyError::AmbiguousProofMarkers);
                    },
                    Result::Ok(_) => {
                        let ghost fun_ids = fun.callees@;
                        proof {
                            reveal(classify_of);
                            lemma_callee_list_in_range(p, pwd, sr, i as int, fun_ids);
                        }
                        let sf = SerFunction::new(p, &mut cache, fun);
                        let ghost proofs_prev = proofs@;
                        proofs.push(sf);
                        proof {
                            lemma_records_push(
                                p,
                                pwd,
                                sr,
                                i as int,
                                proofs_prev,
                                sf,
                                fun_ids,
                            );
                            assert(proofs@ == proofs_prev.push(sf));
                        }
                    },
                }
            },
        }
        i = i + 1;
    }
    let ghost pv = proofs@;
    let sorted = sort_ser_functions(proofs);
    proof {
        lemma_sound_transfer(p, pwd, sr, pv, sorted@);
        lemma_complete_transfer(p, pwd, sr, pv, sorted@);
        lemma_distinct_transfer(pv, sorted@);
    }
    Result::Ok(sorted)
}


// ************* stability of records under program change *************
/// The definitions a record depends on agree between two programs: the
/// harness itself and every entry of its callee list.
proof fn lemma_record_transfer(
    p1: &Program,
    p2: &Program,
    pwd: Seq<char>,
    sr: Seq<char>,
    id: int,
    f: SerFunction,
    ids: Seq<usize>,
)
    requires
        0 <= id < p1.n(),
        p1.n() <= p2.n(),
        p2.defs@[id] == p1.defs@[id],
        forall|i: int| 0 <= i < ids.len() ==> (#[trigger] ids[i] as int) < p1.n(),
        forall|i: int|
            0 <= i < ids.len() ==> p2.defs@[#[trigger] ids[i] as int] == p1.defs@[ids[i] as int],
        forall|x: usize| ids.contains(x) <==> reaches(p2, id, x as int),
        harness_callee_list(p1, pwd, sr, id, ids),
        ser_function_matches(p1, pwd, sr, id, recognized_of(def_attrs_view(p1, id)), ids, f),
    ensures
        harness_record(p2, pwd, sr, id, f),
{
    reveal(harness_record);
    reveal(harness_callee_list);
    reveal(ser_function_matches);
    assert(def_attrs_view(p2, id) == def_attrs_view(p1, id));
    assert forall|i: int| 0 <= i < ids.len() implies spec_source_of(
        p2,
        #[trigger] ids[i] as int,
        pwd,
        sr,
    ) == spec_source_of(p1, ids[i] as int, pwd, sr) by {
        assert(p2.defs@[ids[i] as int] == p1.defs@[ids[i] as int]);
    }
    assert forall|i: int, j2: int|
        0 <= i < j2 < ids.len() implies callee_key_cmp(p2, pwd, sr, ids[i], ids[j2])
        == callee_key_cmp(p1, pwd, sr, #[trigger] ids[i], #[trigger] ids[j2]) by {
        assert(spec_source_of(p2, ids[i] as int, pwd, sr) == spec_source_of(
            p1,
            ids[i] as int,
            pwd,
            sr,
        ));
        assert(spec_source_of(p2, ids[j2] as int, pwd, sr) == spec_source_of(
            p1,
            ids[j2] as int,
            pwd,
            sr,
        ));
        assert(p2.defs@[ids[i] as int].def_id@ == p1.defs@[ids[i] as int].def_id@);
        assert(p2.defs@[ids[j2] as int].def_id@ == p1.defs@[ids[j2] as int].def_id@);
    }
    assert(harness_callee_list(p2, pwd, sr, id, ids));
    assert(spec_callee_src(p2, pwd, sr, id) == spec_callee_src(p1, pwd, sr, id));
    assert forall|i: int| 0 <= i < ids.len() implies spec_callee_src(
        p2,
        pwd,
        sr,
        #[trigger] ids[i] as int,
    ) == spec_callee_src(p1, pwd, sr, ids[i] as int) by {
        assert(spec_source_of(p2, ids[i] as int, pwd, sr) == spec_source_of(
            p1,
            ids[i] as int,
            pwd,
            sr,
        ));
    }
    assert(callee_srcs(p2, pwd, sr, ids) =~= callee_srcs(p1, pwd, sr, ids));
    assert(ser_function_matches(p2, pwd, sr, id, recognized_of(def_attrs_view(p2, id)), ids, f));
}

/// Hash stability under irrelevant addition: appending definitions to the
/// program leaves the record of every existing harness — fingerprint
/// included — a correct record of the extended program, and harness status
/// unchanged.
pub proof fn lemma_record_stable_under_extension(
    p1: &Program,
    p2: &Program,
    pwd: Seq<char>,
    sr: Seq<char>,
    id: int,
    f: SerFunction,
)
    requires
        p1.wf(),
        crate::program::extends(p1, p2),
        0 <= id < p1.n(),
        harness_record(p1, pwd, sr, id, f),
    ensures
        harness_record(p2, pwd, sr, id, f),
        is_harness(p2, id) == is_harness(p1, id),
{
    reveal(harness_record);
    reveal(harness_callee_list);
    reveal(is_harness);
    let ids = choose|ids: Seq<usize>|
        #![trigger harness_callee_list(p1, pwd, sr, id, ids)]
        harness_callee_list(p1, pwd, sr, id, ids) && ser_function_matches(
            p1,
            pwd,
            sr,
            id,
            recognized_of(def_attrs_view(p1, id)),
            ids,
            f,
        );
    assert(p2.defs@[id] == p1.defs@[id]);
    assert forall|x: usize| ids.contains(x) <==> reaches(p2, id, x as int) by {
        crate::program::lemma_reaches_extension(p1, p2, id, x as int);
    }
    lemma_record_transfer(p1, p2, pwd, sr, id, f, ids);
    assert(def_attrs_view(p2, id) == def_attrs_view(p1, id));
}

/// Changing a definition that a harness cannot reach leaves the harness's
/// record — fingerprint included — a correct record of the changed program,
/// and harness status unchanged.
pub proof fn lemma_record_stable_under_unreachable_change(
    p1: &Program,
    p2: &Program,
    j: int,
    pwd: Seq<char>,
    sr: Seq<char>,
    id: int,
    f: SerFunction,
)
    requires
        crate::program::differs_only_at(p1, p2, j),
        0 <= id < p1.n(),
        id != j,
        !reaches(p1, id, j),
        harness_record(p1, pwd, sr, id, f),
    ensures
        harness_record(p2, pwd, sr, id, f),
        is_harness(p2, id) == is_harness(p1, id),
{
    reveal(harness_record);
    reveal(harness_callee_list);
    reveal(is_harness);
    let ids = choose|ids: Seq<usize>|
        #![trigger harness_callee_list(p1, pwd, sr, id, ids)]
        harness_callee_list(p1, pwd, sr, id, ids) && ser_function_matches(
            p1,
            pwd,
            sr,
            id,
            recognized_of(def_attrs_view(p1, id)),
            ids,
            f,
        );
    assert(p2.defs@[id] == p1.defs@[id]);
    assert forall|i: int| 0 <= i < ids.len() implies p2.defs@[#[trigger] ids[i] as int]
        == p1.defs@[ids[i] as int] by {
        assert(ids.contains(ids[i]));
        assert(reaches(p1, id, ids[i] as int));
        assert(ids[i] as int != j);
    }
    assert forall|x: usize| ids.contains(x) <==> reaches(p2, id, x as int) by {
        crate::program::lemma_reaches_unreachable_change(p1, p2, j, id, x as int);
    }
    lemma_record_transfer(p1, p2, pwd, sr, id, f, ids);
    assert(def_attrs_view(p2, id) == def_attrs_view(p1, id));
}


// ************* determinism *************
/// The callee list of a harness is canonical: any two correct lists are the
/// same sequence, whatever order the traversal discovered the callees in.
pub proof fn lemma_callee_list_unique(
    p: &Program,
    pwd: Seq<char>,
    sr: Seq<char>,
    id: int,
    ids1: Seq<usize>,
    ids2: Seq<usize>,
)
    requires
        p.wf(),
        harness_callee_list(p, pwd, sr, id, ids1),
        harness_callee_list(p, pwd, sr, id, ids2),
    ensures
        ids1 =~= ids2,
    decreases ids1.len(),
{
    reveal(harness_callee_list);
    if ids1.len() == 0 {
        if ids2.len() > 0 {
            assert(ids2.contains(ids2[0]));
            assert(reaches(p, id, ids2[0] as int));
            assert(ids1.contains(ids2[0]));
        }
    } else if ids2.len() == 0 {
        assert(ids1.contains(ids1[0]));
        assert(reaches(p, id, ids1[0] as int));
        assert(ids2.contains(ids1[0]));
    } else {
        let h1 = ids1[0];
        let h2 = ids2[0];
        assert(ids1.contains(h1) && ids2.contains(h2));
        assert(ids2.contains(h1) && ids1.contains(h2));
        let k = choose|k: int| 0 <= k < ids2.len() && ids2[k] == h1;
        let m = choose|m: int| 0 <= m < ids1.len() && ids1[m] == h2;
        assert(callee_key_cmp(p, pwd, sr, h1, h2) == core::cmp::Ordering::Equal) by {
            if k > 0 {
                assert(callee_key_cmp(p, pwd, sr, h2, ids2[k]) != Ordering::Greater);
            } else {
                lemma_callee_key_cmp_flip(p, pwd, sr, h1, h1);
            }
            if m > 0 {
                assert(callee_key_cmp(p, pwd, sr, h1, ids1[m]) != Ordering::Greater);
            } else {
                lemma_callee_key_cmp_flip(p, pwd, sr, h1, h1);
            }
            lemma_callee_key_cmp_flip(p, pwd, sr, h1, h2);
        }
        lemma_callee_key_cmp_strict(p, pwd, sr, h1, h2);
        assert(h1 == h2);
        let t1 = ids1.drop_first();
        let t2 = ids2.drop_first();
        assert forall|x: usize| t1.contains(x) <==> reaches(p, id, x as int) && x != h1 by {
            if t1.contains(x) {
                let i = choose|i: int| 0 <= i < t1.len() && t1[i] == x;
                assert(ids1[i + 1] == x);
                assert(ids1.contains(x));
                assert(ids1[0] != ids1[i + 1]);
            }
            if reaches(p, id, x as int) && x != h1 {
                assert(ids1.contains(x));
                let i = choose|i: int| 0 <= i < ids1.len() && ids1[i] == x;
                assert(i != 0);
                assert(t1[i - 1] == x);
                assert(t1.contains(x));
            }
        }
        assert forall|x: usize| t2.contains(x) <==> reaches(p, id, x as int) && x != h1 by {
            if t2.contains(x) {
                let i = choose|i: int| 0 <= i < t2.len() && t2[i] == x;
                assert(ids2[i + 1] == x);
                assert(ids2.contains(x));
                assert(ids2[0] != ids2[i + 1]);
            }
            if reaches(p, id, x as int) && x != h1 {
                assert(ids2.contains(x));
                let i = choose|i: int| 0 <= i < ids2.len() && ids2[i] == x;
                assert(i != 0);
                assert(t2[i - 1] == x);
                assert(t2.contains(x));
            }
        }
        // the tails are correct callee lists for the restricted set; restate
        // their well-formedness directly and recurse on a shrunken pair
        lemma_tails_unique(p, pwd, sr, t1, t2);
        assert(ids1 =~= seq![h1] + t1);
        assert(ids2 =~= seq![h1] + t2);
    }
}

/// Two sorted duplicate-free tails over the same restricted set are equal.
proof fn lemma_tails_unique(
    p: &Program,
    pwd: Seq<char>,
    sr: Seq<char>,
    t1: Seq<usize>,
    t2: Seq<usize>,
)
    requires
        p.wf(),
        t1.no_duplicates(),
        t2.no_duplicates(),
        forall|i: int| 0 <= i < t1.len() ==> (#[trigger] t1[i] as int) < p.n(),
        forall|i: int| 0 <= i < t2.len() ==> (#[trigger] t2[i] as int) < p.n(),
        forall|i: int, j: int|
            0 <= i < j < t1.len() ==> callee_key_cmp(p, pwd, sr, t1[i], t1[j]) != Ordering::Greater,
        forall|i: int, j: int|
            0 <= i < j < t2.len() ==> callee_key_cmp(p, pwd, sr, t2[i], t2[j]) != Ordering::Greater,
        forall|x: usize| t1.contains(x) <==> t2.contains(x),
    ensures
        t1 =~= t2,
    decreases t1.len(),
{
    if t1.len() == 0 {
        if t2.len() > 0 {
            assert(t2.contains(t2[0]));
            assert(t1.contains(t2[0]));
        }
    } else if t2.len() == 0 {
        assert(t1.contains(t1[0]));
        assert(t2.contains(t1[0]));
    } else {
        let h1 = t1[0];
        let h2 = t2[0];
        assert(t1.contains(h1) && t2.contains(h2));
        assert(t2.contains(h1) && t1.contains(h2));
        let k = choose|k: int| 0 <= k < t2.len() && t2[k] == h1;
        let m = choose|m: int| 0 <= m < t1.len() && t1[m] == h2;
        assert(callee_key_cmp(p, pwd, sr, h1, h2) == Ordering::Equal) by {
            if k > 0 {
                assert(callee_key_cmp(p, pwd, sr, h2, t2[k]) != Ordering::Greater);
            } else {
                lemma_callee_key_cmp_flip(p, pwd, sr, h1, h1);
            }
            if m > 0 {
                assert(callee_key_cmp(p, pwd, sr, h1, t1[m]) != Ordering::Greater);
            } else {
                lemma_callee_key_cmp_flip(p, pwd, sr, h1, h1);
            }
            lemma_callee_key_cmp_flip(p, pwd, sr, h1, h2);
        }
        lemma_callee_key_cmp_strict(p, pwd, sr, h1, h2);
        assert(h1 == h2);
        let u1 = t1.drop_first();
        let u2 = t2.drop_first();
        assert forall|x: usize| u1.contains(x) implies u2.contains(x) && x != h1 by {
            let i = choose|i: int| 0 <= i < u1.len() && u1[i] == x;
            assert(t1[i + 1] == x);
            assert(t1.contains(x));
            assert(t1[0] != t1[i + 1]);
            assert(t2.contains(x));
            let j = choose|j: int| 0 <= j < t2.len() && t2[j] == x;
            assert(j != 0);
            assert(u2[j - 1] == x);
        }
        assert forall|x: usize| u2.contains(x) implies u1.contains(x) by {
            let i = choose|i: int| 0 <= i < u2.len() && u2[i] == x;
            assert(t2[i + 1] == x);
            assert(t2.contains(x));
            assert(t2[0] != t2[i + 1]);
            assert(t1.contains(x));
            let j = choose|j: int| 0 <= j < t1.len() && t1[j] == x;
            assert(j != 0);
            assert(u1[j - 1] == x);
        }
        lemma_tails_unique(p, pwd, sr, u1, u2);
        assert(t1 =~= seq![h1] + u1);
        assert(t2 =~= seq![h1] + u2);
    }
}

/// Determinism at the record level: any two correct records of one harness
/// agree in every serialized field — hash, identity, attributes, kind,
/// source record and callee records.
pub proof fn lemma_harness_record_unique(
    p: &Program,
    pwd: Seq<char>,
    sr: Seq<char>,
    id: int,
    f1: SerFunction,
    f2: SerFunction,
)
    requires
        p.wf(),
        harness_record(p, pwd, sr, id, f1),
        harness_record(p, pwd, sr, id, f2),
    ensures
        f1@ == f2@,
{
    reveal(harness_record);
    reveal(ser_function_matches);
    let ids1 = choose|ids: Seq<usize>|
        #![trigger harness_callee_list(p, pwd, sr, id, ids)]
        harness_callee_list(p, pwd, sr, id, ids) && ser_function_matches(
            p,
            pwd,
            sr,
            id,
            recognized_of(def_attrs_view(p, id)),
            ids,
            f1,
        );
    let ids2 = choose|ids: Seq<usize>|
        #![trigger harness_callee_list(p, pwd, sr, id, ids)]
        harness_callee_list(p, pwd, sr, id, ids) && ser_function_matches(
            p,
            pwd,
            sr,
            id,
            recognized_of(def_attrs_view(p, id)),
            ids,
            f2,
        );
    lemma_callee_list_unique(p, pwd, sr, id, ids1, ids2);
    assert(f1@.callees =~= f2@.callees) by {
        assert forall|i: int| 0 <= i < f1@.callees.len() implies f1@.callees[i]
            =~= f2@.callees[i] by {
            assert(f1.callees@[i]@.def_id == p.defs@[ids1[i] as int].def_id@);
            assert(f2.callees@[i]@.def_id == p.defs@[ids1[i] as int].def_id@);
            assert(f1.callees@[i]@.func == spec_callee_src(p, pwd, sr, ids1[i] as int));
            assert(f2.callees@[i]@.func == spec_callee_src(p, pwd, sr, ids1[i] as int));
        }
    }
    assert(f1@ =~= f2@);
}


/// The two records serialize identically: their views agree in every field.
#[verifier::opaque]
pub open spec fn ser_views_equal(a: SerFunction, b: SerFunction) -> bool {
    a@ == b@
}

/// The harness order, applied to the records themselves.
#[verifier::opaque]
pub open spec fn ser_key_cmp_at(a: SerFunction, b: SerFunction) -> Ordering {
    ser_key_cmp(a@, b@)
}

proof fn lemma_at_refl(a: SerFunction)
    ensures
        ser_key_cmp_at(a, a) == Ordering::Equal,
{
    reveal(ser_key_cmp_at);
    lemma_ser_key_cmp_flip(a@, a@);
}

proof fn lemma_at_flip(a: SerFunction, b: SerFunction)
    ensures
        ser_key_cmp_at(b, a) == ord_flip(ser_key_cmp_at(a, b)),
{
    reveal(ser_key_cmp_at);
    lemma_ser_key_cmp_flip(a@, b@);
}

proof fn lemma_views_equal_sym(a: SerFunction, b: SerFunction)
    requires
        ser_views_equal(a, b),
    ensures
        ser_views_equal(b, a),
{
    reveal(ser_views_equal);
}

/// Some entry of `w` has the same view as `a`.
pub open spec fn has_view_match(w: Seq<SerFunction>, a: SerFunction) -> bool {
    exists|m: int| 0 <= m < w.len() && ser_views_equal(a, #[trigger] w[m])
}

proof fn lemma_views_equal_keys(a: SerFunction, b: SerFunction, c: SerFunction)
    requires
        ser_views_equal(a, b),
    ensures
        ser_key_cmp_at(a, c) == ser_key_cmp_at(b, c),
        ser_key_cmp_at(c, a) == ser_key_cmp_at(c, b),
{
    reveal(ser_views_equal);
    reveal(ser_key_cmp_at);
}

/// In two strictly sorted sequences that hold each other's heads, the heads
/// have the same view: each head is the least key of both.
proof fn lemma_heads_equal(v1: Seq<SerFunction>, v2: Seq<SerFunction>)
    requires
        v1.len() > 0,
        v2.len() > 0,
        forall|i: int, j: int|
            #![trigger v1[i], v1[j]]
            0 <= i < j < v1.len() ==> ser_key_cmp_at(v1[i], v1[j]) == Ordering::Less,
        forall|i: int, j: int|
            #![trigger v2[i], v2[j]]
            0 <= i < j < v2.len() ==> ser_key_cmp_at(v2[i], v2[j]) == Ordering::Less,
        has_view_match(v2, v1[0]),
        has_view_match(v1, v2[0]),
    ensures
        ser_views_equal(v1[0], v2[0]),
{
    let m0 = choose|m: int| 0 <= m < v2.len() && ser_views_equal(v1[0], #[trigger] v2[m]);
    let k0 = choose|k: int| 0 <= k < v1.len() && ser_views_equal(v2[0], #[trigger] v1[k]);
    if m0 == 0 {
        assert(ser_views_equal(v1[0], v2[0]));
    } else if k0 == 0 {
        lemma_views_equal_sym(v2[0], v1[0]);
    } else {
        assert(ser_key_cmp_at(v2[0], v2[m0]) == Ordering::Less);
        lemma_views_equal_keys(v1[0], v2[m0], v2[0]);
        assert(ser_key_cmp_at(v2[0], v1[0]) == Ordering::Less);
        assert(ser_key_cmp_at(v1[0], v1[k0]) == Ordering::Less);
        lemma_views_equal_keys(v2[0], v1[k0], v1[0]);
        assert(ser_key_cmp_at(v1[0], v2[0]) == Ordering::Less);
        lemma_at_flip(v1[0], v2[0]);
    }
}

/// After the equal heads are dropped, each remaining entry of the first
/// sequence still has its view-equal partner among the remaining entries of
/// the second: the head cannot recur in a strictly sorted sequence.
proof fn lemma_tail_matches(v1: Seq<SerFunction>, v2: Seq<SerFunction>)
    requires
        v1.len() > 0,
        v2.len() > 0,
        forall|i: int, j: int|
            #![trigger v1[i], v1[j]]
            0 <= i < j < v1.len() ==> ser_key_cmp_at(v1[i], v1[j]) == Ordering::Less,
        ser_views_equal(v1[0], v2[0]),
        forall|k: int| 0 <= k < v1.len() ==> has_view_match(v2, #[trigger] v1[k]),
    ensures
        forall|k: int|
            0 <= k < v1.drop_first().len() ==> has_view_match(
                v2.drop_first(),
                #[trigger] v1.drop_first()[k],
            ),
{
    let t1 = v1.drop_first();
    let t2 = v2.drop_first();
    assert forall|k: int| 0 <= k < t1.len() implies has_view_match(t2, #[trigger] t1[k]) by {
        assert(t1[k] == v1[k + 1]);
        assert(has_view_match(v2, v1[k + 1]));
        let m = choose|m: int| 0 <= m < v2.len() && ser_views_equal(v1[k + 1], #[trigger] v2[m]);
        if m == 0 {
            // then v1[k + 1] has the head's view, impossible in a strictly
            // sorted sequence
            lemma_views_equal_sym(v1[0], v2[0]);
            lemma_views_equal_keys(v2[0], v1[0], v1[k + 1]);
            lemma_views_equal_keys(v1[k + 1], v2[0], v1[k + 1]);
            assert(ser_key_cmp_at(v1[0], v1[k + 1]) == Ordering::Less);
            assert(ser_key_cmp_at(v1[k + 1], v1[k + 1]) == Ordering::Less);
            lemma_at_refl(v1[k + 1]);
        } else {
            assert(t2[m - 1] == v2[m]);
            assert(0 <= m - 1 < t2.len() && ser_views_equal(t1[k], t2[m - 1]));
        }
    }
}

/// Two strictly key-sorted outputs that contain each other's entries, up to
/// view, are the same sequence of views.
proof fn lemma_sorted_views_unique(v1: Seq<SerFunction>, v2: Seq<SerFunction>)
    requires
        forall|i: int, j: int|
            #![trigger v1[i], v1[j]]
            0 <= i < j < v1.len() ==> ser_key_cmp_at(v1[i], v1[j]) == Ordering::Less,
        forall|i: int, j: int|
            #![trigger v2[i], v2[j]]
            0 <= i < j < v2.len() ==> ser_key_cmp_at(v2[i], v2[j]) == Ordering::Less,
        forall|k: int| 0 <= k < v1.len() ==> has_view_match(v2, #[trigger] v1[k]),
        forall|m: int| 0 <= m < v2.len() ==> has_view_match(v1, #[trigger] v2[m]),
    ensures
        v1.len() == v2.len(),
        forall|k: int| 0 <= k < v1.len() ==> ser_views_equal(#[trigger] v1[k], v2[k]),
    decreases v1.len(),
{
    if v1.len() == 0 {
        if v2.len() > 0 {
            assert(has_view_match(v1, v2[0]));
        }
    } else if v2.len() == 0 {
        assert(has_view_match(v2, v1[0]));
    } else {
        assert(has_view_match(v2, v1[0]));
        assert(has_view_match(v1, v2[0]));
        lemma_heads_equal(v1, v2);
        lemma_views_equal_sym(v1[0], v2[0]);
        lemma_tail_matches(v1, v2);
        lemma_tail_matches(v2, v1);
        let t1 = v1.drop_first();
        let t2 = v2.drop_first();
        assert forall|i: int, j: int|
            #![trigger t1[i], t1[j]]
            0 <= i < j < t1.len() implies ser_key_cmp_at(t1[i], t1[j]) == Ordering::Less by {
            assert(t1[i] == v1[i + 1] && t1[j] == v1[j + 1]);
        }
        assert forall|i: int, j: int|
            #![trigger t2[i], t2[j]]
            0 <= i < j < t2.len() implies ser_key_cmp_at(t2[i], t2[j]) == Ordering::Less by {
            assert(t2[i] == v2[i + 1] && t2[j] == v2[j + 1]);
        }
        lemma_sorted_views_unique(t1, t2);
        assert forall|k: int| 0 <= k < v1.len() implies ser_views_equal(
            #[trigger] v1[k],
            v2[k],
        ) by {
            if k > 0 {
                assert(ser_views_equal(t1[k - 1], t2[k - 1]));
                assert(t1[k - 1] == v1[k] && t2[k - 1] == v2[k]);
            }
        }
    }
}

/// Every entry of the first output has a view-equal entry in the second:
/// both record harnesses of `p`, and records of one harness are unique.
proof fn lemma_outputs_cross_match(
    p: &Program,
    pwd: Seq<char>,
    sr: Seq<char>,
    v1: Seq<SerFunction>,
    v2: Seq<SerFunction>,
)
    requires
        p.wf(),
        records_sound(p, pwd, sr, p.n(), v1),
        records_complete(p, pwd, sr, p.n(), v2),
    ensures
        forall|k: int| 0 <= k < v1.len() ==> has_view_match(v2, #[trigger] v1[k]),
{
    assert forall|k: int| 0 <= k < v1.len() implies has_view_match(v2, #[trigger] v1[k]) by {
        assert(recorded_in(p, pwd, sr, p.n(), v1[k]));
        let id = choose|id: int|
            0 <= id < p.n() && #[trigger] is_harness(p, id) && harness_record(p, pwd, sr, id, v1[k]);
        assert(has_record(p, pwd, sr, v2, id));
        let m = choose|m: int| 0 <= m < v2.len() && harness_record(p, pwd, sr, id, #[trigger] v2[m]);
        lemma_harness_record_unique(p, pwd, sr, id, v1[k], v2[m]);
        assert(ser_views_equal(v1[k], v2[m])) by {
            reveal(ser_views_equal);
        }
    }
}

/// A sorted output with pairwise distinct identities is strictly sorted.
proof fn lemma_output_strictly_sorted(v: Seq<SerFunction>)
    requires
        forall|k1: int, k2: int|
            0 <= k1 < k2 < v.len() ==> ser_key_cmp((#[trigger] v[k1])@, (#[trigger] v[k2])@)
                != Ordering::Greater,
        records_distinct(v),
    ensures
        forall|i: int, j: int|
            #![trigger v[i], v[j]]
            0 <= i < j < v.len() ==> ser_key_cmp_at(v[i], v[j]) == Ordering::Less,
{
    assert forall|i: int, j: int|
        #![trigger v[i], v[j]]
        0 <= i < j < v.len() implies ser_key_cmp_at(v[i], v[j]) == Ordering::Less by {
        reveal(ser_key_cmp_at);
        if ser_key_cmp(v[i]@, v[j]@) == Ordering::Equal {
            lemma_ser_key_cmp_eq(v[i]@, v[j]@);
        }
    }
}

/// Determinism: two analysis outputs for one program agree entry for entry
/// in every serialized field — hash, identity, attributes, kind, source
/// record and callees — so repeated runs serialize byte-identically.
#[verifier::rlimit(100)]
pub proof fn lemma_analyze_deterministic(
    p: &Program,
    pwd: Seq<char>,
    sr: Seq<char>,
    v1: Seq<SerFunction>,
    v2: Seq<SerFunction>,
)
    requires
        p.wf(),
        analysis_post(p, pwd, sr, v1),
        analysis_post(p, pwd, sr, v2),
    ensures
        v1.len() == v2.len(),
        forall|k: int| 0 <= k < v1.len() ==> (#[trigger] v1[k])@ == v2[k]@,
{
    lemma_outputs_cross_match(p, pwd, sr, v1, v2);
    lemma_outputs_cross_match(p, pwd, sr, v2, v1);
    lemma_output_strictly_sorted(v1);
    lemma_output_strictly_sorted(v2);
    lemma_sorted_views_unique(v1, v2);
    assert forall|k: int| 0 <= k < v1.len() implies (#[trigger] v1[k])@ == v2[k]@ by {
        assert(ser_views_equal(v1[k], v2[k]));
        reveal(ser_views_equal);
    }
}

} // verus!
