//! Statistics over the program's definitions: how many functions there are,
//! how many carry tool attributes, how many carry verification-tool
//! attributes, and the functions grouped by verification-tool attribute
//! path.

use vstd::prelude::*;
use crate::attrs::{parse_kanitool, str_eq};
use crate::ordering::{chars_cmp, cmp_str, lemma_chars_cmp_flip, lemma_chars_cmp_trans};
use core::cmp::Ordering;
use vstd::multiset::Multiset;
use crate::cache::str_has_prefix;
use crate::program::{FnDef, Program};

verus! {

/// External crates seen by the compilation, excluding the local one.
#[derive(Debug)]
pub struct ExternalCrates {
    /// Count of external crates.
    pub count: usize,
}

/// Counts over the local crate's function definitions.
#[derive(Debug)]
pub struct CountFunctions {
    /// Count of function definitions.
    pub total: usize,
    /// Definitions annotated with any tool attribute.
    pub all_tool_attrs: usize,
    /// Definitions annotated with a verification-tool attribute.
    pub kanitools: usize,
}

/// Functions grouped by verification-tool attribute path. A function may
/// appear under several paths.
#[derive(Debug)]
pub struct KaniTools {
    /// Per attribute path, how many functions carry it.
    pub count: Vec<(String, usize)>,
    /// Per attribute path, the names of the functions carrying it.
    pub annotated_functions: Vec<(String, Vec<String>)>,
}

/// Metrics over the local crate's definitions.
#[derive(Debug)]
pub struct LocalCrateFnDefs {
    pub count: CountFunctions,
    pub kanitools: KaniTools,
}

/// Statistics for one analysis run.
#[derive(Debug)]
pub struct Stat {
    pub local: LocalCrateFnDefs,
    pub external: ExternalCrates,
}

/// Whether an attribute text is a verification-tool attribute.
pub open spec fn is_kanitool_attr(a: Seq<char>) -> bool {
    "#[kanitool::"@.is_prefix_of(a)
}

/// Whether a definition carries at least one verification-tool attribute.
pub open spec fn has_kanitool_attr(d: FnDef) -> bool {
    exists|i: int| 0 <= i < d.attrs@.len() && is_kanitool_attr((#[trigger] d.attrs@[i])@)
}

/// How many definitions carry any tool attribute.
pub open spec fn count_attributed(defs: Seq<FnDef>) -> int
    decreases defs.len(),
{
    if defs.len() == 0 {
        0
    } else {
        (if defs[0].attrs@.len() > 0 {
            1int
        } else {
            0int
        }) + count_attributed(defs.drop_first())
    }
}

/// How many definitions carry a verification-tool attribute.
pub open spec fn count_kanitool(defs: Seq<FnDef>) -> int
    decreases defs.len(),
{
    if defs.len() == 0 {
        0
    } else {
        (if has_kanitool_attr(defs[0]) {
            1int
        } else {
            0int
        }) + count_kanitool(defs.drop_first())
    }
}

/// Splitting off the next definition adds its contribution to both counts.
proof fn lemma_counts_take_succ(defs: Seq<FnDef>, i: int)
    requires
        0 <= i < defs.len(),
    ensures
        count_attributed(defs.take(i + 1)) == count_attributed(defs.take(i)) + (if defs[i].attrs@.len() > 0 {
            1int
        } else {
            0int
        }),
        count_kanitool(defs.take(i + 1)) == count_kanitool(defs.take(i)) + (if has_kanitool_attr(
            defs[i],
        ) {
            1int
        } else {
            0int
        }),
    decreases i,
{
    let a = defs.take(i + 1);
    let b = defs.take(i);
    if i == 0 {
        assert(a.drop_first() =~= Seq::<FnDef>::empty());
        assert(count_attributed(Seq::<FnDef>::empty()) == 0);
        assert(count_kanitool(Seq::<FnDef>::empty()) == 0);
        assert(a[0] == defs[0]);
    } else {
        lemma_counts_take_succ(defs.drop_first(), i - 1);
        assert(a[0] == defs[0] && b[0] == defs[0]);
        assert(a.drop_first() =~= defs.drop_first().take(i));
        assert(b.drop_first() =~= defs.drop_first().take(i - 1));
        assert(defs.drop_first()[i - 1] == defs[i]);
    }
}

/// Does a definition carry a verification-tool attribute?
fn def_has_kanitool(d: &FnDef) -> (r: bool)
    ensures
        r == has_kanitool_attr(*d),
{
    let n = d.attrs.len();
    let mut i: usize = 0;
    while i < n
        invariant
            i <= n,
            n == d.attrs@.len(),
            forall|k: int| 0 <= k < i ==> !is_kanitool_attr((#[trigger] d.attrs@[k])@),
        decreases n - i,
    {
        if str_has_prefix(d.attrs[i].as_str(), "#[kanitool::") {
            return true;
        }
        i = i + 1;
    }
    false
}

/// Sort a list of names ascending. Selection sort: repeatedly extract the
/// minimum.
fn sort_strings(v: Vec<String>) -> (r: Vec<String>)
    ensures
        r@.to_multiset() == v@.to_multiset(),
        forall|i: int, j: int|
            0 <= i < j < r@.len() ==> chars_cmp((#[trigger] r@[i])@, (#[trigger] r@[j])@)
                != Ordering::Greater,
{
    broadcast use vstd::seq_lib::group_to_multiset_ensures;

    let mut rest = v;
    let mut out: Vec<String> = Vec::new();
    proof {
        assert(out@.to_multiset().add(rest@.to_multiset()) =~= v@.to_multiset());
    }
    while rest.len() > 0
        invariant
            out@.to_multiset().add(rest@.to_multiset()) == v@.to_multiset(),
            forall|i: int, j: int|
                0 <= i < j < out@.len() ==> chars_cmp((#[trigger] out@[i])@, (#[trigger] out@[j])@)
                    != Ordering::Greater,
            forall|i: int, j: int|
                0 <= i < out@.len() && 0 <= j < rest@.len() ==> chars_cmp(
                    (#[trigger] out@[i])@,
                    (#[trigger] rest@[j])@,
                ) != Ordering::Greater,
        decreases rest.len(),
    {
        let n = rest.len();
        let mut m: usize = 0;
        let mut k: usize = 1;
        proof {
            lemma_chars_cmp_flip(rest@[0]@, rest@[0]@);
        }
        while k < n
            invariant
                n == rest.len(),
                0 < n,
                m < n,
                k <= n,
                forall|t: int|
                    0 <= t < k ==> chars_cmp(rest@[m as int]@, (#[trigger] rest@[t])@)
                        != Ordering::Greater,
            decreases n - k,
        {
            let c = cmp_str(rest[m].as_str(), rest[k].as_str());
            if matches!(c, Ordering::Greater) {
                proof {
                    lemma_chars_cmp_flip(rest@[m as int]@, rest@[k as int]@);
                    assert forall|t: int| 0 <= t < k + 1 implies chars_cmp(
                        rest@[k as int]@,
                        (#[trigger] rest@[t])@,
                    ) != Ordering::Greater by {
                        if t < k {
                            lemma_chars_cmp_trans(rest@[k as int]@, rest@[m as int]@, rest@[t]@);
                        } else {
                            lemma_chars_cmp_flip(rest@[k as int]@, rest@[k as int]@);
                        }
                    }
                }
                m = k;
            } else {
                proof {
                    assert forall|t: int| 0 <= t < k + 1 implies chars_cmp(
                        rest@[m as int]@,
                        (#[trigger] rest@[t])@,
                    ) != Ordering::Greater by {
                        if t == k {
                            assert(chars_cmp(rest@[m as int]@, rest@[k as int]@)
                                != Ordering::Greater);
                        }
                    }
                }
            }
            k = k + 1;
        }
        let ghost rest0 = rest@;
        let ghost out0 = out@;
        let x = rest.remove(m);
        out.push(x);
        proof {
            assert(rest@ == rest0.remove(m as int));
            assert(out@ == out0.push(out@[out0.len() as int]));
            vstd::seq_lib::to_multiset_build(out0, out@[out0.len() as int]);
            vstd::seq_lib::to_multiset_remove(rest0, m as int);
            vstd::seq_lib::to_multiset_contains(rest0, rest0[m as int]);
            assert(rest0.contains(rest0[m as int]));
            assert(out@.to_multiset().add(rest@.to_multiset()) =~= out0.to_multiset().add(
                rest0.to_multiset(),
            ));
            assert forall|i: int, j: int|
                0 <= i < j < out@.len() implies chars_cmp(
                (#[trigger] out@[i])@,
                (#[trigger] out@[j])@,
            ) != Ordering::Greater by {
                if j < out0.len() {
                    assert(out@[i] == out0[i] && out@[j] == out0[j]);
                } else {
                    assert(out@[j] == rest0[m as int]);
                }
            }
            assert forall|i: int, j: int|
                0 <= i < out@.len() && 0 <= j < rest@.len() implies chars_cmp(
                (#[trigger] out@[i])@,
                (#[trigger] rest@[j])@,
            ) != Ordering::Greater by {
                let y = if j < m {
                    rest0[j]
                } else {
                    rest0[j + 1]
                };
                assert(rest@[j] == y);
                if i < out0.len() {
                    assert(out@[i] == out0[i]);
                } else {
                    assert(out@[i] == rest0[m as int]);
                }
            }
        }
    }
    proof {
        assert(rest@.to_multiset() =~= Multiset::<String>::empty());
        assert(out@.to_multiset() =~= v@.to_multiset());
    }
    out
}

/// Sort the group entries ascending by attribute path. Selection sort.
fn sort_groups(v: Vec<(String, Vec<String>)>) -> (r: Vec<(String, Vec<String>)>)
    ensures
        r@.to_multiset() == v@.to_multiset(),
        forall|i: int, j: int|
            0 <= i < j < r@.len() ==> chars_cmp((#[trigger] r@[i]).0@, (#[trigger] r@[j]).0@)
                != Ordering::Greater,
{
    broadcast use vstd::seq_lib::group_to_multiset_ensures;

    let mut rest = v;
    let mut out: Vec<(String, Vec<String>)> = Vec::new();
    proof {
        assert(out@.to_multiset().add(rest@.to_multiset()) =~= v@.to_multiset());
    }
    while rest.len() > 0
        invariant
            out@.to_multiset().add(rest@.to_multiset()) == v@.to_multiset(),
            forall|i: int, j: int|
                0 <= i < j < out@.len() ==> chars_cmp(
                    (#[trigger] out@[i]).0@,
                    (#[trigger] out@[j]).0@,
                ) != Ordering::Greater,
            forall|i: int, j: int|
                0 <= i < out@.len() && 0 <= j < rest@.len() ==> chars_cmp(
                    (#[trigger] out@[i]).0@,
                    (#[trigger] rest@[j]).0@,
                ) != Ordering::Greater,
        decreases rest.len(),
    {
        let n = rest.len();
        let mut m: usize = 0;
        let mut k: usize = 1;
        proof {
            lemma_chars_cmp_flip(rest@[0].0@, rest@[0].0@);
        }
        while k < n
            invariant
                n == rest.len(),
                0 < n,
                m < n,
                k <= n,
                forall|t: int|
                    0 <= t < k ==> chars_cmp(rest@[m as int].0@, (#[trigger] rest@[t]).0@)
                        != Ordering::Greater,
            decreases n - k,
        {
            let c = cmp_str(rest[m].0.as_str(), rest[k].0.as_str());
            if matches!(c, Ordering::Greater) {
                proof {
                    lemma_chars_cmp_flip(rest@[m as int].0@, rest@[k as int].0@);
                    assert forall|t: int| 0 <= t < k + 1 implies chars_cmp(
                        rest@[k as int].0@,
                        (#[trigger] rest@[t]).0@,
                    ) != Ordering::Greater by {
                        if t < k {
                            lemma_chars_cmp_trans(
                                rest@[k as int].0@,
                                rest@[m as int].0@,
                                rest@[t].0@,
                            );
                        } else {
                            lemma_chars_cmp_flip(rest@[k as int].0@, rest@[k as int].0@);
                        }
                    }
                }
                m = k;
            } else {
                proof {
                    assert forall|t: int| 0 <= t < k + 1 implies chars_cmp(
                        rest@[m as int].0@,
                        (#[trigger] rest@[t]).0@,
                    ) != Ordering::Greater by {
                        if t == k {
                            assert(chars_cmp(rest@[m as int].0@, rest@[k as int].0@)
                                != Ordering::Greater);
                        }
                    }
                }
            }
            k = k + 1;
        }
        let ghost rest0 = rest@;
        let ghost out0 = out@;
        let x = rest.remove(m);
        out.push(x);
        proof {
            assert(rest@ == rest0.remove(m as int));
            assert(out@ == out0.push(out@[out0.len() as int]));
            vstd::seq_lib::to_multiset_build(out0, out@[out0.len() as int]);
            vstd::seq_lib::to_multiset_remove(rest0, m as int);
            vstd::seq_lib::to_multiset_contains(rest0, rest0[m as int]);
            assert(rest0.contains(rest0[m as int]));
            assert(out@.to_multiset().add(rest@.to_multiset()) =~= out0.to_multiset().add(
                rest0.to_multiset(),
            ));
            assert forall|i: int, j: int|
                0 <= i < j < out@.len() implies chars_cmp(
                (#[trigger] out@[i]).0@,
                (#[trigger] out@[j]).0@,
            ) != Ordering::Greater by {
                if j < out0.len() {
                    assert(out@[i] == out0[i] && out@[j] == out0[j]);
                } else {
                    assert(out@[j] == rest0[m as int]);
                }
            }
            assert forall|i: int, j: int|
                0 <= i < out@.len() && 0 <= j < rest@.len() implies chars_cmp(
                (#[trigger] out@[i]).0@,
                (#[trigger] rest@[j]).0@,
            ) != Ordering::Greater by {
                let y = if j < m {
                    rest0[j]
                } else {
                    rest0[j + 1]
                };
                assert(rest@[j] == y);
                if i < out0.len() {
                    assert(out@[i] == out0[i]);
                } else {
                    assert(out@[i] == rest0[m as int]);
                }
            }
        }
    }
    proof {
        assert(rest@.to_multiset() =~= Multiset::<(String, Vec<String>)>::empty());
        assert(out@.to_multiset() =~= v@.to_multiset());
    }
    out
}

/// Each group lists its names in ascending order.
pub open spec fn group_names_sorted(e: (String, Vec<String>)) -> bool {
    forall|i: int, j: int|
        0 <= i < j < e.1@.len() ==> chars_cmp((#[trigger] e.1@[i])@, (#[trigger] e.1@[j])@)
            != Ordering::Greater
}

/// Group the verification-tool-annotated functions by attribute path, keys
/// sorted ascending with sorted name lists, and derive the per-path counts
/// from the groups.
fn group_kanitools(p: &Program) -> (r: KaniTools)
    ensures
        r.count@.len() == r.annotated_functions@.len(),
        forall|k: int|
            0 <= k < r.count@.len() ==> (#[trigger] r.count@[k]).0@ == r.annotated_functions@[k].0@
                && r.count@[k].1 == r.annotated_functions@[k].1@.len(),
        forall|i: int, j: int|
            0 <= i < j < r.annotated_functions@.len() ==> chars_cmp(
                (#[trigger] r.annotated_functions@[i]).0@,
                (#[trigger] r.annotated_functions@[j]).0@,
            ) != Ordering::Greater,
        forall|k: int|
            0 <= k < r.annotated_functions@.len() ==> group_names_sorted(
                #[trigger] r.annotated_functions@[k],
            ),
{
    let mut groups: Vec<(String, Vec<String>)> = Vec::new();
    let n = p.defs.len();
    let mut i: usize = 0;
    while i < n
        invariant
            i <= n,
            n == p.defs@.len(),
        decreases n - i,
    {
        let m = p.defs[i].attrs.len();
        let mut j: usize = 0;
        while j < m
            invariant
                j <= m,
                i < n,
                n == p.defs@.len(),
                m == p.defs@[i as int].attrs@.len(),
            decreases m - j,
        {
            if str_has_prefix(p.defs[i].attrs[j].as_str(), "#[kanitool::") {
                let path = parse_kanitool(p.defs[i].attrs[j].as_str());
                let name = p.defs[i].source.name.clone();
                let g = groups.len();
                let mut idx: usize = g;
                let mut t: usize = 0;
                while t < g
                    invariant
                        t <= g,
                        g == groups@.len(),
                        idx <= g,
                    decreases g - t,
                {
                    if idx == g && str_eq(groups[t].0.as_str(), path.as_str()) {
                        idx = t;
                    }
                    t = t + 1;
                }
                if idx < g {
                    let mut entry = groups.remove(idx);
                    entry.1.push(name);
                    groups.insert(idx, entry);
                } else {
                    let mut names: Vec<String> = Vec::new();
                    names.push(name);
                    groups.push((path, names));
                }
            }
            j = j + 1;
        }
        i = i + 1;
    }
    broadcast use vstd::seq_lib::group_to_multiset_ensures;

    let mut with_sorted_names: Vec<(String, Vec<String>)> = Vec::new();
    while groups.len() > 0
        invariant
            forall|k: int|
                0 <= k < with_sorted_names@.len() ==> group_names_sorted(
                    #[trigger] with_sorted_names@[k],
                ),
        decreases groups.len(),
    {
        let entry = groups.remove(0);
        let ghost prev = with_sorted_names@;
        let sorted_names = sort_strings(entry.1);
        with_sorted_names.push((entry.0, sorted_names));
        proof {
            assert forall|k: int|
                0 <= k < with_sorted_names@.len() implies group_names_sorted(
                #[trigger] with_sorted_names@[k],
            ) by {
                if k < prev.len() {
                    assert(with_sorted_names@[k] == prev[k]);
                }
            }
        }
    }
    let ghost unsorted = with_sorted_names@;
    let sorted_groups = sort_groups(with_sorted_names);
    proof {
        assert forall|k: int|
            0 <= k < sorted_groups@.len() implies group_names_sorted(
            #[trigger] sorted_groups@[k],
        ) by {
            assert(sorted_groups@.contains(sorted_groups@[k]));
            vstd::seq_lib::to_multiset_contains(sorted_groups@, sorted_groups@[k]);
            vstd::seq_lib::to_multiset_contains(unsorted, sorted_groups@[k]);
            assert(unsorted.contains(sorted_groups@[k]));
            let k0 = choose|k0: int| 0 <= k0 < unsorted.len() && unsorted[k0] == sorted_groups@[k];
            assert(group_names_sorted(unsorted[k0]));
        }
    }
    let groups = sorted_groups;
    let mut count: Vec<(String, usize)> = Vec::new();
    let g = groups.len();
    let mut t: usize = 0;
    while t < g
        invariant
            t <= g,
            g == groups@.len(),
            count@.len() == t,
            forall|k: int|
                0 <= k < t ==> (#[trigger] count@[k]).0@ == groups@[k].0@ && count@[k].1
                    == groups@[k].1@.len(),
        decreases g - t,
    {
        count.push((groups[t].0.clone(), groups[t].1.len()));
        t = t + 1;
    }
    KaniTools { count, annotated_functions: groups }
}

impl Stat {
    /// Compute the statistics for one program: the exact definition counts,
    /// and the annotated functions grouped by verification-tool attribute
    /// path.
    pub fn new(p: &Program, external_crate_count: usize) -> (r: Stat)
        ensures
            r.external.count == external_crate_count,
            r.local.count.total == p.defs@.len(),
            r.local.count.all_tool_attrs == count_attributed(p.defs@),
            r.local.count.kanitools == count_kanitool(p.defs@),
            r.local.kanitools.count@.len() == r.local.kanitools.annotated_functions@.len(),
            forall|k: int|
                0 <= k < r.local.kanitools.count@.len() ==> (
                #[trigger] r.local.kanitools.count@[k]).0@ == r.local.kanitools.annotated_functions@[k].0@ && r.local.kanitools.count@[k].1 == r.local.kanitools.annotated_functions@[k].1@.len(),
            forall|i: int, j: int|
                0 <= i < j < r.local.kanitools.annotated_functions@.len() ==> chars_cmp(
                    (#[trigger] r.local.kanitools.annotated_functions@[i]).0@,
                    (#[trigger] r.local.kanitools.annotated_functions@[j]).0@,
                ) != Ordering::Greater,
            forall|k: int|
                0 <= k < r.local.kanitools.annotated_functions@.len() ==> group_names_sorted(
                    #[trigger] r.local.kanitools.annotated_functions@[k],
                ),
    {
        let total = p.defs.len();
        let mut all_tool_attrs: usize = 0;
        let mut kanitools: usize = 0;
        let mut i: usize = 0;
        proof {
            assert(p.defs@.take(0) =~= Seq::<FnDef>::empty());
        }
        while i < total
            invariant
                i <= total,
                total == p.defs@.len(),
                all_tool_attrs == count_attributed(p.defs@.take(i as int)),
                kanitools == count_kanitool(p.defs@.take(i as int)),
                all_tool_attrs <= i,
                kanitools <= i,
            decreases total - i,
        {
            proof {
                lemma_counts_take_succ(p.defs@, i as int);
            }
            if p.defs[i].attrs.len() > 0 {
                all_tool_attrs = all_tool_attrs + 1;
            }
            if def_has_kanitool(&p.defs[i]) {
                kanitools = kanitools + 1;
            }
            i = i + 1;
        }
        proof {
            assert(p.defs@.take(total as int) =~= p.defs@);
        }
        let count = CountFunctions { total, all_tool_attrs, kanitools };
        let kanitools_groups = group_kanitools(p);
        Stat {
            local: LocalCrateFnDefs { count, kanitools: kanitools_groups },
            external: ExternalCrates { count: external_crate_count },
        }
    }
}

} // verus!
