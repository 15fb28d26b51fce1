//! Cross-validation of the analysis output against an independent external
//! harness listing: the totals must agree, and each (file, name) pair must
//! appear on both sides under the matching kind. All mismatches found are
//! reported together, not just the first.

use vstd::prelude::*;
use crate::attrs::str_eq;
use crate::serialization::{Kind, SerFunction};

verus! {

/// The harnesses the external listing reports for one file.
#[derive(Debug)]
pub struct FileHarnesses {
    pub file: String,
    pub harnesses: Vec<String>,
}

/// A function under contract, as the external listing reports it.
#[derive(Debug)]
pub struct ContractedFunction {
    pub function: String,
    pub file: String,
    pub harnesses: Vec<String>,
}

/// The external listing's aggregate totals.
#[derive(Debug)]
pub struct Total {
    pub standard_harnesses: usize,
    pub contract_harnesses: usize,
    pub functions_under_contract: usize,
}

/// The external harness listing.
#[derive(Debug)]
pub struct KaniList {
    pub kani_version: String,
    pub file_version: String,
    pub standard_harnesses: Vec<FileHarnesses>,
    pub contract_harnesses: Vec<FileHarnesses>,
    pub contracts: Vec<ContractedFunction>,
    pub totals: Total,
}

/// One reconciliation failure: the offending (file, name) key, its kind, and
/// the direction — present only in the external listing, or only here.
#[derive(Debug)]
pub struct Mismatch {
    pub file: String,
    pub name: String,
    pub kind: Kind,
    pub only_external: bool,
}

/// Everything that went wrong in one reconciliation run.
#[derive(Debug)]
pub struct CheckProofsError {
    /// The output length differs from the external total.
    pub total_mismatch: bool,
    /// The external standard total differs from its own per-file sets.
    pub standard_total_mismatch: bool,
    /// The external contract total differs from its own per-file sets.
    pub contract_total_mismatch: bool,
    /// Every (file, name) key present on only one side.
    pub mismatches: Vec<Mismatch>,
}

/// How many harnesses the per-file sets of a listing hold in total.
pub open spec fn harness_count(hs: Seq<FileHarnesses>) -> int
    decreases hs.len(),
{
    if hs.len() == 0 {
        0
    } else {
        hs[0].harnesses@.len() + harness_count(hs.drop_first())
    }
}

/// The pair (file, name) occurs in the listing.
pub open spec fn in_listing(hs: Seq<FileHarnesses>, file: Seq<char>, name: Seq<char>) -> bool {
    exists|i: int, j: int|
        #![trigger hs[i].harnesses@[j]]
        0 <= i < hs.len() && 0 <= j < hs[i].harnesses@.len() && hs[i].file@ == file
            && hs[i].harnesses@[j]@ == name
}

/// Some output entry carries this file, name and kind.
pub open spec fn fun_in_output(
    v: Seq<SerFunction>,
    file: Seq<char>,
    name: Seq<char>,
    kind: Kind,
) -> bool {
    exists|k: int|
        0 <= k < v.len() && (#[trigger] v[k]).func@.file == file && v[k].func@.name == name
            && v[k].kind == kind
}

/// Every pair of the listing appears in the output under `kind`.
pub open spec fn listing_covered(hs: Seq<FileHarnesses>, v: Seq<SerFunction>, kind: Kind) -> bool {
    forall|i: int, j: int|
        #![trigger hs[i].harnesses@[j]]
        0 <= i < hs.len() && 0 <= j < hs[i].harnesses@.len() ==> fun_in_output(
            v,
            hs[i].file@,
            hs[i].harnesses@[j]@,
            kind,
        )
}

/// Every output entry appears in the listing of its kind.
pub open spec fn output_covered(
    v: Seq<SerFunction>,
    std_hs: Seq<FileHarnesses>,
    con_hs: Seq<FileHarnesses>,
) -> bool {
    forall|k: int|
        0 <= k < v.len() ==> in_listing(
            if (#[trigger] v[k]).kind == Kind::Standard {
                std_hs
            } else {
                con_hs
            },
            v[k].func@.file,
            v[k].func@.name,
        )
}

/// A reported mismatch is a genuine violation.
pub open spec fn genuine_mismatch(list: &KaniList, v: Seq<SerFunction>, m: Mismatch) -> bool {
    let hs = if m.kind == Kind::Standard {
        list.standard_harnesses@
    } else {
        list.contract_harnesses@
    };
    if m.only_external {
        in_listing(hs, m.file@, m.name@) && !fun_in_output(v, m.file@, m.name@, m.kind)
    } else {
        fun_in_output(v, m.file@, m.name@, m.kind) && !in_listing(hs, m.file@, m.name@)
    }
}

/// The three count checks of the reconciliation.
pub open spec fn counts_agree(list: &KaniList, v: Seq<SerFunction>) -> bool {
    &&& v.len() == list.totals.standard_harnesses + list.totals.contract_harnesses
    &&& harness_count(list.standard_harnesses@) == list.totals.standard_harnesses
    &&& harness_count(list.contract_harnesses@) == list.totals.contract_harnesses
}

/// Both directions of the key check hold.
pub open spec fn keys_agree(list: &KaniList, v: Seq<SerFunction>) -> bool {
    &&& listing_covered(list.standard_harnesses@, v, Kind::Standard)
    &&& listing_covered(list.contract_harnesses@, v, Kind::Contract)
    &&& output_covered(v, list.standard_harnesses@, list.contract_harnesses@)
}

/// Does some output entry carry this file, name and kind?
fn output_contains(v: &Vec<SerFunction>, file: &str, name: &str, kind: Kind) -> (r: bool)
    ensures
        r == fun_in_output(v@, file@, name@, kind),
{
    let n = v.len();
    let mut k: usize = 0;
    while k < n
        invariant
            k <= n,
            n == v@.len(),
            forall|t: int|
                0 <= t < k ==> !((#[trigger] v@[t]).func@.file == file@ && v@[t].func@.name
                    == name@ && v@[t].kind == kind),
        decreases n - k,
    {
        if str_eq(v[k].func.file.as_str(), file) && str_eq(v[k].func.name.as_str(), name) && v[k].kind
            == kind {
            return true;
        }
        k = k + 1;
    }
    false
}

/// Does the listing hold this (file, name) pair?
fn listing_contains(hs: &Vec<FileHarnesses>, file: &str, name: &str) -> (r: bool)
    ensures
        r == in_listing(hs@, file@, name@),
{
    let n = hs.len();
    let mut i: usize = 0;
    while i < n
        invariant
            i <= n,
            n == hs@.len(),
            forall|t: int, j: int|
                #![trigger hs@[t].harnesses@[j]]
                0 <= t < i && 0 <= j < hs@[t].harnesses@.len() ==> !(hs@[t].file@ == file@
                    && hs@[t].harnesses@[j]@ == name@),
        decreases n - i,
    {
        if str_eq(hs[i].file.as_str(), file) {
            let m = hs[i].harnesses.len();
            let mut j: usize = 0;
            while j < m
                invariant
                    j <= m,
                    i < n,
                    n == hs@.len(),
                    m == hs@[i as int].harnesses@.len(),
                    hs@[i as int].file@ == file@,
                    forall|t: int|
                        0 <= t < j ==> (#[trigger] hs@[i as int].harnesses@[t])@ != name@,
                decreases m - j,
            {
                if str_eq(hs[i].harnesses[j].as_str(), name) {
                    return true;
                }
                j = j + 1;
            }
        }
        i = i + 1;
    }
    false
}

/// Count the harnesses in the per-file sets of a listing.
fn count_listing(hs: &Vec<FileHarnesses>) -> (r: u128)
    ensures
        r == harness_count(hs@),
{
    let n = hs.len();
    let mut acc: u128 = 0;
    let mut i: usize = 0;
    proof {
        assert(hs@.take(0) =~= Seq::<FileHarnesses>::empty());
    }
    while i < n
        invariant
            i <= n,
            n == hs@.len(),
            acc == harness_count(hs@.take(i as int)),
            acc <= (i as u128) * 0xffff_ffff_ffff_ffffu128,
        decreases n - i,
    {
        let len = hs[i].harnesses.len();
        proof {
            lemma_harness_count_take_succ(hs@, i as int);
            assert(len <= 0xffff_ffff_ffff_ffffu128) by {
                assert(len <= usize::MAX);
            }
            assert(acc + (len as u128) <= ((i + 1) as u128) * 0xffff_ffff_ffff_ffffu128)
                by (nonlinear_arith)
                requires
                    acc <= (i as u128) * 0xffff_ffff_ffff_ffffu128,
                    len as u128 <= 0xffff_ffff_ffff_ffffu128,
            ;
            assert(((i + 1) as u128) * 0xffff_ffff_ffff_ffffu128 < u128::MAX) by (nonlinear_arith)
                requires
                    i + 1 <= 0xffff_ffff_ffff_ffffu128,
            ;
        }
        acc = acc + (len as u128);
        i = i + 1;
    }
    proof {
        assert(hs@.take(n as int) =~= hs@);
    }
    acc
}

/// Splitting off the next file adds its harness count.
proof fn lemma_harness_count_take_succ(hs: Seq<FileHarnesses>, i: int)
    requires
        0 <= i < hs.len(),
    ensures
        harness_count(hs.take(i + 1)) == harness_count(hs.take(i)) + hs[i].harnesses@.len(),
    decreases i,
{
    let a = hs.take(i + 1);
    let b = hs.take(i);
    if i == 0 {
        assert(a.drop_first() =~= Seq::<FileHarnesses>::empty());
        assert(harness_count(Seq::<FileHarnesses>::empty()) == 0);
        assert(harness_count(b) == 0);
        assert(a[0] == hs[0]);
    } else {
        lemma_harness_count_take_succ(hs.drop_first(), i - 1);
        assert(a[0] == hs[0] && b[0] == hs[0]);
        assert(a.drop_first() =~= hs.drop_first().take(i));
        assert(b.drop_first() =~= hs.drop_first().take(i - 1));
        assert(hs.drop_first()[i - 1] == hs[i]);
    }
}

/// Some entry of the mismatch list names exactly this key, kind and
/// direction.
pub open spec fn mismatch_reported(
    ms: Seq<Mismatch>,
    file: Seq<char>,
    name: Seq<char>,
    kind: Kind,
    only_external: bool,
) -> bool {
    exists|t: int|
        0 <= t < ms.len() && (#[trigger] ms[t]).file@ == file && ms[t].name@ == name && ms[t].kind
            == kind && ms[t].only_external == only_external
}

/// Every offending key is reported: each listing pair missing from the
/// output under its kind, and each output entry missing from the listing of
/// its kind.
pub open spec fn mismatches_complete(
    list: &KaniList,
    v: Seq<SerFunction>,
    ms: Seq<Mismatch>,
) -> bool {
    &&& (forall|i: int, j: int|
        #![trigger list.standard_harnesses@[i].harnesses@[j]]
        0 <= i < list.standard_harnesses@.len() && 0 <= j < list.standard_harnesses@[i].harnesses@.len() && !fun_in_output(
            v,
            list.standard_harnesses@[i].file@,
            list.standard_harnesses@[i].harnesses@[j]@,
            Kind::Standard,
        ) ==> mismatch_reported(
            ms,
            list.standard_harnesses@[i].file@,
            list.standard_harnesses@[i].harnesses@[j]@,
            Kind::Standard,
            true,
        ))
    &&& (forall|i: int, j: int|
        #![trigger list.contract_harnesses@[i].harnesses@[j]]
        0 <= i < list.contract_harnesses@.len() && 0 <= j < list.contract_harnesses@[i].harnesses@.len() && !fun_in_output(
            v,
            list.contract_harnesses@[i].file@,
            list.contract_harnesses@[i].harnesses@[j]@,
            Kind::Contract,
        ) ==> mismatch_reported(
            ms,
            list.contract_harnesses@[i].file@,
            list.contract_harnesses@[i].harnesses@[j]@,
            Kind::Contract,
            true,
        ))
    &&& (forall|k: int|
        0 <= k < v.len() && !in_listing(
            if (#[trigger] v[k]).kind == Kind::Standard {
                list.standard_harnesses@
            } else {
                list.contract_harnesses@
            },
            v[k].func@.file,
            v[k].func@.name,
        ) ==> mismatch_reported(ms, v[k].func@.file, v[k].func@.name, v[k].kind, false))
}

/// No key is reported twice: the entries differ pairwise in key, kind or
/// direction.
pub open spec fn mismatches_distinct(ms: Seq<Mismatch>) -> bool {
    forall|t1: int, t2: int|
        #![trigger ms[t1], ms[t2]]
        0 <= t1 < t2 < ms.len() ==> !(ms[t1].file@ == ms[t2].file@ && ms[t1].name@ == ms[t2].name@
            && ms[t1].kind == ms[t2].kind && ms[t1].only_external == ms[t2].only_external)
}

/// Is this key, kind and direction already reported?
fn mismatch_listed(out: &Vec<Mismatch>, file: &str, name: &str, kind: Kind, only_external: bool) -> (r:
    bool)
    ensures
        r == mismatch_reported(out@, file@, name@, kind, only_external),
{
    let n = out.len();
    let mut t: usize = 0;
    while t < n
        invariant
            t <= n,
            n == out@.len(),
            forall|t2: int|
                0 <= t2 < t ==> !((#[trigger] out@[t2]).file@ == file@ && out@[t2].name@ == name@
                    && out@[t2].kind == kind && out@[t2].only_external == only_external),
        decreases n - t,
    {
        if str_eq(out[t].file.as_str(), file) && str_eq(out[t].name.as_str(), name) && out[t].kind
            == kind && out[t].only_external == only_external {
            return true;
        }
        t = t + 1;
    }
    false
}

/// Collect the pairs of one listing that are missing from the output,
/// reporting each offending key once.
fn missing_from_output(
    hs: &Vec<FileHarnesses>,
    v: &Vec<SerFunction>,
    kind: Kind,
    out: &mut Vec<Mismatch>,
    Ghost(list): Ghost<&KaniList>,
)
    requires
        hs@ == (if kind == Kind::Standard {
            list.standard_harnesses@
        } else {
            list.contract_harnesses@
        }),
        forall|t: int| 0 <= t < old(out)@.len() ==> genuine_mismatch(list, v@, #[trigger] old(out)@[t]),
        mismatches_distinct(old(out)@),
    ensures
        forall|t: int| 0 <= t < final(out)@.len() ==> genuine_mismatch(list, v@, #[trigger] final(out)@[t]),
        mismatches_distinct(final(out)@),
        forall|t: int| 0 <= t < old(out)@.len() ==> final(out)@[t] == #[trigger] old(out)@[t],
        final(out)@.len() >= old(out)@.len(),
        listing_covered(hs@, v@, kind) ==> final(out)@ == old(out)@,
        forall|i: int, j: int|
            #![trigger hs@[i].harnesses@[j]]
            0 <= i < hs@.len() && 0 <= j < hs@[i].harnesses@.len() && !fun_in_output(
                v@,
                hs@[i].file@,
                hs@[i].harnesses@[j]@,
                kind,
            ) ==> mismatch_reported(final(out)@, hs@[i].file@, hs@[i].harnesses@[j]@, kind, true),
{
    let n = hs.len();
    let mut i: usize = 0;
    while i < n
        invariant
            i <= n,
            n == hs@.len(),
            hs@ == (if kind == Kind::Standard {
                list.standard_harnesses@
            } else {
                list.contract_harnesses@
            }),
            forall|t: int| 0 <= t < out@.len() ==> genuine_mismatch(list, v@, #[trigger] out@[t]),
            mismatches_distinct(out@),
            forall|t: int| 0 <= t < old(out)@.len() ==> out@[t] == #[trigger] old(out)@[t],
            out@.len() >= old(out)@.len(),
            listing_covered(hs@, v@, kind) ==> out@ == old(out)@,
            forall|i2: int, j: int|
                #![trigger hs@[i2].harnesses@[j]]
                0 <= i2 < i && 0 <= j < hs@[i2].harnesses@.len() && !fun_in_output(
                    v@,
                    hs@[i2].file@,
                    hs@[i2].harnesses@[j]@,
                    kind,
                ) ==> mismatch_reported(out@, hs@[i2].file@, hs@[i2].harnesses@[j]@, kind, true),
        decreases n - i,
    {
        let m = hs[i].harnesses.len();
        let mut j: usize = 0;
        while j < m
            invariant
                j <= m,
                i < n,
                n == hs@.len(),
                m == hs@[i as int].harnesses@.len(),
                hs@ == (if kind == Kind::Standard {
                    list.standard_harnesses@
                } else {
                    list.contract_harnesses@
                }),
                forall|t: int|
                    0 <= t < out@.len() ==> genuine_mismatch(list, v@, #[trigger] out@[t]),
                mismatches_distinct(out@),
                forall|t: int| 0 <= t < old(out)@.len() ==> out@[t] == #[trigger] old(out)@[t],
                out@.len() >= old(out)@.len(),
                listing_covered(hs@, v@, kind) ==> out@ == old(out)@,
                forall|i2: int, j2: int|
                    #![trigger hs@[i2].harnesses@[j2]]
                    0 <= i2 < i && 0 <= j2 < hs@[i2].harnesses@.len() && !fun_in_output(
                        v@,
                        hs@[i2].file@,
                        hs@[i2].harnesses@[j2]@,
                        kind,
                    ) ==> mismatch_reported(out@, hs@[i2].file@, hs@[i2].harnesses@[j2]@, kind, true),
                forall|j2: int|
                    0 <= j2 < j && !fun_in_output(
                        v@,
                        hs@[i as int].file@,
                        (#[trigger] hs@[i as int].harnesses@[j2])@,
                        kind,
                    ) ==> mismatch_reported(
                        out@,
                        hs@[i as int].file@,
                        hs@[i as int].harnesses@[j2]@,
                        kind,
                        true,
                    ),
            decreases m - j,
        {
            let present = output_contains(v, hs[i].file.as_str(), hs[i].harnesses[j].as_str(), kind);
            if !present {
                let listed = mismatch_listed(
                    out,
                    hs[i].file.as_str(),
                    hs[i].harnesses[j].as_str(),
                    kind,
                    true,
                );
                proof {
                    assert(in_listing(hs@, hs@[i as int].file@, hs@[i as int].harnesses@[j as int]@))
                        by {
                        assert(hs@[i as int].harnesses@[j as int]@ == hs@[i as int].harnesses@[j as int]@);
                    }
                    assert(!listing_covered(hs@, v@, kind));
                }
                if !listed {
                    let ghost out_prev = out@;
                    let mm = Mismatch {
                        file: hs[i].file.clone(),
                        name: hs[i].harnesses[j].clone(),
                        kind,
                        only_external: true,
                    };
                    proof {
                        assert(genuine_mismatch(list, v@, mm));
                    }
                    out.push(mm);
                    proof {
                        assert(out@[out_prev.len() as int] == mm);
                        assert forall|t: int| 0 <= t < out@.len() implies genuine_mismatch(
                            list,
                            v@,
                            #[trigger] out@[t],
                        ) by {
                            if t < out_prev.len() {
                                assert(out@[t] == out_prev[t]);
                            }
                        }
                        assert(mismatches_distinct(out@)) by {
                            assert forall|t1: int, t2: int|
                                #![trigger out@[t1], out@[t2]]
                                0 <= t1 < t2 < out@.len() implies !(out@[t1].file@ == out@[t2].file@ && out@[t1].name@ == out@[t2].name@ && out@[t1].kind == out@[t2].kind && out@[t1].only_external == out@[t2].only_external) by {
                                if t2 < out_prev.len() {
                                    assert(out@[t1] == out_prev[t1] && out@[t2] == out_prev[t2]);
                                } else {
                                    assert(out@[t1] == out_prev[t1] && out@[t2] == mm);
                                }
                            }
                        }
                        assert forall|i2: int, j2: int|
                            #![trigger hs@[i2].harnesses@[j2]]
                            0 <= i2 < i && 0 <= j2 < hs@[i2].harnesses@.len() && !fun_in_output(
                                v@,
                                hs@[i2].file@,
                                hs@[i2].harnesses@[j2]@,
                                kind,
                            ) implies mismatch_reported(
                            out@,
                            hs@[i2].file@,
                            hs@[i2].harnesses@[j2]@,
                            kind,
                            true,
                        ) by {
                            let t0 = choose|t0: int|
                                0 <= t0 < out_prev.len() && (#[trigger] out_prev[t0]).file@ == hs@[i2].file@ && out_prev[t0].name@ == hs@[i2].harnesses@[j2]@
                                    && out_prev[t0].kind == kind && out_prev[t0].only_external;
                            assert(out@[t0] == out_prev[t0]);
                        }
                        assert forall|j2: int|
                            0 <= j2 < j + 1 && !fun_in_output(
                                v@,
                                hs@[i as int].file@,
                                (#[trigger] hs@[i as int].harnesses@[j2])@,
                                kind,
                            ) implies mismatch_reported(
                            out@,
                            hs@[i as int].file@,
                            hs@[i as int].harnesses@[j2]@,
                            kind,
                            true,
                        ) by {
                            if j2 < j {
                                let t0 = choose|t0: int|
                                    0 <= t0 < out_prev.len() && (#[trigger] out_prev[t0]).file@
                                        == hs@[i as int].file@ && out_prev[t0].name@ == hs@[i as int].harnesses@[j2]@ && out_prev[t0].kind == kind && out_prev[t0].only_external;
                                assert(out@[t0] == out_prev[t0]);
                            } else {
                                assert(out@[out_prev.len() as int] == mm);
                            }
                        }
                    }
                }
            }
            j = j + 1;
        }
        i = i + 1;
    }
}

/// Collect the output entries that are missing from the listing of their
/// kind, reporting each offending key once.
fn missing_from_listing(
    list: &KaniList,
    v: &Vec<SerFunction>,
    out: &mut Vec<Mismatch>,
)
    requires
        forall|t: int|
            0 <= t < old(out)@.len() ==> genuine_mismatch(list, v@, #[trigger] old(out)@[t]),
        mismatches_distinct(old(out)@),
    ensures
        forall|t: int|
            0 <= t < final(out)@.len() ==> genuine_mismatch(list, v@, #[trigger] final(out)@[t]),
        mismatches_distinct(final(out)@),
        forall|t: int| 0 <= t < old(out)@.len() ==> final(out)@[t] == #[trigger] old(out)@[t],
        final(out)@.len() >= old(out)@.len(),
        output_covered(v@, list.standard_harnesses@, list.contract_harnesses@) ==> final(out)@
            == old(out)@,
        forall|k: int|
            0 <= k < v@.len() && !in_listing(
                if (#[trigger] v@[k]).kind == Kind::Standard {
                    list.standard_harnesses@
                } else {
                    list.contract_harnesses@
                },
                v@[k].func@.file,
                v@[k].func@.name,
            ) ==> mismatch_reported(final(out)@, v@[k].func@.file, v@[k].func@.name, v@[k].kind, false),
{
    let n = v.len();
    let mut k: usize = 0;
    while k < n
        invariant
            k <= n,
            n == v@.len(),
            forall|t: int| 0 <= t < out@.len() ==> genuine_mismatch(list, v@, #[trigger] out@[t]),
            mismatches_distinct(out@),
            forall|t: int| 0 <= t < old(out)@.len() ==> out@[t] == #[trigger] old(out)@[t],
            out@.len() >= old(out)@.len(),
            output_covered(v@, list.standard_harnesses@, list.contract_harnesses@) ==> out@ == old(
                out,
            )@,
            forall|k2: int|
                0 <= k2 < k && !in_listing(
                    if (#[trigger] v@[k2]).kind == Kind::Standard {
                        list.standard_harnesses@
                    } else {
                        list.contract_harnesses@
                    },
                    v@[k2].func@.file,
                    v@[k2].func@.name,
                ) ==> mismatch_reported(out@, v@[k2].func@.file, v@[k2].func@.name, v@[k2].kind, false),
        decreases n - k,
    {
        let hs = if matches!(v[k].kind, Kind::Standard) {
            &list.standard_harnesses
        } else {
            &list.contract_harnesses
        };
        let present = listing_contains(hs, v[k].func.file.as_str(), v[k].func.name.as_str());
        if !present {
            let listed = mismatch_listed(
                out,
                v[k].func.file.as_str(),
                v[k].func.name.as_str(),
                v[k].kind,
                false,
            );
            proof {
                assert(!output_covered(v@, list.standard_harnesses@, list.contract_harnesses@));
            }
            if !listed {
                let ghost out_prev = out@;
                let mm = Mismatch {
                    file: v[k].func.file.clone(),
                    name: v[k].func.name.clone(),
                    kind: v[k].kind,
                    only_external: false,
                };
                proof {
                    assert(fun_in_output(
                        v@,
                        v@[k as int].func@.file,
                        v@[k as int].func@.name,
                        v@[k as int].kind,
                    ));
                    assert(genuine_mismatch(list, v@, mm));
                }
                out.push(mm);
                proof {
                    assert(out@[out_prev.len() as int] == mm);
                    assert forall|t: int| 0 <= t < out@.len() implies genuine_mismatch(
                        list,
                        v@,
                        #[trigger] out@[t],
                    ) by {
                        if t < out_prev.len() {
                            assert(out@[t] == out_prev[t]);
                        }
                    }
                    assert(mismatches_distinct(out@)) by {
                        assert forall|t1: int, t2: int|
                            #![trigger out@[t1], out@[t2]]
                            0 <= t1 < t2 < out@.len() implies !(out@[t1].file@ == out@[t2].file@
                            && out@[t1].name@ == out@[t2].name@ && out@[t1].kind == out@[t2].kind
                            && out@[t1].only_external == out@[t2].only_external) by {
                            if t2 < out_prev.len() {
                                assert(out@[t1] == out_prev[t1] && out@[t2] == out_prev[t2]);
                            } else {
                                assert(out@[t1] == out_prev[t1] && out@[t2] == mm);
                            }
                        }
                    }
                    assert forall|k2: int|
                        0 <= k2 < k + 1 && !in_listing(
                            if (#[trigger] v@[k2]).kind == Kind::Standard {
                                list.standard_harnesses@
                            } else {
                                list.contract_harnesses@
                            },
                            v@[k2].func@.file,
                            v@[k2].func@.name,
                        ) implies mismatch_reported(
                        out@,
                        v@[k2].func@.file,
                        v@[k2].func@.name,
                        v@[k2].kind,
                        false,
                    ) by {
                        if k2 < k {
                            let t0 = choose|t0: int|
                                0 <= t0 < out_prev.len() && (#[trigger] out_prev[t0]).file@ == v@[k2].func@.file && out_prev[t0].name@ == v@[k2].func@.name && out_prev[t0].kind == v@[k2].kind && !out_prev[t0].only_external;
                            assert(out@[t0] == out_prev[t0]);
                        } else {
                            assert(out@[out_prev.len() as int] == mm);
                        }
                    }
                }
            }
        }
        k = k + 1;
    }
}

/// Reconcile the analysis output with the external listing. Succeeds exactly
/// when the totals agree and every (file, name) key appears on both sides
/// under the matching kind; otherwise reports every count mismatch and every
/// offending key — each exactly once — in one report.
pub fn check_proofs(list: &KaniList, v_ser_fun: &Vec<SerFunction>) -> (r: Result<
    (),
    CheckProofsError,
>)
    ensures
        r is Ok <==> counts_agree(list, v_ser_fun@) && keys_agree(list, v_ser_fun@),
        match r {
            Result::Ok(()) => true,
            Result::Err(e) => {
                &&& e.total_mismatch == !(v_ser_fun@.len() == list.totals.standard_harnesses
                    + list.totals.contract_harnesses)
                &&& e.standard_total_mismatch == !(harness_count(list.standard_harnesses@)
                    == list.totals.standard_harnesses)
                &&& e.contract_total_mismatch == !(harness_count(list.contract_harnesses@)
                    == list.totals.contract_harnesses)
                &&& (forall|t: int|
                    0 <= t < e.mismatches@.len() ==> genuine_mismatch(
                        list,
                        v_ser_fun@,
                        #[trigger] e.mismatches@[t],
                    ))
                &&& mismatches_complete(list, v_ser_fun@, e.mismatches@)
                &&& mismatches_distinct(e.mismatches@)
                &&& (keys_agree(list, v_ser_fun@) <==> e.mismatches@.len() == 0)
            },
        },
{
    let c1 = (v_ser_fun.len() as u128) == (list.totals.standard_harnesses as u128)
        + (list.totals.contract_harnesses as u128);
    let c2 = count_listing(&list.standard_harnesses) == (list.totals.standard_harnesses as u128);
    let c3 = count_listing(&list.contract_harnesses) == (list.totals.contract_harnesses as u128);
    let mut mismatches: Vec<Mismatch> = Vec::new();
    missing_from_output(
        &list.standard_harnesses,
        v_ser_fun,
        Kind::Standard,
        &mut mismatches,
        Ghost(list),
    );
    missing_from_output(
        &list.contract_harnesses,
        v_ser_fun,
        Kind::Contract,
        &mut mismatches,
        Ghost(list),
    );
    missing_from_listing(list, v_ser_fun, &mut mismatches);
    let ok = c1 && c2 && c3 && mismatches.len() == 0;
    proof {
        if mismatches@.len() == 0 {
            assert(listing_covered(list.standard_harnesses@, v_ser_fun@, Kind::Standard)) by {
                assert forall|i: int, j: int|
                    #![trigger list.standard_harnesses@[i].harnesses@[j]]
                    0 <= i < list.standard_harnesses@.len() && 0 <= j < list.standard_harnesses@[i].harnesses@.len() implies fun_in_output(
                    v_ser_fun@,
                    list.standard_harnesses@[i].file@,
                    list.standard_harnesses@[i].harnesses@[j]@,
                    Kind::Standard,
                ) by {
                    if !fun_in_output(
                        v_ser_fun@,
                        list.standard_harnesses@[i].file@,
                        list.standard_harnesses@[i].harnesses@[j]@,
                        Kind::Standard,
                    ) {
                    }
                }
            }
            assert(listing_covered(list.contract_harnesses@, v_ser_fun@, Kind::Contract)) by {
                assert forall|i: int, j: int|
                    #![trigger list.contract_harnesses@[i].harnesses@[j]]
                    0 <= i < list.contract_harnesses@.len() && 0 <= j < list.contract_harnesses@[i].harnesses@.len() implies fun_in_output(
                    v_ser_fun@,
                    list.contract_harnesses@[i].file@,
                    list.contract_harnesses@[i].harnesses@[j]@,
                    Kind::Contract,
                ) by {
                    if !fun_in_output(
                        v_ser_fun@,
                        list.contract_harnesses@[i].file@,
                        list.contract_harnesses@[i].harnesses@[j]@,
                        Kind::Contract,
                    ) {
                    }
                }
            }
            assert(output_covered(
                v_ser_fun@,
                list.standard_harnesses@,
                list.contract_harnesses@,
            )) by {
                assert forall|k: int| 0 <= k < v_ser_fun@.len() implies in_listing(
                    if (#[trigger] v_ser_fun@[k]).kind == Kind::Standard {
                        list.standard_harnesses@
                    } else {
                        list.contract_harnesses@
                    },
                    v_ser_fun@[k].func@.file,
                    v_ser_fun@[k].func@.name,
                ) by {
                    if !in_listing(
                        if v_ser_fun@[k].kind == Kind::Standard {
                            list.standard_harnesses@
                        } else {
                            list.contract_harnesses@
                        },
                        v_ser_fun@[k].func@.file,
                        v_ser_fun@[k].func@.name,
                    ) {
                    }
                }
            }
        }
    }
    if ok {
        Result::Ok(())
    } else {
        Result::Err(
            CheckProofsError {
                total_mismatch: !c1,
                standard_total_mismatch: !c2,
                contract_total_mismatch: !c3,
                mismatches,
            },
        )
    }
}

/// Reconcile and keep only whether it succeeded.
pub fn check(list: &KaniList, v_ser_fun: &Vec<SerFunction>) -> (r: bool)
    ensures
        r == (counts_agree(list, v_ser_fun@) && keys_agree(list, v_ser_fun@)),
{
    matches!(check_proofs(list, v_ser_fun), Result::Ok(()))
}

} // verus!
