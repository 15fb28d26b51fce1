//! The serialized form of one harness: its classification, source record,
//! callee records, and content fingerprint.

use vstd::prelude::*;
use core::cmp::Ordering;
use crate::attrs::{count_path, strings_view};
use crate::fingerprint::{Fingerprint, op_len, op_str, stable_digest};
use crate::program::Program;
use crate::cache::spec_source_of;
use crate::source_code::{SourceCode, SourceCodeV, empty_source, source_cmp, source_ops};

verus! {

/// Proof kind of a harness.
#[derive(Debug, Clone, Copy, PartialEq, Eq, Structural)]
pub enum Kind {
    /// Marked with the standard proof marker.
    Standard,
    /// Marked with the contract proof marker.
    Contract,
}

impl Default for Kind {
    fn default() -> (r: Kind)
        ensures
            r == Kind::Standard,
    {
        Kind::Standard
    }
}

/// A classification that cannot be completed: the recognized attributes of a
/// filtered-in item carry no proof-kind marker, or more than one.
#[derive(Debug, Clone, Copy, PartialEq, Eq, Structural)]
pub enum ClassifyError {
    /// No proof-kind marker at all.
    NoProofMarker,
    /// More than one proof-kind marker: the kind is ambiguous.
    AmbiguousProofMarkers,
}

/// What classification yields for a list of recognized attributes: exactly
/// one proof-kind marker gives its kind; none or several is an error.
pub open spec fn spec_classify(attrs: Seq<Seq<char>>) -> Result<Kind, ClassifyError> {
    let s = count_path(attrs, "kanitool::proof"@);
    let c = count_path(attrs, "kanitool::proof_for_contract"@);
    if s == 0 && c == 0 {
        Result::Err(ClassifyError::NoProofMarker)
    } else if s + c > 1 {
        Result::Err(ClassifyError::AmbiguousProofMarkers)
    } else if s == 1 {
        Result::Ok(Kind::Standard)
    } else {
        Result::Ok(Kind::Contract)
    }
}

impl Kind {
    /// Classify a function by its recognized tool attributes: exactly one
    /// proof-kind marker is expected; none or several is a contract
    /// violation, reported as a fatal error.
    pub fn classify(attrs: &Vec<String>) -> (r: Result<Kind, ClassifyError>)
        ensures
            r == spec_classify(strings_view(attrs@)),
    {
        let ghost av = strings_view(attrs@);
        let n = attrs.len();
        let mut std_cnt: usize = 0;
        let mut con_cnt: usize = 0;
        let mut i: usize = 0;
        proof {
            assert(av.take(0) =~= Seq::<Seq<char>>::empty());
        }
        while i < n
            invariant
                i <= n,
                n == attrs.len(),
                av == strings_view(attrs@),
                std_cnt == count_path(av.take(i as int), "kanitool::proof"@),
                con_cnt == count_path(av.take(i as int), "kanitool::proof_for_contract"@),
                std_cnt + con_cnt <= i,
            decreases n - i,
        {
            proof {
                assert(av.take(i as int).push(av[i as int]) =~= av.take(i as int + 1));
                crate::attrs::lemma_filter_path_push(av.take(i as int), "kanitool::proof"@, av[i as int]);
                crate::attrs::lemma_filter_path_push(
                    av.take(i as int),
                    "kanitool::proof_for_contract"@,
                    av[i as int],
                );
                crate::attrs::lemma_markers_exclusive(av[i as int]);
            }
            if crate::attrs::attr_matches(attrs[i].as_str(), "kanitool::proof") {
                std_cnt = std_cnt + 1;
            } else if crate::attrs::attr_matches(attrs[i].as_str(), "kanitool::proof_for_contract") {
                con_cnt = con_cnt + 1;
            }
            i = i + 1;
        }
        proof {
            assert(av.take(n as int) =~= av);
        }
        if std_cnt == 0 && con_cnt == 0 {
            Result::Err(ClassifyError::NoProofMarker)
        } else if std_cnt + con_cnt > 1 {
            Result::Err(ClassifyError::AmbiguousProofMarkers)
        } else if std_cnt == 1 {
            Result::Ok(Kind::Standard)
        } else {
            Result::Ok(Kind::Contract)
        }
    }
}

/// One recursive callee of a harness, as serialized.
#[derive(Debug)]
pub struct Callee {
    pub def_id: String,
    pub func: SourceCode,
}

/// Mathematical view of a [`Callee`].
#[verifier::ext_equal]
pub struct CalleeV {
    pub def_id: Seq<char>,
    pub func: SourceCodeV,
}

impl View for Callee {
    type V = CalleeV;

    open spec fn view(&self) -> CalleeV {
        CalleeV { def_id: self.def_id@, func: self.func@ }
    }
}

/// A harness with its file source, attributes, raw function content, and
/// content fingerprint.
#[derive(Debug)]
pub struct SerFunction {
    /// Content fingerprint over the harness's own source, its attributes,
    /// and its deduplicated callee sources.
    pub hash: String,
    /// Stable identity of the harness's definition.
    pub def_id: String,
    /// Recognized tool attributes, grouped by marker.
    pub attrs: Vec<String>,
    /// Proof kind.
    pub kind: Kind,
    /// Raw function record, including name, signature, and body.
    pub func: SourceCode,
    /// Count of callees.
    pub callees_len: usize,
    /// Recursive function calls reachable from the harness.
    pub callees: Vec<Callee>,
}

/// Mathematical view of a [`SerFunction`].
#[verifier::ext_equal]
pub struct SerFunctionV {
    pub hash: Seq<char>,
    pub def_id: Seq<char>,
    pub attrs: Seq<Seq<char>>,
    pub kind: Kind,
    pub func: SourceCodeV,
    pub callees_len: nat,
    pub callees: Seq<CalleeV>,
}

impl View for SerFunction {
    type V = SerFunctionV;

    open spec fn view(&self) -> SerFunctionV {
        SerFunctionV {
            hash: self.hash@,
            def_id: self.def_id@,
            attrs: strings_view(self.attrs@),
            kind: self.kind,
            func: self.func@,
            callees_len: self.callees_len as nat,
            callees: self.callees@.map_values(|c: Callee| c@),
        }
    }
}

impl SerFunction {
    /// Compare two serialized harnesses by their function records, the order
    /// the output is sorted in.
    pub fn cmp_by_file_and_func(&self, other: &SerFunction) -> (r: Ordering)
        ensures
            r == source_cmp(self.func@, other.func@),
    {
        self.func.cmp(&other.func)
    }
}

/// The reduced projection of a serialized harness: hash, attributes, name,
/// file, and callee names only.
#[derive(Debug)]
pub struct SimplifiedSerFunction {
    pub hash: String,
    pub attrs: Vec<String>,
    pub name: String,
    pub file: String,
    pub callees_len: usize,
    pub callees: Vec<String>,
}

impl SimplifiedSerFunction {
    /// Project a full serialized harness down to its reduced form: the same
    /// hash and attributes, the function's name and file, and the callees'
    /// names.
    pub fn of(val: &SerFunction) -> (r: SimplifiedSerFunction)
        ensures
            r.hash@ == val.hash@,
            strings_view(r.attrs@) == strings_view(val.attrs@),
            r.name@ == val.func@.name,
            r.file@ == val.func@.file,
            r.callees_len == val.callees_len,
            strings_view(r.callees@) == val@.callees.map_values(|c: CalleeV| c.func.name),
    {
        let mut callees: Vec<String> = Vec::new();
        let n = val.callees.len();
        let mut i: usize = 0;
        while i < n
            invariant
                i <= n,
                n == val.callees.len(),
                strings_view(callees@) =~= val@.callees.map_values(|c: CalleeV| c.func.name).take(
                    i as int,
                ),
            decreases n - i,
        {
            let ghost prev = callees@;
            callees.push(val.callees[i].func.name.clone());
            proof {
                assert(strings_view(callees@) =~= strings_view(prev).push(
                    val@.callees[i as int].func.name,
                ));
                assert(strings_view(callees@) =~= val@.callees.map_values(
                    |c: CalleeV| c.func.name,
                ).take(i as int + 1));
            }
            i = i + 1;
        }
        proof {
            assert(val@.callees.map_values(|c: CalleeV| c.func.name).take(n as int) =~= val@
                .callees.map_values(|c: CalleeV| c.func.name));
        }
        let mut attrs: Vec<String> = Vec::new();
        let m = val.attrs.len();
        let mut j: usize = 0;
        while j < m
            invariant
                j <= m,
                m == val.attrs.len(),
                strings_view(attrs@) =~= strings_view(val.attrs@).take(j as int),
            decreases m - j,
        {
            let ghost prev = attrs@;
            attrs.push(val.attrs[j].clone());
            proof {
                assert(strings_view(attrs@) =~= strings_view(prev).push(val.attrs@[j as int]@));
                assert(strings_view(attrs@) =~= strings_view(val.attrs@).take(j as int + 1));
            }
            j = j + 1;
        }
        proof {
            assert(strings_view(val.attrs@).take(m as int) =~= strings_view(val.attrs@));
        }
        SimplifiedSerFunction {
            hash: val.hash.clone(),
            attrs,
            name: val.func.name.clone(),
            file: val.func.file.clone(),
            callees_len: val.callees_len,
            callees,
        }
    }
}

// ************* the fingerprint input *************
/// The serialized source record of a callee: its normalized source, or the
/// empty record when it has no resolvable body.
pub open spec fn spec_callee_src(p: &Program, pwd: Seq<char>, sr: Seq<char>, id: int) -> SourceCodeV {
    match spec_source_of(p, id, pwd, sr) {
        Option::Some(v) => v,
        Option::None => empty_source(),
    }
}

/// The serialized source records of a callee list, in order.
pub open spec fn callee_srcs(p: &Program, pwd: Seq<char>, sr: Seq<char>, ids: Seq<usize>) -> Seq<
    SourceCodeV,
> {
    ids.map_values(|id: usize| spec_callee_src(p, pwd, sr, id as int))
}

/// Collapse adjacent equal source records: after sorting by source, each
/// distinct source text contributes once to the fingerprint, however many
/// instantiations share it.
pub open spec fn dedup_adj(s: Seq<SourceCodeV>) -> Seq<SourceCodeV>
    decreases s.len(),
{
    if s.len() == 0 {
        Seq::<SourceCodeV>::empty()
    } else if s.len() == 1 {
        s
    } else if s[0] == s[1] {
        dedup_adj(s.drop_first())
    } else {
        seq![s[0]] + dedup_adj(s.drop_first())
    }
}

/// The hash contribution of a list of attribute strings.
pub open spec fn strs_ops(ss: Seq<Seq<char>>) -> Seq<(bool, Seq<char>, int)>
    decreases ss.len(),
{
    if ss.len() == 0 {
        Seq::<(bool, Seq<char>, int)>::empty()
    } else {
        seq![op_str(ss[0])] + strs_ops(ss.drop_first())
    }
}

/// The hash contribution of a list of source records.
pub open spec fn sources_ops(ss: Seq<SourceCodeV>) -> Seq<(bool, Seq<char>, int)>
    decreases ss.len(),
{
    if ss.len() == 0 {
        Seq::<(bool, Seq<char>, int)>::empty()
    } else {
        source_ops(ss[0]) + sources_ops(ss.drop_first())
    }
}

/// Everything a harness's fingerprint is computed over, in fixed order: its
/// own source record; its attribute strings, length-prefixed, in collected
/// order; then its deduplicated, source-ordered callee records,
/// length-prefixed.
pub open spec fn harness_ops(
    func: SourceCodeV,
    attrs: Seq<Seq<char>>,
    hashed_srcs: Seq<SourceCodeV>,
) -> Seq<(bool, Seq<char>, int)> {
    source_ops(func) + seq![op_len(attrs.len() as int)] + strs_ops(attrs) + seq![
        op_len(hashed_srcs.len() as int),
    ] + sources_ops(hashed_srcs)
}

/// The fingerprint of a harness, as a function of its own source, its
/// attributes, and its deduplicated callee sources.
pub open spec fn spec_harness_hash(
    func: SourceCodeV,
    attrs: Seq<Seq<char>>,
    hashed_srcs: Seq<SourceCodeV>,
) -> Seq<char> {
    stable_digest(harness_ops(func, attrs, hashed_srcs))
}

pub proof fn lemma_strs_ops_push(ss: Seq<Seq<char>>, s: Seq<char>)
    ensures
        strs_ops(ss.push(s)) == strs_ops(ss) + seq![op_str(s)],
    decreases ss.len(),
{
    let ps = ss.push(s);
    if ss.len() == 0 {
        assert(ps[0] == s);
        assert(ps.drop_first() =~= Seq::<Seq<char>>::empty());
        assert(strs_ops(ps.drop_first()) =~= Seq::<(bool, Seq<char>, int)>::empty());
        assert(strs_ops(ps) =~= strs_ops(ss) + seq![op_str(s)]);
    } else {
        lemma_strs_ops_push(ss.drop_first(), s);
        assert(ps[0] == ss[0]);
        assert(ps.drop_first() =~= ss.drop_first().push(s));
        assert(strs_ops(ps) =~= strs_ops(ss) + seq![op_str(s)]);
    }
}

pub proof fn lemma_sources_ops_push(ss: Seq<SourceCodeV>, s: SourceCodeV)
    ensures
        sources_ops(ss.push(s)) == sources_ops(ss) + source_ops(s),
    decreases ss.len(),
{
    let ps = ss.push(s);
    if ss.len() == 0 {
        assert(ps[0] == s);
        assert(ps.drop_first() =~= Seq::<SourceCodeV>::empty());
        assert(sources_ops(ps.drop_first()) =~= Seq::<(bool, Seq<char>, int)>::empty());
        assert(sources_ops(ps) =~= sources_ops(ss) + source_ops(s));
    } else {
        lemma_sources_ops_push(ss.drop_first(), s);
        assert(ps[0] == ss[0]);
        assert(ps.drop_first() =~= ss.drop_first().push(s));
        assert(sources_ops(ps) =~= sources_ops(ss) + source_ops(s));
    }
}

/// The view of a list of source records.
pub open spec fn sources_view(v: Seq<SourceCode>) -> Seq<SourceCodeV> {
    v.map_values(|s: SourceCode| s@)
}

/// Collapse adjacent equal source records of a prepared, source-sorted list.
pub fn dedup_sources(srcs: &Vec<SourceCode>) -> (r: Vec<SourceCode>)
    ensures
        sources_view(r@) == dedup_adj(sources_view(srcs@)),
{
    let mut r: Vec<SourceCode> = Vec::new();
    let n = srcs.len();
    let mut i: usize = 0;
    proof {
        assert(sources_view(srcs@).skip(0) =~= sources_view(srcs@));
    }
    while i < n
        invariant
            i <= n,
            n == srcs.len(),
            sources_view(r@) + dedup_adj(sources_view(srcs@).skip(i as int)) =~= dedup_adj(
                sources_view(srcs@),
            ),
        decreases n - i,
    {
        let ghost sv = sources_view(srcs@);
        let ghost tail = sv.skip(i as int);
        let keep = if i + 1 == n {
            true
        } else {
            let c = srcs[i].cmp(&srcs[i + 1]);
            proof {
                if source_cmp(srcs@[i as int]@, srcs@[i as int + 1]@) == Ordering::Equal {
                    crate::source_code::lemma_source_cmp_eq(
                        srcs@[i as int]@,
                        srcs@[i as int + 1]@,
                    );
                    assert(sv[i as int] == sv[i as int + 1]);
                } else {
                    assert(sv[i as int] != sv[i as int + 1]) by {
                        if sv[i as int] == sv[i as int + 1] {
                            crate::source_code::lemma_source_cmp_self(sv[i as int]);
                        }
                    }
                }
            }
            !matches!(c, Ordering::Equal)
        };
        proof {
            assert(tail[0] == sv[i as int]);
            assert(tail.drop_first() =~= sv.skip(i as int + 1));
            if i + 1 < n {
                assert(tail[1] == sv[i as int + 1]);
            }
        }
        let ghost r_prev = r@;
        if keep {
            r.push(srcs[i].clone());
            proof {
                assert(sources_view(r@) =~= sources_view(r_prev).push(sv[i as int]));
                if i + 1 == n {
                    assert(dedup_adj(tail) =~= seq![sv[i as int]]);
                    assert(sources_view(r@) + dedup_adj(sv.skip(i as int + 1)) =~= dedup_adj(sv));
                } else {
                    assert(dedup_adj(tail) =~= seq![tail[0]] + dedup_adj(tail.drop_first()));
                    assert(sources_view(r@) + dedup_adj(sv.skip(i as int + 1)) =~= dedup_adj(sv));
                }
            }
        } else {
            proof {
                assert(dedup_adj(tail) =~= dedup_adj(tail.drop_first()));
                assert(sources_view(r@) + dedup_adj(sv.skip(i as int + 1)) =~= dedup_adj(sv));
            }
        }
        i = i + 1;
    }
    proof {
        assert(sources_view(srcs@).skip(n as int) =~= Seq::<SourceCodeV>::empty());
        assert(dedup_adj(Seq::<SourceCodeV>::empty()) =~= Seq::<SourceCodeV>::empty());
        assert(sources_view(r@) =~= dedup_adj(sources_view(srcs@)));
    }
    r
}

/// Compute a harness's fingerprint from its prepared inputs: its own source
/// record, its recognized attributes, and its already deduplicated,
/// source-ordered callee records.
pub fn harness_hash(func: &SourceCode, attrs: &Vec<String>, hashed_srcs: &Vec<SourceCode>) -> (r:
    String)
    ensures
        r@ == spec_harness_hash(func@, strings_view(attrs@), sources_view(hashed_srcs@)),
{
    let mut hasher = Fingerprint::new();
    func.with_hasher(&mut hasher);
    hasher.write_length_prefix(attrs.len());
    let ghost base = hasher.ops();
    let n = attrs.len();
    let mut i: usize = 0;
    proof {
        assert(strings_view(attrs@).take(0) =~= Seq::<Seq<char>>::empty());
        assert(hasher.ops() =~= base + strs_ops(strings_view(attrs@).take(0)));
    }
    while i < n
        invariant
            i <= n,
            n == attrs.len(),
            hasher.ops() == base + strs_ops(strings_view(attrs@).take(i as int)),
        decreases n - i,
    {
        hasher.write_str(attrs[i].as_str());
        proof {
            let av = strings_view(attrs@);
            assert(av.take(i as int).push(av[i as int]) =~= av.take(i as int + 1));
            lemma_strs_ops_push(av.take(i as int), av[i as int]);
            assert(hasher.ops() =~= base + strs_ops(av.take(i as int + 1)));
        }
        i = i + 1;
    }
    proof {
        assert(strings_view(attrs@).take(n as int) =~= strings_view(attrs@));
    }
    hasher.write_length_prefix(hashed_srcs.len());
    let ghost base2 = hasher.ops();
    let m = hashed_srcs.len();
    let mut j: usize = 0;
    proof {
        assert(sources_view(hashed_srcs@).take(0) =~= Seq::<SourceCodeV>::empty());
        assert(hasher.ops() =~= base2 + sources_ops(sources_view(hashed_srcs@).take(0)));
    }
    while j < m
        invariant
            j <= m,
            m == hashed_srcs.len(),
            hasher.ops() == base2 + sources_ops(sources_view(hashed_srcs@).take(j as int)),
        decreases m - j,
    {
        hashed_srcs[j].with_hasher(&mut hasher);
        proof {
            let sv = sources_view(hashed_srcs@);
            assert(sv.take(j as int).push(sv[j as int]) =~= sv.take(j as int + 1));
            lemma_sources_ops_push(sv.take(j as int), sv[j as int]);
            assert(hasher.ops() =~= base2 + sources_ops(sv.take(j as int + 1)));
        }
        j = j + 1;
    }
    proof {
        assert(sources_view(hashed_srcs@).take(m as int) =~= sources_view(hashed_srcs@));
        assert(hasher.ops() =~= harness_ops(
            func@,
            strings_view(attrs@),
            sources_view(hashed_srcs@),
        ));
    }
    hasher.finish()
}


/// Dedup-by-source: a source record equal to the one before it contributes
/// nothing further to the deduplicated list, so two instantiations with
/// identical source text are one contribution.
pub proof fn lemma_dedup_absorbs_duplicate(s: Seq<SourceCodeV>, x: SourceCodeV)
    requires
        s.len() > 0,
        s.last() == x,
    ensures
        dedup_adj(s.push(x)) == dedup_adj(s),
    decreases s.len(),
{
    let ps = s.push(x);
    if s.len() == 1 {
        assert(ps[0] == s[0] && ps[1] == x && s[0] == x);
        assert(ps.drop_first() =~= seq![x]);
        assert(dedup_adj(ps) == dedup_adj(ps.drop_first()));
        assert(dedup_adj(seq![x]) =~= seq![x]);
        assert(dedup_adj(s) =~= seq![x]);
    } else {
        lemma_dedup_absorbs_duplicate(s.drop_first(), x);
        assert(ps[0] == s[0] && ps[1] == s[1]);
        assert(ps.drop_first() =~= s.drop_first().push(x));
        if s[0] == s[1] {
            assert(dedup_adj(ps) == dedup_adj(ps.drop_first()));
        } else {
            assert(dedup_adj(ps) =~= seq![s[0]] + dedup_adj(ps.drop_first()));
            assert(dedup_adj(s) =~= seq![s[0]] + dedup_adj(s.drop_first()));
        }
    }
}

/// Dedup-by-source, at the fingerprint: harnesses whose own records and
/// attributes agree and whose callee sources collapse to the same
/// deduplicated list receive the same fingerprint, even when the lists
/// themselves differ.
pub proof fn lemma_hash_dedup_by_source(
    func: SourceCodeV,
    attrs: Seq<Seq<char>>,
    srcs1: Seq<SourceCodeV>,
    srcs2: Seq<SourceCodeV>,
)
    requires
        dedup_adj(srcs1) == dedup_adj(srcs2),
    ensures
        spec_harness_hash(func, attrs, dedup_adj(srcs1)) == spec_harness_hash(
            func,
            attrs,
            dedup_adj(srcs2),
        ),
{
}

} // verus!
