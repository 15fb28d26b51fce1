//! Source records: the extracted, normalized source text of one function,
//! together with its macro-expansion backtrace.
//!
//! The total order over source records defined here is load-bearing: it fixes
//! the order of the serialized output and the order of the callee sources fed
//! to the fingerprint, making both independent of traversal order.

use vstd::prelude::*;
use core::cmp::Ordering;
use crate::fingerprint::{Fingerprint, op_len, op_str};
use crate::ordering::{
    chars_cmp, cmp_str, cmp_usize, int_cmp, lemma_chars_cmp_eq, lemma_chars_cmp_flip,
    lemma_chars_cmp_self, lemma_chars_cmp_trans, ord_flip, ord_then,
};

verus! {

/// One step of a macro backtrace: the source at the call site and at the
/// definition site of the expansion.
#[derive(Debug)]
pub struct MacroBacktrace {
    pub callsite: String,
    pub defsite: String,
}

/// Source record of one function: name, mangled name, instance kind, file
/// path (prefix-stripped), literal source text, and the macro backtrace of
/// its span.
#[derive(Debug)]
pub struct SourceCode {
    /// Function name.
    pub name: String,
    /// Mangled function name.
    pub mangled_name: String,
    /// Instance kind tag of the definition.
    pub kind: String,
    /// File path where the source lies, stripped of known prefixes.
    pub file: String,
    /// Literal source text of the function's span.
    pub src: String,
    /// The count of macro backtrace steps.
    pub macro_backtrace_len: usize,
    /// The macro backtrace: present only when the span comes from a macro
    /// expansion, oldest ancestor information per step.
    pub macro_backtrace: Vec<MacroBacktrace>,
}

/// Mathematical view of a [`MacroBacktrace`].
#[verifier::ext_equal]
pub struct MacroBacktraceV {
    pub callsite: Seq<char>,
    pub defsite: Seq<char>,
}

/// Mathematical view of a [`SourceCode`].
#[verifier::ext_equal]
pub struct SourceCodeV {
    pub name: Seq<char>,
    pub mangled_name: Seq<char>,
    pub kind: Seq<char>,
    pub file: Seq<char>,
    pub src: Seq<char>,
    pub macro_backtrace_len: nat,
    pub macro_backtrace: Seq<MacroBacktraceV>,
}

impl View for MacroBacktrace {
    type V = MacroBacktraceV;

    open spec fn view(&self) -> MacroBacktraceV {
        MacroBacktraceV { callsite: self.callsite@, defsite: self.defsite@ }
    }
}

impl View for SourceCode {
    type V = SourceCodeV;

    open spec fn view(&self) -> SourceCodeV {
        SourceCodeV {
            name: self.name@,
            mangled_name: self.mangled_name@,
            kind: self.kind@,
            file: self.file@,
            src: self.src@,
            macro_backtrace_len: self.macro_backtrace_len as nat,
            macro_backtrace: self.macro_backtrace@.map_values(|m: MacroBacktrace| m@),
        }
    }
}

/// A consistent source record: the recorded backtrace count is the length
/// of the backtrace itself.
pub open spec fn source_wf(s: SourceCodeV) -> bool {
    s.macro_backtrace_len == s.macro_backtrace.len()
}

/// The empty source record, used when a function has no resolvable source.
pub open spec fn empty_source() -> SourceCodeV {
    SourceCodeV {
        name: Seq::<char>::empty(),
        mangled_name: Seq::<char>::empty(),
        kind: Seq::<char>::empty(),
        file: Seq::<char>::empty(),
        src: Seq::<char>::empty(),
        macro_backtrace_len: 0,
        macro_backtrace: Seq::<MacroBacktraceV>::empty(),
    }
}

impl Clone for MacroBacktrace {
    /// A clone has the same view.
    fn clone(&self) -> (r: Self)
        ensures
            r@ == self@,
    {
        MacroBacktrace { callsite: self.callsite.clone(), defsite: self.defsite.clone() }
    }
}

impl Clone for SourceCode {
    /// A clone has the same view.
    fn clone(&self) -> (r: Self)
        ensures
            r@ == self@,
    {
        let mut macro_backtrace: Vec<MacroBacktrace> = Vec::new();
        let n = self.macro_backtrace.len();
        let mut i: usize = 0;
        while i < n
            invariant
                i <= n,
                n == self.macro_backtrace.len(),
                macro_backtrace@.map_values(|m: MacroBacktrace| m@) =~= self@
                    .macro_backtrace.take(i as int),
            decreases n - i,
        {
            let ghost prev = macro_backtrace@;
            let m = self.macro_backtrace[i].clone();
            proof {
                assert(m@ == self@.macro_backtrace[i as int]);
            }
            macro_backtrace.push(m);
            proof {
                assert(macro_backtrace@ =~= prev.push(m));
                assert(macro_backtrace@.map_values(|m: MacroBacktrace| m@) =~= prev.map_values(
                    |m: MacroBacktrace| m@,
                ).push(m@));
                assert(macro_backtrace@.map_values(|m: MacroBacktrace| m@) =~= self@
                    .macro_backtrace.take(i as int + 1));
            }
            i = i + 1;
        }
        let r = SourceCode {
            name: self.name.clone(),
            mangled_name: self.mangled_name.clone(),
            kind: self.kind.clone(),
            file: self.file.clone(),
            src: self.src.clone(),
            macro_backtrace_len: self.macro_backtrace_len,
            macro_backtrace,
        };
        proof {
            assert(self@.macro_backtrace.take(n as int) =~= self@.macro_backtrace);
            assert(r@ =~= self@);
        }
        r
    }
}

impl Default for MacroBacktrace {
    fn default() -> (r: MacroBacktrace)
        ensures
            r@.callsite.len() == 0,
            r@.defsite.len() == 0,
    {
        MacroBacktrace { callsite: String::new(), defsite: String::new() }
    }
}

impl Default for SourceCode {
    fn default() -> (r: SourceCode)
        ensures
            r@ == empty_source(),
    {
        let r = SourceCode {
            name: String::new(),
            mangled_name: String::new(),
            kind: String::new(),
            file: String::new(),
            src: String::new(),
            macro_backtrace_len: 0,
            macro_backtrace: Vec::new(),
        };
        proof {
            assert(r@ =~= empty_source());
        }
        r
    }
}

// ************* the total order *************
/// Order of one backtrace step: by call site, then definition site.
pub open spec fn mb_cmp(a: MacroBacktraceV, b: MacroBacktraceV) -> Ordering {
    ord_then(chars_cmp(a.callsite, b.callsite), chars_cmp(a.defsite, b.defsite))
}

/// Lexicographic order of two backtraces, element-wise, then by length.
pub open spec fn mb_seq_cmp(a: Seq<MacroBacktraceV>, b: Seq<MacroBacktraceV>) -> Ordering
    decreases a.len(),
{
    if a.len() == 0 && b.len() == 0 {
        Ordering::Equal
    } else if a.len() == 0 {
        Ordering::Less
    } else if b.len() == 0 {
        Ordering::Greater
    } else {
        ord_then(mb_cmp(a[0], b[0]), mb_seq_cmp(a.drop_first(), b.drop_first()))
    }
}

/// The total order over source records: lexicographic over the fields in
/// declaration order (name, mangled name, kind, file, source text, backtrace
/// length, backtrace).
pub open spec fn source_cmp(a: SourceCodeV, b: SourceCodeV) -> Ordering {
    ord_then(
        chars_cmp(a.name, b.name),
        ord_then(
            chars_cmp(a.mangled_name, b.mangled_name),
            ord_then(
                chars_cmp(a.kind, b.kind),
                ord_then(
                    chars_cmp(a.file, b.file),
                    ord_then(
                        chars_cmp(a.src, b.src),
                        ord_then(
                            int_cmp(a.macro_backtrace_len as int, b.macro_backtrace_len as int),
                            mb_seq_cmp(a.macro_backtrace, b.macro_backtrace),
                        ),
                    ),
                ),
            ),
        ),
    )
}

/// Order over optional source records, with the absent record first.
pub open spec fn opt_source_cmp(a: Option<SourceCodeV>, b: Option<SourceCodeV>) -> Ordering {
    match (a, b) {
        (Option::None, Option::None) => Ordering::Equal,
        (Option::None, Option::Some(_)) => Ordering::Less,
        (Option::Some(_), Option::None) => Ordering::Greater,
        (Option::Some(x), Option::Some(y)) => source_cmp(x, y),
    }
}

// ************* order properties *************
pub proof fn lemma_mb_cmp_eq(a: MacroBacktraceV, b: MacroBacktraceV)
    requires
        mb_cmp(a, b) == Ordering::Equal,
    ensures
        a =~= b,
{
    lemma_chars_cmp_eq(a.callsite, b.callsite);
    lemma_chars_cmp_eq(a.defsite, b.defsite);
}

pub proof fn lemma_mb_cmp_self(a: MacroBacktraceV)
    ensures
        mb_cmp(a, a) == Ordering::Equal,
{
    lemma_chars_cmp_self(a.callsite);
    lemma_chars_cmp_self(a.defsite);
}

pub proof fn lemma_mb_cmp_flip(a: MacroBacktraceV, b: MacroBacktraceV)
    ensures
        mb_cmp(b, a) == ord_flip(mb_cmp(a, b)),
{
    lemma_chars_cmp_flip(a.callsite, b.callsite);
    lemma_chars_cmp_flip(a.defsite, b.defsite);
}

pub proof fn lemma_mb_cmp_trans(a: MacroBacktraceV, b: MacroBacktraceV, c: MacroBacktraceV)
    requires
        mb_cmp(a, b) != Ordering::Greater,
        mb_cmp(b, c) != Ordering::Greater,
    ensures
        mb_cmp(a, c) != Ordering::Greater,
        mb_cmp(a, b) == Ordering::Less || mb_cmp(b, c) == Ordering::Less ==> mb_cmp(a, c)
            == Ordering::Less,
{
    let ab = chars_cmp(a.callsite, b.callsite);
    let bc = chars_cmp(b.callsite, c.callsite);
    if ab == Ordering::Less || bc == Ordering::Less {
        lemma_chars_cmp_trans(a.callsite, b.callsite, c.callsite);
    } else {
        lemma_chars_cmp_eq(a.callsite, b.callsite);
        lemma_chars_cmp_eq(b.callsite, c.callsite);
        lemma_chars_cmp_self(a.callsite);
        assert(chars_cmp(a.callsite, c.callsite) == Ordering::Equal);
        lemma_chars_cmp_trans(a.defsite, b.defsite, c.defsite);
    }
}

pub proof fn lemma_mb_seq_cmp_eq(a: Seq<MacroBacktraceV>, b: Seq<MacroBacktraceV>)
    requires
        mb_seq_cmp(a, b) == Ordering::Equal,
    ensures
        a =~= b,
    decreases a.len(),
{
    if a.len() == 0 && b.len() == 0 {
    } else if a.len() == 0 {
    } else if b.len() == 0 {
    } else {
        let o = mb_cmp(a[0], b[0]);
        if o == Ordering::Equal {
            lemma_mb_cmp_eq(a[0], b[0]);
            lemma_mb_seq_cmp_eq(a.drop_first(), b.drop_first());
            assert(a =~= seq![a[0]] + a.drop_first());
            assert(b =~= seq![b[0]] + b.drop_first());
        }
    }
}

pub proof fn lemma_mb_seq_cmp_self(a: Seq<MacroBacktraceV>)
    ensures
        mb_seq_cmp(a, a) == Ordering::Equal,
    decreases a.len(),
{
    if a.len() != 0 {
        lemma_mb_cmp_self(a[0]);
        lemma_mb_seq_cmp_self(a.drop_first());
    }
}

pub proof fn lemma_mb_seq_cmp_flip(a: Seq<MacroBacktraceV>, b: Seq<MacroBacktraceV>)
    ensures
        mb_seq_cmp(b, a) == ord_flip(mb_seq_cmp(a, b)),
    decreases a.len(),
{
    if a.len() == 0 && b.len() == 0 {
    } else if a.len() == 0 {
    } else if b.len() == 0 {
    } else {
        lemma_mb_cmp_flip(a[0], b[0]);
        lemma_mb_seq_cmp_flip(a.drop_first(), b.drop_first());
    }
}

pub proof fn lemma_mb_seq_cmp_trans(
    a: Seq<MacroBacktraceV>,
    b: Seq<MacroBacktraceV>,
    c: Seq<MacroBacktraceV>,
)
    requires
        mb_seq_cmp(a, b) != Ordering::Greater,
        mb_seq_cmp(b, c) != Ordering::Greater,
    ensures
        mb_seq_cmp(a, c) != Ordering::Greater,
        mb_seq_cmp(a, b) == Ordering::Less || mb_seq_cmp(b, c) == Ordering::Less ==> mb_seq_cmp(
            a,
            c,
        ) == Ordering::Less,
    decreases a.len() + b.len() + c.len(),
{
    if a.len() == 0 {
        if c.len() == 0 && b.len() != 0 {
        }
    } else if b.len() == 0 {
    } else if c.len() == 0 {
    } else {
        let ab = mb_cmp(a[0], b[0]);
        let bc = mb_cmp(b[0], c[0]);
        if ab == Ordering::Less || bc == Ordering::Less {
            lemma_mb_cmp_trans(a[0], b[0], c[0]);
        } else if ab == Ordering::Equal && bc == Ordering::Equal {
            lemma_mb_cmp_eq(a[0], b[0]);
            lemma_mb_cmp_eq(b[0], c[0]);
            lemma_mb_cmp_self(a[0]);
            assert(mb_cmp(a[0], c[0]) == Ordering::Equal);
            lemma_mb_seq_cmp_trans(a.drop_first(), b.drop_first(), c.drop_first());
        }
    }
}

pub proof fn lemma_source_cmp_eq(a: SourceCodeV, b: SourceCodeV)
    requires
        source_cmp(a, b) == Ordering::Equal,
    ensures
        a =~= b,
{
    lemma_chars_cmp_eq(a.name, b.name);
    lemma_chars_cmp_eq(a.mangled_name, b.mangled_name);
    lemma_chars_cmp_eq(a.kind, b.kind);
    lemma_chars_cmp_eq(a.file, b.file);
    lemma_chars_cmp_eq(a.src, b.src);
    lemma_mb_seq_cmp_eq(a.macro_backtrace, b.macro_backtrace);
}

pub proof fn lemma_source_cmp_self(a: SourceCodeV)
    ensures
        source_cmp(a, a) == Ordering::Equal,
{
    lemma_chars_cmp_self(a.name);
    lemma_chars_cmp_self(a.mangled_name);
    lemma_chars_cmp_self(a.kind);
    lemma_chars_cmp_self(a.file);
    lemma_chars_cmp_self(a.src);
    lemma_mb_seq_cmp_self(a.macro_backtrace);
}

pub proof fn lemma_source_cmp_flip(a: SourceCodeV, b: SourceCodeV)
    ensures
        source_cmp(b, a) == ord_flip(source_cmp(a, b)),
{
    lemma_chars_cmp_flip(a.name, b.name);
    lemma_chars_cmp_flip(a.mangled_name, b.mangled_name);
    lemma_chars_cmp_flip(a.kind, b.kind);
    lemma_chars_cmp_flip(a.file, b.file);
    lemma_chars_cmp_flip(a.src, b.src);
    lemma_mb_seq_cmp_flip(a.macro_backtrace, b.macro_backtrace);
}

pub proof fn lemma_source_cmp_trans(a: SourceCodeV, b: SourceCodeV, c: SourceCodeV)
    requires
        source_cmp(a, b) != Ordering::Greater,
        source_cmp(b, c) != Ordering::Greater,
    ensures
        source_cmp(a, c) != Ordering::Greater,
        source_cmp(a, b) == Ordering::Less || source_cmp(b, c) == Ordering::Less ==> source_cmp(
            a,
            c,
        ) == Ordering::Less,
{
    let ab1 = chars_cmp(a.name, b.name);
    let bc1 = chars_cmp(b.name, c.name);
    if ab1 == Ordering::Less || bc1 == Ordering::Less {
        lemma_chars_cmp_trans(a.name, b.name, c.name);
    } else {
        lemma_chars_cmp_eq(a.name, b.name);
        lemma_chars_cmp_eq(b.name, c.name);
        lemma_chars_cmp_self(a.name);
        let ab2 = chars_cmp(a.mangled_name, b.mangled_name);
        let bc2 = chars_cmp(b.mangled_name, c.mangled_name);
        if ab2 == Ordering::Less || bc2 == Ordering::Less {
            lemma_chars_cmp_trans(a.mangled_name, b.mangled_name, c.mangled_name);
        } else {
            lemma_chars_cmp_eq(a.mangled_name, b.mangled_name);
            lemma_chars_cmp_eq(b.mangled_name, c.mangled_name);
            lemma_chars_cmp_self(a.mangled_name);
            let ab3 = chars_cmp(a.kind, b.kind);
            let bc3 = chars_cmp(b.kind, c.kind);
            if ab3 == Ordering::Less || bc3 == Ordering::Less {
                lemma_chars_cmp_trans(a.kind, b.kind, c.kind);
            } else {
                lemma_chars_cmp_eq(a.kind, b.kind);
                lemma_chars_cmp_eq(b.kind, c.kind);
                lemma_chars_cmp_self(a.kind);
                let ab4 = chars_cmp(a.file, b.file);
                let bc4 = chars_cmp(b.file, c.file);
                if ab4 == Ordering::Less || bc4 == Ordering::Less {
                    lemma_chars_cmp_trans(a.file, b.file, c.file);
                } else {
                    lemma_chars_cmp_eq(a.file, b.file);
                    lemma_chars_cmp_eq(b.file, c.file);
                    lemma_chars_cmp_self(a.file);
                    let ab5 = chars_cmp(a.src, b.src);
                    let bc5 = chars_cmp(b.src, c.src);
                    if ab5 == Ordering::Less || bc5 == Ordering::Less {
                        lemma_chars_cmp_trans(a.src, b.src, c.src);
                    } else {
                        lemma_chars_cmp_eq(a.src, b.src);
                        lemma_chars_cmp_eq(b.src, c.src);
                        lemma_chars_cmp_self(a.src);
                        let la = a.macro_backtrace_len as int;
                        let lb = b.macro_backtrace_len as int;
                        let lc = c.macro_backtrace_len as int;
                        if int_cmp(la, lb) == Ordering::Less || int_cmp(lb, lc)
                            == Ordering::Less {
                        } else {
                            lemma_mb_seq_cmp_trans(
                                a.macro_backtrace,
                                b.macro_backtrace,
                                c.macro_backtrace,
                            );
                        }
                    }
                }
            }
        }
    }
}

pub proof fn lemma_opt_source_cmp_eq(a: Option<SourceCodeV>, b: Option<SourceCodeV>)
    requires
        opt_source_cmp(a, b) == Ordering::Equal,
    ensures
        a matches Option::Some(x) ==> (b matches Option::Some(y) && x =~= y),
        a is None <==> b is None,
{
    match (a, b) {
        (Option::Some(x), Option::Some(y)) => lemma_source_cmp_eq(x, y),
        _ => (),
    }
}

pub proof fn lemma_opt_source_cmp_self(a: Option<SourceCodeV>)
    ensures
        opt_source_cmp(a, a) == Ordering::Equal,
{
    match a {
        Option::Some(x) => lemma_source_cmp_self(x),
        _ => (),
    }
}

pub proof fn lemma_opt_source_cmp_flip(a: Option<SourceCodeV>, b: Option<SourceCodeV>)
    ensures
        opt_source_cmp(b, a) == ord_flip(opt_source_cmp(a, b)),
{
    match (a, b) {
        (Option::Some(x), Option::Some(y)) => lemma_source_cmp_flip(x, y),
        _ => (),
    }
}

pub proof fn lemma_opt_source_cmp_trans(
    a: Option<SourceCodeV>,
    b: Option<SourceCodeV>,
    c: Option<SourceCodeV>,
)
    requires
        opt_source_cmp(a, b) != Ordering::Greater,
        opt_source_cmp(b, c) != Ordering::Greater,
    ensures
        opt_source_cmp(a, c) != Ordering::Greater,
        opt_source_cmp(a, b) == Ordering::Less || opt_source_cmp(b, c) == Ordering::Less
            ==> opt_source_cmp(a, c) == Ordering::Less,
{
    match (a, b, c) {
        (Option::Some(x), Option::Some(y), Option::Some(z)) => lemma_source_cmp_trans(x, y, z),
        _ => (),
    }
}

// ************* executable comparisons *************
/// Compare one backtrace step, agreeing with [`mb_cmp`].
pub fn cmp_macro_backtrace(a: &MacroBacktrace, b: &MacroBacktrace) -> (r: Ordering)
    ensures
        r == mb_cmp(a@, b@),
{
    let c = cmp_str(a.callsite.as_str(), b.callsite.as_str());
    if matches!(c, Ordering::Equal) {
        cmp_str(a.defsite.as_str(), b.defsite.as_str())
    } else {
        c
    }
}

/// Compare two backtraces lexicographically, agreeing with [`mb_seq_cmp`].
pub fn cmp_macro_backtraces(a: &Vec<MacroBacktrace>, b: &Vec<MacroBacktrace>) -> (r: Ordering)
    ensures
        r == mb_seq_cmp(
            a@.map_values(|m: MacroBacktrace| m@),
            b@.map_values(|m: MacroBacktrace| m@),
        ),
{
    let ghost av = a@.map_values(|m: MacroBacktrace| m@);
    let ghost bv = b@.map_values(|m: MacroBacktrace| m@);
    let alen = a.len();
    let blen = b.len();
    let mut i: usize = 0;
    proof {
        assert(av.skip(0) =~= av);
        assert(bv.skip(0) =~= bv);
    }
    loop
        invariant
            i <= alen,
            i <= blen,
            alen == av.len(),
            blen == bv.len(),
            av == a@.map_values(|m: MacroBacktrace| m@),
            bv == b@.map_values(|m: MacroBacktrace| m@),
            mb_seq_cmp(av, bv) == mb_seq_cmp(av.skip(i as int), bv.skip(i as int)),
        decreases alen - i,
    {
        if i == alen && i == blen {
            return Ordering::Equal;
        }
        if i == alen {
            return Ordering::Less;
        }
        if i == blen {
            return Ordering::Greater;
        }
        let c = cmp_macro_backtrace(&a[i], &b[i]);
        if !matches!(c, Ordering::Equal) {
            proof {
                assert(av.skip(i as int)[0] == av[i as int]);
                assert(bv.skip(i as int)[0] == bv[i as int]);
            }
            return c;
        }
        proof {
            lemma_mb_cmp_eq(av[i as int], bv[i as int]);
            assert(av.skip(i as int)[0] == av[i as int]);
            assert(bv.skip(i as int)[0] == bv[i as int]);
            assert(av.skip(i as int).drop_first() =~= av.skip(i as int + 1));
            assert(bv.skip(i as int).drop_first() =~= bv.skip(i as int + 1));
        }
        i = i + 1;
    }
}

impl SourceCode {
    /// Three-way comparison of two source records in the total order
    /// [`source_cmp`].
    pub fn cmp(&self, other: &SourceCode) -> (r: Ordering)
        ensures
            r == source_cmp(self@, other@),
    {
        let c = cmp_str(self.name.as_str(), other.name.as_str());
        if !matches!(c, Ordering::Equal) {
            return c;
        }
        let c = cmp_str(self.mangled_name.as_str(), other.mangled_name.as_str());
        if !matches!(c, Ordering::Equal) {
            return c;
        }
        let c = cmp_str(self.kind.as_str(), other.kind.as_str());
        if !matches!(c, Ordering::Equal) {
            return c;
        }
        let c = cmp_str(self.file.as_str(), other.file.as_str());
        if !matches!(c, Ordering::Equal) {
            return c;
        }
        let c = cmp_str(self.src.as_str(), other.src.as_str());
        if !matches!(c, Ordering::Equal) {
            return c;
        }
        let c = cmp_usize(self.macro_backtrace_len, other.macro_backtrace_len);
        if !matches!(c, Ordering::Equal) {
            return c;
        }
        cmp_macro_backtraces(&self.macro_backtrace, &other.macro_backtrace)
    }
}

/// Compare two optional source records, agreeing with [`opt_source_cmp`].
pub fn cmp_opt_source_code(a: &Option<SourceCode>, b: &Option<SourceCode>) -> (r: Ordering)
    ensures
        r == opt_source_cmp(view_opt_source(a), view_opt_source(b)),
{
    match (a, b) {
        (Option::None, Option::None) => Ordering::Equal,
        (Option::None, Option::Some(_)) => Ordering::Less,
        (Option::Some(_), Option::None) => Ordering::Greater,
        (Option::Some(x), Option::Some(y)) => x.cmp(y),
    }
}

/// The view of an optional source record.
pub open spec fn view_opt_source(a: &Option<SourceCode>) -> Option<SourceCodeV> {
    match a {
        Option::None => Option::None,
        Option::Some(s) => Option::Some(s@),
    }
}

// ************* hashing *************
/// The hash contribution of one backtrace step: its two strings in order.
pub open spec fn mb_ops(m: MacroBacktraceV) -> Seq<(bool, Seq<char>, int)> {
    seq![op_str(m.callsite), op_str(m.defsite)]
}

/// The hash contribution of a whole backtrace, step by step.
pub open spec fn mb_seq_ops(ms: Seq<MacroBacktraceV>) -> Seq<(bool, Seq<char>, int)>
    decreases ms.len(),
{
    if ms.len() == 0 {
        Seq::<(bool, Seq<char>, int)>::empty()
    } else {
        mb_ops(ms[0]) + mb_seq_ops(ms.drop_first())
    }
}

/// The hash contribution of one source record: its five strings, the
/// backtrace length prefix, and the backtrace steps, in field order.
pub open spec fn source_ops(s: SourceCodeV) -> Seq<(bool, Seq<char>, int)> {
    seq![
        op_str(s.name),
        op_str(s.mangled_name),
        op_str(s.kind),
        op_str(s.file),
        op_str(s.src),
        op_len(s.macro_backtrace_len as int),
    ] + mb_seq_ops(s.macro_backtrace)
}

/// Appending one step appends its contribution.
pub proof fn lemma_mb_seq_ops_push(ms: Seq<MacroBacktraceV>, m: MacroBacktraceV)
    ensures
        mb_seq_ops(ms.push(m)) == mb_seq_ops(ms) + mb_ops(m),
    decreases ms.len(),
{
    let ps = ms.push(m);
    if ms.len() == 0 {
        assert(ps[0] == m);
        assert(ps.drop_first() =~= Seq::<MacroBacktraceV>::empty());
        assert(mb_seq_ops(ps.drop_first()) =~= Seq::<(bool, Seq<char>, int)>::empty());
        assert(mb_seq_ops(ps) =~= mb_ops(m) + mb_seq_ops(ps.drop_first()));
        assert(mb_seq_ops(ps) =~= mb_seq_ops(ms) + mb_ops(m));
    } else {
        lemma_mb_seq_ops_push(ms.drop_first(), m);
        assert(ps[0] == ms[0]);
        assert(ps.drop_first() =~= ms.drop_first().push(m));
        assert(mb_seq_ops(ps) =~= mb_ops(ms[0]) + (mb_seq_ops(ms.drop_first()) + mb_ops(m)));
        assert(mb_seq_ops(ps) =~= mb_seq_ops(ms) + mb_ops(m));
    }
}

impl SourceCode {
    /// Absorb this record into the fingerprint, in field order.
    pub fn with_hasher(&self, hasher: &mut Fingerprint)
        ensures
            final(hasher).ops() == old(hasher).ops() + source_ops(self@),
    {
        let ghost ops0 = hasher.ops();
        hasher.write_str(self.name.as_str());
        hasher.write_str(self.mangled_name.as_str());
        hasher.write_str(self.kind.as_str());
        hasher.write_str(self.file.as_str());
        hasher.write_str(self.src.as_str());
        hasher.write_length_prefix(self.macro_backtrace_len);
        let ghost ops1 = hasher.ops();
        let ghost mbs = self@.macro_backtrace;
        let n = self.macro_backtrace.len();
        let mut i: usize = 0;
        proof {
            assert(mbs.take(0) =~= Seq::<MacroBacktraceV>::empty());
            assert(ops1 == ops0 + source_ops(self@).take(6));
        }
        while i < n
            invariant
                i <= n,
                n == self.macro_backtrace.len(),
                mbs == self@.macro_backtrace,
                ops1 == hasher.ops() || i > 0,
                hasher.ops() == ops1 + mb_seq_ops(mbs.take(i as int)),
            decreases n - i,
        {
            let m = &self.macro_backtrace[i];
            hasher.write_str(m.callsite.as_str());
            hasher.write_str(m.defsite.as_str());
            proof {
                assert(mbs.take(i as int).push(mbs[i as int]) =~= mbs.take(i as int + 1));
                lemma_mb_seq_ops_push(mbs.take(i as int), mbs[i as int]);
                assert(mbs[i as int] == m@);
            }
            i = i + 1;
        }
        proof {
            assert(mbs.take(n as int) =~= mbs);
            assert(ops1 + mb_seq_ops(mbs) =~= ops0 + source_ops(self@));
        }
    }
}

} // verus!
