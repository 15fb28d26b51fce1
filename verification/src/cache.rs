//! The per-run function cache: the single source of truth for resolved
//! bodies and extracted, normalized source records.
//!
//! An entry is populated lazily on first lookup and never changes afterwards;
//! every lookup — first or repeated — returns exactly the record that the
//! program model determines, so memoization can never corrupt a result.

use vstd::prelude::*;
use core::cmp::Ordering;
use crate::program::{Body, Program};
use crate::source_code::{SourceCode, SourceCodeV, opt_source_cmp, source_wf};

verus! {

/// The ordered list of path prefixes stripped from file paths: the working
/// directory first, then the toolchain source root.
#[derive(Debug)]
pub struct PathPrefixes {
    pub pwd: String,
    pub sysroot: String,
}

/// A resolved function: its body and its extracted source record.
#[derive(Debug)]
pub struct FunctionRecord {
    pub body: Body,
    pub src: SourceCode,
}

/// Strip the first matching prefix from a file path; keep the path verbatim
/// when no prefix matches.
pub open spec fn spec_strip(file: Seq<char>, pwd: Seq<char>, sysroot: Seq<char>) -> Seq<char> {
    if pwd.is_prefix_of(file) {
        file.skip(pwd.len() as int)
    } else if sysroot.is_prefix_of(file) {
        file.skip(sysroot.len() as int)
    } else {
        file
    }
}

/// A source record with its file path prefix-stripped.
pub open spec fn normalize_source(s: SourceCodeV, pwd: Seq<char>, sysroot: Seq<char>) -> SourceCodeV {
    SourceCodeV { file: spec_strip(s.file, pwd, sysroot), ..s }
}

/// The normalized source record of definition `id`, absent when it has no
/// resolvable body.
pub open spec fn spec_source_of(p: &Program, id: int, pwd: Seq<char>, sysroot: Seq<char>) -> Option<
    SourceCodeV,
> {
    match p.defs@[id].body {
        Option::Some(_) => Option::Some(normalize_source(p.defs@[id].source@, pwd, sysroot)),
        Option::None => Option::None,
    }
}

/// Whether `s` begins with `p`, character for character.
pub fn str_has_prefix(s: &str, p: &str) -> (r: bool)
    ensures
        r == p@.is_prefix_of(s@),
{
    let slen = s.unicode_len();
    let plen = p.unicode_len();
    if plen > slen {
        return false;
    }
    let mut i: usize = 0;
    while i < plen
        invariant
            i <= plen,
            plen <= slen,
            plen == p@.len(),
            slen == s@.len(),
            forall|k: int| 0 <= k < i ==> p@[k] == s@[k],
        decreases plen - i,
    {
        let pc = p.get_char(i);
        let sc = s.get_char(i);
        if pc as u32 != sc as u32 {
            proof {
                assert(p@[i as int] != s@[i as int]);
                assert(!p@.is_prefix_of(s@)) by {
                    if p@.is_prefix_of(s@) {
                        assert(p@[i as int] == s@.subrange(0, p@.len() as int)[i as int]);
                    }
                }
            }
            return false;
        }
        proof {
            crate::ordering::lemma_char_eq(p@[i as int], s@[i as int]);
        }
        i = i + 1;
    }
    proof {
        assert(p@ =~= s@.subrange(0, p@.len() as int));
    }
    true
}

/// Strip the first matching known prefix from a file path.
pub fn strip_path_prefix(file: &String, prefixes: &PathPrefixes) -> (r: String)
    ensures
        r@ == spec_strip(file@, prefixes.pwd@, prefixes.sysroot@),
{
    let flen = file.as_str().unicode_len();
    if str_has_prefix(file.as_str(), prefixes.pwd.as_str()) {
        let plen = prefixes.pwd.as_str().unicode_len();
        let sub = file.as_str().substring_char(plen, flen);
        proof {
            assert(sub@ =~= file@.skip(prefixes.pwd@.len() as int));
        }
        sub.to_owned()
    } else if str_has_prefix(file.as_str(), prefixes.sysroot.as_str()) {
        let plen = prefixes.sysroot.as_str().unicode_len();
        let sub = file.as_str().substring_char(plen, flen);
        proof {
            assert(sub@ =~= file@.skip(prefixes.sysroot@.len() as int));
        }
        sub.to_owned()
    } else {
        file.clone()
    }
}

/// Extract the source record for one definition: the record as the program
/// model supplies it, with the file path normalized against the known
/// prefixes.
pub fn source_code_with(raw: &SourceCode, prefixes: &PathPrefixes) -> (r: SourceCode)
    requires
        source_wf(raw@),
    ensures
        r@ == normalize_source(raw@, prefixes.pwd@, prefixes.sysroot@),
        source_wf(r@),
{
    let mut r = raw.clone();
    r.file = strip_path_prefix(&raw.file, prefixes);
    proof {
        assert(r@ =~= normalize_source(raw@, prefixes.pwd@, prefixes.sysroot@));
    }
    r
}

/// The function cache. Entries are `None` until first lookup; a populated
/// entry holds `None` for a definition without a body, or the resolved
/// record.
#[derive(Debug)]
pub struct FunctionCache {
    entries: Vec<Option<Option<FunctionRecord>>>,
    /// The prefixes that file paths are normalized against.
    pub prefixes: PathPrefixes,
}

impl FunctionCache {
    /// The working-directory prefix this cache normalizes against.
    pub closed spec fn pwd(&self) -> Seq<char> {
        self.prefixes.pwd@
    }

    /// The toolchain-root prefix this cache normalizes against.
    pub closed spec fn sysroot(&self) -> Seq<char> {
        self.prefixes.sysroot@
    }

    /// What a populated entry must hold for definition `id`.
    spec fn entry_matches(&self, p: &Program, id: int, e: Option<FunctionRecord>) -> bool {
        match (e, p.defs@[id].body) {
            (Option::Some(rec), Option::Some(b)) => rec.body.calls@ == b.calls@ && rec.src@
                == normalize_source(p.defs@[id].source@, self.prefixes.pwd@, self.prefixes.sysroot@),
            (Option::None, Option::None) => true,
            _ => false,
        }
    }

    /// Cache consistency: one entry per definition, and every populated entry
    /// holds exactly what the program model determines.
    pub closed spec fn wf(&self, p: &Program) -> bool {
        &&& self.entries@.len() == p.n()
        &&& forall|i: int|
            0 <= i < p.n() ==> match #[trigger] self.entries@[i] {
                Option::Some(e) => self.entry_matches(p, i, e),
                Option::None => true,
            }
    }

    /// A fresh cache for `p`, with no entry populated yet.
    pub fn new(p: &Program, prefixes: PathPrefixes) -> (r: FunctionCache)
        ensures
            r.wf(p),
            r.pwd() == prefixes.pwd@,
            r.sysroot() == prefixes.sysroot@,
    {
        let n = p.defs.len();
        let mut entries: Vec<Option<Option<FunctionRecord>>> = Vec::new();
        let mut i: usize = 0;
        while i < n
            invariant
                i <= n,
                entries@.len() == i,
                forall|k: int| 0 <= k < i ==> entries@[k] is None,
            decreases n - i,
        {
            entries.push(Option::None);
            i = i + 1;
        }
        FunctionCache { entries, prefixes }
    }

    /// Populate the entry for `id` if this is its first lookup.
    fn resolve(&mut self, p: &Program, id: usize)
        requires
            p.wf(),
            old(self).wf(p),
            (id as int) < p.n(),
        ensures
            final(self).wf(p),
            final(self).prefixes == old(self).prefixes,
            final(self).entries@[id as int] is Some,
            final(self).pwd() == old(self).pwd(),
            final(self).sysroot() == old(self).sysroot(),
    {
        if self.entries[id].is_some() {
            return;
        }
        match &p.defs[id].body {
            Option::Some(b) => {
                let body = b.clone();
                let src = source_code_with(&p.defs[id].source, &self.prefixes);
                self.entries.set(id, Option::Some(Option::Some(FunctionRecord { body, src })));
            },
            Option::None => {
                self.entries.set(id, Option::Some(Option::None));
            },
        }
    }

    /// The resolved body of `id`: its direct callees, exactly as the program
    /// model reports them, or `None` when the definition has no body.
    /// Memoized; the result does not depend on the cache state.
    pub fn get_body(&mut self, p: &Program, id: usize) -> (r: Option<Body>)
        requires
            p.wf(),
            old(self).wf(p),
            (id as int) < p.n(),
        ensures
            final(self).wf(p),
            final(self).pwd() == old(self).pwd(),
            final(self).sysroot() == old(self).sysroot(),
            match p.defs@[id as int].body {
                Option::Some(b) => r matches Option::Some(rb) && rb.calls@ == b.calls@,
                Option::None => r is None,
            },
    {
        self.resolve(p, id);
        match &self.entries[id] {
            Option::Some(Option::Some(rec)) => Option::Some(rec.body.clone()),
            Option::Some(Option::None) => Option::None,
            Option::None => {
                proof {
                    assert(false);
                }
                Option::None
            },
        }
    }

    /// The normalized source record of `id`, or `None` when the definition
    /// has no body. Memoized; the result does not depend on the cache state.
    pub fn get_source_code(&mut self, p: &Program, id: usize) -> (r: Option<SourceCode>)
        requires
            p.wf(),
            old(self).wf(p),
            (id as int) < p.n(),
        ensures
            final(self).wf(p),
            final(self).pwd() == old(self).pwd(),
            final(self).sysroot() == old(self).sysroot(),
            match spec_source_of(p, id as int, old(self).pwd(), old(self).sysroot()) {
                Option::Some(v) => r matches Option::Some(s) && s@ == v,
                Option::None => r is None,
            },
    {
        self.resolve(p, id);
        match &self.entries[id] {
            Option::Some(Option::Some(rec)) => Option::Some(rec.src.clone()),
            Option::Some(Option::None) => Option::None,
            Option::None => {
                proof {
                    assert(false);
                }
                Option::None
            },
        }
    }

    /// Compare two definitions by their cached source records, with absent
    /// records first: the order used to sort callee lists.
    pub fn cmp_callees(&mut self, p: &Program, a: usize, b: usize) -> (r: Ordering)
        requires
            p.wf(),
            old(self).wf(p),
            (a as int) < p.n(),
            (b as int) < p.n(),
        ensures
            final(self).wf(p),
            final(self).pwd() == old(self).pwd(),
            final(self).sysroot() == old(self).sysroot(),
            r == opt_source_cmp(
                spec_source_of(p, a as int, old(self).pwd(), old(self).sysroot()),
                spec_source_of(p, b as int, old(self).pwd(), old(self).sysroot()),
            ),
    {
        let sa = self.get_source_code(p, a);
        let sb = self.get_source_code(p, b);
        crate::source_code::cmp_opt_source_code(&sa, &sb)
    }
}

} // verus!
