//! Recognition of verification-tool attributes.
//!
//! An attribute reaches the analysis as its raw text, e.g.
//! `#[kanitool::proof]` or `#[kanitool::requires(a > 0)]`. Its tool path is
//! the text between `#[` and the first space, opening parenthesis, or the
//! closing bracket. The analysis recognizes four paths: the two proof-kind
//! markers and the two contract clauses.

use vstd::prelude::*;
use crate::ordering::{chars_cmp, cmp_str, lemma_chars_cmp_eq, lemma_chars_cmp_self};

verus! {

/// Index of the first occurrence of `c` in `s` at or after `from`, or `-1`.
pub open spec fn find_from(s: Seq<char>, c: char, from: int) -> int
    decreases s.len() - from,
{
    if from < 0 || from >= s.len() {
        -1
    } else if s[from] == c {
        from
    } else {
        find_from(s, c, from + 1)
    }
}

/// Where the tool path of a raw attribute ends: at the first space after
/// `#[`, else at the first opening parenthesis, else just before the closing
/// bracket.
pub open spec fn attr_path_end(attr: Seq<char>) -> int {
    let sp = find_from(attr, ' ', 2);
    let par = find_from(attr, '(', 2);
    if sp >= 0 {
        sp
    } else if par >= 0 {
        par
    } else {
        attr.len() - 1
    }
}

/// The tool path of a raw attribute: the text between `#[` and the end of
/// the path. Empty for attributes too short to carry one.
pub open spec fn attr_path(attr: Seq<char>) -> Seq<char> {
    if attr.len() < 3 {
        Seq::<char>::empty()
    } else {
        attr.subrange(2, attr_path_end(attr))
    }
}

/// The attribute carries exactly this tool path: the text opens with `#[`,
/// the path follows as a whole segment, and then the path ends — at the
/// closing bracket, at arguments, or at a value. Matching whole segments
/// means spaces inside arguments cannot hide a recognized path, and a path
/// cannot match a longer path it is a prefix of.
pub open spec fn attr_matches_path(a: Seq<char>, path: Seq<char>) -> bool {
    let end = 2 + path.len() as int;
    &&& a.len() >= path.len() + 3
    &&& a[0] == '#'
    &&& a[1] == '['
    &&& a.subrange(2, end) == path
    &&& (a[end] == ']' || a[end] == '(' || a[end] == ' ' || a[end] == '=')
}

/// No attribute matches both proof-kind marker paths: one is a strict
/// prefix of the other, and after the shorter the text must end the path,
/// where the longer requires an underscore.
pub proof fn lemma_markers_exclusive(a: Seq<char>)
    ensures
        !(attr_matches_path(a, "kanitool::proof"@) && attr_matches_path(
            a,
            "kanitool::proof_for_contract"@,
        )),
{
    reveal_strlit("kanitool::proof");
    reveal_strlit("kanitool::proof_for_contract");
    if attr_matches_path(a, "kanitool::proof"@) && attr_matches_path(
        a,
        "kanitool::proof_for_contract"@,
    ) {
        assert(a.subrange(2, 2 + "kanitool::proof_for_contract"@.len() as int)[15] == a[17]);
        assert("kanitool::proof_for_contract"@[15] == '_');
        assert(a[2 + "kanitool::proof"@.len() as int] == a[17]);
    }
}

/// The attributes whose tool path is exactly `path`, in their given order.
pub open spec fn filter_path(attrs: Seq<Seq<char>>, path: Seq<char>) -> Seq<Seq<char>>
    decreases attrs.len(),
{
    if attrs.len() == 0 {
        Seq::<Seq<char>>::empty()
    } else {
        (if attr_matches_path(attrs[0], path) {
            seq![attrs[0]]
        } else {
            Seq::<Seq<char>>::empty()
        }) + filter_path(attrs.drop_first(), path)
    }
}

/// How many attributes carry exactly this tool path.
pub open spec fn count_path(attrs: Seq<Seq<char>>, path: Seq<char>) -> int {
    filter_path(attrs, path).len() as int
}

/// The recognized tool attributes of a definition, grouped by recognized
/// path in the fixed order: proof, proof-for-contract, requires, ensures.
pub open spec fn recognized_of(attrs: Seq<Seq<char>>) -> Seq<Seq<char>> {
    filter_path(attrs, "kanitool::proof"@) + filter_path(attrs, "kanitool::proof_for_contract"@)
        + filter_path(attrs, "kanitool::requires"@) + filter_path(attrs, "kanitool::ensures"@)
}

/// Appending an attribute appends its contribution to the filter.
pub proof fn lemma_filter_path_push(attrs: Seq<Seq<char>>, path: Seq<char>, a: Seq<char>)
    ensures
        filter_path(attrs.push(a), path) == filter_path(attrs, path) + (if attr_matches_path(
            a,
            path,
        ) {
            seq![a]
        } else {
            Seq::<Seq<char>>::empty()
        }),
    decreases attrs.len(),
{
    let ps = attrs.push(a);
    let tail = (if attr_matches_path(a, path) {
        seq![a]
    } else {
        Seq::<Seq<char>>::empty()
    });
    if attrs.len() == 0 {
        assert(ps[0] == a);
        assert(ps.drop_first() =~= Seq::<Seq<char>>::empty());
        assert(filter_path(ps.drop_first(), path) =~= Seq::<Seq<char>>::empty());
        assert(filter_path(ps, path) =~= filter_path(attrs, path) + tail);
    } else {
        lemma_filter_path_push(attrs.drop_first(), path, a);
        assert(ps[0] == attrs[0]);
        assert(ps.drop_first() =~= attrs.drop_first().push(a));
        assert(filter_path(ps, path) =~= filter_path(attrs, path) + tail);
    }
}

/// Executable character search, agreeing with [`find_from`].
pub fn find_char_from(s: &str, c: char, from: usize) -> (r: Option<usize>)
    ensures
        match r {
            Option::Some(i) => find_from(s@, c, from as int) == i as int && from <= i && (
            i as int) < s@.len(),
            Option::None => find_from(s@, c, from as int) == -1,
        },
{
    let n = s.unicode_len();
    if from >= n {
        return Option::None;
    }
    let mut i: usize = from;
    loop
        invariant
            from <= i <= n,
            n == s@.len(),
            find_from(s@, c, from as int) == find_from(s@, c, i as int),
        decreases n - i,
    {
        if i == n {
            return Option::None;
        }
        let ci = s.get_char(i);
        if ci as u32 == c as u32 {
            proof {
                crate::ordering::lemma_char_eq(ci, c);
            }
            return Option::Some(i);
        }
        proof {
            assert(s@[i as int] != c) by {
                if s@[i as int] == c {
                    assert(ci as u32 == c as u32);
                }
            }
        }
        i = i + 1;
    }
}

/// Extract the tool path of a raw attribute, e.g. `kanitool::proof` out of
/// `#[kanitool::proof]`.
pub fn parse_kanitool(attr: &str) -> (r: String)
    ensures
        r@ == attr_path(attr@),
{
    let n = attr.unicode_len();
    if n < 3 {
        return String::new();
    }
    let end: usize = match find_char_from(attr, ' ', 2) {
        Option::Some(sp) => sp,
        Option::None => match find_char_from(attr, '(', 2) {
            Option::Some(par) => par,
            Option::None => n - 1,
        },
    };
    let sub = attr.substring_char(2, end);
    sub.to_owned()
}

/// Whether two string slices hold the same characters.
pub fn str_eq(a: &str, b: &str) -> (r: bool)
    ensures
        r == (a@ == b@),
{
    let c = cmp_str(a, b);
    proof {
        if chars_cmp(a@, b@) == core::cmp::Ordering::Equal {
            lemma_chars_cmp_eq(a@, b@);
        }
        if a@ == b@ {
            lemma_chars_cmp_self(a@);
        }
    }
    matches!(c, core::cmp::Ordering::Equal)
}

/// Does the attribute carry exactly this tool path?
pub fn attr_matches(a: &str, path: &str) -> (r: bool)
    ensures
        r == attr_matches_path(a@, path@),
{
    let n = a.unicode_len();
    let m = path.unicode_len();
    if n < m || n - m < 3 {
        return false;
    }
    let c0 = a.get_char(0);
    if c0 as u32 != '#' as u32 {
        proof {
            assert(a@[0] != '#') by {
                if a@[0] == '#' {
                    assert(c0 as u32 == '#' as u32);
                }
            }
        }
        return false;
    }
    let c1 = a.get_char(1);
    if c1 as u32 != '[' as u32 {
        proof {
            crate::ordering::lemma_char_eq(c0, '#');
            assert(a@[1] != '[') by {
                if a@[1] == '[' {
                    assert(c1 as u32 == '[' as u32);
                }
            }
        }
        return false;
    }
    proof {
        crate::ordering::lemma_char_eq(c0, '#');
        crate::ordering::lemma_char_eq(c1, '[');
    }
    let mut i: usize = 0;
    while i < m
        invariant
            i <= m,
            m == path@.len(),
            n == a@.len(),
            n >= m + 3,
            forall|k: int| 0 <= k < i ==> a@[2 + k] == path@[k],
        decreases m - i,
    {
        let ca = a.get_char(2 + i);
        let cp = path.get_char(i);
        if ca as u32 != cp as u32 {
            proof {
                assert(a@[2 + i as int] != path@[i as int]) by {
                    if a@[2 + i as int] == path@[i as int] {
                        assert(ca as u32 == cp as u32);
                    }
                }
                assert(!attr_matches_path(a@, path@)) by {
                    if attr_matches_path(a@, path@) {
                        assert(a@.subrange(2, 2 + path@.len() as int)[i as int] == a@[2
                            + i as int]);
                    }
                }
            }
            return false;
        }
        proof {
            crate::ordering::lemma_char_eq(ca, cp);
        }
        i = i + 1;
    }
    proof {
        assert(a@.subrange(2, 2 + path@.len() as int) =~= path@);
    }
    let e = a.get_char(2 + m);
    let eu = e as u32;
    if eu == ']' as u32 {
        proof {
            crate::ordering::lemma_char_eq(e, ']');
        }
        true
    } else if eu == '(' as u32 {
        proof {
            crate::ordering::lemma_char_eq(e, '(');
        }
        true
    } else if eu == ' ' as u32 {
        proof {
            crate::ordering::lemma_char_eq(e, ' ');
        }
        true
    } else if eu == '=' as u32 {
        proof {
            crate::ordering::lemma_char_eq(e, '=');
        }
        true
    } else {
        proof {
            let ec = a@[2 + path@.len() as int];
            assert(ec != ']' && ec != '(' && ec != ' ' && ec != '=') by {
                if ec == ']' {
                    assert(eu == ']' as u32);
                }
                if ec == '(' {
                    assert(eu == '(' as u32);
                }
                if ec == ' ' {
                    assert(eu == ' ' as u32);
                }
                if ec == '=' {
                    assert(eu == '=' as u32);
                }
            }
        }
        false
    }
}

/// The view of a list of attribute strings.
pub open spec fn strings_view(v: Seq<String>) -> Seq<Seq<char>> {
    v.map_values(|s: String| s@)
}

/// Collect the attributes whose tool path is `path`, in order.
fn collect_path(attrs: &Vec<String>, path: &str) -> (r: Vec<String>)
    ensures
        strings_view(r@) == filter_path(strings_view(attrs@), path@),
{
    let mut r: Vec<String> = Vec::new();
    let n = attrs.len();
    let mut i: usize = 0;
    proof {
        assert(strings_view(attrs@).take(0) =~= Seq::<Seq<char>>::empty());
        assert(strings_view(r@) =~= filter_path(strings_view(attrs@).take(0), path@));
    }
    while i < n
        invariant
            i <= n,
            n == attrs.len(),
            strings_view(r@) =~= filter_path(strings_view(attrs@).take(i as int), path@),
        decreases n - i,
    {
        let keep = attr_matches(attrs[i].as_str(), path);
        let ghost r_prev = r@;
        let ghost av = strings_view(attrs@);
        if keep {
            r.push(attrs[i].clone());
        }
        proof {
            assert(av.take(i as int).push(av[i as int]) =~= av.take(i as int + 1));
            lemma_filter_path_push(av.take(i as int), path@, av[i as int]);
            if keep {
                assert(strings_view(r@) =~= strings_view(r_prev).push(av[i as int]));
            } else {
                assert(strings_view(r@) =~= strings_view(r_prev));
            }
            assert(strings_view(r@) =~= filter_path(av.take(i as int + 1), path@));
        }
        i = i + 1;
    }
    proof {
        assert(strings_view(attrs@).take(n as int) =~= strings_view(attrs@));
    }
    r
}

/// The recognized tool attributes of a definition, grouped by recognized
/// path: the two proof-kind markers first, then the contract clauses.
pub fn recognized_attrs(attrs: &Vec<String>) -> (r: Vec<String>)
    ensures
        strings_view(r@) == recognized_of(strings_view(attrs@)),
{
    let mut r = collect_path(attrs, "kanitool::proof");
    let mut pfc = collect_path(attrs, "kanitool::proof_for_contract");
    let mut req = collect_path(attrs, "kanitool::requires");
    let mut ens = collect_path(attrs, "kanitool::ensures");
    let ghost r0 = strings_view(r@);
    let ghost v1 = strings_view(pfc@);
    let ghost v2 = strings_view(req@);
    let ghost v3 = strings_view(ens@);
    r.append(&mut pfc);
    proof {
        assert(strings_view(r@) =~= r0 + v1);
    }
    let ghost r1 = strings_view(r@);
    r.append(&mut req);
    proof {
        assert(strings_view(r@) =~= r1 + v2);
    }
    let ghost r2 = strings_view(r@);
    r.append(&mut ens);
    proof {
        assert(strings_view(r@) =~= r2 + v3);
        assert(strings_view(r@) =~= recognized_of(strings_view(attrs@)));
    }
    r
}

} // verus!
