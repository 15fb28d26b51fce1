use distributed_verification::cache::PathPrefixes;
use distributed_verification::functions::analyze;
use distributed_verification::program::{Body, FnDef, Program};
use distributed_verification::serialization::{ClassifyError, Kind, SerFunction};
use distributed_verification::source_code::SourceCode;

fn src(name: &str, file: &str, text: &str) -> SourceCode {
    SourceCode {
        name: name.to_string(),
        mangled_name: format!("_m_{name}"),
        kind: "Item".to_string(),
        file: file.to_string(),
        src: text.to_string(),
        macro_backtrace_len: 0,
        macro_backtrace: Vec::new(),
    }
}

fn def(def_id: &str, name: &str, file: &str, text: &str, attrs: &[&str], body: Option<Vec<usize>>) -> FnDef {
    FnDef {
        def_id: def_id.to_string(),
        body: body.map(|calls| Body { calls }),
        attrs: attrs.iter().map(|a| a.to_string()).collect(),
        source: src(name, file, text),
    }
}

fn prefixes() -> PathPrefixes {
    PathPrefixes { pwd: "/work/".to_string(), sysroot: "/toolchain/src/rust/".to_string() }
}

fn run(p: &Program) -> Vec<SerFunction> {
    analyze(p, prefixes()).expect("analysis should succeed")
}

/// Three standard harnesses; one of them reaches two plain functions.
fn standard_program() -> Program {
    Program {
        defs: vec![
            def(
                "d0",
                "verify::standard_proof",
                "/work/tests/standard_proofs.rs",
                "fn standard_proof() { let val: u8 = kani::any(); }",
                &["#[kanitool::proof]"],
                Some(vec![]),
            ),
            def(
                "d1",
                "verify::standard_proof_empty",
                "/work/tests/standard_proofs.rs",
                "fn standard_proof_empty() {}",
                &["#[kanitool::proof]"],
                Some(vec![]),
            ),
            def(
                "d2",
                "verify::recursive_callees",
                "/work/tests/standard_proofs.rs",
                "fn recursive_callees() { crate::top_level(); }",
                &["#[kanitool::proof]"],
                Some(vec![3]),
            ),
            def(
                "d3",
                "top_level",
                "/work/tests/standard_proofs.rs",
                "pub fn top_level() { m::func1(); }",
                &[],
                Some(vec![4]),
            ),
            def(
                "d4",
                "m::func1",
                "/work/tests/standard_proofs.rs",
                "pub fn func1() {}",
                &[],
                Some(vec![]),
            ),
        ],
    }
}

#[test]
fn standard_proofs() {
    let p = standard_program();
    let out = run(&p);
    assert_eq!(out.len(), 3);
    for f in &out {
        assert!(matches!(f.kind, Kind::Standard));
        assert_eq!(f.attrs, vec!["#[kanitool::proof]".to_string()]);
        // the file path is stripped of the working-directory prefix
        assert_eq!(f.func.file, "tests/standard_proofs.rs");
        assert!(!f.hash.is_empty());
    }
    // sorted by the source record: names in lexicographic order here
    assert_eq!(out[0].func.name, "verify::recursive_callees");
    assert_eq!(out[1].func.name, "verify::standard_proof");
    assert_eq!(out[2].func.name, "verify::standard_proof_empty");
    // the only harness with callees reaches top_level and func1
    assert_eq!(out[0].callees_len, 2);
    assert_eq!(out[1].callees_len, 0);
    assert_eq!(out[2].callees_len, 0);
    let names: Vec<&str> = out[0].callees.iter().map(|c| c.func.name.as_str()).collect();
    assert!(names.contains(&"top_level"));
    assert!(names.contains(&"m::func1"));
}

#[test]
fn standard_proofs_with_contracts() {
    let p = Program {
        defs: vec![
            def(
                "c0",
                "verify::contract_requires",
                "/work/tests/contracts.rs",
                "fn contract_requires(a: u8) {}",
                &["#[kanitool::requires(a > 0)]"],
                Some(vec![]),
            ),
            def(
                "c1",
                "verify::standard_proof_with_contract_requires",
                "/work/tests/contracts.rs",
                "fn standard_proof_with_contract_requires() { contract_requires(0); }",
                &["#[kanitool::proof]"],
                Some(vec![0]),
            ),
            def(
                "c2",
                "verify::contract_ensures",
                "/work/tests/contracts.rs",
                "fn contract_ensures(a: u8) -> u8 { a }",
                &["#[kanitool::ensures(|&ret| ret > 0)]"],
                Some(vec![]),
            ),
            def(
                "c3",
                "verify::standard_proof_with_contract_ensures",
                "/work/tests/contracts.rs",
                "fn standard_proof_with_contract_ensures() { contract_ensures(0); }",
                &["#[kanitool::proof]"],
                Some(vec![2]),
            ),
        ],
    };
    let out = run(&p);
    // the contract-attributed functions are not harnesses themselves
    assert_eq!(out.len(), 2);
    for f in &out {
        assert!(matches!(f.kind, Kind::Standard));
        assert_eq!(f.callees_len, 1);
    }
    assert_eq!(out[0].callees[0].func.name, "verify::contract_ensures");
    assert_eq!(out[1].callees[0].func.name, "verify::contract_requires");
}

#[test]
fn test_compare() {
    // the same program analyzed twice gives byte-identical hashes
    let p = standard_program();
    let out1 = run(&p);
    let out2 = run(&p);
    assert_eq!(out1.len(), out2.len());
    for (a, b) in out1.iter().zip(out2.iter()) {
        assert_eq!(a.hash, b.hash);
        assert_eq!(a.def_id, b.def_id);
    }
    // a change to a harness's source text changes its hash
    let mut q = standard_program();
    q.defs[1].source.src = "fn standard_proof_empty() { let x = 1; }".to_string();
    let out3 = run(&q);
    assert_ne!(out1[2].hash, out3[2].hash);
    // the untouched harnesses keep their hashes
    assert_eq!(out1[0].hash, out3[0].hash);
    assert_eq!(out1[1].hash, out3[1].hash);
}

#[test]
fn unreachable_addition_keeps_hashes() {
    // adding an unrelated, unreachable function changes no existing hash
    let p = standard_program();
    let out1 = run(&p);
    let mut q = standard_program();
    q.defs.push(def(
        "d5",
        "unrelated",
        "/work/tests/standard_proofs.rs",
        "fn unrelated() {}",
        &[],
        Some(vec![]),
    ));
    let out2 = run(&q);
    assert_eq!(out1.len(), out2.len());
    for (a, b) in out1.iter().zip(out2.iter()) {
        assert_eq!(a.hash, b.hash);
    }
}

#[test]
fn reachable_change_changes_hash() {
    // changing the body of a function reachable from a harness changes that
    // harness's hash and no other
    let p = standard_program();
    let out1 = run(&p);
    let mut q = standard_program();
    q.defs[4].source.src = "pub fn func1() { let y = 2; }".to_string();
    let out2 = run(&q);
    assert_ne!(out1[0].hash, out2[0].hash);
    assert_eq!(out1[1].hash, out2[1].hash);
    assert_eq!(out1[2].hash, out2[2].hash);
}

#[test]
fn cycle_terminates_with_each_callee_once() {
    // A calls B, B calls A; A is a harness; both non-recursive callees of
    // the pair appear exactly once
    let p = Program {
        defs: vec![
            def("a", "a", "/work/x.rs", "fn a() { b(); leaf_a(); }", &["#[kanitool::proof]"], Some(vec![1, 2])),
            def("b", "b", "/work/x.rs", "fn b() { a(); leaf_b(); }", &[], Some(vec![0, 3])),
            def("la", "leaf_a", "/work/x.rs", "fn leaf_a() {}", &[], Some(vec![])),
            def("lb", "leaf_b", "/work/x.rs", "fn leaf_b() {}", &[], Some(vec![])),
        ],
    };
    let out = run(&p);
    assert_eq!(out.len(), 1);
    // reachable from a: b, leaf_a, a (through the cycle), leaf_b
    assert_eq!(out[0].callees_len, 4);
    let mut names: Vec<&str> = out[0].callees.iter().map(|c| c.func.name.as_str()).collect();
    names.sort();
    assert_eq!(names, vec!["a", "b", "leaf_a", "leaf_b"]);
}

#[test]
fn dedup_by_source_collapses_identical_instantiations() {
    // two instantiations of one utility with identical source text: two
    // harnesses that each call one of them hash identically
    let text = "fn util<T>(x: T) {}";
    let p = Program {
        defs: vec![
            def("h1", "h", "/work/x.rs", "fn h() { util(0u8); }", &["#[kanitool::proof]"], Some(vec![2])),
            def("h2", "h", "/work/x.rs", "fn h() { util(0u8); }", &["#[kanitool::proof]"], Some(vec![3])),
            def("u1", "util", "/work/x.rs", text, &[], Some(vec![])),
            def("u2", "util", "/work/x.rs", text, &[], Some(vec![])),
        ],
    };
    let out = run(&p);
    assert_eq!(out.len(), 2);
    assert_eq!(out[0].hash, out[1].hash);
}

#[test]
fn ambiguous_markers_fail_classification() {
    // both a standard and a contract proof marker on one function is a
    // fatal classification error
    let p = Program {
        defs: vec![def(
            "x",
            "x",
            "/work/x.rs",
            "fn x() {}",
            &["#[kanitool::proof]", "#[kanitool::proof_for_contract = \"c\"]"],
            Some(vec![]),
        )],
    };
    let r = analyze(&p, prefixes());
    assert!(matches!(r, Err(ClassifyError::AmbiguousProofMarkers)));
}

#[test]
fn contract_harness_end_to_end() {
    // a file with `fn f() { contract(0); }` tagged as a contract proof and
    // a sibling contract function: exactly one Contract-kind harness for f,
    // one callee whose source equals the contract's text
    let contract_text = "pub fn contract(a: u8) {}";
    let make = |extra_ws: &str| Program {
        defs: vec![
            def(
                "f",
                "verify::f",
                "/work/tests/compare/contract.rs",
                "pub fn f() { contract(0); }",
                &["#[kanitool::proof_for_contract = \"contract\"]"],
                Some(vec![1]),
            ),
            def(
                "c",
                "verify::contract",
                "/work/tests/compare/contract.rs",
                contract_text,
                &["#[kanitool::requires(a > 0)]"],
                Some(vec![]),
            ),
            def(
                "w",
                "verify::whitespace_neighbor",
                "/work/tests/compare/contract.rs",
                if extra_ws.is_empty() {
                    "fn neighbor() {}"
                } else {
                    "fn neighbor()     {}"
                },
                &[],
                Some(vec![]),
            ),
        ],
    };
    let out = run(&make(""));
    assert_eq!(out.len(), 1);
    assert!(matches!(out[0].kind, Kind::Contract));
    assert_eq!(out[0].callees_len, 1);
    assert_eq!(out[0].callees[0].func.src, contract_text);
    // reformatting unrelated code elsewhere in the file keeps the hash
    let out2 = run(&make("  "));
    assert_eq!(out[0].hash, out2[0].hash);
}

#[test]
fn spaced_contract_clauses_are_recognized() {
    // a recognized attribute with spaces inside its arguments still lands in
    // the harness's attribute list, grouped after the markers
    let p = Program {
        defs: vec![def(
            "s0",
            "verify::checked",
            "/work/x.rs",
            "fn checked(a: u8) {}",
            &["#[kanitool::requires(a > 0)]", "#[kanitool::proof]"],
            Some(vec![]),
        )],
    };
    let out = run(&p);
    assert_eq!(out.len(), 1);
    assert!(matches!(out[0].kind, Kind::Standard));
    assert_eq!(
        out[0].attrs,
        vec!["#[kanitool::proof]".to_string(), "#[kanitool::requires(a > 0)]".to_string()]
    );
}

#[test]
fn harness_without_body_is_reported_with_no_callees() {
    // a definition with a proof marker but no resolvable body is still a
    // harness, with an empty callee set and an empty source record
    let p = Program {
        defs: vec![def("nb", "no_body", "/work/x.rs", "fn no_body();", &["#[kanitool::proof]"], None)],
    };
    let out = run(&p);
    assert_eq!(out.len(), 1);
    assert_eq!(out[0].callees_len, 0);
    assert_eq!(out[0].func.src, "");
}

#[test]
fn empty_program_yields_empty_output() {
    let p = Program { defs: vec![] };
    let out = run(&p);
    assert!(out.is_empty());
}

#[test]
fn shared_subgraph_is_spliced_consistently() {
    // two harnesses share a completed sub-graph; the second splices it in
    // and reports the same callees
    let p = Program {
        defs: vec![
            def("h1", "h1", "/work/x.rs", "fn h1() { shared(); }", &["#[kanitool::proof]"], Some(vec![2])),
            def("h2", "h2", "/work/x.rs", "fn h2() { shared(); }", &["#[kanitool::proof]"], Some(vec![2])),
            def("s", "shared", "/work/x.rs", "fn shared() { deep(); }", &[], Some(vec![3])),
            def("dp", "deep", "/work/x.rs", "fn deep() {}", &[], Some(vec![])),
        ],
    };
    let out = run(&p);
    assert_eq!(out.len(), 2);
    for f in &out {
        assert_eq!(f.callees_len, 2);
        let mut names: Vec<&str> = f.callees.iter().map(|c| c.func.name.as_str()).collect();
        names.sort();
        assert_eq!(names, vec!["deep", "shared"]);
    }
}
