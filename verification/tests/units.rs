use core::cmp::Ordering;
use distributed_verification::attrs::parse_kanitool;
use distributed_verification::cache::{PathPrefixes, source_code_with, strip_path_prefix};
use distributed_verification::ordering::cmp_str;
use distributed_verification::output::Output;
use distributed_verification::program::{Body, FnDef, Program};
use distributed_verification::serialization::{ClassifyError, Kind, SimplifiedSerFunction};
use distributed_verification::source_code::{MacroBacktrace, SourceCode};
use distributed_verification::stat::Stat;

fn prefixes() -> PathPrefixes {
    PathPrefixes { pwd: "/work/".to_string(), sysroot: "/toolchain/src/rust/".to_string() }
}

#[test]
fn parse_kanitool_extracts_the_tool_path() {
    assert_eq!(parse_kanitool("#[kanitool::proof]"), "kanitool::proof");
    assert_eq!(
        parse_kanitool("#[kanitool::proof_for_contract = \"c\"]"),
        "kanitool::proof_for_contract"
    );
    assert_eq!(parse_kanitool("#[kanitool::disable_checks(pointer)]"), "kanitool::disable_checks");
    // the path ends at the first space, as the grouped statistics keys show
    assert_eq!(
        parse_kanitool("#[kanitool::unstable(feature = \"ghost-state\")]"),
        "kanitool::unstable(feature"
    );
    assert_eq!(parse_kanitool("#[]"), "");
    assert_eq!(parse_kanitool(""), "");
}

#[test]
fn classification_picks_the_single_marker() {
    let std_attrs = vec!["#[kanitool::proof]".to_string()];
    assert!(matches!(Kind::classify(&std_attrs), Ok(Kind::Standard)));
    let con_attrs = vec!["#[kanitool::proof_for_contract = \"c\"]".to_string()];
    assert!(matches!(Kind::classify(&con_attrs), Ok(Kind::Contract)));
    let none: Vec<String> = vec!["#[kanitool::requires(a > 0)]".to_string()];
    assert!(matches!(Kind::classify(&none), Err(ClassifyError::NoProofMarker)));
    let both = vec![
        "#[kanitool::proof]".to_string(),
        "#[kanitool::proof_for_contract = \"c\"]".to_string(),
    ];
    assert!(matches!(Kind::classify(&both), Err(ClassifyError::AmbiguousProofMarkers)));
    // spaces inside arguments cannot hide a marker, and a marker path does
    // not match a longer path it is a prefix of
    let spaced = vec!["#[kanitool::proof_for_contract = \"add (checked)\"]".to_string()];
    assert!(matches!(Kind::classify(&spaced), Ok(Kind::Contract)));
}

#[test]
fn string_order_is_lexicographic() {
    assert!(matches!(cmp_str("a", "b"), Ordering::Less));
    assert!(matches!(cmp_str("b", "a"), Ordering::Greater));
    assert!(matches!(cmp_str("abc", "abc"), Ordering::Equal));
    assert!(matches!(cmp_str("ab", "abc"), Ordering::Less));
    assert!(matches!(cmp_str("", "a"), Ordering::Less));
}

#[test]
fn path_prefix_stripping_takes_the_first_match() {
    let pre = prefixes();
    assert_eq!(strip_path_prefix(&"/work/src/lib.rs".to_string(), &pre), "src/lib.rs");
    assert_eq!(
        strip_path_prefix(&"/toolchain/src/rust/core/num.rs".to_string(), &pre),
        "core/num.rs"
    );
    assert_eq!(strip_path_prefix(&"/elsewhere/a.rs".to_string(), &pre), "/elsewhere/a.rs");
}

#[test]
fn source_extraction_normalizes_the_file() {
    let raw = SourceCode {
        name: "f".to_string(),
        mangled_name: "_f".to_string(),
        kind: "Item".to_string(),
        file: "/work/src/f.rs".to_string(),
        src: "fn f() {}".to_string(),
        macro_backtrace_len: 1,
        macro_backtrace: vec![MacroBacktrace {
            callsite: "f!()".to_string(),
            defsite: "macro_rules! f".to_string(),
        }],
    };
    let rec = source_code_with(&raw, &prefixes());
    assert_eq!(rec.file, "src/f.rs");
    assert_eq!(rec.name, "f");
    assert_eq!(rec.macro_backtrace_len, 1);
    assert_eq!(rec.macro_backtrace[0].callsite, "f!()");
}

#[test]
fn simplified_projection_keeps_the_hash() {
    let p = Program {
        defs: vec![
            FnDef {
                def_id: "d0".to_string(),
                body: Some(Body { calls: vec![1] }),
                attrs: vec!["#[kanitool::proof]".to_string()],
                source: SourceCode {
                    name: "h".to_string(),
                    mangled_name: "_h".to_string(),
                    kind: "Item".to_string(),
                    file: "/work/a.rs".to_string(),
                    src: "fn h() { g(); }".to_string(),
                    macro_backtrace_len: 0,
                    macro_backtrace: Vec::new(),
                },
            },
            FnDef {
                def_id: "d1".to_string(),
                body: Some(Body { calls: vec![] }),
                attrs: vec![],
                source: SourceCode {
                    name: "g".to_string(),
                    mangled_name: "_g".to_string(),
                    kind: "Item".to_string(),
                    file: "/work/a.rs".to_string(),
                    src: "fn g() {}".to_string(),
                    macro_backtrace_len: 0,
                    macro_backtrace: Vec::new(),
                },
            },
        ],
    };
    let out = distributed_verification::functions::analyze(&p, prefixes()).unwrap();
    assert_eq!(out.len(), 1);
    let simple = SimplifiedSerFunction::of(&out[0]);
    assert_eq!(simple.hash, out[0].hash);
    assert_eq!(simple.name, "h");
    assert_eq!(simple.file, "a.rs");
    assert_eq!(simple.callees_len, 1);
    assert_eq!(simple.callees, vec!["g".to_string()]);
}

#[test]
fn output_selector_parses_case_insensitively() {
    assert!(!Output::from("false".to_string()).should_emit());
    assert!(!Output::from("FALSE".to_string()).should_emit());
    assert!(Output::from("".to_string()).should_emit());
    assert!(matches!(Output::from("stdout".to_string()), Output::Stdout));
    assert!(matches!(Output::from("Stdout".to_string()), Output::Stdout));
    let path = Output::from("out.json".to_string());
    assert!(path.should_emit());
    assert!(matches!(path, Output::Path(p) if p == "out.json"));
}

#[test]
fn stat_counts_definitions_and_tool_attributes() {
    let mk = |name: &str, attrs: &[&str]| FnDef {
        def_id: name.to_string(),
        body: Some(Body { calls: vec![] }),
        attrs: attrs.iter().map(|a| a.to_string()).collect(),
        source: SourceCode {
            name: name.to_string(),
            mangled_name: format!("_{name}"),
            kind: "Item".to_string(),
            file: "/work/a.rs".to_string(),
            src: format!("fn {name}() {{}}"),
            macro_backtrace_len: 0,
            macro_backtrace: Vec::new(),
        },
    };
    let p = Program {
        defs: vec![
            mk("plain", &[]),
            mk("clippy_only", &["#[clippy::allow]"]),
            mk("proofed", &["#[kanitool::proof]"]),
            mk("contracted", &["#[kanitool::requires(x)]", "#[kanitool::proof]"]),
        ],
    };
    let stat = Stat::new(&p, 7);
    assert_eq!(stat.external.count, 7);
    assert_eq!(stat.local.count.total, 4);
    assert_eq!(stat.local.count.all_tool_attrs, 3);
    assert_eq!(stat.local.count.kanitools, 2);
    // grouped by path: proof carries two functions, requires one
    let groups = &stat.local.kanitools.annotated_functions;
    let counts = &stat.local.kanitools.count;
    assert_eq!(groups.len(), 2);
    assert_eq!(counts.len(), 2);
    let proof_group = groups.iter().find(|g| g.0 == "kanitool::proof").unwrap();
    // name lists come out sorted
    assert_eq!(proof_group.1, vec!["contracted".to_string(), "proofed".to_string()]);
    let req_group = groups.iter().find(|g| g.0 == "kanitool::requires").unwrap();
    assert_eq!(req_group.1, vec!["contracted".to_string()]);
    for (k, c) in counts {
        let g = groups.iter().find(|g| &g.0 == k).unwrap();
        assert_eq!(*c, g.1.len());
    }
}

#[test]
fn fingerprint_depends_on_every_hashed_field() {
    // the hash goes through the trusted hasher: if the wrapper returned its
    // input unchanged these would collide
    let base = || Program {
        defs: vec![FnDef {
            def_id: "d".to_string(),
            body: Some(Body { calls: vec![] }),
            attrs: vec!["#[kanitool::proof]".to_string()],
            source: SourceCode {
                name: "h".to_string(),
                mangled_name: "_h".to_string(),
                kind: "Item".to_string(),
                file: "/work/a.rs".to_string(),
                src: "fn h() {}".to_string(),
                macro_backtrace_len: 0,
                macro_backtrace: Vec::new(),
            },
        }],
    };
    let h0 = distributed_verification::functions::analyze(&base(), prefixes()).unwrap()[0]
        .hash
        .clone();
    let mut p1 = base();
    p1.defs[0].source.src = "fn h() { }".to_string();
    let h1 = distributed_verification::functions::analyze(&p1, prefixes()).unwrap()[0]
        .hash
        .clone();
    assert_ne!(h0, h1);
    let mut p2 = base();
    p2.defs[0].source.mangled_name = "_h2".to_string();
    let h2 = distributed_verification::functions::analyze(&p2, prefixes()).unwrap()[0]
        .hash
        .clone();
    assert_ne!(h0, h2);
}
