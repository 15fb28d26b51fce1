use distributed_verification::kani_list::{
    CheckProofsError, FileHarnesses, KaniList, Total, check, check_proofs,
};
use distributed_verification::serialization::{Callee, Kind, SerFunction};
use distributed_verification::source_code::SourceCode;

fn record(file: &str, name: &str, kind: Kind) -> SerFunction {
    SerFunction {
        hash: "1".to_string(),
        def_id: format!("{file}::{name}"),
        attrs: vec![],
        kind,
        func: SourceCode {
            name: name.to_string(),
            mangled_name: String::new(),
            kind: "Item".to_string(),
            file: file.to_string(),
            src: format!("fn {name}() {{}}"),
            macro_backtrace_len: 0,
            macro_backtrace: Vec::new(),
        },
        callees_len: 0,
        callees: Vec::<Callee>::new(),
    }
}

fn listing(std: &[(&str, &[&str])], con: &[(&str, &[&str])], totals: (usize, usize)) -> KaniList {
    let to_fh = |xs: &[(&str, &[&str])]| {
        xs.iter()
            .map(|(f, hs)| FileHarnesses {
                file: f.to_string(),
                harnesses: hs.iter().map(|h| h.to_string()).collect(),
            })
            .collect()
    };
    KaniList {
        kani_version: "0".to_string(),
        file_version: "0.1".to_string(),
        standard_harnesses: to_fh(std),
        contract_harnesses: to_fh(con),
        contracts: vec![],
        totals: Total {
            standard_harnesses: totals.0,
            contract_harnesses: totals.1,
            functions_under_contract: 0,
        },
    }
}

#[test]
fn matching_sides_reconcile() {
    let v = vec![record("x.rs", "foo", Kind::Standard), record("y.rs", "bar", Kind::Contract)];
    let list = listing(&[("x.rs", &["foo"])], &[("y.rs", &["bar"])], (1, 1));
    assert!(check_proofs(&list, &v).is_ok());
    assert!(check(&list, &v));
}

#[test]
fn only_external_harness_is_reported() {
    // the external listing reports a standard harness `foo` in `x.rs` that
    // the pipeline did not find: exactly one only-external mismatch
    let v: Vec<SerFunction> = vec![];
    let list = listing(&[("x.rs", &["foo"])], &[], (1, 0));
    let e: CheckProofsError = check_proofs(&list, &v).unwrap_err();
    // the per-kind totals agree with the per-file sets
    assert!(!e.standard_total_mismatch);
    assert!(!e.contract_total_mismatch);
    // the output length disagrees with the external total
    assert!(e.total_mismatch);
    assert_eq!(e.mismatches.len(), 1);
    let m = &e.mismatches[0];
    assert_eq!(m.file, "x.rs");
    assert_eq!(m.name, "foo");
    assert!(matches!(m.kind, Kind::Standard));
    assert!(m.only_external);
}

#[test]
fn only_local_harness_is_reported() {
    let v = vec![record("x.rs", "foo", Kind::Standard)];
    let list = listing(&[], &[], (1, 0));
    let e = check_proofs(&list, &v).unwrap_err();
    assert!(!e.total_mismatch);
    assert!(e.standard_total_mismatch);
    assert_eq!(e.mismatches.len(), 1);
    let m = &e.mismatches[0];
    assert_eq!(m.file, "x.rs");
    assert_eq!(m.name, "foo");
    assert!(!m.only_external);
}

#[test]
fn kind_mismatch_is_reported_in_both_directions() {
    // the harness exists on both sides but under different kinds
    let v = vec![record("x.rs", "foo", Kind::Contract)];
    let list = listing(&[("x.rs", &["foo"])], &[], (1, 0));
    let e = check_proofs(&list, &v).unwrap_err();
    assert_eq!(e.mismatches.len(), 2);
    assert!(e.mismatches.iter().any(|m| m.only_external && matches!(m.kind, Kind::Standard)));
    assert!(e.mismatches.iter().any(|m| !m.only_external && matches!(m.kind, Kind::Contract)));
}

#[test]
fn duplicated_listing_entries_are_reported_once() {
    // the same missing key listed twice externally yields one mismatch entry
    let v: Vec<SerFunction> = vec![];
    let list = listing(&[("x.rs", &["foo", "foo"])], &[], (2, 0));
    let e = check_proofs(&list, &v).unwrap_err();
    assert_eq!(e.mismatches.len(), 1);
    assert_eq!(e.mismatches[0].file, "x.rs");
    assert_eq!(e.mismatches[0].name, "foo");
}

#[test]
fn inconsistent_external_totals_are_reported() {
    // the external tool's own totals disagree with its per-file sets
    let v = vec![record("x.rs", "foo", Kind::Standard), record("y.rs", "bar", Kind::Standard)];
    let list = listing(&[("x.rs", &["foo"]), ("y.rs", &["bar"])], &[], (3, 0));
    let e = check_proofs(&list, &v).unwrap_err();
    assert!(e.total_mismatch);
    assert!(e.standard_total_mismatch);
    assert!(e.mismatches.is_empty());
}
