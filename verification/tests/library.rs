use safety_net::Identifier;
use safety_pass::passes::{is_kept_attribute, BasicPasses, FoldAllPatterns};
use safety_pass::text::{decimal_text, push_decimal, push_text, sequential_name, text_of};
use safety_pass::usage::{rank_kinds, usage_text};

fn id(s: &str) -> Identifier {
    Identifier::new(s.to_string())
}

fn kinds(names: &[&str]) -> Vec<Identifier> {
    names.iter().map(|s| id(s)).collect()
}

#[test]
fn decimal_texts() {
    assert_eq!(decimal_text(0), "0");
    assert_eq!(decimal_text(7), "7");
    assert_eq!(decimal_text(1234), "1234");
    assert_eq!(decimal_text(usize::MAX), usize::MAX.to_string());
}

#[test]
fn building_texts() {
    let mut s = text_of("n=");
    push_decimal(&mut s, 42);
    push_text(&mut s, "!");
    assert_eq!(s, "n=42!");
}

#[test]
fn sequential_names() {
    assert_eq!(sequential_name(0), "__0__");
    assert_eq!(sequential_name(15), "__15__");
}

#[test]
fn kept_attributes() {
    assert!(is_kept_attribute(&"dont_touch".to_string()));
    assert!(is_kept_attribute(&"keep".to_string()));
    assert!(!is_kept_attribute(&"keep_hierarchy".to_string()));
    assert!(!is_kept_attribute(&"".to_string()));
}

#[test]
fn ranking_orders_by_count() {
    let t = rank_kinds(&kinds(&["A", "B", "A", "C", "B", "A"]));
    let shown: Vec<(String, usize)> = t.iter().map(|(k, n)| (k.to_string(), *n)).collect();
    assert_eq!(
        shown,
        vec![("A".to_string(), 3), ("B".to_string(), 2), ("C".to_string(), 1)]
    );
}

#[test]
fn ranking_keeps_first_seen_among_equals() {
    let t = rank_kinds(&kinds(&["B", "A", "C", "A", "B"]));
    let shown: Vec<(String, usize)> = t.iter().map(|(k, n)| (k.to_string(), *n)).collect();
    assert_eq!(
        shown,
        vec![("B".to_string(), 2), ("A".to_string(), 2), ("C".to_string(), 1)]
    );
}

#[test]
fn ranking_counts_add_up() {
    let list = kinds(&["X", "Y", "X", "Z", "Z", "Z", "W"]);
    let t = rank_kinds(&list);
    let total: usize = t.iter().map(|(_, n)| *n).sum();
    assert_eq!(total, list.len());
    assert_eq!(t.len(), 4);
}

#[test]
fn ranking_of_nothing() {
    assert!(rank_kinds(&Vec::new()).is_empty());
}

#[test]
fn usage_report_text() {
    let s = usage_text(&kinds(&["LUT4", "FDRE", "LUT4"]));
    assert_eq!(s, "Cell Usage:\n\tLUT4:\t2\n\tFDRE:\t1\n\n\tTotal:\t3\n");
}

#[test]
fn usage_report_escaped_names() {
    let s = usage_text(&kinds(&["a.b"]));
    assert_eq!(s, "Cell Usage:\n\t\\a.b :\t1\n\n\tTotal:\t1\n");
}

#[test]
fn fold_patterns_in_order() {
    assert_eq!(FoldAllPatterns.name(), "FoldAllPatterns");
    assert_eq!(
        FoldAllPatterns.patterns(),
        vec![
            "AndIdentity",
            "OrIdentity",
            "AndAbsorb",
            "OrAbsorb",
            "NandIdentity",
            "NorIdentity",
            "NandAbsorb",
            "NorAbsorb",
            "DoubleNegation",
            "Idempotent",
            "MonotoneFold",
        ]
    );
}

#[test]
fn basic_pass_names() {
    let all = [
        (BasicPasses::CellStats, "CellStats"),
        (BasicPasses::Clean, "Clean"),
        (BasicPasses::DedupConsts, "DedupConsts"),
        (BasicPasses::DotGraph, "DotGraph"),
        (BasicPasses::ExtractInvClock, "ExtractInvClock"),
        (BasicPasses::FoldAllPatterns, "FoldAllPatterns"),
        (BasicPasses::InsertInv, "InsertInv"),
        (BasicPasses::InsertScanChain, "InsertScanChain"),
        (BasicPasses::ListNets, "ListNets"),
        (BasicPasses::PrintVerilog, "PrintVerilog"),
        (BasicPasses::RenameNets, "RenameNets"),
        (BasicPasses::StripAttributes, "StripAttributes"),
    ];
    for (p, name) in all {
        assert_eq!(p.name(), name);
        assert_eq!(format!("{:?}", p), name);
    }
    assert_eq!(BasicPasses::Clean, BasicPasses::Clean);
    assert_ne!(BasicPasses::Clean, BasicPasses::ListNets);
}
