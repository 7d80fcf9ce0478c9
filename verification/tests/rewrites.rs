use safety_net::{Gate, Identifier, Instantiable, Logic};
use safety_pass::netlist::Design;
use safety_pass::rewrites::{
    constant_matches, constants_ready, is_simple_constant, scan_chain_ready, DedupConsts,
    ExtractInvClock, InsertInv, InsertScanChain,
};

fn and_gate() -> Gate {
    Gate::new_logical("AND".into(), vec!["A".into(), "B".into()], "Y".into())
}

fn inv_gate() -> Gate {
    Gate::new_logical("INV".into(), vec!["A".into()], "Y".into())
}

fn fdre_gate() -> Gate {
    Gate::new_logical(
        "FDRE".into(),
        vec!["C".into(), "CE".into(), "R".into(), "D".into()],
        "Q".into(),
    )
}

fn vdd() -> Gate {
    Gate::from_constant(Logic::True).unwrap()
}

fn id(s: &str) -> Identifier {
    Identifier::new(s.to_string())
}

/// a, b -> and0 -> inv0 (output y)
fn small() -> Design {
    let mut d = Design::new("top");
    let a = d.add_input("a");
    let b = d.add_input("b");
    let g = d.add_gate(and_gate(), id("and0"), vec![(a, 0), (b, 0)]).unwrap();
    let i = d.add_gate(inv_gate(), id("inv0"), vec![(g, 0)]).unwrap();
    d.expose(i, 0, "y");
    d
}

/// a and two constants one, each read by an AND gate with an output.
fn two_constants() -> Design {
    let mut d = Design::new("top");
    let a = d.add_input("a");
    let v1 = d.add_gate(vdd(), id("vdd1"), vec![]).unwrap();
    let v2 = d.add_gate(vdd(), id("vdd2"), vec![]).unwrap();
    let g1 = d.add_gate(and_gate(), id("and1"), vec![(a, 0), (v1, 0)]).unwrap();
    let g2 = d.add_gate(and_gate(), id("and2"), vec![(a, 0), (v2, 0)]).unwrap();
    d.expose(g1, 0, "y1");
    d.expose(g2, 0, "y2");
    d
}

fn clashing() -> Design {
    let mut d = Design::new("top");
    let a = d.add_input("a");
    d.add_gate(inv_gate(), id("dup"), vec![(a, 0)]).unwrap();
    let k = d.add_gate(inv_gate(), id("dup"), vec![(a, 0)]).unwrap();
    d.expose(k, 0, "y");
    d
}

/// a -> ff1 -> ff2 -> ff3 (output q), every flip-flop clocked by a.
fn three_registers() -> Design {
    let mut d = Design::new("top");
    let a = d.add_input("a");
    let f1 = d.add_gate(fdre_gate(), id("ff1"), vec![(a, 0), (a, 0), (a, 0), (a, 0)]).unwrap();
    let f2 = d.add_gate(fdre_gate(), id("ff2"), vec![(a, 0), (a, 0), (a, 0), (f1, 0)]).unwrap();
    let f3 = d.add_gate(fdre_gate(), id("ff3"), vec![(a, 0), (a, 0), (a, 0), (f2, 0)]).unwrap();
    d.expose(f3, 0, "q");
    d
}

#[test]
fn constant_gates_are_simple() {
    assert!(is_simple_constant(&vdd(), Logic::True));
    assert!(!is_simple_constant(&vdd(), Logic::False));
    let gnd = Gate::from_constant(Logic::False).unwrap();
    assert!(is_simple_constant(&gnd, Logic::False));
    assert!(!is_simple_constant(&inv_gate(), Logic::True));
}

#[test]
fn constant_matches_lists_constant_nodes() {
    let d = two_constants();
    assert_eq!(constant_matches(&d, Logic::True), vec![1, 2]);
    assert!(constant_matches(&d, Logic::False).is_empty());
    assert!(constants_ready(&d));
}

#[test]
fn dedup_merges_equal_constants() {
    let mut d = two_constants();
    let report = DedupConsts.run(&mut d).unwrap();
    assert_eq!(report, "Deduplicated all constant nets");
    // a, and1, and2 and the shared constant; both old constants are gone.
    assert_eq!(d.len(), 4);
    assert_eq!(d.instance_name(1).unwrap().to_string(), "and1");
    assert_eq!(d.instance_name(2).unwrap().to_string(), "and2");
    assert_eq!(d.instance_name(3).unwrap().to_string(), "VDD_inst");
    assert_eq!(d.driver(1, 1).unwrap().to_string(), "VDD_inst_Y");
    assert_eq!(d.driver(2, 1).unwrap().to_string(), "VDD_inst_Y");
    assert_eq!(d.driver(1, 0).unwrap().to_string(), "a");
}

#[test]
fn dedup_leaves_constants_with_attributes() {
    let mut d = two_constants();
    d.set_attribute(1, "keep");
    DedupConsts.run(&mut d).unwrap();
    // vdd1 keeps its user; vdd2 goes.
    assert_eq!(d.len(), 5);
    assert_eq!(d.instance_name(1).unwrap().to_string(), "vdd1");
    assert_eq!(d.driver(2, 1).unwrap().to_string(), "vdd1_Y");
    assert_eq!(d.driver(3, 1).unwrap().to_string(), "VDD_inst_Y");
}

#[test]
fn dedup_without_constants_only_cleans() {
    let mut d = small();
    d.add_gate(inv_gate(), id("dead"), vec![(0, 0)]).unwrap();
    DedupConsts.run(&mut d).unwrap();
    assert_eq!(d.len(), 4);
}

#[test]
fn dedup_fails_on_clashing_names() {
    let mut d = clashing();
    assert!(DedupConsts.run(&mut d).is_err());
    assert_eq!(d.len(), 3);
}

#[test]
fn insert_inv_puts_a_pair_behind_every_net() {
    let mut d = small();
    let report = InsertInv.run(&mut d).unwrap();
    assert_eq!(report, "Inserted 4 pairs of inverters");
    assert_eq!(d.len(), 12);
    // The first net, a, of four.
    assert_eq!(d.instance_name(4).unwrap().to_string(), "a__0_4");
    assert_eq!(d.instance_name(5).unwrap().to_string(), "a__0_4_inv");
    assert_eq!(d.gate(4).unwrap().get_name().to_string(), "INV");
    assert_eq!(d.driver(4, 0).unwrap().to_string(), "a");
    assert_eq!(d.driver(5, 0).unwrap().to_string(), "a__0_4_Y");
    // and0 now reads the second inverters.
    assert_eq!(d.driver(2, 0).unwrap().to_string(), "a__0_4_inv_Y");
    assert_eq!(d.driver(2, 1).unwrap().to_string(), "b__1_4_inv_Y");
    assert_eq!(d.driver(3, 0).unwrap().to_string(), "and0_Y__2_4_inv_Y");
    assert_eq!(d.instance_name(10).unwrap().to_string(), "inv0_Y__3_4");
}

#[test]
fn insert_inv_fails_on_clashing_names() {
    let mut d = clashing();
    assert!(InsertInv.run(&mut d).is_err());
    assert_eq!(d.len(), 3);
}

#[test]
fn scan_chain_links_the_registers() {
    let mut d = three_registers();
    assert!(scan_chain_ready(&d));
    let report = InsertScanChain.run(&mut d).unwrap();
    assert_eq!(report, "Inserted a scan chain of length 2");
    assert_eq!(d.len(), 7);
    assert!(d.gate(4).is_none());
    assert_eq!(d.nets(4)[0].to_string(), "scan_en");
    assert_eq!(d.instance_name(5).unwrap().to_string(), "ff2_scan_mux_0");
    assert_eq!(d.gate(5).unwrap().get_name().to_string(), "MUX");
    assert_eq!(d.driver(5, 0).unwrap().to_string(), "scan_en");
    assert_eq!(d.driver(5, 1).unwrap().to_string(), "ff1_Q");
    assert_eq!(d.driver(5, 2).unwrap().to_string(), "ff1_Q");
    assert_eq!(d.driver(2, 3).unwrap().to_string(), "ff2_scan_mux_0_Y");
    assert_eq!(d.instance_name(6).unwrap().to_string(), "ff3_scan_mux_1");
    assert_eq!(d.driver(6, 1).unwrap().to_string(), "ff2_Q");
    assert_eq!(d.driver(6, 2).unwrap().to_string(), "ff2_Q");
    assert_eq!(d.driver(3, 3).unwrap().to_string(), "ff3_scan_mux_1_Y");
    // The first register keeps its input.
    assert_eq!(d.driver(1, 3).unwrap().to_string(), "a");
}

#[test]
fn scan_chain_skips_registers_without_data() {
    let mut d = Design::new("top");
    let a = d.add_input("a");
    let f1 = d.add_gate(fdre_gate(), id("ff1"), vec![(a, 0), (a, 0), (a, 0), (a, 0)]).unwrap();
    let f2 = d.add_gate_disconnected(fdre_gate(), id("ff2"));
    d.expose(f1, 0, "q1");
    d.expose(f2, 0, "q2");
    let report = InsertScanChain.run(&mut d).unwrap();
    assert_eq!(report, "Inserted a scan chain of length 0");
    assert_eq!(d.len(), 4);
    assert!(d.driver(2, 3).is_none());
}

#[test]
fn scan_chain_without_registers() {
    let mut d = small();
    let report = InsertScanChain.run(&mut d).unwrap();
    assert_eq!(report, "No FDREs found, no scan chain inserted");
    assert_eq!(d.len(), 5);
    assert_eq!(d.nets(4)[0].to_string(), "scan_en");
}

#[test]
fn scan_chain_needs_a_data_port() {
    let mut d = three_registers();
    let odd = Gate::new_logical("FDRE".into(), vec!["C".into()], "Q".into());
    d.add_gate(odd, id("ff4"), vec![(0, 0)]).unwrap();
    assert!(!scan_chain_ready(&d));
}

#[test]
fn extract_inv_clock_leaves_gates_alone() {
    let mut d = three_registers();
    let report = ExtractInvClock.run(&mut d).unwrap();
    assert_eq!(report, "Explicitly inverted all inverted pins");
    assert_eq!(d.len(), 4);
    assert_eq!(d.driver(1, 0).unwrap().to_string(), "a");
}

#[test]
fn rewrite_pass_names() {
    assert_eq!(DedupConsts.name(), "DedupConsts");
    assert_eq!(InsertInv.name(), "InsertInv");
    assert_eq!(InsertScanChain.name(), "InsertScanChain");
    assert_eq!(ExtractInvClock.name(), "ExtractInvClock");
    assert_eq!(vdd().get_name().to_string(), "VDD");
}

#[test]
fn scan_chain_try_run() {
    let mut d = three_registers();
    let odd = Gate::new_logical("FDRE".into(), vec!["C".into()], "Q".into());
    d.add_gate(odd, id("ff4"), vec![(0, 0)]).unwrap();
    assert!(InsertScanChain.try_run(&mut d).is_none());
    assert_eq!(d.len(), 5);
    let mut d = three_registers();
    let report = InsertScanChain.try_run(&mut d).unwrap().unwrap();
    assert_eq!(report, "Inserted a scan chain of length 2");
}

#[test]
fn insert_inv_names_are_unique() {
    let mut d = small();
    InsertInv.run(&mut d).unwrap();
    let report = InsertInv.run(&mut d).unwrap();
    assert_eq!(report, "Inserted 12 pairs of inverters");
    assert_eq!(d.len(), 36);
    let mut names: Vec<String> = Vec::new();
    for i in 0..d.len() {
        if let Some(name) = d.instance_name(i) {
            names.push(name.to_string());
        }
    }
    let mut sorted = names.clone();
    sorted.sort();
    sorted.dedup();
    assert_eq!(sorted.len(), names.len());
    assert_eq!(d.instance_name(12).unwrap().to_string(), "a__0_12");
}

#[test]
fn dedup_twice_clashes_on_the_shared_name() {
    let mut d = two_constants();
    DedupConsts.run(&mut d).unwrap();
    assert!(DedupConsts.run(&mut d).is_err());
}

/// An instance of `VDD` with two nets (a two-output cell remapped to `VDD`),
/// used by an inverter.
fn wide_constant(keep: bool) -> Design {
    let mut d = Design::new("top");
    let tie = Gate::new_logical_multi("TIE2".into(), vec![], vec!["Y".into(), "Z".into()]);
    let k = d.add_gate(tie, id("tie"), vec![]).unwrap();
    if keep {
        d.set_attribute(k, "keep");
    }
    let i = d.add_gate(inv_gate(), id("inv0"), vec![(k, 0)]).unwrap();
    d.expose(i, 0, "y");
    let pass = safety_pass::passes::RemapCells::new(|g: &Gate| {
        if g.get_name().to_string() == "TIE2" {
            Some(vdd())
        } else {
            None
        }
    });
    pass.run(&mut d).unwrap();
    d
}

#[test]
fn dedup_needs_one_net_only_of_constants_it_merges() {
    let d = wide_constant(false);
    assert!(!constants_ready(&d));
    let mut d = wide_constant(true);
    assert!(constants_ready(&d));
    // The cell now has fewer outputs than the instance has nets, which the
    // fan-out table refuses: the pass fails with that error and changes nothing.
    let listed = safety_pass::passes::ListNets.run(&mut d).unwrap_err();
    let deduplicated = DedupConsts.run(&mut d).unwrap_err();
    assert_eq!(format!("{:?}", deduplicated), format!("{:?}", listed));
    assert_eq!(d.len(), 2);
    assert_eq!(d.driver(1, 0).unwrap().to_string(), "tie_Y");
}

#[test]
fn insert_inv_first_inverter_feeds_only_its_partner() {
    let mut d = small();
    let base = d.len();
    InsertInv.run(&mut d).unwrap();
    for t in 0..(d.len() - base) / 2 {
        let first = base + 2 * t;
        let net = d.nets(first)[0].to_string();
        for k in 0..d.len() {
            if d.gate(k).is_none() {
                continue;
            }
            for q in 0..d.gate(k).unwrap().get_input_ports().len() {
                if let Some(drv) = d.driver(k, q) {
                    if drv.to_string() == net {
                        assert_eq!((k, q), (first + 1, 0));
                    }
                }
            }
        }
    }
}

#[test]
fn passes_keep_the_module_name() {
    let mut d = small();
    InsertInv.run(&mut d).unwrap();
    DedupConsts.run(&mut d).unwrap();
    let v = safety_pass::passes::PrintVerilog.run(&mut d).unwrap();
    assert!(v.starts_with("module top"));
}
