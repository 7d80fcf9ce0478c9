use safety_net::{Gate, Identifier, Instantiable};
use safety_pass::netlist::{port_fit, Design};
use safety_pass::passes::{
    CellStats, Clean, DotGraph, ListNets, PrintVerilog, RemapCells, RenameNets, StripAttributes,
};

fn and_gate() -> Gate {
    Gate::new_logical("AND".into(), vec!["A".into(), "B".into()], "Y".into())
}

fn inv_gate() -> Gate {
    Gate::new_logical("INV".into(), vec!["A".into()], "Y".into())
}

fn buf_gate() -> Gate {
    Gate::new_logical("BUF".into(), vec!["A".into()], "Y".into())
}

fn id(s: &str) -> Identifier {
    Identifier::new(s.to_string())
}

/// a, b -> and0 -> inv0 (output y)
fn small() -> Design {
    let mut d = Design::new("top");
    let a = d.add_input("a");
    let b = d.add_input("b");
    let g = d.add_gate(and_gate(), id("and0"), vec![(a, 0), (b, 0)]).unwrap();
    let i = d.add_gate(inv_gate(), id("inv0"), vec![(g, 0)]).unwrap();
    d.expose(i, 0, "y");
    d
}

/// A netlist whose two instances share a name, on which no fan-out table
/// can be built.
fn clashing() -> Design {
    let mut d = Design::new("top");
    let a = d.add_input("a");
    d.add_gate(inv_gate(), id("dup"), vec![(a, 0)]).unwrap();
    let k = d.add_gate(inv_gate(), id("dup"), vec![(a, 0)]).unwrap();
    d.expose(k, 0, "y");
    d
}

#[test]
fn design_building() {
    let d = small();
    assert_eq!(d.len(), 4);
    assert!(d.gate(0).is_none());
    assert!(d.instance_name(1).is_none());
    assert_eq!(d.nets(0)[0].to_string(), "a");
    assert_eq!(d.gate(2).unwrap().get_name().to_string(), "AND");
    assert_eq!(d.instance_name(2).unwrap().to_string(), "and0");
    assert_eq!(d.nets(2)[0].to_string(), "and0_Y");
    assert_eq!(d.driver(2, 0).unwrap().to_string(), "a");
    assert_eq!(d.driver(2, 1).unwrap().to_string(), "b");
    assert_eq!(d.driver(3, 0).unwrap().to_string(), "and0_Y");
}

#[test]
fn add_gate_needs_one_operand_per_input() {
    let mut d = small();
    let r = d.add_gate(and_gate(), id("and1"), vec![(0, 0)]);
    assert!(r.is_err());
    assert_eq!(d.len(), 4);
}

#[test]
fn disconnected_gate_and_connect() {
    let mut d = small();
    let k = d.add_gate_disconnected(inv_gate(), id("inv1"));
    assert_eq!(k, 4);
    assert!(d.driver(k, 0).is_none());
    d.connect(k, 0, 1, 0);
    assert_eq!(d.driver(k, 0).unwrap().to_string(), "b");
}

#[test]
fn cell_stats_counts_each_gate() {
    let mut d = small();
    let report = CellStats.run(&mut d).unwrap();
    assert_eq!(report, "Cell Usage:\n\tAND:\t1\n\tINV:\t1\n\n\tTotal:\t2\n");
    assert_eq!(d.len(), 4);
}

#[test]
fn cell_stats_most_used_first() {
    let mut d = small();
    let a = 0;
    d.add_gate(inv_gate(), id("inv1"), vec![(a, 0)]).unwrap();
    let report = CellStats.run(&mut d).unwrap();
    assert_eq!(report, "Cell Usage:\n\tINV:\t2\n\tAND:\t1\n\n\tTotal:\t3\n");
}

#[test]
fn cell_stats_without_instances() {
    let mut d = Design::new("top");
    d.add_input("a");
    let report = CellStats.run(&mut d).unwrap();
    assert_eq!(report, "Cell Usage:\n\n\tTotal:\t0\n");
}

#[test]
fn clean_removes_unused() {
    let mut d = small();
    d.add_gate(inv_gate(), id("dead"), vec![(0, 0)]).unwrap();
    let report = Clean.run(&mut d).unwrap();
    assert_eq!(report, "Cleaned 1 objects. 4 remain.");
    assert_eq!(d.len(), 4);
    assert_eq!(d.instance_name(3).unwrap().to_string(), "inv0");
}

#[test]
fn clean_removes_chains_of_unused() {
    let mut d = small();
    let k = d.add_gate(inv_gate(), id("dead0"), vec![(0, 0)]).unwrap();
    d.add_gate(inv_gate(), id("dead1"), vec![(k, 0)]).unwrap();
    let report = Clean.run(&mut d).unwrap();
    assert_eq!(report, "Cleaned 2 objects. 4 remain.");
    assert_eq!(d.len(), 4);
}

#[test]
fn clean_keeps_inputs() {
    let mut d = small();
    d.add_input("unused");
    let report = Clean.run(&mut d).unwrap();
    assert_eq!(report, "Cleaned 0 objects. 5 remain.");
}

#[test]
fn clean_fails_on_clashing_names() {
    let mut d = clashing();
    assert!(Clean.run(&mut d).is_err());
    assert_eq!(d.len(), 3);
}

#[test]
fn rename_numbers_nets_then_instances() {
    let mut d = small();
    let report = RenameNets.run(&mut d).unwrap();
    assert_eq!(report, "Renamed 4 cells");
    assert_eq!(d.nets(0)[0].to_string(), "a");
    assert_eq!(d.nets(2)[0].to_string(), "__0__");
    assert_eq!(d.nets(3)[0].to_string(), "__1__");
    assert_eq!(d.instance_name(2).unwrap().to_string(), "__2__");
    assert_eq!(d.instance_name(3).unwrap().to_string(), "__3__");
    assert_eq!(d.driver(3, 0).unwrap().to_string(), "__0__");
}

#[test]
fn rename_gives_distinct_names() {
    let mut d = small();
    d.add_gate(and_gate(), id("and1"), vec![(0, 0), (1, 0)]).unwrap();
    RenameNets.run(&mut d).unwrap();
    let mut names: Vec<String> = Vec::new();
    for i in 2..d.len() {
        names.push(d.nets(i)[0].to_string());
        names.push(d.instance_name(i).unwrap().to_string());
    }
    let mut sorted = names.clone();
    sorted.sort();
    sorted.dedup();
    assert_eq!(sorted.len(), names.len());
}

#[test]
fn strip_keeps_dont_touch_and_keep() {
    let mut d = small();
    d.set_attribute(2, "dont_touch");
    d.set_attribute(2, "foo");
    d.set_attribute(3, "keep");
    let report = StripAttributes.run(&mut d).unwrap();
    assert_eq!(report, "Stripped attributes from 1 cells");
    assert_eq!(d.attribute_keys(2), vec!["dont_touch".to_string()]);
    assert_eq!(d.attribute_keys(3), vec!["keep".to_string()]);
}

#[test]
fn strip_counts_cells_not_attributes() {
    let mut d = small();
    d.set_attribute(2, "foo");
    d.set_attribute(2, "bar");
    d.set_attribute(0, "baz");
    let report = StripAttributes.run(&mut d).unwrap();
    assert_eq!(report, "Stripped attributes from 2 cells");
    assert!(d.attribute_keys(2).is_empty());
    assert!(d.attribute_keys(0).is_empty());
}

#[test]
fn strip_twice_strips_nothing() {
    let mut d = small();
    d.set_attribute(2, "foo");
    d.set_attribute(3, "keep");
    StripAttributes.run(&mut d).unwrap();
    let report = StripAttributes.run(&mut d).unwrap();
    assert_eq!(report, "Stripped attributes from 0 cells");
    assert_eq!(d.attribute_keys(3), vec!["keep".to_string()]);
}

#[test]
fn list_nets_table() {
    let mut d = small();
    let table = ListNets.run(&mut d).unwrap();
    assert_eq!(
        table,
        "Name\tFanin\tFanout\tDrivers\tUsers\n\
         a\t0\t1\t\tand0:A\n\
         b\t0\t1\t\tand0:B\n\
         and0_Y\t2\t1\ta, b\tinv0:A\n\
         inv0_Y\t1\t0\tand0_Y\t\n"
    );
}

#[test]
fn list_nets_several_users() {
    let mut d = Design::new("top");
    let a = d.add_input("a");
    let g = d.add_gate(and_gate(), id("g"), vec![(a, 0), (a, 0)]).unwrap();
    d.expose(g, 0, "y");
    let table = ListNets.run(&mut d).unwrap();
    assert_eq!(
        table,
        "Name\tFanin\tFanout\tDrivers\tUsers\n\
         a\t0\t2\t\tg:A, g:B\n\
         g_Y\t2\t0\ta, a\t\n"
    );
}

#[test]
fn list_nets_fails_on_clashing_names() {
    let mut d = clashing();
    assert!(ListNets.run(&mut d).is_err());
}

#[test]
fn print_verilog_mentions_instances() {
    let mut d = small();
    let v = PrintVerilog.run(&mut d).unwrap();
    assert!(v.starts_with("module top"));
    assert!(v.contains("and0"));
    assert!(v.contains("inv0"));
    assert!(v.contains("endmodule"));
    assert_eq!(d.len(), 4);
}

#[test]
fn dot_graph_is_a_digraph() {
    let mut d = small();
    let g = DotGraph.run(&mut d).unwrap();
    assert!(g.contains("digraph"));
    assert!(g.contains("and0"));
}

#[test]
fn remap_swaps_matching_gates() {
    let mut d = small();
    let pass = RemapCells::new(|g: &Gate| {
        if g.get_name().to_string() == "INV" {
            Some(buf_gate())
        } else {
            None
        }
    });
    let report = pass.run(&mut d).unwrap();
    assert_eq!(report, "Remapped 1 cells");
    assert_eq!(d.gate(3).unwrap().get_name().to_string(), "BUF");
    assert_eq!(d.gate(2).unwrap().get_name().to_string(), "AND");
    assert_eq!(d.driver(3, 0).unwrap().to_string(), "and0_Y");
}

#[test]
fn remap_nothing() {
    let mut d = small();
    let pass = RemapCells::new(|_: &Gate| None);
    assert_eq!(pass.run(&mut d).unwrap(), "Remapped 0 cells");
    assert_eq!(d.gate(3).unwrap().get_name().to_string(), "INV");
}

#[test]
fn port_fit_after_remapping_to_fewer_ports() {
    let mut d = small();
    let fit = port_fit(&d);
    assert!(fit.connected_inputs && fit.inputs && fit.outputs && fit.emitted);
    let pass = RemapCells::new(|g: &Gate| {
        if g.get_name().to_string() == "AND" {
            Some(Gate::new_logical("TIE".into(), vec![], "Y".into()))
        } else {
            None
        }
    });
    pass.run(&mut d).unwrap();
    let fit = port_fit(&d);
    assert!(!fit.connected_inputs);
    assert!(!fit.inputs);
    assert!(fit.outputs);
    assert!(!fit.emitted);
}

#[test]
fn pass_names() {
    assert_eq!(PrintVerilog.name(), "PrintVerilog");
    assert_eq!(DotGraph.name(), "DotGraph");
    assert_eq!(Clean.name(), "Clean");
    assert_eq!(RenameNets.name(), "RenameNets");
    assert_eq!(CellStats.name(), "CellStats");
    assert_eq!(ListNets.name(), "ListNets");
    assert_eq!(StripAttributes.name(), "StripAttributes");
    assert_eq!(RemapCells::new(|_: &Gate| None).name(), "RemapCells");
}

#[test]
fn clean_twice_removes_nothing_more() {
    let mut d = small();
    d.add_gate(inv_gate(), id("dead"), vec![(0, 0)]).unwrap();
    Clean.run(&mut d).unwrap();
    let report = Clean.run(&mut d).unwrap();
    assert_eq!(report, "Cleaned 0 objects. 4 remain.");
}

#[test]
fn dot_ready_refuses_port_key_names() {
    let d = small();
    assert!(safety_pass::netlist::dot_ready(&d));
    let mut d = small();
    d.add_input("a->port=b");
    assert!(!safety_pass::netlist::dot_ready(&d));
    let mut d = small();
    d.expose(3, 0, "x->port=y");
    assert!(!safety_pass::netlist::dot_ready(&d));
    assert!(safety_pass::netlist::text_mentions_port_key("xport=y"));
    assert!(!safety_pass::netlist::text_mentions_port_key("port"));
    assert!(safety_pass::netlist::text_mentions_arrow("a->b"));
    assert!(!safety_pass::netlist::text_mentions_arrow("a-b>"));
}

#[test]
fn dot_ready_takes_port_key_without_arrow() {
    let mut d = small();
    d.expose(3, 0, "port=y");
    d.add_input("port=z");
    assert!(safety_pass::netlist::dot_ready(&d));
    let g = DotGraph.run(&mut d).unwrap();
    assert!(g.contains("Output(port=y)"));
    assert!(g.contains("Input(port=z)"));
}

#[test]
fn dot_ready_refuses_an_output_driven_by_a_port_key_net() {
    let mut d = small();
    let k = d.add_input("port=z");
    d.expose(k, 0, "o");
    assert!(!safety_pass::netlist::dot_ready(&d));
}

#[test]
fn dot_ready_takes_an_escaped_port_beside_a_port_key() {
    // `A-` is escaped, so its record entry reads `<\A- >`: no `->` in the line.
    let mut d = Design::new("top");
    let a = d.add_input("a");
    let g = Gate::new_logical("port=G".into(), vec!["A-".into()], "Y".into());
    let k = d.add_gate(g, id("u"), vec![(a, 0)]).unwrap();
    d.expose(k, 0, "y");
    assert!(safety_pass::netlist::dot_ready(&d));
    let text = DotGraph.run(&mut d).unwrap();
    assert!(text.contains("port=G(u)"));
}

#[test]
fn fanout_table_builds_past_a_port_misfit() {
    // The first check of the netlist finds the misfit, which the table does
    // not refuse, and the clashing names are never looked at.
    let mut d = clashing();
    assert!(!safety_pass::netlist::fanout_ready(&d));
    let pass = RemapCells::new(|_: &Gate| Some(Gate::new_logical("TIE".into(), vec![], "Y".into())));
    pass.run(&mut d).unwrap();
    assert!(!port_fit(&d).connected_inputs);
    assert!(safety_pass::netlist::fanout_ready(&d));
}

#[test]
fn list_nets_without_outputs_always_lists() {
    let mut d = Design::new("top");
    let a = d.add_input("a");
    d.add_gate(inv_gate(), id("dup"), vec![(a, 0)]).unwrap();
    d.add_gate(inv_gate(), id("dup"), vec![(a, 0)]).unwrap();
    assert!(safety_pass::netlist::fanout_ready(&d));
    let table = ListNets.run(&mut d).unwrap();
    assert!(table.starts_with("Name\tFanin\tFanout\tDrivers\tUsers\n"));
}

#[test]
fn clean_fails_with_the_fanout_error() {
    let mut d = clashing();
    let listed = ListNets.run(&mut d).unwrap_err();
    let cleaned = Clean.run(&mut d).unwrap_err();
    assert_eq!(format!("{:?}", cleaned), format!("{:?}", listed));
}

#[test]
fn print_verilog_skips_constant_cells() {
    let mut d = small();
    let pass = RemapCells::new(|g: &Gate| {
        if g.get_name().to_string() == "AND" {
            Some(Gate::new_logical("VDD".into(), vec![], "Y".into()))
        } else {
            None
        }
    });
    pass.run(&mut d).unwrap();
    let fit = port_fit(&d);
    assert!(!fit.connected_inputs);
    assert!(fit.emitted);
    let v = PrintVerilog.run(&mut d).unwrap();
    assert!(v.contains("inv0"));
    assert!(!v.contains("and0 ("));
}

#[test]
fn clean_empty_netlist() {
    let mut d = Design::new("top");
    assert_eq!(Clean.run(&mut d).unwrap(), "Cleaned 0 objects. 0 remain.");
}

#[test]
fn passes_print_their_names() {
    assert_eq!(format!("{:?}", CellStats), "CellStats");
    assert_eq!(format!("{:?}", ListNets), "ListNets");
}

#[test]
fn list_nets_fanouts_add_up_to_connected_inputs() {
    let mut d = Design::new("top");
    let a = d.add_input("a");
    let b = d.add_input("b");
    let g = d.add_gate(and_gate(), id("g"), vec![(a, 0), (a, 0)]).unwrap();
    let h = d.add_gate(and_gate(), id("h"), vec![(g, 0), (b, 0)]).unwrap();
    let k = d.add_gate_disconnected(inv_gate(), id("k"));
    d.connect(k, 0, h, 0);
    d.expose(h, 0, "y");
    let table = ListNets.run(&mut d).unwrap();
    let total: usize = table
        .lines()
        .skip(1)
        .map(|line| line.split('\t').nth(2).unwrap().parse::<usize>().unwrap())
        .sum();
    assert_eq!(total, 5);
}
