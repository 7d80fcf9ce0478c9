//! The netlist of gates that the passes read and rewrite.
//!
//! A [`Design`] owns a `safety_net` netlist of [`Gate`]s.  Its contents are
//! modelled as a sequence of [`ObjectView`]s, one per circuit node, in the
//! order in which the netlist stores them: principal inputs and gate
//! instances.  Every access goes through a trusted item below, whose contract
//! says what the `safety_net` source does to that model.
use vstd::prelude::*;
use safety_net::{Error, Gate, Identifier, Instantiable, Logic, Netlist, Parameter};
use std::rc::Rc;

verus! {

#[verifier::external_type_specification]
#[verifier::external_body]
pub struct ExIdentifier(Identifier);

#[verifier::external_type_specification]
#[verifier::external_body]
pub struct ExGate(Gate);

#[verifier::external_type_specification]
#[verifier::external_body]
pub struct ExError(Error);

#[verifier::external_type_specification]
pub struct ExLogic(Logic);

#[verifier::external_type_specification]
#[verifier::external_body]
pub struct ExParameter(Parameter);

/// What `Identifier::new` makes of a text.
pub uninterp spec fn identifier_from_text(text: Seq<char>) -> Identifier;

/// What `Identifier + Identifier` makes of two identifiers.
pub uninterp spec fn identifier_join(a: Identifier, b: Identifier) -> Identifier;

/// The text that `Display` writes for an identifier.
pub uninterp spec fn identifier_text(id: Identifier) -> Seq<char>;

/// Whether an identifier is escaped (`Identifier::is_escaped`).
pub uninterp spec fn identifier_escaped(id: Identifier) -> bool;

/// The name of a gate (`Instantiable::get_name`).
pub uninterp spec fn gate_name(g: Gate) -> Identifier;

/// The identifiers of the input ports of a gate, in port order.
pub uninterp spec fn gate_inputs(g: Gate) -> Seq<Identifier>;

/// The identifiers of the output ports of a gate, in port order.
pub uninterp spec fn gate_outputs(g: Gate) -> Seq<Identifier>;

/// One circuit node of a netlist.
pub struct ObjectView {
    /// The cell type (a gate) of an instance; `None` for a principal input.
    pub gate: Option<Gate>,
    /// The instance name; `None` for a principal input.
    pub name: Option<Identifier>,
    /// The identifiers of the nets that the node drives, by output position.
    pub nets: Seq<Identifier>,
    /// For each input position, the driving node and its output position.
    pub drivers: Seq<Option<(nat, nat)>>,
    /// The attributes on the node: each key with its value, if it has one.
    pub attributes: Map<Seq<char>, Option<Parameter>>,
}

/// A gate netlist.
#[verifier::external_body]
pub struct Design {
    netlist: Rc<Netlist<Gate>>,
}

/// The name of the module that a netlist describes.
pub uninterp spec fn netlist_name(d: Design) -> Identifier;

/// The circuit nodes of a netlist, in storage order.
pub uninterp spec fn netlist_objects(d: Design) -> Seq<ObjectView>;

/// Whether a fan-out table (`FanOutTable::build`) can be built for the netlist.
pub uninterp spec fn fanout_builds(d: Design) -> bool;

/// The error of `FanOutTable::build` on the netlist, where it fails.
pub uninterp spec fn fanout_error(d: Design) -> Error;

/// The nodes that are left of the netlist once `Netlist::clean` has removed
/// its unused instances, when it succeeds.
pub uninterp spec fn cleaned_objects(d: Design) -> Seq<ObjectView>;

/// What `Netlist::outputs` lists: each top-level output as the output
/// `(node, position)` that drives it and the identifier it is exposed under.
pub uninterp spec fn top_outputs(d: Design) -> Set<(nat, nat, Identifier)>;

/// The error of `Netlist::clean` on the netlist, where it fails: that of the
/// fan-out table in the round that fails.  (A round also refuses to remove a
/// node that something outside the netlist still holds, with an error that
/// names its nets; a [`Design`] hands out no handle on its nodes, so that
/// never happens to it.)
pub uninterp spec fn clean_error(d: Design) -> Error;

/// Whether `Netlist::clean` succeeds on the netlist.  It fails where a
/// fan-out table cannot be built in some round, or where a removed node would
/// still be referenced from outside the netlist.
pub uninterp spec fn clean_succeeds(d: Design) -> bool;

/// Whether a batch of replacements made with a `NetMapper` (made on the
/// netlist, given the replacements in order, then applied) succeeds.  It
/// fails where no fan-out table can be built, where a replaced node would
/// still be referenced from outside the netlist, or where a replaced
/// principal input is a top-level output under its own name.
pub uninterp spec fn replacement_applies(d: Design, pairs: Seq<((usize, usize), (usize, usize))>) -> bool;

/// What `Gate::new_logical` makes of a name, input names and an
/// output name (each made into an identifier by `Identifier::new`).
pub uninterp spec fn logical_gate(name: Seq<char>, inputs: Seq<Seq<char>>, output: Seq<char>) -> Gate;

/// The netlist after `Netlist::insert_gate_disconnected` of an instance `inst` of `g`.
pub uninterp spec fn with_gate_disconnected(d: Design, g: Gate, inst: Identifier) -> Design;

/// The netlist after a successful `Netlist::insert_gate` of an instance
/// `inst` of `g` on the given outputs `(node, position)`.
pub uninterp spec fn with_gate(d: Design, g: Gate, inst: Identifier, operands: Seq<(usize, usize)>) -> Design;

/// The netlist after a successful batch of `NetMapper` replacements (see
/// [`replacement_applies`]).
pub uninterp spec fn with_replacements(d: Design, pairs: Seq<((usize, usize), (usize, usize))>) -> Design;

/// The lone constant gate that `Gate::from_constant` gives for a value, if any.
pub uninterp spec fn constant_cell(value: Logic) -> Option<Gate>;

/// The Verilog that the default `VerilogEmitter` writes for the netlist.
pub uninterp spec fn verilog_text(d: Design) -> Seq<char>;

/// The Graphviz text of the netlist (`Netlist::dot_string`).
pub uninterp spec fn dot_text(d: Design) -> Seq<char>;

impl View for Design {
    type V = Seq<ObjectView>;

    open spec fn view(&self) -> Seq<ObjectView> {
        netlist_objects(*self)
    }
}

/// Whether `(j, p)` names an output of a node of `objs`.
pub open spec fn is_output_of(objs: Seq<ObjectView>, j: int, p: int) -> bool {
    0 <= j < objs.len() && 0 <= p < objs[j].nets.len()
}

/// Whether every connected input of `objs` is driven by an output of one of
/// its nodes.
pub open spec fn drivers_exist(objs: Seq<ObjectView>) -> bool {
    forall|i: int, q: int|
        0 <= i < objs.len() && 0 <= q < objs[i].drivers.len() && (#[trigger] objs[i].drivers[q]) is Some
            ==> is_output_of(objs, objs[i].drivers[q].unwrap().0 as int, objs[i].drivers[q].unwrap().1 as int)
}

/// Whether every top-level output in `outs` is an output of a node of `objs`.
pub open spec fn outputs_exist(objs: Seq<ObjectView>, outs: Set<(nat, nat, Identifier)>) -> bool {
    forall|o: (nat, nat, Identifier)| #[trigger] outs.contains(o) ==> is_output_of(objs, o.0 as int, o.1 as int)
}

/// Whether every driver and every top-level output of the netlist names an
/// output of one of its nodes: what every operation of the library keeps.
pub open spec fn well_formed(d: Design) -> bool {
    &&& drivers_exist(netlist_objects(d))
    &&& outputs_exist(netlist_objects(d), top_outputs(d))
}

/// Nodes with as many nets, whose drivers are those of `a` or outputs of `b`,
/// keep drivers and outputs existing.
pub proof fn lemma_wf_reshaped(
    a: Seq<ObjectView>,
    b: Seq<ObjectView>,
    outs_a: Set<(nat, nat, Identifier)>,
    outs_b: Set<(nat, nat, Identifier)>,
)
    requires
        drivers_exist(a),
        outputs_exist(a, outs_a),
        a.len() <= b.len(),
        forall|k: int| 0 <= k < a.len() ==> (#[trigger] b[k]).nets.len() == a[k].nets.len(),
        forall|i: int, q: int|
            0 <= i < b.len() && 0 <= q < b[i].drivers.len() && (#[trigger] b[i].drivers[q]) is Some ==> {
                ||| i < a.len() && q < a[i].drivers.len() && b[i].drivers[q] == a[i].drivers[q]
                ||| is_output_of(b, b[i].drivers[q].unwrap().0 as int, b[i].drivers[q].unwrap().1 as int)
            },
        forall|o: (nat, nat, Identifier)| #[trigger] outs_b.contains(o) ==> outs_a.contains(o) || is_output_of(b, o.0 as int, o.1 as int),
    ensures
        drivers_exist(b),
        outputs_exist(b, outs_b),
{
    assert forall|i: int, q: int|
        0 <= i < b.len() && 0 <= q < b[i].drivers.len() && (#[trigger] b[i].drivers[q]) is Some implies is_output_of(
        b,
        b[i].drivers[q].unwrap().0 as int,
        b[i].drivers[q].unwrap().1 as int,
    ) by {
        if i < a.len() && q < a[i].drivers.len() && b[i].drivers[q] == a[i].drivers[q] {
            assert(a[i].drivers[q] is Some);
            let j = a[i].drivers[q].unwrap().0 as int;
            assert(is_output_of(a, j, a[i].drivers[q].unwrap().1 as int));
            assert(b[j].nets.len() == a[j].nets.len());
        }
    }
    assert forall|o: (nat, nat, Identifier)| #[trigger] outs_b.contains(o) implies is_output_of(b, o.0 as int, o.1 as int) by {
        if outs_a.contains(o) && !is_output_of(b, o.0 as int, o.1 as int) {
            assert(is_output_of(a, o.0 as int, o.1 as int));
            assert(b[o.0 as int].nets.len() == a[o.0 as int].nets.len());
        }
    }
}

/// Keeping the nodes `keep` (which hold every node that a kept one reads, and
/// every node of an output) keeps drivers and outputs existing.
pub proof fn lemma_wf_kept(
    before: Seq<ObjectView>,
    after: Seq<ObjectView>,
    keep: Seq<nat>,
    outs_before: Set<(nat, nat, Identifier)>,
    outs_after: Set<(nat, nat, Identifier)>,
)
    requires
        drivers_exist(before),
        outputs_exist(before, outs_before),
        kept_nodes(before, after, keep),
        kept_outputs(outs_before, outs_after, keep),
    ensures
        drivers_exist(after),
        outputs_exist(after, outs_after),
{
    assert forall|i: int, q: int|
        0 <= i < after.len() && 0 <= q < after[i].drivers.len() && (#[trigger] after[i].drivers[q]) is Some implies is_output_of(
        after,
        after[i].drivers[q].unwrap().0 as int,
        after[i].drivers[q].unwrap().1 as int,
    ) by {
        let u = keep[i] as int;
        assert(after[i] == (ObjectView {
            drivers: before[u].drivers.map_values(|drv: Option<(nat, nat)>| kept_driver(drv, keep)),
            ..before[u]
        }));
        assert(after[i].drivers[q] == kept_driver(before[u].drivers[q], keep));
        let (j, p) = before[u].drivers[q].unwrap();
        assert(is_output_of(before, j as int, p as int));
        assert(keep.contains(j));
        let t = keep.index_of(j);
        assert(keep[t] == j);
        assert(after[t].nets == before[j as int].nets);
    }
    assert forall|o: (nat, nat, Identifier)| #[trigger] outs_after.contains(o) implies is_output_of(after, o.0 as int, o.1 as int) by {
        let o0 = choose|o0: (nat, nat, Identifier)| outs_before.contains(o0) && o == (keep.index_of(o0.0) as nat, o0.1, o0.2);
        assert(keep.contains(o0.0));
        let t = keep.index_of(o0.0);
        assert(keep[t] == o0.0);
        assert(is_output_of(before, o0.0 as int, o0.1 as int));
        assert(after[t].nets == before[o0.0 as int].nets);
    }
}

/// Replacing nets by outputs of the netlist keeps drivers and outputs
/// existing.
pub proof fn lemma_wf_replaced(
    a: Seq<ObjectView>,
    b: Seq<ObjectView>,
    outs_a: Set<(nat, nat, Identifier)>,
    outs_b: Set<(nat, nat, Identifier)>,
    pairs: Seq<((usize, usize), (usize, usize))>,
)
    requires
        drivers_exist(a),
        outputs_exist(a, outs_a),
        replacements_ok(a, pairs),
        same_but_wiring(a, b),
        forall|k: int, q: int|
            0 <= k < a.len() && 0 <= q < a[k].drivers.len() ==> #[trigger] b[k].drivers[q] == redirect(a[k].drivers[q], pairs),
        outs_b == moved_outputs(outs_a, pairs),
    ensures
        drivers_exist(b),
        outputs_exist(b, outs_b),
{
    assert forall|i: int, q: int|
        0 <= i < b.len() && 0 <= q < b[i].drivers.len() && (#[trigger] b[i].drivers[q]) is Some implies {
        ||| i < a.len() && q < a[i].drivers.len() && b[i].drivers[q] == a[i].drivers[q]
        ||| is_output_of(b, b[i].drivers[q].unwrap().0 as int, b[i].drivers[q].unwrap().1 as int)
    } by {
        lemma_redirect_exists(a, a[i].drivers[q], pairs);
        if b[i].drivers[q] != a[i].drivers[q] {
            let (j, p) = b[i].drivers[q].unwrap();
            assert(is_output_of(a, j as int, p as int));
            assert(b[j as int].nets.len() == a[j as int].nets.len());
        }
    }
    assert forall|o: (nat, nat, Identifier)| #[trigger] outs_b.contains(o) implies outs_a.contains(o) || is_output_of(b, o.0 as int, o.1 as int) by {
        let o0 = choose|o0: (nat, nat, Identifier)| outs_a.contains(o0) && o == moved_output(o0, pairs);
        lemma_redirect_exists(a, Some((o0.0, o0.1)), pairs);
        if o != o0 {
            assert(is_output_of(a, o0.0 as int, o0.1 as int));
            assert(is_output_of(a, o.0 as int, o.1 as int));
            assert(b[o.0 as int].nets.len() == a[o.0 as int].nets.len());
        }
    }
    lemma_wf_reshaped(a, b, outs_a, outs_b);
}

/// A driver moved by replacements whose targets are outputs of `objs` is one
/// of those targets or the driver itself.
pub proof fn lemma_redirect_exists(
    objs: Seq<ObjectView>,
    drv: Option<(nat, nat)>,
    pairs: Seq<((usize, usize), (usize, usize))>,
)
    requires
        forall|k: int| 0 <= k < pairs.len() ==> is_output_of(objs, (#[trigger] pairs[k]).1.0 as int, pairs[k].1.1 as int),
    ensures
        redirect(drv, pairs) == drv || (redirect(drv, pairs) matches Some((j, p)) && is_output_of(objs, j as int, p as int)),
    decreases pairs.len(),
{
    if pairs.len() > 0 {
        let last = pairs.last();
        assert(is_output_of(objs, pairs[pairs.len() - 1].1.0 as int, pairs[pairs.len() - 1].1.1 as int));
        if drv != driver_pair(last.0) {
            assert forall|k: int| 0 <= k < pairs.drop_last().len() implies is_output_of(objs, (#[trigger] pairs.drop_last()[k]).1.0 as int, pairs.drop_last()[k].1.1 as int) by {
                assert(pairs.drop_last()[k] == pairs[k]);
            }
            lemma_redirect_exists(objs, drv, pairs.drop_last());
        }
    }
}

/// Whether node `i` of `objs` is a gate instance.
pub open spec fn is_instance(objs: Seq<ObjectView>, i: int) -> bool {
    0 <= i < objs.len() && objs[i].gate is Some
}

/// Whether every connected input of every instance is a port of its cell
/// type (`InputPort::get_port` panics on one that is not).
pub open spec fn connected_inputs_are_ports(objs: Seq<ObjectView>) -> bool {
    forall|i: int, q: int|
        is_instance(objs, i) && 0 <= q < objs[i].drivers.len() && (#[trigger] objs[i].drivers[q]) is Some
            ==> q < gate_inputs(objs[i].gate.unwrap()).len()
}

/// Whether every input position of every instance is a port of its cell type.
pub open spec fn inputs_are_ports(objs: Seq<ObjectView>) -> bool {
    forall|i: int|
        #[trigger] is_instance(objs, i) ==> objs[i].drivers.len() <= gate_inputs(objs[i].gate.unwrap()).len()
}

/// Whether every net of every instance is driven by a port of its cell type
/// (`DrivenNet::get_port` panics on one that is not).
pub open spec fn outputs_are_ports(objs: Seq<ObjectView>) -> bool {
    forall|i: int|
        #[trigger] is_instance(objs, i) ==> objs[i].nets.len() <= gate_outputs(objs[i].gate.unwrap()).len()
}

/// Whether instance `i` is written out by the Verilog emitter, which leaves
/// out the instances of constant cells (their users read the constant).
pub open spec fn emitted_instance(objs: Seq<ObjectView>, i: int) -> bool {
    is_instance(objs, i) && constant_named(identifier_text(gate_name(objs[i].gate.unwrap()))) is None
}

/// Whether the connected inputs and the nets of instance `i` are ports of its
/// cell type.
pub open spec fn instance_fits(objs: Seq<ObjectView>, i: int) -> bool {
    &&& objs[i].nets.len() <= gate_outputs(objs[i].gate.unwrap()).len()
    &&& forall|q: int|
        0 <= q < objs[i].drivers.len() && (#[trigger] objs[i].drivers[q]) is Some ==> q < gate_inputs(
            objs[i].gate.unwrap(),
        ).len()
}

/// Whether every instance that the Verilog emitter writes fits its cell type
/// (it names the port of each connected input and of each net there).
pub open spec fn verilog_safe(objs: Seq<ObjectView>) -> bool {
    forall|i: int| #[trigger] emitted_instance(objs, i) ==> instance_fits(objs, i)
}

/// Where a driver of a surviving node points once only the nodes `keep` are
/// left: the position of its node among them.
pub open spec fn kept_driver(drv: Option<(nat, nat)>, keep: Seq<nat>) -> Option<(nat, nat)> {
    match drv {
        Some((j, p)) => Some((keep.index_of(j) as nat, p)),
        None => None,
    }
}

/// Whether `after` is `before` with some gate instances removed: `keep`
/// lists the surviving nodes in order, every principal input among them, and
/// every survivor reads only survivors, which it finds at their new positions.
pub open spec fn kept_nodes(before: Seq<ObjectView>, after: Seq<ObjectView>, keep: Seq<nat>) -> bool {
    &&& after.len() == keep.len()
    &&& forall|t: int, u: int| 0 <= t < u < keep.len() ==> #[trigger] keep[t] < #[trigger] keep[u]
    &&& forall|t: int| 0 <= t < keep.len() ==> #[trigger] keep[t] < before.len()
    &&& forall|j: int| 0 <= j < before.len() && (#[trigger] before[j]).gate is None ==> keep.contains(j as nat)
    &&& forall|t: int, q: int|
        0 <= t < keep.len() && 0 <= q < before[keep[t] as int].drivers.len() && (
        #[trigger] before[keep[t] as int].drivers[q]) is Some ==> keep.contains(
            before[keep[t] as int].drivers[q].unwrap().0,
        )
    &&& forall|t: int|
        0 <= t < keep.len() ==> #[trigger] after[t] == (ObjectView {
            drivers: before[keep[t] as int].drivers.map_values(
                |drv: Option<(nat, nat)>| kept_driver(drv, keep),
            ),
            ..before[keep[t] as int]
        })
}

/// Whether the top-level outputs `after` are `before` once only the nodes
/// `keep` are left: every output is driven by a surviving node, which it
/// finds at its new position.
pub open spec fn kept_outputs(
    before: Set<(nat, nat, Identifier)>,
    after: Set<(nat, nat, Identifier)>,
    keep: Seq<nat>,
) -> bool {
    &&& forall|o: (nat, nat, Identifier)| #[trigger] before.contains(o) ==> keep.contains(o.0)
    &&& after == before.map(|o: (nat, nat, Identifier)| (keep.index_of(o.0) as nat, o.1, o.2))
}

/// The names under which the netlist has top-level outputs.
pub open spec fn output_names(d: Design) -> Set<Identifier> {
    top_outputs(d).map(|o: (nat, nat, Identifier)| o.2)
}

/// Whether `port=` starts at position `k` of `t`.
pub open spec fn port_key_at(t: Seq<char>, k: int) -> bool {
    &&& t[k] == 'p'
    &&& t[k + 1] == 'o'
    &&& t[k + 2] == 'r'
    &&& t[k + 3] == 't'
    &&& t[k + 4] == '='
}

/// Whether `t` contains `port=`.
pub open spec fn mentions_port_key(t: Seq<char>) -> bool {
    exists|k: int| 0 <= k && k + 5 <= t.len() && #[trigger] port_key_at(t, k)
}

/// Whether the text of an identifier contains `port=`.
pub open spec fn names_port_key(id: Identifier) -> bool {
    mentions_port_key(identifier_text(id))
}

/// Whether `->` starts at position `k` of `t`.
pub open spec fn dash_gt_at(t: Seq<char>, k: int) -> bool {
    &&& t[k] == '-'
    &&& t[k + 1] == '>'
}

/// Whether `t` contains `->`.
pub open spec fn mentions_arrow(t: Seq<char>) -> bool {
    exists|k: int| 0 <= k && k + 2 <= t.len() && #[trigger] dash_gt_at(t, k)
}

/// Whether the text of an identifier contains `->`.
pub open spec fn names_arrow(id: Identifier) -> bool {
    mentions_arrow(identifier_text(id))
}

/// Whether a port written as `<P> P` in a record label puts `->` into the
/// line: it contains `->`, or it ends with `-`, which the `>` after it
/// completes.
pub open spec fn port_names_arrow(id: Identifier) -> bool {
    names_arrow(id) || (identifier_text(id).len() > 0 && identifier_text(id).last() == '-')
}

/// Whether the names in the line that `Netlist::dot_string` writes for node
/// `o` put `->` into it.  An instance of a cell type with input ports is a
/// record of its input ports (one for each input position), its cell type and
/// its name; any other node is labelled with its cell type and name, or, for a
/// principal input, with its net.
pub open spec fn node_line_arrow(o: ObjectView) -> bool {
    match o.gate {
        Some(g) => {
            ||| names_arrow(gate_name(g))
            ||| names_arrow(o.name.unwrap())
            ||| gate_inputs(g).len() > 0 && exists|q: int|
                0 <= q < o.drivers.len() && #[trigger] port_names_arrow(gate_inputs(g)[q])
        },
        None => exists|p: int| 0 <= p < o.nets.len() && #[trigger] names_arrow(o.nets[p]),
    }
}

/// Whether the names in the line that `Netlist::dot_string` writes for node
/// `o` put `port=` into it (see [`node_line_arrow`]).
pub open spec fn node_line_key(o: ObjectView) -> bool {
    match o.gate {
        Some(g) => {
            ||| names_port_key(gate_name(g))
            ||| names_port_key(o.name.unwrap())
            ||| gate_inputs(g).len() > 0 && exists|q: int|
                0 <= q < o.drivers.len() && #[trigger] names_port_key(gate_inputs(g)[q])
        },
        None => exists|p: int| 0 <= p < o.nets.len() && #[trigger] names_port_key(o.nets[p]),
    }
}

/// The nets that drive the top-level outputs, by their identifiers.
pub open spec fn output_driver_names(d: Design) -> Set<Identifier> {
    top_outputs(d).map(|o: (nat, nat, Identifier)| netlist_objects(d)[o.0 as int].nets[o.1 as int])
}

/// Whether `Netlist::dot_string` can draw the netlist.  It reads the port of
/// every connected input, and of every input position of an instance whose
/// cell type has input ports; and it takes a line of its graph that holds
/// `->` and `port=` for an edge with a port, which panics where no `port="`
/// follows.  A connection's edge line is always such a line, and is read
/// right; so the names must not put both into any other line: that of a
/// node, that of the output node `Output(name)` of a top-level output, and
/// the edge to it, labelled with the net that drives the output, which holds
/// `->` in any case.  (Where a node line holds `port="` too, it would not
/// panic; that case is refused as well.)
pub open spec fn dot_safe(d: Design) -> bool {
    let objs = netlist_objects(d);
    &&& connected_inputs_are_ports(objs)
    &&& forall|i: int|
        #[trigger] is_instance(objs, i) && gate_inputs(objs[i].gate.unwrap()).len() > 0 ==> objs[i].drivers.len()
            <= gate_inputs(objs[i].gate.unwrap()).len()
    &&& forall|i: int| 0 <= i < objs.len() ==> !(node_line_arrow(#[trigger] objs[i]) && node_line_key(objs[i]))
    &&& forall|o: (nat, nat, Identifier)|
        #[trigger] top_outputs(d).contains(o) ==> !(names_arrow(o.2) && names_port_key(o.2))
    &&& forall|id: Identifier| #[trigger] output_driver_names(d).contains(id) ==> !names_port_key(id)
}

/// The node that `Netlist::insert_input` appends for a net named `id`.
pub open spec fn input_object(id: Identifier) -> ObjectView {
    ObjectView {
        gate: None,
        name: None,
        nets: seq![id],
        drivers: Seq::empty(),
        attributes: Map::empty(),
    }
}

/// The identifiers of the nets of an instance named `inst` of gate `g`.
pub open spec fn instance_nets(g: Gate, inst: Identifier) -> Seq<Identifier> {
    gate_outputs(g).map_values(|port: Identifier| identifier_join(inst, port))
}

/// The node that inserting an instance `inst` of `g` with the given drivers appends.
pub open spec fn instance_object(
    g: Gate,
    inst: Identifier,
    drivers: Seq<Option<(nat, nat)>>,
) -> ObjectView {
    ObjectView {
        gate: Some(g),
        name: Some(inst),
        nets: instance_nets(g, inst),
        drivers,
        attributes: Map::empty(),
    }
}

/// `n` unconnected inputs.
pub open spec fn unconnected(n: nat) -> Seq<Option<(nat, nat)>> {
    Seq::new(n, |k: int| None)
}

/// The pair of indices `(j, p)` as a driver.
pub open spec fn driver_pair(jp: (usize, usize)) -> Option<(nat, nat)> {
    Some((jp.0 as nat, jp.1 as nat))
}

/// `obj` with input `q` driven by output `p` of node `j`.
pub open spec fn with_driver(obj: ObjectView, q: int, j: nat, p: nat) -> ObjectView {
    ObjectView { drivers: obj.drivers.update(q, Some((j, p))), ..obj }
}

/// Whether two netlists hold the same nodes up to the identifiers of their
/// nets and the drivers of their inputs.
pub open spec fn same_but_wiring(a: Seq<ObjectView>, b: Seq<ObjectView>) -> bool {
    &&& a.len() == b.len()
    &&& forall|k: int|
        0 <= k < a.len() ==> {
            &&& (#[trigger] a[k]).gate == b[k].gate
            &&& a[k].name == b[k].name
            &&& a[k].drivers.len() == b[k].drivers.len()
            &&& a[k].attributes == b[k].attributes
            &&& a[k].nets.len() == b[k].nets.len()
        }
}

/// Where a driver ends up after replacing each `of` net by its `with` net.
pub open spec fn redirect(
    drv: Option<(nat, nat)>,
    pairs: Seq<((usize, usize), (usize, usize))>,
) -> Option<(nat, nat)>
    decreases pairs.len(),
{
    if pairs.len() == 0 {
        drv
    } else {
        let last = pairs.last();
        if drv == driver_pair(last.0) {
            driver_pair(last.1)
        } else {
            redirect(drv, pairs.drop_last())
        }
    }
}

/// Where a top-level output is driven from after replacing each `of` net by
/// its `with` net.
pub open spec fn moved_output(
    o: (nat, nat, Identifier),
    pairs: Seq<((usize, usize), (usize, usize))>,
) -> (nat, nat, Identifier) {
    match redirect(Some((o.0, o.1)), pairs) {
        Some((j, p)) => (j, p, o.2),
        None => o,
    }
}

/// The top-level outputs after replacing each `of` net by its `with` net.
pub open spec fn moved_outputs(
    outs: Set<(nat, nat, Identifier)>,
    pairs: Seq<((usize, usize), (usize, usize))>,
) -> Set<(nat, nat, Identifier)> {
    outs.map(|o: (nat, nat, Identifier)| moved_output(o, pairs))
}

/// What a batch of replacements admitted by `NetMapper` looks like: every
/// replaced net is named once, and no net is both replaced and a replacement.
pub open spec fn replacements_ok(
    objs: Seq<ObjectView>,
    pairs: Seq<((usize, usize), (usize, usize))>,
) -> bool {
    &&& forall|k: int|
        0 <= k < pairs.len() ==> {
            &&& is_output_of(objs, (#[trigger] pairs[k]).0.0 as int, pairs[k].0.1 as int)
            &&& is_output_of(objs, pairs[k].1.0 as int, pairs[k].1.1 as int)
        }
    &&& forall|k: int, l: int|
        0 <= k < pairs.len() && 0 <= l < pairs.len() ==> (#[trigger] pairs[k]).1 != (
        #[trigger] pairs[l]).0
    &&& forall|k: int, l: int|
        0 <= k < l < pairs.len() ==> (#[trigger] pairs[k]).0 != (#[trigger] pairs[l]).0
}

/// The users of output `p` of node `i` among input positions `0..q` of node `j`,
/// as (instance name, port identifier) pairs.
pub open spec fn port_users(objs: Seq<ObjectView>, i: nat, p: nat, j: int, q: nat) -> Seq<
    (Identifier, Identifier),
>
    decreases q,
{
    if q == 0 {
        Seq::empty()
    } else {
        let rest = port_users(objs, i, p, j, (q - 1) as nat);
        if objs[j].drivers[q - 1] == Some((i, p)) {
            rest.push((objs[j].name.unwrap(), gate_inputs(objs[j].gate.unwrap())[q - 1]))
        } else {
            rest
        }
    }
}

/// The users of output `p` of node `i` among nodes `0..n`, node by node and
/// port by port, as (instance name, port identifier) pairs.
pub open spec fn net_users(objs: Seq<ObjectView>, i: nat, p: nat, n: nat) -> Seq<
    (Identifier, Identifier),
>
    decreases n,
{
    if n == 0 {
        Seq::empty()
    } else {
        net_users(objs, i, p, (n - 1) as nat) + port_users(
            objs,
            i,
            p,
            n - 1,
            objs[n - 1].drivers.len(),
        )
    }
}

/// The number of nets driven by the instances among nodes `0..n`.
pub open spec fn instance_net_count(objs: Seq<ObjectView>, n: nat) -> nat
    decreases n,
{
    if n == 0 {
        0
    } else {
        instance_net_count(objs, (n - 1) as nat) + if objs[n - 1].gate is Some {
            objs[n - 1].nets.len()
        } else {
            0
        }
    }
}

/// The number of gate instances among nodes `0..n`.
pub open spec fn instance_count(objs: Seq<ObjectView>, n: nat) -> nat
    decreases n,
{
    if n == 0 {
        0
    } else {
        instance_count(objs, (n - 1) as nat) + if objs[n - 1].gate is Some {
            1nat
        } else {
            0
        }
    }
}

/// The identifier of the net that a driver names, if any.
pub open spec fn driver_net(objs: Seq<ObjectView>, drv: Option<(nat, nat)>) -> Option<Identifier> {
    match drv {
        Some((j, p)) => Some(objs[j as int].nets[p as int]),
        None => None,
    }
}

/// The text `__k__`.
pub open spec fn sequential_text(k: nat) -> Seq<char> {
    seq!['_', '_'] + crate::text::decimal(k) + seq!['_', '_']
}

/// The identifier `__k__`.
pub open spec fn sequential_identifier(k: nat) -> Identifier {
    identifier_from_text(sequential_text(k))
}

/// The number that sequential renaming gives net `p` of instance `j`: the
/// nets of the instances are numbered first, in node order.
pub open spec fn net_number(objs: Seq<ObjectView>, j: int, p: int) -> nat {
    instance_net_count(objs, j as nat) + p as nat
}

/// The number that sequential renaming gives instance `j`: the instances are
/// numbered after all nets, in node order.
pub open spec fn name_number(objs: Seq<ObjectView>, j: int) -> nat {
    instance_net_count(objs, objs.len()) + instance_count(objs, j as nat)
}

/// Node `j` after sequential renaming (see [`net_number`], [`name_number`]).
pub open spec fn renamed_object(objs: Seq<ObjectView>, j: int) -> ObjectView {
    if objs[j].gate is Some {
        ObjectView {
            nets: Seq::new(objs[j].nets.len(), |p: int| sequential_identifier(net_number(objs, j, p))),
            name: Some(sequential_identifier(name_number(objs, j))),
            ..objs[j]
        }
    } else {
        objs[j]
    }
}

proof fn lemma_counts_monotone(objs: Seq<ObjectView>, a: nat, b: nat)
    requires
        a <= b <= objs.len(),
    ensures
        instance_net_count(objs, a) <= instance_net_count(objs, b),
        instance_count(objs, a) <= instance_count(objs, b),
        a < b && objs[a as int].gate is Some ==> instance_net_count(objs, a) + objs[a as int].nets.len()
            <= instance_net_count(objs, b) && instance_count(objs, a) < instance_count(objs, b),
    decreases b,
{
    if a < b {
        lemma_counts_monotone(objs, a, (b - 1) as nat);
    }
}

/// Sequential renaming numbers every net of an instance and every instance
/// differently, so no two renamed nets or instances share a name number.
pub proof fn lemma_rename_numbers_distinct(objs: Seq<ObjectView>)
    ensures
        forall|j1: int, p1: int, j2: int, p2: int|
            is_instance(objs, j1) && is_instance(objs, j2) && 0 <= p1 < objs[j1].nets.len() && 0 <= p2
                < objs[j2].nets.len() && (j1, p1) != (j2, p2) ==> #[trigger] net_number(objs, j1, p1)
                != #[trigger] net_number(objs, j2, p2),
        forall|j1: int, j2: int|
            is_instance(objs, j1) && is_instance(objs, j2) && j1 != j2 ==> #[trigger] name_number(objs, j1)
                != #[trigger] name_number(objs, j2),
        forall|j1: int, p1: int, j2: int|
            is_instance(objs, j1) && 0 <= p1 < objs[j1].nets.len() && is_instance(objs, j2) ==> #[trigger] net_number(
                objs,
                j1,
                p1,
            ) < #[trigger] name_number(objs, j2),
{
    assert forall|j1: int, p1: int, j2: int, p2: int|
        is_instance(objs, j1) && is_instance(objs, j2) && 0 <= p1 < objs[j1].nets.len() && 0 <= p2
            < objs[j2].nets.len() && (j1, p1) != (j2, p2) implies #[trigger] net_number(objs, j1, p1)
            != #[trigger] net_number(objs, j2, p2) by {
        if j1 < j2 {
            lemma_counts_monotone(objs, j1 as nat, j2 as nat);
        } else if j2 < j1 {
            lemma_counts_monotone(objs, j2 as nat, j1 as nat);
        }
    }
    assert forall|j1: int, j2: int|
        is_instance(objs, j1) && is_instance(objs, j2) && j1 != j2 implies #[trigger] name_number(objs, j1)
            != #[trigger] name_number(objs, j2) by {
        if j1 < j2 {
            lemma_counts_monotone(objs, j1 as nat, j2 as nat);
        } else {
            lemma_counts_monotone(objs, j2 as nat, j1 as nat);
        }
    }
    assert forall|j1: int, p1: int, j2: int|
        is_instance(objs, j1) && 0 <= p1 < objs[j1].nets.len() && is_instance(objs, j2) implies #[trigger] net_number(
            objs,
            j1,
            p1,
        ) < #[trigger] name_number(objs, j2) by {
        lemma_counts_monotone(objs, j1 as nat, objs.len());
        lemma_counts_monotone(objs, (j1 + 1) as nat, objs.len());
    }
}

/// The constant that `Gate::get_constant` reads from the text of a gate's name.
pub open spec fn constant_named(text: Seq<char>) -> Option<Logic> {
    if text == seq!['V', 'D', 'D'] {
        Some(Logic::True)
    } else if text == seq!['G', 'N', 'D'] {
        Some(Logic::False)
    } else {
        None
    }
}

/// Whether `text` reads as a bus slice `[k]` without a stem: `[`, decimal
/// digits, `]`.
pub open spec fn stemless_slice(text: Seq<char>) -> bool {
    &&& text.len() >= 3
    &&& text[0] == '['
    &&& text.last() == ']'
    &&& forall|k: int| 1 <= k < text.len() - 1 ==> '0' <= #[trigger] text[k] && text[k] <= '9'
}

/// Whether `Identifier::new` accepts `text`.  It panics on an empty text,
/// and on a bus slice `[k]` whose stem is empty; such a text is refused here
/// also where `k` is too large for a `usize`, which the crate keeps as an
/// escaped name instead.
pub open spec fn identifier_text_ok(text: Seq<char>) -> bool {
    text.len() > 0 && !stemless_slice(text)
}

/// Whether `c` is an ASCII letter, a digit or `_`.
pub open spec fn word_char(c: char) -> bool {
    ('a' <= c && c <= 'z') || ('A' <= c && c <= 'Z') || ('0' <= c && c <= '9') || c == '_'
}

/// Whether `text` is a plain identifier: not empty, not starting with a digit,
/// and made of letters, digits and `_` only.  `Identifier::new` keeps such a
/// text as the name, neither escaped nor a bus slice, and `Display` writes it
/// back as it is.
pub open spec fn plain_text(text: Seq<char>) -> bool {
    &&& text.len() > 0
    &&& !('0' <= text[0] && text[0] <= '9')
    &&& forall|k: int| 0 <= k < text.len() ==> word_char(#[trigger] text[k])
}

/// Whether `s` ends with `t`.
pub open spec fn ends_with(s: Seq<char>, t: Seq<char>) -> bool {
    s.len() >= t.len() && s.subrange(s.len() - t.len(), s.len() as int) == t
}

// ---------------------------------------------------------------------------
// Identifiers and gates.
/// `Identifier::new` (see [`identifier_text_ok`] for the texts it takes).  A
/// plain text (see [`plain_text`]) becomes the name as it is, not escaped,
/// and is written back as it is.
#[verifier::external_body]
pub(crate) fn make_identifier(text: &str) -> (id: Identifier)
    requires
        identifier_text_ok(text@),
    ensures
        id == identifier_from_text(text@),
        plain_text(text@) ==> identifier_text(id) == text@ && !identifier_escaped(id),
{
    Identifier::new(text.to_string())
}

/// `Identifier + Identifier` (`impl Add for &Identifier`): escaped when
/// either is.  When `b` is plain (which `Display` shows by a plain text: an
/// escaped text starts with `\\`, a bus slice has a `[`), the name of the
/// result ends with the name of `b`: it is the name (and bus index) of `a`,
/// `_` and the name of `b`, or `b` itself when `a` is not escaped and has an
/// empty name.  The result has no bus index, so `Display` writes its name,
/// between `\\` and a space when it is escaped.  Where the text of `a` is not
/// empty and does not end with `]`, `a` has no bus index and a name that is
/// not empty, so the text of the result is that of `a` with `_` and the name
/// of `b` added (before the space, when `a` is escaped).
#[verifier::external_body]
pub(crate) fn join_identifiers(a: &Identifier, b: &Identifier) -> (id: Identifier)
    ensures
        id == identifier_join(*a, *b),
        identifier_escaped(id) == (identifier_escaped(*a) || identifier_escaped(*b)),
        plain_text(identifier_text(*b)) ==> if identifier_escaped(id) {
            ends_with(identifier_text(id), identifier_text(*b).push(' '))
        } else {
            ends_with(identifier_text(id), identifier_text(*b))
        },
        plain_text(identifier_text(*b)) && identifier_text(*a).len() > 0 && identifier_text(*a).last() != ']'
            ==> identifier_text(id) == if identifier_escaped(*a) {
            identifier_text(*a).drop_last() + seq!['_'] + identifier_text(*b) + seq![' ']
        } else {
            identifier_text(*a) + seq!['_'] + identifier_text(*b)
        },
{
    a + b
}

/// `Identifier::to_string`, through its `Display` impl.
#[verifier::external_body]
pub(crate) fn identifier_to_string(id: &Identifier) -> (s: String)
    ensures
        s@ == identifier_text(*id),
{
    id.to_string()
}

/// `Identifier == Identifier`, which the crate derives field by field.
#[verifier::external_body]
pub(crate) fn same_identifier(a: &Identifier, b: &Identifier) -> (same: bool)
    ensures
        same == (*a == *b),
{
    a == b
}

/// `Identifier::clone`, which the crate derives field by field.
#[verifier::external_body]
pub(crate) fn copy_identifier(a: &Identifier) -> (c: Identifier)
    ensures
        c == *a,
{
    a.clone()
}

/// `Gate::new_logical`: a gate with the named inputs and one output.  The
/// crate panics on an empty name and on a gate name that is a bus slice,
/// which needs a `[`.
#[verifier::external_body]
pub(crate) fn logic_gate(name: &str, inputs: &Vec<String>, output: &str) -> (g: Gate)
    requires
        identifier_text_ok(name@),
        !name@.contains('['),
        identifier_text_ok(output@),
        forall|k: int| 0 <= k < inputs@.len() ==> identifier_text_ok((#[trigger] inputs@[k])@),
    ensures
        g == logical_gate(name@, inputs@.map_values(|t: String| t@), output@),
        gate_name(g) == identifier_from_text(name@),
        gate_inputs(g) == inputs@.map_values(|s: String| identifier_from_text(s@)),
        gate_outputs(g) == seq![identifier_from_text(output@)],
{
    let ins = inputs.iter().map(|s| Identifier::new(s.clone())).collect();
    Gate::new_logical(Identifier::new(name.to_string()), ins, Identifier::new(output.to_string()))
}

/// `Gate::from_constant`: `VDD` for true and `GND` for false, each with one
/// output `Y` and no input; no gate for the other two values.  The text of
/// the name is the plain text it was made from, which `Gate::get_constant`
/// reads back.
#[verifier::external_body]
pub(crate) fn constant_gate(value: Logic) -> (g: Option<Gate>)
    ensures
        g == constant_cell(value),
        g is Some <==> (value == Logic::True || value == Logic::False),
        g matches Some(g) ==> {
            &&& gate_name(g) == identifier_from_text(
                if value == Logic::True {
                    seq!['V', 'D', 'D']
                } else {
                    seq!['G', 'N', 'D']
                },
            )
            &&& identifier_text(gate_name(g)) == if value == Logic::True {
                seq!['V', 'D', 'D']
            } else {
                seq!['G', 'N', 'D']
            }
            &&& gate_inputs(g) == Seq::<Identifier>::empty()
            &&& gate_outputs(g) == seq![identifier_from_text(seq!['Y'])]
        },
{
    Gate::from_constant(value)
}

/// `Gate::get_constant`, which reads the text of its name.
#[verifier::external_body]
pub(crate) fn gate_constant(g: &Gate) -> (c: Option<Logic>)
    ensures
        c == constant_named(identifier_text(gate_name(*g))),
{
    g.get_constant()
}

/// `Gate::get_name`.
#[verifier::external_body]
pub(crate) fn gate_name_of(g: &Gate) -> (id: Identifier)
    ensures
        id == gate_name(*g),
{
    g.get_name().clone()
}

/// `Gate::get_num_input_ports`.
#[verifier::external_body]
pub(crate) fn gate_input_count(g: &Gate) -> (n: usize)
    ensures
        n == gate_inputs(*g).len(),
{
    g.get_num_input_ports()
}

/// `Gate::get_input_ports`, by identifier.
#[verifier::external_body]
pub(crate) fn gate_inputs_of(g: &Gate) -> (ids: Vec<Identifier>)
    ensures
        ids@ == gate_inputs(*g),
{
    g.get_input_ports().iter().map(|n| n.get_identifier().clone()).collect()
}

/// `Gate::get_num_output_ports`.
#[verifier::external_body]
pub(crate) fn gate_output_count(g: &Gate) -> (n: usize)
    ensures
        n == gate_outputs(*g).len(),
{
    g.get_num_output_ports()
}

/// `Gate::parameters().is_empty()`: a gate carries no parameter.
#[verifier::external_body]
pub(crate) fn gate_without_parameters(g: &Gate) -> (empty: bool)
    ensures
        empty,
{
    g.parameters().is_empty()
}

/// `Gate::find_input`: the first input port with the given identifier.
#[verifier::external_body]
pub(crate) fn gate_find_input(g: &Gate, id: &Identifier) -> (q: Option<usize>)
    ensures
        q matches Some(q) ==> q < gate_inputs(*g).len() && gate_inputs(*g)[q as int] == *id && (
        forall|k: int| 0 <= k < q ==> gate_inputs(*g)[k] != *id),
        q is None ==> forall|k: int| 0 <= k < gate_inputs(*g).len() ==> gate_inputs(*g)[k] != *id,
{
    g.find_input(id)
}

/// `Gate::get_parameter(id) == Some(Parameter::from_bool(true))`, compared
/// where `Parameter` lives, since one of its variants holds a float.  A gate
/// has no parameter (`get_parameter` is always `None`), so this never holds.
#[verifier::external_body]
pub(crate) fn gate_flag_set(g: &Gate, id: &Identifier) -> (set: bool)
    ensures
        !set,
{
    g.get_parameter(id) == Some(safety_net::Parameter::from_bool(true))
}

// ---------------------------------------------------------------------------
// Reading the netlist.
/// `Netlist::new` with the given module name.
#[verifier::external_body]
pub(crate) fn netlist_new(name: &str) -> (d: Design)
    requires
        identifier_text_ok(name@),
    ensures
        top_outputs(d) == Set::<(nat, nat, Identifier)>::empty(),
        netlist_objects(d) == Seq::<ObjectView>::empty(),
        netlist_name(d) == identifier_from_text(name@),
{
    Design { netlist: Netlist::new(Identifier::new(name.to_string())) }
}

/// `Netlist::len`.
#[verifier::external_body]
pub(crate) fn netlist_len(d: &Design) -> (n: usize)
    ensures
        n == netlist_objects(*d).len(),
{
    d.netlist.len()
}

/// `NetRef::get_instance_type` of node `i`, cloned.
#[verifier::external_body]
pub(crate) fn node_gate(d: &Design, i: usize) -> (g: Option<Gate>)
    requires
        i < netlist_objects(*d).len(),
    ensures
        g == netlist_objects(*d)[i as int].gate,
{
    let node = d.netlist.objects().nth(i).unwrap();
    let g = node.get_instance_type().map(|t| t.clone());
    g
}

/// `NetRef::get_instance_name` of node `i`; every instance has a name, and
/// a principal input has none.
#[verifier::external_body]
pub(crate) fn node_name(d: &Design, i: usize) -> (name: Option<Identifier>)
    requires
        i < netlist_objects(*d).len(),
    ensures
        name == netlist_objects(*d)[i as int].name,
        name is Some <==> netlist_objects(*d)[i as int].gate is Some,
{
    d.netlist.objects().nth(i).unwrap().get_instance_name()
}

/// `NetRef::nets` of node `i`: the identifiers of the nets it drives.
#[verifier::external_body]
pub(crate) fn node_nets(d: &Design, i: usize) -> (ids: Vec<Identifier>)
    requires
        i < netlist_objects(*d).len(),
    ensures
        ids@ == netlist_objects(*d)[i as int].nets,
{
    let node = d.netlist.objects().nth(i).unwrap();
    node.nets().map(|n| n.take_identifier()).collect()
}

/// `NetRef::attributes` of node `i`, by key; the crate keeps them in a map,
/// so no key comes twice.
#[verifier::external_body]
pub(crate) fn node_attribute_keys(d: &Design, i: usize) -> (keys: Vec<String>)
    requires
        i < netlist_objects(*d).len(),
    ensures
        keys@.map_values(|k: String| k@).to_set() == netlist_objects(*d)[i as int].attributes.dom(),
        keys@.map_values(|k: String| k@).no_duplicates(),
{
    let node = d.netlist.objects().nth(i).unwrap();
    node.attributes().map(|a| a.key().clone()).collect()
}

/// The number of input positions of node `i` (`NetRef::inputs().count()`).
#[verifier::external_body]
pub(crate) fn node_input_count(d: &Design, i: usize) -> (n: usize)
    requires
        i < netlist_objects(*d).len(),
    ensures
        n == netlist_objects(*d)[i as int].drivers.len(),
{
    d.netlist.objects().nth(i).unwrap().inputs().count()
}

/// `InputPort::get_driver` of input `q` of instance `i`: the identifier of
/// the net that drives it, if any.
#[verifier::external_body]
pub(crate) fn node_driver_net(d: &Design, i: usize, q: usize) -> (id: Option<Identifier>)
    requires
        is_instance(netlist_objects(*d), i as int),
        q < netlist_objects(*d)[i as int].drivers.len(),
    ensures
        id == driver_net(netlist_objects(*d), netlist_objects(*d)[i as int].drivers[q as int]),
{
    let node = d.netlist.objects().nth(i).unwrap();
    node.get_input(q).get_driver().map(|n| n.get_identifier())
}

/// Whether `Netlist::get_analysis::<FanOutTable>` succeeds, and its error
/// where it does not.  `FanOutTable::build` refuses only the errors of
/// `Netlist::verify` that come after its first check, which finds a netlist
/// without top-level outputs, so such a netlist always gets its table.
#[verifier::external_body]
pub(crate) fn netlist_fanout_check(d: &Design) -> (r: Result<(), Error>)
    ensures
        r is Ok <==> fanout_builds(*d),
        r matches Err(e) ==> e == fanout_error(*d),
        top_outputs(*d).is_empty() ==> r is Ok,
{
    d.netlist.get_analysis::<safety_net::FanOutTable<_>>().map(|_| ())
}

/// Whether a fan-out table can be built for the netlist; it always can where
/// the netlist has no top-level output.
pub fn fanout_ready(d: &Design) -> (ok: bool)
    ensures
        ok == fanout_builds(*d),
        top_outputs(*d).is_empty() ==> ok,
{
    netlist_fanout_check(d).is_ok()
}

/// `FanOutTable::get_users` of output `p` of node `i`, as (instance name,
/// port identifier) pairs.  The table lists the users in the order of
/// `Netlist::connections`: node by node, input by input.
#[verifier::external_body]
pub(crate) fn netlist_users(d: &Design, i: usize, p: usize) -> (users: Vec<(Identifier, Identifier)>)
    requires
        fanout_builds(*d),
        is_output_of(netlist_objects(*d), i as int, p as int),
        connected_inputs_are_ports(netlist_objects(*d)),
    ensures
        users@ == net_users(
            netlist_objects(*d),
            i as nat,
            p as nat,
            netlist_objects(*d).len(),
        ),
{
    let table = d.netlist.get_analysis::<safety_net::FanOutTable<_>>().unwrap();
    let net = d.netlist.objects().nth(i).unwrap().get_output(p);
    let users = table.get_users(&net);
    users.map(|u| (u.clone().unwrap().get_instance_name().unwrap(), u.get_port().take_identifier())).collect()
}

/// The Verilog text of the netlist (`VerilogEmitter::new_default(..).to_string()`),
/// on the netlists that it writes without panicking (see [`verilog_safe`]).
#[verifier::external_body]
pub(crate) fn netlist_verilog(d: &Design) -> (s: String)
    requires
        verilog_safe(netlist_objects(*d)),
    ensures
        s@ == verilog_text(*d),
{
    safety_net::emitter::VerilogEmitter::new_default(&d.netlist).to_string()
}

/// `Netlist::dot_string`: the netlist as a Graphviz graph, on the netlists
/// that it draws without panicking (see [`dot_safe`]).
#[verifier::external_body]
pub(crate) fn netlist_dot(d: &Design) -> (s: String)
    requires
        dot_safe(*d),
    ensures
        s@ == dot_text(*d),
{
    d.netlist.dot_string()
}

/// The names of the top-level outputs (`Netlist::outputs`, by the identifier
/// of each output net).
#[verifier::external_body]
pub(crate) fn netlist_output_names(d: &Design) -> (ids: Vec<Identifier>)
    ensures
        ids@.to_set() == output_names(*d),
{
    d.netlist.outputs().into_iter().map(|(_, n)| n.get_identifier().clone()).collect()
}

/// The nets that drive the top-level outputs (`Netlist::outputs`, by the
/// identifier of each driving net).
#[verifier::external_body]
pub(crate) fn netlist_output_drivers(d: &Design) -> (ids: Vec<Identifier>)
    ensures
        ids@.to_set() == output_driver_names(*d),
{
    d.netlist.outputs().into_iter().map(|(o, _)| o.get_identifier()).collect()
}

// ---------------------------------------------------------------------------
// Changing the netlist.
/// `Netlist::insert_input` of a four-state net named `name`.
#[verifier::external_body]
pub(crate) fn netlist_insert_input(d: &mut Design, name: &str)
    requires
        identifier_text_ok(name@),
    ensures
        netlist_name(*final(d)) == netlist_name(*old(d)),
        top_outputs(*final(d)) == top_outputs(*old(d)),
        netlist_objects(*final(d)) == netlist_objects(*old(d)).push(
            input_object(identifier_from_text(name@)),
        ),
{
    d.netlist.insert_input(name.into());
}

/// `Netlist::insert_gate` with the given outputs as operands.  The crate
/// fails when the number of operands is not the number of gate inputs.
#[verifier::external_body]
pub(crate) fn netlist_insert_gate(d: &mut Design, g: Gate, inst: Identifier, operands: Vec<(usize, usize)>) -> (r: Result<(), Error>)
    requires
        forall|k: int|
            0 <= k < operands@.len() ==> is_output_of(
                netlist_objects(*old(d)),
                (#[trigger] operands@[k]).0 as int,
                operands@[k].1 as int,
            ),
    ensures
        netlist_name(*final(d)) == netlist_name(*old(d)),
        r is Ok ==> *final(d) == with_gate(*old(d), g, inst, operands@),
        top_outputs(*final(d)) == top_outputs(*old(d)),
        r is Ok <==> operands@.len() == gate_inputs(g).len(),
        r is Ok ==> netlist_objects(*final(d)) == netlist_objects(*old(d)).push(
            instance_object(g, inst, operands@.map_values(|jp: (usize, usize)| driver_pair(jp))),
        ),
        r is Err ==> netlist_objects(*final(d)) == netlist_objects(*old(d)),
{
    let ops: Vec<_> = operands.iter().map(|&(j, p)| d.netlist.objects().nth(j).unwrap().get_output(p)).collect();
    d.netlist.insert_gate(g, inst, &ops).map(|_| ())
}

/// `Netlist::insert_gate_disconnected`.
#[verifier::external_body]
pub(crate) fn netlist_insert_disconnected(d: &mut Design, g: Gate, inst: Identifier)
    ensures
        netlist_name(*final(d)) == netlist_name(*old(d)),
        *final(d) == with_gate_disconnected(*old(d), g, inst),
        top_outputs(*final(d)) == top_outputs(*old(d)),
        netlist_objects(*final(d)) == netlist_objects(*old(d)).push(
            instance_object(g, inst, unconnected(gate_inputs(g).len())),
        ),
{
    d.netlist.insert_gate_disconnected(g, inst);
}

/// `InputPort::connect`: input `q` of instance `i` is driven by output `p` of node `j`.
#[verifier::external_body]
pub(crate) fn netlist_connect(d: &mut Design, i: usize, q: usize, j: usize, p: usize)
    requires
        is_instance(netlist_objects(*old(d)), i as int),
        q < netlist_objects(*old(d))[i as int].drivers.len(),
        is_output_of(netlist_objects(*old(d)), j as int, p as int),
    ensures
        netlist_name(*final(d)) == netlist_name(*old(d)),
        top_outputs(*final(d)) == top_outputs(*old(d)),
        netlist_objects(*final(d)) == netlist_objects(*old(d)).update(
            i as int,
            with_driver(netlist_objects(*old(d))[i as int], q as int, j as nat, p as nat),
        ),
{
    let driver = d.netlist.objects().nth(j).unwrap().get_output(p);
    d.netlist.objects().nth(i).unwrap().get_input(q).connect(driver);
}

/// `InputPort::connect` of input `q` of instance `i` to the net that drives
/// input `r` of instance `k` (`InputPort::get_driver`).
#[verifier::external_body]
pub(crate) fn netlist_connect_to_driver(d: &mut Design, i: usize, q: usize, k: usize, r: usize)
    requires
        is_instance(netlist_objects(*old(d)), i as int),
        q < netlist_objects(*old(d))[i as int].drivers.len(),
        is_instance(netlist_objects(*old(d)), k as int),
        r < netlist_objects(*old(d))[k as int].drivers.len(),
        netlist_objects(*old(d))[k as int].drivers[r as int] is Some,
    ensures
        netlist_name(*final(d)) == netlist_name(*old(d)),
        top_outputs(*final(d)) == top_outputs(*old(d)),
        netlist_objects(*final(d)) == netlist_objects(*old(d)).update(
            i as int,
            ObjectView {
                drivers: netlist_objects(*old(d))[i as int].drivers.update(
                    q as int,
                    netlist_objects(*old(d))[k as int].drivers[r as int],
                ),
                ..netlist_objects(*old(d))[i as int]
            },
        ),
{
    let driver = d.netlist.objects().nth(k).unwrap().get_input(r).get_driver().unwrap();
    d.netlist.objects().nth(i).unwrap().get_input(q).connect(driver);
}

/// `DrivenNet::expose_with_name`: output `p` of node `j` becomes a top-level
/// output under the name `name`; the nodes stay as they are.
#[verifier::external_body]
pub(crate) fn netlist_expose(d: &mut Design, j: usize, p: usize, name: &str)
    requires
        is_output_of(netlist_objects(*old(d)), j as int, p as int),
        identifier_text_ok(name@),
    ensures
        netlist_name(*final(d)) == netlist_name(*old(d)),
        netlist_objects(*final(d)) == netlist_objects(*old(d)),
        top_outputs(*final(d)) == top_outputs(*old(d)).insert((j as nat, p as nat, identifier_from_text(name@))),
{
    d.netlist.objects().nth(j).unwrap().get_output(p).expose_with_name(name.into());
}

/// `NetRef::set_attribute`: a key without a value.
#[verifier::external_body]
pub(crate) fn netlist_set_attribute(d: &mut Design, i: usize, key: &str)
    requires
        i < netlist_objects(*old(d)).len(),
    ensures
        netlist_name(*final(d)) == netlist_name(*old(d)),
        top_outputs(*final(d)) == top_outputs(*old(d)),
        netlist_objects(*final(d)) == netlist_objects(*old(d)).update(
            i as int,
            ObjectView {
                attributes: netlist_objects(*old(d))[i as int].attributes.insert(key@, None),
                ..netlist_objects(*old(d))[i as int]
            },
        ),
{
    d.netlist.objects().nth(i).unwrap().set_attribute(key.to_string());
}

/// `NetRef::clear_attribute`.
#[verifier::external_body]
pub(crate) fn netlist_clear_attribute(d: &mut Design, i: usize, key: &String)
    requires
        i < netlist_objects(*old(d)).len(),
    ensures
        netlist_name(*final(d)) == netlist_name(*old(d)),
        top_outputs(*final(d)) == top_outputs(*old(d)),
        netlist_objects(*final(d)) == netlist_objects(*old(d)).update(
            i as int,
            ObjectView {
                attributes: netlist_objects(*old(d))[i as int].attributes.remove(key@),
                ..netlist_objects(*old(d))[i as int]
            },
        ),
{
    d.netlist.objects().nth(i).unwrap().clear_attribute(key);
}

/// Assignment through `NetRef::get_instance_type_mut`: instance `i` takes gate `g`.
#[verifier::external_body]
pub(crate) fn netlist_set_gate(d: &mut Design, i: usize, g: Gate)
    requires
        is_instance(netlist_objects(*old(d)), i as int),
    ensures
        netlist_name(*final(d)) == netlist_name(*old(d)),
        top_outputs(*final(d)) == top_outputs(*old(d)),
        netlist_objects(*final(d)) == netlist_objects(*old(d)).update(
            i as int,
            ObjectView { gate: Some(g), ..netlist_objects(*old(d))[i as int] },
        ),
{
    *d.netlist.objects().nth(i).unwrap().get_instance_type_mut().unwrap() = g;
}

/// `Instantiable::clear_parameter` on the cell type of instance `i`: a gate has
/// no parameter to clear.
#[verifier::external_body]
pub(crate) fn netlist_clear_parameter(d: &mut Design, i: usize, id: &Identifier)
    requires
        is_instance(netlist_objects(*old(d)), i as int),
    ensures
        netlist_name(*final(d)) == netlist_name(*old(d)),
        top_outputs(*final(d)) == top_outputs(*old(d)),
        netlist_objects(*final(d)) == netlist_objects(*old(d)),
{
    d.netlist.objects().nth(i).unwrap().get_instance_type_mut().unwrap().clear_parameter(id);
}

/// `Netlist::clean`: removes instances none of whose nets is used (by an
/// input or a top-level output), round after round, until a round removes
/// nothing; on success, the number of nodes it removed.  Each round moves
/// the top-level outputs to the new positions of their nodes.  A round that
/// fails leaves the netlist as the rounds before it left it.  Which
/// instances go depends on the top-level outputs and on the types of the
/// nets: that is named ([`cleaned_objects`]).  After a success, another clean
/// builds the same fan-out table on the same netlist, finds nothing to
/// remove in its first round, and succeeds without changing anything.  On a
/// netlist without nodes the table builds (a missing output does not stop
/// it) and there is nothing to remove.
#[verifier::external_body]
pub(crate) fn netlist_clean(d: &mut Design) -> (r: Result<usize, Error>)
    ensures
        netlist_name(*final(d)) == netlist_name(*old(d)),
        r is Ok <==> clean_succeeds(*old(d)),
        r matches Err(e) ==> e == clean_error(*old(d)),
        !fanout_builds(*old(d)) ==> (r matches Err(e) && e == fanout_error(*old(d))),
        netlist_objects(*old(d)).len() == 0 ==> r is Ok,
        exists|keep: Seq<nat>|
            {
                &&& kept_nodes(netlist_objects(*old(d)), netlist_objects(*final(d)), keep)
                &&& kept_outputs(top_outputs(*old(d)), top_outputs(*final(d)), keep)
            },
        r is Ok ==> netlist_objects(*final(d)) == cleaned_objects(*old(d)),
        r is Ok ==> clean_succeeds(*final(d)),
        r is Ok ==> cleaned_objects(*final(d)) == netlist_objects(*final(d)),
        r matches Ok(n) ==> netlist_objects(*final(d)).len() + n == netlist_objects(*old(d)).len(),
{
    d.netlist.clean().map(|removed| removed.len())
}

/// `Netlist::rename_nets` with the renaming `(_, k) -> __k__`: the nets of
/// the instances are numbered first, then the instance names.  The crate
/// fails only when two new names are equal; `Identifier::new` keeps the text
/// of `__k__` as it is (it has no character that escapes it, and no bus
/// index), and `Display` writes that text back, so the new names all differ
/// and the renaming succeeds.
#[verifier::external_body]
pub(crate) fn netlist_rename_sequential(d: &mut Design) -> (r: Result<(), Error>)
    ensures
        netlist_name(*final(d)) == netlist_name(*old(d)),
        r is Ok,
        top_outputs(*final(d)) == top_outputs(*old(d)),
        netlist_objects(*final(d)).len() == netlist_objects(*old(d)).len(),
        forall|j: int|
            0 <= j < netlist_objects(*old(d)).len() ==> #[trigger] netlist_objects(*final(d))[j]
                == renamed_object(netlist_objects(*old(d)), j),
        forall|j: int, p: int|
            is_instance(netlist_objects(*old(d)), j) && 0 <= p < netlist_objects(*old(d))[j].nets.len()
                ==> identifier_text(#[trigger] netlist_objects(*final(d))[j].nets[p]) == sequential_text(
                net_number(netlist_objects(*old(d)), j, p),
            ),
        forall|j: int|
            is_instance(netlist_objects(*old(d)), j) ==> identifier_text(
                (#[trigger] netlist_objects(*final(d))[j]).name.unwrap(),
            ) == sequential_text(name_number(netlist_objects(*old(d)), j)),
{
    d.netlist.rename_nets(|_, k| Identifier::new(crate::text::sequential_name(k)))
}

/// `NetMapper`: made on the netlist as it stands, given each replacement in
/// order with `NetMapper::replace`, then `NetMapper::apply`.  Every input
/// that was driven by a replaced net is driven by its replacement, and every
/// top-level output it drove moves to the replacement; the mapper may rename
/// a replaced net that was also a top-level output.  Where it fails, it fails
/// before moving any driver or output.  Making the mapper builds a fan-out
/// table, whose error comes back where that fails; which error `apply` gives
/// otherwise depends on the order in which it walks a `HashMap` of the
/// replacements, so nothing is said of it.
#[verifier::external_body]
pub(crate) fn netlist_replace_nets(d: &mut Design, pairs: Vec<((usize, usize), (usize, usize))>) -> (r: Result<(), Error>)
    requires
        replacements_ok(netlist_objects(*old(d)), pairs@),
    ensures
        netlist_name(*final(d)) == netlist_name(*old(d)),
        r is Ok ==> *final(d) == with_replacements(*old(d), pairs@),
        r is Ok <==> replacement_applies(*old(d), pairs@),
        !fanout_builds(*old(d)) ==> (r matches Err(e) && e == fanout_error(*old(d))),
        r is Err ==> top_outputs(*final(d)) == top_outputs(*old(d)),
        r is Ok ==> top_outputs(*final(d)) == moved_outputs(top_outputs(*old(d)), pairs@),
        same_but_wiring(netlist_objects(*old(d)), netlist_objects(*final(d))),
        r is Err ==> forall|k: int|
            0 <= k < netlist_objects(*old(d)).len() ==> #[trigger] netlist_objects(*final(d))[k].drivers
                == netlist_objects(*old(d))[k].drivers,
        r is Ok ==> forall|k: int, q: int|
            0 <= k < netlist_objects(*old(d)).len() && 0 <= q < netlist_objects(
                *old(d),
            )[k].drivers.len() ==> #[trigger] netlist_objects(*final(d))[k].drivers[q] == redirect(
                netlist_objects(*old(d))[k].drivers[q],
                pairs@,
            ),
{
    let mut mapper = safety_net::rewriter::NetMapper::new(&d.netlist)?;
    let out = |j: usize, p: usize| d.netlist.objects().nth(j).unwrap().get_output(p);
    for &((j, p), (k, q)) in pairs.iter() {
        mapper.replace(out(j, p), out(k, q));
    }
    mapper.apply().map(|_| ())
}

/// How the inputs and nets of the instances fit the ports of their cell
/// types.  Only remapping a cell type to one with fewer ports breaks the fit.
pub struct PortFit {
    /// Every connected input is a port ([`connected_inputs_are_ports`]).
    pub connected_inputs: bool,
    /// Every input position is a port ([`inputs_are_ports`]).
    pub inputs: bool,
    /// Every net is driven by a port ([`outputs_are_ports`]).
    pub outputs: bool,
    /// Every instance that the Verilog emitter writes fits its cell type
    /// ([`verilog_safe`]).
    pub emitted: bool,
}

/// Checks how the inputs and nets of every instance fit its cell type.
pub fn port_fit(d: &Design) -> (r: PortFit)
    ensures
        r.connected_inputs == connected_inputs_are_ports(d@),
        r.inputs == inputs_are_ports(d@),
        r.outputs == outputs_are_ports(d@),
        r.emitted == verilog_safe(d@),
{
    let n = netlist_len(d);
    let mut connected_ok = true;
    let mut inputs_ok = true;
    let mut outputs_ok = true;
    let mut emitted_ok = true;
    let mut i: usize = 0;
    while i < n
        invariant
            n == d@.len(),
            i <= n,
            connected_ok == (forall|j: int, q: int|
                0 <= j < i && is_instance(d@, j) && 0 <= q < d@[j].drivers.len() && (
                #[trigger] d@[j].drivers[q]) is Some ==> q < gate_inputs(d@[j].gate.unwrap()).len()),
            inputs_ok == (forall|j: int|
                0 <= j < i && #[trigger] is_instance(d@, j) ==> d@[j].drivers.len() <= gate_inputs(
                    d@[j].gate.unwrap(),
                ).len()),
            outputs_ok == (forall|j: int|
                0 <= j < i && #[trigger] is_instance(d@, j) ==> d@[j].nets.len() <= gate_outputs(
                    d@[j].gate.unwrap(),
                ).len()),
            emitted_ok == (forall|j: int| 0 <= j < i && #[trigger] emitted_instance(d@, j) ==> instance_fits(d@, j)),
        decreases n - i,
    {
        match node_gate(d, i) {
            Some(g) => {
                let ports_in = gate_input_count(&g);
                let ports_out = gate_output_count(&g);
                let inputs = node_input_count(d, i);
                let nets = node_nets(d, i);
                if inputs > ports_in {
                    inputs_ok = false;
                }
                if nets.len() > ports_out {
                    outputs_ok = false;
                }
                let mut q: usize = 0;
                let mut here_ok = true;
                while q < inputs
                    invariant
                        n == d@.len(),
                        i < n,
                        is_instance(d@, i as int),
                        d@[i as int].gate == Some(g),
                        inputs == d@[i as int].drivers.len(),
                        ports_in == gate_inputs(g).len(),
                        q <= inputs,
                        here_ok == (forall|r: int|
                            0 <= r < q && (#[trigger] d@[i as int].drivers[r]) is Some ==> r < ports_in),
                    decreases inputs - q,
                {
                    if q >= ports_in && node_driver_net(d, i, q).is_some() {
                        here_ok = false;
                    }
                    q = q + 1;
                }
                if !here_ok {
                    connected_ok = false;
                }
                let constant = gate_constant(&g);
                assert(is_instance(d@, i as int));
                if constant.is_none() && (!here_ok || nets.len() > ports_out) {
                    assert(emitted_instance(d@, i as int));
                    emitted_ok = false;
                }
            },
            None => {},
        }
        i = i + 1;
    }
    PortFit { connected_inputs: connected_ok, inputs: inputs_ok, outputs: outputs_ok, emitted: emitted_ok }
}

/// Whether `text` contains `port=`.
pub fn text_mentions_port_key(text: &str) -> (b: bool)
    ensures
        b == mentions_port_key(text@),
{
    let n = text.unicode_len();
    let mut k: usize = 0;
    while k < n && n - k >= 5
        invariant
            n == text@.len(),
            k <= n,
            forall|j: int| 0 <= j < k && j + 5 <= n ==> !#[trigger] port_key_at(text@, j),
        decreases n - k,
    {
        if text.get_char(k) == 'p' && text.get_char(k + 1) == 'o' && text.get_char(k + 2) == 'r'
            && text.get_char(k + 3) == 't' && text.get_char(k + 4) == '=' {
            assert(port_key_at(text@, k as int));
            return true;
        }
        k = k + 1;
    }
    false
}

/// Whether the text of `id` contains `port=`.
fn identifier_mentions_port_key(id: &Identifier) -> (b: bool)
    ensures
        b == names_port_key(*id),
{
    let t = identifier_to_string(id);
    text_mentions_port_key(t.as_str())
}

/// Whether `text` contains `->`.
pub fn text_mentions_arrow(text: &str) -> (b: bool)
    ensures
        b == mentions_arrow(text@),
{
    let n = text.unicode_len();
    let mut k: usize = 0;
    while k < n && n - k >= 2
        invariant
            n == text@.len(),
            k <= n,
            forall|j: int| 0 <= j < k && j + 2 <= n ==> !#[trigger] dash_gt_at(text@, j),
        decreases n - k,
    {
        if text.get_char(k) == '-' && text.get_char(k + 1) == '>' {
            assert(dash_gt_at(text@, k as int));
            return true;
        }
        k = k + 1;
    }
    false
}

/// Whether the text of `id` contains `->`.
fn identifier_mentions_arrow(id: &Identifier) -> (b: bool)
    ensures
        b == names_arrow(*id),
{
    let t = identifier_to_string(id);
    text_mentions_arrow(t.as_str())
}

/// Whether port `id`, written into a record label, puts `->` into its line.
fn port_mentions_arrow(id: &Identifier) -> (b: bool)
    ensures
        b == port_names_arrow(*id),
{
    let t = identifier_to_string(id);
    let n = t.unicode_len();
    text_mentions_arrow(t.as_str()) || (n > 0 && t.as_str().get_char(n - 1) == '-')
}

/// Whether the names in the graph line of node `i` put `->` and `port=`
/// into it (see [`node_line_arrow`] and [`node_line_key`]).
fn node_line_marks(d: &Design, i: usize) -> (r: (bool, bool))
    requires
        i < d@.len(),
        is_instance(d@, i as int) && gate_inputs(d@[i as int].gate.unwrap()).len() > 0 ==> d@[i as int].drivers.len()
            <= gate_inputs(d@[i as int].gate.unwrap()).len(),
    ensures
        r.0 == node_line_arrow(d@[i as int]),
        r.1 == node_line_key(d@[i as int]),
{
    match node_gate(d, i) {
        Some(g) => {
            let name = node_name(d, i).unwrap();
            let gname = gate_name_of(&g);
            let mut arrow = identifier_mentions_arrow(&gname) || identifier_mentions_arrow(&name);
            let mut key = identifier_mentions_port_key(&gname) || identifier_mentions_port_key(&name);
            let ports = gate_inputs_of(&g);
            let inputs = node_input_count(d, i);
            let ghost o = d@[i as int];
            assert(is_instance(d@, i as int));
            if ports.len() > 0 {
                let mut q: usize = 0;
                let mut pa = false;
                let mut pk = false;
                while q < inputs
                    invariant
                        o == d@[i as int],
                        o.gate == Some(g),
                        ports@ == gate_inputs(g),
                        inputs == o.drivers.len(),
                        inputs <= ports.len(),
                        q <= inputs,
                        pa == exists|r: int| 0 <= r < q && #[trigger] port_names_arrow(gate_inputs(g)[r]),
                        pk == exists|r: int| 0 <= r < q && #[trigger] names_port_key(gate_inputs(g)[r]),
                    decreases inputs - q,
                {
                    if port_mentions_arrow(&ports[q]) {
                        pa = true;
                    }
                    if identifier_mentions_port_key(&ports[q]) {
                        pk = true;
                    }
                    q = q + 1;
                }
                arrow = arrow || pa;
                key = key || pk;
            }
            (arrow, key)
        },
        None => {
            let nets = node_nets(d, i);
            let mut arrow = false;
            let mut key = false;
            let mut p: usize = 0;
            while p < nets.len()
                invariant
                    nets@ == d@[i as int].nets,
                    p <= nets.len(),
                    arrow == exists|r: int| 0 <= r < p && #[trigger] names_arrow(nets@[r]),
                    key == exists|r: int| 0 <= r < p && #[trigger] names_port_key(nets@[r]),
                decreases nets.len() - p,
            {
                if identifier_mentions_arrow(&nets[p]) {
                    arrow = true;
                }
                if identifier_mentions_port_key(&nets[p]) {
                    key = true;
                }
                p = p + 1;
            }
            (arrow, key)
        },
    }
}

/// Whether the netlist can be drawn as a graph (see [`dot_safe`]).
pub fn dot_ready(d: &Design) -> (ok: bool)
    ensures
        ok == dot_safe(*d),
{
    if !port_fit(d).connected_inputs {
        return false;
    }
    let n = netlist_len(d);
    let mut i: usize = 0;
    while i < n
        invariant
            n == d@.len(),
            i <= n,
            forall|j: int|
                0 <= j < i && #[trigger] is_instance(d@, j) && gate_inputs(d@[j].gate.unwrap()).len() > 0
                    ==> d@[j].drivers.len() <= gate_inputs(d@[j].gate.unwrap()).len(),
            forall|j: int| 0 <= j < i ==> !(node_line_arrow(#[trigger] d@[j]) && node_line_key(d@[j])),
        decreases n - i,
    {
        match node_gate(d, i) {
            Some(g) => {
                assert(is_instance(d@, i as int));
                let ports = gate_input_count(&g);
                if ports > 0 && node_input_count(d, i) > ports {
                    return false;
                }
            },
            None => {},
        }
        let marks = node_line_marks(d, i);
        if marks.0 && marks.1 {
            return false;
        }
        i = i + 1;
    }
    let outs = netlist_output_names(d);
    let mut k: usize = 0;
    while k < outs.len()
        invariant
            k <= outs.len(),
            outs@.to_set() == output_names(*d),
            forall|m: int| 0 <= m < k ==> !(names_arrow(#[trigger] outs@[m]) && names_port_key(outs@[m])),
        decreases outs.len() - k,
    {
        if identifier_mentions_arrow(&outs[k]) && identifier_mentions_port_key(&outs[k]) {
            proof {
                let id = outs@[k as int];
                assert(outs@.to_set().contains(id));
                assert(output_names(*d).contains(id));
                let o = choose|o: (nat, nat, Identifier)| top_outputs(*d).contains(o) && id == o.2;
                assert(top_outputs(*d).contains(o));
            }
            return false;
        }
        k = k + 1;
    }
    let drivers = netlist_output_drivers(d);
    let mut k: usize = 0;
    while k < drivers.len()
        invariant
            k <= drivers.len(),
            drivers@.to_set() == output_driver_names(*d),
            forall|m: int| 0 <= m < k ==> !names_port_key(#[trigger] drivers@[m]),
        decreases drivers.len() - k,
    {
        if identifier_mentions_port_key(&drivers[k]) {
            proof {
                assert(drivers@.to_set().contains(drivers@[k as int]));
            }
            return false;
        }
        k = k + 1;
    }
    proof {
        assert forall|o: (nat, nat, Identifier)| #[trigger] top_outputs(*d).contains(o) implies !(names_arrow(o.2)
            && names_port_key(o.2)) by {
            assert(output_names(*d).contains(o.2));
            assert(outs@.to_set().contains(o.2));
            let m = choose|m: int| 0 <= m < outs@.len() && outs@[m] == o.2;
        }
        assert forall|id: Identifier| #[trigger] output_driver_names(*d).contains(id) implies !names_port_key(id) by {
            assert(drivers@.to_set().contains(id));
            let m = choose|m: int| 0 <= m < drivers@.len() && drivers@[m] == id;
        }
    }
    true
}

// ---------------------------------------------------------------------------
// Building and reading a netlist.
impl Design {
    /// An empty netlist named `name`.
    pub fn new(name: &str) -> (d: Design)
        requires
            identifier_text_ok(name@),
        ensures
            d@ == Seq::<ObjectView>::empty(),
            top_outputs(d) == Set::<(nat, nat, Identifier)>::empty(),
            netlist_name(d) == identifier_from_text(name@),
            well_formed(d),
    {
        netlist_new(name)
    }

    /// The number of nodes: principal inputs and instances.
    pub fn len(&self) -> (n: usize)
        ensures
            n == self@.len(),
    {
        netlist_len(self)
    }

    /// The cell type of node `i`, if it is an instance.
    pub fn gate(&self, i: usize) -> (g: Option<Gate>)
        requires
            i < self@.len(),
        ensures
            g == self@[i as int].gate,
    {
        node_gate(self, i)
    }

    /// The instance name of node `i`, if it is an instance.
    pub fn instance_name(&self, i: usize) -> (name: Option<Identifier>)
        requires
            i < self@.len(),
        ensures
            name == self@[i as int].name,
    {
        node_name(self, i)
    }

    /// The identifiers of the nets that node `i` drives.
    pub fn nets(&self, i: usize) -> (ids: Vec<Identifier>)
        requires
            i < self@.len(),
        ensures
            ids@ == self@[i as int].nets,
    {
        node_nets(self, i)
    }

    /// The attribute keys of node `i`.
    pub fn attribute_keys(&self, i: usize) -> (keys: Vec<String>)
        requires
            i < self@.len(),
        ensures
            keys@.map_values(|k: String| k@).to_set() == self@[i as int].attributes.dom(),
    {
        node_attribute_keys(self, i)
    }

    /// The identifier of the net that drives input `q` of instance `i`, if any.
    pub fn driver(&self, i: usize, q: usize) -> (id: Option<Identifier>)
        requires
            is_instance(self@, i as int),
            q < self@[i as int].drivers.len(),
        ensures
            id == driver_net(self@, self@[i as int].drivers[q as int]),
    {
        node_driver_net(self, i, q)
    }

    /// Adds a principal input driving a net named `name`; returns its node.
    pub fn add_input(&mut self, name: &str) -> (i: usize)
        requires
            identifier_text_ok(name@),
        ensures
            well_formed(*old(self)) ==> well_formed(*final(self)),
            netlist_name(*final(self)) == netlist_name(*old(self)),
            top_outputs(*final(self)) == top_outputs(*old(self)),
            i == old(self)@.len(),
            final(self)@ == old(self)@.push(input_object(identifier_from_text(name@))),
    {
        let i = netlist_len(self);
        let ghost before = *self;
        netlist_insert_input(self, name);
        proof {
            if well_formed(before) {
                lemma_wf_reshaped(before@, self@, top_outputs(before), top_outputs(*self));
            }
        }
        i
    }

    /// Adds an instance `inst` of `g` whose inputs are driven by the given
    /// outputs `(node, position)`; fails unless there is one per gate input.
    pub fn add_gate(&mut self, g: Gate, inst: Identifier, operands: Vec<(usize, usize)>) -> (r: Result<
        usize,
        Error,
    >)
        requires
            forall|k: int|
                0 <= k < operands@.len() ==> is_output_of(
                    old(self)@,
                    (#[trigger] operands@[k]).0 as int,
                    operands@[k].1 as int,
                ),
        ensures
            well_formed(*old(self)) ==> well_formed(*final(self)),
            netlist_name(*final(self)) == netlist_name(*old(self)),
            r is Ok ==> *final(self) == with_gate(*old(self), g, inst, operands@),
            top_outputs(*final(self)) == top_outputs(*old(self)),
            r is Ok <==> operands@.len() == gate_inputs(g).len(),
            r matches Ok(i) ==> i == old(self)@.len() && final(self)@ == old(self)@.push(
                instance_object(g, inst, operands@.map_values(|jp: (usize, usize)| driver_pair(jp))),
            ),
            r is Err ==> final(self)@ == old(self)@,
    {
        let i = netlist_len(self);
        let ghost before = *self;
        let ghost ops = operands@;
        let r = netlist_insert_gate(self, g, inst, operands);
        proof {
            if well_formed(before) {
                if r is Ok {
                    let drvs = ops.map_values(|jp: (usize, usize)| driver_pair(jp));
                    assert forall|q: int| 0 <= q < drvs.len() && #[trigger] drvs[q] is Some implies is_output_of(
                        self@,
                        drvs[q].unwrap().0 as int,
                        drvs[q].unwrap().1 as int,
                    ) by {
                        assert(is_output_of(before@, ops[q].0 as int, ops[q].1 as int));
                        assert(self@[ops[q].0 as int] == before@[ops[q].0 as int]);
                    }
                    assert forall|ii: int, q: int|
                        0 <= ii < self@.len() && 0 <= q < self@[ii].drivers.len() && (#[trigger] self@[ii].drivers[q]) is Some implies {
                        ||| ii < before@.len() && q < before@[ii].drivers.len() && self@[ii].drivers[q] == before@[ii].drivers[q]
                        ||| is_output_of(self@, self@[ii].drivers[q].unwrap().0 as int, self@[ii].drivers[q].unwrap().1 as int)
                    } by {
                        if ii == before@.len() {
                            assert(self@[ii].drivers == drvs);
                        }
                    }
                }
                lemma_wf_reshaped(before@, self@, top_outputs(before), top_outputs(*self));
            }
        }
        match r {
            Ok(()) => Ok(i),
            Err(e) => Err(e),
        }
    }

    /// Adds an instance `inst` of `g` with its inputs unconnected.
    pub fn add_gate_disconnected(&mut self, g: Gate, inst: Identifier) -> (i: usize)
        ensures
            well_formed(*old(self)) ==> well_formed(*final(self)),
            netlist_name(*final(self)) == netlist_name(*old(self)),
            *final(self) == with_gate_disconnected(*old(self), g, inst),
            top_outputs(*final(self)) == top_outputs(*old(self)),
            i == old(self)@.len(),
            final(self)@ == old(self)@.push(instance_object(g, inst, unconnected(gate_inputs(g).len()))),
    {
        let i = netlist_len(self);
        let ghost before = *self;
        netlist_insert_disconnected(self, g, inst);
        proof {
            if well_formed(before) {
                lemma_wf_reshaped(before@, self@, top_outputs(before), top_outputs(*self));
            }
        }
        i
    }

    /// Drives input `q` of instance `i` by output `p` of node `j`.
    pub fn connect(&mut self, i: usize, q: usize, j: usize, p: usize)
        requires
            is_instance(old(self)@, i as int),
            q < old(self)@[i as int].drivers.len(),
            is_output_of(old(self)@, j as int, p as int),
        ensures
            well_formed(*old(self)) ==> well_formed(*final(self)),
            netlist_name(*final(self)) == netlist_name(*old(self)),
            top_outputs(*final(self)) == top_outputs(*old(self)),
            final(self)@ == old(self)@.update(i as int, with_driver(old(self)@[i as int], q as int, j as nat, p as nat)),
    {
        let ghost before = *self;
        netlist_connect(self, i, q, j, p);
        proof {
            if well_formed(before) {
                lemma_wf_reshaped(before@, self@, top_outputs(before), top_outputs(*self));
            }
        }
    }

    /// Makes output `p` of node `j` a top-level output named `name`.
    pub fn expose(&mut self, j: usize, p: usize, name: &str)
        requires
            is_output_of(old(self)@, j as int, p as int),
            identifier_text_ok(name@),
        ensures
            well_formed(*old(self)) ==> well_formed(*final(self)),
            netlist_name(*final(self)) == netlist_name(*old(self)),
            final(self)@ == old(self)@,
            top_outputs(*final(self)) == top_outputs(*old(self)).insert(
                (j as nat, p as nat, identifier_from_text(name@)),
            ),
    {
        let ghost before = *self;
        netlist_expose(self, j, p, name);
        proof {
            if well_formed(before) {
                lemma_wf_reshaped(before@, self@, top_outputs(before), top_outputs(*self));
            }
        }
    }

    /// Puts an attribute `key` without a value on node `i`.
    pub fn set_attribute(&mut self, i: usize, key: &str)
        requires
            i < old(self)@.len(),
        ensures
            well_formed(*old(self)) ==> well_formed(*final(self)),
            netlist_name(*final(self)) == netlist_name(*old(self)),
            top_outputs(*final(self)) == top_outputs(*old(self)),
            final(self)@ == old(self)@.update(
                i as int,
                ObjectView { attributes: old(self)@[i as int].attributes.insert(key@, None), ..old(self)@[i as int] },
            ),
    {
        let ghost before = *self;
        netlist_set_attribute(self, i, key);
        proof {
            if well_formed(before) {
                lemma_wf_reshaped(before@, self@, top_outputs(before), top_outputs(*self));
            }
        }
    }
}

} // verus!
