//! Simple netlist passes.
//!
//! Each pass has a `name` (what `Display` writes for it) and a `run`
//! that reads or rewrites a [`Design`] and reports what it did.
use vstd::prelude::*;
use safety_net::{Error, Gate, Identifier};
use crate::netlist::{
    Design, ObjectView, gate_name, netlist_clean,
    netlist_clear_attribute, netlist_len, netlist_rename_sequential, netlist_verilog, node_attribute_keys,
    node_gate, gate_name_of, renamed_object, verilog_text, kept_nodes, cleaned_objects, is_instance, kept_outputs, top_outputs, clean_succeeds,
    net_number, name_number, sequential_text, lemma_rename_numbers_distinct, well_formed, lemma_wf_kept,
    lemma_wf_reshaped,
};
use crate::text::{decimal, push_decimal, push_text, text_of};
use crate::usage::{usage_report, usage_text};

verus! {

// ---------------------------------------------------------------------------
// Reports.
/// `Cleaned {removed} objects. {remaining} remain.`
pub open spec fn clean_report(removed: nat, remaining: nat) -> Seq<char> {
    "Cleaned "@ + decimal(removed) + " objects. "@ + decimal(remaining) + " remain."@
}

/// `Renamed {n} cells`
pub open spec fn rename_report(n: nat) -> Seq<char> {
    "Renamed "@ + decimal(n) + " cells"@
}

/// `Stripped attributes from {n} cells`
pub open spec fn strip_report(n: nat) -> Seq<char> {
    "Stripped attributes from "@ + decimal(n) + " cells"@
}

/// The cell types of the instances among nodes `0..n`, in node order.
pub open spec fn kinds_upto(objs: Seq<ObjectView>, n: nat) -> Seq<Identifier>
    decreases n,
{
    if n == 0 {
        Seq::empty()
    } else {
        let rest = kinds_upto(objs, (n - 1) as nat);
        match objs[n - 1].gate {
            Some(g) => rest.push(gate_name(g)),
            None => rest,
        }
    }
}

/// The cell types of all instances of a netlist, in node order.
pub open spec fn instance_kinds(objs: Seq<ObjectView>) -> Seq<Identifier> {
    kinds_upto(objs, objs.len())
}

/// The attribute keys that stripping keeps: `dont_touch` and `keep`.
pub open spec fn kept_attribute(key: Seq<char>) -> bool {
    key == "dont_touch"@ || key == "keep"@
}

/// Whether stripping removes an attribute from a node.
pub open spec fn strips(o: ObjectView) -> bool {
    exists|k: Seq<char>| o.attributes.dom().contains(k) && !kept_attribute(k)
}

/// The number of nodes among `0..n` that stripping changes.
pub open spec fn stripped_count(objs: Seq<ObjectView>, n: nat) -> nat
    decreases n,
{
    if n == 0 {
        0
    } else {
        stripped_count(objs, (n - 1) as nat) + if strips(objs[n - 1]) {
            1nat
        } else {
            0
        }
    }
}

/// A node with only its kept attributes left.
pub open spec fn stripped(o: ObjectView) -> ObjectView {
    ObjectView {
        attributes: o.attributes.restrict(o.attributes.dom().filter(|k: Seq<char>| kept_attribute(k))),
        ..o
    }
}

/// The cell types counted for `CellStats` are those of the instances, one
/// for each node that has a gate (whatever its inputs), in node order.
pub proof fn kinds_are_the_instances(objs: Seq<ObjectView>, n: nat)
    requires
        n <= objs.len(),
    ensures
        kinds_upto(objs, n) == objs.take(n as int).filter(|o: ObjectView| o.gate is Some).map_values(
            |o: ObjectView| gate_name(o.gate.unwrap()),
        ),
        kinds_upto(objs, n).len() == objs.take(n as int).filter(|o: ObjectView| o.gate is Some).len(),
    decreases n,
{
    let pred = |o: ObjectView| o.gate is Some;
    let f = |o: ObjectView| gate_name(o.gate.unwrap());
    let s = objs.take(n as int);
    reveal(Seq::filter);
    if n > 0 {
        kinds_are_the_instances(objs, (n - 1) as nat);
        assert(s.drop_last() =~= objs.take(n - 1));
        assert(s.last() == objs[n - 1]);
        if objs[n - 1].gate is Some {
            assert(s.filter(pred) == s.drop_last().filter(pred).push(s.last()));
            assert(s.filter(pred).map_values(f) =~= s.drop_last().filter(pred).map_values(f).push(f(s.last())));
        } else {
            assert(s.filter(pred) == s.drop_last().filter(pred));
        }
    } else {
        assert(s =~= Seq::<ObjectView>::empty());
        assert(s.filter(pred) =~= Seq::<ObjectView>::empty());
    }
}

/// Stripping keeps exactly the attributes `dont_touch` and `keep` of a node,
/// with their values, and removes every other key (such as `src`); it counts
/// the node as stripped exactly when it had a key other than those two.
pub proof fn strip_keeps_exactly_dont_touch_and_keep(o: ObjectView)
    ensures
        stripped(o).attributes.dom() == o.attributes.dom().intersect(set!["dont_touch"@, "keep"@]),
        forall|k: Seq<char>| #[trigger] stripped(o).attributes.dom().contains(k) ==> stripped(o).attributes[k]
            == o.attributes[k],
        stripped(o).gate == o.gate && stripped(o).name == o.name && stripped(o).nets == o.nets
            && stripped(o).drivers == o.drivers,
        strips(o) <==> !o.attributes.dom().subset_of(set!["dont_touch"@, "keep"@]),
{
    let kept = set!["dont_touch"@, "keep"@];
    assert(stripped(o).attributes.dom() =~= o.attributes.dom().intersect(kept));
    if strips(o) {
        let k = choose|k: Seq<char>| o.attributes.dom().contains(k) && !kept_attribute(k);
        assert(!kept.contains(k));
    }
    if !o.attributes.dom().subset_of(kept) {
        let k = choose|k: Seq<char>| o.attributes.dom().contains(k) && !kept.contains(k);
        assert(!kept_attribute(k));
    }
}

/// Stripping a stripped node changes nothing, and leaves nothing to strip.
pub proof fn lemma_strip_idempotent(o: ObjectView)
    ensures
        stripped(stripped(o)) == stripped(o),
        !strips(stripped(o)),
{
    assert(stripped(o).attributes.restrict(stripped(o).attributes.dom().filter(|k: Seq<char>| kept_attribute(k))) =~= stripped(o).attributes);
}

/// On a netlist whose nodes are all stripped, stripping changes no node.
pub proof fn lemma_strip_again(objs: Seq<ObjectView>, stripped_objs: Seq<ObjectView>)
    requires
        stripped_objs.len() == objs.len(),
        forall|j: int| 0 <= j < objs.len() ==> #[trigger] stripped_objs[j] == stripped(objs[j]),
    ensures
        stripped_count(stripped_objs, stripped_objs.len()) == 0,
        forall|j: int| 0 <= j < objs.len() ==> #[trigger] stripped(stripped_objs[j]) == stripped_objs[j],
{
    lemma_stripped_count_zero(objs, stripped_objs, stripped_objs.len());
    assert forall|j: int| 0 <= j < objs.len() implies #[trigger] stripped(stripped_objs[j]) == stripped_objs[j] by {
        lemma_strip_idempotent(objs[j]);
    }
}

proof fn lemma_stripped_count_zero(objs: Seq<ObjectView>, stripped_objs: Seq<ObjectView>, n: nat)
    requires
        n <= stripped_objs.len(),
        stripped_objs.len() == objs.len(),
        forall|j: int| 0 <= j < objs.len() ==> #[trigger] stripped_objs[j] == stripped(objs[j]),
    ensures
        stripped_count(stripped_objs, n) == 0,
    decreases n,
{
    if n > 0 {
        lemma_stripped_count_zero(objs, stripped_objs, (n - 1) as nat);
        lemma_strip_idempotent(objs[n - 1]);
    }
}

/// Whether `key` is kept by attribute stripping.
pub fn is_kept_attribute(key: &String) -> (kept: bool)
    ensures
        kept == kept_attribute(key@),
{
    let a = text_of("dont_touch");
    let b = text_of("keep");
    *key == a || *key == b
}

proof fn lemma_contains_push<A>(s: Seq<A>, x: A, a: A)
    ensures
        s.push(x).contains(a) <==> (s.contains(a) || a == x),
{
    if s.contains(a) {
        let m = choose|m: int| 0 <= m < s.len() && s[m] == a;
        assert(s.push(x)[m] == a);
    }
    if a == x {
        assert(s.push(x)[s.len() as int] == a);
    }
    if s.push(x).contains(a) {
        let m = choose|m: int| 0 <= m < s.push(x).len() && s.push(x)[m] == a;
        if m < s.len() {
            assert(s[m] == a);
        }
    }
}

// ---------------------------------------------------------------------------
// Passes.
/// A dummy pass that emits the Verilog of the netlist.
#[derive(Debug)]
pub struct PrintVerilog;

impl PrintVerilog {
    /// The name of the pass.
    pub fn name(&self) -> (s: String)
        ensures
            s@ == "PrintVerilog"@,
    {
        text_of("PrintVerilog")
    }

    /// The Verilog of the netlist.
    pub fn run(&self, d: &mut Design) -> (r: Result<String, Error>)
        requires
            crate::netlist::verilog_safe(old(d)@),
        ensures
            *final(d) == *old(d),
            r matches Ok(s) && s@ == verilog_text(*old(d)),
    {
        Ok(netlist_verilog(d))
    }
}

/// Print the dot graph of the netlist
#[derive(Debug)]
pub struct DotGraph;

impl DotGraph {
    /// The name of the pass.
    pub fn name(&self) -> (s: String)
        ensures
            s@ == "DotGraph"@,
    {
        text_of("DotGraph")
    }

    /// The netlist as a Graphviz graph.
    pub fn run(&self, d: &mut Design) -> (r: Result<String, Error>)
        requires
            crate::netlist::dot_safe(*old(d)),
        ensures
            *final(d) == *old(d),
            r matches Ok(s) && s@ == crate::netlist::dot_text(*old(d)),
    {
        Ok(crate::netlist::netlist_dot(d))
    }
}

/// Clean the netlist.
#[derive(Debug)]
pub struct Clean;

impl Clean {
    /// The name of the pass.
    pub fn name(&self) -> (s: String)
        ensures
            s@ == "Clean"@,
    {
        text_of("Clean")
    }

    /// Removes unused instances until the netlist stops changing, and reports
    /// how many nodes it removed and how many remain.
    pub fn run(&self, d: &mut Design) -> (r: Result<String, Error>)
        ensures
            well_formed(*old(d)) ==> well_formed(*final(d)),
            crate::netlist::netlist_name(*final(d)) == crate::netlist::netlist_name(*old(d)),
            r is Ok <==> clean_succeeds(*old(d)),
            r matches Err(e) ==> e == crate::netlist::clean_error(*old(d)),
            !crate::netlist::fanout_builds(*old(d)) ==> (r matches Err(e) && e
                == crate::netlist::fanout_error(*old(d))),
            old(d)@.len() == 0 ==> r is Ok,
            exists|keep: Seq<nat>|
                {
                    &&& kept_nodes(old(d)@, final(d)@, keep)
                    &&& kept_outputs(top_outputs(*old(d)), top_outputs(*final(d)), keep)
                },
            r is Ok ==> final(d)@ == cleaned_objects(*old(d)),
            r is Ok ==> clean_succeeds(*final(d)),
            r is Ok ==> cleaned_objects(*final(d)) == final(d)@,
            r matches Ok(s) ==> final(d)@.len() <= old(d)@.len() && s@ == clean_report(
                (old(d)@.len() - final(d)@.len()) as nat,
                final(d)@.len(),
            ),
    {
        let ghost before = d@;
        let ghost before_design = *d;
        let cleaned = netlist_clean(d);
        proof {
            let keep = choose|keep: Seq<nat>|
                {
                    &&& kept_nodes(before, d@, keep)
                    &&& kept_outputs(top_outputs(before_design), top_outputs(*d), keep)
                };
            assert(kept_nodes(before, d@, keep));
            assert(kept_outputs(top_outputs(before_design), top_outputs(*d), keep));
            if well_formed(before_design) {
                lemma_wf_kept(before, d@, keep, top_outputs(before_design), top_outputs(*d));
            }
        }
        let removed = match cleaned {
            Ok(n) => n,
            Err(e) => {
                return Err(e);
            },
        };
        let remaining = netlist_len(d);
        let mut s = text_of("Cleaned ");
        push_decimal(&mut s, removed);
        push_text(&mut s, " objects. ");
        push_decimal(&mut s, remaining);
        push_text(&mut s, " remain.");
        Ok(s)
    }
}

/// Rename wires and instances sequentially __0__, __1__, ...
#[derive(Debug)]
pub struct RenameNets;

impl RenameNets {
    /// The name of the pass.
    pub fn name(&self) -> (s: String)
        ensures
            s@ == "RenameNets"@,
    {
        text_of("RenameNets")
    }

    /// Renames the nets of the instances `__0__`, `__1__`, ... in node order,
    /// then the instances, continuing the count; reports the number of nodes.
    pub fn run(&self, d: &mut Design) -> (r: Result<String, Error>)
        ensures
            well_formed(*old(d)) ==> well_formed(*final(d)),
            crate::netlist::netlist_name(*final(d)) == crate::netlist::netlist_name(*old(d)),
            top_outputs(*final(d)) == top_outputs(*old(d)),
            final(d)@.len() == old(d)@.len(),
            forall|j: int| 0 <= j < old(d)@.len() ==> #[trigger] final(d)@[j] == renamed_object(old(d)@, j),
            r matches Ok(s) && s@ == rename_report(old(d)@.len()),
            forall|j1: int, p1: int, j2: int, p2: int|
                is_instance(old(d)@, j1) && is_instance(old(d)@, j2) && 0 <= p1 < old(d)@[j1].nets.len() && 0
                    <= p2 < old(d)@[j2].nets.len() && (j1, p1) != (j2, p2) ==> #[trigger] final(d)@[j1].nets[p1]
                    != #[trigger] final(d)@[j2].nets[p2],
            forall|j1: int, j2: int|
                is_instance(old(d)@, j1) && is_instance(old(d)@, j2) && j1 != j2 ==> #[trigger] final(d)@[j1].name
                    != #[trigger] final(d)@[j2].name,
            forall|j1: int, p1: int, j2: int|
                is_instance(old(d)@, j1) && 0 <= p1 < old(d)@[j1].nets.len() && is_instance(old(d)@, j2) ==> Some(
                    #[trigger] final(d)@[j1].nets[p1],
                ) != (#[trigger] final(d)@[j2]).name,
    {
        let ghost start = d@;
        match netlist_rename_sequential(d) {
            Ok(()) => {},
            Err(e) => {
                return Err(e);
            },
        }
        proof {
            lemma_rename_numbers_distinct(start);
            let after = d@;
            assert forall|j1: int, p1: int, j2: int, p2: int|
                is_instance(start, j1) && is_instance(start, j2) && 0 <= p1 < start[j1].nets.len() && 0 <= p2
                    < start[j2].nets.len() && (j1, p1) != (j2, p2) implies #[trigger] after[j1].nets[p1]
                    != #[trigger] after[j2].nets[p2] by {
                if after[j1].nets[p1] == after[j2].nets[p2] {
                    assert(net_number(start, j1, p1) != net_number(start, j2, p2));
                    lemma_sequential_text_injective(net_number(start, j1, p1), net_number(start, j2, p2));
                }
            }
            assert forall|j1: int, j2: int|
                is_instance(start, j1) && is_instance(start, j2) && j1 != j2 implies #[trigger] after[j1].name
                    != #[trigger] after[j2].name by {
                if after[j1].name == after[j2].name {
                    assert(name_number(start, j1) != name_number(start, j2));
                    lemma_sequential_text_injective(name_number(start, j1), name_number(start, j2));
                }
            }
            assert forall|j1: int, p1: int, j2: int|
                is_instance(start, j1) && 0 <= p1 < start[j1].nets.len() && is_instance(start, j2) implies Some(
                    #[trigger] after[j1].nets[p1],
                ) != (#[trigger] after[j2]).name by {
                if Some(after[j1].nets[p1]) == after[j2].name {
                    assert(net_number(start, j1, p1) < name_number(start, j2));
                    lemma_sequential_text_injective(net_number(start, j1, p1), name_number(start, j2));
                }
            }
            if well_formed(*old(d)) {
                assert forall|k: int| 0 <= k < start.len() implies (#[trigger] after[k]).nets.len() == start[k].nets.len()
                    && after[k].drivers == start[k].drivers by {
                    assert(after[k] == renamed_object(start, k));
                }
                lemma_wf_reshaped(start, after, top_outputs(*old(d)), top_outputs(*d));
            }
        }
        let n = netlist_len(d);
        let mut s = text_of("Renamed ");
        push_decimal(&mut s, n);
        push_text(&mut s, " cells");
        Ok(s)
    }
}

proof fn lemma_sequential_text_injective(a: nat, b: nat)
    requires
        sequential_text(a) == sequential_text(b),
    ensures
        a == b,
{
    let da = decimal(a);
    let db = decimal(b);
    assert(sequential_text(a).len() == da.len() + 4);
    assert(da =~= sequential_text(a).subrange(2, da.len() as int + 2));
    assert(db =~= sequential_text(b).subrange(2, db.len() as int + 2));
    crate::text::lemma_decimal_injective(a, b);
}

/// Prints stats on all the cell types in the netlist.
#[derive(Debug)]
pub struct CellStats;

impl CellStats {
    /// The name of the pass.
    pub fn name(&self) -> (s: String)
        ensures
            s@ == "CellStats"@,
    {
        text_of("CellStats")
    }

    /// The usage report of the gates of the instances (see
    /// [`usage_report`]): each gate once with its number of instances, most
    /// used first, then the total.
    pub fn run(&self, d: &mut Design) -> (r: Result<String, Error>)
        ensures
            *final(d) == *old(d),
            r matches Ok(s) && s@ == usage_report(instance_kinds(old(d)@)),
    {
        let n = netlist_len(d);
        let mut kinds: Vec<Identifier> = Vec::new();
        let mut i: usize = 0;
        while i < n
            invariant
                n == d@.len(),
                i <= n,
                kinds@ == kinds_upto(d@, i as nat),
            decreases n - i,
        {
            match node_gate(d, i) {
                Some(g) => {
                    kinds.push(gate_name_of(&g));
                },
                None => {},
            }
            i = i + 1;
        }
        Ok(usage_text(&kinds))
    }
}

/// List all nets in the netlist
#[derive(Debug)]
pub struct ListNets;

impl ListNets {
    /// The name of the pass.
    pub fn name(&self) -> (s: String)
        ensures
            s@ == "ListNets"@,
    {
        text_of("ListNets")
    }

    /// The net listing (see [`crate::listing::listing`]), or the error of
    /// building the fan-out table.
    pub fn run(&self, d: &mut Design) -> (r: Result<String, Error>)
        requires
            crate::netlist::fanout_builds(*old(d)) ==> crate::netlist::connected_inputs_are_ports(
                old(d)@,
            ),
        ensures
            *final(d) == *old(d),
            r is Ok <==> crate::netlist::fanout_builds(*old(d)),
            crate::netlist::top_outputs(*old(d)).is_empty() ==> r is Ok,
            r matches Err(e) ==> e == crate::netlist::fanout_error(*old(d)),
            r matches Ok(s) ==> s@ == crate::listing::listing(old(d)@),
    {
        crate::listing::list_nets(d)
    }
}

/// Strip all cell attributes except 'dont_touch` and `keep`
#[derive(Debug)]
pub struct StripAttributes;

impl StripAttributes {
    /// The name of the pass.
    pub fn name(&self) -> (s: String)
        ensures
            s@ == "StripAttributes"@,
    {
        text_of("StripAttributes")
    }

    /// Removes every attribute but `dont_touch` and `keep` from every node,
    /// and reports how many nodes lost an attribute.
    pub fn run(&self, d: &mut Design) -> (r: Result<String, Error>)
        ensures
            well_formed(*old(d)) ==> well_formed(*final(d)),
            crate::netlist::netlist_name(*final(d)) == crate::netlist::netlist_name(*old(d)),
            top_outputs(*final(d)) == top_outputs(*old(d)),
            final(d)@.len() == old(d)@.len(),
            forall|j: int| 0 <= j < old(d)@.len() ==> #[trigger] final(d)@[j] == stripped(old(d)@[j]),
            r matches Ok(s) && s@ == strip_report(stripped_count(old(d)@, old(d)@.len())),
    {
        let ghost start = d@;
        let ghost outputs = top_outputs(*d);
        let n = netlist_len(d);
        let mut count: usize = 0;
        let mut i: usize = 0;
        while i < n
            invariant
                top_outputs(*d) == outputs,
                crate::netlist::netlist_name(*d) == crate::netlist::netlist_name(*old(d)),
                n == start.len(),
                i <= n,
                d@.len() == n,
                count == stripped_count(start, i as nat),
                count <= i,
                forall|j: int| 0 <= j < i ==> #[trigger] d@[j] == stripped(start[j]),
                forall|j: int| i <= j < n ==> #[trigger] d@[j] == start[j],
            decreases n - i,
        {
            let keys = node_attribute_keys(d, i);
            let ghost views = keys@.map_values(|k: String| k@);
            let ghost orig = d@[i as int];
            let mut modified = false;
            let mut k: usize = 0;
            proof {
                assert(orig.attributes.restrict(orig.attributes.dom().filter(
                    |a: Seq<char>| kept_attribute(a) || !views.take(0).contains(a),
                )) =~= orig.attributes);
            }
            while k < keys.len()
                invariant
                    top_outputs(*d) == outputs,
                    crate::netlist::netlist_name(*d) == crate::netlist::netlist_name(*old(d)),
                    n == start.len(),
                    i < n,
                    d@.len() == n,
                    k <= keys.len(),
                    views == keys@.map_values(|k: String| k@),
                    views.to_set() == orig.attributes.dom(),
                    views.no_duplicates(),
                    orig == start[i as int],
                    forall|j: int| 0 <= j < n && j != i ==> #[trigger] d@[j] == (if j < i {
                        stripped(start[j])
                    } else {
                        start[j]
                    }),
                    d@[i as int] == (ObjectView {
                        attributes: orig.attributes.restrict(orig.attributes.dom().filter(
                            |a: Seq<char>| kept_attribute(a) || !views.take(k as int).contains(a),
                        )),
                        ..orig
                    }),
                    modified <==> exists|m: int| 0 <= m < k && !kept_attribute(#[trigger] views[m]),
                decreases keys.len() - k,
            {
                let ghost before = d@[i as int];
                let kept = is_kept_attribute(&keys[k]);
                if !kept {
                    netlist_clear_attribute(d, i, &keys[k]);
                    modified = true;
                }
                proof {
                    assert(views.take(k as int + 1) =~= views.take(k as int).push(views[k as int]));
                    assert forall|a: Seq<char>| #[trigger] views.take(k as int + 1).contains(a) <==> (
                    views.take(k as int).contains(a) || a == views[k as int]) by {
                        lemma_contains_push(views.take(k as int), views[k as int], a);
                    }
                    assert(d@[i as int].attributes =~= orig.attributes.restrict(orig.attributes.dom().filter(
                        |a: Seq<char>| kept_attribute(a) || !views.take(k as int + 1).contains(a),
                    )));
                    assert(d@[i as int] =~= (ObjectView {
                        attributes: orig.attributes.restrict(orig.attributes.dom().filter(
                            |a: Seq<char>| kept_attribute(a) || !views.take(k as int + 1).contains(a),
                        )),
                        ..orig
                    }));
                    if !kept {
                        assert(!kept_attribute(views[k as int]));
                    }
                }
                k = k + 1;
            }
            proof {
                assert(views.take(keys.len() as int) =~= views);
                assert(d@[i as int].attributes =~= orig.attributes.restrict(orig.attributes.dom().filter(|a: Seq<char>| kept_attribute(a))));
                if modified {
                    let m = choose|m: int| 0 <= m < keys.len() && !kept_attribute(#[trigger] views[m]);
                    assert(orig.attributes.dom().contains(views[m]));
                    assert(strips(orig));
                } else {
                    if strips(orig) {
                        let a = choose|a: Seq<char>| orig.attributes.dom().contains(a) && !kept_attribute(a);
                        assert(views.to_set().contains(a));
                        let m = views.index_of(a);
                        assert(!kept_attribute(views[m]));
                    }
                }
            }
            if modified {
                count = count + 1;
            }
            i = i + 1;
        }
        proof {
            if well_formed(*old(d)) {
                assert forall|k: int| 0 <= k < start.len() implies (#[trigger] d@[k]).nets.len() == start[k].nets.len()
                    && d@[k].drivers == start[k].drivers by {
                    assert(d@[k] == stripped(start[k]));
                }
                lemma_wf_reshaped(start, d@, outputs, top_outputs(*d));
            }
        }
        let mut s = text_of("Stripped attributes from ");
        push_decimal(&mut s, count);
        push_text(&mut s, " cells");
        Ok(s)
    }
}

/// The number of `true`s in `flags`.
pub open spec fn count_true(flags: Seq<bool>) -> nat
    decreases flags.len(),
{
    if flags.len() == 0 {
        0
    } else {
        count_true(flags.drop_last()) + if flags.last() {
            1nat
        } else {
            0
        }
    }
}

/// `Remapped {n} cells`
pub open spec fn remap_report(n: nat) -> Seq<char> {
    "Remapped "@ + decimal(n) + " cells"@
}

/// What remapping did to node `i`: either the map gave gate `g` of the
/// instance a new gate, which the node now has (`remapped`), or the node is
/// as it was, and the map gave nothing for its gate, if it has one.
pub open spec fn remap_outcome<F: Fn(&Gate) -> Option<Gate>>(
    map: F,
    before: ObjectView,
    after: ObjectView,
    remapped: bool,
) -> bool {
    if remapped {
        before.gate matches Some(g) && exists|n: Gate|
            map.ensures((&g,), Some(n)) && after == ObjectView { gate: Some(n), ..before }
    } else {
        after == before && (before.gate matches Some(g) ==> map.ensures((&g,), None))
    }
}

/// A pass that remaps cells according to some arbitrary cell mapping function.
pub struct RemapCells<F> {
    map: F,
}

impl<F: Fn(&Gate) -> Option<Gate>> RemapCells<F> {
    /// Create a new pass for remapping cells.
    pub fn new(map: F) -> (p: Self)
        ensures
            p.mapping() == map,
    {
        RemapCells { map }
    }

    /// The mapping function of the pass.
    pub closed spec fn mapping(&self) -> F {
        self.map
    }

    /// The name of the pass.
    pub fn name(&self) -> (s: String)
        ensures
            s@ == "RemapCells"@,
    {
        text_of("RemapCells")
    }

    /// Gives every instance for whose gate the map returns a gate that gate
    /// instead, and reports how many instances it changed.
    pub fn run(&self, d: &mut Design) -> (r: Result<String, Error>)
        requires
            forall|g: Gate| #[trigger] self.mapping().requires((&g,)),
        ensures
            well_formed(*old(d)) ==> well_formed(*final(d)),
            crate::netlist::netlist_name(*final(d)) == crate::netlist::netlist_name(*old(d)),
            top_outputs(*final(d)) == top_outputs(*old(d)),
            final(d)@.len() == old(d)@.len(),
            exists|flags: Seq<bool>|
                {
                    &&& flags.len() == old(d)@.len()
                    &&& forall|i: int|
                        0 <= i < old(d)@.len() ==> remap_outcome(
                            self.mapping(),
                            old(d)@[i],
                            final(d)@[i],
                            #[trigger] flags[i],
                        )
                    &&& r matches Ok(s) && s@ == remap_report(#[trigger] count_true(flags))
                },
    {
        let ghost start = d@;
        let n = netlist_len(d);
        let mut count: usize = 0;
let ghost outputs = top_outputs(*d);
                let ghost mut flags: Seq<bool> = Seq::empty();
        let mut i: usize = 0;
        while i < n
            invariant
                top_outputs(*d) == outputs,
                crate::netlist::netlist_name(*d) == crate::netlist::netlist_name(*old(d)),
                n == start.len(),
                d@.len() == n,
                i <= n,
                forall|g: Gate| #[trigger] self.mapping().requires((&g,)),
                flags.len() == i,
                count == count_true(flags),
                count <= i,
                forall|j: int| 0 <= j < i ==> remap_outcome(self.mapping(), start[j], d@[j], #[trigger] flags[j]),
                forall|j: int| i <= j < n ==> #[trigger] d@[j] == start[j],
            decreases n - i,
        {
            let ghost before = d@;
            let mut changed = false;
            match node_gate(d, i) {
                Some(g) => {
                    match (self.map)(&g) {
                        Some(new_gate) => {
                            crate::netlist::netlist_set_gate(d, i, new_gate);
                            changed = true;
                        },
                        None => {},
                    }
                },
                None => {},
            }
            proof {
                assert(flags.push(changed).drop_last() =~= flags);
                flags = flags.push(changed);
                assert(remap_outcome(self.mapping(), start[i as int], d@[i as int], flags[i as int]));
            }
            if changed {
                count = count + 1;
            }
            i = i + 1;
        }
        proof {
            if well_formed(*old(d)) {
                assert forall|k: int| 0 <= k < start.len() implies (#[trigger] d@[k]).nets.len() == start[k].nets.len()
                    && d@[k].drivers == start[k].drivers by {
                    assert(remap_outcome(self.mapping(), start[k], d@[k], flags[k]));
                }
                lemma_wf_reshaped(start, d@, outputs, top_outputs(*d));
            }
        }
        let mut s = text_of("Remapped ");
        push_decimal(&mut s, count);
        push_text(&mut s, " cells");
        assert(s@ == remap_report(count_true(flags)));
        Ok(s)
    }
}

/// The rewrite patterns of pattern folding, in the order in which they are checked.
pub open spec fn fold_patterns() -> Seq<Seq<char>> {
    seq![
        "AndIdentity"@,
        "OrIdentity"@,
        "AndAbsorb"@,
        "OrAbsorb"@,
        "NandIdentity"@,
        "NorIdentity"@,
        "NandAbsorb"@,
        "NorAbsorb"@,
        "DoubleNegation"@,
        "Idempotent"@,
        "MonotoneFold"@,
    ]
}

/// A pass that runs all patterns to a covergence.
/// Checks patterns in insertion order
/// AndIdentity, OrIdentity, AndAbsorb, OrAbsorb, NandIdentity, NorIdentity, NandAbsorb, NorAbsorb,
/// DoubleNegation, Idempotent, MonotoneFold
#[derive(Debug)]
pub struct FoldAllPatterns;

impl FoldAllPatterns {
    /// The name of the pass.
    pub fn name(&self) -> (s: String)
        ensures
            s@ == "FoldAllPatterns"@,
    {
        text_of("FoldAllPatterns")
    }

    /// The names of the patterns that the pass folds, in the order in which
    /// it checks them.
    pub fn patterns(&self) -> (names: Vec<String>)
        ensures
            names@.map_values(|s: String| s@) == fold_patterns(),
    {
        let mut names: Vec<String> = Vec::new();
        names.push(text_of("AndIdentity"));
        names.push(text_of("OrIdentity"));
        names.push(text_of("AndAbsorb"));
        names.push(text_of("OrAbsorb"));
        names.push(text_of("NandIdentity"));
        names.push(text_of("NorIdentity"));
        names.push(text_of("NandAbsorb"));
        names.push(text_of("NorAbsorb"));
        names.push(text_of("DoubleNegation"));
        names.push(text_of("Idempotent"));
        names.push(text_of("MonotoneFold"));
        assert(names@.map_values(|s: String| s@) =~= fold_patterns());
        names
    }
}

/// The built-in passes, by name.
#[derive(Debug, Clone, Copy, PartialEq, Eq, Structural)]
pub enum BasicPasses {
    /// Prints stats on all the cell types in the netlist.
    CellStats,
    /// A pass that cleans the netlist.
    Clean,
    /// Deduplicate constant nets in the netlist.
    DedupConsts,
    /// A pass that prints the dot graph of the netlist.
    DotGraph,
    /// Inverts the clock of a cell that has a `IS_CLK_INVERTED` param
    ExtractInvClock,
    /// A pass that runs all built-in patterns to a fixed point.
    FoldAllPatterns,
    /// Insert a pair of inverters at every point in the netlist.
    InsertInv,
    /// Insert a scan chain along the FDREs
    InsertScanChain,
    /// List all nets in the netlist
    ListNets,
    /// A dummy pass that emits the Verilog of the netlist.
    PrintVerilog,
    /// Renames nets/instances sequentially __0__, __1__, ...
    RenameNets,
    /// Strip all cell attributes except 'dont_touch` and `keep`
    StripAttributes,
}

/// The name of a registered pass: the name of its variant.
pub open spec fn pass_name(p: BasicPasses) -> Seq<char> {
    match p {
        BasicPasses::CellStats => "CellStats"@,
        BasicPasses::Clean => "Clean"@,
        BasicPasses::DedupConsts => "DedupConsts"@,
        BasicPasses::DotGraph => "DotGraph"@,
        BasicPasses::ExtractInvClock => "ExtractInvClock"@,
        BasicPasses::FoldAllPatterns => "FoldAllPatterns"@,
        BasicPasses::InsertInv => "InsertInv"@,
        BasicPasses::InsertScanChain => "InsertScanChain"@,
        BasicPasses::ListNets => "ListNets"@,
        BasicPasses::PrintVerilog => "PrintVerilog"@,
        BasicPasses::RenameNets => "RenameNets"@,
        BasicPasses::StripAttributes => "StripAttributes"@,
    }
}

impl BasicPasses {
    /// The name of the pass (what `Display` writes for it).
    pub fn name(&self) -> (s: String)
        ensures
            s@ == pass_name(*self),
    {
        match self {
            BasicPasses::CellStats => text_of("CellStats"),
            BasicPasses::Clean => text_of("Clean"),
            BasicPasses::DedupConsts => text_of("DedupConsts"),
            BasicPasses::DotGraph => text_of("DotGraph"),
            BasicPasses::ExtractInvClock => text_of("ExtractInvClock"),
            BasicPasses::FoldAllPatterns => text_of("FoldAllPatterns"),
            BasicPasses::InsertInv => text_of("InsertInv"),
            BasicPasses::InsertScanChain => text_of("InsertScanChain"),
            BasicPasses::ListNets => text_of("ListNets"),
            BasicPasses::PrintVerilog => text_of("PrintVerilog"),
            BasicPasses::RenameNets => text_of("RenameNets"),
            BasicPasses::StripAttributes => text_of("StripAttributes"),
        }
    }
}

} // verus!
