//! Passes that rewrite the structure of the netlist.
use vstd::prelude::*;
use safety_net::{Error, Gate, Identifier, Logic};
use crate::netlist::{
    Design, ObjectView, constant_gate, constant_named, copy_identifier, fanout_builds, gate_constant,
    gate_input_count, gate_inputs, gate_name, gate_name_of, gate_output_count, gate_outputs,
    gate_without_parameters, identifier_from_text, identifier_text, join_identifiers, make_identifier,
    netlist_clean, netlist_fanout_check, netlist_len,
    netlist_replace_nets, node_attribute_keys, node_gate, replacements_ok, identifier_join, unconnected,
    gate_inputs_of, instance_object, constant_cell, cleaned_objects, kept_nodes,
    same_but_wiring, redirect, plain_text, ends_with, word_char, identifier_escaped, replacement_applies,
    clean_succeeds, top_outputs, moved_outputs, kept_outputs, netlist_objects, with_gate_disconnected,
    logical_gate, with_gate, with_replacements, fanout_error, clean_error,
};
use crate::text::text_of;

verus! {

/// Whether `g` is a lone constant `c`: `Gate::get_constant` reads it as `c`,
/// and it has no input and one output (a gate has no parameter).
pub open spec fn simple_constant(g: Gate, c: Logic) -> bool {
    &&& constant_named(identifier_text(gate_name(g))) == Some(c)
    &&& gate_inputs(g).len() == 0
    &&& gate_outputs(g).len() == 1
}

/// Whether node `o` is an instance of a lone constant `c`.
pub open spec fn constant_node(o: ObjectView, c: Logic) -> bool {
    o.gate matches Some(g) && simple_constant(g, c)
}

/// The nodes among `0..n` that are instances of a lone constant `c`, in order.
pub open spec fn constant_nodes(objs: Seq<ObjectView>, c: Logic, n: nat) -> Seq<nat>
    decreases n,
{
    if n == 0 {
        Seq::empty()
    } else {
        let rest = constant_nodes(objs, c, (n - 1) as nat);
        if constant_node(objs[n - 1], c) {
            rest.push((n - 1) as nat)
        } else {
            rest
        }
    }
}

/// Whether every instance of a lone constant that carries no attribute (one
/// that deduplication merges) drives exactly one net, which replacing its
/// uses needs.
pub open spec fn constants_drive_one_net(objs: Seq<ObjectView>) -> bool {
    forall|i: int, c: Logic|
        0 <= i < objs.len() && #[trigger] constant_node(objs[i], c) && objs[i].attributes.dom() == Set::<
            Seq<char>,
        >::empty() ==> objs[i].nets.len() == 1
}

/// Whether every instance of a lone constant without attributes drives
/// exactly one net (see [`constants_drive_one_net`]); `DedupConsts` needs it.
pub fn constants_ready(d: &Design) -> (ready: bool)
    ensures
        ready == constants_drive_one_net(d@),
{
    let n = netlist_len(d);
    let mut i: usize = 0;
    while i < n
        invariant
            n == d@.len(),
            i <= n,
            forall|j: int, c: Logic|
                0 <= j < i && #[trigger] constant_node(d@[j], c) && d@[j].attributes.dom() == Set::<
                    Seq<char>,
                >::empty() ==> d@[j].nets.len() == 1,
        decreases n - i,
    {
        match node_gate(d, i) {
            Some(g) => {
                let k = gate_constant(&g);
                let simple = gate_input_count(&g) == 0 && gate_output_count(&g) == 1;
                let keys = node_attribute_keys(d, i);
                proof {
                    if keys.len() > 0 {
                        let mv = keys@.map_values(|k: String| k@);
                        assert(mv[0] == keys@[0]@);
                        assert(mv.contains(keys@[0]@));
                        assert(mv.to_set().contains(keys@[0]@));
                    } else {
                        assert(keys@.map_values(|k: String| k@).to_set() =~= Set::<Seq<char>>::empty());
                    }
                }
                if k.is_some() && simple && keys.len() == 0 {
                    let nets = crate::netlist::node_nets(d, i);
                    if nets.len() != 1 {
                        assert(constant_node(d@[i as int], k.unwrap()));
                        return false;
                    }
                }
                assert forall|c: Logic|
                    #[trigger] constant_node(d@[i as int], c) && d@[i as int].attributes.dom() == Set::<
                        Seq<char>,
                    >::empty() implies d@[i as int].nets.len() == 1 by {
                    assert(k == Some(c));
                }
            },
            None => {},
        }
        i = i + 1;
    }
    true
}

/// Whether `g` is a lone constant `c` (the test that `DedupConsts` makes).
pub fn is_simple_constant(g: &Gate, c: Logic) -> (b: bool)
    ensures
        b == simple_constant(*g, c),
{
    let k = gate_constant(g);
    let same = match (k, c) {
        (Some(Logic::X), Logic::X) => true,
        (Some(Logic::Z), Logic::Z) => true,
        (Some(Logic::False), Logic::False) => true,
        (Some(Logic::True), Logic::True) => true,
        _ => false,
    };
    same && gate_input_count(g) == 0 && gate_output_count(g) == 1 && gate_without_parameters(g)
}

proof fn lemma_constant_nodes_prefix(a: Seq<ObjectView>, b: Seq<ObjectView>, c: Logic, n: nat)
    requires
        n <= a.len(),
        n <= b.len(),
        forall|j: int| 0 <= j < n ==> a[j] == b[j],
    ensures
        constant_nodes(a, c, n) == constant_nodes(b, c, n),
    decreases n,
{
    if n > 0 {
        lemma_constant_nodes_prefix(a, b, c, (n - 1) as nat);
    }
}

proof fn lemma_constant_nodes_facts(objs: Seq<ObjectView>, c: Logic, n: nat)
    requires
        n <= objs.len(),
    ensures
        forall|k: int|
            0 <= k < constant_nodes(objs, c, n).len() ==> #[trigger] constant_nodes(objs, c, n)[k]
                < n && constant_node(objs[constant_nodes(objs, c, n)[k] as int], c),
        forall|k: int, l: int|
            0 <= k < l < constant_nodes(objs, c, n).len() ==> #[trigger] constant_nodes(
                objs,
                c,
                n,
            )[k] < #[trigger] constant_nodes(objs, c, n)[l],
    decreases n,
{
    if n > 0 {
        lemma_constant_nodes_facts(objs, c, (n - 1) as nat);
        let rest = constant_nodes(objs, c, (n - 1) as nat);
        let cn = constant_nodes(objs, c, n);
        assert forall|k: int| 0 <= k < cn.len() implies #[trigger] cn[k] < n && constant_node(
            objs[cn[k] as int],
            c,
        ) by {
            if k < rest.len() {
                assert(cn[k] == rest[k]);
            }
        }
        assert forall|k: int, l: int| 0 <= k < l < cn.len() implies #[trigger] cn[k] < #[trigger] cn[l] by {
            assert(cn[k] == rest[k]);
            if l < rest.len() {
                assert(cn[l] == rest[l]);
            }
        }
    }
}

/// The nodes among `0..n` that are instances of a lone constant `c`, in order.
fn constant_scan(d: &Design, c: Logic, n: usize) -> (nodes: Vec<usize>)
    requires
        n <= d@.len(),
    ensures
        nodes@.map_values(|i: usize| i as nat) == constant_nodes(d@, c, n as nat),
{
    let mut nodes: Vec<usize> = Vec::new();
    let mut i: usize = 0;
    while i < n
        invariant
            n <= d@.len(),
            i <= n,
            nodes@.map_values(|i: usize| i as nat) == constant_nodes(d@, c, i as nat),
        decreases n - i,
    {
        match node_gate(d, i) {
            Some(g) => {
                if is_simple_constant(&g, c) {
                    let ghost before = nodes@.map_values(|i: usize| i as nat);
                    nodes.push(i);
                    assert(nodes@.map_values(|i: usize| i as nat) =~= before.push(i as nat));
                }
            },
            None => {},
        }
        i = i + 1;
    }
    nodes
}

/// The nodes of the netlist that are instances of a lone constant `c`, in
/// order: those that `DedupConsts` merges for `c`.
pub fn constant_matches(d: &Design, c: Logic) -> (nodes: Vec<usize>)
    ensures
        nodes@.map_values(|i: usize| i as nat) == constant_nodes(d@, c, d@.len()),
{
    let n = netlist_len(d);
    constant_scan(d, c, n)
}

/// The constant values that deduplication visits, in order.
pub open spec fn dedup_values() -> Seq<Logic> {
    seq![Logic::X, Logic::Z, Logic::False, Logic::True]
}

/// The position of a value in [`dedup_values`].
pub open spec fn dedup_position(c: Logic) -> nat {
    match c {
        Logic::X => 0,
        Logic::Z => 1,
        Logic::False => 2,
        Logic::True => 3,
    }
}

/// Whether deduplication shares one constant for `c`: `Gate::from_constant`
/// gives a lone constant for `c`, and some node is an instance of one.
pub open spec fn shares_constant(objs: Seq<ObjectView>, c: Logic) -> bool {
    &&& constant_cell(c) matches Some(cell) && simple_constant(cell, c)
    &&& constant_nodes(objs, c, objs.len()).len() > 0
}

/// The values among the first `ci` of [`dedup_values`] that get a shared
/// constant, in order.
pub open spec fn shared_values(objs: Seq<ObjectView>, ci: nat) -> Seq<Logic>
    decreases ci,
{
    if ci == 0 {
        Seq::empty()
    } else {
        let rest = shared_values(objs, (ci - 1) as nat);
        let c = dedup_values()[ci - 1];
        if shares_constant(objs, c) {
            rest.push(c)
        } else {
            rest
        }
    }
}

/// The node that shares the constant `c`: an instance of its lone constant
/// gate, named after that gate with `inst`.
pub open spec fn shared_node(c: Logic) -> ObjectView {
    let cell = constant_cell(c).unwrap();
    instance_object(cell, identifier_join(gate_name(cell), identifier_from_text("inst"@)), unconnected(0))
}

/// The replacements onto output 0 of node `target` of the nets of the
/// instances `nodes[0..t]` that carry no attribute.
pub open spec fn merged_upto(objs: Seq<ObjectView>, nodes: Seq<nat>, target: nat, t: nat) -> Seq<
    ((usize, usize), (usize, usize)),
>
    decreases t,
{
    if t == 0 {
        Seq::empty()
    } else {
        let rest = merged_upto(objs, nodes, target, (t - 1) as nat);
        let u = nodes[t - 1];
        if objs[u as int].attributes.dom() == Set::<Seq<char>>::empty() {
            rest.push(((u as usize, 0usize), (target as usize, 0usize)))
        } else {
            rest
        }
    }
}

/// The replacements that merge the instances of a lone constant `c` without
/// attributes onto the shared constant at node `target`.
pub open spec fn merged_constants(objs: Seq<ObjectView>, c: Logic, target: nat) -> Seq<
    ((usize, usize), (usize, usize)),
> {
    let nodes = constant_nodes(objs, c, objs.len());
    merged_upto(objs, nodes, target, nodes.len())
}

/// All replacements of deduplication: the `m`-th shared value `vals[m]` is
/// shared by node `objs.len() + m`.
pub open spec fn dedup_pairs(objs: Seq<ObjectView>, vals: Seq<Logic>) -> Seq<
    ((usize, usize), (usize, usize)),
>
    decreases vals.len(),
{
    if vals.len() == 0 {
        Seq::empty()
    } else {
        dedup_pairs(objs, vals.drop_last()) + merged_constants(
            objs,
            vals.last(),
            (objs.len() + vals.len() - 1) as nat,
        )
    }
}

/// The netlist `d` with the shared constants of the first `ci` values of
/// [`dedup_values`] inserted, before any user is moved onto them.
pub open spec fn constants_design(d: Design, ci: nat) -> Design
    decreases ci,
{
    if ci == 0 {
        d
    } else {
        let prev = constants_design(d, (ci - 1) as nat);
        let c = dedup_values()[ci - 1];
        if shares_constant(netlist_objects(d), c) {
            let cell = constant_cell(c).unwrap();
            with_gate_disconnected(prev, cell, identifier_join(gate_name(cell), identifier_from_text("inst"@)))
        } else {
            prev
        }
    }
}

/// `objs` with the shared constants added after its nodes, before any user
/// is moved onto them.
pub open spec fn constants_added(objs: Seq<ObjectView>) -> Seq<ObjectView> {
    objs + shared_values(objs, 4).map_values(|c: Logic| shared_node(c))
}

/// Whether `mid` is `objs` with the shared constants added after its nodes
/// and the users of every merged constant reading the shared one instead,
/// up to the identifiers of nets (which merging renames where a merged net is
/// also a top-level output).
pub open spec fn deduplicated(objs: Seq<ObjectView>, mid: Seq<ObjectView>) -> bool {
    let vals = shared_values(objs, 4);
    let added = objs + vals.map_values(|c: Logic| shared_node(c));
    &&& same_but_wiring(added, mid)
    &&& forall|k: int, q: int|
        0 <= k < added.len() && 0 <= q < added[k].drivers.len() ==> #[trigger] mid[k].drivers[q]
            == redirect(added[k].drivers[q], dedup_pairs(objs, vals))
}

proof fn lemma_shared_values(objs: Seq<ObjectView>, ci: nat)
    requires
        ci <= 4,
    ensures
        forall|m: int| 0 <= m < shared_values(objs, ci).len() ==> {
            &&& shares_constant(objs, #[trigger] shared_values(objs, ci)[m])
            &&& dedup_position(shared_values(objs, ci)[m]) < ci
        },
        forall|m1: int, m2: int|
            0 <= m1 < m2 < shared_values(objs, ci).len() ==> #[trigger] shared_values(objs, ci)[m1]
                != #[trigger] shared_values(objs, ci)[m2],
    decreases ci,
{
    if ci > 0 {
        lemma_shared_values(objs, (ci - 1) as nat);
        let rest = shared_values(objs, (ci - 1) as nat);
        let sv = shared_values(objs, ci);
        assert(dedup_position(dedup_values()[ci - 1]) == ci - 1);
        assert forall|m: int| 0 <= m < sv.len() implies {
            &&& shares_constant(objs, #[trigger] sv[m])
            &&& dedup_position(sv[m]) < ci
        } by {
            if m < rest.len() {
                assert(sv[m] == rest[m]);
            }
        }
        assert forall|m1: int, m2: int| 0 <= m1 < m2 < sv.len() implies #[trigger] sv[m1] != #[trigger] sv[m2] by {
            assert(sv[m1] == rest[m1]);
            if m2 < rest.len() {
                assert(sv[m2] == rest[m2]);
            } else {
                assert(dedup_position(sv[m1]) < ci - 1);
            }
        }
    }
}

proof fn lemma_merged_upto(objs: Seq<ObjectView>, nodes: Seq<nat>, c: Logic, target: nat, t: nat)
    requires
        t <= nodes.len(),
        objs.len() <= usize::MAX,
        target <= usize::MAX,
        forall|i: int| 0 <= i < nodes.len() ==> #[trigger] nodes[i] < objs.len() && constant_node(objs[nodes[i] as int], c),
        forall|i: int, j: int| 0 <= i < j < nodes.len() ==> #[trigger] nodes[i] < #[trigger] nodes[j],
    ensures
        forall|k: int| 0 <= k < merged_upto(objs, nodes, target, t).len() ==> {
            let pr = #[trigger] merged_upto(objs, nodes, target, t)[k];
            &&& pr.0.0 < objs.len()
            &&& pr.0.1 == 0
            &&& pr.1 == (target as usize, 0usize)
            &&& constant_node(objs[pr.0.0 as int], c)
            &&& objs[pr.0.0 as int].attributes.dom() == Set::<Seq<char>>::empty()
            &&& t > 0 ==> pr.0.0 <= nodes[t - 1]
        },
        forall|k: int, l: int|
            0 <= k < l < merged_upto(objs, nodes, target, t).len() ==> (#[trigger] merged_upto(
                objs,
                nodes,
                target,
                t,
            )[k]).0.0 < (#[trigger] merged_upto(objs, nodes, target, t)[l]).0.0,
    decreases t,
{
    if t > 0 {
        lemma_merged_upto(objs, nodes, c, target, (t - 1) as nat);
        let rest = merged_upto(objs, nodes, target, (t - 1) as nat);
        let mu = merged_upto(objs, nodes, target, t);
        assert forall|k: int| 0 <= k < mu.len() implies {
            let pr = #[trigger] mu[k];
            &&& pr.0.0 < objs.len()
            &&& pr.0.1 == 0
            &&& pr.1 == (target as usize, 0usize)
            &&& constant_node(objs[pr.0.0 as int], c)
            &&& objs[pr.0.0 as int].attributes.dom() == Set::<Seq<char>>::empty()
            &&& pr.0.0 <= nodes[t - 1]
        } by {
            if k < rest.len() {
                assert(mu[k] == rest[k]);
                if t > 1 {
                    assert(nodes[t - 2] < nodes[t - 1]);
                }
            }
        }
        assert forall|k: int, l: int| 0 <= k < l < mu.len() implies (#[trigger] mu[k]).0.0 < (
        #[trigger] mu[l]).0.0 by {
            assert(mu[k] == rest[k]);
            if l < rest.len() {
                assert(mu[l] == rest[l]);
            } else if t > 1 {
                assert(nodes[t - 2] < nodes[t - 1]);
            }
        }
    }
}

proof fn lemma_dedup_pairs(objs: Seq<ObjectView>, vals: Seq<Logic>)
    requires
        objs.len() + vals.len() <= usize::MAX,
        forall|m1: int, m2: int| 0 <= m1 < m2 < vals.len() ==> #[trigger] vals[m1] != #[trigger] vals[m2],
    ensures
        forall|k: int| 0 <= k < dedup_pairs(objs, vals).len() ==> {
            let pr = #[trigger] dedup_pairs(objs, vals)[k];
            &&& pr.0.0 < objs.len()
            &&& pr.0.1 == 0
            &&& objs.len() <= pr.1.0 < objs.len() + vals.len()
            &&& pr.1.1 == 0
            &&& constant_node(objs[pr.0.0 as int], vals[pr.1.0 - objs.len()])
            &&& objs[pr.0.0 as int].attributes.dom() == Set::<Seq<char>>::empty()
        },
        forall|k: int, l: int|
            0 <= k < l < dedup_pairs(objs, vals).len() ==> (#[trigger] dedup_pairs(objs, vals)[k]).0 != (
            #[trigger] dedup_pairs(objs, vals)[l]).0,
    decreases vals.len(),
{
    if vals.len() > 0 {
        let front = vals.drop_last();
        let c = vals.last();
        let target = (objs.len() + vals.len() - 1) as nat;
        lemma_dedup_pairs(objs, front);
        let nodes = constant_nodes(objs, c, objs.len());
        lemma_constant_nodes_facts(objs, c, objs.len());
        lemma_merged_upto(objs, nodes, c, target, nodes.len());
        let rest = dedup_pairs(objs, front);
        let mc = merged_constants(objs, c, target);
        let dp = dedup_pairs(objs, vals);
        assert(dp == rest + mc);
        assert forall|k: int| 0 <= k < dp.len() implies {
            let pr = #[trigger] dp[k];
            &&& pr.0.0 < objs.len()
            &&& pr.0.1 == 0
            &&& objs.len() <= pr.1.0 < objs.len() + vals.len()
            &&& pr.1.1 == 0
            &&& constant_node(objs[pr.0.0 as int], vals[pr.1.0 - objs.len()])
            &&& objs[pr.0.0 as int].attributes.dom() == Set::<Seq<char>>::empty()
        } by {
            if k < rest.len() {
                assert(dp[k] == rest[k]);
                assert(front[dp[k].1.0 - objs.len()] == vals[dp[k].1.0 - objs.len()]);
            } else {
                assert(dp[k] == mc[k - rest.len()]);
            }
        }
        assert forall|k: int, l: int| 0 <= k < l < dp.len() implies (#[trigger] dp[k]).0 != (#[trigger] dp[l]).0 by {
            if l < rest.len() {
                assert(dp[k] == rest[k]);
                assert(dp[l] == rest[l]);
            } else if k >= rest.len() {
                assert(dp[k] == mc[k - rest.len()]);
                assert(dp[l] == mc[l - rest.len()]);
            } else {
                assert(dp[k] == rest[k]);
                assert(dp[l] == mc[l - rest.len()]);
                let m = dp[k].1.0 - objs.len();
                assert(front[m] == vals[m]);
                assert(vals[m] != vals[vals.len() - 1]);
                if dp[k].0 == dp[l].0 {
                    assert(constant_node(objs[dp[k].0.0 as int], vals[m]));
                    assert(constant_node(objs[dp[k].0.0 as int], c));
                }
            }
        }
    }
}

proof fn lemma_constant_nodes_complete(objs: Seq<ObjectView>, c: Logic, n: nat, u: int)
    requires
        0 <= u < n <= objs.len(),
        constant_node(objs[u], c),
    ensures
        exists|t: int| 0 <= t < constant_nodes(objs, c, n).len() && #[trigger] constant_nodes(objs, c, n)[t] == u,
    decreases n,
{
    let cn = constant_nodes(objs, c, n);
    if u == n - 1 {
        assert(cn[cn.len() - 1] == u);
    } else {
        lemma_constant_nodes_complete(objs, c, (n - 1) as nat, u);
        let rest = constant_nodes(objs, c, (n - 1) as nat);
        let t = choose|t: int| 0 <= t < rest.len() && #[trigger] rest[t] == u;
        assert(cn[t] == rest[t]);
    }
}

proof fn lemma_merged_upto_contains(objs: Seq<ObjectView>, nodes: Seq<nat>, target: nat, t: nat, idx: int)
    requires
        0 <= idx < t <= nodes.len(),
        objs[nodes[idx] as int].attributes.dom() == Set::<Seq<char>>::empty(),
    ensures
        merged_upto(objs, nodes, target, t).contains(((nodes[idx] as usize, 0usize), (target as usize, 0usize))),
    decreases t,
{
    let mu = merged_upto(objs, nodes, target, t);
    if idx == t - 1 {
        assert(mu[mu.len() - 1] == ((nodes[idx] as usize, 0usize), (target as usize, 0usize)));
    } else {
        lemma_merged_upto_contains(objs, nodes, target, (t - 1) as nat, idx);
        let rest = merged_upto(objs, nodes, target, (t - 1) as nat);
        let x = ((nodes[idx] as usize, 0usize), (target as usize, 0usize));
        let k = choose|k: int| 0 <= k < rest.len() && rest[k] == x;
        assert(mu[k] == rest[k]);
    }
}

proof fn lemma_dedup_pairs_contains(objs: Seq<ObjectView>, vals: Seq<Logic>, m: int, x: ((usize, usize), (usize, usize)))
    requires
        0 <= m < vals.len(),
        merged_constants(objs, vals[m], (objs.len() + m) as nat).contains(x),
    ensures
        dedup_pairs(objs, vals).contains(x),
    decreases vals.len(),
{
    let dp = dedup_pairs(objs, vals);
    let front = vals.drop_last();
    let rest = dedup_pairs(objs, front);
    let mc = merged_constants(objs, vals.last(), (objs.len() + vals.len() - 1) as nat);
    assert(dp == rest + mc);
    if m == vals.len() - 1 {
        let k = choose|k: int| 0 <= k < mc.len() && mc[k] == x;
        assert(dp[rest.len() + k] == mc[k]);
    } else {
        assert(front[m] == vals[m]);
        lemma_dedup_pairs_contains(objs, front, m, x);
        let k = choose|k: int| 0 <= k < rest.len() && rest[k] == x;
        assert(dp[k] == rest[k]);
    }
}

proof fn lemma_shared_values_has(objs: Seq<ObjectView>, c: Logic, ci: nat)
    requires
        dedup_position(c) < ci <= 4,
        shares_constant(objs, c),
    ensures
        exists|m: int| 0 <= m < shared_values(objs, ci).len() && #[trigger] shared_values(objs, ci)[m] == c,
    decreases ci,
{
    let sv = shared_values(objs, ci);
    assert(dedup_values()[dedup_position(c) as int] == c);
    if dedup_position(c) == ci - 1 {
        assert(sv[sv.len() - 1] == c);
    } else {
        lemma_shared_values_has(objs, c, (ci - 1) as nat);
        let rest = shared_values(objs, (ci - 1) as nat);
        let m = choose|m: int| 0 <= m < rest.len() && #[trigger] rest[m] == c;
        assert(sv[m] == rest[m]);
    }
}

proof fn lemma_shared_values_len(objs: Seq<ObjectView>, ci: nat)
    ensures
        shared_values(objs, ci).len() <= ci,
    decreases ci,
{
    if ci > 0 {
        lemma_shared_values_len(objs, (ci - 1) as nat);
    }
}

proof fn lemma_redirect_hit(pairs: Seq<((usize, usize), (usize, usize))>, k: int)
    requires
        0 <= k < pairs.len(),
        forall|a: int, b: int| 0 <= a < b < pairs.len() ==> (#[trigger] pairs[a]).0 != (#[trigger] pairs[b]).0,
    ensures
        crate::netlist::redirect(crate::netlist::driver_pair(pairs[k].0), pairs) == crate::netlist::driver_pair(
            pairs[k].1,
        ),
    decreases pairs.len(),
{
    let drv = crate::netlist::driver_pair(pairs[k].0);
    if k < pairs.len() - 1 {
        let last = pairs.last();
        assert(pairs[pairs.len() - 1].0 != pairs[k].0);
        assert(drv != crate::netlist::driver_pair(last.0));
        let front = pairs.drop_last();
        assert(front[k] == pairs[k]);
        assert forall|a: int, b: int| 0 <= a < b < front.len() implies (#[trigger] front[a]).0 != (#[trigger] front[b]).0 by {
            assert(front[a] == pairs[a] && front[b] == pairs[b]);
        }
        lemma_redirect_hit(front, k);
    }
}

/// `DedupConsts` moves the users of every instance of a lone constant `c`
/// (one that `Gate::from_constant` gives for `c`) that carries no attribute
/// onto the shared constant it adds for `c`: whichever instance it is, its
/// net is replaced by output 0 of an added node that is the shared constant
/// of `c`.
pub proof fn dedup_merges_every_plain_constant(objs: Seq<ObjectView>, u: int, c: Logic)
    requires
        objs.len() + 4 <= usize::MAX,
        0 <= u < objs.len(),
        constant_node(objs[u], c),
        objs[u].attributes.dom() == Set::<Seq<char>>::empty(),
        constant_cell(c) matches Some(cell) && simple_constant(cell, c),
    ensures
        ({
            let pairs = dedup_pairs(objs, shared_values(objs, 4));
            let added = constants_added(objs);
            crate::netlist::redirect(Some((u as nat, 0nat)), pairs) matches Some((k, p)) && p == 0 && objs.len() <= k
                < added.len() && added[k as int] == shared_node(c)
        }),
{
    let vals = shared_values(objs, 4);
    let pairs = dedup_pairs(objs, vals);
    let n = objs.len();
    lemma_constant_nodes_complete(objs, c, n, u);
    let nodes = constant_nodes(objs, c, n);
    let idx = choose|t: int| 0 <= t < nodes.len() && #[trigger] nodes[t] == u;
    assert(shares_constant(objs, c));
    lemma_shared_values_has(objs, c, 4);
    let m = choose|m: int| 0 <= m < vals.len() && #[trigger] vals[m] == c;
    lemma_shared_values(objs, 4);
    lemma_shared_values_len(objs, 4);
    let target = (n + m) as nat;
    lemma_merged_upto_contains(objs, nodes, target, nodes.len(), idx);
    let x = ((u as usize, 0usize), (target as usize, 0usize));
    assert(merged_constants(objs, c, target).contains(x));
    lemma_dedup_pairs_contains(objs, vals, m, x);
    let k = choose|k: int| 0 <= k < pairs.len() && pairs[k] == x;
    lemma_dedup_pairs(objs, vals);
    lemma_redirect_hit(pairs, k);
    assert(crate::netlist::driver_pair(x.0) == Some((u as nat, 0nat)));
    let added = constants_added(objs);
    assert(added[n + m] == vals.map_values(|c: Logic| shared_node(c))[m]);
}

/// `DedupConsts` leaves every other net where it is: a net that is not the
/// only net of an instance of a lone constant without attributes (an input,
/// another cell, a constant that carries an attribute) keeps all its users.
pub proof fn dedup_leaves_other_nets(objs: Seq<ObjectView>, u: nat, p: nat)
    requires
        objs.len() + 4 <= usize::MAX,
        !(u < objs.len() && p == 0 && objs[u as int].attributes.dom() == Set::<Seq<char>>::empty() && exists|c: Logic|
            #[trigger] constant_node(objs[u as int], c)),
    ensures
        crate::netlist::redirect(Some((u, p)), dedup_pairs(objs, shared_values(objs, 4))) == Some((u, p)),
{
    let vals = shared_values(objs, 4);
    let pairs = dedup_pairs(objs, vals);
    lemma_shared_values(objs, 4);
    lemma_shared_values_len(objs, 4);
    lemma_dedup_pairs(objs, vals);
    assert forall|k: int| 0 <= k < pairs.len() implies crate::netlist::driver_pair((#[trigger] pairs[k]).0) != Some((u, p)) by {
        let x = pairs[k].0;
        if crate::netlist::driver_pair(x) == Some((u, p)) {
            assert(constant_node(objs[x.0 as int], vals[pairs[k].1.0 - objs.len()]));
        }
    }
    lemma_redirect_untouched(Some((u, p)), pairs);
}

/// Deduplicate constant nets in the netlist.
#[derive(Debug)]
pub struct DedupConsts;

impl DedupConsts {
    /// The name of the pass.
    pub fn name(&self) -> (s: String)
        ensures
            s@ == "DedupConsts"@,
    {
        text_of("DedupConsts")
    }

    /// For each constant value (`X`, `Z`, false, true) that `Gate::from_constant`
    /// gives a lone constant for, and that some instance is: adds one such
    /// gate named after it with `inst`, and moves the users of every such
    /// instance without attributes onto it (see [`deduplicated`]); then
    /// cleans the netlist.  Where no fan-out table can be built, before or
    /// after the shared constants are added, it fails with that table's
    /// error, and where cleaning fails, with the error of cleaning; where
    /// moving the users fails otherwise, the error is the mapper's.
    pub fn run(&self, d: &mut Design) -> (r: Result<String, Error>)
        requires
            constants_drive_one_net(old(d)@),
        ensures
            crate::netlist::well_formed(*old(d)) ==> crate::netlist::well_formed(*final(d)),
            crate::netlist::netlist_name(*final(d)) == crate::netlist::netlist_name(*old(d)),
            !fanout_builds(*old(d)) ==> (r matches Err(e) && e == fanout_error(*old(d)) && *final(d) == *old(d)),
            fanout_builds(*old(d)) && !fanout_builds(constants_design(*old(d), 4)) ==> (r matches Err(e) && e
                == fanout_error(constants_design(*old(d), 4))),
            ({
                let added = constants_design(*old(d), 4);
                let pairs = dedup_pairs(old(d)@, shared_values(old(d)@, 4));
                &&& fanout_builds(*old(d))
                &&& replacement_applies(added, pairs)
                &&& !clean_succeeds(with_replacements(added, pairs))
            }) ==> (r matches Err(e) && e == clean_error(
                with_replacements(
                    constants_design(*old(d), 4),
                    dedup_pairs(old(d)@, shared_values(old(d)@, 4)),
                ),
            )),
            r is Ok <==> {
                let added = constants_design(*old(d), 4);
                let pairs = dedup_pairs(old(d)@, shared_values(old(d)@, 4));
                &&& fanout_builds(*old(d))
                &&& replacement_applies(added, pairs)
                &&& clean_succeeds(with_replacements(added, pairs))
            },
            r is Err ==> {
                let added = constants_design(*old(d), 4);
                let pairs = dedup_pairs(old(d)@, shared_values(old(d)@, 4));
                let mid = with_replacements(added, pairs);
                ||| !fanout_builds(*old(d)) && *final(d) == *old(d)
                ||| {
                    &&& fanout_builds(*old(d))
                    &&& added@ == constants_added(old(d)@)
                    &&& !replacement_applies(added, pairs)
                    &&& same_but_net_names(added@, final(d)@)
                    &&& top_outputs(*final(d)) == top_outputs(*old(d))
                }
                ||| {
                    &&& fanout_builds(*old(d))
                    &&& replacement_applies(added, pairs)
                    &&& deduplicated(old(d)@, mid@)
                    &&& !clean_succeeds(mid)
                    &&& exists|keep: Seq<nat>|
                        {
                            &&& kept_nodes(mid@, final(d)@, keep)
                            &&& kept_outputs(top_outputs(mid), top_outputs(*final(d)), keep)
                        }
                }
            },
            r is Ok ==> {
                let added = constants_design(*old(d), 4);
                let pairs = dedup_pairs(old(d)@, shared_values(old(d)@, 4));
                let mid = with_replacements(added, pairs);
                &&& deduplicated(old(d)@, mid@)
                &&& top_outputs(mid) == moved_outputs(top_outputs(*old(d)), pairs)
                &&& final(d)@ == cleaned_objects(mid)
                &&& exists|keep: Seq<nat>|
                    {
                        &&& kept_nodes(mid@, final(d)@, keep)
                        &&& kept_outputs(top_outputs(mid), top_outputs(*final(d)), keep)
                    }
            },
            r matches Ok(s) ==> s@ == "Deduplicated all constant nets"@,
    {
        match netlist_fanout_check(d) {
            Ok(()) => {},
            Err(e) => {
                return Err(e);
            },
        }
        let ghost start = d@;
        let ghost start_design = *d;
        let n0 = netlist_len(d);
        let consts = [Logic::X, Logic::Z, Logic::False, Logic::True];
        let mut pairs: Vec<((usize, usize), (usize, usize))> = Vec::new();
        let mut ci: usize = 0;
        while ci < 4
            invariant
                n0 == start.len(),
                constants_drive_one_net(start),
                consts@ == dedup_values(),
                ci <= 4,
                d@ == start + shared_values(start, ci as nat).map_values(|c: Logic| shared_node(c)),
                pairs@ == dedup_pairs(start, shared_values(start, ci as nat)),
                start_design@ == start,
                *d == constants_design(start_design, ci as nat),
                top_outputs(*d) == top_outputs(start_design),
                crate::netlist::netlist_name(*d) == crate::netlist::netlist_name(*old(d)),
                crate::netlist::well_formed(start_design) ==> crate::netlist::well_formed(*d),
            decreases 4 - ci,
        {
            let c = consts[ci];
            let ghost vals = shared_values(start, ci as nat);
            let ghost added = d@;
            let ghost added_design = *d;
            match constant_gate(c) {
                None => {},
                Some(cell) => {
                    if is_simple_constant(&cell, c) {
                        let nrs = constant_scan(d, c, n0);
                        let ghost nv = nrs@.map_values(|i: usize| i as nat);
                        proof {
                            lemma_constant_nodes_prefix(d@, start, c, n0 as nat);
                        }
                        if nrs.len() > 0 {
                            let base = gate_name_of(&cell);
                            proof {
                                reveal_strlit("inst");
                            }
                            let suffix = make_identifier("inst");
                            let const_name = join_identifiers(&base, &suffix);
                            let k = d.add_gate_disconnected(cell, const_name);
                            proof {
                                assert(d@ == added.push(shared_node(c)));
                            }
                            proof {
                                lemma_constant_nodes_facts(start, c, n0 as nat);
                            }
                            let mut t: usize = 0;
                            while t < nrs.len()
                                invariant
                                    n0 == start.len(),
                                    k == n0 + vals.len(),
                                    d@ == added.push(shared_node(c)),
                                    added == start + vals.map_values(|c: Logic| shared_node(c)),
                                    nv == nrs@.map_values(|i: usize| i as nat),
                                    nv == constant_nodes(start, c, n0 as nat),
                                    forall|i: int| 0 <= i < nv.len() ==> #[trigger] nv[i] < n0,
                                    t <= nrs.len(),
                                    pairs@ == dedup_pairs(start, vals) + merged_upto(start, nv, k as nat, t as nat),
                                decreases nrs.len() - t,
                            {
                                let nr = nrs[t];
                                assert(nv[t as int] == nr);
                                assert(nr < n0);
                                let keys = node_attribute_keys(d, nr);
                                proof {
                                    assert(d@[nr as int] == start[nr as int]);
                                    if keys.len() > 0 {
                                        let mv = keys@.map_values(|k: String| k@);
                                        assert(mv[0] == keys@[0]@);
                                        assert(mv.contains(keys@[0]@));
                                        assert(mv.to_set().contains(keys@[0]@));
                                    } else {
                                        assert(keys@.map_values(|k: String| k@).to_set() =~= Set::<Seq<char>>::empty());
                                    }
                                }
                                if keys.len() == 0 {
                                    pairs.push(((nr, 0), (k, 0)));
                                }
                                proof {
                                    assert(pairs@ =~= dedup_pairs(start, vals) + merged_upto(start, nv, k as nat, t as nat + 1));
                                }
                                t = t + 1;
                            }
                            proof {
                                assert(vals.push(c).drop_last() =~= vals);
                                assert(shares_constant(start, c));
                                assert(shared_values(start, ci as nat + 1) == vals.push(c));
                                assert(vals.push(c).map_values(|c: Logic| shared_node(c)) =~= vals.map_values(
                                    |c: Logic| shared_node(c),
                                ).push(shared_node(c)));
                            }
                        }
                    }
                },
            }
            ci = ci + 1;
        }
        let ghost vals = shared_values(start, 4);
        let len = netlist_len(d);
        proof {
            lemma_shared_values(start, 4);
            lemma_dedup_pairs(start, vals);
            let dp = dedup_pairs(start, vals);
            assert forall|kk: int| 0 <= kk < dp.len() implies {
                &&& crate::netlist::is_output_of(d@, (#[trigger] dp[kk]).0.0 as int, dp[kk].0.1 as int)
                &&& crate::netlist::is_output_of(d@, dp[kk].1.0 as int, dp[kk].1.1 as int)
            } by {
                let m = dp[kk].1.0 - n0;
                let u = dp[kk].0.0 as int;
                assert(constant_node(start[u], vals[m]));
                assert(d@[u] == start[u]);
                assert(d@[dp[kk].1.0 as int] == shared_node(vals[m]));
                assert(shares_constant(start, vals[m]));
            }
            assert(replacements_ok(d@, dp));
        }
        let ghost added = *d;
        let ghost pv = pairs@;
        let replaced = netlist_replace_nets(d, pairs);
        proof {
            if crate::netlist::well_formed(added) {
                if replaced is Ok {
                    crate::netlist::lemma_wf_replaced(added@, d@, top_outputs(added), top_outputs(*d), pv);
                } else {
                    crate::netlist::lemma_wf_reshaped(added@, d@, top_outputs(added), top_outputs(*d));
                }
            }
        }
        match replaced {
            Ok(()) => {},
            Err(e) => {
                proof {
                    assert(same_but_net_names(added@, d@));
                }
                return Err(e);
            },
        }
        let ghost mid = *d;
        proof {
            assert(deduplicated(start, mid@));
        }
        let cleaned = netlist_clean(d);
        proof {
            let keep = choose|keep: Seq<nat>|
                {
                    &&& kept_nodes(mid@, d@, keep)
                    &&& kept_outputs(top_outputs(mid), top_outputs(*d), keep)
                };
            assert(kept_nodes(mid@, d@, keep));
            assert(kept_outputs(top_outputs(mid), top_outputs(*d), keep));
            if crate::netlist::well_formed(mid) {
                crate::netlist::lemma_wf_kept(mid@, d@, keep, top_outputs(mid), top_outputs(*d));
            }
        }
        match cleaned {
            Ok(_) => {},
            Err(e) => {
                return Err(e);
            },
        }
        Ok(text_of("Deduplicated all constant nets"))
    }
}

/// The outputs `(node, position)` of nodes `0..m`, node by node.
pub open spec fn outputs_upto(objs: Seq<ObjectView>, m: nat) -> Seq<(nat, nat)>
    decreases m,
{
    if m == 0 {
        Seq::empty()
    } else {
        outputs_upto(objs, (m - 1) as nat) + Seq::new(
            objs[m - 1].nets.len(),
            |p: int| ((m - 1) as nat, p as nat),
        )
    }
}

/// All outputs `(node, position)` of a netlist, node by node.
pub open spec fn all_outputs(objs: Seq<ObjectView>) -> Seq<(nat, nat)> {
    outputs_upto(objs, objs.len())
}

/// Whether `g` is the inverter that the passes insert: `INV` with input `A`
/// and output `Y`.
pub open spec fn is_inverter(g: Gate) -> bool {
    &&& gate_name(g) == identifier_from_text("INV"@)
    &&& gate_inputs(g) == seq![identifier_from_text("A"@)]
    &&& gate_outputs(g) == seq![identifier_from_text("Y"@)]
}

/// `INV` with input `A` and output `Y`, as `Gate::new_logical` makes it.
pub open spec fn inverter_gate() -> Gate {
    logical_gate("INV"@, seq!["A"@], "Y"@)
}

/// The inverter gate `INV` (input `A`, output `Y`).
fn inverter() -> (g: Gate)
    ensures
        is_inverter(g),
        g == inverter_gate(),
{
    let mut inputs: Vec<String> = Vec::new();
    inputs.push(text_of("A"));
    proof {
        reveal_strlit("INV");
        reveal_strlit("A");
        reveal_strlit("Y");
    }
    let g = crate::netlist::logic_gate("INV", &inputs, "Y");
    assert(inputs@.map_values(|s: String| identifier_from_text(s@)) =~= seq![identifier_from_text("A"@)]);
    assert(inputs@.map_values(|t: String| t@) =~= seq!["A"@]);
    g
}

/// The suffix `_{idx}_{n}` of the first inverter on the `idx`-th of `n` nets.
pub open spec fn inverter_suffix(idx: nat, n: nat) -> Seq<char> {
    seq!['_'] + crate::text::decimal(idx) + seq!['_'] + crate::text::decimal(n)
}

proof fn lemma_inverter_suffix_plain(t: nat, n: nat)
    ensures
        plain_text(inverter_suffix(t, n)),
        '0' <= inverter_suffix(t, n).last() && inverter_suffix(t, n).last() <= '9',
{
    let dt = crate::text::decimal(t);
    let dn = crate::text::decimal(n);
    crate::text::lemma_decimal_digits(t);
    crate::text::lemma_decimal_digits(n);
    crate::text::lemma_decimal_len(n);
    let s = inverter_suffix(t, n);
    assert forall|k: int| 0 <= k < s.len() implies word_char(#[trigger] s[k]) by {
        if 1 <= k < 1 + dt.len() {
            assert(s[k] == dt[k - 1]);
        } else if 2 + dt.len() <= k {
            assert(s[k] == dn[k - 2 - dt.len()]);
        }
    }
    assert(s.last() == dn[dn.len() - 1]);
}

/// Where a text ends with the suffixes `_{t1}_{n1}` and `_{t2}_{n2}` (after
/// a space the escaping of an identifier may add), the counts are the same.
proof fn lemma_suffix_counts_agree(c: Seq<char>, t1: nat, n1: nat, t2: nat, n2: nat)
    requires
        ends_with(c, inverter_suffix(t1, n1)) || ends_with(c, inverter_suffix(t1, n1).push(' ')),
        ends_with(c, inverter_suffix(t2, n2)) || ends_with(c, inverter_suffix(t2, n2).push(' ')),
    ensures
        n1 == n2,
{
    lemma_inverter_suffix_plain(t1, n1);
    lemma_inverter_suffix_plain(t2, n2);
    let x1 = inverter_suffix(t1, n1);
    let x2 = inverter_suffix(t2, n2);
    let s = if ends_with(c, x1) { c } else { c.drop_last() };
    assert(ends_with(s, x1)) by {
        if !ends_with(c, x1) {
            assert(c.subrange(c.len() - x1.len() - 1, c.len() as int).drop_last() =~= x1);
            assert(c.drop_last().subrange(c.len() - 1 - x1.len(), c.len() - 1) =~= c.subrange(
                c.len() - x1.len() - 1,
                c.len() as int,
            ).drop_last());
        }
    }
    assert(ends_with(s, x2)) by {
        if ends_with(c, x1) {
            if !ends_with(c, x2) {
                assert(c[c.len() - 1] == c.subrange(c.len() - x1.len(), c.len() as int)[x1.len() - 1]);
                assert(c[c.len() - 1] == c.subrange(c.len() - x2.len() - 1, c.len() as int)[x2.len() as int]);
            }
        } else {
            if ends_with(c, x2) {
                assert(c[c.len() - 1] == c.subrange(c.len() - x2.len(), c.len() as int)[x2.len() - 1]);
                assert(c[c.len() - 1] == c.subrange(c.len() - x1.len() - 1, c.len() as int)[x1.len() as int]);
            } else {
                assert(c.subrange(c.len() - x2.len() - 1, c.len() as int).drop_last() =~= x2);
                assert(c.drop_last().subrange(c.len() - 1 - x2.len(), c.len() - 1) =~= c.subrange(
                    c.len() - x2.len() - 1,
                    c.len() as int,
                ).drop_last());
            }
        }
    }
    let d1 = crate::text::decimal(n1);
    let d2 = crate::text::decimal(n2);
    crate::text::lemma_decimal_len(n1);
    crate::text::lemma_decimal_len(n2);
    crate::text::lemma_decimal_digits(n1);
    crate::text::lemma_decimal_digits(n2);
    let len = s.len() as int;
    assert forall|j: int| 0 <= j < x1.len() implies #[trigger] s[len - x1.len() + j] == x1[j] by {
        assert(s.subrange(len - x1.len(), len)[j] == s[len - x1.len() + j]);
    }
    assert forall|j: int| 0 <= j < x2.len() implies #[trigger] s[len - x2.len() + j] == x2[j] by {
        assert(s.subrange(len - x2.len(), len)[j] == s[len - x2.len() + j]);
    }
    // The count's digits close each suffix, behind a `_`.
    assert forall|j: int| 0 <= j < d1.len() implies #[trigger] x1[x1.len() - d1.len() + j] == d1[j] by {}
    assert forall|j: int| 0 <= j < d2.len() implies #[trigger] x2[x2.len() - d2.len() + j] == d2[j] by {}
    assert(x1[x1.len() - d1.len() - 1] == '_');
    assert(x2[x2.len() - d2.len() - 1] == '_');
    if d1.len() == d2.len() {
        assert forall|k: int| 0 <= k < d1.len() implies d1[k] == d2[k] by {
            assert(x1[x1.len() - d1.len() + k] == d1[k]);
            assert(x2[x2.len() - d2.len() + k] == d2[k]);
            assert(s[len - x1.len() + (x1.len() - d1.len() + k)] == x1[x1.len() - d1.len() + k]);
            assert(s[len - x2.len() + (x2.len() - d2.len() + k)] == x2[x2.len() - d2.len() + k]);
        }
        assert(d1 =~= d2);
        crate::text::lemma_decimal_injective(n1, n2);
    } else if d1.len() < d2.len() {
        let j = d2.len() - d1.len() - 1;
        assert(s[len - x1.len() + (x1.len() - d1.len() - 1)] == '_');
        assert(s[len - x2.len() + (x2.len() - d2.len() + j)] == d2[j]);
    } else {
        let j = d1.len() - d2.len() - 1;
        assert(s[len - x2.len() + (x2.len() - d2.len() - 1)] == '_');
        assert(s[len - x1.len() + (x1.len() - d1.len() + j)] == d1[j]);
    }
}

/// Where a text ends with the suffixes of two positions (after a space the
/// escaping of an identifier may add), the positions are the same.
proof fn lemma_suffixes_agree(c: Seq<char>, t1: nat, t2: nat, n: nat)
    requires
        ends_with(c, inverter_suffix(t1, n)) || ends_with(c, inverter_suffix(t1, n).push(' ')),
        ends_with(c, inverter_suffix(t2, n)) || ends_with(c, inverter_suffix(t2, n).push(' ')),
    ensures
        t1 == t2,
{
    lemma_inverter_suffix_plain(t1, n);
    lemma_inverter_suffix_plain(t2, n);
    let x1 = inverter_suffix(t1, n);
    let x2 = inverter_suffix(t2, n);
    // The part without the space, if there is one.
    let s = if ends_with(c, x1) { c } else { c.drop_last() };
    assert(ends_with(s, x1)) by {
        if !ends_with(c, x1) {
            assert(c.subrange(c.len() - x1.len() - 1, c.len() as int).drop_last() =~= x1);
            assert(c.drop_last().subrange(c.len() - 1 - x1.len(), c.len() - 1) =~= c.subrange(
                c.len() - x1.len() - 1,
                c.len() as int,
            ).drop_last());
        }
    }
    assert(ends_with(s, x2)) by {
        if ends_with(c, x1) {
            if !ends_with(c, x2) {
                assert(c[c.len() - 1] == c.subrange(c.len() - x1.len(), c.len() as int)[x1.len() - 1]);
                assert(c[c.len() - 1] == c.subrange(c.len() - x2.len() - 1, c.len() as int)[x2.len() as int]);
            }
        } else {
            if ends_with(c, x2) {
                assert(c[c.len() - 1] == c.subrange(c.len() - x2.len(), c.len() as int)[x2.len() - 1]);
                assert(c[c.len() - 1] == c.subrange(c.len() - x1.len() - 1, c.len() as int)[x1.len() as int]);
            } else {
                assert(c.subrange(c.len() - x2.len() - 1, c.len() as int).drop_last() =~= x2);
                assert(c.drop_last().subrange(c.len() - 1 - x2.len(), c.len() - 1) =~= c.subrange(
                    c.len() - x2.len() - 1,
                    c.len() as int,
                ).drop_last());
            }
        }
    }
    let d1 = crate::text::decimal(t1);
    let d2 = crate::text::decimal(t2);
    let dn = crate::text::decimal(n);
    crate::text::lemma_decimal_len(t1);
    crate::text::lemma_decimal_len(t2);
    crate::text::lemma_decimal_digits(t1);
    crate::text::lemma_decimal_digits(t2);
    let len = s.len() as int;
    // Character `j` of a suffix sits at `len - |suffix| + j` of `s`.
    assert forall|j: int| 0 <= j < x1.len() implies #[trigger] s[len - x1.len() + j] == x1[j] by {
        assert(s.subrange(len - x1.len(), len)[j] == s[len - x1.len() + j]);
    }
    assert forall|j: int| 0 <= j < x2.len() implies #[trigger] s[len - x2.len() + j] == x2[j] by {
        assert(s.subrange(len - x2.len(), len)[j] == s[len - x2.len() + j]);
    }
    if d1.len() == d2.len() {
        assert forall|k: int| 0 <= k < d1.len() implies d1[k] == d2[k] by {
            assert(x1[1 + k] == d1[k]);
            assert(x2[1 + k] == d2[k]);
            assert(s[len - x1.len() + 1 + k] == x1[1 + k]);
            assert(s[len - x2.len() + 1 + k] == x2[1 + k]);
        }
        assert(d1 =~= d2);
        crate::text::lemma_decimal_injective(t1, t2);
    } else if d1.len() < d2.len() {
        let j = d2.len() - d1.len();
        assert(x1[0] == '_');
        assert(s[len - x1.len()] == '_');
        assert(x2[j] == d2[j - 1]);
        assert(s[len - x2.len() + j] == x2[j]);
    } else {
        let j = d1.len() - d2.len();
        assert(x2[0] == '_');
        assert(s[len - x2.len()] == '_');
        assert(x1[j] == d1[j - 1]);
        assert(s[len - x1.len() + j] == x1[j]);
    }
}

/// The name of the first inverter on output `o` of `objs`, the `idx`-th of `n`.
pub open spec fn first_inverter_name(objs: Seq<ObjectView>, o: (nat, nat), idx: nat, n: nat) -> Identifier {
    identifier_join(objs[o.0 as int].nets[o.1 as int], identifier_from_text(inverter_suffix(idx, n)))
}

/// The name of the second inverter: the first one's followed by `inv`.
pub open spec fn second_inverter_name(first: Identifier) -> Identifier {
    identifier_join(first, identifier_from_text("inv"@))
}

/// What the texts of the names of the inverters on the `t`-th of `n` nets
/// look like, the first being `first`: it ends with `_{t}_{n}`, and the
/// second is the first with `_inv` added (both followed by a space where the
/// first is escaped).
pub open spec fn inverter_names_shape(first: Identifier, t: nat, n: nat) -> bool {
    let second = second_inverter_name(first);
    let escaped = identifier_escaped(first);
    let text = identifier_text(first);
    &&& identifier_escaped(second) == escaped
    &&& if escaped {
        ends_with(text, inverter_suffix(t, n).push(' '))
    } else {
        ends_with(text, inverter_suffix(t, n))
    }
    &&& identifier_text(second) == if escaped {
        text.drop_last() + "_inv "@
    } else {
        text + "_inv"@
    }
}

/// [`inverter_names_shape`] for the inverters on the `t`-th of the `n`
/// outputs `outs` of `objs`.
pub open spec fn inverter_names_end(objs: Seq<ObjectView>, outs: Seq<(nat, nat)>, t: int, n: nat) -> bool {
    inverter_names_shape(first_inverter_name(objs, outs[t], t as nat, n), t as nat, n)
}

/// The names of the two inverters on net `net`, the `t`-th of `n`: `net`
/// joined with `_{t}_{n}`, and that joined with `inv`.
fn inverter_names(net: &Identifier, t: usize, n: usize) -> (names: (Identifier, Identifier))
    ensures
        names.0 == identifier_join(*net, identifier_from_text(inverter_suffix(t as nat, n as nat))),
        names.1 == second_inverter_name(names.0),
        inverter_names_shape(names.0, t as nat, n as nat),
{
    let mut suffix_text = text_of("_");
    crate::text::push_decimal(&mut suffix_text, t);
    crate::text::push_text(&mut suffix_text, "_");
    crate::text::push_decimal(&mut suffix_text, n);
    proof {
        reveal_strlit("_");
        assert(suffix_text@ =~= inverter_suffix(t as nat, n as nat));
        lemma_inverter_suffix_plain(t as nat, n as nat);
    }
    let suffix = make_identifier(suffix_text.as_str());
    let first = join_identifiers(net, &suffix);
    proof {
        reveal_strlit("inv");
    }
    let inv_id = make_identifier("inv");
    let second = join_identifiers(&first, &inv_id);
    proof {
        reveal_strlit("_inv");
        reveal_strlit("_inv ");
        let inv = "inv"@;
        assert forall|k: int| 0 <= k < inv.len() implies word_char(#[trigger] inv[k]) by {}
        assert(plain_text(inv));
        let x = inverter_suffix(t as nat, n as nat);
        let tn = identifier_text(first);
        assert(tn.len() > 0 && tn.last() != ']') by {
            if identifier_escaped(first) {
                assert(tn.subrange(tn.len() - x.len() - 1, tn.len() as int)[x.len() as int] == tn.last());
            } else {
                assert(tn.subrange(tn.len() - x.len(), tn.len() as int)[x.len() - 1] == tn.last());
                assert(x[x.len() - 1] == x.last());
            }
        }
        assert(identifier_text(inv_id) == inv);
        assert(!identifier_escaped(inv_id));
        assert(identifier_escaped(second) == identifier_escaped(first));
        assert(tn.drop_last() + seq!['_'] + inv + seq![' '] =~= tn.drop_last() + "_inv "@);
        assert(tn + seq!['_'] + inv =~= tn + "_inv"@);
    }
    (first, second)
}

proof fn lemma_inverter_names_distinct(objs: Seq<ObjectView>, outs: Seq<(nat, nat)>, t1: int, t2: int, n: nat)
    requires
        0 <= t1,
        0 <= t2,
        inverter_names_end(objs, outs, t1, n),
        inverter_names_end(objs, outs, t2, n),
    ensures
        t1 != t2 ==> first_inverter_name(objs, outs[t1], t1 as nat, n) != first_inverter_name(
            objs,
            outs[t2],
            t2 as nat,
            n,
        ),
        t1 != t2 ==> second_inverter_name(first_inverter_name(objs, outs[t1], t1 as nat, n))
            != second_inverter_name(first_inverter_name(objs, outs[t2], t2 as nat, n)),
        first_inverter_name(objs, outs[t1], t1 as nat, n) != second_inverter_name(
            first_inverter_name(objs, outs[t2], t2 as nat, n),
        ),
{
    inverter_names_differ(
        first_inverter_name(objs, outs[t1], t1 as nat, n),
        t1 as nat,
        n,
        first_inverter_name(objs, outs[t2], t2 as nat, n),
        t2 as nat,
        n,
    );
}

/// The inverters that `InsertInv` names for the `t1`-th of `n1` nets and for
/// the `t2`-th of `n2` nets, in one run or in two runs, get different names
/// wherever the positions or the counts differ, whatever nets they sit on;
/// and no first inverter is ever named like a second one.  (`InsertInv::run`
/// gives every pair of inverters the shape of names that this takes.)
pub proof fn inverter_names_differ(first1: Identifier, t1: nat, n1: nat, first2: Identifier, t2: nat, n2: nat)
    requires
        inverter_names_shape(first1, t1, n1),
        inverter_names_shape(first2, t2, n2),
    ensures
        t1 != t2 || n1 != n2 ==> first1 != first2 && second_inverter_name(first1) != second_inverter_name(first2),
        first1 != second_inverter_name(first2),
{
    reveal_strlit("_inv");
    reveal_strlit("_inv ");
    let s1 = second_inverter_name(first1);
    let s2 = second_inverter_name(first2);
    let x1 = inverter_suffix(t1, n1);
    let x2 = inverter_suffix(t2, n2);
    let tf1 = identifier_text(first1);
    let tf2 = identifier_text(first2);
    let ts1 = identifier_text(s1);
    let ts2 = identifier_text(s2);
    let e = identifier_escaped(first1);
    lemma_inverter_suffix_plain(t1, n1);
    lemma_inverter_suffix_plain(t2, n2);
    if first1 == first2 {
        lemma_suffix_counts_agree(tf1, t1, n1, t2, n2);
        lemma_suffixes_agree(tf1, t1, t2, n1);
    }
    if s1 == s2 {
        assert(identifier_escaped(first2) == e);
        if e {
            assert(tf1.drop_last() =~= ts1.subrange(0, ts1.len() - 5));
            assert(tf2.drop_last() =~= ts2.subrange(0, ts2.len() - 5));
            assert(tf1.drop_last().subrange(tf1.len() - 1 - x1.len(), tf1.len() - 1) =~= tf1.subrange(
                tf1.len() - x1.len() - 1,
                tf1.len() as int,
            ).drop_last());
            assert(tf2.drop_last().subrange(tf2.len() - 1 - x2.len(), tf2.len() - 1) =~= tf2.subrange(
                tf2.len() - x2.len() - 1,
                tf2.len() as int,
            ).drop_last());
            assert(x1.push(' ').drop_last() =~= x1);
            assert(x2.push(' ').drop_last() =~= x2);
            assert(ends_with(tf1.drop_last(), x1));
            assert(ends_with(tf2.drop_last(), x2));
            assert(tf1.drop_last() == tf2.drop_last());
            lemma_suffix_counts_agree(tf1.drop_last(), t1, n1, t2, n2);
            lemma_suffixes_agree(tf1.drop_last(), t1, t2, n1);
        } else {
            assert(tf1 =~= ts1.subrange(0, ts1.len() - 4));
            assert(tf2 =~= ts2.subrange(0, ts2.len() - 4));
            lemma_suffix_counts_agree(tf1, t1, n1, t2, n2);
            lemma_suffixes_agree(tf1, t1, t2, n1);
        }
    }
    if first1 == s2 {
        assert(identifier_escaped(first2) == e);
        if e {
            assert(tf1.subrange(tf1.len() - x1.len() - 1, tf1.len() as int)[x1.len() - 1] == tf1[tf1.len() - 2]);
            assert(x1[x1.len() - 1] == x1.last());
            assert(ts2[ts2.len() - 2] == 'v');
        } else {
            assert(tf1.subrange(tf1.len() - x1.len(), tf1.len() as int)[x1.len() - 1] == tf1[tf1.len() - 1]);
            assert(x1[x1.len() - 1] == x1.last());
            assert(ts2[ts2.len() - 1] == 'v');
        }
    }
}

/// A second run of `InsertInv`, on what a first run that processed `n1 > 0`
/// nets left, processes `3 * n1` nets (`InsertInv::run` says so), so none of
/// its inverters is named like one of the first run.
pub proof fn inverter_names_fresh_in_second_run(
    first1: Identifier,
    t1: nat,
    n1: nat,
    first2: Identifier,
    t2: nat,
    n2: nat,
)
    requires
        inverter_names_shape(first1, t1, n1),
        inverter_names_shape(first2, t2, n2),
        n1 > 0,
        n2 == 3 * n1,
    ensures
        first1 != first2,
        second_inverter_name(first1) != second_inverter_name(first2),
        first1 != second_inverter_name(first2),
        second_inverter_name(first1) != first2,
{
    inverter_names_differ(first1, t1, n1, first2, t2, n2);
    inverter_names_differ(first2, t2, n2, first1, t1, n1);
}

proof fn lemma_inserted_names_distinct(
    after: Seq<ObjectView>,
    objs: Seq<ObjectView>,
    outs: Seq<(nat, nat)>,
    base: int,
    n: nat,
)
    requires
        0 <= base,
        forall|t: int| 0 <= t < n ==> #[trigger] inverter_names_end(objs, outs, t, n),
        forall|t: int|
            0 <= t < n ==> {
                let name = first_inverter_name(objs, outs[t], t as nat, n);
                &&& (#[trigger] after[base + 2 * t]).name == Some(name)
                &&& after[base + 2 * t + 1].name == Some(second_inverter_name(name))
            },
    ensures
        forall|t1: int, t2: int|
            #![trigger after[base + 2 * t1], after[base + 2 * t2]]
            0 <= t1 < n && 0 <= t2 < n && t1 != t2 ==> {
                &&& after[base + 2 * t1].name != after[base + 2 * t2].name
                &&& after[base + 2 * t1 + 1].name != after[base + 2 * t2 + 1].name
            },
        forall|t1: int, t2: int|
            #![trigger after[base + 2 * t1], after[base + 2 * t2 + 1]]
            0 <= t1 < n && 0 <= t2 < n ==> after[base + 2 * t1].name != after[base + 2 * t2 + 1].name,
{
    assert forall|t1: int, t2: int|
        #![trigger after[base + 2 * t1], after[base + 2 * t2]]
        0 <= t1 < n && 0 <= t2 < n && t1 != t2 implies {
            &&& after[base + 2 * t1].name != after[base + 2 * t2].name
            &&& after[base + 2 * t1 + 1].name != after[base + 2 * t2 + 1].name
        } by {
        assert(inverter_names_end(objs, outs, t1, n));
        assert(inverter_names_end(objs, outs, t2, n));
        lemma_inverter_names_distinct(objs, outs, t1, t2, n);
    }
    assert forall|t1: int, t2: int|
        #![trigger after[base + 2 * t1], after[base + 2 * t2 + 1]]
        0 <= t1 < n && 0 <= t2 < n implies after[base + 2 * t1].name != after[base + 2 * t2 + 1].name by {
        assert(after[base + 2 * t2].name == Some(first_inverter_name(objs, outs[t2], t2 as nat, n)));
        assert(inverter_names_end(objs, outs, t1, n));
        assert(inverter_names_end(objs, outs, t2, n));
        lemma_inverter_names_distinct(objs, outs, t1, t2, n);
    }
}

/// The replacements of `InsertInv` on a netlist of `base` nodes: the
/// `idx`-th output by the output of node `base + 2 * idx + 1`.
pub open spec fn inverter_pairs(outs: Seq<(nat, nat)>, base: nat) -> Seq<((usize, usize), (usize, usize))> {
    Seq::new(
        outs.len(),
        |t: int| ((outs[t].0 as usize, outs[t].1 as usize), ((base + 2 * t + 1) as usize, 0usize)),
    )
}

/// `Inserted {n} pairs of inverters`
pub open spec fn inverter_report(n: nat) -> Seq<char> {
    "Inserted "@ + crate::text::decimal(n) + " pairs of inverters"@
}

pub(crate) proof fn lemma_outputs_upto_facts(objs: Seq<ObjectView>, m: nat)
    requires
        m <= objs.len(),
    ensures
        forall|t: int| 0 <= t < outputs_upto(objs, m).len() ==> {
            &&& (#[trigger] outputs_upto(objs, m)[t]).0 < m
            &&& outputs_upto(objs, m)[t].1 < objs[outputs_upto(objs, m)[t].0 as int].nets.len()
        },
        forall|t: int, u: int| 0 <= t < u < outputs_upto(objs, m).len() ==> #[trigger] outputs_upto(objs, m)[t]
            != #[trigger] outputs_upto(objs, m)[u],
    decreases m,
{
    if m > 0 {
        lemma_outputs_upto_facts(objs, (m - 1) as nat);
        let rest = outputs_upto(objs, (m - 1) as nat);
        let all = outputs_upto(objs, m);
        assert forall|t: int| 0 <= t < all.len() implies {
            &&& (#[trigger] all[t]).0 < m
            &&& all[t].1 < objs[all[t].0 as int].nets.len()
        } by {
            if t < rest.len() {
                assert(all[t] == rest[t]);
            }
        }
        assert forall|t: int, u: int| 0 <= t < u < all.len() implies #[trigger] all[t] != #[trigger] all[u] by {
            if u < rest.len() {
                assert(all[t] == rest[t]);
                assert(all[u] == rest[u]);
            } else if t < rest.len() {
                assert(all[t] == rest[t]);
            }
        }
    }
}

/// Whether `mid` is `objs` with the inverters of `InsertInv` added but not
/// yet in front of the users: for the `t`-th of the `n` outputs, a first
/// inverter with its input unconnected, and a second one reading the first.
pub open spec fn inverters_added(objs: Seq<ObjectView>, mid: Seq<ObjectView>) -> bool {
    let outs = all_outputs(objs);
    let n = outs.len();
    let base = objs.len();
    &&& mid.len() == base + 2 * n
    &&& forall|k: int| 0 <= k < base ==> #[trigger] mid[k] == objs[k]
    &&& forall|t: int|
        0 <= t < n ==> {
            let first = #[trigger] mid[base + 2 * t];
            let second = mid[base + 2 * t + 1];
            let name = first_inverter_name(objs, outs[t], t as nat, n);
            &&& first.gate matches Some(g) && is_inverter(g)
            &&& first.name == Some(name)
            &&& first.drivers == seq![None::<(nat, nat)>]
            &&& second.gate matches Some(g) && is_inverter(g)
            &&& second.name == Some(second_inverter_name(name))
            &&& second.drivers == seq![Some(((base + 2 * t) as nat, 0nat))]
        }
}

/// The netlist `d` (of nodes `objs`, with the `n` outputs `outs`) with the
/// inverter pairs of its first `t` outputs inserted, before any user reads
/// them.
pub open spec fn inverter_design(d: Design, objs: Seq<ObjectView>, outs: Seq<(nat, nat)>, n: nat, t: nat) -> Design
    decreases t,
{
    if t == 0 {
        d
    } else {
        let prev = inverter_design(d, objs, outs, n, (t - 1) as nat);
        let name = first_inverter_name(objs, outs[t - 1], (t - 1) as nat, n);
        let first = with_gate_disconnected(prev, inverter_gate(), name);
        with_gate(
            first,
            inverter_gate(),
            second_inverter_name(name),
            seq![((objs.len() + 2 * (t - 1)) as usize, 0usize)],
        )
    }
}

/// The netlist `d` with all the inverter pairs of `InsertInv` inserted,
/// before any user reads them.
pub open spec fn inverters_design(d: Design) -> Design {
    let objs = netlist_objects(d);
    let outs = all_outputs(objs);
    inverter_design(d, objs, outs, outs.len(), outs.len())
}

/// Whether `b` is `a` up to the identifiers of nets.
pub open spec fn same_but_net_names(a: Seq<ObjectView>, b: Seq<ObjectView>) -> bool {
    &&& same_but_wiring(a, b)
    &&& forall|k: int| 0 <= k < a.len() ==> #[trigger] b[k].drivers == a[k].drivers
}

/// Insert a pair of inverters at every point in the netlist.
#[derive(Debug)]
pub struct InsertInv;

impl InsertInv {
    /// The name of the pass.
    pub fn name(&self) -> (s: String)
        ensures
            s@ == "InsertInv"@,
    {
        text_of("InsertInv")
    }

    /// Puts a pair of inverters behind every net of the netlist: the users
    /// of the net now read the second inverter, which reads the first, which
    /// reads the net.  The inverters of the `idx`-th of the `n` nets are named
    /// after it with `_{idx}_{n}`, the second one with `inv` added.  Where no
    /// fan-out table can be built, before or after the inverters are added, it
    /// fails with that table's error; where moving the users fails otherwise,
    /// the error is the mapper's.
    pub fn run(&self, d: &mut Design) -> (r: Result<String, Error>)
        ensures
            crate::netlist::well_formed(*old(d)) ==> crate::netlist::well_formed(*final(d)),
            r is Ok && crate::netlist::well_formed(*old(d)) ==> forall|k: int, q: int|
                0 <= k < final(d)@.len() && 0 <= q < final(d)@[k].drivers.len() && (#[trigger] final(d)@[k].drivers[q]
                    matches Some((j, p)) && old(d)@.len() <= j && (j - old(d)@.len()) % 2 == 0)
                    ==> k == final(d)@[k].drivers[q].unwrap().0 + 1 && q == 0,
            crate::netlist::netlist_name(*final(d)) == crate::netlist::netlist_name(*old(d)),
            !fanout_builds(*old(d)) ==> (r matches Err(e) && e == fanout_error(*old(d)) && *final(d) == *old(d)),
            fanout_builds(*old(d)) && !fanout_builds(inverters_design(*old(d))) ==> (r matches Err(e) && e
                == fanout_error(inverters_design(*old(d)))),
            r is Ok <==> fanout_builds(*old(d)) && replacement_applies(
                inverters_design(*old(d)),
                inverter_pairs(all_outputs(old(d)@), old(d)@.len()),
            ),
            r is Err ==> {
                let mid = inverters_design(*old(d));
                ||| !fanout_builds(*old(d)) && *final(d) == *old(d)
                ||| {
                    &&& fanout_builds(*old(d))
                    &&& inverters_added(old(d)@, mid@)
                    &&& !replacement_applies(mid, inverter_pairs(all_outputs(old(d)@), old(d)@.len()))
                    &&& same_but_net_names(mid@, final(d)@)
                    &&& top_outputs(*final(d)) == top_outputs(*old(d))
                }
            },
            r matches Ok(s) ==> {
                let objs = old(d)@;
                let outs = all_outputs(objs);
                let n = outs.len();
                let base = objs.len();
                &&& s@ == inverter_report(n)
                &&& forall|t: int| 0 <= t < n ==> #[trigger] inverter_names_end(objs, outs, t, n)
                &&& all_outputs(final(d)@).len() == 3 * n
                &&& top_outputs(*final(d)) == moved_outputs(top_outputs(*old(d)), inverter_pairs(outs, base))
                &&& final(d)@.len() == base + 2 * n
                &&& forall|k: int, q: int|
                    0 <= k < base && 0 <= q < objs[k].drivers.len() ==> #[trigger] final(d)@[k].drivers[q]
                        == crate::netlist::redirect(objs[k].drivers[q], inverter_pairs(outs, base))
                &&& forall|k: int|
                    0 <= k < base ==> {
                        &&& (#[trigger] final(d)@[k]).gate == objs[k].gate
                        &&& final(d)@[k].name == objs[k].name
                        &&& final(d)@[k].attributes == objs[k].attributes
                    }
                &&& forall|t: int|
                    0 <= t < n ==> {
                        let first = #[trigger] final(d)@[base + 2 * t];
                        let second = final(d)@[base + 2 * t + 1];
                        let name = first_inverter_name(objs, outs[t], t as nat, n);
                        &&& first.gate matches Some(g) && is_inverter(g)
                        &&& first.name == Some(name)
                        &&& first.drivers == seq![Some(outs[t])]
                        &&& second.gate matches Some(g) && is_inverter(g)
                        &&& second.name == Some(second_inverter_name(name))
                        &&& second.drivers == seq![Some(((base + 2 * t) as nat, 0nat))]
                    }
                &&& forall|t1: int, t2: int|
                    #![trigger final(d)@[base + 2 * t1], final(d)@[base + 2 * t2]]
                    0 <= t1 < n && 0 <= t2 < n && t1 != t2 ==> {
                        &&& final(d)@[base + 2 * t1].name != final(d)@[base + 2 * t2].name
                        &&& final(d)@[base + 2 * t1 + 1].name != final(d)@[base + 2 * t2 + 1].name
                    }
                &&& forall|t1: int, t2: int|
                    #![trigger final(d)@[base + 2 * t1], final(d)@[base + 2 * t2 + 1]]
                    0 <= t1 < n && 0 <= t2 < n ==> final(d)@[base + 2 * t1].name != final(d)@[base + 2 * t2 + 1].name
            },
    {
        let ghost outputs = top_outputs(*d);
        let ghost start = d@;
        let ghost start_design = *d;
        let n0 = netlist_len(d);
        let mut outs: Vec<(usize, usize)> = Vec::new();
        let mut i: usize = 0;
        while i < n0
            invariant
                n0 == start.len(),
                d@ == start,
                i <= n0,
                outs@.map_values(|o: (usize, usize)| (o.0 as nat, o.1 as nat)) == outputs_upto(start, i as nat),
            decreases n0 - i,
        {
            let nets = crate::netlist::node_nets(d, i);
            let mut p: usize = 0;
            let ghost before = outs@.map_values(|o: (usize, usize)| (o.0 as nat, o.1 as nat));
            while p < nets.len()
                invariant
                    n0 == start.len(),
                    d@ == start,
                    i < n0,
                    nets@ == start[i as int].nets,
                    p <= nets.len(),
                    outs@.map_values(|o: (usize, usize)| (o.0 as nat, o.1 as nat)) == before + Seq::new(
                        p as nat,
                        |q: int| (i as nat, q as nat),
                    ),
                decreases nets.len() - p,
            {
                let ghost om = outs@.map_values(|o: (usize, usize)| (o.0 as nat, o.1 as nat));
                outs.push((i, p));
                assert(outs@.map_values(|o: (usize, usize)| (o.0 as nat, o.1 as nat)) =~= om.push((i as nat, p as nat)));
                assert(outs@.map_values(|o: (usize, usize)| (o.0 as nat, o.1 as nat)) =~= before + Seq::new(
                    p as nat + 1,
                    |q: int| (i as nat, q as nat),
                ));
                p = p + 1;
            }
            assert(outputs_upto(start, i as nat + 1) =~= before + Seq::new(
                nets.len() as nat,
                |q: int| (i as nat, q as nat),
            ));
            i = i + 1;
        }
        let ghost ov = outs@.map_values(|o: (usize, usize)| (o.0 as nat, o.1 as nat));
        proof {
            lemma_outputs_upto_facts(start, n0 as nat);
        }
        let n = outs.len();
        match netlist_fanout_check(d) {
            Ok(()) => {},
            Err(e) => {
                return Err(e);
            },
        }
        let mut pairs: Vec<((usize, usize), (usize, usize))> = Vec::new();
        let mut idx: usize = 0;
        while idx < n
            invariant
                top_outputs(*d) == outputs,
                crate::netlist::netlist_name(*d) == crate::netlist::netlist_name(*old(d)),
                crate::netlist::well_formed(*old(d)) ==> crate::netlist::well_formed(*d),
                start_design@ == start,
                *d == inverter_design(start_design, start, ov, n as nat, idx as nat),
                n0 == start.len(),
                n == ov.len(),
                ov == outs@.map_values(|o: (usize, usize)| (o.0 as nat, o.1 as nat)),
                ov == outputs_upto(start, n0 as nat),
                forall|t: int| 0 <= t < ov.len() ==> {
                    &&& (#[trigger] ov[t]).0 < n0
                    &&& ov[t].1 < start[ov[t].0 as int].nets.len()
                },
                idx <= n,
                d@.len() == n0 + 2 * idx,
                n0 + 2 * idx <= usize::MAX + 1,
                forall|j: int| 0 <= j < n0 ==> #[trigger] d@[j] == start[j],
                forall|t: int|
                    0 <= t < idx ==> {
                        let first = #[trigger] d@[n0 + 2 * t];
                        let second = d@[n0 + 2 * t + 1];
                        let name = first_inverter_name(start, ov[t], t as nat, n as nat);
                        &&& first.gate matches Some(g) && is_inverter(g)
                        &&& first.name == Some(name)
                        &&& first.drivers == seq![None::<(nat, nat)>]
                        &&& first.nets.len() == 1
                        &&& second.gate matches Some(g) && is_inverter(g)
                        &&& second.name == Some(second_inverter_name(name))
                        &&& second.drivers == seq![Some(((n0 + 2 * t) as nat, 0nat))]
                        &&& second.nets.len() == 1
                    },
                pairs@ == inverter_pairs(ov.take(idx as int), n0 as nat),
                forall|t: int| 0 <= t < idx ==> #[trigger] inverter_names_end(start, ov, t, n as nat),
            decreases n - idx,
        {
            let (i, p) = outs[idx];
            assert(ov[idx as int] == (i as nat, p as nat));
            let nets = crate::netlist::node_nets(d, i);
            let (name1, name2) = inverter_names(&nets[p], idx, n);
            let k1 = d.add_gate_disconnected(inverter(), name1);
            let mut ops: Vec<(usize, usize)> = Vec::new();
            ops.push((k1, 0));
            let k2 = match d.add_gate(inverter(), name2, ops) {
                Ok(k) => k,
                Err(e) => {
                    return Err(e);
                },
            };
            pairs.push(((i, p), (k2, 0)));
            proof {
                assert(unconnected(1) =~= seq![None::<(nat, nat)>]);
                assert(ops@.map_values(|jp: (usize, usize)| crate::netlist::driver_pair(jp)) =~= seq![
                    Some((k1 as nat, 0nat)),
                ]);
                assert(ov.take(idx as int + 1) =~= ov.take(idx as int).push(ov[idx as int]));
                assert(pairs@ =~= inverter_pairs(ov.take(idx as int + 1), n0 as nat));
            }
            idx = idx + 1;
        }
        assert(ov.take(n as int) =~= ov);
        let ghost mid = d@;
        proof {
            assert forall|k: int| 0 <= k < pairs@.len() implies (#[trigger] pairs@[k]) == ((ov[k].0 as usize, ov[k].1 as usize), ((n0 + 2 * k + 1) as usize, 0usize))
                && pairs@[k].0.0 as int == ov[k].0 && pairs@[k].0.1 as int == ov[k].1 && pairs@[k].1.0 as int == n0 + 2 * k + 1 by {
                assert(ov[k].0 < n0);
                assert(ov[k].1 < start[ov[k].0 as int].nets.len());
            }
            assert forall|k: int| 0 <= k < pairs@.len() implies {
                &&& crate::netlist::is_output_of(d@, (#[trigger] pairs@[k]).0.0 as int, pairs@[k].0.1 as int)
                &&& crate::netlist::is_output_of(d@, pairs@[k].1.0 as int, pairs@[k].1.1 as int)
            } by {
                assert(ov[k].0 < n0);
                assert(d@[n0 + 2 * k + 1].nets.len() == 1) by {
                    assert(d@[n0 + 2 * k].nets.len() == 1);
                }
            }
            assert forall|k: int, l: int|
                0 <= k < pairs@.len() && 0 <= l < pairs@.len() implies (#[trigger] pairs@[k]).1 != (
                #[trigger] pairs@[l]).0 by {
                assert(ov[l].0 < n0);
            }
            assert forall|k: int, l: int|
                0 <= k < l < pairs@.len() implies (#[trigger] pairs@[k]).0 != (#[trigger] pairs@[l]).0 by {
                assert(ov[k] != ov[l]);
                assert(ov[k].0 < n0 && ov[l].0 < n0);
            }
        }
        let ghost md = *d;
        proof {
            assert(inverters_added(start, md@));
        }
        match netlist_replace_nets(d, pairs) {
            Ok(()) => {},
            Err(e) => {
                proof {
                    assert(same_but_net_names(md@, d@));
                    if crate::netlist::well_formed(md) {
                        crate::netlist::lemma_wf_reshaped(md@, d@, top_outputs(md), top_outputs(*d));
                    }
                }
                return Err(e);
            },
        }
        let ghost rewired = d@;
        let mut idx: usize = 0;
        while idx < n
            invariant
                top_outputs(*d) == moved_outputs(outputs, inverter_pairs(ov, n0 as nat)),
                crate::netlist::netlist_name(*d) == crate::netlist::netlist_name(*old(d)),
                n0 == start.len(),
                n == ov.len(),
                ov == outs@.map_values(|o: (usize, usize)| (o.0 as nat, o.1 as nat)),
                forall|t: int| 0 <= t < ov.len() ==> {
                    &&& (#[trigger] ov[t]).0 < n0
                    &&& ov[t].1 < start[ov[t].0 as int].nets.len()
                },
                crate::netlist::same_but_wiring(mid, rewired),
                mid.len() == n0 + 2 * n,
                n0 + 2 * n <= usize::MAX + 1,
                forall|t: int|
                    0 <= t < n ==> {
                        let first = #[trigger] mid[n0 + 2 * t];
                        let second = mid[n0 + 2 * t + 1];
                        let name = first_inverter_name(start, ov[t], t as nat, n as nat);
                        &&& first.gate matches Some(g) && is_inverter(g)
                        &&& first.name == Some(name)
                        &&& first.drivers == seq![None::<(nat, nat)>]
                        &&& first.nets.len() == 1
                        &&& second.gate matches Some(g) && is_inverter(g)
                        &&& second.name == Some(second_inverter_name(name))
                        &&& second.drivers == seq![Some(((n0 + 2 * t) as nat, 0nat))]
                        &&& second.nets.len() == 1
                    },
                forall|j: int| 0 <= j < n0 ==> #[trigger] mid[j] == start[j],
                idx <= n,
                d@.len() == rewired.len(),
                forall|j: int| 0 <= j < d@.len() && !(n0 <= j < n0 + 2 * idx && (j - n0) % 2 == 0) ==> #[trigger] d@[j] == rewired[j],
                forall|t: int| 0 <= t < idx ==> #[trigger] d@[n0 + 2 * t] == (ObjectView {
                    drivers: seq![Some(ov[t])],
                    ..rewired[n0 + 2 * t]
                }),
            decreases n - idx,
        {
            let first = n0 + 2 * idx;
            proof {
                assert(mid[first as int].drivers.len() == 1);
            }
            proof {
                let i = ov[idx as int].0 as int;
                assert(i < n0);
                assert(d@[i] == rewired[i]);
                assert(mid[i] == start[i]);
                assert(rewired[i].nets.len() == mid[i].nets.len());
                assert(d@[first as int] == rewired[first as int]);
                assert(rewired[first as int].gate == mid[first as int].gate);
                assert(rewired[first as int].drivers.len() == mid[first as int].drivers.len());
            }
            crate::netlist::netlist_connect(d, first, 0, outs[idx].0, outs[idx].1);
            proof {
                assert(ov[idx as int].0 < n0);
                assert(rewired[first as int].drivers.len() == 1);
                assert(rewired[first as int].drivers.update(0, Some(ov[idx as int])) =~= seq![Some(ov[idx as int])]);
            }
            idx = idx + 1;
        }
        proof {
            assert forall|t: int| 0 <= t < n implies {
                let first = #[trigger] d@[n0 + 2 * t];
                let second = d@[n0 + 2 * t + 1];
                let name = first_inverter_name(start, ov[t], t as nat, n as nat);
                &&& first.gate matches Some(g) && is_inverter(g)
                &&& first.name == Some(name)
                &&& first.drivers == seq![Some(ov[t])]
                &&& second.gate matches Some(g) && is_inverter(g)
                &&& second.name == Some(second_inverter_name(name))
                &&& second.drivers == seq![Some(((n0 + 2 * t) as nat, 0nat))]
            } by {
                let a = n0 + 2 * t;
                let b = n0 + 2 * t + 1;
                assert(mid[a].gate is Some);
                assert((b - n0) % 2 == 1);
                assert(d@[b] == rewired[b]);
                assert(d@[a] == (ObjectView { drivers: seq![Some(ov[t])], ..rewired[a] }));
                assert(rewired[a].gate == mid[a].gate && rewired[a].name == mid[a].name);
                assert(rewired[b].gate == mid[b].gate && rewired[b].name == mid[b].name);
                assert(mid[b].drivers.len() == 1);
                assert forall|k: int| 0 <= k < pairs@.len() implies crate::netlist::driver_pair((#[trigger] pairs@[k]).0) != mid[b].drivers[0] by {
                    assert(ov[k].0 < n0);
                }
                lemma_redirect_untouched(mid[b].drivers[0], pairs@);
                assert(rewired[b].drivers[0] == mid[b].drivers[0]);
                assert(rewired[b].drivers =~= mid[b].drivers);
            }
        }
        proof {
            assert forall|k: int, q: int|
                0 <= k < n0 && 0 <= q < start[k].drivers.len() implies #[trigger] d@[k].drivers[q]
                    == crate::netlist::redirect(start[k].drivers[q], inverter_pairs(ov, n0 as nat)) by {
                assert(d@[k] == rewired[k]);
                assert(mid[k] == start[k]);
            }
            assert forall|k: int| 0 <= k < n0 implies {
                &&& (#[trigger] d@[k]).gate == start[k].gate
                &&& d@[k].name == start[k].name
                &&& d@[k].attributes == start[k].attributes
            } by {
                assert(d@[k] == rewired[k]);
                assert(mid[k] == start[k]);
            }
            lemma_inserted_names_distinct(d@, start, ov, n0 as int, n as nat);
            assert forall|j: int| 0 <= j < n0 implies (#[trigger] d@[j]).nets.len() == start[j].nets.len() by {
                assert(d@[j] == rewired[j]);
                assert(mid[j] == start[j]);
            }
            assert forall|j: int| n0 <= j < n0 + 2 * n implies (#[trigger] d@[j]).nets.len() == 1 by {
                let t = (j - n0) / 2;
                assert(0 <= t < n);
                assert(mid[n0 + 2 * t].nets.len() == 1);
                if (j - n0) % 2 == 0 {
                    assert(j == n0 + 2 * t);
                    assert(d@[j] == (ObjectView { drivers: seq![Some(ov[t])], ..rewired[j] }));
                } else {
                    assert(j == n0 + 2 * t + 1);
                    assert(d@[j] == rewired[j]);
                }
            }
            lemma_outputs_len_same(d@, start, n0 as nat);
            lemma_outputs_len_ones(d@, n0 as nat, (n0 + 2 * n) as nat);
            assert(d@.len() == n0 + 2 * n);
            if crate::netlist::well_formed(*old(d)) {
                assert forall|k: int| 0 <= k < n0 implies (#[trigger] d@[k]).drivers.len() == start[k].drivers.len() by {
                    assert(d@[k] == rewired[k]);
                    assert(mid[k] == start[k]);
                }
                assert forall|t: int| 0 <= t < n implies crate::netlist::is_output_of(start, (#[trigger] ov[t]).0 as int, ov[t].1 as int) by {}
                assert forall|t: int| 0 <= t < n implies {
                    &&& (#[trigger] d@[n0 + 2 * t]).drivers == seq![Some(ov[t])]
                    &&& d@[n0 + 2 * t].nets.len() == 1
                    &&& d@[n0 + 2 * t + 1].drivers == seq![Some(((n0 + 2 * t) as nat, 0nat))]
                    &&& d@[n0 + 2 * t + 1].nets.len() == 1
                } by {
                    assert(n0 <= n0 + 2 * t < n0 + 2 * n);
                    assert(n0 <= n0 + 2 * t + 1 < n0 + 2 * n);
                }
                lemma_wf_inverters(start, d@, outputs, top_outputs(*d), ov);
                let pv = inverter_pairs(ov, n0 as nat);
                assert forall|k: int, q: int|
                    0 <= k < d@.len() && 0 <= q < d@[k].drivers.len() && (#[trigger] d@[k].drivers[q] matches Some((
                        j,
                        p,
                    )) && n0 <= j && (j - n0) % 2 == 0) implies k == d@[k].drivers[q].unwrap().0 + 1 && q == 0 by {
                    let (j, p) = d@[k].drivers[q].unwrap();
                    if k < n0 {
                        assert(q < start[k].drivers.len());
                        assert(d@[k].drivers[q] == crate::netlist::redirect(start[k].drivers[q], pv));
                        lemma_redirect_target(start[k].drivers[q], pv);
                        if d@[k].drivers[q] == start[k].drivers[q] {
                            assert(start[k].drivers[q] is Some);
                            assert(crate::netlist::is_output_of(start, j as int, p as int));
                            assert(false);
                        } else {
                            let kk = choose|kk: int|
                                0 <= kk < pv.len() && crate::netlist::redirect(start[k].drivers[q], pv)
                                    == crate::netlist::driver_pair(#[trigger] pv[kk].1);
                            assert(pv[kk].1 == ((n0 + 2 * kk + 1) as usize, 0usize));
                            assert(j == n0 + 2 * kk + 1);
                            assert((j - n0) % 2 == 1) by (nonlinear_arith)
                                requires
                                    j == n0 + 2 * kk + 1,
                                    kk >= 0,
                            ;
                            assert(false);
                        }
                    } else {
                        let t = (k - n0) / 2;
                        assert(0 <= t < n);
                        if (k - n0) % 2 == 0 {
                            assert(k == n0 + 2 * t);
                            assert(d@[k].drivers == seq![Some(ov[t])]);
                            assert(ov[t].0 < n0);
                            assert(false);
                        } else {
                            assert(k == n0 + 2 * t + 1);
                            assert(d@[n0 + 2 * t].drivers == seq![Some(ov[t])]);
                            assert(d@[k].drivers == seq![Some(((n0 + 2 * t) as nat, 0nat))]);
                        }
                    }
                }
            }
        }
        let mut s = text_of("Inserted ");
        crate::text::push_decimal(&mut s, n);
        crate::text::push_text(&mut s, " pairs of inverters");
        Ok(s)
    }
}

/// A driver moved by replacements is the driver itself or one of their
/// targets.
proof fn lemma_redirect_target(drv: Option<(nat, nat)>, pairs: Seq<((usize, usize), (usize, usize))>)
    ensures
        crate::netlist::redirect(drv, pairs) == drv || exists|k: int|
            0 <= k < pairs.len() && crate::netlist::redirect(drv, pairs) == crate::netlist::driver_pair(
                #[trigger] pairs[k].1,
            ),
    decreases pairs.len(),
{
    if pairs.len() > 0 {
        let last = pairs.last();
        if drv == crate::netlist::driver_pair(last.0) {
            assert(crate::netlist::redirect(drv, pairs) == crate::netlist::driver_pair(pairs[pairs.len() - 1].1));
        } else {
            lemma_redirect_target(drv, pairs.drop_last());
            if crate::netlist::redirect(drv, pairs) != drv {
                let k = choose|k: int|
                    0 <= k < pairs.drop_last().len() && crate::netlist::redirect(drv, pairs.drop_last())
                        == crate::netlist::driver_pair(#[trigger] pairs.drop_last()[k].1);
                assert(pairs.drop_last()[k] == pairs[k]);
            }
        }
    }
}

/// Putting the inverters in (after `base` nodes, two a net, each with one
/// net) and moving the users onto the second ones keeps drivers and outputs
/// existing.
proof fn lemma_wf_inverters(
    objs: Seq<ObjectView>,
    after: Seq<ObjectView>,
    outs_before: Set<(nat, nat, Identifier)>,
    outs_after: Set<(nat, nat, Identifier)>,
    ov: Seq<(nat, nat)>,
)
    requires
        crate::netlist::drivers_exist(objs),
        crate::netlist::outputs_exist(objs, outs_before),
        after.len() == objs.len() + 2 * ov.len(),
        objs.len() + 2 * ov.len() <= usize::MAX + 1,
        forall|t: int| 0 <= t < ov.len() ==> crate::netlist::is_output_of(objs, (#[trigger] ov[t]).0 as int, ov[t].1 as int),
        forall|k: int| 0 <= k < objs.len() ==> {
            &&& (#[trigger] after[k]).nets.len() == objs[k].nets.len()
            &&& after[k].drivers.len() == objs[k].drivers.len()
        },
        forall|k: int, q: int|
            0 <= k < objs.len() && 0 <= q < objs[k].drivers.len() ==> #[trigger] after[k].drivers[q]
                == crate::netlist::redirect(objs[k].drivers[q], inverter_pairs(ov, objs.len())),
        forall|t: int| 0 <= t < ov.len() ==> {
            &&& (#[trigger] after[objs.len() + 2 * t]).drivers == seq![Some(ov[t])]
            &&& after[objs.len() + 2 * t].nets.len() == 1
            &&& after[objs.len() + 2 * t + 1].drivers == seq![Some(((objs.len() + 2 * t) as nat, 0nat))]
            &&& after[objs.len() + 2 * t + 1].nets.len() == 1
        },
        outs_after == moved_outputs(outs_before, inverter_pairs(ov, objs.len())),
    ensures
        crate::netlist::drivers_exist(after),
        crate::netlist::outputs_exist(after, outs_after),
{
    let base = objs.len();
    let pairs = inverter_pairs(ov, base);
    assert forall|k: int| 0 <= k < pairs.len() implies crate::netlist::is_output_of(after, (#[trigger] pairs[k]).1.0 as int, pairs[k].1.1 as int) by {
        assert(after[base + 2 * k].nets.len() == 1);
    }
    assert forall|i: int, q: int|
        0 <= i < after.len() && 0 <= q < after[i].drivers.len() && (#[trigger] after[i].drivers[q]) is Some implies {
        ||| i < objs.len() && q < objs[i].drivers.len() && after[i].drivers[q] == objs[i].drivers[q]
        ||| crate::netlist::is_output_of(after, after[i].drivers[q].unwrap().0 as int, after[i].drivers[q].unwrap().1 as int)
    } by {
        if i < base {
            crate::netlist::lemma_redirect_exists(after, objs[i].drivers[q], pairs);
        } else {
            let t = (i - base) / 2;
            assert(0 <= t < ov.len());
            assert(after[base + 2 * t].nets.len() == 1);
            if (i - base) % 2 == 0 {
                assert(i == base + 2 * t);
                assert(after[i].drivers == seq![Some(ov[t])]);
                assert(crate::netlist::is_output_of(objs, ov[t].0 as int, ov[t].1 as int));
                assert(after[ov[t].0 as int].nets.len() == objs[ov[t].0 as int].nets.len());
            } else {
                assert(i == base + 2 * t + 1);
            }
        }
    }
    assert forall|o: (nat, nat, Identifier)| #[trigger] outs_after.contains(o) implies outs_before.contains(o)
        || crate::netlist::is_output_of(after, o.0 as int, o.1 as int) by {
        let o0 = choose|o0: (nat, nat, Identifier)| outs_before.contains(o0) && o == crate::netlist::moved_output(o0, pairs);
        crate::netlist::lemma_redirect_exists(after, Some((o0.0, o0.1)), pairs);
        if o != o0 {
            assert(crate::netlist::is_output_of(after, o.0 as int, o.1 as int));
        }
    }
    crate::netlist::lemma_wf_reshaped(objs, after, outs_before, outs_after);
}

/// Nodes with as many nets give as many outputs.
proof fn lemma_outputs_len_same(a: Seq<ObjectView>, b: Seq<ObjectView>, m: nat)
    requires
        m <= a.len(),
        m <= b.len(),
        forall|j: int| 0 <= j < m ==> (#[trigger] a[j]).nets.len() == b[j].nets.len(),
    ensures
        outputs_upto(a, m).len() == outputs_upto(b, m).len(),
    decreases m,
{
    if m > 0 {
        lemma_outputs_len_same(a, b, (m - 1) as nat);
        assert(a[m - 1].nets.len() == b[m - 1].nets.len());
    }
}

/// Nodes `m0..m` with one net each add one output each.
proof fn lemma_outputs_len_ones(a: Seq<ObjectView>, m0: nat, m: nat)
    requires
        m0 <= m <= a.len(),
        forall|j: int| m0 <= j < m ==> (#[trigger] a[j]).nets.len() == 1,
    ensures
        outputs_upto(a, m).len() == outputs_upto(a, m0).len() + (m - m0),
    decreases m,
{
    if m > m0 {
        lemma_outputs_len_ones(a, m0, (m - 1) as nat);
        assert(a[m - 1].nets.len() == 1);
    }
}

proof fn lemma_redirect_untouched(drv: Option<(nat, nat)>, pairs: Seq<((usize, usize), (usize, usize))>)
    requires
        forall|k: int| 0 <= k < pairs.len() ==> crate::netlist::driver_pair((#[trigger] pairs[k]).0) != drv,
    ensures
        crate::netlist::redirect(drv, pairs) == drv,
    decreases pairs.len(),
{
    if pairs.len() > 0 {
        assert(crate::netlist::driver_pair(pairs[pairs.len() - 1].0) != drv);
        lemma_redirect_untouched(drv, pairs.drop_last());
    }
}

// ---------------------------------------------------------------------------
// Scan chain.
/// Whether node `o` is a flip-flop `FDRE`.
pub open spec fn is_register(o: ObjectView) -> bool {
    o.gate matches Some(g) && gate_name(g) == identifier_from_text("FDRE"@)
}

/// The flip-flops among nodes `0..n`, in order.
pub open spec fn registers(objs: Seq<ObjectView>, n: nat) -> Seq<nat>
    decreases n,
{
    if n == 0 {
        Seq::empty()
    } else {
        let rest = registers(objs, (n - 1) as nat);
        if is_register(objs[n - 1]) {
            rest.push((n - 1) as nat)
        } else {
            rest
        }
    }
}

/// The position of the first `x` in `s`, or the length of `s` when there is none.
pub open spec fn first_index(s: Seq<Identifier>, x: Identifier) -> nat
    decreases s.len(),
{
    if s.len() == 0 {
        0
    } else if s[0] == x {
        0
    } else {
        1 + first_index(s.drop_first(), x)
    }
}

/// The input position of port `D` of the cell type of node `o`.
pub open spec fn d_port(o: ObjectView) -> nat {
    first_index(gate_inputs(o.gate.unwrap()), identifier_from_text("D"@))
}

/// Whether input `D` of flip-flop `o` is connected.
pub open spec fn d_driven(o: ObjectView) -> bool {
    o.drivers[d_port(o) as int] is Some
}

/// What the scan chain needs of the flip-flops: the first drives a net, and
/// every later one has an input `D` that, when connected, belongs to a
/// flip-flop with exactly one net.
pub open spec fn scan_ready(objs: Seq<ObjectView>) -> bool {
    let rs = registers(objs, objs.len());
    &&& rs.len() > 0 ==> objs[rs[0] as int].nets.len() >= 1
    &&& forall|t: int|
        1 <= t < rs.len() ==> {
            let o = #[trigger] objs[rs[t] as int];
            &&& d_port(o) < gate_inputs(o.gate.unwrap()).len()
            &&& d_port(o) < o.drivers.len()
            &&& d_driven(o) ==> o.nets.len() == 1
        }
}

/// The flip-flops `rs[1..t]` whose input `D` is connected: those that the
/// chain goes through after the first.
pub open spec fn chain_links(objs: Seq<ObjectView>, rs: Seq<nat>, t: nat) -> Seq<nat>
    decreases t,
{
    if t <= 1 {
        Seq::empty()
    } else {
        let rest = chain_links(objs, rs, (t - 1) as nat);
        if d_driven(objs[rs[t - 1] as int]) {
            rest.push(rs[t - 1])
        } else {
            rest
        }
    }
}

/// The flip-flops that the scan chain goes through after the first.
pub open spec fn scan_links(objs: Seq<ObjectView>) -> Seq<nat> {
    let rs = registers(objs, objs.len());
    chain_links(objs, rs, rs.len())
}

/// Whether `g` is the multiplexer that the scan chain inserts: `MUX` with
/// inputs `S`, `A`, `B` and output `Y`.
pub open spec fn is_mux(g: Gate) -> bool {
    &&& gate_name(g) == identifier_from_text("MUX"@)
    &&& gate_inputs(g) == seq![identifier_from_text("S"@), identifier_from_text("A"@), identifier_from_text("B"@)]
    &&& gate_outputs(g) == seq![identifier_from_text("Y"@)]
}

/// The name of the multiplexer in front of the `j`-th link `r`.
pub open spec fn mux_name(objs: Seq<ObjectView>, r: nat, j: nat) -> Identifier {
    identifier_join(objs[r as int].name.unwrap(), identifier_from_text("scan_mux_"@ + crate::text::decimal(j)))
}

/// `Inserted a scan chain of length {n}`
pub open spec fn scan_report(n: nat) -> Seq<char> {
    "Inserted a scan chain of length "@ + crate::text::decimal(n)
}

proof fn lemma_registers_facts(objs: Seq<ObjectView>, n: nat)
    requires
        n <= objs.len(),
    ensures
        forall|k: int|
            0 <= k < registers(objs, n).len() ==> #[trigger] registers(objs, n)[k] < n && is_register(
                objs[registers(objs, n)[k] as int],
            ),
        forall|k: int, l: int|
            0 <= k < l < registers(objs, n).len() ==> #[trigger] registers(objs, n)[k] < #[trigger] registers(
                objs,
                n,
            )[l],
    decreases n,
{
    if n > 0 {
        lemma_registers_facts(objs, (n - 1) as nat);
        let rest = registers(objs, (n - 1) as nat);
        let all = registers(objs, n);
        assert forall|k: int| 0 <= k < all.len() implies #[trigger] all[k] < n && is_register(
            objs[all[k] as int],
        ) by {
            if k < rest.len() {
                assert(all[k] == rest[k]);
            }
        }
        assert forall|k: int, l: int| 0 <= k < l < all.len() implies #[trigger] all[k] < #[trigger] all[l] by {
            assert(all[k] == rest[k]);
            if l < rest.len() {
                assert(all[l] == rest[l]);
            }
        }
    }
}

proof fn lemma_registers_prefix(a: Seq<ObjectView>, b: Seq<ObjectView>, n: nat)
    requires
        n <= a.len(),
        n <= b.len(),
        forall|j: int| 0 <= j < n ==> a[j] == b[j],
    ensures
        registers(a, n) == registers(b, n),
    decreases n,
{
    if n > 0 {
        lemma_registers_prefix(a, b, (n - 1) as nat);
    }
}

proof fn lemma_first_index(s: Seq<Identifier>, x: Identifier)
    ensures
        first_index(s, x) <= s.len(),
        forall|k: int| 0 <= k < first_index(s, x) ==> s[k] != x,
        first_index(s, x) < s.len() ==> s[first_index(s, x) as int] == x,
    decreases s.len(),
{
    if s.len() > 0 && s[0] != x {
        lemma_first_index(s.drop_first(), x);
        assert forall|k: int| 0 <= k < first_index(s, x) implies s[k] != x by {
            if k > 0 {
                assert(s[k] == s.drop_first()[k - 1]);
            }
        }
    }
}

proof fn lemma_chain_links_facts(objs: Seq<ObjectView>, rs: Seq<nat>, t: nat)
    requires
        t <= rs.len(),
        forall|k: int, l: int| 0 <= k < l < rs.len() ==> #[trigger] rs[k] < #[trigger] rs[l],
    ensures
        forall|j: int|
            0 <= j < chain_links(objs, rs, t).len() ==> exists|k: int|
                1 <= k < t && #[trigger] chain_links(objs, rs, t)[j] == rs[k],
        forall|j: int, l: int|
            0 <= j < l < chain_links(objs, rs, t).len() ==> #[trigger] chain_links(objs, rs, t)[j]
                < #[trigger] chain_links(objs, rs, t)[l],
        t >= 1 ==> forall|j: int|
            0 <= j < chain_links(objs, rs, t).len() ==> rs[0] < #[trigger] chain_links(objs, rs, t)[j],
        t >= 2 && chain_links(objs, rs, t).len() > 0 ==> chain_links(objs, rs, t).last() <= rs[t - 1],
    decreases t,
{
    if t > 1 {
        lemma_chain_links_facts(objs, rs, (t - 1) as nat);
        let rest = chain_links(objs, rs, (t - 1) as nat);
        let all = chain_links(objs, rs, t);
        assert forall|j: int| 0 <= j < all.len() implies exists|k: int|
            1 <= k < t && #[trigger] all[j] == rs[k] by {
            if j < rest.len() {
                assert(all[j] == rest[j]);
                let k = choose|k: int| 1 <= k < t - 1 && #[trigger] rest[j] == rs[k];
                assert(all[j] == rs[k]);
            } else {
                assert(all[j] == rs[t - 1]);
            }
        }
        assert forall|j: int, l: int| 0 <= j < l < all.len() implies #[trigger] all[j] < #[trigger] all[l] by {
            assert(all[j] == rest[j]);
            if l < rest.len() {
                assert(all[l] == rest[l]);
            } else {
                let k = choose|k: int| 1 <= k < t - 1 && #[trigger] rest[j] == rs[k];
                assert(rs[k] < rs[t - 1]);
            }
        }
        assert forall|j: int| 0 <= j < all.len() implies rs[0] < #[trigger] all[j] by {
            if j < rest.len() {
                assert(all[j] == rest[j]);
                let k = choose|k: int| 1 <= k < t - 1 && #[trigger] rest[j] == rs[k];
                assert(rs[0] < rs[k]);
            } else {
                assert(rs[0] < rs[t - 1]);
            }
        }
        if all.len() > 0 {
            if all.len() == rest.len() {
                if t >= 3 {
                    assert(rest.last() <= rs[t - 2]);
                    assert(rs[t - 2] < rs[t - 1]);
                }
            }
        }
    }
}

/// The multiplexer gate `MUX` (inputs `S`, `A`, `B`, output `Y`).
fn mux() -> (g: Gate)
    ensures
        is_mux(g),
{
    let mut inputs: Vec<String> = Vec::new();
    inputs.push(text_of("S"));
    inputs.push(text_of("A"));
    inputs.push(text_of("B"));
    proof {
        reveal_strlit("MUX");
        reveal_strlit("S");
        reveal_strlit("A");
        reveal_strlit("B");
        reveal_strlit("Y");
    }
    let g = crate::netlist::logic_gate("MUX", &inputs, "Y");
    assert(inputs@.map_values(|s: String| identifier_from_text(s@)) =~= seq![
        identifier_from_text("S"@),
        identifier_from_text("A"@),
        identifier_from_text("B"@),
    ]);
    g
}

/// Whether the flip-flops of the netlist are ready for a scan chain (see
/// [`scan_ready`]); `InsertScanChain` needs it.
pub fn scan_chain_ready(d: &Design) -> (ready: bool)
    ensures
        ready == scan_ready(d@),
{
    let regs = register_scan(d, netlist_len(d));
    proof {
        lemma_registers_facts(d@, d@.len());
        assert forall|k: int| 0 <= k < regs@.len() implies #[trigger] regs@[k] as nat == registers(d@, d@.len())[k] by {
            assert(regs@.map_values(|i: usize| i as nat)[k] == regs@[k] as nat);
        }
        assert forall|k: int| 0 <= k < regs@.len() implies #[trigger] regs@[k] < d@.len() && is_register(d@[regs@[k] as int]) by {
            assert(regs@[k] as nat == registers(d@, d@.len())[k]);
        }
    }
    if regs.len() == 0 {
        return true;
    }
    let nets = crate::netlist::node_nets(d, regs[0]);
    if nets.len() == 0 {
        return false;
    }
    let mut t: usize = 1;
    while t < regs.len()
        invariant
            regs@.map_values(|i: usize| i as nat) == registers(d@, d@.len()),
            forall|k: int|
                0 <= k < regs@.len() ==> #[trigger] regs@[k] < d@.len() && is_register(d@[regs@[k] as int]),
            1 <= t <= regs.len(),
            d@[regs@[0] as int].nets.len() >= 1,
            forall|u: int|
                1 <= u < t ==> {
                    let o = #[trigger] d@[regs@[u] as int];
                    &&& d_port(o) < gate_inputs(o.gate.unwrap()).len()
                    &&& d_port(o) < o.drivers.len()
                    &&& d_driven(o) ==> o.nets.len() == 1
                },
        decreases regs.len() - t,
    {
        let r = regs[t];
        assert(r as nat == registers(d@, d@.len())[t as int]);
        let g = node_gate(d, r).unwrap();
        let port = make_d();
        let q = match crate::netlist::gate_find_input(&g, &port) {
            Some(q) => q,
            None => {
                proof {
                    lemma_first_index(gate_inputs(g), port);
                }
                return false;
            },
        };
        proof {
            lemma_first_index(gate_inputs(g), port);
            if first_index(gate_inputs(g), port) < q {
                assert(gate_inputs(g)[first_index(gate_inputs(g), port) as int] == port);
            }
        }
        if q >= crate::netlist::node_input_count(d, r) {
            return false;
        }
        if crate::netlist::node_driver_net(d, r, q).is_some() {
            let nets = crate::netlist::node_nets(d, r);
            if nets.len() != 1 {
                return false;
            }
        }
        t = t + 1;
    }
    proof {
        assert forall|u: int| 1 <= u < regs@.len() implies {
            let o = #[trigger] d@[registers(d@, d@.len())[u] as int];
            &&& d_port(o) < gate_inputs(o.gate.unwrap()).len()
            &&& d_port(o) < o.drivers.len()
            &&& d_driven(o) ==> o.nets.len() == 1
        } by {
            assert(registers(d@, d@.len())[u] == regs@[u] as nat);
        }
    }
    true
}

/// The identifier `D`.
fn make_d() -> (id: Identifier)
    ensures
        id == identifier_from_text("D"@),
{
    proof {
        reveal_strlit("D");
    }
    make_identifier("D")
}

/// The flip-flops among nodes `0..n`, in order.
fn register_scan(d: &Design, n: usize) -> (regs: Vec<usize>)
    requires
        n <= d@.len(),
    ensures
        regs@.map_values(|i: usize| i as nat) == registers(d@, n as nat),
{
    proof {
        reveal_strlit("FDRE");
    }
    let fdre = make_identifier("FDRE");
    let mut regs: Vec<usize> = Vec::new();
    let mut i: usize = 0;
    while i < n
        invariant
            n <= d@.len(),
            i <= n,
            fdre == identifier_from_text("FDRE"@),
            regs@.map_values(|i: usize| i as nat) == registers(d@, i as nat),
        decreases n - i,
    {
        match node_gate(d, i) {
            Some(g) => {
                let name = gate_name_of(&g);
                if crate::netlist::same_identifier(&name, &fdre) {
                    let ghost before = regs@.map_values(|i: usize| i as nat);
                    regs.push(i);
                    assert(regs@.map_values(|i: usize| i as nat) =~= before.push(i as nat));
                }
            },
            None => {},
        }
        i = i + 1;
    }
    regs
}

/// The input position of port `D` of flip-flop `r`.
fn d_input(d: &Design, r: usize) -> (q: usize)
    requires
        r < d@.len(),
        d@[r as int].gate is Some,
        d_port(d@[r as int]) < gate_inputs(d@[r as int].gate.unwrap()).len(),
    ensures
        q == d_port(d@[r as int]),
{
    let g = node_gate(d, r).unwrap();
    let port = make_d();
    proof {
        lemma_first_index(gate_inputs(g), port);
    }
    let found = crate::netlist::gate_find_input(&g, &port);
    proof {
        if found is None {
            assert(gate_inputs(g)[first_index(gate_inputs(g), port) as int] == port);
        }
    }
    let q = found.unwrap();
    proof {
        if first_index(gate_inputs(g), port) < q {
            assert(gate_inputs(g)[first_index(gate_inputs(g), port) as int] == port);
        }
    }
    q
}

/// Puts the `j`-th multiplexer of the chain in front of input `q` of
/// flip-flop `r`: it selects with `scan_en` between `prev` and the old driver
/// of that input, which it now drives.
fn link_register(d: &mut Design, scan_en: usize, prev: usize, r: usize, q: usize, j: usize) -> (m: usize)
    requires
        crate::netlist::is_output_of(old(d)@, scan_en as int, 0),
        crate::netlist::is_output_of(old(d)@, prev as int, 0),
        crate::netlist::is_instance(old(d)@, r as int),
        q < old(d)@[r as int].drivers.len(),
        old(d)@[r as int].drivers[q as int] is Some,
    ensures
        crate::netlist::netlist_name(*final(d)) == crate::netlist::netlist_name(*old(d)),
        crate::netlist::well_formed(*old(d)) ==> crate::netlist::well_formed(*final(d)),
        m == old(d)@.len(),
        final(d)@.len() == old(d)@.len() + 1,
        forall|k: int| 0 <= k < old(d)@.len() && k != r ==> #[trigger] final(d)@[k] == old(d)@[k],
        final(d)@[r as int] == crate::netlist::with_driver(old(d)@[r as int], q as int, m as nat, 0),
        final(d)@[m as int].gate matches Some(g) && is_mux(g),
        final(d)@[m as int].name == Some(
            identifier_join(old(d)@[r as int].name.unwrap(), identifier_from_text("scan_mux_"@ + crate::text::decimal(j as nat))),
        ),
        final(d)@[m as int].drivers == seq![
            Some((scan_en as nat, 0nat)),
            Some((prev as nat, 0nat)),
            old(d)@[r as int].drivers[q as int],
        ],
        top_outputs(*final(d)) == top_outputs(*old(d)),
{
    let ghost start = d@;
    let ghost start_design = *d;
    let name = crate::netlist::node_name(d, r).unwrap();
    let mut suffix_text = text_of("scan_mux_");
    crate::text::push_decimal(&mut suffix_text, j);
    proof {
        reveal_strlit("scan_mux_");
    }
    let suffix = make_identifier(suffix_text.as_str());
    let mname = join_identifiers(&name, &suffix);
    let g = mux();
    let m = d.add_gate_disconnected(g, mname);
    assert(d@[m as int].drivers =~= seq![None::<(nat, nat)>, None, None]);
    assert(d@[m as int].nets.len() == 1);
    crate::netlist::netlist_connect(d, m, 0, scan_en, 0);
    crate::netlist::netlist_connect(d, m, 1, prev, 0);
    crate::netlist::netlist_connect_to_driver(d, m, 2, r, q);
    crate::netlist::netlist_connect(d, r, q, m, 0);
    proof {
        assert(d@[m as int].drivers =~= seq![
            Some((scan_en as nat, 0nat)),
            Some((prev as nat, 0nat)),
            start[r as int].drivers[q as int],
        ]);
        if crate::netlist::well_formed(start_design) {
            let after = d@;
            assert forall|i: int, k: int|
                0 <= i < after.len() && 0 <= k < after[i].drivers.len() && (#[trigger] after[i].drivers[k]) is Some implies {
                ||| i < start.len() && k < start[i].drivers.len() && after[i].drivers[k] == start[i].drivers[k]
                ||| crate::netlist::is_output_of(after, after[i].drivers[k].unwrap().0 as int, after[i].drivers[k].unwrap().1 as int)
            } by {
                if i == m as int {
                    if k == 2 {
                        let (jj, pp) = start[r as int].drivers[q as int].unwrap();
                        assert(crate::netlist::is_output_of(start, jj as int, pp as int));
                        if jj != r {
                            assert(after[jj as int] == start[jj as int]);
                        }
                    } else if k == 1 {
                        if prev != r {
                            assert(after[prev as int] == start[prev as int]);
                        }
                    } else {
                        if scan_en != r {
                            assert(after[scan_en as int] == start[scan_en as int]);
                        }
                    }
                } else if i == r as int && k == q as int {
                } else {
                    assert(i < start.len());
                }
            }
            assert forall|k: int| 0 <= k < start.len() implies (#[trigger] after[k]).nets.len() == start[k].nets.len() by {
                if k != r {
                    assert(after[k] == start[k]);
                }
            }
            crate::netlist::lemma_wf_reshaped(start, after, top_outputs(start_design), top_outputs(*d));
        }
    }
    m
}

/// The `j`-th flip-flop of the chain.
pub open spec fn chain_link(links: Seq<nat>, j: int) -> nat {
    links[j]
}

/// The netlist `cur` after chaining the flip-flops `links` of `objs` (of
/// `base` nodes, with flip-flops `rs`): `scan_en` is node `base`, the `j`-th
/// multiplexer is node `base + 1 + j` and drives input `D` of `links[j]`;
/// every other node of `objs` is as it was.
#[verifier::opaque]
pub open spec fn chain_built(
    cur: Seq<ObjectView>,
    objs: Seq<ObjectView>,
    base: nat,
    rs: Seq<nat>,
    links: Seq<nat>,
) -> bool {
    &&& cur.len() == base + 1 + links.len()
    &&& cur[base as int] == crate::netlist::input_object(identifier_from_text("scan_en"@))
    &&& forall|k: int| 0 <= k < base && !links.contains(k as nat) ==> #[trigger] cur[k] == objs[k]
    &&& forall|j: int|
        #![trigger chain_link(links, j)]
        0 <= j < links.len() ==> {
            let reg = chain_link(links, j) as int;
            let m = base + 1 + j;
            let o = objs[reg];
            &&& cur[reg] == crate::netlist::with_driver(o, d_port(o) as int, m as nat, 0)
            &&& cur[m].gate matches Some(g) && is_mux(g)
            &&& cur[m].name == Some(mux_name(objs, links[j], j as nat))
            &&& cur[m].drivers == seq![
                Some((base as nat, 0nat)),
                Some((if j == 0 { rs[0] } else { links[j - 1] }, 0nat)),
                o.drivers[d_port(o) as int],
            ]
        }
}

proof fn lemma_chain_start(cur: Seq<ObjectView>, objs: Seq<ObjectView>, base: nat, rs: Seq<nat>)
    requires
        base == objs.len(),
        cur == objs.push(crate::netlist::input_object(identifier_from_text("scan_en"@))),
    ensures
        chain_built(cur, objs, base, rs, Seq::empty()),
{
    reveal(chain_built);
}

proof fn lemma_chain_untouched(cur: Seq<ObjectView>, objs: Seq<ObjectView>, base: nat, rs: Seq<nat>, links: Seq<nat>, k: int)
    requires
        chain_built(cur, objs, base, rs, links),
        0 <= k < base,
        !links.contains(k as nat),
    ensures
        cur[k] == objs[k],
        cur.len() == base + 1 + links.len(),
        cur[base as int] == crate::netlist::input_object(identifier_from_text("scan_en"@)),
{
    reveal(chain_built);
}

proof fn lemma_chain_linked(cur: Seq<ObjectView>, objs: Seq<ObjectView>, base: nat, rs: Seq<nat>, links: Seq<nat>, j: int)
    requires
        chain_built(cur, objs, base, rs, links),
        0 <= j < links.len(),
    ensures
        cur[links[j] as int].nets == objs[links[j] as int].nets,
        cur.len() == base + 1 + links.len(),
{
    reveal(chain_built);
    assert(chain_link(links, j) == links[j]);
}

/// What one step of the chain does to the netlist.
pub open spec fn chain_step(
    before: Seq<ObjectView>,
    after: Seq<ObjectView>,
    objs: Seq<ObjectView>,
    base: nat,
    rs: Seq<nat>,
    links: Seq<nat>,
    r: nat,
    prev: nat,
) -> bool {
    &&& r < base
    &&& !links.contains(r)
    &&& (forall|j: int| 0 <= j < links.len() ==> #[trigger] links[j] < r)
    &&& prev == (if links.len() == 0 { rs[0] } else { links.last() })
    &&& before[r as int] == objs[r as int]
    &&& after.len() == before.len() + 1
    &&& (forall|k: int| 0 <= k < before.len() && k != r ==> #[trigger] after[k] == before[k])
    &&& after[r as int] == crate::netlist::with_driver(before[r as int], d_port(objs[r as int]) as int, before.len(), 0)
    &&& after[before.len() as int].gate matches Some(g) && is_mux(g)
    &&& after[before.len() as int].name == Some(mux_name(objs, r, links.len()))
    &&& after[before.len() as int].drivers == seq![
        Some((base as nat, 0nat)),
        Some((prev, 0nat)),
        objs[r as int].drivers[d_port(objs[r as int]) as int],
    ]
}

proof fn lemma_chain_step_untouched(
    before: Seq<ObjectView>,
    after: Seq<ObjectView>,
    objs: Seq<ObjectView>,
    base: nat,
    rs: Seq<nat>,
    links: Seq<nat>,
    r: nat,
    prev: nat,
    k: int,
)
    requires
        chain_built(before, objs, base, rs, links),
        chain_step(before, after, objs, base, rs, links, r, prev),
        0 <= k < base,
        !links.push(r).contains(k as nat),
    ensures
        after[k] == objs[k],
{
    reveal(chain_built);
    if links.contains(k as nat) {
        let j = choose|j: int| 0 <= j < links.len() && links[j] == k as nat;
        assert(links.push(r)[j] == k as nat);
    }
    assert(links.push(r)[links.len() as int] == r);
    assert(k != r);
    assert(after[k] == before[k]);
}

proof fn lemma_chain_fact(cur: Seq<ObjectView>, objs: Seq<ObjectView>, base: nat, rs: Seq<nat>, links: Seq<nat>, j: int)
    requires
        chain_built(cur, objs, base, rs, links),
        0 <= j < links.len(),
    ensures
        cur.len() == base + 1 + links.len(),
        ({
            let reg = links[j] as int;
            let m = base + 1 + j;
            let o = objs[reg];
            &&& cur[reg] == crate::netlist::with_driver(o, d_port(o) as int, m as nat, 0)
            &&& cur[m].gate matches Some(g) && is_mux(g)
            &&& cur[m].name == Some(mux_name(objs, links[j], j as nat))
            &&& cur[m].drivers == seq![
                Some((base as nat, 0nat)),
                Some((if j == 0 { rs[0] } else { links[j - 1] }, 0nat)),
                o.drivers[d_port(o) as int],
            ]
        }),
{
    reveal(chain_built);
    assert(chain_link(links, j) == links[j]);
}

proof fn lemma_chain_step_link(
    before: Seq<ObjectView>,
    after: Seq<ObjectView>,
    objs: Seq<ObjectView>,
    base: nat,
    rs: Seq<nat>,
    links: Seq<nat>,
    r: nat,
    prev: nat,
    j: int,
)
    requires
        chain_built(before, objs, base, rs, links),
        chain_step(before, after, objs, base, rs, links, r, prev),
        0 <= j < links.len() + 1,
    ensures
        ({
            let nl = links.push(r);
            let reg = nl[j] as int;
            let m = base + 1 + j;
            let o = objs[reg];
            &&& after[reg] == crate::netlist::with_driver(o, d_port(o) as int, m as nat, 0)
            &&& after[m].gate matches Some(g) && is_mux(g)
            &&& after[m].name == Some(mux_name(objs, nl[j], j as nat))
            &&& after[m].drivers == seq![
                Some((base as nat, 0nat)),
                Some((if j == 0 { rs[0] } else { nl[j - 1] }, 0nat)),
                o.drivers[d_port(o) as int],
            ]
        }),
{
    let nl = links.push(r);
    lemma_chain_untouched_len(before, objs, base, rs, links);
    if j < links.len() {
        lemma_chain_fact(before, objs, base, rs, links, j);
        assert(nl[j] == links[j]);
        assert(links[j] < r);
        let m = base + 1 + j;
        assert(after[links[j] as int] == before[links[j] as int]);
        assert(after[m] == before[m]);
        if j > 0 {
            assert(nl[j - 1] == links[j - 1]);
        }
    } else {
        assert(nl[j] == r);
        if j > 0 {
            assert(nl[j - 1] == links.last());
        }
    }
}

proof fn lemma_chain_untouched_len(cur: Seq<ObjectView>, objs: Seq<ObjectView>, base: nat, rs: Seq<nat>, links: Seq<nat>)
    requires
        chain_built(cur, objs, base, rs, links),
    ensures
        cur.len() == base + 1 + links.len(),
        cur[base as int] == crate::netlist::input_object(identifier_from_text("scan_en"@)),
{
    reveal(chain_built);
}

proof fn lemma_chain_step(
    before: Seq<ObjectView>,
    after: Seq<ObjectView>,
    objs: Seq<ObjectView>,
    base: nat,
    rs: Seq<nat>,
    links: Seq<nat>,
    r: nat,
    prev: nat,
)
    requires
        chain_built(before, objs, base, rs, links),
        chain_step(before, after, objs, base, rs, links, r, prev),
    ensures
        chain_built(after, objs, base, rs, links.push(r)),
{
    let nl = links.push(r);
    assert forall|k: int| 0 <= k < base && !nl.contains(k as nat) implies #[trigger] after[k] == objs[k] by {
        lemma_chain_step_untouched(before, after, objs, base, rs, links, r, prev, k);
    }
    assert forall|j: int| #![trigger chain_link(nl, j)] 0 <= j < nl.len() implies {
        let reg = chain_link(nl, j) as int;
        let m = base + 1 + j;
        let o = objs[reg];
        &&& after[reg] == crate::netlist::with_driver(o, d_port(o) as int, m as nat, 0)
        &&& after[m].gate matches Some(g) && is_mux(g)
        &&& after[m].name == Some(mux_name(objs, nl[j], j as nat))
        &&& after[m].drivers == seq![
            Some((base as nat, 0nat)),
            Some((if j == 0 { rs[0] } else { nl[j - 1] }, 0nat)),
            o.drivers[d_port(o) as int],
        ]
    } by {
        lemma_chain_step_link(before, after, objs, base, rs, links, r, prev, j);
    }
    assert(after[base as int] == before[base as int]) by {
        reveal(chain_built);
    }
    assert(after.len() == base + 1 + nl.len()) by {
        reveal(chain_built);
    }
    reveal(chain_built);
}

/// The flip-flop at the end of the scan chain: the last one linked, or the
/// first flip-flop where none is.
pub open spec fn scan_chain_end(objs: Seq<ObjectView>) -> nat {
    let links = scan_links(objs);
    if links.len() > 0 {
        links.last()
    } else {
        registers(objs, objs.len())[0]
    }
}

/// What inserting the scan chain into `objs` (with top-level outputs
/// `outputs`) gives: the netlist `after`, its top-level outputs
/// `outputs_after`, and the report `r` (see [`InsertScanChain::run`]).
pub open spec fn scan_chain_result(
    objs: Seq<ObjectView>,
    outputs: Set<(nat, nat, Identifier)>,
    after: Seq<ObjectView>,
    outputs_after: Set<(nat, nat, Identifier)>,
    r: Result<String, Error>,
) -> bool {
    let base = objs.len();
    let rs = registers(objs, base);
    let links = scan_links(objs);
    &&& rs.len() == 0 ==> (r matches Ok(s) && s@ == "No FDREs found, no scan chain inserted"@)
    &&& rs.len() == 0 ==> after == objs.push(crate::netlist::input_object(identifier_from_text("scan_en"@)))
    &&& rs.len() == 0 ==> outputs_after == outputs
    &&& rs.len() > 0 ==> (r matches Ok(s) && s@ == scan_report(links.len()))
    &&& rs.len() > 0 ==> chain_built(after, objs, base, rs, links)
    &&& rs.len() > 0 ==> outputs_after == outputs.insert(
        (scan_chain_end(objs), 0nat, identifier_from_text("scan_out"@)),
    )
}

proof fn lemma_chain_links_last(objs: Seq<ObjectView>, rs: Seq<nat>, t: nat)
    requires
        t <= rs.len(),
    ensures
        chain_links(objs, rs, t).len() > 0 ==> exists|t1: int|
            1 <= t1 < t && chain_links(objs, rs, t).last() == #[trigger] rs[t1] && forall|t2: int|
                t1 < t2 < t ==> !d_driven(objs[#[trigger] rs[t2] as int]),
        chain_links(objs, rs, t).len() == 0 ==> forall|t2: int| 1 <= t2 < t ==> !d_driven(objs[#[trigger] rs[t2] as int]),
    decreases t,
{
    if t > 1 {
        lemma_chain_links_last(objs, rs, (t - 1) as nat);
        let rest = chain_links(objs, rs, (t - 1) as nat);
        let all = chain_links(objs, rs, t);
        if d_driven(objs[rs[t - 1] as int]) {
            assert(all.last() == rs[t - 1]);
        } else {
            assert(all == rest);
            if rest.len() > 0 {
                let t1 = choose|t1: int|
                    1 <= t1 < t - 1 && rest.last() == #[trigger] rs[t1] && forall|t2: int|
                        t1 < t2 < t - 1 ==> !d_driven(objs[#[trigger] rs[t2] as int]);
                assert(forall|t2: int| t1 < t2 < t ==> !d_driven(objs[#[trigger] rs[t2] as int]));
            }
        }
    }
}

proof fn lemma_chain_links_prefix(objs: Seq<ObjectView>, rs: Seq<nat>, a: nat, b: nat)
    requires
        a <= b <= rs.len(),
    ensures
        chain_links(objs, rs, a).len() <= chain_links(objs, rs, b).len(),
        forall|j: int| 0 <= j < chain_links(objs, rs, a).len() ==> #[trigger] chain_links(objs, rs, a)[j]
            == chain_links(objs, rs, b)[j],
    decreases b,
{
    if b > a {
        lemma_chain_links_prefix(objs, rs, a, (b - 1) as nat);
        let mid = chain_links(objs, rs, (b - 1) as nat);
        let all = chain_links(objs, rs, b);
        assert forall|j: int| 0 <= j < mid.len() implies #[trigger] mid[j] == all[j] by {
            if b > 1 && d_driven(objs[rs[b - 1] as int]) {
                assert(all == mid.push(rs[b - 1]));
            }
        }
    }
}

/// Where `InsertScanChain` builds a chain, every flip-flop after the first
/// whose input `D` is connected gets a multiplexer (a node it added) in front
/// of `D`; the multiplexer reads `scan_en` (the input it added) on `S`, the
/// previous flip-flop of the chain on `A` (the nearest earlier flip-flop
/// whose `D` is connected, or the first flip-flop) and the old driver of `D`
/// on `B`.
pub proof fn scan_chain_links_each_flip_flop(
    objs: Seq<ObjectView>,
    outputs: Set<(nat, nat, Identifier)>,
    after: Seq<ObjectView>,
    outputs_after: Set<(nat, nat, Identifier)>,
    r: Result<String, Error>,
    t: int,
)
    requires
        scan_ready(objs),
        1 <= t < registers(objs, objs.len()).len(),
        scan_chain_result(objs, outputs, after, outputs_after, r),
        d_driven(objs[registers(objs, objs.len())[t] as int]),
    ensures
        ({
            let rs = registers(objs, objs.len());
            let o = objs[rs[t] as int];
            let drv = after[rs[t] as int].drivers[d_port(o) as int];
            let m = drv.unwrap().0;
            &&& after[objs.len() as int] == crate::netlist::input_object(identifier_from_text("scan_en"@))
            &&& drv is Some
            &&& drv.unwrap().1 == 0
            &&& objs.len() < m < after.len()
            &&& after[m as int].gate is Some
            &&& is_mux(after[m as int].gate.unwrap())
            &&& after[m as int].drivers[0] == Some((objs.len(), 0nat))
            &&& after[m as int].drivers[2] == o.drivers[d_port(o) as int]
            &&& exists|t1: int|
                0 <= t1 < t && (t1 == 0 || d_driven(objs[#[trigger] rs[t1] as int])) && after[m as int].drivers[1]
                    == Some((rs[t1], 0nat)) && forall|t2: int| t1 < t2 < t ==> !d_driven(objs[#[trigger] rs[t2] as int])
        }),
{
    let base = objs.len();
    let rs = registers(objs, base);
    let links = scan_links(objs);
    let o = objs[rs[t] as int];
    lemma_registers_facts(objs, base);
    let before = chain_links(objs, rs, t as nat);
    let upto = chain_links(objs, rs, (t + 1) as nat);
    assert(upto == before.push(rs[t]));
    lemma_chain_links_prefix(objs, rs, (t + 1) as nat, rs.len());
    let j = before.len() as int;
    assert(upto[j] == rs[t]);
    assert(links[j] == rs[t]);
    lemma_chain_fact(after, objs, base, rs, links, j);
    assert(after[base as int] == crate::netlist::input_object(identifier_from_text("scan_en"@))) by {
        reveal(chain_built);
    }
    assert(d_port(o) < o.drivers.len());
    lemma_chain_links_last(objs, rs, t as nat);
    let m = base + 1 + j;
    if j == 0 {
        assert(rs[0] == rs[0]);
        assert(after[m].drivers[1] == Some((rs[0], 0nat)));
        assert(forall|t2: int| 0 < t2 < t ==> !d_driven(objs[#[trigger] rs[t2] as int]));
    } else {
        let t1 = choose|t1: int|
            1 <= t1 < t && before.last() == #[trigger] rs[t1] && forall|t2: int|
                t1 < t2 < t ==> !d_driven(objs[#[trigger] rs[t2] as int]);
        lemma_chain_links_prefix(objs, rs, t as nat, rs.len());
        assert(links[j - 1] == before[j - 1]);
        lemma_chain_links_members_driven(objs, rs, t as nat, j - 1);
        let k = choose|k: int| 1 <= k < t && before[j - 1] == #[trigger] rs[k] && d_driven(objs[rs[k] as int]);
        assert(before.last() == before[j - 1]);
        if k != t1 {
            if k < t1 {
                assert(rs[k] < rs[t1]);
            } else {
                assert(rs[t1] < rs[k]);
            }
        }
        assert(d_driven(objs[rs[t1] as int]));
        assert(after[m].drivers[1] == Some((rs[t1], 0nat)));
    }
}

proof fn lemma_chain_links_members_driven(objs: Seq<ObjectView>, rs: Seq<nat>, t: nat, j: int)
    requires
        t <= rs.len(),
        0 <= j < chain_links(objs, rs, t).len(),
    ensures
        exists|k: int| 1 <= k < t && chain_links(objs, rs, t)[j] == #[trigger] rs[k] && d_driven(objs[rs[k] as int]),
    decreases t,
{
    if t > 1 {
        let rest = chain_links(objs, rs, (t - 1) as nat);
        if j < rest.len() {
            lemma_chain_links_members_driven(objs, rs, (t - 1) as nat, j);
            let k = choose|k: int| 1 <= k < t - 1 && rest[j] == #[trigger] rs[k] && d_driven(objs[rs[k] as int]);
            if d_driven(objs[rs[t - 1] as int]) {
                assert(chain_links(objs, rs, t) == rest.push(rs[t - 1]));
            }
            assert(chain_links(objs, rs, t)[j] == rs[k]);
        } else {
            assert(chain_links(objs, rs, t)[j] == rs[t - 1]);
        }
    }
}

/// `InsertScanChain` exposes `scan_out` on output 0 of the last flip-flop
/// of the chain: where it put multiplexers in, the flip-flop whose input `D`
/// the last multiplexer (the last node it added) drives; where it put none,
/// the first flip-flop.  That is the only top-level output it adds.
pub proof fn scan_out_ends_the_chain(
    objs: Seq<ObjectView>,
    outputs: Set<(nat, nat, Identifier)>,
    after: Seq<ObjectView>,
    outputs_after: Set<(nat, nat, Identifier)>,
    r: Result<String, Error>,
)
    requires
        scan_ready(objs),
        registers(objs, objs.len()).len() > 0,
        scan_chain_result(objs, outputs, after, outputs_after, r),
    ensures
        exists|e: nat|
            {
                &&& e < objs.len()
                &&& is_register(objs[e as int])
                &&& outputs_after == outputs.insert((e, 0nat, identifier_from_text("scan_out"@)))
                &&& after.len() > objs.len() + 1 ==> after[e as int].drivers[d_port(objs[e as int]) as int] == Some(
                    ((after.len() - 1) as nat, 0nat),
                )
                &&& after.len() <= objs.len() + 1 ==> e == registers(objs, objs.len())[0]
            },
{
    let base = objs.len();
    let rs = registers(objs, base);
    let links = scan_links(objs);
    lemma_registers_facts(objs, base);
    lemma_chain_links_facts(objs, rs, rs.len());
    let e = scan_chain_end(objs);
    if links.len() > 0 {
        let j = links.len() - 1;
        lemma_chain_fact(after, objs, base, rs, links, j);
        let k = choose|k: int| 1 <= k < rs.len() && #[trigger] links[j] == rs[k];
        assert(links[j] == rs[k]);
        let o = objs[rs[k] as int];
        assert(d_port(o) < o.drivers.len());
        assert(links.last() == links[j]);
        assert(after[e as int].drivers[d_port(objs[e as int]) as int] == Some(((after.len() - 1) as nat, 0nat)));
    } else {
        assert(after.len() == base + 1) by {
            reveal(chain_built);
        }
    }
    assert(e < objs.len() && is_register(objs[e as int]));
}

/// Insert a scan chain along the FDREs
#[derive(Debug)]
pub struct InsertScanChain;

impl InsertScanChain {
    /// The name of the pass.
    pub fn name(&self) -> (s: String)
        ensures
            s@ == "InsertScanChain"@,
    {
        text_of("InsertScanChain")
    }

    /// Adds an input `scan_en`, then chains the flip-flops: in front of the
    /// input `D` of every flip-flop after the first whose `D` is connected, a
    /// multiplexer `{instance}_scan_mux_{j}` selects with `scan_en` between
    /// the previous flip-flop of the chain and the old driver of `D` (see
    /// [`chain_built`]).  The last flip-flop of the chain becomes the output
    /// `scan_out`.
    pub fn run(&self, d: &mut Design) -> (r: Result<String, Error>)
        requires
            scan_ready(old(d)@),
        ensures
            crate::netlist::well_formed(*old(d)) ==> crate::netlist::well_formed(*final(d)),
            crate::netlist::netlist_name(*final(d)) == crate::netlist::netlist_name(*old(d)),
            scan_chain_result(old(d)@, top_outputs(*old(d)), final(d)@, top_outputs(*final(d)), r),
    {
        let ghost start = d@;
        let ghost outputs = top_outputs(*d);
        let n0 = netlist_len(d);
        let regs = register_scan(d, n0);
        let ghost rs = registers(start, n0 as nat);
        proof {
            lemma_registers_facts(start, n0 as nat);
            assert forall|k: int| 0 <= k < regs@.len() implies #[trigger] regs@[k] as nat == rs[k] by {
                assert(regs@.map_values(|i: usize| i as nat)[k] == regs@[k] as nat);
            }
            reveal_strlit("scan_en");
        }
        let scan_en = d.add_input("scan_en");
        if regs.len() == 0 {
            return Ok(text_of("No FDREs found, no scan chain inserted"));
        }
        proof {
            lemma_chain_start(d@, start, n0 as nat, rs);
        }
        let mut prev: usize = regs[0];
        let mut n: usize = 0;
        let mut t: usize = 1;
        let ghost mut links: Seq<nat> = Seq::empty();
        while t < regs.len()
            invariant
                n0 == start.len(),
                scan_en == n0,
                scan_ready(start),
                rs == registers(start, n0 as nat),
                regs@.len() == rs.len(),
                rs.len() > 0,
                forall|k: int| 0 <= k < regs@.len() ==> #[trigger] regs@[k] as nat == rs[k],
                forall|k: int| 0 <= k < rs.len() ==> #[trigger] rs[k] < n0 && is_register(start[rs[k] as int]),
                forall|k: int, l: int| 0 <= k < l < rs.len() ==> #[trigger] rs[k] < #[trigger] rs[l],
                1 <= t <= rs.len(),
                links == chain_links(start, rs, t as nat),
                n == links.len(),
                forall|j: int| 0 <= j < links.len() ==> rs[0] < #[trigger] links[j] <= rs[t - 1],
                forall|j: int| 0 <= j < links.len() ==> start[#[trigger] links[j] as int].nets.len() == 1,
                prev as nat == (if n == 0 { rs[0] } else { links.last() }),
                start[prev as int].nets.len() >= 1,
                top_outputs(*d) == outputs,
                crate::netlist::netlist_name(*d) == crate::netlist::netlist_name(*old(d)),
                crate::netlist::well_formed(*old(d)) ==> crate::netlist::well_formed(*d),
                chain_built(d@, start, n0 as nat, rs, links),
            decreases regs.len() - t,
        {
            let r = regs[t];
            let ghost before = d@;
            proof {
                assert(r as nat == rs[t as int]);
                assert(rs[t as int - 1] < rs[t as int]);
                assert(!links.contains(r as nat)) by {
                    if links.contains(r as nat) {
                        let j = choose|j: int| 0 <= j < links.len() && links[j] == r as nat;
                    }
                }
                lemma_chain_untouched(d@, start, n0 as nat, rs, links, r as int);
                let o = start[rs[t as int] as int];
                assert(d_port(o) < gate_inputs(o.gate.unwrap()).len());
            }
            let q = d_input(d, r);
            let drv = crate::netlist::node_driver_net(d, r, q);
            if drv.is_none() {
                proof {
                    assert(chain_links(start, rs, t as nat + 1) == links);
                }
                t = t + 1;
                continue;
            }
            proof {
                assert(start[rs[t as int] as int].nets.len() == 1);
                if n == 0 {
                    assert(!links.contains(rs[0])) by {
                        if links.contains(rs[0]) {
                            let j = choose|j: int| 0 <= j < links.len() && links[j] == rs[0];
                        }
                    }
                    lemma_chain_untouched(d@, start, n0 as nat, rs, links, rs[0] as int);
                } else {
                    lemma_chain_linked(d@, start, n0 as nat, rs, links, links.len() - 1);
                }
                lemma_chain_untouched(d@, start, n0 as nat, rs, links, r as int);
            }
            let m = link_register(d, scan_en, prev, r, q, n);
            proof {
                assert(chain_step(before, d@, start, n0 as nat, rs, links, r as nat, prev as nat));
                lemma_chain_step(before, d@, start, n0 as nat, rs, links, r as nat, prev as nat);
                links = links.push(r as nat);
                assert(chain_links(start, rs, t as nat + 1) == links);
            }
            prev = r;
            n = n + 1;
            t = t + 1;
        }
        proof {
            reveal_strlit("scan_out");
            if n == 0 {
                assert(!links.contains(rs[0])) by {
                    if links.contains(rs[0]) {
                        let j = choose|j: int| 0 <= j < links.len() && links[j] == rs[0];
                    }
                }
                lemma_chain_untouched(d@, start, n0 as nat, rs, links, rs[0] as int);
            } else {
                lemma_chain_linked(d@, start, n0 as nat, rs, links, links.len() - 1);
            }
        }
        let ghost chained = *d;
        crate::netlist::netlist_expose(d, prev, 0, "scan_out");
        proof {
            if crate::netlist::well_formed(chained) {
                crate::netlist::lemma_wf_reshaped(chained@, d@, top_outputs(chained), top_outputs(*d));
            }
        }
        let mut s = text_of("Inserted a scan chain of length ");
        crate::text::push_decimal(&mut s, n);
        Ok(s)
    }
    /// Runs the pass where the flip-flops are ready for it ([`scan_ready`]);
    /// where they are not, leaves the netlist as it is and gives `None`.
    pub fn try_run(&self, d: &mut Design) -> (r: Option<Result<String, Error>>)
        ensures
            crate::netlist::well_formed(*old(d)) ==> crate::netlist::well_formed(*final(d)),
            crate::netlist::netlist_name(*final(d)) == crate::netlist::netlist_name(*old(d)),
            r is None <==> !scan_ready(old(d)@),
            r is None ==> *final(d) == *old(d),
            r matches Some(res) ==> scan_chain_result(
                old(d)@,
                top_outputs(*old(d)),
                final(d)@,
                top_outputs(*final(d)),
                res,
            ),
    {
        if scan_chain_ready(d) {
            Some(self.run(d))
        } else {
            None
        }
    }
}

/// Explicity inverts the clock of a cell that has a `IS_CLK_INVERTED` param
#[derive(Debug)]
pub struct ExtractInvClock;

impl ExtractInvClock {
    /// The name of the pass.
    pub fn name(&self) -> (s: String)
        ensures
            s@ == "ExtractInvClock"@,
    {
        text_of("ExtractInvClock")
    }

    /// For every instance whose `IS_CLK_INVERTED` parameter is true, puts an
    /// inverter `{instance}_{port}_inv` in front of its connected input `C`
    /// and clears the parameter.  A gate carries no parameter, so no instance
    /// of a gate netlist qualifies and the netlist stays as it is.
    pub fn run(&self, d: &mut Design) -> (r: Result<String, Error>)
        ensures
            *final(d) == *old(d),
            r matches Ok(s) && s@ == "Explicitly inverted all inverted pins"@,
    {
        let ghost start = d@;
        let ghost start_design = *d;
        proof {
            reveal_strlit("IS_CLK_INVERTED");
            reveal_strlit("C");
            reveal_strlit("inv");
        }
        let flag = make_identifier("IS_CLK_INVERTED");
        let clock = make_identifier("C");
        let n = netlist_len(d);
        let mut i: usize = 0;
        while i < n
            invariant
                n == start.len(),
                d@ == start,
                *d == start_design,
                i <= n,
            decreases n - i,
        {
            let g = match node_gate(d, i) {
                Some(g) => g,
                None => {
                    i = i + 1;
                    continue;
                },
            };
            if !crate::netlist::gate_flag_set(&g, &flag) {
                i = i + 1;
                continue;
            }
            let q = match crate::netlist::gate_find_input(&g, &clock) {
                Some(q) => q,
                None => {
                    i = i + 1;
                    continue;
                },
            };
            if q >= crate::netlist::node_input_count(d, i) || crate::netlist::node_driver_net(d, i, q).is_none() {
                i = i + 1;
                continue;
            }
            let name = crate::netlist::node_name(d, i).unwrap();
            let port = &gate_inputs_of(&g)[q];
            let inv_id = make_identifier("inv");
            let inst = join_identifiers(&join_identifiers(&name, port), &inv_id);
            let k = d.add_gate_disconnected(inverter(), inst);
            crate::netlist::netlist_connect_to_driver(d, k, 0, i, q);
            crate::netlist::netlist_connect(d, i, q, k, 0);
            crate::netlist::netlist_clear_parameter(d, i, &flag);
            i = i + 1;
        }
        Ok(text_of("Explicitly inverted all inverted pins"))
    }
}

} // verus!
