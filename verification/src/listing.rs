//! The net listing: each net with its fan-in, fan-out, drivers and users.
use vstd::prelude::*;
use safety_net::{Error, Identifier};
use crate::netlist::{
    Design, ObjectView, driver_net, fanout_builds, identifier_text, identifier_to_string, is_output_of,
    net_users, netlist_fanout_check, netlist_len, netlist_users, node_driver_net, node_gate,
    node_input_count, node_nets, connected_inputs_are_ports, port_users,
};
use crate::text::{decimal, push_decimal, push_text, text_of};

verus! {

/// The nets that drive inputs `0..q` of node `i`, skipping unconnected inputs.
pub open spec fn fanin_upto(objs: Seq<ObjectView>, i: int, q: nat) -> Seq<Identifier>
    decreases q,
{
    if q == 0 {
        Seq::empty()
    } else {
        let rest = fanin_upto(objs, i, (q - 1) as nat);
        match driver_net(objs, objs[i].drivers[q - 1]) {
            Some(id) => rest.push(id),
            None => rest,
        }
    }
}

/// The nets that drive the inputs of node `i`, in port order; a principal
/// input has none.
pub open spec fn fanin(objs: Seq<ObjectView>, i: int) -> Seq<Identifier> {
    if objs[i].gate is Some {
        fanin_upto(objs, i, objs[i].drivers.len())
    } else {
        Seq::empty()
    }
}

/// Texts separated by `, `.
pub open spec fn comma_list(items: Seq<Seq<char>>) -> Seq<char>
    decreases items.len(),
{
    if items.len() == 0 {
        Seq::empty()
    } else if items.len() == 1 {
        items[0]
    } else {
        comma_list(items.drop_last()) + seq![',', ' '] + items.last()
    }
}

/// The text of a user: `instance:port`.
pub open spec fn user_text(u: (Identifier, Identifier)) -> Seq<char> {
    identifier_text(u.0) + seq![':'] + identifier_text(u.1)
}

/// The line of output `p` of node `i`: its net, the number of drivers of the
/// node, the number of users of the net, the drivers and the users.
pub open spec fn net_line(objs: Seq<ObjectView>, i: int, p: int) -> Seq<char> {
    let fi = fanin(objs, i);
    let fo = net_users(objs, i as nat, p as nat, objs.len());
    identifier_text(objs[i].nets[p]) + seq!['\t'] + decimal(fi.len()) + seq!['\t'] + decimal(
        fo.len(),
    ) + seq!['\t'] + comma_list(fi.map_values(|id: Identifier| identifier_text(id))) + seq![
        '\t',
    ] + comma_list(fo.map_values(|u: (Identifier, Identifier)| user_text(u))) + seq!['\n']
}

/// The lines of outputs `0..m` of node `i`.
pub open spec fn node_lines(objs: Seq<ObjectView>, i: int, m: nat) -> Seq<char>
    decreases m,
{
    if m == 0 {
        Seq::empty()
    } else {
        node_lines(objs, i, (m - 1) as nat) + net_line(objs, i, m - 1)
    }
}

/// The lines of the nodes `0..n`.
pub open spec fn listing_lines(objs: Seq<ObjectView>, n: nat) -> Seq<char>
    decreases n,
{
    if n == 0 {
        Seq::empty()
    } else {
        listing_lines(objs, (n - 1) as nat) + node_lines(objs, n - 1, objs[n - 1].nets.len())
    }
}

/// The header of the listing.
pub open spec fn listing_header() -> Seq<char> {
    "Name\tFanin\tFanout\tDrivers\tUsers\n"@
}

/// The net listing of a netlist.
pub open spec fn listing(objs: Seq<ObjectView>) -> Seq<char> {
    listing_header() + listing_lines(objs, objs.len())
}

/// Appends the items of `items`, separated by `, `.
fn push_comma_list(buf: &mut String, items: &Vec<String>)
    ensures
        final(buf)@ == old(buf)@ + comma_list(items@.map_values(|s: String| s@)),
{
    let ghost start = buf@;
    let ghost views = items@.map_values(|s: String| s@);
    let mut k: usize = 0;
    while k < items.len()
        invariant
            k <= items.len(),
            views == items@.map_values(|s: String| s@),
            buf@ == start + comma_list(views.take(k as int)),
        decreases items.len() - k,
    {
        proof {
            assert(views.take(k as int + 1).drop_last() =~= views.take(k as int));
            reveal_strlit(", ");
        }
        if k > 0 {
            push_text(buf, ", ");
        }
        push_text(buf, items[k].as_str());
        proof {
            if k == 0 {
                assert(views.take(1) =~= seq![views[0]]);
            }
            assert(buf@ =~= start + comma_list(views.take(k as int + 1)));
        }
        k = k + 1;
    }
    assert(views.take(items.len() as int) =~= views);
}

/// The texts of the nets that drive the inputs of node `i`.
fn fanin_texts(d: &Design, i: usize) -> (texts: Vec<String>)
    requires
        i < d@.len(),
    ensures
        texts@.map_values(|s: String| s@) == fanin(d@, i as int).map_values(
            |id: Identifier| identifier_text(id),
        ),
{
    let mut texts: Vec<String> = Vec::new();
    if node_gate(d, i).is_none() {
        assert(texts@.map_values(|s: String| s@) =~= fanin(d@, i as int).map_values(
            |id: Identifier| identifier_text(id),
        ));
        return texts;
    }
    let n = node_input_count(d, i);
    let mut q: usize = 0;
    while q < n
        invariant
            i < d@.len(),
            d@[i as int].gate is Some,
            n == d@[i as int].drivers.len(),
            q <= n,
            texts@.map_values(|s: String| s@) == fanin_upto(d@, i as int, q as nat).map_values(
                |id: Identifier| identifier_text(id),
            ),
        decreases n - q,
    {
        let ghost before = texts@.map_values(|s: String| s@);
        match node_driver_net(d, i, q) {
            Some(id) => {
                let t = identifier_to_string(&id);
                texts.push(t);
                assert(texts@.map_values(|s: String| s@) =~= before.push(identifier_text(id)));
                assert(fanin_upto(d@, i as int, q as nat + 1).map_values(
                    |id: Identifier| identifier_text(id),
                ) =~= fanin_upto(d@, i as int, q as nat).map_values(|id: Identifier| identifier_text(id)).push(
                    identifier_text(id),
                ));
            },
            None => {},
        }
        q = q + 1;
    }
    texts
}

/// The texts of the users of output `p` of node `i`.
fn user_texts(d: &Design, i: usize, p: usize) -> (texts: Vec<String>)
    requires
        fanout_builds(*d),
        connected_inputs_are_ports(d@),
        is_output_of(d@, i as int, p as int),
    ensures
        texts@.map_values(|s: String| s@) == net_users(d@, i as nat, p as nat, d@.len()).map_values(
            |u: (Identifier, Identifier)| user_text(u),
        ),
{
    let users = netlist_users(d, i, p);
    let ghost uv = users@;
    let mut texts: Vec<String> = Vec::new();
    let mut k: usize = 0;
    while k < users.len()
        invariant
            k <= users.len(),
            uv == users@,
            texts@.map_values(|s: String| s@) == uv.take(k as int).map_values(
                |u: (Identifier, Identifier)| user_text(u),
            ),
        decreases users.len() - k,
    {
        let ghost before = texts@.map_values(|s: String| s@);
        let mut t = identifier_to_string(&users[k].0);
        push_text(&mut t, ":");
        let port = identifier_to_string(&users[k].1);
        push_text(&mut t, port.as_str());
        proof {
            reveal_strlit(":");
            assert(":"@ =~= seq![':']);
            assert(t@ =~= user_text(uv[k as int]));
        }
        texts.push(t);
        assert(texts@.map_values(|s: String| s@) =~= before.push(user_text(uv[k as int])));
        assert(uv.take(k as int + 1).map_values(|u: (Identifier, Identifier)| user_text(u))
            =~= uv.take(k as int).map_values(|u: (Identifier, Identifier)| user_text(u)).push(
            user_text(uv[k as int]),
        ));
        k = k + 1;
    }
    assert(uv.take(users.len() as int) =~= uv);
    texts
}

/// Appends the line of output `p` of node `i`.
fn push_net_line(buf: &mut String, d: &Design, i: usize, p: usize, fi: &Vec<String>)
    requires
        fanout_builds(*d),
        connected_inputs_are_ports(d@),
        is_output_of(d@, i as int, p as int),
        fi@.map_values(|s: String| s@) == fanin(d@, i as int).map_values(
            |id: Identifier| identifier_text(id),
        ),
    ensures
        final(buf)@ == old(buf)@ + net_line(d@, i as int, p as int),
{
    let ghost start = buf@;
    let nets = node_nets(d, i);
    let name = identifier_to_string(&nets[p]);
    let fo = user_texts(d, i, p);
    push_text(buf, name.as_str());
    push_text(buf, "\t");
    push_decimal(buf, fi.len());
    push_text(buf, "\t");
    push_decimal(buf, fo.len());
    push_text(buf, "\t");
    push_comma_list(buf, fi);
    push_text(buf, "\t");
    push_comma_list(buf, &fo);
    push_text(buf, "\n");
    proof {
        reveal_strlit("\t");
        reveal_strlit("\n");
        let fiv = fanin(d@, i as int);
        let fov = net_users(d@, i as nat, p as nat, d@.len());
        assert(fi@.len() == fiv.len());
        assert(fo@.len() == fov.len());
        assert(buf@ =~= start + net_line(d@, i as int, p as int));
    }
}

/// The net listing of a netlist, or the error of building its fan-out table.
pub fn list_nets(d: &Design) -> (r: Result<String, Error>)
    requires
        fanout_builds(*d) ==> connected_inputs_are_ports(d@),
    ensures
        r is Ok <==> fanout_builds(*d),
        crate::netlist::top_outputs(*d).is_empty() ==> r is Ok,
        r matches Err(e) ==> e == crate::netlist::fanout_error(*d),
        r matches Ok(s) ==> s@ == listing(d@),
{
    let mut buf = text_of("Name\tFanin\tFanout\tDrivers\tUsers\n");
    match netlist_fanout_check(d) {
        Ok(()) => {},
        Err(e) => {
            return Err(e);
        },
    }
    let n = netlist_len(d);
    let mut i: usize = 0;
    while i < n
        invariant
            n == d@.len(),
            i <= n,
            fanout_builds(*d),
            connected_inputs_are_ports(d@),
            buf@ == listing_header() + listing_lines(d@, i as nat),
        decreases n - i,
    {
        let fi = fanin_texts(d, i);
        let nets = node_nets(d, i);
        let m = nets.len();
        let mut p: usize = 0;
        let ghost before = buf@;
        while p < m
            invariant
                n == d@.len(),
                i < n,
                m == d@[i as int].nets.len(),
                p <= m,
                fanout_builds(*d),
                connected_inputs_are_ports(d@),
                fi@.map_values(|s: String| s@) == fanin(d@, i as int).map_values(
                    |id: Identifier| identifier_text(id),
                ),
                buf@ == before + node_lines(d@, i as int, p as nat),
            decreases m - p,
        {
            push_net_line(&mut buf, d, i, p, &fi);
            assert(buf@ =~= before + node_lines(d@, i as int, p as nat + 1));
            p = p + 1;
        }
        assert(buf@ =~= listing_header() + listing_lines(d@, i as nat + 1));
        i = i + 1;
    }
    Ok(buf)
}

// ---------------------------------------------------------------------------
// The fan-out column.
/// The number of connected inputs among inputs `0..q` of node `j`.
pub open spec fn connected_upto(objs: Seq<ObjectView>, j: int, q: nat) -> nat
    decreases q,
{
    if q == 0 {
        0
    } else {
        connected_upto(objs, j, (q - 1) as nat) + if objs[j].drivers[q - 1] is Some {
            1nat
        } else {
            0
        }
    }
}

/// The number of connected inputs of nodes `0..m`.
pub open spec fn connected_inputs(objs: Seq<ObjectView>, m: nat) -> nat
    decreases m,
{
    if m == 0 {
        0
    } else {
        connected_inputs(objs, (m - 1) as nat) + connected_upto(objs, m - 1, objs[m - 1].drivers.len())
    }
}

/// The fan-outs of the outputs `outs` among the users in nodes `0..m`, added up.
pub open spec fn fanout_sum(objs: Seq<ObjectView>, outs: Seq<(nat, nat)>, m: nat) -> nat
    decreases outs.len(),
{
    if outs.len() == 0 {
        0
    } else {
        fanout_sum(objs, outs.drop_last(), m) + net_users(objs, outs.last().0, outs.last().1, m).len()
    }
}

/// The users of the outputs `outs` among inputs `0..q` of node `j`, counted.
spec fn port_sum(objs: Seq<ObjectView>, outs: Seq<(nat, nat)>, j: int, q: nat) -> nat
    decreases outs.len(),
{
    if outs.len() == 0 {
        0
    } else {
        port_sum(objs, outs.drop_last(), j, q) + port_users(objs, outs.last().0, outs.last().1, j, q).len()
    }
}

/// How many of `outs` are `drv`.
spec fn hits(outs: Seq<(nat, nat)>, drv: Option<(nat, nat)>) -> nat
    decreases outs.len(),
{
    if outs.len() == 0 {
        0
    } else {
        hits(outs.drop_last(), drv) + if drv == Some(outs.last()) {
            1nat
        } else {
            0
        }
    }
}

proof fn lemma_hits(outs: Seq<(nat, nat)>, drv: Option<(nat, nat)>)
    requires
        forall|t: int, u: int| 0 <= t < u < outs.len() ==> #[trigger] outs[t] != #[trigger] outs[u],
    ensures
        hits(outs, drv) == if drv matches Some(o) && outs.contains(o) {
            1nat
        } else {
            0
        },
    decreases outs.len(),
{
    if outs.len() > 0 {
        let front = outs.drop_last();
        assert forall|t: int, u: int| 0 <= t < u < front.len() implies #[trigger] front[t] != #[trigger] front[u] by {
            assert(front[t] == outs[t] && front[u] == outs[u]);
        }
        lemma_hits(front, drv);
        if drv is Some {
            let o = drv.unwrap();
            if front.contains(o) {
                let t = choose|t: int| 0 <= t < front.len() && front[t] == o;
                assert(outs[t] == o);
                assert(outs.contains(o));
                assert(outs[outs.len() - 1] != outs[t]);
            } else if outs.contains(o) {
                let t = choose|t: int| 0 <= t < outs.len() && outs[t] == o;
                if t < front.len() {
                    assert(front[t] == o);
                }
            } else {
                assert(!(outs.last() == o)) by {
                    if outs.last() == o {
                        assert(outs[outs.len() - 1] == o);
                    }
                }
            }
        }
    }
}

proof fn lemma_port_sum_step(objs: Seq<ObjectView>, outs: Seq<(nat, nat)>, j: int, q: nat)
    requires
        0 <= j < objs.len(),
        q < objs[j].drivers.len(),
    ensures
        port_sum(objs, outs, j, q + 1) == port_sum(objs, outs, j, q) + hits(outs, objs[j].drivers[q as int]),
    decreases outs.len(),
{
    if outs.len() > 0 {
        lemma_port_sum_step(objs, outs.drop_last(), j, q);
    }
}

proof fn lemma_port_sum(objs: Seq<ObjectView>, outs: Seq<(nat, nat)>, j: int, q: nat)
    requires
        0 <= j < objs.len(),
        q <= objs[j].drivers.len(),
        forall|t: int, u: int| 0 <= t < u < outs.len() ==> #[trigger] outs[t] != #[trigger] outs[u],
        forall|r: int| 0 <= r < q && (#[trigger] objs[j].drivers[r]) is Some ==> outs.contains(objs[j].drivers[r].unwrap()),
    ensures
        port_sum(objs, outs, j, q) == connected_upto(objs, j, q),
    decreases q,
{
    if q == 0 {
        lemma_port_sum_empty(objs, outs, j);
    } else {
        lemma_port_sum(objs, outs, j, (q - 1) as nat);
        lemma_port_sum_step(objs, outs, j, (q - 1) as nat);
        lemma_hits(outs, objs[j].drivers[q - 1]);
    }
}

proof fn lemma_port_sum_empty(objs: Seq<ObjectView>, outs: Seq<(nat, nat)>, j: int)
    ensures
        port_sum(objs, outs, j, 0) == 0,
    decreases outs.len(),
{
    if outs.len() > 0 {
        lemma_port_sum_empty(objs, outs.drop_last(), j);
    }
}

proof fn lemma_fanout_sum_step(objs: Seq<ObjectView>, outs: Seq<(nat, nat)>, m: nat)
    requires
        m < objs.len(),
    ensures
        fanout_sum(objs, outs, m + 1) == fanout_sum(objs, outs, m) + port_sum(
            objs,
            outs,
            m as int,
            objs[m as int].drivers.len(),
        ),
    decreases outs.len(),
{
    if outs.len() > 0 {
        lemma_fanout_sum_step(objs, outs.drop_last(), m);
    }
}

proof fn lemma_fanout_sum_empty(objs: Seq<ObjectView>, outs: Seq<(nat, nat)>)
    ensures
        fanout_sum(objs, outs, 0) == 0,
    decreases outs.len(),
{
    if outs.len() > 0 {
        lemma_fanout_sum_empty(objs, outs.drop_last());
    }
}

proof fn lemma_outputs_complete(objs: Seq<ObjectView>, m: nat)
    requires
        m <= objs.len(),
    ensures
        forall|i: int, p: int| 0 <= i < m && 0 <= p < objs[i].nets.len() ==> #[trigger] crate::rewrites::outputs_upto(
            objs,
            m,
        ).contains((i as nat, p as nat)),
    decreases m,
{
    if m > 0 {
        lemma_outputs_complete(objs, (m - 1) as nat);
        let rest = crate::rewrites::outputs_upto(objs, (m - 1) as nat);
        let all = crate::rewrites::outputs_upto(objs, m);
        let last = Seq::new(objs[m - 1].nets.len(), |p: int| ((m - 1) as nat, p as nat));
        assert(all == rest + last);
        assert forall|i: int, p: int| 0 <= i < m && 0 <= p < objs[i].nets.len() implies #[trigger] all.contains(
            (i as nat, p as nat),
        ) by {
            if i < m - 1 {
                assert(rest.contains((i as nat, p as nat)));
                let t = choose|t: int| 0 <= t < rest.len() && rest[t] == (i as nat, p as nat);
                assert(all[t] == rest[t]);
            } else {
                assert(all[rest.len() + p] == last[p]);
            }
        }
    }
}

/// In a netlist whose drivers all name existing outputs, the fan-outs of the
/// listing add up to the number of connected inputs: every connected input is
/// a user of exactly one net.
pub proof fn fanout_total(objs: Seq<ObjectView>)
    requires
        crate::netlist::drivers_exist(objs),
    ensures
        fanout_sum(objs, crate::rewrites::all_outputs(objs), objs.len()) == connected_inputs(objs, objs.len()),
{
    let outs = crate::rewrites::all_outputs(objs);
    crate::rewrites::lemma_outputs_upto_facts(objs, objs.len());
    lemma_outputs_complete(objs, objs.len());
    lemma_fanout_total_upto(objs, outs, objs.len());
}

proof fn lemma_fanout_total_upto(objs: Seq<ObjectView>, outs: Seq<(nat, nat)>, m: nat)
    requires
        m <= objs.len(),
        crate::netlist::drivers_exist(objs),
        forall|t: int, u: int| 0 <= t < u < outs.len() ==> #[trigger] outs[t] != #[trigger] outs[u],
        forall|i: int, p: int| 0 <= i < objs.len() && 0 <= p < objs[i].nets.len() ==> #[trigger] outs.contains(
            (i as nat, p as nat),
        ),
    ensures
        fanout_sum(objs, outs, m) == connected_inputs(objs, m),
    decreases m,
{
    if m == 0 {
        lemma_fanout_sum_empty(objs, outs);
    } else {
        let j = m - 1;
        lemma_fanout_total_upto(objs, outs, (m - 1) as nat);
        lemma_fanout_sum_step(objs, outs, (m - 1) as nat);
        assert forall|r: int| 0 <= r < objs[j].drivers.len() && (#[trigger] objs[j].drivers[r]) is Some implies outs.contains(
            objs[j].drivers[r].unwrap(),
        ) by {
            let (i, p) = objs[j].drivers[r].unwrap();
            let ii = i as int;
            let pp = p as int;
            assert(is_output_of(objs, ii, pp));
            assert(outs.contains((ii as nat, pp as nat)));
            assert((ii as nat, pp as nat) == (i, p));
        }
        lemma_port_sum(objs, outs, j, objs[j].drivers.len());
    }
}

proof fn lemma_fanin_count(objs: Seq<ObjectView>, i: int, q: nat)
    requires
        0 <= i < objs.len(),
        q <= objs[i].drivers.len(),
    ensures
        fanin_upto(objs, i, q).len() == connected_upto(objs, i, q),
    decreases q,
{
    if q > 0 {
        lemma_fanin_count(objs, i, (q - 1) as nat);
    }
}

/// Every line of node `i` carries the fan-in of the node, whichever of its
/// outputs `p` the line is for: the Fanin column is the number of connected
/// inputs of the instance (none for a principal input) and the Drivers column
/// lists the nets that drive them; only the name, the Fan-out and the Users
/// columns are those of output `p`.
pub proof fn net_line_fields(objs: Seq<ObjectView>, i: int, p: int)
    requires
        0 <= i < objs.len(),
        0 <= p < objs[i].nets.len(),
    ensures
        net_line(objs, i, p) == identifier_text(objs[i].nets[p]) + seq!['\t'] + decimal(
            if objs[i].gate is Some {
                connected_upto(objs, i, objs[i].drivers.len())
            } else {
                0
            },
        ) + seq!['\t'] + decimal(net_users(objs, i as nat, p as nat, objs.len()).len()) + seq!['\t'] + comma_list(
            fanin(objs, i).map_values(|id: Identifier| identifier_text(id)),
        ) + seq!['\t'] + comma_list(
            net_users(objs, i as nat, p as nat, objs.len()).map_values(|u: (Identifier, Identifier)| user_text(u)),
        ) + seq!['\n'],
{
    lemma_fanin_count(objs, i, objs[i].drivers.len());
}

/// The Drivers column of an instance lists, in port order, the net that
/// drives each of its connected inputs, and nothing else.
pub proof fn fanin_lists_the_drivers(objs: Seq<ObjectView>, i: int, q: nat)
    requires
        0 <= i < objs.len(),
        q <= objs[i].drivers.len(),
    ensures
        fanin_upto(objs, i, q) == objs[i].drivers.take(q as int).filter(|drv: Option<(nat, nat)>| drv is Some).map_values(
            |drv: Option<(nat, nat)>| objs[drv.unwrap().0 as int].nets[drv.unwrap().1 as int],
        ),
    decreases q,
{
    let pred = |drv: Option<(nat, nat)>| drv is Some;
    let f = |drv: Option<(nat, nat)>| objs[drv.unwrap().0 as int].nets[drv.unwrap().1 as int];
    let s = objs[i].drivers.take(q as int);
    reveal(Seq::filter);
    if q > 0 {
        fanin_lists_the_drivers(objs, i, (q - 1) as nat);
        assert(s.drop_last() =~= objs[i].drivers.take(q - 1));
        assert(s.last() == objs[i].drivers[q - 1]);
        if objs[i].drivers[q - 1] is Some {
            assert(s.filter(pred) == s.drop_last().filter(pred).push(s.last()));
            assert(s.filter(pred).map_values(f) =~= s.drop_last().filter(pred).map_values(f).push(f(s.last())));
        } else {
            assert(s.filter(pred) == s.drop_last().filter(pred));
        }
    } else {
        assert(s =~= Seq::<Option<(nat, nat)>>::empty());
        assert(s.filter(pred) =~= Seq::<Option<(nat, nat)>>::empty());
    }
}

} // verus!
