//! The topology builder: prunes transitively-inherited visibility,
//! resolves pairwise adjacency across all known devices, and
//! synthesizes aggregate nodes for addresses belonging to no
//! configured device. The result is an abstract graph; rendering it
//! is a collaborator's job.

use vstd::prelude::*;
use vstd::map::*;

use crate::expiry::ExpireSet;
use crate::network::sees_any;
use crate::network::Device;
use crate::network::Network;

verus! {

/// One node of the produced graph: a device (grouped visually with
/// its ports when it has any non-empty port), a port, or an aggregate
/// standing for a count of unconfigured neighbors.
pub enum GraphNode {
    Device { device: usize, label: String, grouped: bool },
    Port { device: usize, port: usize, label: String },
    Aggregate { count: usize },
}

/// The abstract topology graph: nodes, and edges between node indices.
pub struct Graph {
    pub nodes: Vec<GraphNode>,
    pub edges: Vec<(usize, usize)>,
}

/// How many devices the model holds.
pub open spec fn n_devs(net: Network) -> int {
    net.devices.records().len() as int
}

/// The device record with identity `d`.
pub open spec fn dev_of(net: Network, d: int) -> Device {
    net.devices.records()[d]
}

/// The raw (pre-pruning) visibility of port `p` of device `d`.
pub open spec fn vis(net: Network, d: int, p: int) -> Map<u64, u64> {
    dev_of(net, d).ports@[p].visible@
}

/// Whether some configured device owns the address.
pub open spec fn mac_owned(net: Network, m: u64) -> bool {
    net.devices.key_map().contains_key(m)
}

/// The identity of the device owning the address.
pub open spec fn mac_owner(net: Network, m: u64) -> int {
    net.devices.key_map()[m] as int
}

/// One way an address `m2` is transitive noise on port `p` of device
/// `d`: some address `m` visible on the port belongs to a device
/// whose port `p2` does not see `d` back, and `m2` is visible on `p2`.
pub open spec fn noise_via(
    net: Network,
    d: int,
    p: int,
    m: u64,
    p2: int,
    m2: u64,
) -> bool {
    &&& vis(net, d, p).contains_key(m)
    &&& mac_owned(net, m)
    &&& 0 <= p2 < dev_of(net, mac_owner(net, m)).ports@.len()
    &&& !sees_any(vis(net, mac_owner(net, m), p2), dev_of(net, d).mac@)
    &&& vis(net, mac_owner(net, m), p2).contains_key(m2)
}

/// Whether `m2` is transitive noise on port `p` of device `d`.
pub open spec fn is_noise(net: Network, d: int, p: int, m2: u64) -> bool {
    exists|m: u64, p2: int| noise_via(net, d, p, m, p2, m2)
}

/// What remains visible on port `p` of device `d` after the pruning
/// pass: the raw visibility minus every address that is transitive
/// noise, judged entirely against the pre-pruning state.
pub open spec fn pruned_vis(net: Network, d: int, p: int) -> Map<u64, u64> {
    Map::new(
        |m: u64| vis(net, d, p).contains_key(m) && !is_noise(net, d, p, m),
        |m: u64| vis(net, d, p)[m],
    )
}

/// Whether anything remains visible on the port after pruning.
pub open spec fn occupied(net: Network, d: int, p: int) -> bool {
    exists|m: u64| pruned_vis(net, d, p).contains_key(m)
}

/// Whether the device is drawn grouped with its ports: it has at
/// least one port with something visible after pruning.
pub open spec fn grouped(net: Network, d: int) -> bool {
    exists|p: int| 0 <= p < dev_of(net, d).ports@.len() && occupied(net, d, p)
}

/// Whether a working state holds exactly the pruned visibility.
pub open spec fn is_pruned_state(net: Network, st: Seq<Vec<ExpireSet>>) -> bool {
    &&& st.len() == n_devs(net)
    &&& forall|d: int| 0 <= d < n_devs(net) ==> (#[trigger] st[d])@.len() == dev_of(
        net,
        d,
    ).ports@.len()
    &&& forall|d: int, p: int|
        0 <= d < n_devs(net) && 0 <= p < st[d]@.len() ==> (#[trigger] st[d]@[p]).wf()
            && st[d]@[p]@ == pruned_vis(net, d, p)
}

/// How many ports device `d` has.
pub open spec fn nports(net: Network, d: int) -> int {
    dev_of(net, d).ports@.len() as int
}

/// The label a device's node shows: its name, or its identifier.
pub open spec fn dev_label(net: Network, d: int) -> String {
    dev_of(net, d).label_string()
}

/// The port nodes of device `d` among its first `k` ports, in order:
/// one node per port with something visible after pruning.
pub open spec fn port_nodes_upto(net: Network, d: int, k: int) -> Seq<GraphNode>
    decreases k,
{
    if k <= 0 {
        Seq::empty()
    } else if occupied(net, d, k - 1) {
        port_nodes_upto(net, d, k - 1).push(
            GraphNode::Port {
                device: d as usize,
                port: (k - 1) as usize,
                label: dev_of(net, d).ports@[k - 1].name,
            },
        )
    } else {
        port_nodes_upto(net, d, k - 1)
    }
}

/// The nodes device `d` contributes: its device node, followed by its
/// port nodes when it is drawn grouped.
pub open spec fn device_block(net: Network, d: int) -> Seq<GraphNode> {
    if grouped(net, d) {
        seq![GraphNode::Device { device: d as usize, label: dev_label(net, d), grouped: true }]
            + port_nodes_upto(net, d, nports(net, d))
    } else {
        seq![GraphNode::Device { device: d as usize, label: dev_label(net, d), grouped: false }]
    }
}

/// The nodes of the first `k` devices.
pub open spec fn base_nodes_upto(net: Network, k: int) -> Seq<GraphNode>
    decreases k,
{
    if k <= 0 {
        Seq::empty()
    } else {
        base_nodes_upto(net, k - 1) + device_block(net, k - 1)
    }
}

/// The device and port nodes, in emission order.
pub open spec fn base_nodes(net: Network) -> Seq<GraphNode> {
    base_nodes_upto(net, n_devs(net))
}

/// Where device `d`'s node stands in the node list.
pub open spec fn device_node_index(net: Network, d: int) -> int {
    base_nodes_upto(net, d).len() as int
}

/// Where the node of port `p` of device `d` stands in the node list.
pub open spec fn port_node_index(net: Network, d: int, p: int) -> int {
    device_node_index(net, d) + 1 + port_nodes_upto(net, d, p).len()
}

/// The device-to-port edges of device `d` among its first `k` ports.
pub open spec fn intra_edges_for(net: Network, d: int, k: int) -> Seq<(usize, usize)>
    decreases k,
{
    if k <= 0 {
        Seq::empty()
    } else if occupied(net, d, k - 1) {
        intra_edges_for(net, d, k - 1).push(
            (device_node_index(net, d) as usize, port_node_index(net, d, k - 1) as usize),
        )
    } else {
        intra_edges_for(net, d, k - 1)
    }
}

/// The device-to-port edges of the first `k` devices.
pub open spec fn intra_edges_upto(net: Network, k: int) -> Seq<(usize, usize)>
    decreases k,
{
    if k <= 0 {
        Seq::empty()
    } else {
        intra_edges_upto(net, k - 1) + intra_edges_for(net, k - 1, nports(net, k - 1))
    }
}

/// Every edge between a device node and one of its port nodes.
pub open spec fn intra_edges(net: Network) -> Seq<(usize, usize)> {
    intra_edges_upto(net, n_devs(net))
}

/// The first port of device `d`, scanning from `k`, whose pruned
/// visibility holds any of the given addresses.
pub open spec fn first_seeing(net: Network, d: int, macs: Seq<u64>, k: int) -> Option<int>
    decreases nports(net, d) - k,
{
    if k < 0 || k >= nports(net, d) {
        None
    } else if sees_any(pruned_vis(net, d, k), macs) {
        Some(k)
    } else {
        first_seeing(net, d, macs, k + 1)
    }
}

/// The node at which an adjacency edge attaches on device `d` when
/// resolved against device `other`: the first port that sees any of
/// `other`'s addresses, or the device node itself.
pub open spec fn endpoint(net: Network, d: int, other: int) -> int {
    match first_seeing(net, d, dev_of(net, other).mac@, 0) {
        Some(p) => port_node_index(net, d, p),
        None => device_node_index(net, d),
    }
}

/// One adjacency edge per unordered pair of devices, in visitation
/// order, each attached at its resolved endpoints.
pub open spec fn pair_edges(net: Network) -> Seq<(usize, usize)> {
    crate::multimap::pair_seq(n_devs(net)).map_values(
        |pr: (usize, usize)|
            (
                endpoint(net, pr.0 as int, pr.1 as int) as usize,
                endpoint(net, pr.1 as int, pr.0 as int) as usize,
            ),
    )
}

/// How many of the addresses left visible on port `p` of device `d`
/// belong to no configured device.
pub open spec fn unknown_count(net: Network, d: int, p: int) -> int {
    pruned_vis(net, d, p).dom().filter(|m: u64| !mac_owned(net, m)).len() as int
}

/// The ports of device `d`, among its first `k`, that get an
/// aggregate-neighbor node: occupied ports with unconfigured addresses.
pub open spec fn agg_ports_for(net: Network, d: int, k: int) -> Seq<(int, int)>
    decreases k,
{
    if k <= 0 {
        Seq::empty()
    } else if occupied(net, d, k - 1) && unknown_count(net, d, k - 1) > 0 {
        agg_ports_for(net, d, k - 1).push((d, k - 1))
    } else {
        agg_ports_for(net, d, k - 1)
    }
}

/// The aggregate-carrying ports of the first `k` devices, in order.
pub open spec fn agg_upto(net: Network, k: int) -> Seq<(int, int)>
    decreases k,
{
    if k <= 0 {
        Seq::empty()
    } else {
        agg_upto(net, k - 1) + agg_ports_for(net, k - 1, nports(net, k - 1))
    }
}

/// Every port that gets an aggregate-neighbor node, in emission order.
pub open spec fn agg_list(net: Network) -> Seq<(int, int)> {
    agg_upto(net, n_devs(net))
}

/// The aggregate nodes, one per entry of the aggregate list, labelled
/// with the count of unconfigured neighbors.
pub open spec fn agg_nodes(net: Network) -> Seq<GraphNode> {
    Seq::new(
        agg_list(net).len(),
        |k: int| GraphNode::Aggregate {
            count: unknown_count(net, agg_list(net)[k].0, agg_list(net)[k].1) as usize,
        },
    )
}

/// The edges from each aggregate-carrying port to its aggregate node.
pub open spec fn agg_edges(net: Network) -> Seq<(usize, usize)> {
    Seq::new(
        agg_list(net).len(),
        |k: int|
            (
                port_node_index(net, agg_list(net)[k].0, agg_list(net)[k].1) as usize,
                (base_nodes(net).len() + k) as usize,
            ),
    )
}

/// Every node the build produces, in emission order.
pub open spec fn nodes_spec(net: Network) -> Seq<GraphNode> {
    base_nodes(net) + agg_nodes(net)
}

/// Every edge the build produces, in emission order.
pub open spec fn edges_spec(net: Network) -> Seq<(usize, usize)> {
    intra_edges(net) + pair_edges(net) + agg_edges(net)
}

/// Whether the value occurs in the vector.
fn vec_contains(v: &Vec<u64>, x: u64) -> (r: bool)
    ensures
        r == v@.contains(x),
{
    let n = v.len();
    let mut i: usize = 0;
    while i < n
        invariant
            n == v@.len(),
            0 <= i <= n,
            forall|j: int| 0 <= j < i ==> v@[j] != x,
        decreases n - i,
    {
        if v[i] == x {
            proof {
                assert(v@[i as int] == x);
            }
            return true;
        }
        i += 1;
    }
    false
}

impl Network {
    /// The pruning pass: computes, as a fresh working copy, what every
    /// port still sees once transitive noise is removed; the live
    /// state itself is untouched, and every pruning decision reads the
    /// pre-pruning state.
    pub fn prune_state(&self) -> (r: Vec<Vec<ExpireSet>>)
        requires
            self.wf(),
        ensures
            is_pruned_state(*self, r@),
    {
        let records = self.devices.values();
        let nd = records.len();
        let mut out: Vec<Vec<ExpireSet>> = Vec::new();
        let mut d: usize = 0;
        while d < nd
            invariant
                self.wf(),
                nd == n_devs(*self),
                records@ == self.devices.records(),
                0 <= d <= nd,
                out@.len() == d,
                forall|k: int|
                    0 <= k < d ==> (#[trigger] out@[k])@.len() == dev_of(
                        *self,
                        k,
                    ).ports@.len(),
                forall|k: int, p: int|
                    0 <= k < d && 0 <= p < out@[k]@.len() ==> (#[trigger] out@[k]@[p]).wf()
                        && out@[k]@[p]@ == pruned_vis(*self, k, p),
            decreases nd - d,
        {
            let dev = &records[d];
            let np = dev.ports.len();
            let mut row: Vec<ExpireSet> = Vec::new();
            let mut p: usize = 0;
            while p < np
                invariant
                    self.wf(),
                    nd == n_devs(*self),
                    records@ == self.devices.records(),
                    0 <= d < nd,
                    dev == &self.devices.records()[d as int],
                    np == dev.ports@.len(),
                    0 <= p <= np,
                    row@.len() == p,
                    forall|q: int|
                        0 <= q < p ==> (#[trigger] row@[q]).wf() && row@[q]@ == pruned_vis(
                            *self,
                            d as int,
                            q,
                        ),
                decreases np - p,
            {
                let pruned = self.prune_port(d, p);
                row.push(pruned);
                p += 1;
            }
            out.push(row);
            proof {
                assert(out@.len() == d + 1);
                assert(forall|k: int| 0 <= k < d ==> (#[trigger] out@[k]) == out@.drop_last()[k]);
            }
            d += 1;
        }
        out
    }

    /// Prunes one port: every address judged transitive noise against
    /// the pre-pruning state is removed; the rest keep their expiries.
    fn prune_port(&self, d: usize, p: usize) -> (r: ExpireSet)
        requires
            self.wf(),
            d < self.devices.records().len(),
            p < self.devices.records()[d as int].ports@.len(),
        ensures
            r.wf(),
            r@ == pruned_vis(*self, d as int, p as int),
    {
        let records = self.devices.values();
        let dev = &records[d];
        let port = &dev.ports[p];
        let seen = port.visible.iter();
        let mut noise: Vec<u64> = Vec::new();
        let na = seen.len();
        let mut a: usize = 0;
        while a < na
            invariant
                self.wf(),
                d < self.devices.records().len(),
                p < self.devices.records()[d as int].ports@.len(),
                records@ == self.devices.records(),
                dev == &self.devices.records()[d as int],
                port == &dev.ports@[p as int],
                na == seen@.len(),
                0 <= a <= na,
                forall|j: int|
                    0 <= j < na ==> vis(*self, d as int, p as int).contains_key(
                        #[trigger] seen@[j],
                    ),
                forall|x: u64| noise@.contains(x) ==> is_noise(*self, d as int, p as int, x),
                forall|j: int, p2: int, m2: u64|
                    0 <= j < a && #[trigger] noise_via(
                        *self,
                        d as int,
                        p as int,
                        seen@[j],
                        p2,
                        m2,
                    ) ==> noise@.contains(m2),
            decreases na - a,
        {
            let m = seen[a];
            let ghost net = *self;
            match self.devices.get(m) {
                Some(other) => {
                    let ghost oidx = net.devices.key_map()[m] as int;
                    proof {
                        assert(mac_owned(net, m));
                        assert(other == &net.devices.records()[oidx]);
                    }
                    let nb = other.ports.len();
                    let mut b: usize = 0;
                    while b < nb
                        invariant
                            self.wf(),
                            d < self.devices.records().len(),
                            p < self.devices.records()[d as int].ports@.len(),
                            records@ == self.devices.records(),
                            dev == &self.devices.records()[d as int],
                            port == &dev.ports@[p as int],
                            m == seen@[a as int],
                            0 <= a < na,
                            na == seen@.len(),
                            forall|j: int|
                                0 <= j < na ==> vis(*self, d as int, p as int).contains_key(
                                    #[trigger] seen@[j],
                                ),
                            mac_owned(*self, m),
                            oidx == mac_owner(*self, m),
                            0 <= oidx < self.devices.records().len(),
                            other == &self.devices.records()[oidx],
                            nb == other.ports@.len(),
                            0 <= b <= nb,
                            forall|x: u64|
                                noise@.contains(x) ==> is_noise(*self, d as int, p as int, x),
                            forall|j: int, p2: int, m2: u64|
                                0 <= j < a && #[trigger] noise_via(
                                    *self,
                                    d as int,
                                    p as int,
                                    seen@[j],
                                    p2,
                                    m2,
                                ) ==> noise@.contains(m2),
                            forall|p2: int, m2: u64|
                                0 <= p2 < b && #[trigger] noise_via(
                                    *self,
                                    d as int,
                                    p as int,
                                    m,
                                    p2,
                                    m2,
                                ) ==> noise@.contains(m2),
                        decreases nb - b,
                    {
                        let oport = &other.ports[b];
                        if !oport.can_see(&dev.mac) {
                            let om = oport.visible.iter();
                            let nc = om.len();
                            let mut c: usize = 0;
                            while c < nc
                                invariant
                                    self.wf(),
                                    d < self.devices.records().len(),
                                    p < self.devices.records()[d as int].ports@.len(),
                                    records@ == self.devices.records(),
                                    dev == &self.devices.records()[d as int],
                                    port == &dev.ports@[p as int],
                                    m == seen@[a as int],
                                    0 <= a < na,
                                    na == seen@.len(),
                                    forall|j: int|
                                        0 <= j < na ==> vis(
                                            *self,
                                            d as int,
                                            p as int,
                                        ).contains_key(#[trigger] seen@[j]),
                                    mac_owned(*self, m),
                                    oidx == mac_owner(*self, m),
                                    0 <= oidx < self.devices.records().len(),
                                    other == &self.devices.records()[oidx],
                                    nb == other.ports@.len(),
                                    0 <= b < nb,
                                    oport == &other.ports@[b as int],
                                    !sees_any(vis(*self, oidx, b as int), dev_of(*self, d as int).mac@),
                                    nc == om@.len(),
                                    0 <= c <= nc,
                                    forall|j: int|
                                        0 <= j < nc ==> vis(*self, oidx, b as int).contains_key(
                                            #[trigger] om@[j],
                                        ),
                                    forall|m2: u64|
                                        vis(*self, oidx, b as int).contains_key(m2)
                                            ==> om@.contains(m2),
                                    forall|x: u64|
                                        noise@.contains(x) ==> is_noise(
                                            *self,
                                            d as int,
                                            p as int,
                                            x,
                                        ),
                                    forall|j: int, p2: int, m2: u64|
                                        0 <= j < a && #[trigger] noise_via(
                                            *self,
                                            d as int,
                                            p as int,
                                            seen@[j],
                                            p2,
                                            m2,
                                        ) ==> noise@.contains(m2),
                                    forall|p2: int, m2: u64|
                                        0 <= p2 < b && #[trigger] noise_via(
                                            *self,
                                            d as int,
                                            p as int,
                                            m,
                                            p2,
                                            m2,
                                        ) ==> noise@.contains(m2),
                                    forall|j: int|
                                        0 <= j < c ==> noise@.contains(#[trigger] om@[j]),
                                decreases nc - c,
                            {
                                let ghost noise0 = noise@;
                                noise.push(om[c]);
                                proof {
                                    assert(noise@ == noise0.push(om@[c as int]));
                                    assert(noise@.contains(om@[c as int])) by {
                                        assert(noise@[noise@.len() - 1] == om@[c as int]);
                                    }
                                    assert forall|x: u64| noise@.contains(x) implies is_noise(
                                        *self,
                                        d as int,
                                        p as int,
                                        x,
                                    ) by {
                                        if x != om@[c as int] || noise0.contains(x) {
                                            let w = choose|w: int|
                                                0 <= w < noise@.len() && noise@[w] == x;
                                            if w < noise0.len() {
                                                assert(noise0.contains(x)) by {
                                                    assert(noise0[w] == x);
                                                }
                                            } else {
                                                assert(x == om@[c as int]);
                                                assert(noise_via(
                                                    *self,
                                                    d as int,
                                                    p as int,
                                                    m,
                                                    b as int,
                                                    x,
                                                ));
                                            }
                                        } else {
                                            assert(noise_via(
                                                *self,
                                                d as int,
                                                p as int,
                                                m,
                                                b as int,
                                                x,
                                            ));
                                        }
                                    }
                                    assert(forall|x: u64|
                                        noise0.contains(x) ==> noise@.contains(x)) by {
                                        assert forall|x: u64| noise0.contains(x) implies
                                        noise@.contains(x) by {
                                            let w = choose|w: int|
                                                0 <= w < noise0.len() && noise0[w] == x;
                                            assert(noise@[w] == x);
                                        }
                                    }
                                }
                                c += 1;
                            }
                            proof {
                                assert forall|p2: int, m2: u64|
                                    0 <= p2 < b + 1 && #[trigger] noise_via(
                                        *self,
                                        d as int,
                                        p as int,
                                        m,
                                        p2,
                                        m2,
                                    ) implies noise@.contains(m2) by {
                                    if p2 == b as int {
                                        assert(vis(*self, oidx, b as int).contains_key(m2));
                                        assert(om@.contains(m2));
                                        let w = choose|w: int| 0 <= w < om@.len() && om@[w] == m2;
                                        assert(noise@.contains(om@[w]));
                                    }
                                }
                            }
                        } else {
                            proof {
                                assert forall|p2: int, m2: u64|
                                    0 <= p2 < b + 1 && #[trigger] noise_via(
                                        *self,
                                        d as int,
                                        p as int,
                                        m,
                                        p2,
                                        m2,
                                    ) implies noise@.contains(m2) by {
                                    if p2 == b as int {
                                        assert(sees_any(
                                            vis(*self, oidx, b as int),
                                            dev_of(*self, d as int).mac@,
                                        ));
                                    }
                                }
                            }
                        }
                        b += 1;
                    }
                    proof {
                        assert forall|j: int, p2: int, m2: u64|
                            0 <= j < a + 1 && #[trigger] noise_via(
                                *self,
                                d as int,
                                p as int,
                                seen@[j],
                                p2,
                                m2,
                            ) implies noise@.contains(m2) by {
                            if j == a as int {
                                assert(noise_via(*self, d as int, p as int, m, p2, m2));
                                assert(0 <= p2 < dev_of(*self, oidx).ports@.len());
                            }
                        }
                    }
                },
                None => {
                    proof {
                        assert forall|j: int, p2: int, m2: u64|
                            0 <= j < a + 1 && #[trigger] noise_via(
                                *self,
                                d as int,
                                p as int,
                                seen@[j],
                                p2,
                                m2,
                            ) implies noise@.contains(m2) by {
                            if j == a as int {
                                assert(mac_owned(*self, m));
                            }
                        }
                    }
                },
            }
            a += 1;
        }
        proof {
            assert forall|m2: u64| is_noise(*self, d as int, p as int, m2) implies noise@.contains(
                m2,
            ) by {
                let (mw, p2): (u64, int) = choose|mw: u64, p2: int|
                    noise_via(*self, d as int, p as int, mw, p2, m2);
                assert(vis(*self, d as int, p as int).contains_key(mw));
                assert(seen@.contains(mw));
                let j = choose|j: int| 0 <= j < seen@.len() && seen@[j] == mw;
                assert(noise_via(*self, d as int, p as int, seen@[j], p2, m2));
            }
        }
        let pairs = port.visible.to_pairs();
        let mut ns = ExpireSet::new();
        let nk = pairs.len();
        let mut k: usize = 0;
        while k < nk
            invariant
                self.wf(),
                d < self.devices.records().len(),
                p < self.devices.records()[d as int].ports@.len(),
                records@ == self.devices.records(),
                dev == &self.devices.records()[d as int],
                port == &dev.ports@[p as int],
                nk == pairs@.len(),
                0 <= k <= nk,
                forall|i: int, j: int|
                    0 <= i < j < nk ==> (#[trigger] pairs@[i]).0 != (#[trigger] pairs@[j]).0,
                forall|i: int|
                    0 <= i < nk ==> vis(*self, d as int, p as int).contains_key(
                        (#[trigger] pairs@[i]).0,
                    ) && vis(*self, d as int, p as int)[pairs@[i].0] == pairs@[i].1,
                forall|m2: u64|
                    vis(*self, d as int, p as int).contains_key(m2) ==> exists|i: int|
                        0 <= i < nk && (#[trigger] pairs@[i]).0 == m2,
                forall|x: u64| noise@.contains(x) <==> is_noise(*self, d as int, p as int, x),
                ns.wf(),
                forall|m2: u64|
                    ns@.contains_key(m2) ==> vis(*self, d as int, p as int).contains_key(m2)
                        && !noise@.contains(m2) && ns@[m2] == vis(*self, d as int, p as int)[m2],
                forall|m2: u64|
                    ns@.contains_key(m2) ==> exists|i: int|
                        0 <= i < k && (#[trigger] pairs@[i]).0 == m2,
                forall|i: int|
                    0 <= i < k && !noise@.contains((#[trigger] pairs@[i]).0) ==> ns@.contains_key(
                        pairs@[i].0,
                    ),
            decreases nk - k,
        {
            let (m2, e) = pairs[k];
            proof {
                assert(pairs@[k as int] == (m2, e));
                assert(vis(*self, d as int, p as int).contains_key(m2));
                assert(vis(*self, d as int, p as int)[m2] == e);
            }
            if !vec_contains(&noise, m2) {
                let ghost pre = ns@;
                ns.insert(m2, e);
                proof {
                    assert(!pre.contains_key(m2)) by {
                        if pre.contains_key(m2) {
                            let i = choose|i: int| 0 <= i < k && (#[trigger] pairs@[i]).0 == m2;
                            assert(pairs@[i].0 != pairs@[k as int].0);
                        }
                    }
                    assert(crate::expiry::merged_expiry(pre, m2, e) == e);
                    assert(ns@ == pre.insert(m2, e));
                    assert forall|x: u64| ns@.contains_key(x) implies exists|i: int|
                        0 <= i < k + 1 && (#[trigger] pairs@[i]).0 == x by {
                        if x == m2 {
                            assert(pairs@[k as int].0 == x);
                        } else {
                            let i = choose|i: int| 0 <= i < k && (#[trigger] pairs@[i]).0 == x;
                            assert(pairs@[i].0 == x);
                        }
                    }
                }
            }
            k += 1;
        }
        proof {
            assert_maps_equal!(ns@, pruned_vis(*self, d as int, p as int), x => {
                if ns@.contains_key(x) {
                    assert(vis(*self, d as int, p as int).contains_key(x));
                    assert(!noise@.contains(x));
                    assert(!is_noise(*self, d as int, p as int, x));
                    assert(pruned_vis(*self, d as int, p as int).contains_key(x));
                    assert(ns@[x] == pruned_vis(*self, d as int, p as int)[x]);
                }
                if pruned_vis(*self, d as int, p as int).contains_key(x) {
                    assert(vis(*self, d as int, p as int).contains_key(x));
                    assert(!is_noise(*self, d as int, p as int, x));
                    assert(!noise@.contains(x));
                    let i = choose|i: int| 0 <= i < nk && (#[trigger] pairs@[i]).0 == x;
                    assert(!noise@.contains(pairs@[i].0));
                    assert(ns@.contains_key(x));
                }
            });
        }
        ns
    }
}

/// Whether the set holds any of the given addresses.
fn set_sees_any(s: &ExpireSet, macs: &Vec<u64>) -> (r: bool)
    ensures
        r == sees_any(s@, macs@),
{
    let n = macs.len();
    let mut i: usize = 0;
    while i < n
        invariant
            n == macs@.len(),
            0 <= i <= n,
            forall|j: int| 0 <= j < i ==> !s@.contains_key(#[trigger] macs@[j]),
        decreases n - i,
    {
        if s.contains(macs[i]) {
            return true;
        }
        i += 1;
    }
    false
}

proof fn lemma_first_seeing_some(net: Network, d: int, macs: Seq<u64>, k: int, i: int)
    requires
        0 <= k <= i < nports(net, d),
        sees_any(pruned_vis(net, d, i), macs),
        forall|j: int| k <= j < i ==> !sees_any(pruned_vis(net, d, j), macs),
    ensures
        first_seeing(net, d, macs, k) == Some(i),
    decreases i - k,
{
    if k < i {
        lemma_first_seeing_some(net, d, macs, k + 1, i);
    }
}

proof fn lemma_first_seeing_none(net: Network, d: int, macs: Seq<u64>, k: int)
    requires
        k >= 0,
        forall|j: int| k <= j < nports(net, d) ==> !sees_any(pruned_vis(net, d, j), macs),
    ensures
        first_seeing(net, d, macs, k) is None,
    decreases nports(net, d) - k,
{
    if k < nports(net, d) {
        lemma_first_seeing_none(net, d, macs, k + 1);
    }
}

/// The node an adjacency edge attaches to on one side: the first port
/// of the device whose pruned view holds any of the other side's
/// addresses, or the device's own node.
fn endpoint_node(
    Ghost(net): Ghost<Network>,
    d: usize,
    row: &Vec<ExpireSet>,
    macs: &Vec<u64>,
    dev_node: usize,
    pidx_row: &Vec<usize>,
) -> (r: usize)
    requires
        0 <= (d as int) < n_devs(net),
        row@.len() == nports(net, d as int),
        forall|q: int|
            0 <= q < row@.len() ==> (#[trigger] row@[q]).wf() && row@[q]@ == pruned_vis(
                net,
                d as int,
                q,
            ),
        dev_node as int == device_node_index(net, d as int),
        pidx_row@.len() == nports(net, d as int),
        forall|q: int|
            0 <= q < pidx_row@.len() && occupied(net, d as int, q) ==> (
            #[trigger] pidx_row@[q]) as int == port_node_index(net, d as int, q),
    ensures
        r as int == (match first_seeing(net, d as int, macs@, 0) {
            Some(p) => port_node_index(net, d as int, p),
            None => device_node_index(net, d as int),
        }),
{
    let np = row.len();
    let mut p: usize = 0;
    while p < np
        invariant
            np == row@.len(),
            np == nports(net, d as int),
            0 <= (d as int) < n_devs(net),
            0 <= p <= np,
            forall|q: int|
                0 <= q < row@.len() ==> (#[trigger] row@[q]).wf() && row@[q]@ == pruned_vis(
                    net,
                    d as int,
                    q,
                ),
            dev_node as int == device_node_index(net, d as int),
            pidx_row@.len() == nports(net, d as int),
            forall|q: int|
                0 <= q < pidx_row@.len() && occupied(net, d as int, q) ==> (
                #[trigger] pidx_row@[q]) as int == port_node_index(net, d as int, q),
            forall|j: int| 0 <= j < p ==> !sees_any(pruned_vis(net, d as int, j), macs@),
        decreases np - p,
    {
        if set_sees_any(&row[p], macs) {
            proof {
                lemma_first_seeing_some(net, d as int, macs@, 0, p as int);
                let w = choose|i: int|
                    0 <= i < macs@.len() && pruned_vis(net, d as int, p as int).contains_key(
                        #[trigger] macs@[i],
                    );
                assert(occupied(net, d as int, p as int));
            }
            return pidx_row[p];
        }
        p += 1;
    }
    proof {
        lemma_first_seeing_none(net, d as int, macs@, 0);
    }
    dev_node
}

impl Network {
    /// Counts how many addresses in the set belong to no configured device.
    fn count_unknown(&self, s: &ExpireSet) -> (r: usize)
        requires
            s.wf(),
        ensures
            r as int == s@.dom().filter(|m: u64| !mac_owned(*self, m)).len(),
    {
        let items = s.iter();
        let n = items.len();
        let mut count: usize = 0;
        let ghost mut acc: Set<u64> = Set::empty();
        let mut i: usize = 0;
        while i < n
            invariant
                n == items@.len(),
                0 <= i <= n,
                count <= i,
                acc.finite(),
                count == acc.len(),
                forall|i2: int, j2: int| 0 <= i2 < j2 < n ==> items@[i2] != items@[j2],
                forall|j: int| 0 <= j < n ==> s@.contains_key(#[trigger] items@[j]),
                forall|m: u64| s@.contains_key(m) ==> items@.contains(m),
                forall|x: u64|
                    acc.contains(x) ==> s@.dom().contains(x) && !mac_owned(*self, x),
                forall|x: u64|
                    acc.contains(x) ==> exists|j: int| 0 <= j < i && items@[j] == x,
                forall|j: int|
                    0 <= j < i && !mac_owned(*self, #[trigger] items@[j]) ==> acc.contains(
                        items@[j],
                    ),
            decreases n - i,
        {
            let m = items[i];
            if !self.devices.contains_key(m) {
                proof {
                    assert(!acc.contains(m)) by {
                        if acc.contains(m) {
                            let j = choose|j: int| 0 <= j < i && items@[j] == m;
                            assert(items@[j] != items@[i as int]);
                        }
                    }
                    acc = acc.insert(m);
                    assert forall|x: u64| acc.contains(x) implies exists|j: int|
                        0 <= j < i + 1 && items@[j] == x by {
                        if x == m {
                            assert(items@[i as int] == x);
                        } else {
                            let j = choose|j: int| 0 <= j < i && items@[j] == x;
                            assert(items@[j] == x);
                        }
                    }
                }
                count += 1;
            }
            i += 1;
        }
        proof {
            assert forall|x: u64| s@.dom().filter(|m: u64| !mac_owned(*self, m)).contains(
                x,
            ) implies acc.contains(x) by {
                assert(items@.contains(x));
                let j = choose|j: int| 0 <= j < items@.len() && items@[j] == x;
                assert(!mac_owned(*self, items@[j]));
            }
            assert(acc =~= s@.dom().filter(|m: u64| !mac_owned(*self, m)));
        }
        count
    }

    /// The build: prunes a working copy of the visibility state,
    /// emits device and port nodes (ports grouped with their device
    /// where anything is visible), resolves one adjacency edge per
    /// unordered device pair, and attaches one aggregate node per port
    /// that still sees unconfigured neighbors. Pure: the live state is
    /// unchanged, and the result is exactly determined by it.
    pub fn map(&self) -> (g: Graph)
        requires
            self.wf(),
        ensures
            g.nodes@ == nodes_spec(*self),
            g.edges@ == edges_spec(*self),
    {
        let ghost net = *self;
        let pruned = self.prune_state();
        let records = self.devices.values();
        let nd = records.len();
        let mut nodes: Vec<GraphNode> = Vec::new();
        let mut edges: Vec<(usize, usize)> = Vec::new();
        let mut dev_idx: Vec<usize> = Vec::new();
        let mut port_idx: Vec<Vec<usize>> = Vec::new();
        let mut d: usize = 0;
        while d < nd
            invariant
                self.wf(),
                net == *self,
                nd == n_devs(net),
                records@ == self.devices.records(),
                is_pruned_state(net, pruned@),
                0 <= d <= nd,
                nodes@ == base_nodes_upto(net, d as int),
                edges@ == intra_edges_upto(net, d as int),
                dev_idx@.len() == d,
                forall|k: int|
                    0 <= k < d ==> (#[trigger] dev_idx@[k]) as int == device_node_index(net, k),
                port_idx@.len() == d,
                forall|k: int| 0 <= k < d ==> (#[trigger] port_idx@[k])@.len() == nports(net, k),
                forall|k: int, q: int|
                    0 <= k < d && 0 <= q < nports(net, k) && occupied(net, k, q) ==> (
                    #[trigger] port_idx@[k]@[q]) as int == port_node_index(net, k, q),
            decreases nd - d,
        {
            let dev = &records[d];
            let row = &pruned[d];
            let np = dev.ports.len();
            let mut any = false;
            let mut p: usize = 0;
            while p < np
                invariant
                    net == *self,
                    is_pruned_state(net, pruned@),
                    0 <= d < nd,
                    nd == n_devs(net),
                    dev == &self.devices.records()[d as int],
                    row == &pruned@[d as int],
                    np == nports(net, d as int),
                    row@.len() == np,
                    0 <= p <= np,
                    any == exists|q: int| 0 <= q < p && occupied(net, d as int, q),
                decreases np - p,
            {
                if !row[p].is_empty() {
                    proof {
                        let w = choose|m: u64| row@[p as int]@.contains_key(m);
                        assert(occupied(net, d as int, p as int));
                    }
                    any = true;
                } else {
                    proof {
                        assert(!occupied(net, d as int, p as int));
                    }
                }
                p += 1;
            }
            proof {
                assert(any == grouped(net, d as int));
            }
            let gi = nodes.len();
            proof {
                assert(gi as int == device_node_index(net, d as int));
            }
            nodes.push(GraphNode::Device { device: d, label: dev.label().clone(), grouped: any });
            dev_idx.push(gi);
            let ghost after_dev = nodes@;
            let mut pidx_row: Vec<usize> = Vec::new();
            if any {
                let mut p: usize = 0;
                while p < np
                    invariant
                        net == *self,
                        is_pruned_state(net, pruned@),
                        0 <= d < nd,
                        nd == n_devs(net),
                        dev == &self.devices.records()[d as int],
                        row == &pruned@[d as int],
                        np == nports(net, d as int),
                        row@.len() == np,
                        0 <= p <= np,
                        grouped(net, d as int),
                        gi as int == device_node_index(net, d as int),
                        nodes@ == base_nodes_upto(net, d as int) + seq![
                            GraphNode::Device {
                                device: d,
                                label: dev_label(net, d as int),
                                grouped: true,
                            },
                        ] + port_nodes_upto(net, d as int, p as int),
                        edges@ == intra_edges_upto(net, d as int) + intra_edges_for(
                            net,
                            d as int,
                            p as int,
                        ),
                        pidx_row@.len() == p,
                        forall|q: int|
                            0 <= q < p && occupied(net, d as int, q) ==> (
                            #[trigger] pidx_row@[q]) as int == port_node_index(net, d as int, q),
                    decreases np - p,
                {
                    if !row[p].is_empty() {
                        proof {
                            let w = choose|m: u64| row@[p as int]@.contains_key(m);
                            assert(occupied(net, d as int, p as int));
                        }
                        let pi = nodes.len();
                        proof {
                            assert(pi as int == port_node_index(net, d as int, p as int));
                        }
                        nodes.push(
                            GraphNode::Port { device: d, port: p, label: dev.ports[p].name.clone() },
                        );
                        edges.push((gi, pi));
                        pidx_row.push(pi);
                        proof {
                            assert(nodes@ =~= base_nodes_upto(net, d as int) + seq![
                                GraphNode::Device {
                                    device: d,
                                    label: dev_label(net, d as int),
                                    grouped: true,
                                },
                            ] + port_nodes_upto(net, d as int, p + 1));
                            assert(edges@ =~= intra_edges_upto(net, d as int) + intra_edges_for(
                                net,
                                d as int,
                                p + 1,
                            ));
                        }
                    } else {
                        pidx_row.push(0);
                        proof {
                            assert(!occupied(net, d as int, p as int));
                        }
                    }
                    p += 1;
                }
                proof {
                    assert(nodes@ =~= base_nodes_upto(net, d + 1));
                    assert(edges@ =~= intra_edges_upto(net, d + 1));
                }
            } else {
                let mut p: usize = 0;
                while p < np
                    invariant
                        0 <= p <= np,
                        pidx_row@.len() == p,
                    decreases np - p,
                {
                    pidx_row.push(0);
                    p += 1;
                }
                proof {
                    lemma_ungrouped(net, d as int, np as int);
                    assert(nodes@ =~= base_nodes_upto(net, d + 1));
                    assert(edges@ =~= intra_edges_upto(net, d + 1));
                }
            }
            port_idx.push(pidx_row);
            d += 1;
        }
        proof {
            assert(nodes@ == base_nodes(net));
            assert(edges@ == intra_edges(net));
        }
        // Pairwise adjacency resolution.
        let pairs = self.devices.visit_pairs();
        proof {
            crate::multimap::lemma_pairwise_visitation(nd as int);
        }
        let nk = pairs.len();
        let mut k: usize = 0;
        while k < nk
            invariant
                self.wf(),
                net == *self,
                nd == n_devs(net),
                records@ == self.devices.records(),
                is_pruned_state(net, pruned@),
                pairs@ == crate::multimap::pair_seq(nd as int),
                nk == pairs@.len(),
                0 <= k <= nk,
                forall|t: int|
                    0 <= t < nk ==> (#[trigger] pairs@[t]).1 < pairs@[t].0 < nd,
                nodes@ == base_nodes(net),
                edges@ == intra_edges(net) + pair_edges(net).take(k as int),
                dev_idx@.len() == nd,
                forall|t: int|
                    0 <= t < nd ==> (#[trigger] dev_idx@[t]) as int == device_node_index(net, t),
                port_idx@.len() == nd,
                forall|t: int| 0 <= t < nd ==> (#[trigger] port_idx@[t])@.len() == nports(net, t),
                forall|t: int, q: int|
                    0 <= t < nd && 0 <= q < nports(net, t) && occupied(net, t, q) ==> (
                    #[trigger] port_idx@[t]@[q]) as int == port_node_index(net, t, q),
            decreases nk - k,
        {
            let (l, r) = pairs[k];
            let le = endpoint_node(
                Ghost(net),
                l,
                &pruned[l],
                &records[r].mac,
                dev_idx[l],
                &port_idx[l],
            );
            let re = endpoint_node(
                Ghost(net),
                r,
                &pruned[r],
                &records[l].mac,
                dev_idx[r],
                &port_idx[r],
            );
            edges.push((le, re));
            proof {
                assert(pair_edges(net)[k as int] == (
                    endpoint(net, l as int, r as int) as usize,
                    endpoint(net, r as int, l as int) as usize,
                ));
                assert(le as int == endpoint(net, l as int, r as int));
                assert(re as int == endpoint(net, r as int, l as int));
                assert(edges@ =~= intra_edges(net) + pair_edges(net).take(k + 1));
            }
            k += 1;
        }
        proof {
            assert(pair_edges(net).take(nk as int) == pair_edges(net));
            assert(edges@ == intra_edges(net) + pair_edges(net));
        }
        // Aggregate unknown neighbors.
        let ghost base_len = base_nodes(net).len() as int;
        let ghost mut alist: Seq<(int, int)> = Seq::empty();
        let mut d: usize = 0;
        while d < nd
            invariant
                self.wf(),
                net == *self,
                nd == n_devs(net),
                records@ == self.devices.records(),
                is_pruned_state(net, pruned@),
                0 <= d <= nd,
                base_len == base_nodes(net).len() as int,
                alist == agg_upto(net, d as int),
                nodes@ == base_nodes(net) + Seq::new(
                    alist.len(),
                    |t: int| GraphNode::Aggregate {
                        count: unknown_count(net, alist[t].0, alist[t].1) as usize,
                    },
                ),
                edges@ == intra_edges(net) + pair_edges(net) + Seq::new(
                    alist.len(),
                    |t: int|
                        (
                            port_node_index(net, alist[t].0, alist[t].1) as usize,
                            (base_len + t) as usize,
                        ),
                ),
                port_idx@.len() == nd,
                forall|t: int| 0 <= t < nd ==> (#[trigger] port_idx@[t])@.len() == nports(net, t),
                forall|t: int, q: int|
                    0 <= t < nd && 0 <= q < nports(net, t) && occupied(net, t, q) ==> (
                    #[trigger] port_idx@[t]@[q]) as int == port_node_index(net, t, q),
            decreases nd - d,
        {
            let row = &pruned[d];
            let np = row.len();
            let mut p: usize = 0;
            while p < np
                invariant
                    self.wf(),
                    net == *self,
                    nd == n_devs(net),
                    records@ == self.devices.records(),
                    is_pruned_state(net, pruned@),
                    0 <= d < nd,
                    row == &pruned@[d as int],
                    np == nports(net, d as int),
                    row@.len() == np,
                    0 <= p <= np,
                    base_len == base_nodes(net).len() as int,
                    alist == agg_upto(net, d as int) + agg_ports_for(net, d as int, p as int),
                    nodes@ == base_nodes(net) + Seq::new(
                        alist.len(),
                        |t: int| GraphNode::Aggregate {
                            count: unknown_count(net, alist[t].0, alist[t].1) as usize,
                        },
                    ),
                    edges@ == intra_edges(net) + pair_edges(net) + Seq::new(
                        alist.len(),
                        |t: int|
                            (
                                port_node_index(net, alist[t].0, alist[t].1) as usize,
                                (base_len + t) as usize,
                            ),
                    ),
                    port_idx@.len() == nd,
                    forall|t: int|
                        0 <= t < nd ==> (#[trigger] port_idx@[t])@.len() == nports(net, t),
                    forall|t: int, q: int|
                        0 <= t < nd && 0 <= q < nports(net, t) && occupied(net, t, q) ==> (
                        #[trigger] port_idx@[t]@[q]) as int == port_node_index(net, t, q),
                decreases np - p,
            {
                let mut skip = true;
                if !row[p].is_empty() {
                    proof {
                        let w = choose|m: u64| row@[p as int]@.contains_key(m);
                        assert(occupied(net, d as int, p as int));
                    }
                    let count = self.count_unknown(&row[p]);
                    if count > 0 {
                        skip = false;
                        let ai = nodes.len();
                        let ghost alist0 = alist;
                        proof {
                            alist = alist.push((d as int, p as int));
                        }
                        nodes.push(GraphNode::Aggregate { count });
                        edges.push((port_idx[d].as_slice()[p], ai));
                        proof {
                            assert(agg_ports_for(net, d as int, p + 1) == agg_ports_for(
                                net,
                                d as int,
                                p as int,
                            ).push((d as int, p as int)));
                            assert(alist =~= agg_upto(net, d as int) + agg_ports_for(
                                net,
                                d as int,
                                p + 1,
                            ));
                            assert(ai as int == base_len + alist0.len());
                            assert(nodes@ =~= base_nodes(net) + Seq::new(
                                alist.len(),
                                |t: int| GraphNode::Aggregate {
                                    count: unknown_count(net, alist[t].0, alist[t].1) as usize,
                                },
                            ));
                            assert(edges@ =~= intra_edges(net) + pair_edges(net) + Seq::new(
                                alist.len(),
                                |t: int|
                                    (
                                        port_node_index(net, alist[t].0, alist[t].1) as usize,
                                        (base_len + t) as usize,
                                    ),
                            ));
                        }
                    }
                } else {
                    proof {
                        assert(!occupied(net, d as int, p as int));
                    }
                }
                proof {
                    if skip {
                        assert(agg_ports_for(net, d as int, p + 1) == agg_ports_for(
                            net,
                            d as int,
                            p as int,
                        ));
                        assert(alist =~= agg_upto(net, d as int) + agg_ports_for(
                            net,
                            d as int,
                            p + 1,
                        ));
                    }
                }
                p += 1;
            }
            proof {
                assert(agg_upto(net, d + 1) == agg_upto(net, d as int) + agg_ports_for(
                    net,
                    d as int,
                    np as int,
                ));
            }
            d += 1;
        }
        proof {
            assert(alist == agg_list(net));
            assert(Seq::new(
                alist.len(),
                |t: int| GraphNode::Aggregate {
                    count: unknown_count(net, alist[t].0, alist[t].1) as usize,
                },
            ) =~= agg_nodes(net));
            assert(Seq::new(
                alist.len(),
                |t: int|
                    (
                        port_node_index(net, alist[t].0, alist[t].1) as usize,
                        (base_len + t) as usize,
                    ),
            ) =~= agg_edges(net));
        }
        Graph { nodes, edges }
    }
}

/// Law: pruning removes transitive noise. Take a device `a` one of
/// whose ports sees both `mac_b` and `mac_c`, where `mac_b` belongs to
/// device `b`, some port `pb` of `b` reports `mac_c` but does not see
/// `a` back, and no port that fails to see `a` back on any device `a`
/// sees reports `mac_b` itself. Then pruning removes `mac_c` from
/// `a`'s port and leaves `mac_b` in place.
pub proof fn lemma_pruning_removes_transitive_noise(
    net: Network,
    a: int,
    pa: int,
    b: int,
    pb: int,
    mac_b: u64,
    mac_c: u64,
)
    requires
        0 <= a < n_devs(net),
        0 <= pa < nports(net, a),
        0 <= b < n_devs(net),
        0 <= pb < nports(net, b),
        vis(net, a, pa).contains_key(mac_b),
        vis(net, a, pa).contains_key(mac_c),
        mac_owned(net, mac_b),
        mac_owner(net, mac_b) == b,
        !sees_any(vis(net, b, pb), dev_of(net, a).mac@),
        vis(net, b, pb).contains_key(mac_c),
        forall|m: u64, q: int|
            vis(net, a, pa).contains_key(m) && mac_owned(net, m) && 0 <= q < nports(
                net,
                mac_owner(net, m),
            ) && !sees_any(
                vis(net, mac_owner(net, m), q),
                dev_of(net, a).mac@,
            ) ==> !vis(net, mac_owner(net, m), q).contains_key(mac_b),
    ensures
        !pruned_vis(net, a, pa).contains_key(mac_c),
        pruned_vis(net, a, pa).contains_key(mac_b),
{
    assert(noise_via(net, a, pa, mac_b, pb, mac_c));
    assert(is_noise(net, a, pa, mac_c));
    assert(!is_noise(net, a, pa, mac_b)) by {
        if is_noise(net, a, pa, mac_b) {
            let (m, q): (u64, int) = choose|m: u64, q: int| noise_via(net, a, pa, m, q, mac_b);
            assert(!vis(net, mac_owner(net, m), q).contains_key(mac_b));
        }
    }
}

/// A device with no occupied port contributes no port nodes, no
/// device-to-port edges, and no aggregates.
proof fn lemma_ungrouped(net: Network, d: int, k: int)
    requires
        !grouped(net, d),
        0 <= k <= nports(net, d),
    ensures
        port_nodes_upto(net, d, k) == Seq::<GraphNode>::empty(),
        intra_edges_for(net, d, k) == Seq::<(usize, usize)>::empty(),
        agg_ports_for(net, d, k) == Seq::<(int, int)>::empty(),
    decreases k,
{
    if k > 0 {
        assert(!occupied(net, d, k - 1));
        lemma_ungrouped(net, d, k - 1);
    }
}

} // verus!