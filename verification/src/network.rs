//! The live network model: the configured skeleton of devices and
//! ports, the visibility state each port accumulates across poll
//! cycles, and the steps of one poll cycle.

use vstd::prelude::*;

use crate::config::DeviceConfig;
use crate::config::DeviceDataFormat;
use crate::config::DevicePoller;
use crate::config::NetworkConfig;
use crate::config::PortConfig;
use crate::config::PortDataFormat;
use crate::config::PortPoller;
use crate::expiry::merged_maps;
use crate::expiry::swept;
use crate::expiry::ExpireSet;
use crate::multimap::bound_keys;
use crate::multimap::MultiMap;
use vstd::string::StringSliceAdditionalSpecFns;

verus! {

/// The bytes a piece of text is written as.
pub open spec fn string_bytes(s: Seq<char>) -> Seq<u8> {
    vstd::utf8::encode_utf8(s)
}

/// Whether a visibility claim holds for any of the given addresses.
pub open spec fn sees_any(vis: Map<u64, u64>, macs: Seq<u64>) -> bool {
    exists|i: int| 0 <= i < macs.len() && vis.contains_key(#[trigger] macs[i])
}

/// Copies a vector of plain values.
fn copy_vec<T: Copy>(v: &Vec<T>) -> (r: Vec<T>)
    ensures
        r@ == v@,
{
    let n = v.len();
    let mut out: Vec<T> = Vec::new();
    let mut i: usize = 0;
    while i < n
        invariant
            n == v@.len(),
            0 <= i <= n,
            out@ == v@.take(i as int),
        decreases n - i,
    {
        proof {
            assert(v@.take(i + 1) =~= v@.take(i as int).push(v@[i as int]));
        }
        out.push(v[i]);
        i += 1;
    }
    proof {
        assert(v@.take(n as int) == v@);
    }
    out
}

/// Turns text into its bytes.
fn bytes_of(s: &str) -> (r: Vec<u8>)
    ensures
        r@ == s.spec_bytes(),
{
    let b = s.as_bytes();
    let n = b.len();
    let mut out: Vec<u8> = Vec::new();
    let mut i: usize = 0;
    while i < n
        invariant
            n == b@.len(),
            0 <= i <= n,
            out@ == b@.take(i as int),
        decreases n - i,
    {
        proof {
            assert(b@.take(i + 1) =~= b@.take(i as int).push(b@[i as int]));
        }
        out.push(b[i]);
        i += 1;
    }
    proof {
        assert(b@.take(n as int) == b@);
    }
    out
}

/// Replaces the element at `i`.
fn vec_replace<T>(v: &mut Vec<T>, i: usize, x: T)
    requires
        i < old(v)@.len(),
    ensures
        final(v)@ == old(v)@.update(i as int, x),
{
    let r = &mut v[i];
    *r = x;
}

/// The position of the port with the given identifier, if any.
fn find_port_index(ports: &Vec<Port>, id: &[u8]) -> (r: Option<usize>)
    ensures
        match r {
            Some(i) => i < ports@.len() && ports@[i as int].id@ == id@,
            None => forall|j: int| 0 <= j < ports@.len() ==> (#[trigger] ports@[j]).id@ != id@,
        },
{
    let n = ports.len();
    let mut i: usize = 0;
    while i < n
        invariant
            n == ports@.len(),
            0 <= i <= n,
            forall|j: int| 0 <= j < i ==> (#[trigger] ports@[j]).id@ != id@,
        decreases n - i,
    {
        if crate::parsers::bytes_eq(ports[i].id.as_slice(), id) {
            return Some(i);
        }
        i += 1;
    }
    None
}

/// One port of the live model: its identifier (as bytes, the form the
/// collectors report), its display name, and the addresses currently
/// visible from it.
pub struct Port {
    pub id: Vec<u8>,
    pub name: String,
    pub visible: ExpireSet,
}

impl Port {
    /// The port's visibility set is internally consistent.
    pub open spec fn wf(&self) -> bool {
        self.visible.wf()
    }

    /// The identifier and display name a port configuration gives rise to.
    pub open spec fn matches_config(&self, config: PortConfig) -> bool {
        &&& self.id@ == string_bytes(config.id@)
        &&& self.name@ == match config.name {
            Some(n) => n@,
            None => config.id@,
        }
    }

    /// Builds the port a configuration describes, with nothing visible yet.
    pub fn from_config(config: &PortConfig) -> (r: Port)
        ensures
            r.wf(),
            r.matches_config(*config),
            r.visible@ == Map::<u64, u64>::empty(),
    {
        let name = match &config.name {
            Some(n) => n.clone(),
            None => config.id.clone(),
        };
        Port { id: bytes_of(config.id.as_str()), name, visible: ExpireSet::new() }
    }

    /// Whether this port currently sees any of the given addresses.
    pub fn can_see(&self, mac: &Vec<u64>) -> (r: bool)
        ensures
            r == sees_any(self.visible@, mac@),
    {
        let n = mac.len();
        let mut i: usize = 0;
        while i < n
            invariant
                n == mac@.len(),
                0 <= i <= n,
                forall|j: int| 0 <= j < i ==> !self.visible@.contains_key(#[trigger] mac@[j]),
            decreases n - i,
        {
            if self.visible.contains(mac[i]) {
                return true;
            }
            i += 1;
        }
        false
    }
}

/// One device of the live model: identity, display name, hardware
/// addresses, and its ports.
pub struct Device {
    pub id: String,
    pub name: Option<String>,
    pub mac: Vec<u64>,
    pub ports: Vec<Port>,
}

impl Device {
    /// Ports are well-formed and no two share an identifier.
    pub open spec fn wf(&self) -> bool {
        &&& forall|i: int| 0 <= i < self.ports@.len() ==> (#[trigger] self.ports@[i]).wf()
        &&& forall|i: int, j: int|
            0 <= i < j < self.ports@.len() ==> self.ports@[i].id@ != self.ports@[j].id@
    }

    /// The label the device shows: its display name, or its identifier.
    pub open spec fn spec_label(&self) -> Seq<char> {
        match self.name {
            Some(n) => n@,
            None => self.id@,
        }
    }

    /// The label as a value.
    pub open spec fn label_string(&self) -> String {
        match self.name {
            Some(n) => n,
            None => self.id,
        }
    }

    /// The display label: the configured name, or the identifier.
    pub fn label(&self) -> (r: &String)
        ensures
            r@ == self.spec_label(),
            *r == self.label_string(),
    {
        match &self.name {
            Some(n) => n,
            None => &self.id,
        }
    }
}

/// The identifiers and names of the ports a device configuration
/// gives rise to: one port per distinct identifier, at its first
/// position, with the last configuration entry for it winning.
pub open spec fn port_descs(cfgs: Seq<PortConfig>) -> Seq<(Seq<u8>, Seq<char>)>
    decreases cfgs.len(),
{
    if cfgs.len() == 0 {
        Seq::empty()
    } else {
        upsert_desc(port_descs(cfgs.drop_last()), desc_of(cfgs.last()))
    }
}

/// The identifier and display name one port configuration describes.
pub open spec fn desc_of(c: PortConfig) -> (Seq<u8>, Seq<char>) {
    (
        string_bytes(c.id@),
        match c.name {
            Some(n) => n@,
            None => c.id@,
        },
    )
}

/// Replaces the entry with the same identifier, or appends.
pub open spec fn upsert_desc(s: Seq<(Seq<u8>, Seq<char>)>, d: (Seq<u8>, Seq<char>)) -> Seq<
    (Seq<u8>, Seq<char>),
> {
    if exists|i: int| 0 <= i < s.len() && (#[trigger] s[i]).0 == d.0 {
        s.update(choose|i: int| 0 <= i < s.len() && (#[trigger] s[i]).0 == d.0, d)
    } else {
        s.push(d)
    }
}

impl Device {
    /// The device a configuration describes, before any polling: the
    /// configured identity and addresses, and one empty port per
    /// distinct configured port identifier.
    pub open spec fn matches_config(&self, config: DeviceConfig) -> bool {
        &&& self.id@ == config.id@
        &&& self.spec_label() == match config.name {
            Some(n) => n@,
            None => config.id@,
        }
        &&& self.mac@ == config.mac@
        &&& self.ports@.len() == port_descs(config.ports@).len()
        &&& forall|i: int|
            0 <= i < self.ports@.len() ==> (#[trigger] self.ports@[i]).id@ == port_descs(
                config.ports@,
            )[i].0 && self.ports@[i].name@ == port_descs(config.ports@)[i].1
    }

    /// Builds the device a configuration describes, with every port empty.
    pub fn from_config(config: &DeviceConfig) -> (r: Device)
        ensures
            r.wf(),
            r.matches_config(*config),
            forall|i: int|
                0 <= i < r.ports@.len() ==> (#[trigger] r.ports@[i]).visible@ == Map::<
                    u64,
                    u64,
                >::empty(),
    {
        let name = match &config.name {
            Some(n) => Some(n.clone()),
            None => None,
        };
        let mut ports: Vec<Port> = Vec::new();
        let n = config.ports.len();
        let mut i: usize = 0;
        while i < n
            invariant
                n == config.ports@.len(),
                0 <= i <= n,
                ports@.len() == port_descs(config.ports@.take(i as int)).len(),
                forall|j: int|
                    0 <= j < ports@.len() ==> (#[trigger] ports@[j]).id@ == port_descs(
                        config.ports@.take(i as int),
                    )[j].0 && ports@[j].name@ == port_descs(config.ports@.take(i as int))[j].1,
                forall|j: int| 0 <= j < ports@.len() ==> (#[trigger] ports@[j]).wf(),
                forall|j: int|
                    0 <= j < ports@.len() ==> (#[trigger] ports@[j]).visible@ == Map::<
                        u64,
                        u64,
                    >::empty(),
                forall|j: int, k: int|
                    0 <= j < k < ports@.len() ==> ports@[j].id@ != ports@[k].id@,
            decreases n - i,
        {
            let port = Port::from_config(&config.ports[i]);
            let ghost descs0 = port_descs(config.ports@.take(i as int));
            let ghost d = desc_of(config.ports@[i as int]);
            proof {
                assert(config.ports@.take(i + 1).drop_last() == config.ports@.take(i as int));
                assert(config.ports@.take(i + 1).last() == config.ports@[i as int]);
            }
            match find_port_index(&ports, port.id.as_slice()) {
                Some(found) => {
                    proof {
                        assert(ports@[found as int].id@ == d.0);
                        assert(descs0[found as int].0 == d.0);
                        let k = choose|k: int|
                            0 <= k < descs0.len() && (#[trigger] descs0[k]).0 == d.0;
                        assert(k == found as int) by {
                            if k != found as int {
                                if k < found as int {
                                    assert(ports@[k].id@ != ports@[found as int].id@);
                                } else {
                                    assert(ports@[found as int].id@ != ports@[k].id@);
                                }
                            }
                        }
                        assert(port_descs(config.ports@.take(i + 1)) == descs0.update(
                            found as int,
                            d,
                        ));
                    }
                    vec_replace(&mut ports, found, port);
                },
                None => {
                    proof {
                        assert forall|k: int| 0 <= k < descs0.len() implies (
                        #[trigger] descs0[k]).0 != d.0 by {
                            assert(ports@[k].id@ == descs0[k].0);
                        }
                        assert(port_descs(config.ports@.take(i + 1)) == descs0.push(d));
                    }
                    ports.push(port);
                },
            }
            i += 1;
        }
        proof {
            assert(config.ports@.take(n as int) == config.ports@);
        }
        Device { id: config.id.clone(), name, mac: copy_vec(&config.mac), ports }
    }
}

/// The key bindings a configuration builds: every device's hardware
/// addresses bound to its record identity, in configuration order;
/// an address shared by two devices ends up bound to the later one.
pub open spec fn config_key_map(cfgs: Seq<DeviceConfig>) -> Map<u64, usize>
    decreases cfgs.len(),
{
    if cfgs.len() == 0 {
        Map::empty()
    } else {
        bound_keys(config_key_map(cfgs.drop_last()), cfgs.last().mac@, (cfgs.len() - 1) as usize)
    }
}

/// The live network: the configuration it was built from, and the
/// multi-key index of devices, keyed by every hardware address.
pub struct Network {
    pub config: NetworkConfig,
    pub devices: MultiMap<Device>,
}

/// The first port with the given identifier, scanning from `k`.
pub open spec fn port_index_from(ports: Seq<Port>, id: Seq<u8>, k: int) -> Option<int>
    decreases ports.len() - k,
{
    if k < 0 || k >= ports.len() {
        None
    } else if ports[k].id@ == id {
        Some(k)
    } else {
        port_index_from(ports, id, k + 1)
    }
}

/// The first port with the given identifier, if any.
pub open spec fn port_index_spec(ports: Seq<Port>, id: Seq<u8>) -> Option<int> {
    port_index_from(ports, id, 0)
}

proof fn lemma_port_index_from_some(ports: Seq<Port>, id: Seq<u8>, k: int, i: int)
    requires
        0 <= k <= i < ports.len(),
        ports[i].id@ == id,
        forall|j: int| k <= j < i ==> (#[trigger] ports[j]).id@ != id,
    ensures
        port_index_from(ports, id, k) == Some(i),
    decreases i - k,
{
    if k < i {
        lemma_port_index_from_some(ports, id, k + 1, i);
    }
}

proof fn lemma_port_index_from_none(ports: Seq<Port>, id: Seq<u8>, k: int)
    requires
        k >= 0,
        forall|j: int| k <= j < ports.len() ==> (#[trigger] ports[j]).id@ != id,
    ensures
        port_index_from(ports, id, k) is None,
    decreases ports.len() - k,
{
    if k < ports.len() {
        lemma_port_index_from_none(ports, id, k + 1);
    }
}

impl Network {
    /// The structural invariant: a consistent index whose records all
    /// match their configuration entry, one per configured device.
    pub open spec fn wf(&self) -> bool {
        &&& self.devices.wf()
        &&& self.devices.records().len() == self.config.devices@.len()
        &&& forall|i: int|
            0 <= i < self.devices.records().len() ==> (#[trigger] self.devices.records()[i]).wf()
        &&& forall|i: int|
            0 <= i < self.devices.records().len() ==> (
            #[trigger] self.devices.records()[i]).matches_config(self.config.devices@[i])
    }

    /// Builds the network skeleton a configuration describes: one
    /// record per configured device, in order, reachable through every
    /// one of its hardware addresses, with every port empty.
    pub fn new(config: NetworkConfig) -> (r: Network)
        requires
            config.devices@.len() < usize::MAX,
        ensures
            r.wf(),
            r.config == config,
            r.devices.key_map() == config_key_map(config.devices@),
            forall|i: int, p: int|
                0 <= i < r.devices.records().len() && 0 <= p
                    < r.devices.records()[i].ports@.len() ==> (
                #[trigger] r.devices.records()[i].ports@[p]).visible@ == Map::<u64, u64>::empty(),
    {
        let mut devices: MultiMap<Device> = MultiMap::new();
        let n = config.devices.len();
        let mut i: usize = 0;
        while i < n
            invariant
                n == config.devices@.len(),
                n < usize::MAX,
                0 <= i <= n,
                devices.wf(),
                devices.records().len() == i,
                devices.key_map() == config_key_map(config.devices@.take(i as int)),
                forall|k: int| 0 <= k < i ==> (#[trigger] devices.records()[k]).wf(),
                forall|k: int|
                    0 <= k < i ==> (#[trigger] devices.records()[k]).matches_config(
                        config.devices@[k],
                    ),
                forall|k: int, p: int|
                    0 <= k < i && 0 <= p < devices.records()[k].ports@.len() ==> (
                    #[trigger] devices.records()[k].ports@[p]).visible@ == Map::<
                        u64,
                        u64,
                    >::empty(),
            decreases n - i,
        {
            let dev = Device::from_config(&config.devices[i]);
            let ghost pre = devices.records();
            devices.insert(&config.devices[i].mac, dev);
            proof {
                assert(config.devices@.take(i + 1).drop_last() == config.devices@.take(i as int));
                assert(config.devices@.take(i + 1).last() == config.devices@[i as int]);
                assert(forall|k: int| 0 <= k < i ==> devices.records()[k] == pre[k]);
            }
            i += 1;
        }
        proof {
            assert(config.devices@.take(n as int) == config.devices@);
        }
        Network { config, devices }
    }

    /// Which record a configured device resolves to during the poll
    /// cycle: the binding of its first hardware address, if it has
    /// addresses and the binding exists.
    pub open spec fn resolve_device(&self, d: int) -> Option<int> {
        if self.config.devices@[d].mac@.len() > 0 && self.devices.key_map().contains_key(
            self.config.devices@[d].mac@[0],
        ) {
            Some(self.devices.key_map()[self.config.devices@[d].mac@[0]] as int)
        } else {
            None
        }
    }
}

/// Nothing observable changed.
pub open spec fn unchanged_net(pre: Network, post: Network) -> bool {
    &&& post.config == pre.config
    &&& post.devices.key_map() == pre.devices.key_map()
    &&& post.devices.records() == pre.devices.records()
}

/// Exactly one port of one record changed, to the given visibility.
pub open spec fn only_port_changed(
    pre: Network,
    post: Network,
    ridx: int,
    pidx: int,
    new_vis: Map<u64, u64>,
) -> bool {
    &&& post.config == pre.config
    &&& post.devices.key_map() == pre.devices.key_map()
    &&& post.devices.records().len() == pre.devices.records().len()
    &&& 0 <= ridx < pre.devices.records().len()
    &&& 0 <= pidx < pre.devices.records()[ridx].ports@.len()
    &&& forall|k: int|
        0 <= k < pre.devices.records().len() && k != ridx ==> (
        #[trigger] post.devices.records()[k]) == pre.devices.records()[k]
    &&& post.devices.records()[ridx].id == pre.devices.records()[ridx].id
    &&& post.devices.records()[ridx].name == pre.devices.records()[ridx].name
    &&& post.devices.records()[ridx].mac == pre.devices.records()[ridx].mac
    &&& post.devices.records()[ridx].ports@.len() == pre.devices.records()[ridx].ports@.len()
    &&& forall|q: int|
        0 <= q < pre.devices.records()[ridx].ports@.len() && q != pidx ==> (
        #[trigger] post.devices.records()[ridx].ports@[q]) == pre.devices.records()[ridx].ports@[q]
    &&& post.devices.records()[ridx].ports@[pidx].id == pre.devices.records()[ridx].ports@[pidx].id
    &&& post.devices.records()[ridx].ports@[pidx].name == pre.devices.records()[ridx].ports@[pidx].name
    &&& post.devices.records()[ridx].ports@[pidx].visible@ == new_vis
    &&& post.devices.records()[ridx].ports@[pidx].visible.wf()
}

impl Network {
    /// Resolves one poll step's device and port, and runs `expire` on
    /// the port's visibility set, removing every claim older than
    /// `now`. Returns false (changing nothing) where the configured
    /// device's first address does not resolve to a record with such a
    /// port.
    pub fn sweep_port(&mut self, d: usize, p: usize, now: u64) -> (r: bool)
        requires
            old(self).wf(),
            d < old(self).config.devices@.len(),
            p < old(self).config.devices@[d as int].ports@.len(),
        ensures
            final(self).wf(),
            match old(self).resolve_device(d as int) {
                Some(ridx) => match port_index_spec(
                    old(self).devices.records()[ridx].ports@,
                    string_bytes(old(self).config.devices@[d as int].ports@[p as int].id@),
                ) {
                    Some(pidx) => r && only_port_changed(
                        *old(self),
                        *final(self),
                        ridx,
                        pidx,
                        swept(
                            old(self).devices.records()[ridx].ports@[pidx].visible@,
                            now,
                        ),
                    ),
                    None => !r && unchanged_net(*old(self), *final(self)),
                },
                None => !r && unchanged_net(*old(self), *final(self)),
            },
    {
        if self.config.devices[d].mac.len() == 0 {
            return false;
        }
        let key = self.config.devices[d].mac[0];
        let ridx = match self.devices.index_of(key) {
            Some(ridx) => ridx,
            None => {
                return false;
            },
        };
        let pid = bytes_of(self.config.devices[d].ports[p].id.as_str());
        let ghost pre = *self;
        let dev = self.devices.values_mut(ridx);
        let ghost dev0 = *dev;
        let pidx = match find_port_index(&dev.ports, pid.as_slice()) {
            Some(pidx) => pidx,
            None => {
                proof {
                    lemma_port_index_from_none(dev0.ports@, pid@, 0);
                    assert(final(self).devices.records() =~= pre.devices.records());
                }
                return false;
            },
        };
        proof {
            lemma_port_index_from_some(dev0.ports@, pid@, 0, pidx as int);
        }
        let port = port_mut(&mut dev.ports, pidx);
        port.visible.expire(now);
        proof {
            assert(final(self).devices.records() =~= pre.devices.records().update(
                ridx as int,
                *final(dev),
            ));
        }
        true
    }
}

/// Mutable access to one port of a vector.
fn port_mut(v: &mut Vec<Port>, i: usize) -> (r: &mut Port)
    requires
        i < old(v)@.len(),
    ensures
        *r == old(v)@[i as int],
        final(v)@ == old(v)@.update(i as int, *final(r)),
{
    &mut v[i]
}

impl Network {
    /// Resolves one poll step's device and port, and merges a
    /// port-scoped collector's report into the port's visibility set
    /// under the max-expiry rule. Returns false (changing nothing)
    /// where resolution fails.
    pub fn merge_port_report(&mut self, d: usize, p: usize, report: ExpireSet) -> (r: bool)
        requires
            old(self).wf(),
            d < old(self).config.devices@.len(),
            p < old(self).config.devices@[d as int].ports@.len(),
            report.wf(),
        ensures
            final(self).wf(),
            match old(self).resolve_device(d as int) {
                Some(ridx) => match port_index_spec(
                    old(self).devices.records()[ridx].ports@,
                    string_bytes(old(self).config.devices@[d as int].ports@[p as int].id@),
                ) {
                    Some(pidx) => r && only_port_changed(
                        *old(self),
                        *final(self),
                        ridx,
                        pidx,
                        merged_maps(
                            old(self).devices.records()[ridx].ports@[pidx].visible@,
                            report@,
                        ),
                    ),
                    None => !r && unchanged_net(*old(self), *final(self)),
                },
                None => !r && unchanged_net(*old(self), *final(self)),
            },
    {
        if self.config.devices[d].mac.len() == 0 {
            return false;
        }
        let key = self.config.devices[d].mac[0];
        let ridx = match self.devices.index_of(key) {
            Some(ridx) => ridx,
            None => {
                return false;
            },
        };
        let pid = bytes_of(self.config.devices[d].ports[p].id.as_str());
        let ghost pre = *self;
        let dev = self.devices.values_mut(ridx);
        let ghost dev0 = *dev;
        let pidx = match find_port_index(&dev.ports, pid.as_slice()) {
            Some(pidx) => pidx,
            None => {
                proof {
                    lemma_port_index_from_none(dev0.ports@, pid@, 0);
                    assert(final(self).devices.records() =~= pre.devices.records());
                }
                return false;
            },
        };
        proof {
            lemma_port_index_from_some(dev0.ports@, pid@, 0, pidx as int);
        }
        let port = port_mut(&mut dev.ports, pidx);
        port.visible.extend_from(report);
        proof {
            assert(final(self).devices.records() =~= pre.devices.records().update(
                ridx as int,
                *final(dev),
            ));
        }
        true
    }

    /// Resolves one poll step's device and merges a device-scoped
    /// collector's report: each named port of the record absorbs its
    /// set under the max-expiry rule; names that match no port are
    /// silently dropped. Returns false (changing nothing) where the
    /// device resolves to no record.
    pub fn merge_device_report(&mut self, d: usize, report: Vec<(Vec<u8>, ExpireSet)>) -> (r:
        bool)
        requires
            old(self).wf(),
            d < old(self).config.devices@.len(),
            crate::parsers::distinct_ports(report@),
            forall|k: int| 0 <= k < report@.len() ==> (#[trigger] report@[k]).1.wf(),
        ensures
            final(self).wf(),
            match old(self).resolve_device(d as int) {
                Some(ridx) => r && device_report_merged(
                    *old(self),
                    *final(self),
                    ridx,
                    report@,
                ),
                None => !r && unchanged_net(*old(self), *final(self)),
            },
    {
        if self.config.devices[d].mac.len() == 0 {
            return false;
        }
        let key = self.config.devices[d].mac[0];
        let ridx = match self.devices.index_of(key) {
            Some(ridx) => ridx,
            None => {
                return false;
            },
        };
        let ghost pre = *self;
        let ghost r0 = report@;
        let dev = self.devices.values_mut(ridx);
        let ghost dev0 = *dev;
        let mut report = report;
        let mut k: usize = 0;
        let n = report.len();
        while k < n
            invariant
                n == r0.len(),
                0 <= k <= n,
                report@ == r0.skip(k as int),
                crate::parsers::distinct_ports(r0),
                forall|j: int| 0 <= j < r0.len() ==> (#[trigger] r0[j]).1.wf(),
                dev.ports@.len() == dev0.ports@.len(),
                forall|q: int|
                    0 <= q < dev.ports@.len() ==> (#[trigger] dev.ports@[q]).id == dev0.ports@[q].id
                        && dev.ports@[q].name == dev0.ports@[q].name,
                forall|q: int| 0 <= q < dev.ports@.len() ==> (#[trigger] dev.ports@[q]).wf(),
                forall|q: int, q2: int|
                    0 <= q < q2 < dev.ports@.len() ==> dev.ports@[q].id@ != dev.ports@[q2].id@,
                dev.id == dev0.id,
                dev.name == dev0.name,
                dev.mac == dev0.mac,
                forall|q: int|
                    0 <= q < dev.ports@.len() ==> (#[trigger] dev.ports@[q]).visible@ == (
                    match report_lookup(r0.take(k as int), dev0.ports@[q].id@) {
                        Some(m) => merged_maps(dev0.ports@[q].visible@, m),
                        None => dev0.ports@[q].visible@,
                    }),
                forall|q: int| 0 <= q < dev0.ports@.len() ==> (#[trigger] dev0.ports@[q]).wf(),
            decreases n - k,
        {
            let entry = report.remove(0);
            let (pid, set) = entry;
            proof {
                assert(r0.skip(k as int)[0] == r0[k as int]);
                assert(r0.skip(k as int).remove(0) =~= r0.skip(k + 1));
            }
            match find_port_index(&dev.ports, pid.as_slice()) {
                Some(pidx) => {
                    let ghost ports_pre = dev.ports@;
                    let port = port_mut(&mut dev.ports, pidx);
                    port.visible.extend_from(set);
                    proof {
                        assert forall|q: int| 0 <= q < dev.ports@.len() implies (
                        #[trigger] dev.ports@[q]).visible@ == (match report_lookup(
                            r0.take(k + 1),
                            dev0.ports@[q].id@,
                        ) {
                            Some(m) => merged_maps(dev0.ports@[q].visible@, m),
                            None => dev0.ports@[q].visible@,
                        }) by {
                            lemma_report_lookup_step(r0, k as int, dev0.ports@[q].id@);
                            if q == pidx {
                                assert(report_lookup(r0.take(k as int), dev0.ports@[q].id@)
                                    is None) by {
                                    if report_lookup(r0.take(k as int), dev0.ports@[q].id@)
                                        is Some {
                                        let w = choose|w: int|
                                            0 <= w < k && (#[trigger] r0.take(k as int)[w]).0@
                                                == dev0.ports@[q].id@;
                                        assert(r0[w].0@ == r0[k as int].0@);
                                    }
                                }
                            } else {
                                assert(dev.ports@[q] == ports_pre[q]);
                                assert(dev0.ports@[q].id@ != dev0.ports@[pidx as int].id@) by {
                                    if q < pidx {
                                    } else {
                                    }
                                }
                            }
                        }
                    }
                },
                None => {
                    proof {
                        assert forall|q: int| 0 <= q < dev.ports@.len() implies (
                        #[trigger] dev.ports@[q]).visible@ == (match report_lookup(
                            r0.take(k + 1),
                            dev0.ports@[q].id@,
                        ) {
                            Some(m) => merged_maps(dev0.ports@[q].visible@, m),
                            None => dev0.ports@[q].visible@,
                        }) by {
                            lemma_report_lookup_step(r0, k as int, dev0.ports@[q].id@);
                            assert(dev.ports@[q].id@ == dev0.ports@[q].id@);
                        }
                    }
                },
            }
            k += 1;
        }
        proof {
            assert(r0.take(n as int) == r0);
            assert(final(self).devices.records() =~= pre.devices.records().update(
                ridx as int,
                *final(dev),
            ));
        }
        true
    }
}

/// One step of a poll cycle, in the order the cycle runs them: for
/// every configured device, for each of its ports, first a sweep,
/// then each port-scoped collector; then each device-scoped
/// collector. Reading the named file is the caller's part; the
/// parsing and merging are this library's.
#[allow(inconsistent_fields)]
pub enum PollStep {
    Sweep { device: usize, port: usize },
    PortFile { device: usize, port: usize, file: String, format: PortDataFormat },
    DeviceFile { device: usize, file: String, format: DeviceDataFormat },
}

/// The steps of one port's collectors.
pub open spec fn port_poller_steps(d: int, p: int, pollers: Seq<PortPoller>) -> Seq<PollStep> {
    Seq::new(
        pollers.len(),
        |k: int|
            match pollers[k] {
                PortPoller::File { file, format } => PollStep::PortFile {
                    device: d as usize,
                    port: p as usize,
                    file,
                    format,
                },
            },
    )
}

/// The steps of one device's device-scoped collectors.
pub open spec fn device_poller_steps(d: int, pollers: Seq<DevicePoller>) -> Seq<PollStep> {
    Seq::new(
        pollers.len(),
        |k: int|
            match pollers[k] {
                DevicePoller::File { file, format } => PollStep::DeviceFile {
                    device: d as usize,
                    file,
                    format,
                },
            },
    )
}

/// The steps of a device's ports, in configuration order: each port
/// swept before its collectors run.
pub open spec fn plan_ports(d: int, ports: Seq<PortConfig>) -> Seq<PollStep>
    decreases ports.len(),
{
    if ports.len() == 0 {
        Seq::empty()
    } else {
        plan_ports(d, ports.drop_last()) + seq![
            PollStep::Sweep { device: d as usize, port: (ports.len() - 1) as usize },
        ] + port_poller_steps(d, ports.len() - 1, ports.last().pollers@)
    }
}

/// The whole poll cycle's steps, in configuration order.
pub open spec fn plan_devices(cfgs: Seq<DeviceConfig>) -> Seq<PollStep>
    decreases cfgs.len(),
{
    if cfgs.len() == 0 {
        Seq::empty()
    } else {
        plan_devices(cfgs.drop_last()) + plan_ports(cfgs.len() - 1, cfgs.last().ports@)
            + device_poller_steps(cfgs.len() - 1, cfgs.last().pollers@)
    }
}

impl Network {
    /// The ordered steps of one poll cycle over this configuration.
    pub fn poll_plan(&self) -> (r: Vec<PollStep>)
        ensures
            r@ == plan_devices(self.config.devices@),
    {
        let mut out: Vec<PollStep> = Vec::new();
        let nd = self.config.devices.len();
        let mut d: usize = 0;
        proof {
            assert(self.config.devices@.take(0) =~= Seq::<DeviceConfig>::empty());
        }
        while d < nd
            invariant
                nd == self.config.devices@.len(),
                0 <= d <= nd,
                out@ == plan_devices(self.config.devices@.take(d as int)),
            decreases nd - d,
        {
            let ghost base = out@;
            let cfg = &self.config.devices[d];
            let np = cfg.ports.len();
            let mut p: usize = 0;
            proof {
                assert(cfg.ports@.take(0) =~= Seq::<PortConfig>::empty());
            }
            while p < np
                invariant
                    nd == self.config.devices@.len(),
                    0 <= d < nd,
                    cfg == &self.config.devices@[d as int],
                    np == cfg.ports@.len(),
                    0 <= p <= np,
                    out@ == base + plan_ports(d as int, cfg.ports@.take(p as int)),
                decreases np - p,
            {
                let ghost mid = out@;
                out.push(PollStep::Sweep { device: d, port: p });
                let pcfg = &cfg.ports[p];
                let nk = pcfg.pollers.len();
                let mut k: usize = 0;
                while k < nk
                    invariant
                        nd == self.config.devices@.len(),
                        0 <= d < nd,
                        cfg == &self.config.devices@[d as int],
                        np == cfg.ports@.len(),
                        0 <= p < np,
                        pcfg == &cfg.ports@[p as int],
                        nk == pcfg.pollers@.len(),
                        0 <= k <= nk,
                        out@ == mid + seq![PollStep::Sweep { device: d, port: p }]
                            + port_poller_steps(d as int, p as int, pcfg.pollers@.take(k as int)),
                    decreases nk - k,
                {
                    match &pcfg.pollers[k] {
                        PortPoller::File { file, format } => {
                            out.push(
                                PollStep::PortFile {
                                    device: d,
                                    port: p,
                                    file: file.clone(),
                                    format: *format,
                                },
                            );
                        },
                    }
                    proof {
                        assert(out@ =~= mid + seq![PollStep::Sweep { device: d, port: p }]
                            + port_poller_steps(d as int, p as int, pcfg.pollers@.take(k + 1)));
                    }
                    k += 1;
                }
                proof {
                    assert(pcfg.pollers@.take(nk as int) == pcfg.pollers@);
                    assert(cfg.ports@.take(p + 1).drop_last() == cfg.ports@.take(p as int));
                    assert(cfg.ports@.take(p + 1).last() == cfg.ports@[p as int]);
                    assert(out@ =~= base + plan_ports(d as int, cfg.ports@.take(p + 1)));
                }
                p += 1;
            }
            let ghost mid2 = out@;
            let nk = cfg.pollers.len();
            let mut k: usize = 0;
            while k < nk
                invariant
                    nd == self.config.devices@.len(),
                    0 <= d < nd,
                    cfg == &self.config.devices@[d as int],
                    nk == cfg.pollers@.len(),
                    0 <= k <= nk,
                    out@ == mid2 + device_poller_steps(d as int, cfg.pollers@.take(k as int)),
                decreases nk - k,
            {
                match &cfg.pollers[k] {
                    DevicePoller::File { file, format } => {
                        out.push(
                            PollStep::DeviceFile { device: d, file: file.clone(), format: *format },
                        );
                    },
                }
                proof {
                    assert(out@ =~= mid2 + device_poller_steps(
                        d as int,
                        cfg.pollers@.take(k + 1),
                    ));
                }
                k += 1;
            }
            proof {
                assert(cfg.pollers@.take(nk as int) == cfg.pollers@);
                assert(cfg.ports@.take(np as int) == cfg.ports@);
                assert(self.config.devices@.take(d + 1).drop_last() == self.config.devices@.take(
                    d as int,
                ));
                assert(self.config.devices@.take(d + 1).last() == self.config.devices@[d as int]);
                assert(out@ =~= plan_devices(self.config.devices@.take(d + 1)));
            }
            d += 1;
        }
        proof {
            assert(self.config.devices@.take(nd as int) == self.config.devices@);
        }
        out
    }
}

/// The set a report carries for the port with the given identifier.
pub open spec fn report_lookup(report: Seq<(Vec<u8>, ExpireSet)>, id: Seq<u8>) -> Option<
    Map<u64, u64>,
> {
    if exists|k: int| 0 <= k < report.len() && (#[trigger] report[k]).0@ == id {
        Some(report[choose|k: int| 0 <= k < report.len() && (#[trigger] report[k]).0@ == id].1@)
    } else {
        None
    }
}

proof fn lemma_report_lookup_step(r0: Seq<(Vec<u8>, ExpireSet)>, k: int, id: Seq<u8>)
    requires
        0 <= k < r0.len(),
        crate::parsers::distinct_ports(r0),
    ensures
        r0[k].0@ == id ==> report_lookup(r0.take(k + 1), id) == Some(r0[k].1@),
        r0[k].0@ != id ==> report_lookup(r0.take(k + 1), id) == report_lookup(r0.take(k), id),
{
    let t1 = r0.take(k + 1);
    let t0 = r0.take(k);
    if r0[k].0@ == id {
        assert(t1[k] == r0[k]);
        assert(exists|w: int| 0 <= w < t1.len() && (#[trigger] t1[w]).0@ == id);
        let w = choose|w: int| 0 <= w < t1.len() && (#[trigger] t1[w]).0@ == id;
        assert(t1[w] == r0[w]);
        assert(w == k) by {
            if w < k {
                assert(r0[w].0@ != r0[k].0@);
            }
        }
    } else {
        if exists|w: int| 0 <= w < t1.len() && (#[trigger] t1[w]).0@ == id {
            let w = choose|w: int| 0 <= w < t1.len() && (#[trigger] t1[w]).0@ == id;
            assert(t1[w] == r0[w]);
            assert(w < k);
            assert(t0[w] == r0[w]);
            assert(exists|w2: int| 0 <= w2 < t0.len() && (#[trigger] t0[w2]).0@ == id);
            let w0 = choose|w2: int| 0 <= w2 < t0.len() && (#[trigger] t0[w2]).0@ == id;
            let w1 = choose|w2: int| 0 <= w2 < t1.len() && (#[trigger] t1[w2]).0@ == id;
            assert(t0[w0] == r0[w0]);
            assert(t1[w1] == r0[w1]);
            assert(w0 == w1) by {
                if w0 < w1 {
                    assert(r0[w0].0@ != r0[w1].0@);
                } else if w1 < w0 {
                    assert(r0[w1].0@ != r0[w0].0@);
                }
            }
        } else {
            if exists|w2: int| 0 <= w2 < t0.len() && (#[trigger] t0[w2]).0@ == id {
                let w = choose|w2: int| 0 <= w2 < t0.len() && (#[trigger] t0[w2]).0@ == id;
                assert(t1[w].0@ == id);
            }
        }
    }
}

/// One record absorbed a device-scoped report: each of its ports
/// named by the report merged that set, every other port and record
/// is untouched.
pub open spec fn device_report_merged(
    pre: Network,
    post: Network,
    ridx: int,
    report: Seq<(Vec<u8>, ExpireSet)>,
) -> bool {
    &&& post.config == pre.config
    &&& post.devices.key_map() == pre.devices.key_map()
    &&& post.devices.records().len() == pre.devices.records().len()
    &&& 0 <= ridx < pre.devices.records().len()
    &&& forall|k: int|
        0 <= k < pre.devices.records().len() && k != ridx ==> (
        #[trigger] post.devices.records()[k]) == pre.devices.records()[k]
    &&& post.devices.records()[ridx].id == pre.devices.records()[ridx].id
    &&& post.devices.records()[ridx].name == pre.devices.records()[ridx].name
    &&& post.devices.records()[ridx].mac == pre.devices.records()[ridx].mac
    &&& post.devices.records()[ridx].ports@.len() == pre.devices.records()[ridx].ports@.len()
    &&& forall|q: int|
        0 <= q < pre.devices.records()[ridx].ports@.len() ==> (
        #[trigger] post.devices.records()[ridx].ports@[q]).id == pre.devices.records()[ridx].ports@[q].id
            && post.devices.records()[ridx].ports@[q].name
            == pre.devices.records()[ridx].ports@[q].name
            && post.devices.records()[ridx].ports@[q].visible@ == (match report_lookup(
            report,
            pre.devices.records()[ridx].ports@[q].id@,
        ) {
            Some(m) => merged_maps(pre.devices.records()[ridx].ports@[q].visible@, m),
            None => pre.devices.records()[ridx].ports@[q].visible@,
        })
}

} // verus!
