//! The `--backend` spec grammar the transport binaries share.
//!
//! One flag string selects the whole target model of a flag-built port
//! ([`subsystems`]): `memory`, `null` and a file/bdev path each give one
//! subsystem — the `--subsys-nqn` one — with a single namespace, and so does a
//! `sheepdog:` spec naming one VDI. A `sheepdog:` spec naming no VDI maps the
//! **whole cluster**: one subsystem per ACL object, named by the ACL, and one
//! namespace per VDI in it, each under the cluster's shared VDI lock unless
//! the spec ends in `?nolock`, and each admitting only the hostnqns the ACL
//! lists as members.

use vstd::prelude::*;
use vstd::slice::slice_subrange;

use crate::addr::SocketAddr;
use crate::bytes;
use crate::config;
use crate::config::{
    default_model, default_serial, BackendConfig, NamespaceConfig, SheepdogAcl, SubsystemConfig,
};
use crate::sheepdog::inode;
use crate::sheepdog::inode::{AclInfo, VdiInfo};
use crate::sheepdog::list;
use crate::subsystem;
use crate::text;
use crate::text::{
    chars_of, concat, find_text, hexadecimal_of, numbered, owned, pad_zeroes,
    push_chars, same_chars, split_once, starts_with, string_of,
};
use crate::uuid;
use crate::uuid::namespace_uuid;

verus! {

/// A parsed `sheepdog:` spec: one named VDI, or a whole cluster.
#[derive(Debug)]
pub enum Sheepdog {
    /// `sheepdog:HOST[:PORT]/VDI[@TAG][%ACL]` — a single namespace.
    Vdi(BackendConfig),
    /// `sheepdog:HOST[:PORT]` — every ACL on the cluster at this address and
    /// the VDIs in it.
    Cluster {
        /// The gateway.
        addr: String,
        /// Each VDI locked (shared), unless `?nolock` said otherwise.
        lock: bool,
    },
}

/// A `sheepdog:` spec, as what it names.
pub enum Named {
    /// One VDI.
    Vdi(config::Store),
    /// A cluster.
    Cluster {
        /// Gateway.
        addr: Seq<char>,
        /// Lock.
        lock: bool,
    },
}

impl View for Sheepdog {
    type V = Named;

    open spec fn view(&self) -> Named {
        match *self {
            Sheepdog::Vdi(b) => Named::Vdi(b@),
            Sheepdog::Cluster { addr, lock } => Named::Cluster { addr: addr@, lock },
        }
    }
}

/// How often `c` occurs in `s`.
pub open spec fn count(s: Seq<char>, c: char) -> nat
    decreases s.len(),
{
    if s.len() == 0 {
        0
    } else {
        count(s.drop_last(), c) + if s.last() == c {
            1nat
        } else {
            0
        }
    }
}

/// Whether `p` occurs in `s`.
pub open spec fn holds(s: Seq<char>, p: Seq<char>) -> bool {
    exists|i: int| #[trigger] text::occurs_at(s, p, i)
}

/// A host with the `sheep` client port where it carries none, or why not.
/// Bracketed IPv6 has a port iff `]:` follows the literal; anything else with
/// more than one colon is IPv6 out of brackets.
pub open spec fn with_port(host: Seq<char>) -> Result<Seq<char>, Seq<char>> {
    if host.len() > 0 && host[0] == '[' {
        if holds(host.drop_first(), "]:"@) {
            Ok(host)
        } else {
            Ok(host + ":7000"@)
        }
    } else if count(host, ':') == 0 {
        Ok(host + ":7000"@)
    } else if count(host, ':') == 1 {
        Ok(host)
    } else {
        Err("IPv6 sheepdog host must be bracketed, e.g. sheepdog:[::1]:7000/vdi"@)
    }
}

fn count_of(s: &[char], c: char) -> (r: usize)
    ensures
        r == count(s@, c),
{
    let n: usize = s.len();
    let mut r: usize = 0;
    assert(s@.take(0) =~= seq![]);
    for i in 0..n
        invariant
            n == s@.len(),
            r <= i,
            r == count(s@.take(i as int), c),
    {
        assert(s@.take(i as int + 1).drop_last() =~= s@.take(i as int));
        if s[i] == c {
            r = r + 1;
        }
    }
    assert(s@.take(n as int) =~= s@);
    r
}

/// Append the default `sheep` port to a host that carries none.
fn with_default_port(host: &[char]) -> (r: Result<String, String>)
    ensures
        match (r, with_port(host@)) {
            (Ok(a), Ok(b)) => a@ == b,
            (Err(a), Err(b)) => a@ == b,
            _ => false,
        },
{
    let n: usize = host.len();
    let has_port = if n > 0 && host[0] == '[' {
        let rest = slice_subrange(host, 1, n);
        assert(rest@ =~= host@.drop_first());
        let close = chars_of("]:");
        match find_text(rest, close.as_slice()) {
            Some(_) => true,
            None => false,
        }
    } else {
        let colons: usize = count_of(host, ':');
        if colons > 1 {
            return Err(
                owned("IPv6 sheepdog host must be bracketed, e.g. sheepdog:[::1]:7000/vdi"),
            );
        }
        colons == 1
    };
    let mut s: String = string_of(host);
    if !has_port {
        push_chars(&mut s, chars_of(":7000").as_slice());
    }
    Ok(s)
}

/// What a `sheepdog:` spec names, or why it is refused.
///
/// `sheepdog:HOST[:PORT][/VDI[@TAG][%ACL]][?nolock]`. The port defaults to the
/// `sheep` client port; `@TAG` selects a (read-only) snapshot, an empty one the
/// head; `%ACL` names the ACL object the VDI belongs to; an omitted or empty
/// `/VDI` means the whole cluster; `?nolock` gives up the VDI lock. The ACL is
/// stripped before the tag: a tag may not contain '%', but an ACL name is an
/// NQN and freely contains '@'.
pub open spec fn named(spec: Seq<char>) -> Result<Named, Seq<char>> {
    let body = spec.skip("sheepdog:"@.len() as int);
    match text::cut(body, '?') {
        Some((rest, option)) => if option == "nolock"@ {
            named_at(rest, false)
        } else {
            Err("unknown sheepdog option '?"@ + option + "' (only '?nolock')"@)
        },
        None => named_at(body, true),
    }
}

/// What `HOST[:PORT][/VDI[@TAG][%ACL]]` names.
pub open spec fn named_at(rest: Seq<char>, lock: bool) -> Result<Named, Seq<char>> {
    let (host, vdi) = match text::cut(rest, '/') {
        Some(p) => p,
        None => (rest, seq![]),
    };
    if host.len() == 0 {
        Err("sheepdog backend needs a host: sheepdog:HOST[:PORT][/VDI[@TAG][%ACL]]"@)
    } else {
        match with_port(host) {
            Err(e) => Err(e),
            Ok(addr) => if vdi.len() == 0 {
                Ok(Named::Cluster { addr, lock })
            } else {
                match text::cut(vdi, '%') {
                    Some((v, acl)) => if acl.len() == 0 {
                        Err("sheepdog backend needs a non-empty ACL name after '%'"@)
                    } else {
                        vdi_named(addr, v, Some(acl), lock)
                    },
                    None => vdi_named(addr, vdi, None, lock),
                }
            },
        }
    }
}

/// What `VDI[@TAG]` names.
pub open spec fn vdi_named(
    addr: Seq<char>,
    part: Seq<char>,
    acl: Option<Seq<char>>,
    lock: bool,
) -> Result<Named, Seq<char>> {
    let (vdi, tag) = match text::cut(part, '@') {
        Some((v, t)) => (
            v,
            if t.len() == 0 {
                None
            } else {
                Some(t)
            },
        ),
        None => (part, None),
    };
    if vdi.len() == 0 {
        Err("sheepdog backend needs a non-empty VDI name before '@'"@)
    } else {
        Ok(Named::Vdi(config::Store::Sheepdog { addr, vdi, tag, acl, lock }))
    }
}

fn parse_vdi(addr: String, part: &[char], acl: Option<String>, lock: bool) -> (r: Result<
    Sheepdog,
    String,
>)
    ensures
        match (r, vdi_named(addr@, part@, config::opt(acl), lock)) {
            (Ok(a), Ok(b)) => a@ == b,
            (Err(a), Err(b)) => a@ == b,
            _ => false,
        },
{
    let (vdi, tag) = match split_once(part, '@') {
        Some((v, t)) => {
            let tag = if t.len() == 0 {
                None
            } else {
                Some(string_of(t))
            };
            (v, tag)
        },
        None => (part, None),
    };
    if vdi.len() == 0 {
        return Err(owned("sheepdog backend needs a non-empty VDI name before '@'"));
    }
    let vdi = string_of(vdi);
    Ok(Sheepdog::Vdi(BackendConfig::Sheepdog { addr, vdi, tag, acl, lock }))
}

fn parse_at(rest: &[char], lock: bool) -> (r: Result<Sheepdog, String>)
    ensures
        match (r, named_at(rest@, lock)) {
            (Ok(a), Ok(b)) => a@ == b,
            (Err(a), Err(b)) => a@ == b,
            _ => false,
        },
{
    let (host, vdi) = match split_once(rest, '/') {
        Some(p) => p,
        None => {
            let none = slice_subrange(rest, 0, 0);
            assert(none@ =~= seq![]);
            (rest, none)
        },
    };
    if host.len() == 0 {
        return Err(
            owned("sheepdog backend needs a host: sheepdog:HOST[:PORT][/VDI[@TAG][%ACL]]"),
        );
    }
    let addr = match with_default_port(host) {
        Ok(a) => a,
        Err(e) => {
            return Err(e);
        },
    };
    if vdi.len() == 0 {
        return Ok(Sheepdog::Cluster { addr, lock });
    }
    match split_once(vdi, '%') {
        Some((v, acl)) => if acl.len() == 0 {
            Err(owned("sheepdog backend needs a non-empty ACL name after '%'"))
        } else {
            parse_vdi(addr, v, Some(string_of(acl)), lock)
        },
        None => parse_vdi(addr, vdi, None, lock),
    }
}

/// Parse a spec that begins with `sheepdog:`.
pub fn parse_sheepdog(spec: &str) -> (r: Result<Sheepdog, String>)
    requires
        text::has_prefix(spec@, "sheepdog:"@),
    ensures
        match (r, named(spec@)) {
            (Ok(a), Ok(b)) => a@ == b,
            (Err(a), Err(b)) => a@ == b,
            _ => false,
        },
{
    let all = chars_of(spec);
    let prefix = chars_of("sheepdog:");
    let body = slice_subrange(all.as_slice(), prefix.len(), all.len());
    assert(body@ =~= spec@.skip("sheepdog:"@.len() as int));
    match split_once(body, '?') {
        Some((rest, option)) => {
            let nolock = chars_of("nolock");
            if same_chars(option, nolock.as_slice()) {
                parse_at(rest, false)
            } else {
                let mut s = owned("unknown sheepdog option '?");
                push_chars(&mut s, option);
                push_chars(&mut s, chars_of("' (only '?nolock')").as_slice());
                Err(s)
            }
        },
        None => parse_at(body, true),
    }
}

/// What a `--backend` spec comes to.
#[derive(Debug)]
pub enum Plan {
    /// These subsystems.
    Built(Vec<SubsystemConfig>),
    /// The subsystems the ACLs of this cluster make ([`cluster_subsystems`]).
    Cluster {
        /// The gateway.
        addr: String,
        /// VDIs are locked.
        lock: bool,
    },
}

/// What a spec comes to.
pub enum Planned {
    /// These subsystems.
    Built(Seq<config::Sub>),
    /// A cluster's.
    Cluster {
        /// Gateway.
        addr: Seq<char>,
        /// Lock.
        lock: bool,
    },
}

impl View for Plan {
    type V = Planned;

    open spec fn view(&self) -> Planned {
        match *self {
            Plan::Built(v) => Planned::Built(config::subs(v@)),
            Plan::Cluster { addr, lock } => Planned::Cluster { addr: addr@, lock },
        }
    }
}

/// The subsystem `nqn` with one namespace, with nsid 1, on `store`.
pub open spec fn single(nqn: Seq<char>, store: config::Store) -> config::Sub {
    config::Sub {
        nqn,
        serial: "IOUTGT0001"@,
        model: "ioutgt"@,
        allow_any_host: true,
        allowed_hosts: seq![],
        sheepdog_acl: None,
        mnan: None,
        namespaces: seq![config::Ns { nsid: 1, backend: store, uuid: None }],
    }
}

/// What a `--backend` spec comes to, or why it is refused.
pub open spec fn planned(spec: Seq<char>, mem_size_mb: u64, nqn: Seq<char>) -> Result<
    Planned,
    Seq<char>,
> {
    if spec == "memory"@ {
        Ok(Planned::Built(seq![single(nqn, config::Store::Memory { size_mb: mem_size_mb })]))
    } else if spec == "null"@ {
        Ok(Planned::Built(seq![single(nqn, config::Store::Null { size_mb: mem_size_mb })]))
    } else if text::has_prefix(spec, "sheepdog:"@) {
        match named(spec) {
            Err(e) => Err(e),
            Ok(Named::Vdi(store)) => Ok(Planned::Built(seq![single(nqn, store)])),
            Ok(Named::Cluster { addr, lock }) => Ok(Planned::Cluster { addr, lock }),
        }
    } else {
        Ok(Planned::Built(seq![single(nqn, config::Store::File { path: spec })]))
    }
}

/// Resolve a `--backend` spec into the port's subsystem list.
///
/// `memory`/`null` (sized by `mem_size_mb`), `sheepdog:…` (see
/// [`parse_sheepdog`]) and otherwise a file or block-device path. Every form
/// but a cluster-wide `sheepdog:` yields exactly one subsystem, called `nqn`,
/// holding one namespace with nsid 1. A cluster spec ignores `nqn`, since the
/// cluster's own ACL objects name the subsystems it builds.
pub fn subsystems(spec: &str, mem_size_mb: u64, nqn: &str) -> (r: Result<Plan, String>)
    ensures
        match (r, planned(spec@, mem_size_mb, nqn@)) {
            (Ok(a), Ok(b)) => a@ == b,
            (Err(a), Err(b)) => a@ == b,
            _ => false,
        },
{
    let all = chars_of(spec);
    let memory = chars_of("memory");
    let null = chars_of("null");
    let prefix = chars_of("sheepdog:");
    let backend = if same_chars(all.as_slice(), memory.as_slice()) {
        BackendConfig::Memory { size_mb: mem_size_mb }
    } else if same_chars(all.as_slice(), null.as_slice()) {
        BackendConfig::Null { size_mb: mem_size_mb }
    } else if starts_with(all.as_slice(), prefix.as_slice()) {
        match parse_sheepdog(spec) {
            Err(e) => {
                return Err(e);
            },
            Ok(Sheepdog::Vdi(b)) => b,
            Ok(Sheepdog::Cluster { addr, lock }) => {
                return Ok(Plan::Cluster { addr, lock });
            },
        }
    } else {
        BackendConfig::File { path: owned(spec) }
    };
    let ghost store = backend@;
    let mut namespaces: Vec<NamespaceConfig> = Vec::new();
    let ns = NamespaceConfig { nsid: 1, backend, uuid: None };
    let ghost said = ns@;
    namespaces.push(ns);
    assert(config::namespaces(namespaces@) =~= seq![said]);
    let hosts: Vec<String> = Vec::new();
    assert(text::texts(hosts@) =~= seq![]);
    let sub = SubsystemConfig {
        nqn: owned(nqn),
        serial: default_serial(),
        model: default_model(),
        allow_any_host: true,
        allowed_hosts: hosts,
        // Not a cluster ACL's subsystem, even for a single VDI addressed
        // through one: nothing re-reads its host list.
        sheepdog_acl: None,
        mnan: None,
        namespaces,
    };
    let ghost one = sub@;
    let mut v: Vec<SubsystemConfig> = Vec::new();
    v.push(sub);
    assert(config::subs(v@) =~= seq![one]);
    assert(one == single(nqn@, store));
    Ok(Plan::Built(v))
}

// ---------------------------------------------------------------------------
// Clusters
// ---------------------------------------------------------------------------

/// The identity a VDI is exported under: the cluster's own, and — for an inode
/// written by a `sheep` predating the field — one derived from the VDI's name
/// and vid, which are equally cluster-wide.
pub open spec fn vdi_uuid(v: inode::Vdi) -> Seq<u8> {
    match v.uuid {
        Some(u) => u,
        None => uuid::derived(vstd::utf8::encode_utf8("sheepdog:"@ + v.name), v.vid),
    }
}

/// The namespace a member VDI makes: its vid is its nsid.
pub open spec fn vdi_namespace(
    addr: Seq<char>,
    acl: Seq<char>,
    lock: bool,
    v: inode::Vdi,
) -> config::Ns {
    config::Ns {
        nsid: v.vid,
        backend: config::Store::Sheepdog {
            addr,
            vdi: v.name,
            tag: None,
            acl: Some(acl),
            lock,
        },
        uuid: Some(vdi_uuid(v)),
    }
}

/// The namespaces of the first `k` members: snapshots are skipped — they are
/// frozen and would only ever be servable read-only.
pub open spec fn vdi_namespaces(
    addr: Seq<char>,
    acl: Seq<char>,
    lock: bool,
    vdis: Seq<inode::Vdi>,
    k: nat,
) -> Seq<config::Ns>
    decreases k,
{
    if k == 0 {
        seq![]
    } else {
        let rest = vdi_namespaces(addr, acl, lock, vdis, (k - 1) as nat);
        if vdis[k - 1].snapshot {
            rest
        } else {
            rest.push(vdi_namespace(addr, acl, lock, vdis[k - 1]))
        }
    }
}

/// The subsystem an ACL object makes: its name as the NQN, its writable VDIs
/// as namespaces, its member names as the hostnqns allowed to connect, its vid
/// as the serial number and its slot count as the number of namespaces allowed.
pub open spec fn acl_sub(
    addr: Seq<char>,
    cluster: SocketAddr,
    lock: bool,
    a: inode::Acl,
) -> config::Sub {
    config::Sub {
        nqn: a.name,
        serial: "SHEEPDOG"@ + text::zero_padded(text::hexadecimal(a.vid as nat), 6),
        model: "ioutgt"@,
        allow_any_host: a.hosts.len() == 0,
        allowed_hosts: a.hosts,
        sheepdog_acl: Some(SheepdogAcl { cluster, vid: a.vid, epoch: a.epoch, lock }),
        mnan: Some(a.max_data_id_nr),
        namespaces: vdi_namespaces(addr, a.name, lock, a.vdis, a.vdis.len()),
    }
}

/// The namespace a member VDI makes.
pub fn export_vdi(addr: &str, acl: &str, lock: bool, vdi: &VdiInfo) -> (r: NamespaceConfig)
    ensures
        r@ == vdi_namespace(addr@, acl@, lock, vdi@),
{
    let uuid = match vdi.uuid {
        Some(u) => u,
        None => {
            let name = concat("sheepdog:", vdi.name.as_str());
            namespace_uuid(name.as_str(), vdi.vid)
        },
    };
    NamespaceConfig {
        nsid: vdi.vid,
        backend: BackendConfig::Sheepdog {
            addr: owned(addr),
            vdi: owned(vdi.name.as_str()),
            tag: None,
            acl: Some(owned(acl)),
            lock,
        },
        uuid: Some(uuid),
    }
}

/// One ACL object as a subsystem.
///
/// The cluster's ACL is the access-control scope on both sides, so the host
/// list is the cluster's too: the names in the ACL inode become the
/// subsystem's `allowed_hosts`, and nothing else may connect. An ACL with no
/// members is an ACL that expresses no opinion about hosts, not one that
/// refuses them all: its subsystem takes `allow_any_host`.
///
/// The ACL's vid is its cluster-wide identity and outlives any target, so
/// every target fronting this cluster reports one serial per volume group — as
/// two paths to one subsystem must.
pub fn acl_subsystem(addr: &str, cluster: SocketAddr, acl: &AclInfo, lock: bool) -> (r:
    SubsystemConfig)
    ensures
        r@ == acl_sub(addr@, cluster, lock, acl@),
{
    let mut namespaces: Vec<NamespaceConfig> = Vec::new();
    let n: usize = acl.vdis.len();
    let ghost vdis = inode::vdis(acl.vdis@);
    assert(config::namespaces(namespaces@) =~= seq![]);
    for i in 0..n
        invariant
            n == acl.vdis@.len(),
            vdis == inode::vdis(acl.vdis@),
            config::namespaces(namespaces@) == vdi_namespaces(
                addr@,
                acl.name@,
                lock,
                vdis,
                i as nat,
            ),
    {
        assert(acl.vdis@[i as int]@ == vdis[i as int]);
        if !acl.vdis[i].snapshot {
            let ns = export_vdi(addr, acl.name.as_str(), lock, &acl.vdis[i]);
            let ghost before = config::namespaces(namespaces@);
            namespaces.push(ns);
            assert(config::namespaces(namespaces@) =~= before.push(ns@));
        }
    }
    let hosts = acl.host_acl();
    let digits = hexadecimal_of(acl.vid as u64);
    let padded = pad_zeroes(digits.as_slice(), 6);
    let mut serial = owned("SHEEPDOG");
    push_chars(&mut serial, padded.as_slice());
    SubsystemConfig {
        nqn: owned(acl.name.as_str()),
        serial,
        model: default_model(),
        allow_any_host: hosts.allow_any_host,
        allowed_hosts: hosts.hosts,
        sheepdog_acl: Some(SheepdogAcl { cluster, vid: acl.vid, epoch: acl.epoch, lock }),
        mnan: Some(acl.max_data_id_nr),
        namespaces,
    }
}

/// The subsystems the ACL objects make, in order.
pub open spec fn acl_subs(
    addr: Seq<char>,
    cluster: SocketAddr,
    lock: bool,
    acls: Seq<inode::Acl>,
) -> Seq<config::Sub> {
    Seq::new(acls.len(), |i: int| acl_sub(addr, cluster, lock, acls[i]))
}

/// Whether any of `s` has a namespace.
pub open spec fn exports(s: Seq<config::Sub>) -> bool {
    exists|i: int| 0 <= i < s.len() && (#[trigger] s[i]).namespaces.len() > 0
}

/// What an ACL-less cluster is answered.
pub open spec fn no_acls(addr: Seq<char>) -> Seq<char> {
    "sheepdog "@ + addr
        + ": the cluster has no ACL objects, so there is nothing to name a subsystem after — create one with `dog acl create <nqn>` and add VDIs to it with `dog acl add <nqn> <vdi>`, or name a single VDI (sheepdog:HOST/VDI%ACL)"@
}

/// What a cluster with nothing to export is answered.
pub open spec fn no_volumes(addr: Seq<char>, acls: nat) -> Seq<char> {
    "sheepdog "@ + addr + (": none of the "@ + text::decimal(acls)
        + " ACL object(s) holds a writable VDI"@)
}

/// One subsystem per ACL object on the cluster at `addr`, holding one namespace
/// per writable VDI in that ACL.
///
/// Each namespace keeps the VDI's own id as its nsid. A vid *is* the VDI's
/// position in the cluster's VDI bitmap, fixed for the life of the volume — so
/// the namespace map is a stable function of the cluster: creating or deleting
/// a VDI never renumbers the others, and two targets fronting the same cluster
/// hand a host the same nsid for the same volume.
pub fn cluster_subsystems(
    addr: &str,
    cluster: SocketAddr,
    acls: &Vec<AclInfo>,
    lock: bool,
) -> (r: Result<Vec<SubsystemConfig>, String>)
    ensures
        ({
            let all = acl_subs(addr@, cluster, lock, list::acls(acls@));
            match r {
                Ok(v) => acls@.len() > 0 && exports(all) && config::subs(v@) == all,
                Err(e) => if acls@.len() == 0 {
                    e@ == no_acls(addr@)
                } else {
                    !exports(all) && e@ == no_volumes(addr@, acls@.len())
                },
            }
        }),
{
    let n: usize = acls.len();
    if n == 0 {
        let mut s = concat("sheepdog ", addr);
        push_chars(
            &mut s,
            chars_of(
                ": the cluster has no ACL objects, so there is nothing to name a subsystem after — create one with `dog acl create <nqn>` and add VDIs to it with `dog acl add <nqn> <vdi>`, or name a single VDI (sheepdog:HOST/VDI%ACL)",
            ).as_slice(),
        );
        return Err(s);
    }
    let ghost all = acl_subs(addr@, cluster, lock, list::acls(acls@));
    let mut v: Vec<SubsystemConfig> = Vec::new();
    let mut any: bool = false;
    for i in 0..n
        invariant
            n == acls@.len(),
            all == acl_subs(addr@, cluster, lock, list::acls(acls@)),
            v@.len() == i,
            forall|j: int| 0 <= j < i ==> (#[trigger] v@[j])@ == all[j],
            any == (exists|j: int| 0 <= j < i && (#[trigger] all[j]).namespaces.len() > 0),
    {
        let s = acl_subsystem(addr, cluster, &acls[i], lock);
        assert(s@ == all[i as int]);
        if s.namespaces.len() > 0 {
            assert(all[i as int].namespaces.len() > 0);
            any = true;
        }
        v.push(s);
    }
    assert(config::subs(v@) =~= all);
    if !any {
        let tail = numbered(": none of the ", n as u64, " ACL object(s) holds a writable VDI");
        let mut s = concat("sheepdog ", addr);
        push_chars(&mut s, chars_of(tail.as_str()).as_slice());
        return Err(s);
    }
    Ok(v)
}

/// A namespace's number and identity are its volume's alone: whichever target
/// and whichever spelling of the cluster's address exports it.
pub proof fn lemma_volume_keeps_identity(
    addr: Seq<char>,
    other: Seq<char>,
    acl: Seq<char>,
    lock: bool,
    nolock: bool,
    v: inode::Vdi,
)
    ensures
        vdi_namespace(addr, acl, lock, v).nsid == vdi_namespace(other, acl, nolock, v).nsid,
        vdi_namespace(addr, acl, lock, v).uuid == vdi_namespace(other, acl, nolock, v).uuid,
{
}

/// No snapshot is exported, and every other member is.
pub proof fn lemma_exported_heads(
    addr: Seq<char>,
    acl: Seq<char>,
    lock: bool,
    vdis: Seq<inode::Vdi>,
    k: nat,
)
    requires
        k <= vdis.len(),
    ensures
        forall|i: int|
            0 <= i < k && !(#[trigger] vdis[i]).snapshot ==> vdi_namespaces(
                addr,
                acl,
                lock,
                vdis,
                k,
            ).contains(vdi_namespace(addr, acl, lock, vdis[i])),
        forall|n: config::Ns| #[trigger]
            vdi_namespaces(addr, acl, lock, vdis, k).contains(n) ==> exists|i: int|
                0 <= i < k && !(#[trigger] vdis[i]).snapshot && n == vdi_namespace(
                    addr,
                    acl,
                    lock,
                    vdis[i],
                ),
    decreases k,
{
    if k > 0 {
        let m = (k - 1) as nat;
        lemma_exported_heads(addr, acl, lock, vdis, m);
        let rest = vdi_namespaces(addr, acl, lock, vdis, m);
        let all = vdi_namespaces(addr, acl, lock, vdis, k);
        assert forall|i: int| 0 <= i < k && !(#[trigger] vdis[i]).snapshot implies all.contains(
            vdi_namespace(addr, acl, lock, vdis[i]),
        ) by {
            let n = vdi_namespace(addr, acl, lock, vdis[i]);
            if i == m {
                assert(all[rest.len() as int] == n);
            } else {
                assert(rest.contains(n));
                let j = choose|j: int| 0 <= j < rest.len() && rest[j] == n;
                assert(all[j] == n);
            }
        }
        assert forall|n: config::Ns| #[trigger] all.contains(n) implies exists|i: int|
            0 <= i < k && !(#[trigger] vdis[i]).snapshot && n == vdi_namespace(
                addr,
                acl,
                lock,
                vdis[i],
            ) by {
            let j = choose|j: int| 0 <= j < all.len() && all[j] == n;
            if j < rest.len() {
                assert(rest[j] == n);
                assert(rest.contains(n));
            } else {
                assert(!vdis[m as int].snapshot);
            }
        }
    }
}

// ---------------------------------------------------------------------------
// What specs make
// ---------------------------------------------------------------------------

/// Whether a subsystem lets the host with this name in.
pub open spec fn lets_in(s: config::Sub, hostnqn: Seq<char>) -> bool {
    subsystem::admitted(
        subsystem::Admission { any: s.allow_any_host, hosts: s.allowed_hosts },
        hostnqn,
    )
}

/// A spec that leaves no cluster's ACLs to be asked makes one subsystem, with the
/// name that was given, which lets in every host there is and whose one
/// namespace, number 1, is on what the spec names.
pub proof fn lemma_single_subsystem(
    spec: Seq<char>,
    mem_size_mb: u64,
    nqn: Seq<char>,
    hostnqn: Seq<char>,
)
    ensures
        planned(spec, mem_size_mb, nqn) matches Ok(Planned::Built(v)) ==> {
            &&& v.len() == 1
            &&& v[0].nqn == nqn
            &&& lets_in(v[0], hostnqn)
            &&& v[0].sheepdog_acl is None
            &&& v[0].namespaces.len() == 1
            &&& v[0].namespaces[0].nsid == 1
            &&& v[0].namespaces[0].uuid is None
            &&& match v[0].namespaces[0].backend {
                config::Store::Memory { size_mb } => spec == "memory"@ && size_mb == mem_size_mb,
                config::Store::Null { size_mb } => spec == "null"@ && size_mb == mem_size_mb,
                config::Store::File { path } => path == spec && !text::has_prefix(
                    spec,
                    "sheepdog:"@,
                ),
                config::Store::Sheepdog { .. } => text::has_prefix(spec, "sheepdog:"@),
            }
        },
        !text::has_prefix(spec, "sheepdog:"@) ==> planned(spec, mem_size_mb, nqn) matches Ok(
            Planned::Built(_),
        ),
{
    reveal_strlit("memory");
    reveal_strlit("null");
    reveal_strlit("sheepdog:");
    if text::has_prefix(spec, "sheepdog:"@) {
        assert(spec.take(9)[0] == 's');
    }
}

/// `host` as it stands in a spec.
pub open spec fn at_host(host: Seq<char>) -> bool {
    host.len() > 0 && text::free_of(host, '?') && text::free_of(host, '/')
}

/// How a VDI is written in a spec: `VDI[@TAG][%ACL]`.
pub open spec fn vdi_text(
    vdi: Seq<char>,
    tag: Option<Seq<char>>,
    acl: Option<Seq<char>>,
) -> Seq<char> {
    let v = match tag {
        Some(t) => vdi + seq!['@'] + t,
        None => vdi,
    };
    match acl {
        Some(a) => v + seq!['%'] + a,
        None => v,
    }
}

/// `?nolock`, where the lock is given up.
pub open spec fn lock_text(lock: bool) -> Seq<char> {
    if lock {
        seq![]
    } else {
        seq!['?'] + "nolock"@
    }
}

/// Every part of a spec that names a VDI is read where it was written: the
/// gateway, with the `sheep` port where it has none, the VDI, the tag of a
/// snapshot, the ACL, and whether the VDI is locked.
pub proof fn lemma_vdi_spec(
    host: Seq<char>,
    vdi: Seq<char>,
    tag: Option<Seq<char>>,
    acl: Option<Seq<char>>,
    lock: bool,
    mem_size_mb: u64,
    nqn: Seq<char>,
)
    requires
        at_host(host),
        host[0] != '[',
        text::free_of(host, ':'),
        vdi.len() > 0,
        text::free_of(vdi, '?') && text::free_of(vdi, '%') && text::free_of(vdi, '@'),
        tag matches Some(t) ==> t.len() > 0 && text::free_of(t, '?') && text::free_of(t, '%'),
        acl matches Some(a) ==> a.len() > 0 && text::free_of(a, '?'),
    ensures
        ({
            let spec = |h: Seq<char>|
                "sheepdog:"@ + (h + seq!['/'] + vdi_text(vdi, tag, acl) + lock_text(lock));
            let addr = host + ":7000"@;
            let store = config::Store::Sheepdog { addr, vdi, tag, acl, lock };
            &&& named(spec(host)) == Ok::<Named, Seq<char>>(Named::Vdi(store))
            &&& named(spec(addr)) == Ok::<Named, Seq<char>>(Named::Vdi(store))
            &&& planned(spec(host), mem_size_mb, nqn) matches Ok(Planned::Built(v))
                && v[0].namespaces[0].backend == store
        }),
{
    let addr = host + ":7000"@;
    let store = config::Store::Sheepdog { addr, vdi, tag, acl, lock };
    reveal_strlit(":7000");
    lemma_ported(host);
    lemma_vdi_at(host, addr, vdi, tag, acl, lock);
    lemma_vdi_at(addr, addr, vdi, tag, acl, lock);
    let spec = "sheepdog:"@ + (host + seq!['/'] + vdi_text(vdi, tag, acl) + lock_text(lock));
    reveal_strlit("sheepdog:");
    reveal_strlit("memory");
    reveal_strlit("null");
    assert(spec.take(9) =~= "sheepdog:"@);
    assert(spec.len() > 9);
}

/// A host alone names its whole cluster.
pub proof fn lemma_cluster_spec(host: Seq<char>, lock: bool, mem_size_mb: u64, nqn: Seq<char>)
    requires
        at_host(host),
        host[0] != '[',
        text::free_of(host, ':'),
    ensures
        ({
            let addr = host + ":7000"@;
            let spec = |h: Seq<char>| "sheepdog:"@ + (h + lock_text(lock));
            &&& planned(spec(host), mem_size_mb, nqn) == Ok::<Planned, Seq<char>>(
                Planned::Cluster { addr, lock },
            )
            &&& planned(spec(addr), mem_size_mb, nqn) == Ok::<Planned, Seq<char>>(
                Planned::Cluster { addr, lock },
            )
        }),
{
    let addr = host + ":7000"@;
    reveal_strlit(":7000");
    lemma_ported(host);
    lemma_cluster_at(host, lock);
    lemma_cluster_at(addr, lock);
    reveal_strlit("sheepdog:");
    reveal_strlit("memory");
    reveal_strlit("null");
    let a = "sheepdog:"@ + (host + lock_text(lock));
    let b = "sheepdog:"@ + (addr + lock_text(lock));
    assert(a.take(9) =~= "sheepdog:"@);
    assert(b.take(9) =~= "sheepdog:"@);
    assert(a.len() >= 9 && b.len() >= 9);
}

proof fn lemma_count_free(s: Seq<char>, c: char)
    requires
        text::free_of(s, c),
    ensures
        count(s, c) == 0,
    decreases s.len(),
{
    if s.len() > 0 {
        assert(s[s.len() - 1] != c);
        let t = s.drop_last();
        assert forall|i: int| 0 <= i < t.len() implies #[trigger] t[i] != c by {
            assert(t[i] == s[i]);
        }
        lemma_count_free(t, c);
    }
}

/// A host without a port gets the `sheep` one, and one with it keeps it.
proof fn lemma_ported(host: Seq<char>)
    requires
        at_host(host),
        host[0] != '[',
        text::free_of(host, ':'),
    ensures
        with_port(host) == Ok::<Seq<char>, Seq<char>>(host + ":7000"@),
        with_port(host + ":7000"@) == Ok::<Seq<char>, Seq<char>>(host + ":7000"@),
        at_host(host + ":7000"@),
{
    reveal_strlit(":7000");
    let p = ":7000"@;
    let s = host + p;
    lemma_count_free(host, ':');
    assert(s.take(host.len() as int) =~= host);
    let s1 = s.drop_last();
    let s2 = s1.drop_last();
    let s3 = s2.drop_last();
    let s4 = s3.drop_last();
    let s5 = s4.drop_last();
    assert(s5 =~= host);
    assert(s4.last() == ':' && s3.last() == '7' && s2.last() == '0' && s1.last() == '0' && s.last()
        == '0');
    assert(count(s4, ':') == 1);
    assert(count(s3, ':') == 1);
    assert(count(s2, ':') == 1);
    assert(count(s1, ':') == 1);
    assert(count(s, ':') == 1);
    assert forall|i: int| 0 <= i < s.len() implies #[trigger] s[i] != '?' && s[i] != '/' by {
        if i < host.len() {
            assert(s[i] == host[i]);
        }
    }
}

proof fn lemma_body(rest: Seq<char>, lock: bool)
    requires
        text::free_of(rest, '?'),
    ensures
        named("sheepdog:"@ + (rest + lock_text(lock))) == named_at(rest, lock),
{
    let body = rest + lock_text(lock);
    assert(("sheepdog:"@ + body).skip("sheepdog:"@.len() as int) =~= body);
    text::lemma_cut(rest, '?', "nolock"@);
    if lock {
        assert(body =~= rest);
    } else {
        assert(body =~= rest + seq!['?'] + "nolock"@);
    }
}

proof fn lemma_cluster_at(host: Seq<char>, lock: bool)
    requires
        at_host(host),
    ensures
        named("sheepdog:"@ + (host + lock_text(lock))) == (match with_port(host) {
            Ok(addr) => Ok(Named::Cluster { addr, lock }),
            Err(e) => Err(e),
        }),
{
    lemma_body(host, lock);
    text::lemma_cut(host, '/', seq![]);
}

proof fn lemma_vdi_at(
    host: Seq<char>,
    addr: Seq<char>,
    vdi: Seq<char>,
    tag: Option<Seq<char>>,
    acl: Option<Seq<char>>,
    lock: bool,
)
    requires
        at_host(host),
        with_port(host) == Ok::<Seq<char>, Seq<char>>(addr),
        vdi.len() > 0,
        text::free_of(vdi, '?') && text::free_of(vdi, '%') && text::free_of(vdi, '@'),
        tag matches Some(t) ==> t.len() > 0 && text::free_of(t, '?') && text::free_of(t, '%'),
        acl matches Some(a) ==> a.len() > 0 && text::free_of(a, '?'),
    ensures
        named("sheepdog:"@ + (host + seq!['/'] + vdi_text(vdi, tag, acl) + lock_text(lock)))
            == Ok::<Named, Seq<char>>(
            Named::Vdi(config::Store::Sheepdog { addr, vdi, tag, acl, lock }),
        ),
{
    let v = match tag {
        Some(t) => vdi + seq!['@'] + t,
        None => vdi,
    };
    let part = vdi_text(vdi, tag, acl);
    let rest = host + seq!['/'] + part;
    assert(text::free_of(v, '%') && text::free_of(v, '?')) by {
        assert forall|i: int| 0 <= i < v.len() implies #[trigger] v[i] != '%' && v[i] != '?' by {
            if i < vdi.len() {
                assert(v[i] == vdi[i]);
            } else if i > vdi.len() {
                let t = tag->0;
                assert(v[i] == t[i - vdi.len() - 1]);
            }
        }
    }
    assert forall|i: int| 0 <= i < part.len() implies #[trigger] part[i] != '?' by {
        if i < v.len() {
            assert(part[i] == v[i]);
        } else if i > v.len() {
            let a = acl->0;
            assert(part[i] == a[i - v.len() - 1]);
        }
    }
    assert forall|i: int| 0 <= i < rest.len() implies #[trigger] rest[i] != '?' by {
        if i < host.len() {
            assert(rest[i] == host[i]);
        } else if i > host.len() {
            assert(rest[i] == part[i - host.len() - 1]);
        }
    }
    lemma_body(rest, lock);
    text::lemma_cut(host, '/', part);
    match acl {
        Some(a) => {
            text::lemma_cut(v, '%', a);
        },
        None => {
            text::lemma_cut(v, '%', seq![]);
        },
    }
    match tag {
        Some(t) => {
            text::lemma_cut(vdi, '@', t);
        },
        None => {
            text::lemma_cut(vdi, '@', seq![]);
        },
    }
}

/// The subsystem of an ACL lets in the ACL's members and nobody else, or every
/// host where it has no members; what it exports are the ACL's VDIs that are no
/// snapshots, each by its own id, opened by its own name under that ACL; it
/// allows as many namespaces as the ACL has slots, and knows the object and the
/// version it was read from. Its serial number is the ACL's id.
pub proof fn lemma_acl_subsystem(
    addr: Seq<char>,
    cluster: SocketAddr,
    lock: bool,
    a: inode::Acl,
    hostnqn: Seq<char>,
    vid: u32,
)
    ensures
        ({
            let s = acl_sub(addr, cluster, lock, a);
            &&& s.nqn == a.name
            &&& lets_in(s, hostnqn) <==> (a.hosts.len() == 0 || exists|i: int|
                0 <= i < a.hosts.len() && #[trigger] a.hosts[i] == hostnqn)
            &&& s.mnan == Some(a.max_data_id_nr)
            &&& s.sheepdog_acl matches Some(o) && o.vid == a.vid && o.epoch == a.epoch && o.cluster
                == cluster && o.lock == lock
            &&& s.serial.take(8) == "SHEEPDOG"@
            &&& text::hex_value_of(s.serial.skip(8)) == a.vid
            &&& s.serial.len() >= 14
            &&& (exists|j: int| 0 <= j < s.namespaces.len() && (#[trigger] s.namespaces[j]).nsid
                == vid) <==> (exists|i: int|
                0 <= i < a.vdis.len() && !(#[trigger] a.vdis[i]).snapshot && a.vdis[i].vid == vid)
            &&& forall|j: int| #![trigger s.namespaces[j]]
                0 <= j < s.namespaces.len() ==> exists|i: int|
                    0 <= i < a.vdis.len() && {
                        let v = #[trigger] a.vdis[i];
                        &&& s.namespaces[j].nsid == v.vid
                        &&& s.namespaces[j].backend matches config::Store::Sheepdog {
                            addr: at,
                            vdi,
                            tag,
                            acl,
                            lock: l,
                        } && at == addr && vdi == v.name && tag is None && acl == Some(a.name) && l
                            == lock
                        &&& s.namespaces[j].uuid is Some
                        &&& v.uuid is Some ==> s.namespaces[j].uuid == v.uuid
                        &&& !v.snapshot
                    }
        }),
{
    let s = acl_sub(addr, cluster, lock, a);
    let all = s.namespaces;
    lemma_exported_heads(addr, a.name, lock, a.vdis, a.vdis.len());
    reveal_strlit("SHEEPDOG");
    text::lemma_hexadecimal(a.vid as nat, 6);
    let digits = text::zero_padded(text::hexadecimal(a.vid as nat), 6);
    assert(s.serial == "SHEEPDOG"@ + digits);
    assert(s.serial.take(8) =~= "SHEEPDOG"@);
    assert(s.serial.skip(8) =~= digits);
    assert forall|j: int| #![trigger all[j]] 0 <= j < all.len() implies exists|i: int|
        0 <= i < a.vdis.len() && !(#[trigger] a.vdis[i]).snapshot && all[j] == vdi_namespace(
            addr,
            a.name,
            lock,
            a.vdis[i],
        ) by {
        assert(all.contains(all[j]));
    }
    if exists|i: int|
        0 <= i < a.vdis.len() && !(#[trigger] a.vdis[i]).snapshot && a.vdis[i].vid == vid {
        let i = choose|i: int|
            0 <= i < a.vdis.len() && !(#[trigger] a.vdis[i]).snapshot && a.vdis[i].vid == vid;
        let n = vdi_namespace(addr, a.name, lock, a.vdis[i]);
        assert(all.contains(n));
        let j = choose|j: int| 0 <= j < all.len() && all[j] == n;
        assert(all[j].nsid == vid);
    }
    if exists|j: int| 0 <= j < all.len() && (#[trigger] all[j]).nsid == vid {
        let j = choose|j: int| 0 <= j < all.len() && (#[trigger] all[j]).nsid == vid;
        let i = choose|i: int|
            0 <= i < a.vdis.len() && !(#[trigger] a.vdis[i]).snapshot && all[j] == vdi_namespace(
                addr,
                a.name,
                lock,
                a.vdis[i],
            );
        assert(a.vdis[i].vid == vid);
    }
    if a.hosts.contains(hostnqn) {
        let i = choose|i: int| 0 <= i < a.hosts.len() && a.hosts[i] == hostnqn;
        assert(a.hosts[i] == hostnqn);
    }
}

/// There is one subsystem per ACL object, in order.
pub proof fn lemma_cluster_subsystems(
    addr: Seq<char>,
    cluster: SocketAddr,
    lock: bool,
    acls: Seq<inode::Acl>,
    i: int,
)
    requires
        0 <= i < acls.len(),
    ensures
        acl_subs(addr, cluster, lock, acls).len() == acls.len(),
        acl_subs(addr, cluster, lock, acls)[i].nqn == acls[i].name,
        acl_subs(addr, cluster, lock, acls)[i].allowed_hosts == acls[i].hosts,
{
}

/// How a gateway's address is completed: an IPv6 literal in brackets gets the
/// `sheep` port behind them where none follows, and keeps the one that does; more
/// than one colon out of brackets is refused.
pub proof fn lemma_bracketed(lit: Seq<char>, port: Seq<char>, a: Seq<char>, b: Seq<char>)
    requires
        text::free_of(lit, ']'),
    ensures
        with_port("["@ + lit + "]"@) == Ok::<Seq<char>, Seq<char>>(
            "["@ + lit + "]"@ + ":7000"@,
        ),
        with_port("["@ + lit + "]:"@ + port) == Ok::<Seq<char>, Seq<char>>(
            "["@ + lit + "]:"@ + port,
        ),
        (a.len() > 0 ==> a[0] != '[') ==> with_port(a + ":"@ + lit + ":"@ + b) is Err,
{
    reveal_strlit("[");
    reveal_strlit("]");
    reveal_strlit("]:");
    reveal_strlit(":");
    let bare = "["@ + lit + "]"@;
    let rest = bare.drop_first();
    assert(rest =~= lit + "]"@);
    assert(!holds(rest, "]:"@)) by {
        if holds(rest, "]:"@) {
            let i = choose|i: int| #[trigger] text::occurs_at(rest, "]:"@, i);
            let o = rest.subrange(i, i + 2);
            assert(o[0] == rest[i] && o[0] == "]:"@[0]);
            assert(rest[i] == lit[i]);
            assert(lit[i] != ']');
        }
    }
    let full = "["@ + lit + "]:"@ + port;
    let tail = full.drop_first();
    assert(tail =~= lit + "]:"@ + port);
    assert(tail.subrange(lit.len() as int, lit.len() as int + 2) =~= "]:"@);
    assert(text::occurs_at(tail, "]:"@, lit.len() as int));
    let wide = a + ":"@ + lit + ":"@ + b;
    if a.len() > 0 ==> a[0] != '[' {
        lemma_count_parts(a + ":"@ + lit + ":"@, b, ':');
        lemma_count_parts(a + ":"@ + lit, ":"@, ':');
        lemma_count_parts(a + ":"@, lit, ':');
        lemma_count_parts(a, ":"@, ':');
        assert(":"@.drop_last() =~= seq![]);
        assert(count(":"@.drop_last(), ':') == 0);
        assert(count(":"@, ':') == 1);
        if a.len() > 0 {
            assert(wide[0] == a[0]);
        } else {
            assert(wide[0] == ":"@[0]);
        }
    }
}

proof fn lemma_count_parts(a: Seq<char>, b: Seq<char>, c: char)
    ensures
        count(a + b, c) == count(a, c) + count(b, c),
    decreases b.len(),
{
    if b.len() == 0 {
        assert(a + b =~= a);
    } else {
        lemma_count_parts(a, b.drop_last(), c);
        assert((a + b).drop_last() =~= a + b.drop_last());
    }
}

/// A VDI is exported under the identity the cluster gave it; one without gets an
/// identity that ends in its id, so two of one name differ, and that is never the
/// value that stands for none.
pub proof fn lemma_vdi_identity(v: inode::Vdi, w: inode::Vdi)
    ensures
        v.uuid matches Some(u) ==> vdi_uuid(v) == u,
        v.uuid is None ==> vdi_uuid(v).len() == 16 && vdi_uuid(v) != bytes::zeroes(16)
            && bytes::be_value(vdi_uuid(v).subrange(12, 16)) == v.vid,
        v.uuid is None && w.uuid is None && v.vid != w.vid ==> vdi_uuid(v) != vdi_uuid(w),
{
    let a = vstd::utf8::encode_utf8("sheepdog:"@ + v.name);
    let b = vstd::utf8::encode_utf8("sheepdog:"@ + w.name);
    uuid::lemma_derived_differs(a, v.vid, b, w.vid);
    bytes::lemma_be(v.vid as nat, 4);
    bytes::lemma_pow256();
}

/// There is something to export exactly where some ACL has a VDI that is no
/// snapshot.
pub proof fn lemma_exports(
    addr: Seq<char>,
    cluster: SocketAddr,
    lock: bool,
    acls: Seq<inode::Acl>,
)
    ensures
        exports(acl_subs(addr, cluster, lock, acls)) <==> exists|i: int, j: int|
            0 <= i < acls.len() && 0 <= j < (#[trigger] acls[i]).vdis.len() && !(
            #[trigger] acls[i].vdis[j]).snapshot,
{
    let all = acl_subs(addr, cluster, lock, acls);
    if exports(all) {
        let i = choose|i: int| 0 <= i < all.len() && (#[trigger] all[i]).namespaces.len() > 0;
        let a = acls[i];
        let n = all[i].namespaces[0];
        lemma_acl_subsystem(addr, cluster, lock, a, seq![], n.nsid);
        let s = acl_sub(addr, cluster, lock, a);
        assert(s.namespaces[0].nsid == n.nsid);
        let j = choose|j: int|
            0 <= j < a.vdis.len() && !(#[trigger] a.vdis[j]).snapshot && a.vdis[j].vid == n.nsid;
        assert(!acls[i].vdis[j].snapshot);
    }
    if exists|i: int, j: int|
        0 <= i < acls.len() && 0 <= j < (#[trigger] acls[i]).vdis.len() && !(
        #[trigger] acls[i].vdis[j]).snapshot {
        let (i, j) = choose|i: int, j: int|
            0 <= i < acls.len() && 0 <= j < (#[trigger] acls[i]).vdis.len() && !(
            #[trigger] acls[i].vdis[j]).snapshot;
        let a = acls[i];
        lemma_acl_subsystem(addr, cluster, lock, a, seq![], a.vdis[j].vid);
        let s = acl_sub(addr, cluster, lock, a);
        assert(!a.vdis[j].snapshot && a.vdis[j].vid == a.vdis[j].vid);
        assert(all[i] == s);
        assert(s.namespaces.len() > 0);
    }
}

} // verus!
