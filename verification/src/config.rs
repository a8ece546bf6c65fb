//! The target model: which subsystems a port serves, each with its namespaces
//! and the backend each of those stands on.

use vstd::prelude::*;

use crate::addr;
use crate::addr::SocketAddr;
use crate::sheepdog::inode;
use crate::text;
use crate::text::owned;

verus! {

/// Where a namespace's blocks are.
#[derive(Debug)]
pub enum BackendConfig {
    /// RAM.
    Memory {
        /// Size in MiB.
        size_mb: u64,
    },
    /// Nowhere: writes are dropped, reads are zero.
    Null {
        /// Size in MiB.
        size_mb: u64,
    },
    /// A file or block device.
    File {
        /// Its path.
        path: String,
    },
    /// A VDI of a Sheepdog cluster.
    Sheepdog {
        /// The gateway, as host and port.
        addr: String,
        /// The VDI's name.
        vdi: String,
        /// The snapshot tag.
        tag: Option<String>,
        /// The ACL object it belongs to.
        acl: Option<String>,
        /// Take the cluster's VDI lock.
        lock: bool,
    },
}

/// A backend, as what it names.
pub enum Store {
    /// RAM.
    Memory {
        /// Size.
        size_mb: u64,
    },
    /// Nowhere.
    Null {
        /// Size.
        size_mb: u64,
    },
    /// A file.
    File {
        /// Path.
        path: Seq<char>,
    },
    /// A VDI.
    Sheepdog {
        /// Gateway.
        addr: Seq<char>,
        /// Name.
        vdi: Seq<char>,
        /// Tag.
        tag: Option<Seq<char>>,
        /// ACL.
        acl: Option<Seq<char>>,
        /// Lock.
        lock: bool,
    },
}

/// An optional text.
pub open spec fn opt(t: Option<String>) -> Option<Seq<char>> {
    match t {
        Some(s) => Some(s@),
        None => None,
    }
}

impl View for BackendConfig {
    type V = Store;

    open spec fn view(&self) -> Store {
        match *self {
            BackendConfig::Memory { size_mb } => Store::Memory { size_mb },
            BackendConfig::Null { size_mb } => Store::Null { size_mb },
            BackendConfig::File { path } => Store::File { path: path@ },
            BackendConfig::Sheepdog { addr, vdi, tag, acl, lock } => Store::Sheepdog {
                addr: addr@,
                vdi: vdi@,
                tag: opt(tag),
                acl: opt(acl),
                lock,
            },
        }
    }
}

/// One namespace.
#[derive(Debug)]
pub struct NamespaceConfig {
    /// Its id.
    pub nsid: u32,
    /// Where its blocks are.
    pub backend: BackendConfig,
    /// Its identity, where it is given one.
    pub uuid: Option<[u8; 16]>,
}

/// A namespace, as what it says.
pub struct Ns {
    /// Id.
    pub nsid: u32,
    /// Backend.
    pub backend: Store,
    /// Identity.
    pub uuid: Option<Seq<u8>>,
}

impl View for NamespaceConfig {
    type V = Ns;

    open spec fn view(&self) -> Ns {
        Ns { nsid: self.nsid, backend: self.backend@, uuid: inode::uuid_bytes(self.uuid) }
    }
}

/// The ACL object a subsystem was read from, to be read again.
#[derive(Debug, Clone, Copy)]
pub struct SheepdogAcl {
    /// The cluster.
    pub cluster: SocketAddr,
    /// The ACL object.
    pub vid: u32,
    /// Its version when it was read.
    pub epoch: u64,
    /// Its volumes are opened under the cluster's VDI lock.
    pub lock: bool,
}

/// One subsystem.
#[derive(Debug)]
pub struct SubsystemConfig {
    /// Its name.
    pub nqn: String,
    /// Serial number.
    pub serial: String,
    /// Model.
    pub model: String,
    /// Any host may connect.
    pub allow_any_host: bool,
    /// The hosts that may.
    pub allowed_hosts: Vec<String>,
    /// The ACL object it was read from.
    pub sheepdog_acl: Option<SheepdogAcl>,
    /// Maximum number of allowed namespaces.
    pub mnan: Option<u32>,
    /// Its namespaces.
    pub namespaces: Vec<NamespaceConfig>,
}

/// A subsystem, as what it says.
pub struct Sub {
    /// Name.
    pub nqn: Seq<char>,
    /// Serial number.
    pub serial: Seq<char>,
    /// Model.
    pub model: Seq<char>,
    /// Any host.
    pub allow_any_host: bool,
    /// Hosts.
    pub allowed_hosts: Seq<Seq<char>>,
    /// ACL object.
    pub sheepdog_acl: Option<SheepdogAcl>,
    /// Maximum number of namespaces.
    pub mnan: Option<u32>,
    /// Namespaces.
    pub namespaces: Seq<Ns>,
}

/// The namespaces of `v`.
pub open spec fn namespaces(v: Seq<NamespaceConfig>) -> Seq<Ns> {
    Seq::new(v.len(), |i: int| v[i]@)
}

/// The subsystems of `v`.
pub open spec fn subs(v: Seq<SubsystemConfig>) -> Seq<Sub> {
    Seq::new(v.len(), |i: int| v[i]@)
}

impl View for SubsystemConfig {
    type V = Sub;

    open spec fn view(&self) -> Sub {
        Sub {
            nqn: self.nqn@,
            serial: self.serial@,
            model: self.model@,
            allow_any_host: self.allow_any_host,
            allowed_hosts: text::texts(self.allowed_hosts@),
            sheepdog_acl: self.sheepdog_acl,
            mnan: self.mnan,
            namespaces: namespaces(self.namespaces@),
        }
    }
}

/// The serial number of a subsystem that is given none.
pub fn default_serial() -> (r: String)
    ensures
        r@ == "IOUTGT0001"@,
{
    owned("IOUTGT0001")
}

/// The model of a subsystem that is given none.
pub fn default_model() -> (r: String)
    ensures
        r@ == "ioutgt"@,
{
    owned("ioutgt")
}

} // verus!
