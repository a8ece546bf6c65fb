//! Opening a volume: the handshake that looks a VDI up, reads its inode and
//! takes its cluster lock, and the later release and renewal of that lock.
//!
//! Each step says what to ask the cluster next; the answer is handed back, and
//! the last step has the opened volume or the failure.

use vstd::prelude::*;

use crate::addr;
use crate::addr::{IpAddr, SocketAddr};
use crate::bytes;
use crate::sheepdog::calls;
use crate::sheepdog::calls::{
    acl_meta_reply, check_name, lookup_acl_request, lookup_reply, lookup_request, read_reply,
    read_request, register_reply, register_request, release_request,
};
use crate::sheepdog::content;
use crate::sheepdog::error::CtlError;
use crate::sheepdog::inode;
use crate::sheepdog::inode::parse_map;
use crate::sheepdog::volume;
use crate::sheepdog::volume::{parse_shape, Shape, Volume};
use crate::sheepdog::wire;
use crate::sheepdog::wire::{
    vid_to_vdi_oid, Reply, Request, SD_ACL_NONE, SD_FLAG_CMD_WRITE, SD_INODE_HEADER_SIZE,
    SD_OP_GET_VDI_INFO, SD_OP_READ_OBJ, SD_OP_REGISTER_VDI, SD_OP_UNREGISTER_VDI,
    SD_RES_SUCCESS,
};
use crate::text::owned;

verus! {

/// A namespace backed by a Sheepdog VDI.
#[derive(Debug)]
pub struct SheepdogBackend {
    /// The cluster this VDI lives on.
    pub addr: SocketAddr,
    /// The VDI's name, kept for the renewal of the lock — the lock ops resolve
    /// a volume by name, never by vid.
    pub name: String,
    /// The (writable head) VDI id.
    pub vid: u32,
    /// The ACL this VDI is served under ([`SD_ACL_NONE`] for a VDI in no ACL):
    /// the scope its name was looked up in and its lock taken under, so the
    /// release can name the same one back.
    pub acl: u32,
    /// The address this target registered as the VDI's holder — its own fabric
    /// address, which is what the cluster hands other targets as a path to
    /// this volume. `None` when the open took no lock.
    pub owner: Option<SocketAddr>,
    /// The inode's `uuid[16]`, or `None` when the cluster never wrote one.
    pub uuid: Option<[u8; 16]>,
    /// The data path.
    pub volume: Volume,
    /// Whether the registration is still held.
    pub registered: bool,
}

impl SheepdogBackend {
    /// A registration has an owner, and the name is one the cluster takes.
    pub open spec fn wf(&self) -> bool {
        &&& self.volume.wf()
        &&& self.volume.vid == self.vid
        &&& calls::name_fits(self.name@)
        &&& self.registered ==> self.owner is Some
    }

    /// The VDI's cluster-assigned UUID (inode `uuid[16]`), for a target to
    /// report as this namespace's NVMe UUID. `None` when the inode carries
    /// none — an all-zero field, as written by a `sheep` predating it.
    pub fn uuid(&self) -> (r: Option<[u8; 16]>)
        ensures
            r == self.uuid,
    {
        self.uuid
    }

    /// The cluster this VDI lives on.
    pub fn cluster(&self) -> (r: SocketAddr)
        ensures
            r == self.addr,
    {
        self.addr
    }

    /// The VDI id: the volume's cluster-wide identity.
    pub fn vid(&self) -> (r: u32)
        ensures
            r == self.vid,
    {
        self.vid
    }

    /// The address this backend registered as the volume's holder, or `None`
    /// if it took no lock.
    pub fn owner(&self) -> (r: Option<SocketAddr>)
        ensures
            r == self.owner,
    {
        self.owner
    }

    /// Hand the VDI lock back: the request that does, or `None` when there is
    /// no lock to give back (none taken, or already released).
    pub fn release_lock(&mut self) -> (r: Option<Request>)
        requires
            old(self).wf(),
        ensures
            final(self).wf(),
            *final(self) == (SheepdogBackend { registered: false, ..*old(self) }),
            match r {
                Some(q) => {
                    &&& old(self).registered
                    &&& q.hdr@ == wire::vdi_lock_req(
                        SD_OP_UNREGISTER_VDI,
                        0,
                        0,
                        old(self).vid,
                        old(self).owner->0@,
                        old(self).acl,
                    )
                    &&& q.payload@ == Seq::<u8>::empty()
                    &&& q.room == 0
                },
                None => !old(self).registered,
            },
    {
        if !self.registered {
            return None;
        }
        self.registered = false;
        match self.owner {
            Some(owner) => Some(release_request(self.vid, owner, self.acl)),
            None => None,
        }
    }

    /// Take this VDI's registration again after the cluster lost it: the
    /// lookup that starts it, or `None` for a backend that took no lock, or
    /// has already handed it back — a shutdown must not be undone by a refresh
    /// arriving behind it.
    pub fn reregister(&self) -> (r: Option<Request>)
        requires
            self.wf(),
        ensures
            match r {
                Some(q) => {
                    &&& self.registered
                    &&& q.hdr@ == wire::vdi_req(
                        SD_OP_GET_VDI_INFO,
                        SD_FLAG_CMD_WRITE,
                        512,
                        0,
                        0,
                        self.acl,
                    )
                    &&& q.payload@ == calls::name_payload(self.name@, None)
                    &&& q.room == 0
                },
                None => !self.registered,
            },
    {
        if !self.registered {
            return None;
        }
        match lookup_request(self.name.as_str(), None, self.acl) {
            Ok(q) => Some(q),
            Err(_) => None,
        }
    }

    /// What follows the lookup: the registration, if the name still resolves
    /// to the vid this backend serves. A name that now points somewhere else
    /// is a volume deleted and recreated under this target's feet —
    /// registering on it would claim a path to storage this namespace is not
    /// reading, so it is refused.
    pub fn reregister_found(&self, hdr: &[u8; 48]) -> (r: Result<Request, CtlError>)
        requires
            self.wf(),
            self.registered,
        ensures
            match calls::lookup_answer(hdr@, self.acl) {
                Err(e) => r == Err::<Request, CtlError>(e),
                Ok(vid) => if vid == self.vid {
                    r matches Ok(q) && q.hdr@ == wire::vdi_lock_req(
                        SD_OP_REGISTER_VDI,
                        SD_FLAG_CMD_WRITE,
                        512,
                        0,
                        self.owner->0@,
                        self.acl,
                    ) && q.payload@ == calls::name_payload(self.name@, None) && q.room == 0
                } else {
                    r matches Err(CtlError::Stale { vdi, now, served }) && vdi@ == self.name@
                        && now == vid && served == self.vid
                },
            },
    {
        match lookup_reply(hdr, self.acl) {
            Err(e) => Err(e),
            Ok(vid) => if vid != self.vid {
                Err(
                    CtlError::Stale { vdi: owned(self.name.as_str()), now: vid, served: self.vid },
                )
            } else {
                match self.owner {
                    Some(owner) => register_request(self.name.as_str(), owner, self.acl),
                    None => Err(CtlError::InvalidVdiName),
                }
            },
        }
    }

    /// What the answer to that registration means.
    pub fn reregister_done(&self, hdr: &[u8; 48]) -> (r: Result<(), CtlError>)
        ensures
            calls::register_answer(r, wire::u32_at(hdr@, 16), self.name@, self.acl),
    {
        register_reply(hdr, self.name.as_str(), self.acl)
    }

    /// Look up `vdi` (optionally at snapshot `tag`) on the cluster at `addr`,
    /// read its inode, and build the backend: the first step of that.
    ///
    /// `acl` names the ACL object the VDI belongs to; every lookup and lock
    /// runs under it, so it must match the VDI's inode `acl_id` or the cluster
    /// will not admit the name at all. `None` addresses a VDI in no ACL.
    ///
    /// `lock` is the address this target's fabric serves on, and asks for the
    /// cluster's VDI lock: the VDI is registered as held by that address until
    /// this backend releases it — shared with the other holders naming the
    /// same ACL, exclusive when there is no ACL. An unspecified IP (the target
    /// bound the wildcard) is resolved to the local end of a route to the
    /// cluster. `None` takes no lock, and so does a snapshot, which is
    /// read-only and can keep nobody out.
    pub fn open(
        addr: SocketAddr,
        vdi: &str,
        tag: Option<String>,
        acl: Option<String>,
        lock: Option<SocketAddr>,
    ) -> (r: (Opening, OpenStep))
        ensures
            r.0.addr == addr,
            r.0.vdi@ == vdi@,
            r.0.tag == tag,
            r.0.acl == acl,
            r.0.lock == lock,
            r.0.wf(),
            r.0.built is None,
            if calls::name_fits(vdi@) {
                r.1 is Connect && r.0.stage is Dial
            } else {
                r.1 == fails(CtlError::InvalidVdiName) && r.0.stage is Over
            },
    {
        let fits: bool = check_name(vdi);
        let o = Opening {
            addr,
            vdi: owned(vdi),
            tag,
            acl,
            lock,
            stage: if fits {
                Stage::Dial
            } else {
                Stage::Over
            },
            built: None,
        };
        if fits {
            (o, OpenStep::Connect)
        } else {
            (o, OpenStep::Done(Err(CtlError::InvalidVdiName)))
        }
    }
}

/// Where the handshake stands: what was asked last.
#[derive(Debug, Clone, Copy, PartialEq, Eq)]
pub enum Stage {
    /// A connection.
    Dial,
    /// The ACL object's name.
    AclLookup,
    /// The ACL object's inode.
    AclMeta {
        /// Its vid.
        acl: u32,
    },
    /// The VDI's name.
    VdiLookup {
        /// The ACL.
        acl: u32,
    },
    /// The VDI's inode.
    Header {
        /// The ACL.
        acl: u32,
        /// The VDI.
        vid: u32,
    },
    /// Its object map.
    Objects {
        /// The ACL.
        acl: u32,
        /// The VDI.
        vid: u32,
        /// What its inode said.
        shape: Shape,
    },
    /// The local end of a route to the cluster.
    Route,
    /// The lock.
    Register {
        /// Who is to hold it.
        owner: SocketAddr,
    },
    /// Nothing: the handshake is over.
    Over,
}

/// A handshake under way.
#[derive(Debug)]
pub struct Opening {
    /// The cluster.
    pub addr: SocketAddr,
    /// The VDI's name.
    pub vdi: String,
    /// The snapshot tag.
    pub tag: Option<String>,
    /// The ACL's name.
    pub acl: Option<String>,
    /// The fabric address to register.
    pub lock: Option<SocketAddr>,
    /// What was asked last.
    pub stage: Stage,
    /// The backend, once its inode has been read.
    pub built: Option<SheepdogBackend>,
}

/// What the handshake needs next.
#[derive(Debug)]
pub enum OpenStep {
    /// A connection to the cluster.
    Connect,
    /// An answer from the cluster.
    Send(Request),
    /// The local address of a route to the cluster.
    FindRoute,
    /// Nothing: the volume is open, or will not be.
    Done(Result<SheepdogBackend, CtlError>),
}

/// Whether a step asks just this.
pub open spec fn asked(s: OpenStep, hdr: Seq<u8>, payload: Seq<u8>, room: nat) -> bool {
    s matches OpenStep::Send(q) && q.hdr@ == hdr && q.payload@ == payload && q.room == room
}

/// A failed handshake.
pub open spec fn fails(e: CtlError) -> OpenStep {
    OpenStep::Done(Err(e))
}

/// What a stage's answer has room for.
pub open spec fn room_of(s: Stage) -> nat {
    match s {
        Stage::AclMeta { .. } => 596,
        Stage::Header { .. } => 596,
        Stage::Objects { shape, .. } => (shape.nr_objects * 4) as nat,
        _ => 0,
    }
}

/// Whether `s` asks for `len` bytes of `vid`'s inode at `offset`.
pub open spec fn asked_inode(s: OpenStep, vid: u32, offset: u64, len: u32) -> bool {
    asked(
        s,
        wire::obj_req(SD_OP_READ_OBJ, 0, 0, len, wire::vdi_oid(vid), 0, 0, offset),
        seq![],
        len as nat,
    )
}

/// Whether the lookup of the VDI's name under `acl` has begun, or failed for
/// its tag.
pub open spec fn lookup_begun(o: Opening, acl: u32, s: OpenStep) -> bool {
    let tag = match o.tag {
        Some(t) => Some(t@),
        None => None,
    };
    if tag is Some && calls::utf8(tag->0).len() >= 256 {
        s == fails(CtlError::TagTooLong) && o.stage is Over
    } else {
        &&& o.stage == (Stage::VdiLookup { acl })
        &&& asked(
            s,
            wire::vdi_req(SD_OP_GET_VDI_INFO, SD_FLAG_CMD_WRITE, 512, 0, 0, acl),
            calls::name_payload(o.vdi@, tag),
            0,
        )
    }
}

/// Whether the registration of `owner` has been asked for.
pub open spec fn registering(o: Opening, owner: SocketAddr, s: OpenStep) -> bool {
    &&& o.stage == (Stage::Register { owner })
    &&& o.built matches Some(b) && asked(
        s,
        wire::vdi_lock_req(SD_OP_REGISTER_VDI, SD_FLAG_CMD_WRITE, 512, 0, owner@, b.acl),
        calls::name_payload(o.vdi@, None),
        0,
    )
}

/// Whether `b` is the backend an inode of `shape` and object map `map` make,
/// not registered.
pub open spec fn made(
    b: SheepdogBackend,
    o: Opening,
    acl: u32,
    vid: u32,
    shape: Shape,
    map: Seq<u8>,
) -> bool {
    &&& b.wf()
    &&& b.addr == o.addr
    &&& b.name@ == o.vdi@
    &&& b.vid == vid
    &&& b.acl == acl
    &&& b.owner is None
    &&& b.uuid == shape.uuid
    &&& b.volume.object_size == shape.object_size
    &&& b.volume.nr_copies == shape.nr_copies
    &&& b.volume.nr_blocks == shape.nr_blocks
    &&& b.volume.read_only == shape.read_only
    &&& b.volume.data_map@ == inode::map_in(map, shape.nr_objects as nat)
    &&& !b.registered
}

/// Whether `shape` is as an inode header says, and so within its limits.
pub open spec fn shape_of(r: Result<Shape, CtlError>, header: Seq<u8>) -> bool {
    let shift = header[555];
    let size = wire::u64_at(header, 536);
    match r {
        Ok(s) => {
            &&& 9 <= shift <= 31
            &&& size != 0
            &&& inode::uuid_bytes(s.uuid) == inode::uuid_in(header)
            &&& s.object_size == volume::size_of_shift(shift)
            &&& s.nr_copies == (if header[554] == 0 {
                1
            } else {
                header[554]
            })
            &&& s.nr_blocks == size / 512
            &&& s.read_only == (wire::u64_at(header, 520) != 0)
            &&& s.nr_objects == volume::objects_of(size as nat, s.object_size as nat)
        },
        Err(CtlError::BadShift { shift: k }) => k == shift && !(9 <= shift <= 31),
        Err(CtlError::ZeroSize) => 9 <= shift <= 31 && size == 0,
        Err(_) => false,
    }
}

/// Whether a shape is within an inode's limits.
pub open spec fn shape_wf(s: Shape) -> bool {
    &&& 512 <= s.object_size <= 0x8000_0000
    &&& s.object_size % 512 == 0
    &&& s.nr_blocks <= 0x7f_ffff_ffff_ffff
    &&& 0 < s.nr_objects <= 0x10_0000
}

impl Opening {
    /// What has been learnt fits where the handshake stands.
    pub open spec fn wf(&self) -> bool {
        &&& !(self.stage is Over) ==> calls::name_fits(self.vdi@)
        &&& (self.stage is AclLookup || self.stage is AclMeta) ==> self.acl is Some
        &&& self.stage matches Stage::Objects { shape, .. } ==> shape_wf(shape)
        &&& (self.stage is Route || self.stage is Register) ==> {
            &&& self.built matches Some(b) && b.wf() && b.name@ == self.vdi@ && b.owner is None
                && !b.registered
            &&& self.lock is Some
        }
    }

    /// Begin the lookup of the VDI's name.
    fn look_up(&mut self, acl: u32) -> (r: OpenStep)
        requires
            calls::name_fits(old(self).vdi@),
        ensures
            *final(self) == (Opening { stage: final(self).stage, ..*old(self) }),
            final(self).wf(),
            lookup_begun(*final(self), acl, r),
    {
        let q = match &self.tag {
            Some(t) => lookup_request(self.vdi.as_str(), Some(t.as_str()), acl),
            None => lookup_request(self.vdi.as_str(), None, acl),
        };
        match q {
            Ok(q) => {
                self.stage = Stage::VdiLookup { acl };
                OpenStep::Send(q)
            },
            Err(e) => {
                self.stage = Stage::Over;
                OpenStep::Done(Err(e))
            },
        }
    }

    /// Ask for the lock.
    fn register(&mut self, owner: SocketAddr) -> (r: OpenStep)
        requires
            calls::name_fits(old(self).vdi@),
            old(self).lock is Some,
            old(self).built matches Some(b) && b.wf() && b.name@ == old(self).vdi@ && b.owner
                is None && !b.registered,
        ensures
            *final(self) == (Opening { stage: final(self).stage, ..*old(self) }),
            final(self).wf(),
            registering(*final(self), owner, r),
    {
        let acl: u32 = match &self.built {
            Some(b) => b.acl,
            None => SD_ACL_NONE,
        };
        match register_request(self.vdi.as_str(), owner, acl) {
            Ok(q) => {
                self.stage = Stage::Register { owner };
                OpenStep::Send(q)
            },
            Err(e) => {
                self.stage = Stage::Over;
                OpenStep::Done(Err(e))
            },
        }
    }

    /// The cluster is connected to: the names are looked up, the ACL's first.
    pub fn connected(&mut self) -> (r: OpenStep)
        requires
            old(self).wf(),
            old(self).stage is Dial,
        ensures
            final(self).wf(),
            *final(self) == (Opening { stage: final(self).stage, ..*old(self) }),
            match old(self).acl {
                None => lookup_begun(*final(self), SD_ACL_NONE, r),
                Some(name) => if calls::name_fits(name@) {
                    &&& final(self).stage is AclLookup
                    &&& asked(
                        r,
                        wire::vdi_req(
                            SD_OP_GET_VDI_INFO,
                            SD_FLAG_CMD_WRITE,
                            512,
                            0,
                            0,
                            SD_ACL_NONE,
                        ),
                        calls::name_payload(name@, None),
                        0,
                    )
                } else {
                    r == fails(CtlError::InvalidAclName) && final(self).stage is Over
                },
            },
    {
        let asking = match &self.acl {
            Some(name) => Some(lookup_acl_request(name.as_str())),
            None => None,
        };
        match asking {
            Some(Ok(q)) => {
                self.stage = Stage::AclLookup;
                OpenStep::Send(q)
            },
            Some(Err(e)) => self.give_up(e),
            None => self.look_up(SD_ACL_NONE),
        }
    }

    /// The local end of a route to the cluster is `local`: what the wildcard
    /// address stands for. The port is the fabric's.
    pub fn route_found(&mut self, local: IpAddr) -> (r: OpenStep)
        requires
            old(self).wf(),
            old(self).stage is Route,
        ensures
            final(self).wf(),
            *final(self) == (Opening { stage: final(self).stage, ..*old(self) }),
            registering(
                *final(self),
                SocketAddr { ip: local, port: old(self).lock->0.port },
                r,
            ),
    {
        let port: u16 = match self.lock {
            Some(a) => a.port,
            None => 0,
        };
        self.register(SocketAddr::new(local, port))
    }

    /// Go on with the answer to what was asked last.
    pub fn reply(&mut self, reply: &Reply) -> (r: OpenStep)
        requires
            old(self).wf(),
            !(old(self).stage is Dial),
            !(old(self).stage is Route),
            !(old(self).stage is Over),
            reply.data@.len() == room_of(old(self).stage),
        ensures
            final(self).wf(),
            final(self).addr == old(self).addr,
            final(self).vdi == old(self).vdi,
            final(self).tag == old(self).tag,
            final(self).acl == old(self).acl,
            final(self).lock == old(self).lock,
            !(old(self).stage is Objects || old(self).stage is Register) ==> final(self).built
                == old(self).built,
            r is Done ==> final(self).stage is Over,
            match old(self).stage {
                Stage::AclLookup => match calls::lookup_answer(reply.hdr@, SD_ACL_NONE) {
                    Ok(acl) => final(self).stage == (Stage::AclMeta { acl }) && asked_inode(
                        r,
                        acl,
                        0,
                        596,
                    ),
                    Err(e) => r == fails(e),
                },
                Stage::AclMeta { acl } => match calls::read_answer(reply.hdr@) {
                    Err(e) => r == fails(e),
                    Ok(_) => if inode::flags_acl(reply.data@) {
                        lookup_begun(*final(self), acl, r)
                    } else {
                        r matches OpenStep::Done(Err(CtlError::NotAnAcl { name })) && name@
                            == old(self).acl->0@
                    },
                },
                Stage::VdiLookup { acl } => match calls::lookup_answer(reply.hdr@, acl) {
                    Ok(vid) => final(self).stage == (Stage::Header { acl, vid }) && asked_inode(
                        r,
                        vid,
                        0,
                        596,
                    ),
                    Err(e) => r == fails(e),
                },
                Stage::Header { acl, vid } => match calls::read_answer(reply.hdr@) {
                    Err(e) => r == fails(e),
                    Ok(_) => match final(self).stage {
                        Stage::Objects { acl: a, vid: v, shape } => {
                            &&& a == acl && v == vid
                            &&& shape_of(Ok(shape), reply.data@)
                            &&& asked_inode(r, vid, 4664, (shape.nr_objects * 4) as u32)
                        },
                        _ => r matches OpenStep::Done(Err(e)) && shape_of(Err(e), reply.data@),
                    },
                },
                Stage::Objects { acl, vid, shape } => match calls::read_answer(reply.hdr@) {
                    Err(e) => r == fails(e),
                    Ok(_) => match old(self).lock {
                        Some(fabric) => if shape.read_only {
                            r matches OpenStep::Done(Ok(b)) && made(
                                b,
                                *old(self),
                                acl,
                                vid,
                                shape,
                                reply.data@,
                            )
                        } else {
                            &&& final(self).built matches Some(b) && made(
                                b,
                                *old(self),
                                acl,
                                vid,
                                shape,
                                reply.data@,
                            )
                            &&& if addr::unspecified(fabric.ip@) {
                                r is FindRoute && final(self).stage is Route
                            } else {
                                registering(*final(self), fabric, r)
                            }
                        },
                        None => r matches OpenStep::Done(Ok(b)) && made(
                            b,
                            *old(self),
                            acl,
                            vid,
                            shape,
                            reply.data@,
                        ),
                    },
                },
                Stage::Register { owner } => {
                    let b = old(self).built->0;
                    if wire::u32_at(reply.hdr@, 16) == SD_RES_SUCCESS {
                        r == OpenStep::Done(
                            Ok(
                                SheepdogBackend { owner: Some(owner), registered: true, ..b },
                            ),
                        )
                    } else {
                        r matches OpenStep::Done(Err(e)) && calls::register_answer(
                            Err(e),
                            wire::u32_at(reply.hdr@, 16),
                            old(self).vdi@,
                            b.acl,
                        )
                    }
                },
                _ => true,
            },
    {
        let stage = self.stage;
        match stage {
            Stage::AclLookup => match lookup_reply(&reply.hdr, SD_ACL_NONE) {
                Ok(acl) => {
                    self.stage = Stage::AclMeta { acl };
                    OpenStep::Send(read_request(vid_to_vdi_oid(acl), 0, 596))
                },
                Err(e) => self.give_up(e),
            },
            Stage::AclMeta { acl } => {
                let checked = match &self.acl {
                    Some(name) => acl_meta_reply(name.as_str(), reply),
                    None => Ok(()),
                };
                match checked {
                    Ok(()) => self.look_up(acl),
                    Err(e) => self.give_up(e),
                }
            },
            Stage::VdiLookup { acl } => match lookup_reply(&reply.hdr, acl) {
                Ok(vid) => {
                    self.stage = Stage::Header { acl, vid };
                    OpenStep::Send(read_request(vid_to_vdi_oid(vid), 0, 596))
                },
                Err(e) => self.give_up(e),
            },
            Stage::Header { acl, vid } => {
                match read_reply(&reply.hdr) {
                    Err(e) => {
                        return self.give_up(e);
                    },
                    Ok(()) => {},
                }
                match parse_shape(reply.data.as_slice()) {
                    Err(e) => self.give_up(e),
                    Ok(shape) => {
                        self.stage = Stage::Objects { acl, vid, shape };
                        OpenStep::Send(
                            read_request(
                                vid_to_vdi_oid(vid),
                                SD_INODE_HEADER_SIZE,
                                shape.nr_objects as u32 * 4,
                            ),
                        )
                    },
                }
            },
            Stage::Objects { acl, vid, shape } => {
                match read_reply(&reply.hdr) {
                    Err(e) => {
                        return self.give_up(e);
                    },
                    Ok(()) => {},
                }
                let map = parse_map(reply.data.as_slice(), shape.nr_objects as usize);
                let b = SheepdogBackend {
                    addr: self.addr,
                    name: owned(self.vdi.as_str()),
                    vid,
                    acl,
                    owner: None,
                    uuid: shape.uuid,
                    volume: Volume::new(vid, shape, map),
                    registered: false,
                };
                // A frozen snapshot serves nobody's writes, so it needn't keep
                // anyone out.
                match self.lock {
                    Some(fabric) => if shape.read_only {
                        self.stage = Stage::Over;
                        OpenStep::Done(Ok(b))
                    } else {
                        self.built = Some(b);
                        if fabric.ip.is_unspecified() {
                            self.stage = Stage::Route;
                            OpenStep::FindRoute
                        } else {
                            self.register(fabric)
                        }
                    },
                    None => {
                        self.stage = Stage::Over;
                        OpenStep::Done(Ok(b))
                    },
                }
            },
            Stage::Register { owner } => {
                let built = self.built.take();
                self.stage = Stage::Over;
                match built {
                    Some(mut b) => match register_reply(&reply.hdr, self.vdi.as_str(), b.acl) {
                        Ok(()) => {
                            b.owner = Some(owner);
                            b.registered = true;
                            OpenStep::Done(Ok(b))
                        },
                        Err(e) => OpenStep::Done(Err(e)),
                    },
                    None => OpenStep::Done(Err(CtlError::InvalidVdiName)),
                }
            },
            Stage::Dial => OpenStep::Connect,
            Stage::Route => OpenStep::FindRoute,
            Stage::Over => OpenStep::Done(Err(CtlError::InvalidVdiName)),
        }
    }

    /// End the handshake with a failure.
    fn give_up(&mut self, e: CtlError) -> (r: OpenStep)
        ensures
            *final(self) == (Opening { stage: Stage::Over, ..*old(self) }),
            r == fails(e),
    {
        self.stage = Stage::Over;
        OpenStep::Done(Err(e))
    }
}

// ---------------------------------------------------------------------------
// What an open comes to
// ---------------------------------------------------------------------------

/// What is read of an inode is read of the VDI's own: its object is the id with
/// the topmost bit set, and nothing is written.
pub proof fn lemma_asks_inode(s: OpenStep, vid: u32, offset: u64, len: u32)
    requires
        asked_inode(s, vid, offset, len),
        vid < 0x100_0000,
    ensures
        s matches OpenStep::Send(q) && q.room == len && q.payload@.len() == 0 && q.hdr@[1] == 0x02
            && wire::field(q.hdr@, 2, 2) == 0 && wire::field(q.hdr@, 12, 4) == len && wire::field(
            q.hdr@,
            16,
            8,
        ) == 0x8000_0000_0000_0000 + vid * 0x1_0000_0000 && wire::field(q.hdr@, 40, 8) == offset,
{
    wire::lemma_obj_req_fields(SD_OP_READ_OBJ, 0, 0, len, wire::vdi_oid(vid), 0, 0, offset);
    wire::lemma_oids(vid, 0, vid, 0);
}

/// A VDI is looked up by its name, and by its tag where it has one, within the
/// ACL it is opened under.
pub proof fn lemma_looks_up(o: Opening, acl: u32, s: OpenStep)
    requires
        lookup_begun(o, acl, s),
        calls::name_fits(o.vdi@),
    ensures
        s is Send <==> (o.tag matches Some(t) ==> calls::utf8(t@).len() < 256),
        s matches OpenStep::Send(q) ==> {
            &&& q.hdr@[1] == 0x14
            &&& wire::field(q.hdr@, 36, 4) == acl
            &&& wire::field(q.hdr@, 12, 4) == q.payload@.len()
            &&& q.payload@.take(calls::utf8(o.vdi@).len() as int) == calls::utf8(o.vdi@)
            &&& o.tag matches Some(t) ==> q.payload@.subrange(
                256,
                256 + calls::utf8(t@).len() as int,
            ) == calls::utf8(t@)
            &&& o.tag is None ==> q.payload@[256] == 0
        },
{
    wire::lemma_vdi_req_fields(SD_OP_GET_VDI_INFO, SD_FLAG_CMD_WRITE, 512, 0, 0, acl);
    if s is Send {
        let tag = match o.tag {
            Some(t) => Some(t@),
            None => None,
        };
        calls::lemma_name_payload(o.vdi@, tag);
    }
}

/// The lock is asked for the address that is to hold it, under the ACL that the
/// VDI was looked up in, by the VDI's name.
pub proof fn lemma_registers(o: Opening, owner: SocketAddr, s: OpenStep)
    requires
        registering(o, owner, s),
        calls::name_fits(o.vdi@),
    ensures
        s matches OpenStep::Send(q) && o.built is Some && {
            &&& q.hdr@[1] == 0x19
            &&& wire::field(q.hdr@, 44, 4) == o.built->0.acl
            &&& wire::field(q.hdr@, 40, 2) == owner.port
            &&& q.hdr@.subrange(24, 40) == wire::node_addr(owner@.ip)
            &&& wire::field(q.hdr@, 12, 4) == q.payload@.len()
            &&& q.payload@.take(calls::utf8(o.vdi@).len() as int) == calls::utf8(o.vdi@)
        },
{
    let b = o.built->0;
    let h = wire::vdi_lock_req(SD_OP_REGISTER_VDI, SD_FLAG_CMD_WRITE, 512, 0, owner@, b.acl);
    wire::lemma_vdi_lock_req_fields(
        SD_OP_REGISTER_VDI,
        SD_FLAG_CMD_WRITE,
        512,
        0,
        owner@,
        b.acl,
    );
    lemma_lock_holder(SD_OP_REGISTER_VDI, SD_FLAG_CMD_WRITE, 512, 0, owner, b.acl);
    calls::lemma_name_payload(o.vdi@, None);
}

proof fn lemma_lock_holder(
    opcode: u8,
    flags: u16,
    data_length: u32,
    vid: u32,
    owner: SocketAddr,
    acl: u32,
)
    ensures
        wire::vdi_lock_req(opcode, flags, data_length, vid, owner@, acl).len() == 48,
        wire::vdi_lock_req(opcode, flags, data_length, vid, owner@, acl).subrange(24, 40)
            == wire::node_addr(owner@.ip),
        wire::vdi_lock_req(opcode, flags, data_length, vid, owner@, acl).subrange(40, 48)
            == bytes::le(owner.port as nat, 2) + bytes::zeroes(2) + bytes::le(
            acl as nat,
            4,
        ),
{
    let h = wire::vdi_lock_req(opcode, flags, data_length, vid, owner@, acl);
    bytes::lemma_le(flags as nat, 2);
    bytes::lemma_le(data_length as nat, 4);
    bytes::lemma_le(vid as nat, 4);
    bytes::lemma_le(owner.port as nat, 2);
    bytes::lemma_le(acl as nat, 4);
    assert(wire::node_addr(owner@.ip).len() == 16);
    assert(h.subrange(24, 40) =~= wire::node_addr(owner@.ip));
    assert(h.subrange(40, 48) =~= bytes::le(owner.port as nat, 2) + bytes::zeroes(2)
        + bytes::le(acl as nat, 4));
}

/// What a release gives back is what was registered: it names the same holder and
/// the same ACL, byte for byte, and the VDI by its id.
pub proof fn lemma_release_undoes_register(vid: u32, owner: SocketAddr, acl: u32)
    ensures
        ({
            let taken = wire::vdi_lock_req(
                SD_OP_REGISTER_VDI,
                SD_FLAG_CMD_WRITE,
                512,
                0,
                owner@,
                acl,
            );
            let given = wire::vdi_lock_req(SD_OP_UNREGISTER_VDI, 0, 0, vid, owner@, acl);
            &&& taken[1] == 0x19
            &&& given[1] == 0x1a
            &&& given.subrange(24, 48) == taken.subrange(24, 48)
            &&& wire::field(given, 16, 4) == vid
            &&& wire::field(given, 12, 4) == 0
        }),
{
    let taken = wire::vdi_lock_req(SD_OP_REGISTER_VDI, SD_FLAG_CMD_WRITE, 512, 0, owner@, acl);
    let given = wire::vdi_lock_req(SD_OP_UNREGISTER_VDI, 0, 0, vid, owner@, acl);
    lemma_lock_holder(SD_OP_REGISTER_VDI, SD_FLAG_CMD_WRITE, 512, 0, owner, acl);
    lemma_lock_holder(SD_OP_UNREGISTER_VDI, 0, 0, vid, owner, acl);
    wire::lemma_vdi_lock_req_fields(
        SD_OP_REGISTER_VDI,
        SD_FLAG_CMD_WRITE,
        512,
        0,
        owner@,
        acl,
    );
    wire::lemma_vdi_lock_req_fields(SD_OP_UNREGISTER_VDI, 0, 0, vid, owner@, acl);
    assert forall|i: int| 0 <= i < 24 implies given.subrange(24, 48)[i] == taken.subrange(
        24,
        48,
    )[i] by {
        if i < 16 {
            assert(given.subrange(24, 40)[i] == taken.subrange(24, 40)[i]);
        } else {
            assert(given.subrange(40, 48)[i - 16] == taken.subrange(40, 48)[i - 16]);
        }
    }
    assert(given.subrange(24, 48) =~= taken.subrange(24, 48));
}

/// A volume is what its inode says: as many blocks of 512 bytes as its size has
/// room for, in objects of two to the power of the inode's shift, written with
/// the inode's copies and at least one, and not to be written where it is a
/// snapshot. Its object map is the inode's, and reaches over all its blocks,
/// unless it is of more objects than an inode can list.
pub proof fn lemma_opened_volume(
    b: SheepdogBackend,
    o: Opening,
    acl: u32,
    vid: u32,
    shape: Shape,
    header: Seq<u8>,
    map: Seq<u8>,
    i: int,
)
    requires
        made(b, o, acl, vid, shape, map),
        shape_of(Ok(shape), header),
        header.len() == 596,
    ensures
        ({
            let size = wire::u64_at(header, 536);
            let v = b.volume;
            &&& b.vid == vid && v.vid == vid
            &&& b.acl == acl
            &&& b.addr == o.addr
            &&& b.name@ == o.vdi@
            &&& v.nr_blocks * 512 <= size < v.nr_blocks * 512 + 512
            &&& v.object_size == vstd::arithmetic::power2::pow2(header[555] as nat)
            &&& v.nr_copies >= 1 && (header[554] > 0 ==> v.nr_copies == header[554])
            &&& v.read_only <==> wire::u64_at(header, 520) != 0
            &&& inode::uuid_bytes(b.uuid) == inode::uuid_in(header)
            &&& v.data_map@.len() < 0x10_0000 ==> v.nr_blocks * 512 <= v.data_map@.len()
                * v.object_size
            &&& 0 <= i < v.data_map@.len() ==> v.data_map@[i] == wire::u32_at(map, 4 * i)
            &&& b.owner is None && !b.registered
        }),
{
    let size = wire::u64_at(header, 536);
    content::lemma_objects_of(size as nat, shape.object_size as nat);
}

/// An inode that makes no volume is refused for what is wrong with it: a shift
/// out of bounds, which is told, or a size of nothing.
pub proof fn lemma_shape_refused(r: Result<Shape, CtlError>, header: Seq<u8>)
    requires
        shape_of(r, header),
    ensures
        r is Ok <==> 9 <= header[555] <= 31 && wire::u64_at(header, 536) > 0,
        header[555] < 9 || header[555] > 31 ==> r == Err::<Shape, CtlError>(
            CtlError::BadShift { shift: header[555] },
        ),
        9 <= header[555] <= 31 && wire::u64_at(header, 536) == 0 ==> r == Err::<Shape, CtlError>(
            CtlError::ZeroSize,
        ),
{
}

} // verus!
