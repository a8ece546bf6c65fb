//! What can go wrong between a target and the cluster.

use vstd::prelude::*;

use crate::sheepdog::wire::{SD_MAX_COPIES, SD_VDI_STATE_MAX};
use crate::text;
use crate::text::{say, say_hex, say_number};

verus! {

/// The kind of a failure, as an IO error would class it.
#[derive(Debug, Clone, Copy, PartialEq, Eq, Structural)]
pub enum Kind {
    /// The request cannot be made.
    InvalidInput,
    /// What it names is not there.
    NotFound,
    /// Somebody else holds it.
    ResourceBusy,
    /// It is not to be had from here.
    PermissionDenied,
    /// There is no room for another.
    QuotaExceeded,
    /// The answer makes no sense.
    InvalidData,
    /// The name means something else now.
    StaleHandle,
    /// Anything else.
    Other,
}

/// A failed control request.
#[derive(Debug, PartialEq, Eq)]
pub enum CtlError {
    /// The VDI name is empty or too long.
    InvalidVdiName,
    /// The ACL name is empty or too long.
    InvalidAclName,
    /// The snapshot tag is too long.
    TagTooLong,
    /// A lookup found no VDI.
    NoSuchVdi,
    /// A lookup found no such tag.
    NoSuchTag,
    /// A lookup found the VDI locked.
    Locked,
    /// A lookup was turned away.
    Denied {
        /// The ACL it ran under.
        acl: u32,
    },
    /// A lookup failed otherwise.
    LookupFailed {
        /// The result.
        res: u32,
    },
    /// The name is a volume's.
    NotAnAcl {
        /// The name.
        name: String,
    },
    /// An object could not be read.
    ReadFailed {
        /// The result.
        res: u32,
    },
    /// The VDI bitmap could not be read.
    BitmapFailed {
        /// The result.
        res: u32,
    },
    /// The VDI state table could not be read.
    StatesFailed {
        /// The result.
        res: u32,
    },
    /// The VDI state table is not whole records.
    StatesRagged {
        /// Bytes of it.
        len: usize,
    },
    /// The VDI state table does not end.
    StatesEndless,
    /// The inode's object size is out of range.
    BadShift {
        /// log2 of it.
        shift: u8,
    },
    /// The volume has no size.
    ZeroSize,
    /// A registration found no VDI.
    NoVdiNamed {
        /// The name.
        vdi: String,
        /// The ACL.
        acl: u32,
    },
    /// A registration found the VDI locked the other way round.
    VdiLocked {
        /// The name.
        vdi: String,
    },
    /// A registration was turned away.
    VdiDenied {
        /// The name.
        vdi: String,
        /// The ACL.
        acl: u32,
    },
    /// There is no participant slot left.
    TooManyHolders {
        /// The name.
        vdi: String,
    },
    /// A registration failed otherwise.
    RegisterFailed {
        /// The result.
        res: u32,
    },
    /// Whether an object is local could not be told.
    ExistFailed {
        /// The object.
        oid: u64,
        /// The result.
        res: u32,
    },
    /// The name now is another VDI's.
    Stale {
        /// The name.
        vdi: String,
        /// The VDI it names.
        now: u32,
        /// The one that is served.
        served: u32,
    },
    /// A reply is longer than there was room for.
    PayloadTooLong {
        /// Bytes of it.
        len: usize,
        /// Room for it.
        room: usize,
    },
}

/// The kind of a failure.
pub open spec fn kind_of(e: CtlError) -> Kind {
    match e {
        CtlError::InvalidVdiName
        | CtlError::InvalidAclName
        | CtlError::TagTooLong
        | CtlError::NotAnAcl { .. } => Kind::InvalidInput,
        CtlError::NoSuchVdi | CtlError::NoSuchTag | CtlError::NoVdiNamed { .. } => Kind::NotFound,
        CtlError::Locked | CtlError::VdiLocked { .. } => Kind::ResourceBusy,
        CtlError::Denied { .. } | CtlError::VdiDenied { .. } => Kind::PermissionDenied,
        CtlError::TooManyHolders { .. } => Kind::QuotaExceeded,
        CtlError::StatesRagged { .. }
        | CtlError::BadShift { .. }
        | CtlError::ZeroSize
        | CtlError::PayloadTooLong { .. } => Kind::InvalidData,
        CtlError::Stale { .. } => Kind::StaleHandle,
        _ => Kind::Other,
    }
}

/// `n` in hexadecimal after `0x`.
pub open spec fn prefixed_hex(n: nat) -> Seq<char> {
    "0x"@ + text::lower_hex(n)
}

/// What a failure says.
pub open spec fn message_of(e: CtlError) -> Seq<char> {
    match e {
        CtlError::InvalidVdiName => "invalid VDI name"@,
        CtlError::InvalidAclName => "invalid ACL name"@,
        CtlError::TagTooLong => "tag too long"@,
        CtlError::NoSuchVdi => "no such VDI"@,
        CtlError::NoSuchTag => "no such snapshot tag"@,
        CtlError::Locked => "VDI is locked incompatibly by another client"@,
        CtlError::Denied { acl } => "VDI is not reachable under ACL "@ + prefixed_hex(acl as nat),
        CtlError::LookupFailed { res } => "VDI lookup failed: SD_RES "@ + prefixed_hex(res as nat),
        CtlError::NotAnAcl { name } => "'"@ + name@ + "' is an ordinary VDI, not an ACL object"@,
        CtlError::ReadFailed { res } => "READ_OBJ failed: SD_RES "@ + prefixed_hex(res as nat),
        CtlError::BitmapFailed { res } => "READ_VDIS failed: SD_RES "@ + prefixed_hex(res as nat),
        CtlError::StatesFailed { res } => "GET_VDI_COPIES failed: SD_RES "@ + prefixed_hex(
            res as nat,
        ),
        CtlError::StatesRagged { len } => "GET_VDI_COPIES returned "@ + text::decimal(len as nat)
            + " bytes, not whole vdi_state records"@,
        CtlError::StatesEndless => "GET_VDI_COPIES wants more than "@ + text::decimal(
            SD_VDI_STATE_MAX as nat,
        ) + " records"@,
        CtlError::BadShift { shift } => "inode block_size_shift "@ + text::decimal(shift as nat)
            + " out of range"@,
        CtlError::ZeroSize => "VDI has zero size"@,
        CtlError::NoVdiNamed { vdi, acl } => "no VDI named '"@ + vdi@ + "' under ACL "@
            + prefixed_hex(acl as nat),
        CtlError::VdiLocked { vdi } => "VDI '"@ + vdi@
            + "' is locked incompatibly by another client"@,
        CtlError::VdiDenied { vdi, acl } => "VDI '"@ + vdi@ + "' is not reachable under ACL "@
            + prefixed_hex(acl as nat),
        CtlError::TooManyHolders { vdi } => "VDI '"@ + vdi@ + "' already has "@ + text::decimal(
            SD_MAX_COPIES as nat,
        ) + " registered holders"@,
        CtlError::RegisterFailed { res } => "REGISTER_VDI failed: SD_RES "@ + prefixed_hex(
            res as nat,
        ),
        CtlError::ExistFailed { oid, res } => "EXIST("@ + prefixed_hex(oid as nat)
            + ") failed: SD_RES "@ + prefixed_hex(res as nat),
        CtlError::Stale { vdi, now, served } => "VDI '"@ + vdi@ + "' is now "@ + text::lower_hex(
            now as nat,
        ) + ", not the "@ + text::lower_hex(served as nat) + " this namespace serves"@,
        CtlError::PayloadTooLong { len, room } => "response payload "@ + text::decimal(len as nat)
            + " exceeds the "@ + text::decimal(room as nat) + " requested"@,
    }
}

fn say_prefixed(s: &mut String, n: u64)
    ensures
        final(s)@ == old(s)@ + prefixed_hex(n as nat),
{
    let ghost before = s@;
    say(s, "0x");
    say_hex(s, n);
    assert(s@ =~= before + prefixed_hex(n as nat));
}

impl CtlError {
    /// The kind of the failure.
    pub fn kind(&self) -> (r: Kind)
        ensures
            r == kind_of(*self),
    {
        match self {
            CtlError::InvalidVdiName => Kind::InvalidInput,
            CtlError::InvalidAclName => Kind::InvalidInput,
            CtlError::TagTooLong => Kind::InvalidInput,
            CtlError::NotAnAcl { .. } => Kind::InvalidInput,
            CtlError::NoSuchVdi => Kind::NotFound,
            CtlError::NoSuchTag => Kind::NotFound,
            CtlError::NoVdiNamed { .. } => Kind::NotFound,
            CtlError::Locked => Kind::ResourceBusy,
            CtlError::VdiLocked { .. } => Kind::ResourceBusy,
            CtlError::Denied { .. } => Kind::PermissionDenied,
            CtlError::VdiDenied { .. } => Kind::PermissionDenied,
            CtlError::TooManyHolders { .. } => Kind::QuotaExceeded,
            CtlError::StatesRagged { .. } => Kind::InvalidData,
            CtlError::BadShift { .. } => Kind::InvalidData,
            CtlError::ZeroSize => Kind::InvalidData,
            CtlError::PayloadTooLong { .. } => Kind::InvalidData,
            CtlError::Stale { .. } => Kind::StaleHandle,
            CtlError::LookupFailed { .. } => Kind::Other,
            CtlError::ReadFailed { .. } => Kind::Other,
            CtlError::BitmapFailed { .. } => Kind::Other,
            CtlError::StatesFailed { .. } => Kind::Other,
            CtlError::StatesEndless => Kind::Other,
            CtlError::RegisterFailed { .. } => Kind::Other,
            CtlError::ExistFailed { .. } => Kind::Other,
        }
    }

    /// What the failure says.
    pub fn message(&self) -> (r: String)
        ensures
            r@ == message_of(*self),
    {
        let mut s: String = String::new();
        assert(s@ =~= seq![]);
        match self {
            CtlError::InvalidVdiName => say(&mut s, "invalid VDI name"),
            CtlError::InvalidAclName => say(&mut s, "invalid ACL name"),
            CtlError::TagTooLong => say(&mut s, "tag too long"),
            CtlError::NoSuchVdi => say(&mut s, "no such VDI"),
            CtlError::NoSuchTag => say(&mut s, "no such snapshot tag"),
            CtlError::Locked => say(&mut s, "VDI is locked incompatibly by another client"),
            CtlError::Denied { acl } => {
                say(&mut s, "VDI is not reachable under ACL ");
                say_prefixed(&mut s, *acl as u64);
            },
            CtlError::LookupFailed { res } => {
                say(&mut s, "VDI lookup failed: SD_RES ");
                say_prefixed(&mut s, *res as u64);
            },
            CtlError::NotAnAcl { name } => {
                say(&mut s, "'");
                say(&mut s, name.as_str());
                say(&mut s, "' is an ordinary VDI, not an ACL object");
            },
            CtlError::ReadFailed { res } => {
                say(&mut s, "READ_OBJ failed: SD_RES ");
                say_prefixed(&mut s, *res as u64);
            },
            CtlError::BitmapFailed { res } => {
                say(&mut s, "READ_VDIS failed: SD_RES ");
                say_prefixed(&mut s, *res as u64);
            },
            CtlError::StatesFailed { res } => {
                say(&mut s, "GET_VDI_COPIES failed: SD_RES ");
                say_prefixed(&mut s, *res as u64);
            },
            CtlError::StatesRagged { len } => {
                say(&mut s, "GET_VDI_COPIES returned ");
                say_number(&mut s, *len as u64);
                say(&mut s, " bytes, not whole vdi_state records");
            },
            CtlError::StatesEndless => {
                say(&mut s, "GET_VDI_COPIES wants more than ");
                say_number(&mut s, SD_VDI_STATE_MAX as u64);
                say(&mut s, " records");
            },
            CtlError::BadShift { shift } => {
                say(&mut s, "inode block_size_shift ");
                say_number(&mut s, *shift as u64);
                say(&mut s, " out of range");
            },
            CtlError::ZeroSize => say(&mut s, "VDI has zero size"),
            CtlError::NoVdiNamed { vdi, acl } => {
                say(&mut s, "no VDI named '");
                say(&mut s, vdi.as_str());
                say(&mut s, "' under ACL ");
                say_prefixed(&mut s, *acl as u64);
            },
            CtlError::VdiLocked { vdi } => {
                say(&mut s, "VDI '");
                say(&mut s, vdi.as_str());
                say(&mut s, "' is locked incompatibly by another client");
            },
            CtlError::VdiDenied { vdi, acl } => {
                say(&mut s, "VDI '");
                say(&mut s, vdi.as_str());
                say(&mut s, "' is not reachable under ACL ");
                say_prefixed(&mut s, *acl as u64);
            },
            CtlError::TooManyHolders { vdi } => {
                say(&mut s, "VDI '");
                say(&mut s, vdi.as_str());
                say(&mut s, "' already has ");
                say_number(&mut s, SD_MAX_COPIES as u64);
                say(&mut s, " registered holders");
            },
            CtlError::RegisterFailed { res } => {
                say(&mut s, "REGISTER_VDI failed: SD_RES ");
                say_prefixed(&mut s, *res as u64);
            },
            CtlError::ExistFailed { oid, res } => {
                say(&mut s, "EXIST(");
                say_prefixed(&mut s, *oid);
                say(&mut s, ") failed: SD_RES ");
                say_prefixed(&mut s, *res as u64);
            },
            CtlError::Stale { vdi, now, served } => {
                say(&mut s, "VDI '");
                say(&mut s, vdi.as_str());
                say(&mut s, "' is now ");
                say_hex(&mut s, *now as u64);
                say(&mut s, ", not the ");
                say_hex(&mut s, *served as u64);
                say(&mut s, " this namespace serves");
            },
            CtlError::PayloadTooLong { len, room } => {
                say(&mut s, "response payload ");
                say_number(&mut s, *len as u64);
                say(&mut s, " exceeds the ");
                say_number(&mut s, *room as u64);
                say(&mut s, " requested");
            },
        }
        assert(s@ =~= message_of(*self));
        s
    }
}

/// Names and tags that cannot be asked for are the caller's mistake, what makes
/// no sense in an answer is the data's, and a name that has come to mean another
/// VDI is stale.
pub proof fn lemma_kinds(len: usize, room: usize, shift: u8, vdi: String, now: u32, served: u32)
    ensures
        kind_of(CtlError::InvalidVdiName) is InvalidInput,
        kind_of(CtlError::InvalidAclName) is InvalidInput,
        kind_of(CtlError::TagTooLong) is InvalidInput,
        kind_of(CtlError::NotAnAcl { name: vdi }) is InvalidInput,
        kind_of(CtlError::StatesRagged { len }) is InvalidData,
        kind_of(CtlError::BadShift { shift }) is InvalidData,
        kind_of(CtlError::ZeroSize) is InvalidData,
        kind_of(CtlError::PayloadTooLong { len, room }) is InvalidData,
        kind_of(CtlError::Stale { vdi, now, served }) is StaleHandle,
{
}

/// A message says which of two numbers is which: what came before what there was
/// room for, what a name means now before what is served, the object before the
/// result.
pub proof fn lemma_messages(
    len: usize,
    room: usize,
    vdi: String,
    now: u32,
    served: u32,
    oid: u64,
    res: u32,
)
    ensures
        text::has_prefix(
            message_of(CtlError::PayloadTooLong { len, room }),
            "response payload "@ + text::decimal(len as nat),
        ),
        text::has_prefix(
            message_of(CtlError::Stale { vdi, now, served }),
            "VDI '"@ + vdi@ + "' is now "@ + text::lower_hex(now as nat),
        ),
        text::has_prefix(
            message_of(CtlError::ExistFailed { oid, res }),
            "EXIST("@ + ("0x"@ + text::lower_hex(oid as nat)),
        ),
{
    let a = "response payload "@ + text::decimal(len as nat);
    let b = "VDI '"@ + vdi@ + "' is now "@ + text::lower_hex(now as nat);
    let c = "EXIST("@ + ("0x"@ + text::lower_hex(oid as nat));
    assert(message_of(CtlError::PayloadTooLong { len, room }).take(a.len() as int) =~= a);
    assert(message_of(CtlError::Stale { vdi, now, served }).take(b.len() as int) =~= b);
    assert(message_of(CtlError::ExistFailed { oid, res }).take(c.len() as int) =~= c);
}

} // verus!
