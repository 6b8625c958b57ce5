//! Error numbers.
use vstd::prelude::*;

verus! {

/// An error number.
#[derive(Clone, Copy, PartialEq, Eq, Structural, Debug)]
pub enum Errno {
    /// No error occurred
    NoError,
    /// Operation not permitted
    Perm,
    /// No such file or directory
    NoEnt,
    /// No such process
    Srch,
    /// Interrupted system call
    Intr,
    /// Input/output error
    IO,
    /// Device not configured
    NXIo,
    /// Argument list too long
    TooBig,
    /// Exec format error
    NoExec,
    /// Bad file descriptor
    BadF,
    /// No child processes
    Child,
    /// Resource deadlock avoided
    DeadLk,
    /// Cannot allocate memory
    NoMem,
    /// Permission denied
    Access,
    /// Bad address
    Fault,
    /// Block device required
    NotBlk,
    /// Device busy
    Busy,
    /// File exists
    Exist,
    /// Cross-device link
    XDev,
    /// Operation not supported by device
    NoDev,
    /// Not a directory
    NotDir,
    /// Is a directory
    IsDir,
    /// Invalid argument
    Inval,
    /// Too many open files in system
    NFile,
    /// Too many open files
    MFile,
    /// Inappropriate ioctl for device
    NoTty,
    /// Text file busy
    TxtBsy,
    /// File too large
    FBig,
    /// No space left on device
    NoSpc,
    /// Illegal seek
    SPipe,
    /// Read-only file system
    ROFS,
    /// Too many links
    MLink,
    /// Broken pipe
    Pipe,
    /// Numerical argument out of domain
    Dom,
    /// Result too large
    Range,
    /// Resource temporarily unavailable
    Again,
    /// Operation now in progress
    InProgress,
    /// Operation already in progress
    Already,
    /// Socket operation on non-socket
    NotSock,
    /// Destination address required
    DestAddrReq,
    /// Message too long
    MsgSize,
    /// Protocol wrong type for socket
    ProtoType,
    /// Protocol not available
    NoProtoOpt,
    /// Protocol not supported
    ProtoNoSupport,
    /// Socket type not supported
    SocketNoSupport,
    /// Operation not supported on socket
    OpNotSupp,
    /// Protocol family not supported
    PFNoSupport,
    /// Address family not supported by protocol family
    AFNoSupport,
    /// Address already in use
    AddrInUse,
    /// Can't assign requested address
    AddrNotAvail,
    /// Network is down
    NetDown,
    /// Network is unreachable
    NetUnreach,
    /// Network dropped connection on reset
    NetReset,
    /// Software caused connection abort
    ConnAborted,
    /// Connection reset by peer
    ConnReset,
    /// No buffer space available
    NoBufS,
    /// Socket is already connected
    IsConn,
    /// Socket is not connected
    NotConn,
    /// Can't send after socket shutdown
    Shutdown,
    /// Operation timed out
    TimedOut,
    /// Connection refused
    ConnRefused,
    /// Too many levels of symbolic links
    Loop,
    /// File name too long
    NameTooLong,
    /// Host is down
    HostDown,
    /// No route to host
    HostUnreach,
    /// Directory not empty
    NotEmpty,
    /// Too many processes
    ProcLim,
    /// Too many users
    Users,
    /// Disc quota exceeded
    DQuot,
    /// Stale NFS file handle
    Stale,
    /// RPC struct is bad
    BadRPC,
    /// RPC version wrong
    RPCMisMatch,
    /// RPC prog
    ProgUnavail,
    /// Program version wrong
    ProgMisMatch,
    /// Bad procedure for program
    ProcUnavail,
    /// No locks available
    NoLck,
    /// Function not implemented
    NoSys,
    /// * Inappropriate file type or format
    FType,
    /// Authentication error
    Auth,
    /// Need authenticator
    NeedAuth,
    /// Identifier removed
    IDRm,
    /// No message of desired type
    NoMsg,
    /// Value too large to be stored in data type
    OverFlow,
    /// Operation canceled
    Canceled,
    /// Illegal byte sequence
    IlSeq,
    /// Attribute not found
    NoAttr,
    /// Programming error
    Doofus,
    /// Bad message
    BadMsg,
    /// Multihop attempted
    Multihop,
    /// Link has been severed
    NoLink,
    /// Protocol error
    Proto,
    /// Capabilities insufficient
    NotCapable,
    /// Not permitted in capability mode
    CapMode,
    /// State not recoverable
    NotRecoverable,
    /// Previous owner died
    OwnerDead,
    /// Not supported
    NotSup,
}

/// The number of error `e`.
pub open spec fn errno_code(e: Errno) -> i32 {
    match e {
        Errno::NoError => 0,
        Errno::Perm => 1,
        Errno::NoEnt => 2,
        Errno::Srch => 3,
        Errno::Intr => 4,
        Errno::IO => 5,
        Errno::NXIo => 6,
        Errno::TooBig => 7,
        Errno::NoExec => 8,
        Errno::BadF => 9,
        Errno::Child => 10,
        Errno::DeadLk => 11,
        Errno::NoMem => 12,
        Errno::Access => 13,
        Errno::Fault => 14,
        Errno::NotBlk => 15,
        Errno::Busy => 16,
        Errno::Exist => 17,
        Errno::XDev => 18,
        Errno::NoDev => 19,
        Errno::NotDir => 20,
        Errno::IsDir => 21,
        Errno::Inval => 22,
        Errno::NFile => 23,
        Errno::MFile => 24,
        Errno::NoTty => 25,
        Errno::TxtBsy => 26,
        Errno::FBig => 27,
        Errno::NoSpc => 28,
        Errno::SPipe => 29,
        Errno::ROFS => 30,
        Errno::MLink => 31,
        Errno::Pipe => 32,
        Errno::Dom => 33,
        Errno::Range => 34,
        Errno::Again => 35,
        Errno::InProgress => 36,
        Errno::Already => 37,
        Errno::NotSock => 38,
        Errno::DestAddrReq => 39,
        Errno::MsgSize => 40,
        Errno::ProtoType => 41,
        Errno::NoProtoOpt => 42,
        Errno::ProtoNoSupport => 43,
        Errno::SocketNoSupport => 44,
        Errno::OpNotSupp => 45,
        Errno::PFNoSupport => 46,
        Errno::AFNoSupport => 47,
        Errno::AddrInUse => 48,
        Errno::AddrNotAvail => 49,
        Errno::NetDown => 50,
        Errno::NetUnreach => 51,
        Errno::NetReset => 52,
        Errno::ConnAborted => 53,
        Errno::ConnReset => 54,
        Errno::NoBufS => 55,
        Errno::IsConn => 56,
        Errno::NotConn => 57,
        Errno::Shutdown => 58,
        Errno::TimedOut => 60,
        Errno::ConnRefused => 61,
        Errno::Loop => 62,
        Errno::NameTooLong => 63,
        Errno::HostDown => 64,
        Errno::HostUnreach => 65,
        Errno::NotEmpty => 66,
        Errno::ProcLim => 67,
        Errno::Users => 68,
        Errno::DQuot => 69,
        Errno::Stale => 70,
        Errno::BadRPC => 72,
        Errno::RPCMisMatch => 73,
        Errno::ProgUnavail => 74,
        Errno::ProgMisMatch => 75,
        Errno::ProcUnavail => 76,
        Errno::NoLck => 77,
        Errno::NoSys => 78,
        Errno::FType => 79,
        Errno::Auth => 80,
        Errno::NeedAuth => 81,
        Errno::IDRm => 82,
        Errno::NoMsg => 83,
        Errno::OverFlow => 84,
        Errno::Canceled => 85,
        Errno::IlSeq => 86,
        Errno::NoAttr => 87,
        Errno::Doofus => 88,
        Errno::BadMsg => 89,
        Errno::Multihop => 90,
        Errno::NoLink => 91,
        Errno::Proto => 92,
        Errno::NotCapable => 93,
        Errno::CapMode => 94,
        Errno::NotRecoverable => 95,
        Errno::OwnerDead => 96,
        Errno::NotSup => 97,
    }
}

impl Errno {
    /// The number of the error.
    pub fn code(&self) -> (c: i32)
        ensures
            c == errno_code(*self),
    {
        match self {
            Errno::NoError => 0,
            Errno::Perm => 1,
            Errno::NoEnt => 2,
            Errno::Srch => 3,
            Errno::Intr => 4,
            Errno::IO => 5,
            Errno::NXIo => 6,
            Errno::TooBig => 7,
            Errno::NoExec => 8,
            Errno::BadF => 9,
            Errno::Child => 10,
            Errno::DeadLk => 11,
            Errno::NoMem => 12,
            Errno::Access => 13,
            Errno::Fault => 14,
            Errno::NotBlk => 15,
            Errno::Busy => 16,
            Errno::Exist => 17,
            Errno::XDev => 18,
            Errno::NoDev => 19,
            Errno::NotDir => 20,
            Errno::IsDir => 21,
            Errno::Inval => 22,
            Errno::NFile => 23,
            Errno::MFile => 24,
            Errno::NoTty => 25,
            Errno::TxtBsy => 26,
            Errno::FBig => 27,
            Errno::NoSpc => 28,
            Errno::SPipe => 29,
            Errno::ROFS => 30,
            Errno::MLink => 31,
            Errno::Pipe => 32,
            Errno::Dom => 33,
            Errno::Range => 34,
            Errno::Again => 35,
            Errno::InProgress => 36,
            Errno::Already => 37,
            Errno::NotSock => 38,
            Errno::DestAddrReq => 39,
            Errno::MsgSize => 40,
            Errno::ProtoType => 41,
            Errno::NoProtoOpt => 42,
            Errno::ProtoNoSupport => 43,
            Errno::SocketNoSupport => 44,
            Errno::OpNotSupp => 45,
            Errno::PFNoSupport => 46,
            Errno::AFNoSupport => 47,
            Errno::AddrInUse => 48,
            Errno::AddrNotAvail => 49,
            Errno::NetDown => 50,
            Errno::NetUnreach => 51,
            Errno::NetReset => 52,
            Errno::ConnAborted => 53,
            Errno::ConnReset => 54,
            Errno::NoBufS => 55,
            Errno::IsConn => 56,
            Errno::NotConn => 57,
            Errno::Shutdown => 58,
            Errno::TimedOut => 60,
            Errno::ConnRefused => 61,
            Errno::Loop => 62,
            Errno::NameTooLong => 63,
            Errno::HostDown => 64,
            Errno::HostUnreach => 65,
            Errno::NotEmpty => 66,
            Errno::ProcLim => 67,
            Errno::Users => 68,
            Errno::DQuot => 69,
            Errno::Stale => 70,
            Errno::BadRPC => 72,
            Errno::RPCMisMatch => 73,
            Errno::ProgUnavail => 74,
            Errno::ProgMisMatch => 75,
            Errno::ProcUnavail => 76,
            Errno::NoLck => 77,
            Errno::NoSys => 78,
            Errno::FType => 79,
            Errno::Auth => 80,
            Errno::NeedAuth => 81,
            Errno::IDRm => 82,
            Errno::NoMsg => 83,
            Errno::OverFlow => 84,
            Errno::Canceled => 85,
            Errno::IlSeq => 86,
            Errno::NoAttr => 87,
            Errno::Doofus => 88,
            Errno::BadMsg => 89,
            Errno::Multihop => 90,
            Errno::NoLink => 91,
            Errno::Proto => 92,
            Errno::NotCapable => 93,
            Errno::CapMode => 94,
            Errno::NotRecoverable => 95,
            Errno::OwnerDead => 96,
            Errno::NotSup => 97,
        }
    }
}

} // verus!
