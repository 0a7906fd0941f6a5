//! Errors of the simulated operating system.
use crate::addr::{IpAddr, SocketAddr};
use crate::text;
use vstd::prelude::*;

verus! {

/// The category of an error, as the operating system's interface divides them.
#[derive(Clone, Copy, Debug, PartialEq, Eq, Structural)]
pub enum ErrorKind {
    /// Something was not found.
    NotFound,
    /// The handle does not permit the operation.
    PermissionDenied,
    /// Something exists already.
    AlreadyExists,
    /// An argument is not valid.
    InvalidInput,
    /// The data is not valid.
    InvalidData,
    /// The input ended too early.
    UnexpectedEof,
    /// The address is taken.
    AddrInUse,
    /// The address is not one of the host's.
    AddrNotAvailable,
    /// The peer does not take the connection.
    ConnectionRefused,
    /// The peer has ended the connection.
    ConnectionReset,
    /// The stream is closed for writing.
    BrokenPipe,
    /// The socket has no connection.
    NotConnected,
    /// The operation would have to wait.
    WouldBlock,
    /// Any other error.
    Other,
}

/// What went wrong.
#[derive(Clone, Copy, Debug, PartialEq, Eq, Structural)]
pub enum Cause {
    /// Nothing is at the path.
    NoSuchEntry,
    /// Something is at the path already.
    EntryExists,
    /// A directory is in the way.
    IsDirectory,
    /// Something would be renamed to a place below itself.
    IntoItself,
    /// A file or symbolic link is in the way.
    NotDirectory,
    /// The directory has entries.
    DirectoryNotEmpty,
    /// The disk is full.
    NoSpace,
    /// Neither a file nor a directory is at the path.
    FileOrDirectoryNotFound,
    /// No directory is at the path.
    DirectoryNotFound,
    /// No file is at the path.
    FileNotFound,
    /// The directory for the new file does not exist.
    ParentNotFound,
    /// A file is at the path already.
    FileExists,
    /// The file is not open any more.
    HandleNotFound,
    /// The file was not opened for reading.
    NotReadable,
    /// The file was not opened for writing.
    NotWritable,
    /// The disk failed.
    Io,
    /// Unbuffered input or output is not aligned.
    Misaligned,
    /// The file of a seek is not open any more.
    SeekFileNotFound,
    /// A seek goes before the start of the file.
    NegativeSeek,
    /// A read reached the end of the file before the buffer was full.
    EndOfFile,
    /// The bytes are not UTF-8.
    NotUtf8,
    /// Too many symbolic links were followed.
    TooManyLinks,
    /// A symbolic link was met twice.
    LinkLoop,
    /// Nothing is at the end of the path.
    PathNotFound,
    /// A socket is bound to the address already.
    AddressInUse(SocketAddr),
    /// The host does not serve the address.
    AddressNotSupported(SocketAddr),
    /// The host has no interface with the address.
    InterfaceNotSupported(IpAddr),
    /// The host has no interface with the number.
    InterfaceIndexNotSupported(u32),
    /// Nothing at the address takes the connection.
    RefusedBy(SocketAddr),
    /// No host has the address.
    Refused,
    /// The connection was reset.
    Reset,
    /// The stream is closed for writing.
    ClosedForWrites,
    /// The stream is not connected.
    Unconnected,
    /// Nothing has arrived at the socket.
    QueueEmpty,
    /// Another task is reading from the socket.
    SocketBusy,
    /// The socket may not send to all hosts.
    BroadcastDisabled,
    /// The address is not that of a group.
    NotMulticast,
    /// The socket is not in the group.
    NotJoined,
    /// The two addresses are of different kinds.
    VersionMismatch,
    /// The text has no colon before a port.
    InvalidSocketAddress,
    /// The text after the last colon is no port.
    InvalidPort,
    /// No host has the name.
    HostNotFound,
    /// The simulation took longer than it may.
    DurationExceeded,
    /// The software of a host failed.
    SoftwareFailed,
}

/// An error.
#[derive(Clone, Copy, Debug, PartialEq, Eq, Structural)]
pub struct Error {
    /// Its category.
    pub kind: ErrorKind,
    /// What went wrong.
    pub cause: Cause,
}

impl Error {
    /// An error of the given category.
    pub fn new(kind: ErrorKind, cause: Cause) -> (r: Error)
        ensures
            r == (Error { kind, cause }),
    {
        Error { kind, cause }
    }

    /// An error that fits no category.
    pub fn other(cause: Cause) -> (r: Error)
        ensures
            r == (Error { kind: ErrorKind::Other, cause }),
    {
        Error { kind: ErrorKind::Other, cause }
    }

    /// An error that says that something was not found.
    pub fn not_found(cause: Cause) -> (r: Error)
        ensures
            r == (Error { kind: ErrorKind::NotFound, cause }),
    {
        Error { kind: ErrorKind::NotFound, cause }
    }

    /// The text of the error.
    pub fn message(&self) -> (r: &'static str)
        ensures
            r@ == self.cause.text(),
    {
        match self.cause {
            Cause::NoSuchEntry => "No such file or directory",
            Cause::EntryExists => "File exists",
            Cause::IntoItself => "Invalid argument",
            Cause::IsDirectory => "Is a directory",
            Cause::NotDirectory => "Not a directory",
            Cause::DirectoryNotEmpty => "Directory not empty",
            Cause::NoSpace => "No space left on device",
            Cause::FileOrDirectoryNotFound => "file or directory not found",
            Cause::DirectoryNotFound => "directory not found",
            Cause::FileNotFound => "file not found",
            Cause::ParentNotFound => "parent directory not found",
            Cause::FileExists => "file already exists",
            Cause::HandleNotFound => "file handle not found",
            Cause::NotReadable => "file not opened for reading",
            Cause::NotWritable => "file not opened for writing",
            Cause::Io => "I/O error",
            Cause::Misaligned => "Invalid argument",
            Cause::SeekFileNotFound => "file not found",
            Cause::NegativeSeek => "invalid seek to a negative position",
            Cause::EndOfFile => "failed to fill whole buffer",
            Cause::NotUtf8 => "invalid utf-8",
            Cause::TooManyLinks => "too many levels of symbolic links",
            Cause::LinkLoop => "symbolic link loop detected",
            Cause::PathNotFound => "path does not exist",
            Cause::AddressInUse(_) => "Address already in use",
            Cause::AddressNotSupported(_) => "address is not supported",
            Cause::InterfaceNotSupported(_) => "interface is not supported",
            Cause::InterfaceIndexNotSupported(_) => "interface is not supported",
            Cause::RefusedBy(_) => "Connection refused",
            Cause::Refused => "Connection refused",
            Cause::Reset => "Connection reset",
            Cause::ClosedForWrites => "Broken pipe",
            Cause::Unconnected => "Socket is not connected",
            Cause::QueueEmpty => "socket receive queue is empty",
            Cause::SocketBusy => "socket is being read by another task",
            Cause::BroadcastDisabled => "Broadcast is not enabled",
            Cause::NotMulticast => "Invalid multicast address",
            Cause::NotJoined => "Leaving a multicast group that has not been previously joined",
            Cause::VersionMismatch => "IP version mismatch",
            Cause::InvalidSocketAddress => "invalid socket address",
            Cause::InvalidPort => "invalid port value",
            Cause::HostNotFound => "no ip address found for a hostname",
            Cause::DurationExceeded => "Ran for duration without completing",
            Cause::SoftwareFailed => "software failed",
        }
    }
}

impl Cause {
    /// The text of the error.
    pub open spec fn text(self) -> Seq<char> {
        match self {
            Cause::NoSuchEntry => "No such file or directory"@,
            Cause::EntryExists => "File exists"@,
            Cause::IntoItself => "Invalid argument"@,
            Cause::IsDirectory => "Is a directory"@,
            Cause::NotDirectory => "Not a directory"@,
            Cause::DirectoryNotEmpty => "Directory not empty"@,
            Cause::NoSpace => "No space left on device"@,
            Cause::FileOrDirectoryNotFound => "file or directory not found"@,
            Cause::DirectoryNotFound => "directory not found"@,
            Cause::FileNotFound => "file not found"@,
            Cause::ParentNotFound => "parent directory not found"@,
            Cause::FileExists => "file already exists"@,
            Cause::HandleNotFound => "file handle not found"@,
            Cause::NotReadable => "file not opened for reading"@,
            Cause::NotWritable => "file not opened for writing"@,
            Cause::Io => "I/O error"@,
            Cause::Misaligned => "Invalid argument"@,
            Cause::SeekFileNotFound => "file not found"@,
            Cause::NegativeSeek => "invalid seek to a negative position"@,
            Cause::EndOfFile => "failed to fill whole buffer"@,
            Cause::NotUtf8 => "invalid utf-8"@,
            Cause::TooManyLinks => "too many levels of symbolic links"@,
            Cause::LinkLoop => "symbolic link loop detected"@,
            Cause::PathNotFound => "path does not exist"@,
            Cause::AddressInUse(_) => "Address already in use"@,
            Cause::AddressNotSupported(_) => "address is not supported"@,
            Cause::InterfaceNotSupported(_) => "interface is not supported"@,
            Cause::InterfaceIndexNotSupported(_) => "interface is not supported"@,
            Cause::RefusedBy(_) => "Connection refused"@,
            Cause::Refused => "Connection refused"@,
            Cause::Reset => "Connection reset"@,
            Cause::ClosedForWrites => "Broken pipe"@,
            Cause::Unconnected => "Socket is not connected"@,
            Cause::QueueEmpty => "socket receive queue is empty"@,
            Cause::SocketBusy => "socket is being read by another task"@,
            Cause::BroadcastDisabled => "Broadcast is not enabled"@,
            Cause::NotMulticast => "Invalid multicast address"@,
            Cause::NotJoined => "Leaving a multicast group that has not been previously joined"@,
            Cause::VersionMismatch => "IP version mismatch"@,
            Cause::InvalidSocketAddress => "invalid socket address"@,
            Cause::InvalidPort => "invalid port value"@,
            Cause::HostNotFound => "no ip address found for a hostname"@,
            Cause::DurationExceeded => "Ran for duration without completing"@,
            Cause::SoftwareFailed => "software failed"@,
        }
    }
}

/// ` is not supported`
pub open spec fn unsupported_text() -> Seq<u8> {
    seq![32, 105, 115, 32, 110, 111, 116, 32, 115, 117, 112, 112, 111, 114, 116, 101, 100]
}

/// `interface `
pub open spec fn interface_text() -> Seq<u8> {
    seq![105, 110, 116, 101, 114, 102, 97, 99, 101, 32]
}

impl Cause {
    /// What the error says of the address that it is about, if it is about one.
    pub open spec fn detail(self) -> Option<Seq<u8>> {
        match self {
            Cause::AddressInUse(a) => Some(text::text_socket(a)),
            Cause::RefusedBy(a) => Some(text::text_socket(a)),
            Cause::AddressNotSupported(a) => Some(text::text_socket(a) + unsupported_text()),
            Cause::InterfaceNotSupported(a) => Some(text::text_ip(a) + unsupported_text()),
            Cause::InterfaceIndexNotSupported(n) => Some(
                interface_text() + text::numeral(n as int, 10) + unsupported_text(),
            ),
            _ => None,
        }
    }
}

fn push_unsupported(out: &mut Vec<u8>)
    ensures
        final(out)@ == old(out)@ + unsupported_text(),
{
    let ghost before = out@;
    let word: [u8; 17] = [
        32, 105, 115, 32, 110, 111, 116, 32, 115, 117, 112, 112, 111, 114, 116, 101, 100,
    ];
    let mut i: usize = 0;
    while i < 17
        invariant
            i <= 17,
            word@ =~= unsupported_text(),
            out@ == before + unsupported_text().take(i as int),
        decreases 17 - i,
    {
        out.push(word[i]);
        i = i + 1;
        assert(out@ =~= before + unsupported_text().take(i as int));
    }
    assert(unsupported_text().take(17) =~= unsupported_text());
}

impl Error {
    /// What the error says of the address that it is about, if it is about one.
    pub fn detail(&self) -> (r: Option<Vec<u8>>)
        ensures
            match r {
                Some(text) => self.cause.detail() == Some(text@),
                None => self.cause.detail() is None,
            },
    {
        match self.cause {
            Cause::AddressInUse(a) => Some(text::socket_text(a)),
            Cause::RefusedBy(a) => Some(text::socket_text(a)),
            Cause::AddressNotSupported(a) => {
                let mut out = text::socket_text(a);
                push_unsupported(&mut out);
                Some(out)
            },
            Cause::InterfaceNotSupported(a) => {
                let mut out = text::ip_text(a);
                push_unsupported(&mut out);
                Some(out)
            },
            Cause::InterfaceIndexNotSupported(n) => {
                let mut out: Vec<u8> = vec![105, 110, 116, 101, 114, 102, 97, 99, 101, 32];
                assert(out@ =~= interface_text());
                text::push_number(&mut out, n, 10);
                push_unsupported(&mut out);
                Some(out)
            },
            _ => None,
        }
    }
}

} // verus!
