//! The error type of the codec: a static description of what went wrong.
use vstd::prelude::*;
use vstd::string::StringExecFns;

verus! {

/// Error type.
///
/// It carries the description given when it was made; `chain` keeps that description.
#[derive(PartialEq, Eq, Clone, Debug)]
pub struct Error {
    desc: &'static str,
}

impl Error {
    /// The description this error carries.
    pub closed spec fn description(&self) -> Seq<char> {
        self.desc@
    }

    /// An error with the given description.
    pub fn new(desc: &'static str) -> (e: Error)
        ensures
            e.description() == desc@,
    {
        Error { desc }
    }

    /// Chain error message with description.
    ///
    /// The further description is set aside: the error keeps its own.
    pub fn chain(self, desc: &'static str) -> (e: Error)
        ensures
            e == self,
    {
        let _ = desc;
        self
    }

    /// Display the error with `indent` tabs before its description.
    pub fn display_with_indent(&self, indent: u32) -> (s: String)
        ensures
            s@ == Seq::new(indent as nat, |_i: int| '\t') + self.description(),
    {
        let mut s = String::new();
        let mut i: u32 = 0;
        proof {
            reveal_strlit("\t");
        }
        while i < indent
            invariant
                i <= indent,
                s@ == Seq::new(i as nat, |_i: int| '\t'),
                "\t"@ == seq!['\t'],
            decreases indent - i,
        {
            s.append("\t");
            i = i + 1;
            assert(s@ =~= Seq::new(i as nat, |_i: int| '\t'));
        }
        s.append(self.desc);
        s
    }

    /// Error description.
    pub fn what(&self) -> (d: &'static str)
        ensures
            d@ == self.description(),
    {
        self.desc
    }

    /// The description as an owned string, as it is displayed.
    pub fn to_string(&self) -> (s: String)
        ensures
            s@ == self.description(),
    {
        let s = self.display_with_indent(0);
        assert(s@ =~= self.description());
        s
    }
}

impl From<&'static str> for Error {
    fn from(desc: &'static str) -> (e: Error)
        ensures
            e.description() == desc@,
    {
        Error { desc }
    }
}

impl vstd::std_specs::convert::FromSpecImpl<&'static str> for Error {
    open spec fn obeys_from_spec() -> bool {
        true
    }

    closed spec fn from_spec(v: &'static str) -> Error {
        Error { desc: v }
    }
}

/// An error made from a string by `From` (or `into`) carries that string as its description.
pub broadcast proof fn lemma_error_from_str(v: &'static str)
    ensures
        #[trigger] <Error as vstd::std_specs::convert::FromSpec<&'static str>>::from_spec(
            v,
        ).description() == v@,
{
}

/// The kinds of failure that an I/O source reports, under the names std gives them; `Unknown`
/// stands for every other kind.
#[derive(Clone, Copy, Debug, PartialEq, Eq, Structural)]
pub enum IoErrorKind {
    NotFound,
    PermissionDenied,
    ConnectionRefused,
    ConnectionReset,
    ConnectionAborted,
    NotConnected,
    AddrInUse,
    AddrNotAvailable,
    BrokenPipe,
    AlreadyExists,
    WouldBlock,
    InvalidInput,
    InvalidData,
    TimedOut,
    WriteZero,
    Interrupted,
    Other,
    UnexpectedEof,
    Unknown,
}

/// The description of the error that an I/O failure of `kind` becomes.
pub open spec fn io_error_description(kind: IoErrorKind) -> Seq<char> {
    match kind {
        IoErrorKind::NotFound => "io error: NotFound"@,
        IoErrorKind::PermissionDenied => "io error: PermissionDenied"@,
        IoErrorKind::ConnectionRefused => "io error: ConnectionRefused"@,
        IoErrorKind::ConnectionReset => "io error: ConnectionReset"@,
        IoErrorKind::ConnectionAborted => "io error: ConnectionAborted"@,
        IoErrorKind::NotConnected => "io error: NotConnected"@,
        IoErrorKind::AddrInUse => "io error: AddrInUse"@,
        IoErrorKind::AddrNotAvailable => "io error: AddrNotAvailable"@,
        IoErrorKind::BrokenPipe => "io error: BrokenPipe"@,
        IoErrorKind::AlreadyExists => "io error: AlreadyExists"@,
        IoErrorKind::WouldBlock => "io error: WouldBlock"@,
        IoErrorKind::InvalidInput => "io error: InvalidInput"@,
        IoErrorKind::InvalidData => "io error: InvalidData"@,
        IoErrorKind::TimedOut => "io error: TimedOut"@,
        IoErrorKind::WriteZero => "io error: WriteZero"@,
        IoErrorKind::Interrupted => "io error: Interrupted"@,
        IoErrorKind::Other => "io error: Other"@,
        IoErrorKind::UnexpectedEof => "io error: UnexpectedEof"@,
        IoErrorKind::Unknown => "io error: Unknown"@,
    }
}

/// The error that an I/O failure of `kind` becomes.
pub fn io_error(kind: IoErrorKind) -> (e: Error)
    ensures
        e.description() == io_error_description(kind),
{
    match kind {
        IoErrorKind::NotFound => Error::new("io error: NotFound"),
        IoErrorKind::PermissionDenied => Error::new("io error: PermissionDenied"),
        IoErrorKind::ConnectionRefused => Error::new("io error: ConnectionRefused"),
        IoErrorKind::ConnectionReset => Error::new("io error: ConnectionReset"),
        IoErrorKind::ConnectionAborted => Error::new("io error: ConnectionAborted"),
        IoErrorKind::NotConnected => Error::new("io error: NotConnected"),
        IoErrorKind::AddrInUse => Error::new("io error: AddrInUse"),
        IoErrorKind::AddrNotAvailable => Error::new("io error: AddrNotAvailable"),
        IoErrorKind::BrokenPipe => Error::new("io error: BrokenPipe"),
        IoErrorKind::AlreadyExists => Error::new("io error: AlreadyExists"),
        IoErrorKind::WouldBlock => Error::new("io error: WouldBlock"),
        IoErrorKind::InvalidInput => Error::new("io error: InvalidInput"),
        IoErrorKind::InvalidData => Error::new("io error: InvalidData"),
        IoErrorKind::TimedOut => Error::new("io error: TimedOut"),
        IoErrorKind::WriteZero => Error::new("io error: WriteZero"),
        IoErrorKind::Interrupted => Error::new("io error: Interrupted"),
        IoErrorKind::Other => Error::new("io error: Other"),
        IoErrorKind::UnexpectedEof => Error::new("io error: UnexpectedEof"),
        IoErrorKind::Unknown => Error::new("io error: Unknown"),
    }
}

} // verus!
