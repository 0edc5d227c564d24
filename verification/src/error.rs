use vstd::prelude::*;

verus! {

/// Errors raised while retrieving memos, subjects or heads.
#[derive(PartialEq, Debug)]
pub enum RetrieveError {
    NotFound,
    NotFoundByDeadline,
    AccessDenied,
    InvalidHead(InvalidHead),
    IndexNotInitialized,
    SlabError,
    MemoLineageError,
    WriteError(Box<WriteError>),
}

/// Why a head was refused.
#[derive(PartialEq, Eq, Debug, Clone, Copy)]
pub enum InvalidHead {
    MissingEntityId,
    Empty,
}

/// Errors raised while handing a memo to a transmitter.
#[derive(PartialEq, Eq, Debug, Clone, Copy)]
pub enum TransmitError {
    SlabPresenceNotFound,
    InvalidTransmitter,
}

/// Errors raised while writing.
#[derive(PartialEq, Debug)]
pub enum WriteError {
    Unknown,
    RetrieveError(Box<RetrieveError>),
    BadTarget,
}

/// Errors raised while observing a subject or an index.
#[derive(PartialEq, Eq, Debug, Clone, Copy)]
pub enum ObserveError {
    Unknown,
}

/// A storage operation that the slab declined to perform.
#[derive(PartialEq, Eq, Debug, Clone, Copy)]
pub enum StorageOpDeclined {
    InsufficientPeering,
}

/// Errors raised while applying peering or presence information.
#[derive(PartialEq, Eq, Debug, Clone, Copy)]
pub enum PeeringError {
    InvalidPeering,
    InvalidPresence,
}

/// Errors of the persistent slab store that its own logic raises.
#[derive(PartialEq, Eq, Debug, Clone, Copy)]
pub enum StorageError {
    UninitializedStore,
    RecordMissing,
}

/// Errors of the network buffer.
#[derive(PartialEq, Eq, Debug, Clone, Copy)]
pub enum BufferError {
    DecodeFailed,
    Full,
}

/// The umbrella error of the library.
#[derive(Debug)]
pub enum Error {
    RetrieveError(RetrieveError),
    WriteError(WriteError),
    TransmitError(TransmitError),
    ObserveError(ObserveError),
    StorageOpDeclined(StorageOpDeclined),
    TransmitterNotFound,
    SlabOffline,
    SlabNotFound,
    ChannelNotFound,
    BadAddress,
    AddressNotFound,
    StorageError(StorageError),
    PeeringError(PeeringError),
    Buffer(BufferError),
}

impl core::convert::From<()> for ObserveError {
    fn from(_error: ()) -> (r: Self)
        ensures
            r == ObserveError::Unknown,
    {
        ObserveError::Unknown
    }
}

impl vstd::std_specs::convert::FromSpecImpl<()> for ObserveError {
    open spec fn obeys_from_spec() -> bool {
        true
    }

    open spec fn from_spec(v: ()) -> Self {
        ObserveError::Unknown
    }
}

impl core::convert::From<RetrieveError> for WriteError {
    fn from(error: RetrieveError) -> (r: Self)
        ensures
            r == WriteError::RetrieveError(Box::new(error)),
    {
        WriteError::RetrieveError(Box::new(error))
    }
}

impl vstd::std_specs::convert::FromSpecImpl<RetrieveError> for WriteError {
    open spec fn obeys_from_spec() -> bool {
        true
    }

    open spec fn from_spec(v: RetrieveError) -> Self {
        WriteError::RetrieveError(Box::new(v))
    }
}

impl core::convert::From<WriteError> for RetrieveError {
    fn from(error: WriteError) -> (r: Self)
        ensures
            r == RetrieveError::WriteError(Box::new(error)),
    {
        RetrieveError::WriteError(Box::new(error))
    }
}

impl vstd::std_specs::convert::FromSpecImpl<WriteError> for RetrieveError {
    open spec fn obeys_from_spec() -> bool {
        true
    }

    open spec fn from_spec(v: WriteError) -> Self {
        RetrieveError::WriteError(Box::new(v))
    }
}

impl core::convert::From<StorageError> for Error {
    fn from(error: StorageError) -> (r: Self)
        ensures
            r == Error::StorageError(error),
    {
        Error::StorageError(error)
    }
}

impl vstd::std_specs::convert::FromSpecImpl<StorageError> for Error {
    open spec fn obeys_from_spec() -> bool {
        true
    }

    open spec fn from_spec(v: StorageError) -> Self {
        Error::StorageError(v)
    }
}

} // verus!
