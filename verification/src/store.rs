//! The conversation with the replicated key-value store: what the ledger
//! asks of it and what it may answer.
//!
//! The ledger never talks to the store itself. It hands out a
//! [`StoreRequest`], the caller carries it out, and the outcome comes back as
//! a [`StoreReply`].

use crate::sealing::{SealedEvent, SealedEventData};
use vstd::prelude::*;

verus! {

/// A request to the store.
pub enum StoreRequest {
    /// Read the value under the counter key.
    ReadCounter { key: String },
    /// Write `replacement` under the counter key if, and only if, the key
    /// still holds `expected` (`None`: still holds nothing). The comparison
    /// and the write are one atomic step of the store.
    SwapCounter { key: String, expected: Option<Vec<u8>>, replacement: Vec<u8> },
    /// Write `record` durably under `key`.
    PutRecord { key: String, record: SealedEventData },
    /// Read the record under `key`.
    GetRecord { key: String },
}

/// The outcome of a request.
pub enum StoreReply {
    /// To `ReadCounter`: the value under the counter key, if any.
    Counter(Option<Vec<u8>>),
    /// To `SwapCounter`: whether the replacement was written.
    Swapped(bool),
    /// To `PutRecord`: the record is durable.
    Stored,
    /// To `GetRecord`: the record under the key, if any.
    Record(Option<SealedEventData>),
    /// To any request: the store could not be reached, did not answer in
    /// time, or a value could not be written or read back. The text says
    /// which.
    Failed(String),
}

/// A [`StoreRequest`] as a mathematical value.
pub enum StoreRequestView {
    ReadCounter { key: Seq<char> },
    SwapCounter { key: Seq<char>, expected: Option<Seq<u8>>, replacement: Seq<u8> },
    PutRecord { key: Seq<char>, record: SealedEvent },
    GetRecord { key: Seq<char> },
}

/// A [`StoreReply`] as a mathematical value.
pub enum StoreReplyView {
    Counter(Option<Seq<u8>>),
    Swapped(bool),
    Stored,
    Record(Option<SealedEvent>),
    Failed(Seq<char>),
}

/// The contents of an optional byte string.
pub open spec fn bytes_view(bytes: Option<Vec<u8>>) -> Option<Seq<u8>> {
    match bytes {
        Some(b) => Some(b@),
        None => None,
    }
}

/// The contents of an optional record.
pub open spec fn record_view(record: Option<SealedEventData>) -> Option<SealedEvent> {
    match record {
        Some(r) => Some(r@),
        None => None,
    }
}

impl View for StoreRequest {
    type V = StoreRequestView;

    open spec fn view(&self) -> StoreRequestView {
        match *self {
            StoreRequest::ReadCounter { key } => StoreRequestView::ReadCounter { key: key@ },
            StoreRequest::SwapCounter { key, expected, replacement } => {
                StoreRequestView::SwapCounter {
                    key: key@,
                    expected: bytes_view(expected),
                    replacement: replacement@,
                }
            },
            StoreRequest::PutRecord { key, record } => StoreRequestView::PutRecord {
                key: key@,
                record: record@,
            },
            StoreRequest::GetRecord { key } => StoreRequestView::GetRecord { key: key@ },
        }
    }
}

impl View for StoreReply {
    type V = StoreReplyView;

    open spec fn view(&self) -> StoreReplyView {
        match *self {
            StoreReply::Counter(value) => StoreReplyView::Counter(bytes_view(value)),
            StoreReply::Swapped(written) => StoreReplyView::Swapped(written),
            StoreReply::Stored => StoreReplyView::Stored,
            StoreReply::Record(record) => StoreReplyView::Record(record_view(record)),
            StoreReply::Failed(message) => StoreReplyView::Failed(message@),
        }
    }
}

} // verus!
