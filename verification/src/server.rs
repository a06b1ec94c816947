//! The answers of the service: what a caller of `SubmitEvent`, `GetEvent`
//! and `HealthCheck` is told, given what the ledger found.

use crate::counter::{decimal_text, sequence_text};
use crate::ledger::{
    error_text, found_view, reading_view, sealed_view, LedgerError, LedgerErrorView,
};
use crate::sealing::{SealedEvent, SealedEventData};
use vstd::prelude::*;
use vstd::string::StringExecFns;

verus! {

/// The kind of a refusal.
#[derive(Clone, Copy, Debug, PartialEq, Eq, Structural)]
pub enum StatusCode {
    /// The request could not be served.
    Internal,
    /// There is no record at the sequence number asked for.
    NotFound,
}

/// A refusal: its kind and its text.
#[derive(Debug)]
pub struct Status {
    pub code: StatusCode,
    pub message: String,
}

/// A [`Status`] as a mathematical value.
pub struct StatusView {
    pub code: StatusCode,
    pub message: Seq<char>,
}

impl View for Status {
    type V = StatusView;

    open spec fn view(&self) -> StatusView {
        StatusView { code: self.code, message: self.message@ }
    }
}

/// The answer to a health check.
#[derive(Debug)]
pub struct HealthCheckResponse {
    pub healthy: bool,
    pub status: String,
    pub last_sequence_number: u64,
}

/// A [`HealthCheckResponse`] as a mathematical value.
pub struct HealthCheckView {
    pub healthy: bool,
    pub status: Seq<char>,
    pub last_sequence_number: u64,
}

impl View for HealthCheckResponse {
    type V = HealthCheckView;

    open spec fn view(&self) -> HealthCheckView {
        HealthCheckView {
            healthy: self.healthy,
            status: self.status@,
            last_sequence_number: self.last_sequence_number,
        }
    }
}

/// What `SubmitEvent` answers: the sealed record, or an internal failure
/// that says why sealing failed.
pub open spec fn submit_answer(sealed: Result<SealedEvent, LedgerErrorView>) -> Result<
    SealedEvent,
    StatusView,
> {
    match sealed {
        Ok(record) => Ok(record),
        Err(error) => Err(
            StatusView {
                code: StatusCode::Internal,
                message: "Sealing failed: "@ + error_text(error),
            },
        ),
    }
}

/// What `GetEvent` answers: the record, not-found where there is none at
/// `sequence_number`, or an internal failure that says why the lookup
/// failed.
pub open spec fn get_event_answer(
    sequence_number: u64,
    found: Result<Option<SealedEvent>, LedgerErrorView>,
) -> Result<SealedEvent, StatusView> {
    match found {
        Ok(Some(record)) => Ok(record),
        Ok(None) => Err(
            StatusView {
                code: StatusCode::NotFound,
                message: "Event with sequence "@ + decimal_text(sequence_number as nat)
                    + " not found"@,
            },
        ),
        Err(error) => Err(
            StatusView {
                code: StatusCode::Internal,
                message: "Get event failed: "@ + error_text(error),
            },
        ),
    }
}

/// What `HealthCheck` answers: healthy, with the last assigned sequence
/// number, whenever that number could be read.
pub open spec fn health_answer(current: Result<u64, LedgerErrorView>) -> Result<
    HealthCheckView,
    StatusView,
> {
    match current {
        Ok(n) => Ok(HealthCheckView { healthy: true, status: "ok"@, last_sequence_number: n }),
        Err(error) => Err(
            StatusView { code: StatusCode::Internal, message: "Health check failed"@ },
        ),
    }
}

/// The views of an answer that carries a record.
pub open spec fn record_answer_view(answer: Result<SealedEventData, Status>) -> Result<
    SealedEvent,
    StatusView,
> {
    match answer {
        Ok(record) => Ok(record@),
        Err(status) => Err(status@),
    }
}

/// The views of an answer to a health check.
pub open spec fn health_answer_view(answer: Result<HealthCheckResponse, Status>) -> Result<
    HealthCheckView,
    StatusView,
> {
    match answer {
        Ok(response) => Ok(response@),
        Err(status) => Err(status@),
    }
}

/// Answers `SubmitEvent`.
pub fn submit_event(sealed: Result<SealedEventData, LedgerError>) -> (answer: Result<
    SealedEventData,
    Status,
>)
    ensures
        record_answer_view(answer) == submit_answer(sealed_view(sealed)),
{
    match sealed {
        Ok(record) => Ok(record),
        Err(error) => {
            let mut message = "Sealing failed: ".to_owned();
            message.append(error.describe().as_str());
            Err(Status { code: StatusCode::Internal, message })
        },
    }
}

/// Answers `GetEvent` for `sequence_number`.
pub fn get_event(sequence_number: u64, found: Result<Option<SealedEventData>, LedgerError>) -> (answer:
    Result<SealedEventData, Status>)
    ensures
        record_answer_view(answer) == get_event_answer(sequence_number, found_view(found)),
{
    match found {
        Ok(Some(record)) => Ok(record),
        Ok(None) => {
            let mut message = "Event with sequence ".to_owned();
            message.append(sequence_text(sequence_number).as_str());
            message.append(" not found");
            Err(Status { code: StatusCode::NotFound, message })
        },
        Err(error) => {
            let mut message = "Get event failed: ".to_owned();
            message.append(error.describe().as_str());
            Err(Status { code: StatusCode::Internal, message })
        },
    }
}

/// Answers `HealthCheck`.
pub fn health_check(current: Result<u64, LedgerError>) -> (answer: Result<
    HealthCheckResponse,
    Status,
>)
    ensures
        health_answer_view(answer) == health_answer(reading_view(current)),
{
    match current {
        Ok(n) => Ok(
            HealthCheckResponse { healthy: true, status: "ok".to_owned(), last_sequence_number: n },
        ),
        Err(_) => Err(
            Status { code: StatusCode::Internal, message: "Health check failed".to_owned() },
        ),
    }
}

} // verus!
