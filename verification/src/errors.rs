//! Error types shared by the storage core and the wire protocol.
use vstd::prelude::*;
use crate::nkv::NotificationError;

verus! {

#[verifier::external_type_specification]
#[verifier::external_body]
pub struct ExIoError(std::io::Error);

/// `std::io::Error`'s `Display` text. The text an operating system error
/// reads as is not modelled here, so nothing is stated of it.
#[verifier::external_body]
fn io_error_text(e: &std::io::Error) -> String {
    e.to_string()
}

/// Why a notifier could not reach one of its clients.
#[derive(Debug)]
pub enum NotifierError {
    FailedToWriteMessage(std::io::Error),
    FailedToFlushMessage(std::io::Error),
    IoError(std::io::Error),
    SubscriptionNotFound,
}

impl NotifierError {
    /// The message text: a fixed lead (`Failed to Write Message: `,
    /// `Failed to Flush Message: `, `IoError: `) followed by the I/O error's
    /// own text, or `Subscription not found`.
    pub fn message(&self) -> (s: String)
        ensures
            match self {
                NotifierError::FailedToWriteMessage(_) => s@.take(25) == "Failed to Write Message: "@,
                NotifierError::FailedToFlushMessage(_) => s@.take(25) == "Failed to Flush Message: "@,
                NotifierError::IoError(_) => s@.take(9) == "IoError: "@,
                NotifierError::SubscriptionNotFound => s@ == "Subscription not found"@,
            },
    {
        proof {
            reveal_strlit("Failed to Write Message: ");
            reveal_strlit("Failed to Flush Message: ");
            reveal_strlit("IoError: ");
        }
        match self {
            NotifierError::FailedToWriteMessage(e) => {
                let mut s = "Failed to Write Message: ".to_owned();
                let t = io_error_text(e);
                s.append(t.as_str());
                assert(s@.take(25) =~= "Failed to Write Message: "@);
                s
            },
            NotifierError::FailedToFlushMessage(e) => {
                let mut s = "Failed to Flush Message: ".to_owned();
                let t = io_error_text(e);
                s.append(t.as_str());
                assert(s@.take(25) =~= "Failed to Flush Message: "@);
                s
            },
            NotifierError::IoError(e) => {
                let mut s = "IoError: ".to_owned();
                let t = io_error_text(e);
                s.append(t.as_str());
                assert(s@.take(9) =~= "IoError: "@);
                s
            },
            NotifierError::SubscriptionNotFound => "Subscription not found".to_owned(),
        }
    }
}

/// Outcome of a storage operation, as the server reports it back.
#[derive(Debug)]
pub enum NotifyKeyValueError {
    NoError,
    NotFound,
    NotificationError(NotificationError),
    IoError(std::io::Error),
}

impl NotifyKeyValueError {
    /// The message text: `Not Found`, `No Error`, `Notification error `
    /// followed by the notification error's message, or `IO error `
    /// followed by the I/O error's own text.
    pub fn message(&self) -> (s: String)
        ensures
            match self {
                NotifyKeyValueError::NotFound => s@ == "Not Found"@,
                NotifyKeyValueError::NoError => s@ == "No Error"@,
                NotifyKeyValueError::NotificationError(e) => s@ == "Notification error "@ + match e {
                    NotificationError::AlreadySubscribed(u) => "Already subscribed "@ + u@,
                    NotificationError::SendError(w) => "Failed to send "@ + w@,
                },
                NotifyKeyValueError::IoError(_) => s@.take(9) == "IO error "@,
            },
    {
        match self {
            NotifyKeyValueError::NotFound => "Not Found".to_owned(),
            NotifyKeyValueError::NoError => "No Error".to_owned(),
            NotifyKeyValueError::NotificationError(e) => {
                let mut s = "Notification error ".to_owned();
                let t = e.message();
                s.append(t.as_str());
                s
            },
            NotifyKeyValueError::IoError(e) => {
                proof {
                    reveal_strlit("IO error ");
                }
                let mut s = "IO error ".to_owned();
                let t = io_error_text(e);
                s.append(t.as_str());
                assert(s@.take(9) =~= "IO error "@);
                s
            },
        }
    }
}

/// Why a protocol line could not be read.
#[derive(Debug)]
pub enum SerializingError {
    Missing(String),
    UnknownCommand,
    InvalidInput,
    ParseError,
}

/// A `SerializingError` with its text as a character sequence.
pub ghost enum SerializingErrorView {
    Missing(Seq<char>),
    UnknownCommand,
    InvalidInput,
    ParseError,
}

impl View for SerializingError {
    type V = SerializingErrorView;

    open spec fn view(&self) -> SerializingErrorView {
        match self {
            SerializingError::Missing(s) => SerializingErrorView::Missing(s@),
            SerializingError::UnknownCommand => SerializingErrorView::UnknownCommand,
            SerializingError::InvalidInput => SerializingErrorView::InvalidInput,
            SerializingError::ParseError => SerializingErrorView::ParseError,
        }
    }
}

impl SerializingError {
    /// The message text: `Missing <what>`, `Unknown command`,
    /// `Invalid input`, or `Failed to parse base64`.
    pub fn message(&self) -> (s: String)
        ensures
            s@ == match self@ {
                SerializingErrorView::Missing(w) => "Missing "@ + w,
                SerializingErrorView::UnknownCommand => "Unknown command"@,
                SerializingErrorView::InvalidInput => "Invalid input"@,
                SerializingErrorView::ParseError => "Failed to parse base64"@,
            },
    {
        match self {
            SerializingError::Missing(what) => {
                let mut s = "Missing ".to_owned();
                s.append(what.as_str());
                s
            },
            SerializingError::UnknownCommand => "Unknown command".to_owned(),
            SerializingError::InvalidInput => "Invalid input".to_owned(),
            SerializingError::ParseError => "Failed to parse base64".to_owned(),
        }
    }
}

} // verus!
