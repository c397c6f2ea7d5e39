use vstd::prelude::*;

use crate::ids::{NodeId, ServiceId};

verus! {

/// Failures of the persistence layer.
#[derive(Debug)]
pub enum RepositoryError {
    NotFound(&'static str),
    Conflict(String),
    Serialization(String),
    Storage(String),
}

/// Failures that the controller's operations answer with.
#[derive(Debug)]
pub enum AppError {
    NodeNotFound,
    ServiceNotFound,
    BadRequest(String),
    Conflict(String),
    Internal(String),
    Repository(RepositoryError),
}

/// The body that the controller sends with an error.
#[derive(Debug)]
pub struct ErrorResponse {
    pub error: String,
    pub message: String,
}

/// Failures of the edge agent's exchanges with the controller and of its runtime. The
/// transport's own error and the HTTP status are held as their text and their code.
#[derive(Debug)]
pub enum AgentError {
    Http { operation: &'static str, message: String },
    ControllerApi { operation: &'static str, status: u16, message: String },
    NodeNotRegistered(NodeId),
    MissingServiceDefinition(ServiceId),
    Runtime(String),
}

/// The text a repository error displays.
pub open spec fn repository_message(e: RepositoryError) -> Seq<char> {
    match e {
        RepositoryError::NotFound(what) => "entity not found: "@ + what@,
        RepositoryError::Conflict(m) => "conflict: "@ + m@,
        RepositoryError::Serialization(m) => "serialization error: "@ + m@,
        RepositoryError::Storage(m) => "storage error: "@ + m@,
    }
}

/// The text an application error displays.
pub open spec fn app_message(e: AppError) -> Seq<char> {
    match e {
        AppError::NodeNotFound => "node not found"@,
        AppError::ServiceNotFound => "service not found"@,
        AppError::BadRequest(m) => "invalid request: "@ + m@,
        AppError::Conflict(m) => "conflict: "@ + m@,
        AppError::Internal(m) => "internal error: "@ + m@,
        AppError::Repository(r) => "repository error: "@ + repository_message(r),
    }
}

/// The HTTP status an application error is answered with.
pub open spec fn app_status(e: AppError) -> u16 {
    match e {
        AppError::NodeNotFound | AppError::ServiceNotFound => 404,
        AppError::BadRequest(_) => 400,
        AppError::Conflict(_) => 409,
        AppError::Internal(_) | AppError::Repository(_) => 500,
    }
}

/// The machine-readable kind of an application error.
pub open spec fn app_kind(e: AppError) -> Seq<char> {
    match e {
        AppError::NodeNotFound => "node_not_found"@,
        AppError::ServiceNotFound => "service_not_found"@,
        AppError::BadRequest(_) => "bad_request"@,
        AppError::Conflict(_) => "conflict"@,
        AppError::Internal(_) => "internal_error"@,
        AppError::Repository(_) => "repository_error"@,
    }
}

fn prefixed(prefix: &str, rest: &str) -> (r: String)
    ensures
        r@ == prefix@ + rest@,
{
    let mut r = String::from_str(prefix);
    r.append(rest);
    r
}

impl RepositoryError {
    /// The text this error displays.
    pub fn message(&self) -> (m: String)
        ensures
            m@ == repository_message(*self),
    {
        match self {
            RepositoryError::NotFound(what) => prefixed("entity not found: ", what),
            RepositoryError::Conflict(m) => prefixed("conflict: ", m.as_str()),
            RepositoryError::Serialization(m) => prefixed("serialization error: ", m.as_str()),
            RepositoryError::Storage(m) => prefixed("storage error: ", m.as_str()),
        }
    }
}

impl AppError {
    /// The HTTP status code of this error.
    pub fn status_code(&self) -> (code: u16)
        ensures
            code == app_status(*self),
    {
        match self {
            AppError::NodeNotFound | AppError::ServiceNotFound => 404,
            AppError::BadRequest(_) => 400,
            AppError::Conflict(_) => 409,
            AppError::Internal(_) | AppError::Repository(_) => 500,
        }
    }

    /// The machine-readable kind of this error.
    pub fn kind(&self) -> (k: &'static str)
        ensures
            k@ == app_kind(*self),
    {
        match self {
            AppError::NodeNotFound => "node_not_found",
            AppError::ServiceNotFound => "service_not_found",
            AppError::BadRequest(_) => "bad_request",
            AppError::Conflict(_) => "conflict",
            AppError::Internal(_) => "internal_error",
            AppError::Repository(_) => "repository_error",
        }
    }

    /// The text this error displays.
    pub fn message(&self) -> (m: String)
        ensures
            m@ == app_message(*self),
    {
        match self {
            AppError::NodeNotFound => String::from_str("node not found"),
            AppError::ServiceNotFound => String::from_str("service not found"),
            AppError::BadRequest(m) => prefixed("invalid request: ", m.as_str()),
            AppError::Conflict(m) => prefixed("conflict: ", m.as_str()),
            AppError::Internal(m) => prefixed("internal error: ", m.as_str()),
            AppError::Repository(r) => {
                let inner = r.message();
                prefixed("repository error: ", inner.as_str())
            },
        }
    }

    /// The body the controller answers this error with: its kind and its text.
    pub fn to_error_response(&self) -> (body: ErrorResponse)
        ensures
            body.error@ == app_kind(*self),
            body.message@ == app_message(*self),
    {
        let kind = self.kind();
        ErrorResponse { error: String::from_str(kind), message: self.message() }
    }
}

} // verus!
