use vstd::prelude::*;

verus! {

/// The error taxonomy of the application. Every failure a handler can
/// produce is one of these, and each maps to a fixed HTTP status code.
///
/// `Database` and `Other` wrap storage / third-party detail as text; in
/// production responses that detail is hidden (see [`AppError::message`]),
/// while [`AppError::detailed`] always shows it.
#[derive(Debug, Clone)]
pub enum AppError {
    NotFound(String),
    BadRequest(String),
    Unauthorized,
    Forbidden,
    Conflict(String),
    Database(String),
    Other(String),
}

pub type AppResult<T> = Result<T, AppError>;

impl AppError {
    /// The HTTP status code this error maps to.
    pub open spec fn spec_status_code(&self) -> u16 {
        match self {
            AppError::NotFound(_) => 404,
            AppError::BadRequest(_) => 400,
            AppError::Unauthorized => 401,
            AppError::Forbidden => 403,
            AppError::Conflict(_) => 409,
            AppError::Database(_) => 500,
            AppError::Other(_) => 500,
        }
    }

    #[verifier::when_used_as_spec(spec_status_code)]
    pub fn status_code(&self) -> (code: u16)
        ensures
            code == self.spec_status_code(),
    {
        match self {
            AppError::NotFound(_) => 404,
            AppError::BadRequest(_) => 400,
            AppError::Unauthorized => 401,
            AppError::Forbidden => 403,
            AppError::Conflict(_) => 409,
            AppError::Database(_) => 500,
            AppError::Other(_) => 500,
        }
    }

    /// The message shown to a client in production: internal detail
    /// (`Database`, `Other`) is replaced by a generic line so that schema
    /// or third-party information never leaks.
    pub open spec fn spec_message(&self) -> Seq<char> {
        match self {
            AppError::NotFound(t) => "Not Found: "@ + t@,
            AppError::BadRequest(t) => "Bad Request: "@ + t@,
            AppError::Unauthorized => "Unauthorized"@,
            AppError::Forbidden => "Forbidden"@,
            AppError::Conflict(t) => "Conflict: "@ + t@,
            AppError::Database(_) => "Internal Server Error"@,
            AppError::Other(_) => "Internal Server Error"@,
        }
    }

    pub fn message(&self) -> (msg: String)
        ensures
            msg@ == self.spec_message(),
    {
        match self {
            AppError::NotFound(t) => String::from_str("Not Found: ").concat(t.as_str()),
            AppError::BadRequest(t) => String::from_str("Bad Request: ").concat(t.as_str()),
            AppError::Unauthorized => String::from_str("Unauthorized"),
            AppError::Forbidden => String::from_str("Forbidden"),
            AppError::Conflict(t) => String::from_str("Conflict: ").concat(t.as_str()),
            AppError::Database(_) => String::from_str("Internal Server Error"),
            AppError::Other(_) => String::from_str("Internal Server Error"),
        }
    }

    /// The full message, internal detail included. Meant for logs and for
    /// debug builds; the production response path uses [`AppError::message`].
    pub open spec fn spec_detailed(&self) -> Seq<char> {
        match self {
            AppError::NotFound(t) => "Not Found: "@ + t@,
            AppError::BadRequest(t) => "Bad Request: "@ + t@,
            AppError::Unauthorized => "Unauthorized"@,
            AppError::Forbidden => "Forbidden"@,
            AppError::Conflict(t) => "Conflict: "@ + t@,
            AppError::Database(t) => "Database Error: "@ + t@,
            AppError::Other(t) => "Other Error: "@ + t@,
        }
    }

    pub fn detailed(&self) -> (msg: String)
        ensures
            msg@ == self.spec_detailed(),
    {
        match self {
            AppError::NotFound(t) => String::from_str("Not Found: ").concat(t.as_str()),
            AppError::BadRequest(t) => String::from_str("Bad Request: ").concat(t.as_str()),
            AppError::Unauthorized => String::from_str("Unauthorized"),
            AppError::Forbidden => String::from_str("Forbidden"),
            AppError::Conflict(t) => String::from_str("Conflict: ").concat(t.as_str()),
            AppError::Database(t) => String::from_str("Database Error: ").concat(t.as_str()),
            AppError::Other(t) => String::from_str("Other Error: ").concat(t.as_str()),
        }
    }
}

} // verus!
