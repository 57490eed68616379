//! The errors of the public interface and what each is answered with.

use vstd::prelude::*;

use crate::text::join;

verus! {

/// Why a request is not served.
#[derive(Debug)]
pub enum ApiError {
    BadRequest(String),
    NotFound,
    Forbidden(String),
    TooManyRequests,
    ServiceUnavailable,
    Internal(String),
    /// The database failed; the text is its own account of it.
    Sqlx(String),
}

/// An error with its text taken as characters.
pub ghost enum ErrorModel {
    BadRequest(Seq<char>),
    NotFound,
    Forbidden(Seq<char>),
    TooManyRequests,
    ServiceUnavailable,
    Internal(Seq<char>),
    Sqlx(Seq<char>),
}

impl View for ApiError {
    type V = ErrorModel;

    open spec fn view(&self) -> ErrorModel {
        match self {
            ApiError::BadRequest(m) => ErrorModel::BadRequest(m@),
            ApiError::NotFound => ErrorModel::NotFound,
            ApiError::Forbidden(m) => ErrorModel::Forbidden(m@),
            ApiError::TooManyRequests => ErrorModel::TooManyRequests,
            ApiError::ServiceUnavailable => ErrorModel::ServiceUnavailable,
            ApiError::Internal(m) => ErrorModel::Internal(m@),
            ApiError::Sqlx(m) => ErrorModel::Sqlx(m@),
        }
    }
}

/// What a client is told: the HTTP status, a code for programs and a message.
pub struct Reply {
    pub status: u16,
    pub code: &'static str,
    pub message: String,
}

/// The HTTP status of an error.
pub open spec fn status_of(e: ErrorModel) -> u16 {
    match e {
        ErrorModel::BadRequest(_) => 400,
        ErrorModel::NotFound => 404,
        ErrorModel::Forbidden(_) => 403,
        ErrorModel::TooManyRequests => 429,
        ErrorModel::ServiceUnavailable => 503,
        ErrorModel::Internal(_) => 500,
        ErrorModel::Sqlx(_) => 500,
    }
}

/// The code of an error, for programs.
pub open spec fn code_of(e: ErrorModel) -> Seq<char> {
    match e {
        ErrorModel::BadRequest(_) => "BAD_REQUEST"@,
        ErrorModel::NotFound => "NOT_FOUND"@,
        ErrorModel::Forbidden(_) => "FORBIDDEN"@,
        ErrorModel::TooManyRequests => "TOO_MANY_REQUESTS"@,
        ErrorModel::ServiceUnavailable => "SERVICE_UNAVAILABLE"@,
        ErrorModel::Internal(_) => "INTERNAL_ERROR"@,
        ErrorModel::Sqlx(_) => "INTERNAL_ERROR"@,
    }
}

/// The message of an error. What failed inside the server is not told.
pub open spec fn message_of(e: ErrorModel) -> Seq<char> {
    match e {
        ErrorModel::BadRequest(m) => m,
        ErrorModel::NotFound => "Not Found"@,
        ErrorModel::Forbidden(m) => m,
        ErrorModel::TooManyRequests => "Too Many Requests"@,
        ErrorModel::ServiceUnavailable => "Service Unavailable"@,
        ErrorModel::Internal(_) => "Internal Error"@,
        ErrorModel::Sqlx(_) => "Internal Error"@,
    }
}

/// The text of an error for the log.
pub open spec fn log_text_of(e: ErrorModel) -> Seq<char> {
    match e {
        ErrorModel::BadRequest(m) => "bad request: "@ + m,
        ErrorModel::NotFound => "not found"@,
        ErrorModel::Forbidden(m) => "forbidden: "@ + m,
        ErrorModel::TooManyRequests => "too many requests"@,
        ErrorModel::ServiceUnavailable => "service unavailable"@,
        ErrorModel::Internal(m) => "internal error: "@ + m,
        ErrorModel::Sqlx(m) => m,
    }
}

impl ApiError {
    /// What the client is told.
    pub fn into_reply(self) -> (r: Reply)
        ensures
            r.status == status_of(self@),
            r.code@ == code_of(self@),
            r.message@ == message_of(self@),
            self matches ApiError::BadRequest(m) ==> r.status == 400 && r.code@ == "BAD_REQUEST"@
                && r.message@ == m@,
            self is NotFound ==> r.status == 404 && r.code@ == "NOT_FOUND"@ && r.message@
                == "Not Found"@,
            self matches ApiError::Forbidden(m) ==> r.status == 403 && r.code@ == "FORBIDDEN"@
                && r.message@ == m@,
            self is TooManyRequests ==> r.status == 429 && r.code@ == "TOO_MANY_REQUESTS"@
                && r.message@ == "Too Many Requests"@,
            self is ServiceUnavailable ==> r.status == 503 && r.code@ == "SERVICE_UNAVAILABLE"@
                && r.message@ == "Service Unavailable"@,
            self is Internal || self is Sqlx ==> r.status == 500 && r.code@ == "INTERNAL_ERROR"@
                && r.message@ == "Internal Error"@,
    {
        match self {
            ApiError::BadRequest(m) => Reply { status: 400, code: "BAD_REQUEST", message: m },
            ApiError::NotFound => Reply {
                status: 404,
                code: "NOT_FOUND",
                message: "Not Found".to_owned(),
            },
            ApiError::Forbidden(m) => Reply { status: 403, code: "FORBIDDEN", message: m },
            ApiError::TooManyRequests => Reply {
                status: 429,
                code: "TOO_MANY_REQUESTS",
                message: "Too Many Requests".to_owned(),
            },
            ApiError::ServiceUnavailable => Reply {
                status: 503,
                code: "SERVICE_UNAVAILABLE",
                message: "Service Unavailable".to_owned(),
            },
            ApiError::Internal(_) => Reply {
                status: 500,
                code: "INTERNAL_ERROR",
                message: "Internal Error".to_owned(),
            },
            ApiError::Sqlx(_) => Reply {
                status: 500,
                code: "INTERNAL_ERROR",
                message: "Internal Error".to_owned(),
            },
        }
    }

    /// The text of this error for the log.
    pub fn log_text(&self) -> (r: String)
        ensures
            r@ == log_text_of(self@),
            *self matches ApiError::BadRequest(m) ==> r@ == "bad request: "@ + m@,
            *self is NotFound ==> r@ == "not found"@,
            *self matches ApiError::Forbidden(m) ==> r@ == "forbidden: "@ + m@,
            *self is TooManyRequests ==> r@ == "too many requests"@,
            *self is ServiceUnavailable ==> r@ == "service unavailable"@,
            *self matches ApiError::Internal(m) ==> r@ == "internal error: "@ + m@,
            *self matches ApiError::Sqlx(m) ==> r@ == m@,
    {
        match self {
            ApiError::BadRequest(m) => join("bad request: ", m.as_str()),
            ApiError::NotFound => "not found".to_owned(),
            ApiError::Forbidden(m) => join("forbidden: ", m.as_str()),
            ApiError::TooManyRequests => "too many requests".to_owned(),
            ApiError::ServiceUnavailable => "service unavailable".to_owned(),
            ApiError::Internal(m) => join("internal error: ", m.as_str()),
            ApiError::Sqlx(m) => m.clone(),
        }
    }
}

/// A failure inside the server, whatever it was, is told in the same words.
pub proof fn lemma_internal_failures_look_alike(a: Seq<char>, b: Seq<char>)
    ensures
        status_of(ErrorModel::Internal(a)) == status_of(ErrorModel::Sqlx(b)),
        code_of(ErrorModel::Internal(a)) == code_of(ErrorModel::Sqlx(b)),
        message_of(ErrorModel::Internal(a)) == message_of(ErrorModel::Sqlx(b)),
        message_of(ErrorModel::Internal(a)) == message_of(ErrorModel::Internal(b)),
{
}

}
