use vstd::prelude::*;

verus! {

/// The errors that the service answers with a `400 Bad Request`.
#[derive(Debug)]
pub enum MyError {
    ParseError,
    SledRangeExceed,
    CookieNotProvided,
    InvalidBase64,
    CustomError(String),
}

/// The body text that is sent back for each error.
pub open spec fn error_message(e: MyError) -> Seq<char> {
    match e {
        MyError::ParseError => "Error parsing Values"@,
        MyError::SledRangeExceed => "Number of params exceeded"@,
        MyError::CookieNotProvided => "Cookie Header Missing"@,
        MyError::InvalidBase64 => "Invalid Base64 Encoded String"@,
        MyError::CustomError(value) => value@,
    }
}

impl MyError {
    /// The text of the response body for this error.
    pub fn message(&self) -> (res: String)
        ensures
            res@ == error_message(*self),
    {
        match self {
            MyError::ParseError => "Error parsing Values".to_owned(),
            MyError::SledRangeExceed => "Number of params exceeded".to_owned(),
            MyError::CookieNotProvided => "Cookie Header Missing".to_owned(),
            MyError::InvalidBase64 => "Invalid Base64 Encoded String".to_owned(),
            MyError::CustomError(value) => value.clone(),
        }
    }
}

} // verus!
