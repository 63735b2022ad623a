use vstd::prelude::*;

verus! {

/// A configuration section taken from a request; rejected when it is missing.
pub struct ExtractConfig<T>(pub T);

/// A configuration section taken from a request, if it is there.
pub struct ExtractOptionalConfig<T>(pub Option<T>);

/// A configuration section taken from a request after it passed validation.
pub struct ExtractValidatedConfig<T>(pub T);

/// The body sent back when a request cannot have its configuration.
#[derive(Debug, Clone)]
pub struct ErrorResponse {
    code: u16,
    success: bool,
    message: String,
}

impl ErrorResponse {
    pub closed spec fn spec_code(&self) -> u16 {
        self.code
    }

    pub closed spec fn spec_success(&self) -> bool {
        self.success
    }

    pub closed spec fn spec_message(&self) -> Seq<char> {
        self.message@
    }

    /// Status 500, "Internal Server Error".
    pub fn internal_server_error() -> (r: ErrorResponse)
        ensures
            r.spec_code() == 500,
            !r.spec_success(),
            r.spec_message() == "Internal Server Error"@,
    {
        ErrorResponse { code: 500, success: false, message: "Internal Server Error".to_owned() }
    }

    /// Status 400, "Bad Request".
    pub fn bad_request() -> (r: ErrorResponse)
        ensures
            r.spec_code() == 400,
            !r.spec_success(),
            r.spec_message() == "Bad Request"@,
    {
        ErrorResponse { code: 400, success: false, message: "Bad Request".to_owned() }
    }

    pub fn code(&self) -> (r: u16)
        ensures
            r == self.spec_code(),
    {
        self.code
    }

    pub fn success(&self) -> (r: bool)
        ensures
            r == self.spec_success(),
    {
        self.success
    }

    pub fn message(&self) -> (r: &String)
        ensures
            r@ == self.spec_message(),
    {
        &self.message
    }
}

} // verus!
