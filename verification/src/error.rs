//! Errors.
use vstd::prelude::*;

verus! {

/// A failed call of the HTTP client, with its message.
#[derive(Debug)]
pub struct ClientError {
    pub message: String,
}

/// A failed proof of work, with its message.
#[derive(Debug)]
pub struct PowError {
    pub message: String,
}

/// A failure of the account pool.
#[derive(Debug)]
pub enum PoolError {
    /// No account could be initialised.
    AllAccountsFailed,
    /// A call of the HTTP client failed.
    Client(ClientError),
    /// A proof of work failed.
    Pow(PowError),
    /// The configuration is wrong.
    Validation(String),
    /// Anything else, with its message.
    Other(String),
}

/// What the core reports to its callers.
#[derive(Debug)]
pub enum CoreError {
    /// Every account is busy or unhealthy.
    Overloaded,
    /// The proof of work could not be computed.
    ProofOfWorkFailed(PowError),
    /// The provider failed: network, business error, expired token.
    ProviderError(String),
    /// The stream failed.
    Stream(String),
}

/// What a [`CoreError`] says.
pub enum ErrorModel {
    Overloaded,
    ProofOfWorkFailed(Seq<char>),
    ProviderError(Seq<char>),
    Stream(Seq<char>),
}

impl View for CoreError {
    type V = ErrorModel;

    open spec fn view(&self) -> ErrorModel {
        match self {
            CoreError::Overloaded => ErrorModel::Overloaded,
            CoreError::ProofOfWorkFailed(e) => ErrorModel::ProofOfWorkFailed(e.message@),
            CoreError::ProviderError(m) => ErrorModel::ProviderError(m@),
            CoreError::Stream(m) => ErrorModel::Stream(m@),
        }
    }
}

impl ErrorModel {
    /// The message that a user reads.
    pub open spec fn message(self) -> Seq<char> {
        match self {
            ErrorModel::Overloaded => "no available account"@,
            ErrorModel::ProofOfWorkFailed(m) => "proof of work failed: "@ + m,
            ErrorModel::ProviderError(m) => "provider: "@ + m,
            ErrorModel::Stream(m) => "stream error: "@ + m,
        }
    }
}

impl CoreError {
    /// The message that a user reads.
    pub fn message(&self) -> (r: String)
        ensures
            r@ == self@.message(),
    {
        match self {
            CoreError::Overloaded => "no available account".to_owned(),
            CoreError::ProofOfWorkFailed(e) => "proof of work failed: ".to_owned().concat(
                e.message.as_str(),
            ),
            CoreError::ProviderError(m) => "provider: ".to_owned().concat(m.as_str()),
            CoreError::Stream(m) => "stream error: ".to_owned().concat(m.as_str()),
        }
    }
}

/// The error that a failure of an open connection is reported as.
pub fn connection_error(e: ClientError) -> (r: CoreError)
    ensures
        r@ == ErrorModel::Stream(e.message@),
{
    CoreError::Stream(e.message)
}

impl From<ClientError> for CoreError {
    /// A client error is the provider's, under the same message.
    fn from(e: ClientError) -> (r: CoreError) {
        CoreError::ProviderError(e.message)
    }
}

impl vstd::std_specs::convert::FromSpecImpl<ClientError> for CoreError {
    open spec fn obeys_from_spec() -> bool {
        true
    }

    open spec fn from_spec(e: ClientError) -> CoreError {
        CoreError::ProviderError(e.message)
    }
}

impl From<PowError> for CoreError {
    /// A proof of work that fails is reported as such.
    fn from(e: PowError) -> (r: CoreError) {
        CoreError::ProofOfWorkFailed(e)
    }
}

impl vstd::std_specs::convert::FromSpecImpl<PowError> for CoreError {
    open spec fn obeys_from_spec() -> bool {
        true
    }

    open spec fn from_spec(e: PowError) -> CoreError {
        CoreError::ProofOfWorkFailed(e)
    }
}

/// The message of an error is its sentence and then the text that it carries, to
/// the letter.
pub proof fn law_messages(text: Seq<char>)
    ensures
        ErrorModel::Overloaded.message() == "no available account"@,
        ErrorModel::ProofOfWorkFailed(text).message() == "proof of work failed: "@ + text,
        ErrorModel::ProviderError(text).message() == "provider: "@ + text,
        ErrorModel::Stream(text).message() == "stream error: "@ + text,
{
}

/// An error says what it holds.
pub proof fn law_errors_say(text: String, pow: PowError)
    ensures
        CoreError::Overloaded@ == ErrorModel::Overloaded,
        CoreError::ProofOfWorkFailed(pow)@ == ErrorModel::ProofOfWorkFailed(pow.message@),
        CoreError::ProviderError(text)@ == ErrorModel::ProviderError(text@),
        CoreError::Stream(text)@ == ErrorModel::Stream(text@),
{
}

} // verus!
