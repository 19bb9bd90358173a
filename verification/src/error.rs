use vstd::prelude::*;

verus! {

/// Why a record failed the validity check that runs before `add` and `update`.
#[derive(Clone, Copy, PartialEq, Eq, Structural, Debug)]
pub enum InvalidLogin {
    /// The hostname does not parse as an absolute URL with a scheme.
    BadHostname,
    /// The password is empty.
    EmptyPassword,
    /// Both `http_realm` and `form_submit_url` are present.
    BothTargets,
    /// Neither `http_realm` nor `form_submit_url` is present.
    NeitherTarget,
}

/// Errors surfaced by the store.
#[derive(Clone, Debug)]
pub enum LoginsError {
    /// A record with this GUID already exists (`add`), or the same GUID
    /// appears twice in one incoming batch (`apply_incoming`).
    DuplicateGuid(String),
    /// Neither an overlay row nor a mirror row exists for this GUID.
    NoSuchRecord(String),
    /// The record failed the field-validity check.
    InvalidLogin(InvalidLogin),
}

impl LoginsError {
    /// Which GUID a `DuplicateGuid` or `NoSuchRecord` error names, if any.
    pub fn guid(&self) -> (r: Option<&String>)
        ensures
            r == match self {
                LoginsError::DuplicateGuid(g) => Some(g),
                LoginsError::NoSuchRecord(g) => Some(g),
                LoginsError::InvalidLogin(_) => None::<&String>,
            },
    {
        match self {
            LoginsError::DuplicateGuid(g) => Some(g),
            LoginsError::NoSuchRecord(g) => Some(g),
            LoginsError::InvalidLogin(_) => None,
        }
    }

    /// A short description, for hosts that need to render the error.
    pub fn describe(&self) -> (r: &'static str)
        ensures
            r@.len() > 0,
    {
        proof {
            reveal_strlit("duplicate guid");
            reveal_strlit("no such record");
            reveal_strlit("invalid login");
        }
        match self {
            LoginsError::DuplicateGuid(_) => "duplicate guid",
            LoginsError::NoSuchRecord(_) => "no such record",
            LoginsError::InvalidLogin(_) => "invalid login",
        }
    }
}

} // verus!
