//! The wire-record mapper: as-received payload fields to internal
//! records.  Every date-time field goes through the timestamp
//! normalizer; if any required date field fails to normalize, the whole
//! decode fails with `RecordDecodeError` naming the field and its raw
//! value, and no partial record is ever produced.  Optional fields keep
//! absence as `None`; an empty string is a valid present value,
//! distinct from absence.  Decoding is pure and stateless.

use vstd::prelude::*;

use crate::errors::RecordDecodeError;
use crate::timestamp::CanonicalTimestamp;
use crate::timestamp::normalize;
use crate::timestamp::spec_normalize;

verus! {

/// A link payload as received, date fields still raw strings.
#[derive(Debug)]
pub struct LinkWire {
    pub id: u64,
    pub url: String,
    pub title: Option<String>,
    pub description: Option<String>,
    pub created_at: String,
    pub updated_at: String,
}

/// A decoded link record: every date field is canonical, never raw.
#[derive(Debug)]
pub struct Link {
    pub id: u64,
    pub url: String,
    pub title: Option<String>,
    pub description: Option<String>,
    pub created_at: CanonicalTimestamp,
    pub updated_at: CanonicalTimestamp,
}

/// A user payload as received.
#[derive(Debug)]
pub struct UserWire {
    pub id: String,
    pub email: String,
    pub created_at: String,
    pub updated_at: String,
}

/// A decoded user record.
#[derive(Debug)]
pub struct User {
    pub id: String,
    pub email: String,
    pub created_at: CanonicalTimestamp,
    pub updated_at: CanonicalTimestamp,
}

/// A freshly registered user's payload as received, API key included.
#[derive(Debug)]
pub struct UserWithApiKeyWire {
    pub id: String,
    pub email: String,
    pub api_key: String,
    pub created_at: String,
    pub updated_at: String,
}

/// A decoded freshly registered user, API key included.
#[derive(Debug)]
pub struct UserWithApiKey {
    pub id: String,
    pub email: String,
    pub api_key: String,
    pub created_at: CanonicalTimestamp,
    pub updated_at: CanonicalTimestamp,
}

/// The canonical timestamp a raw field normalizes to, at the spec
/// level.
pub open spec fn normalizes_to(raw: Seq<char>, t: CanonicalTimestamp) -> bool {
    spec_normalize(raw) == Some((t.secs as int, t.nanos as int))
}

/// Decode a link payload.  Succeeds exactly when both date fields
/// normalize; every other field is carried over unchanged.  On failure
/// the error names the first field that did not normalize, with its raw
/// value, and no partial record exists.
pub fn decode_link(w: LinkWire) -> (r: Result<Link, RecordDecodeError>)
    ensures
        r is Ok <==> spec_normalize(w.created_at@) is Some && spec_normalize(w.updated_at@)
            is Some,
        r matches Ok(l) ==> l.id == w.id && l.url == w.url && l.title == w.title && l.description
            == w.description && normalizes_to(w.created_at@, l.created_at) && normalizes_to(
            w.updated_at@,
            l.updated_at,
        ),
        r matches Err(e) ==> if spec_normalize(w.created_at@) is None {
            e.field@ == "created_at"@ && e.raw@ == w.created_at@
        } else {
            e.field@ == "updated_at"@ && e.raw@ == w.updated_at@
        },
{
    let LinkWire { id, url, title, description, created_at, updated_at } = w;
    let created_at = match normalize(created_at.as_str()) {
        Ok(t) => t,
        Err(e) => {
            return Err(RecordDecodeError { field: "created_at".to_owned(), raw: e.raw });
        },
    };
    let updated_at = match normalize(updated_at.as_str()) {
        Ok(t) => t,
        Err(e) => {
            return Err(RecordDecodeError { field: "updated_at".to_owned(), raw: e.raw });
        },
    };
    Ok(Link { id, url, title, description, created_at, updated_at })
}

/// Decode a user payload; same atomicity as `decode_link`.
pub fn decode_user(w: UserWire) -> (r: Result<User, RecordDecodeError>)
    ensures
        r is Ok <==> spec_normalize(w.created_at@) is Some && spec_normalize(w.updated_at@)
            is Some,
        r matches Ok(u) ==> u.id == w.id && u.email == w.email && normalizes_to(
            w.created_at@,
            u.created_at,
        ) && normalizes_to(w.updated_at@, u.updated_at),
        r matches Err(e) ==> if spec_normalize(w.created_at@) is None {
            e.field@ == "created_at"@ && e.raw@ == w.created_at@
        } else {
            e.field@ == "updated_at"@ && e.raw@ == w.updated_at@
        },
{
    let UserWire { id, email, created_at, updated_at } = w;
    let created_at = match normalize(created_at.as_str()) {
        Ok(t) => t,
        Err(e) => {
            return Err(RecordDecodeError { field: "created_at".to_owned(), raw: e.raw });
        },
    };
    let updated_at = match normalize(updated_at.as_str()) {
        Ok(t) => t,
        Err(e) => {
            return Err(RecordDecodeError { field: "updated_at".to_owned(), raw: e.raw });
        },
    };
    Ok(User { id, email, created_at, updated_at })
}

/// Decode a freshly registered user's payload; same atomicity as
/// `decode_link`.
pub fn decode_user_with_api_key(w: UserWithApiKeyWire) -> (r: Result<
    UserWithApiKey,
    RecordDecodeError,
>)
    ensures
        r is Ok <==> spec_normalize(w.created_at@) is Some && spec_normalize(w.updated_at@)
            is Some,
        r matches Ok(u) ==> u.id == w.id && u.email == w.email && u.api_key == w.api_key
            && normalizes_to(w.created_at@, u.created_at) && normalizes_to(
            w.updated_at@,
            u.updated_at,
        ),
        r matches Err(e) ==> if spec_normalize(w.created_at@) is None {
            e.field@ == "created_at"@ && e.raw@ == w.created_at@
        } else {
            e.field@ == "updated_at"@ && e.raw@ == w.updated_at@
        },
{
    let UserWithApiKeyWire { id, email, api_key, created_at, updated_at } = w;
    let created_at = match normalize(created_at.as_str()) {
        Ok(t) => t,
        Err(e) => {
            return Err(RecordDecodeError { field: "created_at".to_owned(), raw: e.raw });
        },
    };
    let updated_at = match normalize(updated_at.as_str()) {
        Ok(t) => t,
        Err(e) => {
            return Err(RecordDecodeError { field: "updated_at".to_owned(), raw: e.raw });
        },
    };
    Ok(UserWithApiKey { id, email, api_key, created_at, updated_at })
}

} // verus!
