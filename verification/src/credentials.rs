//! The stored access token and what can go wrong when it is read.

use crate::brand::{login_command, product_heading, product_title, push_login_command};
use crate::calendar::day_in_range;
use crate::clock::{after_pair, minute_before, utc_day, Timestamp};
use crate::text::{push_signed, signed_decimal};
use vstd::prelude::*;

verus! {

/// The service under which the token is stored.
pub fn service() -> (r: String)
    ensures
        r@ == product_title() + " Code-credentials"@,
{
    let mut out = product_heading();
    out.append(" Code-credentials");
    out
}

/// An access token and when it expires.
#[derive(Debug)]
pub struct StoredCreds {
    pub access_token: String,
    pub expires_at: Timestamp,
}

impl Clone for StoredCreds {
    fn clone(&self) -> (r: StoredCreds)
        ensures
            r.access_token@ == self.access_token@,
            r.expires_at == self.expires_at,
    {
        StoredCreds { access_token: self.access_token.clone(), expires_at: self.expires_at }
    }
}

impl StoredCreds {
    /// Whether the token expires within a minute of `now`, or has expired.
    pub fn is_expired(&self, now: Timestamp) -> (r: bool)
        requires
            day_in_range(utc_day(minute_before(self.expires_at).0)),
        ensures
            r == !after_pair(minute_before(self.expires_at), now),
    {
        self.expires_at.within_a_minute(&now)
    }
}

/// Why there is no token.
#[derive(Debug)]
pub enum CredError {
    NotFound,
    AccessDenied,
    Malformed(String),
    Other(String),
}

/// What an error says.
pub open spec fn cred_message(e: CredError) -> Seq<char> {
    match e {
        CredError::NotFound => "Keychain entry not found — run "@ + login_command(),
        CredError::AccessDenied => "Keychain access denied"@,
        CredError::Malformed(why) => "Keychain returned malformed JSON: "@ + why@,
        CredError::Other(why) => "Keychain error: "@ + why@,
    }
}

impl CredError {
    /// What the error says.
    pub fn message(&self) -> (r: String)
        ensures
            r@ == cred_message(*self),
    {
        match self {
            CredError::NotFound => {
                let mut out = "Keychain entry not found — run ".to_owned();
                push_login_command(&mut out);
                out
            },
            CredError::AccessDenied => "Keychain access denied".to_owned(),
            CredError::Malformed(why) => {
                let mut out = "Keychain returned malformed JSON: ".to_owned();
                out.append(why.as_str());
                out
            },
            CredError::Other(why) => {
                let mut out = "Keychain error: ".to_owned();
                out.append(why.as_str());
                out
            },
        }
    }
}

/// `error` is what a status code of the keychain stands for, `shown` being how the
/// keychain words it.
pub open spec fn is_keychain_error(code: i32, shown: Seq<char>, error: CredError) -> bool {
    match error {
        CredError::NotFound => code == -25300,
        CredError::AccessDenied => code == -128 || code == -25293,
        CredError::Other(why) => code != -25300 && code != -128 && code != -25293 && why@ == shown
            + " (code="@ + signed_decimal(code as int) + ")"@,
        CredError::Malformed(_) => false,
    }
}

/// The error that a status code of the keychain stands for; `shown` is how the
/// keychain words it.
pub fn keychain_error(code: i32, shown: &str) -> (r: CredError)
    ensures
        match r {
            CredError::NotFound => code == -25300,
            CredError::AccessDenied => code == -128 || code == -25293,
            CredError::Other(why) => code != -25300 && code != -128 && code != -25293 && why@
                == shown@ + " (code="@ + signed_decimal(code as int) + ")"@,
            CredError::Malformed(_) => false,
        },
        is_keychain_error(code, shown@, r),
{
    if code == -25300 {
        CredError::NotFound
    } else if code == -128 || code == -25293 {
        CredError::AccessDenied
    } else {
        let mut why = shown.to_owned();
        why.append(" (code=");
        push_signed(&mut why, code as i64);
        why.append(")");
        CredError::Other(why)
    }
}

/// What the stored secret holds: the token, and when it expires in milliseconds
/// from January 1, 1970.
#[derive(Debug)]
pub struct OauthBlob {
    pub access_token: String,
    pub expires_at: i64,
}

/// Whether there is an instant that many milliseconds from January 1, 1970.
pub open spec fn has_instant(millis: int) -> bool {
    day_in_range(utc_day(millis / 1000))
}

/// The credentials of a stored secret. `parsed` is what was read of it, or why
/// it could not be read.
pub fn parse_blob(parsed: Result<OauthBlob, String>) -> (r: Result<StoredCreds, CredError>)
    ensures
        match (parsed, r) {
            (Ok(blob), Ok(creds)) => has_instant(blob.expires_at as int) && creds.access_token
                == blob.access_token && creds.expires_at.seconds() == blob.expires_at as int / 1000
                && creds.expires_at.nanoseconds() == (blob.expires_at as int % 1000) * 1_000_000,
            (Ok(blob), Err(CredError::Malformed(why))) => !has_instant(blob.expires_at as int) && why@
                == "expiresAt out of range"@,
            (Err(why), Err(CredError::Malformed(shown))) => shown == why,
            _ => false,
        },
{
    match parsed {
        Ok(blob) => match Timestamp::from_millis(blob.expires_at) {
            Some(expires_at) => Ok(StoredCreds { access_token: blob.access_token, expires_at }),
            None => Err(CredError::Malformed("expiresAt out of range".to_owned())),
        },
        Err(why) => Err(CredError::Malformed(why)),
    }
}

/// A token that has expired stays so.
pub proof fn expired_tokens_stay_expired(expires_at: Timestamp, now: Timestamp, later: Timestamp)
    requires
        !after_pair(minute_before(expires_at), now),
        !crate::clock::earlier(later, now),
    ensures
        !after_pair(minute_before(expires_at), later),
{
}

/// Outside leap seconds, a token counts as expired exactly from a minute before
/// it expires on.
pub proof fn tokens_expire_a_minute_early(expires_at: Timestamp, now: Timestamp)
    requires
        0 <= expires_at.nanoseconds() < 1_000_000_000,
        0 <= now.nanoseconds() < 1_000_000_000,
    ensures
        !after_pair(minute_before(expires_at), now) <==> crate::clock::nanos_between(
            expires_at,
            now,
        ) <= 60_000_000_000,
{
}

/// Of the status codes of the keychain, one stands for an entry that is not there
/// and two for access that is denied; of any other, the words of the keychain and the
/// code are told.
pub proof fn what_keychain_codes_stand_for(code: i32, shown: Seq<char>, error: CredError)
    requires
        is_keychain_error(code, shown, error),
    ensures
        error is NotFound <==> code == -25300,
        error is AccessDenied <==> code == -128 || code == -25293,
        !(error is Malformed),
        error matches CredError::Other(why) ==> why@ == shown + " (code="@ + signed_decimal(
            code as int,
        ) + ")"@,
{
}

} // verus!
