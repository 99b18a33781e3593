//! The recreate service client's logic: building its basic-authentication
//! header and classifying its HTTP responses.  The surrounding process
//! performs the request itself and hands status and body back in.

use vstd::prelude::*;
use vstd::string::StringExecFns;
use vstd::string::StringSliceAdditionalSpecFns;

use crate::error::{Error, SystemError, UserError};

verus! {

/// What base64's standard alphabet makes of a byte sequence: a function
/// of the bytes alone.
pub uninterp spec fn base64_of(bytes: Seq<u8>) -> Seq<char>;

/// Relies on base64::encode: the standard-alphabet encoding of the bytes.
#[verifier::external_body]
fn base64_encode(bytes: &Vec<u8>) -> (r: String)
    ensures
        r@ == base64_of(bytes@),
{
    base64::encode(bytes)
}

/// The basic-authentication header value for the recreate service: the
/// scheme name, then `username:password` base64-encoded.
pub fn build_basic_auth_header(username: &str, password: &str) -> (r: String)
    ensures
        r@ == "Basic "@ + base64_of(
            username.spec_bytes() + seq![58u8] + password.spec_bytes(),
        ),
{
    let user_bytes = username.as_bytes();
    let pass_bytes = password.as_bytes();
    let mut credentials: Vec<u8> = Vec::new();
    let mut i: usize = 0;
    while i < user_bytes.len()
        invariant
            0 <= i <= user_bytes@.len(),
            user_bytes@ == username.spec_bytes(),
            credentials@ == username.spec_bytes().subrange(0, i as int),
        decreases user_bytes@.len() - i,
    {
        credentials.push(user_bytes[i]);
        i = i + 1;
        proof {
            assert(credentials@ =~= username.spec_bytes().subrange(0, i as int));
        }
    }
    proof {
        assert(username.spec_bytes().subrange(0, user_bytes@.len() as int) =~= username.spec_bytes());
    }
    // the separating colon
    credentials.push(58u8);
    let mut j: usize = 0;
    while j < pass_bytes.len()
        invariant
            0 <= j <= pass_bytes@.len(),
            pass_bytes@ == password.spec_bytes(),
            credentials@ == username.spec_bytes() + seq![58u8] + password.spec_bytes().subrange(0, j as int),
        decreases pass_bytes@.len() - j,
    {
        credentials.push(pass_bytes[j]);
        j = j + 1;
        proof {
            assert(credentials@ =~= username.spec_bytes() + seq![58u8]
                + password.spec_bytes().subrange(0, j as int));
        }
    }
    proof {
        assert(username.spec_bytes() + seq![58u8] + password.spec_bytes().subrange(
            0,
            pass_bytes@.len() as int,
        ) =~= username.spec_bytes() + seq![58u8] + password.spec_bytes());
    }
    let encoded = base64_encode(&credentials);
    let mut header: String = "Basic ".to_owned();
    header.append(encoded.as_str());
    header
}

/// Classifies the recreate service's HTTP answer: success hands back the
/// job-status URL (base URL plus the returned path); a bad request means
/// another request is still queued; not-found means the competition is
/// not running; anything else is unexpected.
pub fn classify_recreate_response(status: u16, baseurl: &str, body: &str) -> (r: Result<String, Error>)
    ensures
        status == 200 ==> (r matches Ok(u) && u@ == baseurl@ + body@),
        status == 400 ==> r == Err::<String, Error>(Error::UserError(UserError::RequestInQueue)),
        status == 404 ==> r == Err::<String, Error>(Error::UserError(UserError::OutOfCompetitionTime)),
        !(status == 200 || status == 400 || status == 404) ==> (r matches Err(
            Error::SystemError(SystemError::UnexpectedError(m)),
        ) && m@.len() >= "recreate server returns unexpected status code: "@.len()
            && m@.subrange(0, "recreate server returns unexpected status code: "@.len() as int)
                == "recreate server returns unexpected status code: "@),
{
    if status == 200 {
        let mut url: String = baseurl.to_owned();
        url.append(body);
        Ok(url)
    } else if status == 400 {
        Err(Error::UserError(UserError::RequestInQueue))
    } else if status == 404 {
        Err(Error::UserError(UserError::OutOfCompetitionTime))
    } else {
        let code = status.to_string();
        let mut message: String = "recreate server returns unexpected status code: ".to_owned();
        message.append(code.as_str());
        proof {
            assert(message@.subrange(
                0,
                "recreate server returns unexpected status code: "@.len() as int,
            ) =~= "recreate server returns unexpected status code: "@);
        }
        Err(Error::SystemError(SystemError::UnexpectedError(message)))
    }
}

} // verus!
