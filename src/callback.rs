//! Pure steps of the completion callback: the function's name from its ARN
//! and the raw bytes of the encrypted API key.
use vstd::prelude::*;
use crate::error::{ise, ServiceError, Status};
use crate::text::chars_of;

verus! {

/// Where the text after the last `:` starts; zero when there is none.
pub open spec fn after_last_colon(s: Seq<char>) -> int
    decreases s.len(),
{
    if s.len() == 0 {
        0
    } else if s.last() == ':' {
        s.len() as int
    } else {
        after_last_colon(s.drop_last())
    }
}

/// The function's name: the last `:`-separated segment of its ARN.
pub fn function_name(arn: &str) -> (r: &str)
    ensures
        r@ == arn@.subrange(after_last_colon(arn@), arn@.len() as int),
{
    let cs = chars_of(arn);
    let mut k: usize = cs.len();
    proof {
        assert(arn@.take(k as int) =~= arn@);
    }
    while k > 0 && cs[k - 1] != ':'
        invariant
            cs@ == arn@,
            k <= cs.len(),
            after_last_colon(arn@) == after_last_colon(arn@.take(k as int)),
        decreases k,
    {
        proof {
            assert(arn@.take(k as int).drop_last() =~= arn@.take(k as int - 1));
        }
        k = k - 1;
    }
    proof {
        if k > 0 {
            assert(arn@.take(k as int).last() == ':');
        }
    }
    arn.substring_char(k, cs.len())
}

/// What `base64::decode` yields for the bytes: the decoded bytes, or `None`
/// where they are not valid standard base64.
pub uninterp spec fn base64_decoded(input: Seq<u8>) -> Option<Seq<u8>>;

/// Relies on `base64::decode` with the standard alphabet and padding.
#[verifier::external_body]
fn base64_decode(input: &[u8]) -> (r: Result<Vec<u8>, String>)
    ensures
        match r {
            Ok(v) => base64_decoded(input@) == Some(v@),
            Err(_) => base64_decoded(input@) is None,
        },
{
    base64::decode(input).map_err(|e| e.to_string())
}

/// The ciphertext of an API key kept as base64 text; an internal server
/// error where the text is not valid base64.
pub fn api_key_ciphertext(encoded: &[u8]) -> (r: Result<Vec<u8>, ServiceError>)
    ensures
        match r {
            Ok(v) => base64_decoded(encoded@) == Some(v@),
            Err(e) => base64_decoded(encoded@) is None && e.status == Status::InternalServerError,
        },
{
    match base64_decode(encoded) {
        Ok(v) => Ok(v),
        Err(msg) => Err(ise(msg.as_str())),
    }
}

} // verus!
