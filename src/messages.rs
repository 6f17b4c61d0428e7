use crate::wire::{append_bytes, be_bytes, hex_lower, hex_of, md5_digest, md5_of, push_u32_be};
use vstd::prelude::*;
use vstd::string::StringSliceAdditionalSpecFns;

verus! {

/// A frame: a tag byte, then the big-endian length of the length word and
/// the body together, then the body.
pub open spec fn frame_of(tag: u8, body: Seq<u8>) -> Seq<u8> {
    seq![tag] + be_bytes((body.len() + 4) as u32) + body
}

/// The bytes of a NUL-terminated string.
pub open spec fn cstr(s: Seq<u8>) -> Seq<u8> {
    s.push(0u8)
}

/// `AuthenticationOk`: `'R'`, length 8, code 0.
pub open spec fn auth_ok_spec() -> Seq<u8> {
    frame_of(0x52, be_bytes(0))
}

/// `ReadyForQuery` with status idle: `'Z'`, length 5, `'I'`.
pub open spec fn ready_for_query_spec() -> Seq<u8> {
    frame_of(0x5a, seq![0x49u8])
}

/// `ParameterStatus` carrying `key = value`.
pub open spec fn server_parameter_spec(key: Seq<u8>, value: Seq<u8>) -> Seq<u8> {
    frame_of(0x53, cstr(key) + cstr(value))
}

/// `PasswordMessage` carrying `secret`.
pub open spec fn password_message_spec(secret: Seq<u8>) -> Seq<u8> {
    frame_of(0x70, cstr(secret))
}

/// The text an MD5 password exchange sends for the final digest `outer`:
/// `"md5"` and its hex.
pub open spec fn md5_response_spec(outer: Seq<u8>) -> Seq<u8> {
    seq![0x6du8, 0x64u8, 0x35u8] + hex_of(outer)
}

/// The input of the second MD5 round: the hex of the first digest, then the salt.
pub open spec fn salted_input_spec(inner: Seq<u8>, salt: Seq<u8>) -> Seq<u8> {
    hex_of(inner) + salt
}

/// The whole MD5 `PasswordMessage`:
/// `"md5" || hex(md5(hex(md5(password || user)) || salt))`.
pub open spec fn password_md5_spec(user: Seq<u8>, password: Seq<u8>, salt: Seq<u8>) -> Seq<u8> {
    password_message_spec(
        md5_response_spec(md5_of(salted_input_spec(md5_of(password + user), salt))),
    )
}

/// Builds a frame with tag `tag` around `body`.
pub fn build_frame(tag: u8, body: &[u8]) -> (r: Vec<u8>)
    requires
        body@.len() + 4 <= i32::MAX,
    ensures
        r@ == frame_of(tag, body@),
{
    let mut msg: Vec<u8> = Vec::new();
    msg.push(tag);
    push_u32_be(&mut msg, (body.len() + 4) as u32);
    append_bytes(&mut msg, body);
    msg
}

pub fn auth_ok() -> (r: Vec<u8>)
    ensures
        r@ == auth_ok_spec(),
{
    let mut body: Vec<u8> = Vec::new();
    push_u32_be(&mut body, 0);
    build_frame(0x52, body.as_slice())
}

pub fn ready_for_query() -> (r: Vec<u8>)
    ensures
        r@ == ready_for_query_spec(),
{
    let body: Vec<u8> = vec![0x49u8];
    build_frame(0x5a, body.as_slice())
}

pub fn server_parameter(key: &str, value: &str) -> (r: Vec<u8>)
    requires
        key.spec_bytes().len() + value.spec_bytes().len() + 6 <= i32::MAX,
    ensures
        r@ == server_parameter_spec(key.spec_bytes(), value.spec_bytes()),
{
    let mut body: Vec<u8> = Vec::new();
    append_bytes(&mut body, key.as_bytes());
    body.push(0);
    append_bytes(&mut body, value.as_bytes());
    body.push(0);
    proof {
        assert(body@ =~= cstr(key.spec_bytes()) + cstr(value.spec_bytes()));
    }
    build_frame(0x53, body.as_slice())
}

/// A `PasswordMessage` carrying the bytes of `secret`.
pub fn password_message(secret: &[u8]) -> (r: Vec<u8>)
    requires
        secret@.len() + 5 <= i32::MAX,
    ensures
        r@ == password_message_spec(secret@),
{
    let mut body: Vec<u8> = Vec::new();
    append_bytes(&mut body, secret);
    body.push(0);
    build_frame(0x70, body.as_slice())
}

pub fn password_cleartext(password: &str) -> (r: Vec<u8>)
    requires
        password.spec_bytes().len() + 5 <= i32::MAX,
    ensures
        r@ == password_message_spec(password.spec_bytes()),
{
    password_message(password.as_bytes())
}

/// The input of the second MD5 round, from the first digest and the salt.
pub fn salted_input(inner: &[u8], salt: &[u8]) -> (r: Vec<u8>)
    requires
        inner@.len() <= usize::MAX / 2,
    ensures
        r@ == salted_input_spec(inner@, salt@),
{
    let mut out = hex_lower(inner);
    append_bytes(&mut out, salt);
    out
}

/// `"md5"` followed by the hex of the final digest.
pub fn md5_response(outer: &[u8]) -> (r: Vec<u8>)
    requires
        outer@.len() <= usize::MAX / 2,
    ensures
        r@ == md5_response_spec(outer@),
{
    let mut out: Vec<u8> = vec![0x6du8, 0x64u8, 0x35u8];
    let hex = hex_lower(outer);
    append_bytes(&mut out, hex.as_slice());
    out
}

/// The `PasswordMessage` of an MD5 challenge with salt `salt`.
pub fn password_md5(username: &str, password: &str, salt: &[u8]) -> (r: Vec<u8>)
    ensures
        r@ == password_md5_spec(username.spec_bytes(), password.spec_bytes(), salt@),
        r@.len() == 41,
{
    let mut userpass: Vec<u8> = Vec::new();
    append_bytes(&mut userpass, password.as_bytes());
    append_bytes(&mut userpass, username.as_bytes());
    let inner = md5_digest(userpass.as_slice());
    let second = salted_input(inner.as_slice(), salt);
    let outer = md5_digest(second.as_slice());
    let response = md5_response(outer.as_slice());
    password_message(response.as_slice())
}

} // verus!
