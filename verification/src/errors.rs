//! The gateway's error taxonomy and the JSON error envelope.
//!
//! Every error that reaches a caller is rendered as
//! `{"success":false,"error":"<message>"}` with a status code drawn
//! from the taxonomy.

use vstd::prelude::*;

verus! {

use crate::text::push_char;

/// Errors surfaced by the gateway core.
#[derive(Debug)]
pub enum GatewayError {
    /// A record of the named kind was not found (kind, detail).
    NotFound(String, String),
    /// The input was understood but lacked required data.
    MissingData(String),
    /// The caller presented no usable credential.
    Unauthorized(String),
    /// A storage round-trip failed.
    DatabaseError(String),
    /// Authentication failed; deliberately undifferentiated.
    InvalidUsernameOrPassword(String),
    /// The credential is valid but grants no sufficient role.
    Forbidden(String),
    /// A bearer token could not be decoded or verified.
    TokenDecodeError(String),
    /// A token could not be issued.
    TokenEncodeError(String),
    /// An unexpected platform failure.
    SystemError(String),
    /// Malformed input, or an expired or spent reset request.
    BadRequest(String),
}

/// The message rendered for each error, mirrored by `message`.
pub open spec fn spec_message(e: GatewayError) -> Seq<char> {
    match e {
        GatewayError::NotFound(kind, detail) => kind@ + " Record not found: "@ + detail@,
        GatewayError::MissingData(m) => "Missing data: "@ + m@,
        GatewayError::Unauthorized(m) => "Not authorized: "@ + m@,
        GatewayError::DatabaseError(m) => "Database error: "@ + m@,
        GatewayError::InvalidUsernameOrPassword(m) => "Invalid Username or Password: "@ + m@,
        GatewayError::Forbidden(m) => "Forbidden: "@ + m@,
        GatewayError::TokenDecodeError(m) => "Unable to decode auth token: "@ + m@,
        GatewayError::TokenEncodeError(m) => "Unable to encode auth token: "@ + m@,
        GatewayError::SystemError(m) => "System Error: "@ + m@,
        GatewayError::BadRequest(m) => "Bad Request: "@ + m@,
    }
}

/// The HTTP status for each error, mirrored by `status_code`.
pub open spec fn spec_status_code(e: GatewayError) -> u16 {
    match e {
        GatewayError::NotFound(_, _) => 404,
        GatewayError::Unauthorized(_) => 401,
        GatewayError::MissingData(_) => 400,
        GatewayError::BadRequest(_) => 400,
        GatewayError::InvalidUsernameOrPassword(_) => 403,
        GatewayError::Forbidden(_) => 403,
        GatewayError::DatabaseError(_) => 500,
        GatewayError::TokenDecodeError(_) => 401,
        GatewayError::TokenEncodeError(_) => 500,
        GatewayError::SystemError(_) => 500,
    }
}

/// How one character of an error message is written inside the JSON
/// envelope: quotes and backslashes are escaped, the common control
/// characters get their short escapes, and any other control
/// character is replaced by a space.
pub open spec fn escape_char(c: char) -> Seq<char> {
    if c == '"' {
        seq!['\\', '"']
    } else if c == '\\' {
        seq!['\\', '\\']
    } else if c == '\n' {
        seq!['\\', 'n']
    } else if c == '\r' {
        seq!['\\', 'r']
    } else if c == '\t' {
        seq!['\\', 't']
    } else if (c as u32) < 32 {
        seq![' ']
    } else {
        seq![c]
    }
}

/// JSON string escaping, character by character.
pub open spec fn escape_json(s: Seq<char>) -> Seq<char>
    decreases s.len(),
{
    if s.len() == 0 {
        Seq::empty()
    } else {
        escape_char(s[0]) + escape_json(s.drop_first())
    }
}

/// The error envelope used for every error response.
pub open spec fn spec_envelope(msg: Seq<char>) -> Seq<char> {
    "{\"success\":false,\"error\":\""@ + escape_json(msg) + "\"}"@
}

proof fn lemma_escape_json_push(s: Seq<char>, c: char)
    ensures
        escape_json(s.push(c)) == escape_json(s) + escape_char(c),
    decreases s.len(),
{
    if s.len() == 0 {
        assert(s.push(c) =~= seq![c]);
        assert(s.push(c)[0] == c);
        assert(s.push(c).drop_first() =~= Seq::<char>::empty());
        assert(escape_json(s.push(c)) =~= escape_char(c) + escape_json(Seq::<char>::empty()));
        assert(escape_char(c) + escape_json(Seq::<char>::empty()) =~= escape_char(c));
        assert(escape_json(s) + escape_char(c) =~= escape_char(c));
    } else {
        assert(s.push(c)[0] == s[0]);
        assert(s.push(c).drop_first() =~= s.drop_first().push(c));
        lemma_escape_json_push(s.drop_first(), c);
        assert(escape_json(s.push(c)) =~= escape_char(s[0]) + (escape_json(s.drop_first())
            + escape_char(c)));
        assert(escape_char(s[0]) + (escape_json(s.drop_first()) + escape_char(c)) =~= (escape_char(
            s[0],
        ) + escape_json(s.drop_first())) + escape_char(c));
    }
}

/// Escapes a message for inclusion in the JSON envelope.
pub fn escape_message(msg: &str) -> (r: String)
    ensures
        r@ == escape_json(msg@),
{
    let len = msg.unicode_len();
    let mut out = String::new();
    let mut i: usize = 0;
    while i < len
        invariant
            len == msg@.len(),
            i <= len,
            out@ == escape_json(msg@.subrange(0, i as int)),
        decreases len - i,
    {
        let c = msg.get_char(i);
        if c == '"' {
            out.append("\\\"");
            proof {
                reveal_strlit("\\\"");
                assert(out@ =~= escape_json(msg@.subrange(0, i as int)) + escape_char(c));
            }
        } else if c == '\\' {
            out.append("\\\\");
            proof {
                reveal_strlit("\\\\");
                assert(out@ =~= escape_json(msg@.subrange(0, i as int)) + escape_char(c));
            }
        } else if c == '\n' {
            out.append("\\n");
            proof {
                reveal_strlit("\\n");
                assert(out@ =~= escape_json(msg@.subrange(0, i as int)) + escape_char(c));
            }
        } else if c == '\r' {
            out.append("\\r");
            proof {
                reveal_strlit("\\r");
                assert(out@ =~= escape_json(msg@.subrange(0, i as int)) + escape_char(c));
            }
        } else if c == '\t' {
            out.append("\\t");
            proof {
                reveal_strlit("\\t");
                assert(out@ =~= escape_json(msg@.subrange(0, i as int)) + escape_char(c));
            }
        } else if (c as u32) < 32 {
            out.append(" ");
            proof {
                reveal_strlit(" ");
                assert(out@ =~= escape_json(msg@.subrange(0, i as int)) + escape_char(c));
            }
        } else {
            push_char(&mut out, c);
            proof {
                assert(out@ =~= escape_json(msg@.subrange(0, i as int)) + escape_char(c));
            }
        }
        proof {
            lemma_escape_json_push(msg@.subrange(0, i as int), c);
            assert(msg@.subrange(0, i as int).push(c) =~= msg@.subrange(0, i as int + 1));
        }
        i = i + 1;
    }
    proof {
        assert(msg@.subrange(0, len as int) =~= msg@);
    }
    out
}

impl GatewayError {
    /// The human-readable message for this error.
    pub fn message(&self) -> (r: String)
        ensures
            r@ == spec_message(*self),
    {
        match self {
            GatewayError::NotFound(kind, detail) => {
                let mut s = kind.as_str().to_owned();
                s.append(" Record not found: ");
                s.append(detail.as_str());
                s
            },
            GatewayError::MissingData(m) => {
                let mut s = "Missing data: ".to_owned();
                s.append(m.as_str());
                s
            },
            GatewayError::Unauthorized(m) => {
                let mut s = "Not authorized: ".to_owned();
                s.append(m.as_str());
                s
            },
            GatewayError::DatabaseError(m) => {
                let mut s = "Database error: ".to_owned();
                s.append(m.as_str());
                s
            },
            GatewayError::InvalidUsernameOrPassword(m) => {
                let mut s = "Invalid Username or Password: ".to_owned();
                s.append(m.as_str());
                s
            },
            GatewayError::Forbidden(m) => {
                let mut s = "Forbidden: ".to_owned();
                s.append(m.as_str());
                s
            },
            GatewayError::TokenDecodeError(m) => {
                let mut s = "Unable to decode auth token: ".to_owned();
                s.append(m.as_str());
                s
            },
            GatewayError::TokenEncodeError(m) => {
                let mut s = "Unable to encode auth token: ".to_owned();
                s.append(m.as_str());
                s
            },
            GatewayError::SystemError(m) => {
                let mut s = "System Error: ".to_owned();
                s.append(m.as_str());
                s
            },
            GatewayError::BadRequest(m) => {
                let mut s = "Bad Request: ".to_owned();
                s.append(m.as_str());
                s
            },
        }
    }

    /// The HTTP status code this error is reported with.
    pub fn status_code(&self) -> (r: u16)
        ensures
            r == spec_status_code(*self),
    {
        match self {
            GatewayError::NotFound(_, _) => 404,
            GatewayError::Unauthorized(_) => 401,
            GatewayError::MissingData(_) => 400,
            GatewayError::BadRequest(_) => 400,
            GatewayError::InvalidUsernameOrPassword(_) => 403,
            GatewayError::Forbidden(_) => 403,
            GatewayError::DatabaseError(_) => 500,
            GatewayError::TokenDecodeError(_) => 401,
            GatewayError::TokenEncodeError(_) => 500,
            GatewayError::SystemError(_) => 500,
        }
    }

    /// The JSON error envelope for this error.
    pub fn error_body(&self) -> (r: String)
        ensures
            r@ == spec_envelope(spec_message(*self)),
    {
        let msg = self.message();
        let mut out = "{\"success\":false,\"error\":\"".to_owned();
        let escaped = escape_message(msg.as_str());
        out.append(escaped.as_str());
        out.append("\"}");
        out
    }
}

} // verus!
