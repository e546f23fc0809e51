//! Serving a Git HTTPS credential from a key.
use vstd::prelude::*;
use vstd::string::*;
use vstd::utf8::*;
use crate::errors;
use crate::errors::OsError;
use crate::parse;
use crate::secret::Secret;
use crate::text;

verus! {

/// The largest request, in bytes.
pub const MAX_CREDENTIAL_REQUEST: u64 = 0x1_0000;

/// The message for an operation that is none.
pub open spec fn unsupported(operation: Seq<char>) -> Seq<char> {
    "unsupported Git credential operation "@ + text::debug_text(operation)
}

/// Whether an operation asks for nothing: `store` and `erase` do not change the
/// keyset.
pub open spec fn is_noop(operation: Seq<char>) -> bool {
    operation == "store"@ || operation == "erase"@
}

/// Answers the operations that do not need a keyset.
pub fn git_credential_noop(operation: &str) -> (r: Result<(), String>)
    ensures
        match r {
            Ok(_) => is_noop(operation@),
            Err(e) => !is_noop(operation@) && e@ == unsupported(operation@),
        },
{
    if text::same(operation, "store") || text::same(operation, "erase") {
        Ok(())
    } else {
        Err(
            text::join2(
                "unsupported Git credential operation ",
                text::quoted(operation).as_str(),
            ),
        )
    }
}

/// Whether text can stand in a line of the credential protocol.
pub open spec fn is_one_line(s: Seq<char>) -> bool {
    !s.contains('\n') && !s.contains('\r')
}

/// Whether the user name and the host can be answered for.
pub open spec fn can_answer(username: Seq<char>, host: Seq<char>) -> bool {
    &&& username.len() > 0
    &&& is_one_line(username)
    &&& !username.contains('=')
    &&& host.len() > 0
    &&& is_one_line(host)
}

/// What a credential is asked for with: a user name and a host that can be answered
/// for.
pub struct Helper {
    username: String,
    host: String,
}

impl Helper {
    #[verifier::type_invariant]
    spec fn inv(self) -> bool {
        can_answer(self.username@, self.host@)
    }

    /// The user name to answer with.
    pub closed spec fn username(self) -> Seq<char> {
        self.username@
    }

    /// The host to answer for.
    pub closed spec fn host(self) -> Seq<char> {
        self.host@
    }

    /// What a credential is asked for with. `store` and `erase` ask for none, and any
    /// other operation than `get` is refused, as are a user name and a host that cannot
    /// be answered for.
    pub fn new(operation: &str, username: &str, host: &str) -> (r: Result<Option<Helper>, String>)
        ensures
            match r {
                Ok(Some(h)) => {
                    &&& operation@ == "get"@
                    &&& !is_noop(operation@)
                    &&& can_answer(username@, host@)
                    &&& h.username() == username@
                    &&& h.host() == host@
                },
                Ok(None) => is_noop(operation@),
                Err(e) => if operation@ != "get"@ {
                    !is_noop(operation@) && e@ == unsupported(operation@)
                } else {
                    !can_answer(username@, host@) && e@ == "invalid credential username or host"@
                },
            },
    {
        if !text::same(operation, "get") {
            return match git_credential_noop(operation) {
                Ok(_) => Ok(None),
                Err(e) => Err(e),
            };
        }
        proof {
            reveal_strlit("get");
            reveal_strlit("store");
            reveal_strlit("erase");
            assert("get"@.len() == 3 && "store"@.len() == 5 && "erase"@.len() == 5);
        }
        if username.is_empty() || text::contains(username, '\n') || text::contains(username, '\r')
            || text::contains(username, '=') || host.is_empty() || text::contains(host, '\n')
            || text::contains(host, '\r') {
            return Err("invalid credential username or host".to_owned());
        }
        Ok(Some(Helper { username: username.to_owned(), host: host.to_owned() }))
    }

    /// Takes the request that was read. One that is not for the host, or not over
    /// HTTPS, is not answered.
    pub fn request(self, request: Result<String, OsError>) -> (r: Result<Option<Approved>, String>)
        ensures
            match request {
                Err(e) => r matches Err(m) && m@ == errors::io_message(
                    "reading Git credential request"@,
                    e,
                ),
                Ok(text) => if encode_utf8(text@).len() > MAX_CREDENTIAL_REQUEST {
                    r matches Err(m) && m@ == "Git credential request is too large"@
                } else if request_matches(text@, self.host()) {
                    r matches Ok(Some(a)) && a.username() == self.username()
                } else {
                    r matches Ok(None)
                },
            },
    {
        proof {
            use_type_invariant(&self);
        }
        match request {
            Err(e) => Err(errors::io_err("reading Git credential request", &e)),
            Ok(text) => if text.as_str().as_bytes().len() as u64 > MAX_CREDENTIAL_REQUEST {
                Err("Git credential request is too large".to_owned())
            } else if credential_request_matches(text.as_str(), self.host.as_str()) {
                Ok(Some(Approved { username: self.username }))
            } else {
                Ok(None)
            },
        }
    }
}

/// A request that is to be answered.
pub struct Approved {
    username: String,
}

impl Approved {
    #[verifier::type_invariant]
    spec fn inv(self) -> bool {
        is_one_line(self.username@) && self.username@.len() > 0
    }

    /// The user name to answer with.
    pub closed spec fn username(self) -> Seq<char> {
        self.username@
    }

    /// The answer: the user name, and the secret as the password. Nothing can be
    /// smuggled into it: it is the line of the user name, that of the password and an
    /// empty line, whatever the secret is.
    pub fn answer(&self, key: &str, value: &Secret) -> (r: Result<Secret, String>)
        ensures
            match r {
                Ok(bytes) => can_serve(value@) && bytes@ == answer_bytes(self.username(), value@)
                    && in_two_lines(bytes@, self.username(), value@),
                Err(e) => !can_serve(value@) && e@ == "key "@ + text::debug_text(key@)
                    + " cannot be used as a Git credential"@,
            },
    {
        proof {
            use_type_invariant(self);
            if can_serve(value@) {
                law_answer_lines(self.username@, value@);
            }
        }
        if !servable(value) {
            return Err(
                text::join3(
                    "key ",
                    text::quoted(key).as_str(),
                    " cannot be used as a Git credential",
                ),
            );
        }
        let head = text::join3("username=", self.username.as_str(), "\npassword=");
        let line = head.as_str().as_bytes();
        // A buffer of the full size from the start, so that none is left behind unwiped.
        let size: usize = line.len().saturating_add(value.0.len()).saturating_add(2);
        let mut bytes = Secret(Vec::with_capacity(size));
        bytes.0.extend_from_slice(line);
        bytes.0.extend_from_slice(value.0.as_slice());
        bytes.0.extend_from_slice("\n\n".as_bytes());
        assert(bytes@ =~= answer_bytes(self.username@, value@));
        Ok(bytes)
    }
}

/// The value of the last of the lines `name=value`, before the first that is empty.
pub open spec fn last_value(lines: Seq<Seq<char>>, name: Seq<char>) -> Option<Seq<char>>
    decreases lines.len(),
{
    if lines.len() == 0 || lines[0].len() == 0 {
        None
    } else {
        match last_value(lines.drop_first(), name) {
            Some(v) => Some(v),
            None => match text::cut(lines[0], '=') {
                Some((n, v)) => if n == name {
                    Some(v)
                } else {
                    None
                },
                None => None,
            },
        }
    }
}

/// Whether a request asks for a credential for a host over HTTPS.
pub open spec fn request_matches(request: Seq<char>, host: Seq<char>) -> bool {
    &&& last_value(text::lines(request), "protocol"@) == Some("https"@)
    &&& last_value(text::lines(request), "host"@) == Some(host)
}

/// What a later line says counts.
pub open spec fn or_else(later: Option<Seq<char>>, sooner: Option<Seq<char>>) -> Option<Seq<char>> {
    match later {
        Some(v) => Some(v),
        None => sooner,
    }
}

/// The text of an optional line's value.
spec fn value_of(v: Option<&str>) -> Option<Seq<char>> {
    match v {
        Some(s) => Some(s@),
        None => None,
    }
}

/// Whether a request asks for a credential for `host` over HTTPS.
pub fn credential_request_matches(request: &str, host: &str) -> (r: bool)
    ensures
        r == request_matches(request@, host@),
{
    let mut protocol: Option<&str> = None;
    let mut requested_host: Option<&str> = None;
    let mut rest = request;
    let mut ended: bool = false;
    proof {
        reveal_strlit("protocol");
        reveal_strlit("host");
        assert("protocol"@.len() == 8 && "host"@.len() == 4);
    }
    while !rest.is_empty() && !ended
        invariant
            "protocol"@ != "host"@,
            !ended ==> last_value(text::lines(request@), "protocol"@) == or_else(
                last_value(text::lines(rest@), "protocol"@),
                value_of(protocol),
            ),
            !ended ==> last_value(text::lines(request@), "host"@) == or_else(
                last_value(text::lines(rest@), "host"@),
                value_of(requested_host),
            ),
            ended ==> last_value(text::lines(request@), "protocol"@) == value_of(protocol),
            ended ==> last_value(text::lines(request@), "host"@) == value_of(requested_host),
        decreases rest@.len(), if ended { 0int } else { 1int },
    {
        proof {
            parse::lemma_first_line_shrinks(rest@);
        }
        let (line, next) = text::next_line(rest);
        if line.is_empty() {
            ended = true;
        } else {
            if let Some((name, value)) = text::split_once(line, '=') {
                if text::same(name, "protocol") {
                    protocol = Some(value);
                } else if text::same(name, "host") {
                    requested_host = Some(value);
                }
            }
            rest = next;
        }
    }
    let secure = match protocol {
        Some(p) => text::same(p, "https"),
        None => false,
    };
    let meant = match requested_host {
        Some(h) => text::same(h, host),
        None => false,
    };
    secure && meant
}

/// Whether a secret can be a password of the credential protocol: a line that is not
/// empty.
pub open spec fn can_serve(value: Seq<u8>) -> bool {
    value.len() > 0 && !value.contains(10) && !value.contains(13)
}

/// The bytes of the answer.
pub open spec fn answer_bytes(username: Seq<char>, value: Seq<u8>) -> Seq<u8> {
    encode_utf8("username="@ + username + "\npassword="@) + value + encode_utf8("\n\n"@)
}

/// Whether bytes are the line of the user name, that of the password and an empty
/// line, where the first two hold no line break.
pub open spec fn in_two_lines(bytes: Seq<u8>, username: Seq<char>, value: Seq<u8>) -> bool {
    let user = encode_utf8("username="@ + username);
    let pass = encode_utf8("password="@) + value;
    &&& bytes == user + seq![10u8] + pass + seq![10u8, 10u8]
    &&& !user.contains(10)
    &&& !user.contains(13)
    &&& !pass.contains(10)
    &&& !pass.contains(13)
}

/// Whether a secret can be a password of the credential protocol.
fn servable(value: &Secret) -> (r: bool)
    ensures
        r == can_serve(value@),
{
    let mut i: usize = 0;
    while i < value.0.len()
        invariant
            i <= value@.len(),
            forall|k: int| 0 <= k < i ==> value@[k] != 10 && value@[k] != 13,
        decreases value@.len() - i,
    {
        if value.0[i] == 10 || value.0[i] == 13 {
            assert(value@.contains(value@[i as int]));
            return false;
        }
        i = i + 1;
    }
    value.0.len() > 0
}

/// A value that counts is that of one of the lines.
proof fn lemma_last_value(lines: Seq<Seq<char>>, name: Seq<char>)
    ensures
        last_value(lines, name) matches Some(v) ==> exists|i: int|
            0 <= i < lines.len() && #[trigger] lines[i] == name + seq!['='] + v,
    decreases lines.len(),
{
    if let Some(v) = last_value(lines, name) {
        let rest = lines.drop_first();
        lemma_last_value(rest, name);
        if last_value(rest, name) is Some {
            let i = choose|i: int|
                0 <= i < rest.len() && #[trigger] rest[i] == name + seq!['='] + v;
            assert(lines[i + 1] == rest[i]);
        } else {
            let line = lines[0];
            text::lemma_find(line, '=');
            assert(line =~= name + seq!['='] + v);
        }
    }
}

/// A credential is served only for HTTPS and for the very host that is configured:
/// a request that is answered has the lines `protocol=https` and `host=` with it.
pub proof fn law_answers_only_host(request: Seq<char>, host: Seq<char>)
    requires
        request_matches(request, host),
    ensures
        text::lines(request).contains("protocol=https"@),
        text::lines(request).contains("host="@ + host),
{
    let lines = text::lines(request);
    lemma_last_value(lines, "protocol"@);
    lemma_last_value(lines, "host"@);
    reveal_strlit("protocol");
    reveal_strlit("https");
    reveal_strlit("protocol=https");
    reveal_strlit("host");
    reveal_strlit("host=");
    assert("protocol"@ + seq!['='] + "https"@ =~= "protocol=https"@);
    assert("host"@ + seq!['='] + host =~= "host="@ + host);
}

/// Nothing can be smuggled into an answer: for a user name of one line, and a secret
/// that can be a password, it is the line of the user name, that of the password and
/// an empty line.
pub proof fn law_answer_lines(username: Seq<char>, value: Seq<u8>)
    requires
        is_one_line(username),
        can_serve(value),
    ensures
        in_two_lines(answer_bytes(username, value), username, value),
{
    let user = encode_utf8("username="@ + username);
    let pass = encode_utf8("password="@) + value;
    reveal_strlit("username=");
    reveal_strlit("password=");
    reveal_strlit("\npassword=");
    reveal_strlit("\n\n");
    lemma_feed();
    let lf = seq!['\n'];
    assert("\npassword="@ =~= lf + "password="@);
    assert("username="@ + username + "\npassword="@ =~= ("username="@ + username) + (lf
        + "password="@));
    text::lemma_encode_concat("username="@ + username, lf + "password="@);
    text::lemma_encode_concat(lf, "password="@);
    assert("\n\n"@ =~= lf + lf);
    text::lemma_encode_concat(lf, lf);
    assert(answer_bytes(username, value) =~= user + seq![10u8] + pass + seq![10u8, 10u8]);
    let u = "username="@ + username;
    assert(!u.contains('\n') && !u.contains('\r')) by {
        assert forall|c: char| (c == '\n' || c == '\r') && u.contains(c) implies false by {
            let i = choose|i: int| 0 <= i < u.len() && u[i] == c;
            if i >= 9 {
                assert(username[i - 9] == c);
                assert(username.contains(c));
            }
        }
    }
    let p = "password="@;
    assert(!p.contains('\n') && !p.contains('\r'));
    text::lemma_ascii_byte(u, '\n');
    text::lemma_ascii_byte(u, '\r');
    text::lemma_ascii_byte(p, '\n');
    text::lemma_ascii_byte(p, '\r');
    assert forall|b: u8| (b == 10 || b == 13) && pass.contains(b) implies false by {
        let i = choose|i: int| 0 <= i < pass.len() && pass[i] == b;
        let n = encode_utf8(p).len();
        if i < n {
            assert(encode_utf8(p)[i] == b);
            assert(encode_utf8(p).contains(b));
        } else {
            assert(value[i - n] == b);
            assert(value.contains(b));
        }
    }
}

/// A line feed is one byte.
proof fn lemma_feed()
    ensures
        encode_utf8(seq!['\n']) == seq![10u8],
{
    text::lemma_ascii_one('\n');
}

/// The last value that counts for a name, by the lines before the first empty one.
proof fn lemma_last_value_is(lines: Seq<Seq<char>>, name: Seq<char>, e: int, p: int, v: Seq<char>)
    requires
        !name.contains('='),
        0 <= e <= lines.len(),
        e == lines.len() || lines[e].len() == 0,
        forall|i: int| 0 <= i < e ==> (#[trigger] lines[i]).len() > 0,
        -1 <= p < e,
        p >= 0 ==> lines[p] == name + seq!['='] + v,
        forall|i: int|
            p < i < e ==> !(name + seq!['=']).is_prefix_of(#[trigger] lines[i]),
    ensures
        last_value(lines, name) == if p >= 0 {
            Some(v)
        } else {
            None
        },
    decreases lines.len(),
{
    if e > 0 {
        let rest = lines.drop_first();
        assert(lines[0].len() > 0);
        assert forall|i: int| 0 <= i < e - 1 implies (#[trigger] rest[i]).len() > 0 by {
            assert(lines[i + 1].len() > 0);
        }
        let q = if p > 0 {
            p - 1
        } else {
            -1
        };
        assert forall|i: int| q < i < e - 1 implies !(name + seq!['=']).is_prefix_of(
            #[trigger] rest[i],
        ) by {
            assert(rest[i] == lines[i + 1]);
        }
        if e < lines.len() {
            assert(rest[e - 1] == lines[e]);
        }
        if p > 0 {
            assert(rest[p - 1] == lines[p]);
        }
        lemma_last_value_is(rest, name, e - 1, q, v);
        let line = lines[0];
        text::lemma_cut_any(line, '=');
        if p == 0 {
            text::law_cut(name, '=', v);
        } else if p < 0 {
            if let Some((n, w)) = text::cut(line, '=') {
                if n == name {
                    let head = name + seq!['='];
                    assert(line =~= head + w);
                    assert(head =~= line.subrange(0, head.len() as int));
                }
            }
        }
    } else if lines.len() > 0 {
        assert(lines[0].len() == 0);
    }
}

/// The names that count hold no `=`.
proof fn lemma_names_plain()
    ensures
        !"protocol"@.contains('='),
        !"host"@.contains('='),
        "protocol"@ + seq!['='] == "protocol="@,
        "host"@ + seq!['='] == "host="@,
        "protocol"@ + seq!['='] + "https"@ == "protocol=https"@,
{
    reveal_strlit("protocol");
    reveal_strlit("host");
    reveal_strlit("https");
    reveal_strlit("protocol=");
    reveal_strlit("host=");
    reveal_strlit("protocol=https");
    assert("protocol"@ + seq!['='] =~= "protocol="@);
    assert("host"@ + seq!['='] =~= "host="@);
    assert("protocol"@ + seq!['='] + "https"@ =~= "protocol=https"@);
}

/// A request is for the host where, among its lines before the first empty one, the last
/// that begins with `protocol=` is `protocol=https` and the last that begins with `host=`
/// goes on with the host, whatever the other lines are.
pub proof fn law_request_served(request: Seq<char>, host: Seq<char>, e: int, p: int, h: int)
    requires
        0 <= e <= text::lines(request).len(),
        e == text::lines(request).len() || text::lines(request)[e].len() == 0,
        forall|i: int| 0 <= i < e ==> (#[trigger] text::lines(request)[i]).len() > 0,
        0 <= p < e,
        0 <= h < e,
        text::lines(request)[p] == "protocol=https"@,
        text::lines(request)[h] == "host="@ + host,
        forall|i: int|
            p < i < e ==> !"protocol="@.is_prefix_of(#[trigger] text::lines(request)[i]),
        forall|i: int| h < i < e ==> !"host="@.is_prefix_of(#[trigger] text::lines(request)[i]),
    ensures
        request_matches(request, host),
{
    let lines = text::lines(request);
    lemma_names_plain();
    lemma_last_value_is(lines, "protocol"@, e, p, "https"@);
    lemma_last_value_is(lines, "host"@, e, h, host);
}

/// A request is for no host where, among its lines before the first empty one, none
/// begins with `protocol=` or none with `host=`, or the last that does goes on otherwise.
pub proof fn law_request_declined(
    request: Seq<char>,
    host: Seq<char>,
    e: int,
    p: int,
    protocol: Seq<char>,
    h: int,
    asked: Seq<char>,
)
    requires
        0 <= e <= text::lines(request).len(),
        e == text::lines(request).len() || text::lines(request)[e].len() == 0,
        forall|i: int| 0 <= i < e ==> (#[trigger] text::lines(request)[i]).len() > 0,
        -1 <= p < e,
        -1 <= h < e,
        p >= 0 ==> text::lines(request)[p] == "protocol="@ + protocol,
        h >= 0 ==> text::lines(request)[h] == "host="@ + asked,
        forall|i: int|
            p < i < e ==> !"protocol="@.is_prefix_of(#[trigger] text::lines(request)[i]),
        forall|i: int| h < i < e ==> !"host="@.is_prefix_of(#[trigger] text::lines(request)[i]),
        p < 0 || h < 0 || protocol != "https"@ || asked != host,
    ensures
        !request_matches(request, host),
{
    let lines = text::lines(request);
    lemma_names_plain();
    lemma_last_value_is(lines, "protocol"@, e, p, protocol);
    lemma_last_value_is(lines, "host"@, e, h, asked);
}

/// Which user names and hosts can be answered for, and which secrets can be passwords:
/// those that are not empty and have no line break, and user names no `=`.
pub proof fn law_answerable(username: Seq<char>, host: Seq<char>, value: Seq<u8>)
    ensures
        can_answer(username, host) <==> username.len() > 0 && host.len() > 0 && (forall|i: int|
            0 <= i < username.len() ==> (#[trigger] username[i]) != '\n' && username[i] != '\r'
                && username[i] != '=') && (forall|i: int|
            0 <= i < host.len() ==> (#[trigger] host[i]) != '\n' && host[i] != '\r'),
        can_serve(value) <==> value.len() > 0 && forall|i: int|
            0 <= i < value.len() ==> (#[trigger] value[i]) != 10 && value[i] != 13,
{
    if can_answer(username, host) {
        assert forall|i: int| 0 <= i < username.len() implies (#[trigger] username[i]) != '\n'
            && username[i] != '\r' && username[i] != '=' by {
            assert(username.contains(username[i]));
        }
        assert forall|i: int| 0 <= i < host.len() implies (#[trigger] host[i]) != '\n' && host[i]
            != '\r' by {
            assert(host.contains(host[i]));
        }
    }
    if can_serve(value) {
        assert forall|i: int| 0 <= i < value.len() implies (#[trigger] value[i]) != 10 && value[i]
            != 13 by {
            assert(value.contains(value[i]));
        }
    }
}

/// An answer is the line of the user name, the line of the password, which is the secret
/// byte for byte, and an empty line.
pub proof fn law_answer(username: Seq<char>, value: Seq<u8>)
    ensures
        answer_bytes(username, value) == encode_utf8("username="@) + encode_utf8(username)
            + seq![10u8] + encode_utf8("password="@) + value + seq![10u8, 10u8],
        is_noop("get"@) == false,
        is_noop("store"@) && is_noop("erase"@),
{
    reveal_strlit("\npassword=");
    reveal_strlit("password=");
    reveal_strlit("\n\n");
    reveal_strlit("get");
    reveal_strlit("store");
    reveal_strlit("erase");
    assert("get"@.len() == 3 && "store"@.len() == 5 && "erase"@.len() == 5);
    let lf = seq!['\n'];
    lemma_feed();
    assert("\npassword="@ =~= lf + "password="@);
    assert("\n\n"@ =~= lf + lf);
    text::lemma_encode_concat("username="@ + username, "\npassword="@);
    text::lemma_encode_concat("username="@, username);
    text::lemma_encode_concat(lf, "password="@);
    text::lemma_encode_concat(lf, lf);
    assert(answer_bytes(username, value) =~= encode_utf8("username="@) + encode_utf8(username)
        + seq![10u8] + encode_utf8("password="@) + value + seq![10u8, 10u8]);
}

/// Only `store` and `erase` ask for nothing, an operation that is none is named, and a
/// request has at most 64 kilobytes.
pub proof fn law_operations(operation: Seq<char>)
    ensures
        is_noop(operation) <==> operation == "store"@ || operation == "erase"@,
        MAX_CREDENTIAL_REQUEST == 64 * 1024,
        unsupported(operation) == "unsupported Git credential operation "@ + text::debug_text(
            operation,
        ),
{
}

} // verus!
