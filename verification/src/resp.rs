//! The command parser: it splits a completed frame's payload into tokens
//! along the line delimiter, discards the structural marker lines (array
//! headers and length prefixes), recognizes the leading command keyword, and
//! produces a typed [`Cmd`] or a typed [`RespError`].
//!
//! Parsing is pure: it mutates no shared state, and its whole result is
//! specified as a function of the payload bytes.

use crate::resp_buffered_reader::RespBufferedReader;
use vstd::prelude::*;
use vstd::utf8::{decode_utf8, valid_utf8};

verus! {

/// Errors a frame payload can produce while being parsed into a command.
/// They are per-command failures: decoder and queue state stay intact.
#[derive(Debug)]
pub enum RespError {
    InvalidPassword(String),
    CommandNotFound(String),
    IncompleteCommand,
    NoData,
    InvalidArgument(String),
    ProtocolOutOfRange(String),
    CmdNotImplemented(String),
}

/// The mathematical value of a [`RespError`].
pub enum RespErrorModel {
    InvalidPassword(Seq<char>),
    CommandNotFound(Seq<char>),
    IncompleteCommand,
    NoData,
    InvalidArgument(Seq<char>),
    ProtocolOutOfRange(Seq<char>),
    CmdNotImplemented(Seq<char>),
}

impl View for RespError {
    type V = RespErrorModel;

    open spec fn view(&self) -> RespErrorModel {
        match self {
            RespError::InvalidPassword(s) => RespErrorModel::InvalidPassword(s@),
            RespError::CommandNotFound(s) => RespErrorModel::CommandNotFound(s@),
            RespError::IncompleteCommand => RespErrorModel::IncompleteCommand,
            RespError::NoData => RespErrorModel::NoData,
            RespError::InvalidArgument(s) => RespErrorModel::InvalidArgument(s@),
            RespError::ProtocolOutOfRange(s) => RespErrorModel::ProtocolOutOfRange(s@),
            RespError::CmdNotImplemented(s) => RespErrorModel::CmdNotImplemented(s@),
        }
    }
}

pub type Result<T> = core::result::Result<T, RespError>;

/// The closed set of typed commands a frame can decode to.
#[derive(Debug)]
pub enum Cmd {
    LPOP { key: String, count: u32 },
    LPUSH { key: String, elements: Vec<Vec<u8>> },
    HELLO {
        auth: Option<String>,
        password: Option<String>,
        protocol_version: u8,
        setname: Option<String>,
    },
    SADD { key: String, member: Vec<String> },
    Unknown,
}

/// The mathematical value of a [`Cmd`].
pub enum CmdModel {
    LPOP { key: Seq<char>, count: u32 },
    LPUSH { key: Seq<char>, elements: Seq<Seq<u8>> },
    HELLO {
        auth: Option<Seq<char>>,
        password: Option<Seq<char>>,
        protocol_version: u8,
        setname: Option<Seq<char>>,
    },
    SADD { key: Seq<char>, member: Seq<Seq<char>> },
    Unknown,
}

/// The view of an optional string.
pub open spec fn opt_view(o: Option<String>) -> Option<Seq<char>> {
    match o {
        Some(s) => Some(s@),
        None => None,
    }
}

impl View for Cmd {
    type V = CmdModel;

    open spec fn view(&self) -> CmdModel {
        match self {
            Cmd::LPOP { key, count } => CmdModel::LPOP { key: key@, count: *count },
            Cmd::LPUSH { key, elements } => CmdModel::LPUSH {
                key: key@,
                elements: elements.deep_view(),
            },
            Cmd::HELLO { auth, password, protocol_version, setname } => CmdModel::HELLO {
                auth: opt_view(*auth),
                password: opt_view(*password),
                protocol_version: *protocol_version,
                setname: opt_view(*setname),
            },
            Cmd::SADD { key, member } => CmdModel::SADD { key: key@, member: member.deep_view() },
            Cmd::Unknown => CmdModel::Unknown,
        }
    }
}

/// The view of a whole parse result.
pub open spec fn result_view(r: Result<Cmd>) -> core::result::Result<CmdModel, RespErrorModel> {
    match r {
        Ok(c) => Ok(c@),
        Err(e) => Err(e@),
    }
}

/// The text carried by errors about bytes that are not valid text.
pub open spec fn lit_bad_text() -> Seq<char> {
    "invalid message type"@
}

/// What capturing a token as text yields: its characters when the bytes are
/// valid UTF-8, the invalid-text error otherwise.
pub open spec fn spec_capture(t: Seq<u8>) -> core::result::Result<Seq<char>, RespErrorModel> {
    if valid_utf8(t) {
        Ok(decode_utf8(t))
    } else {
        Err(RespErrorModel::InvalidArgument(lit_bad_text()))
    }
}

// The command keywords and the greeting's argument keywords, as bytes.
pub open spec fn kw_hello() -> Seq<u8> {
    seq![72u8, 69u8, 76u8, 76u8, 79u8]
}

pub open spec fn kw_push() -> Seq<u8> {
    seq![80u8, 85u8, 83u8, 72u8]
}

pub open spec fn kw_ack() -> Seq<u8> {
    seq![65u8, 67u8, 75u8]
}

pub open spec fn kw_queue() -> Seq<u8> {
    seq![81u8, 85u8, 69u8, 85u8, 69u8]
}

pub open spec fn kw_setname() -> Seq<u8> {
    seq![83u8, 69u8, 84u8, 78u8, 65u8, 77u8, 69u8]
}

pub open spec fn kw_auth() -> Seq<u8> {
    seq![65u8, 85u8, 84u8, 72u8]
}

pub open spec fn kw_password() -> Seq<u8> {
    seq![80u8, 65u8, 83u8, 83u8, 87u8, 79u8, 82u8, 68u8]
}

/// A structural marker token: a length-prefix line or an array-header line.
pub open spec fn is_marker(t: Seq<u8>) -> bool {
    t.len() > 0 && (t[0] == 36 || t[0] == 42)
}

/// The tokens that carry content: marker tokens are discarded.
pub open spec fn real_tokens(toks: Seq<Seq<u8>>) -> Seq<Seq<u8>>
    decreases toks.len(),
{
    if toks.len() == 0 {
        Seq::empty()
    } else {
        real_tokens(toks.drop_last()) + if is_marker(toks.last()) {
            Seq::<Seq<u8>>::empty()
        } else {
            seq![toks.last()]
        }
    }
}

/// The greeting's argument/value pairs, consumed two real tokens at a time
/// from position `j`. A recognized argument keyword writes the value to its
/// field; an unrecognized one fails; tokens run out, and the greeting is
/// done.
pub open spec fn spec_hello_pairs(
    reals: Seq<Seq<u8>>,
    j: int,
    protocol_version: u8,
    auth: Option<Seq<char>>,
    password: Option<Seq<char>>,
    setname: Option<Seq<char>>,
) -> core::result::Result<CmdModel, RespErrorModel>
    decreases reals.len() - j,
{
    if j < 0 || j + 1 >= reals.len() {
        Ok(CmdModel::HELLO { auth, password, protocol_version, setname })
    } else {
        let key = reals[j];
        let val = reals[j + 1];
        if key == kw_auth() {
            match spec_capture(val) {
                Ok(s) => spec_hello_pairs(reals, j + 2, protocol_version, Some(s), password, setname),
                Err(e) => Err(e),
            }
        } else if key == kw_setname() {
            match spec_capture(val) {
                Ok(s) => spec_hello_pairs(reals, j + 2, protocol_version, auth, password, Some(s)),
                Err(e) => Err(e),
            }
        } else if key == kw_password() {
            match spec_capture(val) {
                Ok(s) => spec_hello_pairs(reals, j + 2, protocol_version, auth, Some(s), setname),
                Err(e) => Err(e),
            }
        } else {
            match spec_capture(val) {
                Ok(s) => Err(RespErrorModel::InvalidArgument(s)),
                Err(e) => Err(e),
            }
        }
    }
}

/// The digit bytes of a version token: an optional leading plus sign is
/// accepted, as Rust's integer parsing accepts it.
pub open spec fn spec_version_digits(t: Seq<u8>) -> Seq<u8> {
    if t.len() > 0 && t[0] == 43 {
        t.subrange(1, t.len() as int)
    } else {
        t
    }
}

/// What reading the protocol version from a token yields: its value when the
/// token is a small enough decimal number (an optional leading plus sign
/// allowed), the out-of-range error carrying the token's text otherwise.
pub open spec fn spec_protocol_version(t: Seq<u8>) -> core::result::Result<u8, RespErrorModel> {
    match crate::utils::parse_dec(spec_version_digits(t)) {
        Some(v) => if 0 <= v <= 255 {
            Ok(v as u8)
        } else {
            match spec_capture(t) {
                Ok(s) => Err(RespErrorModel::ProtocolOutOfRange(s)),
                Err(e) => Err(e),
            }
        },
        None => match spec_capture(t) {
            Ok(s) => Err(RespErrorModel::ProtocolOutOfRange(s)),
            Err(e) => Err(e),
        },
    }
}

/// What parsing the greeting command yields: the protocol version from the
/// first real token after the keyword, then the argument/value pairs.
pub open spec fn spec_hello(reals: Seq<Seq<u8>>) -> core::result::Result<CmdModel, RespErrorModel> {
    if reals.len() < 2 {
        Err(RespErrorModel::NoData)
    } else {
        match spec_protocol_version(reals[1]) {
            Ok(v) => spec_hello_pairs(reals, 2, v, None, None, None),
            Err(e) => Err(e),
        }
    }
}

/// What parsing a token sequence yields: the first real token picks the
/// command; the greeting is parsed in full; the reserved keywords are
/// recognized but not yet executable; anything else is an unknown command.
pub open spec fn spec_map_command(toks: Seq<Seq<u8>>) -> core::result::Result<
    CmdModel,
    RespErrorModel,
> {
    let reals = real_tokens(toks);
    if reals.len() == 0 {
        Err(RespErrorModel::NoData)
    } else {
        let kw = reals[0];
        if kw == kw_hello() {
            spec_hello(reals)
        } else if kw == kw_push() || kw == kw_ack() || kw == kw_queue() {
            match spec_capture(kw) {
                Ok(s) => Err(RespErrorModel::CmdNotImplemented(s)),
                Err(e) => Err(e),
            }
        } else {
            match spec_capture(kw) {
                Ok(s) => Err(RespErrorModel::CommandNotFound(s)),
                Err(e) => Err(e),
            }
        }
    }
}

/// The position of the first carriage-return/line-feed pair at or after `i`.
pub open spec fn first_crlf_from(s: Seq<u8>, i: int) -> Option<int>
    decreases s.len() - i,
{
    if i + 1 >= s.len() {
        None
    } else if s[i] == 13 && s[i + 1] == 10 {
        Some(i)
    } else {
        first_crlf_from(s, i + 1)
    }
}

/// The payload split on the line delimiter, as `str::split` does it: the
/// bytes before each delimiter pair in turn, then what follows the last
/// pair (possibly empty).
pub open spec fn split_crlf_spec(s: Seq<u8>) -> Seq<Seq<u8>>
    decreases s.len(),
{
    let fo = first_crlf_from(s, 0);
    if fo is Some && 0 <= fo->0 && fo->0 + 2 <= s.len() {
        seq![s.take(fo->0)] + split_crlf_spec(s.skip(fo->0 + 2))
    } else {
        seq![s]
    }
}

pub proof fn lemma_first_crlf_props(s: Seq<u8>, i: int)
    requires
        0 <= i,
    ensures
        match first_crlf_from(s, i) {
            Some(p) => i <= p && p + 1 < s.len() && s[p] == 13 && s[p + 1] == 10 && (forall|j: int|
                i <= j < p ==> !(#[trigger] s[j] == 13 && s[j + 1] == 10)),
            None => forall|j: int|
                i <= j && j + 1 < s.len() ==> !(#[trigger] s[j] == 13 && s[j + 1] == 10),
        },
    decreases s.len() - i,
{
    if i + 1 < s.len() && !(s[i] == 13 && s[i + 1] == 10) {
        lemma_first_crlf_props(s, i + 1);
    }
}

pub proof fn lemma_first_crlf_determined(s: Seq<u8>, i: int, p: int)
    requires
        0 <= i <= p,
        p + 1 < s.len(),
        s[p] == 13 && s[p + 1] == 10,
        forall|j: int| i <= j < p ==> !(#[trigger] s[j] == 13 && s[j + 1] == 10),
    ensures
        first_crlf_from(s, i) == Some(p),
    decreases p - i,
{
    if i < p {
        lemma_first_crlf_determined(s, i + 1, p);
    }
}

pub proof fn lemma_first_crlf_none(s: Seq<u8>, i: int)
    requires
        0 <= i,
        forall|j: int|
            i <= j && j + 1 < s.len() ==> !(#[trigger] s[j] == 13 && s[j + 1] == 10),
    ensures
        first_crlf_from(s, i) is None,
    decreases s.len() - i,
{
    if i + 1 < s.len() {
        lemma_first_crlf_none(s, i + 1);
    }
}

/// The command keywords the parser recognizes.
#[derive(Debug)]
enum CommandSet {
    HELLO,
    PUSH,
    ACK,
    QUEUE,
}

/// The greeting's argument keywords.
#[derive(Debug)]
enum HelloKeys {
    SETNAME,
    AUTH,
    PASSWORD,
}

/// Recognizes a command keyword, case-sensitively; anything else is the
/// explicit unrecognized case.
fn command_from_token(t: &Vec<u8>) -> (r: Option<CommandSet>)
    ensures
        match r {
            Some(CommandSet::HELLO) => t@ == kw_hello(),
            Some(CommandSet::PUSH) => t@ == kw_push(),
            Some(CommandSet::ACK) => t@ == kw_ack(),
            Some(CommandSet::QUEUE) => t@ == kw_queue(),
            None => t@ != kw_hello() && t@ != kw_push() && t@ != kw_ack() && t@ != kw_queue(),
        },
{
    let r = if t.len() == 5 && t[0] == 72 && t[1] == 69 && t[2] == 76 && t[3] == 76 && t[4] == 79 {
        Some(CommandSet::HELLO)
    } else if t.len() == 4 && t[0] == 80 && t[1] == 85 && t[2] == 83 && t[3] == 72 {
        Some(CommandSet::PUSH)
    } else if t.len() == 3 && t[0] == 65 && t[1] == 67 && t[2] == 75 {
        Some(CommandSet::ACK)
    } else if t.len() == 5 && t[0] == 81 && t[1] == 85 && t[2] == 69 && t[3] == 85 && t[4] == 69 {
        Some(CommandSet::QUEUE)
    } else {
        None
    };
    proof {
        if t@.len() == 5 && t@[0] == 72 && t@[1] == 69 && t@[2] == 76 && t@[3] == 76 && t@[4]
            == 79 {
            assert(t@ =~= kw_hello());
        }
        if t@.len() == 4 && t@[0] == 80 && t@[1] == 85 && t@[2] == 83 && t@[3] == 72 {
            assert(t@ =~= kw_push());
        }
        if t@.len() == 3 && t@[0] == 65 && t@[1] == 67 && t@[2] == 75 {
            assert(t@ =~= kw_ack());
        }
        if t@.len() == 5 && t@[0] == 81 && t@[1] == 85 && t@[2] == 69 && t@[3] == 85 && t@[4]
            == 69 {
            assert(t@ =~= kw_queue());
        }
    }
    r
}

/// Recognizes a greeting argument keyword.
fn hello_key_from_token(t: &Vec<u8>) -> (r: Option<HelloKeys>)
    ensures
        match r {
            Some(HelloKeys::SETNAME) => t@ == kw_setname(),
            Some(HelloKeys::AUTH) => t@ == kw_auth(),
            Some(HelloKeys::PASSWORD) => t@ == kw_password(),
            None => t@ != kw_setname() && t@ != kw_auth() && t@ != kw_password(),
        },
{
    let r = if t.len() == 7 && t[0] == 83 && t[1] == 69 && t[2] == 84 && t[3] == 78 && t[4] == 65
        && t[5] == 77 && t[6] == 69 {
        Some(HelloKeys::SETNAME)
    } else if t.len() == 4 && t[0] == 65 && t[1] == 85 && t[2] == 84 && t[3] == 72 {
        Some(HelloKeys::AUTH)
    } else if t.len() == 8 && t[0] == 80 && t[1] == 65 && t[2] == 83 && t[3] == 83 && t[4] == 87
        && t[5] == 79 && t[6] == 82 && t[7] == 68 {
        Some(HelloKeys::PASSWORD)
    } else {
        None
    };
    proof {
        if t@.len() == 7 && t@[0] == 83 && t@[1] == 69 && t@[2] == 84 && t@[3] == 78 && t@[4]
            == 65 && t@[5] == 77 && t@[6] == 69 {
            assert(t@ =~= kw_setname());
        }
        if t@.len() == 4 && t@[0] == 65 && t@[1] == 85 && t@[2] == 84 && t@[3] == 72 {
            assert(t@ =~= kw_auth());
        }
        if t@.len() == 8 && t@[0] == 80 && t@[1] == 65 && t@[2] == 83 && t@[3] == 83 && t@[4]
            == 87 && t@[5] == 79 && t@[6] == 82 && t@[7] == 68 {
            assert(t@ =~= kw_password());
        }
    }
    r
}

/// Captures a token as owned text; fails with the invalid-text error when
/// the bytes are not valid UTF-8.
fn capture_token(t: &Vec<u8>) -> (r: Result<String>)
    ensures
        match r {
            Ok(s) => spec_capture(t@) == Ok::<Seq<char>, RespErrorModel>(s@),
            Err(e) => spec_capture(t@) == Err::<Seq<char>, RespErrorModel>(e@),
        },
{
    let copy = vstd::slice::slice_to_vec(t.as_slice());
    match String::from_utf8(copy) {
        Ok(s) => Ok(s),
        Err(_) => Err(RespError::InvalidArgument("invalid message type".to_owned())),
    }
}

/// Keeps the content-carrying tokens, dropping the structural marker lines.
fn collect_real_tokens(tokens: &Vec<Vec<u8>>) -> (r: Vec<Vec<u8>>)
    ensures
        r.deep_view() == real_tokens(tokens.deep_view()),
{
    let n = tokens.len();
    let mut reals: Vec<Vec<u8>> = Vec::new();
    let mut i: usize = 0;
    proof {
        assert(reals.deep_view() =~~= real_tokens(tokens.deep_view().take(0)));
    }
    while i < n
        invariant
            n == tokens@.len(),
            i <= n,
            reals.deep_view() == real_tokens(tokens.deep_view().take(i as int)),
        decreases n - i,
    {
        let ghost pre = reals.deep_view();
        let t = &tokens[i];
        let is_marker_token = t.len() > 0 && (t[0] == 36 || t[0] == 42);
        if !is_marker_token {
            reals.push(vstd::slice::slice_to_vec(t.as_slice()));
        }
        proof {
            let toks = tokens.deep_view();
            assert(toks.take(i as int + 1).drop_last() =~~= toks.take(i as int));
            assert(toks.take(i as int + 1).last() =~= toks[i as int]);
            assert(is_marker_token == is_marker(toks[i as int]));
            if is_marker_token {
                assert(reals.deep_view() =~~= real_tokens(toks.take(i as int + 1)));
            } else {
                assert(reals.deep_view() =~~= pre.push(toks[i as int]));
                assert(real_tokens(toks.take(i as int + 1)) =~~= real_tokens(toks.take(i as int))
                    + seq![toks[i as int]]);
                assert(reals.deep_view() =~~= real_tokens(toks.take(i as int + 1)));
            }
        }
        i += 1;
    }
    proof {
        assert(tokens.deep_view().take(n as int) =~~= tokens.deep_view());
    }
    reals
}

/// Reads the protocol version from the real token at position 1.
fn get_protocol_version(reals: &Vec<Vec<u8>>) -> (r: Result<u8>)
    requires
        reals.deep_view().len() >= 2,
    ensures
        match r {
            Ok(v) => spec_protocol_version(reals.deep_view()[1]) == Ok::<u8, RespErrorModel>(v),
            Err(e) => spec_protocol_version(reals.deep_view()[1]) == Err::<u8, RespErrorModel>(
                e@,
            ),
        },
{
    let raw_next = &reals[1];
    proof {
        assert(raw_next@ =~= reals.deep_view()[1]);
    }
    let digits: &[u8] = if raw_next.len() > 0 && raw_next[0] == 43 {
        &raw_next.as_slice()[1..raw_next.len()]
    } else {
        raw_next.as_slice()
    };
    proof {
        assert(digits@ =~= spec_version_digits(raw_next@));
    }
    match crate::utils::parse_decimal(digits) {
        Some(v) if v <= 255 => Ok(v as u8),
        _ => match capture_token(raw_next) {
            Ok(s) => Err(RespError::ProtocolOutOfRange(s)),
            Err(e) => Err(e),
        },
    }
}

/// Splits a payload on the line delimiter into owned tokens.
pub fn split_crlf(data: &Vec<u8>) -> (r: Vec<Vec<u8>>)
    ensures
        r.deep_view() == split_crlf_spec(data@),
{
    let n = data.len();
    let mut tokens: Vec<Vec<u8>> = Vec::new();
    let mut cursor: usize = 0;
    proof {
        assert(tokens.deep_view() =~~= Seq::<Seq<u8>>::empty());
        assert(data@.skip(0) =~= data@);
        assert(tokens.deep_view() + split_crlf_spec(data@) =~~= split_crlf_spec(data@));
    }
    loop
        invariant
            n == data@.len(),
            cursor <= n,
            split_crlf_spec(data@) == tokens.deep_view() + split_crlf_spec(
                data@.skip(cursor as int),
            ),
        decreases n - cursor,
    {
        let ghost suffix = data@.skip(cursor as int);
        // Find the next delimiter pair at or after the cursor.
        let mut i = cursor;
        let mut found = false;
        while !found && n - i > 1
            invariant
                n == data@.len(),
                cursor <= i <= n,
                found ==> i + 1 < n && data@[i as int] == 13 && data@[i as int + 1] == 10,
                forall|j: int|
                    cursor <= j < i ==> !(#[trigger] data@[j] == 13 && data@[j + 1] == 10),
            decreases n - i + if found {
                0int
            } else {
                1int
            },
        {
            if data[i] == 13 && data[i + 1] == 10 {
                found = true;
            } else {
                i += 1;
            }
        }
        let ghost pre = tokens.deep_view();
        if found {
            proof {
                assert forall|j: int| 0 <= j < i - cursor implies !(#[trigger] suffix[j] == 13
                    && suffix[j + 1] == 10) by {
                    assert(suffix[j] == data@[cursor + j]);
                    assert(suffix[j + 1] == data@[cursor + j + 1]);
                }
                lemma_first_crlf_determined(suffix, 0, i as int - cursor as int);
            }
            let token = vstd::slice::slice_to_vec(&data.as_slice()[cursor..i]);
            tokens.push(token);
            proof {
                assert(token@ =~= suffix.take(i as int - cursor as int));
                assert(token.deep_view() =~= token@);
                assert(tokens.deep_view() =~~= pre.push(suffix.take(i as int - cursor as int)));
                assert(suffix.skip(i as int - cursor as int + 2) =~= data@.skip(i as int + 2));
                assert(split_crlf_spec(suffix) == seq![suffix.take(i as int - cursor as int)]
                    + split_crlf_spec(data@.skip(i as int + 2)));
                assert(tokens.deep_view() + split_crlf_spec(data@.skip(i as int + 2)) =~~= pre
                    + split_crlf_spec(suffix));
            }
            cursor = i + 2;
        } else {
            proof {
                assert forall|j: int| 0 <= j && j + 1 < suffix.len() implies !(#[trigger] suffix[j]
                    == 13 && suffix[j + 1] == 10) by {
                    assert(suffix[j] == data@[cursor + j]);
                    assert(suffix[j + 1] == data@[cursor + j + 1]);
                }
                lemma_first_crlf_none(suffix, 0);
            }
            let token = vstd::slice::slice_to_vec(&data.as_slice()[cursor..n]);
            tokens.push(token);
            proof {
                assert(token@ =~= suffix);
                assert(split_crlf_spec(suffix) == seq![suffix]);
                assert(token.deep_view() =~= token@);
                assert(tokens.deep_view() =~~= pre + split_crlf_spec(suffix));
            }
            return tokens;
        }
    }
}


/// Parses the greeting command's arguments from the real tokens: the
/// protocol version first, then argument/value pairs.
fn deserialize_auth(reals: &Vec<Vec<u8>>) -> (r: Result<Cmd>)
    ensures
        result_view(r) == spec_hello(reals.deep_view()),
{
    let ghost rv = reals.deep_view();
    let n = reals.len();
    if n < 2 {
        return Err(RespError::NoData);
    }
    let protocol_version = match get_protocol_version(reals) {
        Ok(v) => v,
        Err(e) => {
            return Err(e);
        },
    };
    let mut auth: Option<String> = None;
    let mut password: Option<String> = None;
    let mut setname: Option<String> = None;
    let mut j: usize = 2;
    while n - j > 1
        invariant
            n == rv.len(),
            rv == reals.deep_view(),
            n >= 2,
            2 <= j <= n,
            spec_protocol_version(rv[1]) == Ok::<u8, RespErrorModel>(protocol_version),
            spec_hello_pairs(
                rv,
                j as int,
                protocol_version,
                opt_view(auth),
                opt_view(password),
                opt_view(setname),
            ) == spec_hello_pairs(rv, 2, protocol_version, None, None, None),
        decreases n - j,
    {
        let key = &reals[j];
        let value = &reals[j + 1];
        proof {
            assert(key@ =~= rv[j as int]);
            assert(value@ =~= rv[j as int + 1]);
        }
        match hello_key_from_token(key) {
            Some(HelloKeys::AUTH) => {
                match capture_token(value) {
                    Ok(s) => {
                        auth = Some(s);
                    },
                    Err(e) => {
                        return Err(e);
                    },
                }
            },
            Some(HelloKeys::SETNAME) => {
                match capture_token(value) {
                    Ok(s) => {
                        setname = Some(s);
                    },
                    Err(e) => {
                        return Err(e);
                    },
                }
            },
            Some(HelloKeys::PASSWORD) => {
                match capture_token(value) {
                    Ok(s) => {
                        password = Some(s);
                    },
                    Err(e) => {
                        return Err(e);
                    },
                }
            },
            None => {
                return match capture_token(value) {
                    Ok(s) => Err(RespError::InvalidArgument(s)),
                    Err(e) => Err(e),
                };
            },
        }
        j += 2;
    }
    Ok(Cmd::HELLO { auth, password, protocol_version, setname })
}

/// Maps a token sequence to a typed command: the first token that is not a
/// structural marker line is the keyword, matched case-sensitively against
/// the fixed command set; the greeting is parsed in full; the reserved
/// keywords fail as not yet implemented; an unknown keyword fails carrying
/// its text.
pub fn map_command(tokens: &Vec<Vec<u8>>) -> (r: Result<Cmd>)
    ensures
        result_view(r) == spec_map_command(tokens.deep_view()),
{
    let reals = collect_real_tokens(tokens);
    if reals.len() == 0 {
        return Err(RespError::NoData);
    }
    let first_word = &reals[0];
    proof {
        assert(first_word@ =~= reals.deep_view()[0]);
    }
    match command_from_token(first_word) {
        Some(CommandSet::HELLO) => deserialize_auth(&reals),
        Some(CommandSet::QUEUE) | Some(CommandSet::ACK) | Some(CommandSet::PUSH) => {
            match capture_token(first_word) {
                Ok(s) => Err(RespError::CmdNotImplemented(s)),
                Err(e) => Err(e),
            }
        },
        None => match capture_token(first_word) {
            Ok(s) => Err(RespError::CommandNotFound(s)),
            Err(e) => Err(e),
        },
    }
}

/// Parses the payload accumulated by a frame decoder: splits it on the line
/// delimiter and maps the tokens to a command.
pub fn read_raw_cmd(raw_cmd: RespBufferedReader) -> (r: Result<Cmd>)
    ensures
        result_view(r) == spec_map_command(split_crlf_spec(raw_cmd.data@)),
{
    let tokens = split_crlf(&raw_cmd.data);
    map_command(&tokens)
}


/// Which line of a frame carries the command keyword, counting the header
/// line as line zero.
pub open spec fn spec_msg_type_line() -> int {
    2
}

/// Which line of a frame carries a write command's key.
pub open spec fn spec_key_line() -> int {
    4
}

/// Line-break positions are meaningful for `msg` when they are strictly
/// increasing, at least two bytes apart (each line ends in the two-byte
/// delimiter), within the payload, and, past the first, no earlier than the
/// delimiter's width.
pub open spec fn valid_line_breaks(breaks: Seq<usize>, msg_len: int) -> bool {
    &&& forall|j: int| 0 <= j < breaks.len() ==> (#[trigger] breaks[j]) < msg_len
    &&& forall|j: int| 0 < j < breaks.len() ==> breaks[j - 1] + 2 <= (#[trigger] breaks[j])
    &&& forall|j: int| 0 < j < breaks.len() ==> (#[trigger] breaks[j]) >= 2
}

/// The bytes of line `j`, between the `j`-th break and the delimiter before
/// the next one.
pub open spec fn spec_line_at(msg: Seq<u8>, breaks: Seq<usize>, j: int) -> Seq<u8> {
    msg.subrange(breaks[j] + 1, breaks[j + 1] - 1)
}

/// The element tokens of a write command: every second line from `j` on.
pub open spec fn spec_elements_from(msg: Seq<u8>, breaks: Seq<usize>, j: int) -> Seq<Seq<u8>>
    decreases breaks.len() - j,
{
    if j < 0 || j + 1 >= breaks.len() {
        Seq::empty()
    } else {
        seq![spec_line_at(msg, breaks, j)] + spec_elements_from(msg, breaks, j + 2)
    }
}

/// The keyword naming the list-push command.
pub open spec fn kw_lpush() -> Seq<u8> {
    seq![76u8, 80u8, 85u8, 83u8, 72u8]
}

/// What parsing a raw message by its line breaks yields: too few lines are
/// an incomplete command; a list-push line gives the key and the element
/// tokens; any other keyword is unknown.
pub open spec fn spec_read_raw_msg(msg: Seq<u8>, breaks: Seq<usize>) -> core::result::Result<
    CmdModel,
    RespErrorModel,
> {
    if breaks.len() < 6 {
        Err(RespErrorModel::IncompleteCommand)
    } else {
        let msg_type = spec_line_at(msg, breaks, spec_msg_type_line());
        if msg_type == kw_lpush() {
            match spec_capture(spec_line_at(msg, breaks, spec_key_line())) {
                Ok(key) => Ok(
                    CmdModel::LPUSH {
                        key,
                        elements: spec_elements_from(msg, breaks, spec_key_line() + 2),
                    },
                ),
                Err(e) => Err(e),
            }
        } else {
            match spec_capture(msg_type) {
                Ok(s) => Err(RespErrorModel::CommandNotFound(s)),
                Err(e) => Err(e),
            }
        }
    }
}

/// The start and end positions of each line between consecutive breaks: the
/// byte after each break, through the byte before the next delimiter.
pub fn create_line_indexes(line_breaks: &Vec<usize>) -> (r: Vec<(usize, usize)>)
    requires
        forall|j: int| 0 < j < line_breaks@.len() ==> (#[trigger] line_breaks@[j]) >= 2,
        forall|j: int|
            0 < j < line_breaks@.len() ==> line_breaks@[j - 1] < (#[trigger] line_breaks@[j]),
    ensures
        r@.len() == if line_breaks@.len() == 0 {
            0int
        } else {
            line_breaks@.len() - 1
        },
        forall|j: int|
            0 <= j < r@.len() ==> (#[trigger] r@[j]).0 == line_breaks@[j] + 1 && r@[j].1
                == line_breaks@[j + 1] - 2,
{
    let n = line_breaks.len();
    let mut lines: Vec<(usize, usize)> = Vec::new();
    let mut i: usize = 1;
    while i < n
        invariant
            n == line_breaks@.len(),
            1 <= i <= n || (n == 0 && i == 1),
            lines@.len() == i - 1 || (n == 0 && lines@.len() == 0),
            forall|j: int|
                0 <= j < lines@.len() ==> (#[trigger] lines@[j]).0 == line_breaks@[j] + 1
                    && lines@[j].1 == line_breaks@[j + 1] - 2,
            forall|j: int| 0 < j < n ==> (#[trigger] line_breaks@[j]) >= 2,
            forall|j: int| 0 < j < n ==> line_breaks@[j - 1] < (#[trigger] line_breaks@[j]),
        decreases n - i,
    {
        proof {
            assert(line_breaks@[i - 1] < line_breaks@[i as int]);
            assert(line_breaks@[i as int] >= 2);
        }
        lines.push((line_breaks[i - 1] + 1, line_breaks[i] - 2));
        i += 1;
    }
    lines
}

/// Parses a raw message along its recorded line-break positions: the third
/// line names the command; a list-push gives the key from the fifth line and
/// the element tokens from every second line after it.
pub fn read_raw_msg(msg: Vec<u8>, line_breaks: &Vec<usize>) -> (r: Result<Cmd>)
    requires
        valid_line_breaks(line_breaks@, msg@.len() as int),
    ensures
        result_view(r) == spec_read_raw_msg(msg@, line_breaks@),
{
    let n = line_breaks.len();
    if n < 6 {
        return Err(RespError::IncompleteCommand);
    }
    let msg_type = line_token(&msg, line_breaks, 2);
    let is_lpush = msg_type.len() == 5 && msg_type[0] == 76 && msg_type[1] == 80 && msg_type[2]
        == 85 && msg_type[3] == 83 && msg_type[4] == 72;
    proof {
        if is_lpush {
            assert(msg_type@ =~= kw_lpush());
        } else if msg_type@ == kw_lpush() {
            assert(msg_type@.len() == 5);
            assert(msg_type@[0] == 76 && msg_type@[1] == 80 && msg_type@[2] == 85 && msg_type@[3]
                == 83 && msg_type@[4] == 72);
        }
    }
    if !is_lpush {
        return match capture_token(&msg_type) {
            Ok(s) => Err(RespError::CommandNotFound(s)),
            Err(e) => Err(e),
        };
    }
    let key_token = line_token(&msg, line_breaks, 4);
    let key = match capture_token(&key_token) {
        Ok(s) => s,
        Err(e) => {
            return Err(e);
        },
    };
    let mut elements: Vec<Vec<u8>> = Vec::new();
    let mut i: usize = 6;
    proof {
        assert(elements.deep_view() =~~= Seq::<Seq<u8>>::empty());
    }
    while i < n - 1
        invariant
            n == line_breaks@.len(),
            n >= 6,
            6 <= i,
            valid_line_breaks(line_breaks@, msg@.len() as int),
            elements.deep_view() + spec_elements_from(msg@, line_breaks@, i as int)
                == spec_elements_from(msg@, line_breaks@, 6),
        decreases n - i,
    {
        let ghost pre = elements.deep_view();
        let e = line_token(&msg, line_breaks, i);
        elements.push(e);
        proof {
            assert(elements.deep_view() =~~= pre.push(spec_line_at(msg@, line_breaks@, i as int)));
            assert(elements.deep_view() + spec_elements_from(msg@, line_breaks@, i as int + 2)
                =~~= pre + (seq![spec_line_at(msg@, line_breaks@, i as int)]
                + spec_elements_from(msg@, line_breaks@, i as int + 2)));
        }
        i += 2;
    }
    proof {
        assert(spec_elements_from(msg@, line_breaks@, i as int) =~~= Seq::<Seq<u8>>::empty());
        assert(elements.deep_view() =~~= spec_elements_from(msg@, line_breaks@, 6));
    }
    Ok(Cmd::LPUSH { key, elements })
}

/// One line's bytes, copied out of the payload.
fn line_token(msg: &Vec<u8>, line_breaks: &Vec<usize>, j: usize) -> (r: Vec<u8>)
    requires
        valid_line_breaks(line_breaks@, msg@.len() as int),
        j + 1 < line_breaks@.len(),
    ensures
        r@ == spec_line_at(msg@, line_breaks@, j as int),
{
    let m = msg.len();
    let nb = line_breaks.len();
    proof {
        assert(j + 1 < nb);
        assert(line_breaks@[j as int] < msg@.len());
        assert(line_breaks@[j as int + 1] < msg@.len());
        assert(line_breaks@[j as int] + 2 <= line_breaks@[j as int + 1]);
        assert(line_breaks@[j as int + 1] >= 2);
    }
    let start = line_breaks[j] + 1;
    let end = line_breaks[j + 1] - 1;
    let token = vstd::slice::slice_to_vec(&msg.as_slice()[start..end]);
    proof {
        assert(token@ =~= spec_line_at(msg@, line_breaks@, j as int));
    }
    token
}


} // verus!
