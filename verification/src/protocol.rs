//! The line-based request/response protocol: one request and one
//! response per connection.

use vstd::prelude::*;
use vstd::string::*;

use crate::decimal::{all_digits, dec_rep, dec_val, lemma_dec_rep_digits, lemma_dec_val_of_rep,
    format_decimal, parse_decimal};
use crate::table::{AllocError, ClientIp, PortTable};

verus! {

/// The request line a client sends to ask for a worker instance.
pub open spec fn request_marker() -> Seq<char> {
    "REQUEST PORT"@
}

/// Exec view of the request marker.
pub fn request_marker_text() -> (s: &'static str)
    ensures
        s@ == request_marker(),
{
    "REQUEST PORT"
}

/// The fixed text preceding the port number in a success response.
pub open spec fn response_prefix() -> Seq<char> {
    "PORT "@
}

/// Exec view of the response prefix.
pub fn response_prefix_text() -> (s: &'static str)
    ensures
        s@ == response_prefix(),
{
    "PORT "
}

/// The fixed text following the port number in a success response.
pub open spec fn response_suffix() -> Seq<char> {
    " OK"@
}

/// Exec view of the response suffix.
pub fn response_suffix_text() -> (s: &'static str)
    ensures
        s@ == response_suffix(),
{
    " OK"
}

/// The response line sent when the dynamic range is exhausted.
pub open spec fn no_free_ports_marker() -> Seq<char> {
    "NO FREE PORTS"@
}

/// Exec view of the exhaustion marker.
pub fn no_free_ports_text() -> (s: &'static str)
    ensures
        s@ == no_free_ports_marker(),
{
    "NO FREE PORTS"
}

/// The response line sent when the caller is at its per-client cap.
pub open spec fn ip_limit_marker() -> Seq<char> {
    "IP LIMIT REACHED"@
}

/// Exec view of the cap marker.
pub fn ip_limit_text() -> (s: &'static str)
    ensures
        s@ == ip_limit_marker(),
{
    "IP LIMIT REACHED"
}

/// The response line sent for a request that matches nothing known.
pub open spec fn unknown_request_marker() -> Seq<char> {
    "UNKNOWN REQUEST"@
}

/// Exec view of the unknown-request marker.
pub fn unknown_request_text() -> (s: &'static str)
    ensures
        s@ == unknown_request_marker(),
{
    "UNKNOWN REQUEST"
}

/// Exec newline, with its view pinned.
fn newline_text() -> (s: &'static str)
    ensures
        s@ == seq!['\n'],
{
    proof {
        reveal_strlit("\n");
        assert("\n"@ =~= seq!['\n']);
    }
    "\n"
}

/// The whitespace characters trimmed from the end of a request or
/// response line.
pub open spec fn is_space(c: char) -> bool {
    c == ' ' || c == '\t' || c == '\r' || c == '\n'
}

/// `s` with its trailing whitespace removed.
pub open spec fn trim_trailing(s: Seq<char>) -> Seq<char>
    decreases s.len(),
{
    if s.len() > 0 && is_space(s.last()) {
        trim_trailing(s.drop_last())
    } else {
        s
    }
}

/// Whether `s` begins with `prefix`.
pub open spec fn begins_with(s: Seq<char>, prefix: Seq<char>) -> bool {
    s.len() >= prefix.len() && s.take(prefix.len() as int) == prefix
}

/// The closed set of requests the broker understands.
#[derive(Clone, Copy, PartialEq, Eq, Structural, Debug)]
pub enum Request {
    /// The port-request marker: start a worker, hand back its port.
    PortRequest,
    /// Anything else.
    Unknown,
}

/// How a request line is classified: trailing whitespace is trimmed,
/// then a line beginning with the request marker asks for a port.
pub open spec fn classify_request(s: Seq<char>) -> Request {
    if begins_with(trim_trailing(s), request_marker()) {
        Request::PortRequest
    } else {
        Request::Unknown
    }
}

/// The index where the trailing whitespace of `s` begins.
fn trimmed_end(s: &str) -> (end: usize)
    ensures
        end <= s@.len(),
        trim_trailing(s@) == s@.take(end as int),
{
    let n = s.unicode_len();
    let mut end = n;
    proof {
        assert(s@.take(n as int) =~= s@);
    }
    loop
        invariant
            0 <= end <= n == s@.len(),
            trim_trailing(s@) == trim_trailing(s@.take(end as int)),
        decreases end,
    {
        if end == 0 {
            proof {
                assert(s@.take(0) =~= Seq::<char>::empty());
            }
            return 0;
        }
        let c = s.get_char(end - 1);
        proof {
            assert(s@.take(end as int).last() == s@[end - 1]);
        }
        if c == ' ' || c == '\t' || c == '\r' || c == '\n' {
            proof {
                assert(s@.take(end as int).drop_last() =~= s@.take(end - 1));
            }
            end = end - 1;
        } else {
            return end;
        }
    }
}

/// Whether the first `end` characters of `s` begin with `pat`.
fn str_prefix_matches(s: &str, end: usize, pat: &str) -> (r: bool)
    requires
        end <= s@.len(),
    ensures
        r == begins_with(s@.take(end as int), pat@),
{
    let m = pat.unicode_len();
    if m > end {
        return false;
    }
    let mut i: usize = 0;
    while i < m
        invariant
            i <= m == pat@.len(),
            m <= end <= s@.len(),
            forall|j: int| 0 <= j < i ==> s@[j] == pat@[j],
        decreases m - i,
    {
        let cs = s.get_char(i);
        let cp = pat.get_char(i);
        if cs != cp {
            proof {
                assert(s@.take(end as int).take(m as int)[i as int] == s@[i as int]);
            }
            return false;
        }
        i = i + 1;
    }
    proof {
        assert(s@.take(end as int).take(m as int) =~= pat@);
    }
    true
}

/// Reads one request line: trims trailing whitespace and recognises
/// the port-request marker.
pub fn parse_request(s: &str) -> (r: Request)
    ensures
        r == classify_request(s@),
{
    let end = trimmed_end(s);
    if str_prefix_matches(s, end, request_marker_text()) {
        Request::PortRequest
    } else {
        Request::Unknown
    }
}

/// The closed set of responses the broker sends.
#[derive(Clone, Copy, PartialEq, Eq, Structural, Debug)]
pub enum Response {
    /// A worker was started on the carried port.
    PortAssigned(u16),
    /// The dynamic range is exhausted.
    NoFreePorts,
    /// The caller is at the per-client cap.
    IpLimitReached,
    /// The request matched nothing known.
    UnknownRequest,
}

/// The exact line sent for each response, newline included.
pub open spec fn response_line(r: Response) -> Seq<char> {
    match r {
        Response::PortAssigned(p) => response_prefix() + dec_rep(p as nat) + response_suffix()
            + seq!['\n'],
        Response::NoFreePorts => no_free_ports_marker() + seq!['\n'],
        Response::IpLimitReached => ip_limit_marker() + seq!['\n'],
        Response::UnknownRequest => unknown_request_marker() + seq!['\n'],
    }
}

/// Maps the table's allocation outcome to the protocol response.
pub fn alloc_response(r: Result<u16, AllocError>) -> (resp: Response)
    ensures
        resp == match r {
            Ok(p) => Response::PortAssigned(p),
            Err(AllocError::Denied) => Response::IpLimitReached,
            Err(AllocError::Exhausted) => Response::NoFreePorts,
        },
{
    match r {
        Ok(p) => Response::PortAssigned(p),
        Err(AllocError::Denied) => Response::IpLimitReached,
        Err(AllocError::Exhausted) => Response::NoFreePorts,
    }
}

/// Renders a response as the exact line put on the wire.
pub fn encode_response(r: &Response) -> (out: String)
    ensures
        out@ == response_line(*r),
{
    match r {
        Response::PortAssigned(p) => {
            let mut out = String::from_str(response_prefix_text());
            let digits = format_decimal(*p);
            out.append(digits.as_str());
            out.append(response_suffix_text());
            out.append(newline_text());
            proof {
                assert(out@ =~= response_line(*r));
            }
            out
        },
        Response::NoFreePorts => {
            let mut out = String::from_str(no_free_ports_text());
            out.append(newline_text());
            proof {
                assert(out@ =~= response_line(*r));
            }
            out
        },
        Response::IpLimitReached => {
            let mut out = String::from_str(ip_limit_text());
            out.append(newline_text());
            proof {
                assert(out@ =~= response_line(*r));
            }
            out
        },
        Response::UnknownRequest => {
            let mut out = String::from_str(unknown_request_text());
            out.append(newline_text());
            proof {
                assert(out@ =~= response_line(*r));
            }
            out
        },
    }
}

/// What the connection handler does with one request line: either a
/// response to send at once, or a port on which a worker must be
/// started before the success response is sent.
#[derive(Clone, Copy, PartialEq, Eq, Structural, Debug)]
pub enum HandlerAction {
    /// Start a worker on this port, record it under the requesting
    /// client, then confirm the port.
    StartWorker(u16),
    /// Send this response and close.
    Respond(Response),
}

/// The decision a request line gets against the table state.
pub open spec fn handler_decision(t: PortTable, line: Seq<char>, peer: ClientIp) -> HandlerAction {
    match classify_request(line) {
        Request::Unknown => HandlerAction::Respond(Response::UnknownRequest),
        Request::PortRequest => if t.count_by_ip_spec(peer) >= t.max_instances_by_ip {
            HandlerAction::Respond(Response::IpLimitReached)
        } else {
            match t.lowest_free() {
                Some(p) => HandlerAction::StartWorker(p),
                None => HandlerAction::Respond(Response::NoFreePorts),
            }
        },
    }
}

/// One step of the connection handler: classifies the request line
/// and, for a port request, admits or refuses the client against the
/// current table. The caller starts the worker, records the instance,
/// and sends the resulting line.
pub fn handle_request(t: &PortTable, line: &str, peer: ClientIp) -> (a: HandlerAction)
    ensures
        a == handler_decision(*t, line@, peer),
{
    match parse_request(line) {
        Request::Unknown => HandlerAction::Respond(Response::UnknownRequest),
        Request::PortRequest => match t.try_allocate(peer) {
            Ok(p) => HandlerAction::StartWorker(p),
            Err(AllocError::Denied) => HandlerAction::Respond(Response::IpLimitReached),
            Err(AllocError::Exhausted) => HandlerAction::Respond(Response::NoFreePorts),
        },
    }
}

/// The digit payload of a success-response line, when the line has
/// exactly the shape `prefix payload suffix` with a non-empty payload.
pub open spec fn response_payload(s: Seq<char>) -> Option<Seq<char>> {
    let plen = response_prefix().len() as int;
    let slen = response_suffix().len() as int;
    if s.len() >= plen + slen + 1 && s.take(plen) == response_prefix() && s.skip(
        s.len() - slen,
    ) == response_suffix() {
        Some(s.subrange(plen, s.len() - slen))
    } else {
        None
    }
}

/// What a client reads out of a (trimmed) response line: the assigned
/// port, exactly when the line has the success shape and its payload
/// is a digit string whose value fits a port number.
pub open spec fn parse_response_spec(s: Seq<char>) -> Option<u16> {
    match response_payload(s) {
        Some(d) => if all_digits(d) && dec_val(d) <= u16::MAX {
            Some(dec_val(d) as u16)
        } else {
            None
        },
        None => None,
    }
}

/// Extracts the assigned port from a success-response line, trailing
/// whitespace ignored.
pub fn parse_port_response(s: &str) -> (r: Option<u16>)
    ensures
        r == parse_response_spec(trim_trailing(s@)),
{
    let end = trimmed_end(s);
    let ghost t = s@.take(end as int);
    let prefix = response_prefix_text();
    let suffix = response_suffix_text();
    proof {
        reveal_strlit("PORT ");
        reveal_strlit(" OK");
    }
    let plen = prefix.unicode_len();
    let slen = suffix.unicode_len();
    if end < plen + slen + 1 {
        return None;
    }
    if !str_prefix_matches(s, end, prefix) {
        return None;
    }
    let mut i: usize = 0;
    while i < slen
        invariant
            i <= slen == response_suffix().len(),
            plen == response_prefix().len(),
            suffix@ == response_suffix(),
            plen + slen + 1 <= end <= s@.len(),
            t == s@.take(end as int),
            trim_trailing(s@) == t,
            forall|j: int| 0 <= j < i ==> t[t.len() - slen + j] == response_suffix()[j],
        decreases slen - i,
    {
        let cs = s.get_char(end - slen + i);
        let cp = suffix.get_char(i);
        proof {
            assert(t[t.len() - slen + i] == s@[end - slen + i]);
        }
        if cs != cp {
            proof {
                assert(t.skip(t.len() - slen)[i as int] == t[t.len() - slen + i]);
            }
            return None;
        }
        i = i + 1;
    }
    proof {
        assert(t.skip(t.len() - slen) =~= response_suffix());
    }
    let mid = s.substring_char(plen, end - slen);
    proof {
        assert(mid@ =~= t.subrange(plen as int, t.len() - slen));
    }
    let r = parse_decimal(mid);
    proof {
        let d = t.subrange(plen as int, t.len() - slen);
        assert(d.len() > 0);
        assert(response_payload(t) == Some(d));
    }
    r
}

/// Round trip: the line encoded for an assigned port parses back to
/// exactly that port.
pub proof fn lemma_response_roundtrip(p: u16)
    ensures
        parse_response_spec(trim_trailing(response_line(Response::PortAssigned(p)))) == Some(p),
{
    reveal_strlit("PORT ");
    reveal_strlit(" OK");
    let pre = response_prefix();
    let suf = response_suffix();
    let d = dec_rep(p as nat);
    lemma_dec_rep_digits(p as nat);
    lemma_dec_val_of_rep(p as nat);
    let line = response_line(Response::PortAssigned(p));
    let body = pre + d + suf;
    assert(line.len() == body.len() + 1);
    assert(line.last() == '\n');
    assert(line.drop_last() =~= body);
    assert(trim_trailing(line) == trim_trailing(body));
    assert(body.last() == 'K');
    assert(!is_space('K'));
    assert(trim_trailing(body) == body);
    assert(body.take(pre.len() as int) =~= pre);
    assert(body.skip(body.len() - suf.len()) =~= suf);
    assert(body.subrange(pre.len() as int, body.len() - suf.len()) =~= d);
    assert(response_payload(body) == Some(d));
    assert(dec_val(d) == p as nat);
}

} // verus!
