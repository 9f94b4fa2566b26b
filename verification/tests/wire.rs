use iperf3d::protocol::{
    alloc_response, encode_response, handle_request, parse_port_response, parse_request,
    HandlerAction, Request, Response,
};
use iperf3d::decimal::{format_decimal, parse_decimal};
use iperf3d::table::{AllocError, ClientIp, PortTable};

#[test]
fn request_marker_is_recognised() {
    assert_eq!(parse_request("REQUEST PORT"), Request::PortRequest);
    assert_eq!(parse_request("REQUEST PORT\n"), Request::PortRequest);
    assert_eq!(parse_request("REQUEST PORT extra"), Request::PortRequest);
}

#[test]
fn other_lines_are_unknown() {
    assert_eq!(parse_request(""), Request::Unknown);
    assert_eq!(parse_request("\n"), Request::Unknown);
    assert_eq!(parse_request("REQUEST"), Request::Unknown);
    assert_eq!(parse_request("request port"), Request::Unknown);
    assert_eq!(parse_request("xREQUEST PORT"), Request::Unknown);
}

#[test]
fn responses_encode_to_fixed_lines() {
    assert_eq!(
        encode_response(&Response::PortAssigned(7000)).as_str(),
        "PORT 7000 OK\n"
    );
    assert_eq!(
        encode_response(&Response::NoFreePorts).as_str(),
        "NO FREE PORTS\n"
    );
    assert_eq!(
        encode_response(&Response::IpLimitReached).as_str(),
        "IP LIMIT REACHED\n"
    );
    assert_eq!(
        encode_response(&Response::UnknownRequest).as_str(),
        "UNKNOWN REQUEST\n"
    );
}

#[test]
fn alloc_outcomes_map_to_responses() {
    assert_eq!(alloc_response(Ok(7123)), Response::PortAssigned(7123));
    assert_eq!(
        alloc_response(Err(AllocError::Denied)),
        Response::IpLimitReached
    );
    assert_eq!(
        alloc_response(Err(AllocError::Exhausted)),
        Response::NoFreePorts
    );
}

#[test]
fn response_round_trip() {
    for p in [0u16, 1, 9, 10, 6201, 7000, 65535] {
        let line = encode_response(&Response::PortAssigned(p));
        assert_eq!(parse_port_response(line.as_str()), Some(p));
    }
}

#[test]
fn malformed_responses_parse_to_none() {
    assert_eq!(parse_port_response(""), None);
    assert_eq!(parse_port_response("PORT  OK"), None);
    assert_eq!(parse_port_response("PORT 70x0 OK"), None);
    assert_eq!(parse_port_response("PORT 65536 OK"), None);
    assert_eq!(parse_port_response("PORT 7000"), None);
    assert_eq!(parse_port_response("7000 OK"), None);
    assert_eq!(parse_port_response("NO FREE PORTS"), None);
}

#[test]
fn decimal_formats_exactly() {
    assert_eq!(format_decimal(0).as_str(), "0");
    assert_eq!(format_decimal(7).as_str(), "7");
    assert_eq!(format_decimal(7000).as_str(), "7000");
    assert_eq!(format_decimal(65535).as_str(), "65535");
}

#[test]
fn decimal_parses_exactly() {
    assert_eq!(parse_decimal("0"), Some(0));
    assert_eq!(parse_decimal("7999"), Some(7999));
    assert_eq!(parse_decimal("65535"), Some(65535));
    assert_eq!(parse_decimal("007000"), Some(7000));
    assert_eq!(parse_decimal(""), None);
    assert_eq!(parse_decimal("65536"), None);
    assert_eq!(parse_decimal("99999999999999999999"), None);
    assert_eq!(parse_decimal("12a4"), None);
    assert_eq!(parse_decimal("-5"), None);
}

#[test]
fn protocol_exchange_against_empty_table() {
    // One request against a fresh table over [7000, 7999] yields port
    // 7000; a second request yields 7001; junk yields the
    // unknown-request line.
    let mut t = PortTable::new(
        200,
        7000,
        7999,
        String::from("iperf3"),
        vec![],
        String::from("[::]"),
    )
    .unwrap();
    let client = ClientIp { bits: 42 };

    let reply = exchange(&mut t, client, "REQUEST PORT");
    assert_eq!(reply, "PORT 7000 OK\n");
    assert_eq!(parse_port_response(reply.trim()), Some(7000));

    let reply = exchange(&mut t, client, "give me a port please");
    assert_eq!(reply, "UNKNOWN REQUEST\n");

    let reply = exchange(&mut t, client, "REQUEST PORT");
    assert_eq!(reply, "PORT 7001 OK\n");
}

/// One turn of the connection-handler state machine, with the process
/// spawn stubbed out as always succeeding.
fn exchange(t: &mut PortTable, client: ClientIp, line: &str) -> String {
    let resp = match handle_request(t, line, client) {
        HandlerAction::StartWorker(p) => {
            assert!(t.register_instance(p, client, 0));
            Response::PortAssigned(p)
        }
        HandlerAction::Respond(r) => r,
    };
    encode_response(&resp)
}

#[test]
fn handler_denies_at_cap_without_touching_table() {
    let mut t = PortTable::new(
        1,
        7000,
        7999,
        String::from("iperf3"),
        vec![],
        String::from("[::]"),
    )
    .unwrap();
    let client = ClientIp { bits: 7 };
    assert!(t.register_instance(7000, client, 0));
    let action = handle_request(&t, "REQUEST PORT", client);
    assert_eq!(action, HandlerAction::Respond(Response::IpLimitReached));
    assert_eq!(t.instances.len(), 1);
}

#[test]
fn handler_reports_exhaustion() {
    let mut t = PortTable::new(
        200,
        7000,
        7000,
        String::from("iperf3"),
        vec![],
        String::from("[::]"),
    )
    .unwrap();
    assert!(t.register_instance(7000, ClientIp { bits: 1 }, 0));
    let action = handle_request(&t, "REQUEST PORT", ClientIp { bits: 2 });
    assert_eq!(action, HandlerAction::Respond(Response::NoFreePorts));
}
