use minecraft_connector_api::buffer::{read_var_int, Buffer};
use minecraft_connector_api::messages::{
    make_handshake_message, parse_status_packet, req_message, response_text, ResponseReader,
    ResponseStep,
};
use minecraft_connector_api::server_status::{Players, ServerStatus, Version};
use minecraft_connector_api::status::{
    check_status_query, default_port, is_blank, Address, ApiError,
};

fn encode(n: usize) -> Vec<u8> {
    let mut buffer = Buffer::new();
    buffer.write_var_int(n);
    buffer.0
}

#[test]
fn var_int_zero_is_one_byte() {
    assert_eq!(encode(0), vec![0x00]);
}

#[test]
fn var_int_group_boundaries() {
    assert_eq!(encode(128), vec![0x80, 0x01]);
    assert_eq!(encode(255), vec![0xff, 0x01]);
    assert_eq!(encode(16383), vec![0xff, 0x7f]);
    assert_eq!(encode(16384), vec![0x80, 0x80, 0x01]);
    assert_eq!(encode(2147483647), vec![0xff, 0xff, 0xff, 0xff, 0x07]);
}

#[test]
fn var_int_stops_after_five_bytes() {
    assert_eq!(encode(1usize << 35), vec![0x80, 0x80, 0x80, 0x80, 0x80]);
}

#[test]
fn var_int_write_appends() {
    let mut buffer = Buffer::new();
    buffer.write_byte(0xaa);
    buffer.write_var_int(300);
    assert_eq!(buffer.0, vec![0xaa, 0xac, 0x02]);
}

#[test]
fn var_int_round_trips() {
    for n in [0usize, 1, 127, 128, 300, 25565, 2097151, 2097152, 268435455, 2147483647] {
        let mut bytes = encode(n);
        bytes.push(0x42);
        let value = read_var_int(&mut bytes);
        assert_eq!(value as usize, n);
        assert_eq!(bytes, vec![0x42]);
    }
}

#[test]
fn var_int_reads_low_32_bits_as_i32() {
    let mut bytes = vec![0xff, 0xff, 0xff, 0xff, 0x0f];
    assert_eq!(read_var_int(&mut bytes), -1);
    let mut bytes = encode(1usize << 31);
    assert_eq!(read_var_int(&mut bytes), i32::MIN);
}

#[test]
fn var_int_reader_takes_at_most_five_bytes() {
    let mut bytes = vec![0x81, 0x80, 0x80, 0x80, 0x80, 0x07];
    assert_eq!(read_var_int(&mut bytes), 1);
    assert_eq!(bytes, vec![0x07]);
}

#[test]
fn big_endian_short_extremes() {
    let mut buffer = Buffer::new();
    buffer.write_be_short(0);
    buffer.write_be_short(65535);
    buffer.write_be_short(256);
    assert_eq!(buffer.0, vec![0x00, 0x00, 0xff, 0xff, 0x01, 0x00]);
}

#[test]
fn string_counts_utf8_bytes() {
    let mut buffer = Buffer::new();
    buffer.write_string("é", true);
    assert_eq!(buffer.0, vec![0x02, 0xc3, 0xa9]);
    let mut buffer = Buffer::new();
    buffer.write_string("", true);
    assert_eq!(buffer.0, vec![0x00]);
}

#[test]
fn handshake_packet_prefix_reads_back() {
    let (len, message) = make_handshake_message("example.com", 1);
    let mut framed = len.clone();
    framed.extend_from_slice(&message);
    let size = read_var_int(&mut framed);
    assert_eq!(size as usize, message.len());
    assert_eq!(framed, message);
    assert_eq!(message.len(), 6 + 1 + 11);
    assert_eq!(&message[message.len() - 3..], &[0x00, 0x01, 0x01]);
}

#[test]
fn status_request_is_two_bytes_in_all() {
    let (len, message) = req_message();
    assert_eq!(len.len() + message.len(), 2);
}

/// Feeds `response` to a reader the way a stream would, and returns the last step.
fn read_response(response: &[u8]) -> (ResponseStep, usize) {
    let mut reader = ResponseReader::new();
    let mut at = 0;
    loop {
        let wanted = reader.wanted();
        let chunk = response[at..at + wanted].to_vec();
        at += wanted;
        let step = reader.next_step(&chunk);
        if step != ResponseStep::Continue {
            return (step, at);
        }
    }
}

fn status_response(json: &[u8]) -> Vec<u8> {
    let mut body = Buffer::new();
    body.write_var_int(0);
    body.write_var_int(json.len());
    body.0.extend_from_slice(json);
    let mut response = encode(body.0.len());
    response.extend_from_slice(&body.0);
    response
}

#[test]
fn response_reader_returns_short_json() {
    let json = br#"{"a":123}"#;
    let response = status_response(json);
    assert_eq!(&response[..3], &[0x0b, 0x00, 0x09]);
    let (step, used) = read_response(&response);
    assert_eq!(step, ResponseStep::Done(json.to_vec()));
    assert_eq!(used, response.len());
}

#[test]
fn response_reader_returns_long_json() {
    let json = vec![b'x'; 20000];
    let response = status_response(&json);
    assert_eq!(&response[..3], &[0xa4, 0x9c, 0x01]);
    let (step, used) = read_response(&response);
    assert_eq!(step, ResponseStep::Done(json));
    assert_eq!(used, response.len());
}

#[test]
fn response_reader_wants_length_bytes_one_at_a_time() {
    let mut reader = ResponseReader::new();
    assert_eq!(reader.wanted(), 1);
    assert_eq!(reader.next_step(&vec![0x80]), ResponseStep::Continue);
    assert_eq!(reader.wanted(), 1);
    assert_eq!(reader.next_step(&vec![0x01]), ResponseStep::Continue);
    assert_eq!(reader.wanted(), 128);
}

#[test]
fn response_reader_rejects_negative_length() {
    let mut reader = ResponseReader::new();
    for byte in [0xff, 0xff, 0xff, 0xff] {
        assert_eq!(reader.next_step(&vec![byte]), ResponseStep::Continue);
    }
    assert_eq!(reader.next_step(&vec![0x0f]), ResponseStep::Malformed);
}

#[test]
fn response_reader_rejects_other_packets() {
    let mut reader = ResponseReader::new();
    assert_eq!(reader.next_step(&vec![0x03]), ResponseStep::Continue);
    assert_eq!(reader.next_step(&vec![0x01, 0x01, b'x']), ResponseStep::Malformed);
}

#[test]
fn status_packet_parsing() {
    assert_eq!(parse_status_packet(&vec![0x00, 0x02, b'o', b'k']), Some(b"ok".to_vec()));
    assert_eq!(parse_status_packet(&vec![0x00, 0x00]), Some(vec![]));
    assert_eq!(parse_status_packet(&vec![0x00, 0x02, b'o', b'k', b'!']), Some(b"ok".to_vec()));
    assert_eq!(parse_status_packet(&vec![]), None);
    assert_eq!(parse_status_packet(&vec![0x01, 0x00]), None);
    assert_eq!(parse_status_packet(&vec![0x00, 0x03, b'o', b'k']), None);
    assert_eq!(parse_status_packet(&vec![0x00, 0x80]), None);
}

#[test]
fn response_text_decodes_utf8() {
    assert_eq!(response_text(&"é{}".as_bytes().to_vec()), "é{}");
    assert_eq!(response_text(&vec![b'a', 0xff]), "a\u{fffd}");
}

#[test]
fn blank_urls_are_detected() {
    assert!(is_blank(""));
    assert!(is_blank(" \t\n"));
    assert!(is_blank("\u{3000}\u{a0}"));
    assert!(!is_blank(" example.com "));
    assert!(!is_blank("x"));
}

#[test]
fn blank_query_is_bad_request() {
    match check_status_query("   ".to_string(), 25565) {
        Err(error) => {
            assert!(matches!(error, ApiError::BadRequest(_)));
            assert_eq!(error.status_code(), 400);
            assert_eq!(error.message(), "bad request: url cannot be empty");
        }
        Ok(_) => panic!("a blank url was accepted"),
    }
}

#[test]
fn good_query_gives_address() {
    let address = check_status_query(" mc.example.com".to_string(), 25566).ok().unwrap();
    assert_eq!(address.url, " mc.example.com");
    assert_eq!(address.port, 25566);
}

#[test]
fn errors_have_status_codes_and_messages() {
    let timeout = ApiError::Timeout("a:1".to_string());
    assert_eq!(timeout.status_code(), 504);
    assert_eq!(timeout.message(), "connection to a:1 timed out");
    let io = ApiError::Io("broken pipe".to_string());
    assert_eq!(io.status_code(), 502);
    assert_eq!(io.message(), "I/O error: broken pipe");
    let parse = ApiError::Parse("EOF".to_string());
    assert_eq!(parse.status_code(), 502);
    assert_eq!(parse.message(), "invalid server response: EOF");
}

#[test]
fn socket_address_is_host_colon_port() {
    let address = Address { url: "localhost".to_string(), port: default_port() };
    assert_eq!(address.socket_address(), "localhost:25565");
    let address = Address { url: "10.0.0.1".to_string(), port: 0 };
    assert_eq!(address.socket_address(), "10.0.0.1:0");
    let address = Address { url: "h".to_string(), port: 65535 };
    assert_eq!(address.socket_address(), "h:65535");
}

#[test]
fn default_port_is_minecraft_port() {
    assert_eq!(default_port(), 25565);
}

#[test]
fn server_status_defaults_are_empty() {
    let status = ServerStatus::default();
    assert_eq!(status.version, Version::default());
    assert_eq!(status.players, Players { max: 0, online: 0, sample: None });
    assert!(status.modinfo.is_none());
    assert_eq!(status.favicon, "");
}
