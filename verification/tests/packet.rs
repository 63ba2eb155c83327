use tcp_board::packet::{parse, Header, Packet};

fn packet(len: u32, payload: Vec<u8>) -> Packet {
    Packet { header: Header { len }, payload }
}

#[test]
fn to_vec_writes_length_big_endian_then_payload() {
    let p = packet(0x0102_0304, vec![9, 8, 7]);
    assert_eq!(p.to_vec(), vec![1, 2, 3, 4, 9, 8, 7]);
}

#[test]
fn to_vec_of_empty_payload_is_the_length_field() {
    let p = packet(5, vec![]);
    assert_eq!(p.to_vec(), vec![0, 0, 0, 5]);
}

#[test]
fn parse_reads_length_and_rest_as_payload() {
    let p = parse(vec![0, 0, 1, 2, 10, 20, 30]).unwrap();
    assert_eq!(p.header.len, 258);
    assert_eq!(p.payload, vec![10, 20, 30]);
}

#[test]
fn parse_does_not_check_length_against_payload() {
    let p = parse(vec![0xff, 0xff, 0xff, 0xff, 1]).unwrap();
    assert_eq!(p.header.len, u32::MAX);
    assert_eq!(p.payload, vec![1]);
}

#[test]
fn parse_of_exactly_four_bytes_has_empty_payload() {
    let p = parse(vec![0, 0, 0, 4]).unwrap();
    assert_eq!(p.header.len, 4);
    assert!(p.payload.is_empty());
}

#[test]
fn parse_refuses_short_buffers() {
    assert!(parse(vec![]).is_err());
    assert!(parse(vec![1]).is_err());
    assert!(parse(vec![1, 2, 3]).is_err());
}

#[test]
fn parse_gives_back_what_to_vec_wrote() {
    for (len, payload) in [(0u32, vec![]), (7, vec![1, 2, 3]), (0xdead_beef, vec![0; 300])] {
        let p = packet(len, payload.clone());
        let q = parse(p.to_vec()).unwrap();
        assert_eq!(q.header.len, len);
        assert_eq!(q.payload, payload);
    }
}

#[test]
fn to_vec_gives_back_what_parse_read() {
    let bytes = vec![0x12, 0x34, 0x56, 0x78, 0, 255, 3];
    assert_eq!(parse(bytes.clone()).unwrap().to_vec(), bytes);
}

#[test]
fn request_packet_counts_the_length_field() {
    let p = Packet::for_request(vec![1, 2, 3]);
    assert_eq!(p.header.len, 7);
    assert_eq!(p.payload, vec![1, 2, 3]);
    assert_eq!(p.to_vec(), vec![0, 0, 0, 7, 1, 2, 3]);
}

#[test]
fn response_packet_counts_the_payload_alone() {
    let p = Packet::for_response(vec![1, 2, 3]);
    assert_eq!(p.header.len, 3);
    assert_eq!(p.payload, vec![1, 2, 3]);
    let q = Packet::for_response(vec![]);
    assert_eq!(q.header.len, 0);
}
