use quark::ipc::{frame_payload, get_socket_path, parse_frame_len};

#[test]
fn frame_round_trip() {
    let payload: Vec<u8> = vec![1, 2, 3, 4, 5];
    let framed = frame_payload(&payload);
    assert_eq!(framed.len(), 9);
    let header: Vec<u8> = framed[0..4].to_vec();
    let len = parse_frame_len(&header);
    assert_eq!(len, 5);
    assert_eq!(&framed[4..], &payload[..]);
}

#[test]
fn frame_length_big_endian() {
    let payload: Vec<u8> = vec![0; 0x01020304];
    let framed = frame_payload(&payload);
    assert_eq!(&framed[0..4], &[1u8, 2, 3, 4]);
}

#[test]
fn socket_path_by_privilege() {
    assert_eq!(get_socket_path(true), "/run/quark/quark.sock");
    assert_eq!(get_socket_path(false), "/tmp/quark.sock");
}
