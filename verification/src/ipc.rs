//! The IPC framing: length-prefixed binary messages between supervisor and
//! worker, big-endian `u32` length then payload.
use vstd::prelude::*;

verus! {

/// One message between the processes: the kind tag, an optional key, and
/// the encoded body.
pub struct IpcMessage<T> {
    pub kind: String,
    pub key: Option<String>,
    pub payload: T,
}

/// The four big-endian bytes of a length.
pub open spec fn spec_be_bytes(n: u32) -> Seq<u8> {
    seq![
        (n / 0x1000000) as u8,
        ((n / 0x10000) % 0x100) as u8,
        ((n / 0x100) % 0x100) as u8,
        (n % 0x100) as u8,
    ]
}

/// The length the four bytes spell.
pub open spec fn spec_len_of(b: Seq<u8>) -> int {
    b[0] * 0x1000000 + b[1] * 0x10000 + b[2] * 0x100 + b[3]
}

/// Writing a length big-endian and reading it back is the identity.
pub proof fn lemma_frame_len_roundtrip(n: u32)
    ensures
        spec_len_of(spec_be_bytes(n)) == n,
{
    let b = spec_be_bytes(n);
    assert(b[0] == (n / 0x1000000) as u8);
    assert((n / 0x1000000) * 0x1000000 + ((n / 0x10000) % 0x100) * 0x10000 + ((n / 0x100) % 0x100)
        * 0x100 + (n % 0x100) == n) by (nonlinear_arith);
}

/// Frames a payload: its length, big-endian in four bytes, then the bytes.
pub fn frame_payload(payload: &Vec<u8>) -> (r: Vec<u8>)
    requires
        payload@.len() <= u32::MAX,
    ensures
        r@.len() == payload@.len() + 4,
        r@.subrange(0, 4) == spec_be_bytes(payload@.len() as u32),
        r@.subrange(4, r@.len() as int) == payload@,
{
    let n: u32 = payload.len() as u32;
    let mut out: Vec<u8> = Vec::new();
    out.push((n / 0x1000000) as u8);
    out.push(((n / 0x10000) % 0x100) as u8);
    out.push(((n / 0x100) % 0x100) as u8);
    out.push((n % 0x100) as u8);
    let m = payload.len();
    let mut i: usize = 0;
    while i < m
        invariant
            i <= m,
            m == payload@.len(),
            out@.len() == 4 + i,
            out@.subrange(0, 4) =~= spec_be_bytes(m as u32),
            out@.subrange(4, out@.len() as int) =~= payload@.subrange(0, i as int),
        decreases m - i,
    {
        out.push(payload[i]);
        proof {
            assert(out@.subrange(0, 4) =~= spec_be_bytes(m as u32));
            assert(out@.subrange(4, out@.len() as int) =~= payload@.subrange(0, i + 1));
        }
        i += 1;
    }
    proof {
        assert(payload@.subrange(0, m as int) =~= payload@);
    }
    out
}

/// Reads the length out of a four-byte frame header.
pub fn parse_frame_len(header: &Vec<u8>) -> (r: u32)
    requires
        header@.len() == 4,
    ensures
        r == spec_len_of(header@),
{
    let b0 = header[0] as u32;
    let b1 = header[1] as u32;
    let b2 = header[2] as u32;
    let b3 = header[3] as u32;
    b0 * 0x1000000 + b1 * 0x10000 + b2 * 0x100 + b3
}

/// The IPC socket path: under the run directory for root, under the
/// temporary directory otherwise.
pub fn get_socket_path(is_root: bool) -> (r: String)
    ensures
        is_root ==> r@ == "/run/quark/quark.sock"@,
        !is_root ==> r@ == "/tmp/quark.sock"@,
{
    if is_root {
        String::from_str("/run/quark/quark.sock")
    } else {
        String::from_str("/tmp/quark.sock")
    }
}

} // verus!
