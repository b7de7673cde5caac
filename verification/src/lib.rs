//! Framing codec for a fixed-layout serial-link packet format.
//!
//! A frame carries a payload of 1 to 127 bytes between a fixed two-byte
//! header and a fixed footer:
//!
//! ```text
//! | header      | length                  | marker | payload | checksum | footer |
//! | 0xA5 0x5A   | 0x80|(n>>8), n&0xFF     | 0xA0   | n bytes | XOR fold | 0x04   |
//! ```
//!
//! The length field is big-endian with the top bit of its high byte forced
//! to 1, which leaves 15 bits for the payload length; the encoder restricts
//! payloads to 127 bytes so the high byte is always exactly `0x80`. The
//! checksum is the XOR of all payload bytes, so XOR-ing the payload together
//! with the checksum byte yields 0 on an uncorrupted frame.
//!
//! [`make_packet`] builds a frame around a payload; [`parser`] scans a
//! possibly noisy buffer for the first header sequence, validates every
//! structural field behind it, and returns the payload together with the
//! positions of the header and of the footer byte.

use vstd::prelude::*;

verus! {

/// First byte of the frame header.
pub const HEADER_0: u8 = 0xA5;

/// Second byte of the frame header.
pub const HEADER_1: u8 = 0x5A;

/// Fixed marker byte between the length field and the payload.
pub const MARKER: u8 = 0xA0;

/// Fixed terminator byte after the checksum.
pub const FOOTER: u8 = 0x04;

/// Largest payload length a frame can carry.
pub const MAX_PAYLOAD_LEN: usize = 0x7F;

/// Why a payload could not be encoded into a frame.
#[derive(Clone, Copy, Debug, PartialEq, Eq, Structural)]
pub enum EncodeError {
    /// The payload holds no bytes.
    EmptyPayload,
    /// The payload holds more than [`MAX_PAYLOAD_LEN`] bytes.
    PayloadTooLarge,
}

/// Why no payload could be recovered from a buffer.
#[derive(Clone, Copy, Debug, PartialEq, Eq, Structural)]
pub enum DecodeError {
    /// The start offset lies at or past the end of the buffer.
    OffsetOutOfRange,
    /// Fewer than 8 bytes remain at the offset, too few for any frame.
    BufferTooShort,
    /// No header sequence was found at or after the offset.
    HeaderNotFound,
    /// The buffer ends before the length field and marker.
    TruncatedLengthOrMarker,
    /// The top bit of the length field's high byte is not 1.
    MissingLengthFlag,
    /// The decoded payload length is 0.
    EmptyPayload,
    /// The byte after the length field is not the marker.
    MissingMarker,
    /// The buffer ends before payload, checksum and footer.
    TruncatedPayload,
    /// The checksum byte does not equal the XOR of the payload bytes.
    ChecksumMismatch,
    /// The byte after the checksum is not the footer.
    MissingFooter,
}

/// XOR of all bytes of `s`, folding from the left; 0 for the empty sequence.
pub open spec fn xor_fold(s: Seq<u8>) -> u8
    decreases s.len(),
{
    if s.len() == 0 {
        0
    } else {
        xor_fold(s.drop_last()) ^ s.last()
    }
}

/// Extending a prefix of `s` by one byte folds that byte into its checksum.
proof fn lemma_xor_fold_take_step(s: Seq<u8>, j: int)
    requires
        0 <= j < s.len(),
    ensures
        xor_fold(s.take(j + 1)) == xor_fold(s.take(j)) ^ s[j],
{
    assert(s.take(j + 1).drop_last() =~= s.take(j));
    assert(s.take(j + 1).last() == s[j]);
}

/// XOR-fold checksum of a non-empty payload.
fn calc_checksum(data: &Vec<u8>) -> (r: u8)
    requires
        data.len() >= 1,
    ensures
        r == xor_fold(data@),
{
    let mut num: u8 = data[0];
    proof {
        assert(data@.take(0int) =~= Seq::<u8>::empty());
        lemma_xor_fold_take_step(data@, 0);
        assert(0u8 ^ num == num) by (bit_vector);
        assert(xor_fold(data@.take(1int)) == num);
    }
    let mut i: usize = 1;
    while i < data.len()
        invariant
            1 <= i <= data@.len(),
            num == xor_fold(data@.take(i as int)),
        decreases data@.len() - i,
    {
        proof {
            lemma_xor_fold_take_step(data@, i as int);
        }
        num = num ^ data[i];
        i = i + 1;
    }
    proof {
        assert(data@.take(data@.len() as int) =~= data@);
    }
    num
}

/// The frame that carries payload `p`: header, big-endian length with its
/// top bit forced to 1, marker, the payload, its XOR checksum, footer.
pub open spec fn frame_of(p: Seq<u8>) -> Seq<u8> {
    seq![
        HEADER_0,
        HEADER_1,
        (0x80 + p.len() / 256) as u8,
        (p.len() % 256) as u8,
        MARKER,
    ] + p + seq![xor_fold(p), FOOTER]
}

/// What encoding a payload yields: the frame around it, or the error that
/// classifies a payload of unacceptable length.
pub open spec fn encode_spec(p: Seq<u8>) -> Result<Seq<u8>, EncodeError> {
    if p.len() == 0 {
        Err(EncodeError::EmptyPayload)
    } else if p.len() > MAX_PAYLOAD_LEN {
        Err(EncodeError::PayloadTooLarge)
    } else {
        Ok(frame_of(p))
    }
}

/// Builds the frame that carries `data`, leaving `data` itself unchanged.
///
/// Fails with [`EncodeError::EmptyPayload`] on an empty payload and with
/// [`EncodeError::PayloadTooLarge`] on one longer than [`MAX_PAYLOAD_LEN`];
/// every other payload is accepted.
pub fn make_packet(data: &mut Vec<u8>) -> (r: Result<Vec<u8>, EncodeError>)
    ensures
        final(data)@ == old(data)@,
        match r {
            Ok(frame) => encode_spec(old(data)@) == Ok::<Seq<u8>, EncodeError>(frame@),
            Err(e) => encode_spec(old(data)@) == Err::<Seq<u8>, EncodeError>(e),
        },
{
    let data_len = data.len();
    if data_len == 0 {
        return Err(EncodeError::EmptyPayload);
    }
    if data_len > MAX_PAYLOAD_LEN {
        return Err(EncodeError::PayloadTooLarge);
    }

    let checksum = calc_checksum(data);
    let mut packet: Vec<u8> = Vec::with_capacity(data_len + 7);
    // Header
    packet.push(HEADER_0);
    packet.push(HEADER_1);
    // Length, big-endian, top bit of the high byte set
    packet.push(0x80);
    packet.push(data_len as u8);
    // Marker
    packet.push(MARKER);
    // Payload
    let mut j: usize = 0;
    while j < data_len
        invariant
            0 <= j <= data_len,
            data_len == data@.len(),
            packet@ == seq![
                HEADER_0,
                HEADER_1,
                0x80u8,
                data_len as u8,
                MARKER,
            ] + data@.take(j as int),
        decreases data_len - j,
    {
        packet.push(data[j]);
        proof {
            assert(data@.take(j + 1) =~= data@.take(j as int).push(data@[j as int]));
        }
        j = j + 1;
    }
    // Checksum
    packet.push(checksum);
    // Footer
    packet.push(FOOTER);

    proof {
        assert(data@.take(data_len as int) =~= data@);
        assert(packet@ =~= frame_of(data@));
    }
    Ok(packet)
}

/// Position of the first header sequence at or after `j`: the least `i >= j`
/// with `b[i] == HEADER_0` and `b[i + 1] == HEADER_1`, both bytes in bounds.
pub open spec fn first_header_from(b: Seq<u8>, j: int) -> Option<int>
    decreases b.len() - j,
{
    if j + 1 >= b.len() {
        None
    } else if b[j] == HEADER_0 && b[j + 1] == HEADER_1 {
        Some(j)
    } else {
        first_header_from(b, j + 1)
    }
}

/// What a found header position tells: it lies in range, carries the header
/// bytes, and no earlier position at or after `j` does.
proof fn lemma_first_header_some(b: Seq<u8>, j: int, h: int)
    requires
        first_header_from(b, j) == Some(h),
    ensures
        j <= h,
        h + 1 < b.len(),
        b[h] == HEADER_0,
        b[h + 1] == HEADER_1,
        forall|k: int| j <= k < h ==> !(#[trigger] b[k] == HEADER_0 && b[k + 1] == HEADER_1),
    decreases b.len() - j,
{
    if j + 1 >= b.len() {
    } else if b[j] == HEADER_0 && b[j + 1] == HEADER_1 {
    } else {
        lemma_first_header_some(b, j + 1, h);
    }
}

/// A position that carries the header bytes, with none earlier at or after
/// `j`, is the one the search finds.
proof fn lemma_first_header_at(b: Seq<u8>, j: int, h: int)
    requires
        0 <= j <= h,
        h + 1 < b.len(),
        b[h] == HEADER_0,
        b[h + 1] == HEADER_1,
        forall|k: int| j <= k < h ==> !(#[trigger] b[k] == HEADER_0 && b[k + 1] == HEADER_1),
    ensures
        first_header_from(b, j) == Some(h),
    decreases h - j,
{
    if j < h {
        lemma_first_header_at(b, j + 1, h);
    }
}

/// What scanning yields once the header has been matched at `h`: each
/// structural field behind the header is checked in order, and the first
/// violation classifies the failure.
pub open spec fn scan_at(b: Seq<u8>, h: int) -> Result<(Seq<u8>, int, int), DecodeError> {
    if b.len() - (h + 2) < 3 {
        Err(DecodeError::TruncatedLengthOrMarker)
    } else if b[h + 2] & 0x80 != 0x80 {
        Err(DecodeError::MissingLengthFlag)
    } else {
        let n = (b[h + 2] & 0x7F) * 256 + b[h + 3];
        if n == 0 {
            Err(DecodeError::EmptyPayload)
        } else if b[h + 4] != MARKER {
            Err(DecodeError::MissingMarker)
        } else if b.len() - (h + 4) < n + 3 {
            Err(DecodeError::TruncatedPayload)
        } else {
            let payload = b.subrange(h + 5, h + 5 + n);
            if xor_fold(payload) != b[h + 5 + n] {
                Err(DecodeError::ChecksumMismatch)
            } else if b[h + 6 + n] != FOOTER {
                Err(DecodeError::MissingFooter)
            } else {
                Ok((payload, h, h + 6 + n))
            }
        }
    }
}

/// What scanning a buffer from `offset` yields: the payload of the frame at
/// the first header sequence, with the header and footer positions, or the
/// error of the first check that fails.
pub open spec fn scan_spec(b: Seq<u8>, offset: int) -> Result<(Seq<u8>, int, int), DecodeError> {
    if b.len() <= offset {
        Err(DecodeError::OffsetOutOfRange)
    } else if b.len() - offset <= 7 {
        Err(DecodeError::BufferTooShort)
    } else {
        match first_header_from(b, offset) {
            None => Err(DecodeError::HeaderNotFound),
            Some(h) => scan_at(b, h),
        }
    }
}

/// Finds the first header sequence at or after `offset`.
fn find_header(packet: &Vec<u8>, offset: usize) -> (r: Option<usize>)
    requires
        offset < packet@.len(),
    ensures
        match r {
            Some(h) => first_header_from(packet@, offset as int) == Some(h as int),
            None => first_header_from(packet@, offset as int) is None,
        },
{
    let packet_len = packet.len();
    let mut i: usize = offset;
    while i + 1 < packet_len
        invariant
            offset <= i <= packet_len - 1,
            packet_len == packet@.len(),
            packet_len >= 1,
            first_header_from(packet@, offset as int) == first_header_from(packet@, i as int),
        decreases packet_len - i,
    {
        if packet[i] == HEADER_0 && packet[i + 1] == HEADER_1 {
            return Some(i);
        }
        i = i + 1;
    }
    None
}

/// Scans `packet` from `offset` for the first frame, validates it, and
/// returns its payload together with the position of the header's first
/// byte and the position of the footer byte (both inclusive indices).
///
/// Succeeds exactly when a header sequence is found and every structural
/// check behind it passes; the error otherwise names the first check that
/// failed, as [`scan_spec`] states.
pub fn parser(packet: &Vec<u8>, offset: usize) -> (r: Result<(Vec<u8>, usize, usize), DecodeError>)
    ensures
        match r {
            Ok(t) => scan_spec(packet@, offset as int)
                == Ok::<(Seq<u8>, int, int), DecodeError>((t.0@, t.1 as int, t.2 as int)),
            Err(e) => scan_spec(packet@, offset as int)
                == Err::<(Seq<u8>, int, int), DecodeError>(e),
        },
{
    let packet_len = packet.len();

    if packet_len <= offset {
        return Err(DecodeError::OffsetOutOfRange);
    }
    if packet_len - offset <= 7 {
        return Err(DecodeError::BufferTooShort);
    }

    // Find the header, skipping any noise bytes before it.
    let head_pos = match find_header(packet, offset) {
        None => {
            return Err(DecodeError::HeaderNotFound);
        },
        Some(h) => h,
    };
    proof {
        lemma_first_header_some(packet@, offset as int, head_pos as int);
    }

    // The length field and the marker must still fit in the buffer.
    if packet_len - (head_pos + 2) < 3 {
        return Err(DecodeError::TruncatedLengthOrMarker);
    }

    // Decode the 15-bit payload length behind its flag bit.
    let hi = packet[head_pos + 2];
    if hi & 0x80 != 0x80 {
        return Err(DecodeError::MissingLengthFlag);
    }
    let lo = packet[head_pos + 3];
    proof {
        assert((hi & 0x7F) <= 0x7F) by (bit_vector);
    }
    let data_size = ((hi & 0x7F) as usize) * 256 + (lo as usize);
    if data_size == 0 {
        return Err(DecodeError::EmptyPayload);
    }

    // The fixed marker guards against a false header match.
    if packet[head_pos + 4] != MARKER {
        return Err(DecodeError::MissingMarker);
    }

    // Payload, checksum and footer must still fit in the buffer.
    if packet_len - (head_pos + 4) < data_size + 3 {
        return Err(DecodeError::TruncatedPayload);
    }

    // Extract the payload.
    let mut main_data: Vec<u8> = Vec::with_capacity(data_size);
    let mut j: usize = head_pos + 5;
    while j < head_pos + 5 + data_size
        invariant
            head_pos + 5 <= j <= head_pos + 5 + data_size,
            head_pos + 7 + data_size <= packet_len,
            packet_len == packet@.len(),
            main_data@ == packet@.subrange(head_pos + 5, j as int),
        decreases head_pos + 5 + data_size - j,
    {
        main_data.push(packet[j]);
        proof {
            assert(packet@.subrange(head_pos + 5, j + 1)
                =~= packet@.subrange(head_pos + 5, j as int).push(packet@[j as int]));
        }
        j = j + 1;
    }

    // Verify integrity: the payload's checksum must cancel the checksum byte.
    let checksum = calc_checksum(&main_data);
    let stored = packet[head_pos + 5 + data_size];
    proof {
        assert((checksum ^ stored == 0) == (checksum == stored)) by (bit_vector);
    }
    if checksum ^ stored != 0 {
        return Err(DecodeError::ChecksumMismatch);
    }

    // The footer terminates the frame.
    let tail_pos = head_pos + 6 + data_size;
    if packet[tail_pos] != FOOTER {
        return Err(DecodeError::MissingFooter);
    }

    Ok((main_data, head_pos, tail_pos))
}

/// Replacing one byte of `s` replaces its contribution to the XOR fold.
proof fn lemma_xor_fold_update(s: Seq<u8>, j: int, v: u8)
    requires
        0 <= j < s.len(),
    ensures
        xor_fold(s.update(j, v)) == xor_fold(s) ^ s[j] ^ v,
    decreases s.len(),
{
    let a = xor_fold(s.drop_last());
    let e = s.last();
    if j == s.len() - 1 {
        assert(s.update(j, v).drop_last() =~= s.drop_last());
        assert(s.update(j, v).last() == v);
        assert(a ^ v == (a ^ e) ^ e ^ v) by (bit_vector);
    } else {
        assert(s.update(j, v).drop_last() =~= s.drop_last().update(j, v));
        assert(s.update(j, v).last() == e);
        lemma_xor_fold_update(s.drop_last(), j, v);
        let c = s[j];
        assert((a ^ c ^ v) ^ e == (a ^ e) ^ c ^ v) by (bit_vector);
    }
}

/// Scanning at the start of an intact embedded frame recovers its payload:
/// where the bytes from `h` on hold `frame_of(p)`, every structural check
/// passes and the scan yields `p` with the frame's end position.
pub proof fn lemma_scan_at_frame(b: Seq<u8>, h: int, p: Seq<u8>)
    requires
        1 <= p.len() <= MAX_PAYLOAD_LEN,
        0 <= h,
        h + p.len() + 7 <= b.len(),
        b.subrange(h, h + p.len() + 7) == frame_of(p),
    ensures
        scan_at(b, h) == Ok::<(Seq<u8>, int, int), DecodeError>((p, h, h + p.len() + 6)),
{
    let n = p.len() as int;
    let w = frame_of(p);
    assert(forall|k: int| 0 <= k < n + 7 ==> b[h + k] == #[trigger] w[k]) by {
        assert(forall|k: int| 0 <= k < n + 7
            ==> #[trigger] b.subrange(h, h + n + 7)[k] == b[h + k]);
    }
    assert(w[2] == 0x80);
    assert(b[h + 2] & 0x80 == 0x80) by {
        assert(0x80u8 & 0x80 == 0x80) by (bit_vector);
    }
    assert(b[h + 2] & 0x7F == 0) by {
        assert(0x80u8 & 0x7F == 0) by (bit_vector);
    }
    assert(w[3] == n as u8);
    assert((b[h + 2] & 0x7F) * 256 + b[h + 3] == n);
    assert(w[4] == MARKER);
    assert(forall|k: int| 0 <= k < n ==> #[trigger] w[5 + k] == p[k]);
    assert(forall|k: int| 0 <= k < n
        ==> #[trigger] b.subrange(h + 5, h + 5 + n)[k] == b[h + 5 + k]);
    assert(forall|k: int| 0 <= k < n ==> #[trigger] b[h + 5 + k] == w[5 + k]);
    assert(b.subrange(h + 5, h + 5 + n) =~= p);
    assert(w[5 + n] == xor_fold(p));
    assert(w[6 + n] == FOOTER);
}

/// Round trip: a frame built around any acceptable payload scans back to
/// exactly that payload, with the header at position 0 and the footer at
/// the frame's last byte.
pub proof fn lemma_round_trip(p: Seq<u8>)
    requires
        1 <= p.len() <= MAX_PAYLOAD_LEN,
    ensures
        encode_spec(p) == Ok::<Seq<u8>, EncodeError>(frame_of(p)),
        scan_spec(frame_of(p), 0) == Ok::<(Seq<u8>, int, int), DecodeError>((
            p,
            0,
            p.len() + 6int,
        )),
{
    let w = frame_of(p);
    let n = p.len() as int;
    assert(w.len() == n + 7);
    assert(w[0] == HEADER_0 && w[1] == HEADER_1);
    lemma_first_header_at(w, 0, 0);
    assert(w.subrange(0, n + 7) =~= w);
    lemma_scan_at_frame(w, 0, p);
}

/// Noise tolerance: arbitrary bytes before and after an intact frame do not
/// change the scanned payload, and the reported header position is exactly
/// where the frame begins — provided the leading noise itself contains no
/// header sequence, since the scanner commits to the first one it finds.
pub proof fn lemma_noise_tolerance(pre: Seq<u8>, p: Seq<u8>, post: Seq<u8>)
    requires
        1 <= p.len() <= MAX_PAYLOAD_LEN,
        forall|k: int| 0 <= k < pre.len() - 1
            ==> !(#[trigger] pre[k] == HEADER_0 && pre[k + 1] == HEADER_1),
    ensures
        scan_spec(pre + frame_of(p) + post, 0) == Ok::<(Seq<u8>, int, int), DecodeError>((
            p,
            pre.len() as int,
            pre.len() + p.len() + 6int,
        )),
{
    let w = pre + frame_of(p) + post;
    let h = pre.len() as int;
    let n = p.len() as int;
    assert(w.len() == h + n + 7 + post.len());
    assert(forall|k: int| 0 <= k < n + 7 ==> w[h + k] == #[trigger] frame_of(p)[k]);
    assert(w[h] == HEADER_0 && w[h + 1] == HEADER_1);
    assert(forall|k: int| 0 <= k < h ==> !(#[trigger] w[k] == HEADER_0 && w[k + 1] == HEADER_1))
        by {
        assert(forall|k: int| 0 <= k < h ==> #[trigger] w[k] == pre[k]);
    }
    lemma_first_header_at(w, 0, h);
    assert(w.subrange(h, h + n + 7) =~= frame_of(p));
    lemma_scan_at_frame(w, h, p);
}

/// Checksum sensitivity: changing any single payload byte of an intact
/// frame, while the checksum byte stays as it was, makes the scan fail with
/// a checksum mismatch. A single flipped bit is the mask `m` with one bit
/// set; any nonzero mask is covered.
pub proof fn lemma_checksum_sensitivity(p: Seq<u8>, j: int, m: u8)
    requires
        1 <= p.len() <= MAX_PAYLOAD_LEN,
        0 <= j < p.len(),
        m != 0,
    ensures
        scan_spec(frame_of(p).update(5 + j, p[j] ^ m), 0) == Err::<
            (Seq<u8>, int, int),
            DecodeError,
        >(DecodeError::ChecksumMismatch),
{
    let n = p.len() as int;
    let f = frame_of(p);
    let w = f.update(5 + j, p[j] ^ m);
    assert(w.len() == n + 7);
    assert(forall|k: int| 0 <= k < n + 7 && k != 5 + j ==> #[trigger] w[k] == f[k]);
    assert(w[0] == HEADER_0 && w[1] == HEADER_1);
    lemma_first_header_at(w, 0, 0);
    assert(w[2] == 0x80);
    assert(w[2] & 0x80 == 0x80 && w[2] & 0x7F == 0) by {
        assert(0x80u8 & 0x80 == 0x80 && 0x80u8 & 0x7F == 0) by (bit_vector);
    }
    assert((w[2] & 0x7F) * 256 + w[3] == n);
    let damaged = w.subrange(5, 5 + n);
    assert(damaged =~= p.update(j, p[j] ^ m)) by {
        assert(forall|k: int| 0 <= k < n ==> #[trigger] damaged[k] == w[5 + k]);
        assert(forall|k: int| 0 <= k < n ==> #[trigger] f[5 + k] == p[k]);
    }
    lemma_xor_fold_update(p, j, p[j] ^ m);
    let c = xor_fold(p);
    let x = p[j];
    assert(c ^ x ^ (x ^ m) != c) by (bit_vector)
        requires
            m != 0,
    ;
    assert(w[5 + n] == c);
    assert(xor_fold(damaged) != w[5 + n]);
}

/// Truncation: cutting the footer byte off a bare frame starves a later
/// check of bytes. With a one-byte payload the 7 remaining bytes fall at
/// the scanner's minimum-size precheck; with a longer payload the cut is
/// noticed where payload, checksum and footer no longer fit.
pub proof fn lemma_truncation(p: Seq<u8>)
    requires
        1 <= p.len() <= MAX_PAYLOAD_LEN,
    ensures
        p.len() == 1 ==> scan_spec(frame_of(p).drop_last(), 0) == Err::<
            (Seq<u8>, int, int),
            DecodeError,
        >(DecodeError::BufferTooShort),
        p.len() >= 2 ==> scan_spec(frame_of(p).drop_last(), 0) == Err::<
            (Seq<u8>, int, int),
            DecodeError,
        >(DecodeError::TruncatedPayload),
{
    let n = p.len() as int;
    let f = frame_of(p);
    let w = f.drop_last();
    assert(w.len() == n + 6);
    if n >= 2 {
        assert(forall|k: int| 0 <= k < n + 6 ==> #[trigger] w[k] == f[k]);
        assert(w[0] == HEADER_0 && w[1] == HEADER_1);
        lemma_first_header_at(w, 0, 0);
        assert(w[2] == 0x80);
        assert(w[2] & 0x80 == 0x80 && w[2] & 0x7F == 0) by {
            assert(0x80u8 & 0x80 == 0x80 && 0x80u8 & 0x7F == 0) by (bit_vector);
        }
        assert((w[2] & 0x7F) * 256 + w[3] == n);
        assert(w[4] == MARKER);
        assert(w.len() - 4 < n + 3);
    }
}

/// Flag-bit violation: wherever the scanner matches a header whose length
/// byte has its top bit clear, it fails with a missing length flag, whatever
/// the rest of the buffer holds.
pub proof fn lemma_missing_length_flag(b: Seq<u8>, offset: int, h: int)
    requires
        0 <= offset,
        b.len() - offset > 7,
        first_header_from(b, offset) == Some(h),
        b.len() - (h + 2) >= 3,
        b[h + 2] & 0x80 != 0x80,
    ensures
        scan_spec(b, offset) == Err::<(Seq<u8>, int, int), DecodeError>(
            DecodeError::MissingLengthFlag,
        ),
{
}

} // verus!
