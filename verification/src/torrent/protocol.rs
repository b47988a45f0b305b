//! One peer connection's side of the protocol: the handshake, and the
//! decisions of a peer that downloads the blocks of the first piece the
//! other side has.

use super::message::location::Location;
use super::message::request::Request;
use super::message::{Message, MessageView};
use crate::bencode::copy_bytes;
use vstd::prelude::*;

verus! {

/// What a peer remembers of a connection.
pub struct State {
    pub seeding: bool,
    pub interested: bool,
    pub choked: bool,
    pub choking: bool,
    pub bitfield: Vec<u8>,
    pub has: Vec<u8>,
    pub sent_anything: bool,
    pub received_anything: bool,
    pub length: usize,
    pub piece_length: usize,
    pub uploaded: usize,
    pub downloaded: usize,
    pub left: usize,
    pub blocks: Option<(usize, Vec<Location>)>,
}

/// What a peer remembers, as a value.
pub struct StateView {
    pub seeding: bool,
    pub interested: bool,
    pub choked: bool,
    pub choking: bool,
    pub bitfield: Seq<u8>,
    pub has: Seq<u8>,
    pub sent_anything: bool,
    pub received_anything: bool,
    pub length: usize,
    pub piece_length: usize,
    pub uploaded: usize,
    pub downloaded: usize,
    pub left: usize,
    pub blocks: Option<(usize, Seq<Location>)>,
}

impl View for State {
    type V = StateView;

    open spec fn view(&self) -> StateView {
        StateView {
            seeding: self.seeding,
            interested: self.interested,
            choked: self.choked,
            choking: self.choking,
            bitfield: self.bitfield@,
            has: self.has@,
            sent_anything: self.sent_anything,
            received_anything: self.received_anything,
            length: self.length,
            piece_length: self.piece_length,
            uploaded: self.uploaded,
            downloaded: self.downloaded,
            left: self.left,
            blocks: match self.blocks {
                Some((i, locations)) => Some((i, locations@)),
                None => None,
            },
        }
    }
}

/// The first twenty bytes of a handshake: the length 19 and the protocol's
/// name.
pub open spec fn protocol_name() -> Seq<u8> {
    seq![19u8, 66, 105, 116, 84, 111, 114, 114, 101, 110, 116, 32, 112, 114, 111, 116, 111, 99, 111, 108]
}

/// The handshake: the protocol's name, eight zero bytes, the info hash and
/// the peer id.
pub open spec fn handshake_bytes(info_hash: Seq<u8>, peer_id: Seq<u8>) -> Seq<u8> {
    protocol_name() + Seq::new(8, |i: int| 0u8) + info_hash + peer_id
}

/// Appends `bytes` to `out`.
pub(crate) fn push_bytes(out: &mut Vec<u8>, bytes: &[u8])
    ensures
        final(out)@ == old(out)@ + bytes@,
{
    let ghost start = out@;
    let mut i: usize = 0;
    while i < bytes.len()
        invariant
            i <= bytes@.len(),
            out@ == start + bytes@.take(i as int),
        decreases bytes@.len() - i,
    {
        out.push(bytes[i]);
        i = i + 1;
        proof {
            assert(out@ =~= start + bytes@.take(i as int));
        }
    }
    proof {
        assert(bytes@.take(bytes@.len() as int) =~= bytes@);
    }
}

/// The handshake that opens a connection.
pub fn handshake(info_hash: &[u8; 20], peer_id: &[u8; 20]) -> (r: Vec<u8>)
    ensures
        r@ == handshake_bytes(info_hash@, peer_id@),
{
    let name: [u8; 20] = [
        19, 66, 105, 116, 84, 111, 114, 114, 101, 110, 116, 32, 112, 114, 111, 116, 111, 99, 111, 108,
    ];
    let mut out: Vec<u8> = Vec::new();
    push_bytes(&mut out, name.as_slice());
    let mut i: usize = 0;
    while i < 8
        invariant
            i <= 8,
            out@ == name@ + Seq::new(i as nat, |j: int| 0u8),
        decreases 8 - i,
    {
        out.push(0);
        i = i + 1;
        proof {
            assert(out@ =~= name@ + Seq::new(i as nat, |j: int| 0u8));
        }
    }
    push_bytes(&mut out, info_hash.as_slice());
    push_bytes(&mut out, peer_id.as_slice());
    proof {
        assert(name@ =~= protocol_name());
    }
    out
}

/// What reading a handshake from `s` gives: `None` if `s` is shorter than a
/// handshake or does not start with the protocol's name; otherwise whether
/// its info hash is `info_hash`.
pub open spec fn spec_try_handshake(s: Seq<u8>, info_hash: Seq<u8>) -> Option<bool> {
    if s.len() < 68 || s.take(20) != protocol_name() {
        None
    } else {
        Some(s.subrange(28, 48) == info_hash)
    }
}

/// Whether two byte slices hold the same bytes.
fn same_bytes(a: &[u8], b: &[u8]) -> (r: bool)
    ensures
        r == (a@ == b@),
{
    if a.len() != b.len() {
        return false;
    }
    let mut i: usize = 0;
    while i < a.len()
        invariant
            a@.len() == b@.len(),
            i <= a@.len(),
            forall|j: int| 0 <= j < i ==> a@[j] == b@[j],
        decreases a@.len() - i,
    {
        if a[i] != b[i] {
            return false;
        }
        i = i + 1;
    }
    proof {
        assert(a@ =~= b@);
    }
    true
}

/// Reads the other side's handshake from the front of `input`: the bytes
/// after it, and whether it names the torrent of `info_hash`.
pub fn try_handshake<'a>(input: &'a [u8], info_hash: &[u8; 20]) -> (r: Result<(&'a [u8], bool), ()>)
    ensures
        match spec_try_handshake(input@, info_hash@) {
            None => r is Err,
            Some(valid) => r matches Ok((rest, v)) && v == valid && rest@ == input@.skip(68),
        },
{
    let name: [u8; 20] = [
        19, 66, 105, 116, 84, 111, 114, 114, 101, 110, 116, 32, 112, 114, 111, 116, 111, 99, 111, 108,
    ];
    proof {
        assert(name@ =~= protocol_name());
    }
    if input.len() < 68 || !same_bytes(&input[0..20], name.as_slice()) {
        return Err(());
    }
    Ok((&input[68..input.len()], same_bytes(&input[28..48], info_hash.as_slice())))
}

/// A handshake, followed by anything, is read back as naming its own info
/// hash, and the bytes after it are what followed it.
pub proof fn law_handshake_read_back(info_hash: Seq<u8>, peer_id: Seq<u8>, rest: Seq<u8>)
    requires
        info_hash.len() == 20,
        peer_id.len() == 20,
    ensures
        spec_try_handshake(handshake_bytes(info_hash, peer_id) + rest, info_hash) == Some(true),
        (handshake_bytes(info_hash, peer_id) + rest).skip(68) == rest,
{
    let s = handshake_bytes(info_hash, peer_id) + rest;
    assert(s.take(20) =~= protocol_name());
    assert(s.subrange(28, 48) =~= info_hash);
    assert(s.skip(68) =~= rest);
}

/// Whether bit `i` (counted from the least significant) of `byte` is set.
pub open spec fn byte_bit(byte: u8, i: int) -> bool {
    byte & (1u8 << (i as u8)) != 0
}

/// Whether bit `k` of a bitfield is set: bit `k % 8` of byte `k / 8`.
pub open spec fn bit_set(bits: Seq<u8>, k: int) -> bool {
    byte_bit(bits[k / 8], k % 8)
}

/// Whether `k` is the first bit of `bits` that is set (or, with `set`
/// false, clear).
pub open spec fn is_first(bits: Seq<u8>, k: int, set: bool) -> bool {
    &&& 0 <= k < bits.len() * 8
    &&& bit_set(bits, k) == set
    &&& forall|j: int| 0 <= j < k ==> bit_set(bits, j) != set
}

/// The first bit of `bits` that is set (or, with `set` false, clear), if any.
pub open spec fn first_bit(bits: Seq<u8>, set: bool) -> Option<int> {
    if exists|k: int| is_first(bits, k, set) {
        Some(choose|k: int| is_first(bits, k, set))
    } else {
        None
    }
}

/// A byte's eight bits are all clear only when the byte is zero, and all set
/// only when it is 255.
proof fn lemma_byte_bits(byte: u8)
    ensures
        (forall|i: int| 0 <= i < 8 ==> !byte_bit(byte, i)) <==> byte == 0,
        (forall|i: int| 0 <= i < 8 ==> byte_bit(byte, i)) <==> byte == 255,
{
    assert((byte & 1u8 == 0 && byte & 2u8 == 0 && byte & 4u8 == 0 && byte & 8u8 == 0 && byte & 16u8
        == 0 && byte & 32u8 == 0 && byte & 64u8 == 0 && byte & 128u8 == 0) <==> byte == 0)
        by (bit_vector);
    assert((byte & 1u8 != 0 && byte & 2u8 != 0 && byte & 4u8 != 0 && byte & 8u8 != 0 && byte & 16u8
        != 0 && byte & 32u8 != 0 && byte & 64u8 != 0 && byte & 128u8 != 0) <==> byte == 255)
        by (bit_vector);
    assert(1u8 << 0u8 == 1u8 && 1u8 << 1u8 == 2u8 && 1u8 << 2u8 == 4u8 && 1u8 << 3u8 == 8u8 && 1u8
        << 4u8 == 16u8 && 1u8 << 5u8 == 32u8 && 1u8 << 6u8 == 64u8 && 1u8 << 7u8 == 128u8)
        by (bit_vector);
    if forall|i: int| 0 <= i < 8 ==> !byte_bit(byte, i) {
        assert(!byte_bit(byte, 0) && !byte_bit(byte, 1) && !byte_bit(byte, 2) && !byte_bit(byte, 3)
            && !byte_bit(byte, 4) && !byte_bit(byte, 5) && !byte_bit(byte, 6) && !byte_bit(byte, 7));
    }
    if forall|i: int| 0 <= i < 8 ==> byte_bit(byte, i) {
        assert(byte_bit(byte, 0) && byte_bit(byte, 1) && byte_bit(byte, 2) && byte_bit(byte, 3)
            && byte_bit(byte, 4) && byte_bit(byte, 5) && byte_bit(byte, 6) && byte_bit(byte, 7));
    }
    if byte == 0 {
        assert forall|i: int| 0 <= i < 8 implies !byte_bit(byte, i) by {
            let k = i as u8;
            assert(0u8 & (1u8 << k) == 0) by (bit_vector);
        }
    }
    if byte == 255 {
        assert forall|i: int| 0 <= i < 8 implies byte_bit(byte, i) by {
            let k = i as u8;
            assert(k < 8 ==> 255u8 & (1u8 << k) != 0) by (bit_vector);
        }
    }
}

/// The first set (or clear) bit is the only index that is first.
proof fn lemma_first_bit(bits: Seq<u8>, k: int, set: bool)
    requires
        is_first(bits, k, set),
    ensures
        first_bit(bits, set) == Some(k),
{
    let c = choose|j: int| is_first(bits, j, set);
    assert(is_first(bits, c, set));
    if c < k {
        assert(bit_set(bits, c) != set);
    }
    if c > k {
        assert(bit_set(bits, k) != set);
    }
}

/// Finds the first bit of `bitfield` that is set (or, with `set` false,
/// clear): the first byte that is not all clear (or all set), then its
/// first such bit.
fn find_bit(bitfield: &Vec<u8>, set: bool) -> (r: Option<usize>)
    requires
        bitfield@.len() <= usize::MAX / 8,
    ensures
        match r {
            Some(k) => first_bit(bitfield@, set) == Some(k as int),
            None => first_bit(bitfield@, set) is None,
        },
{
    let skip: u8 = if set { 0 } else { 255 };
    let mut b: usize = 0;
    while b < bitfield.len() && bitfield[b] == skip
        invariant
            b <= bitfield@.len(),
            bitfield@.len() <= usize::MAX / 8,
            skip == (if set { 0u8 } else { 255u8 }),
            forall|j: int| 0 <= j < b * 8 ==> bit_set(bitfield@, j) != set,
        decreases bitfield@.len() - b,
    {
        proof {
            lemma_byte_bits(skip);
            assert forall|j: int| 0 <= j < (b + 1) * 8 implies bit_set(bitfield@, j) != set by {
                if j >= b * 8 {
                    assert(j / 8 == b);
                    assert(0 <= j % 8 < 8);
                }
            }
        }
        b = b + 1;
    }
    if b == bitfield.len() {
        proof {
            if exists|k: int| is_first(bitfield@, k, set) {
                let k = choose|k: int| is_first(bitfield@, k, set);
                assert(bit_set(bitfield@, k) != set);
            }
        }
        return None;
    }
    let byte = bitfield[b];
    proof {
        lemma_byte_bits(byte);
    }
    let mut i: u8 = 0;
    while i < 8 && ((byte & (1u8 << i) != 0) != set)
        invariant
            i <= 8,
            b < bitfield@.len(),
            byte == bitfield@[b as int],
            bitfield@.len() <= usize::MAX / 8,
            forall|j: int| 0 <= j < i ==> byte_bit(byte, j) != set,
        decreases 8 - i,
    {
        i = i + 1;
    }
    if i == 8 {
        proof {
            if set {
                assert(forall|j: int| 0 <= j < 8 ==> !byte_bit(byte, j));
            } else {
                assert(forall|j: int| 0 <= j < 8 ==> byte_bit(byte, j));
            }
        }
        return None;
    }
    let k = b * 8 + i as usize;
    proof {
        assert(k as int / 8 == b);
        assert(k as int % 8 == i);
        assert forall|j: int| 0 <= j < k implies bit_set(bitfield@, j) != set by {
            if j >= b * 8 {
                assert(j / 8 == b);
                assert(j % 8 == j - b * 8);
            }
        }
        lemma_first_bit(bitfield@, k as int, set);
    }
    Some(k)
}

/// The first clear bit of a bitfield, if any.
fn _find0(bitfield: &Vec<u8>) -> (r: Option<usize>)
    requires
        bitfield@.len() <= usize::MAX / 8,
    ensures
        match r {
            Some(k) => first_bit(bitfield@, false) == Some(k as int),
            None => first_bit(bitfield@, false) is None,
        },
{
    find_bit(bitfield, false)
}

/// The first set bit of a bitfield, if any.
fn find1(bitfield: &Vec<u8>) -> (r: Option<usize>)
    requires
        bitfield@.len() <= usize::MAX / 8,
    ensures
        match r {
            Some(k) => first_bit(bitfield@, true) == Some(k as int),
            None => first_bit(bitfield@, true) is None,
        },
{
    find_bit(bitfield, true)
}

/// How many of the lowest `n` bits of `byte` are clear.
pub open spec fn zeros_in_byte(byte: u8, n: int) -> int
    decreases n,
{
    if n <= 0 {
        0
    } else {
        zeros_in_byte(byte, n - 1) + if byte_bit(byte, n - 1) {
            0int
        } else {
            1int
        }
    }
}

/// How many bits of all the bytes are clear.
pub open spec fn zeros_in_bytes(s: Seq<u8>) -> int
    decreases s.len(),
{
    if s.len() == 0 {
        0
    } else {
        zeros_in_bytes(s.drop_last()) + zeros_in_byte(s.last(), 8)
    }
}

/// The clear bits that `count0` counts: all of every byte but the last, and
/// the lowest `length % 8` bits of the last.
pub open spec fn count0_spec(length: int, bits: Seq<u8>) -> int {
    zeros_in_bytes(bits.drop_last()) + zeros_in_byte(bits.last(), length % 8)
}

/// No more bits are clear than there are.
pub(crate) proof fn lemma_zeros_bounds(s: Seq<u8>, byte: u8, n: int)
    requires
        0 <= n,
    ensures
        0 <= zeros_in_byte(byte, n) <= n,
        0 <= zeros_in_bytes(s) <= 8 * s.len(),
    decreases s.len(), n,
{
    if n > 0 {
        lemma_zeros_bounds(s, byte, n - 1);
    } else if s.len() > 0 {
        lemma_zeros_bounds(s.drop_last(), s.last(), 8);
    }
}

/// Counts the clear bits of `byte` among its lowest `n`, adding them to
/// `count`.
fn count_zeros_in_byte(byte: u8, n: u8, count: usize) -> (r: usize)
    requires
        n <= 8,
        count + n <= usize::MAX,
    ensures
        r == count + zeros_in_byte(byte, n as int),
{
    let mut c = count;
    let mut i: u8 = 0;
    while i < n
        invariant
            i <= n <= 8,
            count + n <= usize::MAX,
            c == count + zeros_in_byte(byte, i as int),
            zeros_in_byte(byte, i as int) <= i,
        decreases n - i,
    {
        proof {
            lemma_zeros_bounds(Seq::<u8>::empty(), byte, i as int);
        }
        if byte & (1u8 << i) == 0 {
            c = c + 1;
        }
        i = i + 1;
    }
    c
}

/// How many bits of the bitfield are clear: all the bits of every byte but
/// the last, and the lowest `length % 8` bits of the last.
fn count0(length: usize, bitfield: &Vec<u8>) -> (r: usize)
    requires
        bitfield@.len() > 0,
        bitfield@.len() <= usize::MAX / 8,
    ensures
        r == count0_spec(length as int, bitfield@),
{
    let n = bitfield.len() - 1;
    let mut count: usize = 0;
    let mut j: usize = 0;
    while j < n
        invariant
            j <= n,
            n == bitfield@.len() - 1,
            bitfield@.len() <= usize::MAX / 8,
            count == zeros_in_bytes(bitfield@.take(j as int)),
            count <= 8 * j,
        decreases n - j,
    {
        let byte = bitfield[j];
        count = count_zeros_in_byte(byte, 8, count);
        proof {
            assert(bitfield@.take(j + 1).drop_last() =~= bitfield@.take(j as int));
            lemma_zeros_bounds(Seq::<u8>::empty(), byte, 8);
        }
        j = j + 1;
    }
    let last_byte = bitfield[n];
    let low: u8 = (length % 8) as u8;
    let r = count_zeros_in_byte(last_byte, low, count);
    proof {
        assert(bitfield@.drop_last() =~= bitfield@.take(n as int));
    }
    r
}

/// Sets bit `index` of the bitfield.
fn set(bytes: &mut Vec<u8>, index: usize)
    requires
        index / 8 < old(bytes)@.len(),
    ensures
        final(bytes)@ == old(bytes)@.update(
            index as int / 8,
            old(bytes)@[index as int / 8] | (1u8 << ((index % 8) as u8)),
        ),
{
    let i = index / 8;
    let shift: u8 = (index % 8) as u8;
    let byte = bytes[i] | (1u8 << shift);
    bytes.set(i, byte);
}

/// The blocks of a piece of `piece_length` bytes: one every 16 KiB, from
/// the start of the piece.
pub open spec fn block_locations(index: u32, piece_length: u32) -> Seq<Location> {
    Seq::new(
        ((piece_length + 16383) / 16384) as nat,
        |k: int| Location { index, begin: (k * 16384) as u32 },
    )
}

/// The largest piece length whose block offsets all fit in 32 bits.
pub open spec fn max_piece_length() -> int {
    4294950912
}

/// The locations of the blocks of piece `index`.
fn locations(index: u32, piece_length: u32) -> (r: Vec<Location>)
    requires
        piece_length <= max_piece_length(),
    ensures
        r@ == block_locations(index, piece_length),
{
    let mut out: Vec<Location> = Vec::new();
    let mut begin: u32 = 0;
    while begin < piece_length
        invariant
            piece_length <= max_piece_length(),
            begin == 16384 * out@.len(),
            begin == 0 || begin - 16384 < piece_length,
            forall|k: int| 0 <= k < out@.len() ==> out@[k] == (Location { index, begin: (k * 16384) as u32 }),
        decreases piece_length + 16384 - begin,
    {
        out.push(Location { index, begin });
        begin = begin + 16 * 1024;
    }
    proof {
        assert(out@.len() == (piece_length + 16383) / 16384);
        assert(out@ =~= block_locations(index, piece_length));
    }
    out
}

/// The state a peer starts in: choked and choking, not interested, having
/// sent and received nothing, knowing nothing of the other side's pieces,
/// with `left` the clear bits that `count0` counts and `downloaded` the rest
/// of `length`.
pub open spec fn initial_state(length: usize, piece_length: usize, bitfield: Seq<u8>) -> StateView {
    let left = count0_spec(length as int, bitfield);
    StateView {
        seeding: false,
        interested: false,
        choked: true,
        choking: true,
        bitfield,
        has: Seq::new(bitfield.len(), |i: int| 0u8),
        sent_anything: false,
        received_anything: false,
        length,
        piece_length,
        uploaded: 0,
        downloaded: (length - left) as usize,
        left: left as usize,
        blocks: None,
    }
}

/// A vector of `n` zero bytes.
pub(crate) fn zeros(n: usize) -> (r: Vec<u8>)
    ensures
        r@ == Seq::new(n as nat, |i: int| 0u8),
{
    let mut out: Vec<u8> = Vec::new();
    let mut i: usize = 0;
    while i < n
        invariant
            i <= n,
            out@ == Seq::new(i as nat, |j: int| 0u8),
        decreases n - i,
    {
        out.push(0);
        i = i + 1;
        proof {
            assert(out@ =~= Seq::new(i as nat, |j: int| 0u8));
        }
    }
    out
}

/// What a peer's state becomes when it has read `m` (if anything): a choke
/// or unchoke sets whether it is choked, a have sets that bit of what the
/// other side has, and a bitfield replaces it.
pub open spec fn after_message(s: StateView, m: Option<MessageView>) -> StateView {
    match m {
        Some(MessageView::Choke) => StateView { choked: true, ..s },
        Some(MessageView::Unchoke) => StateView { choked: false, ..s },
        Some(MessageView::Have(i)) => StateView {
            has: s.has.update(i as int / 8, s.has[i as int / 8] | (1u8 << ((i % 8) as u8))),
            ..s
        },
        Some(MessageView::Bitfield(x)) => StateView { has: x, ..s },
        _ => s,
    }
}

/// One step of a peer: it takes in what it read, `m`, and decides what to
/// send, if anything. First it sends its own bitfield. After that, whenever
/// the other side has some piece, it works on the blocks of the first such
/// piece, starting at its first block when it was not working on that piece
/// already; then, with blocks left, it says it is interested if it has not
/// yet, and once unchoked it requests the next block, 16 KiB long.
pub open spec fn step(s: StateView, m: Option<MessageView>) -> (StateView, Option<MessageView>) {
    let s1 = after_message(s, m);
    if !s1.sent_anything {
        (StateView { sent_anything: true, ..s1 }, Some(MessageView::Bitfield(s1.bitfield)))
    } else {
        respond(s1)
    }
}

/// Whether `blocks` are the blocks of piece `index`: the block list is not
/// empty and its first block lies in that piece.
pub open spec fn on_piece(blocks: Option<(usize, Seq<Location>)>, index: u32) -> bool {
    match blocks {
        Some((_, locations)) => locations.len() > 0 && locations[0].index == index,
        None => false,
    }
}

/// What a peer that has sent its bitfield decides in the state `s1`: see
/// [`step`].
pub open spec fn respond(s1: StateView) -> (StateView, Option<MessageView>) {
    let s2 = match first_bit(s1.has, true) {
        Some(k) => if on_piece(s1.blocks, (k % 4294967296) as u32) {
            s1
        } else {
            StateView {
                blocks: Some(
                    (
                        0usize,
                        block_locations(
                            (k % 4294967296) as u32,
                            (s1.piece_length as int % 4294967296) as u32,
                        ),
                    ),
                ),
                ..s1
            }
        },
        None => s1,
    };
    match s2.blocks {
        None => (s2, None),
        Some((i, locations)) => if i >= locations.len() {
            (s2, None)
        } else if !s2.interested {
            (StateView { interested: true, ..s2 }, Some(MessageView::Interested))
        } else if s2.choked {
            (s2, None)
        } else {
            (
                StateView { blocks: Some(((i + 1) as usize, locations)), ..s2 },
                Some(
                    MessageView::Request(
                        Request { location: locations[i as int], length: 16384 },
                    ),
                ),
            )
        },
    }
}

/// The inputs on which a step runs to its end: a have names a byte of what
/// the other side has, and once the first bitfield is sent, what it has fits
/// in a count of bits, and if it has some piece, that piece's blocks have
/// offsets that fit in 32 bits.
pub open spec fn can_step(s: StateView, m: Option<MessageView>) -> bool {
    let s1 = after_message(s, m);
    &&& (m matches Some(MessageView::Have(i)) ==> (i as int) / 8 < s.has.len())
    &&& s1.sent_anything ==> s1.has.len() <= usize::MAX / 8
    &&& (s1.sent_anything && first_bit(s1.has, true) is Some) ==> (s1.piece_length as int % 4294967296)
        <= max_piece_length()
}

/// What an optional message says.
pub open spec fn message_view(m: Option<Message>) -> Option<MessageView> {
    match m {
        Some(x) => Some(x@),
        None => None,
    }
}

impl State {
    /// A new connection's state, for a torrent of `length` bytes in pieces of
    /// `piece_length` bytes of which `bitfield` tells which are done.
    pub fn new(length: usize, piece_length: usize, bitfield: Vec<u8>) -> (r: State)
        requires
            bitfield@.len() > 0,
            bitfield@.len() <= usize::MAX / 8,
            count0_spec(length as int, bitfield@) <= length,
        ensures
            r@ == initial_state(length, piece_length, bitfield@),
    {
        let left = count0(length, &bitfield);
        let n = bitfield.len();
        State {
            seeding: false,
            interested: false,
            choked: true,
            choking: true,
            bitfield,
            has: zeros(n),
            sent_anything: false,
            received_anything: false,
            length,
            piece_length,
            uploaded: 0,
            downloaded: length - left,
            left,
            blocks: None,
        }
    }

    /// Takes in the message just read, if any, and gives the message to send,
    /// if any.
    pub fn communicate(&mut self, message: Option<Message>) -> (r: Option<Message>)
        requires
            can_step(old(self)@, message_view(message)),
        ensures
            (final(self)@, message_view(r)) == step(old(self)@, message_view(message)),
    {
        self.take_in(message);
        if !self.sent_anything {
            self.sent_anything = true;
            return Some(Message::Bitfield(copy_bytes(&self.bitfield)));
        }
        self.respond()
    }

    /// Whether a step can take in `message`: see [`can_step`].
    pub fn can_communicate(&self, message: &Option<Message>) -> (r: bool)
        ensures
            r == can_step(self@, message_view(*message)),
    {
        let mut has = copy_bytes(&self.has);
        match message {
            Some(Message::Have(index)) => {
                if *index as usize / 8 >= has.len() {
                    return false;
                }
                set(&mut has, *index as usize);
            },
            Some(Message::Bitfield(x)) => {
                has = copy_bytes(x);
            },
            _ => {},
        }
        proof {
            assert(has@ == after_message(self@, message_view(*message)).has);
        }
        if !self.sent_anything {
            return true;
        }
        if has.len() > usize::MAX / 8 {
            return false;
        }
        match find1(&has) {
            Some(_) => super::message::truncate_u32(self.piece_length) as u64 <= 4294950912,
            None => true,
        }
    }

    /// Notes what the message read says of the other side.
    fn take_in(&mut self, message: Option<Message>)
        requires
            message_view(message) matches Some(MessageView::Have(i)) ==> (i as int) / 8 < old(
                self,
            )@.has.len(),
        ensures
            final(self)@ == after_message(old(self)@, message_view(message)),
    {
        if let Some(message) = message {
            match message {
                Message::Choke => self.choked = true,
                Message::Unchoke => self.choked = false,
                Message::Have(index) => set(&mut self.has, index as usize),
                Message::Bitfield(x) => self.has = x,
                _ => {},
            }
        }
    }

    /// Decides what to send once the bitfield has been sent.
    fn respond(&mut self) -> (r: Option<Message>)
        requires
            old(self)@.has.len() <= usize::MAX / 8,
            first_bit(old(self)@.has, true) is Some ==> (old(self)@.piece_length as int
                % 4294967296) <= max_piece_length(),
        ensures
            (final(self)@, message_view(r)) == respond(old(self)@),
    {
        if let Some(index) = find1(&self.has) {
            let index = super::message::truncate_u32(index);
            let current = match &self.blocks {
                Some((_, locations)) => locations.len() > 0 && locations[0].index == index,
                None => false,
            };
            if !current {
                let piece_length = super::message::truncate_u32(self.piece_length);
                self.blocks = Some((0, locations(index, piece_length)));
            }
        }
        match self.blocks.take() {
            Some((block_index, locations)) => {
                if block_index >= locations.len() {
                    self.blocks = Some((block_index, locations));
                    return None;
                }
                if !self.interested {
                    self.interested = true;
                    self.blocks = Some((block_index, locations));
                    return Some(Message::Interested);
                }
                if self.choked {
                    self.blocks = Some((block_index, locations));
                    return None;
                }
                let location = locations[block_index];
                self.blocks = Some((block_index + 1, locations));
                Some(Message::Request(Request { location, length: 16 * 1024 }))
            },
            None => None,
        }
    }
}

/// The first thing a peer sends, whatever it has read, is its own
/// bitfield.
pub proof fn law_first_message_is_bitfield(s: StateView, m: Option<MessageView>)
    requires
        !s.sent_anything,
    ensures
        step(s, m).1 == Some(MessageView::Bitfield(s.bitfield)),
        step(s, m).0.sent_anything,
{
}

/// Having sent something, having said it is interested: a step never takes
/// either back.
pub proof fn law_flags_stay_set(s: StateView, m: Option<MessageView>)
    ensures
        s.sent_anything ==> step(s, m).0.sent_anything,
        s.interested ==> step(s, m).0.interested,
{
}

/// A step never changes the peer's own bitfield, the torrent's sizes, the
/// transfer counts, nor whether it seeds, chokes or has received anything.
pub proof fn law_own_facts_unchanged(s: StateView, m: Option<MessageView>)
    ensures
        ({
            let t = step(s, m).0;
            &&& t.bitfield == s.bitfield
            &&& t.length == s.length
            &&& t.piece_length == s.piece_length
            &&& t.uploaded == s.uploaded
            &&& t.downloaded == s.downloaded
            &&& t.left == s.left
            &&& t.seeding == s.seeding
            &&& t.choking == s.choking
            &&& t.received_anything == s.received_anything
        }),
{
}

/// A peer requests a block only when it has said it is interested and is
/// not choked, and what it requests is 16 KiB at the block it had reached,
/// after which it has moved on by one block.
pub proof fn law_requests_when_unchoked(s: StateView, m: Option<MessageView>)
    requires
        s.blocks matches Some((_, locations)) ==> locations.len() <= usize::MAX,
    ensures
        step(s, m).1 matches Some(MessageView::Request(r)) ==> {
            let t = step(s, m).0;
            &&& t.interested
            &&& !t.choked
            &&& s.interested
            &&& r.length == 16384
            &&& t.blocks matches Some((i, locations)) && 0 < i <= locations.len() && r.location
                == locations[i - 1]
        },
{
}

/// The block a peer has reached is never past the end of its blocks.
pub proof fn law_block_index_in_range(s: StateView, m: Option<MessageView>)
    requires
        s.blocks matches Some((i, locations)) ==> i <= locations.len(),
    ensures
        step(s, m).0.blocks matches Some((i, locations)) ==> i <= locations.len(),
{
}

/// What a peer sends over `n` steps in which it reads nothing.
pub open spec fn idle_replies(s: StateView, n: nat) -> Seq<Option<MessageView>>
    decreases n,
{
    if n == 0 {
        seq![]
    } else {
        seq![step(s, None).1] + idle_replies(step(s, None).0, (n - 1) as nat)
    }
}

/// A peer that has sent its bitfield, has said it is interested, is not
/// choked and works on the blocks of the first piece the other side has,
/// requests those blocks one after the other: over its next steps, as long
/// as it reads nothing, it requests 16 KiB at each block from the one it has
/// reached, in order, up to the last block of the piece.
pub proof fn law_requests_walk_piece(s: StateView, i: usize, locations: Seq<Location>, n: nat)
    requires
        s.sent_anything,
        s.interested,
        !s.choked,
        first_bit(s.has, true) matches Some(k) && on_piece(s.blocks, (k % 4294967296) as u32),
        s.blocks == Some((i, locations)),
        i + n <= locations.len() <= usize::MAX,
    ensures
        idle_replies(s, n).len() == n,
        forall|j: int|
            0 <= j < n ==> idle_replies(s, n)[j] == Some(
                MessageView::Request(Request { location: locations[i + j], length: 16384 }),
            ),
    decreases n,
{
    if n > 0 {
        let t = step(s, None).0;
        assert(t == StateView { blocks: Some(((i + 1) as usize, locations)), ..s });
        law_requests_walk_piece(t, (i + 1) as usize, locations, (n - 1) as nat);
        let rest = idle_replies(t, (n - 1) as nat);
        assert forall|j: int| 0 <= j < n implies idle_replies(s, n)[j] == Some(
            MessageView::Request(Request { location: locations[i + j], length: 16384 }),
        ) by {
            if j > 0 {
                assert(idle_replies(s, n)[j] == rest[j - 1]);
            }
        }
    }
}

/// When the first piece the other side has is not the one a peer works on,
/// the peer takes up that piece's blocks from the first: afterwards it works
/// on them, and if it requests anything, it is the first block.
pub proof fn law_new_piece_starts_at_first_block(s: StateView, m: Option<MessageView>)
    requires
        after_message(s, m).sent_anything,
        first_bit(after_message(s, m).has, true) matches Some(k) && !on_piece(
            after_message(s, m).blocks,
            (k % 4294967296) as u32,
        ),
    ensures
        ({
            let s1 = after_message(s, m);
            let k = first_bit(s1.has, true)->Some_0;
            let blocks = block_locations(
                (k % 4294967296) as u32,
                (s1.piece_length as int % 4294967296) as u32,
            );
            &&& step(s, m).0.blocks matches Some((i, l)) && l == blocks && i <= 1
            &&& step(s, m).1 matches Some(MessageView::Request(r)) ==> r.location == blocks[0]
        }),
{
}

/// What a peer sends in a step: its own bitfield exactly when it has sent
/// nothing yet; that it is interested only after the bitfield and only once;
/// a request only after the bitfield, once interested and when not choked;
/// and never any other message.
pub proof fn law_reply_kinds(s: StateView, m: Option<MessageView>)
    ensures
        (step(s, m).1 matches Some(MessageView::Bitfield(b))) <==> !s.sent_anything,
        step(s, m).1 matches Some(MessageView::Bitfield(b)) ==> b == s.bitfield,
        step(s, m).1 matches Some(MessageView::Interested) ==> s.sent_anything && !s.interested,
        step(s, m).1 matches Some(MessageView::Request(_)) ==> s.sent_anything && s.interested
            && !step(s, m).0.choked && step(s, m).0.blocks is Some,
        step(s, m).1 matches Some(r) ==> (r is Bitfield || r is Interested || r is Request),
        step(s, m).0.sent_anything,
{
}

/// Setting bit `k` of a byte sets that bit and leaves the others as they
/// were.
proof fn lemma_or_bit(x: u8, k: u8, b: u8)
    requires
        k < 8,
        b < 8,
    ensures
        (x | (1u8 << k)) & (1u8 << k) != 0,
        b != k ==> (x | (1u8 << k)) & (1u8 << b) == x & (1u8 << b),
{
    assert((x | (1u8 << k)) & (1u8 << k) != 0) by (bit_vector)
        requires
            k < 8,
    ;
    assert(b != k ==> (x | (1u8 << k)) & (1u8 << b) == x & (1u8 << b)) by (bit_vector)
        requires
            k < 8,
            b < 8,
    ;
}

/// A have of piece `i` marks exactly that piece as one the other side has:
/// bit `i % 8` of byte `i / 8` is set afterwards, every other bit of that
/// byte and every other byte are as they were, and the length is kept.
pub proof fn law_have_marks_one_piece(s: StateView, i: u32)
    requires
        (i as int) / 8 < s.has.len(),
    ensures
        ({
            let t = step(s, Some(MessageView::Have(i))).0;
            let k = (i as int) / 8;
            &&& t.has.len() == s.has.len()
            &&& t.has[k] & (1u8 << ((i % 8) as u8)) != 0
            &&& forall|b: u8|
                b < 8 && b != (i % 8) as u8 ==> #[trigger] (t.has[k] & (1u8 << b)) == s.has[k] & (
                1u8 << b)
            &&& forall|j: int| 0 <= j < s.has.len() && j != k ==> #[trigger] t.has[j] == s.has[j]
        }),
{
    let k = (i as int) / 8;
    let t = step(s, Some(MessageView::Have(i))).0;
    assert(t.has == after_message(s, Some(MessageView::Have(i))).has);
    lemma_or_bit(s.has[k], (i % 8) as u8, 0);
    assert forall|b: u8| b < 8 && b != (i % 8) as u8 implies #[trigger] (t.has[k] & (1u8 << b))
        == s.has[k] & (1u8 << b) by {
        lemma_or_bit(s.has[k], (i % 8) as u8, b);
    }
}

/// A have sets the bit of exactly the piece it names: afterwards that piece
/// is one the other side has, and every other piece is as it was.
pub proof fn law_have_sets_its_bit(s: StateView, i: u32)
    requires
        (i as int) / 8 < s.has.len(),
    ensures
        ({
            let t = step(s, Some(MessageView::Have(i))).0;
            &&& bit_set(t.has, i as int)
            &&& forall|j: int| 0 <= j < 8 * s.has.len() && j != i ==> #[trigger] bit_set(t.has, j)
                == bit_set(s.has, j)
        }),
{
    law_have_marks_one_piece(s, i);
    let t = step(s, Some(MessageView::Have(i))).0;
    assert forall|j: int| 0 <= j < 8 * s.has.len() && j != i implies #[trigger] bit_set(t.has, j)
        == bit_set(s.has, j) by {
        if j / 8 == (i as int) / 8 {
            assert((j % 8) as u8 != (i % 8) as u8);
            assert(t.has[j / 8] & (1u8 << ((j % 8) as u8)) == s.has[j / 8] & (1u8 << ((j % 8) as u8)));
        }
    }
}

/// Choke and unchoke set whether the peer is choked, a bitfield replaces
/// what the other side has; every other message read decides the same as
/// reading nothing.
pub proof fn law_messages_taken_in(s: StateView, m: MessageView)
    ensures
        step(s, Some(MessageView::Choke)).0.choked,
        !step(s, Some(MessageView::Unchoke)).0.choked,
        m matches MessageView::Bitfield(x) ==> step(s, Some(m)).0.has == x,
        (m is Interested || m is NotInterested || m is Request || m is Piece || m is Cancel) ==> step(
            s,
            Some(m),
        ) == step(s, None),
{
}

/// A new peer knows nothing yet of what the other side has, and has room
/// for a bit per bit of its own bitfield: as many zero bytes as its own
/// bitfield has bytes.
pub proof fn law_new_state_knows_nothing(length: usize, piece_length: usize, bitfield: Seq<u8>)
    ensures
        initial_state(length, piece_length, bitfield).has.len() == bitfield.len(),
        forall|j: int|
            0 <= j < bitfield.len() ==> #[trigger] initial_state(length, piece_length, bitfield).has[j]
                == 0,
        initial_state(length, piece_length, bitfield).bitfield == bitfield,
{
}

} // verus!
