//! How packets travel on a voice stream: each behind its length, two bytes with the
//! more significant first.
use vstd::prelude::*;

verus! {

/// The two bytes in front of a packet of `len` bytes: the low 16 bits of its length.
pub open spec fn header_of(len: nat) -> Seq<u8> {
    seq![(len % 65536 / 256) as u8, (len % 256) as u8]
}

/// The length that a header announces.
pub open spec fn length_in(header: Seq<u8>) -> int {
    header[0] * 256 + header[1]
}

/// A packet as it travels.
pub open spec fn framed(packet: Seq<u8>) -> Seq<u8> {
    header_of(packet.len()) + packet
}

/// Packets as they travel, one behind another.
pub open spec fn wire(packets: Seq<Seq<u8>>) -> Seq<u8>
    decreases packets.len(),
{
    if packets.len() == 0 {
        Seq::empty()
    } else {
        wire(packets.drop_last()) + framed(packets.last())
    }
}

/// A whole packet stands at the front of `bytes`.
pub open spec fn has_packet(bytes: Seq<u8>) -> bool {
    bytes.len() >= 2 && bytes.len() >= 2 + length_in(bytes)
}

/// The packets that `bytes` holds whole, from the front.
pub open spec fn packets_in(bytes: Seq<u8>) -> Seq<Seq<u8>>
    decreases bytes.len(),
{
    if has_packet(bytes) {
        let n = length_in(bytes);
        seq![bytes.subrange(2, 2 + n)] + packets_in(bytes.skip(2 + n))
    } else {
        Seq::empty()
    }
}

/// What stands in `bytes` behind its whole packets.
pub open spec fn unfinished_in(bytes: Seq<u8>) -> Seq<u8>
    decreases bytes.len(),
{
    if has_packet(bytes) {
        unfinished_in(bytes.skip(2 + length_in(bytes)))
    } else {
        bytes
    }
}

/// Each packet is short enough for its length to fit in the header.
pub open spec fn all_short(packets: Seq<Seq<u8>>) -> bool {
    forall|i: int| 0 <= i < packets.len() ==> (#[trigger] packets[i]).len() < 65536
}

/// The header of a packet of `len` bytes.
pub fn packet_header(len: usize) -> (r: [u8; 2])
    ensures
        r@ == header_of(len as nat),
{
    let low: usize = len % 65536;
    let r: [u8; 2] = [(low / 256) as u8, (len % 256) as u8];
    assert(r@ =~= header_of(len as nat));
    r
}

/// The length that `header` announces.
pub fn packet_length(header: [u8; 2]) -> (r: usize)
    ensures
        r == length_in(header@),
{
    header[0] as usize * 256 + header[1] as usize
}

/// A header gives back the length it was made for, up to the 16 bits it holds.
pub proof fn header_reads_back(len: nat)
    ensures
        length_in(header_of(len)) == len % 65536,
        len < 65536 ==> length_in(header_of(len)) == len,
{
    assert(len % 65536 / 256 * 256 + len % 256 == len % 65536);
}

proof fn lemma_framed_reads_back(packet: Seq<u8>, tail: Seq<u8>)
    requires
        packet.len() < 65536,
    ensures
        packets_in(framed(packet) + tail) == seq![packet] + packets_in(tail),
        unfinished_in(framed(packet) + tail) == unfinished_in(tail),
{
    let bytes = framed(packet) + tail;
    header_reads_back(packet.len());
    assert(length_in(bytes) == packet.len());
    assert(bytes.subrange(2, 2 + packet.len() as int) =~= packet);
    assert(bytes.skip(2 + packet.len() as int) =~= tail);
}

/// Reading gives back what was written: the packets on the wire, in their order, and
/// behind them the packets of whatever follows.
pub proof fn packets_read_back(packets: Seq<Seq<u8>>, tail: Seq<u8>)
    requires
        all_short(packets),
    ensures
        packets_in(wire(packets) + tail) == packets + packets_in(tail),
        unfinished_in(wire(packets) + tail) == unfinished_in(tail),
    decreases packets.len(),
{
    if packets.len() == 0 {
        assert(wire(packets) + tail =~= tail);
        assert(packets + packets_in(tail) =~= packets_in(tail));
    } else {
        let last = packets.last();
        packets_read_back(packets.drop_last(), framed(last) + tail);
        lemma_framed_reads_back(last, tail);
        assert(wire(packets) + tail =~= wire(packets.drop_last()) + (framed(last) + tail));
        assert(packets + packets_in(tail) =~= packets.drop_last() + (seq![last] + packets_in(
            tail,
        )));
    }
}

/// A stream that is written whole is read whole: nothing is left unfinished.
pub proof fn whole_stream_reads_back(packets: Seq<Seq<u8>>)
    requires
        all_short(packets),
    ensures
        packets_in(wire(packets)) == packets,
        unfinished_in(wire(packets)).len() == 0,
{
    packets_read_back(packets, Seq::empty());
    assert(wire(packets) + Seq::<u8>::empty() =~= wire(packets));
    assert(packets + packets_in(Seq::empty()) =~= packets);
}

/// A stream that breaks off, wherever, loses no packet that had arrived whole and
/// brings none that was not sent.
pub proof fn cut_stream_keeps_packets(bytes: Seq<u8>, k: int)
    requires
        0 <= k <= bytes.len(),
    ensures
        packets_in(bytes.take(k)).is_prefix_of(packets_in(bytes)),
    decreases bytes.len(),
{
    let cut = bytes.take(k);
    if has_packet(cut) {
        let n = length_in(bytes);
        assert(length_in(cut) == n);
        assert(has_packet(bytes));
        cut_stream_keeps_packets(bytes.skip(2 + n), k - 2 - n);
        assert(cut.skip(2 + n) =~= bytes.skip(2 + n).take(k - 2 - n));
        assert(cut.subrange(2, 2 + n) =~= bytes.subrange(2, 2 + n));
    }
}

/// A header holds the length in two bytes, the more significant first, and the length is
/// read from it in that way.
pub proof fn header_is_big_endian(len: nat, header: Seq<u8>)
    requires
        header.len() == 2,
    ensures
        header_of(len).len() == 2,
        header_of(len)[0] * 256 + header_of(len)[1] == len % 65536,
        length_in(header) == header[0] * 256 + header[1],
{
    header_reads_back(len);
}

/// Packets travel one behind another: a packet stands on the wire as the two bytes of its
/// length and then its own bytes, and what is sent in two parts stands there as sent in one.
pub proof fn packets_follow_on_wire(a: Seq<Seq<u8>>, b: Seq<Seq<u8>>, packet: Seq<u8>)
    ensures
        wire(a + b) == wire(a) + wire(b),
        wire(seq![packet]).len() == 2 + packet.len(),
        wire(seq![packet])[0] * 256 + wire(seq![packet])[1] == packet.len() % 65536,
        wire(seq![packet]).skip(2) == packet,
    decreases b.len(),
{
    let one = seq![packet];
    assert(one.drop_last() =~= Seq::<Seq<u8>>::empty());
    reveal_with_fuel(wire, 2);
    assert(wire(one) =~= framed(packet));
    header_is_big_endian(packet.len(), header_of(packet.len()));
    assert(wire(one).skip(2) =~= packet);
    if b.len() == 0 {
        assert(a + b =~= a);
        assert(wire(a) + wire(b) =~= wire(a));
    } else {
        packets_follow_on_wire(a, b.drop_last(), packet);
        assert((a + b).drop_last() =~= a + b.drop_last());
        assert(wire(a) + wire(b) =~= (wire(a) + wire(b.drop_last())) + framed(b.last()));
    }
}

/// Reading leaves nothing out and makes nothing up: the packets that stand in any bytes,
/// put on the wire again, and then what is unfinished, are those bytes; and what is
/// unfinished is shorter than a header and what that header announces.
pub proof fn read_packets_write_back(bytes: Seq<u8>)
    ensures
        wire(packets_in(bytes)) + unfinished_in(bytes) == bytes,
        unfinished_in(bytes).len() < 2 || unfinished_in(bytes).len() < 2 + unfinished_in(bytes)[0]
            * 256 + unfinished_in(bytes)[1],
        all_short(packets_in(bytes)),
    decreases bytes.len(),
{
    if has_packet(bytes) {
        let n = length_in(bytes);
        let packet = bytes.subrange(2, 2 + n);
        let rest = bytes.skip(2 + n);
        read_packets_write_back(rest);
        packets_follow_on_wire(seq![packet], packets_in(rest), packet);
        assert(n < 65536);
        header_reads_back(n as nat);
        assert(header_of(n as nat) =~= bytes.take(2)) by {
            assert(n as nat % 65536 / 256 == bytes[0]);
            assert(n as nat % 256 == bytes[1]);
        }
        assert(wire(seq![packet]) =~= framed(packet)) by {
            reveal_with_fuel(wire, 2);
            assert(seq![packet].drop_last() =~= Seq::<Seq<u8>>::empty());
        }
        assert(framed(packet) + rest =~= bytes);
        assert(wire(packets_in(bytes)) + unfinished_in(bytes) =~= framed(packet) + (wire(
            packets_in(rest),
        ) + unfinished_in(rest)));
        let all = packets_in(bytes);
        assert forall|i: int| 0 <= i < all.len() implies (#[trigger] all[i]).len() < 65536 by {
            if i > 0 {
                assert(all[i] == packets_in(rest)[i - 1]);
            }
        }
    } else {
        assert(wire(packets_in(bytes)) + unfinished_in(bytes) =~= bytes);
    }
}

} // verus!
