//! Reed–Solomon block encoding of data packets, the per-group stash that
//! collects a block before it is encoded, and the decoder's readiness test.
use vstd::prelude::*;
use crate::packet::{Packet, PacketView, PacketId, PacketMeta, packets_view, copy_packets, copy_bytes};
use crate::proto::ChunkDescriptor;
use crate::protocol::{assemble_wire_frame, spec_wire_frame};
use crate::descriptor::{encode_chunk_descriptor, spec_descriptor_bytes};
use crate::digest::{blake3_digest, blake3_hash};
use crate::erasure::{rs_accepts_shape, rs_encode, rs_parity_rows, rs_shape_ok, rows_view, rows_uniform};
use crate::sat::{sat_u64, sat_mul_u64};
use crate::stash::seqs_unique;

verus! {

/// Position at which a packet with sequence number `seq` enters `sorted` so
/// that it follows every element whose sequence number is not larger.
pub open spec fn seq_insert_pos(sorted: Seq<PacketView>, seq: u64) -> nat
    decreases sorted.len(),
{
    if sorted.len() == 0 {
        0
    } else if sorted.last().seq <= seq {
        sorted.len()
    } else {
        seq_insert_pos(sorted.drop_last(), seq)
    }
}

/// Stable sort by sequence number (insertion from the left).
pub open spec fn sort_by_seq(s: Seq<PacketView>) -> Seq<PacketView>
    decreases s.len(),
{
    if s.len() == 0 {
        Seq::empty()
    } else {
        let rest = sort_by_seq(s.drop_last());
        rest.insert(seq_insert_pos(rest, s.last().seq) as int, s.last())
    }
}

proof fn lemma_insert_pos_bound(sorted: Seq<PacketView>, seq: u64)
    ensures
        seq_insert_pos(sorted, seq) <= sorted.len(),
    decreases sorted.len(),
{
    if sorted.len() > 0 {
        lemma_insert_pos_bound(sorted.drop_last(), seq);
    }
}

proof fn lemma_insert_pos_prefix(sorted: Seq<PacketView>, seq: u64, j: int)
    requires
        0 <= j <= sorted.len(),
        forall|k: int| j <= k < sorted.len() ==> #[trigger] sorted[k].seq > seq,
    ensures
        seq_insert_pos(sorted, seq) == seq_insert_pos(sorted.subrange(0, j), seq),
    decreases sorted.len() - j,
{
    if j < sorted.len() {
        assert(sorted.drop_last() =~= sorted.subrange(0, sorted.len() - 1));
        lemma_insert_pos_prefix(sorted.drop_last(), seq, j);
        assert(sorted.drop_last().subrange(0, j) =~= sorted.subrange(0, j));
    } else {
        assert(sorted.subrange(0, j) =~= sorted);
    }
}

/// Sorts packets by sequence number, keeping the order of equal ones.
pub fn sort_packets_by_seq(v: Vec<Packet>) -> (r: Vec<Packet>)
    ensures
        packets_view(r@) == sort_by_seq(packets_view(v@)),
{
    let mut r: Vec<Packet> = Vec::new();
    let mut v = v;
    let ghost orig = packets_view(v@);
    let mut rest: Vec<Packet> = Vec::new();
    // move the input into `rest` in reverse so that `pop` yields it in order
    while v.len() > 0
        invariant
            packets_view(v@) + packets_view(rest@).reverse() == orig,
        decreases v@.len(),
    {
        let p = v.pop().unwrap();
        let ghost vr = packets_view(rest@);
        rest.push(p);
        proof {
            assert(packets_view(rest@) =~= vr.push(p@));
            assert(packets_view(v@) + packets_view(rest@).reverse() =~= orig);
        }
    }
    let mut i: usize = 0;
    let n = rest.len();
    proof {
        assert(packets_view(rest@).reverse() =~= orig);
    }
    while rest.len() > 0
        invariant
            i + rest@.len() == n,
            n == orig.len(),
            packets_view(rest@).reverse() == orig.subrange(i as int, n as int),
            packets_view(r@) == sort_by_seq(orig.subrange(0, i as int)),
        decreases rest@.len(),
    {
        let ghost rv = packets_view(rest@);
        let p = rest.pop().unwrap();
        proof {
            assert(rv.reverse()[0] == rv.last());
            assert(p@ == orig[i as int]);
            assert(packets_view(rest@) =~= rv.drop_last());
            assert(rv.drop_last().reverse() =~= rv.reverse().subrange(1, rv.len() as int));
            assert(orig.subrange(i + 1, n as int) =~= orig.subrange(i as int, n as int).subrange(1, (n - i) as int));
            assert(packets_view(rest@).reverse() =~= orig.subrange(i + 1, n as int));
        }
        let mut j: usize = r.len();
        while j > 0 && r[j - 1].seq > p.seq
            invariant
                j <= r@.len(),
                forall|k: int| j <= k < r@.len() ==> #[trigger] packets_view(r@)[k].seq > p.seq,
            decreases j,
        {
            j = j - 1;
        }
        proof {
            lemma_insert_pos_prefix(packets_view(r@), p.seq, j as int);
            if j > 0 {
                assert(packets_view(r@).subrange(0, j as int).last() == packets_view(r@)[j - 1]);
            } else {
                assert(packets_view(r@).subrange(0, 0) =~= Seq::<PacketView>::empty());
            }
            assert(seq_insert_pos(packets_view(r@).subrange(0, j as int), p.seq) == j);
            let s = orig.subrange(0, i + 1);
            assert(s.drop_last() =~= orig.subrange(0, i as int));
            assert(s.last() == p@);
        }
        let ghost before = packets_view(r@);
        r.insert(j, p);
        proof {
            assert(packets_view(r@) =~= before.insert(j as int, p@));
        }
        i = i + 1;
    }
    proof {
        assert(orig.subrange(0, n as int) =~= orig);
    }
    r
}


/// The descriptor that heads a FEC wire shard: the shard's BLAKE3 checksum,
/// its length as both sizes, never compressed.
pub open spec fn shard_descriptor(index: u64, offset: u64, raw: Seq<u8>, is_parity: bool, parity_index: usize, fec_group: u64, checksum: [u8; 32]) -> ChunkDescriptor {
    ChunkDescriptor {
        index,
        offset,
        compressed_size: raw.len() as u32,
        uncompressed_size: raw.len() as u32,
        checksum,
        was_compressed: false,
        is_parity,
        parity_index,
        fec_group,
    }
}

/// A chunk frame carrying `raw` under its shard descriptor.
pub open spec fn is_shard_frame(frame: Seq<u8>, index: u64, offset: u64, raw: Seq<u8>, is_parity: bool, parity_index: usize, fec_group: u64) -> bool {
    exists|c: [u8; 32]| c@ == blake3_digest(raw)
        && frame == spec_wire_frame(spec_descriptor_bytes(shard_descriptor(index, offset, raw, is_parity, parity_index, fec_group, c)), raw)
}

/// Frames a raw FEC shard like a data chunk: its descriptor (with the shard's
/// BLAKE3 checksum, never compressed), then the bytes.
pub fn frame_fec_wire_shard(
    index: u64,
    offset: u64,
    raw_shard: &[u8],
    is_parity: bool,
    parity_index: usize,
    fec_group: u64,
) -> (r: Vec<u8>)
    ensures
        is_shard_frame(r@, index, offset, raw_shard@, is_parity, parity_index, fec_group),
{
    let checksum = blake3_hash(raw_shard);
    let desc = ChunkDescriptor {
        index,
        offset,
        compressed_size: raw_shard.len() as u32,
        uncompressed_size: raw_shard.len() as u32,
        checksum,
        was_compressed: false,
        is_parity,
        parity_index,
        fec_group,
    };
    let db = encode_chunk_descriptor(&desc);
    let out = assemble_wire_frame(db.as_slice(), raw_shard);
    proof {
        assert(desc == shard_descriptor(index, offset, raw_shard@, is_parity, parity_index, fec_group, checksum));
    }
    out
}

/// Longest payload of a sequence of packets (0 when empty).
pub open spec fn spec_max_payload_len(s: Seq<PacketView>) -> nat
    decreases s.len(),
{
    if s.len() == 0 {
        0
    } else {
        let m = spec_max_payload_len(s.drop_last());
        if s.last().payload.len() > m { s.last().payload.len() } else { m }
    }
}

/// Highest priority of a sequence of packets (0 when empty).
pub open spec fn spec_max_priority(s: Seq<PacketView>) -> u8
    decreases s.len(),
{
    if s.len() == 0 {
        0
    } else {
        let m = spec_max_priority(s.drop_last());
        if s.last().meta.priority > m { s.last().meta.priority } else { m }
    }
}

/// Earliest deadline of a sequence of packets, if any carries one.
pub open spec fn spec_min_deadline(s: Seq<PacketView>) -> Option<u64>
    decreases s.len(),
{
    if s.len() == 0 {
        None
    } else {
        let m = spec_min_deadline(s.drop_last());
        match (s.last().meta.deadline, m) {
            (None, m) => m,
            (Some(d), None) => Some(d),
            (Some(d), Some(e)) => if d < e { Some(d) } else { Some(e) },
        }
    }
}

pub open spec fn zeros(n: nat) -> Seq<u8> {
    Seq::new(n, |i: int| 0u8)
}

/// `v` extended with zero bytes to length `len` (`len >= v.len()`).
pub open spec fn pad_to(v: Seq<u8>, len: nat) -> Seq<u8> {
    v + zeros((len - v.len()) as nat)
}

/// The payloads of `block`, each zero-padded to `len`.
pub open spec fn padded_rows(block: Seq<PacketView>, len: nat) -> Seq<Seq<u8>> {
    Seq::new(block.len(), |i: int| pad_to(block[i].payload, len))
}

/// Effective data-shard count: `data_shards`, or 1 when it is 0.
pub open spec fn spec_width(data_shards: usize) -> nat {
    if data_shards == 0 { 1 } else { data_shards as nat }
}

/// The wire index of the `i`-th parity shard of group `g` in a block with `p` parity shards.
pub open spec fn parity_wire_index(g: u64, p: nat, i: nat) -> u64 {
    sat_u64(sat_u64(u64::MAX - sat_u64(g * (p + 16))) - i)
}

/// The `i`-th parity packet of an encoded block.
pub open spec fn is_parity_packet(pv: PacketView, block: Seq<PacketView>, p: nat, i: nat, row: Seq<u8>) -> bool {
    let g = block[0].fec_group;
    &&& pv.id == u64::MAX - i
    &&& pv.seq == sat_u64(block.last().seq + 1 + i)
    &&& pv.is_parity
    &&& pv.meta.id == u64::MAX - i
    &&& pv.meta.priority == spec_max_priority(block)
    &&& pv.meta.deadline == spec_min_deadline(block)
    &&& pv.meta.size == pv.payload.len()
    &&& pv.fec_group == g
    &&& !pv.reconstructable
    &&& pv.parity_index == i
    &&& is_shard_frame(pv.payload, parity_wire_index(g, p, i), 0, row, true, i as usize, g)
}

/// Reed–Solomon encoder of a block of data packets.
#[derive(Debug, Clone, Copy, PartialEq, Eq, Structural)]
pub struct FecEncoder {
    pub data_shards: usize,
    pub parity_shards: usize,
}

/// Reed–Solomon decoder parameters.
#[derive(Debug, Clone, Copy, PartialEq, Eq, Structural)]
pub struct FecDecoder {
    pub data_shards: usize,
    pub parity_shards: usize,
}

/// Number of present entries.
pub open spec fn count_some(s: Seq<Option<Packet>>) -> nat
    decreases s.len(),
{
    if s.len() == 0 {
        0
    } else {
        count_some(s.drop_last()) + if s.last() is Some { 1nat } else { 0nat }
    }
}

impl FecDecoder {
    /// Enough shards are present to decode a block.
    pub fn reconstructable_shards(&self, shards: &[Option<Packet>]) -> (r: bool)
        ensures
            r == (count_some(shards@) >= self.data_shards),
    {
        let mut present: usize = 0;
        let mut i: usize = 0;
        while i < shards.len()
            invariant
                i <= shards@.len(),
                present == count_some(shards@.subrange(0, i as int)),
                present <= i,
            decreases shards@.len() - i,
        {
            proof {
                assert(shards@.subrange(0, i + 1).drop_last() =~= shards@.subrange(0, i as int));
            }
            if shards[i].is_some() {
                present = present + 1;
            }
            i = i + 1;
        }
        proof {
            assert(shards@.subrange(0, shards@.len() as int) =~= shards@);
        }
        present >= self.data_shards
    }
}


proof fn lemma_sort_len(s: Seq<PacketView>)
    ensures
        sort_by_seq(s).len() == s.len(),
    decreases s.len(),
{
    if s.len() > 0 {
        lemma_sort_len(s.drop_last());
        lemma_insert_pos_bound(sort_by_seq(s.drop_last()), s.last().seq);
    }
}

pub(crate) proof fn lemma_max_payload_len_bound(s: Seq<PacketView>, i: int)
    requires
        0 <= i < s.len(),
    ensures
        s[i].payload.len() <= spec_max_payload_len(s),
    decreases s.len(),
{
    if i < s.len() - 1 {
        lemma_max_payload_len_bound(s.drop_last(), i);
    }
}

/// Copies of the first `n` packets.
fn copy_prefix(v: &[Packet], n: usize) -> (r: Vec<Packet>)
    requires
        n <= v@.len(),
    ensures
        packets_view(r@) == packets_view(v@).take(n as int),
{
    let mut r: Vec<Packet> = Vec::new();
    let mut i: usize = 0;
    while i < n
        invariant
            i <= n,
            n <= v@.len(),
            packets_view(r@) == packets_view(v@).take(i as int),
        decreases n - i,
    {
        let ghost before = r@;
        let c = v[i].clone();
        r.push(c);
        proof {
            assert(r@ =~= before.push(c));
            assert(packets_view(r@) =~= packets_view(before).push(c@));
            assert(packets_view(r@) =~= packets_view(v@).take(i + 1));
        }
        i = i + 1;
    }
    r
}

fn max_payload_len(block: &Vec<Packet>) -> (r: usize)
    ensures
        r == spec_max_payload_len(packets_view(block@)),
{
    let ghost bv = packets_view(block@);
    let mut m: usize = 0;
    let mut i: usize = 0;
    while i < block.len()
        invariant
            i <= block@.len(),
            bv == packets_view(block@),
            m == spec_max_payload_len(bv.take(i as int)),
        decreases block@.len() - i,
    {
        proof {
            assert(bv.take(i + 1).drop_last() =~= bv.take(i as int));
        }
        if block[i].payload.len() > m {
            m = block[i].payload.len();
        }
        i = i + 1;
    }
    proof {
        assert(bv.take(block@.len() as int) =~= bv);
    }
    m
}

fn max_priority(block: &Vec<Packet>) -> (r: u8)
    ensures
        r == spec_max_priority(packets_view(block@)),
{
    let ghost bv = packets_view(block@);
    let mut m: u8 = 0;
    let mut i: usize = 0;
    while i < block.len()
        invariant
            i <= block@.len(),
            bv == packets_view(block@),
            m == spec_max_priority(bv.take(i as int)),
        decreases block@.len() - i,
    {
        proof {
            assert(bv.take(i + 1).drop_last() =~= bv.take(i as int));
        }
        if block[i].meta.priority > m {
            m = block[i].meta.priority;
        }
        i = i + 1;
    }
    proof {
        assert(bv.take(block@.len() as int) =~= bv);
    }
    m
}

fn min_deadline(block: &Vec<Packet>) -> (r: Option<u64>)
    ensures
        r == spec_min_deadline(packets_view(block@)),
{
    let ghost bv = packets_view(block@);
    let mut m: Option<u64> = None;
    let mut i: usize = 0;
    while i < block.len()
        invariant
            i <= block@.len(),
            bv == packets_view(block@),
            m == spec_min_deadline(bv.take(i as int)),
        decreases block@.len() - i,
    {
        proof {
            assert(bv.take(i + 1).drop_last() =~= bv.take(i as int));
        }
        match block[i].meta.deadline {
            None => {},
            Some(d) => {
                match m {
                    None => { m = Some(d); },
                    Some(e) => {
                        if d < e {
                            m = Some(d);
                        }
                    },
                }
            },
        }
        i = i + 1;
    }
    proof {
        assert(bv.take(block@.len() as int) =~= bv);
    }
    m
}

/// `v` followed by zero bytes up to `len` bytes.
fn padded_payload(v: &[u8], len: usize) -> (r: Vec<u8>)
    requires
        v@.len() <= len,
    ensures
        r@ == pad_to(v@, len as nat),
{
    let mut r = copy_bytes(v);
    proof {
        assert(r@ =~= v@ + zeros(0));
    }
    while r.len() < len
        invariant
            v@.len() <= r@.len() <= len,
            r@ == v@ + zeros((r@.len() - v@.len()) as nat),
        decreases len - r@.len(),
    {
        r.push(0u8);
        proof {
            assert(r@ =~= v@ + zeros((r@.len() - v@.len()) as nat));
        }
    }
    r
}

/// `len` zero bytes.
fn zero_row(len: usize) -> (r: Vec<u8>)
    ensures
        r@ == zeros(len as nat),
{
    let mut r: Vec<u8> = Vec::new();
    while r.len() < len
        invariant
            r@.len() <= len,
            r@ == zeros(r@.len()),
        decreases len - r@.len(),
    {
        r.push(0u8);
        proof {
            assert(r@ =~= zeros(r@.len()));
        }
    }
    r
}

/// `out` is `block` followed by its `p` framed parity packets.
pub open spec fn is_encoded_block(out: Seq<PacketView>, block: Seq<PacketView>, p: nat) -> bool {
    let n = block.len();
    let rows = rs_parity_rows(n, p, padded_rows(block, spec_max_payload_len(block)));
    let parity = out.subrange(n as int, out.len() as int);
    &&& out.len() == n + p
    &&& out.take(n as int) == block
    &&& forall|i: int| 0 <= i < p ==> #[trigger] is_parity_packet(parity[i], block, p, i as nat, rows[i])
    &&& forall|i: int| 0 <= i < p ==> (#[trigger] rows[i]).len() == spec_max_payload_len(block)
}

impl FecEncoder {
    /// Effective width of a block: `data_shards`, or 1 when it is 0.
    pub open spec fn width(self) -> nat {
        spec_width(self.data_shards)
    }

    /// The data shards of a block cut from `data`: its first `width` packets,
    /// ordered by sequence number.
    pub open spec fn block_of(self, data: Seq<PacketView>) -> Seq<PacketView> {
        sort_by_seq(data.take(self.width() as int))
    }

    /// Whether encoding `data` goes as far as building the codec.
    pub open spec fn reaches_codec(self, data: Seq<PacketView>) -> bool {
        &&& self.parity_shards > 0
        &&& data.len() >= self.width()
        &&& spec_max_payload_len(self.block_of(data)) > 0
    }

    /// `out` is what encoding `data` gives (see [`FecEncoder::encode_block`]).
    pub open spec fn encodes(self, data: Seq<PacketView>, out: Seq<PacketView>) -> bool {
        let block = self.block_of(data);
        &&& data.len() == 0 ==> out.len() == 0
        &&& data.len() > 0 && (self.parity_shards == 0 || data.len() < self.width()) ==> out == data
        &&& self.parity_shards > 0 && data.len() >= self.width() && spec_max_payload_len(block) == 0 ==> out == block
        &&& self.reaches_codec(data) && !rs_shape_ok(self.width(), self.parity_shards as nat) ==> out == data
        &&& self.reaches_codec(data) && rs_shape_ok(self.width(), self.parity_shards as nat)
            ==> is_encoded_block(out, block, self.parity_shards as nat)
    }

    /// Appends Reed–Solomon parity to a block of data packets.
    ///
    /// Empty input gives an empty result; without parity shards or with fewer
    /// packets than the block width the input comes back unchanged. Otherwise
    /// the first `width` packets, ordered by sequence number, are zero-padded
    /// to the longest payload and encoded; the result is that block followed by
    /// one framed parity packet per parity shard. When every payload is empty
    /// the block comes back alone, and when the codec refuses the shape the
    /// input comes back unchanged.
    pub fn encode_block(&self, data: &[Packet]) -> (r: Vec<Packet>)
        requires
            self.reaches_codec(packets_view(data@)) ==> self.width() + self.parity_shards <= usize::MAX,
        ensures
            self.encodes(packets_view(data@), packets_view(r@)),
    {
        let n: usize = if self.data_shards == 0 { 1 } else { self.data_shards };
        let p = self.parity_shards;
        if data.len() == 0 {
            return Vec::new();
        }
        if p == 0 || data.len() < n {
            return copy_packets(data);
        }
        let ghost dv = packets_view(data@);
        let head = copy_prefix(data, n);
        let block = sort_packets_by_seq(head);
        let ghost bv = packets_view(block@);
        proof {
            lemma_sort_len(dv.take(n as int));
        }
        let max_len = max_payload_len(&block);
        if max_len == 0 {
            return block;
        }
        if !rs_accepts_shape(n, p) {
            return copy_packets(data);
        }
        let ghost rows = padded_rows(bv, max_len as nat);
        let mut shards: Vec<Vec<u8>> = Vec::new();
        let mut i: usize = 0;
        while i < n
            invariant
                i <= n,
                n == block@.len(),
                bv == packets_view(block@),
                max_len == spec_max_payload_len(bv),
                rows == padded_rows(bv, max_len as nat),
                rows_view(shards@) == rows.take(i as int),
            decreases n - i,
        {
            proof {
                lemma_max_payload_len_bound(bv, i as int);
            }
            let row = padded_payload(block[i].payload.as_slice(), max_len);
            let ghost before = shards@;
            let ghost rv = row@;
            shards.push(row);
            proof {
                assert(shards@ =~= before.push(row));
                assert(rows_view(shards@) =~= rows_view(before).push(rv));
                assert(rv == rows[i as int]);
                assert(rows_view(shards@) =~= rows.take(i + 1));
            }
            i = i + 1;
        }
        let mut j: usize = 0;
        while j < p
            invariant
                j <= p,
                n + p <= usize::MAX,
                shards@.len() == n + j,
                rows.len() == n,
                rows_view(shards@).take(n as int) == rows,
                forall|k: int| n <= k < n + j ==> #[trigger] shards@[k]@ == zeros(max_len as nat),
            decreases p - j,
        {
            let row = zero_row(max_len);
            let ghost before = shards@;
            shards.push(row);
            proof {
                assert(rows_view(shards@).take(n as int) =~= rows_view(before).take(n as int));
            }
            j = j + 1;
        }
        proof {
            assert(rows_view(shards@).take(n as int) == rows);
            assert forall|k: int| 0 <= k < rows_view(shards@).len() implies #[trigger] rows_view(shards@)[k].len() == rows_view(shards@)[0].len() by {
                lemma_max_payload_len_bound(bv, 0);
                assert(rows_view(shards@).take(n as int)[0] == rows_view(shards@)[0]);
                if k < n {
                    lemma_max_payload_len_bound(bv, k);
                    assert(rows_view(shards@).take(n as int)[k] == rows_view(shards@)[k]);
                }
            }
            lemma_max_payload_len_bound(bv, 0);
            assert(rows_view(shards@).take(n as int)[0] == rows_view(shards@)[0]);
            assert(rows_uniform(rows_view(shards@)));
            assert(rows_view(shards@).subrange(0, n as int) == rows);
        }
        let ghost pre = shards@;
        if !rs_encode(n, p, &mut shards) {
            return copy_packets(data);
        }
        let ghost prows = rs_parity_rows(n as nat, p as nat, rows);
        proof {
            assert forall|k: int| 0 <= k < p implies (#[trigger] prows[k]).len() == max_len by {
                assert(rows_view(shards@).subrange(n as int, (n + p) as int)[k] == shards@[n + k]@);
                assert(pre[n + k]@ == zeros(max_len as nat));
            }
        }
        let fec_group = block[0].fec_group;
        let max_pri = max_priority(&block);
        let deadline = min_deadline(&block);
        let seq_base = block[n - 1].seq;
        let stride = sat_mul_u64(fec_group, (p + 16) as u64);
        let mut out = block;
        let ghost mut par: Seq<PacketView> = Seq::empty();
        let mut i: usize = 0;
        while i < p
            invariant
                i <= p,
                0 < n,
                n + p <= 256,
                bv.len() == n,
                shards@.len() == n + p,
                rows_view(shards@).subrange(n as int, (n + p) as int) == prows,
                fec_group == bv[0].fec_group,
                max_pri == spec_max_priority(bv),
                deadline == spec_min_deadline(bv),
                seq_base == bv.last().seq,
                stride == sat_u64(fec_group * (p + 16)),
                packets_view(out@) == bv + par,
                par.len() == i,
                forall|k: int| 0 <= k < i ==> #[trigger] is_parity_packet(par[k], bv, p as nat, k as nat, prows[k]),
                forall|k: int| 0 <= k < p ==> (#[trigger] prows[k]).len() == max_len,
                max_len == spec_max_payload_len(bv),
            decreases p - i,
        {
            proof {
                assert(rows_view(shards@).subrange(n as int, (n + p) as int)[i as int] == shards@[n + i]@);
            }
            let wire_index = u64::MAX.saturating_sub(stride).saturating_sub(i as u64);
            let framed = frame_fec_wire_shard(wire_index, 0, shards[n + i].as_slice(), true, i, fec_group);
            let size = framed.len();
            let pkt = Packet {
                id: PacketId(u64::MAX - i as u64),
                seq: seq_base.saturating_add(1 + i as u64),
                payload: framed,
                is_parity: true,
                meta: PacketMeta { id: u64::MAX - i as u64, priority: max_pri, deadline, size },
                fec_group,
                reconstructable: false,
                parity_index: i,
            };
            proof {
                assert(is_parity_packet(pkt@, bv, p as nat, i as nat, prows[i as int]));
            }
            let ghost before = out@;
            let ghost pv = pkt@;
            out.push(pkt);
            proof {
                assert(out@ =~= before.push(pkt));
                assert(packets_view(out@) =~= packets_view(before).push(pv));
                par = par.push(pv);
                assert(packets_view(out@) =~= bv + par);
                assert forall|k: int| 0 <= k < i + 1 implies #[trigger] is_parity_packet(par[k], bv, p as nat, k as nat, prows[k]) by {
                    if k == i {
                        assert(par[k] == pv);
                    }
                    if k < i {
                        assert(par[k] == par.drop_last()[k]);
                    }
                }
            }
            i = i + 1;
        }
        proof {
            assert((bv + par).take(n as int) =~= bv);
            assert((bv + par).subrange(n as int, (n + p) as int) =~= par);
        }
        out
    }
}

/// Sequence numbers never decrease along `s`.
pub open spec fn seq_nondecreasing(s: Seq<PacketView>) -> bool {
    forall|i: int, j: int| 0 <= i <= j < s.len() ==> #[trigger] s[i].seq <= #[trigger] s[j].seq
}

/// Each packet of `m` occurs once, and no two packets of `m` share a
/// sequence number.
pub open spec fn seq_keys_unique(m: vstd::multiset::Multiset<PacketView>) -> bool {
    forall|a: PacketView, b: PacketView| #[trigger] m.count(a) > 0 && #[trigger] m.count(b) > 0 && a.seq == b.seq
        ==> a == b && m.count(a) == 1
}

proof fn lemma_insert_pos_split(sorted: Seq<PacketView>, seq: u64)
    requires
        seq_nondecreasing(sorted),
    ensures
        forall|k: int| 0 <= k < seq_insert_pos(sorted, seq) ==> #[trigger] sorted[k].seq <= seq,
        forall|k: int| seq_insert_pos(sorted, seq) <= k < sorted.len() ==> #[trigger] sorted[k].seq > seq,
    decreases sorted.len(),
{
    lemma_insert_pos_bound(sorted, seq);
    if sorted.len() > 0 {
        let last = sorted.len() - 1;
        if sorted[last].seq <= seq {
            assert forall|k: int| 0 <= k < seq_insert_pos(sorted, seq) implies #[trigger] sorted[k].seq <= seq by {
                assert(sorted[k].seq <= sorted[last].seq);
            }
        } else {
            let d = sorted.drop_last();
            assert forall|i: int, j: int| 0 <= i <= j < d.len() implies #[trigger] d[i].seq <= #[trigger] d[j].seq by {
                assert(d[i] == sorted[i] && d[j] == sorted[j]);
            }
            lemma_insert_pos_split(d, seq);
            lemma_insert_pos_bound(d, seq);
            assert forall|k: int| 0 <= k < seq_insert_pos(sorted, seq) implies #[trigger] sorted[k].seq <= seq by {
                assert(sorted[k] == d[k]);
            }
            assert forall|k: int| seq_insert_pos(sorted, seq) <= k < sorted.len() implies #[trigger] sorted[k].seq > seq by {
                if k < last {
                    assert(sorted[k] == d[k]);
                }
            }
        }
    }
}

/// Sorting keeps the packets and orders them by sequence number.
proof fn lemma_sort_props(s: Seq<PacketView>)
    ensures
        sort_by_seq(s).len() == s.len(),
        sort_by_seq(s).to_multiset() == s.to_multiset(),
        seq_nondecreasing(sort_by_seq(s)),
    decreases s.len(),
{
    lemma_sort_len(s);
    if s.len() == 0 {
        assert(s.to_multiset() =~= vstd::multiset::Multiset::<PacketView>::empty()) by {
            broadcast use vstd::seq_lib::group_to_multiset_ensures;
        }
        assert(sort_by_seq(s) =~= s);
    } else {
        let d = s.drop_last();
        let x = s.last();
        lemma_sort_props(d);
        let rest = sort_by_seq(d);
        let k = seq_insert_pos(rest, x.seq) as int;
        lemma_insert_pos_bound(rest, x.seq);
        lemma_insert_pos_split(rest, x.seq);
        let r = rest.insert(k, x);
        assert(r == sort_by_seq(s));
        vstd::seq_lib::to_multiset_insert(rest, k, x);
        vstd::seq_lib::to_multiset_build(d, x);
        assert(s =~= d.push(x));
        assert forall|i: int, j: int| 0 <= i <= j < r.len() implies #[trigger] r[i].seq <= #[trigger] r[j].seq by {
            if i < k && j < k {
                assert(r[i] == rest[i] && r[j] == rest[j]);
            } else if i < k && j == k {
                assert(r[i] == rest[i]);
            } else if i < k {
                assert(r[i] == rest[i] && r[j] == rest[j - 1]);
            } else if i == k && j > k {
                assert(r[j] == rest[j - 1]);
            } else if i > k {
                assert(r[i] == rest[i - 1] && r[j] == rest[j - 1]);
            }
        }
    }
}

/// Distinct sequence numbers by position give distinct keys in the multiset.
proof fn lemma_unique_seqs_keys(s: Seq<PacketView>)
    requires
        seqs_unique(s),
    ensures
        seq_keys_unique(s.to_multiset()),
    decreases s.len(),
{
    broadcast use vstd::multiset::group_multiset_axioms;
    broadcast use vstd::seq_lib::group_to_multiset_ensures;
    if s.len() == 0 {
        assert(s.to_multiset() =~= vstd::multiset::Multiset::<PacketView>::empty());
    } else {
        let d = s.drop_last();
        let x = s.last();
        assert forall|i: int, j: int| 0 <= i < j < d.len() implies #[trigger] d[i].seq != #[trigger] d[j].seq by {
            assert(d[i] == s[i] && d[j] == s[j]);
        }
        lemma_unique_seqs_keys(d);
        assert(s =~= d.push(x));
        let dm = d.to_multiset();
        assert forall|a: PacketView| #[trigger] dm.count(a) > 0 implies a.seq != x.seq by {
            assert(d.contains(a));
            let i = choose|i: int| 0 <= i < d.len() && d[i] == a;
            assert(s[i] == a);
        }
        let m = s.to_multiset();
        assert(m == dm.insert(x));
        assert forall|a: PacketView, b: PacketView| #[trigger] m.count(a) > 0 && #[trigger] m.count(b) > 0 && a.seq == b.seq
            implies a == b && m.count(a) == 1 by {
            if a == x {
                if dm.count(b) > 0 {
                    assert(b.seq != x.seq);
                }
            } else if b == x {
                assert(dm.count(a) > 0);
            } else {
                assert(dm.count(a) > 0 && dm.count(b) > 0);
            }
        }
    }
}

/// Two sorted sequences of the same packets, no two with one sequence
/// number, are one sequence.
proof fn lemma_sorted_unique(a: Seq<PacketView>, b: Seq<PacketView>)
    requires
        seq_nondecreasing(a),
        seq_nondecreasing(b),
        a.to_multiset() == b.to_multiset(),
        seq_keys_unique(a.to_multiset()),
    ensures
        a == b,
    decreases a.len(),
{
    broadcast use vstd::multiset::group_multiset_axioms;
    broadcast use vstd::seq_lib::group_to_multiset_ensures;
    a.to_multiset_ensures();
    b.to_multiset_ensures();
    if a.len() == 0 {
        assert(a =~= b);
    } else {
        let la = a.len() - 1;
        let lb = b.len() - 1;
        let x = a[la];
        let y = b[lb];
        assert(b.len() == a.len());
        assert(a.contains(x));
        assert(a.to_multiset().count(x) > 0);
        assert(b.to_multiset().count(x) > 0);
        assert(b.contains(x));
        let j = choose|j: int| 0 <= j < b.len() && b[j] == x;
        assert(b[j].seq <= b[lb].seq);
        assert(b.contains(y));
        assert(b.to_multiset().count(y) > 0);
        assert(a.to_multiset().count(y) > 0);
        assert(a.contains(y));
        let i = choose|i: int| 0 <= i < a.len() && a[i] == y;
        assert(a[i].seq <= a[la].seq);
        assert(a.to_multiset().count(x) > 0 && a.to_multiset().count(y) > 0);
        assert(x == y);
        let a2 = a.drop_last();
        let b2 = b.drop_last();
        assert(a2 =~= a.remove(la));
        assert(b2 =~= b.remove(lb));
        assert(a2.to_multiset() == a.to_multiset().remove(x));
        assert(b2.to_multiset() == b.to_multiset().remove(y));
        let m2 = a2.to_multiset();
        let m = a.to_multiset();
        assert forall|p: PacketView, q: PacketView| #[trigger] m2.count(p) > 0 && #[trigger] m2.count(q) > 0 && p.seq == q.seq
            implies p == q && m2.count(p) == 1 by {
            assert(m.count(p) > 0 && m.count(q) > 0);
        }
        assert forall|u: int, v: int| 0 <= u <= v < a2.len() implies #[trigger] a2[u].seq <= #[trigger] a2[v].seq by {
            assert(a2[u] == a[u] && a2[v] == a[v]);
        }
        assert forall|u: int, v: int| 0 <= u <= v < b2.len() implies #[trigger] b2[u].seq <= #[trigger] b2[v].seq by {
            assert(b2[u] == b[u] && b2[v] == b[v]);
        }
        lemma_sorted_unique(a2, b2);
        assert(a =~= a2.push(x));
        assert(b =~= b2.push(y));
    }
}

/// An encoded block is determined by the block and the parity count.
proof fn lemma_encoded_block_unique(o1: Seq<PacketView>, o2: Seq<PacketView>, block: Seq<PacketView>, p: nat)
    requires
        is_encoded_block(o1, block, p),
        is_encoded_block(o2, block, p),
    ensures
        o1 == o2,
{
    broadcast use vstd::array::group_array_axioms;
    let n = block.len();
    let rows = rs_parity_rows(n, p, padded_rows(block, spec_max_payload_len(block)));
    let g = block[0].fec_group;
    assert forall|k: int| 0 <= k < o1.len() implies o1[k] == o2[k] by {
        if k < n {
            assert(o1[k] == o1.take(n as int)[k]);
            assert(o2[k] == o2.take(n as int)[k]);
        } else {
            let i = k - n;
            let par1 = o1.subrange(n as int, o1.len() as int);
            let par2 = o2.subrange(n as int, o2.len() as int);
            assert(is_parity_packet(par1[i], block, p, i as nat, rows[i]));
            assert(is_parity_packet(par2[i], block, p, i as nat, rows[i]));
            let q1 = par1[i];
            let q2 = par2[i];
            assert(q1 == o1[k] && q2 == o2[k]);
            let wi = parity_wire_index(g, p, i as nat);
            let c1 = choose|c: [u8; 32]| c@ == blake3_digest(rows[i])
                && q1.payload == spec_wire_frame(spec_descriptor_bytes(shard_descriptor(wi, 0, rows[i], true, i as usize, g, c)), rows[i]);
            let c2 = choose|c: [u8; 32]| c@ == blake3_digest(rows[i])
                && q2.payload == spec_wire_frame(spec_descriptor_bytes(shard_descriptor(wi, 0, rows[i], true, i as usize, g, c)), rows[i]);
            assert forall|t: int| 0 <= t < 32 implies c1[t] == c2[t] by {
                assert(c1[t] == c1@[t] && c2[t] == c2@[t]);
            }
            assert(c1 =~= c2);
            assert(q1.payload == q2.payload);
            assert(q1.meta == q2.meta);
        }
    }
    assert(o1 =~= o2);
}

/// Law: an encoder's output does not depend on the order of its input. A
/// block's worth of data shards with distinct sequence numbers, handed over
/// in any two orders, encodes to the same packets, since the encoder orders
/// the block by sequence number before coding it.
pub proof fn law_encode_ignores_input_order(enc: FecEncoder, d1: Seq<PacketView>, d2: Seq<PacketView>, o1: Seq<PacketView>, o2: Seq<PacketView>)
    requires
        d1.len() == enc.width(),
        d2.to_multiset() == d1.to_multiset(),
        seqs_unique(d1),
        enc.parity_shards >= 1,
        enc.width() + enc.parity_shards <= 256,
        enc.encodes(d1, o1),
        enc.encodes(d2, o2),
    ensures
        o1 == o2,
{
    broadcast use vstd::seq_lib::group_to_multiset_ensures;
    assert(d2.len() == d1.len()) by {
        d1.to_multiset_ensures();
        d2.to_multiset_ensures();
    }
    assert(d1.take(enc.width() as int) =~= d1);
    assert(d2.take(enc.width() as int) =~= d2);
    let b1 = enc.block_of(d1);
    let b2 = enc.block_of(d2);
    lemma_sort_props(d1);
    lemma_sort_props(d2);
    lemma_unique_seqs_keys(d1);
    lemma_sorted_unique(b1, b2);
    if spec_max_payload_len(b1) > 0 {
        assert(rs_shape_ok(enc.width(), enc.parity_shards as nat));
        lemma_encoded_block_unique(o1, o2, b1, enc.parity_shards as nat);
    }
}

} // verus!
