//! The sorted block: its binary layout, and the builder that packs entries
//! into one block under a byte budget.
use vstd::prelude::*;

use crate::key::{be_u16, put_slice, put_u16, u16_be};
use crate::LsmError;

verus! {

#[verifier::external_type_specification]
#[verifier::external_body]
pub struct ExBytes(bytes::Bytes);

/// The bytes that a `bytes::Bytes` buffer holds, in order.
pub uninterp spec fn bytes_content(b: bytes::Bytes) -> Seq<u8>;

/// Relies on `From<Vec<u8>> for bytes::Bytes`: the buffer takes over the
/// vector and holds exactly its bytes, in order.
#[verifier::external_body]
fn bytes_from_vec(v: Vec<u8>) -> (r: bytes::Bytes)
    ensures
        bytes_content(r) == v@,
{
    bytes::Bytes::from(v)
}

/// Relies on `Deref for bytes::Bytes`: the slice is the buffer's bytes.
#[verifier::external_body]
pub(crate) fn bytes_as_slice(b: &bytes::Bytes) -> (r: &[u8])
    ensures
        r@ == bytes_content(*b),
{
    b
}

/// The largest number a 16-bit length, offset or count can hold.
pub const MAX_U16: usize = 65535;

/// One entry as it is laid out in a block:
/// `[key_len: u16][key][value_len: u16][value]`.
pub open spec fn entry_bytes(key: Seq<u8>, value: Seq<u8>) -> Seq<u8> {
    u16_be(key.len() as u16) + key + u16_be(value.len() as u16) + value
}

/// The data region of a block holding `es`: its entries, one after another.
pub open spec fn entries_bytes(es: Seq<(Seq<u8>, Seq<u8>)>) -> Seq<u8>
    decreases es.len(),
{
    if es.len() == 0 {
        Seq::empty()
    } else {
        entries_bytes(es.drop_last()) + entry_bytes(es.last().0, es.last().1)
    }
}

/// Where each entry of `es` starts in the data region.
pub open spec fn entry_offsets(es: Seq<(Seq<u8>, Seq<u8>)>) -> Seq<u16> {
    Seq::new(es.len(), |i: int| entries_bytes(es.take(i)).len() as u16)
}

/// The encoded size of a block holding `es`: entry count, offset table and data.
pub open spec fn encoded_size(es: Seq<(Seq<u8>, Seq<u8>)>) -> int {
    (2 + 2 * es.len() + entries_bytes(es).len()) as int
}

/// The offset table: each offset as two big-endian bytes.
pub open spec fn offsets_bytes(os: Seq<u16>) -> Seq<u8>
    decreases os.len(),
{
    if os.len() == 0 {
        Seq::empty()
    } else {
        offsets_bytes(os.drop_last()) + u16_be(os.last())
    }
}

/// What a well-formed entry list looks like: keys non-empty, and every
/// length fits its 16-bit field.
pub open spec fn entries_fit(es: Seq<(Seq<u8>, Seq<u8>)>) -> bool {
    forall|i: int|
        0 <= i < es.len() ==> {
            &&& 0 < (#[trigger] es[i]).0.len() <= MAX_U16
            &&& es[i].1.len() <= MAX_U16
        }
}

/// The entry count that the last two bytes of `d` declare.
pub open spec fn declared_count(d: Seq<u8>) -> int {
    be_u16(d[d.len() - 2], d[d.len() - 1]) as int
}

/// `d` is long enough for the offset table and count that it declares.
pub open spec fn decodable(d: Seq<u8>) -> bool {
    d.len() >= 2 && 2 + 2 * declared_count(d) <= d.len()
}

/// Where the offset table of `d` starts, which is where its data ends.
pub open spec fn data_end(d: Seq<u8>) -> int {
    d.len() - 2 - 2 * declared_count(d)
}

/// The offsets that the offset table of `d` spells.
pub open spec fn decoded_offsets(d: Seq<u8>) -> Seq<u16> {
    Seq::new(
        declared_count(d) as nat,
        |i: int| be_u16(d[data_end(d) + 2 * i], d[data_end(d) + 2 * i + 1]),
    )
}

/// A block is the smallest unit of reading and caching: sorted key-value
/// entries and the offset of each.
pub struct Block {
    /// The entries, one after another.
    pub data: Vec<u8>,
    /// Where each entry starts in `data`.
    pub offsets: Vec<u16>,
}

impl Block {
    /// The block's bytes: data, then each offset, then the entry count, all
    /// numbers big-endian.
    pub open spec fn encoding(&self) -> Seq<u8> {
        self.data@ + offsets_bytes(self.offsets@) + u16_be(self.offsets@.len() as u16)
    }

    /// The block holds exactly the entries `es`, laid out in order.
    pub open spec fn holds(&self, es: Seq<(Seq<u8>, Seq<u8>)>) -> bool {
        &&& self.data@ == entries_bytes(es)
        &&& self.offsets@ == entry_offsets(es)
    }

    /// The exact encoded size.
    pub fn size(&self) -> (r: usize)
        requires
            2 + 2 * self.offsets@.len() + self.data@.len() <= usize::MAX,
        ensures
            r == 2 + 2 * self.offsets@.len() + self.data@.len(),
    {
        2 + self.offsets.len() * 2 + self.data.len()
    }

    /// Encodes the block: data, offsets and entry count.
    pub fn encode(&self) -> (r: bytes::Bytes)
        requires
            self.offsets@.len() <= MAX_U16,
        ensures
            bytes_content(r) == self.encoding(),
    {
        let mut buf: Vec<u8> = Vec::new();
        put_slice(&mut buf, self.data.as_slice());
        let mut i: usize = 0;
        while i < self.offsets.len()
            invariant
                i <= self.offsets@.len(),
                buf@ == self.data@ + offsets_bytes(self.offsets@.take(i as int)),
            decreases self.offsets@.len() - i,
        {
            proof {
                let t = self.offsets@.take(i + 1);
                assert(t.drop_last() =~= self.offsets@.take(i as int));
            }
            put_u16(&mut buf, self.offsets[i]);
            i = i + 1;
        }
        assert(self.offsets@.take(self.offsets@.len() as int) =~= self.offsets@);
        put_u16(&mut buf, self.offsets.len() as u16);
        bytes_from_vec(buf)
    }

    /// Decodes a block from its bytes. Fails with `InvariantViolation` when
    /// the input is shorter than the offset table and count it declares.
    pub fn decode(d: &[u8]) -> (r: Result<Block, LsmError>)
        ensures
            r is Ok <==> decodable(d@),
            r is Err ==> r == Err::<Block, LsmError>(LsmError::InvariantViolation),
            r matches Ok(b) ==> b.data@ == d@.take(data_end(d@)) && b.offsets@ == decoded_offsets(
                d@,
            ),
    {
        let len = d.len();
        if len < 2 {
            return Err(LsmError::InvariantViolation);
        }
        let count = (d[len - 2] as usize) * 256 + d[len - 1] as usize;
        assert(count == declared_count(d@));
        if len - 2 < 2 * count {
            return Err(LsmError::InvariantViolation);
        }
        let end = len - 2 - 2 * count;
        let mut data: Vec<u8> = Vec::new();
        let mut i: usize = 0;
        while i < end
            invariant
                end <= d@.len(),
                i <= end,
                data@ == d@.take(i as int),
            decreases end - i,
        {
            data.push(d[i]);
            assert(d@.take(i + 1) =~= d@.take(i as int).push(d@[i as int]));
            i = i + 1;
        }
        let mut offsets: Vec<u16> = Vec::new();
        let mut j: usize = 0;
        while j < count
            invariant
                len == d@.len(),
                end == data_end(d@),
                count == declared_count(d@),
                end + 2 * count + 2 == d@.len(),
                j <= count,
                offsets@ == decoded_offsets(d@).take(j as int),
            decreases count - j,
        {
            assert(end + 2 * j + 1 < d@.len()) by (nonlinear_arith)
                requires
                    j < count,
                    end + 2 * count + 2 == d@.len(),
            ;
            let hi = d[end + 2 * j];
            let lo = d[end + 2 * j + 1];
            offsets.push((hi as u16) * 256 + lo as u16);
            assert(offsets@ =~= decoded_offsets(d@).take(j + 1));
            j = j + 1;
        }
        assert(decoded_offsets(d@).take(count as int) =~= decoded_offsets(d@));
        Ok(Block { data, offsets })
    }
}

pub proof fn lemma_offsets_bytes(os: Seq<u16>)
    ensures
        offsets_bytes(os).len() == 2 * os.len(),
        forall|i: int|
            0 <= i < os.len() ==> offsets_bytes(os)[2 * i] == u16_be(#[trigger] os[i])[0]
                && offsets_bytes(os)[2 * i + 1] == u16_be(os[i])[1],
    decreases os.len(),
{
    if os.len() > 0 {
        lemma_offsets_bytes(os.drop_last());
        assert forall|i: int| 0 <= i < os.len() implies offsets_bytes(os)[2 * i] == u16_be(
            #[trigger] os[i],
        )[0] && offsets_bytes(os)[2 * i + 1] == u16_be(os[i])[1] by {
            if i < os.len() - 1 {
                assert(os.drop_last()[i] == os[i]);
            }
        }
    }
}

/// Decoding an encoded block gives back the same data and offsets.
pub proof fn lemma_block_round_trip(b: Block)
    requires
        b.offsets@.len() <= MAX_U16,
    ensures
        decodable(b.encoding()),
        b.encoding().take(data_end(b.encoding())) == b.data@,
        decoded_offsets(b.encoding()) == b.offsets@,
{
    let e = b.encoding();
    let n = b.offsets@.len();
    lemma_offsets_bytes(b.offsets@);
    assert(e.len() == b.data@.len() + 2 * n + 2);
    assert(e[e.len() - 2] == u16_be(n as u16)[0]);
    assert(e[e.len() - 1] == u16_be(n as u16)[1]);
    assert(declared_count(e) == n);
    assert(data_end(e) == b.data@.len());
    assert(e.take(data_end(e)) =~= b.data@);
    assert forall|i: int| 0 <= i < n implies #[trigger] decoded_offsets(e)[i] == b.offsets@[i] by {
        let o = offsets_bytes(b.offsets@);
        assert(e[data_end(e) + 2 * i] == o[2 * i]);
        assert(e[data_end(e) + 2 * i + 1] == o[2 * i + 1]);
    }
    assert(decoded_offsets(e) =~= b.offsets@);
}

/// Whether a builder holding `es` under `budget` takes one more entry: it
/// takes any entry while empty, and otherwise only one whose cost (key,
/// value, two length fields and an offset slot) keeps the block within budget.
pub open spec fn add_accepts(es: Seq<(Seq<u8>, Seq<u8>)>, key: Seq<u8>, value: Seq<u8>, budget: nat) -> bool {
    es.len() == 0 || encoded_size(es) + key.len() + value.len() + 6 <= budget
}

pub proof fn lemma_entries_push(es: Seq<(Seq<u8>, Seq<u8>)>, e: (Seq<u8>, Seq<u8>))
    ensures
        entries_bytes(es.push(e)) == entries_bytes(es) + entry_bytes(e.0, e.1),
        entry_offsets(es.push(e)) == entry_offsets(es).push(entries_bytes(es).len() as u16),
{
    assert(es.push(e).drop_last() =~= es);
    let n = es.len() as int;
    assert forall|i: int| 0 <= i <= n implies #[trigger] es.push(e).take(i) == es.take(i) by {
        assert(es.push(e).take(i) =~= es.take(i));
    }
    assert(es.take(n) =~= es);
    assert(entry_offsets(es.push(e)) =~= entry_offsets(es).push(entries_bytes(es).len() as u16));
}

pub proof fn lemma_entries_bytes_len(es: Seq<(Seq<u8>, Seq<u8>)>)
    requires
        entries_fit(es),
    ensures
        entries_bytes(es).len() >= 5 * es.len(),
        es.len() == 1 ==> entries_bytes(es).len() == 4 + es[0].0.len() + es[0].1.len(),
    decreases es.len(),
{
    if es.len() > 0 {
        let e = es.last();
        assert(es.drop_last().push(e) =~= es);
        lemma_entries_push(es.drop_last(), e);
        assert(entries_fit(es.drop_last())) by {
            assert forall|i: int| 0 <= i < es.drop_last().len() implies #[trigger] es.drop_last()[i] == es[i] by {}
        }
        lemma_entries_bytes_len(es.drop_last());
        assert(es[es.len() - 1] == e);
    }
}

/// Packs entries into one block until the next entry would exceed the byte budget.
pub struct BlockBuilder {
    /// Where each entry starts in `data`.
    offsets: Vec<u16>,
    /// The entries accepted so far, laid out as in a block.
    data: Vec<u8>,
    /// The byte budget of the block.
    block_size: usize,
    /// The first key accepted.
    first_key: Vec<u8>,
    entries: Ghost<Seq<(Seq<u8>, Seq<u8>)>>,
}

impl BlockBuilder {
    /// The entries accepted so far, in order.
    pub closed spec fn entries(&self) -> Seq<(Seq<u8>, Seq<u8>)> {
        self.entries@
    }

    /// The byte budget the builder was made with.
    pub closed spec fn budget(&self) -> nat {
        self.block_size as nat
    }

    /// The bytes and offsets lay out exactly the accepted entries, and past
    /// the first entry the block stays within its budget.
    pub closed spec fn wf(&self) -> bool {
        &&& self.data@ == entries_bytes(self.entries@)
        &&& self.offsets@ == entry_offsets(self.entries@)
        &&& self.entries@.len() > 0 ==> self.first_key@ == self.entries@[0].0
        &&& entries_fit(self.entries@)
        &&& self.block_size <= MAX_U16
        &&& self.entries@.len() <= 1 || encoded_size(self.entries@) <= self.block_size
    }

    proof fn lemma_size_bounds(&self)
        requires
            self.wf(),
        ensures
            encoded_size(self.entries@) <= 4 * MAX_U16,
            self.entries@.len() <= MAX_U16,
            self.data@.len() == entries_bytes(self.entries@).len(),
            self.offsets@.len() == self.entries@.len(),
    {
        lemma_entries_bytes_len(self.entries@);
    }

    /// An empty builder with the byte budget `block_size`.
    pub fn new(block_size: usize) -> (r: Self)
        requires
            block_size <= MAX_U16,
        ensures
            r.wf(),
            r.entries() == Seq::<(Seq<u8>, Seq<u8>)>::empty(),
            r.budget() == block_size,
    {
        let r = BlockBuilder {
            offsets: Vec::new(),
            data: Vec::new(),
            block_size,
            first_key: Vec::new(),
            entries: Ghost(Seq::empty()),
        };
        assert(r.offsets@ =~= entry_offsets(Seq::empty()));
        r
    }

    fn estimated_size(&self) -> (r: usize)
        requires
            self.wf(),
        ensures
            r == encoded_size(self.entries()),
            r <= 4 * MAX_U16,
    {
        proof {
            self.lemma_size_bounds();
        }
        2 + self.offsets.len() * 2 + self.data.len()
    }

    /// Adds an entry. Returns false, and changes nothing, when the block
    /// already holds an entry and this one would take it over budget.
    pub fn add(&mut self, key: &[u8], value: &[u8]) -> (r: bool)
        requires
            old(self).wf(),
            0 < key@.len() <= MAX_U16,
            value@.len() <= MAX_U16,
        ensures
            final(self).wf(),
            final(self).budget() == old(self).budget(),
            r == add_accepts(old(self).entries(), key@, value@, old(self).budget()),
            r ==> final(self).entries() == old(self).entries().push((key@, value@)),
            !r ==> *final(self) == *old(self),
    {
        let cost = key.len() + value.len() + 6;
        if self.estimated_size() + cost > self.block_size && self.offsets.len() != 0 {
            return false;
        }
        proof {
            self.lemma_size_bounds();
            lemma_entries_push(self.entries@, (key@, value@));
        }
        if self.is_empty() {
            let mut first: Vec<u8> = Vec::new();
            put_slice(&mut first, key);
            self.first_key = first;
        }
        self.offsets.push(self.data.len() as u16);
        put_u16(&mut self.data, key.len() as u16);
        put_slice(&mut self.data, key);
        put_u16(&mut self.data, value.len() as u16);
        put_slice(&mut self.data, value);
        let ghost es = self.entries@;
        self.entries = Ghost(es.push((key@, value@)));
        proof {
            let ns = self.entries@;
            assert(self.data@ =~= entries_bytes(ns));
            assert(ns[0] == es.push((key@, value@))[0]);
            assert forall|i: int| 0 <= i < ns.len() implies {
                &&& 0 < (#[trigger] ns[i]).0.len() <= MAX_U16
                &&& ns[i].1.len() <= MAX_U16
            } by {
                if i < es.len() {
                    assert(ns[i] == es[i]);
                }
            }
            if es.len() == 0 {
                assert(ns.len() == 1);
            }
        }
        true
    }

    /// True when no entry has been accepted yet.
    pub fn is_empty(&self) -> (r: bool)
        requires
            self.wf(),
        ensures
            r == (self.entries().len() == 0),
    {
        self.offsets.len() == 0
    }

    /// Seals the builder into a block holding exactly its entries.
    pub fn build(self) -> (r: Block)
        requires
            self.wf(),
            self.entries().len() > 0,
        ensures
            r.holds(self.entries()),
            r.offsets@.len() == self.entries().len(),
            r.offsets@.len() <= MAX_U16,
            entries_fit(self.entries()),
            self.entries().len() <= 1 || entries_bytes(self.entries()).len() <= MAX_U16,
    {
        proof {
            self.lemma_size_bounds();
        }
        Block { data: self.data, offsets: self.offsets }
    }
}

/// An entry larger than the whole budget is still accepted into an empty
/// builder, and once it is in, the builder accepts no further entry of any size.
pub proof fn lemma_oversized_entry_fills_block(
    key: Seq<u8>,
    value: Seq<u8>,
    next_key: Seq<u8>,
    next_value: Seq<u8>,
    budget: nat,
)
    requires
        key.len() + value.len() + 6 > budget,
    ensures
        add_accepts(Seq::empty(), key, value, budget),
        !add_accepts(seq![(key, value)], next_key, next_value, budget),
{
    let es = seq![(key, value)];
    assert(Seq::<(Seq<u8>, Seq<u8>)>::empty().push((key, value)) =~= es);
    lemma_entries_push(Seq::empty(), (key, value));
}

/// The key of the entry that starts at `off` in `data`.
pub open spec fn key_at(data: Seq<u8>, off: int) -> Seq<u8> {
    data.subrange(off + 2, off + 2 + be_u16(data[off], data[off + 1]) as int)
}

proof fn lemma_entries_prefix(es: Seq<(Seq<u8>, Seq<u8>)>, j: int)
    requires
        0 <= j <= es.len(),
    ensures
        entries_bytes(es.take(j)).len() <= entries_bytes(es).len(),
        entries_bytes(es).subrange(0, entries_bytes(es.take(j)).len() as int) == entries_bytes(
            es.take(j),
        ),
    decreases es.len(),
{
    if j == es.len() {
        assert(es.take(j) =~= es);
        assert(entries_bytes(es).subrange(0, entries_bytes(es).len() as int) =~= entries_bytes(es));
    } else {
        let d = es.drop_last();
        assert(d.take(j) =~= es.take(j));
        lemma_entries_prefix(d, j);
        let p = entries_bytes(es.take(j));
        assert(entries_bytes(es).subrange(0, p.len() as int) =~= entries_bytes(d).subrange(0, p.len() as int));
    }
}

/// In a block built from `es`, reading the entry at each offset gives back
/// the key of that entry: walking the offsets yields the key sequence.
pub proof fn lemma_block_keys(b: Block, es: Seq<(Seq<u8>, Seq<u8>)>)
    requires
        b.holds(es),
        entries_fit(es),
        es.len() <= 1 || entries_bytes(es).len() <= MAX_U16,
    ensures
        b.offsets@.len() == es.len(),
        forall|i: int| 0 <= i < es.len() ==> key_at(b.data@, #[trigger] b.offsets@[i] as int) == es[i].0,
        es.len() > 0 ==> b.offsets@[0] == 0,
        forall|i: int, j: int| 0 <= i < j < es.len() ==> #[trigger] b.offsets@[i] < #[trigger] b.offsets@[j],
        es.len() > 0 ==> b.offsets@[es.len() - 1] + entry_bytes(es.last().0, es.last().1).len() == b.data@.len(),
{
    let n = es.len() as int;
    lemma_entries_prefix(es, 0);
    if n > 0 {
        assert(es.take(0) =~= Seq::<(Seq<u8>, Seq<u8>)>::empty());
        assert(es.take(n - 1).push(es[n - 1]) =~= es);
        lemma_entries_push(es.take(n - 1), es[n - 1]);
        lemma_entries_prefix(es, n - 1);
        if n == 1 {
            assert(es.take(n - 1) =~= Seq::<(Seq<u8>, Seq<u8>)>::empty());
        }
    }
    assert forall|i: int, j: int| 0 <= i < j < es.len() implies #[trigger] b.offsets@[i] < #[trigger] b.offsets@[j] by {
        let tj = es.take(j);
        assert(tj.take(i + 1) =~= es.take(i + 1));
        lemma_entries_prefix(tj, i + 1);
        assert(es.take(i).push(es[i]) =~= es.take(i + 1));
        lemma_entries_push(es.take(i), es[i]);
        lemma_entries_prefix(es, j);
    }
    assert forall|i: int| 0 <= i < es.len() implies key_at(b.data@, #[trigger] b.offsets@[i] as int) == es[i].0 by {
        let pre = entries_bytes(es.take(i));
        let upto = es.take(i + 1);
        assert(es.take(i).push(es[i]) =~= upto);
        lemma_entries_push(es.take(i), es[i]);
        lemma_entries_prefix(es, i + 1);
        lemma_entries_prefix(es, i);
        if es.len() <= 1 {
            assert(es.take(0) =~= Seq::<(Seq<u8>, Seq<u8>)>::empty());
        }
        assert(pre.len() <= MAX_U16);
        let off = pre.len() as int;
        assert(b.offsets@[i] as int == off);
        let k = es[i].0;
        let whole = entries_bytes(upto);
        assert(whole == pre + entry_bytes(k, es[i].1));
        assert(b.data@.subrange(0, whole.len() as int) == whole);
        assert(b.data@[off] == whole[off]);
        assert(b.data@[off + 1] == whole[off + 1]);
        assert(be_u16(b.data@[off], b.data@[off + 1]) == k.len());
        assert(key_at(b.data@, off) =~= k) by {
            assert forall|t: int| 0 <= t < k.len() implies key_at(b.data@, off)[t] == k[t] by {
                assert(b.data@[off + 2 + t] == whole[off + 2 + t]);
            }
        }
    }
}

} // verus!
