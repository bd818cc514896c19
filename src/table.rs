//! The sorted table: a run of encoded blocks, the metadata that gives each
//! block's offset and key range, and a footer that locates the metadata.
use vstd::prelude::*;

use crate::block::{
    add_accepts, bytes_as_slice, entries_bytes, entries_fit, entry_offsets, offsets_bytes, BlockBuilder,
    MAX_U16,
};
use crate::key::{
    copy_bytes, key_le, key_lt, lemma_key_lt_transitive, put_slice, put_u16, put_u32,
    strictly_ascending, u16_be, u32_be,
};
use crate::LsmError;

verus! {

/// The bytes of a block holding `es`.
pub open spec fn block_encoding(es: Seq<(Seq<u8>, Seq<u8>)>) -> Seq<u8> {
    entries_bytes(es) + offsets_bytes(entry_offsets(es)) + u16_be(es.len() as u16)
}

/// The data region of a table made of the blocks `bs`, in order.
pub open spec fn blocks_bytes(bs: Seq<Seq<(Seq<u8>, Seq<u8>)>>) -> Seq<u8>
    decreases bs.len(),
{
    if bs.len() == 0 {
        Seq::empty()
    } else {
        blocks_bytes(bs.drop_last()) + block_encoding(bs.last())
    }
}

/// The entries of the blocks `bs`, one block after another.
pub open spec fn flat(bs: Seq<Seq<(Seq<u8>, Seq<u8>)>>) -> Seq<(Seq<u8>, Seq<u8>)>
    decreases bs.len(),
{
    if bs.len() == 0 {
        Seq::empty()
    } else {
        flat(bs.drop_last()) + bs.last()
    }
}

/// The keys of the entries `es`, in order.
pub open spec fn keys_of(es: Seq<(Seq<u8>, Seq<u8>)>) -> Seq<Seq<u8>> {
    es.map_values(|e: (Seq<u8>, Seq<u8>)| e.0)
}

/// Where a block starts in the table, and the first and last key it holds.
pub struct BlockMeta {
    /// The offset of the block's first byte in the table.
    pub offset: usize,
    pub first_key: Vec<u8>,
    pub last_key: Vec<u8>,
}

/// `m` describes the block holding `es` that starts at `offset`.
pub open spec fn describes(m: BlockMeta, es: Seq<(Seq<u8>, Seq<u8>)>, offset: int) -> bool {
    &&& m.offset == offset
    &&& m.first_key@ == es[0].0
    &&& m.last_key@ == es.last().0
}

/// One metadata record: `[offset: u32][first_len: u16][first][last_len: u16][last]`.
pub open spec fn meta_bytes(m: BlockMeta) -> Seq<u8> {
    u32_be(m.offset as u32) + u16_be(m.first_key@.len() as u16) + m.first_key@ + u16_be(
        m.last_key@.len() as u16,
    ) + m.last_key@
}

pub open spec fn metas_body(ms: Seq<BlockMeta>) -> Seq<u8>
    decreases ms.len(),
{
    if ms.len() == 0 {
        Seq::empty()
    } else {
        metas_body(ms.drop_last()) + meta_bytes(ms.last())
    }
}

/// The metadata region: the record count, then each record.
pub open spec fn metas_bytes(ms: Seq<BlockMeta>) -> Seq<u8> {
    u32_be(ms.len() as u32) + metas_body(ms)
}

/// Every field of every record fits its width.
pub open spec fn metas_fit(ms: Seq<BlockMeta>) -> bool {
    &&& ms.len() <= u32::MAX
    &&& forall|i: int|
        0 <= i < ms.len() ==> {
            &&& (#[trigger] ms[i]).offset <= u32::MAX
            &&& ms[i].first_key@.len() <= MAX_U16
            &&& ms[i].last_key@.len() <= MAX_U16
        }
}

/// Appends the metadata region for `ms` to `buf`.
pub fn encode_block_meta(ms: &Vec<BlockMeta>, buf: &mut Vec<u8>)
    requires
        metas_fit(ms@),
    ensures
        final(buf)@ == old(buf)@ + metas_bytes(ms@),
{
    put_u32(buf, ms.len() as u32);
    let ghost start = buf@;
    let mut i: usize = 0;
    while i < ms.len()
        invariant
            metas_fit(ms@),
            i <= ms@.len(),
            start == old(buf)@ + u32_be(ms@.len() as u32),
            buf@ == start + metas_body(ms@.take(i as int)),
        decreases ms@.len() - i,
    {
        let m = &ms[i];
        assert(ms@.take(i + 1).drop_last() =~= ms@.take(i as int));
        assert(ms@[i as int] == *m);
        put_u32(buf, m.offset as u32);
        put_u16(buf, m.first_key.len() as u16);
        put_slice(buf, m.first_key.as_slice());
        put_u16(buf, m.last_key.len() as u16);
        put_slice(buf, m.last_key.as_slice());
        assert(buf@ =~= start + metas_body(ms@.take(i + 1)));
        i = i + 1;
    }
    assert(ms@.take(ms@.len() as int) =~= ms@);
    assert(buf@ =~= old(buf)@ + metas_bytes(ms@));
}

/// An immutable sorted table, as it stands once its bytes are written.
pub struct SsTable {
    /// One record per block, in key order.
    pub block_meta: Vec<BlockMeta>,
    /// Where the metadata region starts.
    pub block_meta_offset: usize,
    pub id: usize,
    /// The smallest key in the table.
    pub first_key: Vec<u8>,
    /// The largest key in the table.
    pub last_key: Vec<u8>,
    pub max_ts: u64,
}

/// Builds a table from entries given in strictly ascending key order.
pub struct SsTableBuilder {
    /// The block being filled.
    builder: BlockBuilder,
    /// The first key of the block being filled.
    first_key: Vec<u8>,
    /// The last key of the block being filled.
    last_key: Vec<u8>,
    /// The sealed blocks, encoded.
    data: Vec<u8>,
    /// One record per sealed block.
    meta: Vec<BlockMeta>,
    block_size: usize,
    blocks: Ghost<Seq<Seq<(Seq<u8>, Seq<u8>)>>>,
}

impl SsTableBuilder {
    /// The entries of the sealed blocks, one sequence per block.
    pub closed spec fn sealed_blocks(&self) -> Seq<Seq<(Seq<u8>, Seq<u8>)>> {
        self.blocks@
    }

    /// The entries of the block being filled.
    pub closed spec fn open_entries(&self) -> Seq<(Seq<u8>, Seq<u8>)> {
        self.builder.entries()
    }

    pub closed spec fn budget(&self) -> nat {
        self.block_size as nat
    }

    /// Every entry added so far, in order.
    pub open spec fn all_entries(&self) -> Seq<(Seq<u8>, Seq<u8>)> {
        flat(self.sealed_blocks()) + self.open_entries()
    }

    /// The blocks that `build` writes: the sealed ones and the open one.
    pub open spec fn final_blocks(&self) -> Seq<Seq<(Seq<u8>, Seq<u8>)>> {
        self.sealed_blocks().push(self.open_entries())
    }

    /// The builder's state, but for the link between sealed blocks and the open one.
    closed spec fn inv(&self) -> bool {
        &&& self.builder.wf()
        &&& self.builder.budget() == self.block_size
        &&& self.block_size <= MAX_U16
        &&& self.meta@.len() == self.blocks@.len()
        &&& self.data@ == blocks_bytes(self.blocks@)
        &&& forall|i: int|
            0 <= i < self.blocks@.len() ==> {
                &&& describes(
                    #[trigger] self.meta@[i],
                    self.blocks@[i],
                    blocks_bytes(self.blocks@.take(i)).len() as int,
                )
                &&& self.blocks@[i].len() > 0
                &&& entries_fit(self.blocks@[i])
                &&& self.meta@[i].offset <= self.data@.len()
            }
        &&& self.meta@.len() <= self.data@.len()
        &&& self.builder.entries().len() > 0 ==> {
            &&& self.first_key@ == self.builder.entries()[0].0
            &&& self.last_key@ == self.builder.entries().last().0
        }
        &&& strictly_ascending(keys_of(self.all_entries()))
    }

    /// The sealed bytes and records match the sealed blocks, the open block's
    /// key range is tracked, and all keys so far ascend strictly.
    pub closed spec fn wf(&self) -> bool {
        &&& self.inv()
        &&& self.blocks@.len() > 0 ==> self.builder.entries().len() > 0
    }

    /// An empty builder whose blocks have the byte budget `block_size`.
    pub fn new(block_size: usize) -> (r: Self)
        requires
            block_size <= MAX_U16,
        ensures
            r.wf(),
            r.all_entries() == Seq::<(Seq<u8>, Seq<u8>)>::empty(),
            r.sealed_blocks() == Seq::<Seq<(Seq<u8>, Seq<u8>)>>::empty(),
            r.budget() == block_size,
    {
        let r = SsTableBuilder {
            data: Vec::new(),
            meta: Vec::new(),
            first_key: Vec::new(),
            last_key: Vec::new(),
            block_size,
            builder: BlockBuilder::new(block_size),
            blocks: Ghost(Seq::empty()),
        };
        assert(r.all_entries() =~= Seq::empty());
        r
    }

    /// Adds an entry whose key is above every key added before. The entry
    /// goes into the open block, or, when that block is full, the block is
    /// sealed and the entry opens the next one.
    pub fn add(&mut self, key: &[u8], value: &[u8])
        requires
            old(self).wf(),
            0 < key@.len() <= MAX_U16,
            value@.len() <= MAX_U16,
            old(self).all_entries().len() == 0 || key_lt(old(self).all_entries().last().0, key@),
        ensures
            final(self).wf(),
            final(self).budget() == old(self).budget(),
            final(self).all_entries() == old(self).all_entries().push((key@, value@)),
            add_accepts(old(self).open_entries(), key@, value@, old(self).budget()) ==> {
                &&& final(self).sealed_blocks() == old(self).sealed_blocks()
                &&& final(self).open_entries() == old(self).open_entries().push((key@, value@))
            },
            !add_accepts(old(self).open_entries(), key@, value@, old(self).budget()) ==> {
                &&& final(self).sealed_blocks() == old(self).sealed_blocks().push(
                    old(self).open_entries(),
                )
                &&& final(self).open_entries() == seq![(key@, value@)]
            },
            blocks_bytes(old(self).sealed_blocks()).len() <= blocks_bytes(
                final(self).sealed_blocks(),
            ).len(),
    {
        let ghost old_all = self.all_entries();
        proof {
            lemma_ascending_push(keys_of(old_all), key@);
            assert(keys_of(old_all.push((key@, value@))) =~= keys_of(old_all).push(key@));
        }
        let was_empty = self.builder.is_empty();
        if self.builder.add(key, value) {
            if was_empty {
                self.first_key = copy_bytes(key);
            }
            self.last_key = copy_bytes(key);
            assert(self.all_entries() =~= old_all.push((key@, value@)));
            return;
        }
        self.finish_block();
        let accepted = self.builder.add(key, value);
        assert(accepted);
        assert(self.builder.entries() =~= seq![(key@, value@)]);
        assert(self.blocks@.drop_last() =~= old(self).blocks@);
        self.first_key = copy_bytes(key);
        self.last_key = copy_bytes(key);
        assert(self.all_entries() =~= old_all.push((key@, value@)));
    }

    /// The size of the sealed blocks' bytes. The open block is not counted.
    pub fn estimated_size(&self) -> (r: usize)
        requires
            self.wf(),
        ensures
            r == blocks_bytes(self.sealed_blocks()).len(),
    {
        self.data.len()
    }

    /// Seals the open block: encodes it, records its offset and key range,
    /// and starts an empty block.
    fn finish_block(&mut self)
        requires
            old(self).wf(),
            old(self).builder.entries().len() > 0,
        ensures
            final(self).inv(),
            final(self).builder.entries().len() == 0,
            final(self).blocks@ == old(self).blocks@.push(old(self).builder.entries()),
            final(self).all_entries() == old(self).all_entries(),
            final(self).block_size == old(self).block_size,
    {
        let mut builder = BlockBuilder::new(self.block_size);
        std::mem::swap(&mut self.builder, &mut builder);
        let ghost es = builder.entries();
        let ghost bs = self.blocks@;
        let ghost old_meta = self.meta@;
        let ghost old_len = self.data@.len();
        let block = builder.build();
        let encoded = block.encode();
        let offset = self.data.len();
        self.meta.push(
            BlockMeta {
                offset,
                first_key: copy_bytes(self.first_key.as_slice()),
                last_key: copy_bytes(self.last_key.as_slice()),
            },
        );
        put_slice(&mut self.data, bytes_as_slice(&encoded));
        self.blocks = Ghost(bs.push(es));
        proof {
            let nbs = bs.push(es);
            assert(nbs.drop_last() =~= bs);
            assert(block.encoding() == block_encoding(es));
            assert(self.data@ == blocks_bytes(nbs));
            assert forall|i: int| 0 <= i < nbs.len() implies {
                &&& describes(#[trigger] self.meta@[i], nbs[i], blocks_bytes(nbs.take(i)).len() as int)
                &&& nbs[i].len() > 0
                &&& entries_fit(nbs[i])
                &&& self.meta@[i].offset <= self.data@.len()
            } by {
                if i < bs.len() {
                    assert(nbs.take(i) =~= bs.take(i));
                    assert(self.meta@[i] == old_meta[i]);
                    assert(nbs[i] == bs[i]);
                    assert(old_meta[i].offset <= old_len);
                } else {
                    assert(nbs.take(i) =~= bs);
                }
            }
            assert(flat(nbs) == flat(bs) + es);
            assert(self.all_entries() =~= flat(bs) + es);
        }
    }

    /// Seals the open block and lays out the table: the blocks, the metadata
    /// region, and a 4-byte big-endian footer giving where the metadata starts.
    /// Returns the table and the bytes for storage to persist. Fails with
    /// `InvariantViolation` when nothing was added.
    pub fn build(self, id: usize) -> (r: Result<(SsTable, Vec<u8>), LsmError>)
        requires
            self.wf(),
            blocks_bytes(self.final_blocks()).len() <= u32::MAX,
        ensures
            r is Err <==> self.all_entries().len() == 0,
            r is Err ==> r == Err::<(SsTable, Vec<u8>), LsmError>(LsmError::InvariantViolation),
            r matches Ok((t, bytes)) ==> {
                let bs = self.final_blocks();
                &&& flat(bs) == self.all_entries()
                &&& forall|i: int| 0 <= i < bs.len() ==> #[trigger] bs[i].len() > 0
                &&& t.block_meta@.len() == bs.len()
                &&& forall|i: int|
                    0 <= i < bs.len() ==> describes(
                        #[trigger] t.block_meta@[i],
                        bs[i],
                        blocks_bytes(bs.take(i)).len() as int,
                    )
                &&& t.first_key@ == self.all_entries()[0].0
                &&& t.last_key@ == self.all_entries().last().0
                &&& t.block_meta_offset == blocks_bytes(bs).len()
                &&& bytes@ == blocks_bytes(bs) + metas_bytes(t.block_meta@) + u32_be(
                    t.block_meta_offset as u32,
                )
                &&& t.id == id
                &&& t.max_ts == 0
            },
    {
        let mut this = self;
        if this.builder.is_empty() {
            proof {
                if this.blocks@.len() == 0 {
                    assert(this.all_entries() =~= Seq::empty());
                }
            }
            return Err(LsmError::InvariantViolation);
        }
        let ghost old_this = this;
        this.finish_block();
        let ghost bs = this.blocks@;
        proof {
            assert(bs == old_this.final_blocks());
            assert forall|i: int| 0 <= i < bs.len() implies metas_fit_at(this.meta@, i) && #[trigger] bs[i].len() > 0 by {
                assert(this.meta@[i].offset <= this.data@.len());
                assert(entries_fit(bs[i]));
                assert(bs[i].len() > 0);
            }
            assert(this.meta@.len() <= u32::MAX);
        }
        let mut encoded = this.data;
        let meta_offset = encoded.len();
        encode_block_meta(&this.meta, &mut encoded);
        put_u32(&mut encoded, meta_offset as u32);
        let n = this.meta.len();
        let first_key = copy_bytes(this.meta[0].first_key.as_slice());
        let last_key = copy_bytes(this.meta[n - 1].last_key.as_slice());
        proof {
            lemma_flat_first_last(bs);
        }
        let table = SsTable {
            first_key,
            last_key,
            block_meta: this.meta,
            block_meta_offset: meta_offset,
            id,
            max_ts: 0,
        };
        proof {
            assert(flat(bs) == old_this.all_entries());
            assert(table.block_meta@.len() == bs.len());
            assert(table.first_key@ == old_this.all_entries()[0].0);
            assert(table.last_key@ == old_this.all_entries().last().0);
            assert(encoded@ == blocks_bytes(bs) + metas_bytes(table.block_meta@) + u32_be(meta_offset as u32));
        }
        Ok((table, encoded))
    }

    /// `build` with table id 0.
    pub fn build_for_test(self) -> (r: Result<(SsTable, Vec<u8>), LsmError>)
        requires
            self.wf(),
            blocks_bytes(self.final_blocks()).len() <= u32::MAX,
        ensures
            r is Err <==> self.all_entries().len() == 0,
            r matches Ok((t, _)) ==> t.id == 0 && t.first_key@ == self.all_entries()[0].0
                && t.last_key@ == self.all_entries().last().0,
    {
        self.build(0)
    }
}

spec fn metas_fit_at(ms: Seq<BlockMeta>, i: int) -> bool {
    &&& ms[i].offset <= u32::MAX
    &&& ms[i].first_key@.len() <= MAX_U16
    &&& ms[i].last_key@.len() <= MAX_U16
}

proof fn lemma_ascending_push(ks: Seq<Seq<u8>>, k: Seq<u8>)
    requires
        strictly_ascending(ks),
        ks.len() == 0 || key_lt(ks.last(), k),
    ensures
        strictly_ascending(ks.push(k)),
{
    let nk = ks.push(k);
    assert forall|i: int, j: int| 0 <= i < j < nk.len() implies key_lt(#[trigger] nk[i], #[trigger] nk[j]) by {
        if j == ks.len() && i < ks.len() - 1 {
            lemma_key_lt_transitive(ks[i], ks.last(), k);
        }
    }
}

proof fn lemma_flat_first_last(bs: Seq<Seq<(Seq<u8>, Seq<u8>)>>)
    requires
        bs.len() > 0,
        forall|i: int| 0 <= i < bs.len() ==> #[trigger] bs[i].len() > 0,
    ensures
        flat(bs)[0] == bs[0][0],
        flat(bs).last() == bs.last().last(),
        flat(bs).len() > 0,
    decreases bs.len(),
{
    if bs.len() > 1 {
        let d = bs.drop_last();
        assert forall|i: int| 0 <= i < d.len() implies #[trigger] d[i].len() > 0 by {
            assert(d[i] == bs[i]);
        }
        lemma_flat_first_last(d);
        assert(d[0] == bs[0]);
    } else {
        assert(bs.drop_last() =~= Seq::empty());
        assert(flat(bs.drop_last()) =~= Seq::empty());
        assert(flat(bs) =~= bs[0]);
    }
}

proof fn lemma_flat_index(bs: Seq<Seq<(Seq<u8>, Seq<u8>)>>, i: int, j: int)
    requires
        0 <= i < bs.len(),
        0 <= j < bs[i].len(),
    ensures
        flat(bs.take(i)).len() + j < flat(bs).len(),
        flat(bs)[flat(bs.take(i)).len() + j] == bs[i][j],
    decreases bs.len(),
{
    let d = bs.drop_last();
    if i == bs.len() - 1 {
        assert(bs.take(i) =~= d);
    } else {
        assert(d.take(i) =~= bs.take(i));
        assert(d[i] == bs[i]);
        lemma_flat_index(d, i, j);
    }
}

proof fn lemma_flat_starts(bs: Seq<Seq<(Seq<u8>, Seq<u8>)>>, i: int, j: int)
    requires
        0 <= i < j <= bs.len(),
    ensures
        flat(bs.take(i)).len() + bs[i].len() <= flat(bs.take(j)).len(),
    decreases j - i,
{
    assert(bs.take(i + 1).drop_last() =~= bs.take(i));
    if j > i + 1 {
        lemma_flat_starts(bs, i + 1, j);
    }
}

/// In a table whose keys ascend strictly, the blocks' key ranges ascend and
/// do not overlap, every key lies in the range of its own block, and the
/// first and last keys are the smallest and largest of all.
pub proof fn lemma_table_key_ranges(bs: Seq<Seq<(Seq<u8>, Seq<u8>)>>)
    requires
        forall|i: int| 0 <= i < bs.len() ==> #[trigger] bs[i].len() > 0,
        strictly_ascending(keys_of(flat(bs))),
    ensures
        forall|i: int, j: int|
            0 <= i < j < bs.len() ==> key_lt(#[trigger] bs[i].last().0, #[trigger] bs[j][0].0),
        forall|i: int, e: int|
            0 <= i < bs.len() && 0 <= e < bs[i].len() ==> key_le(bs[i][0].0, #[trigger] bs[i][e].0)
                && key_le(bs[i][e].0, bs[i].last().0),
        forall|k: int|
            0 <= k < flat(bs).len() ==> key_le(flat(bs)[0].0, #[trigger] flat(bs)[k].0) && key_le(
                flat(bs)[k].0,
                flat(bs).last().0,
            ),
{
    let f = flat(bs);
    let ks = keys_of(f);
    assert forall|p: int, q: int| 0 <= p < q < f.len() implies key_lt(#[trigger] f[p].0, #[trigger] f[q].0) by {
        assert(ks[p] == f[p].0 && ks[q] == f[q].0);
    }
    assert forall|i: int, j: int| 0 <= i < j < bs.len() implies key_lt(#[trigger] bs[i].last().0, #[trigger] bs[j][0].0) by {
        lemma_flat_index(bs, i, bs[i].len() - 1);
        lemma_flat_index(bs, j, 0);
        lemma_flat_starts(bs, i, j);
    }
    assert forall|i: int, e: int| 0 <= i < bs.len() && 0 <= e < bs[i].len() implies key_le(bs[i][0].0, #[trigger] bs[i][e].0)
        && key_le(bs[i][e].0, bs[i].last().0) by {
        lemma_flat_index(bs, i, 0);
        lemma_flat_index(bs, i, e);
        lemma_flat_index(bs, i, bs[i].len() - 1);
    }
}

} // verus!
