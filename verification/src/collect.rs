//! Build-phase data structures: `Block` (one payload), `Shelf` (all
//! blocks of one exact length), and `Collector` (the shelves, kept in
//! ascending block-size order, plus the press algorithm that lays them
//! out as header, run descriptors, and a concatenated data region).
use vstd::prelude::*;
use crate::codec::Header;
use crate::codec::RunDesc;
use crate::codec::FILE_MAGIC;
use crate::codec::FORMAT_VERSION;
use crate::codec::HEADER_SIZE;
use crate::codec::RUN_DESC_SIZE;
use crate::codec::spec_header_at;
use crate::codec::spec_run_desc_at;
use crate::error::Error;

verus! {

/// The mathematical content of a shelf: its block size and the payloads
/// of its blocks, in arrival order.
pub struct ShelfV {
    pub block_size: nat,
    pub blocks: Seq<Seq<u8>>,
}

impl ShelfV {
    /// Every block on the shelf has exactly the shelf's block size.
    pub open spec fn wf(self) -> bool {
        forall|i: int| 0 <= i < self.blocks.len() ==> (#[trigger] self.blocks[i]).len()
            == self.block_size
    }

    /// Total number of data-region bytes this shelf's run occupies.
    pub open spec fn bulk(self) -> nat {
        self.blocks.len() * self.block_size
    }

    /// The bytes of this shelf's run: the payloads back to back, in
    /// arrival order.
    pub open spec fn data_bytes(self) -> Seq<u8> {
        self.blocks.flatten()
    }
}

/// One fixed-length payload together with a reserved 32-bit fingerprint.
/// The fingerprint is not computed and not persisted; the data region
/// holds payload bytes only.
pub struct Block {
    fingerprint: u32,
    data: Vec<u8>,
}

impl View for Block {
    type V = Seq<u8>;

    closed spec fn view(&self) -> Seq<u8> {
        self.data@
    }
}

impl Block {
    /// The reserved fingerprint field; always zero until a hashing
    /// scheme is chosen.
    pub closed spec fn spec_fingerprint(self) -> u32 {
        self.fingerprint
    }

    /// Copies the caller's bytes into a new block.
    pub fn new(data: &[u8]) -> (b: Block)
        ensures
            b@ == data@,
            b.spec_fingerprint() == 0,
    {
        Block { fingerprint: 0, data: vstd::slice::slice_to_vec(data) }
    }

    /// Number of data-region bytes this block occupies: exactly its
    /// payload length.
    pub fn size(&self) -> (n: usize)
        ensures
            n == self@.len(),
    {
        self.data.len()
    }
}

/// An ordered collection of blocks that all share one exact length.
pub struct Shelf {
    block_size: usize,
    blocks: Vec<Block>,
}

impl View for Shelf {
    type V = ShelfV;

    closed spec fn view(&self) -> ShelfV {
        ShelfV {
            block_size: self.block_size as nat,
            blocks: self.blocks@.map_values(|b: Block| b@),
        }
    }
}

impl Shelf {
    /// An empty shelf for blocks of length `block_size`.
    pub fn new(block_size: usize) -> (s: Shelf)
        ensures
            s@ == (ShelfV { block_size: block_size as nat, blocks: Seq::<Seq<u8>>::empty() }),
    {
        let s = Shelf { block_size, blocks: Vec::new() };
        proof {
            assert(s@.blocks =~= Seq::<Seq<u8>>::empty());
        }
        s
    }

    /// Appends a block, preserving arrival order. The uniform-length
    /// invariant is the caller's contract: the collector guarantees it
    /// by construction.
    pub fn add_block(&mut self, block: Block)
        requires
            block@.len() == old(self)@.block_size,
        ensures
            final(self)@ == (ShelfV {
                block_size: old(self)@.block_size,
                blocks: old(self)@.blocks.push(block@),
            }),
    {
        let ghost prev = self@;
        self.blocks.push(block);
        proof {
            assert(self@.blocks =~= prev.blocks.push(block@));
        }
    }

    /// The descriptor announcing this shelf's run at data offset
    /// `offset`.
    pub fn create_run_desc(&self, offset: usize) -> (d: RunDesc)
        requires
            self@.block_size <= u32::MAX,
            self@.blocks.len() <= u32::MAX,
            offset <= u32::MAX,
        ensures
            d == run_desc_of(self@, offset as int),
    {
        RunDesc {
            block_size: self.block_size as u32,
            count: self.blocks.len() as u32,
            offset: offset as u32,
        }
    }

    /// Number of data-region bytes this shelf's run occupies.
    pub fn bulk_size(&self) -> (n: usize)
        requires
            self@.bulk() <= usize::MAX,
        ensures
            n == self@.bulk(),
    {
        self.blocks.len() * self.block_size
    }
}

/// The descriptor that `press` writes for shelf `s` at data offset
/// `offset`.
pub open spec fn run_desc_of(s: ShelfV, offset: int) -> RunDesc
    recommends
        s.block_size <= u32::MAX,
        s.blocks.len() <= u32::MAX,
        0 <= offset <= u32::MAX,
{
    RunDesc { block_size: s.block_size as u32, count: s.blocks.len() as u32, offset: offset as u32 }
}

/// Ceiling for block sizes a freshly constructed `Collector` accepts.
pub const DEFAULT_MAX_SIZE: usize = 40;

/// The shelf set is well formed: every shelf is uniform and non-empty,
/// no shelf exceeds the configured ceiling, and the shelves are in
/// strictly ascending block-size order (so sizes are unique and the
/// pressed output is deterministic).
pub open spec fn shelves_wf(sv: Seq<ShelfV>, max: int) -> bool {
    &&& forall|i: int| 0 <= i < sv.len() ==> (#[trigger] sv[i]).wf()
    &&& forall|i: int| 0 <= i < sv.len() ==> (#[trigger] sv[i]).blocks.len() > 0
    &&& forall|i: int| 0 <= i < sv.len() ==> (#[trigger] sv[i]).block_size <= max
    &&& forall|i: int, j: int|
        #![trigger sv[i], sv[j]]
        0 <= i < j < sv.len() ==> sv[i].block_size < sv[j].block_size
}

/// What one `add` call does to the shelf set: append the payload to the
/// shelf of its exact length, creating that shelf at its sorted position
/// if it is not there yet.
pub open spec fn shelf_add(sv: Seq<ShelfV>, data: Seq<u8>) -> Seq<ShelfV>
    decreases sv.len(),
{
    if sv.len() == 0 {
        seq![ShelfV { block_size: data.len(), blocks: seq![data] }]
    } else if data.len() < sv[0].block_size {
        seq![ShelfV { block_size: data.len(), blocks: seq![data] }] + sv
    } else if data.len() == sv[0].block_size {
        seq![ShelfV { block_size: sv[0].block_size, blocks: sv[0].blocks.push(data) }]
            + sv.drop_first()
    } else {
        seq![sv[0]] + shelf_add(sv.drop_first(), data)
    }
}

/// `shelf_add` at the insertion position `i` (every earlier shelf is
/// smaller than the payload, shelf `i` — if any — is not) is an update
/// of shelf `i` when the length matches, and a fresh shelf inserted at
/// `i` otherwise.
pub proof fn lemma_shelf_add_at(sv: Seq<ShelfV>, data: Seq<u8>, i: int)
    requires
        0 <= i <= sv.len(),
        forall|k: int| 0 <= k < i ==> (#[trigger] sv[k]).block_size < data.len(),
        i < sv.len() ==> data.len() <= sv[i].block_size,
    ensures
        i < sv.len() && sv[i].block_size == data.len() ==> shelf_add(sv, data) == sv.update(
            i,
            (ShelfV { block_size: sv[i].block_size, blocks: sv[i].blocks.push(data) }),
        ),
        i == sv.len() || (i < sv.len() && data.len() < sv[i].block_size) ==> shelf_add(sv, data)
            == sv.insert(i, (ShelfV { block_size: data.len(), blocks: seq![data] })),
    decreases i,
{
    let fresh = ShelfV { block_size: data.len(), blocks: seq![data] };
    if i == 0 {
        if sv.len() == 0 {
            assert(shelf_add(sv, data) =~= sv.insert(0, fresh));
        } else if data.len() < sv[0].block_size {
            assert(shelf_add(sv, data) =~= sv.insert(0, fresh));
        } else {
            let upd = ShelfV { block_size: sv[0].block_size, blocks: sv[0].blocks.push(data) };
            assert(shelf_add(sv, data) =~= sv.update(0, upd));
        }
    } else {
        assert(sv[0].block_size < data.len());
        let rest = sv.drop_first();
        lemma_shelf_add_at(rest, data, i - 1);
        if i < sv.len() && sv[i].block_size == data.len() {
            let upd = ShelfV { block_size: sv[i].block_size, blocks: sv[i].blocks.push(data) };
            assert(rest[i - 1] == sv[i]);
            assert(shelf_add(sv, data) =~= sv.update(i, upd)) by {
                assert(shelf_add(rest, data) == rest.update(i - 1, upd));
            }
        } else {
            assert(shelf_add(sv, data) =~= sv.insert(i, fresh)) by {
                assert(shelf_add(rest, data) == rest.insert(i - 1, fresh));
                rest.insert_ensures(i - 1, fresh);
                sv.insert_ensures(i, fresh);
            }
        }
    }
}

/// Owns the shelves, keyed by block length in strictly ascending order,
/// and the `max_size` ceiling above which blocks are rejected.
pub struct Collector {
    max_size: usize,
    shelves: Vec<Shelf>,
}

impl View for Collector {
    type V = Seq<ShelfV>;

    closed spec fn view(&self) -> Seq<ShelfV> {
        self.shelves@.map_values(|s: Shelf| s@)
    }
}

impl Collector {
    /// The configured ceiling on block sizes.
    pub closed spec fn spec_max_size(self) -> int {
        self.max_size as int
    }

    /// The collector's internal invariant.
    pub open spec fn wf(self) -> bool {
        shelves_wf(self@, self.spec_max_size())
    }

    /// An empty collector with the default block-size ceiling.
    pub fn new() -> (c: Collector)
        ensures
            c.wf(),
            c@ == Seq::<ShelfV>::empty(),
            c.spec_max_size() == DEFAULT_MAX_SIZE as int,
    {
        Self::with_max_size(DEFAULT_MAX_SIZE)
    }

    /// An empty collector that rejects blocks longer than `max_size`.
    pub fn with_max_size(max_size: usize) -> (c: Collector)
        ensures
            c.wf(),
            c@ == Seq::<ShelfV>::empty(),
            c.spec_max_size() == max_size as int,
    {
        let c = Collector { max_size, shelves: Vec::new() };
        proof {
            assert(c@ =~= Seq::<ShelfV>::empty());
        }
        c
    }

    /// Number of shelves, i.e. of distinct block lengths seen so far.
    pub fn shelf_count(&self) -> (n: usize)
        ensures
            n == self@.len(),
    {
        self.shelves.len()
    }

    /// Block length of shelf `i` (shelves are in ascending length order).
    pub fn shelf_block_size(&self, i: usize) -> (n: usize)
        requires
            i < self@.len(),
        ensures
            n == self@[i as int].block_size,
    {
        self.shelves[i].block_size
    }

    /// Number of blocks on shelf `i`.
    pub fn shelf_len(&self, i: usize) -> (n: usize)
        requires
            i < self@.len(),
        ensures
            n == self@[i as int].blocks.len(),
    {
        self.shelves[i].blocks.len()
    }

    /// Accepts the payload unless it exceeds the ceiling. On success the
    /// shelf set changes exactly as `shelf_add` says; a rejected payload
    /// leaves the collector untouched, so one oversized block never
    /// poisons the build.
    pub fn add(&mut self, data: &[u8]) -> (r: Result<(), Error>)
        requires
            old(self).wf(),
        ensures
            final(self).wf(),
            final(self).spec_max_size() == old(self).spec_max_size(),
            data@.len() > old(self).spec_max_size() ==> r == Err::<(), Error>(
                Error::TooLarge(data@.len() as usize),
            ) && *final(self) == *old(self),
            data@.len() <= old(self).spec_max_size() ==> r == Ok::<(), Error>(()) && final(self)@
                == shelf_add(old(self)@, data@),
    {
        let block_len = data.len();
        if block_len > self.max_size {
            return Err(Error::TooLarge(block_len));
        }
        let ghost sv = self@;
        let mut i: usize = 0;
        while i < self.shelves.len() && self.shelves[i].block_size < block_len
            invariant
                i <= sv.len(),
                *self == *old(self),
                sv == self@,
                forall|k: int| 0 <= k < i ==> (#[trigger] sv[k]).block_size < block_len,
                block_len == data@.len(),
            decreases sv.len() - i,
        {
            proof {
                assert(sv[i as int].block_size == self.shelves@[i as int]@.block_size);
            }
            i = i + 1;
        }
        proof {
            assert(i < sv.len() ==> sv[i as int].block_size >= block_len);
            lemma_shelf_add_at(sv, data@, i as int);
        }
        let block = Block::new(data);
        if i < self.shelves.len() && self.shelves[i].block_size == block_len {
            let ghost upd = ShelfV {
                block_size: sv[i as int].block_size,
                blocks: sv[i as int].blocks.push(data@),
            };
            self.shelves[i].add_block(block);
            proof {
                assert(self@ =~= sv.update(i as int, upd));
                assert(shelf_add(sv, data@) == sv.update(i as int, upd));
                assert(self.wf()) by {
                    let nv = self@;
                    assert(forall|k: int|
                        0 <= k < nv.len() ==> #[trigger] nv[k].block_size == sv[k].block_size);
                    assert(upd.wf());
                }
            }
        } else {
            let mut shelf = Shelf::new(block_len);
            shelf.add_block(block);
            let ghost fresh = ShelfV { block_size: data@.len(), blocks: seq![data@] };
            proof {
                assert(shelf@ =~= fresh);
                assert(shelf_add(sv, data@) == sv.insert(i as int, fresh));
            }
            self.shelves.insert(i, shelf);
            proof {
                assert(self@ =~= sv.insert(i as int, fresh)) by {
                    sv.insert_ensures(i as int, fresh);
                }
                assert(self.wf()) by {
                    let nv = self@;
                    sv.insert_ensures(i as int, fresh);
                    assert(fresh.wf());
                    assert(forall|k: int|
                        0 <= k < i ==> #[trigger] nv[k].block_size == sv[k].block_size);
                    assert(forall|k: int|
                        i < k < nv.len() ==> #[trigger] nv[k].block_size == sv[k - 1].block_size);
                    assert(forall|k: int, l: int|
                        #![trigger nv[k], nv[l]]
                        0 <= k < l < nv.len() ==> nv[k].block_size < nv[l].block_size);
                }
            }
        }
        Ok(())
    }

    /// Decides, with overflow-safe arithmetic, whether the current
    /// shelf set can be laid out at all: every descriptor field of the
    /// wire format is 32 bits, so `press` demands this. Always true in
    /// practice, but the format limit is the caller's to check.
    pub fn layout_fits(&self) -> (b: bool)
        ensures
            b == press_fits(self@),
    {
        let ghost sv = self@;
        let run_count = self.shelves.len();
        if run_count > (u32::MAX as usize) / RUN_DESC_SIZE {
            return false;
        }
        proof {
            assert(run_count * RUN_DESC_SIZE <= u32::MAX) by (nonlinear_arith)
                requires
                    run_count <= (u32::MAX as usize) / RUN_DESC_SIZE,
            ;
        }
        let mut total: u64 = (run_count as u64) * (RUN_DESC_SIZE as u64);
        proof {
            assert(sv.take(0) =~= Seq::<ShelfV>::empty());
        }
        let mut i: usize = 0;
        while i < run_count
            invariant
                i <= sv.len(),
                run_count == sv.len(),
                sv == self@,
                total == base_offset(sv) + total_bulk(sv.take(i as int)),
                total <= u32::MAX,
                forall|k: int| 0 <= k < i ==> (#[trigger] sv[k]).block_size <= u32::MAX,
                forall|k: int| 0 <= k < i ==> (#[trigger] sv[k]).blocks.len() <= u32::MAX,
            decreases sv.len() - i,
        {
            let shelf = &self.shelves[i];
            proof {
                assert(shelf@ == sv[i as int]);
                lemma_total_bulk_prefix(sv, i as int);
                lemma_total_bulk_take_le(sv, i as int + 1);
            }
            if shelf.block_size > u32::MAX as usize {
                return false;
            }
            if shelf.blocks.len() > u32::MAX as usize {
                return false;
            }
            proof {
                assert((shelf.blocks@.len() as u64) * (shelf.block_size as u64) <= 0xffff_ffffu64
                    * 0xffff_ffffu64) by (nonlinear_arith)
                    requires
                        shelf.blocks@.len() as u64 <= 0xffff_ffffu64,
                        shelf.block_size as u64 <= 0xffff_ffffu64,
                ;
            }
            let bulk: u64 = (shelf.blocks.len() as u64) * (shelf.block_size as u64);
            proof {
                assert(bulk == sv[i as int].bulk());
            }
            if bulk > u32::MAX as u64 {
                return false;
            }
            let new_total = total + bulk;
            if new_total > u32::MAX as u64 {
                return false;
            }
            total = new_total;
            i = i + 1;
        }
        proof {
            assert(sv.take(sv.len() as int) =~= sv);
        }
        true
    }

    /// Serializes the accumulated shelves: the header, then one run
    /// descriptor per shelf in ascending block-size order with chained
    /// data offsets, then every block's payload bytes, run after run,
    /// in arrival order within each run. Appends exactly
    /// `spec_pressed(self@)` to the sink and does not mutate the
    /// collector, so pressing is deterministic in the added blocks.
    pub fn press(&self, out: &mut Vec<u8>) -> (r: Result<(), Error>)
        requires
            self.wf(),
            press_fits(self@),
        ensures
            r == Ok::<(), Error>(()),
            final(out)@ == old(out)@ + spec_pressed(self@),
    {
        let ghost sv = self@;
        let ghost base = base_offset(sv);
        broadcast use Seq::lemma_flatten_push;

        let run_count = self.shelves.len();
        proof {
            assert(sv.len() <= sv.len() * RUN_DESC_SIZE) by (nonlinear_arith);
        }
        let header = Header::new(run_count as u32);
        proof {
            assert(header == press_header(sv));
        }
        let _ = header.write_out(out);
        let mut bulk_offset: usize = run_count * RUN_DESC_SIZE;
        proof {
            assert(sv.take(0) =~= Seq::<ShelfV>::empty());
            assert(sv.skip(0) =~= sv);
        }
        let mut i: usize = 0;
        while i < run_count
            invariant
                i <= sv.len(),
                run_count == sv.len(),
                sv == self@,
                self.wf(),
                press_fits(sv),
                base == base_offset(sv),
                bulk_offset == base + total_bulk(sv.take(i as int)),
                bulk_offset <= u32::MAX,
                out@ + descs_bytes(sv.skip(i as int), bulk_offset as int) == old(out)@
                    + press_header(sv).spec_bytes() + descs_bytes(sv, base),
            decreases sv.len() - i,
        {
            let ghost prev_out = out@;
            let ghost prev_off = bulk_offset as int;
            let shelf = &self.shelves[i];
            proof {
                assert(shelf@ == sv[i as int]);
                lemma_total_bulk_prefix(sv, i as int);
                lemma_total_bulk_take_le(sv, i as int + 1);
            }
            proof {
                assert(total_bulk(sv.take(i as int + 1)) <= total_bulk(sv));
                assert(base + total_bulk(sv) <= u32::MAX) by {
                    assert(sv.len() * RUN_DESC_SIZE + total_bulk(sv) <= u32::MAX);
                    assert(base == sv.len() * RUN_DESC_SIZE);
                }
                assert(bulk_offset + sv[i as int].bulk() == base + total_bulk(sv.take(i as int + 1)));
                assert(sv[i as int].bulk() <= u32::MAX);
                assert(u32::MAX <= usize::MAX);
            }
            let desc = shelf.create_run_desc(bulk_offset);
            let size = shelf.bulk_size();
            let _ = desc.write_out(out);
            bulk_offset = bulk_offset + size;
            i = i + 1;
            proof {
                assert(sv.skip(i - 1 as int).drop_first() =~= sv.skip(i as int));
                assert(sv.skip(i - 1 as int)[0] == sv[i - 1 as int]);
                assert(descs_bytes(sv.skip(i - 1 as int), prev_off) == desc.spec_bytes()
                    + descs_bytes(sv.skip(i as int), bulk_offset as int));
                assert(out@ + descs_bytes(sv.skip(i as int), bulk_offset as int) =~= prev_out
                    + descs_bytes(sv.skip(i - 1 as int), prev_off));
            }
        }
        proof {
            assert(sv.skip(sv.len() as int) =~= Seq::<ShelfV>::empty());
            assert(out@ =~= old(out)@ + press_header(sv).spec_bytes() + descs_bytes(sv, base));
        }
        let ghost mid = out@;
        let mut i: usize = 0;
        proof {
            assert(sv.skip(0) =~= sv);
        }
        while i < run_count
            invariant
                i <= sv.len(),
                run_count == sv.len(),
                sv == self@,
                out@ + data_bytes(sv.skip(i as int)) == mid + data_bytes(sv),
            decreases sv.len() - i,
        {
            let ghost outer_out = out@;
            let shelf = &self.shelves[i];
            proof {
                assert(shelf@ == sv[i as int]);
                assert(shelf@.blocks.take(0) =~= Seq::<Seq<u8>>::empty());
            }
            let mut j: usize = 0;
            while j < shelf.blocks.len()
                invariant
                    j <= shelf@.blocks.len(),
                    out@ == outer_out + shelf@.blocks.take(j as int).flatten(),
                decreases shelf@.blocks.len() - j,
            {
                proof {
                    assert(shelf@.blocks[j as int] == shelf.blocks@[j as int]@);
                }
                push_bytes(out, &shelf.blocks[j].data);
                j = j + 1;
                proof {
                    let done = shelf@.blocks.take(j - 1 as int);
                    let piece = shelf@.blocks[j - 1 as int];
                    assert(shelf@.blocks.take(j as int) =~= done.push(piece));
                    done.lemma_flatten_push(piece);
                    assert(out@ =~= outer_out + shelf@.blocks.take(j as int).flatten());
                }
            }
            i = i + 1;
            proof {
                assert(shelf@.blocks.take(shelf@.blocks.len() as int) =~= shelf@.blocks);
                assert(sv.skip(i - 1 as int).drop_first() =~= sv.skip(i as int));
                assert(sv.skip(i - 1 as int)[0] == sv[i - 1 as int]);
                assert(data_bytes(sv.skip(i - 1 as int)) == sv[i - 1 as int].data_bytes()
                    + data_bytes(sv.skip(i as int)));
                assert(out@ + data_bytes(sv.skip(i as int)) =~= outer_out + data_bytes(
                    sv.skip(i - 1 as int),
                ));
            }
        }
        proof {
            assert(sv.skip(sv.len() as int) =~= Seq::<ShelfV>::empty());
            assert(out@ =~= old(out)@ + spec_pressed(sv));
        }
        Ok(())
    }
}

/// What a fresh collector holds after the call sequence `inputs` of
/// `add` calls under the ceiling `max`: each accepted payload is folded
/// in with `shelf_add`, and a rejected payload leaves no trace.
pub open spec fn collect_all(inputs: Seq<Seq<u8>>, max: int) -> Seq<ShelfV>
    decreases inputs.len(),
{
    if inputs.len() == 0 {
        Seq::empty()
    } else {
        let prev = collect_all(inputs.drop_last(), max);
        if inputs.last().len() <= max {
            shelf_add(prev, inputs.last())
        } else {
            prev
        }
    }
}

/// Law: determinism. One more `add` call takes `collect_all` one
/// `shelf_add` step further (or none, when the payload is rejected),
/// exactly as `add`'s own contract says. So the shelf set after any
/// sequence of `add` calls — and with `press`'s contract the pressed
/// bytes — is a pure function of the payload sequence and the ceiling:
/// two fresh collectors fed the same payloads press identical output.
pub proof fn lemma_collect_all_step(inputs: Seq<Seq<u8>>, data: Seq<u8>, max: int)
    ensures
        collect_all(inputs.push(data), max) == if data.len() <= max {
            shelf_add(collect_all(inputs, max), data)
        } else {
            collect_all(inputs, max)
        },
{
    assert(inputs.push(data).drop_last() =~= inputs);
    assert(inputs.push(data).last() == data);
}

/// Total number of data-region bytes of all runs together.
pub open spec fn total_bulk(sv: Seq<ShelfV>) -> nat
    decreases sv.len(),
{
    if sv.len() == 0 {
        0
    } else {
        sv[0].bulk() + total_bulk(sv.drop_first())
    }
}

/// The run-descriptor table for `sv`, with the first run's data at
/// `offset` and each later run chained right behind its predecessor.
pub open spec fn descs_bytes(sv: Seq<ShelfV>, offset: int) -> Seq<u8>
    decreases sv.len(),
{
    if sv.len() == 0 {
        Seq::empty()
    } else {
        run_desc_of(sv[0], offset).spec_bytes() + descs_bytes(
            sv.drop_first(),
            offset + sv[0].bulk(),
        )
    }
}

/// The data region for `sv`: every run's payload bytes, run after run.
pub open spec fn data_bytes(sv: Seq<ShelfV>) -> Seq<u8>
    decreases sv.len(),
{
    if sv.len() == 0 {
        Seq::empty()
    } else {
        sv[0].data_bytes() + data_bytes(sv.drop_first())
    }
}

/// The header that `press` writes for the shelf set `sv`.
pub open spec fn press_header(sv: Seq<ShelfV>) -> Header {
    Header { magic: FILE_MAGIC, version: FORMAT_VERSION, run_count: sv.len() as u32 }
}

/// Offset of the first run's data, counted from the end of the header:
/// the descriptor table comes first, so the data region starts right
/// after `sv.len()` fixed-size descriptors.
pub open spec fn base_offset(sv: Seq<ShelfV>) -> int {
    sv.len() * RUN_DESC_SIZE
}

/// The complete pressed output for the shelf set `sv`: header, then the
/// descriptor table, then the data region.
pub open spec fn spec_pressed(sv: Seq<ShelfV>) -> Seq<u8> {
    press_header(sv).spec_bytes() + descs_bytes(sv, base_offset(sv)) + data_bytes(sv)
}

/// All descriptor fields of the layout for `sv` fit in their 32-bit
/// encodings. This is what the wire format itself forces; `press`
/// requires it.
pub open spec fn press_fits(sv: Seq<ShelfV>) -> bool {
    &&& sv.len() * RUN_DESC_SIZE + total_bulk(sv) <= u32::MAX
    &&& forall|i: int| 0 <= i < sv.len() ==> (#[trigger] sv[i]).block_size <= u32::MAX
    &&& forall|i: int| 0 <= i < sv.len() ==> (#[trigger] sv[i]).blocks.len() <= u32::MAX
}

/// A uniform shelf's run is exactly `count * block_size` bytes long.
pub proof fn lemma_uniform_data_len(s: ShelfV)
    requires
        s.wf(),
    ensures
        s.data_bytes().len() == s.bulk(),
    decreases s.blocks.len(),
{
    if s.blocks.len() == 0 {
        assert(s.blocks.flatten().len() == 0);
    } else {
        let rest = ShelfV { block_size: s.block_size, blocks: s.blocks.drop_first() };
        lemma_uniform_data_len(rest);
        assert(s.blocks.flatten() == s.blocks[0] + rest.blocks.flatten());
        assert(s.block_size + (s.blocks.len() - 1) * s.block_size == s.blocks.len()
            * s.block_size) by (nonlinear_arith);
    }
}

/// Extending a prefix of the shelf set by one shelf grows its total
/// bulk by exactly that shelf's bulk.
pub proof fn lemma_total_bulk_prefix(sv: Seq<ShelfV>, i: int)
    requires
        0 <= i < sv.len(),
    ensures
        total_bulk(sv.take(i)) + sv[i].bulk() == total_bulk(sv.take(i + 1)),
    decreases i,
{
    if i == 0 {
        assert(sv.take(0) =~= Seq::<ShelfV>::empty());
        assert(sv.take(1) =~= seq![sv[0]]);
        assert(seq![sv[0]].drop_first() =~= Seq::<ShelfV>::empty());
    } else {
        let rest = sv.drop_first();
        lemma_total_bulk_prefix(rest, i - 1);
        assert(sv.take(i).drop_first() =~= rest.take(i - 1));
        assert(sv.take(i + 1).drop_first() =~= rest.take(i));
        assert(sv.take(i)[0] == sv[0]);
        assert(sv.take(i + 1)[0] == sv[0]);
    }
}

/// A prefix never has more bulk than the whole shelf set.
pub proof fn lemma_total_bulk_take_le(sv: Seq<ShelfV>, i: int)
    requires
        0 <= i <= sv.len(),
    ensures
        total_bulk(sv.take(i)) <= total_bulk(sv),
    decreases sv.len() - i,
{
    if i == sv.len() {
        assert(sv.take(i) =~= sv);
    } else {
        lemma_total_bulk_prefix(sv, i);
        lemma_total_bulk_take_le(sv, i + 1);
    }
}

/// The descriptor table is `RUN_DESC_SIZE` bytes per shelf, wherever
/// the first run's data starts.
pub proof fn lemma_descs_bytes_len(sv: Seq<ShelfV>, offset: int)
    ensures
        descs_bytes(sv, offset).len() == sv.len() * RUN_DESC_SIZE,
    decreases sv.len(),
{
    vstd::bytes::lemma_auto_spec_u32_to_from_le_bytes();
    if sv.len() > 0 {
        lemma_descs_bytes_len(sv.drop_first(), offset + sv[0].bulk());
    }
}

/// The data region is exactly the total bulk of all uniform shelves.
pub proof fn lemma_data_bytes_len(sv: Seq<ShelfV>)
    requires
        forall|i: int| 0 <= i < sv.len() ==> (#[trigger] sv[i]).wf(),
    ensures
        data_bytes(sv).len() == total_bulk(sv),
    decreases sv.len(),
{
    if sv.len() > 0 {
        lemma_uniform_data_len(sv[0]);
        lemma_data_bytes_len(sv.drop_first());
    }
}

/// Byte offset, within a pressed buffer, of the `i`-th descriptor slot.
pub open spec fn run_slot(i: int) -> int {
    HEADER_SIZE + i * RUN_DESC_SIZE
}

/// Data offset recorded in shelf `i`'s descriptor: past the descriptor
/// table and past every earlier run.
pub open spec fn run_data_offset(sv: Seq<ShelfV>, i: int) -> int {
    base_offset(sv) + total_bulk(sv.take(i))
}

/// The descriptor table holds shelf `i`'s descriptor in its `i`-th
/// fixed-size slot, with the data offset chained past all earlier runs.
pub proof fn lemma_descs_bytes_at(sv: Seq<ShelfV>, offset: int, i: int)
    requires
        0 <= i < sv.len(),
    ensures
        descs_bytes(sv, offset).subrange(i * RUN_DESC_SIZE, (i + 1) * RUN_DESC_SIZE)
            == run_desc_of(sv[i], offset + total_bulk(sv.take(i))).spec_bytes(),
    decreases i,
{
    vstd::bytes::lemma_auto_spec_u32_to_from_le_bytes();
    let head = run_desc_of(sv[0], offset).spec_bytes();
    let rest = sv.drop_first();
    let rest_bytes = descs_bytes(rest, offset + sv[0].bulk());
    assert(head.len() == RUN_DESC_SIZE);
    lemma_descs_bytes_len(rest, offset + sv[0].bulk());
    if i == 0 {
        assert(sv.take(0) =~= Seq::<ShelfV>::empty());
        assert(descs_bytes(sv, offset).subrange(0, RUN_DESC_SIZE as int) =~= head);
    } else {
        lemma_descs_bytes_at(rest, offset + sv[0].bulk(), i - 1);
        assert(descs_bytes(sv, offset).subrange(i * RUN_DESC_SIZE, (i + 1) * RUN_DESC_SIZE)
            =~= rest_bytes.subrange((i - 1) * RUN_DESC_SIZE, i * RUN_DESC_SIZE));
        assert(rest[i - 1] == sv[i]);
        assert(sv.take(i).drop_first() =~= rest.take(i - 1));
        assert(sv.take(i)[0] == sv[0]);
        assert(offset + sv[0].bulk() + total_bulk(rest.take(i - 1)) == offset + total_bulk(
            sv.take(i),
        ));
    }
}

/// Law: the pressed output is self-describing. It is exactly as long as
/// its header and descriptors claim; its header decodes back to the
/// pressed header, which passes validation; each descriptor slot
/// decodes back to exactly the descriptor pressed for that shelf; and
/// every descriptor's overrun check passes against the pressed output's
/// own length, so re-reading a pressed buffer succeeds end to end.
pub proof fn lemma_pressed_layout(sv: Seq<ShelfV>)
    requires
        forall|i: int| 0 <= i < sv.len() ==> (#[trigger] sv[i]).wf(),
        press_fits(sv),
    ensures
        spec_pressed(sv).len() == HEADER_SIZE + sv.len() * RUN_DESC_SIZE + total_bulk(sv),
        spec_header_at(spec_pressed(sv), 0) == press_header(sv),
        press_header(sv).spec_valid(),
        forall|i: int|
            0 <= i < sv.len() ==> spec_run_desc_at(spec_pressed(sv), #[trigger] run_slot(i))
                == run_desc_of(sv[i], run_data_offset(sv, i)),
        forall|i: int|
            0 <= i < sv.len() ==> spec_run_desc_at(spec_pressed(sv), #[trigger] run_slot(i)).spec_fits(
                spec_pressed(sv).len() as int,
            ),
{
    vstd::bytes::lemma_auto_spec_u32_to_from_le_bytes();
    let p = spec_pressed(sv);
    let hb = press_header(sv).spec_bytes();
    let db = descs_bytes(sv, base_offset(sv));
    lemma_descs_bytes_len(sv, base_offset(sv));
    lemma_data_bytes_len(sv);
    assert(hb.len() == HEADER_SIZE);
    assert(p.subrange(0, HEADER_SIZE as int) =~= hb);
    crate::codec::lemma_header_at_of_bytes(p, 0, press_header(sv));
    assert forall|i: int| 0 <= i < sv.len() implies spec_run_desc_at(p, #[trigger] run_slot(i))
        == run_desc_of(sv[i], run_data_offset(sv, i)) && spec_run_desc_at(p, run_slot(i)).spec_fits(
        p.len() as int,
    ) by {
        let off = run_slot(i);
        let d = run_desc_of(sv[i], run_data_offset(sv, i));
        lemma_descs_bytes_at(sv, base_offset(sv), i);
        assert((i + 1) * RUN_DESC_SIZE <= sv.len() * RUN_DESC_SIZE);
        assert(p.subrange(off, off + RUN_DESC_SIZE) =~= db.subrange(
            i * RUN_DESC_SIZE,
            (i + 1) * RUN_DESC_SIZE,
        ));
        crate::codec::lemma_run_desc_at_of_bytes(p, off, d);
        lemma_total_bulk_prefix(sv, i);
        lemma_total_bulk_take_le(sv, i + 1);
        assert(d.spec_extent() <= base_offset(sv) + total_bulk(sv)) by {
            assert(sv[i].block_size * sv[i].blocks.len() == sv[i].blocks.len()
                * sv[i].block_size) by (nonlinear_arith);
            assert(d.block_size * d.count == sv[i].bulk());
        }
    }
}

/// Appends every byte of `src` to `out`.
fn push_bytes(out: &mut Vec<u8>, src: &Vec<u8>)
    ensures
        final(out)@ == old(out)@ + src@,
{
    let mut j: usize = 0;
    while j < src.len()
        invariant
            j <= src@.len(),
            out@ == old(out)@ + src@.take(j as int),
        decreases src@.len() - j,
    {
        out.push(src[j]);
        j = j + 1;
        proof {
            assert(out@ =~= old(out)@ + src@.take(j as int));
        }
    }
    proof {
        assert(out@ =~= old(out)@ + src@);
    }
}

} // verus!
