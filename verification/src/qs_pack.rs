//! The packed form of a tree ensemble that scores by candidate-leaf masks.
//!
//! Every tree starts from a set of candidate leaves, at most 128, kept as two 64-bit words. Each
//! block of the tree names a feature, looks the feature's rank up in a table of 129 entries to get
//! a bucket, and intersects the candidates with the mask of that bucket. The file form is a fixed
//! header of section offsets followed by the sections in order.

use crate::le::{
    begins_with, get_u32, get_u32s, get_u64, group_number_lens, holds_at, lemma_holds_is_subrange,
    lemma_holds_part, lemma_holds_whole, lemma_u32_back, lemma_u32s_back, lemma_u64_back,
    put_bytes, put_u32, put_u32s, put_u64, u32_at, u32_bytes, u32s_at, u32s_bytes, u64_at,
    u64_bytes, ReadError,
};
use vstd::prelude::*;

verus! {

broadcast use group_number_lens;

/// Bytes of the header: magic, three counts and the base score, seven section offsets.
pub const QS_HEADER_LEN: usize = 79;

/// Entries of a block's rank table.
pub const QS_LUT_LEN: usize = 129;

/// First bytes of a pack that keeps its headers for row scoring.
pub open spec fn magic_qs() -> Seq<u8> {
    seq![76u8, 50, 81, 83, 118, 49, 0]
}

/// First bytes of a pack without them.
pub open spec fn magic_qs_v2() -> Seq<u8> {
    seq![76u8, 50, 81, 83, 118, 50, 0]
}

/// One tree: its run of blocks, its run of leaves, and the candidates it starts from.
#[derive(Clone, Copy, Debug, PartialEq, Eq, Structural)]
pub struct QsTreeHdr {
    pub block_off: u32,
    pub block_cnt: u16,
    pub leaf_cnt: u16,
    pub leaf_val_off: u32,
    pub init_lo: u64,
    pub init_hi: u64,
}

/// One block: its feature, its buckets, and where its rank table and its masks start.
#[derive(Clone, Copy, Debug, PartialEq, Eq, Structural)]
pub struct QsBlockHdr {
    pub fid: u8,
    pub bucket_cnt: u8,
    pub miss_bucket: u8,
    pub lut_off: u32,
    pub mask_off: u32,
}

/// A set of candidate leaves: bit `i` of `lo` is leaf `i`, bit `i` of `hi` is leaf `64 + i`.
#[derive(Clone, Copy, Debug, PartialEq, Eq, Structural)]
pub struct Mask128 {
    pub lo: u64,
    pub hi: u64,
}

/// A packed ensemble. Leaf values, cuts and the base score are single-precision bit patterns.
#[derive(Debug)]
pub struct QsPack {
    pub n_features: usize,
    pub n_trees: usize,
    pub n_blocks: usize,
    pub base_score: u32,
    pub cut_offsets: Vec<u32>,
    pub cuts: Vec<u32>,
    pub tree_hdrs: Vec<QsTreeHdr>,
    pub block_hdrs: Vec<QsBlockHdr>,
    pub luts: Vec<u8>,
    pub masks: Vec<Mask128>,
    pub leaf_values: Vec<u32>,
    /// Whether row scoring and row intervals walk the trees; they see none otherwise.
    pub row_headers: bool,
}

/// What a pack holds.
#[verifier::ext_equal]
pub struct PackModel {
    pub n_features: int,
    pub n_trees: int,
    pub n_blocks: int,
    pub base_score: u32,
    pub cut_offsets: Seq<u32>,
    pub cuts: Seq<u32>,
    pub tree_hdrs: Seq<QsTreeHdr>,
    pub block_hdrs: Seq<QsBlockHdr>,
    pub luts: Seq<u8>,
    pub masks: Seq<Mask128>,
    pub leaf_values: Seq<u32>,
    pub row_headers: bool,
}

impl View for QsPack {
    type V = PackModel;

    open spec fn view(&self) -> PackModel {
        PackModel {
            n_features: self.n_features as int,
            n_trees: self.n_trees as int,
            n_blocks: self.n_blocks as int,
            base_score: self.base_score,
            cut_offsets: self.cut_offsets@,
            cuts: self.cuts@,
            tree_hdrs: self.tree_hdrs@,
            block_hdrs: self.block_hdrs@,
            luts: self.luts@,
            masks: self.masks@,
            leaf_values: self.leaf_values@,
            row_headers: self.row_headers,
        }
    }
}

/// Why a file is no pack.
#[derive(Clone, Copy, Debug, PartialEq, Eq, Structural)]
pub enum PackError {
    TooShort,
    BadMagic,
    CutOffsetsOffset,
    CutsOffset,
    TreeHeadersOffset,
    BlockHeadersOffset,
    BlockHeaderTruncated,
    LutsOffset,
    LutSectionTooShort,
    LutSectionOutsideFile,
    MaskSectionTooShort,
    LeafsOffset,
    LeafSectionTooShort,
    Read(ReadError),
}

/// The tree header whose 28 bytes start at `i`.
pub open spec fn tree_hdr_at(b: Seq<u8>, i: int) -> QsTreeHdr {
    QsTreeHdr {
        block_off: u32_at(b, i),
        block_cnt: (u32_at(b, i + 4) % 0x1_0000) as u16,
        leaf_cnt: (u32_at(b, i + 4) / 0x1_0000) as u16,
        leaf_val_off: u32_at(b, i + 8),
        init_lo: u64_at(b, i + 12),
        init_hi: u64_at(b, i + 20),
    }
}

/// The block header whose 12 bytes start at `i`; the fourth byte is padding.
pub open spec fn block_hdr_at(b: Seq<u8>, i: int) -> QsBlockHdr {
    QsBlockHdr {
        fid: b[i],
        bucket_cnt: b[i + 1],
        miss_bucket: b[i + 2],
        lut_off: u32_at(b, i + 4),
        mask_off: u32_at(b, i + 8),
    }
}

/// The mask whose 16 bytes start at `i`.
pub open spec fn mask_at(b: Seq<u8>, i: int) -> Mask128 {
    Mask128 { lo: u64_at(b, i), hi: u64_at(b, i + 8) }
}

/// `n` tree headers, the first at `i`.
pub open spec fn tree_hdrs_at(b: Seq<u8>, i: int, n: nat) -> Seq<QsTreeHdr> {
    Seq::new(n, |k: int| tree_hdr_at(b, i + 28 * k))
}

/// `n` block headers, the first at `i`.
pub open spec fn block_hdrs_at(b: Seq<u8>, i: int, n: nat) -> Seq<QsBlockHdr> {
    Seq::new(n, |k: int| block_hdr_at(b, i + 12 * k))
}

/// `n` masks, the first at `i`.
pub open spec fn masks_at(b: Seq<u8>, i: int, n: nat) -> Seq<Mask128> {
    Seq::new(n, |k: int| mask_at(b, i + 16 * k))
}

/// Where the longest rank table of the blocks ends.
pub open spec fn lut_end(blocks: Seq<QsBlockHdr>) -> int
    decreases blocks.len(),
{
    if blocks.len() == 0 {
        0
    } else {
        let before = lut_end(blocks.drop_last());
        let here = blocks.last().lut_off + QS_LUT_LEN;
        if here > before {
            here
        } else {
            before
        }
    }
}

/// Where the longest run of masks of the blocks ends.
pub open spec fn mask_end(blocks: Seq<QsBlockHdr>) -> int
    decreases blocks.len(),
{
    if blocks.len() == 0 {
        0
    } else {
        let before = mask_end(blocks.drop_last());
        let here = blocks.last().mask_off + blocks.last().bucket_cnt;
        if here > before {
            here
        } else {
            before
        }
    }
}

/// Where the longest run of leaves of the trees ends.
pub open spec fn leaf_end(trees: Seq<QsTreeHdr>) -> int
    decreases trees.len(),
{
    if trees.len() == 0 {
        0
    } else {
        let before = leaf_end(trees.drop_last());
        let here = trees.last().leaf_val_off + trees.last().leaf_cnt;
        if here > before {
            here
        } else {
            before
        }
    }
}

/// What the file `b` holds, or why it is no pack: each section has to start where the one before
/// it ends, and the tables have to cover what the headers point at.
pub open spec fn qs_parse(b: Seq<u8>) -> Result<PackModel, PackError> {
    let nf = u32_at(b, 7) as int;
    let nt = u32_at(b, 11) as int;
    let nb = u32_at(b, 15) as int;
    let cuts_off = 79 + 4 * (nf + 1);
    let cut_offsets = u32s_at(b, 79, (nf + 1) as nat);
    let n_cuts = cut_offsets[nf] as int;
    let trees_off = cuts_off + 4 * n_cuts;
    let trees = tree_hdrs_at(b, trees_off, nt as nat);
    let blocks_off = trees_off + 28 * nt;
    let blocks = block_hdrs_at(b, blocks_off, nb as nat);
    let luts_off = blocks_off + 12 * nb;
    let masks_off = u64_at(b, 63) as int;
    let leafs_off = u64_at(b, 71) as int;
    let n_masks = if leafs_off < masks_off {
        0
    } else {
        (leafs_off - masks_off) / 16
    };
    if b.len() < 79 {
        Err(PackError::TooShort)
    } else if b.subrange(0, 7) != magic_qs() && b.subrange(0, 7) != magic_qs_v2() {
        Err(PackError::BadMagic)
    } else if u64_at(b, 23) != 79 {
        Err(PackError::CutOffsetsOffset)
    } else if cuts_off > b.len() {
        Err(PackError::Read(ReadError::U32))
    } else if u64_at(b, 31) != cuts_off {
        Err(PackError::CutsOffset)
    } else if trees_off > b.len() {
        Err(PackError::Read(ReadError::Single))
    } else if u64_at(b, 39) != trees_off {
        Err(PackError::TreeHeadersOffset)
    } else if blocks_off > b.len() {
        Err(
            PackError::Read(
                if (b.len() - trees_off) % 28 < 12 {
                    ReadError::U32
                } else {
                    ReadError::U64
                },
            ),
        )
    } else if u64_at(b, 47) != blocks_off {
        Err(PackError::BlockHeadersOffset)
    } else if luts_off > b.len() {
        Err(PackError::BlockHeaderTruncated)
    } else if u64_at(b, 55) != luts_off {
        Err(PackError::LutsOffset)
    } else if (masks_off < luts_off && lut_end(blocks) > 0) || (masks_off >= luts_off && masks_off
        - luts_off < lut_end(blocks)) {
        Err(PackError::LutSectionTooShort)
    } else if masks_off < luts_off || masks_off > b.len() {
        Err(PackError::LutSectionOutsideFile)
    } else if n_masks < mask_end(blocks) {
        Err(PackError::MaskSectionTooShort)
    } else if masks_off + 16 * n_masks > b.len() {
        Err(PackError::Read(ReadError::U64))
    } else if masks_off + 16 * n_masks != leafs_off {
        Err(PackError::LeafsOffset)
    } else if b.len() - leafs_off < 4 * leaf_end(trees) {
        Err(PackError::LeafSectionTooShort)
    } else {
        Ok(
            PackModel {
                n_features: nf,
                n_trees: nt,
                n_blocks: nb,
                base_score: u32_at(b, 19),
                cut_offsets,
                cuts: u32s_at(b, cuts_off, n_cuts as nat),
                tree_hdrs: trees,
                block_hdrs: blocks,
                luts: b.subrange(luts_off, masks_off),
                masks: masks_at(b, masks_off, n_masks as nat),
                leaf_values: u32s_at(b, leafs_off, leaf_end(trees) as nat),
                row_headers: b.subrange(0, 7) == magic_qs(),
            },
        )
    }
}

/// Reads `n` tree headers, the first at `i`.
fn get_tree_hdrs(buf: &[u8], i: usize, n: usize) -> (v: Vec<QsTreeHdr>)
    requires
        i + 28 * n <= buf@.len(),
    ensures
        v@ == tree_hdrs_at(buf@, i as int, n as nat),
{
    let len: usize = buf.len();
    let mut out: Vec<QsTreeHdr> = Vec::new();
    let mut k: usize = 0;
    while k < n
        invariant
            k <= n,
            i + 28 * n <= len,
            len == buf@.len(),
            out@ == tree_hdrs_at(buf@, i as int, k as nat),
        decreases n - k,
    {
        let at: usize = i + 28 * k;
        let word: u32 = get_u32(buf, at + 4);
        out.push(
            QsTreeHdr {
                block_off: get_u32(buf, at),
                block_cnt: (word % 0x1_0000) as u16,
                leaf_cnt: (word / 0x1_0000) as u16,
                leaf_val_off: get_u32(buf, at + 8),
                init_lo: get_u64(buf, at + 12),
                init_hi: get_u64(buf, at + 20),
            },
        );
        k += 1;
        assert(out@ =~= tree_hdrs_at(buf@, i as int, k as nat));
    }
    out
}

/// Reads `n` block headers, the first at `i`.
fn get_block_hdrs(buf: &[u8], i: usize, n: usize) -> (v: Vec<QsBlockHdr>)
    requires
        i + 12 * n <= buf@.len(),
    ensures
        v@ == block_hdrs_at(buf@, i as int, n as nat),
{
    let len: usize = buf.len();
    let mut out: Vec<QsBlockHdr> = Vec::new();
    let mut k: usize = 0;
    while k < n
        invariant
            k <= n,
            i + 12 * n <= len,
            len == buf@.len(),
            out@ == block_hdrs_at(buf@, i as int, k as nat),
        decreases n - k,
    {
        let at: usize = i + 12 * k;
        out.push(
            QsBlockHdr {
                fid: buf[at],
                bucket_cnt: buf[at + 1],
                miss_bucket: buf[at + 2],
                lut_off: get_u32(buf, at + 4),
                mask_off: get_u32(buf, at + 8),
            },
        );
        k += 1;
        assert(out@ =~= block_hdrs_at(buf@, i as int, k as nat));
    }
    out
}

/// Reads `n` masks, the first at `i`.
fn get_masks(buf: &[u8], i: usize, n: usize) -> (v: Vec<Mask128>)
    requires
        i + 16 * n <= buf@.len(),
    ensures
        v@ == masks_at(buf@, i as int, n as nat),
{
    let len: usize = buf.len();
    let mut out: Vec<Mask128> = Vec::new();
    let mut k: usize = 0;
    while k < n
        invariant
            k <= n,
            i + 16 * n <= len,
            len == buf@.len(),
            out@ == masks_at(buf@, i as int, k as nat),
        decreases n - k,
    {
        let at: usize = i + 16 * k;
        out.push(Mask128 { lo: get_u64(buf, at), hi: get_u64(buf, at + 8) });
        k += 1;
        assert(out@ =~= masks_at(buf@, i as int, k as nat));
    }
    out
}

/// Computes [`lut_end`].
fn max_lut_end(blocks: &Vec<QsBlockHdr>) -> (r: u64)
    ensures
        r == lut_end(blocks@),
{
    let mut r: u64 = 0;
    let mut k: usize = 0;
    while k < blocks.len()
        invariant
            k <= blocks@.len(),
            r == lut_end(blocks@.take(k as int)),
            r <= 0x1_0000_0000 + 129,
        decreases blocks@.len() - k,
    {
        let here: u64 = blocks[k].lut_off as u64 + QS_LUT_LEN as u64;
        assert(blocks@.take(k + 1).drop_last() =~= blocks@.take(k as int));
        if here > r {
            r = here;
        }
        k += 1;
    }
    assert(blocks@.take(k as int) =~= blocks@);
    r
}

/// Computes [`mask_end`].
fn max_mask_end(blocks: &Vec<QsBlockHdr>) -> (r: u64)
    ensures
        r == mask_end(blocks@),
{
    let mut r: u64 = 0;
    let mut k: usize = 0;
    while k < blocks.len()
        invariant
            k <= blocks@.len(),
            r == mask_end(blocks@.take(k as int)),
        decreases blocks@.len() - k,
    {
        let here: u64 = blocks[k].mask_off as u64 + blocks[k].bucket_cnt as u64;
        assert(blocks@.take(k + 1).drop_last() =~= blocks@.take(k as int));
        if here > r {
            r = here;
        }
        k += 1;
    }
    assert(blocks@.take(k as int) =~= blocks@);
    r
}

/// Computes [`leaf_end`].
fn max_leaf_end(trees: &Vec<QsTreeHdr>) -> (r: u64)
    ensures
        r == leaf_end(trees@),
        r <= 0x1_0000_0000 + 0x1_0000,
{
    let mut r: u64 = 0;
    let mut k: usize = 0;
    while k < trees.len()
        invariant
            k <= trees@.len(),
            r == leaf_end(trees@.take(k as int)),
            r <= 0x1_0000_0000 + 0x1_0000,
        decreases trees@.len() - k,
    {
        let here: u64 = trees[k].leaf_val_off as u64 + trees[k].leaf_cnt as u64;
        assert(trees@.take(k + 1).drop_last() =~= trees@.take(k as int));
        if here > r {
            r = here;
        }
        k += 1;
    }
    assert(trees@.take(k as int) =~= trees@);
    r
}

/// Reads a pack out of the bytes of its file.
pub fn load_qs_pack(buf: &[u8]) -> (r: Result<QsPack, PackError>)
    ensures
        match r {
            Ok(p) => qs_parse(buf@) == Ok::<PackModel, PackError>(p@),
            Err(e) => qs_parse(buf@) == Err::<PackModel, PackError>(e),
        },
{
    let len: usize = buf.len();
    if len < QS_HEADER_LEN {
        return Err(PackError::TooShort);
    }
    let v1: [u8; 7] = [76, 50, 81, 83, 118, 49, 0];
    let v2: [u8; 7] = [76, 50, 81, 83, 118, 50, 0];
    assert(v1@ =~= magic_qs());
    assert(v2@ =~= magic_qs_v2());
    let is_v1: bool = begins_with(buf, v1.as_slice());
    if !is_v1 && !begins_with(buf, v2.as_slice()) {
        return Err(PackError::BadMagic);
    }
    let n_features: u32 = get_u32(buf, 7);
    let n_trees: u32 = get_u32(buf, 11);
    let n_blocks: u32 = get_u32(buf, 15);
    let base_score: u32 = get_u32(buf, 19);
    let size: u64 = len as u64;
    if get_u64(buf, 23) != QS_HEADER_LEN as u64 {
        return Err(PackError::CutOffsetsOffset);
    }
    let cuts_off: u64 = QS_HEADER_LEN as u64 + 4 * (n_features as u64 + 1);
    if cuts_off > size {
        return Err(PackError::Read(ReadError::U32));
    }
    let cut_offsets: Vec<u32> = get_u32s(buf, QS_HEADER_LEN, n_features as usize + 1);
    if get_u64(buf, 31) != cuts_off {
        return Err(PackError::CutsOffset);
    }
    let n_cuts: u32 = cut_offsets[n_features as usize];
    let trees_off: u64 = cuts_off + 4 * (n_cuts as u64);
    if trees_off > size {
        return Err(PackError::Read(ReadError::Single));
    }
    let cuts: Vec<u32> = get_u32s(buf, cuts_off as usize, n_cuts as usize);
    if get_u64(buf, 39) != trees_off {
        return Err(PackError::TreeHeadersOffset);
    }
    let blocks_off: u64 = trees_off + 28 * (n_trees as u64);
    if blocks_off > size {
        if (size - trees_off) % 28 < 12 {
            return Err(PackError::Read(ReadError::U32));
        }
        return Err(PackError::Read(ReadError::U64));
    }
    let tree_hdrs: Vec<QsTreeHdr> = get_tree_hdrs(buf, trees_off as usize, n_trees as usize);
    if get_u64(buf, 47) != blocks_off {
        return Err(PackError::BlockHeadersOffset);
    }
    let luts_off: u64 = blocks_off + 12 * (n_blocks as u64);
    if luts_off > size {
        return Err(PackError::BlockHeaderTruncated);
    }
    let block_hdrs: Vec<QsBlockHdr> = get_block_hdrs(buf, blocks_off as usize, n_blocks as usize);
    if get_u64(buf, 55) != luts_off {
        return Err(PackError::LutsOffset);
    }
    let masks_off: u64 = get_u64(buf, 63);
    let leafs_off: u64 = get_u64(buf, 71);
    if masks_off.saturating_sub(luts_off) < max_lut_end(&block_hdrs) {
        return Err(PackError::LutSectionTooShort);
    }
    if masks_off < luts_off || masks_off > size {
        return Err(PackError::LutSectionOutsideFile);
    }
    let mut luts: Vec<u8> = Vec::new();
    put_bytes(&mut luts, vstd::slice::slice_subrange(buf, luts_off as usize, masks_off as usize));
    let n_masks: u64 = leafs_off.saturating_sub(masks_off) / 16;
    if n_masks < max_mask_end(&block_hdrs) {
        return Err(PackError::MaskSectionTooShort);
    }
    if n_masks > (size - masks_off) / 16 {
        return Err(PackError::Read(ReadError::U64));
    }
    let masks: Vec<Mask128> = get_masks(buf, masks_off as usize, n_masks as usize);
    if masks_off + 16 * n_masks != leafs_off {
        return Err(PackError::LeafsOffset);
    }
    let n_leafs: u64 = max_leaf_end(&tree_hdrs);
    if size - leafs_off < 4 * n_leafs {
        return Err(PackError::LeafSectionTooShort);
    }
    let leaf_values: Vec<u32> = get_u32s(buf, leafs_off as usize, n_leafs as usize);
    Ok(
        QsPack {
            n_features: n_features as usize,
            n_trees: n_trees as usize,
            n_blocks: n_blocks as usize,
            base_score,
            cut_offsets,
            cuts,
            tree_hdrs,
            block_hdrs,
            luts,
            masks,
            leaf_values,
            row_headers: is_v1,
        },
    )
}

/// The 28 bytes of a tree header.
pub open spec fn tree_hdr_bytes(h: QsTreeHdr) -> Seq<u8> {
    u32_bytes(h.block_off) + u32_bytes((h.block_cnt + 0x1_0000 * h.leaf_cnt) as u32) + u32_bytes(
        h.leaf_val_off,
    ) + u64_bytes(h.init_lo) + u64_bytes(h.init_hi)
}

/// The 12 bytes of a block header.
pub open spec fn block_hdr_bytes(h: QsBlockHdr) -> Seq<u8> {
    seq![h.fid, h.bucket_cnt, h.miss_bucket, 0u8] + u32_bytes(h.lut_off) + u32_bytes(h.mask_off)
}

/// The 16 bytes of a mask.
pub open spec fn mask_bytes(m: Mask128) -> Seq<u8> {
    u64_bytes(m.lo) + u64_bytes(m.hi)
}

/// The bytes of the headers of `s`, in order.
pub open spec fn tree_hdrs_bytes(s: Seq<QsTreeHdr>) -> Seq<u8>
    decreases s.len(),
{
    if s.len() == 0 {
        Seq::empty()
    } else {
        tree_hdrs_bytes(s.drop_last()) + tree_hdr_bytes(s.last())
    }
}

/// The bytes of the headers of `s`, in order.
pub open spec fn block_hdrs_bytes(s: Seq<QsBlockHdr>) -> Seq<u8>
    decreases s.len(),
{
    if s.len() == 0 {
        Seq::empty()
    } else {
        block_hdrs_bytes(s.drop_last()) + block_hdr_bytes(s.last())
    }
}

/// The bytes of the masks of `s`, in order.
pub open spec fn masks_bytes(s: Seq<Mask128>) -> Seq<u8>
    decreases s.len(),
{
    if s.len() == 0 {
        Seq::empty()
    } else {
        masks_bytes(s.drop_last()) + mask_bytes(s.last())
    }
}

impl PackModel {
    /// Where the cuts start in the written file.
    pub open spec fn cuts_off(self) -> int {
        79 + 4 * (self.cut_offsets.len() as int)
    }

    /// Where the headers of trees start.
    pub open spec fn trees_off(self) -> int {
        self.cuts_off() + 4 * self.cuts.len()
    }

    /// Where the headers of blocks start.
    pub open spec fn blocks_off(self) -> int {
        self.trees_off() + 28 * self.n_trees
    }

    /// Where the rank tables start.
    pub open spec fn luts_off(self) -> int {
        self.blocks_off() + 12 * self.n_blocks
    }

    /// Where the masks start.
    pub open spec fn masks_off(self) -> int {
        self.luts_off() + self.luts.len()
    }

    /// Where the values of leaves start.
    pub open spec fn leafs_off(self) -> int {
        self.masks_off() + 16 * self.masks.len()
    }

    /// How long the written file is.
    pub open spec fn file_len(self) -> int {
        self.leafs_off() + 4 * self.leaf_values.len()
    }

    /// Whether there is a header for every tree and block that the counts speak of.
    pub open spec fn has_headers(self) -> bool {
        &&& 0 <= self.n_trees <= self.tree_hdrs.len()
        &&& 0 <= self.n_blocks <= self.block_hdrs.len()
    }

    /// Whether counts, offsets and tables agree with each other, as they do in a loaded pack.
    pub open spec fn consistent(self) -> bool {
        &&& 0 <= self.n_features <= u32::MAX
        &&& 0 <= self.n_trees <= u32::MAX
        &&& 0 <= self.n_blocks <= u32::MAX
        &&& self.cut_offsets.len() == self.n_features + 1
        &&& self.cuts.len() == self.cut_offsets.last()
        &&& self.tree_hdrs.len() == self.n_trees
        &&& self.block_hdrs.len() == self.n_blocks
        &&& lut_end(self.block_hdrs) <= self.luts.len()
        &&& mask_end(self.block_hdrs) <= self.masks.len()
        &&& self.leaf_values.len() == leaf_end(self.tree_hdrs)
    }

    /// The same ensemble without the headers for row scoring.
    pub open spec fn without_row_headers(self) -> PackModel {
        PackModel { row_headers: false, ..self }
    }
}

/// The header of the written file.
pub open spec fn qs_header_bytes(p: PackModel) -> Seq<u8> {
    magic_qs_v2() + u32_bytes(p.n_features as u32) + u32_bytes(p.n_trees as u32) + u32_bytes(
        p.n_blocks as u32,
    ) + u32_bytes(p.base_score) + u64_bytes(79) + u64_bytes(p.cuts_off() as u64) + u64_bytes(
        p.trees_off() as u64,
    ) + u64_bytes(p.blocks_off() as u64) + u64_bytes(p.luts_off() as u64) + u64_bytes(
        p.masks_off() as u64,
    ) + u64_bytes(p.leafs_off() as u64)
}

/// The bytes of the file that a pack is written as.
pub open spec fn qs_bytes(p: PackModel) -> Seq<u8> {
    qs_header_bytes(p) + u32s_bytes(p.cut_offsets) + u32s_bytes(p.cuts) + tree_hdrs_bytes(
        p.tree_hdrs.take(p.n_trees),
    ) + block_hdrs_bytes(p.block_hdrs.take(p.n_blocks)) + p.luts + masks_bytes(p.masks)
        + u32s_bytes(p.leaf_values)
}

/// Writes a pack in the form without row headers.
pub fn save_qs_pack_v2(pack: &QsPack) -> (out: Vec<u8>)
    requires
        pack@.has_headers(),
        pack@.file_len() <= usize::MAX,
    ensures
        out@ == qs_bytes(pack@),
{
    let ghost p = pack@;
    let cuts_off: u64 = 79 + 4 * (pack.cut_offsets.len() as u64);
    let trees_off: u64 = cuts_off + 4 * (pack.cuts.len() as u64);
    let blocks_off: u64 = trees_off + 28 * (pack.n_trees as u64);
    let luts_off: u64 = blocks_off + 12 * (pack.n_blocks as u64);
    let masks_off: u64 = luts_off + pack.luts.len() as u64;
    let leafs_off: u64 = masks_off + 16 * (pack.masks.len() as u64);
    let mut out: Vec<u8> = Vec::new();
    let v2: [u8; 7] = [76, 50, 81, 83, 118, 50, 0];
    assert(v2@ =~= magic_qs_v2());
    put_bytes(&mut out, v2.as_slice());
    assert(out@ =~= magic_qs_v2());
    put_u32(&mut out, pack.n_features as u32);
    put_u32(&mut out, pack.n_trees as u32);
    put_u32(&mut out, pack.n_blocks as u32);
    put_u32(&mut out, pack.base_score);
    put_u64(&mut out, 79);
    put_u64(&mut out, cuts_off);
    put_u64(&mut out, trees_off);
    put_u64(&mut out, blocks_off);
    put_u64(&mut out, luts_off);
    put_u64(&mut out, masks_off);
    put_u64(&mut out, leafs_off);
    assert(out@ == qs_header_bytes(p));
    put_u32s(&mut out, pack.cut_offsets.as_slice());
    put_u32s(&mut out, pack.cuts.as_slice());
    put_tree_hdrs(&mut out, &pack.tree_hdrs, pack.n_trees);
    put_block_hdrs(&mut out, &pack.block_hdrs, pack.n_blocks);
    put_bytes(&mut out, pack.luts.as_slice());
    put_masks(&mut out, &pack.masks);
    put_u32s(&mut out, pack.leaf_values.as_slice());
    out
}

/// Appends the first `n` headers.
fn put_tree_hdrs(out: &mut Vec<u8>, hdrs: &Vec<QsTreeHdr>, n: usize)
    requires
        n <= hdrs@.len(),
    ensures
        final(out)@ == old(out)@ + tree_hdrs_bytes(hdrs@.take(n as int)),
{
    let ghost before = out@;
    let mut k: usize = 0;
    assert(out@ =~= before + tree_hdrs_bytes(hdrs@.take(0)));
    while k < n
        invariant
            k <= n <= hdrs@.len(),
            out@ == before + tree_hdrs_bytes(hdrs@.take(k as int)),
        decreases n - k,
    {
        let h: QsTreeHdr = hdrs[k];
        put_u32(out, h.block_off);
        put_u32(out, h.block_cnt as u32 + 0x1_0000 * (h.leaf_cnt as u32));
        put_u32(out, h.leaf_val_off);
        put_u64(out, h.init_lo);
        put_u64(out, h.init_hi);
        proof {
            assert(hdrs@.take(k + 1).drop_last() =~= hdrs@.take(k as int));
            assert(out@ =~= before + (tree_hdrs_bytes(hdrs@.take(k as int)) + tree_hdr_bytes(h)));
        }
        k += 1;
    }
}

/// Appends the first `n` headers.
fn put_block_hdrs(out: &mut Vec<u8>, hdrs: &Vec<QsBlockHdr>, n: usize)
    requires
        n <= hdrs@.len(),
    ensures
        final(out)@ == old(out)@ + block_hdrs_bytes(hdrs@.take(n as int)),
{
    let ghost before = out@;
    let mut k: usize = 0;
    assert(out@ =~= before + block_hdrs_bytes(hdrs@.take(0)));
    while k < n
        invariant
            k <= n <= hdrs@.len(),
            out@ == before + block_hdrs_bytes(hdrs@.take(k as int)),
        decreases n - k,
    {
        let h: QsBlockHdr = hdrs[k];
        out.push(h.fid);
        out.push(h.bucket_cnt);
        out.push(h.miss_bucket);
        out.push(0);
        put_u32(out, h.lut_off);
        put_u32(out, h.mask_off);
        proof {
            assert(hdrs@.take(k + 1).drop_last() =~= hdrs@.take(k as int));
            assert(out@ =~= before + (block_hdrs_bytes(hdrs@.take(k as int)) + block_hdr_bytes(h)));
        }
        k += 1;
    }
}

/// Appends the masks.
fn put_masks(out: &mut Vec<u8>, masks: &Vec<Mask128>)
    ensures
        final(out)@ == old(out)@ + masks_bytes(masks@),
{
    let ghost before = out@;
    let mut k: usize = 0;
    assert(out@ =~= before + masks_bytes(masks@.take(0)));
    while k < masks.len()
        invariant
            k <= masks@.len(),
            out@ == before + masks_bytes(masks@.take(k as int)),
        decreases masks@.len() - k,
    {
        put_u64(out, masks[k].lo);
        put_u64(out, masks[k].hi);
        proof {
            assert(masks@.take(k + 1).drop_last() =~= masks@.take(k as int));
            assert(out@ =~= before + (masks_bytes(masks@.take(k as int)) + mask_bytes(
                masks@[k as int],
            )));
        }
        k += 1;
    }
    assert(masks@.take(k as int) =~= masks@);
}

/// The length of written tree headers.
proof fn lemma_tree_hdrs_len(s: Seq<QsTreeHdr>)
    ensures
        tree_hdrs_bytes(s).len() == 28 * s.len(),
    decreases s.len(),
{
    if s.len() > 0 {
        lemma_tree_hdrs_len(s.drop_last());
    }
}

/// The length of written block headers.
proof fn lemma_block_hdrs_len(s: Seq<QsBlockHdr>)
    ensures
        block_hdrs_bytes(s).len() == 12 * s.len(),
    decreases s.len(),
{
    if s.len() > 0 {
        lemma_block_hdrs_len(s.drop_last());
    }
}

/// The length of written masks.
proof fn lemma_masks_len(s: Seq<Mask128>)
    ensures
        masks_bytes(s).len() == 16 * s.len(),
    decreases s.len(),
{
    if s.len() > 0 {
        lemma_masks_len(s.drop_last());
    }
}

/// Written tree headers read back as they were.
proof fn lemma_tree_hdrs_back(b: Seq<u8>, i: int, s: Seq<QsTreeHdr>)
    requires
        holds_at(b, i, tree_hdrs_bytes(s)),
    ensures
        tree_hdrs_at(b, i, s.len()) == s,
    decreases s.len(),
{
    if s.len() > 0 {
        let head = s.drop_last();
        let h = s.last();
        lemma_tree_hdrs_len(head);
        lemma_holds_part(b, i, tree_hdrs_bytes(head), tree_hdr_bytes(h));
        lemma_tree_hdrs_back(b, i, head);
        let at = i + 28 * head.len();
        let word = (h.block_cnt + 0x1_0000 * h.leaf_cnt) as u32;
        let p1 = u32_bytes(h.block_off);
        let p2 = p1 + u32_bytes(word);
        let p3 = p2 + u32_bytes(h.leaf_val_off);
        let p4 = p3 + u64_bytes(h.init_lo);
        lemma_holds_part(b, at, p4, u64_bytes(h.init_hi));
        lemma_holds_part(b, at, p3, u64_bytes(h.init_lo));
        lemma_holds_part(b, at, p2, u32_bytes(h.leaf_val_off));
        lemma_holds_part(b, at, p1, u32_bytes(word));
        lemma_u32_back(b, at, h.block_off);
        lemma_u32_back(b, at + 4, word);
        lemma_u32_back(b, at + 8, h.leaf_val_off);
        lemma_u64_back(b, at + 12, h.init_lo);
        lemma_u64_back(b, at + 20, h.init_hi);
        assert(word % 0x1_0000 == h.block_cnt && word / 0x1_0000 == h.leaf_cnt);
        assert(tree_hdr_at(b, at) == h);
        assert forall|k: int| 0 <= k < s.len() implies tree_hdrs_at(b, i, s.len())[k] == s[k] by {
            if k < head.len() {
                assert(tree_hdrs_at(b, i, head.len())[k] == head[k]);
            }
        }
        assert(tree_hdrs_at(b, i, s.len()) =~= s);
    } else {
        assert(tree_hdrs_at(b, i, s.len()) =~= s);
    }
}

/// Written block headers read back as they were.
proof fn lemma_block_hdrs_back(b: Seq<u8>, i: int, s: Seq<QsBlockHdr>)
    requires
        holds_at(b, i, block_hdrs_bytes(s)),
    ensures
        block_hdrs_at(b, i, s.len()) == s,
    decreases s.len(),
{
    if s.len() > 0 {
        let head = s.drop_last();
        let h = s.last();
        lemma_block_hdrs_len(head);
        lemma_holds_part(b, i, block_hdrs_bytes(head), block_hdr_bytes(h));
        lemma_block_hdrs_back(b, i, head);
        let at = i + 12 * head.len();
        let p1 = seq![h.fid, h.bucket_cnt, h.miss_bucket, 0u8];
        let p2 = p1 + u32_bytes(h.lut_off);
        lemma_holds_part(b, at, p2, u32_bytes(h.mask_off));
        lemma_holds_part(b, at, p1, u32_bytes(h.lut_off));
        lemma_holds_is_subrange(b, at, p1);
        let q = b.subrange(at, at + 4);
        assert(q[0] == b[at] && q[1] == b[at + 1] && q[2] == b[at + 2]);
        lemma_u32_back(b, at + 4, h.lut_off);
        lemma_u32_back(b, at + 8, h.mask_off);
        assert(block_hdr_at(b, at) == h);
        assert forall|k: int| 0 <= k < s.len() implies block_hdrs_at(b, i, s.len())[k] == s[k] by {
            if k < head.len() {
                assert(block_hdrs_at(b, i, head.len())[k] == head[k]);
            }
        }
        assert(block_hdrs_at(b, i, s.len()) =~= s);
    } else {
        assert(block_hdrs_at(b, i, s.len()) =~= s);
    }
}

/// Written masks read back as they were.
proof fn lemma_masks_back(b: Seq<u8>, i: int, s: Seq<Mask128>)
    requires
        holds_at(b, i, masks_bytes(s)),
    ensures
        masks_at(b, i, s.len()) == s,
    decreases s.len(),
{
    if s.len() > 0 {
        let head = s.drop_last();
        let m = s.last();
        lemma_masks_len(head);
        lemma_holds_part(b, i, masks_bytes(head), mask_bytes(m));
        lemma_masks_back(b, i, head);
        let at = i + 16 * head.len();
        lemma_holds_part(b, at, u64_bytes(m.lo), u64_bytes(m.hi));
        lemma_u64_back(b, at, m.lo);
        lemma_u64_back(b, at + 8, m.hi);
        assert(mask_at(b, at) == m);
        assert forall|k: int| 0 <= k < s.len() implies masks_at(b, i, s.len())[k] == s[k] by {
            if k < head.len() {
                assert(masks_at(b, i, head.len())[k] == head[k]);
            }
        }
        assert(masks_at(b, i, s.len()) =~= s);
    } else {
        assert(masks_at(b, i, s.len()) =~= s);
    }
}

/// What the header of the written file reads as.
proof fn lemma_header_back(b: Seq<u8>, p: PackModel)
    requires
        p.consistent(),
        p.file_len() <= u64::MAX,
        holds_at(b, 0, qs_header_bytes(p)),
    ensures
        qs_header_bytes(p).len() == 79,
        b.subrange(0, 7) == magic_qs_v2(),
        u32_at(b, 7) == p.n_features,
        u32_at(b, 11) == p.n_trees,
        u32_at(b, 15) == p.n_blocks,
        u32_at(b, 19) == p.base_score,
        u64_at(b, 23) == 79,
        u64_at(b, 31) == p.cuts_off(),
        u64_at(b, 39) == p.trees_off(),
        u64_at(b, 47) == p.blocks_off(),
        u64_at(b, 55) == p.luts_off(),
        u64_at(b, 63) == p.masks_off(),
        u64_at(b, 71) == p.leafs_off(),
{
    let h0 = magic_qs_v2();
    let h1 = h0 + u32_bytes(p.n_features as u32);
    let h2 = h1 + u32_bytes(p.n_trees as u32);
    let h3 = h2 + u32_bytes(p.n_blocks as u32);
    let h4 = h3 + u32_bytes(p.base_score);
    let h5 = h4 + u64_bytes(79);
    let h6 = h5 + u64_bytes(p.cuts_off() as u64);
    let h7 = h6 + u64_bytes(p.trees_off() as u64);
    let h8 = h7 + u64_bytes(p.blocks_off() as u64);
    let h9 = h8 + u64_bytes(p.luts_off() as u64);
    let h10 = h9 + u64_bytes(p.masks_off() as u64);
    lemma_holds_part(b, 0, h10, u64_bytes(p.leafs_off() as u64));
    lemma_holds_part(b, 0, h9, u64_bytes(p.masks_off() as u64));
    lemma_holds_part(b, 0, h8, u64_bytes(p.luts_off() as u64));
    lemma_holds_part(b, 0, h7, u64_bytes(p.blocks_off() as u64));
    lemma_holds_part(b, 0, h6, u64_bytes(p.trees_off() as u64));
    lemma_holds_part(b, 0, h5, u64_bytes(p.cuts_off() as u64));
    lemma_holds_part(b, 0, h4, u64_bytes(79));
    lemma_holds_part(b, 0, h3, u32_bytes(p.base_score));
    lemma_holds_part(b, 0, h2, u32_bytes(p.n_blocks as u32));
    lemma_holds_part(b, 0, h1, u32_bytes(p.n_trees as u32));
    lemma_holds_part(b, 0, h0, u32_bytes(p.n_features as u32));
    lemma_holds_is_subrange(b, 0, h0);
    lemma_u32_back(b, 7, p.n_features as u32);
    lemma_u32_back(b, 11, p.n_trees as u32);
    lemma_u32_back(b, 15, p.n_blocks as u32);
    lemma_u32_back(b, 19, p.base_score);
    lemma_u64_back(b, 23, 79);
    lemma_u64_back(b, 31, p.cuts_off() as u64);
    lemma_u64_back(b, 39, p.trees_off() as u64);
    lemma_u64_back(b, 47, p.blocks_off() as u64);
    lemma_u64_back(b, 55, p.luts_off() as u64);
    lemma_u64_back(b, 63, p.masks_off() as u64);
    lemma_u64_back(b, 71, p.leafs_off() as u64);
}

/// A pack that is written and read again is the pack that was written, without row headers.
pub proof fn law_pack_round_trip(p: PackModel)
    requires
        p.consistent(),
        p.file_len() <= u64::MAX,
    ensures
        qs_parse(qs_bytes(p)) == Ok::<PackModel, PackError>(p.without_row_headers()),
{
    let b = qs_bytes(p);
    let b0 = qs_header_bytes(p);
    let b1 = b0 + u32s_bytes(p.cut_offsets);
    let b2 = b1 + u32s_bytes(p.cuts);
    let b3 = b2 + tree_hdrs_bytes(p.tree_hdrs.take(p.n_trees));
    let b4 = b3 + block_hdrs_bytes(p.block_hdrs.take(p.n_blocks));
    let b5 = b4 + p.luts;
    let b6 = b5 + masks_bytes(p.masks);
    assert(p.tree_hdrs.take(p.n_trees) =~= p.tree_hdrs);
    assert(p.block_hdrs.take(p.n_blocks) =~= p.block_hdrs);
    lemma_tree_hdrs_len(p.tree_hdrs);
    lemma_block_hdrs_len(p.block_hdrs);
    lemma_masks_len(p.masks);
    lemma_holds_whole(b);
    lemma_holds_part(b, 0, b6, u32s_bytes(p.leaf_values));
    lemma_holds_part(b, 0, b5, masks_bytes(p.masks));
    lemma_holds_part(b, 0, b4, p.luts);
    lemma_holds_part(b, 0, b3, block_hdrs_bytes(p.block_hdrs));
    lemma_holds_part(b, 0, b2, tree_hdrs_bytes(p.tree_hdrs));
    lemma_holds_part(b, 0, b1, u32s_bytes(p.cuts));
    lemma_holds_part(b, 0, b0, u32s_bytes(p.cut_offsets));
    lemma_holds_is_subrange(b, p.luts_off(), p.luts);
    lemma_header_back(b, p);
    lemma_u32s_back(b, 79, p.cut_offsets);
    lemma_u32s_back(b, p.cuts_off(), p.cuts);
    lemma_tree_hdrs_back(b, p.trees_off(), p.tree_hdrs);
    lemma_block_hdrs_back(b, p.blocks_off(), p.block_hdrs);
    lemma_masks_back(b, p.masks_off(), p.masks);
    lemma_u32s_back(b, p.leafs_off(), p.leaf_values);
    assert(b.len() == p.file_len());
    assert(magic_qs()[5] != magic_qs_v2()[5]);
    assert((p.leafs_off() - p.masks_off()) / 16 == p.masks.len());
    assert(p.without_row_headers().masks == p.masks);
}

/// What a file is read as is consistent.
pub proof fn law_loaded_pack_is_consistent(b: Seq<u8>)
    requires
        qs_parse(b) is Ok,
    ensures
        qs_parse(b)->Ok_0.consistent(),
{
}

} // verus!
