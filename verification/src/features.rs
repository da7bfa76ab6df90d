//! Batches of feature rows and their file forms.
//!
//! The first form holds the features of all rows, then their identifiers, then their labels. The
//! second form holds the same three sections at offsets given in its header, and is read in place.

use crate::le::{
    begins_with, get_u32, get_u32s, get_u64, get_u64s, put_bytes, u32_at, u32s_at, u64_at, u64s_at,
    ReadError,
};
use vstd::prelude::*;

verus! {

/// First bytes of the form whose sections follow each other.
pub open spec fn magic_features_v1() -> Seq<u8> {
    seq![76u8, 49, 70, 69, 65, 84, 118, 49, 0]
}

/// First bytes of the form with section offsets.
pub open spec fn magic_features_v2() -> Seq<u8> {
    seq![76u8, 49, 70, 69, 65, 84, 118, 50, 0]
}

/// Where the features, identifiers and labels of a batch are.
#[derive(Debug)]
pub enum FeatureStorage {
    Owned { x: Vec<u32>, ids: Vec<i64>, y: Vec<u8> },
    InPlace { bytes: Vec<u8>, x_offset: u64, ids_offset: u64, y_offset: u64 },
}

/// Rows of single-precision features, as bit patterns.
#[derive(Debug)]
pub struct FeatureBatch {
    pub n_rows: usize,
    pub n_cols: usize,
    pub storage: FeatureStorage,
    /// Whether the rows may be scored as if no feature were missing.
    pub nan_free: bool,
}

/// Why a file is no batch.
#[derive(Clone, Copy, Debug, PartialEq, Eq, Structural)]
pub enum FeatureError {
    TooShort,
    UnknownMagic,
    SizeOverflow,
    LabelsTruncated,
    Read(ReadError),
}

/// What a batch holds.
#[verifier::ext_equal]
pub enum StorageModel {
    Owned { x: Seq<u32>, ids: Seq<i64>, y: Seq<u8> },
    InPlace { bytes: Seq<u8>, x_offset: int, ids_offset: int, y_offset: int },
}

/// What a batch holds.
#[verifier::ext_equal]
pub struct BatchModel {
    pub n_rows: int,
    pub n_cols: int,
    pub storage: StorageModel,
    pub nan_free: bool,
}

impl View for FeatureStorage {
    type V = StorageModel;

    open spec fn view(&self) -> StorageModel {
        match *self {
            FeatureStorage::Owned { x, ids, y } => StorageModel::Owned {
                x: x@,
                ids: ids@,
                y: y@,
            },
            FeatureStorage::InPlace { bytes, x_offset, ids_offset, y_offset } => {
                StorageModel::InPlace {
                    bytes: bytes@,
                    x_offset: x_offset as int,
                    ids_offset: ids_offset as int,
                    y_offset: y_offset as int,
                }
            },
        }
    }
}

impl View for FeatureBatch {
    type V = BatchModel;

    open spec fn view(&self) -> BatchModel {
        BatchModel {
            n_rows: self.n_rows as int,
            n_cols: self.n_cols as int,
            storage: self.storage@,
            nan_free: self.nan_free,
        }
    }
}

impl BatchModel {
    /// Whether the features of row `i` are there.
    pub open spec fn has_features(self, i: int) -> bool {
        &&& 0 <= i
        &&& 0 <= self.n_cols
        &&& match self.storage {
            StorageModel::Owned { x, ids, y } => (i + 1) * self.n_cols <= x.len(),
            StorageModel::InPlace { bytes, x_offset, ids_offset, y_offset } => {
                &&& 0 <= x_offset
                &&& x_offset + 4 * ((i + 1) * self.n_cols) <= bytes.len()
            },
        }
    }

    /// Whether the identifier of row `i` is there.
    pub open spec fn has_id(self, i: int) -> bool {
        &&& 0 <= i
        &&& match self.storage {
            StorageModel::Owned { x, ids, y } => i < ids.len(),
            StorageModel::InPlace { bytes, x_offset, ids_offset, y_offset } => {
                &&& 0 <= ids_offset
                &&& ids_offset + 8 * (i + 1) <= bytes.len()
            },
        }
    }

    /// Whether the label of row `i` is there.
    pub open spec fn has_label(self, i: int) -> bool {
        &&& 0 <= i
        &&& match self.storage {
            StorageModel::Owned { x, ids, y } => i < y.len(),
            StorageModel::InPlace { bytes, x_offset, ids_offset, y_offset } => {
                &&& 0 <= y_offset
                &&& y_offset + i < bytes.len()
            },
        }
    }

    /// Whether the features, the identifier and the label of row `i` are there.
    pub open spec fn has_row(self, i: int) -> bool {
        self.has_features(i) && self.has_id(i) && self.has_label(i)
    }

    /// The features of row `i`.
    pub open spec fn row(self, i: int) -> Seq<u32> {
        match self.storage {
            StorageModel::Owned { x, ids, y } => x.subrange(
                i * self.n_cols,
                (i + 1) * self.n_cols,
            ),
            StorageModel::InPlace { bytes, x_offset, ids_offset, y_offset } => u32s_at(
                bytes,
                x_offset + 4 * (i * self.n_cols),
                self.n_cols as nat,
            ),
        }
    }

    /// The identifier of row `i`.
    pub open spec fn id(self, i: int) -> i64 {
        match self.storage {
            StorageModel::Owned { x, ids, y } => ids[i],
            StorageModel::InPlace { bytes, x_offset, ids_offset, y_offset } => u64_at(
                bytes,
                ids_offset + 8 * i,
            ) as i64,
        }
    }

    /// The label of row `i`.
    pub open spec fn label(self, i: int) -> u8 {
        match self.storage {
            StorageModel::Owned { x, ids, y } => y[i],
            StorageModel::InPlace { bytes, x_offset, ids_offset, y_offset } => bytes[y_offset + i],
        }
    }
}

/// Eight-byte numbers taken as signed.
pub open spec fn signed(s: Seq<u64>) -> Seq<i64> {
    Seq::new(s.len(), |i: int| s[i] as i64)
}

/// What the file `b` holds, or why it is no batch.
pub open spec fn parse_features(b: Seq<u8>) -> Result<BatchModel, FeatureError> {
    let rows = u32_at(b, 9) as int;
    let cols = u32_at(b, 13) as int;
    let ids_off = 17 + 4 * (rows * cols);
    let y_off = ids_off + 8 * rows;
    if b.len() < 17 {
        Err(FeatureError::TooShort)
    } else if b.subrange(0, 9) == magic_features_v1() {
        if rows * cols > usize::MAX {
            Err(FeatureError::SizeOverflow)
        } else if ids_off > b.len() {
            Err(FeatureError::Read(ReadError::Single))
        } else if y_off > b.len() {
            Err(FeatureError::Read(ReadError::I64))
        } else if y_off + rows > b.len() {
            Err(FeatureError::LabelsTruncated)
        } else {
            Ok(
                BatchModel {
                    n_rows: rows,
                    n_cols: cols,
                    storage: StorageModel::Owned {
                        x: u32s_at(b, 17, (rows * cols) as nat),
                        ids: signed(u64s_at(b, ids_off, rows as nat)),
                        y: b.subrange(y_off, y_off + rows),
                    },
                    nan_free: true,
                },
            )
        }
    } else if b.subrange(0, 9) == magic_features_v2() {
        if b.len() < 41 {
            Err(FeatureError::Read(ReadError::U64))
        } else {
            Ok(
                BatchModel {
                    n_rows: rows,
                    n_cols: cols,
                    storage: StorageModel::InPlace {
                        bytes: b,
                        x_offset: u64_at(b, 17) as int,
                        ids_offset: u64_at(b, 25) as int,
                        y_offset: u64_at(b, 33) as int,
                    },
                    nan_free: true,
                },
            )
        }
    } else {
        Err(FeatureError::UnknownMagic)
    }
}

/// Takes eight-byte numbers as signed.
pub(crate) fn to_signed(v: &Vec<u64>) -> (r: Vec<i64>)
    ensures
        r@ == signed(v@),
{
    let mut out: Vec<i64> = Vec::new();
    let mut i: usize = 0;
    while i < v.len()
        invariant
            i <= v@.len(),
            out@ == signed(v@.take(i as int)),
        decreases v@.len() - i,
    {
        out.push(v[i] as i64);
        i += 1;
        assert(out@ =~= signed(v@.take(i as int)));
    }
    assert(v@.take(i as int) =~= v@);
    out
}

/// Reads a batch out of the bytes of its file.
pub fn load_features(buf: &[u8]) -> (r: Result<FeatureBatch, FeatureError>)
    ensures
        match r {
            Ok(b) => parse_features(buf@) == Ok::<BatchModel, FeatureError>(b@),
            Err(e) => parse_features(buf@) == Err::<BatchModel, FeatureError>(e),
        },
{
    let len: usize = buf.len();
    if len < 17 {
        return Err(FeatureError::TooShort);
    }
    let v1: [u8; 9] = [76, 49, 70, 69, 65, 84, 118, 49, 0];
    let v2: [u8; 9] = [76, 49, 70, 69, 65, 84, 118, 50, 0];
    assert(v1@ =~= magic_features_v1());
    assert(v2@ =~= magic_features_v2());
    let rows: u32 = get_u32(buf, 9);
    let cols: u32 = get_u32(buf, 13);
    if begins_with(buf, v1.as_slice()) {
        assert(rows * cols <= 0xffff_ffff * 0xffff_ffff) by (nonlinear_arith)
            requires
                rows <= 0xffff_ffff,
                cols <= 0xffff_ffff,
        ;
        let n: u64 = rows as u64 * cols as u64;
        if n > usize::MAX as u64 {
            return Err(FeatureError::SizeOverflow);
        }
        if n > (len as u64 - 17) / 4 {
            return Err(FeatureError::Read(ReadError::Single));
        }
        let ids_off: u64 = 17 + 4 * n;
        if rows as u64 > (len as u64 - ids_off) / 8 {
            return Err(FeatureError::Read(ReadError::I64));
        }
        let y_off: u64 = ids_off + 8 * (rows as u64);
        if rows as u64 > len as u64 - y_off {
            return Err(FeatureError::LabelsTruncated);
        }
        let x: Vec<u32> = get_u32s(buf, 17, n as usize);
        let raw: Vec<u64> = get_u64s(buf, ids_off as usize, rows as usize);
        let ids: Vec<i64> = to_signed(&raw);
        let mut y: Vec<u8> = Vec::new();
        put_bytes(
            &mut y,
            vstd::slice::slice_subrange(buf, y_off as usize, y_off as usize + rows as usize),
        );
        return Ok(
            FeatureBatch {
                n_rows: rows as usize,
                n_cols: cols as usize,
                storage: FeatureStorage::Owned { x, ids, y },
                nan_free: true,
            },
        );
    }
    if begins_with(buf, v2.as_slice()) {
        if len < 41 {
            return Err(FeatureError::Read(ReadError::U64));
        }
        let mut bytes: Vec<u8> = Vec::new();
        put_bytes(&mut bytes, buf);
        assert(bytes@ =~= buf@);
        return Ok(
            FeatureBatch {
                n_rows: rows as usize,
                n_cols: cols as usize,
                storage: FeatureStorage::InPlace {
                    bytes,
                    x_offset: get_u64(buf, 17),
                    ids_offset: get_u64(buf, 25),
                    y_offset: get_u64(buf, 33),
                },
                nan_free: true,
            },
        );
    }
    Err(FeatureError::UnknownMagic)
}

impl FeatureBatch {
    /// Name of the file form that the batch was read from.
    pub fn format_tag(&self) -> (r: &'static str)
        ensures
            r@ == (match self@.storage {
                StorageModel::Owned { .. } => "v1-owned"@,
                StorageModel::InPlace { .. } => "v2-mmap"@,
            }),
    {
        match &self.storage {
            FeatureStorage::Owned { x: _, ids: _, y: _ } => "v1-owned",
            FeatureStorage::InPlace { bytes: _, x_offset: _, ids_offset: _, y_offset: _ } => {
                "v2-mmap"
            },
        }
    }

    /// Whether row `i` is there in full.
    pub fn has_row(&self, i: usize) -> (r: bool)
        ensures
            r == self@.has_row(i as int),
    {
        match &self.storage {
            FeatureStorage::Owned { x, ids, y } => {
                if i >= ids.len() || i >= y.len() {
                    return false;
                }
                match (i + 1).checked_mul(self.n_cols) {
                    None => {
                        assert(x@.len() == x.len());
                        false
                    },
                    Some(n) => n <= x.len(),
                }
            },
            FeatureStorage::InPlace { bytes, x_offset, ids_offset, y_offset } => {
                let size: u64 = bytes.len() as u64;
                if *y_offset >= size || i as u64 >= size - *y_offset {
                    return false;
                }
                match (i + 1).checked_mul(self.n_cols) {
                    None => false,
                    Some(n) => {
                        *x_offset <= size && n as u64 <= (size - *x_offset) / 4 && *ids_offset
                            <= size && (i as u64) < (size - *ids_offset) / 8
                    },
                }
            },
        }
    }

    /// Whether the features of row `i` are there.
    pub fn has_features(&self, i: usize) -> (r: bool)
        ensures
            r == self@.has_features(i as int),
    {
        if self.n_cols == 0 {
            proof {
                assert((i + 1) * self.n_cols == 0) by (nonlinear_arith)
                    requires
                        self.n_cols == 0,
                ;
            }
            return match &self.storage {
                FeatureStorage::Owned { x: _, ids: _, y: _ } => true,
                FeatureStorage::InPlace { bytes, x_offset, ids_offset: _, y_offset: _ } => {
                    *x_offset <= bytes.len() as u64
                },
            };
        }
        proof {
            assert((i + 1) * self.n_cols > i) by (nonlinear_arith)
                requires
                    self.n_cols >= 1,
                    i >= 0,
            ;
        }
        match &self.storage {
            FeatureStorage::Owned { x, ids: _, y: _ } => {
                assert(x@.len() == x.len());
                if i >= x.len() {
                    return false;
                }
                match (i + 1).checked_mul(self.n_cols) {
                    None => false,
                    Some(n) => n <= x.len(),
                }
            },
            FeatureStorage::InPlace { bytes, x_offset, ids_offset: _, y_offset: _ } => {
                assert(bytes@.len() == bytes.len());
                if i >= bytes.len() {
                    return false;
                }
                let size: u64 = bytes.len() as u64;
                match (i + 1).checked_mul(self.n_cols) {
                    None => false,
                    Some(n) => *x_offset <= size && n as u64 <= (size - *x_offset) / 4,
                }
            },
        }
    }

    /// The features of a row.
    pub fn row(&self, row_idx: usize) -> (r: Vec<u32>)
        requires
            self@.has_features(row_idx as int),
        ensures
            r@ == self@.row(row_idx as int),
    {
        proof {
            lemma_row_inside(row_idx as int, self.n_cols as int);
        }
        match &self.storage {
            FeatureStorage::Owned { x, ids: _, y: _ } => {
                assert(x@.len() == x.len());
                let at: usize = row_idx * self.n_cols;
                vstd::slice::slice_to_vec(
                    vstd::slice::slice_subrange(x.as_slice(), at, at + self.n_cols),
                )
            },
            FeatureStorage::InPlace { bytes, x_offset, ids_offset: _, y_offset: _ } => {
                assert(bytes@.len() == bytes.len());
                let at: usize = *x_offset as usize + 4 * (row_idx * self.n_cols);
                get_u32s(bytes.as_slice(), at, self.n_cols)
            },
        }
    }

    /// The identifier of a row.
    pub fn id(&self, row_idx: usize) -> (r: i64)
        requires
            self@.has_id(row_idx as int),
        ensures
            r == self@.id(row_idx as int),
    {
        match &self.storage {
            FeatureStorage::Owned { x: _, ids, y: _ } => ids[row_idx],
            FeatureStorage::InPlace { bytes, x_offset: _, ids_offset, y_offset: _ } => {
                assert(bytes@.len() == bytes.len());
                get_u64(bytes.as_slice(), *ids_offset as usize + 8 * row_idx) as i64
            },
        }
    }

    /// The label of a row.
    pub fn label(&self, row_idx: usize) -> (r: u8)
        requires
            self@.has_label(row_idx as int),
        ensures
            r == self@.label(row_idx as int),
    {
        match &self.storage {
            FeatureStorage::Owned { x: _, ids: _, y } => y[row_idx],
            FeatureStorage::InPlace { bytes, x_offset: _, ids_offset: _, y_offset } => {
                assert(bytes@.len() == bytes.len());
                bytes[*y_offset as usize + row_idx]
            },
        }
    }
}

proof fn lemma_row_inside(i: int, cols: int)
    requires
        0 <= i,
        0 <= cols,
    ensures
        0 <= i * cols,
        (i + 1) * cols == i * cols + cols,
{
    assert(0 <= i * cols) by (nonlinear_arith)
        requires
            0 <= i,
            0 <= cols,
    ;
    assert((i + 1) * cols == i * cols + cols) by (nonlinear_arith);
}

/// The rows of a batch that was read from the first form all have as many features as the batch
/// has columns, and every row that the count speaks of is there.
pub proof fn law_owned_batch_is_complete(b: Seq<u8>, i: int)
    requires
        parse_features(b) matches Ok(m) && m.storage is Owned && 0 <= i < m.n_rows,
    ensures
        parse_features(b)->Ok_0.has_row(i),
        parse_features(b)->Ok_0.row(i).len() == parse_features(b)->Ok_0.n_cols,
{
    let m = parse_features(b)->Ok_0;
    assert((i + 1) * m.n_cols <= m.n_rows * m.n_cols) by (nonlinear_arith)
        requires
            i + 1 <= m.n_rows,
            0 <= m.n_cols,
    ;
    lemma_row_inside(i, m.n_cols);
}

} // verus!
