//! What is known of each row of a batch before it is scored.

use crate::features::{signed, to_signed};
use crate::forest::{signed32, to_signed32, LoadError};
use crate::le::{
    begins_with, get_u32, get_u32s, get_u64s, u32_at, u32s_at, u64s_at, ReadError,
};
use vstd::prelude::*;

verus! {

/// For every row: identifier, fold, threshold, whether it is to be scored, and its known answer.
#[derive(Debug)]
pub struct RouteMeta {
    pub n_rows: usize,
    pub ids: Vec<i64>,
    pub fold_id: Vec<i32>,
    pub tau_used: Vec<u32>,
    pub active: Vec<u8>,
    pub exact_positive: Vec<u8>,
}

/// For every row: identifier, the slot that scores it, threshold, whether it is to be scored, and
/// its known answer.
#[derive(Debug)]
pub struct DispatchMeta {
    pub n_rows: usize,
    pub ids: Vec<i64>,
    pub slot_id: Vec<i32>,
    pub tau_used: Vec<u32>,
    pub active: Vec<u8>,
    pub exact_positive: Vec<u8>,
}

/// What is known of the rows. The key is the fold or the slot.
#[verifier::ext_equal]
pub struct MetaView {
    pub n_rows: int,
    pub ids: Seq<i64>,
    pub keys: Seq<i32>,
    pub taus: Seq<u32>,
    pub active: Seq<u8>,
    pub exact_positive: Seq<u8>,
}

impl View for RouteMeta {
    type V = MetaView;

    open spec fn view(&self) -> MetaView {
        MetaView {
            n_rows: self.n_rows as int,
            ids: self.ids@,
            keys: self.fold_id@,
            taus: self.tau_used@,
            active: self.active@,
            exact_positive: self.exact_positive@,
        }
    }
}

impl View for DispatchMeta {
    type V = MetaView;

    open spec fn view(&self) -> MetaView {
        MetaView {
            n_rows: self.n_rows as int,
            ids: self.ids@,
            keys: self.slot_id@,
            taus: self.tau_used@,
            active: self.active@,
            exact_positive: self.exact_positive@,
        }
    }
}

/// The first bytes of a file with folds.
pub open spec fn magic_route() -> Seq<u8> {
    seq![76, 50, 82, 77, 84, 118, 49, 0]
}

/// The first bytes of a file with slots.
pub open spec fn magic_dispatch() -> Seq<u8> {
    seq![76, 50, 68, 83, 80, 118, 49, 0]
}

/// What the file `b` says of the rows.
pub open spec fn parse_meta(b: Seq<u8>, magic: Seq<u8>) -> Result<MetaView, LoadError> {
    let n = u32_at(b, 8) as int;
    let keys = 12 + 8 * n;
    let taus = keys + 4 * n;
    let active = taus + 4 * n;
    if b.len() < 12 {
        Err(LoadError::TooShort)
    } else if b.subrange(0, 8) != magic {
        Err(LoadError::BadMagic)
    } else if keys > b.len() {
        Err(LoadError::Read(ReadError::I64))
    } else if taus > b.len() {
        Err(LoadError::Read(ReadError::U32))
    } else if active > b.len() {
        Err(LoadError::Read(ReadError::Single))
    } else if active + 2 * n > b.len() {
        Err(LoadError::Truncated)
    } else {
        Ok(
            MetaView {
                n_rows: n,
                ids: signed(u64s_at(b, 12, n as nat)),
                keys: signed32(u32s_at(b, keys, n as nat)),
                taus: u32s_at(b, taus, n as nat),
                active: b.subrange(active, active + n),
                exact_positive: b.subrange(active + n, active + 2 * n),
            },
        )
    }
}

struct RawMeta {
    n: usize,
    ids: Vec<i64>,
    keys: Vec<i32>,
    taus: Vec<u32>,
    active: Vec<u8>,
    exact_positive: Vec<u8>,
}

fn load_meta(buf: &[u8], magic: &[u8]) -> (r: Result<RawMeta, LoadError>)
    requires
        magic@.len() == 8,
    ensures
        match parse_meta(buf@, magic@) {
            Err(e) => r == Err::<RawMeta, LoadError>(e),
            Ok(m) => r matches Ok(x) && m == (MetaView {
                n_rows: x.n as int,
                ids: x.ids@,
                keys: x.keys@,
                taus: x.taus@,
                active: x.active@,
                exact_positive: x.exact_positive@,
            }),
        },
{
    let len: usize = buf.len();
    if len < 12 {
        return Err(LoadError::TooShort);
    }
    if !begins_with(buf, magic) {
        return Err(LoadError::BadMagic);
    }
    let n: u64 = get_u32(buf, 8) as u64;
    let keys: u64 = 12 + 8 * n;
    let taus: u64 = keys + 4 * n;
    let active: u64 = taus + 4 * n;
    if keys > len as u64 {
        return Err(LoadError::Read(ReadError::I64));
    }
    if taus > len as u64 {
        return Err(LoadError::Read(ReadError::U32));
    }
    if active > len as u64 {
        return Err(LoadError::Read(ReadError::Single));
    }
    if active + 2 * n > len as u64 {
        return Err(LoadError::Truncated);
    }
    let count: usize = n as usize;
    let a: usize = active as usize;
    let raw_ids: Vec<u64> = get_u64s(buf, 12, count);
    let raw_keys: Vec<u32> = get_u32s(buf, keys as usize, count);
    let ids: Vec<i64> = to_signed(&raw_ids);
    assert(ids@ =~= signed(raw_ids@));
    Ok(
        RawMeta {
            n: count,
            ids,
            keys: to_signed32(&raw_keys),
            taus: get_u32s(buf, taus as usize, count),
            active: vstd::slice::slice_to_vec(vstd::slice::slice_subrange(buf, a, a + count)),
            exact_positive: vstd::slice::slice_to_vec(
                vstd::slice::slice_subrange(buf, a + count, a + 2 * count),
            ),
        },
    )
}

/// Reads what is known of rows with folds.
pub fn load_route_meta(buf: &[u8]) -> (r: Result<RouteMeta, LoadError>)
    ensures
        match parse_meta(buf@, magic_route()) {
            Err(e) => r == Err::<RouteMeta, LoadError>(e),
            Ok(m) => r matches Ok(x) && x@ == m,
        },
{
    let magic: [u8; 8] = [76, 50, 82, 77, 84, 118, 49, 0];
    assert(magic@ =~= magic_route());
    match load_meta(buf, magic.as_slice()) {
        Err(e) => Err(e),
        Ok(m) => Ok(
            RouteMeta {
                n_rows: m.n,
                ids: m.ids,
                fold_id: m.keys,
                tau_used: m.taus,
                active: m.active,
                exact_positive: m.exact_positive,
            },
        ),
    }
}

/// Reads what is known of rows with slots.
pub fn load_dispatch_meta(buf: &[u8]) -> (r: Result<DispatchMeta, LoadError>)
    ensures
        match parse_meta(buf@, magic_dispatch()) {
            Err(e) => r == Err::<DispatchMeta, LoadError>(e),
            Ok(m) => r matches Ok(x) && x@ == m,
        },
{
    let magic: [u8; 8] = [76, 50, 68, 83, 80, 118, 49, 0];
    assert(magic@ =~= magic_dispatch());
    match load_meta(buf, magic.as_slice()) {
        Err(e) => Err(e),
        Ok(m) => Ok(
            DispatchMeta {
                n_rows: m.n,
                ids: m.ids,
                slot_id: m.keys,
                tau_used: m.taus,
                active: m.active,
                exact_positive: m.exact_positive,
            },
        ),
    }
}

/// What is known of rows is known of every row that the count speaks of.
pub proof fn law_loaded_meta_is_complete(b: Seq<u8>, magic: Seq<u8>)
    requires
        parse_meta(b, magic) is Ok,
    ensures
        ({
            let m = parse_meta(b, magic)->Ok_0;
            &&& m.ids.len() == m.n_rows
            &&& m.keys.len() == m.n_rows
            &&& m.taus.len() == m.n_rows
            &&& m.active.len() == m.n_rows
            &&& m.exact_positive.len() == m.n_rows
        }),
{
}

} // verus!
