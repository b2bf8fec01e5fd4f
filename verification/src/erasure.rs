//! Reed–Solomon erasure coding over GF(2^8), through `reed-solomon-erasure`.
use vstd::prelude::*;
use reed_solomon_erasure::galois_8::ReedSolomon;

verus! {

/// Block shapes the codec accepts: at least one data and one parity shard,
/// at most 256 shards in all.
pub open spec fn rs_shape_ok(data_shards: nat, parity_shards: nat) -> bool {
    0 < data_shards && 0 < parity_shards && data_shards + parity_shards <= 256
}

/// All rows have the same, non-zero length.
pub open spec fn rows_uniform(rows: Seq<Seq<u8>>) -> bool {
    rows.len() > 0 && rows[0].len() > 0 && forall|i: int| 0 <= i < rows.len() ==> #[trigger] rows[i].len() == rows[0].len()
}

pub open spec fn rows_view(rows: Seq<Vec<u8>>) -> Seq<Seq<u8>> {
    rows.map_values(|r: Vec<u8>| r@)
}

pub open spec fn opt_rows_view(rows: Seq<Option<Vec<u8>>>) -> Seq<Option<Seq<u8>>> {
    rows.map_values(|r: Option<Vec<u8>>| match r { Some(v) => Some(v@), None => None })
}

/// The parity rows that `ReedSolomon::encode` computes for the data rows.
pub uninterp spec fn rs_parity_rows(data_shards: nat, parity_shards: nat, data: Seq<Seq<u8>>) -> Seq<Seq<u8>>;

/// The data rows that `ReedSolomon::reconstruct_data` fills in for a shard set.
pub uninterp spec fn rs_recovered_data(data_shards: nat, parity_shards: nat, shards: Seq<Option<Seq<u8>>>) -> Seq<Seq<u8>>;

/// Whether the codec accepts a block of this shape.
///
/// Calls `ReedSolomon::new` of `reed-solomon-erasure` (galois_8). Trusted, as
/// the crate's source shows: construction fails exactly when there are no
/// data shards, no parity shards, or more than 256 shards in all. The sum of
/// the two counts is computed unchecked there, so it must fit in `usize`.
#[verifier::external_body]
pub(crate) fn rs_accepts_shape(data_shards: usize, parity_shards: usize) -> (ok: bool)
    requires
        data_shards + parity_shards <= usize::MAX,
    ensures
        ok == rs_shape_ok(data_shards as nat, parity_shards as nat),
{
    ReedSolomon::new(data_shards, parity_shards).is_ok()
}

/// Encodes in place: `shards` holds `data_shards` data rows followed by
/// `parity_shards` rows that are overwritten with parity.
///
/// Calls `ReedSolomon::new` and `ReedSolomon::encode` of `reed-solomon-erasure`
/// (galois_8). Trusted, as the crate's source shows: it succeeds exactly when
/// the shape is valid, there are `data + parity` rows and all rows have one
/// non-zero length (the sum of the two counts must fit in `usize`); on success the data rows are untouched and each parity row
/// keeps its length and holds the parity of the data rows; on failure nothing
/// is written.
#[verifier::external_body]
pub(crate) fn rs_encode(data_shards: usize, parity_shards: usize, shards: &mut Vec<Vec<u8>>) -> (ok: bool)
    requires
        data_shards + parity_shards <= usize::MAX,
    ensures
        ok <==> (rs_shape_ok(data_shards as nat, parity_shards as nat)
            && old(shards)@.len() == data_shards + parity_shards
            && rows_uniform(rows_view(old(shards)@))),
        !ok ==> rows_view(final(shards)@) == rows_view(old(shards)@),
        ok ==> final(shards)@.len() == old(shards)@.len(),
        ok ==> rows_view(final(shards)@).subrange(0, data_shards as int)
            == rows_view(old(shards)@).subrange(0, data_shards as int),
        ok ==> rows_view(final(shards)@).subrange(data_shards as int, old(shards)@.len() as int)
            == rs_parity_rows(data_shards as nat, parity_shards as nat,
                rows_view(old(shards)@).subrange(0, data_shards as int)),
        ok ==> forall|j: int| 0 <= j < parity_shards ==> (#[trigger] final(shards)@[data_shards + j])@.len()
            == old(shards)@[data_shards + j]@.len(),
{
    match ReedSolomon::new(data_shards, parity_shards) {
        Ok(rs) => rs.encode(shards).is_ok(),
        Err(_) => false,
    }
}

/// Number of present shards.
pub open spec fn count_present(s: Seq<Option<Seq<u8>>>) -> nat
    decreases s.len(),
{
    if s.len() == 0 {
        0
    } else {
        count_present(s.drop_last()) + if s.last() is Some { 1nat } else { 0nat }
    }
}

/// All present shards have the same, non-zero length `len`.
pub open spec fn present_uniform(s: Seq<Option<Seq<u8>>>, len: nat) -> bool {
    len > 0 && forall|i: int| 0 <= i < s.len() ==> (#[trigger] s[i] matches Some(v) ==> v.len() == len)
}

/// Shard sets the decoder accepts: a valid shape, one entry per shard, the
/// present rows of one non-zero length and at least `data_shards` of them.
pub open spec fn reconstruct_accepts(data_shards: nat, parity_shards: nat, shards: Seq<Option<Seq<u8>>>) -> bool {
    &&& rs_shape_ok(data_shards, parity_shards)
    &&& shards.len() == data_shards + parity_shards
    &&& exists|len: nat| present_uniform(shards, len)
    &&& count_present(shards) >= data_shards
}

/// `shards` is the encoding of the data rows `data` with some rows erased.
pub open spec fn is_erasure_of(data_shards: nat, parity_shards: nat, shards: Seq<Option<Seq<u8>>>, data: Seq<Seq<u8>>) -> bool {
    &&& data.len() == data_shards
    &&& rows_uniform(data)
    &&& shards.len() == data_shards + parity_shards
    &&& forall|i: int| 0 <= i < data_shards ==> (#[trigger] shards[i] matches Some(v) ==> v == data[i])
    &&& forall|j: int| 0 <= j < parity_shards ==> (#[trigger] shards[data_shards + j] matches Some(v)
        ==> v == rs_parity_rows(data_shards, parity_shards, data)[j])
}

/// Fills in missing data rows from the rows present.
///
/// Calls `ReedSolomon::new` and `ReedSolomon::reconstruct_data` of
/// `reed-solomon-erasure` (galois_8). Trusted, as the crate's source shows:
/// it succeeds exactly when the shape is valid (the sum of the two counts
/// must fit in `usize`), there are `data + parity` entries, the present rows share one non-zero length and at least
/// `data_shards` rows are present; on failure nothing is written; on success
/// present rows are untouched, missing parity rows stay missing and each
/// missing data row is filled with a row of that length. The rows it fills in
/// are the erased data rows whenever the set is an erasure of an encoding —
/// the erasure-code guarantee the crate exists to provide.
#[verifier::external_body]
pub(crate) fn rs_reconstruct_data(data_shards: usize, parity_shards: usize, shards: &mut Vec<Option<Vec<u8>>>) -> (ok: bool)
    requires
        data_shards + parity_shards <= usize::MAX,
    ensures
        ok <==> reconstruct_accepts(data_shards as nat, parity_shards as nat, opt_rows_view(old(shards)@)),
        !ok ==> opt_rows_view(final(shards)@) == opt_rows_view(old(shards)@),
        ok ==> final(shards)@.len() == old(shards)@.len(),
        ok ==> forall|i: int| 0 <= i < old(shards)@.len() && (#[trigger] old(shards)@[i]) is Some
            ==> opt_rows_view(final(shards)@)[i] == opt_rows_view(old(shards)@)[i],
        ok ==> forall|i: int| data_shards <= i < old(shards)@.len() && (#[trigger] old(shards)@[i]) is None
            ==> final(shards)@[i] is None,
        ok ==> forall|i: int| 0 <= i < data_shards && (#[trigger] old(shards)@[i]) is None
            ==> opt_rows_view(final(shards)@)[i] == Some(rs_recovered_data(data_shards as nat,
                parity_shards as nat, opt_rows_view(old(shards)@))[i]),
        ok ==> forall|data: Seq<Seq<u8>>| #[trigger] is_erasure_of(data_shards as nat, parity_shards as nat,
            opt_rows_view(old(shards)@), data) ==> forall|i: int| 0 <= i < data_shards
            ==> #[trigger] rs_recovered_data(data_shards as nat, parity_shards as nat, opt_rows_view(old(shards)@))[i] == data[i],
{
    match ReedSolomon::new(data_shards, parity_shards) {
        Ok(rs) => rs.reconstruct_data(shards).is_ok(),
        Err(_) => false,
    }
}

} // verus!
