use vstd::prelude::*;
use crate::cursor::{
    DecodeError, le_u32_value, le_u64_value, lemma_terminator_at, scan_end, terminator_at,
    utf8_lossy,
};
use crate::duration::{duration_in_range, f32_bits_as_i64};
use crate::player_info::{
    PLAYER_INFO_RETURN_COMMAND, PLAYER_NAME_MAX_SIZE, PlayerModel, decode_response, parse_record,
    parse_records,
};

verus! {

/// One player record as it is laid out on the wire.
pub struct WireRecord {
    pub slot: u8,
    /// The name's bytes, without the terminator.
    pub name: Seq<u8>,
    pub score: u64,
    /// The bit pattern of the single-precision duration in seconds.
    pub duration_bits: u32,
}

/// The eight little-endian bytes of `v`.
pub open spec fn le_u64_bytes(v: u64) -> Seq<u8> {
    seq![
        (v & 0xff) as u8,
        ((v >> 8) & 0xff) as u8,
        ((v >> 16) & 0xff) as u8,
        ((v >> 24) & 0xff) as u8,
        ((v >> 32) & 0xff) as u8,
        ((v >> 40) & 0xff) as u8,
        ((v >> 48) & 0xff) as u8,
        ((v >> 56) & 0xff) as u8,
    ]
}

/// The four little-endian bytes of `v`.
pub open spec fn le_u32_bytes(v: u32) -> Seq<u8> {
    seq![(v & 0xff) as u8, ((v >> 8) & 0xff) as u8, ((v >> 16) & 0xff) as u8, ((v >> 24) & 0xff) as u8]
}

/// A record that a decoder accepts: a name that fits the scan window with
/// its terminator and holds no zero byte, and a duration that makes a time span.
pub open spec fn record_well_formed(r: WireRecord) -> bool {
    &&& r.name.len() < PLAYER_NAME_MAX_SIZE
    &&& forall|i: int| 0 <= i < r.name.len() ==> r.name[i] != 0
    &&& duration_in_range(f32_bits_as_i64(r.duration_bits))
}

/// The player that a record stands for once decoded.
pub open spec fn record_model(r: WireRecord) -> PlayerModel {
    (utf8_lossy(r.name.push(0)), r.score, f32_bits_as_i64(r.duration_bits) as i64)
}

/// The bytes of one record.
pub open spec fn encode_record(r: WireRecord) -> Seq<u8> {
    seq![r.slot] + r.name + seq![0u8] + le_u64_bytes(r.score) + le_u32_bytes(r.duration_bits)
}

/// The bytes of records laid one after another.
pub open spec fn encode_records(rs: Seq<WireRecord>) -> Seq<u8>
    decreases rs.len(),
{
    if rs.len() == 0 {
        Seq::empty()
    } else {
        encode_records(rs.drop_last()) + encode_record(rs.last())
    }
}

/// A whole response holding the records `rs`.
pub open spec fn encode_response(rs: Seq<WireRecord>) -> Seq<u8> {
    seq![PLAYER_INFO_RETURN_COMMAND, rs.len() as u8] + encode_records(rs)
}

proof fn lemma_le_u64_bytes(v: u64)
    ensures
        le_u64_value(le_u64_bytes(v)) == v,
{
    assert(v & 0xff < 256 && (v >> 8) & 0xff < 256 && (v >> 16) & 0xff < 256 && (v >> 24) & 0xff
        < 256 && (v >> 32) & 0xff < 256 && (v >> 40) & 0xff < 256 && (v >> 48) & 0xff < 256 && (v
        >> 56) & 0xff < 256) by (bit_vector);
    assert(v == (v & 0xff) + 256 * (((v >> 8) & 0xff) + 256 * (((v >> 16) & 0xff) + 256 * (((v
        >> 24) & 0xff) + 256 * (((v >> 32) & 0xff) + 256 * (((v >> 40) & 0xff) + 256 * (((v >> 48)
        & 0xff) + 256 * ((v >> 56) & 0xff)))))))) by (bit_vector);
}

proof fn lemma_le_u32_bytes(v: u32)
    ensures
        le_u32_value(le_u32_bytes(v)) == v,
{
    assert(v & 0xff < 256 && (v >> 8) & 0xff < 256 && (v >> 16) & 0xff < 256 && (v >> 24) & 0xff
        < 256) by (bit_vector);
    assert(v == (v & 0xff) + 256 * (((v >> 8) & 0xff) + 256 * (((v >> 16) & 0xff) + 256 * ((v
        >> 24) & 0xff)))) by (bit_vector);
}

/// The length of a record's bytes.
proof fn lemma_encode_record_len(r: WireRecord)
    ensures
        encode_record(r).len() == r.name.len() + 14,
{
}

/// Where the bytes from `p` agree with a record's slot and name for as far
/// as the buffer goes, the name scan finds the record's terminator if the
/// buffer reaches it, and nothing otherwise.
proof fn lemma_name_scan(b: Seq<u8>, p: int, r: WireRecord)
    requires
        0 <= p < b.len(),
        record_well_formed(r),
        forall|i: int| 0 <= i < r.name.len() && p + 1 + i < b.len() ==> b[p + 1 + i] == r.name[i],
        p + 1 + r.name.len() < b.len() ==> b[p + 1 + r.name.len()] == 0,
    ensures
        ({
            let z = p + 1 + r.name.len();
            let found = terminator_at(b, p + 1, scan_end(b, p + 1, PLAYER_NAME_MAX_SIZE as int));
            &&& z < b.len() ==> found == Some(z)
            &&& z >= b.len() ==> found is None
        }),
{
    let z = p + 1 + r.name.len();
    let end = scan_end(b, p + 1, PLAYER_NAME_MAX_SIZE as int);
    lemma_terminator_at(b, p + 1, end);
    match terminator_at(b, p + 1, end) {
        Some(k) => {
            if k < z {
                assert(b[p + 1 + (k - p - 1)] == r.name[k - p - 1]);
            }
            if z < b.len() {
                assert(k <= z);
            }
        },
        None => {
            if z < b.len() {
                assert(z < end);
                assert(b[z] == 0);
            }
        },
    }
}

/// A well-formed record laid out at `p` decodes to its player, ending just past it.
proof fn lemma_parse_encoded_record(b: Seq<u8>, p: int, r: WireRecord)
    requires
        0 <= p,
        p + encode_record(r).len() <= b.len(),
        b.subrange(p, p + encode_record(r).len()) == encode_record(r),
        record_well_formed(r),
    ensures
        parse_record(b, p) == Ok::<(PlayerModel, int), DecodeError>(
            (record_model(r), p + encode_record(r).len()),
        ),
{
    let e = encode_record(r);
    let n = r.name.len() as int;
    let z = p + 1 + n;
    assert forall|i: int| 0 <= i < e.len() implies b[p + i] == e[i] by {
        assert(b.subrange(p, p + e.len())[i] == e[i]);
    }
    assert forall|i: int| 0 <= i < n && p + 1 + i < b.len() implies b[p + 1 + i] == r.name[i] by {
        assert(b[p + (1 + i)] == e[1 + i]);
    }
    assert(b[p + (1 + n)] == e[1 + n]);
    lemma_name_scan(b, p, r);
    assert(b.subrange(p + 1, z + 1) =~= r.name.push(0)) by {
        assert forall|i: int| 0 <= i < n + 1 implies b.subrange(p + 1, z + 1)[i] == r.name.push(
            0,
        )[i] by {
            assert(b[p + (1 + i)] == e[1 + i]);
        }
    }
    assert(b.subrange(z + 1, z + 9) =~= le_u64_bytes(r.score)) by {
        assert forall|i: int| 0 <= i < 8 implies b.subrange(z + 1, z + 9)[i] == le_u64_bytes(
            r.score,
        )[i] by {
            assert(b[p + (n + 2 + i)] == e[n + 2 + i]);
        }
    }
    assert(b.subrange(z + 9, z + 13) =~= le_u32_bytes(r.duration_bits)) by {
        assert forall|i: int| 0 <= i < 4 implies b.subrange(z + 9, z + 13)[i] == le_u32_bytes(
            r.duration_bits,
        )[i] by {
            assert(b[p + (n + 10 + i)] == e[n + 10 + i]);
        }
    }
    lemma_le_u64_bytes(r.score);
    lemma_le_u32_bytes(r.duration_bits);
}

/// Every record of the sequence is well formed.
pub open spec fn records_well_formed(rs: Seq<WireRecord>) -> bool {
    forall|i: int| 0 <= i < rs.len() ==> record_well_formed(#[trigger] rs[i])
}

/// The players that records stand for.
pub open spec fn records_model(rs: Seq<WireRecord>) -> Seq<PlayerModel> {
    rs.map_values(|r: WireRecord| record_model(r))
}

/// Well-formed records laid out from `p` decode to their players, ending
/// just past them.
proof fn lemma_parse_encoded_records(b: Seq<u8>, p: int, rs: Seq<WireRecord>)
    requires
        0 <= p,
        p + encode_records(rs).len() <= b.len(),
        b.subrange(p, p + encode_records(rs).len()) == encode_records(rs),
        records_well_formed(rs),
    ensures
        parse_records(b, p, rs.len()) == Ok::<(Seq<PlayerModel>, int), DecodeError>(
            (records_model(rs), p + encode_records(rs).len()),
        ),
    decreases rs.len(),
{
    if rs.len() == 0 {
        assert(records_model(rs) =~= Seq::<PlayerModel>::empty());
    } else {
        let front = rs.drop_last();
        let last = rs.last();
        let m = encode_records(front).len() as int;
        let whole = encode_records(rs);
        assert(whole == encode_records(front) + encode_record(last));
        assert(records_well_formed(front)) by {
            assert forall|i: int| 0 <= i < front.len() implies record_well_formed(
                #[trigger] front[i],
            ) by {
                assert(front[i] == rs[i]);
            }
        }
        assert(record_well_formed(rs[rs.len() - 1]));
        assert(b.subrange(p, p + m) =~= encode_records(front)) by {
            assert forall|i: int| 0 <= i < m implies b.subrange(p, p + m)[i] == encode_records(
                front,
            )[i] by {
                assert(b.subrange(p, p + whole.len())[i] == whole[i]);
            }
        }
        lemma_parse_encoded_records(b, p, front);
        assert(b.subrange(p + m, p + m + encode_record(last).len()) =~= encode_record(last)) by {
            assert forall|i: int| 0 <= i < encode_record(last).len() implies b.subrange(
                p + m,
                p + m + encode_record(last).len(),
            )[i] == encode_record(last)[i] by {
                assert(b.subrange(p, p + whole.len())[m + i] == whole[m + i]);
            }
        }
        lemma_parse_encoded_record(b, p + m, last);
        assert(records_model(front).push(record_model(last)) =~= records_model(rs));
    }
}

/// Decoding a response encoded from up to 255 well-formed records gives back
/// one player per record, in order, each with the record's name (as lossily
/// decoded text, terminator included), its score, and its duration truncated
/// to whole seconds.
pub proof fn lemma_decode_encoded_response(rs: Seq<WireRecord>)
    requires
        rs.len() <= 255,
        records_well_formed(rs),
    ensures
        decode_response(encode_response(rs)) == Ok::<Seq<PlayerModel>, DecodeError>(
            records_model(rs),
        ),
        records_model(rs).len() == rs.len(),
        forall|i: int|
            0 <= i < rs.len() ==> (#[trigger] records_model(rs)[i]) == (
                utf8_lossy(rs[i].name.push(0)),
                rs[i].score,
                f32_bits_as_i64(rs[i].duration_bits) as i64,
            ),
{
    let b = encode_response(rs);
    let body = encode_records(rs);
    assert(b.subrange(2, 2 + body.len() as int) =~= body);
    lemma_parse_encoded_records(b, 2, rs);
    assert(b[1] as nat == rs.len());
    if rs.len() == 0 {
        assert(body.len() == 0);
    }
}

/// A response encoded from well-formed records, followed by one more byte,
/// is refused for trailing data.
pub proof fn lemma_extra_byte_is_trailing_data(rs: Seq<WireRecord>, extra: u8)
    requires
        rs.len() <= 255,
        records_well_formed(rs),
    ensures
        decode_response(encode_response(rs).push(extra)) == Err::<Seq<PlayerModel>, DecodeError>(
            DecodeError::TrailingData,
        ),
{
    let b = encode_response(rs).push(extra);
    let body = encode_records(rs);
    assert(b.subrange(2, 2 + body.len() as int) =~= body);
    lemma_parse_encoded_records(b, 2, rs);
    assert(b[1] as nat == rs.len());
    if rs.len() == 0 {
        assert(body.len() == 0);
    }
}

/// Whether `b` from `p` on is a strict prefix of `e`: it agrees with `e` as
/// far as it goes and ends before `e` does.
pub open spec fn cut_short_at(b: Seq<u8>, p: int, e: Seq<u8>) -> bool {
    &&& 0 <= p <= b.len() < p + e.len()
    &&& forall|i: int| 0 <= i < b.len() - p ==> b[p + i] == e[i]
}

/// A decode failure that comes from running out of bytes.
pub open spec fn is_cut_short_failure<T>(r: Result<T, DecodeError>) -> bool {
    r == Err::<T, DecodeError>(DecodeError::Truncated) || r == Err::<T, DecodeError>(
        DecodeError::UnterminatedString,
    )
}

/// A well-formed record cut short at `p` fails to decode for want of bytes.
proof fn lemma_parse_cut_record(b: Seq<u8>, p: int, r: WireRecord)
    requires
        cut_short_at(b, p, encode_record(r)),
        record_well_formed(r),
    ensures
        is_cut_short_failure(parse_record(b, p)),
{
    let e = encode_record(r);
    let n = r.name.len() as int;
    if p < b.len() {
        assert forall|i: int| 0 <= i < n && p + 1 + i < b.len() implies b[p + 1 + i]
            == r.name[i] by {
            assert(b[p + (1 + i)] == e[1 + i]);
        }
        if p + 1 + n < b.len() {
            assert(b[p + (1 + n)] == e[1 + n]);
        }
        lemma_name_scan(b, p, r);
    }
}

/// Well-formed records laid out from `p` and cut short fail to decode for
/// want of bytes.
proof fn lemma_parse_cut_records(b: Seq<u8>, p: int, rs: Seq<WireRecord>)
    requires
        cut_short_at(b, p, encode_records(rs)),
        records_well_formed(rs),
    ensures
        is_cut_short_failure(parse_records(b, p, rs.len())),
    decreases rs.len(),
{
    if rs.len() == 0 {
        assert(encode_records(rs).len() == 0);
    } else {
        let front = rs.drop_last();
        let last = rs.last();
        let m = encode_records(front).len() as int;
        let whole = encode_records(rs);
        assert(whole == encode_records(front) + encode_record(last));
        assert(records_well_formed(front)) by {
            assert forall|i: int| 0 <= i < front.len() implies record_well_formed(
                #[trigger] front[i],
            ) by {
                assert(front[i] == rs[i]);
            }
        }
        assert(record_well_formed(rs[rs.len() - 1]));
        if b.len() < p + m {
            assert forall|i: int| 0 <= i < b.len() - p implies b[p + i] == encode_records(
                front,
            )[i] by {
                assert(whole[i] == encode_records(front)[i]);
            }
            lemma_parse_cut_records(b, p, front);
        } else {
            assert(b.subrange(p, p + m) =~= encode_records(front)) by {
                assert forall|i: int| 0 <= i < m implies b.subrange(p, p + m)[i]
                    == encode_records(front)[i] by {
                    assert(whole[i] == encode_records(front)[i]);
                }
            }
            lemma_parse_encoded_records(b, p, front);
            assert forall|i: int| 0 <= i < b.len() - (p + m) implies b[p + m + i] == encode_record(
                last,
            )[i] by {
                assert(b[p + (m + i)] == whole[m + i]);
            }
            lemma_parse_cut_record(b, p + m, last);
        }
    }
}

/// Every strict prefix of a response encoded from well-formed records is
/// refused as truncated or as holding an unterminated name.
pub proof fn lemma_cut_response_fails_short(rs: Seq<WireRecord>, len: int)
    requires
        rs.len() <= 255,
        records_well_formed(rs),
        0 <= len < encode_response(rs).len(),
    ensures
        is_cut_short_failure(decode_response(encode_response(rs).take(len))),
{
    let full = encode_response(rs);
    let b = full.take(len);
    let body = encode_records(rs);
    if len > 2 {
        assert(b[1] as nat == rs.len());
        assert forall|i: int| 0 <= i < b.len() - 2 implies b[2 + i] == body[i] by {
            assert(full[2 + i] == body[i]);
        }
        lemma_parse_cut_records(b, 2, rs);
        if rs.len() == 0 {
            assert(body.len() == 0);
        }
    } else if len == 2 {
        if rs.len() == 0 {
            assert(body.len() == 0);
        }
        assert(b[1] as nat == rs.len());
    }
}

} // verus!
