//! The transaction codec: one log record is a tag byte (`0` for `Put`, `1`
//! for `Remove`) followed by its length-prefixed UTF-8 string fields. The
//! form is self-delimiting, so sequential records need no outer delimiter,
//! and a truncated trailing record is recognisable purely by "insufficient
//! bytes remaining" at decode time.

use vstd::bytes::{spec_u64_from_le_bytes, spec_u64_to_le_bytes, u64_from_le_bytes, u64_to_le_bytes};
use vstd::prelude::*;
use vstd::slice::{slice_subrange, slice_to_vec};
use vstd::string::StrSliceExecFns;
use vstd::string::StringSliceAdditionalSpecFns;
use vstd::utf8::{decode_utf8, encode_utf8, valid_utf8};

verus! {

/// One durable log record: a `Put` carrying key and value (what `set`
/// writes), or a `Remove` tombstone carrying the key alone.
pub enum Transaction {
    Put(String, String),
    Remove(String),
}

/// The mathematical form of a record: its string fields as character
/// sequences.
pub ghost enum TxView {
    Put { key: Seq<char>, value: Seq<char> },
    Remove { key: Seq<char> },
}

impl View for Transaction {
    type V = TxView;

    open spec fn view(&self) -> TxView {
        match self {
            Transaction::Put(k, v) => TxView::Put { key: k@, value: v@ },
            Transaction::Remove(k) => TxView::Remove { key: k@ },
        }
    }
}

/// A length-prefixed string field: eight little-endian length bytes, then
/// the UTF-8 bytes themselves.
pub open spec fn spec_encode_str(s: Seq<char>) -> Seq<u8> {
    spec_u64_to_le_bytes(encode_utf8(s).len() as u64) + encode_utf8(s)
}

/// The byte form of a record.
pub open spec fn spec_encode_tx(t: TxView) -> Seq<u8> {
    match t {
        TxView::Put { key, value } => seq![0u8] + spec_encode_str(key) + spec_encode_str(value),
        TxView::Remove { key } => seq![1u8] + spec_encode_str(key),
    }
}

/// Whether each string field's UTF-8 form fits an eight-byte length prefix.
/// Every string a program can hold satisfies this; the spec-level bound
/// keeps the length prefix faithful.
pub open spec fn tx_encodable(t: TxView) -> bool {
    match t {
        TxView::Put { key, value } => encode_utf8(key).len() <= u64::MAX
            && encode_utf8(value).len() <= u64::MAX,
        TxView::Remove { key } => encode_utf8(key).len() <= u64::MAX,
    }
}

/// What decoding one record at a byte position yields: a record and the
/// position just after it, a clean end (no bytes, or too few for a whole
/// record), or corruption (a bad tag, or fields that are not UTF-8).
pub ghost enum DecodeV {
    Record { tx: TxView, next: int },
    End,
    Corrupt,
}

/// The eight-byte little-endian length read at `pos`.
pub open spec fn len_at(data: Seq<u8>, pos: int) -> int {
    spec_u64_from_le_bytes(data.subrange(pos, pos + 8)) as int
}

/// Decode one record of `data` starting at `pos`.
pub open spec fn decode_at(data: Seq<u8>, pos: int) -> DecodeV {
    let n = data.len() as int;
    if pos >= n {
        DecodeV::End
    } else if data[pos] != 0u8 && data[pos] != 1u8 {
        DecodeV::Corrupt
    } else if pos + 9 > n {
        DecodeV::End
    } else {
        let klen = len_at(data, pos + 1);
        if pos + 9 + klen > n {
            DecodeV::End
        } else {
            let kbytes = data.subrange(pos + 9, pos + 9 + klen);
            if data[pos] == 1u8 {
                if valid_utf8(kbytes) {
                    DecodeV::Record {
                        tx: TxView::Remove { key: decode_utf8(kbytes) },
                        next: pos + 9 + klen,
                    }
                } else {
                    DecodeV::Corrupt
                }
            } else if pos + 17 + klen > n {
                DecodeV::End
            } else {
                let vlen = len_at(data, pos + 9 + klen);
                if pos + 17 + klen + vlen > n {
                    DecodeV::End
                } else {
                    let vbytes = data.subrange(pos + 17 + klen, pos + 17 + klen + vlen);
                    if valid_utf8(kbytes) && valid_utf8(vbytes) {
                        DecodeV::Record {
                            tx: TxView::Put {
                                key: decode_utf8(kbytes),
                                value: decode_utf8(vbytes),
                            },
                            next: pos + 17 + klen + vlen,
                        }
                    } else {
                        DecodeV::Corrupt
                    }
                }
            }
        }
    }
}

/// The exact length of a record's byte form: tag and length prefixes plus
/// the UTF-8 fields, never fewer than nine bytes.
pub proof fn lemma_encode_len(t: TxView)
    ensures
        spec_encode_tx(t).len() == match t {
            TxView::Put { key, value } => 17 + encode_utf8(key).len() + encode_utf8(value).len(),
            TxView::Remove { key } => 9 + encode_utf8(key).len(),
        },
{
    vstd::bytes::lemma_auto_spec_u64_to_from_le_bytes();
    match t {
        TxView::Put { key, value } => {
            assert(spec_u64_to_le_bytes(encode_utf8(key).len() as u64).len() == 8);
            assert(spec_u64_to_le_bytes(encode_utf8(value).len() as u64).len() == 8);
        },
        TxView::Remove { key } => {
            assert(spec_u64_to_le_bytes(encode_utf8(key).len() as u64).len() == 8);
        },
    }
}

/// A decoded record always advances the position by at least the nine bytes
/// of tag and first length prefix, and never past the end of the data.
pub proof fn lemma_decode_bounds(data: Seq<u8>, pos: int)
    requires
        0 <= pos,
        decode_at(data, pos) is Record,
    ensures
        pos + 9 <= decode_at(data, pos)->next <= data.len(),
{
}

/// Appending a whole encoded record to fully decoded data makes that record
/// the next one decoded, ending exactly at the new end of the data.
pub proof fn lemma_decode_encode(data: Seq<u8>, t: TxView)
    requires
        tx_encodable(t),
    ensures
        decode_at(data + spec_encode_tx(t), data.len() as int) == (DecodeV::Record {
            tx: t,
            next: data.len() + spec_encode_tx(t).len() as int,
        }),
{
    vstd::bytes::lemma_auto_spec_u64_to_from_le_bytes();
    let full = data + spec_encode_tx(t);
    let pos = data.len() as int;
    match t {
        TxView::Put { key, value } => {
            let kb = encode_utf8(key);
            let vb = encode_utf8(value);
            let klen = kb.len() as int;
            let vlen = vb.len() as int;
            assert(full[pos] == 0u8);
            assert(full.subrange(pos + 1, pos + 9) =~= spec_u64_to_le_bytes(kb.len() as u64));
            assert(len_at(full, pos + 1) == klen);
            assert(full.subrange(pos + 9, pos + 9 + klen) =~= kb);
            assert(full.subrange(pos + 9 + klen, pos + 17 + klen) =~= spec_u64_to_le_bytes(
                vb.len() as u64,
            ));
            assert(len_at(full, pos + 9 + klen) == vlen);
            assert(full.subrange(pos + 17 + klen, pos + 17 + klen + vlen) =~= vb);
            vstd::utf8::encode_utf8_valid_utf8(key);
            vstd::utf8::encode_utf8_valid_utf8(value);
            vstd::utf8::encode_utf8_decode_utf8(key);
            vstd::utf8::encode_utf8_decode_utf8(value);
        },
        TxView::Remove { key } => {
            let kb = encode_utf8(key);
            let klen = kb.len() as int;
            assert(full[pos] == 1u8);
            assert(full.subrange(pos + 1, pos + 9) =~= spec_u64_to_le_bytes(kb.len() as u64));
            assert(len_at(full, pos + 1) == klen);
            assert(full.subrange(pos + 9, pos + 9 + klen) =~= kb);
            vstd::utf8::encode_utf8_valid_utf8(key);
            vstd::utf8::encode_utf8_decode_utf8(key);
        },
    }
}

/// A record already decoded at `pos` decodes the same way after more bytes
/// are appended to the data: decoding reads nothing past the record's end.
pub proof fn lemma_decode_extend(data: Seq<u8>, ext: Seq<u8>, pos: int)
    requires
        0 <= pos,
        decode_at(data, pos) is Record,
    ensures
        decode_at(data + ext, pos) == decode_at(data, pos),
{
    let full = data + ext;
    let n = data.len() as int;
    assert(full[pos] == data[pos]);
    assert(full.subrange(pos + 1, pos + 9) =~= data.subrange(pos + 1, pos + 9));
    let klen = len_at(data, pos + 1);
    assert(len_at(full, pos + 1) == klen);
    assert(full.subrange(pos + 9, pos + 9 + klen) =~= data.subrange(pos + 9, pos + 9 + klen));
    if data[pos] == 0u8 {
        assert(full.subrange(pos + 9 + klen, pos + 17 + klen) =~= data.subrange(
            pos + 9 + klen,
            pos + 17 + klen,
        ));
        let vlen = len_at(data, pos + 9 + klen);
        assert(len_at(full, pos + 9 + klen) == vlen);
        assert(full.subrange(pos + 17 + klen, pos + 17 + klen + vlen) =~= data.subrange(
            pos + 17 + klen,
            pos + 17 + klen + vlen,
        ));
    }
}

/// A record decoded at `pos` still decodes the same way when the data is cut
/// down to any length that keeps the whole record.
pub proof fn lemma_decode_restrict(data: Seq<u8>, pos: int, m: int)
    requires
        0 <= pos,
        decode_at(data, pos) is Record,
        decode_at(data, pos)->next <= m <= data.len(),
    ensures
        decode_at(data.take(m), pos) == decode_at(data, pos),
{
    let cut = data.take(m);
    assert(cut[pos] == data[pos]);
    assert(cut.subrange(pos + 1, pos + 9) =~= data.subrange(pos + 1, pos + 9));
    let klen = len_at(data, pos + 1);
    assert(len_at(cut, pos + 1) == klen);
    assert(cut.subrange(pos + 9, pos + 9 + klen) =~= data.subrange(pos + 9, pos + 9 + klen));
    if data[pos] == 0u8 {
        assert(cut.subrange(pos + 9 + klen, pos + 17 + klen) =~= data.subrange(
            pos + 9 + klen,
            pos + 17 + klen,
        ));
        let vlen = len_at(data, pos + 9 + klen);
        assert(len_at(cut, pos + 9 + klen) == vlen);
        assert(cut.subrange(pos + 17 + klen, pos + 17 + klen + vlen) =~= data.subrange(
            pos + 17 + klen,
            pos + 17 + klen + vlen,
        ));
    }
}

/// Appending a proper prefix of an encoded record to fully decoded data is
/// a clean end of segment: the truncated record is never taken as committed.
pub proof fn lemma_decode_prefix_clean(data: Seq<u8>, t: TxView, p: Seq<u8>)
    requires
        tx_encodable(t),
        p.len() < spec_encode_tx(t).len(),
        p =~= spec_encode_tx(t).subrange(0, p.len() as int),
    ensures
        decode_at(data + p, data.len() as int) == DecodeV::End,
{
    vstd::bytes::lemma_auto_spec_u64_to_from_le_bytes();
    let full = data + p;
    let pos = data.len() as int;
    let n = full.len() as int;
    let enc = spec_encode_tx(t);
    let avail = p.len() as int;
    if avail == 0 {
    } else {
        assert(full[pos] == enc[0]);
        match t {
            TxView::Put { key, value } => {
                assert(enc[0] == 0u8);
                if avail < 9 {
                } else {
                    let kb = encode_utf8(key);
                    let vb = encode_utf8(value);
                    let klen = kb.len() as int;
                    let vlen = vb.len() as int;
                    assert(full.subrange(pos + 1, pos + 9) =~= spec_u64_to_le_bytes(
                        kb.len() as u64,
                    ));
                    assert(len_at(full, pos + 1) == klen);
                    if avail < 9 + klen {
                    } else if avail < 17 + klen {
                    } else {
                        assert(full.subrange(pos + 9 + klen, pos + 17 + klen)
                            =~= spec_u64_to_le_bytes(vb.len() as u64));
                        assert(len_at(full, pos + 9 + klen) == vlen);
                        assert(avail < 17 + klen + vlen);
                    }
                }
            },
            TxView::Remove { key } => {
                assert(enc[0] == 1u8);
                if avail < 9 {
                } else {
                    let kb = encode_utf8(key);
                    let klen = kb.len() as int;
                    assert(full.subrange(pos + 1, pos + 9) =~= spec_u64_to_le_bytes(
                        kb.len() as u64,
                    ));
                    assert(len_at(full, pos + 1) == klen);
                    assert(avail < 9 + klen);
                }
            },
        }
    }
}

/// Relies on `String::from_utf8`: it succeeds exactly on UTF-8 input, and
/// returns the string whose UTF-8 encoding is that input.
#[verifier::external_body]
fn bytes_to_string(bytes: Vec<u8>) -> (r: Option<String>)
    ensures
        r is Some <==> valid_utf8(bytes@),
        r matches Some(s) ==> encode_utf8(s@) == bytes@,
{
    match String::from_utf8(bytes) {
        Ok(s) => Some(s),
        Err(_) => None,
    }
}

/// Append one length-prefixed string field to `out`.
fn encode_str_into(out: &mut Vec<u8>, s: &String)
    ensures
        final(out)@ == old(out)@ + spec_encode_str(s@),
        encode_utf8(s@).len() <= usize::MAX,
{
    let bytes = s.as_str().as_bytes_vec();
    let mut lenb = u64_to_le_bytes(bytes.len() as u64);
    out.append(&mut lenb);
    let mut bytes = bytes;
    out.append(&mut bytes);
}

/// Serialise one record to its self-delimiting byte form.
pub fn encode_transaction(t: &Transaction) -> (r: Vec<u8>)
    ensures
        r@ == spec_encode_tx(t@),
        tx_encodable(t@),
{
    let mut out: Vec<u8> = Vec::new();
    match t {
        Transaction::Put(k, v) => {
            out.push(0u8);
            encode_str_into(&mut out, k);
            encode_str_into(&mut out, v);
            proof {
                assert(out@ =~= spec_encode_tx(t@));
            }
        },
        Transaction::Remove(k) => {
            out.push(1u8);
            encode_str_into(&mut out, k);
            proof {
                assert(out@ =~= spec_encode_tx(t@));
            }
        },
    }
    out
}

/// What decoding one record from `data` at `pos` produced.
pub enum DecodeResult {
    Record(Transaction, usize),
    End,
    Corrupt,
}

/// Decode one record of `data` starting at `pos`.
pub fn decode_transaction(data: &Vec<u8>, pos: usize) -> (r: DecodeResult)
    requires
        pos <= data@.len(),
    ensures
        match r {
            DecodeResult::Record(t, next) => decode_at(data@, pos as int) == (DecodeV::Record {
                tx: t@,
                next: next as int,
            }),
            DecodeResult::End => decode_at(data@, pos as int) == DecodeV::End,
            DecodeResult::Corrupt => decode_at(data@, pos as int) == DecodeV::Corrupt,
        },
{
    let n = data.len();
    if pos == n {
        return DecodeResult::End;
    }
    let tag = data[pos];
    if tag != 0 && tag != 1 {
        return DecodeResult::Corrupt;
    }
    if n - pos < 9 {
        return DecodeResult::End;
    }
    let klen64 = u64_from_le_bytes(slice_subrange(data.as_slice(), pos + 1, pos + 9));
    if klen64 > (n - pos - 9) as u64 {
        return DecodeResult::End;
    }
    let klen = klen64 as usize;
    let kstart = pos + 9;
    let kend = kstart + klen;
    let kbytes = slice_to_vec(slice_subrange(data.as_slice(), kstart, kend));
    if tag == 1 {
        match bytes_to_string(kbytes) {
            Some(k) => {
                proof {
                    vstd::utf8::encode_utf8_decode_utf8(k@);
                }
                DecodeResult::Record(Transaction::Remove(k), kend)
            },
            None => DecodeResult::Corrupt,
        }
    } else {
        if n - kend < 8 {
            return DecodeResult::End;
        }
        let vlen64 = u64_from_le_bytes(slice_subrange(data.as_slice(), kend, kend + 8));
        if vlen64 > (n - kend - 8) as u64 {
            return DecodeResult::End;
        }
        let vlen = vlen64 as usize;
        let vstart = kend + 8;
        let vend = vstart + vlen;
        let vbytes = slice_to_vec(slice_subrange(data.as_slice(), vstart, vend));
        let kres = bytes_to_string(kbytes);
        let vres = bytes_to_string(vbytes);
        match (kres, vres) {
            (Some(k), Some(v)) => {
                proof {
                    vstd::utf8::encode_utf8_decode_utf8(k@);
                    vstd::utf8::encode_utf8_decode_utf8(v@);
                }
                DecodeResult::Record(Transaction::Put(k, v), vend)
            },
            _ => DecodeResult::Corrupt,
        }
    }
}

} // verus!
