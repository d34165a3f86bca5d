//! Domain names on the wire: dot-separated labels become length-prefixed
//! byte runs ended by a zero byte, and a two-byte backward pointer can
//! replace a name suffix (compression). This module holds the byte-level
//! model of both directions, the verified helpers the question codec calls,
//! and the proof that decoding undoes encoding.

use vstd::prelude::*;

use crate::types::DnsError;
use vstd::utf8::decode_utf8;
use vstd::utf8::valid_utf8;

verus! {

/// The byte that separates labels in a printable name.
pub const LABEL_SEPARATOR: u8 = 0x2e;

/// Decoding follows at most this many compression pointers before it gives
/// up, so a pointer loop in a hostile packet cannot run forever.
pub const MAX_POINTER_JUMPS: u32 = 63;

/// The longest run of leading bytes of `s` that holds no separator.
pub open spec fn first_label(s: Seq<u8>) -> Seq<u8>
    decreases s.len(),
{
    if s.len() == 0 || s[0] == LABEL_SEPARATOR {
        Seq::empty()
    } else {
        seq![s[0]] + first_label(s.drop_first())
    }
}

/// The first label is a separator-free prefix of `s`, ended by the end of
/// `s` or by a separator.
pub proof fn lemma_first_label_props(s: Seq<u8>)
    ensures
        first_label(s).len() <= s.len(),
        first_label(s) == s.subrange(0, first_label(s).len() as int),
        forall|k: int| 0 <= k < first_label(s).len() ==> s[k] != LABEL_SEPARATOR,
        first_label(s).len() < s.len() ==> s[first_label(s).len() as int] == LABEL_SEPARATOR,
    decreases s.len(),
{
    if s.len() == 0 || s[0] == LABEL_SEPARATOR {
    } else {
        lemma_first_label_props(s.drop_first());
        let l = first_label(s);
        assert(l =~= s.subrange(0, l.len() as int));
        assert forall|k: int| 0 <= k < l.len() implies s[k] != LABEL_SEPARATOR by {
            if k > 0 {
                assert(s.drop_first()[k - 1] != LABEL_SEPARATOR);
            }
        }
    }
}

/// Any separator-free prefix of `s` ended by the end of `s` or by a
/// separator is the first label.
pub proof fn lemma_first_label_is_prefix(s: Seq<u8>, j: int)
    requires
        0 <= j <= s.len(),
        forall|k: int| 0 <= k < j ==> s[k] != LABEL_SEPARATOR,
        j == s.len() || s[j] == LABEL_SEPARATOR,
    ensures
        first_label(s) == s.subrange(0, j),
    decreases j,
{
    if j == 0 {
        assert(first_label(s) =~= s.subrange(0, 0));
    } else {
        assert(s[0] != LABEL_SEPARATOR);
        let t = s.drop_first();
        assert forall|k: int| 0 <= k < j - 1 implies t[k] != LABEL_SEPARATOR by {
            assert(s[k + 1] != LABEL_SEPARATOR);
        }
        lemma_first_label_is_prefix(t, j - 1);
        assert(first_label(s) =~= s.subrange(0, j));
    }
}

/// The labels of a printable name: `s` split at every separator. Splitting
/// never yields an empty list; an empty `s` has one empty label.
pub open spec fn split_labels(s: Seq<u8>) -> Seq<Seq<u8>>
    decreases s.len(),
    via split_labels_decreases
{
    let l = first_label(s);
    if l.len() == s.len() {
        seq![l]
    } else {
        seq![l] + split_labels(s.skip(l.len() as int + 1))
    }
}

#[via_fn]
proof fn split_labels_decreases(s: Seq<u8>) {
    lemma_first_label_props(s);
}

/// Every label fits the wire's one-byte length with its top two bits clear.
pub open spec fn labels_encodable(ls: Seq<Seq<u8>>) -> bool {
    forall|i: int| 0 <= i < ls.len() ==> #[trigger] ls[i].len() <= 63
}

/// A name can be encoded: each of its labels is at most 63 bytes.
pub open spec fn name_encodable(s: Seq<u8>) -> bool {
    labels_encodable(split_labels(s))
}

/// A name that decodes back to itself: every label has 1 to 63 bytes, so
/// no label collides with the terminator or with a pointer marker.
pub open spec fn name_wf(s: Seq<u8>) -> bool {
    forall|i: int|
        0 <= i < split_labels(s).len() ==> 1 <= (#[trigger] split_labels(s)[i]).len() <= 63
}

/// The wire bytes of a label list: each label's length, then its bytes.
pub open spec fn spec_encode_labels(ls: Seq<Seq<u8>>) -> Seq<u8>
    decreases ls.len(),
{
    if ls.len() == 0 {
        Seq::empty()
    } else {
        seq![ls[0].len() as u8] + ls[0] + spec_encode_labels(ls.drop_first())
    }
}

/// The wire bytes of a name: its encoded labels, then the zero terminator.
pub open spec fn spec_encode_name(s: Seq<u8>) -> Seq<u8> {
    spec_encode_labels(split_labels(s)) + seq![0u8]
}

/// What decoding a name at `offset` yields: the printable name bytes and
/// the offset of the byte after the name, or nothing for malformed input
/// (truncated label, missing terminator, pointer past the end, or a
/// pointer chain longer than `jumps`). The offset a successful decode
/// returns is fixed by the first pointer followed, if any.
pub open spec fn spec_decode_name(data: Seq<u8>, offset: int, jumps: nat) -> Option<(Seq<u8>, int)>
    decreases jumps, (if 0 <= offset && offset <= data.len() {
        data.len() - offset
    } else {
        0
    }),
{
    if offset < 0 || offset >= data.len() {
        None
    } else {
        let len_byte = data[offset];
        if len_byte & 0xC0 == 0xC0 {
            if offset + 1 >= data.len() {
                None
            } else if jumps == 0 {
                None
            } else {
                let target = ((((len_byte & 0x3F) as u16) << 8) | (data[offset + 1] as u16)) as int;
                if target >= data.len() {
                    None
                } else {
                    match spec_decode_name(data, target, (jumps - 1) as nat) {
                        Some((name, _)) => Some((name, offset + 2)),
                        None => None,
                    }
                }
            }
        } else if len_byte == 0 {
            Some((Seq::empty(), offset + 1))
        } else if offset + 1 + len_byte > data.len() {
            None
        } else {
            let label = data.subrange(offset + 1, offset + 1 + len_byte);
            match spec_decode_name(data, offset + 1 + len_byte, jumps) {
                Some((rest, end)) => Some(
                    (
                        if rest.len() == 0 {
                            label
                        } else {
                            label + seq![LABEL_SEPARATOR] + rest
                        },
                        end,
                    ),
                ),
                None => None,
            }
        }
    }
}

/// Decoding an encoded well-formed name, wherever it sits inside a larger
/// buffer, gives the name back and leaves the cursor just past it.
pub proof fn lemma_decode_encoded_name(data: Seq<u8>, offset: int, s: Seq<u8>, jumps: nat)
    requires
        name_wf(s),
        0 <= offset,
        offset + spec_encode_name(s).len() <= data.len(),
        data.subrange(offset, offset + spec_encode_name(s).len() as int) == spec_encode_name(s),
    ensures
        spec_decode_name(data, offset, jumps) == Some(
            (s, offset + spec_encode_name(s).len() as int),
        ),
    decreases split_labels(s).len(),
{
    lemma_first_label_props(s);
    let l = first_label(s);
    let enc = spec_encode_name(s);
    assert(1 <= l.len() <= 63) by {
        assert(split_labels(s)[0] == l);
    }
    assert(enc[0] == l.len() as u8);
    assert(data[offset] == enc[0]);
    let len_byte = data[offset];
    assert(len_byte & 0xC0 != 0xC0 && len_byte != 0) by {
        assert(len_byte <= 63);
        assert(len_byte <= 63 ==> len_byte & 0xC0 != 0xC0) by (bit_vector);
    }
    assert forall|k: int| 0 <= k < l.len() implies data[offset + 1 + k] == l[k] by {
        assert(enc[1 + k] == (seq![l.len() as u8] + l + spec_encode_labels(
            split_labels(s).drop_first(),
        ) + seq![0u8])[1 + k]);
    }
    assert(data.subrange(offset + 1, offset + 1 + l.len() as int) =~= l);
    if l.len() == s.len() {
        // A single label: the terminator follows it directly.
        assert(split_labels(s) == seq![l]);
        assert(spec_encode_labels(seq![l]) =~= seq![l.len() as u8] + l) by {
            assert(seq![l].drop_first() =~= Seq::<Seq<u8>>::empty());
            assert(spec_encode_labels(Seq::<Seq<u8>>::empty()) =~= Seq::<u8>::empty());
        }
        assert(enc =~= seq![l.len() as u8] + l + seq![0u8]);
        let inner_off = offset + 1 + l.len() as int;
        assert(data[inner_off] == enc[1 + l.len() as int]);
        assert(data[inner_off] == 0);
        assert(inner_off < data.len());
        assert(0u8 & 0xC0 != 0xC0) by (bit_vector);
        assert(spec_decode_name(data, inner_off, jumps) == Some(
            (Seq::<u8>::empty(), offset + l.len() + 2),
        ));
        assert(l =~= s);
        assert(enc.len() == l.len() + 2);
    } else {
        // More labels follow after the separator.
        let rest = s.skip(l.len() as int + 1);
        let tail = split_labels(rest);
        assert(split_labels(s) == seq![l] + tail);
        assert forall|i: int| 0 <= i < tail.len() implies 1 <= (#[trigger] tail[i]).len() <= 63 by {
            assert(split_labels(s)[i + 1] == tail[i]);
        }
        assert(name_wf(rest));
        assert((seq![l] + tail).drop_first() =~= tail);
        assert(spec_encode_labels(seq![l] + tail) == seq![l.len() as u8] + l + spec_encode_labels(
            tail,
        ));
        assert(enc =~= seq![l.len() as u8] + l + spec_encode_name(rest));
        let inner_off = offset + 1 + l.len() as int;
        assert(data.subrange(inner_off, inner_off + spec_encode_name(rest).len() as int)
            =~= spec_encode_name(rest)) by {
            assert forall|k: int| 0 <= k < spec_encode_name(rest).len() implies data[inner_off + k]
                == spec_encode_name(rest)[k] by {
                assert(data[offset + (1 + l.len() + k)] == enc[1 + l.len() + k]);
            }
        }
        lemma_decode_encoded_name(data, inner_off, rest, jumps);
        // The recursive decode returns the joined tail, which is nonempty.
        assert(rest.len() >= 1) by {
            if rest.len() == 0 {
                assert(first_label(rest).len() == 0);
                assert(split_labels(rest)[0].len() == 0);
            }
        }
        assert(s =~= l + seq![LABEL_SEPARATOR] + rest);
        assert(enc.len() == 1 + l.len() + spec_encode_name(rest).len());
    }
}

/// Relies on String::from_utf8_lossy: on valid UTF-8 input the result is
/// exactly the decoded character sequence.
#[verifier::external_body]
pub(crate) fn bytes_to_string(bytes: &[u8]) -> (r: String)
    ensures
        valid_utf8(bytes@) ==> r@ == decode_utf8(bytes@),
{
    String::from_utf8_lossy(bytes).into_owned()
}

/// Appends `data[i..j]` to `out`.
pub(crate) fn push_byte_range(out: &mut Vec<u8>, data: &[u8], i: usize, j: usize)
    requires
        i <= j <= data@.len(),
    ensures
        final(out)@ == old(out)@ + data@.subrange(i as int, j as int),
{
    let mut k: usize = i;
    while k < j
        invariant
            i <= k <= j <= data@.len(),
            out@ == old(out)@ + data@.subrange(i as int, k as int),
        decreases j - k,
    {
        out.push(data[k]);
        k = k + 1;
        assert(out@ =~= old(out)@ + data@.subrange(i as int, k as int));
    }
}

/// Appends the encoded labels of `bytes[start..]` to `out`; fails if a
/// label is longer than 63 bytes.
pub(crate) fn encode_labels_into(bytes: &[u8], start: usize, out: &mut Vec<u8>) -> (r: Result<
    (),
    DnsError,
>)
    requires
        start <= bytes@.len(),
    ensures
        match r {
            Ok(_) => labels_encodable(split_labels(bytes@.skip(start as int))) && final(out)@
                == old(out)@ + spec_encode_labels(split_labels(bytes@.skip(start as int))),
            Err(e) => !labels_encodable(split_labels(bytes@.skip(start as int))) && e
                == DnsError::ParseError,
        },
    decreases bytes@.len() - start,
{
    let ghost tail = bytes@.skip(start as int);
    let mut j: usize = start;
    while j < bytes.len() && bytes[j] != LABEL_SEPARATOR
        invariant
            start <= j <= bytes@.len(),
            forall|k: int| start <= k < j ==> bytes@[k] != LABEL_SEPARATOR,
        decreases bytes@.len() - j,
    {
        j = j + 1;
    }
    proof {
        assert forall|k: int| 0 <= k < j - start implies tail[k] != LABEL_SEPARATOR by {
            assert(bytes@[start + k] != LABEL_SEPARATOR);
        }
        if j < bytes@.len() {
            assert(tail[j - start] == LABEL_SEPARATOR);
        }
        lemma_first_label_is_prefix(tail, j - start);
    }
    let ghost l = first_label(tail);
    assert(l =~= bytes@.subrange(start as int, j as int));
    let label_len: usize = j - start;
    if label_len > 63 {
        proof {
            assert(split_labels(tail)[0] == l);
        }
        return Err(DnsError::ParseError);
    }
    out.push(label_len as u8);
    push_byte_range(out, bytes, start, j);
    if j == bytes.len() {
        proof {
            assert(split_labels(tail) == seq![l]);
            assert(seq![l].drop_first() =~= Seq::<Seq<u8>>::empty());
            assert(spec_encode_labels(Seq::<Seq<u8>>::empty()) =~= Seq::<u8>::empty());
            assert(spec_encode_labels(seq![l]) =~= seq![l.len() as u8] + l);
            assert(out@ =~= old(out)@ + spec_encode_labels(split_labels(tail)));
        }
        Ok(())
    } else {
        let ghost rest = tail.skip(l.len() as int + 1);
        proof {
            assert(rest =~= bytes@.skip(j + 1));
            assert(split_labels(tail) == seq![l] + split_labels(rest));
            assert((seq![l] + split_labels(rest)).drop_first() =~= split_labels(rest));
        }
        let r = encode_labels_into(bytes, j + 1, out);
        match r {
            Ok(_) => {
                proof {
                    assert forall|i: int|
                        0 <= i < split_labels(tail).len() implies (#[trigger] split_labels(
                        tail,
                    )[i]).len() <= 63 by {
                        if i > 0 {
                            assert(split_labels(rest)[i - 1].len() <= 63);
                        }
                    }
                    assert(out@ =~= old(out)@ + spec_encode_labels(split_labels(tail)));
                }
                Ok(())
            },
            Err(e) => {
                proof {
                    let ls = split_labels(rest);
                    let bad = choose|i: int| 0 <= i < ls.len() && (#[trigger] ls[i]).len() > 63;
                    assert(split_labels(tail)[bad + 1].len() > 63);
                }
                Err(e)
            },
        }
    }
}

/// Reads one name starting at `offset`, following at most `jumps`
/// compression pointers, and returns its printable bytes with the offset
/// of the byte after the name (after the first pointer, if one was
/// followed).
pub(crate) fn decode_name_rec(data: &[u8], offset: usize, jumps: u32) -> (r: Result<
    (Vec<u8>, usize),
    DnsError,
>)
    ensures
        match r {
            Ok((name, end)) => spec_decode_name(data@, offset as int, jumps as nat) == Some(
                (name@, end as int),
            ) && end <= data@.len(),
            Err(e) => spec_decode_name(data@, offset as int, jumps as nat) is None && e
                == DnsError::ParseError,
        },
    decreases jumps, data@.len() - offset,
{
    if offset >= data.len() {
        return Err(DnsError::ParseError);
    }
    let len_byte = data[offset];
    if len_byte & 0xC0 == 0xC0 {
        if offset + 1 >= data.len() {
            return Err(DnsError::ParseError);
        }
        if jumps == 0 {
            return Err(DnsError::ParseError);
        }
        let target_wide: u16 = (((len_byte & 0x3F) as u16) << 8) | (data[offset + 1] as u16);
        let target = target_wide as usize;
        if target >= data.len() {
            return Err(DnsError::ParseError);
        }
        match decode_name_rec(data, target, jumps - 1) {
            Ok((name, _)) => Ok((name, offset + 2)),
            Err(e) => Err(e),
        }
    } else if len_byte == 0 {
        Ok((Vec::new(), offset + 1))
    } else if (len_byte as usize) > data.len() - offset - 1 {
        Err(DnsError::ParseError)
    } else {
        let label_end = offset + 1 + (len_byte as usize);
        let mut name: Vec<u8> = Vec::new();
        push_byte_range(&mut name, data, offset + 1, label_end);
        match decode_name_rec(data, label_end, jumps) {
            Ok((mut rest, end)) => {
                if rest.len() > 0 {
                    name.push(LABEL_SEPARATOR);
                    name.append(&mut rest);
                }
                Ok((name, end))
            },
            Err(e) => Err(e),
        }
    }
}

} // verus!
