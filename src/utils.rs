//! Helpers for the email circuit's public input: where the disclosed
//! substrings of a header and a body lie, and the bytes that commit to them.
use vstd::prelude::*;
use vstd::string::*;
use vstd::utf8::encode_utf8;
use crate::boundary::{find_first_match, regex_first_match};

verus! {

/// A disclosed substring: its byte offset and its text.
pub type Substr = Option<(usize, String)>;

/// The UTF-8 bytes of a substring's text.
pub open spec fn substr_bytes(m: Substr) -> Seq<u8> {
    match m {
        Some(x) => encode_utf8(x.1@),
        None => seq![],
    }
}

/// The byte offset of a substring.
pub open spec fn substr_start(m: Substr) -> int {
    match m {
        Some(x) => x.0 as int,
        None => 0,
    }
}

/// `seq` with `bytes` written from position `pos` on.
pub open spec fn overwrite(seq: Seq<u8>, pos: int, bytes: Seq<u8>) -> Seq<u8> {
    Seq::new(seq.len(), |q: int| if pos <= q < pos + bytes.len() { bytes[q - pos] } else { seq[q] })
}

/// `seq` with `v` written at each position that `bytes` would cover from `pos`.
pub open spec fn overwrite_with(seq: Seq<u8>, pos: int, n: int, v: u8) -> Seq<u8> {
    Seq::new(seq.len(), |q: int| if pos <= q < pos + n { v } else { seq[q] })
}

/// The masked characters after writing every present substring of `ms`,
/// in order, at `offset` plus its start.
pub open spec fn masked_chars(init: Seq<u8>, offset: int, ms: Seq<Substr>) -> Seq<u8>
    decreases ms.len(),
{
    if ms.len() == 0 {
        init
    } else {
        let prev = masked_chars(init, offset, ms.drop_last());
        match ms.last() {
            Some(m) => overwrite(prev, offset + m.0, encode_utf8(m.1@)),
            None => prev,
        }
    }
}

/// The substring ids after marking every present substring of `ms`, the
/// `k`-th with `k + 1`.
pub open spec fn substr_ids(init: Seq<u8>, offset: int, ms: Seq<Substr>) -> Seq<u8>
    decreases ms.len(),
{
    if ms.len() == 0 {
        init
    } else {
        let prev = substr_ids(init, offset, ms.drop_last());
        match ms.last() {
            Some(m) => overwrite_with(prev, offset + m.0, encode_utf8(m.1@).len() as int, ms.len() as u8),
            None => prev,
        }
    }
}

/// Every present substring of `ms` fits in `len` positions from `offset`.
pub open spec fn substrs_fit(ms: Seq<Substr>, offset: int, len: int) -> bool {
    forall|k: int| 0 <= k < ms.len() && (#[trigger] ms[k]) is Some ==> offset + substr_start(ms[k]) + substr_bytes(ms[k]).len() <= len
}

/// The public input: header hash, body hash, 52 zero bytes, the public key,
/// then the masked characters and the substring ids over header and body.
pub open spec fn public_hash_input(
    headerhash: Seq<u8>,
    public_key_n_bytes: Seq<u8>,
    header_substrs: Seq<Substr>,
    body_substrs: Seq<Substr>,
    header_max_byte_size: int,
    body_max_byte_size: int,
) -> Seq<u8> {
    let zeros = Seq::new((header_max_byte_size + body_max_byte_size) as nat, |q: int| 0u8);
    let masked = masked_chars(masked_chars(zeros, 0, header_substrs), header_max_byte_size, body_substrs);
    let ids = substr_ids(substr_ids(zeros, 0, header_substrs), header_max_byte_size, body_substrs);
    headerhash + substr_bytes(header_substrs[0]) + Seq::new(52, |q: int| 0u8) + public_key_n_bytes + masked + ids
}

fn append_bytes(out: &mut Vec<u8>, b: &[u8])
    ensures
        final(out)@ == old(out)@ + b@,
{
    let mut i: usize = 0;
    while i < b.len()
        invariant
            i <= b@.len(),
            out@ == old(out)@ + b@.subrange(0, i as int),
        decreases b.len() - i,
    {
        out.push(b[i]);
        i += 1;
        assert(out@ =~= old(out)@ + b@.subrange(0, i as int));
    }
    assert(b@.subrange(0, i as int) =~= b@);
}

/// Writes the substrings of `ms` into `masked` and `ids` from `offset`.
fn write_substrs(masked: &mut Vec<u8>, ids: &mut Vec<u8>, offset: usize, ms: &Vec<Substr>)
    requires
        old(masked)@.len() == old(ids)@.len(),
        ms@.len() <= 255,
        substrs_fit(ms@, offset as int, old(masked)@.len() as int),
    ensures
        final(masked)@.len() == old(masked)@.len(),
        final(ids)@.len() == old(masked)@.len(),
        final(masked)@ == masked_chars(old(masked)@, offset as int, ms@),
        final(ids)@ == substr_ids(old(ids)@, offset as int, ms@),
{
    let mut k: usize = 0;
    while k < ms.len()
        invariant
            k <= ms@.len(),
            ms@.len() <= 255,
            masked@.len() == old(masked)@.len(),
            ids@.len() == old(masked)@.len(),
            substrs_fit(ms@, offset as int, old(masked)@.len() as int),
            masked@ == masked_chars(old(masked)@, offset as int, ms@.subrange(0, k as int)),
            ids@ == substr_ids(old(ids)@, offset as int, ms@.subrange(0, k as int)),
        decreases ms.len() - k,
    {
        let ghost sub = ms@.subrange(0, k + 1);
        assert(sub.drop_last() =~= ms@.subrange(0, k as int));
        if let Some(m) = &ms[k] {
            let bytes = m.1.as_str().as_bytes();
            let start = m.0;
            let ghost mb = masked@;
            let ghost ib = ids@;
            let mlen = masked.len();
            assert(mb.len() == mlen);
            let id: u8 = (k + 1) as u8;
            assert(ms@[k as int] is Some);
            let mut i: usize = 0;
            while i < bytes.len()
                invariant
                    i <= bytes@.len(),
                    offset + start + bytes@.len() <= mb.len(),
                    mb.len() <= usize::MAX,
                    masked@ == overwrite(mb, offset + start, bytes@.subrange(0, i as int)),
                    ids@ == overwrite_with(ib, offset + start, i as int, id),
                    ib.len() == mb.len(),
                decreases bytes.len() - i,
            {
                masked.set(offset + start + i, bytes[i]);
                ids.set(offset + start + i, id);
                i += 1;
                assert(masked@ =~= overwrite(mb, offset + start, bytes@.subrange(0, i as int)));
                assert(ids@ =~= overwrite_with(ib, offset + start, i as int, id));
            }
            assert(bytes@.subrange(0, i as int) =~= bytes@);
            assert(masked@ =~= masked_chars(old(masked)@, offset as int, sub));
            assert(ids@ =~= substr_ids(old(ids)@, offset as int, sub));
        }
        k += 1;
    }
    assert(ms@.subrange(0, k as int) =~= ms@);
}

/// The bytes that the email circuit takes as its public input: the header
/// hash, the body hash (the first header substring), 52 zero bytes, the
/// public key, then over header and body positions the disclosed characters
/// and the 1-based index of the substring that disclosed each.
pub fn get_email_circuit_public_hash_input(
    headerhash: &[u8],
    public_key_n_bytes: &[u8],
    header_substrs: Vec<Substr>,
    body_substrs: Vec<Substr>,
    header_max_byte_size: usize,
    body_max_byte_size: usize,
) -> (r: Vec<u8>)
    requires
        header_substrs@.len() >= 1,
        header_substrs@[0] is Some,
        header_substrs@.len() <= 255,
        body_substrs@.len() <= 255,
        header_max_byte_size + body_max_byte_size <= usize::MAX,
        substrs_fit(header_substrs@, 0, header_max_byte_size + body_max_byte_size),
        substrs_fit(body_substrs@, header_max_byte_size as int, header_max_byte_size + body_max_byte_size),
    ensures
        r@ == public_hash_input(headerhash@, public_key_n_bytes@, header_substrs@, body_substrs@,
            header_max_byte_size as int, body_max_byte_size as int),
{
    let max_len = header_max_byte_size + body_max_byte_size;
    let mut masked: Vec<u8> = Vec::new();
    let mut ids: Vec<u8> = Vec::new();
    while masked.len() < max_len
        invariant
            masked@.len() <= max_len,
            masked@ == Seq::new(masked@.len(), |q: int| 0u8),
            ids@ == masked@,
        decreases max_len - masked.len(),
    {
        masked.push(0u8);
        ids.push(0u8);
        assert(masked@ =~= Seq::new(masked@.len(), |q: int| 0u8));
    }
    write_substrs(&mut masked, &mut ids, 0, &header_substrs);
    write_substrs(&mut masked, &mut ids, header_max_byte_size, &body_substrs);
    let mut out: Vec<u8> = Vec::new();
    append_bytes(&mut out, headerhash);
    match &header_substrs[0] {
        Some(m) => append_bytes(&mut out, m.1.as_str().as_bytes()),
        None => {},
    }
    let mut z: usize = 0;
    while z < 52
        invariant
            z <= 52,
            out@ == headerhash@ + substr_bytes(header_substrs@[0]) + Seq::new(z as nat, |q: int| 0u8),
        decreases 52 - z,
    {
        out.push(0u8);
        z += 1;
        assert(out@ =~= headerhash@ + substr_bytes(header_substrs@[0]) + Seq::new(z as nat, |q: int| 0u8));
    }
    append_bytes(&mut out, public_key_n_bytes);
    append_bytes(&mut out, masked.as_slice());
    append_bytes(&mut out, ids.as_slice());
    out
}

/// The regex that locates the body hash in a DKIM signature header.
pub const BODYHASH_REGEX: &'static str = "(?<=bh=)(a|b|c|d|e|f|g|h|i|j|k|l|m|n|o|p|q|r|s|t|u|v|w|x|y|z|A|B|C|D|E|F|G|H|I|J|K|L|M|N|O|P|Q|R|S|T|U|V|W|X|Y|Z|0|1|2|3|4|5|6|7|8|9|\\+|/|=)+(?=;)";

/// Narrowing `text` by each regex in turn to its first match, the offsets
/// adding up from `start`: the final offset and text, or `None` where a
/// regex fails or does not match.
pub open spec fn substr_chain(regexes: Seq<Seq<char>>, text: Seq<char>, start: nat) -> Option<(nat, Seq<char>)>
    decreases regexes.len(),
{
    if regexes.len() == 0 {
        Some((start, text))
    } else {
        match regex_first_match(regexes[0], text) {
            Some(Some(m)) => if start + m.0 > usize::MAX {
                None
            } else {
                substr_chain(regexes.drop_first(), m.2, start + m.0)
            },
            _ => None,
        }
    }
}

pub open spec fn regex_views(regexes: Seq<String>) -> Seq<Seq<char>> {
    regexes.map_values(|r: String| r@)
}

pub open spec fn substr_view(m: Substr) -> Option<(nat, Seq<char>)> {
    match m {
        Some(x) => Some((x.0 as nat, x.1@)),
        None => None,
    }
}

/// The substring that the regexes, applied in turn, narrow `input_str` to,
/// with its byte offset; `None` where one of them does not match, or fails
/// to compile or to search.
pub fn get_substr(input_str: &str, regexes: &[String]) -> (r: Substr)
    ensures
        substr_view(r) == substr_chain(regex_views(regexes@), input_str@, 0),
{
    let ghost all = regex_views(regexes@);
    let mut start: usize = 0;
    let mut substr = input_str.to_owned();
    let mut i: usize = 0;
    assert(all.subrange(0, all.len() as int) =~= all);
    while i < regexes.len()
        invariant
            i <= regexes@.len(),
            all == regex_views(regexes@),
            substr_chain(all, input_str@, 0) == substr_chain(all.subrange(i as int, all.len() as int), substr@, start as nat),
        decreases regexes.len() - i,
    {
        let ghost rest = all.subrange(i as int, all.len() as int);
        assert(rest[0] == regexes@[i as int]@);
        assert(rest.drop_first() =~= all.subrange(i + 1, all.len() as int));
        match find_first_match(regexes[i].as_str(), substr.as_str()) {
            Ok(Some(m)) => {
                if m.0 > usize::MAX - start {
                    return None;
                }
                start = start + m.0;
                substr = m.2;
            },
            _ => {
                return None;
            },
        }
        i += 1;
    }
    assert(all.subrange(i as int, all.len() as int).len() == 0);
    Some((start, substr))
}

/// The disclosed substrings of an email: for the header, the body hash
/// followed by one entry per list of header regexes; for the body, one
/// entry per list of body regexes.
pub fn get_email_substrs(
    header_str: &str,
    body_str: &str,
    header_substr_regexes: Vec<Vec<String>>,
    body_substr_regexes: Vec<Vec<String>>,
) -> (r: (Vec<Substr>, Vec<Substr>))
    ensures
        r.0@.len() == header_substr_regexes@.len() + 1,
        substr_view(r.0@[0]) == substr_chain(seq![BODYHASH_REGEX@], header_str@, 0),
        forall|k: int| 0 <= k < header_substr_regexes@.len() ==> substr_view(#[trigger] r.0@[k + 1])
            == substr_chain(regex_views(header_substr_regexes@[k]@), header_str@, 0),
        r.1@.len() == body_substr_regexes@.len(),
        forall|k: int| 0 <= k < body_substr_regexes@.len() ==> substr_view(#[trigger] r.1@[k])
            == substr_chain(regex_views(body_substr_regexes@[k]@), body_str@, 0),
{
    let mut bh: Vec<String> = Vec::new();
    bh.push(String::from_str(BODYHASH_REGEX));
    assert(regex_views(bh@) =~= seq![BODYHASH_REGEX@]);
    let mut header_substrs: Vec<Substr> = Vec::new();
    header_substrs.push(get_substr(header_str, bh.as_slice()));
    let mut k: usize = 0;
    while k < header_substr_regexes.len()
        invariant
            k <= header_substr_regexes@.len(),
            header_substrs@.len() == k + 1,
            substr_view(header_substrs@[0]) == substr_chain(seq![BODYHASH_REGEX@], header_str@, 0),
            forall|m: int| 0 <= m < k ==> substr_view(#[trigger] header_substrs@[m + 1])
                == substr_chain(regex_views(header_substr_regexes@[m]@), header_str@, 0),
        decreases header_substr_regexes.len() - k,
    {
        header_substrs.push(get_substr(header_str, header_substr_regexes[k].as_slice()));
        k += 1;
    }
    let mut body_substrs: Vec<Substr> = Vec::new();
    let mut k: usize = 0;
    while k < body_substr_regexes.len()
        invariant
            k <= body_substr_regexes@.len(),
            body_substrs@.len() == k,
            forall|m: int| 0 <= m < k ==> substr_view(#[trigger] body_substrs@[m])
                == substr_chain(regex_views(body_substr_regexes@[m]@), body_str@, 0),
        decreases body_substr_regexes.len() - k,
    {
        body_substrs.push(get_substr(body_str, body_substr_regexes[k].as_slice()));
        k += 1;
    }
    (header_substrs, body_substrs)
}

} // verus!
