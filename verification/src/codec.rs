//! The serializer: the schema-tagged byte encoding of the entry
//! collection, with an exact decoder. The encoding is one tag byte, a
//! 32-bit big-endian entry count, and per entry three length-prefixed
//! byte fields (name, username, password) followed by the two 64-bit
//! big-endian timestamps.

use vstd::prelude::*;
use crate::entry::{EntryModel, PasswordEntry, models, wf_entries, wf_entry, wf_field, contains_name, find_index};
use crate::secure::SecureBytes;

verus! {

/// The four big-endian bytes of a 32-bit integer.
pub open spec fn be32(n: u32) -> Seq<u8> {
    seq![(n >> 24) as u8, (n >> 16) as u8, (n >> 8) as u8, n as u8]
}

/// The eight big-endian bytes of a 64-bit integer.
pub open spec fn be64(n: u64) -> Seq<u8> {
    seq![
        (n >> 56) as u8,
        (n >> 48) as u8,
        (n >> 40) as u8,
        (n >> 32) as u8,
        (n >> 24) as u8,
        (n >> 16) as u8,
        (n >> 8) as u8,
        n as u8,
    ]
}

/// A byte field with its 32-bit length prefix.
pub open spec fn enc_str(s: Seq<u8>) -> Seq<u8> {
    be32(s.len() as u32) + s
}

/// The encoding of one entry.
pub open spec fn enc_entry(e: EntryModel) -> Seq<u8> {
    enc_str(e.name) + enc_str(e.username) + enc_str(e.password) + be64(e.created_at)
        + be64(e.updated_at)
}

/// The concatenated encodings of an entry sequence.
pub open spec fn enc_entry_list(es: Seq<EntryModel>) -> Seq<u8>
    decreases es.len(),
{
    if es.len() == 0 {
        Seq::empty()
    } else {
        enc_entry(es[0]) + enc_entry_list(es.drop_first())
    }
}

/// The whole document: tag byte, entry count, entry encodings.
pub open spec fn doc_bytes(tag: u8, es: Seq<EntryModel>) -> Seq<u8> {
    seq![tag] + be32(es.len() as u32) + enc_entry_list(es)
}

pub proof fn lemma_be32_injective(a: u32, b: u32)
    requires
        be32(a) == be32(b),
    ensures
        a == b,
{
    assert(be32(a)[0] == be32(b)[0]);
    assert(be32(a)[1] == be32(b)[1]);
    assert(be32(a)[2] == be32(b)[2]);
    assert(be32(a)[3] == be32(b)[3]);
    assert((a >> 24) as u8 == (b >> 24) as u8 && (a >> 16) as u8 == (b >> 16) as u8
        && (a >> 8) as u8 == (b >> 8) as u8 && a as u8 == b as u8 ==> a == b) by (bit_vector);
}

pub proof fn lemma_be64_injective(a: u64, b: u64)
    requires
        be64(a) == be64(b),
    ensures
        a == b,
{
    assert(be64(a)[0] == be64(b)[0]);
    assert(be64(a)[1] == be64(b)[1]);
    assert(be64(a)[2] == be64(b)[2]);
    assert(be64(a)[3] == be64(b)[3]);
    assert(be64(a)[4] == be64(b)[4]);
    assert(be64(a)[5] == be64(b)[5]);
    assert(be64(a)[6] == be64(b)[6]);
    assert(be64(a)[7] == be64(b)[7]);
    assert((a >> 56) as u8 == (b >> 56) as u8 && (a >> 48) as u8 == (b >> 48) as u8
        && (a >> 40) as u8 == (b >> 40) as u8 && (a >> 32) as u8 == (b >> 32) as u8
        && (a >> 24) as u8 == (b >> 24) as u8 && (a >> 16) as u8 == (b >> 16) as u8
        && (a >> 8) as u8 == (b >> 8) as u8 && a as u8 == b as u8 ==> a == b) by (bit_vector);
}

/// Appends the big-endian bytes of `n`.
pub fn push_be32(out: &mut Vec<u8>, n: u32)
    ensures
        final(out)@ == old(out)@ + be32(n),
{
    out.push((n >> 24) as u8);
    out.push((n >> 16) as u8);
    out.push((n >> 8) as u8);
    out.push(n as u8);
    proof {
        assert(out@ =~= old(out)@ + be32(n));
    }
}

/// Appends the big-endian bytes of `n`.
pub fn push_be64(out: &mut Vec<u8>, n: u64)
    ensures
        final(out)@ == old(out)@ + be64(n),
{
    out.push((n >> 56) as u8);
    out.push((n >> 48) as u8);
    out.push((n >> 40) as u8);
    out.push((n >> 32) as u8);
    out.push((n >> 24) as u8);
    out.push((n >> 16) as u8);
    out.push((n >> 8) as u8);
    out.push(n as u8);
    proof {
        assert(out@ =~= old(out)@ + be64(n));
    }
}

/// Reads the 32-bit big-endian integer at `pos`.
pub fn read_be32(b: &Vec<u8>, pos: usize) -> (r: u32)
    requires
        pos + 4 <= b@.len(),
    ensures
        be32(r) == b@.subrange(pos as int, pos as int + 4),
{
    let _blen = b.len();  // pins b@.len() within usize bounds for the index arithmetic
    let x0 = b[pos];
    let x1 = b[pos + 1];
    let x2 = b[pos + 2];
    let x3 = b[pos + 3];
    let r = ((x0 as u32) << 24) | ((x1 as u32) << 16) | ((x2 as u32) << 8) | (x3 as u32);
    proof {
        let n = ((x0 as u32) << 24) | ((x1 as u32) << 16) | ((x2 as u32) << 8) | (x3 as u32);
        assert((n >> 24) as u8 == x0 && (n >> 16) as u8 == x1 && (n >> 8) as u8 == x2
            && n as u8 == x3) by (bit_vector)
            requires
                n == ((x0 as u32) << 24) | ((x1 as u32) << 16) | ((x2 as u32) << 8) | (x3 as u32),
        ;
        assert(be32(r) =~= b@.subrange(pos as int, pos as int + 4));
    }
    r
}

/// Reads the 64-bit big-endian integer at `pos`.
pub fn read_be64(b: &Vec<u8>, pos: usize) -> (r: u64)
    requires
        pos + 8 <= b@.len(),
    ensures
        be64(r) == b@.subrange(pos as int, pos as int + 8),
{
    let _blen = b.len();  // pins b@.len() within usize bounds for the index arithmetic
    let x0 = b[pos];
    let x1 = b[pos + 1];
    let x2 = b[pos + 2];
    let x3 = b[pos + 3];
    let x4 = b[pos + 4];
    let x5 = b[pos + 5];
    let x6 = b[pos + 6];
    let x7 = b[pos + 7];
    let r = ((x0 as u64) << 56) | ((x1 as u64) << 48) | ((x2 as u64) << 40) | ((x3 as u64) << 32)
        | ((x4 as u64) << 24) | ((x5 as u64) << 16) | ((x6 as u64) << 8) | (x7 as u64);
    proof {
        let n = ((x0 as u64) << 56) | ((x1 as u64) << 48) | ((x2 as u64) << 40)
            | ((x3 as u64) << 32) | ((x4 as u64) << 24) | ((x5 as u64) << 16) | ((x6 as u64) << 8)
            | (x7 as u64);
        assert((n >> 56) as u8 == x0 && (n >> 48) as u8 == x1 && (n >> 40) as u8 == x2
            && (n >> 32) as u8 == x3 && (n >> 24) as u8 == x4 && (n >> 16) as u8 == x5
            && (n >> 8) as u8 == x6 && n as u8 == x7) by (bit_vector)
            requires
                n == ((x0 as u64) << 56) | ((x1 as u64) << 48) | ((x2 as u64) << 40)
                    | ((x3 as u64) << 32) | ((x4 as u64) << 24) | ((x5 as u64) << 16)
                    | ((x6 as u64) << 8) | (x7 as u64),
        ;
        assert(be64(r) =~= b@.subrange(pos as int, pos as int + 8));
    }
    r
}

/// Appends a byte field behind its length prefix.
pub fn push_field(out: &mut Vec<u8>, s: &Vec<u8>)
    requires
        s@.len() <= u32::MAX,
    ensures
        final(out)@ == old(out)@ + enc_str(s@),
{
    let len = s.len();
    push_be32(out, len as u32);
    let ghost mid = out@;
    let mut i: usize = 0;
    while i < len
        invariant
            len == s@.len(),
            i <= len,
            out@ == mid + s@.take(i as int),
        decreases len - i,
    {
        out.push(s[i]);
        proof {
            assert(out@ =~= mid + s@.take(i + 1));
        }
        i = i + 1;
    }
    proof {
        assert(s@.take(len as int) =~= s@);
        assert(out@ =~= old(out)@ + enc_str(s@));
    }
}

/// Prepending one more entry to a list prepends its encoding.
pub proof fn lemma_enc_list_take_snoc(es: Seq<EntryModel>, k: int)
    requires
        0 <= k < es.len(),
    ensures
        enc_entry_list(es.take(k + 1)) == enc_entry_list(es.take(k)) + enc_entry(es[k]),
    decreases k,
{
    let a = es.take(k + 1);
    if k == 0 {
        assert(a.drop_first() =~= Seq::<EntryModel>::empty());
        assert(es.take(0) =~= Seq::<EntryModel>::empty());
        assert(enc_entry_list(a) =~= enc_entry_list(es.take(0)) + enc_entry(es[0]));
    } else {
        lemma_enc_list_take_snoc(es.drop_first(), k - 1);
        assert(a.drop_first() =~= es.drop_first().take(k));
        assert(es.take(k).drop_first() =~= es.drop_first().take(k - 1));
        assert(a[0] == es[0]);
        assert(es.take(k)[0] == es[0]);
        assert(es.drop_first()[k - 1] == es[k]);
        assert(enc_entry_list(a) == enc_entry(es[0]) + enc_entry_list(es.drop_first().take(k)));
        assert(enc_entry_list(es.drop_first().take(k)) == enc_entry_list(
            es.drop_first().take(k - 1),
        ) + enc_entry(es[k]));
        assert(enc_entry_list(es.take(k)) == enc_entry(es[0]) + enc_entry_list(
            es.drop_first().take(k - 1),
        ));
        assert(enc_entry_list(a) =~= enc_entry_list(es.take(k)) + enc_entry(es[k]));
    }
}

/// An entry list's encoding splits at any prefix boundary.
pub proof fn lemma_enc_list_split(es: Seq<EntryModel>, k: int)
    requires
        0 <= k <= es.len(),
    ensures
        enc_entry_list(es) == enc_entry_list(es.take(k)) + enc_entry_list(es.skip(k)),
    decreases k,
{
    if k == 0 {
        assert(es.take(0) =~= Seq::<EntryModel>::empty());
        assert(es.skip(0) =~= es);
        assert(enc_entry_list(es) =~= enc_entry_list(es.take(0)) + enc_entry_list(es.skip(0)));
    } else {
        lemma_enc_list_split(es, k - 1);
        lemma_enc_list_take_snoc(es, k - 1);
        assert(es.skip(k - 1).len() == es.len() - k + 1);
        assert(es.skip(k - 1)[0] == es[k - 1]);
        assert(es.skip(k - 1).drop_first() =~= es.skip(k));
        assert(enc_entry_list(es.skip(k - 1)) == enc_entry(es[k - 1]) + enc_entry_list(es.skip(k)));
        assert(enc_entry_list(es) =~= enc_entry_list(es.take(k)) + enc_entry_list(es.skip(k)));
    }
}

/// Encodes the entry collection as the document bytes with the given tag.
pub fn encode_doc(tag: u8, entries: &Vec<PasswordEntry>) -> (r: Vec<u8>)
    requires
        wf_entries(models(entries@)),
    ensures
        r@ == doc_bytes(tag, models(entries@)),
{
    let ghost es = models(entries@);
    let mut out: Vec<u8> = Vec::new();
    out.push(tag);
    let count = entries.len();
    push_be32(&mut out, count as u32);
    proof {
        assert(out@ =~= seq![tag] + be32(es.len() as u32));
    }
    let ghost header = out@;
    let mut i: usize = 0;
    while i < count
        invariant
            count == entries@.len(),
            es == models(entries@),
            wf_entries(es),
            i <= count,
            out@ == header + enc_entry_list(es.take(i as int)),
        decreases count - i,
    {
        let ghost before = out@;
        let e = &entries[i];
        proof {
            assert(wf_entry(es[i as int]));
            assert(es[i as int] == e@);
        }
        push_field(&mut out, &e.name);
        push_field(&mut out, &e.username);
        push_field(&mut out, e.password.expose());
        push_be64(&mut out, e.created_at);
        push_be64(&mut out, e.updated_at);
        proof {
            lemma_enc_list_take_snoc(es, i as int);
            assert(out@ =~= before + enc_entry(es[i as int]));
            assert(out@ =~= header + enc_entry_list(es.take(i + 1)));
        }
        i = i + 1;
    }
    proof {
        assert(es.take(count as int) =~= es);
        assert(out@ =~= doc_bytes(tag, es));
    }
    out
}

/// Appends a byte string as it stands.
pub fn append_bytes(out: &mut Vec<u8>, s: &Vec<u8>)
    ensures
        final(out)@ == old(out)@ + s@,
{
    let len = s.len();
    let ghost start = out@;
    let mut i: usize = 0;
    while i < len
        invariant
            len == s@.len(),
            i <= len,
            out@ == start + s@.take(i as int),
        decreases len - i,
    {
        out.push(s[i]);
        proof {
            assert(out@ =~= start + s@.take(i + 1));
        }
        i = i + 1;
    }
    proof {
        assert(s@.take(len as int) =~= s@);
    }
}

/// The bytes of `b` from `pos` to the end.
pub open spec fn suffix_from(b: Seq<u8>, pos: int) -> Seq<u8> {
    b.subrange(pos, b.len() as int)
}

/// Copies `n` bytes starting at `pos`.
pub fn read_chunk(b: &Vec<u8>, pos: usize, n: usize) -> (r: Vec<u8>)
    requires
        pos + n <= b@.len(),
    ensures
        r@ == b@.subrange(pos as int, pos as int + n as int),
{
    let _blen = b.len();  // pins b@.len() within usize bounds for the index arithmetic
    let mut r: Vec<u8> = Vec::new();
    let mut i: usize = 0;
    while i < n
        invariant
            pos + n <= b@.len(),
            b@.len() <= usize::MAX,
            i <= n,
            r@ == b@.subrange(pos as int, pos as int + i as int),
        decreases n - i,
    {
        r.push(b[pos + i]);
        proof {
            assert(r@ =~= b@.subrange(pos as int, pos as int + i as int + 1));
        }
        i = i + 1;
    }
    r
}

/// When the bytes from `pos` are a concatenation, the two parts sit at
/// their positions.
pub proof fn lemma_split_at(b: Seq<u8>, pos: int, x: Seq<u8>, rest: Seq<u8>)
    requires
        0 <= pos <= b.len(),
        suffix_from(b, pos) == x + rest,
    ensures
        pos + x.len() + rest.len() == b.len(),
        b.subrange(pos, pos + x.len() as int) == x,
        suffix_from(b, pos + x.len() as int) == rest,
{
    assert(suffix_from(b, pos).len() == b.len() - pos);
    assert(b.subrange(pos, pos + x.len() as int) =~= x) by {
        assert forall|i: int| 0 <= i < x.len() implies b.subrange(pos, pos + x.len() as int)[i]
            == x[i] by {
            assert(suffix_from(b, pos)[i] == (x + rest)[i]);
        }
    }
    assert(suffix_from(b, pos + x.len() as int) =~= rest) by {
        assert forall|i: int| 0 <= i < rest.len() implies suffix_from(
            b,
            pos + x.len() as int,
        )[i] == rest[i] by {
            assert(suffix_from(b, pos)[x.len() + i] == (x + rest)[x.len() + i]);
        }
    }
}

/// Parses one length-prefixed byte field at `pos`. Returns the field and
/// the position just past it; `None` on truncation. The second clause says
/// the parse succeeds, exactly, on every byte string that a field encoding
/// starts.
pub fn parse_field(input: &Vec<u8>, pos: usize) -> (r: Option<(Vec<u8>, usize)>)
    requires
        pos <= input@.len(),
    ensures
        r is Some ==> ({
            let (f, q) = r->0;
            &&& pos + 4 <= q <= input@.len()
            &&& f@.len() <= u32::MAX
            &&& q == pos + 4 + f@.len()
            &&& input@.subrange(pos as int, q as int) == enc_str(f@)
        }),
        forall|f: Seq<u8>, s: Seq<u8>|
            f.len() <= u32::MAX && suffix_from(input@, pos as int) == #[trigger] (enc_str(f) + s)
                ==> r is Some && (r->0).0@ == f && (r->0).1 == pos + 4 + f.len(),
{
    let blen = input.len();
    if blen - pos < 4 {
        proof {
            assert forall|f: Seq<u8>, s: Seq<u8>|
                f.len() <= u32::MAX && suffix_from(input@, pos as int) == #[trigger] (enc_str(f)
                    + s) implies false by {
                assert(suffix_from(input@, pos as int).len() >= 4);
            }
        }
        return None;
    }
    let len32 = read_be32(input, pos);
    let need = len32 as usize;
    if blen - (pos + 4) < need {
        proof {
            assert forall|f: Seq<u8>, s: Seq<u8>|
                f.len() <= u32::MAX && suffix_from(input@, pos as int) == #[trigger] (enc_str(f)
                    + s) implies false by {
                assert(suffix_from(input@, pos as int).subrange(0, 4) =~= be32(f.len() as u32));
                assert(input@.subrange(pos as int, pos as int + 4) =~= suffix_from(
                    input@,
                    pos as int,
                ).subrange(0, 4));
                lemma_be32_injective(len32, f.len() as u32);
                assert(suffix_from(input@, pos as int).len() == 4 + f.len() + s.len());
            }
        }
        return None;
    }
    let f = read_chunk(input, pos + 4, need);
    let q = pos + 4 + need;
    proof {
        assert(input@.subrange(pos as int, q as int) =~= enc_str(f@));
        assert forall|f0: Seq<u8>, s: Seq<u8>|
            f0.len() <= u32::MAX && suffix_from(input@, pos as int) == #[trigger] (enc_str(f0)
                + s) implies f@ == f0 && q == pos + 4 + f0.len() by {
            assert(suffix_from(input@, pos as int) =~= be32(f0.len() as u32) + (f0 + s));
            lemma_split_at(input@, pos as int, be32(f0.len() as u32), f0 + s);
            lemma_be32_injective(len32, f0.len() as u32);
            lemma_split_at(input@, pos as int + 4, f0, s);
            assert(f@ =~= f0);
        }
    }
    Some((f, q))
}

/// Parses one entry encoding at `pos`: three length-prefixed fields and
/// the two timestamps. The final clause says the parse succeeds, and
/// recovers the entry exactly, on every byte string that an entry
/// encoding starts.
#[verifier::rlimit(100)]
pub fn parse_entry(input: &Vec<u8>, pos: usize) -> (r: Option<(PasswordEntry, usize)>)
    requires
        pos <= input@.len(),
    ensures
        r is Some ==> ({
            let (e, q) = r->0;
            &&& pos <= q <= input@.len()
            &&& wf_field(e@.name) && wf_field(e@.username) && wf_field(e@.password)
            &&& q == pos + enc_entry(e@).len()
            &&& input@.subrange(pos as int, q as int) == enc_entry(e@)
        }),
        forall|e: EntryModel, s: Seq<u8>|
            wf_entry(e) && suffix_from(input@, pos as int) == #[trigger] (enc_entry(e) + s)
                ==> r is Some && (r->0).0@ == e && (r->0).1 == pos + enc_entry(e).len(),
{
    let blen = input.len();
    proof {
        assert forall|e: EntryModel, s: Seq<u8>|
            #[trigger] (enc_entry(e) + s) == suffix_from(input@, pos as int) implies suffix_from(
            input@,
            pos as int,
        ) == enc_str(e.name) + (enc_str(e.username) + enc_str(e.password) + be64(e.created_at)
            + be64(e.updated_at) + s) by {
            assert(enc_entry(e) + s =~= enc_str(e.name) + (enc_str(e.username) + enc_str(e.password)
                + be64(e.created_at) + be64(e.updated_at) + s));
        }
    }
    let name_parse = parse_field(input, pos);
    let (name, p1) = match name_parse {
        Some(x) => x,
        None => {
            return None;
        },
    };
    proof {
        assert forall|e: EntryModel, s: Seq<u8>|
            wf_entry(e) && suffix_from(input@, pos as int) == #[trigger] (enc_entry(e)
                + s) implies name@ == e.name && p1 == pos + 4 + e.name.len() && suffix_from(
            input@,
            p1 as int,
        ) == enc_str(e.username) + (enc_str(e.password) + be64(e.created_at) + be64(e.updated_at)
            + s) by {
            let r1 = enc_str(e.username) + enc_str(e.password) + be64(e.created_at) + be64(
                e.updated_at,
            ) + s;
            lemma_split_at(input@, pos as int, enc_str(e.name), r1);
            assert(r1 =~= enc_str(e.username) + (enc_str(e.password) + be64(e.created_at) + be64(
                e.updated_at,
            ) + s));
        }
    }
    let user_parse = parse_field(input, p1);
    let (username, p2) = match user_parse {
        Some(x) => x,
        None => {
            return None;
        },
    };
    proof {
        assert forall|e: EntryModel, s: Seq<u8>|
            wf_entry(e) && suffix_from(input@, pos as int) == #[trigger] (enc_entry(e)
                + s) implies username@ == e.username && p2 == p1 + 4 + e.username.len()
            && suffix_from(input@, p2 as int) == enc_str(e.password) + (be64(e.created_at) + be64(
            e.updated_at,
        ) + s) by {
            let r2 = enc_str(e.password) + be64(e.created_at) + be64(e.updated_at) + s;
            lemma_split_at(input@, p1 as int, enc_str(e.username), r2);
            assert(r2 =~= enc_str(e.password) + (be64(e.created_at) + be64(e.updated_at) + s));
        }
    }
    let pass_parse = parse_field(input, p2);
    let (password, p3) = match pass_parse {
        Some(x) => x,
        None => {
            return None;
        },
    };
    proof {
        assert forall|e: EntryModel, s: Seq<u8>|
            wf_entry(e) && suffix_from(input@, pos as int) == #[trigger] (enc_entry(e)
                + s) implies password@ == e.password && p3 == p2 + 4 + e.password.len()
            && suffix_from(input@, p3 as int) == be64(e.created_at) + (be64(e.updated_at)
            + s) by {
            let r3 = be64(e.created_at) + be64(e.updated_at) + s;
            lemma_split_at(input@, p2 as int, enc_str(e.password), r3);
            assert(r3 =~= be64(e.created_at) + (be64(e.updated_at) + s));
        }
    }
    if blen - p3 < 16 {
        proof {
            assert forall|e: EntryModel, s: Seq<u8>|
                wf_entry(e) && suffix_from(input@, pos as int) == #[trigger] (enc_entry(e)
                    + s) implies false by {
                assert(suffix_from(input@, p3 as int).len() >= 16);
            }
        }
        return None;
    }
    let created_at = read_be64(input, p3);
    let updated_at = read_be64(input, p3 + 8);
    let q = p3 + 16;
    proof {
        assert forall|e: EntryModel, s: Seq<u8>|
            wf_entry(e) && suffix_from(input@, pos as int) == #[trigger] (enc_entry(e)
                + s) implies created_at == e.created_at && updated_at == e.updated_at && q == pos
            + enc_entry(e).len() by {
            lemma_split_at(input@, p3 as int, be64(e.created_at), be64(e.updated_at) + s);
            lemma_split_at(input@, p3 as int + 8, be64(e.updated_at), s);
            lemma_be64_injective(created_at, e.created_at);
            lemma_be64_injective(updated_at, e.updated_at);
        }
    }
    let e = PasswordEntry {
        name,
        username,
        password: SecureBytes::new(password),
        created_at,
        updated_at,
    };
    proof {
        assert(input@.subrange(pos as int, q as int) =~= enc_entry(e@));
    }
    Some((e, q))
}

/// Inside a well-formed document, the bytes from the end of the first `k`
/// entry encodings are the `k`-th entry's encoding followed by the rest.
pub proof fn lemma_doc_suffix(tag: u8, input: Seq<u8>, es: Seq<EntryModel>, k: int)
    requires
        wf_entries(es),
        input == doc_bytes(tag, es),
        0 <= k < es.len(),
    ensures
        ({
            let pos = 5 + enc_entry_list(es.take(k)).len() as int;
            &&& pos + enc_entry(es[k]).len() + enc_entry_list(es.skip(k + 1)).len() == input.len()
            &&& suffix_from(input, pos) == enc_entry(es[k]) + enc_entry_list(es.skip(k + 1))
            &&& enc_entry_list(es.take(k + 1)).len() == enc_entry_list(es.take(k)).len()
                + enc_entry(es[k]).len()
        }),
{
    lemma_enc_list_split(es, k);
    lemma_enc_list_take_snoc(es, k);
    assert(es.skip(k)[0] == es[k]);
    assert(es.skip(k).drop_first() =~= es.skip(k + 1));
    assert(enc_entry_list(es.skip(k)) == enc_entry(es[k]) + enc_entry_list(es.skip(k + 1)));
    let pos = 5 + enc_entry_list(es.take(k)).len() as int;
    assert(suffix_from(input, pos) =~= enc_entry(es[k]) + enc_entry_list(es.skip(k + 1)));
}

/// Decodes a document with the given tag into its entry collection.
///
/// The first clause makes the decoder exact: on success the input is
/// precisely the encoding of the well-formed result. The second makes it
/// total on encodings: every well-formed collection's document decodes,
/// and to that collection — together they give the encode/decode round
/// trip. Truncation, a foreign tag, trailing bytes, a duplicate name or
/// an update timestamp before the creation timestamp are rejected.
#[verifier::rlimit(100)]
pub fn decode_doc(tag: u8, input: &Vec<u8>) -> (r: Option<Vec<PasswordEntry>>)
    ensures
        r is Some ==> wf_entries(models(r->0@)) && input@ == doc_bytes(tag, models(r->0@)),
        forall|es: Seq<EntryModel>| wf_entries(es) && input@ == #[trigger] doc_bytes(tag, es)
            ==> r is Some && models(r->0@) == es,
{
    let blen = input.len();
    if blen < 5 {
        return None;
    }
    if input[0] != tag {
        proof {
            assert forall|es: Seq<EntryModel>|
                wf_entries(es) && input@ == #[trigger] doc_bytes(tag, es) implies false by {
                assert(doc_bytes(tag, es)[0] == tag);
            }
        }
        return None;
    }
    let count = read_be32(input, 1);
    proof {
        assert forall|es: Seq<EntryModel>|
            wf_entries(es) && input@ == #[trigger] doc_bytes(tag, es) implies es.len()
            == count by {
            assert(input@.subrange(1, 5) =~= be32(es.len() as u32));
            lemma_be32_injective(count, es.len() as u32);
        }
    }
    let mut entries: Vec<PasswordEntry> = Vec::new();
    let mut pos: usize = 5;
    let mut k: u32 = 0;
    proof {
        assert(models(entries@) =~= Seq::<EntryModel>::empty());
        assert(input@.subrange(0, 5) =~= seq![tag] + be32(count) + enc_entry_list(
            models(entries@),
        ));
        assert forall|es: Seq<EntryModel>|
            wf_entries(es) && input@ == #[trigger] doc_bytes(tag, es) implies models(entries@)
            == es.take(0) && 5 == 5 + enc_entry_list(es.take(0)).len() by {
            assert(es.take(0) =~= Seq::<EntryModel>::empty());
            assert(models(entries@) =~= es.take(0));
        }
    }
    while k < count
        invariant
            blen == input@.len(),
            input@.len() <= usize::MAX,
            k <= count,
            5 <= pos <= blen,
            models(entries@).len() == k as int,
            wf_entries(models(entries@)),
            input@.subrange(0, pos as int) == seq![tag] + be32(count) + enc_entry_list(
                models(entries@),
            ),
            forall|es: Seq<EntryModel>|
                wf_entries(es) && input@ == #[trigger] doc_bytes(tag, es) ==> es.len() == count
                    && models(entries@) == es.take(k as int) && pos as int == 5 + enc_entry_list(
                    es.take(k as int),
                ).len(),
        decreases count - k,
    {
        let ghost old_models = models(entries@);
        let ghost old_pos = pos as int;
        proof {
            assert forall|es: Seq<EntryModel>|
                wf_entries(es) && input@ == #[trigger] doc_bytes(tag, es) implies suffix_from(
                input@,
                old_pos,
            ) == enc_entry(es[k as int]) + enc_entry_list(es.skip(k as int + 1)) && wf_entry(
                es[k as int],
            ) by {
                lemma_doc_suffix(tag, input@, es, k as int);
            }
        }
        let parsed = parse_entry(input, pos);
        let (e, newpos) = match parsed {
            Some(x) => x,
            None => {
                return None;
            },
        };
        if e.updated_at < e.created_at {
            proof {
                assert forall|es: Seq<EntryModel>|
                    wf_entries(es) && input@ == #[trigger] doc_bytes(tag, es) implies false by {
                    assert(e@ == es[k as int]);
                }
            }
            return None;
        }
        let dup = find_index(&entries, &e.name);
        if dup.is_some() {
            proof {
                assert forall|es: Seq<EntryModel>|
                    wf_entries(es) && input@ == #[trigger] doc_bytes(tag, es) implies false by {
                    assert(e@ == es[k as int]);
                    let j = dup->0 as int;
                    assert(old_models[j].name == es[k as int].name);
                    assert(es.take(k as int)[j] == es[j]);
                }
            }
            return None;
        }
        let ghost em = e@;
        entries.push(e);
        proof {
            assert(models(entries@) =~= old_models.push(em));
            assert(wf_entries(models(entries@))) by {
                assert(forall|i: int| 0 <= i < old_models.len() ==> models(entries@)[i]
                    == old_models[i]);
                assert(models(entries@)[old_models.len() as int] == em);
                assert(!contains_name(old_models, em.name));
                assert forall|i: int, j: int| 0 <= i < j < models(entries@).len() implies (
                #[trigger] models(entries@)[i]).name != (#[trigger] models(entries@)[j]).name by {
                    if j == old_models.len() as int {
                        assert(!(exists|i2: int| 0 <= i2 < old_models.len() && (#[trigger] old_models[i2]).name
                            == em.name));
                    }
                }
            }
            lemma_enc_list_take_snoc(models(entries@), k as int);
            assert(models(entries@).take(k as int) =~= old_models);
            assert(models(entries@).take(k as int + 1) =~= models(entries@));
            assert(input@.subrange(0, newpos as int) =~= input@.subrange(0, old_pos)
                + input@.subrange(old_pos, newpos as int));
            assert(input@.subrange(0, newpos as int) =~= seq![tag] + be32(count) + enc_entry_list(
                models(entries@),
            ));
            assert forall|es: Seq<EntryModel>|
                wf_entries(es) && input@ == #[trigger] doc_bytes(tag, es) implies models(entries@)
                == es.take(k as int + 1) && newpos as int == 5 + enc_entry_list(
                es.take(k as int + 1),
            ).len() by {
                lemma_doc_suffix(tag, input@, es, k as int);
                assert(em == es[k as int]);
                assert(models(entries@) =~= es.take(k as int + 1));
            }
        }
        pos = newpos;
        k = k + 1;
    }
    if pos != blen {
        proof {
            assert forall|es: Seq<EntryModel>|
                wf_entries(es) && input@ == #[trigger] doc_bytes(tag, es) implies false by {
                lemma_enc_list_split(es, k as int);
                assert(es.take(k as int) =~= es);
                assert(es.skip(k as int) =~= Seq::<EntryModel>::empty());
                assert(input@.len() == 5 + enc_entry_list(es).len());
            }
        }
        return None;
    }
    proof {
        assert(input@.subrange(0, blen as int) =~= input@);
        assert(models(entries@).len() == count as int);
        assert(input@ == doc_bytes(tag, models(entries@)));
        assert forall|es: Seq<EntryModel>|
            wf_entries(es) && input@ == #[trigger] doc_bytes(tag, es) implies models(entries@)
            == es by {
            assert(es.take(k as int) =~= es);
        }
    }
    Some(entries)
}

} // verus!
