//! The deterministic binary layout of a snapshot: length-prefixed strings
//! and sequences, fixed-width little-endian integers for sizes, one byte
//! for a type code.  Encoding is total; decoding accepts exactly the
//! encodings and reconstructs the encoded snapshot, failing cleanly on
//! malformed or truncated bytes.

use vstd::prelude::*;
use vstd::bytes::spec_u64_to_le_bytes;
use vstd::bytes::lemma_auto_spec_u64_to_from_le_bytes;
use vstd::bytes::u64_from_le_bytes;
use vstd::bytes::u64_to_le_bytes;
use vstd::slice::slice_subrange;
use vstd::slice::slice_index_get;
use vstd::string::StrSliceExecFns;
use vstd::utf8::encode_utf8;
use vstd::utf8::valid_utf8;
use vstd::utf8::encode_utf8_valid_utf8;
use vstd::utf8::encode_utf8_decode_utf8;

use crate::error::Error;
use crate::record::Dir;
use crate::record::DirView;
use crate::record::File;
use crate::record::FileView;
use crate::snapshot::Snapshot;
use crate::snapshot::snap_wf;

verus! {

/// Eight little-endian bytes of a 64-bit integer.
pub open spec fn enc_u64(x: u64) -> Seq<u8> {
    spec_u64_to_le_bytes(x)
}

/// A string: the byte length of its UTF-8 form, then those bytes.
pub open spec fn enc_str(s: Seq<char>) -> Seq<u8> {
    enc_u64(encode_utf8(s).len() as u64) + encode_utf8(s)
}

/// A file record: type code, name, size.
pub open spec fn enc_file(f: FileView) -> Seq<u8> {
    seq![f.typ] + enc_str(f.name) + enc_u64(f.size)
}

/// The files of a directory, in order.
pub open spec fn enc_files(fs: Seq<FileView>) -> Seq<u8>
    decreases fs.len(),
{
    if fs.len() == 0 {
        Seq::empty()
    } else {
        enc_file(fs.first()) + enc_files(fs.drop_first())
    }
}

/// The child paths of a directory, in order.
pub open spec fn enc_strs(ss: Seq<Seq<char>>) -> Seq<u8>
    decreases ss.len(),
{
    if ss.len() == 0 {
        Seq::empty()
    } else {
        enc_str(ss.first()) + enc_strs(ss.drop_first())
    }
}

/// A directory record: size, counted files, counted children.
pub open spec fn enc_dir(d: DirView) -> Seq<u8> {
    enc_u64(d.size) + enc_u64(d.files.len() as u64) + enc_files(d.files) + enc_u64(
        d.children.len() as u64,
    ) + enc_strs(d.children)
}

/// One mapping entry: its key, then its record.
pub open spec fn enc_pair(p: (Seq<char>, DirView)) -> Seq<u8> {
    enc_str(p.0) + enc_dir(p.1)
}

/// All mapping entries, in order.
pub open spec fn enc_pairs(ps: Seq<(Seq<char>, DirView)>) -> Seq<u8>
    decreases ps.len(),
{
    if ps.len() == 0 {
        Seq::empty()
    } else {
        enc_pair(ps.first()) + enc_pairs(ps.drop_first())
    }
}

/// The whole snapshot: the entry count, then the entries.
pub open spec fn spec_encode(s: Seq<(Seq<char>, DirView)>) -> Seq<u8> {
    enc_u64(s.len() as u64) + enc_pairs(s)
}

/// The view of a parsed file vector.
pub open spec fn files_view(v: Seq<File>) -> Seq<FileView> {
    v.map_values(|f: File| f@)
}

/// The view of a parsed string vector.
pub open spec fn strs_view(v: Seq<String>) -> Seq<Seq<char>> {
    v.map_values(|s: String| s@)
}

/// Extending an encoded file prefix by one record.
proof fn lemma_enc_files_take_step(xs: Seq<FileView>, i: int)
    requires
        0 <= i < xs.len(),
    ensures
        enc_files(xs.take(i + 1)) == enc_files(xs.take(i)) + enc_file(xs[i]),
    decreases i,
{
    if i == 0 {
        assert(xs.take(1).first() == xs[0]);
        assert(xs.take(1).drop_first() =~= Seq::<FileView>::empty());
        assert(enc_files(xs.take(1).drop_first()) == Seq::<u8>::empty());
        assert(xs.take(0) =~= Seq::<FileView>::empty());
        assert(enc_files(xs.take(0)) == Seq::<u8>::empty());
        assert(enc_files(xs.take(1)) =~= enc_files(xs.take(0)) + enc_file(xs[0]));
    } else {
        let rest = xs.drop_first();
        assert(xs.take(i + 1).first() == xs[0]);
        assert(xs.take(i + 1).drop_first() =~= rest.take(i));
        assert(xs.take(i).first() == xs[0]);
        assert(xs.take(i).drop_first() =~= rest.take(i - 1));
        lemma_enc_files_take_step(rest, i - 1);
        assert(rest[i - 1] == xs[i]);
        assert(enc_file(xs[0]) + (enc_files(rest.take(i - 1)) + enc_file(xs[i])) =~= (enc_file(
            xs[0],
        ) + enc_files(rest.take(i - 1))) + enc_file(xs[i]));
    }
}

/// Peeling one encoded file record off the remainder.
proof fn lemma_enc_files_whole(xs: Seq<FileView>, i: int)
    requires
        0 <= i < xs.len(),
    ensures
        enc_files(xs.skip(i)) == enc_file(xs[i]) + enc_files(xs.skip(i + 1)),
{
    assert(xs.skip(i).len() > 0);
    assert(xs.skip(i).first() == xs[i]);
    assert(xs.skip(i).drop_first() =~= xs.skip(i + 1));
}

/// An encoded prefix stands at the front of the whole encoding.
proof fn lemma_enc_files_split(xs: Seq<FileView>, i: int)
    requires
        0 <= i <= xs.len(),
    ensures
        enc_files(xs) == enc_files(xs.take(i)) + enc_files(xs.skip(i)),
    decreases i,
{
    if i == 0 {
        assert(xs.take(0) =~= Seq::<FileView>::empty());
        assert(xs.skip(0) =~= xs);
        assert(enc_files(xs) =~= Seq::<u8>::empty() + enc_files(xs));
    } else {
        lemma_enc_files_split(xs, i - 1);
        lemma_enc_files_take_step(xs, i - 1);
        lemma_enc_files_whole(xs, i - 1);
        assert((enc_files(xs.take(i - 1)) + (enc_file(xs[i - 1]) + enc_files(xs.skip(i)))) =~= ((
        enc_files(xs.take(i - 1)) + enc_file(xs[i - 1])) + enc_files(xs.skip(i))));
    }
}

/// Extending an encoded string prefix by one string.
proof fn lemma_enc_strs_take_step(xs: Seq<Seq<char>>, i: int)
    requires
        0 <= i < xs.len(),
    ensures
        enc_strs(xs.take(i + 1)) == enc_strs(xs.take(i)) + enc_str(xs[i]),
    decreases i,
{
    if i == 0 {
        assert(xs.take(1).first() == xs[0]);
        assert(xs.take(1).drop_first() =~= Seq::<Seq<char>>::empty());
        assert(enc_strs(xs.take(1).drop_first()) == Seq::<u8>::empty());
        assert(xs.take(0) =~= Seq::<Seq<char>>::empty());
        assert(enc_strs(xs.take(0)) == Seq::<u8>::empty());
        assert(enc_strs(xs.take(1)) =~= enc_strs(xs.take(0)) + enc_str(xs[0]));
    } else {
        let rest = xs.drop_first();
        assert(xs.take(i + 1).first() == xs[0]);
        assert(xs.take(i + 1).drop_first() =~= rest.take(i));
        assert(xs.take(i).first() == xs[0]);
        assert(xs.take(i).drop_first() =~= rest.take(i - 1));
        lemma_enc_strs_take_step(rest, i - 1);
        assert(rest[i - 1] == xs[i]);
        assert(enc_str(xs[0]) + (enc_strs(rest.take(i - 1)) + enc_str(xs[i])) =~= (enc_str(xs[0])
            + enc_strs(rest.take(i - 1))) + enc_str(xs[i]));
    }
}

/// Peeling one encoded string off the remainder.
proof fn lemma_enc_strs_whole(xs: Seq<Seq<char>>, i: int)
    requires
        0 <= i < xs.len(),
    ensures
        enc_strs(xs.skip(i)) == enc_str(xs[i]) + enc_strs(xs.skip(i + 1)),
{
    assert(xs.skip(i).len() > 0);
    assert(xs.skip(i).first() == xs[i]);
    assert(xs.skip(i).drop_first() =~= xs.skip(i + 1));
}

/// An encoded prefix stands at the front of the whole encoding.
proof fn lemma_enc_strs_split(xs: Seq<Seq<char>>, i: int)
    requires
        0 <= i <= xs.len(),
    ensures
        enc_strs(xs) == enc_strs(xs.take(i)) + enc_strs(xs.skip(i)),
    decreases i,
{
    if i == 0 {
        assert(xs.take(0) =~= Seq::<Seq<char>>::empty());
        assert(xs.skip(0) =~= xs);
        assert(enc_strs(xs) =~= Seq::<u8>::empty() + enc_strs(xs));
    } else {
        lemma_enc_strs_split(xs, i - 1);
        lemma_enc_strs_take_step(xs, i - 1);
        lemma_enc_strs_whole(xs, i - 1);
        assert((enc_strs(xs.take(i - 1)) + (enc_str(xs[i - 1]) + enc_strs(xs.skip(i)))) =~= ((
        enc_strs(xs.take(i - 1)) + enc_str(xs[i - 1])) + enc_strs(xs.skip(i))));
    }
}

/// Extending an encoded entry prefix by one entry.
proof fn lemma_enc_pairs_take_step(xs: Seq<(Seq<char>, DirView)>, i: int)
    requires
        0 <= i < xs.len(),
    ensures
        enc_pairs(xs.take(i + 1)) == enc_pairs(xs.take(i)) + enc_pair(xs[i]),
    decreases i,
{
    if i == 0 {
        assert(xs.take(1).first() == xs[0]);
        assert(xs.take(1).drop_first() =~= Seq::<(Seq<char>, DirView)>::empty());
        assert(enc_pairs(xs.take(1).drop_first()) == Seq::<u8>::empty());
        assert(xs.take(0) =~= Seq::<(Seq<char>, DirView)>::empty());
        assert(enc_pairs(xs.take(0)) == Seq::<u8>::empty());
        assert(enc_pairs(xs.take(1)) =~= enc_pairs(xs.take(0)) + enc_pair(xs[0]));
    } else {
        let rest = xs.drop_first();
        assert(xs.take(i + 1).first() == xs[0]);
        assert(xs.take(i + 1).drop_first() =~= rest.take(i));
        assert(xs.take(i).first() == xs[0]);
        assert(xs.take(i).drop_first() =~= rest.take(i - 1));
        lemma_enc_pairs_take_step(rest, i - 1);
        assert(rest[i - 1] == xs[i]);
        assert(enc_pair(xs[0]) + (enc_pairs(rest.take(i - 1)) + enc_pair(xs[i])) =~= (enc_pair(
            xs[0],
        ) + enc_pairs(rest.take(i - 1))) + enc_pair(xs[i]));
    }
}

/// Peeling one encoded entry off the remainder.
proof fn lemma_enc_pairs_whole(xs: Seq<(Seq<char>, DirView)>, i: int)
    requires
        0 <= i < xs.len(),
    ensures
        enc_pairs(xs.skip(i)) == enc_pair(xs[i]) + enc_pairs(xs.skip(i + 1)),
{
    assert(xs.skip(i).len() > 0);
    assert(xs.skip(i).first() == xs[i]);
    assert(xs.skip(i).drop_first() =~= xs.skip(i + 1));
}

/// An encoded prefix stands at the front of the whole encoding.
proof fn lemma_enc_pairs_split(xs: Seq<(Seq<char>, DirView)>, i: int)
    requires
        0 <= i <= xs.len(),
    ensures
        enc_pairs(xs) == enc_pairs(xs.take(i)) + enc_pairs(xs.skip(i)),
    decreases i,
{
    if i == 0 {
        assert(xs.take(0) =~= Seq::<(Seq<char>, DirView)>::empty());
        assert(xs.skip(0) =~= xs);
        assert(enc_pairs(xs) =~= Seq::<u8>::empty() + enc_pairs(xs));
    } else {
        lemma_enc_pairs_split(xs, i - 1);
        lemma_enc_pairs_take_step(xs, i - 1);
        lemma_enc_pairs_whole(xs, i - 1);
        assert((enc_pairs(xs.take(i - 1)) + (enc_pair(xs[i - 1]) + enc_pairs(xs.skip(i)))) =~= ((
        enc_pairs(xs.take(i - 1)) + enc_pair(xs[i - 1])) + enc_pairs(xs.skip(i))));
    }
}

/// An encoded file sequence is at least as long as the sequence.
proof fn lemma_enc_files_len(xs: Seq<FileView>)
    ensures
        enc_files(xs).len() >= xs.len(),
    decreases xs.len(),
{
    lemma_auto_spec_u64_to_from_le_bytes();
    if xs.len() > 0 {
        lemma_enc_files_len(xs.drop_first());
    }
}

/// An encoded string sequence is at least as long as the sequence.
proof fn lemma_enc_strs_len(xs: Seq<Seq<char>>)
    ensures
        enc_strs(xs).len() >= xs.len(),
    decreases xs.len(),
{
    lemma_auto_spec_u64_to_from_le_bytes();
    if xs.len() > 0 {
        lemma_enc_strs_len(xs.drop_first());
    }
}

/// An encoded entry sequence is at least as long as the sequence.
proof fn lemma_enc_pairs_len(xs: Seq<(Seq<char>, DirView)>)
    ensures
        enc_pairs(xs).len() >= xs.len(),
    decreases xs.len(),
{
    lemma_auto_spec_u64_to_from_le_bytes();
    if xs.len() > 0 {
        lemma_enc_pairs_len(xs.drop_first());
    }
}

/// Splitting a prefix: when a concatenation stands at the front of a
/// stream, its first part does, and its second part follows it.
proof fn lemma_prefix_parts(a: Seq<u8>, b: Seq<u8>, s: Seq<u8>)
    requires
        (a + b).is_prefix_of(s),
    ensures
        a.is_prefix_of(s),
        b.is_prefix_of(s.skip(a.len() as int)),
{
    assert((a + b).len() == a.len() + b.len());
    assert forall|i: int| 0 <= i < a.len() implies a[i] == s.subrange(0, a.len() as int)[i] by {
        assert(a[i] == (a + b)[i]);
        assert((a + b)[i] == s.subrange(0, (a + b).len() as int)[i]);
    }
    assert(a =~= s.subrange(0, a.len() as int));
    assert forall|i: int|
        0 <= i < b.len() implies b[i] == s.skip(a.len() as int).subrange(0, b.len() as int)[i] by {
        assert(b[i] == (a + b)[a.len() + i]);
        assert((a + b)[a.len() + i] == s.subrange(0, (a + b).len() as int)[a.len() + i]);
        assert(s.skip(a.len() as int).subrange(0, b.len() as int)[i] == s[a.len() + i]);
    }
    assert(b =~= s.skip(a.len() as int).subrange(0, b.len() as int));
}

/// Little-endian bytes determine their integer.
proof fn lemma_enc_u64_inj(x: u64, y: u64)
    requires
        enc_u64(x) == enc_u64(y),
    ensures
        x == y,
{
    lemma_auto_spec_u64_to_from_le_bytes();
}

/// Relies on str::from_utf8: it succeeds exactly on UTF-8 input, and the
/// characters it yields re-encode to the given bytes.
#[verifier::external_body]
fn bytes_to_string(b: &[u8]) -> (r: Option<String>)
    ensures
        r matches Some(s) ==> encode_utf8(s@) == b@,
        r is None ==> !valid_utf8(b@),
{
    match core::str::from_utf8(b) {
        Ok(s) => Some(s.to_string()),
        Err(_) => None,
    }
}

/// Appends the little-endian bytes of `x`.
fn put_u64(buf: &mut Vec<u8>, x: u64)
    ensures
        final(buf)@ == old(buf)@ + enc_u64(x),
{
    let bytes = u64_to_le_bytes(x);
    let mut i: usize = 0;
    while i < bytes.len()
        invariant
            i <= bytes.len(),
            bytes@ == enc_u64(x),
            buf@ == old(buf)@ + bytes@.take(i as int),
        decreases bytes.len() - i,
    {
        let b = bytes[i];
        buf.push(b);
        proof {
            assert(buf@ =~= old(buf)@ + bytes@.take(i + 1));
        }
        i = i + 1;
    }
    proof {
        assert(old(buf)@ + bytes@.take(bytes@.len() as int) =~= old(buf)@ + bytes@);
    }
}

/// Appends a length-prefixed string.
fn put_str(buf: &mut Vec<u8>, s: &str)
    ensures
        final(buf)@ == old(buf)@ + enc_str(s@),
{
    let bytes = s.as_bytes_vec();
    let n = bytes.len() as u64;
    put_u64(buf, n);
    let ghost mid = buf@;
    let mut i: usize = 0;
    while i < bytes.len()
        invariant
            i <= bytes.len(),
            bytes@ == encode_utf8(s@),
            mid == old(buf)@ + enc_u64(bytes@.len() as u64),
            buf@ == mid + bytes@.take(i as int),
        decreases bytes.len() - i,
    {
        let b = bytes[i];
        buf.push(b);
        proof {
            assert(buf@ =~= mid + bytes@.take(i + 1));
        }
        i = i + 1;
    }
    proof {
        assert(buf@ =~= mid + bytes@);
        assert(buf@ =~= old(buf)@ + enc_str(s@));
    }
}

/// Appends one file record.
fn put_file(buf: &mut Vec<u8>, f: &File)
    ensures
        final(buf)@ == old(buf)@ + enc_file(f@),
{
    buf.push(f.typ);
    proof {
        assert(buf@ =~= old(buf)@ + seq![f@.typ]);
    }
    put_str(buf, f.name.as_str());
    put_u64(buf, f.size);
    proof {
        assert(buf@ =~= old(buf)@ + enc_file(f@));
    }
}

/// Appends one directory record.
fn put_dir(buf: &mut Vec<u8>, d: &Dir)
    ensures
        final(buf)@ == old(buf)@ + enc_dir(d@),
{
    put_u64(buf, d.size);
    put_u64(buf, d.file.len() as u64);
    let ghost base = buf@;
    let ghost fs = d@.files;
    let mut i: usize = 0;
    proof {
        assert(fs.take(0) =~= Seq::<FileView>::empty());
    }
    while i < d.file.len()
        invariant
            i <= d.file.len(),
            fs == d@.files,
            d.file@.map_values(|f: File| f@) == fs,
            buf@ == base + enc_files(fs.take(i as int)),
        decreases d.file.len() - i,
    {
        put_file(buf, &d.file[i]);
        proof {
            lemma_enc_files_take_step(fs, i as int);
            assert(buf@ =~= base + enc_files(fs.take(i + 1)));
        }
        i = i + 1;
    }
    proof {
        assert(fs.take(fs.len() as int) =~= fs);
    }
    put_u64(buf, d.children.len() as u64);
    let ghost base2 = buf@;
    let ghost cs = d@.children;
    let mut i: usize = 0;
    proof {
        assert(cs.take(0) =~= Seq::<Seq<char>>::empty());
    }
    while i < d.children.len()
        invariant
            i <= d.children.len(),
            cs == d@.children,
            d.children@.map_values(|c: String| c@) == cs,
            buf@ == base2 + enc_strs(cs.take(i as int)),
        decreases d.children.len() - i,
    {
        put_str(buf, d.children[i].as_str());
        proof {
            lemma_enc_strs_take_step(cs, i as int);
            assert(buf@ =~= base2 + enc_strs(cs.take(i + 1)));
        }
        i = i + 1;
    }
    proof {
        assert(cs.take(cs.len() as int) =~= cs);
        assert(buf@ =~= old(buf)@ + enc_dir(d@));
    }
}

/// Serializes a snapshot into its deterministic binary layout.
pub fn encode(snap: &Snapshot) -> (r: Vec<u8>)
    ensures
        r@ == spec_encode(snap@),
{
    let mut buf: Vec<u8> = Vec::new();
    put_u64(&mut buf, snap.len() as u64);
    let ghost base = buf@;
    let ghost ps = snap@;
    let mut i: usize = 0;
    proof {
        assert(ps.take(0) =~= Seq::<(Seq<char>, DirView)>::empty());
        assert(base =~= Seq::<u8>::empty() + enc_u64(ps.len() as u64));
    }
    while i < snap.len()
        invariant
            i <= snap@.len(),
            ps == snap@,
            buf@ == base + enc_pairs(ps.take(i as int)),
        decreases snap@.len() - i,
    {
        let e = snap.entry_at(i);
        put_str(&mut buf, e.0.as_str());
        put_dir(&mut buf, &e.1);
        proof {
            lemma_enc_pairs_take_step(ps, i as int);
            assert(enc_pair(ps[i as int]) == enc_str(ps[i as int].0) + enc_dir(ps[i as int].1));
            assert(buf@ =~= base + enc_pairs(ps.take(i + 1)));
        }
        i = i + 1;
    }
    proof {
        assert(ps.take(ps.len() as int) =~= ps);
        assert(buf@ =~= spec_encode(snap@));
    }
    buf
}

/// Reads eight little-endian bytes.
fn read_u64(data: &[u8], pos: usize) -> (r: Result<(u64, usize), Error>)
    requires
        pos <= data@.len(),
    ensures
        r matches Ok(out) ==> out.1 == pos + 8 && out.1 <= data@.len() && data@.subrange(
            pos as int,
            out.1 as int,
        ) == enc_u64(out.0),
        r is Err ==> r == Err::<(u64, usize), Error>(Error::Corrupt) && data@.len() - pos < 8,
{
    if data.len() - pos < 8 {
        return Err(Error::Corrupt);
    }
    let s = slice_subrange(data, pos, pos + 8);
    let x = u64_from_le_bytes(s);
    proof {
        lemma_auto_spec_u64_to_from_le_bytes();
        assert(data@.subrange(pos as int, pos + 8) == enc_u64(x));
    }
    Ok((x, pos + 8))
}

/// Reads a length-prefixed string; succeeds on every stream that starts
/// with an encoded string, returning exactly that string.
fn read_str(data: &[u8], pos: usize) -> (r: Result<(String, usize), Error>)
    requires
        pos <= data@.len(),
    ensures
        r matches Ok(out) ==> pos <= out.1 <= data@.len() && data@.subrange(
            pos as int,
            out.1 as int,
        ) == enc_str(out.0@),
        forall|t: Seq<char>|
            #[trigger] enc_str(t).is_prefix_of(data@.skip(pos as int)) ==> (r matches Ok(out)
                && out.0@ == t && out.1 == pos + enc_str(t).len()),
        r is Err ==> r == Err::<(String, usize), Error>(Error::Corrupt),
{
    let ghost stream = data@.skip(pos as int);
    proof {
        lemma_auto_spec_u64_to_from_le_bytes();
    }
    let (len64, p1) = match read_u64(data, pos) {
        Ok(v) => v,
        Err(e) => {
            proof {
                assert forall|t: Seq<char>| !(#[trigger] enc_str(t).is_prefix_of(stream)) by {
                    if enc_str(t).is_prefix_of(stream) {
                        assert(enc_str(t).len() >= 8);
                        assert(stream.len() >= 8);
                    }
                }
            }
            return Err(e);
        },
    };
    if len64 > (data.len() - p1) as u64 {
        proof {
            assert forall|t: Seq<char>| !(#[trigger] enc_str(t).is_prefix_of(stream)) by {
                if enc_str(t).is_prefix_of(stream) {
                    lemma_prefix_parts(
                        enc_u64(encode_utf8(t).len() as u64),
                        encode_utf8(t),
                        stream,
                    );
                    assert(enc_u64(encode_utf8(t).len() as u64) =~= stream.subrange(0, 8));
                    assert(stream.subrange(0, 8) =~= data@.subrange(pos as int, pos + 8));
                    lemma_enc_u64_inj(encode_utf8(t).len() as u64, len64);
                    assert(encode_utf8(t).len() <= stream.len() - 8);
                }
            }
        }
        return Err(Error::Corrupt);
    }
    let n = len64 as usize;
    let bytes = slice_subrange(data, p1, p1 + n);
    match bytes_to_string(bytes) {
        Some(s) => {
            proof {
                assert(data@.subrange(pos as int, (p1 + n) as int) =~= data@.subrange(
                    pos as int,
                    p1 as int,
                ) + bytes@);
                assert(encode_utf8(s@).len() == n);
                assert(data@.subrange(pos as int, (p1 + n) as int) == enc_str(s@));
                assert forall|t: Seq<char>| #[trigger]
                    enc_str(t).is_prefix_of(stream) implies s@ == t && p1 + n == pos + enc_str(
                    t,
                ).len() by {
                    lemma_prefix_parts(
                        enc_u64(encode_utf8(t).len() as u64),
                        encode_utf8(t),
                        stream,
                    );
                    assert(enc_u64(encode_utf8(t).len() as u64) =~= stream.subrange(0, 8));
                    assert(stream.subrange(0, 8) =~= data@.subrange(pos as int, pos + 8));
                    lemma_enc_u64_inj(encode_utf8(t).len() as u64, len64);
                    assert(encode_utf8(t) =~= stream.skip(8).subrange(0, n as int));
                    assert(stream.skip(8).subrange(0, n as int) =~= data@.subrange(
                        p1 as int,
                        (p1 + n) as int,
                    ));
                    assert(encode_utf8(t) == bytes@);
                    assert(encode_utf8(s@) == encode_utf8(t));
                    encode_utf8_decode_utf8(s@);
                    encode_utf8_decode_utf8(t);
                }
            }
            Ok((s, p1 + n))
        },
        None => {
            proof {
                assert forall|t: Seq<char>| !(#[trigger] enc_str(t).is_prefix_of(stream)) by {
                    if enc_str(t).is_prefix_of(stream) {
                        lemma_prefix_parts(
                            enc_u64(encode_utf8(t).len() as u64),
                            encode_utf8(t),
                            stream,
                        );
                        assert(enc_u64(encode_utf8(t).len() as u64) =~= stream.subrange(0, 8));
                        assert(stream.subrange(0, 8) =~= data@.subrange(pos as int, pos + 8));
                        lemma_enc_u64_inj(encode_utf8(t).len() as u64, len64);
                        assert(encode_utf8(t) =~= stream.skip(8).subrange(0, n as int));
                        assert(stream.skip(8).subrange(0, n as int) =~= data@.subrange(
                            p1 as int,
                            (p1 + n) as int,
                        ));
                        assert(encode_utf8(t) == bytes@);
                        encode_utf8_valid_utf8(t);
                    }
                }
            }
            Err(Error::Corrupt)
        },
    }
}

/// Reads one file record; succeeds on every stream that starts with an
/// encoded file record, returning exactly that record.
fn parse_file(data: &[u8], pos: usize) -> (r: Result<(File, usize), Error>)
    requires
        pos <= data@.len(),
    ensures
        r matches Ok(out) ==> pos <= out.1 <= data@.len() && data@.subrange(
            pos as int,
            out.1 as int,
        ) == enc_file(out.0@),
        forall|f: FileView|
            #[trigger] enc_file(f).is_prefix_of(data@.skip(pos as int)) ==> (r matches Ok(out)
                && out.0@ == f && out.1 == pos + enc_file(f).len()),
        r is Err ==> r == Err::<(File, usize), Error>(Error::Corrupt),
{
    let ghost stream = data@.skip(pos as int);
    proof {
        lemma_auto_spec_u64_to_from_le_bytes();
        assert forall|f: FileView| #[trigger]
            enc_file(f).is_prefix_of(stream) implies stream.len() >= 1 && stream[0] == f.typ
            && enc_str(f.name).is_prefix_of(stream.skip(1)) && enc_u64(f.size).is_prefix_of(
            stream.skip(1).skip(enc_str(f.name).len() as int),
        ) by {
            assert(enc_file(f) =~= seq![f.typ] + (enc_str(f.name) + enc_u64(f.size)));
            lemma_prefix_parts(seq![f.typ], enc_str(f.name) + enc_u64(f.size), stream);
            assert(seq![f.typ] =~= stream.subrange(0, 1));
            assert(seq![f.typ][0] == f.typ);
            assert(stream.subrange(0, 1)[0] == stream[0]);
            assert(stream[0] == f.typ);
            lemma_prefix_parts(enc_str(f.name), enc_u64(f.size), stream.skip(1));
        }
    }
    if pos >= data.len() {
        return Err(Error::Corrupt);
    }
    let typ = *slice_index_get(data, pos);
    assert(typ == stream[0]);
    let (name, p1) = match read_str(data, pos + 1) {
        Ok(v) => v,
        Err(e) => {
            proof {
                assert forall|f: FileView| !(#[trigger] enc_file(f).is_prefix_of(stream)) by {
                    if enc_file(f).is_prefix_of(stream) {
                        assert(stream.skip(1) =~= data@.skip(pos + 1));
                    }
                }
            }
            return Err(e);
        },
    };
    let (size, p2) = match read_u64(data, p1) {
        Ok(v) => v,
        Err(e) => {
            proof {
                lemma_auto_spec_u64_to_from_le_bytes();
                assert forall|f: FileView| !(#[trigger] enc_file(f).is_prefix_of(stream)) by {
                    if enc_file(f).is_prefix_of(stream) {
                        assert(stream.skip(1) =~= data@.skip(pos + 1));
                        assert(name@ == f.name && p1 == pos + 1 + enc_str(f.name).len());
                        assert(stream.skip(1).skip(enc_str(f.name).len() as int) =~= data@.skip(
                            p1 as int,
                        ));
                        assert(data@.len() - p1 >= 8);
                    }
                }
            }
            return Err(e);
        },
    };
    let out = File { typ, name, size };
    proof {
        lemma_auto_spec_u64_to_from_le_bytes();
        assert(data@.subrange(pos as int, p2 as int) =~= seq![typ] + data@.subrange(
            pos + 1,
            p1 as int,
        ) + data@.subrange(p1 as int, p2 as int));
        assert(data@.subrange(pos as int, p2 as int) =~= enc_file(out@));
        assert forall|f: FileView| #[trigger]
            enc_file(f).is_prefix_of(stream) implies out@ == f && p2 == pos + enc_file(
            f,
        ).len() by {
            assert(stream.skip(1) =~= data@.skip(pos + 1));
            assert(name@ == f.name && p1 == pos + 1 + enc_str(f.name).len());
            assert(stream.skip(1).skip(enc_str(f.name).len() as int) =~= data@.skip(p1 as int));
            assert(enc_u64(f.size) =~= data@.skip(p1 as int).subrange(0, 8));
            assert(data@.skip(p1 as int).subrange(0, 8) =~= data@.subrange(p1 as int, p1 + 8));
            lemma_enc_u64_inj(f.size, size);
        }
    }
    Ok((out, p2))
}

/// Reads `count` file records; succeeds on every stream that starts with
/// `count` encoded records, returning exactly those.
fn parse_files(data: &[u8], pos: usize, count: u64) -> (r: Result<(Vec<File>, usize), Error>)
    requires
        pos <= data@.len(),
    ensures
        r matches Ok(out) ==> pos <= out.1 <= data@.len() && out.0@.len() == count
            && data@.subrange(pos as int, out.1 as int) == enc_files(files_view(out.0@)),
        forall|fs: Seq<FileView>|
            fs.len() == count && #[trigger] enc_files(fs).is_prefix_of(data@.skip(pos as int)) ==> (
            r matches Ok(out) && files_view(out.0@) == fs && out.1 == pos + enc_files(fs).len()),
        r is Err ==> r == Err::<(Vec<File>, usize), Error>(Error::Corrupt),
{
    let mut acc: Vec<File> = Vec::new();
    let mut cur = pos;
    let mut i: u64 = 0;
    proof {
        lemma_auto_spec_u64_to_from_le_bytes();
        assert(files_view(acc@) =~= Seq::<FileView>::empty());
        assert(data@.subrange(pos as int, pos as int) =~= Seq::<u8>::empty());
        assert(enc_files(files_view(acc@)) == Seq::<u8>::empty());
        assert forall|fs: Seq<FileView>|
            fs.len() == count && #[trigger] enc_files(fs).is_prefix_of(
                data@.skip(pos as int),
            ) implies files_view(acc@) == fs.take(0) && cur == pos + enc_files(
            fs.take(0),
        ).len() by {
            assert(fs.take(0) =~= Seq::<FileView>::empty());
        }
    }
    while i < count
        invariant
            pos <= cur <= data@.len(),
            i <= count,
            acc@.len() == i,
            data@.subrange(pos as int, cur as int) == enc_files(files_view(acc@)),
            forall|fs: Seq<FileView>|
                fs.len() == count && #[trigger] enc_files(fs).is_prefix_of(data@.skip(pos as int))
                    ==> files_view(acc@) == fs.take(i as int) && cur == pos + enc_files(
                    fs.take(i as int),
                ).len(),
        decreases count - i,
    {
        proof {
            assert forall|fs: Seq<FileView>|
                fs.len() == count && #[trigger] enc_files(fs).is_prefix_of(
                    data@.skip(pos as int),
                ) implies enc_file(fs[i as int]).is_prefix_of(data@.skip(cur as int)) by {
                lemma_enc_files_split(fs, i as int);
                lemma_enc_files_whole(fs, i as int);
                lemma_prefix_parts(
                    enc_files(fs.take(i as int)),
                    enc_files(fs.skip(i as int)),
                    data@.skip(pos as int),
                );
                assert(data@.skip(pos as int).skip(enc_files(fs.take(i as int)).len() as int)
                    =~= data@.skip(cur as int));
                lemma_prefix_parts(
                    enc_file(fs[i as int]),
                    enc_files(fs.skip(i + 1)),
                    data@.skip(cur as int),
                );
            }
        }
        let (f, p) = match parse_file(data, cur) {
            Ok(v) => v,
            Err(e) => {
                return Err(e);
            },
        };
        let ghost fv = f@;
        let ghost preacc = acc@;
        acc.push(f);
        proof {
            assert(acc@.drop_last() =~= preacc);
            assert(files_view(acc@) =~= files_view(preacc).push(fv));
            let accv = files_view(acc@);
            lemma_enc_files_take_step(accv, i as int);
            assert(accv.take(i as int) =~= files_view(preacc));
            assert(accv.take(i + 1) =~= accv);
            assert(accv[i as int] == fv);
            assert(data@.subrange(pos as int, p as int) =~= data@.subrange(pos as int, cur as int)
                + data@.subrange(cur as int, p as int));
            assert(data@.subrange(pos as int, p as int) == enc_files(accv));
            assert forall|fs: Seq<FileView>|
                fs.len() == count && #[trigger] enc_files(fs).is_prefix_of(
                    data@.skip(pos as int),
                ) implies accv == fs.take(i + 1) && p == pos + enc_files(fs.take(i + 1)).len() by {
                assert(fv == fs[i as int] && p == cur + enc_file(fs[i as int]).len());
                lemma_enc_files_take_step(fs, i as int);
                assert(accv =~= fs.take(i + 1));
            }
        }
        cur = p;
        i = i + 1;
    }
    proof {
        assert forall|fs: Seq<FileView>|
            fs.len() == count && #[trigger] enc_files(fs).is_prefix_of(
                data@.skip(pos as int),
            ) implies files_view(acc@) == fs && cur == pos + enc_files(fs).len() by {
            assert(fs.take(count as int) =~= fs);
        }
    }
    Ok((acc, cur))
}

/// Reads `count` length-prefixed strings; succeeds on every stream that
/// starts with `count` encoded strings, returning exactly those.
fn parse_strs(data: &[u8], pos: usize, count: u64) -> (r: Result<(Vec<String>, usize), Error>)
    requires
        pos <= data@.len(),
    ensures
        r matches Ok(out) ==> pos <= out.1 <= data@.len() && out.0@.len() == count
            && data@.subrange(pos as int, out.1 as int) == enc_strs(strs_view(out.0@)),
        forall|ss: Seq<Seq<char>>|
            ss.len() == count && #[trigger] enc_strs(ss).is_prefix_of(data@.skip(pos as int)) ==> (
            r matches Ok(out) && strs_view(out.0@) == ss && out.1 == pos + enc_strs(ss).len()),
        r is Err ==> r == Err::<(Vec<String>, usize), Error>(Error::Corrupt),
{
    let mut acc: Vec<String> = Vec::new();
    let mut cur = pos;
    let mut i: u64 = 0;
    proof {
        lemma_auto_spec_u64_to_from_le_bytes();
        assert(strs_view(acc@) =~= Seq::<Seq<char>>::empty());
        assert(data@.subrange(pos as int, pos as int) =~= Seq::<u8>::empty());
        assert(enc_strs(strs_view(acc@)) == Seq::<u8>::empty());
        assert forall|ss: Seq<Seq<char>>|
            ss.len() == count && #[trigger] enc_strs(ss).is_prefix_of(
                data@.skip(pos as int),
            ) implies strs_view(acc@) == ss.take(0) && cur == pos + enc_strs(ss.take(0)).len() by {
            assert(ss.take(0) =~= Seq::<Seq<char>>::empty());
        }
    }
    while i < count
        invariant
            pos <= cur <= data@.len(),
            i <= count,
            acc@.len() == i,
            data@.subrange(pos as int, cur as int) == enc_strs(strs_view(acc@)),
            forall|ss: Seq<Seq<char>>|
                ss.len() == count && #[trigger] enc_strs(ss).is_prefix_of(data@.skip(pos as int))
                    ==> strs_view(acc@) == ss.take(i as int) && cur == pos + enc_strs(
                    ss.take(i as int),
                ).len(),
        decreases count - i,
    {
        proof {
            assert forall|ss: Seq<Seq<char>>|
                ss.len() == count && #[trigger] enc_strs(ss).is_prefix_of(
                    data@.skip(pos as int),
                ) implies enc_str(ss[i as int]).is_prefix_of(data@.skip(cur as int)) by {
                lemma_enc_strs_split(ss, i as int);
                lemma_enc_strs_whole(ss, i as int);
                lemma_prefix_parts(
                    enc_strs(ss.take(i as int)),
                    enc_strs(ss.skip(i as int)),
                    data@.skip(pos as int),
                );
                assert(data@.skip(pos as int).skip(enc_strs(ss.take(i as int)).len() as int)
                    =~= data@.skip(cur as int));
                lemma_prefix_parts(
                    enc_str(ss[i as int]),
                    enc_strs(ss.skip(i + 1)),
                    data@.skip(cur as int),
                );
            }
        }
        let (s, p) = match read_str(data, cur) {
            Ok(v) => v,
            Err(e) => {
                return Err(e);
            },
        };
        let ghost sv = s@;
        let ghost preacc = acc@;
        acc.push(s);
        proof {
            assert(acc@.drop_last() =~= preacc);
            assert(strs_view(acc@) =~= strs_view(preacc).push(sv));
            let accv = strs_view(acc@);
            lemma_enc_strs_take_step(accv, i as int);
            assert(accv.take(i as int) =~= strs_view(preacc));
            assert(accv.take(i + 1) =~= accv);
            assert(accv[i as int] == sv);
            assert(data@.subrange(pos as int, p as int) =~= data@.subrange(pos as int, cur as int)
                + data@.subrange(cur as int, p as int));
            assert(data@.subrange(pos as int, p as int) == enc_strs(accv));
            assert forall|ss: Seq<Seq<char>>|
                ss.len() == count && #[trigger] enc_strs(ss).is_prefix_of(
                    data@.skip(pos as int),
                ) implies accv == ss.take(i + 1) && p == pos + enc_strs(ss.take(i + 1)).len() by {
                assert(sv == ss[i as int] && p == cur + enc_str(ss[i as int]).len());
                lemma_enc_strs_take_step(ss, i as int);
                assert(accv =~= ss.take(i + 1));
            }
        }
        cur = p;
        i = i + 1;
    }
    proof {
        assert forall|ss: Seq<Seq<char>>|
            ss.len() == count && #[trigger] enc_strs(ss).is_prefix_of(
                data@.skip(pos as int),
            ) implies strs_view(acc@) == ss && cur == pos + enc_strs(ss).len() by {
            assert(ss.take(count as int) =~= ss);
        }
    }
    Ok((acc, cur))
}

/// Reads one directory record; succeeds on every stream that starts with
/// an encoded record, returning exactly that record.
#[verifier::rlimit(100)]
fn parse_dir(data: &[u8], pos: usize) -> (r: Result<(Dir, usize), Error>)
    requires
        pos <= data@.len(),
    ensures
        r matches Ok(out) ==> pos <= out.1 <= data@.len() && data@.subrange(
            pos as int,
            out.1 as int,
        ) == enc_dir(out.0@),
        forall|d: DirView|
            #[trigger] enc_dir(d).is_prefix_of(data@.skip(pos as int)) ==> (r matches Ok(out)
                && out.0@ == d && out.1 == pos + enc_dir(d).len()),
        r is Err ==> r == Err::<(Dir, usize), Error>(Error::Corrupt),
{
    let data_len = data.len();
    proof {
        assert(data@.len() == data_len);
    }
    let ghost stream = data@.skip(pos as int);
    proof {
        assert(data@.len() <= u64::MAX);
        lemma_auto_spec_u64_to_from_le_bytes();
        assert forall|d: DirView| #[trigger]
            enc_dir(d).is_prefix_of(stream) implies enc_u64(d.size).is_prefix_of(stream) && enc_u64(
            d.files.len() as u64,
        ).is_prefix_of(stream.skip(8)) && enc_files(d.files).is_prefix_of(stream.skip(16))
            && enc_u64(d.children.len() as u64).is_prefix_of(
            stream.skip(16 + enc_files(d.files).len() as int),
        ) && enc_strs(d.children).is_prefix_of(
            stream.skip(24 + enc_files(d.files).len() as int),
        ) && d.files.len() <= data@.len() && d.children.len() <= data@.len() by {
            let rest1 = enc_u64(d.files.len() as u64) + (enc_files(d.files) + (enc_u64(
                d.children.len() as u64,
            ) + enc_strs(d.children)));
            assert(enc_dir(d) =~= enc_u64(d.size) + rest1);
            lemma_prefix_parts(enc_u64(d.size), rest1, stream);
            let rest2 = enc_files(d.files) + (enc_u64(d.children.len() as u64) + enc_strs(
                d.children,
            ));
            lemma_prefix_parts(enc_u64(d.files.len() as u64), rest2, stream.skip(8));
            assert(stream.skip(8).skip(8) =~= stream.skip(16));
            let rest3 = enc_u64(d.children.len() as u64) + enc_strs(d.children);
            lemma_prefix_parts(enc_files(d.files), rest3, stream.skip(16));
            assert(stream.skip(16).skip(enc_files(d.files).len() as int) =~= stream.skip(
                16 + enc_files(d.files).len() as int,
            ));
            lemma_prefix_parts(
                enc_u64(d.children.len() as u64),
                enc_strs(d.children),
                stream.skip(16 + enc_files(d.files).len() as int),
            );
            assert(stream.skip(16 + enc_files(d.files).len() as int).skip(8) =~= stream.skip(
                24 + enc_files(d.files).len() as int,
            ));
            lemma_enc_files_len(d.files);
            lemma_enc_strs_len(d.children);
        }
    }
    let (size, p1) = match read_u64(data, pos) {
        Ok(v) => v,
        Err(e) => {
            return Err(e);
        },
    };
    let (fcount, p2) = match read_u64(data, p1) {
        Ok(v) => v,
        Err(e) => {
            proof {
                assert forall|d: DirView| !(#[trigger] enc_dir(d).is_prefix_of(stream)) by {
                    if enc_dir(d).is_prefix_of(stream) {
                        assert(stream.skip(8) =~= data@.skip(p1 as int));
                    }
                }
            }
            return Err(e);
        },
    };
    let ghost efiles = |f: FileView| enc_file(f);
    let (files, p3) = match parse_files(data, p2, fcount) {
        Ok(v) => v,
        Err(e) => {
            proof {
                assert forall|d: DirView| !(#[trigger] enc_dir(d).is_prefix_of(stream)) by {
                    if enc_dir(d).is_prefix_of(stream) {
                        assert(stream.skip(8) =~= data@.skip(p1 as int));
                        assert(enc_u64(d.files.len() as u64) =~= data@.subrange(
                            p1 as int,
                            p2 as int,
                        ));
                        lemma_enc_u64_inj(d.files.len() as u64, fcount);
                        assert(stream.skip(16) =~= data@.skip(p2 as int));
                        assert(d.files.len() as u64 == fcount);
                        assert(d.files.len() == fcount as int);
                    }
                }
            }
            return Err(e);
        },
    };
    let (ccount, p4) = match read_u64(data, p3) {
        Ok(v) => v,
        Err(e) => {
            proof {
                assert forall|d: DirView| !(#[trigger] enc_dir(d).is_prefix_of(stream)) by {
                    if enc_dir(d).is_prefix_of(stream) {
                        assert(stream.skip(8) =~= data@.skip(p1 as int));
                        assert(enc_u64(d.files.len() as u64) =~= data@.subrange(
                            p1 as int,
                            p2 as int,
                        ));
                        lemma_enc_u64_inj(d.files.len() as u64, fcount);
                        assert(d.files.len() == fcount as int);
                        assert(stream.skip(16) =~= data@.skip(p2 as int));
                        assert(files_view(files@) == d.files && p3 == p2 + enc_files(
                            d.files,
                        ).len());
                        assert(stream.skip(16 + enc_files(d.files).len() as int) =~= data@.skip(
                            p3 as int,
                        ));
                        assert(data@.len() - p3 >= 8);
                    }
                }
            }
            return Err(e);
        },
    };
    let (children, p5) = match parse_strs(data, p4, ccount) {
        Ok(v) => v,
        Err(e) => {
            proof {
                assert forall|d: DirView| !(#[trigger] enc_dir(d).is_prefix_of(stream)) by {
                    if enc_dir(d).is_prefix_of(stream) {
                        assert(stream.skip(8) =~= data@.skip(p1 as int));
                        assert(enc_u64(d.files.len() as u64) =~= data@.subrange(
                            p1 as int,
                            p2 as int,
                        ));
                        lemma_enc_u64_inj(d.files.len() as u64, fcount);
                        assert(d.files.len() == fcount as int);
                        assert(stream.skip(16) =~= data@.skip(p2 as int));
                        assert(files_view(files@) == d.files && p3 == p2 + enc_files(
                            d.files,
                        ).len());
                        assert(stream.skip(16 + enc_files(d.files).len() as int) =~= data@.skip(
                            p3 as int,
                        ));
                        assert(enc_u64(d.children.len() as u64) =~= data@.subrange(
                            p3 as int,
                            p4 as int,
                        ));
                        lemma_enc_u64_inj(d.children.len() as u64, ccount);
                        assert(d.children.len() == ccount as int);
                        assert(stream.skip(24 + enc_files(d.files).len() as int) =~= data@.skip(
                            p4 as int,
                        ));
                    }
                }
            }
            return Err(e);
        },
    };
    let out = Dir { size, file: files, children };
    proof {
        assert(out@.files == files_view(files@));
        assert(out@.children == strs_view(children@));
        assert(data@.subrange(pos as int, p5 as int) =~= data@.subrange(pos as int, p1 as int)
            + data@.subrange(p1 as int, p2 as int) + data@.subrange(p2 as int, p3 as int)
            + data@.subrange(p3 as int, p4 as int) + data@.subrange(p4 as int, p5 as int));
        assert(enc_dir(out@) =~= enc_u64(out@.size) + enc_u64(out@.files.len() as u64) + enc_files(
            out@.files,
        ) + enc_u64(out@.children.len() as u64) + enc_strs(out@.children));
        assert(data@.subrange(pos as int, p5 as int) == enc_dir(out@));
        assert forall|d: DirView| #[trigger]
            enc_dir(d).is_prefix_of(stream) implies out@ == d && p5 == pos + enc_dir(d).len() by {
            assert(stream.skip(8) =~= data@.skip(p1 as int));
            assert(enc_u64(d.size) =~= data@.subrange(pos as int, p1 as int));
            lemma_enc_u64_inj(d.size, size);
            assert(enc_u64(d.files.len() as u64) =~= data@.subrange(p1 as int, p2 as int));
            lemma_enc_u64_inj(d.files.len() as u64, fcount);
            assert(d.files.len() == fcount as int);
            assert(stream.skip(16) =~= data@.skip(p2 as int));
            assert(files_view(files@) == d.files && p3 == p2 + enc_files(d.files).len());
            assert(stream.skip(16 + enc_files(d.files).len() as int) =~= data@.skip(p3 as int));
            assert(enc_u64(d.children.len() as u64) =~= data@.subrange(p3 as int, p4 as int));
            lemma_enc_u64_inj(d.children.len() as u64, ccount);
            assert(d.children.len() == ccount as int);
            assert(stream.skip(24 + enc_files(d.files).len() as int) =~= data@.skip(p4 as int));
            assert(strs_view(children@) == d.children && p5 == p4 + enc_strs(d.children).len());
        }
    }
    Ok((out, p5))
}

/// Parses a whole snapshot out of its binary layout.  Succeeds exactly on
/// the full encodings of well-formed snapshots, reconstructing the
/// encoded snapshot; any other input — truncated, malformed, trailed by
/// extra bytes, or holding a repeated key — is rejected.
#[verifier::rlimit(100)]
pub fn decode(data: &[u8]) -> (r: Result<Snapshot, Error>)
    ensures
        r matches Ok(snap) ==> snap_wf(snap@) && data@ == spec_encode(snap@),
        forall|s: Seq<(Seq<char>, DirView)>|
            snap_wf(s) && data@ == #[trigger] spec_encode(s) ==> (r matches Ok(snap) && snap@ == s),
        r is Err ==> r == Err::<Snapshot, Error>(Error::Corrupt),
{
    let data_len = data.len();
    proof {
        assert(data@.len() == data_len);
    }
    proof {
        assert(data@.len() <= u64::MAX);
        assert forall|s: Seq<(Seq<char>, DirView)>|
            data@ == #[trigger] spec_encode(s) implies enc_u64(s.len() as u64).is_prefix_of(data@)
            && enc_pairs(s).is_prefix_of(data@.skip(8)) && s.len() <= data@.len() by {
            lemma_auto_spec_u64_to_from_le_bytes();
            lemma_prefix_parts(enc_u64(s.len() as u64), enc_pairs(s), data@);
            lemma_enc_pairs_len(s);
        }
    }
    let (count, start) = match read_u64(data, 0) {
        Ok(v) => v,
        Err(e) => {
            proof {
                lemma_auto_spec_u64_to_from_le_bytes();
                assert forall|s: Seq<(Seq<char>, DirView)>|
                    data@ != #[trigger] spec_encode(s) by {
                    if data@ == spec_encode(s) {
                        assert(enc_u64(s.len() as u64).is_prefix_of(data@));
                        assert(data@.len() >= 8);
                    }
                }
            }
            return Err(e);
        },
    };
    let mut snap = Snapshot::new();
    let mut cur = start;
    let mut i: u64 = 0;
    proof {
        lemma_auto_spec_u64_to_from_le_bytes();
        assert(data@.skip(0) =~= data@);
        assert forall|s: Seq<(Seq<char>, DirView)>|
            data@ == #[trigger] spec_encode(s) implies s.len() as u64 == count && snap@ == s.take(0)
            && cur == 8 + enc_pairs(s.take(0)).len() by {
            assert(enc_u64(s.len() as u64) =~= data@.subrange(0, 8));
            lemma_enc_u64_inj(s.len() as u64, count);
            assert(s.take(0) =~= Seq::<(Seq<char>, DirView)>::empty());
            assert(snap@ =~= s.take(0));
        }
    }
    while i < count
        invariant
            8 <= cur <= data@.len(),
            start == 8,
            i <= count,
            snap@.len() == i,
            snap_wf(snap@),
            data@.subrange(8, cur as int) == enc_pairs(snap@),
            data@.subrange(0, 8) == enc_u64(count),
            forall|s: Seq<(Seq<char>, DirView)>|
                data@ == #[trigger] spec_encode(s) ==> s.len() as u64 == count && snap@ == s.take(
                    i as int,
                ) && cur == 8 + enc_pairs(s.take(i as int)).len(),
        decreases count - i,
    {
        proof {
            assert forall|s: Seq<(Seq<char>, DirView)>|
                data@ == #[trigger] spec_encode(s) implies i < s.len() && enc_str(
                s[i as int].0,
            ).is_prefix_of(data@.skip(cur as int)) && enc_dir(s[i as int].1).is_prefix_of(
                data@.skip(cur + enc_str(s[i as int].0).len() as int),
            ) by {
                lemma_auto_spec_u64_to_from_le_bytes();
                lemma_prefix_parts(enc_u64(s.len() as u64), enc_pairs(s), data@);
                assert(enc_u64(s.len() as u64) =~= data@.subrange(0, 8));
                lemma_enc_u64_inj(s.len() as u64, count);
                lemma_enc_pairs_len(s);
                assert(i < s.len());
                lemma_enc_pairs_split(s, i as int);
                lemma_enc_pairs_whole(s, i as int);
                lemma_prefix_parts(
                    enc_pairs(s.take(i as int)),
                    enc_pairs(s.skip(i as int)),
                    data@.skip(8),
                );
                assert(data@.skip(8).skip(enc_pairs(s.take(i as int)).len() as int) =~= data@.skip(
                    cur as int,
                ));
                lemma_prefix_parts(enc_pair(s[i as int]), enc_pairs(s.skip(i + 1)), data@.skip(
                    cur as int,
                ));
                lemma_prefix_parts(
                    enc_str(s[i as int].0),
                    enc_dir(s[i as int].1),
                    data@.skip(cur as int),
                );
                assert(data@.skip(cur as int).skip(enc_str(s[i as int].0).len() as int)
                    =~= data@.skip(cur + enc_str(s[i as int].0).len() as int));
            }
        }
        let (key, p1) = match read_str(data, cur) {
            Ok(v) => v,
            Err(e) => {
                return Err(e);
            },
        };
        let (d, p2) = match parse_dir(data, p1) {
            Ok(v) => v,
            Err(e) => {
                proof {
                    assert forall|s: Seq<(Seq<char>, DirView)>|
                        data@ != #[trigger] spec_encode(s) || !snap_wf(s) by {
                        if data@ == spec_encode(s) {
                            assert(key@ == s[i as int].0 && p1 == cur + enc_str(
                                s[i as int].0,
                            ).len());
                            assert(enc_dir(s[i as int].1).is_prefix_of(data@.skip(p1 as int)));
                        }
                    }
                }
                return Err(e);
            },
        };
        match snap.find_idx(&key) {
            Some(_dup) => {
                proof {
                    assert forall|s: Seq<(Seq<char>, DirView)>|
                        data@ != #[trigger] spec_encode(s) || !snap_wf(s) by {
                        if data@ == spec_encode(s) && snap_wf(s) {
                            assert(key@ == s[i as int].0);
                            let j = choose|j: int| 0 <= j < snap@.len() && snap@[j].0 == key@;
                            assert(snap@[j] == s.take(i as int)[j]);
                            assert(s[j].0 == s[i as int].0);
                        }
                    }
                }
                return Err(Error::Corrupt);
            },
            None => {},
        }
        let ghost presnap = snap@;
        let ghost kv = key@;
        let ghost dv = d@;
        snap.insert_new(key, d);
        proof {
            assert(snap@.drop_last() =~= presnap);
            assert(snap_wf(snap@)) by {
                assert forall|a: int, b: int| 0 <= a < b < snap@.len() implies snap@[a].0
                    != snap@[b].0 by {
                    if b < snap@.len() - 1 {
                        assert(snap@[a] == presnap[a] && snap@[b] == presnap[b]);
                    } else {
                        assert(snap@[a] == presnap[a]);
                        assert(presnap[a].0 != kv);
                    }
                }
            }
            let snapv = snap@;
            lemma_enc_pairs_take_step(snapv, i as int);
            assert(snapv.take(i as int) =~= presnap);
            assert(snapv.take(i + 1) =~= snapv);
            assert(enc_pair(snapv[i as int]) == enc_str(kv) + enc_dir(dv));
            assert(data@.subrange(8, p2 as int) =~= data@.subrange(8, cur as int) + (data@.subrange(
                cur as int,
                p1 as int,
            ) + data@.subrange(p1 as int, p2 as int)));
            assert(data@.subrange(8, p2 as int) == enc_pairs(snap@));
            assert forall|s: Seq<(Seq<char>, DirView)>|
                data@ == #[trigger] spec_encode(s) implies snap@ == s.take(i + 1) && p2 == 8
                + enc_pairs(s.take(i + 1)).len() by {
                assert(kv == s[i as int].0 && p1 == cur + enc_str(s[i as int].0).len());
                assert(dv == s[i as int].1 && p2 == p1 + enc_dir(s[i as int].1).len());
                lemma_enc_pairs_take_step(s, i as int);
                assert(snap@ =~= s.take(i + 1));
            }
        }
        cur = p2;
        i = i + 1;
    }
    if cur != data.len() {
        proof {
            assert forall|s: Seq<(Seq<char>, DirView)>|
                data@ != #[trigger] spec_encode(s) || !snap_wf(s) by {
                if data@ == spec_encode(s) {
                    assert(s.take(s.len() as int) =~= s);
                    assert(cur == 8 + enc_pairs(s).len());
                    assert(data@.len() == spec_encode(s).len());
                }
            }
        }
        return Err(Error::Corrupt);
    }
    proof {
        assert(snap@.take(snap@.len() as int) =~= snap@);
        assert(data@ =~= data@.subrange(0, 8) + data@.subrange(8, data@.len() as int));
        assert(data@ == spec_encode(snap@)) by {
            assert(snap@.len() as u64 == count) by {
                assert(snap@.len() == i);
            }
            assert(enc_u64(snap@.len() as u64) == data@.subrange(0, 8)) by {
                lemma_auto_spec_u64_to_from_le_bytes();
            }
        }
        assert forall|s: Seq<(Seq<char>, DirView)>|
            snap_wf(s) && data@ == #[trigger] spec_encode(s) implies snap@ == s by {
            assert(snap@ == s.take(i as int));
            assert(s.len() as u64 == count);
            assert(s.len() <= data@.len());
            assert(i == s.len());
            assert(s.take(s.len() as int) =~= s);
        }
    }
    Ok(snap)
}

} // verus!
