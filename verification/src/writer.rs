use vstd::prelude::*;

use byteorder::{BigEndian, LittleEndian, WriteBytesExt};

use crate::layout::{
    archive_bytes, data_size_of, fits, insert_by_len, insert_pos, lemma_data_bytes_take_step,
    lemma_data_size_nonneg, lemma_data_size_take_step, lemma_insert_pos, lemma_sizes_of_prefix,
    lemma_sort_by_len_len, lemma_sort_by_len_sizes, lemma_table_bytes_take_step,
    lemma_table_size_nonneg, lemma_table_size_take_step, magic_of, sort_by_len, table_size_of,
    u32_be, u32_le, FileV, FormatError, Kind,
};

verus! {

/// One source file tracked by its path text (as raw bytes) and its
/// byte length.
pub struct Entry {
    pub name: Vec<u8>,
    pub len: u32,
}

impl Entry {
    pub fn new(name: Vec<u8>, len: u32) -> (e: Entry)
        ensures
            e.name@ == name@,
            e.len == len,
    {
        Entry { name, len }
    }
}

/// One input file handed to the packer: its path text as raw bytes,
/// and its full content.
pub struct FileData {
    pub name: Vec<u8>,
    pub data: Vec<u8>,
}

impl View for FileData {
    type V = FileV;

    open spec fn view(&self) -> FileV {
        FileV { name: self.name@, data: self.data@ }
    }
}

impl FileData {
    pub fn new(name: Vec<u8>, data: Vec<u8>) -> (f: FileData)
        ensures
            f@.name == name@,
            f@.data == data@,
    {
        FileData { name, data }
    }
}

/// The mathematical image of a run of input files.
pub open spec fn views(fs: Seq<FileData>) -> Seq<FileV> {
    fs.map_values(|f: FileData| f@)
}

/// Encoded table size of a run of entries: the sum of each record's
/// exact encoded length.
pub open spec fn entries_table_size(es: Seq<Entry>) -> int
    decreases es.len(),
{
    if es.len() == 0 {
        0
    } else {
        entries_table_size(es.drop_last()) + 9 + es.last().name@.len() as int
    }
}

proof fn lemma_entries_table_size_take_step(es: Seq<Entry>, i: int)
    requires
        0 <= i < es.len(),
    ensures
        entries_table_size(es.take(i + 1)) == entries_table_size(es.take(i)) + 9
            + es[i].name@.len(),
{
    assert(es.take(i + 1).drop_last() =~= es.take(i));
    assert(es.take(i + 1).last() == es[i]);
}

proof fn lemma_entries_table_size_nonneg(es: Seq<Entry>)
    ensures
        entries_table_size(es) >= 0,
    decreases es.len(),
{
    if es.len() > 0 {
        lemma_entries_table_size_nonneg(es.drop_last());
    }
}

proof fn lemma_entries_table_size_prefix(es: Seq<Entry>, i: int)
    requires
        0 <= i <= es.len(),
    ensures
        0 <= entries_table_size(es.take(i)) <= entries_table_size(es),
    decreases es.len() - i,
{
    lemma_entries_table_size_nonneg(es.take(i));
    if i == es.len() {
        assert(es.take(i) =~= es);
    } else {
        lemma_entries_table_size_take_step(es, i);
        lemma_entries_table_size_prefix(es, i + 1);
    }
}

/// Exact encoded size of one table record: offset (4) + length (4) +
/// name bytes + trailing NUL (1).
pub fn table_record_size(e: &Entry) -> (r: u32)
    requires
        9 + e.name@.len() <= u32::MAX,
    ensures
        r == 9 + e.name@.len(),
{
    let n = e.name.len();
    4 + 4 + (n as u32) + 1
}

/// Total encoded size of the table for the entries, in order.
pub fn calc_table_size(entries: &Vec<Entry>) -> (r: u32)
    requires
        entries_table_size(entries@) <= u32::MAX,
    ensures
        r == entries_table_size(entries@),
{
    let mut total: u32 = 0;
    let mut i: usize = 0;
    while i < entries.len()
        invariant
            i <= entries@.len(),
            total == entries_table_size(entries@.take(i as int)),
            entries_table_size(entries@) <= u32::MAX,
        decreases entries@.len() - i,
    {
        proof {
            lemma_entries_table_size_take_step(entries@, i as int);
            lemma_entries_table_size_prefix(entries@, i as int);
            lemma_entries_table_size_prefix(entries@, i + 1);
        }
        let r = table_record_size(&entries[i]);
        total = total + r;
        i = i + 1;
    }
    proof {
        assert(entries@.take(entries@.len() as int) =~= entries@);
    }
    total
}

/// Reorders the files by ascending content length with a stable
/// insertion sort: files of equal length keep their input order.
pub fn sort_files(files: Vec<FileData>) -> (r: Vec<FileData>)
    ensures
        views(r@) == sort_by_len(views(files@)),
{
    let ghost orig = views(files@);
    let mut rest = files;
    let mut out: Vec<FileData> = Vec::new();
    while rest.len() > 0
        invariant
            rest@.len() <= orig.len(),
            views(rest@) == orig.skip(orig.len() - rest@.len()),
            views(out@) == sort_by_len(orig.take(orig.len() - rest@.len())),
        decreases rest@.len(),
    {
        let ghost k = orig.len() - rest@.len();
        let ghost rbefore = rest@;
        let f = rest.remove(0);
        proof {
            assert(views(rbefore)[0] == rbefore[0]@);
            assert(views(rbefore)[0] == orig.skip(k as int)[0]);
            assert(f@ == orig[k as int]);
            assert forall|j: int| 0 <= j < rest@.len() implies views(rest@)[j] == orig.skip(
                k as int + 1,
            )[j] by {
                assert(rest@[j] == rbefore[j + 1]);
                assert(views(rbefore)[j + 1] == rbefore[j + 1]@);
                assert(views(rbefore)[j + 1] == orig.skip(k as int)[j + 1]);
            }
            assert(views(rest@) =~= orig.skip(k as int + 1));
        }
        let mut p: usize = 0;
        while p < out.len() && out[p].data.len() <= f.data.len()
            invariant
                p <= out@.len(),
                forall|j: int| 0 <= j < p ==> views(out@)[j].data.len() <= f@.data.len(),
            decreases out@.len() - p,
        {
            p = p + 1;
        }
        proof {
            let s = views(out@);
            lemma_insert_pos(s, f@);
            let ip = insert_pos(s, f@);
            if p < ip {
                assert(s[p as int].data.len() <= f@.data.len());
            }
            if ip < p {
                assert(s[ip].data.len() <= f@.data.len());
            }
            assert(p == ip);
        }
        let ghost prev = views(out@);
        out.insert(p, f);
        proof {
            assert(views(out@) =~= prev.insert(p as int, f@));
            assert(views(out@) == insert_by_len(prev, f@));
            assert(orig.take(k + 1).drop_last() =~= orig.take(k as int));
            assert(orig.take(k + 1).last() == orig[k as int]);
            assert(views(out@) == sort_by_len(orig.take(k + 1)));
        }
    }
    proof {
        assert(orig.take(orig.len() as int) =~= orig);
    }
    out
}

/// Entries whose names equal the files' names record the same table
/// size, however it is summed.
proof fn lemma_entries_match_table_size(es: Seq<Entry>, fs: Seq<FileV>)
    requires
        es.len() == fs.len(),
        forall|j: int| 0 <= j < es.len() ==> es[j].name@ == fs[j].name,
    ensures
        entries_table_size(es) == table_size_of(fs),
    decreases es.len(),
{
    if es.len() > 0 {
        lemma_entries_match_table_size(es.drop_last(), fs.drop_last());
        assert(es.last().name@ == fs.last().name);
    }
}

/// A fresh owned copy of the given bytes.
fn copy_bytes(src: &[u8]) -> (r: Vec<u8>)
    ensures
        r@ == src@,
{
    let mut v: Vec<u8> = Vec::new();
    push_bytes(&mut v, src);
    v
}

/// Relies on byteorder's `WriteBytesExt::write_u32::<BigEndian>`:
/// `BigEndian::write_u32` stores the four bytes of `v` most
/// significant first (`v.to_be_bytes()`), and writing to a `Vec<u8>`
/// appends and cannot fail.
#[verifier::external_body]
fn write_u32_be(buf: &mut Vec<u8>, v: u32)
    ensures
        final(buf)@ == old(buf)@ + u32_be(v),
{
    buf.write_u32::<BigEndian>(v).expect("writes to a Vec cannot fail");
}

/// Relies on byteorder's `WriteBytesExt::write_u32::<LittleEndian>`:
/// `LittleEndian::write_u32` stores the four bytes of `v` least
/// significant first (`v.to_le_bytes()`), and writing to a `Vec<u8>`
/// appends and cannot fail.
#[verifier::external_body]
fn write_u32_le(buf: &mut Vec<u8>, v: u32)
    ensures
        final(buf)@ == old(buf)@ + u32_le(v),
{
    buf.write_u32::<LittleEndian>(v).expect("writes to a Vec cannot fail");
}

/// Appends every byte of `src` to `buf`, in order.
fn push_bytes(buf: &mut Vec<u8>, src: &[u8])
    ensures
        final(buf)@ == old(buf)@ + src@,
{
    let mut i: usize = 0;
    while i < src.len()
        invariant
            i <= src@.len(),
            buf@ == old(buf)@ + src@.take(i as int),
        decreases src@.len() - i,
    {
        buf.push(src[i]);
        proof {
            assert(old(buf)@ + src@.take(i + 1) =~= (old(buf)@ + src@.take(i as int)).push(
                src@[i as int],
            ));
        }
        i = i + 1;
    }
    proof {
        assert(src@.take(src@.len() as int) =~= src@);
    }
}

/// The side-channel block a caller supplied, or no bytes at all.
pub open spec fn secret_view(secret: Option<&[u8]>) -> Seq<u8> {
    match secret {
        Some(s) => s@,
        None => Seq::empty(),
    }
}

/// Decides whether the whole archive image for these files and this
/// side-channel length fits the format's unsigned 32-bit fields.
pub fn archive_fits(files: &Vec<FileData>, secret_len: usize) -> (b: bool)
    ensures
        b == fits(views(files@), secret_len as int),
{
    let ghost fv = views(files@);
    proof {
        lemma_table_size_nonneg(fv);
        lemma_data_size_nonneg(fv);
    }
    if secret_len > u32::MAX as usize {
        return false;
    }
    let mut acc: u64 = crate::HEADER_LEN as u64 + secret_len as u64;
    if acc > u32::MAX as u64 {
        return false;
    }
    let mut i: usize = 0;
    while i < files.len()
        invariant
            i <= files@.len(),
            fv == views(files@),
            secret_len <= u32::MAX,
            acc == crate::HEADER_LEN + secret_len + table_size_of(fv.take(i as int))
                + data_size_of(fv.take(i as int)),
            acc <= u32::MAX,
        decreases files@.len() - i,
    {
        proof {
            lemma_table_size_take_step(fv, i as int);
            lemma_data_size_take_step(fv, i as int);
            lemma_sizes_of_prefix(fv, i as int);
            lemma_sizes_of_prefix(fv, i + 1);
            lemma_table_size_nonneg(fv.take(i as int));
            lemma_data_size_nonneg(fv.take(i as int));
            lemma_table_size_nonneg(fv.take(i + 1));
            lemma_data_size_nonneg(fv.take(i + 1));
        }
        let n = files[i].name.len();
        if n > (u32::MAX - 9) as usize {
            return false;
        }
        acc = acc + n as u64 + 9;
        if acc > u32::MAX as u64 {
            return false;
        }
        let d = files[i].data.len();
        if d > u32::MAX as usize {
            return false;
        }
        acc = acc + d as u64;
        if acc > u32::MAX as u64 {
            return false;
        }
        i = i + 1;
    }
    proof {
        assert(fv.take(files@.len() as int) =~= fv);
    }
    true
}

/// Builds the complete archive image for the given input files and
/// optional side-channel block, as one byte buffer: header, table
/// (entries sorted by ascending content length, offsets cumulative
/// from `data_start`), the side-channel block verbatim, then every
/// file's content in table order. The reserved size field of the
/// header is always written as zero. Packing with the unrecognized
/// kind is refused before anything is built.
#[verifier::loop_isolation(false)]
#[verifier::rlimit(60)]
pub fn build_archive(kind: Kind, files: Vec<FileData>, secret: Option<&[u8]>) -> (r: Result<
    Vec<u8>,
    FormatError,
>)
    requires
        fits(views(files@), secret_view(secret).len() as int),
    ensures
        r is Err <==> kind is Unknown,
        kind is Unknown ==> r == Err::<Vec<u8>, FormatError>(FormatError::UnrecognizedKind),
        r is Ok ==> (r->Ok_0)@ == archive_bytes(
            kind,
            sort_by_len(views(files@)),
            secret_view(secret),
        ),
{
    if let Kind::Unknown = kind {
        return Err(FormatError::UnrecognizedKind);
    }
    let ghost fv = views(files@);
    let ghost sl = secret_view(secret).len() as int;
    let sorted = sort_files(files);
    let ghost sv = sort_by_len(fv);
    proof {
        lemma_sort_by_len_sizes(fv);
        lemma_sort_by_len_len(fv);
        lemma_table_size_nonneg(sv);
        lemma_data_size_nonneg(sv);
    }
    // The table metadata: one entry per file, in table order.
    let mut entries: Vec<Entry> = Vec::new();
    let mut i: usize = 0;
    while i < sorted.len()
        invariant
            i <= sorted@.len(),
            entries@.len() == i,
            forall|j: int|
                0 <= j < i ==> #[trigger] entries@[j].name@ == sv[j].name && entries@[j].len
                    == sv[j].data.len(),
        decreases sorted@.len() - i,
    {
        proof {
            assert(views(sorted@)[i as int] == sorted@[i as int]@);
            lemma_data_size_take_step(sv, i as int);
            lemma_data_size_nonneg(sv.take(i as int));
            lemma_sizes_of_prefix(sv, i + 1);
        }
        let name = copy_bytes(sorted[i].name.as_slice());
        let len = sorted[i].data.len();
        entries.push(Entry::new(name, len as u32));
        i = i + 1;
    }
    proof {
        lemma_entries_match_table_size(entries@, sv);
        assert(table_size_of(sv) <= u32::MAX);
    }
    let ts = calc_table_size(&entries);
    let secret_len: u32 = match secret {
        Some(s) => s.len() as u32,
        None => 0,
    };
    let count: u32 = sorted.len() as u32;
    proof {
        lemma_data_size_nonneg(sv);
    }
    let data_start: u32 = crate::HEADER_LEN + ts + secret_len;
    let mut buf: Vec<u8> = Vec::new();
    match kind {
        Kind::Big4 => {
            buf.push(0x42);
            buf.push(0x49);
            buf.push(0x47);
            buf.push(0x34);
        },
        Kind::BigF => {
            buf.push(0x42);
            buf.push(0x49);
            buf.push(0x47);
            buf.push(0x46);
        },
        Kind::Unknown => {
            proof {
                assert(false);
            }
        },
    }
    proof {
        assert(buf@ =~= magic_of(kind));
    }
    write_u32_le(&mut buf, 0);
    write_u32_be(&mut buf, count);
    write_u32_be(&mut buf, data_start);
    let ghost hdr = crate::layout::header_bytes(kind, count, data_start);
    proof {
        assert(buf@ =~= hdr);
    }
    // The table: one record per entry, offsets cumulative.
    let mut off: u32 = data_start;
    i = 0;
    while i < sorted.len()
        invariant
            i <= sorted@.len(),
            sv == views(sorted@),
            fits(sv, sl),
            ts == table_size_of(sv),
            data_start == crate::HEADER_LEN + ts + sl,
            off == data_start + data_size_of(sv.take(i as int)),
            buf@ == hdr + crate::layout::table_bytes(sv.take(i as int), data_start as int),
        decreases sorted@.len() - i,
    {
        proof {
            lemma_data_size_take_step(sv, i as int);
            lemma_data_size_nonneg(sv.take(i as int));
            lemma_sizes_of_prefix(sv, i + 1);
            assert(views(sorted@)[i as int] == sorted@[i as int]@);
        }
        write_u32_be(&mut buf, off);
        let dlen = sorted[i].data.len();
        write_u32_be(&mut buf, dlen as u32);
        push_bytes(&mut buf, sorted[i].name.as_slice());
        buf.push(0u8);
        proof {
            lemma_table_bytes_take_step(sv, data_start as int, i as int);
            assert(buf@ =~= hdr + crate::layout::table_bytes(sv.take(i + 1), data_start as int));
        }
        off = off + dlen as u32;
        i = i + 1;
    }
    proof {
        assert(sv.take(sorted@.len() as int) =~= sv);
    }
    let ghost tbl = crate::layout::table_bytes(sv, data_start as int);
    // The side-channel block, verbatim.
    match secret {
        Some(s) => push_bytes(&mut buf, s),
        None => (),
    }
    proof {
        assert(buf@ =~= hdr + tbl + secret_view(secret));
    }
    // The data region: every file's content, in table order.
    i = 0;
    while i < sorted.len()
        invariant
            i <= sorted@.len(),
            sv == views(sorted@),
            buf@ == hdr + tbl + secret_view(secret) + crate::layout::data_bytes(
                sv.take(i as int),
            ),
        decreases sorted@.len() - i,
    {
        proof {
            assert(views(sorted@)[i as int] == sorted@[i as int]@);
        }
        push_bytes(&mut buf, sorted[i].data.as_slice());
        proof {
            lemma_data_bytes_take_step(sv, i as int);
            assert(buf@ =~= hdr + tbl + secret_view(secret) + crate::layout::data_bytes(
                sv.take(i + 1),
            ));
        }
        i = i + 1;
    }
    proof {
        assert(sv.take(sorted@.len() as int) =~= sv);
        assert(buf@ =~= archive_bytes(kind, sv, secret_view(secret)));
    }
    Ok(buf)
}

} // verus!
