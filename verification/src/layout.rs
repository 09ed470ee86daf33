use vstd::prelude::*;

verus! {

/// Which container variant to produce; the variant selects the 4-byte
/// magic tag written at offset 0 of the archive.
#[derive(Clone, Copy, PartialEq, Eq, Structural, Debug)]
pub enum Kind {
    Big4,
    BigF,
    Unknown,
}

/// Input-validation failure: packing was requested with a kind that has
/// no producible on-disk tag.
#[derive(Clone, Copy, PartialEq, Eq, Structural, Debug)]
pub enum FormatError {
    UnrecognizedKind,
}

/// Mathematical image of one input file: its path text as raw bytes,
/// and its content bytes.
pub ghost struct FileV {
    pub name: Seq<u8>,
    pub data: Seq<u8>,
}

/// The four bytes of `v` in big-endian order.
pub open spec fn u32_be(v: u32) -> Seq<u8> {
    seq![
        ((v >> 24) & 0xff) as u8,
        ((v >> 16) & 0xff) as u8,
        ((v >> 8) & 0xff) as u8,
        (v & 0xff) as u8,
    ]
}

/// The four bytes of `v` in little-endian order.
pub open spec fn u32_le(v: u32) -> Seq<u8> {
    seq![
        (v & 0xff) as u8,
        ((v >> 8) & 0xff) as u8,
        ((v >> 16) & 0xff) as u8,
        ((v >> 24) & 0xff) as u8,
    ]
}

/// The value a reader obtains from four bytes taken big-endian.
pub open spec fn be_val(s: Seq<u8>) -> int
    recommends
        s.len() == 4,
{
    s[0] * 0x1000000 + s[1] * 0x10000 + s[2] * 0x100 + s[3]
}

/// Encoded size of one table record: offset (4) + length (4) + name
/// bytes + trailing NUL (1).
pub open spec fn record_size(f: FileV) -> int {
    4 + 4 + f.name.len() as int + 1
}

/// Total encoded size of the table for the files `fs`, in table order.
pub open spec fn table_size_of(fs: Seq<FileV>) -> int
    decreases fs.len(),
{
    if fs.len() == 0 {
        0
    } else {
        table_size_of(fs.drop_last()) + record_size(fs.last())
    }
}

/// Total size of the data region: the sum of all content lengths.
pub open spec fn data_size_of(fs: Seq<FileV>) -> int
    decreases fs.len(),
{
    if fs.len() == 0 {
        0
    } else {
        data_size_of(fs.drop_last()) + fs.last().data.len()
    }
}

/// Absolute offset where the data region begins.
pub open spec fn data_start_of(fs: Seq<FileV>, secret_len: int) -> int {
    crate::HEADER_LEN + table_size_of(fs) + secret_len
}

/// Absolute offset of entry `i`'s content: the data region start plus
/// the lengths of all entries before it in table order.
pub open spec fn offset_of(fs: Seq<FileV>, secret_len: int, i: int) -> int {
    data_start_of(fs, secret_len) + data_size_of(fs.take(i))
}

/// Total size of the whole archive image.
pub open spec fn total_size_of(fs: Seq<FileV>, secret_len: int) -> int {
    data_start_of(fs, secret_len) + data_size_of(fs)
}

/// Every offset and length field of the archive must fit in an
/// unsigned 32-bit field; it is enough that the whole image does.
pub open spec fn fits(fs: Seq<FileV>, secret_len: int) -> bool {
    total_size_of(fs, secret_len) <= u32::MAX
}

/// The magic tag selected by `kind`. The unrecognized kind has no tag;
/// packing rejects it before anything is emitted.
pub open spec fn magic_of(kind: Kind) -> Seq<u8> {
    match kind {
        Kind::Big4 => seq![0x42u8, 0x49u8, 0x47u8, 0x34u8],
        Kind::BigF => seq![0x42u8, 0x49u8, 0x47u8, 0x46u8],
        Kind::Unknown => Seq::empty(),
    }
}

/// The fixed header: magic tag, reserved size field (always zero,
/// little-endian), entry count (big-endian), data start (big-endian).
pub open spec fn header_bytes(kind: Kind, count: u32, data_start: u32) -> Seq<u8> {
    magic_of(kind) + u32_le(0) + u32_be(count) + u32_be(data_start)
}

/// One table record: offset and content length big-endian, then the
/// name bytes, then a NUL terminator.
pub open spec fn record_bytes(f: FileV, offset: u32) -> Seq<u8> {
    u32_be(offset) + u32_be(f.data.len() as u32) + f.name + seq![0u8]
}

/// The table for `fs` in order, offsets cumulative from `base`:
/// record `i` carries `base` plus the content lengths of all earlier
/// entries.
pub open spec fn table_bytes(fs: Seq<FileV>, base: int) -> Seq<u8>
    decreases fs.len(),
{
    if fs.len() == 0 {
        Seq::empty()
    } else {
        table_bytes(fs.drop_last(), base)
            + record_bytes(fs.last(), (base + data_size_of(fs.drop_last())) as u32)
    }
}

/// The data region: the content bytes of every file, concatenated in
/// table order with no padding.
pub open spec fn data_bytes(fs: Seq<FileV>) -> Seq<u8>
    decreases fs.len(),
{
    if fs.len() == 0 {
        Seq::empty()
    } else {
        data_bytes(fs.drop_last()) + fs.last().data
    }
}

/// The complete archive image for the files `fs` (already in table
/// order) and the side-channel block `secret`: header, table,
/// side-channel block verbatim, then the data region.
pub open spec fn archive_bytes(kind: Kind, fs: Seq<FileV>, secret: Seq<u8>) -> Seq<u8> {
    let ds = data_start_of(fs, secret.len() as int);
    header_bytes(kind, fs.len() as u32, ds as u32) + table_bytes(fs, ds) + secret + data_bytes(fs)
}

/// `x` placed into `s` after every element whose content is no longer
/// than `x`'s, and before the rest: the single step of a stable
/// insertion sort by ascending content length.
pub open spec fn insert_by_len(s: Seq<FileV>, x: FileV) -> Seq<FileV>
    decreases s.len(),
{
    if s.len() == 0 {
        seq![x]
    } else if s[0].data.len() <= x.data.len() {
        seq![s[0]] + insert_by_len(s.drop_first(), x)
    } else {
        seq![x] + s
    }
}

/// `s` reordered by ascending content length; elements of equal length
/// keep their relative order (stable insertion sort).
pub open spec fn sort_by_len(s: Seq<FileV>) -> Seq<FileV>
    decreases s.len(),
{
    if s.len() == 0 {
        Seq::empty()
    } else {
        insert_by_len(sort_by_len(s.drop_last()), s.last())
    }
}

/// Content lengths never decrease along table order.
pub open spec fn len_sorted(fs: Seq<FileV>) -> bool {
    forall|i: int, j: int| 0 <= i < j < fs.len() ==> fs[i].data.len() <= fs[j].data.len()
}

pub proof fn lemma_table_size_nonneg(fs: Seq<FileV>)
    ensures
        table_size_of(fs) >= 9 * fs.len(),
    decreases fs.len(),
{
    if fs.len() > 0 {
        lemma_table_size_nonneg(fs.drop_last());
    }
}

pub proof fn lemma_data_size_nonneg(fs: Seq<FileV>)
    ensures
        data_size_of(fs) >= 0,
    decreases fs.len(),
{
    if fs.len() > 0 {
        lemma_data_size_nonneg(fs.drop_last());
    }
}

/// Extending a prefix by one entry grows the table size by exactly
/// that entry's record size.
pub proof fn lemma_table_size_take_step(fs: Seq<FileV>, i: int)
    requires
        0 <= i < fs.len(),
    ensures
        table_size_of(fs.take(i + 1)) == table_size_of(fs.take(i)) + record_size(fs[i]),
{
    assert(fs.take(i + 1).drop_last() =~= fs.take(i));
    assert(fs.take(i + 1).last() == fs[i]);
}

/// Extending a prefix by one entry grows the data size by exactly
/// that entry's content length.
pub proof fn lemma_data_size_take_step(fs: Seq<FileV>, i: int)
    requires
        0 <= i < fs.len(),
    ensures
        data_size_of(fs.take(i + 1)) == data_size_of(fs.take(i)) + fs[i].data.len(),
{
    assert(fs.take(i + 1).drop_last() =~= fs.take(i));
    assert(fs.take(i + 1).last() == fs[i]);
}

/// The sizes of a prefix never exceed the sizes of the whole sequence.
pub proof fn lemma_sizes_of_prefix(fs: Seq<FileV>, i: int)
    requires
        0 <= i <= fs.len(),
    ensures
        table_size_of(fs.take(i)) <= table_size_of(fs),
        data_size_of(fs.take(i)) <= data_size_of(fs),
    decreases fs.len() - i,
{
    if i == fs.len() {
        assert(fs.take(i) =~= fs);
    } else {
        lemma_table_size_take_step(fs, i);
        lemma_data_size_take_step(fs, i);
        lemma_table_size_nonneg(fs.take(i));
        lemma_sizes_of_prefix(fs, i + 1);
    }
}

pub proof fn lemma_insert_by_len_len(s: Seq<FileV>, x: FileV)
    ensures
        insert_by_len(s, x).len() == s.len() + 1,
    decreases s.len(),
{
    if s.len() > 0 && s[0].data.len() <= x.data.len() {
        lemma_insert_by_len_len(s.drop_first(), x);
    }
}

pub proof fn lemma_sort_by_len_len(s: Seq<FileV>)
    ensures
        sort_by_len(s).len() == s.len(),
    decreases s.len(),
{
    if s.len() > 0 {
        lemma_sort_by_len_len(s.drop_last());
        lemma_insert_by_len_len(sort_by_len(s.drop_last()), s.last());
    }
}

/// Inserting an element adds its record size to the table size and its
/// content length to the data size: both totals ignore order.
pub proof fn lemma_insert_by_len_sizes(s: Seq<FileV>, x: FileV)
    ensures
        table_size_of(insert_by_len(s, x)) == table_size_of(s) + record_size(x),
        data_size_of(insert_by_len(s, x)) == data_size_of(s) + x.data.len(),
    decreases s.len(),
{
    let r = insert_by_len(s, x);
    if s.len() == 0 {
        assert(r == seq![x]);
        lemma_sizes_of_cons(x, Seq::<FileV>::empty());
        assert(seq![x] + Seq::<FileV>::empty() =~= seq![x]);
        assert(table_size_of(Seq::<FileV>::empty()) == 0);
        assert(data_size_of(Seq::<FileV>::empty()) == 0);
        assert(table_size_of(s) == 0);
        assert(data_size_of(s) == 0);
    } else if s[0].data.len() <= x.data.len() {
        lemma_insert_by_len_sizes(s.drop_first(), x);
        let rr = insert_by_len(s.drop_first(), x);
        assert(r == seq![s[0]] + rr);
        lemma_sizes_of_cons(s[0], rr);
        lemma_sizes_of_cons(s[0], s.drop_first());
        assert(seq![s[0]] + s.drop_first() =~= s);
    } else {
        assert(r == seq![x] + s);
        lemma_sizes_of_cons(x, s);
    }
}

/// Prepending one element adds its sizes to the front of the sums.
pub proof fn lemma_sizes_of_cons(x: FileV, s: Seq<FileV>)
    ensures
        table_size_of(seq![x] + s) == record_size(x) + table_size_of(s),
        data_size_of(seq![x] + s) == x.data.len() + data_size_of(s),
    decreases s.len(),
{
    let c = seq![x] + s;
    assert(c.len() == s.len() + 1);
    assert(table_size_of(c) == table_size_of(c.drop_last()) + record_size(c.last()));
    assert(data_size_of(c) == data_size_of(c.drop_last()) + c.last().data.len());
    if s.len() == 0 {
        assert(c.drop_last() =~= Seq::<FileV>::empty());
        assert(c.last() == x);
        assert(table_size_of(Seq::<FileV>::empty()) == 0);
        assert(data_size_of(Seq::<FileV>::empty()) == 0);
        assert(table_size_of(s) == 0);
        assert(data_size_of(s) == 0);
    } else {
        assert(c.drop_last() =~= seq![x] + s.drop_last());
        assert(c.last() == s.last());
        lemma_sizes_of_cons(x, s.drop_last());
        assert(table_size_of(s) == table_size_of(s.drop_last()) + record_size(s.last()));
        assert(data_size_of(s) == data_size_of(s.drop_last()) + s.last().data.len());
    }
}

/// The index at which `insert_by_len` places `x`: just past every
/// element whose content is no longer than `x`'s.
pub open spec fn insert_pos(s: Seq<FileV>, x: FileV) -> int
    decreases s.len(),
{
    if s.len() == 0 {
        0
    } else if s[0].data.len() <= x.data.len() {
        1 + insert_pos(s.drop_first(), x)
    } else {
        0
    }
}

/// `insert_by_len` is the plain sequence insertion at `insert_pos`,
/// and that position is the first whose element is strictly longer.
pub proof fn lemma_insert_pos(s: Seq<FileV>, x: FileV)
    ensures
        0 <= insert_pos(s, x) <= s.len(),
        forall|j: int| 0 <= j < insert_pos(s, x) ==> #[trigger] s[j].data.len() <= x.data.len(),
        insert_pos(s, x) < s.len() ==> s[insert_pos(s, x)].data.len() > x.data.len(),
        insert_by_len(s, x) == s.insert(insert_pos(s, x), x),
    decreases s.len(),
{
    let p = insert_pos(s, x);
    if s.len() == 0 {
        assert(insert_by_len(s, x) =~= s.insert(0, x));
    } else if s[0].data.len() <= x.data.len() {
        lemma_insert_pos(s.drop_first(), x);
        let d = s.drop_first();
        assert(forall|j: int| 1 <= j < p ==> s[j] == d[j - 1]);
        assert(insert_by_len(s, x) == seq![s[0]] + d.insert(p - 1, x));
        assert(seq![s[0]] + d.insert(p - 1, x) =~= s.insert(p, x));
    } else {
        assert(insert_by_len(s, x) == seq![x] + s);
        assert(seq![x] + s =~= s.insert(0, x));
    }
}

/// Inserting into a length-sorted sequence keeps it length-sorted.
pub proof fn lemma_insert_by_len_sorted(s: Seq<FileV>, x: FileV)
    requires
        len_sorted(s),
    ensures
        len_sorted(insert_by_len(s, x)),
{
    lemma_insert_pos(s, x);
    let p = insert_pos(s, x);
    let r = s.insert(p, x);
    s.insert_ensures(p, x);
    assert forall|i: int, j: int| 0 <= i < j < r.len() implies r[i].data.len()
        <= r[j].data.len() by {
        if i < p && j < p {
        } else if i < p && j == p {
        } else if i == p && j > p {
            assert(r[j] == s[j - 1]);
            assert(s[j - 1].data.len() >= s[p].data.len());
        } else if i < p && j > p {
            assert(r[j] == s[j - 1]);
        } else if i > p {
            assert(r[i] == s[i - 1]);
            assert(r[j] == s[j - 1]);
        }
    }
}

/// The sort produces a length-sorted sequence: content lengths are
/// non-decreasing across table order.
pub proof fn lemma_sort_by_len_sorted(s: Seq<FileV>)
    ensures
        len_sorted(sort_by_len(s)),
    decreases s.len(),
{
    if s.len() > 0 {
        lemma_sort_by_len_sorted(s.drop_last());
        lemma_insert_by_len_sorted(sort_by_len(s.drop_last()), s.last());
    }
}

/// The sort only reorders: the result holds exactly the same files,
/// with multiplicity.
pub proof fn lemma_sort_by_len_multiset(s: Seq<FileV>)
    ensures
        sort_by_len(s).to_multiset() == s.to_multiset(),
    decreases s.len(),
{
    broadcast use vstd::seq_lib::group_to_multiset_ensures;

    if s.len() > 0 {
        let d = s.drop_last();
        lemma_sort_by_len_multiset(d);
        lemma_insert_pos(sort_by_len(d), s.last());
        let p = insert_pos(sort_by_len(d), s.last());
        lemma_sort_by_len_len(d);
        assert(sort_by_len(s).to_multiset() == sort_by_len(d).to_multiset().insert(s.last()));
        assert(d.push(s.last()) =~= s);
        assert(s.to_multiset() == d.to_multiset().insert(s.last()));
    }
}

/// Sorting leaves the table size and the data size unchanged.
pub proof fn lemma_sort_by_len_sizes(s: Seq<FileV>)
    ensures
        table_size_of(sort_by_len(s)) == table_size_of(s),
        data_size_of(sort_by_len(s)) == data_size_of(s),
    decreases s.len(),
{
    if s.len() > 0 {
        lemma_sort_by_len_sizes(s.drop_last());
        lemma_insert_by_len_sizes(sort_by_len(s.drop_last()), s.last());
    }
}

pub proof fn lemma_table_bytes_len(fs: Seq<FileV>, base: int)
    ensures
        table_bytes(fs, base).len() == table_size_of(fs),
    decreases fs.len(),
{
    if fs.len() > 0 {
        lemma_table_bytes_len(fs.drop_last(), base);
    }
}

pub proof fn lemma_data_bytes_len(fs: Seq<FileV>)
    ensures
        data_bytes(fs).len() == data_size_of(fs),
    decreases fs.len(),
{
    if fs.len() > 0 {
        lemma_data_bytes_len(fs.drop_last());
    }
}

/// Emitting one more record extends the table bytes by that record,
/// carrying the cumulative offset.
pub proof fn lemma_table_bytes_take_step(fs: Seq<FileV>, base: int, i: int)
    requires
        0 <= i < fs.len(),
    ensures
        table_bytes(fs.take(i + 1), base) == table_bytes(fs.take(i), base) + record_bytes(
            fs[i],
            (base + data_size_of(fs.take(i))) as u32,
        ),
{
    assert(fs.take(i + 1).drop_last() =~= fs.take(i));
    assert(fs.take(i + 1).last() == fs[i]);
}

/// Emitting one more entry's content extends the data bytes by it.
pub proof fn lemma_data_bytes_take_step(fs: Seq<FileV>, i: int)
    requires
        0 <= i < fs.len(),
    ensures
        data_bytes(fs.take(i + 1)) == data_bytes(fs.take(i)) + fs[i].data,
{
    assert(fs.take(i + 1).drop_last() =~= fs.take(i));
    assert(fs.take(i + 1).last() == fs[i]);
}

/// Within the data region, entry `i`'s content occupies exactly the
/// bytes from the sum of the earlier lengths onward.
pub proof fn lemma_data_bytes_at(fs: Seq<FileV>, i: int)
    requires
        0 <= i < fs.len(),
    ensures
        data_bytes(fs).subrange(
            data_size_of(fs.take(i)),
            data_size_of(fs.take(i)) + fs[i].data.len(),
        ) == fs[i].data,
    decreases fs.len(),
{
    let pd = data_size_of(fs.take(i));
    lemma_data_size_nonneg(fs.take(i));
    lemma_data_bytes_len(fs);
    if i == fs.len() - 1 {
        assert(fs.take(i) =~= fs.drop_last());
        lemma_data_bytes_len(fs.drop_last());
        assert(data_bytes(fs).subrange(pd, pd + fs[i].data.len()) =~= fs[i].data);
    } else {
        let d = fs.drop_last();
        assert(fs.take(i) =~= d.take(i));
        lemma_data_bytes_at(d, i);
        lemma_data_bytes_len(d);
        lemma_data_size_take_step(d, i);
        lemma_sizes_of_prefix(d, i + 1);
        assert(data_bytes(fs).subrange(pd, pd + fs[i].data.len()) =~= data_bytes(d).subrange(
            pd,
            pd + fs[i].data.len(),
        ));
    }
}

/// Within the table bytes, record `i` sits exactly after the records
/// before it and is the encoding of entry `i` with the cumulative
/// offset `base` plus the content lengths of all earlier entries.
pub proof fn lemma_table_record_at(fs: Seq<FileV>, base: int, i: int)
    requires
        0 <= i < fs.len(),
    ensures
        table_bytes(fs, base).subrange(
            table_size_of(fs.take(i)),
            table_size_of(fs.take(i)) + record_size(fs[i]),
        ) == record_bytes(fs[i], (base + data_size_of(fs.take(i))) as u32),
    decreases fs.len(),
{
    let ts = table_size_of(fs.take(i));
    lemma_table_size_nonneg(fs.take(i));
    lemma_table_bytes_len(fs, base);
    if i == fs.len() - 1 {
        assert(fs.take(i) =~= fs.drop_last());
        lemma_table_bytes_len(fs.drop_last(), base);
        assert(table_bytes(fs, base).subrange(ts, ts + record_size(fs[i])) =~= record_bytes(
            fs[i],
            (base + data_size_of(fs.take(i))) as u32,
        ));
    } else {
        let d = fs.drop_last();
        assert(fs.take(i) =~= d.take(i));
        lemma_table_record_at(d, base, i);
        lemma_table_bytes_len(d, base);
        lemma_table_size_take_step(d, i);
        lemma_sizes_of_prefix(d, i + 1);
        assert(table_bytes(fs, base).subrange(ts, ts + record_size(fs[i])) =~= table_bytes(
            d,
            base,
        ).subrange(ts, ts + record_size(fs[i])));
    }
}

/// For a producible kind the header is exactly `HEADER_LEN` bytes.
pub proof fn lemma_header_len(kind: Kind, count: u32, data_start: u32)
    requires
        !(kind is Unknown),
    ensures
        header_bytes(kind, count, data_start).len() == crate::HEADER_LEN,
{
}

/// The archive image is exactly `total_size_of` bytes long.
pub proof fn lemma_archive_len(kind: Kind, fs: Seq<FileV>, secret: Seq<u8>)
    requires
        !(kind is Unknown),
    ensures
        archive_bytes(kind, fs, secret).len() == total_size_of(fs, secret.len() as int),
{
    let ds = data_start_of(fs, secret.len() as int);
    lemma_header_len(kind, fs.len() as u32, ds as u32);
    lemma_table_bytes_len(fs, ds);
    lemma_data_bytes_len(fs);
}

/// Reading four big-endian bytes undoes writing them.
pub proof fn lemma_be_val_u32_be(v: u32)
    ensures
        be_val(u32_be(v)) == v,
{
    assert((v >> 24) & 0xff < 256 && (v >> 16) & 0xff < 256 && (v >> 8) & 0xff < 256 && v & 0xff
        < 256) by (bit_vector);
    assert(((v >> 24) & 0xff) * 0x1000000 + ((v >> 16) & 0xff) * 0x10000 + ((v >> 8) & 0xff)
        * 0x100 + (v & 0xff) == v) by (bit_vector);
}

/// Law: entry data is laid out contiguously. The first entry starts at
/// `data_start`, and each entry begins exactly where the previous one
/// ends: `offset_i + len_i == offset_{i+1}`.
pub proof fn lemma_offsets_contiguous(fs: Seq<FileV>, secret_len: int)
    ensures
        offset_of(fs, secret_len, 0) == data_start_of(fs, secret_len),
        forall|i: int|
            0 <= i && i + 1 < fs.len() ==> offset_of(fs, secret_len, i) + fs[i].data.len()
                == offset_of(fs, secret_len, i + 1),
{
    assert(fs.take(0) =~= Seq::<FileV>::empty());
    assert forall|i: int| 0 <= i && i + 1 < fs.len() implies offset_of(fs, secret_len, i)
        + fs[i].data.len() == offset_of(fs, secret_len, i + 1) by {
        lemma_data_size_take_step(fs, i);
    }
}

/// Law: the data region begins exactly after the header, the table and
/// the side-channel block: `data_start == HEADER_LEN + table_size +
/// side_channel_len`.
pub proof fn lemma_data_start_formula(fs: Seq<FileV>, secret_len: int)
    ensures
        data_start_of(fs, secret_len) == crate::HEADER_LEN + table_size_of(fs) + secret_len,
{
}

/// Law: decoding the entry-count field of a packed archive gives back
/// the number of files that were packed.
pub proof fn lemma_entry_count_field(kind: Kind, files: Seq<FileV>, secret: Seq<u8>)
    requires
        !(kind is Unknown),
        files.len() <= u32::MAX,
    ensures
        be_val(archive_bytes(kind, sort_by_len(files), secret).subrange(8, 12)) == files.len(),
{
    let fs = sort_by_len(files);
    lemma_sort_by_len_len(files);
    let ds = data_start_of(fs, secret.len() as int);
    lemma_header_len(kind, fs.len() as u32, ds as u32);
    assert(archive_bytes(kind, fs, secret).subrange(8, 12) =~= u32_be(fs.len() as u32));
    lemma_be_val_u32_be(fs.len() as u32);
}

/// Law: round trip. Decoding the byte range `[offset_i, offset_i +
/// len_i)` of the archive image reproduces entry `i`'s content
/// exactly, for every entry in table order.
pub proof fn lemma_data_round_trip(kind: Kind, fs: Seq<FileV>, secret: Seq<u8>, i: int)
    requires
        !(kind is Unknown),
        0 <= i < fs.len(),
    ensures
        archive_bytes(kind, fs, secret).subrange(
            offset_of(fs, secret.len() as int, i),
            offset_of(fs, secret.len() as int, i) + fs[i].data.len(),
        ) == fs[i].data,
{
    let sl = secret.len() as int;
    let ds = data_start_of(fs, sl);
    let a = archive_bytes(kind, fs, secret);
    let pd = data_size_of(fs.take(i));
    lemma_header_len(kind, fs.len() as u32, ds as u32);
    lemma_table_bytes_len(fs, ds);
    lemma_data_bytes_len(fs);
    lemma_data_size_nonneg(fs.take(i));
    lemma_data_size_take_step(fs, i);
    lemma_sizes_of_prefix(fs, i + 1);
    lemma_data_bytes_at(fs, i);
    assert(a.subrange(offset_of(fs, sl, i), offset_of(fs, sl, i) + fs[i].data.len())
        =~= data_bytes(fs).subrange(pd, pd + fs[i].data.len()));
}

} // verus!
