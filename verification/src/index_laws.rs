use crate::bytes::{be_bytes_u16, be_bytes_u32, be_u16, be_u32, lemma_first_index_is, zeros};
use crate::error::GitError;
use crate::hexcodec::{hex_decoded, hex_encoded, lemma_hex_canonical};
use crate::index::{
    entries_bytes, entries_from, entries_writable, entry_at, entry_bytes, entry_fill_len,
    entry_fits, entry_flags, entry_name_end, entry_span, entry_writable, fixed_bytes, index_bytes,
    index_signature, next_entry, parsed_index, written_flags, IndexEntryView, IndexView,
};
use vstd::prelude::*;

verus! {

/// A big-endian number of four bytes is read where it was written.
proof fn lemma_read_u32(before: Seq<u8>, v: int, after: Seq<u8>)
    requires
        0 <= v < 4294967296,
    ensures
        be_u32(before + be_bytes_u32(v) + after, before.len() as int) == v,
{
    let s = before + be_bytes_u32(v) + after;
    let at = before.len() as int;
    let b = be_bytes_u32(v);
    assert(s[at] == b[0] && s[at + 1] == b[1] && s[at + 2] == b[2] && s[at + 3] == b[3]);
}

/// A big-endian number of two bytes is read where it was written.
proof fn lemma_read_u16(before: Seq<u8>, v: int, after: Seq<u8>)
    requires
        0 <= v < 65536,
    ensures
        be_u16(before + be_bytes_u16(v) + after, before.len() as int) == v,
{
    let s = before + be_bytes_u16(v) + after;
    let at = before.len() as int;
    let b = be_bytes_u16(v);
    assert(s[at] == b[0] && s[at + 1] == b[1]);
}

/// The numbers of the fixed part stand where they are read.
proof fn lemma_fixed_layout(e: IndexEntryView)
    requires
        entry_writable(e),
    ensures
        fixed_bytes(e).len() == 62,
        be_u32(fixed_bytes(e), 0) == e.ctime.0,
        be_u32(fixed_bytes(e), 4) == e.ctime.1,
        be_u32(fixed_bytes(e), 8) == e.mtime.0,
        be_u32(fixed_bytes(e), 12) == e.mtime.1,
        be_u32(fixed_bytes(e), 16) == e.dev,
        be_u32(fixed_bytes(e), 20) == e.ino,
        be_u16(fixed_bytes(e), 26) == e.mode_type * 4096 + e.mode_perms,
        be_u32(fixed_bytes(e), 28) == e.uid,
        be_u32(fixed_bytes(e), 32) == e.gid,
        be_u32(fixed_bytes(e), 36) == e.fsize,
        fixed_bytes(e).subrange(40, 60) == hex_decoded(e.sha),
        be_u16(fixed_bytes(e), 60) == written_flags(e),
{
    let whole = fixed_bytes(e);
    let sha = hex_decoded(e.sha);
    lemma_hex_canonical(e.sha);
    assert(sha.len() == 20);
    let mode = e.mode_type * 4096 + e.mode_perms;
    let flags = written_flags(e);
    assert(0 <= mode < 65536);
    assert(0 <= flags < 65536);
    let p1 = be_bytes_u32(e.ctime.0 as int);
    let p2 = p1 + be_bytes_u32(e.ctime.1 as int);
    let p3 = p2 + be_bytes_u32(e.mtime.0 as int);
    let p4 = p3 + be_bytes_u32(e.mtime.1 as int);
    let p5 = p4 + be_bytes_u32(e.dev as int);
    let p6 = p5 + be_bytes_u32(e.ino as int);
    let p7 = p6 + be_bytes_u16(0);
    let p8 = p7 + be_bytes_u16(mode);
    let p9 = p8 + be_bytes_u32(e.uid as int);
    let p10 = p9 + be_bytes_u32(e.gid as int);
    let p11 = p10 + be_bytes_u32(e.fsize as int);
    let p12 = p11 + sha;
    let p13 = p12 + be_bytes_u16(flags);
    assert(p13 == whole);
    assert(p1.len() == 4 && p2.len() == 8 && p3.len() == 12 && p4.len() == 16);
    assert(p5.len() == 20 && p6.len() == 24 && p7.len() == 26 && p8.len() == 28);
    assert(p9.len() == 32 && p10.len() == 36 && p11.len() == 40 && p12.len() == 60);
    let empty = Seq::<u8>::empty();
    assert(be_u32(whole, 0) == e.ctime.0) by {
        lemma_read_u32(empty, e.ctime.0 as int, whole.skip(4));
        assert(whole =~= empty + be_bytes_u32(e.ctime.0 as int) + whole.skip(4));
    }
    assert(be_u32(whole, 4) == e.ctime.1) by {
        lemma_read_u32(p1, e.ctime.1 as int, whole.skip(8));
        assert(whole =~= p1 + be_bytes_u32(e.ctime.1 as int) + whole.skip(8));
    }
    assert(be_u32(whole, 8) == e.mtime.0) by {
        lemma_read_u32(p2, e.mtime.0 as int, whole.skip(12));
        assert(whole =~= p2 + be_bytes_u32(e.mtime.0 as int) + whole.skip(12));
    }
    assert(be_u32(whole, 12) == e.mtime.1) by {
        lemma_read_u32(p3, e.mtime.1 as int, whole.skip(16));
        assert(whole =~= p3 + be_bytes_u32(e.mtime.1 as int) + whole.skip(16));
    }
    assert(be_u32(whole, 16) == e.dev) by {
        lemma_read_u32(p4, e.dev as int, whole.skip(20));
        assert(whole =~= p4 + be_bytes_u32(e.dev as int) + whole.skip(20));
    }
    assert(be_u32(whole, 20) == e.ino) by {
        lemma_read_u32(p5, e.ino as int, whole.skip(24));
        assert(whole =~= p5 + be_bytes_u32(e.ino as int) + whole.skip(24));
    }
    assert(be_u16(whole, 26) == mode) by {
        lemma_read_u16(p7, mode, whole.skip(28));
        assert(whole =~= p7 + be_bytes_u16(mode) + whole.skip(28));
    }
    assert(be_u32(whole, 28) == e.uid) by {
        lemma_read_u32(p8, e.uid as int, whole.skip(32));
        assert(whole =~= p8 + be_bytes_u32(e.uid as int) + whole.skip(32));
    }
    assert(be_u32(whole, 32) == e.gid) by {
        lemma_read_u32(p9, e.gid as int, whole.skip(36));
        assert(whole =~= p9 + be_bytes_u32(e.gid as int) + whole.skip(36));
    }
    assert(be_u32(whole, 36) == e.fsize) by {
        lemma_read_u32(p10, e.fsize as int, whole.skip(40));
        assert(whole =~= p10 + be_bytes_u32(e.fsize as int) + whole.skip(40));
    }
    assert(whole.subrange(40, 60) =~= sha);
    assert(be_u16(whole, 60) == flags) by {
        lemma_read_u16(p12, flags, empty);
        assert(whole =~= p12 + be_bytes_u16(flags) + empty);
    }
}

/// The flags as they are written hold the three things that are read from
/// them, and the extended bit is clear.
proof fn lemma_flags(e: IndexEntryView)
    requires
        entry_writable(e),
    ensures
        written_flags(e) / 16384 % 2 == 0,
        (written_flags(e) >= 32768) == e.flag_assume_valid,
        written_flags(e) / 4096 % 4 == e.flag_stage,
        written_flags(e) % 4096 == (if e.name.len() < 0xFFF {
            e.name.len() as int
        } else {
            0xFFFint
        }),
{
    let length: int = if e.name.len() < 0xFFF {
        e.name.len() as int
    } else {
        0xFFF
    };
    let low = e.flag_stage * 4096 + length;
    assert(0 <= low < 16384);
    if e.flag_assume_valid {
        assert(written_flags(e) == 32768 + low);
    } else {
        assert(written_flags(e) == low);
    }
}

/// Where the bytes of a written entry stand in a file.
proof fn lemma_entry_placed(before: Seq<u8>, e: IndexEntryView, after: Seq<u8>)
    requires
        entry_writable(e),
    ensures
        ({
            let raw = before + entry_bytes(e) + after;
            let at = before.len() as int;
            let n = e.name.len() as int;
            &&& entry_bytes(e).len() == 62 + n + entry_fill_len(n)
            &&& 1 <= entry_fill_len(n) <= 8
            &&& at + 62 + n < raw.len()
            &&& forall|k: int| 0 <= k < 62 ==> #[trigger] raw[at + k] == fixed_bytes(e)[k]
            &&& forall|k: int| 0 <= k < n ==> #[trigger] raw[at + 62 + k] == e.name[k]
            &&& raw[at + 62 + n] == 0
        }),
{
    let bytes = entry_bytes(e);
    let raw = before + bytes + after;
    let at = before.len() as int;
    let fixed = fixed_bytes(e);
    let n = e.name.len() as int;
    let fill = entry_fill_len(n);
    lemma_fixed_layout(e);
    assert(1 <= fill <= 8);
    assert(bytes.len() == 62 + n + fill);
    assert forall|k: int| 0 <= k < 62 implies #[trigger] raw[at + k] == fixed[k] by {
        assert(raw[at + k] == bytes[k]);
    }
    assert forall|k: int| 0 <= k < n implies #[trigger] raw[at + 62 + k] == e.name[k] by {
        assert(raw[at + 62 + k] == bytes[62 + k]);
    }
    assert(raw[at + 62 + n] == bytes[62 + n]);
    assert(bytes[62 + n] == zeros(fill)[0]);
}

/// The numbers of a fixed part are read from a file as from the fixed part.
proof fn lemma_fixed_read(raw: Seq<u8>, at: int, fixed: Seq<u8>)
    requires
        0 <= at,
        at + 62 <= raw.len(),
        fixed.len() == 62,
        forall|k: int| 0 <= k < 62 ==> #[trigger] raw[at + k] == fixed[k],
    ensures
        be_u32(raw, at) == be_u32(fixed, 0),
        be_u32(raw, at + 4) == be_u32(fixed, 4),
        be_u32(raw, at + 8) == be_u32(fixed, 8),
        be_u32(raw, at + 12) == be_u32(fixed, 12),
        be_u32(raw, at + 16) == be_u32(fixed, 16),
        be_u32(raw, at + 20) == be_u32(fixed, 20),
        be_u16(raw, at + 26) == be_u16(fixed, 26),
        be_u32(raw, at + 28) == be_u32(fixed, 28),
        be_u32(raw, at + 32) == be_u32(fixed, 32),
        be_u32(raw, at + 36) == be_u32(fixed, 36),
        be_u16(raw, at + 60) == be_u16(fixed, 60),
        raw.subrange(at + 40, at + 60) == fixed.subrange(40, 60),
{
    assert(raw[at + 0] == fixed[0]);
    assert(raw[at + 1] == fixed[1] && raw[at + 2] == fixed[2] && raw[at + 3] == fixed[3]);
    assert(raw[at + 4] == fixed[4] && raw[at + 5] == fixed[5] && raw[at + 6] == fixed[6]
        && raw[at + 7] == fixed[7]);
    assert(raw[at + 8] == fixed[8] && raw[at + 9] == fixed[9] && raw[at + 10] == fixed[10]
        && raw[at + 11] == fixed[11]);
    assert(raw[at + 12] == fixed[12] && raw[at + 13] == fixed[13] && raw[at + 14] == fixed[14]
        && raw[at + 15] == fixed[15]);
    assert(raw[at + 16] == fixed[16] && raw[at + 17] == fixed[17] && raw[at + 18] == fixed[18]
        && raw[at + 19] == fixed[19]);
    assert(raw[at + 20] == fixed[20] && raw[at + 21] == fixed[21] && raw[at + 22] == fixed[22]
        && raw[at + 23] == fixed[23]);
    assert(raw[at + 26] == fixed[26] && raw[at + 27] == fixed[27]);
    assert(raw[at + 28] == fixed[28] && raw[at + 29] == fixed[29] && raw[at + 30] == fixed[30]
        && raw[at + 31] == fixed[31]);
    assert(raw[at + 32] == fixed[32] && raw[at + 33] == fixed[33] && raw[at + 34] == fixed[34]
        && raw[at + 35] == fixed[35]);
    assert(raw[at + 36] == fixed[36] && raw[at + 37] == fixed[37] && raw[at + 38] == fixed[38]
        && raw[at + 39] == fixed[39]);
    assert(raw[at + 60] == fixed[60] && raw[at + 61] == fixed[61]);
    assert forall|k: int| 0 <= k < 20 implies raw.subrange(at + 40, at + 60)[k] == fixed.subrange(
        40,
        60,
    )[k] by {
        assert(raw[at + (40 + k)] == fixed[40 + k]);
    }
    assert(raw.subrange(at + 40, at + 60) =~= fixed.subrange(40, 60));
}

/// Where the name of a written entry ends.
proof fn lemma_name_end(raw: Seq<u8>, at: int, e: IndexEntryView)
    requires
        entry_writable(e),
        0 <= at,
        at + 62 + e.name.len() < raw.len(),
        entry_flags(raw, at) == written_flags(e),
        forall|k: int| 0 <= k < e.name.len() ==> #[trigger] raw[at + 62 + k] == e.name[k],
        raw[at + 62 + e.name.len()] == 0,
    ensures
        entry_name_end(raw, at) == at + 62 + e.name.len(),
        raw.subrange(at + 62, at + 62 + e.name.len()) == e.name,
{
    let n = e.name.len() as int;
    lemma_flags(e);
    if n >= 0xFFF {
        assert forall|k: int| at + 62 + 0xFFF <= k < at + 62 + n implies raw[k] != 0u8 by {
            assert(raw[at + 62 + (k - at - 62)] == e.name[k - at - 62]);
        }
        lemma_first_index_is(raw, 0u8, at + 62 + 0xFFF, at + 62 + n);
    }
    assert forall|k: int| 0 <= k < n implies raw.subrange(at + 62, at + 62 + n)[k]
        == e.name[k] by {
        assert(raw[at + 62 + k] == e.name[k]);
    }
    assert(raw.subrange(at + 62, at + 62 + n) =~= e.name);
}

/// The numbers of a written entry are read from the file as they were written.
proof fn lemma_entry_numbers(before: Seq<u8>, e: IndexEntryView, after: Seq<u8>)
    requires
        entry_writable(e),
    ensures
        ({
            let raw = before + entry_bytes(e) + after;
            let at = before.len() as int;
            &&& at + 62 <= raw.len()
            &&& be_u32(raw, at) == e.ctime.0
            &&& be_u32(raw, at + 4) == e.ctime.1
            &&& be_u32(raw, at + 8) == e.mtime.0
            &&& be_u32(raw, at + 12) == e.mtime.1
            &&& be_u32(raw, at + 16) == e.dev
            &&& be_u32(raw, at + 20) == e.ino
            &&& be_u16(raw, at + 26) == e.mode_type * 4096 + e.mode_perms
            &&& be_u32(raw, at + 28) == e.uid
            &&& be_u32(raw, at + 32) == e.gid
            &&& be_u32(raw, at + 36) == e.fsize
            &&& hex_encoded(raw.subrange(at + 40, at + 60)) == e.sha
            &&& entry_flags(raw, at) == written_flags(e)
        }),
{
    let raw = before + entry_bytes(e) + after;
    let at = before.len() as int;
    lemma_entry_placed(before, e, after);
    lemma_fixed_layout(e);
    lemma_fixed_read(raw, at, fixed_bytes(e));
    lemma_hex_canonical(e.sha);
}

/// The name of a written entry is read from the file as it was written.
proof fn lemma_entry_name(before: Seq<u8>, e: IndexEntryView, after: Seq<u8>)
    requires
        entry_writable(e),
    ensures
        ({
            let raw = before + entry_bytes(e) + after;
            let at = before.len() as int;
            let n = e.name.len() as int;
            &&& entry_name_end(raw, at) == at + 62 + n
            &&& at + 62 + n < raw.len()
            &&& raw[at + 62 + n] == 0
            &&& raw.subrange(at + 62, at + 62 + n) == e.name
            &&& entry_bytes(e).len() == entry_span(n)
        }),
{
    let raw = before + entry_bytes(e) + after;
    let at = before.len() as int;
    lemma_entry_numbers(before, e, after);
    lemma_entry_placed(before, e, after);
    lemma_name_end(raw, at, e);
}

/// An entry whose numbers and name are read as those of `e` is read as `e`.
proof fn lemma_entry_fields(raw: Seq<u8>, at: int, e: IndexEntryView)
    requires
        entry_writable(e),
        0 <= at,
        at + 62 <= raw.len(),
        be_u32(raw, at) == e.ctime.0,
        be_u32(raw, at + 4) == e.ctime.1,
        be_u32(raw, at + 8) == e.mtime.0,
        be_u32(raw, at + 12) == e.mtime.1,
        be_u32(raw, at + 16) == e.dev,
        be_u32(raw, at + 20) == e.ino,
        be_u16(raw, at + 26) == e.mode_type * 4096 + e.mode_perms,
        be_u32(raw, at + 28) == e.uid,
        be_u32(raw, at + 32) == e.gid,
        be_u32(raw, at + 36) == e.fsize,
        hex_encoded(raw.subrange(at + 40, at + 60)) == e.sha,
        entry_flags(raw, at) == written_flags(e),
        entry_name_end(raw, at) == at + 62 + e.name.len(),
        at + 62 + e.name.len() < raw.len(),
        raw[at + 62 + e.name.len()] == 0,
        raw.subrange(at + 62, at + 62 + e.name.len()) == e.name,
    ensures
        entry_fits(raw, at),
        entry_at(raw, at) == e,
{
    lemma_flags(e);
    let mode = e.mode_type * 4096 + e.mode_perms;
    assert(mode / 4096 == e.mode_type);
    assert(mode % 512 == e.mode_perms);
    assert(entry_fits(raw, at)) by {
        reveal(entry_fits);
    }
    assert(entry_at(raw, at) == e) by {
        reveal(entry_at);
        let read = entry_at(raw, at);
        assert(read.ctime == e.ctime);
        assert(read.mtime == e.mtime);
        assert(read.sha == e.sha);
        assert(read.name == e.name);
        assert(read.mode_type == e.mode_type);
        assert(read.mode_perms == e.mode_perms);
        assert(read.flag_stage == e.flag_stage);
        assert(read.flag_assume_valid == e.flag_assume_valid);
    }
}

/// A written entry is read back as itself, whatever stands before and behind
/// it, and the next entry is looked for right behind it.
proof fn lemma_entry_read(before: Seq<u8>, e: IndexEntryView, after: Seq<u8>)
    requires
        entry_writable(e),
    ensures
        ({
            let raw = before + entry_bytes(e) + after;
            let at = before.len() as int;
            &&& entry_fits(raw, at)
            &&& entry_at(raw, at) == e
            &&& next_entry(raw, at) == at + entry_bytes(e).len()
        }),
{
    let raw = before + entry_bytes(e) + after;
    let at = before.len() as int;
    lemma_entry_numbers(before, e, after);
    lemma_entry_name(before, e, after);
    lemma_entry_fields(raw, at, e);
}

/// The bytes of two runs of entries, one after the other.
proof fn lemma_entries_bytes_concat(a: Seq<IndexEntryView>, b: Seq<IndexEntryView>)
    ensures
        entries_bytes(a + b) == entries_bytes(a) + entries_bytes(b),
    decreases b.len(),
{
    if b.len() == 0 {
        assert(a + b =~= a);
        assert(entries_bytes(a) + entries_bytes(b) =~= entries_bytes(a));
    } else {
        lemma_entries_bytes_concat(a, b.drop_last());
        assert((a + b).drop_last() =~= a + b.drop_last());
        assert((a + b).last() == b.last());
        assert(entries_bytes(a + b) =~= entries_bytes(a) + entries_bytes(b));
    }
}

/// Written entries are read back, whatever stands before them.
proof fn lemma_entries_read(before: Seq<u8>, entries: Seq<IndexEntryView>)
    requires
        entries_writable(entries),
    ensures
        entries_from(before + entries_bytes(entries), before.len() as int, entries.len())
            == Some(entries),
    decreases entries.len(),
{
    if entries.len() == 0 {
        assert(entries =~= Seq::<IndexEntryView>::empty());
    } else {
        let head = entries[0];
        let others = entries.skip(1);
        assert(seq![head] + others =~= entries);
        lemma_entries_bytes_concat(seq![head], others);
        let none = seq![head].drop_last();
        assert(none.len() == 0);
        assert(entries_bytes(none) =~= Seq::<u8>::empty());
        assert(entries_bytes(seq![head]) =~= entry_bytes(head));
        let raw = before + entries_bytes(entries);
        assert(raw =~= before + entry_bytes(head) + entries_bytes(others));
        assert(entry_writable(head));
        lemma_entry_read(before, head, entries_bytes(others));
        assert forall|i: int| 0 <= i < others.len() implies entry_writable(
            #[trigger] others[i],
        ) by {
            assert(others[i] == entries[i + 1]);
        }
        let longer = before + entry_bytes(head);
        lemma_entries_read(longer, others);
        assert(raw =~= longer + entries_bytes(others));
        assert(seq![head] + others =~= entries);
    }
}

/// Reading what was written gives the index back: entries that can be written
/// are read from the written file as they are, in their order, under version 2.
pub proof fn lemma_index_round_trip(entries: Seq<IndexEntryView>)
    requires
        entries_writable(entries),
        entries.len() <= u32::MAX,
    ensures
        parsed_index(index_bytes(entries)) == Ok::<IndexView, GitError>(
            IndexView { version: Some(2u32), entries },
        ),
{
    let header = index_signature() + be_bytes_u32(2) + be_bytes_u32(entries.len() as int);
    let raw = index_bytes(entries);
    assert(raw =~= header + entries_bytes(entries));
    assert(header.len() == 12);
    assert(raw.subrange(0, 4) =~= index_signature());
    lemma_read_u32(index_signature(), 2, be_bytes_u32(entries.len() as int) + entries_bytes(entries));
    assert(raw =~= index_signature() + be_bytes_u32(2) + (be_bytes_u32(entries.len() as int)
        + entries_bytes(entries)));
    lemma_read_u32(
        index_signature() + be_bytes_u32(2),
        entries.len() as int,
        entries_bytes(entries),
    );
    lemma_entries_read(header, entries);
}

} // verus!
