use crate::bytes::{
    append_bytes, be_bytes_u16, be_bytes_u32, be_u16, be_u32, bytes_less, contains_byte, find_byte,
    first_index_from, has_byte, lemma_first_index_from, lex_less, push_be_u16, push_be_u32,
    push_zeros, read_be_u16, read_be_u32, zeros,
};
use crate::error::GitError;
use crate::repo::GitRepo;
use crate::hexcodec::{address_to_bytes, bytes_to_address, hex_decoded, hex_encoded, is_address};
use vstd::prelude::*;

verus! {

/// One staged path with the file metadata recorded for it.
#[derive(Debug, PartialEq, Eq)]
pub struct GitIndexEntry {
    /// Last change of the metadata: seconds and nanoseconds.
    pub ctime: (u32, u32),
    /// Last change of the content: seconds and nanoseconds.
    pub mtime: (u32, u32),
    pub dev: u32,
    pub ino: u32,
    /// The object type, four bits: 8 regular file, 10 symlink, 14 gitlink.
    pub mode_type: u16,
    /// The permission bits, nine of them.
    pub mode_perms: u16,
    pub uid: u32,
    pub gid: u32,
    pub fsize: u32,
    /// The address of the staged blob, forty lower-case hexadecimal digits.
    pub sha: Vec<u8>,
    pub flag_assume_valid: bool,
    /// The merge stage, 0 to 3.
    pub flag_stage: u16,
    /// The path, relative to the work tree.
    pub name: Vec<u8>,
}

/// What an index entry holds, as plain values.
pub struct IndexEntryView {
    pub ctime: (u32, u32),
    pub mtime: (u32, u32),
    pub dev: u32,
    pub ino: u32,
    pub mode_type: u16,
    pub mode_perms: u16,
    pub uid: u32,
    pub gid: u32,
    pub fsize: u32,
    pub sha: Seq<u8>,
    pub flag_assume_valid: bool,
    pub flag_stage: u16,
    pub name: Seq<u8>,
}

impl View for GitIndexEntry {
    type V = IndexEntryView;

    open spec fn view(&self) -> IndexEntryView {
        IndexEntryView {
            ctime: self.ctime,
            mtime: self.mtime,
            dev: self.dev,
            ino: self.ino,
            mode_type: self.mode_type,
            mode_perms: self.mode_perms,
            uid: self.uid,
            gid: self.gid,
            fsize: self.fsize,
            sha: self.sha@,
            flag_assume_valid: self.flag_assume_valid,
            flag_stage: self.flag_stage,
            name: self.name@,
        }
    }
}

impl Clone for GitIndexEntry {
    fn clone(&self) -> (copy: Self)
        ensures
            copy@ == self@,
    {
        GitIndexEntry {
            ctime: (self.ctime.0, self.ctime.1),
            mtime: (self.mtime.0, self.mtime.1),
            dev: self.dev,
            ino: self.ino,
            mode_type: self.mode_type,
            mode_perms: self.mode_perms,
            uid: self.uid,
            gid: self.gid,
            fsize: self.fsize,
            sha: self.sha.clone(),
            flag_assume_valid: self.flag_assume_valid,
            flag_stage: self.flag_stage,
            name: self.name.clone(),
        }
    }
}

impl GitIndexEntry {
    /// An entry of the given values.
    pub fn new(
        ctime: (u32, u32),
        mtime: (u32, u32),
        dev: u32,
        ino: u32,
        mode_type: u16,
        mode_perms: u16,
        uid: u32,
        gid: u32,
        fsize: u32,
        sha: Vec<u8>,
        flag_assume_valid: bool,
        flag_stage: u16,
        name: Vec<u8>,
    ) -> (entry: Self)
        ensures
            entry@ == (IndexEntryView {
                ctime,
                mtime,
                dev,
                ino,
                mode_type,
                mode_perms,
                uid,
                gid,
                fsize,
                sha: sha@,
                flag_assume_valid,
                flag_stage,
                name: name@,
            }),
    {
        GitIndexEntry {
            ctime,
            mtime,
            dev,
            ino,
            mode_type,
            mode_perms,
            uid,
            gid,
            fsize,
            sha,
            flag_assume_valid,
            flag_stage,
            name,
        }
    }
}

/// The staging index: a format version and the entries in the order of the file.
#[derive(Debug, PartialEq, Eq)]
pub struct GitIndex {
    /// `None` for an index that was never written.
    pub version: Option<u32>,
    pub entries: Vec<GitIndexEntry>,
}

/// What an index holds, as plain values.
pub struct IndexView {
    pub version: Option<u32>,
    pub entries: Seq<IndexEntryView>,
}

impl View for GitIndex {
    type V = IndexView;

    open spec fn view(&self) -> IndexView {
        IndexView { version: self.version, entries: entry_views(self.entries@) }
    }
}

/// The views of a run of entries.
pub open spec fn entry_views(entries: Seq<GitIndexEntry>) -> Seq<IndexEntryView> {
    Seq::new(entries.len(), |i: int| entries[i]@)
}

impl Clone for GitIndex {
    fn clone(&self) -> (copy: Self)
        ensures
            copy@ == self@,
    {
        let mut entries: Vec<GitIndexEntry> = Vec::new();
        let mut i: usize = 0;
        while i < self.entries.len()
            invariant
                i <= self.entries@.len(),
                entries@.len() == i,
                forall|k: int| 0 <= k < i ==> entries@[k]@ == self.entries@[k]@,
            decreases self.entries@.len() - i,
        {
            entries.push(self.entries[i].clone());
            i = i + 1;
        }
        assert(entry_views(entries@) =~= entry_views(self.entries@));
        GitIndex { version: self.version, entries }
    }
}

impl GitIndex {
    /// An index of the given version and entries.
    pub fn new(version: Option<u32>, entries: Vec<GitIndexEntry>) -> (index: Self)
        ensures
            index@ == (IndexView { version, entries: entry_views(entries@) }),
    {
        GitIndex { version, entries }
    }
}

/// The length of the fixed part of an entry, up to the name.
pub const ENTRY_FIXED: usize = 62;

/// The largest name length that the flags can hold; a name at least this long is
/// found by its terminator instead.
pub const NAME_LENGTH_MASK: usize = 0xFFF;

/// The signature that opens an index file.
pub open spec fn index_signature() -> Seq<u8> {
    seq![68u8, 73u8, 82u8, 67u8]
}

/// The flags of the entry that starts at `at`.
pub open spec fn entry_flags(raw: Seq<u8>, at: int) -> int {
    be_u16(raw, at + 60)
}

/// The position of the zero byte that ends the name of the entry at `at`. Below
/// the mask the flags give the name's length; at the mask the name runs to the
/// first zero byte at or after its 4095th byte.
pub open spec fn entry_name_end(raw: Seq<u8>, at: int) -> int {
    let declared = entry_flags(raw, at) % 4096;
    if declared < NAME_LENGTH_MASK {
        at + ENTRY_FIXED + declared
    } else {
        first_index_from(raw, 0u8, at + ENTRY_FIXED + NAME_LENGTH_MASK)
    }
}

/// Whether an entry can be read at `at`: its fixed part lies inside `raw`, the
/// extended flag is clear, and its name ends in a zero byte inside `raw`.
#[verifier::opaque]
pub open spec fn entry_fits(raw: Seq<u8>, at: int) -> bool {
    &&& 0 <= at
    &&& at + ENTRY_FIXED <= raw.len()
    &&& entry_flags(raw, at) / 16384 % 2 == 0
    &&& entry_name_end(raw, at) < raw.len()
    &&& raw[entry_name_end(raw, at)] == 0
}

/// The entry that starts at `at`.
#[verifier::opaque]
pub open spec fn entry_at(raw: Seq<u8>, at: int) -> IndexEntryView {
    IndexEntryView {
        ctime: (be_u32(raw, at) as u32, be_u32(raw, at + 4) as u32),
        mtime: (be_u32(raw, at + 8) as u32, be_u32(raw, at + 12) as u32),
        dev: be_u32(raw, at + 16) as u32,
        ino: be_u32(raw, at + 20) as u32,
        mode_type: (be_u16(raw, at + 26) / 4096) as u16,
        mode_perms: (be_u16(raw, at + 26) % 512) as u16,
        uid: be_u32(raw, at + 28) as u32,
        gid: be_u32(raw, at + 32) as u32,
        fsize: be_u32(raw, at + 36) as u32,
        sha: hex_encoded(raw.subrange(at + 40, at + 60)),
        flag_assume_valid: entry_flags(raw, at) >= 32768,
        flag_stage: (entry_flags(raw, at) / 4096 % 4) as u16,
        name: raw.subrange(at + ENTRY_FIXED, entry_name_end(raw, at)),
    }
}

/// The length of an entry whose name has `name_len` bytes: the fixed part, the
/// name and its terminator, filled up to a multiple of eight.
pub open spec fn entry_span(name_len: int) -> int {
    62 + name_len + entry_fill_len(name_len)
}

/// How many bytes follow a name of `name_len` bytes: the terminator, and what
/// takes the entry to the next multiple of eight.
pub open spec fn entry_fill_len(name_len: int) -> int {
    8 - (62 + name_len) % 8
}

/// Where the entry after the one at `at` starts.
pub open spec fn next_entry(raw: Seq<u8>, at: int) -> int {
    at + entry_span(entry_name_end(raw, at) - (at + ENTRY_FIXED))
}

/// The `count` entries that start at `at`, or `None` where one of them cannot be
/// read.
pub open spec fn entries_from(raw: Seq<u8>, at: int, count: nat) -> Option<Seq<IndexEntryView>>
    decreases count,
{
    if count == 0 {
        Some(Seq::empty())
    } else if !entry_fits(raw, at) {
        None
    } else {
        match entries_from(raw, next_entry(raw, at), (count - 1) as nat) {
            None => None,
            Some(rest) => Some(seq![entry_at(raw, at)] + rest),
        }
    }
}

/// What an index file holds. A file shorter than its header or without the
/// signature is corrupt; a version other than 2 is unsupported; then the header's
/// count of entries is read.
pub open spec fn parsed_index(raw: Seq<u8>) -> Result<IndexView, GitError> {
    if raw.len() < 12 || raw.subrange(0, 4) != index_signature() {
        Err(GitError::CorruptObject)
    } else if be_u32(raw, 4) != 2 {
        Err(GitError::UnsupportedIndexVersion)
    } else {
        match entries_from(raw, 12, be_u32(raw, 8) as nat) {
            None => Err(GitError::CorruptObject),
            Some(entries) => Ok(IndexView { version: Some(2u32), entries }),
        }
    }
}

/// Reads the entry at `at`, and says where its name ends.
fn read_entry(raw: &[u8], at: usize) -> (out: Option<(GitIndexEntry, usize)>)
    requires
        at <= raw@.len(),
    ensures
        out is Some <==> entry_fits(raw@, at as int),
        out matches Some((entry, end)) ==> entry@ == entry_at(raw@, at as int) && end
            == entry_name_end(raw@, at as int) && at + 62 <= end < raw@.len(),
{
    reveal(entry_fits);
    reveal(entry_at);
    if raw.len() - at < 62 {
        return None;
    }
    let flags = read_be_u16(raw, at + 60);
    if flags / 16384 % 2 != 0 {
        return None;
    }
    let declared = (flags % 4096) as usize;
    let start = at + 62;
    let end: usize;
    if declared < 0xFFF {
        if declared >= raw.len() - start {
            return None;
        }
        end = start + declared;
    } else {
        if raw.len() - start < 0xFFF {
            proof {
                lemma_first_index_from(raw@, 0u8, raw@.len() as int);
            }
            return None;
        }
        end = find_byte(raw, 0u8, start + 0xFFF);
        if end >= raw.len() {
            return None;
        }
        proof {
            lemma_first_index_from(raw@, 0u8, start + 0xFFF);
        }
    }
    if raw[end] != 0 {
        return None;
    }
    let mode = read_be_u16(raw, at + 26);
    let entry = GitIndexEntry {
        ctime: (read_be_u32(raw, at), read_be_u32(raw, at + 4)),
        mtime: (read_be_u32(raw, at + 8), read_be_u32(raw, at + 12)),
        dev: read_be_u32(raw, at + 16),
        ino: read_be_u32(raw, at + 20),
        mode_type: mode / 4096,
        mode_perms: mode % 512,
        uid: read_be_u32(raw, at + 28),
        gid: read_be_u32(raw, at + 32),
        fsize: read_be_u32(raw, at + 36),
        sha: bytes_to_address(&raw[at + 40..at + 60]),
        flag_assume_valid: flags >= 32768,
        flag_stage: flags / 4096 % 4,
        name: crate::bytes::copy_range(raw, start, end),
    };
    Some((entry, end))
}

/// How many bytes follow a name of `name_len` bytes to fill its entry up: the
/// terminator and up to seven more.
fn entry_fill(name_len: usize) -> (fill: usize)
    ensures
        1 <= fill <= 8,
        fill == entry_fill_len(name_len as int),
{
    let over = name_len % 8;
    assert((62 + name_len) % 8 == (6 + over) % 8) by {
        assert(name_len == 8 * (name_len / 8) + over);
        assert(62 + name_len == 8 * (name_len / 8 + 7) + (6 + over));
        vstd::arithmetic::div_mod::lemma_mod_multiples_vanish(
            name_len as int / 8 + 7,
            6 + over as int,
            8,
        );
    }
    if over < 2 {
        2 - over
    } else {
        10 - over
    }
}

/// One more entry read: what was read so far, then the entry at `at`, then the
/// rest.
proof fn lemma_entries_step(raw: Seq<u8>, at: int, left: nat, before: Seq<IndexEntryView>)
    requires
        left >= 1,
        entry_fits(raw, at),
    ensures
        (match entries_from(raw, at, left) {
            None => None::<Seq<IndexEntryView>>,
            Some(rest) => Some(before + rest),
        }) == (match entries_from(raw, next_entry(raw, at), (left - 1) as nat) {
            None => None::<Seq<IndexEntryView>>,
            Some(rest) => Some((before + seq![entry_at(raw, at)]) + rest),
        }),
{
    match entries_from(raw, next_entry(raw, at), (left - 1) as nat) {
        None => {},
        Some(rest) => {
            assert(before + (seq![entry_at(raw, at)] + rest) =~= (before + seq![
                entry_at(raw, at),
            ]) + rest);
        },
    }
}

impl GitRepo {
    /// Reads an index file: the header, then as many entries as it counts. Fails
    /// with `UnsupportedIndexVersion` for a version other than 2, and with
    /// `CorruptObject` for a file without the signature or with an entry that
    /// cannot be read.
    pub fn index_read(raw: &[u8]) -> (out: Result<GitIndex, GitError>)
        ensures
            match out {
                Ok(index) => parsed_index(raw@) == Ok::<IndexView, GitError>(index@),
                Err(e) => parsed_index(raw@) == Err::<IndexView, GitError>(e),
            },
    {
        if raw.len() < 12 {
            return Err(GitError::CorruptObject);
        }
        if !(raw[0] == 68 && raw[1] == 73 && raw[2] == 82 && raw[3] == 67) {
            assert(raw@.subrange(0, 4)[0] == raw@[0]);
            assert(raw@.subrange(0, 4)[1] == raw@[1]);
            assert(raw@.subrange(0, 4)[2] == raw@[2]);
            assert(raw@.subrange(0, 4)[3] == raw@[3]);
            return Err(GitError::CorruptObject);
        }
        assert(raw@.subrange(0, 4) =~= index_signature());
        let version = read_be_u32(raw, 4);
        if version != 2 {
            return Err(GitError::UnsupportedIndexVersion);
        }
        let count = read_be_u32(raw, 8);
        let mut entries: Vec<GitIndexEntry> = Vec::new();
        let mut at: usize = 12;
        let mut i: u32 = 0;
        assert(Seq::<IndexEntryView>::empty() =~= entry_views(entries@));
        let ghost whole = entries_from(raw@, 12, count as nat);
        assert(whole == match whole {
            None => None::<Seq<IndexEntryView>>,
            Some(rest) => Some(entry_views(entries@) + rest),
        }) by {
            match whole {
                None => {},
                Some(rest) => {
                    assert(entry_views(entries@) + rest =~= rest);
                },
            }
        }
        while i < count
            invariant
                i <= count,
                at <= raw@.len(),
                entries@.len() == i,
                parsed_index(raw@) == match whole {
                    None => Err::<IndexView, GitError>(GitError::CorruptObject),
                    Some(all) => Ok(IndexView { version: Some(2u32), entries: all }),
                },
                whole == match entries_from(raw@, at as int, (count - i) as nat) {
                    None => None::<Seq<IndexEntryView>>,
                    Some(rest) => Some(entry_views(entries@) + rest),
                },
            decreases count - i,
        {
            let ghost before = entry_views(entries@);
            let ghost left = (count - i) as nat;
            match read_entry(raw, at) {
                None => {
                    return Err(GitError::CorruptObject);
                },
                Some((entry, end)) => {
                    proof {
                        lemma_entries_step(raw@, at as int, left, before);
                    }
                    let ghost view = entry@;
                    entries.push(entry);
                    assert(entry_views(entries@) =~= before + seq![view]);
                    i = i + 1;
                    if i == count {
                        assert(entry_views(entries@) + Seq::<IndexEntryView>::empty()
                            =~= entry_views(entries@));
                        return Ok(GitIndex { version: Some(2), entries });
                    }
                    let fill = entry_fill(end - (at + 62));
                    if fill > raw.len() - end {
                        assert(!entry_fits(raw@, next_entry(raw@, at as int))) by {
                            reveal(entry_fits);
                        }
                        return Err(GitError::CorruptObject);
                    }
                    at = end + fill;
                },
            }
        }
        assert(entry_views(entries@) + Seq::<IndexEntryView>::empty() =~= entry_views(entries@));
        Ok(GitIndex { version: Some(2), entries })
    }
}

/// The flags of an entry as they are written: the assume-valid bit, the stage,
/// and the name's length, held at the mask where the name is longer.
pub open spec fn written_flags(e: IndexEntryView) -> int {
    (if e.flag_assume_valid {
        32768int
    } else {
        0int
    }) + e.flag_stage * 4096 + (if e.name.len() < NAME_LENGTH_MASK {
        e.name.len() as int
    } else {
        NAME_LENGTH_MASK as int
    })
}

/// The fixed part of an entry as it is written, sixty-two bytes with every
/// number big-endian: the times, the device and the inode, two zero bytes and
/// the mode, the owner and the size, the twenty bytes of the address, the flags.
pub open spec fn fixed_bytes(e: IndexEntryView) -> Seq<u8> {
    be_bytes_u32(e.ctime.0 as int) + be_bytes_u32(e.ctime.1 as int) + be_bytes_u32(
        e.mtime.0 as int,
    ) + be_bytes_u32(e.mtime.1 as int) + be_bytes_u32(e.dev as int) + be_bytes_u32(e.ino as int)
        + be_bytes_u16(0) + be_bytes_u16(e.mode_type * 4096 + e.mode_perms) + be_bytes_u32(
        e.uid as int,
    ) + be_bytes_u32(e.gid as int) + be_bytes_u32(e.fsize as int) + hex_decoded(e.sha)
        + be_bytes_u16(written_flags(e))
}

/// The bytes of one entry: the fixed part, the name, then zero bytes up to a
/// multiple of eight, at least one.
pub open spec fn entry_bytes(e: IndexEntryView) -> Seq<u8> {
    fixed_bytes(e) + e.name + zeros(entry_fill_len(e.name.len() as int))
}

/// Whether an entry can be written: its numbers fit their bit fields, its
/// address is one, and its name holds no zero byte.
pub open spec fn entry_writable(e: IndexEntryView) -> bool {
    &&& e.mode_type < 16
    &&& e.mode_perms < 512
    &&& e.flag_stage < 4
    &&& is_address(e.sha)
    &&& !has_byte(e.name, 0u8)
}

/// The bytes of a run of entries, one after the other.
pub open spec fn entries_bytes(entries: Seq<IndexEntryView>) -> Seq<u8>
    decreases entries.len(),
{
    if entries.len() == 0 {
        Seq::empty()
    } else {
        entries_bytes(entries.drop_last()) + entry_bytes(entries.last())
    }
}

/// Whether each name comes strictly before every later one, in byte order: the
/// names ascend and none occurs twice.
pub open spec fn names_ascending(entries: Seq<IndexEntryView>) -> bool {
    forall|i: int, j: int|
        0 <= i < j < entries.len() ==> lex_less(#[trigger] entries[i].name, #[trigger] entries[j].name)
}

/// Whether every entry can be written.
pub open spec fn entries_writable(entries: Seq<IndexEntryView>) -> bool {
    forall|i: int| 0 <= i < entries.len() ==> entry_writable(#[trigger] entries[i])
}

/// Whether an index can be written as a version 2 file.
pub open spec fn index_writable(index: IndexView) -> bool {
    &&& index.version matches Some(v) ==> v == 2
    &&& index.entries.len() <= u32::MAX
    &&& entries_writable(index.entries)
    &&& names_ascending(index.entries)
}

/// The bytes of a version 2 index: the signature, the version, the count, the
/// entries.
pub open spec fn index_bytes(entries: Seq<IndexEntryView>) -> Seq<u8> {
    index_signature() + be_bytes_u32(2) + be_bytes_u32(entries.len() as int) + entries_bytes(
        entries,
    )
}

/// Appends one entry to `out`, or leaves `out` as it is where the entry cannot
/// be written.
fn write_entry(out: &mut Vec<u8>, entry: &GitIndexEntry) -> (done: bool)
    ensures
        done == entry_writable(entry@),
        done ==> final(out)@ == old(out)@ + entry_bytes(entry@),
        !done ==> final(out)@ == old(out)@,
{
    if entry.mode_type >= 16 || entry.mode_perms >= 512 || entry.flag_stage >= 4 {
        return false;
    }
    if contains_byte(entry.name.as_slice(), 0u8) {
        return false;
    }
    let sha = match address_to_bytes(entry.sha.as_slice()) {
        None => {
            return false;
        },
        Some(sha) => sha,
    };
    let ghost e = entry@;
    let ghost start = out@;
    let ghost mut acc: Seq<u8> = be_bytes_u32(e.ctime.0 as int);
    push_be_u32(out, entry.ctime.0);
    push_be_u32(out, entry.ctime.1);
    proof {
        acc = lemma_appended(start, acc, be_bytes_u32(e.ctime.1 as int));
    }
    push_be_u32(out, entry.mtime.0);
    proof {
        acc = lemma_appended(start, acc, be_bytes_u32(e.mtime.0 as int));
    }
    push_be_u32(out, entry.mtime.1);
    proof {
        acc = lemma_appended(start, acc, be_bytes_u32(e.mtime.1 as int));
    }
    push_be_u32(out, entry.dev);
    proof {
        acc = lemma_appended(start, acc, be_bytes_u32(e.dev as int));
    }
    push_be_u32(out, entry.ino);
    proof {
        acc = lemma_appended(start, acc, be_bytes_u32(e.ino as int));
    }
    push_be_u16(out, 0);
    proof {
        acc = lemma_appended(start, acc, be_bytes_u16(0));
    }
    push_be_u16(out, entry.mode_type * 4096 + entry.mode_perms);
    proof {
        acc = lemma_appended(start, acc, be_bytes_u16(e.mode_type * 4096 + e.mode_perms));
    }
    push_be_u32(out, entry.uid);
    proof {
        acc = lemma_appended(start, acc, be_bytes_u32(e.uid as int));
    }
    push_be_u32(out, entry.gid);
    proof {
        acc = lemma_appended(start, acc, be_bytes_u32(e.gid as int));
    }
    push_be_u32(out, entry.fsize);
    proof {
        acc = lemma_appended(start, acc, be_bytes_u32(e.fsize as int));
    }
    append_bytes(out, sha.as_slice());
    proof {
        acc = lemma_appended(start, acc, hex_decoded(e.sha));
    }
    let stage_bits: u16 = entry.flag_stage * 4096;
    let valid_bit: u16 = if entry.flag_assume_valid {
        32768
    } else {
        0
    };
    let name_len = entry.name.len();
    let length_bits: u16 = if name_len < 0xFFF {
        name_len as u16
    } else {
        0xFFF
    };
    push_be_u16(out, valid_bit + stage_bits + length_bits);
    proof {
        acc = lemma_appended(start, acc, be_bytes_u16(written_flags(e)));
    }
    append_bytes(out, entry.name.as_slice());
    proof {
        acc = lemma_appended(start, acc, e.name);
    }
    let fill = entry_fill(name_len);
    push_zeros(out, fill);
    proof {
        acc = lemma_appended(start, acc, zeros(entry_fill_len(e.name.len() as int)));
    }
    true
}

/// Appending `part` to what holds `start + acc` gives `start + (acc + part)`.
proof fn lemma_appended(start: Seq<u8>, acc: Seq<u8>, part: Seq<u8>) -> (next: Seq<u8>)
    ensures
        next == acc + part,
        (start + acc) + part == start + next,
{
    assert((start + acc) + part =~= start + (acc + part));
    acc + part
}

impl GitRepo {
    /// Writes an index as a version 2 file. An index that names another version is
    /// refused as unsupported. One with an entry that cannot be written, with names
    /// that do not strictly ascend, or with more entries than the count can hold, is
    /// refused as corrupt.
    pub fn index_write(index: &GitIndex) -> (out: Result<Vec<u8>, GitError>)
        ensures
            match out {
                Ok(bytes) => index_writable(index@) && bytes@ == index_bytes(index@.entries),
                Err(e) => !index_writable(index@) && e == (if index@.version matches Some(v) && v
                    != 2 {
                    GitError::UnsupportedIndexVersion
                } else {
                    GitError::CorruptObject
                }),
            },
    {
        match index.version {
            Some(v) => {
                if v != 2 {
                    return Err(GitError::UnsupportedIndexVersion);
                }
            },
            None => {},
        }
        let count = index.entries.len();
        if count > u32::MAX as usize {
            return Err(GitError::CorruptObject);
        }
        let ghost views = index@.entries;
        let mut out: Vec<u8> = Vec::new();
        out.push(68u8);
        out.push(73u8);
        out.push(82u8);
        out.push(67u8);
        push_be_u32(&mut out, 2);
        push_be_u32(&mut out, count as u32);
        let ghost header = out@;
        assert(header =~= index_signature() + be_bytes_u32(2) + be_bytes_u32(count as int));
        assert(views.subrange(0, 0) =~= Seq::<IndexEntryView>::empty());
        let mut i: usize = 0;
        while i < count
            invariant
                i <= count,
                count == index.entries@.len(),
                count <= u32::MAX,
                index.version matches Some(v) ==> v == 2,
                views == entry_views(index.entries@),
                views == index@.entries,
                out@ == header + entries_bytes(views.subrange(0, i as int)),
                entries_writable(views.subrange(0, i as int)),
                names_ascending(views.subrange(0, i as int)),
            decreases count - i,
        {
            let entry = &index.entries[i];
            if i > 0 {
                let previous = &index.entries[i - 1];
                if !bytes_less(previous.name.as_slice(), entry.name.as_slice()) {
                    assert(views[i - 1].name == previous.name@ && views[i as int].name == entry.name@);
                    return Err(GitError::CorruptObject);
                }
            }
            let ghost before = out@;
            if !write_entry(&mut out, entry) {
                assert(views[i as int] == entry@);
                return Err(GitError::CorruptObject);
            }
            proof {
                let shorter = views.subrange(0, i as int);
                let longer = views.subrange(0, i + 1);
                assert(longer.drop_last() =~= shorter);
                assert(longer.last() == entry@);
                assert(out@ =~= header + entries_bytes(longer));
                assert forall|a: int, b: int| 0 <= a < b < longer.len() implies lex_less(
                    #[trigger] longer[a].name,
                    #[trigger] longer[b].name,
                ) by {
                    if b == i as int {
                        if a < i - 1 {
                            assert(lex_less(shorter[a].name, shorter[i - 1].name));
                            crate::bytes::lemma_lex_less_transitive(
                                longer[a].name,
                                longer[i - 1].name,
                                longer[b].name,
                            );
                        }
                    } else {
                        assert(lex_less(shorter[a].name, shorter[b].name));
                    }
                }
                assert forall|a: int| 0 <= a < longer.len() implies entry_writable(
                    #[trigger] longer[a],
                ) by {
                    if a < i {
                        assert(entry_writable(shorter[a]));
                    }
                }
            }
            i = i + 1;
        }
        assert(views.subrange(0, count as int) =~= views);
        Ok(out)
    }
}

} // verus!
