//! Encoding of entries in the POSIX ustar format: 512-byte headers, data
//! padded to the block size, the GNU long-name record for names over 100
//! bytes, and the two zero blocks that end an archive.
use vstd::prelude::*;

verus! {

/// Size of one archive block.
pub const BLOCK: usize = 512;

/// Width of the inline name field of a header.
pub const NAME_LEN: usize = 100;

/// 8 to the power `w`.
pub open spec fn pow8(w: nat) -> nat
    decreases w,
{
    if w == 0 {
        1
    } else {
        8 * pow8((w - 1) as nat)
    }
}

/// The `w` octal digits (ASCII) of `n`, most significant first, leading zeros kept.
pub open spec fn octal(n: nat, w: nat) -> Seq<u8>
    decreases w,
{
    if w == 0 {
        Seq::empty()
    } else {
        octal(n / 8, (w - 1) as nat).push((48 + n % 8) as u8)
    }
}

/// The number that a string of ASCII octal digits denotes.
pub open spec fn octal_value(s: Seq<u8>) -> nat
    decreases s.len(),
{
    if s.len() == 0 {
        0
    } else {
        8 * octal_value(s.drop_last()) + (s.last() - 48) as nat
    }
}

/// `n` zero bytes.
pub open spec fn zeros(n: nat) -> Seq<u8> {
    Seq::new(n, |i: int| 0u8)
}

/// A numeric header field of `w` bytes: `w - 1` octal digits and a NUL.
pub open spec fn num_field(n: nat, w: nat) -> Seq<u8> {
    octal(n, (w - 1) as nat).push(0u8)
}

/// The name field: the name, then NULs up to its width.
pub open spec fn name_field(name: Seq<u8>) -> Seq<u8> {
    name + zeros((NAME_LEN - name.len()) as nat)
}

/// Sum of the bytes of `s`.
pub open spec fn byte_sum(s: Seq<u8>) -> nat
    decreases s.len(),
{
    if s.len() == 0 {
        0
    } else {
        byte_sum(s.drop_last()) + s.last() as nat
    }
}

pub proof fn lemma_octal_len(n: nat, w: nat)
    ensures
        octal(n, w).len() == w,
    decreases w,
{
    if w > 0 {
        lemma_octal_len(n / 8, (w - 1) as nat);
    }
}

/// Reading back the digits that `octal` wrote gives the number, when it fits.
pub proof fn lemma_octal_round_trip(n: nat, w: nat)
    requires
        n < pow8(w),
    ensures
        octal_value(octal(n, w)) == n,
    decreases w,
{
    if w > 0 {
        let q = n / 8;
        assert(q < pow8((w - 1) as nat)) by (nonlinear_arith)
            requires
                q == n / 8,
                n < 8 * pow8((w - 1) as nat),
        ;
        lemma_octal_round_trip(q, (w - 1) as nat);
        let s = octal(n, w);
        assert(s.drop_last() =~= octal(q, (w - 1) as nat));
        assert(n == 8 * q + n % 8) by (nonlinear_arith)
            requires
                q == n / 8,
        ;
    }
}

pub proof fn lemma_byte_sum_bound(s: Seq<u8>)
    ensures
        byte_sum(s) <= 255 * s.len(),
    decreases s.len(),
{
    if s.len() > 0 {
        lemma_byte_sum_bound(s.drop_last());
    }
}

/// Appends the `w` octal digits of `n` to `out`.
fn push_octal(out: &mut Vec<u8>, n: u64, w: usize)
    ensures
        final(out)@ == old(out)@ + octal(n as nat, w as nat),
    decreases w,
{
    if w > 0 {
        push_octal(out, n / 8, w - 1);
        out.push(48 + (n % 8) as u8);
        proof {
            assert(old(out)@ + octal(n as nat, w as nat) =~= old(out)@ + octal(
                (n / 8) as nat,
                (w - 1) as nat,
            ) + seq![(48 + n % 8) as u8]);
        }
    }
}

/// Appends `n` zero bytes to `out`.
fn push_zeros(out: &mut Vec<u8>, n: usize)
    ensures
        final(out)@ == old(out)@ + zeros(n as nat),
{
    let ghost start = out@;
    let mut i: usize = 0;
    while i < n
        invariant
            i <= n,
            out@ == start + zeros(i as nat),
        decreases n - i,
    {
        out.push(0u8);
        i = i + 1;
        assert(out@ =~= start + zeros(i as nat));
    }
}

/// Appends the bytes of `s` to `out`.
pub(crate) fn push_bytes(out: &mut Vec<u8>, s: &[u8])
    ensures
        final(out)@ == old(out)@ + s@,
{
    let ghost start = out@;
    let mut i: usize = 0;
    while i < s.len()
        invariant
            i <= s.len(),
            out@ == start + s@.take(i as int),
        decreases s.len() - i,
    {
        out.push(s[i]);
        i = i + 1;
        assert(out@ =~= start + s@.take(i as int));
    }
    assert(s@.take(s.len() as int) =~= s@);
}

/// Appends a numeric field of `w` bytes holding `n`.
fn push_num_field(out: &mut Vec<u8>, n: u64, w: usize)
    requires
        w >= 1,
    ensures
        final(out)@ == old(out)@ + num_field(n as nat, w as nat),
{
    push_octal(out, n, w - 1);
    out.push(0u8);
    assert(final(out)@ =~= old(out)@ + num_field(n as nat, w as nat));
}

/// Sum of the bytes of `s`.
fn sum_bytes(s: &Vec<u8>) -> (r: u64)
    requires
        s@.len() <= BLOCK,
    ensures
        r == byte_sum(s@),
{
    let mut acc: u64 = 0;
    let mut i: usize = 0;
    while i < s.len()
        invariant
            i <= s@.len() <= BLOCK,
            acc == byte_sum(s@.take(i as int)),
            acc <= 255 * i,
        decreases s@.len() - i,
    {
        assert(s@.take(i + 1).drop_last() =~= s@.take(i as int));
        acc = acc + s[i] as u64;
        i = i + 1;
    }
    assert(s@.take(s@.len() as int) =~= s@);
    acc
}


/// Type flag of a regular file.
pub const TYPE_FILE: u8 = 48;

/// Type flag of a directory.
pub const TYPE_DIR: u8 = 53;

/// Type flag of the GNU record that carries the long name of the next entry.
pub const TYPE_LONG_NAME: u8 = 76;

/// The bytes from offset 0 up to the checksum field (148 bytes).
pub open spec fn header_head(name: Seq<u8>, mode: nat, size: nat, mtime: nat) -> Seq<u8> {
    name_field(name) + num_field(mode, 8) + num_field(0, 8) + num_field(0, 8) + num_field(size, 12)
        + num_field(mtime, 12)
}

/// `ustar` with its NUL, then version `00`.
pub open spec fn ustar_magic() -> Seq<u8> {
    seq![117u8, 115u8, 116u8, 97u8, 114u8, 0u8, 48u8, 48u8]
}

/// The bytes after the checksum field (356 bytes): type flag, empty link name,
/// magic and version, empty owner names, zero device numbers, empty prefix.
pub open spec fn header_tail(typeflag: u8) -> Seq<u8> {
    seq![typeflag] + zeros(100) + ustar_magic() + zeros(64) + num_field(0, 8) + num_field(0, 8)
        + zeros(167)
}

/// The checksum field: six octal digits, a NUL and a space.
pub open spec fn checksum_field(sum: nat) -> Seq<u8> {
    octal(sum, 6) + seq![0u8, 32u8]
}

/// A header's checksum: the sum of its bytes with the checksum field read as spaces.
pub open spec fn header_sum(head: Seq<u8>, tail: Seq<u8>) -> nat {
    byte_sum(head) + 8 * 32 + byte_sum(tail)
}

/// One 512-byte header block.
#[verifier::opaque]
pub open spec fn header_block(name: Seq<u8>, typeflag: u8, mode: nat, size: nat, mtime: nat) -> Seq<u8> {
    let head = header_head(name, mode, size, mtime);
    let tail = header_tail(typeflag);
    head + checksum_field(header_sum(head, tail)) + tail
}

pub proof fn lemma_pow8_values()
    ensures
        pow8(6) == 262144,
        pow8(7) == 2097152,
        pow8(11) == 8589934592,
{
    assert(pow8(0) == 1);
    assert(pow8(1) == 8);
    assert(pow8(2) == 64);
    assert(pow8(3) == 512);
    assert(pow8(4) == 4096);
    assert(pow8(5) == 32768);
    assert(pow8(6) == 262144);
    assert(pow8(7) == 2097152);
    assert(pow8(8) == 16777216);
    assert(pow8(9) == 134217728);
    assert(pow8(10) == 1073741824);
    assert(pow8(11) == 8589934592);
}

/// Largest value that a 12-byte numeric field holds, plus one.
pub const NUM12_LIMIT: u64 = 8589934592;

/// Largest value that an 8-byte numeric field holds, plus one.
pub const NUM8_LIMIT: u64 = 2097152;

/// Builds one header block.
#[verifier::spinoff_prover]
fn header(name: &[u8], typeflag: u8, mode: u64, size: u64, mtime: u64) -> (r: Vec<u8>)
    requires
        name@.len() <= NAME_LEN,
    ensures
        r@ == header_block(name@, typeflag, mode as nat, size as nat, mtime as nat),
        r@.len() == BLOCK,
{
    let mut head: Vec<u8> = Vec::new();
    push_bytes(&mut head, name);
    push_zeros(&mut head, NAME_LEN - name.len());
    push_num_field(&mut head, mode, 8);
    push_num_field(&mut head, 0, 8);
    push_num_field(&mut head, 0, 8);
    push_num_field(&mut head, size, 12);
    push_num_field(&mut head, mtime, 12);
    let mut tail: Vec<u8> = Vec::new();
    tail.push(typeflag);
    push_zeros(&mut tail, 100);
    tail.push(117);
    tail.push(115);
    tail.push(116);
    tail.push(97);
    tail.push(114);
    tail.push(0);
    tail.push(48);
    tail.push(48);
    push_zeros(&mut tail, 64);
    push_num_field(&mut tail, 0, 8);
    push_num_field(&mut tail, 0, 8);
    push_zeros(&mut tail, 167);
    proof {
        let hs = header_head(name@, mode as nat, size as nat, mtime as nat);
        let ts = header_tail(typeflag);
        assert(head@ =~= hs);
        assert(tail@ =~= ts);
        lemma_octal_len(mode as nat, 7);
        lemma_octal_len(0, 7);
        lemma_octal_len(size as nat, 11);
        lemma_octal_len(mtime as nat, 11);
        lemma_octal_len(0, 7);
        assert(hs.len() == 148);
        assert(ts.len() == 356);
        lemma_byte_sum_bound(hs);
        lemma_byte_sum_bound(ts);
    }
    let sum = sum_bytes(&head) + 256 + sum_bytes(&tail);
    let mut r = head;
    push_octal(&mut r, sum, 6);
    r.push(0);
    r.push(32);
    r.append(&mut tail);
    proof {
        lemma_octal_len(sum as nat, 6);
        reveal(header_block);
        assert(r@ =~= header_block(name@, typeflag, mode as nat, size as nat, mtime as nat));
    }
    r
}


/// What an entry is.
#[derive(Clone, Copy, Debug, PartialEq, Eq, Structural)]
pub enum EntryKind {
    File,
    Directory,
}

/// One entry of an archive, as the walk found it.
#[derive(Clone, Debug)]
pub struct ArchiveEntry {
    /// Path relative to the archived directory, `/`-separated, no trailing `/`.
    pub path: Vec<u8>,
    pub kind: EntryKind,
    /// Length in bytes of a file's contents; not written for a directory.
    pub size: u64,
    /// Modification time in seconds since the epoch.
    pub mtime: u64,
    /// Permission bits.
    pub mode: u64,
}

/// Why an entry or a stream of entries cannot be encoded.
#[derive(Clone, Copy, Debug, PartialEq, Eq, Structural)]
pub enum EncodeError {
    /// The path is empty or holds a NUL byte.
    InvalidName,
    /// The size, time, mode or name length does not fit its header field.
    FieldOverflow,
    /// A file's contents are longer or shorter than its declared size.
    SizeMismatch,
    /// A call came in a state that does not take it.
    OutOfOrder,
}

/// The name written for an entry: a directory's carries a trailing `/`.
pub open spec fn archive_name(e: ArchiveEntry) -> Seq<u8> {
    if e.kind == EntryKind::Directory {
        e.path@.push(47u8)
    } else {
        e.path@
    }
}

pub open spec fn type_flag(k: EntryKind) -> u8 {
    if k == EntryKind::Directory {
        TYPE_DIR
    } else {
        TYPE_FILE
    }
}

/// The size written in an entry's header: zero for a directory.
pub open spec fn declared_size(e: ArchiveEntry) -> nat {
    if e.kind == EntryKind::Directory {
        0
    } else {
        e.size as nat
    }
}

/// The path is non-empty and free of NUL bytes.
pub open spec fn name_ok(e: ArchiveEntry) -> bool {
    e.path@.len() > 0 && forall|i: int| 0 <= i < e.path@.len() ==> #[trigger] e.path@[i] != 0
}

/// Every number of the entry fits its header field.
pub open spec fn fields_fit(e: ArchiveEntry) -> bool {
    e.mode < NUM8_LIMIT && e.size < NUM12_LIMIT && e.mtime < NUM12_LIMIT && archive_name(e).len()
        + 1 < NUM12_LIMIT
}

/// Zero bytes that bring `n` bytes of data to a block boundary.
pub open spec fn pad_len(n: nat) -> nat {
    if n % 512 == 0 {
        0
    } else {
        (512 - n % 512) as nat
    }
}

/// `././@LongLink`, the name of a long-name record.
pub open spec fn long_link_name() -> Seq<u8> {
    seq![46u8, 47u8, 46u8, 47u8, 64u8, 76u8, 111u8, 110u8, 103u8, 76u8, 105u8, 110u8, 107u8]
}

/// The record that carries a name too long for the header: a header of type
/// `L`, then the name with a NUL, padded.
pub open spec fn long_name_record(name: Seq<u8>) -> Seq<u8> {
    header_block(long_link_name(), TYPE_LONG_NAME, 0, (name.len() + 1) as nat, 0) + name.push(0u8)
        + zeros(pad_len((name.len() + 1) as nat))
}

/// All the bytes that precede an entry's data.
pub open spec fn entry_header_bytes(e: ArchiveEntry) -> Seq<u8> {
    let name = archive_name(e);
    if name.len() <= NAME_LEN {
        header_block(name, type_flag(e.kind), e.mode as nat, declared_size(e), e.mtime as nat)
    } else {
        long_name_record(name) + header_block(
            name.take(NAME_LEN as int),
            type_flag(e.kind),
            e.mode as nat,
            declared_size(e),
            e.mtime as nat,
        )
    }
}

/// An entry's whole record: what precedes the data, the data, the padding.
pub open spec fn record(e: ArchiveEntry, data: Seq<u8>) -> Seq<u8> {
    entry_header_bytes(e) + data + zeros(pad_len(data.len()))
}

/// The records of the entries, in order.
pub open spec fn records(es: Seq<ArchiveEntry>, ds: Seq<Seq<u8>>) -> Seq<u8>
    decreases es.len(),
{
    if es.len() == 0 || ds.len() == 0 {
        Seq::empty()
    } else {
        records(es.drop_last(), ds.drop_last()) + record(es.last(), ds.last())
    }
}

/// The end of an archive: two zero blocks.
pub open spec fn terminator() -> Seq<u8> {
    zeros(1024)
}

/// A whole archive of the entries with their contents.
pub open spec fn archive(es: Seq<ArchiveEntry>, ds: Seq<Seq<u8>>) -> Seq<u8> {
    records(es, ds) + terminator()
}

/// A copy of the first `n` bytes of `s`.
fn prefix(s: &Vec<u8>, n: usize) -> (r: Vec<u8>)
    requires
        n <= s@.len(),
    ensures
        r@ == s@.take(n as int),
{
    let mut r: Vec<u8> = Vec::new();
    push_bytes(&mut r, vstd::slice::slice_subrange(s.as_slice(), 0, n));
    assert(r@ =~= s@.take(n as int));
    r
}

/// `pad_len(n)` zero bytes.
pub fn padding(n: u64) -> (r: Vec<u8>)
    ensures
        r@ == zeros(pad_len(n as nat)),
{
    let rem = (n % 512) as usize;
    let mut r: Vec<u8> = Vec::new();
    if rem != 0 {
        push_zeros(&mut r, 512 - rem);
    }
    assert(r@ =~= zeros(pad_len(n as nat)));
    r
}

/// The two zero blocks that end an archive.
pub fn terminator_blocks() -> (r: Vec<u8>)
    ensures
        r@ == terminator(),
{
    let mut r: Vec<u8> = Vec::new();
    push_zeros(&mut r, 2 * BLOCK);
    assert(r@ =~= terminator());
    r
}

/// Encodes what precedes an entry's data: its header block, and before it the
/// long-name record where the name does not fit the header.
#[verifier::spinoff_prover]
pub fn encode_header(e: &ArchiveEntry) -> (r: Result<Vec<u8>, EncodeError>)
    ensures
        match r {
            Ok(h) => name_ok(*e) && fields_fit(*e) && h@ == entry_header_bytes(*e),
            Err(EncodeError::InvalidName) => !name_ok(*e),
            Err(EncodeError::FieldOverflow) => name_ok(*e) && !fields_fit(*e),
            Err(_) => false,
        },
{
    let n = e.path.len();
    if n == 0 {
        return Err(EncodeError::InvalidName);
    }
    let mut i: usize = 0;
    while i < n
        invariant
            n == e.path@.len(),
            i <= n,
            forall|j: int| 0 <= j < i ==> #[trigger] e.path@[j] != 0,
        decreases n - i,
    {
        if e.path[i] == 0 {
            return Err(EncodeError::InvalidName);
        }
        i = i + 1;
    }
    if n as u64 >= NUM12_LIMIT {
        return Err(EncodeError::FieldOverflow);
    }
    let name_len: u64 = if e.kind == EntryKind::Directory {
        n as u64 + 1
    } else {
        n as u64
    };
    if e.mode >= NUM8_LIMIT || e.size >= NUM12_LIMIT || e.mtime >= NUM12_LIMIT || name_len
        >= NUM12_LIMIT - 1 {
        return Err(EncodeError::FieldOverflow);
    }
    let mut name = prefix(&e.path, n);
    let tf: u8;
    let size: u64;
    if e.kind == EntryKind::Directory {
        name.push(47);
        tf = TYPE_DIR;
        size = 0;
    } else {
        tf = TYPE_FILE;
        size = e.size;
    }
    assert(e.path@.take(n as int) =~= e.path@);
    assert(name@ == archive_name(*e));
    let nlen = name.len();
    assert(nlen as u64 == name_len);
    if nlen <= NAME_LEN {
        Ok(header(name.as_slice(), tf, e.mode, size, e.mtime))
    } else {
        let short = prefix(&name, NAME_LEN);
        let h = header(short.as_slice(), tf, e.mode, size, e.mtime);
        let link: [u8; 13] = [46, 47, 46, 47, 64, 76, 111, 110, 103, 76, 105, 110, 107];
        assert(link@ =~= long_link_name());
        let mut r = header(link.as_slice(), TYPE_LONG_NAME, 0, name_len + 1, 0);
        push_bytes(&mut r, name.as_slice());
        r.push(0);
        let mut pad = padding(name_len + 1);
        r.append(&mut pad);
        let mut hh = h;
        r.append(&mut hh);
        assert(r@ =~= entry_header_bytes(*e));
        Ok(r)
    }
}


/// The bytes of a field up to its first NUL.
pub open spec fn until_nul(f: Seq<u8>) -> Seq<u8>
    decreases f.len(),
{
    if f.len() == 0 || f[0] == 0 {
        Seq::empty()
    } else {
        seq![f[0]] + until_nul(f.drop_first())
    }
}

/// The number in the numeric field of `w` bytes at `off`: its digits before the NUL.
pub open spec fn read_number(h: Seq<u8>, off: int, w: int) -> nat {
    octal_value(h.subrange(off, off + w - 1))
}

/// The name a reader takes from a header block.
pub open spec fn read_name(h: Seq<u8>) -> Seq<u8> {
    until_nul(h.take(NAME_LEN as int))
}

/// The stored checksum equals the sum of the block with its checksum field read as spaces.
pub open spec fn checksum_ok(h: Seq<u8>) -> bool {
    read_number(h, 148, 7) == header_sum(h.take(148), h.skip(156))
}

pub proof fn lemma_until_nul(name: Seq<u8>, k: nat)
    requires
        forall|i: int| 0 <= i < name.len() ==> #[trigger] name[i] != 0,
    ensures
        until_nul(name + zeros(k)) == name,
    decreases name.len(),
{
    let f = name + zeros(k);
    if name.len() == 0 {
        assert(f =~= zeros(k));
        if k > 0 {
            assert(f[0] == 0);
        }
    } else {
        assert(f[0] == name[0]);
        assert(f.drop_first() =~= name.drop_first() + zeros(k));
        lemma_until_nul(name.drop_first(), k);
        assert(name =~= seq![name[0]] + name.drop_first());
    }
}

/// A header block read back: a reader finds the name, the numbers and the
/// type flag that went in, and a checksum that holds.
#[verifier::spinoff_prover]
pub proof fn law_header_round_trip(name: Seq<u8>, typeflag: u8, mode: nat, size: nat, mtime: nat)
    requires
        name.len() <= NAME_LEN,
        forall|i: int| 0 <= i < name.len() ==> #[trigger] name[i] != 0,
        mode < pow8(7),
        size < pow8(11),
        mtime < pow8(11),
    ensures
        header_block(name, typeflag, mode, size, mtime).len() == BLOCK,
        read_name(header_block(name, typeflag, mode, size, mtime)) == name,
        read_number(header_block(name, typeflag, mode, size, mtime), 100, 8) == mode,
        read_number(header_block(name, typeflag, mode, size, mtime), 124, 12) == size,
        read_number(header_block(name, typeflag, mode, size, mtime), 136, 12) == mtime,
        header_block(name, typeflag, mode, size, mtime)[156] == typeflag,
        header_block(name, typeflag, mode, size, mtime)[257] == 117u8,
        checksum_ok(header_block(name, typeflag, mode, size, mtime)),
{
    reveal(header_block);
    let head = header_head(name, mode, size, mtime);
    let tail = header_tail(typeflag);
    let sum = header_sum(head, tail);
    let h = header_block(name, typeflag, mode, size, mtime);
    lemma_octal_len(mode, 7);
    lemma_octal_len(0, 7);
    lemma_octal_len(size, 11);
    lemma_octal_len(mtime, 11);
    lemma_octal_len(sum, 6);
    lemma_byte_sum_bound(head);
    lemma_byte_sum_bound(tail);
    lemma_pow8_values();
    assert(head.len() == 148);
    assert(tail.len() == 356);
    assert(h.take(NAME_LEN as int) =~= name + zeros((NAME_LEN - name.len()) as nat));
    lemma_until_nul(name, (NAME_LEN - name.len()) as nat);
    assert(h.subrange(100, 107) =~= octal(mode, 7));
    lemma_octal_round_trip(mode, 7);
    assert(h.subrange(124, 135) =~= octal(size, 11));
    lemma_octal_round_trip(size, 11);
    assert(h.subrange(136, 147) =~= octal(mtime, 11));
    lemma_octal_round_trip(mtime, 11);
    assert(h.subrange(148, 154) =~= octal(sum, 6));
    lemma_octal_round_trip(sum, 6);
    assert(h.take(148) =~= head);
    assert(h.skip(156) =~= tail);
}

/// A header block is one block long.
pub proof fn lemma_header_block_len(name: Seq<u8>, typeflag: u8, mode: nat, size: nat, mtime: nat)
    requires
        name.len() <= NAME_LEN,
    ensures
        header_block(name, typeflag, mode, size, mtime).len() == BLOCK,
{
    reveal(header_block);
    let head = header_head(name, mode, size, mtime);
    let tail = header_tail(typeflag);
    lemma_octal_len(mode, 7);
    lemma_octal_len(0, 7);
    lemma_octal_len(size, 11);
    lemma_octal_len(mtime, 11);
    lemma_octal_len(header_sum(head, tail), 6);
}

/// Every record fills whole blocks, so that each header starts on a block
/// boundary and the data that follows it is padded to one.
#[verifier::spinoff_prover]
pub proof fn law_record_aligned(e: ArchiveEntry, data: Seq<u8>)
    ensures
        record(e, data).len() % 512 == 0,
        entry_header_bytes(e).len() % 512 == 0,
{
    let name = archive_name(e);
    if name.len() <= NAME_LEN {
        lemma_header_block_len(name, type_flag(e.kind), e.mode as nat, declared_size(e), e.mtime as nat);
    } else {
        lemma_header_block_len(name.take(NAME_LEN as int), type_flag(e.kind), e.mode as nat, declared_size(e), e.mtime as nat);
        lemma_header_block_len(long_link_name(), TYPE_LONG_NAME, 0, (name.len() + 1) as nat, 0);
        let n = name.len() + 1;
        assert((n + pad_len(n as nat)) % 512 == 0) by (nonlinear_arith)
            requires
                pad_len(n as nat) == if n % 512 == 0 { 0 } else { 512 - n % 512 },
                n >= 0,
        ;
    }
    let d = data.len();
    let hl = entry_header_bytes(e).len();
    assert((hl + d + pad_len(d as nat)) % 512 == 0) by (nonlinear_arith)
        requires
            pad_len(d as nat) == if d % 512 == 0 { 0 } else { 512 - d % 512 },
            hl % 512 == 0,
            d >= 0,
    ;
}


/// A name over 100 bytes travels whole in the record before the header: a
/// reader finds a long-name block whose size counts the name and its NUL,
/// then the name, then, on the next block boundary, the entry's own header.
#[verifier::spinoff_prover]
pub proof fn law_long_name_round_trip(e: ArchiveEntry)
    requires
        name_ok(e),
        fields_fit(e),
        archive_name(e).len() > NAME_LEN,
    ensures
        ({
            let b = entry_header_bytes(e);
            let name = archive_name(e);
            let n = name.len() as int;
            let off = 512 + n + 1 + pad_len((n + 1) as nat);
            &&& read_name(b.take(512)) == long_link_name()
            &&& b[156] == TYPE_LONG_NAME
            &&& read_number(b.take(512), 124, 12) == n + 1
            &&& b.subrange(512, 512 + n) == name
            &&& b[512 + n] == 0
            &&& off % 512 == 0
            &&& b.skip(off) == header_block(
                name.take(NAME_LEN as int),
                type_flag(e.kind),
                e.mode as nat,
                declared_size(e),
                e.mtime as nat,
            )
        }),
{
    let name = archive_name(e);
    let n = name.len() as int;
    lemma_pow8_values();
    assert forall|i: int| 0 <= i < long_link_name().len() implies #[trigger] long_link_name()[i] != 0 by {}
    law_header_round_trip(long_link_name(), TYPE_LONG_NAME, 0, (n + 1) as nat, 0);
    let first = header_block(long_link_name(), TYPE_LONG_NAME, 0, (n + 1) as nat, 0);
    let b = entry_header_bytes(e);
    assert(b.take(512) =~= first);
    assert(b.subrange(512, 512 + n) =~= name);
    let off = 512 + n + 1 + pad_len((n + 1) as nat);
    assert(off % 512 == 0) by (nonlinear_arith)
        requires
            pad_len((n + 1) as nat) == if (n + 1) % 512 == 0 { 0 } else { 512 - (n + 1) % 512 },
            off == 512 + n + 1 + pad_len((n + 1) as nat),
            n >= 0,
    ;
    assert(b.skip(off) =~= header_block(
        name.take(NAME_LEN as int),
        type_flag(e.kind),
        e.mode as nat,
        declared_size(e),
        e.mtime as nat,
    ));
}


/// What a reader takes from one record: the full name, the type flag, the
/// numbers, and the data.
pub struct Unpacked {
    pub name: Seq<u8>,
    pub typeflag: u8,
    pub mode: nat,
    pub size: nat,
    pub mtime: nat,
    pub data: Seq<u8>,
}

/// What a reader should find for entry `e` with contents `d`.
pub open spec fn unpacked_of(e: ArchiveEntry, d: Seq<u8>) -> Unpacked {
    Unpacked {
        name: archive_name(e),
        typeflag: type_flag(e.kind),
        mode: e.mode as nat,
        size: declared_size(e),
        mtime: e.mtime as nat,
        data: d,
    }
}

/// Where the entry's own header starts, and the full name: after a
/// long-name record, the name it carries; else the header's name field.
pub open spec fn read_long_name(b: Seq<u8>) -> (Seq<u8>, int) {
    let h0 = b.take(512);
    if h0[156] == TYPE_LONG_NAME {
        let n = read_number(h0, 124, 12) as int;
        (b.subrange(512, 512 + n - 1), 512 + n + pad_len(n as nat))
    } else {
        (read_name(h0), 0)
    }
}

/// Reads the record at the front of `b`: the entry, and the record's length.
pub open spec fn read_record(b: Seq<u8>) -> (Unpacked, int) {
    let (name, off) = read_long_name(b);
    let h = b.subrange(off, off + 512);
    let size = read_number(h, 124, 12);
    (
        Unpacked {
            name,
            typeflag: h[156],
            mode: read_number(h, 100, 8),
            size,
            mtime: read_number(h, 136, 12),
            data: b.subrange(off + 512, off + 512 + size),
        },
        off + 512 + size + pad_len(size),
    )
}

/// Reads records from the front of `b` until a zero block.
pub open spec fn read_archive(b: Seq<u8>) -> Seq<Unpacked>
    decreases b.len(),
{
    if b.len() < 512 || b.take(512) == zeros(512) {
        Seq::empty()
    } else {
        let (u, len) = read_record(b);
        if 0 < len <= b.len() {
            seq![u] + read_archive(b.skip(len))
        } else {
            Seq::empty()
        }
    }
}

proof fn lemma_records_front(es: Seq<ArchiveEntry>, ds: Seq<Seq<u8>>)
    requires
        es.len() == ds.len(),
        es.len() > 0,
    ensures
        records(es, ds) == record(es[0], ds[0]) + records(es.drop_first(), ds.drop_first()),
    decreases es.len(),
{
    if es.len() == 1 {
        assert(es.drop_first().len() == 0);
        assert(records(es.drop_last(), ds.drop_last()) == Seq::<u8>::empty());
        assert(records(es, ds) =~= record(es[0], ds[0]) + records(es.drop_first(), ds.drop_first()));
    } else {
        lemma_records_front(es.drop_last(), ds.drop_last());
        assert(es.drop_last().drop_first() =~= es.drop_first().drop_last());
        assert(ds.drop_last().drop_first() =~= ds.drop_first().drop_last());
        assert(es.drop_first().last() == es.last());
        assert(ds.drop_first().last() == ds.last());
        assert(records(es, ds) =~= record(es[0], ds[0]) + records(es.drop_first(), ds.drop_first()));
    }
}

/// The entry's archive name is free of NUL bytes.
proof fn lemma_archive_name_no_nul(e: ArchiveEntry)
    requires
        name_ok(e),
    ensures
        forall|i: int| 0 <= i < archive_name(e).len() ==> #[trigger] archive_name(e)[i] != 0,
{
    let name = archive_name(e);
    assert forall|i: int| 0 <= i < name.len() implies #[trigger] name[i] != 0 by {
        if i < e.path@.len() {
            assert(name[i] == e.path@[i]);
        }
    }
}

/// The name field of an entry's own header block.
pub open spec fn short_name(e: ArchiveEntry) -> Seq<u8> {
    let name = archive_name(e);
    if name.len() <= NAME_LEN {
        name
    } else {
        name.take(NAME_LEN as int)
    }
}

/// An entry's own header block.
pub open spec fn own_header(e: ArchiveEntry) -> Seq<u8> {
    header_block(short_name(e), type_flag(e.kind), e.mode as nat, declared_size(e), e.mtime as nat)
}

proof fn lemma_own_header(e: ArchiveEntry)
    requires
        name_ok(e),
        fields_fit(e),
    ensures
        own_header(e).len() == BLOCK,
        own_header(e)[257] == 117u8,
        own_header(e)[156] == type_flag(e.kind),
        read_number(own_header(e), 100, 8) == e.mode,
        read_number(own_header(e), 124, 12) == declared_size(e),
        read_number(own_header(e), 136, 12) == e.mtime,
        read_name(own_header(e)) == short_name(e),
{
    lemma_pow8_values();
    lemma_archive_name_no_nul(e);
    let name = archive_name(e);
    let short = short_name(e);
    assert forall|i: int| 0 <= i < short.len() implies #[trigger] short[i] != 0 by {
        assert(short[i] == name[i]);
    }
    law_header_round_trip(short, type_flag(e.kind), e.mode as nat, declared_size(e), e.mtime as nat);
}

#[verifier::spinoff_prover]
proof fn lemma_front_short(e: ArchiveEntry, b: Seq<u8>)
    requires
        name_ok(e),
        fields_fit(e),
        archive_name(e).len() <= NAME_LEN,
        b.len() >= 512,
        b.take(512) == entry_header_bytes(e),
    ensures
        entry_header_bytes(e) == own_header(e),
        read_long_name(b) == (archive_name(e), 0int),
        b.take(512) != zeros(512),
{
    lemma_own_header(e);
    assert(type_flag(e.kind) != TYPE_LONG_NAME);
    assert(b.take(512)[257] != zeros(512)[257]);
}

#[verifier::spinoff_prover]
proof fn lemma_front_long(e: ArchiveEntry, b: Seq<u8>)
    requires
        name_ok(e),
        fields_fit(e),
        archive_name(e).len() > NAME_LEN,
        b.len() >= entry_header_bytes(e).len(),
        b.take(entry_header_bytes(e).len() as int) == entry_header_bytes(e),
    ensures
        entry_header_bytes(e).len() >= 512,
        entry_header_bytes(e).skip(entry_header_bytes(e).len() - 512) == own_header(e),
        read_long_name(b) == (archive_name(e), entry_header_bytes(e).len() - 512),
        b.take(512) != zeros(512),
{
    let name = archive_name(e);
    let n = name.len() as int;
    let hb = entry_header_bytes(e);
    law_long_name_round_trip(e);
    lemma_own_header(e);
    lemma_pow8_values();
    assert(long_link_name().len() == 13);
    assert forall|i: int| 0 <= i < long_link_name().len() implies #[trigger] long_link_name()[i] != 0 by {}
    law_header_round_trip(long_link_name(), TYPE_LONG_NAME, 0, (n + 1) as nat, 0);
    let off = 512 + n + 1 + pad_len((n + 1) as nat);
    assert(hb.len() == off + 512);
    assert(b.take(512) =~= hb.take(512));
    assert(b.subrange(512, 512 + n) =~= hb.subrange(512, 512 + n));
    assert(b.take(512)[257] != zeros(512)[257]);
}

#[verifier::spinoff_prover]
proof fn lemma_read_record(e: ArchiveEntry, d: Seq<u8>, rest: Seq<u8>)
    requires
        name_ok(e),
        fields_fit(e),
        d.len() == declared_size(e),
    ensures
        read_record(record(e, d) + rest) == (unpacked_of(e, d), record(e, d).len() as int),
        (record(e, d) + rest).take(512) != zeros(512),
        (record(e, d) + rest).len() >= 512,
{
    let b = record(e, d) + rest;
    let hb = entry_header_bytes(e);
    lemma_own_header(e);
    if archive_name(e).len() <= NAME_LEN {
        assert(b.take(512) =~= hb);
        lemma_front_short(e, b);
    } else {
        assert(b.take(hb.len() as int) =~= hb);
        lemma_front_long(e, b);
    }
    let off = hb.len() - 512;
    assert(hb =~= hb.take(off) + own_header(e));
    assert(b.subrange(off, off + 512) =~= own_header(e));
    assert(b.subrange(off + 512, off + 512 + d.len()) =~= d);
}

/// The entries that an archive's records can be read back from.
pub open spec fn readable(es: Seq<ArchiveEntry>, ds: Seq<Seq<u8>>) -> bool {
    &&& es.len() == ds.len()
    &&& forall|i: int| 0 <= i < es.len() ==> name_ok(#[trigger] es[i]) && fields_fit(es[i])
    &&& forall|i: int| 0 <= i < es.len() ==> (#[trigger] ds[i]).len() == declared_size(es[i])
}

proof fn lemma_readable_rest(es: Seq<ArchiveEntry>, ds: Seq<Seq<u8>>)
    requires
        readable(es, ds),
        es.len() > 0,
    ensures
        readable(es.drop_first(), ds.drop_first()),
        name_ok(es[0]) && fields_fit(es[0]) && ds[0].len() == declared_size(es[0]),
        archive(es, ds) == record(es[0], ds[0]) + archive(es.drop_first(), ds.drop_first()),
{
    let es1 = es.drop_first();
    let ds1 = ds.drop_first();
    assert forall|i: int| 0 <= i < es1.len() implies name_ok(#[trigger] es1[i]) && fields_fit(es1[i]) by {
        assert(es1[i] == es[i + 1]);
    }
    assert forall|i: int| 0 <= i < es1.len() implies (#[trigger] ds1[i]).len() == declared_size(es1[i]) by {
        assert(es1[i] == es[i + 1]);
        assert(ds1[i] == ds[i + 1]);
    }
    assert(name_ok(es[0]) && fields_fit(es[0]));
    assert(ds[0].len() == declared_size(es[0]));
    lemma_records_front(es, ds);
    assert(archive(es, ds) =~= record(es[0], ds[0]) + archive(es1, ds1));
}

proof fn lemma_read_archive_step(r0: Seq<u8>, tail: Seq<u8>, u: Unpacked)
    requires
        read_record(r0 + tail) == (u, r0.len() as int),
        (r0 + tail).take(512) != zeros(512),
        (r0 + tail).len() >= 512,
        r0.len() > 0,
    ensures
        read_archive(r0 + tail) == seq![u] + read_archive(tail),
{
    assert((r0 + tail).skip(r0.len() as int) =~= tail);
}

/// Reading an archive back gives, record by record, the full name, the type,
/// the mode, the size, the time and the exact contents of every entry that
/// went in, in the order they went in.
pub proof fn law_archive_round_trip(es: Seq<ArchiveEntry>, ds: Seq<Seq<u8>>)
    requires
        readable(es, ds),
    ensures
        read_archive(archive(es, ds)) == Seq::new(es.len(), |i: int| unpacked_of(es[i], ds[i])),
    decreases es.len(),
{
    let want = Seq::new(es.len(), |i: int| unpacked_of(es[i], ds[i]));
    if es.len() == 0 {
        assert(archive(es, ds) =~= zeros(1024));
        assert(zeros(1024).take(512) =~= zeros(512));
        assert(want =~= Seq::<Unpacked>::empty());
    } else {
        let es1 = es.drop_first();
        let ds1 = ds.drop_first();
        lemma_readable_rest(es, ds);
        law_archive_round_trip(es1, ds1);
        let r0 = record(es[0], ds[0]);
        let tail = archive(es1, ds1);
        lemma_read_record(es[0], ds[0], tail);
        law_record_aligned(es[0], ds[0]);
        lemma_read_archive_step(r0, tail, unpacked_of(es[0], ds[0]));
        assert(want =~= seq![unpacked_of(es[0], ds[0])] + Seq::new(es1.len(), |i: int| unpacked_of(es1[i], ds1[i])));
    }
}

} // verus!
