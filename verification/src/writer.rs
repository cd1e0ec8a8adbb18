//! Writing spreadsheet workbooks (`.xlsx` and `.ods`): the XML parts of
//! each sheet and a minimal ZIP container with stored (uncompressed)
//! entries and a fixed timestamp, so the same sheets always give the
//! same bytes.

use vstd::prelude::*;

use crate::text::{chars_of, decimal, push_char, push_decimal, push_str, string_of};

verus! {

// ---------------------------------------------------------------------
// CRC-32
// ---------------------------------------------------------------------

/// One bit step of the reflected IEEE CRC-32 (polynomial `0xEDB88320`).
pub open spec fn crc_round(c: u32) -> u32 {
    if c & 1 != 0 {
        (c >> 1u32) ^ 0xEDB8_8320u32
    } else {
        c >> 1u32
    }
}

/// `n` bit steps.
pub open spec fn crc_rounds(c: u32, n: nat) -> u32
    decreases n,
{
    if n == 0 {
        c
    } else {
        crc_round(crc_rounds(c, (n - 1) as nat))
    }
}

/// The CRC register after `bytes`, starting from all ones.
pub open spec fn crc_reg(bytes: Seq<u8>) -> u32
    decreases bytes.len(),
{
    if bytes.len() == 0 {
        0xFFFF_FFFFu32
    } else {
        crc_rounds(crc_reg(bytes.drop_last()) ^ (bytes.last() as u32), 8)
    }
}

/// The IEEE CRC-32 of `bytes`: the final register, inverted.
pub open spec fn crc_spec(bytes: Seq<u8>) -> u32 {
    !crc_reg(bytes)
}

/// The IEEE CRC-32 of `bytes`, bit by bit.
pub fn crc32(bytes: &[u8]) -> (r: u32)
    ensures
        r == crc_spec(bytes@),
{
    let mut crc: u32 = 0xFFFF_FFFF;
    let mut i: usize = 0;
    assert(bytes@.subrange(0, 0) =~= Seq::<u8>::empty());
    while i < bytes.len()
        invariant
            i <= bytes@.len(),
            crc == crc_reg(bytes@.subrange(0, i as int)),
        decreases bytes@.len() - i,
    {
        let ghost start = crc ^ (bytes@[i as int] as u32);
        crc = crc ^ (bytes[i] as u32);
        let mut j: u32 = 0;
        while j < 8
            invariant
                j <= 8,
                crc == crc_rounds(start, j as nat),
            decreases 8 - j,
        {
            crc = if crc & 1 != 0 {
                (crc >> 1u32) ^ 0xEDB8_8320u32
            } else {
                crc >> 1u32
            };
            j = j + 1;
        }
        let ghost next = bytes@.subrange(0, i as int + 1);
        assert(next.drop_last() =~= bytes@.subrange(0, i as int));
        i = i + 1;
    }
    assert(bytes@.subrange(0, bytes@.len() as int) =~= bytes@);
    !crc
}

// ---------------------------------------------------------------------
// Little-endian fields
// ---------------------------------------------------------------------

/// The two bytes of `v`, least significant first.
pub open spec fn le16(v: u16) -> Seq<u8> {
    seq![(v % 256) as u8, (v / 256) as u8]
}

/// The four bytes of `v`, least significant first.
pub open spec fn le32(v: u32) -> Seq<u8> {
    seq![(v % 256) as u8, ((v / 256) % 256) as u8, ((v / 65536) % 256) as u8, (v / 16777216) as u8]
}

fn push_le16(out: &mut Vec<u8>, v: u16)
    ensures
        final(out)@ == old(out)@ + le16(v),
{
    out.push((v % 256) as u8);
    out.push((v / 256) as u8);
    assert(out@ =~= old(out)@ + le16(v));
}

fn push_le32(out: &mut Vec<u8>, v: u32)
    ensures
        final(out)@ == old(out)@ + le32(v),
{
    out.push((v % 256) as u8);
    out.push(((v / 256) % 256) as u8);
    out.push(((v / 65536) % 256) as u8);
    out.push((v / 16777216) as u8);
    assert(out@ =~= old(out)@ + le32(v));
}

fn push_bytes(out: &mut Vec<u8>, bytes: &[u8])
    ensures
        final(out)@ == old(out)@ + bytes@,
{
    let mut i: usize = 0;
    while i < bytes.len()
        invariant
            i <= bytes@.len(),
            out@ == old(out)@ + bytes@.subrange(0, i as int),
        decreases bytes@.len() - i,
    {
        out.push(bytes[i]);
        i = i + 1;
        assert(out@ =~= old(out)@ + bytes@.subrange(0, i as int));
    }
    assert(bytes@.subrange(0, bytes@.len() as int) =~= bytes@);
}

// ---------------------------------------------------------------------
// ZIP container
// ---------------------------------------------------------------------

/// DOS date of every entry: 1980-01-01.
pub const DOS_DATE: u16 = 0x0021;

/// DOS time of every entry: 00:00.
pub const DOS_TIME: u16 = 0;

/// The UTF-8 bytes of a name.
pub open spec fn utf8(s: Seq<char>) -> Seq<u8> {
    vstd::utf8::encode_utf8(s)
}

/// The local header of a stored entry.
pub open spec fn local_header(name: Seq<char>, crc: u32, size: u32) -> Seq<u8> {
    le32(0x04034b50) + le16(20) + le16(0) + le16(0) + le16(DOS_TIME) + le16(DOS_DATE) + le32(crc)
        + le32(size) + le32(size) + le16(utf8(name).len() as u16) + le16(0) + utf8(name)
}

/// The central-directory header of an entry.
pub open spec fn central_header(name: Seq<char>, crc: u32, size: u32, offset: u32) -> Seq<u8> {
    le32(0x02014b50) + le16(20) + le16(20) + le16(0) + le16(0) + le16(DOS_TIME) + le16(DOS_DATE)
        + le32(crc) + le32(size) + le32(size) + le16(utf8(name).len() as u16) + le16(0) + le16(0)
        + le16(0) + le16(0) + le32(0) + le32(offset) + utf8(name)
}

/// The central directory of the recorded entries.
pub open spec fn central_dir(entries: Seq<(Seq<char>, u32, u32, u32)>) -> Seq<u8>
    decreases entries.len(),
{
    if entries.len() == 0 {
        Seq::empty()
    } else {
        let e = entries.last();
        central_dir(entries.drop_last()) + central_header(e.0, e.1, e.2, e.3)
    }
}

/// The end-of-central-directory record.
pub open spec fn end_record(count: u16, size: u32, offset: u32) -> Seq<u8> {
    le32(0x06054b50) + le16(0) + le16(0) + le16(count) + le16(count) + le32(size) + le32(offset)
        + le16(0)
}

/// The entries of an archive of `files` (name, content): the local
/// records, each a header then the content.
pub open spec fn local_part(files: Seq<(Seq<char>, Seq<u8>)>) -> Seq<u8>
    decreases files.len(),
{
    if files.len() == 0 {
        Seq::empty()
    } else {
        let f = files.last();
        local_part(files.drop_last()) + local_header(f.0, crc_spec(f.1), f.1.len() as u32) + f.1
    }
}

/// What the archive records of each file: name, CRC, size and the
/// offset of its local record.
pub open spec fn entry_list(files: Seq<(Seq<char>, Seq<u8>)>) -> Seq<(Seq<char>, u32, u32, u32)>
    decreases files.len(),
{
    if files.len() == 0 {
        Seq::empty()
    } else {
        let f = files.last();
        entry_list(files.drop_last()).push(
            (f.0, crc_spec(f.1), f.1.len() as u32, local_part(files.drop_last()).len() as u32),
        )
    }
}

/// The whole archive of `files`, in order.
pub open spec fn archive(files: Seq<(Seq<char>, Seq<u8>)>) -> Seq<u8> {
    let l = local_part(files);
    let c = central_dir(entry_list(files));
    l + c + end_record(
        files.len() as u16,
        ((l.len() + c.len()) as u32).wrapping_sub(l.len() as u32),
        l.len() as u32,
    )
}

/// A ZIP archive being written.
pub struct Zip {
    data: Vec<u8>,
    entries: Vec<(String, u32, u32, u32)>,
}

/// The models of recorded entries.
pub open spec fn entries_view(e: Seq<(String, u32, u32, u32)>) -> Seq<(Seq<char>, u32, u32, u32)> {
    e.map_values(|x: (String, u32, u32, u32)| (x.0@, x.1, x.2, x.3))
}

/// Append the central-directory header of a recorded entry.
fn push_central(data: &mut Vec<u8>, e: &(String, u32, u32, u32))
    ensures
        final(data)@ == old(data)@ + central_header(e.0@, e.1, e.2, e.3),
{
    let nb = e.0.as_str().as_bytes();
    push_le32(data, 0x02014b50u32);
    push_le16(data, 20u16);
    push_le16(data, 20u16);
    push_le16(data, 0u16);
    push_le16(data, 0u16);
    push_le16(data, DOS_TIME);
    push_le16(data, DOS_DATE);
    push_le32(data, e.1);
    push_le32(data, e.2);
    push_le32(data, e.2);
    push_le16(data, nb.len() as u16);
    push_le16(data, 0u16);
    push_le16(data, 0u16);
    push_le16(data, 0u16);
    push_le16(data, 0u16);
    push_le32(data, 0u32);
    push_le32(data, e.3);
    push_bytes(data, nb);
    assert(nb@ == utf8(e.0@));
    assert(data@ =~= old(data)@ + central_header(e.0@, e.1, e.2, e.3));
}

/// The entry list has one entry per file.
proof fn lemma_entry_list_len(files: Seq<(Seq<char>, Seq<u8>)>)
    ensures
        entry_list(files).len() == files.len(),
    decreases files.len(),
{
    if files.len() > 0 {
        lemma_entry_list_len(files.drop_last());
    }
}

/// Adding one more file to an archive being written appends its local
/// record (header, then the content verbatim) and records its entry at
/// the offset where the record starts: the records of `Zip::add` calls
/// stand in add order.
pub proof fn lemma_files_step(fv: Seq<(Seq<char>, Seq<u8>)>, i: int)
    requires
        0 <= i < fv.len(),
    ensures
        local_part(fv.subrange(0, i + 1)) == local_part(fv.subrange(0, i)) + local_header(
            fv[i].0,
            crc_spec(fv[i].1),
            fv[i].1.len() as u32,
        ) + fv[i].1,
        entry_list(fv.subrange(0, i + 1)) == entry_list(fv.subrange(0, i)).push(
            (fv[i].0, crc_spec(fv[i].1), fv[i].1.len() as u32, local_part(fv.subrange(0, i)).len() as u32),
        ),
{
    let sub = fv.subrange(0, i + 1);
    assert(sub.drop_last() =~= fv.subrange(0, i));
    assert(sub.last() == fv[i]);
}

/// The bytes of the local records of `files`: a 30-byte header, the
/// name and the content per file.
pub open spec fn local_len(files: Seq<(Seq<char>, Seq<u8>)>) -> nat
    decreases files.len(),
{
    if files.len() == 0 {
        0
    } else {
        local_len(files.drop_last()) + 30 + utf8(files.last().0).len() + files.last().1.len()
    }
}

/// The bytes of the central directory of `files`: a 46-byte header and
/// the name per file.
pub open spec fn central_len(files: Seq<(Seq<char>, Seq<u8>)>) -> nat
    decreases files.len(),
{
    if files.len() == 0 {
        0
    } else {
        central_len(files.drop_last()) + 46 + utf8(files.last().0).len()
    }
}

proof fn lemma_local_len(files: Seq<(Seq<char>, Seq<u8>)>)
    ensures
        local_part(files).len() == local_len(files),
        central_dir(entry_list(files)).len() == central_len(files),
    decreases files.len(),
{
    if files.len() > 0 {
        let p = files.drop_last();
        lemma_local_len(p);
        let f = files.last();
        let e = entry_list(files).last();
        assert(entry_list(files).drop_last() =~= entry_list(p));
        assert(e.0 == f.0);
    }
}

/// The layout of a finished archive: the local records, then the
/// central directory, then the 22-byte end record; local records take
/// 30 bytes plus name plus content per file, the central directory 46
/// bytes plus name per file. An archive of no files is the end record
/// alone: `PK\x05\x06` and eighteen zero bytes.
#[verifier::spinoff_prover]
#[verifier::rlimit(40)]
pub proof fn lemma_archive_layout(files: Seq<(Seq<char>, Seq<u8>)>)
    ensures
        archive(files).len() == local_len(files) + central_len(files) + 22,
        archive(files).subrange(0, local_len(files) as int) == local_part(files),
        files.len() == 0 ==> archive(files) == seq![0x50u8, 0x4bu8, 0x05u8, 0x06u8, 0u8, 0u8, 0u8, 0u8, 0u8, 0u8, 0u8, 0u8, 0u8, 0u8, 0u8, 0u8, 0u8, 0u8, 0u8, 0u8, 0u8, 0u8],
{
    lemma_local_len(files);
    let l = local_part(files);
    let c = central_dir(entry_list(files));
    let e = end_record(
        files.len() as u16,
        ((l.len() + c.len()) as u32).wrapping_sub(l.len() as u32),
        l.len() as u32,
    );
    assert(e.len() == 22);
    assert((l + c + e).subrange(0, l.len() as int) =~= l);
    if files.len() == 0 {
        assert(l =~= Seq::<u8>::empty());
        assert(entry_list(files) =~= Seq::<(Seq<char>, u32, u32, u32)>::empty());
        assert(c =~= Seq::<u8>::empty());
        assert((0u32 as u32).wrapping_sub(0u32) == 0u32);
        assert(archive(files) =~= seq![0x50u8, 0x4bu8, 0x05u8, 0x06u8, 0u8, 0u8, 0u8, 0u8, 0u8, 0u8, 0u8, 0u8, 0u8, 0u8, 0u8, 0u8, 0u8, 0u8, 0u8, 0u8, 0u8, 0u8]);
    }
}

/// What a [`Zip`] holds after `new` and then an `add` of each file in
/// turn: the local records and the recorded entries of those files.
pub open spec fn built(files: Seq<(Seq<char>, Seq<u8>)>) -> (Seq<u8>, Seq<(Seq<char>, u32, u32, u32)>) {
    (local_part(files), entry_list(files))
}

/// A `Zip` built step by step finishes to the archive of its files:
/// `Zip::new` holds `built` of no files; `add(n, b)` on a zip holding
/// `built(fv)` (its contract) leaves it holding `built(fv + [(n, b)])`, the
/// new record after the earlier ones; and `finish` on a zip holding
/// `built(fv)` (its contract) gives `archive(fv)`, whose layout
/// [`lemma_archive_layout`] states.
pub proof fn lemma_zip_steps(fv: Seq<(Seq<char>, Seq<u8>)>, n: Seq<char>, b: Seq<u8>)
    ensures
        built(Seq::empty()) == (Seq::<u8>::empty(), Seq::<(Seq<char>, u32, u32, u32)>::empty()),
        built(fv.push((n, b))).0 == built(fv).0 + local_header(n, crc_spec(b), b.len() as u32) + b,
        built(fv.push((n, b))).1 == built(fv).1.push(
            (n, crc_spec(b), b.len() as u32, built(fv).0.len() as u32),
        ),
        built(fv).0 + central_dir(built(fv).1) + end_record(
            built(fv).1.len() as u16,
            ((built(fv).0.len() + central_dir(built(fv).1).len()) as u32).wrapping_sub(
                built(fv).0.len() as u32,
            ),
            built(fv).0.len() as u32,
        ) == archive(fv),
{
    let f2 = fv.push((n, b));
    lemma_files_step(f2, fv.len() as int);
    assert(f2.subrange(0, fv.len() as int + 1) =~= f2);
    assert(f2.subrange(0, fv.len() as int) =~= fv);
    lemma_entry_list_len(fv);
}

impl View for Zip {
    type V = (Seq<u8>, Seq<(Seq<char>, u32, u32, u32)>);

    /// The bytes written so far and the recorded entries.
    closed spec fn view(&self) -> (Seq<u8>, Seq<(Seq<char>, u32, u32, u32)>) {
        (self.data@, entries_view(self.entries@))
    }
}

impl Zip {
    /// An archive with no entries.
    pub fn new() -> (r: Zip)
        ensures
            r@ == (Seq::<u8>::empty(), Seq::<(Seq<char>, u32, u32, u32)>::empty()),
    {
        let r = Zip { data: Vec::new(), entries: Vec::new() };
        assert(entries_view(r.entries@) =~= Seq::<(Seq<char>, u32, u32, u32)>::empty());
        r
    }

    /// Add a stored entry `name` with content `bytes`: its local record
    /// goes at the end, and the entry is recorded with its CRC, size and
    /// offset (sizes and offsets truncated to 32 bits).
    pub fn add(&mut self, name: &str, bytes: &[u8])
        ensures
            final(self)@.0 == old(self)@.0 + local_header(name@, crc_spec(bytes@), bytes@.len() as u32)
                + bytes@,
            final(self)@.1 == old(self)@.1.push(
                (name@, crc_spec(bytes@), bytes@.len() as u32, old(self)@.0.len() as u32),
            ),
    {
        let offset = self.data.len() as u32;
        let crc = crc32(bytes);
        let size = bytes.len() as u32;
        let nb = name.as_bytes();
        push_le32(&mut self.data, 0x04034b50u32);
        push_le16(&mut self.data, 20u16);
        push_le16(&mut self.data, 0u16);
        push_le16(&mut self.data, 0u16);
        push_le16(&mut self.data, DOS_TIME);
        push_le16(&mut self.data, DOS_DATE);
        push_le32(&mut self.data, crc);
        push_le32(&mut self.data, size);
        push_le32(&mut self.data, size);
        push_le16(&mut self.data, nb.len() as u16);
        push_le16(&mut self.data, 0u16);
        push_bytes(&mut self.data, nb);
        push_bytes(&mut self.data, bytes);
        let ghost e0 = entries_view(self.entries@);
        self.entries.push((name.to_owned(), crc, size, offset));
        proof {
            assert(nb@ == utf8(name@));
            assert(self.data@ =~= old(self)@.0 + local_header(name@, crc, size) + bytes@);
            assert(entries_view(self.entries@) =~= e0.push((name@, crc, size, offset)));
        }
    }

    /// The finished archive: the local records, the central directory,
    /// and the end record (entry count truncated to 16 bits).
    pub fn finish(self) -> (r: Vec<u8>)
        ensures
            r@ == self@.0 + central_dir(self@.1) + end_record(
                self@.1.len() as u16,
                ((self@.0.len() + central_dir(self@.1).len()) as u32).wrapping_sub(self@.0.len() as u32),
                self@.0.len() as u32,
            ),
    {
        let ghost ev = entries_view(self.entries@);
        let mut data = self.data;
        let entries = self.entries;
        let ghost d0 = data@;
        let central_offset = data.len() as u32;
        let mut i: usize = 0;
        assert(ev.subrange(0, 0) =~= Seq::<(Seq<char>, u32, u32, u32)>::empty());
        while i < entries.len()
            invariant
                i <= entries@.len(),
                ev == entries_view(entries@),
                ev.len() == entries@.len(),
                data@ == d0 + central_dir(ev.subrange(0, i as int)),
            decreases entries@.len() - i,
        {
            let e = &entries[i];
            push_central(&mut data, e);
            proof {
                let sub = ev.subrange(0, i as int + 1);
                assert(sub.drop_last() =~= ev.subrange(0, i as int));
                assert(sub.last() == ev[i as int]);
                assert(ev[i as int] == (e.0@, e.1, e.2, e.3));
                assert(data@ =~= d0 + central_dir(sub));
            }
            i = i + 1;
        }
        assert(ev.subrange(0, ev.len() as int) =~= ev);
        let central_size = (data.len() as u32).wrapping_sub(central_offset);
        let count = entries.len() as u16;
        let ghost d1 = data@;
        push_le32(&mut data, 0x06054b50u32);
        push_le16(&mut data, 0u16);
        push_le16(&mut data, 0u16);
        push_le16(&mut data, count);
        push_le16(&mut data, count);
        push_le32(&mut data, central_size);
        push_le32(&mut data, central_offset);
        push_le16(&mut data, 0u16);
        assert(data@ =~= d1 + end_record(count, central_size, central_offset));
        data
    }
}

/// A stored ZIP archive of `files` (name, content), in order.
pub fn zip_files(files: &Vec<(String, Vec<u8>)>) -> (r: Vec<u8>)
    ensures
        r@ == archive(files_view(files@)),
{
    let ghost fv = files_view(files@);
    let mut zip = Zip::new();
    let mut i: usize = 0;
    assert(fv.subrange(0, 0) =~= Seq::<(Seq<char>, Seq<u8>)>::empty());
    while i < files.len()
        invariant
            i <= files@.len(),
            fv == files_view(files@),
            fv.len() == files@.len(),
            zip@.0 == local_part(fv.subrange(0, i as int)),
            zip@.1 == entry_list(fv.subrange(0, i as int)),
        decreases files@.len() - i,
    {
        let f = &files[i];
        proof {
            assert(fv[i as int] == (f.0@, f.1@));
            lemma_files_step(fv, i as int);
        }
        zip.add(f.0.as_str(), f.1.as_slice());
        i = i + 1;
    }
    assert(fv.subrange(0, fv.len() as int) =~= fv);
    proof {
        lemma_entry_list_len(fv);
    }
    zip.finish()
}

/// The models of (name, content) files.
pub open spec fn files_view(f: Seq<(String, Vec<u8>)>) -> Seq<(Seq<char>, Seq<u8>)> {
    f.map_values(|x: (String, Vec<u8>)| (x.0@, x.1@))
}

// ---------------------------------------------------------------------
// XML text
// ---------------------------------------------------------------------

/// One character of XML text content, escaped.
pub open spec fn esc_char(c: char) -> Seq<char> {
    if c == '&' {
        "&amp;"@
    } else if c == '<' {
        "&lt;"@
    } else if c == '>' {
        "&gt;"@
    } else {
        seq![c]
    }
}

/// XML text content: `&`, `<` and `>` escaped.
pub open spec fn esc_spec(s: Seq<char>) -> Seq<char>
    decreases s.len(),
{
    if s.len() == 0 {
        Seq::empty()
    } else {
        esc_spec(s.drop_last()) + esc_char(s.last())
    }
}

/// One character of an XML attribute value, escaped.
pub open spec fn attr_char(c: char) -> Seq<char> {
    if c == '"' {
        "&quot;"@
    } else {
        esc_char(c)
    }
}

/// An XML attribute value: the text escapes plus `"`.
pub open spec fn esc_attr_spec(s: Seq<char>) -> Seq<char>
    decreases s.len(),
{
    if s.len() == 0 {
        Seq::empty()
    } else {
        esc_attr_spec(s.drop_last()) + attr_char(s.last())
    }
}

/// Escape text content (`&`, `<`, `>`).
pub fn esc(text: &str) -> (r: String)
    ensures
        r@ == esc_spec(text@),
{
    let c = chars_of(text);
    let mut out = String::new();
    let mut i: usize = 0;
    assert(c@.subrange(0, 0) =~= Seq::<char>::empty());
    while i < c.len()
        invariant
            i <= c@.len(),
            c@ == text@,
            out@ == esc_spec(c@.subrange(0, i as int)),
        decreases c@.len() - i,
    {
        let ch = c[i];
        if ch == '&' {
            push_str(&mut out, "&amp;");
        } else if ch == '<' {
            push_str(&mut out, "&lt;");
        } else if ch == '>' {
            push_str(&mut out, "&gt;");
        } else {
            push_char(&mut out, ch);
        }
        let ghost sub = c@.subrange(0, i as int + 1);
        assert(sub.drop_last() =~= c@.subrange(0, i as int));
        assert(sub.last() == ch);
        i = i + 1;
    }
    assert(c@.subrange(0, c@.len() as int) =~= c@);
    out
}

/// Escape an attribute value (text escapes plus `"`).
pub fn esc_attr(text: &str) -> (r: String)
    ensures
        r@ == esc_attr_spec(text@),
{
    let c = chars_of(text);
    let mut out = String::new();
    let mut i: usize = 0;
    assert(c@.subrange(0, 0) =~= Seq::<char>::empty());
    while i < c.len()
        invariant
            i <= c@.len(),
            c@ == text@,
            out@ == esc_attr_spec(c@.subrange(0, i as int)),
        decreases c@.len() - i,
    {
        let ch = c[i];
        if ch == '"' {
            push_str(&mut out, "&quot;");
        } else if ch == '&' {
            push_str(&mut out, "&amp;");
        } else if ch == '<' {
            push_str(&mut out, "&lt;");
        } else if ch == '>' {
            push_str(&mut out, "&gt;");
        } else {
            push_char(&mut out, ch);
        }
        let ghost sub = c@.subrange(0, i as int + 1);
        assert(sub.drop_last() =~= c@.subrange(0, i as int));
        assert(sub.last() == ch);
        i = i + 1;
    }
    assert(c@.subrange(0, c@.len() as int) =~= c@);
    out
}

/// The letter for a digit below 26 (`A` for 0).
pub open spec fn letter(d: nat) -> char {
    ((65 + d) as u8) as char
}

/// The A1 column letters of the 1-based column `n` (bijective base 26;
/// empty for 0).
pub open spec fn col_letters(n: nat) -> Seq<char>
    decreases n,
{
    if n == 0 {
        Seq::empty()
    } else {
        col_letters(((n - 1) as nat / 26) as nat).push(letter(((n - 1) as nat % 26) as nat))
    }
}

fn col_chars(n: usize) -> (r: Vec<char>)
    ensures
        r@ == col_letters(n as nat),
    decreases n,
{
    if n == 0 {
        Vec::new()
    } else {
        let rem = (n - 1) % 26;
        let mut v = col_chars((n - 1) / 26);
        v.push(((65 + rem) as u8) as char);
        v
    }
}

/// A 0-based column index as A1 letters (`0` is `A`, `26` is `AA`).
pub fn col_ref(index: usize) -> (r: String)
    requires
        index < usize::MAX,
    ensures
        r@ == col_letters(index as nat + 1),
{
    let v = col_chars(index + 1);
    string_of(v.as_slice())
}

// ---------------------------------------------------------------------
// Cells and sheets
// ---------------------------------------------------------------------

/// One cell to write. A numeric cell carries the text the spreadsheet
/// stores for its number (shortest round-trip form, integers without a
/// decimal point).
#[derive(Debug, PartialEq)]
pub enum Cell {
    /// A string cell.
    S(String),
    /// A plain numeric cell.
    N(String),
    /// A boolean cell.
    B(bool),
    /// xlsx only: a serial number styled as a datetime.
    Dt(String),
    /// xlsx only: a serial number styled as a time.
    Tm(String),
    /// xlsx only: a serial number styled as a date.
    D(String),
}

/// The model of a [`Cell`].
pub enum CellV {
    S(Seq<char>),
    N(Seq<char>),
    B(bool),
    Dt(Seq<char>),
    Tm(Seq<char>),
    D(Seq<char>),
}

impl Cell {
    /// The model of this cell.
    pub open spec fn view(&self) -> CellV {
        match self {
            Cell::S(t) => CellV::S(t@),
            Cell::N(v) => CellV::N(v@),
            Cell::B(b) => CellV::B(*b),
            Cell::Dt(v) => CellV::Dt(v@),
            Cell::Tm(v) => CellV::Tm(v@),
            Cell::D(v) => CellV::D(v@),
        }
    }
}

/// The XML declaration every part starts with.
pub open spec fn xml_head() -> Seq<char> {
    "<?xml version=\"1.0\" encoding=\"UTF-8\" standalone=\"yes\"?>"@
}

/// A styled serial cell.
pub open spec fn styled_cell(r: Seq<char>, style: Seq<char>, v: Seq<char>) -> Seq<char> {
    "<c r=\""@ + r + "\" s=\""@ + style + "\"><v>"@ + v + "</v></c>"@
}

/// The xlsx XML of a cell at 1-based `row` and 0-based `col`.
pub open spec fn xlsx_cell_spec(row: u32, col: nat, c: CellV) -> Seq<char> {
    let r = col_letters(col + 1) + decimal(row as nat);
    match c {
        CellV::S(t) => "<c r=\""@ + r + "\" t=\"inlineStr\"><is><t xml:space=\"preserve\">"@
            + esc_spec(t) + "</t></is></c>"@,
        CellV::N(v) => "<c r=\""@ + r + "\"><v>"@ + v + "</v></c>"@,
        CellV::B(b) => "<c r=\""@ + r + "\" t=\"b\"><v>"@ + (if b {
            "1"@
        } else {
            "0"@
        }) + "</v></c>"@,
        CellV::Dt(v) => styled_cell(r, "1"@, v),
        CellV::Tm(v) => styled_cell(r, "2"@, v),
        CellV::D(v) => styled_cell(r, "3"@, v),
    }
}

/// The xlsx XML of one cell.
pub fn xlsx_cell(row: u32, col: usize, cell: &Cell) -> (r: String)
    requires
        col < usize::MAX,
    ensures
        r@ == xlsx_cell_spec(row, col as nat, cell@),
{
    let mut at = col_ref(col);
    push_decimal(&mut at, row as u64);
    let mut out = String::new();
    push_str(&mut out, "<c r=\"");
    push_str(&mut out, at.as_str());
    match cell {
        Cell::S(t) => {
            push_str(&mut out, "\" t=\"inlineStr\"><is><t xml:space=\"preserve\">");
            let e = esc(t.as_str());
            push_str(&mut out, e.as_str());
            push_str(&mut out, "</t></is></c>");
        },
        Cell::N(v) => {
            push_str(&mut out, "\"><v>");
            push_str(&mut out, v.as_str());
            push_str(&mut out, "</v></c>");
        },
        Cell::B(b) => {
            push_str(&mut out, "\" t=\"b\"><v>");
            push_str(&mut out, if *b { "1" } else { "0" });
            push_str(&mut out, "</v></c>");
        },
        Cell::Dt(v) => push_styled(&mut out, "1", v.as_str()),
        Cell::Tm(v) => push_styled(&mut out, "2", v.as_str()),
        Cell::D(v) => push_styled(&mut out, "3", v.as_str()),
    }
    proof {
        let r = col_letters(col as nat + 1) + decimal(row as nat);
        match cell@ {
            CellV::S(t) => {
                assert(out@ =~= xlsx_cell_spec(row, col as nat, cell@));
            },
            CellV::B(b) => {
                assert(out@ =~= xlsx_cell_spec(row, col as nat, cell@));
            },
            _ => {
                assert(out@ =~= xlsx_cell_spec(row, col as nat, cell@));
            },
        }
    }
    out
}

/// Append the rest of a styled serial cell (after its reference).
fn push_styled(out: &mut String, style: &str, v: &str)
    ensures
        final(out)@ == old(out)@ + "\" s=\""@ + style@ + "\"><v>"@ + v@ + "</v></c>"@,
{
    push_str(out, "\" s=\"");
    push_str(out, style);
    push_str(out, "\"><v>");
    push_str(out, v);
    push_str(out, "</v></c>");
}

/// The models of a row's cells.
pub open spec fn cells_v(c: Seq<Cell>) -> Seq<CellV> {
    c.map_values(|x: Cell| x@)
}

/// The xlsx XML of a row's cells, columns from `A`.
pub open spec fn cells_xml(row: u32, cells: Seq<CellV>) -> Seq<char>
    decreases cells.len(),
{
    if cells.len() == 0 {
        Seq::empty()
    } else {
        cells_xml(row, cells.drop_last()) + xlsx_cell_spec(row, (cells.len() - 1) as nat, cells.last())
    }
}

/// The xlsx XML of a numbered row.
pub open spec fn row_xml(number: u32, cells: Seq<CellV>) -> Seq<char> {
    "<row r=\""@ + decimal(number as nat) + "\">"@ + cells_xml(number, cells) + "</row>"@
}

/// The models of a sheet's rows: (1-based row number, cells).
pub open spec fn rows_v(r: Seq<(u32, Vec<Cell>)>) -> Seq<(u32, Seq<CellV>)> {
    r.map_values(|x: (u32, Vec<Cell>)| (x.0, cells_v(x.1@)))
}

/// The rows numbered `n`, in the order given.
pub open spec fn numbered(rows: Seq<(u32, Seq<CellV>)>, n: int) -> Seq<char>
    decreases rows.len(),
{
    if rows.len() == 0 {
        Seq::empty()
    } else if rows.last().0 == n {
        numbered(rows.drop_last(), n) + row_xml(rows.last().0, rows.last().1)
    } else {
        numbered(rows.drop_last(), n)
    }
}

/// The rows numbered `n` and above: ascending by number, rows that
/// share a number in the order given.
pub open spec fn rows_from(rows: Seq<(u32, Seq<CellV>)>, n: int) -> Seq<char>
    decreases 0x1_0000_0000 - n,
{
    if n < 0 || n > u32::MAX {
        Seq::empty()
    } else {
        numbered(rows, n) + rows_from(rows, n + 1)
    }
}

/// The worksheet XML of a sheet's rows.
pub open spec fn sheet_xml_spec(rows: Seq<(u32, Seq<CellV>)>) -> Seq<char> {
    xml_head() + "<worksheet xmlns=\"http://schemas.openxmlformats.org/spreadsheetml/2006/main\"><sheetData>"@
        + rows_from(rows, 0) + "</sheetData></worksheet>"@
}

/// No row numbered `n`: nothing for `n`.
proof fn lemma_numbered_none(rows: Seq<(u32, Seq<CellV>)>, n: int)
    requires
        forall|i: int| 0 <= i < rows.len() ==> (#[trigger] rows[i]).0 != n,
    ensures
        numbered(rows, n) == Seq::<char>::empty(),
    decreases rows.len(),
{
    if rows.len() > 0 {
        let p = rows.drop_last();
        assert forall|i: int| 0 <= i < p.len() implies (#[trigger] p[i]).0 != n by {
            assert(p[i] == rows[i]);
        }
        lemma_numbered_none(p, n);
        assert(rows.last() == rows[rows.len() - 1]);
    }
}

/// Numbers without rows add nothing.
proof fn lemma_rows_skip(rows: Seq<(u32, Seq<CellV>)>, lo: int, hi: int)
    requires
        0 <= lo <= hi <= u32::MAX + 1,
        forall|i: int| 0 <= i < rows.len() ==> !(lo <= (#[trigger] rows[i]).0 < hi),
    ensures
        rows_from(rows, lo) == rows_from(rows, hi),
    decreases hi - lo,
{
    if lo < hi {
        assert forall|i: int| 0 <= i < rows.len() implies (#[trigger] rows[i]).0 != lo by {
            assert(!(lo <= rows[i].0 < hi));
        }
        lemma_numbered_none(rows, lo);
        lemma_rows_skip(rows, lo + 1, hi);
        assert(rows_from(rows, lo) =~= rows_from(rows, lo + 1));
    }
}

/// The smallest row number at or above `lo`, if any.
fn next_number(rows: &Vec<(u32, Vec<Cell>)>, lo: u64) -> (r: Option<u32>)
    ensures
        match r {
            None => forall|i: int| 0 <= i < rows@.len() ==> (#[trigger] rows@[i]).0 < lo,
            Some(m) => lo <= m && (exists|i: int| 0 <= i < rows@.len() && (#[trigger] rows@[i]).0 == m)
                && forall|i: int| 0 <= i < rows@.len() && lo <= (#[trigger] rows@[i]).0 ==> m <= rows@[i].0,
        },
{
    let mut best: Option<u32> = None;
    let mut i: usize = 0;
    while i < rows.len()
        invariant
            i <= rows@.len(),
            match best {
                None => forall|j: int| 0 <= j < i ==> (#[trigger] rows@[j]).0 < lo,
                Some(m) => lo <= m && (exists|j: int| 0 <= j < i && (#[trigger] rows@[j]).0 == m)
                    && forall|j: int| 0 <= j < i && lo <= (#[trigger] rows@[j]).0 ==> m <= rows@[j].0,
            },
        decreases rows@.len() - i,
    {
        let n = rows[i].0;
        if n as u64 >= lo {
            match best {
                None => {
                    best = Some(n);
                },
                Some(m) => {
                    if n < m {
                        best = Some(n);
                    }
                },
            }
        }
        i = i + 1;
    }
    best
}

/// Append the xlsx XML of one row.
fn push_row(out: &mut String, number: u32, cells: &Vec<Cell>)
    ensures
        final(out)@ == old(out)@ + row_xml(number, cells_v(cells@)),
{
    let ghost cv = cells_v(cells@);
    push_str(out, "<row r=\"");
    push_decimal(out, number as u64);
    push_str(out, "\">");
    let ghost base = out@;
    let mut c: usize = 0;
    assert(cv.subrange(0, 0) =~= Seq::<CellV>::empty());
    while c < cells.len()
        invariant
            c <= cells@.len(),
            cv == cells_v(cells@),
            cv.len() == cells@.len(),
            out@ == base + cells_xml(number, cv.subrange(0, c as int)),
        decreases cells@.len() - c,
    {
        let x = xlsx_cell(number, c, &cells[c]);
        push_str(out, x.as_str());
        let ghost sub = cv.subrange(0, c as int + 1);
        assert(sub.drop_last() =~= cv.subrange(0, c as int));
        assert(sub.last() == cells@[c as int]@);
        c = c + 1;
    }
    assert(cv.subrange(0, cv.len() as int) =~= cv);
    push_str(out, "</row>");
}

/// Append the rows numbered `n`, in the order given.
fn push_numbered(out: &mut String, rows: &Vec<(u32, Vec<Cell>)>, n: u32)
    ensures
        final(out)@ == old(out)@ + numbered(rows_v(rows@), n as int),
{
    let ghost rv = rows_v(rows@);
    let ghost base = out@;
    let mut i: usize = 0;
    assert(rv.subrange(0, 0) =~= Seq::<(u32, Seq<CellV>)>::empty());
    while i < rows.len()
        invariant
            i <= rows@.len(),
            rv == rows_v(rows@),
            rv.len() == rows@.len(),
            out@ == base + numbered(rv.subrange(0, i as int), n as int),
        decreases rows@.len() - i,
    {
        let ghost sub = rv.subrange(0, i as int + 1);
        assert(sub.drop_last() =~= rv.subrange(0, i as int));
        assert(sub.last() == rv[i as int]);
        assert(rv[i as int] == (rows@[i as int].0, cells_v(rows@[i as int].1@)));
        if rows[i].0 == n {
            push_row(out, rows[i].0, &rows[i].1);
        }
        i = i + 1;
    }
    assert(rv.subrange(0, rv.len() as int) =~= rv);
}

/// The worksheet XML of a sheet: rows ascending by number, rows that
/// share a number in the order given.
pub fn xlsx_sheet_xml(rows: &Vec<(u32, Vec<Cell>)>) -> (r: String)
    ensures
        r@ == sheet_xml_spec(rows_v(rows@)),
{
    let ghost rv = rows_v(rows@);
    let mut out = String::new();
    push_str(&mut out, "<?xml version=\"1.0\" encoding=\"UTF-8\" standalone=\"yes\"?>");
    push_str(&mut out, "<worksheet xmlns=\"http://schemas.openxmlformats.org/spreadsheetml/2006/main\"><sheetData>");
    let ghost head = out@;
    let mut lo: u64 = 0;
    while lo <= 0xFFFF_FFFF
        invariant
            lo <= 0x1_0000_0000,
            rv == rows_v(rows@),
            rv.len() == rows@.len(),
            head + rows_from(rv, 0) == out@ + rows_from(rv, lo as int),
        decreases 0x1_0000_0000 - lo,
    {
        match next_number(rows, lo) {
            None => {
                proof {
                    assert forall|i: int| 0 <= i < rv.len() implies !(lo <= (#[trigger] rv[i]).0 < 0x1_0000_0000) by {
                        assert(rv[i].0 == rows@[i].0);
                    }
                    lemma_rows_skip(rv, lo as int, 0x1_0000_0000);
                }
                lo = 0x1_0000_0000;
            },
            Some(m) => {
                proof {
                    assert forall|i: int| 0 <= i < rv.len() implies !(lo <= (#[trigger] rv[i]).0 < m) by {
                        assert(rv[i].0 == rows@[i].0);
                    }
                    lemma_rows_skip(rv, lo as int, m as int);
                }
                let ghost before = out@;
                push_numbered(&mut out, rows, m);
                proof {
                    assert(rows_from(rv, m as int) == numbered(rv, m as int) + rows_from(rv, m + 1));
                    assert(before + rows_from(rv, m as int) =~= out@ + rows_from(rv, m + 1));
                }
                lo = m as u64 + 1;
            },
        }
    }
    push_str(&mut out, "</sheetData></worksheet>");
    proof {
        assert(rows_from(rv, 0x1_0000_0000) == Seq::<char>::empty());
        assert(out@ =~= sheet_xml_spec(rv));
    }
    out
}

// ---------------------------------------------------------------------
// xlsx workbooks
// ---------------------------------------------------------------------

/// The models of sheets: (name, hidden, rows).
pub open spec fn sheets_v(s: Seq<(String, bool, Vec<(u32, Vec<Cell>)>)>) -> Seq<(Seq<char>, bool, Seq<(u32, Seq<CellV>)>)> {
    s.map_values(|x: (String, bool, Vec<(u32, Vec<Cell>)>)| (x.0@, x.1, rows_v(x.2@)))
}

/// The shared styles part: numeric formats 22 (datetime), 21 (time)
/// and 14 (date) for the styled serial cells.
pub open spec fn xlsx_styles() -> Seq<char> {
    "<?xml version=\"1.0\" encoding=\"UTF-8\" standalone=\"yes\"?>\n<styleSheet xmlns=\"http://schemas.openxmlformats.org/spreadsheetml/2006/main\">\n<cellXfs count=\"4\">\n<xf numFmtId=\"0\" applyNumberFormat=\"0\"/>\n<xf numFmtId=\"22\" applyNumberFormat=\"1\"/>\n<xf numFmtId=\"21\" applyNumberFormat=\"1\"/>\n<xf numFmtId=\"14\" applyNumberFormat=\"1\"/>\n</cellXfs>\n</styleSheet>\n"@
}

/// The package relationships part.
pub open spec fn root_rels() -> Seq<char> {
    "<?xml version=\"1.0\" encoding=\"UTF-8\" standalone=\"yes\"?><Relationships xmlns=\"http://schemas.openxmlformats.org/package/2006/relationships\"><Relationship Id=\"rId1\" Type=\"http://schemas.openxmlformats.org/officeDocument/2006/relationships/officeDocument\" Target=\"xl/workbook.xml\"/></Relationships>"@
}

/// The workbook's `<sheet>` entry for sheet `id` (1-based).
pub open spec fn sheet_tag(name: Seq<char>, hidden: bool, id: nat) -> Seq<char> {
    "<sheet name=\""@ + esc_attr_spec(name) + "\" sheetId=\""@ + decimal(id) + "\""@ + (if hidden {
        " state=\"hidden\""@
    } else {
        Seq::empty()
    }) + " r:id=\"rId"@ + decimal(id) + "\"/>"@
}

/// The workbook relationship of sheet `id`.
pub open spec fn rel_tag(id: nat) -> Seq<char> {
    "<Relationship Id=\"rId"@ + decimal(id)
        + "\" Type=\"http://schemas.openxmlformats.org/officeDocument/2006/relationships/worksheet\" Target=\"worksheets/sheet"@
        + decimal(id) + ".xml\"/>"@
}

/// The content-type override of sheet `id`.
pub open spec fn override_tag(id: nat) -> Seq<char> {
    "<Override PartName=\"/xl/worksheets/sheet"@ + decimal(id)
        + ".xml\" ContentType=\"application/vnd.openxmlformats-officedocument.spreadsheetml.worksheet+xml\"/>"@
}

/// The `<sheet>` entries of all sheets.
pub open spec fn sheet_tags(s: Seq<(Seq<char>, bool, Seq<(u32, Seq<CellV>)>)>) -> Seq<char>
    decreases s.len(),
{
    if s.len() == 0 {
        Seq::empty()
    } else {
        sheet_tags(s.drop_last()) + sheet_tag(s.last().0, s.last().1, s.len())
    }
}

/// The worksheet relationships of `n` sheets.
pub open spec fn rel_tags(n: nat) -> Seq<char>
    decreases n,
{
    if n == 0 {
        Seq::empty()
    } else {
        rel_tags((n - 1) as nat) + rel_tag(n)
    }
}

/// The worksheet content-type overrides of `n` sheets.
pub open spec fn override_tags(n: nat) -> Seq<char>
    decreases n,
{
    if n == 0 {
        Seq::empty()
    } else {
        override_tags((n - 1) as nat) + override_tag(n)
    }
}

/// The `[Content_Types].xml` part.
pub open spec fn content_types(n: nat) -> Seq<char> {
    xml_head()
        + "<Types xmlns=\"http://schemas.openxmlformats.org/package/2006/content-types\"><Default Extension=\"rels\" ContentType=\"application/vnd.openxmlformats-package.relationships+xml\"/><Default Extension=\"xml\" ContentType=\"application/xml\"/>"@
        + "<Override PartName=\"/xl/workbook.xml\" ContentType=\"application/vnd.openxmlformats-officedocument.spreadsheetml.sheet.main+xml\"/><Override PartName=\"/xl/styles.xml\" ContentType=\"application/vnd.openxmlformats-officedocument.spreadsheetml.styles+xml\"/>"@
        + override_tags(n) + "</Types>"@
}

/// The `xl/workbook.xml` part.
pub open spec fn workbook_xml(s: Seq<(Seq<char>, bool, Seq<(u32, Seq<CellV>)>)>) -> Seq<char> {
    xml_head()
        + "<workbook xmlns=\"http://schemas.openxmlformats.org/spreadsheetml/2006/main\" xmlns:r=\"http://schemas.openxmlformats.org/officeDocument/2006/relationships\"><sheets>"@
        + sheet_tags(s) + "</sheets></workbook>"@
}

/// The `xl/_rels/workbook.xml.rels` part.
pub open spec fn workbook_rels(n: nat) -> Seq<char> {
    xml_head() + "<Relationships xmlns=\"http://schemas.openxmlformats.org/package/2006/relationships\">"@
        + "<Relationship Id=\"rIdStyles\" Type=\"http://schemas.openxmlformats.org/officeDocument/2006/relationships/styles\" Target=\"styles.xml\"/>"@
        + rel_tags(n) + "</Relationships>"@
}

/// The worksheet parts, one per sheet.
pub open spec fn sheet_files(s: Seq<(Seq<char>, bool, Seq<(u32, Seq<CellV>)>)>) -> Seq<(Seq<char>, Seq<u8>)>
    decreases s.len(),
{
    if s.len() == 0 {
        Seq::empty()
    } else {
        sheet_files(s.drop_last()).push(
            ("xl/worksheets/sheet"@ + decimal(s.len()) + ".xml"@, utf8(sheet_xml_spec(s.last().2))),
        )
    }
}

/// The files of an xlsx workbook, in archive order.
pub open spec fn xlsx_files(s: Seq<(Seq<char>, bool, Seq<(u32, Seq<CellV>)>)>) -> Seq<(Seq<char>, Seq<u8>)> {
    seq![
        ("[Content_Types].xml"@, utf8(content_types(s.len()))),
        ("_rels/.rels"@, utf8(root_rels())),
        ("xl/workbook.xml"@, utf8(workbook_xml(s))),
        ("xl/_rels/workbook.xml.rels"@, utf8(workbook_rels(s.len()))),
        ("xl/styles.xml"@, utf8(xlsx_styles())),
    ] + sheet_files(s)
}

/// The UTF-8 bytes of a text.
fn text_bytes(s: &str) -> (r: Vec<u8>)
    ensures
        r@ == utf8(s@),
{
    let mut out: Vec<u8> = Vec::new();
    push_bytes(&mut out, s.as_bytes());
    assert(out@ =~= utf8(s@));
    out
}

/// A file for the archive.
fn file_of(name: &str, text: &str) -> (r: (String, Vec<u8>))
    ensures
        r.0@ == name@,
        r.1@ == utf8(text@),
{
    (name.to_owned(), text_bytes(text))
}

/// Append the workbook's `<sheet>` entry for sheet `id`.
fn push_sheet_tag(tags: &mut String, name: &str, hidden: bool, id: u64)
    ensures
        final(tags)@ == old(tags)@ + sheet_tag(name@, hidden, id as nat),
{
    push_str(tags, "<sheet name=\"");
    let e = esc_attr(name);
    push_str(tags, e.as_str());
    push_str(tags, "\" sheetId=\"");
    push_decimal(tags, id);
    push_str(tags, "\"");
    if hidden {
        push_str(tags, " state=\"hidden\"");
    }
    push_str(tags, " r:id=\"rId");
    push_decimal(tags, id);
    push_str(tags, "\"/>");
    assert(tags@ =~= old(tags)@ + sheet_tag(name@, hidden, id as nat));
}

/// Append the workbook relationship of sheet `id`.
fn push_rel_tag(rels: &mut String, id: u64)
    ensures
        final(rels)@ == old(rels)@ + rel_tag(id as nat),
{
    push_str(rels, "<Relationship Id=\"rId");
    push_decimal(rels, id);
    push_str(rels, "\" Type=\"http://schemas.openxmlformats.org/officeDocument/2006/relationships/worksheet\" Target=\"worksheets/sheet");
    push_decimal(rels, id);
    push_str(rels, ".xml\"/>");
    assert(rels@ =~= old(rels)@ + rel_tag(id as nat));
}

/// Append the content-type override of sheet `id`.
fn push_override_tag(overrides: &mut String, id: u64)
    ensures
        final(overrides)@ == old(overrides)@ + override_tag(id as nat),
{
    push_str(overrides, "<Override PartName=\"/xl/worksheets/sheet");
    push_decimal(overrides, id);
    push_str(overrides, ".xml\" ContentType=\"application/vnd.openxmlformats-officedocument.spreadsheetml.worksheet+xml\"/>");
    assert(overrides@ =~= old(overrides)@ + override_tag(id as nat));
}

/// The archive name of worksheet `id`.
fn sheet_part(id: u64) -> (r: String)
    ensures
        r@ == "xl/worksheets/sheet"@ + decimal(id as nat) + ".xml"@,
{
    let mut part = String::new();
    push_str(&mut part, "xl/worksheets/sheet");
    push_decimal(&mut part, id);
    push_str(&mut part, ".xml");
    part
}

/// An xlsx workbook of `sheets` (name, hidden, rows) as stored-ZIP
/// bytes.
pub fn xlsx_bytes(sheets: &Vec<(String, bool, Vec<(u32, Vec<Cell>)>)>) -> (r: Vec<u8>)
    requires
        sheets@.len() < u64::MAX,
    ensures
        r@ == archive(xlsx_files(sheets_v(sheets@))),
{
    let ghost sv = sheets_v(sheets@);
    let mut overrides = String::new();
    let mut tags = String::new();
    let mut rels = String::new();
    let mut parts: Vec<(String, Vec<u8>)> = Vec::new();
    let mut i: usize = 0;
    assert(sv.subrange(0, 0) =~= Seq::<(Seq<char>, bool, Seq<(u32, Seq<CellV>)>)>::empty());
    assert(files_view(parts@) =~= sheet_files(sv.subrange(0, 0)));
    while i < sheets.len()
        invariant
            i <= sheets@.len() < u64::MAX,
            sv == sheets_v(sheets@),
            sv.len() == sheets@.len(),
            overrides@ == override_tags(i as nat),
            tags@ == sheet_tags(sv.subrange(0, i as int)),
            rels@ == rel_tags(i as nat),
            files_view(parts@) == sheet_files(sv.subrange(0, i as int)),
        decreases sheets@.len() - i,
    {
        let id = (i + 1) as u64;
        let (name, hidden, rows) = (&sheets[i].0, sheets[i].1, &sheets[i].2);
        assert(sv[i as int] == (name@, hidden, rows_v(rows@)));
        push_sheet_tag(&mut tags, name.as_str(), hidden, id);
        push_rel_tag(&mut rels, id);
        push_override_tag(&mut overrides, id);
        let part = sheet_part(id);
        let xml = xlsx_sheet_xml(rows);
        let ghost fv0 = files_view(parts@);
        parts.push((part, text_bytes(xml.as_str())));
        proof {
            let sub = sv.subrange(0, i as int + 1);
            assert(sub.drop_last() =~= sv.subrange(0, i as int));
            assert(sub.last() == sv[i as int]);
            assert(sub.len() == i + 1);
            assert(tags@ =~= sheet_tags(sub));
            assert(rels@ =~= rel_tags((i + 1) as nat));
            assert(overrides@ =~= override_tags((i + 1) as nat));
            assert(files_view(parts@) =~= fv0.push(("xl/worksheets/sheet"@ + decimal(sub.len()) + ".xml"@, utf8(sheet_xml_spec(sub.last().2)))));
        }
        i = i + 1;
    }
    assert(sv.subrange(0, sv.len() as int) =~= sv);
    let mut ct = String::new();
    push_str(&mut ct, "<?xml version=\"1.0\" encoding=\"UTF-8\" standalone=\"yes\"?>");
    push_str(&mut ct, "<Types xmlns=\"http://schemas.openxmlformats.org/package/2006/content-types\"><Default Extension=\"rels\" ContentType=\"application/vnd.openxmlformats-package.relationships+xml\"/><Default Extension=\"xml\" ContentType=\"application/xml\"/>");
    push_str(&mut ct, "<Override PartName=\"/xl/workbook.xml\" ContentType=\"application/vnd.openxmlformats-officedocument.spreadsheetml.sheet.main+xml\"/><Override PartName=\"/xl/styles.xml\" ContentType=\"application/vnd.openxmlformats-officedocument.spreadsheetml.styles+xml\"/>");
    push_str(&mut ct, overrides.as_str());
    push_str(&mut ct, "</Types>");
    let mut wb = String::new();
    push_str(&mut wb, "<?xml version=\"1.0\" encoding=\"UTF-8\" standalone=\"yes\"?>");
    push_str(&mut wb, "<workbook xmlns=\"http://schemas.openxmlformats.org/spreadsheetml/2006/main\" xmlns:r=\"http://schemas.openxmlformats.org/officeDocument/2006/relationships\"><sheets>");
    push_str(&mut wb, tags.as_str());
    push_str(&mut wb, "</sheets></workbook>");
    let mut wr = String::new();
    push_str(&mut wr, "<?xml version=\"1.0\" encoding=\"UTF-8\" standalone=\"yes\"?>");
    push_str(&mut wr, "<Relationships xmlns=\"http://schemas.openxmlformats.org/package/2006/relationships\">");
    push_str(&mut wr, "<Relationship Id=\"rIdStyles\" Type=\"http://schemas.openxmlformats.org/officeDocument/2006/relationships/styles\" Target=\"styles.xml\"/>");
    push_str(&mut wr, rels.as_str());
    push_str(&mut wr, "</Relationships>");
    let mut files: Vec<(String, Vec<u8>)> = Vec::new();
    files.push(file_of("[Content_Types].xml", ct.as_str()));
    files.push(file_of("_rels/.rels", "<?xml version=\"1.0\" encoding=\"UTF-8\" standalone=\"yes\"?><Relationships xmlns=\"http://schemas.openxmlformats.org/package/2006/relationships\"><Relationship Id=\"rId1\" Type=\"http://schemas.openxmlformats.org/officeDocument/2006/relationships/officeDocument\" Target=\"xl/workbook.xml\"/></Relationships>"));
    files.push(file_of("xl/workbook.xml", wb.as_str()));
    files.push(file_of("xl/_rels/workbook.xml.rels", wr.as_str()));
    files.push(file_of("xl/styles.xml", "<?xml version=\"1.0\" encoding=\"UTF-8\" standalone=\"yes\"?>\n<styleSheet xmlns=\"http://schemas.openxmlformats.org/spreadsheetml/2006/main\">\n<cellXfs count=\"4\">\n<xf numFmtId=\"0\" applyNumberFormat=\"0\"/>\n<xf numFmtId=\"22\" applyNumberFormat=\"1\"/>\n<xf numFmtId=\"21\" applyNumberFormat=\"1\"/>\n<xf numFmtId=\"14\" applyNumberFormat=\"1\"/>\n</cellXfs>\n</styleSheet>\n"));
    let ghost head = files_view(files@);
    files.append(&mut parts);
    proof {
        assert(ct@ =~= content_types(sv.len()));
        assert(wb@ =~= workbook_xml(sv));
        assert(wr@ =~= workbook_rels(sv.len()));
        assert(files_view(files@) =~= head + sheet_files(sv));
        assert(files_view(files@) =~= xlsx_files(sv));
    }
    zip_files(&files)
}

// ---------------------------------------------------------------------
// ods workbooks
// ---------------------------------------------------------------------

/// The ods XML of a cell (string, number or boolean).
pub open spec fn ods_cell_spec(c: CellV) -> Seq<char> {
    match c {
        CellV::S(t) => "<table:table-cell office:value-type=\"string\"><text:p>"@ + esc_spec(t)
            + "</text:p></table:table-cell>"@,
        CellV::N(v) => "<table:table-cell office:value-type=\"float\" office:value=\""@ + v
            + "\"><text:p>"@ + v + "</text:p></table:table-cell>"@,
        CellV::B(b) => "<table:table-cell office:value-type=\"boolean\" office:boolean-value=\""@
            + (if b {
            "true"@
        } else {
            "false"@
        }) + "\"><text:p>"@ + (if b {
            "TRUE"@
        } else {
            "FALSE"@
        }) + "</text:p></table:table-cell>"@,
        _ => Seq::empty(),
    }
}

/// A cell ods can hold: a string, a number or a boolean (the styled
/// serial cells are xlsx-only).
pub open spec fn ods_ok(c: CellV) -> bool {
    c is S || c is N || c is B
}

/// The ods XML of a row's cells.
pub open spec fn ods_cells(c: Seq<CellV>) -> Seq<char>
    decreases c.len(),
{
    if c.len() == 0 {
        Seq::empty()
    } else {
        ods_cells(c.drop_last()) + ods_cell_spec(c.last())
    }
}

/// The index of the first row numbered `n`, if any.
pub open spec fn first_index(rows: Seq<(u32, Seq<CellV>)>, n: int) -> Option<int>
    decreases rows.len(),
{
    if rows.len() == 0 {
        None
    } else {
        match first_index(rows.drop_last(), n) {
            Some(k) => Some(k),
            None => if rows.last().0 == n {
                Some(rows.len() - 1)
            } else {
                None
            },
        }
    }
}

/// The first index of a number is a row with that number.
proof fn lemma_first_index(rows: Seq<(u32, Seq<CellV>)>, n: int)
    ensures
        first_index(rows, n) matches Some(k) ==> 0 <= k < rows.len() && rows[k].0 == n,
    decreases rows.len(),
{
    if rows.len() > 0 {
        lemma_first_index(rows.drop_last(), n);
        if let Some(k) = first_index(rows.drop_last(), n) {
            assert(rows.drop_last()[k] == rows[k]);
        }
    }
}

/// The highest row number (0 without rows).
pub open spec fn max_number(rows: Seq<(u32, Seq<CellV>)>) -> int
    decreases rows.len(),
{
    if rows.len() == 0 {
        0
    } else if max_number(rows.drop_last()) < rows.last().0 {
        rows.last().0 as int
    } else {
        max_number(rows.drop_last())
    }
}

/// The ods rows numbered `n` through `last`: each the cells of the first
/// row with that number, or an empty row.
pub open spec fn ods_rows(rows: Seq<(u32, Seq<CellV>)>, n: int, last: int) -> Seq<char>
    decreases last - n + 1,
{
    if n > last {
        Seq::empty()
    } else {
        "<table:table-row>"@ + (match first_index(rows, n) {
            Some(k) => ods_cells(rows[k].1),
            None => Seq::empty(),
        }) + "</table:table-row>"@ + ods_rows(rows, n + 1, last)
    }
}

/// Every cell ods writes can be written: those of the first row of each
/// number from 1 to the highest.
pub open spec fn ods_writable(rows: Seq<(u32, Seq<CellV>)>) -> bool {
    forall|n: int| #![trigger first_index(rows, n)]
        1 <= n <= max_number(rows) ==> match first_index(rows, n) {
            Some(k) => forall|c: int| 0 <= c < rows[k].1.len() ==> ods_ok(#[trigger] rows[k].1[c]),
            None => true,
        }
}

/// The ods `<table:table>` of a sheet.
pub open spec fn ods_table_spec(name: Seq<char>, hidden: bool, rows: Seq<(u32, Seq<CellV>)>) -> Seq<char> {
    "<table:table table:name=\""@ + esc_attr_spec(name) + "\" table:style-name=\""@ + (if hidden {
        "taHidden"@
    } else {
        "taVisible"@
    }) + "\">"@ + ods_rows(rows, 1, max_number(rows)) + "</table:table>"@
}

/// The tables of all sheets.
pub open spec fn ods_tables(s: Seq<(Seq<char>, bool, Seq<(u32, Seq<CellV>)>)>) -> Seq<char>
    decreases s.len(),
{
    if s.len() == 0 {
        Seq::empty()
    } else {
        ods_tables(s.drop_last()) + ods_table_spec(s.last().0, s.last().1, s.last().2)
    }
}

/// The ods media type.
pub open spec fn ods_mimetype() -> Seq<char> {
    "application/vnd.oasis.opendocument.spreadsheet"@
}

/// The `META-INF/manifest.xml` part.
pub open spec fn ods_manifest() -> Seq<char> {
    "<?xml version=\"1.0\" encoding=\"UTF-8\"?><manifest:manifest xmlns:manifest=\"urn:oasis:names:tc:opendocument:xmlns:manifest:1.0\" manifest:version=\"1.2\"><manifest:file-entry manifest:full-path=\"/\" manifest:media-type=\"application/vnd.oasis.opendocument.spreadsheet\"/><manifest:file-entry manifest:full-path=\"content.xml\" manifest:media-type=\"text/xml\"/></manifest:manifest>"@
}

/// The start of the `content.xml` part.
pub open spec fn ods_content_head() -> Seq<char> {
    "<?xml version=\"1.0\" encoding=\"UTF-8\"?><office:document-content xmlns:office=\"urn:oasis:names:tc:opendocument:xmlns:office:1.0\" xmlns:table=\"urn:oasis:names:tc:opendocument:xmlns:table:1.0\" xmlns:text=\"urn:oasis:names:tc:opendocument:xmlns:text:1.0\" xmlns:style=\"urn:oasis:names:tc:opendocument:xmlns:style:1.0\" office:version=\"1.2\"><office:automatic-styles><style:style style:name=\"taVisible\" style:family=\"table\"><style:table-properties table:display=\"true\"/></style:style><style:style style:name=\"taHidden\" style:family=\"table\"><style:table-properties table:display=\"false\"/></style:style></office:automatic-styles><office:body><office:spreadsheet>"@
}

/// The files of an ods workbook, in archive order (the media type
/// first).
pub open spec fn ods_files(s: Seq<(Seq<char>, bool, Seq<(u32, Seq<CellV>)>)>) -> Seq<(Seq<char>, Seq<u8>)> {
    seq![
        ("mimetype"@, utf8(ods_mimetype())),
        ("META-INF/manifest.xml"@, utf8(ods_manifest())),
        ("content.xml"@, utf8(ods_content_head() + ods_tables(s) + "</office:spreadsheet></office:body></office:document-content>"@)),
    ]
}

/// The ods XML of one writable cell.
pub fn ods_cell(cell: &Cell) -> (r: String)
    requires
        ods_ok(cell@),
    ensures
        r@ == ods_cell_spec(cell@),
{
    let mut out = String::new();
    match cell {
        Cell::S(t) => {
            push_str(&mut out, "<table:table-cell office:value-type=\"string\"><text:p>");
            let e = esc(t.as_str());
            push_str(&mut out, e.as_str());
            push_str(&mut out, "</text:p></table:table-cell>");
        },
        Cell::N(v) => {
            push_str(&mut out, "<table:table-cell office:value-type=\"float\" office:value=\"");
            push_str(&mut out, v.as_str());
            push_str(&mut out, "\"><text:p>");
            push_str(&mut out, v.as_str());
            push_str(&mut out, "</text:p></table:table-cell>");
        },
        Cell::B(b) => {
            push_str(&mut out, "<table:table-cell office:value-type=\"boolean\" office:boolean-value=\"");
            push_str(&mut out, if *b { "true" } else { "false" });
            push_str(&mut out, "\"><text:p>");
            push_str(&mut out, if *b { "TRUE" } else { "FALSE" });
            push_str(&mut out, "</text:p></table:table-cell>");
        },
        _ => {},
    }
    assert(out@ =~= ods_cell_spec(cell@));
    out
}

/// The first row numbered `n`.
fn find_first(rows: &Vec<(u32, Vec<Cell>)>, n: u32) -> (r: Option<usize>)
    ensures
        match first_index(rows_v(rows@), n as int) {
            Some(k) => r matches Some(j) && j == k,
            None => r is None,
        },
{
    let ghost rv = rows_v(rows@);
    let mut found: Option<usize> = None;
    let mut i: usize = 0;
    assert(rv.subrange(0, 0) =~= Seq::<(u32, Seq<CellV>)>::empty());
    while i < rows.len()
        invariant
            i <= rows@.len(),
            rv == rows_v(rows@),
            rv.len() == rows@.len(),
            match first_index(rv.subrange(0, i as int), n as int) {
                Some(k) => found matches Some(j) && j == k,
                None => found is None,
            },
        decreases rows@.len() - i,
    {
        let ghost sub = rv.subrange(0, i as int + 1);
        assert(sub.drop_last() =~= rv.subrange(0, i as int));
        assert(sub.last() == rv[i as int]);
        assert(rv[i as int].0 == rows@[i as int].0);
        proof {
            lemma_first_index(rv.subrange(0, i as int), n as int);
        }
        if found.is_none() && rows[i].0 == n {
            found = Some(i);
        }
        i = i + 1;
    }
    assert(rv.subrange(0, rv.len() as int) =~= rv);
    found
}

/// The highest row number.
fn highest(rows: &Vec<(u32, Vec<Cell>)>) -> (r: u32)
    ensures
        r as int == max_number(rows_v(rows@)),
{
    let ghost rv = rows_v(rows@);
    let mut m: u32 = 0;
    let mut i: usize = 0;
    assert(rv.subrange(0, 0) =~= Seq::<(u32, Seq<CellV>)>::empty());
    while i < rows.len()
        invariant
            i <= rows@.len(),
            rv == rows_v(rows@),
            rv.len() == rows@.len(),
            m as int == max_number(rv.subrange(0, i as int)),
        decreases rows@.len() - i,
    {
        let ghost sub = rv.subrange(0, i as int + 1);
        assert(sub.drop_last() =~= rv.subrange(0, i as int));
        assert(sub.last() == rv[i as int]);
        assert(rv[i as int].0 == rows@[i as int].0);
        if m < rows[i].0 {
            m = rows[i].0;
        }
        i = i + 1;
    }
    assert(rv.subrange(0, rv.len() as int) =~= rv);
    m
}

/// Append the ods XML of a row's cells.
fn push_ods_cells(out: &mut String, cells: &Vec<Cell>)
    requires
        forall|c: int| 0 <= c < cells@.len() ==> ods_ok(#[trigger] cells_v(cells@)[c]),
    ensures
        final(out)@ == old(out)@ + ods_cells(cells_v(cells@)),
{
    let ghost cv = cells_v(cells@);
    let ghost base = out@;
    let mut c: usize = 0;
    assert(cv.subrange(0, 0) =~= Seq::<CellV>::empty());
    while c < cells.len()
        invariant
            c <= cells@.len(),
            cv == cells_v(cells@),
            cv.len() == cells@.len(),
            forall|j: int| 0 <= j < cells@.len() ==> ods_ok(#[trigger] cv[j]),
            out@ == base + ods_cells(cv.subrange(0, c as int)),
        decreases cells@.len() - c,
    {
        assert(cv[c as int] == cells@[c as int]@);
        assert(ods_ok(cv[c as int]));
        let x = ods_cell(&cells[c]);
        push_str(out, x.as_str());
        let ghost sub = cv.subrange(0, c as int + 1);
        assert(sub.drop_last() =~= cv.subrange(0, c as int));
        assert(sub.last() == cv[c as int]);
        c = c + 1;
    }
    assert(cv.subrange(0, cv.len() as int) =~= cv);
}

/// Append the ods table of a sheet.
fn push_ods_table(out: &mut String, name: &str, hidden: bool, rows: &Vec<(u32, Vec<Cell>)>)
    requires
        ods_writable(rows_v(rows@)),
    ensures
        final(out)@ == old(out)@ + ods_table_spec(name@, hidden, rows_v(rows@)),
{
    let ghost rv = rows_v(rows@);
    push_str(out, "<table:table table:name=\"");
    let e = esc_attr(name);
    push_str(out, e.as_str());
    push_str(out, "\" table:style-name=\"");
    push_str(out, if hidden { "taHidden" } else { "taVisible" });
    push_str(out, "\">");
    let ghost head = out@;
    let last = highest(rows);
    let mut n: u64 = 1;
    while n <= last as u64
        invariant
            1 <= n <= last as u64 + 1,
            rv == rows_v(rows@),
            rv.len() == rows@.len(),
            last as int == max_number(rv),
            ods_writable(rv),
            head + ods_rows(rv, 1, last as int) == out@ + ods_rows(rv, n as int, last as int),
        decreases last as u64 + 1 - n,
    {
        let ghost before = out@;
        push_str(out, "<table:table-row>");
        match find_first(rows, n as u32) {
            Some(k) => {
                proof {
                    lemma_first_index(rv, n as int);
                    assert(first_index(rv, n as int) == Some(k as int));
                    assert(rv[k as int].1 == cells_v(rows@[k as int].1@));
                    assert forall|c: int| 0 <= c < rows@[k as int].1@.len() implies ods_ok(#[trigger] cells_v(rows@[k as int].1@)[c]) by {
                        assert(rv[k as int].1[c] == cells_v(rows@[k as int].1@)[c]);
                    }
                }
                push_ods_cells(out, &rows[k].1);
            },
            None => {},
        }
        push_str(out, "</table:table-row>");
        proof {
            assert(before + ods_rows(rv, n as int, last as int) =~= out@ + ods_rows(rv, n + 1, last as int));
        }
        n = n + 1;
    }
    push_str(out, "</table:table>");
    assert(out@ =~= old(out)@ + ods_table_spec(name@, hidden, rv));
}

/// An ods workbook of `sheets` (name, hidden, rows) as stored-ZIP
/// bytes; the media type is the first entry.
pub fn ods_bytes(sheets: &Vec<(String, bool, Vec<(u32, Vec<Cell>)>)>) -> (r: Vec<u8>)
    requires
        forall|k: int| 0 <= k < sheets@.len() ==> ods_writable(#[trigger] sheets_v(sheets@)[k].2),
    ensures
        r@ == archive(ods_files(sheets_v(sheets@))),
{
    let ghost sv = sheets_v(sheets@);
    let mut tables = String::new();
    let mut i: usize = 0;
    assert(sv.subrange(0, 0) =~= Seq::<(Seq<char>, bool, Seq<(u32, Seq<CellV>)>)>::empty());
    while i < sheets.len()
        invariant
            i <= sheets@.len(),
            sv == sheets_v(sheets@),
            sv.len() == sheets@.len(),
            forall|k: int| 0 <= k < sheets@.len() ==> ods_writable(#[trigger] sv[k].2),
            tables@ == ods_tables(sv.subrange(0, i as int)),
        decreases sheets@.len() - i,
    {
        assert(sv[i as int] == (sheets@[i as int].0@, sheets@[i as int].1, rows_v(sheets@[i as int].2@)));
        assert(ods_writable(sv[i as int].2));
        push_ods_table(&mut tables, sheets[i].0.as_str(), sheets[i].1, &sheets[i].2);
        let ghost sub = sv.subrange(0, i as int + 1);
        assert(sub.drop_last() =~= sv.subrange(0, i as int));
        assert(sub.last() == sv[i as int]);
        i = i + 1;
    }
    assert(sv.subrange(0, sv.len() as int) =~= sv);
    let mut content = String::new();
    push_str(&mut content, "<?xml version=\"1.0\" encoding=\"UTF-8\"?><office:document-content xmlns:office=\"urn:oasis:names:tc:opendocument:xmlns:office:1.0\" xmlns:table=\"urn:oasis:names:tc:opendocument:xmlns:table:1.0\" xmlns:text=\"urn:oasis:names:tc:opendocument:xmlns:text:1.0\" xmlns:style=\"urn:oasis:names:tc:opendocument:xmlns:style:1.0\" office:version=\"1.2\"><office:automatic-styles><style:style style:name=\"taVisible\" style:family=\"table\"><style:table-properties table:display=\"true\"/></style:style><style:style style:name=\"taHidden\" style:family=\"table\"><style:table-properties table:display=\"false\"/></style:style></office:automatic-styles><office:body><office:spreadsheet>");
    push_str(&mut content, tables.as_str());
    push_str(&mut content, "</office:spreadsheet></office:body></office:document-content>");
    let mut files: Vec<(String, Vec<u8>)> = Vec::new();
    files.push(file_of("mimetype", "application/vnd.oasis.opendocument.spreadsheet"));
    files.push(file_of("META-INF/manifest.xml", "<?xml version=\"1.0\" encoding=\"UTF-8\"?><manifest:manifest xmlns:manifest=\"urn:oasis:names:tc:opendocument:xmlns:manifest:1.0\" manifest:version=\"1.2\"><manifest:file-entry manifest:full-path=\"/\" manifest:media-type=\"application/vnd.oasis.opendocument.spreadsheet\"/><manifest:file-entry manifest:full-path=\"content.xml\" manifest:media-type=\"text/xml\"/></manifest:manifest>"));
    files.push(file_of("content.xml", content.as_str()));
    proof {
        assert(files_view(files@) =~= ods_files(sv));
    }
    zip_files(&files)
}

} // verus!
