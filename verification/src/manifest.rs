//! The manifest: the archive's first entry, which names all the others.

use vstd::prelude::*;
use vstd::utf8::valid_utf8;
use crate::error::Error;
use crate::error::FormatError;
use crate::extract::entry_read;
use crate::format::ArchiveFlags;
use crate::format::ArchiveView;
use crate::format::block_table_len;
use crate::format::EntryView;
use crate::format::parse_toc;
use crate::format::PSArc;
use crate::format::spec_toc;

verus! {

/// The line feed that ends a line of the manifest.
pub const LINE_FEED: u8 = 0x0A;

/// The carriage return that may precede a line feed.
pub const CARRIAGE_RETURN: u8 = 0x0D;

/// The byte strings that a list of buffers holds.
pub open spec fn strings_of(v: Seq<Vec<u8>>) -> Seq<Seq<u8>> {
    Seq::new(v.len(), |i: int| v[i]@)
}

/// The pieces into which the separator byte cuts a text: one more piece than
/// there are separators, each free of the separator, empty pieces included.
///
/// Read from left to right, a separator opens a new piece and every other
/// byte extends the last one.
pub open spec fn spec_split(text: Seq<u8>, sep: u8) -> Seq<Seq<u8>>
    decreases text.len(),
{
    if text.len() == 0 {
        seq![Seq::<u8>::empty()]
    } else {
        let before = spec_split(text.drop_last(), sep);
        if text.last() == sep {
            before.push(Seq::<u8>::empty())
        } else {
            before.drop_last().push(before.last().push(text.last()))
        }
    }
}

/// A split yields at least one piece.
pub proof fn lemma_split_nonempty(text: Seq<u8>, sep: u8)
    ensures
        spec_split(text, sep).len() >= 1,
    decreases text.len(),
{
    if text.len() > 0 {
        lemma_split_nonempty(text.drop_last(), sep);
    }
}

/// The pieces put together again, with the separator between every two.
pub open spec fn spec_join(pieces: Seq<Seq<u8>>, sep: u8) -> Seq<u8>
    decreases pieces.len(),
{
    if pieces.len() == 0 {
        Seq::empty()
    } else if pieces.len() == 1 {
        pieces[0]
    } else {
        spec_join(pieces.drop_last(), sep) + seq![sep] + pieces.last()
    }
}

/// A split loses nothing: its pieces, joined by the separator, are the
/// text.
pub proof fn lemma_split_joins(text: Seq<u8>, sep: u8)
    ensures
        spec_join(spec_split(text, sep), sep) == text,
    decreases text.len(),
{
    if text.len() == 0 {
        assert(spec_split(text, sep)[0] =~= text);
    } else {
        let shorter = text.drop_last();
        lemma_split_joins(shorter, sep);
        lemma_split_nonempty(shorter, sep);
        let before = spec_split(shorter, sep);
        let after = spec_split(text, sep);
        if text.last() == sep {
            assert(after.drop_last() =~= before);
            assert(spec_join(after, sep) =~= shorter + seq![sep] + Seq::<u8>::empty());
            assert(shorter + seq![sep] + Seq::<u8>::empty() =~= text);
        } else {
            let grown = before.last().push(text.last());
            assert(after.last() == grown);
            if before.len() == 1 {
                assert(after.len() == 1);
                assert(after[0] == grown);
                assert(before[0] == before.last());
                assert(grown =~= text);
            } else {
                assert(after.drop_last() =~= before.drop_last());
                assert(spec_join(after, sep) == spec_join(before.drop_last(), sep) + seq![sep]
                    + grown);
                assert(spec_join(before.drop_last(), sep) + seq![sep] + grown =~= (spec_join(
                    before.drop_last(),
                    sep,
                ) + seq![sep] + before.last()).push(text.last()));
                assert(shorter.push(text.last()) =~= text);
            }
        }
    }
}

/// No piece of a split holds the separator.
pub proof fn lemma_split_pieces_plain(text: Seq<u8>, sep: u8)
    ensures
        forall|k: int, j: int|
            0 <= k < spec_split(text, sep).len() && 0 <= j < spec_split(text, sep)[k].len()
                ==> #[trigger] spec_split(text, sep)[k][j] != sep,
    decreases text.len(),
{
    if text.len() > 0 {
        lemma_split_pieces_plain(text.drop_last(), sep);
        lemma_split_nonempty(text.drop_last(), sep);
        let before = spec_split(text.drop_last(), sep);
        let after = spec_split(text, sep);
        assert forall|k: int, j: int| 0 <= k < after.len() && 0 <= j < after[k].len() implies #[trigger] after[k][j]
            != sep by {
            if k < before.len() - 1 {
                assert(after[k] == before[k]);
                assert(before[k][j] != sep);
            } else if text.last() != sep {
                if j < before.last().len() {
                    assert(before[before.len() - 1][j] != sep);
                }
            } else if k == before.len() - 1 {
                assert(after[k] == before[k]);
                assert(before[k][j] != sep);
            }
        }
    }
}

/// A run of bytes without the separator, put after a text, extends the
/// text's last piece and changes no other.
pub proof fn lemma_split_plain_run(text: Seq<u8>, run: Seq<u8>, sep: u8)
    requires
        forall|j: int| 0 <= j < run.len() ==> run[j] != sep,
    ensures
        spec_split(text + run, sep) == spec_split(text, sep).drop_last().push(
            spec_split(text, sep).last() + run,
        ),
    decreases run.len(),
{
    lemma_split_nonempty(text, sep);
    let pieces = spec_split(text, sep);
    if run.len() == 0 {
        assert(text + run =~= text);
        assert(pieces.last() + run =~= pieces.last());
        assert(pieces.drop_last().push(pieces.last()) =~= pieces);
    } else {
        let shorter = run.drop_last();
        lemma_split_plain_run(text, shorter, sep);
        assert((text + run).drop_last() =~= text + shorter);
        assert((text + run).last() == run.last());
        let before = pieces.drop_last().push(pieces.last() + shorter);
        assert(before.drop_last() =~= pieces.drop_last());
        assert(before.last() == pieces.last() + shorter);
        assert((pieces.last() + shorter).push(run.last()) =~= pieces.last() + run);
    }
}

/// Cuts a text at every occurrence of the separator.
#[verifier::spinoff_prover]
pub fn split(text: &[u8], sep: u8) -> (pieces: Vec<Vec<u8>>)
    ensures
        strings_of(pieces@) == spec_split(text@, sep),
{
    let mut pieces: Vec<Vec<u8>> = Vec::new();
    let mut current: Vec<u8> = Vec::new();
    let mut i: usize = 0;
    while i < text.len()
        invariant
            i <= text@.len(),
            spec_split(text@.subrange(0, i as int), sep) == strings_of(pieces@).push(current@),
        decreases text@.len() - i,
    {
        let byte: u8 = text[i];
        proof {
            let upto = text@.subrange(0, i + 1);
            assert(upto.drop_last() =~= text@.subrange(0, i as int));
            assert(upto.last() == byte);
            let before = strings_of(pieces@).push(current@);
            assert(before.drop_last() =~= strings_of(pieces@));
            assert(before.last() == current@);
        }
        if byte == sep {
            let ghost done = strings_of(pieces@);
            pieces.push(current);
            current = Vec::new();
            assert(strings_of(pieces@) =~= done.push(pieces@.last()@));
        } else {
            current.push(byte);
        }
        i = i + 1;
    }
    assert(text@.subrange(0, i as int) =~= text@);
    let ghost done = strings_of(pieces@);
    pieces.push(current);
    assert(strings_of(pieces@) =~= done.push(pieces@.last()@));
    pieces
}

/// A line without the carriage return that ended it, if one did.
pub open spec fn strip_cr(line: Seq<u8>) -> Seq<u8> {
    if line.len() > 0 && line.last() == CARRIAGE_RETURN {
        line.drop_last()
    } else {
        line
    }
}

/// The lines of a text. A line ends at a line feed, or at a carriage return
/// followed by one; the terminator is not part of the line. What follows the
/// last line feed is a line of its own unless it is empty.
pub open spec fn spec_lines(text: Seq<u8>) -> Seq<Seq<u8>> {
    let pieces = spec_split(text, LINE_FEED);
    let ended = Seq::new((pieces.len() - 1) as nat, |i: int| strip_cr(pieces[i]));
    if pieces.last().len() == 0 {
        ended
    } else {
        ended.push(pieces.last())
    }
}

/// Cuts a text into its lines.
#[verifier::spinoff_prover]
pub fn lines(text: &[u8]) -> (out: Vec<Vec<u8>>)
    ensures
        strings_of(out@) == spec_lines(text@),
{
    let mut pieces = split(text, LINE_FEED);
    proof {
        lemma_split_nonempty(text@, LINE_FEED);
    }
    let ghost all = strings_of(pieces@);
    let tail = pieces.pop().unwrap();
    assert(tail@ == all.last());
    assert(strings_of(pieces@) =~= all.drop_last());
    let mut out: Vec<Vec<u8>> = Vec::new();
    let mut i: usize = 0;
    while i < pieces.len()
        invariant
            i <= pieces@.len(),
            out@.len() == i,
            forall|j: int| 0 <= j < i ==> (#[trigger] out@[j])@ == strip_cr(pieces@[j]@),
        decreases pieces@.len() - i,
    {
        let piece = &pieces[i];
        let n: usize = piece.len();
        let mut line: Vec<u8> = piece.clone();
        assert(line@ =~= piece@);
        if n > 0 && piece[n - 1] == CARRIAGE_RETURN {
            line.pop();
        }
        assert(line@ =~= strip_cr(piece@));
        out.push(line);
        i = i + 1;
    }
    let ghost ended = strings_of(out@);
    assert(ended =~= Seq::new((all.len() - 1) as nat, |i: int| strip_cr(all[i])));
    if tail.len() > 0 {
        out.push(tail);
        assert(strings_of(out@) =~= ended.push(tail@));
    }
    out
}

/// The name under which the manifest itself appears: `/manifest.txt` in an
/// archive of absolute paths, `manifest.txt` in any other.
pub open spec fn manifest_name(flags: ArchiveFlags) -> Seq<u8> {
    let relative = seq![
        0x6Du8, 0x61u8, 0x6Eu8, 0x69u8, 0x66u8, 0x65u8, 0x73u8, 0x74u8, 0x2Eu8, 0x74u8, 0x78u8, 0x74u8,
    ];
    if flags == ArchiveFlags::AbsolutePaths {
        seq![0x2Fu8] + relative
    } else {
        relative
    }
}

/// The manifest's own name, spelled out in bytes.
pub fn get_manifest_name(flags: ArchiveFlags) -> (name: Vec<u8>)
    ensures
        name@ == manifest_name(flags),
{
    let mut name: Vec<u8> = Vec::new();
    match flags {
        ArchiveFlags::AbsolutePaths => {
            name.push(0x2F);
        },
        _ => {},
    }
    name.push(0x6D);
    name.push(0x61);
    name.push(0x6E);
    name.push(0x69);
    name.push(0x66);
    name.push(0x65);
    name.push(0x73);
    name.push(0x74);
    name.push(0x2E);
    name.push(0x74);
    name.push(0x78);
    name.push(0x74);
    assert(name@ =~= manifest_name(flags));
    name
}

/// The archive with its first entries renamed, entry `i` to `names[i]`.
/// Entries beyond the names keep the name they had.
pub open spec fn named_entries(a: ArchiveView, names: Seq<Seq<u8>>) -> ArchiveView {
    ArchiveView {
        header: a.header,
        entries: Seq::new(
            a.entries.len(),
            |i: int|
                if i < names.len() {
                    EntryView {
                        name: names[i],
                        name_digest: a.entries[i].name_digest,
                        block_index: a.entries[i].block_index,
                        length: a.entries[i].length,
                        offset: a.entries[i].offset,
                    }
                } else {
                    a.entries[i]
                },
        ),
        block_sizes: a.block_sizes,
    }
}

/// All the names that a manifest text gives: the manifest's own, then one
/// per line.
pub open spec fn manifest_names(flags: ArchiveFlags, text: Seq<u8>) -> Seq<Seq<u8>> {
    seq![manifest_name(flags)] + spec_lines(text)
}

/// The archive as it is once the manifest has named its entries.
///
/// It fails where there is no first entry, where reading it fails, and
/// where the text is not UTF-8. Lines beyond the last entry name nothing.
pub open spec fn spec_manifest(a: ArchiveView, data: Seq<u8>) -> Result<ArchiveView, Error> {
    if a.entries.len() == 0 {
        Err(Error::Format(FormatError::NoManifest))
    } else {
        match entry_read(a, data, 0, None) {
            Err(e) => Err(e),
            Ok(text) => {
                if !valid_utf8(text) {
                    Err(Error::Format(FormatError::ManifestEncoding))
                } else {
                    Ok(named_entries(a, manifest_names(a.header.archive_flags, text)))
                }
            },
        }
    }
}

/// What opening an archive yields: its table of contents, with the names
/// that its manifest gives.
pub open spec fn spec_open(data: Seq<u8>) -> Result<ArchiveView, Error> {
    match spec_toc(data) {
        Err(e) => Err(e),
        Ok(a) => spec_manifest(a, data),
    }
}

/// `std::str::from_utf8`, asked only whether it succeeds: it does exactly on
/// the byte sequences that are well-formed UTF-8.
#[verifier::external_body]
fn is_utf8(bytes: &[u8]) -> (ok: bool)
    ensures
        ok == valid_utf8(bytes@),
{
    std::str::from_utf8(bytes).is_ok()
}

impl PSArc {
    /// Reads the manifest from the archive bytes and names the entries by
    /// it. On failure the archive is left as it was.
    #[verifier::spinoff_prover]
    pub fn parse_manifest(&mut self, data: &[u8]) -> (r: Result<(), Error>)
        ensures
            match r {
                Ok(_) => spec_manifest(old(self)@, data@) == Ok::<ArchiveView, Error>(final(self)@),
                Err(e) => spec_manifest(old(self)@, data@) == Err::<ArchiveView, Error>(e)
                    && *final(self) == *old(self),
            },
    {
        if self.entries.len() == 0 {
            return Err(Error::Format(FormatError::NoManifest));
        }
        let text = self.print_file(data, 0, None)?;
        if !is_utf8(text.as_slice()) {
            return Err(Error::Format(FormatError::ManifestEncoding));
        }
        let mut names = lines(text.as_slice());
        names.insert(0, get_manifest_name(self.header.archive_flags));
        let ghost given = manifest_names(self.header.archive_flags, text@);
        assert(strings_of(names@) =~= given);
        names.truncate(self.entries.len());
        let ghost wanted = strings_of(names@);
        let ghost before = self@;
        assert(named_entries(before, wanted).entries =~= named_entries(before, given).entries);
        let mut i: usize = names.len();
        while i > 0
            invariant
                i == names@.len(),
                i <= wanted.len() <= self.entries@.len(),
                forall|j: int| 0 <= j < i ==> (#[trigger] names@[j])@ == wanted[j],
                self.header == before.header,
                self.block_sizes@ == before.block_sizes,
                self.entries@.len() == before.entries.len(),
                forall|j: int|
                    0 <= j < self.entries@.len() ==> (#[trigger] self.entries@[j])@ == if i <= j
                        < wanted.len() {
                        named_entries(before, wanted).entries[j]
                    } else {
                        before.entries[j]
                    },
            decreases i,
        {
            i = i - 1;
            let name = names.pop().unwrap();
            self.entries[i].name = name;
        }
        assert(self@.entries =~= named_entries(before, wanted).entries);
        Ok(())
    }

    /// Opens an archive: parses its table of contents and names its entries
    /// from the manifest.
    pub fn open(data: &[u8]) -> (r: Result<PSArc, Error>)
        ensures
            match r {
                Ok(a) => spec_open(data@) == Ok::<ArchiveView, Error>(a@),
                Err(e) => spec_open(data@) == Err::<ArchiveView, Error>(e),
            },
            r matches Ok(a) ==> a.entries@.len() >= 1 && a.entries@.len()
                == a.header.toc_entry_count && a.block_sizes@.len() == block_table_len(a.header)
                && a.entries@[0].name@ == manifest_name(a.header.archive_flags),
    {
        let mut archive = parse_toc(data)?;
        archive.parse_manifest(data)?;
        proof {
            lemma_open_lengths(data@);
            assert(archive@.entries[0] == archive.entries@[0]@);
        }
        Ok(archive)
    }
}

/// An opened archive has at least the manifest's entry, as many entries as
/// its header counts, and as many block sizes as fit between the end of the
/// entries and the declared length of the table. Its header, its block
/// sizes and all of an entry but the name are those of the table of
/// contents.
pub proof fn lemma_open_lengths(data: Seq<u8>)
    requires
        spec_open(data) is Ok,
    ensures
        spec_toc(data) is Ok,
        spec_open(data)->Ok_0.header == spec_toc(data)->Ok_0.header,
        spec_open(data)->Ok_0.block_sizes == spec_toc(data)->Ok_0.block_sizes,
        spec_open(data)->Ok_0.entries.len() == spec_open(data)->Ok_0.header.toc_entry_count,
        spec_open(data)->Ok_0.entries.len() >= 1,
        spec_open(data)->Ok_0.block_sizes.len() == block_table_len(spec_open(data)->Ok_0.header),
        spec_open(data)->Ok_0.entries[0].name == manifest_name(
            spec_open(data)->Ok_0.header.archive_flags,
        ),
{
    let toc = spec_toc(data)->Ok_0;
    let text = entry_read(toc, data, 0, None)->Ok_0;
    let names = manifest_names(toc.header.archive_flags, text);
    assert(names[0] == manifest_name(toc.header.archive_flags));
}

/// Names go by position: the first entry of an opened archive bears the
/// manifest's own name, and entry `i` the name on line `i - 1` of the
/// manifest. An entry for which the manifest has no line has the empty
/// name of the table of contents.
pub proof fn lemma_names_by_position(data: Seq<u8>, i: int)
    requires
        spec_open(data) is Ok,
        1 <= i < spec_open(data)->Ok_0.entries.len(),
    ensures
        entry_read(spec_toc(data)->Ok_0, data, 0, None) is Ok,
        i - 1 < spec_lines(entry_read(spec_toc(data)->Ok_0, data, 0, None)->Ok_0).len()
            ==> spec_open(data)->Ok_0.entries[i].name == spec_lines(
            entry_read(spec_toc(data)->Ok_0, data, 0, None)->Ok_0,
        )[i - 1],
        i - 1 >= spec_lines(entry_read(spec_toc(data)->Ok_0, data, 0, None)->Ok_0).len()
            ==> spec_open(data)->Ok_0.entries[i].name == Seq::<u8>::empty(),
{
    let toc = spec_toc(data)->Ok_0;
    let text = entry_read(toc, data, 0, None)->Ok_0;
    let names = manifest_names(toc.header.archive_flags, text);
    if i < names.len() {
        assert(names[i] == spec_lines(text)[i - 1]);
    }
}

} // verus!
