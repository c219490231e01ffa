//! The text of the output document: a header with the time of generation,
//! the directory listing, and each file under a header of its own.

use vstd::prelude::*;

use crate::scanner::{record, records, FileEntry, ScanResult};

verus! {

/// The line that opens and closes a section title.
pub const SEPARATOR: &'static str = "================================================================";

/// The line above and below a file's header.
pub const FILE_SEPARATOR: &'static str = "================";

/// The document's first lines, with the time of generation.
pub open spec fn header_of(timestamp: Seq<char>) -> Seq<char> {
    "This file is a merged representation of the directory, combining all text-based files into a single document."@
        + seq!['\n'] + "Generated on: "@ + timestamp + seq!['\n', '\n']
}

/// A section title between separator lines, followed by a blank line.
pub open spec fn title_of(title: Seq<char>) -> Seq<char> {
    SEPARATOR@ + seq!['\n'] + title + seq!['\n'] + SEPARATOR@ + seq!['\n', '\n']
}

/// The directory listing section.
pub open spec fn list_section_of(file_list: Seq<char>) -> Seq<char> {
    title_of("Directory List"@) + file_list + seq!['\n']
}

/// One file: its header between separator lines, its text and a blank line.
pub open spec fn file_block_of(path: Seq<char>, content: Seq<char>) -> Seq<char> {
    FILE_SEPARATOR@ + seq!['\n'] + "File: "@ + path + seq!['\n'] + FILE_SEPARATOR@ + seq!['\n']
        + content + seq!['\n', '\n']
}

/// The blocks of the first `n` files.
pub open spec fn file_blocks_of(files: Seq<(Seq<char>, Seq<char>)>, n: nat) -> Seq<char>
    decreases n,
{
    if n == 0 || n > files.len() {
        seq![]
    } else {
        file_blocks_of(files, (n - 1) as nat) + file_block_of(files[n - 1].0, files[n - 1].1)
    }
}

/// The files section.
pub open spec fn files_section_of(files: Seq<(Seq<char>, Seq<char>)>) -> Seq<char> {
    title_of("Files"@) + file_blocks_of(files, files.len())
}

/// The whole document.
pub open spec fn document_of(
    timestamp: Seq<char>,
    file_list: Seq<char>,
    files: Seq<(Seq<char>, Seq<char>)>,
) -> Seq<char> {
    header_of(timestamp) + list_section_of(file_list) + files_section_of(files)
}

/// Appends the document's header.
pub fn write_header(out: &mut String, timestamp: &str)
    ensures
        final(out)@ == old(out)@ + header_of(timestamp@),
{
    out.append(
        "This file is a merged representation of the directory, combining all text-based files into a single document.",
    );
    out.append("\n");
    out.append("Generated on: ");
    out.append(timestamp);
    out.append("\n\n");
    proof {
        reveal_strlit("\n");
        reveal_strlit("\n\n");
    }
    assert(out@ =~= old(out)@ + header_of(timestamp@));
}

/// Appends a section title.
fn write_title(out: &mut String, title: &str)
    ensures
        final(out)@ == old(out)@ + title_of(title@),
{
    out.append(SEPARATOR);
    out.append("\n");
    out.append(title);
    out.append("\n");
    out.append(SEPARATOR);
    out.append("\n\n");
    proof {
        reveal_strlit("\n");
        reveal_strlit("\n\n");
    }
    assert(out@ =~= old(out)@ + title_of(title@));
}

/// Appends the directory listing section.
pub fn write_file_list(out: &mut String, file_list: &str)
    ensures
        final(out)@ == old(out)@ + list_section_of(file_list@),
{
    write_title(out, "Directory List");
    out.append(file_list);
    out.append("\n");
    proof {
        reveal_strlit("\n");
    }
    assert(out@ =~= old(out)@ + list_section_of(file_list@));
}

/// Appends the files section: each file in the order given.
pub fn write_files(out: &mut String, files: &Vec<FileEntry>)
    ensures
        final(out)@ == old(out)@ + files_section_of(records(files@)),
{
    write_title(out, "Files");
    let ghost start = out@;
    let ghost rs = records(files@);
    let n = files.len();
    let mut i: usize = 0;
    while i < n
        invariant
            n == files@.len(),
            rs == records(files@),
            i <= n,
            out@ == start + file_blocks_of(rs, i as nat),
        decreases n - i,
    {
        let f = &files[i];
        out.append(FILE_SEPARATOR);
        out.append("\n");
        out.append("File: ");
        out.append(f.relative_path.as_str());
        out.append("\n");
        out.append(FILE_SEPARATOR);
        out.append("\n");
        out.append(f.content.as_str());
        out.append("\n\n");
        proof {
            reveal_strlit("\n");
            reveal_strlit("\n\n");
            assert(rs[i as int] == record(files@[i as int]));
        }
        assert(out@ =~= start + file_blocks_of(rs, (i + 1) as nat));
        i = i + 1;
    }
    assert(out@ =~= old(out)@ + files_section_of(rs));
}

/// The whole document for a scan, generated at `timestamp`.
pub fn document_text(result: &ScanResult, timestamp: &str) -> (r: String)
    ensures
        r@ == document_of(timestamp@, result.file_list@, records(result.files@)),
{
    let mut out = String::new();
    write_header(&mut out, timestamp);
    write_file_list(&mut out, result.file_list.as_str());
    write_files(&mut out, &result.files);
    assert(out@ =~= document_of(timestamp@, result.file_list@, records(result.files@)));
    out
}

} // verus!
