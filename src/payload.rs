//! Collecting the text files of a tree into one payload: a line per file, the
//! path and the escaped content separated by a tab.
use vstd::prelude::*;
use vstd::utf8::{decode_utf8, valid_utf8};
use crate::binary::{is_binary, is_binary_file};
use crate::escape::{escape, escaped};
use crate::text::utf8_text;

verus! {

broadcast use vstd::utf8::encode_utf8_decode_utf8;

/// An entry met while walking a tree.
pub struct FileEntry {
    pub path: String,
    /// A regular file; directories and special files are not.
    pub is_file: bool,
}

/// A candidate file with what could be read of it.
pub struct IngestedFile {
    pub path: String,
    /// The bytes of the file, or nothing where it could not be read.
    pub content: Option<Vec<u8>>,
}

#[derive(Debug, Clone, Copy, PartialEq, Eq, Structural)]
pub enum IngestError {
    /// The root of the tree does not exist.
    PathNotFound,
    /// No file of the tree was both text and readable.
    NoReadableFiles,
}

/// The paths of the regular files among the entries, in order.
pub open spec fn regular_files(es: Seq<FileEntry>) -> Seq<Seq<char>>
    decreases es.len(),
{
    if es.len() == 0 {
        seq![]
    } else if es.last().is_file {
        regular_files(es.drop_last()).push(es.last().path@)
    } else {
        regular_files(es.drop_last())
    }
}

pub open spec fn content_view(f: IngestedFile) -> Option<Seq<u8>> {
    match f.content {
        Some(b) => Some(b@),
        None => None,
    }
}

/// The text of a file that is kept: not binary, readable, and valid UTF-8.
pub open spec fn file_text(f: IngestedFile) -> Option<Seq<char>> {
    if is_binary(f.path@, content_view(f)) {
        None
    } else {
        match content_view(f) {
            Some(b) => if valid_utf8(b) {
                Some(decode_utf8(b))
            } else {
                None
            },
            None => None,
        }
    }
}

pub open spec fn record(path: Seq<char>, text: Seq<char>) -> Seq<char> {
    path + seq!['\t'] + escaped(text)
}

/// One record per kept file, in the order of the files.
pub open spec fn records(fs: Seq<IngestedFile>) -> Seq<Seq<char>>
    decreases fs.len(),
{
    if fs.len() == 0 {
        seq![]
    } else {
        match file_text(fs.last()) {
            Some(t) => records(fs.drop_last()).push(record(fs.last().path@, t)),
            None => records(fs.drop_last()),
        }
    }
}

/// The lines joined by newlines.
pub open spec fn join_lines(ls: Seq<Seq<char>>) -> Seq<char>
    decreases ls.len(),
{
    if ls.len() == 0 {
        seq![]
    } else if ls.len() == 1 {
        ls[0]
    } else {
        join_lines(ls.drop_last()) + seq!['\n'] + ls.last()
    }
}

/// Keeps the paths of the regular files, in the order of the walk.
pub fn select_files(entries: &Vec<FileEntry>) -> (r: Vec<String>)
    ensures
        r@.map_values(|s: String| s@) == regular_files(entries@),
{
    let mut out: Vec<String> = Vec::new();
    let mut i: usize = 0;
    while i < entries.len()
        invariant
            i <= entries@.len(),
            out@.map_values(|s: String| s@) == regular_files(entries@.subrange(0, i as int)),
        decreases entries@.len() - i,
    {
        assert(entries@.subrange(0, i + 1).drop_last() =~= entries@.subrange(0, i as int));
        if entries[i].is_file {
            out.push(entries[i].path.clone());
            assert(out@.map_values(|s: String| s@) =~= regular_files(entries@.subrange(0, i as int)).push(entries@[i as int].path@));
        }
        i = i + 1;
    }
    assert(entries@.subrange(0, entries@.len() as int) =~= entries@);
    out
}

/// Builds the payload: the files that are text and readable, each escaped onto
/// one line. Fails exactly when no file is kept.
pub fn serialize_files(files: &Vec<IngestedFile>) -> (r: Result<String, IngestError>)
    ensures
        match r {
            Ok(p) => records(files@).len() > 0 && p@ == join_lines(records(files@)),
            Err(e) => records(files@).len() == 0 && e == IngestError::NoReadableFiles,
        },
{
    let mut out = String::new();
    let mut any = false;
    let mut i: usize = 0;
    proof {
        reveal_strlit("\t");
        reveal_strlit("\n");
    }
    while i < files.len()
        invariant
            i <= files@.len(),
            any == (records(files@.subrange(0, i as int)).len() > 0),
            out@ == join_lines(records(files@.subrange(0, i as int))),
            "\t"@ == seq!['\t'],
            "\n"@ == seq!['\n'],
        decreases files@.len() - i,
    {
        let ghost before = files@.subrange(0, i as int);
        assert(files@.subrange(0, i + 1).drop_last() =~= before);
        let f = &files[i];
        let probe = match &f.content {
            Some(b) => Some(b.as_slice()),
            None => None,
        };
        if !is_binary_file(f.path.as_str(), probe) {
            if let Some(b) = &f.content {
                if let Some(text) = utf8_text(b.as_slice()) {
                    if any {
                        out.append("\n");
                    }
                    out.append(f.path.as_str());
                    out.append("\t");
                    let e = escape(text);
                    out.append(e.as_str());
                    proof {
                        let rs = records(before);
                        let rec = record(f.path@, text@);
                        if rs.len() == 0 {
                            assert(rs.push(rec).len() == 1);
                            assert(rs.push(rec)[0] == rec);
                        } else {
                            assert(rs.push(rec).drop_last() =~= rs);
                        }
                    }
                    any = true;
                }
            }
        }
        i = i + 1;
    }
    assert(files@.subrange(0, files@.len() as int) =~= files@);
    if !any {
        Err(IngestError::NoReadableFiles)
    } else {
        Ok(out)
    }
}

} // verus!
