use vstd::prelude::*;
use crate::error::VikError;
use crate::index::IndexEntry;
use crate::object::ParsedObject;
use crate::text::{
    all_digits, bytes_eq, decimal, decimal_bytes, digits_value, lemma_decimal_no_leading_zero,
    lemma_decimal_parse, slice_to_vec,
};
use crate::tree::{blob_kind, commit_kind, tree_kind};

verus! {

/// A parsed command line.
pub struct Cli {
    pub command: Commands,
}

/// The commands of the program and their arguments; paths are kept as the
/// bytes the system gave.
#[allow(inconsistent_fields)]
pub enum Commands {
    Init { path: Option<Vec<u8>> },
    HashObject { file: Vec<u8>, write: bool },
    CatFile { show_type: bool, size: bool, pretty: bool, object: String },
    Add { files: Vec<Vec<u8>> },
    Commit { message: String },
    Log,
    Branch { name: Option<String> },
    Checkout { name: String },
    Status,
}

/// How `cat-file` output is to be written.
#[derive(Debug, Clone, Copy, PartialEq, Eq, Structural)]
pub enum CatMode {
    /// The bytes and a line feed.
    Line,
    /// The bytes as text, invalid UTF-8 replaced.
    Text,
    /// The bytes as they are.
    Raw,
}

/// What `cat-file` writes.
pub struct CatOutput {
    pub mode: CatMode,
    pub bytes: Vec<u8>,
}

/// What `cat-file` writes of an object of the given kind and content: the
/// kind, or the content's length, or the content itself (as text for
/// blobs, commits and trees); asked for none of these it refuses.
pub open spec fn cat_file_spec(
    show_type: bool,
    size: bool,
    pretty: bool,
    kind: Seq<u8>,
    content: Seq<u8>,
) -> Result<(CatMode, Seq<u8>), VikError> {
    if show_type {
        Ok((CatMode::Line, kind))
    } else if size {
        Ok((CatMode::Line, decimal(content.len())))
    } else if pretty {
        if kind == blob_kind() || kind == commit_kind() || kind == tree_kind() {
            Ok((CatMode::Text, content))
        } else {
            Ok((CatMode::Raw, content))
        }
    } else {
        Err(VikError::NoCatFileMode)
    }
}

/// Chooses what `cat-file` writes of a parsed object.
pub fn cat_file_output(show_type: bool, size: bool, pretty: bool, parsed: &ParsedObject) -> (r: Result<CatOutput, VikError>)
    ensures
        match cat_file_spec(show_type, size, pretty, parsed.kind@, parsed.content@) {
            Ok((mode, bytes)) => r matches Ok(o) && o.mode == mode && o.bytes@ == bytes,
            Err(e) => r matches Err(x) && x == e,
        },
        show_type ==> (r matches Ok(o) && o.mode == CatMode::Line && o.bytes@ == parsed.kind@),
        !show_type && size ==> (r matches Ok(o) && o.mode == CatMode::Line && all_digits(o.bytes@)
            && o.bytes@.len() > 0 && digits_value(o.bytes@) == parsed.content@.len() && (
        o.bytes@.len() > 1 ==> o.bytes@[0] != 48)),
        !show_type && !size && pretty ==> (r matches Ok(o) && o.bytes@ == parsed.content@ && (
        o.mode == CatMode::Text <==> (parsed.kind@ == seq![98u8, 108, 111, 98] || parsed.kind@
            == seq![99u8, 111, 109, 109, 105, 116] || parsed.kind@ == seq![116u8, 114, 101, 101]))
            && (o.mode == CatMode::Text || o.mode == CatMode::Raw)),
        !show_type && !size && !pretty ==> r == Err::<CatOutput, VikError>(VikError::NoCatFileMode),
{
    proof {
        lemma_decimal_parse(parsed.content@.len());
        lemma_decimal_no_leading_zero(parsed.content@.len());
    }
    if show_type {
        let b = slice_to_vec(parsed.kind.as_slice(), 0, parsed.kind.len());
        assert(b@ =~= parsed.kind@);
        Ok(CatOutput { mode: CatMode::Line, bytes: b })
    } else if size {
        Ok(CatOutput { mode: CatMode::Line, bytes: decimal_bytes(parsed.content.len() as u64) })
    } else if pretty {
        let blob_v: Vec<u8> = vec![98u8, 108, 111, 98];
        let commit_v: Vec<u8> = vec![99u8, 111, 109, 109, 105, 116];
        let tree_v: Vec<u8> = vec![116u8, 114, 101, 101];
        let k = parsed.kind.as_slice();
        let b = slice_to_vec(parsed.content.as_slice(), 0, parsed.content.len());
        assert(b@ =~= parsed.content@);
        if bytes_eq(k, blob_v.as_slice()) || bytes_eq(k, commit_v.as_slice()) || bytes_eq(
            k,
            tree_v.as_slice(),
        ) {
            Ok(CatOutput { mode: CatMode::Text, bytes: b })
        } else {
            Ok(CatOutput { mode: CatMode::Raw, bytes: b })
        }
    } else {
        Err(VikError::NoCatFileMode)
    }
}

/// Whether `add` may go on: it needs at least one file.
pub fn check_add_files(files: &Vec<Vec<u8>>) -> (r: Result<(), VikError>)
    ensures
        r is Ok <==> files@.len() > 0,
        r is Err ==> r == Err::<(), VikError>(VikError::NoFilesProvided),
{
    if files.len() == 0 {
        Err(VikError::NoFilesProvided)
    } else {
        Ok(())
    }
}

/// Whether `commit` may go on: the index must stage something.
pub fn check_commit_index(index: &Vec<IndexEntry>) -> (r: Result<(), VikError>)
    ensures
        r is Ok <==> index@.len() > 0,
        r is Err ==> r == Err::<(), VikError>(VikError::NothingToCommit),
{
    if index.len() == 0 {
        Err(VikError::NothingToCommit)
    } else {
        Ok(())
    }
}

} // verus!
