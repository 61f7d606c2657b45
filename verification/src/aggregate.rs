//! The assembly of the selected files and the instructions into one text.
//!
//! The caller resolves each selected path with [`full_path`], tries to read
//! the file, and records the outcome in a [`SelectedFile`]. [`aggregate`]
//! lays the readable files out in the order of the selection and closes
//! with the instructions. A file that could not be read leaves no trace.

use vstd::prelude::*;
use vstd::string::*;
use crate::text::{trim, trimmed};

verus! {

/// A selected path, as the user gave it, and the text read from the file it
/// names, or `None` if the file could not be read as text.
#[derive(Clone, Debug)]
pub struct SelectedFile {
    pub rel: String,
    pub content: Option<String>,
}

/// The mathematical content of a [`SelectedFile`].
pub struct SelectedView {
    pub rel: Seq<char>,
    pub content: Option<Seq<char>>,
}

impl View for SelectedFile {
    type V = SelectedView;

    open spec fn view(&self) -> SelectedView {
        SelectedView {
            rel: self.rel@,
            content: match self.content {
                Some(c) => Some(c@),
                None => None,
            },
        }
    }
}

/// The views of a sequence of selected files, item by item.
pub open spec fn selection_of(v: Seq<SelectedFile>) -> Seq<SelectedView> {
    Seq::new(v.len(), |i: int| v[i]@)
}

/// The path of a selected file: the root, a `/`, and the selected path
/// without the white space around it.
pub open spec fn joined(root: Seq<char>, rel: Seq<char>) -> Seq<char> {
    root + "/"@ + trimmed(rel)
}

/// The record of one file: an empty line, the path between two `---`
/// markers, and the content as it was read.
pub open spec fn block_of(path: Seq<char>, content: Seq<char>) -> Seq<char> {
    "\n--- "@ + path + " ---\n"@ + content
}

/// What one selected file contributes: its record if it was read, nothing
/// otherwise.
pub open spec fn piece_of(root: Seq<char>, file: SelectedView) -> Seq<char> {
    match file.content {
        Some(c) => block_of(joined(root, file.rel), c),
        None => Seq::<char>::empty(),
    }
}

/// The contributions of `files`, one after the other.
pub open spec fn blocks_of(root: Seq<char>, files: Seq<SelectedView>) -> Seq<char>
    decreases files.len(),
{
    if files.len() == 0 {
        Seq::<char>::empty()
    } else {
        blocks_of(root, files.drop_last()) + piece_of(root, files.last())
    }
}

/// The whole document: the contributions of the files, an empty line, the
/// line `Instructions:`, and the instructions as given.
pub open spec fn aggregate_of(
    root: Seq<char>,
    files: Seq<SelectedView>,
    instructions: Seq<char>,
) -> Seq<char> {
    blocks_of(root, files) + "\n\nInstructions:\n"@ + instructions
}

/// Resolves a selected path against the root.
pub fn full_path(root: &str, rel: &str) -> (r: String)
    ensures
        r@ == joined(root@, rel@),
{
    let mut r = String::from_str(root);
    r.append("/");
    r.append(trim(rel));
    r
}

/// Builds the record of one file that was read.
pub fn file_block(path: &str, content: &str) -> (r: String)
    ensures
        r@ == block_of(path@, content@),
{
    let mut r = String::from_str("\n--- ");
    r.append(path);
    r.append(" ---\n");
    r.append(content);
    r
}

/// Assembles the document for `files`, in their order, and `instructions`.
pub fn aggregate(root: &str, files: &Vec<SelectedFile>, instructions: &str) -> (r: String)
    ensures
        r@ == aggregate_of(root@, selection_of(files@), instructions@),
{
    let ghost all = selection_of(files@);
    let mut out = String::new();
    let mut i: usize = 0;
    proof {
        assert(out@ =~= blocks_of(root@, all.take(0)));
    }
    while i < files.len()
        invariant
            i <= files.len(),
            all == selection_of(files@),
            out@ == blocks_of(root@, all.take(i as int)),
        decreases files.len() - i,
    {
        proof {
            assert(all.take(i + 1).drop_last() =~= all.take(i as int));
            assert(all.take(i + 1).last() == files[i as int]@);
        }
        match &files[i].content {
            Some(content) => {
                let path = full_path(root, files[i].rel.as_str());
                let block = file_block(path.as_str(), content.as_str());
                out.append(block.as_str());
            },
            None => {
                assert(out@ + Seq::<char>::empty() =~= out@);
            },
        }
        i = i + 1;
    }
    proof {
        assert(all.take(files.len() as int) =~= all);
    }
    out.append("\n\nInstructions:\n");
    out.append(instructions);
    out
}

/// The contributions of two selections, one after the other, are the
/// contributions of the two taken as one.
pub proof fn lemma_blocks_concat(root: Seq<char>, a: Seq<SelectedView>, b: Seq<SelectedView>)
    ensures
        blocks_of(root, a + b) == blocks_of(root, a) + blocks_of(root, b),
    decreases b.len(),
{
    if b.len() == 0 {
        assert(a + b =~= a);
        assert(blocks_of(root, a) + blocks_of(root, b) =~= blocks_of(root, a));
    } else {
        lemma_blocks_concat(root, a, b.drop_last());
        assert((a + b).drop_last() =~= a + b.drop_last());
        assert((a + b).last() == b.last());
        assert(blocks_of(root, a + b) =~= blocks_of(root, a) + blocks_of(root, b));
    }
}

/// The document follows the order of the selection: what the file at
/// position `i` contributes stands after the contributions of all files
/// selected before it and before those of all files selected after it.
pub proof fn law_selection_order_is_kept(root: Seq<char>, files: Seq<SelectedView>, i: int)
    requires
        0 <= i < files.len(),
    ensures
        blocks_of(root, files) == blocks_of(root, files.take(i)) + piece_of(root, files[i])
            + blocks_of(root, files.skip(i + 1)),
{
    let head = files.take(i).push(files[i]);
    assert(head.drop_last() =~= files.take(i));
    assert(head + files.skip(i + 1) =~= files);
    lemma_blocks_concat(root, head, files.skip(i + 1));
}

/// A file that could not be read changes nothing: the document is the one
/// for the selection without it, so every other file keeps its record and
/// the instructions still close the text.
pub proof fn law_unreadable_file_is_skipped(
    root: Seq<char>,
    files: Seq<SelectedView>,
    i: int,
    instructions: Seq<char>,
)
    requires
        0 <= i < files.len(),
        files[i].content.is_none(),
    ensures
        aggregate_of(root, files, instructions) == aggregate_of(
            root,
            files.remove(i),
            instructions,
        ),
{
    law_selection_order_is_kept(root, files, i);
    lemma_blocks_concat(root, files.take(i), files.skip(i + 1));
    assert(files.remove(i) =~= files.take(i) + files.skip(i + 1));
    assert(blocks_of(root, files) =~= blocks_of(root, files.remove(i)));
}

} // verus!
