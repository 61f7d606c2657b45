//! The listing of a directory tree, as a machine that a caller drives.
//!
//! The scanner keeps the directories that are open, outermost first, each
//! with the entries still to be looked at, and the lines produced so far.
//! One [`Scanner::step`] looks at one entry. When it meets a directory that
//! is not ignored it asks the caller to read it and waits; the caller
//! answers with [`Scanner::enter`], and only then. An ignored entry produces no line and no request, so
//! nothing below it is ever read.

use vstd::prelude::*;
use vstd::string::*;
use crate::ignore::{ignored, is_ignored};
use crate::text::{indent, indent_of, texts};

verus! {

/// One entry of a directory, as the caller found it.
#[derive(Clone, Debug)]
pub struct DirEntry {
    /// The base name.
    pub name: String,
    /// The full path, which the ignore rules are matched against.
    pub path: String,
    /// Whether the entry is a directory.
    pub is_dir: bool,
}

/// The mathematical content of a [`DirEntry`].
pub struct EntryView {
    pub name: Seq<char>,
    pub path: Seq<char>,
    pub is_dir: bool,
}

impl View for DirEntry {
    type V = EntryView;

    open spec fn view(&self) -> EntryView {
        EntryView { name: self.name@, path: self.path@, is_dir: self.is_dir }
    }
}

/// The views of a sequence of entries, item by item.
pub open spec fn entries_of(v: Seq<DirEntry>) -> Seq<EntryView> {
    Seq::new(v.len(), |i: int| v[i]@)
}

/// The line that shows `e` at nesting depth `depth`: the indentation, the
/// base name and, for a directory, a closing `/`.
pub open spec fn line_of(depth: nat, e: EntryView) -> Seq<char> {
    indent_of(depth) + e.name + (if e.is_dir {
        seq!['/']
    } else {
        Seq::<char>::empty()
    })
}

/// Builds the line that shows `e` at nesting depth `depth`.
pub fn entry_line(depth: usize, e: &DirEntry) -> (r: String)
    ensures
        r@ == line_of(depth as nat, e@),
{
    let mut r = indent(depth);
    r.append(e.name.as_str());
    if e.is_dir {
        proof {
            reveal_strlit("/");
            assert("/"@ =~= seq!['/']);
        }
        r.append("/");
    }
    assert(r@ =~= line_of(depth as nat, e@));
    r
}

/// Why a scan could not start.
#[derive(Debug)]
pub enum ScanError {
    /// The root directory could not be opened; the cause is carried along.
    RootUnreadable(String),
}

/// What the caller has to do after a step.
#[derive(Debug)]
pub enum Step {
    /// Read the directory with this path and hand the outcome to
    /// [`Scanner::enter`].
    Open(String),
    /// Nothing; there is more to look at.
    More,
    /// Nothing; the listing is complete.
    Done,
}

/// The mathematical content of a [`Step`].
pub enum StepView {
    Open(Seq<char>),
    More,
    Done,
}

impl View for Step {
    type V = StepView;

    open spec fn view(&self) -> StepView {
        match self {
            Step::Open(p) => StepView::Open(p@),
            Step::More => StepView::More,
            Step::Done => StepView::Done,
        }
    }
}

/// An open directory: its entries and how many of them have been looked at.
struct Frame {
    entries: Vec<DirEntry>,
    next: usize,
}

impl Frame {
    spec fn wf(&self) -> bool {
        self.next <= self.entries.len()
    }

    spec fn rest(&self) -> Seq<EntryView> {
        entries_of(self.entries@).subrange(self.next as int, self.entries.len() as int)
    }
}

/// A scan in progress.
pub struct Scanner {
    ignores: Vec<String>,
    stack: Vec<Frame>,
    lines: Vec<String>,
    waiting: bool,
}

/// The mathematical content of a [`Scanner`].
pub struct ScanView {
    /// The ignore patterns.
    pub ignores: Seq<Seq<char>>,
    /// The open directories, outermost first, each with the entries that
    /// have not been looked at yet. The position of a directory in this
    /// sequence is the nesting depth of its entries.
    pub open: Seq<Seq<EntryView>>,
    /// The lines produced so far.
    pub lines: Seq<Seq<char>>,
    /// Whether a directory has been asked for and its listing is awaited.
    pub waiting: bool,
}

/// The state reached from `s`, which awaits no listing, by one step, and
/// what the step asks for. After a request the state awaits the listing.
pub open spec fn step_of(s: ScanView) -> (ScanView, StepView) {
    if s.open.len() == 0 {
        (s, StepView::Done)
    } else {
        let depth = (s.open.len() - 1) as nat;
        let rest = s.open.last();
        if rest.len() == 0 {
            (ScanView { open: s.open.drop_last(), ..s }, StepView::More)
        } else {
            let e = rest.first();
            let open = s.open.update(depth as int, rest.drop_first());
            if ignored(e.path, s.ignores) {
                (ScanView { open, ..s }, StepView::More)
            } else {
                (
                    ScanView {
                        open,
                        lines: s.lines.push(line_of(depth, e)),
                        waiting: e.is_dir,
                        ..s
                    },
                    if e.is_dir {
                        StepView::Open(e.path)
                    } else {
                        StepView::More
                    },
                )
            }
        }
    }
}

/// The state reached from `s`, which awaits a listing, when the directory
/// asked for has been read: its entries are opened one level deeper, or, if
/// it could not be read, nothing is opened. Either way nothing is awaited
/// any more.
pub open spec fn enter_of(s: ScanView, listing: Option<Seq<EntryView>>) -> ScanView {
    match listing {
        Some(l) => ScanView { open: s.open.push(l), waiting: false, ..s },
        None => ScanView { waiting: false, ..s },
    }
}

/// The state reached from `s` by stepping until a directory has to be read
/// or the listing is complete, with the path of that directory.
pub open spec fn settle_of(s: ScanView) -> (ScanView, Option<Seq<char>>)
    decreases s.open.len(), (if s.open.len() > 0 {
            s.open.last().len()
        } else {
            0
        }),
{
    let (t, asked) = step_of(s);
    match asked {
        StepView::Done => (t, None),
        StepView::Open(p) => (t, Some(p)),
        StepView::More => settle_of(t),
    }
}

impl View for Scanner {
    type V = ScanView;

    closed spec fn view(&self) -> ScanView {
        ScanView {
            ignores: texts(self.ignores@),
            open: Seq::new(self.stack.len() as nat, |i: int| self.stack[i].rest()),
            lines: texts(self.lines@),
            waiting: self.waiting,
        }
    }
}

impl Scanner {
    /// The validity of a scanner: no open directory has been read past its
    /// end.
    pub closed spec fn wf(&self) -> bool {
        forall|i: int| 0 <= i < self.stack.len() ==> (#[trigger] self.stack[i]).wf()
    }

    /// Starts a scan from the outcome of reading the root directory. A root
    /// that could not be read is an error, and no listing is made.
    pub fn begin(ignores: Vec<String>, root: Result<Vec<DirEntry>, String>) -> (r: Result<
        Scanner,
        ScanError,
    >)
        ensures
            match root {
                Ok(entries) => r matches Ok(s) && s.wf() && s@ == (ScanView {
                    ignores: texts(ignores@),
                    open: seq![entries_of(entries@)],
                    lines: Seq::<Seq<char>>::empty(),
                    waiting: false,
                }),
                Err(cause) => r matches Err(ScanError::RootUnreadable(c)) && c@ == cause@,
            },
    {
        match root {
            Ok(entries) => {
                let ghost all = entries_of(entries@);
                let mut stack: Vec<Frame> = Vec::new();
                stack.push(Frame { entries, next: 0 });
                let s = Scanner { ignores, stack, lines: Vec::new(), waiting: false };
                proof {
                    assert(s.stack[0].rest() =~= all);
                    assert(s@.open =~= seq![all]);
                    assert(s@.lines =~= Seq::<Seq<char>>::empty());
                }
                Ok(s)
            },
            Err(cause) => Err(ScanError::RootUnreadable(cause)),
        }
    }

    /// Whether a directory has been asked for and its listing is awaited:
    /// then [`Scanner::enter`] is due, otherwise a step.
    pub fn is_waiting(&self) -> (b: bool)
        ensures
            b == self@.waiting,
    {
        self.waiting
    }

    /// Takes the outcome of reading the directory that the last step asked
    /// for. A directory that could not be read contributes nothing below
    /// its own line, and the scan goes on with its siblings.
    pub fn enter(&mut self, listing: Option<Vec<DirEntry>>)
        requires
            old(self).wf(),
            old(self)@.waiting,
        ensures
            final(self).wf(),
            final(self)@ == enter_of(
                old(self)@,
                match listing {
                    Some(l) => Some(entries_of(l@)),
                    None => None,
                },
            ),
    {
        self.waiting = false;
        match listing {
            Some(entries) => {
                let ghost all = entries_of(entries@);
                self.stack.push(Frame { entries, next: 0 });
                proof {
                    assert(self.stack[self.stack.len() - 1].rest() =~= all);
                    assert(self@.open =~= old(self)@.open.push(all));
                }
            },
            None => {},
        }
    }

    /// Looks at the next entry of the innermost open directory, or closes
    /// that directory if none is left.
    pub fn step(&mut self) -> (r: Step)
        requires
            old(self).wf(),
            !old(self)@.waiting,
        ensures
            final(self).wf(),
            (final(self)@, r@) == step_of(old(self)@),
    {
        let n = self.stack.len();
        if n == 0 {
            return Step::Done;
        }
        let depth: usize = n - 1;
        let next: usize = self.stack[depth].next;
        if next >= self.stack[depth].entries.len() {
            self.stack.pop();
            proof {
                assert(old(self)@.open.last() =~= Seq::<EntryView>::empty());
                assert(self@.open =~= old(self)@.open.drop_last());
            }
            return Step::More;
        }
        let hidden = is_ignored(self.stack[depth].entries[next].path.as_str(), &self.ignores);
        let mut asked = Step::More;
        if !hidden {
            let line = entry_line(depth, &self.stack[depth].entries[next]);
            if self.stack[depth].entries[next].is_dir {
                asked = Step::Open(self.stack[depth].entries[next].path.clone());
                self.waiting = true;
            }
            self.lines.push(line);
        }
        let frame = self.stack.pop().unwrap();
        let ghost before = frame.rest();
        let moved = Frame { entries: frame.entries, next: next + 1 };
        proof {
            assert(moved.rest() =~= before.drop_first());
            assert(before.first() == frame.entries[next as int]@);
        }
        self.stack.push(moved);
        proof {
            assert(old(self)@.open.last() == before);
            assert(self@.open =~= old(self)@.open.update(depth as int, before.drop_first()));
            if !hidden {
                assert(self@.lines =~= old(self)@.lines.push(
                    line_of(depth as nat, before.first()),
                ));
            }
        }
        asked
    }

    /// Steps until a directory has to be read, and returns its path, or
    /// until the listing is complete, and returns `None`.
    pub fn advance(&mut self) -> (r: Option<String>)
        requires
            old(self).wf(),
            !old(self)@.waiting,
        ensures
            final(self).wf(),
            final(self)@.waiting == r.is_some(),
            final(self)@ == settle_of(old(self)@).0,
            match r {
                Some(p) => settle_of(old(self)@).1 == Some(p@),
                None => settle_of(old(self)@).1.is_none(),
            },
    {
        loop
            invariant
                self.wf(),
                !self@.waiting,
                settle_of(self@) == settle_of(old(self)@),
            decreases
                    self@.open.len(),
                    (if self@.open.len() > 0 {
                        self@.open.last().len()
                    } else {
                        0
                    }),
        {
            match self.step() {
                Step::Open(p) => {
                    return Some(p);
                },
                Step::Done => {
                    return None;
                },
                Step::More => {},
            }
        }
    }

    /// The lines produced so far.
    pub fn lines(&self) -> (r: &Vec<String>)
        ensures
            texts(r@) == self@.lines,
    {
        &self.lines
    }

    /// Ends the scan and hands out the lines produced.
    pub fn finish(self) -> (r: Vec<String>)
        ensures
            texts(r@) == self@.lines,
    {
        self.lines
    }
}

} // verus!
