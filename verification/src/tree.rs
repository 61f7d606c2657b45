//! What a scan lists, stated over a directory tree.
//!
//! A [`Tree`] is an entry together with what reading it as a directory
//! gives. [`listing_of`] says which lines a forest of such trees is shown
//! with. The laws below say what that listing holds, and that a scanner
//! whose requests are answered from a tree produces exactly this listing.

use vstd::prelude::*;
use crate::ignore::ignored;
use crate::scan::{enter_of, line_of, settle_of, step_of, EntryView, ScanView, StepView};
use crate::text::{indent_of, lemma_indent_shape};

verus! {

/// An entry and what lies below it: the trees of its own entries, or `None`
/// where it cannot be read as a directory.
pub struct Tree {
    pub entry: EntryView,
    pub below: Option<Seq<Tree>>,
}

/// The entries at the top of a forest.
pub open spec fn roots_of(forest: Seq<Tree>) -> Seq<EntryView> {
    Seq::new(forest.len(), |i: int| forest[i].entry)
}

/// The lines for what lies below `t`, whose own line stands at `depth`:
/// the listing of its entries one level deeper, if it is a directory that
/// can be read.
pub open spec fn below_of(t: Tree, depth: nat, ignores: Seq<Seq<char>>) -> Seq<Seq<char>>
    decreases t, 0nat,
{
    if t.entry.is_dir {
        match t.below {
            Some(inner) => listing_of(inner, depth + 1, ignores),
            None => Seq::<Seq<char>>::empty(),
        }
    } else {
        Seq::<Seq<char>>::empty()
    }
}

/// The lines that `t` contributes at `depth`: none if it is ignored, else
/// its own line followed by the lines for what lies below it.
pub open spec fn own_of(t: Tree, depth: nat, ignores: Seq<Seq<char>>) -> Seq<Seq<char>>
    decreases t, 1nat,
{
    if ignored(t.entry.path, ignores) {
        Seq::<Seq<char>>::empty()
    } else {
        seq![line_of(depth, t.entry)] + below_of(t, depth, ignores)
    }
}

/// The listing of a forest whose top entries stand at `depth`: what each
/// tree contributes, in the order of the forest.
pub open spec fn listing_of(forest: Seq<Tree>, depth: nat, ignores: Seq<Seq<char>>) -> Seq<
    Seq<char>,
>
    decreases forest, 2nat,
{
    if forest.len() == 0 {
        Seq::<Seq<char>>::empty()
    } else {
        own_of(forest.first(), depth, ignores) + listing_of(forest.drop_first(), depth, ignores)
    }
}

/// The listing of two forests, one after the other, is the listing of the
/// two taken as one.
pub proof fn lemma_listing_concat(
    a: Seq<Tree>,
    b: Seq<Tree>,
    depth: nat,
    ignores: Seq<Seq<char>>,
)
    ensures
        listing_of(a + b, depth, ignores) == listing_of(a, depth, ignores) + listing_of(
            b,
            depth,
            ignores,
        ),
    decreases a.len(),
{
    if a.len() == 0 {
        assert(a + b =~= b);
        assert(listing_of(a, depth, ignores) + listing_of(b, depth, ignores) =~= listing_of(
            b,
            depth,
            ignores,
        ));
    } else {
        lemma_listing_concat(a.drop_first(), b, depth, ignores);
        assert((a + b).drop_first() =~= a.drop_first() + b);
        assert((a + b).first() == a.first());
        assert(listing_of(a + b, depth, ignores) =~= listing_of(a, depth, ignores) + listing_of(
            b,
            depth,
            ignores,
        ));
    }
}

/// The listing splits at every tree: first what stands before it, then what
/// the tree contributes, then what stands after it.
pub proof fn lemma_listing_split(forest: Seq<Tree>, i: int, depth: nat, ignores: Seq<Seq<char>>)
    requires
        0 <= i < forest.len(),
    ensures
        listing_of(forest, depth, ignores) == listing_of(forest.take(i), depth, ignores) + own_of(
            forest[i],
            depth,
            ignores,
        ) + listing_of(forest.skip(i + 1), depth, ignores),
{
    let tail = forest.skip(i);
    assert(forest.take(i) + tail =~= forest);
    lemma_listing_concat(forest.take(i), tail, depth, ignores);
    assert(tail.first() == forest[i]);
    assert(tail.drop_first() =~= forest.skip(i + 1));
    assert(listing_of(forest, depth, ignores) =~= listing_of(forest.take(i), depth, ignores)
        + own_of(forest[i], depth, ignores) + listing_of(forest.skip(i + 1), depth, ignores));
}

/// Pruning is total: an entry that an ignore rule matches contributes no
/// line, whatever lies below it, at whatever depth it stands. The listing
/// is the one of the forest without that tree.
pub proof fn law_ignored_tree_is_absent(
    forest: Seq<Tree>,
    i: int,
    depth: nat,
    ignores: Seq<Seq<char>>,
)
    requires
        0 <= i < forest.len(),
        ignored(forest[i].entry.path, ignores),
    ensures
        own_of(forest[i], depth, ignores) == Seq::<Seq<char>>::empty(),
        listing_of(forest, depth, ignores) == listing_of(forest.remove(i), depth, ignores),
{
    lemma_listing_split(forest, i, depth, ignores);
    lemma_listing_concat(forest.take(i), forest.skip(i + 1), depth, ignores);
    assert(forest.remove(i) =~= forest.take(i) + forest.skip(i + 1));
    assert(listing_of(forest, depth, ignores) =~= listing_of(forest.remove(i), depth, ignores));
}

/// Nothing that is kept gets lost or doubled: an entry that no ignore rule
/// matches has exactly one line of its own. It stands after everything that
/// its earlier siblings contribute, directly before the lines for what lies
/// below it, which are listed one level deeper, and before everything that
/// its later siblings contribute.
pub proof fn law_kept_entry_has_one_line(
    forest: Seq<Tree>,
    i: int,
    depth: nat,
    ignores: Seq<Seq<char>>,
)
    requires
        0 <= i < forest.len(),
        !ignored(forest[i].entry.path, ignores),
    ensures
        listing_of(forest, depth, ignores) == listing_of(forest.take(i), depth, ignores)
            + seq![line_of(depth, forest[i].entry)] + below_of(forest[i], depth, ignores)
            + listing_of(forest.skip(i + 1), depth, ignores),
        forest[i].entry.is_dir && forest[i].below.is_some() ==> below_of(
            forest[i],
            depth,
            ignores,
        ) == listing_of(forest[i].below.unwrap(), depth + 1, ignores),
{
    lemma_listing_split(forest, i, depth, ignores);
    assert(listing_of(forest, depth, ignores) =~= listing_of(forest.take(i), depth, ignores)
        + seq![line_of(depth, forest[i].entry)] + below_of(forest[i], depth, ignores)
        + listing_of(forest.skip(i + 1), depth, ignores));
}

/// Indentation reflects depth: the line of an entry at nesting depth
/// `depth` begins with `depth` units of two spaces each, and what follows
/// them is the entry's name, closed by `/` for a directory.
pub proof fn law_indentation_is_depth(depth: nat, e: EntryView)
    ensures
        line_of(depth, e).len() >= 2 * depth,
        line_of(depth, e).take(2 * (depth as int)) == indent_of(depth),
        forall|i: int| 0 <= i < 2 * depth ==> line_of(depth, e)[i] == ' ',
        line_of(depth, e).skip(2 * (depth as int)) == line_of(0, e),
        line_of(0, e) == e.name + (if e.is_dir {
            seq!['/']
        } else {
            Seq::<char>::empty()
        }),
{
    lemma_indent_shape(depth);
    assert(line_of(depth, e).take(2 * (depth as int)) =~= indent_of(depth));
    assert(line_of(depth, e).skip(2 * (depth as int)) =~= line_of(0, e));
    assert(line_of(0, e) =~= e.name + (if e.is_dir {
        seq!['/']
    } else {
        Seq::<char>::empty()
    }));
}

/// The entries still to be looked at in each open directory, when the open
/// directories hold the forests `levels`, outermost first.
pub open spec fn opened_of(levels: Seq<Seq<Tree>>) -> Seq<Seq<EntryView>> {
    Seq::new(levels.len(), |i: int| roots_of(levels[i]))
}

/// The scanner state with the forests `levels` open and `lines` produced,
/// awaiting no listing.
pub open spec fn state_of(
    levels: Seq<Seq<Tree>>,
    lines: Seq<Seq<char>>,
    ignores: Seq<Seq<char>>,
) -> ScanView {
    ScanView { ignores, open: opened_of(levels), lines, waiting: false }
}

/// The lines still to come when the forests `levels` are open: the listing
/// of the innermost one at its depth, then that of the next one out, and so
/// on.
pub open spec fn pending_of(levels: Seq<Seq<Tree>>, ignores: Seq<Seq<char>>) -> Seq<Seq<char>>
    decreases levels.len(),
{
    if levels.len() == 0 {
        Seq::<Seq<char>>::empty()
    } else {
        listing_of(levels.last(), (levels.len() - 1) as nat, ignores) + pending_of(
            levels.drop_last(),
            ignores,
        )
    }
}

/// What reading `t` as a directory gives the scanner.
pub open spec fn answer_of(t: Tree) -> Option<Seq<EntryView>> {
    match t.below {
        Some(inner) => Some(roots_of(inner)),
        None => None,
    }
}

/// One round of a scan over a tree: a step and, where the step asks for a
/// directory, the answer taken from the tree at the front of the innermost
/// open forest.
pub open spec fn round_of(s: ScanView, levels: Seq<Seq<Tree>>) -> ScanView {
    let (t, asked) = step_of(s);
    match asked {
        StepView::Open(_) => enter_of(t, answer_of(levels.last().first())),
        _ => t,
    }
}

/// The forests that are open after one round.
pub open spec fn levels_after(levels: Seq<Seq<Tree>>, ignores: Seq<Seq<char>>) -> Seq<Seq<Tree>> {
    if levels.len() == 0 {
        levels
    } else if levels.last().len() == 0 {
        levels.drop_last()
    } else {
        let t = levels.last().first();
        let rest = levels.update(levels.len() - 1, levels.last().drop_first());
        if !ignored(t.entry.path, ignores) && t.entry.is_dir && t.below.is_some() {
            rest.push(t.below.unwrap())
        } else {
            rest
        }
    }
}

/// The scanner state after `rounds` rounds over a tree.
pub open spec fn run_of(s: ScanView, levels: Seq<Seq<Tree>>, rounds: nat) -> ScanView
    decreases rounds,
{
    if rounds == 0 {
        s
    } else {
        run_of(round_of(s, levels), levels_after(levels, s.ignores), (rounds - 1) as nat)
    }
}

/// The forests that are open after `rounds` rounds.
pub open spec fn levels_run(levels: Seq<Seq<Tree>>, ignores: Seq<Seq<char>>, rounds: nat) -> Seq<
    Seq<Tree>,
>
    decreases rounds,
{
    if rounds == 0 {
        levels
    } else {
        levels_run(levels_after(levels, ignores), ignores, (rounds - 1) as nat)
    }
}

/// One round keeps the scanner in line with the tree: its open directories
/// are the forests that remain, and the lines produced together with the
/// lines still to come are the same before and after.
pub proof fn lemma_round_follows_tree(
    levels: Seq<Seq<Tree>>,
    lines: Seq<Seq<char>>,
    ignores: Seq<Seq<char>>,
)
    ensures
        round_of(state_of(levels, lines, ignores), levels) == state_of(
            levels_after(levels, ignores),
            round_of(state_of(levels, lines, ignores), levels).lines,
            ignores,
        ),
        round_of(state_of(levels, lines, ignores), levels).lines + pending_of(
            levels_after(levels, ignores),
            ignores,
        ) == lines + pending_of(levels, ignores),
{
    let s = state_of(levels, lines, ignores);
    let r = round_of(s, levels);
    let next = levels_after(levels, ignores);
    if levels.len() == 0 {
        assert(r.open =~~= opened_of(next));
    } else if levels.last().len() == 0 {
        assert(s.open.last().len() == 0);
        assert(r.open =~~= opened_of(next));
        assert(r.lines + pending_of(next, ignores) =~= lines + pending_of(levels, ignores));
    } else {
        let d = (levels.len() - 1) as nat;
        let top = levels.last();
        let t = top.first();
        let rest = levels.update(d as int, top.drop_first());
        assert(s.open.last() == roots_of(top));
        assert(s.open.last().first() == t.entry);
        assert(roots_of(top).drop_first() =~= roots_of(top.drop_first()));
        assert(s.open.update(d as int, s.open.last().drop_first()) =~~= opened_of(rest));
        assert(rest.drop_last() =~= levels.drop_last());
        assert(rest.last() == top.drop_first());
        assert(pending_of(rest, ignores) == listing_of(top.drop_first(), d, ignores) + pending_of(
            levels.drop_last(),
            ignores,
        ));
        let after = listing_of(top.drop_first(), d, ignores);
        let outer = pending_of(levels.drop_last(), ignores);
        assert(listing_of(top, d, ignores) == own_of(t, d, ignores) + after);
        assert(pending_of(levels, ignores) == own_of(t, d, ignores) + after + outer);
        if ignored(t.entry.path, ignores) {
            assert(next == rest);
            assert(r.open =~~= opened_of(next));
            assert(r.lines == lines);
            assert(own_of(t, d, ignores) =~= Seq::<Seq<char>>::empty());
            assert(r.lines + pending_of(next, ignores) =~= lines + pending_of(levels, ignores));
        } else if t.entry.is_dir && t.below.is_some() {
            let inner = t.below.unwrap();
            assert(next == rest.push(inner));
            assert(next.drop_last() =~= rest);
            assert(next.last() == inner);
            assert(opened_of(rest).push(roots_of(inner)) =~~= opened_of(next));
            assert(r.open =~~= opened_of(next));
            assert(r.lines == lines.push(line_of(d, t.entry)));
            assert(below_of(t, d, ignores) == listing_of(inner, d + 1, ignores));
            assert(pending_of(next, ignores) == listing_of(inner, d + 1, ignores) + pending_of(
                rest,
                ignores,
            ));
            assert(r.lines + pending_of(next, ignores) =~= lines + pending_of(levels, ignores));
        } else {
            assert(next == rest);
            assert(r.open =~~= opened_of(next));
            assert(r.lines == lines.push(line_of(d, t.entry)));
            assert(below_of(t, d, ignores) =~= Seq::<Seq<char>>::empty());
            assert(r.lines + pending_of(next, ignores) =~= lines + pending_of(levels, ignores));
        }
    }
}

/// Any number of rounds keeps the scanner in line with the tree.
pub proof fn lemma_run_follows_tree(
    levels: Seq<Seq<Tree>>,
    lines: Seq<Seq<char>>,
    ignores: Seq<Seq<char>>,
    rounds: nat,
)
    ensures
        run_of(state_of(levels, lines, ignores), levels, rounds).open == opened_of(
            levels_run(levels, ignores, rounds),
        ),
        run_of(state_of(levels, lines, ignores), levels, rounds).lines + pending_of(
            levels_run(levels, ignores, rounds),
            ignores,
        ) == lines + pending_of(levels, ignores),
    decreases rounds,
{
    if rounds > 0 {
        let s = state_of(levels, lines, ignores);
        let r = round_of(s, levels);
        lemma_round_follows_tree(levels, lines, ignores);
        lemma_run_follows_tree(
            levels_after(levels, ignores),
            r.lines,
            ignores,
            (rounds - 1) as nat,
        );
    }
}

/// The number of rounds that stepping from `s` takes until a directory has
/// to be read or the listing is complete; the round that reads a directory
/// counts, the step that finds the listing complete does not.
pub open spec fn settle_rounds(s: ScanView) -> nat
    decreases s.open.len(), (if s.open.len() > 0 {
            s.open.last().len()
        } else {
            0
        }),
{
    let (t, asked) = step_of(s);
    match asked {
        StepView::Done => 0,
        StepView::Open(_) => 1,
        StepView::More => 1 + settle_rounds(t),
    }
}

/// Stepping until a directory has to be read, and then taking the answer
/// from the tree, is a number of rounds; so is stepping until the listing
/// is complete, and then no directory is open any more. The directory
/// asked for is the one at the front of the innermost forest open at that
/// moment.
pub proof fn law_advance_is_rounds(
    levels: Seq<Seq<Tree>>,
    lines: Seq<Seq<char>>,
    ignores: Seq<Seq<char>>,
)
    ensures
        ({
            let s = state_of(levels, lines, ignores);
            let (t, asked) = settle_of(s);
            let rounds = settle_rounds(s);
            match asked {
                None => t == run_of(s, levels, rounds) && t.open.len() == 0,
                Some(path) => {
                    let before = levels_run(levels, ignores, (rounds - 1) as nat);
                    &&& rounds > 0
                    &&& before.len() > 0
                    &&& before.last().len() > 0
                    &&& path == before.last().first().entry.path
                    &&& enter_of(t, answer_of(before.last().first())) == run_of(s, levels, rounds)
                },
            }
        }),
    decreases levels.len(), (if levels.len() > 0 {
            levels.last().len()
        } else {
            0
        }),
{
    let s = state_of(levels, lines, ignores);
    let (t, asked) = step_of(s);
    if levels.len() > 0 {
        assert(s.open.last() == roots_of(levels.last()));
    }
    match asked {
        StepView::Done => {},
        StepView::Open(_) => {
            assert(run_of(round_of(s, levels), levels_after(levels, ignores), 0) == round_of(
                s,
                levels,
            ));
        },
        StepView::More => {
            lemma_round_follows_tree(levels, lines, ignores);
            let next = levels_after(levels, ignores);
            assert(t == round_of(s, levels));
            assert(t == state_of(next, t.lines, ignores));
            assert(t.open == opened_of(next));
            if next.len() > 0 {
                assert(t.open.last() == roots_of(next.last()));
            }
            law_advance_is_rounds(next, t.lines, ignores);
            let rounds = settle_rounds(s);
            assert(rounds == 1 + settle_rounds(t));
            assert(run_of(s, levels, rounds) == run_of(t, next, settle_rounds(t)));
            if settle_of(s).1.is_some() {
                assert(levels_run(levels, ignores, (rounds - 1) as nat) == levels_run(
                    next,
                    ignores,
                    (settle_rounds(t) - 1) as nat,
                ));
            }
        },
    }
}

/// A scan lists the tree it walks: start on the entries of the root and
/// answer every request from the tree; then at every moment the lines
/// produced are the beginning of the listing of the tree at depth 0, and
/// once no directory is open any more they are that listing.
pub proof fn law_scan_lists_tree(root: Seq<Tree>, ignores: Seq<Seq<char>>, rounds: nat)
    ensures
        ({
            let start = ScanView {
                ignores,
                open: seq![roots_of(root)],
                lines: Seq::<Seq<char>>::empty(),
                waiting: false,
            };
            let end = run_of(start, seq![root], rounds);
            &&& end.lines.is_prefix_of(listing_of(root, 0, ignores))
            &&& end.open.len() == 0 ==> end.lines == listing_of(root, 0, ignores)
        }),
{
    let levels = seq![root];
    let none = Seq::<Seq<char>>::empty();
    let start = ScanView { ignores, open: seq![roots_of(root)], lines: none, waiting: false };
    assert(start.open =~~= opened_of(levels));
    assert(start == state_of(levels, none, ignores));
    lemma_run_follows_tree(levels, none, ignores, rounds);
    let end = run_of(start, levels, rounds);
    let left = levels_run(levels, ignores, rounds);
    assert(levels.drop_last() =~= Seq::<Seq<Tree>>::empty());
    assert(pending_of(levels.drop_last(), ignores) =~= none);
    assert(levels.last() == root);
    assert(none + pending_of(levels, ignores) =~= listing_of(root, 0, ignores));
    assert(end.lines + pending_of(left, ignores) == listing_of(root, 0, ignores));
    assert(end.lines =~= listing_of(root, 0, ignores).subrange(0, end.lines.len() as int));
    if end.open.len() == 0 {
        assert(left.len() == 0);
        assert(end.lines =~= listing_of(root, 0, ignores));
    }
}

} // verus!
