use vstd::prelude::*;
use crate::totals::{add_total, total_of};

verus! {

/// What a path of the walked tree is, read without following symbolic links.
#[derive(Debug, PartialEq, Eq, Structural, Clone, Copy)]
pub enum EntryKind {
    File,
    Dir,
    /// Anything else, symbolic links included.
    Other,
}

/// What the walk does with a path.
#[derive(Debug, PartialEq, Eq, Structural, Clone, Copy)]
pub enum Visit {
    /// Count the lines of the file.
    Count,
    /// Walk each entry of the directory, at the given depth.
    Descend(usize),
    /// Leave the path alone.
    Skip,
}

/// What the walk does with a path of kind `kind` at `depth` under the limit `max_depth`.
pub open spec fn visit_spec(kind: EntryKind, depth: nat, max_depth: nat) -> Visit {
    match kind {
        EntryKind::File => Visit::Count,
        EntryKind::Dir => if depth >= max_depth {
            Visit::Skip
        } else {
            Visit::Descend((depth + 1) as usize)
        },
        EntryKind::Other => Visit::Skip,
    }
}

/// What the walk does with a path at `depth` (the root is at depth 0) when it may go
/// `max_depth` levels below the root: files are counted, directories above the limit
/// are entered, and everything else (deeper directories, links, devices) is left alone.
pub fn visit(kind: EntryKind, depth: usize, max_depth: usize) -> (v: Visit)
    ensures
        kind == EntryKind::File ==> v == Visit::Count,
        kind == EntryKind::Dir && depth < max_depth ==> v == Visit::Descend((depth + 1) as usize),
        kind == EntryKind::Dir && depth >= max_depth ==> v == Visit::Skip,
        kind == EntryKind::Other ==> v == Visit::Skip,
        // The entries of a directory never lie deeper than the limit.
        v matches Visit::Descend(d) ==> d <= max_depth,
        v == visit_spec(kind, depth as nat, max_depth as nat),
{
    match kind {
        EntryKind::File => Visit::Count,
        EntryKind::Dir => {
            if depth >= max_depth {
                Visit::Skip
            } else {
                Visit::Descend(depth + 1)
            }
        },
        EntryKind::Other => Visit::Skip,
    }
}


// ---------------------------------------------------------------------------
// A model of the walk over a directory tree, and its laws.
// ---------------------------------------------------------------------------

/// A directory tree as the walk sees it.
pub enum DirTree {
    /// A file, and what counting it gives: its language's name and its lines with code,
    /// or nothing when no language has its extension.
    File(Option<(Seq<char>, nat)>),
    /// A directory and its entries.
    Dir(Seq<DirTree>),
    /// Anything else: a symbolic link, a device.
    Other,
}

/// The totals after walking `t`, found at `depth` under the limit `max_depth`, into `acc`:
/// each path is handled as `visit` decides, a counted file adds its lines to its
/// language's total, and a directory's entries are walked in order.
pub open spec fn walk_tree(t: DirTree, max_depth: nat, depth: nat, acc: Map<Seq<char>, nat>) -> Map<Seq<char>, nat>
    decreases t, 0int,
{
    match t {
        DirTree::File(counted) => match counted {
            Some(c) => add_total(acc, c.0, c.1),
            None => acc,
        },
        DirTree::Dir(entries) => match visit_spec(EntryKind::Dir, depth, max_depth) {
            Visit::Descend(_) => walk_entries(entries, max_depth, depth + 1, acc, 0),
            _ => acc,
        },
        DirTree::Other => acc,
    }
}

/// The totals after walking `entries[i..]`, each at `depth`, into `acc`.
pub open spec fn walk_entries(entries: Seq<DirTree>, max_depth: nat, depth: nat, acc: Map<Seq<char>, nat>, i: int) -> Map<Seq<char>, nat>
    decreases entries, entries.len() - i,
{
    if 0 <= i < entries.len() {
        walk_entries(entries, max_depth, depth, walk_tree(entries[i], max_depth, depth, acc), i + 1)
    } else {
        acc
    }
}

/// `a`'s totals are in `b`, none of them larger.
pub open spec fn totals_le(a: Map<Seq<char>, nat>, b: Map<Seq<char>, nat>) -> bool {
    &&& forall|k: Seq<char>| a.dom().contains(k) ==> #[trigger] b.dom().contains(k)
    &&& forall|k: Seq<char>| #[trigger] total_of(a, k) <= total_of(b, k)
}

/// A walk adds its counts to the totals it starts from and overwrites none: the totals
/// after it are those before plus those of the same walk from no totals.
pub proof fn lemma_walk_adds(t: DirTree, max_depth: nat, depth: nat, acc: Map<Seq<char>, nat>)
    ensures
        forall|k: Seq<char>| #[trigger] walk_tree(t, max_depth, depth, acc).dom().contains(k)
            <==> acc.dom().contains(k) || walk_tree(t, max_depth, depth, Map::empty()).dom().contains(k),
        forall|k: Seq<char>| #[trigger] total_of(walk_tree(t, max_depth, depth, acc), k)
            == total_of(acc, k) + total_of(walk_tree(t, max_depth, depth, Map::empty()), k),
    decreases t, 0int,
{
    match t {
        DirTree::Dir(entries) => {
            if depth < max_depth {
                assert(walk_tree(t, max_depth, depth, acc) == walk_entries(entries, max_depth, depth + 1, acc, 0));
                assert(walk_tree(t, max_depth, depth, Map::empty()) == walk_entries(entries, max_depth, depth + 1, Map::empty(), 0));
                lemma_entries_add(entries, max_depth, depth + 1, acc, 0);
            } else {
                assert(walk_tree(t, max_depth, depth, acc) == acc);
                assert(walk_tree(t, max_depth, depth, Map::empty()) == Map::<Seq<char>, nat>::empty());
            }
        },
        DirTree::File(counted) => {
            if counted is Some {
                let c = counted->0;
                let m0 = Map::<Seq<char>, nat>::empty();
                assert(walk_tree(t, max_depth, depth, acc) == add_total(acc, c.0, c.1));
                assert(walk_tree(t, max_depth, depth, m0) == add_total(m0, c.0, c.1));
                assert forall|k: Seq<char>| #[trigger] total_of(walk_tree(t, max_depth, depth, acc), k)
                    == total_of(acc, k) + total_of(walk_tree(t, max_depth, depth, m0), k) by {
                    if k == c.0 {
                    } else {
                    }
                }
            }
        },
        DirTree::Other => {},
    }
}

/// Walking entries adds to the totals it starts from.
pub proof fn lemma_entries_add(entries: Seq<DirTree>, max_depth: nat, depth: nat, acc: Map<Seq<char>, nat>, i: int)
    ensures
        forall|k: Seq<char>| #[trigger] walk_entries(entries, max_depth, depth, acc, i).dom().contains(k)
            <==> acc.dom().contains(k) || walk_entries(entries, max_depth, depth, Map::empty(), i).dom().contains(k),
        forall|k: Seq<char>| #[trigger] total_of(walk_entries(entries, max_depth, depth, acc, i), k)
            == total_of(acc, k) + total_of(walk_entries(entries, max_depth, depth, Map::empty(), i), k),
    decreases entries, entries.len() - i,
{
    if 0 <= i < entries.len() {
        let e = entries[i];
        let here = walk_tree(e, max_depth, depth, acc);
        let here0 = walk_tree(e, max_depth, depth, Map::empty());
        let m0 = Map::<Seq<char>, nat>::empty();
        lemma_walk_adds(e, max_depth, depth, acc);
        lemma_entries_add(entries, max_depth, depth, here, i + 1);
        lemma_entries_add(entries, max_depth, depth, here0, i + 1);
        assert(walk_entries(entries, max_depth, depth, acc, i) == walk_entries(entries, max_depth, depth, here, i + 1));
        assert(walk_entries(entries, max_depth, depth, m0, i) == walk_entries(entries, max_depth, depth, here0, i + 1));
        assert forall|k: Seq<char>| #[trigger] walk_entries(entries, max_depth, depth, acc, i).dom().contains(k)
            <==> acc.dom().contains(k) || walk_entries(entries, max_depth, depth, m0, i).dom().contains(k) by {
            assert(here.dom().contains(k) <==> acc.dom().contains(k) || here0.dom().contains(k));
            assert(walk_entries(entries, max_depth, depth, here, i + 1).dom().contains(k) <==> here.dom().contains(k)
                || walk_entries(entries, max_depth, depth, m0, i + 1).dom().contains(k));
            assert(walk_entries(entries, max_depth, depth, here0, i + 1).dom().contains(k) <==> here0.dom().contains(k)
                || walk_entries(entries, max_depth, depth, m0, i + 1).dom().contains(k));
        }
        assert forall|k: Seq<char>| #[trigger] total_of(walk_entries(entries, max_depth, depth, acc, i), k)
            == total_of(acc, k) + total_of(walk_entries(entries, max_depth, depth, m0, i), k) by {
            assert(total_of(here, k) == total_of(acc, k) + total_of(here0, k));
            assert(total_of(walk_entries(entries, max_depth, depth, here, i + 1), k) == total_of(here, k)
                + total_of(walk_entries(entries, max_depth, depth, m0, i + 1), k));
            assert(total_of(walk_entries(entries, max_depth, depth, here0, i + 1), k) == total_of(here0, k)
                + total_of(walk_entries(entries, max_depth, depth, m0, i + 1), k));
        }
    }
}

/// A deeper limit never lowers a total and never drops a language.
pub proof fn lemma_walk_monotone(t: DirTree, d1: nat, d2: nat, depth: nat)
    requires
        d1 <= d2,
    ensures
        totals_le(walk_tree(t, d1, depth, Map::empty()), walk_tree(t, d2, depth, Map::empty())),
    decreases t, 0int,
{
    match t {
        DirTree::Dir(entries) => {
            if depth < d1 {
                lemma_entries_monotone(entries, d1, d2, depth + 1, 0);
            } else if depth < d2 {
                lemma_entries_add(entries, d2, depth + 1, Map::empty(), 0);
            }
        },
        _ => {},
    }
}

/// A deeper limit never lowers the totals of walking entries.
pub proof fn lemma_entries_monotone(entries: Seq<DirTree>, d1: nat, d2: nat, depth: nat, i: int)
    requires
        d1 <= d2,
    ensures
        totals_le(walk_entries(entries, d1, depth, Map::empty(), i), walk_entries(entries, d2, depth, Map::empty(), i)),
    decreases entries, entries.len() - i,
{
    if 0 <= i < entries.len() {
        let e = entries[i];
        let a1 = walk_tree(e, d1, depth, Map::empty());
        let a2 = walk_tree(e, d2, depth, Map::empty());
        lemma_walk_monotone(e, d1, d2, depth);
        lemma_entries_monotone(entries, d1, d2, depth, i + 1);
        lemma_entries_add(entries, d1, depth, a1, i + 1);
        lemma_entries_add(entries, d2, depth, a2, i + 1);
        let m0 = Map::<Seq<char>, nat>::empty();
        let w1 = walk_entries(entries, d1, depth, m0, i);
        let w2 = walk_entries(entries, d2, depth, m0, i);
        let r1 = walk_entries(entries, d1, depth, m0, i + 1);
        let r2 = walk_entries(entries, d2, depth, m0, i + 1);
        assert(w1 == walk_entries(entries, d1, depth, a1, i + 1));
        assert(w2 == walk_entries(entries, d2, depth, a2, i + 1));
        assert forall|k: Seq<char>| w1.dom().contains(k) implies #[trigger] w2.dom().contains(k) by {
            assert(walk_entries(entries, d1, depth, a1, i + 1).dom().contains(k) <==> a1.dom().contains(k) || r1.dom().contains(k));
            assert(walk_entries(entries, d2, depth, a2, i + 1).dom().contains(k) <==> a2.dom().contains(k) || r2.dom().contains(k));
            if a1.dom().contains(k) {
                assert(a2.dom().contains(k));
            } else {
                assert(r2.dom().contains(k));
            }
        }
        assert forall|k: Seq<char>| #[trigger] total_of(w1, k) <= total_of(w2, k) by {
            assert(total_of(walk_entries(entries, d1, depth, a1, i + 1), k) == total_of(a1, k) + total_of(r1, k));
            assert(total_of(walk_entries(entries, d2, depth, a2, i + 1), k) == total_of(a2, k) + total_of(r2, k));
            assert(total_of(a1, k) <= total_of(a2, k));
            assert(total_of(r1, k) <= total_of(r2, k));
        }
    }
}

/// The walk from the root at depth 0: a deeper limit gives every language at least the
/// same total, and a language found under the smaller limit is found under the larger.
pub proof fn lemma_deeper_limit_never_lowers(root: DirTree, d1: nat, d2: nat)
    requires
        d1 <= d2,
    ensures
        forall|k: Seq<char>| walk_tree(root, d1, 0, Map::empty()).dom().contains(k)
            ==> #[trigger] walk_tree(root, d2, 0, Map::empty()).dom().contains(k),
        forall|k: Seq<char>| #[trigger] total_of(walk_tree(root, d1, 0, Map::empty()), k)
            <= total_of(walk_tree(root, d2, 0, Map::empty()), k),
{
    lemma_walk_monotone(root, d1, d2, 0);
}
} // verus!
