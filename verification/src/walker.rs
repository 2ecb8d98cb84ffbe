//! The order in which the directories of a tree are visited, and the tally
//! of a run.
//!
//! The walker holds no path logic: a directory is whatever the caller uses to
//! name one. The caller lists a directory, carries out its plan, and reports
//! the subdirectories it found; the walker says which directory is next.

use vstd::prelude::*;

verus! {

/// A walk over a directory tree in progress.
///
/// A directory is visited before its subdirectories, these in the order in
/// which they were reported, and all of them before the directories that were
/// waiting already.
pub struct Walker<P> {
    /// The directories to visit, the next one last.
    pending: Vec<P>,
    /// The files archived so far.
    archived: usize,
}

/// The tally of archived files has left the range of `usize`.
#[derive(Clone, Copy, Debug, PartialEq, Eq, Structural)]
pub struct CountOverflow;

impl<P> Walker<P> {
    /// The directories still to visit, the next one first.
    pub closed spec fn queue(self) -> Seq<P> {
        self.pending@.reverse()
    }

    /// The number of files archived in the directories visited so far.
    pub closed spec fn archived(self) -> nat {
        self.archived as nat
    }

    /// A walk that starts at `root`, with nothing archived yet.
    pub fn new(root: P) -> (w: Walker<P>)
        ensures
            w.queue() == seq![root],
            w.archived() == 0,
    {
        let mut pending: Vec<P> = Vec::new();
        pending.push(root);
        proof {
            assert(pending@.reverse() =~= seq![root]);
        }
        Walker { pending, archived: 0 }
    }

    /// Takes the next directory to visit off the queue; `None` when the walk
    /// is over.
    pub fn next_directory(&mut self) -> (r: Option<P>)
        ensures
            final(self).archived() == old(self).archived(),
            match r {
                Some(dir) => {
                    &&& old(self).queue().len() > 0
                    &&& dir == old(self).queue()[0]
                    &&& final(self).queue() == old(self).queue().drop_first()
                },
                None => old(self).queue().len() == 0 && final(self).queue() == old(self).queue(),
            },
    {
        let r = self.pending.pop();
        proof {
            if r is Some {
                assert(self.pending@.reverse() =~= old(self).pending@.reverse().drop_first());
            }
        }
        r
    }

    /// The number of files archived so far.
    pub fn archived_total(&self) -> (n: usize)
        ensures
            n == self.archived(),
    {
        self.archived
    }

    /// Records that a directory has been dealt with: `archived` of its files
    /// went into bundles, and `subdirs` are its subdirectories.
    ///
    /// The subdirectories are visited next, in their order, ahead of what was
    /// waiting. A directory without files still hands on its subdirectories.
    /// If the tally would leave the range of `usize`, nothing is recorded.
    pub fn directory_done(&mut self, subdirs: Vec<P>, archived: usize) -> (r: Result<
        (),
        CountOverflow,
    >)
        ensures
            match r {
                Ok(()) => {
                    &&& final(self).queue() == subdirs@ + old(self).queue()
                    &&& final(self).archived() == old(self).archived() + archived
                },
                Err(_) => {
                    &&& old(self).archived() + archived > usize::MAX
                    &&& *final(self) == *old(self)
                },
            },
    {
        let total: usize = match self.archived.checked_add(archived) {
            Some(total) => total,
            None => {
                return Err(CountOverflow);
            },
        };
        self.archived = total;
        let ghost found = subdirs@;
        let mut rest = subdirs;
        while rest.len() > 0
            invariant
                self.archived == total,
                rest@ + self.pending@.reverse() == found + old(self).pending@.reverse(),
            decreases rest.len(),
        {
            let ghost pending_before = self.pending@;
            let ghost rest_before = rest@;
            let dir = rest.pop().unwrap();
            self.pending.push(dir);
            proof {
                assert(self.pending@.reverse() =~= seq![dir] + pending_before.reverse());
                assert(rest_before =~= rest@.push(dir));
                assert(rest@ + self.pending@.reverse() =~= rest_before + pending_before.reverse());
            }
        }
        proof {
            assert(self.pending@.reverse() =~= rest@ + self.pending@.reverse());
        }
        Ok(())
    }
}

/// The directories that a walk visits, in their order, when it starts with
/// `queue` and finds under each directory `dir` the subdirectories
/// `children(dir)`. The walk ends after `budget` visits at the latest.
pub open spec fn walk_order<P>(children: spec_fn(P) -> Seq<P>, queue: Seq<P>, budget: nat) -> Seq<P>
    decreases budget,
{
    if budget == 0 || queue.len() == 0 {
        Seq::empty()
    } else {
        seq![queue[0]] + walk_order(
            children,
            children(queue[0]) + queue.drop_first(),
            (budget - 1) as nat,
        )
    }
}

/// The tree below `dir`, down to `depth` levels below it, each directory ahead
/// of its subdirectories and these in their order.
pub open spec fn tree_order<P>(children: spec_fn(P) -> Seq<P>, dir: P, depth: nat) -> Seq<P>
    decreases depth, 0nat,
{
    if depth == 0 {
        seq![dir]
    } else {
        seq![dir] + forest_order(children, children(dir), (depth - 1) as nat)
    }
}

/// The trees below `dirs`, one after the other.
pub open spec fn forest_order<P>(children: spec_fn(P) -> Seq<P>, dirs: Seq<P>, depth: nat) -> Seq<P>
    decreases depth, dirs.len() + 1,
{
    if dirs.len() == 0 {
        Seq::empty()
    } else {
        tree_order(children, dirs[0], depth) + forest_order(children, dirs.drop_first(), depth)
    }
}

/// The tree below `dir` has no directory more than `depth` levels below it.
pub open spec fn tree_fits<P>(children: spec_fn(P) -> Seq<P>, dir: P, depth: nat) -> bool
    decreases depth,
{
    if depth == 0 {
        children(dir).len() == 0
    } else {
        forall|i: int|
            0 <= i < children(dir).len() ==> tree_fits(
                children,
                #[trigger] children(dir)[i],
                (depth - 1) as nat,
            )
    }
}

/// Each of the trees below `dirs` fits `depth` levels.
pub open spec fn forest_fits<P>(children: spec_fn(P) -> Seq<P>, dirs: Seq<P>, depth: nat) -> bool {
    forall|i: int| 0 <= i < dirs.len() ==> tree_fits(children, #[trigger] dirs[i], depth)
}

/// A tree that fits a depth fits every greater depth, and is listed alike
/// for both.
proof fn lemma_depth_to_spare<P>(children: spec_fn(P) -> Seq<P>, dir: P, depth: nat)
    requires
        tree_fits(children, dir, depth),
    ensures
        tree_fits(children, dir, depth + 1),
        tree_order(children, dir, depth + 1) == tree_order(children, dir, depth),
    decreases depth, 0nat,
{
    let below = children(dir);
    if depth == 0 {
        assert(forest_order(children, below, 0) =~= Seq::<P>::empty());
        assert(tree_order(children, dir, 1) =~= tree_order(children, dir, 0));
    } else {
        lemma_forest_depth_to_spare(children, below, (depth - 1) as nat);
    }
}

/// Trees that fit a depth fit every greater depth, and are listed alike for
/// both.
proof fn lemma_forest_depth_to_spare<P>(children: spec_fn(P) -> Seq<P>, dirs: Seq<P>, depth: nat)
    requires
        forest_fits(children, dirs, depth),
    ensures
        forest_fits(children, dirs, depth + 1),
        forest_order(children, dirs, depth + 1) == forest_order(children, dirs, depth),
    decreases depth, dirs.len() + 1,
{
    assert forall|i: int| 0 <= i < dirs.len() implies tree_fits(
        children,
        #[trigger] dirs[i],
        depth + 1,
    ) by {
        lemma_depth_to_spare(children, dirs[i], depth);
    }
    if dirs.len() > 0 {
        lemma_depth_to_spare(children, dirs[0], depth);
        assert forall|i: int| 0 <= i < dirs.drop_first().len() implies tree_fits(
            children,
            #[trigger] dirs.drop_first()[i],
            depth,
        ) by {
            assert(dirs.drop_first()[i] == dirs[i + 1]);
        }
        lemma_forest_depth_to_spare(children, dirs.drop_first(), depth);
    }
}

/// The listing of two rows of trees is the listing of the first row followed
/// by that of the second.
proof fn lemma_forest_order_of_both<P>(
    children: spec_fn(P) -> Seq<P>,
    first: Seq<P>,
    second: Seq<P>,
    depth: nat,
)
    ensures
        forest_order(children, first + second, depth) == forest_order(children, first, depth)
            + forest_order(children, second, depth),
    decreases first.len(),
{
    if first.len() == 0 {
        assert(first + second =~= second);
        assert(forest_order(children, first, depth) =~= Seq::<P>::empty());
        assert(forest_order(children, first + second, depth) =~= forest_order(
            children,
            first,
            depth,
        ) + forest_order(children, second, depth));
    } else {
        lemma_forest_order_of_both(children, first.drop_first(), second, depth);
        assert((first + second).drop_first() =~= first.drop_first() + second);
        assert((first + second)[0] == first[0]);
        assert(forest_order(children, first + second, depth) =~= forest_order(
            children,
            first,
            depth,
        ) + forest_order(children, second, depth));
    }
}

/// The walk goes through the trees parent first. Where the trees below the
/// queue are at most `depth` levels deep and the budget allows a visit to each
/// of their directories, the walk visits every directory once: each ahead of
/// its subdirectories, these in their order, and the whole tree below a
/// directory ahead of the directory that waited behind it.
pub proof fn lemma_walk_is_parent_first<P>(
    children: spec_fn(P) -> Seq<P>,
    queue: Seq<P>,
    depth: nat,
    budget: nat,
)
    requires
        forest_fits(children, queue, depth),
        budget >= forest_order(children, queue, depth).len(),
    ensures
        walk_order(children, queue, budget) == forest_order(children, queue, depth),
    decreases budget,
{
    if queue.len() == 0 {
    } else if budget == 0 {
        assert(tree_order(children, queue[0], depth).len() > 0);
    } else {
        let dir = queue[0];
        let below = children(dir);
        let rest = queue.drop_first();
        assert(tree_fits(children, dir, depth));
        assert forall|i: int| 0 <= i < rest.len() implies tree_fits(
            children,
            #[trigger] rest[i],
            depth,
        ) by {
            assert(rest[i] == queue[i + 1]);
        }
        if depth == 0 {
            assert(below + rest =~= rest);
        } else {
            lemma_forest_depth_to_spare(children, below, (depth - 1) as nat);
        }
        assert(forest_order(children, below, depth) == tree_order(children, dir, depth).drop_first())
            by {
            if depth == 0 {
                assert(forest_order(children, below, depth) =~= Seq::<P>::empty());
                assert(tree_order(children, dir, depth).drop_first() =~= Seq::<P>::empty());
            } else {
                assert(tree_order(children, dir, depth).drop_first() =~= forest_order(
                    children,
                    below,
                    (depth - 1) as nat,
                ));
            }
        }
        lemma_forest_order_of_both(children, below, rest, depth);
        assert forall|i: int| 0 <= i < (below + rest).len() implies tree_fits(
            children,
            #[trigger] (below + rest)[i],
            depth,
        ) by {
            if i < below.len() {
                assert((below + rest)[i] == below[i]);
            } else {
                assert((below + rest)[i] == rest[i - below.len()]);
            }
        }
        lemma_walk_is_parent_first(children, below + rest, depth, (budget - 1) as nat);
        assert(walk_order(children, queue, budget) =~= forest_order(children, queue, depth));
    }
}

} // verus!
