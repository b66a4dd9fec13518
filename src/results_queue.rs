use vstd::prelude::*;

use crate::buffer::{is_least, least_index, Placed};
use crate::channel::{clone_sender, send, try_recv, unbounded, QueueClosed, Received};
use crate::index_path::{
    lemma_first_difference,
    lemma_path_lt_total,
    lemma_prefix_precedes,
    path_le,
    path_lt,
    IndexPath,
};
use crate::tree::{in_tree, lemma_sorted_paths_unique, lemma_walk_start, lemma_walk_step, walk_state};

verus! {

/// The output of expanding one node: its ordinal path, how many children it
/// scheduled for expansion, and its payload.
pub struct DirList<T> {
    pub index_path: IndexPath,
    pub scheduled_read_dirs: usize,
    pub value: T,
}

impl<T> Placed for DirList<T> {
    open spec fn place(&self) -> Seq<usize> {
        self.index_path@
    }

    fn path(&self) -> (r: &IndexPath) {
        &self.index_path
    }
}

/// The counters after the one of the deepest open level is lowered by one.
pub open spec fn consumed(remaining: Seq<usize>) -> Seq<usize> {
    remaining.update(remaining.len() - 1, (remaining.last() - 1) as usize)
}

/// Where a walk goes after a node without children at the end of `target`,
/// with `remaining` its sibling counters once that node is counted: it keeps
/// the first `depth` levels, every level below them being exhausted, and moves
/// on to the next sibling at the deepest kept level.
pub open spec fn unwound(
    target: Seq<usize>,
    remaining: Seq<usize>,
    depth: int,
    next_target: Seq<usize>,
    next_remaining: Seq<usize>,
) -> bool {
    &&& 0 <= depth <= target.len()
    &&& next_target.len() == depth
    &&& forall|k: int| depth <= k < target.len() ==> #[trigger] remaining[k] == 0
    &&& next_remaining == remaining.subrange(0, depth)
    &&& depth > 0 ==> {
        &&& remaining[depth - 1] > 0
        &&& next_target == target.subrange(0, depth).update(depth - 1, (target[depth - 1] + 1) as usize)
    }
}

/// Which result is expected next: a target path, and for each open level of
/// it the number of siblings still to come at that level.
pub struct NextResultMatcher {
    looking_for_index_path: IndexPath,
    remaining_read_dirs: Vec<usize>,
}

impl NextResultMatcher {
    pub closed spec fn target(&self) -> Seq<usize> {
        self.looking_for_index_path@
    }

    pub closed spec fn remaining(&self) -> Seq<usize> {
        self.remaining_read_dirs@
    }

    /// One counter per level; the deepest counts the node looked for; no
    /// sibling index can run past `usize::MAX`.
    pub open spec fn wf(&self) -> bool {
        let t = self.target();
        let r = self.remaining();
        &&& t.len() == r.len()
        &&& t.len() > 0 ==> r.last() > 0
        &&& t.len() > 0 ==> t.last() + r.last() <= usize::MAX
        &&& forall|i: int| 0 <= i < t.len() - 1 ==> t[i] + r[i] < usize::MAX
    }

    /// Expects the single root, at path `[0]`.
    pub fn new() -> (r: NextResultMatcher)
        ensures
            r.wf(),
            r.target() == seq![0usize],
            r.remaining() == seq![1usize],
    {
        let r = NextResultMatcher {
            looking_for_index_path: IndexPath::with_vec(vec![0]),
            remaining_read_dirs: vec![1],
        };
        assert(r.target() =~= seq![0usize]);
        assert(r.remaining() =~= seq![1usize]);
        r
    }

    /// The path of the node looked for; empty once the walk is over.
    pub fn looking_for(&self) -> (r: &IndexPath)
        ensures
            r@ == self.target(),
    {
        &self.looking_for_index_path
    }

    /// Whether the walk is over: no further node is expected.
    pub fn is_none(&self) -> (r: bool)
        ensures
            r == (self.target().len() == 0),
    {
        self.looking_for_index_path.is_empty()
    }

    /// Whether `path` is the path looked for.
    pub fn is_looking_for(&self, path: &IndexPath) -> (r: bool)
        ensures
            r == (path@ == self.target()),
    {
        path.eq(&self.looking_for_index_path)
    }

    /// Counts one node off the deepest open level.
    pub fn decrement_remaining_read_dirs_at_this_level(&mut self)
        requires
            old(self).remaining().len() > 0,
            old(self).remaining().last() > 0,
        ensures
            final(self).target() == old(self).target(),
            final(self).remaining() == consumed(old(self).remaining()),
    {
        let last = self.remaining_read_dirs.len() - 1;
        let v = self.remaining_read_dirs[last];
        self.remaining_read_dirs.set(last, v - 1);
    }

    /// Moves past the node at the target, which declared `scheduled_read_dirs`
    /// children: to its first child if it has any, else to the next node in
    /// pre-order, closing the levels that are exhausted on the way.
    pub fn increment_past<T>(&mut self, dir_list: &DirList<T>)
        requires
            old(self).wf(),
            old(self).target().len() > 0,
        ensures
            final(self).wf(),
            dir_list.scheduled_read_dirs > 0 ==> {
                &&& final(self).target() == old(self).target().push(0)
                &&& final(self).remaining() == consumed(old(self).remaining()).push(dir_list.scheduled_read_dirs)
            },
            dir_list.scheduled_read_dirs == 0 ==> unwound(
                old(self).target(),
                consumed(old(self).remaining()),
                final(self).target().len() as int,
                final(self).target(),
                final(self).remaining(),
            ),
            final(self).target().len() > 0 ==> path_lt(old(self).target(), final(self).target()),
    {
        let ghost t0 = self.target();
        let ghost r0 = consumed(self.remaining());
        self.decrement_remaining_read_dirs_at_this_level();
        if dir_list.scheduled_read_dirs > 0 {
            self.looking_for_index_path.push(0);
            self.remaining_read_dirs.push(dir_list.scheduled_read_dirs);
            proof {
                assert(t0.push(0).subrange(0, t0.len() as int) =~= t0);
                lemma_prefix_precedes(t0, t0.push(0));
            }
        } else {
            self.looking_for_index_path.increment_last();
            while self.remaining_read_dirs.len() > 0
                && self.remaining_read_dirs[self.remaining_read_dirs.len() - 1] == 0
                invariant
                    self.target().len() == self.remaining().len(),
                    self.target().len() <= t0.len(),
                    self.remaining() == r0.subrange(0, self.remaining().len() as int),
                    forall|k: int| self.target().len() <= k < t0.len() ==> #[trigger] r0[k] == 0,
                    self.target().len() > 0 ==> self.target() == t0.subrange(0, self.target().len() as int).update(
                        self.target().len() - 1,
                        (t0[self.target().len() - 1] + 1) as usize,
                    ),
                    forall|i: int| 0 <= i < t0.len() - 1 ==> t0[i] + r0[i] < usize::MAX,
                    t0.last() + 1 + r0.last() <= usize::MAX,
                    t0.len() > 0,
                    r0.len() == t0.len(),
                decreases self.remaining().len(),
            {
                self.looking_for_index_path.pop();
                self.remaining_read_dirs.pop();
                if !self.looking_for_index_path.is_empty() {
                    self.looking_for_index_path.increment_last();
                }
            }
            proof {
                let n = self.target().len() as int;
                if n > 0 {
                    assert(self.remaining().last() != 0);
                    assert(self.remaining()[n - 1] == r0[n - 1]);
                    assert(self.target().subrange(0, n - 1) =~= t0.subrange(0, n - 1));
                    lemma_first_difference(t0, self.target(), n - 1);
                }
            }
        }
    }
}


} // verus!

verus! {

impl Default for NextResultMatcher {
    fn default() -> (r: NextResultMatcher)
        ensures
            r.wf(),
            r.target() == seq![0usize],
            r.remaining() == seq![1usize],
    {
        NextResultMatcher::new()
    }
}

/// The producing side of a results queue; every clone sends into the same
/// channel.
#[verifier::reject_recursive_types(T)]
pub struct ResultsQueue<T> {
    sender: crossbeam::channel::Sender<DirList<T>>,
}

/// The consuming side of a results queue: releases results in canonical
/// pre-order, buffering those that arrive early.
#[verifier::reject_recursive_types(T)]
pub struct ResultsQueueIter<T> {
    next_matcher: NextResultMatcher,
    receiver: crossbeam::channel::Receiver<DirList<T>>,
    receive_buffer: Vec<DirList<T>>,
    released: Ghost<Seq<Seq<usize>>>,
    declared: Ghost<Map<Seq<usize>, usize>>,
}

/// The outcome of one step of the results consumer.
pub enum ResultsPoll<T> {
    /// The next result in canonical pre-order.
    Ready(T),
    /// A result was taken off the channel; step again.
    Received,
    /// Nothing has arrived yet; let other threads run, then step again.
    Wait,
    /// Every expected node has been released.
    Done,
    /// All producers are gone before the walk was complete.
    Incomplete,
}

/// Makes a results queue: its producing handle, and its single consumer,
/// which first expects the root at path `[0]`.
pub fn new_results_queue<T>() -> (r: (ResultsQueue<T>, ResultsQueueIter<T>))
    ensures
        r.1.wf(),
        r.1.target() == seq![0usize],
        r.1.buffered().len() == 0,
        r.1.matcher().remaining() == seq![1usize],
        r.1.released().len() == 0,
        r.1.declared() == Map::<Seq<usize>, usize>::empty(),
{
    let (sender, receiver) = unbounded();
    proof {
        lemma_walk_start();
    }
    (
        ResultsQueue { sender },
        ResultsQueueIter {
            next_matcher: NextResultMatcher::default(),
            receiver,
            receive_buffer: Vec::new(),
            released: Ghost(Seq::empty()),
            declared: Ghost(Map::empty()),
        },
    )
}

impl<T> Clone for ResultsQueue<T> {
    fn clone(&self) -> (r: ResultsQueue<T>) {
        ResultsQueue { sender: clone_sender(&self.sender) }
    }
}

impl<T> ResultsQueue<T> {
    /// Sends a result to the consumer; when the consumer is gone the result
    /// comes back in the error.
    pub fn push(&self, dir_list: DirList<T>) -> (r: Result<(), QueueClosed<DirList<T>>>)
        ensures
            r matches Err(e) ==> e.0 == dir_list,
    {
        match send(&self.sender, dir_list) {
            Ok(()) => Ok(()),
            Err(d) => Err(QueueClosed(d)),
        }
    }
}

impl<T> ResultsQueueIter<T> {
    /// The path of the next result to release; empty once the walk is over.
    pub closed spec fn target(&self) -> Seq<usize> {
        self.next_matcher.target()
    }

    pub closed spec fn matcher(&self) -> NextResultMatcher {
        self.next_matcher
    }

    /// The results received and not yet released.
    pub closed spec fn buffered(&self) -> Seq<DirList<T>> {
        self.receive_buffer@
    }

    /// The paths released so far, in the order of release.
    pub closed spec fn released(&self) -> Seq<Seq<usize>> {
        self.released@
    }

    /// The child counts that the released results declared, by path.
    pub closed spec fn declared(&self) -> Map<Seq<usize>, usize> {
        self.declared@
    }

    /// The matcher is well formed, and the released paths are the nodes of
    /// the declared tree that come before the target, in canonical order.
    pub closed spec fn wf(&self) -> bool {
        &&& self.next_matcher.wf()
        &&& walk_state(self.declared@, self.released@, self.target(), self.next_matcher.remaining())
    }

    /// Whether some buffered result lies at the target with none before it.
    pub open spec fn target_ready(&self) -> bool {
        exists|i: int| is_least(self.buffered(), i) && #[trigger] self.buffered()[i].index_path@ == self.target()
    }

    /// The path of the next result to release; empty once the walk is over.
    pub fn looking_for(&self) -> (r: &IndexPath)
        ensures
            r@ == self.target(),
    {
        self.next_matcher.looking_for()
    }

    /// One step of the consumer. The walk is over once the target is empty.
    /// Otherwise, when the earliest buffered result lies at the target it is
    /// released and the target moves past it; else one message is taken off
    /// the channel into the buffer, if one is there.
    pub fn next(&mut self) -> (r: ResultsPoll<DirList<T>>)
        requires
            old(self).wf(),
        ensures
            final(self).wf(),
            r is Done <==> old(self).target().len() == 0,
            r is Ready <==> old(self).target().len() > 0 && old(self).target_ready(),
            r matches ResultsPoll::Ready(d) ==> {
                &&& d.index_path@ == old(self).target()
                &&& exists|i: int|
                    is_least(old(self).buffered(), i) && final(self).buffered() == old(self).buffered().remove(i)
                        && old(self).buffered()[i] == d
                &&& final(self).released() == old(self).released().push(d.index_path@)
                &&& final(self).declared() == old(self).declared().insert(d.index_path@, d.scheduled_read_dirs)
                &&& final(self).target().len() > 0 ==> path_lt(d.index_path@, final(self).target())
                &&& d.scheduled_read_dirs > 0 ==> final(self).target() == old(self).target().push(0)
            },
            r matches ResultsPoll::Received ==> exists|d: DirList<T>|
                final(self).buffered() == old(self).buffered().push(d),
            !(r is Ready) ==> final(self).target() == old(self).target()
                && final(self).released() == old(self).released()
                && final(self).declared() == old(self).declared(),
            !(r is Ready) && !(r is Received) ==> final(self).buffered() == old(self).buffered(),
    {
        if self.next_matcher.is_none() {
            return ResultsPoll::Done;
        }
        match least_index(&self.receive_buffer) {
            Some(i) => {
                if self.next_matcher.is_looking_for(&self.receive_buffer[i].index_path) {
                    assert(is_least(self.buffered(), i as int) && self.buffered()[i as int].index_path@ == self.target());
                    assert(self.target_ready());
                    let ghost old_buf = self.receive_buffer@;
                    let ghost old_target = self.next_matcher.target();
                    let ghost old_remaining = self.next_matcher.remaining();
                    let d = self.receive_buffer.remove(i);
                    assert(is_least(old_buf, i as int) && old_buf[i as int].index_path@ == old_target);
                    assert(self.receive_buffer@ == old_buf.remove(i as int) && old_buf[i as int] == d);
                    self.next_matcher.increment_past(&d);
                    proof {
                        lemma_walk_step(
                            self.declared@,
                            self.released@,
                            old_target,
                            old_remaining,
                            d.scheduled_read_dirs,
                            self.next_matcher.target(),
                            self.next_matcher.remaining(),
                        );
                        self.released@ = self.released@.push(old_target);
                        self.declared@ = self.declared@.insert(old_target, d.scheduled_read_dirs);
                    }
                    return ResultsPoll::Ready(d);
                }
                proof {
                    assert forall|k: int| is_least(self.buffered(), k) implies !(#[trigger] self.buffered()[k].index_path@ == self.target()) by {
                        let a = self.buffered()[k];
                        let b = self.buffered()[i as int];
                        assert(path_le(a.place(), b.place()));
                        assert(path_le(b.place(), a.place()));
                        lemma_path_lt_total(a.index_path@, b.index_path@);
                    }
                }
            },
            None => {},
        }
        self.take_in(try_recv(&self.receiver))
    }

    /// Takes what one receive attempt gave: a message joins the buffer; an
    /// empty channel means waiting; a channel without producers means the
    /// walk cannot be completed.
    pub fn take_in(&mut self, m: Received<DirList<T>>) -> (r: ResultsPoll<DirList<T>>)
        requires
            old(self).wf(),
        ensures
            final(self).wf(),
            final(self).target() == old(self).target(),
            final(self).matcher() == old(self).matcher(),
            final(self).released() == old(self).released(),
            final(self).declared() == old(self).declared(),
            m matches Received::Message(d) ==> r is Received && final(self).buffered() == old(self).buffered().push(d),
            m is Empty ==> r is Wait && final(self).buffered() == old(self).buffered(),
            m is Disconnected ==> r is Incomplete && final(self).buffered() == old(self).buffered(),
    {
        match m {
            Received::Message(d) => {
                self.receive_buffer.push(d);
                ResultsPoll::Received
            },
            Received::Empty => ResultsPoll::Wait,
            Received::Disconnected => ResultsPoll::Incomplete,
        }
    }
}

/// Whatever the order in which results arrive, the consumer releases the
/// nodes of the tree in canonical pre-order: the released paths come strictly
/// in order, each is a node of the tree that the released child counts
/// describe, every such node before the target has been released, and once
/// the target is empty every node of the tree has been.
pub proof fn lemma_preorder_fidelity<T>(it: &ResultsQueueIter<T>)
    requires
        it.wf(),
    ensures
        forall|i: int, j: int|
            0 <= i < j < it.released().len() ==> path_lt(#[trigger] it.released()[i], #[trigger] it.released()[j]),
        forall|i: int| 0 <= i < it.released().len() ==> in_tree(it.declared(), #[trigger] it.released()[i]),
        forall|q: Seq<usize>|
            in_tree(it.declared(), q) && (it.target().len() == 0 || path_lt(q, it.target()))
                ==> #[trigger] it.released().contains(q),
        it.target().len() > 0 ==> in_tree(it.declared(), it.target()),
        it.target().len() > 0 ==> !it.released().contains(it.target()),
        forall|q: Seq<usize>|
            in_tree(it.declared(), q) && !it.released().contains(q) ==> path_le(it.target(), q),
{
    if it.target().len() > 0 {
        lemma_path_lt_total(it.target(), it.target());
        if it.released().contains(it.target()) {
            let i = choose|i: int| 0 <= i < it.released().len() && it.released()[i] == it.target();
            assert(path_lt(it.released()[i], it.target()));
        }
    }
    assert forall|q: Seq<usize>|
        in_tree(it.declared(), q) && !it.released().contains(q) implies path_le(it.target(), q) by {
        lemma_path_lt_total(q, it.target());
        if it.target().len() > 0 && path_lt(q, it.target()) {
            assert(it.declared().contains_key(q));
        }
        if it.target().len() == 0 {
            assert(it.declared().contains_key(q));
        }
    }
    assert forall|q: Seq<usize>|
        in_tree(it.declared(), q) && (it.target().len() == 0 || path_lt(q, it.target()))
            implies #[trigger] it.released().contains(q) by {
        assert(it.declared().contains_key(q));
    }
}


/// The order of arrival does not matter: two finished walks that learned the
/// same child counts released the same paths in the same order, namely every
/// node of that tree in canonical pre-order.
pub proof fn lemma_finished_walks_agree<T, U>(a: &ResultsQueueIter<T>, b: &ResultsQueueIter<U>)
    requires
        a.wf(),
        b.wf(),
        a.target().len() == 0,
        b.target().len() == 0,
        a.declared() == b.declared(),
    ensures
        a.released() == b.released(),
{
    assert forall|q: Seq<usize>| a.released().contains(q) <==> b.released().contains(q) by {
        if a.released().contains(q) {
            assert(a.declared().contains_key(q));
            let i = choose|i: int| 0 <= i < a.released().len() && a.released()[i] == q;
            assert(in_tree(a.declared(), a.released()[i]));
            assert(b.declared().contains_key(q));
        }
        if b.released().contains(q) {
            assert(b.declared().contains_key(q));
            let i = choose|i: int| 0 <= i < b.released().len() && b.released()[i] == q;
            assert(in_tree(b.declared(), b.released()[i]));
            assert(a.declared().contains_key(q));
        }
    }
    lemma_sorted_paths_unique(a.released(), b.released());
}

} // verus!
