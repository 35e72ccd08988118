//! Walking a directory tree with a master that hands directories to workers.
//!
//! Work travels as messages. `More` asks for one directory to be listed and
//! `Done` reports that one listing has ended. The master counts the listings
//! that are under way and stops when a `Done` brings the count back to zero.

use vstd::prelude::*;
use std::collections::VecDeque;
use std::io;
use std::path::PathBuf;
use crate::errors::HatError;

verus! {

/// `std::path::PathBuf`, carried through unread.
#[verifier::external_type_specification]
#[verifier::external_body]
pub struct ExPathBuf(std::path::PathBuf);

/// `std::io::Error`, carried through unread.
#[verifier::external_type_specification]
#[verifier::external_body]
pub struct ExIoError(std::io::Error);

/// Something found in a directory that knows its own path.
pub trait HasPath {
    fn path(&self) -> PathBuf;
}

/// Calls `PathBuf::clone`. Trusted: the copy is equal to the path. What a
/// path holds stays opaque here.
#[verifier::external_body]
fn clone_path(path: &PathBuf) -> (copy: PathBuf)
    ensures
        copy == *path,
{
    path.clone()
}

impl HasPath for PathBuf {
    /// A path is its own path.
    fn path(&self) -> (path: PathBuf)
        ensures
            path == *self,
    {
        clone_path(self)
    }
}

/// A message to the master.
pub enum Work<P> {
    /// A worker has finished listing one directory.
    Done,
    /// A directory to list, with the payload that its parent produced.
    More(PathBuf, P),
}

/// What the master does after a message.
pub enum Step<P> {
    /// Hand this directory and payload to a worker.
    Dispatch(PathBuf, P),
    /// Listings are still under way: wait for the next message.
    Wait,
    /// No listing is under way any more: the walk has ended.
    Finished,
}

/// The master's state: the number of listings under way. The master also
/// keeps count, for the record, of the listings that it has dispatched and of
/// those that have reported `Done`.
pub struct Master {
    active: usize,
    dispatched: Ghost<nat>,
    completed: Ghost<nat>,
}

impl Master {
    /// The listings under way are those dispatched that are not completed.
    #[verifier::type_invariant]
    spec fn balanced(self) -> bool {
        self.active as nat + self.completed@ == self.dispatched@
    }

    /// Number of listings that were dispatched and have not reported `Done`.
    pub closed spec fn active(&self) -> nat {
        self.active as nat
    }

    /// Number of listings that were dispatched so far.
    pub closed spec fn dispatched(&self) -> nat {
        self.dispatched@
    }

    /// Number of listings that have reported `Done` so far.
    pub closed spec fn completed(&self) -> nat {
        self.completed@
    }

    /// A master before the first message: nothing is under way.
    pub fn new() -> (master: Master)
        ensures
            master.active() == 0,
            master.dispatched() == 0,
            master.completed() == 0,
    {
        Master { active: 0, dispatched: Ghost(0), completed: Ghost(0) }
    }

    /// The number of listings under way.
    pub fn active_workers(&self) -> (n: usize)
        ensures
            n == self.active(),
            n + self.completed() == self.dispatched(),
    {
        proof {
            use_type_invariant(self);
        }
        self.active
    }

    /// Takes one message. `More` is dispatched and counted. `Done` is
    /// discounted, and ends the walk exactly when it was the last one
    /// awaited: when every listing that was dispatched has completed.
    pub fn receive<P>(&mut self, work: Work<P>) -> (step: Step<P>)
        requires
            work is Done ==> old(self).active() > 0,
            work is More ==> old(self).active() < usize::MAX,
        ensures
            final(self).active() + final(self).completed() == final(self).dispatched(),
            match work {
                Work::More(path, payload) => {
                    &&& step == Step::Dispatch(path, payload)
                    &&& final(self).active() == old(self).active() + 1
                    &&& final(self).dispatched() == old(self).dispatched() + 1
                    &&& final(self).completed() == old(self).completed()
                },
                Work::Done => {
                    &&& final(self).active() == old(self).active() - 1
                    &&& final(self).dispatched() == old(self).dispatched()
                    &&& final(self).completed() == old(self).completed() + 1
                    &&& final(self).dispatched() == final(self).completed() ==> step is Finished
                    &&& final(self).dispatched() > final(self).completed() ==> step is Wait
                },
            },
    {
        proof {
            use_type_invariant(&*self);
        }
        match work {
            Work::Done => {
                let active = self.active - 1;
                *self = Master {
                    active,
                    dispatched: Ghost(self.dispatched@),
                    completed: Ghost(self.completed@ + 1),
                };
                if active == 0 {
                    Step::Finished
                } else {
                    Step::Wait
                }
            },
            Work::More(path, payload) => {
                let active = self.active + 1;
                *self = Master {
                    active,
                    dispatched: Ghost(self.dispatched@ + 1),
                    completed: Ghost(self.completed@),
                };
                Step::Dispatch(path, payload)
            },
        }
    }

    /// Whether the master can take the message: a `Done` only while a
    /// listing is under way, a `More` only while the count can still grow.
    pub open spec fn accepts<P>(&self, work: Work<P>) -> bool {
        match work {
            Work::Done => self.active() > 0,
            Work::More(_, _) => self.active() < usize::MAX,
        }
    }

    /// Takes one message if the master can take it, as `receive` does. A
    /// message that it cannot take is a failure of the signalling between
    /// master and workers, and leaves the master as it is.
    pub fn checked_receive<P>(&mut self, work: Work<P>) -> (step: Result<Step<P>, HatError>)
        ensures
            final(self).active() + final(self).completed() == final(self).dispatched(),
            match step {
                Ok(s) => {
                    &&& old(self).accepts(work)
                    &&& match work {
                        Work::More(path, payload) => {
                            &&& s == Step::Dispatch(path, payload)
                            &&& final(self).active() == old(self).active() + 1
                            &&& final(self).dispatched() == old(self).dispatched() + 1
                            &&& final(self).completed() == old(self).completed()
                        },
                        Work::Done => {
                            &&& final(self).active() == old(self).active() - 1
                            &&& final(self).dispatched() == old(self).dispatched()
                            &&& final(self).completed() == old(self).completed() + 1
                            &&& final(self).dispatched() == final(self).completed() ==> s is Finished
                            &&& final(self).dispatched() > final(self).completed() ==> s is Wait
                        },
                    }
                },
                Err(e) => {
                    &&& e == HatError::Channel
                    &&& !old(self).accepts(work)
                    &&& final(self).active() == old(self).active()
                    &&& final(self).dispatched() == old(self).dispatched()
                    &&& final(self).completed() == old(self).completed()
                },
            },
    {
        proof {
            use_type_invariant(&*self);
        }
        let acceptable = match &work {
            Work::Done => self.active > 0,
            Work::More(_, _) => self.active < usize::MAX,
        };
        if acceptable {
            Ok(self.receive(work))
        } else {
            Err(HatError::Channel)
        }
    }
}

/// The message that follows from the handler's answer for a path: a `More`
/// for the path when the handler gave a payload for it, and none otherwise.
pub open spec fn spec_work_for<P>(path: PathBuf, answer: Option<P>) -> Option<Work<P>> {
    match answer {
        Some(payload) => Some(Work::More(path, payload)),
        None => None,
    }
}

/// The message that follows from the handler's answer for a path: a `More`
/// for the path when the handler gave a payload for it, and none otherwise.
pub fn work_for<P>(path: PathBuf, answer: Option<P>) -> (work: Option<Work<P>>)
    ensures
        work == spec_work_for(path, answer),
{
    match answer {
        Some(payload) => Some(Work::More(path, payload)),
        None => None,
    }
}

/// How a walk ended.
#[derive(Clone, Copy, Debug, PartialEq, Eq, Structural)]
pub struct WalkOutcome {
    /// `true` when every directory that was found has been listed.
    pub finished: bool,
    /// Number of directories that were handed to a worker.
    pub dispatched: usize,
    /// Number of directories that were found and not listed.
    pub pending: usize,
}

/// Number of `Done` messages in a queue.
pub open spec fn count_done<P>(queue: Seq<Work<P>>) -> nat
    decreases queue.len(),
{
    if queue.len() == 0 {
        0
    } else {
        count_done(queue.drop_last()) + if queue.last() is Done {
            1nat
        } else {
            0nat
        }
    }
}

/// The messages among the answers for the entries of a listing, in the
/// order of the entries.
pub open spec fn some_works<P>(works: Seq<Option<Work<P>>>) -> Seq<Work<P>>
    decreases works.len(),
{
    if works.len() == 0 {
        Seq::empty()
    } else {
        match works.last() {
            Some(work) => some_works(works.drop_last()).push(work),
            None => some_works(works.drop_last()),
        }
    }
}

/// One listing of a directory by a worker, as the record of a walk holds it:
/// the directory and the payload that came with it, what `read_dir` gave for
/// the directory, and what `handle_entry` answered for each entry of the
/// listing.
pub struct Visit<P, D> {
    pub path: PathBuf,
    pub payload: P,
    pub listing: io::Result<Vec<io::Result<D>>>,
    pub works: Seq<Option<Work<P>>>,
}

impl<P, D> Visit<P, D> {
    /// The entries of the listing, in its order; none for a directory that
    /// could not be listed.
    pub open spec fn entries(self) -> Seq<io::Result<D>> {
        match self.listing {
            Ok(dir) => dir@,
            Err(_) => Seq::empty(),
        }
    }

    /// What the worker queued: the messages among the answers, in the order
    /// of the entries, and one `Done` behind them.
    pub open spec fn queued(self) -> Seq<Work<P>> {
        some_works(self.works).push(Work::Done)
    }
}

/// The directories and payloads of the `More` messages of a queue, in order.
pub open spec fn more_pairs<P>(queue: Seq<Work<P>>) -> Seq<(PathBuf, P)>
    decreases queue.len(),
{
    if queue.len() == 0 {
        Seq::empty()
    } else {
        match queue.last() {
            Work::More(path, payload) => more_pairs(queue.drop_last()).push((path, payload)),
            Work::Done => more_pairs(queue.drop_last()),
        }
    }
}

/// Every message that was sent in a walk that started with the messages
/// `first` and made the listings `log`, in the order of sending.
pub open spec fn sent<P, D>(first: Seq<Work<P>>, log: Seq<Visit<P, D>>) -> Seq<Work<P>>
    decreases log.len(),
{
    if log.len() == 0 {
        first
    } else {
        sent(first, log.drop_last()) + log.last().queued()
    }
}

/// Whether the directories of `log` are listed in the order in which their
/// `More` messages were sent, each with the payload of its message, and each
/// after its message was sent: the message of a listing is among `first` or
/// was queued by an earlier listing.
pub open spec fn in_order<P, D>(first: Seq<Work<P>>, log: Seq<Visit<P, D>>) -> bool {
    forall|k: int|
        0 <= k < log.len() ==> {
            &&& more_pairs(sent(first, log.take(k))).len() > k
            &&& more_pairs(sent(first, log.take(k)))[k] == ((#[trigger] log[k]).path, log[k].payload)
        }
}

/// One more listing keeps the order: the listing is that of the next
/// message that was taken, a `More`, and all messages taken before it have
/// had their listings.
pub proof fn lemma_in_order_push<P, D>(
    first: Seq<Work<P>>,
    log: Seq<Visit<P, D>>,
    visit: Visit<P, D>,
    taken: Seq<Work<P>>,
    rest: Seq<Work<P>>,
)
    requires
        in_order(first, log),
        more_pairs(taken).len() == log.len(),
        sent(first, log) == taken.push(Work::More(visit.path, visit.payload)) + rest,
    ensures
        in_order(first, log.push(visit)),
        sent(first, log.push(visit)) == sent(first, log) + visit.queued(),
        more_pairs(taken.push(Work::More(visit.path, visit.payload))).len() == log.len() + 1,
{
    let message = Work::More(visit.path, visit.payload);
    let next = log.push(visit);
    let spot = log.len() as int;
    assert(next.drop_last() =~= log);
    assert(next.take(spot) =~= log);
    lemma_more_pairs_concat(taken.push(message), rest);
    assert(taken.push(message).drop_last() =~= taken);
    assert forall|k: int| 0 <= k < next.len() implies {
        &&& more_pairs(sent(first, next.take(k))).len() > k
        &&& more_pairs(sent(first, next.take(k)))[k] == ((#[trigger] next[k]).path, next[k].payload)
    } by {
        if k < spot {
            assert(next.take(k) =~= log.take(k));
            assert(next[k] == log[k]);
        }
    }
}

/// How the listings `log` of a walk, in their order, hang together with the
/// messages `first` that it started with, and with its outcome.
///
/// - There is one listing for each directory that was dispatched.
/// - The directories are listed in the order in which their `More` messages
///   were sent, each with the payload of its message; and the message of a
///   listing was sent before the listing began: it is among `first` or was
///   queued by an earlier listing.
/// - Each listing queued one `Done`.
/// - The walk is finished exactly when every `More` that was sent has had
///   its listing; `pending` counts those that have not.
pub open spec fn walked<P, D>(first: Seq<Work<P>>, log: Seq<Visit<P, D>>, outcome: WalkOutcome) -> bool {
    let mores = more_pairs(sent(first, log));
    &&& log.len() == outcome.dispatched
    &&& in_order(first, log)
    &&& count_done(sent(first, log)) == count_done(first) + log.len()
    &&& mores.len() >= log.len()
    &&& outcome.finished <==> mores.len() == log.len()
    &&& outcome.pending == mores.len() - log.len() || (outcome.pending == usize::MAX && mores.len()
        - log.len() >= usize::MAX)
}

/// The user's side of a walk: how to list a directory and what to do with
/// each path found.
pub trait PathHandler<P: Send>: Sync {
    type DirItem: HasPath;

    /// Lists the directory at `path`. An entry that could not be read comes as `Err`.
    fn read_dir(&self, path: &PathBuf) -> io::Result<Vec<io::Result<Self::DirItem>>>;

    /// Handles one path found below a directory with payload `payload`.
    /// `Some` asks for the path to be listed in turn, with the new payload.
    fn handle_path(&self, payload: &P, path: &PathBuf) -> Option<P>;

    /// Handles one directory entry: an unreadable entry is skipped, a readable
    /// one is given to `handle_path`, and a `More` comes back when that asks
    /// for the entry to be listed too. For a readable entry the result is
    /// the message that follows from what `handle_path` answers for the
    /// entry's path and the payload; what it answers is the handler's affair.
    fn handle_entry(&self, payload: &P, entry: io::Result<Self::DirItem>) -> (work: Option<Work<P>>)
        ensures
            work matches Some(w) ==> w is More,
            entry is Err ==> work is None,
            entry matches Ok(item) ==> exists|path: PathBuf, answer: Option<P>|
                {
                    &&& call_ensures(<Self::DirItem as HasPath>::path, (&item,), path)
                    &&& #[trigger] call_ensures(Self::handle_path, (self, payload, &path), answer)
                    &&& work == spec_work_for(path, answer)
                },
    {
        match entry {
            Ok(item) => {
                let path = item.path();
                let answer = self.handle_path(payload, &path);
                assert(call_ensures(<Self::DirItem as HasPath>::path, (&item,), path));
                assert(call_ensures(Self::handle_path, (self, payload, &path), answer));
                work_for(path, answer)
            },
            Err(_) => None,
        }
    }

    /// The work of one worker: lists `root`, handles every entry, queues a
    /// `More` for each entry that is to be listed in turn, and ends with one
    /// `Done`. A directory that cannot be listed is skipped: only the `Done`
    /// is queued. An entry that cannot be read is skipped, and the entries
    /// after it are handled all the same.
    ///
    /// What is queued is what the record `visit` of the listing says: the
    /// directory was listed once, every entry of the listing was handled
    /// once, in order and with the payload `payload`, and the messages that
    /// came of it were queued in that order, one `Done` behind them.
    fn visit_dir(&self, root: &PathBuf, payload: &P, queue: &mut VecDeque<Work<P>>)
        ensures
            exists|visit: Visit<P, Self::DirItem>|
                {
                    &&& final(queue)@ == old(queue)@ + #[trigger] visit.queued()
                    &&& visit.path == *root
                    &&& visit.payload == *payload
                    &&& call_ensures(Self::read_dir, (self, &visit.path), visit.listing)
                    &&& visit.works.len() == visit.entries().len()
                    &&& forall|i: int|
                        0 <= i < visit.entries().len() ==> call_ensures(
                            Self::handle_entry,
                            (self, &visit.payload, visit.entries()[i]),
                            #[trigger] visit.works[i],
                        )
                },
            final(queue)@.len() > old(queue)@.len(),
            final(queue)@.subrange(0, old(queue)@.len() as int) == old(queue)@,
            final(queue)@.last() is Done,
            forall|i: int|
                old(queue)@.len() <= i < final(queue)@.len() - 1 ==> (#[trigger] final(queue)@[i]) is More,
    {
        let ghost before = queue@;
        let listing = self.read_dir(root);
        assert(call_ensures(Self::read_dir, (self, root), listing));
        let ghost listing_copy = listing;
        let ghost mut works: Seq<Option<Work<P>>> = Seq::empty();
        match listing {
            Ok(dir) => {
                let ghost entries = dir@;
                for entry in it: dir
                    invariant
                        it.seq() == entries,
                        works.len() == it.index(),
                        forall|i: int|
                            0 <= i < works.len() ==> call_ensures(
                                Self::handle_entry,
                                (self, payload, entries[i]),
                                #[trigger] works[i],
                            ),
                        queue@ == before + some_works(works),
                        forall|i: int| 0 <= i < some_works(works).len() ==> (#[trigger] some_works(
                            works,
                        )[i]) is More,
                {
                    let ghost place = it.index();
                    let ghost given = entry;
                    assert(given == entries[place]);
                    let work = self.handle_entry(payload, entry);
                    assert(call_ensures(Self::handle_entry, (self, payload, given), work));
                    proof {
                        let old_works = works;
                        works = works.push(work);
                        assert(works.drop_last() =~= old_works);
                    }
                    match work {
                        Some(work) => {
                            queue.push_back(work);
                            assert(queue@ =~= before + some_works(works));
                        },
                        None => {},
                    }
                }
                assert(works.len() == entries.len());
            },
            Err(_) => {},
        }
        queue.push_back(Work::Done);
        proof {
            let visit = Visit::<P, Self::DirItem> {
                path: *root,
                payload: *payload,
                listing: listing_copy,
                works,
            };
            assert(queue@ =~= before + visit.queued());
            assert(queue@.subrange(0, before.len() as int) =~= before);
        }
    }

    /// The master's loop, on the calling thread: takes the messages of the
    /// queue one after the other, has each directory listed by `visit_dir`,
    /// which queues what it finds, and stops when the master says that the
    /// walk has ended, or when `max_dirs` directories have been listed and
    /// one more would be due. The queue starts with one `More`.
    ///
    /// The listings that were made are on record in `log`: each is what
    /// `visit_dir` does for its directory and payload, and they hang together
    /// as `walked` says. What is left in the queue are the messages that were
    /// sent last; none is left when the walk is finished.
    fn drain(&self, queue: &mut VecDeque<Work<P>>, max_dirs: usize) -> (outcome: WalkOutcome)
        requires
            old(queue)@.len() == 1,
            old(queue)@[0] is More,
        ensures
            exists|log: Seq<Visit<P, Self::DirItem>>|
                {
                    &&& #[trigger] walked(old(queue)@, log, outcome)
                    &&& final(queue)@.is_suffix_of(sent(old(queue)@, log))
                    &&& more_pairs(final(queue)@).len() == more_pairs(sent(old(queue)@, log)).len()
                        - log.len()
                    &&& forall|k: int|
                        0 <= k < log.len() ==> {
                            &&& call_ensures(
                                Self::read_dir,
                                (self, &(#[trigger] log[k]).path),
                                log[k].listing,
                            )
                            &&& log[k].works.len() == log[k].entries().len()
                            &&& forall|i: int|
                                0 <= i < log[k].entries().len() ==> call_ensures(
                                    Self::handle_entry,
                                    (self, &log[k].payload, log[k].entries()[i]),
                                    #[trigger] log[k].works[i],
                                )
                        }
                },
            outcome.dispatched <= max_dirs,
            outcome.finished <==> outcome.pending == 0,
            !outcome.finished ==> outcome.dispatched == max_dirs,
            max_dirs > 0 ==> outcome.dispatched >= 1,
            outcome.finished ==> final(queue)@.len() == 0,
    {
        let ghost first = queue@;
        let ghost mut log: Seq<Visit<P, Self::DirItem>> = Seq::empty();
        let ghost mut taken: Seq<Work<P>> = Seq::empty();
        let mut master = Master::new();
        let mut dispatched: usize = 0;
        proof {
            reveal_with_fuel(count_done, 2);
            assert(queue@.drop_last() =~= Seq::<Work<P>>::empty());
            assert(taken + queue@ =~= first);
        }
        loop
            invariant
                first == old(queue)@,
                first.len() == 1,
                first[0] is More,
                count_done(first) == 0,
                count_done(queue@) == master.active(),
                master.active() <= dispatched <= max_dirs,
                queue@.len() > 0,
                dispatched > 0 ==> queue@.last() is Done,
                dispatched == 0 ==> queue@.len() == 1 && queue@[0] is More,
                log.len() == dispatched,
                taken + queue@ == sent(first, log),
                more_pairs(taken).len() == log.len(),
                count_done(sent(first, log)) == log.len(),
                in_order(first, log),
                forall|k: int|
                    0 <= k < log.len() ==> {
                        &&& call_ensures(
                            Self::read_dir,
                            (self, &(#[trigger] log[k]).path),
                            log[k].listing,
                        )
                        &&& log[k].works.len() == log[k].entries().len()
                        &&& forall|i: int|
                            0 <= i < log[k].entries().len() ==> call_ensures(
                                Self::handle_entry,
                                (self, &log[k].payload, log[k].entries()[i]),
                                #[trigger] log[k].works[i],
                            )
                    },
            decreases max_dirs - dispatched, queue@.len(),
        {
            let ghost before = queue@;
            let work = match queue.pop_front() {
                Some(work) => work,
                None => {
                    // The queue holds a message as long as the walk goes on.
                    return WalkOutcome { finished: true, dispatched, pending: 0 };
                },
            };
            let ghost message = work;
            proof {
                lemma_count_done_concat(seq![work], queue@);
                assert(seq![work] + queue@ =~= before);
                reveal_with_fuel(count_done, 2);
                assert(seq![work].drop_last() =~= Seq::<Work<P>>::empty());
                lemma_taken_one_more(taken, message, queue@, before);
            }
            if let Work::More(_, _) = &work {
                if dispatched == max_dirs {
                    proof {
                        lemma_count_done_bound(queue@);
                    }
                    // Every `Done` in the queue stands for a listing under way;
                    // the other messages, and the one at hand, are directories.
                    let left = queue.len() - master.active_workers();
                    let pending = if left < usize::MAX {
                        left + 1
                    } else {
                        usize::MAX
                    };
                    let outcome = WalkOutcome { finished: false, dispatched, pending };
                    proof {
                        lemma_more_pairs_and_dones(queue@);
                    }
                    // The directory is not listed: its message stays in the queue.
                    queue.push_front(work);
                    proof {
                        assert(queue@ =~= before);
                        lemma_more_pairs_concat(taken, queue@);
                        lemma_suffix(taken, queue@);
                    }
                    assert(walked(first, log, outcome));
                    return outcome;
                }
            }
            match master.receive(work) {
                Step::Dispatch(path, payload) => {
                    dispatched = dispatched + 1;
                    let ghost rest = queue@;
                    self.visit_dir(&path, &payload, queue);
                    proof {
                        lemma_count_done_tail(rest, queue@);
                        let visit = choose|visit: Visit<P, Self::DirItem>|
                            {
                                &&& queue@ == rest + #[trigger] visit.queued()
                                &&& visit.path == path
                                &&& visit.payload == payload
                                &&& call_ensures(Self::read_dir, (self, &visit.path), visit.listing)
                                &&& visit.works.len() == visit.entries().len()
                                &&& forall|i: int|
                                    0 <= i < visit.entries().len() ==> call_ensures(
                                        Self::handle_entry,
                                        (self, &visit.payload, visit.entries()[i]),
                                        #[trigger] visit.works[i],
                                    )
                            };
                        let old_log = log;
                        let spot = old_log.len() as int;
                        assert(message == Work::More(visit.path, visit.payload));
                        lemma_in_order_push(first, old_log, visit, taken, rest);
                        log = log.push(visit);
                        taken = taken.push(message);
                        assert(taken + queue@ =~= sent(first, log));
                        lemma_count_done_concat(rest, visit.queued());
                        lemma_count_done_concat(sent(first, old_log), visit.queued());
                        assert forall|k: int| 0 <= k < log.len() implies {
                            &&& call_ensures(
                                Self::read_dir,
                                (self, &(#[trigger] log[k]).path),
                                log[k].listing,
                            )
                            &&& log[k].works.len() == log[k].entries().len()
                            &&& forall|i: int|
                                0 <= i < log[k].entries().len() ==> call_ensures(
                                    Self::handle_entry,
                                    (self, &log[k].payload, log[k].entries()[i]),
                                    #[trigger] log[k].works[i],
                                )
                        } by {
                            if k < spot {
                                assert(log[k] == old_log[k]);
                            }
                        }
                    }
                },
                Step::Wait => {
                    proof {
                        taken = taken.push(message);
                    }
                },
                Step::Finished => {
                    proof {
                        if queue@.len() > 0 {
                            lemma_count_done_last(queue@);
                        }
                        taken = taken.push(message);
                        assert(taken + queue@ =~= taken);
                    }
                    assert(queue@.len() == 0);
                    let outcome = WalkOutcome { finished: true, dispatched, pending: 0 };
                    proof {
                        lemma_suffix(taken, queue@);
                        reveal_with_fuel(more_pairs, 1);
                    }
                    assert(walked(first, log, outcome));
                    return outcome;
                },
            }
        }
    }

    /// Walks the tree below `root` on the calling thread, one directory after
    /// the other, in the order in which a queue delivers the messages. At most
    /// `max_dirs` directories are listed: the walk stops unfinished when one
    /// more would be due.
    ///
    /// The listings that were made are on record in `log`. The first is that
    /// of `root` with `payload`; every later one is of a directory, and with
    /// the payload, for which an earlier listing queued a `More`, in the
    /// order of queueing. Each is what `visit_dir` does: the directory is
    /// listed once, and every entry handled once with the listing's payload.
    /// When the walk is finished, every `More` that was queued has had its
    /// listing, every listing has reported `Done`, and no message is left.
    fn recurse(&self, root: PathBuf, payload: P, max_dirs: usize) -> (outcome: WalkOutcome)
        ensures
            exists|log: Seq<Visit<P, Self::DirItem>>|
                {
                    &&& #[trigger] walked(seq![Work::More(root, payload)], log, outcome)
                    &&& forall|k: int|
                        0 <= k < log.len() ==> {
                            &&& call_ensures(
                                Self::read_dir,
                                (self, &(#[trigger] log[k]).path),
                                log[k].listing,
                            )
                            &&& log[k].works.len() == log[k].entries().len()
                            &&& forall|i: int|
                                0 <= i < log[k].entries().len() ==> call_ensures(
                                    Self::handle_entry,
                                    (self, &log[k].payload, log[k].entries()[i]),
                                    #[trigger] log[k].works[i],
                                )
                        }
                },
            outcome.dispatched <= max_dirs,
            outcome.finished <==> outcome.pending == 0,
            !outcome.finished ==> outcome.dispatched == max_dirs,
            max_dirs > 0 ==> outcome.dispatched >= 1,
    {
        let mut queue: VecDeque<Work<P>> = VecDeque::new();
        queue.push_back(Work::More(root, payload));
        assert(queue@ =~= seq![Work::More(root, payload)]);
        self.drain(&mut queue, max_dirs)
    }
}

/// The pairs of two queues, one after the other, are the pairs of the first
/// followed by the pairs of the second.
pub proof fn lemma_more_pairs_concat<P>(a: Seq<Work<P>>, b: Seq<Work<P>>)
    ensures
        more_pairs(a + b) == more_pairs(a) + more_pairs(b),
    decreases b.len(),
{
    if b.len() == 0 {
        assert(a + b =~= a);
        assert(more_pairs(a) + more_pairs(b) =~= more_pairs(a));
    } else {
        lemma_more_pairs_concat(a, b.drop_last());
        assert((a + b).drop_last() =~= a + b.drop_last());
        assert((a + b).last() == b.last());
        assert(more_pairs(a + b) =~= more_pairs(a) + more_pairs(b));
    }
}

/// What was sent up to the first `k` listings is the beginning of what was
/// sent in all.
pub proof fn lemma_sent_prefix<P, D>(first: Seq<Work<P>>, log: Seq<Visit<P, D>>, k: int)
    requires
        0 <= k <= log.len(),
    ensures
        sent(first, log.take(k)).len() <= sent(first, log).len(),
        sent(first, log).take(sent(first, log.take(k)).len() as int) == sent(first, log.take(k)),
        more_pairs(sent(first, log.take(k))).len() <= more_pairs(sent(first, log)).len(),
        more_pairs(sent(first, log)).take(more_pairs(sent(first, log.take(k))).len() as int)
            == more_pairs(sent(first, log.take(k))),
    decreases log.len() - k,
{
    if k == log.len() {
        assert(log.take(k) =~= log);
        assert(sent(first, log).take(sent(first, log).len() as int) =~= sent(first, log));
        assert(more_pairs(sent(first, log)).take(more_pairs(sent(first, log)).len() as int)
            =~= more_pairs(sent(first, log)));
    } else {
        let front = log.drop_last();
        lemma_sent_prefix(first, front, k);
        assert(front.take(k) =~= log.take(k));
        let a = sent(first, front);
        let b = log.last().queued();
        let p = sent(first, log.take(k));
        assert(sent(first, log) == a + b);
        assert((a + b).take(p.len() as int) =~= a.take(p.len() as int));
        lemma_more_pairs_concat(a, b);
        let mp = more_pairs(p);
        assert((more_pairs(a) + more_pairs(b)).take(mp.len() as int) =~= more_pairs(a).take(
            mp.len() as int,
        ));
    }
}

/// The first listing of a walk is that of its root, with the payload that
/// the walk was given; and the listings are those of the `More` messages
/// that were sent, in the order of sending.
pub proof fn lemma_listings_follow_the_messages<P, D>(
    root: PathBuf,
    payload: P,
    log: Seq<Visit<P, D>>,
    outcome: WalkOutcome,
    k: int,
)
    requires
        walked(seq![Work::More(root, payload)], log, outcome),
        0 <= k < log.len(),
    ensures
        log[0].path == root,
        log[0].payload == payload,
        k < more_pairs(sent(seq![Work::More(root, payload)], log)).len(),
        more_pairs(sent(seq![Work::More(root, payload)], log))[k] == (log[k].path, log[k].payload),
{
    let first = seq![Work::More(root, payload)];
    lemma_more_pairs_one(Work::More(root, payload));
    assert(log.take(0) =~= Seq::<Visit<P, D>>::empty());
    assert(sent(first, log.take(0)) == first);
    assert(more_pairs(sent(first, log.take(0)))[0] == (log[0].path, log[0].payload));
    lemma_sent_prefix(first, log, k);
    let part = more_pairs(sent(first, log.take(k)));
    assert(part[k] == (log[k].path, log[k].payload));
    assert(more_pairs(sent(first, log)).take(part.len() as int)[k] == more_pairs(
        sent(first, log),
    )[k]);
}

/// The second of two runs of messages is the end of both together.
pub proof fn lemma_suffix<P>(a: Seq<Work<P>>, b: Seq<Work<P>>)
    ensures
        b.is_suffix_of(a + b),
{
    assert(b =~= (a + b).skip((a + b).len() - b.len()));
}

/// Taking one more message off a queue leaves all messages as they are, and
/// adds its pair to the pairs of those taken if it is a `More`.
pub proof fn lemma_taken_one_more<P>(
    taken: Seq<Work<P>>,
    message: Work<P>,
    rest: Seq<Work<P>>,
    before: Seq<Work<P>>,
)
    requires
        seq![message] + rest == before,
    ensures
        taken.push(message) + rest == taken + before,
        more_pairs(taken + before) == more_pairs(taken.push(message)) + more_pairs(rest),
        more_pairs(taken.push(message)).len() == more_pairs(taken).len() + if message is More {
            1int
        } else {
            0int
        },
{
    assert(taken.push(message) + rest =~= taken + before);
    lemma_more_pairs_concat(taken.push(message), rest);
    assert(taken.push(message).drop_last() =~= taken);
}

/// The pairs of one message: the pair of a `More`, none for a `Done`.
pub proof fn lemma_more_pairs_one<P>(message: Work<P>)
    ensures
        more_pairs(seq![message]) == match message {
            Work::More(path, payload) => seq![(path, payload)],
            Work::Done => Seq::empty(),
        },
{
    assert(seq![message].drop_last() =~= Seq::<Work<P>>::empty());
    assert(more_pairs(seq![message].drop_last()) =~= Seq::<(PathBuf, P)>::empty());
    match message {
        Work::More(path, payload) => {
            assert(Seq::<(PathBuf, P)>::empty().push((path, payload)) =~= seq![(path, payload)]);
        },
        Work::Done => {},
    }
}

/// Every message of a queue is a `More` or a `Done`.
pub proof fn lemma_more_pairs_and_dones<P>(queue: Seq<Work<P>>)
    ensures
        more_pairs(queue).len() + count_done(queue) == queue.len(),
    decreases queue.len(),
{
    if queue.len() > 0 {
        lemma_more_pairs_and_dones(queue.drop_last());
    }
}

/// Counting `Done` messages distributes over concatenation.
pub proof fn lemma_count_done_concat<P>(a: Seq<Work<P>>, b: Seq<Work<P>>)
    ensures
        count_done(a + b) == count_done(a) + count_done(b),
    decreases b.len(),
{
    if b.len() == 0 {
        assert(a + b =~= a);
    } else {
        lemma_count_done_concat(a, b.drop_last());
        assert((a + b).drop_last() =~= a + b.drop_last());
        assert((a + b).last() == b.last());
    }
}

/// A queue holds at most as many `Done` messages as messages.
pub proof fn lemma_count_done_bound<P>(queue: Seq<Work<P>>)
    ensures
        count_done(queue) <= queue.len(),
    decreases queue.len(),
{
    if queue.len() > 0 {
        lemma_count_done_bound(queue.drop_last());
    }
}

/// A queue that ends with `Done` holds at least one `Done`.
pub proof fn lemma_count_done_last<P>(queue: Seq<Work<P>>)
    requires
        queue.len() > 0,
        queue.last() is Done,
    ensures
        count_done(queue) > 0,
{
}

/// A run of `More` messages holds no `Done`.
pub proof fn lemma_count_done_mores<P>(run: Seq<Work<P>>)
    requires
        forall|i: int| 0 <= i < run.len() ==> (#[trigger] run[i]) is More,
    ensures
        count_done(run) == 0,
    decreases run.len(),
{
    if run.len() > 0 {
        lemma_count_done_mores(run.drop_last());
    }
}

/// What one worker adds to a queue holds exactly one `Done`.
pub proof fn lemma_count_done_tail<P>(before: Seq<Work<P>>, after: Seq<Work<P>>)
    requires
        after.len() > before.len(),
        after.subrange(0, before.len() as int) == before,
        after.last() is Done,
        forall|i: int| before.len() <= i < after.len() - 1 ==> (#[trigger] after[i]) is More,
    ensures
        count_done(after) == count_done(before) + 1,
{
    let mores = after.subrange(before.len() as int, after.len() - 1);
    lemma_count_done_mores(mores);
    lemma_count_done_concat(before, mores);
    assert(after.drop_last() =~= before + mores);
}

} // verus!
