//! The polling side: finding new screenshots and handing them on.
//!
//! [`ScreenshotListener`] is a state machine. After [`ScreenshotListener::listen`]
//! it waits in every state for the answer to one request,
//! [`ScreenshotListener::request`]; the caller carries the request out and
//! hands the answer to [`ScreenshotListener::poll`].

use crate::channel::{EventChannel, TryReceiveError};
use crate::entry::{DirEntry, EntryKind};
use crate::file_set::{distinct, lemma_distinct, lemma_distinct_push, new_files, paths_of, FileSet};
use vstd::prelude::*;

verus! {

/// Why the polling side gave up.
#[derive(Debug, PartialEq, Eq)]
pub enum ListenerError<T> {
    /// The watched directory could not be read; the text says why.
    Io(String),
    /// The value could not be handed on because the channel is not open.
    Sender(T),
    /// The polling side ended without finishing its work.
    ThreadError,
}

/// [`ListenerError`] of a path, with its texts as sequences of characters.
pub enum ListenerErrorView {
    Io(Seq<char>),
    Sender(Seq<char>),
    ThreadError,
}

impl View for ListenerError<String> {
    type V = ListenerErrorView;

    open spec fn view(&self) -> ListenerErrorView {
        match *self {
            ListenerError::Io(reason) => ListenerErrorView::Io(reason@),
            ListenerError::Sender(path) => ListenerErrorView::Sender(path@),
            ListenerError::ThreadError => ListenerErrorView::ThreadError,
        }
    }
}

/// How the polling side ended, with the texts as sequences of characters.
pub open spec fn outcome_view(outcome: Result<(), ListenerError<String>>) -> Result<
    (),
    ListenerErrorView,
> {
    match outcome {
        Ok(_) => Ok(()),
        Err(error) => Err(error@),
    }
}

/// The paths of the regular files of a listing, in its order.
pub open spec fn regular_files(entries: Seq<DirEntry>) -> Seq<Seq<char>> {
    entries.filter(|entry: DirEntry| entry.is_file()).map_values(|entry: DirEntry| entry.path@)
}

/// Remembers every file it has seen and reports the ones it has not.
pub struct ChangeDetector {
    seen: FileSet,
}

impl View for ChangeDetector {
    type V = Set<Seq<char>>;

    /// The files seen so far.
    closed spec fn view(&self) -> Set<Seq<char>> {
        self.seen@
    }
}

impl ChangeDetector {
    /// A detector that has seen `baseline`. None of these files will ever be
    /// reported.
    pub fn new(baseline: FileSet) -> (detector: ChangeDetector)
        ensures
            detector@ == baseline@,
    {
        ChangeDetector { seen: baseline }
    }

    /// Reports the files of `current` that were never seen before, in the
    /// order of `current`, and remembers them.
    pub fn tick(&mut self, current: &FileSet) -> (events: Vec<String>)
        ensures
            paths_of(events@) == new_files(old(self)@, current.order()),
            final(self)@ == old(self)@.union(current@),
    {
        let paths = current.paths();
        let ghost before = self@;
        let ghost unseen = |p: Seq<char>| !before.contains(p);
        let mut events: Vec<String> = Vec::new();
        let mut i: usize = 0;
        proof {
            use_type_invariant(current);
            reveal(Seq::filter);
            assert(current.order().take(0) =~= Seq::<Seq<char>>::empty());
            assert(paths_of(events@) =~= current.order().take(0).filter(unseen));
            assert(self@ =~= before.union(current.order().take(0).to_set()));
        }
        while i < paths.len()
            invariant
                i <= paths.len(),
                paths_of(paths@) == current.order(),
                current.order().no_duplicates(),
                unseen == |p: Seq<char>| !before.contains(p),
                paths_of(events@) == current.order().take(i as int).filter(unseen),
                self@ == before.union(current.order().take(i as int).to_set()),
            decreases paths.len() - i,
        {
            let path = &paths[i];
            let ghost taken = current.order().take(i as int);
            proof {
                assert(path@ == current.order()[i as int]);
                assert(current.order().take(i + 1) =~= taken.push(path@));
                taken.lemma_filter_push(path@, unseen);
                assert(!taken.contains(path@)) by {
                    if taken.contains(path@) {
                        let k = choose|k: int| 0 <= k < taken.len() && taken[k] == path@;
                        assert(current.order()[k] == current.order()[i as int]);
                    }
                }
                taken.lemma_push_to_set_commute(path@);
            }
            let added = self.seen.insert(path.clone());
            proof {
                assert(added == !before.contains(path@));
                assert(self@ =~= before.union(taken.push(path@).to_set()));
            }
            if added {
                let ghost reported = events@;
                events.push(path.clone());
                assert(paths_of(events@) =~= paths_of(reported).push(path@));
            }
            i += 1;
        }
        proof {
            assert(current.order().take(i as int) =~= current.order());
        }
        events
    }
}

/// What a detector has seen that started from `baseline` and then ticked
/// once for each of `snapshots`, in their order.
pub open spec fn seen_after(baseline: Set<Seq<char>>, snapshots: Seq<Seq<Seq<char>>>) -> Set<
    Seq<char>,
>
    decreases snapshots.len(),
{
    if snapshots.len() == 0 {
        baseline
    } else {
        seen_after(baseline, snapshots.drop_last()).union(snapshots.last().to_set())
    }
}

/// What the tick for `snapshots[i]` reports, for a detector that started
/// from `baseline` and ticked for the snapshots before it.
pub open spec fn reported(
    baseline: Set<Seq<char>>,
    snapshots: Seq<Seq<Seq<char>>>,
    i: int,
) -> Seq<Seq<char>> {
    new_files(seen_after(baseline, snapshots.take(i)), snapshots[i])
}

/// A tick reports exactly the files of the current snapshot that were not
/// seen before: for a detector that has seen `seen`, the tick for `current`
/// reports a path if and only if `current` holds it and `seen` does not. It
/// reports the paths in the order of `current`, and none twice if `current`
/// holds none twice.
pub proof fn lemma_tick_reports_the_difference(seen: Set<Seq<char>>, current: Seq<Seq<char>>)
    ensures
        new_files(seen, current).to_set() == current.to_set().difference(seen),
        current.no_duplicates() ==> new_files(seen, current).no_duplicates(),
    decreases current.len(),
{
    let unseen = |p: Seq<char>| !seen.contains(p);
    reveal(Seq::filter);
    if current.len() == 0 {
        assert(new_files(seen, current).to_set() =~= current.to_set().difference(seen));
    } else {
        let rest = current.drop_last();
        let last = current.last();
        lemma_tick_reports_the_difference(seen, rest);
        let before = new_files(seen, rest);
        assert(new_files(seen, current) == if unseen(last) {
            before.push(last)
        } else {
            before
        });
        assert forall|p: Seq<char>|
            new_files(seen, current).contains(p) <==> (current.contains(p) && !seen.contains(
                p,
            )) by {
            assert(before.to_set().contains(p) <==> rest.to_set().difference(seen).contains(p));
            assert(before.contains(p) <==> (rest.contains(p) && !seen.contains(p)));
            if current.contains(p) {
                let k = choose|k: int| 0 <= k < current.len() && current[k] == p;
                if k < rest.len() {
                    assert(rest[k] == p);
                    assert(rest.contains(p));
                }
            }
            if rest.contains(p) {
                let k = choose|k: int| 0 <= k < rest.len() && rest[k] == p;
                assert(current[k] == p);
            }
            if before.contains(p) {
                let k = choose|k: int| 0 <= k < before.len() && before[k] == p;
                assert(new_files(seen, current)[k] == p);
            }
            if new_files(seen, current).contains(p) {
                let k = choose|k: int|
                    0 <= k < new_files(seen, current).len() && new_files(seen, current)[k] == p;
                if k < before.len() {
                    assert(before[k] == p);
                    assert(before.contains(p));
                } else {
                    assert(p == last);
                    assert(current[current.len() - 1] == p);
                }
            }
            if p == last && unseen(last) {
                assert(new_files(seen, current)[before.len() as int] == p);
                assert(current[current.len() - 1] == p);
            }
        }
        assert(new_files(seen, current).to_set() =~= current.to_set().difference(seen));
        if current.no_duplicates() {
            assert(rest.no_duplicates());
            if unseen(last) {
                assert(!rest.contains(last)) by {
                    if rest.contains(last) {
                        let k = choose|k: int| 0 <= k < rest.len() && rest[k] == last;
                        assert(current[k] == current[current.len() - 1]);
                    }
                }
                assert(before.to_set().contains(last) <==> rest.to_set().difference(
                    seen,
                ).contains(last));
                assert(!before.contains(last));
            }
        }
    }
}

/// A detector never forgets: what it has seen at one time it has seen at
/// every later time, the baseline included.
pub proof fn lemma_seen_grows(
    baseline: Set<Seq<char>>,
    snapshots: Seq<Seq<Seq<char>>>,
    i: int,
    j: int,
)
    requires
        0 <= i <= j <= snapshots.len(),
    ensures
        baseline.subset_of(seen_after(baseline, snapshots.take(i))),
        seen_after(baseline, snapshots.take(i)).subset_of(seen_after(baseline, snapshots.take(j))),
        i < j ==> snapshots[i].to_set().subset_of(seen_after(baseline, snapshots.take(j))),
    decreases j,
{
    if j == 0 {
        assert(snapshots.take(0) =~= Seq::<Seq<Seq<char>>>::empty());
    } else {
        assert(snapshots.take(j).drop_last() =~= snapshots.take(j - 1));
        assert(snapshots.take(j).last() == snapshots[j - 1]);
        if i < j {
            lemma_seen_grows(baseline, snapshots, i, j - 1);
        } else {
            lemma_seen_grows(baseline, snapshots, i - 1, j - 1);
        }
    }
}

/// A file that was there when the detector started is never reported,
/// whatever the later snapshots hold.
pub proof fn lemma_baseline_is_never_reported(
    baseline: Set<Seq<char>>,
    snapshots: Seq<Seq<Seq<char>>>,
    i: int,
    path: Seq<char>,
)
    requires
        0 <= i < snapshots.len(),
        baseline.contains(path),
    ensures
        !reported(baseline, snapshots, i).contains(path),
{
    let seen = seen_after(baseline, snapshots.take(i));
    lemma_seen_grows(baseline, snapshots, i, i);
    lemma_tick_reports_the_difference(seen, snapshots[i]);
    assert(reported(baseline, snapshots, i).to_set().contains(path) <==> snapshots[i].to_set().difference(
        seen,
    ).contains(path));
}

/// No file is reported twice: what one tick reported, no later tick reports
/// again, even if the file was gone in between.
pub proof fn lemma_nothing_is_reported_twice(
    baseline: Set<Seq<char>>,
    snapshots: Seq<Seq<Seq<char>>>,
    i: int,
    j: int,
    path: Seq<char>,
)
    requires
        0 <= i < j < snapshots.len(),
        reported(baseline, snapshots, i).contains(path),
    ensures
        !reported(baseline, snapshots, j).contains(path),
{
    let seen_i = seen_after(baseline, snapshots.take(i));
    let seen_j = seen_after(baseline, snapshots.take(j));
    lemma_tick_reports_the_difference(seen_i, snapshots[i]);
    lemma_tick_reports_the_difference(seen_j, snapshots[j]);
    lemma_seen_grows(baseline, snapshots, i, j);
    assert(reported(baseline, snapshots, i).to_set().contains(path));
    assert(snapshots[i].to_set().difference(seen_i).contains(path));
    assert(snapshots[i].to_set().contains(path));
    assert(seen_j.contains(path));
    assert(reported(baseline, snapshots, j).to_set().contains(path) <==> snapshots[j].to_set().difference(
        seen_j,
    ).contains(path));
}

/// The first tick reports exactly what came since the start: a detector
/// that started from `baseline` reports for `current` the files that
/// `current` holds and `baseline` does not.
pub proof fn lemma_first_tick_reports_what_came(baseline: Set<Seq<char>>, current: Seq<Seq<char>>)
    ensures
        reported(baseline, seq![current], 0).to_set() == current.to_set().difference(baseline),
{
    assert(seq![current].take(0) =~= Seq::<Seq<Seq<char>>>::empty());
    lemma_tick_reports_the_difference(baseline, current);
}

/// In a directory that only grows, a tick reports exactly what came since
/// the tick before: if the detector started from `baseline`, saw `first`
/// and then `second`, and each holds what the one before held, the tick for
/// `second` reports the files that `second` holds and `first` does not.
pub proof fn lemma_growth_is_reported(
    baseline: Set<Seq<char>>,
    first: Seq<Seq<char>>,
    second: Seq<Seq<char>>,
)
    requires
        baseline.subset_of(first.to_set()),
        first.to_set().subset_of(second.to_set()),
    ensures
        reported(baseline, seq![first, second], 1).to_set() == second.to_set().difference(
            first.to_set(),
        ),
{
    let both = seq![first, second];
    assert(both.take(1) =~= seq![first]);
    assert(seq![first].drop_last() =~= Seq::<Seq<Seq<char>>>::empty());
    assert(seen_after(baseline, Seq::<Seq<Seq<char>>>::empty()) == baseline);
    assert(seen_after(baseline, seq![first]) == baseline.union(first.to_set()));
    assert(baseline.union(first.to_set()) =~= first.to_set());
    lemma_tick_reports_the_difference(first.to_set(), second);
}

/// Where the polling side stands.
#[derive(Debug, PartialEq, Eq)]
pub enum Phase {
    /// Not started.
    Idle,
    /// Started; the first listing is awaited. What it holds is the baseline.
    Baseline,
    /// The next listing is awaited.
    Waiting,
    /// Over, with this outcome.
    Exited(Result<(), ListenerError<String>>),
}

/// [`Phase`] with its texts as sequences of characters.
pub enum PhaseView {
    Idle,
    Baseline,
    Waiting,
    Exited(Result<(), ListenerErrorView>),
}

impl View for Phase {
    type V = PhaseView;

    open spec fn view(&self) -> PhaseView {
        match *self {
            Phase::Idle => PhaseView::Idle,
            Phase::Baseline => PhaseView::Baseline,
            Phase::Waiting => PhaseView::Waiting,
            Phase::Exited(outcome) => PhaseView::Exited(outcome_view(outcome)),
        }
    }
}

/// What the caller is asked to do next.
#[derive(Clone, Copy, Debug, PartialEq, Eq, Structural)]
pub enum ListenerRequest {
    /// List the watched directory.
    Scan,
    /// Sleep for one interval, then list the watched directory.
    SleepAndScan,
    /// Leave the loop.
    Exit,
}

/// What a listener is, seen from outside.
pub struct ListenerView {
    /// The watched directory.
    pub path: Seq<char>,
    /// Where the listener stands.
    pub phase: PhaseView,
    /// The files seen so far.
    pub seen: Set<Seq<char>>,
}

/// A listing, or why there is none, with the reason as a sequence of
/// characters.
pub open spec fn listing_view(listing: Result<Vec<DirEntry>, String>) -> Result<
    Seq<DirEntry>,
    Seq<char>,
> {
    match listing {
        Ok(entries) => Ok(entries@),
        Err(reason) => Err(reason@),
    }
}

/// The request that stands open in `phase`.
pub open spec fn request_of(phase: PhaseView) -> ListenerRequest {
    match phase {
        PhaseView::Idle => ListenerRequest::Exit,
        PhaseView::Baseline => ListenerRequest::Scan,
        PhaseView::Waiting => ListenerRequest::SleepAndScan,
        PhaseView::Exited(_) => ListenerRequest::Exit,
    }
}

/// What `stop` returns for a listener in `phase`.
pub open spec fn stop_outcome(phase: PhaseView) -> Result<(), ListenerErrorView> {
    match phase {
        PhaseView::Idle => Ok(()),
        PhaseView::Exited(outcome) => outcome,
        _ => Err(ListenerErrorView::ThreadError),
    }
}

/// The stop signal is raised: a stop was sent, or the channel for it is not
/// open any more.
pub open spec fn stop_raised(stop_signal: EventChannel<()>) -> bool {
    stop_signal@.len() > 0 || !stop_signal.is_open()
}

/// The files that a listener in `phase` that has seen `seen` finds new in
/// the listing `entries`: none in the first listing, which is the baseline,
/// and afterwards the regular files never seen before, each once, in the
/// listing's order.
pub open spec fn found(phase: PhaseView, seen: Set<Seq<char>>, entries: Seq<DirEntry>) -> Seq<
    Seq<char>,
> {
    match phase {
        PhaseView::Waiting => new_files(seen, distinct(regular_files(entries))),
        _ => Seq::empty(),
    }
}

/// The step completes a cycle: the listener awaited a listing, got one, and
/// the channel takes what was found. Only such a step looks at the stop
/// signal.
pub open spec fn completes_cycle(
    listener: ListenerView,
    listing: Result<Seq<DirEntry>, Seq<char>>,
    open: bool,
) -> bool {
    &&& listener.phase == PhaseView::Baseline || listener.phase == PhaseView::Waiting
    &&& listing matches Ok(entries)
    &&& found(listener.phase, listener.seen, entries).len() == 0 || open
}

/// The listener after the step for `listing`, with what is pending in the
/// channel after it. `pending` is what waits in the channel before, `open`
/// says whether the channel is open, and `stop` whether the stop signal is
/// raised.
///
/// The first listing gives the baseline. Every later listing is one cycle:
/// the regular files never seen before are queued behind what is pending,
/// in the listing's order, and are remembered. The stop signal counts only
/// when a cycle is complete. A listing that could not be read, or a new
/// file that the channel does not take, ends the listener with the error. A
/// listener that is not started, or is over, stays as it is.
pub open spec fn poll_next(
    listener: ListenerView,
    listing: Result<Seq<DirEntry>, Seq<char>>,
    pending: Seq<Seq<char>>,
    open: bool,
    stop: bool,
) -> (ListenerView, Seq<Seq<char>>) {
    if listener.phase != PhaseView::Baseline && listener.phase != PhaseView::Waiting {
        (listener, pending)
    } else {
        match listing {
            Err(reason) => (
                ListenerView {
                    phase: PhaseView::Exited(Err(ListenerErrorView::Io(reason))),
                    ..listener
                },
                pending,
            ),
            Ok(entries) => {
                let events = found(listener.phase, listener.seen, entries);
                let seen = listener.seen.union(regular_files(entries).to_set());
                if events.len() == 0 || open {
                    (
                        ListenerView {
                            phase: if stop {
                                PhaseView::Exited(Ok(()))
                            } else {
                                PhaseView::Waiting
                            },
                            seen: seen,
                            ..listener
                        },
                        pending + events,
                    )
                } else {
                    (
                        ListenerView {
                            phase: PhaseView::Exited(Err(ListenerErrorView::Sender(events[0]))),
                            seen: seen,
                            ..listener
                        },
                        pending,
                    )
                }
            },
        }
    }
}

/// What was there at the first listing is never queued: the first listing
/// queues nothing, and all its regular files count as seen afterwards.
pub proof fn lemma_first_listing_is_the_baseline(
    listener: ListenerView,
    entries: Seq<DirEntry>,
    pending: Seq<Seq<char>>,
    open: bool,
    stop: bool,
)
    requires
        listener.phase == PhaseView::Baseline,
    ensures
        poll_next(listener, Ok(entries), pending, open, stop).1 == pending,
        regular_files(entries).to_set().subset_of(
            poll_next(listener, Ok(entries), pending, open, stop).0.seen,
        ),
{
    assert(pending + Seq::<Seq<char>>::empty() =~= pending);
}

/// A listener queues no file that it has seen, and forgets no file: after
/// any step a seen file is still seen, and it is not among what the step
/// queued.
pub proof fn lemma_seen_is_never_queued(
    listener: ListenerView,
    listing: Result<Seq<DirEntry>, Seq<char>>,
    pending: Seq<Seq<char>>,
    open: bool,
    stop: bool,
    path: Seq<char>,
)
    requires
        listener.seen.contains(path),
    ensures
        poll_next(listener, listing, pending, open, stop).0.seen.contains(path),
        forall|k: int|
            pending.len() <= k < poll_next(listener, listing, pending, open, stop).1.len()
                ==> poll_next(listener, listing, pending, open, stop).1[k] != path,
{
    if let Ok(entries) = listing {
        let events = found(listener.phase, listener.seen, entries);
        if listener.phase == PhaseView::Waiting {
            lemma_tick_reports_the_difference(listener.seen, distinct(regular_files(entries)));
            assert(!events.to_set().contains(path));
            assert forall|k: int| 0 <= k < events.len() implies events[k] != path by {
                if events[k] == path {
                    assert(events.contains(path));
                }
            }
        }
    }
}

/// What a step queues is seen afterwards, so that no later step can queue
/// it again; and what it queues, the listing holds as a regular file.
pub proof fn lemma_queued_is_seen(
    listener: ListenerView,
    entries: Seq<DirEntry>,
    pending: Seq<Seq<char>>,
    open: bool,
    stop: bool,
    k: int,
)
    requires
        pending.len() <= k < poll_next(listener, Ok(entries), pending, open, stop).1.len(),
    ensures
        poll_next(listener, Ok(entries), pending, open, stop).0.seen.contains(
            poll_next(listener, Ok(entries), pending, open, stop).1[k],
        ),
        regular_files(entries).contains(poll_next(listener, Ok(entries), pending, open, stop).1[k]),
        !listener.seen.contains(poll_next(listener, Ok(entries), pending, open, stop).1[k]),
{
    let events = found(listener.phase, listener.seen, entries);
    let files = distinct(regular_files(entries));
    let path = poll_next(listener, Ok(entries), pending, open, stop).1[k];
    assert(listener.phase == PhaseView::Waiting);
    assert(path == events[k - pending.len()]);
    assert(events.contains(path));
    lemma_tick_reports_the_difference(listener.seen, files);
    lemma_distinct(regular_files(entries));
    assert(events.to_set().contains(path));
    assert(files.to_set().difference(listener.seen).contains(path));
    assert(regular_files(entries).to_set().contains(path));
}

/// A raised stop ends the loop with the cycle under way: the step of a
/// started listener that finds the stop signal raised leaves the listener
/// over, whatever the listing holds.
pub proof fn lemma_stop_ends_the_loop(
    listener: ListenerView,
    listing: Result<Seq<DirEntry>, Seq<char>>,
    pending: Seq<Seq<char>>,
    open: bool,
)
    requires
        listener.phase == PhaseView::Baseline || listener.phase == PhaseView::Waiting,
    ensures
        poll_next(listener, listing, pending, open, true).0.phase is Exited,
{
}

/// The loop is left only between cycles: a step that ends the listener
/// without an error has queued all that its listing held new.
pub proof fn lemma_stop_loses_nothing(
    listener: ListenerView,
    listing: Result<Seq<DirEntry>, Seq<char>>,
    pending: Seq<Seq<char>>,
    open: bool,
    stop: bool,
)
    requires
        listener.phase == PhaseView::Baseline || listener.phase == PhaseView::Waiting,
        poll_next(listener, listing, pending, open, stop).0.phase == PhaseView::Exited(Ok(())),
    ensures
        stop,
        listing matches Ok(entries) && poll_next(listener, listing, pending, open, stop).1
            == pending + found(listener.phase, listener.seen, entries),
{
}

/// The listener after one step for each of `listings`, in their order,
/// with what is pending in the channel after them if nothing is received
/// meanwhile. `stops[i]` says whether the stop signal is raised at the step
/// for `listings[i]`.
pub open spec fn poll_run(
    listener: ListenerView,
    listings: Seq<Result<Seq<DirEntry>, Seq<char>>>,
    stops: Seq<bool>,
    pending: Seq<Seq<char>>,
    open: bool,
) -> (ListenerView, Seq<Seq<char>>)
    decreases listings.len(),
{
    if listings.len() == 0 {
        (listener, pending)
    } else {
        let (before, queued) = poll_run(listener, listings.drop_last(), stops, pending, open);
        poll_next(before, listings.last(), queued, open, stops[listings.len() - 1])
    }
}

/// Over any run of the loop the listener queues behind what is pending,
/// queues only files that it had not seen, remembers what it queues, and
/// queues no file twice.
pub proof fn lemma_run_queues_each_file_once(
    listener: ListenerView,
    listings: Seq<Result<Seq<DirEntry>, Seq<char>>>,
    stops: Seq<bool>,
    pending: Seq<Seq<char>>,
    open: bool,
)
    ensures
        ({
            let (after, queued) = poll_run(listener, listings, stops, pending, open);
            &&& pending.len() <= queued.len()
            &&& queued.take(pending.len() as int) == pending
            &&& listener.seen.subset_of(after.seen)
            &&& forall|k: int|
                pending.len() <= k < queued.len() ==> after.seen.contains(#[trigger] queued[k])
                    && !listener.seen.contains(queued[k])
            &&& forall|i: int, j: int|
                pending.len() <= i < j < queued.len() ==> #[trigger] queued[i]
                    != #[trigger] queued[j]
        }),
    decreases listings.len(),
{
    if listings.len() == 0 {
        assert(pending.take(pending.len() as int) =~= pending);
    } else {
        let (before, earlier) = poll_run(listener, listings.drop_last(), stops, pending, open);
        let stop = stops[listings.len() - 1];
        let (after, queued) = poll_next(before, listings.last(), earlier, open, stop);
        lemma_run_queues_each_file_once(listener, listings.drop_last(), stops, pending, open);
        assert(queued.take(pending.len() as int) =~= earlier.take(pending.len() as int));
        assert forall|p: Seq<char>| before.seen.contains(p) implies after.seen.contains(p) by {
            lemma_seen_is_never_queued(before, listings.last(), earlier, open, stop, p);
        }
        assert forall|k: int| pending.len() <= k < queued.len() implies after.seen.contains(
            #[trigger] queued[k],
        ) && !listener.seen.contains(queued[k]) by {
            if k < earlier.len() {
                assert(queued[k] == earlier[k]);
            } else {
                let entries = listings.last()->Ok_0;
                lemma_queued_is_seen(before, entries, earlier, open, stop, k);
            }
        }
        assert forall|i: int, j: int| pending.len() <= i < j < queued.len() implies #[trigger] queued[i]
            != #[trigger] queued[j] by {
            if j < earlier.len() {
                assert(queued[i] == earlier[i] && queued[j] == earlier[j]);
            } else {
                let entries = listings.last()->Ok_0;
                let events = found(before.phase, before.seen, entries);
                lemma_queued_is_seen(before, entries, earlier, open, stop, j);
                if i < earlier.len() {
                    assert(queued[i] == earlier[i]);
                    assert(before.seen.contains(earlier[i]));
                } else {
                    lemma_distinct(regular_files(entries));
                    lemma_tick_reports_the_difference(
                        before.seen,
                        distinct(regular_files(entries)),
                    );
                    assert(queued[i] == events[i - earlier.len()]);
                    assert(queued[j] == events[j - earlier.len()]);
                }
            }
        }
    }
}

/// What was there at the first listing is never queued, however long the
/// loop runs and whatever the later listings hold.
pub proof fn lemma_run_never_queues_the_baseline(
    listener: ListenerView,
    listings: Seq<Result<Seq<DirEntry>, Seq<char>>>,
    stops: Seq<bool>,
    pending: Seq<Seq<char>>,
    open: bool,
    path: Seq<char>,
)
    requires
        listener.phase == PhaseView::Baseline,
        listings.len() > 0,
        listings[0] matches Ok(entries) && regular_files(entries).contains(path),
    ensures
        forall|k: int|
            pending.len() <= k < poll_run(listener, listings, stops, pending, open).1.len()
                ==> poll_run(listener, listings, stops, pending, open).1[k] != path,
    decreases listings.len(),
{
    let first = seq![listings[0]];
    let entries = listings[0]->Ok_0;
    if listings.len() == 1 {
        assert(listings =~= first);
        assert(listings.drop_last() =~= Seq::<Result<Seq<DirEntry>, Seq<char>>>::empty());
        lemma_first_listing_is_the_baseline(listener, entries, pending, open, stops[0]);
    } else {
        let (before, earlier) = poll_run(listener, listings.drop_last(), stops, pending, open);
        let stop = stops[listings.len() - 1];
        lemma_run_never_queues_the_baseline(
            listener,
            listings.drop_last(),
            stops,
            pending,
            open,
            path,
        );
        lemma_run_queues_each_file_once(listener, listings.drop_last(), stops, pending, open);
        lemma_baseline_stays_seen(listener, listings.drop_last(), stops, pending, open, path);
        lemma_seen_is_never_queued(before, listings.last(), earlier, open, stop, path);
        let queued = poll_next(before, listings.last(), earlier, open, stop).1;
        assert forall|k: int| pending.len() <= k < queued.len() implies queued[k] != path by {
            if k < earlier.len() {
                assert(earlier.take(pending.len() as int) == pending);
                assert(queued[k] == earlier[k]) by {
                    lemma_run_step_keeps_the_queue(before, listings.last(), earlier, open, stop);
                }
            }
        }
    }
}

/// A step of the loop leaves what is pending where it is.
proof fn lemma_run_step_keeps_the_queue(
    listener: ListenerView,
    listing: Result<Seq<DirEntry>, Seq<char>>,
    pending: Seq<Seq<char>>,
    open: bool,
    stop: bool,
)
    ensures
        pending.len() <= poll_next(listener, listing, pending, open, stop).1.len(),
        forall|k: int|
            0 <= k < pending.len() ==> poll_next(listener, listing, pending, open, stop).1[k]
                == pending[k],
{
}

/// The regular files of the first listing are seen after any run that
/// starts with it.
proof fn lemma_baseline_stays_seen(
    listener: ListenerView,
    listings: Seq<Result<Seq<DirEntry>, Seq<char>>>,
    stops: Seq<bool>,
    pending: Seq<Seq<char>>,
    open: bool,
    path: Seq<char>,
)
    requires
        listener.phase == PhaseView::Baseline,
        listings.len() > 0,
        listings[0] matches Ok(entries) && regular_files(entries).contains(path),
    ensures
        poll_run(listener, listings, stops, pending, open).0.seen.contains(path),
    decreases listings.len(),
{
    let entries = listings[0]->Ok_0;
    if listings.len() == 1 {
        assert(listings.drop_last() =~= Seq::<Result<Seq<DirEntry>, Seq<char>>>::empty());
        assert(listings.last() == listings[0]);
        lemma_first_listing_is_the_baseline(listener, entries, pending, open, stops[0]);
        assert(regular_files(entries).to_set().contains(path));
    } else {
        let (before, earlier) = poll_run(listener, listings.drop_last(), stops, pending, open);
        lemma_baseline_stays_seen(listener, listings.drop_last(), stops, pending, open, path);
        lemma_seen_is_never_queued(
            before,
            listings.last(),
            earlier,
            open,
            stops[listings.len() - 1],
            path,
        );
    }
}

/// Watches one directory for new regular files.
pub struct ScreenshotListener {
    path: String,
    phase: Phase,
    detector: ChangeDetector,
}

impl View for ScreenshotListener {
    type V = ListenerView;

    closed spec fn view(&self) -> ListenerView {
        ListenerView { path: self.path@, phase: self.phase@, seen: self.detector@ }
    }
}

impl ScreenshotListener {
    /// A listener for the directory `path`, not started.
    pub fn new(path: &str) -> (listener: ScreenshotListener)
        ensures
            listener@ == (ListenerView {
                path: path@,
                phase: PhaseView::Idle,
                seen: Set::<Seq<char>>::empty(),
            }),
    {
        ScreenshotListener {
            path: path.to_owned(),
            phase: Phase::Idle,
            detector: ChangeDetector::new(FileSet::new()),
        }
    }

    /// Starts the listener. It gives the channel on which the listener will
    /// hand on what it finds, and the channel on which it is told to stop;
    /// both are open and empty. A listener is started once.
    pub fn listen(&mut self) -> (channels: (EventChannel<String>, EventChannel<()>))
        requires
            old(self)@.phase == PhaseView::Idle,
        ensures
            final(self)@ == (ListenerView { phase: PhaseView::Baseline, ..old(self)@ }),
            channels.0@ == Seq::<String>::empty(),
            channels.0.is_open(),
            channels.1@ == Seq::<()>::empty(),
            channels.1.is_open(),
    {
        self.phase = Phase::Baseline;
        (EventChannel::new(), EventChannel::new())
    }

    /// Whether the listener was started.
    pub fn is_listening(&self) -> (listening: bool)
        ensures
            listening == (self@.phase != PhaseView::Idle),
    {
        !matches!(self.phase, Phase::Idle)
    }

    /// The watched directory.
    pub fn path(&self) -> (path: &String)
        ensures
            path@ == self@.path,
    {
        &self.path
    }

    /// What the caller has to do next.
    pub fn request(&self) -> (request: ListenerRequest)
        ensures
            request == request_of(self@.phase),
    {
        match self.phase {
            Phase::Idle => ListenerRequest::Exit,
            Phase::Baseline => ListenerRequest::Scan,
            Phase::Waiting => ListenerRequest::SleepAndScan,
            Phase::Exited(_) => ListenerRequest::Exit,
        }
    }

    /// The regular files of a listing, each once, in the listing's order.
    /// Entries of another kind, and entries of which nothing is known, are
    /// left out.
    pub fn get_images(entries: &Vec<DirEntry>) -> (images: FileSet)
        ensures
            images.order() == distinct(regular_files(entries@)),
            images@ == regular_files(entries@).to_set(),
    {
        let ghost wanted = |entry: DirEntry| entry.is_file();
        let ghost path = |entry: DirEntry| entry.path@;
        let mut images = FileSet::new();
        let mut i: usize = 0;
        proof {
            reveal(Seq::filter);
            assert(entries@.take(0) =~= Seq::<DirEntry>::empty());
            assert(entries@.take(0).filter(wanted).map_values(path) =~= Seq::<Seq<char>>::empty());
        }
        while i < entries.len()
            invariant
                i <= entries.len(),
                wanted == |entry: DirEntry| entry.is_file(),
                path == |entry: DirEntry| entry.path@,
                images.order() == distinct(entries@.take(i as int).filter(wanted).map_values(path)),
            decreases entries.len() - i,
        {
            let entry = &entries[i];
            let ghost files = entries@.take(i as int).filter(wanted).map_values(path);
            proof {
                assert(entries@.take(i + 1) =~= entries@.take(i as int).push(*entry));
                entries@.take(i as int).lemma_filter_push(*entry, wanted);
                lemma_distinct(files);
            }
            if matches!(entry.kind, EntryKind::File) {
                proof {
                    assert(entries@.take(i as int).filter(wanted).push(*entry).map_values(path)
                        =~= files.push(entry.path@));
                    lemma_distinct_push(files, entry.path@);
                    assert(images@.contains(entry.path@) <==> files.contains(entry.path@));
                }
                images.insert(entry.path.clone());
            }
            i += 1;
        }
        proof {
            assert(entries@.take(i as int) =~= entries@);
            lemma_distinct(regular_files(entries@));
        }
        images
    }

    /// Queues `events` on `channel`, in their order. A channel that is not
    /// open takes none of them, and the first comes back in the error.
    pub fn forward(events: &Vec<String>, channel: &mut EventChannel<String>) -> (sent: Result<
        (),
        ListenerError<String>,
    >)
        ensures
            final(channel).has_sender() == old(channel).has_sender(),
            final(channel).has_receiver() == old(channel).has_receiver(),
            events@.len() == 0 || old(channel).is_open() ==> sent is Ok && final(channel)@ == old(
                channel,
            )@ + events@,
            events@.len() > 0 && !old(channel).is_open() ==> sent == Err::<
                (),
                ListenerError<String>,
            >(ListenerError::Sender(events@[0])) && final(channel)@ == old(channel)@,
    {
        let mut i: usize = 0;
        assert(channel@ =~= old(channel)@ + events@.take(0));
        while i < events.len()
            invariant
                i <= events.len(),
                channel.has_sender() == old(channel).has_sender(),
                channel.has_receiver() == old(channel).has_receiver(),
                channel@ == old(channel)@ + events@.take(i as int),
                i > 0 ==> old(channel).is_open(),
            decreases events.len() - i,
        {
            match channel.send(events[i].clone()) {
                Ok(_) => {
                    assert(channel@ =~= old(channel)@ + events@.take(i + 1));
                },
                Err(error) => {
                    assert(channel@ =~= old(channel)@);
                    return Err(error);
                },
            }
            i += 1;
        }
        assert(events@.take(i as int) =~= events@);
        Ok(())
    }

    /// One step of the polling loop: takes the listing that was asked for,
    /// queues what is new in it on `sender`, and then looks at
    /// `stop_signal`, from which it takes one stop if there is one.
    pub fn poll(
        &mut self,
        listing: Result<Vec<DirEntry>, String>,
        sender: &mut EventChannel<String>,
        stop_signal: &mut EventChannel<()>,
    )
        ensures
            (final(self)@, paths_of(final(sender)@)) == poll_next(
                old(self)@,
                listing_view(listing),
                paths_of(old(sender)@),
                old(sender).is_open(),
                stop_raised(*old(stop_signal)),
            ),
            final(sender)@.take(old(sender)@.len() as int) == old(sender)@,
            final(sender).has_sender() == old(sender).has_sender(),
            final(sender).has_receiver() == old(sender).has_receiver(),
            final(stop_signal)@ == if completes_cycle(
                old(self)@,
                listing_view(listing),
                old(sender).is_open(),
            ) && old(stop_signal)@.len() > 0 {
                old(stop_signal)@.skip(1)
            } else {
                old(stop_signal)@
            },
            final(stop_signal).has_sender() == old(stop_signal).has_sender(),
            final(stop_signal).has_receiver() == old(stop_signal).has_receiver(),
    {
        assert(sender@.take(sender@.len() as int) =~= sender@);
        let first = match self.phase {
            Phase::Baseline => true,
            Phase::Waiting => false,
            _ => {
                return ;
            },
        };
        match listing {
            Err(reason) => {
                self.phase = Phase::Exited(Err(ListenerError::Io(reason)));
            },
            Ok(entries) => {
                let images = Self::get_images(&entries);
                let unseen = self.detector.tick(&images);
                let events = if first {
                    Vec::new()
                } else {
                    unseen
                };
                assert(paths_of(events@) =~= found(old(self)@.phase, old(self)@.seen, entries@));
                let ghost queued = sender@;
                match Self::forward(&events, sender) {
                    Ok(_) => {
                        assert(paths_of(sender@) =~= paths_of(queued) + paths_of(events@));
                        assert(sender@.take(queued.len() as int) =~= queued);
                        match stop_signal.try_receive() {
                            Err(TryReceiveError::Empty) => {
                                self.phase = Phase::Waiting;
                            },
                            _ => {
                                self.phase = Phase::Exited(Ok(()));
                            },
                        }
                    },
                    Err(error) => {
                        self.phase = Phase::Exited(Err(error));
                    },
                }
            },
        }
    }

    /// Ends the listener and says how its loop went: well for one that was
    /// never started, as the loop ended for one that left its loop, and
    /// with [`ListenerError::ThreadError`] for one that did not get that far.
    pub fn stop(self) -> (outcome: Result<(), ListenerError<String>>)
        ensures
            outcome_view(outcome) == stop_outcome(self@.phase),
    {
        match self.phase {
            Phase::Idle => Ok(()),
            Phase::Exited(outcome) => outcome,
            _ => Err(ListenerError::ThreadError),
        }
    }
}

} // verus!
