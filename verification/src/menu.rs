//! The interactive side: choosing a note directory and moving new
//! screenshots into it.
//!
//! The workflow is a state machine. In every state but the last it waits for
//! the answer to one request, [`MenuState::request`]; the caller carries the
//! request out and hands the answer to [`menu`], which gives the next state.

use crate::channel::{EventChannel, TryReceiveError};
use crate::file_set::paths_of;
use vstd::prelude::*;
use vstd::string::*;

verus! {

/// How far the moving of one image has got.
#[derive(Debug, PartialEq, Eq)]
pub enum Move {
    /// The new name of the image was asked for.
    Naming(String),
    /// The move of the image to the target was put to the user.
    Confirming(String, String),
    /// The renaming of the image to the target was ordered.
    Renaming(String, String),
}

/// [`Move`] with its paths as sequences of characters.
pub enum MoveView {
    Naming(Seq<char>),
    Confirming(Seq<char>, Seq<char>),
    Renaming(Seq<char>, Seq<char>),
}

impl View for Move {
    type V = MoveView;

    open spec fn view(&self) -> MoveView {
        match *self {
            Move::Naming(image) => MoveView::Naming(image@),
            Move::Confirming(image, to) => MoveView::Confirming(image@, to@),
            Move::Renaming(image, to) => MoveView::Renaming(image@, to@),
        }
    }
}

/// Where the workflow stands.
#[derive(Debug, PartialEq, Eq)]
pub enum MenuState {
    /// No note directory is chosen.
    Selection,
    /// The named note directory receives the images. With a move under way
    /// the workflow waits for its next answer, else for the word whether to
    /// go on.
    Listening(String, Option<Move>),
    /// The workflow is over.
    Stopped,
}

/// [`MenuState`] with its paths as sequences of characters.
pub enum MenuStateView {
    Selection,
    Listening(Seq<char>, Option<MoveView>),
    Stopped,
}

impl View for MenuState {
    type V = MenuStateView;

    open spec fn view(&self) -> MenuStateView {
        match *self {
            MenuState::Selection => MenuStateView::Selection,
            MenuState::Listening(destination, None) => MenuStateView::Listening(
                destination@,
                None,
            ),
            MenuState::Listening(destination, Some(moving)) => MenuStateView::Listening(
                destination@,
                Some(moving@),
            ),
            MenuState::Stopped => MenuStateView::Stopped,
        }
    }
}

/// What the caller is asked to do next.
#[derive(Debug, PartialEq, Eq)]
pub enum MenuRequest {
    /// Show the note directories and read a choice.
    Select,
    /// Read the new name for the image.
    Input(String),
    /// Ask whether the image shall be moved to the target.
    Confirm(String),
    /// Rename the image to the target.
    Rename(String, String),
    /// Ask whether to go on listening.
    ConfirmOpt,
    /// Leave the workflow.
    Exit,
}

/// [`MenuRequest`] with its paths as sequences of characters.
pub enum MenuRequestView {
    Select,
    Input(Seq<char>),
    Confirm(Seq<char>),
    Rename(Seq<char>, Seq<char>),
    ConfirmOpt,
    Exit,
}

impl View for MenuRequest {
    type V = MenuRequestView;

    open spec fn view(&self) -> MenuRequestView {
        match *self {
            MenuRequest::Select => MenuRequestView::Select,
            MenuRequest::Input(image) => MenuRequestView::Input(image@),
            MenuRequest::Confirm(to) => MenuRequestView::Confirm(to@),
            MenuRequest::Rename(image, to) => MenuRequestView::Rename(image@, to@),
            MenuRequest::ConfirmOpt => MenuRequestView::ConfirmOpt,
            MenuRequest::Exit => MenuRequestView::Exit,
        }
    }
}

/// The answer to a request.
#[derive(Debug, PartialEq, Eq)]
pub enum MenuEvent {
    /// The index of the chosen note directory, or nothing to leave.
    Selected(Option<usize>),
    /// The new name.
    Named(String),
    /// Whether the move was agreed to.
    Confirmed(bool),
    /// How the renaming went; a failure says why.
    Renamed(Result<(), String>),
    /// Go on listening, go back to the selection, or nothing to leave.
    Continue(Option<bool>),
}

/// [`MenuEvent`] with its texts as sequences of characters.
pub enum MenuEventView {
    Selected(Option<usize>),
    Named(Seq<char>),
    Confirmed(bool),
    Renamed(Result<(), Seq<char>>),
    Continue(Option<bool>),
}

impl View for MenuEvent {
    type V = MenuEventView;

    open spec fn view(&self) -> MenuEventView {
        match *self {
            MenuEvent::Selected(choice) => MenuEventView::Selected(choice),
            MenuEvent::Named(name) => MenuEventView::Named(name@),
            MenuEvent::Confirmed(yes) => MenuEventView::Confirmed(yes),
            MenuEvent::Renamed(Ok(_)) => MenuEventView::Renamed(Ok(())),
            MenuEvent::Renamed(Err(reason)) => MenuEventView::Renamed(Err(reason@)),
            MenuEvent::Continue(answer) => MenuEventView::Continue(answer),
        }
    }
}

/// What went wrong in a step of the workflow.
#[derive(Debug, PartialEq, Eq)]
pub enum MenuError {
    /// The answer does not fit the request: an index that names no note
    /// directory, or an answer to something that was not asked.
    InvalidSelection,
    /// The image could not be renamed to the target; the third text says why.
    Rename(String, String, String),
    /// The polling side is gone and nothing is pending.
    ListenerDied,
}

/// [`MenuError`] with its texts as sequences of characters.
pub enum MenuErrorView {
    InvalidSelection,
    Rename(Seq<char>, Seq<char>, Seq<char>),
    ListenerDied,
}

impl View for MenuError {
    type V = MenuErrorView;

    open spec fn view(&self) -> MenuErrorView {
        match *self {
            MenuError::InvalidSelection => MenuErrorView::InvalidSelection,
            MenuError::Rename(image, to, reason) => MenuErrorView::Rename(image@, to@, reason@),
            MenuError::ListenerDied => MenuErrorView::ListenerDied,
        }
    }
}

/// What one answer did to the moving of one image.
#[derive(Debug, PartialEq, Eq)]
pub enum MoveOutcome {
    /// The move goes on with the next request.
    Asking(Move),
    /// The image was renamed.
    Moved,
    /// The user declined; the image stays where it is.
    Declined,
    /// The renaming failed; the image stays where it is.
    Failed(MenuError),
    /// The answer was not the one waited for; the move stands as before.
    Unanswered(Move),
}

/// [`MoveOutcome`] with its paths as sequences of characters.
pub enum MoveOutcomeView {
    Asking(MoveView),
    Moved,
    Declined,
    Failed(MenuErrorView),
    Unanswered(MoveView),
}

impl View for MoveOutcome {
    type V = MoveOutcomeView;

    open spec fn view(&self) -> MoveOutcomeView {
        match *self {
            MoveOutcome::Asking(moving) => MoveOutcomeView::Asking(moving@),
            MoveOutcome::Moved => MoveOutcomeView::Moved,
            MoveOutcome::Declined => MoveOutcomeView::Declined,
            MoveOutcome::Failed(error) => MoveOutcomeView::Failed(error@),
            MoveOutcome::Unanswered(moving) => MoveOutcomeView::Unanswered(moving@),
        }
    }
}

/// The result of one step: the next state, and what went wrong in the step.
#[derive(Debug, PartialEq, Eq)]
pub struct MenuStep {
    /// The state after the step.
    pub state: MenuState,
    /// What to tell the user, in the order in which it happened. With
    /// [`MenuError::ListenerDied`] among it the workflow has stopped for good.
    pub errors: Vec<MenuError>,
}

/// [`MenuStep`] with its texts as sequences of characters.
pub struct MenuStepView {
    pub state: MenuStateView,
    pub errors: Seq<MenuErrorView>,
}

/// The errors with their texts as sequences of characters, one for one.
pub open spec fn errors_of(errors: Seq<MenuError>) -> Seq<MenuErrorView> {
    errors.map_values(|error: MenuError| error@)
}

impl View for MenuStep {
    type V = MenuStepView;

    open spec fn view(&self) -> MenuStepView {
        MenuStepView { state: self.state@, errors: errors_of(self.errors@) }
    }
}

/// The path `<destination>/img/<name>`.
pub open spec fn move_target(destination: Seq<char>, name: Seq<char>) -> Seq<char> {
    destination + seq!['/', 'i', 'm', 'g', '/'] + name
}

/// What `event` does to the move `moving` into `destination`.
pub open spec fn move_next(
    moving: MoveView,
    destination: Seq<char>,
    event: MenuEventView,
) -> MoveOutcomeView {
    match (moving, event) {
        (MoveView::Naming(image), MenuEventView::Named(name)) => MoveOutcomeView::Asking(
            MoveView::Confirming(image, move_target(destination, name)),
        ),
        (MoveView::Confirming(image, to), MenuEventView::Confirmed(yes)) => if yes {
            MoveOutcomeView::Asking(MoveView::Renaming(image, to))
        } else {
            MoveOutcomeView::Declined
        },
        (MoveView::Renaming(_, _), MenuEventView::Renamed(Ok(_))) => MoveOutcomeView::Moved,
        (MoveView::Renaming(image, to), MenuEventView::Renamed(Err(reason))) => {
            MoveOutcomeView::Failed(MenuErrorView::Rename(image, to, reason))
        },
        _ => MoveOutcomeView::Unanswered(moving),
    }
}

/// The request that stands open in `state`.
pub open spec fn request_of(state: MenuStateView) -> MenuRequestView {
    match state {
        MenuStateView::Selection => MenuRequestView::Select,
        MenuStateView::Listening(_, Some(MoveView::Naming(image))) => MenuRequestView::Input(
            image,
        ),
        MenuStateView::Listening(_, Some(MoveView::Confirming(_, to))) => {
            MenuRequestView::Confirm(to)
        },
        MenuStateView::Listening(_, Some(MoveView::Renaming(image, to))) => {
            MenuRequestView::Rename(image, to)
        },
        MenuStateView::Listening(_, None) => MenuRequestView::ConfirmOpt,
        MenuStateView::Stopped => MenuRequestView::Exit,
    }
}

/// The step that turns to the next pending event while `destination` is
/// listened for, with what stays pending after it: the oldest pending event
/// becomes the image of a new move; with nothing pending the user is asked
/// whether to go on, unless the channel is not open, which ends the
/// workflow. `errors` is what went wrong in the step before.
pub open spec fn listen_next(
    destination: Seq<char>,
    errors: Seq<MenuErrorView>,
    pending: Seq<Seq<char>>,
    open: bool,
) -> (MenuStepView, Seq<Seq<char>>) {
    if pending.len() > 0 {
        (
            MenuStepView {
                state: MenuStateView::Listening(destination, Some(MoveView::Naming(pending[0]))),
                errors: errors,
            },
            pending.skip(1),
        )
    } else if open {
        (
            MenuStepView { state: MenuStateView::Listening(destination, None), errors: errors },
            pending,
        )
    } else {
        (
            MenuStepView {
                state: MenuStateView::Stopped,
                errors: errors.push(MenuErrorView::ListenerDied),
            },
            pending,
        )
    }
}

/// The step that `event` causes in `state`, with what stays pending after
/// it. `notes` are the note directories on offer, `pending` the events that
/// wait in the channel, and `open` says whether the channel is open.
pub open spec fn menu_next(
    state: MenuStateView,
    event: MenuEventView,
    notes: Seq<Seq<char>>,
    pending: Seq<Seq<char>>,
    open: bool,
) -> (MenuStepView, Seq<Seq<char>>) {
    let refused = (
        MenuStepView { state: state, errors: seq![MenuErrorView::InvalidSelection] },
        pending,
    );
    match state {
        MenuStateView::Stopped => (MenuStepView { state: state, errors: seq![] }, pending),
        MenuStateView::Selection => match event {
            MenuEventView::Selected(Some(index)) => if index < notes.len() {
                listen_next(notes[index as int], seq![], pending, open)
            } else {
                refused
            },
            MenuEventView::Selected(None) => (
                MenuStepView { state: MenuStateView::Stopped, errors: seq![] },
                pending,
            ),
            _ => refused,
        },
        MenuStateView::Listening(destination, Some(moving)) => match move_next(
            moving,
            destination,
            event,
        ) {
            MoveOutcomeView::Asking(next) => (
                MenuStepView {
                    state: MenuStateView::Listening(destination, Some(next)),
                    errors: seq![],
                },
                pending,
            ),
            MoveOutcomeView::Moved => listen_next(destination, seq![], pending, open),
            MoveOutcomeView::Declined => listen_next(destination, seq![], pending, open),
            MoveOutcomeView::Failed(error) => listen_next(destination, seq![error], pending, open),
            MoveOutcomeView::Unanswered(_) => refused,
        },
        MenuStateView::Listening(destination, None) => match event {
            MenuEventView::Continue(Some(yes)) => if yes {
                listen_next(destination, seq![], pending, open)
            } else {
                (MenuStepView { state: MenuStateView::Selection, errors: seq![] }, pending)
            },
            MenuEventView::Continue(None) => (
                MenuStepView { state: MenuStateView::Stopped, errors: seq![] },
                pending,
            ),
            _ => refused,
        },
    }
}

/// A stopped workflow stays stopped: no answer starts it again, and it
/// takes nothing from the channel.
pub proof fn lemma_stopped_is_terminal(
    event: MenuEventView,
    notes: Seq<Seq<char>>,
    pending: Seq<Seq<char>>,
    open: bool,
)
    ensures
        menu_next(MenuStateView::Stopped, event, notes, pending, open) == (
            MenuStepView { state: MenuStateView::Stopped, errors: seq![] },
            pending,
        ),
{
}

/// One note directory receives the images at a time, and it changes only
/// by way of the selection: a step that leads from listening to listening
/// keeps the directory.
pub proof fn lemma_destination_is_kept(
    destination: Seq<char>,
    moving: Option<MoveView>,
    event: MenuEventView,
    notes: Seq<Seq<char>>,
    pending: Seq<Seq<char>>,
    open: bool,
)
    ensures
        match menu_next(
            MenuStateView::Listening(destination, moving),
            event,
            notes,
            pending,
            open,
        ).0.state {
            MenuStateView::Listening(next, _) => next == destination,
            _ => true,
        },
{
}

/// The note directory that the selection leads to is the one on offer at
/// the chosen index.
pub proof fn lemma_destination_was_offered(
    event: MenuEventView,
    notes: Seq<Seq<char>>,
    pending: Seq<Seq<char>>,
    open: bool,
)
    ensures
        match menu_next(MenuStateView::Selection, event, notes, pending, open).0.state {
            MenuStateView::Listening(destination, _) => match event {
                MenuEventView::Selected(Some(index)) => index < notes.len() && notes[index as int]
                    == destination,
                _ => false,
            },
            _ => true,
        },
{
}

/// An image is moved to `<destination>/img/<name>`: that is the target
/// which the name read for the image leads to, and no other target is ever
/// put to the user or renamed to.
pub proof fn lemma_target_is_below_img(
    destination: Seq<char>,
    image: Seq<char>,
    name: Seq<char>,
    notes: Seq<Seq<char>>,
    pending: Seq<Seq<char>>,
    open: bool,
)
    ensures
        menu_next(
            MenuStateView::Listening(destination, Some(MoveView::Naming(image))),
            MenuEventView::Named(name),
            notes,
            pending,
            open,
        ) == (
            MenuStepView {
                state: MenuStateView::Listening(
                    destination,
                    Some(
                        MoveView::Confirming(
                            image,
                            destination + seq!['/', 'i', 'm', 'g', '/'] + name,
                        ),
                    ),
                ),
                errors: seq![],
            },
            pending,
        ),
{
}

/// Declining leaves the image alone: after the user's no, the step turns to
/// the next pending event, no renaming is ordered, and the declined image
/// is not queued again.
pub proof fn lemma_declined_move_is_dropped(
    destination: Seq<char>,
    image: Seq<char>,
    to: Seq<char>,
    notes: Seq<Seq<char>>,
    pending: Seq<Seq<char>>,
    open: bool,
)
    ensures
        ({
            let (step, rest) = menu_next(
                MenuStateView::Listening(destination, Some(MoveView::Confirming(image, to))),
                MenuEventView::Confirmed(false),
                notes,
                pending,
                open,
            );
            &&& (step, rest) == listen_next(destination, seq![], pending, open)
            &&& !(request_of(step.state) is Rename)
            &&& rest == pending || rest == pending.skip(1)
        }),
{
}

/// A renaming is ordered only on the user's word: the request that stands
/// open after a step is a renaming only if the user has just agreed to this
/// very move, or if the renaming stood open before and was not answered.
pub proof fn lemma_renaming_needs_consent(
    state: MenuStateView,
    event: MenuEventView,
    notes: Seq<Seq<char>>,
    pending: Seq<Seq<char>>,
    open: bool,
)
    ensures
        match request_of(menu_next(state, event, notes, pending, open).0.state) {
            MenuRequestView::Rename(image, to) => match state {
                MenuStateView::Listening(_, Some(MoveView::Confirming(i, t))) => i == image && t
                    == to && event == MenuEventView::Confirmed(true),
                MenuStateView::Listening(_, Some(MoveView::Renaming(i, t))) => i == image && t
                    == to && !(event is Renamed),
                _ => false,
            },
            _ => true,
        },
{
}

/// Events are taken from the channel oldest first and one at a time, and
/// each one taken becomes the image of a new move: a step either leaves
/// what is pending as it is, or takes the oldest pending event and asks for
/// its new name. Nothing is ever put back.
pub proof fn lemma_events_are_taken_in_order(
    state: MenuStateView,
    event: MenuEventView,
    notes: Seq<Seq<char>>,
    pending: Seq<Seq<char>>,
    open: bool,
)
    ensures
        ({
            let (step, rest) = menu_next(state, event, notes, pending, open);
            ||| rest == pending
            ||| (pending.len() > 0 && rest == pending.skip(1) && match step.state {
                MenuStateView::Listening(_, Some(MoveView::Naming(image))) => image == pending[0],
                _ => false,
            })
        }),
{
}

/// A failed renaming does not stop the workflow: the failure is reported,
/// and the step turns to the next pending event as after any other move.
pub proof fn lemma_failed_renaming_goes_on(
    destination: Seq<char>,
    image: Seq<char>,
    to: Seq<char>,
    reason: Seq<char>,
    notes: Seq<Seq<char>>,
    pending: Seq<Seq<char>>,
    open: bool,
)
    ensures
        ({
            let (step, rest) = menu_next(
                MenuStateView::Listening(destination, Some(MoveView::Renaming(image, to))),
                MenuEventView::Renamed(Err(reason)),
                notes,
                pending,
                open,
            );
            &&& step.errors.len() > 0
            &&& step.errors[0] == MenuErrorView::Rename(image, to, reason)
            &&& pending.len() > 0 || open ==> step.state is Listening && step.errors.len() == 1
        }),
{
}

/// The workflow never waits for the channel: with nothing pending, the step
/// that turns to the channel asks the user whether to go on, or stops if
/// the channel is not open.
pub proof fn lemma_empty_channel_does_not_stall(destination: Seq<char>, open: bool)
    ensures
        listen_next(destination, seq![], Seq::<Seq<char>>::empty(), open) == (
            MenuStepView {
                state: if open {
                    MenuStateView::Listening(destination, None)
                } else {
                    MenuStateView::Stopped
                },
                errors: if open {
                    seq![]
                } else {
                    seq![MenuErrorView::ListenerDied]
                },
            },
            Seq::<Seq<char>>::empty(),
        ),
{
    assert(Seq::<MenuErrorView>::empty().push(MenuErrorView::ListenerDied) =~= seq![
        MenuErrorView::ListenerDied,
    ]);
}

/// The state after one step for each of `events`, in their order, with
/// what is pending in the channel after them if nothing is sent meanwhile.
pub open spec fn menu_run(
    state: MenuStateView,
    events: Seq<MenuEventView>,
    notes: Seq<Seq<char>>,
    pending: Seq<Seq<char>>,
    open: bool,
) -> (MenuStateView, Seq<Seq<char>>)
    decreases events.len(),
{
    if events.len() == 0 {
        (state, pending)
    } else {
        let (before, waiting) = menu_run(state, events.drop_last(), notes, pending, open);
        let (step, rest) = menu_next(before, events.last(), notes, waiting, open);
        (step.state, rest)
    }
}

/// Once stopped, the workflow is stopped for good: whatever answers follow,
/// it stays stopped and takes nothing from the channel.
pub proof fn lemma_run_from_stopped_stays_stopped(
    events: Seq<MenuEventView>,
    notes: Seq<Seq<char>>,
    pending: Seq<Seq<char>>,
    open: bool,
)
    ensures
        menu_run(MenuStateView::Stopped, events, notes, pending, open) == (
            MenuStateView::Stopped,
            pending,
        ),
    decreases events.len(),
{
    if events.len() > 0 {
        lemma_run_from_stopped_stays_stopped(events.drop_last(), notes, pending, open);
    }
}

/// Over any run of the workflow the events leave the channel oldest first
/// and none comes back: what is pending afterwards is what was pending
/// before without a number of its oldest events.
pub proof fn lemma_run_takes_the_oldest(
    state: MenuStateView,
    events: Seq<MenuEventView>,
    notes: Seq<Seq<char>>,
    pending: Seq<Seq<char>>,
    open: bool,
) -> (taken: int)
    ensures
        0 <= taken <= pending.len(),
        menu_run(state, events, notes, pending, open).1 == pending.skip(taken),
    decreases events.len(),
{
    if events.len() == 0 {
        assert(pending.skip(0) =~= pending);
        0
    } else {
        let earlier: int = lemma_run_takes_the_oldest(
            state,
            events.drop_last(),
            notes,
            pending,
            open,
        );
        let (before, waiting) = menu_run(state, events.drop_last(), notes, pending, open);
        lemma_events_are_taken_in_order(before, events.last(), notes, waiting, open);
        let rest = menu_next(before, events.last(), notes, waiting, open).1;
        if rest == waiting {
            earlier
        } else {
            assert(pending.skip(earlier).skip(1) =~= pending.skip(earlier + 1));
            earlier + 1
        }
    }
}

/// While the workflow keeps listening, it keeps its note directory: over a
/// run that never passes the selection, the directory listened for at the
/// end is the one listened for at the start.
pub proof fn lemma_run_keeps_the_destination(
    destination: Seq<char>,
    moving: Option<MoveView>,
    events: Seq<MenuEventView>,
    notes: Seq<Seq<char>>,
    pending: Seq<Seq<char>>,
    open: bool,
)
    requires
        forall|n: int|
            0 <= n <= events.len() ==> #[trigger] menu_run(
                MenuStateView::Listening(destination, moving),
                events.take(n),
                notes,
                pending,
                open,
            ).0 is Listening,
    ensures
        menu_run(
            MenuStateView::Listening(destination, moving),
            events,
            notes,
            pending,
            open,
        ).0 matches MenuStateView::Listening(last, _) && last == destination,
    decreases events.len(),
{
    let start = MenuStateView::Listening(destination, moving);
    assert(events.take(events.len() as int) =~= events);
    if events.len() > 0 {
        let shorter = events.drop_last();
        assert forall|n: int| 0 <= n <= shorter.len() implies #[trigger] menu_run(
            start,
            shorter.take(n),
            notes,
            pending,
            open,
        ).0 is Listening by {
            assert(shorter.take(n) =~= events.take(n));
        }
        lemma_run_keeps_the_destination(destination, moving, shorter, notes, pending, open);
        let (before, waiting) = menu_run(start, shorter, notes, pending, open);
        lemma_destination_is_kept(
            destination,
            before->Listening_1,
            events.last(),
            notes,
            waiting,
            open,
        );
    }
}

impl MenuState {
    /// The state in which the workflow starts.
    pub fn new() -> (state: MenuState)
        ensures
            state@ == MenuStateView::Selection,
    {
        MenuState::Selection
    }

    /// What the caller has to do in this state.
    pub fn request(&self) -> (request: MenuRequest)
        ensures
            request@ == request_of(self@),
    {
        match self {
            MenuState::Selection => MenuRequest::Select,
            MenuState::Listening(_, Some(Move::Naming(image))) => MenuRequest::Input(
                image.clone(),
            ),
            MenuState::Listening(_, Some(Move::Confirming(_, to))) => MenuRequest::Confirm(
                to.clone(),
            ),
            MenuState::Listening(_, Some(Move::Renaming(image, to))) => MenuRequest::Rename(
                image.clone(),
                to.clone(),
            ),
            MenuState::Listening(_, None) => MenuRequest::ConfirmOpt,
            MenuState::Stopped => MenuRequest::Exit,
        }
    }
}

/// One step in the moving of an image into the note directory
/// `destination_path`: the name that was read gives the target
/// `<destination_path>/img/<name>`, the user's yes orders the renaming, the
/// user's no ends the move with the image untouched, and the outcome of the
/// renaming ends it as moved or failed.
pub fn move_image(moving: Move, destination_path: &String, event: MenuEvent) -> (outcome:
    MoveOutcome)
    ensures
        outcome@ == move_next(moving@, destination_path@, event@),
{
    match moving {
        Move::Naming(image) => match event {
            MenuEvent::Named(name) => {
                let mut to = destination_path.clone();
                to.append("/img/");
                to.append(name.as_str());
                proof {
                    reveal_strlit("/img/");
                    assert("/img/"@ =~= seq!['/', 'i', 'm', 'g', '/']);
                }
                MoveOutcome::Asking(Move::Confirming(image, to))
            },
            _ => MoveOutcome::Unanswered(Move::Naming(image)),
        },
        Move::Confirming(image, to) => match event {
            MenuEvent::Confirmed(yes) => if yes {
                MoveOutcome::Asking(Move::Renaming(image, to))
            } else {
                MoveOutcome::Declined
            },
            _ => MoveOutcome::Unanswered(Move::Confirming(image, to)),
        },
        Move::Renaming(image, to) => match event {
            MenuEvent::Renamed(Ok(_)) => MoveOutcome::Moved,
            MenuEvent::Renamed(Err(reason)) => MoveOutcome::Failed(
                MenuError::Rename(image, to, reason),
            ),
            _ => MoveOutcome::Unanswered(Move::Renaming(image, to)),
        },
    }
}

/// Turns to the next pending event while `destination` is listened for.
/// `errors` is what went wrong in the step so far.
fn listen(destination: String, errors: Vec<MenuError>, channel: &mut EventChannel<String>) -> (step:
    MenuStep)
    ensures
        (step@, paths_of(final(channel)@)) == listen_next(
            destination@,
            errors_of(errors@),
            paths_of(old(channel)@),
            old(channel).is_open(),
        ),
        final(channel)@ == old(channel)@.skip(old(channel)@.len() - final(channel)@.len()),
        final(channel).has_sender() == old(channel).has_sender(),
        final(channel).has_receiver() == old(channel).has_receiver(),
{
    match channel.try_receive() {
        Ok(image) => {
            assert(paths_of(channel@) =~= paths_of(old(channel)@).skip(1));
            MenuStep { state: MenuState::Listening(destination, Some(Move::Naming(image))), errors }
        },
        Err(TryReceiveError::Empty) => {
            assert(channel@ =~= old(channel)@.skip(0));
            MenuStep { state: MenuState::Listening(destination, None), errors }
        },
        Err(TryReceiveError::Disconnected) => {
            assert(channel@ =~= old(channel)@.skip(0));
            let mut errors = errors;
            let ghost before = errors@;
            errors.push(MenuError::ListenerDied);
            assert(errors_of(errors@) =~= errors_of(before).push(MenuErrorView::ListenerDied));
            MenuStep { state: MenuState::Stopped, errors }
        },
    }
}

/// A step in which nothing went wrong and nothing was taken from the
/// channel.
fn settled(state: MenuState) -> (step: MenuStep)
    ensures
        step@ == (MenuStepView { state: state@, errors: seq![] }),
{
    let step = MenuStep { state, errors: Vec::new() };
    assert(errors_of(step.errors@) =~= seq![]);
    step
}

/// A step that leaves `state` as it is because the answer does not fit it.
fn refused(state: MenuState) -> (step: MenuStep)
    ensures
        step@ == (MenuStepView { state: state@, errors: seq![MenuErrorView::InvalidSelection] }),
{
    let mut errors: Vec<MenuError> = Vec::new();
    errors.push(MenuError::InvalidSelection);
    assert(errors_of(errors@) =~= seq![MenuErrorView::InvalidSelection]);
    MenuStep { state, errors }
}

/// One step of the workflow: what the answer `event` leads to in `state`.
///
/// In the selection a valid index makes its note directory the one that is
/// listened for, no choice stops the workflow, and anything else is refused.
/// While a note directory is listened for, the pending events are taken from
/// `channel` one at a time, oldest first, without waiting; each is moved by
/// [`move_image`], and with nothing pending the user is asked whether to go
/// on, to go back to the selection, or to leave. A renaming that failed is
/// reported and the workflow goes on. A stopped workflow stays stopped. An
/// answer that does not fit the state leaves it as it is and is reported as
/// [`MenuError::InvalidSelection`].
pub fn menu(
    state: MenuState,
    event: MenuEvent,
    notes: &Vec<String>,
    channel: &mut EventChannel<String>,
) -> (step: MenuStep)
    ensures
        (step@, paths_of(final(channel)@)) == menu_next(
            state@,
            event@,
            paths_of(notes@),
            paths_of(old(channel)@),
            old(channel).is_open(),
        ),
        final(channel)@ == old(channel)@.skip(old(channel)@.len() - final(channel)@.len()),
        final(channel).has_sender() == old(channel).has_sender(),
        final(channel).has_receiver() == old(channel).has_receiver(),
{
    assert(channel@ =~= old(channel)@.skip(0));
    assert(errors_of(Seq::<MenuError>::empty()) =~= seq![]);
    match state {
        MenuState::Stopped => settled(MenuState::Stopped),
        MenuState::Selection => match event {
            MenuEvent::Selected(Some(index)) => {
                if index < notes.len() {
                    listen(notes[index].clone(), Vec::new(), channel)
                } else {
                    refused(MenuState::Selection)
                }
            },
            MenuEvent::Selected(None) => settled(MenuState::Stopped),
            _ => refused(MenuState::Selection),
        },
        MenuState::Listening(destination, Some(moving)) => {
            match move_image(moving, &destination, event) {
                MoveOutcome::Asking(next) => settled(MenuState::Listening(destination, Some(next))),
                MoveOutcome::Moved => listen(destination, Vec::new(), channel),
                MoveOutcome::Declined => listen(destination, Vec::new(), channel),
                MoveOutcome::Failed(error) => {
                    let mut errors: Vec<MenuError> = Vec::new();
                    errors.push(error);
                    assert(errors_of(errors@) =~= seq![error@]);
                    listen(destination, errors, channel)
                },
                MoveOutcome::Unanswered(moving) => refused(
                    MenuState::Listening(destination, Some(moving)),
                ),
            }
        },
        MenuState::Listening(destination, None) => match event {
            MenuEvent::Continue(Some(yes)) => {
                if yes {
                    listen(destination, Vec::new(), channel)
                } else {
                    settled(MenuState::Selection)
                }
            },
            MenuEvent::Continue(None) => settled(MenuState::Stopped),
            _ => refused(MenuState::Listening(destination, None)),
        },
    }
}

} // verus!
