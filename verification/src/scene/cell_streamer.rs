//! Answering requests for cells, one at a time and in the order they were made.

use super::cell::{CellId, CellName};
use super::static_scene::CellDetail;
use vstd::prelude::*;

verus! {

/// One cell asked for, and how much of it.
#[derive(Debug)]
pub struct Request {
    pub id: CellId,
    pub detail: CellDetail,
}

/// What a [`Request`] asks for.
#[verifier::ext_equal]
pub struct RequestModel {
    pub id: CellName,
    pub detail: CellDetail,
}

impl View for Request {
    type V = RequestModel;

    open spec fn view(&self) -> RequestModel {
        RequestModel { id: self.id@, detail: self.detail }
    }
}

/// What a worker is in the middle of.
#[derive(Debug)]
pub enum Serving {
    /// Nothing was asked for yet: the game is not reached before something is.
    Idle,
    /// The first request is waiting on the game being reached.
    Reaching(Request),
    /// A request is being loaded.
    Loading(Request),
    /// A request was answered and the next one is waited for.
    Waiting,
    /// There is nothing more to do.
    Stopped,
}

/// What happened to a worker.
#[derive(Debug)]
pub enum Event {
    /// A cell was asked for.
    Asked(Request),
    /// Nobody can ask for anything any more.
    Closed,
    /// The game was reached.
    Reached,
    /// There is no game to reach.
    Absent,
    /// The game is there and could not be reached.
    Failed,
    /// A request was loaded, or failed to load.
    Loaded,
    /// An answer went through.
    Answered,
    /// Nobody is there to take an answer.
    Unheard,
}

/// What a worker does next.
#[derive(Debug, Clone, Copy, PartialEq, Eq, Structural)]
pub enum Action {
    /// Wait for something to be asked for.
    Listen,
    /// Reach the game.
    Reach,
    /// Load what is asked for.
    Load,
    /// Answer what was asked for with what came of loading it.
    Answer,
    /// Answer what was asked for with the failure to reach the game, and stop.
    Report,
    /// Stop.
    Stop,
}

/// What a [`Serving`] is.
#[verifier::ext_equal]
pub enum ServingModel {
    Idle,
    Reaching(RequestModel),
    Loading(RequestModel),
    Waiting,
    Stopped,
}

impl View for Serving {
    type V = ServingModel;

    open spec fn view(&self) -> ServingModel {
        match self {
            Serving::Idle => ServingModel::Idle,
            Serving::Reaching(request) => ServingModel::Reaching(request@),
            Serving::Loading(request) => ServingModel::Loading(request@),
            Serving::Waiting => ServingModel::Waiting,
            Serving::Stopped => ServingModel::Stopped,
        }
    }
}

/// What a worker comes to after something happens, and what it does next.
///
/// **The first request is taken before the game is reached**, so that a failure to reach it is
/// reported against the request that was waiting on it. Nothing after that point can fail: a cell
/// that will not load is answered as itself and the next one is taken.
pub open spec fn served(serving: ServingModel, event: Event) -> (ServingModel, Action) {
    match (serving, event) {
        (ServingModel::Idle, Event::Asked(request)) => (
            ServingModel::Reaching(request@),
            Action::Reach,
        ),
        (ServingModel::Reaching(request), Event::Reached) => (
            ServingModel::Loading(request),
            Action::Load,
        ),
        (ServingModel::Reaching(request), Event::Failed) => (
            ServingModel::Reaching(request),
            Action::Report,
        ),
        (ServingModel::Loading(request), Event::Loaded) => (
            ServingModel::Loading(request),
            Action::Answer,
        ),
        (ServingModel::Loading(_), Event::Answered) => (ServingModel::Waiting, Action::Listen),
        (ServingModel::Waiting, Event::Asked(request)) => (
            ServingModel::Loading(request@),
            Action::Load,
        ),
        _ => (ServingModel::Stopped, Action::Stop),
    }
}

impl Serving {
    /// A worker nothing has been asked of.
    pub fn new() -> (r: Serving)
        ensures
            r@ == ServingModel::Idle,
    {
        Serving::Idle
    }

    /// Takes in something that happened, and says what to do next.
    pub fn take(self, event: Event) -> (r: (Serving, Action))
        ensures
            (r.0@, r.1) == served(self@, event),
    {
        match (self, event) {
            (Serving::Idle, Event::Asked(request)) => (Serving::Reaching(request), Action::Reach),
            (Serving::Reaching(request), Event::Reached) => (
                Serving::Loading(request),
                Action::Load,
            ),
            (Serving::Reaching(request), Event::Failed) => (
                Serving::Reaching(request),
                Action::Report,
            ),
            (Serving::Loading(request), Event::Loaded) => (
                Serving::Loading(request),
                Action::Answer,
            ),
            (Serving::Loading(_), Event::Answered) => (Serving::Waiting, Action::Listen),
            (Serving::Waiting, Event::Asked(request)) => (Serving::Loading(request), Action::Load),
            _ => (Serving::Stopped, Action::Stop),
        }
    }

    /// What is being answered, where anything is.
    pub fn wanted(&self) -> (r: Option<&Request>)
        ensures
            match r {
                Some(request) => self@ == ServingModel::Reaching(request@) || self@
                    == ServingModel::Loading(request@),
                None => !(self@ is Reaching) && !(self@ is Loading),
            },
    {
        match self {
            Serving::Reaching(request) => Some(request),
            Serving::Loading(request) => Some(request),
            _ => None,
        }
    }
}

/// **An answer is to the request that was made**: from being asked until answering, a worker holds
/// on to the one request, and a failure to reach the game is reported against it.
pub proof fn law_answers_are_to_what_was_asked(request: Request)
    ensures
        ({
            let asked = served(ServingModel::Idle, Event::Asked(request)).0;
            let loading = served(asked, Event::Reached);
            let again = served(ServingModel::Waiting, Event::Asked(request));
            &&& served(asked, Event::Failed) == (
                ServingModel::Reaching(request@),
                Action::Report,
            )
            &&& loading == (ServingModel::Loading(request@), Action::Load)
            &&& again == loading
            &&& served(loading.0, Event::Loaded) == (
                ServingModel::Loading(request@),
                Action::Answer,
            )
        }),
{
}

/// **A worker that stopped stays stopped.**
pub proof fn law_stopping_is_final(event: Event)
    ensures
        served(ServingModel::Stopped, event) == (ServingModel::Stopped, Action::Stop),
{
}

} // verus!
