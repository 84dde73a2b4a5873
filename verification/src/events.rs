use vstd::prelude::*;
use crate::matcher::MatchModel;
use crate::matcher::MatchResult;

verus! {

/// A message into the search coordinator: a fresh corpus snapshot, or a
/// new query string.
pub enum FinderCommand {
    Refresh(Vec<String>),
    Query(String),
}

/// Mathematical value of a `FinderCommand`.
pub enum FinderCommandModel {
    Refresh(Seq<Seq<char>>),
    Query(Seq<char>),
}

impl DeepView for FinderCommand {
    type V = FinderCommandModel;

    open spec fn deep_view(&self) -> FinderCommandModel {
        match self {
            FinderCommand::Refresh(data) => FinderCommandModel::Refresh(data.deep_view()),
            FinderCommand::Query(q) => FinderCommandModel::Query(q@),
        }
    }
}

/// A message into the terminal session: a query edit looped back from the
/// input half, a freshly published result set, or the stop signal.
pub enum InterfaceCommand {
    Query(String),
    Results(Vec<MatchResult>),
    Stop,
}

/// Mathematical value of an `InterfaceCommand`.
pub enum InterfaceCommandModel {
    Query(Seq<char>),
    Results(Seq<MatchModel>),
    Stop,
}

impl DeepView for InterfaceCommand {
    type V = InterfaceCommandModel;

    open spec fn deep_view(&self) -> InterfaceCommandModel {
        match self {
            InterfaceCommand::Query(q) => InterfaceCommandModel::Query(q@),
            InterfaceCommand::Results(r) => InterfaceCommandModel::Results(r.deep_view()),
            InterfaceCommand::Stop => InterfaceCommandModel::Stop,
        }
    }
}

/// A decoded key press, as the input half of the terminal session sees it.
pub enum KeyEvent {
    Character(char),
    Backspace,
    Interrupt,
    Other,
}

} // verus!
