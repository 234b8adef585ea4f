use vstd::prelude::*;

verus! {

/// An observable effect of a repository operation, recorded in the order
/// the effects happen.
#[derive(Debug, Clone, PartialEq, Eq)]
pub enum Event {
    /// A branch was bound (or rebound) to a node holding this payload.
    Bound { branch: String, payload: String },
    /// A branch was removed from the table.
    Removed { branch: String },
    /// A node's last reference was released and the node was destroyed.
    Destroyed { payload: String },
}

/// The mathematical value of an `Event`.
pub enum EventV {
    Bound { branch: Seq<char>, payload: Seq<char> },
    Removed { branch: Seq<char> },
    Destroyed { payload: Seq<char> },
}

impl View for Event {
    type V = EventV;

    open spec fn view(&self) -> EventV {
        match self {
            Event::Bound { branch, payload } => EventV::Bound {
                branch: branch@,
                payload: payload@,
            },
            Event::Removed { branch } => EventV::Removed { branch: branch@ },
            Event::Destroyed { payload } => EventV::Destroyed { payload: payload@ },
        }
    }
}

impl DeepView for Event {
    type V = EventV;

    open spec fn deep_view(&self) -> EventV {
        self.view()
    }
}

/// The event log as a sequence of mathematical values.
pub open spec fn views_of(es: Seq<Event>) -> Seq<EventV> {
    es.map_values(|e: Event| e@)
}

pub proof fn lemma_views_of_push(es: Seq<Event>, e: Event)
    ensures
        views_of(es.push(e)) == views_of(es).push(e@),
{
    assert(views_of(es.push(e)) =~= views_of(es).push(e@));
}

} // verus!
