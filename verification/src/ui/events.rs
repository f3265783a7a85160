//! The events by which an editor changes its state, and the queue that holds
//! them until they are dispatched.

use vstd::prelude::*;
use crate::app::{AppState, AppView};
use crate::ui::variable::{
    lemma_added_keeps_order, lemma_removed_keeps_order, lemma_renamed_keeps_order, StoreView,
    VariableEvent, VariableEventView,
};

verus! {

/// Something that happened in the editor and asks for a change of state.
pub enum Event {
    Variable(VariableEvent),
}

/// What an event holds.
#[verifier::ext_equal]
pub enum EventView {
    Variable(VariableEventView),
}

impl View for Event {
    type V = EventView;

    open spec fn view(&self) -> EventView {
        match *self {
            Event::Variable(ev) => EventView::Variable(ev@),
        }
    }
}

/// What a list of events holds.
pub open spec fn events_of(v: Seq<Event>) -> Seq<EventView> {
    Seq::new(v.len(), |i: int| v[i]@)
}

/// Events waiting to be dispatched, oldest first.
pub struct EventQueue {
    pub events: Vec<Event>,
}

impl View for EventQueue {
    type V = Seq<EventView>;

    open spec fn view(&self) -> Seq<EventView> {
        events_of(self.events@)
    }
}

impl Default for EventQueue {
    /// An empty queue.
    fn default() -> (queue: EventQueue)
        ensures
            queue@ == Seq::<EventView>::empty(),
    {
        let queue = EventQueue { events: Vec::new() };
        assert(queue@ =~= Seq::<EventView>::empty());
        queue
    }
}

impl EventQueue {
    /// Puts an event at the end of the queue.
    pub fn push(&mut self, ev: Event)
        ensures
            final(self)@ == old(self)@.push(ev@),
    {
        self.events.push(ev);
        assert(self@ =~= old(self)@.push(ev@));
    }

    /// Puts a change of the variables at the end of the queue.
    pub fn push_variable(&mut self, ev: VariableEvent)
        ensures
            final(self)@ == old(self)@.push(EventView::Variable(ev@)),
    {
        self.push(Event::Variable(ev));
    }

    /// Empties the queue and hands out what it held, oldest first.
    pub fn take_all(&mut self) -> (taken: Vec<Event>)
        ensures
            events_of(taken@) == old(self)@,
            final(self)@ == Seq::<EventView>::empty(),
    {
        let mut taken: Vec<Event> = Vec::new();
        std::mem::swap(&mut self.events, &mut taken);
        assert(self@ =~= Seq::<EventView>::empty());
        taken
    }
}

impl StoreView {
    /// Whether the store can take the change `ev`: an addition needs a fresh
    /// identifier, everything else needs nothing.
    pub open spec fn accepts(self, ev: VariableEventView) -> bool {
        ev is Add ==> self.has_room()
    }

    /// The store after the change `ev`.
    pub open spec fn after(self, ev: VariableEventView) -> StoreView {
        match ev {
            VariableEventView::Add { name, kind, value } => self.added(name, kind, value),
            VariableEventView::Remove(id) => self.removed(id),
            VariableEventView::Rename(id, name) => self.renamed(id, name),
        }
    }
}

impl AppView {
    /// The state after the event `ev`.
    pub open spec fn after(self, ev: EventView) -> AppView {
        match ev {
            EventView::Variable(ev) => AppView { variables: self.variables.after(ev), ..self },
        }
    }

    /// The state after the events `evs`, in their order.
    pub open spec fn after_all(self, evs: Seq<EventView>) -> AppView
        decreases evs.len(),
    {
        if evs.len() == 0 {
            self
        } else {
            self.after_all(evs.drop_last()).after(evs.last())
        }
    }

    /// Whether the state can take the events `evs`: every addition among
    /// them uses up an identifier.
    pub open spec fn has_room_for(self, evs: Seq<EventView>) -> bool {
        self.variables.next_id + additions(evs) <= u64::MAX
    }
}

/// Whether an event adds a variable.
pub open spec fn is_addition(ev: EventView) -> bool {
    ev matches EventView::Variable(ev) && ev is Add
}

/// The number of events among `evs` that add a variable.
pub open spec fn additions(evs: Seq<EventView>) -> nat
    decreases evs.len(),
{
    if evs.len() == 0 {
        0
    } else {
        additions(evs.drop_last()) + if is_addition(evs.last()) {
            1nat
        } else {
            0nat
        }
    }
}

/// The first events of a list hold no more additions than the whole list.
pub proof fn lemma_additions_of_prefix(evs: Seq<EventView>, k: int)
    requires
        0 <= k <= evs.len(),
    ensures
        additions(evs.take(k)) <= additions(evs),
        k < evs.len() ==> additions(evs.take(k + 1)) == additions(evs.take(k)) + if is_addition(
            evs[k],
        ) {
            1nat
        } else {
            0nat
        },
    decreases evs.len() - k,
{
    if k < evs.len() {
        assert(evs.take(k + 1).drop_last() =~= evs.take(k));
        assert(evs.take(k + 1).last() == evs[k]);
        lemma_additions_of_prefix(evs, k + 1);
    } else {
        assert(evs.take(k) =~= evs);
    }
}

/// A store in order stays in order under any change it accepts.
pub proof fn lemma_after_keeps_order(store: StoreView, ev: VariableEventView)
    requires
        store.wf(),
        store.accepts(ev),
    ensures
        store.after(ev).wf(),
{
    match ev {
        VariableEventView::Add { name, kind, value } => {
            lemma_added_keeps_order(store, name, kind, value);
        },
        VariableEventView::Remove(id) => {
            lemma_removed_keeps_order(store, id);
        },
        VariableEventView::Rename(id, name) => {
            lemma_renamed_keeps_order(store, id, name);
        },
    }
}

/// Events leave everything but the variables as it is, use up one
/// identifier for each addition, and keep the variables in order.
pub proof fn lemma_after_all(state: AppView, evs: Seq<EventView>)
    ensures
        state.after_all(evs) == (AppView {
            variables: state.after_all(evs).variables,
            ..state
        }),
        state.has_room_for(evs) ==> state.after_all(evs).variables.next_id
            == state.variables.next_id + additions(evs),
        state.has_room_for(evs) && state.variables.wf() ==> state.after_all(evs).variables.wf(),
    decreases evs.len(),
{
    if evs.len() > 0 {
        lemma_after_all(state, evs.drop_last());
        if state.has_room_for(evs) && state.variables.wf() {
            match evs.last() {
                EventView::Variable(ev) => {
                    lemma_after_keeps_order(state.after_all(evs.drop_last()).variables, ev);
                },
            }
        }
    }
}

/// Whether the store of the state has identifiers enough for the events.
pub fn can_dispatch(state: &AppState, events: &Vec<Event>) -> (b: bool)
    ensures
        b == state@.has_room_for(events_of(events@)),
{
    let ghost evs = events_of(events@);
    let mut count: usize = 0;
    let mut i: usize = 0;
    while i < events.len()
        invariant
            i <= events@.len(),
            evs == events_of(events@),
            count == additions(evs.take(i as int)),
            count <= i,
        decreases events@.len() - i,
    {
        proof {
            lemma_additions_of_prefix(evs, i as int);
            assert(evs[i as int] == events@[i as int]@);
        }
        match &events[i] {
            Event::Variable(VariableEvent::Add { .. }) => {
                count += 1;
            },
            _ => {},
        }
        i += 1;
    }
    assert(evs.take(events@.len() as int) =~= evs);
    state.variables.has_room_for(count)
}

/// Applies one change to the variables of the state.
fn handle_variable_event(state: &mut AppState, ev: VariableEvent)
    requires
        old(state)@.variables.accepts(ev@),
    ensures
        final(state)@ == old(state)@.after(EventView::Variable(ev@)),
{
    match ev {
        VariableEvent::Add { name, kind, value } => state.variables.add(name, kind, value),
        VariableEvent::Remove(id) => state.variables.remove(id),
        VariableEvent::Rename(id, new_name) => state.variables.rename(id, new_name),
    }
}

/// Applies the events to the state, in their order.
pub fn dispatch_all(state: &mut AppState, events: Vec<Event>)
    requires
        old(state)@.has_room_for(events_of(events@)),
    ensures
        final(state)@ == old(state)@.after_all(events_of(events@)),
        old(state)@.variables.wf() ==> final(state)@.variables.wf(),
{
    proof {
        lemma_after_all(state@, events_of(events@));
    }
    let ghost evs = events_of(events@);
    let ghost start = state@;
    for ev in it: events
        invariant
            it.seq() == events@,
            evs == events_of(events@),
            start.has_room_for(evs),
            state@ == start.after_all(evs.take(it.index() as int)),
    {
        proof {
            let done = it.index() as int;
            assert(ev@ == evs[done]);
            lemma_additions_of_prefix(evs, done);
            lemma_additions_of_prefix(evs, done + 1);
            lemma_after_all(start, evs.take(done));
            assert(evs.take(done + 1).drop_last() =~= evs.take(done));
            assert(evs.take(done + 1).last() == evs[done]);
        }
        match ev {
            Event::Variable(ev) => handle_variable_event(state, ev),
        }
    }
    assert(evs.take(evs.len() as int) =~= evs);
}

} // verus!
