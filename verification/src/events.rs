//! The calendar's events and their selection by kind.

use vstd::prelude::*;

verus! {

broadcast use vstd::seq_lib::group_seq_properties;

/// One leg of a journey.
#[derive(Debug)]
pub enum Transit {
    Walk { from: String, to: String },
    Bus { from: String, to: String, info: String },
    Metro { from: String, to: String, info: String },
    Train { from: String, to: String, info: String },
    Plane { from: String, to: String },
}

/// The mathematical model of a leg.
pub enum TransitModel {
    Walk { from: Seq<char>, to: Seq<char> },
    Bus { from: Seq<char>, to: Seq<char>, info: Seq<char> },
    Metro { from: Seq<char>, to: Seq<char>, info: Seq<char> },
    Train { from: Seq<char>, to: Seq<char>, info: Seq<char> },
    Plane { from: Seq<char>, to: Seq<char> },
}

impl View for Transit {
    type V = TransitModel;

    open spec fn view(&self) -> TransitModel {
        match *self {
            Transit::Walk { from, to } => TransitModel::Walk { from: from@, to: to@ },
            Transit::Bus { from, to, info } => TransitModel::Bus {
                from: from@,
                to: to@,
                info: info@,
            },
            Transit::Metro { from, to, info } => TransitModel::Metro {
                from: from@,
                to: to@,
                info: info@,
            },
            Transit::Train { from, to, info } => TransitModel::Train {
                from: from@,
                to: to@,
                info: info@,
            },
            Transit::Plane { from, to } => TransitModel::Plane { from: from@, to: to@ },
        }
    }
}

impl Clone for Transit {
    fn clone(&self) -> (r: Transit)
        ensures
            r@ == self@,
    {
        match self {
            Transit::Walk { from, to } => Transit::Walk { from: from.clone(), to: to.clone() },
            Transit::Bus { from, to, info } => Transit::Bus {
                from: from.clone(),
                to: to.clone(),
                info: info.clone(),
            },
            Transit::Metro { from, to, info } => Transit::Metro {
                from: from.clone(),
                to: to.clone(),
                info: info.clone(),
            },
            Transit::Train { from, to, info } => Transit::Train {
                from: from.clone(),
                to: to.clone(),
                info: info.clone(),
            },
            Transit::Plane { from, to } => Transit::Plane { from: from.clone(), to: to.clone() },
        }
    }
}

/// Something that happens on the dates of a range.
#[derive(Debug)]
pub enum Event {
    /// A birthday, with the person's name.
    Birthday(String),
    /// A competition, with its identifier.
    Comp(String),
    /// A leg of a journey.
    Transit(Transit),
}

/// The mathematical model of an event.
pub enum EventModel {
    Birthday(Seq<char>),
    Comp(Seq<char>),
    Transit(TransitModel),
}

/// The three kinds of event.
#[derive(Clone, Copy, Debug, PartialEq, Eq, Structural)]
pub enum EventKind {
    Birthday,
    Comp,
    Transit,
}

impl View for Event {
    type V = EventModel;

    open spec fn view(&self) -> EventModel {
        match *self {
            Event::Birthday(name) => EventModel::Birthday(name@),
            Event::Comp(id) => EventModel::Comp(id@),
            Event::Transit(leg) => EventModel::Transit(leg@),
        }
    }
}

impl Clone for Event {
    fn clone(&self) -> (r: Event)
        ensures
            r@ == self@,
    {
        match self {
            Event::Birthday(name) => Event::Birthday(name.clone()),
            Event::Comp(id) => Event::Comp(id.clone()),
            Event::Transit(leg) => Event::Transit(leg.clone()),
        }
    }
}

impl EventModel {
    pub open spec fn kind(self) -> EventKind {
        match self {
            EventModel::Birthday(_) => EventKind::Birthday,
            EventModel::Comp(_) => EventKind::Comp,
            EventModel::Transit(_) => EventKind::Transit,
        }
    }
}

impl Event {
    /// The kind of this event.
    pub fn kind(&self) -> (k: EventKind)
        ensures
            k == self@.kind(),
    {
        match self {
            Event::Birthday(_) => EventKind::Birthday,
            Event::Comp(_) => EventKind::Comp,
            Event::Transit(_) => EventKind::Transit,
        }
    }
}

/// One entry of the calendar: a range, in its textual form, and the events
/// on its dates.
#[derive(Debug)]
pub struct Entry {
    pub range: String,
    pub events: Vec<Event>,
}

/// The mathematical model of an entry.
pub struct EntryModel {
    pub range: Seq<char>,
    pub events: Seq<EventModel>,
}

/// The models of a list of events.
pub open spec fn event_models(events: Seq<Event>) -> Seq<EventModel> {
    events.map_values(|e: Event| e@)
}

impl View for Entry {
    type V = EntryModel;

    open spec fn view(&self) -> EntryModel {
        EntryModel { range: self.range@, events: event_models(self.events@) }
    }
}

/// The models of a list of entries.
pub open spec fn entry_models(entries: Seq<Entry>) -> Seq<EntryModel> {
    entries.map_values(|e: Entry| e@)
}

/// The test that an event is of the given kind.
pub open spec fn is_kind(kind: EventKind) -> spec_fn(EventModel) -> bool {
    |e: EventModel| e.kind() == kind
}

/// The test that an entry has an event.
pub open spec fn has_events() -> spec_fn(EntryModel) -> bool {
    |e: EntryModel| e.events.len() > 0
}

/// The events of one kind among `events`, in their order.
pub open spec fn of_kind(events: Seq<EventModel>, kind: EventKind) -> Seq<EventModel> {
    events.filter(is_kind(kind))
}

/// An entry cut down to its events of one kind.
pub open spec fn cut_to_kind(entry: EntryModel, kind: EventKind) -> EntryModel {
    EntryModel { range: entry.range, events: of_kind(entry.events, kind) }
}

/// Every entry cut down to its events of one kind.
pub open spec fn all_cut_to_kind(entries: Seq<EntryModel>, kind: EventKind) -> Seq<EntryModel> {
    entries.map_values(|e: EntryModel| cut_to_kind(e, kind))
}

/// The calendar cut down to one kind of event: each entry keeps its events
/// of that kind, and an entry that keeps none is left out.
pub open spec fn filtered(entries: Seq<EntryModel>, kind: EventKind) -> Seq<EntryModel> {
    all_cut_to_kind(entries, kind).filter(has_events())
}

/// The events of one kind among `events`, in their order.
pub fn events_of_kind(events: &Vec<Event>, kind: EventKind) -> (kept: Vec<Event>)
    ensures
        event_models(kept@) == of_kind(event_models(events@), kind),
{
    let mut kept: Vec<Event> = Vec::new();
    let mut i: usize = 0;
    assert(event_models(events@.take(0)) =~= Seq::<EventModel>::empty());
    assert(event_models(kept@) =~= of_kind(Seq::<EventModel>::empty(), kind));
    while i < events.len()
        invariant
            i <= events.len(),
            event_models(kept@) == of_kind(event_models(events@.take(i as int)), kind),
        decreases events.len() - i,
    {
        let ghost seen = event_models(events@.take(i as int));
        let ghost before = event_models(kept@);
        proof {
            assert(event_models(events@.take(i + 1)) =~= seen.push(events[i as int]@));
            seen.lemma_filter_push(events[i as int]@, is_kind(kind));
        }
        if events[i].kind() == kind {
            let copy = events[i].clone();
            kept.push(copy);
            assert(event_models(kept@) =~= before.push(events[i as int]@));
        }
        i += 1;
    }
    assert(events@.take(i as int) =~= events@);
    kept
}

/// Cuts the calendar down to one kind of event. Each entry keeps its events
/// of that kind, in their order; an entry that keeps none is left out; the
/// entries that stay are in the order they had, so a calendar in the order
/// of its keys gives one in the order of its keys.
pub fn filter_calendar(calendar: &Vec<Entry>, kind: EventKind) -> (out: Vec<Entry>)
    ensures
        entry_models(out@) == filtered(entry_models(calendar@), kind),
        keys_increase(entry_models(calendar@)) ==> keys_increase(entry_models(out@)),
{
    let mut out: Vec<Entry> = Vec::new();
    let mut i: usize = 0;
    assert(entry_models(calendar@.take(0)) =~= Seq::<EntryModel>::empty());
    assert(entry_models(out@) =~= filtered(Seq::<EntryModel>::empty(), kind));
    while i < calendar.len()
        invariant
            i <= calendar.len(),
            entry_models(out@) == filtered(entry_models(calendar@.take(i as int)), kind),
        decreases calendar.len() - i,
    {
        let ghost seen = entry_models(calendar@.take(i as int));
        let ghost before = entry_models(out@);
        let ghost cut = cut_to_kind(calendar[i as int]@, kind);
        proof {
            assert(entry_models(calendar@.take(i + 1)) =~= seen.push(calendar[i as int]@));
            assert(all_cut_to_kind(seen.push(calendar[i as int]@), kind) =~= all_cut_to_kind(
                seen,
                kind,
            ).push(cut));
            all_cut_to_kind(seen, kind).lemma_filter_push(cut, has_events());
        }
        let kept = events_of_kind(&calendar[i].events, kind);
        if kept.len() > 0 {
            let entry = Entry { range: calendar[i].range.clone(), events: kept };
            assert(entry@ == cut);
            out.push(entry);
            assert(entry_models(out@) =~= before.push(cut));
        }
        i += 1;
    }
    proof {
        assert(calendar@.take(i as int) =~= calendar@);
        if keys_increase(entry_models(calendar@)) {
            lemma_filtered_stays_sorted(entry_models(calendar@), kind);
        }
    }
    out
}

/// Every event of a list is of exactly one kind: the three selections
/// together hold the events of the list, each as often as the list does.
pub proof fn lemma_kinds_split_events(events: Seq<EventModel>)
    ensures
        of_kind(events, EventKind::Birthday).to_multiset().add(
            of_kind(events, EventKind::Comp).to_multiset(),
        ).add(of_kind(events, EventKind::Transit).to_multiset()) == events.to_multiset(),
        of_kind(events, EventKind::Birthday).len() + of_kind(events, EventKind::Comp).len()
            + of_kind(events, EventKind::Transit).len() == events.len(),
    decreases events.len(),
{
    if events.len() == 0 {
        assert(of_kind(events, EventKind::Birthday) =~= events);
        assert(of_kind(events, EventKind::Comp) =~= events);
        assert(of_kind(events, EventKind::Transit) =~= events);
        assert(events.to_multiset().add(events.to_multiset()).add(events.to_multiset())
            =~= events.to_multiset());
    } else {
        let front = events.drop_last();
        let last = events.last();
        lemma_kinds_split_events(front);
        assert(front.push(last) =~= events);
        front.lemma_filter_push(last, is_kind(EventKind::Birthday));
        front.lemma_filter_push(last, is_kind(EventKind::Comp));
        front.lemma_filter_push(last, is_kind(EventKind::Transit));
        assert(of_kind(front, EventKind::Birthday).to_multiset().add(
            of_kind(front, EventKind::Comp).to_multiset(),
        ).add(of_kind(front, EventKind::Transit).to_multiset()).insert(last)
            =~= of_kind(events, EventKind::Birthday).to_multiset().add(
            of_kind(events, EventKind::Comp).to_multiset(),
        ).add(of_kind(events, EventKind::Transit).to_multiset()));
    }
}

/// Cutting a calendar down to a kind loses nothing of that kind and keeps
/// no empty entry: an entry is in the result exactly where it has an event
/// and is an entry of the calendar cut down to the kind.
pub proof fn lemma_filtered_entries(entries: Seq<EntryModel>, kind: EventKind, e: EntryModel)
    ensures
        filtered(entries, kind).contains(e) <==> (e.events.len() > 0 && exists|i: int|
            0 <= i < entries.len() && e == cut_to_kind(#[trigger] entries[i], kind)),
{
    let cuts = all_cut_to_kind(entries, kind);
    broadcast use vstd::seq_lib::group_filter_ensures;

    if filtered(entries, kind).contains(e) {
        cuts.lemma_filter_contains_rev(has_events(), e);
        let i = choose|i: int| 0 <= i < cuts.len() && cuts[i] == e;
        assert(e == cut_to_kind(entries[i], kind));
    }
    if e.events.len() > 0 && exists|i: int|
        0 <= i < entries.len() && e == cut_to_kind(#[trigger] entries[i], kind) {
        let i = choose|i: int|
            0 <= i < entries.len() && e == cut_to_kind(#[trigger] entries[i], kind);
        assert(cuts[i] == e);
    }
}

/// The entry `x` is the entry at position `i` of `entries`, cut down to `kind`.
pub open spec fn comes_from(entries: Seq<EntryModel>, kind: EventKind, x: EntryModel, i: int) -> bool {
    0 <= i < entries.len() && x == cut_to_kind(entries[i], kind)
}

/// The entries `x` and `y` come from two entries of `entries`, that of `x`
/// standing before that of `y`.
pub open spec fn come_in_order(
    entries: Seq<EntryModel>,
    kind: EventKind,
    x: EntryModel,
    y: EntryModel,
) -> bool {
    exists|i: int, j: int|
        #![trigger comes_from(entries, kind, x, i), comes_from(entries, kind, y, j)]
        i < j && comes_from(entries, kind, x, i) && comes_from(entries, kind, y, j)
}

/// Cutting a calendar down to a kind keeps the order of its entries: of two
/// entries of the result, the earlier comes from an earlier entry of the
/// calendar.
pub proof fn lemma_filtered_keeps_order(entries: Seq<EntryModel>, kind: EventKind)
    ensures
        forall|a: int, b: int|
            0 <= a < b < filtered(entries, kind).len() ==> come_in_order(
                entries,
                kind,
                #[trigger] filtered(entries, kind)[a],
                #[trigger] filtered(entries, kind)[b],
            ),
    decreases entries.len(),
{
    let out = filtered(entries, kind);
    if entries.len() > 0 {
        let front = entries.drop_last();
        let last = entries.last();
        let cut = cut_to_kind(last, kind);
        let short = filtered(front, kind);
        lemma_filtered_keeps_order(front, kind);
        assert(front.push(last) =~= entries);
        assert(all_cut_to_kind(entries, kind) =~= all_cut_to_kind(front, kind).push(cut));
        all_cut_to_kind(front, kind).lemma_filter_push(cut, has_events());
        assert forall|a: int, b: int| 0 <= a < b < out.len() implies come_in_order(
            entries,
            kind,
            #[trigger] out[a],
            #[trigger] out[b],
        ) by {
            if b < short.len() {
                assert(out[a] == short[a] && out[b] == short[b]);
                assert(come_in_order(front, kind, short[a], short[b]));
                let (i, j) = choose|i: int, j: int|
                    #![trigger
                        comes_from(front, kind, short[a], i),
                        comes_from(front, kind, short[b], j)]
                    i < j && comes_from(front, kind, short[a], i) && comes_from(
                        front,
                        kind,
                        short[b],
                        j,
                    );
                assert(comes_from(entries, kind, out[a], i));
                assert(comes_from(entries, kind, out[b], j));
            } else {
                assert(out[a] == short[a]);
                assert(short.contains(short[a]));
                lemma_filtered_entries(front, kind, short[a]);
                let i = choose|i: int|
                    0 <= i < front.len() && short[a] == cut_to_kind(#[trigger] front[i], kind);
                assert(comes_from(entries, kind, out[a], i));
                assert(comes_from(entries, kind, out[b], entries.len() - 1));
            }
        }
    } else {
        all_cut_to_kind(entries, kind).lemma_filter_len(has_events());
    }
}

/// The order of two keys: character by character, a shorter text before the
/// longer ones that start with it.
pub open spec fn key_lt(a: Seq<char>, b: Seq<char>) -> bool
    decreases a.len(),
{
    if b.len() == 0 {
        false
    } else if a.len() == 0 {
        true
    } else if a[0] != b[0] {
        a[0] < b[0]
    } else {
        key_lt(a.drop_first(), b.drop_first())
    }
}

/// The entries stand in the order of their keys, and no key occurs twice.
pub open spec fn keys_increase(entries: Seq<EntryModel>) -> bool {
    forall|i: int, j: int|
        0 <= i < j < entries.len() ==> key_lt(
            (#[trigger] entries[i]).range,
            (#[trigger] entries[j]).range,
        )
}

/// A calendar in the order of its keys stays so when it is cut down to a kind.
pub proof fn lemma_filtered_stays_sorted(entries: Seq<EntryModel>, kind: EventKind)
    requires
        keys_increase(entries),
    ensures
        keys_increase(filtered(entries, kind)),
{
    let out = filtered(entries, kind);
    lemma_filtered_keeps_order(entries, kind);
    assert forall|a: int, b: int| 0 <= a < b < out.len() implies key_lt(
        (#[trigger] out[a]).range,
        (#[trigger] out[b]).range,
    ) by {
        assert(come_in_order(entries, kind, out[a], out[b]));
        let (i, j) = choose|i: int, j: int|
            #![trigger comes_from(entries, kind, out[a], i), comes_from(entries, kind, out[b], j)]
            i < j && comes_from(entries, kind, out[a], i) && comes_from(entries, kind, out[b], j);
        assert(key_lt(entries[i].range, entries[j].range));
    }
}

/// The three cuts of a calendar together hold each of its entries: an entry
/// is found in the cut of a kind, under its own key, exactly where it has an
/// event of that kind, and what the three cuts hold of it are its events,
/// each as often as the entry holds it. An entry without events is in no cut.
pub proof fn lemma_cuts_recover_entry(entries: Seq<EntryModel>, i: int)
    requires
        0 <= i < entries.len(),
    ensures
        forall|kind: EventKind|
            of_kind(entries[i].events, kind).len() > 0 <==> #[trigger] filtered(
                entries,
                kind,
            ).contains(cut_to_kind(entries[i], kind)),
        of_kind(entries[i].events, EventKind::Birthday).to_multiset().add(
            of_kind(entries[i].events, EventKind::Comp).to_multiset(),
        ).add(of_kind(entries[i].events, EventKind::Transit).to_multiset())
            == entries[i].events.to_multiset(),
{
    lemma_kinds_split_events(entries[i].events);
    assert forall|kind: EventKind|
        of_kind(entries[i].events, kind).len() > 0 <==> #[trigger] filtered(
            entries,
            kind,
        ).contains(cut_to_kind(entries[i], kind)) by {
        lemma_filtered_entries(entries, kind, cut_to_kind(entries[i], kind));
    }
}

} // verus!
