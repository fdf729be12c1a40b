//! What an observer of a sweep is told, and a plain observer that counts.
use vstd::prelude::*;
use vstd::string::*;

verus! {

/// One notification to an observer.
#[derive(Debug)]
pub enum Event<P, E> {
    /// A listing, an entry or a deletion failed.
    Error(E),
    /// The directory tree was deleted.
    Removal(P),
    /// The directory was processed, whether its listing succeeded or not.
    Scanned(P),
}

/// A sink for the events of a sweep. It is told, and decides nothing.
pub trait Observer<P, E> {
    /// Whether this observer is what `before` becomes by being told `event`. An
    /// observer of which nothing is known leaves this at `true`.
    open spec fn heard(&self, before: &Self, event: Event<P, E>) -> bool {
        true
    }

    /// A listing, an entry or a deletion failed with `e`.
    fn on_error(&mut self, e: E)
        ensures
            (*final(self)).heard(&*old(self), Event::Error(e)),
    ;

    /// The directory tree at `path` was deleted.
    fn on_removal(&mut self, path: &P)
        ensures
            (*final(self)).heard(&*old(self), Event::Removal(*path)),
    ;

    /// The directory `dir` was processed.
    fn on_scanned(&mut self, dir: &P)
        ensures
            (*final(self)).heard(&*old(self), Event::Scanned(*dir)),
    ;
}

/// Whether the observer with number `i + 1` in `states` is what the one with
/// number `i` becomes by being told the event with number `i`.
pub open spec fn heard_at<P, E, O: Observer<P, E>>(
    states: Seq<O>,
    events: Seq<Event<P, E>>,
    i: int,
) -> bool {
    states[i + 1].heard(&states[i], events[i])
}

/// Whether `states` lead from the observer `before` to the observer `after`, one
/// event of `events` each, oldest first.
pub open spec fn heard_along<P, E, O: Observer<P, E>>(
    states: Seq<O>,
    after: O,
    before: O,
    events: Seq<Event<P, E>>,
) -> bool {
    &&& states.len() == events.len() + 1
    &&& states.first() == before
    &&& states.last() == after
    &&& forall|i: int| 0 <= i < events.len() ==> #[trigger] heard_at(states, events, i)
}

/// Whether the observer `after` is what `before` becomes by being told `events`,
/// oldest first, one after the other.
pub open spec fn heard_all<P, E, O: Observer<P, E>>(after: O, before: O, events: Seq<Event<P, E>>)
    -> bool {
    exists|states: Seq<O>| #[trigger] heard_along(states, after, before, events)
}

/// An observer that was told nothing is what it was.
pub proof fn lemma_heard_nothing<P, E, O: Observer<P, E>>(observer: O)
    ensures
        heard_all(observer, observer, Seq::<Event<P, E>>::empty()),
{
    assert(heard_along(seq![observer], observer, observer, Seq::<Event<P, E>>::empty()));
}

/// An observer that has heard some events and then one more has heard them all.
pub proof fn lemma_heard_one_more<P, E, O: Observer<P, E>>(
    after: O,
    mid: O,
    before: O,
    events: Seq<Event<P, E>>,
    event: Event<P, E>,
)
    requires
        heard_all(mid, before, events),
        after.heard(&mid, event),
    ensures
        heard_all(after, before, events.push(event)),
{
    let states = choose|states: Seq<O>| heard_along(states, mid, before, events);
    let longer = states.push(after);
    assert forall|i: int| 0 <= i < events.push(event).len() implies #[trigger] heard_at(
        longer,
        events.push(event),
        i,
    ) by {
        if i < events.len() {
            assert(heard_at(states, events, i));
        }
    }
    assert(heard_along(longer, after, before, events.push(event)));
}

/// An observer that has heard some events and then some more has heard them all.
pub proof fn lemma_heard_all_of_concatenation<P, E, O: Observer<P, E>>(
    after: O,
    mid: O,
    before: O,
    first: Seq<Event<P, E>>,
    second: Seq<Event<P, E>>,
)
    requires
        heard_all(mid, before, first),
        heard_all(after, mid, second),
    ensures
        heard_all(after, before, first + second),
{
    let head = choose|states: Seq<O>| heard_along(states, mid, before, first);
    let tail = choose|states: Seq<O>| heard_along(states, after, mid, second);
    let states = head + tail.skip(1);
    assert forall|i: int| 0 <= i < (first + second).len() implies #[trigger] heard_at(
        states,
        first + second,
        i,
    ) by {
        if i < first.len() {
            assert(heard_at(head, first, i));
        } else {
            assert(heard_at(tail, second, i - first.len()));
        }
    }
    assert(heard_along(states, after, before, first + second));
}

/// An observer that is lent out passes on what it is told: the observer behind
/// the reference hears the event, and the reference goes on lending that observer.
impl<P, E, O: Observer<P, E>> Observer<P, E> for &mut O {
    /// The observer behind the reference has heard the event.
    open spec fn heard(&self, before: &Self, event: Event<P, E>) -> bool {
        (**self).heard(&**before, event)
    }

    fn on_error(&mut self, e: E)
        ensures
            (**final(self)).heard(&**old(self), Event::Error(e)),
            *final(*final(self)) == *final(*old(self)),
    {
        (**self).on_error(e)
    }

    fn on_removal(&mut self, path: &P)
        ensures
            (**final(self)).heard(&**old(self), Event::Removal(*path)),
            *final(*final(self)) == *final(*old(self)),
    {
        (**self).on_removal(path)
    }

    fn on_scanned(&mut self, dir: &P)
        ensures
            (**final(self)).heard(&**old(self), Event::Scanned(*dir)),
            *final(*final(self)) == *final(*old(self)),
    {
        (**self).on_scanned(dir)
    }
}

/// The three totals of a [`Status`].
#[derive(Clone, Copy, Debug)]
pub struct Counts {
    /// Failures reported.
    pub errors: usize,
    /// Deletions reported.
    pub removals: usize,
    /// Directories reported as processed.
    pub scanned: usize,
}

/// A counter one event further: it wraps to zero past the largest value.
pub open spec fn bump(count: usize) -> usize {
    if count == usize::MAX {
        0
    } else {
        (count + 1) as usize
    }
}

/// The totals after one more event: the counter of its kind moves, the other two
/// stay.
pub open spec fn counted<P, E>(counts: Counts, event: Event<P, E>) -> Counts {
    match event {
        Event::Error(_) => Counts { errors: bump(counts.errors), ..counts },
        Event::Removal(_) => Counts { removals: bump(counts.removals), ..counts },
        Event::Scanned(_) => Counts { scanned: bump(counts.scanned), ..counts },
    }
}

/// The totals after the events `events`, oldest first.
pub open spec fn counted_all<P, E>(counts: Counts, events: Seq<Event<P, E>>) -> Counts
    decreases events.len(),
{
    if events.len() == 0 {
        counts
    } else {
        counted(counted_all(counts, events.drop_last()), events.last())
    }
}

/// How many of `events` are errors, removals and scanned directories.
pub open spec fn tally<P, E>(events: Seq<Event<P, E>>) -> (nat, nat, nat)
    decreases events.len(),
{
    if events.len() == 0 {
        (0, 0, 0)
    } else {
        let (errors, removals, scanned) = tally(events.drop_last());
        match events.last() {
            Event::Error(_) => (errors + 1, removals, scanned),
            Event::Removal(_) => (errors, removals + 1, scanned),
            Event::Scanned(_) => (errors, removals, scanned + 1),
        }
    }
}

/// From zero, each total is the number of events of its kind, for as long as
/// that number fits the counter.
pub proof fn lemma_totals_are_tallies<P, E>(events: Seq<Event<P, E>>)
    ensures
        ({
            let counts = counted_all(Counts { errors: 0, removals: 0, scanned: 0 }, events);
            let (errors, removals, scanned) = tally(events);
            &&& errors <= usize::MAX ==> counts.errors == errors
            &&& removals <= usize::MAX ==> counts.removals == removals
            &&& scanned <= usize::MAX ==> counts.scanned == scanned
        }),
    decreases events.len(),
{
    if events.len() > 0 {
        lemma_totals_are_tallies(events.drop_last());
    }
}

/// A status that has heard some events has counted them all.
pub proof fn lemma_status_counts_what_it_hears<P, E>(
    after: Status,
    before: Status,
    events: Seq<Event<P, E>>,
)
    requires
        heard_all(after, before, events),
    ensures
        after@ == counted_all(before@, events),
{
    let states = choose|states: Seq<Status>| heard_along(states, after, before, events);
    lemma_status_counts_along(states, events, events.len() as int);
    assert(events.take(events.len() as int) == events);
}

proof fn lemma_status_counts_along<P, E>(states: Seq<Status>, events: Seq<Event<P, E>>, upto: int)
    requires
        states.len() == events.len() + 1,
        forall|i: int| 0 <= i < events.len() ==> #[trigger] heard_at(states, events, i),
        0 <= upto <= events.len(),
    ensures
        states[upto]@ == counted_all(states[0]@, events.take(upto)),
    decreases upto,
{
    if upto > 0 {
        lemma_status_counts_along(states, events, upto - 1);
        assert(heard_at(states, events, upto - 1));
        assert(events.take(upto).drop_last() == events.take(upto - 1));
        assert(events.take(upto).last() == events[upto - 1]);
    }
}

/// The digit character of `d`, for `d` below ten.
pub open spec fn digit(d: nat) -> char {
    if d == 0 {
        '0'
    } else if d == 1 {
        '1'
    } else if d == 2 {
        '2'
    } else if d == 3 {
        '3'
    } else if d == 4 {
        '4'
    } else if d == 5 {
        '5'
    } else if d == 6 {
        '6'
    } else if d == 7 {
        '7'
    } else if d == 8 {
        '8'
    } else {
        '9'
    }
}

/// `n` in decimal, without leading zeros.
pub open spec fn decimal(n: nat) -> Seq<char>
    decreases n,
{
    if n < 10 {
        seq![digit(n)]
    } else {
        decimal(n / 10).push(digit(n % 10))
    }
}

/// The status line for the totals `counts`.
pub open spec fn status_line(counts: Counts) -> Seq<char> {
    decimal(counts.scanned as nat) + " scanned, "@ + decimal(counts.removals as nat)
        + " removed, "@ + decimal(counts.errors as nat) + " errors"@
}

fn digit_text(d: usize) -> (text: &'static str)
    requires
        d < 10,
    ensures
        text@ == seq![digit(d as nat)],
{
    let text = if d == 0 {
        "0"
    } else if d == 1 {
        "1"
    } else if d == 2 {
        "2"
    } else if d == 3 {
        "3"
    } else if d == 4 {
        "4"
    } else if d == 5 {
        "5"
    } else if d == 6 {
        "6"
    } else if d == 7 {
        "7"
    } else if d == 8 {
        "8"
    } else {
        "9"
    };
    proof {
        reveal_strlit("0");
        reveal_strlit("1");
        reveal_strlit("2");
        reveal_strlit("3");
        reveal_strlit("4");
        reveal_strlit("5");
        reveal_strlit("6");
        reveal_strlit("7");
        reveal_strlit("8");
        reveal_strlit("9");
        assert(text@ =~= seq![digit(d as nat)]);
    }
    text
}

/// Appends `n` in decimal to `text`.
fn push_decimal(text: &mut String, n: usize)
    ensures
        final(text)@ == old(text)@ + decimal(n as nat),
    decreases n,
{
    if n >= 10 {
        push_decimal(text, n / 10);
    }
    text.append(digit_text(n % 10));
    proof {
        if n >= 10 {
            assert(text@ =~= old(text)@ + decimal((n / 10) as nat).push(digit((n % 10) as nat)));
        } else {
            assert(text@ =~= old(text)@ + seq![digit(n as nat)]);
        }
    }
}

/// Counts the events of a sweep by kind.
#[derive(Debug)]
pub struct Status {
    error_count: usize,
    removed_count: usize,
    scanned_count: usize,
}

impl View for Status {
    type V = Counts;

    closed spec fn view(&self) -> Counts {
        Counts {
            errors: self.error_count,
            removals: self.removed_count,
            scanned: self.scanned_count,
        }
    }
}

impl Status {
    /// A status with nothing counted yet.
    pub fn new() -> (status: Status)
        ensures
            status@ == (Counts { errors: 0, removals: 0, scanned: 0 }),
    {
        Status { error_count: 0, removed_count: 0, scanned_count: 0 }
    }

    /// Number of failures reported so far.
    pub fn error_count(&self) -> (count: usize)
        ensures
            count == self@.errors,
    {
        self.error_count
    }

    /// Number of deletions reported so far.
    pub fn removed_count(&self) -> (count: usize)
        ensures
            count == self@.removals,
    {
        self.removed_count
    }

    /// Number of directories reported as processed so far.
    pub fn scanned_count(&self) -> (count: usize)
        ensures
            count == self@.scanned,
    {
        self.scanned_count
    }

    /// The status line: the three totals in decimal, in the order scanned,
    /// removed, errors.
    pub fn message(&self) -> (text: String)
        ensures
            text@ == status_line(self@),
    {
        let mut text = String::new();
        push_decimal(&mut text, self.scanned_count);
        text.append(" scanned, ");
        push_decimal(&mut text, self.removed_count);
        text.append(" removed, ");
        push_decimal(&mut text, self.error_count);
        text.append(" errors");
        proof {
            assert(text@ =~= status_line(self@));
        }
        text
    }
}

impl<P, E> Observer<P, E> for Status {
    /// The totals are those of `before` with `event` counted.
    open spec fn heard(&self, before: &Self, event: Event<P, E>) -> bool {
        self@ == counted(before@, event)
    }

    fn on_error(&mut self, e: E)
        ensures
            final(self)@ == counted(old(self)@, Event::<P, E>::Error(e)),
    {
        self.error_count = self.error_count.wrapping_add(1);
    }

    fn on_removal(&mut self, path: &P)
        ensures
            final(self)@ == counted(old(self)@, Event::<P, E>::Removal(*path)),
    {
        self.removed_count = self.removed_count.wrapping_add(1);
    }

    fn on_scanned(&mut self, dir: &P)
        ensures
            final(self)@ == counted(old(self)@, Event::<P, E>::Scanned(*dir)),
    {
        self.scanned_count = self.scanned_count.wrapping_add(1);
    }
}

} // verus!
