//! Shutdown of a registered runtime.

use vstd::prelude::*;

verus! {

/// The closed state of a runtime and the closers that its shutdown runs.
///
/// A closer is named by the number under which the host finds what to run.
#[derive(Debug)]
pub struct ShutdownFlag {
    closed: bool,
    closers: Vec<u64>,
}

/// The contents of a [`ShutdownFlag`].
pub struct FlagView {
    /// Whether the runtime was shut down.
    pub closed: bool,
    /// The closers that wait, in order.
    pub closers: Seq<u64>,
}

impl View for ShutdownFlag {
    type V = FlagView;

    closed spec fn view(&self) -> FlagView {
        FlagView { closed: self.closed, closers: self.closers@ }
    }
}

/// A closed flag keeps no closer.
pub open spec fn flag_wf(flag: FlagView) -> bool {
    flag.closed ==> flag.closers.len() == 0
}

/// What tracking `closer` does: it waits for the shutdown, or runs at once
/// where that was already.
pub open spec fn track_step(
    before: FlagView,
    closer: u64,
    fire: Option<u64>,
    after: FlagView,
) -> bool {
    if before.closed {
        after == before && fire == Some(closer)
    } else {
        &&& after == FlagView { closers: before.closers.push(closer), ..before }
        &&& fire is None
    }
}

/// What a shutdown does: it runs the closers that wait, and leaves none.
pub open spec fn close_step(before: FlagView, fired: Seq<u64>, after: FlagView) -> bool {
    &&& fired == before.closers
    &&& after == FlagView { closed: true, closers: Seq::empty() }
}

impl ShutdownFlag {
    /// An open flag without closers.
    pub fn new() -> (flag: ShutdownFlag)
        ensures
            flag@ == (FlagView { closed: false, closers: Seq::empty() }),
    {
        ShutdownFlag { closed: false, closers: Vec::new() }
    }

    /// Whether the runtime was shut down.
    pub fn is_shutdown(&self) -> (closed: bool)
        ensures
            closed == self@.closed,
    {
        self.closed
    }

    /// Keeps a closer for the shutdown. Where that was already, the closer is
    /// handed back to run at once.
    pub fn track(&mut self, closer: u64) -> (fire: Option<u64>)
        requires
            flag_wf(old(self)@),
        ensures
            flag_wf(final(self)@),
            track_step(old(self)@, closer, fire, final(self)@),
    {
        if self.closed {
            return Some(closer);
        }
        self.closers.push(closer);
        None
    }

    /// Closes the runtime and hands out the closers to run, in the order in
    /// which they came. Pending reads see the closed state from here on.
    pub fn close(&mut self) -> (fired: Vec<u64>)
        ensures
            flag_wf(final(self)@),
            close_step(old(self)@, fired@, final(self)@),
    {
        self.closed = true;
        let mut fired: Vec<u64> = Vec::new();
        fired.append(&mut self.closers);
        assert(fired@ =~= old(self).closers@);
        assert(self.closers@ =~= Seq::<u64>::empty());
        fired
    }
}

/// One call on a flag, and what it ran.
pub enum FlagCall {
    /// A closer was tracked.
    Track(u64),
    /// The runtime was shut down.
    Close,
}

/// What one call does.
pub open spec fn flag_step(
    before: FlagView,
    call: FlagCall,
    fired: Seq<u64>,
    after: FlagView,
) -> bool {
    match call {
        FlagCall::Track(closer) => exists|fire: Option<u64>| #[trigger]
            track_step(before, closer, fire, after) && fired == match fire {
                Some(now) => seq![now],
                None => Seq::empty(),
            },
        FlagCall::Close => close_step(before, fired, after),
    }
}

/// How often `closer` occurs in `list`.
pub open spec fn times(list: Seq<u64>, closer: u64) -> nat
    decreases list.len(),
{
    if list.len() == 0 {
        0
    } else {
        times(list.drop_last(), closer) + if list.last() == closer {
            1nat
        } else {
            0nat
        }
    }
}

/// How often the calls track `closer`.
pub open spec fn times_tracked(calls: Seq<FlagCall>, closer: u64) -> nat
    decreases calls.len(),
{
    if calls.len() == 0 {
        0
    } else {
        times_tracked(calls.drop_last(), closer) + if calls.last() == FlagCall::Track(closer) {
            1nat
        } else {
            0nat
        }
    }
}

/// How often the calls run `closer`.
pub open spec fn times_fired(fired: Seq<Seq<u64>>, closer: u64) -> nat
    decreases fired.len(),
{
    if fired.len() == 0 {
        0
    } else {
        times_fired(fired.drop_last(), closer) + times(fired.last(), closer)
    }
}

/// Every closer runs exactly as often as it was tracked, or still waits: none
/// is lost and none runs twice, whatever calls came in which order.
pub proof fn lemma_closers_fire_once(
    states: Seq<FlagView>,
    calls: Seq<FlagCall>,
    fired: Seq<Seq<u64>>,
    closer: u64,
)
    requires
        states.len() == calls.len() + 1,
        fired.len() == calls.len(),
        states[0] == (FlagView { closed: false, closers: Seq::empty() }),
        forall|i: int|
            0 <= i < calls.len() ==> #[trigger] flag_step(
                states[i],
                calls[i],
                fired[i],
                states[i + 1],
            ),
    ensures
        times_fired(fired, closer) + times(states.last().closers, closer) == times_tracked(
            calls,
            closer,
        ),
        states.last().closed ==> times_fired(fired, closer) == times_tracked(calls, closer),
    decreases calls.len(),
{
    if calls.len() > 0 {
        let n = calls.len() - 1;
        let earlier = states.drop_last();
        assert forall|i: int| 0 <= i < n implies #[trigger] flag_step(
            earlier[i],
            calls.drop_last()[i],
            fired.drop_last()[i],
            earlier[i + 1],
        ) by {
            assert(flag_step(states[i], calls[i], fired[i], states[i + 1]));
        }
        lemma_closers_fire_once(earlier, calls.drop_last(), fired.drop_last(), closer);
        lemma_flag_stays_wf(earlier, calls.drop_last(), fired.drop_last());
        assert(flag_step(states[n], calls[n], fired[n], states[n + 1]));
        assert(earlier.last() == states[n]);
        reveal_with_fuel(times, 2);
        match calls[n] {
            FlagCall::Track(added) => {
                if states[n].closed {
                    assert(fired[n] == seq![added]);
                    assert(fired[n].drop_last() =~= Seq::<u64>::empty());
                } else {
                    let longer = states[n].closers.push(added);
                    assert(longer.drop_last() =~= states[n].closers);
                    assert(states[n + 1].closers == longer);
                    assert(fired[n] =~= Seq::<u64>::empty());
                }
            },
            FlagCall::Close => {},
        }
    }
    lemma_flag_stays_wf(states, calls, fired);
}

proof fn lemma_flag_stays_wf(states: Seq<FlagView>, calls: Seq<FlagCall>, fired: Seq<Seq<u64>>)
    requires
        states.len() == calls.len() + 1,
        fired.len() == calls.len(),
        states[0] == (FlagView { closed: false, closers: Seq::empty() }),
        forall|i: int|
            0 <= i < calls.len() ==> #[trigger] flag_step(
                states[i],
                calls[i],
                fired[i],
                states[i + 1],
            ),
    ensures
        flag_wf(states.last()),
    decreases calls.len(),
{
    if calls.len() > 0 {
        let n = calls.len() - 1;
        let earlier = states.drop_last();
        assert forall|i: int| 0 <= i < n implies #[trigger] flag_step(
            earlier[i],
            calls.drop_last()[i],
            fired.drop_last()[i],
            earlier[i + 1],
        ) by {
            assert(flag_step(states[i], calls[i], fired[i], states[i + 1]));
        }
        lemma_flag_stays_wf(earlier, calls.drop_last(), fired.drop_last());
        assert(flag_step(states[n], calls[n], fired[n], states[n + 1]));
        assert(earlier.last() == states[n]);
    }
}

/// Another shutdown runs nothing and changes nothing.
pub proof fn lemma_close_is_idempotent(
    before: FlagView,
    fired: Seq<u64>,
    closed: FlagView,
    again: Seq<u64>,
    after: FlagView,
)
    requires
        close_step(before, fired, closed),
        close_step(closed, again, after),
    ensures
        again == Seq::<u64>::empty(),
        after == closed,
{
}

} // verus!
