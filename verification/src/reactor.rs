//! The reactor: the table of descriptor registrations and the rule by which a
//! readiness probe's answer is turned into the tokens to wake.

use vstd::prelude::*;

verus! {

/// The most that one readiness probe waits, in milliseconds.
pub const PROBE_TIMEOUT_MS: i32 = 100;

/// The identity of a task, and the key under which its registrations stand.
#[derive(Debug, Clone, Copy, PartialEq, Eq, Structural)]
pub struct Token(pub usize);

/// One interest of a task in a descriptor: `events` is the mask of conditions
/// waited for, in the encoding of the multiplexing call.
#[derive(Debug, Clone, Copy, PartialEq, Eq, Structural)]
pub struct Registration {
    pub token: Token,
    pub fd: i32,
    pub events: i16,
}

/// Why a readiness probe failed: the error number that the operating system
/// reported for the multiplexing call.
#[derive(Debug, Clone, Copy, PartialEq, Eq, Structural)]
pub struct ProbeError {
    pub errno: i32,
}

/// Whether a reported mask meets a registered one: they share a condition.
pub open spec fn satisfied(events: i16, revents: i16) -> bool {
    revents & events != 0
}

/// The mask reported for the registration at `index`; a registration that the
/// answer does not reach counts as not reported.
pub open spec fn reported(revents: Seq<i16>, index: int) -> i16 {
    if 0 <= index < revents.len() {
        revents[index]
    } else {
        0
    }
}

/// The test that a registration stands under `token`.
pub open spec fn is_of(token: Token) -> spec_fn(Registration) -> bool {
    |r: Registration| r.token == token
}

/// The test that a registration stands under another token than `token`.
pub open spec fn is_not_of(token: Token) -> spec_fn(Registration) -> bool {
    |r: Registration| r.token != token
}

/// The registrations that are left when every entry of `token` is taken out.
pub open spec fn without(regs: Seq<Registration>, token: Token) -> Seq<Registration> {
    regs.filter(is_not_of(token))
}

/// The number of registrations that stand under `token`.
pub open spec fn count(regs: Seq<Registration>, token: Token) -> nat {
    regs.filter(is_of(token)).len()
}

/// The tokens of the registrations whose interest the answer `revents` meets,
/// in registration order, one for each such registration.
pub open spec fn ready_tokens(regs: Seq<Registration>, revents: Seq<i16>) -> Seq<Token>
    decreases regs.len(),
{
    if regs.len() == 0 {
        Seq::empty()
    } else {
        let earlier = ready_tokens(regs.drop_last(), revents);
        if satisfied(regs.last().events, reported(revents, regs.len() - 1)) {
            earlier.push(regs.last().token)
        } else {
            earlier
        }
    }
}

/// What a probe with return value `res` makes ready: nothing when no
/// descriptor was reported, else the tokens that `revents` satisfies.
pub open spec fn probe_ready(regs: Seq<Registration>, res: i32, revents: Seq<i16>) -> Seq<Token> {
    if res > 0 {
        ready_tokens(regs, revents)
    } else {
        Seq::empty()
    }
}

/// The registration table.
pub struct Reactor {
    entries: Vec<Registration>,
}

impl View for Reactor {
    type V = Seq<Registration>;

    closed spec fn view(&self) -> Seq<Registration> {
        self.entries@
    }
}

impl Reactor {
    /// A reactor with no registration.
    pub fn new() -> (reactor: Reactor)
        ensures
            reactor@ == Seq::<Registration>::empty(),
    {
        Reactor { entries: Vec::new() }
    }

    /// Appends a registration. Nothing is deduplicated.
    pub fn register(&mut self, token: Token, fd: i32, events: i16)
        ensures
            final(self)@ == old(self)@.push(Registration { token, fd, events }),
    {
        self.entries.push(Registration { token, fd, events });
    }

    /// Removes every registration of `token`; the others keep their order.
    pub fn unregister(&mut self, token: Token)
        ensures
            final(self)@ == without(old(self)@, token),
    {
        let mut kept: Vec<Registration> = Vec::new();
        let mut i: usize = 0;
        while i < self.entries.len()
            invariant
                i <= self.entries.len(),
                self.entries@ == old(self).entries@,
                kept@ == without(self.entries@.take(i as int), token),
            decreases self.entries.len() - i,
        {
            let entry = self.entries[i];
            proof {
                reveal(Seq::filter);
                let next = self.entries@.take(i + 1);
                assert(next.drop_last() == self.entries@.take(i as int));
                assert(next.last() == entry);
            }
            if entry.token != token {
                kept.push(entry);
            }
            i += 1;
        }
        assert(self.entries@.take(i as int) == self.entries@);
        self.entries = kept;
    }

    /// The number of registrations.
    pub fn len(&self) -> (n: usize)
        ensures
            n == self@.len(),
    {
        self.entries.len()
    }

    /// The registrations, in the order they were made.
    pub fn registrations(&self) -> (regs: &Vec<Registration>)
        ensures
            regs@ == self@,
    {
        &self.entries
    }

    /// Reads the answer of one readiness probe: `res` is what the multiplexing
    /// call returned, `errno` the error number it left, `revents` the reported
    /// mask of each registration in order.
    pub fn poll(&self, res: i32, errno: i32, revents: &Vec<i16>) -> (ready: Result<
        Vec<Token>,
        ProbeError,
    >)
        ensures
            res < 0 ==> ready == Err::<Vec<Token>, ProbeError>(ProbeError { errno }),
            res >= 0 ==> ready is Ok && ready->Ok_0@ == probe_ready(self@, res, revents@),
    {
        if res < 0 {
            return Err(ProbeError { errno });
        }
        let mut ready: Vec<Token> = Vec::new();
        if res == 0 {
            return Ok(ready);
        }
        let mut i: usize = 0;
        while i < self.entries.len()
            invariant
                i <= self.entries.len(),
                ready@ == ready_tokens(self.entries@.take(i as int), revents@),
            decreases self.entries.len() - i,
        {
            let entry = self.entries[i];
            let seen: i16 = if i < revents.len() { revents[i] } else { 0 };
            proof {
                let next = self.entries@.take(i + 1);
                assert(next.drop_last() == self.entries@.take(i as int));
                assert(next.last() == entry);
                assert(seen == reported(revents@, next.len() - 1));
            }
            if seen & entry.events != 0 {
                ready.push(entry.token);
            }
            i += 1;
        }
        assert(self.entries@.take(i as int) == self.entries@);
        Ok(ready)
    }
}

/// Registering adds one registration under its own token and none under any
/// other.
pub proof fn lemma_register_counts(regs: Seq<Registration>, reg: Registration, token: Token)
    ensures
        count(regs.push(reg), token) == count(regs, token) + if reg.token == token {
            1nat
        } else {
            0nat
        },
{
    regs.lemma_filter_push(reg, is_of(token));
}

/// Unregistering leaves no registration under its token, and under every other
/// token as many as before.
pub proof fn lemma_unregister_counts(regs: Seq<Registration>, gone: Token, token: Token)
    ensures
        count(without(regs, gone), token) == if token == gone {
            0nat
        } else {
            count(regs, token)
        },
    decreases regs.len(),
{
    reveal(Seq::filter);
    if regs.len() > 0 {
        let init = regs.drop_last();
        let last = regs.last();
        lemma_unregister_counts(init, gone, token);
        without(init, gone).lemma_filter_push(last, is_of(token));
    }
}

/// Where no registration stands under `token`, unregistering it changes
/// nothing.
pub proof fn lemma_unregister_absent(regs: Seq<Registration>, token: Token)
    requires
        count(regs, token) == 0,
    ensures
        without(regs, token) == regs,
    decreases regs.len(),
{
    reveal(Seq::filter);
    if regs.len() > 0 {
        let init = regs.drop_last();
        lemma_unregister_absent(init, token);
        assert(init.push(regs.last()) == regs);
    }
}

/// A registration followed by the release of its token leaves what the release
/// alone would leave; where the token had no registration before, the table is
/// as it was. No registration outlives its release.
pub proof fn lemma_register_then_unregister(regs: Seq<Registration>, reg: Registration)
    ensures
        without(regs.push(reg), reg.token) == without(regs, reg.token),
        count(without(regs.push(reg), reg.token), reg.token) == 0,
        count(regs, reg.token) == 0 ==> without(regs.push(reg), reg.token) == regs,
{
    regs.lemma_filter_push(reg, is_not_of(reg.token));
    lemma_unregister_counts(regs, reg.token, reg.token);
    if count(regs, reg.token) == 0 {
        lemma_unregister_absent(regs, reg.token);
    }
}

/// A token is made ready exactly when the answer meets the interest of one of
/// its registrations.
pub proof fn lemma_ready_tokens(regs: Seq<Registration>, revents: Seq<i16>, token: Token)
    ensures
        ready_tokens(regs, revents).contains(token) <==> exists|i: int|
            0 <= i < regs.len() && (#[trigger] regs[i]).token == token && satisfied(
                regs[i].events,
                reported(revents, i),
            ),
    decreases regs.len(),
{
    if regs.len() > 0 {
        let init = regs.drop_last();
        let last = regs.last();
        let n = regs.len() - 1;
        lemma_ready_tokens(init, revents, token);
        let earlier = ready_tokens(init, revents);
        let hit = satisfied(last.events, reported(revents, n));
        if ready_tokens(regs, revents).contains(token) {
            if hit && last.token == token {
                assert(regs[n].token == token);
            } else {
                assert(earlier.contains(token)) by {
                    if hit {
                        let k = choose|k: int|
                            0 <= k < earlier.push(last.token).len() && earlier.push(last.token)[k]
                                == token;
                        assert(earlier[k] == token);
                    }
                }
                let i = choose|i: int|
                    0 <= i < init.len() && (#[trigger] init[i]).token == token && satisfied(
                        init[i].events,
                        reported(revents, i),
                    );
                assert(regs[i].token == token);
            }
        }
        if exists|i: int|
            0 <= i < regs.len() && (#[trigger] regs[i]).token == token && satisfied(
                regs[i].events,
                reported(revents, i),
            ) {
            let i = choose|i: int|
                0 <= i < regs.len() && (#[trigger] regs[i]).token == token && satisfied(
                    regs[i].events,
                    reported(revents, i),
                );
            if i == n {
                assert(earlier.push(last.token)[earlier.len() as int] == token);
            } else {
                assert(init[i].token == token);
                assert(earlier.contains(token));
                let k = choose|k: int| 0 <= k < earlier.len() && earlier[k] == token;
                if hit {
                    assert(earlier.push(last.token)[k] == token);
                }
            }
        }
    }
}

} // verus!
