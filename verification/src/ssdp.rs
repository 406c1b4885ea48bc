//! The schedule of SSDP announcements: every cycle waits five seconds and
//! then sends each message twice over, each send after a 10 ms pause.

use vstd::prelude::*;

verus! {

/// One step of the announcement schedule.
#[derive(Debug, Clone, Copy, PartialEq, Eq, Structural)]
pub enum SsdpAction {
    /// Wait this many milliseconds.
    Sleep(u64),
    /// Send the message with this index.
    Send(usize),
}

/// The number of steps in one cycle for `count` messages.
pub open spec fn cycle_len(count: nat) -> nat {
    1 + 4 * count
}

/// The step at position `pos` of a cycle for `count` messages.
pub open spec fn action_at(count: nat, pos: nat) -> SsdpAction {
    if pos == 0 {
        SsdpAction::Sleep(5000)
    } else if (pos - 1) % 2 == 0 {
        SsdpAction::Sleep(10)
    } else {
        SsdpAction::Send((((pos - 1) / 2) % (count as int)) as usize)
    }
}

/// Where the announcement loop stands.
pub struct Advertiser {
    count: usize,
    pos: usize,
}

impl Advertiser {
    #[verifier::type_invariant]
    spec fn wf(self) -> bool {
        &&& cycle_len(self.count as nat) <= usize::MAX
        &&& self.pos < cycle_len(self.count as nat)
    }

    /// The number of messages.
    pub closed spec fn count(&self) -> nat {
        self.count as nat
    }

    /// The position in the current cycle.
    pub closed spec fn pos(&self) -> nat {
        self.pos as nat
    }

    /// The start of the schedule for `count` messages.
    pub fn new(count: usize) -> (r: Advertiser)
        requires
            cycle_len(count as nat) <= usize::MAX,
        ensures
            r.count() == count,
            r.pos() == 0,
    {
        Advertiser { count, pos: 0 }
    }

    /// The next step, after which the schedule moves on (and starts the
    /// next cycle after the last step of a cycle).
    pub fn next(&mut self) -> (r: SsdpAction)
        ensures
            r == action_at(old(self).count(), old(self).pos()),
            final(self).count() == old(self).count(),
            final(self).pos() == (old(self).pos() + 1) % cycle_len(old(self).count()),
    {
        proof {
            use_type_invariant(&*self);
        }
        let pos = self.pos;
        let count = self.count;
        let r = if pos == 0 {
            SsdpAction::Sleep(5000)
        } else if (pos - 1) % 2 == 0 {
            SsdpAction::Sleep(10)
        } else {
            SsdpAction::Send(((pos - 1) / 2) % count)
        };
        let len = 1 + 4 * count;
        let next = if pos + 1 == len {
            0
        } else {
            pos + 1
        };
        proof {
            if pos + 1 < len {
                vstd::arithmetic::div_mod::lemma_small_mod((pos + 1) as nat, len as nat);
            } else {
                vstd::arithmetic::div_mod::lemma_mod_self_0(len as int);
            }
        }
        self.pos = next;
        r
    }
}

/// Within a cycle, every message is sent exactly twice: message `i` at
/// steps `2 + 2 i` and `2 + 2 (i + count)`.
pub proof fn lemma_each_message_twice(count: nat, i: nat)
    requires
        i < count <= usize::MAX,
    ensures
        action_at(count, 2 + 2 * i) == SsdpAction::Send(i as usize),
        action_at(count, 2 + 2 * (i + count)) == SsdpAction::Send(i as usize),
        forall|p: nat|
            p < cycle_len(count) && action_at(count, p) == SsdpAction::Send(i as usize) ==> p == 2
                + 2 * i || p == 2 + 2 * (i + count),
{
    assert((2 + 2 * i - 1) % 2 == 1);
    assert((2 + 2 * i - 1) / 2 == i);
    assert((2 + 2 * (i + count) - 1) % 2 == 1);
    assert((2 + 2 * (i + count) - 1) / 2 == i + count);
    assert(((i + count) as int) % (count as int) == i) by {
        vstd::arithmetic::div_mod::lemma_mod_add_multiples_vanish(i as int, count as int);
        vstd::arithmetic::div_mod::lemma_small_mod(i, count);
    }
    assert(i % count == i) by {
        vstd::arithmetic::div_mod::lemma_small_mod(i, count);
    }
    assert forall|p: nat|
        p < cycle_len(count) && action_at(count, p) == SsdpAction::Send(i as usize) implies p == 2
        + 2 * i || p == 2 + 2 * (i + count) by {
        let q = (p - 1) / 2;
        assert(p >= 1);
        assert((p - 1) % 2 == 1);
        assert(p == 2 * q + 2);
        assert(q < 2 * count);
        vstd::arithmetic::div_mod::lemma_mod_bound(q as int, count as int);
        let m = q % (count as int);
        assert(action_at(count, p) == SsdpAction::Send(m as usize));
        assert(m as usize == i as usize);
        assert(m == i);
        if q < count {
            vstd::arithmetic::div_mod::lemma_small_mod(q as nat, count);
        } else {
            vstd::arithmetic::div_mod::lemma_mod_sub_multiples_vanish(q as int, count as int);
            vstd::arithmetic::div_mod::lemma_small_mod((q - count) as nat, count);
        }
    }
}

} // verus!
