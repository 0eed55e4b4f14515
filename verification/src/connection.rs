use vstd::prelude::*;

use std::collections::VecDeque;

use crate::escapes::key_press_spec;
use crate::escapes::parse_key_press;
use crate::escapes::KeyPress;

verus! {

/// How many key presses a client may send within one second.
pub const MAX_KEY_PRESSES_PER_SECOND: usize = 100;

/// One second in nanoseconds.
pub const NANOS_PER_SECOND: u64 = 1000000000;

/// The times of key presses without those at the front that came more than a second
/// before `now`.
pub open spec fn without_old_presses(times: Seq<u64>, now: u64) -> Seq<u64>
    decreases times.len(),
{
    if times.len() > 0 && now - times[0] > NANOS_PER_SECOND {
        without_old_presses(times.drop_first(), now)
    } else {
        times
    }
}

/// What a connection has received and not used yet, and when its recent key presses came
/// (in nanoseconds since the connection was opened, oldest first).
pub struct ReceiveState {
    pub buffer: VecDeque<u8>,
    pub key_press_times: VecDeque<u64>,
}

impl ReceiveState {
    /// Nothing received yet.
    pub fn new() -> (r: Self)
        ensures
            r.buffer@ == Seq::<u8>::empty(),
            r.key_press_times@ == Seq::<u64>::empty(),
    {
        ReceiveState { buffer: VecDeque::new(), key_press_times: VecDeque::new() }
    }

    /// Appends received bytes; there are always some (receiving nothing means that the
    /// other side closed the connection).
    pub fn add_received_bytes(&mut self, bytes: &[u8])
        requires
            bytes@.len() > 0,
        ensures
            final(self).buffer@ == old(self).buffer@ + bytes@,
            final(self).key_press_times@ == old(self).key_press_times@,
    {
        let mut i: usize = 0;
        while i < bytes.len()
            invariant
                i <= bytes@.len(),
                self.buffer@ == old(self).buffer@ + bytes@.take(i as int),
                self.key_press_times@ == old(self).key_press_times@,
            decreases bytes@.len() - i,
        {
            self.buffer.push_back(bytes[i]);
            proof {
                assert(bytes@.take(i + 1) =~= bytes@.take(i as int).push(bytes@[i as int]));
                assert(old(self).buffer@ + bytes@.take(i + 1) =~= (old(self).buffer@ + bytes@.take(i as int)).push(bytes@[i as int]));
            }
            i = i + 1;
        }
        proof {
            assert(bytes@.take(bytes@.len() as int) =~= bytes@);
        }
    }

    /// Records a key press at time `now` and forgets the key presses at the front that
    /// came more than a second before it; returns whether at most 100 remain (more means
    /// that the client sends too fast).
    pub fn check_key_press_frequency(&mut self, now: u64) -> (r: bool)
        ensures
            final(self).key_press_times@ == without_old_presses(old(self).key_press_times@.push(now), now),
            r == (final(self).key_press_times@.len() <= MAX_KEY_PRESSES_PER_SECOND),
            final(self).buffer@ == old(self).buffer@,
    {
        self.key_press_times.push_back(now);
        let ghost all = old(self).key_press_times@.push(now);
        loop
            invariant
                without_old_presses(self.key_press_times@, now) == without_old_presses(all, now),
                self.buffer@ == old(self).buffer@,
            ensures
                self.key_press_times@ == without_old_presses(all, now),
                self.buffer@ == old(self).buffer@,
            decreases self.key_press_times@.len(),
        {
            if self.key_press_times.len() == 0 {
                break;
            }
            let first = self.key_press_times[0];
            if first <= now && now - first > NANOS_PER_SECOND {
                let ghost before = self.key_press_times@;
                self.key_press_times.pop_front();
                proof {
                    assert(self.key_press_times@ =~= before.drop_first());
                }
            } else {
                break;
            }
        }
        self.key_press_times.len() <= MAX_KEY_PRESSES_PER_SECOND
    }

    /// Takes the key press at the start of the received bytes, if they hold a whole one
    /// (see `key_press_spec`): its bytes are removed. Otherwise nothing changes.
    pub fn take_key_press(&mut self) -> (r: Option<KeyPress>)
        ensures
            match key_press_spec(old(self).buffer@) {
                Some((k, n)) => r == Some(k) && final(self).buffer@ == old(self).buffer@.skip(n as int),
                None => r is None && final(self).buffer@ == old(self).buffer@,
            },
            final(self).key_press_times@ == old(self).key_press_times@,
    {
        let mut data: Vec<u8> = Vec::new();
        let mut i: usize = 0;
        while i < self.buffer.len()
            invariant
                i <= self.buffer@.len(),
                self.buffer@ == old(self).buffer@,
                self.key_press_times@ == old(self).key_press_times@,
                data@ == self.buffer@.take(i as int),
            decreases self.buffer@.len() - i,
        {
            data.push(self.buffer[i]);
            proof {
                assert(self.buffer@.take(i + 1) =~= self.buffer@.take(i as int).push(self.buffer@[i as int]));
            }
            i = i + 1;
        }
        proof {
            assert(self.buffer@.take(self.buffer@.len() as int) =~= self.buffer@);
        }
        match parse_key_press(data.as_slice()) {
            Some((key, used)) => {
                proof {
                    lemma_key_press_len(data@);
                }
                let mut k: usize = 0;
                while k < used
                    invariant
                        k <= used <= old(self).buffer@.len(),
                        self.buffer@ == old(self).buffer@.skip(k as int),
                        self.key_press_times@ == old(self).key_press_times@,
                    decreases used - k,
                {
                    let ghost before = self.buffer@;
                    self.buffer.pop_front();
                    proof {
                        assert(self.buffer@ =~= old(self).buffer@.skip(k + 1));
                    }
                    k = k + 1;
                }
                Some(key)
            },
            None => None,
        }
    }
}

/// A key press takes at least one of the bytes and at most all of them.
proof fn lemma_key_press_len(data: Seq<u8>)
    ensures
        key_press_spec(data) matches Some((_k, n)) ==> 1 <= n <= data.len(),
{
}

} // verus!
