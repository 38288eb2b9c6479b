use vstd::prelude::*;

use std::collections::HashSet;

use crate::key_mappings::KeyMapping;

verus! {

broadcast use vstd::std_specs::hash::group_hash_axioms;

/// Records which key lights which LED, one LED at a time: the LED being
/// calibrated takes the first key code not recorded before.
pub struct Calibration {
    keys: Vec<u16>,
    seen: HashSet<u16>,
    num_leds: usize,
}

impl Calibration {
    /// The codes recorded so far, for LEDs `0, 1, ...` in order.
    pub closed spec fn keys(&self) -> Seq<u16> {
        self.keys@
    }

    /// How many LEDs the controller has.
    pub closed spec fn led_count(&self) -> nat {
        self.num_leds as nat
    }

    /// The set of codes seen is the set of codes recorded.
    pub closed spec fn seen_matches(&self) -> bool {
        self.seen@ == self.keys@.to_set()
    }

    /// At most one code per LED, and no code twice.
    pub open spec fn wf(&self) -> bool {
        &&& self.keys().len() <= self.led_count()
        &&& self.keys().no_duplicates()
        &&& self.seen_matches()
    }

    /// A calibration of `num_leds` LEDs with nothing recorded.
    pub fn new(num_leds: usize) -> (r: Calibration)
        ensures
            r.wf(),
            r.keys().len() == 0,
            r.led_count() == num_leds,
    {
        let r = Calibration { keys: Vec::new(), seen: HashSet::new(), num_leds };
        assert(r.keys@.to_set() =~= Set::<u16>::empty());
        r
    }

    /// The LED waiting for its key, or `None` when every LED has one.
    pub fn current_led(&self) -> (r: Option<usize>)
        requires
            self.wf(),
        ensures
            self.keys().len() < self.led_count() ==> r == Some(self.keys().len() as usize),
            self.keys().len() >= self.led_count() ==> r is None,
    {
        if self.keys.len() < self.num_leds {
            Some(self.keys.len())
        } else {
            None
        }
    }

    /// Offers a key code read from the input device. It is recorded for the
    /// current LED when an LED is waiting and the code is new; the result says
    /// whether it was.
    pub fn offer(&mut self, code: u16) -> (r: bool)
        requires
            old(self).wf(),
        ensures
            final(self).wf(),
            final(self).led_count() == old(self).led_count(),
            r == (old(self).keys().len() < old(self).led_count() && !old(self).keys().contains(
                code,
            )),
            r ==> final(self).keys() == old(self).keys().push(code),
            !r ==> final(self).keys() == old(self).keys(),
    {
        if self.keys.len() >= self.num_leds {
            return false;
        }
        if self.seen.contains(&code) {
            assert(self.keys@.to_set().contains(code));
            return false;
        }
        assert(!self.keys@.contains(code)) by {
            if self.keys@.contains(code) {
                assert(self.keys@.to_set().contains(code));
            }
        }
        let ghost before = self.keys@;
        self.keys.push(code);
        self.seen.insert(code);
        assert(self.keys@.to_set() =~= before.to_set().insert(code)) by {
            assert forall|x: u16| self.keys@.to_set().contains(x) <==> before.to_set().insert(code).contains(x) by {
                if self.keys@.contains(x) && x != code {
                    let k = choose|k: int| 0 <= k < self.keys@.len() && self.keys@[k] == x;
                    assert(before[k] == x);
                }
                if before.contains(x) {
                    let k = choose|k: int| 0 <= k < before.len() && before[k] == x;
                    assert(self.keys@[k] == x);
                }
                if x == code {
                    assert(self.keys@[before.len() as int] == code);
                }
            }
        }
        assert(self.keys@.no_duplicates()) by {
            assert forall|a: int, b: int|
                0 <= a < self.keys@.len() && 0 <= b < self.keys@.len() && a != b implies self.keys@[a]
                != self.keys@[b] by {
                if a < before.len() && b < before.len() {
                    assert(before[a] == self.keys@[a]);
                    assert(before[b] == self.keys@[b]);
                } else if a == before.len() {
                    assert(before[b] == self.keys@[b]);
                } else {
                    assert(before[a] == self.keys@[a]);
                }
            }
        }
        true
    }

    /// The mapping recorded so far: LED `i` lights for the `i`-th code.
    pub fn finish(self) -> (m: KeyMapping)
        ensures
            m@ == self.keys(),
    {
        KeyMapping::from(self.keys)
    }
}

} // verus!
