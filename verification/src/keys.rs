//! Pitch classes and the set of keys that are currently held down.

use vstd::prelude::*;

verus! {

/// The pitch class of a key: its distance in semitones above the nearest A
/// at or below it (key 21 is the lowest A of a piano).
pub open spec fn pitch_class_of(key: u8) -> int {
    (key as int - 21) % 12
}

/// Computes the pitch class of `key`.
pub fn pitch_class(key: u8) -> (pc: u8)
    ensures
        pc as int == pitch_class_of(key),
        pc < 12,
{
    let shifted: u16 = key as u16 + 3;
    (shifted % 12) as u8
}

/// `k` is held together with another held key of the same pitch class.
pub open spec fn is_signal_key(held: Set<u8>, k: u8) -> bool {
    held.contains(k) && exists|j: u8|
        j != k && #[trigger] held.contains(j) && pitch_class_of(j) == pitch_class_of(k)
}

/// `k` is the lowest key of `held` that takes part in an octave pair.
pub open spec fn is_lowest_signal_key(held: Set<u8>, k: u8) -> bool {
    is_signal_key(held, k) && forall|m: u8| m < k ==> !is_signal_key(held, m)
}

/// The pitch class that `held` signals: that of the lowest key which has an
/// octave partner among the held keys, if any two held keys share a pitch class.
pub open spec fn signal_pitch(held: Set<u8>) -> Option<u8> {
    if exists|k: u8| is_lowest_signal_key(held, k) {
        let k = choose|k: u8| is_lowest_signal_key(held, k);
        Some(pitch_class_of(k) as u8)
    } else {
        None
    }
}

/// A lowest signalling key decides the signalled pitch class.
pub proof fn lemma_signal_pitch_some(held: Set<u8>, k: u8)
    requires
        is_lowest_signal_key(held, k),
    ensures
        signal_pitch(held) == Some(pitch_class_of(k) as u8),
{
    let c = choose|c: u8| is_lowest_signal_key(held, c);
    assert(!(c < k));
    assert(!(k < c));
}

/// Without a key that has an octave partner nothing is signalled.
pub proof fn lemma_signal_pitch_none(held: Set<u8>)
    requires
        forall|k: u8| !is_signal_key(held, k),
    ensures
        signal_pitch(held).is_none(),
{
}

/// The keys that are down, one flag per key number.
pub struct KeySet {
    bits: Vec<bool>,
}

impl KeySet {
    /// Every key number has its flag.
    pub closed spec fn wf(&self) -> bool {
        self.bits.len() == 256
    }

    /// The set of held keys.
    pub closed spec fn view(&self) -> Set<u8> {
        Set::new(|k: u8| self.bits@[k as int])
    }

    /// No key held.
    pub fn new() -> (s: KeySet)
        ensures
            s.wf(),
            s@ == Set::<u8>::empty(),
    {
        let mut bits: Vec<bool> = Vec::new();
        let mut i: usize = 0;
        while i < 256
            invariant
                i <= 256,
                bits.len() == i,
                forall|j: int| 0 <= j < i ==> !bits[j],
            decreases 256 - i,
        {
            bits.push(false);
            i += 1;
        }
        let s = KeySet { bits };
        proof {
            assert(s@ =~= Set::<u8>::empty());
        }
        s
    }

    /// A copy that holds the same keys.
    pub fn snapshot(&self) -> (s: KeySet)
        requires
            self.wf(),
        ensures
            s.wf(),
            s@ == self@,
    {
        let mut bits: Vec<bool> = Vec::new();
        let mut i: usize = 0;
        while i < 256
            invariant
                i <= 256,
                self.bits.len() == 256,
                bits.len() == i,
                forall|j: int| 0 <= j < i ==> bits[j] == self.bits[j],
            decreases 256 - i,
        {
            bits.push(self.bits[i]);
            i += 1;
        }
        let s = KeySet { bits };
        proof {
            assert(s@ =~= self@);
        }
        s
    }

    /// Whether `key` is held.
    pub fn contains(&self, key: u8) -> (b: bool)
        requires
            self.wf(),
        ensures
            b == self@.contains(key),
    {
        self.bits[key as usize]
    }

    /// Presses `key`; a key that is already down stays down.
    pub fn insert(&mut self, key: u8)
        requires
            old(self).wf(),
        ensures
            final(self).wf(),
            final(self)@ == old(self)@.insert(key),
    {
        self.bits.set(key as usize, true);
        proof {
            assert(self@ =~= old(self)@.insert(key));
        }
    }

    /// Releases `key`.
    pub fn remove(&mut self, key: u8)
        requires
            old(self).wf(),
        ensures
            final(self).wf(),
            final(self)@ == old(self)@.remove(key),
    {
        self.bits.set(key as usize, false);
        proof {
            assert(self@ =~= old(self)@.remove(key));
        }
    }

    /// Whether no key of `self` is a key of `other`.
    pub fn is_disjoint(&self, other: &KeySet) -> (b: bool)
        requires
            self.wf(),
            other.wf(),
        ensures
            b == self@.disjoint(other@),
    {
        let mut i: usize = 0;
        while i < 256
            invariant
                i <= 256,
                self.wf(),
                other.wf(),
                forall|k: u8| k < i ==> !(self@.contains(k) && other@.contains(k)),
            decreases 256 - i,
        {
            if self.bits[i] && other.bits[i] {
                proof {
                    let k = i as u8;
                    assert(self@.contains(k) && other@.contains(k));
                }
                return false;
            }
            i += 1;
        }
        true
    }

    /// The pitch class of the first octave pair, scanning the held keys upwards.
    pub fn signal(&self) -> (r: Option<u8>)
        requires
            self.wf(),
        ensures
            r == signal_pitch(self@),
            r.is_some() ==> r.unwrap() < 12,
    {
        let mut i: usize = 0;
        while i < 256
            invariant
                i <= 256,
                self.wf(),
                forall|m: u8| m < i ==> !is_signal_key(self@, m),
            decreases 256 - i,
        {
            if self.bits[i] {
                let low: u8 = i as u8;
                let mut j: usize = i + 1;
                while j < 256
                    invariant
                        i < j <= 256,
                        low == i,
                        self.wf(),
                        self@.contains(low),
                        forall|m: u8| m < i ==> !is_signal_key(self@, m),
                        forall|h: u8|
                            i < h < j && #[trigger] self@.contains(h) ==> pitch_class_of(h)
                                != pitch_class_of(low),
                    decreases 256 - j,
                {
                    if self.bits[j] && pitch_class(j as u8) == pitch_class(low) {
                        proof {
                            let high = j as u8;
                            assert(self@.contains(high));
                            assert(is_signal_key(self@, low));
                            lemma_signal_pitch_some(self@, low);
                        }
                        return Some(pitch_class(low));
                    }
                    j += 1;
                }
                proof {
                    if is_signal_key(self@, low) {
                        let h = choose|h: u8|
                            h != low && #[trigger] self@.contains(h) && pitch_class_of(h)
                                == pitch_class_of(low);
                        if h < low {
                            assert(self@.contains(low));
                            assert(is_signal_key(self@, h));
                        }
                    }
                }
            }
            i += 1;
        }
        proof {
            lemma_signal_pitch_none(self@);
        }
        None
    }
}

} // verus!
