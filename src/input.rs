//! The set of keys currently held down, shared between the thread that receives
//! keyboard events and the one that renders.
use vstd::prelude::*;

verus! {

/// A logical key. The keys the camera and the window react to have a variant of
/// their own; any other key is carried by its scan code.
#[derive(Debug, Clone, Copy, PartialEq, Eq, Structural)]
pub enum Key {
    A,
    D,
    W,
    S,
    Space,
    LShift,
    Up,
    Down,
    Left,
    Right,
    Escape,
    Other(u32),
}

/// The keys held down, each once, in the order they were pressed.
pub struct HeldKeys {
    keys: Vec<Key>,
}

impl View for HeldKeys {
    type V = Seq<Key>;

    closed spec fn view(&self) -> Seq<Key> {
        self.keys@
    }
}

impl HeldKeys {
    /// No key is listed twice.
    pub open spec fn wf(&self) -> bool {
        self@.no_duplicates()
    }

    /// No key held.
    pub fn new() -> (r: Self)
        ensures
            r.wf(),
            r@ == Seq::<Key>::empty(),
    {
        HeldKeys { keys: Vec::new() }
    }

    /// The number of keys held.
    pub fn len(&self) -> (r: usize)
        ensures
            r == self@.len(),
    {
        self.keys.len()
    }

    /// Whether `key` is held.
    pub fn contains(&self, key: Key) -> (r: bool)
        ensures
            r == self@.contains(key),
    {
        self.position(key).is_some()
    }

    /// Where `key` stands among the held keys.
    fn position(&self, key: Key) -> (r: Option<usize>)
        ensures
            match r {
                Some(i) => i < self@.len() && self@[i as int] == key,
                None => !self@.contains(key),
            },
    {
        let mut i: usize = 0;
        while i < self.keys.len()
            invariant
                i <= self@.len(),
                forall|j: int| 0 <= j < i ==> self@[j] != key,
            decreases self@.len() - i,
        {
            if self.keys[i] == key {
                return Some(i);
            }
            i += 1;
        }
        None
    }

    /// Records that `key` went down. A key already held stays held once.
    pub fn press(&mut self, key: Key)
        requires
            old(self).wf(),
        ensures
            final(self).wf(),
            old(self)@.contains(key) ==> final(self)@ == old(self)@,
            !old(self)@.contains(key) ==> final(self)@ == old(self)@.push(key),
            final(self)@.to_set() == old(self)@.to_set().insert(key),
    {
        if self.position(key).is_none() {
            self.keys.push(key);
            assert(self@.to_set() =~= old(self)@.to_set().insert(key)) by {
                assert(self@.last() == key);
                assert forall|k: Key| old(self)@.contains(k) implies self@.contains(k) by {
                    let j = choose|j: int| 0 <= j < old(self)@.len() && old(self)@[j] == k;
                    assert(self@[j] == k);
                }
            }
        } else {
            assert(self@.to_set() =~= old(self)@.to_set().insert(key));
        }
    }

    /// Records that `key` came up. A key that is not held leaves the set as it is.
    pub fn release(&mut self, key: Key)
        requires
            old(self).wf(),
        ensures
            final(self).wf(),
            !old(self)@.contains(key) ==> final(self)@ == old(self)@,
            old(self)@.contains(key) ==> exists|i: int|
                0 <= i < old(self)@.len() && old(self)@[i] == key && final(self)@ == old(self)@.remove(i),
            final(self)@.to_set() == old(self)@.to_set().remove(key),
    {
        match self.position(key) {
            Some(i) => {
                self.keys.remove(i);
                let ghost o = old(self)@;
                assert(self@ == o.remove(i as int));
                assert forall|a: int, b: int| 0 <= a < b < self@.len() implies self@[a] != self@[b] by {
                    let a0 = if a < i { a } else { a + 1 };
                    let b0 = if b < i { b } else { b + 1 };
                    assert(o[a0] != o[b0]);
                }
                assert forall|k: Key| #[trigger] self@.contains(k) <==> o.contains(k) && k != key by {
                    if self@.contains(k) {
                        let j = choose|j: int| 0 <= j < self@.len() && self@[j] == k;
                        let j0 = if j < i { j } else { j + 1 };
                        assert(o[j0] == k);
                        assert(j0 != i);
                    }
                    if o.contains(k) && k != key {
                        let j = choose|j: int| 0 <= j < o.len() && o[j] == k;
                        assert(j != i);
                        if j < i {
                            assert(self@[j] == k);
                        } else {
                            assert(self@[j - 1] == k);
                        }
                    }
                }
                assert(self@.to_set() =~= o.to_set().remove(key));
            },
            None => {
                assert(self@.to_set() =~= old(self)@.to_set().remove(key));
            },
        }
    }

    /// A copy of the keys held now, in the order they were pressed.
    pub fn snapshot(&self) -> (r: Vec<Key>)
        ensures
            r@ == self@,
    {
        let mut out: Vec<Key> = Vec::new();
        let mut i: usize = 0;
        while i < self.keys.len()
            invariant
                i <= self@.len(),
                out@ == self@.subrange(0, i as int),
            decreases self@.len() - i,
        {
            out.push(self.keys[i]);
            i += 1;
            assert(out@ =~= self@.subrange(0, i as int));
        }
        assert(out@ =~= self@);
        out
    }
}

} // verus!
