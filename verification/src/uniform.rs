//! Remembering the values last written to shader uniforms.
//!
//! A uniform is known by the number of its shader program and its name. The
//! tracker tells whether a value differs from the one written last, so that
//! a caller writes to the GPU only what has changed.
use crate::equality::differs;
use crate::equality::equality_is_specified;
use crate::equality::same_value;
use vstd::prelude::*;

verus! {

/// The values last written, by shader program and uniform name.
pub struct UniformValueTracker<T> {
    shaders: Vec<usize>,
    names: Vec<String>,
    values: Vec<T>,
}

impl<T> UniformValueTracker<T> {
    /// The uniform that the entry at `entry` is about.
    closed spec fn key(&self, entry: int) -> (usize, Seq<char>) {
        (self.shaders@[entry], self.names@[entry]@)
    }

    /// The tracker has an entry at `entry` for the uniform `uniform`.
    closed spec fn holds(&self, entry: int, uniform: (usize, Seq<char>)) -> bool {
        0 <= entry < self.values@.len() && self.key(entry) == uniform
    }

    /// Every uniform has at most one entry.
    pub closed spec fn wf(&self) -> bool {
        &&& self.shaders@.len() == self.values@.len()
        &&& self.names@.len() == self.values@.len()
        &&& forall|first: int, second: int|
            0 <= first < second < self.values@.len() ==> self.key(first) != self.key(second)
    }
}

impl<T> View for UniformValueTracker<T> {
    type V = Map<(usize, Seq<char>), T>;

    /// The value last written to each uniform that was ever written to.
    closed spec fn view(&self) -> Map<(usize, Seq<char>), T> {
        Map::new(
            |uniform: (usize, Seq<char>)| exists|entry: int| self.holds(entry, uniform),
            |uniform: (usize, Seq<char>)|
                self.values@[choose|entry: int| self.holds(entry, uniform)],
        )
    }
}

impl<T: PartialEq> UniformValueTracker<T> {
    /// A tracker that has seen no value.
    pub fn new() -> (tracker: UniformValueTracker<T>)
        ensures
            tracker.wf(),
            tracker@ == Map::<(usize, Seq<char>), T>::empty(),
    {
        let tracker =
            UniformValueTracker { shaders: Vec::new(), names: Vec::new(), values: Vec::new() };
        assert(tracker@ =~= Map::<(usize, Seq<char>), T>::empty());
        tracker
    }

    /// Notes that `value` is about to be written to the uniform `name` of the
    /// shader program `shader`, and tells whether the write is needed: it is
    /// when the uniform was never written to or holds another value.
    pub fn update(&mut self, shader: usize, name: &String, value: T) -> (changed: bool)
        requires
            old(self).wf(),
        ensures
            final(self).wf(),
            changed ==> final(self)@ == old(self)@.insert((shader, name@), value),
            !changed ==> final(self)@ == old(self)@,
            !old(self)@.contains_key((shader, name@)) ==> changed,
            equality_is_specified::<T>() && old(self)@.contains_key((shader, name@)) ==> changed
                == !same_value(old(self)@[(shader, name@)], value),
    {
        let ghost uniform = (shader, name@);
        let mut entry: usize = 0;
        while entry < self.values.len()
            invariant
                entry <= self.values@.len(),
                *self == *old(self),
                self.wf(),
                uniform == (shader, name@),
                forall|earlier: int| 0 <= earlier < entry ==> !self.holds(earlier, uniform),
            decreases self.values@.len() - entry,
        {
            if self.shaders[entry] == shader && self.names[entry] == *name {
                let ghost found = entry as int;
                assert(self.holds(found, uniform));
                assert forall|other: int| self.holds(other, uniform) implies other == found by {
                    if other < found {
                        assert(self.key(other) != self.key(found));
                    } else if found < other {
                        assert(self.key(found) != self.key(other));
                    }
                }
                assert(old(self)@.contains_key(uniform));
                assert(old(self)@[uniform] == self.values@[found]);
                if differs(&self.values[entry], &value) {
                    self.values[entry] = value;
                    assert forall|first: int, second: int|
                        0 <= first < second < self.values@.len() implies self.key(first)
                        != self.key(second) by {
                        assert(old(self).key(first) != old(self).key(second));
                    }
                    assert(self@ =~= old(self)@.insert(uniform, value)) by {
                        assert forall|other: (usize, Seq<char>)|
                            self@.contains_key(other) <==> old(self)@.insert(
                                uniform,
                                value,
                            ).contains_key(other) by {
                            if self@.contains_key(other) {
                                let at = choose|at: int| self.holds(at, other);
                                assert(old(self).holds(at, other));
                            }
                            if old(self)@.contains_key(other) {
                                let at = choose|at: int| old(self).holds(at, other);
                                assert(self.holds(at, other));
                            }
                            if other == uniform {
                                assert(self.holds(found, other));
                            }
                        }
                        assert forall|other: (usize, Seq<char>)|
                            self@.contains_key(other) implies self@[other] == old(self)@.insert(
                            uniform,
                            value,
                        )[other] by {
                            let at = choose|at: int| self.holds(at, other);
                            assert(old(self).holds(at, other));
                            if other == uniform {
                                assert(at == found);
                            } else {
                                let before = choose|at: int| old(self).holds(at, other);
                                assert(old(self).holds(before, other));
                                if before < at {
                                    assert(old(self).key(before) != old(self).key(at));
                                } else if at < before {
                                    assert(old(self).key(at) != old(self).key(before));
                                }
                            }
                        }
                    }
                    return true;
                }
                return false;
            }
            entry = entry + 1;
        }
        assert(!old(self)@.contains_key(uniform)) by {
            if old(self)@.contains_key(uniform) {
                let at = choose|at: int| old(self).holds(at, uniform);
                assert(old(self).holds(at, uniform));
            }
        }
        self.shaders.push(shader);
        self.names.push(name.clone());
        self.values.push(value);
        let ghost added = old(self).values@.len() as int;
        assert(self.holds(added, uniform));
        assert forall|first: int, second: int|
            0 <= first < second < self.values@.len() implies self.key(first) != self.key(
            second,
        ) by {
            if second < added {
                assert(old(self).key(first) != old(self).key(second));
            } else {
                assert(!old(self).holds(first, uniform));
            }
        }
        assert(self@ =~= old(self)@.insert(uniform, value)) by {
            assert forall|other: (usize, Seq<char>)|
                self@.contains_key(other) <==> old(self)@.insert(uniform, value).contains_key(
                    other,
                ) by {
                if self@.contains_key(other) {
                    let at = choose|at: int| self.holds(at, other);
                    if at < added {
                        assert(old(self).holds(at, other));
                    }
                }
                if old(self)@.contains_key(other) {
                    let at = choose|at: int| old(self).holds(at, other);
                    assert(self.holds(at, other));
                }
                if other == uniform {
                    assert(self.holds(added, other));
                }
            }
            assert forall|other: (usize, Seq<char>)| self@.contains_key(other) implies self@[other]
                == old(self)@.insert(uniform, value)[other] by {
                let at = choose|at: int| self.holds(at, other);
                if other == uniform {
                    if at < added {
                        assert(old(self).holds(at, uniform));
                    }
                } else {
                    assert(old(self).holds(at, other));
                    let before = choose|at: int| old(self).holds(at, other);
                    assert(old(self).holds(before, other));
                    if before < at {
                        assert(old(self).key(before) != old(self).key(at));
                    } else if at < before {
                        assert(old(self).key(at) != old(self).key(before));
                    }
                }
            }
        }
        true
    }
}

} // verus!
