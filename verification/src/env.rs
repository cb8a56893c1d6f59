use vstd::prelude::*;
use vstd::string::StringExecFns;

use crate::error::{Fault, StlcgError};
use crate::trace::{
    conforms, dims, dtype_is_float, duplicate, has_float_dtype, same_device, same_dtype, same_place,
    trace_dtype, trace_shape, trace_values, Trace,
};

verus! {

/// A named signal as the environment holds it: the name's characters and its trace.
pub type Entry = (Seq<char>, Trace);

/// The position of the entry named `name`, if there is one.
pub open spec fn position(entries: Seq<Entry>, name: Seq<char>) -> Option<int> {
    if exists|k: int| 0 <= k < entries.len() && entries[k].0 == name {
        Some(choose|k: int| 0 <= k < entries.len() && entries[k].0 == name)
    } else {
        None
    }
}

/// The entries after binding `name` to `trace`: an entry of that name gets the
/// new trace in its place, otherwise the binding comes last.
pub open spec fn inserted(entries: Seq<Entry>, name: Seq<char>, trace: Trace) -> Seq<Entry> {
    match position(entries, name) {
        Some(k) => entries.update(k, (name, trace)),
        None => entries.push((name, trace)),
    }
}

/// No two entries share a name.
pub open spec fn distinct_names(entries: Seq<Entry>) -> bool {
    forall|i: int, j: int|
        0 <= i < entries.len() && 0 <= j < entries.len() && i != j ==> entries[i].0 != entries[j].0
}

/// The first entry, from `entries` on, whose shape is not `expected`,
/// reported as a shape mismatch.
pub open spec fn first_mismatch(entries: Seq<Entry>, expected: Seq<usize>) -> Option<Fault>
    decreases entries.len(),
{
    if entries.len() == 0 {
        None
    } else if trace_shape(entries[0].1) != expected {
        Some(
            Fault::ShapeMismatch {
                name: entries[0].0,
                expected,
                actual: trace_shape(entries[0].1),
            },
        )
    } else {
        first_mismatch(entries.drop_first(), expected)
    }
}

/// Named signal tensors used while evaluating formulas.
#[derive(Debug)]
pub struct SignalEnv {
    signals: Vec<(String, Trace)>,
}

impl SignalEnv {
    /// The bindings, in the order in which their names were first bound.
    pub closed spec fn entries(&self) -> Seq<Entry> {
        self.signals@.map_values(|p: (String, Trace)| (p.0@, p.1))
    }

    #[verifier::type_invariant]
    closed spec fn names_are_distinct(&self) -> bool {
        distinct_names(self.entries())
    }

    /// An empty environment.
    pub fn new() -> (r: Self)
        ensures
            r.entries() == Seq::<Entry>::empty(),
            distinct_names(r.entries()),
    {
        let r = SignalEnv { signals: Vec::new() };
        assert(r.entries() =~= Seq::<Entry>::empty());
        r
    }

    /// The environment with `name` bound to `trace`.
    pub fn with(self, name: &str, trace: Trace) -> (r: Self)
        ensures
            r.entries() == inserted(self.entries(), name@, trace),
            distinct_names(self.entries()),
            distinct_names(r.entries()),
    {
        proof {
            use_type_invariant(&self);
        }
        let mut env = self;
        env.insert(name, trace);
        env
    }

    /// Binds `name` to `trace`, replacing an earlier binding of the name.
    pub fn insert(&mut self, name: &str, trace: Trace)
        ensures
            final(self).entries() == inserted(old(self).entries(), name@, trace),
            distinct_names(old(self).entries()),
            distinct_names(final(self).entries()),
    {
        proof {
            use_type_invariant(&*self);
        }
        let key = String::from_str(name);
        let mut signals: Vec<(String, Trace)> = Vec::new();
        std::mem::swap(&mut signals, &mut self.signals);
        let ghost before = signals@.map_values(|p: (String, Trace)| (p.0@, p.1));
        assert(before == old(self).entries());
        let mut k: usize = 0;
        while k < signals.len()
            invariant
                0 <= k <= signals@.len(),
                before == signals@.map_values(|p: (String, Trace)| (p.0@, p.1)),
                forall|j: int| 0 <= j < k ==> before[j].0 != name@,
                key@ == name@,
                distinct_names(before),
                before == old(self).entries(),
            decreases signals@.len() - k,
        {
            assert(before[k as int] == (signals@[k as int].0@, signals@[k as int].1));
            if signals[k].0 == key {
                let ghost prior = signals@;
                signals.set(k, (key, trace));
                assert(signals@ == prior.update(k as int, (key, trace)));
                let ghost after = signals@.map_values(|p: (String, Trace)| (p.0@, p.1));
                proof {
                    assert(after =~= before.update(k as int, (name@, trace)));
                    assert(position(before, name@) == Some(k as int)) by {
                        assert(distinct_names(before));
                    }
                    assert(distinct_names(after));
                }
                self.signals = signals;
                return;
            }
            k = k + 1;
        }
        signals.push((key, trace));
        proof {
            let after = signals@.map_values(|p: (String, Trace)| (p.0@, p.1));
            assert(after =~= before.push((name@, trace)));
            assert(position(before, name@) is None);
            assert(distinct_names(after));
        }
        self.signals = signals;
    }

    /// The trace bound to `name`.
    pub fn get(&self, name: &str) -> (r: Result<Trace, StlcgError>)
        ensures
            match position(self.entries(), name@) {
                Some(k) => r matches Ok(t) && conforms(t, self.entries()[k].1)
                    && trace_values(t) == trace_values(self.entries()[k].1),
                None => r matches Err(e) && e@ == Fault::MissingSignal(name@),
            },
            distinct_names(self.entries()),
    {
        proof {
            use_type_invariant(self);
        }
        let key = String::from_str(name);
        let mut k: usize = 0;
        while k < self.signals.len()
            invariant
                0 <= k <= self.entries().len(),
                self.entries().len() == self.signals@.len(),
                forall|j: int| 0 <= j < k ==> self.entries()[j].0 != name@,
                key@ == name@,
                distinct_names(self.entries()),
            decreases self.signals@.len() - k,
        {
            assert(self.entries()[k as int] == (self.signals@[k as int].0@, self.signals@[k as int].1));
            if self.signals[k].0 == key {
                assert(position(self.entries(), name@) == Some(k as int)) by {
                    assert(self.entries()[k as int].0 == name@);
                    assert(distinct_names(self.entries()));
                }
                return Ok(duplicate(&self.signals[k].1));
            }
            k = k + 1;
        }
        Err(StlcgError::MissingSignal(key))
    }

    /// The shape of the first binding, which every binding must share.
    pub open spec fn expected_shape(&self) -> Seq<usize> {
        trace_shape(self.entries()[0].1)
    }

    /// A trace to take the shape and place of constants from: a copy of the
    /// first binding.
    pub fn template(&self) -> (r: Result<Trace, StlcgError>)
        ensures
            self.entries().len() > 0 ==> (r matches Ok(t) && conforms(t, self.entries()[0].1)
                && trace_values(t) == trace_values(self.entries()[0].1)),
            self.entries().len() == 0 ==> (r matches Err(e) && e@ == Fault::EmptySignalEnv),
    {
        if self.signals.len() == 0 {
            Err(StlcgError::EmptySignalEnv)
        } else {
            Ok(duplicate(&self.signals[0].1))
        }
    }

    /// The fault that [`SignalEnv::validate_compatible_shapes`] reports, if any.
    pub open spec fn shape_fault(&self) -> Option<Fault> {
        let es = self.entries();
        if es.len() == 0 {
            Some(Fault::EmptySignalEnv)
        } else if self.expected_shape()[1] == 0 {
            Some(Fault::EmptyTimeDimension)
        } else {
            first_mismatch(es, self.expected_shape())
        }
    }

    /// Every binding is rank 3 with the shape of the first, whose time axis is
    /// not empty, and there is at least one binding.
    pub open spec fn shapes_agree(&self) -> bool {
        &&& self.entries().len() > 0
        &&& self.expected_shape().len() == 3
        &&& self.expected_shape()[1] > 0
        &&& forall|k: int|
            0 <= k < self.entries().len() ==> trace_shape(#[trigger] self.entries()[k].1)
                == self.expected_shape()
    }

    /// Check that the environment is not empty, that its time axis is not
    /// empty, and that all signals share one shape; the first signal sets it.
    pub fn validate_compatible_shapes(&self) -> (r: Result<(), StlcgError>)
        ensures
            r is Ok <==> self.shape_fault() is None,
            r matches Err(e) ==> Some(e@) == self.shape_fault(),
            r is Ok ==> self.shapes_agree(),
    {
        if self.signals.len() == 0 {
            return Err(StlcgError::EmptySignalEnv);
        }
        let expected = dims(&self.signals[0].1);
        if expected[1] == 0 {
            return Err(StlcgError::EmptyTimeDimension);
        }
        let ghost es = self.entries();
        let mut k: usize = 0;
        assert(es.skip(0) =~= es);
        while k < self.signals.len()
            invariant
                0 <= k <= es.len(),
                es == self.entries(),
                es.len() == self.signals@.len(),
                expected@ == self.expected_shape(),
                expected[1] != 0,
                es.len() > 0,
                first_mismatch(es, expected@) == first_mismatch(es.skip(k as int), expected@),
                forall|j: int| 0 <= j < k ==> trace_shape(#[trigger] es[j].1) == expected@,
            decreases es.len() - k,
        {
            let actual = dims(&self.signals[k].1);
            assert(es[k as int] == (self.signals@[k as int].0@, self.signals@[k as int].1));
            assert(es.skip(k as int).drop_first() =~= es.skip(k + 1));
            if actual[0] != expected[0] || actual[1] != expected[1] || actual[2] != expected[2] {
                assert(actual@ != expected@);
                let name = self.signals[k].0.clone();
                assert(es.skip(k as int)[0] == es[k as int]);
                assert(first_mismatch(es.skip(k as int), expected@) == Some(
                    Fault::ShapeMismatch { name: name@, expected: expected@, actual: actual@ },
                ));
                return Err(StlcgError::ShapeMismatch { name, expected, actual });
            }
            assert(actual@ =~= expected@);
            k = k + 1;
        }
        assert(es.skip(k as int).len() == 0);
        Ok(())
    }

    /// All bindings live on one device, in one plain float element type.
    pub open spec fn storage_agrees(&self) -> bool {
        self.entries().len() > 0 ==> {
            &&& dtype_is_float(trace_dtype(self.entries()[0].1))
            &&& forall|k: int|
                0 <= k < self.entries().len() ==> same_place(
                    #[trigger] self.entries()[k].1,
                    self.entries()[0].1,
                )
        }
    }

    /// Whether all bindings live on one device, in one plain float element
    /// type; the tensor backend panics when one evaluation mixes devices.
    pub fn shares_storage(&self) -> (r: bool)
        ensures
            r == self.storage_agrees(),
    {
        if self.signals.len() == 0 {
            return true;
        }
        assert(self.entries()[0] == (self.signals@[0].0@, self.signals@[0].1));
        if !has_float_dtype(&self.signals[0].1) {
            return false;
        }
        let mut k: usize = 0;
        while k < self.signals.len()
            invariant
                0 <= k <= self.entries().len(),
                self.entries().len() == self.signals@.len(),
                self.entries().len() > 0,
                forall|j: int|
                    0 <= j < k ==> same_place(#[trigger] self.entries()[j].1, self.entries()[0].1),
            decreases self.signals@.len() - k,
        {
            assert(self.entries()[k as int] == (self.signals@[k as int].0@, self.signals@[k as int].1));
            assert(self.entries()[0] == (self.signals@[0].0@, self.signals@[0].1));
            if !same_device(&self.signals[k].1, &self.signals[0].1)
                || !same_dtype(&self.signals[k].1, &self.signals[0].1) {
                assert(!same_place(self.entries()[k as int].1, self.entries()[0].1));
                return false;
            }
            k = k + 1;
        }
        true
    }
}

impl Default for SignalEnv {
    fn default() -> (r: Self)
        ensures
            r.entries() == Seq::<Entry>::empty(),
    {
        Self::new()
    }
}

} // verus!
