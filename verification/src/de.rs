//! The tree consumer: replays one `Value` as visitor primitives, one
//! primitive per node, handing out drivers that supply the elements and
//! entries of composite nodes one at a time.

use vstd::prelude::*;

use crate::error::Error;
use crate::value::Tree;
use crate::value::Value;
use crate::value::arr_view;
use crate::value::obj_view;
use crate::value::tree_wf;
use crate::value::tree_height;
use crate::value::entries_sorted;
use crate::value::lemma_array_view;
use crate::value::lemma_object_view;
use crate::value::lemma_tree_wf_arr;
use crate::value::lemma_tree_wf_obj;
use crate::value::lemma_arr_height;
use crate::value::lemma_obj_height;

verus! {

broadcast use vstd::std_specs::vec::axiom_vec_index_decreases;

/// The consumer: holds at most one value, consumed by the next visit.
pub struct Deserializer {
    /// The slot, exposed so that the consumer's model is open.
    pub value: Option<Value>,
}

impl View for Deserializer {
    type V = Option<Tree>;

    open spec fn view(&self) -> Option<Tree> {
        match self.value {
            Some(v) => Some(v@),
            None => None,
        }
    }
}

/// A driver over the remaining elements of one array node.
pub struct SeqDeserializer {
    /// The elements still to hand out, kept last-first, exposed so that
    /// the driver's model is open.
    pub rest: Vec<Value>,
}

impl View for SeqDeserializer {
    type V = Seq<Tree>;

    open spec fn view(&self) -> Seq<Tree> {
        Seq::new(self.rest@.len(), |i: int| self.rest@[self.rest@.len() - 1 - i]@)
    }
}

/// A driver over the remaining entries of one object node, with the value
/// of the last pulled key stashed until it is asked for.
pub struct MapDeserializer {
    /// The entries still to hand out, kept last-first, exposed so that
    /// the driver's model is open.
    pub rest: Vec<(String, Value)>,
    /// The stashed value of the last pulled key.
    pub value: Option<Value>,
}

impl View for MapDeserializer {
    type V = (Seq<(Seq<char>, Tree)>, Option<Tree>);

    open spec fn view(&self) -> (Seq<(Seq<char>, Tree)>, Option<Tree>) {
        (
            Seq::new(
                self.rest@.len(),
                |i: int|
                    (
                        self.rest@[self.rest@.len() - 1 - i].0@,
                        self.rest@[self.rest@.len() - 1 - i].1@,
                    ),
            ),
            match self.value {
                Some(v) => Some(v@),
                None => None,
            },
        )
    }
}

/// The one visitor primitive an inspected node produces: scalars carry
/// their payload, composite nodes carry a driver.
pub enum Event {
    Unit,
    Bool(bool),
    I64(i64),
    F64(u64),
    Str(String),
    Sequence(SeqDeserializer),
    Mapping(MapDeserializer),
}

/// Whether an event is the one primitive matching a tree.
pub open spec fn event_for(t: Tree, e: Event) -> bool {
    match t {
        Tree::Null => e is Unit,
        Tree::Bool(b) => e matches Event::Bool(x) && x == b,
        Tree::I64(n) => e matches Event::I64(x) && x == n,
        Tree::F64(bits) => e matches Event::F64(x) && x == bits,
        Tree::Str(s) => e matches Event::Str(x) && x@ == s,
        Tree::Arr(elems) => e matches Event::Sequence(d) && d@ == elems,
        Tree::Obj(entries) => e matches Event::Mapping(m) && m@.0 == entries && m@.1 is None,
    }
}

/// Whether an option probe found a present value.
pub enum OptionEvent {
    Absent,
    Present,
}

impl SeqDeserializer {
    /// Wraps the elements of one array node.
    pub(crate) fn from_elems(elems: Vec<Value>) -> (d: SeqDeserializer)
        ensures
            d@ == arr_view(elems@),
    {
        let ghost orig = elems@;
        let mut src = elems;
        let mut rest: Vec<Value> = Vec::new();
        while src.len() > 0
            invariant
                src@.len() + rest@.len() == orig.len(),
                src@ == orig.take(src@.len() as int),
                forall|i: int| 0 <= i < rest@.len() ==> rest@[i] == orig[orig.len() - 1 - i],
            decreases src.len(),
        {
            match src.pop() {
                Some(v) => {
                    rest.push(v);
                },
                None => {},
            }
        }
        let d = SeqDeserializer { rest };
        proof {
            assert(d@ =~= arr_view(orig));
        }
        d
    }

    /// Hands out the next raw element, front to back.
    pub fn next_elem(&mut self) -> (r: Option<Value>)
        ensures
            old(self)@.len() == 0 ==> r is None && final(self)@ == old(self)@,
            old(self)@.len() > 0 ==> (r matches Some(v) && v@ == old(self)@[0] && final(self)@
                == old(self)@.drop_first()),
    {
        let r = self.rest.pop();
        proof {
            if old(self)@.len() > 0 {
                assert(final(self)@ =~= old(self)@.drop_first());
            } else {
                assert(final(self)@ =~= old(self)@);
            }
        }
        r
    }

    /// Pulls one element and feeds it to a sink; `None` when exhausted.
    pub fn visit<T: Sink>(&mut self) -> (r: Result<Option<T>, Error>)
        ensures
            old(self)@.len() == 0 ==> r == Ok::<Option<T>, Error>(None) && final(self)@
                == old(self)@,
            old(self)@.len() > 0 ==> final(self)@ == old(self)@.drop_first(),
            old(self)@.len() > 0 && T::accepts(old(self)@[0]) ==> (r matches Ok(o)
                && o matches Some(out) && T::parses(old(self)@[0], out)),
    {
        match self.next_elem() {
            None => Ok(None),
            Some(elem) => {
                let mut sub = Deserializer::new(elem);
                match T::accept(&mut sub) {
                    Ok(out) => Ok(Some(out)),
                    Err(e) => Err(e),
                }
            },
        }
    }

    /// Succeeds only if every element was pulled: stopping early is an
    /// arity mismatch, reported as end of stream.
    pub fn end(&mut self) -> (r: Result<(), Error>)
        ensures
            final(self)@ == old(self)@,
            r == if old(self)@.len() == 0 {
                Ok::<(), Error>(())
            } else {
                Err::<(), Error>(Error::EndOfStream)
            },
    {
        if self.rest.len() == 0 {
            Ok(())
        } else {
            Err(Error::EndOfStream)
        }
    }

    /// Exactly how many elements remain.
    pub fn size_hint(&self) -> (r: (usize, Option<usize>))
        ensures
            r.0 == self@.len(),
            r.1 == Some(r.0),
    {
        (self.rest.len(), Some(self.rest.len()))
    }
}

impl MapDeserializer {
    /// Wraps the entries of one object node.
    pub(crate) fn from_entries(entries: Vec<(String, Value)>) -> (d: MapDeserializer)
        ensures
            d@.0 == obj_view(entries@),
            d@.1 is None,
    {
        let ghost orig = entries@;
        let mut src = entries;
        let mut rest: Vec<(String, Value)> = Vec::new();
        while src.len() > 0
            invariant
                src@.len() + rest@.len() == orig.len(),
                src@ == orig.take(src@.len() as int),
                forall|i: int| 0 <= i < rest@.len() ==> rest@[i] == orig[orig.len() - 1 - i],
            decreases src.len(),
        {
            match src.pop() {
                Some(kv) => {
                    rest.push(kv);
                },
                None => {},
            }
        }
        let d = MapDeserializer { rest, value: None };
        proof {
            assert(d@.0 =~= obj_view(orig));
        }
        d
    }

    /// Hands out the next key, front to back, stashing its value.
    pub fn next_key(&mut self) -> (r: Option<String>)
        ensures
            old(self)@.0.len() == 0 ==> r is None && final(self)@ == old(self)@,
            old(self)@.0.len() > 0 ==> (r matches Some(k) && k@ == old(self)@.0[0].0 && final(self)@.0 == old(self)@.0.drop_first() && final(self)@.1 == Some(old(self)@.0[0].1)),
    {
        match self.rest.pop() {
            None => {
                proof {
                    assert(final(self)@.0 =~= old(self)@.0);
                }
                None
            },
            Some((k, v)) => {
                self.value = Some(v);
                proof {
                    assert(final(self)@.0 =~= old(self)@.0.drop_first());
                }
                Some(k)
            },
        }
    }

    /// Takes the stashed value; asking twice is a protocol defect.
    pub fn take_stash(&mut self) -> (r: Result<Value, Error>)
        ensures
            final(self)@.0 == old(self)@.0,
            final(self)@.1 is None,
            match old(self)@.1 {
                Some(t) => r matches Ok(v) && v@ == t,
                None => r == Err::<Value, Error>(Error::Defect),
            },
    {
        match self.value.take() {
            Some(v) => Ok(v),
            None => Err(Error::Defect),
        }
    }

    /// Pulls one key, feeds it through a fresh consumer as a string node,
    /// and stashes its value; `None` when exhausted.
    pub fn visit_key<T: Sink>(&mut self) -> (r: Result<Option<T>, Error>)
        ensures
            old(self)@.0.len() == 0 ==> r == Ok::<Option<T>, Error>(None) && final(self)@
                == old(self)@,
            old(self)@.0.len() > 0 ==> final(self)@.0 == old(self)@.0.drop_first() && final(self)@.1 == Some(old(self)@.0[0].1),
            old(self)@.0.len() > 0 && T::accepts(Tree::Str(old(self)@.0[0].0)) ==> (
            r matches Ok(o) && o matches Some(out) && T::parses(
                Tree::Str(old(self)@.0[0].0),
                out,
            )),
    {
        match self.next_key() {
            None => Ok(None),
            Some(k) => {
                let mut sub = Deserializer::new(Value::String(k));
                match T::accept(&mut sub) {
                    Ok(out) => Ok(Some(out)),
                    Err(e) => Err(e),
                }
            },
        }
    }

    /// Feeds the stashed value to a sink; a pull without a preceding key
    /// is a protocol defect.
    pub fn visit_value<T: Sink>(&mut self) -> (r: Result<T, Error>)
        ensures
            final(self)@.0 == old(self)@.0,
            final(self)@.1 is None,
            match old(self)@.1 {
                None => r == Err::<T, Error>(Error::Defect),
                Some(t) => T::accepts(t) ==> (r matches Ok(out) && T::parses(t, out)),
            },
    {
        let v = self.take_stash()?;
        let mut sub = Deserializer::new(v);
        T::accept(&mut sub)
    }

    /// Succeeds only if every entry was pulled: stopping early is an
    /// arity mismatch, reported as end of stream.
    pub fn end(&mut self) -> (r: Result<(), Error>)
        ensures
            final(self)@ == old(self)@,
            r == if old(self)@.0.len() == 0 {
                Ok::<(), Error>(())
            } else {
                Err::<(), Error>(Error::EndOfStream)
            },
    {
        if self.rest.len() == 0 {
            Ok(())
        } else {
            Err(Error::EndOfStream)
        }
    }

    /// Exactly how many entries remain.
    pub fn size_hint(&self) -> (r: (usize, Option<usize>))
        ensures
            r.0 == self@.0.len(),
            r.1 == Some(r.0),
    {
        (self.rest.len(), Some(self.rest.len()))
    }
}

impl Deserializer {
    /// A consumer holding the given value.
    pub fn new(value: Value) -> (d: Deserializer)
        ensures
            d@ == Some(value@),
    {
        Deserializer { value: Some(value) }
    }

    /// Consumes the held value and produces the one primitive matching
    /// its variant; visiting an empty consumer is an end-of-stream error.
    pub fn visit(&mut self) -> (r: Result<Event, Error>)
        ensures
            final(self)@ is None,
            match old(self)@ {
                None => r == Err::<Event, Error>(Error::EndOfStream),
                Some(t) => r matches Ok(e) && event_for(t, e),
            },
    {
        match self.value.take() {
            None => Err(Error::EndOfStream),
            Some(v) => match v {
                Value::Null => Ok(Event::Unit),
                Value::Bool(b) => Ok(Event::Bool(b)),
                Value::I64(n) => Ok(Event::I64(n)),
                Value::F64(bits) => Ok(Event::F64(bits)),
                Value::String(s) => Ok(Event::Str(s)),
                Value::Array(elems) => {
                    proof {
                        lemma_array_view(&elems);
                    }
                    Ok(Event::Sequence(SeqDeserializer::from_elems(elems)))
                },
                Value::Object(entries) => {
                    proof {
                        lemma_object_view(&entries);
                    }
                    Ok(Event::Mapping(MapDeserializer::from_entries(entries)))
                },
            },
        }
    }

    /// Probes for an option without consuming: a held null is an absent
    /// option, anything else is present and stays for the next visit.
    pub fn visit_option(&mut self) -> (r: Result<OptionEvent, Error>)
        ensures
            final(self)@ == old(self)@,
            old(self)@ is None ==> r == Err::<OptionEvent, Error>(Error::EndOfStream),
            old(self)@ == Some(Tree::Null) ==> r == Ok::<OptionEvent, Error>(OptionEvent::Absent),
            old(self)@ matches Some(t) && t != Tree::Null ==> r == Ok::<OptionEvent, Error>(
                OptionEvent::Present,
            ),
    {
        match &self.value {
            None => Err(Error::EndOfStream),
            Some(Value::Null) => Ok(OptionEvent::Absent),
            Some(_) => Ok(OptionEvent::Present),
        }
    }
}

/// A sink: a type that can be produced from visitor primitives.
pub trait Sink: Sized {
    /// Which trees this sink accepts.
    spec fn accepts(t: Tree) -> bool;

    /// What accepting a tree produces.
    spec fn parses(t: Tree, out: Self) -> bool;

    /// Produces one value by consuming the held value of the consumer.
    fn accept(de: &mut Deserializer) -> (r: Result<Self, Error>)
        ensures
            match old(de)@ {
                None => r == Err::<Self, Error>(Error::EndOfStream),
                Some(t) => Self::accepts(t) ==> (r matches Ok(out) && Self::parses(t, out)),
            },
    ;
}

/// The consumption measure: one more than the height of the held tree.
pub open spec fn slot_height(de: Deserializer) -> nat {
    match de@ {
        Some(t) => tree_height(t) + 1,
        None => 0,
    }
}

/// Reads one whole value back out of a consumer, recursing through the
/// drivers of composite nodes; a held well-formed tree is reproduced
/// exactly.
#[verifier::loop_isolation(false)]
fn read_value(de: Deserializer) -> (r: Result<Value, Error>)
    ensures
        match de@ {
            None => r == Err::<Value, Error>(Error::EndOfStream),
            Some(t) => tree_wf(t) ==> (r matches Ok(v) && v@ == t && v.wf()),
        },
    decreases slot_height(de),
{
    let ghost snapshot = de@;
    let mut d = de;
    match d.visit() {
        Err(e) => Err(e),
        Ok(Event::Unit) => Ok(Value::Null),
        Ok(Event::Bool(b)) => Ok(Value::Bool(b)),
        Ok(Event::I64(n)) => Ok(Value::I64(n)),
        Ok(Event::F64(bits)) => Ok(Value::F64(bits)),
        Ok(Event::Str(s)) => Ok(Value::String(s)),
        Ok(Event::Sequence(drv)) => {
            let ghost t = snapshot->Some_0;
            let ghost elems0 = t->Arr_0;
            proof {
                if tree_wf(t) {
                    lemma_tree_wf_arr(elems0);
                }
            }
            let mut drv = drv;
            let mut out: Vec<Value> = Vec::new();
            while drv.size_hint().0 > 0
                invariant
                    t == Tree::Arr(elems0),
                    out@.len() + drv@.len() == elems0.len(),
                    drv@ == elems0.skip(out@.len() as int),
                    tree_wf(t) ==> forall|i: int|
                        0 <= i < elems0.len() ==> tree_wf(#[trigger] elems0[i]),
                    tree_wf(t) ==> forall|i: int|
                        0 <= i < out@.len() ==> (#[trigger] out@[i])@ == elems0[i],
                decreases drv@.len(),
            {
                let ghost k = out@.len() as int;
                match drv.next_elem() {
                    None => {},
                    Some(elem) => {
                        proof {
                            assert(elem@ == elems0[k]);
                            lemma_arr_height(elems0, k);
                        }
                        match read_value(Deserializer::new(elem)) {
                            Ok(v) => {
                                out.push(v);
                                proof {
                                    assert(drv@ =~= elems0.skip(out@.len() as int));
                                }
                            },
                            Err(e) => {
                                return Err(e);
                            },
                        }
                    },
                }
            }
            proof {
                lemma_array_view(&out);
                if tree_wf(t) {
                    assert(arr_view(out@) =~= elems0);
                }
            }
            Ok(Value::Array(out))
        },
        Ok(Event::Mapping(drv)) => {
            let ghost t = snapshot->Some_0;
            let ghost entries0 = t->Obj_0;
            proof {
                if tree_wf(t) {
                    lemma_tree_wf_obj(entries0);
                }
            }
            let mut drv = drv;
            let mut out: Vec<(String, Value)> = Vec::new();
            while drv.size_hint().0 > 0
                invariant
                    t == Tree::Obj(entries0),
                    out@.len() + drv@.0.len() == entries0.len(),
                    drv@.0 == entries0.skip(out@.len() as int),
                    tree_wf(t) ==> entries_sorted(entries0) && forall|i: int|
                        0 <= i < entries0.len() ==> tree_wf(#[trigger] entries0[i].1),
                    tree_wf(t) ==> forall|i: int|
                        0 <= i < out@.len() ==> (#[trigger] out@[i].0)@ == entries0[i].0
                            && out@[i].1@ == entries0[i].1,
                decreases drv@.0.len(),
            {
                let ghost k = out@.len() as int;
                match drv.next_key() {
                    None => {},
                    Some(key) => {
                        match drv.take_stash() {
                            Err(e) => {
                                return Err(e);
                            },
                            Ok(stashed) => {
                                proof {
                                    assert(stashed@ == entries0[k].1);
                                    lemma_obj_height(entries0, k);
                                }
                                match read_value(Deserializer::new(stashed)) {
                                    Ok(v) => {
                                        out.push((key, v));
                                        proof {
                                            assert(drv@.0 =~= entries0.skip(out@.len() as int));
                                        }
                                    },
                                    Err(e) => {
                                        return Err(e);
                                    },
                                }
                            },
                        }
                    },
                }
            }
            proof {
                lemma_object_view(&out);
                if tree_wf(t) {
                    assert(obj_view(out@) =~= entries0);
                }
            }
            Ok(Value::Object(out))
        },
    }
}

/// The value tree is its own sink: consuming a well-formed tree
/// reproduces exactly the value it models.
impl Sink for Value {
    open spec fn accepts(t: Tree) -> bool {
        tree_wf(t)
    }

    open spec fn parses(t: Tree, out: Self) -> bool {
        out@ == t
    }

    fn accept(de: &mut Deserializer) -> (r: Result<Value, Error>) {
        match de.value.take() {
            None => Err(Error::EndOfStream),
            Some(v) => read_value(Deserializer::new(v)),
        }
    }
}

/// Decodes one value tree into a sink.
pub fn from_value<T: Sink>(value: Value) -> (r: Result<T, Error>)
    ensures
        T::accepts(value@) ==> (r matches Ok(out) && T::parses(value@, out)),
{
    let mut de = Deserializer::new(value);
    T::accept(&mut de)
}

/// Law: build then consume is the identity on well-formed values. What
/// `to_value` returns for a well-formed value models that value's tree,
/// and what `from_value` then returns models the same tree: the round
/// trip reproduces the value up to its model, which is exactly what the
/// library's structural equality compares.
pub proof fn lemma_round_trip(v: Value, built: Value, back: Value)
    requires
        v.wf(),
        built@ == v@,
        back@ == built@,
    ensures
        back@ == v@,
        back.wf(),
{
}

} // verus!
