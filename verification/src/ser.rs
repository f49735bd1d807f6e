//! The tree builder: folds a stream of visitor primitives into one `Value`
//! over an explicit stack of pending frames, so the number of open
//! containers never depends on the host call stack.

use vstd::prelude::*;

use crate::error::Error;
use crate::value::Tree;
use crate::value::Value;
use crate::value::arr_view;
use crate::value::obj_view;
use crate::value::obj_insert;
use crate::value::entries_sorted;
use crate::value::tree_wf;
use crate::value::insert_entry;
use crate::value::lemma_array_view;
use crate::value::lemma_object_view;
use crate::value::lemma_obj_insert_sorted;
use crate::value::lemma_obj_insert_append;
use crate::value::str_lt;
use crate::value::lemma_tree_wf_arr;
use crate::value::lemma_tree_wf_obj;
use crate::value::lemma_tree_wf_arr_intro;
use crate::value::lemma_tree_wf_obj_intro;

verus! {

broadcast use vstd::std_specs::vec::axiom_vec_index_decreases,
    vstd::string::to_string_from_display_ensures_for_str;

/// One pending frame: a finished value, an array being filled, or an
/// object being filled.
pub enum State {
    Value(Value),
    Array(Vec<Value>),
    Object(Vec<(String, Value)>),
}

/// Ghost model of one frame.
pub enum Frame {
    Done(Tree),
    Arr(Seq<Tree>),
    Obj(Seq<(Seq<char>, Tree)>),
}

impl View for State {
    type V = Frame;

    open spec fn view(&self) -> Frame {
        match self {
            State::Value(v) => Frame::Done(v@),
            State::Array(elems) => Frame::Arr(arr_view(elems@)),
            State::Object(entries) => Frame::Obj(obj_view(entries@)),
        }
    }
}

/// A well-formed frame holds only well-formed trees, and an object frame
/// keeps its entries sorted.
pub open spec fn frame_wf(f: Frame) -> bool {
    match f {
        Frame::Done(t) => tree_wf(t),
        Frame::Arr(elems) => forall|i: int| 0 <= i < elems.len() ==> tree_wf(#[trigger] elems[i]),
        Frame::Obj(entries) => entries_sorted(entries) && forall|i: int|
            0 <= i < entries.len() ==> tree_wf(#[trigger] entries[i].1),
    }
}

/// The builder: a stack of pending frames, one per open nesting level.
pub struct Serializer {
    /// The frame stack, exposed so that the builder's model is open.
    pub state: Vec<State>,
}

impl View for Serializer {
    type V = Seq<Frame>;

    open spec fn view(&self) -> Seq<Frame> {
        Seq::new(self.state@.len(), |i: int| self.state@[i]@)
    }
}

/// What closing one array element does to a frame stack: the completed
/// value on top is appended to the array below it.
pub open spec fn seq_elt_step(s: Seq<Frame>) -> Option<Seq<Frame>> {
    if s.len() >= 2 && s[s.len() - 2] is Arr && s.last() is Done {
        Some(
            s.take(s.len() - 2).push(Frame::Arr(s[s.len() - 2]->Arr_0.push(s.last()->Done_0))),
        )
    } else {
        None
    }
}

/// What closing one mapping entry does to a frame stack: the completed key
/// and value on top are inserted into the object below them. A key that is
/// not a string is a type mismatch; any other shape is a protocol defect.
pub open spec fn map_elt_step(s: Seq<Frame>) -> Result<Seq<Frame>, Error> {
    if s.len() >= 3 && s[s.len() - 3] is Obj && s[s.len() - 2] is Done && s.last() is Done {
        if s[s.len() - 2]->Done_0 is Str {
            Ok(
                s.take(s.len() - 3).push(
                    Frame::Obj(
                        obj_insert(
                            s[s.len() - 3]->Obj_0,
                            s[s.len() - 2]->Done_0->Str_0,
                            s.last()->Done_0,
                        ),
                    ),
                ),
            )
        } else {
            Err(Error::TypeMismatch)
        }
    } else {
        Err(Error::Defect)
    }
}

/// What ending a sequence does to a frame stack.
pub open spec fn end_seq_step(s: Seq<Frame>) -> Option<Seq<Frame>> {
    if s.len() >= 1 && s.last() is Arr {
        Some(s.take(s.len() - 1).push(Frame::Done(Tree::Arr(s.last()->Arr_0))))
    } else {
        None
    }
}

/// What ending a mapping does to a frame stack.
pub open spec fn end_map_step(s: Seq<Frame>) -> Option<Seq<Frame>> {
    if s.len() >= 1 && s.last() is Obj {
        Some(s.take(s.len() - 1).push(Frame::Done(Tree::Obj(s.last()->Obj_0))))
    } else {
        None
    }
}

/// Relies on char::to_string: a single-character string.
#[verifier::external_body]
fn char_to_string(c: char) -> (s: String)
    ensures
        s@ == seq![c],
{
    c.to_string()
}

impl Serializer {
    /// Every frame on the stack is well formed.
    pub open spec fn wf(&self) -> bool {
        forall|i: int| 0 <= i < self@.len() ==> frame_wf(#[trigger] self@[i])
    }

    /// A fresh builder with an empty frame stack.
    pub fn new() -> (s: Serializer)
        ensures
            s@ == Seq::<Frame>::empty(),
            s.wf(),
    {
        let s = Serializer { state: Vec::with_capacity(4) };
        proof {
            assert(s@ =~= Seq::<Frame>::empty());
        }
        s
    }

    /// Emits one whole source onto the stack.
    pub fn visit<T: Source>(&mut self, value: &T) -> (r: Result<(), Error>)
        requires
            old(self).wf(),
        ensures
            final(self).wf(),
            value.emits_ok() ==> r == Ok::<(), Error>(()) && final(self)@ == old(self)@.push(
                Frame::Done(value.tree()),
            ),
    {
        value.emit(self)
    }

    /// Takes the one completed value off the stack; any other stack shape
    /// is a protocol defect.
    pub fn unwrap(self) -> (r: Result<Value, Error>)
        requires
            self.wf(),
        ensures
            self@.len() == 1 && self@[0] is Done ==> (r matches Ok(v) && v@ == self@[0]->Done_0
                && v.wf()),
            !(self@.len() == 1 && self@[0] is Done) ==> r == Err::<Value, Error>(Error::Defect),
    {
        let mut state = self.state;
        if state.len() != 1 {
            return Err(Error::Defect);
        }
        match state.pop() {
            Some(State::Value(v)) => Ok(v),
            _ => Err(Error::Defect),
        }
    }

    fn push_done(&mut self, v: Value)
        requires
            old(self).wf(),
            tree_wf(v@),
        ensures
            final(self).wf(),
            final(self)@ == old(self)@.push(Frame::Done(v@)),
    {
        let ghost before = self@;
        self.state.push(State::Value(v));
        proof {
            assert(self@ =~= before.push(Frame::Done(v@)));
        }
    }

    /// Accepts a unit: pushes a completed null.
    pub fn visit_unit(&mut self) -> (r: Result<(), Error>)
        requires
            old(self).wf(),
        ensures
            final(self).wf(),
            r == Ok::<(), Error>(()),
            final(self)@ == old(self)@.push(Frame::Done(Tree::Null)),
    {
        self.push_done(Value::Null);
        Ok(())
    }

    /// Accepts a boolean.
    pub fn visit_bool(&mut self, value: bool) -> (r: Result<(), Error>)
        requires
            old(self).wf(),
        ensures
            final(self).wf(),
            r == Ok::<(), Error>(()),
            final(self)@ == old(self)@.push(Frame::Done(Tree::Bool(value))),
    {
        self.push_done(Value::Bool(value));
        Ok(())
    }

    /// Accepts a signed integer.
    pub fn visit_i64(&mut self, value: i64) -> (r: Result<(), Error>)
        requires
            old(self).wf(),
        ensures
            final(self).wf(),
            r == Ok::<(), Error>(()),
            final(self)@ == old(self)@.push(Frame::Done(Tree::I64(value))),
    {
        self.push_done(Value::I64(value));
        Ok(())
    }

    /// Accepts an unsigned integer, narrowed to signed by a truncating
    /// cast: a documented lossy policy for values above the signed range.
    pub fn visit_u64(&mut self, value: u64) -> (r: Result<(), Error>)
        requires
            old(self).wf(),
        ensures
            final(self).wf(),
            r == Ok::<(), Error>(()),
            final(self)@ == old(self)@.push(Frame::Done(Tree::I64(value as i64))),
    {
        self.push_done(Value::I64(value as i64));
        Ok(())
    }

    /// Accepts a floating-point number, carried as its IEEE-754 bits.
    pub fn visit_f64(&mut self, bits: u64) -> (r: Result<(), Error>)
        requires
            old(self).wf(),
        ensures
            final(self).wf(),
            r == Ok::<(), Error>(()),
            final(self)@ == old(self)@.push(Frame::Done(Tree::F64(bits))),
    {
        self.push_done(Value::F64(bits));
        Ok(())
    }

    /// Accepts a character, rendered as a one-character string.
    pub fn visit_char(&mut self, value: char) -> (r: Result<(), Error>)
        requires
            old(self).wf(),
        ensures
            final(self).wf(),
            r == Ok::<(), Error>(()),
            final(self)@ == old(self)@.push(Frame::Done(Tree::Str(seq![value]))),
    {
        self.push_done(Value::String(char_to_string(value)));
        Ok(())
    }

    /// Accepts a string.
    pub fn visit_str(&mut self, value: &str) -> (r: Result<(), Error>)
        requires
            old(self).wf(),
        ensures
            final(self).wf(),
            r == Ok::<(), Error>(()),
            final(self)@ == old(self)@.push(Frame::Done(Tree::Str(value@))),
    {
        self.push_done(Value::String(value.to_string()));
        Ok(())
    }

    /// Accepts an absent option, equivalent to a unit.
    pub fn visit_none(&mut self) -> (r: Result<(), Error>)
        requires
            old(self).wf(),
        ensures
            final(self).wf(),
            r == Ok::<(), Error>(()),
            final(self)@ == old(self)@.push(Frame::Done(Tree::Null)),
    {
        self.visit_unit()
    }

    /// Accepts a present option by forwarding to the inner value.
    pub fn visit_some<T: Source>(&mut self, value: &T) -> (r: Result<(), Error>)
        requires
            old(self).wf(),
        ensures
            final(self).wf(),
            value.emits_ok() ==> r == Ok::<(), Error>(()) && final(self)@ == old(self)@.push(
                Frame::Done(value.tree()),
            ),
    {
        value.emit(self)
    }

    /// Opens a sequence; the hint, when given, only pre-sizes the array.
    pub fn visit_seq(&mut self, len_hint: Option<usize>) -> (r: Result<(), Error>)
        requires
            old(self).wf(),
        ensures
            final(self).wf(),
            r == Ok::<(), Error>(()),
            final(self)@ == old(self)@.push(Frame::Arr(Seq::<Tree>::empty())),
    {
        let ghost before = self@;
        let values: Vec<Value> = match len_hint {
            Some(n) => Vec::with_capacity(n),
            None => Vec::new(),
        };
        self.state.push(State::Array(values));
        proof {
            assert(arr_view(Seq::<Value>::empty()) =~= Seq::<Tree>::empty());
            assert(self@ =~= before.push(Frame::Arr(Seq::<Tree>::empty())));
        }
        Ok(())
    }

    /// Emits one sequence element and folds it into the open array.
    pub fn visit_seq_elt<T: Source>(&mut self, _first: bool, value: &T) -> (r: Result<(), Error>)
        requires
            old(self).wf(),
        ensures
            final(self).wf(),
            value.emits_ok() && old(self)@.len() >= 1 && old(self)@.last() is Arr ==> r
                == Ok::<(), Error>(()) && final(self)@ == old(self)@.update(
                old(self)@.len() - 1,
                Frame::Arr(old(self)@.last()->Arr_0.push(value.tree())),
            ),
    {
        let ghost before = self@;
        value.emit(self)?;
        let r = self.seq_elt_done();
        proof {
            if value.emits_ok() && before.len() >= 1 && before.last() is Arr {
                assert(before.push(Frame::Done(value.tree())).take(before.len() as int - 1)
                    =~= before.take(before.len() as int - 1));
                assert(self@ =~= before.update(
                    before.len() - 1,
                    Frame::Arr(before.last()->Arr_0.push(value.tree())),
                ));
            }
        }
        r
    }

    /// Folds the completed value on top of the stack into the array below.
    pub fn seq_elt_done(&mut self) -> (r: Result<(), Error>)
        requires
            old(self).wf(),
        ensures
            final(self).wf(),
            match seq_elt_step(old(self)@) {
                Some(s) => r == Ok::<(), Error>(()) && final(self)@ == s,
                None => r == Err::<(), Error>(Error::Defect) && final(self)@ == old(self)@,
            },
    {
        let ghost before = self@;
        let n = self.state.len();
        if n < 2 {
            return Err(Error::Defect);
        }
        if !(matches!(&self.state[n - 1], State::Value(_)) && matches!(
            &self.state[n - 2],
            State::Array(_),
        )) {
            return Err(Error::Defect);
        }
        let top = self.state.pop();
        let v = match top {
            Some(State::Value(v)) => v,
            _ => {
                return Err(Error::Defect);
            },
        };
        let arrf = self.state.pop();
        let mut elems = match arrf {
            Some(State::Array(elems)) => elems,
            _ => {
                return Err(Error::Defect);
            },
        };
        let ghost elems_before = elems@;
        elems.push(v);
        self.state.push(State::Array(elems));
        proof {
            assert(arr_view(elems_before.push(v)) =~= arr_view(elems_before).push(v@));
            assert(self@ =~= before.take(before.len() - 2).push(
                Frame::Arr(before[before.len() - 2]->Arr_0.push(before.last()->Done_0)),
            ));
        }
        Ok(())
    }

    /// Ends the open sequence: the array becomes a completed value.
    pub fn end_seq(&mut self) -> (r: Result<(), Error>)
        requires
            old(self).wf(),
        ensures
            final(self).wf(),
            match end_seq_step(old(self)@) {
                Some(s) => r == Ok::<(), Error>(()) && final(self)@ == s,
                None => r == Err::<(), Error>(Error::Defect) && final(self)@ == old(self)@,
            },
    {
        let ghost before = self@;
        let n = self.state.len();
        if n < 1 {
            return Err(Error::Defect);
        }
        if !matches!(&self.state[n - 1], State::Array(_)) {
            return Err(Error::Defect);
        }
        let top = self.state.pop();
        let elems = match top {
            Some(State::Array(elems)) => elems,
            _ => {
                return Err(Error::Defect);
            },
        };
        proof {
            lemma_array_view(&elems);
        }
        self.state.push(State::Value(Value::Array(elems)));
        proof {
            assert(self@ =~= before.take(before.len() - 1).push(
                Frame::Done(Tree::Arr(before.last()->Arr_0)),
            ));
            assert(frame_wf(before[before.len() - 1]));
            lemma_tree_wf_arr_intro(before.last()->Arr_0);
        }
        Ok(())
    }

    /// Opens a mapping; the hint is advisory only.
    pub fn visit_map(&mut self, len_hint: Option<usize>) -> (r: Result<(), Error>)
        requires
            old(self).wf(),
        ensures
            final(self).wf(),
            r == Ok::<(), Error>(()),
            final(self)@ == old(self)@.push(Frame::Obj(Seq::<(Seq<char>, Tree)>::empty())),
    {
        let ghost before = self@;
        let values: Vec<(String, Value)> = match len_hint {
            Some(n) => Vec::with_capacity(n),
            None => Vec::new(),
        };
        self.state.push(State::Object(values));
        proof {
            assert(obj_view(Seq::<(String, Value)>::empty()) =~= Seq::<(Seq<char>, Tree)>::empty());
            assert(self@ =~= before.push(Frame::Obj(Seq::<(Seq<char>, Tree)>::empty())));
        }
        Ok(())
    }

    /// Emits one key and one value and folds them into the open object;
    /// a key that is not a string is a type mismatch.
    pub fn visit_map_elt<K: Source, V: Source>(
        &mut self,
        _first: bool,
        key: &K,
        value: &V,
    ) -> (r: Result<(), Error>)
        requires
            old(self).wf(),
        ensures
            final(self).wf(),
            key.emits_ok() && value.emits_ok() && old(self)@.len() >= 1 && old(
                self,
            )@.last() is Obj ==> {
                &&& key.tree() is Str ==> r == Ok::<(), Error>(()) && final(self)@ == old(
                    self,
                )@.update(
                    old(self)@.len() - 1,
                    Frame::Obj(
                        obj_insert(old(self)@.last()->Obj_0, key.tree()->Str_0, value.tree()),
                    ),
                )
                &&& !(key.tree() is Str) ==> r == Err::<(), Error>(Error::TypeMismatch)
            },
    {
        let ghost before = self@;
        key.emit(self)?;
        value.emit(self)?;
        let r = self.map_elt_done();
        proof {
            if key.emits_ok() && value.emits_ok() && before.len() >= 1 && before.last() is Obj {
                let mid = before.push(Frame::Done(key.tree())).push(Frame::Done(value.tree()));
                assert(mid.take(mid.len() - 3) =~= before.take(before.len() - 1));
                if key.tree() is Str {
                    assert(self@ =~= before.update(
                        before.len() - 1,
                        Frame::Obj(
                            obj_insert(before.last()->Obj_0, key.tree()->Str_0, value.tree()),
                        ),
                    ));
                }
            }
        }
        r
    }

    /// Folds the completed key and value on top of the stack into the
    /// object below them.
    pub fn map_elt_done(&mut self) -> (r: Result<(), Error>)
        requires
            old(self).wf(),
        ensures
            final(self).wf(),
            match map_elt_step(old(self)@) {
                Ok(s) => r == Ok::<(), Error>(()) && final(self)@ == s,
                Err(e) => r == Err::<(), Error>(e) && final(self)@ == old(self)@,
            },
    {
        let ghost before = self@;
        let n = self.state.len();
        if n < 3 {
            return Err(Error::Defect);
        }
        if !(matches!(&self.state[n - 1], State::Value(_)) && matches!(
            &self.state[n - 2],
            State::Value(_),
        ) && matches!(&self.state[n - 3], State::Object(_))) {
            return Err(Error::Defect);
        }
        if !matches!(&self.state[n - 2], State::Value(Value::String(_))) {
            return Err(Error::TypeMismatch);
        }
        let top = self.state.pop();
        let v = match top {
            Some(State::Value(v)) => v,
            _ => {
                return Err(Error::Defect);
            },
        };
        let keyf = self.state.pop();
        let k = match keyf {
            Some(State::Value(Value::String(k))) => k,
            _ => {
                return Err(Error::Defect);
            },
        };
        let objf = self.state.pop();
        let entries = match objf {
            Some(State::Object(entries)) => entries,
            _ => {
                return Err(Error::Defect);
            },
        };
        let ghost entries_before = entries@;
        proof {
            lemma_obj_insert_sorted(obj_view(entries_before), k@, v@);
        }
        let entries = insert_entry(entries, k, v);
        self.state.push(State::Object(entries));
        proof {
            assert(self@ =~= before.take(before.len() - 3).push(
                Frame::Obj(
                    obj_insert(
                        before[before.len() - 3]->Obj_0,
                        before[before.len() - 2]->Done_0->Str_0,
                        before.last()->Done_0,
                    ),
                ),
            ));
            assert forall|i: int| 0 <= i < self@.len() implies frame_wf(#[trigger] self@[i]) by {
                if i < self@.len() - 1 {
                    assert(self@[i] == before[i]);
                }
            }
        }
        Ok(())
    }

    /// Ends the open mapping: the object becomes a completed value.
    pub fn end_map(&mut self) -> (r: Result<(), Error>)
        requires
            old(self).wf(),
        ensures
            final(self).wf(),
            match end_map_step(old(self)@) {
                Some(s) => r == Ok::<(), Error>(()) && final(self)@ == s,
                None => r == Err::<(), Error>(Error::Defect) && final(self)@ == old(self)@,
            },
    {
        let ghost before = self@;
        let n = self.state.len();
        if n < 1 {
            return Err(Error::Defect);
        }
        if !matches!(&self.state[n - 1], State::Object(_)) {
            return Err(Error::Defect);
        }
        let top = self.state.pop();
        let entries = match top {
            Some(State::Object(entries)) => entries,
            _ => {
                return Err(Error::Defect);
            },
        };
        proof {
            lemma_object_view(&entries);
        }
        self.state.push(State::Value(Value::Object(entries)));
        proof {
            assert(self@ =~= before.take(before.len() - 1).push(
                Frame::Done(Tree::Obj(before.last()->Obj_0)),
            ));
            assert(frame_wf(before[before.len() - 1]));
            lemma_tree_wf_obj_intro(before.last()->Obj_0);
        }
        Ok(())
    }
}

/// A source: a value that can emit itself as visitor primitives.
pub trait Source {
    /// The tree this source stands for.
    spec fn tree(&self) -> Tree;

    /// Whether this source's emission is guaranteed to succeed.
    spec fn emits_ok(&self) -> bool;

    /// Emits this value onto the builder as one completed frame.
    fn emit(&self, ser: &mut Serializer) -> (r: Result<(), Error>)
        requires
            old(ser).wf(),
        ensures
            final(ser).wf(),
            self.emits_ok() ==> r == Ok::<(), Error>(()) && final(ser)@ == old(ser)@.push(
                Frame::Done(self.tree()),
            ),
    ;
}

/// Emits one value, recursing over its children; a well-formed value
/// always emits successfully and pushes exactly its own model.
fn emit_value(v: &Value, ser: &mut Serializer) -> (r: Result<(), Error>)
    requires
        old(ser).wf(),
    ensures
        final(ser).wf(),
        v.wf() ==> r == Ok::<(), Error>(()) && final(ser)@ == old(ser)@.push(Frame::Done(v@)),
    decreases v,
{
    match v {
        Value::Null => ser.visit_unit(),
        Value::Bool(b) => ser.visit_bool(*b),
        Value::I64(n) => ser.visit_i64(*n),
        Value::F64(bits) => ser.visit_f64(*bits),
        Value::String(s) => ser.visit_str(s.as_str()),
        Value::Array(elems) => {
            proof {
                lemma_array_view(elems);
            }
            let ghost snap = old(ser)@;
            ser.visit_seq(Some(elems.len()))?;
            proof {
                assert(arr_view(elems@.subrange(0, 0)) =~= Seq::<Tree>::empty());
            }
            let mut j: usize = 0;
            while j < elems.len()
                invariant
                    j <= elems.len(),
                    ser.wf(),
                    v == Value::Array(*elems),
                    v@ == Tree::Arr(arr_view(elems@)),
                    v.wf() ==> ser@ == snap.push(
                        Frame::Arr(arr_view(elems@.subrange(0, j as int))),
                    ),
                decreases elems.len() - j,
            {
                proof {
                    if v.wf() {
                        assert(tree_wf(Tree::Arr(arr_view(elems@))));
                        lemma_tree_wf_arr(arr_view(elems@));
                        assert(tree_wf(arr_view(elems@)[j as int]));
                        assert(arr_view(elems@)[j as int] == elems@[j as int]@);
                    }
                }
                emit_value(&elems[j], ser)?;
                let done = ser.seq_elt_done();
                proof {
                    if v.wf() {
                        assert(arr_view(elems@.subrange(0, j as int)).push(elems@[j as int]@)
                            =~= arr_view(elems@.subrange(0, j + 1 as int)));
                        let prev = snap.push(
                            Frame::Arr(arr_view(elems@.subrange(0, j as int))),
                        ).push(Frame::Done(elems@[j as int]@));
                        assert(prev.take(prev.len() - 2) =~= snap);
                        assert(ser@ =~= snap.push(
                            Frame::Arr(arr_view(elems@.subrange(0, j + 1 as int))),
                        ));
                    }
                }
                done?;
                j = j + 1;
            }
            let r = ser.end_seq();
            proof {
                if v.wf() {
                    assert(elems@.subrange(0, elems@.len() as int) =~= elems@);
                    let mid = snap.push(Frame::Arr(arr_view(elems@)));
                    assert(mid.take(mid.len() - 1) =~= snap);
                    assert(ser@ =~= snap.push(Frame::Done(v@)));
                }
            }
            r
        },
        Value::Object(entries) => {
            proof {
                lemma_object_view(entries);
            }
            let ghost snap = old(ser)@;
            ser.visit_map(Some(entries.len()))?;
            proof {
                assert(obj_view(entries@.subrange(0, 0)) =~= Seq::<(Seq<char>, Tree)>::empty());
            }
            let mut j: usize = 0;
            while j < entries.len()
                invariant
                    j <= entries.len(),
                    ser.wf(),
                    v == Value::Object(*entries),
                    v@ == Tree::Obj(obj_view(entries@)),
                    v.wf() ==> ser@ == snap.push(
                        Frame::Obj(obj_view(entries@.subrange(0, j as int))),
                    ),
                decreases entries.len() - j,
            {
                proof {
                    if v.wf() {
                        assert(tree_wf(Tree::Obj(obj_view(entries@))));
                        lemma_tree_wf_obj(obj_view(entries@));
                        assert(tree_wf(obj_view(entries@)[j as int].1));
                        assert(obj_view(entries@)[j as int] == (
                            entries@[j as int].0@,
                            entries@[j as int].1@,
                        ));
                    }
                }
                ser.visit_str(entries[j].0.as_str())?;
                emit_value(&entries[j].1, ser)?;
                let done = ser.map_elt_done();
                proof {
                    if v.wf() {
                        let pre = obj_view(entries@.subrange(0, j as int));
                        let kj = entries@[j as int].0@;
                        assert forall|i: int| 0 <= i < pre.len() implies str_lt(
                            #[trigger] pre[i].0,
                            kj,
                        ) by {
                            assert(pre[i] == obj_view(entries@)[i]);
                            assert(obj_view(entries@)[i].0 == entries@[i].0@);
                            assert(str_lt(obj_view(entries@)[i].0, obj_view(entries@)[j as int].0));
                        }
                        lemma_obj_insert_append(pre, kj, entries@[j as int].1@);
                        assert(pre.push((kj, entries@[j as int].1@)) =~= obj_view(
                            entries@.subrange(0, j + 1 as int),
                        ));
                        let mid = snap.push(Frame::Obj(pre)).push(Frame::Done(Tree::Str(kj))).push(
                            Frame::Done(entries@[j as int].1@),
                        );
                        assert(mid.take(mid.len() - 3) =~= snap);
                        assert(ser@ =~= snap.push(
                            Frame::Obj(obj_view(entries@.subrange(0, j + 1 as int))),
                        ));
                    }
                }
                done?;
                j = j + 1;
            }
            let r = ser.end_map();
            proof {
                if v.wf() {
                    assert(entries@.subrange(0, entries@.len() as int) =~= entries@);
                    let mid = snap.push(Frame::Obj(obj_view(entries@)));
                    assert(mid.take(mid.len() - 1) =~= snap);
                    assert(ser@ =~= snap.push(Frame::Done(v@)));
                }
            }
            r
        },
    }
}

/// The value tree is its own source: emitting a well-formed value pushes
/// exactly its model.
impl Source for Value {
    open spec fn tree(&self) -> Tree {
        self@
    }

    open spec fn emits_ok(&self) -> bool {
        self.wf()
    }

    fn emit(&self, ser: &mut Serializer) -> (r: Result<(), Error>) {
        emit_value(self, ser)
    }
}

/// Encodes one source into a single value tree.
pub fn to_value<T: Source>(value: &T) -> (r: Result<Value, Error>)
    ensures
        value.emits_ok() ==> (r matches Ok(v) && v@ == value.tree() && v.wf()),
{
    let mut ser = Serializer::new();
    value.emit(&mut ser)?;
    ser.unwrap()
}

} // verus!
