//! The tagged tree type, its ghost model, and the ordered-object algebra.

use vstd::prelude::*;

verus! {

broadcast use vstd::std_specs::vec::axiom_vec_index_decreases;

/// Ghost model of one node of the value tree. Object entries are
/// (key characters, subtree) pairs held in ascending key order.
#[verifier::ext_equal]
pub enum Tree {
    Null,
    Bool(bool),
    I64(i64),
    F64(u64),
    Str(Seq<char>),
    Arr(Seq<Tree>),
    Obj(Seq<(Seq<char>, Tree)>),
}

/// The tagged tree type: the universal in-memory representation of any
/// JSON-like structure. Floating-point payloads are carried as raw
/// IEEE-754 bit patterns, so equality on them is bitwise. Object entries
/// are kept in ascending key order with unique keys.
#[derive(PartialEq, Debug)]
pub enum Value {
    Null,
    Bool(bool),
    I64(i64),
    F64(u64),
    String(String),
    Array(Vec<Value>),
    Object(Vec<(String, Value)>),
}

impl View for Value {
    type V = Tree;

    open spec fn view(&self) -> Tree
        decreases self, 1int,
    {
        match self {
            Value::Null => Tree::Null,
            Value::Bool(b) => Tree::Bool(*b),
            Value::I64(n) => Tree::I64(*n),
            Value::F64(bits) => Tree::F64(*bits),
            Value::String(s) => Tree::Str(s@),
            Value::Array(elems) => Tree::Arr(arr_model(elems, elems.len() as int)),
            Value::Object(entries) => Tree::Obj(obj_model(entries, entries.len() as int)),
        }
    }
}

/// Model of the first `n` elements of an array payload.
pub open spec fn arr_model(elems: &Vec<Value>, n: int) -> Seq<Tree>
    decreases elems, n,
{
    if n <= 0 || n > elems.len() {
        Seq::empty()
    } else {
        arr_model(elems, n - 1).push(elems[n - 1]@)
    }
}

/// Model of the first `n` entries of an object payload.
pub open spec fn obj_model(entries: &Vec<(String, Value)>, n: int) -> Seq<(Seq<char>, Tree)>
    decreases entries, n,
{
    if n <= 0 || n > entries.len() {
        Seq::empty()
    } else {
        obj_model(entries, n - 1).push((entries[n - 1].0@, entries[n - 1].1@))
    }
}

/// The models of a sequence of values, element by element.
pub open spec fn arr_view(elems: Seq<Value>) -> Seq<Tree> {
    Seq::new(elems.len(), |i: int| elems[i]@)
}

/// The models of a sequence of keyed entries, entry by entry.
pub open spec fn obj_view(entries: Seq<(String, Value)>) -> Seq<(Seq<char>, Tree)> {
    Seq::new(entries.len(), |i: int| (entries[i].0@, entries[i].1@))
}

/// The indexed model of an array payload is the pointwise one.
pub proof fn lemma_arr_model(elems: &Vec<Value>, n: int)
    requires
        0 <= n <= elems.len(),
    ensures
        arr_model(elems, n).len() == n,
        forall|i: int| 0 <= i < n ==> arr_model(elems, n)[i] == elems[i]@,
    decreases n,
{
    if n > 0 {
        lemma_arr_model(elems, n - 1);
        assert(arr_model(elems, n) == arr_model(elems, n - 1).push(elems[n - 1]@));
    }
}

/// The indexed model of an object payload is the pointwise one.
pub proof fn lemma_obj_model(entries: &Vec<(String, Value)>, n: int)
    requires
        0 <= n <= entries.len(),
    ensures
        obj_model(entries, n).len() == n,
        forall|i: int|
            0 <= i < n ==> obj_model(entries, n)[i] == (entries[i].0@, entries[i].1@),
    decreases n,
{
    if n > 0 {
        lemma_obj_model(entries, n - 1);
        assert(obj_model(entries, n) == obj_model(entries, n - 1).push(
            (entries[n - 1].0@, entries[n - 1].1@),
        ));
    }
}

/// The model of an array value is the pointwise model of its elements.
pub proof fn lemma_array_view(elems: &Vec<Value>)
    ensures
        Value::Array(*elems)@ == Tree::Arr(arr_view(elems@)),
{
    lemma_arr_model(elems, elems.len() as int);
    assert(arr_model(elems, elems.len() as int) =~= arr_view(elems@));
}

/// The model of an object value is the pointwise model of its entries.
pub proof fn lemma_object_view(entries: &Vec<(String, Value)>)
    ensures
        Value::Object(*entries)@ == Tree::Obj(obj_view(entries@)),
{
    lemma_obj_model(entries, entries.len() as int);
    assert(obj_model(entries, entries.len() as int) =~= obj_view(entries@));
}

/// Strict lexicographic order on key characters, by code point.
pub open spec fn str_lt(a: Seq<char>, b: Seq<char>) -> bool
    decreases a.len(),
{
    if b.len() == 0 {
        false
    } else if a.len() == 0 {
        true
    } else if (a[0] as u32) < (b[0] as u32) {
        true
    } else if (b[0] as u32) < (a[0] as u32) {
        false
    } else {
        str_lt(a.drop_first(), b.drop_first())
    }
}

/// Two characters with one code point are one character.
proof fn lemma_char_eq(x: char, y: char)
    requires
        x as u32 == y as u32,
    ensures
        x == y,
{
}

/// The key order is a strict total order: of `a < b`, `b < a` and `a == b`,
/// exactly one holds.
pub proof fn lemma_str_order(a: Seq<char>, b: Seq<char>)
    ensures
        str_lt(a, b) ==> !str_lt(b, a) && a != b,
        !str_lt(a, b) && !str_lt(b, a) ==> a == b,
    decreases a.len(),
{
    if a.len() == 0 && b.len() == 0 {
        assert(a =~= b);
    } else if a.len() > 0 && b.len() > 0 && !((a[0] as u32) < (b[0] as u32)) && !((b[0]
        as u32) < (a[0] as u32)) {
        let ca = a[0];
        let cb = b[0];
        assert((ca as u32) == (cb as u32));
        lemma_char_eq(ca, cb);
        lemma_str_order(a.drop_first(), b.drop_first());
        if a.drop_first() == b.drop_first() {
            assert forall|i: int| 0 <= i < a.len() implies a[i] == b[i] by {
                if i > 0 {
                    assert(a[i] == a.drop_first()[i - 1]);
                    assert(b[i] == b.drop_first()[i - 1]);
                }
            }
            assert(a =~= b);
        }
        if a == b {
            assert(a.drop_first() =~= b.drop_first());
        }
    }
}

/// Object entries stand in strictly ascending key order; keys are unique.
pub open spec fn entries_sorted(entries: Seq<(Seq<char>, Tree)>) -> bool {
    forall|i: int, j: int|
        0 <= i < j < entries.len() ==> str_lt(#[trigger] entries[i].0, #[trigger] entries[j].0)
}

/// A well-formed tree: every object level is sorted with unique keys.
pub open spec fn tree_wf(t: Tree) -> bool
    decreases t, 1int,
{
    match t {
        Tree::Arr(elems) => arr_wf(elems, elems.len() as int),
        Tree::Obj(entries) => entries_sorted(entries) && obj_wf(entries, entries.len() as int),
        _ => true,
    }
}

/// Well-formedness of the first `n` elements.
pub open spec fn arr_wf(elems: Seq<Tree>, n: int) -> bool
    decreases elems, n,
{
    if n <= 0 || n > elems.len() {
        true
    } else {
        arr_wf(elems, n - 1) && tree_wf(elems[n - 1])
    }
}

/// Well-formedness of the first `n` entry trees.
pub open spec fn obj_wf(entries: Seq<(Seq<char>, Tree)>, n: int) -> bool
    decreases entries, n,
{
    if n <= 0 || n > entries.len() {
        true
    } else {
        obj_wf(entries, n - 1) && tree_wf(entries[n - 1].1)
    }
}

proof fn lemma_arr_wf(elems: Seq<Tree>, n: int)
    requires
        0 <= n <= elems.len(),
    ensures
        arr_wf(elems, n) <==> (forall|i: int| 0 <= i < n ==> tree_wf(#[trigger] elems[i])),
    decreases n,
{
    if n > 0 {
        lemma_arr_wf(elems, n - 1);
    }
}

proof fn lemma_obj_wf(entries: Seq<(Seq<char>, Tree)>, n: int)
    requires
        0 <= n <= entries.len(),
    ensures
        obj_wf(entries, n) <==> (forall|i: int|
            0 <= i < n ==> tree_wf(#[trigger] entries[i].1)),
    decreases n,
{
    if n > 0 {
        lemma_obj_wf(entries, n - 1);
    }
}

/// Well-formedness of an array tree is that of its elements.
pub proof fn lemma_tree_wf_arr(elems: Seq<Tree>)
    requires
        tree_wf(Tree::Arr(elems)),
    ensures
        forall|i: int| 0 <= i < elems.len() ==> tree_wf(#[trigger] elems[i]),
{
    lemma_arr_wf(elems, elems.len() as int);
}

/// Well-formedness of an object tree is order plus that of its entries.
pub proof fn lemma_tree_wf_obj(entries: Seq<(Seq<char>, Tree)>)
    requires
        tree_wf(Tree::Obj(entries)),
    ensures
        entries_sorted(entries),
        forall|i: int| 0 <= i < entries.len() ==> tree_wf(#[trigger] entries[i].1),
{
    lemma_obj_wf(entries, entries.len() as int);
}

/// Builds well-formedness of an array tree from its elements.
pub proof fn lemma_tree_wf_arr_intro(elems: Seq<Tree>)
    requires
        forall|i: int| 0 <= i < elems.len() ==> tree_wf(#[trigger] elems[i]),
    ensures
        tree_wf(Tree::Arr(elems)),
{
    lemma_arr_wf(elems, elems.len() as int);
}

/// Builds well-formedness of an object tree from its entries.
pub proof fn lemma_tree_wf_obj_intro(entries: Seq<(Seq<char>, Tree)>)
    requires
        entries_sorted(entries),
        forall|i: int| 0 <= i < entries.len() ==> tree_wf(#[trigger] entries[i].1),
    ensures
        tree_wf(Tree::Obj(entries)),
{
    lemma_obj_wf(entries, entries.len() as int);
}

impl Value {
    /// A well-formed value is one whose model is well formed.
    pub open spec fn wf(&self) -> bool {
        tree_wf(self@)
    }
}

/// Insertion into ordered entries: overwrite an equal key in place,
/// otherwise place the new entry before the first greater key.
pub open spec fn obj_insert(
    entries: Seq<(Seq<char>, Tree)>,
    k: Seq<char>,
    v: Tree,
) -> Seq<(Seq<char>, Tree)>
    decreases entries.len(),
{
    if entries.len() == 0 {
        seq![(k, v)]
    } else if str_lt(k, entries[0].0) {
        seq![(k, v)] + entries
    } else if k == entries[0].0 {
        seq![(k, v)] + entries.drop_first()
    } else {
        seq![entries[0]] + obj_insert(entries.drop_first(), k, v)
    }
}

/// The tree bound to a key, scanning entries front to back.
pub open spec fn obj_get(entries: Seq<(Seq<char>, Tree)>, k: Seq<char>) -> Option<Tree>
    decreases entries.len(),
{
    if entries.len() == 0 {
        None
    } else if entries[0].0 == k {
        Some(entries[0].1)
    } else {
        obj_get(entries.drop_first(), k)
    }
}

/// Law: insertion keeps entries sorted, and every entry of the result is
/// the inserted pair or one of the old entries.
pub proof fn lemma_obj_insert_sorted(entries: Seq<(Seq<char>, Tree)>, k: Seq<char>, v: Tree)
    requires
        entries_sorted(entries),
    ensures
        entries_sorted(obj_insert(entries, k, v)),
        forall|i: int|
            0 <= i < obj_insert(entries, k, v).len() ==> (#[trigger] obj_insert(entries, k, v)[i]
                == (k, v) || entries.contains(obj_insert(entries, k, v)[i])),
    decreases entries.len(),
{
    let out = obj_insert(entries, k, v);
    if entries.len() == 0 {
    } else if str_lt(k, entries[0].0) {
        assert forall|i: int, j: int| 0 <= i < j < out.len() implies str_lt(
            #[trigger] out[i].0,
            #[trigger] out[j].0,
        ) by {
            if i == 0 {
                lemma_str_order(k, entries[j - 1].0);
                if j > 1 {
                    assert(str_lt(entries[0].0, entries[j - 1].0));
                    lemma_str_lt_trans(k, entries[0].0, entries[j - 1].0);
                }
            }
        }
        assert forall|i: int| 0 <= i < out.len() implies (#[trigger] out[i] == (k, v)
            || entries.contains(out[i])) by {
            if i > 0 {
                assert(out[i] == entries[i - 1]);
            }
        }
    } else if k == entries[0].0 {
        assert forall|i: int| 0 <= i < out.len() implies (#[trigger] out[i] == (k, v)
            || entries.contains(out[i])) by {
            if i > 0 {
                assert(out[i] == entries[i]);
            }
        }
    } else {
        lemma_str_order(k, entries[0].0);
        let rest = entries.drop_first();
        assert(entries_sorted(rest)) by {
            assert forall|i: int, j: int| 0 <= i < j < rest.len() implies str_lt(
                #[trigger] rest[i].0,
                #[trigger] rest[j].0,
            ) by {
                assert(rest[i] == entries[i + 1] && rest[j] == entries[j + 1]);
            }
        }
        lemma_obj_insert_sorted(rest, k, v);
        let sub = obj_insert(rest, k, v);
        assert forall|i: int, j: int| 0 <= i < j < out.len() implies str_lt(
            #[trigger] out[i].0,
            #[trigger] out[j].0,
        ) by {
            if i == 0 {
                // head key is below the inserted key and below every old key
                if sub[j - 1] == (k, v) {
                    assert(str_lt(entries[0].0, k));
                } else {
                    let jj = choose|jj: int| 0 <= jj < rest.len() && rest[jj] == sub[j - 1];
                    assert(entries[0].0 == out[0].0);
                    assert(str_lt(entries[0].0, entries[jj + 1].0));
                }
            } else {
                assert(out[i] == sub[i - 1] && out[j] == sub[j - 1]);
            }
        }
        assert forall|i: int| 0 <= i < out.len() implies (#[trigger] out[i] == (k, v)
            || entries.contains(out[i])) by {
            if i == 0 {
                assert(entries.contains(entries[0]));
            } else {
                if sub[i - 1] != (k, v) {
                    let jj = choose|jj: int| 0 <= jj < rest.len() && rest[jj] == sub[i - 1];
                    assert(entries[jj + 1] == rest[jj]);
                    assert(entries.contains(entries[jj + 1]));
                }
            }
        }
    }
}

/// The key order is transitive.
pub proof fn lemma_str_lt_trans(a: Seq<char>, b: Seq<char>, c: Seq<char>)
    requires
        str_lt(a, b),
        str_lt(b, c),
    ensures
        str_lt(a, c),
    decreases a.len(),
{
    if a.len() > 0 && b.len() > 0 && c.len() > 0 {
        if !((a[0] as u32) < (b[0] as u32)) && !((b[0] as u32) < (a[0] as u32)) && !((b[0]
            as u32) < (c[0] as u32)) && !((c[0] as u32) < (b[0] as u32)) {
            lemma_char_eq(a[0], b[0]);
            lemma_char_eq(b[0], c[0]);
            lemma_str_lt_trans(a.drop_first(), b.drop_first(), c.drop_first());
        } else {
            assert((a[0] as u32) <= (b[0] as u32) && (b[0] as u32) <= (c[0] as u32));
        }
    }
}

/// Law: after an insertion the inserted key is bound to the new tree.
pub proof fn lemma_obj_insert_get(entries: Seq<(Seq<char>, Tree)>, k: Seq<char>, v: Tree)
    ensures
        obj_get(obj_insert(entries, k, v), k) == Some(v),
    decreases entries.len(),
{
    let out = obj_insert(entries, k, v);
    if entries.len() == 0 {
        assert(out[0] == (k, v));
    } else if str_lt(k, entries[0].0) {
        assert(out[0] == (k, v));
    } else if k == entries[0].0 {
        assert(out[0] == (k, v));
    } else {
        lemma_str_order(k, entries[0].0);
        lemma_obj_insert_get(entries.drop_first(), k, v);
        assert(out.drop_first() =~= obj_insert(entries.drop_first(), k, v));
    }
}

/// Law: an insertion leaves every other key's binding unchanged.
pub proof fn lemma_obj_insert_get_other(
    entries: Seq<(Seq<char>, Tree)>,
    k: Seq<char>,
    v: Tree,
    other: Seq<char>,
)
    requires
        other != k,
    ensures
        obj_get(obj_insert(entries, k, v), other) == obj_get(entries, other),
    decreases entries.len(),
{
    let out = obj_insert(entries, k, v);
    if entries.len() == 0 {
        assert(out[0] == (k, v));
        assert(out.drop_first() =~= Seq::<(Seq<char>, Tree)>::empty());
        assert(obj_get(out, other) == obj_get(out.drop_first(), other));
    } else if str_lt(k, entries[0].0) {
        assert(out[0] == (k, v));
        assert(out.drop_first() =~= entries);
        assert(obj_get(out, other) == obj_get(out.drop_first(), other));
    } else if k == entries[0].0 {
        assert(out[0] == (k, v));
        assert(out.drop_first() =~= entries.drop_first());
        assert(obj_get(out, other) == obj_get(out.drop_first(), other));
        assert(obj_get(entries, other) == obj_get(entries.drop_first(), other));
    } else {
        lemma_obj_insert_get_other(entries.drop_first(), k, v, other);
        assert(out[0] == entries[0]);
        assert(out.drop_first() =~= obj_insert(entries.drop_first(), k, v));
        if entries[0].0 == other {
            assert(obj_get(out, other) == Some(out[0].1));
            assert(obj_get(entries, other) == Some(entries[0].1));
        } else {
            assert(obj_get(out, other) == obj_get(out.drop_first(), other));
            assert(obj_get(entries, other) == obj_get(entries.drop_first(), other));
        }
    }
}

/// Inserting a key greater than every present key appends the entry.
pub proof fn lemma_obj_insert_append(entries: Seq<(Seq<char>, Tree)>, k: Seq<char>, v: Tree)
    requires
        forall|i: int| 0 <= i < entries.len() ==> str_lt(#[trigger] entries[i].0, k),
    ensures
        obj_insert(entries, k, v) == entries.push((k, v)),
    decreases entries.len(),
{
    if entries.len() == 0 {
        assert(obj_insert(entries, k, v) =~= entries.push((k, v)));
    } else {
        lemma_str_order(k, entries[0].0);
        let rest = entries.drop_first();
        assert(forall|i: int| 0 <= i < rest.len() ==> str_lt(#[trigger] rest[i].0, k)) by {
            assert(forall|i: int|
                0 <= i < rest.len() ==> #[trigger] rest[i] == entries[i + 1]);
        }
        lemma_obj_insert_append(rest, k, v);
        assert(obj_insert(entries, k, v) =~= entries.push((k, v)));
    }
}

/// The height of a tree, used as the consumption measure.
pub open spec fn tree_height(t: Tree) -> nat
    decreases t, 1int,
{
    match t {
        Tree::Arr(elems) => 1 + arr_height(elems, elems.len() as int),
        Tree::Obj(entries) => 1 + obj_height(entries, entries.len() as int),
        _ => 0,
    }
}

/// The greatest height among the first `n` elements.
pub open spec fn arr_height(elems: Seq<Tree>, n: int) -> nat
    decreases elems, n,
{
    if n <= 0 || n > elems.len() {
        0
    } else {
        let h = tree_height(elems[n - 1]);
        let rest = arr_height(elems, n - 1);
        if h > rest {
            h
        } else {
            rest
        }
    }
}

/// The greatest height among the first `n` entry trees.
pub open spec fn obj_height(entries: Seq<(Seq<char>, Tree)>, n: int) -> nat
    decreases entries, n,
{
    if n <= 0 || n > entries.len() {
        0
    } else {
        let h = tree_height(entries[n - 1].1);
        let rest = obj_height(entries, n - 1);
        if h > rest {
            h
        } else {
            rest
        }
    }
}

/// Every array element is lower than the array.
pub proof fn lemma_arr_height(elems: Seq<Tree>, j: int)
    requires
        0 <= j < elems.len(),
    ensures
        tree_height(elems[j]) < tree_height(Tree::Arr(elems)),
{
    lemma_arr_height_upto(elems, elems.len() as int, j);
}

proof fn lemma_arr_height_upto(elems: Seq<Tree>, n: int, j: int)
    requires
        0 <= j < n <= elems.len(),
    ensures
        tree_height(elems[j]) <= arr_height(elems, n),
    decreases n,
{
    if j < n - 1 {
        lemma_arr_height_upto(elems, n - 1, j);
    }
}

/// Every entry tree is lower than the object.
pub proof fn lemma_obj_height(entries: Seq<(Seq<char>, Tree)>, j: int)
    requires
        0 <= j < entries.len(),
    ensures
        tree_height(entries[j].1) < tree_height(Tree::Obj(entries)),
{
    lemma_obj_height_upto(entries, entries.len() as int, j);
}

proof fn lemma_obj_height_upto(entries: Seq<(Seq<char>, Tree)>, n: int, j: int)
    requires
        0 <= j < n <= entries.len(),
    ensures
        tree_height(entries[j].1) <= obj_height(entries, n),
    decreases n,
{
    if j < n - 1 {
        lemma_obj_height_upto(entries, n - 1, j);
    }
}

/// Three-way outcome of one key comparison.
pub enum KeyOrder {
    Less,
    Equal,
    Greater,
}

/// Compares the suffixes of two keys from position `i` on.
fn cmp_key_from(a: &str, b: &str, i: usize) -> (r: KeyOrder)
    requires
        i <= a@.len(),
        i <= b@.len(),
    ensures
        r is Less <==> str_lt(a@.skip(i as int), b@.skip(i as int)),
        r is Equal <==> a@.skip(i as int) == b@.skip(i as int),
        r is Greater <==> str_lt(b@.skip(i as int), a@.skip(i as int)),
    decreases a@.len() - i,
{
    let ghost sa = a@.skip(i as int);
    let ghost sb = b@.skip(i as int);
    proof {
        lemma_str_order(sa, sb);
    }
    if i == b.unicode_len() {
        if i == a.unicode_len() {
            assert(sa =~= sb);
            KeyOrder::Equal
        } else {
            assert(sa.len() > 0 && sb.len() == 0);
            KeyOrder::Greater
        }
    } else if i == a.unicode_len() {
        assert(sa.len() == 0 && sb.len() > 0);
        KeyOrder::Less
    } else {
        let ca = a.get_char(i);
        let cb = b.get_char(i);
        proof {
            assert(sa[0] == a@[i as int] && sb[0] == b@[i as int]);
        }
        if (ca as u32) < (cb as u32) {
            KeyOrder::Less
        } else if (cb as u32) < (ca as u32) {
            KeyOrder::Greater
        } else {
            let r = cmp_key_from(a, b, i + 1);
            proof {
                assert(sa.drop_first() =~= a@.skip(i + 1));
                assert(sb.drop_first() =~= b@.skip(i + 1));
                if a@.skip(i + 1) == b@.skip(i + 1) {
                    assert(sa =~= sb);
                }
                if sa == sb {
                    assert(sa.drop_first() =~= sb.drop_first());
                }
            }
            r
        }
    }
}

/// Compares two keys in the object order.
pub fn cmp_keys(a: &str, b: &str) -> (r: KeyOrder)
    ensures
        r is Less <==> str_lt(a@, b@),
        r is Equal <==> a@ == b@,
        r is Greater <==> str_lt(b@, a@),
{
    let r = cmp_key_from(a, b, 0);
    proof {
        assert(a@.skip(0) =~= a@);
        assert(b@.skip(0) =~= b@);
    }
    r
}

/// Inserts one entry into ordered entries, overwriting an equal key.
pub fn insert_entry(entries: Vec<(String, Value)>, key: String, value: Value) -> (r: Vec<
    (String, Value),
>)
    ensures
        obj_view(r@) == obj_insert(obj_view(entries@), key@, value@),
    decreases entries.len(),
{
    let ghost before = obj_view(entries@);
    let mut entries = entries;
    if entries.len() == 0 {
        entries.push((key, value));
        proof {
            assert(obj_view(entries@) =~= obj_insert(before, key@, value@));
        }
        entries
    } else {
        match cmp_keys(key.as_str(), entries[0].0.as_str()) {
            KeyOrder::Less => {
                entries.insert(0, (key, value));
                proof {
                    assert(obj_view(entries@) =~= obj_insert(before, key@, value@));
                }
                entries
            },
            KeyOrder::Equal => {
                let _ = entries.remove(0);
                entries.insert(0, (key, value));
                proof {
                    assert(before.drop_first() =~= obj_view(entries@).drop_first());
                    assert(obj_view(entries@) =~= obj_insert(before, key@, value@));
                }
                entries
            },
            KeyOrder::Greater => {
                let head = entries.remove(0);
                let ghost tail = entries@;
                let mut rest = insert_entry(entries, key, value);
                rest.insert(0, head);
                proof {
                    assert(before.drop_first() =~= obj_view(tail));
                    assert(obj_view(rest@).drop_first() =~= obj_insert(
                        obj_view(tail),
                        key@,
                        value@,
                    ));
                    assert(obj_view(rest@) =~= obj_insert(before, key@, value@));
                }
                rest
            },
        }
    }
}

} // verus!
