use vstd::prelude::*;

verus! {

/// Mathematical model of a JSON value.
///
/// Numbers are carried as their decimal text: the pipeline never computes
/// with them, it only copies them through, so the text is the faithful form.
/// An object is a sequence of key/value pairs in insertion order; a lookup
/// takes the first pair with the key.
#[verifier::ext_equal]
pub enum JVal {
    Null,
    Bool(bool),
    Num(Seq<char>),
    Str(Seq<char>),
    Arr(Seq<JVal>),
    Obj(Seq<(Seq<char>, JVal)>),
}

/// A JSON value as the pipeline holds it in memory.
#[derive(Debug)]
pub enum JsonVal {
    Null,
    Bool(bool),
    Num(String),
    Str(String),
    Arr(Vec<JsonVal>),
    Obj(Vec<(String, JsonVal)>),
}

/// The model of each value of a sequence.
pub open spec fn model_arr(es: Seq<JsonVal>) -> Seq<JVal>
    decreases es,
{
    if es.len() == 0 {
        Seq::empty()
    } else {
        model_arr(es.drop_last()).push(es.last().model())
    }
}

/// The model of each entry of an object's entry list.
pub open spec fn model_obj(es: Seq<(String, JsonVal)>) -> Seq<(Seq<char>, JVal)>
    decreases es,
{
    if es.len() == 0 {
        Seq::empty()
    } else {
        model_obj(es.drop_last()).push((es.last().0@, es.last().1.model()))
    }
}

impl JsonVal {
    /// The model of this value.
    pub open spec fn model(self) -> JVal
        decreases self,
    {
        match self {
            JsonVal::Null => JVal::Null,
            JsonVal::Bool(b) => JVal::Bool(b),
            JsonVal::Num(t) => JVal::Num(t@),
            JsonVal::Str(s) => JVal::Str(s@),
            JsonVal::Arr(es) => JVal::Arr(model_arr(es@)),
            JsonVal::Obj(es) => JVal::Obj(model_obj(es@)),
        }
    }
}

impl View for JsonVal {
    type V = JVal;

    open spec fn view(&self) -> JVal {
        self.model()
    }
}

/// `model_arr` is the pointwise model of the sequence.
pub proof fn lemma_model_arr(es: Seq<JsonVal>)
    ensures
        model_arr(es).len() == es.len(),
        forall|i: int| 0 <= i < es.len() ==> #[trigger] model_arr(es)[i] == es[i]@,
    decreases es,
{
    if es.len() > 0 {
        lemma_model_arr(es.drop_last());
    }
}

/// `model_obj` is the pointwise model of the entry list.
pub proof fn lemma_model_obj(es: Seq<(String, JsonVal)>)
    ensures
        model_obj(es).len() == es.len(),
        forall|i: int| 0 <= i < es.len() ==> #[trigger] model_obj(es)[i]
            == (es[i].0@, es[i].1@),
    decreases es,
{
    if es.len() > 0 {
        lemma_model_obj(es.drop_last());
    }
}

/// First value stored under `key`, if any.
pub open spec fn obj_get(es: Seq<(Seq<char>, JVal)>, key: Seq<char>) -> Option<JVal>
    decreases es.len(),
{
    if es.len() == 0 {
        None
    } else if es[0].0 == key {
        Some(es[0].1)
    } else {
        obj_get(es.skip(1), key)
    }
}

/// A deep copy of a JSON value.
pub fn dup_val(v: &JsonVal) -> (r: JsonVal)
    ensures
        r@ == v@,
    decreases v,
{
    match v {
        JsonVal::Null => JsonVal::Null,
        JsonVal::Bool(b) => JsonVal::Bool(*b),
        JsonVal::Num(t) => JsonVal::Num(t.clone()),
        JsonVal::Str(s) => JsonVal::Str(s.clone()),
        JsonVal::Arr(es) => {
            let mut out: Vec<JsonVal> = Vec::new();
            let mut i: usize = 0;
            while i < es.len()
                invariant
                    v == JsonVal::Arr(*es),
                    i <= es.len(),
                    out@.len() == i,
                    forall|j: int| 0 <= j < i ==> out@[j]@ == es@[j]@,
                decreases es.len() - i,
            {
                proof {
                    assert(decreases_to!(*v => v->Arr_0));
                    assert(decreases_to!(v->Arr_0 => v->Arr_0@));
                    assert(decreases_to!(v->Arr_0@ => v->Arr_0@[i as int]));
                }
                out.push(dup_val(&es[i]));
                i += 1;
            }
            let r = JsonVal::Arr(out);
            proof {
                lemma_model_arr(out@);
                lemma_model_arr(es@);
                assert(model_arr(out@) =~= model_arr(es@));
                assert(r@ =~= v@);
            }
            r
        },
        JsonVal::Obj(es) => {
            let mut out: Vec<(String, JsonVal)> = Vec::new();
            let mut i: usize = 0;
            while i < es.len()
                invariant
                    v == JsonVal::Obj(*es),
                    i <= es.len(),
                    out@.len() == i,
                    forall|j: int| 0 <= j < i ==> out@[j].0@ == es@[j].0@ && out@[j].1@
                        == es@[j].1@,
                decreases es.len() - i,
            {
                proof {
                    assert(decreases_to!(*v => v->Obj_0));
                    assert(decreases_to!(v->Obj_0 => v->Obj_0@));
                    assert(decreases_to!(v->Obj_0@ => v->Obj_0@[i as int]));
                    assert(decreases_to!(v->Obj_0@[i as int] => v->Obj_0@[i as int].1));
                }
                let kv = &es[i];
                out.push((kv.0.clone(), dup_val(&kv.1)));
                i += 1;
            }
            let r = JsonVal::Obj(out);
            proof {
                lemma_model_obj(out@);
                lemma_model_obj(es@);
                assert(model_obj(out@) =~= model_obj(es@));
                assert(r@ =~= v@);
            }
            r
        },
    }
}

/// `obj_get` returns the entry at the first index holding the key.
pub proof fn lemma_obj_get_at(es: Seq<(Seq<char>, JVal)>, key: Seq<char>, i: int)
    requires
        0 <= i < es.len(),
        es[i].0 == key,
        forall|j: int| 0 <= j < i ==> es[j].0 != key,
    ensures
        obj_get(es, key) == Some(es[i].1),
    decreases i,
{
    if i > 0 {
        assert(forall|j: int| 1 <= j < es.len() ==> #[trigger] es[j] == es.skip(1)[j - 1]);
        lemma_obj_get_at(es.skip(1), key, i - 1);
    }
}

/// `obj_get` finds nothing when no entry holds the key.
pub proof fn lemma_obj_get_none(es: Seq<(Seq<char>, JVal)>, key: Seq<char>)
    requires
        forall|j: int| 0 <= j < es.len() ==> es[j].0 != key,
    ensures
        obj_get(es, key) is None,
    decreases es.len(),
{
    if es.len() > 0 {
        assert(forall|j: int| 1 <= j < es.len() ==> #[trigger] es[j] == es.skip(1)[j - 1]);
        lemma_obj_get_none(es.skip(1), key);
    }
}

/// Index of the first entry with `key`, if any.
pub fn obj_find(es: &Vec<(String, JsonVal)>, key: &str) -> (r: Option<usize>)
    ensures
        match r {
            Some(i) => i < es@.len() && es@[i as int].0@ == key@ && obj_get(
                model_obj(es@),
                key@,
            ) == Some(es@[i as int].1@) && forall|j: int|
                0 <= j < i ==> #[trigger] es@[j].0@ != key@,
            None => obj_get(model_obj(es@), key@) is None && forall|j: int|
                0 <= j < es@.len() ==> #[trigger] es@[j].0@ != key@,
        },
{
    proof {
        lemma_model_obj(es@);
    }
    let n = es.len();
    let mut i: usize = 0;
    while i < n
        invariant
            n == es@.len(),
            i <= n,
            model_obj(es@).len() == n,
            forall|k: int| 0 <= k < n ==> #[trigger] model_obj(es@)[k] == (es@[k].0@, es@[k].1@),
            forall|k: int| 0 <= k < i ==> #[trigger] es@[k].0@ != key@,
        decreases n - i,
    {
        if crate::text::str_eq(es[i].0.as_str(), key) {
            proof {
                assert(forall|k: int| 0 <= k < i ==> #[trigger] model_obj(es@)[k].0 != key@);
                lemma_obj_get_at(model_obj(es@), key@, i as int);
            }
            return Some(i);
        }
        i += 1;
    }
    proof {
        assert(forall|k: int| 0 <= k < n ==> #[trigger] model_obj(es@)[k].0 != key@);
        lemma_obj_get_none(model_obj(es@), key@);
    }
    None
}

/// Insertion into an entry list: replaces the value under an existing key,
/// else appends a new entry at the end.
pub open spec fn obj_insert(es: Seq<(Seq<char>, JVal)>, key: Seq<char>, v: JVal) -> Seq<
    (Seq<char>, JVal),
>
    decreases es.len(),
{
    if es.len() == 0 {
        seq![(key, v)]
    } else if es[0].0 == key {
        seq![(key, v)] + es.skip(1)
    } else {
        seq![es[0]] + obj_insert(es.skip(1), key, v)
    }
}

/// Inserting over the first entry with the key updates it in place.
pub proof fn lemma_obj_insert_at(es: Seq<(Seq<char>, JVal)>, key: Seq<char>, v: JVal, i: int)
    requires
        0 <= i < es.len(),
        es[i].0 == key,
        forall|j: int| 0 <= j < i ==> es[j].0 != key,
    ensures
        obj_insert(es, key, v) == es.update(i, (key, v)),
    decreases i,
{
    if i == 0 {
        assert(obj_insert(es, key, v) =~= es.update(0, (key, v)));
    } else {
        assert(forall|j: int| 1 <= j < es.len() ==> #[trigger] es[j] == es.skip(1)[j - 1]);
        lemma_obj_insert_at(es.skip(1), key, v, i - 1);
        assert(obj_insert(es, key, v) =~= es.update(i, (key, v)));
    }
}

/// Inserting a fresh key appends its entry at the end.
pub proof fn lemma_obj_insert_none(es: Seq<(Seq<char>, JVal)>, key: Seq<char>, v: JVal)
    requires
        forall|j: int| 0 <= j < es.len() ==> es[j].0 != key,
    ensures
        obj_insert(es, key, v) == es.push((key, v)),
    decreases es.len(),
{
    if es.len() == 0 {
        assert(obj_insert(es, key, v) =~= es.push((key, v)));
    } else {
        assert(forall|j: int| 1 <= j < es.len() ==> #[trigger] es[j] == es.skip(1)[j - 1]);
        lemma_obj_insert_none(es.skip(1), key, v);
        assert(obj_insert(es, key, v) =~= es.push((key, v)));
    }
}

/// Map-like insertion used to build the projected record.
pub fn entries_insert(es: &mut Vec<(String, JsonVal)>, key: String, v: JsonVal)
    ensures
        model_obj(final(es)@) == obj_insert(model_obj(old(es)@), key@, v@),
{
    proof {
        lemma_model_obj(old(es)@);
    }
    let found = obj_find(es, key.as_str());
    match found {
        Some(i) => {
            proof {
                assert(forall|k: int| 0 <= k < i ==> #[trigger] model_obj(es@)[k].0 != key@);
            }
            es.remove(i);
            es.insert(i, (key, v));
            proof {
                lemma_model_obj(es@);
                lemma_obj_insert_at(model_obj(old(es)@), key@, v@, i as int);
                assert(es@ =~= old(es)@.update(i as int, (key, v)));
                assert(model_obj(es@) =~= model_obj(old(es)@).update(i as int, (key@, v@)));
            }
        },
        None => {
            proof {
                assert(forall|k: int|
                    0 <= k < model_obj(es@).len() ==> #[trigger] model_obj(es@)[k].0 != key@);
            }
            es.push((key, v));
            proof {
                lemma_model_obj(es@);
                lemma_obj_insert_none(model_obj(old(es)@), key@, v@);
                assert(model_obj(es@) =~= model_obj(old(es)@).push((key@, v@)));
            }
        },
    }
}

} // verus!
