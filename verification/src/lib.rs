//! A structural differ for JSON-like tree values.
//!
//! The library compares two immutable tree values and produces a third tree
//! in which every change is encoded in place: changed scalars become strings
//! of the form `old => new`, values present on only one side are marked with
//! `[+]` or `[-]`, and array elements are aligned by fuzzy matching of their
//! identifying fields.  A renderer turns the annotated tree into indented
//! text for direct reading.

use vstd::prelude::*;

pub mod value;
pub mod distance;
pub mod render;
pub mod compare;

verus! {

/// Ghost model of a tree value: the mathematical shape that contracts
/// speak about.  Mirrors [`Json`] with sequences in place of vectors.
pub enum Jv {
    Null,
    Bool(bool),
    Num(Seq<char>),
    Str(Seq<char>),
    Arr(Seq<Jv>),
    Obj(Seq<(Seq<char>, Jv)>),
}

/// A tree value of the kind produced by parsing JSON text.
///
/// Numbers are carried as their canonical numeric text, so the library
/// never touches machine floating point; mappings are insertion-ordered
/// lists of key/value pairs with unique keys.
pub enum Json {
    Null,
    Bool(bool),
    Num(String),
    Str(String),
    Arr(Vec<Json>),
    Obj(Vec<(String, Json)>),
}

impl Json {
    /// The ghost value this tree stands for.
    pub open spec fn model(self) -> Jv
        decreases self, 0int,
        via Self::model_decreases
    {
        match self {
            Json::Null => Jv::Null,
            Json::Bool(b) => Jv::Bool(b),
            Json::Num(s) => Jv::Num(s@),
            Json::Str(s) => Jv::Str(s@),
            Json::Arr(v) => Jv::Arr(model_arr(v@)),
            Json::Obj(v) => Jv::Obj(model_obj(v@)),
        }
    }

    #[via_fn]
    proof fn model_decreases(self) {
        match self {
            Json::Arr(v) => {
                assert(decreases_to!(self => v));
                assert(decreases_to!(v => v@));
            }
            Json::Obj(v) => {
                assert(decreases_to!(self => v));
                assert(decreases_to!(v => v@));
            }
            _ => {}
        }
    }
}

/// Ghost models of the elements of an array, in order.
pub open spec fn model_arr(v: Seq<Json>) -> Seq<Jv>
    decreases v, 1int,
{
    if v.len() == 0 {
        Seq::empty()
    } else {
        seq![v[0].model()] + model_arr(v.drop_first())
    }
}

/// Ghost models of the entries of a mapping, in order.
pub open spec fn model_obj(v: Seq<(String, Json)>) -> Seq<(Seq<char>, Jv)>
    decreases v, 1int,
{
    if v.len() == 0 {
        Seq::empty()
    } else {
        seq![(v[0].0@, v[0].1.model())] + model_obj(v.drop_first())
    }
}

pub broadcast proof fn lemma_model_arr_len(v: Seq<Json>)
    ensures
        #[trigger] model_arr(v).len() == v.len(),
    decreases v.len(),
{
    if v.len() > 0 {
        lemma_model_arr_len(v.drop_first());
    }
}

pub broadcast proof fn lemma_model_arr_index(v: Seq<Json>, i: int)
    requires
        0 <= i < v.len(),
    ensures
        #[trigger] model_arr(v)[i] == v[i].model(),
    decreases v.len(),
{
    lemma_model_arr_len(v.drop_first());
    if i > 0 {
        lemma_model_arr_index(v.drop_first(), i - 1);
    }
}

pub broadcast proof fn lemma_model_obj_len(v: Seq<(String, Json)>)
    ensures
        #[trigger] model_obj(v).len() == v.len(),
    decreases v.len(),
{
    if v.len() > 0 {
        lemma_model_obj_len(v.drop_first());
    }
}

pub broadcast proof fn lemma_model_obj_index(v: Seq<(String, Json)>, i: int)
    requires
        0 <= i < v.len(),
    ensures
        #[trigger] model_obj(v)[i] == (v[i].0@, v[i].1.model()),
    decreases v.len(),
{
    lemma_model_obj_len(v.drop_first());
    if i > 0 {
        lemma_model_obj_index(v.drop_first(), i - 1);
    }
}

impl View for Json {
    type V = Jv;

    open spec fn view(&self) -> Jv {
        self.model()
    }
}

pub proof fn lemma_model_arr_snoc(v: Seq<Json>, e: Json)
    ensures
        model_arr(v.push(e)) =~= model_arr(v) + seq![e.model()],
    decreases v.len(),
{
    if v.len() == 0 {
        assert(v.push(e)[0] == e);
        assert(v.push(e).drop_first() =~= Seq::<Json>::empty());
        assert(model_arr(v.push(e).drop_first()) =~= Seq::<Jv>::empty());
        assert(model_arr(v) =~= Seq::<Jv>::empty());
        assert(model_arr(v.push(e)) =~= model_arr(v) + seq![e.model()]);
    } else {
        assert(v.push(e)[0] == v[0]);
        assert(v.push(e).drop_first() =~= v.drop_first().push(e));
        lemma_model_arr_snoc(v.drop_first(), e);
        assert(seq![v[0].model()] + (model_arr(v.drop_first()) + seq![e.model()]) =~= (seq![
            v[0].model(),
        ] + model_arr(v.drop_first())) + seq![e.model()]);
    }
}

pub proof fn lemma_model_obj_snoc(v: Seq<(String, Json)>, e: (String, Json))
    ensures
        model_obj(v.push(e)) =~= model_obj(v) + seq![(e.0@, e.1.model())],
    decreases v.len(),
{
    if v.len() == 0 {
        assert(v.push(e)[0] == e);
        assert(v.push(e).drop_first() =~= Seq::<(String, Json)>::empty());
        assert(model_obj(v.push(e).drop_first()) =~= Seq::<(Seq<char>, Jv)>::empty());
        assert(model_obj(v) =~= Seq::<(Seq<char>, Jv)>::empty());
        assert(model_obj(v.push(e)) =~= model_obj(v) + seq![(e.0@, e.1.model())]);
    } else {
        assert(v.push(e)[0] == v[0]);
        assert(v.push(e).drop_first() =~= v.drop_first().push(e));
        lemma_model_obj_snoc(v.drop_first(), e);
        assert(seq![(v[0].0@, v[0].1.model())] + (model_obj(v.drop_first()) + seq![
            (e.0@, e.1.model()),
        ]) =~= (seq![(v[0].0@, v[0].1.model())] + model_obj(v.drop_first())) + seq![
            (e.0@, e.1.model()),
        ]);
    }
}

pub proof fn lemma_model_obj_concat(x: Seq<(String, Json)>, y: Seq<(String, Json)>)
    ensures
        model_obj(x + y) =~= model_obj(x) + model_obj(y),
    decreases x.len(),
{
    if x.len() == 0 {
        assert(x + y =~= y);
        assert(model_obj(x) =~= Seq::<(Seq<char>, Jv)>::empty());
    } else {
        assert((x + y).drop_first() =~= x.drop_first() + y);
        assert((x + y)[0] == x[0]);
        lemma_model_obj_concat(x.drop_first(), y);
    }
}

} // verus!
