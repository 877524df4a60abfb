//! Operations on tree values: key lookup, identifier selection, deep
//! equality, deep copying, and the `[+]` / `[-]` marking of added and
//! deleted values.

use vstd::prelude::*;
use vstd::string::StringExecFns;
use crate::{Json, Jv, model_arr, model_obj};
use crate::{lemma_model_arr_len, lemma_model_arr_index, lemma_model_obj_len, lemma_model_obj_index};

verus! {

/// The separator written between an old and a new value.
pub open spec fn sep_seq() -> Seq<char> {
    " => "@
}

/// The suffix marking an added value.
pub open spec fn add_seq() -> Seq<char> {
    " [+]"@
}

/// The suffix marking a deleted value.
pub open spec fn del_seq() -> Seq<char> {
    " [-]"@
}

/// The value stored under key `k`, at the first entry carrying that key.
pub open spec fn obj_get(o: Seq<(Seq<char>, Jv)>, k: Seq<char>) -> Option<Jv>
    decreases o.len(),
{
    if o.len() == 0 {
        None
    } else if o[0].0 == k {
        Some(o[0].1)
    } else {
        obj_get(o.drop_first(), k)
    }
}

/// The first entry whose value is a string, if any.
pub open spec fn find_first_str(o: Seq<(Seq<char>, Jv)>) -> Option<(Seq<char>, Jv)>
    decreases o.len(),
{
    if o.len() == 0 {
        None
    } else if o[0].1 is Str {
        Some(o[0])
    } else {
        find_first_str(o.drop_first())
    }
}

/// The first entry whose value is a number, if any.
pub open spec fn find_first_num(o: Seq<(Seq<char>, Jv)>) -> Option<(Seq<char>, Jv)>
    decreases o.len(),
{
    if o.len() == 0 {
        None
    } else if o[0].1 is Num {
        Some(o[0])
    } else {
        find_first_num(o.drop_first())
    }
}

/// The identifying entry of a mapping: the first string-valued entry,
/// else the first number-valued entry, else the first entry of any kind.
pub open spec fn find_ident(o: Seq<(Seq<char>, Jv)>) -> Option<(Seq<char>, Jv)> {
    if find_first_str(o) is Some {
        find_first_str(o)
    } else if find_first_num(o) is Some {
        find_first_num(o)
    } else if o.len() > 0 {
        Some(o[0])
    } else {
        None
    }
}

/// The identifying value of a mapping, without its key.
pub open spec fn ident_value(o: Seq<(Seq<char>, Jv)>) -> Option<Jv> {
    match find_ident(o) {
        Some(p) => Some(p.1),
        None => None,
    }
}

/// `o` with the value at the first entry keyed `k` replaced by `val`;
/// unchanged where no entry carries `k`.
pub open spec fn obj_set(o: Seq<(Seq<char>, Jv)>, k: Seq<char>, val: Jv) -> Seq<(Seq<char>, Jv)>
    decreases o.len(),
{
    if o.len() == 0 {
        o
    } else if o[0].0 == k {
        seq![(o[0].0, val)] + o.drop_first()
    } else {
        seq![o[0]] + obj_set(o.drop_first(), k, val)
    }
}

/// `o` with `val` stored under `k`: replaced in place where the key is
/// present, appended at the end where it is not.
pub open spec fn obj_put(o: Seq<(Seq<char>, Jv)>, k: Seq<char>, val: Jv) -> Seq<(Seq<char>, Jv)>
    decreases o.len(),
{
    if o.len() == 0 {
        seq![(k, val)]
    } else if o[0].0 == k {
        seq![(o[0].0, val)] + o.drop_first()
    } else {
        seq![o[0]] + obj_put(o.drop_first(), k, val)
    }
}

/// A value annotated with `suffix`: a string gets the suffix appended; a
/// mapping whose identifying value is a string gets it appended there;
/// anything else is left untouched.
pub open spec fn mark_with(v: Jv, suffix: Seq<char>) -> Jv {
    match v {
        Jv::Str(s) => Jv::Str(s + suffix),
        Jv::Obj(o) => match find_ident(o) {
            Some((k, Jv::Str(s))) => Jv::Obj(obj_set(o, k, Jv::Str(s + suffix))),
            _ => v,
        },
        _ => v,
    }
}

/// A value marked as present only on the "after" side.
pub open spec fn mark_add(v: Jv) -> Jv {
    mark_with(v, add_seq())
}

/// A value marked as present only on the "before" side.
pub open spec fn mark_del(v: Jv) -> Jv {
    mark_with(v, del_seq())
}

/// The decimal digit for a value below ten.
pub open spec fn digit_char(d: int) -> char {
    if d == 0 {
        '0'
    } else if d == 1 {
        '1'
    } else if d == 2 {
        '2'
    } else if d == 3 {
        '3'
    } else if d == 4 {
        '4'
    } else if d == 5 {
        '5'
    } else if d == 6 {
        '6'
    } else if d == 7 {
        '7'
    } else if d == 8 {
        '8'
    } else {
        '9'
    }
}

/// The decimal digits of a number, most significant first.
pub open spec fn dec_digits(n: nat) -> Seq<char>
    decreases n,
{
    if n < 10 {
        seq![digit_char(n as int)]
    } else {
        dec_digits(n / 10) + seq![digit_char((n % 10) as int)]
    }
}

/// The decimal digit of a value below ten, as a one-character string.
fn digit_str(d: u128) -> (r: &'static str)
    requires
        d < 10,
    ensures
        r@ == seq![digit_char(d as int)],
{
    proof {
        reveal_strlit("0");
        reveal_strlit("1");
        reveal_strlit("2");
        reveal_strlit("3");
        reveal_strlit("4");
        reveal_strlit("5");
        reveal_strlit("6");
        reveal_strlit("7");
        reveal_strlit("8");
        reveal_strlit("9");
    }
    match d {
        0 => "0",
        1 => "1",
        2 => "2",
        3 => "3",
        4 => "4",
        5 => "5",
        6 => "6",
        7 => "7",
        8 => "8",
        _ => "9",
    }
}

/// The decimal text of a number.
pub fn number_text(n: u128) -> (r: String)
    ensures
        r@ == dec_digits(n as nat),
    decreases n,
{
    if n < 10 {
        String::from_str(digit_str(n))
    } else {
        let mut s = number_text(n / 10);
        s.append(digit_str(n % 10));
        s
    }
}

/// A model value mirrors the constructor of the tree value it stands for.
pub proof fn lemma_model_variant(v: Json)
    ensures
        (v is Null) == (v.model() is Null),
        (v is Bool) == (v.model() is Bool),
        (v is Num) == (v.model() is Num),
        (v is Str) == (v.model() is Str),
        (v is Arr) == (v.model() is Arr),
        (v is Obj) == (v.model() is Obj),
{
    match v {
        Json::Null => {}
        Json::Bool(_) => {}
        Json::Num(_) => {}
        Json::Str(_) => {}
        Json::Arr(_) => {}
        Json::Obj(_) => {}
    }
}

/// Replacing the value at the first entry keyed `k` is an update at that
/// entry's position.
pub proof fn lemma_obj_set_at(o: Seq<(Seq<char>, Jv)>, k: Seq<char>, val: Jv, i: int)
    requires
        0 <= i < o.len(),
        o[i].0 == k,
        forall|j: int| 0 <= j < i ==> o[j].0 != k,
    ensures
        obj_set(o, k, val) =~= o.update(i, (o[i].0, val)),
    decreases i,
{
    if i == 0 {
        assert(seq![(o[0].0, val)] + o.drop_first() =~= o.update(0, (o[0].0, val)));
    } else {
        lemma_obj_set_at(o.drop_first(), k, val, i - 1);
        assert(seq![o[0]] + o.drop_first().update(i - 1, (o[i].0, val)) =~= o.update(
            i,
            (o[i].0, val),
        ));
    }
}

/// Replacing under a key that no entry carries leaves the entries unchanged.
pub proof fn lemma_obj_set_absent(o: Seq<(Seq<char>, Jv)>, k: Seq<char>, val: Jv)
    requires
        forall|j: int| 0 <= j < o.len() ==> o[j].0 != k,
    ensures
        obj_set(o, k, val) =~= o,
    decreases o.len(),
{
    if o.len() > 0 {
        lemma_obj_set_absent(o.drop_first(), k, val);
        assert(seq![o[0]] + o.drop_first() =~= o);
    }
}

/// Storing under a key that some entry carries is an update at the first
/// such entry's position.
pub proof fn lemma_obj_put_at(o: Seq<(Seq<char>, Jv)>, k: Seq<char>, val: Jv, i: int)
    requires
        0 <= i < o.len(),
        o[i].0 == k,
        forall|j: int| 0 <= j < i ==> o[j].0 != k,
    ensures
        obj_put(o, k, val) =~= o.update(i, (o[i].0, val)),
    decreases i,
{
    if i == 0 {
        assert(seq![(o[0].0, val)] + o.drop_first() =~= o.update(0, (o[0].0, val)));
    } else {
        lemma_obj_put_at(o.drop_first(), k, val, i - 1);
        assert(seq![o[0]] + o.drop_first().update(i - 1, (o[i].0, val)) =~= o.update(
            i,
            (o[i].0, val),
        ));
    }
}

/// Storing under a key that no entry carries appends a new entry.
pub proof fn lemma_obj_put_absent(o: Seq<(Seq<char>, Jv)>, k: Seq<char>, val: Jv)
    requires
        forall|j: int| 0 <= j < o.len() ==> o[j].0 != k,
    ensures
        obj_put(o, k, val) =~= o + seq![(k, val)],
    decreases o.len(),
{
    if o.len() == 0 {
        assert(obj_put(o, k, val) =~= o + seq![(k, val)]);
    } else {
        lemma_obj_put_absent(o.drop_first(), k, val);
        assert(seq![o[0]] + (o.drop_first() + seq![(k, val)]) =~= o + seq![(k, val)]);
    }
}

/// A borrowed view of the value stored under `k`, at its first entry.
pub fn obj_lookup<'a>(o: &'a Vec<(String, Json)>, k: &String) -> (r: Option<&'a Json>)
    ensures
        match r {
            Some(v) => obj_get(model_obj(o@), k@) == Some(v@),
            None => obj_get(model_obj(o@), k@) is None,
        },
{
    broadcast use lemma_model_obj_len, lemma_model_obj_index;

    let ghost m = model_obj(o@);
    proof {
        lemma_model_obj_len(o@);
        assert(m.skip(0int) =~= m);
    }
    let n = o.len();
    let mut i: usize = 0;
    while i < n
        invariant
            n == o@.len(),
            i <= n,
            m == model_obj(o@),
            m.len() == n,
            obj_get(m, k@) == obj_get(m.skip(i as int), k@),
        decreases n - i,
    {
        proof {
            lemma_model_obj_index(o@, i as int);
            assert(m.skip(i as int)[0] == m[i as int]);
            assert(m.skip(i as int).drop_first() =~= m.skip(i as int + 1));
        }
        if o[i].0 == *k {
            return Some(&o[i].1);
        }
        i += 1;
    }
    proof {
        assert(m.skip(n as int) =~= Seq::empty());
    }
    None
}

/// Find the entry that identifies a mapping: the first string-valued
/// entry, else the first number-valued entry, else the first entry.
/// Returns a copy of the key and the value.
pub fn find_identifier_key_value(obj: &Vec<(String, Json)>) -> (r: Option<(String, Json)>)
    ensures
        match r {
            Some(p) => find_ident(model_obj(obj@)) == Some((p.0@, p.1@)),
            None => find_ident(model_obj(obj@)) is None,
        },
{
    broadcast use lemma_model_obj_len, lemma_model_obj_index;

    let ghost m = model_obj(obj@);
    proof {
        lemma_model_obj_len(obj@);
        assert(m.skip(0int) =~= m);
    }
    let n = obj.len();
    let mut i: usize = 0;
    while i < n
        invariant
            n == obj@.len(),
            i <= n,
            m == model_obj(obj@),
            m.len() == n,
            find_first_str(m) == find_first_str(m.skip(i as int)),
        decreases n - i,
    {
        proof {
            lemma_model_obj_index(obj@, i as int);
            assert(m.skip(i as int)[0] == m[i as int]);
            assert(m.skip(i as int).drop_first() =~= m.skip(i as int + 1));
            lemma_model_variant(obj@[i as int].1);
        }
        match &obj[i].1 {
            Json::Str(_) => {
                return Some((obj[i].0.clone(), obj[i].1.duplicate()));
            }
            _ => {}
        }
        i += 1;
    }
    proof {
        assert(m.skip(n as int) =~= Seq::empty());
    }
    proof {
        assert(m.skip(0int) =~= m);
    }
    let mut i: usize = 0;
    while i < n
        invariant
            n == obj@.len(),
            i <= n,
            m == model_obj(obj@),
            m.len() == n,
            find_first_str(m) is None,
            find_first_num(m) == find_first_num(m.skip(i as int)),
        decreases n - i,
    {
        proof {
            lemma_model_obj_index(obj@, i as int);
            assert(m.skip(i as int)[0] == m[i as int]);
            assert(m.skip(i as int).drop_first() =~= m.skip(i as int + 1));
            lemma_model_variant(obj@[i as int].1);
        }
        match &obj[i].1 {
            Json::Num(_) => {
                return Some((obj[i].0.clone(), obj[i].1.duplicate()));
            }
            _ => {}
        }
        i += 1;
    }
    proof {
        assert(m.skip(n as int) =~= Seq::empty());
    }
    if n > 0 {
        proof {
            lemma_model_obj_index(obj@, 0int);
        }
        return Some((obj[0].0.clone(), obj[0].1.duplicate()));
    }
    None
}

/// The identifying value of a mapping, without its key.
pub fn get_identifier(obj: &Vec<(String, Json)>) -> (r: Option<Json>)
    ensures
        match r {
            Some(v) => ident_value(model_obj(obj@)) == Some(v@),
            None => ident_value(model_obj(obj@)) is None,
        },
{
    match find_identifier_key_value(obj) {
        Some(p) => Some(p.1),
        None => None,
    }
}

/// Replace the value at the first entry keyed `k`, if there is one.
fn set_value(o: &mut Vec<(String, Json)>, k: &String, val: Json)
    ensures
        model_obj(final(o)@) == obj_set(model_obj(old(o)@), k@, val@),
{
    broadcast use lemma_model_obj_len, lemma_model_obj_index;

    let ghost m = model_obj(old(o)@);
    let ghost mval = val@;
    let n = o.len();
    let mut i: usize = 0;
    while i < n
        invariant
            n == o@.len(),
            i <= n,
            o@ == old(o)@,
            m == model_obj(o@),
            m.len() == n,
            forall|j: int| 0 <= j < i ==> m[j].0 != k@,
            mval == val@,
        decreases n - i,
    {
        proof {
            lemma_model_obj_index(o@, i as int);
        }
        if o[i].0 == *k {
            let key = o[i].0.clone();
            o[i] = (key, val);
            proof {
                lemma_obj_set_at(m, k@, mval, i as int);
                lemma_model_obj_len(o@);
                assert forall|j: int| 0 <= j < m.len() implies model_obj(o@)[j] == m.update(
                    i as int,
                    (m[i as int].0, mval),
                )[j] by {
                    lemma_model_obj_index(o@, j);
                    lemma_model_obj_index(old(o)@, j);
                }
                assert(model_obj(o@) =~= m.update(i as int, (m[i as int].0, mval)));
            }
            return;
        }
        i += 1;
    }
    proof {
        lemma_obj_set_absent(m, k@, mval);
    }
}

/// Store `val` under `k`: replace the first entry carrying the key, or
/// append a new entry when none does.
pub fn insert_field(o: &mut Vec<(String, Json)>, k: String, val: Json)
    ensures
        model_obj(final(o)@) == obj_put(model_obj(old(o)@), k@, val@),
{
    broadcast use lemma_model_obj_len, lemma_model_obj_index;

    let ghost m = model_obj(old(o)@);
    let ghost mkey = k@;
    let ghost mval = val@;
    let n = o.len();
    let mut i: usize = 0;
    while i < n
        invariant
            n == o@.len(),
            i <= n,
            o@ == old(o)@,
            m == model_obj(o@),
            m.len() == n,
            forall|j: int| 0 <= j < i ==> m[j].0 != mkey,
            mkey == k@,
            mval == val@,
        decreases n - i,
    {
        proof {
            lemma_model_obj_index(o@, i as int);
        }
        if o[i].0 == k {
            let key = o[i].0.clone();
            o[i] = (key, val);
            proof {
                lemma_obj_put_at(m, mkey, mval, i as int);
                lemma_model_obj_len(o@);
                assert forall|j: int| 0 <= j < m.len() implies model_obj(o@)[j] == m.update(
                    i as int,
                    (m[i as int].0, mval),
                )[j] by {
                    lemma_model_obj_index(o@, j);
                    lemma_model_obj_index(old(o)@, j);
                }
                assert(model_obj(o@) =~= m.update(i as int, (m[i as int].0, mval)));
            }
            return;
        }
        i += 1;
    }
    o.push((k, val));
    proof {
        lemma_obj_put_absent(m, mkey, mval);
        lemma_model_obj_len(o@);
        assert forall|j: int| 0 <= j < model_obj(o@).len() implies model_obj(o@)[j] == (m + seq![
            (mkey, mval),
        ])[j] by {
            lemma_model_obj_index(o@, j);
            if j < m.len() {
                lemma_model_obj_index(old(o)@, j);
            }
        }
        assert(model_obj(o@) =~= m + seq![(mkey, mval)]);
    }
}

/// Mark a value as present only on one side, appending `suffix` to it or
/// to its identifying string.
fn mark_value(value: Json, suffix: &str) -> (r: Json)
    ensures
        r@ == mark_with(value@, suffix@),
{
    match value {
        Json::Str(s) => Json::Str(s.concat(suffix)),
        Json::Obj(o) => {
            match find_identifier_key_value(&o) {
                Some((key, found)) => {
                    match found {
                        Json::Str(name) => {
                            let marked = name.concat(suffix);
                            let mut o2 = o;
                            set_value(&mut o2, &key, Json::Str(marked));
                            Json::Obj(o2)
                        }
                        other_val => {
                            proof {
                                lemma_model_variant(other_val);
                            }
                            Json::Obj(o)
                        }
                    }
                }
                None => Json::Obj(o),
            }
        }
        other => {
            proof {
                lemma_model_variant(other);
            }
            other
        }
    }
}

/// Mark a deleted value with the `[-]` suffix.
pub fn mark_deleted(value: Json) -> (r: Json)
    ensures
        r@ == mark_del(value@),
{
    mark_value(value, " [-]")
}

/// Mark an added value with the `[+]` suffix.
pub fn mark_added(value: Json) -> (r: Json)
    ensures
        r@ == mark_add(value@),
{
    mark_value(value, " [+]")
}

impl Json {
    /// A deep copy of the value.
    pub fn duplicate(&self) -> (r: Json)
        ensures
            r@ == self@,
        decreases *self,
    {
        broadcast use lemma_model_arr_len, lemma_model_arr_index, lemma_model_obj_len, lemma_model_obj_index;

        match self {
            Json::Null => Json::Null,
            Json::Bool(b) => Json::Bool(*b),
            Json::Num(s) => Json::Num(s.clone()),
            Json::Str(s) => Json::Str(s.clone()),
            Json::Arr(v) => {
                let mut out: Vec<Json> = Vec::new();
                let n = v.len();
                let mut i: usize = 0;
                while i < n
                    invariant
                        n == v@.len(),
                        i <= n,
                        out@.len() == i,
                        forall|j: int| 0 <= j < i ==> out@[j]@ == v@[j]@,
                        decreases_to!(*self => *v),
                    decreases n - i,
                {
                    proof {
                        assert(decreases_to!(*v => v@));
                        assert(decreases_to!(v@ => v@[i as int]));
                    }
                    let e = v[i].duplicate();
                    out.push(e);
                    i += 1;
                }
                proof {
                    assert(model_arr(out@) =~= model_arr(v@));
                }
                Json::Arr(out)
            }
            Json::Obj(v) => {
                let mut out: Vec<(String, Json)> = Vec::new();
                let n = v.len();
                let mut i: usize = 0;
                while i < n
                    invariant
                        n == v@.len(),
                        i <= n,
                        out@.len() == i,
                        forall|j: int| 0 <= j < i ==> out@[j].0@ == v@[j].0@ && out@[j].1@ == v@[j].1@,
                        decreases_to!(*self => *v),
                    decreases n - i,
                {
                    proof {
                        assert(decreases_to!(*v => v@));
                        assert(decreases_to!(v@ => v@[i as int]));
                        assert(decreases_to!(v@[i as int] => v@[i as int].1));
                    }
                    let e = v[i].1.duplicate();
                    let k = v[i].0.clone();
                    out.push((k, e));
                    i += 1;
                }
                proof {
                    assert(model_obj(out@) =~= model_obj(v@));
                }
                Json::Obj(out)
            }
        }
    }
}

/// Whether two values are structurally equal.
pub fn json_eq(a: &Json, b: &Json) -> (r: bool)
    ensures
        r == (a@ == b@),
    decreases *a,
{
    broadcast use lemma_model_arr_len, lemma_model_arr_index, lemma_model_obj_len, lemma_model_obj_index;

    match (a, b) {
        (Json::Null, Json::Null) => true,
        (Json::Bool(x), Json::Bool(y)) => {
            proof {
                assert(a@ == Jv::Bool(*x));
                assert(b@ == Jv::Bool(*y));
            }
            *x == *y
        }
        (Json::Num(x), Json::Num(y)) => {
            let r = *x == *y;
            proof {
                assert(a@ == Jv::Num(x@));
                assert(b@ == Jv::Num(y@));
            }
            r
        }
        (Json::Str(x), Json::Str(y)) => {
            let r = *x == *y;
            proof {
                assert(a@ == Jv::Str(x@));
                assert(b@ == Jv::Str(y@));
            }
            r
        }
        (Json::Arr(x), Json::Arr(y)) => {
            proof {
                lemma_model_arr_len(x@);
                lemma_model_arr_len(y@);
                assert(a@ == Jv::Arr(model_arr(x@)));
                assert(b@ == Jv::Arr(model_arr(y@)));
            }
            if x.len() != y.len() {
                return false;
            }
            let n = x.len();
            let mut i: usize = 0;
            while i < n
                invariant
                    n == x@.len() == y@.len(),
                    i <= n,
                    forall|j: int| 0 <= j < i ==> x@[j]@ == y@[j]@,
                    decreases_to!(*a => *x),
                    a@ == Jv::Arr(model_arr(x@)),
                    b@ == Jv::Arr(model_arr(y@)),
                decreases n - i,
            {
                proof {
                    assert(decreases_to!(*x => x@));
                    assert(decreases_to!(x@ => x@[i as int]));
                }
                if !json_eq(&x[i], &y[i]) {
                    proof {
                        lemma_model_arr_index(x@, i as int);
                        lemma_model_arr_index(y@, i as int);
                        assert(model_arr(x@)[i as int] != model_arr(y@)[i as int]);
                    }
                    return false;
                }
                i += 1;
            }
            proof {
                assert(model_arr(x@) =~= model_arr(y@));
            }
            true
        }
        (Json::Obj(x), Json::Obj(y)) => {
            proof {
                lemma_model_obj_len(x@);
                lemma_model_obj_len(y@);
                assert(a@ == Jv::Obj(model_obj(x@)));
                assert(b@ == Jv::Obj(model_obj(y@)));
            }
            if x.len() != y.len() {
                return false;
            }
            let n = x.len();
            let mut i: usize = 0;
            while i < n
                invariant
                    n == x@.len() == y@.len(),
                    i <= n,
                    forall|j: int| 0 <= j < i ==> x@[j].0@ == y@[j].0@ && x@[j].1@ == y@[j].1@,
                    decreases_to!(*a => *x),
                    a@ == Jv::Obj(model_obj(x@)),
                    b@ == Jv::Obj(model_obj(y@)),
                decreases n - i,
            {
                if x[i].0 != y[i].0 {
                    proof {
                        lemma_model_obj_index(x@, i as int);
                        lemma_model_obj_index(y@, i as int);
                        assert(model_obj(x@)[i as int] != model_obj(y@)[i as int]);
                    }
                    return false;
                }
                proof {
                    assert(decreases_to!(*x => x@));
                    assert(decreases_to!(x@ => x@[i as int]));
                    assert(decreases_to!(x@[i as int] => x@[i as int].1));
                }
                if !json_eq(&x[i].1, &y[i].1) {
                    proof {
                        lemma_model_obj_index(x@, i as int);
                        lemma_model_obj_index(y@, i as int);
                        assert(model_obj(x@)[i as int] != model_obj(y@)[i as int]);
                    }
                    return false;
                }
                i += 1;
            }
            proof {
                assert(model_obj(x@) =~= model_obj(y@));
            }
            true
        }
        _ => {
            proof {
                match a {
                    Json::Null => assert(a@ is Null),
                    Json::Bool(_) => assert(a@ is Bool),
                    Json::Num(_) => assert(a@ is Num),
                    Json::Str(_) => assert(a@ is Str),
                    Json::Arr(_) => assert(a@ is Arr),
                    Json::Obj(_) => assert(a@ is Obj),
                }
                match b {
                    Json::Null => assert(b@ is Null),
                    Json::Bool(_) => assert(b@ is Bool),
                    Json::Num(_) => assert(b@ is Num),
                    Json::Str(_) => assert(b@ is Str),
                    Json::Arr(_) => assert(b@ is Arr),
                    Json::Obj(_) => assert(b@ is Obj),
                }
            }
            false
        }
    }
}

} // verus!
