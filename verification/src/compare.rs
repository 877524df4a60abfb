//! The comparator: walks two tree values in lockstep and produces a diff
//! tree annotating additions, deletions and substitutions in place.
//!
//! Mappings are merged over the union of their keys; array elements are
//! aligned greedily by fuzzy matching of their identifying strings; a
//! mapping whose identifying field itself was renamed (similarity above
//! the threshold) is treated as the same entity with the rename written
//! as `old => new`.

use vstd::prelude::*;
use vstd::string::StringExecFns;
use crate::{Json, Jv, model_arr, model_obj};
use crate::{
    lemma_model_arr_len, lemma_model_arr_index, lemma_model_obj_len, lemma_model_obj_index,
    lemma_model_arr_snoc, lemma_model_obj_snoc, lemma_model_obj_concat,
};
use crate::value::{
    sep_seq, obj_get, obj_put, find_ident, find_first_str, find_first_num, ident_value,
    mark_add, mark_del, dec_digits,
    find_identifier_key_value, get_identifier, obj_lookup, json_eq, mark_added, mark_deleted,
    number_text, lemma_model_variant,
};
use crate::distance::{sim_num, sim_den, sim_exceeds, Similarity, string_similarity};
use crate::render::{to_text, json_text};

verus! {

/// The identifying string of an array element: present only when the
/// element is a mapping whose identifying value is a string.
pub open spec fn cand_ident(v: Jv) -> Option<Seq<char>> {
    match v {
        Jv::Obj(o) => match ident_value(o) {
            Some(Jv::Str(s)) => Some(s),
            _ => None,
        },
        _ => None,
    }
}

/// The greedy scan for the best match of `bid` among the elements of `ao`
/// from position `i` on: an unclaimed mapping element with a string
/// identifier whose similarity to `bid` exceeds the threshold and strictly
/// improves on the best seen so far (`best` at `bnum / bden`).  Returns
/// the winning index, or `best` when no candidate improves on it.
pub open spec fn best_match_from(
    bid: Seq<char>,
    ao: Seq<Jv>,
    claimed: Seq<bool>,
    i: int,
    best: int,
    bnum: int,
    bden: int,
) -> int
    decreases ao.len() - i,
{
    if i < 0 || i >= ao.len() {
        best
    } else {
        match cand_ident(ao[i]) {
            Some(aid) => {
                if !claimed[i] && sim_exceeds(bid, aid) && sim_num(bid, aid) * bden > bnum
                    * sim_den(bid, aid) {
                    best_match_from(bid, ao, claimed, i + 1, i, sim_num(bid, aid), sim_den(bid, aid))
                } else {
                    best_match_from(bid, ao, claimed, i + 1, best, bnum, bden)
                }
            }
            None => best_match_from(bid, ao, claimed, i + 1, best, bnum, bden),
        }
    }
}

/// The position of the first element of `ao` from `i` on that equals `v`,
/// or minus one.
pub open spec fn first_eq_from(ao: Seq<Jv>, v: Jv, i: int) -> int
    decreases ao.len() - i,
{
    if i < 0 || i >= ao.len() {
        -1
    } else if ao[i] == v {
        i
    } else {
        first_eq_from(ao, v, i + 1)
    }
}

/// A mapping with the synthetic `idx` field set to the counter value;
/// anything that is not a mapping is left untouched.
pub open spec fn with_idx(v: Jv, ctr: nat) -> Jv {
    match v {
        Jv::Obj(o) => Jv::Obj(obj_put(o, "idx"@, Jv::Num(dec_digits(ctr)))),
        _ => v,
    }
}

/// Whether `k` is the key the merge is told to leave out.
pub open spec fn skip_matches(skip: Option<Seq<char>>, k: Seq<char>) -> bool {
    match skip {
        Some(s) => s == k,
        None => false,
    }
}

/// One merged entry per entry of `bo` (except the skipped key, if any):
/// a key also present in `ao` with an equal value is copied, one with a
/// differing value is compared recursively, and a key absent from `ao`
/// is marked deleted.
pub open spec fn merge_before(
    bo: Seq<(Seq<char>, Jv)>,
    ao: Seq<(Seq<char>, Jv)>,
    skip: Option<Seq<char>>,
    add: bool,
) -> Seq<(Seq<char>, Jv)>
    decreases bo, 2int, 0int,
{
    if bo.len() == 0 {
        Seq::empty()
    } else {
        let k = bo[0].0;
        let bv = bo[0].1;
        let rest = merge_before(bo.drop_first(), ao, skip, add);
        if skip_matches(skip, k) {
            rest
        } else {
            let e = match obj_get(ao, k) {
                None => (k, mark_del(bv)),
                Some(av) => if bv == av {
                    (k, bv)
                } else {
                    (k, spec_compare(bv, av, add))
                },
            };
            seq![e] + rest
        }
    }
}

/// The entries of `ao` whose keys have no entry in `bo`, each marked
/// added, in their order in `ao`.
pub open spec fn after_only(bo: Seq<(Seq<char>, Jv)>, ao: Seq<(Seq<char>, Jv)>) -> Seq<
    (Seq<char>, Jv),
>
    decreases ao.len(),
{
    if ao.len() == 0 {
        Seq::empty()
    } else {
        let rest = after_only(bo, ao.drop_first());
        if obj_get(bo, ao[0].0) is Some {
            rest
        } else {
            seq![(ao[0].0, mark_add(ao[0].1))] + rest
        }
    }
}

/// The first phase of an array comparison: each element of `bo` in order
/// is either matched against the best unclaimed fuzzy candidate in `ao`
/// and compared recursively, matched exactly by value (for non-mappings),
/// or marked deleted.  Returns the produced elements, the claim state,
/// and the index counter.
pub open spec fn arr_before(
    bo: Seq<Jv>,
    ao: Seq<Jv>,
    claimed: Seq<bool>,
    ctr: nat,
    add: bool,
) -> (Seq<Jv>, Seq<bool>, nat)
    decreases bo, 2int, 0int,
{
    if bo.len() == 0 {
        (Seq::empty(), claimed, ctr)
    } else {
        let first = bo[0];
        if first is Obj {
            let bi = match cand_ident(first) {
                Some(bid) => best_match_from(bid, ao, claimed, 0, -1, 0, 1),
                None => -1,
            };
            if 0 <= bi < ao.len() {
                let merged = spec_compare(first, ao[bi], add);
                let e = if add {
                    with_idx(merged, ctr)
                } else {
                    merged
                };
                let rest = arr_before(bo.drop_first(), ao, claimed.update(bi, true), ctr + 1, add);
                (seq![e] + rest.0, rest.1, rest.2)
            } else {
                let e0 = mark_del(first);
                let e = if add {
                    with_idx(e0, ctr)
                } else {
                    e0
                };
                let rest = arr_before(bo.drop_first(), ao, claimed, ctr + 1, add);
                (seq![e] + rest.0, rest.1, rest.2)
            }
        } else {
            let fi = first_eq_from(ao, first, 0);
            if fi >= 0 {
                let rest = arr_before(bo.drop_first(), ao, claimed.update(fi, true), ctr, add);
                (seq![first] + rest.0, rest.1, rest.2)
            } else {
                let rest = arr_before(bo.drop_first(), ao, claimed, ctr, add);
                (seq![mark_del(first)] + rest.0, rest.1, rest.2)
            }
        }
    }
}

/// The second phase of an array comparison: every element of `ao` whose
/// index was never claimed is appended marked added, mappings receiving
/// the next counter values as their `idx`.
pub open spec fn arr_after(ao: Seq<Jv>, claimed: Seq<bool>, i: int, ctr: nat, add: bool) -> Seq<Jv>
    decreases ao.len() - i,
{
    if i < 0 || i >= ao.len() {
        Seq::empty()
    } else if claimed[i] {
        arr_after(ao, claimed, i + 1, ctr, add)
    } else {
        let e0 = mark_add(ao[i]);
        if add && e0 is Obj {
            seq![with_idx(e0, ctr)] + arr_after(ao, claimed, i + 1, ctr + 1, add)
        } else {
            seq![e0] + arr_after(ao, claimed, i + 1, ctr, add)
        }
    }
}

/// The difference of two tree values, as a third tree value annotated in
/// place: mappings are merged over their key union (with the renamed
/// identifier treated as the same entity), arrays are aligned by fuzzy
/// identifier matching, and differing scalars become `old => new`
/// strings.  Equal values are returned unchanged.
pub open spec fn spec_compare(b: Jv, a: Jv, add: bool) -> Jv
    decreases b, 3int, 0int,
    via spec_compare_decreases
{
    match (b, a) {
        (Jv::Obj(bo), Jv::Obj(ao)) => {
            let renamed = match (find_ident(bo), find_ident(ao)) {
                (Some((bk, Jv::Str(bs))), Some((ak, Jv::Str(asv)))) => if bk == ak && bs != asv
                    && sim_exceeds(bs, asv) {
                    Some((bk, bs, asv))
                } else {
                    None
                },
                _ => None,
            };
            match renamed {
                Some((bk, bs, asv)) => Jv::Obj(
                    seq![(bk, Jv::Str(bs + sep_seq() + asv))] + merge_before(
                        bo,
                        ao,
                        Some(bk),
                        add,
                    ) + after_only(bo, ao),
                ),
                None => Jv::Obj(merge_before(bo, ao, None, add) + after_only(bo, ao)),
            }
        }
        (Jv::Arr(bv), Jv::Arr(av)) => {
            let claimed0 = Seq::new(av.len(), |j: int| false);
            let r1 = arr_before(bv, av, claimed0, 0, add);
            Jv::Arr(r1.0 + arr_after(av, r1.1, 0, r1.2, add))
        }
        (Jv::Str(bs), Jv::Str(asv)) => {
            if bs != asv {
                Jv::Str(bs + sep_seq() + asv)
            } else {
                b
            }
        }
        _ => {
            if b == a {
                b
            } else {
                Jv::Str(to_text(b) + sep_seq() + to_text(a))
            }
        }
    }
}

/// The key the merge is told to leave out, as a ghost value.
pub open spec fn skip_view(skip: Option<&String>) -> Option<Seq<char>> {
    match skip {
        Some(s) => Some(s@),
        None => None,
    }
}

/// One merged entry per entry of `bo`, leaving out the skipped key.
fn merge_entries(
    bo: &Vec<(String, Json)>,
    ao: &Vec<(String, Json)>,
    skip: Option<&String>,
    flag: bool,
) -> (r: Vec<(String, Json)>)
    ensures
        model_obj(r@) == merge_before(model_obj(bo@), model_obj(ao@), skip_view(skip), flag),
    decreases *bo, 2int, 0int,
{
    let ghost mbo = model_obj(bo@);
    let ghost mao = model_obj(ao@);
    let ghost sk = skip_view(skip);
    let mut out: Vec<(String, Json)> = Vec::new();
    let n = bo.len();
    let mut i: usize = 0;
    proof {
        lemma_model_obj_len(bo@);
        assert(mbo.skip(0int) =~= mbo);
        assert(model_obj(out@) =~= Seq::<(Seq<char>, Jv)>::empty());
    }
    while i < n
        invariant
            n == bo@.len(),
            i <= n,
            mbo == model_obj(bo@),
            mao == model_obj(ao@),
            sk == skip_view(skip),
            mbo.len() == n,
            merge_before(mbo, mao, sk, flag) == model_obj(out@) + merge_before(
                mbo.skip(i as int),
                mao,
                sk,
                flag,
            ),
            decreases_to!(*bo => bo@),
        decreases n - i,
    {
        proof {
            lemma_model_obj_index(bo@, i as int);
            assert(mbo.skip(i as int)[0] == mbo[i as int]);
            assert(mbo.skip(i as int).drop_first() =~= mbo.skip(i as int + 1));
        }
        let key = &bo[i].0;
        let skip_this = match skip {
            Some(s) => *key == *s,
            None => false,
        };
        if !skip_this {
            let looked = obj_lookup(ao, key);
            let entry_val: Json = match looked {
                None => mark_deleted(bo[i].1.duplicate()),
                Some(av) => {
                    if json_eq(&bo[i].1, av) {
                        bo[i].1.duplicate()
                    } else {
                        proof {
                            assert(decreases_to!(bo@ => bo@[i as int]));
                            assert(decreases_to!(bo@[i as int] => bo@[i as int].1));
                        }
                        compare_json(&bo[i].1, av, Some(flag))
                    }
                }
            };
            let ghost old_out = out@;
            out.push((key.clone(), entry_val));
            proof {
                let p = out@[out@.len() - 1];
                assert(out@ == old_out.push(p));
                lemma_model_obj_snoc(old_out, p);
                assert(model_obj(out@) =~= model_obj(old_out) + seq![(p.0@, p.1.model())]);
                assert(merge_before(mbo, mao, sk, flag) == model_obj(out@) + merge_before(
                    mbo.skip(i as int + 1),
                    mao,
                    sk,
                    flag,
                ));
            }
        }
        i += 1;
    }
    proof {
        assert(mbo.skip(n as int) =~= Seq::<(Seq<char>, Jv)>::empty());
        assert(model_obj(out@) + Seq::<(Seq<char>, Jv)>::empty() =~= model_obj(out@));
    }
    out
}

/// The entries of `ao` whose keys have no entry in `bo`, marked added.
fn added_entries(bo: &Vec<(String, Json)>, ao: &Vec<(String, Json)>) -> (r: Vec<(String, Json)>)
    ensures
        model_obj(r@) == after_only(model_obj(bo@), model_obj(ao@)),
{
    let ghost mbo = model_obj(bo@);
    let ghost mao = model_obj(ao@);
    let mut out: Vec<(String, Json)> = Vec::new();
    let n = ao.len();
    let mut i: usize = 0;
    proof {
        lemma_model_obj_len(ao@);
        assert(mao.skip(0int) =~= mao);
        assert(model_obj(out@) =~= Seq::<(Seq<char>, Jv)>::empty());
    }
    while i < n
        invariant
            n == ao@.len(),
            i <= n,
            mbo == model_obj(bo@),
            mao == model_obj(ao@),
            mao.len() == n,
            after_only(mbo, mao) == model_obj(out@) + after_only(mbo, mao.skip(i as int)),
        decreases n - i,
    {
        proof {
            lemma_model_obj_index(ao@, i as int);
            assert(mao.skip(i as int)[0] == mao[i as int]);
            assert(mao.skip(i as int).drop_first() =~= mao.skip(i as int + 1));
        }
        let key = &ao[i].0;
        let looked = obj_lookup(bo, key);
        match looked {
            Some(_) => {}
            None => {
                let marked = mark_added(ao[i].1.duplicate());
                let ghost old_out = out@;
                out.push((key.clone(), marked));
                proof {
                    let p = out@[out@.len() - 1];
                    assert(out@ == old_out.push(p));
                    lemma_model_obj_snoc(old_out, p);
                    assert(model_obj(out@) =~= model_obj(old_out) + seq![(p.0@, p.1.model())]);
                }
            }
        }
        proof {
            assert(after_only(mbo, mao) == model_obj(out@) + after_only(
                mbo,
                mao.skip(i as int + 1),
            ));
        }
        i += 1;
    }
    proof {
        assert(mao.skip(n as int) =~= Seq::<(Seq<char>, Jv)>::empty());
        assert(model_obj(out@) + Seq::<(Seq<char>, Jv)>::empty() =~= model_obj(out@));
    }
    out
}

/// Attach the synthetic `idx` field to a mapping; leave anything else
/// untouched.
fn attach_idx(v: Json, ctr: u128) -> (r: Json)
    ensures
        r@ == with_idx(v@, ctr as nat),
{
    match v {
        Json::Obj(mut o) => {
            crate::value::insert_field(&mut o, String::from_str("idx"), Json::Num(number_text(ctr)));
            Json::Obj(o)
        }
        other => {
            proof {
                lemma_model_variant(other);
            }
            other
        }
    }
}

/// Compare two arrays: align elements greedily by identifier similarity,
/// match non-mappings by exact value, mark the rest deleted or added, and
/// number the produced mappings when asked to.
#[verifier::rlimit(50)]
fn arr_compare(bv: &Vec<Json>, av: &Vec<Json>, flag: bool) -> (r: Vec<Json>)
    ensures
        model_arr(r@) == ({
            let c0 = Seq::new(model_arr(av@).len(), |j: int| false);
            let r1 = arr_before(model_arr(bv@), model_arr(av@), c0, 0, flag);
            r1.0 + arr_after(model_arr(av@), r1.1, 0, r1.2, flag)
        }),
    decreases *bv, 2int, 0int,
{
    let ghost mbv = model_arr(bv@);
    let ghost mav = model_arr(av@);
    let ghost c0 = Seq::new(model_arr(av@).len(), |j: int| false);
    let bn = bv.len();
    let an = av.len();
    proof {
        lemma_model_arr_len(bv@);
        lemma_model_arr_len(av@);
    }

    let mut claimed: Vec<bool> = Vec::new();
    let mut ci: usize = 0;
    while ci < an
        invariant
            ci <= an,
            claimed@.len() == ci,
            forall|j: int| 0 <= j < ci ==> claimed@[j] == false,
        decreases an - ci,
    {
        claimed.push(false);
        ci += 1;
    }
    proof {
        assert(claimed@ =~= c0);
        assert(mbv.skip(0int) =~= mbv);
        assert(model_arr(Seq::<Json>::empty()) =~= Seq::<Jv>::empty());
    }

    let mut out: Vec<Json> = Vec::new();
    let mut ctr: u128 = 0;
    let mut i: usize = 0;
    while i < bn
        invariant
            bn == bv@.len(),
            an == av@.len(),
            i <= bn,
            mbv == model_arr(bv@),
            mav == model_arr(av@),
            mbv.len() == bn,
            mav.len() == an,
            claimed@.len() == an,
            ctr <= i,
            arr_before(mbv, mav, c0, 0nat, flag).0 == model_arr(out@) + arr_before(
                mbv.skip(i as int),
                mav,
                claimed@,
                ctr as nat,
                flag,
            ).0,
            arr_before(mbv, mav, c0, 0nat, flag).1 == arr_before(
                mbv.skip(i as int),
                mav,
                claimed@,
                ctr as nat,
                flag,
            ).1,
            arr_before(mbv, mav, c0, 0nat, flag).2 == arr_before(
                mbv.skip(i as int),
                mav,
                claimed@,
                ctr as nat,
                flag,
            ).2,
            decreases_to!(*bv => bv@),
        decreases bn - i,
    {
        proof {
            lemma_model_arr_index(bv@, i as int);
            assert(mbv.skip(i as int)[0] == mbv[i as int]);
            assert(mbv.skip(i as int).drop_first() =~= mbv.skip(i as int + 1));
        }
        let ghost g_cl = claimed@;
        let ghost g_ctr = ctr as nat;
        let ghost g_outm = model_arr(out@);
        let cur = &bv[i];
        match cur {
            Json::Obj(bobj) => {
                let bid_opt = get_identifier(bobj);
                let mut have_best = false;
                let mut best: usize = 0;
                let mut best_sim = Similarity { num: 0, den: 1 };
                match &bid_opt {
                    Some(idv) => {
                        match idv {
                            Json::Str(bid_s) => {
                                let mut j: usize = 0;
                                while j < an
                                    invariant
                                        j <= an,
                                        an == av@.len(),
                                        mav == model_arr(av@),
                                        mav.len() == an,
                                        claimed@.len() == an,
                                        have_best ==> best < an,
                                        best_match_from(bid_s@, mav, claimed@, 0, -1, 0, 1)
                                            == best_match_from(
                                            bid_s@,
                                            mav,
                                            claimed@,
                                            j as int,
                                            if have_best {
                                                best as int
                                            } else {
                                                -1
                                            },
                                            best_sim.num as int,
                                            best_sim.den as int,
                                        ),
                                    decreases an - j,
                                {
                                    proof {
                                        lemma_model_arr_index(av@, j as int);
                                    }
                                    let ghost ob: int = if have_best {
                                        best as int
                                    } else {
                                        -1
                                    };
                                    let ghost obn: int = best_sim.num as int;
                                    let ghost obd: int = best_sim.den as int;
                                    if !claimed[j] {
                                        match &av[j] {
                                            Json::Obj(aobj) => {
                                                let aid_opt = get_identifier(aobj);
                                                match aid_opt {
                                                    Some(aidv) => {
                                                        match aidv {
                                                            Json::Str(aid_s) => {
                                                                let sim = string_similarity(
                                                                    bid_s.as_str(),
                                                                    aid_s.as_str(),
                                                                );
                                                                if sim.exceeds_threshold()
                                                                    && sim.greater_than(&best_sim) {
                                                                    best = j;
                                                                    have_best = true;
                                                                    best_sim = sim;
                                                                }
                                                                proof {
                                                                    assert(cand_ident(
                                                                        mav[j as int],
                                                                    ) == Some(aid_s@));
                                                                }
                                                            }
                                                            other_id => {
                                                                proof {
                                                                    lemma_model_variant(other_id);
                                                                    assert(cand_ident(
                                                                        mav[j as int],
                                                                    ) is None);
                                                                }
                                                            }
                                                        }
                                                    }
                                                    None => {
                                                        proof {
                                                            assert(cand_ident(
                                                                mav[j as int],
                                                            ) is None);
                                                        }
                                                    }
                                                }
                                            }
                                            other_el => {
                                                proof {
                                                    lemma_model_variant(*other_el);
                                                    assert(cand_ident(mav[j as int]) is None);
                                                }
                                            }
                                        }
                                    }
                                    proof {
                                        assert(best_match_from(
                                            bid_s@,
                                            mav,
                                            claimed@,
                                            j as int,
                                            ob,
                                            obn,
                                            obd,
                                        ) == best_match_from(
                                            bid_s@,
                                            mav,
                                            claimed@,
                                            j as int + 1,
                                            if have_best {
                                                best as int
                                            } else {
                                                -1
                                            },
                                            best_sim.num as int,
                                            best_sim.den as int,
                                        ));
                                    }
                                    j += 1;
                                }
                            }
                            other_id => {
                                proof {
                                    lemma_model_variant(*other_id);
                                }
                            }
                        }
                    }
                    None => {}
                }
                let ghost spec_bi: int = match cand_ident(mbv[i as int]) {
                    Some(bid) => best_match_from(bid, mav, claimed@, 0, -1, 0, 1),
                    None => -1,
                };
                proof {
                    assert(spec_bi == if have_best {
                        best as int
                    } else {
                        -1
                    });
                }
                if have_best {
                    let ghost old_claimed = claimed@;
                    claimed[best] = true;
                    proof {
                        assert(decreases_to!(bv@ => bv@[i as int]));
                    }
                    proof {
                        lemma_model_arr_index(av@, best as int);
                    }
                    let merged = compare_json(cur, &av[best], Some(flag));
                    let final_e = if flag {
                        attach_idx(merged, ctr)
                    } else {
                        merged
                    };
                    let ghost old_out = out@;
                    out.push(final_e);
                    ctr = ctr + 1;
                    proof {
                        let p = out@[out@.len() - 1];
                        assert(out@ == old_out.push(p));
                        lemma_model_arr_snoc(old_out, p);
                    }
                } else {
                    let deleted = mark_deleted(cur.duplicate());
                    let final_e = if flag {
                        attach_idx(deleted, ctr)
                    } else {
                        deleted
                    };
                    let ghost old_out = out@;
                    out.push(final_e);
                    ctr = ctr + 1;
                    proof {
                        let p = out@[out@.len() - 1];
                        assert(out@ == old_out.push(p));
                        lemma_model_arr_snoc(old_out, p);
                    }
                }
            }
            _ => {
                proof {
                    lemma_model_variant(*cur);
                }
                let ghost mcur = mbv[i as int];
                let mut found = false;
                let mut fidx: usize = 0;
                let mut fj: usize = 0;
                while fj < an
                    invariant
                        fj <= an,
                        an == av@.len(),
                        mav == model_arr(av@),
                        mav.len() == an,
                        mcur == cur@,
                        found ==> fidx < an,
                        first_eq_from(mav, mcur, 0) == if found {
                            fidx as int
                        } else {
                            first_eq_from(mav, mcur, fj as int)
                        },
                        found ==> mav[fidx as int] == mcur,
                    decreases an - fj,
                {
                    proof {
                        lemma_model_arr_index(av@, fj as int);
                    }
                    if !found {
                        if json_eq(cur, &av[fj]) {
                            found = true;
                            fidx = fj;
                        }
                    }
                    fj += 1;
                }
                proof {
                    assert(first_eq_from(mav, mcur, an as int) == -1);
                }
                if found {
                    let ghost old_claimed = claimed@;
                    claimed[fidx] = true;
                    let ghost old_out = out@;
                    out.push(cur.duplicate());
                    proof {
                        let p = out@[out@.len() - 1];
                        assert(out@ == old_out.push(p));
                        lemma_model_arr_snoc(old_out, p);
                    }
                } else {
                    let ghost old_out = out@;
                    out.push(mark_deleted(cur.duplicate()));
                    proof {
                        let p = out@[out@.len() - 1];
                        assert(out@ == old_out.push(p));
                        lemma_model_arr_snoc(old_out, p);
                    }
                }
            }
        }
        proof {
            lemma_model_arr_len(out@);
            lemma_model_arr_index(out@, out@.len() - 1);
            let pm = model_arr(out@)[model_arr(out@).len() - 1];
            let rest = arr_before(mbv.skip(i as int + 1), mav, claimed@, ctr as nat, flag);
            assert(arr_before(mbv.skip(i as int), mav, g_cl, g_ctr, flag).0 == seq![pm] + rest.0);
            assert(arr_before(mbv.skip(i as int), mav, g_cl, g_ctr, flag).1 == rest.1);
            assert(arr_before(mbv.skip(i as int), mav, g_cl, g_ctr, flag).2 == rest.2);
            assert(model_arr(out@) =~= g_outm + seq![pm]);
            assert(model_arr(out@) + rest.0 =~= g_outm + (seq![pm] + rest.0));
        }
        i += 1;
    }

    proof {
        assert(mbv.skip(bn as int) =~= Seq::<Jv>::empty());
        assert(model_arr(out@) + Seq::<Jv>::empty() =~= model_arr(out@));
    }
    let ghost cl_fin = claimed@;
    let ghost ctr_fin = ctr as nat;
    let ghost phase1 = model_arr(out@);
    let mut j: usize = 0;
    while j < an
        invariant
            j <= an,
            bn == bv@.len(),
            an == av@.len(),
            mav == model_arr(av@),
            mav.len() == an,
            claimed@ == cl_fin,
            cl_fin.len() == an,
            ctr <= bn + j,
            phase1 + arr_after(mav, cl_fin, 0, ctr_fin, flag) == model_arr(out@) + arr_after(
                mav,
                cl_fin,
                j as int,
                ctr as nat,
                flag,
            ),
        decreases an - j,
    {
        proof {
            lemma_model_arr_index(av@, j as int);
        }
        if !claimed[j] {
            let marked = mark_added(av[j].duplicate());
            let final_e = if flag {
                match marked {
                    Json::Obj(mut mo) => {
                        crate::value::insert_field(
                            &mut mo,
                            String::from_str("idx"),
                            Json::Num(number_text(ctr)),
                        );
                        ctr = ctr + 1;
                        Json::Obj(mo)
                    }
                    other_m => {
                        proof {
                            lemma_model_variant(other_m);
                        }
                        other_m
                    }
                }
            } else {
                marked
            };
            let ghost old_out = out@;
            out.push(final_e);
            proof {
                let p = out@[out@.len() - 1];
                assert(out@ == old_out.push(p));
                lemma_model_arr_snoc(old_out, p);
            }
        }
        j += 1;
    }
    proof {
        assert(arr_after(mav, cl_fin, an as int, ctr as nat, flag) == Seq::<Jv>::empty());
        assert(model_arr(out@) + Seq::<Jv>::empty() =~= model_arr(out@));
    }
    out
}

/// The difference of two tree values, as a third tree value annotated in
/// place.  Pass `Some(true)` to number the mappings placed into compared
/// arrays with a synthetic `idx` field.
pub fn compare_json(before: &Json, after: &Json, add_idx: Option<bool>) -> (r: Json)
    ensures
        r@ == spec_compare(
            before@,
            after@,
            match add_idx {
                Some(b) => b,
                None => false,
            },
        ),
    decreases *before, 3int, 0int,
{
    let flag = match add_idx {
        Some(b) => b,
        None => false,
    };
    match (before, after) {
        (Json::Obj(bo), Json::Obj(ao)) => {
            proof {
                assert(decreases_to!(*before => *bo));
            }
            let bi = find_identifier_key_value(bo);
            let ai = find_identifier_key_value(ao);
            proof {
                match &bi {
                    Some(p) => lemma_model_variant(p.1),
                    None => (),
                }
                match &ai {
                    Some(p) => lemma_model_variant(p.1),
                    None => (),
                }
            }
            let mut renamed: Option<(String, String, String)> = None;
            match (&bi, &ai) {
                (Some(bp), Some(ap)) => {
                    match (&bp.1, &ap.1) {
                        (Json::Str(bs), Json::Str(asv)) => {
                            if bp.0 == ap.0 && !(*bs == *asv) {
                                let sim = string_similarity(bs.as_str(), asv.as_str());
                                if sim.exceeds_threshold() {
                                    renamed = Some((bp.0.clone(), bs.clone(), asv.clone()));
                                }
                            }
                        }
                        _ => {}
                    }
                }
                _ => {}
            }
            match renamed {
                Some((bk, bs, asv)) => {
                    let mut out: Vec<(String, Json)> = Vec::new();
                    let joined = bs.concat(" => ").concat(asv.as_str());
                    out.push((bk.clone(), Json::Str(joined)));
                    let ghost first_entry = out@;
                    let mut merged = merge_entries(bo, ao, Some(&bk), flag);
                    let ghost merged_seq = merged@;
                    let ghost merged_m = model_obj(merged@);
                    let mut added = added_entries(bo, ao);
                    let ghost added_seq = added@;
                    let ghost added_m = model_obj(added@);
                    proof {
                        lemma_model_obj_snoc(Seq::empty(), first_entry[0]);
                        assert(model_obj(Seq::<(String, Json)>::empty())
                            == Seq::<(Seq<char>, Jv)>::empty());
                        assert(first_entry == Seq::<(String, Json)>::empty().push(first_entry[0]));
                    }
                    out.append(&mut merged);
                    proof {
                        lemma_model_obj_concat(first_entry, merged_seq);
                    }
                    let ghost before_append2 = out@;
                    out.append(&mut added);
                    proof {
                        lemma_model_obj_concat(before_append2, added_seq);
                        assert(model_obj(out@) =~= (model_obj(first_entry) + merged_m) + added_m);
                    }
                    Json::Obj(out)
                }
                None => {
                    let mut out = merge_entries(bo, ao, None, flag);
                    let ghost merged_m = model_obj(out@);
                    let ghost before_append = out@;
                    let mut added = added_entries(bo, ao);
                    let ghost added_seq = added@;
                    let ghost added_m = model_obj(added@);
                    out.append(&mut added);
                    proof {
                        lemma_model_obj_concat(before_append, added_seq);
                        assert(model_obj(out@) =~= merged_m + added_m);
                    }
                    Json::Obj(out)
                }
            }
        }
        (Json::Arr(bv), Json::Arr(av)) => {
            proof {
                assert(decreases_to!(*before => *bv));
            }
            Json::Arr(arr_compare(bv, av, flag))
        }
        (Json::Str(bs), Json::Str(asv)) => {
            if *bs == *asv {
                before.duplicate()
            } else {
                Json::Str(bs.clone().concat(" => ").concat(asv.as_str()))
            }
        }
        _ => {
            proof {
                lemma_model_variant(*before);
                lemma_model_variant(*after);
            }
            if json_eq(before, after) {
                before.duplicate()
            } else {
                let bt = json_text(before);
                let at = json_text(after);
                Json::Str(bt.concat(" => ").concat(at.as_str()))
            }
        }
    }
}

/// The number of unclaimed positions from `i` on.
pub open spec fn count_unclaimed(claimed: Seq<bool>, i: int) -> int
    decreases claimed.len() - i,
{
    if i < 0 || i >= claimed.len() {
        0
    } else {
        (if claimed[i] {
            0int
        } else {
            1int
        }) + count_unclaimed(claimed, i + 1)
    }
}

/// The exact-value scan returns minus one or an index in range.
pub proof fn lemma_first_eq_range(ao: Seq<Jv>, v: Jv, i: int)
    ensures
        first_eq_from(ao, v, i) == -1 || i <= first_eq_from(ao, v, i) < ao.len(),
    decreases ao.len() - i,
{
    if 0 <= i < ao.len() {
        if ao[i] != v {
            lemma_first_eq_range(ao, v, i + 1);
        }
    }
}

/// The first phase produces exactly one output element per "before"
/// element, and keeps the claim vector's length.
pub proof fn lemma_arr_before_len(bo: Seq<Jv>, ao: Seq<Jv>, claimed: Seq<bool>, ctr: nat, add: bool)
    requires
        claimed.len() == ao.len(),
    ensures
        arr_before(bo, ao, claimed, ctr, add).0.len() == bo.len(),
        arr_before(bo, ao, claimed, ctr, add).1.len() == claimed.len(),
    decreases bo.len(),
{
    if bo.len() > 0 {
        let first = bo[0];
        if first is Obj {
            let bi = match cand_ident(first) {
                Some(bid) => best_match_from(bid, ao, claimed, 0, -1, 0, 1),
                None => -1,
            };
            if 0 <= bi < ao.len() {
                lemma_arr_before_len(bo.drop_first(), ao, claimed.update(bi, true), ctr + 1, add);
            } else {
                lemma_arr_before_len(bo.drop_first(), ao, claimed, ctr + 1, add);
            }
        } else {
            let fi = first_eq_from(ao, first, 0);
            lemma_first_eq_range(ao, first, 0);
            if fi >= 0 {
                lemma_arr_before_len(bo.drop_first(), ao, claimed.update(fi, true), ctr, add);
            } else {
                lemma_arr_before_len(bo.drop_first(), ao, claimed, ctr, add);
            }
        }
    }
}

/// The second phase produces exactly one output element per unclaimed
/// position.
pub proof fn lemma_arr_after_len(ao: Seq<Jv>, claimed: Seq<bool>, i: int, ctr: nat, add: bool)
    requires
        claimed.len() == ao.len(),
    ensures
        arr_after(ao, claimed, i, ctr, add).len() == count_unclaimed(claimed, i),
    decreases ao.len() - i,
{
    if 0 <= i < ao.len() {
        if claimed[i] {
            lemma_arr_after_len(ao, claimed, i + 1, ctr, add);
        } else {
            let e0 = mark_add(ao[i]);
            if add && e0 is Obj {
                lemma_arr_after_len(ao, claimed, i + 1, ctr + 1, add);
            } else {
                lemma_arr_after_len(ao, claimed, i + 1, ctr, add);
            }
        }
    }
}

/// Array coverage: comparing two arrays accounts for every element
/// exactly once.  The output holds one element per "before" element plus
/// one per "after" element that no "before" element claimed.
pub proof fn lemma_array_coverage(bo: Seq<Jv>, ao: Seq<Jv>, add: bool)
    ensures
        spec_compare(Jv::Arr(bo), Jv::Arr(ao), add) is Arr,
        ({
            let c0 = Seq::new(ao.len(), |j: int| false);
            let r1 = arr_before(bo, ao, c0, 0, add);
            spec_compare(Jv::Arr(bo), Jv::Arr(ao), add)->Arr_0.len() == bo.len()
                + count_unclaimed(r1.1, 0)
        }),
{
    let c0 = Seq::new(ao.len(), |j: int| false);
    let r1 = arr_before(bo, ao, c0, 0, add);
    lemma_arr_before_len(bo, ao, c0, 0, add);
    lemma_arr_after_len(ao, r1.1, 0, r1.2, add);
}

/// The set of keys of a mapping's entries.
pub open spec fn key_set(o: Seq<(Seq<char>, Jv)>) -> Set<Seq<char>> {
    Set::new(|k: Seq<char>| exists|i: int| 0 <= i < o.len() && o[i].0 == k)
}

/// Membership in a mapping's key set, one entry at a time.
pub proof fn lemma_key_set_unfold(o: Seq<(Seq<char>, Jv)>, k: Seq<char>)
    requires
        o.len() > 0,
    ensures
        key_set(o).contains(k) == (o[0].0 == k || key_set(o.drop_first()).contains(k)),
{
    if key_set(o).contains(k) {
        let i = choose|i: int| 0 <= i < o.len() && o[i].0 == k;
        if i != 0 {
            assert(o.drop_first()[i - 1] == o[i]);
            assert(key_set(o.drop_first()).contains(k));
        }
    }
    if o[0].0 == k {
        assert(key_set(o).contains(k));
    }
    if key_set(o.drop_first()).contains(k) {
        let i = choose|i: int| 0 <= i < o.drop_first().len() && o.drop_first()[i].0 == k;
        assert(o[i + 1] == o.drop_first()[i]);
        assert(key_set(o).contains(k));
    }
}

/// A key is found exactly when some entry carries it.
pub proof fn lemma_obj_get_key(o: Seq<(Seq<char>, Jv)>, k: Seq<char>)
    ensures
        (obj_get(o, k) is Some) == key_set(o).contains(k),
    decreases o.len(),
{
    if o.len() == 0 {
        assert(!key_set(o).contains(k));
    } else {
        lemma_obj_get_key(o.drop_first(), k);
        lemma_key_set_unfold(o, k);
    }
}

/// Membership in the key set of a concatenation.
pub proof fn lemma_key_set_concat(x: Seq<(Seq<char>, Jv)>, y: Seq<(Seq<char>, Jv)>, k: Seq<char>)
    ensures
        key_set(x + y).contains(k) == (key_set(x).contains(k) || key_set(y).contains(k)),
    decreases x.len(),
{
    if x.len() == 0 {
        assert(x + y =~= y);
        assert(!key_set(x).contains(k));
    } else {
        assert((x + y).drop_first() =~= x.drop_first() + y);
        assert((x + y)[0] == x[0]);
        lemma_key_set_concat(x.drop_first(), y, k);
        lemma_key_set_unfold(x + y, k);
        lemma_key_set_unfold(x, k);
    }
}

/// The merged entries carry exactly the non-skipped keys of the
/// "before" side.
pub proof fn lemma_merge_keys(
    bo: Seq<(Seq<char>, Jv)>,
    ao: Seq<(Seq<char>, Jv)>,
    skip: Option<Seq<char>>,
    add: bool,
    k: Seq<char>,
)
    ensures
        key_set(merge_before(bo, ao, skip, add)).contains(k) == (key_set(bo).contains(k)
            && !skip_matches(skip, k)),
    decreases bo.len(),
{
    if bo.len() == 0 {
        assert(!key_set(bo).contains(k));
        assert(!key_set(merge_before(bo, ao, skip, add)).contains(k));
    } else {
        lemma_merge_keys(bo.drop_first(), ao, skip, add, k);
        lemma_key_set_unfold(bo, k);
        let rest = merge_before(bo.drop_first(), ao, skip, add);
        if skip_matches(skip, bo[0].0) {
            assert(merge_before(bo, ao, skip, add) == rest);
        } else {
            let merged = merge_before(bo, ao, skip, add);
            assert(merged.len() > 0);
            assert(merged[0].0 == bo[0].0);
            assert(merged.drop_first() =~= rest);
            lemma_key_set_unfold(merged, k);
        }
    }
}

/// The appended entries carry exactly the keys of the "after" side that
/// the "before" side lacks.
pub proof fn lemma_after_only_keys(
    bo: Seq<(Seq<char>, Jv)>,
    ao: Seq<(Seq<char>, Jv)>,
    k: Seq<char>,
)
    ensures
        key_set(after_only(bo, ao)).contains(k) == (key_set(ao).contains(k) && obj_get(
            bo,
            k,
        ) is None),
    decreases ao.len(),
{
    if ao.len() == 0 {
        assert(!key_set(ao).contains(k));
        assert(!key_set(after_only(bo, ao)).contains(k));
    } else {
        lemma_after_only_keys(bo, ao.drop_first(), k);
        lemma_key_set_unfold(ao, k);
        let rest = after_only(bo, ao.drop_first());
        if obj_get(bo, ao[0].0) is Some {
            assert(after_only(bo, ao) == rest);
            if k == ao[0].0 {
                assert(!(obj_get(bo, k) is None));
            }
        } else {
            let whole = after_only(bo, ao);
            assert(whole.len() > 0);
            assert(whole[0].0 == ao[0].0);
            assert(whole.drop_first() =~= rest);
            lemma_key_set_unfold(whole, k);
        }
    }
}

/// The key of an entry pair.
pub open spec fn pair_key(p: (Seq<char>, Jv)) -> Seq<char> {
    p.0
}

/// The first string-valued entry's key is a key of the mapping.
proof fn lemma_find_first_str_in(o: Seq<(Seq<char>, Jv)>)
    requires
        find_first_str(o) is Some,
    ensures
        key_set(o).contains(pair_key(find_first_str(o)->0)),
    decreases o.len(),
{
    if o[0].1 is Str {
        assert(key_set(o).contains(o[0].0));
    } else {
        lemma_find_first_str_in(o.drop_first());
        lemma_key_set_unfold(o, pair_key(find_first_str(o)->0));
    }
}

/// The first number-valued entry's key is a key of the mapping.
proof fn lemma_find_first_num_in(o: Seq<(Seq<char>, Jv)>)
    requires
        find_first_num(o) is Some,
    ensures
        key_set(o).contains(pair_key(find_first_num(o)->0)),
    decreases o.len(),
{
    if o[0].1 is Num {
        assert(key_set(o).contains(o[0].0));
    } else {
        lemma_find_first_num_in(o.drop_first());
        lemma_key_set_unfold(o, pair_key(find_first_num(o)->0));
    }
}

/// The identifying entry's key is a key of the mapping.
pub proof fn lemma_find_ident_in(o: Seq<(Seq<char>, Jv)>)
    requires
        find_ident(o) is Some,
    ensures
        key_set(o).contains(pair_key(find_ident(o)->0)),
{
    if find_first_str(o) is Some {
        lemma_find_first_str_in(o);
    } else if find_first_num(o) is Some {
        lemma_find_first_num_in(o);
    } else {
        assert(key_set(o).contains(o[0].0));
    }
}

/// Key coverage: comparing two mappings yields a mapping whose key set
/// is exactly the union of the two input key sets.
pub proof fn lemma_key_coverage(bo: Seq<(Seq<char>, Jv)>, ao: Seq<(Seq<char>, Jv)>, add: bool)
    ensures
        spec_compare(Jv::Obj(bo), Jv::Obj(ao), add) is Obj,
        key_set(spec_compare(Jv::Obj(bo), Jv::Obj(ao), add)->Obj_0) =~= key_set(bo).union(
            key_set(ao),
        ),
{
    let renamed = match (find_ident(bo), find_ident(ao)) {
        (Some((bk, Jv::Str(bs))), Some((ak, Jv::Str(asv)))) => if bk == ak && bs != asv
            && sim_exceeds(bs, asv) {
            Some((bk, bs, asv))
        } else {
            None
        },
        _ => None,
    };
    match renamed {
        Some((bk, bs, asv)) => {
            lemma_find_ident_in(bo);
            let head = seq![(bk, Jv::Str(bs + sep_seq() + asv))];
            let mid = merge_before(bo, ao, Some(bk), add);
            let tail = after_only(bo, ao);
            assert forall|k: Seq<char>|
                key_set((head + mid) + tail).contains(k) == key_set(bo).union(key_set(ao)).contains(
                    k,
                ) by {
                lemma_key_set_concat(head + mid, tail, k);
                lemma_key_set_concat(head, mid, k);
                lemma_merge_keys(bo, ao, Some(bk), add, k);
                lemma_after_only_keys(bo, ao, k);
                lemma_obj_get_key(bo, k);
                lemma_key_set_unfold(head, k);
                assert(head[0].0 == bk);
            }
            assert(key_set((head + mid) + tail) =~= key_set(bo).union(key_set(ao)));
        }
        None => {
            let mid = merge_before(bo, ao, None, add);
            let tail = after_only(bo, ao);
            assert forall|k: Seq<char>|
                key_set(mid + tail).contains(k) == key_set(bo).union(key_set(ao)).contains(k) by {
                lemma_key_set_concat(mid, tail, k);
                lemma_merge_keys(bo, ao, None, add, k);
                lemma_after_only_keys(bo, ao, k);
                lemma_obj_get_key(bo, k);
            }
            assert(key_set(mid + tail) =~= key_set(bo).union(key_set(ao)));
        }
    }
}

/// The conditions under which comparing a value against itself
/// reproduces it exactly: mappings carry no duplicate keys, every
/// mapping inside an array has a string identifier, and no array holds
/// two equal non-mapping elements.
pub open spec fn identity_safe(v: Jv) -> bool
    decreases v, 0int,
    via identity_safe_decreases
{
    match v {
        Jv::Obj(o) => forall|i: int, j: int|
            0 <= i < j < o.len() ==> (#[trigger] o[i]).0 != (#[trigger] o[j]).0,
        Jv::Arr(els) => safe_elems(els) && (forall|i: int, j: int|
            0 <= i < j < els.len() && !((#[trigger] els[i]) is Obj) && !((#[trigger] els[j]) is Obj)
                ==> els[i] != els[j]),
        _ => true,
    }
}

/// Every mapping element of an array has a string identifier and can
/// itself be compared against itself exactly.
pub open spec fn safe_elems(els: Seq<Jv>) -> bool
    decreases els, 1int,
{
    if els.len() == 0 {
        true
    } else {
        (els[0] is Obj ==> (cand_ident(els[0]) is Some && identity_safe(els[0]))) && safe_elems(
            els.drop_first(),
        )
    }
}

#[via_fn]
proof fn identity_safe_decreases(v: Jv) {
    match v {
        Jv::Arr(els) => {
            assert(decreases_to!(v => els));
        }
        _ => {}
    }
}

proof fn lemma_safe_elems_index(els: Seq<Jv>, i: int)
    requires
        safe_elems(els),
        0 <= i < els.len(),
    ensures
        els[i] is Obj ==> (cand_ident(els[i]) is Some && identity_safe(els[i])),
    decreases els.len(),
{
    if i > 0 {
        lemma_safe_elems_index(els.drop_first(), i - 1);
    }
}

/// With no duplicate keys, lookup of an entry's key finds that entry.
proof fn lemma_obj_get_unique(o: Seq<(Seq<char>, Jv)>, i: int)
    requires
        forall|x: int, y: int| 0 <= x < y < o.len() ==> (#[trigger] o[x]).0 != (#[trigger] o[y]).0,
        0 <= i < o.len(),
    ensures
        obj_get(o, o[i].0) == Some(o[i].1),
    decreases i,
{
    if i > 0 {
        assert(o[0].0 != o[i].0);
        assert(forall|x: int, y: int|
            0 <= x < y < o.drop_first().len() ==> (#[trigger] o.drop_first()[x]).0 != (
            #[trigger] o.drop_first()[y]).0) by {
            assert(forall|x: int|
                0 <= x < o.drop_first().len() ==> #[trigger] o.drop_first()[x] == o[x + 1]);
        }
        lemma_obj_get_unique(o.drop_first(), i - 1);
    }
}

/// Merging entries that all look up to their own values reproduces them.
proof fn lemma_merge_identity(bo: Seq<(Seq<char>, Jv)>, ao: Seq<(Seq<char>, Jv)>, add: bool)
    requires
        forall|i: int| 0 <= i < bo.len() ==> obj_get(ao, (#[trigger] bo[i]).0) == Some(bo[i].1),
    ensures
        merge_before(bo, ao, None, add) == bo,
    decreases bo.len(),
{
    if bo.len() > 0 {
        assert(forall|i: int|
            0 <= i < bo.drop_first().len() ==> #[trigger] bo.drop_first()[i] == bo[i + 1]);
        lemma_merge_identity(bo.drop_first(), ao, add);
        assert(obj_get(ao, bo[0].0) == Some(bo[0].1));
        assert((bo[0].0, bo[0].1) == bo[0]);
        assert(seq![bo[0]] + bo.drop_first() =~= bo);
    }
}

/// When every "after" key is present on the "before" side, nothing is
/// appended.
proof fn lemma_after_only_identity(bo: Seq<(Seq<char>, Jv)>, ao: Seq<(Seq<char>, Jv)>)
    requires
        forall|i: int| 0 <= i < ao.len() ==> obj_get(bo, (#[trigger] ao[i]).0) is Some,
    ensures
        after_only(bo, ao) == Seq::<(Seq<char>, Jv)>::empty(),
    decreases ao.len(),
{
    if ao.len() > 0 {
        assert(forall|i: int|
            0 <= i < ao.drop_first().len() ==> #[trigger] ao.drop_first()[i] == ao[i + 1]);
        lemma_after_only_identity(bo, ao.drop_first());
    }
}

/// Once an element has claimed itself with similarity one, no later
/// candidate can strictly improve on it.
proof fn lemma_best_no_improve(bid: Seq<char>, ao: Seq<Jv>, claimed: Seq<bool>, j: int, k: int)
    requires
        0 <= k,
    ensures
        best_match_from(bid, ao, claimed, j, k, 1, 1) == k,
    decreases ao.len() - j,
{
    if 0 <= j < ao.len() {
        match cand_ident(ao[j]) {
            Some(aid) => {
                crate::distance::lemma_similarity_bounds(bid, aid);
                assert(!(sim_num(bid, aid) * 1 > 1 * sim_den(bid, aid)));
                lemma_best_no_improve(bid, ao, claimed, j + 1, k);
            }
            None => {
                lemma_best_no_improve(bid, ao, claimed, j + 1, k);
            }
        }
    }
}

/// Scanning with every earlier index claimed, an element whose
/// identifier equals the probe claims itself.
proof fn lemma_best_scan_self(bid: Seq<char>, ao: Seq<Jv>, claimed: Seq<bool>, j: int, k: int)
    requires
        0 <= j <= k < ao.len(),
        claimed.len() == ao.len(),
        forall|x: int| j <= x < k ==> claimed[x],
        !claimed[k],
        cand_ident(ao[k]) == Some(bid),
    ensures
        best_match_from(bid, ao, claimed, j, -1, 0, 1) == k,
    decreases ao.len() - j,
{
    crate::distance::lemma_similarity_bounds(bid, bid);
    if j < k {
        lemma_best_scan_self(bid, ao, claimed, j + 1, k);
    } else {
        assert(sim_exceeds(bid, bid));
        assert(sim_num(bid, bid) * 1 > 0 * sim_den(bid, bid));
        lemma_best_no_improve(bid, ao, claimed, k + 1, k);
    }
}

/// A non-mapping element with no equal twin matches exactly itself.
proof fn lemma_first_eq_self(els: Seq<Jv>, k: int, j: int)
    requires
        0 <= j <= k < els.len(),
        !(els[k] is Obj),
        forall|x: int, y: int|
            0 <= x < y < els.len() && !((#[trigger] els[x]) is Obj) && !((#[trigger] els[y]) is Obj)
                ==> els[x] != els[y],
    ensures
        first_eq_from(els, els[k], j) == k,
    decreases els.len() - j,
{
    if j < k {
        if els[j] is Obj {
            assert(els[j] != els[k]);
        } else {
            assert(els[j] != els[k]);
        }
        lemma_first_eq_self(els, k, j + 1);
    }
}

/// With every index claimed, the second phase appends nothing.
proof fn lemma_arr_after_all_claimed(ao: Seq<Jv>, claimed: Seq<bool>, i: int, ctr: nat, add: bool)
    requires
        claimed.len() == ao.len(),
        forall|x: int| 0 <= x < claimed.len() ==> claimed[x],
    ensures
        arr_after(ao, claimed, i, ctr, add) == Seq::<Jv>::empty(),
    decreases ao.len() - i,
{
    if 0 <= i < ao.len() {
        lemma_arr_after_all_claimed(ao, claimed, i + 1, ctr, add);
    }
}

/// Comparing the tail of an array against the whole array, with exactly
/// the earlier indices claimed, reproduces the tail and claims
/// everything.
proof fn lemma_arr_before_identity(els: Seq<Jv>, k: int, ctr: nat)
    requires
        0 <= k <= els.len(),
        safe_elems(els),
        forall|x: int, y: int|
            0 <= x < y < els.len() && !((#[trigger] els[x]) is Obj) && !((#[trigger] els[y]) is Obj)
                ==> els[x] != els[y],
    ensures
        arr_before(els.skip(k), els, Seq::new(els.len(), |j: int| j < k), ctr, false).0 == els.skip(
            k,
        ),
        arr_before(els.skip(k), els, Seq::new(els.len(), |j: int| j < k), ctr, false).1 == Seq::new(
            els.len(),
            |j: int| true,
        ),
    decreases els, 1int, els.len() - k,
{
    let claimed = Seq::new(els.len(), |j: int| j < k);
    let tail = els.skip(k);
    if k == els.len() {
        assert(tail =~= Seq::<Jv>::empty());
        assert(claimed =~= Seq::new(els.len(), |j: int| true));
    } else {
        assert(tail[0] == els[k]);
        assert(tail.drop_first() =~= els.skip(k + 1));
        lemma_safe_elems_index(els, k);
        assert(decreases_to!(els => els[k]));
        if els[k] is Obj {
            let bid = cand_ident(els[k])->0;
            lemma_best_scan_self(bid, els, claimed, 0, k);
            assert(best_match_from(bid, els, claimed, 0, -1, 0, 1) == k);
            lemma_compare_identity(els[k]);
            assert(spec_compare(els[k], els[k], false) == els[k]);
            assert(claimed.update(k, true) =~= Seq::new(els.len(), |j: int| j < k + 1));
            lemma_arr_before_identity(els, k + 1, ctr + 1);
            assert(seq![els[k]] + els.skip(k + 1) =~= tail);
        } else {
            lemma_first_eq_self(els, k, 0);
            assert(first_eq_from(els, els[k], 0) == k);
            assert(claimed.update(k, true) =~= Seq::new(els.len(), |j: int| j < k + 1));
            lemma_arr_before_identity(els, k + 1, ctr);
            assert(seq![els[k]] + els.skip(k + 1) =~= tail);
        }
    }
}

/// Identity: comparing a value against itself reproduces it exactly,
/// with no markers anywhere, for values whose mappings carry no
/// duplicate keys, whose array mappings carry string identifiers, and
/// whose arrays hold no two equal non-mapping elements.  (Indexing is
/// off: a synthetic `idx` field would change matched mappings.)
pub proof fn lemma_compare_identity(v: Jv)
    requires
        identity_safe(v),
    ensures
        spec_compare(v, v, false) == v,
    decreases v, 0int, 0int,
{
    match v {
        Jv::Obj(o) => {
            assert forall|i: int| 0 <= i < o.len() implies obj_get(o, (#[trigger] o[i]).0) == Some(
                o[i].1,
            ) by {
                lemma_obj_get_unique(o, i);
            }
            lemma_merge_identity(o, o, false);
            lemma_after_only_identity(o, o);
            assert(merge_before(o, o, None, false) + after_only(o, o) =~= o);
        }
        Jv::Arr(els) => {
            assert(els.skip(0) =~= els);
            assert(Seq::new(els.len(), |j: int| j < 0) =~= Seq::new(els.len(), |j: int| false));
            lemma_arr_before_identity(els, 0, 0);
            let c0 = Seq::new(els.len(), |j: int| false);
            let r1 = arr_before(els, els, c0, 0, false);
            lemma_arr_after_all_claimed(els, r1.1, 0, r1.2, false);
            assert(r1.0 + arr_after(els, r1.1, 0, r1.2, false) =~= els);
        }
        _ => {}
    }
}

#[via_fn]
proof fn spec_compare_decreases(b: Jv, a: Jv, add: bool) {
    match (b, a) {
        (Jv::Obj(bo), Jv::Obj(ao)) => {
            assert(decreases_to!(b => bo));
        }
        (Jv::Arr(bv), Jv::Arr(av)) => {
            assert(decreases_to!(b => bv));
        }
        _ => {}
    }
}

} // verus!
