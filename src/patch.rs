//! Generation of RFC 7386 merge patches.
use vstd::prelude::*;

use crate::value::{
    find_key, has_key, keys_unique, lemma_member_model, lemma_wf_member, same_value, values_equal,
    Json, Value,
};

verus! {

/// Arrays and objects are the only values that can be compared for a merge.
pub open spec fn is_container(j: Json) -> bool {
    j is Array || j is Object
}

/// The pair cannot be merged: a scalar or null on either side, or an array
/// against an object. The patch is then `after` itself.
pub open spec fn replaces(b: Json, a: Json) -> bool {
    !is_container(b) || !is_container(a) || (b is Array) != (a is Array)
}

/// The merge patch from `b` to `a`; `None` when no patch is needed.
pub open spec fn patch_of(b: Json, a: Json) -> Option<Json>
    decreases b, 2nat,
{
    if replaces(b, a) {
        Some(a)
    } else if b is Array {
        if b == a {
            None
        } else {
            Some(a)
        }
    } else {
        let m = members_patch(b, a);
        if m.is_empty() {
            None
        } else {
            Some(Json::Object(m))
        }
    }
}

/// The patch of two objects `b` and `a` as a map: the keys whose member
/// patch is not `None`.
pub open spec fn members_patch(b: Json, a: Json) -> Map<Seq<char>, Json>
    decreases b, 1nat,
{
    Map::new(
        |k: Seq<char>| member_patch(b, a, k) is Some,
        |k: Seq<char>| member_patch(b, a, k)->Some_0,
    )
}

/// What the patch of two objects holds at key `k`: a tombstone for a removed
/// member, the new value for an added or changed one, a sub-patch for an
/// object member, and nothing for an unchanged one.
pub open spec fn member_patch(b: Json, a: Json, k: Seq<char>) -> Option<Json>
    decreases b, 0nat,
{
    let bm = b->Object_0;
    let am = a->Object_0;
    if !(b is Object && a is Object) {
        None
    } else if !am.contains_key(k) {
        if bm.contains_key(k) {
            Some(Json::Null)
        } else {
            None
        }
    } else if !bm.contains_key(k) {
        Some(am[k])
    } else if bm[k] is Object {
        patch_of(bm[k], am[k])
    } else if bm[k] == am[k] {
        None
    } else {
        Some(am[k])
    }
}

/// The model of a computed patch.
pub open spec fn option_model(r: Option<Value>) -> Option<Json> {
    match r {
        Some(p) => Some(p.model()),
        None => None,
    }
}

/// The merge patch that turns `before` into `after`, or `None` when none is
/// needed. A pair that cannot be merged (a scalar or null on either side, or
/// an array against an object) gives a copy of `after`; two arrays give `None`
/// when equal and a copy of `after` otherwise; two objects give the object of
/// member patches, or `None` when it would be empty.
pub fn generate(before: &Value, after: &Value) -> (r: Option<Value>)
    requires
        before.wf(),
        after.wf(),
    ensures
        option_model(r) == patch_of(before.model(), after.model()),
        r matches Some(p) ==> p.wf(),
        replaces(before.model(), after.model()) || (before is Array && after is Array
            && before.model() != after.model()) ==> (r matches Some(p) && same_value(*after, p)),
    decreases before,
{
    match (before, after) {
        (Value::Array(_), Value::Array(_)) => {
            if values_equal(before, after) {
                None
            } else {
                Some(after.deep_copy())
            }
        },
        (Value::Object(bs), Value::Object(als)) => {
            let ghost bj = before.model();
            let ghost aj = after.model();
            let ghost bm = bj->Object_0;
            let ghost am = aj->Object_0;
            proof {
                assert(keys_unique(bs@)) by {
                    assert(before.wf());
                }
                assert(keys_unique(als@)) by {
                    assert(after.wf());
                }
            }
            let mut out: Vec<(String, Value)> = Vec::new();
            // members that only `after` has; member j of `out` came from
            // member idx[j] of `after`
            let ghost mut idx: Seq<int> = Seq::empty();
            let mut i: usize = 0;
            while i < als.len()
                invariant
                    before.wf(),
                    after.wf(),
                    *before == Value::Object(*bs),
                    *after == Value::Object(*als),
                    bj == before.model(),
                    aj == after.model(),
                    bm == bj->Object_0,
                    am == aj->Object_0,
                    keys_unique(bs@),
                    keys_unique(als@),
                    i <= als.len(),
                    idx.len() == out.len(),
                    forall|j: int|
                        0 <= j < out.len() ==> 0 <= #[trigger] idx[j] < i && out@[j].0@
                            == als@[idx[j]].0@,
                    forall|j: int|
                        0 <= j < out.len() ==> (#[trigger] out@[j]).1.wf() && !bm.contains_key(
                            out@[j].0@,
                        ) && member_patch(bj, aj, out@[j].0@) == Some(out@[j].1.model()),
                    forall|j: int|
                        0 <= j < i && !bm.contains_key(#[trigger] als@[j].0@) ==> has_key(
                            out@,
                            als@[j].0@,
                        ),
                    keys_unique(out@),
                decreases als.len() - i,
            {
                let ghost out0 = out@;
                proof {
                    lemma_wf_member(*als, i as int);
                    lemma_member_model(*als, i as int);
                }
                if find_key(bs, &als[i].0).is_none() {
                    proof {
                        if bm.contains_key(als@[i as int].0@) {
                            let j = choose|j: int|
                                0 <= j < bs.len() && #[trigger] bs@[j].0@ == als@[i as int].0@;
                            assert(bs@[j].0@ == als@[i as int].0@);
                        }
                    }
                    let k = als[i].0.clone();
                    let v = als[i].1.deep_copy();
                    out.push((k, v));
                    proof {
                        idx = idx.push(i as int);
                        assert forall|a: int, b: int|
                            0 <= a < out.len() && 0 <= b < out.len() && a != b implies #[trigger] out@[a].0@
                            != #[trigger] out@[b].0@ by {
                            if b == out.len() - 1 {
                                assert(als@[idx[a]].0@ != als@[i as int].0@);
                            } else if a == out.len() - 1 {
                                assert(als@[idx[b]].0@ != als@[i as int].0@);
                            }
                        }
                        assert(out@[out.len() - 1].0@ == als@[i as int].0@);
                    }
                } else {
                    proof {
                        assert(bm.contains_key(als@[i as int].0@));
                    }
                }
                proof {
                    assert forall|j: int|
                        0 <= j < i + 1 && !bm.contains_key(#[trigger] als@[j].0@) implies has_key(
                        out@,
                        als@[j].0@,
                    ) by {
                        if j == i {
                            assert(out@[out.len() - 1].0@ == als@[i as int].0@);
                        } else {
                            let m = choose|m: int|
                                0 <= m < out0.len() && #[trigger] out0[m].0@ == als@[j].0@;
                            assert(out@[m].0@ == als@[j].0@);
                        }
                    }
                }
                i = i + 1;
            }
            // members of `before`: removed, merged or changed; a member j of
            // `out` with a key of `before` came from member idx2[j] of `before`
            let ghost mut idx2: Seq<int> = Seq::new(out.len() as nat, |j: int| 0int);
            let mut i: usize = 0;
            while i < bs.len()
                invariant
                    before.wf(),
                    after.wf(),
                    *before == Value::Object(*bs),
                    *after == Value::Object(*als),
                    bj == before.model(),
                    aj == after.model(),
                    bm == bj->Object_0,
                    am == aj->Object_0,
                    keys_unique(bs@),
                    keys_unique(als@),
                    i <= bs.len(),
                    idx2.len() == out.len(),
                    forall|j: int|
                        0 <= j < out.len() ==> (#[trigger] out@[j]).1.wf() && member_patch(
                            bj,
                            aj,
                            out@[j].0@,
                        ) == Some(out@[j].1.model()),
                    forall|j: int|
                        0 <= j < out.len() && bm.contains_key(#[trigger] out@[j].0@) ==> 0
                            <= idx2[j] < i && out@[j].0@ == bs@[idx2[j]].0@,
                    forall|j: int|
                        0 <= j < als.len() && !bm.contains_key(#[trigger] als@[j].0@) ==> has_key(
                            out@,
                            als@[j].0@,
                        ),
                    forall|j: int|
                        0 <= j < i && member_patch(bj, aj, #[trigger] bs@[j].0@) is Some
                            ==> has_key(out@, bs@[j].0@),
                    keys_unique(out@),
                decreases bs.len() - i,
            {
                let ghost out0 = out@;
                proof {
                    lemma_wf_member(*bs, i as int);
                    lemma_member_model(*bs, i as int);
                }
                let ghost k = bs@[i as int].0@;
                let mut entry: Option<Value> = None;
                match find_key(als, &bs[i].0) {
                    None => {
                        entry = Some(Value::Null);
                    },
                    Some(p) => {
                        proof {
                            lemma_wf_member(*als, p as int);
                            lemma_member_model(*als, p as int);
                        }
                        match &bs[i].1 {
                            Value::Object(_) => {
                                entry = generate(&bs[i].1, &als[p].1);
                            },
                            _ => {
                                if !values_equal(&bs[i].1, &als[p].1) {
                                    entry = Some(als[p].1.deep_copy());
                                }
                            },
                        }
                    },
                }
                proof {
                    assert(option_model(entry) == member_patch(bj, aj, k));
                }
                match entry {
                    Some(v) => {
                        let key = bs[i].0.clone();
                        out.push((key, v));
                        proof {
                            idx2 = idx2.push(i as int);
                            assert(out@[out.len() - 1].0@ == k);
                            assert forall|a: int, b: int|
                                0 <= a < out.len() && 0 <= b < out.len() && a != b implies #[trigger] out@[a].0@
                                != #[trigger] out@[b].0@ by {
                                if b == out.len() - 1 && bm.contains_key(out@[a].0@) {
                                    assert(bs@[idx2[a]].0@ != k);
                                } else if a == out.len() - 1 && bm.contains_key(out@[b].0@) {
                                    assert(bs@[idx2[b]].0@ != k);
                                }
                            }
                        }
                    },
                    None => {},
                }
                proof {
                    assert forall|j: int|
                        0 <= j < als.len() && !bm.contains_key(#[trigger] als@[j].0@) implies has_key(
                        out@,
                        als@[j].0@,
                    ) by {
                        let m = choose|m: int|
                            0 <= m < out0.len() && #[trigger] out0[m].0@ == als@[j].0@;
                        assert(out@[m].0@ == als@[j].0@);
                    }
                    assert forall|j: int|
                        0 <= j < i + 1 && member_patch(bj, aj, #[trigger] bs@[j].0@) is Some implies has_key(
                        out@,
                        bs@[j].0@,
                    ) by {
                        if j == i {
                            assert(out@[out.len() - 1].0@ == k);
                        } else {
                            let m = choose|m: int|
                                0 <= m < out0.len() && #[trigger] out0[m].0@ == bs@[j].0@;
                            assert(out@[m].0@ == bs@[j].0@);
                        }
                    }
                }
                i = i + 1;
            }
            let ghost pm = members_patch(bj, aj);
            proof {
                assert forall|k: Seq<char>| #[trigger] pm.contains_key(k) implies has_key(out@, k) by {
                    if bm.contains_key(k) {
                        let j = choose|j: int| 0 <= j < bs.len() && #[trigger] bs@[j].0@ == k;
                        assert(bs@[j].0@ == k);
                    } else {
                        let j = choose|j: int| 0 <= j < als.len() && #[trigger] als@[j].0@ == k;
                        assert(als@[j].0@ == k);
                    }
                }
            }
            if out.len() == 0 {
                proof {
                    assert(pm.dom() =~= Set::empty());
                }
                return None;
            }
            let r = Value::Object(out);
            proof {
                let rm = r.model()->Object_0;
                assert forall|k: Seq<char>| rm.contains_key(k) == pm.contains_key(k) by {
                    if has_key(out@, k) {
                        let j = choose|j: int| 0 <= j < out.len() && #[trigger] out@[j].0@ == k;
                        assert(out@[j].0@ == k);
                    }
                }
                assert forall|k: Seq<char>| rm.contains_key(k) implies rm[k] == pm[k] by {
                    let j = choose|j: int| 0 <= j < out.len() && #[trigger] out@[j].0@ == k;
                    lemma_member_model(out, j);
                }
                assert(rm =~= pm);
                assert(pm.contains_key(out@[0].0@));
                assert(r->Object_0 == out);
                assert(r.wf());
            }
            Some(r)
        },
        _ => Some(after.deep_copy()),
    }
}

} // verus!
