//! Properties of merge patches, stated over the models of values.
use vstd::prelude::*;

use crate::patch::{member_patch, members_patch, patch_of, replaces};
use crate::value::{Json, Value};

verus! {

/// A container compared with itself needs no patch.
pub proof fn lemma_same_container_no_patch(j: Json)
    requires
        j is Array || j is Object,
    ensures
        patch_of(j, j) is None,
    decreases j,
{
    if j is Object {
        let m = members_patch(j, j);
        assert forall|k: Seq<char>| !m.contains_key(k) by {
            let jm = j->Object_0;
            if jm.contains_key(k) && jm[k] is Object {
                lemma_same_container_no_patch(jm[k]);
            }
        }
        assert(m.dom() =~= Set::empty());
    }
}

/// Two arrays, or two objects, that are structurally equal need no patch.
pub proof fn lemma_equal_values_no_patch(before: Value, after: Value)
    requires
        before is Array || before is Object,
        before.model() == after.model(),
    ensures
        patch_of(before.model(), after.model()) is None,
{
    lemma_same_container_no_patch(before.model());
}

/// A pair that cannot be merged (a scalar or null on either side, an array
/// against an object), or two arrays that differ, is patched by `after` whole.
pub proof fn lemma_replacement(before: Value, after: Value)
    requires
        replaces(before.model(), after.model()) || (before is Array && after is Array
            && before.model() != after.model()),
    ensures
        patch_of(before.model(), after.model()) == Some(after.model()),
{
}

/// Two objects give either no patch or an object patch, never an empty one,
/// whose keys are keys of `before` or of `after`.
pub proof fn lemma_object_patch_shape(before: Value, after: Value)
    requires
        before is Object,
        after is Object,
    ensures
        patch_of(before.model(), after.model()) matches Some(p) ==> p is Object
            && !p->Object_0.is_empty() && forall|k: Seq<char>| #[trigger]
            p->Object_0.contains_key(k) ==> before.model()->Object_0.contains_key(k)
            || after.model()->Object_0.contains_key(k),
{
}

/// When two objects differ in a member that is an object on both sides, the
/// patch holds, under that key, the patch of the two members rather than the
/// new member whole.
pub proof fn lemma_nested_change_is_merged(before: Value, after: Value, k: Seq<char>)
    requires
        before is Object,
        after is Object,
        before.model()->Object_0.contains_key(k),
        after.model()->Object_0.contains_key(k),
        before.model()->Object_0[k] is Object,
        after.model()->Object_0[k] is Object,
        patch_of(before.model()->Object_0[k], after.model()->Object_0[k]) is Some,
    ensures
        patch_of(before.model(), after.model()) matches Some(p) && p is Object
            && p->Object_0.contains_key(k) && p->Object_0[k] == patch_of(
            before.model()->Object_0[k],
            after.model()->Object_0[k],
        )->Some_0 && p->Object_0[k] is Object,
{
    let b = before.model();
    let a = after.model();
    let sub = patch_of(b->Object_0[k], a->Object_0[k]);
    assert(member_patch(b, a, k) == sub);
    assert(members_patch(b, a).contains_key(k));
}

/// A member that `after` no longer has is deleted by a null in the patch.
pub proof fn lemma_removed_member_tombstone(before: Value, after: Value, k: Seq<char>)
    requires
        before is Object,
        after is Object,
        before.model()->Object_0.contains_key(k),
        !after.model()->Object_0.contains_key(k),
    ensures
        patch_of(before.model(), after.model()) matches Some(p) && p is Object
            && p->Object_0.contains_key(k) && p->Object_0[k] == Json::Null,
{
    let b = before.model();
    let a = after.model();
    assert(members_patch(b, a).contains_key(k));
}

/// Removing one member and changing nothing else gives a patch with that
/// member's tombstone alone.
pub proof fn lemma_single_removal_patch(before: Value, after: Value, k: Seq<char>)
    requires
        before is Object,
        after is Object,
        before.model()->Object_0.contains_key(k),
        after.model()->Object_0 == before.model()->Object_0.remove(k),
    ensures
        patch_of(before.model(), after.model()) == Some(Json::Object(map![k => Json::Null])),
{
    let b = before.model();
    let a = after.model();
    let bm = b->Object_0;
    let m = members_patch(b, a);
    assert forall|x: Seq<char>| x != k implies !m.contains_key(x) by {
        if bm.contains_key(x) && bm[x] is Object {
            lemma_same_container_no_patch(bm[x]);
        }
    }
    assert(m.contains_key(k));
    assert(m =~= map![k => Json::Null]);
}

/// A member that is null in both objects stays out of the patch.
pub proof fn lemma_null_member_unchanged(before: Value, after: Value, k: Seq<char>)
    requires
        before is Object,
        after is Object,
        before.model()->Object_0.contains_key(k),
        after.model()->Object_0.contains_key(k),
        before.model()->Object_0[k] == Json::Null,
        after.model()->Object_0[k] == Json::Null,
    ensures
        patch_of(before.model(), after.model()) matches Some(p) ==> p is Object
            && !p->Object_0.contains_key(k),
{
}

} // verus!
