//! The order in which the entries of a directory are visited.
//!
//! Entries are arranged by a stable merge sort on the scheme's order of
//! directory names, reversed, because the traversal takes entries from the
//! end of a listing.

use crate::path::{is_normal_name, name_is_normal};
use crate::scheme::{
    byte_order, lemma_lexicographic_is_transitive, lemma_lexicographic_is_weak,
    lemma_lexicographic_reverses, PartOrder, Scheme,
};
use vstd::prelude::*;
use vstd::slice::slice_to_vec;

verus! {

/// How two sibling names stand in a listing: the reverse of the scheme's
/// order. Names that the scheme cannot order, and names that are no proper
/// file names, count as equal.
pub open spec fn sibling_order<S: Scheme>(scheme: S, a: Seq<u8>, b: Seq<u8>) -> PartOrder {
    if is_normal_name(a) && is_normal_name(b) {
        match scheme.part_order(a, b) {
            Ok(order) => order.reversed(),
            Err(_) => PartOrder::Equal,
        }
    } else {
        PartOrder::Equal
    }
}

/// Whether `a` must stand before `b` in a listing.
pub open spec fn stands_before<S: Scheme>(scheme: S, a: Seq<u8>, b: Seq<u8>) -> bool {
    sibling_order(scheme, a, b) == PartOrder::Less
}

/// The stable merge of two listings: the head of the right one is taken
/// only where it must stand before the head of the left one.
pub open spec fn merged<S: Scheme>(scheme: S, left: Seq<Seq<u8>>, right: Seq<Seq<u8>>) -> Seq<
    Seq<u8>,
>
    decreases left.len() + right.len(),
{
    if left.len() == 0 {
        right
    } else if right.len() == 0 {
        left
    } else if stands_before(scheme, right[0], left[0]) {
        seq![right[0]] + merged(scheme, left, right.drop_first())
    } else {
        seq![left[0]] + merged(scheme, left.drop_first(), right)
    }
}

/// The listing in the order of its visit: the stable merge sort of the
/// names, splitting in the middle.
pub open spec fn arranged<S: Scheme>(scheme: S, names: Seq<Seq<u8>>) -> Seq<Seq<u8>>
    decreases names.len(),
{
    if names.len() <= 1 {
        names
    } else {
        let middle = names.len() as int / 2;
        merged(scheme, arranged(scheme, names.take(middle)), arranged(scheme, names.skip(middle)))
    }
}

/// The names of a listing, each as a sequence of bytes.
pub open spec fn names_view(names: Seq<Vec<u8>>) -> Seq<Seq<u8>> {
    Seq::new(names.len(), |i: int| names[i]@)
}

/// Merging keeps every name, as often as it occurs.
pub proof fn lemma_merged_is_permutation<S: Scheme>(
    scheme: S,
    left: Seq<Seq<u8>>,
    right: Seq<Seq<u8>>,
)
    ensures
        merged(scheme, left, right).to_multiset() =~= left.to_multiset().add(right.to_multiset()),
        merged(scheme, left, right).len() == left.len() + right.len(),
    decreases left.len() + right.len(),
{
    broadcast use vstd::seq_lib::group_to_multiset_ensures;

    if left.len() == 0 {
    } else if right.len() == 0 {
    } else if stands_before(scheme, right[0], left[0]) {
        let rest = merged(scheme, left, right.drop_first());
        lemma_merged_is_permutation(scheme, left, right.drop_first());
        assert(right =~= seq![right[0]] + right.drop_first());
        vstd::seq_lib::lemma_multiset_commutative(seq![right[0]], rest);
        vstd::seq_lib::lemma_multiset_commutative(seq![right[0]], right.drop_first());
    } else {
        let rest = merged(scheme, left.drop_first(), right);
        lemma_merged_is_permutation(scheme, left.drop_first(), right);
        assert(left =~= seq![left[0]] + left.drop_first());
        vstd::seq_lib::lemma_multiset_commutative(seq![left[0]], rest);
        vstd::seq_lib::lemma_multiset_commutative(seq![left[0]], left.drop_first());
    }
}

/// Arranging a listing keeps every name, as often as it occurs: no entry is
/// lost and none is made up.
pub proof fn lemma_arranged_is_permutation<S: Scheme>(scheme: S, names: Seq<Seq<u8>>)
    ensures
        arranged(scheme, names).to_multiset() =~= names.to_multiset(),
        arranged(scheme, names).len() == names.len(),
    decreases names.len(),
{
    if names.len() <= 1 {
    } else {
        let middle = names.len() as int / 2;
        let left = names.take(middle);
        let right = names.skip(middle);
        lemma_arranged_is_permutation(scheme, left);
        lemma_arranged_is_permutation(scheme, right);
        lemma_merged_is_permutation(scheme, arranged(scheme, left), arranged(scheme, right));
        assert(names =~= left + right);
        vstd::seq_lib::lemma_multiset_commutative(left, right);
    }
}

/// Tells whether `a` must stand before `b` in a listing.
pub fn must_stand_before<S: Scheme>(scheme: &S, a: &[u8], b: &[u8]) -> (r: bool)
    requires
        scheme.well_formed(),
    ensures
        r == stands_before(*scheme, a@, b@),
{
    if !name_is_normal(a) || !name_is_normal(b) {
        return false;
    }
    match scheme.cmp_prefix_part(a, b) {
        Ok(PartOrder::Greater) => true,
        _ => false,
    }
}

/// Merges two arranged listings.
pub fn merge<S: Scheme>(scheme: &S, left: &Vec<Vec<u8>>, right: &Vec<Vec<u8>>) -> (out: Vec<Vec<u8>>)
    requires
        scheme.well_formed(),
    ensures
        names_view(out@) == merged(*scheme, names_view(left@), names_view(right@)),
{
    let ghost l = names_view(left@);
    let ghost r = names_view(right@);
    let mut out: Vec<Vec<u8>> = Vec::new();
    let mut i: usize = 0;
    let mut j: usize = 0;
    proof {
        assert(l.skip(0) =~= l);
        assert(r.skip(0) =~= r);
        assert(names_view(out@) + merged(*scheme, l, r) =~= merged(*scheme, l, r));
    }
    while i < left.len() || j < right.len()
        invariant
            scheme.well_formed(),
            l == names_view(left@),
            r == names_view(right@),
            i <= left@.len(),
            j <= right@.len(),
            names_view(out@) + merged(*scheme, l.skip(i as int), r.skip(j as int)) == merged(
                *scheme,
                l,
                r,
            ),
        decreases left@.len() - i + right@.len() - j,
    {
        let ghost before = names_view(out@);
        let ghost rest_left = l.skip(i as int);
        let ghost rest_right = r.skip(j as int);
        let take_right = if i >= left.len() {
            true
        } else if j >= right.len() {
            false
        } else {
            assert(rest_left[0] == left@[i as int]@);
            assert(rest_right[0] == right@[j as int]@);
            must_stand_before(scheme, right[j].as_slice(), left[i].as_slice())
        };
        if take_right {
            out.push(slice_to_vec(right[j].as_slice()));
            proof {
                assert(rest_right[0] == right@[j as int]@);
                assert(rest_right.drop_first() =~= r.skip(j + 1));
                assert(names_view(out@) =~= before + seq![rest_right[0]]);
                if i >= left@.len() {
                    assert(rest_left.len() == 0);
                    assert(merged(*scheme, rest_left, rest_right) == rest_right);
                    assert(merged(*scheme, rest_left, rest_right.drop_first())
                        == rest_right.drop_first());
                    assert(rest_right =~= seq![rest_right[0]] + rest_right.drop_first());
                }
                assert(before + (seq![rest_right[0]] + merged(
                    *scheme,
                    rest_left,
                    rest_right.drop_first(),
                )) =~= (before + seq![rest_right[0]]) + merged(
                    *scheme,
                    rest_left,
                    rest_right.drop_first(),
                ));
            }
            j += 1;
        } else {
            out.push(slice_to_vec(left[i].as_slice()));
            proof {
                assert(rest_left[0] == left@[i as int]@);
                assert(rest_left.drop_first() =~= l.skip(i + 1));
                assert(names_view(out@) =~= before + seq![rest_left[0]]);
                if j >= right@.len() {
                    assert(rest_right.len() == 0);
                    assert(merged(*scheme, rest_left, rest_right) == rest_left);
                    assert(merged(*scheme, rest_left.drop_first(), rest_right)
                        == rest_left.drop_first());
                    assert(rest_left =~= seq![rest_left[0]] + rest_left.drop_first());
                }
                assert(before + (seq![rest_left[0]] + merged(
                    *scheme,
                    rest_left.drop_first(),
                    rest_right,
                )) =~= (before + seq![rest_left[0]]) + merged(
                    *scheme,
                    rest_left.drop_first(),
                    rest_right,
                ));
            }
            i += 1;
        }
    }
    assert(l.skip(i as int).len() == 0 && r.skip(j as int).len() == 0);
    assert(names_view(out@) + Seq::<Seq<u8>>::empty() =~= names_view(out@));
    out
}

/// The names of `names` from index `from` up to `to`, arranged.
fn arrange_range<S: Scheme>(scheme: &S, names: &Vec<Vec<u8>>, from: usize, to: usize) -> (out: Vec<
    Vec<u8>,
>)
    requires
        scheme.well_formed(),
        from <= to <= names@.len(),
    ensures
        names_view(out@) == arranged(
            *scheme,
            names_view(names@).subrange(from as int, to as int),
        ),
    decreases to - from,
{
    let ghost part = names_view(names@).subrange(from as int, to as int);
    if to - from <= 1 {
        let mut out: Vec<Vec<u8>> = Vec::new();
        if to - from == 1 {
            out.push(slice_to_vec(names[from].as_slice()));
        }
        assert(names_view(out@) =~= part);
        out
    } else {
        let middle = from + (to - from) / 2;
        let left = arrange_range(scheme, names, from, middle);
        let right = arrange_range(scheme, names, middle, to);
        assert(part.take(part.len() as int / 2) =~= names_view(names@).subrange(
            from as int,
            middle as int,
        ));
        assert(part.skip(part.len() as int / 2) =~= names_view(names@).subrange(
            middle as int,
            to as int,
        ));
        merge(scheme, &left, &right)
    }
}

/// Arranges a listing in the order of its visit.
pub fn arrange<S: Scheme>(scheme: &S, names: &Vec<Vec<u8>>) -> (out: Vec<Vec<u8>>)
    requires
        scheme.well_formed(),
    ensures
        names_view(out@) == arranged(*scheme, names_view(names@)),
        names_view(out@).to_multiset() == names_view(names@).to_multiset(),
        out@.len() == names@.len(),
{
    let out = arrange_range(scheme, names, 0, names.len());
    proof {
        assert(names_view(names@).subrange(0, names@.len() as int) =~= names_view(names@));
        lemma_arranged_is_permutation(*scheme, names_view(names@));
    }
    out
}

/// Whether the order of listings is a strict weak order on the names in
/// `domain`: no two names stand before each other, standing before is
/// transitive, and so is standing in no order.
pub open spec fn is_strict_weak_order<S: Scheme>(scheme: S, domain: Set<Seq<u8>>) -> bool {
    &&& forall|a: Seq<u8>, b: Seq<u8>|
        domain.contains(a) && domain.contains(b) && #[trigger] stands_before(scheme, a, b)
            ==> !stands_before(scheme, b, a)
    &&& forall|a: Seq<u8>, b: Seq<u8>, c: Seq<u8>|
        domain.contains(a) && domain.contains(b) && domain.contains(c) && #[trigger] stands_before(
            scheme,
            a,
            b,
        ) && #[trigger] stands_before(scheme, b, c) ==> stands_before(scheme, a, c)
    &&& forall|a: Seq<u8>, b: Seq<u8>, c: Seq<u8>|
        domain.contains(a) && domain.contains(b) && domain.contains(c) && !#[trigger] stands_before(
            scheme,
            a,
            b,
        ) && !#[trigger] stands_before(scheme, b, c) ==> !stands_before(scheme, a, c)
}

/// Whether every name of the listing is in `domain`.
pub open spec fn within(names: Seq<Seq<u8>>, domain: Set<Seq<u8>>) -> bool {
    forall|i: int| 0 <= i < names.len() ==> domain.contains(#[trigger] names[i])
}

/// Whether no name of the listing must stand before `name`.
pub open spec fn may_lead<S: Scheme>(scheme: S, name: Seq<u8>, names: Seq<Seq<u8>>) -> bool {
    forall|i: int| 0 <= i < names.len() ==> !stands_before(scheme, #[trigger] names[i], name)
}

/// Whether the listing is in order: no name must stand before an earlier
/// one.
pub open spec fn ordered<S: Scheme>(scheme: S, names: Seq<Seq<u8>>) -> bool {
    forall|i: int, j: int|
        0 <= i < j < names.len() ==> !stands_before(scheme, #[trigger] names[j], #[trigger] names[i])
}

/// A merge holds only names of the two listings.
pub proof fn lemma_merged_within<S: Scheme>(
    scheme: S,
    left: Seq<Seq<u8>>,
    right: Seq<Seq<u8>>,
    domain: Set<Seq<u8>>,
)
    requires
        within(left, domain),
        within(right, domain),
    ensures
        within(merged(scheme, left, right), domain),
    decreases left.len() + right.len(),
{
    if left.len() == 0 || right.len() == 0 {
    } else if stands_before(scheme, right[0], left[0]) {
        let rest = right.drop_first();
        assert forall|i: int| 0 <= i < rest.len() implies domain.contains(#[trigger] rest[i]) by {
            assert(rest[i] == right[i + 1]);
        }
        lemma_merged_within(scheme, left, rest, domain);
        let tail = merged(scheme, left, rest);
        assert forall|i: int| 0 <= i < merged(scheme, left, right).len() implies domain.contains(
            #[trigger] merged(scheme, left, right)[i],
        ) by {
            if i > 0 {
                assert(merged(scheme, left, right)[i] == tail[i - 1]);
            }
        }
    } else {
        let rest = left.drop_first();
        assert forall|i: int| 0 <= i < rest.len() implies domain.contains(#[trigger] rest[i]) by {
            assert(rest[i] == left[i + 1]);
        }
        lemma_merged_within(scheme, rest, right, domain);
        let tail = merged(scheme, rest, right);
        assert forall|i: int| 0 <= i < merged(scheme, left, right).len() implies domain.contains(
            #[trigger] merged(scheme, left, right)[i],
        ) by {
            if i > 0 {
                assert(merged(scheme, left, right)[i] == tail[i - 1]);
            }
        }
    }
}

/// A name that may lead two listings may lead their merge.
pub proof fn lemma_merged_may_lead<S: Scheme>(
    scheme: S,
    name: Seq<u8>,
    left: Seq<Seq<u8>>,
    right: Seq<Seq<u8>>,
)
    requires
        may_lead(scheme, name, left),
        may_lead(scheme, name, right),
    ensures
        may_lead(scheme, name, merged(scheme, left, right)),
    decreases left.len() + right.len(),
{
    if left.len() == 0 || right.len() == 0 {
    } else if stands_before(scheme, right[0], left[0]) {
        let rest = right.drop_first();
        assert forall|i: int| 0 <= i < rest.len() implies !stands_before(
            scheme,
            #[trigger] rest[i],
            name,
        ) by {
            assert(rest[i] == right[i + 1]);
        }
        lemma_merged_may_lead(scheme, name, left, rest);
        let tail = merged(scheme, left, rest);
        assert forall|i: int| 0 <= i < merged(scheme, left, right).len() implies !stands_before(
            scheme,
            #[trigger] merged(scheme, left, right)[i],
            name,
        ) by {
            if i > 0 {
                assert(merged(scheme, left, right)[i] == tail[i - 1]);
            } else {
                assert(merged(scheme, left, right)[0] == right[0]);
            }
        }
    } else {
        let rest = left.drop_first();
        assert forall|i: int| 0 <= i < rest.len() implies !stands_before(
            scheme,
            #[trigger] rest[i],
            name,
        ) by {
            assert(rest[i] == left[i + 1]);
        }
        lemma_merged_may_lead(scheme, name, rest, right);
        let tail = merged(scheme, rest, right);
        assert forall|i: int| 0 <= i < merged(scheme, left, right).len() implies !stands_before(
            scheme,
            #[trigger] merged(scheme, left, right)[i],
            name,
        ) by {
            if i > 0 {
                assert(merged(scheme, left, right)[i] == tail[i - 1]);
            } else {
                assert(merged(scheme, left, right)[0] == left[0]);
            }
        }
    }
}

/// A listing that begins with a name that may lead the rest, which is in
/// order, is in order.
proof fn lemma_ordered_with_head<S: Scheme>(scheme: S, head: Seq<u8>, tail: Seq<Seq<u8>>)
    requires
        may_lead(scheme, head, tail),
        ordered(scheme, tail),
    ensures
        ordered(scheme, seq![head] + tail),
{
    let all = seq![head] + tail;
    assert forall|i: int, j: int| 0 <= i < j < all.len() implies !stands_before(
        scheme,
        #[trigger] all[j],
        #[trigger] all[i],
    ) by {
        assert(all[j] == tail[j - 1]);
        if i > 0 {
            assert(all[i] == tail[i - 1]);
        } else {
            assert(all[0] == head);
        }
    }
}

/// The rest of a listing in order is in order, and its first name may lead
/// the rest.
proof fn lemma_ordered_rest<S: Scheme>(scheme: S, names: Seq<Seq<u8>>)
    requires
        ordered(scheme, names),
        names.len() > 0,
    ensures
        ordered(scheme, names.drop_first()),
        may_lead(scheme, names[0], names.drop_first()),
{
    let rest = names.drop_first();
    assert forall|i: int, j: int| 0 <= i < j < rest.len() implies !stands_before(
        scheme,
        #[trigger] rest[j],
        #[trigger] rest[i],
    ) by {
        assert(rest[j] == names[j + 1]);
        assert(rest[i] == names[i + 1]);
    }
    assert forall|i: int| 0 <= i < rest.len() implies !stands_before(
        scheme,
        #[trigger] rest[i],
        names[0],
    ) by {
        assert(rest[i] == names[i + 1]);
    }
}

/// The merge of two listings in order is in order, where the order is a
/// strict weak order on their names.
pub proof fn lemma_merged_is_ordered<S: Scheme>(
    scheme: S,
    left: Seq<Seq<u8>>,
    right: Seq<Seq<u8>>,
    domain: Set<Seq<u8>>,
)
    requires
        is_strict_weak_order(scheme, domain),
        within(left, domain),
        within(right, domain),
        ordered(scheme, left),
        ordered(scheme, right),
    ensures
        ordered(scheme, merged(scheme, left, right)),
    decreases left.len() + right.len(),
{
    if left.len() == 0 || right.len() == 0 {
    } else if stands_before(scheme, right[0], left[0]) {
        let rest = right.drop_first();
        lemma_ordered_rest(scheme, right);
        assert(within(rest, domain)) by {
            assert forall|i: int| 0 <= i < rest.len() implies domain.contains(#[trigger] rest[i]) by {
                assert(rest[i] == right[i + 1]);
            }
        }
        lemma_merged_is_ordered(scheme, left, rest, domain);
        assert(domain.contains(right[0]) && domain.contains(left[0]));
        assert forall|i: int| 0 <= i < left.len() implies !stands_before(
            scheme,
            #[trigger] left[i],
            right[0],
        ) by {
            assert(domain.contains(left[i]));
            if i > 0 && stands_before(scheme, left[i], right[0]) {
                assert(stands_before(scheme, left[i], left[0]));
            }
        }
        lemma_merged_may_lead(scheme, right[0], left, rest);
        lemma_ordered_with_head(scheme, right[0], merged(scheme, left, rest));
    } else {
        let rest = left.drop_first();
        lemma_ordered_rest(scheme, left);
        assert(within(rest, domain)) by {
            assert forall|i: int| 0 <= i < rest.len() implies domain.contains(#[trigger] rest[i]) by {
                assert(rest[i] == left[i + 1]);
            }
        }
        lemma_merged_is_ordered(scheme, rest, right, domain);
        assert(domain.contains(right[0]) && domain.contains(left[0]));
        assert forall|i: int| 0 <= i < right.len() implies !stands_before(
            scheme,
            #[trigger] right[i],
            left[0],
        ) by {
            assert(domain.contains(right[i]));
            if i > 0 {
                assert(!stands_before(scheme, right[i], right[0]));
            }
        }
        lemma_merged_may_lead(scheme, left[0], rest, right);
        lemma_ordered_with_head(scheme, left[0], merged(scheme, rest, right));
    }
}

/// An arranged listing is in order, and holds only names of the listing,
/// where the order is a strict weak order on its names.
pub proof fn lemma_arranged_is_ordered<S: Scheme>(
    scheme: S,
    names: Seq<Seq<u8>>,
    domain: Set<Seq<u8>>,
)
    requires
        is_strict_weak_order(scheme, domain),
        within(names, domain),
    ensures
        ordered(scheme, arranged(scheme, names)),
        within(arranged(scheme, names), domain),
    decreases names.len(),
{
    if names.len() > 1 {
        let middle = names.len() as int / 2;
        let left = names.take(middle);
        let right = names.skip(middle);
        assert(within(left, domain)) by {
            assert forall|i: int| 0 <= i < left.len() implies domain.contains(#[trigger] left[i]) by {
                assert(left[i] == names[i]);
            }
        }
        assert(within(right, domain)) by {
            assert forall|i: int| 0 <= i < right.len() implies domain.contains(
                #[trigger] right[i],
            ) by {
                assert(right[i] == names[i + middle]);
            }
        }
        lemma_arranged_is_ordered(scheme, left, domain);
        lemma_arranged_is_ordered(scheme, right, domain);
        lemma_merged_is_ordered(scheme, arranged(scheme, left), arranged(scheme, right), domain);
        lemma_merged_within(scheme, arranged(scheme, left), arranged(scheme, right), domain);
    }
}

/// The names of files and directories proper.
pub open spec fn normal_names() -> Set<Seq<u8>> {
    Set::new(|name: Seq<u8>| is_normal_name(name))
}

/// Whether the scheme orders directory names by their bytes.
pub open spec fn orders_by_bytes<S: Scheme>(scheme: S) -> bool {
    forall|a: Seq<u8>, b: Seq<u8>| #[trigger] scheme.part_order(a, b) == Ok::<PartOrder, crate::scheme::Error>(byte_order(a, b))
}

/// The order of listings of a scheme that orders by bytes is a strict weak
/// order on proper names.
pub proof fn lemma_byte_order_is_strict_weak<S: Scheme>(scheme: S)
    requires
        orders_by_bytes(scheme),
    ensures
        is_strict_weak_order(scheme, normal_names()),
{
    let rank = |byte: u8| byte as int;
    let domain = normal_names();
    assert forall|a: Seq<u8>, b: Seq<u8>|
        domain.contains(a) && domain.contains(b) && #[trigger] stands_before(
            scheme,
            a,
            b,
        ) implies !stands_before(scheme, b, a) by {
        assert(scheme.part_order(a, b) == Ok::<PartOrder, crate::scheme::Error>(byte_order(a, b)));
        assert(scheme.part_order(b, a) == Ok::<PartOrder, crate::scheme::Error>(byte_order(b, a)));
        lemma_lexicographic_reverses(a, b, rank, 0);
    }
    assert forall|a: Seq<u8>, b: Seq<u8>, c: Seq<u8>|
        domain.contains(a) && domain.contains(b) && domain.contains(c) && #[trigger] stands_before(
            scheme,
            a,
            b,
        ) && #[trigger] stands_before(scheme, b, c) implies stands_before(scheme, a, c) by {
        assert(scheme.part_order(a, b) == Ok::<PartOrder, crate::scheme::Error>(byte_order(a, b)));
        assert(scheme.part_order(b, c) == Ok::<PartOrder, crate::scheme::Error>(byte_order(b, c)));
        assert(scheme.part_order(a, c) == Ok::<PartOrder, crate::scheme::Error>(byte_order(a, c)));
        lemma_lexicographic_is_transitive(a, b, c, rank, 0);
    }
    assert forall|a: Seq<u8>, b: Seq<u8>, c: Seq<u8>|
        domain.contains(a) && domain.contains(b) && domain.contains(c) && !#[trigger] stands_before(
            scheme,
            a,
            b,
        ) && !#[trigger] stands_before(scheme, b, c) implies !stands_before(scheme, a, c) by {
        assert(scheme.part_order(a, b) == Ok::<PartOrder, crate::scheme::Error>(byte_order(a, b)));
        assert(scheme.part_order(b, c) == Ok::<PartOrder, crate::scheme::Error>(byte_order(b, c)));
        assert(scheme.part_order(a, c) == Ok::<PartOrder, crate::scheme::Error>(byte_order(a, c)));
        lemma_lexicographic_is_weak(a, b, c, rank, 0);
    }
}

/// Under a scheme that orders by bytes, a listing of proper names is
/// arranged in descending order of the names: taken from its end, the names
/// come in ascending order.
pub proof fn lemma_arranged_by_bytes_is_ordered<S: Scheme>(scheme: S, names: Seq<Seq<u8>>)
    requires
        orders_by_bytes(scheme),
        forall|i: int| 0 <= i < names.len() ==> is_normal_name(#[trigger] names[i]),
    ensures
        forall|i: int, j: int|
            0 <= i < j < names.len() ==> byte_order(
                #[trigger] arranged(scheme, names)[i],
                #[trigger] arranged(scheme, names)[j],
            ) != PartOrder::Less,
{
    lemma_byte_order_is_strict_weak(scheme);
    lemma_arranged_is_ordered(scheme, names, normal_names());
    lemma_arranged_is_permutation(scheme, names);
    let out = arranged(scheme, names);
    assert forall|i: int, j: int| 0 <= i < j < names.len() implies byte_order(
        #[trigger] out[i],
        #[trigger] out[j],
    ) != PartOrder::Less by {
        assert(normal_names().contains(out[i]));
        assert(normal_names().contains(out[j]));
        assert(!stands_before(scheme, out[j], out[i]));
        assert(scheme.part_order(out[j], out[i]) == Ok::<PartOrder, crate::scheme::Error>(
            byte_order(out[j], out[i]),
        ));
        lemma_lexicographic_reverses(out[i], out[j], |byte: u8| byte as int, 0);
    }
}

} // verus!
