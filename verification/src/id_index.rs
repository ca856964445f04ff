use vstd::prelude::*;

use crate::ids::{opt_id_view, IdView, InterpId};

verus! {

/// Two elements of a drawing were given the same interpolation ID.
#[derive(Debug, Clone, Copy, PartialEq, Eq)]
pub struct DuplicateInterpId {
    pub first: usize,
    pub second: usize,
}

pub open spec fn ids_view(ids: Seq<Option<InterpId>>) -> Seq<Option<IdView>> {
    ids.map_values(|o: Option<InterpId>| opt_id_view(o))
}

/// Element `k` has an ID that an earlier element also has.
pub open spec fn repeats_earlier(ids: Seq<Option<IdView>>, k: int) -> bool {
    ids[k] is Some && exists|j: int| 0 <= j < k && #[trigger] ids[j] == ids[k]
}

/// The elements, in order, that have an ID.
pub open spec fn with_ids(ids: Seq<Option<IdView>>, k: int) -> Seq<usize>
    decreases k,
{
    if k <= 0 {
        Seq::empty()
    } else {
        with_ids(ids, k - 1) + if ids[k - 1] is Some {
            seq![(k - 1) as usize]
        } else {
            Seq::empty()
        }
    }
}

/// The elements of a drawing that have an interpolation ID, in order; fails at the
/// first element whose ID an earlier element already has, naming both.
pub fn index_by_id(ids: &Vec<Option<InterpId>>) -> (r: Result<Vec<usize>, DuplicateInterpId>)
    ensures
        match r {
            Ok(v) => {
                &&& forall|k: int| 0 <= k < ids@.len() ==> !repeats_earlier(ids_view(ids@), k)
                &&& v@ == with_ids(ids_view(ids@), ids@.len() as int)
            },
            Err(d) => {
                &&& d.first < d.second < ids@.len()
                &&& ids_view(ids@)[d.second as int] is Some
                &&& ids_view(ids@)[d.first as int] == ids_view(ids@)[d.second as int]
                &&& forall|k: int| 0 <= k < d.second ==> !repeats_earlier(ids_view(ids@), k)
            },
        },
{
    let ghost iv = ids_view(ids@);
    let n = ids.len();
    let mut out: Vec<usize> = Vec::new();
    let mut k: usize = 0;
    while k < n
        invariant
            n == ids@.len(),
            iv == ids_view(ids@),
            0 <= k <= n,
            forall|x: int| 0 <= x < k ==> !repeats_earlier(iv, x),
            out@ == with_ids(iv, k as int),
        decreases n - k,
    {
        assert(iv[k as int] == opt_id_view(ids@[k as int]));
        if let Some(id) = &ids[k] {
            let mut j: usize = 0;
            while j < k
                invariant
                    n == ids@.len(),
                    iv == ids_view(ids@),
                    0 <= j <= k < n,
                    ids@[k as int] == Some(*id),
                    iv[k as int] == Some(id@),
                    forall|x: int| 0 <= x < k ==> !repeats_earlier(iv, x),
                    forall|x: int| 0 <= x < j ==> iv[x] != iv[k as int],
                decreases k - j,
            {
                assert(iv[j as int] == opt_id_view(ids@[j as int]));
                if let Some(other) = &ids[j] {
                    if other.same_as(id) {
                        assert(iv[j as int] == iv[k as int]);
                        return Err(DuplicateInterpId { first: j, second: k });
                    }
                }
                j = j + 1;
            }
            out.push(k);
        }
        k = k + 1;
        assert(out@ =~= with_ids(iv, k as int));
    }
    Ok(out)
}

/// The position of the first element with this ID, if any.
pub fn find_id(ids: &Vec<Option<InterpId>>, id: &InterpId) -> (r: Option<usize>)
    ensures
        match r {
            Some(k) => k < ids@.len() && ids_view(ids@)[k as int] == Some(id@) && forall|j: int|
                0 <= j < k ==> ids_view(ids@)[j] != Some(id@),
            None => forall|j: int| 0 <= j < ids@.len() ==> ids_view(ids@)[j] != Some(id@),
        },
{
    let ghost iv = ids_view(ids@);
    let n = ids.len();
    let mut k: usize = 0;
    while k < n
        invariant
            n == ids@.len(),
            iv == ids_view(ids@),
            0 <= k <= n,
            forall|j: int| 0 <= j < k ==> iv[j] != Some(id@),
        decreases n - k,
    {
        assert(iv[k as int] == opt_id_view(ids@[k as int]));
        if let Some(other) = &ids[k] {
            if other.same_as(id) {
                return Some(k);
            }
        }
        k = k + 1;
    }
    None
}

/// `id` is one of `ids`.
pub open spec fn id_in(ids: Seq<InterpId>, id: IdView) -> bool {
    exists|j: int| 0 <= j < ids.len() && (#[trigger] ids[j])@ == id
}

/// Whether `id` is one of `ids`.
fn contains_id(ids: &Vec<InterpId>, id: &InterpId) -> (r: bool)
    ensures
        r == id_in(ids@, id@),
{
    let n = ids.len();
    let mut k: usize = 0;
    while k < n
        invariant
            n == ids@.len(),
            0 <= k <= n,
            forall|j: int| 0 <= j < k ==> (#[trigger] ids@[j])@ != id@,
        decreases n - k,
    {
        if ids[k].same_as(id) {
            return true;
        }
        k = k + 1;
    }
    false
}

/// Every ID of `a` is an ID of `b`.
pub open spec fn ids_within(a: Seq<InterpId>, b: Seq<InterpId>) -> bool {
    forall|i: int| 0 <= i < a.len() ==> id_in(b, (#[trigger] a[i])@)
}

fn all_within(a: &Vec<InterpId>, b: &Vec<InterpId>) -> (r: bool)
    ensures
        r == ids_within(a@, b@),
{
    let n = a.len();
    let mut k: usize = 0;
    while k < n
        invariant
            n == a@.len(),
            0 <= k <= n,
            forall|i: int| 0 <= i < k ==> id_in(b@, (#[trigger] a@[i])@),
        decreases n - k,
    {
        if !contains_id(b, &a[k]) {
            return false;
        }
        k = k + 1;
    }
    true
}

/// Whether the two lists hold the same set of IDs.
pub fn same_id_set(a: &Vec<InterpId>, b: &Vec<InterpId>) -> (r: bool)
    ensures
        r == (ids_within(a@, b@) && ids_within(b@, a@)),
{
    all_within(a, b) && all_within(b, a)
}

} // verus!
