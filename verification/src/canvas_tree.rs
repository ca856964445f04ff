use vstd::prelude::*;

use crate::ids::{IdView, InterpId};

verus! {

/// An element drawn on a canvas, with the interpolation ID the user gave it.
#[derive(Clone)]
pub struct CanvasItem<E> {
    pub element: E,
    pub interp_id: Option<i64>,
}

/// A node of a canvas drawing: a single element or a nested group.
pub enum CanvasNode<E> {
    Item(CanvasItem<E>),
    Group(CanvasGroup<E>),
}

/// A group of canvas nodes; an ID given to the group is inherited by its elements.
pub struct CanvasGroup<E> {
    pub interp_id: Option<i64>,
    pub nodes: Vec<CanvasNode<E>>,
}

/// An element of a flattened canvas with its full interpolation ID, if any.
#[derive(Clone)]
pub struct FlatElement<E> {
    pub element: E,
    pub interp_id: Option<InterpId>,
}

/// Raised when an element inside a group with an ID has an ID of its own.
#[derive(Debug, Clone, Copy, PartialEq, Eq)]
pub enum FlattenError {
    MultipleInterpIds { element_id: i64, group_id: i64 },
}

/// The abstract value of a flattened element.
pub type FlatView<E> = (E, Option<IdView>);

pub open spec fn flat_view<E>(v: Seq<FlatElement<E>>) -> Seq<FlatView<E>> {
    v.map_values(
        |x: FlatElement<E>|
            (
                x.element,
                match x.interp_id {
                    Some(id) => Some(id@),
                    None => None,
                },
            ),
    )
}

/// The ID an element has on its own, before any group is taken into account.
pub open spec fn own_id(id: Option<i64>) -> Option<IdView> {
    match id {
        Some(x) => Some((x, Seq::<usize>::empty())),
        None => None,
    }
}

/// The `idx`-th element of a group, seen from outside the group: it takes the
/// group's ID (an element that already has one is an error), and its position in
/// the group is put in front of its draw-order path.
pub open spec fn retag_one<E>(item: FlatView<E>, group_id: Option<i64>, idx: int) -> Result<
    FlatView<E>,
    (i64, i64),
> {
    match group_id {
        Some(g) => match item.1 {
            Some(x) => Err((x.0, g)),
            None => Ok((item.0, Some((g, seq![idx as usize])))),
        },
        None => match item.1 {
            Some(x) => Ok((item.0, Some((x.0, seq![idx as usize] + x.1)))),
            None => Ok((item.0, None)),
        },
    }
}

/// The first `k` elements of a group seen from outside it; the first error wins.
pub open spec fn retag_upto<E>(items: Seq<FlatView<E>>, group_id: Option<i64>, k: int) -> Result<
    Seq<FlatView<E>>,
    (i64, i64),
>
    decreases k,
{
    if k <= 0 {
        Ok(Seq::empty())
    } else {
        match retag_upto(items, group_id, k - 1) {
            Err(x) => Err(x),
            Ok(prev) => match retag_one(items[k - 1], group_id, k - 1) {
                Err(x) => Err(x),
                Ok(it) => Ok(prev.push(it)),
            },
        }
    }
}

/// The elements of a node, depth first, left to right.
pub open spec fn flatten_node_spec<E>(n: CanvasNode<E>) -> Result<Seq<FlatView<E>>, (i64, i64)>
    decreases n,
{
    match n {
        CanvasNode::Item(it) => Ok(seq![(it.element, own_id(it.interp_id))]),
        CanvasNode::Group(g) => flatten_group_spec(g),
    }
}

/// The elements of a group: those of its nodes in order, seen from outside the group.
pub open spec fn flatten_group_spec<E>(g: CanvasGroup<E>) -> Result<Seq<FlatView<E>>, (i64, i64)>
    decreases g,
{
    match flatten_nodes_spec(g.nodes@) {
        Err(x) => Err(x),
        Ok(items) => retag_upto(items, g.interp_id, items.len() as int),
    }
}

/// The elements of a sequence of nodes, left to right; the leftmost error wins.
pub open spec fn flatten_nodes_spec<E>(ns: Seq<CanvasNode<E>>) -> Result<
    Seq<FlatView<E>>,
    (i64, i64),
>
    decreases ns,
{
    if ns.len() == 0 {
        Ok(Seq::empty())
    } else {
        match flatten_nodes_spec(ns.drop_last()) {
            Err(x) => Err(x),
            Ok(prev) => match flatten_node_spec(ns.last()) {
                Err(x) => Err(x),
                Ok(last) => Ok(prev + last),
            },
        }
    }
}

impl<E> CanvasItem<E> {
    /// Gives the element an interpolation ID.
    pub fn interp_id(&mut self, id: i64) -> (r: &mut Self)
        ensures
            r.interp_id == Some(id),
            r.element == old(self).element,
            *final(self) == *final(r),
    {
        self.interp_id = Some(id);
        self
    }
}

impl<E> CanvasGroup<E> {
    /// An empty group without an ID.
    pub fn new() -> (r: Self)
        ensures
            r.interp_id is None,
            r.nodes@.len() == 0,
    {
        CanvasGroup { interp_id: None, nodes: Vec::new() }
    }

    /// Gives the group an interpolation ID, inherited by all its elements.
    pub fn interp_id(&mut self, id: i64) -> (r: &mut Self)
        ensures
            r.interp_id == Some(id),
            r.nodes == old(self).nodes,
            *final(self) == *final(r),
    {
        self.interp_id = Some(id);
        self
    }

    /// Adds an element without an ID and returns it for further settings.
    pub fn push_item(&mut self, element: E) -> (r: &mut CanvasItem<E>)
        ensures
            r.element == element,
            r.interp_id is None,
            final(self).interp_id == old(self).interp_id,
            final(self).nodes@ == old(self).nodes@.push(CanvasNode::Item(*final(r))),
    {
        self.nodes.push(CanvasNode::Item(CanvasItem { element, interp_id: None }));
        let n = self.nodes.len();
        match &mut self.nodes[n - 1] {
            CanvasNode::Item(it) => it,
            CanvasNode::Group(_) => unreached(),
        }
    }

    /// Adds an empty nested group and returns it for further drawing.
    pub fn push_group(&mut self) -> (r: &mut CanvasGroup<E>)
        ensures
            r.interp_id is None,
            r.nodes@.len() == 0,
            final(self).interp_id == old(self).interp_id,
            final(self).nodes@ == old(self).nodes@.push(CanvasNode::Group(*final(r))),
    {
        self.nodes.push(CanvasNode::Group(CanvasGroup::new()));
        let n = self.nodes.len();
        match &mut self.nodes[n - 1] {
            CanvasNode::Group(g) => g,
            CanvasNode::Item(_) => unreached(),
        }
    }
}

/// The elements of a node, depth first: those of a group take the group's ID (an
/// element with an ID of its own inside a group with an ID is an error) and have
/// their position in the group put in front of their draw-order path.
pub fn flatten_node<E>(n: CanvasNode<E>) -> (r: Result<Vec<FlatElement<E>>, FlattenError>)
    ensures
        match flatten_node_spec(n) {
            Ok(v) => r matches Ok(x) && flat_view(x@) == v,
            Err((e, g)) => r == Err::<Vec<FlatElement<E>>, FlattenError>(
                FlattenError::MultipleInterpIds { element_id: e, group_id: g },
            ),
        },
    decreases n,
{
    match n {
        CanvasNode::Item(it) => {
            let id = match it.interp_id {
                Some(x) => Some(InterpId::new(x)),
                None => None,
            };
            let mut v: Vec<FlatElement<E>> = Vec::new();
            v.push(FlatElement { element: it.element, interp_id: id });
            assert(flat_view(v@) =~= seq![(it.element, own_id(it.interp_id))]);
            Ok(v)
        },
        CanvasNode::Group(g) => flatten_group(g),
    }
}

/// The elements of a group, depth first, seen from outside the group.
pub fn flatten_group<E>(g: CanvasGroup<E>) -> (r: Result<Vec<FlatElement<E>>, FlattenError>)
    ensures
        match flatten_group_spec(g) {
            Ok(v) => r matches Ok(x) && flat_view(x@) == v,
            Err((e, gid)) => r == Err::<Vec<FlatElement<E>>, FlattenError>(
                FlattenError::MultipleInterpIds { element_id: e, group_id: gid },
            ),
        },
        r matches Ok(x) ==> flatten_nodes_spec(g.nodes@) is Ok && tagged_by_position(
            g.interp_id,
            flatten_nodes_spec(g.nodes@)->Ok_0,
            flat_view(x@),
        ),
    decreases g,
{
    let ghost g0 = g;
    proof {
        if flatten_group_spec(g0) is Ok {
            lemma_group_tags_by_position(g0);
        }
    }
    let CanvasGroup { interp_id: group_id, nodes } = g;
    proof {
        assert(decreases_to!(g0 => g0.nodes));
        assert(decreases_to!(g0.nodes => g0.nodes@));
        assert(decreases_to!(g0 => nodes@));
    }
    match flatten_nodes(nodes) {
        Err(x) => Err(x),
        Ok(items) => retag(items, group_id),
    }
}

/// The elements of a sequence of nodes, depth first, left to right.
pub fn flatten_nodes<E>(nodes: Vec<CanvasNode<E>>) -> (r: Result<Vec<FlatElement<E>>, FlattenError>)
    ensures
        match flatten_nodes_spec(nodes@) {
            Ok(v) => r matches Ok(x) && flat_view(x@) == v,
            Err((e, gid)) => r == Err::<Vec<FlatElement<E>>, FlattenError>(
                FlattenError::MultipleInterpIds { element_id: e, group_id: gid },
            ),
        },
    decreases nodes@,
{
    let ghost ns = nodes@;
    let n = nodes.len();
    let mut rest = nodes;
    let mut items: Vec<FlatElement<E>> = Vec::new();
    let mut k: usize = 0;
    assert(ns.subrange(0, 0) =~= Seq::<CanvasNode<E>>::empty());
    assert(flat_view(items@) =~= Seq::<FlatView<E>>::empty());
    assert(rest@ =~= ns.subrange(0, n as int));
    while k < n
        invariant
            nodes@ == ns,
            n == ns.len(),
            0 <= k <= n,
            rest@ == ns.subrange(k as int, n as int),
            flatten_nodes_spec(ns.subrange(0, k as int)) == Ok::<Seq<FlatView<E>>, (i64, i64)>(flat_view(items@)),
        decreases n - k,
    {
        let node = rest.remove(0);
        assert(node == ns[k as int]);
        assert(rest@ =~= ns.subrange(k as int + 1, n as int));
        let ghost pre = ns.subrange(0, k as int + 1);
        assert(pre.drop_last() =~= ns.subrange(0, k as int));
        assert(pre.last() == node);
        proof {
            assert(decreases_to!(ns => ns[k as int]));
        }
        match flatten_node(node) {
            Err(x) => {
                proof {
                    lemma_flatten_nodes_stays_failed(ns, k as int + 1, n as int);
                    assert(ns.subrange(0, n as int) =~= ns);
                }
                return Err(x);
            },
            Ok(mut v) => {
                let ghost before = flat_view(items@);
                let ghost added = flat_view(v@);
                items.append(&mut v);
                assert(flat_view(items@) =~= before + added);
            },
        }
        k = k + 1;
    }
    assert(ns.subrange(0, n as int) =~= ns);
    Ok(items)
}

proof fn lemma_flatten_nodes_stays_failed<E>(ns: Seq<CanvasNode<E>>, k: int, n: int)
    requires
        0 <= k <= n <= ns.len(),
        flatten_nodes_spec(ns.subrange(0, k)) is Err,
    ensures
        flatten_nodes_spec(ns.subrange(0, n)) == flatten_nodes_spec(ns.subrange(0, k)),
    decreases n - k,
{
    if k < n {
        let pre = ns.subrange(0, k + 1);
        assert(pre.drop_last() =~= ns.subrange(0, k));
        lemma_flatten_nodes_stays_failed(ns, k + 1, n);
    }
}

proof fn lemma_retag_stays_failed<E>(items: Seq<FlatView<E>>, group_id: Option<i64>, k: int, n: int)
    requires
        0 <= k <= n,
        retag_upto(items, group_id, k) is Err,
    ensures
        retag_upto(items, group_id, n) == retag_upto(items, group_id, k),
    decreases n - k,
{
    if k < n {
        lemma_retag_stays_failed(items, group_id, k + 1, n);
    }
}

/// The elements of a group seen from outside it.
fn retag<E>(items: Vec<FlatElement<E>>, group_id: Option<i64>) -> (r: Result<
    Vec<FlatElement<E>>,
    FlattenError,
>)
    ensures
        match retag_upto(flat_view(items@), group_id, items@.len() as int) {
            Ok(v) => r matches Ok(x) && flat_view(x@) == v,
            Err((e, g)) => r == Err::<Vec<FlatElement<E>>, FlattenError>(
                FlattenError::MultipleInterpIds { element_id: e, group_id: g },
            ),
        },
{
    let ghost iv = flat_view(items@);
    let ghost orig = items@;
    let n = items.len();
    let mut rest = items;
    let mut out: Vec<FlatElement<E>> = Vec::new();
    let mut k: usize = 0;
    assert(flat_view(out@) =~= Seq::<FlatView<E>>::empty());
    while k < n
        invariant
            items@ == orig,
            n == orig.len(),
            iv == flat_view(orig),
            0 <= k <= n,
            rest@ == orig.subrange(k as int, n as int),
            retag_upto(iv, group_id, k as int) == Ok::<Seq<FlatView<E>>, (i64, i64)>(flat_view(out@)),
        decreases n - k,
    {
        let item = rest.remove(0);
        assert(rest@ =~= orig.subrange(k as int + 1, n as int));
        assert(item == orig[k as int]);
        assert(iv[k as int] == (item.element, match item.interp_id {
            Some(id) => Some(id@),
            None => None,
        }));
        let ghost before = flat_view(out@);
        let tagged = match group_id {
            Some(gid) => match item.interp_id {
                Some(x) => {
                    proof {
                        assert(retag_one(iv[k as int], group_id, k as int) == Err::<FlatView<E>, (i64, i64)>((x.id, gid)));
                        assert(retag_upto(iv, group_id, k as int + 1) == Err::<Seq<FlatView<E>>, (i64, i64)>((x.id, gid)));
                        lemma_retag_stays_failed(iv, group_id, k as int + 1, n as int);
                    }
                    return Err(FlattenError::MultipleInterpIds { element_id: x.id, group_id: gid });
                },
                None => {
                    let mut path: Vec<usize> = Vec::new();
                    path.push(k);
                    assert(path@ =~= seq![k]);
                    FlatElement {
                        element: item.element,
                        interp_id: Some(InterpId { id: gid, draw_order_idx: path }),
                    }
                },
            },
            None => match item.interp_id {
                Some(x) => {
                    let ghost old_path = x.draw_order_idx@;
                    let mut path = x.draw_order_idx;
                    path.insert(0, k);
                    assert(path@ =~= seq![k] + old_path);
                    FlatElement {
                        element: item.element,
                        interp_id: Some(InterpId { id: x.id, draw_order_idx: path }),
                    }
                },
                None => FlatElement { element: item.element, interp_id: None },
            },
        };
        assert(retag_one(iv[k as int], group_id, k as int) == Ok::<FlatView<E>, (i64, i64)>(
            (tagged.element, match tagged.interp_id {
                Some(id) => Some(id@),
                None => None,
            }),
        ));
        out.push(tagged);
        k = k + 1;
        assert(flat_view(out@) =~= before.push(retag_one(iv[k - 1], group_id, k - 1)->Ok_0));
    }
    Ok(out)
}

impl<E> CanvasGroup<E> {
    /// The elements of a whole drawing (this group is its top level), depth first,
    /// with their full interpolation IDs. The top level adds nothing to the IDs: only
    /// nested groups pass on their ID and their positions.
    pub fn flatten(self) -> (r: Result<Vec<FlatElement<E>>, FlattenError>)
        ensures
            match flatten_nodes_spec(self.nodes@) {
                Ok(v) => r matches Ok(x) && flat_view(x@) == v,
                Err((e, g)) => r == Err::<Vec<FlatElement<E>>, FlattenError>(
                    FlattenError::MultipleInterpIds { element_id: e, group_id: g },
                ),
            },
    {
        flatten_nodes(self.nodes)
    }
}

/// The elements of a node, depth first, left to right, without their IDs.
pub open spec fn node_elements<E>(n: CanvasNode<E>) -> Seq<E>
    decreases n,
{
    match n {
        CanvasNode::Item(it) => seq![it.element],
        CanvasNode::Group(g) => group_elements(g),
    }
}

pub open spec fn group_elements<E>(g: CanvasGroup<E>) -> Seq<E>
    decreases g,
{
    nodes_elements(g.nodes@)
}

pub open spec fn nodes_elements<E>(ns: Seq<CanvasNode<E>>) -> Seq<E>
    decreases ns,
{
    if ns.len() == 0 {
        Seq::empty()
    } else {
        nodes_elements(ns.drop_last()) + node_elements(ns.last())
    }
}

pub open spec fn elements_of<E>(v: Seq<FlatView<E>>) -> Seq<E> {
    v.map_values(|x: FlatView<E>| x.0)
}

proof fn lemma_retag_keeps_elements<E>(items: Seq<FlatView<E>>, group_id: Option<i64>, k: int)
    requires
        0 <= k <= items.len(),
        retag_upto(items, group_id, k) is Ok,
    ensures
        elements_of(retag_upto(items, group_id, k)->Ok_0) == elements_of(items.subrange(0, k)),
    decreases k,
{
    if k == 0 {
        assert(elements_of(retag_upto(items, group_id, 0)->Ok_0) =~= elements_of(items.subrange(0, 0)));
    } else {
        lemma_retag_keeps_elements(items, group_id, k - 1);
        let prev = retag_upto(items, group_id, k - 1)->Ok_0;
        let it = retag_one(items[k - 1], group_id, k - 1)->Ok_0;
        assert(retag_upto(items, group_id, k)->Ok_0 == prev.push(it));
        assert(elements_of(prev.push(it)) =~= elements_of(prev).push(it.0));
        assert(elements_of(items.subrange(0, k)) =~= elements_of(items.subrange(0, k - 1)).push(items[k - 1].0));
    }
}

proof fn lemma_node_keeps_elements<E>(n: CanvasNode<E>)
    requires
        flatten_node_spec(n) is Ok,
    ensures
        elements_of(flatten_node_spec(n)->Ok_0) == node_elements(n),
    decreases n,
{
    match n {
        CanvasNode::Item(it) => {
            assert(elements_of(seq![(it.element, own_id(it.interp_id))]) =~= seq![it.element]);
        },
        CanvasNode::Group(g) => {
            lemma_group_keeps_elements(g);
        },
    }
}

proof fn lemma_group_keeps_elements<E>(g: CanvasGroup<E>)
    requires
        flatten_group_spec(g) is Ok,
    ensures
        elements_of(flatten_group_spec(g)->Ok_0) == group_elements(g),
    decreases g,
{
    assert(decreases_to!(g => g.nodes));
    assert(decreases_to!(g.nodes => g.nodes@));
    lemma_nodes_keeps_elements(g.nodes@);
    let items = flatten_nodes_spec(g.nodes@)->Ok_0;
    lemma_retag_keeps_elements(items, g.interp_id, items.len() as int);
    assert(items.subrange(0, items.len() as int) =~= items);
}

proof fn lemma_nodes_keeps_elements<E>(ns: Seq<CanvasNode<E>>)
    requires
        flatten_nodes_spec(ns) is Ok,
    ensures
        elements_of(flatten_nodes_spec(ns)->Ok_0) == nodes_elements(ns),
    decreases ns,
{
    if ns.len() == 0 {
        assert(elements_of(Seq::<FlatView<E>>::empty()) =~= Seq::<E>::empty());
    } else {
        lemma_nodes_keeps_elements(ns.drop_last());
        lemma_node_keeps_elements(ns.last());
        let a = flatten_nodes_spec(ns.drop_last())->Ok_0;
        let b = flatten_node_spec(ns.last())->Ok_0;
        assert(elements_of(a + b) =~= elements_of(a) + elements_of(b));
    }
}

/// Flattening a drawing neither loses, repeats nor reorders elements: when it
/// succeeds, its elements are those of the drawing, depth first, left to right.
pub proof fn lemma_flatten_keeps_elements<E>(g: CanvasGroup<E>)
    requires
        flatten_nodes_spec(g.nodes@) is Ok,
    ensures
        elements_of(flatten_nodes_spec(g.nodes@)->Ok_0) == nodes_elements(g.nodes@),
{
    lemma_nodes_keeps_elements(g.nodes@);
}

/// Every element of the node has at most one source of interpolation ID (its own ID
/// or that of an enclosing nested group), counting `above` sources above the node.
pub open spec fn sources_ok<E>(n: CanvasNode<E>, above: nat) -> bool
    decreases n,
{
    match n {
        CanvasNode::Item(it) => above + (if it.interp_id is Some {
            1nat
        } else {
            0nat
        }) <= 1,
        CanvasNode::Group(g) => group_sources_ok(g, above),
    }
}

pub open spec fn group_sources_ok<E>(g: CanvasGroup<E>, above: nat) -> bool
    decreases g,
{
    nodes_sources_ok(
        g.nodes@,
        above + if g.interp_id is Some {
            1nat
        } else {
            0nat
        },
    )
}

pub open spec fn nodes_sources_ok<E>(ns: Seq<CanvasNode<E>>, above: nat) -> bool
    decreases ns,
{
    if ns.len() == 0 {
        true
    } else {
        nodes_sources_ok(ns.drop_last(), above) && sources_ok(ns.last(), above)
    }
}

/// No flattened element has an ID.
pub open spec fn all_untagged<E>(v: Seq<FlatView<E>>) -> bool {
    forall|k: int| 0 <= k < v.len() ==> (#[trigger] v[k]).1 is None
}

proof fn lemma_sources_many<E>(n: CanvasNode<E>, above: nat)
    requires
        above >= 2,
    ensures
        sources_ok(n, above) <==> node_elements(n).len() == 0,
    decreases n,
{
    match n {
        CanvasNode::Item(it) => {},
        CanvasNode::Group(g) => {
            assert(decreases_to!(g => g.nodes));
            assert(decreases_to!(g.nodes => g.nodes@));
            lemma_nodes_sources_many(g.nodes@, above + if g.interp_id is Some {
                1nat
            } else {
                0nat
            });
        },
    }
}

proof fn lemma_nodes_sources_many<E>(ns: Seq<CanvasNode<E>>, above: nat)
    requires
        above >= 2,
    ensures
        nodes_sources_ok(ns, above) <==> nodes_elements(ns).len() == 0,
    decreases ns,
{
    if ns.len() > 0 {
        lemma_nodes_sources_many(ns.drop_last(), above);
        lemma_sources_many(ns.last(), above);
    }
}

proof fn lemma_sources_monotone<E>(n: CanvasNode<E>, a: nat, b: nat)
    requires
        a <= b,
        sources_ok(n, b),
    ensures
        sources_ok(n, a),
    decreases n,
{
    match n {
        CanvasNode::Item(it) => {},
        CanvasNode::Group(g) => {
            assert(decreases_to!(g => g.nodes));
            assert(decreases_to!(g.nodes => g.nodes@));
            let extra: nat = if g.interp_id is Some {
                1nat
            } else {
                0nat
            };
            lemma_nodes_sources_monotone(g.nodes@, a + extra, b + extra);
        },
    }
}

proof fn lemma_nodes_sources_monotone<E>(ns: Seq<CanvasNode<E>>, a: nat, b: nat)
    requires
        a <= b,
        nodes_sources_ok(ns, b),
    ensures
        nodes_sources_ok(ns, a),
    decreases ns,
{
    if ns.len() > 0 {
        lemma_nodes_sources_monotone(ns.drop_last(), a, b);
        lemma_sources_monotone(ns.last(), a, b);
    }
}

proof fn lemma_retag_untagged<E>(items: Seq<FlatView<E>>, k: int)
    requires
        0 <= k <= items.len(),
    ensures
        retag_upto(items, None, k) is Ok,
        retag_upto(items, None, k)->Ok_0.len() == k,
        forall|j: int|
            0 <= j < k ==> ((#[trigger] retag_upto(items, None, k)->Ok_0[j]).1 is None <==> items[j].1 is None),
    decreases k,
{
    if k > 0 {
        lemma_retag_untagged(items, k - 1);
        let prev = retag_upto(items, None, k - 1)->Ok_0;
        let it = retag_one(items[k - 1], None, k - 1)->Ok_0;
        let cur = prev.push(it);
        assert(retag_upto(items, None, k)->Ok_0 == cur);
        assert forall|j: int| 0 <= j < k implies ((#[trigger] cur[j]).1 is None <==> items[j].1 is None) by {
            if j < k - 1 {
                assert(cur[j] == prev[j]);
            }
        }
    }
}

proof fn lemma_retag_tagged<E>(items: Seq<FlatView<E>>, gid: i64, k: int)
    requires
        0 <= k <= items.len(),
    ensures
        retag_upto(items, Some(gid), k) is Ok <==> all_untagged(items.subrange(0, k)),
        retag_upto(items, Some(gid), k) is Ok ==> retag_upto(items, Some(gid), k)->Ok_0.len() == k
            && forall|j: int|
            0 <= j < k ==> (#[trigger] retag_upto(items, Some(gid), k)->Ok_0[j]).1 is Some,
    decreases k,
{
    if k > 0 {
        lemma_retag_tagged(items, gid, k - 1);
        let sub = items.subrange(0, k);
        let sub0 = items.subrange(0, k - 1);
        assert(sub =~= sub0.push(items[k - 1]));
        if all_untagged(sub) {
            assert(all_untagged(sub0)) by {
                assert forall|i: int| 0 <= i < sub0.len() implies (#[trigger] sub0[i]).1 is None by {
                    assert(sub[i] == sub0[i]);
                }
            }
            assert(sub[k - 1].1 is None);
        }
        if retag_upto(items, Some(gid), k) is Ok {
            let prev = retag_upto(items, Some(gid), k - 1)->Ok_0;
            let it = retag_one(items[k - 1], Some(gid), k - 1)->Ok_0;
            assert(retag_upto(items, Some(gid), k)->Ok_0 == prev.push(it));
            assert forall|i: int| 0 <= i < sub.len() implies (#[trigger] sub[i]).1 is None by {
                if i < k - 1 {
                    assert(sub[i] == sub0[i]);
                }
            }
        }
    }
}

proof fn lemma_node_sources<E>(n: CanvasNode<E>)
    ensures
        flatten_node_spec(n) is Ok <==> sources_ok(n, 0),
        flatten_node_spec(n) is Ok ==> (all_untagged(flatten_node_spec(n)->Ok_0) <==> sources_ok(
            n,
            1,
        )),
    decreases n,
{
    match n {
        CanvasNode::Item(it) => {
            let v = seq![(it.element, own_id(it.interp_id))];
            if all_untagged(v) {
                assert(v[0].1 is None);
            }
        },
        CanvasNode::Group(g) => {
            lemma_group_sources(g);
        },
    }
}

proof fn lemma_group_sources<E>(g: CanvasGroup<E>)
    ensures
        flatten_group_spec(g) is Ok <==> group_sources_ok(g, 0),
        flatten_group_spec(g) is Ok ==> (all_untagged(flatten_group_spec(g)->Ok_0)
            <==> group_sources_ok(g, 1)),
    decreases g,
{
    assert(decreases_to!(g => g.nodes));
    assert(decreases_to!(g.nodes => g.nodes@));
    let ns = g.nodes@;
    lemma_nodes_sources(ns);
    if flatten_nodes_spec(ns) is Ok {
        let items = flatten_nodes_spec(ns)->Ok_0;
        assert(items.subrange(0, items.len() as int) =~= items);
        match g.interp_id {
            None => {
                lemma_retag_untagged(items, items.len() as int);
                let out = flatten_group_spec(g)->Ok_0;
                assert(out == retag_upto(items, None, items.len() as int)->Ok_0);
                if all_untagged(out) {
                    assert forall|k: int| 0 <= k < items.len() implies (#[trigger] items[k]).1 is None by {
                        assert(out[k].1 is None);
                    }
                }
                if all_untagged(items) {
                    assert forall|k: int| 0 <= k < out.len() implies (#[trigger] out[k]).1 is None by {
                        assert(items[k].1 is None);
                    }
                }
            },
            Some(gid) => {
                lemma_retag_tagged(items, gid, items.len() as int);
                if nodes_sources_ok(ns, 1) {
                    lemma_nodes_sources_monotone(ns, 0, 1);
                }
                lemma_nodes_keeps_elements(ns);
                lemma_nodes_sources_many(ns, 2);
                assert(elements_of(items).len() == items.len());
                if flatten_group_spec(g) is Ok {
                    let out = flatten_group_spec(g)->Ok_0;
                    if items.len() > 0 {
                        assert(out[0].1 is Some);
                    }
                }
            },
        }
    } else {
        if g.interp_id is None {
        } else {
            if nodes_sources_ok(ns, 1) {
                lemma_nodes_sources_monotone(ns, 0, 1);
            }
        }
    }
}

proof fn lemma_nodes_sources<E>(ns: Seq<CanvasNode<E>>)
    ensures
        flatten_nodes_spec(ns) is Ok <==> nodes_sources_ok(ns, 0),
        flatten_nodes_spec(ns) is Ok ==> (all_untagged(flatten_nodes_spec(ns)->Ok_0)
            <==> nodes_sources_ok(ns, 1)),
    decreases ns,
{
    if ns.len() > 0 {
        lemma_nodes_sources(ns.drop_last());
        lemma_node_sources(ns.last());
        if flatten_nodes_spec(ns) is Ok {
            let a = flatten_nodes_spec(ns.drop_last())->Ok_0;
            let b = flatten_node_spec(ns.last())->Ok_0;
            let v = a + b;
            assert(flatten_nodes_spec(ns)->Ok_0 == v);
            if all_untagged(v) {
                assert forall|k: int| 0 <= k < a.len() implies (#[trigger] a[k]).1 is None by {
                    assert(v[k] == a[k]);
                }
                assert forall|k: int| 0 <= k < b.len() implies (#[trigger] b[k]).1 is None by {
                    assert(v[a.len() + k] == b[k]);
                }
            }
            if all_untagged(a) && all_untagged(b) {
                assert forall|k: int| 0 <= k < v.len() implies (#[trigger] v[k]).1 is None by {
                    if k < a.len() {
                        assert(v[k] == a[k]);
                    } else {
                        assert(v[k] == b[k - a.len()]);
                    }
                }
            }
        }
    }
}

/// Flattening a drawing fails exactly when some element has two sources of
/// interpolation ID: its own ID and that of an enclosing nested group, or the IDs of
/// two enclosing nested groups (the top level of the drawing passes on no ID).
pub proof fn lemma_flatten_fails_iff_two_id_sources<E>(g: CanvasGroup<E>)
    ensures
        flatten_nodes_spec(g.nodes@) is Ok <==> nodes_sources_ok(g.nodes@, 0),
{
    lemma_nodes_sources(g.nodes@);
}

proof fn lemma_retag_positions<E>(items: Seq<FlatView<E>>, group_id: Option<i64>, k: int)
    requires
        0 <= k <= items.len(),
        retag_upto(items, group_id, k) is Ok,
    ensures
        retag_upto(items, group_id, k)->Ok_0.len() == k,
        forall|j: int| 0 <= j < k ==> (#[trigger] retag_one(items[j], group_id, j)) is Ok,
        forall|j: int|
            0 <= j < k ==> #[trigger] retag_upto(items, group_id, k)->Ok_0[j] == retag_one(
                items[j],
                group_id,
                j,
            )->Ok_0,
    decreases k,
{
    if k > 0 {
        lemma_retag_positions(items, group_id, k - 1);
        let prev = retag_upto(items, group_id, k - 1)->Ok_0;
        let it = retag_one(items[k - 1], group_id, k - 1)->Ok_0;
        let cur = prev.push(it);
        assert(retag_upto(items, group_id, k)->Ok_0 == cur);
        assert forall|j: int| 0 <= j < k implies (#[trigger] retag_one(items[j], group_id, j)) is Ok by {
            if j == k - 1 {
                assert(retag_upto(items, group_id, k) is Ok);
            }
        }
        assert forall|j: int|
            0 <= j < k implies #[trigger] retag_upto(items, group_id, k)->Ok_0[j] == retag_one(
            items[j],
            group_id,
            j,
        )->Ok_0 by {
            if j < k - 1 {
                assert(cur[j] == prev[j]);
                assert(prev[j] == retag_upto(items, group_id, k - 1)->Ok_0[j]);
            } else {
                assert(cur[j] == it);
            }
        }
    }
}

/// How a group tags the flattened contents `inner` of its nodes, giving `v`: the
/// elements stay as they are, in order; in a group with an ID, the element at
/// position `k` (which has no ID of its own) gets the group's ID with the path `[k]`;
/// in a group without one, an element with an ID keeps it and gets `k` put in front
/// of its path, and an element without one stays without.
pub open spec fn tagged_by_position<E>(
    group_id: Option<i64>,
    inner: Seq<FlatView<E>>,
    v: Seq<FlatView<E>>,
) -> bool {
    &&& v.len() == inner.len()
    &&& forall|k: int| 0 <= k < v.len() ==> (#[trigger] v[k]).0 == inner[k].0
    &&& forall|k: int|
        0 <= k < v.len() ==> match group_id {
            Some(gid) => inner[k].1 is None && (#[trigger] v[k]).1 == Some(
                (gid, seq![k as usize]),
            ),
            None => (#[trigger] v[k]).1 == match inner[k].1 {
                Some(x) => Some((x.0, seq![k as usize] + x.1)),
                None => None,
            },
        }
}

/// A nested group tags each element by its position: when flattening the group
/// succeeds, its elements are those of its nodes, in order, and the element at
/// position `k` has as draw-order path `[k]` in front of its own (just `[k]` under
/// the group's ID). So no two elements of the group share an ID: tagged elements at
/// different positions get different paths.
pub proof fn lemma_group_tags_by_position<E>(g: CanvasGroup<E>)
    requires
        flatten_group_spec(g) is Ok,
    ensures
        flatten_nodes_spec(g.nodes@) is Ok,
        tagged_by_position(g.interp_id, flatten_nodes_spec(g.nodes@)->Ok_0, flatten_group_spec(g)->Ok_0),
        forall|k1: int, k2: int|
            0 <= k1 < k2 < flatten_group_spec(g)->Ok_0.len() && k2 <= usize::MAX && (
            #[trigger] flatten_group_spec(g)->Ok_0[k1]).1 is Some ==> flatten_group_spec(g)->Ok_0[k1].1
                != (#[trigger] flatten_group_spec(g)->Ok_0[k2]).1,
{
    let inner = flatten_nodes_spec(g.nodes@)->Ok_0;
    let v = flatten_group_spec(g)->Ok_0;
    lemma_retag_positions(inner, g.interp_id, inner.len() as int);
    assert forall|k: int| 0 <= k < v.len() implies (#[trigger] v[k]).0 == inner[k].0 by {
        assert(v[k] == retag_one(inner[k], g.interp_id, k)->Ok_0);
    }
    assert forall|k: int|
        0 <= k < v.len() implies match g.interp_id {
            Some(gid) => inner[k].1 is None && (#[trigger] v[k]).1 == Some((gid, seq![k as usize])),
            None => (#[trigger] v[k]).1 == match inner[k].1 {
                Some(x) => Some((x.0, seq![k as usize] + x.1)),
                None => None,
            },
        } by {
        assert(v[k] == retag_one(inner[k], g.interp_id, k)->Ok_0);
    }
    assert forall|k1: int, k2: int|
        0 <= k1 < k2 < v.len() && k2 <= usize::MAX && (#[trigger] v[k1]).1 is Some implies v[k1].1
            != (#[trigger] v[k2]).1 by {
        assert(v[k1] == retag_one(inner[k1], g.interp_id, k1)->Ok_0);
        assert(v[k2] == retag_one(inner[k2], g.interp_id, k2)->Ok_0);
        if v[k2].1 is Some {
            let p1 = (v[k1].1->0).1;
            let p2 = (v[k2].1->0).1;
            assert(p1[0] == k1 as usize);
            assert(p2[0] == k2 as usize);
        }
    }
}

} // verus!
