//! Merging states and collecting what the floors dominate.
use super::model::{
    at_or, empty_attr, gc_fold, key_kind, kinds_agree, merge_attr, merge_folds, merge_key,
    merge_props, merge_regs, AttrModel, GraphKey, KeyModel, PropModel, Props,
};
use super::state::{lemma_remove_insert, KeyState, NodeAttrState, PropReg};
use super::Fold;
use crate::fact::{FieldId, NodeId};
use crate::objkey::{ObjKey, ObjModel};
use crate::order::{Dup, Key};
use crate::ordmap::{
    ascending, has_row, lemma_partway_end, lemma_partway_start, lemma_partway_step, lemma_row,
    partway, OrdMap,
};
use vstd::prelude::*;

verus! {

fn join_keys(
    a: &mut OrdMap<(NodeId, FieldId), KeyState>,
    b: &OrdMap<(NodeId, FieldId), KeyState>,
)
    requires
        forall|k: GraphKey| #[trigger]
            old(a)@.contains_key(k) && b@.contains_key(k) ==> key_kind(old(a)@[k]) == key_kind(
                b@[k],
            ),
    ensures
        final(a)@ == merge_key_maps(old(a)@, b@),
{
    let n: usize = b.len();
    let ghost m0 = a@;
    let ghost goal = merge_key_maps(m0, b@);
    let ghost rows = b.rows();
    let mut i: usize = 0;
    proof {
        lemma_partway_start(m0, goal, rows);
    }
    while i < n
        invariant
            i <= n,
            n == rows.len(),
            rows == b.rows(),
            ascending::<(NodeId, FieldId), KeyModel>(rows),
            goal == merge_key_maps(m0, b@),
            forall|k: GraphKey| #[trigger]
                m0.contains_key(k) && b@.contains_key(k) ==> key_kind(m0[k]) == key_kind(b@[k]),
            a@ == partway(m0, goal, rows.take(i as int)),
        decreases n - i,
    {
        proof {
            lemma_partway_step::<(NodeId, FieldId), KeyModel, KeyModel>(m0, goal, rows, i as int);
            lemma_row::<(NodeId, FieldId), KeyModel>(rows, i as int);
        }
        let ghost before = a@;
        let k = *b.key_at(i);
        let st = b.value_at(i);
        let joined = match a.take(&k) {
            Some(mut s) => {
                s.merge(st);
                s
            },
            None => st.dup(),
        };
        proof {
            lemma_remove_insert(before, k, joined.deep_view());
            assert(goal.contains_key(k));
            assert(joined.deep_view() == goal[k]);
        }
        a.insert(k, joined);
        i += 1;
    }
    proof {
        assert forall|k: GraphKey| !(#[trigger] has_row(rows, k)) implies goal.contains_key(k)
            == m0.contains_key(k) && (goal.contains_key(k) ==> goal[k] == m0[k]) by {
            assert(!b@.contains_key(k));
        }
        lemma_partway_end(m0, goal, rows);
    }
}

/// Graph states merged key by key.
pub open spec fn merge_key_maps(
    a: Map<GraphKey, KeyModel>,
    b: Map<GraphKey, KeyModel>,
) -> Map<GraphKey, KeyModel> {
    Map::new(
        |k: GraphKey| a.contains_key(k) || b.contains_key(k),
        |k: GraphKey|
            if !a.contains_key(k) {
                b[k]
            } else if !b.contains_key(k) {
                a[k]
            } else {
                merge_key(a[k], b[k])
            },
    )
}

fn join_regs(a: &mut OrdMap<String, PropReg>, b: &OrdMap<String, PropReg>)
    ensures
        final(a)@ == merge_regs(old(a)@, b@),
{
    let n: usize = b.len();
    let ghost m0 = a@;
    let ghost goal = merge_regs(m0, b@);
    let ghost rows = b.rows();
    let mut i: usize = 0;
    proof {
        lemma_partway_start(m0, goal, rows);
    }
    while i < n
        invariant
            i <= n,
            n == rows.len(),
            rows == b.rows(),
            ascending::<String, PropModel>(rows),
            goal == merge_regs(m0, b@),
            a@ == partway(m0, goal, rows.take(i as int)),
        decreases n - i,
    {
        proof {
            lemma_partway_step::<String, PropModel, PropModel>(m0, goal, rows, i as int);
            lemma_row::<String, PropModel>(rows, i as int);
        }
        let key = b.key_at(i);
        let reg = b.value_at(i);
        let wins = match a.get(key) {
            Some(cur) => cur.ok.precedes(&reg.ok),
            None => true,
        };
        if wins {
            a.insert(key.dup(), reg.dup());
        } else {
            assert(a@.insert(key@, goal[key@]) =~= a@);
        }
        i += 1;
    }
    proof {
        assert forall|k: Seq<char>| !(#[trigger] has_row(rows, k)) implies goal.contains_key(k)
            == m0.contains_key(k) && (goal.contains_key(k) ==> goal[k] == m0[k]) by {
            assert(!b@.contains_key(k));
        }
        lemma_partway_end(m0, goal, rows);
    }
}

fn join_props(
    a: &mut OrdMap<ObjKey, OrdMap<String, PropReg>>,
    b: &OrdMap<ObjKey, OrdMap<String, PropReg>>,
)
    ensures
        final(a)@ == merge_props(old(a)@, b@),
{
    let n: usize = b.len();
    let ghost m0 = a@;
    let ghost goal = merge_props(m0, b@);
    let ghost rows = b.rows();
    let mut i: usize = 0;
    proof {
        lemma_partway_start(m0, goal, rows);
    }
    while i < n
        invariant
            i <= n,
            n == rows.len(),
            rows == b.rows(),
            ascending::<ObjKey, Map<Seq<char>, PropModel>>(rows),
            goal == merge_props(m0, b@),
            a@ == partway(m0, goal, rows.take(i as int)),
        decreases n - i,
    {
        proof {
            lemma_partway_step::<
                ObjKey,
                Map<Seq<char>, PropModel>,
                Map<Seq<char>, PropModel>,
            >(m0, goal, rows, i as int);
            lemma_row::<ObjKey, Map<Seq<char>, PropModel>>(rows, i as int);
        }
        let ghost before = a@;
        let obj = b.key_at(i);
        let mut e = match a.take(obj) {
            Some(e) => e,
            None => OrdMap::new(),
        };
        join_regs(&mut e, b.value_at(i));
        proof {
            lemma_remove_insert(before, obj@, e@);
            assert(goal.contains_key(obj@));
            assert(e@ == goal[obj@]);
        }
        a.insert(obj.dup(), e);
        i += 1;
    }
    proof {
        assert forall|k: ObjModel| !(#[trigger] has_row(rows, k)) implies goal.contains_key(k)
            == m0.contains_key(k) && (goal.contains_key(k) ==> goal[k] == m0[k]) by {
            assert(!b@.contains_key(k));
            if m0.contains_key(k) {
                assert(merge_regs(m0[k], Map::empty()) =~= m0[k]);
            }
        }
        lemma_partway_end(m0, goal, rows);
    }
}

/// Edge-property stores merged key by key.
pub open spec fn merge_prop_maps(a: Map<GraphKey, Props>, b: Map<GraphKey, Props>) -> Map<
    GraphKey,
    Props,
> {
    Map::new(
        |k: GraphKey| a.contains_key(k) || b.contains_key(k),
        |k: GraphKey| merge_props(at_or(a, k, Map::empty()), at_or(b, k, Map::empty())),
    )
}

fn join_edge_props(
    a: &mut OrdMap<(NodeId, FieldId), OrdMap<ObjKey, OrdMap<String, PropReg>>>,
    b: &OrdMap<(NodeId, FieldId), OrdMap<ObjKey, OrdMap<String, PropReg>>>,
)
    ensures
        final(a)@ == merge_prop_maps(old(a)@, b@),
{
    let n: usize = b.len();
    let ghost m0 = a@;
    let ghost goal = merge_prop_maps(m0, b@);
    let ghost rows = b.rows();
    let mut i: usize = 0;
    proof {
        lemma_partway_start(m0, goal, rows);
    }
    while i < n
        invariant
            i <= n,
            n == rows.len(),
            rows == b.rows(),
            ascending::<(NodeId, FieldId), Props>(rows),
            goal == merge_prop_maps(m0, b@),
            a@ == partway(m0, goal, rows.take(i as int)),
        decreases n - i,
    {
        proof {
            lemma_partway_step::<(NodeId, FieldId), Props, Props>(m0, goal, rows, i as int);
            lemma_row::<(NodeId, FieldId), Props>(rows, i as int);
        }
        let ghost before = a@;
        let k = *b.key_at(i);
        let mut e = match a.take(&k) {
            Some(e) => e,
            None => OrdMap::new(),
        };
        join_props(&mut e, b.value_at(i));
        proof {
            lemma_remove_insert(before, k, e@);
            assert(goal.contains_key(k));
            assert(e@ == goal[k]);
        }
        a.insert(k, e);
        i += 1;
    }
    proof {
        assert forall|k: GraphKey| !(#[trigger] has_row(rows, k)) implies goal.contains_key(k)
            == m0.contains_key(k) && (goal.contains_key(k) ==> goal[k] == m0[k]) by {
            assert(!b@.contains_key(k));
            if m0.contains_key(k) {
                lemma_merge_props_empty(m0[k]);
            }
        }
        lemma_partway_end(m0, goal, rows);
    }
}

proof fn lemma_merge_props_empty(a: Props)
    ensures
        merge_props(a, Map::empty()) == a,
{
    assert forall|o: ObjModel| a.contains_key(o) implies #[trigger] merge_props(
        a,
        Map::empty(),
    )[o] == a[o] by {
        assert(merge_regs(a[o], Map::empty()) =~= a[o]);
    }
    assert(merge_props(a, Map::empty()) =~= a);
}

/// Node stores merged node by node.
pub open spec fn merge_attr_maps(a: Map<NodeId, AttrModel>, b: Map<NodeId, AttrModel>) -> Map<
    NodeId,
    AttrModel,
> {
    Map::new(
        |n: NodeId| a.contains_key(n) || b.contains_key(n),
        |n: NodeId| merge_attr(at_or(a, n, empty_attr()), at_or(b, n, empty_attr())),
    )
}

fn join_attrs(a: &mut OrdMap<NodeId, NodeAttrState>, b: &OrdMap<NodeId, NodeAttrState>)
    ensures
        final(a)@ == merge_attr_maps(old(a)@, b@),
{
    let n: usize = b.len();
    let ghost m0 = a@;
    let ghost goal = merge_attr_maps(m0, b@);
    let ghost rows = b.rows();
    let mut i: usize = 0;
    proof {
        lemma_partway_start(m0, goal, rows);
    }
    while i < n
        invariant
            i <= n,
            n == rows.len(),
            rows == b.rows(),
            ascending::<NodeId, AttrModel>(rows),
            goal == merge_attr_maps(m0, b@),
            a@ == partway(m0, goal, rows.take(i as int)),
        decreases n - i,
    {
        proof {
            lemma_partway_step::<NodeId, AttrModel, AttrModel>(m0, goal, rows, i as int);
            lemma_row::<NodeId, AttrModel>(rows, i as int);
        }
        let ghost before = a@;
        let node: NodeId = *b.key_at(i);
        let st = b.value_at(i);
        let mut me = match a.take(&node) {
            Some(s) => s,
            None => NodeAttrState { ty: None, label: None },
        };
        if let Some(r) = st.ty {
            let wins = match me.ty {
                None => true,
                Some(cur) => cur.0.precedes(&r.0),
            };
            if wins {
                me.ty = Some(r);
            }
        }
        if let Some(r) = st.label {
            let wins = match me.label {
                None => true,
                Some(cur) => cur.0.precedes(&r.0),
            };
            if wins {
                me.label = Some(r);
            }
        }
        proof {
            lemma_remove_insert(before, node, me.deep_view());
            assert(goal.contains_key(node));
            assert(me.deep_view() == goal[node]);
        }
        a.insert(node, me);
        i += 1;
    }
    proof {
        assert forall|k: NodeId| !(#[trigger] has_row(rows, k)) implies goal.contains_key(k)
            == m0.contains_key(k) && (goal.contains_key(k) ==> goal[k] == m0[k]) by {
            assert(!b@.contains_key(k));
        }
        lemma_partway_end(m0, goal, rows);
    }
}

impl Fold {
    /// Join another state: the least upper bound of the two.
    pub fn merge(&mut self, other: &Fold)
        requires
            kinds_agree(old(self)@, other@),
        ensures
            final(self)@ == merge_folds(old(self)@, other@),
    {
        join_keys(&mut self.keys, &other.keys);
        join_edge_props(&mut self.edge_props, &other.edge_props);
        join_attrs(&mut self.node_attrs, &other.node_attrs);
        proof {
            let f = old(self)@;
            assert(self@.keys =~= merge_folds(f, other@).keys);
            assert(self@.edge_props =~= merge_folds(f, other@).edge_props);
            assert(self@.node_attrs =~= merge_folds(f, other@).node_attrs);
        }
    }

    /// Drop what the hard-delete floors dominate. Node attributes and edge properties have no floor.
    pub fn gc(&mut self)
        ensures
            final(self)@ == gc_fold(old(self)@),
    {
        let n: usize = self.keys.len();
        let mut out: OrdMap<(NodeId, FieldId), KeyState> = OrdMap::new();
        let ghost m0 = out@;
        let ghost goal = gc_fold(self@).keys;
        let ghost s = self.keys.rows();
        let mut i: usize = 0;
        proof {
            lemma_partway_start(m0, goal, s);
        }
        while i < n
            invariant
                i <= n,
                n == s.len(),
                s == self.keys.rows(),
                *self == *old(self),
                ascending::<(NodeId, FieldId), KeyModel>(s),
                goal == gc_fold(self@).keys,
                m0 == Map::<GraphKey, KeyModel>::empty(),
                out@ == partway(m0, goal, s.take(i as int)),
            decreases n - i,
        {
            proof {
                lemma_partway_step::<(NodeId, FieldId), KeyModel, KeyModel>(m0, goal, s, i as int);
                lemma_row::<(NodeId, FieldId), KeyModel>(s, i as int);
            }
            let k = *self.keys.key_at(i);
            let mut st = self.keys.value_at(i).dup();
            st.gc();
            out.insert(k, st);
            i += 1;
        }
        proof {
            assert forall|k: GraphKey| !(#[trigger] has_row(s, k)) implies goal.contains_key(k)
                == m0.contains_key(k) && (goal.contains_key(k) ==> goal[k] == m0[k]) by {
                assert(!self.keys@.contains_key(k));
            }
            lemma_partway_end(m0, goal, s);
        }
        self.keys = out;
    }
}

} // verus!
