//! The merge of nodes that share a qualified name, and its proof.
use vstd::prelude::*;
use vstd::string::*;

use crate::graph::Node;
use crate::model::{
    gathered_inputs, gathered_outputs, has_name, is_first_named, merged_from, survivor_of,
};
use crate::text::{
    lemma_name_lt_irreflexive, lemma_name_lt_total, lemma_name_lt_transitive, name_less,
    name_lt, str_equal,
};

verus! {

/// Folds the nodes that share a name into one and sorts the result by name.
pub(crate) fn merge_nodes(orig_nodes: Vec<Node>) -> (out: Vec<Node>)
    ensures
        merged_from(out@, orig_nodes@),
{
    let ghost orig = orig_nodes@;
    let mut rest = orig_nodes;
    let mut out: Vec<Node> = Vec::new();
    let ghost mut k: int = 0;
    while rest.len() > 0
        invariant
            0 <= k <= orig.len(),
            rest@ == orig.skip(k),
            merged_from(out@, orig.take(k)),
            forall|j: int| 0 <= j < out@.len() ==> has_name(orig.take(k), #[trigger] out@[j].name@),
        decreases rest@.len(),
    {
        let ghost pre = orig.take(k);
        let ghost post = orig.take(k + 1);
        proof {
            assert(rest@[0] == orig[k]);
            assert(post =~= pre.push(orig[k]));
        }
        let n = rest.remove(0);
        let mut p: usize = 0;
        while p < out.len() && name_less(out[p].name.as_str(), n.name.as_str())
            invariant
                p <= out@.len(),
                forall|q: int| 0 <= q < p ==> name_lt(#[trigger] out@[q].name@, n.name@),
            decreases out@.len() - p,
        {
            p = p + 1;
        }
        let ghost old_out = out@;
        if p < out.len() && str_equal(out[p].name.as_str(), n.name.as_str()) {
            let mut m = out.remove(p);
            let Node { inputs: mut ni, outputs: mut no, .. } = n;
            m.inputs.append(&mut ni);
            m.outputs.append(&mut no);
            out.insert(p, m);
            proof {
                assert(out@ =~= old_out.update(p as int, m));
                lemma_merge_step_fold(old_out, out@, pre, orig[k], p as int);
            }
        } else {
            proof {
                if p < old_out.len() {
                    lemma_name_lt_total(old_out[p as int].name@, n.name@);
                }
            }
            out.insert(p, n);
            proof {
                assert(out@ =~= old_out.insert(p as int, n));
                lemma_merge_step_new(old_out, out@, pre, orig[k], p as int);
            }
        }
        proof {
            k = k + 1;
            assert(rest@ =~= orig.skip(k));
        }
    }
    proof {
        assert(orig.take(k) =~= orig);
    }
    out
}

pub(crate) proof fn lemma_gathered_push(ns: Seq<Node>, n: Node, name: Seq<char>)
    ensures
        gathered_inputs(ns.push(n), name) == gathered_inputs(ns, name) + if n.name@ == name {
            n.inputs@
        } else {
            Seq::empty()
        },
        gathered_outputs(ns.push(n), name) == gathered_outputs(ns, name) + if n.name@ == name {
            n.outputs@
        } else {
            Seq::empty()
        },
{
    assert(ns.push(n).drop_last() =~= ns);
}

pub(crate) proof fn lemma_gathered_absent(ns: Seq<Node>, name: Seq<char>)
    requires
        !has_name(ns, name),
    ensures
        gathered_inputs(ns, name) == Seq::<usize>::empty(),
        gathered_outputs(ns, name) == Seq::<usize>::empty(),
    decreases ns.len(),
{
    if ns.len() > 0 {
        assert(!has_name(ns.drop_last(), name)) by {
            if has_name(ns.drop_last(), name) {
                let i = choose|i: int| 0 <= i < ns.drop_last().len() && #[trigger] ns.drop_last()[i].name@ == name;
                assert(ns[i].name@ == name);
            }
        }
        assert(ns.last().name@ != name) by {
            if ns.last().name@ == name {
                assert(ns[ns.len() - 1].name@ == name);
            }
        }
        lemma_gathered_absent(ns.drop_last(), name);
        assert(gathered_inputs(ns, name) =~= Seq::<usize>::empty());
        assert(gathered_outputs(ns, name) =~= Seq::<usize>::empty());
    }
}

/// A survivor of `pre` whose name differs from `n`'s is a survivor of
/// `pre.push(n)`.
pub(crate) proof fn lemma_survivor_keep(s: Node, pre: Seq<Node>, n: Node)
    requires
        survivor_of(s, pre),
        s.name@ != n.name@,
    ensures
        survivor_of(s, pre.push(n)),
{
    let f = choose|f: int|
        #![trigger pre[f]]
        is_first_named(pre, f, s.name@) && s.id == pre[f].id && s.parent_box == pre[f].parent_box
            && s.const_data == pre[f].const_data && s.inputs@ == gathered_inputs(pre, s.name@)
            && s.outputs@ == gathered_outputs(pre, s.name@);
    lemma_gathered_push(pre, n, s.name@);
    assert(s.inputs@ =~= gathered_inputs(pre.push(n), s.name@));
    assert(s.outputs@ =~= gathered_outputs(pre.push(n), s.name@));
    assert(pre.push(n)[f] == pre[f]);
    assert(is_first_named(pre.push(n), f, s.name@));
}

pub(crate) proof fn lemma_merge_step_fold(old_out: Seq<Node>, out: Seq<Node>, pre: Seq<Node>, n: Node, p: int)
    requires
        merged_from(old_out, pre),
        forall|j: int| 0 <= j < old_out.len() ==> has_name(pre, #[trigger] old_out[j].name@),
        0 <= p < old_out.len(),
        old_out[p].name@ == n.name@,
        out == old_out.update(p, out[p]),
        out[p].name == old_out[p].name,
        out[p].id == old_out[p].id,
        out[p].parent_box == old_out[p].parent_box,
        out[p].const_data == old_out[p].const_data,
        out[p].inputs@ == old_out[p].inputs@ + n.inputs@,
        out[p].outputs@ == old_out[p].outputs@ + n.outputs@,
    ensures
        merged_from(out, pre.push(n)),
        forall|j: int| 0 <= j < out.len() ==> has_name(pre.push(n), #[trigger] out[j].name@),
{
    let post = pre.push(n);
    assert forall|i: int, j: int| 0 <= i < j < out.len() implies name_lt(
        #[trigger] out[i].name@,
        #[trigger] out[j].name@,
    ) by {
        assert(name_lt(old_out[i].name@, old_out[j].name@));
    }
    assert forall|i: int| 0 <= i < post.len() implies has_name(out, #[trigger] post[i].name@) by {
        if i < pre.len() {
            assert(post[i] == pre[i]);
            assert(has_name(old_out, pre[i].name@));
            let j = choose|j: int| 0 <= j < old_out.len() && #[trigger] old_out[j].name@ == pre[i].name@;
            assert(out[j].name@ == pre[i].name@);
        } else {
            assert(out[p].name@ == n.name@);
        }
    }
    assert forall|j: int| 0 <= j < out.len() implies survivor_of(#[trigger] out[j], post) by {
        assert(survivor_of(old_out[j], pre));
        if j != p {
            assert(old_out[j].name@ != n.name@) by {
                lemma_name_lt_irreflexive(n.name@);
            }
            assert(out[j] == old_out[j]);
            lemma_survivor_keep(old_out[j], pre, n);
        } else {
            let s = old_out[p];
            let f = choose|f: int|
                #![trigger pre[f]]
                is_first_named(pre, f, s.name@) && s.id == pre[f].id && s.parent_box == pre[f].parent_box
                    && s.const_data == pre[f].const_data && s.inputs@ == gathered_inputs(pre, s.name@)
                    && s.outputs@ == gathered_outputs(pre, s.name@);
            lemma_gathered_push(pre, n, s.name@);
            assert(post[f] == pre[f]);
            assert(is_first_named(post, f, out[p].name@));
        }
    }
    assert forall|j: int| 0 <= j < out.len() implies has_name(post, #[trigger] out[j].name@) by {
        assert(has_name(pre, old_out[j].name@));
        let i = choose|i: int| 0 <= i < pre.len() && #[trigger] pre[i].name@ == old_out[j].name@;
        assert(post[i] == pre[i]);
    }
}

pub(crate) proof fn lemma_merge_step_new(old_out: Seq<Node>, out: Seq<Node>, pre: Seq<Node>, n: Node, p: int)
    requires
        merged_from(old_out, pre),
        forall|j: int| 0 <= j < old_out.len() ==> has_name(pre, #[trigger] old_out[j].name@),
        0 <= p <= old_out.len(),
        forall|q: int| 0 <= q < p ==> name_lt(#[trigger] old_out[q].name@, n.name@),
        p < old_out.len() ==> name_lt(n.name@, old_out[p].name@),
        out == old_out.insert(p, n),
    ensures
        merged_from(out, pre.push(n)),
        forall|j: int| 0 <= j < out.len() ==> has_name(pre.push(n), #[trigger] out[j].name@),
{
    let post = pre.push(n);
    assert(!has_name(pre, n.name@)) by {
        if has_name(pre, n.name@) {
            let i = choose|i: int| 0 <= i < pre.len() && #[trigger] pre[i].name@ == n.name@;
            assert(has_name(old_out, pre[i].name@));
            let j = choose|j: int| 0 <= j < old_out.len() && #[trigger] old_out[j].name@ == pre[i].name@;
            if j < p {
                lemma_name_lt_irreflexive(n.name@);
            } else if j == p {
                lemma_name_lt_irreflexive(n.name@);
            } else {
                assert(name_lt(old_out[p].name@, old_out[j].name@));
                lemma_name_lt_transitive(n.name@, old_out[p].name@, old_out[j].name@);
                lemma_name_lt_irreflexive(n.name@);
            }
        }
    }
    assert forall|i: int, j: int| 0 <= i < j < out.len() implies name_lt(
        #[trigger] out[i].name@,
        #[trigger] out[j].name@,
    ) by {
        if j < p {
            assert(name_lt(old_out[i].name@, old_out[j].name@));
        } else if j == p {
            assert(out[i] == old_out[i]);
        } else if i < p {
            assert(out[j] == old_out[j - 1]);
            if j - 1 == p {
                lemma_name_lt_transitive(old_out[i].name@, n.name@, old_out[p].name@);
            } else {
                assert(name_lt(old_out[p].name@, old_out[j - 1].name@));
                lemma_name_lt_transitive(n.name@, old_out[p].name@, old_out[j - 1].name@);
                lemma_name_lt_transitive(old_out[i].name@, n.name@, old_out[j - 1].name@);
            }
        } else if i == p {
            assert(out[j] == old_out[j - 1]);
            if j - 1 > p {
                assert(name_lt(old_out[p].name@, old_out[j - 1].name@));
                lemma_name_lt_transitive(n.name@, old_out[p].name@, old_out[j - 1].name@);
            }
        } else {
            assert(name_lt(old_out[i - 1].name@, old_out[j - 1].name@));
        }
    }
    assert forall|i: int| 0 <= i < post.len() implies has_name(out, #[trigger] post[i].name@) by {
        if i < pre.len() {
            assert(post[i] == pre[i]);
            assert(has_name(old_out, pre[i].name@));
            let j = choose|j: int| 0 <= j < old_out.len() && #[trigger] old_out[j].name@ == pre[i].name@;
            if j < p {
                assert(out[j] == old_out[j]);
            } else {
                assert(out[j + 1] == old_out[j]);
            }
        } else {
            assert(out[p] == n);
        }
    }
    assert forall|j: int| 0 <= j < out.len() implies survivor_of(#[trigger] out[j], post) by {
        if j == p {
            lemma_gathered_absent(pre, n.name@);
            lemma_gathered_push(pre, n, n.name@);
            assert(gathered_inputs(post, n.name@) =~= n.inputs@);
            assert(gathered_outputs(post, n.name@) =~= n.outputs@);
            assert forall|g: int| 0 <= g < pre.len() implies #[trigger] post[g].name@ != n.name@ by {
                assert(post[g] == pre[g]);
                if pre[g].name@ == n.name@ {
                    assert(has_name(pre, n.name@));
                }
            }
            assert(post[pre.len() as int] == n);
            assert(is_first_named(post, pre.len() as int, n.name@));
        } else {
            let oj = if j < p { j } else { j - 1 };
            assert(out[j] == old_out[oj]);
            assert(survivor_of(old_out[oj], pre));
            assert(has_name(pre, old_out[oj].name@));
            lemma_survivor_keep(old_out[oj], pre, n);
        }
    }
    assert forall|j: int| 0 <= j < out.len() implies has_name(post, #[trigger] out[j].name@) by {
        if j == p {
            assert(post[pre.len() as int] == n);
        } else {
            let oj = if j < p { j } else { j - 1 };
            assert(out[j] == old_out[oj]);
            assert(has_name(pre, old_out[oj].name@));
            let i = choose|i: int| 0 <= i < pre.len() && #[trigger] pre[i].name@ == old_out[oj].name@;
            assert(post[i] == pre[i]);
        }
    }
}

} // verus!
