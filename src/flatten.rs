use vstd::prelude::*;
use crate::value::{RecordField, fields_model};

verus! {

broadcast use vstd::std_specs::vec::group_vec_axioms, vstd::seq::group_seq_axioms;

/// A nested numeric record: a number (its IEEE-754 bit pattern) or a group of
/// named children, in order.
pub enum RecordNode {
    Leaf(u64),
    Group(Vec<NamedNode>),
}

/// A child of a group: its name and the subtree under it.
pub struct NamedNode {
    pub name: String,
    pub node: RecordNode,
}

/// The dotted path of child `name` under `prefix`.
pub open spec fn join_path(prefix: Seq<char>, name: Seq<char>) -> Seq<char> {
    if prefix.len() == 0 {
        name
    } else {
        prefix + seq!['.'] + name
    }
}

/// The leaves of `n`, in order, each with its dotted path under `prefix`.
pub open spec fn flat_node(prefix: Seq<char>, n: RecordNode) -> Seq<(Seq<char>, u64)>
    decreases n,
{
    match n {
        RecordNode::Leaf(b) => seq![(prefix, b)],
        RecordNode::Group(cs) => flat_children(prefix, cs@),
    }
}

/// The leaves of the children `cs`, in order, under `prefix`.
pub open spec fn flat_children(prefix: Seq<char>, cs: Seq<NamedNode>) -> Seq<(Seq<char>, u64)>
    decreases cs,
{
    if cs.len() == 0 {
        Seq::empty()
    } else {
        flat_children(prefix, cs.drop_last()) + flat_node(
            join_path(prefix, cs.last().name@),
            cs.last().node,
        )
    }
}

/// Two trees have the same shape: the same names in the same order at every
/// level, with leaves in the same places.
pub open spec fn same_shape(a: RecordNode, b: RecordNode) -> bool
    decreases a,
{
    match a {
        RecordNode::Leaf(_) => b is Leaf,
        RecordNode::Group(ca) => match b {
            RecordNode::Group(cb) => same_shape_children(ca@, cb@),
            RecordNode::Leaf(_) => false,
        },
    }
}

/// Two lists of children have the same names, in order, over subtrees of the same shape.
pub open spec fn same_shape_children(ca: Seq<NamedNode>, cb: Seq<NamedNode>) -> bool
    decreases ca,
{
    if ca.len() == 0 {
        cb.len() == 0
    } else {
        cb.len() == ca.len() && same_shape_children(ca.drop_last(), cb.drop_last())
            && ca.last().name@ == cb.last().name@ && same_shape(ca.last().node, cb.last().node)
    }
}

/// The column names of a flattened record.
pub open spec fn path_names(fs: Seq<(Seq<char>, u64)>) -> Seq<Seq<char>> {
    fs.map_values(|f: (Seq<char>, u64)| f.0)
}

fn join(prefix: &String, name: &String) -> (r: String)
    ensures
        r@ == join_path(prefix@, name@),
{
    if *prefix == String::new() {
        name.clone()
    } else {
        proof {
            if prefix@.len() == 0 {
                assert(prefix@ =~= Seq::<char>::empty());
            }
            reveal_strlit(".");
            assert("."@ =~= seq!['.']);
        }
        prefix.clone().concat(".").concat(name.as_str())
    }
}

/// Appends the leaves of `n` under `prefix` to `out`, in order.
fn flatten_into(prefix: &String, n: &RecordNode, out: &mut Vec<RecordField>)
    ensures
        fields_model(final(out)@) == fields_model(old(out)@) + flat_node(prefix@, *n),
    decreases n,
{
    match n {
        RecordNode::Leaf(b) => {
            let ghost before = out@;
            out.push(RecordField { path: prefix.clone(), bits: *b });
            assert(fields_model(out@) =~= fields_model(before) + flat_node(prefix@, *n));
        },
        RecordNode::Group(cs) => {
            let ghost start = fields_model(out@);
            let mut i: usize = 0;
            while i < cs.len()
                invariant
                    i <= cs@.len(),
                    *n == RecordNode::Group(*cs),
                    fields_model(out@) == start + flat_children(prefix@, cs@.subrange(0, i as int)),
                decreases cs.len() - i,
            {
                let path = join(prefix, &cs[i].name);
                assert(decreases_to!(*n => cs[i as int].node)) by {
                    assert(decreases_to!(*n => n->Group_0));
                    assert(decreases_to!(n->Group_0 => (n->Group_0)@));
                    assert(decreases_to!((n->Group_0)@ => (n->Group_0)@[i as int]));
                    assert(decreases_to!((n->Group_0)@[i as int] => (n->Group_0)@[i as int].node));
                }
                flatten_into(&path, &cs[i].node, out);
                proof {
                    let sub = cs@.subrange(0, i + 1);
                    assert(sub.drop_last() =~= cs@.subrange(0, i as int));
                    assert(sub.last() == cs@[i as int]);
                }
                i += 1;
            }
            assert(cs@.subrange(0, cs@.len() as int) =~= cs@);
        },
    }
}

/// The leaves of `n` as dotted-path fields, in tree order.
pub fn flatten_record(n: &RecordNode) -> (r: Vec<RecordField>)
    ensures
        fields_model(r@) == flat_node(Seq::empty(), *n),
{
    let mut out: Vec<RecordField> = Vec::new();
    let prefix = String::new();
    flatten_into(&prefix, n, &mut out);
    assert(fields_model(out@) =~= flat_node(Seq::empty(), *n));
    out
}

proof fn lemma_path_names_concat(x: Seq<(Seq<char>, u64)>, y: Seq<(Seq<char>, u64)>)
    ensures
        path_names(x + y) == path_names(x) + path_names(y),
{
    assert(path_names(x + y) =~= path_names(x) + path_names(y));
}

/// Flattening is stable across records of one shape: two records with the same
/// shape flatten to the same column names, in the same order, whatever their
/// numbers.
pub proof fn lemma_same_shape_same_columns(prefix: Seq<char>, a: RecordNode, b: RecordNode)
    requires
        same_shape(a, b),
    ensures
        path_names(flat_node(prefix, a)) == path_names(flat_node(prefix, b)),
    decreases a,
{
    match a {
        RecordNode::Leaf(_) => {
            assert(path_names(flat_node(prefix, a)) =~= path_names(flat_node(prefix, b)));
        },
        RecordNode::Group(ca) => {
            let cb = b->Group_0;
            assert(decreases_to!(a => a->Group_0));
            assert(decreases_to!(a->Group_0 => (a->Group_0)@));
            lemma_same_shape_children_same_columns(prefix, ca@, cb@);
        },
    }
}

proof fn lemma_same_shape_children_same_columns(prefix: Seq<char>, ca: Seq<NamedNode>, cb: Seq<NamedNode>)
    requires
        same_shape_children(ca, cb),
    ensures
        path_names(flat_children(prefix, ca)) == path_names(flat_children(prefix, cb)),
    decreases ca,
{
    if ca.len() > 0 {
        let n = ca.len() - 1;
        assert(decreases_to!(ca => ca.subrange(0, n)));
        assert(ca.drop_last() == ca.subrange(0, n));
        lemma_same_shape_children_same_columns(prefix, ca.drop_last(), cb.drop_last());
        assert(decreases_to!(ca => ca[n]));
        assert(decreases_to!(ca[n] => ca[n].node));
        let p = join_path(prefix, ca.last().name@);
        lemma_same_shape_same_columns(p, ca.last().node, cb.last().node);
        lemma_path_names_concat(flat_children(prefix, ca.drop_last()), flat_node(p, ca.last().node));
        lemma_path_names_concat(flat_children(prefix, cb.drop_last()), flat_node(p, cb.last().node));
    } else {
        assert(path_names(flat_children(prefix, ca)) =~= path_names(flat_children(prefix, cb)));
    }
}

} // verus!
