use vstd::prelude::*;
use crate::grip::{Grip, GripView, Relation, RelationView};
use crate::moveseq::{inverted, move_views, pushed_all, Move, MoveSeq, MoveView};

verus! {

broadcast use {
    vstd::seq::axiom_seq_index_decreases,
    vstd::seq::axiom_seq_subrange_decreases,
    vstd::std_specs::vec::axiom_vec_decreases_to_view,
};

/// A node of move notation: a move, a group repeated a number of times (the
/// inverse group where the count is negative), a commutator `[A, B]`, a
/// conjugate `[A: B]`, or something that holds no move (a pause, a line
/// break, a comment).
#[derive(Debug)]
pub enum AlgNode {
    Move(Move),
    Grouping(Vec<AlgNode>, i32),
    Commutator(Vec<AlgNode>, Vec<AlgNode>),
    Conjugate(Vec<AlgNode>, Vec<AlgNode>),
    Other,
}

/// `s` written `k` times.
pub open spec fn repeated(s: Seq<MoveView>, k: nat) -> Seq<MoveView>
    decreases k,
{
    if k == 0 {
        Seq::empty()
    } else {
        repeated(s, (k - 1) as nat) + s
    }
}

/// The moves of a sequence of nodes, in the order they are performed.
pub open spec fn flat(nodes: Seq<AlgNode>) -> Seq<MoveView>
    decreases nodes,
{
    if nodes.len() == 0 {
        Seq::empty()
    } else {
        flat(nodes.subrange(0, nodes.len() - 1)) + flat_node(nodes[nodes.len() - 1])
    }
}

/// The moves of one node: a commutator `[A, B]` is `A B A⁻¹ B⁻¹`, a conjugate
/// `[A: B]` is `A B A⁻¹`.
pub open spec fn flat_node(n: AlgNode) -> Seq<MoveView>
    decreases n,
{
    match n {
        AlgNode::Move(m) => seq![m@],
        AlgNode::Grouping(a, k) => if k >= 0 {
            repeated(flat(a@), k as nat)
        } else {
            repeated(inverted(flat(a@)), (-k) as nat)
        },
        AlgNode::Commutator(a, b) => flat(a@) + flat(b@) + inverted(flat(a@)) + inverted(flat(b@)),
        AlgNode::Conjugate(a, b) => flat(a@) + flat(b@) + inverted(flat(a@)),
        AlgNode::Other => Seq::empty(),
    }
}

fn append_moves(out: &mut Vec<Move>, src: &Vec<Move>)
    ensures
        move_views(final(out)@) == move_views(old(out)@) + move_views(src@),
{
    let ghost start = move_views(out@);
    let mut i: usize = 0;
    while i < src.len()
        invariant
            0 <= i <= src.len(),
            move_views(out@) == start + move_views(src@).subrange(0, i as int),
        decreases src.len() - i,
    {
        let ghost prev = out@;
        out.push(src[i].duplicate());
        assert(move_views(out@) =~= move_views(prev) + seq![src@[i as int]@]);
        assert(move_views(src@).subrange(0, i + 1) =~= move_views(src@).subrange(0, i as int) + seq![src@[i as int]@]);
        i = i + 1;
    }
    assert(move_views(src@).subrange(0, i as int) =~= move_views(src@));
}

fn inverse_of_moves(src: &Vec<Move>) -> (r: Vec<Move>)
    ensures
        move_views(r@) == inverted(move_views(src@)),
{
    let mut r: Vec<Move> = Vec::new();
    let ghost inv = inverted(move_views(src@));
    let mut i: usize = 0;
    while i < src.len()
        invariant
            0 <= i <= src.len(),
            inv == inverted(move_views(src@)),
            move_views(r@) == inv.subrange(0, i as int),
        decreases src.len() - i,
    {
        let ghost prev = r@;
        r.push(src[src.len() - 1 - i].inverse());
        assert(move_views(r@) =~= move_views(prev) + seq![r@[i as int]@]);
        assert(inv.subrange(0, i + 1) =~= inv.subrange(0, i as int) + seq![inv[i as int]]);
        i = i + 1;
    }
    assert(inv.subrange(0, i as int) =~= inv);
    r
}

fn append_repeated(out: &mut Vec<Move>, src: &Vec<Move>, k: u32)
    ensures
        move_views(final(out)@) == move_views(old(out)@) + repeated(move_views(src@), k as nat),
{
    let ghost start = move_views(out@);
    let mut j: u32 = 0;
    assert(start + repeated(move_views(src@), 0) =~= start);
    while j < k
        invariant
            0 <= j <= k,
            move_views(out@) == start + repeated(move_views(src@), j as nat),
        decreases k - j,
    {
        append_moves(out, src);
        assert(repeated(move_views(src@), (j + 1) as nat) == repeated(move_views(src@), j as nat) + move_views(src@));
        assert(start + repeated(move_views(src@), j as nat) + move_views(src@) =~= start + repeated(move_views(src@), (j + 1) as nat));
        j = j + 1;
    }
}

fn expand(nodes: &Vec<AlgNode>) -> (r: Vec<Move>)
    ensures
        move_views(r@) == flat(nodes@),
    decreases nodes@,
{
    let mut out: Vec<Move> = Vec::new();
    let mut i: usize = 0;
    assert(move_views(out@) =~= flat(nodes@.subrange(0, 0)));
    while i < nodes.len()
        invariant
            0 <= i <= nodes.len(),
            move_views(out@) == flat(nodes@.subrange(0, i as int)),
        decreases nodes.len() - i,
    {
        let ghost prev = move_views(out@);
        let ghost sub = nodes@.subrange(0, i + 1);
        assert(sub.subrange(0, sub.len() - 1) =~= nodes@.subrange(0, i as int));
        assert(sub[sub.len() - 1] == nodes@[i as int]);
        assert(decreases_to!(nodes@ => nodes@[i as int]));
        match &nodes[i] {
            AlgNode::Move(m) => {
                let ghost before = out@;
                out.push(m.duplicate());
                assert(move_views(out@) =~= move_views(before) + seq![m@]);
            },
            AlgNode::Grouping(a, k) => {
                let inner = expand(a);
                if *k >= 0 {
                    append_repeated(&mut out, &inner, *k as u32);
                } else {
                    let inv = inverse_of_moves(&inner);
                    let reps: u32 = (0i64 - *k as i64) as u32;
                    append_repeated(&mut out, &inv, reps);
                }
            },
            AlgNode::Commutator(a, b) => {
                let fa = expand(a);
                let fb = expand(b);
                append_moves(&mut out, &fa);
                append_moves(&mut out, &fb);
                append_moves(&mut out, &inverse_of_moves(&fa));
                append_moves(&mut out, &inverse_of_moves(&fb));
                assert(move_views(out@) =~= prev + flat_node(nodes@[i as int]));
            },
            AlgNode::Conjugate(a, b) => {
                let fa = expand(a);
                let fb = expand(b);
                append_moves(&mut out, &fa);
                append_moves(&mut out, &fb);
                append_moves(&mut out, &inverse_of_moves(&fa));
                assert(move_views(out@) =~= prev + flat_node(nodes@[i as int]));
            },
            AlgNode::Other => {
                assert(move_views(out@) =~= prev + Seq::<MoveView>::empty());
            },
        }
        assert(move_views(out@) == flat(sub));
        i = i + 1;
    }
    assert(nodes@.subrange(0, i as int) =~= nodes@);
    out
}

impl MoveSeq {
    /// The canonical sequence of the moves that the notation performs:
    /// groups repeated, commutators and conjugates written out, each move
    /// pushed in turn.
    pub fn from_alg(alg: &Vec<AlgNode>) -> (r: MoveSeq)
        ensures
            r@ == pushed_all(Seq::empty(), flat(alg@)),
    {
        MoveSeq::from_moves(&expand(alg))
    }

    /// The canonical sequence that undoes what the notation performs.
    pub fn from_alg_inverse(alg: &Vec<AlgNode>) -> (r: MoveSeq)
        ensures
            r@ == pushed_all(Seq::empty(), inverted(flat(alg@))),
    {
        MoveSeq::from_inverse_moves(&expand(alg))
    }
}

/// The two relations of one equation `new = old * alg`: a grip named `new`
/// whose transform starts with `alg` undone becomes `old`, and a grip named
/// `old` whose transform starts with `alg` becomes `new`.
pub fn relations_of_equation(new_name: String, old_name: String, alg: &Vec<AlgNode>) -> (r: Vec<Relation>)
    ensures
        r@.len() == 2,
        r@[0]@ == (RelationView {
            new_name: old_name@,
            replaced: GripView { name: new_name@, transform: pushed_all(Seq::empty(), inverted(flat(alg@))) },
        }),
        r@[1]@ == (RelationView {
            new_name: new_name@,
            replaced: GripView { name: old_name@, transform: pushed_all(Seq::empty(), flat(alg@)) },
        }),
{
    let undo = Relation {
        new_grip_name: old_name.clone(),
        grip_to_replace: Grip::with_transform(new_name.clone(), MoveSeq::from_alg_inverse(alg)),
    };
    let redo = Relation {
        new_grip_name: new_name,
        grip_to_replace: Grip::with_transform(old_name, MoveSeq::from_alg(alg)),
    };
    let mut r: Vec<Relation> = Vec::new();
    r.push(undo);
    r.push(redo);
    r
}

} // verus!
