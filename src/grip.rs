use vstd::prelude::*;
use crate::moveseq::{is_prefix_of, pushed, seq_cmp, Move, MoveSeq, MoveView};
use crate::order::{compare_str, same_str, sign_of, str_cmp};
use vstd::string::{StrSliceExecFns, StringExecFns};

verus! {

/// A named face or slice, with the moves that have repositioned it since it
/// was named.
#[derive(Debug, Clone, PartialEq, Eq, Hash)]
pub struct Grip {
    grip_name: String,
    transform: MoveSeq,
}

pub struct GripView {
    pub name: Seq<char>,
    pub transform: Seq<MoveView>,
}

impl View for Grip {
    type V = GripView;

    closed spec fn view(&self) -> GripView {
        GripView { name: self.grip_name@, transform: self.transform@ }
    }
}

/// A rewrite rule: a grip named `grip_to_replace`'s name whose transform
/// starts with `grip_to_replace`'s transform loses that prefix and takes the
/// name `new_grip_name`.
#[derive(Debug, Clone, PartialEq, Eq, Hash)]
pub struct Relation {
    pub new_grip_name: String,
    pub grip_to_replace: Grip,
}

pub struct RelationView {
    pub new_name: Seq<char>,
    pub replaced: GripView,
}

impl View for Relation {
    type V = RelationView;

    open spec fn view(&self) -> RelationView {
        RelationView { new_name: self.new_grip_name@, replaced: self.grip_to_replace@ }
    }
}

pub open spec fn relation_views(rs: Seq<Relation>) -> Seq<RelationView> {
    rs.map_values(|r: Relation| r@)
}

/// The untransformed grip of a name.
pub open spec fn plain_grip(name: Seq<char>) -> GripView {
    GripView { name, transform: Seq::empty() }
}

pub open spec fn apply_relation(g: GripView, r: RelationView) -> GripView {
    if r.replaced.name == g.name && is_prefix_of(r.replaced.transform, g.transform) {
        GripView {
            name: r.new_name,
            transform: g.transform.skip(r.replaced.transform.len() as int),
        }
    } else {
        g
    }
}

/// One pass over the relations, in order, each tried once.
pub open spec fn apply_relations(g: GripView, rs: Seq<RelationView>) -> GripView
    decreases rs.len(),
{
    if rs.len() == 0 {
        g
    } else {
        apply_relation(apply_relations(g, rs.drop_last()), rs.last())
    }
}

/// The move joins the transform; a grip's own turn, as the first move of its
/// transform, leaves it where it is.
pub open spec fn with_move(g: GripView, m: MoveView) -> GripView {
    let t = pushed(g.transform, m);
    if t.len() == 1 && t[0].family == g.name {
        GripView { name: g.name, transform: t.drop_first() }
    } else {
        GripView { name: g.name, transform: t }
    }
}

pub open spec fn grip_after(g: GripView, m: MoveView, rs: Seq<RelationView>) -> GripView {
    apply_relations(with_move(g, m), rs)
}

/// Grips are ordered by name, then by transform.
pub open spec fn grip_cmp(a: GripView, b: GripView) -> int {
    if str_cmp(a.name, b.name) != 0 {
        str_cmp(a.name, b.name)
    } else {
        seq_cmp(a.transform, b.transform)
    }
}

proof fn lemma_relations_keep_plain(g: GripView, rs: Seq<RelationView>)
    requires
        g.transform.len() == 0,
        forall|i: int| 0 <= i < rs.len() ==> #[trigger] rs[i].replaced.transform.len() > 0,
    ensures
        apply_relations(g, rs) == g,
    decreases rs.len(),
{
    if rs.len() > 0 {
        let init = rs.drop_last();
        assert forall|i: int| 0 <= i < init.len() implies #[trigger] init[i].replaced.transform.len()
            > 0 by {
            assert(init[i] == rs[i]);
        }
        lemma_relations_keep_plain(g, init);
        assert(rs.last() == rs[rs.len() - 1]);
    }
}

/// A grip's own turn, as the first move it receives, leaves it untransformed
/// whatever the amount, when no relation would rewrite an untransformed grip.
pub proof fn lemma_self_cancellation(g: GripView, m: MoveView, rs: Seq<RelationView>)
    requires
        g.transform.len() == 0,
        m.family == g.name,
        forall|i: int| 0 <= i < rs.len() ==> #[trigger] rs[i].replaced.transform.len() > 0,
    ensures
        grip_after(g, m, rs) == g,
{
    let w = with_move(g, m);
    assert(pushed(g.transform, m) =~= seq![m]);
    assert(w.transform =~= g.transform);
    assert(w == g);
    lemma_relations_keep_plain(g, rs);
}

/// Whether a character has Unicode's Alphabetic property.
pub uninterp spec fn is_alphabetic_char(c: char) -> bool;

/// The `Debug` form of a string: quoted, with escapes.
pub uninterp spec fn debug_text(s: Seq<char>) -> Seq<char>;

/// The message that names a rejected grip name.
pub open spec fn invalid_grip_text(s: Seq<char>) -> Seq<char> {
    seq!['i', 'n', 'v', 'a', 'l', 'i', 'd', ' ', 'g', 'r', 'i', 'p', ' '] + debug_text(s)
}

/// Relies on `char::is_alphabetic`: the Unicode Alphabetic property of the
/// character, which depends on the character alone.
#[verifier::external_body]
fn alphabetic(c: char) -> (r: bool)
    ensures
        r == is_alphabetic_char(c),
{
    c.is_alphabetic()
}

/// Relies on `format!` with `str`'s `Debug` form: the string quoted and
/// escaped, which depends on the string alone.
#[verifier::external_body]
fn debug_form(s: &str) -> (r: String)
    ensures
        r@ == debug_text(s@),
{
    format!("{s:?}")
}

fn invalid_grip_message(s: &str) -> (r: String)
    ensures
        r@ == invalid_grip_text(s@),
{
    let mut msg = "invalid grip ".to_owned();
    proof {
        reveal_strlit("invalid grip ");
    }
    let q = debug_form(s);
    msg.append(q.as_str());
    assert(msg@ =~= invalid_grip_text(s@));
    msg
}

/// A grip name is made of alphabetic characters and underscores only.
pub open spec fn valid_grip_name(s: Seq<char>) -> bool {
    forall|i: int| 0 <= i < s.len() ==> is_alphabetic_char(#[trigger] s[i]) || s[i] == '_'
}

/// Accepts a name made of alphabetic characters and underscores only;
/// rejects any other with a message that names it.
pub fn validate_grip_name(s: &str) -> (r: Result<(), String>)
    ensures
        r is Ok <==> valid_grip_name(s@),
        r matches Err(e) ==> e@ == invalid_grip_text(s@),
{
    let n = s.unicode_len();
    let mut i: usize = 0;
    while i < n
        invariant
            0 <= i <= n,
            n == s@.len(),
            forall|j: int| 0 <= j < i ==> is_alphabetic_char(#[trigger] s@[j]) || s@[j] == '_',
        decreases n - i,
    {
        let c = s.get_char(i);
        if !(alphabetic(c) || c == '_') {
            return Err(invalid_grip_message(s));
        }
        i = i + 1;
    }
    Ok(())
}

impl Grip {
    pub fn new(grip_name: String) -> (r: Grip)
        ensures
            r@ == plain_grip(grip_name@),
    {
        Grip { grip_name, transform: MoveSeq::new() }
    }

    pub fn with_transform(grip_name: String, transform: MoveSeq) -> (r: Grip)
        ensures
            r@ == (GripView { name: grip_name@, transform: transform@ }),
    {
        Grip { grip_name, transform }
    }

    pub fn name(&self) -> (r: &String)
        ensures
            r@ == self@.name,
    {
        &self.grip_name
    }

    pub fn transform(&self) -> (r: &MoveSeq)
        ensures
            r@ == self@.transform,
    {
        &self.transform
    }

    /// A copy of this grip.
    pub fn duplicate(&self) -> (r: Grip)
        ensures
            r@ == self@,
    {
        Grip { grip_name: self.grip_name.clone(), transform: self.transform.duplicate() }
    }

    pub fn same_as(&self, other: &Grip) -> (r: bool)
        ensures
            r == (self@ == other@),
    {
        same_str(self.grip_name.as_str(), other.grip_name.as_str()) && self.transform.same_as(
            &other.transform,
        )
    }

    pub fn compare(&self, other: &Grip) -> (r: std::cmp::Ordering)
        ensures
            r == sign_of(grip_cmp(self@, other@)),
    {
        let o = compare_str(self.grip_name.as_str(), other.grip_name.as_str());
        match o {
            std::cmp::Ordering::Equal => self.transform.compare(&other.transform),
            _ => o,
        }
    }

    /// Applies a move to this grip, then one pass of the relations.
    #[must_use]
    pub fn do_move(self, m: Move, relations: &[Relation]) -> (r: Grip)
        ensures
            r@ == grip_after(self@, m@, relation_views(relations@)),
    {
        let ghost start = self@;
        let mut g = self;
        let ghost rv = relation_views(relations@);
        g.transform.push_back(m);
        if g.transform.len() == 1 {
            g.transform.pop_front_if_fam(g.grip_name.as_str());
        }
        assert(g@ == with_move(start, m@));
        assert(rv.subrange(0, 0) =~= Seq::<RelationView>::empty());
        let mut i: usize = 0;
        while i < relations.len()
            invariant
                0 <= i <= relations.len(),
                rv == relation_views(relations@),
                g@ == apply_relations(with_move(start, m@), rv.subrange(0, i as int)),
            decreases relations.len() - i,
        {
            let r = &relations[i];
            assert(rv[i as int] == r@);
            if same_str(r.grip_to_replace.grip_name.as_str(), g.grip_name.as_str())
                && g.transform.pop_front_if_matches(&r.grip_to_replace.transform) {
                g.grip_name = r.new_grip_name.clone();
            }
            assert(rv.subrange(0, i + 1).drop_last() =~= rv.subrange(0, i as int));
            i = i + 1;
        }
        assert(rv.subrange(0, i as int) =~= rv);
        g
    }
}

} // verus!
