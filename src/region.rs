use vstd::prelude::*;
use crate::grip::{grip_after, plain_grip, relation_views, Grip, GripView, Relation, RelationView};
use crate::moveseq::{Move, MoveView};

verus! {

/// A class of grip assignments: the grips known to be held and those
/// known to be free.
#[derive(Debug, Clone)]
pub struct Region {
    held: Vec<Grip>,
    free: Vec<Grip>,
}

pub struct RegionView {
    pub held: Set<GripView>,
    pub free: Set<GripView>,
}

/// The grips that a vector holds, as a set.
pub open spec fn grip_set(v: Seq<Grip>) -> Set<GripView> {
    Set::new(|g: GripView| exists|i: int| 0 <= i < v.len() && #[trigger] v[i]@ == g)
}

impl View for Region {
    type V = RegionView;

    closed spec fn view(&self) -> RegionView {
        RegionView { held: grip_set(self.held@), free: grip_set(self.free@) }
    }
}

/// The untransformed grip of a move's face.
pub open spec fn face_of(m: MoveView) -> GripView {
    plain_grip(m.family)
}

pub open spec fn moved(s: Set<GripView>, m: MoveView, rs: Seq<RelationView>) -> Set<GripView> {
    s.map(|g: GripView| grip_after(g, m, rs))
}

/// Every grip of the region advanced by the move.
pub open spec fn advanced(r: RegionView, m: MoveView, rs: Seq<RelationView>) -> RegionView {
    RegionView { held: moved(r.held, m, rs), free: moved(r.free, m, rs) }
}

/// What a move makes of a region: `(not affected, affected)`. A face known
/// held advances the region; a face known free leaves it; otherwise the region
/// splits into one where the face is free and one where it is held.
pub open spec fn branches(r: RegionView, m: MoveView, rs: Seq<RelationView>) -> (
    Option<RegionView>,
    Option<RegionView>,
) {
    let f = face_of(m);
    if r.held.contains(f) {
        (None, Some(advanced(r, m, rs)))
    } else if r.free.contains(f) {
        (Some(r), None)
    } else {
        (
            Some(RegionView { held: r.held, free: r.free.insert(f) }),
            Some(
                RegionView { held: moved(r.held, m, rs).insert(f), free: moved(r.free, m, rs) },
            ),
        )
    }
}

pub open spec fn opt_view(r: Option<Region>) -> Option<RegionView> {
    match r {
        Some(x) => Some(x@),
        None => None,
    }
}

/// Exactly one of three outcomes: not affected only, affected only, or both;
/// both exactly where the move's face is neither known held nor known free.
pub proof fn lemma_split_complete(r: RegionView, m: MoveView, rs: Seq<RelationView>)
    ensures
        branches(r, m, rs).0 is Some || branches(r, m, rs).1 is Some,
        (branches(r, m, rs).0 is Some && branches(r, m, rs).1 is Some) <==> (!r.held.contains(
            face_of(m),
        ) && !r.free.contains(face_of(m))),
{
}

pub proof fn lemma_grip_set_push(v: Seq<Grip>, g: Grip)
    ensures
        grip_set(v.push(g)) == grip_set(v).insert(g@),
{
    let w = v.push(g);
    assert forall|x: GripView| grip_set(w).contains(x) <==> grip_set(v).insert(g@).contains(x) by {
        if grip_set(w).contains(x) {
            let i = choose|i: int| 0 <= i < w.len() && #[trigger] w[i]@ == x;
            if i < v.len() {
                assert(v[i]@ == x);
            }
        }
        if grip_set(v).contains(x) {
            let i = choose|i: int| 0 <= i < v.len() && #[trigger] v[i]@ == x;
            assert(w[i]@ == x);
        }
        if x == g@ {
            assert(w[v.len() as int]@ == x);
        }
    }
    assert(grip_set(w) =~= grip_set(v).insert(g@));
}

pub proof fn lemma_moved_insert(s: Set<GripView>, g: GripView, m: MoveView, rs: Seq<RelationView>)
    ensures
        moved(s.insert(g), m, rs) == moved(s, m, rs).insert(grip_after(g, m, rs)),
{
    let f = |x: GripView| grip_after(x, m, rs);
    assert forall|y: GripView|
        moved(s.insert(g), m, rs).contains(y) <==> moved(s, m, rs).insert(
            grip_after(g, m, rs),
        ).contains(y) by {
        if moved(s.insert(g), m, rs).contains(y) {
            let x = choose|x: GripView| s.insert(g).contains(x) && y == f(x);
            if x != g {
                assert(s.contains(x));
            }
        }
        if moved(s, m, rs).contains(y) {
            let x = choose|x: GripView| s.contains(x) && y == f(x);
            assert(s.insert(g).contains(x));
        }
        if y == grip_after(g, m, rs) {
            assert(s.insert(g).contains(g));
        }
    }
    assert(moved(s.insert(g), m, rs) =~= moved(s, m, rs).insert(grip_after(g, m, rs)));
}

pub(crate) fn contains_grip(v: &Vec<Grip>, g: &Grip) -> (r: bool)
    ensures
        r == grip_set(v@).contains(g@),
{
    let mut i: usize = 0;
    while i < v.len()
        invariant
            0 <= i <= v.len(),
            forall|j: int| 0 <= j < i ==> #[trigger] v@[j]@ != g@,
        decreases v.len() - i,
    {
        if v[i].same_as(g) {
            assert(v@[i as int]@ == g@);
            return true;
        }
        i = i + 1;
    }
    assert(!grip_set(v@).contains(g@));
    false
}

/// No grip stands twice.
pub open spec fn distinct_grips(v: Seq<Grip>) -> bool {
    forall|i: int, j: int| 0 <= i < j < v.len() ==> #[trigger] v[i]@ != #[trigger] v[j]@
}

pub(crate) fn insert_grip(v: &mut Vec<Grip>, g: Grip)
    ensures
        grip_set(final(v)@) == grip_set(old(v)@).insert(g@),
        distinct_grips(old(v)@) ==> distinct_grips(final(v)@),
{
    if contains_grip(v, &g) {
        assert(grip_set(v@) =~= grip_set(v@).insert(g@));
    } else {
        proof {
            lemma_grip_set_push(v@, g);
        }
        let ghost before = v@;
        v.push(g);
        assert forall|i: int, j: int| 0 <= i < j < v@.len() && distinct_grips(before) implies #[trigger] v@[i]@ != #[trigger] v@[j]@ by {
            if j == before.len() {
                assert(grip_set(before).contains(before[i]@));
            } else {
                assert(before[i]@ != before[j]@);
            }
        }
    }
}

fn move_all(v: &Vec<Grip>, m: &Move, relations: &[Relation]) -> (w: Vec<Grip>)
    ensures
        grip_set(w@) == moved(grip_set(v@), m@, relation_views(relations@)),
{
    let ghost rs = relation_views(relations@);
    let mut w: Vec<Grip> = Vec::new();
    let mut i: usize = 0;
    assert(grip_set(v@.subrange(0, 0)) =~= Set::<GripView>::empty());
    assert(grip_set(w@) =~= Set::<GripView>::empty());
    assert(moved(Set::<GripView>::empty(), m@, rs) =~= Set::<GripView>::empty());
    while i < v.len()
        invariant
            0 <= i <= v.len(),
            rs == relation_views(relations@),
            grip_set(w@) == moved(grip_set(v@.subrange(0, i as int)), m@, rs),
        decreases v.len() - i,
    {
        let g = v[i].duplicate().do_move(m.duplicate(), relations);
        proof {
            assert(v@.subrange(0, i + 1) =~= v@.subrange(0, i as int).push(v@[i as int]));
            lemma_grip_set_push(v@.subrange(0, i as int), v@[i as int]);
            lemma_moved_insert(grip_set(v@.subrange(0, i as int)), v@[i as int]@, m@, rs);
        }
        insert_grip(&mut w, g);
        i = i + 1;
    }
    assert(v@.subrange(0, i as int) =~= v@);
    w
}

fn same_grips(a: &Vec<Grip>, b: &Vec<Grip>) -> (r: bool)
    ensures
        r == (grip_set(a@) == grip_set(b@)),
{
    let mut i: usize = 0;
    while i < a.len()
        invariant
            0 <= i <= a.len(),
            forall|j: int| 0 <= j < i ==> grip_set(b@).contains(#[trigger] a@[j]@),
        decreases a.len() - i,
    {
        if !contains_grip(b, &a[i]) {
            assert(grip_set(a@).contains(a@[i as int]@));
            return false;
        }
        i = i + 1;
    }
    let mut k: usize = 0;
    while k < b.len()
        invariant
            0 <= k <= b.len(),
            forall|j: int| 0 <= j < a.len() ==> grip_set(b@).contains(#[trigger] a@[j]@),
            forall|j: int| 0 <= j < k ==> grip_set(a@).contains(#[trigger] b@[j]@),
        decreases b.len() - k,
    {
        if !contains_grip(a, &b[k]) {
            assert(grip_set(b@).contains(b@[k as int]@));
            return false;
        }
        k = k + 1;
    }
    assert forall|x: GripView| grip_set(a@).contains(x) <==> grip_set(b@).contains(x) by {
        if grip_set(a@).contains(x) {
            let j = choose|j: int| 0 <= j < a@.len() && #[trigger] a@[j]@ == x;
        }
        if grip_set(b@).contains(x) {
            let j = choose|j: int| 0 <= j < b@.len() && #[trigger] b@[j]@ == x;
        }
    }
    assert(grip_set(a@) =~= grip_set(b@));
    true
}

fn copy_grips(v: &Vec<Grip>) -> (w: Vec<Grip>)
    ensures
        grip_set(w@) == grip_set(v@),
{
    let mut w: Vec<Grip> = Vec::new();
    let mut i: usize = 0;
    assert(grip_set(v@.subrange(0, 0)) =~= grip_set(w@));
    while i < v.len()
        invariant
            0 <= i <= v.len(),
            grip_set(w@) == grip_set(v@.subrange(0, i as int)),
        decreases v.len() - i,
    {
        let g = v[i].duplicate();
        proof {
            assert(v@.subrange(0, i + 1) =~= v@.subrange(0, i as int).push(v@[i as int]));
            lemma_grip_set_push(v@.subrange(0, i as int), v@[i as int]);
            lemma_grip_set_push(w@, g);
        }
        w.push(g);
        i = i + 1;
    }
    assert(v@.subrange(0, i as int) =~= v@);
    w
}

impl Region {
    /// The region that constrains nothing.
    pub fn new() -> (r: Region)
        ensures
            r@.held == Set::<GripView>::empty(),
            r@.free == Set::<GripView>::empty(),
    {
        let r = Region { held: Vec::new(), free: Vec::new() };
        assert(r@.held =~= Set::<GripView>::empty());
        assert(r@.free =~= Set::<GripView>::empty());
        r
    }

    /// The held grips.
    pub fn held(&self) -> (r: &Vec<Grip>)
        ensures
            grip_set(r@) == self@.held,
    {
        &self.held
    }

    /// The free grips.
    pub fn free(&self) -> (r: &Vec<Grip>)
        ensures
            grip_set(r@) == self@.free,
    {
        &self.free
    }

    /// A copy of this region.
    pub fn duplicate(&self) -> (r: Region)
        ensures
            r@ == self@,
    {
        Region { held: copy_grips(&self.held), free: copy_grips(&self.free) }
    }

    pub fn same_as(&self, other: &Region) -> (r: bool)
        ensures
            r == (self@ == other@),
    {
        same_grips(&self.held, &other.held) && same_grips(&self.free, &other.free)
    }

    /// `Some(true)` where the grip is known held, `Some(false)` where it is
    /// known free, `None` where neither is known.
    pub fn has_grip(&self, grip: Grip) -> (r: Option<bool>)
        ensures
            r == (if self@.held.contains(grip@) {
                Some(true)
            } else if self@.free.contains(grip@) {
                Some(false)
            } else {
                None::<bool>
            }),
    {
        if contains_grip(&self.held, &grip) {
            Some(true)
        } else if contains_grip(&self.free, &grip) {
            Some(false)
        } else {
            None
        }
    }

    fn do_move_unchecked(&self, m: &Move, relations: &[Relation]) -> (r: Region)
        ensures
            r@ == advanced(self@, m@, relation_views(relations@)),
    {
        Region {
            held: move_all(&self.held, m, relations),
            free: move_all(&self.free, m, relations),
        }
    }

    /// Applies a move; returns `(not_affected, affected)` as `branches` says.
    #[must_use]
    pub fn do_move(self, m: Move, relations: &[Relation]) -> (r: (Option<Region>, Option<Region>))
        ensures
            opt_view(r.0) == branches(self@, m@, relation_views(relations@)).0,
            opt_view(r.1) == branches(self@, m@, relation_views(relations@)).1,
    {
        let ghost rs = relation_views(relations@);
        let face = Grip::new(m.family.clone());
        match self.has_grip(face) {
            Some(false) => (Some(self), None),
            Some(true) => (None, Some(self.do_move_unchecked(&m, relations))),
            None => {
                let ghost f = face_of(m@);
                let mut freed_region = self.duplicate();
                insert_grip(&mut freed_region.free, Grip::new(m.family.clone()));
                let mut held_region = self.do_move_unchecked(&m, relations);
                insert_grip(&mut held_region.held, Grip::new(m.family.clone()));
                (Some(freed_region), Some(held_region))
            },
        }
    }
}

} // verus!
