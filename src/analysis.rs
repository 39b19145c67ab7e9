use vstd::prelude::*;
use crate::grip::{relation_views, Grip, GripView, Relation, RelationView};
use crate::moveseq::{pushed, MoveSeq, MoveView};
use crate::region::{
    branches, distinct_grips, grip_set, insert_grip, lemma_grip_set_push, opt_view, Region, RegionView,
};

verus! {

/// The regions that a vector holds, as a set.
pub open spec fn region_set(v: Seq<Region>) -> Set<RegionView> {
    Set::new(|x: RegionView| exists|i: int| 0 <= i < v.len() && #[trigger] v[i]@ == x)
}

/// No region stands twice.
pub open spec fn distinct_regions(v: Seq<Region>) -> bool {
    forall|i: int, j: int| 0 <= i < j < v.len() ==> #[trigger] v[i]@ != #[trigger] v[j]@
}

/// The regions that one move makes of a region.
pub open spec fn outcomes(r: RegionView, m: MoveView, rs: Seq<RelationView>) -> Set<RegionView> {
    Set::new(
        |x: RegionView| branches(r, m, rs).0 == Some(x) || branches(r, m, rs).1 == Some(x),
    )
}

/// One step of the sweep: every region replaced by what the move makes of it.
pub open spec fn step(s: Set<RegionView>, m: MoveView, rs: Seq<RelationView>) -> Set<RegionView> {
    Set::new(|x: RegionView| exists|r: RegionView| s.contains(r) && #[trigger] outcomes(r, m, rs).contains(x))
}

/// The region that constrains nothing.
pub open spec fn universe() -> RegionView {
    RegionView { held: Set::empty(), free: Set::empty() }
}

/// The regions that the moves make, one after another, of the region that
/// constrains nothing.
pub open spec fn swept(ms: Seq<MoveView>, rs: Seq<RelationView>) -> Set<RegionView>
    decreases ms.len(),
{
    if ms.len() == 0 {
        set![universe()]
    } else {
        step(swept(ms.drop_last(), rs), ms.last(), rs)
    }
}

/// Replaying moves on a region: the region reached, the moves that affected
/// it (merged as a move sequence), and for each move whether it affected it.
pub open spec fn traced(r: RegionView, ms: Seq<MoveView>, rs: Seq<RelationView>) -> (
    RegionView,
    Seq<MoveView>,
    Seq<bool>,
)
    decreases ms.len(),
{
    if ms.len() == 0 {
        (r, Seq::empty(), Seq::empty())
    } else {
        let (cur, net, mask) = traced(r, ms.drop_last(), rs);
        let m = ms.last();
        let b = branches(cur, m, rs);
        match b.1 {
            Some(x) => (x, pushed(net, m), mask.push(true)),
            None => match b.0 {
                Some(y) => (y, net, mask.push(false)),
                None => (cur, net, mask.push(false)),
            },
        }
    }
}

/// Every step of the replay leaves exactly one branch.
pub open spec fn replay_determined(r: RegionView, ms: Seq<MoveView>, rs: Seq<RelationView>) -> bool {
    forall|k: int|
        0 <= k < ms.len() ==> {
            let b = #[trigger] branches(traced(r, ms.subrange(0, k), rs).0, ms[k], rs);
            b.0 is Some != b.1 is Some
        }
}

pub proof fn lemma_traced_len(r: RegionView, ms: Seq<MoveView>, rs: Seq<RelationView>)
    ensures
        traced(r, ms, rs).2.len() == ms.len(),
    decreases ms.len(),
{
    if ms.len() > 0 {
        lemma_traced_len(r, ms.drop_last(), rs);
    }
}

pub proof fn lemma_region_set_push(v: Seq<Region>, r: Region)
    ensures
        region_set(v.push(r)) == region_set(v).insert(r@),
{
    let w = v.push(r);
    assert forall|x: RegionView| region_set(w).contains(x) <==> region_set(v).insert(r@).contains(x) by {
        if region_set(w).contains(x) {
            let i = choose|i: int| 0 <= i < w.len() && #[trigger] w[i]@ == x;
            if i < v.len() {
                assert(v[i]@ == x);
            }
        }
        if region_set(v).contains(x) {
            let i = choose|i: int| 0 <= i < v.len() && #[trigger] v[i]@ == x;
            assert(w[i]@ == x);
        }
        if x == r@ {
            assert(w[v.len() as int]@ == x);
        }
    }
    assert(region_set(w) =~= region_set(v).insert(r@));
}

pub proof fn lemma_step_insert(s: Set<RegionView>, r: RegionView, m: MoveView, rs: Seq<RelationView>)
    ensures
        step(s.insert(r), m, rs) == step(s, m, rs).union(outcomes(r, m, rs)),
{
    assert forall|x: RegionView|
        step(s.insert(r), m, rs).contains(x) <==> step(s, m, rs).union(outcomes(r, m, rs)).contains(
            x,
        ) by {
        if step(s.insert(r), m, rs).contains(x) {
            let q = choose|q: RegionView| s.insert(r).contains(q) && #[trigger] outcomes(q, m, rs).contains(x);
            if q != r {
                assert(s.contains(q));
            }
        }
        if step(s, m, rs).contains(x) {
            let q = choose|q: RegionView| s.contains(q) && #[trigger] outcomes(q, m, rs).contains(x);
            assert(s.insert(r).contains(q));
        }
        if outcomes(r, m, rs).contains(x) {
            assert(s.insert(r).contains(r));
        }
    }
    assert(step(s.insert(r), m, rs) =~= step(s, m, rs).union(outcomes(r, m, rs)));
}

fn contains_region(v: &Vec<Region>, r: &Region) -> (b: bool)
    ensures
        b == region_set(v@).contains(r@),
{
    let mut i: usize = 0;
    while i < v.len()
        invariant
            0 <= i <= v.len(),
            forall|j: int| 0 <= j < i ==> #[trigger] v@[j]@ != r@,
        decreases v.len() - i,
    {
        if v[i].same_as(r) {
            assert(v@[i as int]@ == r@);
            return true;
        }
        i = i + 1;
    }
    false
}

/// Adds a region to a set of regions, unless an equal one is there already:
/// inserting a region that is there leaves the set as it was, size included.
pub fn insert_region(v: &mut Vec<Region>, r: Region)
    requires
        distinct_regions(old(v)@),
    ensures
        region_set(final(v)@) == region_set(old(v)@).insert(r@),
        distinct_regions(final(v)@),
        region_set(old(v)@).contains(r@) ==> final(v)@ == old(v)@,
        !region_set(old(v)@).contains(r@) ==> final(v)@.len() == old(v)@.len() + 1,
{
    if contains_region(v, &r) {
        assert(region_set(v@) =~= region_set(v@).insert(r@));
    } else {
        proof {
            lemma_region_set_push(v@, r);
        }
        let ghost before = v@;
        v.push(r);
        assert forall|i: int, j: int| 0 <= i < j < v@.len() implies #[trigger] v@[i]@ != #[trigger] v@[j]@ by {
            if j == before.len() {
                assert(region_set(before).contains(before[i]@));
            } else {
                assert(before[i]@ != before[j]@);
            }
        }
    }
}

fn insert_option(v: &mut Vec<Region>, r: Option<Region>)
    requires
        distinct_regions(old(v)@),
    ensures
        distinct_regions(final(v)@),
        region_set(final(v)@) == match opt_view(r) {
            Some(x) => region_set(old(v)@).insert(x),
            None => region_set(old(v)@),
        },
{
    match r {
        Some(x) => insert_region(v, x),
        None => {},
    }
}

/// Sweeps the moves over the region that constrains nothing, one move at a
/// time; regions that come out equal are kept once.
pub fn sweep(moves: &MoveSeq, relations: &[Relation]) -> (r: Vec<Region>)
    ensures
        region_set(r@) == swept(moves@, relation_views(relations@)),
        distinct_regions(r@),
{
    let ghost rs = relation_views(relations@);
    let mut cur: Vec<Region> = Vec::new();
    let start = Region::new();
    proof {
        lemma_region_set_push(cur@, start);
        assert(start@ == universe());
        assert(region_set(cur@) =~= Set::<RegionView>::empty());
        assert(moves@.subrange(0, 0) =~= Seq::<MoveView>::empty());
        assert(Set::<RegionView>::empty().insert(universe()) =~= set![universe()]);
    }
    cur.push(start);
    let mut k: usize = 0;
    while k < moves.len()
        invariant
            0 <= k <= moves@.len(),
            rs == relation_views(relations@),
            region_set(cur@) == swept(moves@.subrange(0, k as int), rs),
            distinct_regions(cur@),
        decreases moves@.len() - k,
    {
        let m = moves.get(k);
        let mut next: Vec<Region> = Vec::new();
        let mut j: usize = 0;
        proof {
            assert(region_set(cur@.subrange(0, 0)) =~= Set::<RegionView>::empty());
            assert(region_set(next@) =~= Set::<RegionView>::empty());
            assert(step(Set::<RegionView>::empty(), m@, rs) =~= Set::<RegionView>::empty());
        }
        while j < cur.len()
            invariant
                0 <= j <= cur.len(),
                rs == relation_views(relations@),
                region_set(next@) == step(region_set(cur@.subrange(0, j as int)), m@, rs),
                distinct_regions(next@),
            decreases cur.len() - j,
        {
            let (not_affected, affected) = cur[j].duplicate().do_move(m.duplicate(), relations);
            proof {
                assert(cur@.subrange(0, j + 1) =~= cur@.subrange(0, j as int).push(cur@[j as int]));
                lemma_region_set_push(cur@.subrange(0, j as int), cur@[j as int]);
                lemma_step_insert(region_set(cur@.subrange(0, j as int)), cur@[j as int]@, m@, rs);
            }
            let ghost before = region_set(next@);
            insert_option(&mut next, not_affected);
            insert_option(&mut next, affected);
            assert(region_set(next@) =~= before.union(outcomes(cur@[j as int]@, m@, rs)));
            j = j + 1;
        }
        proof {
            assert(cur@.subrange(0, j as int) =~= cur@);
            assert(moves@.subrange(0, k + 1).drop_last() =~= moves@.subrange(0, k as int));
        }
        cur = next;
        k = k + 1;
    }
    assert(moves@.subrange(0, k as int) =~= moves@);
    cur
}

/// Replays the moves on a region: the moves that affected it, merged as a
/// move sequence, and for each move whether it did.
pub fn trace(region: &Region, moves: &MoveSeq, relations: &[Relation]) -> (r: (MoveSeq, Vec<bool>))
    ensures
        r.0@ == traced(region@, moves@, relation_views(relations@)).1,
        r.1@ == traced(region@, moves@, relation_views(relations@)).2,
        r.1@.len() == moves@.len(),
{
    proof {
        lemma_traced_len(region@, moves@, relation_views(relations@));
    }
    let ghost rs = relation_views(relations@);
    let mut net = MoveSeq::new();
    let mut mask: Vec<bool> = Vec::new();
    let mut cur = region.duplicate();
    let mut k: usize = 0;
    assert(moves@.subrange(0, 0) =~= Seq::<MoveView>::empty());
    assert(mask@ =~= Seq::<bool>::empty());
    while k < moves.len()
        invariant
            0 <= k <= moves@.len(),
            rs == relation_views(relations@),
            traced(region@, moves@.subrange(0, k as int), rs) == (cur@, net@, mask@),
        decreases moves@.len() - k,
    {
        let m = moves.get(k);
        proof {
            assert(moves@.subrange(0, k + 1).drop_last() =~= moves@.subrange(0, k as int));
            assert(moves@.subrange(0, k + 1).last() == m@);
        }
        let (not_affected, affected) = cur.do_move(m.duplicate(), relations);
        match affected {
            Some(x) => {
                mask.push(true);
                net.push_back(m.duplicate());
                cur = x;
            },
            None => {
                mask.push(false);
                match not_affected {
                    Some(y) => {
                        cur = y;
                    },
                    None => {
                        cur = region.duplicate();
                        proof {
                            crate::region::lemma_split_complete(
                                traced(region@, moves@.subrange(0, k as int), rs).0,
                                m@,
                                rs,
                            );
                        }
                    },
                }
            },
        }
        k = k + 1;
    }
    assert(moves@.subrange(0, k as int) =~= moves@);
    (net, mask)
}

/// Every grip that some region holds or frees.
pub open spec fn vocabulary(v: Seq<Region>) -> Set<GripView> {
    Set::new(
        |g: GripView|
            exists|i: int| 0 <= i < v.len() && (#[trigger] v[i]@.held.contains(g) || v[i]@.free.contains(g)),
    )
}

fn add_all(out: &mut Vec<Grip>, v: &Vec<Grip>)
    ensures
        grip_set(final(out)@) == grip_set(old(out)@).union(grip_set(v@)),
        distinct_grips(old(out)@) ==> distinct_grips(final(out)@),
{
    let ghost was_distinct = distinct_grips(out@);
    let ghost start = grip_set(out@);
    let mut j: usize = 0;
    assert(grip_set(v@.subrange(0, 0)) =~= Set::<GripView>::empty());
    assert(start.union(Set::<GripView>::empty()) =~= start);
    while j < v.len()
        invariant
            0 <= j <= v.len(),
            grip_set(out@) == start.union(grip_set(v@.subrange(0, j as int))),
            was_distinct ==> distinct_grips(out@),
        decreases v.len() - j,
    {
        proof {
            assert(v@.subrange(0, j + 1) =~= v@.subrange(0, j as int).push(v@[j as int]));
            lemma_grip_set_push(v@.subrange(0, j as int), v@[j as int]);
        }
        insert_grip(out, v[j].duplicate());
        assert(grip_set(out@) =~= start.union(grip_set(v@.subrange(0, j + 1))));
        j = j + 1;
    }
    assert(v@.subrange(0, j as int) =~= v@);
}

/// All grips that the regions speak of, each once.
pub fn grips_of(regions: &Vec<Region>) -> (r: Vec<Grip>)
    ensures
        grip_set(r@) == vocabulary(regions@),
        distinct_grips(r@),
{
    let mut out: Vec<Grip> = Vec::new();
    let mut i: usize = 0;
    assert(grip_set(out@) =~= vocabulary(regions@.subrange(0, 0)));
    while i < regions.len()
        invariant
            0 <= i <= regions.len(),
            grip_set(out@) == vocabulary(regions@.subrange(0, i as int)),
            distinct_grips(out@),
        decreases regions.len() - i,
    {
        let ghost before = grip_set(out@);
        let ghost r = regions@[i as int]@;
        add_all(&mut out, regions[i].held());
        add_all(&mut out, regions[i].free());
        assert(grip_set(out@) == before.union(r.held).union(r.free));
        let ghost lo = regions@.subrange(0, i as int);
        let ghost hi = regions@.subrange(0, i + 1);
        assert forall|g: GripView| grip_set(out@).contains(g) <==> vocabulary(hi).contains(g) by {
            if before.contains(g) {
                let t = choose|t: int| 0 <= t < lo.len() && (#[trigger] lo[t]@.held.contains(g) || lo[t]@.free.contains(g));
                assert(hi[t] == lo[t]);
            }
            if r.held.contains(g) || r.free.contains(g) {
                assert(hi[i as int]@ == r);
            }
            if vocabulary(hi).contains(g) {
                let t = choose|t: int| 0 <= t < hi.len() && (#[trigger] hi[t]@.held.contains(g) || hi[t]@.free.contains(g));
                if t < i {
                    assert(lo[t] == hi[t]);
                }
            }
        }
        assert(grip_set(out@) =~= vocabulary(hi));
        i = i + 1;
    }
    assert(regions@.subrange(0, i as int) =~= regions@);
    out
}

/// Tells whether replaying the moves on the region leaves exactly one branch
/// at every step.
pub fn replay_is_determined(region: &Region, moves: &MoveSeq, relations: &[Relation]) -> (r: bool)
    ensures
        r == replay_determined(region@, moves@, relation_views(relations@)),
{
    let ghost rs = relation_views(relations@);
    let mut cur = region.duplicate();
    let mut k: usize = 0;
    assert(moves@.subrange(0, 0) =~= Seq::<MoveView>::empty());
    while k < moves.len()
        invariant
            0 <= k <= moves@.len(),
            rs == relation_views(relations@),
            traced(region@, moves@.subrange(0, k as int), rs).0 == cur@,
            forall|t: int|
                0 <= t < k ==> {
                    let b = #[trigger] branches(traced(region@, moves@.subrange(0, t), rs).0, moves@[t], rs);
                    b.0 is Some != b.1 is Some
                },
        decreases moves@.len() - k,
    {
        let m = moves.get(k);
        proof {
            assert(moves@.subrange(0, k + 1).drop_last() =~= moves@.subrange(0, k as int));
            assert(moves@.subrange(0, k + 1).last() == m@);
        }
        let (not_affected, affected) = cur.do_move(m.duplicate(), relations);
        match (not_affected, affected) {
            (Some(y), None) => {
                cur = y;
            },
            (None, Some(x)) => {
                cur = x;
            },
            _ => {
                assert(!replay_determined(region@, moves@, rs)) by {
                    let b = branches(traced(region@, moves@.subrange(0, k as int), rs).0, moves@[k as int], rs);
                    assert(!(b.0 is Some != b.1 is Some));
                }
                return false;
            },
        }
        k = k + 1;
    }
    true
}

/// The regions that share one net move sequence and one move mask.
#[derive(Debug, Clone)]
pub struct ResultGroup {
    pub net: MoveSeq,
    pub mask: Vec<bool>,
    pub regions: Vec<Region>,
}

pub open spec fn net_of(r: RegionView, ms: Seq<MoveView>, rs: Seq<RelationView>) -> Seq<MoveView> {
    traced(r, ms, rs).1
}

pub open spec fn mask_of(r: RegionView, ms: Seq<MoveView>, rs: Seq<RelationView>) -> Seq<bool> {
    traced(r, ms, rs).2
}

fn same_mask(a: &Vec<bool>, b: &Vec<bool>) -> (r: bool)
    ensures
        r == (a@ == b@),
{
    if a.len() != b.len() {
        return false;
    }
    let mut i: usize = 0;
    while i < a.len()
        invariant
            0 <= i <= a.len(),
            a.len() == b.len(),
            a@.subrange(0, i as int) =~= b@.subrange(0, i as int),
        decreases a.len() - i,
    {
        if a[i] != b[i] {
            return false;
        }
        i = i + 1;
    }
    assert(a@ =~= a@.subrange(0, i as int));
    assert(b@ =~= b@.subrange(0, i as int));
    true
}

/// The pair that a replay gives for the region at position `t`.
pub open spec fn key_at(nets: Seq<MoveSeq>, masks: Seq<Vec<bool>>, t: int) -> (Seq<MoveView>, Seq<bool>) {
    (nets[t]@, masks[t]@)
}

pub open spec fn group_key(x: ResultGroup) -> (Seq<MoveView>, Seq<bool>) {
    (x.net@, x.mask@)
}

fn seen_before(nets: &Vec<MoveSeq>, masks: &Vec<Vec<bool>>, i: usize) -> (r: bool)
    requires
        i < nets@.len(),
        nets@.len() == masks@.len(),
    ensures
        r == exists|t: int| 0 <= t < i && #[trigger] key_at(nets@, masks@, t) == key_at(nets@, masks@, i as int),
{
    let mut j: usize = 0;
    while j < i
        invariant
            0 <= j <= i < nets@.len(),
            nets@.len() == masks@.len(),
            forall|t: int| 0 <= t < j ==> #[trigger] key_at(nets@, masks@, t) != key_at(nets@, masks@, i as int),
        decreases i - j,
    {
        if nets[j].same_as(&nets[i]) && same_mask(&masks[j], &masks[i]) {
            assert(key_at(nets@, masks@, j as int) == key_at(nets@, masks@, i as int));
            return true;
        }
        j = j + 1;
    }
    false
}

/// Every member is the region at some position whose pair is `key`.
#[verifier::opaque]
pub open spec fn members_keyed(
    members: Seq<Region>,
    regions: Seq<Region>,
    nets: Seq<MoveSeq>,
    masks: Seq<Vec<bool>>,
    key: (Seq<MoveView>, Seq<bool>),
) -> bool {
    forall|k: int|
        #![trigger members[k]]
        0 <= k < members.len() ==> exists|t: int|
            #![trigger regions[t]]
            0 <= t < regions.len() && regions[t]@ == members[k]@ && key_at(nets, masks, t) == key
}

fn collect_members(regions: &Vec<Region>, nets: &Vec<MoveSeq>, masks: &Vec<Vec<bool>>, i: usize) -> (members: Vec<Region>)
    requires
        i < regions@.len(),
        nets@.len() == regions@.len(),
        masks@.len() == regions@.len(),
    ensures
        members_keyed(members@, regions@, nets@, masks@, key_at(nets@, masks@, i as int)),
        forall|t: int| i <= t < regions@.len() && #[trigger] key_at(nets@, masks@, t) == key_at(nets@, masks@, i as int)
            ==> region_set(members@).contains(regions@[t]@),
{
    let n = regions.len();
    let mut members: Vec<Region> = Vec::new();
    let ghost mut origin: Seq<int> = Seq::empty();
    let mut l: usize = i;
    while l < n
        invariant
            i <= l <= n,
            n == regions@.len(),
            nets@.len() == n,
            masks@.len() == n,
            origin.len() == members@.len(),
            forall|k: int| #![trigger origin[k]] 0 <= k < members@.len() ==> 0 <= origin[k] < n
                && regions@[origin[k]]@ == members@[k]@
                && key_at(nets@, masks@, origin[k]) == key_at(nets@, masks@, i as int),
            forall|t: int| i <= t < l && #[trigger] key_at(nets@, masks@, t) == key_at(nets@, masks@, i as int)
                ==> region_set(members@).contains(regions@[t]@),
        decreases n - l,
    {
        if nets[l].same_as(&nets[i]) && same_mask(&masks[l], &masks[i]) {
            let ghost before = members@;
            let d = regions[l].duplicate();
            proof {
                lemma_region_set_push(before, d);
            }
            members.push(d);
            let ghost prev_origin = origin;
            proof {
                origin = origin.push(l as int);
            }
            assert(key_at(nets@, masks@, l as int) == key_at(nets@, masks@, i as int));
            assert forall|k: int| #![trigger origin[k]] 0 <= k < members@.len() implies 0 <= origin[k] < n
                && regions@[origin[k]]@ == members@[k]@
                && key_at(nets@, masks@, origin[k]) == key_at(nets@, masks@, i as int) by {
                if k < before.len() {
                    assert(members@[k] == before[k]);
                    assert(origin[k] == prev_origin[k]);
                }
            }
        }
        l = l + 1;
    }
    proof {
        reveal(members_keyed);
        assert forall|k: int| #![trigger members@[k]] 0 <= k < members@.len() implies exists|t: int|
            #![trigger regions@[t]]
            0 <= t < regions@.len() && regions@[t]@ == members@[k]@
                && key_at(nets@, masks@, t) == key_at(nets@, masks@, i as int) by {
            let t = origin[k];
            assert(regions@[t]@ == members@[k]@);
        }
    }
    members
}

#[verifier::opaque]
pub open spec fn keys_seen(out: Seq<ResultGroup>, nets: Seq<MoveSeq>, masks: Seq<Vec<bool>>, i: int) -> bool {
    forall|g: int|
        0 <= g < out.len() ==> exists|t: int| 0 <= t < i && key_at(nets, masks, t) == #[trigger] group_key(out[g])
}

#[verifier::opaque]
pub open spec fn groups_complete(out: Seq<ResultGroup>, regions: Seq<Region>, nets: Seq<MoveSeq>, masks: Seq<Vec<bool>>) -> bool {
    forall|g: int, t: int|
        0 <= g < out.len() && 0 <= t < regions.len() && #[trigger] key_at(nets, masks, t) == #[trigger] group_key(out[g])
            ==> region_set(out[g].regions@).contains(regions[t]@)
}

#[verifier::opaque]
pub open spec fn keys_covered(out: Seq<ResultGroup>, nets: Seq<MoveSeq>, masks: Seq<Vec<bool>>, i: int) -> bool {
    forall|t: int|
        0 <= t < i ==> exists|g: int| 0 <= g < out.len() && #[trigger] group_key(out[g]) == #[trigger] key_at(nets, masks, t)
}

#[verifier::opaque]
pub open spec fn keys_distinct(out: Seq<ResultGroup>) -> bool {
    forall|g: int, h: int| 0 <= g < h < out.len() ==> #[trigger] group_key(out[g]) != #[trigger] group_key(out[h])
}

#[verifier::opaque]
pub open spec fn groups_sound(out: Seq<ResultGroup>, regions: Seq<Region>, nets: Seq<MoveSeq>, masks: Seq<Vec<bool>>) -> bool {
    forall|g: int| 0 <= g < out.len() ==> #[trigger] members_keyed(out[g].regions@, regions, nets, masks, group_key(out[g]))
}

pub open spec fn grouped(out: Seq<ResultGroup>, regions: Seq<Region>, nets: Seq<MoveSeq>, masks: Seq<Vec<bool>>, i: int) -> bool {
    &&& groups_sound(out, regions, nets, masks)
    &&& keys_seen(out, nets, masks, i)
    &&& groups_complete(out, regions, nets, masks)
    &&& keys_covered(out, nets, masks, i)
    &&& keys_distinct(out)
}

proof fn lemma_grouped_seen(out: Seq<ResultGroup>, regions: Seq<Region>, nets: Seq<MoveSeq>, masks: Seq<Vec<bool>>, i: int)
    requires
        grouped(out, regions, nets, masks, i),
        0 <= i < regions.len(),
        exists|t: int| 0 <= t < i && #[trigger] key_at(nets, masks, t) == key_at(nets, masks, i),
    ensures
        grouped(out, regions, nets, masks, i + 1),
{
    reveal(keys_seen);
    reveal(keys_covered);
    let t = choose|t: int| 0 <= t < i && #[trigger] key_at(nets, masks, t) == key_at(nets, masks, i);
    let g = choose|g: int| 0 <= g < out.len() && #[trigger] group_key(out[g]) == #[trigger] key_at(nets, masks, t);
    assert(group_key(out[g]) == key_at(nets, masks, i));
    assert forall|g: int| 0 <= g < out.len() implies exists|t: int| 0 <= t < i + 1 && key_at(nets, masks, t) == #[trigger] group_key(out[g]) by {
        let t = choose|t: int| 0 <= t < i && key_at(nets, masks, t) == #[trigger] group_key(out[g]);
    }
}

proof fn lemma_grouped_new(
    out: Seq<ResultGroup>,
    group: ResultGroup,
    regions: Seq<Region>,
    nets: Seq<MoveSeq>,
    masks: Seq<Vec<bool>>,
    i: int,
)
    requires
        grouped(out, regions, nets, masks, i),
        0 <= i < regions.len(),
        forall|t: int| 0 <= t < i ==> #[trigger] key_at(nets, masks, t) != key_at(nets, masks, i),
        group_key(group) == key_at(nets, masks, i),
        members_keyed(group.regions@, regions, nets, masks, key_at(nets, masks, i)),
        forall|t: int| i <= t < regions.len() && #[trigger] key_at(nets, masks, t) == key_at(nets, masks, i)
            ==> region_set(group.regions@).contains(regions[t]@),
    ensures
        grouped(out.push(group), regions, nets, masks, i + 1),
{
    reveal(keys_seen);
    reveal(groups_complete);
    reveal(keys_covered);
    reveal(keys_distinct);
    reveal(groups_sound);
    let w = out.push(group);
    let n = regions.len() as int;
    assert forall|g: int| 0 <= g < w.len() implies #[trigger] members_keyed(w[g].regions@, regions, nets, masks, group_key(w[g])) by {
        if g < out.len() {
            assert(w[g] == out[g]);
        }
    }
    assert forall|g: int| 0 <= g < w.len() implies exists|t: int| 0 <= t < i + 1 && key_at(nets, masks, t) == #[trigger] group_key(w[g]) by {
        if g < out.len() {
            assert(w[g] == out[g]);
            let t = choose|t: int| 0 <= t < i && key_at(nets, masks, t) == #[trigger] group_key(out[g]);
        } else {
            assert(key_at(nets, masks, i) == group_key(w[g]));
        }
    }
    assert forall|g: int, t: int|
        0 <= g < w.len() && 0 <= t < n && #[trigger] key_at(nets, masks, t) == #[trigger] group_key(w[g])
            implies region_set(w[g].regions@).contains(regions[t]@) by {
        if g < out.len() {
            assert(w[g] == out[g]);
        } else if t < i {
            assert(key_at(nets, masks, t) != key_at(nets, masks, i));
        }
    }
    assert forall|t: int| 0 <= t < i + 1 implies exists|g: int| 0 <= g < w.len() && #[trigger] group_key(w[g]) == #[trigger] key_at(nets, masks, t) by {
        if t < i {
            let g = choose|g: int| 0 <= g < out.len() && #[trigger] group_key(out[g]) == #[trigger] key_at(nets, masks, t);
            assert(w[g] == out[g]);
        } else {
            assert(group_key(w[out.len() as int]) == key_at(nets, masks, t));
        }
    }
    assert forall|g: int, h: int| 0 <= g < h < w.len() implies #[trigger] group_key(w[g]) != #[trigger] group_key(w[h]) by {
        assert(w[g] == out[g]);
        if h < out.len() {
            assert(w[h] == out[h]);
        } else {
            let t = choose|t: int| 0 <= t < i && key_at(nets, masks, t) == #[trigger] group_key(out[g]);
            assert(key_at(nets, masks, t) != key_at(nets, masks, i));
        }
    }
}

/// Every region of the input stands in a group whose pair is the region's own.
#[verifier::opaque]
pub open spec fn covers(r: Seq<ResultGroup>, regions: Seq<Region>, ms: Seq<MoveView>, rs: Seq<RelationView>) -> bool {
    forall|x: RegionView|
        #![trigger region_set(regions).contains(x)]
        region_set(regions).contains(x) ==> exists|g: int|
            0 <= g && g < r.len() && #[trigger] group_key(r[g]) == (net_of(x, ms, rs), mask_of(x, ms, rs))
                && region_set(r[g].regions@).contains(x)
}

/// Every member of a group is one of the regions, and the group's pair is the
/// member's own.
#[verifier::opaque]
pub open spec fn sound(r: Seq<ResultGroup>, regions: Seq<Region>, ms: Seq<MoveView>, rs: Seq<RelationView>) -> bool {
    forall|g: int, x: RegionView|
        #![trigger region_set(r[g].regions@).contains(x)]
        0 <= g && g < r.len() && region_set(r[g].regions@).contains(x) ==> exists|i: int|
            #![trigger regions[i]]
            0 <= i < regions.len() && regions[i]@ == x && group_key(r[g]) == (net_of(x, ms, rs), mask_of(x, ms, rs))
}

proof fn lemma_grouped_final(
    out: Seq<ResultGroup>,
    regions: Seq<Region>,
    nets: Seq<MoveSeq>,
    masks: Seq<Vec<bool>>,
    ms: Seq<MoveView>,
    rs: Seq<RelationView>,
)
    requires
        grouped(out, regions, nets, masks, regions.len() as int),
        forall|t: int| 0 <= t < regions.len() ==> #[trigger] key_at(nets, masks, t) == (net_of(regions[t]@, ms, rs), mask_of(regions[t]@, ms, rs)),
    ensures
        covers(out, regions, ms, rs),
        sound(out, regions, ms, rs),
{
    reveal(covers);
    reveal(sound);
    reveal(groups_complete);
    reveal(keys_covered);
    reveal(groups_sound);
    assert forall|x: RegionView|
        #![trigger region_set(regions).contains(x)]
        region_set(regions).contains(x) implies exists|g: int|
            0 <= g && g < out.len() && #[trigger] group_key(out[g]) == (net_of(x, ms, rs), mask_of(x, ms, rs))
                && region_set(out[g].regions@).contains(x) by {
        let i = choose|i: int| 0 <= i < regions.len() && #[trigger] regions[i]@ == x;
        let g = choose|g: int| 0 <= g < out.len() && #[trigger] group_key(out[g]) == #[trigger] key_at(nets, masks, i);
        assert(region_set(out[g].regions@).contains(regions[i]@));
        assert(group_key(out[g]) == (net_of(regions[i]@, ms, rs), mask_of(regions[i]@, ms, rs)));
    }
    assert forall|g: int, x: RegionView|
        #![trigger region_set(out[g].regions@).contains(x)]
        0 <= g < out.len() && region_set(out[g].regions@).contains(x) implies exists|i: int|
            #![trigger regions[i]]
            0 <= i < regions.len() && regions[i]@ == x && group_key(out[g]) == (net_of(x, ms, rs), mask_of(x, ms, rs)) by {
        assert(members_keyed(out[g].regions@, regions, nets, masks, group_key(out[g])));
        reveal(members_keyed);
        let k = choose|k: int| 0 <= k < out[g].regions@.len() && #[trigger] out[g].regions@[k]@ == x;
        assert(out[g].regions@[k] == out[g].regions@[k]);
        let t = choose|t: int| #![trigger regions[t]] 0 <= t < regions.len() && regions[t]@ == out[g].regions@[k]@ && key_at(nets, masks, t) == group_key(out[g]);
        assert(key_at(nets, masks, t) == (net_of(regions[t]@, ms, rs), mask_of(regions[t]@, ms, rs)));
    }
}

/// Groups the regions by what the replay of the moves gives for each: its net
/// move sequence and its move mask. Each group has its own pair; every region
/// stands in the group of its pair, a group holds every region of its pair,
/// and nothing else.
pub fn group_results(regions: &Vec<Region>, moves: &MoveSeq, relations: &[Relation]) -> (r: Vec<
    ResultGroup,
>)
    ensures
        r@.len() <= regions@.len(),
        covers(r@, regions@, moves@, relation_views(relations@)),
        sound(r@, regions@, moves@, relation_views(relations@)),
        forall|g: int, i: int|
            0 <= g < r@.len() && 0 <= i < regions@.len() && #[trigger] group_key(r@[g]) == (
                net_of(#[trigger] regions@[i]@, moves@, relation_views(relations@)),
                mask_of(regions@[i]@, moves@, relation_views(relations@)),
            ) ==> region_set(r@[g].regions@).contains(regions@[i]@),
        forall|g: int, h: int|
            0 <= g < h < r@.len() ==> #[trigger] group_key(r@[g]) != #[trigger] group_key(r@[h]),
{
    let ghost rs = relation_views(relations@);
    let n = regions.len();
    let mut nets: Vec<MoveSeq> = Vec::new();
    let mut masks: Vec<Vec<bool>> = Vec::new();
    let mut i: usize = 0;
    while i < n
        invariant
            0 <= i <= n,
            n == regions@.len(),
            rs == relation_views(relations@),
            nets@.len() == i,
            masks@.len() == i,
            forall|t: int| 0 <= t < i ==> #[trigger] key_at(nets@, masks@, t) == (net_of(regions@[t]@, moves@, rs), mask_of(regions@[t]@, moves@, rs)),
        decreases n - i,
    {
        let (net, mask) = trace(&regions[i], moves, relations);
        let ghost (pn, pm) = (nets@, masks@);
        nets.push(net);
        masks.push(mask);
        assert forall|t: int| 0 <= t < i + 1 implies #[trigger] key_at(nets@, masks@, t) == (net_of(regions@[t]@, moves@, rs), mask_of(regions@[t]@, moves@, rs)) by {
            if t < i {
                assert(key_at(pn, pm, t) == key_at(nets@, masks@, t));
            }
        }
        i = i + 1;
    }
    let mut out: Vec<ResultGroup> = Vec::new();
    let mut i: usize = 0;
    proof {
        reveal(keys_seen);
        reveal(groups_complete);
        reveal(keys_covered);
        reveal(keys_distinct);
        reveal(groups_sound);
    }
    while i < n
        invariant
            0 <= i <= n,
            n == regions@.len(),
            nets@.len() == n,
            masks@.len() == n,
            out@.len() <= i,
            rs == relation_views(relations@),
            forall|t: int| 0 <= t < n ==> #[trigger] key_at(nets@, masks@, t) == (net_of(regions@[t]@, moves@, rs), mask_of(regions@[t]@, moves@, rs)),
            grouped(out@, regions@, nets@, masks@, i as int),
        decreases n - i,
    {
        if !seen_before(&nets, &masks, i) {
            let members = collect_members(regions, &nets, &masks, i);
            let group = ResultGroup { net: nets[i].duplicate(), mask: copy_mask(&masks[i]), regions: members };
            proof {
                lemma_grouped_new(out@, group, regions@, nets@, masks@, i as int);
            }
            out.push(group);
        } else {
            proof {
                lemma_grouped_seen(out@, regions@, nets@, masks@, i as int);
            }
        }
        i = i + 1;
    }
    proof {
        lemma_grouped_final(out@, regions@, nets@, masks@, moves@, rs);
        reveal(groups_complete);
        reveal(keys_covered);
        reveal(keys_distinct);
        assert forall|g: int, i: int|
            0 <= g < out@.len() && 0 <= i < regions@.len() && #[trigger] group_key(out@[g]) == (
                net_of(#[trigger] regions@[i]@, moves@, rs),
                mask_of(regions@[i]@, moves@, rs),
            ) implies region_set(out@[g].regions@).contains(regions@[i]@) by {
            assert(key_at(nets@, masks@, i) == group_key(out@[g]));
        }
    }
    out
}

fn copy_mask(a: &Vec<bool>) -> (r: Vec<bool>)
    ensures
        r@ == a@,
{
    let mut r: Vec<bool> = Vec::new();
    let mut i: usize = 0;
    while i < a.len()
        invariant
            0 <= i <= a.len(),
            r@ =~= a@.subrange(0, i as int),
        decreases a.len() - i,
    {
        r.push(a[i]);
        i = i + 1;
    }
    assert(r@ =~= a@);
    r
}

/// What an analysis finds: the regions, the grips they speak of, and the
/// regions grouped by net move sequence and move mask.
pub struct Analysis {
    pub regions: Vec<Region>,
    pub grips: Vec<Grip>,
    pub results: Vec<ResultGroup>,
}

/// Runs the sweep over the inverse of the moves, collects the grips, and
/// replays the moves on every region.
pub fn analyze(moves: &MoveSeq, inverse_moves: &MoveSeq, relations: &[Relation]) -> (a: Analysis)
    ensures
        region_set(a.regions@) == swept(inverse_moves@, relation_views(relations@)),
        distinct_regions(a.regions@),
        grip_set(a.grips@) == vocabulary(a.regions@),
        distinct_grips(a.grips@),
        a.results@.len() <= a.regions@.len(),
        covers(a.results@, a.regions@, moves@, relation_views(relations@)),
        sound(a.results@, a.regions@, moves@, relation_views(relations@)),
        forall|g: int, i: int|
            0 <= g < a.results@.len() && 0 <= i < a.regions@.len() && #[trigger] group_key(a.results@[g]) == (
                net_of(#[trigger] a.regions@[i]@, moves@, relation_views(relations@)),
                mask_of(a.regions@[i]@, moves@, relation_views(relations@)),
            ) ==> region_set(a.results@[g].regions@).contains(a.regions@[i]@),
        forall|g: int, h: int|
            0 <= g < h < a.results@.len() ==> #[trigger] group_key(a.results@[g]) != #[trigger] group_key(a.results@[h]),
{
    let regions = sweep(inverse_moves, relations);
    let grips = grips_of(&regions);
    let results = group_results(&regions, moves, relations);
    Analysis { regions, grips, results }
}

} // verus!
