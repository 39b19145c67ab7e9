use vstd::prelude::*;
use crate::order::{
    compare_str, is_total_cmp, lemma_lex_prefix_first, lemma_lex_skip, lemma_lex_total,
    lemma_str_cmp, lex_cmp, same_str, sign_of, str_cmp,
};

verus! {

/// Layer information of a move: a single layer, or a range of layers.
#[derive(Debug, Clone, Copy, PartialEq, Eq, Hash)]
pub enum MovePrefix {
    Layer(u32),
    Range(u32, u32),
}

/// One move: a family (the face or slice turned), optional layer information,
/// and a number of quarter turns.
#[derive(Debug, Clone, PartialEq, Eq, Hash)]
pub struct Move {
    pub family: String,
    pub prefix: Option<MovePrefix>,
    pub amount: i32,
}

pub struct MoveView {
    pub family: Seq<char>,
    pub prefix: Option<MovePrefix>,
    pub amount: i32,
}

impl View for Move {
    type V = MoveView;

    open spec fn view(&self) -> MoveView {
        MoveView { family: self.family@, prefix: self.prefix, amount: self.amount }
    }
}

/// The same move turned the other way.
pub open spec fn inverse_of(m: MoveView) -> MoveView {
    MoveView { family: m.family, prefix: m.prefix, amount: 0i32.wrapping_sub(m.amount) }
}

pub open spec fn opt_cmp(a: Option<u32>, b: Option<u32>) -> int {
    match (a, b) {
        (None, None) => 0,
        (None, Some(_)) => -1,
        (Some(_), None) => 1,
        (Some(x), Some(y)) => if x < y {
            -1
        } else if x == y {
            0
        } else {
            1
        },
    }
}

/// The ordering key of the layer information: absent sorts first, a single
/// layer as `[none, layer]`, a range as `[inner, outer]`.
pub open spec fn prefix_key(p: Option<MovePrefix>) -> (Option<u32>, Option<u32>) {
    match p {
        None => (None, None),
        Some(MovePrefix::Layer(l)) => (None, Some(l)),
        Some(MovePrefix::Range(i, o)) => (Some(i), Some(o)),
    }
}

pub open spec fn prefix_cmp(p: Option<MovePrefix>, q: Option<MovePrefix>) -> int {
    let (a, b) = (prefix_key(p), prefix_key(q));
    if opt_cmp(a.0, b.0) != 0 {
        opt_cmp(a.0, b.0)
    } else {
        opt_cmp(a.1, b.1)
    }
}

pub open spec fn amount_cmp(a: i32, b: i32) -> int {
    if a < b {
        -1
    } else if a == b {
        0
    } else {
        1
    }
}

/// Moves are ordered by layer information, then family, then amount.
pub open spec fn move_cmp(a: MoveView, b: MoveView) -> int {
    if prefix_cmp(a.prefix, b.prefix) != 0 {
        prefix_cmp(a.prefix, b.prefix)
    } else if str_cmp(a.family, b.family) != 0 {
        str_cmp(a.family, b.family)
    } else {
        amount_cmp(a.amount, b.amount)
    }
}

pub open spec fn move_order() -> spec_fn(MoveView, MoveView) -> int {
    |a: MoveView, b: MoveView| move_cmp(a, b)
}

/// Move sequences are ordered lexicographically by their moves.
pub open spec fn seq_cmp(a: Seq<MoveView>, b: Seq<MoveView>) -> int {
    lex_cmp(a, b, move_order())
}

pub proof fn lemma_move_cmp_total()
    ensures
        is_total_cmp(move_order()),
{
    assert forall|x: MoveView, y: MoveView|
        #![trigger move_cmp(x, y)]
        (move_cmp(x, y) == 0 <==> x == y) && -1 <= move_cmp(x, y) <= 1 && move_cmp(x, y)
            == -move_cmp(y, x) by {
        lemma_str_cmp(x.family, y.family, y.family);
    }
    assert forall|x: MoveView, y: MoveView, z: MoveView|
        #![trigger move_cmp(x, y), move_cmp(y, z)]
        move_cmp(x, y) < 0 && move_cmp(y, z) < 0 implies move_cmp(x, z) < 0 by {
        lemma_str_cmp(x.family, y.family, z.family);
        lemma_str_cmp(y.family, z.family, x.family);
        lemma_str_cmp(x.family, z.family, y.family);
    }
}

/// The order on move sequences is a strict total order in which a proper
/// prefix sorts before the longer sequence.
pub proof fn lemma_seq_order(a: Seq<MoveView>, b: Seq<MoveView>, c: Seq<MoveView>)
    ensures
        seq_cmp(a, a) == 0,
        seq_cmp(a, b) == 0 <==> a == b,
        seq_cmp(a, b) == -seq_cmp(b, a),
        seq_cmp(a, b) < 0 || seq_cmp(a, b) == 0 || seq_cmp(a, b) > 0,
        seq_cmp(a, b) < 0 && seq_cmp(b, c) < 0 ==> seq_cmp(a, c) < 0,
        a.len() < b.len() && a == b.subrange(0, a.len() as int) ==> seq_cmp(a, b) < 0,
{
    lemma_move_cmp_total();
    lemma_lex_total(move_order(), a, b, c);
    lemma_lex_total(move_order(), a, a, a);
    if a.len() < b.len() && a == b.subrange(0, a.len() as int) {
        lemma_lex_prefix_first(a, b, move_order());
    }
}

/// No two neighbouring moves share a family.
pub open spec fn well_formed(s: Seq<MoveView>) -> bool {
    forall|i: int| 0 <= i < s.len() - 1 ==> #[trigger] s[i].family != s[i + 1].family
}

/// Appending a move: a move of the same family as the last one merges into it
/// (amounts add), and a merge that reaches zero removes the last move.
pub open spec fn pushed(s: Seq<MoveView>, m: MoveView) -> Seq<MoveView> {
    if s.len() > 0 && s.last().family == m.family {
        let sum = s.last().amount.wrapping_add(m.amount);
        if sum == 0 {
            s.drop_last()
        } else {
            s.drop_last().push(
                MoveView { family: s.last().family, prefix: s.last().prefix, amount: sum },
            )
        }
    } else {
        s.push(m)
    }
}

/// Appending each move in turn.
pub open spec fn pushed_all(s: Seq<MoveView>, ms: Seq<MoveView>) -> Seq<MoveView>
    decreases ms.len(),
{
    if ms.len() == 0 {
        s
    } else {
        pushed(pushed_all(s, ms.drop_last()), ms.last())
    }
}

/// The moves of `ms` undone: reversed, each turned the other way.
pub open spec fn inverted(ms: Seq<MoveView>) -> Seq<MoveView> {
    Seq::new(ms.len(), |i: int| inverse_of(ms[ms.len() - 1 - i]))
}

pub open spec fn is_prefix_of(p: Seq<MoveView>, s: Seq<MoveView>) -> bool {
    p.len() <= s.len() && s.subrange(0, p.len() as int) == p
}

pub proof fn lemma_pushed_well_formed(s: Seq<MoveView>, m: MoveView)
    requires
        well_formed(s),
    ensures
        well_formed(pushed(s, m)),
{
    let r = pushed(s, m);
    assert forall|i: int| 0 <= i < r.len() - 1 implies #[trigger] r[i].family != r[i + 1].family by {
        if i + 1 < s.len() {
            assert(s[i].family != s[i + 1].family);
        }
    }
}

/// Two moves of one family pushed one after the other leave a single move
/// whose amount is their sum, or nothing where the sum is zero. Amounts add
/// as `i32` does with wrapping; where the sum fits, it is exactly `a + b`.
pub proof fn lemma_canonical_merge(s: Seq<MoveView>, a: MoveView, b: MoveView)
    requires
        a.family == b.family,
        s.len() == 0 || s.last().family != a.family,
    ensures
        pushed(pushed(s, a), b) == (if a.amount.wrapping_add(b.amount) == 0 {
            s
        } else {
            s.push(
                MoveView { family: a.family, prefix: a.prefix, amount: a.amount.wrapping_add(b.amount) },
            )
        }),
        i32::MIN <= a.amount + b.amount <= i32::MAX ==> a.amount.wrapping_add(b.amount) == a.amount
            + b.amount,
{
    let t = pushed(s, a);
    assert(t == s.push(a));
    assert(t.drop_last() =~= s);
}

/// Merging does not depend on how a turn was split: pushing `a` then `b` gives
/// what pushing one move of their summed amount gives, where that sum is not
/// zero.
pub proof fn lemma_merge_split(s: Seq<MoveView>, a: MoveView, b: MoveView)
    requires
        a.family == b.family,
        s.len() == 0 || s.last().family != a.family,
        a.amount.wrapping_add(b.amount) != 0,
    ensures
        pushed(pushed(s, a), b) == pushed(
            s,
            MoveView { family: a.family, prefix: a.prefix, amount: a.amount.wrapping_add(b.amount) },
        ),
{
    lemma_canonical_merge(s, a, b);
}

impl Move {
    pub fn new(family: String, prefix: Option<MovePrefix>, amount: i32) -> (r: Move)
        ensures
            r@ == (MoveView { family: family@, prefix, amount }),
    {
        Move { family, prefix, amount }
    }

    /// A copy of this move.
    pub fn duplicate(&self) -> (r: Move)
        ensures
            r@ == self@,
    {
        Move { family: self.family.clone(), prefix: self.prefix, amount: self.amount }
    }

    pub fn inverse(&self) -> (r: Move)
        ensures
            r@ == inverse_of(self@),
    {
        Move { family: self.family.clone(), prefix: self.prefix, amount: 0i32.wrapping_sub(self.amount) }
    }

    pub fn same_as(&self, other: &Move) -> (r: bool)
        ensures
            r == (self@ == other@),
    {
        let p = match (self.prefix, other.prefix) {
            (None, None) => true,
            (Some(MovePrefix::Layer(a)), Some(MovePrefix::Layer(b))) => a == b,
            (Some(MovePrefix::Range(a, b)), Some(MovePrefix::Range(c, d))) => a == c && b == d,
            _ => false,
        };
        p && self.amount == other.amount && same_str(self.family.as_str(), other.family.as_str())
    }

    pub fn compare(&self, other: &Move) -> (r: std::cmp::Ordering)
        ensures
            r == sign_of(move_cmp(self@, other@)),
    {
        let (a, b) = match self.prefix {
            None => (None, None),
            Some(MovePrefix::Layer(l)) => (None, Some(l)),
            Some(MovePrefix::Range(i, o)) => (Some(i), Some(o)),
        };
        let (c, d) = match other.prefix {
            None => (None, None),
            Some(MovePrefix::Layer(l)) => (None, Some(l)),
            Some(MovePrefix::Range(i, o)) => (Some(i), Some(o)),
        };
        let first = compare_opt(a, c);
        match first {
            std::cmp::Ordering::Equal => {},
            _ => return first,
        }
        let second = compare_opt(b, d);
        match second {
            std::cmp::Ordering::Equal => {},
            _ => return second,
        }
        let fam = compare_str(self.family.as_str(), other.family.as_str());
        match fam {
            std::cmp::Ordering::Equal => {},
            _ => return fam,
        }
        if self.amount < other.amount {
            std::cmp::Ordering::Less
        } else if self.amount == other.amount {
            std::cmp::Ordering::Equal
        } else {
            std::cmp::Ordering::Greater
        }
    }
}

fn compare_opt(a: Option<u32>, b: Option<u32>) -> (r: std::cmp::Ordering)
    ensures
        r == sign_of(opt_cmp(a, b)),
{
    match (a, b) {
        (None, None) => std::cmp::Ordering::Equal,
        (None, Some(_)) => std::cmp::Ordering::Less,
        (Some(_), None) => std::cmp::Ordering::Greater,
        (Some(x), Some(y)) => if x < y {
            std::cmp::Ordering::Less
        } else if x == y {
            std::cmp::Ordering::Equal
        } else {
            std::cmp::Ordering::Greater
        },
    }
}

/// A sequence of moves kept in canonical form as it grows: see `pushed`.
#[derive(Debug, Clone, PartialEq, Eq, Hash, Default)]
pub struct MoveSeq {
    moves: Vec<Move>,
}

impl View for MoveSeq {
    type V = Seq<MoveView>;

    closed spec fn view(&self) -> Seq<MoveView> {
        move_views(self.moves@)
    }
}

pub open spec fn move_views(v: Seq<Move>) -> Seq<MoveView> {
    v.map_values(|m: Move| m@)
}

impl MoveSeq {
    pub fn new() -> (r: MoveSeq)
        ensures
            r@ == Seq::<MoveView>::empty(),
    {
        let r = MoveSeq { moves: Vec::new() };
        assert(r@ =~= Seq::<MoveView>::empty());
        r
    }

    /// The canonical sequence of the moves, pushed one after another.
    pub fn from_moves(moves: &Vec<Move>) -> (r: MoveSeq)
        ensures
            r@ == pushed_all(Seq::empty(), move_views(moves@)),
    {
        let mut r = MoveSeq::new();
        let mut i: usize = 0;
        assert(move_views(moves@).subrange(0, 0) =~= Seq::<MoveView>::empty());
        while i < moves.len()
            invariant
                0 <= i <= moves.len(),
                r@ == pushed_all(Seq::empty(), move_views(moves@).subrange(0, i as int)),
            decreases moves.len() - i,
        {
            assert(move_views(moves@).subrange(0, i + 1).drop_last() =~= move_views(moves@).subrange(0, i as int));
            r.push_back(moves[i].duplicate());
            i = i + 1;
        }
        assert(move_views(moves@).subrange(0, i as int) =~= move_views(moves@));
        r
    }

    /// The canonical sequence that undoes the moves: the moves reversed, each
    /// turned the other way, pushed one after another.
    pub fn from_inverse_moves(moves: &Vec<Move>) -> (r: MoveSeq)
        ensures
            r@ == pushed_all(Seq::empty(), inverted(move_views(moves@))),
    {
        let ghost inv = inverted(move_views(moves@));
        let mut r = MoveSeq::new();
        let mut i: usize = 0;
        assert(inv.subrange(0, 0) =~= Seq::<MoveView>::empty());
        while i < moves.len()
            invariant
                0 <= i <= moves.len(),
                inv == inverted(move_views(moves@)),
                r@ == pushed_all(Seq::empty(), inv.subrange(0, i as int)),
            decreases moves.len() - i,
        {
            assert(inv.subrange(0, i + 1).drop_last() =~= inv.subrange(0, i as int));
            let m = moves[moves.len() - 1 - i].inverse();
            assert(inv.subrange(0, i + 1).last() == m@);
            r.push_back(m);
            i = i + 1;
        }
        assert(inv.subrange(0, i as int) =~= inv);
        r
    }

    /// A copy of this sequence.
    pub fn duplicate(&self) -> (r: MoveSeq)
        ensures
            r@ == self@,
    {
        let mut moves: Vec<Move> = Vec::new();
        let mut i: usize = 0;
        while i < self.moves.len()
            invariant
                0 <= i <= self.moves.len(),
                move_views(moves@) =~= self@.subrange(0, i as int),
            decreases self.moves.len() - i,
        {
            assert(self@[i as int] == self.moves@[i as int]@);
            let ghost prev = moves@;
            assert(move_views(prev).len() == prev.len());
            assert(prev.len() == i);
            let d = self.moves[i].duplicate();
            moves.push(d);
            assert forall|t: int| 0 <= t < i + 1 implies move_views(moves@)[t] == self@[t] by {
                if t < i {
                    assert(moves@[t] == prev[t]);
                    assert(move_views(prev)[t] == self@.subrange(0, i as int)[t]);
                }
            }
            assert(move_views(moves@) =~= self@.subrange(0, i + 1));
            i = i + 1;
        }
        MoveSeq { moves }
    }

    pub fn push_back(&mut self, m: Move)
        ensures
            final(self)@ == pushed(old(self)@, m@),
            well_formed(old(self)@) ==> well_formed(final(self)@),
    {
        proof {
            if well_formed(self@) {
                lemma_pushed_well_formed(self@, m@);
            }
        }
        let n = self.moves.len();
        if n > 0 && same_str(self.moves[n - 1].family.as_str(), m.family.as_str()) {
            let mut last = self.moves.pop().unwrap();
            let sum = last.amount.wrapping_add(m.amount);
            if sum != 0 {
                last.amount = sum;
                self.moves.push(last);
            }
            assert(self@ =~= pushed(old(self)@, m@));
        } else {
            self.moves.push(m);
            assert(self@ =~= pushed(old(self)@, m@));
        }
    }

    /// Removes the first move where its family is `family`.
    pub fn pop_front_if_fam(&mut self, family: &str)
        ensures
            final(self)@ == (if old(self)@.len() > 0 && old(self)@[0].family == family@ {
                old(self)@.drop_first()
            } else {
                old(self)@
            }),
            well_formed(old(self)@) ==> well_formed(final(self)@),
    {
        if self.moves.len() > 0 && same_str(self.moves[0].family.as_str(), family) {
            self.moves.remove(0);
            assert(self@ =~= old(self)@.drop_first());
            assert forall|i: int| 0 <= i < self@.len() - 1 && well_formed(old(self)@) implies
                #[trigger] self@[i].family != self@[i + 1].family by {
                assert(old(self)@[i + 1].family != old(self)@[i + 2].family);
            }
        }
    }

    /// Removes `moves` from the front where they stand there, move for move.
    pub fn pop_front_if_matches(&mut self, moves: &MoveSeq) -> (r: bool)
        ensures
            r == is_prefix_of(moves@, old(self)@),
            final(self)@ == (if r {
                old(self)@.skip(moves@.len() as int)
            } else {
                old(self)@
            }),
            well_formed(old(self)@) ==> well_formed(final(self)@),
    {
        let k = moves.moves.len();
        let mut i: usize = 0;
        while i < k
            invariant
                0 <= i <= k,
                k == moves@.len(),
                i <= self@.len(),
                self@.subrange(0, i as int) =~= moves@.subrange(0, i as int),
            decreases k - i,
        {
            if i >= self.moves.len() || !self.moves[i].same_as(&moves.moves[i]) {
                assert(!is_prefix_of(moves@, self@)) by {
                    if is_prefix_of(moves@, self@) {
                        assert(self@.subrange(0, k as int)[i as int] == moves@[i as int]);
                    }
                }
                return false;
            }
            i = i + 1;
        }
        assert(moves@ =~= moves@.subrange(0, k as int));
        let mut rest: Vec<Move> = Vec::new();
        assert(move_views(rest@) =~= self@.subrange(k as int, k as int));
        let mut j: usize = k;
        while j < self.moves.len()
            invariant
                k <= j <= self.moves.len(),
                move_views(rest@) =~= self@.subrange(k as int, j as int),
            decreases self.moves.len() - j,
        {
            assert(self@[j as int] == self.moves@[j as int]@);
            let ghost prev = rest@;
            assert(move_views(prev).len() == prev.len());
            assert(prev.len() == j - k);
            let d = self.moves[j].duplicate();
            rest.push(d);
            assert forall|t: int| 0 <= t < j + 1 - k implies move_views(rest@)[t] == self@[t + k] by {
                if t < j - k {
                    assert(rest@[t] == prev[t]);
                    assert(move_views(prev)[t] == self@.subrange(k as int, j as int)[t]);
                }
            }
            assert(move_views(rest@) =~= self@.subrange(k as int, j + 1));
            j = j + 1;
        }
        let ghost before = self@;
        self.moves = rest;
        assert(self@ =~= before.skip(k as int));
        assert forall|t: int| 0 <= t < self@.len() - 1 && well_formed(before) implies
            #[trigger] self@[t].family != self@[t + 1].family by {
            assert(before[t + k].family != before[t + k + 1].family);
        }
        true
    }

    pub fn first(&self) -> (r: Option<&Move>)
        ensures
            r is None <==> self@.len() == 0,
            r matches Some(m) ==> m@ == self@[0],
    {
        if self.moves.len() > 0 {
            Some(&self.moves[0])
        } else {
            None
        }
    }

    /// The move at position `i`.
    pub fn get(&self, i: usize) -> (r: &Move)
        requires
            i < self@.len(),
        ensures
            r@ == self@[i as int],
    {
        &self.moves[i]
    }

    pub fn len(&self) -> (r: usize)
        ensures
            r == self@.len(),
    {
        self.moves.len()
    }

    pub fn is_empty(&self) -> (r: bool)
        ensures
            r == (self@.len() == 0),
    {
        self.moves.len() == 0
    }

    pub fn same_as(&self, other: &MoveSeq) -> (r: bool)
        ensures
            r == (self@ == other@),
    {
        if self.moves.len() != other.moves.len() {
            return false;
        }
        let mut i: usize = 0;
        while i < self.moves.len()
            invariant
                0 <= i <= self.moves.len(),
                self@.len() == other@.len(),
                self@.subrange(0, i as int) =~= other@.subrange(0, i as int),
            decreases self.moves.len() - i,
        {
            assert(self@[i as int] == self.moves@[i as int]@);
            assert(other@[i as int] == other.moves@[i as int]@);
            if !self.moves[i].same_as(&other.moves[i]) {
                return false;
            }
            i = i + 1;
        }
        assert(self@ =~= self@.subrange(0, i as int));
        assert(other@ =~= other@.subrange(0, i as int));
        true
    }

    /// Three-way comparison in the order of `seq_cmp`.
    pub fn compare(&self, other: &MoveSeq) -> (r: std::cmp::Ordering)
        ensures
            r == sign_of(seq_cmp(self@, other@)),
    {
        let ghost c = move_order();
        let ghost sa = self@;
        let ghost sb = other@;
        let mut i: usize = 0;
        assert(sa.skip(0) =~= sa);
        assert(sb.skip(0) =~= sb);
        while i < self.moves.len() && i < other.moves.len()
            invariant
                c == move_order(),
                sa == self@,
                sb == other@,
                0 <= i <= self.moves.len(),
                i <= other.moves.len(),
                lex_cmp(sa, sb, c) == lex_cmp(sa.skip(i as int), sb.skip(i as int), c),
            decreases self.moves.len() - i,
        {
            assert(sa.skip(i as int)[0] == sa[i as int]);
            assert(sb.skip(i as int)[0] == sb[i as int]);
            assert(c(sa[i as int], sb[i as int]) == move_cmp(sa[i as int], sb[i as int]));
            assert(sa.skip(i as int).len() > 0 && sb.skip(i as int).len() > 0);
            let o = self.moves[i].compare(&other.moves[i]);
            match o {
                std::cmp::Ordering::Equal => {},
                _ => return o,
            }
            proof {
                lemma_lex_skip(sa, sb, c, i as int);
            }
            i = i + 1;
        }
        assert(sa.skip(i as int).len() == sa.len() - i);
        if i < self.moves.len() {
            std::cmp::Ordering::Greater
        } else if i < other.moves.len() {
            std::cmp::Ordering::Less
        } else {
            std::cmp::Ordering::Equal
        }
    }
}

} // verus!
