//! Move notation: single face turns and sequences of them.
//!
//! A token is a face letter (`L R U D F B`) with an optional suffix:
//! none for a quarter turn, `2` for a half turn, `'` for a
//! three-quarter turn; all turns are read clockwise looking at the
//! turned face.  An algorithm is a sequence of such moves.

use vstd::prelude::*;
use vstd::slice::slice_subrange;
use crate::face::Face;
use crate::position::Pos;
use crate::position::Projection;
use crate::position::projection;
use crate::position::spec_projection;
use crate::position::spec_remap;

verus! {

/// The six face letters of the notation.
#[derive(Copy, Clone, PartialEq, Eq, Structural, Hash, Debug)]
pub enum MoveType {
    L,
    R,
    U,
    D,
    F,
    B,
}

impl MoveType {
    /// The canonical representative of this letter's axis pair:
    /// `L` for `L/R`, `D` for `U/D`, `B` for `F/B`.
    pub open spec fn spec_base(self) -> MoveType {
        match self {
            MoveType::L | MoveType::R => MoveType::L,
            MoveType::U | MoveType::D => MoveType::D,
            MoveType::F | MoveType::B => MoveType::B,
        }
    }

    /// The letter of the opposite face on the same axis.
    pub open spec fn spec_opposite(self) -> MoveType {
        match self {
            MoveType::L => MoveType::R,
            MoveType::R => MoveType::L,
            MoveType::U => MoveType::D,
            MoveType::D => MoveType::U,
            MoveType::F => MoveType::B,
            MoveType::B => MoveType::F,
        }
    }

    pub fn base_move(self) -> (r: MoveType)
        ensures
            r == self.spec_base(),
    {
        match self {
            MoveType::L | MoveType::R => MoveType::L,
            MoveType::U | MoveType::D => MoveType::D,
            MoveType::F | MoveType::B => MoveType::B,
        }
    }

    pub fn opposite(self) -> (r: MoveType)
        ensures
            r == self.spec_opposite(),
    {
        match self {
            MoveType::L => MoveType::R,
            MoveType::R => MoveType::L,
            MoveType::U => MoveType::D,
            MoveType::D => MoveType::U,
            MoveType::F => MoveType::B,
            MoveType::B => MoveType::F,
        }
    }
}

/// One face turn: a letter and a quantifier counting quarter turns.
#[derive(Copy, Clone, PartialEq, Eq, Structural, Hash, Debug)]
pub struct Move(pub MoveType, pub u8);

impl Move {
    /// A meaningful quantifier is 1, 2 or 3 quarter turns.
    pub open spec fn wf(self) -> bool {
        1 <= self.1 <= 3
    }

    /// The fixed face that each letter turns.
    pub open spec fn spec_face(self) -> Face {
        match self.0 {
            MoveType::U => Face(0),
            MoveType::F => Face(1),
            MoveType::R => Face(2),
            MoveType::D => Face(3),
            MoveType::B => Face(4),
            MoveType::L => Face(5),
        }
    }

    /// The turn that undoes this one: same letter, `4 - q` quarters.
    pub open spec fn spec_reversed(self) -> Move {
        Move(self.0, ((4 - self.1) % 4) as u8)
    }

    pub fn reversed(self) -> (r: Move)
        requires
            self.wf(),
        ensures
            r == self.spec_reversed(),
            r.wf(),
    {
        let q: u8 = if self.1 == 1 {
            3
        } else if self.1 == 2 {
            2
        } else {
            1
        };
        Move(self.0, q)
    }

    pub fn base_move(self) -> (r: MoveType)
        ensures
            r == self.0.spec_base(),
    {
        self.0.base_move()
    }

    pub fn face(self) -> (r: Face)
        ensures
            r == self.spec_face(),
            r.wf(),
    {
        match self.0 {
            MoveType::U => Face(0),
            MoveType::F => Face(1),
            MoveType::R => Face(2),
            MoveType::D => Face(3),
            MoveType::B => Face(4),
            MoveType::L => Face(5),
        }
    }

    pub fn times(self) -> (r: u8)
        ensures
            r == self.1,
    {
        self.1
    }
}

/// Every move of the sequence has a meaningful quantifier.
pub open spec fn moves_wf(s: Seq<Move>) -> bool {
    forall|i: int| 0 <= i < s.len() ==> (#[trigger] s[i]).wf()
}

/// Each notation move in reverse order, each turn undone.
pub open spec fn spec_reversed_seq(s: Seq<Move>) -> Seq<Move> {
    Seq::new(s.len(), |i: int| s[s.len() - 1 - i].spec_reversed())
}

/// The letter for a byte of notation, if it is one.
pub open spec fn spec_letter(b: u8) -> Option<MoveType> {
    if b == 76 {  // 'L'
        Some(MoveType::L)
    } else if b == 82 {  // 'R'
        Some(MoveType::R)
    } else if b == 85 {  // 'U'
        Some(MoveType::U)
    } else if b == 68 {  // 'D'
        Some(MoveType::D)
    } else if b == 70 {  // 'F'
        Some(MoveType::F)
    } else if b == 66 {  // 'B'
        Some(MoveType::B)
    } else {
        None
    }
}

/// What a single token of notation denotes: a letter alone is one
/// quarter turn, `2` doubles it, `'` makes it three; anything else is
/// not a move.
pub open spec fn spec_parse_move(token: Seq<u8>) -> Option<Move> {
    if token.len() == 1 {
        match spec_letter(token[0]) {
            Some(t) => Some(Move(t, 1)),
            None => None,
        }
    } else if token.len() == 2 {
        match spec_letter(token[0]) {
            Some(t) => if token[1] == 50 {  // '2'
                Some(Move(t, 2))
            } else if token[1] == 39 {  // '\''
                Some(Move(t, 3))
            } else {
                None
            },
            None => None,
        }
    } else {
        None
    }
}

/// Index of the first space at or after position `i`, or the end.
pub open spec fn spec_token_end(s: Seq<u8>, i: int) -> int
    decreases s.len() - i,
{
    if i < 0 || i >= s.len() {
        s.len() as int
    } else if s[i] == 32 {
        i
    } else {
        spec_token_end(s, i + 1)
    }
}

/// The moves denoted by the space-separated tokens of `s` from
/// position `i` on, or nothing if some token is not a move.
pub open spec fn spec_parse_moves(s: Seq<u8>, i: int) -> Option<Seq<Move>>
    decreases s.len() - i,
    via spec_parse_moves_decreases
{
    if i < 0 || i >= s.len() {
        Some(Seq::empty())
    } else if s[i] == 32 {
        spec_parse_moves(s, i + 1)
    } else {
        let j = spec_token_end(s, i);
        match spec_parse_move(s.subrange(i, j)) {
            None => None,
            Some(m) => match spec_parse_moves(s, j) {
                None => None,
                Some(rest) => Some(seq![m] + rest),
            },
        }
    }
}

#[via_fn]
proof fn spec_parse_moves_decreases(s: Seq<u8>, i: int) {
    if 0 <= i && i < s.len() && s[i] != 32 {
        lemma_token_end_bounds(s, i);
    }
}

proof fn lemma_token_end_bounds(s: Seq<u8>, i: int)
    requires
        0 <= i <= s.len(),
    ensures
        i <= spec_token_end(s, i) <= s.len(),
        i < s.len() && s[i] != 32 ==> i < spec_token_end(s, i),
    decreases s.len() - i,
{
    if i < s.len() && s[i] != 32 {
        lemma_token_end_bounds(s, i + 1);
    }
}

/// Reads one token as a move.
pub fn parse_move(token: &[u8]) -> (r: Option<Move>)
    ensures
        r == spec_parse_move(token@),
        r is Some ==> r->0.wf(),
{
    if token.len() == 1 || token.len() == 2 {
        let t: MoveType = match token[0] {
            76 => MoveType::L,
            82 => MoveType::R,
            85 => MoveType::U,
            68 => MoveType::D,
            70 => MoveType::F,
            66 => MoveType::B,
            _ => {
                return None;
            },
        };
        if token.len() == 1 {
            Some(Move(t, 1))
        } else if token[1] == 50 {
            Some(Move(t, 2))
        } else if token[1] == 39 {
            Some(Move(t, 3))
        } else {
            None
        }
    } else {
        None
    }
}

/// An ordered sequence of moves.
#[derive(Clone, Debug)]
pub struct Alg(pub Vec<Move>);

impl View for Alg {
    type V = Seq<Move>;

    open spec fn view(&self) -> Seq<Move> {
        self.0@
    }
}

impl PartialEq for Alg {
    fn eq(&self, other: &Self) -> (r: bool) {
        let mut i: usize = 0;
        if self.0.len() != other.0.len() {
            return false;
        }
        while i < self.0.len()
            invariant
                0 <= i <= self@.len(),
                self@.len() == other@.len(),
                forall|j: int| 0 <= j < i ==> self@[j] == other@[j],
            decreases self@.len() - i,
        {
            if self.0[i] != other.0[i] {
                return false;
            }
            i += 1;
        }
        proof {
            assert(self.0@ =~= other.0@);
        }
        true
    }
}

impl Eq for Alg {}

impl vstd::std_specs::cmp::PartialEqSpecImpl for Alg {
    open spec fn obeys_eq_spec() -> bool {
        true
    }

    open spec fn eq_spec(&self, other: &Self) -> bool {
        self@ == other@
    }
}

impl Alg {
    /// Every move of the algorithm has a meaningful quantifier.
    pub open spec fn wf(self) -> bool {
        moves_wf(self@)
    }

    /// The empty algorithm.
    pub fn new() -> (r: Self)
        ensures
            r@ =~= Seq::<Move>::empty(),
    {
        Alg(Vec::new())
    }

    pub fn len(&self) -> (r: usize)
        ensures
            r == self@.len(),
    {
        self.0.len()
    }

    /// An identical copy.
    pub fn duplicate(&self) -> (r: Self)
        ensures
            r@ == self@,
    {
        let mut v: Vec<Move> = Vec::new();
        let mut i: usize = 0;
        while i < self.0.len()
            invariant
                0 <= i <= self@.len(),
                v@ =~= self@.subrange(0, i as int),
            decreases self@.len() - i,
        {
            v.push(self.0[i]);
            i += 1;
        }
        proof {
            assert(v@ =~= self@);
        }
        Alg(v)
    }

    /// Appends the moves of `alg` after this algorithm's own.
    pub fn push(&mut self, alg: Self)
        ensures
            final(self)@ == old(self)@ + alg@,
    {
        let mut alg = alg;
        self.0.append(&mut alg.0);
    }

    /// The algorithm that undoes this one: moves in reverse order,
    /// each turn undone.
    pub fn reversed(&self) -> (r: Self)
        requires
            self.wf(),
        ensures
            r@ == spec_reversed_seq(self@),
            r.wf(),
    {
        let mut v: Vec<Move> = Vec::new();
        let n = self.0.len();
        let mut i: usize = 0;
        while i < n
            invariant
                0 <= i <= n,
                n == self@.len(),
                moves_wf(self@),
                v@.len() == i,
                forall|j: int| 0 <= j < i ==> v@[j] == self@[n - 1 - j].spec_reversed(),
            decreases n - i,
        {
            let m = self.0[n - 1 - i];
            v.push(m.reversed());
            i += 1;
        }
        proof {
            assert(v@ =~= spec_reversed_seq(self@));
        }
        Alg(v)
    }

    /// Reads a whole algorithm from space-separated notation bytes.
    pub fn parse(bytes: &[u8]) -> (r: Option<Alg>)
        ensures
            match r {
                Some(alg) => Some(alg@) == spec_parse_moves(bytes@, 0) && alg.wf(),
                None => spec_parse_moves(bytes@, 0) is None,
            },
    {
        let ghost s = bytes@;
        let n = bytes.len();
        let mut v: Vec<Move> = Vec::new();
        let mut i: usize = 0;
        while i < n
            invariant
                0 <= i <= n,
                n == s.len(),
                s == bytes@,
                moves_wf(v@),
                spec_parse_moves(s, 0) == match spec_parse_moves(s, i as int) {
                    None => None::<Seq<Move>>,
                    Some(rest) => Some(v@ + rest),
                },
            decreases n - i,
        {
            if bytes[i] == 32 {
                proof {
                    assert(spec_parse_moves(s, i as int) == spec_parse_moves(s, i + 1));
                }
                i += 1;
            } else {
                let mut j = i;
                while j < n && bytes[j] != 32
                    invariant
                        i <= j <= n,
                        n == s.len(),
                        s == bytes@,
                        spec_token_end(s, i as int) == spec_token_end(s, j as int),
                    decreases n - j,
                {
                    proof {
                        assert(spec_token_end(s, j as int) == spec_token_end(s, j + 1));
                    }
                    j += 1;
                }
                proof {
                    assert(spec_token_end(s, j as int) == j);
                }
                let token = slice_subrange(bytes, i, j);
                match parse_move(token) {
                    None => {
                        return None;
                    },
                    Some(m) => {
                        v.push(m);
                        proof {
                            assert(v@ =~= v@.subrange(0, v@.len() - 1) + seq![m]);
                        }
                        i = j;
                    },
                }
            }
        }
        proof {
            assert(spec_parse_moves(s, i as int) == Some(Seq::<Move>::empty()));
            assert(v@ + Seq::<Move>::empty() =~= v@);
        }
        Some(Alg(v))
    }
}


/// End of the maximal run of moves sharing the axis pair `b`,
/// scanning from position `i`.
pub open spec fn run_end(s: Seq<Move>, b: MoveType, i: int) -> int
    decreases s.len() - i,
{
    if i < 0 || i >= s.len() {
        s.len() as int
    } else if s[i].0.spec_base() != b {
        i
    } else {
        run_end(s, b, i + 1)
    }
}

pub proof fn lemma_run_end_bounds(s: Seq<Move>, b: MoveType, i: int)
    requires
        0 <= i <= s.len(),
    ensures
        i <= run_end(s, b, i) <= s.len(),
        i < s.len() && s[i].0.spec_base() == b ==> i < run_end(s, b, i),
    decreases s.len() - i,
{
    if i < s.len() && s[i].0.spec_base() == b {
        lemma_run_end_bounds(s, b, i + 1);
    }
}

/// Every move of a run shares its axis pair, and the run is maximal.
pub proof fn lemma_run_end_members(s: Seq<Move>, b: MoveType, i: int)
    requires
        0 <= i <= s.len(),
    ensures
        forall|k: int| i <= k < run_end(s, b, i) ==> (#[trigger] s[k]).0.spec_base() == b,
        run_end(s, b, i) < s.len() ==> s[run_end(s, b, i)].0.spec_base() != b,
    decreases s.len() - i,
{
    if i < s.len() && s[i].0.spec_base() == b {
        lemma_run_end_members(s, b, i + 1);
    }
}

/// A run is determined by its contents: if everything in `[i, j)`
/// shares the axis pair and position `j` does not, the run ends at `j`.
pub proof fn lemma_run_end_determined(s: Seq<Move>, b: MoveType, i: int, j: int)
    requires
        0 <= i <= j <= s.len(),
        forall|k: int| i <= k < j ==> (#[trigger] s[k]).0.spec_base() == b,
        j < s.len() ==> s[j].0.spec_base() != b,
    ensures
        run_end(s, b, i) == j,
    decreases j - i,
{
    if i < j {
        lemma_run_end_determined(s, b, i + 1, j);
    }
}

/// Sum of the quantifiers of the moves with exactly the letter `ty`.
pub open spec fn axis_sum(g: Seq<Move>, ty: MoveType) -> int
    decreases g.len(),
{
    if g.len() == 0 {
        0
    } else {
        (if g[0].0 == ty {
            g[0].1 as int
        } else {
            0
        }) + axis_sum(g.skip(1), ty)
    }
}

pub proof fn lemma_axis_sum_push(g: Seq<Move>, ty: MoveType, m: Move)
    ensures
        axis_sum(g.push(m), ty) == axis_sum(g, ty) + if m.0 == ty {
            m.1 as int
        } else {
            0
        },
    decreases g.len(),
{
    if g.len() == 0 {
        assert(g.push(m)[0] == m);
        assert(g.push(m).skip(1) =~= Seq::<Move>::empty());
        assert(axis_sum(g.push(m).skip(1), ty) == 0);
    } else {
        assert(g.push(m)[0] == g[0]);
        assert(g.push(m).skip(1) =~= g.skip(1).push(m));
        lemma_axis_sum_push(g.skip(1), ty, m);
        assert(axis_sum(g.push(m).skip(1), ty) == axis_sum(g.skip(1).push(m), ty));
    }
}

/// `axis_sum` evaluated on one- and two-move sequences.
proof fn lemma_axis_sum_singleton(m: Move, ty: MoveType)
    ensures
        axis_sum(seq![m], ty) == if m.0 == ty {
            m.1 as int
        } else {
            0
        },
{
    assert(seq![m].skip(1) =~= Seq::<Move>::empty());
    assert(axis_sum(seq![m].skip(1), ty) == 0);
}

proof fn lemma_axis_sum_pair(m1: Move, m2: Move, ty: MoveType)
    ensures
        axis_sum(seq![m1, m2], ty) == (if m1.0 == ty {
            m1.1 as int
        } else {
            0
        }) + (if m2.0 == ty {
            m2.1 as int
        } else {
            0
        }),
{
    assert(seq![m1, m2].skip(1) =~= seq![m2]);
    lemma_axis_sum_singleton(m2, ty);
    assert(axis_sum(seq![m1, m2].skip(1), ty) == axis_sum(seq![m2], ty));
}

pub proof fn lemma_axis_sum_nonneg(g: Seq<Move>, ty: MoveType)
    ensures
        axis_sum(g, ty) >= 0,
    decreases g.len(),
{
    if g.len() > 0 {
        lemma_axis_sum_nonneg(g.skip(1), ty);
    }
}

/// What one run collapses to: the two letters of the axis pair, each
/// with its quantifier sum mod 4, dropped when that sum is zero.
pub open spec fn reduce_group(g: Seq<Move>, b: MoveType) -> Seq<Move> {
    let bs = axis_sum(g, b) % 4;
    let os = axis_sum(g, b.spec_opposite()) % 4;
    (if bs != 0 {
        seq![Move(b, bs as u8)]
    } else {
        Seq::<Move>::empty()
    }) + (if os != 0 {
        seq![Move(b.spec_opposite(), os as u8)]
    } else {
        Seq::<Move>::empty()
    })
}

/// One simplification pass from position `i` on: collapse each run in
/// turn; the flag records whether some run vanished entirely, which can
/// put two runs of one axis pair side by side and so calls for another
/// pass.
pub open spec fn spec_pass_from(s: Seq<Move>, i: int) -> (Seq<Move>, bool)
    decreases s.len() - i,
    via spec_pass_from_decreases
{
    if i < 0 || i >= s.len() {
        (Seq::<Move>::empty(), false)
    } else {
        let b = s[i].0.spec_base();
        let j = run_end(s, b, i);
        let red = reduce_group(s.subrange(i, j), b);
        let rest = spec_pass_from(s, j);
        (red + rest.0, red.len() == 0 || rest.1)
    }
}

#[via_fn]
proof fn spec_pass_from_decreases(s: Seq<Move>, i: int) {
    if 0 <= i && i < s.len() {
        lemma_run_end_bounds(s, s[i].0.spec_base(), i);
    }
}

/// A reduced run is never longer than the run it came from, and an
/// empty reduction means the run vanished.
proof fn lemma_reduce_len(g: Seq<Move>, b: MoveType)
    requires
        g.len() >= 1,
    ensures
        reduce_group(g, b).len() <= g.len(),
{
    lemma_axis_sum_nonneg(g, b);
    lemma_axis_sum_nonneg(g, b.spec_opposite());
    assert(reduce_group(g, b).len() <= 2);
    if g.len() == 1 {
        assert(g =~= seq![g[0]]);
        lemma_axis_sum_singleton(g[0], b);
        lemma_axis_sum_singleton(g[0], b.spec_opposite());
        assert(b != b.spec_opposite());
    }
}

/// A pass never lengthens the sequence, and a pass that raises the
/// flag strictly shortens it.
pub proof fn lemma_pass_len(s: Seq<Move>, i: int)
    requires
        0 <= i <= s.len(),
    ensures
        spec_pass_from(s, i).0.len() <= s.len() - i,
        spec_pass_from(s, i).1 ==> spec_pass_from(s, i).0.len() < s.len() - i,
    decreases s.len() - i,
{
    if i < s.len() {
        let b = s[i].0.spec_base();
        let j = run_end(s, b, i);
        lemma_run_end_bounds(s, b, i);
        lemma_reduce_len(s.subrange(i, j), b);
        lemma_pass_len(s, j);
    }
}

/// The run-by-run simplification, repeated until no run vanishes.
pub open spec fn spec_simplified(s: Seq<Move>) -> Seq<Move>
    decreases s.len(),
    via spec_simplified_decreases
{
    let (r, again) = spec_pass_from(s, 0);
    if again {
        spec_simplified(r)
    } else {
        r
    }
}

#[via_fn]
proof fn spec_simplified_decreases(s: Seq<Move>) {
    lemma_pass_len(s, 0);
}

/// Runs are position-independent: scanning a concatenation past the
/// first part scans the second part.
proof fn lemma_run_end_shift(x: Seq<Move>, y: Seq<Move>, b: MoveType, k: int)
    requires
        0 <= k <= y.len(),
    ensures
        run_end(x + y, b, x.len() + k) == x.len() + run_end(y, b, k),
    decreases y.len() - k,
{
    assert((x + y).len() == x.len() + y.len());
    if k < y.len() {
        assert((x + y)[x.len() + k] == y[k]);
        if y[k].0.spec_base() == b {
            lemma_run_end_shift(x, y, b, k + 1);
        }
    }
}

/// A pass, too, is position-independent.
proof fn lemma_pass_shift(x: Seq<Move>, y: Seq<Move>, k: int)
    requires
        0 <= k <= y.len(),
    ensures
        spec_pass_from(x + y, x.len() + k) == spec_pass_from(y, k),
    decreases y.len() - k,
{
    if k < y.len() {
        assert((x + y)[x.len() + k] == y[k]);
        let b = y[k].0.spec_base();
        let j = run_end(y, b, k);
        lemma_run_end_bounds(y, b, k);
        lemma_run_end_shift(x, y, b, k);
        assert((x + y).subrange(x.len() + k, x.len() + j) =~= y.subrange(k, j));
        lemma_pass_shift(x, y, j);
    }
}

/// A run that its own reduction reproduces letter for letter.
pub open spec fn is_canonical_group(g: Seq<Move>, b: MoveType) -> bool {
    g == reduce_group(g, b)
}

/// From position `i` on, every run reproduces itself under reduction.
pub open spec fn canonical_from(s: Seq<Move>, i: int) -> bool
    decreases s.len() - i,
    via canonical_from_decreases
{
    if i < 0 || i >= s.len() {
        true
    } else {
        let b = s[i].0.spec_base();
        let j = run_end(s, b, i);
        is_canonical_group(s.subrange(i, j), b) && canonical_from(s, j)
    }
}

#[via_fn]
proof fn canonical_from_decreases(s: Seq<Move>, i: int) {
    if 0 <= i && i < s.len() {
        lemma_run_end_bounds(s, s[i].0.spec_base(), i);
    }
}

/// A pass leaves a sequence of self-reproducing runs untouched.
proof fn lemma_pass_of_canonical(s: Seq<Move>, i: int)
    requires
        0 <= i <= s.len(),
        canonical_from(s, i),
    ensures
        spec_pass_from(s, i) == (s.skip(i), false),
    decreases s.len() - i,
{
    if i >= s.len() {
        assert(s.skip(i) =~= Seq::<Move>::empty());
    } else {
        let b = s[i].0.spec_base();
        let j = run_end(s, b, i);
        lemma_run_end_bounds(s, b, i);
        lemma_pass_of_canonical(s, j);
        assert(s.subrange(i, j) + s.skip(j) =~= s.skip(i));
    }
}

/// The letters a reduction emits all belong to its axis pair.
pub proof fn lemma_reduce_members(g: Seq<Move>, b: MoveType)
    requires
        b.spec_base() == b,
    ensures
        forall|k: int|
            0 <= k < reduce_group(g, b).len() ==> (#[trigger] reduce_group(g, b)[k]).0.spec_base()
                == b && reduce_group(g, b)[k].wf(),
{
    lemma_axis_sum_nonneg(g, b);
    lemma_axis_sum_nonneg(g, b.spec_opposite());
}

/// A reduction reproduces itself under a second reduction.
proof fn lemma_reduce_idempotent(g: Seq<Move>, b: MoveType)
    requires
        b.spec_base() == b,
    ensures
        is_canonical_group(reduce_group(g, b), b),
{
    lemma_axis_sum_nonneg(g, b);
    lemma_axis_sum_nonneg(g, b.spec_opposite());
    let bs = axis_sum(g, b) % 4;
    let os = axis_sum(g, b.spec_opposite()) % 4;
    let red = reduce_group(g, b);
    let opp = b.spec_opposite();
    assert(opp != b);
    if bs != 0 && os != 0 {
        assert(red =~= seq![Move(b, bs as u8), Move(opp, os as u8)]);
        lemma_axis_sum_pair(Move(b, bs as u8), Move(opp, os as u8), b);
        lemma_axis_sum_pair(Move(b, bs as u8), Move(opp, os as u8), opp);
        assert(axis_sum(red, b) == bs);
        assert(axis_sum(red, opp) == os);
        assert(reduce_group(red, b) =~= red);
    } else if bs != 0 {
        assert(red =~= seq![Move(b, bs as u8)]);
        lemma_axis_sum_singleton(Move(b, bs as u8), b);
        lemma_axis_sum_singleton(Move(b, bs as u8), opp);
        assert(axis_sum(red, b) == bs);
        assert(axis_sum(red, opp) == 0);
        assert(reduce_group(red, b) =~= red);
    } else if os != 0 {
        assert(red =~= seq![Move(opp, os as u8)]);
        lemma_axis_sum_singleton(Move(opp, os as u8), b);
        lemma_axis_sum_singleton(Move(opp, os as u8), opp);
        assert(axis_sum(red, b) == 0);
        assert(axis_sum(red, opp) == os);
        assert(reduce_group(red, b) =~= red);
    } else {
        assert(red =~= Seq::<Move>::empty());
        assert(reduce_group(red, b) =~= red);
    }
}

/// When no run vanishes, the output of a pass is a sequence of
/// self-reproducing runs, and it opens with the same axis pair as the
/// input did.
proof fn lemma_pass_canonical(s: Seq<Move>, i: int)
    requires
        0 <= i <= s.len(),
        !spec_pass_from(s, i).1,
    ensures
        canonical_from(spec_pass_from(s, i).0, 0),
        i < s.len() ==> spec_pass_from(s, i).0.len() > 0 && spec_pass_from(s, i).0[0].0.spec_base()
            == s[i].0.spec_base(),
    decreases s.len() - i,
{
    if i < s.len() {
        let b = s[i].0.spec_base();
        let j = run_end(s, b, i);
        lemma_run_end_bounds(s, b, i);
        lemma_run_end_members(s, b, i);
        let red = reduce_group(s.subrange(i, j), b);
        let rest = spec_pass_from(s, j).0;
        lemma_pass_canonical(s, j);
        assert(b.spec_base() == b);
        lemma_reduce_members(s.subrange(i, j), b);
        lemma_reduce_idempotent(s.subrange(i, j), b);
        let out = red + rest;
        assert(out[0].0.spec_base() == b);
        // the first run of the output is exactly `red`
        assert forall|k: int| 0 <= k < red.len() implies (#[trigger] out[k]).0.spec_base()
            == b by {
            assert(out[k] == red[k]);
        }
        if rest.len() > 0 {
            assert(out[red.len() as int] == rest[0]);
            assert(j < s.len());
            assert(s[j].0.spec_base() != b);
            assert(rest[0].0.spec_base() == s[j].0.spec_base());
        }
        lemma_run_end_determined(out, b, 0, red.len() as int);
        assert(out.subrange(0, red.len() as int) =~= red);
        // and what follows it is exactly the output of the rest
        lemma_pass_shift(red, rest, 0);
        assert(red + rest.skip(0) =~= out);
        lemma_pass_of_canonical_helper(red, rest);
    }
}

/// Splicing a canonical run in front of a canonical tail keeps the
/// whole canonical, provided the run boundary is respected; the
/// boundary facts are re-derived where this is used.
proof fn lemma_pass_of_canonical_helper(red: Seq<Move>, rest: Seq<Move>)
    requires
        canonical_from(rest, 0),
    ensures
        canonical_from(red + rest, red.len() as int),
{
    lemma_canonical_shift(red, rest, 0);
}

/// Canonicality is position-independent.
proof fn lemma_canonical_shift(x: Seq<Move>, y: Seq<Move>, k: int)
    requires
        0 <= k <= y.len(),
    ensures
        canonical_from(x + y, x.len() + k) == canonical_from(y, k),
    decreases y.len() - k,
{
    if k < y.len() {
        assert((x + y)[x.len() + k] == y[k]);
        let b = y[k].0.spec_base();
        let j = run_end(y, b, k);
        lemma_run_end_bounds(y, b, k);
        lemma_run_end_shift(x, y, b, k);
        assert((x + y).subrange(x.len() + k, x.len() + j) =~= y.subrange(k, j));
        lemma_canonical_shift(x, y, j);
    }
}

/// The simplified form of any sequence is a fixed point of the pass.
proof fn lemma_simplified_fixpoint(s: Seq<Move>)
    ensures
        spec_pass_from(spec_simplified(s), 0) == (spec_simplified(s), false),
    decreases s.len(),
{
    let (r, again) = spec_pass_from(s, 0);
    if again {
        lemma_pass_len(s, 0);
        lemma_simplified_fixpoint(r);
    } else {
        lemma_pass_canonical(s, 0);
        lemma_pass_of_canonical(r, 0);
        assert(r.skip(0) =~= r);
    }
}

/// Simplifying is idempotent: a second simplification pass over an
/// already simplified algorithm changes nothing.
pub proof fn lemma_simplified_idempotent(s: Seq<Move>)
    ensures
        spec_simplified(spec_simplified(s)) == spec_simplified(s),
{
    lemma_simplified_fixpoint(s);
}

impl Alg {
    /// One pass: collapse each maximal axis-pair run; the flag reports
    /// whether some run vanished entirely.
    fn simplify_pass(&self) -> (r: (Alg, bool))
        requires
            self.wf(),
        ensures
            (r.0@, r.1) == spec_pass_from(self@, 0),
            r.0.wf(),
    {
        let ghost s = self@;
        let n = self.0.len();
        let mut out: Vec<Move> = Vec::new();
        let mut vanished = false;
        let mut i: usize = 0;
        while i < n
            invariant
                0 <= i <= n,
                n == s.len(),
                s == self@,
                moves_wf(s),
                moves_wf(out@),
                spec_pass_from(s, 0).0 == out@ + spec_pass_from(s, i as int).0,
                spec_pass_from(s, 0).1 == (vanished || spec_pass_from(s, i as int).1),
            decreases n - i,
        {
            let b = self.0[i].base_move();
            let opp = b.opposite();
            let ghost gi = i as int;
            let ghost j_end = run_end(s, b, gi);
            proof {
                lemma_run_end_bounds(s, b, gi);
                lemma_run_end_members(s, b, gi);
            }
            let mut bs: u8 = 0;
            let mut os: u8 = 0;
            let mut j = i;
            while j < n && self.0[j].base_move() == b
                invariant
                    0 <= i <= j <= n,
                    n == s.len(),
                    s == self@,
                    moves_wf(s),
                    b == s[i as int].0.spec_base(),
                    opp == b.spec_opposite(),
                    j_end == run_end(s, b, i as int),
                    run_end(s, b, j as int) == j_end,
                    forall|k: int| i <= k < j ==> (#[trigger] s[k]).0.spec_base() == b,
                    bs < 4,
                    os < 4,
                    bs == axis_sum(s.subrange(i as int, j as int), b) % 4,
                    os == axis_sum(s.subrange(i as int, j as int), opp) % 4,
                decreases n - j,
            {
                let m = self.0[j];
                proof {
                    assert(s[j as int].wf());
                    assert(run_end(s, b, j as int) == run_end(s, b, j + 1));
                    assert(s.subrange(i as int, j + 1) =~= s.subrange(i as int, j as int).push(m));
                    lemma_axis_sum_push(s.subrange(i as int, j as int), b, m);
                    lemma_axis_sum_push(s.subrange(i as int, j as int), opp, m);
                    lemma_axis_sum_nonneg(s.subrange(i as int, j as int), b);
                    lemma_axis_sum_nonneg(s.subrange(i as int, j as int), opp);
                }
                if m.0 == b {
                    bs = (bs + m.1) % 4;
                } else {
                    proof {
                        assert(m.0.spec_base() == b && m.0 != b);
                        assert(m.0 == opp);
                    }
                    os = (os + m.1) % 4;
                }
                j += 1;
            }
            proof {
                assert(run_end(s, b, j as int) == j);
                assert(j == j_end);
            }
            let ghost g = s.subrange(gi, j as int);
            let ghost red = reduce_group(g, b);
            let ghost out0 = out@;
            if bs != 0 {
                out.push(Move(b, bs));
            }
            if os != 0 {
                out.push(Move(opp, os));
            }
            if bs == 0 && os == 0 {
                vanished = true;
            }
            proof {
                lemma_axis_sum_nonneg(g, b);
                lemma_axis_sum_nonneg(g, opp);
                assert(out@ =~= out0 + red);
                assert(spec_pass_from(s, gi).0 == red + spec_pass_from(s, j as int).0);
                assert(out0 + (red + spec_pass_from(s, j as int).0) =~= (out0 + red)
                    + spec_pass_from(s, j as int).0);
            }
            i = j;
        }
        proof {
            assert(out@ + spec_pass_from(s, i as int).0 =~= out@);
        }
        (Alg(out), vanished)
    }

    /// The canonical shortened form: passes repeat until none of the
    /// axis-pair runs cancels away completely.
    pub fn simplified(&self) -> (r: Alg)
        requires
            self.wf(),
        ensures
            r@ == spec_simplified(self@),
            r.wf(),
        decreases self@.len(),
    {
        let (out, vanished) = self.simplify_pass();
        if vanished {
            proof {
                lemma_pass_len(self@, 0);
            }
            out.simplified()
        } else {
            out
        }
    }
}


/// The letter whose fixed face is `f`.
pub open spec fn spec_type_of_face(f: Face) -> MoveType {
    if f.0 == 0 {
        MoveType::U
    } else if f.0 == 1 {
        MoveType::F
    } else if f.0 == 2 {
        MoveType::R
    } else if f.0 == 3 {
        MoveType::D
    } else if f.0 == 4 {
        MoveType::B
    } else {
        MoveType::L
    }
}

/// One move re-read in another orientation: the turned face is
/// remapped, the quarter count kept (all orientation changes are
/// rotations, so handedness is preserved).
pub open spec fn spec_move_remapped(m: Move, from: Seq<Face>, to: Seq<Face>) -> Move {
    Move(spec_type_of_face(spec_remap(m.spec_face(), from, to)), m.1)
}

/// A whole algorithm re-read in another orientation, move by move.
pub open spec fn spec_alg_transposed(s: Seq<Move>, from: Seq<Face>, to: Seq<Face>) -> Seq<Move> {
    s.map_values(|m: Move| spec_move_remapped(m, from, to))
}

impl Alg {
    /// Remaps every move's turned face from one orientation into
    /// another, keeping the quarter counts.
    pub fn transpose_with_projection(&mut self, from: Projection, to: Projection)
        ensures
            final(self)@ == spec_alg_transposed(old(self)@, from@, to@),
            old(self).wf() ==> final(self).wf(),
    {
        let ghost orig = self@;
        let n = self.0.len();
        let mut i: usize = 0;
        while i < n
            invariant
                0 <= i <= n,
                n == orig.len(),
                self@.len() == n,
                forall|j: int| i <= j < n ==> self@[j] == orig[j],
                forall|j: int| 0 <= j < i ==> self@[j] == spec_move_remapped(orig[j], from@, to@),
            decreases n - i,
        {
            let m = self.0[i];
            let mut f = m.face();
            f.transpose_with_projection(from, to);
            let t: MoveType = if f.0 == 0 {
                MoveType::U
            } else if f.0 == 1 {
                MoveType::F
            } else if f.0 == 2 {
                MoveType::R
            } else if f.0 == 3 {
                MoveType::D
            } else if f.0 == 4 {
                MoveType::B
            } else {
                MoveType::L
            };
            self.0[i] = Move(t, m.1);
            i += 1;
        }
        proof {
            assert(self@ =~= spec_alg_transposed(orig, from@, to@));
        }
    }

    /// The same remapping, with the orientations given as
    /// `(front, down)` pairs.
    pub fn transpose(&mut self, from: Pos<2>, to: Pos<2>)
        requires
            from.wf(),
            to.wf(),
        ensures
            final(self)@ == spec_alg_transposed(
                old(self)@,
                spec_projection(from@[0], from@[1]),
                spec_projection(to@[0], to@[1]),
            ),
            old(self).wf() ==> final(self).wf(),
    {
        proof {
            crate::face::lemma_adjacent_complete(from@[0], from@[1]);
            crate::face::lemma_adjacent_complete(to@[0], to@[1]);
        }
        let pf = projection(from);
        let pt = projection(to);
        self.transpose_with_projection(pf, pt);
    }
}


/// The characters of one move: its letter, then `2` for a half turn or
/// `'` for a three-quarter turn.
pub open spec fn spec_move_chars(m: Move) -> Seq<char> {
    let letter = match m.0 {
        MoveType::L => seq!['L'],
        MoveType::R => seq!['R'],
        MoveType::U => seq!['U'],
        MoveType::D => seq!['D'],
        MoveType::F => seq!['F'],
        MoveType::B => seq!['B'],
    };
    if m.1 == 2 {
        letter + seq!['2']
    } else if m.1 == 3 {
        letter + seq!['\'']
    } else {
        letter
    }
}

/// The notation of a whole algorithm: its moves' tokens separated by
/// single spaces.
pub open spec fn spec_notation(s: Seq<Move>) -> Seq<char>
    decreases s.len(),
{
    if s.len() == 0 {
        Seq::empty()
    } else if s.len() == 1 {
        spec_move_chars(s[0])
    } else {
        spec_move_chars(s[0]) + seq![' '] + spec_notation(s.skip(1))
    }
}

proof fn lemma_notation_push(s: Seq<Move>, m: Move)
    ensures
        spec_notation(s.push(m)) == if s.len() == 0 {
            spec_move_chars(m)
        } else {
            spec_notation(s) + seq![' '] + spec_move_chars(m)
        },
    decreases s.len(),
{
    if s.len() == 0 {
        assert(s.push(m) =~= seq![m]);
        assert(spec_notation(seq![m]) == spec_move_chars(m));
    } else {
        assert(s.push(m)[0] == s[0]);
        assert(s.push(m).skip(1) =~= s.skip(1).push(m));
        lemma_notation_push(s.skip(1), m);
        if s.len() == 1 {
            assert(s.skip(1) =~= Seq::<Move>::empty());
            assert(spec_notation(s.push(m)) == spec_move_chars(s[0]) + seq![' ']
                + spec_move_chars(m));
            assert(spec_notation(s) == spec_move_chars(s[0]));
        } else {
            assert((spec_move_chars(s[0]) + seq![' '] + spec_notation(s.skip(1))) + seq![' ']
                + spec_move_chars(m) =~= spec_move_chars(s[0]) + seq![' '] + (spec_notation(
                s.skip(1),
            ) + seq![' '] + spec_move_chars(m)));
        }
    }
}

impl Alg {
    /// The algorithm written in move notation, the sole textual surface
    /// for algorithms; `parse` reads it back.
    pub fn notation(&self) -> (r: String)
        ensures
            r@ == spec_notation(self@),
    {
        proof {
            reveal_strlit("L");
            reveal_strlit("R");
            reveal_strlit("U");
            reveal_strlit("D");
            reveal_strlit("F");
            reveal_strlit("B");
            reveal_strlit("2");
            reveal_strlit("'");
            reveal_strlit(" ");
        }
        let mut r = String::new();
        let n = self.0.len();
        let mut i: usize = 0;
        while i < n
            invariant
                0 <= i <= n,
                n == self@.len(),
                r@ == spec_notation(self@.take(i as int)),
            decreases n - i,
        {
            let m = self.0[i];
            proof {
                reveal_strlit("L");
                reveal_strlit("R");
                reveal_strlit("U");
                reveal_strlit("D");
                reveal_strlit("F");
                reveal_strlit("B");
                reveal_strlit("2");
                reveal_strlit("'");
                reveal_strlit(" ");
                assert(self@.take(i + 1) =~= self@.take(i as int).push(m));
                lemma_notation_push(self@.take(i as int), m);
            }
            if i > 0 {
                r.append(" ");
            }
            match m.0 {
                MoveType::L => r.append("L"),
                MoveType::R => r.append("R"),
                MoveType::U => r.append("U"),
                MoveType::D => r.append("D"),
                MoveType::F => r.append("F"),
                MoveType::B => r.append("B"),
            }
            if m.1 == 2 {
                r.append("2");
            } else if m.1 == 3 {
                r.append("'");
            }
            proof {
                assert(r@ =~= spec_notation(self@.take(i + 1)));
            }
            i += 1;
        }
        proof {
            assert(self@.take(n as int) =~= self@);
        }
        r
    }
}

} // verus!
