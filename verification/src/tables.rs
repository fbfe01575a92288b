//! The line-oriented stage-data formats, parsed into in-memory tables.
//!
//! Conditional format (one table line): `<KEY>:<CLAUSES>` where the key
//! is two face digits and each clause is zero or more two-digit
//! reference positions followed by a quoted move string; the last
//! clause of a line must be unconditional and serves as the default.
//! `//` starts a comment line and a line reading exactly `///` ends the
//! file early.  Flat format: `<csv-of-integers>:"<moves>"`.  All
//! malformed input is reported as a typed load error; nothing panics.

use vstd::prelude::*;
use vstd::slice::slice_subrange;
use crate::face::Face;
use crate::position::Pos;
use crate::algorithm::Alg;
use crate::algorithm::Move;
use crate::algorithm::moves_wf;
use crate::support::Tern;

verus! {

/// What can be wrong with stage data, discovered at load time.
#[derive(Copy, Clone, PartialEq, Eq, Structural, Debug)]
pub enum LoadError {
    /// A non-comment line has no `:` separating key from clauses.
    MissingSeparator,
    /// The key is not exactly two face digits in `0..=5`.
    BadKey,
    /// A clause predicate is not a whole two-digit face pair.
    BadPredicate,
    /// An algorithm's opening or closing quote is missing.
    UnterminatedAlgorithm,
    /// A quoted move string does not parse as moves.
    BadMove,
    /// A line has no clauses, or its last clause carries predicates.
    MissingDefault,
    /// Two lines share one key.
    DuplicateKey,
    /// A flat-format integer is empty or too large.
    BadNumber,
}

/// A decision list keyed by two-face reference positions.
pub type CrossTern = Tern<Vec<Pos<2>>, Alg>;

/// Every result the decision list can produce is a well-formed
/// algorithm, and every condition is a list of two-face positions.
pub open spec fn tern_wf(t: CrossTern) -> bool {
    &&& moves_wf(t.spec_default()@)
    &&& forall|i: int|
        0 <= i < t.spec_clauses().len() ==> moves_wf((#[trigger] t.spec_clauses()[i]).1@)
}

/// First entry with the given key, scanning front to back.
pub open spec fn spec_lookup(entries: Seq<(Pos<2>, CrossTern)>, key: Seq<Face>) -> Option<CrossTern>
    decreases entries.len(),
{
    if entries.len() == 0 {
        None
    } else if entries[0].0@ == key {
        Some(entries[0].1)
    } else {
        spec_lookup(entries.skip(1), key)
    }
}

proof fn lemma_lookup_skip(entries: Seq<(Pos<2>, CrossTern)>, key: Seq<Face>, i: int)
    requires
        0 <= i <= entries.len(),
        forall|k: int| 0 <= k < i ==> (#[trigger] entries[k]).0@ != key,
    ensures
        spec_lookup(entries, key) == spec_lookup(entries.skip(i), key),
    decreases i,
{
    if i > 0 {
        lemma_lookup_skip(entries, key, i - 1);
        assert(entries.skip(i - 1)[0] == entries[i - 1]);
        assert(entries.skip(i - 1).skip(1) =~= entries.skip(i));
    } else {
        assert(entries.skip(0) =~= entries);
    }
}

/// A table of the conditional stage format: reference-position keys,
/// each mapped to a decision list over already-solved positions.
pub struct StageTable {
    pub entries: Vec<(Pos<2>, CrossTern)>,
}

impl StageTable {
    /// Distinct well-formed keys, well-formed decision lists.
    pub open spec fn wf(self) -> bool {
        &&& forall|i: int, j: int|
            #![trigger self.entries@[i], self.entries@[j]]
            0 <= i < self.entries@.len() && 0 <= j < self.entries@.len() && i != j
                ==> self.entries@[i].0@ != self.entries@[j].0@
        &&& forall|i: int|
            0 <= i < self.entries@.len() ==> (#[trigger] self.entries@[i]).0@[0].wf()
                && self.entries@[i].0@[1].wf()
        &&& forall|i: int| 0 <= i < self.entries@.len() ==> tern_wf((#[trigger] self.entries@[i]).1)
    }

    pub fn len(&self) -> (r: usize)
        ensures
            r == self.entries@.len(),
    {
        self.entries.len()
    }

    /// The decision list stored under `key`, if the key is present.
    pub fn lookup(&self, key: Pos<2>) -> (r: Option<&CrossTern>)
        ensures
            match r {
                Some(t) => Some(*t) == spec_lookup(self.entries@, key@),
                None => spec_lookup(self.entries@, key@) is None,
            },
    {
        let n = self.entries.len();
        let mut i: usize = 0;
        while i < n
            invariant
                0 <= i <= n,
                n == self.entries@.len(),
                forall|k: int| 0 <= k < i ==> (#[trigger] self.entries@[k]).0@ != key@,
            decreases n - i,
        {
            if self.entries[i].0 == key {
                proof {
                    lemma_lookup_skip(self.entries@, key@, i as int);
                    assert(self.entries@.skip(i as int)[0] == self.entries@[i as int]);
                }
                return Some(&self.entries[i].1);
            }
            proof {
                if self.entries@[i as int].0@ == key@ {
                    assert(self.entries@[i as int].0.0 =~= key.0);
                }
            }
            i += 1;
        }
        proof {
            lemma_lookup_skip(self.entries@, key@, n as int);
            assert(self.entries@.skip(n as int) =~= Seq::<(Pos<2>, CrossTern)>::empty());
        }
        None
    }

    /// Whether the table holds an entry for every two-face reference
    /// position that names a real edge slot.
    pub fn is_complete(&self) -> (r: bool)
        ensures
            r == spec_cross_complete(self.entries@),
    {
        let mut a: u8 = 0;
        while a < 6
            invariant
                0 <= a <= 6,
                forall|x: int, y: int|
                    #![trigger valid_slot_pair(x, y)]
                    0 <= x < a && 0 <= y < 6 && valid_slot_pair(x, y) ==> spec_lookup(
                        self.entries@,
                        seq![Face(x as u8), Face(y as u8)],
                    ) is Some,
            decreases 6 - a,
        {
            let mut b: u8 = 0;
            while b < 6
                invariant
                    0 <= a < 6,
                    0 <= b <= 6,
                    forall|x: int, y: int|
                        #![trigger valid_slot_pair(x, y)]
                        0 <= x < a && 0 <= y < 6 && valid_slot_pair(x, y) ==> spec_lookup(
                            self.entries@,
                            seq![Face(x as u8), Face(y as u8)],
                        ) is Some,
                    forall|y: int|
                        #![trigger valid_slot_pair(a as int, y)]
                        0 <= y < b && valid_slot_pair(a as int, y) ==> spec_lookup(
                            self.entries@,
                            seq![Face(a), Face(y as u8)],
                        ) is Some,
                decreases 6 - b,
            {
                if a != b && b != (a + 3) % 6 {
                    let key = Pos([Face(a), Face(b)]);
                    proof {
                        assert(key@ =~= seq![Face(a), Face(b)]);
                    }
                    if self.lookup(key).is_none() {
                        proof {
                            assert(valid_slot_pair(a as int, b as int));
                        }
                        return false;
                    }
                }
                b += 1;
            }
            a += 1;
        }
        proof {
            assert forall|k: Seq<Face>|
                k.len() == 2 && k[0].wf() && k[1].wf() && k[0] != k[1] && k[1]
                    != k[0].spec_opposite() implies #[trigger] spec_lookup(
                self.entries@,
                k,
            ) is Some by {
                let x = k[0].0 as int;
                let y = k[1].0 as int;
                assert(k[0] == Face(k[0].0));
                assert(k[1] == Face(k[1].0));
                assert(valid_slot_pair(x, y));
                assert(k =~= seq![Face(x as u8), Face(y as u8)]);
            }
        }
        true
    }
}

/// Whether two face labels, given as plain integers, name a real edge
/// slot: distinct and not opposite.
pub open spec fn valid_slot_pair(x: int, y: int) -> bool {
    &&& 0 <= x < 6
    &&& 0 <= y < 6
    &&& x != y
    &&& y != (x + 3) % 6
}

/// Whether the table answers every two-face reference position that
/// names a real edge slot.
pub open spec fn spec_cross_complete(entries: Seq<(Pos<2>, CrossTern)>) -> bool {
    forall|k: Seq<Face>|
        k.len() == 2 && k[0].wf() && k[1].wf() && k[0] != k[1] && k[1] != k[0].spec_opposite()
            ==> #[trigger] spec_lookup(entries, k) is Some
}

/// A line reading exactly `///`, which ends parsing early.
pub open spec fn is_terminator(line: Seq<u8>) -> bool {
    line.len() == 3 && line[0] == 47 && line[1] == 47 && line[2] == 47
}

/// A comment line: it opens with `//` and is not the terminator.
pub open spec fn is_comment(line: Seq<u8>) -> bool {
    line.len() >= 2 && line[0] == 47 && line[1] == 47 && !is_terminator(line)
}

/// The data lines from position `i` on: comments dropped, everything
/// from the first terminator on ignored.
pub open spec fn spec_data_lines(lines: Seq<Seq<u8>>, i: int) -> Seq<Seq<u8>>
    decreases lines.len() - i,
{
    if i < 0 || i >= lines.len() {
        Seq::empty()
    } else if is_terminator(lines[i]) {
        Seq::empty()
    } else if is_comment(lines[i]) {
        spec_data_lines(lines, i + 1)
    } else {
        seq![lines[i]] + spec_data_lines(lines, i + 1)
    }
}

/// The reference position written in a data line's first two digits.
pub open spec fn spec_key_of(line: Seq<u8>) -> Seq<Face> {
    seq![Face((line[0] - 48) as u8), Face((line[1] - 48) as u8)]
}

/// Index of the first `:` of the line, or its length.
pub open spec fn spec_colon_at(line: Seq<u8>, i: int) -> int
    decreases line.len() - i,
{
    if i < 0 || i >= line.len() {
        line.len() as int
    } else if line[i] == 58 {
        i
    } else {
        spec_colon_at(line, i + 1)
    }
}

proof fn lemma_colon_at_determined(line: Seq<u8>, i: int, c: int)
    requires
        0 <= i <= c <= line.len(),
        forall|k: int| i <= k < c ==> line[k] != 58,
        c < line.len() ==> line[c] == 58,
    ensures
        spec_colon_at(line, i) == c,
    decreases c - i,
{
    if i < c {
        lemma_colon_at_determined(line, i + 1, c);
    }
}

/// What a flat-format line maps its key to: the moves between the
/// quotes that follow its first colon, if the line is well-formed.
pub open spec fn spec_flat_alg(line: Seq<u8>) -> Option<Seq<Move>> {
    let c = spec_colon_at(line, 0);
    if line.len() - c >= 3 && line[c + 1] == 34 && line[line.len() - 1] == 34 {
        crate::algorithm::spec_parse_moves(line.subrange(c + 2, line.len() - 1), 0)
    } else {
        None
    }
}

/// The fixed-width predicates at the head of a clause: pairs of face
/// digits are read while a digit starts the next block; a block that is
/// cut short or not two face digits is a malformed predicate.
pub open spec fn spec_preds_at(line: Seq<u8>, i: int) -> Option<(Seq<Seq<Face>>, int)>
    decreases line.len() - i,
{
    if i < 0 || i >= line.len() || !(48 <= line[i] <= 57) {
        Some((Seq::empty(), i))
    } else if line.len() - i < 2 || !(48 <= line[i] <= 53) || !(48 <= line[i + 1] <= 53) {
        None
    } else {
        match spec_preds_at(line, i + 2) {
            None => None,
            Some((ps, j)) => Some(
                (
                    seq![seq![Face((line[i] - 48) as u8), Face((line[i + 1] - 48) as u8)]] + ps,
                    j,
                ),
            ),
        }
    }
}

proof fn lemma_preds_at_bounds(line: Seq<u8>, i: int)
    requires
        0 <= i <= line.len(),
        spec_preds_at(line, i) is Some,
    ensures
        i <= (spec_preds_at(line, i)->0).1 <= line.len(),
    decreases line.len() - i,
{
    if i < line.len() && 48 <= line[i] <= 57 {
        lemma_preds_at_bounds(line, i + 2);
    }
}

/// Index of the first `"` at or after position `i`, or the end.
pub open spec fn spec_quote_at(line: Seq<u8>, i: int) -> int
    decreases line.len() - i,
{
    if i < 0 || i >= line.len() {
        line.len() as int
    } else if line[i] == 34 {
        i
    } else {
        spec_quote_at(line, i + 1)
    }
}

proof fn lemma_quote_at_bounds(line: Seq<u8>, i: int)
    requires
        0 <= i <= line.len(),
    ensures
        i <= spec_quote_at(line, i) <= line.len(),
    decreases line.len() - i,
{
    if i < line.len() && line[i] != 34 {
        lemma_quote_at_bounds(line, i + 1);
    }
}

proof fn lemma_quote_at_determined(line: Seq<u8>, i: int, q: int)
    requires
        0 <= i <= q <= line.len(),
        forall|k: int| i <= k < q ==> line[k] != 34,
        q < line.len() ==> line[q] == 34,
    ensures
        spec_quote_at(line, i) == q,
    decreases q - i,
{
    if i < q {
        lemma_quote_at_determined(line, i + 1, q);
    }
}

/// The clauses of a conditional-format line from position `i` on: each
/// clause is its predicate blocks followed by a double-quoted move
/// string; a missing quote or an unreadable move spoils the line.
pub open spec fn spec_clauses_at(line: Seq<u8>, i: int) -> Option<
    Seq<(Seq<Seq<Face>>, Seq<Move>)>,
>
    decreases line.len() - i,
    via spec_clauses_at_decreases
{
    if i < 0 || i >= line.len() {
        Some(Seq::empty())
    } else {
        match spec_preds_at(line, i) {
            None => None,
            Some((ps, j)) => if j >= line.len() || line[j] != 34 {
                None
            } else {
                let q = spec_quote_at(line, j + 1);
                if q >= line.len() {
                    None
                } else {
                    match crate::algorithm::spec_parse_moves(line.subrange(j + 1, q), 0) {
                        None => None,
                        Some(ms) => match spec_clauses_at(line, q + 1) {
                            None => None,
                            Some(rest) => Some(seq![(ps, ms)] + rest),
                        },
                    }
                }
            },
        }
    }
}

#[via_fn]
proof fn spec_clauses_at_decreases(line: Seq<u8>, i: int) {
    if 0 <= i && i < line.len() {
        if spec_preds_at(line, i) is Some {
            lemma_preds_at_bounds(line, i);
            let j = (spec_preds_at(line, i)->0).1;
            if j < line.len() && line[j] == 34 {
                lemma_quote_at_bounds(line, j + 1);
            }
        }
    }
}

/// The clause list of an in-memory decision entry, read mathematically.
pub open spec fn clauses_view(cs: Seq<(Vec<Pos<2>>, Alg)>) -> Seq<(Seq<Seq<Face>>, Seq<Move>)> {
    cs.map_values(|cl: (Vec<Pos<2>>, Alg)| (cl.0@.map_values(|p: Pos<2>| p@), cl.1@))
}

/// A well-formed conditional-format data line: a two-face-digit key,
/// the `:` right after it, readable clauses, and a final clause with no
/// predicates to serve as the default.
pub open spec fn line1_ok(line: Seq<u8>) -> bool {
    &&& spec_colon_at(line, 0) == 2
    &&& 2 < line.len()
    &&& 48 <= line[0] <= 53
    &&& 48 <= line[1] <= 53
    &&& spec_clauses_at(line, 3) matches Some(cs) && cs.len() >= 1 && cs.last().0.len() == 0
}

/// An entry's decision list carries exactly its line's clauses: one
/// guarded clause per predicate-bearing clause in line order, and the
/// final clause's moves as the default.
pub open spec fn tern_matches_line(t: CrossTern, line: Seq<u8>) -> bool {
    &&& spec_clauses_at(line, 3) is Some
    &&& clauses_view(t.spec_clauses()) == spec_clauses_at(line, 3)->0.drop_last()
    &&& t.spec_default()@ == spec_clauses_at(line, 3)->0.last().1
}

/// A present lookup means some entry carries the key.
proof fn lemma_lookup_some_key_present(entries: Seq<(Pos<2>, CrossTern)>, key: Seq<Face>)
    requires
        spec_lookup(entries, key) is Some,
    ensures
        exists|j: int| 0 <= j < entries.len() && (#[trigger] entries[j]).0@ == key,
    decreases entries.len(),
{
    if entries.len() > 0 && entries[0].0@ != key {
        lemma_lookup_some_key_present(entries.skip(1), key);
        let j = choose|j: int|
            0 <= j < entries.skip(1).len() && (#[trigger] entries.skip(1)[j]).0@ == key;
        assert(entries[j + 1].0@ == key);
    }
}

/// Whether a byte is an ASCII decimal digit.
fn is_digit(b: u8) -> (r: bool)
    ensures
        r == (48 <= b <= 57),
{
    48 <= b && b <= 57
}

/// Two face digits read as a reference position.
fn parse_pair(line: &[u8], at: usize) -> (r: Option<Pos<2>>)
    requires
        at + 2 <= line@.len(),
    ensures
        match r {
            Some(p) => {
                &&& p@ == seq![Face((line@[at as int] - 48) as u8), Face(
                    (line@[at as int + 1] - 48) as u8,
                )]
                &&& p@[0].wf()
                &&& p@[1].wf()
                &&& 48 <= line@[at as int] <= 53
                &&& 48 <= line@[at as int + 1] <= 53
            },
            None => !(48 <= line@[at as int] <= 53) || !(48 <= line@[at as int + 1] <= 53),
        },
{
    let a = line[at];
    let b = line[at + 1];
    if 48 <= a && a <= 53 && 48 <= b && b <= 53 {
        let p = Pos([Face(a - 48), Face(b - 48)]);
        proof {
            assert(p@ =~= seq![Face((a - 48) as u8), Face((b - 48) as u8)]);
        }
        Some(p)
    } else {
        None
    }
}

/// Index of the first `:` of the line, if any.
fn find_colon(line: &[u8]) -> (r: Option<usize>)
    ensures
        match r {
            Some(i) => i < line@.len() && line@[i as int] == 58 && forall|k: int|
                0 <= k < i ==> line@[k] != 58,
            None => forall|k: int| 0 <= k < line@.len() ==> line@[k] != 58,
        },
{
    let n = line.len();
    let mut i: usize = 0;
    while i < n
        invariant
            0 <= i <= n,
            n == line@.len(),
            forall|k: int| 0 <= k < i ==> line@[k] != 58,
        decreases n - i,
    {
        if line[i] == 58 {
            return Some(i);
        }
        i += 1;
    }
    None
}

/// Index of the first `"` at or after `from`, if any.
fn find_quote(line: &[u8], from: usize) -> (r: Option<usize>)
    requires
        from <= line@.len(),
    ensures
        match r {
            Some(i) => from <= i < line@.len() && line@[i as int] == 34 && forall|k: int|
                from <= k < i ==> line@[k] != 34,
            None => forall|k: int| from <= k < line@.len() ==> line@[k] != 34,
        },
{
    let n = line.len();
    let mut i: usize = from;
    while i < n
        invariant
            from <= i <= n,
            n == line@.len(),
            forall|k: int| from <= k < i ==> line@[k] != 34,
        decreases n - i,
    {
        if line[i] == 34 {
            return Some(i);
        }
        i += 1;
    }
    None
}

/// Reads the clauses of one conditional-format line, from just after
/// the `:` on, into predicate lists and quoted algorithms.
fn parse_clauses(line: &[u8], start: usize) -> (r: Result<Vec<(Vec<Pos<2>>, Alg)>, LoadError>)
    requires
        start <= line@.len(),
    ensures
        match r {
            Ok(clauses) => Some(clauses_view(clauses@)) == spec_clauses_at(line@, start as int)
                && forall|i: int|
                0 <= i < clauses@.len() ==> moves_wf((#[trigger] clauses@[i]).1@),
            Err(e) => spec_clauses_at(line@, start as int) is None,
        },
{
    let n = line.len();
    let mut clauses: Vec<(Vec<Pos<2>>, Alg)> = Vec::new();
    let mut i: usize = start;
    while i < n
        invariant
            start <= i <= n,
            n == line@.len(),
            forall|k: int| 0 <= k < clauses@.len() ==> moves_wf((#[trigger] clauses@[k]).1@),
            spec_clauses_at(line@, start as int) == match spec_clauses_at(line@, i as int) {
                None => None::<Seq<(Seq<Seq<Face>>, Seq<Move>)>>,
                Some(rest) => Some(clauses_view(clauses@) + rest),
            },
        decreases n - i,
    {
        let ghost i0 = i as int;
        let mut predicates: Vec<Pos<2>> = Vec::new();
        while i < n && is_digit(line[i])
            invariant
                start <= i0 < n,
                i0 <= i as int <= n,
                n == line@.len(),
                spec_preds_at(line@, i0) == match spec_preds_at(line@, i as int) {
                    None => None::<(Seq<Seq<Face>>, int)>,
                    Some((ps, j)) => Some(
                        (predicates@.map_values(|p: Pos<2>| p@) + ps, j),
                    ),
                },
                spec_clauses_at(line@, start as int) == match spec_clauses_at(line@, i0) {
                    None => None::<Seq<(Seq<Seq<Face>>, Seq<Move>)>>,
                    Some(rest) => Some(clauses_view(clauses@) + rest),
                },
            decreases n - i,
        {
            if n - i < 2 {
                proof {
                    assert(spec_preds_at(line@, i as int) is None);
                    assert(spec_preds_at(line@, i0) is None);
                    assert(spec_clauses_at(line@, i0) is None);
                }
                return Err(LoadError::BadPredicate);
            }
            match parse_pair(line, i) {
                Some(p) => {
                    let ghost pv = predicates@.map_values(|q: Pos<2>| q@);
                    predicates.push(p);
                    proof {
                        assert(predicates@.map_values(|q: Pos<2>| q@) =~= pv + seq![p@]);
                        if spec_preds_at(line@, i + 2) is Some {
                            let (ps, j) = spec_preds_at(line@, i + 2)->0;
                            assert((pv + seq![p@]) + ps =~= pv + (seq![p@] + ps));
                        }
                    }
                },
                None => {
                    proof {
                        assert(spec_preds_at(line@, i as int) is None);
                        assert(spec_preds_at(line@, i0) is None);
                        assert(spec_clauses_at(line@, i0) is None);
                    }
                    return Err(LoadError::BadPredicate);
                },
            }
            i += 2;
        }
        proof {
            assert(spec_preds_at(line@, i as int) == Some(
                (Seq::<Seq<Face>>::empty(), i as int),
            ));
            assert(predicates@.map_values(|p: Pos<2>| p@) + Seq::<Seq<Face>>::empty()
                =~= predicates@.map_values(|p: Pos<2>| p@));
        }
        if i >= n || line[i] != 34 {
            proof {
                assert(spec_clauses_at(line@, i0) is None);
            }
            return Err(LoadError::UnterminatedAlgorithm);
        }
        let close = match find_quote(line, i + 1) {
            Some(c) => c,
            None => {
                proof {
                    lemma_quote_at_determined(line@, i + 1, n as int);
                    assert(spec_clauses_at(line@, i0) is None);
                }
                return Err(LoadError::UnterminatedAlgorithm);
            },
        };
        proof {
            lemma_quote_at_determined(line@, i + 1, close as int);
        }
        let text = slice_subrange(line, i + 1, close);
        let alg = match Alg::parse(text) {
            Some(a) => a,
            None => {
                proof {
                    assert(spec_clauses_at(line@, i0) is None);
                }
                return Err(LoadError::BadMove);
            },
        };
        let ghost cv = clauses_view(clauses@);
        let ghost pv = predicates@.map_values(|p: Pos<2>| p@);
        clauses.push((predicates, alg));
        proof {
            assert(clauses_view(clauses@) =~= cv + seq![(pv, alg@)]);
            if spec_clauses_at(line@, close + 1) is Some {
                let rest = spec_clauses_at(line@, close + 1)->0;
                assert((cv + seq![(pv, alg@)]) + rest =~= cv + (seq![(pv, alg@)] + rest));
            }
        }
        i = close + 1;
    }
    proof {
        assert(spec_clauses_at(line@, i as int) == Some(
            Seq::<(Seq<Seq<Face>>, Seq<Move>)>::empty(),
        ));
        assert(clauses_view(clauses@) + Seq::<(Seq<Seq<Face>>, Seq<Move>)>::empty()
            =~= clauses_view(clauses@));
    }
    Ok(clauses)
}

/// Loads a conditional-format table: one keyed decision list per data
/// line, comments skipped, parsing stopped by a `///` line.  Loading
/// succeeds exactly when every data line is well-formed and no two
/// share a key; the table then maps each line's key, in line order, to
/// its clauses, with the final clause's moves as the default.
pub fn load1(lines: &Vec<Vec<u8>>) -> (r: Result<StageTable, LoadError>)
    ensures
        r is Ok <==> ({
            let data = spec_data_lines(lines@.map_values(|l: Vec<u8>| l@), 0);
            &&& forall|k: int| 0 <= k < data.len() ==> line1_ok(#[trigger] data[k])
            &&& forall|k1: int, k2: int|
                0 <= k1 < data.len() && 0 <= k2 < data.len() && k1 != k2 ==> spec_key_of(
                    #[trigger] data[k1],
                ) != spec_key_of(#[trigger] data[k2])
        }),
        r matches Ok(t) ==> {
            let data = spec_data_lines(lines@.map_values(|l: Vec<u8>| l@), 0);
            &&& t.wf()
            &&& t.entries@.len() == data.len()
            &&& forall|k: int|
                0 <= k < t.entries@.len() ==> (#[trigger] t.entries@[k]).0@ == spec_key_of(data[k])
            &&& forall|k: int|
                0 <= k < t.entries@.len() ==> tern_matches_line(
                    (#[trigger] t.entries@[k]).1,
                    data[k],
                )
        },
{
    let ghost full = spec_data_lines(lines@.map_values(|l: Vec<u8>| l@), 0);
    let ghost lvs = lines@.map_values(|l: Vec<u8>| l@);
    let mut table = StageTable { entries: Vec::new() };
    let n = lines.len();
    let mut li: usize = 0;
    proof {
        assert(full.skip(0) =~= full);
    }
    while li < n
        invariant_except_break
            table.entries@.len() <= full.len(),
            full.skip(table.entries@.len() as int) == spec_data_lines(lvs, li as int),
        invariant
            0 <= li <= n,
            n == lines@.len(),
            lvs == lines@.map_values(|l: Vec<u8>| l@),
            full == spec_data_lines(lvs, 0),
            table.wf(),
            forall|k: int|
                0 <= k < table.entries@.len() ==> (#[trigger] table.entries@[k]).0@ == spec_key_of(
                    full[k],
                ),
            forall|k: int| 0 <= k < table.entries@.len() ==> line1_ok(#[trigger] full[k]),
            forall|k: int|
                0 <= k < table.entries@.len() ==> tern_matches_line(
                    (#[trigger] table.entries@[k]).1,
                    full[k],
                ),
        ensures
            table.wf(),
            table.entries@.len() == full.len(),
            forall|k: int|
                0 <= k < table.entries@.len() ==> (#[trigger] table.entries@[k]).0@ == spec_key_of(
                    full[k],
                ),
            forall|k: int| 0 <= k < full.len() ==> line1_ok(#[trigger] full[k]),
            forall|k: int|
                0 <= k < table.entries@.len() ==> tern_matches_line(
                    (#[trigger] table.entries@[k]).1,
                    full[k],
                ),
        decreases n - li,
    {
        let line: &Vec<u8> = &lines[li];
        let ghost li0 = li as int;
        let ghost ne = table.entries@.len() as int;
        proof {
            assert(lvs[li0] == line@);
        }
        li += 1;
        if line.len() == 3 && line[0] == 47 && line[1] == 47 && line[2] == 47 {
            proof {
                assert(is_terminator(lvs[li0]));
                assert(spec_data_lines(lvs, li0) =~= Seq::<Seq<u8>>::empty());
                assert(full.skip(table.entries@.len() as int).len() == 0);
                assert(table.entries@.len() == full.len());
            }
            break;
        }
        if line.len() >= 2 && line[0] == 47 && line[1] == 47 {
            proof {
                assert(is_comment(lvs[li0]));
                assert(spec_data_lines(lvs, li0) == spec_data_lines(lvs, li0 + 1));
            }
            continue;
        }
        proof {
            assert(!is_terminator(lvs[li0]) && !is_comment(lvs[li0]));
            assert(spec_data_lines(lvs, li0) == seq![lvs[li0]] + spec_data_lines(lvs, li0 + 1));
            assert(full.skip(ne)[0] == full[ne]);
            assert(full[ne] == lvs[li0]);
            assert(ne < full.len());
            assert(full.skip(ne).skip(1) =~= full.skip(ne + 1));
        }
        let colon = match find_colon(line.as_slice()) {
            Some(c) => c,
            None => {
                proof {
                    lemma_colon_at_determined(line@, 0, line@.len() as int);
                    assert(!line1_ok(full[ne]));
                }
                return Err(LoadError::MissingSeparator);
            },
        };
        proof {
            lemma_colon_at_determined(line@, 0, colon as int);
        }
        if colon != 2 {
            proof {
                assert(!line1_ok(full[ne]));
            }
            return Err(LoadError::BadKey);
        }
        let key = match parse_pair(line.as_slice(), 0) {
            Some(p) => p,
            None => {
                proof {
                    assert(!line1_ok(full[ne]));
                }
                return Err(LoadError::BadKey);
            },
        };
        let mut clauses = match parse_clauses(line.as_slice(), colon + 1) {
            Ok(c) => c,
            Err(e) => {
                proof {
                    assert(spec_clauses_at(line@, 3) is None);
                    assert(!line1_ok(full[ne]));
                }
                return Err(e);
            },
        };
        let ghost cs = spec_clauses_at(line@, 3)->0;
        proof {
            assert(clauses_view(clauses@) == cs);
        }
        if clauses.len() == 0 {
            proof {
                assert(cs.len() == 0);
                assert(!line1_ok(full[ne]));
            }
            return Err(LoadError::MissingDefault);
        }
        let ghost cv = clauses@;
        let (last_preds, default) = clauses.pop().unwrap();
        if last_preds.len() > 0 {
            proof {
                assert(cs.last() == clauses_view(cv).last());
                assert(cs.last().0.len() > 0);
                assert(!line1_ok(full[ne]));
            }
            return Err(LoadError::MissingDefault);
        }
        proof {
            assert(clauses@ =~= cv.take(cv.len() - 1));
            assert(cs.last() == clauses_view(cv).last());
            assert(line1_ok(full[ne]));
        }
        let tern = Tern::new(clauses, default);
        if table.lookup(key).is_some() {
            proof {
                lemma_lookup_some_key_present(table.entries@, key@);
                let j = choose|j: int|
                    0 <= j < table.entries@.len() && (#[trigger] table.entries@[j]).0@ == key@;
                assert(spec_key_of(full[j]) == key@);
                assert(key@ == spec_key_of(full[ne]));
            }
            return Err(LoadError::DuplicateKey);
        }
        proof {
            lemma_lookup_none_key_absent(table.entries@, key@);
        }
        let ghost before = table.entries@;
        table.entries.push((key, tern));
        proof {
            assert(forall|k: int|
                0 <= k < before.len() ==> table.entries@[k] == (#[trigger] before[k]));
            assert(tern_wf(tern));
            assert(table.entries@[before.len() as int].0@ == spec_key_of(lvs[li0]));
            assert(clauses_view(tern.spec_clauses()) =~= cs.drop_last());
            assert(tern.spec_default()@ == cs.last().1);
            assert(tern_matches_line(tern, full[ne]));
        }
    }
    proof {
        assert(full.skip(table.entries@.len() as int).len() == full.len()
            - table.entries@.len());
        assert forall|k1: int, k2: int|
            0 <= k1 < full.len() && 0 <= k2 < full.len() && k1 != k2 implies spec_key_of(
            #[trigger] full[k1],
        ) != spec_key_of(#[trigger] full[k2]) by {
            assert(table.entries@[k1].0@ == spec_key_of(full[k1]));
            assert(table.entries@[k2].0@ == spec_key_of(full[k2]));
        }
    }
    Ok(table)
}

/// An absent lookup means no entry carries the key.
proof fn lemma_lookup_none_key_absent(entries: Seq<(Pos<2>, CrossTern)>, key: Seq<Face>)
    requires
        spec_lookup(entries, key) is None,
    ensures
        forall|k: int| 0 <= k < entries.len() ==> (#[trigger] entries[k]).0@ != key,
    decreases entries.len(),
{
    if entries.len() > 0 {
        lemma_lookup_none_key_absent(entries.skip(1), key);
        assert(forall|k: int|
            1 <= k < entries.len() ==> entries.skip(1)[k - 1] == (#[trigger] entries[k]));
    }
}

/// Index of the first `,` in `[i, end)`, or `end`.
pub open spec fn spec_comma_at(line: Seq<u8>, i: int, end: int) -> int
    decreases end - i,
{
    if i < 0 || i >= end {
        end
    } else if line[i] == 44 {
        i
    } else {
        spec_comma_at(line, i + 1, end)
    }
}

proof fn lemma_comma_at_bounds(line: Seq<u8>, i: int, end: int)
    requires
        0 <= i <= end,
    ensures
        i <= spec_comma_at(line, i, end) <= end,
    decreases end - i,
{
    if i < end && line[i] != 44 {
        lemma_comma_at_bounds(line, i + 1, end);
    }
}

proof fn lemma_comma_at_determined(line: Seq<u8>, i: int, c: int, end: int)
    requires
        0 <= i <= c <= end,
        forall|k: int| i <= k < c ==> line[k] != 44,
        c < end ==> line[c] == 44,
    ensures
        spec_comma_at(line, i, end) == c,
    decreases c - i,
{
    if i < c {
        lemma_comma_at_determined(line, i + 1, c, end);
    }
}

/// The decimal value of `[i, to)` accumulated onto `acc`; a non-digit
/// or a value beyond the integer range refuses the text.
pub open spec fn spec_number_loop(line: Seq<u8>, i: int, to: int, acc: u64) -> Option<u64>
    decreases to - i,
{
    if i < 0 || i >= to {
        Some(acc)
    } else if !(48 <= line[i] <= 57) {
        None
    } else {
        let d = (line[i] - 48) as u64;
        if acc > (u64::MAX - d) / 10 {
            None
        } else {
            spec_number_loop(line, i + 1, to, (acc * 10 + d) as u64)
        }
    }
}

/// The decimal integer written in `[from, to)`; empty text, a
/// non-digit, or overflow refuses it.
pub open spec fn spec_number(line: Seq<u8>, from: int, to: int) -> Option<u64> {
    if from >= to {
        None
    } else {
        spec_number_loop(line, from, to, 0)
    }
}

/// The comma-separated integers before the colon.
pub open spec fn spec_keys_at(line: Seq<u8>, from: int, colon: int) -> Option<Seq<u64>>
    decreases colon - from,
    via spec_keys_at_decreases
{
    if from < 0 || colon < from {
        None
    } else {
        let c = spec_comma_at(line, from, colon);
        if c >= colon {
            match spec_number(line, from, colon) {
                None => None,
                Some(v) => Some(seq![v]),
            }
        } else {
            match spec_number(line, from, c) {
                None => None,
                Some(v) => match spec_keys_at(line, c + 1, colon) {
                    None => None,
                    Some(rest) => Some(seq![v] + rest),
                },
            }
        }
    }
}

#[via_fn]
proof fn spec_keys_at_decreases(line: Seq<u8>, from: int, colon: int) {
    if 0 <= from && from <= colon {
        lemma_comma_at_bounds(line, from, colon);
    }
}

/// The key of a flat-format line, where the line carries one.
pub open spec fn spec_line_key(line: Seq<u8>) -> Seq<u64> {
    spec_keys_at(line, 0, spec_colon_at(line, 0))->0
}

/// A well-formed flat-format line: a colon, a readable integer key
/// before it, and a quoted move string after it to the line's end.
pub open spec fn line2_ok(line: Seq<u8>) -> bool {
    &&& spec_colon_at(line, 0) < line.len()
    &&& spec_keys_at(line, 0, spec_colon_at(line, 0)) is Some
    &&& spec_flat_alg(line) is Some
}

/// A table of the flat stage format: an integer-list key mapped
/// directly to one algorithm.
pub struct FlatTable {
    pub entries: Vec<(Vec<u64>, Alg)>,
}

impl FlatTable {
    /// Distinct keys, well-formed algorithms.
    pub open spec fn wf(self) -> bool {
        &&& forall|i: int, j: int|
            #![trigger self.entries@[i], self.entries@[j]]
            0 <= i < self.entries@.len() && 0 <= j < self.entries@.len() && i != j
                ==> self.entries@[i].0@ != self.entries@[j].0@
        &&& forall|i: int| 0 <= i < self.entries@.len() ==> moves_wf((#[trigger] self.entries@[i]).1@)
    }

    pub fn len(&self) -> (r: usize)
        ensures
            r == self.entries@.len(),
    {
        self.entries.len()
    }

    /// Whether some entry carries exactly this key.
    pub fn has_key(&self, key: &Vec<u64>) -> (r: bool)
        ensures
            r == exists|i: int|
                0 <= i < self.entries@.len() && (#[trigger] self.entries@[i]).0@ == key@,
    {
        let n = self.entries.len();
        let mut i: usize = 0;
        while i < n
            invariant
                0 <= i <= n,
                n == self.entries@.len(),
                forall|k: int| 0 <= k < i ==> (#[trigger] self.entries@[k]).0@ != key@,
            decreases n - i,
        {
            if keys_equal(&self.entries[i].0, key) {
                return true;
            }
            i += 1;
        }
        false
    }

    /// The algorithm stored under `key`, if the key is present.
    pub fn get(&self, key: &Vec<u64>) -> (r: Option<&Alg>)
        ensures
            match r {
                Some(a) => exists|i: int|
                    0 <= i < self.entries@.len() && (#[trigger] self.entries@[i]).0@ == key@ && *a
                        == self.entries@[i].1,
                None => forall|i: int|
                    0 <= i < self.entries@.len() ==> (#[trigger] self.entries@[i]).0@ != key@,
            },
    {
        let n = self.entries.len();
        let mut i: usize = 0;
        while i < n
            invariant
                0 <= i <= n,
                n == self.entries@.len(),
                forall|k: int| 0 <= k < i ==> (#[trigger] self.entries@[k]).0@ != key@,
            decreases n - i,
        {
            if keys_equal(&self.entries[i].0, key) {
                return Some(&self.entries[i].1);
            }
            i += 1;
        }
        None
    }
}

/// Whether two integer lists are equal entry for entry.
fn keys_equal(a: &Vec<u64>, b: &Vec<u64>) -> (r: bool)
    ensures
        r == (a@ == b@),
{
    if a.len() != b.len() {
        return false;
    }
    let mut i: usize = 0;
    while i < a.len()
        invariant
            0 <= i <= a@.len(),
            a@.len() == b@.len(),
            forall|k: int| 0 <= k < i ==> a@[k] == b@[k],
        decreases a@.len() - i,
    {
        if a[i] != b[i] {
            return false;
        }
        i += 1;
    }
    proof {
        assert(a@ =~= b@);
    }
    true
}

/// One decimal integer from `[from, to)`; empty or overflowing text is
/// refused.
fn parse_number(line: &[u8], from: usize, to: usize) -> (r: Option<u64>)
    requires
        from <= to <= line@.len(),
    ensures
        r == spec_number(line@, from as int, to as int),
{
    if from >= to {
        return None;
    }
    let mut value: u64 = 0;
    let mut i: usize = from;
    while i < to
        invariant
            from <= i <= to <= line@.len(),
            spec_number_loop(line@, from as int, to as int, 0) == spec_number_loop(
                line@,
                i as int,
                to as int,
                value,
            ),
        decreases to - i,
    {
        let b = line[i];
        if !(48 <= b && b <= 57) {
            return None;
        }
        let d = (b - 48) as u64;
        if value > (u64::MAX - d) / 10 {
            return None;
        }
        value = value * 10 + d;
        i += 1;
    }
    Some(value)
}

/// Loads a flat-format table: each line one comma-separated integer
/// key, a `:`, and one quoted algorithm to the line's end.  Loading
/// succeeds exactly when every line is well-formed and no two share a
/// key; the table then maps each line's key, in line order, to its
/// quoted moves.
pub fn load2(lines: &Vec<Vec<u8>>) -> (r: Result<FlatTable, LoadError>)
    ensures
        r is Ok <==> ({
            let data = lines@.map_values(|l: Vec<u8>| l@);
            &&& forall|k: int| 0 <= k < data.len() ==> line2_ok(#[trigger] data[k])
            &&& forall|k1: int, k2: int|
                0 <= k1 < data.len() && 0 <= k2 < data.len() && k1 != k2 ==> spec_line_key(
                    #[trigger] data[k1],
                ) != spec_line_key(#[trigger] data[k2])
        }),
        r matches Ok(t) ==> {
            let data = lines@.map_values(|l: Vec<u8>| l@);
            &&& t.wf()
            &&& t.entries@.len() == data.len()
            &&& forall|k: int|
                0 <= k < t.entries@.len() ==> (#[trigger] t.entries@[k]).0@ == spec_line_key(
                    data[k],
                )
            &&& forall|k: int|
                0 <= k < t.entries@.len() ==> Some((#[trigger] t.entries@[k]).1@) == spec_flat_alg(
                    data[k],
                )
        },
{
    let ghost lvs = lines@.map_values(|l: Vec<u8>| l@);
    let mut table = FlatTable { entries: Vec::new() };
    let n = lines.len();
    let mut li: usize = 0;
    while li < n
        invariant
            0 <= li <= n,
            n == lines@.len(),
            lvs == lines@.map_values(|l: Vec<u8>| l@),
            table.wf(),
            table.entries@.len() == li,
            forall|k: int| 0 <= k < li ==> line2_ok(#[trigger] lvs[k]),
            forall|k: int|
                0 <= k < li ==> (#[trigger] table.entries@[k]).0@ == spec_line_key(lvs[k]),
            forall|k: int|
                0 <= k < li ==> Some((#[trigger] table.entries@[k]).1@) == spec_flat_alg(lvs[k]),
        decreases n - li,
    {
        let line: &Vec<u8> = &lines[li];
        let ghost li0 = li as int;
        proof {
            assert(lvs[li0] == line@);
        }
        li += 1;
        let colon = match find_colon(line.as_slice()) {
            Some(c) => c,
            None => {
                proof {
                    lemma_colon_at_determined(line@, 0, line@.len() as int);
                    assert(!line2_ok(lvs[li0]));
                }
                return Err(LoadError::MissingSeparator);
            },
        };
        proof {
            lemma_colon_at_determined(line@, 0, colon as int);
        }
        let mut key: Vec<u64> = Vec::new();
        let mut from: usize = 0;
        let mut to: usize = 0;
        while to < colon
            invariant
                0 <= from <= to <= colon < line@.len(),
                line@ == lvs[li0],
                0 <= li0 < lvs.len(),
                lvs == lines@.map_values(|l: Vec<u8>| l@),
                spec_colon_at(line@, 0) == colon as int,
                forall|k: int| from <= k < to ==> line@[k] != 44,
                spec_keys_at(line@, 0, colon as int) == match spec_keys_at(
                    line@,
                    from as int,
                    colon as int,
                ) {
                    None => None::<Seq<u64>>,
                    Some(rest) => Some(key@ + rest),
                },
            decreases colon - to,
        {
            if line[to] == 44 {
                proof {
                    lemma_comma_at_determined(line@, from as int, to as int, colon as int);
                }
                match parse_number(line.as_slice(), from, to) {
                    Some(v) => {
                        let ghost kv = key@;
                        key.push(v);
                        proof {
                            if spec_keys_at(line@, to + 1, colon as int) is Some {
                                let rest = spec_keys_at(line@, to + 1, colon as int)->0;
                                assert((kv + seq![v]) + rest =~= kv + (seq![v] + rest));
                            }
                        }
                    },
                    None => {
                        proof {
                            assert(spec_keys_at(line@, from as int, colon as int) is None);
                            assert(!line2_ok(lvs[li0]));
                        }
                        return Err(LoadError::BadNumber);
                    },
                }
                from = to + 1;
            }
            to += 1;
        }
        proof {
            lemma_comma_at_determined(line@, from as int, colon as int, colon as int);
        }
        match parse_number(line.as_slice(), from, colon) {
            Some(v) => {
                let ghost kv = key@;
                key.push(v);
                proof {
                    assert(spec_keys_at(line@, from as int, colon as int) == Some(seq![v]));
                    assert(kv + seq![v] =~= key@);
                    assert(spec_keys_at(line@, 0, colon as int) == Some(key@));
                }
            },
            None => {
                proof {
                    assert(spec_keys_at(line@, from as int, colon as int) is None);
                    assert(!line2_ok(lvs[li0]));
                }
                return Err(LoadError::BadNumber);
            },
        }
        proof {
            assert(key@ == spec_line_key(line@));
        }
        let len = line.len();
        if len - colon < 3 || line[colon + 1] != 34 || line[len - 1] != 34 {
            proof {
                assert(spec_flat_alg(line@) is None);
                assert(!line2_ok(lvs[li0]));
            }
            return Err(LoadError::UnterminatedAlgorithm);
        }
        let text = slice_subrange(line.as_slice(), colon + 2, len - 1);
        let alg = match Alg::parse(text) {
            Some(a) => a,
            None => {
                proof {
                    assert(spec_flat_alg(line@) is None);
                    assert(!line2_ok(lvs[li0]));
                }
                return Err(LoadError::BadMove);
            },
        };
        proof {
            assert(Some(alg@) == spec_flat_alg(line@));
            assert(line2_ok(lvs[li0]));
        }
        if table.has_key(&key) {
            proof {
                let j = choose|j: int|
                    0 <= j < table.entries@.len() && (#[trigger] table.entries@[j]).0@ == key@;
                assert(spec_line_key(lvs[j]) == spec_line_key(lvs[li0]));
            }
            return Err(LoadError::DuplicateKey);
        }
        let ghost before = table.entries@;
        table.entries.push((key, alg));
        proof {
            assert(forall|k: int|
                0 <= k < before.len() ==> table.entries@[k] == (#[trigger] before[k]));
            assert(Some(table.entries@[li0].1@) == spec_flat_alg(lvs[li0]));
            assert(table.entries@[li0].0@ == spec_line_key(lvs[li0]));
        }
    }
    proof {
        assert forall|k1: int, k2: int|
            0 <= k1 < lvs.len() && 0 <= k2 < lvs.len() && k1 != k2 implies spec_line_key(
            #[trigger] lvs[k1],
        ) != spec_line_key(#[trigger] lvs[k2]) by {
            assert(table.entries@[k1].0@ == spec_line_key(lvs[k1]));
            assert(table.entries@[k2].0@ == spec_line_key(lvs[k2]));
        }
    }
    Ok(table)
}

/// A decision list keyed by corner-and-edge composite positions.
pub type CompositeTern = Tern<Vec<(Pos<3>, Pos<2>)>, Alg>;

/// Every result of a composite decision list is well-formed notation.
pub open spec fn tern5_wf(t: CompositeTern) -> bool {
    &&& moves_wf(t.spec_default()@)
    &&& forall|i: int|
        0 <= i < t.spec_clauses().len() ==> moves_wf((#[trigger] t.spec_clauses()[i]).1@)
}

/// The five-digit predicate blocks at the head of a composite clause:
/// three corner digits then two edge digits per block.
pub open spec fn spec_preds5_at(line: Seq<u8>, i: int) -> Option<
    (Seq<(Seq<Face>, Seq<Face>)>, int),
>
    decreases line.len() - i,
{
    if i < 0 || i >= line.len() || !(48 <= line[i] <= 57) {
        Some((Seq::empty(), i))
    } else if line.len() - i < 5 || !(48 <= line[i] <= 53) || !(48 <= line[i + 1] <= 53) || !(48
        <= line[i + 2] <= 53) || !(48 <= line[i + 3] <= 53) || !(48 <= line[i + 4] <= 53) {
        None
    } else {
        match spec_preds5_at(line, i + 5) {
            None => None,
            Some((ps, j)) => Some(
                (
                    seq![
                        (
                            seq![
                                Face((line[i] - 48) as u8),
                                Face((line[i + 1] - 48) as u8),
                                Face((line[i + 2] - 48) as u8),
                            ],
                            seq![Face((line[i + 3] - 48) as u8), Face((line[i + 4] - 48) as u8)],
                        ),
                    ] + ps,
                    j,
                ),
            ),
        }
    }
}

proof fn lemma_preds5_at_bounds(line: Seq<u8>, i: int)
    requires
        0 <= i <= line.len(),
        spec_preds5_at(line, i) is Some,
    ensures
        i <= (spec_preds5_at(line, i)->0).1 <= line.len(),
    decreases line.len() - i,
{
    if i < line.len() && 48 <= line[i] <= 57 {
        lemma_preds5_at_bounds(line, i + 5);
    }
}

/// The clauses of a composite-format line from position `i` on.
pub open spec fn spec_clauses5_at(line: Seq<u8>, i: int) -> Option<
    Seq<(Seq<(Seq<Face>, Seq<Face>)>, Seq<Move>)>,
>
    decreases line.len() - i,
    via spec_clauses5_at_decreases
{
    if i < 0 || i >= line.len() {
        Some(Seq::empty())
    } else {
        match spec_preds5_at(line, i) {
            None => None,
            Some((ps, j)) => if j >= line.len() || line[j] != 34 {
                None
            } else {
                let q = spec_quote_at(line, j + 1);
                if q >= line.len() {
                    None
                } else {
                    match crate::algorithm::spec_parse_moves(line.subrange(j + 1, q), 0) {
                        None => None,
                        Some(ms) => match spec_clauses5_at(line, q + 1) {
                            None => None,
                            Some(rest) => Some(seq![(ps, ms)] + rest),
                        },
                    }
                }
            },
        }
    }
}

#[via_fn]
proof fn spec_clauses5_at_decreases(line: Seq<u8>, i: int) {
    if 0 <= i && i < line.len() {
        if spec_preds5_at(line, i) is Some {
            lemma_preds5_at_bounds(line, i);
            let j = (spec_preds5_at(line, i)->0).1;
            if j < line.len() && line[j] == 34 {
                lemma_quote_at_bounds(line, j + 1);
            }
        }
    }
}

/// The clause list of a composite entry, read mathematically.
pub open spec fn clauses5_view(cs: Seq<(Vec<(Pos<3>, Pos<2>)>, Alg)>) -> Seq<
    (Seq<(Seq<Face>, Seq<Face>)>, Seq<Move>),
> {
    cs.map_values(
        |cl: (Vec<(Pos<3>, Pos<2>)>, Alg)|
            (cl.0@.map_values(|p: (Pos<3>, Pos<2>)| (p.0@, p.1@)), cl.1@),
    )
}

/// The composite key written in a data line's first five digits.
pub open spec fn spec_key5_of(line: Seq<u8>) -> (Seq<Face>, Seq<Face>) {
    (
        seq![
            Face((line[0] - 48) as u8),
            Face((line[1] - 48) as u8),
            Face((line[2] - 48) as u8),
        ],
        seq![Face((line[3] - 48) as u8), Face((line[4] - 48) as u8)],
    )
}

/// A well-formed composite-format data line: a five-face-digit key,
/// the `:` right after it, readable clauses, and a final clause with
/// no predicates to serve as the default.
pub open spec fn line5_ok(line: Seq<u8>) -> bool {
    &&& spec_colon_at(line, 0) == 5
    &&& 5 < line.len()
    &&& 48 <= line[0] <= 53
    &&& 48 <= line[1] <= 53
    &&& 48 <= line[2] <= 53
    &&& 48 <= line[3] <= 53
    &&& 48 <= line[4] <= 53
    &&& spec_clauses5_at(line, 6) matches Some(cs) && cs.len() >= 1 && cs.last().0.len() == 0
}

/// A composite entry's decision list carries exactly its line's
/// clauses, the final clause's moves as the default.
pub open spec fn tern_matches_line5(t: CompositeTern, line: Seq<u8>) -> bool {
    &&& spec_clauses5_at(line, 6) is Some
    &&& clauses5_view(t.spec_clauses()) == spec_clauses5_at(line, 6)->0.drop_last()
    &&& t.spec_default()@ == spec_clauses5_at(line, 6)->0.last().1
}

/// A table of the composite conditional format: corner-and-edge keys,
/// each mapped to a decision list, as the second solving stage uses.
pub struct CompositeTable {
    pub entries: Vec<((Pos<3>, Pos<2>), CompositeTern)>,
}

impl CompositeTable {
    /// Distinct well-formed keys, well-formed decision lists.
    pub open spec fn wf(self) -> bool {
        &&& forall|i: int, j: int|
            #![trigger self.entries@[i], self.entries@[j]]
            0 <= i < self.entries@.len() && 0 <= j < self.entries@.len() && i != j ==> (
            self.entries@[i].0.0@,
            self.entries@[i].0.1@,
            ) != (self.entries@[j].0.0@, self.entries@[j].0.1@)
        &&& forall|i: int| 0 <= i < self.entries@.len() ==> tern5_wf((#[trigger] self.entries@[i]).1)
    }

    pub fn len(&self) -> (r: usize)
        ensures
            r == self.entries@.len(),
    {
        self.entries.len()
    }

    /// Whether some entry carries exactly this composite key.
    pub fn has_key(&self, corner: Pos<3>, edge: Pos<2>) -> (r: bool)
        ensures
            r == exists|i: int|
                0 <= i < self.entries@.len() && ((#[trigger] self.entries@[i]).0.0@,
                self.entries@[i].0.1@,
                ) == (corner@, edge@),
    {
        let n = self.entries.len();
        let mut i: usize = 0;
        while i < n
            invariant
                0 <= i <= n,
                n == self.entries@.len(),
                forall|k: int|
                    0 <= k < i ==> ((#[trigger] self.entries@[k]).0.0@, self.entries@[k].0.1@) != (
                    corner@,
                    edge@,
                    ),
            decreases n - i,
        {
            if self.entries[i].0.0 == corner && self.entries[i].0.1 == edge {
                return true;
            }
            proof {
                if (self.entries@[i as int].0.0@, self.entries@[i as int].0.1@) == (
                    corner@,
                    edge@,
                ) {
                    assert(self.entries@[i as int].0.0.0 =~= corner.0);
                    assert(self.entries@[i as int].0.1.0 =~= edge.0);
                }
            }
            i += 1;
        }
        false
    }
}

/// Five face digits read as a corner-and-edge composite position.
fn parse_block5(line: &[u8], at: usize) -> (r: Option<(Pos<3>, Pos<2>)>)
    requires
        at + 5 <= line@.len(),
    ensures
        match r {
            Some(p) => {
                &&& p.0@ == seq![
                    Face((line@[at as int] - 48) as u8),
                    Face((line@[at as int + 1] - 48) as u8),
                    Face((line@[at as int + 2] - 48) as u8),
                ]
                &&& p.1@ == seq![
                    Face((line@[at as int + 3] - 48) as u8),
                    Face((line@[at as int + 4] - 48) as u8),
                ]
                &&& 48 <= line@[at as int] <= 53
                &&& 48 <= line@[at as int + 1] <= 53
                &&& 48 <= line@[at as int + 2] <= 53
                &&& 48 <= line@[at as int + 3] <= 53
                &&& 48 <= line@[at as int + 4] <= 53
            },
            None => !(48 <= line@[at as int] <= 53) || !(48 <= line@[at as int + 1] <= 53) || !(48
                <= line@[at as int + 2] <= 53) || !(48 <= line@[at as int + 3] <= 53) || !(48
                <= line@[at as int + 4] <= 53),
        },
{
    let b0 = line[at];
    let b1 = line[at + 1];
    let b2 = line[at + 2];
    let b3 = line[at + 3];
    let b4 = line[at + 4];
    if 48 <= b0 && b0 <= 53 && 48 <= b1 && b1 <= 53 && 48 <= b2 && b2 <= 53 && 48 <= b3 && b3
        <= 53 && 48 <= b4 && b4 <= 53 {
        let corner = Pos([Face(b0 - 48), Face(b1 - 48), Face(b2 - 48)]);
        let edge = Pos([Face(b3 - 48), Face(b4 - 48)]);
        proof {
            assert(corner@ =~= seq![
                Face((line@[at as int] - 48) as u8),
                Face((line@[at as int + 1] - 48) as u8),
                Face((line@[at as int + 2] - 48) as u8),
            ]);
            assert(edge@ =~= seq![
                Face((line@[at as int + 3] - 48) as u8),
                Face((line@[at as int + 4] - 48) as u8),
            ]);
        }
        Some((corner, edge))
    } else {
        None
    }
}

/// Reads the clauses of one composite-format line, from just after the
/// `:` on.
fn parse_clauses5(line: &[u8], start: usize) -> (r: Result<
    Vec<(Vec<(Pos<3>, Pos<2>)>, Alg)>,
    LoadError,
>)
    requires
        start <= line@.len(),
    ensures
        match r {
            Ok(clauses) => Some(clauses5_view(clauses@)) == spec_clauses5_at(line@, start as int)
                && forall|i: int|
                0 <= i < clauses@.len() ==> moves_wf((#[trigger] clauses@[i]).1@),
            Err(e) => spec_clauses5_at(line@, start as int) is None,
        },
{
    let n = line.len();
    let mut clauses: Vec<(Vec<(Pos<3>, Pos<2>)>, Alg)> = Vec::new();
    let mut i: usize = start;
    while i < n
        invariant
            start <= i <= n,
            n == line@.len(),
            forall|k: int| 0 <= k < clauses@.len() ==> moves_wf((#[trigger] clauses@[k]).1@),
            spec_clauses5_at(line@, start as int) == match spec_clauses5_at(line@, i as int) {
                None => None::<Seq<(Seq<(Seq<Face>, Seq<Face>)>, Seq<Move>)>>,
                Some(rest) => Some(clauses5_view(clauses@) + rest),
            },
        decreases n - i,
    {
        let ghost i0 = i as int;
        let mut predicates: Vec<(Pos<3>, Pos<2>)> = Vec::new();
        while i < n && is_digit(line[i])
            invariant
                start <= i0 < n,
                i0 <= i as int <= n,
                n == line@.len(),
                spec_preds5_at(line@, i0) == match spec_preds5_at(line@, i as int) {
                    None => None::<(Seq<(Seq<Face>, Seq<Face>)>, int)>,
                    Some((ps, j)) => Some(
                        (predicates@.map_values(|p: (Pos<3>, Pos<2>)| (p.0@, p.1@)) + ps, j),
                    ),
                },
                spec_clauses5_at(line@, start as int) == match spec_clauses5_at(line@, i0) {
                    None => None::<Seq<(Seq<(Seq<Face>, Seq<Face>)>, Seq<Move>)>>,
                    Some(rest) => Some(clauses5_view(clauses@) + rest),
                },
            decreases n - i,
        {
            if n - i < 5 {
                proof {
                    assert(spec_preds5_at(line@, i as int) is None);
                    assert(spec_preds5_at(line@, i0) is None);
                    assert(spec_clauses5_at(line@, i0) is None);
                }
                return Err(LoadError::BadPredicate);
            }
            match parse_block5(line, i) {
                Some(p) => {
                    let ghost pv = predicates@.map_values(|q: (Pos<3>, Pos<2>)| (q.0@, q.1@));
                    let ghost block = (p.0@, p.1@);
                    predicates.push(p);
                    proof {
                        assert(predicates@.map_values(|q: (Pos<3>, Pos<2>)| (q.0@, q.1@)) =~= pv
                            + seq![block]);
                        if spec_preds5_at(line@, i + 5) is Some {
                            let (ps, j) = spec_preds5_at(line@, i + 5)->0;
                            assert((pv + seq![block]) + ps =~= pv + (seq![block] + ps));
                        }
                    }
                },
                None => {
                    proof {
                        assert(spec_preds5_at(line@, i as int) is None);
                        assert(spec_preds5_at(line@, i0) is None);
                        assert(spec_clauses5_at(line@, i0) is None);
                    }
                    return Err(LoadError::BadPredicate);
                },
            }
            i += 5;
        }
        proof {
            assert(spec_preds5_at(line@, i as int) == Some(
                (Seq::<(Seq<Face>, Seq<Face>)>::empty(), i as int),
            ));
            assert(predicates@.map_values(|p: (Pos<3>, Pos<2>)| (p.0@, p.1@)) + Seq::<
                (Seq<Face>, Seq<Face>),
            >::empty() =~= predicates@.map_values(|p: (Pos<3>, Pos<2>)| (p.0@, p.1@)));
        }
        if i >= n || line[i] != 34 {
            proof {
                assert(spec_clauses5_at(line@, i0) is None);
            }
            return Err(LoadError::UnterminatedAlgorithm);
        }
        let close = match find_quote(line, i + 1) {
            Some(c) => c,
            None => {
                proof {
                    lemma_quote_at_determined(line@, i + 1, n as int);
                    assert(spec_clauses5_at(line@, i0) is None);
                }
                return Err(LoadError::UnterminatedAlgorithm);
            },
        };
        proof {
            lemma_quote_at_determined(line@, i + 1, close as int);
        }
        let text = slice_subrange(line, i + 1, close);
        let alg = match Alg::parse(text) {
            Some(a) => a,
            None => {
                proof {
                    assert(spec_clauses5_at(line@, i0) is None);
                }
                return Err(LoadError::BadMove);
            },
        };
        let ghost cv = clauses5_view(clauses@);
        let ghost pv = predicates@.map_values(|p: (Pos<3>, Pos<2>)| (p.0@, p.1@));
        clauses.push((predicates, alg));
        proof {
            assert(clauses5_view(clauses@) =~= cv + seq![(pv, alg@)]);
            if spec_clauses5_at(line@, close + 1) is Some {
                let rest = spec_clauses5_at(line@, close + 1)->0;
                assert((cv + seq![(pv, alg@)]) + rest =~= cv + (seq![(pv, alg@)] + rest));
            }
        }
        i = close + 1;
    }
    proof {
        assert(spec_clauses5_at(line@, i as int) == Some(
            Seq::<(Seq<(Seq<Face>, Seq<Face>)>, Seq<Move>)>::empty(),
        ));
        assert(clauses5_view(clauses@) + Seq::<(Seq<(Seq<Face>, Seq<Face>)>, Seq<Move>)>::empty()
            =~= clauses5_view(clauses@));
    }
    Ok(clauses)
}

/// Loads a composite conditional-format table: like the two-digit
/// loader, but each key and predicate is five face digits naming a
/// corner and an edge together, as the second solving stage keys its
/// data.  Loading succeeds exactly when every data line is well-formed
/// and no two share a key.
pub fn load1_composite(lines: &Vec<Vec<u8>>) -> (r: Result<CompositeTable, LoadError>)
    ensures
        r is Ok <==> ({
            let data = spec_data_lines(lines@.map_values(|l: Vec<u8>| l@), 0);
            &&& forall|k: int| 0 <= k < data.len() ==> line5_ok(#[trigger] data[k])
            &&& forall|k1: int, k2: int|
                0 <= k1 < data.len() && 0 <= k2 < data.len() && k1 != k2 ==> spec_key5_of(
                    #[trigger] data[k1],
                ) != spec_key5_of(#[trigger] data[k2])
        }),
        r matches Ok(t) ==> {
            let data = spec_data_lines(lines@.map_values(|l: Vec<u8>| l@), 0);
            &&& t.wf()
            &&& t.entries@.len() == data.len()
            &&& forall|k: int|
                0 <= k < t.entries@.len() ==> ((#[trigger] t.entries@[k]).0.0@,
                t.entries@[k].0.1@,
                ) == spec_key5_of(data[k])
            &&& forall|k: int|
                0 <= k < t.entries@.len() ==> tern_matches_line5(
                    (#[trigger] t.entries@[k]).1,
                    data[k],
                )
        },
{
    let ghost full = spec_data_lines(lines@.map_values(|l: Vec<u8>| l@), 0);
    let ghost lvs = lines@.map_values(|l: Vec<u8>| l@);
    let mut table = CompositeTable { entries: Vec::new() };
    let n = lines.len();
    let mut li: usize = 0;
    proof {
        assert(full.skip(0) =~= full);
    }
    while li < n
        invariant_except_break
            table.entries@.len() <= full.len(),
            full.skip(table.entries@.len() as int) == spec_data_lines(lvs, li as int),
        invariant
            0 <= li <= n,
            n == lines@.len(),
            lvs == lines@.map_values(|l: Vec<u8>| l@),
            full == spec_data_lines(lvs, 0),
            table.wf(),
            forall|k: int|
                0 <= k < table.entries@.len() ==> ((#[trigger] table.entries@[k]).0.0@,
                table.entries@[k].0.1@,
                ) == spec_key5_of(full[k]),
            forall|k: int| 0 <= k < table.entries@.len() ==> line5_ok(#[trigger] full[k]),
            forall|k: int|
                0 <= k < table.entries@.len() ==> tern_matches_line5(
                    (#[trigger] table.entries@[k]).1,
                    full[k],
                ),
        ensures
            table.wf(),
            table.entries@.len() == full.len(),
            forall|k: int|
                0 <= k < table.entries@.len() ==> ((#[trigger] table.entries@[k]).0.0@,
                table.entries@[k].0.1@,
                ) == spec_key5_of(full[k]),
            forall|k: int| 0 <= k < full.len() ==> line5_ok(#[trigger] full[k]),
            forall|k: int|
                0 <= k < table.entries@.len() ==> tern_matches_line5(
                    (#[trigger] table.entries@[k]).1,
                    full[k],
                ),
        decreases n - li,
    {
        let line: &Vec<u8> = &lines[li];
        let ghost li0 = li as int;
        let ghost ne = table.entries@.len() as int;
        proof {
            assert(lvs[li0] == line@);
        }
        li += 1;
        if line.len() == 3 && line[0] == 47 && line[1] == 47 && line[2] == 47 {
            proof {
                assert(is_terminator(lvs[li0]));
                assert(spec_data_lines(lvs, li0) =~= Seq::<Seq<u8>>::empty());
                assert(full.skip(table.entries@.len() as int).len() == 0);
                assert(table.entries@.len() == full.len());
            }
            break;
        }
        if line.len() >= 2 && line[0] == 47 && line[1] == 47 {
            proof {
                assert(is_comment(lvs[li0]));
                assert(spec_data_lines(lvs, li0) == spec_data_lines(lvs, li0 + 1));
            }
            continue;
        }
        proof {
            assert(!is_terminator(lvs[li0]) && !is_comment(lvs[li0]));
            assert(spec_data_lines(lvs, li0) == seq![lvs[li0]] + spec_data_lines(lvs, li0 + 1));
            assert(full.skip(ne)[0] == full[ne]);
            assert(full[ne] == lvs[li0]);
            assert(ne < full.len());
            assert(full.skip(ne).skip(1) =~= full.skip(ne + 1));
        }
        let colon = match find_colon(line.as_slice()) {
            Some(c) => c,
            None => {
                proof {
                    lemma_colon_at_determined(line@, 0, line@.len() as int);
                    assert(!line5_ok(full[ne]));
                }
                return Err(LoadError::MissingSeparator);
            },
        };
        proof {
            lemma_colon_at_determined(line@, 0, colon as int);
        }
        if colon != 5 {
            proof {
                assert(!line5_ok(full[ne]));
            }
            return Err(LoadError::BadKey);
        }
        let (corner, edge) = match parse_block5(line.as_slice(), 0) {
            Some(p) => p,
            None => {
                proof {
                    assert(!line5_ok(full[ne]));
                }
                return Err(LoadError::BadKey);
            },
        };
        proof {
            assert((corner@, edge@) == spec_key5_of(line@));
        }
        let mut clauses = match parse_clauses5(line.as_slice(), colon + 1) {
            Ok(c) => c,
            Err(e) => {
                proof {
                    assert(spec_clauses5_at(line@, 6) is None);
                    assert(!line5_ok(full[ne]));
                }
                return Err(e);
            },
        };
        let ghost cs = spec_clauses5_at(line@, 6)->0;
        proof {
            assert(clauses5_view(clauses@) == cs);
        }
        if clauses.len() == 0 {
            proof {
                assert(cs.len() == 0);
                assert(!line5_ok(full[ne]));
            }
            return Err(LoadError::MissingDefault);
        }
        let ghost cv = clauses@;
        let (last_preds, default) = clauses.pop().unwrap();
        if last_preds.len() > 0 {
            proof {
                assert(cs.last() == clauses5_view(cv).last());
                assert(cs.last().0.len() > 0);
                assert(!line5_ok(full[ne]));
            }
            return Err(LoadError::MissingDefault);
        }
        proof {
            assert(clauses@ =~= cv.take(cv.len() - 1));
            assert(cs.last() == clauses5_view(cv).last());
            assert(line5_ok(full[ne]));
        }
        let tern = Tern::new(clauses, default);
        if table.has_key(corner, edge) {
            proof {
                let j = choose|j: int|
                    0 <= j < table.entries@.len() && ((#[trigger] table.entries@[j]).0.0@,
                    table.entries@[j].0.1@,
                    ) == (corner@, edge@);
                assert(spec_key5_of(full[j]) == (corner@, edge@));
                assert((corner@, edge@) == spec_key5_of(full[ne]));
            }
            return Err(LoadError::DuplicateKey);
        }
        let ghost before = table.entries@;
        table.entries.push(((corner, edge), tern));
        proof {
            assert(forall|k: int|
                0 <= k < before.len() ==> table.entries@[k] == (#[trigger] before[k]));
            assert(tern5_wf(tern));
            assert((table.entries@[before.len() as int].0.0@,
            table.entries@[before.len() as int].0.1@,
            ) == spec_key5_of(lvs[li0]));
            assert(clauses5_view(tern.spec_clauses()) =~= cs.drop_last());
            assert(tern.spec_default()@ == cs.last().1);
            assert(tern_matches_line5(tern, full[ne]));
        }
    }
    proof {
        assert(full.skip(table.entries@.len() as int).len() == full.len()
            - table.entries@.len());
        assert forall|k1: int, k2: int|
            0 <= k1 < full.len() && 0 <= k2 < full.len() && k1 != k2 implies spec_key5_of(
            #[trigger] full[k1],
        ) != spec_key5_of(#[trigger] full[k2]) by {
            assert((table.entries@[k1].0.0@, table.entries@[k1].0.1@) == spec_key5_of(full[k1]));
            assert((table.entries@[k2].0.0@, table.entries@[k2].0.1@) == spec_key5_of(full[k2]));
        }
    }
    Ok(table)
}

} // verus!
