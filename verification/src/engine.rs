//! The generation engine: the machine of the derivation model, step by step,
//! on a compiled grammar and a cursor over the entropy bytes.

use crate::cursor::EntropyCursor;
use crate::derivation::{
    checkpoint_collides, choice_index, choice_width, collides, cut, ends_with_at, find_weights,
    first_collision, forbids_nothing, initial, kind_of, literals_of, markers, nth_code, perturb,
    span, step_budget, Checkpoint, Outcome, State, Tables, MAX_RETRIES, STEPS_PER_UNIT,
    SUBSTITUTE,
};
use crate::engine_laws::{
    constrained, lemma_first_collision_none, lemma_out_of_reach, lemma_step_constrained_next,
    ordered,
};
use crate::error::GenError;
use crate::generator::{find_symbol, lemma_find_symbol_found};
use crate::language::unwind;
use crate::parser::{row_symbols, NoirParser};
use crate::rules::{
    alternatives_of, lemma_beyond_span, lemma_positions_sound, owners, positions, row_view,
};
use crate::symbol::SymbolKind;
use crate::text::{char_from_code, is_scalar};
use vstd::prelude::*;

verus! {

/// A checkpoint as the engine holds it.
pub(crate) struct Mark {
    pub(crate) at: usize,
    pub(crate) work: Vec<u32>,
    pub(crate) marker: u32,
    pub(crate) attempts: u32,
}

impl View for Mark {
    type V = Checkpoint;

    closed spec fn view(&self) -> Checkpoint {
        Checkpoint {
            at: self.at as int,
            work: self.work@,
            marker: self.marker,
            attempts: self.attempts as int,
        }
    }
}

/// The state of a derivation as the engine holds it.
pub(crate) struct Machine<'a> {
    pub(crate) work: Vec<u32>,
    pub(crate) out: Vec<char>,
    pub(crate) cursor: EntropyCursor<'a>,
    pub(crate) salt: u64,
    pub(crate) marks: Vec<Mark>,
}

impl<'a> View for Machine<'a> {
    type V = State;

    closed spec fn view(&self) -> State {
        State {
            work: self.work@,
            out: self.out@,
            position: self.cursor.spec_position(),
            salt: self.salt,
            checkpoints: self.marks@.map_values(|m: Mark| m@),
        }
    }
}

/// Whether what a step of the engine returned and left behind is what the
/// model's step leads to.
pub(crate) closed spec fn step_agrees(
    outcome: Outcome,
    r: Option<Result<Vec<char>, GenError>>,
    after: State,
) -> bool {
    match outcome {
        Outcome::Next(st) => r is None && after == st,
        Outcome::Done(Ok(d)) => r is Some && r->Some_0 is Ok && r->Some_0->Ok_0@ == d.text,
        Outcome::Done(Err(e)) => r == Some(Err::<Vec<char>, GenError>(e)),
    }
}

/// A copy of a list of symbols.
fn copy_symbols(v: &Vec<u32>) -> (r: Vec<u32>)
    ensures
        r@ == v@,
{
    let mut r: Vec<u32> = Vec::new();
    let mut i: usize = 0;
    while i < v.len()
        invariant
            i <= v.len(),
            r@ == v@.take(i as int),
        decreases v.len() - i,
    {
        r.push(v[i]);
        assert(r@ =~= v@.take(i + 1));
        i += 1;
    }
    assert(v@.take(v@.len() as int) =~= v@);
    r
}

/// Whether `literal` stands in `out` from `at` to the end of `out`.
fn ends_with(out: &Vec<char>, at: usize, literal: &Vec<char>) -> (b: bool)
    ensures
        b == ends_with_at(out@, at as int, literal@),
{
    if at > out.len() || out.len() - at != literal.len() {
        return false;
    }
    let mut i: usize = 0;
    while i < literal.len()
        invariant
            i <= literal.len(),
            at + literal.len() == out.len(),
            forall|j: int| 0 <= j < i ==> out@[at + j] == literal@[j],
        decreases literal.len() - i,
    {
        if out[at + i] != literal[i] {
            assert(out@.subrange(at as int, at + literal@.len())[i as int] != literal@[i as int]);
            return false;
        }
        i += 1;
    }
    assert(out@.subrange(at as int, at + literal@.len()) =~= literal@);
    true
}

/// A draw `v` below `n`, shifted by the salt.
fn shifted(v: u64, salt: u64, n: u64) -> (r: u64)
    requires
        n > 0,
        v < n,
    ensures
        r == perturb(v as int, salt, n as int),
        r < n,
{
    let shift = salt % n;
    if v >= n - shift {
        v - (n - shift)
    } else {
        v + shift
    }
}

impl NoirParser {
    /// The positions of the productions that `sym` owns.
    pub(crate) fn alternatives_row(&self, sym: u32) -> (row: Option<&Vec<usize>>)
        ensures
            match row {
                Some(r) => {
                    &&& row_view(*r) == alternatives_of(self@.rules, sym as int)
                    &&& r@.len() == alternatives_of(self@.rules, sym as int).len()
                    &&& forall|j: int| 0 <= j < r@.len() ==> (#[trigger] r@[j]) < self@.rules.len()
                },
                None => alternatives_of(self@.rules, sym as int).len() == 0,
            },
    {
        proof {
            use_type_invariant(self);
            self.lemma_tables();
            lemma_positions_sound(owners(self@.rules), sym as int, self@.rules.len() as int);
        }
        if (sym as usize) < self.alternatives.len() {
            let row = &self.alternatives[sym as usize];
            proof {
                assert(row_view(*row).len() == row@.len());
                assert forall|j: int| 0 <= j < row@.len() implies (#[trigger] row@[j])
                    < self@.rules.len() by {
                    assert(row_view(*row)[j] == row@[j]);
                }
            }
            Some(row)
        } else {
            proof {
                lemma_beyond_span(owners(self@.rules), sym as int);
            }
            None
        }
    }

    /// The positions of the constraints on the marker `sym`.
    fn constraints_row(&self, sym: u32) -> (row: Option<&Vec<usize>>)
        ensures
            match row {
                Some(r) => {
                    &&& row_view(*r) == literals_of(self@.negative_rules, sym as int)
                    &&& r@.len() == literals_of(self@.negative_rules, sym as int).len()
                    &&& forall|j: int|
                        0 <= j < r@.len() ==> (#[trigger] r@[j]) < self@.negative_rules.len()
                },
                None => literals_of(self@.negative_rules, sym as int).len() == 0,
            },
    {
        proof {
            use_type_invariant(self);
            self.lemma_tables();
            lemma_positions_sound(
                markers(self@.negative_rules),
                sym as int,
                self@.negative_rules.len() as int,
            );
        }
        if (sym as usize) < self.constraints.len() {
            let row = &self.constraints[sym as usize];
            proof {
                assert(row_view(*row).len() == row@.len());
                assert forall|j: int| 0 <= j < row@.len() implies (#[trigger] row@[j])
                    < self@.negative_rules.len() by {
                    assert(row_view(*row)[j] == row@[j]);
                }
            }
            Some(row)
        } else {
            proof {
                lemma_beyond_span(markers(self@.negative_rules), sym as int);
            }
            None
        }
    }

    /// The kind of `sym`.
    pub(crate) fn kind(&self, sym: u32) -> (kind: SymbolKind)
        ensures
            kind == kind_of(self@.syms, sym),
    {
        proof {
            use_type_invariant(self);
            self.lemma_tables();
        }
        if (sym as usize) < self.kinds.len() {
            self.kinds[sym as usize]
        } else {
            proof {
                let syms = self@.syms;
                lemma_find_symbol_found(syms, sym, syms.len() as int);
                if let Some(i) = find_symbol(syms, sym, syms.len() as int) {
                    assert(row_symbols(syms)[i] == sym);
                    crate::rules::lemma_max_key_bounds(row_symbols(syms), syms.len() as int);
                }
            }
            SymbolKind::Nonterminal
        }
    }

    /// Whether one of the constraints in `row` forbids the empty text.
    fn forbids_nothing(&self, row: &Vec<usize>) -> (b: bool)
        requires
            forall|j: int|
                0 <= j < row@.len() ==> (#[trigger] row@[j]) < self@.negative_rules.len(),
        ensures
            b == forbids_nothing(self@.negative_rules, row_view(*row), row@.len() as int),
    {
        proof {
            use_type_invariant(self);
            self.lemma_tables();
        }
        let mut k: usize = 0;
        while k < row.len()
            invariant
                k <= row.len(),
                self.literals@.len() == self@.negative_rules.len(),
                forall|i: int|
                    0 <= i < self.literals@.len() ==> (#[trigger] self.literals@[i])@
                        == self@.negative_rules[i].1,
                forall|j: int|
                    0 <= j < row@.len() ==> (#[trigger] row@[j]) < self@.negative_rules.len(),
                !forbids_nothing(self@.negative_rules, row_view(*row), k as int),
            decreases row.len() - k,
        {
            let i = row[k];
            assert(row_view(*row)[k as int] == i);
            assert(self@.negative_rules[i as int].1 == self.literals@[i as int]@);
            if self.literals[i].len() == 0 {
                proof {
                    lemma_forbids_nothing_stable(
                        self@.negative_rules,
                        row_view(*row),
                        k + 1,
                        row@.len() as int,
                    );
                }
                return true;
            }
            k += 1;
        }
        false
    }

    /// Whether the text from `at` to the end of `out` breaks a constraint in
    /// `row`.
    fn collides(&self, row: &Vec<usize>, at: usize, out: &Vec<char>) -> (b: bool)
        requires
            forall|j: int|
                0 <= j < row@.len() ==> (#[trigger] row@[j]) < self@.negative_rules.len(),
        ensures
            b == collides(self@.negative_rules, row_view(*row), at as int, out@, row@.len() as int),
    {
        proof {
            use_type_invariant(self);
            self.lemma_tables();
        }
        let mut k: usize = 0;
        while k < row.len()
            invariant
                k <= row.len(),
                self.literals@.len() == self@.negative_rules.len(),
                forall|i: int|
                    0 <= i < self.literals@.len() ==> (#[trigger] self.literals@[i])@
                        == self@.negative_rules[i].1,
                forall|j: int|
                    0 <= j < row@.len() ==> (#[trigger] row@[j]) < self@.negative_rules.len(),
                !collides(self@.negative_rules, row_view(*row), at as int, out@, k as int),
            decreases row.len() - k,
        {
            let i = row[k];
            assert(row_view(*row)[k as int] == i);
            assert(self@.negative_rules[i as int].1 == self.literals@[i as int]@);
            if ends_with(out, at, &self.literals[i]) {
                proof {
                    lemma_collides_stable(
                        self@.negative_rules,
                        row_view(*row),
                        at as int,
                        out@,
                        k + 1,
                        row@.len() as int,
                    );
                }
                return true;
            }
            k += 1;
        }
        false
    }

    /// The oldest checkpoint with a constraint that the end of the text
    /// breaks.
    fn first_collision(&self, m: &Machine<'_>) -> (r: Option<usize>)
        requires
            ordered(m@.checkpoints, m@.out),
        ensures
            match r {
                Some(i) => first_collision(
                    self@,
                    m@.checkpoints,
                    m@.out,
                    m@.checkpoints.len() as int,
                ) == Some(i as int) && i < m.marks@.len(),
                None => first_collision(self@, m@.checkpoints, m@.out, m@.checkpoints.len() as int)
                    is None,
            },
    {
        proof {
            use_type_invariant(self);
            self.lemma_tables();
        }
        // Only the checkpoints that the longest literal reaches back to can
        // collide, and they are the last ones.
        let mut i: usize = m.marks.len();
        let mut within = true;
        while within && i > 0
            invariant
                i <= m.marks.len(),
                m@.checkpoints == m.marks@.map_values(|k: Mark| k@),
                m@.out == m.out@,
                ordered(m@.checkpoints, m@.out),
                !within ==> i > 0 && m.marks@[i - 1].at + self.reach < m.out@.len(),
            decreases i + if within { 1int } else { 0int },
        {
            assert(m@.checkpoints[i - 1] == m.marks@[i - 1]@);
            if m.out.len() - m.marks[i - 1].at <= self.reach {
                i -= 1;
            } else {
                within = false;
            }
        }
        proof {
            assert forall|k: int| 0 <= k < i implies !checkpoint_collides(
                self@,
                #[trigger] m@.checkpoints[k],
                m@.out,
            ) by {
                assert(m@.checkpoints[i - 1] == m.marks@[i - 1]@);
                assert(m@.checkpoints[k].at <= m@.checkpoints[i - 1].at);
                lemma_out_of_reach(self@, m@.checkpoints[k], m@.out, self.reach as int);
            }
            lemma_first_collision_none(self@, m@.checkpoints, m@.out, i as int);
        }
        while i < m.marks.len()
            invariant
                i <= m.marks.len(),
                m@.checkpoints == m.marks@.map_values(|k: Mark| k@),
                m@.out == m.out@,
                first_collision(self@, m@.checkpoints, m@.out, i as int) is None,
            decreases m.marks.len() - i,
        {
            let mark = &m.marks[i];
            assert(m@.checkpoints[i as int] == mark@);
            let hit = match self.constraints_row(mark.marker) {
                Some(row) => self.collides(row, mark.at, &m.out),
                None => false,
            };
            assert(hit == checkpoint_collides(self@, mark@, m@.out));
            if hit {
                proof {
                    lemma_first_collision_stable(
                        self@,
                        m@.checkpoints,
                        m@.out,
                        i + 1,
                        m@.checkpoints.len() as int,
                    );
                }
                return Some(i);
            }
            i += 1;
        }
        None
    }
}

/// Once an empty literal is found among the first `k` constraints, it is
/// found among any more.
pub proof fn lemma_forbids_nothing_stable(
    negative_rules: Seq<(u32, Seq<char>)>,
    lits: Seq<int>,
    k: int,
    m: int,
)
    requires
        k <= m,
        forbids_nothing(negative_rules, lits, k),
    ensures
        forbids_nothing(negative_rules, lits, m),
    decreases m - k,
{
    if k < m {
        lemma_forbids_nothing_stable(negative_rules, lits, k, m - 1);
    }
}

/// Once a broken constraint is found among the first `k`, it is found among
/// any more.
pub proof fn lemma_collides_stable(
    negative_rules: Seq<(u32, Seq<char>)>,
    lits: Seq<int>,
    at: int,
    out: Seq<char>,
    k: int,
    m: int,
)
    requires
        k <= m,
        collides(negative_rules, lits, at, out, k),
    ensures
        collides(negative_rules, lits, at, out, m),
    decreases m - k,
{
    if k < m {
        lemma_collides_stable(negative_rules, lits, at, out, k, m - 1);
    }
}

/// Once a collision is found among the first `n` checkpoints, the same one is
/// found among any more.
pub proof fn lemma_first_collision_stable(
    t: Tables,
    checkpoints: Seq<Checkpoint>,
    out: Seq<char>,
    n: int,
    m: int,
)
    requires
        n <= m,
        first_collision(t, checkpoints, out, n) is Some,
    ensures
        first_collision(t, checkpoints, out, m) == first_collision(t, checkpoints, out, n),
    decreases m - n,
{
    if n < m {
        lemma_first_collision_stable(t, checkpoints, out, n, m - 1);
    }
}

impl NoirParser {
    /// The step for the lookahead marker `sym`, which was taken off the work.
    fn pass_marker(&self, m: &mut Machine<'_>, sym: u32, row: &Vec<usize>) -> (r: Option<
        Result<Vec<char>, GenError>,
    >)
        requires
            row_view(*row) == literals_of(self@.negative_rules, sym as int),
            forall|j: int|
                0 <= j < row@.len() ==> (#[trigger] row@[j]) < self@.negative_rules.len(),
        ensures
            final(m).cursor.buffer() == old(m).cursor.buffer(),
            step_agrees(self@.pass_marker(old(m)@, sym, old(m)@.work), r, final(m)@),
    {
        assert(row_view(*row).len() == row@.len());
        if self.forbids_nothing(row) {
            return Some(Err(GenError::NegativeConstraintUnsatisfiable));
        }
        let mark = Mark { at: m.out.len(), work: copy_symbols(&m.work), marker: sym, attempts: 0 };
        m.marks.push(mark);
        proof {
            assert(m@.checkpoints =~= old(m)@.checkpoints.push(mark@));
        }
        None
    }

    /// The step after a collision at checkpoint `i`.
    fn retry(&self, m: &mut Machine<'_>, i: usize) -> (r: Option<Result<Vec<char>, GenError>>)
        requires
            i < old(m)@.checkpoints.len(),
        ensures
            final(m).cursor.buffer() == old(m).cursor.buffer(),
            step_agrees(
                self@.retry(old(m)@, old(m)@.out, old(m)@.position, i as int),
                r,
                final(m)@,
            ),
    {
        assert(m@.checkpoints.len() == m.marks@.len());
        assert(m@.checkpoints[i as int] == m.marks@[i as int]@);
        if m.marks[i].attempts >= MAX_RETRIES {
            return Some(Err(GenError::NegativeConstraintUnsatisfiable));
        }
        let ghost before = m.marks@;
        let held = m.marks.len();
        assert(i < held);
        m.marks.truncate(i + 1);
        let popped = m.marks.pop();
        match popped {
            None => {
                assert(false);
            },
            Some(mark) => {
                let mut mark = mark;
                assert(mark == before[i as int]);
                mark.attempts = mark.attempts + 1;
                m.out.truncate(mark.at);
                m.work = copy_symbols(&mark.work);
                m.marks.push(mark);
                m.salt = if m.salt == u64::MAX {
                    0
                } else {
                    m.salt + 1
                };
                proof {
                    let c = old(m)@.checkpoints[i as int];
                    assert(m@.checkpoints =~= old(m)@.checkpoints.take(i as int).push(
                        Checkpoint { attempts: c.attempts + 1, ..c },
                    ));
                    assert(m@.out =~= cut(old(m)@.out, c.at));
                }
            },
        }
        None
    }

    /// The step that emits `ch`, after the work and the cursor have moved on.
    fn emit(&self, m: &mut Machine<'_>, limit: Option<u64>, ch: char) -> (r: Option<
        Result<Vec<char>, GenError>,
    >)
        requires
            ordered(old(m)@.checkpoints, old(m)@.out),
        ensures
            final(m).cursor.buffer() == old(m).cursor.buffer(),
            step_agrees(
                self@.emit(limit, old(m)@, old(m)@.work, ch, old(m)@.position),
                r,
                final(m)@,
            ),
    {
        match limit {
            Some(l) => {
                if m.out.len() as u64 >= l {
                    return Some(Err(GenError::SizeLimitExceeded));
                }
            },
            None => {},
        }
        m.out.push(ch);
        match self.first_collision(m) {
            None => None,
            Some(i) => {
                let ghost mid = m@;
                let r = self.retry(m, i);
                proof {
                    let st = old(m)@;
                    assert(mid.checkpoints == st.checkpoints);
                    assert(self@.retry(mid, mid.out, mid.position, i as int) == self@.retry(
                        st,
                        st.out.push(ch),
                        st.position,
                        i as int,
                    ));
                }
                r
            },
        }
    }

    /// The character number `v` from `lo` on.
    fn nth_char(lo: char, hi: char, v: u64) -> (c: char)
        requires
            v < span(lo, hi),
        ensures
            c == nth_code(lo, v as int) as char,
            is_scalar(nth_code(lo, v as int)),
            lo <= hi ==> lo <= c <= hi,
    {
        let base = lo as u32;
        let code: u32 = if base < 0xD800 && base + v as u32 >= 0xD800 {
            base + v as u32 + 0x800
        } else {
            base + v as u32
        };
        match char_from_code(code) {
            Some(c) => c,
            None => lo,
        }
    }

    /// The step for the terminal `sym`, which was taken off the work.
    fn expand_terminal(&self, m: &mut Machine<'_>, limit: Option<u64>, sym: u32) -> (r: Option<
        Result<Vec<char>, GenError>,
    >)
        requires
            ordered(old(m)@.checkpoints, old(m)@.out),
        ensures
            final(m).cursor.buffer() == old(m).cursor.buffer(),
            step_agrees(
                self@.expand_terminal(
                    old(m).cursor.buffer(),
                    limit,
                    old(m)@,
                    sym,
                    old(m)@.work,
                ),
                r,
                final(m)@,
            ),
    {
        match self.kind(sym) {
            SymbolKind::Null => None,
            SymbolKind::Single(c) => self.emit(m, limit, c),
            SymbolKind::Range(lo, hi) => {
                let n: u64 = if hi < lo {
                    1
                } else if (lo as u32) < 0xD800 && (hi as u32) >= 0xE000 {
                    (hi as u32 - lo as u32 + 1 - 0x800) as u64
                } else {
                    (hi as u32 - lo as u32 + 1) as u64
                };
                let drawn = m.cursor.draw_bounded(n);
                let v = shifted(drawn, m.salt, n);
                let ch = Self::nth_char(lo, hi, v);
                let ghost mid = m@;
                let r = self.emit(m, limit, ch);
                proof {
                    let st = old(m)@;
                    assert(self@.emit(limit, mid, mid.work, ch, mid.position) == self@.emit(
                        limit,
                        st,
                        st.work,
                        ch,
                        mid.position,
                    ));
                }
                r
            },
            SymbolKind::Nonterminal => self.emit(m, limit, SUBSTITUTE),
        }
    }

    /// The weights recorded for the choice symbol `sym`.
    fn find_weights(&self, sym: u32) -> (r: Option<usize>)
        ensures
            match r {
                Some(i) => find_weights(self@.weights, sym, self@.weights.len() as int) == Some(
                    i as int,
                ) && i < self.weights@.len() && self.weights@ == self@.weights,
                None => find_weights(self@.weights, sym, self@.weights.len() as int) is None,
            },
    {
        proof {
            use_type_invariant(self);
            self.lemma_tables();
        }
        let mut i: usize = 0;
        while i < self.weights.len()
            invariant
                i <= self.weights.len(),
                self.weights@ == self@.weights,
                find_weights(self@.weights, sym, i as int) is None,
            decreases self.weights.len() - i,
        {
            if self.weights[i].symbol == sym {
                proof {
                    lemma_find_weights_stable(
                        self@.weights,
                        sym,
                        i + 1,
                        self@.weights.len() as int,
                    );
                }
                return Some(i);
            }
            i += 1;
        }
        None
    }

    /// Puts the symbols of production `p` on the work, the last one first.
    fn unwind(&self, m: &mut Machine<'_>, p: usize)
        requires
            p < self@.rules.len(),
        ensures
            final(m)@ == (State {
                work: unwind(
                    old(m)@.work,
                    self@.rules[p as int].1,
                    self@.rules[p as int].1.len() as int,
                ),
                ..old(m)@
            }),
            final(m).cursor == old(m).cursor,
    {
        proof {
            use_type_invariant(self);
            self.lemma_tables();
        }
        let rhs = &self.rules[p].rhs;
        assert(self@.rules[p as int].1 == rhs@);
        let mut k: usize = rhs.len();
        while k > 0
            invariant
                k <= rhs.len(),
                unwind(old(m)@.work, rhs@, rhs@.len() as int) == unwind(m@.work, rhs@, k as int),
                m@ == (State { work: m@.work, ..old(m)@ }),
                m.cursor == old(m).cursor,
            decreases k,
        {
            m.work.push(rhs[k - 1]);
            k -= 1;
        }
    }

    /// The step for the nonterminal `sym`, which was taken off the work.
    fn expand_nonterminal(&self, m: &mut Machine<'_>, sym: u32, row: &Vec<usize>) -> (r: Option<
        Result<Vec<char>, GenError>,
    >)
        requires
            row_view(*row) == alternatives_of(self@.rules, sym as int),
            row@.len() > 0,
            forall|j: int| 0 <= j < row@.len() ==> (#[trigger] row@[j]) < self@.rules.len(),
        ensures
            final(m).cursor.buffer() == old(m).cursor.buffer(),
            step_agrees(
                self@.expand_nonterminal(old(m).cursor.buffer(), old(m)@, sym, old(m)@.work),
                r,
                final(m)@,
            ),
    {
        assert(row_view(*row).len() == row@.len());
        let k = row.len();
        if k == 1 {
            assert(row_view(*row)[0] == row@[0]);
            self.unwind(m, row[0]);
            return None;
        }
        proof {
            use_type_invariant(self);
            self.lemma_tables();
        }
        assert(row_view(*row)[0] == row@[0]);
        let first_empty = self.rules[row[0]].rhs.len() == 0;
        assert(first_empty == (self@.rules[row@[0] as int].1.len() == 0)) by {
            assert(self@.rules[row@[0] as int] == self.rules@[row@[0] as int]@);
        }
        let (n, weighted): (u64, Option<(u32, bool)>) = match self.find_weights(sym) {
            Some(i) => {
                let w = self.weights[i];
                if k == 2 && w.left as u64 + w.right as u64 > 0 {
                    (
                        w.left as u64 + w.right as u64,
                        Some((w.left, first_empty && w.right_empty && !w.left_empty)),
                    )
                } else {
                    (k as u64, None)
                }
            },
            None => (k as u64, None),
        };
        assert(n == choice_width(self@.weights, sym, k as int));
        let drawn = m.cursor.draw_bounded(n);
        let v = shifted(drawn, m.salt, n);
        let choice: usize = match weighted {
            Some((left, swapped)) => if (v < left as u64) != swapped {
                0
            } else {
                1
            },
            None => v as usize,
        };
        assert(choice == choice_index(self@.weights, sym, k as int, first_empty, v as int));
        assert(row_view(*row)[choice as int] == row@[choice as int]);
        self.unwind(m, row[choice]);
        None
    }

    /// One step of the derivation.
    fn step(&self, m: &mut Machine<'_>, limit: Option<u64>) -> (r: Option<
        Result<Vec<char>, GenError>,
    >)
        requires
            ordered(old(m)@.checkpoints, old(m)@.out),
        ensures
            final(m).cursor.buffer() == old(m).cursor.buffer(),
            step_agrees(self@.step(old(m).cursor.buffer(), limit, old(m)@), r, final(m)@),
    {
        let ghost st = m@;
        match m.work.pop() {
            None => {
                let mut text: Vec<char> = Vec::new();
                std::mem::swap(&mut text, &mut m.out);
                Some(Ok(text))
            },
            Some(sym) => {
                assert(sym == st.work.last());
                assert(m@.work =~= st.work.drop_last());
                let ghost mid = m@;
                assert(mid == (State { work: st.work.drop_last(), ..st }));
                match self.constraints_row(sym) {
                    Some(row) if row.len() > 0 => {
                        let r = self.pass_marker(m, sym, row);
                        proof {
                            assert(self@.pass_marker(mid, sym, mid.work) == self@.pass_marker(
                                st,
                                sym,
                                mid.work,
                            ));
                        }
                        r
                    },
                    _ => {
                        match self.alternatives_row(sym) {
                            Some(row) if row.len() > 0 => {
                                let r = self.expand_nonterminal(m, sym, row);
                                proof {
                                    assert(self@.expand_nonterminal(
                                        old(m).cursor.buffer(),
                                        mid,
                                        sym,
                                        mid.work,
                                    ) == self@.expand_nonterminal(
                                        old(m).cursor.buffer(),
                                        st,
                                        sym,
                                        mid.work,
                                    ));
                                }
                                r
                            },
                            _ => {
                                let r = self.expand_terminal(m, limit, sym);
                                proof {
                                    assert(self@.expand_terminal(
                                        old(m).cursor.buffer(),
                                        limit,
                                        mid,
                                        sym,
                                        mid.work,
                                    ) == self@.expand_terminal(
                                        old(m).cursor.buffer(),
                                        limit,
                                        st,
                                        sym,
                                        mid.work,
                                    ));
                                }
                                r
                            },
                        }
                    },
                }
            },
        }
    }

    /// The derivation from `start` over the entropy bytes `buffer` under the
    /// ceiling `limit`: the text, or why there is none.
    pub fn derive(&self, start: u32, buffer: &[u8], limit: Option<u64>) -> (r: Result<
        Vec<char>,
        GenError,
    >)
        ensures
            match self@.derive(start, buffer@, limit) {
                Ok(d) => r is Ok && r->Ok_0@ == d.text,
                Err(e) => r == Err::<Vec<char>, GenError>(e),
            },
    {
        let mut work: Vec<u32> = Vec::new();
        work.push(start);
        let mut m = Machine {
            work,
            out: Vec::new(),
            cursor: EntropyCursor::new(buffer),
            salt: 0,
            marks: Vec::new(),
        };
        let mut fuel: u64 = match limit {
            Some(l) => if l < u64::MAX / STEPS_PER_UNIT {
                (l + 1) * STEPS_PER_UNIT
            } else {
                u64::MAX
            },
            None => u64::MAX,
        };
        proof {
            assert(m@.work =~= seq![start]);
            assert(m@.checkpoints =~= Seq::<Checkpoint>::empty());
            assert(m@ == initial(start));
            assert(fuel == step_budget(limit));
        }
        while fuel > 0
            invariant
                m.cursor.buffer() == buffer@,
                constrained(self@, m@),
                self@.derive(start, buffer@, limit) == self@.run(buffer@, limit, m@, fuel as nat),
            decreases fuel,
        {
            proof {
                lemma_step_constrained_next(self@, buffer@, limit, m@);
            }
            match self.step(&mut m, limit) {
                Some(r) => {
                    return r;
                },
                None => {},
            }
            fuel -= 1;
        }
        Err(GenError::SizeLimitExceeded)
    }
}

/// Once weights are found among the first `n`, the same are found among any
/// more.
pub proof fn lemma_find_weights_stable(
    weights: Seq<crate::symbol::ChoiceWeights>,
    s: u32,
    n: int,
    m: int,
)
    requires
        n <= m,
        find_weights(weights, s, n) is Some,
    ensures
        find_weights(weights, s, m) == find_weights(weights, s, n),
    decreases m - n,
{
    if n < m {
        lemma_find_weights_stable(weights, s, n, m - 1);
    }
}

} // verus!
