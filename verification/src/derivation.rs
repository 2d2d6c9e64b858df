//! The generation engine as a mathematical machine: what one step does to a
//! derivation, and what a run of steps yields.
//!
//! A derivation is leftmost and depth first. Its state holds the symbols
//! still to expand, the characters emitted so far, the position in the
//! entropy bytes and a checkpoint for each lookahead marker passed.

use crate::cursor::{draw_end, draw_value};
use crate::error::GenError;
use crate::generator::find_symbol;
use crate::language::unwind;
use crate::rules::{alternatives_of, positions};
use crate::symbol::{ChoiceWeights, SymbolEntryView, SymbolKind};
use vstd::prelude::*;

verus! {

/// How often the text after one marker is derived again before generation
/// gives up.
pub const MAX_RETRIES: u32 = 64;

/// How many derivation steps are allowed for each unit of the size ceiling.
pub const STEPS_PER_UNIT: u64 = 1024;

/// The character emitted for a terminal that has no kind.
pub const SUBSTITUTE: char = 'X';

/// A compiled grammar as the engine reads it.
pub struct Tables {
    /// The productions after normalization.
    pub rules: Seq<(u32, Seq<u32>)>,
    /// The symbol table.
    pub syms: Seq<SymbolEntryView>,
    /// The negative constraints: a marker and one literal forbidden after it.
    pub negative_rules: Seq<(u32, Seq<char>)>,
    /// The weights of weighted choices.
    pub weights: Seq<ChoiceWeights>,
}

/// The place of a lookahead marker in a derivation, and what is needed to
/// derive the text after it again.
pub struct Checkpoint {
    /// How many characters had been emitted when the marker was passed.
    pub at: int,
    /// The symbols that were still to expand then, the next one last.
    pub work: Seq<u32>,
    /// The marker.
    pub marker: u32,
    /// How often the text after the marker has been derived again.
    pub attempts: int,
}

/// The state of a derivation.
pub struct State {
    /// The symbols still to expand, the next one last.
    pub work: Seq<u32>,
    /// The characters emitted so far.
    pub out: Seq<char>,
    /// The position in the entropy bytes.
    pub position: int,
    /// How many re-draws there were; it shifts every later draw.
    pub salt: u64,
    /// The markers passed on the way to this state, oldest first.
    pub checkpoints: Seq<Checkpoint>,
}

/// A finished derivation: the text, and for each lookahead marker on the way
/// to it the number of characters before the marker, and the marker.
pub struct Derivation {
    pub text: Seq<char>,
    pub sites: Seq<(int, u32)>,
}

/// What a step leads to.
pub enum Outcome {
    Next(State),
    Done(Result<Derivation, GenError>),
}

/// The markers of the negative constraints.
pub open spec fn markers(negative_rules: Seq<(u32, Seq<char>)>) -> Seq<u32> {
    negative_rules.map_values(|r: (u32, Seq<char>)| r.0)
}

/// The positions of the constraints on the marker `s`.
pub open spec fn literals_of(negative_rules: Seq<(u32, Seq<char>)>, s: int) -> Seq<int> {
    positions(markers(negative_rules), s, negative_rules.len() as int)
}

/// Whether one of the first `k` constraints in `lits` forbids the empty text.
pub open spec fn forbids_nothing(
    negative_rules: Seq<(u32, Seq<char>)>,
    lits: Seq<int>,
    k: int,
) -> bool
    decreases k,
{
    if k <= 0 {
        false
    } else {
        forbids_nothing(negative_rules, lits, k - 1) || negative_rules[lits[k - 1]].1.len() == 0
    }
}

/// Whether `literal` stands in `out` at `at`.
pub open spec fn stands_at(out: Seq<char>, at: int, literal: Seq<char>) -> bool {
    0 <= at && at + literal.len() <= out.len() && out.subrange(at, at + literal.len())
        == literal
}

/// Whether `literal` stands in `out` at `at` and ends where `out` ends.
pub open spec fn ends_with_at(out: Seq<char>, at: int, literal: Seq<char>) -> bool {
    at + literal.len() == out.len() && stands_at(out, at, literal)
}

/// Whether one of the first `k` constraints in `lits` is broken by the text
/// from `at` to the end of `out`.
pub open spec fn collides(
    negative_rules: Seq<(u32, Seq<char>)>,
    lits: Seq<int>,
    at: int,
    out: Seq<char>,
    k: int,
) -> bool
    decreases k,
{
    if k <= 0 {
        false
    } else {
        collides(negative_rules, lits, at, out, k - 1) || ends_with_at(
            out,
            at,
            negative_rules[lits[k - 1]].1,
        )
    }
}

/// Whether the text that now ends `out` breaks a constraint of the
/// checkpoint.
pub open spec fn checkpoint_collides(t: Tables, c: Checkpoint, out: Seq<char>) -> bool {
    let lits = literals_of(t.negative_rules, c.marker as int);
    collides(t.negative_rules, lits, c.at, out, lits.len() as int)
}

/// The oldest of the first `n` checkpoints with a constraint that the end of
/// `out` breaks.
pub open spec fn first_collision(
    t: Tables,
    checkpoints: Seq<Checkpoint>,
    out: Seq<char>,
    n: int,
) -> Option<int>
    decreases n,
{
    if n <= 0 {
        None
    } else {
        match first_collision(t, checkpoints, out, n - 1) {
            Some(i) => Some(i),
            None => if checkpoint_collides(t, checkpoints[n - 1], out) {
                Some(n - 1)
            } else {
                None
            },
        }
    }
}

/// The kind of a symbol: that of its first row in the table, and
/// `Nonterminal` where it has no row.
pub open spec fn kind_of(syms: Seq<SymbolEntryView>, s: u32) -> SymbolKind {
    match find_symbol(syms, s, syms.len() as int) {
        Some(i) => syms[i].kind,
        None => SymbolKind::Nonterminal,
    }
}

/// How many characters there are from `lo` to `hi`, both included, and 1 for
/// a range that holds none. The surrogate code points are no characters.
pub open spec fn span(lo: char, hi: char) -> int {
    if hi < lo {
        1
    } else if (lo as u32) < 0xD800 && (hi as u32) >= 0xE000 {
        hi as u32 - lo as u32 + 1 - 0x800
    } else {
        hi as u32 - lo as u32 + 1
    }
}

/// The code of the character number `v` from `lo` on, counting `lo` as number
/// 0 and passing over the surrogate code points.
pub open spec fn nth_code(lo: char, v: int) -> int {
    if (lo as u32) < 0xD800 && lo as u32 + v >= 0xD800 {
        lo as u32 + v + 0x800
    } else {
        lo as u32 + v
    }
}

/// A draw `v` below `n`, shifted by the salt and still below `n`.
pub open spec fn perturb(v: int, salt: u64, n: int) -> int {
    if v + salt as int % n >= n {
        v + salt as int % n - n
    } else {
        v + salt as int % n
    }
}

/// The salt after one more re-draw.
pub open spec fn next_salt(salt: u64) -> u64 {
    if salt == u64::MAX {
        0
    } else {
        (salt + 1) as u64
    }
}

/// The position of the first weights recorded for `s` among the first `n`.
pub open spec fn find_weights(weights: Seq<ChoiceWeights>, s: u32, n: int) -> Option<int>
    decreases n,
{
    if n <= 0 {
        None
    } else {
        match find_weights(weights, s, n - 1) {
            Some(i) => Some(i),
            None => if weights[n - 1].symbol == s {
                Some(n - 1)
            } else {
                None
            },
        }
    }
}

/// Over how many values the alternative of `s` is drawn, where `s` owns `k`
/// alternatives: over the sum of the weights where two alternatives have
/// weights that are not both zero, and over `k` otherwise.
pub open spec fn choice_width(weights: Seq<ChoiceWeights>, s: u32, k: int) -> int {
    match find_weights(weights, s, weights.len() as int) {
        Some(i) => if k == 2 && weights[i].left + weights[i].right > 0 {
            weights[i].left + weights[i].right
        } else {
            k
        },
        None => k,
    }
}

/// Which alternative a drawn value `v` selects among the `k` of `s`. Without
/// weights the value is the alternative. With weights, the left alternative
/// takes the values below its weight and the right one the rest; the left
/// alternative is the first production of `s`, unless normalization has put
/// the empty right alternative in front of it, which `first_empty` tells.
pub open spec fn choice_index(
    weights: Seq<ChoiceWeights>,
    s: u32,
    k: int,
    first_empty: bool,
    v: int,
) -> int {
    match find_weights(weights, s, weights.len() as int) {
        Some(i) => if k == 2 && weights[i].left + weights[i].right > 0 {
            let swapped = first_empty && weights[i].right_empty && !weights[i].left_empty;
            if (v < weights[i].left) != swapped {
                0
            } else {
                1
            }
        } else {
            v
        },
        None => v,
    }
}

/// The sites of a list of checkpoints.
pub open spec fn sites_of(checkpoints: Seq<Checkpoint>) -> Seq<(int, u32)> {
    checkpoints.map_values(|c: Checkpoint| (c.at, c.marker))
}

/// `out` cut back to its first `at` characters.
pub open spec fn cut(out: Seq<char>, at: int) -> Seq<char> {
    if 0 <= at <= out.len() {
        out.take(at)
    } else {
        out
    }
}

impl Tables {
    /// The step for a lookahead marker: it emits nothing and leaves a
    /// checkpoint. A marker that forbids the empty text can never be
    /// satisfied.
    pub open spec fn pass_marker(self, st: State, sym: u32, rest: Seq<u32>) -> Outcome {
        let lits = literals_of(self.negative_rules, sym as int);
        if forbids_nothing(self.negative_rules, lits, lits.len() as int) {
            Outcome::Done(Err(GenError::NegativeConstraintUnsatisfiable))
        } else {
            Outcome::Next(
                State {
                    work: rest,
                    checkpoints: st.checkpoints.push(
                        Checkpoint { at: st.out.len() as int, work: rest, marker: sym, attempts: 0 },
                    ),
                    ..st
                },
            )
        }
    }

    /// The step after a collision at checkpoint `i`: the text after the
    /// marker is dropped and derived again with the next salt, unless that
    /// was done too often already.
    pub open spec fn retry(self, st: State, out: Seq<char>, position: int, i: int) -> Outcome {
        let c = st.checkpoints[i];
        if c.attempts >= MAX_RETRIES {
            Outcome::Done(Err(GenError::NegativeConstraintUnsatisfiable))
        } else {
            Outcome::Next(
                State {
                    work: c.work,
                    out: cut(out, c.at),
                    position,
                    salt: next_salt(st.salt),
                    checkpoints: st.checkpoints.take(i).push(
                        Checkpoint { attempts: c.attempts + 1, ..c },
                    ),
                },
            )
        }
    }

    /// The step that emits the character `ch`: it fails at the size ceiling,
    /// and it starts a retry where the character completes a forbidden
    /// literal.
    pub open spec fn emit(
        self,
        limit: Option<u64>,
        st: State,
        rest: Seq<u32>,
        ch: char,
        position: int,
    ) -> Outcome {
        if limit is Some && st.out.len() >= limit->Some_0 {
            Outcome::Done(Err(GenError::SizeLimitExceeded))
        } else {
            let out = st.out.push(ch);
            match first_collision(self, st.checkpoints, out, st.checkpoints.len() as int) {
                None => Outcome::Next(State { work: rest, out, position, ..st }),
                Some(i) => self.retry(st, out, position, i),
            }
        }
    }

    /// The step for a terminal: nothing for `Null`, the character for
    /// `Single`, a drawn character for `Range`, and the substitute for a
    /// terminal without a kind.
    pub open spec fn expand_terminal(
        self,
        buffer: Seq<u8>,
        limit: Option<u64>,
        st: State,
        sym: u32,
        rest: Seq<u32>,
    ) -> Outcome {
        match kind_of(self.syms, sym) {
            SymbolKind::Null => Outcome::Next(State { work: rest, ..st }),
            SymbolKind::Single(c) => self.emit(limit, st, rest, c, st.position),
            SymbolKind::Range(lo, hi) => {
                let n = span(lo, hi);
                let v = perturb(draw_value(buffer, st.position, n), st.salt, n);
                self.emit(
                    limit,
                    st,
                    rest,
                    nth_code(lo, v) as char,
                    draw_end(buffer, st.position, n),
                )
            },
            SymbolKind::Nonterminal => self.emit(limit, st, rest, SUBSTITUTE, st.position),
        }
    }

    /// The step for a nonterminal: one of its productions is selected, by a
    /// draw where it owns several, and its symbols are expanded next, left to
    /// right.
    pub open spec fn expand_nonterminal(
        self,
        buffer: Seq<u8>,
        st: State,
        sym: u32,
        rest: Seq<u32>,
    ) -> Outcome {
        let alts = alternatives_of(self.rules, sym as int);
        let k = alts.len() as int;
        if k == 1 {
            let rhs = self.rules[alts[0]].1;
            Outcome::Next(State { work: unwind(rest, rhs, rhs.len() as int), ..st })
        } else {
            let n = choice_width(self.weights, sym, k);
            let v = perturb(draw_value(buffer, st.position, n), st.salt, n);
            let first_empty = self.rules[alts[0]].1.len() == 0;
            let rhs = self.rules[alts[choice_index(self.weights, sym, k, first_empty, v)]].1;
            Outcome::Next(
                State {
                    work: unwind(rest, rhs, rhs.len() as int),
                    position: draw_end(buffer, st.position, n),
                    ..st
                },
            )
        }
    }

    /// One step of a derivation.
    pub open spec fn step(self, buffer: Seq<u8>, limit: Option<u64>, st: State) -> Outcome {
        if st.work.len() == 0 {
            Outcome::Done(Ok(Derivation { text: st.out, sites: sites_of(st.checkpoints) }))
        } else {
            let sym = st.work.last();
            let rest = st.work.drop_last();
            if literals_of(self.negative_rules, sym as int).len() > 0 {
                self.pass_marker(st, sym, rest)
            } else if alternatives_of(self.rules, sym as int).len() == 0 {
                self.expand_terminal(buffer, limit, st, sym, rest)
            } else {
                self.expand_nonterminal(buffer, st, sym, rest)
            }
        }
    }

    /// A derivation of at most `fuel` steps from the state `st`. Running out
    /// of steps counts as reaching the size ceiling.
    pub open spec fn run(self, buffer: Seq<u8>, limit: Option<u64>, st: State, fuel: nat) -> Result<
        Derivation,
        GenError,
    >
        decreases fuel,
    {
        if fuel == 0 {
            Err(GenError::SizeLimitExceeded)
        } else {
            match self.step(buffer, limit, st) {
                Outcome::Done(r) => r,
                Outcome::Next(next) => self.run(buffer, limit, next, (fuel - 1) as nat),
            }
        }
    }

    /// Whether a derivation may start from `s`: it is a nonterminal that owns
    /// a production.
    pub open spec fn can_start(self, s: u32) -> bool {
        kind_of(self.syms, s) == SymbolKind::Nonterminal && alternatives_of(
            self.rules,
            s as int,
        ).len() > 0
    }

    /// The derivation from the symbol `start` under the ceiling `limit`.
    pub open spec fn derive(self, start: u32, buffer: Seq<u8>, limit: Option<u64>) -> Result<
        Derivation,
        GenError,
    > {
        self.run(buffer, limit, initial(start), step_budget(limit))
    }
}

/// The state in which a derivation from `start` begins.
pub open spec fn initial(start: u32) -> State {
    State {
        work: seq![start],
        out: Seq::empty(),
        position: 0,
        salt: 0,
        checkpoints: Seq::empty(),
    }
}

/// How many steps a derivation under `limit` may take: `STEPS_PER_UNIT` for
/// each character up to the ceiling and for the end, and as many as a `u64`
/// counts where there is no ceiling or the product is larger.
pub open spec fn step_budget(limit: Option<u64>) -> nat {
    match limit {
        Some(l) => if (l + 1) * STEPS_PER_UNIT <= u64::MAX {
            ((l + 1) * STEPS_PER_UNIT) as nat
        } else {
            u64::MAX as nat
        },
        None => u64::MAX as nat,
    }
}

} // verus!
