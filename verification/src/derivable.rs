//! Derivability: which texts the productions of a compiled grammar allow,
//! and that the engine generates no other.

use crate::cursor::{draw_end, draw_value};
use crate::derivation::{
    choice_index, choice_width, first_collision, initial, kind_of, literals_of, nth_code,
    perturb, span, step_budget, Outcome, State, Tables, SUBSTITUTE,
};
use crate::engine_laws::{constrained, lemma_step_constrained_next};
use crate::language::{expands, produces, unwind};
use crate::rules::{alternatives_of, lemma_positions_complete, lemma_positions_sound, owners};
use crate::symbol::SymbolKind;
use crate::text::is_scalar;
use vstd::prelude::*;

verus! {

/// One move of a derivation.
pub enum Move {
    /// A lookahead marker is passed.
    Pass,
    /// A terminal emits this text.
    Emit(Seq<char>),
    /// A nonterminal is replaced by the right-hand side of one of its
    /// productions.
    Expand(Seq<u32>),
}

/// Whether the terminal `sym` may emit `text`: nothing for `Null`, the
/// character for `Single`, one character of the range for `Range` (the lower
/// bound where the range holds none), and the substitute for a terminal
/// without a kind.
pub open spec fn emits(t: Tables, sym: u32, text: Seq<char>) -> bool {
    match kind_of(t.syms, sym) {
        SymbolKind::Null => text.len() == 0,
        SymbolKind::Single(c) => text == seq![c],
        SymbolKind::Range(lo, hi) => text.len() == 1 && if lo <= hi {
            lo <= text[0] <= hi
        } else {
            text[0] == lo
        },
        SymbolKind::Nonterminal => text == seq![SUBSTITUTE],
    }
}

/// `head` in front of a text, if there is a text.
pub open spec fn after(head: Seq<char>, tail: Option<Seq<char>>) -> Option<Seq<char>> {
    match tail {
        Some(text) => Some(head + text),
        None => None,
    }
}

/// The text that the moves of `script` derive from the symbols of `work`, the
/// next symbol last: every move must fit the symbol it is made on, and the
/// moves must end when the symbols do.
pub open spec fn replay(t: Tables, work: Seq<u32>, script: Seq<Move>) -> Option<Seq<char>>
    decreases script.len(),
{
    if work.len() == 0 {
        if script.len() == 0 {
            Some(Seq::empty())
        } else {
            None
        }
    } else if script.len() == 0 {
        None
    } else {
        let sym = work.last();
        let rest = work.drop_last();
        match script.first() {
            Move::Pass => if literals_of(t.negative_rules, sym as int).len() > 0 {
                replay(t, rest, script.drop_first())
            } else {
                None
            },
            Move::Emit(text) => if literals_of(t.negative_rules, sym as int).len() == 0
                && !expands(t.rules, sym) && emits(t, sym, text) {
                after(text, replay(t, rest, script.drop_first()))
            } else {
                None
            },
            Move::Expand(rhs) => if literals_of(t.negative_rules, sym as int).len() == 0
                && produces(t.rules, sym, rhs) {
                replay(t, unwind(rest, rhs, rhs.len() as int), script.drop_first())
            } else {
                None
            },
        }
    }
}

/// Whether the grammar derives `text` from the symbols of `work`.
pub open spec fn derives(t: Tables, work: Seq<u32>, text: Seq<char>) -> bool {
    exists|script: Seq<Move>| #[trigger] replay(t, work, script) == Some(text)
}

/// Whether every text derived from `work`, put behind `prefix`, is a text
/// derived from `start`.
pub open spec fn continues(t: Tables, start: u32, prefix: Seq<char>, work: Seq<u32>) -> bool {
    forall|script: Seq<Move>|
        (#[trigger] replay(t, work, script)) is Some ==> derives(
            t,
            seq![start],
            prefix + replay(t, work, script)->Some_0,
        )
}

/// What every state of a derivation from `start` satisfies: what is left to
/// expand completes the text so far to a text of the grammar, and so does what
/// was left at each checkpoint for the text before it.
pub open spec fn on_course(t: Tables, start: u32, st: State) -> bool {
    &&& continues(t, start, st.out, st.work)
    &&& forall|i: int|
        0 <= i < st.checkpoints.len() ==> continues(
            t,
            start,
            st.out.take((#[trigger] st.checkpoints[i]).at),
            st.checkpoints[i].work,
        )
}

/// A character drawn from a range lies in the range.
pub proof fn lemma_nth_code_in_range(lo: char, hi: char, v: int)
    requires
        0 <= v < span(lo, hi),
    ensures
        is_scalar(nth_code(lo, v)),
        lo <= hi ==> lo as int <= nth_code(lo, v) <= hi as int,
        hi < lo ==> nth_code(lo, v) == lo as int,
{
}

/// A shifted draw is a draw.
pub proof fn lemma_perturb_in_range(v: int, salt: u64, n: int)
    requires
        0 <= v < n,
    ensures
        0 <= perturb(v, salt, n) < n,
{
    assert(0 <= salt as int % n < n) by (nonlinear_arith)
        requires
            n > 0,
            salt >= 0,
    ;
}

/// A draw below `n` is below `n`.
pub proof fn lemma_draw_in_range(buffer: Seq<u8>, position: int, n: int)
    requires
        n > 0,
    ensures
        0 <= draw_value(buffer, position, n) < n,
{
    let raw = crate::cursor::draw_raw(buffer, position, crate::cursor::draw_width(n));
    assert(0 <= raw % n < n) by (nonlinear_arith)
        requires
            n > 0,
    ;
}

/// A symbol without alternatives owns no production.
proof fn lemma_terminal_expands_not(rules: Seq<(u32, Seq<u32>)>, sym: u32)
    requires
        alternatives_of(rules, sym as int).len() == 0,
    ensures
        !expands(rules, sym),
{
    if expands(rules, sym) {
        let i = choose|i: int| 0 <= i < rules.len() && (#[trigger] rules[i]).0 == sym;
        let keys = owners(rules);
        assert(keys[i] == sym);
        lemma_positions_complete(keys, sym as int, keys.len() as int, i);
    }
}

/// The alternatives of a symbol are productions of the grammar.
proof fn lemma_alternative_is_produced(rules: Seq<(u32, Seq<u32>)>, sym: u32, a: int)
    requires
        0 <= a < alternatives_of(rules, sym as int).len(),
    ensures
        0 <= alternatives_of(rules, sym as int)[a] < rules.len(),
        produces(rules, sym, rules[alternatives_of(rules, sym as int)[a]].1),
{
    let keys = owners(rules);
    lemma_positions_sound(keys, sym as int, keys.len() as int);
    let i = alternatives_of(rules, sym as int)[a];
    assert(keys[i] == sym);
    assert(rules[i] == (sym, rules[i].1));
}

/// One move in front of a script.
proof fn lemma_replay_move(t: Tables, work: Seq<u32>, mv: Move, script: Seq<Move>)
    requires
        work.len() > 0,
    ensures
        replay(t, work, seq![mv] + script) == {
            let sym = work.last();
            let rest = work.drop_last();
            match mv {
                Move::Pass => if literals_of(t.negative_rules, sym as int).len() > 0 {
                    replay(t, rest, script)
                } else {
                    None
                },
                Move::Emit(text) => if literals_of(t.negative_rules, sym as int).len() == 0
                    && !expands(t.rules, sym) && emits(t, sym, text) {
                    after(text, replay(t, rest, script))
                } else {
                    None
                },
                Move::Expand(rhs) => if literals_of(t.negative_rules, sym as int).len() == 0
                    && produces(t.rules, sym, rhs) {
                    replay(t, unwind(rest, rhs, rhs.len() as int), script)
                } else {
                    None
                },
            }
        },
{
    let full = seq![mv] + script;
    assert(full.first() == mv);
    assert(full.drop_first() =~= script);
}

/// After a move that emits `text` from the work `work` and leaves `rest`,
/// what is left completes the longer text.
proof fn lemma_continues_after(
    t: Tables,
    start: u32,
    prefix: Seq<char>,
    work: Seq<u32>,
    mv: Move,
    text: Seq<char>,
    rest: Seq<u32>,
)
    requires
        work.len() > 0,
        continues(t, start, prefix, work),
        forall|script: Seq<Move>|
            (#[trigger] replay(t, rest, script)) is Some ==> replay(t, work, seq![mv] + script)
                == after(text, replay(t, rest, script)),
    ensures
        continues(t, start, prefix + text, rest),
{
    assert forall|script: Seq<Move>| (#[trigger] replay(t, rest, script)) is Some implies derives(
        t,
        seq![start],
        (prefix + text) + replay(t, rest, script)->Some_0,
    ) by {
        let w = replay(t, rest, script)->Some_0;
        let longer = seq![mv] + script;
        assert(replay(t, work, longer) == Some(text + w));
        assert(prefix + (text + w) =~= (prefix + text) + w);
    }
}

/// A step keeps a derivation on course.
proof fn lemma_step_on_course(
    t: Tables,
    start: u32,
    buffer: Seq<u8>,
    limit: Option<u64>,
    st: State,
)
    requires
        on_course(t, start, st),
        constrained(t, st),
    ensures
        match t.step(buffer, limit, st) {
            Outcome::Next(next) => on_course(t, start, next),
            Outcome::Done(Ok(d)) => derives(t, seq![start], d.text),
            Outcome::Done(Err(_)) => true,
        },
{
    if st.work.len() == 0 {
        let none = Seq::<Move>::empty();
        assert(replay(t, st.work, none) == Some(Seq::<char>::empty()));
        assert(st.out + Seq::<char>::empty() =~= st.out);
    } else {
        let sym = st.work.last();
        let rest = st.work.drop_last();
        let nothing = Seq::<char>::empty();
        assert(st.out + nothing =~= st.out);
        if literals_of(t.negative_rules, sym as int).len() > 0 {
            assert forall|script: Seq<Move>|
                (#[trigger] replay(t, rest, script)) is Some implies replay(
                t,
                st.work,
                seq![Move::Pass] + script,
            ) == after(nothing, replay(t, rest, script)) by {
                lemma_replay_move(t, st.work, Move::Pass, script);
                assert(nothing + replay(t, rest, script)->Some_0 =~= replay(
                    t,
                    rest,
                    script,
                )->Some_0);
            }
            lemma_continues_after(t, start, st.out, st.work, Move::Pass, nothing, rest);
            if let Outcome::Next(next) = t.pass_marker(st, sym, rest) {
                assert(next.out.take(next.out.len() as int) =~= next.out);
                assert forall|i: int| 0 <= i < next.checkpoints.len() implies continues(
                    t,
                    start,
                    next.out.take((#[trigger] next.checkpoints[i]).at),
                    next.checkpoints[i].work,
                ) by {
                    if i < st.checkpoints.len() {
                        assert(next.checkpoints[i] == st.checkpoints[i]);
                    }
                }
            }
        } else if alternatives_of(t.rules, sym as int).len() == 0 {
            lemma_terminal_expands_not(t.rules, sym);
            match kind_of(t.syms, sym) {
                SymbolKind::Null => {
                    lemma_terminal_on_course(t, start, st, nothing);
                },
                SymbolKind::Single(c) => {
                    lemma_terminal_on_course(t, start, st, seq![c]);
                    lemma_emit_on_course(t, start, limit, st, rest, c, st.position);
                },
                SymbolKind::Range(lo, hi) => {
                    let n = span(lo, hi);
                    lemma_draw_in_range(buffer, st.position, n);
                    let drawn = draw_value(buffer, st.position, n);
                    lemma_perturb_in_range(drawn, st.salt, n);
                    let v = perturb(drawn, st.salt, n);
                    lemma_nth_code_in_range(lo, hi, v);
                    let ch = nth_code(lo, v) as char;
                    assert(ch as int == nth_code(lo, v));
                    lemma_terminal_on_course(t, start, st, seq![ch]);
                    lemma_emit_on_course(
                        t,
                        start,
                        limit,
                        st,
                        rest,
                        ch,
                        draw_end(buffer, st.position, n),
                    );
                },
                SymbolKind::Nonterminal => {
                    lemma_terminal_on_course(t, start, st, seq![SUBSTITUTE]);
                    lemma_emit_on_course(t, start, limit, st, rest, SUBSTITUTE, st.position);
                },
            }
        } else {
            let alts = alternatives_of(t.rules, sym as int);
            let k = alts.len() as int;
            let a = if k == 1 {
                0
            } else {
                let n = choice_width(t.weights, sym, k);
                lemma_draw_in_range(buffer, st.position, n);
                let drawn = draw_value(buffer, st.position, n);
                lemma_perturb_in_range(drawn, st.salt, n);
                choice_index(
                    t.weights,
                    sym,
                    k,
                    t.rules[alts[0]].1.len() == 0,
                    perturb(drawn, st.salt, n),
                )
            };
            assert(0 <= a < k);
            let rhs = t.rules[alts[a]].1;
            lemma_alternative_is_produced(t.rules, sym, a);
            let next_work = unwind(rest, rhs, rhs.len() as int);
            assert forall|script: Seq<Move>|
                (#[trigger] replay(t, next_work, script)) is Some implies replay(
                t,
                st.work,
                seq![Move::Expand(rhs)] + script,
            ) == after(nothing, replay(t, next_work, script)) by {
                lemma_replay_move(t, st.work, Move::Expand(rhs), script);
                assert(nothing + replay(t, next_work, script)->Some_0 =~= replay(
                    t,
                    next_work,
                    script,
                )->Some_0);
            }
            lemma_continues_after(
                t,
                start,
                st.out,
                st.work,
                Move::Expand(rhs),
                nothing,
                next_work,
            );
        }
    }
}

/// After a terminal has emitted `text`, what is left completes the longer
/// text.
proof fn lemma_terminal_on_course(t: Tables, start: u32, st: State, text: Seq<char>)
    requires
        st.work.len() > 0,
        continues(t, start, st.out, st.work),
        literals_of(t.negative_rules, st.work.last() as int).len() == 0,
        !expands(t.rules, st.work.last()),
        emits(t, st.work.last(), text),
    ensures
        continues(t, start, st.out + text, st.work.drop_last()),
{
    let rest = st.work.drop_last();
    assert forall|script: Seq<Move>| (#[trigger] replay(t, rest, script)) is Some implies replay(
        t,
        st.work,
        seq![Move::Emit(text)] + script,
    ) == after(text, replay(t, rest, script)) by {
        lemma_replay_move(t, st.work, Move::Emit(text), script);
    }
    lemma_continues_after(t, start, st.out, st.work, Move::Emit(text), text, rest);
}

/// Emitting a character, with or without a retry, keeps the derivation on
/// course.
proof fn lemma_emit_on_course(
    t: Tables,
    start: u32,
    limit: Option<u64>,
    st: State,
    rest: Seq<u32>,
    ch: char,
    position: int,
)
    requires
        constrained(t, st),
        continues(t, start, st.out.push(ch), rest),
        forall|i: int|
            0 <= i < st.checkpoints.len() ==> continues(
                t,
                start,
                st.out.take((#[trigger] st.checkpoints[i]).at),
                st.checkpoints[i].work,
            ),
    ensures
        t.emit(limit, st, rest, ch, position) matches Outcome::Next(next) ==> on_course(
            t,
            start,
            next,
        ),
{
    if let Outcome::Next(next) = t.emit(limit, st, rest, ch, position) {
        let out = st.out.push(ch);
        let n = st.checkpoints.len() as int;
        crate::engine_laws::lemma_first_collision(t, st.checkpoints, out, n);
        match first_collision(t, st.checkpoints, out, n) {
            None => {
                assert forall|i: int| 0 <= i < next.checkpoints.len() implies continues(
                    t,
                    start,
                    next.out.take((#[trigger] next.checkpoints[i]).at),
                    next.checkpoints[i].work,
                ) by {
                    let c = st.checkpoints[i];
                    assert(out.take(c.at) =~= st.out.take(c.at));
                }
            },
            Some(i0) => {
                let c = st.checkpoints[i0];
                assert(next.out =~= st.out.take(c.at));
                assert(next.work == c.work);
                assert forall|i: int| 0 <= i < next.checkpoints.len() implies continues(
                    t,
                    start,
                    next.out.take((#[trigger] next.checkpoints[i]).at),
                    next.checkpoints[i].work,
                ) by {
                    let e = st.checkpoints[i];
                    if i < i0 {
                        assert(next.checkpoints[i] == e);
                    }
                    assert(next.checkpoints[i].at == e.at && next.checkpoints[i].work == e.work);
                    assert(e.at <= c.at);
                    assert(next.out.take(e.at) =~= st.out.take(e.at));
                }
            },
        }
    }
}

/// A run from a state on course ends with a text of the grammar.
proof fn lemma_run_on_course(
    t: Tables,
    start: u32,
    buffer: Seq<u8>,
    limit: Option<u64>,
    st: State,
    fuel: nat,
)
    requires
        on_course(t, start, st),
        constrained(t, st),
    ensures
        t.run(buffer, limit, st, fuel) matches Ok(d) ==> derives(t, seq![start], d.text),
    decreases fuel,
{
    if fuel > 0 {
        lemma_step_on_course(t, start, buffer, limit, st);
        lemma_step_constrained_next(t, buffer, limit, st);
        if let Outcome::Next(next) = t.step(buffer, limit, st) {
            lemma_run_on_course(t, start, buffer, limit, next, (fuel - 1) as nat);
        }
    }
}

/// Generated texts are texts of the grammar: whatever the entropy, a text
/// generated from a rule is derived from the rule's symbol by the grammar's
/// productions, each terminal emitting what its kind allows.
pub proof fn lemma_generated_text_is_derivable(
    t: Tables,
    name: Seq<char>,
    buffer: Seq<u8>,
    limit: Option<u64>,
)
    ensures
        t.generate(name, buffer, limit) matches Ok(d) ==> t.starts_at(name) is Some && derives(
            t,
            seq![t.starts_at(name)->Some_0],
            d.text,
        ),
{
    if let Some(s) = t.starts_at(name) {
        let st = initial(s);
        assert forall|script: Seq<Move>| (#[trigger] replay(t, st.work, script)) is Some implies derives(
            t,
            seq![s],
            st.out + replay(t, st.work, script)->Some_0,
        ) by {
            assert(st.out + replay(t, st.work, script)->Some_0 =~= replay(
                t,
                st.work,
                script,
            )->Some_0);
        }
        lemma_run_on_course(t, s, buffer, limit, st, step_budget(limit));
    }
}

} // verus!
