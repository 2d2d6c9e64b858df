//! What holds of every derivation, whatever the grammar and the entropy.

use crate::derivation::{
    checkpoint_collides, collides, cut, ends_with_at, first_collision, forbids_nothing, initial,
    literals_of, markers, sites_of, stands_at, Checkpoint, Outcome, State, Tables,
};
use crate::error::GenError;
use crate::rules::lemma_positions_complete;
use vstd::prelude::*;

verus! {

/// Whether `r` is what generating from the rule `name` gives.
pub open spec fn generated(
    t: Tables,
    name: Seq<char>,
    buffer: Seq<u8>,
    limit: Option<u64>,
    r: Result<Seq<char>, GenError>,
) -> bool {
    match t.generate(name, buffer, limit) {
        Ok(d) => r == Ok::<Seq<char>, GenError>(d.text),
        Err(e) => r == Err::<Seq<char>, GenError>(e),
    }
}

/// Generation is deterministic: for one grammar, one start rule, one buffer
/// of entropy bytes and one ceiling there is one result, text or error.
pub proof fn lemma_generation_is_deterministic(
    t: Tables,
    name: Seq<char>,
    buffer: Seq<u8>,
    limit: Option<u64>,
    first: Result<Seq<char>, GenError>,
    second: Result<Seq<char>, GenError>,
)
    requires
        generated(t, name, buffer, limit, first),
        generated(t, name, buffer, limit, second),
    ensures
        first == second,
{
}

/// The position in the entropy bytes only increases: no step moves it back.
pub proof fn lemma_position_only_increases(
    t: Tables,
    buffer: Seq<u8>,
    limit: Option<u64>,
    st: State,
)
    ensures
        t.step(buffer, limit, st) matches Outcome::Next(next) ==> next.position >= st.position,
{
}

/// A step never takes the text past the ceiling.
proof fn lemma_step_keeps_ceiling(t: Tables, buffer: Seq<u8>, l: u64, st: State)
    requires
        st.out.len() <= l,
    ensures
        match t.step(buffer, Some(l), st) {
            Outcome::Next(next) => next.out.len() <= l,
            Outcome::Done(Ok(d)) => d.text.len() <= l,
            Outcome::Done(Err(_)) => true,
        },
{
}

/// A run that starts at or under the ceiling ends at or under it.
proof fn lemma_run_keeps_ceiling(t: Tables, buffer: Seq<u8>, l: u64, st: State, fuel: nat)
    requires
        st.out.len() <= l,
    ensures
        t.run(buffer, Some(l), st, fuel) matches Ok(d) ==> d.text.len() <= l,
    decreases fuel,
{
    if fuel > 0 {
        lemma_step_keeps_ceiling(t, buffer, l, st);
        if let Outcome::Next(next) = t.step(buffer, Some(l), st) {
            lemma_run_keeps_ceiling(t, buffer, l, next, (fuel - 1) as nat);
        }
    }
}

/// The ceiling is respected: a generated text is never longer than the
/// ceiling it was generated under.
pub proof fn lemma_ceiling_respected(t: Tables, name: Seq<char>, buffer: Seq<u8>, l: u64)
    ensures
        t.generate(name, buffer, Some(l)) matches Ok(d) ==> d.text.len() <= l,
{
    if let Some(s) = t.starts_at(name) {
        lemma_run_keeps_ceiling(
            t,
            buffer,
            l,
            initial(s),
            crate::derivation::step_budget(Some(l)),
        );
    }
}

/// Whether no literal that is forbidden after a marker stands at the place of
/// that marker in `text`.
pub open spec fn honors(t: Tables, text: Seq<char>, sites: Seq<(int, u32)>) -> bool {
    forall|i: int, j: int|
        0 <= i < sites.len() && 0 <= j < t.negative_rules.len() && (
        #[trigger] t.negative_rules[j]).0 == (#[trigger] sites[i]).1 ==> !stands_at(
            text,
            sites[i].0,
            t.negative_rules[j].1,
        )
}

/// The checkpoints lie in the text, the oldest first.
pub open spec fn ordered(checkpoints: Seq<Checkpoint>, out: Seq<char>) -> bool {
    &&& forall|i: int|
        0 <= i < checkpoints.len() ==> 0 <= (#[trigger] checkpoints[i]).at <= out.len()
    &&& forall|i: int, k: int|
        0 <= i < k < checkpoints.len() ==> (#[trigger] checkpoints[i]).at <= (
        #[trigger] checkpoints[k]).at
}

/// What every state of a derivation satisfies: the checkpoints lie in the
/// text, in order, and no forbidden literal stands at one of them.
pub open spec fn constrained(t: Tables, st: State) -> bool {
    &&& ordered(st.checkpoints, st.out)
    &&& clear(t, st.checkpoints, st.out)
}

/// No literal is longer than `reach`.
pub open spec fn within_reach(t: Tables, reach: int) -> bool {
    forall|j: int|
        0 <= j < t.negative_rules.len() ==> (#[trigger] t.negative_rules[j]).1.len() <= reach
}

/// A checkpoint that lies further back than the longest literal reaches does
/// not collide.
pub proof fn lemma_out_of_reach(t: Tables, c: Checkpoint, out: Seq<char>, reach: int)
    requires
        within_reach(t, reach),
        c.at + reach < out.len(),
    ensures
        !checkpoint_collides(t, c, out),
{
    let lits = literals_of(t.negative_rules, c.marker as int);
    crate::rules::lemma_positions_sound(
        markers(t.negative_rules),
        c.marker as int,
        t.negative_rules.len() as int,
    );
    lemma_no_collision(t, lits, c.at, out, reach, lits.len() as int);
}

/// No literal among the first `k` ends the text from a place that lies
/// further back than the longest literal reaches.
proof fn lemma_no_collision(
    t: Tables,
    lits: Seq<int>,
    at: int,
    out: Seq<char>,
    reach: int,
    k: int,
)
    requires
        within_reach(t, reach),
        at + reach < out.len(),
        k <= lits.len(),
        forall|x: int| 0 <= x < lits.len() ==> 0 <= #[trigger] lits[x] < t.negative_rules.len(),
    ensures
        !collides(t.negative_rules, lits, at, out, k),
    decreases k,
{
    if k > 0 {
        lemma_no_collision(t, lits, at, out, reach, k - 1);
        assert(t.negative_rules[lits[k - 1]].1.len() <= reach);
    }
}

/// Where none of the first `n` checkpoints collides, no collision is found
/// among them.
pub proof fn lemma_first_collision_none(
    t: Tables,
    checkpoints: Seq<Checkpoint>,
    out: Seq<char>,
    n: int,
)
    requires
        n <= checkpoints.len(),
        forall|i: int| 0 <= i < n ==> !checkpoint_collides(t, #[trigger] checkpoints[i], out),
    ensures
        first_collision(t, checkpoints, out, n) is None,
    decreases n,
{
    if n > 0 {
        lemma_first_collision_none(t, checkpoints, out, n - 1);
    }
}

/// No forbidden literal stands at one of the checkpoints.
pub open spec fn clear(t: Tables, checkpoints: Seq<Checkpoint>, out: Seq<char>) -> bool {
    forall|i: int, j: int|
        0 <= i < checkpoints.len() && 0 <= j < t.negative_rules.len() && t.negative_rules[j].0
            == (#[trigger] checkpoints[i]).marker ==> !stands_at(
            out,
            checkpoints[i].at,
            (#[trigger] t.negative_rules[j]).1,
        )
}

/// An empty literal among the first `k` constraints is found.
proof fn lemma_forbids_nothing_complete(
    negative_rules: Seq<(u32, Seq<char>)>,
    lits: Seq<int>,
    k: int,
    x: int,
)
    requires
        0 <= x < k <= lits.len(),
        negative_rules[lits[x]].1.len() == 0,
    ensures
        forbids_nothing(negative_rules, lits, k),
    decreases k,
{
    if x < k - 1 {
        lemma_forbids_nothing_complete(negative_rules, lits, k - 1, x);
    }
}

/// A broken constraint among the first `k` is found.
proof fn lemma_collides_complete(
    negative_rules: Seq<(u32, Seq<char>)>,
    lits: Seq<int>,
    at: int,
    out: Seq<char>,
    k: int,
    x: int,
)
    requires
        0 <= x < k <= lits.len(),
        ends_with_at(out, at, negative_rules[lits[x]].1),
    ensures
        collides(negative_rules, lits, at, out, k),
    decreases k,
{
    if x < k - 1 {
        lemma_collides_complete(negative_rules, lits, at, out, k - 1, x);
    }
}

/// Where no collision is found among the first `n` checkpoints, none of them
/// collides; where one is found, it is one of them.
pub proof fn lemma_first_collision(t: Tables, checkpoints: Seq<Checkpoint>, out: Seq<char>, n: int)
    requires
        n <= checkpoints.len(),
    ensures
        match first_collision(t, checkpoints, out, n) {
            None => forall|i: int|
                0 <= i < n ==> !checkpoint_collides(t, #[trigger] checkpoints[i], out),
            Some(i) => 0 <= i < n,
        },
    decreases n,
{
    if n > 0 {
        lemma_first_collision(t, checkpoints, out, n - 1);
    }
}

/// A constraint of a checkpoint's marker that the end of the text breaks
/// makes the checkpoint collide.
proof fn lemma_checkpoint_collides(t: Tables, c: Checkpoint, out: Seq<char>, j: int)
    requires
        0 <= j < t.negative_rules.len(),
        t.negative_rules[j].0 == c.marker,
        ends_with_at(out, c.at, t.negative_rules[j].1),
    ensures
        checkpoint_collides(t, c, out),
{
    let keys = markers(t.negative_rules);
    let lits = literals_of(t.negative_rules, c.marker as int);
    assert(keys[j] == c.marker);
    lemma_positions_complete(keys, c.marker as int, keys.len() as int, j);
    let x = choose|x: int| 0 <= x < lits.len() && lits[x] == j;
    lemma_collides_complete(t.negative_rules, lits, c.at, out, lits.len() as int, x);
}

/// A marker that passes forbids no empty literal.
proof fn lemma_marker_literals(t: Tables, sym: u32, j: int)
    requires
        0 <= j < t.negative_rules.len(),
        t.negative_rules[j].0 == sym,
        !forbids_nothing(
            t.negative_rules,
            literals_of(t.negative_rules, sym as int),
            literals_of(t.negative_rules, sym as int).len() as int,
        ),
    ensures
        t.negative_rules[j].1.len() > 0,
{
    let keys = markers(t.negative_rules);
    let lits = literals_of(t.negative_rules, sym as int);
    assert(keys[j] == sym);
    lemma_positions_complete(keys, sym as int, keys.len() as int, j);
    let x = choose|x: int| 0 <= x < lits.len() && lits[x] == j;
    if t.negative_rules[j].1.len() == 0 {
        lemma_forbids_nothing_complete(t.negative_rules, lits, lits.len() as int, x);
    }
}

/// Passing a marker keeps the state constrained.
proof fn lemma_pass_marker_constrained(t: Tables, st: State, sym: u32, rest: Seq<u32>)
    requires
        constrained(t, st),
    ensures
        t.pass_marker(st, sym, rest) matches Outcome::Next(next) ==> constrained(t, next),
{
    if let Outcome::Next(next) = t.pass_marker(st, sym, rest) {
        let n = st.checkpoints.len() as int;
        assert forall|i: int, j: int|
            0 <= i < next.checkpoints.len() && 0 <= j < t.negative_rules.len()
                && t.negative_rules[j].0 == (#[trigger] next.checkpoints[i]).marker
                implies !stands_at(
            next.out,
            next.checkpoints[i].at,
            (#[trigger] t.negative_rules[j]).1,
        ) by {
            if i < n {
                assert(next.checkpoints[i] == st.checkpoints[i]);
            } else {
                lemma_marker_literals(t, sym, j);
            }
        }
        assert forall|i: int| 0 <= i < next.checkpoints.len() implies 0 <= (
        #[trigger] next.checkpoints[i]).at <= next.out.len() by {
            if i < n {
                assert(next.checkpoints[i] == st.checkpoints[i]);
            }
        }
        assert forall|i: int, k: int| 0 <= i < k < next.checkpoints.len() implies (
        #[trigger] next.checkpoints[i]).at <= (#[trigger] next.checkpoints[k]).at by {
            assert(next.checkpoints[i] == st.checkpoints[i]);
            if k < n {
                assert(next.checkpoints[k] == st.checkpoints[k]);
            }
        }
    }
}

/// Emitting a character keeps the state constrained.
proof fn lemma_emit_constrained(
    t: Tables,
    limit: Option<u64>,
    st: State,
    rest: Seq<u32>,
    ch: char,
    position: int,
)
    requires
        constrained(t, st),
    ensures
        t.emit(limit, st, rest, ch, position) matches Outcome::Next(next) ==> constrained(
            t,
            next,
        ),
{
    if let Outcome::Next(next) = t.emit(limit, st, rest, ch, position) {
        let out = st.out.push(ch);
        let n = st.checkpoints.len() as int;
        lemma_first_collision(t, st.checkpoints, out, n);
        match first_collision(t, st.checkpoints, out, n) {
            None => {
                assert(next.checkpoints == st.checkpoints);
                assert(next.out == out);
                assert forall|i: int, j: int|
                    0 <= i < n && 0 <= j < t.negative_rules.len() && t.negative_rules[j].0 == (
                    #[trigger] st.checkpoints[i]).marker implies !stands_at(
                    out,
                    st.checkpoints[i].at,
                    (#[trigger] t.negative_rules[j]).1,
                ) by {
                    let c = st.checkpoints[i];
                    let f = t.negative_rules[j].1;
                    if stands_at(out, c.at, f) {
                        if c.at + f.len() <= st.out.len() {
                            assert(out.subrange(c.at, c.at + f.len()) =~= st.out.subrange(
                                c.at,
                                c.at + f.len(),
                            ));
                            assert(stands_at(st.out, c.at, f));
                        } else {
                            lemma_checkpoint_collides(t, c, out, j);
                        }
                    }
                }
            },
            Some(i0) => {
                let c = st.checkpoints[i0];
                assert(next.out == cut(out, c.at));
                assert(next.out =~= st.out.take(c.at));
                assert forall|i: int| 0 <= i < next.checkpoints.len() implies 0 <= (
                #[trigger] next.checkpoints[i]).at <= next.out.len() && next.checkpoints[i].at
                    == st.checkpoints[i].at && next.checkpoints[i].marker
                    == st.checkpoints[i].marker by {
                    if i < i0 {
                        assert(next.checkpoints[i] == st.checkpoints[i]);
                    }
                }
                assert forall|i: int, j: int|
                    0 <= i < next.checkpoints.len() && 0 <= j < t.negative_rules.len()
                        && t.negative_rules[j].0 == (#[trigger] next.checkpoints[i]).marker
                        implies !stands_at(
                    next.out,
                    next.checkpoints[i].at,
                    (#[trigger] t.negative_rules[j]).1,
                ) by {
                    let e = st.checkpoints[i];
                    let f = t.negative_rules[j].1;
                    assert(next.checkpoints[i].at == e.at && next.checkpoints[i].marker
                        == e.marker);
                    if stands_at(next.out, e.at, f) {
                        assert(next.out.subrange(e.at, e.at + f.len()) =~= st.out.subrange(
                            e.at,
                            e.at + f.len(),
                        ));
                        assert(stands_at(st.out, e.at, f));
                    }
                }
                assert forall|i: int, k: int| 0 <= i < k < next.checkpoints.len() implies (
                #[trigger] next.checkpoints[i]).at <= (#[trigger] next.checkpoints[k]).at by {
                    assert(next.checkpoints[i].at == st.checkpoints[i].at);
                    assert(next.checkpoints[k].at == st.checkpoints[k].at);
                }
            },
        }
    }
}

/// A step keeps the state constrained, and a derivation that ends with it
/// honors every constraint.
proof fn lemma_step_constrained(t: Tables, buffer: Seq<u8>, limit: Option<u64>, st: State)
    requires
        constrained(t, st),
    ensures
        match t.step(buffer, limit, st) {
            Outcome::Next(next) => constrained(t, next),
            Outcome::Done(Ok(d)) => honors(t, d.text, d.sites),
            Outcome::Done(Err(_)) => true,
        },
{
    if st.work.len() == 0 {
        let sites = sites_of(st.checkpoints);
        assert forall|i: int, j: int|
            0 <= i < sites.len() && 0 <= j < t.negative_rules.len() && (
            #[trigger] t.negative_rules[j]).0 == (#[trigger] sites[i]).1 implies !stands_at(
            st.out,
            sites[i].0,
            t.negative_rules[j].1,
        ) by {
            assert(sites[i] == (st.checkpoints[i].at, st.checkpoints[i].marker));
        }
    } else {
        let sym = st.work.last();
        let rest = st.work.drop_last();
        lemma_pass_marker_constrained(t, st, sym, rest);
        match crate::derivation::kind_of(t.syms, sym) {
            crate::symbol::SymbolKind::Null => {},
            crate::symbol::SymbolKind::Single(c) => {
                lemma_emit_constrained(t, limit, st, rest, c, st.position);
            },
            crate::symbol::SymbolKind::Range(lo, hi) => {
                let n = crate::derivation::span(lo, hi);
                let v = crate::derivation::perturb(
                    crate::cursor::draw_value(buffer, st.position, n),
                    st.salt,
                    n,
                );
                lemma_emit_constrained(
                    t,
                    limit,
                    st,
                    rest,
                    crate::derivation::nth_code(lo, v) as char,
                    crate::cursor::draw_end(buffer, st.position, n),
                );
            },
            crate::symbol::SymbolKind::Nonterminal => {
                lemma_emit_constrained(
                    t,
                    limit,
                    st,
                    rest,
                    crate::derivation::SUBSTITUTE,
                    st.position,
                );
            },
        }
    }
}

/// A step leads from a constrained state to a constrained state.
pub proof fn lemma_step_constrained_next(
    t: Tables,
    buffer: Seq<u8>,
    limit: Option<u64>,
    st: State,
)
    requires
        constrained(t, st),
    ensures
        t.step(buffer, limit, st) matches Outcome::Next(next) ==> constrained(t, next),
{
    lemma_step_constrained(t, buffer, limit, st);
}

/// A run from a constrained state honors every constraint.
proof fn lemma_run_constrained(
    t: Tables,
    buffer: Seq<u8>,
    limit: Option<u64>,
    st: State,
    fuel: nat,
)
    requires
        constrained(t, st),
    ensures
        t.run(buffer, limit, st, fuel) matches Ok(d) ==> honors(t, d.text, d.sites),
    decreases fuel,
{
    if fuel > 0 {
        lemma_step_constrained(t, buffer, limit, st);
        if let Outcome::Next(next) = t.step(buffer, limit, st) {
            lemma_run_constrained(t, buffer, limit, next, (fuel - 1) as nat);
        }
    }
}

/// Negative constraints are honored: in a generated text, no literal that is
/// forbidden after a lookahead marker stands where that marker was passed.
pub proof fn lemma_negative_constraints_honored(
    t: Tables,
    name: Seq<char>,
    buffer: Seq<u8>,
    limit: Option<u64>,
)
    ensures
        t.generate(name, buffer, limit) matches Ok(d) ==> honors(t, d.text, d.sites),
{
    if let Some(s) = t.starts_at(name) {
        lemma_run_constrained(t, buffer, limit, initial(s), crate::derivation::step_budget(limit));
    }
}

} // verus!
