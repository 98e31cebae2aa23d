use crate::alphabet::Alphabet;
use crate::module::{lemma_word_push, word_of, Axiom, Module, State, Word};
use crate::rules::{bindings, matching, select, Rule, Rules};
use crate::value::{eval, EvalError, Value};
use crate::variables::Variables;
use vstd::prelude::*;

verus! {

/// A source of random draws, handed to each derivation so that a seeded
/// source makes derivations reproducible.
pub trait RandomSource {
    /// The next draw.
    fn draw(&mut self) -> u64;
}

/// An evaluation error met while rewriting, with the position, in the word
/// being rewritten, of the module whose production raised it.
#[derive(Debug, Clone, Copy, PartialEq, Eq, Structural)]
pub struct DerivationError {
    pub position: usize,
    pub cause: EvalError,
}

/// An axiom, its rules and the global variables.
#[derive(Debug)]
pub struct LSystem<A: Alphabet> {
    pub initial: Axiom<A>,
    pub rules: Rules<A>,
    pub variables: Variables,
}

/// Collects the parts of an [`LSystem`].
#[derive(Debug)]
pub struct LSystemBuilder<A: Alphabet> {
    pub initial: Axiom<A>,
    pub rules: Rules<A>,
    pub variables: Variables,
}

/// Values evaluated one by one, or the first error met.
pub open spec fn eval_params(ps: Seq<Value>, locals: Map<char, Value>, globals: Map<char, Value>) -> Result<
    Seq<Value>,
    EvalError,
>
    decreases ps.len(),
{
    if ps.len() == 0 {
        Ok(Seq::empty())
    } else {
        match eval_params(ps.drop_last(), locals, globals) {
            Err(e) => Err(e),
            Ok(s) => match eval(ps.last(), locals, globals) {
                Err(e) => Err(e),
                Ok(v) => Ok(s.push(v)),
            },
        }
    }
}

/// A replacement template with every parameter evaluated, or the first
/// error met.
pub open spec fn instantiate<A: Alphabet>(t: Word<A>, locals: Map<char, Value>, globals: Map<char, Value>) -> Result<
    Word<A>,
    EvalError,
>
    decreases t.len(),
{
    if t.len() == 0 {
        Ok(Seq::empty())
    } else {
        match instantiate(t.drop_last(), locals, globals) {
            Err(e) => Err(e),
            Ok(s) => match eval_params(t.last().1, locals, globals) {
                Err(e) => Err(e),
                Ok(ps) => Ok(s.push((t.last().0, ps))),
            },
        }
    }
}

/// What position `i` of `w` becomes in the next generation: the selected
/// rule's template instantiated with the module's parameters, or the module
/// itself where no rule applies.
pub open spec fn production<A: Alphabet>(
    rules: Seq<Rule<A>>,
    w: Word<A>,
    i: int,
    globals: Map<char, Value>,
    draw: u64,
) -> Result<Word<A>, EvalError> {
    match select(rules, w, i, globals, draw) {
        Err(e) => Err(e),
        Ok(None) => Ok(seq![w[i]]),
        Ok(Some(k)) => instantiate(
            rules[k as int].state@,
            bindings(rules[k as int].module.params@, w[i].1),
            globals,
        ),
    }
}

/// The productions of the first `n` positions, concatenated in order.
pub open spec fn step_upto<A: Alphabet>(
    rules: Seq<Rule<A>>,
    w: Word<A>,
    globals: Map<char, Value>,
    draws: Seq<u64>,
    n: int,
) -> Result<Word<A>, DerivationError>
    decreases n,
{
    if n <= 0 {
        Ok(Seq::empty())
    } else {
        match step_upto(rules, w, globals, draws, n - 1) {
            Err(e) => Err(e),
            Ok(s) => match production(rules, w, n - 1, globals, draws[n - 1]) {
                Err(e) => Err(DerivationError { position: (n - 1) as usize, cause: e }),
                Ok(p) => Ok(s + p),
            },
        }
    }
}

/// One generation: every position of `w` rewritten, with draw `draws[i]`
/// for position `i`.
pub open spec fn step<A: Alphabet>(rules: Seq<Rule<A>>, w: Word<A>, globals: Map<char, Value>, draws: Seq<u64>) -> Result<
    Word<A>,
    DerivationError,
> {
    step_upto(rules, w, globals, draws, w.len() as int)
}

/// The word after `n` generations from `w`, generation `k` using the draws
/// `draws[k]`.
pub open spec fn derive<A: Alphabet>(
    rules: Seq<Rule<A>>,
    w: Word<A>,
    globals: Map<char, Value>,
    draws: Seq<Seq<u64>>,
    n: nat,
) -> Result<Word<A>, DerivationError>
    decreases n,
{
    if n == 0 {
        Ok(w)
    } else {
        match derive(rules, w, globals, draws, (n - 1) as nat) {
            Err(e) => Err(e),
            Ok(v) => step(rules, v, globals, draws[n - 1]),
        }
    }
}

/// The view of a derivation's outcome.
pub open spec fn outcome<A: Alphabet>(r: Result<State<A>, DerivationError>) -> Result<Word<A>, DerivationError> {
    match r {
        Ok(s) => Ok(s@),
        Err(e) => Err(e),
    }
}

/// An error in the first `n` positions stays the result for more positions.
pub proof fn lemma_step_err<A: Alphabet>(
    rules: Seq<Rule<A>>,
    w: Word<A>,
    globals: Map<char, Value>,
    draws: Seq<u64>,
    n: int,
    m: int,
)
    requires
        0 <= n <= m,
        step_upto(rules, w, globals, draws, n) is Err,
    ensures
        step_upto(rules, w, globals, draws, m) == step_upto(rules, w, globals, draws, n),
    decreases m - n,
{
    if m > n {
        lemma_step_err(rules, w, globals, draws, n, m - 1);
    }
}

fn eval_values(ps: &Vec<Value>, locals: &Variables, globals: &Variables) -> (r: Result<
    Vec<Value>,
    EvalError,
>)
    ensures
        match r {
            Ok(v) => eval_params(ps@, locals@, globals@) == Ok::<Seq<Value>, EvalError>(v@),
            Err(e) => eval_params(ps@, locals@, globals@) == Err::<Seq<Value>, EvalError>(e),
        },
{
    let mut out: Vec<Value> = Vec::new();
    for j in 0..ps.len()
        invariant
            eval_params(ps@.take(j as int), locals@, globals@) == Ok::<Seq<Value>, EvalError>(
                out@,
            ),
    {
        assert(ps@.take(j + 1).drop_last() =~= ps@.take(j as int));
        match ps[j].evaluate(locals, globals) {
            Ok(v) => out.push(v),
            Err(e) => {
                assert(eval_params(ps@.take(j + 1), locals@, globals@) is Err);
                proof {
                    lemma_eval_params_err(ps@, j + 1, locals@, globals@);
                }
                return Err(e);
            },
        }
    }
    assert(ps@.take(ps@.len() as int) =~= ps@);
    Ok(out)
}

/// An error in a prefix of the values is the error of all of them.
proof fn lemma_eval_params_err(
    ps: Seq<Value>,
    n: int,
    locals: Map<char, Value>,
    globals: Map<char, Value>,
)
    requires
        0 <= n <= ps.len(),
        eval_params(ps.take(n), locals, globals) is Err,
    ensures
        eval_params(ps, locals, globals) == eval_params(ps.take(n), locals, globals),
    decreases ps.len() - n,
{
    if n < ps.len() {
        assert(ps.take(n + 1).drop_last() =~= ps.take(n));
        lemma_eval_params_err(ps, n + 1, locals, globals);
    } else {
        assert(ps.take(n) =~= ps);
    }
}

/// An error in a prefix of a template is the error of all of it.
proof fn lemma_instantiate_err<A: Alphabet>(
    t: Word<A>,
    n: int,
    locals: Map<char, Value>,
    globals: Map<char, Value>,
)
    requires
        0 <= n <= t.len(),
        instantiate(t.take(n), locals, globals) is Err,
    ensures
        instantiate(t, locals, globals) == instantiate(t.take(n), locals, globals),
    decreases t.len() - n,
{
    if n < t.len() {
        assert(t.take(n + 1).drop_last() =~= t.take(n));
        lemma_instantiate_err(t, n + 1, locals, globals);
    } else {
        assert(t.take(n) =~= t);
    }
}

impl<A: Alphabet> LSystem<A> {
    /// The system of `initial`, `rules` and global `variables`.
    pub fn new(initial: Axiom<A>, rules: Rules<A>, variables: Variables) -> (r: LSystem<A>)
        ensures
            r.initial == initial,
            r.rules == rules,
            r.variables == variables,
    {
        LSystem { initial, rules, variables }
    }

    /// Appends the production of position `i` of `word` to `out`, or
    /// returns the error it raised.
    fn produce(&self, word: &State<A>, i: usize, draw: u64, out: &mut Vec<Module<A>>) -> (r: Result<
        (),
        EvalError,
    >)
        requires
            i < word@.len(),
        ensures
            match production(self.rules.rules@, word@, i as int, self.variables@, draw) {
                Ok(p) => r is Ok && word_of(final(out)@) == word_of(old(out)@) + p,
                Err(e) => r == Err::<(), EvalError>(e),
            },
    {
        let ghost start = word_of(out@);
        match self.rules.select(word, i, &self.variables, draw) {
            Err(e) => Err(e),
            Ok(None) => {
                let m = word.modules[i].duplicate();
                proof {
                    lemma_word_push(out@, m);
                }
                out.push(m);
                assert(word_of(out@) =~= start + seq![word@[i as int]]);
                Ok(())
            },
            Ok(Some(k)) => {
                // The length of a `Vec` is a `usize`, which the lemma needs.
                let _ = self.rules.rules.len();
                proof {
                    crate::rules::lemma_select_applies(
                        self.rules.rules@,
                        word@,
                        i as int,
                        self.variables@,
                        draw,
                    );
                }
                let rule = &self.rules.rules[k];
                let candidate = &word.modules[i];
                assert(word@[i as int] == candidate@);
                let locals = rule.bind(candidate);
                let tmpl = &rule.state.modules;
                let ghost t = rule.state@;
                assert(t.take(0) =~= Seq::<(A, Seq<Value>)>::empty());
                assert(word_of(out@) =~= start + Seq::<(A, Seq<Value>)>::empty());
                assert(locals@ == bindings(
                    self.rules.rules@[k as int].module.params@,
                    word@[i as int].1,
                ));
                for j in 0..tmpl.len()
                    invariant
                        i < word@.len(),
                        select(self.rules.rules@, word@, i as int, self.variables@, draw) == Ok::<
                            Option<usize>,
                            EvalError,
                        >(Some(k)),
                        k < self.rules.rules@.len(),
                        *rule == self.rules.rules@[k as int],
                        t == rule.state@,
                        locals@ == bindings(
                            self.rules.rules@[k as int].module.params@,
                            word@[i as int].1,
                        ),
                        t == word_of(tmpl@),
                        instantiate(t.take(j as int), locals@, self.variables@) is Ok,
                        word_of(out@) == start + instantiate(
                            t.take(j as int),
                            locals@,
                            self.variables@,
                        )->Ok_0,
                {
                    assert(t.take(j + 1).drop_last() =~= t.take(j as int));
                    let m = &tmpl[j];
                    match eval_values(&m.params, &locals, &self.variables) {
                        Ok(ps) => {
                            assert(t.take(j + 1).last() == m@);
                            let nm = Module { token: m.token, params: ps };
                            proof {
                                lemma_word_push(out@, nm);
                            }
                            out.push(nm);
                            assert(word_of(out@) =~= start + instantiate(
                                t.take(j + 1),
                                locals@,
                                self.variables@,
                            )->Ok_0);
                        },
                        Err(e) => {
                            assert(t.take(j + 1).last() == m@);
                            assert(instantiate(t.take(j + 1), locals@, self.variables@) == Err::<
                                Word<A>,
                                EvalError,
                            >(e));
                            proof {
                                lemma_instantiate_err(t, j + 1, locals@, self.variables@);
                            }
                            return Err(e);
                        },
                    }
                }
                assert(t.take(t.len() as int) =~= t);
                Ok(())
            },
        }
    }

    /// One generation from `word`, using `draws[i]` to choose among the
    /// rules that apply at position `i`.
    pub fn step(&self, word: &State<A>, draws: &Vec<u64>) -> (r: Result<State<A>, DerivationError>)
        requires
            draws@.len() == word@.len(),
        ensures
            outcome(r) == step(self.rules.rules@, word@, self.variables@, draws@),
    {
        let mut out: Vec<Module<A>> = Vec::new();
        assert(word_of(out@) =~= Seq::<(A, Seq<Value>)>::empty());
        for i in 0..word.modules.len()
            invariant
                draws@.len() == word@.len(),
                step_upto(self.rules.rules@, word@, self.variables@, draws@, i as int) == Ok::<
                    Word<A>,
                    DerivationError,
                >(word_of(out@)),
        {
            match self.produce(word, i, draws[i], &mut out) {
                Ok(()) => {},
                Err(e) => {
                    proof {
                        lemma_step_err(
                            self.rules.rules@,
                            word@,
                            self.variables@,
                            draws@,
                            i + 1,
                            word@.len() as int,
                        );
                    }
                    return Err(DerivationError { position: i, cause: e });
                },
            }
        }
        Ok(State::new(out))
    }

    /// The word after `generation` rewriting steps from the axiom, drawing
    /// from `rng` one number per position and step; or the first evaluation
    /// error met.
    pub fn sample<R: RandomSource>(&self, generation: usize, rng: &mut R) -> (r: Result<
        State<A>,
        DerivationError,
    >)
        ensures
            exists|draws: Seq<Seq<u64>>|
                outcome(r) == derive(
                    self.rules.rules@,
                    self.initial@,
                    self.variables@,
                    draws,
                    generation as nat,
                ),
            generation == 0 ==> outcome(r) == Ok::<Word<A>, DerivationError>(self.initial@),
    {
        let mut word = self.initial.inner.duplicate();
        let ghost mut used: Seq<Seq<u64>> = Seq::empty();
        for g in 0..generation
            invariant
                used.len() == g,
                derive(self.rules.rules@, self.initial@, self.variables@, used, g as nat) == Ok::<
                    Word<A>,
                    DerivationError,
                >(word@),
        {
            let mut draws: Vec<u64> = Vec::new();
            for j in 0..word.modules.len()
                invariant
                    draws@.len() == j,
            {
                draws.push(rng.draw());
            }
            proof {
                lemma_derive_extend(
                    self.rules.rules@,
                    self.initial@,
                    self.variables@,
                    used,
                    draws@,
                    g as nat,
                );
            }
            let ghost next = used.push(draws@);
            match self.step(&word, &draws) {
                Ok(w) => {
                    word = w;
                },
                Err(e) => {
                    proof {
                        lemma_derive_after_err(
                            self.rules.rules@,
                            self.initial@,
                            self.variables@,
                            next,
                            (g + 1) as nat,
                            generation as nat,
                        );
                    }
                    return Err(e);
                },
            }
            proof {
                used = next;
            }
        }
        Ok(word)
    }
}

/// A derivation extended by one more set of draws takes one more step.
proof fn lemma_derive_extend<A: Alphabet>(
    rules: Seq<Rule<A>>,
    w: Word<A>,
    globals: Map<char, Value>,
    used: Seq<Seq<u64>>,
    draws: Seq<u64>,
    n: nat,
)
    requires
        used.len() == n,
    ensures
        derive(rules, w, globals, used.push(draws), n) == derive(rules, w, globals, used, n),
        derive(rules, w, globals, used.push(draws), n + 1) == (match derive(
            rules,
            w,
            globals,
            used,
            n,
        ) {
            Err(e) => Err(e),
            Ok(v) => step(rules, v, globals, draws),
        }),
{
    lemma_derive_prefix(rules, w, globals, used, used.push(draws), n);
}

/// A derivation reads only the draws of the steps it takes.
proof fn lemma_derive_prefix<A: Alphabet>(
    rules: Seq<Rule<A>>,
    w: Word<A>,
    globals: Map<char, Value>,
    a: Seq<Seq<u64>>,
    b: Seq<Seq<u64>>,
    n: nat,
)
    requires
        n <= a.len(),
        n <= b.len(),
        forall|k: int| 0 <= k < n ==> a[k] == b[k],
    ensures
        derive(rules, w, globals, a, n) == derive(rules, w, globals, b, n),
    decreases n,
{
    if n > 0 {
        lemma_derive_prefix(rules, w, globals, a, b, (n - 1) as nat);
    }
}

/// Once a derivation fails, every longer one fails alike.
proof fn lemma_derive_after_err<A: Alphabet>(
    rules: Seq<Rule<A>>,
    w: Word<A>,
    globals: Map<char, Value>,
    draws: Seq<Seq<u64>>,
    n: nat,
    m: nat,
)
    requires
        n <= m,
        derive(rules, w, globals, draws, n) is Err,
    ensures
        derive(rules, w, globals, draws, m) == derive(rules, w, globals, draws, n),
    decreases m - n,
{
    if m > n {
        lemma_derive_after_err(rules, w, globals, draws, n, (m - 1) as nat);
    }
}

/// Zero generations give the starting word, whatever the draws.
pub proof fn lemma_generation_zero<A: Alphabet>(sys: &LSystem<A>, draws: Seq<Seq<u64>>)
    ensures
        derive(sys.rules.rules@, sys.initial@, sys.variables@, draws, 0) == Ok::<Word<A>, DerivationError>(
            sys.initial@,
        ),
{
}

/// At most one rule applies at any position of `w`.
pub open spec fn unambiguous<A: Alphabet>(rules: Seq<Rule<A>>, w: Word<A>, globals: Map<char, Value>) -> bool {
    forall|i: int|
        0 <= i < w.len() && (#[trigger] matching(rules, rules.len() as int, w, i, globals)) is Ok
            ==> matching(rules, rules.len() as int, w, i, globals)->Ok_0.len() <= 1
}

/// At most one rule applies at any position of any word that a derivation
/// of fewer than `n` steps from `start` reaches, whatever was drawn.
pub open spec fn unambiguous_from<A: Alphabet>(
    rules: Seq<Rule<A>>,
    start: Word<A>,
    globals: Map<char, Value>,
    n: nat,
) -> bool {
    forall|draws: Seq<Seq<u64>>, k: nat|
        k < n && (#[trigger] derive(rules, start, globals, draws, k)) is Ok ==> unambiguous(
            rules,
            derive(rules, start, globals, draws, k)->Ok_0,
            globals,
        )
}

/// Without competing rules a position's production ignores its draw.
proof fn lemma_production_ignores_draw<A: Alphabet>(
    rules: Seq<Rule<A>>,
    w: Word<A>,
    i: int,
    globals: Map<char, Value>,
    a: u64,
    b: u64,
)
    requires
        unambiguous(rules, w, globals),
        0 <= i < w.len(),
    ensures
        production(rules, w, i, globals, a) == production(rules, w, i, globals, b),
{
    let m = matching(rules, rules.len() as int, w, i, globals);
    if m is Ok {
        let idxs = m->Ok_0;
        assert(idxs.len() <= 1);
        if idxs.len() == 1 {
            assert(crate::rules::pick(rules, idxs, a as int % crate::rules::total_weight(rules, idxs))
                == 0);
            assert(crate::rules::pick(rules, idxs, b as int % crate::rules::total_weight(rules, idxs))
                == 0);
        }
    }
}

/// Without competing rules a generation ignores its draws.
proof fn lemma_step_ignores_draws<A: Alphabet>(
    rules: Seq<Rule<A>>,
    w: Word<A>,
    globals: Map<char, Value>,
    a: Seq<u64>,
    b: Seq<u64>,
    n: int,
)
    requires
        unambiguous(rules, w, globals),
        0 <= n <= w.len(),
    ensures
        step_upto(rules, w, globals, a, n) == step_upto(rules, w, globals, b, n),
    decreases n,
{
    if n > 0 {
        lemma_step_ignores_draws(rules, w, globals, a, b, n - 1);
        lemma_production_ignores_draw(rules, w, n - 1, globals, a[n - 1], b[n - 1]);
    }
}

/// Determinism: where at most one rule applies at every position of every
/// word reached from `w`, any two derivations of the same length from `w`
/// agree, whatever was drawn for them.
pub proof fn lemma_deterministic<A: Alphabet>(
    rules: Seq<Rule<A>>,
    w: Word<A>,
    globals: Map<char, Value>,
    a: Seq<Seq<u64>>,
    b: Seq<Seq<u64>>,
    n: nat,
)
    requires
        unambiguous_from(rules, w, globals, n),
    ensures
        derive(rules, w, globals, a, n) == derive(rules, w, globals, b, n),
    decreases n,
{
    if n > 0 {
        lemma_deterministic(rules, w, globals, a, b, (n - 1) as nat);
        let prev = derive(rules, w, globals, a, (n - 1) as nat);
        if prev is Ok {
            assert(unambiguous(rules, prev->Ok_0, globals));
            let v = prev->Ok_0;
            lemma_step_ignores_draws(rules, v, globals, a[n - 1], b[n - 1], v.len() as int);
        }
    }
}

impl<A: Alphabet> LSystemBuilder<A> {
    /// A builder that starts from `initial`, with no rules and no variables.
    pub fn new(initial: Axiom<A>) -> (r: LSystemBuilder<A>)
        ensures
            r.initial == initial,
            r.rules.rules@ == Seq::<Rule<A>>::empty(),
            r.variables@ == Map::<char, Value>::empty(),
    {
        LSystemBuilder { initial, rules: Rules::new(), variables: Variables::new() }
    }

    /// Binds the global variable `key` to `val`.
    pub fn variable(self, key: char, val: Value) -> (r: LSystemBuilder<A>)
        ensures
            r.initial == self.initial,
            r.rules == self.rules,
            r.variables@ == self.variables@.insert(key, val),
    {
        let mut b = self;
        b.variables.insert(key, val);
        b
    }

    /// Adds `rule` after the rules added so far.
    pub fn rule(self, rule: Rule<A>) -> (r: LSystemBuilder<A>)
        ensures
            r.initial == self.initial,
            r.rules.rules@ == self.rules.rules@.push(rule),
            r.variables == self.variables,
    {
        let mut b = self;
        b.rules.append(rule);
        b
    }

    /// The system collected so far.
    pub fn build(self) -> (r: LSystem<A>)
        ensures
            r.initial == self.initial,
            r.rules == self.rules,
            r.variables == self.variables,
    {
        LSystem::new(self.initial, self.rules, self.variables)
    }
}

} // verus!
