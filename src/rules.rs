use crate::alphabet::Alphabet;
use crate::condition::{holds, Condition};
use crate::module::{Module, State, Word};
use crate::value::{EvalError, Value, SCALE};
use crate::variables::Variables;
use vstd::prelude::*;

verus! {

/// A production: a pattern module with optional context and guard, a
/// selection weight, and the word that replaces a match.
#[derive(Debug, PartialEq)]
pub struct Rule<A: Alphabet> {
    /// The symbol to match; its variables name the matched parameters.
    pub module: Module<A>,
    /// The symbol required as nearest non-bracket neighbour on the left.
    pub previous: Option<A>,
    /// The symbol required as nearest non-bracket neighbour on the right.
    pub next: Option<A>,
    /// A guard over the bound parameters and the global variables.
    pub condition: Option<Condition>,
    /// The weight among competing rules, as a fixed-point number.
    pub probability: i64,
    /// The replacement template.
    pub state: State<A>,
}

/// The rules of an L-system, in registration order.
#[derive(Debug, PartialEq)]
pub struct Rules<A: Alphabet> {
    pub rules: Vec<Rule<A>>,
}

/// The neighbours of a position that rules may ask for.
#[derive(Debug, Clone, Copy, PartialEq, Eq)]
pub struct Context<A: Alphabet> {
    /// The symbol of the nearest non-bracket module to the left.
    pub previous: Option<A>,
    /// The symbol of the nearest non-bracket module to the right.
    pub next: Option<A>,
}

/// The symbol of the nearest non-bracket module before position `j`.
pub open spec fn prev_context<A: Alphabet>(w: Word<A>, j: int) -> Option<A>
    decreases j,
{
    if j <= 0 {
        None
    } else if w[j - 1].0.is_branch() {
        prev_context(w, j - 1)
    } else {
        Some(w[j - 1].0)
    }
}

/// The symbol of the nearest non-bracket module at position `j` or after.
pub open spec fn next_context<A: Alphabet>(w: Word<A>, j: int) -> Option<A>
    decreases w.len() - j,
{
    if j >= w.len() {
        None
    } else if w[j].0.is_branch() {
        next_context(w, j + 1)
    } else {
        Some(w[j].0)
    }
}

/// The actual parameters fit the pattern: same arity, and each pattern
/// parameter that is not a variable equals the actual one.
pub open spec fn pattern_fits(pat: Seq<Value>, act: Seq<Value>) -> bool {
    &&& pat.len() == act.len()
    &&& forall|j: int| 0 <= j < pat.len() ==> (#[trigger] pat[j] is Var || pat[j] == act[j])
}

/// The variables of the pattern bound by position to the actual values; a
/// later occurrence of a name wins.
pub open spec fn bindings(pat: Seq<Value>, act: Seq<Value>) -> Map<char, Value>
    decreases pat.len(),
{
    if pat.len() == 0 {
        Map::empty()
    } else {
        let m = bindings(pat.drop_last(), act.drop_last());
        match pat.last() {
            Value::Var(x) => m.insert(x, act.last()),
            _ => m,
        }
    }
}

/// Whether the rule's context requirements are met by the neighbours.
pub open spec fn context_fits<A: Alphabet>(r: Rule<A>, previous: Option<A>, next: Option<A>) -> bool {
    &&& (r.previous is None || r.previous == previous)
    &&& (r.next is None || r.next == next)
}

/// Whether rule `r` applies at position `i` of `w`, or the error that its
/// guard raised.
pub open spec fn applies<A: Alphabet>(r: Rule<A>, w: Word<A>, i: int, globals: Map<char, Value>) -> Result<
    bool,
    EvalError,
> {
    if r.module.token == w[i].0 && pattern_fits(r.module.params@, w[i].1) && context_fits(
        r,
        prev_context(w, i),
        next_context(w, i + 1),
    ) {
        match r.condition {
            None => Ok(true),
            Some(c) => holds(c, bindings(r.module.params@, w[i].1), globals),
        }
    } else {
        Ok(false)
    }
}

/// The indices, among the first `n` rules, of those that apply at position
/// `i`, in order; or the first guard error met.
pub open spec fn matching<A: Alphabet>(rules: Seq<Rule<A>>, n: int, w: Word<A>, i: int, globals: Map<char, Value>) -> Result<
    Seq<usize>,
    EvalError,
>
    decreases n,
{
    if n <= 0 {
        Ok(Seq::empty())
    } else {
        match matching(rules, n - 1, w, i, globals) {
            Err(e) => Err(e),
            Ok(s) => match applies(rules[n - 1], w, i, globals) {
                Err(e) => Err(e),
                Ok(true) => Ok(s.push((n - 1) as usize)),
                Ok(false) => Ok(s),
            },
        }
    }
}

/// A rule's weight; a weight below zero counts as zero.
pub open spec fn weight<A: Alphabet>(r: Rule<A>) -> int {
    if r.probability > 0 {
        r.probability as int
    } else {
        0
    }
}

/// The sum of the weights of the indexed rules.
pub open spec fn total_weight<A: Alphabet>(rules: Seq<Rule<A>>, idxs: Seq<usize>) -> int
    decreases idxs.len(),
{
    if idxs.len() == 0 {
        0
    } else {
        total_weight(rules, idxs.drop_last()) + weight(rules[idxs.last() as int])
    }
}

/// The position in `idxs` whose slice of the cumulative weights holds `r`;
/// the last position when `r` lies beyond them all.
pub open spec fn pick<A: Alphabet>(rules: Seq<Rule<A>>, idxs: Seq<usize>, r: int) -> int
    decreases idxs.len(),
{
    if idxs.len() <= 1 {
        0
    } else if r < weight(rules[idxs[0] as int]) {
        0
    } else {
        1 + pick(rules, idxs.drop_first(), r - weight(rules[idxs[0] as int]))
    }
}

/// The rule chosen among the applicable ones `idxs` with a random draw:
/// none if there is none; else the one whose weight slice holds the draw
/// modulo the total weight, or the first one if all weights are zero.
pub open spec fn choose_rule<A: Alphabet>(rules: Seq<Rule<A>>, idxs: Seq<usize>, draw: u64) -> Option<usize> {
    if idxs.len() == 0 {
        None
    } else if total_weight(rules, idxs) == 0 {
        Some(idxs[0])
    } else {
        Some(idxs[pick(rules, idxs, draw as int % total_weight(rules, idxs))])
    }
}

/// The rule selected at position `i` of `w` with a random draw, or the first
/// guard error met.
pub open spec fn select<A: Alphabet>(rules: Seq<Rule<A>>, w: Word<A>, i: int, globals: Map<char, Value>, draw: u64) -> Result<
    Option<usize>,
    EvalError,
> {
    match matching(rules, rules.len() as int, w, i, globals) {
        Err(e) => Err(e),
        Ok(idxs) => Ok(choose_rule(rules, idxs, draw)),
    }
}

/// An error met among the first `n` rules stays the result for more rules.
pub proof fn lemma_matching_err<A: Alphabet>(
    rules: Seq<Rule<A>>,
    n: int,
    m: int,
    w: Word<A>,
    i: int,
    globals: Map<char, Value>,
)
    requires
        0 <= n <= m,
        matching(rules, n, w, i, globals) is Err,
    ensures
        matching(rules, m, w, i, globals) == matching(rules, n, w, i, globals),
    decreases m - n,
{
    if m > n {
        lemma_matching_err(rules, n, m - 1, w, i, globals);
    }
}

/// Every index that `matching` yields is of a rule that applies.
pub proof fn lemma_matching_applies<A: Alphabet>(
    rules: Seq<Rule<A>>,
    n: int,
    w: Word<A>,
    i: int,
    globals: Map<char, Value>,
)
    requires
        0 <= n <= rules.len(),
        n <= usize::MAX,
    ensures
        matching(rules, n, w, i, globals) is Ok ==> forall|k: int|
            0 <= k < matching(rules, n, w, i, globals)->Ok_0.len() ==> {
                let x = #[trigger] matching(rules, n, w, i, globals)->Ok_0[k] as int;
                0 <= x < n && applies(rules[x], w, i, globals) == Ok::<bool, EvalError>(true)
            },
    decreases n,
{
    if n > 0 {
        lemma_matching_applies(rules, n - 1, w, i, globals);
        let prev = matching(rules, n - 1, w, i, globals);
        if prev is Ok && applies(rules[n - 1], w, i, globals) == Ok::<bool, EvalError>(true) {
            let s = prev->Ok_0;
            let t = s.push((n - 1) as usize);
            assert(matching(rules, n, w, i, globals) == Ok::<Seq<usize>, EvalError>(t));
            assert forall|k: int| 0 <= k < t.len() implies {
                let x = #[trigger] t[k] as int;
                0 <= x < n && applies(rules[x], w, i, globals) == Ok::<bool, EvalError>(true)
            } by {
                if k < s.len() {
                    assert(t[k] == s[k]);
                }
            }
        }
    }
}

/// `pick` yields a position of `idxs`.
pub proof fn lemma_pick_bounds<A: Alphabet>(rules: Seq<Rule<A>>, idxs: Seq<usize>, r: int)
    requires
        idxs.len() > 0,
    ensures
        0 <= pick(rules, idxs, r) < idxs.len(),
    decreases idxs.len(),
{
    if idxs.len() > 1 && r >= weight(rules[idxs[0] as int]) {
        lemma_pick_bounds(rules, idxs.drop_first(), r - weight(rules[idxs[0] as int]));
    }
}

/// A selected rule is one of the rules, and it applies.
pub proof fn lemma_select_applies<A: Alphabet>(
    rules: Seq<Rule<A>>,
    w: Word<A>,
    i: int,
    globals: Map<char, Value>,
    draw: u64,
)
    requires
        rules.len() <= usize::MAX,
        select(rules, w, i, globals, draw) matches Ok(Some(_)),
    ensures
        ({
            let k = select(rules, w, i, globals, draw)->Ok_0->Some_0 as int;
            0 <= k < rules.len() && applies(rules[k], w, i, globals) == Ok::<bool, EvalError>(true)
        }),
{
    let idxs = matching(rules, rules.len() as int, w, i, globals)->Ok_0;
    lemma_matching_applies(rules, rules.len() as int, w, i, globals);
    if total_weight(rules, idxs) != 0 {
        lemma_pick_bounds(rules, idxs, draw as int % total_weight(rules, idxs));
    }
}

/// Among two or more applicable rules, the first is picked for exactly the
/// draws, reduced modulo the total weight, that fall below its own weight:
/// its share of the draws is its weight over the total.
pub proof fn lemma_first_rule_share<A: Alphabet>(rules: Seq<Rule<A>>, idxs: Seq<usize>, r: int)
    requires
        idxs.len() >= 2,
    ensures
        (pick(rules, idxs, r) == 0) == (r < weight(rules[idxs[0] as int])),
{
    if r >= weight(rules[idxs[0] as int]) {
        lemma_pick_bounds(rules, idxs.drop_first(), r - weight(rules[idxs[0] as int]));
    }
}

/// A rule's weight as an unsigned number.
fn weight_of<A: Alphabet>(r: &Rule<A>) -> (w: u128)
    ensures
        w as int == weight(*r),
        w <= i64::MAX,
{
    if r.probability > 0 {
        r.probability as u128
    } else {
        0
    }
}

fn previous_of<A: Alphabet>(word: &State<A>, i: usize) -> (r: Option<A>)
    requires
        i < word@.len(),
    ensures
        r == prev_context(word@, i as int),
{
    let mut j: usize = i;
    while j > 0
        invariant
            j <= i < word@.len(),
            prev_context(word@, i as int) == prev_context(word@, j as int),
        decreases j,
    {
        let t = word.modules[j - 1].token;
        if !t.is_bracket() {
            return Some(t);
        }
        j = j - 1;
    }
    None
}

fn next_of<A: Alphabet>(word: &State<A>, i: usize) -> (r: Option<A>)
    requires
        i < word@.len(),
    ensures
        r == next_context(word@, i + 1),
{
    let n = word.modules.len();
    let mut k: usize = i + 1;
    while k < n
        invariant
            n == word@.len(),
            i < k <= n,
            next_context(word@, i + 1) == next_context(word@, k as int),
        decreases n - k,
    {
        let t = word.modules[k].token;
        if !t.is_bracket() {
            return Some(t);
        }
        k = k + 1;
    }
    None
}

impl<A: Alphabet> Context<A> {
    /// The neighbours of position `i` of `word`, skipping branch markers.
    pub fn at(word: &State<A>, i: usize) -> (r: Context<A>)
        requires
            i < word@.len(),
        ensures
            r.previous == prev_context(word@, i as int),
            r.next == next_context(word@, i + 1),
    {
        Context { previous: previous_of(word, i), next: next_of(word, i) }
    }
}

impl<A: Alphabet> Rule<A> {
    /// A rule replacing `module` by `state`, with no context, no guard and
    /// weight one.
    pub fn new(module: Module<A>, state: State<A>) -> (r: Rule<A>)
        ensures
            r.module == module,
            r.state == state,
            r.previous is None,
            r.next is None,
            r.condition is None,
            r.probability == SCALE,
    {
        Rule { module, previous: None, next: None, condition: None, probability: SCALE, state }
    }

    /// This rule with its guard replaced.
    pub fn with_condition(self, condition: Option<Condition>) -> (r: Rule<A>)
        ensures
            r == (Rule { condition, ..self }),
    {
        Rule { condition, ..self }
    }

    /// This rule with its right context replaced.
    pub fn with_next(self, next: Option<A>) -> (r: Rule<A>)
        ensures
            r == (Rule { next, ..self }),
    {
        Rule { next, ..self }
    }

    /// This rule with its left context replaced.
    pub fn with_previous(self, previous: Option<A>) -> (r: Rule<A>)
        ensures
            r == (Rule { previous, ..self }),
    {
        Rule { previous, ..self }
    }

    /// This rule with its weight replaced.
    pub fn with_probability(self, probability: i64) -> (r: Rule<A>)
        ensures
            r == (Rule { probability, ..self }),
    {
        Rule { probability, ..self }
    }

    /// The pattern's variables bound to the parameters of `candidate`.
    pub fn bind(&self, candidate: &Module<A>) -> (r: Variables)
        requires
            self.module.params@.len() == candidate.params@.len(),
        ensures
            r@ == bindings(self.module.params@, candidate.params@),
    {
        let pat = &self.module.params;
        let act = &candidate.params;
        let mut r = Variables::new();
        for j in 0..pat.len()
            invariant
                pat@.len() == act@.len(),
                r@ == bindings(pat@.take(j as int), act@.take(j as int)),
        {
            assert(pat@.take(j + 1).drop_last() =~= pat@.take(j as int));
            assert(act@.take(j + 1).drop_last() =~= act@.take(j as int));
            match &pat[j] {
                Value::Var(x) => r.insert(*x, act[j].duplicate()),
                _ => {},
            }
        }
        assert(pat@.take(pat@.len() as int) =~= pat@);
        assert(act@.take(act@.len() as int) =~= act@);
        r
    }

    /// Whether this rule applies at position `i` of `word`, whose neighbours
    /// are `ctx`.
    pub fn applies(&self, word: &State<A>, i: usize, ctx: &Context<A>, variables: &Variables) -> (r:
        Result<bool, EvalError>)
        requires
            i < word@.len(),
            ctx.previous == prev_context(word@, i as int),
            ctx.next == next_context(word@, i + 1),
        ensures
            r == applies(*self, word@, i as int, variables@),
    {
        let candidate = &word.modules[i];
        assert(word@[i as int] == candidate@);
        if !self.module.token.same(&candidate.token) {
            return Ok(false);
        }
        let pat = &self.module.params;
        let act = &candidate.params;
        if pat.len() != act.len() {
            return Ok(false);
        }
        for j in 0..pat.len()
            invariant
                i < word@.len(),
                word@[i as int] == candidate@,
                pat@ == self.module.params@,
                act@ == candidate.params@,
                self.module.token == candidate.token,
                pat@.len() == act@.len(),
                forall|k: int| 0 <= k < j ==> (#[trigger] pat@[k] is Var || pat@[k] == act@[k]),
        {
            let fits = match &pat[j] {
                Value::Var(_) => true,
                p => p.equals(&act[j]),
            };
            if !fits {
                assert(!(pat@[j as int] is Var || pat@[j as int] == act@[j as int]));
                assert(!pattern_fits(pat@, act@));
                return Ok(false);
            }
        }
        match (self.previous, ctx.previous) {
            (Some(t), Some(u)) => if !t.same(&u) {
                return Ok(false);
            },
            (Some(_), None) => {
                return Ok(false);
            },
            _ => {},
        }
        match (self.next, ctx.next) {
            (Some(t), Some(u)) => if !t.same(&u) {
                return Ok(false);
            },
            (Some(_), None) => {
                return Ok(false);
            },
            _ => {},
        }
        match &self.condition {
            None => Ok(true),
            Some(c) => {
                let locals = self.bind(candidate);
                c.is_true(&locals, variables)
            },
        }
    }
}

impl<A: Alphabet> Rules<A> {
    /// No rules.
    pub fn new() -> (r: Rules<A>)
        ensures
            r.rules@ == Seq::<Rule<A>>::empty(),
    {
        Rules { rules: Vec::new() }
    }

    /// Adds `rule` after the rules registered so far.
    pub fn append(&mut self, rule: Rule<A>)
        ensures
            final(self).rules@ == old(self).rules@.push(rule),
    {
        self.rules.push(rule);
    }

    /// The indices of the rules that apply at position `i` of `word`, in
    /// order, or the first guard error met.
    pub fn matching(&self, word: &State<A>, i: usize, variables: &Variables) -> (r: Result<
        Vec<usize>,
        EvalError,
    >)
        requires
            i < word@.len(),
        ensures
            match r {
                Ok(v) => matching(self.rules@, self.rules@.len() as int, word@, i as int, variables@)
                    == Ok::<Seq<usize>, EvalError>(v@),
                Err(e) => matching(self.rules@, self.rules@.len() as int, word@, i as int, variables@)
                    == Err::<Seq<usize>, EvalError>(e),
            },
    {
        let ctx = Context::at(word, i);
        let mut out: Vec<usize> = Vec::new();
        for k in 0..self.rules.len()
            invariant
                i < word@.len(),
                ctx.previous == prev_context(word@, i as int),
                ctx.next == next_context(word@, i + 1),
                matching(self.rules@, k as int, word@, i as int, variables@) == Ok::<
                    Seq<usize>,
                    EvalError,
                >(out@),
        {
            match self.rules[k].applies(word, i, &ctx, variables) {
                Err(e) => {
                    proof {
                        lemma_matching_err(
                            self.rules@,
                            k + 1,
                            self.rules@.len() as int,
                            word@,
                            i as int,
                            variables@,
                        );
                    }
                    return Err(e);
                },
                Ok(true) => out.push(k),
                Ok(false) => {},
            }
        }
        Ok(out)
    }

    /// The rule to apply at position `i` of `word` given a random draw (see
    /// `choose_rule`), none if no rule applies, or the first guard error met.
    pub fn select(&self, word: &State<A>, i: usize, variables: &Variables, draw: u64) -> (r: Result<
        Option<usize>,
        EvalError,
    >)
        requires
            i < word@.len(),
        ensures
            r == select(self.rules@, word@, i as int, variables@, draw),
    {
        let idxs = match self.matching(word, i, variables) {
            Ok(v) => v,
            Err(e) => return Err(e),
        };
        let ghost rules = self.rules@;
        // The length of a `Vec` is a `usize`, which the lemma needs.
        let _ = self.rules.len();
        proof {
            lemma_matching_applies(rules, rules.len() as int, word@, i as int, variables@);
        }
        if idxs.len() == 0 {
            return Ok(None);
        }
        let mut total: u128 = 0;
        for j in 0..idxs.len()
            invariant
                rules == self.rules@,
                forall|k: int| 0 <= k < idxs@.len() ==> #[trigger] idxs@[k] < rules.len(),
                total as int == total_weight(rules, idxs@.take(j as int)),
                total <= j * (i64::MAX as int),
        {
            assert(idxs@.take(j + 1).drop_last() =~= idxs@.take(j as int));
            let w = weight_of(&self.rules[idxs[j]]);
            assert(total + w <= (j + 1) * (i64::MAX as int)) by (nonlinear_arith)
                requires
                    total <= j * (i64::MAX as int),
                    w <= i64::MAX,
            ;
            assert((j + 1) * (i64::MAX as int) < u128::MAX) by (nonlinear_arith)
                requires
                    j < usize::MAX,
            ;
            total = total + w;
        }
        assert(idxs@.take(idxs@.len() as int) =~= idxs@);
        if total == 0 {
            return Ok(Some(idxs[0]));
        }
        let r0: u128 = (draw as u128) % total;
        let mut rem: u128 = r0;
        let mut j: usize = 0;
        assert(idxs@.skip(0) =~= idxs@);
        let last = idxs.len() - 1;
        while j < last
            invariant
                last == idxs@.len() - 1,
                matching(rules, rules.len() as int, word@, i as int, variables@) == Ok::<
                    Seq<usize>,
                    EvalError,
                >(idxs@),
                total > 0,
                total as int == total_weight(rules, idxs@),
                r0 as int == draw as int % total as int,
                rules == self.rules@,
                forall|k: int| 0 <= k < idxs@.len() ==> #[trigger] idxs@[k] < rules.len(),
                j < idxs@.len(),
                pick(rules, idxs@, r0 as int) == j + pick(rules, idxs@.skip(j as int), rem as int),
            decreases idxs@.len() - j,
        {
            let w = weight_of(&self.rules[idxs[j]]);
            assert(idxs@.skip(j as int)[0] == idxs@[j as int]);
            if rem < w {
                return Ok(Some(idxs[j]));
            }
            assert(idxs@.skip(j as int).drop_first() =~= idxs@.skip(j + 1));
            rem = rem - w;
            j = j + 1;
        }
        Ok(Some(idxs[j]))
    }
}

} // verus!
