use crate::alphabet::Alphabet;
use crate::value::Value;
use vstd::prelude::*;

verus! {

/// A word seen as a sequence of symbols with their parameter values.
pub type Word<A> = Seq<(A, Seq<Value>)>;

/// One symbol of a word with its ordered parameter values.
#[derive(Debug, Clone, PartialEq)]
pub struct Module<A: Alphabet> {
    pub token: A,
    pub params: Vec<Value>,
}

impl<A: Alphabet> View for Module<A> {
    type V = (A, Seq<Value>);

    open spec fn view(&self) -> (A, Seq<Value>) {
        (self.token, self.params@)
    }
}

/// The view of each module of a sequence.
pub open spec fn word_of<A: Alphabet>(ms: Seq<Module<A>>) -> Word<A> {
    ms.map_values(|m: Module<A>| m@)
}

/// Appending a module appends its view.
pub proof fn lemma_word_push<A: Alphabet>(ms: Seq<Module<A>>, m: Module<A>)
    ensures
        word_of(ms.push(m)) == word_of(ms).push(m@),
{
    assert(word_of(ms.push(m)) =~= word_of(ms).push(m@));
}

/// A copy of a sequence of values.
pub fn copy_values(vs: &Vec<Value>) -> (r: Vec<Value>)
    ensures
        r@ == vs@,
{
    let mut r: Vec<Value> = Vec::new();
    for j in 0..vs.len()
        invariant
            r@ == vs@.take(j as int),
    {
        r.push(vs[j].duplicate());
        assert(r@ =~= vs@.take(j + 1));
    }
    assert(vs@.take(vs@.len() as int) =~= vs@);
    r
}

impl<A: Alphabet> Module<A> {
    /// A module of `token` without parameters.
    pub fn new(token: A) -> (r: Module<A>)
        ensures
            r@ == (token, Seq::<Value>::empty()),
    {
        Module { token, params: Vec::new() }
    }

    /// This module with its parameters replaced by `params`.
    pub fn params(self, params: Vec<Value>) -> (r: Module<A>)
        ensures
            r@ == (self.token, params@),
    {
        Module { token: self.token, params }
    }

    /// A copy of this module.
    pub fn duplicate(&self) -> (r: Module<A>)
        ensures
            r@ == self@,
    {
        Module { token: self.token, params: copy_values(&self.params) }
    }
}

/// A word: modules in reading order.
#[derive(Debug, Clone, PartialEq)]
pub struct State<A: Alphabet> {
    pub modules: Vec<Module<A>>,
}

impl<A: Alphabet> View for State<A> {
    type V = Word<A>;

    open spec fn view(&self) -> Word<A> {
        word_of(self.modules@)
    }
}

impl<A: Alphabet> State<A> {
    /// The word made of `modules`, in their order.
    pub fn new(modules: Vec<Module<A>>) -> (r: State<A>)
        ensures
            r@ == word_of(modules@),
    {
        State { modules }
    }

    /// The number of modules.
    pub fn len(&self) -> (r: usize)
        ensures
            r == self@.len(),
    {
        self.modules.len()
    }

    /// A copy of this word.
    pub fn duplicate(&self) -> (r: State<A>)
        ensures
            r@ == self@,
    {
        let mut out: Vec<Module<A>> = Vec::new();
        for j in 0..self.modules.len()
            invariant
                word_of(out@) == self@.take(j as int),
        {
            let m = self.modules[j].duplicate();
            proof {
                lemma_word_push(out@, m);
            }
            out.push(m);
            assert(word_of(out@) =~= self@.take(j + 1));
        }
        assert(self@.take(self@.len() as int) =~= self@);
        State { modules: out }
    }
}

/// The word an L-system starts from.
#[derive(Debug, Clone, PartialEq)]
pub struct Axiom<A: Alphabet> {
    pub inner: State<A>,
}

impl<A: Alphabet> View for Axiom<A> {
    type V = Word<A>;

    open spec fn view(&self) -> Word<A> {
        self.inner@
    }
}

impl<A: Alphabet> Axiom<A> {
    /// The axiom that starts from `inner`.
    pub fn new(inner: State<A>) -> (r: Axiom<A>)
        ensures
            r@ == inner@,
    {
        Axiom { inner }
    }

    /// The axiom made of `tokens`, each without parameters.
    pub fn from_tokens(tokens: Vec<A>) -> (r: Axiom<A>)
        ensures
            r@.len() == tokens@.len(),
            forall|j: int| 0 <= j < tokens@.len() ==> #[trigger] r@[j] == (tokens@[j], Seq::<Value>::empty()),
    {
        let mut out: Vec<Module<A>> = Vec::new();
        for j in 0..tokens.len()
            invariant
                word_of(out@).len() == j,
                forall|k: int| 0 <= k < j ==> #[trigger] word_of(out@)[k] == (tokens@[k], Seq::<Value>::empty()),
        {
            let m = Module::new(tokens[j]);
            proof {
                lemma_word_push(out@, m);
            }
            out.push(m);
        }
        Axiom { inner: State { modules: out } }
    }
}

} // verus!
