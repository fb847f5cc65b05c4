use vstd::prelude::*;

use crate::fragment::Info;
use crate::synth::{lemma_total_args_concat, total_args};

verus! {

/// A complete invocable script unit: fragments in execution order, each with
/// its arguments bound, the values flattened in the same order.
pub trait Script<V>: Sized {
    /// The unit's fragments, in execution order.
    spec fn fragments(&self) -> Seq<Info>;

    /// The unit's bound argument values, flattened in fragment order.
    spec fn arguments(&self) -> Seq<V>;

    /// Appends the unit's fragments to `out`. Every declared argument of
    /// every fragment has exactly one bound value.
    fn info(&self, out: &mut Vec<Info>)
        ensures
            final(out)@ == old(out)@ + self.fragments(),
            self.arguments().len() == total_args(self.fragments()),
    ;

    /// Appends the unit's argument values to `out`. Every declared argument
    /// of every fragment has exactly one bound value.
    fn apply(self, out: &mut Vec<V>)
        ensures
            final(out)@ == old(out)@ + self.arguments(),
            self.arguments().len() == total_args(self.fragments()),
    ;
}

/// The empty unit: no fragments, no arguments.
impl<V> Script<V> for () {
    open spec fn fragments(&self) -> Seq<Info> {
        Seq::empty()
    }

    open spec fn arguments(&self) -> Seq<V> {
        Seq::empty()
    }

    fn info(&self, out: &mut Vec<Info>) {
        assert(final(out)@ =~= old(out)@ + Seq::<Info>::empty());
    }

    fn apply(self, out: &mut Vec<V>) {
        assert(final(out)@ =~= old(out)@ + Seq::<V>::empty());
    }
}

/// The unit that runs `a`, then `b`: its fragments and its arguments are
/// those of `a` followed by those of `b`.
pub fn join<V, S: Script<V>, T: Script<V>>(a: S, b: T) -> (r: ScriptJoin<S, T>)
    ensures
        r.fragments() == a.fragments() + b.fragments(),
        r.arguments() == a.arguments() + b.arguments(),
{
    ScriptJoin::new(a, b)
}

/// Two units run one after the other.
pub struct ScriptJoin<S, T>(S, T);

impl<S, T> ScriptJoin<S, T> {
    /// The unit that runs first.
    pub closed spec fn first(&self) -> S {
        self.0
    }

    /// The unit that runs second.
    pub closed spec fn second(&self) -> T {
        self.1
    }

    /// The unit that runs `first`, then `second`.
    pub fn new(first: S, second: T) -> (r: Self)
        ensures
            r.first() == first,
            r.second() == second,
    {
        ScriptJoin(first, second)
    }
}

impl<V, S: Script<V>, T: Script<V>> Script<V> for ScriptJoin<S, T> {
    open spec fn fragments(&self) -> Seq<Info> {
        self.first().fragments() + self.second().fragments()
    }

    open spec fn arguments(&self) -> Seq<V> {
        self.first().arguments() + self.second().arguments()
    }

    fn info(&self, out: &mut Vec<Info>) {
        self.0.info(out);
        self.1.info(out);
        proof {
            lemma_total_args_concat(self.first().fragments(), self.second().fragments());
        }
        assert(final(out)@ =~= old(out)@ + self.fragments());
    }

    fn apply(self, out: &mut Vec<V>) {
        let ghost s = self;
        let ScriptJoin(a, b) = self;
        a.apply(out);
        b.apply(out);
        proof {
            lemma_total_args_concat(s.first().fragments(), s.second().fragments());
        }
        assert(final(out)@ =~= old(out)@ + s.arguments());
    }
}

} // verus!
