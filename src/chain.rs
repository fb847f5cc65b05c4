use vstd::prelude::*;

use crate::fragment::Info;
use crate::synth::{gen_script, lemma_total_args_concat, script_text, total_args};
use crate::unit::Script;

verus! {

/// The position of the first argument slot still waiting for a value, or the
/// number of slots where every slot holds one.
pub open spec fn next_slot<V>(s: Seq<Option<V>>) -> nat
    decreases s.len(),
{
    if s.len() == 0 {
        0
    } else if s[0] is None {
        0
    } else {
        1 + next_slot(s.drop_first())
    }
}

/// Every argument slot holds a value.
pub open spec fn all_bound<V>(s: Seq<Option<V>>) -> bool {
    forall|k: int| 0 <= k < s.len() ==> (#[trigger] s[k]) is Some
}

/// The slots `s` after binding `v` to the next waiting one.
pub open spec fn bind_next<V>(s: Seq<Option<V>>, v: V) -> Seq<Option<V>> {
    s.update(next_slot(s) as int, Some(v))
}

/// The slots `s` after binding the values `vs` one after the other.
pub open spec fn bind_all<V>(s: Seq<Option<V>>, vs: Seq<V>) -> Seq<Option<V>>
    decreases vs.len(),
{
    if vs.len() == 0 {
        s
    } else {
        bind_next(bind_all(s, vs.drop_last()), vs.last())
    }
}

/// The number of slots that wait for a value.
pub open spec fn pending<V>(s: Seq<Option<V>>) -> nat
    decreases s.len(),
{
    if s.len() == 0 {
        0
    } else {
        pending(s.drop_last()) + if s.last() is None { 1nat } else { 0nat }
    }
}

/// The first slot that waits for a value is slot `i`.
proof fn lemma_next_slot_at<V>(s: Seq<Option<V>>, i: int)
    requires
        0 <= i <= s.len(),
        forall|k: int| 0 <= k < i ==> (#[trigger] s[k]) is Some,
        i == s.len() || s[i] is None,
    ensures
        next_slot(s) == i,
    decreases i,
{
    if i > 0 {
        assert forall|k: int| 0 <= k < i - 1 implies (#[trigger] s.drop_first()[k]) is Some by {
            assert(s[k + 1] is Some);
        }
        lemma_next_slot_at(s.drop_first(), i - 1);
    }
}

/// The waiting slots before slot `k`: the rank of slot `k` among the waiting ones.
pub open spec fn rank<V>(s: Seq<Option<V>>, k: int) -> nat {
    pending(s.take(k))
}

proof fn lemma_rank_step<V>(s: Seq<Option<V>>, k: int)
    requires
        0 <= k < s.len(),
    ensures
        rank(s, k + 1) == rank(s, k) + if s[k] is None { 1nat } else { 0nat },
{
    assert(s.take(k + 1).drop_last() =~= s.take(k));
}

proof fn lemma_rank_monotone<V>(s: Seq<Option<V>>, a: int, b: int)
    requires
        0 <= a <= b <= s.len(),
    ensures
        rank(s, a) <= rank(s, b),
        a < b && s[a] is None ==> rank(s, a) < rank(s, b),
    decreases b - a,
{
    if a < b {
        lemma_rank_step(s, a);
        lemma_rank_monotone(s, a + 1, b);
    }
}

/// A waiting slot's rank is below the number of waiting slots.
pub(crate) proof fn lemma_rank_below<V>(s: Seq<Option<V>>, k: int)
    requires
        0 <= k < s.len(),
        s[k] is None,
    ensures
        rank(s, k) < pending(s),
{
    lemma_rank_monotone(s, k, s.len() as int);
    lemma_rank_all(s);
}

proof fn lemma_rank_all<V>(s: Seq<Option<V>>)
    ensures
        rank(s, s.len() as int) == pending(s),
{
    assert(s.take(s.len() as int) =~= s);
}

/// A waiting slot at or after `b` has rank `r`.
proof fn lemma_find_rank<V>(s: Seq<Option<V>>, r: nat, b: int) -> (k: int)
    requires
        0 <= b <= s.len(),
        rank(s, b) <= r < pending(s),
    ensures
        b <= k < s.len(),
        s[k] is None,
        rank(s, k) == r,
    decreases s.len() - b,
{
    lemma_rank_all(s);
    if b == s.len() {
        assert(false);
        b
    } else {
        lemma_rank_step(s, b);
        if rank(s, b) == r && s[b] is None {
            b
        } else {
            lemma_find_rank(s, r, b + 1)
        }
    }
}

/// After binding `vs`, each slot that held a value keeps it, the waiting slot
/// of rank `r` holds `vs[r]`, and the later waiting slots still wait.
pub proof fn lemma_bind_all<V>(s: Seq<Option<V>>, vs: Seq<V>)
    requires
        vs.len() <= pending(s),
    ensures
        bind_all(s, vs).len() == s.len(),
        forall|k: int|
            0 <= k < s.len() ==> #[trigger] bind_all(s, vs)[k] == if s[k] is Some {
                s[k]
            } else if rank(s, k) < vs.len() {
                Some(vs[rank(s, k) as int])
            } else {
                None
            },
    decreases vs.len(),
{
    if vs.len() > 0 {
        let n = vs.len() - 1;
        let t = bind_all(s, vs.drop_last());
        lemma_bind_all(s, vs.drop_last());
        let w = lemma_find_rank(s, n as nat, 0);
        assert forall|k: int| 0 <= k < w implies (#[trigger] t[k]) is Some by {
            lemma_rank_monotone(s, k, w);
        }
        lemma_next_slot_at(t, w);
        assert forall|k: int| 0 <= k < s.len() implies #[trigger] bind_all(s, vs)[k] == if s[k] is Some {
            s[k]
        } else if rank(s, k) < vs.len() {
            Some(vs[rank(s, k) as int])
        } else {
            None
        } by {
            if k < w {
                lemma_rank_monotone(s, k, w);
            } else if k > w {
                lemma_rank_monotone(s, w, k);
            }
        }
    }
}

/// The slots are all bound after binding exactly as many values as wait.
pub proof fn lemma_bound_when_filled<V>(s: Seq<Option<V>>, vs: Seq<V>)
    requires
        vs.len() <= pending(s),
    ensures
        all_bound(bind_all(s, vs)) <==> vs.len() == pending(s),
{
    lemma_bind_all(s, vs);
    lemma_rank_all(s);
    if vs.len() == pending(s) {
        assert forall|k: int| 0 <= k < s.len() implies (#[trigger] bind_all(s, vs)[k]) is Some by {
            if s[k] is None {
                lemma_rank_monotone(s, k, s.len() as int);
            }
        }
    } else {
        let w = lemma_find_rank(s, vs.len(), 0);
        assert(bind_all(s, vs)[w] is None);
    }
}

/// A chain of fragments whose arguments are bound one at a time: one slot for
/// each declared argument of each fragment, in fragment order, filled from
/// the first waiting slot on.
pub struct Chain<V> {
    infos: Vec<Info>,
    slots: Vec<Option<V>>,
}

impl<V> Chain<V> {
    #[verifier::type_invariant]
    spec fn inv(&self) -> bool {
        self.slots@.len() == total_args(self.infos@)
    }

    /// The chain's fragments, in execution order.
    pub closed spec fn fragments(&self) -> Seq<Info> {
        self.infos@
    }

    /// The chain's argument slots, flattened in fragment order.
    pub closed spec fn slots(&self) -> Seq<Option<V>> {
        self.slots@
    }

    /// The chain of one fragment, whose slots start as `captured`: values
    /// already known, and `None` for each argument still to bind.
    pub fn new(info: Info, captured: Vec<Option<V>>) -> (r: Self)
        requires
            captured@.len() == info.arg_count(),
        ensures
            r.fragments() == seq![info],
            r.slots() == captured@,
    {
        let mut infos: Vec<Info> = Vec::new();
        infos.push(info);
        proof {
            assert(infos@.drop_last() =~= Seq::<Info>::empty());
            assert(infos@.last() == info);
            assert(total_args(infos@) == total_args(Seq::<Info>::empty()) + info.arg_count());
        }
        Chain { infos, slots: captured }
    }

    /// The number of argument slots: the arguments that the fragments declare.
    pub fn len(&self) -> (r: usize)
        ensures
            r == self.slots().len(),
            r == total_args(self.fragments()),
    {
        proof {
            use_type_invariant(self);
        }
        self.slots.len()
    }

    /// Whether every argument of every fragment holds a value.
    pub fn is_bound(&self) -> (r: bool)
        ensures
            r == all_bound(self.slots()),
    {
        let n = self.slots.len();
        let mut i: usize = 0;
        while i < n
            invariant
                n == self.slots@.len(),
                i <= n,
                forall|k: int| 0 <= k < i ==> (#[trigger] self.slots@[k]) is Some,
            decreases n - i,
        {
            if self.slots[i].is_none() {
                return false;
            }
            i = i + 1;
        }
        true
    }

    /// Binds `v` to the first argument that waits for a value.
    pub fn bind(self, v: V) -> (r: Self)
        requires
            !all_bound(self.slots()),
        ensures
            r.fragments() == self.fragments(),
            r.slots() == bind_next(self.slots(), v),
    {
        proof {
            use_type_invariant(&self);
        }
        let Chain { infos, mut slots } = self;
        let n = slots.len();
        let mut i: usize = 0;
        while i < n && slots[i].is_some()
            invariant
                n == slots@.len(),
                i <= n,
                forall|k: int| 0 <= k < i ==> (#[trigger] slots@[k]) is Some,
            decreases n - i,
        {
            i = i + 1;
        }
        proof {
            lemma_next_slot_at(slots@, i as int);
        }
        slots.set(i, Some(v));
        Chain { infos, slots }
    }

    /// The chain that binds the arguments of `self`, then those of `other`.
    pub fn join(self, other: Chain<V>) -> (r: Self)
        ensures
            r.fragments() == self.fragments() + other.fragments(),
            r.slots() == self.slots() + other.slots(),
    {
        proof {
            use_type_invariant(&self);
            use_type_invariant(&other);
            lemma_total_args_concat(self.infos@, other.infos@);
        }
        let Chain { mut infos, mut slots } = self;
        let Chain { infos: mut more_infos, slots: mut more_slots } = other;
        infos.append(&mut more_infos);
        slots.append(&mut more_slots);
        Chain { infos, slots }
    }

    /// The invocable unit of a chain whose arguments are all bound.
    pub fn finish(self) -> (r: Unit<V>)
        requires
            all_bound(self.slots()),
        ensures
            r.fragments() == self.fragments(),
            r.arguments().len() == self.slots().len(),
            forall|k: int|
                0 <= k < r.arguments().len() ==> Some(#[trigger] r.arguments()[k]) == self.slots()[k],
    {
        proof {
            use_type_invariant(&self);
        }
        let ghost s = self.slots@;
        let Chain { infos, mut slots } = self;
        let n = slots.len();
        let mut args: Vec<V> = Vec::new();
        let mut i: usize = 0;
        while i < n
            invariant
                n == s.len(),
                i <= n,
                all_bound(s),
                slots@ == s.skip(i as int),
                args@.len() == i,
                forall|k: int| 0 <= k < i ==> Some(#[trigger] args@[k]) == s[k],
            decreases n - i,
        {
            let o = slots.remove(0);
            assert(s[i as int] is Some);
            args.push(o.unwrap());
            assert(slots@ =~= s.skip(i + 1));
            i = i + 1;
        }
        Unit { infos, args }
    }
}

impl<V: Clone> Clone for Chain<V> {
    /// A copy whose binding goes on independently; fragments and the slots
    /// that wait are kept, and bound values are copied with their own clone.
    fn clone(&self) -> (r: Self)
        ensures
            r.fragments() == self.fragments(),
            r.slots().len() == self.slots().len(),
            forall|k: int|
                0 <= k < r.slots().len() ==> {
                    &&& (#[trigger] r.slots()[k]) is None <==> self.slots()[k] is None
                    &&& r.slots()[k] is Some ==> cloned(self.slots()[k]->Some_0, r.slots()[k]->Some_0)
                },
    {
        proof {
            use_type_invariant(self);
        }
        let mut infos: Vec<Info> = Vec::new();
        let mut i: usize = 0;
        while i < self.infos.len()
            invariant
                i <= self.infos@.len(),
                infos@ == self.infos@.take(i as int),
            decreases self.infos@.len() - i,
        {
            infos.push(self.infos[i]);
            assert(infos@ =~= self.infos@.take(i + 1));
            i = i + 1;
        }
        assert(infos@ =~= self.infos@);
        let mut slots: Vec<Option<V>> = Vec::new();
        let mut j: usize = 0;
        while j < self.slots.len()
            invariant
                j <= self.slots@.len(),
                slots@.len() == j,
                forall|k: int|
                    0 <= k < j ==> {
                        &&& (#[trigger] slots@[k]) is None <==> self.slots@[k] is None
                        &&& slots@[k] is Some ==> cloned(self.slots@[k]->Some_0, slots@[k]->Some_0)
                    },
            decreases self.slots@.len() - j,
        {
            let copy = match &self.slots[j] {
                Some(v) => Some(v.clone()),
                None => None,
            };
            slots.push(copy);
            j = j + 1;
        }
        Chain { infos, slots }
    }
}

/// Take another unit as the inner of the script: a script that runs `inner`
/// before its own fragments.
pub trait TakeScript<I>: Sized {
    type Item;

    /// `r` is `self` with `inner` taken in before its own fragments.
    spec fn taken(&self, inner: I, r: Self::Item) -> bool;

    fn take(self, inner: I) -> (r: Self::Item)
        ensures
            self.taken(inner, r),
    ;
}

impl<V, I: Script<V>> TakeScript<I> for Chain<V> {
    type Item = Chain<V>;

    /// The fragments of `inner` come first, their arguments already bound.
    open spec fn taken(&self, inner: I, r: Chain<V>) -> bool {
        &&& r.fragments() == inner.fragments() + self.fragments()
        &&& r.slots() == inner.arguments().map_values(|a: V| Some(a)) + self.slots()
    }

    fn take(self, inner: I) -> (r: Chain<V>) {
        let ghost g = inner;
        let mut infos: Vec<Info> = Vec::new();
        inner.info(&mut infos);
        let mut args: Vec<V> = Vec::new();
        inner.apply(&mut args);
        let ghost a = args@;
        let n = args.len();
        let mut slots: Vec<Option<V>> = Vec::new();
        let mut i: usize = 0;
        while i < n
            invariant
                n == a.len(),
                i <= n,
                args@ == a.skip(i as int),
                slots@ == a.take(i as int).map_values(|x: V| Some(x)),
            decreases n - i,
        {
            let x = args.remove(0);
            slots.push(Some(x));
            assert(args@ =~= a.skip(i + 1));
            assert(slots@ =~= a.take(i + 1).map_values(|x: V| Some(x)));
            i = i + 1;
        }
        assert(a.take(n as int) =~= a);
        assert(infos@ =~= g.fragments());
        let first = Chain { infos, slots };
        first.join(self)
    }
}

/// A fully bound execution unit: fragments in order, and one value for each
/// of their arguments.
pub struct Unit<V> {
    infos: Vec<Info>,
    args: Vec<V>,
}

impl<V> Unit<V> {
    #[verifier::type_invariant]
    spec fn inv(&self) -> bool {
        self.args@.len() == total_args(self.infos@)
    }
}

impl<V: Clone> Clone for Unit<V> {
    /// A copy with the same fragments, each value copied with its own clone.
    fn clone(&self) -> (r: Self)
        ensures
            r.fragments() == self.fragments(),
            r.arguments().len() == self.arguments().len(),
            forall|k: int|
                0 <= k < r.arguments().len() ==> cloned(self.arguments()[k], #[trigger] r.arguments()[k]),
    {
        proof {
            use_type_invariant(self);
        }
        let mut infos: Vec<Info> = Vec::new();
        self.info(&mut infos);
        assert(infos@ =~= self.infos@);
        let mut args: Vec<V> = Vec::new();
        let mut j: usize = 0;
        while j < self.args.len()
            invariant
                j <= self.args@.len(),
                args@.len() == j,
                forall|k: int| 0 <= k < j ==> cloned(self.args@[k], #[trigger] args@[k]),
            decreases self.args@.len() - j,
        {
            args.push(self.args[j].clone());
            j = j + 1;
        }
        Unit { infos, args }
    }
}

/// The script text and the flattened argument values with which `unit` is
/// invoked: position `k + 1` of the argument array holds value `k`.
pub fn prepare<V, S: Script<V>>(unit: S) -> (r: (String, Vec<V>))
    ensures
        r.0@ == script_text(unit.fragments()),
        r.1@ == unit.arguments(),
        r.1@.len() == total_args(unit.fragments()),
{
    let mut infos: Vec<Info> = Vec::new();
    unit.info(&mut infos);
    let mut args: Vec<V> = Vec::new();
    unit.apply(&mut args);
    // The arguments are held in a vector, so their count fits a usize.
    let count = args.len();
    assert(count == total_args(infos@));
    let code = gen_script(infos.as_slice());
    (code, args)
}

impl<V> Script<V> for Unit<V> {
    closed spec fn fragments(&self) -> Seq<Info> {
        self.infos@
    }

    closed spec fn arguments(&self) -> Seq<V> {
        self.args@
    }

    fn info(&self, out: &mut Vec<Info>) {
        proof {
            use_type_invariant(self);
        }
        let mut i: usize = 0;
        while i < self.infos.len()
            invariant
                i <= self.infos@.len(),
                out@ == old(out)@ + self.infos@.take(i as int),
            decreases self.infos@.len() - i,
        {
            out.push(self.infos[i]);
            assert(out@ =~= old(out)@ + self.infos@.take(i + 1));
            i = i + 1;
        }
        assert(self.infos@.take(i as int) =~= self.infos@);
    }

    fn apply(self, out: &mut Vec<V>) {
        proof {
            use_type_invariant(&self);
        }
        let Unit { infos: _, mut args } = self;
        out.append(&mut args);
    }
}

} // verus!
