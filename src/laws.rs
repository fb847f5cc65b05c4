use vstd::prelude::*;

use crate::chain::{
    all_bound, bind_all, lemma_bind_all, lemma_bound_when_filled, lemma_rank_below, pending, rank,
};
use crate::fragment::Info;
use crate::synth::{
    arg_offset, binding, bindings, lemma_offset_bounded, lemma_total_args_step, scope, scope_of,
    script_text, total_args,
};
use crate::unit::{Script, ScriptJoin};

verus! {

/// A unit of one fragment runs exactly that fragment's standalone text.
pub proof fn lemma_single_fragment(f: Info)
    ensures
        script_text(seq![f]) == f.full_text(),
{
}

proof fn lemma_offset_monotone(fs: Seq<Info>, a: int, b: int)
    requires
        0 <= a <= b <= fs.len(),
    ensures
        arg_offset(fs, a) <= arg_offset(fs, b),
    decreases b - a,
{
    if a < b {
        lemma_total_args_step(fs, a);
        lemma_offset_monotone(fs, a + 1, b);
    }
}

/// In the script of several fragments, argument `j` of fragment `i` is bound
/// from flattened position `arg_offset(fs, i) + j + 1`, where `arg_offset` is
/// the sum of the argument counts of the fragments before `i`. Each position
/// lies in `1..=total_args(fs)`, and a later fragment's positions all come
/// after those of an earlier one.
pub proof fn lemma_argument_positions(fs: Seq<Info>, i: int, j: int)
    requires
        fs.len() != 1,
        0 <= i < fs.len(),
        0 <= j < fs[i].arg_count(),
    ensures
        script_text(fs) == Seq::new(fs.len(), |k: int| scope_of(fs, k)).flatten(),
        scope_of(fs, i) == scope(fs[i], arg_offset(fs, i), i == fs.len() - 1),
        bindings(fs[i].arg_names(), arg_offset(fs, i)) == Seq::new(
            fs[i].arg_count(),
            |q: int| binding(fs[i].arg_names()[q], arg_offset(fs, i) + q as nat + 1),
        ).flatten(),
        arg_offset(fs, 0) == 0,
        arg_offset(fs, i + 1) == arg_offset(fs, i) + fs[i].arg_count(),
        1 <= arg_offset(fs, i) + j + 1 <= total_args(fs),
        forall|i2: int| i < i2 < fs.len() ==> arg_offset(fs, i) + j + 1 <= #[trigger] arg_offset(fs, i2),
{
    assert(fs.take(0) =~= Seq::<Info>::empty());
    lemma_total_args_step(fs, i);
    lemma_offset_bounded(fs, i + 1);
    assert forall|i2: int| i < i2 < fs.len() implies arg_offset(fs, i) + j + 1 <= #[trigger] arg_offset(fs, i2) by {
        lemma_offset_monotone(fs, i + 1, i2);
    }
}

/// Of several fragments, only the last one's scope returns its value; the
/// others run for their effects alone.
pub proof fn lemma_only_last_returns(fs: Seq<Info>)
    requires
        fs.len() >= 2,
    ensures
        forall|k: int|
            0 <= k < fs.len() ==> ("return "@.is_prefix_of(#[trigger] scope_of(fs, k)) <==> k == fs.len() - 1),
{
    reveal_strlit("return ");
    reveal_strlit("(function() ");
    reveal_strlit("");
    assert forall|k: int| 0 <= k < fs.len() implies ("return "@.is_prefix_of(#[trigger] scope_of(fs, k)) <==> k == fs.len() - 1) by {
        let sc = scope_of(fs, k);
        let f = fs[k];
        let rest = "(function() "@ + bindings(f.arg_names(), arg_offset(fs, k)) + " "@ + f.body_text()
            + " end)();\n"@;
        if k == fs.len() - 1 {
            assert(sc =~= "return "@ + rest);
            assert(sc.subrange(0, "return "@.len() as int) =~= "return "@);
        } else {
            assert(sc =~= ""@ + rest);
            assert(sc[0] == '(');
            assert("return "@[0] == 'r');
            if "return "@.is_prefix_of(sc) {
                assert(sc.subrange(0, "return "@.len() as int)[0] == sc[0]);
            }
        }
    }
}

/// Joining is associative: `(a, b), c` and `a, (b, c)` have the same
/// fragments and the same arguments, so the same script.
pub proof fn lemma_join_associative<V, A: Script<V>, B: Script<V>, C: Script<V>>(
    l: ScriptJoin<ScriptJoin<A, B>, C>,
    r: ScriptJoin<A, ScriptJoin<B, C>>,
)
    requires
        l.first().first() == r.first(),
        l.first().second() == r.second().first(),
        l.second() == r.second().second(),
    ensures
        l.fragments() == r.fragments(),
        l.arguments() == r.arguments(),
        script_text(l.fragments()) == script_text(r.fragments()),
{
    assert(l.fragments() =~= r.fragments());
    assert(l.arguments() =~= r.arguments());
}

/// The empty unit is the identity of joining, on either side.
pub proof fn lemma_join_identity<V, A: Script<V>>(l: ScriptJoin<(), A>, r: ScriptJoin<A, ()>)
    requires
        l.second() == r.first(),
    ensures
        l.fragments() == l.second().fragments(),
        l.arguments() == l.second().arguments(),
        r.fragments() == r.first().fragments(),
        r.arguments() == r.first().arguments(),
{
    assert(l.fragments() =~= l.second().fragments());
    assert(l.arguments() =~= l.second().arguments());
    assert(r.fragments() =~= r.first().fragments());
    assert(r.arguments() =~= r.first().arguments());
}

/// Binding fills the waiting slots strictly in order: the `r`-th value bound
/// lands in the waiting slot of rank `r`, values already there stay, and the
/// slots are all bound exactly when as many values were bound as waited.
pub proof fn lemma_binding_order<V>(s: Seq<Option<V>>, vs: Seq<V>)
    requires
        vs.len() <= pending(s),
    ensures
        bind_all(s, vs).len() == s.len(),
        forall|k: int|
            0 <= k < s.len() ==> #[trigger] bind_all(s, vs)[k] == if s[k] is Some {
                s[k]
            } else if rank(s, k) < vs.len() {
                Some(vs[rank(s, k) as int])
            } else {
                None
            },
        all_bound(bind_all(s, vs)) <==> vs.len() == pending(s),
{
    lemma_bind_all(s, vs);
    lemma_bound_when_filled(s, vs);
}

/// Two copies of partly bound slots, each completed with its own values, are
/// both fully bound; they agree on every slot bound before the copy, and
/// differ only in the slots bound after it, which hold each copy's values.
pub proof fn lemma_copies_independent<V>(s: Seq<Option<V>>, vs: Seq<V>, ws: Seq<V>)
    requires
        vs.len() == pending(s),
        ws.len() == pending(s),
    ensures
        all_bound(bind_all(s, vs)),
        all_bound(bind_all(s, ws)),
        bind_all(s, vs).len() == bind_all(s, ws).len(),
        forall|k: int|
            0 <= k < s.len() && s[k] is Some ==> #[trigger] bind_all(s, vs)[k] == bind_all(s, ws)[k],
        forall|k: int|
            0 <= k < s.len() && s[k] is None ==> {
                &&& #[trigger] bind_all(s, vs)[k] == Some(vs[rank(s, k) as int])
                &&& bind_all(s, ws)[k] == Some(ws[rank(s, k) as int])
            },
{
    lemma_binding_order(s, vs);
    lemma_binding_order(s, ws);
    assert forall|k: int| 0 <= k < s.len() && s[k] is None implies rank(s, k) < vs.len() by {
        lemma_rank_below(s, k);
    }
}

} // verus!
