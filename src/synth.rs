use vstd::prelude::*;
use vstd::string::StringExecFns;

use crate::fragment::Info;

verus! {

/// The decimal digit `d` as a character.
pub open spec fn digit_char(d: nat) -> char {
    seq!['0', '1', '2', '3', '4', '5', '6', '7', '8', '9'][d as int]
}

/// The decimal notation of `n`, without leading zeros.
pub open spec fn decimal(n: nat) -> Seq<char>
    decreases n,
{
    if n < 10 {
        seq![digit_char(n)]
    } else {
        decimal(n / 10).push(digit_char(n % 10))
    }
}

/// The statement that binds local `name` to the flattened argument at
/// 1-based position `pos`.
pub open spec fn binding(name: Seq<char>, pos: nat) -> Seq<char> {
    "local "@ + name + " = ARGV["@ + decimal(pos) + "] "@
}

/// The bindings of `names`, the `j`-th of them reading position `offset + j + 1`.
pub open spec fn bindings(names: Seq<Seq<char>>, offset: nat) -> Seq<char> {
    Seq::new(names.len(), |j: int| binding(names[j], offset + j as nat + 1)).flatten()
}

/// The total number of arguments that the fragments declare.
pub open spec fn total_args(fs: Seq<Info>) -> nat
    decreases fs.len(),
{
    if fs.len() == 0 {
        0
    } else {
        total_args(fs.drop_last()) + fs.last().arg_count()
    }
}

/// The flattened position after which fragment `i`'s arguments start.
pub open spec fn arg_offset(fs: Seq<Info>, i: int) -> nat {
    total_args(fs.take(i))
}

/// Fragment `f` sandboxed in an immediately called function, its arguments
/// read from after `offset`; the last fragment's value is returned.
pub open spec fn scope(f: Info, offset: nat, last: bool) -> Seq<char> {
    (if last { "return "@ } else { ""@ }) + "(function() "@ + bindings(f.arg_names(), offset) + " "@
        + f.body_text() + " end)();\n"@
}

/// The scope of fragment `i` of `fs`.
pub open spec fn scope_of(fs: Seq<Info>, i: int) -> Seq<char> {
    scope(fs[i], arg_offset(fs, i), i == fs.len() - 1)
}

/// The script that runs the fragments `fs` in order: a single fragment's own
/// text, or else the scopes of all fragments one after the other.
pub open spec fn script_text(fs: Seq<Info>) -> Seq<char> {
    if fs.len() == 1 {
        fs[0].full_text()
    } else {
        Seq::new(fs.len(), |i: int| scope_of(fs, i)).flatten()
    }
}

fn digit_str(d: usize) -> (r: &'static str)
    requires
        d < 10,
    ensures
        r@ == seq![digit_char(d as nat)],
{
    proof {
        reveal_strlit("0");
        reveal_strlit("1");
        reveal_strlit("2");
        reveal_strlit("3");
        reveal_strlit("4");
        reveal_strlit("5");
        reveal_strlit("6");
        reveal_strlit("7");
        reveal_strlit("8");
        reveal_strlit("9");
    }
    let r = if d == 0 {
        "0"
    } else if d == 1 {
        "1"
    } else if d == 2 {
        "2"
    } else if d == 3 {
        "3"
    } else if d == 4 {
        "4"
    } else if d == 5 {
        "5"
    } else if d == 6 {
        "6"
    } else if d == 7 {
        "7"
    } else if d == 8 {
        "8"
    } else {
        "9"
    };
    assert(r@ =~= seq![digit_char(d as nat)]);
    r
}

fn push_decimal(out: &mut String, n: usize)
    ensures
        final(out)@ == old(out)@ + decimal(n as nat),
    decreases n,
{
    if n >= 10 {
        push_decimal(out, n / 10);
    }
    out.append(digit_str(n % 10));
    proof {
        if n >= 10 {
            assert(decimal(n as nat) == decimal((n / 10) as nat).push(digit_char((n % 10) as nat)));
        }
    }
    assert(final(out)@ =~= old(out)@ + decimal(n as nat));
}

pub(crate) proof fn lemma_total_args_step(fs: Seq<Info>, i: int)
    requires
        0 <= i < fs.len(),
    ensures
        arg_offset(fs, i + 1) == arg_offset(fs, i) + fs[i].arg_count(),
{
    assert(fs.take(i + 1).drop_last() =~= fs.take(i));
}

/// Generates the script that runs the fragments `info` in order.
pub fn gen_script(info: &[Info]) -> (r: String)
    requires
        total_args(info@) <= usize::MAX,
    ensures
        r@ == script_text(info@),
{
    let n = info.len();
    if n == 1 {
        return String::from_str(info[0].script());
    }
    let ghost fs = info@;
    let mut arg_index: usize = 0;
    let mut script = String::new();
    let mut i: usize = 0;
    while i < n
        invariant
            n == fs.len(),
            fs == info@,
            n != 1,
            total_args(fs) <= usize::MAX,
            i <= n,
            arg_index == arg_offset(fs, i as int),
            script@ == Seq::new(i as nat, |k: int| scope_of(fs, k)).flatten(),
        decreases n - i,
    {
        let f = &info[i];
        let names = f.args();
        let m = names.len();
        proof {
            lemma_total_args_step(fs, i as int);
            lemma_offset_bounded(fs, i as int + 1);
        }
        let ghost offset = arg_index as nat;
        let mut init = String::new();
        let mut j: usize = 0;
        while j < m
            invariant
                m == f.arg_count(),
                names@.len() == m,
                forall|q: int| 0 <= q < m ==> (#[trigger] names@[q])@ == f.arg_names()[q],
                j <= m,
                offset + m <= usize::MAX,
                arg_index == offset + j,
                init@ == Seq::new(j as nat, |q: int| binding(f.arg_names()[q], offset + q as nat + 1)).flatten(),
            decreases m - j,
        {
            arg_index = arg_index + 1;
            let ghost before = init@;
            init.append("local ");
            init.append(names[j]);
            init.append(" = ARGV[");
            push_decimal(&mut init, arg_index);
            init.append("] ");
            proof {
                let bs = |q: int| binding(f.arg_names()[q], offset + q as nat + 1);
                assert(Seq::new((j + 1) as nat, bs) =~= Seq::new(j as nat, bs).push(bs(j as int)));
                Seq::new(j as nat, bs).lemma_flatten_push(bs(j as int));
                assert(init@ =~= before + bs(j as int));
            }
            j = j + 1;
        }
        proof {
            let bs = |q: int| binding(f.arg_names()[q], offset + q as nat + 1);
            assert(Seq::new(m as nat, bs) =~= Seq::new(f.arg_names().len(), bs));
        }
        let ghost before = script@;
        if i == n - 1 {
            script.append("return ");
        }
        script.append("(function() ");
        script.append(init.as_str());
        script.append(" ");
        script.append(f.body());
        script.append(" end)();\n");
        proof {
            let sc = |k: int| scope_of(fs, k);
            assert(Seq::new((i + 1) as nat, sc) =~= Seq::new(i as nat, sc).push(sc(i as int)));
            Seq::new(i as nat, sc).lemma_flatten_push(sc(i as int));
            reveal_strlit("");
            assert(script@ =~= before + sc(i as int));
        }
        i = i + 1;
    }
    proof {
        let sc = |k: int| scope_of(fs, k);
        assert(Seq::new(n as nat, sc) =~= Seq::new(fs.len(), sc));
    }
    script
}

/// The arguments of two fragment sequences together are those of each.
pub proof fn lemma_total_args_concat(a: Seq<Info>, b: Seq<Info>)
    ensures
        total_args(a + b) == total_args(a) + total_args(b),
    decreases b.len(),
{
    if b.len() == 0 {
        assert(a + b =~= a);
    } else {
        assert((a + b).drop_last() =~= a + b.drop_last());
        lemma_total_args_concat(a, b.drop_last());
    }
}

pub(crate) proof fn lemma_offset_bounded(fs: Seq<Info>, i: int)
    requires
        0 <= i <= fs.len(),
    ensures
        arg_offset(fs, i) <= total_args(fs),
    decreases fs.len() - i,
{
    if i < fs.len() {
        lemma_total_args_step(fs, i);
        lemma_offset_bounded(fs, i + 1);
    } else {
        assert(fs.take(i) =~= fs);
    }
}

} // verus!
