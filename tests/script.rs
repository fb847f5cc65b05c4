use redis_lua::{gen_script, join, prepare, Chain, Info, Script, ScriptJoin, TakeScript, Unit};

const FULL: &str = r#"
local _a1 = ARGV[1];
local _a2 = ARGV[2];
local _a3 = ARGV[3];
local _a4 = ARGV[4];
return _a1 - _a2 - _a3 + _a4;
"#;

const BODY: &str = r#"
return _a1 - _a2 - _a3 + _a4;
"#;

fn template(args: &'static [&'static str], x: i64, y: i64) -> Chain<i64> {
    Chain::new(Info::new(FULL, BODY, args), vec![Some(x), None, Some(y), None])
}

/// What the fragment body computes from its four positional arguments.
fn body_value(a: &[i64]) -> i64 {
    a[0] - a[1] - a[2] + a[3]
}

fn scope(ret: bool, first: usize, names: &[&str], body: &str) -> String {
    let mut init = String::new();
    for (k, n) in names.iter().enumerate() {
        init += &format!("local {} = ARGV[{}] ", n, first + k);
    }
    format!("{}(function() {} {} end)();\n", if ret { "return " } else { "" }, init, body)
}

const NAMES: [&str; 4] = ["_a1", "_a2", "_a3", "_a4"];

#[test]
fn generated() {
    let x = 10;
    let y = -2;
    let script = template(&["_a1", "_a2", "_a3", "_b4"], x, y);
    let script2 = script.clone();

    let (code, args) = prepare(script.bind(10).bind(3).finish());
    assert_eq!(code, FULL);
    assert_eq!(args, vec![10, 10, -2, 3]);
    assert_eq!(body_value(&args), 5);

    let (code, args) = prepare(script2.bind(11).bind(-4).finish());
    assert_eq!(code, FULL);
    assert_eq!(args, vec![10, 11, -2, -4]);
    assert_eq!(body_value(&args), -3);
}

#[test]
fn generated_join() {
    let x = 10;
    let y = -2;
    let script = template(&["_a1", "_a2", "_a3", "_a4"], x, y);
    let script2 = script.clone();

    let scriptj = script.join(script2);
    let (code, args) = prepare(scriptj.bind(10).bind(3).bind(11).bind(-4).finish());
    let expected = scope(false, 1, &NAMES, BODY) + &scope(true, 5, &NAMES, BODY);
    assert_eq!(code, expected);
    assert_eq!(args, vec![10, 10, -2, 3, 10, 11, -2, -4]);
    assert_eq!(body_value(&args[4..]), -3);
}

#[test]
fn generated_join3() {
    let x = 10;
    let y = -2;
    let script = template(&["_a1", "_a2", "_a3", "_a4"], x, y);
    let script2 = script.clone();
    let script3 = script.clone();

    let scriptj = script.join(script2).join(script3);
    let unit = scriptj.bind(10).bind(3).bind(3).bind(9).bind(11).bind(-4).finish();
    let (code, args) = prepare(unit);
    let expected = scope(false, 1, &NAMES, BODY)
        + &scope(false, 5, &NAMES, BODY)
        + &scope(true, 9, &NAMES, BODY);
    assert_eq!(code, expected);
    assert_eq!(args, vec![10, 10, -2, 3, 10, 3, -2, 9, 10, 11, -2, -4]);
    assert_eq!(body_value(&args[8..]), -3);
}

#[test]
fn single_fragment_is_its_own_text() {
    let info = Info::new("return ARGV[1]", "return a", &["a"]);
    assert_eq!(gen_script(&[info]), "return ARGV[1]");
}

#[test]
fn no_fragments_give_empty_script() {
    assert_eq!(gen_script(&[]), "");
}

#[test]
fn offsets_run_on_across_fragments() {
    let f = Info::new("full f", "return x", &["x", "y"]);
    let g = Info::new("full g", "return z", &[]);
    let h = Info::new("full h", "return w", &["w"]);
    let code = gen_script(&[f, g, h]);
    assert_eq!(
        code,
        "(function() local x = ARGV[1] local y = ARGV[2]  return x end)();\n\
         (function()  return z end)();\n\
         return (function() local w = ARGV[3]  return w end)();\n"
    );
}

#[test]
fn positions_past_nine_are_decimal() {
    let f = Info::new("full", "b", &["p", "q"]);
    let infos = vec![f; 6];
    let code = gen_script(&infos);
    assert!(code.contains("local q = ARGV[10] "));
    assert!(code.contains("local q = ARGV[12] "));
    assert!(!code.contains("ARGV[13]"));
    assert_eq!(code.matches("return ").count(), 1);
    assert!(code.ends_with("return (function() local p = ARGV[11] local q = ARGV[12]  b end)();\n"));
}

#[test]
fn only_last_fragment_returns() {
    let first = Info::new("return 99", "return 99", &[]);
    let last = Info::new("return ARGV[1]", "return v", &["v"]);
    let code = gen_script(&[first, last]);
    assert_eq!(
        code,
        "(function()  return 99 end)();\nreturn (function() local v = ARGV[1]  return v end)();\n"
    );
}

#[test]
fn two_fragments_end_to_end() {
    let info = Info::new("return ARGV[1] - ARGV[2]", "return a - b", &["a", "b"]);
    let template: Chain<i64> = Chain::new(info, vec![None, None]);
    let unit = template.clone().join(template).bind(10).bind(-2).bind(10).bind(-2).finish();
    let (code, args) = prepare(unit);
    assert_eq!(args.len(), 4);
    assert_eq!(args, vec![10, -2, 10, -2]);
    assert_eq!(args[2] - args[3], 12);
    assert_eq!(
        code,
        "(function() local a = ARGV[1] local b = ARGV[2]  return a - b end)();\n\
         return (function() local a = ARGV[3] local b = ARGV[4]  return a - b end)();\n"
    );
}

#[test]
fn join_is_associative() {
    let f = Info::new("f", "F", &["a"]);
    let g = Info::new("g", "G", &["b", "c"]);
    let h = Info::new("h", "H", &[]);
    let unit = |i: Info, v: Vec<Option<i64>>| Chain::new(i, v).finish();
    let left = join(join(unit(f, vec![Some(1)]), unit(g, vec![Some(2), Some(3)])), unit(h, vec![]));
    let right = join(unit(f, vec![Some(1)]), join(unit(g, vec![Some(2), Some(3)]), unit(h, vec![])));
    assert_eq!(prepare(left), prepare(right));
    let with_empty = ScriptJoin::new((), unit(f, vec![Some(1)]));
    assert_eq!(prepare(with_empty), prepare(unit(f, vec![Some(1)])));
}

#[test]
fn chains_join_associatively() {
    let f = Info::new("f", "F", &["a"]);
    let g = Info::new("g", "G", &["b", "c"]);
    let h = Info::new("h", "H", &["d"]);
    let c = |i: Info, n: usize| Chain::<i64>::new(i, vec![None; n]);
    let bind_all = |ch: Chain<i64>| ch.bind(1).bind(2).bind(3).bind(4).finish();
    let left = prepare(bind_all(c(f, 1).join(c(g, 2)).join(c(h, 1))));
    let right = prepare(bind_all(c(f, 1).join(c(g, 2).join(c(h, 1)))));
    assert_eq!(left, right);
    assert_eq!(left.1, vec![1, 2, 3, 4]);
}

#[test]
fn binding_fills_waiting_slots_in_order() {
    let info = Info::new("s", "b", &["a", "b", "c", "d"]);
    let chain = Chain::new(info, vec![None, Some(7), None, None]);
    assert_eq!(chain.len(), 4);
    assert!(!chain.is_bound());
    let chain = chain.bind(1);
    assert!(!chain.is_bound());
    let chain = chain.bind(2).bind(3);
    assert!(chain.is_bound());
    let (_, args) = prepare(chain.finish());
    assert_eq!(args, vec![1, 7, 2, 3]);
}

#[test]
fn fully_captured_chain_is_bound() {
    let info = Info::new("s", "b", &["a"]);
    assert!(Chain::new(info, vec![Some(5)]).is_bound());
    assert!(Chain::<i64>::new(Info::new("s", "b", &[]), vec![]).is_bound());
}

#[test]
fn copies_bind_independently() {
    let info = Info::new("s", "b", &["a", "b", "c"]);
    let partial = Chain::new(info, vec![Some(1), None, None]).bind(2);
    let copy = partial.clone();
    let (code1, args1) = prepare(partial.bind(3).finish());
    let (code2, args2) = prepare(copy.bind(30).finish());
    assert_eq!(code1, code2);
    assert_eq!(args1, vec![1, 2, 3]);
    assert_eq!(args2, vec![1, 2, 30]);
}

#[test]
fn take_runs_inner_first() {
    let inner_info = Info::new("i", "I", &["x"]);
    let outer_info = Info::new("o", "O", &["y", "z"]);
    let inner = Chain::new(inner_info, vec![Some(5)]).finish();
    let outer = Chain::new(outer_info, vec![None, Some(9)]);
    let taken = outer.take(inner);
    assert_eq!(taken.len(), 3);
    let (code, args) = prepare(taken.bind(6).finish());
    assert_eq!(args, vec![5, 6, 9]);
    assert_eq!(
        code,
        "(function() local x = ARGV[1]  I end)();\n\
         return (function() local y = ARGV[2] local z = ARGV[3]  O end)();\n"
    );
}

#[test]
fn info_and_apply_flatten_in_order() {
    let f = Info::new("f", "F", &["a"]);
    let g = Info::new("g", "G", &["b"]);
    let u: ScriptJoin<Unit<i64>, Unit<i64>> =
        join(Chain::new(f, vec![Some(1)]).finish(), Chain::new(g, vec![Some(2)]).finish());
    let mut infos = Vec::new();
    u.info(&mut infos);
    assert_eq!(infos.len(), 2);
    assert_eq!(infos[0].script(), "f");
    assert_eq!(infos[1].body(), "G");
    assert_eq!(infos[1].args(), &["b"]);
    let mut args = vec![0];
    u.apply(&mut args);
    assert_eq!(args, vec![0, 1, 2]);
}

#[test]
fn unit_copies_keep_fragments_and_values() {
    let info = Info::new("s", "b", &["a", "b"]);
    let unit = Chain::new(info, vec![Some(4), Some(8)]).finish();
    let copy = unit.clone();
    assert_eq!(prepare(unit), prepare(copy));
}

#[test]
fn take_accepts_joined_inner_units() {
    let f = Info::new("f", "F", &["a"]);
    let g = Info::new("g", "G", &[]);
    let h = Info::new("h", "H", &["c"]);
    let inner = join(Chain::new(f, vec![Some(1)]).finish(), Chain::<i64>::new(g, vec![]).finish());
    let taken = Chain::new(h, vec![None]).take(inner);
    assert!(!taken.is_bound());
    let (code, args) = prepare(taken.bind(3).finish());
    assert_eq!(args, vec![1, 3]);
    assert_eq!(
        code,
        "(function() local a = ARGV[1]  F end)();\n\
         (function()  G end)();\n\
         return (function() local c = ARGV[2]  H end)();\n"
    );
}
