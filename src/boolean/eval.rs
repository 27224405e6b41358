//! Evaluating formulas and building truth tables.
use vstd::prelude::*;
use vstd::arithmetic::power2::pow2;
use crate::boolean::ast::{Ast, BinOp, Formula, apply, formula_of};

verus! {

/// The value bound to `name` by the first binding at or after `k`, false if none.
pub open spec fn lookup_from(env: Seq<(Seq<char>, bool)>, name: Seq<char>, k: int) -> bool
    decreases env.len() - k,
{
    if k < 0 || k >= env.len() {
        false
    } else if env[k].0 == name {
        env[k].1
    } else {
        lookup_from(env, name, k + 1)
    }
}

/// The value bound to `name`, false if it is unbound.
pub open spec fn lookup(env: Seq<(Seq<char>, bool)>, name: Seq<char>) -> bool {
    lookup_from(env, name, 0)
}

pub open spec fn env_view(env: Seq<(String, bool)>) -> Seq<(Seq<char>, bool)> {
    env.map_values(|b: (String, bool)| (b.0@, b.1))
}

/// The value of a formula under the bindings `env`.
pub open spec fn value_of(f: Formula, env: Seq<(Seq<char>, bool)>) -> bool
    decreases f,
{
    match f {
        Formula::Var(name) => lookup(env, name),
        Formula::Not(x) => !value_of(*x, env),
        Formula::Bin(op, l, r) => apply(op, value_of(*l, env), value_of(*r, env)),
    }
}

fn lookup_value(env: &Vec<(String, bool)>, name: &String) -> (r: bool)
    ensures
        r == lookup(env_view(env@), name@),
{
    let ghost e = env_view(env@);
    let mut k: usize = 0;
    while k < env.len()
        invariant
            e == env_view(env@), k <= env@.len(),
            lookup(e, name@) == lookup_from(e, name@, k as int),
        decreases env@.len() - k,
    {
        assert(e[k as int] == (env@[k as int].0@, env@[k as int].1));
        if env[k].0 == *name {
            return env[k].1;
        }
        k += 1;
    }
    false
}

/// The value of `ast` where each variable takes its first binding in `env`,
/// and an unbound variable is false.
pub fn eval_ast(ast: &Ast, env: &Vec<(String, bool)>) -> (r: bool)
    ensures
        r == value_of(formula_of(*ast), env_view(env@)),
    decreases ast,
{
    match ast {
        Ast::Var(v) => lookup_value(env, v),
        Ast::Not(x) => !eval_ast(x, env),
        Ast::BinOp(op, l, r) => {
            let a = eval_ast(l, env);
            let b = eval_ast(r, env);
            match op {
                BinOp::Or => a || b,
                BinOp::And => a && b,
                BinOp::Xor => a != b,
                BinOp::Equiv => a == b,
                BinOp::Impl => !a || b,
                BinOp::Nand => !(a && b),
                BinOp::Nor => !(a || b),
            }
        },
    }
}

/// Binary digit `k` of `m`.
pub open spec fn bit(m: nat, k: nat) -> bool {
    (m / pow2(k)) % 2 == 1
}

/// Row `m` of a truth table over `vars`: the first variable takes the
/// highest of the `vars.len()` binary digits of `m`.
pub open spec fn row_env(vars: Seq<String>, m: nat) -> Seq<(Seq<char>, bool)> {
    Seq::new(vars.len(), |i: int| (vars[i]@, bit(m, (vars.len() - 1 - i) as nat)))
}

/// The binary digits `0..n` of `m`, lowest first.
pub fn digits(m: u64, n: usize) -> (r: Vec<bool>)
    ensures
        r@.len() == n,
        forall|k: int| 0 <= k < n ==> r@[k] == bit(m as nat, k as nat),
{
    let mut r: Vec<bool> = Vec::new();
    let mut cur: u64 = m;
    let mut k: usize = 0;
    proof {
        vstd::arithmetic::power::lemma_pow0(2);
        assert(pow2(0) == 1);
        assert(m as nat / 1 == m as nat);
    }
    while k < n
        invariant
            k <= n, r@.len() == k,
            cur as nat == m as nat / pow2(k as nat),
            forall|j: int| 0 <= j < k ==> r@[j] == bit(m as nat, j as nat),
        decreases n - k,
    {
        r.push(cur % 2 == 1);
        proof {
            vstd::arithmetic::power2::lemma_pow2_unfold((k + 1) as nat);
            vstd::arithmetic::power2::lemma_pow2_pos(k as nat);
            vstd::arithmetic::div_mod::lemma_div_denominator(m as int, pow2(k as nat) as int, 2);
            assert(pow2((k + 1) as nat) == 2 * pow2(k as nat));
            assert(pow2(k as nat) * 2 == pow2((k + 1) as nat));
        }
        cur = cur / 2;
        k += 1;
    }
    r
}

/// The truth table of `ast` over `vars`: entry `m` is 1 exactly when the
/// formula holds in row `m`.
pub fn truth_table_from_ast(ast: &Ast, vars: &Vec<String>) -> (r: Vec<u8>)
    requires
        vars@.len() < 64,
    ensures
        r@.len() == pow2(vars@.len() as nat),
        forall|m: int| 0 <= m < r@.len() ==> r@[m] == if value_of(formula_of(*ast), row_env(vars@, m as nat)) { 1u8 } else { 0u8 },
{
    let n = vars.len();
    let mut size: u64 = 1;
    let mut e: usize = 0;
    proof { vstd::arithmetic::power::lemma_pow0(2); }
    while e < n
        invariant
            e <= n, n == vars@.len(), n < 64,
            size as nat == pow2(e as nat),
        decreases n - e,
    {
        proof {
            vstd::arithmetic::power2::lemma_pow2_unfold((e + 1) as nat);
            vstd::arithmetic::power2::lemma_pow2_strictly_increases((e + 1) as nat, 64);
            vstd::arithmetic::power2::lemma2_to64();
        }
        size = size * 2;
        e += 1;
    }
    let mut out: Vec<u8> = Vec::new();
    let mut m: u64 = 0;
    while m < size
        invariant
            n == vars@.len(), n < 64,
            size as nat == pow2(n as nat),
            m <= size, out@.len() == m,
            forall|x: int| 0 <= x < m ==> out@[x] == if value_of(formula_of(*ast), row_env(vars@, x as nat)) { 1u8 } else { 0u8 },
        decreases size - m,
    {
        let bits = digits(m, n);
        let mut env: Vec<(String, bool)> = Vec::new();
        let mut i: usize = 0;
        while i < n
            invariant
                n == vars@.len(), bits@.len() == n, i <= n, env@.len() == i,
                forall|k: int| 0 <= k < n ==> bits@[k] == bit(m as nat, k as nat),
                forall|j: int| 0 <= j < i ==> env_view(env@)[j] == row_env(vars@, m as nat)[j],
            decreases n - i,
        {
            let name = vars[i].clone();
            let ghost e0 = env@;
            env.push((name, bits[n - 1 - i]));
            proof {
                assert(name@ == vars@[i as int]@);
                assert(env_view(env@)[i as int] == (vars@[i as int]@, bit(m as nat, (n - 1 - i) as nat)));
                assert forall|j: int| 0 <= j < i + 1 implies env_view(env@)[j] == row_env(vars@, m as nat)[j] by {
                    if j < i { assert(env@[j] == e0[j]); assert(env_view(e0)[j] == env_view(env@)[j]); }
                }
            }
            i += 1;
        }
        assert(env_view(env@) =~= row_env(vars@, m as nat));
        let v = eval_ast(ast, &env);
        out.push(if v { 1u8 } else { 0u8 });
        m += 1;
    }
    out
}

/// Strict lexicographic order of character sequences, a proper prefix first.
pub open spec fn lex_less(a: Seq<char>, b: Seq<char>) -> bool
    decreases a.len(),
{
    if a.len() == 0 {
        b.len() > 0
    } else if b.len() == 0 {
        false
    } else if a[0] != b[0] {
        a[0] < b[0]
    } else {
        lex_less(a.drop_first(), b.drop_first())
    }
}

proof fn lemma_lex_total(a: Seq<char>, b: Seq<char>)
    ensures
        a == b || lex_less(a, b) || lex_less(b, a),
        !(lex_less(a, b) && lex_less(b, a)),
        !lex_less(a, a),
    decreases a.len(),
{
    if a.len() > 0 && b.len() > 0 && a[0] == b[0] {
        lemma_lex_total(a.drop_first(), b.drop_first());
        if a.drop_first() == b.drop_first() {
            assert(a =~= seq![a[0]] + a.drop_first());
            assert(b =~= seq![b[0]] + b.drop_first());
        }
    }
    if a.len() > 0 {
        lemma_lex_total(a.drop_first(), a.drop_first());
    }
}

proof fn lemma_lex_trans(a: Seq<char>, b: Seq<char>, c: Seq<char>)
    requires
        lex_less(a, b),
        lex_less(b, c),
    ensures
        lex_less(a, c),
    decreases a.len(),
{
    if a.len() > 0 && b.len() > 0 && c.len() > 0 && a[0] == b[0] && b[0] == c[0] {
        lemma_lex_trans(a.drop_first(), b.drop_first(), c.drop_first());
    }
}

/// The names of the variables of a formula.
pub open spec fn vars_of(f: Formula) -> Set<Seq<char>>
    decreases f,
{
    match f {
        Formula::Var(name) => set![name],
        Formula::Not(x) => vars_of(*x),
        Formula::Bin(op, l, r) => vars_of(*l).union(vars_of(*r)),
    }
}

/// The names of `v`, strictly increasing in lexicographic order.
pub open spec fn sorted_names(v: Seq<String>) -> bool {
    forall|i: int, j: int| 0 <= i < j < v.len() ==> lex_less(v[i]@, v[j]@)
}

pub open spec fn name_set(v: Seq<String>) -> Set<Seq<char>> {
    Set::new(|s: Seq<char>| exists|i: int| 0 <= i < v.len() && v[i]@ == s)
}

fn less_name(a: &String, b: &String) -> (r: bool)
    ensures
        r == lex_less(a@, b@),
{
    let x = crate::text::chars_of(a.as_str());
    let y = crate::text::chars_of(b.as_str());
    let mut i: usize = 0;
    assert(a@.subrange(0, a@.len() as int) =~= a@);
    assert(b@.subrange(0, b@.len() as int) =~= b@);
    while i < x.len() && i < y.len() && x[i] == y[i]
        invariant
            x@ == a@, y@ == b@, i <= x@.len(), i <= y@.len(),
            lex_less(a@, b@) == lex_less(a@.subrange(i as int, a@.len() as int), b@.subrange(i as int, b@.len() as int)),
        decreases x@.len() - i,
    {
        assert(a@.subrange(i as int, a@.len() as int).drop_first() =~= a@.subrange(i + 1, a@.len() as int));
        assert(b@.subrange(i as int, b@.len() as int).drop_first() =~= b@.subrange(i + 1, b@.len() as int));
        i += 1;
    }
    if i == x.len() {
        i < y.len()
    } else if i == y.len() {
        false
    } else {
        x[i] < y[i]
    }
}

/// Adds `name` to a sorted list of names unless it is already there.
fn insert_name(names: &mut Vec<String>, name: &String)
    requires
        sorted_names(old(names)@),
    ensures
        sorted_names(final(names)@),
        name_set(final(names)@) == name_set(old(names)@).insert(name@),
{
    let ghost v0 = names@;
    let mut p: usize = 0;
    while p < names.len() && less_name(&names[p], name)
        invariant
            names@ == v0, sorted_names(v0), p <= v0.len(),
            forall|k: int| 0 <= k < p ==> lex_less(v0[k]@, name@),
        decreases v0.len() - p,
    {
        p += 1;
    }
    if p < names.len() && names[p] == *name {
        assert(name_set(names@) =~= name_set(v0).insert(name@)) by {
            assert(names@[p as int]@ == name@);
        }
        return;
    }
    proof {
        if p < v0.len() {
            lemma_lex_total(v0[p as int]@, name@);
        }
    }
    names.insert(p, name.clone());
    proof {
        let v1 = names@;
        assert(v1 == v0.insert(p as int, *name));
        assert forall|i: int, j: int| 0 <= i < j < v1.len() implies lex_less(v1[i]@, v1[j]@) by {
            if j < p {
                assert(v1[i] == v0[i] && v1[j] == v0[j]);
            } else if j == p {
                assert(v1[i] == v0[i]);
            } else if i == p {
                assert(v1[j] == v0[j - 1]);
                if j - 1 > p {
                    lemma_lex_trans(name@, v0[p as int]@, v0[j - 1]@);
                }
            } else if i < p {
                assert(v1[i] == v0[i] && v1[j] == v0[j - 1]);
            } else {
                assert(v1[i] == v0[i - 1] && v1[j] == v0[j - 1]);
            }
        }
        assert forall|s: Seq<char>| name_set(v1).contains(s) <==> name_set(v0).insert(name@).contains(s) by {
            if name_set(v1).contains(s) {
                let i = choose|i: int| 0 <= i < v1.len() && v1[i]@ == s;
                if i < p { assert(v0[i] == v1[i]); } else if i > p { assert(v0[i - 1] == v1[i]); }
            }
            if name_set(v0).contains(s) {
                let i = choose|i: int| 0 <= i < v0.len() && v0[i]@ == s;
                if i < p { assert(v1[i] == v0[i]); } else { assert(v1[i + 1] == v0[i]); }
            }
            if s == name@ {
                assert(v1[p as int]@ == name@);
            }
        }
        assert(name_set(v1) =~= name_set(v0).insert(name@));
    }
}

/// Adds the variables of `ast` to a sorted list of names.
pub fn collect_vars(ast: &Ast, set: &mut Vec<String>)
    requires
        sorted_names(old(set)@),
    ensures
        sorted_names(final(set)@),
        name_set(final(set)@) == name_set(old(set)@).union(vars_of(formula_of(*ast))),
    decreases ast,
{
    match ast {
        Ast::Var(v) => {
            insert_name(set, v);
            assert(name_set(set@) =~= name_set(old(set)@).union(vars_of(formula_of(*ast))));
        },
        Ast::Not(x) => {
            collect_vars(x, set);
        },
        Ast::BinOp(_, l, r) => {
            collect_vars(l, set);
            collect_vars(r, set);
            assert(name_set(set@) =~= name_set(old(set)@).union(vars_of(formula_of(*ast))));
        },
    }
}

} // verus!
