//! Transformations of truth tables.
use vstd::prelude::*;
use crate::boolean::eval::bit;
use crate::text::{chars_of, string_of};

verus! {

/// The parts joined with `sep` between neighbours.
pub open spec fn join(parts: Seq<Seq<char>>, sep: Seq<char>) -> Seq<char>
    decreases parts.len(),
{
    if parts.len() == 0 {
        Seq::empty()
    } else if parts.len() == 1 {
        parts[0]
    } else {
        join(parts.drop_last(), sep) + sep + parts.last()
    }
}

/// A variable, negated with a leading minus unless `positive`.
pub open spec fn literal(name: Seq<char>, positive: bool) -> Seq<char> {
    if positive { name } else { seq!['-'] + name }
}

/// The literals of row `mask` over the first `bits` variables; the first
/// variable goes with the highest digit, and a literal is positive where
/// its digit equals `one`.
pub open spec fn literals(vars: Seq<String>, bits: nat, mask: nat, one: bool) -> Seq<Seq<char>> {
    Seq::new(bits, |i: int| literal(vars[i]@, bit(mask, (bits - 1 - i) as nat) == one))
}

/// The conjunction of the literals true in row `mask`; `1` without variables.
pub open spec fn minterm(vars: Seq<String>, bits: nat, mask: nat) -> Seq<char> {
    if bits == 0 { seq!['1'] } else { join(literals(vars, bits, mask, true), seq![' ', '&', ' ']) }
}

/// The disjunction of the literals false in row `mask`; `0` without variables.
pub open spec fn maxterm(vars: Seq<String>, bits: nat, mask: nat) -> Seq<char> {
    if bits == 0 { seq!['0'] } else { join(literals(vars, bits, mask, false), seq![' ', '+', ' ']) }
}

pub open spec fn parenthesised(s: Seq<char>) -> Seq<char> {
    seq!['('] + s + seq![')']
}

/// The parenthesised terms of rows `0..k` whose entry is `value`: minterms
/// for 1, maxterms for 0.
pub open spec fn terms_upto(vars: Seq<String>, table: Seq<u8>, value: u8, k: int) -> Seq<Seq<char>>
    decreases k,
{
    if k <= 0 {
        Seq::empty()
    } else {
        let rest = terms_upto(vars, table, value, k - 1);
        if table[k - 1] == value {
            let t = if value == 1 { minterm(vars, vars.len(), (k - 1) as nat) } else { maxterm(vars, vars.len(), (k - 1) as nat) };
            rest.push(parenthesised(t))
        } else {
            rest
        }
    }
}

/// The perfect disjunctive normal form of a table.
pub open spec fn sdnf(vars: Seq<String>, table: Seq<u8>) -> Seq<char> {
    let terms = terms_upto(vars, table, 1, rows(vars.len()));
    if terms.len() == 0 { seq!['0'] } else { join(terms, seq![' ', '+', ' ']) }
}

/// The perfect conjunctive normal form of a table.
pub open spec fn sknf(vars: Seq<String>, table: Seq<u8>) -> Seq<char> {
    let terms = terms_upto(vars, table, 0, rows(vars.len()));
    if terms.len() == 0 { seq!['1'] } else { join(terms, seq![' ', '&', ' ']) }
}

/// `parts` joined with `sep`.
fn join_parts(parts: &Vec<Vec<char>>, sep: &Vec<char>) -> (r: Vec<char>)
    ensures
        r@ == join(parts@.map_values(|p: Vec<char>| p@), sep@),
{
    let ghost ps = parts@.map_values(|p: Vec<char>| p@);
    let mut out: Vec<char> = Vec::new();
    let mut k: usize = 0;
    while k < parts.len()
        invariant
            ps == parts@.map_values(|p: Vec<char>| p@), k <= parts@.len(),
            out@ == join(ps.subrange(0, k as int), sep@),
        decreases parts@.len() - k,
    {
        let ghost o0 = out@;
        if k > 0 {
            let mut j: usize = 0;
            while j < sep.len()
                invariant
                    j <= sep@.len(), out@ == o0 + sep@.subrange(0, j as int),
                decreases sep@.len() - j,
            {
                out.push(sep[j]);
                j += 1;
                assert(out@ =~= o0 + sep@.subrange(0, j as int));
            }
        }
        let ghost o1 = out@;
        let part = &parts[k];
        let mut j: usize = 0;
        while j < part.len()
            invariant
                j <= part@.len(), out@ == o1 + part@.subrange(0, j as int),
            decreases part@.len() - j,
        {
            out.push(part[j]);
            j += 1;
            assert(out@ =~= o1 + part@.subrange(0, j as int));
        }
        proof {
            assert(part@.subrange(0, part@.len() as int) =~= part@);
            assert(sep@.subrange(0, sep@.len() as int) =~= sep@);
            assert(ps[k as int] == part@);
            let pre = ps.subrange(0, k + 1);
            assert(pre.drop_last() =~= ps.subrange(0, k as int));
            if k == 0 {
                assert(ps.subrange(0, 0) =~= Seq::<Seq<char>>::empty());
                assert(out@ =~= part@);
            }
        }
        k += 1;
    }
    assert(ps.subrange(0, parts@.len() as int) =~= ps);
    out
}

/// Number of rows of a truth table over `n` variables.
pub open spec fn rows(n: nat) -> int {
    (1u32 << (n as u32)) as int
}

/// Row `m` with the digit `k` flipped.
pub open spec fn flip(m: int, k: nat) -> int {
    ((m as u32) ^ (1u32 << (k as u32))) as int
}

/// The row whose digits are the complements of those of `m`.
pub open spec fn complement(m: int, n: nat) -> int {
    ((!(m as u32)) & (((1u32 << (n as u32)) - 1) as u32)) as int
}

/// The table of the dual function: entry `m` is the negation of the entry
/// of the complementary row.
pub fn dual_from_truth(table: &Vec<u8>, nvars: usize) -> (r: Vec<u8>)
    requires
        nvars < 32,
        table@.len() == rows(nvars as nat),
        forall|m: int| 0 <= m < table@.len() ==> #[trigger] table@[m] <= 1,
    ensures
        r@.len() == table@.len(),
        forall|m: int| 0 <= m < r@.len() ==> #[trigger] r@[m] == 1 - table@[complement(m, nvars as nat)],
{
    let n = nvars as u32;
    let size: u32 = 1u32 << n;
    assert(size >= 1) by (bit_vector)
        requires size == 1u32 << n, n < 32;
    let mut out: Vec<u8> = Vec::new();
    let mut mask: u32 = 0;
    while mask < size
        invariant
            n == nvars, n < 32, size == 1u32 << n, size as int == table@.len(),
            forall|m: int| 0 <= m < table@.len() ==> #[trigger] table@[m] <= 1,
            mask <= size, out@.len() == mask,
            forall|m: int| 0 <= m < mask ==> #[trigger] out@[m] == 1 - table@[complement(m, nvars as nat)],
        decreases size - mask,
    {
        let top: u32 = size - 1;
        let inv_mask = (!mask) & top;
        assert(inv_mask < size) by (bit_vector)
            requires inv_mask == (!mask) & top, top == (size - 1) as u32, size == 1u32 << n, n < 32;
        assert(complement(mask as int, nvars as nat) == inv_mask as int);
        let v = table[inv_mask as usize];
        let ghost o0 = out@;
        out.push(1 - v);
        assert forall|m: int| 0 <= m < mask + 1 implies #[trigger] out@[m] == 1 - table@[complement(m, nvars as nat)] by {
            if m < mask { assert(out@[m] == o0[m]); }
        }
        mask += 1;
    }
    out
}

/// For each variable, whether the table ignores it: flipping its digit never
/// changes the entry. The first variable goes with the highest digit.
pub fn find_fictitious(vars: &Vec<String>, table: &Vec<u8>) -> (r: Vec<bool>)
    requires
        vars@.len() < 32,
        table@.len() == rows(vars@.len() as nat),
    ensures
        r@.len() == vars@.len(),
        forall|i: int| 0 <= i < r@.len() ==> r@[i] == forall|m: int| 0 <= m < table@.len() ==>
            #[trigger] table@[m] == table@[flip(m, (vars@.len() - 1 - i) as nat)],
{
    let n = vars.len();
    let size: u32 = 1u32 << (n as u32);
    let mut res: Vec<bool> = Vec::new();
    let mut i: usize = 0;
    while i < n
        invariant
            n == vars@.len(), n < 32, size == 1u32 << (n as u32), size as int == table@.len(),
            i <= n, res@.len() == i,
            forall|x: int| 0 <= x < i ==> res@[x] == forall|m: int| 0 <= m < table@.len() ==>
                #[trigger] table@[m] == table@[flip(m, (n - 1 - x) as nat)],
        decreases n - i,
    {
        let k = (n - 1 - i) as u32;
        let b: u32 = 1u32 << k;
        let mut ok = true;
        let mut mask: u32 = 0;
        while mask < size
            invariant
                n == vars@.len(), n < 32, size == 1u32 << (n as u32), size as int == table@.len(),
                i < n, k == n - 1 - i, b == 1u32 << k,
                mask <= size, mask < size ==> ok,
                ok == forall|m: int| 0 <= m < mask ==> #[trigger] table@[m] == table@[flip(m, k as nat)],
            decreases size - mask,
        {
            let flipped = mask ^ b;
            assert(flip(mask as int, k as nat) == flipped as int);
            let nn = n as u32;
            assert(flipped < size) by (bit_vector)
                requires flipped == mask ^ b, b == 1u32 << k, k < nn, nn < 32, mask < size, size == 1u32 << nn;
            if table[mask as usize] != table[flipped as usize] {
                ok = false;
                proof {
                    assert(!(table@[mask as int] == table@[flip(mask as int, k as nat)]));
                }
                mask = size;
            } else {
                assert forall|m: int| 0 <= m < mask + 1 implies #[trigger] table@[m] == table@[flip(m, k as nat)] by {
                    if m == mask {
                        assert(table@[mask as int] == table@[flipped as int]);
                    }
                }
                mask += 1;
            }
        }
        proof {
            if ok {
                assert(mask == size);
            }
        }
        res.push(ok);
        i += 1;
    }
    res
}

fn literal_chars(name: &String, positive: bool) -> (r: Vec<char>)
    ensures
        r@ == literal(name@, positive),
{
    let cs = chars_of(name.as_str());
    if positive {
        cs
    } else {
        let mut r: Vec<char> = Vec::new();
        r.push('-');
        let mut j: usize = 0;
        while j < cs.len()
            invariant
                j <= cs@.len(), r@ == seq!['-'] + cs@.subrange(0, j as int),
            decreases cs@.len() - j,
        {
            r.push(cs[j]);
            j += 1;
            assert(r@ =~= seq!['-'] + cs@.subrange(0, j as int));
        }
        assert(cs@.subrange(0, cs@.len() as int) =~= cs@);
        r
    }
}

/// The literals of row `mask`, or the constant for an empty row, joined by `sep`.
fn term_chars(vars: &Vec<String>, bits: usize, mask: u32, one: bool, sep: char, empty: char) -> (r: Vec<char>)
    requires
        bits <= vars@.len(),
        bits < 32,
    ensures
        r@ == if bits == 0 { seq![empty] } else { join(literals(vars@, bits as nat, mask as nat, one), seq![' ', sep, ' ']) },
{
    if bits == 0 {
        let mut r: Vec<char> = Vec::new();
        r.push(empty);
        assert(r@ =~= seq![empty]);
        return r;
    }
    let digits = crate::boolean::eval::digits(mask as u64, bits);
    let mut parts: Vec<Vec<char>> = Vec::new();
    let mut i: usize = 0;
    while i < bits
        invariant
            bits <= vars@.len(), i <= bits, parts@.len() == i, digits@.len() == bits,
            forall|k: int| 0 <= k < bits ==> digits@[k] == bit(mask as nat, k as nat),
            forall|k: int| 0 <= k < i ==> (#[trigger] parts@[k])@ == literals(vars@, bits as nat, mask as nat, one)[k],
        decreases bits - i,
    {
        let d = digits[bits - 1 - i];
        let lit = literal_chars(&vars[i], d == one);
        parts.push(lit);
        i += 1;
    }
    let mut sp: Vec<char> = Vec::new();
    sp.push(' ');
    sp.push(sep);
    sp.push(' ');
    assert(sp@ =~= seq![' ', sep, ' ']);
    assert(parts@.map_values(|p: Vec<char>| p@) =~= literals(vars@, bits as nat, mask as nat, one));
    join_parts(&parts, &sp)
}

fn parenthesise(s: Vec<char>) -> (r: Vec<char>)
    ensures
        r@ == parenthesised(s@),
{
    let mut r: Vec<char> = Vec::new();
    r.push('(');
    let mut j: usize = 0;
    while j < s.len()
        invariant
            j <= s@.len(), r@ == seq!['('] + s@.subrange(0, j as int),
        decreases s@.len() - j,
    {
        r.push(s[j]);
        j += 1;
        assert(r@ =~= seq!['('] + s@.subrange(0, j as int));
    }
    r.push(')');
    assert(s@.subrange(0, s@.len() as int) =~= s@);
    assert(r@ =~= parenthesised(s@));
    r
}

/// The normal form made of the terms of the rows whose entry is `value`.
fn normal_form(vars: &Vec<String>, table: &Vec<u8>, value: u8) -> (r: Vec<char>)
    requires
        vars@.len() < 32,
        table@.len() == rows(vars@.len() as nat),
        value <= 1,
    ensures
        r@ == if value == 1 { sdnf(vars@, table@) } else { sknf(vars@, table@) },
{
    let n = vars.len();
    let size: u32 = 1u32 << (n as u32);
    let mut terms: Vec<Vec<char>> = Vec::new();
    let mut mask: u32 = 0;
    while mask < size
        invariant
            n == vars@.len(), n < 32, size as int == rows(n as nat), size as int == table@.len(), value <= 1,
            mask <= size,
            terms@.map_values(|t: Vec<char>| t@) == terms_upto(vars@, table@, value, mask as int),
        decreases size - mask,
    {
        let ghost t0 = terms@;
        if table[mask as usize] == value {
            let t = if value == 1 {
                term_chars(vars, n, mask, true, '&', '1')
            } else {
                term_chars(vars, n, mask, false, '+', '0')
            };
            let p = parenthesise(t);
            terms.push(p);
            assert(terms@.map_values(|t: Vec<char>| t@) =~= t0.map_values(|t: Vec<char>| t@).push(p@));
        }
        mask += 1;
    }
    let mut sep: Vec<char> = Vec::new();
    sep.push(' ');
    sep.push(if value == 1 { '+' } else { '&' });
    sep.push(' ');
    if terms.len() == 0 {
        let mut r: Vec<char> = Vec::new();
        r.push(if value == 1 { '0' } else { '1' });
        assert(r@ =~= if value == 1 { seq!['0'] } else { seq!['1'] });
        r
    } else {
        assert(sep@ =~= if value == 1 { seq![' ', '+', ' '] } else { seq![' ', '&', ' '] });
        join_parts(&terms, &sep)
    }
}

/// The perfect disjunctive normal form: the minterms of the rows whose
/// entry is 1, joined by ` + `; `0` when there are none.
pub fn sdnf_from_truth(vars: &Vec<String>, table: &Vec<u8>) -> (r: String)
    requires
        vars@.len() < 32,
        table@.len() == rows(vars@.len() as nat),
    ensures
        r@ == sdnf(vars@, table@),
{
    string_of(&normal_form(vars, table, 1))
}

/// The perfect conjunctive normal form: the maxterms of the rows whose
/// entry is 0, joined by ` & `; `1` when there are none.
pub fn sknf_from_truth(vars: &Vec<String>, table: &Vec<u8>) -> (r: String)
    requires
        vars@.len() < 32,
        table@.len() == rows(vars@.len() as nat),
    ensures
        r@ == sknf(vars@, table@),
{
    string_of(&normal_form(vars, table, 0))
}

/// The conjunction of the literals true in row `mask` over the first `bits` variables.
pub fn minterm_str(vars: &Vec<String>, bits: usize, mask: u32) -> (r: String)
    requires
        bits <= vars@.len(),
        bits < 32,
    ensures
        r@ == minterm(vars@, bits as nat, mask as nat),
{
    string_of(&term_chars(vars, bits, mask, true, '&', '1'))
}

/// The disjunction of the literals false in row `mask` over the first `bits` variables.
pub fn maxterm_str(vars: &Vec<String>, bits: usize, mask: u32) -> (r: String)
    requires
        bits <= vars@.len(),
        bits < 32,
    ensures
        r@ == maxterm(vars@, bits as nat, mask as nat),
{
    string_of(&term_chars(vars, bits, mask, false, '+', '0'))
}

/// The table after the first `i` steps of the transform to algebraic normal
/// form: step `i` adds, in every row whose digit `i` is 1, the entry of the
/// row with that digit cleared.
pub open spec fn anf_stage(values: Seq<u8>, i: nat) -> Seq<u8>
    decreases i,
{
    if i == 0 {
        values
    } else {
        let prev = anf_stage(values, (i - 1) as nat);
        Seq::new(prev.len(), |m: int|
            if (m as u32) & (1u32 << ((i - 1) as u32)) != 0 {
                prev[m] ^ prev[((m as u32) ^ (1u32 << ((i - 1) as u32))) as int]
            } else {
                prev[m]
            })
    }
}

proof fn lemma_anf_stage_len(values: Seq<u8>, i: nat)
    ensures
        anf_stage(values, i).len() == values.len(),
    decreases i,
{
    if i > 0 {
        lemma_anf_stage_len(values, (i - 1) as nat);
    }
}

/// The coefficients of the algebraic normal form (Zhegalkin polynomial) of
/// a table over `nvars` variables.
pub fn anf_from_truth(values: &Vec<u8>, nvars: usize) -> (r: Vec<u8>)
    requires
        nvars < 32,
        values@.len() == rows(nvars as nat),
    ensures
        r@ == anf_stage(values@, nvars as nat),
{
    let mut a: Vec<u8> = values.clone();
    assert(a@ =~= values@);
    assert(anf_stage(values@, 0) == values@);
    let n = nvars as u32;
    let size: u32 = 1u32 << n;
    let mut i: u32 = 0;
    while i < n
        invariant
            n == nvars, n < 32, size == 1u32 << n, size as int == values@.len(),
            i <= n, a@ == anf_stage(values@, i as nat),
        decreases n - i,
    {
        let b: u32 = 1u32 << i;
        let ghost prev = a@;
        proof {
            lemma_anf_stage_len(values@, i as nat);
            lemma_anf_stage_len(values@, (i + 1) as nat);
        }
        let mut mask: u32 = 0;
        while mask < size
            invariant
                n == nvars, n < 32, size == 1u32 << n, size as int == values@.len(),
                i < n, b == 1u32 << i, prev == anf_stage(values@, i as nat), prev.len() == size,
                mask <= size, a@.len() == size,
                forall|m: int| 0 <= m < mask ==> a@[m] == anf_stage(values@, (i + 1) as nat)[m],
                forall|m: int| mask <= m < size ==> a@[m] == prev[m],
            decreases size - mask,
        {
            let ghost next = anf_stage(values@, (i + 1) as nat);
            if mask & b != 0 {
                let partner = mask ^ b;
                assert(partner < mask && partner & b == 0) by (bit_vector)
                    requires partner == mask ^ b, mask & b != 0, b == 1u32 << i, i < 32;
                assert(next[partner as int] == prev[partner as int]);
                let v = a[mask as usize] ^ a[partner as usize];
                a.set(mask as usize, v);
                assert(next[mask as int] == v);
            } else {
                assert(next[mask as int] == prev[mask as int]);
            }
            mask += 1;
        }
        assert(a@ =~= anf_stage(values@, (i + 1) as nat));
        i += 1;
    }
    a
}

/// The variables whose digit is 1 in `mask`, among the first `k`; the first
/// variable goes with the highest of the `n` digits.
pub open spec fn mask_vars(vars: Seq<String>, n: nat, mask: nat, k: int) -> Seq<Seq<char>>
    decreases k,
{
    if k <= 0 {
        Seq::empty()
    } else {
        let rest = mask_vars(vars, n, mask, k - 1);
        if bit(mask, (n - k) as nat) { rest.push(vars[k - 1]@) } else { rest }
    }
}

/// The monomials of rows `0..k` whose coefficient is non-zero; the empty
/// monomial is `1`.
pub open spec fn monomials_upto(vars: Seq<String>, coefs: Seq<u8>, k: int) -> Seq<Seq<char>>
    decreases k,
{
    if k <= 0 {
        Seq::empty()
    } else {
        let rest = monomials_upto(vars, coefs, k - 1);
        if coefs[k - 1] == 0 {
            rest
        } else if k - 1 == 0 {
            rest.push(seq!['1'])
        } else {
            rest.push(join(mask_vars(vars, vars.len(), (k - 1) as nat, vars.len() as int), seq![' ', '&', ' ']))
        }
    }
}

/// The algebraic normal form written out: monomials joined by ` @ `, `0`
/// when there are none.
pub open spec fn anf_text(vars: Seq<String>, coefs: Seq<u8>) -> Seq<char> {
    let terms = monomials_upto(vars, coefs, rows(vars.len()));
    if terms.len() == 0 { seq!['0'] } else { join(terms, seq![' ', '@', ' ']) }
}

pub fn anf_to_str(coefs: &Vec<u8>, vars: &Vec<String>) -> (r: String)
    requires
        vars@.len() < 32,
        coefs@.len() == rows(vars@.len() as nat),
    ensures
        r@ == anf_text(vars@, coefs@),
{
    let n = vars.len();
    let size: u32 = 1u32 << (n as u32);
    let mut amp: Vec<char> = Vec::new();
    amp.push(' ');
    amp.push('&');
    amp.push(' ');
    assert(amp@ =~= seq![' ', '&', ' ']);
    let mut terms: Vec<Vec<char>> = Vec::new();
    let mut mask: u32 = 0;
    while mask < size
        invariant
            n == vars@.len(), n < 32, size as int == rows(n as nat), size as int == coefs@.len(),
            amp@ == seq![' ', '&', ' '],
            mask <= size,
            terms@.map_values(|t: Vec<char>| t@) == monomials_upto(vars@, coefs@, mask as int),
        decreases size - mask,
    {
        let ghost t0 = terms@;
        if coefs[mask as usize] != 0 {
            let t = if mask == 0 {
                let mut one: Vec<char> = Vec::new();
                one.push('1');
                assert(one@ =~= seq!['1']);
                one
            } else {
                let digits = crate::boolean::eval::digits(mask as u64, n);
                let mut parts: Vec<Vec<char>> = Vec::new();
                let mut i: usize = 0;
                while i < n
                    invariant
                        n == vars@.len(), i <= n, digits@.len() == n,
                        forall|k: int| 0 <= k < n ==> digits@[k] == bit(mask as nat, k as nat),
                        parts@.map_values(|p: Vec<char>| p@) == mask_vars(vars@, n as nat, mask as nat, i as int),
                    decreases n - i,
                {
                    let ghost parts0 = parts@;
                    if digits[n - 1 - i] {
                        let v = chars_of(vars[i].as_str());
                        parts.push(v);
                        assert(parts@.map_values(|p: Vec<char>| p@) =~= parts0.map_values(|p: Vec<char>| p@).push(vars@[i as int]@));
                    }
                    i += 1;
                }
                join_parts(&parts, &amp)
            };
            terms.push(t);
            assert(terms@.map_values(|t: Vec<char>| t@) =~= t0.map_values(|t: Vec<char>| t@).push(t@));
        }
        mask += 1;
    }
    if terms.len() == 0 {
        let mut z: Vec<char> = Vec::new();
        z.push('0');
        assert(z@ =~= seq!['0']);
        string_of(&z)
    } else {
        let mut sep: Vec<char> = Vec::new();
        sep.push(' ');
        sep.push('@');
        sep.push(' ');
        assert(sep@ =~= seq![' ', '@', ' ']);
        string_of(&join_parts(&terms, &sep))
    }
}

/// Number of variables among the first `k` that are not marked.
pub open spec fn kept_count(fict: Seq<bool>, k: int) -> nat
    decreases k,
{
    if k <= 0 { 0 } else { kept_count(fict, k - 1) + if fict[k - 1] { 0nat } else { 1nat } }
}

/// Names of the variables among the first `k` that are not marked.
pub open spec fn kept_names(vars: Seq<String>, fict: Seq<bool>, k: int) -> Seq<Seq<char>>
    decreases k,
{
    if k <= 0 {
        Seq::empty()
    } else {
        let rest = kept_names(vars, fict, k - 1);
        if fict[k - 1] { rest } else { rest.push(vars[k - 1]@) }
    }
}

/// Row `mask` over `n` variables read over the `m` unmarked ones, looking at
/// the first `k` variables: each unmarked variable keeps its digit.
pub open spec fn compress(mask: u32, n: nat, fict: Seq<bool>, m: nat, k: int) -> u32
    decreases k,
{
    if k <= 0 {
        0
    } else {
        let c = compress(mask, n, fict, m, k - 1);
        if !fict[k - 1] && (mask >> ((n - k) as u32)) & 1 == 1 {
            c | (1u32 << ((m - 1 - kept_count(fict, k - 1)) as u32))
        } else {
            c
        }
    }
}

/// The reduced table after copying rows `0..k`: each row's entry goes to its
/// compressed row, later rows overwriting earlier ones.
pub open spec fn spread(table: Seq<u8>, n: nat, fict: Seq<bool>, m: nat, k: int) -> Seq<u8>
    decreases k,
{
    if k <= 0 {
        Seq::new(rows(m) as nat, |j: int| 0u8)
    } else {
        let s = spread(table, n, fict, m, k - 1);
        let c = compress((k - 1) as u32, n, fict, m, n as int) as int;
        if c < s.len() { s.update(c, table[k - 1]) } else { s }
    }
}

proof fn lemma_kept_count_le(fict: Seq<bool>, k: int)
    requires
        0 <= k,
    ensures
        kept_count(fict, k) <= k,
    decreases k,
{
    if k > 0 {
        lemma_kept_count_le(fict, k - 1);
    }
}

proof fn lemma_spread_len(table: Seq<u8>, n: nat, fict: Seq<bool>, m: nat, k: int)
    ensures
        spread(table, n, fict, m, k).len() == rows(m),
    decreases k,
{
    assert(rows(m) >= 0);
    if k > 0 {
        lemma_spread_len(table, n, fict, m, k - 1);
    }
}

/// Drops the marked variables: the remaining names, and the table over them.
/// With no variable left the table is the single entry 1 when some entry is 1.
pub fn remove_fictitious(vars: &Vec<String>, table: &Vec<u8>, is_fict: &Vec<bool>) -> (r: (Vec<String>, Vec<u8>))
    requires
        vars@.len() < 32,
        table@.len() == rows(vars@.len() as nat),
        is_fict@.len() == vars@.len(),
    ensures
        r.0@.map_values(|v: String| v@) == kept_names(vars@, is_fict@, vars@.len() as int),
        kept_count(is_fict@, vars@.len() as int) == 0 ==> r.1@ == seq![
            if exists|i: int| 0 <= i < table@.len() && table@[i] == 1 { 1u8 } else { 0u8 }],
        kept_count(is_fict@, vars@.len() as int) > 0 ==> r.1@ == spread(table@, vars@.len() as nat,
            is_fict@, kept_count(is_fict@, vars@.len() as int), rows(vars@.len() as nat)),
{
    let n = vars.len();
    let ghost f = is_fict@;
    let mut new_vars: Vec<String> = Vec::new();
    let mut idx_map: Vec<Option<usize>> = Vec::new();
    let mut i: usize = 0;
    while i < n
        invariant
            n == vars@.len(), n == f.len(), f == is_fict@, i <= n, idx_map@.len() == i,
            new_vars@.len() == kept_count(f, i as int),
            new_vars@.map_values(|v: String| v@) == kept_names(vars@, f, i as int),
            forall|k: int| 0 <= k < i ==> (#[trigger] idx_map@[k]) == if f[k] { None } else { Some(kept_count(f, k) as usize) },
        decreases n - i,
    {
        let ghost nv0 = new_vars@;
        if !is_fict[i] {
            idx_map.push(Some(new_vars.len()));
            new_vars.push(vars[i].clone());
            assert(new_vars@.map_values(|v: String| v@) =~= nv0.map_values(|v: String| v@).push(vars@[i as int]@));
        } else {
            idx_map.push(None);
        }
        i += 1;
    }
    if new_vars.len() == 0 {
        let mut found = false;
        let mut k: usize = 0;
        while k < table.len()
            invariant
                k <= table@.len(),
                found == exists|j: int| 0 <= j < k && table@[j] == 1,
            decreases table@.len() - k,
        {
            if table[k] == 1 {
                found = true;
            }
            k += 1;
        }
        let mut t: Vec<u8> = Vec::new();
        t.push(if found { 1u8 } else { 0u8 });
        assert(t@ =~= seq![if found { 1u8 } else { 0u8 }]);
        return (new_vars, t);
    }
    let m = new_vars.len();
    proof { lemma_kept_count_le(f, n as int); }
    let new_size: u32 = 1u32 << (m as u32);
    let mm = m as u32;
    assert(new_size >= 1) by (bit_vector)
        requires new_size == 1u32 << mm, mm < 32;
    let mut new_table: Vec<u8> = Vec::new();
    let mut j: u32 = 0;
    while j < new_size
        invariant
            j <= new_size, new_table@.len() == j,
            forall|x: int| 0 <= x < j ==> new_table@[x] == 0u8,
        decreases new_size - j,
    {
        new_table.push(0u8);
        j += 1;
    }
    assert(new_table@ =~= spread(table@, n as nat, f, m as nat, 0));
    let size: u32 = 1u32 << (n as u32);
    let mut mask: u32 = 0;
    while mask < size
        invariant
            n == vars@.len(), n < 32, n == f.len(), f == is_fict@, idx_map@.len() == n,
            1 <= m <= n, m == kept_count(f, n as int),
            new_size == 1u32 << (m as u32), new_size as int == rows(m as nat), new_size >= 1,
            size as int == table@.len(), size == 1u32 << (n as u32),
            forall|k: int| 0 <= k < n ==> (#[trigger] idx_map@[k]) == if f[k] { None } else { Some(kept_count(f, k) as usize) },
            mask <= size,
            new_table@ == spread(table@, n as nat, f, m as nat, mask as int),
        decreases size - mask,
    {
        let mut new_mask: u32 = 0;
        let mut i: usize = 0;
        while i < n
            invariant
                n == vars@.len(), n < 32, n == f.len(), idx_map@.len() == n,
                1 <= m <= n, m == kept_count(f, n as int),
                new_size == 1u32 << (m as u32),
                forall|k: int| 0 <= k < n ==> (#[trigger] idx_map@[k]) == if f[k] { None } else { Some(kept_count(f, k) as usize) },
                i <= n,
                new_mask == compress(mask, n as nat, f, m as nat, i as int),
                new_mask < new_size,
            decreases n - i,
        {
            proof {
                lemma_kept_count_monotone(f, i as int + 1, n as int);
            }
            match idx_map[i] {
                Some(idx) => {
                    let sh = (n - 1 - i) as u32;
                    let bit = (mask >> sh) & 1;
                    if bit == 1 {
                        let p = (m - 1 - idx) as u32;
                        let mm = m as u32;
                        let nm = new_mask | (1u32 << p);
                        assert(nm < new_size) by (bit_vector)
                            requires nm == new_mask | (1u32 << p), new_mask < new_size, new_size == 1u32 << mm, p < mm, mm < 32;
                        new_mask = nm;
                    }
                },
                None => {},
            }
            i += 1;
        }
        proof { lemma_spread_len(table@, n as nat, f, m as nat, mask as int); }
        new_table.set(new_mask as usize, table[mask as usize]);
        mask += 1;
    }
    (new_vars, new_table)
}

proof fn lemma_kept_count_monotone(f: Seq<bool>, a: int, b: int)
    requires
        0 <= a <= b,
    ensures
        kept_count(f, a) <= kept_count(f, b),
    decreases b - a,
{
    if a < b {
        lemma_kept_count_monotone(f, a, b - 1);
    }
}

} // verus!
