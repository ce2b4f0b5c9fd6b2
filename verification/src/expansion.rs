//! The words that a syntax tree stands for: cartesian products of the alternatives of
//! its nodes, and numeric and character ranges.
use vstd::prelude::*;

use crate::number::{decimal, lemma_nat_digits, lemma_parse_decimal, push_decimal};
use crate::parser::{self, asts_view, groups_view, leading_zero_count, lemma_asts_view, lemma_groups_view, spec_expansion, wf_ast, wf_asts, Ast, AstToken};
use crate::tokenizer::{self, escapes_whole, joined_raw, lemma_unescape_concat, unescape, TokenKind, TokView};

verus! {

/// The characters of a sequence of strings.
pub open spec fn strs(v: Seq<String>) -> Seq<Seq<char>> {
    v.map_values(|s: String| s@)
}

/// Each word of `a` followed by each word of `b`, the words of `a` in the outer loop.
pub open spec fn cartesian(a: Seq<Seq<char>>, b: Seq<Seq<char>>) -> Seq<Seq<char>>
    decreases a.len(),
{
    if a.len() == 0 {
        seq![]
    } else {
        cartesian(a.drop_last(), b) + b.map_values(|y: Seq<char>| a.last() + y)
    }
}

/// The number of values of the range from `start` to `end` by `step`.
pub open spec fn range_len(start: int, end: int, step: int) -> nat {
    ((if start <= end {
        end - start
    } else {
        start - end
    }) / step + 1) as nat
}

/// Value `k` of the range from `start` towards `end` by `step`.
pub open spec fn range_value(start: int, end: int, step: int, k: int) -> int {
    if start <= end {
        start + k * step
    } else {
        start - k * step
    }
}

/// The range from `start` to `end` by `step`: `start`, then each step towards `end`
/// while `end` is not passed.
pub open spec fn range_values(start: int, end: int, step: int) -> Seq<int> {
    Seq::new(range_len(start, end, step), |k: int| range_value(start, end, step, k))
}

/// `n` zeros.
pub open spec fn zeros(n: nat) -> Seq<char> {
    Seq::new(n, |i: int| '0')
}

/// The words of a numeric range: each value in decimal after `leading_zeros` zeros.
pub open spec fn numeric_words(start: int, end: int, step: int, leading_zeros: nat) -> Seq<Seq<char>> {
    range_values(start, end, step).map_values(|v: int| zeros(leading_zeros) + decimal(v))
}

/// The character that a character range writes for code `v`: a backslash becomes a
/// space.
pub open spec fn range_char(v: int) -> char {
    if v == '\\' as int {
        ' '
    } else {
        v as char
    }
}

/// The words of a character range.
pub open spec fn char_words(start: int, end: int, step: int) -> Seq<Seq<char>> {
    range_values(start, end, step).map_values(|v: int| seq![range_char(v)])
}

/// The words that one node stands for.
pub open spec fn ast_words(t: Ast) -> Seq<Seq<char>>
    decreases t,
{
    match t {
        Ast::Text(s) => seq![s],
        Ast::Comma(groups) => groups_words(groups),
        Ast::Numeric { start, end, step, leading_zeros } => numeric_words(
            start as int,
            end as int,
            step as int,
            leading_zeros as nat,
        ),
        Ast::Char { start, end, step } => char_words(start as int, end as int, step as int),
    }
}

/// The words of each alternative, one alternative after the other.
pub open spec fn groups_words(g: Seq<Seq<Ast>>) -> Seq<Seq<char>>
    decreases g,
{
    if g.len() == 0 {
        seq![]
    } else {
        groups_words(g.subrange(0, g.len() - 1)) + spec_expand_ast(g[g.len() - 1])
    }
}

/// The words that a sequence of nodes stands for: the cartesian product of the words
/// of each node, in order.
pub open spec fn spec_expand_ast(s: Seq<Ast>) -> Seq<Seq<char>>
    decreases s,
{
    if s.len() == 0 {
        seq![seq![]]
    } else {
        cartesian(spec_expand_ast(s.subrange(0, s.len() - 1)), ast_words(s[s.len() - 1]))
    }
}

/// The cartesian product holds `a.len() * b.len()` words, and word `k` of it is word
/// `k / b.len()` of `a` followed by word `k % b.len()` of `b`.
pub proof fn lemma_cartesian(a: Seq<Seq<char>>, b: Seq<Seq<char>>)
    ensures
        cartesian(a, b).len() == a.len() * b.len(),
        forall|k: int|
            0 <= k < cartesian(a, b).len() ==> #[trigger] cartesian(a, b)[k] == a[k / b.len() as int]
                + b[k % b.len() as int],
    decreases a.len(),
{
    if a.len() > 0 {
        let a1 = a.drop_last();
        lemma_cartesian(a1, b);
        let n = b.len() as int;
        let m = a.len() as int;
        let p = cartesian(a1, b);
        let q = b.map_values(|y: Seq<char>| a.last() + y);
        assert((m - 1) * n + n == m * n) by (nonlinear_arith);
        assert forall|k: int| 0 <= k < cartesian(a, b).len() implies #[trigger] cartesian(a, b)[k]
            == a[k / n] + b[k % n] by {
            if k < (m - 1) * n {
                assert(p[k] == a1[k / n] + b[k % n]);
                assert(n > 0) by (nonlinear_arith)
                    requires
                        0 <= k < (m - 1) * n,
                        m >= 1,
                        n >= 0,
                ;
                vstd::arithmetic::div_mod::lemma_fundamental_div_mod(k, n);
                assert(k / n < m - 1) by (nonlinear_arith)
                    requires
                        k == n * (k / n) + k % n,
                        0 <= k % n,
                        k < (m - 1) * n,
                        n > 0,
                ;
                assert(0 <= k / n) by {
                    vstd::arithmetic::div_mod::lemma_div_pos_is_pos(k, n);
                }
            } else {
                let r = k - (m - 1) * n;
                vstd::arithmetic::div_mod::lemma_fundamental_div_mod_converse(k, n, m - 1, r);
                assert(cartesian(a, b)[k] == q[r]);
            }
        }
    }
}

/// The cartesian product is associative.
pub proof fn lemma_cartesian_assoc(a: Seq<Seq<char>>, b: Seq<Seq<char>>, c: Seq<Seq<char>>)
    ensures
        cartesian(cartesian(a, b), c) == cartesian(a, cartesian(b, c)),
{
    let ab = cartesian(a, b);
    let bc = cartesian(b, c);
    lemma_cartesian(a, b);
    lemma_cartesian(b, c);
    lemma_cartesian(ab, c);
    lemma_cartesian(a, bc);
    let l = cartesian(ab, c);
    let r = cartesian(a, bc);
    let na = a.len() as int;
    let nb = b.len() as int;
    let nc = c.len() as int;
    assert((na * nb) * nc == na * (nb * nc)) by (nonlinear_arith);
    assert(nc * nb == nb * nc) by (nonlinear_arith);
    assert forall|k: int| 0 <= k < l.len() implies l[k] == r[k] by {
        assert(nb > 0 && nc > 0) by (nonlinear_arith)
            requires
                0 <= k < (na * nb) * nc,
                na >= 0,
                nb >= 0,
                nc >= 0,
        ;
        let q = k / nc;
        vstd::arithmetic::div_mod::lemma_fundamental_div_mod(k, nc);
        assert(0 <= q < na * nb) by (nonlinear_arith)
            requires
                k == nc * q + k % nc,
                0 <= k % nc < nc,
                0 <= k < (na * nb) * nc,
                nc > 0,
        ;
        assert(0 <= k % nc < nc) by {
            vstd::arithmetic::div_mod::lemma_mod_bound(k, nc);
        }
        vstd::arithmetic::div_mod::lemma_div_denominator(k, nc, nb);
        vstd::arithmetic::div_mod::lemma_mod_mod(k, nc, nb);
        vstd::arithmetic::div_mod::lemma_breakdown(k, nc, nb);
        vstd::arithmetic::div_mod::lemma_mod_bound(q, nb);
        vstd::arithmetic::div_mod::lemma_fundamental_div_mod_converse(k % (nc * nb), nc, q % nb, k % nc);
        let m = k % (nb * nc);
        vstd::arithmetic::div_mod::lemma_mod_bound(k, nb * nc);
        assert(l[k] == ab[q] + c[k % nc]);
        assert(ab[q] == a[q / nb] + b[q % nb]);
        assert(r[k] == a[k / (nb * nc)] + bc[m]);
        assert(bc[m] == b[m / nc] + c[m % nc]);
        assert(l[k] =~= r[k]);
    }
    assert(l =~= r);
}

/// Appending the empty word on the right changes nothing.
proof fn lemma_cartesian_unit(x: Seq<Seq<char>>)
    ensures
        cartesian(x, seq![Seq::<char>::empty()]) == x,
{
    let u = seq![Seq::<char>::empty()];
    lemma_cartesian(x, u);
    assert(u.len() == 1);
    assert(x.len() * 1 == x.len()) by (nonlinear_arith);
    assert forall|k: int| 0 <= k < x.len() implies cartesian(x, u)[k] == x[k] by {
        assert(k / 1 == k && k % 1 == 0);
        assert(cartesian(x, u)[k] == x[k / (u.len() as int)] + u[k % (u.len() as int)]);
        assert(x[k] + u[0] =~= x[k]);
    }
    assert(cartesian(x, u) =~= x);
}

/// The words of two sequences of nodes, one after the other, are the cartesian product
/// of the words of each.
pub proof fn lemma_expand_concat(s: Seq<Ast>, t: Seq<Ast>)
    ensures
        spec_expand_ast(s + t) == cartesian(spec_expand_ast(s), spec_expand_ast(t)),
    decreases t.len(),
{
    if t.len() == 0 {
        assert(s + t =~= s);
        lemma_cartesian_unit(spec_expand_ast(s));
    } else {
        let st = s + t;
        let t1 = t.subrange(0, t.len() - 1);
        assert(st.subrange(0, st.len() - 1) =~= s + t1);
        assert(st[st.len() - 1] == t[t.len() - 1]);
        lemma_expand_concat(s, t1);
        lemma_cartesian_assoc(spec_expand_ast(s), spec_expand_ast(t1), ast_words(t[t.len() - 1]));
    }
}

/// The number of words that a sequence of nodes stands for is the product of the
/// numbers of words of its nodes.
pub open spec fn word_count(s: Seq<Ast>) -> nat
    decreases s.len(),
{
    if s.len() == 0 {
        1
    } else {
        word_count(s.drop_last()) * ast_words(s.last()).len()
    }
}

/// Expanding a sequence of nodes gives as many words as the product of the numbers of
/// alternatives of its nodes.
pub proof fn lemma_expand_count(s: Seq<Ast>)
    ensures
        spec_expand_ast(s).len() == word_count(s),
    decreases s.len(),
{
    if s.len() > 0 {
        assert(s.subrange(0, s.len() - 1) =~= s.drop_last());
        lemma_expand_count(s.drop_last());
        lemma_cartesian(spec_expand_ast(s.drop_last()), ast_words(s.last()));
    }
}

/// A range run backwards: when the step divides the distance, the range from `end` to
/// `start` is the range from `start` to `end` reversed.
pub proof fn lemma_range_reversed(start: int, end: int, step: int)
    requires
        step > 0,
        (if start <= end {
            end - start
        } else {
            start - end
        }) % step == 0,
    ensures
        range_values(end, start, step) == range_values(start, end, step).reverse(),
{
    let d = if start <= end {
        end - start
    } else {
        start - end
    };
    let fwd = range_values(start, end, step);
    let bwd = range_values(end, start, step);
    let n = d / step;
    vstd::arithmetic::div_mod::lemma_fundamental_div_mod(d, step);
    assert(d == n * step) by (nonlinear_arith)
        requires
            d == step * (d / step) + d % step,
            d % step == 0,
            n == d / step,
    ;
    assert(fwd.len() == n + 1);
    assert(bwd.len() == n + 1);
    assert forall|k: int| 0 <= k < bwd.len() implies bwd[k] == fwd.reverse()[k] by {
        assert(fwd.reverse()[k] == fwd[n - k]);
        assert((n - k) * step == n * step - k * step) by (nonlinear_arith);
    }
    assert(bwd =~= fwd.reverse());
}

proof fn lemma_strs_push(v: Seq<String>, s: String)
    ensures
        strs(v.push(s)) == strs(v).push(s@),
{
    assert(strs(v.push(s)) =~= strs(v).push(s@));
}

/// Each string of `list_a` followed by each string of `list_b`.
pub fn cartesian_product(list_a: Vec<String>, list_b: &[String]) -> (res: Vec<String>)
    ensures
        strs(res@) == cartesian(strs(list_a@), strs(list_b@)),
{
    let ghost a = strs(list_a@);
    let ghost b = strs(list_b@);
    let mut out: Vec<String> = Vec::new();
    let mut i: usize = 0;
    assert(strs(out@) =~= cartesian(a.take(0), b));
    while i < list_a.len()
        invariant
            i <= list_a@.len(),
            a == strs(list_a@),
            b == strs(list_b@),
            strs(out@) == cartesian(a.take(i as int), b),
        decreases list_a@.len() - i,
    {
        let ghost base = strs(out@);
        let mut j: usize = 0;
        assert(base + b.take(0).map_values(|y: Seq<char>| a[i as int] + y) =~= base);
        while j < list_b.len()
            invariant
                i < list_a@.len(),
                j <= list_b@.len(),
                a == strs(list_a@),
                b == strs(list_b@),
                strs(out@) == base + b.take(j as int).map_values(|y: Seq<char>| a[i as int] + y),
            decreases list_b@.len() - j,
        {
            let mut s = list_a[i].clone();
            s.append(list_b[j].as_str());
            let ghost before = out@;
            out.push(s);
            proof {
                lemma_strs_push(before, s);
                assert(b.take(j + 1).map_values(|y: Seq<char>| a[i as int] + y) =~= b.take(
                    j as int,
                ).map_values(|y: Seq<char>| a[i as int] + y).push(a[i as int] + b[j as int]));
                assert(strs(out@) =~= base + b.take(j + 1).map_values(
                    |y: Seq<char>| a[i as int] + y,
                ));
            }
            j += 1;
        }
        proof {
            assert(b.take(j as int) =~= b);
            assert(a.take(i + 1).drop_last() =~= a.take(i as int));
        }
        i += 1;
    }
    assert(a.take(i as int) =~= a);
    out
}


/// The distance `d` covered by a range whose `k` steps of `s` overshoot it, and whose
/// `k - 1` steps do not, makes `k` the number of values of the range.
proof fn lemma_range_count(d: int, s: int, k: int)
    requires
        s > 0,
        d >= 0,
        k >= 0,
        d < k * s,
        k * s <= d + s,
    ensures
        k == d / s + 1,
{
    let q = d / s;
    let r = d % s;
    vstd::arithmetic::div_mod::lemma_fundamental_div_mod(d, s);
    assert(0 <= r < s) by {
        vstd::arithmetic::div_mod::lemma_mod_bound(d, s);
    }
    assert(k == q + 1) by (nonlinear_arith)
        requires
            d == s * q + r,
            0 <= r < s,
            d < k * s,
            k * s <= d + s,
            s > 0,
    ;
}

/// Appends `n` zeros to `s`.
fn push_zeros(s: &mut String, n: usize)
    ensures
        final(s)@ == old(s)@ + zeros(n as nat),
{
    let mut i: usize = 0;
    while i < n
        invariant
            i <= n,
            s@ == old(s)@ + zeros(i as nat),
        decreases n - i,
    {
        s.push('0');
        i += 1;
        assert(s@ =~= old(s)@ + zeros(i as nat));
    }
}

/// The words of the numeric range from `start` to `end` by `step`, each value after
/// `leading_zeros` zeros.
pub fn numeric_range(start: i32, end: i32, step: u16, leading_zeros: usize) -> (res: Vec<String>)
    requires
        step >= 1,
    ensures
        strs(res@) == numeric_words(start as int, end as int, step as int, leading_zeros as nat),
{
    let forward = start <= end;
    let ghost d: int = if forward {
        end - start
    } else {
        start - end
    };
    let ghost words = numeric_words(start as int, end as int, step as int, leading_zeros as nat);
    let mut out: Vec<String> = Vec::new();
    let mut v: i64 = start as i64;
    let ghost mut k: int = 0;
    while (forward && v <= end as i64) || (!forward && v >= end as i64)
        invariant
            forward == (start <= end),
            d == (if forward { end - start } else { start - end }),
            step >= 1,
            0 <= k,
            out@.len() == k,
            k * step <= d + step,
            v == range_value(start as int, end as int, step as int, k),
            forall|j: int|
                0 <= j < k ==> #[trigger] strs(out@)[j] == zeros(leading_zeros as nat) + decimal(
                    range_value(start as int, end as int, step as int, j),
                ),
        decreases d + step - k * step,
    {
        let mut s = String::new();
        push_zeros(&mut s, leading_zeros);
        push_decimal(&mut s, v);
        let ghost before = out@;
        out.push(s);
        proof {
            lemma_strs_push(before, s);
            assert((k + 1) * step == k * step + step) by (nonlinear_arith);
        }
        if forward {
            v = v + step as i64;
        } else {
            v = v - step as i64;
        }
        proof {
            k = k + 1;
        }
    }
    proof {
        assert((k - 1) * step == k * step - step) by (nonlinear_arith);
        lemma_range_count(d, step as int, k);
        assert(strs(out@) =~= words);
    }
    out
}

/// The words of the character range from `start` to `end` by `step`.
pub fn char_range(start: u8, end: u8, step: u16) -> (res: Vec<String>)
    requires
        step >= 1,
    ensures
        strs(res@) == char_words(start as int, end as int, step as int),
{
    let forward = start <= end;
    let ghost d: int = if forward {
        end - start
    } else {
        start - end
    };
    let ghost words = char_words(start as int, end as int, step as int);
    let mut out: Vec<String> = Vec::new();
    let mut v: i32 = start as i32;
    let ghost mut k: int = 0;
    while (forward && v <= end as i32) || (!forward && v >= end as i32)
        invariant
            forward == (start <= end),
            d == (if forward { end - start } else { start - end }),
            step >= 1,
            0 <= k,
            out@.len() == k,
            k * step <= d + step,
            v == range_value(start as int, end as int, step as int, k),
            forall|j: int|
                0 <= j < k ==> #[trigger] strs(out@)[j] == seq![
                    range_char(range_value(start as int, end as int, step as int, j)),
                ],
        decreases d + step - k * step,
    {
        let c = (v as u8) as char;
        let shown = if c == '\\' {
            ' '
        } else {
            c
        };
        let mut s = String::new();
        s.push(shown);
        let ghost before = out@;
        out.push(s);
        proof {
            lemma_strs_push(before, s);
            assert((k + 1) * step == k * step + step) by (nonlinear_arith);
            assert(s@ =~= seq![range_char(v as int)]);
        }
        if forward {
            v = v + step as i32;
        } else {
            v = v - step as i32;
        }
        proof {
            k = k + 1;
        }
    }
    proof {
        assert((k - 1) * step == k * step - step) by (nonlinear_arith);
        lemma_range_count(d, step as int, k);
        assert(strs(out@) =~= words);
    }
    out
}


/// The words that the nodes `input` stand for.
pub fn expand_ast(input: &[AstToken]) -> (res: Vec<String>)
    requires
        wf_asts(asts_view(input@)),
    ensures
        strs(res@) == spec_expand_ast(asts_view(input@)),
    decreases input@,
{
    let ghost nodes = asts_view(input@);
    proof {
        lemma_asts_view(input@);
    }
    let mut segments: Vec<String> = Vec::new();
    segments.push(String::new());
    let mut i: usize = 0;
    proof {
        assert(nodes.take(0) =~= Seq::<Ast>::empty());
        assert(strs(segments@) =~= seq![Seq::<char>::empty()]);
    }
    while i < input.len()
        invariant
            i <= input@.len(),
            nodes == asts_view(input@),
            nodes.len() == input@.len(),
            forall|j: int| 0 <= j < input@.len() ==> #[trigger] nodes[j] == parser::ast_view(input@[j]),
            wf_asts(nodes),
            strs(segments@) == spec_expand_ast(nodes.take(i as int)),
        decreases input@.len() - i,
    {
        assert(wf_ast(nodes[i as int]));
        let words: Vec<String> = match &input[i] {
            AstToken::Text(text) => {
                let mut v: Vec<String> = Vec::new();
                v.push(text.clone());
                assert(strs(v@) =~= seq![text@]);
                v
            },
            AstToken::NumericExpansion { start, end, step, leading_zeros } => {
                numeric_range(*start, *end, *step, *leading_zeros)
            },
            AstToken::CharExpansion { start, end, step } => {
                char_range(*start, *end, *step)
            },
            AstToken::CommaExpansion(groups) => {
                let ghost gv = groups_view(groups@);
                proof {
                    lemma_groups_view(groups@);
                }
                let mut all: Vec<String> = Vec::new();
                let mut j: usize = 0;
                assert(nodes[i as int] == Ast::Comma(gv));
                assert(wf_ast(Ast::Comma(gv)));
                proof {
                    parser::lemma_wf_comma(gv);
                }
                assert(strs(all@) =~= groups_words(gv.take(0)));
                while j < groups.len()
                    invariant
                        i < input@.len(),
                        input@[i as int] == AstToken::CommaExpansion(*groups),
                        j <= groups@.len(),
                        gv == groups_view(groups@),
                        gv.len() == groups@.len(),
                        forall|m: int| 0 <= m < groups@.len() ==> #[trigger] gv[m] == asts_view(groups@[m]@),
                        strs(all@) == groups_words(gv.take(j as int)),
                        forall|m: int| 0 <= m < gv.len() ==> wf_asts(#[trigger] gv[m]),
                    decreases groups@.len() - j,
                {
                    assert(decreases_to!(input@ => groups@[j as int]@)) by {
                        assert(decreases_to!(input@ => input@[i as int]));
                        assert(decreases_to!(input@[i as int] => input@[i as int]->CommaExpansion_0));
                        assert(decreases_to!(*groups => groups@));
                        assert(decreases_to!(groups@ => groups@[j as int]));
                        assert(decreases_to!(groups@[j as int] => groups@[j as int]@));
                    };
                    assert(wf_asts(gv[j as int]));
                    let mut more = expand_ast(groups[j].as_slice());
                    let ghost before = strs(all@);
                    all.append(&mut more);
                    proof {
                        assert(gv.take(j + 1).subrange(0, j as int) =~= gv.take(j as int));
                        assert(strs(all@) =~= groups_words(gv.take(j + 1)));
                    }
                    j += 1;
                }
                assert(gv.take(j as int) =~= gv);
                all
            },
        };
        proof {
            assert(nodes.take(i + 1).subrange(0, i as int) =~= nodes.take(i as int));
            assert(strs(words@) == ast_words(nodes[i as int]));
        }
        segments = cartesian_product(segments, words.as_slice());
        i += 1;
    }
    assert(nodes.take(i as int) =~= nodes);
    segments
}


proof fn lemma_decimal_no_padding(v: int)
    ensures
        decimal(v).len() > 0,
        leading_zero_count(decimal(v).drop_last()) == 0,
{
    if v < 0 {
        lemma_nat_digits((-v) as nat);
        let d = decimal(v).drop_last();
        assert(d.len() > 0 && d[0] == '-');
    } else {
        lemma_nat_digits(v as nat);
        let d = decimal(v).drop_last();
        if d.len() > 0 {
            assert(d[0] == decimal(v)[0]);
        }
    }
}

/// A range `{a..b}` whose bounds are written as `Display` writes two `i32` values
/// stands for the decimal forms of the integers from `a` to `b`, one by one, in order.
pub proof fn lemma_decimal_range(
    a: TokView,
    dots: TokView,
    b: TokView,
    end: TokView,
    rest: Seq<TokView>,
    strict: bool,
    va: i32,
    vb: i32,
)
    requires
        a.kind == TokenKind::Text,
        dots.kind == TokenKind::Ellipses,
        b.kind == TokenKind::Text,
        end.kind == TokenKind::End,
        a.span.raw == decimal(va as int),
        b.span.raw == decimal(vb as int),
    ensures
        spec_expansion(seq![a, dots, b, end] + rest, strict) matches Ok((r, node)) && r == rest
            && ast_words(node) == range_values(va as int, vb as int, 1).map_values(
            |v: int| decimal(v),
        ),
{
    lemma_parse_decimal(va as int);
    lemma_parse_decimal(vb as int);
    lemma_decimal_no_padding(va as int);
    lemma_decimal_no_padding(vb as int);
    parser::lemma_integer_range(a, dots, b, end, rest, strict, va as int, vb as int);
    assert(zeros(0) =~= Seq::<char>::empty());
    let w = range_values(va as int, vb as int, 1);
    assert(w.map_values(|v: int| zeros(0) + decimal(v)) =~= w.map_values(|v: int| decimal(v))) by {
        assert forall|k: int| 0 <= k < w.len() implies zeros(0) + decimal(w[k]) == decimal(w[k]) by {
            assert(zeros(0) + decimal(w[k]) =~= decimal(w[k]));
        }
    }
}

/// The alternatives that a run of text, `..` and comma tokens spells: the characters
/// that the tokens between one comma and the next stand for, `..` included.
pub open spec fn comma_alternatives(toks: Seq<TokView>) -> Seq<Seq<char>>
    decreases toks.len(),
{
    if toks.len() == 0 {
        seq![seq![]]
    } else {
        let p = comma_alternatives(toks.drop_last());
        if toks.last().kind is Comma {
            p.push(seq![])
        } else {
            p.update(p.len() - 1, p.last() + toks.last().span.chars())
        }
    }
}

proof fn lemma_comma_alternatives_len(toks: Seq<TokView>)
    ensures
        comma_alternatives(toks).len() >= 1,
    decreases toks.len(),
{
    if toks.len() > 0 {
        lemma_comma_alternatives_len(toks.drop_last());
    }
}

/// An alternative under way that stands for the one word `w`.
spec fn group_is(g: Seq<Ast>, w: Seq<char>) -> bool {
    (g.len() == 0 && w.len() == 0) || g == seq![Ast::Text(w)]
}

proof fn lemma_group_words(g: Seq<Ast>, w: Seq<char>)
    requires
        group_is(g, w),
    ensures
        spec_expand_ast(g) == seq![w],
{
    if g.len() == 0 {
        assert(w =~= Seq::<char>::empty());
    } else {
        assert(g.subrange(0, 0) =~= Seq::<Ast>::empty());
        let e: Seq<Seq<char>> = seq![seq![]];
        assert(spec_expand_ast(g.subrange(0, 0)) == e);
        assert(ast_words(g[0]) == seq![w]);
        assert(e.drop_last() =~= Seq::<Seq<char>>::empty());
        assert(cartesian(e.drop_last(), seq![w]) =~= Seq::<Seq<char>>::empty());
        assert(seq![w].map_values(|y: Seq<char>| e.last() + y) =~= seq![w]) by {
            assert(e.last() + w =~= w);
        }
        assert(cartesian(e, seq![w]) =~= seq![w]);
    }
}

proof fn lemma_groups_push_words(groups: Seq<Seq<Ast>>, g: Seq<Ast>)
    ensures
        groups_words(groups.push(g)) == groups_words(groups) + spec_expand_ast(g),
{
    let u = groups.push(g);
    assert(u.subrange(0, u.len() - 1) =~= groups);
}

proof fn lemma_comma_loop(
    orig: Seq<TokView>,
    done: Seq<TokView>,
    body: Seq<TokView>,
    end: TokView,
    rest: Seq<TokView>,
    st: parser::ExpState,
    strict: bool,
)
    requires
        forall|k: int|
            0 <= k < body.len() ==> (#[trigger] body[k].kind is Text || body[k].kind is Ellipses
                || body[k].kind is Comma),
        end.kind == TokenKind::End,
        st.found_comma || exists|k: int| 0 <= k < body.len() && (#[trigger] body[k].kind is Comma),
        groups_words(st.groups) == comma_alternatives(done).drop_last(),
        group_is(st.current, comma_alternatives(done).last()),
    ensures
        parser::expansion_loop(orig, body.push(end) + rest, st, strict) matches Ok((r, node)) && r
            == rest && ast_words(node) == comma_alternatives(done + body),
    decreases body.len(),
{
    let toks = body.push(end) + rest;
    let alts = comma_alternatives(done);
    lemma_comma_alternatives_len(done);
    if body.len() == 0 {
        assert(toks[0] == end);
        assert(toks.subrange(1, toks.len() as int) =~= rest);
        assert(done + body =~= done);
        lemma_groups_push_words(st.groups, st.current);
        lemma_group_words(st.current, alts.last());
        assert(alts.drop_last() + seq![alts.last()] =~= alts);
    } else {
        let t = body[0];
        let b2 = body.subrange(1, body.len() as int);
        let done2 = done.push(t);
        assert(toks[0] == t);
        assert(toks.subrange(1, toks.len() as int) =~= b2.push(end) + rest);
        assert(done2 + b2 =~= done + body);
        assert(done2.drop_last() =~= done);
        assert(done2.last() == t);
        let alts2 = comma_alternatives(done2);
        if !st.found_comma {
            let k = choose|k: int| 0 <= k < body.len() && (#[trigger] body[k].kind is Comma);
            if k > 0 {
                assert(b2[k - 1] == body[k]);
            }
        }
        assert forall|k: int| 0 <= k < b2.len() implies (#[trigger] b2[k].kind is Text
            || b2[k].kind is Ellipses || b2[k].kind is Comma) by {
            assert(b2[k] == body[k + 1]);
        }
        if t.kind is Comma {
            let st2 = parser::ExpState {
                can_be_numeric: false,
                found_comma: true,
                groups: st.groups.push(st.current),
                current: seq![],
                ..st
            };
            lemma_groups_push_words(st.groups, st.current);
            lemma_group_words(st.current, alts.last());
            assert(alts2 == alts.push(seq![]));
            assert(alts2.drop_last() =~= alts.drop_last() + seq![alts.last()]);
            lemma_comma_loop(orig, done2, b2, end, rest, st2, strict);
        } else {
            let x = t.span.chars();
            let cur = parser::add_text(st.current, x);
            assert(alts2 == alts.update(alts.len() - 1, alts.last() + x));
            assert(alts2.drop_last() =~= alts.drop_last());
            assert(alts2.last() == alts.last() + x);
            assert(group_is(cur, alts2.last())) by {
                if st.current.len() == 0 {
                    assert(alts.last() + x =~= x);
                    assert(cur =~= seq![Ast::Text(alts2.last())]);
                } else {
                    assert(st.current.last() == Ast::Text(alts.last()));
                    assert(cur =~= seq![Ast::Text(alts2.last())]);
                }
            }
            if t.kind is Ellipses {
                let st2 = match st.number {
                    Some(n) => parser::ExpState {
                        numbers: st.numbers.push(n),
                        number: None,
                        current: cur,
                        ..st
                    },
                    None => parser::ExpState { can_be_numeric: false, current: cur, ..st },
                };
                lemma_comma_loop(orig, done2, b2, end, rest, st2, strict);
            } else {
                let st2 = parser::ExpState { number: Some(t), current: cur, ..st };
                lemma_comma_loop(orig, done2, b2, end, rest, st2, strict);
            }
        }
    }
}

/// A comma expansion whose tokens are text, `..` and commas (one comma at least) stands
/// for the texts between its commas, each as its tokens spell it, `..` included: one
/// word per alternative, in order.
pub proof fn lemma_comma_alternatives(body: Seq<TokView>, end: TokView, rest: Seq<TokView>, strict: bool)
    requires
        forall|k: int|
            0 <= k < body.len() ==> (#[trigger] body[k].kind is Text || body[k].kind is Ellipses
                || body[k].kind is Comma),
        exists|k: int| 0 <= k < body.len() && (#[trigger] body[k].kind is Comma),
        end.kind == TokenKind::End,
    ensures
        spec_expansion(body.push(end) + rest, strict) matches Ok((r, node)) && r == rest
            && ast_words(node) == comma_alternatives(body),
{
    let toks = body.push(end) + rest;
    let e: Seq<TokView> = seq![];
    assert(e + body =~= body);
    assert(comma_alternatives(e).drop_last() =~= Seq::<Seq<char>>::empty());
    lemma_comma_loop(toks, e, body, end, rest, parser::initial_exp_state(), strict);
}

/// The characters that tokens stand for, one token after the other.
pub open spec fn tokens_chars(toks: Seq<TokView>) -> Seq<char>
    decreases toks.len(),
{
    if toks.len() == 0 {
        seq![]
    } else {
        tokens_chars(toks.drop_last()) + toks.last().span.chars()
    }
}

/// Tokens read with escapes on, each with its escapes whole, stand for their raw texts
/// unescaped.
pub proof fn lemma_tokens_chars_unescape(toks: Seq<TokView>)
    requires
        forall|k: int|
            0 <= k < toks.len() ==> #[trigger] toks[k].span.interpret_backslashes && escapes_whole(
                toks[k].span.raw,
            ),
    ensures
        tokens_chars(toks) == unescape(joined_raw(toks)),
    decreases toks.len(),
{
    if toks.len() > 0 {
        let d = toks.drop_last();
        assert forall|k: int| 0 <= k < d.len() implies #[trigger] d[k].span.interpret_backslashes
            && escapes_whole(d[k].span.raw) by {
            assert(d[k] == toks[k]);
        }
        lemma_tokens_chars_unescape(d);
        let t = toks.last();
        assert(t == toks[toks.len() - 1]);
        assert(t.span.interpret_backslashes);
        // the escapes of the earlier tokens are whole, so they unescape apart
        lemma_joined_escapes(d);
        lemma_unescape_concat(joined_raw(d), t.span.raw);
    } else {
        assert(unescape(Seq::<char>::empty()) =~= Seq::<char>::empty());
    }
}

proof fn lemma_joined_escapes(toks: Seq<TokView>)
    requires
        forall|k: int|
            0 <= k < toks.len() ==> #[trigger] toks[k].span.interpret_backslashes && escapes_whole(
                toks[k].span.raw,
            ),
    ensures
        escapes_whole(joined_raw(toks)),
    decreases toks.len(),
{
    if toks.len() > 0 {
        let d = toks.drop_last();
        assert forall|k: int| 0 <= k < d.len() implies #[trigger] d[k].span.interpret_backslashes
            && escapes_whole(d[k].span.raw) by {
            assert(d[k] == toks[k]);
        }
        lemma_joined_escapes(d);
        assert(toks[toks.len() - 1].span.interpret_backslashes);
        assert(escapes_whole(toks[toks.len() - 1].span.raw));
        tokenizer::lemma_escapes_concat(joined_raw(d), toks.last().span.raw);
    } else {
        assert(escapes_whole(Seq::<char>::empty()));
    }
}

/// Tokens without a comma, put after others, add what they stand for to the last
/// alternative.
proof fn lemma_comma_alternatives_extend(a: Seq<TokView>, b: Seq<TokView>)
    requires
        forall|k: int| 0 <= k < b.len() ==> !(#[trigger] b[k].kind is Comma),
    ensures
        comma_alternatives(a + b) == comma_alternatives(a).update(
            comma_alternatives(a).len() - 1,
            comma_alternatives(a).last() + tokens_chars(b),
        ),
    decreases b.len(),
{
    lemma_comma_alternatives_len(a);
    let p = comma_alternatives(a);
    if b.len() == 0 {
        assert(a + b =~= a);
        assert(p.last() + tokens_chars(b) =~= p.last());
        assert(p.update(p.len() - 1, p.last()) =~= p);
    } else {
        let d = b.drop_last();
        assert forall|k: int| 0 <= k < d.len() implies !(#[trigger] d[k].kind is Comma) by {
            assert(d[k] == b[k]);
        }
        lemma_comma_alternatives_extend(a, d);
        assert((a + b).drop_last() =~= a + d);
        assert((a + b).last() == b[b.len() - 1]);
        let q = comma_alternatives(a + d);
        assert(q.update(q.len() - 1, q.last() + b.last().span.chars()) =~= p.update(
            p.len() - 1,
            p.last() + tokens_chars(b),
        )) by {
            assert(p.last() + tokens_chars(d) + b.last().span.chars() =~= p.last() + tokens_chars(b));
        }
    }
}

/// Two runs of tokens without commas, with one comma between them, spell two
/// alternatives: what each run stands for.
pub proof fn lemma_two_comma_alternatives(t1: Seq<TokView>, comma: TokView, t2: Seq<TokView>)
    requires
        forall|k: int| 0 <= k < t1.len() ==> !(#[trigger] t1[k].kind is Comma),
        forall|k: int| 0 <= k < t2.len() ==> !(#[trigger] t2[k].kind is Comma),
        comma.kind is Comma,
    ensures
        comma_alternatives(t1.push(comma) + t2) == seq![tokens_chars(t1), tokens_chars(t2)],
{
    let e: Seq<TokView> = seq![];
    lemma_comma_alternatives_extend(e, t1);
    assert(e + t1 =~= t1);
    assert(comma_alternatives(t1) =~= seq![tokens_chars(t1)]) by {
        assert(Seq::<char>::empty() + tokens_chars(t1) =~= tokens_chars(t1));
    }
    let a = t1.push(comma);
    assert(a.drop_last() =~= t1);
    assert(comma_alternatives(a) =~= seq![tokens_chars(t1), seq![]]);
    lemma_comma_alternatives_extend(a, t2);
    assert(Seq::<char>::empty() + tokens_chars(t2) =~= tokens_chars(t2));
    assert(seq![tokens_chars(t1), seq![]].update(1, Seq::<char>::empty() + tokens_chars(t2)) =~= seq![
        tokens_chars(t1),
        tokens_chars(t2),
    ]);
}

/// The product of the single empty word and `b` is `b`.
pub proof fn lemma_cartesian_unit_left(b: Seq<Seq<char>>)
    ensures
        cartesian(seq![seq![]], b) == b,
{
    let e: Seq<Seq<char>> = seq![seq![]];
    assert(e.drop_last() =~= Seq::<Seq<char>>::empty());
    assert(b.map_values(|y: Seq<char>| e.last() + y) =~= b) by {
        assert forall|k: int| 0 <= k < b.len() implies e.last() + b[k] == b[k] by {
            assert(e.last() + b[k] =~= b[k]);
        }
    }
    assert(cartesian(e.drop_last(), b) == Seq::<Seq<char>>::empty());
    assert(cartesian(e, b) == cartesian(e.drop_last(), b) + b.map_values(|y: Seq<char>| e.last() + y));
    assert(Seq::<Seq<char>>::empty() + b =~= b);
}

} // verus!
