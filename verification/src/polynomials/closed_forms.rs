use vstd::prelude::*;
use vstd::string::*;
use crate::mstructs::CoefficientMap;
use crate::mstructs::Expression;
use crate::mstructs::coeff_or_zero;
use crate::mstructs::var_symbol;

verus! {

/// Why a formula cannot be parsed into coefficients.
#[derive(Debug, Clone, Copy, PartialEq, Eq, Structural)]
pub enum ParseError {
    /// A term with `^` in second-to-last place but no room for the
    /// variable-and-caret-and-digit suffix.
    MalformedTerm,
    /// A term with `^` in second-to-last place whose final character is not a
    /// decimal digit.
    UnsupportedExponent,
}

/// Whether `c` is a decimal digit, the only exponent characters a term may
/// carry.
pub open spec fn is_exp_digit(c: char) -> bool {
    ('0' as u32) <= (c as u32) && (c as u32) <= ('9' as u32)
}

/// The numeric value of a decimal digit character.
pub open spec fn digit_value(c: char) -> u32 {
    ((c as u32) - ('0' as u32)) as u32
}

/// Whether `s` is free of the term separator `+`.
pub open spec fn plus_free(s: Seq<char>) -> bool {
    forall|i: int| 0 <= i < s.len() ==> s[i] != '+'
}

/// The segments of `s` between occurrences of `+`, in order. An empty string
/// is one empty segment, and a separator at either end yields an empty
/// segment there.
pub open spec fn split_terms(s: Seq<char>) -> Seq<Seq<char>>
    decreases s.len(),
{
    if s.len() == 0 {
        seq![Seq::<char>::empty()]
    } else if s[0] == '+' {
        seq![Seq::<char>::empty()] + split_terms(s.drop_first())
    } else {
        let rest = split_terms(s.drop_first());
        seq![seq![s[0]] + rest[0]] + rest.drop_first()
    }
}

/// The exponent and coefficient text that one term denotes, read off its
/// trailing characters: `^` plus a digit marks the exponent, a trailing
/// variable symbol marks degree one, and anything else is a constant. An
/// empty coefficient text before the variable stands for `1`.
pub open spec fn term_entry(t: Seq<char>, v: Option<char>) -> Result<(u32, Seq<char>), ParseError> {
    if t.len() > 1 && t[t.len() - 2] == '^' {
        if !is_exp_digit(t.last()) {
            Err(ParseError::UnsupportedExponent)
        } else if t.len() == 2 {
            Err(ParseError::MalformedTerm)
        } else if t.len() == 3 {
            Ok((digit_value(t.last()), seq!['1']))
        } else {
            Ok((digit_value(t.last()), t.take(t.len() - 3)))
        }
    } else if t.len() > 1 && v == Some(t.last()) {
        Ok((1u32, t.take(t.len() - 1)))
    } else {
        Ok((0u32, t))
    }
}

/// The coefficient map that a run of terms builds over `acc`, stopping at the
/// first term that cannot be read.
pub open spec fn parse_terms(
    terms: Seq<Seq<char>>,
    v: Option<char>,
    acc: Map<u32, Seq<char>>,
) -> Result<Map<u32, Seq<char>>, ParseError>
    decreases terms.len(),
{
    if terms.len() == 0 {
        Ok(acc)
    } else {
        match term_entry(terms[0], v) {
            Ok(e) => parse_terms(terms.drop_first(), v, acc.insert(e.0, e.1)),
            Err(err) => Err(err),
        }
    }
}

/// What parsing a formula against variable symbol `v` yields: an empty
/// formula has no terms, and otherwise every `+`-separated term contributes
/// one entry, later entries for the same exponent winning.
pub open spec fn spec_parse(formula: Seq<char>, v: Option<char>) -> Result<
    Map<u32, Seq<char>>,
    ParseError,
> {
    if formula.len() == 0 {
        Ok(Map::empty())
    } else {
        parse_terms(split_terms(formula), v, Map::empty())
    }
}

/// A separator-free string splits into itself alone.
proof fn lemma_split_terms_whole(s: Seq<char>)
    requires
        plus_free(s),
    ensures
        split_terms(s) == seq![s],
    decreases s.len(),
{
    if s.len() == 0 {
        assert(s =~= Seq::<char>::empty());
    } else {
        assert forall|i: int| 0 <= i < s.drop_first().len() implies s.drop_first()[i] != '+' by {
            assert(s.drop_first()[i] == s[i + 1]);
        }
        lemma_split_terms_whole(s.drop_first());
        let rest = split_terms(s.drop_first());
        assert(rest.drop_first() =~= Seq::<Seq<char>>::empty());
        assert(seq![s[0]] + s.drop_first() =~= s);
        assert(split_terms(s) =~= seq![s]);
    }
}

/// Splitting starts with the first separator-free segment, then splits the
/// rest.
proof fn lemma_split_terms_step(a: Seq<char>, rest: Seq<char>)
    requires
        plus_free(a),
    ensures
        split_terms(a + seq!['+'] + rest) == seq![a] + split_terms(rest),
    decreases a.len(),
{
    let s = a + seq!['+'] + rest;
    if a.len() == 0 {
        assert(s[0] == '+');
        assert(s.drop_first() =~= rest);
        assert(a =~= Seq::<char>::empty());
        assert(split_terms(s) =~= seq![a] + split_terms(rest));
    } else {
        assert(s[0] == a[0]);
        assert(a[0] != '+');
        assert forall|i: int| 0 <= i < a.drop_first().len() implies a.drop_first()[i] != '+' by {
            assert(a.drop_first()[i] == a[i + 1]);
        }
        assert(s.drop_first() =~= a.drop_first() + seq!['+'] + rest);
        lemma_split_terms_step(a.drop_first(), rest);
        let r = split_terms(s.drop_first());
        assert(r == seq![a.drop_first()] + split_terms(rest));
        assert(r[0] == a.drop_first());
        assert(r.drop_first() =~= split_terms(rest));
        assert(seq![s[0]] + r[0] =~= a);
        assert(split_terms(s) =~= seq![a] + split_terms(rest));
    }
}

/// The last character of a variable name, where it has one.
fn last_char(s: &String) -> (r: Option<char>)
    ensures
        r == (if s@.len() == 0 {
            None::<char>
        } else {
            Some(s@.last())
        }),
{
    let n = s.as_str().unicode_len();
    if n == 0 {
        None
    } else {
        Some(s.as_str().get_char(n - 1))
    }
}

/// Strip a trailing variable-caret-digit suffix such as `x^2`, leaving the
/// coefficient text; an empty remainder stands for a coefficient of `1`.
fn remove_var_and_deg(s: &str) -> (r: String)
    requires
        s@.len() >= 3,
    ensures
        r@ == (if s@.len() == 3 {
            seq!['1']
        } else {
            s@.take(s@.len() - 3)
        }),
{
    let n = s.unicode_len();
    if n == 3 {
        proof {
            reveal_strlit("1");
        }
        let one = String::from_str("1");
        proof {
            assert(one@ =~= seq!['1']);
        }
        one
    } else {
        let r = s.substring_char(0, n - 3).to_owned();
        proof {
            assert(r@ =~= s@.take(s@.len() - 3));
        }
        r
    }
}

/// Strip a trailing variable symbol such as the `x` of `4x`, leaving the
/// coefficient text; an empty remainder stands for a coefficient of `1`.
fn remove_var(s: &str) -> (r: String)
    requires
        s@.len() >= 1,
    ensures
        r@ == (if s@.len() == 1 {
            seq!['1']
        } else {
            s@.take(s@.len() - 1)
        }),
{
    let n = s.unicode_len();
    if n == 1 {
        proof {
            reveal_strlit("1");
        }
        let one = String::from_str("1");
        proof {
            assert(one@ =~= seq!['1']);
        }
        one
    } else {
        let r = s.substring_char(0, n - 1).to_owned();
        proof {
            assert(r@ =~= s@.take(s@.len() - 1));
        }
        r
    }
}

/// Cut a formula at each `+` into its raw terms, in order.
fn split_on_plus(f: &str) -> (terms: Vec<String>)
    ensures
        terms.deep_view() == split_terms(f@),
{
    let n = f.unicode_len();
    let mut terms: Vec<String> = Vec::new();
    let mut start: usize = 0;
    let mut i: usize = 0;
    proof {
        assert(terms.deep_view() =~= Seq::<Seq<char>>::empty());
        assert(f@.skip(0) =~= f@);
        assert(terms.deep_view() + split_terms(f@.skip(0)) =~= split_terms(f@));
    }
    while i < n
        invariant
            start <= i <= n,
            n == f@.len(),
            plus_free(f@.subrange(start as int, i as int)),
            split_terms(f@) == terms.deep_view() + split_terms(f@.skip(start as int)),
        decreases n - i,
    {
        let c = f.get_char(i);
        if c == '+' {
            let t = f.substring_char(start, i).to_owned();
            proof {
                let seg = f@.subrange(start as int, i as int);
                assert(f@.skip(start as int) =~= seg + seq!['+'] + f@.skip(i as int + 1));
                lemma_split_terms_step(seg, f@.skip(i as int + 1));
            }
            let ghost old_terms: Seq<Seq<char>> = terms.deep_view();
            terms.push(t);
            proof {
                assert(terms.deep_view() =~= old_terms.push(t@));
                assert(terms.deep_view() + split_terms(f@.skip(i as int + 1))
                    =~= old_terms + (seq![t@] + split_terms(f@.skip(i as int + 1))));
            }
            start = i + 1;
        } else {
            proof {
                assert(f@.subrange(start as int, i as int + 1)
                    =~= f@.subrange(start as int, i as int).push(f@[i as int]));
            }
        }
        i += 1;
    }
    let t = f.substring_char(start, n).to_owned();
    proof {
        let seg = f@.subrange(start as int, n as int);
        assert(f@.skip(start as int) =~= seg);
        lemma_split_terms_whole(seg);
    }
    let ghost old_terms: Seq<Seq<char>> = terms.deep_view();
    terms.push(t);
    proof {
        assert(terms.deep_view() =~= old_terms.push(t@));
        assert(terms.deep_view() =~= old_terms + seq![t@]);
        assert(terms.deep_view() =~= split_terms(f@));
    }
    terms
}

/// Read a formula into its coefficient map: one entry per `+`-separated
/// term, keyed by the exponent the term's trailing characters denote, with
/// later terms for the same exponent winning. The result is exactly what
/// `spec_parse` says, error included.
pub fn parse_polynomial(expr: Expression) -> (r: Result<CoefficientMap, ParseError>)
    requires
        expr.vars@.len() >= 1,
    ensures
        (match r {
            Ok(m) => spec_parse(expr.formula@, var_symbol(&expr)) == Ok::<
                Map<u32, Seq<char>>,
                ParseError,
            >(m@),
            Err(e) => spec_parse(expr.formula@, var_symbol(&expr)) == Err::<
                Map<u32, Seq<char>>,
                ParseError,
            >(e),
        }),
{
    let ghost v: Option<char> = var_symbol(&expr);
    let var_of = last_char(&expr.vars[0]);
    let mut m = CoefficientMap::new();
    if expr.formula.as_str().unicode_len() == 0 {
        return Ok(m);
    }
    let terms = split_on_plus(expr.formula.as_str());
    let ghost tseq: Seq<Seq<char>> = split_terms(expr.formula@);
    proof {
        assert(tseq.skip(0) =~= tseq);
    }
    let k = terms.len();
    let mut idx: usize = 0;
    while idx < k
        invariant
            idx <= k,
            k == terms@.len(),
            terms.deep_view() == tseq,
            v == var_symbol(&expr),
            v == (match var_of {
                Some(c) => Some(c),
                None => None::<char>,
            }),
            spec_parse(expr.formula@, v) == parse_terms(tseq.skip(idx as int), v, m@),
        decreases k - idx,
    {
        proof {
            assert(tseq.skip(idx as int)[0] == terms@[idx as int]@);
            assert(tseq.skip(idx as int).drop_first() =~= tseq.skip(idx as int + 1));
        }
        let t = terms[idx].as_str();
        let n = t.unicode_len();
        if n > 1 {
            if t.get_char(n - 2) == '^' {
                let last = t.get_char(n - 1);
                let lu = last as u32;
                if lu < '0' as u32 || lu > '9' as u32 {
                    return Err(ParseError::UnsupportedExponent);
                }
                if n == 2 {
                    return Err(ParseError::MalformedTerm);
                }
                let e = lu - '0' as u32;
                m.insert(e, remove_var_and_deg(t));
            } else {
                let matches_var = match var_of {
                    Some(c) => t.get_char(n - 1) == c,
                    None => false,
                };
                if matches_var {
                    m.insert(1, remove_var(t));
                } else {
                    m.insert(0, t.to_owned());
                }
            }
        } else {
            m.insert(0, t.to_owned());
        }
        idx += 1;
    }
    proof {
        assert(tseq.skip(k as int) =~= Seq::<Seq<char>>::empty());
    }
    Ok(m)
}

/// The three coefficient texts a quadratic solver needs, read from the
/// parsed map at exponents zero, one and two, with `"0"` where an exponent
/// is absent.
pub fn degree_two_coefficients(expr: Expression) -> (r: Result<
    (String, String, String),
    ParseError,
>)
    requires
        expr.vars@.len() >= 1,
    ensures
        (match r {
            Ok(c) => {
                &&& spec_parse(expr.formula@, var_symbol(&expr)) is Ok
                &&& c.0@ == coeff_or_zero(spec_parse(expr.formula@, var_symbol(&expr))->Ok_0, 0)
                &&& c.1@ == coeff_or_zero(spec_parse(expr.formula@, var_symbol(&expr))->Ok_0, 1)
                &&& c.2@ == coeff_or_zero(spec_parse(expr.formula@, var_symbol(&expr))->Ok_0, 2)
            },
            Err(e) => spec_parse(expr.formula@, var_symbol(&expr)) == Err::<
                Map<u32, Seq<char>>,
                ParseError,
            >(e),
        }),
{
    match parse_polynomial(expr) {
        Ok(m) => Ok(
            (m.coefficient_or_zero(0), m.coefficient_or_zero(1), m.coefficient_or_zero(2)),
        ),
        Err(e) => Err(e),
    }
}

/// Parsing is deterministic: the coefficient map, or the error, is a
/// function of the formula text and the variable symbol alone, so identical
/// inputs always yield identical results.
pub proof fn lemma_parse_deterministic(
    f1: Seq<char>,
    v1: Option<char>,
    f2: Seq<char>,
    v2: Option<char>,
)
    requires
        f1 == f2,
        v1 == v2,
    ensures
        spec_parse(f1, v1) == spec_parse(f2, v2),
{
}

/// Round trip: a formula rebuilt from a coefficient map `{2: a, 1: b, 0: c}`
/// by writing the three coefficient texts before `v^2`, `v` and nothing
/// parses back to that very map. The texts must be non-empty and free of the
/// separator `+`, the degree-one text must not end in `^`, and the constant
/// text must not itself end like a variable or exponent term.
pub proof fn lemma_round_trip(a: Seq<char>, b: Seq<char>, c: Seq<char>, v: char)
    requires
        a.len() > 0,
        b.len() > 0,
        c.len() > 0,
        plus_free(a),
        plus_free(b),
        plus_free(c),
        v != '+',
        b.last() != '^',
        c.last() != v,
        c.len() > 1 ==> c[c.len() - 2] != '^',
    ensures
        spec_parse(a + seq![v, '^', '2'] + seq!['+'] + b + seq![v] + seq!['+'] + c, Some(v))
            == Ok::<Map<u32, Seq<char>>, ParseError>(
            Map::<u32, Seq<char>>::empty().insert(2u32, a).insert(1u32, b).insert(0u32, c),
        ),
{
    let t1 = a + seq![v, '^', '2'];
    let t2 = b + seq![v];
    let f = a + seq![v, '^', '2'] + seq!['+'] + b + seq![v] + seq!['+'] + c;
    assert forall|i: int| 0 <= i < t1.len() implies t1[i] != '+' by {
        if i < a.len() {
            assert(t1[i] == a[i]);
        } else {
            assert(t1[i] == seq![v, '^', '2'][i - a.len()]);
        }
    }
    assert forall|i: int| 0 <= i < t2.len() implies t2[i] != '+' by {
        if i < b.len() {
            assert(t2[i] == b[i]);
        } else {
            assert(t2[i] == v);
        }
    }
    assert(f =~= t1 + seq!['+'] + (t2 + seq!['+'] + c));
    lemma_split_terms_step(t1, t2 + seq!['+'] + c);
    lemma_split_terms_step(t2, c);
    lemma_split_terms_whole(c);
    assert(split_terms(f) =~= seq![t1, t2, c]);
    let s0 = seq![t1, t2, c];
    assert(t1[t1.len() - 2] == '^');
    assert(t1.last() == '2');
    assert(t1.len() > 3);
    assert(t1.take(t1.len() - 3) =~= a);
    assert(term_entry(s0[0], Some(v)) == Ok::<(u32, Seq<char>), ParseError>((2u32, a)));
    assert(t2[t2.len() - 2] == b.last());
    assert(t2.last() == v);
    assert(t2.take(t2.len() - 1) =~= b);
    assert(term_entry(t2, Some(v)) == Ok::<(u32, Seq<char>), ParseError>((1u32, b)));
    assert(term_entry(c, Some(v)) == Ok::<(u32, Seq<char>), ParseError>((0u32, c)));
    let acc0 = Map::<u32, Seq<char>>::empty();
    let acc1 = acc0.insert(2u32, a);
    let acc2 = acc1.insert(1u32, b);
    let acc3 = acc2.insert(0u32, c);
    assert(s0.drop_first() =~= seq![t2, c]);
    assert(seq![t2, c].drop_first() =~= seq![c]);
    assert(seq![c].drop_first() =~= Seq::<Seq<char>>::empty());
    assert(parse_terms(s0, Some(v), acc0) == parse_terms(seq![t2, c], Some(v), acc1));
    assert(parse_terms(seq![t2, c], Some(v), acc1) == parse_terms(seq![c], Some(v), acc2));
    assert(parse_terms(seq![c], Some(v), acc2) == parse_terms(
        Seq::<Seq<char>>::empty(),
        Some(v),
        acc3,
    ));
    assert(parse_terms(Seq::<Seq<char>>::empty(), Some(v), acc3) == Ok::<
        Map<u32, Seq<char>>,
        ParseError,
    >(acc3));
    assert(f.len() > 0);
}

} // verus!
