use vstd::prelude::*;
use vstd::string::*;

verus! {

/// A polynomial expression: the variable names it may use and the formula
/// text, a chain of terms joined by the character `+`.
pub struct Expression {
    pub vars: Vec<String>,
    pub formula: String,
}

/// The symbol that marks the variable in a term: the last character of the
/// first variable name, if there is one.
pub open spec fn var_symbol(e: &Expression) -> Option<char> {
    if e.vars@.len() == 0 {
        None
    } else if e.vars@[0]@.len() == 0 {
        None
    } else {
        Some(e.vars@[0]@.last())
    }
}

/// A finite mapping from exponent to coefficient text. Absent exponents stand
/// for a zero coefficient; inserting an exponent twice keeps the later text.
pub struct CoefficientMap {
    entries: Vec<(u32, String)>,
}

/// The mapping that a run of entries denotes: a later entry for the same
/// exponent wins.
spec fn entries_map(s: Seq<(u32, String)>) -> Map<u32, Seq<char>>
    decreases s.len(),
{
    if s.len() == 0 {
        Map::empty()
    } else {
        entries_map(s.drop_last()).insert(s.last().0, s.last().1@)
    }
}

impl View for CoefficientMap {
    type V = Map<u32, Seq<char>>;

    closed spec fn view(&self) -> Map<u32, Seq<char>> {
        entries_map(self.entries@)
    }
}

/// The coefficient text recorded for `exp`, or `"0"` where none is.
pub open spec fn coeff_or_zero(m: Map<u32, Seq<char>>, exp: u32) -> Seq<char> {
    if m.contains_key(exp) {
        m[exp]
    } else {
        seq!['0']
    }
}

impl CoefficientMap {
    pub fn new() -> (r: CoefficientMap)
        ensures
            r@ == Map::<u32, Seq<char>>::empty(),
    {
        let r = CoefficientMap { entries: Vec::new() };
        proof {
            assert(r@ =~= Map::<u32, Seq<char>>::empty());
        }
        r
    }

    pub fn insert(&mut self, exp: u32, coeff: String)
        ensures
            final(self)@ == old(self)@.insert(exp, coeff@),
    {
        self.entries.push((exp, coeff));
        proof {
            assert(self.entries@.drop_last() =~= old(self).entries@);
        }
    }

    pub fn get(&self, exp: u32) -> (r: Option<&String>)
        ensures
            (match r {
                Some(c) => self@.contains_key(exp) && c@ == self@[exp],
                None => !self@.contains_key(exp),
            }),
    {
        let n = self.entries.len();
        let mut i: usize = 0;
        let mut found: Option<usize> = None;
        while i < n
            invariant
                i <= n,
                n == self.entries@.len(),
                (match found {
                    Some(j) => {
                        &&& j < i
                        &&& self.entries@[j as int].0 == exp
                        &&& entries_map(self.entries@.take(i as int)).contains_key(exp)
                        &&& entries_map(self.entries@.take(i as int))[exp]
                            == self.entries@[j as int].1@
                    },
                    None => !entries_map(self.entries@.take(i as int)).contains_key(exp),
                }),
            decreases n - i,
        {
            proof {
                assert(self.entries@.take(i as int + 1).drop_last()
                    =~= self.entries@.take(i as int));
                assert(self.entries@.take(i as int + 1).last() == self.entries@[i as int]);
            }
            if self.entries[i].0 == exp {
                found = Some(i);
            }
            i += 1;
        }
        proof {
            assert(self.entries@.take(n as int) =~= self.entries@);
        }
        match found {
            Some(j) => Some(&self.entries[j].1),
            None => None,
        }
    }

    /// The coefficient text at `exp`, with `"0"` for an absent exponent; a
    /// read never extends the map.
    pub fn coefficient_or_zero(&self, exp: u32) -> (r: String)
        ensures
            r@ == coeff_or_zero(self@, exp),
    {
        match self.get(exp) {
            Some(c) => c.clone(),
            None => {
                proof {
                    reveal_strlit("0");
                }
                let z = String::from_str("0");
                proof {
                    assert(z@ =~= seq!['0']);
                }
                z
            },
        }
    }
}

} // verus!
