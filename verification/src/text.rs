//! Literals and clauses written as text: decimal integers, with `0` ending
//! a clause.

use vstd::prelude::*;
use vstd::string::StringSliceAdditionalSpecFns;
use crate::clause::Clause;
use crate::literal::Literal;

verus! {

/// The byte is a decimal digit.
pub open spec fn is_digit(b: u8) -> bool {
    48 <= b <= 57
}

/// Every byte is a decimal digit.
pub open spec fn all_digits(s: Seq<u8>) -> bool {
    forall|i: int| 0 <= i < s.len() ==> is_digit(#[trigger] s[i])
}

/// The number that a sequence of decimal digits denotes.
pub open spec fn digits_value(s: Seq<u8>) -> int
    decreases s.len(),
{
    if s.len() == 0 {
        0
    } else {
        digits_value(s.drop_last()) * 10 + (s.last() - 48)
    }
}

/// The digits of a number text: what follows its sign, if it has one.
pub open spec fn digits_of(s: Seq<u8>) -> Seq<u8> {
    if s.len() > 0 && (s[0] == 45 || s[0] == 43) {
        s.subrange(1, s.len() as int)
    } else {
        s
    }
}

/// The integer that a text denotes: an optional sign `+` or `-` followed
/// by at least one decimal digit, and nothing else.
pub open spec fn int_text(s: Seq<u8>) -> Option<int> {
    let body = digits_of(s);
    if body.len() == 0 || !all_digits(body) {
        None
    } else if s[0] == 45 {
        Some(-digits_value(body))
    } else {
        Some(digits_value(body))
    }
}

/// The 32-bit integer that a text denotes, if it denotes an integer in
/// range.
pub open spec fn i32_text(s: Seq<u8>) -> Option<i32> {
    match int_text(s) {
        Some(v) => if i32::MIN <= v <= i32::MAX {
            Some(v as i32)
        } else {
            None
        },
        None => None,
    }
}

/// The text denotes a literal: a 32-bit integer other than 0.
pub open spec fn literal_text(s: Seq<u8>) -> bool {
    i32_text(s) matches Some(v) && v != 0
}

/// The literal that a literal text denotes.
pub open spec fn literal_of_text(s: Seq<u8>) -> Literal {
    Literal::of_int(i32_text(s)->Some_0 as int)
}

/// The text is the single digit `0`.
pub open spec fn zero_text(s: Seq<u8>) -> bool {
    s.len() == 1 && s[0] == 48
}

/// The value of digits is not negative and does not shrink when digits
/// are appended.
pub proof fn lemma_digits_value_grows(s: Seq<u8>, i: int)
    requires
        all_digits(s),
        0 <= i <= s.len(),
    ensures
        0 <= digits_value(s.take(i)) <= digits_value(s),
    decreases s.len() - i,
{
    lemma_digits_value_nonneg(s.take(i));
    if i < s.len() {
        let p = s.take(i + 1);
        assert(p.drop_last() =~= s.take(i));
        assert(is_digit(s[i]));
        assert(p.last() == s[i]);
        lemma_digits_value_grows(s, i + 1);
    } else {
        assert(s.take(i) =~= s);
    }
}

/// The value of digits is not negative.
pub proof fn lemma_digits_value_nonneg(s: Seq<u8>)
    requires
        all_digits(s),
    ensures
        0 <= digits_value(s),
    decreases s.len(),
{
    if s.len() > 0 {
        assert(is_digit(s[s.len() - 1]));
        assert forall|i: int| 0 <= i < s.drop_last().len() implies is_digit(
            #[trigger] s.drop_last()[i],
        ) by {
            assert(s.drop_last()[i] == s[i]);
        }
        lemma_digits_value_nonneg(s.drop_last());
    }
}

/// Reads a 32-bit integer from its decimal text.
pub fn parse_i32(text: &[u8]) -> (r: Option<i32>)
    ensures
        r == i32_text(text@),
{
    let n = text.len();
    if n == 0 {
        return None;
    }
    let negative = text[0] == 45;
    let start: usize = if text[0] == 45 || text[0] == 43 { 1 } else { 0 };
    if start == n {
        return None;
    }
    let ghost body = digits_of(text@);
    proof {
        assert(body =~= text@.subrange(start as int, n as int));
    }
    let mut acc: i64 = 0;
    let mut i: usize = start;
    while i < n
        invariant
            start <= i <= n,
            n == text@.len(),
            body == text@.subrange(start as int, n as int),
            body == digits_of(text@),
            body.len() > 0,
            negative == (text@[0] == 45),
            all_digits(body.take(i - start)),
            acc == digits_value(body.take(i - start)),
            0 <= acc <= 2147483648,
        decreases n - i,
    {
        let b = text[i];
        if b < 48 || b > 57 {
            proof {
                assert(body[i - start] == b);
                assert(!is_digit(body[i - start]));
            }
            return None;
        }
        let ghost p = body.take(i - start);
        let ghost longer = body.take(i - start + 1);
        proof {
            assert(longer.drop_last() =~= p);
            assert(longer.last() == b);
            assert forall|k: int| 0 <= k < longer.len() implies is_digit(#[trigger] longer[k]) by {
                if k < p.len() {
                    assert(p[k] == longer[k]);
                }
            }
        }
        acc = acc * 10 + (b - 48) as i64;
        if acc > 2147483648 {
            proof {
                if all_digits(body) {
                    lemma_digits_value_grows(body, i - start + 1);
                }
            }
            return None;
        }
        i = i + 1;
    }
    proof {
        assert(body.take(n - start) =~= body);
    }
    if negative {
        Some((-acc) as i32)
    } else if acc <= 2147483647 {
        Some(acc as i32)
    } else {
        None
    }
}

/// Whether the text is the single digit `0`.
pub fn is_zero_text(text: &[u8]) -> (r: bool)
    ensures
        r == zero_text(text@),
{
    text.len() == 1 && text[0] == 48
}

/// Position `stop` is where the literals of a clause text end: at its
/// first `0`, or at its end if it has none.
pub open spec fn clause_end(tokens: Seq<Seq<u8>>, stop: int) -> bool {
    &&& 0 <= stop <= tokens.len()
    &&& stop < tokens.len() ==> zero_text(tokens[stop])
    &&& forall|i: int| 0 <= i < stop ==> !zero_text(#[trigger] tokens[i])
}

/// No word up to and including position `i` is `0`.
pub open spec fn no_zero_upto(tokens: Seq<Seq<u8>>, i: int) -> bool {
    forall|k: int| 0 <= k <= i ==> !zero_text(#[trigger] tokens[k])
}

/// Every word before the first `0` denotes a literal.
pub open spec fn clause_text(tokens: Seq<Seq<u8>>) -> bool {
    forall|i: int|
        0 <= i < tokens.len() && no_zero_upto(tokens, i) ==> literal_text(#[trigger] tokens[i])
}

/// The texts of the words of a clause.
pub open spec fn token_bytes(raw: Seq<&str>) -> Seq<Seq<u8>> {
    Seq::new(raw.len(), |i: int| raw[i].spec_bytes())
}

impl Literal {
    /// The literal written as `n`: a decimal integer other than 0, whose
    /// absolute value is the variable and whose sign is the polarity.
    pub fn make_new(n: &str) -> (r: Literal)
        requires
            literal_text(n.spec_bytes()),
        ensures
            r == literal_of_text(n.spec_bytes()),
    {
        match parse_i32(n.as_bytes()) {
            Some(tmp) => Literal::from(tmp),
            None => Literal { var: 0, sign: false },
        }
    }
}

impl Clause {
    /// The clause written as the words `raw_clause`: its literals are the
    /// words before the first `0`. It watches its first two literals.
    pub fn make_clause(raw_clause: Vec<&str>) -> (r: Clause)
        requires
            raw_clause@.len() >= 2,
            clause_text(token_bytes(raw_clause@)),
        ensures
            clause_end(token_bytes(raw_clause@), r.literals@.len() as int),
            forall|i: int|
                0 <= i < r.literals@.len() ==> #[trigger] r.literals@[i] == literal_of_text(
                    token_bytes(raw_clause@)[i],
                ),
            r.w1 == 0,
            r.w2 == 1,
            !r.deleted,
            !r.conflict,
            r.lbd == 0,
    {
        let ghost tokens = token_bytes(raw_clause@);
        let mut lits: Vec<Literal> = Vec::new();
        let mut i: usize = 0;
        while i < raw_clause.len() && !is_zero_text(raw_clause[i].as_bytes())
            invariant
                i <= raw_clause@.len(),
                tokens == token_bytes(raw_clause@),
                lits@.len() == i,
                forall|k: int| 0 <= k < i ==> !zero_text(#[trigger] tokens[k]),
                forall|k: int| 0 <= k < i ==> #[trigger] lits@[k] == literal_of_text(tokens[k]),
                clause_text(tokens),
            decreases raw_clause@.len() - i,
        {
            proof {
                assert(tokens[i as int] == raw_clause@[i as int].spec_bytes());
                assert(no_zero_upto(tokens, i as int));
            }
            lits.push(Literal::make_new(raw_clause[i]));
            i = i + 1;
        }
        Clause { literals: lits, w1: 0, w2: 1, deleted: false, conflict: false, lbd: 0 }
    }
}

} // verus!
