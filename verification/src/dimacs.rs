//! Reading a formula written in the DIMACS CNF format.
//!
//! The text is read line by line. Carriage returns are dropped. A blank
//! line and a line whose first word begins with `c` are skipped. A line
//! that begins with `p cnf` declares the numbers of variables and clauses.
//! Any other line is a clause: integers separated by blanks, up to the
//! first `0`.

use vstd::prelude::*;
use crate::decision::ParsedOut;
use crate::literal::Literal;
use crate::text::{
    all_digits, digits_value, i32_text, is_digit, lemma_digits_value_grows, parse_i32,
};

verus! {

/// Why a text is not a formula.
#[derive(Debug, Clone, Copy, PartialEq, Eq, Structural)]
pub enum CnfError {
    /// A clause comes before the header, or after a header that declares no
    /// clauses.
    InvalidFormat,
    /// No header declares a number of variables other than 0.
    NoHeader,
    /// A header lacks one of its two numbers, or one of them is not a
    /// number in range.
    BadHeader,
    /// A word of a clause before its `0` is not an integer in range.
    BadLiteral,
    /// The number of clauses is not the declared one.
    ClauseCount,
}

/// What has been read so far.
pub struct Progress {
    pub num_variables: usize,
    pub num_clauses: usize,
    pub clauses: Seq<Seq<Literal>>,
}

/// The byte separates words: a space, a tab, a line feed, a vertical tab
/// or a form feed.
pub open spec fn is_blank(b: u8) -> bool {
    b == 32 || (9 <= b <= 12)
}

/// The bytes of `s` but for carriage returns.
pub open spec fn strip_cr(s: Seq<u8>) -> Seq<u8>
    decreases s.len(),
{
    if s.len() == 0 {
        Seq::empty()
    } else if s.last() == 13 {
        strip_cr(s.drop_last())
    } else {
        strip_cr(s.drop_last()).push(s.last())
    }
}

/// The words of `s` from position `i` on, after the words `acc` and the
/// beginning `cur` of a word.
pub open spec fn words_from(s: Seq<u8>, i: int, cur: Seq<u8>, acc: Seq<Seq<u8>>) -> Seq<Seq<u8>>
    decreases s.len() - i,
{
    if i < 0 || i >= s.len() {
        if cur.len() > 0 {
            acc.push(cur)
        } else {
            acc
        }
    } else if is_blank(s[i]) {
        words_from(
            s,
            i + 1,
            Seq::empty(),
            if cur.len() > 0 {
                acc.push(cur)
            } else {
                acc
            },
        )
    } else {
        words_from(s, i + 1, cur.push(s[i]), acc)
    }
}

/// The words of `s`: its maximal runs of bytes that are not blank.
pub open spec fn words(s: Seq<u8>) -> Seq<Seq<u8>> {
    words_from(s, 0, Seq::empty(), Seq::empty())
}

/// The first position from `i` on that does not hold a blank, or the
/// length of `s`.
pub open spec fn lead(s: Seq<u8>, i: int) -> int
    decreases s.len() - i,
{
    if i < 0 || i >= s.len() {
        s.len() as int
    } else if is_blank(s[i]) {
        lead(s, i + 1)
    } else {
        i
    }
}

/// The bytes `p cnf`.
pub open spec fn header_tag() -> Seq<u8> {
    seq![112u8, 32u8, 99u8, 110u8, 102u8]
}

/// `s` holds `pat` at position `i`.
pub open spec fn holds_at(s: Seq<u8>, i: int, pat: Seq<u8>) -> bool {
    0 <= i && i + pat.len() <= s.len() && s.subrange(i, i + pat.len()) == pat
}

/// The unsigned number that a text denotes: an optional `+` followed by at
/// least one decimal digit, and nothing else.
pub open spec fn usize_text(s: Seq<u8>) -> Option<usize> {
    let body = if s.len() > 0 && s[0] == 43 {
        s.subrange(1, s.len() as int)
    } else {
        s
    };
    if body.len() == 0 || !all_digits(body) {
        None
    } else if digits_value(body) <= usize::MAX {
        Some(digits_value(body) as usize)
    } else {
        None
    }
}

/// The literals of a clause line from word `k` on, after the literals
/// `acc`: they end before the first word that denotes 0. `None` if a word
/// before that is not an integer in range.
pub open spec fn clause_lits(tokens: Seq<Seq<u8>>, k: int, acc: Seq<Literal>) -> Option<
    Seq<Literal>,
>
    decreases tokens.len() - k,
{
    if k < 0 || k >= tokens.len() {
        Some(acc)
    } else {
        match i32_text(tokens[k]) {
            None => None,
            Some(v) => if v == 0 {
                Some(acc)
            } else {
                clause_lits(tokens, k + 1, acc.push(Literal::of_int(v as int)))
            },
        }
    }
}

/// What one line adds to what has been read.
pub open spec fn step(st: Progress, line: Seq<u8>) -> Result<Progress, CnfError> {
    let clean = strip_cr(line);
    let p = lead(clean, 0);
    if p >= clean.len() {
        Ok(st)
    } else if clean[p] == 99 {
        Ok(st)
    } else if holds_at(clean, p, header_tag()) {
        let w = words(clean);
        if w.len() < 4 {
            Err(CnfError::BadHeader)
        } else {
            match (usize_text(w[2]), usize_text(w[3])) {
                (Some(v), Some(c)) => Ok(Progress { num_variables: v, num_clauses: c, ..st }),
                _ => Err(CnfError::BadHeader),
            }
        }
    } else if st.num_clauses == 0 {
        Err(CnfError::InvalidFormat)
    } else {
        match clause_lits(words(clean), 0, Seq::empty()) {
            Some(l) => Ok(Progress { clauses: st.clauses.push(l), ..st }),
            None => Err(CnfError::BadLiteral),
        }
    }
}

/// The answer once every line has been read.
pub open spec fn finish(st: Progress) -> Result<Progress, CnfError> {
    if st.num_variables == 0 {
        Err(CnfError::NoHeader)
    } else if st.num_clauses != st.clauses.len() {
        Err(CnfError::ClauseCount)
    } else {
        Ok(st)
    }
}

/// The answer for the text from position `i` on, within a line that
/// began at `start`, after `st` has been read.
pub open spec fn parse_from(text: Seq<u8>, i: int, start: int, st: Progress) -> Result<
    Progress,
    CnfError,
>
    decreases text.len() - i,
{
    if i < 0 || i >= text.len() {
        match step(st, text.subrange(start, text.len() as int)) {
            Err(e) => Err(e),
            Ok(st2) => finish(st2),
        }
    } else if text[i] == 10 {
        match step(st, text.subrange(start, i)) {
            Err(e) => Err(e),
            Ok(st2) => parse_from(text, i + 1, i + 1, st2),
        }
    } else {
        parse_from(text, i + 1, start, st)
    }
}

/// What the text denotes: a formula, or the reason why it is none. The
/// lines of the text are taken into account in turn, and at the end the
/// declared counts are checked.
pub open spec fn parse_spec(text: Seq<u8>) -> Result<Progress, CnfError> {
    parse_from(text, 0, 0, Progress { num_variables: 0, num_clauses: 0, clauses: Seq::empty() })
}

/// The byte views of a list of words.
pub open spec fn word_views(v: Seq<Vec<u8>>) -> Seq<Seq<u8>> {
    Seq::new(v.len(), |i: int| v[i]@)
}

/// The literal views of a list of clauses.
pub open spec fn clause_views(v: Seq<Vec<Literal>>) -> Seq<Seq<Literal>> {
    Seq::new(v.len(), |i: int| v[i]@)
}

/// Splits a line into its words.
pub fn split_words(s: &Vec<u8>) -> (r: Vec<Vec<u8>>)
    ensures
        word_views(r@) == words(s@),
{
    let mut acc: Vec<Vec<u8>> = Vec::new();
    let mut cur: Vec<u8> = Vec::new();
    let mut i: usize = 0;
    proof {
        assert(word_views(acc@) =~= Seq::<Seq<u8>>::empty());
    }
    while i < s.len()
        invariant
            i <= s@.len(),
            words_from(s@, i as int, cur@, word_views(acc@)) == words(s@),
        decreases s@.len() - i,
    {
        let b = s[i];
        let ghost cur0 = cur@;
        let ghost acc0 = word_views(acc@);
        if b == 32 || (9 <= b && b <= 12) {
            if cur.len() > 0 {
                let ghost before = word_views(acc@);
                let ghost word = cur@;
                let mut done: Vec<u8> = Vec::new();
                std::mem::swap(&mut done, &mut cur);
                acc.push(done);
                proof {
                    assert(word_views(acc@) =~= before.push(word));
                }
            }
            proof {
                assert(cur@ =~= Seq::<u8>::empty());
            }
        } else {
            cur.push(b);
        }
        proof {
            assert(words_from(s@, i as int, cur0, acc0) == words_from(
                s@,
                i + 1,
                cur@,
                word_views(acc@),
            ));
        }
        i = i + 1;
    }
    if cur.len() > 0 {
        let ghost before = word_views(acc@);
        let ghost word = cur@;
        acc.push(cur);
        proof {
            assert(word_views(acc@) =~= before.push(word));
        }
    }
    acc
}

/// Reads an unsigned number from its decimal text.
pub fn parse_usize(text: &[u8]) -> (r: Option<usize>)
    ensures
        r == usize_text(text@),
{
    let n = text.len();
    if n == 0 {
        return None;
    }
    let start: usize = if text[0] == 43 { 1 } else { 0 };
    if start == n {
        return None;
    }
    let ghost body = text@.subrange(start as int, n as int);
    let mut acc: usize = 0;
    let mut i: usize = start;
    while i < n
        invariant
            start <= i <= n,
            n == text@.len(),
            body == text@.subrange(start as int, n as int),
            body == (if text@.len() > 0 && text@[0] == 43 {
                text@.subrange(1, text@.len() as int)
            } else {
                text@
            }),
            body.len() > 0,
            all_digits(body.take(i - start)),
            acc == digits_value(body.take(i - start)),
        decreases n - i,
    {
        let b = text[i];
        if b < 48 || b > 57 {
            proof {
                assert(body[i - start] == b);
                assert(!is_digit(body[i - start]));
            }
            return None;
        }
        let ghost p = body.take(i - start);
        let ghost longer = body.take(i - start + 1);
        proof {
            assert(longer.drop_last() =~= p);
            assert(longer.last() == b);
            assert forall|k: int| 0 <= k < longer.len() implies is_digit(#[trigger] longer[k]) by {
                if k < p.len() {
                    assert(p[k] == longer[k]);
                }
            }
        }
        let d: usize = (b - 48) as usize;
        if acc > (usize::MAX - d) / 10 {
            proof {
                assert(acc * 10 + d > usize::MAX) by (nonlinear_arith)
                    requires
                        acc > (usize::MAX - d) / 10,
                        0 <= d <= 9,
                ;
                if all_digits(body) {
                    lemma_digits_value_grows(body, i - start + 1);
                }
            }
            return None;
        }
        proof {
            assert(acc * 10 + d <= usize::MAX) by (nonlinear_arith)
                requires
                    acc <= (usize::MAX - d) / 10,
                    0 <= d <= 9,
            ;
        }
        acc = acc * 10 + d;
        i = i + 1;
    }
    proof {
        assert(body.take(n - start) =~= body);
    }
    Some(acc)
}

/// Reads the literals of a clause from the words of its line.
pub fn read_clause(tokens: &Vec<Vec<u8>>) -> (r: Option<Vec<Literal>>)
    ensures
        match r {
            Some(l) => clause_lits(word_views(tokens@), 0, Seq::empty()) == Some(l@),
            None => clause_lits(word_views(tokens@), 0, Seq::empty()) is None,
        },
{
    let ghost w = word_views(tokens@);
    let mut lits: Vec<Literal> = Vec::new();
    let mut k: usize = 0;
    while k < tokens.len()
        invariant
            k <= tokens@.len(),
            w == word_views(tokens@),
            clause_lits(w, k as int, lits@) == clause_lits(w, 0, Seq::empty()),
        decreases tokens@.len() - k,
    {
        proof {
            assert(w[k as int] == tokens@[k as int]@);
        }
        match parse_i32(tokens[k].as_slice()) {
            None => {
                return None;
            },
            Some(v) => {
                if v == 0 {
                    return Some(lits);
                }
                lits.push(Literal::from(v));
            },
        }
        k = k + 1;
    }
    Some(lits)
}

/// The first position from `i` on that does not hold a blank.
fn skip_blanks(s: &Vec<u8>, i: usize) -> (r: usize)
    requires
        i <= s@.len(),
    ensures
        r == lead(s@, i as int),
        i <= r <= s@.len(),
{
    let mut p = i;
    while p < s.len() && (s[p] == 32 || (9 <= s[p] && s[p] <= 12))
        invariant
            i <= p <= s@.len(),
            lead(s@, p as int) == lead(s@, i as int),
        decreases s@.len() - p,
    {
        p = p + 1;
    }
    p
}

/// Whether `s` holds `p cnf` at position `p`.
fn is_header(s: &Vec<u8>, p: usize) -> (r: bool)
    requires
        p <= s@.len(),
    ensures
        r == holds_at(s@, p as int, header_tag()),
{
    if s.len() - p < 5 {
        return false;
    }
    let r = s[p] == 112 && s[p + 1] == 32 && s[p + 2] == 99 && s[p + 3] == 110 && s[p + 4] == 102;
    proof {
        let sub = s@.subrange(p as int, p + 5);
        let tag = header_tag();
        if r {
            assert(sub =~= tag);
        } else {
            if sub == tag {
                assert(sub[0] == tag[0] && sub[1] == tag[1] && sub[2] == tag[2] && sub[3] == tag[3]
                    && sub[4] == tag[4]);
            }
        }
    }
    r
}

/// Takes one line, already without carriage returns, into account.
fn read_line(
    clean: &Vec<u8>,
    num_variables: &mut usize,
    num_clauses: &mut usize,
    clauses: &mut Vec<Vec<Literal>>,
    Ghost(line): Ghost<Seq<u8>>,
) -> (r: Result<(), CnfError>)
    requires
        clean@ == strip_cr(line),
    ensures
        ({
            let before = Progress {
                num_variables: *old(num_variables),
                num_clauses: *old(num_clauses),
                clauses: clause_views(old(clauses)@),
            };
            let after = Progress {
                num_variables: *final(num_variables),
                num_clauses: *final(num_clauses),
                clauses: clause_views(final(clauses)@),
            };
            match r {
                Ok(_) => step(before, line) == Ok::<Progress, CnfError>(after),
                Err(e) => step(before, line) == Err::<Progress, CnfError>(e),
            }
        }),
{
    let ghost c0 = clause_views(clauses@);
    let p = skip_blanks(clean, 0);
    if p >= clean.len() {
        return Ok(());
    }
    if clean[p] == 99 {
        return Ok(());
    }
    if is_header(clean, p) {
        let parts = split_words(clean);
        if parts.len() < 4 {
            return Err(CnfError::BadHeader);
        }
        proof {
            assert(word_views(parts@)[2] == parts@[2]@);
            assert(word_views(parts@)[3] == parts@[3]@);
        }
        let v = parse_usize(parts[2].as_slice());
        let c = parse_usize(parts[3].as_slice());
        match (v, c) {
            (Some(v), Some(c)) => {
                *num_variables = v;
                *num_clauses = c;
                Ok(())
            },
            _ => Err(CnfError::BadHeader),
        }
    } else if *num_clauses == 0 {
        Err(CnfError::InvalidFormat)
    } else {
        let parts = split_words(clean);
        match read_clause(&parts) {
            Some(l) => {
                let ghost lv = l@;
                clauses.push(l);
                proof {
                    assert(clause_views(clauses@) =~= c0.push(lv));
                }
                Ok(())
            },
            None => Err(CnfError::BadLiteral),
        }
    }
}

/// Reads a formula from its DIMACS CNF text.
pub fn parse_cnf(text: &[u8]) -> (r: Result<ParsedOut, CnfError>)
    ensures
        match r {
            Ok(p) => parse_spec(text@) == Ok::<Progress, CnfError>(
                Progress {
                    num_variables: p.num_variables,
                    num_clauses: p.num_clauses,
                    clauses: p.formula(),
                },
            ),
            Err(e) => parse_spec(text@) == Err::<Progress, CnfError>(e),
        },
{
    let n = text.len();
    let mut num_variables: usize = 0;
    let mut num_clauses: usize = 0;
    let mut clauses: Vec<Vec<Literal>> = Vec::new();
    let mut i: usize = 0;
    proof {
        assert(clause_views(clauses@) =~= Seq::<Seq<Literal>>::empty());
    }
    loop
        invariant
            i <= n,
            n == text@.len(),
            parse_from(
                text@,
                i as int,
                i as int,
                Progress { num_variables, num_clauses, clauses: clause_views(clauses@) },
            ) == parse_spec(text@),
        decreases n - i,
    {
        let ghost st = Progress { num_variables, num_clauses, clauses: clause_views(clauses@) };
        let mut clean: Vec<u8> = Vec::new();
        let mut j: usize = i;
        proof {
            assert(text@.subrange(i as int, i as int) =~= Seq::<u8>::empty());
        }
        while j < n && text[j] != 10
            invariant
                i <= j <= n,
                n == text@.len(),
                parse_from(text@, j as int, i as int, st) == parse_spec(text@),
                clean@ == strip_cr(text@.subrange(i as int, j as int)),
            decreases n - j,
        {
            let b = text[j];
            proof {
                let s2 = text@.subrange(i as int, j + 1);
                assert(s2.drop_last() =~= text@.subrange(i as int, j as int));
                assert(s2.last() == b);
            }
            if b != 13 {
                clean.push(b);
            }
            j = j + 1;
        }
        let ghost line = text@.subrange(i as int, j as int);
        match read_line(&clean, &mut num_variables, &mut num_clauses, &mut clauses, Ghost(line)) {
            Ok(_) => {},
            Err(e) => {
                return Err(e);
            },
        }
        if j >= n {
            return if num_variables == 0 {
                Err(CnfError::NoHeader)
            } else if num_clauses != clauses.len() {
                Err(CnfError::ClauseCount)
            } else {
                let p = ParsedOut { num_variables, num_clauses, clauses };
                proof {
                    assert(p.formula() =~= clause_views(p.clauses@));
                }
                Ok(p)
            };
        }
        i = j + 1;
    }
}

} // verus!
