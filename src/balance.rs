use vstd::prelude::*;

verus! {

/// How many times `c` occurs in `s`.
pub open spec fn occurrences(s: Seq<char>, c: char) -> nat
    decreases s.len(),
{
    if s.len() == 0 {
        0
    } else {
        occurrences(s.drop_last(), c) + if s.last() == c {
            1nat
        } else {
            0nat
        }
    }
}

/// `n` copies of `c`.
pub open spec fn repeated(c: char, n: nat) -> Seq<char> {
    Seq::new(n, |i: int| c)
}

/// A line with as many `(` put in front as it lacks, or as many `)` put at
/// the end, so that both occur equally often.
pub open spec fn balanced(s: Seq<char>) -> Seq<char> {
    let l = occurrences(s, '(');
    let r = occurrences(s, ')');
    if l < r {
        repeated('(', (r - l) as nat) + s
    } else {
        s + repeated(')', (l - r) as nat)
    }
}

proof fn lemma_occurrences_push(s: Seq<char>, x: char, c: char)
    ensures
        occurrences(s.push(x), c) == occurrences(s, c) + if x == c {
            1nat
        } else {
            0nat
        },
{
    assert(s.push(x).drop_last() =~= s);
}

/// Counts the occurrences of `c` in `s`.
fn count(s: &Vec<char>, c: char) -> (n: usize)
    ensures
        n == occurrences(s@, c),
{
    let mut n: usize = 0;
    let mut k: usize = 0;
    while k < s.len()
        invariant
            k <= s@.len(),
            n <= k,
            n == occurrences(s@.subrange(0, k as int), c),
        decreases s@.len() - k,
    {
        proof {
            lemma_occurrences_push(s@.subrange(0, k as int), s@[k as int], c);
            assert(s@.subrange(0, k as int).push(s@[k as int]) =~= s@.subrange(0, k + 1));
        }
        if s[k] == c {
            n = n + 1;
        }
        k = k + 1;
    }
    assert(s@.subrange(0, s@.len() as int) =~= s@);
    n
}

/// Makes the counts of `(` and `)` in a line equal, without looking at where
/// they stand: missing `(` go in front, missing `)` at the end.
pub fn balance_parentheses(line: &Vec<char>) -> (r: Vec<char>)
    ensures
        r@ == balanced(line@),
{
    let l = count(line, '(');
    let rc = count(line, ')');
    let mut out: Vec<char> = Vec::new();
    let mut k: usize = 0;
    if l < rc {
        while k < rc - l
            invariant
                l < rc,
                k <= rc - l,
                out@ == repeated('(', k as nat),
            decreases rc - l - k,
        {
            out.push('(');
            k = k + 1;
            assert(out@ =~= repeated('(', k as nat));
        }
    }
    let ghost front = out@;
    let mut m: usize = 0;
    while m < line.len()
        invariant
            m <= line@.len(),
            out@ == front + line@.subrange(0, m as int),
        decreases line@.len() - m,
    {
        out.push(line[m]);
        m = m + 1;
        assert(out@ =~= front + line@.subrange(0, m as int));
    }
    assert(line@.subrange(0, line@.len() as int) =~= line@);
    let ghost middle = out@;
    k = 0;
    if rc < l {
        while k < l - rc
            invariant
                rc < l,
                k <= l - rc,
                out@ == middle + repeated(')', k as nat),
            decreases l - rc - k,
        {
            out.push(')');
            k = k + 1;
            assert(out@ =~= middle + repeated(')', k as nat));
        }
    }
    proof {
        if l < rc {
            assert(out@ =~= repeated('(', (rc - l) as nat) + line@);
        } else if rc < l {
            assert(out@ =~= line@ + repeated(')', (l - rc) as nat));
        } else {
            assert(out@ =~= line@ + repeated(')', 0));
        }
    }
    out
}

} // verus!
