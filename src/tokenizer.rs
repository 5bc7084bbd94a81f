use vstd::prelude::*;
use vstd::std_specs::iter::IteratorSpec;
use crate::token::{Tokens, TokenModel, token_models, lemma_token_models_push, lemma_token_models_drop_last};

verus! {

/// Why a line could not be scanned. Positions are 0-based character offsets.
#[derive(Debug, Clone, Copy, PartialEq, Eq, Structural)]
pub enum ScanError {
    /// A character that starts no token (a lone `-` included).
    UnexpectedChar { found: char, position: usize },
    /// A `.` that does not follow a number without a decimal point.
    MisplacedDecimalPoint { position: usize },
    /// A run of letters that is no keyword; `first` is its first letter.
    UnknownIdentifier { first: char, position: usize },
}

pub open spec fn is_digit(c: char) -> bool {
    '0' <= c && c <= '9'
}

pub open spec fn is_letter(c: char) -> bool {
    ('a' <= c && c <= 'z') || ('A' <= c && c <= 'Z')
}

pub open spec fn is_space(c: char) -> bool {
    c == ' ' || c == '\t' || c == '\r' || c == '\n'
}

/// `c` is the lower-case letter `k` in either case.
pub open spec fn same_letter(c: char, k: char) -> bool {
    c == k || (c as u32) + 32 == (k as u32)
}

/// `w` spells the lower-case word `k`, ignoring case.
pub open spec fn spells(w: Seq<char>, k: Seq<char>) -> bool {
    w.len() == k.len() && forall|i: int| 0 <= i < w.len() ==> same_letter(#[trigger] w[i], k[i])
}

/// The token that a word stands for, if it is a keyword.
pub open spec fn keyword(w: Seq<char>) -> Option<TokenModel> {
    if spells(w, seq!['s', 'i', 'n']) {
        Some(TokenModel::Sin)
    } else if spells(w, seq!['c', 'o', 's']) {
        Some(TokenModel::Cos)
    } else if spells(w, seq!['t', 'a', 'n']) {
        Some(TokenModel::Tan)
    } else if spells(w, seq!['s', 'q', 'r', 't']) {
        Some(TokenModel::Sqrt)
    } else if spells(w, seq!['p', 'i']) {
        Some(TokenModel::Pi)
    } else if spells(w, seq!['e']) {
        Some(TokenModel::E)
    } else if spells(w, seq!['e', 'x', 'p']) {
        Some(TokenModel::Exp)
    } else {
        None
    }
}

/// The token of a character that always stands for itself (`-` is not one).
pub open spec fn operator_token(c: char) -> Option<TokenModel> {
    if c == '+' {
        Some(TokenModel::Plus)
    } else if c == '*' {
        Some(TokenModel::Multiply)
    } else if c == '/' {
        Some(TokenModel::Divide)
    } else if c == '%' {
        Some(TokenModel::Modulo)
    } else if c == '^' {
        Some(TokenModel::Power)
    } else if c == '(' {
        Some(TokenModel::LeftParen)
    } else if c == ')' {
        Some(TokenModel::RightParen)
    } else {
        None
    }
}

/// A `-` at `i` starts a negative number: it is the first character, or the
/// character before it is `(`, an operator or a letter.
pub open spec fn negation_context(s: Seq<char>, i: int) -> bool {
    i == 0 || {
        let p = s[i - 1];
        p == '(' || p == '+' || p == '-' || p == '*' || p == '/' || p == '%' || p == '^'
            || is_letter(p)
    }
}

/// The end of the run of digits that starts at `i`.
pub open spec fn digits_end(s: Seq<char>, i: int) -> int
    decreases s.len() - i,
{
    if 0 <= i < s.len() && is_digit(s[i]) {
        digits_end(s, i + 1)
    } else {
        i
    }
}

/// The end of the run of letters that starts at `i`.
pub open spec fn letters_end(s: Seq<char>, i: int) -> int
    decreases s.len() - i,
{
    if 0 <= i < s.len() && is_letter(s[i]) {
        letters_end(s, i + 1)
    } else {
        i
    }
}

pub proof fn lemma_digits_end(s: Seq<char>, i: int)
    requires
        0 <= i <= s.len(),
    ensures
        i <= digits_end(s, i) <= s.len(),
        forall|k: int| i <= k < digits_end(s, i) ==> is_digit(#[trigger] s[k]),
        digits_end(s, i) < s.len() ==> !is_digit(s[digits_end(s, i)]),
    decreases s.len() - i,
{
    if i < s.len() && is_digit(s[i]) {
        lemma_digits_end(s, i + 1);
    }
}

pub proof fn lemma_letters_end(s: Seq<char>, i: int)
    requires
        0 <= i <= s.len(),
    ensures
        i <= letters_end(s, i) <= s.len(),
        forall|k: int| i <= k < letters_end(s, i) ==> is_letter(#[trigger] s[k]),
        letters_end(s, i) < s.len() ==> !is_letter(s[letters_end(s, i)]),
    decreases s.len() - i,
{
    if i < s.len() && is_letter(s[i]) {
        lemma_letters_end(s, i + 1);
    }
}

/// The number token of `acc` that a `.` may extend: its last token, when that
/// is a number without a decimal point.
pub open spec fn extendable_number(acc: Seq<TokenModel>) -> Option<Seq<char>> {
    if acc.len() > 0 && acc.last() is Number && !acc.last()->literal.contains('.') {
        Some(acc.last()->literal)
    } else {
        None
    }
}

/// Scanning `s` from offset `i`, with `acc` the tokens found before `i`.
pub open spec fn scan_from(s: Seq<char>, i: int, acc: Seq<TokenModel>) -> Result<Seq<TokenModel>, ScanError>
    decreases s.len() - i,
    via scan_from_decreases
{
    if i < 0 || i >= s.len() {
        Ok(acc)
    } else {
        let c = s[i];
        if is_space(c) {
            scan_from(s, i + 1, acc)
        } else if c == '-' && !negation_context(s, i) {
            scan_from(s, i + 1, acc.push(TokenModel::Minus))
        } else if operator_token(c) is Some {
            scan_from(s, i + 1, acc.push(operator_token(c)->0))
        } else if is_digit(c) || c == '-' {
            let j = digits_end(s, i + 1);
            if c == '-' && j == i + 1 {
                Err(ScanError::UnexpectedChar { found: c, position: i as usize })
            } else {
                scan_from(s, j, acc.push(TokenModel::Number { literal: s.subrange(i, j) }))
            }
        } else if c == '.' {
            match extendable_number(acc) {
                Some(lit) => {
                    let j = digits_end(s, i + 1);
                    scan_from(
                        s,
                        j,
                        acc.drop_last().push(TokenModel::Number { literal: lit + s.subrange(i, j) }),
                    )
                },
                None => Err(ScanError::MisplacedDecimalPoint { position: i as usize }),
            }
        } else if is_letter(c) {
            let j = letters_end(s, i + 1);
            match keyword(s.subrange(i, j)) {
                Some(t) => scan_from(s, j, acc.push(t)),
                None => Err(ScanError::UnknownIdentifier { first: c, position: i as usize }),
            }
        } else {
            Err(ScanError::UnexpectedChar { found: c, position: i as usize })
        }
    }
}

#[via_fn]
proof fn scan_from_decreases(s: Seq<char>, i: int, acc: Seq<TokenModel>) {
    if 0 <= i < s.len() {
        lemma_digits_end(s, i + 1);
        lemma_letters_end(s, i + 1);
    }
}

/// The tokens of a whole line, in the order scanned, or the first error.
pub open spec fn scan(s: Seq<char>) -> Result<Seq<TokenModel>, ScanError> {
    scan_from(s, 0, seq![])
}

/// Every character of `a` is a decimal digit.
pub open spec fn all_digits(a: Seq<char>) -> bool {
    forall|k: int| 0 <= k < a.len() ==> is_digit(#[trigger] a[k])
}

proof fn lemma_digits_end_at(s: Seq<char>, i: int, k: int)
    requires
        0 <= i <= k <= s.len(),
        forall|m: int| i <= m < k ==> is_digit(#[trigger] s[m]),
        k == s.len() || !is_digit(s[k]),
    ensures
        digits_end(s, i) == k,
    decreases k - i,
{
    if i < k {
        lemma_digits_end_at(s, i + 1, k);
    }
}

/// A decimal point joins the digits on both sides of it into a single number
/// token: `a.b` scans as the one number `a.b`.
pub proof fn lemma_decimal_is_one_number(a: Seq<char>, b: Seq<char>)
    requires
        a.len() > 0,
        all_digits(a),
        all_digits(b),
    ensures
        scan(a + seq!['.'] + b) == Ok::<Seq<TokenModel>, ScanError>(
            seq![TokenModel::Number { literal: a + seq!['.'] + b }],
        ),
{
    let s = a + seq!['.'] + b;
    let n = a.len() as int;
    let lit = a + seq!['.'] + b;
    assert(s[n] == '.');
    assert forall|m: int| 1 <= m < n implies is_digit(#[trigger] s[m]) by {
        assert(s[m] == a[m]);
    }
    lemma_digits_end_at(s, 1, n);
    assert forall|m: int| n + 1 <= m < s.len() implies is_digit(#[trigger] s[m]) by {
        assert(s[m] == b[m - n - 1]);
    }
    lemma_digits_end_at(s, n + 1, s.len() as int);
    assert(s.subrange(0, n) =~= a);
    assert(!a.contains('.')) by {
        if a.contains('.') {
            let k = choose|k: int| 0 <= k < a.len() && a[k] == '.';
            assert(is_digit(a[k]));
        }
    }
    let acc1 = seq![TokenModel::Number { literal: a }];
    assert(seq![].push(TokenModel::Number { literal: s.subrange(0, n) }) =~= acc1);
    assert(a + s.subrange(n, s.len() as int) =~= lit);
    let acc2 = seq![TokenModel::Number { literal: lit }];
    assert(acc1.drop_last().push(TokenModel::Number { literal: lit }) =~= acc2);
    assert(scan_from(s, s.len() as int, acc2) == Ok::<Seq<TokenModel>, ScanError>(acc2));
    assert(scan_from(s, n, acc1) == Ok::<Seq<TokenModel>, ScanError>(acc2));
    assert(is_digit(s[0]));
}

/// After a digit, `-` is subtraction, and a `-` right after it starts a
/// negative number: `a--b` scans as `a`, minus, `-b`.
pub proof fn lemma_minus_then_negative_number(a: Seq<char>, b: Seq<char>)
    requires
        a.len() > 0,
        b.len() > 0,
        all_digits(a),
        all_digits(b),
    ensures
        scan(a + seq!['-', '-'] + b) == Ok::<Seq<TokenModel>, ScanError>(
            seq![
                TokenModel::Number { literal: a },
                TokenModel::Minus,
                TokenModel::Number { literal: seq!['-'] + b },
            ],
        ),
{
    let s = a + seq!['-', '-'] + b;
    let n = a.len() as int;
    assert(s[n] == '-' && s[n + 1] == '-');
    assert(s[n - 1] == a[n - 1]);
    assert(is_digit(s[n - 1]));
    assert forall|m: int| 1 <= m < n implies is_digit(#[trigger] s[m]) by {
        assert(s[m] == a[m]);
    }
    lemma_digits_end_at(s, 1, n);
    assert forall|m: int| n + 2 <= m < s.len() implies is_digit(#[trigger] s[m]) by {
        assert(s[m] == b[m - n - 2]);
    }
    lemma_digits_end_at(s, n + 2, s.len() as int);
    assert(s.subrange(0, n) =~= a);
    assert(s.subrange(n + 1, s.len() as int) =~= seq!['-'] + b);
    let acc1 = seq![TokenModel::Number { literal: a }];
    assert(seq![].push(TokenModel::Number { literal: s.subrange(0, n) }) =~= acc1);
    let acc2 = acc1.push(TokenModel::Minus);
    let acc3 = acc2.push(TokenModel::Number { literal: seq!['-'] + b });
    assert(acc3 =~= seq![
        TokenModel::Number { literal: a },
        TokenModel::Minus,
        TokenModel::Number { literal: seq!['-'] + b },
    ]);
    assert(scan_from(s, s.len() as int, acc3) == Ok::<Seq<TokenModel>, ScanError>(acc3));
    assert(scan_from(s, n + 1, acc2) == Ok::<Seq<TokenModel>, ScanError>(acc3));
    assert(scan_from(s, n, acc1) == Ok::<Seq<TokenModel>, ScanError>(acc3));
    assert(is_digit(s[0]));
}

proof fn lemma_letters_end_at(s: Seq<char>, i: int, k: int)
    requires
        0 <= i <= k <= s.len(),
        forall|m: int| i <= m < k ==> is_letter(#[trigger] s[m]),
        k == s.len() || !is_letter(s[k]),
    ensures
        letters_end(s, i) == k,
    decreases k - i,
{
    if i < k {
        lemma_letters_end_at(s, i + 1, k);
    }
}

/// A line that starts with a word which is no keyword fails to scan, and the
/// error names the word's first letter at offset 0.
pub proof fn lemma_unknown_word_fails(w: Seq<char>, rest: Seq<char>)
    requires
        w.len() > 0,
        forall|k: int| 0 <= k < w.len() ==> is_letter(#[trigger] w[k]),
        keyword(w) is None,
        rest.len() == 0 || !is_letter(rest[0]),
    ensures
        scan(w + rest) == Err::<Seq<TokenModel>, ScanError>(
            ScanError::UnknownIdentifier { first: w[0], position: 0 },
        ),
{
    let s = w + rest;
    let n = w.len() as int;
    assert forall|m: int| 1 <= m < n implies is_letter(#[trigger] s[m]) by {
        assert(s[m] == w[m]);
    }
    if n < s.len() {
        assert(s[n] == rest[0]);
    }
    lemma_letters_end_at(s, 1, n);
    assert(s.subrange(0, n) =~= w);
    assert(s[0] == w[0]);
    assert(is_letter(s[0]));
}

/// The characters of `s`, in order.
pub fn chars_of(s: &str) -> (r: Vec<char>)
    ensures
        r@ == s@,
{
    broadcast use vstd::string::axiom_spec_iter, vstd::string::next_postcondition;

    let mut it = s.chars();
    let mut r: Vec<char> = Vec::new();
    loop
        invariant
            r@ + it.remaining() == s@,
            it.decrease() is Some,
        ensures
            r@ == s@,
        decreases it.decrease()->0,
    {
        match it.next() {
            Some(c) => {
                r.push(c);
            },
            None => {
                assert(r@ + it.remaining() =~= r@);
                break;
            },
        }
    }
    r
}

fn is_digit_char(c: char) -> (r: bool)
    ensures
        r == is_digit(c),
{
    '0' <= c && c <= '9'
}

fn is_letter_char(c: char) -> (r: bool)
    ensures
        r == is_letter(c),
{
    ('a' <= c && c <= 'z') || ('A' <= c && c <= 'Z')
}

/// Whether `s[start..end]` spells the lower-case word `k`, ignoring case.
fn spells_at(s: &Vec<char>, start: usize, end: usize, k: &[char]) -> (r: bool)
    requires
        start <= end <= s@.len(),
    ensures
        r == spells(s@.subrange(start as int, end as int), k@),
{
    if end - start != k.len() {
        return false;
    }
    let mut i: usize = 0;
    while i < k.len()
        invariant
            end - start == k@.len(),
            start <= end <= s@.len(),
            i <= k@.len(),
            forall|m: int| 0 <= m < i ==> same_letter(#[trigger] s@[start + m], k@[m]),
        decreases k@.len() - i,
    {
        let c = s[start + i];
        let l = k[i];
        if !(c == l || ((l as u32) >= 32 && (c as u32) == (l as u32) - 32)) {
            assert(!same_letter(s@.subrange(start as int, end as int)[i as int], k@[i as int]));
            return false;
        }
        i = i + 1;
    }
    assert forall|m: int| 0 <= m < k@.len() implies same_letter(
        #[trigger] s@.subrange(start as int, end as int)[m],
        k@[m],
    ) by {
        assert(s@.subrange(start as int, end as int)[m] == s@[start + m]);
    }
    true
}

/// The keyword token that `s[start..end]` spells, if any.
fn keyword_at(s: &Vec<char>, start: usize, end: usize) -> (r: Option<Tokens>)
    requires
        start <= end <= s@.len(),
    ensures
        match r {
            Some(t) => keyword(s@.subrange(start as int, end as int)) == Some(t@),
            None => keyword(s@.subrange(start as int, end as int)) is None,
        },
{
    if spells_at(s, start, end, ['s', 'i', 'n'].as_slice()) {
        Some(Tokens::Sin)
    } else if spells_at(s, start, end, ['c', 'o', 's'].as_slice()) {
        Some(Tokens::Cos)
    } else if spells_at(s, start, end, ['t', 'a', 'n'].as_slice()) {
        Some(Tokens::Tan)
    } else if spells_at(s, start, end, ['s', 'q', 'r', 't'].as_slice()) {
        Some(Tokens::Sqrt)
    } else if spells_at(s, start, end, ['p', 'i'].as_slice()) {
        Some(Tokens::Pi)
    } else if spells_at(s, start, end, ['e'].as_slice()) {
        Some(Tokens::E)
    } else if spells_at(s, start, end, ['e', 'x', 'p'].as_slice()) {
        Some(Tokens::Exp)
    } else {
        None
    }
}


fn operator_of(c: char) -> (r: Option<Tokens>)
    ensures
        match r {
            Some(t) => operator_token(c) == Some(t@),
            None => operator_token(c) is None,
        },
{
    if c == '+' {
        Some(Tokens::Plus)
    } else if c == '*' {
        Some(Tokens::Multiply)
    } else if c == '/' {
        Some(Tokens::Divide)
    } else if c == '%' {
        Some(Tokens::Modulo)
    } else if c == '^' {
        Some(Tokens::Power)
    } else if c == '(' {
        Some(Tokens::LeftParen)
    } else if c == ')' {
        Some(Tokens::RightParen)
    } else {
        None
    }
}

/// Appends `s[start..end]` to `out`.
pub(crate) fn append_range(out: &mut Vec<char>, s: &Vec<char>, start: usize, end: usize)
    requires
        start <= end <= s@.len(),
    ensures
        final(out)@ == old(out)@ + s@.subrange(start as int, end as int),
{
    let ghost first = out@;
    let mut k: usize = start;
    while k < end
        invariant
            start <= k <= end <= s@.len(),
            out@ == first + s@.subrange(start as int, k as int),
        decreases end - k,
    {
        out.push(s[k]);
        k = k + 1;
        assert(out@ =~= first + s@.subrange(start as int, k as int));
    }
}

/// Whether `lit` holds a decimal point.
fn has_dot(lit: &Vec<char>) -> (r: bool)
    ensures
        r == lit@.contains('.'),
{
    let mut k: usize = 0;
    while k < lit.len()
        invariant
            k <= lit@.len(),
            forall|m: int| 0 <= m < k ==> lit@[m] != '.',
        decreases lit@.len() - k,
    {
        if lit[k] == '.' {
            assert(lit@[k as int] == '.');
            return true;
        }
        k = k + 1;
    }
    false
}

/// A scanner over one line of input: a cursor on the current character,
/// one character of lookahead, and the tokens found so far.
#[derive(Debug)]
pub struct Tokenizer {
    pub input: Vec<char>,
    pub position: usize,
    pub read_position: usize,
    pub current_char: char,
    pub tokens: Vec<Tokens>,
}

impl Tokenizer {
    /// The characters of the line being scanned.
    pub open spec fn text(&self) -> Seq<char> {
        self.input@
    }

    pub open spec fn wf(&self) -> bool {
        self.position <= self.read_position
    }

    proof fn lemma_text_fits(&self)
        ensures
            self.text().len() <= usize::MAX,
    {
        vstd::std_specs::vec::axiom_spec_len(&self.input);
    }

    /// What scanning the rest of the line yields, from the current state.
    pub open spec fn outcome(&self) -> Result<Seq<TokenModel>, ScanError> {
        scan_from(self.text(), self.read_position as int, token_models(self.tokens@))
    }

    pub fn new(input: &str) -> (t: Tokenizer)
        ensures
            t.wf(),
            t.text() == input@,
            t.position == 0,
            t.read_position == 0,
            t.current_char == '\0',
            t.tokens@.len() == 0,
            t.outcome() == scan(input@),
    {
        let t = Tokenizer {
            input: chars_of(input),
            position: 0,
            read_position: 0,
            current_char: '\0',
            tokens: Vec::new(),
        };
        assert(token_models(t.tokens@) =~= seq![]);
        t
    }

    /// Moves the cursor onto the next character.
    pub fn read_char(&mut self)
        requires
            old(self).wf(),
            old(self).read_position < usize::MAX,
        ensures
            final(self).wf(),
            final(self).text() == old(self).text(),
            final(self).tokens == old(self).tokens,
            final(self).position == old(self).read_position,
            final(self).read_position == old(self).read_position + 1,
            final(self).current_char == (if old(self).read_position < old(self).text().len() {
                old(self).text()[old(self).read_position as int]
            } else {
                '\0'
            }),
    {
        if self.read_position < self.input.len() {
            self.current_char = self.input[self.read_position];
        } else {
            self.current_char = '\0';
        }
        self.position = self.read_position;
        self.read_position = self.read_position + 1;
    }

    /// The character after the cursor, or `'\0'` at the end of the line.
    pub fn peek_char(&self) -> (c: char)
        requires
            self.wf(),
        ensures
            c == (if self.read_position < self.text().len() {
                self.text()[self.read_position as int]
            } else {
                '\0'
            }),
    {
        if self.read_position < self.input.len() {
            self.input[self.read_position]
        } else {
            '\0'
        }
    }

    fn negation_context_at(&self, i: usize) -> (r: bool)
        requires
            i < self.text().len(),
        ensures
            r == negation_context(self.text(), i as int),
    {
        if i == 0 {
            true
        } else {
            let p = self.input[i - 1];
            p == '(' || p == '+' || p == '-' || p == '*' || p == '/' || p == '%' || p == '^'
                || is_letter_char(p)
        }
    }

    /// Reads on over the run of digits after the cursor.
    fn skip_digits(&mut self)
        requires
            old(self).wf(),
        ensures
            final(self).wf(),
            final(self).text() == old(self).text(),
            final(self).tokens == old(self).tokens,
            final(self).read_position == digits_end(old(self).text(), old(self).read_position as int),
    {
        let ghost s = self.text();
        let ghost start = self.read_position as int;
        while is_digit_char(self.peek_char())
            invariant
                self.wf(),
                self.text() == s,
                self.tokens == old(self).tokens,
                start <= self.read_position,
                digits_end(s, self.read_position as int) == digits_end(s, start),
            decreases s.len() - self.read_position,
        {
            proof {
                self.lemma_text_fits();
            }
            self.read_char();
        }
    }

    /// Reads on over the run of letters after the cursor.
    fn skip_letters(&mut self)
        requires
            old(self).wf(),
        ensures
            final(self).wf(),
            final(self).text() == old(self).text(),
            final(self).tokens == old(self).tokens,
            final(self).read_position == letters_end(old(self).text(), old(self).read_position as int),
    {
        let ghost s = self.text();
        let ghost start = self.read_position as int;
        while is_letter_char(self.peek_char())
            invariant
                self.wf(),
                self.text() == s,
                self.tokens == old(self).tokens,
                start <= self.read_position,
                letters_end(s, self.read_position as int) == letters_end(s, start),
            decreases s.len() - self.read_position,
        {
            proof {
                self.lemma_text_fits();
            }
            self.read_char();
        }
    }

    fn push_token(&mut self, t: Tokens)
        ensures
            final(self).input == old(self).input,
            final(self).position == old(self).position,
            final(self).read_position == old(self).read_position,
            token_models(final(self).tokens@) == token_models(old(self).tokens@).push(t@),
    {
        proof {
            lemma_token_models_push(self.tokens@, t);
        }
        self.tokens.push(t);
    }

    /// Scans the rest of the line, appending its tokens to `tokens`; stops at
    /// the first character that cannot be scanned.
    pub fn tokenize(&mut self) -> (r: Result<(), ScanError>)
        requires
            old(self).wf(),
        ensures
            final(self).wf(),
            final(self).text() == old(self).text(),
            match r {
                Ok(()) => old(self).outcome() == Ok::<Seq<TokenModel>, ScanError>(token_models(final(self).tokens@)),
                Err(e) => old(self).outcome() == Err::<Seq<TokenModel>, ScanError>(e),
            },
    {
        let ghost s = self.text();
        let ghost goal = self.outcome();
        let mut status: Result<(), ScanError> = Ok(());
        while status.is_ok() && self.read_position < self.input.len()
            invariant
                self.wf(),
                self.text() == s,
                match status {
                    Ok(()) => self.outcome() == goal,
                    Err(e) => goal == Err::<Seq<TokenModel>, ScanError>(e),
                },
            decreases s.len() - self.read_position,
        {
            status = self.scan_token();
        }
        status
    }

    /// Scans what starts at the next character: skips it if it is white space,
    /// else appends one token or fails.
    fn scan_token(&mut self) -> (r: Result<(), ScanError>)
        requires
            old(self).wf(),
            old(self).read_position < old(self).text().len(),
        ensures
            final(self).wf(),
            final(self).text() == old(self).text(),
            old(self).read_position < final(self).read_position <= final(self).text().len(),
            match r {
                Ok(()) => final(self).outcome() == old(self).outcome(),
                Err(e) => old(self).outcome() == Err::<Seq<TokenModel>, ScanError>(e),
            },
    {
        let ghost s = self.text();
        proof {
            self.lemma_text_fits();
        }
        self.read_char();
        let i = self.position;
        let c = self.current_char;
        if c == ' ' || c == '\t' || c == '\r' || c == '\n' {
        } else if c == '-' && !self.negation_context_at(i) {
            self.push_token(Tokens::Minus);
        } else if let Some(t) = operator_of(c) {
            self.push_token(t);
        } else if is_digit_char(c) || c == '-' {
            proof {
                lemma_digits_end(s, i + 1);
            }
            self.skip_digits();
            let j = self.read_position;
            if c == '-' && j == i + 1 {
                return Err(ScanError::UnexpectedChar { found: c, position: i });
            }
            let mut literal: Vec<char> = Vec::new();
            append_range(&mut literal, &self.input, i, j);
            assert(literal@ =~= s.subrange(i as int, j as int));
            self.push_token(Tokens::Number { literal });
        } else if c == '.' {
            let n = self.tokens.len();
            let mut extendable = false;
            if n > 0 {
                match &self.tokens[n - 1] {
                    Tokens::Number { literal } => {
                        extendable = !has_dot(literal);
                    },
                    _ => {},
                }
            }
            if !extendable {
                return Err(ScanError::MisplacedDecimalPoint { position: i });
            }
            proof {
                lemma_token_models_drop_last(self.tokens@);
            }
            match self.tokens.pop() {
                Some(Tokens::Number { literal }) => {
                    let mut literal = literal;
                    proof {
                        lemma_digits_end(s, i + 1);
                    }
                    self.skip_digits();
                    let j = self.read_position;
                    append_range(&mut literal, &self.input, i, j);
                    self.push_token(Tokens::Number { literal });
                },
                _ => {
                    return Err(ScanError::MisplacedDecimalPoint { position: i });
                },
            }
        } else if is_letter_char(c) {
            proof {
                lemma_letters_end(s, i + 1);
            }
            self.skip_letters();
            let j = self.read_position;
            match keyword_at(&self.input, i, j) {
                Some(t) => {
                    self.push_token(t);
                },
                None => {
                    return Err(ScanError::UnknownIdentifier { first: c, position: i });
                },
            }
        } else {
            return Err(ScanError::UnexpectedChar { found: c, position: i });
        }
        Ok(())
    }
}

/// The tokens of a whole line, or the first scan error.
pub fn scan_line(input: &str) -> (r: Result<Vec<Tokens>, ScanError>)
    ensures
        match r {
            Ok(ts) => scan(input@) == Ok::<Seq<TokenModel>, ScanError>(token_models(ts@)),
            Err(e) => scan(input@) == Err::<Seq<TokenModel>, ScanError>(e),
        },
{
    let mut t = Tokenizer::new(input);
    match t.tokenize() {
        Ok(()) => Ok(t.tokens),
        Err(e) => Err(e),
    }
}

} // verus!
