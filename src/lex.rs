use vstd::prelude::*;

verus! {

/// The Unicode `White_Space` property, which `char::is_whitespace` tests.
pub open spec fn is_ws(c: char) -> bool {
    (9 <= c as u32 && c as u32 <= 13) || c == ' ' || c == '\u{85}' || c == '\u{a0}'
        || c == '\u{1680}' || (0x2000 <= c as u32 && c as u32 <= 0x200a) || c == '\u{2028}'
        || c == '\u{2029}' || c == '\u{202f}' || c == '\u{205f}' || c == '\u{3000}'
}

/// Whether `c` has the Unicode `Alphabetic` property.
pub uninterp spec fn alphabetic(c: char) -> bool;

/// A character with the Unicode Alphabetic property: among ASCII characters
/// exactly the letters `A-Z` and `a-z`.
pub open spec fn is_letter(c: char) -> bool {
    if (c as u32) < 128 {
        (65 <= c as u32 && c as u32 <= 90) || (97 <= c as u32 && c as u32 <= 122)
    } else {
        alphabetic(c)
    }
}

/// A character that may continue an identifier or keyword.
pub open spec fn is_word_char(c: char) -> bool {
    is_letter(c) || c == '_'
}

pub open spec fn is_digit(c: char) -> bool {
    48 <= c as u32 && c as u32 <= 57
}

/// End of the run of whitespace in `s` that starts at `i`.
pub open spec fn ws_end(s: Seq<char>, i: int) -> int
    decreases s.len() - i,
{
    if 0 <= i < s.len() && is_ws(s[i]) {
        ws_end(s, i + 1)
    } else {
        i
    }
}

/// End of the run of word characters in `s` that starts at `i`.
pub open spec fn word_end(s: Seq<char>, i: int) -> int
    decreases s.len() - i,
{
    if 0 <= i < s.len() && is_word_char(s[i]) {
        word_end(s, i + 1)
    } else {
        i
    }
}

/// End of the run of decimal digits in `s` that starts at `i`.
pub open spec fn digit_end(s: Seq<char>, i: int) -> int
    decreases s.len() - i,
{
    if 0 <= i < s.len() && is_digit(s[i]) {
        digit_end(s, i + 1)
    } else {
        i
    }
}

/// `s` without its leading whitespace.
pub open spec fn trim(s: Seq<char>) -> Seq<char> {
    s.skip(ws_end(s, 0))
}

pub open spec fn starts_with(t: Seq<char>, p: Seq<char>) -> bool {
    p.len() <= t.len() && t.take(p.len() as int) == p
}

/// Length of the operator that `t` starts with, the longest one where several
/// fit (`<=` over `<`, `==` and `=>` over `=`), or 0 where none does.
pub open spec fn op_len(t: Seq<char>) -> nat {
    if t.len() == 0 {
        0
    } else if t.len() >= 2 && ((t[0] == '<' && t[1] == '=') || (t[0] == '=' && (t[1] == '>'
        || t[1] == '='))) {
        2
    } else if t[0] == '+' || t[0] == '-' || t[0] == '*' || t[0] == '/' || t[0] == '(' || t[0]
        == ')' || t[0] == '<' || t[0] == '>' || t[0] == '=' || t[0] == ';' {
        1
    } else {
        0
    }
}

pub open spec fn is_keyword(w: Seq<char>) -> bool {
    w == "return"@ || w == "if"@ || w == "else"@ || w == "for"@ || w == "while"@
}

/// The value of a string of decimal digits.
pub open spec fn digits_value(d: Seq<char>) -> nat
    decreases d.len(),
{
    if d.len() == 0 {
        0
    } else {
        digits_value(d.drop_last()) * 10 + (d.last() as u32 - 48) as nat
    }
}

/// What a token is, over plain values.
pub enum TokenView {
    Operand(Seq<char>),
    Reserved(Seq<char>),
    LVar(Seq<char>),
    Num(u64),
}

/// The next token of `s` and the text after it; the error holds the text
/// from the character that starts no token.
pub open spec fn spec_next(s: Seq<char>) -> (Result<Option<TokenView>, Seq<char>>, Seq<char>) {
    let t = trim(s);
    if t.len() == 0 {
        (Ok(None), t)
    } else if op_len(t) > 0 {
        (Ok(Some(TokenView::Operand(t.take(op_len(t) as int)))), t.skip(op_len(t) as int))
    } else if is_letter(t[0]) {
        let n = word_end(t, 0);
        let w = t.take(n);
        (
            Ok(Some(
                if is_keyword(w) {
                    TokenView::Reserved(w)
                } else {
                    TokenView::LVar(w)
                },
            )),
            t.skip(n),
        )
    } else if is_digit(t[0]) {
        let n = digit_end(t, 0);
        let v = digits_value(t.take(n));
        if v <= u64::MAX {
            (Ok(Some(TokenView::Num(v as u64))), t.skip(n))
        } else {
            (Err(t), t)
        }
    } else {
        (Err(t), t)
    }
}

#[derive(Debug, Clone, Copy, PartialEq, Eq)]
pub enum Token<'a> {
    /// An operator; the text is the lexeme as it stands in the source.
    Operand(&'a str),
    /// A keyword.
    Reserved(&'a str),
    /// A variable name.
    LVar(&'a str),
    /// An unsigned integer literal.
    Num(u64),
}

impl<'a> View for Token<'a> {
    type V = TokenView;

    open spec fn view(&self) -> TokenView {
        match *self {
            Token::Operand(s) => TokenView::Operand(s@),
            Token::Reserved(s) => TokenView::Reserved(s@),
            Token::LVar(s) => TokenView::LVar(s@),
            Token::Num(n) => TokenView::Num(n),
        }
    }
}

/// A character that starts no token; `rest` is the source from that character on.
#[derive(Debug, PartialEq, Eq)]
pub struct LexError {
    pub rest: String,
}

pub open spec fn next_view(r: Result<Option<Token>, LexError>) -> Result<Option<TokenView>, Seq<char>> {
    match r {
        Ok(Some(t)) => Ok(Some(t@)),
        Ok(None) => Ok(None),
        Err(e) => Err(e.rest@),
    }
}

/// Relies on char::is_alphabetic: whether the character has the Unicode
/// Alphabetic property.
#[verifier::external_body]
fn is_alpha(c: char) -> (r: bool)
    ensures
        r == alphabetic(c),
{
    c.is_alphabetic()
}

pub fn is_space(c: char) -> (r: bool)
    ensures
        r == is_ws(c),
{
    let u = c as u32;
    (9 <= u && u <= 13) || c == ' ' || c == '\u{85}' || c == '\u{a0}' || c == '\u{1680}' || (
    0x2000 <= u && u <= 0x200a) || c == '\u{2028}' || c == '\u{2029}' || c == '\u{202f}' || c
        == '\u{205f}' || c == '\u{3000}'
}

pub fn letter(c: char) -> (r: bool)
    ensures
        r == is_letter(c),
{
    let u = c as u32;
    if u < 128 {
        (65 <= u && u <= 90) || (97 <= u && u <= 122)
    } else {
        is_alpha(c)
    }
}

fn is_word(c: char) -> (r: bool)
    ensures
        r == is_word_char(c),
{
    letter(c) || c == '_'
}

fn is_dec(c: char) -> (r: bool)
    ensures
        r == is_digit(c),
{
    let u = c as u32;
    48 <= u && u <= 57
}

/// `s` without its leading whitespace.
pub fn trim_start(s: &str) -> (r: &str)
    ensures
        r@ == trim(s@),
        r@.len() <= s@.len(),
{
    let n = s.unicode_len();
    let mut i: usize = 0;
    while i < n && is_space(s.get_char(i))
        invariant
            i <= n,
            n == s@.len(),
            ws_end(s@, i as int) == ws_end(s@, 0),
        decreases n - i,
    {
        i = i + 1;
    }
    s.substring_char(i, n)
}

/// Whether `t` begins with `p`, character by character.
pub fn text_starts_with(t: &str, p: &str) -> (r: bool)
    ensures
        r == starts_with(t@, p@),
{
    let n = t.unicode_len();
    let m = p.unicode_len();
    if m > n {
        return false;
    }
    let mut i: usize = 0;
    while i < m
        invariant
            i <= m <= n,
            n == t@.len(),
            m == p@.len(),
            forall|j: int| 0 <= j < i ==> t@[j] == p@[j],
        decreases m - i,
    {
        if t.get_char(i) != p.get_char(i) {
            assert(t@.take(m as int)[i as int] != p@[i as int]);
            return false;
        }
        i = i + 1;
    }
    assert(t@.take(m as int) =~= p@);
    true
}

/// Whether `a` and `b` hold the same characters.
pub fn same_text(a: &str, b: &str) -> (r: bool)
    ensures
        r == (a@ == b@),
{
    if a.unicode_len() != b.unicode_len() {
        return false;
    }
    let r = text_starts_with(a, b);
    assert(a@ =~= a@.take(b@.len() as int));
    r
}

/// Splits `s` after its leading run of decimal digits.
pub fn split_digit(s: &str) -> (r: (&str, &str))
    ensures
        r.0@ == s@.take(digit_end(s@, 0)),
        r.1@ == s@.skip(digit_end(s@, 0)),
        0 <= digit_end(s@, 0) <= s@.len(),
{
    let n = s.unicode_len();
    let mut i: usize = 0;
    while i < n && is_dec(s.get_char(i))
        invariant
            i <= n,
            n == s@.len(),
            digit_end(s@, i as int) == digit_end(s@, 0),
        decreases n - i,
    {
        i = i + 1;
    }
    (s.substring_char(0, i), s.substring_char(i, n))
}

/// Whether the text is one of the keywords `return`, `if`, `else`, `for`, `while`.
pub fn is_reserved_words(s: &str) -> (r: bool)
    ensures
        r == is_keyword(s@),
{
    same_text(s, "return") || same_text(s, "if") || same_text(s, "else") || same_text(s, "for")
        || same_text(s, "while")
}

proof fn lemma_digits_value_grows(d: Seq<char>, i: int, j: int)
    requires
        0 <= i <= j <= d.len(),
        forall|k: int| 0 <= k < d.len() ==> is_digit(d[k]),
    ensures
        digits_value(d.take(i)) <= digits_value(d.take(j)),
    decreases j - i,
{
    if i < j {
        lemma_digits_value_grows(d, i, j - 1);
        assert(d.take(j).drop_last() =~= d.take(j - 1));
    }
}

/// The value of a string of digits, or `None` where it exceeds `u64::MAX`.
fn digits_to_u64(d: &str) -> (r: Option<u64>)
    requires
        forall|k: int| 0 <= k < d@.len() ==> is_digit(d@[k]),
    ensures
        r is Some <==> digits_value(d@) <= u64::MAX,
        r matches Some(v) ==> v == digits_value(d@),
{
    let n = d.unicode_len();
    let mut v: u64 = 0;
    let mut i: usize = 0;
    assert(d@.take(0) =~= Seq::<char>::empty());
    while i < n
        invariant
            i <= n,
            n == d@.len(),
            v == digits_value(d@.take(i as int)),
            forall|k: int| 0 <= k < d@.len() ==> is_digit(d@[k]),
        decreases n - i,
    {
        let c = d.get_char(i);
        let dig = (c as u32 - 48) as u64;
        proof {
            assert(d@.take(i + 1).drop_last() =~= d@.take(i as int));
            assert(d@ =~= d@.take(n as int));
            lemma_digits_value_grows(d@, i + 1, n as int);
        }
        match v.checked_mul(10) {
            Some(m) => match m.checked_add(dig) {
                Some(w) => {
                    v = w;
                },
                None => {
                    return None;
                },
            },
            None => {
                return None;
            },
        }
        i = i + 1;
    }
    assert(d@ =~= d@.take(n as int));
    Some(v)
}

/// The unconsumed part of the source.
#[derive(Debug)]
pub struct TokenIter<'a> {
    pub s: &'a str,
}

impl<'a> TokenIter<'a> {
    pub fn new(s: &'a str) -> (r: Self)
        ensures
            r.s@ == s@,
    {
        TokenIter { s }
    }

    /// The unconsumed source from its first non-whitespace character on.
    pub fn rest(&self) -> (r: &'a str)
        ensures
            r@ == trim(self.s@),
    {
        trim_start(self.s)
    }

    /// Consumes `s` if the source, past its leading whitespace, starts with it,
    /// and says whether it did; otherwise leaves the source as it was.
    pub fn consume(&mut self, s: &str) -> (r: bool)
        ensures
            r == starts_with(trim(old(self).s@), s@),
            r ==> final(self).s@ == trim(old(self).s@).skip(s@.len() as int),
            !r ==> final(self).s@ == old(self).s@,
            final(self).s@.len() <= old(self).s@.len(),
            r ==> final(self).s@.len() + s@.len() <= old(self).s@.len(),
    {
        let t = trim_start(self.s);
        if text_starts_with(t, s) {
            let n = t.unicode_len();
            self.s = t.substring_char(s.unicode_len(), n);
            true
        } else {
            false
        }
    }

    /// Whether the source, past its leading whitespace, starts with the
    /// keyword `w` as a whole word; nothing is consumed.
    pub fn peek_reserved(&self, w: &str) -> (r: bool)
        ensures
            r == reserved_at(trim(self.s@), w@),
    {
        let t = trim_start(self.s);
        if !text_starts_with(t, w) {
            return false;
        }
        let n = t.unicode_len();
        let m = w.unicode_len();
        !(m < n && is_word(t.get_char(m)))
    }

    /// Consumes the keyword `w` if the source, past its leading whitespace,
    /// starts with it as a whole word (no word character follows it).
    pub fn consume_reserved(&mut self, w: &str) -> (r: bool)
        ensures
            r == reserved_at(trim(old(self).s@), w@),
            r ==> final(self).s@ == trim(old(self).s@).skip(w@.len() as int),
            !r ==> final(self).s@ == old(self).s@,
            final(self).s@.len() <= old(self).s@.len(),
            r ==> final(self).s@.len() + w@.len() <= old(self).s@.len(),
    {
        let t = trim_start(self.s);
        if !text_starts_with(t, w) {
            return false;
        }
        let n = t.unicode_len();
        let m = w.unicode_len();
        if m < n && is_word(t.get_char(m)) {
            return false;
        }
        self.s = t.substring_char(m, n);
        true
    }

    /// The next token, after whitespace.
    pub fn next(&mut self) -> (r: Result<Option<Token<'a>>, LexError>)
        ensures
            (next_view(r), final(self).s@) == spec_next(old(self).s@),
            final(self).s@.len() <= old(self).s@.len(),
            r matches Ok(Some(_)) ==> final(self).s@.len() < old(self).s@.len(),
    {
        let t = trim_start(self.s);
        self.s = t;
        let n = t.unicode_len();
        if n == 0 {
            return Ok(None);
        }
        let c = t.get_char(0);
        let k: usize = if n >= 2 && ((c == '<' && t.get_char(1) == '=') || (c == '=' && (
        t.get_char(1) == '>' || t.get_char(1) == '='))) {
            2
        } else if c == '+' || c == '-' || c == '*' || c == '/' || c == '(' || c == ')' || c == '<'
            || c == '>' || c == '=' || c == ';' {
            1
        } else {
            0
        };
        if k > 0 {
            self.s = t.substring_char(k, n);
            return Ok(Some(Token::Operand(t.substring_char(0, k))));
        }
        if letter(c) {
            let mut i: usize = 1;
            while i < n && is_word(t.get_char(i))
                invariant
                    1 <= i <= n,
                    n == t@.len(),
                    word_end(t@, i as int) == word_end(t@, 0),
                decreases n - i,
            {
                i = i + 1;
            }
            let w = t.substring_char(0, i);
            self.s = t.substring_char(i, n);
            if is_reserved_words(w) {
                return Ok(Some(Token::Reserved(w)));
            }
            return Ok(Some(Token::LVar(w)));
        }
        let (d, after) = split_digit(t);
        if d.unicode_len() > 0 {
            proof {
                assert forall|k: int| 0 <= k < d@.len() implies is_digit(d@[k]) by {
                    assert(d@[k] == t@[k]);
                    lemma_digit_run(t@, 0, k);
                }
            }
            match digits_to_u64(d) {
                Some(v) => {
                    self.s = after;
                    return Ok(Some(Token::Num(v)));
                },
                None => {
                    return Err(LexError { rest: t.to_owned() });
                },
            }
        }
        proof {
            lemma_digit_end_ge(t@, 1);
        }
        Err(LexError { rest: t.to_owned() })
    }
}

proof fn lemma_digit_end_ge(s: Seq<char>, i: int)
    ensures
        digit_end(s, i) >= i,
    decreases s.len() - i,
{
    if 0 <= i < s.len() && is_digit(s[i]) {
        lemma_digit_end_ge(s, i + 1);
    }
}

/// `t` starts with the word `w`, and no word character follows it.
pub open spec fn reserved_at(t: Seq<char>, w: Seq<char>) -> bool {
    starts_with(t, w) && (t.len() == w.len() || !is_word_char(t[w.len() as int]))
}

proof fn lemma_ws_run(s: Seq<char>, i: int)
    requires
        0 <= i <= s.len(),
        forall|k: int| 0 <= k < s.len() ==> is_ws(s[k]),
    ensures
        ws_end(s, i) == s.len(),
    decreases s.len() - i,
{
    if i < s.len() {
        lemma_ws_run(s, i + 1);
    }
}

/// Whitespace alone holds no token: the tokenizer reports the end of input
/// at once, with nothing left.
pub proof fn lemma_whitespace_no_token(s: Seq<char>)
    requires
        forall|k: int| 0 <= k < s.len() ==> is_ws(s[k]),
    ensures
        spec_next(s) == (Ok::<Option<TokenView>, Seq<char>>(None), Seq::<char>::empty()),
        trim(s).len() == 0,
{
    lemma_ws_run(s, 0);
    assert(trim(s) =~= Seq::<char>::empty());
}

proof fn lemma_ws_end_shift(w: Seq<char>, s: Seq<char>, j: int)
    requires
        0 <= j <= s.len(),
    ensures
        ws_end(w + s, w.len() + j) == w.len() + ws_end(s, j),
    decreases s.len() - j,
{
    if j < s.len() {
        assert((w + s)[w.len() + j] == s[j]);
        lemma_ws_end_shift(w, s, j + 1);
    }
}

proof fn lemma_ws_end_prefix(w: Seq<char>, s: Seq<char>, i: int)
    requires
        0 <= i <= w.len(),
        forall|k: int| 0 <= k < w.len() ==> is_ws(w[k]),
    ensures
        ws_end(w + s, i) == w.len() + ws_end(s, 0),
    decreases w.len() - i,
{
    if i < w.len() {
        assert((w + s)[i] == w[i]);
        lemma_ws_end_prefix(w, s, i + 1);
    } else {
        lemma_ws_end_shift(w, s, 0);
    }
}

/// Whitespace put before a source changes neither its next token nor the
/// text left after that token.
pub proof fn lemma_leading_whitespace_ignored(w: Seq<char>, s: Seq<char>)
    requires
        forall|k: int| 0 <= k < w.len() ==> is_ws(w[k]),
    ensures
        trim(w + s) == trim(s),
        spec_next(w + s) == spec_next(s),
{
    lemma_ws_end_prefix(w, s, 0);
    lemma_ws_end_bounds(s, 0);
    assert(trim(w + s) =~= trim(s));
}

proof fn lemma_ws_end_bounds(s: Seq<char>, i: int)
    requires
        0 <= i <= s.len(),
    ensures
        i <= ws_end(s, i) <= s.len(),
    decreases s.len() - i,
{
    if i < s.len() && is_ws(s[i]) {
        lemma_ws_end_bounds(s, i + 1);
    }
}

proof fn lemma_digit_run(s: Seq<char>, i: int, k: int)
    requires
        0 <= i <= k < digit_end(s, i),
    ensures
        is_digit(s[k]),
    decreases k - i,
{
    if i < k {
        lemma_digit_run(s, i + 1, k);
    }
}

impl<'a> Token<'a> {
    /// The value of a number token.
    pub fn expect_num(&self) -> (r: u64)
        requires
            self is Num,
        ensures
            r == self->Num_0,
    {
        match *self {
            Token::Num(n) => n,
            _ => 0,
        }
    }
}

} // verus!
