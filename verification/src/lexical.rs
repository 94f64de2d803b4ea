//! Lexical analysis: splitting raw text into units and classifying the
//! units into tokens.
//!
//! The splitter makes a single forward pass.  A `"` toggles string-capture
//! mode; inside it a backslash and the character after it are taken
//! together, so an escaped quote cannot end the capture.  Outside it,
//! punctuation and line breaks are units of their own and a run of spaces
//! and tabs becomes one whitespace unit.  Every other character extends the
//! unit in progress.

use vstd::prelude::*;

use crate::errors::{Error, ErrorCode, ErrorModel};

verus! {

broadcast use vstd::seq::group_seq_axioms;

/// The punctuation characters JSON uses: `, : { } [ ]`.
pub open spec fn is_punct_char(c: char) -> bool {
    c == ',' || c == ':' || c == '{' || c == '}' || c == '[' || c == ']'
}

/// Characters that form a whitespace run.
pub open spec fn is_space_char(c: char) -> bool {
    c == ' ' || c == '\t'
}

/// Characters that end a line.
pub open spec fn is_newline_char(c: char) -> bool {
    c == '\n' || c == '\r'
}

/// First index at or after `i` that does not hold a space or tab.
pub open spec fn space_run_end(s: Seq<char>, i: int) -> int
    decreases s.len() - i,
{
    if 0 <= i < s.len() && is_space_char(s[i]) {
        space_run_end(s, i + 1)
    } else {
        i
    }
}

/// Where a token unit that started at some earlier index ends, scanning
/// from `i` with string-capture mode `in_quotes`.  A quote toggles the
/// mode; inside the mode a backslash consumes the following character as
/// well; outside it, punctuation, line breaks and spaces end the unit.
pub open spec fn token_end(s: Seq<char>, i: int, in_quotes: bool) -> int
    decreases s.len() - i,
{
    if 0 <= i < s.len() {
        let c = s[i];
        if c == '"' {
            token_end(s, i + 1, !in_quotes)
        } else if in_quotes && c == '\\' {
            if i + 1 < s.len() {
                token_end(s, i + 2, in_quotes)
            } else {
                s.len() as int
            }
        } else if !in_quotes && (is_punct_char(c) || is_newline_char(c) || is_space_char(c)) {
            i
        } else {
            token_end(s, i + 1, in_quotes)
        }
    } else {
        i
    }
}

proof fn lemma_space_run_end_bounds(s: Seq<char>, i: int)
    requires
        0 <= i <= s.len(),
    ensures
        i <= space_run_end(s, i) <= s.len(),
    decreases s.len() - i,
{
    if i < s.len() && is_space_char(s[i]) {
        lemma_space_run_end_bounds(s, i + 1);
    }
}

proof fn lemma_token_end_bounds(s: Seq<char>, i: int, in_quotes: bool)
    requires
        0 <= i <= s.len(),
    ensures
        i <= token_end(s, i, in_quotes) <= s.len(),
    decreases s.len() - i,
{
    if i < s.len() {
        let c = s[i];
        if c == '"' {
            lemma_token_end_bounds(s, i + 1, !in_quotes);
        } else if in_quotes && c == '\\' {
            if i + 1 < s.len() {
                lemma_token_end_bounds(s, i + 2, in_quotes);
            }
        } else if !in_quotes && (is_punct_char(c) || is_newline_char(c) || is_space_char(c)) {
        } else {
            lemma_token_end_bounds(s, i + 1, in_quotes);
        }
    }
}

/// Index just past the unit that starts at `i`.
pub open spec fn unit_end(s: Seq<char>, i: int) -> int {
    let c = s[i];
    if is_punct_char(c) || is_newline_char(c) {
        i + 1
    } else if is_space_char(c) {
        space_run_end(s, i)
    } else {
        token_end(s, i, false)
    }
}

/// The unit that starts at `i`.  A whitespace run is emitted as that many
/// spaces; every other unit is the exact span of source characters.
pub open spec fn unit_at(s: Seq<char>, i: int) -> Seq<char> {
    if is_space_char(s[i]) {
        Seq::new((unit_end(s, i) - i) as nat, |k: int| ' ')
    } else {
        s.subrange(i, unit_end(s, i))
    }
}

proof fn lemma_unit_end_bounds(s: Seq<char>, i: int)
    requires
        0 <= i < s.len(),
    ensures
        i < unit_end(s, i) <= s.len(),
{
    let c = s[i];
    if is_punct_char(c) || is_newline_char(c) {
    } else if is_space_char(c) {
        lemma_space_run_end_bounds(s, i + 1);
    } else {
        if c == '"' {
            lemma_token_end_bounds(s, i + 1, true);
        } else {
            lemma_token_end_bounds(s, i + 1, false);
        }
    }
}

/// The units of `s` from index `i` on.
pub open spec fn units_from(s: Seq<char>, i: int) -> Seq<Seq<char>>
    decreases s.len() - i,
    via units_from_decreases
{
    if 0 <= i < s.len() {
        seq![unit_at(s, i)] + units_from(s, unit_end(s, i))
    } else {
        seq![]
    }
}

#[via_fn]
proof fn units_from_decreases(s: Seq<char>, i: int) {
    if 0 <= i < s.len() {
        lemma_unit_end_bounds(s, i);
    }
}

/// All units of `s`, in source order.
pub open spec fn raw_units(s: Seq<char>) -> Seq<Seq<char>> {
    units_from(s, 0)
}

/// Every unit holds at least one character.
pub proof fn lemma_units_nonempty(s: Seq<char>, i: int)
    requires
        0 <= i,
    ensures
        forall|k: int|
            0 <= k < units_from(s, i).len() ==> #[trigger] units_from(s, i)[k].len() > 0,
    decreases s.len() - i,
{
    if 0 <= i < s.len() {
        lemma_unit_end_bounds(s, i);
        if is_space_char(s[i]) {
            lemma_space_run_end_bounds(s, i + 1);
        }
        lemma_units_nonempty(s, unit_end(s, i));
        let us = units_from(s, i);
        let rest = units_from(s, unit_end(s, i));
        assert forall|k: int| 0 <= k < us.len() implies #[trigger] us[k].len() > 0 by {
            if k == 0 {
                assert(us[0] == unit_at(s, i));
            } else {
                assert(us[k] == rest[k - 1]);
            }
        }
    }
}

/// Sum of the lengths of a sequence of units.
pub open spec fn sum_lens(us: Seq<Seq<char>>) -> int
    decreases us.len(),
{
    if us.len() == 0 {
        0
    } else {
        sum_lens(us.drop_last()) + us.last().len()
    }
}

/// The units of `s` from `i` on cover exactly the remaining characters.
pub proof fn lemma_units_len_sum(s: Seq<char>, i: int)
    requires
        0 <= i <= s.len(),
    ensures
        sum_lens(units_from(s, i)) == s.len() - i,
    decreases s.len() - i,
{
    if i < s.len() {
        lemma_unit_end_bounds(s, i);
        let e = unit_end(s, i);
        if is_space_char(s[i]) {
            lemma_space_run_end_bounds(s, i + 1);
        }
        assert(unit_at(s, i).len() == e - i);
        lemma_units_len_sum(s, e);
        let us = units_from(s, i);
        let rest = units_from(s, e);
        lemma_sum_lens_prepend(unit_at(s, i), rest);
        assert(us == seq![unit_at(s, i)] + rest);
    } else {
        assert(units_from(s, i) =~= Seq::<Seq<char>>::empty());
    }
}

proof fn lemma_sum_lens_prepend(u: Seq<char>, us: Seq<Seq<char>>)
    ensures
        sum_lens(seq![u] + us) == u.len() + sum_lens(us),
    decreases us.len(),
{
    let w = seq![u] + us;
    if us.len() == 0 {
        assert(w =~= seq![u]);
        assert(sum_lens(seq![u]) == sum_lens(seq![u].drop_last()) + u.len());
        assert(seq![u].drop_last() =~= Seq::<Seq<char>>::empty());
    } else {
        assert(w.drop_last() =~= seq![u] + us.drop_last());
        assert(w.last() == us.last());
        lemma_sum_lens_prepend(u, us.drop_last());
    }
}

/// Does a unit end the line it stands on?
pub open spec fn is_newline_unit(u: Seq<char>) -> bool {
    u.len() == 1 && is_newline_char(u[0])
}

/// Line at which unit `k` of `us` starts, counting from 1.
pub open spec fn unit_line(us: Seq<Seq<char>>, k: int) -> int
    decreases k,
{
    if k <= 0 {
        1
    } else {
        unit_line(us, k - 1) + if is_newline_unit(us[k - 1]) {
            1int
        } else {
            0int
        }
    }
}

/// Column at which unit `k` of `us` starts, counting from 1.  Every
/// consumed character advances the column by one; a line break resets it.
pub open spec fn unit_col(us: Seq<Seq<char>>, k: int) -> int
    decreases k,
{
    if k <= 0 {
        1
    } else if is_newline_unit(us[k - 1]) {
        1
    } else {
        unit_col(us, k - 1) + us[k - 1].len()
    }
}

/// Taking one more unit adds that unit's length to the sum.
pub(crate) proof fn lemma_sum_lens_take_step(us: Seq<Seq<char>>, k: int)
    requires
        0 <= k < us.len(),
    ensures
        sum_lens(us.take(k + 1)) == sum_lens(us.take(k)) + us[k].len(),
{
    assert(us.take(k + 1).drop_last() =~= us.take(k));
    assert(us.take(k + 1).last() == us[k]);
}

/// A prefix of the units never sums to more than the whole.
pub(crate) proof fn lemma_sum_lens_take_le(us: Seq<Seq<char>>, k: int)
    requires
        0 <= k <= us.len(),
    ensures
        sum_lens(us.take(k)) <= sum_lens(us),
    decreases us.len() - k,
{
    if k < us.len() {
        lemma_sum_lens_take_step(us, k);
        lemma_sum_lens_take_le(us, k + 1);
    } else {
        assert(us.take(k) =~= us);
    }
}

/// With every unit nonempty, there are no more units than characters.
pub(crate) proof fn lemma_unit_count_le_sum(us: Seq<Seq<char>>)
    requires
        forall|k: int| 0 <= k < us.len() ==> #[trigger] us[k].len() > 0,
    ensures
        us.len() <= sum_lens(us),
    decreases us.len(),
{
    if us.len() > 0 {
        lemma_unit_count_le_sum(us.drop_last());
    }
}

/// A unit's start column never exceeds one past the characters before it.
pub(crate) proof fn lemma_unit_col_bound(us: Seq<Seq<char>>, k: int)
    requires
        0 <= k <= us.len(),
    ensures
        1 <= unit_col(us, k) <= 1 + sum_lens(us.take(k)),
    decreases k,
{
    if k > 0 {
        lemma_unit_col_bound(us, k - 1);
        lemma_sum_lens_take_step(us, k - 1);
    } else {
        assert(us.take(0) =~= Seq::<Seq<char>>::empty());
    }
}

/// A unit's start line never exceeds one past the units before it.
pub(crate) proof fn lemma_unit_line_bound(us: Seq<Seq<char>>, k: int)
    requires
        0 <= k,
    ensures
        1 <= unit_line(us, k) <= 1 + k,
    decreases k,
{
    if k > 0 {
        lemma_unit_line_bound(us, k - 1);
    }
}

/// Relies on `String::push`: appends one character to the string.
#[verifier::external_body]
pub(crate) fn push_char(s: &mut String, c: char)
    ensures
        final(s)@ == old(s)@.push(c),
{
    s.push(c);
}

/// The characters of a string slice, one element each.
fn char_vec(s: &str) -> (v: Vec<char>)
    ensures
        v@ == s@,
{
    let n = s.unicode_len();
    let mut v = Vec::<char>::new();
    let mut k: usize = 0;
    while k < n
        invariant
            n == s@.len(),
            k <= n,
            v@ == s@.take(k as int),
        decreases n - k,
    {
        v.push(s.get_char(k));
        assert(v@ =~= s@.take(k + 1));
        k = k + 1;
    }
    assert(v@ =~= s@);
    v
}

/// Scans the one unit that starts at `i`, returning its text and the index
/// just past it.
fn scan_unit(chars: &Vec<char>, i: usize) -> (r: (String, usize))
    requires
        i < chars@.len(),
    ensures
        r.0@ == unit_at(chars@, i as int),
        r.1 as int == unit_end(chars@, i as int),
        i < r.1 <= chars@.len(),
{
    let s = Ghost(chars@);
    let n = chars.len();
    let c = chars[i];
    proof {
        lemma_unit_end_bounds(s@, i as int);
    }
    let mut cur = String::new();
    if is_punctuation(c) || c == '\n' || c == '\r' {
        push_char(&mut cur, c);
        assert(cur@ =~= s@.subrange(i as int, i + 1));
        assert(cur@ =~= unit_at(s@, i as int));
        (cur, i + 1)
    } else if c == ' ' || c == '\t' {
        let mut j: usize = i;
        while j < n && (chars[j] == ' ' || chars[j] == '\t')
            invariant
                s@ == chars@,
                n == s@.len(),
                i <= j <= n,
                space_run_end(s@, i as int) == space_run_end(s@, j as int),
                cur@ == Seq::new((j - i) as nat, |k: int| ' '),
            decreases n - j,
        {
            push_char(&mut cur, ' ');
            assert(cur@ =~= Seq::new((j + 1 - i) as nat, |k: int| ' '));
            j = j + 1;
        }
        proof {
            lemma_space_run_end_bounds(s@, i as int);
            assert(unit_end(s@, i as int) == j as int);
            assert(cur@ =~= unit_at(s@, i as int));
        }
        (cur, j)
    } else {
        let mut j: usize = i;
        let mut in_quotes: bool = false;
        loop
            invariant
                s@ == chars@,
                n == s@.len(),
                i <= j <= n,
                token_end(s@, i as int, false) == token_end(s@, j as int, in_quotes),
                cur@ == s@.subrange(i as int, j as int),
            ensures
                s@ == chars@,
                n == s@.len(),
                i <= j <= n,
                j as int == token_end(s@, i as int, false),
                cur@ == s@.subrange(i as int, j as int),
            decreases n - j,
        {
            if j >= n {
                break ;
            }
            let d = chars[j];
            if d == '"' {
                push_char(&mut cur, d);
                assert(cur@ =~= s@.subrange(i as int, j + 1));
                in_quotes = !in_quotes;
                j = j + 1;
            } else if in_quotes && d == '\\' {
                push_char(&mut cur, d);
                if j + 1 < n {
                    let d2 = chars[j + 1];
                    push_char(&mut cur, d2);
                    assert(cur@ =~= s@.subrange(i as int, j + 2));
                    j = j + 2;
                } else {
                    assert(cur@ =~= s@.subrange(i as int, j + 1));
                    j = j + 1;
                }
            } else if !in_quotes && (is_punctuation(d) || d == '\n' || d == '\r' || d == ' '
                || d == '\t') {
                break ;
            } else {
                push_char(&mut cur, d);
                assert(cur@ =~= s@.subrange(i as int, j + 1));
                j = j + 1;
            }
        }
        proof {
            lemma_token_end_bounds(s@, i as int, false);
            assert(unit_end(s@, i as int) == j as int);
            assert(cur@ =~= unit_at(s@, i as int));
        }
        (cur, j)
    }
}

/// Splits text into raw lexical units: string-aware spans, punctuation and
/// line breaks of their own, and whitespace runs written as spaces.
pub fn tokenize_into_strings(possible_json: &str) -> (r: Vec<String>)
    ensures
        r.deep_view() == raw_units(possible_json@),
{
    let chars = char_vec(possible_json);
    let s = Ghost(chars@);
    let n = chars.len();
    let mut out = Vec::<String>::new();
    let mut i: usize = 0;
    while i < n
        invariant
            s@ == chars@,
            n == s@.len(),
            i <= n,
            raw_units(s@) == out.deep_view() + units_from(s@, i as int),
        decreases n - i,
    {
        let (u, j) = scan_unit(&chars, i);
        proof {
            let pre = out.deep_view();
            assert(units_from(s@, i as int) == seq![unit_at(s@, i as int)] + units_from(
                s@,
                unit_end(s@, i as int),
            ));
            assert((pre + units_from(s@, i as int)) =~= (pre.push(u@) + units_from(
                s@,
                j as int,
            )));
        }
        let ghost pre_out = out.deep_view();
        out.push(u);
        proof {
            assert(out.deep_view() =~= pre_out.push(u@));
        }
        i = j;
    }
    proof {
        assert(units_from(s@, i as int) =~= Seq::<Seq<char>>::empty());
        assert(out.deep_view() =~= raw_units(s@));
    }
    out
}

/// Is `c` one of the six JSON punctuation characters?
fn is_punctuation(c: char) -> (r: bool)
    ensures
        r == is_punct_char(c),
{
    c == ',' || c == ':' || c == '{' || c == '}' || c == '[' || c == ']'
}

/// The mathematical shape of a lexical token.  Literal-bearing variants
/// carry the raw span of source characters they came from.
pub enum TokenModel {
    NewLine,
    Whitespace(nat),
    Null,
    Bool(bool),
    String(Seq<char>),
    Number(Seq<char>),
    Punctuation(char),
}

/// How many source characters a token stands for.  This equals the length
/// of the raw unit the token was classified from, which is what keeps
/// column arithmetic exact.
pub open spec fn token_len(t: TokenModel) -> int {
    match t {
        TokenModel::NewLine => 1,
        TokenModel::Whitespace(n) => n as int,
        TokenModel::Null => 4,
        TokenModel::Bool(b) => if b {
            4int
        } else {
            5int
        },
        TokenModel::String(u) => u.len() as int,
        TokenModel::Number(u) => u.len() as int,
        TokenModel::Punctuation(_) => 1,
    }
}

/// Tokens the grammar skips wherever a production starts.
pub open spec fn token_is_ws(t: TokenModel) -> bool {
    t is NewLine || t is Whitespace
}

/// How a raw unit maps to a token: by its first character.  A unit that
/// matches no recognized shape classifies as nothing and is reported as a
/// lexical failure.
pub open spec fn classify(u: Seq<char>) -> Option<TokenModel> {
    if u.len() == 1 && is_punct_char(u[0]) {
        Some(TokenModel::Punctuation(u[0]))
    } else if u.len() >= 1 && u[0] == ' ' {
        Some(TokenModel::Whitespace(u.len()))
    } else if u.len() == 1 && u[0] == '\n' {
        Some(TokenModel::NewLine)
    } else if u == seq!['n', 'u', 'l', 'l'] {
        Some(TokenModel::Null)
    } else if u == seq!['f', 'a', 'l', 's', 'e'] {
        Some(TokenModel::Bool(false))
    } else if u == seq!['t', 'r', 'u', 'e'] {
        Some(TokenModel::Bool(true))
    } else if u.len() >= 1 && u[0] == '"' {
        Some(TokenModel::String(u))
    } else if u.len() >= 1 && (u[0] == '-' || ('0' <= u[0] && u[0] <= '9')) {
        Some(TokenModel::Number(u))
    } else {
        None
    }
}

/// A classified token's length equals the length of the raw unit it was
/// classified from: the invariant column tracking rests on.
pub proof fn lemma_classified_len(u: Seq<char>)
    ensures
        classify(u) matches Some(t) ==> token_len(t) == u.len(),
{
}

/// One lexical unit, classified.  Literal-bearing variants keep the raw
/// span (a string keeps its quotes) so later stages can decode or reject
/// it; `Whitespace` holds the run length.
#[derive(Debug, PartialEq, Eq)]
pub enum Token {
    NewLine,
    Whitespace(usize),
    Null,
    Bool(bool),
    String(String),
    Number(String),
    Punctuation(char),
}

impl View for Token {
    type V = TokenModel;

    open spec fn view(&self) -> TokenModel {
        match self {
            Token::NewLine => TokenModel::NewLine,
            Token::Whitespace(n) => TokenModel::Whitespace(*n as nat),
            Token::Null => TokenModel::Null,
            Token::Bool(b) => TokenModel::Bool(*b),
            Token::String(v) => TokenModel::String(v@),
            Token::Number(v) => TokenModel::Number(v@),
            Token::Punctuation(c) => TokenModel::Punctuation(*c),
        }
    }
}

impl DeepView for Token {
    type V = TokenModel;

    open spec fn deep_view(&self) -> TokenModel {
        self.view()
    }
}

impl Clone for Token {
    fn clone(&self) -> (r: Token)
        ensures
            r == *self,
    {
        match self {
            Token::NewLine => Token::NewLine,
            Token::Whitespace(n) => Token::Whitespace(*n),
            Token::Null => Token::Null,
            Token::Bool(b) => Token::Bool(*b),
            Token::String(v) => Token::String(v.clone()),
            Token::Number(v) => Token::Number(v.clone()),
            Token::Punctuation(c) => Token::Punctuation(*c),
        }
    }
}

/// Do two string slices hold the same characters?
fn str_eq_chars(a: &str, b: &str) -> (r: bool)
    ensures
        r == (a@ == b@),
{
    let na = a.unicode_len();
    let nb = b.unicode_len();
    if na != nb {
        return false;
    }
    let mut k: usize = 0;
    while k < na
        invariant
            na == a@.len(),
            nb == b@.len(),
            na == nb,
            k <= na,
            forall|m: int| 0 <= m < k ==> a@[m] == b@[m],
        decreases na - k,
    {
        if a.get_char(k) != b.get_char(k) {
            return false;
        }
        k = k + 1;
    }
    proof {
        assert(a@ =~= b@);
    }
    true
}

impl Token {
    /// Does this token only separate other tokens on the page?
    pub fn is_whitespace(&self) -> (r: bool)
        ensures
            r == token_is_ws(self@),
    {
        match self {
            Token::NewLine => true,
            Token::Whitespace(_) => true,
            _ => false,
        }
    }

    /// The number of source characters this token was classified from.
    pub fn len(&self) -> (r: usize)
        ensures
            r as int == token_len(self@),
    {
        match self {
            Token::NewLine => 1,
            Token::Whitespace(spaces) => *spaces,
            Token::Null => 4,
            Token::Bool(b) => if *b {
                4
            } else {
                5
            },
            Token::String(v) => v.as_str().unicode_len(),
            Token::Number(v) => v.as_str().unicode_len(),
            Token::Punctuation(_) => 1,
        }
    }

    /// Classifies one raw unit, or reports that it matches no token shape.
    fn try_from_token(token: &str) -> (r: Option<Token>)
        ensures
            match r {
                Some(t) => classify(token@) == Some(t@),
                None => classify(token@) is None,
            },
    {
        let n = token.unicode_len();
        if n == 0 {
            return None;
        }
        let c = token.get_char(0);
        if n == 1 && is_punctuation(c) {
            return Some(Token::Punctuation(c));
        }
        if c == ' ' {
            return Some(Token::Whitespace(n));
        }
        if n == 1 && c == '\n' {
            return Some(Token::NewLine);
        }
        if str_eq_chars(token, "null") {
            proof {
                reveal_strlit("null");
                assert(token@ =~= seq!['n', 'u', 'l', 'l']);
            }
            return Some(Token::Null);
        }
        if str_eq_chars(token, "false") {
            proof {
                reveal_strlit("false");
                assert(token@ =~= seq!['f', 'a', 'l', 's', 'e']);
            }
            return Some(Token::Bool(false));
        }
        if str_eq_chars(token, "true") {
            proof {
                reveal_strlit("true");
                assert(token@ =~= seq!['t', 'r', 'u', 'e']);
            }
            return Some(Token::Bool(true));
        }
        proof {
            reveal_strlit("null");
            reveal_strlit("false");
            reveal_strlit("true");
            assert("null"@ =~= seq!['n', 'u', 'l', 'l']);
            assert("false"@ =~= seq!['f', 'a', 'l', 's', 'e']);
            assert("true"@ =~= seq!['t', 'r', 'u', 'e']);
        }
        if c == '"' {
            return Some(Token::String(token.to_owned()));
        }
        if c == '-' || ('0' <= c && c <= '9') {
            return Some(Token::Number(token.to_owned()));
        }
        None
    }
}

/// The classification outcome for every unit of `us`, in order: a token,
/// or a lexical failure carrying the unit's start position.
pub open spec fn lex_results(us: Seq<Seq<char>>) -> Seq<Result<TokenModel, ErrorModel>> {
    Seq::new(
        us.len(),
        |k: int|
            match classify(us[k]) {
                Some(t) => Ok(t),
                None => Err(
                    ErrorModel {
                        code: ErrorCode::ExpectedToken,
                        line: unit_line(us, k),
                        col: unit_col(us, k),
                    },
                ),
            },
    )
}

/// The tokens among a sequence of classification outcomes, in order.
pub open spec fn ok_tokens(rs: Seq<Result<TokenModel, ErrorModel>>) -> Seq<TokenModel>
    decreases rs.len(),
{
    if rs.len() == 0 {
        seq![]
    } else {
        ok_tokens(rs.drop_last()) + match rs.last() {
            Ok(t) => seq![t],
            Err(_) => seq![],
        }
    }
}

/// The lexical failures among a sequence of classification outcomes.
pub open spec fn err_list(rs: Seq<Result<TokenModel, ErrorModel>>) -> Seq<ErrorModel>
    decreases rs.len(),
{
    if rs.len() == 0 {
        seq![]
    } else {
        err_list(rs.drop_last()) + match rs.last() {
            Ok(_) => seq![],
            Err(e) => seq![e],
        }
    }
}

/// What classifying a whole text yields: its tokens when every unit is
/// recognized, otherwise all lexical failures in source order.
pub open spec fn spec_try_from_json(s: Seq<char>) -> Result<Seq<TokenModel>, Seq<ErrorModel>> {
    let rs = lex_results(raw_units(s));
    if err_list(rs).len() == 0 {
        Ok(ok_tokens(rs))
    } else {
        Err(err_list(rs))
    }
}

/// The model of one handed-out classification outcome.
pub open spec fn res_view(r: Result<Token, Error>) -> Result<TokenModel, ErrorModel> {
    match r {
        Ok(t) => Ok(t@),
        Err(e) => Err(e@),
    }
}

/// The models of a sequence of handed-out classification outcomes.
pub open spec fn results_view(v: Seq<Result<Token, Error>>) -> Seq<
    Result<TokenModel, ErrorModel>,
> {
    Seq::new(v.len(), |k: int| res_view(v[k]))
}

/// One scanned unit: its classification outcome and the line/column at
/// which the unit starts.
struct Scanned {
    res: Result<Token, Error>,
    line: usize,
    col: usize,
}

/// A lazily filled, peekable token source: a single forward character
/// cursor feeds an internal first-in-first-out queue of classification
/// outcomes, refilled only when a caller asks to see further ahead than
/// what has been scanned.
pub struct Reader {
    chars: Vec<char>,
    pos: usize,
    scanned: Vec<Scanned>,
    consumed: usize,
    line: usize,
    col: usize,
}

impl Reader {
    /// The characters being read.
    pub closed spec fn input(&self) -> Seq<char> {
        self.chars@
    }

    /// How many classification outcomes have been handed out by `next`.
    pub closed spec fn consumed_units(&self) -> int {
        self.consumed as int
    }

    /// Every classification outcome this reader will ever produce, in
    /// order: the classified units of the whole input, a lexical failure
    /// standing wherever a unit matches no token shape.
    pub open spec fn results(&self) -> Seq<Result<TokenModel, ErrorModel>> {
        lex_results(raw_units(self.input()))
    }

    /// How many units the cursor has scanned (consumed ones included).
    pub closed spec fn scanned_count(&self) -> int {
        self.scanned@.len() as int
    }

    /// The reader's internal consistency: the queue holds exactly the
    /// classified units between the consumed and scan frontiers, each with
    /// its start position, and the character cursor stands where the next
    /// unscanned unit begins.
    pub closed spec fn wf(&self) -> bool {
        &&& self.chars@.len() < usize::MAX
        &&& self.consumed <= self.scanned@.len()
        &&& self.pos <= self.chars@.len()
        &&& self.scanned@.len() <= raw_units(self.chars@).len()
        &&& units_from(self.chars@, self.pos as int) == raw_units(self.chars@).skip(
            self.scanned@.len() as int,
        )
        &&& forall|k: int|
            0 <= k < self.scanned@.len() ==> #[trigger] res_view(self.scanned@[k].res)
                == lex_results(raw_units(self.chars@))[k]
        &&& forall|k: int|
            0 <= k < self.scanned@.len() ==> (#[trigger] self.scanned@[k].line) as int
                == unit_line(raw_units(self.chars@), k)
        &&& forall|k: int|
            0 <= k < self.scanned@.len() ==> (#[trigger] self.scanned@[k].col) as int == unit_col(
                raw_units(self.chars@),
                k,
            )
        &&& self.line as int == unit_line(raw_units(self.chars@), self.scanned@.len() as int)
        &&& self.col as int == unit_col(raw_units(self.chars@), self.scanned@.len() as int)
    }

    /// A fresh reader over `possible_json`, nothing scanned or consumed.
    pub fn new(possible_json: &str) -> (r: Reader)
        requires
            possible_json@.len() < usize::MAX,
        ensures
            r.wf(),
            r.input() == possible_json@,
            r.consumed_units() == 0,
    {
        let chars = char_vec(possible_json);
        let r = Reader {
            chars,
            pos: 0,
            scanned: Vec::new(),
            consumed: 0,
            line: 1,
            col: 1,
        };
        proof {
            assert(units_from(r.chars@, 0) =~= raw_units(r.chars@).skip(0));
        }
        r
    }

    /// Scans further units until at least `num_tokens` are queued beyond
    /// the consumed frontier, or the input is exhausted.
    fn read_in(&mut self, num_tokens: usize)
        requires
            old(self).wf(),
        ensures
            final(self).wf(),
            final(self).input() == old(self).input(),
            final(self).consumed_units() == old(self).consumed_units(),
            final(self).scanned_count() >= old(self).scanned_count(),
            final(self).scanned_count() >= if old(self).consumed_units() + num_tokens
                <= final(self).results().len() {
                old(self).consumed_units() + num_tokens
            } else {
                final(self).results().len() as int
            },
    {
        let ghost s = self.chars@;
        let ghost us = raw_units(s);
        proof {
            lemma_units_len_sum(s, 0);
            lemma_units_nonempty(s, 0);
            lemma_unit_count_le_sum(us);
        }
        loop
            invariant
                self.wf(),
                self.chars@ == s,
                us == raw_units(s),
                self.consumed_units() == old(self).consumed_units(),
                self.scanned_count() >= old(self).scanned_count(),
                sum_lens(us) == s.len(),
                s.len() < usize::MAX,
                us.len() <= sum_lens(us),
                forall|m: int| 0 <= m < us.len() ==> #[trigger] us[m].len() > 0,
            ensures
                self.wf(),
                self.chars@ == s,
                self.consumed_units() == old(self).consumed_units(),
                self.scanned_count() >= old(self).scanned_count(),
                self.scanned_count() >= if old(self).consumed_units() + num_tokens <= us.len() {
                    old(self).consumed_units() + num_tokens
                } else {
                    us.len() as int
                },
            decreases s.len() - self.pos,
        {
            if self.scanned.len() - self.consumed >= num_tokens {
                break ;
            }
            if self.pos >= self.chars.len() {
                proof {
                    assert(units_from(s, self.pos as int) =~= Seq::<Seq<char>>::empty());
                    assert(us.skip(self.scanned@.len() as int).len() == 0);
                }
                break ;
            }
            let ghost k = self.scanned@.len() as int;
            proof {
                assert(units_from(s, self.pos as int) == seq![unit_at(s, self.pos as int)]
                    + units_from(s, unit_end(s, self.pos as int)));
                assert(us.skip(k).len() >= 1);
                assert(k < us.len());
                assert(us.skip(k)[0] == us[k]);
                assert(units_from(s, self.pos as int)[0] == unit_at(s, self.pos as int));
                lemma_sum_lens_take_step(us, k);
                lemma_sum_lens_take_le(us, k + 1);
                lemma_unit_col_bound(us, k);
                lemma_unit_line_bound(us, k);
            }
            let (u, next_pos) = scan_unit(&self.chars, self.pos);
            let res: Result<Token, Error> = match Token::try_from_token(u.as_str()) {
                Some(t) => Ok(t),
                None => Err(Error::new(ErrorCode::ExpectedToken, self.line, self.col)),
            };
            let ulen = u.as_str().unicode_len();
            let first = u.as_str().get_char(0);
            let ghost pre = self.scanned@;
            self.scanned.push(Scanned { res, line: self.line, col: self.col });
            if ulen == 1 && (first == '\n' || first == '\r') {
                self.line = self.line + 1;
                self.col = 1;
            } else {
                proof {
                    assert(!is_newline_unit(us[k]));
                }
                self.col = self.col + ulen;
            }
            self.pos = next_pos;
            proof {
                assert(us.skip(k).drop_first() =~= us.skip(k + 1));
                assert(units_from(s, self.pos as int) =~= us.skip(k + 1));
                assert forall|m: int| 0 <= m < self.scanned@.len() implies #[trigger] res_view(
                    self.scanned@[m].res,
                ) == lex_results(us)[m] by {
                    if m < k {
                        assert(self.scanned@[m] == pre[m]);
                    }
                }
            }
        }
    }

    /// Returns and consumes the next `num_tokens` classification outcomes
    /// — fewer when the input runs out first.
    pub fn next(&mut self, num_tokens: usize) -> (r: Vec<Result<Token, Error>>)
        requires
            old(self).wf(),
        ensures
            final(self).wf(),
            final(self).input() == old(self).input(),
            r@.len() == if old(self).consumed_units() + num_tokens
                <= final(self).results().len() {
                num_tokens as int
            } else {
                final(self).results().len() - old(self).consumed_units()
            },
            final(self).consumed_units() == old(self).consumed_units() + r@.len(),
            results_view(r@) == final(self).results().subrange(
                old(self).consumed_units(),
                old(self).consumed_units() + r@.len(),
            ),
    {
        let r = self.peek(num_tokens);
        proof {
            lemma_units_len_sum(self.chars@, 0);
            lemma_units_nonempty(self.chars@, 0);
            lemma_unit_count_le_sum(raw_units(self.chars@));
        }
        self.consumed = self.consumed + r.len();
        r
    }

    /// Returns the next `num_tokens` classification outcomes without
    /// consuming them — fewer when the input runs out first.
    pub fn peek(&mut self, num_tokens: usize) -> (r: Vec<Result<Token, Error>>)
        requires
            old(self).wf(),
        ensures
            final(self).wf(),
            final(self).input() == old(self).input(),
            final(self).consumed_units() == old(self).consumed_units(),
            final(self).scanned_count() >= final(self).consumed_units() + r@.len(),
            r@.len() == if old(self).consumed_units() + num_tokens
                <= final(self).results().len() {
                num_tokens as int
            } else {
                final(self).results().len() - old(self).consumed_units()
            },
            results_view(r@) == final(self).results().subrange(
                old(self).consumed_units(),
                old(self).consumed_units() + r@.len(),
            ),
    {
        self.read_in(num_tokens);
        let avail = self.scanned.len() - self.consumed;
        let take = if avail < num_tokens {
            avail
        } else {
            num_tokens
        };
        let mut out = Vec::<Result<Token, Error>>::new();
        let mut k: usize = 0;
        while k < take
            invariant
                self.wf(),
                self.scanned@.len() <= usize::MAX,
                self.consumed + take <= self.scanned@.len(),
                k <= take,
                out@.len() == k as int,
                results_view(out@) == self.results().subrange(
                    self.consumed_units(),
                    self.consumed_units() + k,
                ),
            decreases take - k,
        {
            let idx = self.consumed + k;
            let ghost pre = out@;
            let item: Result<Token, Error> = match &self.scanned[idx].res {
                Ok(t) => Ok(t.clone()),
                Err(e) => Err(*e),
            };
            proof {
                assert(res_view(item) == res_view(self.scanned@[idx as int].res));
            }
            out.push(item);
            proof {
                assert(results_view(out@) =~= self.results().subrange(
                    self.consumed_units(),
                    self.consumed_units() + k + 1,
                ));
            }
            k = k + 1;
        }
        out
    }

    /// Packages a diagnostic code with the reader's current line/column:
    /// the position at which the next unconsumed unit starts (the end of
    /// the input once everything is consumed).
    pub fn create_error(&self, code: ErrorCode) -> (r: Error)
        requires
            self.wf(),
        ensures
            r@ == (ErrorModel {
                code,
                line: unit_line(raw_units(self.input()), self.consumed_units()),
                col: unit_col(raw_units(self.input()), self.consumed_units()),
            }),
    {
        if self.consumed < self.scanned.len() {
            let at = &self.scanned[self.consumed];
            Error::new(code, at.line, at.col)
        } else {
            Error::new(code, self.line, self.col)
        }
    }
}

impl Token {
    /// Splits text into units and classifies each one: all tokens when the
    /// text is lexically clean, otherwise every lexical failure with its
    /// line and column.
    pub fn try_from_json(possible_json: &str) -> (r: Result<Vec<Token>, Vec<Error>>)
        requires
            possible_json@.len() < usize::MAX,
        ensures
            match r {
                Ok(ts) => spec_try_from_json(possible_json@) == Ok::<
                    Seq<TokenModel>,
                    Seq<ErrorModel>,
                >(ts.deep_view()),
                Err(es) => spec_try_from_json(possible_json@) == Err::<
                    Seq<TokenModel>,
                    Seq<ErrorModel>,
                >(es.deep_view()) && es@.len() > 0,
            },
    {
        let units = tokenize_into_strings(possible_json);
        let ghost us = raw_units(possible_json@);
        let ghost rs = lex_results(us);
        proof {
            lemma_units_len_sum(possible_json@, 0);
            lemma_units_nonempty(possible_json@, 0);
            lemma_unit_count_le_sum(us);
        }
        let n = units.len();
        let mut tokens = Vec::<Token>::new();
        let mut errors = Vec::<Error>::new();
        let mut line: usize = 1;
        let mut col: usize = 1;
        let mut k: usize = 0;
        while k < n
            invariant
                units.deep_view() == us,
                rs == lex_results(us),
                n == us.len(),
                k <= n,
                possible_json@.len() < usize::MAX,
                sum_lens(us) == possible_json@.len(),
                forall|m: int| 0 <= m < us.len() ==> #[trigger] us[m].len() > 0,
                us.len() <= sum_lens(us),
                line as int == unit_line(us, k as int),
                col as int == unit_col(us, k as int),
                tokens.deep_view() == ok_tokens(rs.take(k as int)),
                errors.deep_view() == err_list(rs.take(k as int)),
            decreases n - k,
        {
            proof {
                assert(units.deep_view()[k as int] == us[k as int]);
                lemma_sum_lens_take_step(us, k as int);
                lemma_sum_lens_take_le(us, k as int + 1);
                lemma_unit_col_bound(us, k as int);
                lemma_unit_line_bound(us, k as int);
            }
            let u = &units[k];
            let t = Token::try_from_token(u.as_str());
            let ulen = u.as_str().unicode_len();
            proof {
                assert(rs.take(k + 1).drop_last() =~= rs.take(k as int));
                assert(rs.take(k + 1).last() == rs[k as int]);
            }
            let ghost pre_tokens = tokens.deep_view();
            let ghost pre_errors = errors.deep_view();
            match t {
                Some(tok) => {
                    tokens.push(tok);
                    proof {
                        assert(tokens.deep_view() =~= pre_tokens.push(tok@));
                        assert(errors.deep_view() =~= err_list(rs.take(k + 1)));
                        assert(tokens.deep_view() =~= ok_tokens(rs.take(k + 1)));
                    }
                },
                None => {
                    let e = Error::new(ErrorCode::ExpectedToken, line, col);
                    errors.push(e);
                    proof {
                        assert(errors.deep_view() =~= pre_errors.push(e@));
                        assert(tokens.deep_view() =~= ok_tokens(rs.take(k + 1)));
                        assert(errors.deep_view() =~= err_list(rs.take(k + 1)));
                    }
                },
            }
            let first = u.as_str().get_char(0);
            if ulen == 1 && (first == '\n' || first == '\r') {
                line = line + 1;
                col = 1;
            } else {
                proof {
                    assert(!is_newline_unit(us[k as int]));
                }
                col = col + ulen;
            }
            k = k + 1;
        }
        proof {
            assert(rs.take(n as int) =~= rs);
        }
        if errors.len() == 0 {
            proof {
                assert(errors.deep_view().len() == 0);
            }
            Ok(tokens)
        } else {
            proof {
                assert(errors.deep_view().len() > 0);
            }
            Err(errors)
        }
    }
}

} // verus!
