//! The value grammar: a recursive-descent parser over the token sequence
//! with resynchronizing error recovery.
//!
//! Each production is specified by a function from the token sequence and
//! a start index to the number of tokens it consumes, the diagnostics it
//! emits in order, and the value it produces, if any.  The executable
//! parser is proved to follow these functions exactly.

use vstd::prelude::*;

use crate::errors::{Error, ErrorCode, ErrorModel};
use crate::lexical::{
    lex_results, ok_tokens, spec_try_from_json, token_is_ws, token_len, Token, TokenModel,
};
use crate::number::number_ok;

verus! {

broadcast use vstd::std_specs::vec::axiom_vec_index_decreases, vstd::std_specs::vec::axiom_vec_decreases_to_view, vstd::seq::group_seq_axioms;

/// The mathematical shape of a parsed value.  A number keeps the raw span
/// it was decoded from; an object is an unordered mapping, so member order
/// is deliberately not represented.
pub enum ValueModel {
    Null,
    Bool(bool),
    Number(Seq<char>),
    String(Seq<char>),
    Array(Seq<ValueModel>),
    Object(Map<Seq<char>, ValueModel>),
}

/// Line on which token `k` starts, counting from 1: a line break token
/// moves to the next line, every other token stays.
pub open spec fn tline(ts: Seq<TokenModel>, k: int) -> int
    decreases k,
{
    if k <= 0 {
        1
    } else {
        tline(ts, k - 1) + if ts[k - 1] is NewLine {
            1int
        } else {
            0int
        }
    }
}

/// Column at which token `k` starts, counting from 1: a line break resets
/// the column, every other token advances it by its own length.
pub open spec fn tcol(ts: Seq<TokenModel>, k: int) -> int
    decreases k,
{
    if k <= 0 {
        1
    } else if ts[k - 1] is NewLine {
        1
    } else {
        tcol(ts, k - 1) + token_len(ts[k - 1])
    }
}

/// A diagnostic positioned at the start of token `k`.
pub open spec fn err_at(ts: Seq<TokenModel>, k: int, code: ErrorCode) -> ErrorModel {
    ErrorModel { code, line: tline(ts, k), col: tcol(ts, k) }
}

/// First index at or after `i` that does not hold a whitespace token.
pub open spec fn ws_end(ts: Seq<TokenModel>, i: int) -> int
    decreases ts.len() - i,
{
    if 0 <= i < ts.len() && token_is_ws(ts[i]) {
        ws_end(ts, i + 1)
    } else {
        i
    }
}

proof fn lemma_ws_end_bounds(ts: Seq<TokenModel>, i: int)
    ensures
        i <= ws_end(ts, i),
        i <= ts.len() ==> ws_end(ts, i) <= ts.len(),
        0 <= i <= ts.len() && ws_end(ts, i) < ts.len() ==> !token_is_ws(ts[ws_end(ts, i)]),
    decreases ts.len() - i,
{
    if 0 <= i < ts.len() && token_is_ws(ts[i]) {
        lemma_ws_end_bounds(ts, i + 1);
    }
}

/// The index `n` tokens past `i`, kept within the sequence and never
/// before `i`.
pub open spec fn adv(ts: Seq<TokenModel>, i: int, n: int) -> int {
    if n <= 0 {
        i
    } else if i + n >= ts.len() {
        if i >= ts.len() {
            i
        } else {
            ts.len() as int
        }
    } else {
        i + n
    }
}

/// How many quote characters `u` holds from `i` on, not counting a quote
/// escaped by a backslash directly before it.
pub open spec fn unescaped_quotes(u: Seq<char>, i: int) -> int
    decreases u.len() - i,
{
    if 0 <= i < u.len() {
        if u[i] == '\\' && i + 1 < u.len() && u[i + 1] == '"' {
            unescaped_quotes(u, i + 2)
        } else if u[i] == '"' {
            unescaped_quotes(u, i + 1) + 1
        } else {
            unescaped_quotes(u, i + 1)
        }
    } else {
        0
    }
}

/// A string span decodes only when its exactly two unescaped quotes are
/// its first and last characters.
pub open spec fn string_valid(u: Seq<char>) -> bool {
    u.len() > 1 && unescaped_quotes(u, 0) == 2 && u.last() == '"'
}

/// The text of a string span without its surrounding quotes.  Escape
/// sequences are left as written; escape-awareness only guards
/// tokenization.
pub open spec fn string_content(u: Seq<char>) -> Seq<char> {
    u.subrange(1, u.len() - 1)
}

/// The separator-or-end decision after one element or member, entered
/// after skipping whitespace: `(tokens consumed, diagnostics, loop ends)`.
///
/// Exhausted input, or a lone trailing comma, ends the structure with one
/// end-of-file diagnostic.  A comma directly before the closing delimiter
/// is a missing element, reported at the delimiter.  A bare comma with
/// more content continues the loop; the closing delimiter alone ends it.
/// Anything else is end-of-file territory: reported, not consumed.
pub open spec fn sp_sep(ts: Seq<TokenModel>, i: int, endc: char) -> (int, Seq<ErrorModel>, bool) {
    let j = ws_end(ts, i);
    if j >= ts.len() {
        (ts.len() - i, seq![err_at(ts, j, ErrorCode::EndOfFileWhileParsing(endc))], true)
    } else if ts[j] == TokenModel::Punctuation(',') && j + 1 >= ts.len() {
        (ts.len() - i, seq![err_at(ts, j, ErrorCode::EndOfFileWhileParsing(endc))], true)
    } else if ts[j] == TokenModel::Punctuation(',') && ts[j + 1] == TokenModel::Punctuation(endc) {
        (j + 2 - i, seq![err_at(ts, j + 1, ErrorCode::ExpectedToken)], true)
    } else if ts[j] == TokenModel::Punctuation(',') {
        (j + 1 - i, seq![], false)
    } else if ts[j] == TokenModel::Punctuation(endc) {
        (j + 1 - i, seq![], true)
    } else {
        (j - i, seq![err_at(ts, j, ErrorCode::EndOfFileWhileParsing(endc))], true)
    }
}

/// One value, after skipping whitespace: a literal is decoded, `{` and `[`
/// open their productions, and stray punctuation where a value should
/// stand is reported and left unconsumed.
pub open spec fn sp_value(ts: Seq<TokenModel>, i: int) -> (int, Seq<ErrorModel>, Option<
    ValueModel,
>)
    decreases ts.len() - i, 1int,
        when 0 <= i <= ts.len()
        via sp_value_dec
{
    let j = ws_end(ts, i);
    if j >= ts.len() {
        (j - i, seq![err_at(ts, j, ErrorCode::EndOfFileWhileParsingValue)], None::<ValueModel>)
    } else {
        match ts[j] {
            TokenModel::Null => (j + 1 - i, seq![], Some(ValueModel::Null)),
            TokenModel::Bool(b) => (j + 1 - i, seq![], Some(ValueModel::Bool(b))),
            TokenModel::String(u) => if string_valid(u) {
                (j + 1 - i, seq![], Some(ValueModel::String(string_content(u))))
            } else {
                (j + 1 - i, seq![err_at(ts, j, ErrorCode::ExpectedDoubleQuote)], None)
            },
            TokenModel::Number(u) => if number_ok(u) {
                (j + 1 - i, seq![], Some(ValueModel::Number(u)))
            } else {
                (j + 1 - i, seq![err_at(ts, j, ErrorCode::InvalidNumber)], None)
            },
            TokenModel::Punctuation(c) => if c == '{' {
                let r = sp_object(ts, j);
                (j - i + r.0, r.1, r.2)
            } else if c == '[' {
                let r = sp_array(ts, j);
                (j - i + r.0, r.1, r.2)
            } else {
                (j - i, seq![err_at(ts, j, ErrorCode::ExpectedToken)], None)
            },
            _ => (j - i, seq![], None),
        }
    }
}

#[via_fn]
proof fn sp_value_dec(ts: Seq<TokenModel>, i: int) {
    lemma_ws_end_bounds(ts, i);
}

/// An array: `[]` is recognized directly, an unterminated `[` at end of
/// input is one end-of-file diagnostic, and anything else runs the element
/// loop.
pub open spec fn sp_array(ts: Seq<TokenModel>, i: int) -> (int, Seq<ErrorModel>, Option<
    ValueModel,
>)
    decreases ts.len() - i, 0int,
        when 0 <= i <= ts.len()
{
    if i < ts.len() && ts[i] == TokenModel::Punctuation('[') {
        if i + 1 >= ts.len() {
            (ts.len() - i, seq![err_at(ts, i + 1, ErrorCode::EndOfFileWhileParsing(']'))], None)
        } else if ts[i + 1] == TokenModel::Punctuation(']') {
            (2, seq![], Some(ValueModel::Array(seq![])))
        } else {
            let r = sp_elements(ts, i + 1);
            (
                1 + r.0,
                r.1,
                match r.2 {
                    Some(es) => Some(ValueModel::Array(es)),
                    None => None,
                },
            )
        }
    } else {
        (0, seq![], None)
    }
}

/// The element list of an array that is neither empty nor a bare `[`.
pub open spec fn sp_elements(ts: Seq<TokenModel>, i: int) -> (int, Seq<ErrorModel>, Option<
    Seq<ValueModel>,
>)
    decreases ts.len() - i, 4int,
        when 0 <= i <= ts.len()
{
    if i >= ts.len() {
        (0, seq![err_at(ts, i, ErrorCode::EndOfFileWhileParsing(']'))], None)
    } else {
        let r = sp_elements_loop(ts, i, seq![]);
        (r.0, r.1, Some(r.2))
    }
}

/// The element loop: parse one value, resynchronize, then decide between
/// separator and end; a continuing separator consumes its comma and loops.
pub open spec fn sp_elements_loop(ts: Seq<TokenModel>, i: int, acc: Seq<ValueModel>) -> (
    int,
    Seq<ErrorModel>,
    Seq<ValueModel>,
)
    decreases ts.len() - i, 3int,
        when 0 <= i <= ts.len()
        via sp_elements_loop_dec
{
    let j0 = ws_end(ts, i);
    let rv = sp_value(ts, j0);
    let i1 = adv(ts, j0, rv.0);
    let acc1 = match rv.2 {
        Some(v) => acc.push(v),
        None => acc,
    };
    let ru = sp_until(ts, i1, ']', false);
    let i2 = adv(ts, i1, ru.0);
    let rs = sp_sep(ts, i2, ']');
    let i3 = adv(ts, i2, rs.0);
    if rs.2 {
        (i3 - i, rv.1 + ru.1 + rs.1, acc1)
    } else {
        let rl = sp_elements_loop(ts, i3, acc1);
        (i3 - i + rl.0, rv.1 + ru.1 + rs.1 + rl.1, rl.2)
    }
}

#[via_fn]
proof fn sp_elements_loop_dec(ts: Seq<TokenModel>, i: int, acc: Seq<ValueModel>) {
    assert forall|x: int| #![trigger ws_end(ts, x)]
        x <= ws_end(ts, x) && (x <= ts.len() ==> ws_end(ts, x) <= ts.len()) by {
        lemma_ws_end_bounds(ts, x);
    }
}

/// An object: `{}` is recognized directly, an unterminated `{` at end of
/// input is one end-of-file diagnostic, and anything else runs the member
/// loop.
pub open spec fn sp_object(ts: Seq<TokenModel>, i: int) -> (int, Seq<ErrorModel>, Option<
    ValueModel,
>)
    decreases ts.len() - i, 0int,
        when 0 <= i <= ts.len()
{
    if i < ts.len() && ts[i] == TokenModel::Punctuation('{') {
        if i + 1 >= ts.len() {
            (ts.len() - i, seq![err_at(ts, i + 1, ErrorCode::EndOfFileWhileParsing('}'))], None)
        } else if ts[i + 1] == TokenModel::Punctuation('}') {
            (2, seq![], Some(ValueModel::Object(Map::empty())))
        } else {
            let r = sp_members(ts, i + 1);
            (
                1 + r.0,
                r.1,
                match r.2 {
                    Some(ms) => Some(ValueModel::Object(ms)),
                    None => None,
                },
            )
        }
    } else {
        (0, seq![], None)
    }
}

/// The member list of an object that is neither empty nor a bare `{`.
pub open spec fn sp_members(ts: Seq<TokenModel>, i: int) -> (int, Seq<ErrorModel>, Option<
    Map<Seq<char>, ValueModel>,
>)
    decreases ts.len() - i, 4int,
        when 0 <= i <= ts.len()
{
    if i >= ts.len() {
        (0, seq![err_at(ts, i, ErrorCode::EndOfFileWhileParsing('}'))], None)
    } else {
        let r = sp_members_loop(ts, i, Map::empty());
        (r.0, r.1, Some(r.2))
    }
}

/// One member, starting at `j0`: a string key and `:` is the only
/// well-formed shape; a non-string key or a lone `:` is reported but the
/// following value is still parsed and discarded; a key with no `:`
/// contributes nothing.  The result is `(tokens consumed, diagnostics,
/// members so far)`; a later member with the same key overwrites the
/// earlier one.
pub open spec fn sp_member(
    ts: Seq<TokenModel>,
    j0: int,
    acc: Map<Seq<char>, ValueModel>,
) -> (int, Seq<ErrorModel>, Map<Seq<char>, ValueModel>)
    decreases ts.len() - j0, 2int,
        when 0 <= j0 <= ts.len()
{
    if j0 >= ts.len() {
        (0, seq![], acc)
    } else {
        match ts[j0] {
            TokenModel::String(u) => if j0 + 1 < ts.len() && ts[j0 + 1]
                == TokenModel::Punctuation(':') {
                let rv = sp_value(ts, j0 + 2);
                let i2 = adv(ts, j0 + 2, rv.0);
                if string_valid(u) {
                    match rv.2 {
                        Some(v) => (i2 - j0, rv.1, acc.insert(string_content(u), v)),
                        None => (i2 - j0, rv.1, acc),
                    }
                } else {
                    (i2 - j0, seq![err_at(ts, j0 + 2, ErrorCode::ExpectedDoubleQuote)] + rv.1, acc)
                }
            } else {
                (1, seq![err_at(ts, j0, ErrorCode::ExpectedColon)], acc)
            },
            _ => if j0 + 1 < ts.len() && ts[j0 + 1] == TokenModel::Punctuation(':') {
                let rv = sp_value(ts, j0 + 2);
                let i2 = adv(ts, j0 + 2, rv.0);
                (i2 - j0, seq![err_at(ts, j0, ErrorCode::KeyMustBeAString)] + rv.1, acc)
            } else if ts[j0] == TokenModel::Punctuation(':') {
                let rv = sp_value(ts, j0 + 1);
                let i2 = adv(ts, j0 + 1, rv.0);
                (i2 - j0, seq![err_at(ts, j0, ErrorCode::KeyMustBeAString)] + rv.1, acc)
            } else {
                (1, seq![err_at(ts, j0, ErrorCode::KeyMustBeAString)], acc)
            },
        }
    }
}

/// The member loop: parse one member, resynchronize, then decide between
/// separator and end; a continuing separator consumes its comma and loops.
pub open spec fn sp_members_loop(
    ts: Seq<TokenModel>,
    i: int,
    acc: Map<Seq<char>, ValueModel>,
) -> (int, Seq<ErrorModel>, Map<Seq<char>, ValueModel>)
    decreases ts.len() - i, 3int,
        when 0 <= i <= ts.len()
        via sp_members_loop_dec
{
    let j0 = ws_end(ts, i);
    let rm = sp_member(ts, j0, acc);
    let i1 = adv(ts, j0, rm.0);
    let acc1 = rm.2;
    let ru = sp_until(ts, i1, '}', false);
    let i2 = adv(ts, i1, ru.0);
    let rs = sp_sep(ts, i2, '}');
    let i3 = adv(ts, i2, rs.0);
    if rs.2 {
        (i3 - i, rm.1 + ru.1 + rs.1, acc1)
    } else {
        let rl = sp_members_loop(ts, i3, acc1);
        (i3 - i + rl.0, rm.1 + ru.1 + rs.1 + rl.1, rl.2)
    }
}

#[via_fn]
proof fn sp_members_loop_dec(ts: Seq<TokenModel>, i: int, acc: Map<Seq<char>, ValueModel>) {
    assert forall|x: int| #![trigger ws_end(ts, x)]
        x <= ws_end(ts, x) && (x <= ts.len() ==> ws_end(ts, x) <= ts.len()) by {
        lemma_ws_end_bounds(ts, x);
    }
}

/// Resynchronization: consume tokens that are neither a comma nor the
/// closing delimiter.  A bare `:` still has the value after it parsed and
/// discarded.  One whole skipped run yields exactly one
/// `ExpectedCommaOrEndWhileParsing` diagnostic, at the point where
/// skipping stopped.
pub open spec fn sp_until(ts: Seq<TokenModel>, i: int, endc: char, seen: bool) -> (
    int,
    Seq<ErrorModel>,
)
    decreases ts.len() - i, 2int,
        when 0 <= i <= ts.len()
        via sp_until_dec
{
    let j = ws_end(ts, i);
    if j >= ts.len() || ts[j] == TokenModel::Punctuation(',') || ts[j] == TokenModel::Punctuation(
        endc,
    ) {
        (
            j - i,
            if seen {
                seq![err_at(ts, j, ErrorCode::ExpectedCommaOrEndWhileParsing(endc))]
            } else {
                seq![]
            },
        )
    } else if ts[j] == TokenModel::Punctuation(':') {
        let rv = sp_value(ts, j + 1);
        let i1 = adv(ts, j + 1, rv.0);
        let rr = sp_until(ts, i1, endc, seen);
        (i1 - i + rr.0, rv.1 + rr.1)
    } else {
        let rr = sp_until(ts, j + 1, endc, true);
        (j + 1 - i + rr.0, rr.1)
    }
}

#[via_fn]
proof fn sp_until_dec(ts: Seq<TokenModel>, i: int, endc: char, seen: bool) {
    lemma_ws_end_bounds(ts, i);
}

/// Is everything from `i` on whitespace?
pub open spec fn all_ws_from(ts: Seq<TokenModel>, i: int) -> bool {
    forall|k: int| i <= k < ts.len() ==> #[trigger] token_is_ws(ts[k])
}

/// The whole-stream parse: one value, then only whitespace may remain.
/// Any diagnostics make the outcome `Err` with exactly that list; trailing
/// content after a clean value is a single `EndOfFileExpected`.
pub open spec fn sp_parse_tokens(ts: Seq<TokenModel>) -> Result<ValueModel, Seq<ErrorModel>> {
    let r = sp_value(ts, 0);
    let i1 = adv(ts, 0, r.0);
    if r.1.len() > 0 {
        Err(r.1)
    } else {
        match r.2 {
            Some(v) => if all_ws_from(ts, i1) {
                Ok(v)
            } else {
                Err(seq![err_at(ts, i1, ErrorCode::EndOfFileExpected)])
            },
            None => Err(seq![err_at(ts, i1, ErrorCode::EndOfFileExpected)]),
        }
    }
}

/// What parsing a whole text yields: lexical failures alone when there are
/// any, otherwise the token-stream parse.
pub open spec fn sp_parse(s: Seq<char>) -> Result<ValueModel, Seq<ErrorModel>> {
    match spec_try_from_json(s) {
        Err(es) => Err(es),
        Ok(ts) => sp_parse_tokens(ts),
    }
}

/// A parse that does not produce a value carries at least one diagnostic:
/// the diagnostic list of a failed outcome is never empty.
pub proof fn lemma_failed_parse_reports(s: Seq<char>)
    ensures
        sp_parse(s) matches Err(es) ==> es.len() > 0,
{
}

/// Parsing is a pure function of the input text alone: two calls on equal
/// inputs yield equal outcomes — in particular, identical diagnostic
/// lists in identical order.
pub proof fn lemma_parse_deterministic(s1: Seq<char>, s2: Seq<char>)
    requires
        s1 == s2,
    ensures
        sp_parse(s1) == sp_parse(s2),
{
}

/// The mapping described by a list of key/value pairs, a later pair
/// overwriting an earlier one with the same key.
pub open spec fn pairs_to_map(ps: Seq<(Seq<char>, ValueModel)>) -> Map<Seq<char>, ValueModel>
    decreases ps.len(),
{
    if ps.len() == 0 {
        Map::empty()
    } else {
        pairs_to_map(ps.drop_last()).insert(ps.last().0, ps.last().1)
    }
}

/// The value tree a parse produces.  A number keeps the raw span it was
/// decoded from; an object holds its members as a list of pairs whose
/// order carries no meaning — the contract below speaks only of the
/// mapping they describe.
#[derive(Debug, PartialEq)]
pub enum Value {
    Null,
    Bool(bool),
    Number(String),
    String(String),
    Array(Vec<Value>),
    Object(Vec<(String, Value)>),
}

impl View for Value {
    type V = ValueModel;

    open spec fn view(&self) -> ValueModel
        decreases self,
    {
        match self {
            Value::Null => ValueModel::Null,
            Value::Bool(b) => ValueModel::Bool(*b),
            Value::Number(raw) => ValueModel::Number(raw@),
            Value::String(text) => ValueModel::String(text@),
            Value::Array(items) => ValueModel::Array(seq_value_view(items@)),
            Value::Object(members) => ValueModel::Object(pairs_to_map(members_view(members@))),
        }
    }
}

/// The models of a sequence of values, in order.
pub open spec fn seq_value_view(items: Seq<Value>) -> Seq<ValueModel>
    decreases items,
{
    if items.len() == 0 {
        seq![]
    } else {
        seq_value_view(items.drop_last()).push(items.last().view())
    }
}

/// The pairs a member list describes, in order.
pub open spec fn members_view(ms: Seq<(String, Value)>) -> Seq<(Seq<char>, ValueModel)>
    decreases ms,
{
    if ms.len() == 0 {
        seq![]
    } else {
        members_view(ms.drop_last()).push((ms.last().0@, ms.last().1@))
    }
}

/// How `members_view` reads element by element.
proof fn lemma_members_view(ms: Seq<(String, Value)>)
    ensures
        members_view(ms).len() == ms.len(),
        forall|k: int|
            0 <= k < ms.len() ==> #[trigger] members_view(ms)[k] == (ms[k].0@, ms[k].1@),
    decreases ms.len(),
{
    if ms.len() > 0 {
        lemma_members_view(ms.drop_last());
        assert(members_view(ms) == members_view(ms.drop_last()).push(
            (ms.last().0@, ms.last().1@),
        ));
        assert(members_view(ms).len() == ms.len());
        assert forall|k: int| 0 <= k < ms.len() implies #[trigger] members_view(ms)[k] == (
        ms[k].0@, ms[k].1@) by {
            if k < ms.len() - 1 {
                assert(members_view(ms)[k] == members_view(ms.drop_last())[k]);
                assert(ms.drop_last()[k] == ms[k]);
            }
        }
    }
}

/// No two pairs share a key.
pub open spec fn keys_unique(ps: Seq<(Seq<char>, ValueModel)>) -> bool {
    forall|k1: int, k2: int|
        0 <= k1 < k2 < ps.len() ==> (#[trigger] ps[k1]).0 != (#[trigger] ps[k2]).0
}

proof fn lemma_pairs_to_map_push(ps: Seq<(Seq<char>, ValueModel)>, key: Seq<char>, v: ValueModel)
    ensures
        pairs_to_map(ps.push((key, v))) == pairs_to_map(ps).insert(key, v),
{
    assert(ps.push((key, v)).drop_last() =~= ps);
}

proof fn lemma_pairs_to_map_key(ps: Seq<(Seq<char>, ValueModel)>, key: Seq<char>)
    ensures
        pairs_to_map(ps).contains_key(key) <==> exists|k: int|
            0 <= k < ps.len() && (#[trigger] ps[k]).0 == key,
    decreases ps.len(),
{
    if ps.len() > 0 {
        lemma_pairs_to_map_key(ps.drop_last(), key);
        if pairs_to_map(ps).contains_key(key) {
            if ps.last().0 == key {
                assert(ps[ps.len() - 1].0 == key);
            } else {
                let k = choose|k: int| 0 <= k < ps.drop_last().len() && (#[trigger] ps.drop_last()[
                    k]).0 == key;
                assert(ps[k].0 == key);
            }
        }
        if exists|k: int| 0 <= k < ps.len() && (#[trigger] ps[k]).0 == key {
            let k = choose|k: int| 0 <= k < ps.len() && (#[trigger] ps[k]).0 == key;
            if k < ps.len() - 1 {
                assert(ps.drop_last()[k].0 == key);
            }
        }
    }
}

proof fn lemma_pairs_to_map_update(
    ps: Seq<(Seq<char>, ValueModel)>,
    k: int,
    v: ValueModel,
)
    requires
        keys_unique(ps),
        0 <= k < ps.len(),
    ensures
        pairs_to_map(ps.update(k, (ps[k].0, v))) == pairs_to_map(ps).insert(ps[k].0, v),
        keys_unique(ps.update(k, (ps[k].0, v))),
    decreases ps.len(),
{
    let key = ps[k].0;
    let qs = ps.update(k, (key, v));
    assert forall|k1: int, k2: int| 0 <= k1 < k2 < qs.len() implies (#[trigger] qs[k1]).0 != (
    #[trigger] qs[k2]).0 by {
        assert(ps[k1].0 != ps[k2].0);
    }
    if k == ps.len() - 1 {
        assert(qs.drop_last() =~= ps.drop_last());
        assert(qs.last() == (key, v));
        assert(pairs_to_map(ps.drop_last()).insert(key, ps.last().1).insert(key, v)
            =~= pairs_to_map(ps.drop_last()).insert(key, v));
    } else {
        assert(qs.drop_last() =~= ps.drop_last().update(k, (key, v)));
        assert(qs.last() == ps.last());
        assert(keys_unique(ps.drop_last())) by {
            assert forall|k1: int, k2: int|
                0 <= k1 < k2 < ps.drop_last().len() implies (#[trigger] ps.drop_last()[k1]).0 != (
            #[trigger] ps.drop_last()[k2]).0 by {
                assert(ps[k1].0 != ps[k2].0);
            }
        }
        assert(ps.drop_last()[k] == ps[k]);
        lemma_pairs_to_map_update(ps.drop_last(), k, v);
        let lastk = ps.last().0;
        assert(lastk != key) by {
            assert(ps[k].0 != ps[ps.len() - 1].0);
        }
        assert(pairs_to_map(ps.drop_last()).insert(key, v).insert(lastk, ps.last().1)
            =~= pairs_to_map(ps.drop_last()).insert(lastk, ps.last().1).insert(key, v));
    }
}

/// Sum of the source lengths of a token sequence.
pub open spec fn sum_token_lens(ts: Seq<TokenModel>) -> int
    decreases ts.len(),
{
    if ts.len() == 0 {
        0
    } else {
        sum_token_lens(ts.drop_last()) + token_len(ts.last())
    }
}

proof fn lemma_sum_token_lens_take_step(ts: Seq<TokenModel>, k: int)
    requires
        0 <= k < ts.len(),
    ensures
        sum_token_lens(ts.take(k + 1)) == sum_token_lens(ts.take(k)) + token_len(ts[k]),
{
    assert(ts.take(k + 1).drop_last() =~= ts.take(k));
    assert(ts.take(k + 1).last() == ts[k]);
}

proof fn lemma_sum_token_lens_take_le(ts: Seq<TokenModel>, k: int)
    requires
        0 <= k <= ts.len(),
    ensures
        sum_token_lens(ts.take(k)) <= sum_token_lens(ts),
    decreases ts.len() - k,
{
    if k < ts.len() {
        lemma_sum_token_lens_take_step(ts, k);
        lemma_sum_token_lens_take_le(ts, k + 1);
    } else {
        assert(ts.take(k) =~= ts);
    }
}

/// The column at a token index stays within one past the source length
/// consumed up to it.
proof fn lemma_tcol_bound(ts: Seq<TokenModel>, k: int)
    requires
        0 <= k <= ts.len(),
    ensures
        1 <= tcol(ts, k) <= 1 + sum_token_lens(ts.take(k)),
    decreases k,
{
    if k > 0 {
        lemma_tcol_bound(ts, k - 1);
        lemma_sum_token_lens_take_step(ts, k - 1);
    } else {
        assert(ts.take(0) =~= Seq::<TokenModel>::empty());
    }
}

proof fn lemma_tline_bound(ts: Seq<TokenModel>, k: int)
    requires
        0 <= k,
    ensures
        1 <= tline(ts, k) <= 1 + k,
    decreases k,
{
    if k > 0 {
        lemma_tline_bound(ts, k - 1);
    }
}

/// Does the executable outcome of a production stand for the specified
/// one?
pub open spec fn value_matches(r: Option<Value>, v: Option<ValueModel>) -> bool {
    match (r, v) {
        (Some(rv), Some(sv)) => rv@ == sv,
        (None, None) => true,
        _ => false,
    }
}

/// The parser: a token cursor with line/column tracking and the
/// diagnostic list of the call in progress.
pub struct Parser {
    tokens: Vec<Token>,
    pos: usize,
    line_number: usize,
    col_number: usize,
    errors: Vec<Error>,
}

impl Parser {
    /// The token sequence being parsed.
    pub closed spec fn toks(&self) -> Seq<TokenModel> {
        self.tokens.deep_view()
    }

    /// The cursor: how many tokens have been consumed.
    pub closed spec fn idx(&self) -> int {
        self.pos as int
    }

    /// The diagnostics collected so far, in order.
    pub closed spec fn errs(&self) -> Seq<ErrorModel> {
        self.errors.deep_view()
    }

    /// The parser's internal consistency: the cursor is in range, the
    /// tracked line and column are the position folds at the cursor, and
    /// the source is small enough for column arithmetic to stay in bounds.
    pub closed spec fn wf(&self) -> bool {
        &&& self.pos <= self.tokens@.len()
        &&& self.tokens@.len() < usize::MAX
        &&& sum_token_lens(self.toks()) < usize::MAX
        &&& self.line_number as int == tline(self.toks(), self.idx())
        &&& self.col_number as int == tcol(self.toks(), self.idx())
    }

    /// Consumes whitespace and line-break tokens, tracking position.
    fn parse_whitespace(&mut self)
        requires
            old(self).wf(),
        ensures
            final(self).wf(),
            final(self).toks() == old(self).toks(),
            final(self).errs() == old(self).errs(),
            final(self).idx() == ws_end(old(self).toks(), old(self).idx()),
    {
        let ghost ts = self.toks();
        let ghost i0 = self.idx();
        let ghost es = self.errs();
        loop
            invariant
                self.wf(),
                self.toks() == ts,
                self.errs() == es,
                i0 <= self.idx(),
                ws_end(ts, i0) == ws_end(ts, self.idx()),
            ensures
                self.wf(),
                self.toks() == ts,
                self.errs() == es,
                self.idx() == ws_end(ts, i0),
            decreases ts.len() - self.idx(),
        {
            if self.pos >= self.tokens.len() {
                break ;
            }
            proof {
                assert(self.toks()[self.pos as int] == self.tokens@[self.pos as int]@);
                lemma_tcol_bound(ts, self.idx());
                lemma_sum_token_lens_take_step(ts, self.idx());
                lemma_sum_token_lens_take_le(ts, self.idx() + 1);
                lemma_tline_bound(ts, self.idx());
            }
            match &self.tokens[self.pos] {
                Token::NewLine => {
                    self.line_number = self.line_number + 1;
                    self.col_number = 1;
                    self.pos = self.pos + 1;
                },
                Token::Whitespace(num_chars) => {
                    let n = *num_chars;
                    self.col_number = self.col_number + n;
                    self.pos = self.pos + 1;
                },
                _ => {
                    break ;
                },
            }
        }
    }

    /// Is everything still ahead of the cursor whitespace?
    fn rest_is_whitespace(&self) -> (r: bool)
        requires
            self.wf(),
        ensures
            r == all_ws_from(self.toks(), self.idx()),
    {
        let mut k: usize = self.pos;
        while k < self.tokens.len()
            invariant
                self.wf(),
                self.pos <= k <= self.tokens@.len(),
                forall|m: int| self.idx() <= m < k ==> #[trigger] token_is_ws(self.toks()[m]),
            decreases self.tokens@.len() - k,
        {
            proof {
                assert(self.toks()[k as int] == self.tokens@[k as int]@);
            }
            if !self.tokens[k].is_whitespace() {
                return false;
            }
            k = k + 1;
        }
        true
    }

    /// Packages a diagnostic code with the parser's current line/column.
    fn create_error(&self, code: ErrorCode) -> (r: Error)
        requires
            self.wf(),
        ensures
            r@ == err_at(self.toks(), self.idx(), code),
    {
        Error::new(code, self.line_number, self.col_number)
    }
}

/// Consuming token `k` keeps the tracked position well-defined and within
/// machine bounds.
proof fn lemma_step_fits(ts: Seq<TokenModel>, k: int)
    requires
        0 <= k < ts.len(),
        sum_token_lens(ts) < usize::MAX,
        ts.len() < usize::MAX,
    ensures
        tcol(ts, k + 1) == if ts[k] is NewLine {
            1int
        } else {
            tcol(ts, k) + token_len(ts[k])
        },
        tline(ts, k + 1) == tline(ts, k) + if ts[k] is NewLine {
            1int
        } else {
            0int
        },
        1 <= tcol(ts, k) && tcol(ts, k) + token_len(ts[k]) <= usize::MAX as int,
        1 <= tline(ts, k) && tline(ts, k) + 1 <= usize::MAX as int,
        token_len(ts[k]) >= 0,
{
    lemma_tcol_bound(ts, k);
    lemma_sum_token_lens_take_step(ts, k);
    lemma_sum_token_lens_take_le(ts, k + 1);
    lemma_tline_bound(ts, k);
}

impl Parser {
    /// Decodes the string token at the cursor: strips the quotes when the
    /// span is well-formed, otherwise reports `ExpectedDoubleQuote`.
    /// Either way the token is consumed.
    fn parse_string(&mut self, possible_string: &str) -> (r: Option<Value>)
        requires
            old(self).wf(),
            old(self).idx() < old(self).toks().len(),
            old(self).toks()[old(self).idx()] == TokenModel::String(possible_string@),
        ensures
            final(self).wf(),
            final(self).toks() == old(self).toks(),
            final(self).idx() == old(self).idx() + 1,
            string_valid(possible_string@) ==> {
                &&& final(self).errs() == old(self).errs()
                &&& r matches Some(v) && v@ == ValueModel::String(string_content(possible_string@))
            },
            !string_valid(possible_string@) ==> {
                &&& final(self).errs() == old(self).errs().push(
                    err_at(old(self).toks(), old(self).idx(), ErrorCode::ExpectedDoubleQuote),
                )
                &&& r is None
            },
    {
        let ghost ts = self.toks();
        let ghost i0 = self.idx();
        let ghost es0 = self.errs();
        let valid = string_is_valid(possible_string);
        let ret = if !valid {
            let e = self.create_error(ErrorCode::ExpectedDoubleQuote);
            self.errors.push(e);
            proof {
                assert(self.errs() =~= es0.push(err_at(ts, i0, ErrorCode::ExpectedDoubleQuote)));
            }
            None
        } else {
            Some(Value::String(string_text(possible_string)))
        };
        proof {
            lemma_step_fits(ts, i0);
        }
        self.pos = self.pos + 1;
        let token_chars = possible_string.unicode_len();
        self.col_number = self.col_number + token_chars;
        ret
    }

    /// Decodes the number token at the cursor: keeps the raw span when it
    /// is a well-formed float literal, otherwise reports `InvalidNumber`.
    /// Either way the token is consumed.
    fn parse_number(&mut self, possible_number: &str) -> (r: Option<Value>)
        requires
            old(self).wf(),
            old(self).idx() < old(self).toks().len(),
            old(self).toks()[old(self).idx()] == TokenModel::Number(possible_number@),
        ensures
            final(self).wf(),
            final(self).toks() == old(self).toks(),
            final(self).idx() == old(self).idx() + 1,
            number_ok(possible_number@) ==> {
                &&& final(self).errs() == old(self).errs()
                &&& r matches Some(v) && v@ == ValueModel::Number(possible_number@)
            },
            !number_ok(possible_number@) ==> {
                &&& final(self).errs() == old(self).errs().push(
                    err_at(old(self).toks(), old(self).idx(), ErrorCode::InvalidNumber),
                )
                &&& r is None
            },
    {
        let ghost ts = self.toks();
        let ghost i0 = self.idx();
        let ghost es0 = self.errs();
        let valid = crate::number::is_valid_number(possible_number);
        let ret = if valid {
            Some(Value::Number(possible_number.to_owned()))
        } else {
            let e = self.create_error(ErrorCode::InvalidNumber);
            self.errors.push(e);
            proof {
                assert(self.errs() =~= es0.push(err_at(ts, i0, ErrorCode::InvalidNumber)));
            }
            None
        };
        proof {
            lemma_step_fits(ts, i0);
        }
        self.pos = self.pos + 1;
        let token_chars = possible_number.unicode_len();
        self.col_number = self.col_number + token_chars;
        ret
    }

    /// After one element or member: decides whether the structure goes on
    /// (a comma with more content) or has ended, reporting a missing
    /// element or an unexpected end of file as `sp_sep` describes.
    fn parse_sequence_separator(&mut self, end: char) -> (reached_end: bool)
        requires
            old(self).wf(),
        ensures
            final(self).wf(),
            final(self).toks() == old(self).toks(),
            final(self).idx() >= old(self).idx(),
            ({
                let r = sp_sep(old(self).toks(), old(self).idx(), end);
                &&& final(self).idx() == old(self).idx() + r.0
                &&& final(self).errs() == old(self).errs() + r.1
                &&& reached_end == r.2
            }),
    {
        let ghost ts = self.toks();
        let ghost i0 = self.idx();
        let ghost es0 = self.errs();
        self.parse_whitespace();
        proof {
            lemma_ws_end_bounds(ts, i0);
        }
        if self.pos >= self.tokens.len() {
            let e = self.create_error(ErrorCode::EndOfFileWhileParsing(end));
            self.errors.push(e);
            proof {
                assert(self.errs() =~= es0 + seq![
                    err_at(ts, ws_end(ts, i0), ErrorCode::EndOfFileWhileParsing(end)),
                ]);
            }
            return true;
        }
        proof {
            assert(self.toks()[self.idx()] == self.tokens@[self.pos as int]@);
        }
        let t0_is_comma = match &self.tokens[self.pos] {
            Token::Punctuation(c) => *c == ',',
            _ => false,
        };
        if t0_is_comma {
            if self.pos + 1 >= self.tokens.len() {
                let e = self.create_error(ErrorCode::EndOfFileWhileParsing(end));
                self.errors.push(e);
                proof {
                    assert(self.errs() =~= es0 + seq![
                        err_at(ts, ws_end(ts, i0), ErrorCode::EndOfFileWhileParsing(end)),
                    ]);
                    lemma_step_fits(ts, self.idx());
                }
                self.col_number = self.col_number + 1;
                self.pos = self.pos + 1;
                return true;
            }
            proof {
                assert(self.toks()[self.idx() + 1] == self.tokens@[self.pos + 1int]@);
            }
            let t1_is_end = match &self.tokens[self.pos + 1] {
                Token::Punctuation(c) => *c == end,
                _ => false,
            };
            proof {
                lemma_step_fits(ts, self.idx());
            }
            self.col_number = self.col_number + 1;
            self.pos = self.pos + 1;
            if t1_is_end {
                let e = self.create_error(ErrorCode::ExpectedToken);
                self.errors.push(e);
                proof {
                    assert(self.errs() =~= es0 + seq![
                        err_at(ts, ws_end(ts, i0) + 1, ErrorCode::ExpectedToken),
                    ]);
                    lemma_step_fits(ts, self.idx());
                }
                self.col_number = self.col_number + 1;
                self.pos = self.pos + 1;
                proof {
                    assert(self.errs() =~= es0 + sp_sep(ts, i0, end).1);
                }
                return true;
            }
            proof {
                assert(self.errs() =~= es0 + sp_sep(ts, i0, end).1);
            }
            return false;
        }
        let t0_is_end = match &self.tokens[self.pos] {
            Token::Punctuation(c) => *c == end,
            _ => false,
        };
        if t0_is_end {
            proof {
                lemma_step_fits(ts, self.idx());
            }
            self.col_number = self.col_number + 1;
            self.pos = self.pos + 1;
            proof {
                assert(self.errs() =~= es0 + sp_sep(ts, i0, end).1);
            }
            return true;
        }
        let e = self.create_error(ErrorCode::EndOfFileWhileParsing(end));
        self.errors.push(e);
        proof {
            assert(self.errs() =~= es0 + seq![
                err_at(ts, ws_end(ts, i0), ErrorCode::EndOfFileWhileParsing(end)),
            ]);
        }
        true
    }
}

/// Does the raw span of a string token decode: exactly two unescaped
/// quotes, standing first and last?
fn string_is_valid(raw: &str) -> (r: bool)
    ensures
        r == string_valid(raw@),
{
    let n = raw.unicode_len();
    if n <= 1 {
        return false;
    }
    let mut quotes: usize = 0;
    let mut j: usize = 0;
    loop
        invariant
            n == raw@.len(),
            0 <= j <= n,
            quotes <= j,
            unescaped_quotes(raw@, 0) == quotes + unescaped_quotes(raw@, j as int),
        ensures
            unescaped_quotes(raw@, 0) == quotes,
            quotes <= n,
        decreases n - j,
    {
        if j >= n {
            break ;
        }
        let c = raw.get_char(j);
        if c == '\\' && j + 1 < n && raw.get_char(j + 1) == '"' {
            j = j + 2;
        } else if c == '"' {
            quotes = quotes + 1;
            j = j + 1;
        } else {
            j = j + 1;
        }
    }
    quotes == 2 && raw.get_char(n - 1) == '"'
}

/// The text of a valid string span, quotes stripped and escapes left as
/// written.
fn string_text(raw: &str) -> (r: String)
    requires
        raw@.len() >= 2,
    ensures
        r@ == string_content(raw@),
{
    let n = raw.unicode_len();
    raw.substring_char(1, n - 1).to_owned()
}

/// Adds a member, a later key overwriting an earlier one in place.
fn insert_member(members: &mut Vec<(String, Value)>, key: String, value: Value)
    requires
        keys_unique(members_view(old(members)@)),
    ensures
        keys_unique(members_view(final(members)@)),
        pairs_to_map(members_view(final(members)@)) == pairs_to_map(
            members_view(old(members)@),
        ).insert(key@, value@),
{
    let ghost ps = members_view(members@);
    proof {
        lemma_members_view(members@);
    }
    let n = members.len();
    let mut k: usize = 0;
    while k < n
        invariant
            n == members@.len(),
            ps == members_view(members@),
            ps == members_view(old(members)@),
            ps.len() == n,
            forall|m: int| 0 <= m < n ==> #[trigger] ps[m] == (members@[m].0@, members@[m].1@),
            keys_unique(ps),
            k <= n,
            forall|m: int| 0 <= m < k ==> (#[trigger] ps[m]).0 != key@,
        decreases n - k,
    {
        let hit = members[k].0 == key;
        if hit {
            let ghost before = members@;
            let pair = members.remove(k);
            let kept_key = pair.0;
            members.insert(k, (kept_key, value));
            proof {
                assert(members@ =~= before.update(k as int, (kept_key, value)));
                lemma_members_view(members@);
                assert(ps[k as int].0 == key@);
                assert forall|m: int| 0 <= m < members@.len() implies #[trigger] members_view(
                    members@,
                )[m] == ps.update(k as int, (ps[k as int].0, value@))[m] by {
                    if m != k {
                        assert(members@[m] == before[m]);
                        assert(ps[m] == (before[m].0@, before[m].1@));
                    }
                }
                assert(members_view(members@) =~= ps.update(k as int, (ps[k as int].0, value@)));
                lemma_pairs_to_map_update(ps, k as int, value@);
                assert(ps == members_view(old(members)@));
                assert(pairs_to_map(members_view(members@)) == pairs_to_map(ps).insert(
                    key@,
                    value@,
                ));
            }
            return ;
        }
        k = k + 1;
    }
    members.push((key, value));
    proof {
        lemma_members_view(members@);
        assert(members_view(members@) =~= ps.push((key@, value@)));
        lemma_pairs_to_map_push(ps, key@, value@);
        let qs = ps.push((key@, value@));
        assert forall|k1: int, k2: int| 0 <= k1 < k2 < qs.len() implies (#[trigger] qs[k1]).0 != (
        #[trigger] qs[k2]).0 by {
            if k2 < qs.len() - 1 {
                assert(ps[k1].0 != ps[k2].0);
            } else {
                assert(ps[k1].0 != key@);
            }
        }
    }
}

impl Parser {
    /// Resynchronization: consumes tokens that are neither a comma nor the
    /// closing delimiter, parsing and discarding a value after any bare
    /// `:`, then reports one batched diagnostic when anything was skipped.
    fn parse_until_comma_or_end(&mut self, end: char)
        requires
            old(self).wf(),
        ensures
            final(self).wf(),
            final(self).toks() == old(self).toks(),
            final(self).idx() >= old(self).idx(),
            ({
                let r = sp_until(old(self).toks(), old(self).idx(), end, false);
                &&& final(self).idx() == old(self).idx() + r.0
                &&& final(self).errs() == old(self).errs() + r.1
            }),
        decreases self.toks().len() - self.idx(), 2int,
    {
        let ghost ts = self.toks();
        let ghost i0 = self.idx();
        let ghost es0 = self.errs();
        let mut seen_non_comma_value = false;
        loop
            invariant_except_break
                self.wf(),
                self.toks() == ts,
                ts == old(self).toks(),
                i0 == old(self).idx(),
                0 <= i0 <= self.idx(),
                ({
                    let rt = sp_until(ts, i0, end, false);
                    let rc = sp_until(ts, self.idx(), end, seen_non_comma_value);
                    &&& rt.0 == (self.idx() - i0) + rc.0
                    &&& es0 + rt.1 == self.errs() + rc.1
                }),
            ensures
                self.wf(),
                self.toks() == ts,
                0 <= i0 <= self.idx(),
                ({
                    let rt = sp_until(ts, i0, end, false);
                    &&& self.idx() == i0 + rt.0
                    &&& es0 + rt.1 == self.errs() + (if seen_non_comma_value {
                        seq![
                            err_at(
                                ts,
                                self.idx(),
                                ErrorCode::ExpectedCommaOrEndWhileParsing(end),
                            ),
                        ]
                    } else {
                        Seq::<ErrorModel>::empty()
                    })
                }),
            decreases ts.len() - self.idx(),
        {
            let ghost cur = self.idx();
            let ghost seen0 = seen_non_comma_value;
            let ghost rc0 = sp_until(ts, cur, end, seen0);
            self.parse_whitespace();
            proof {
                lemma_ws_end_bounds(ts, cur);
            }
            let ghost j = self.idx();
            if self.pos >= self.tokens.len() {
                proof {
                    assert(rc0 == (
                        j - cur,
                        if seen0 {
                            seq![err_at(ts, j, ErrorCode::ExpectedCommaOrEndWhileParsing(end))]
                        } else {
                            Seq::<ErrorModel>::empty()
                        },
                    ));
                }
                break ;
            }
            proof {
                assert(self.toks()[self.idx()] == self.tokens@[self.pos as int]@);
            }
            let (is_comma, is_endc, is_colon) = match &self.tokens[self.pos] {
                Token::Punctuation(c) => (*c == ',', *c == end, *c == ':'),
                _ => (false, false, false),
            };
            if is_comma || is_endc {
                proof {
                    assert(rc0 == (
                        j - cur,
                        if seen0 {
                            seq![err_at(ts, j, ErrorCode::ExpectedCommaOrEndWhileParsing(end))]
                        } else {
                            Seq::<ErrorModel>::empty()
                        },
                    ));
                }
                break ;
            }
            if is_colon {
                proof {
                    lemma_step_fits(ts, self.idx());
                }
                self.col_number = self.col_number + 1;
                self.pos = self.pos + 1;
                let ghost es_before = self.errs();
                let _ = self.parse_value();
                proof {
                    let rv = sp_value(ts, j + 1);
                    assert(adv(ts, j + 1, rv.0) == self.idx());
                    let rr = sp_until(ts, self.idx(), end, seen0);
                    assert(rc0.0 == (self.idx() - cur) + rr.0);
                    assert(rc0.1 == rv.1 + rr.1);
                    let rt = sp_until(ts, i0, end, false);
                    assert(es0 + rt.1 =~= (es_before + rv.1) + rr.1);
                    assert(self.errs() =~= es_before + rv.1);
                }
            } else {
                let tl = self.tokens[self.pos].len();
                proof {
                    lemma_step_fits(ts, self.idx());
                    assert(!(ts[j] is NewLine));
                }
                self.col_number = self.col_number + tl;
                self.pos = self.pos + 1;
                seen_non_comma_value = true;
                proof {
                    let rr = sp_until(ts, j + 1, end, true);
                    assert(rc0.0 == (j + 1 - cur) + rr.0);
                    assert(rc0.1 == rr.1);
                }
            }
        }
        if seen_non_comma_value {
            let e = self.create_error(ErrorCode::ExpectedCommaOrEndWhileParsing(end));
            self.errors.push(e);
            proof {
                let rt = sp_until(ts, i0, end, false);
                assert(self.errs() =~= es0 + rt.1);
            }
        }
    }

    /// One value: skips whitespace, then dispatches on the next token.
    /// Stray punctuation where a value should stand is reported and left
    /// for the enclosing structure's recovery to consume.
    fn parse_value(&mut self) -> (r: Option<Value>)
        requires
            old(self).wf(),
        ensures
            final(self).wf(),
            final(self).toks() == old(self).toks(),
            final(self).idx() >= old(self).idx(),
            ({
                let rv = sp_value(old(self).toks(), old(self).idx());
                &&& final(self).idx() == old(self).idx() + rv.0
                &&& final(self).errs() == old(self).errs() + rv.1
                &&& value_matches(r, rv.2)
            }),
        decreases self.toks().len() - self.idx(), 1int,
    {
        let ghost ts = self.toks();
        let ghost i0 = self.idx();
        let ghost es0 = self.errs();
        self.parse_whitespace();
        proof {
            lemma_ws_end_bounds(ts, i0);
        }
        let ghost j = self.idx();
        if self.pos >= self.tokens.len() {
            let e = self.create_error(ErrorCode::EndOfFileWhileParsingValue);
            self.errors.push(e);
            proof {
                assert(self.errs() =~= es0 + sp_value(ts, i0).1);
            }
            return None;
        }
        proof {
            assert(self.toks()[self.idx()] == self.tokens@[self.pos as int]@);
            assert(!token_is_ws(ts[j]));
        }
        match &self.tokens[self.pos] {
            Token::Null => {
                proof {
                    lemma_step_fits(ts, j);
                }
                self.pos = self.pos + 1;
                self.col_number = self.col_number + 4;
                Some(Value::Null)
            },
            Token::Bool(val) => {
                let b = *val;
                proof {
                    lemma_step_fits(ts, j);
                }
                self.pos = self.pos + 1;
                self.col_number = self.col_number + (if b {
                    4
                } else {
                    5
                });
                Some(Value::Bool(b))
            },
            Token::String(val) => {
                let raw = val.clone();
                let r = self.parse_string(raw.as_str());
                proof {
                    if !string_valid(raw@) {
                        assert(self.errs() =~= es0 + sp_value(ts, i0).1);
                    }
                }
                r
            },
            Token::Number(val) => {
                let raw = val.clone();
                let r = self.parse_number(raw.as_str());
                proof {
                    if !number_ok(raw@) {
                        assert(self.errs() =~= es0 + sp_value(ts, i0).1);
                    }
                }
                r
            },
            Token::Punctuation(ch) => {
                let c = *ch;
                if c == '{' {
                    self.parse_object()
                } else if c == '[' {
                    self.parse_array()
                } else {
                    let e = self.create_error(ErrorCode::ExpectedToken);
                    self.errors.push(e);
                    proof {
                        assert(self.errs() =~= es0 + sp_value(ts, i0).1);
                    }
                    None
                }
            },
            _ => {
                // whitespace was skipped just above, so no whitespace
                // token can stand here; the assertion proves this arm
                // unreachable
                proof {
                    assert(false);
                }
                None
            },
        }
    }

    /// An array: the `[]` fast path, the unterminated-`[` report, or the
    /// element loop.
    fn parse_array(&mut self) -> (r: Option<Value>)
        requires
            old(self).wf(),
            old(self).idx() < old(self).toks().len(),
            old(self).toks()[old(self).idx()] == TokenModel::Punctuation('['),
        ensures
            final(self).wf(),
            final(self).toks() == old(self).toks(),
            final(self).idx() >= old(self).idx(),
            ({
                let ra = sp_array(old(self).toks(), old(self).idx());
                &&& final(self).idx() == old(self).idx() + ra.0
                &&& final(self).errs() == old(self).errs() + ra.1
                &&& value_matches(r, ra.2)
            }),
        decreases self.toks().len() - self.idx(), 0int,
    {
        let ghost ts = self.toks();
        let ghost i0 = self.idx();
        let ghost es0 = self.errs();
        if self.pos + 1 >= self.tokens.len() {
            proof {
                lemma_step_fits(ts, i0);
            }
            self.col_number = self.col_number + 1;
            self.pos = self.pos + 1;
            let e = self.create_error(ErrorCode::EndOfFileWhileParsing(']'));
            self.errors.push(e);
            proof {
                assert(self.errs() =~= es0 + sp_array(ts, i0).1);
            }
            return None;
        }
        proof {
            assert(self.toks()[i0 + 1] == self.tokens@[self.pos + 1int]@);
        }
        let next_is_close = match &self.tokens[self.pos + 1] {
            Token::Punctuation(c) => *c == ']',
            _ => false,
        };
        if next_is_close {
            proof {
                lemma_step_fits(ts, i0);
                lemma_step_fits(ts, i0 + 1);
            }
            self.col_number = self.col_number + 2;
            self.pos = self.pos + 2;
            let r = Some(Value::Array(Vec::new()));
            proof {
                assert(self.errs() =~= es0 + sp_array(ts, i0).1);
                assert(seq_value_view(Seq::<Value>::empty()) =~= Seq::<ValueModel>::empty());
            }
            return r;
        }
        proof {
            lemma_step_fits(ts, i0);
        }
        self.col_number = self.col_number + 1;
        self.pos = self.pos + 1;
        let elems = self.parse_array_elements();
        match elems {
            Some(v) => Some(Value::Array(v)),
            None => None,
        }
    }

    /// The element list of an array, entered just past its `[`.
    fn parse_array_elements(&mut self) -> (r: Option<Vec<Value>>)
        requires
            old(self).wf(),
        ensures
            final(self).wf(),
            final(self).toks() == old(self).toks(),
            final(self).idx() >= old(self).idx(),
            ({
                let re = sp_elements(old(self).toks(), old(self).idx());
                &&& final(self).idx() == old(self).idx() + re.0
                &&& final(self).errs() == old(self).errs() + re.1
                &&& match (r, re.2) {
                    (Some(v), Some(sv)) => seq_value_view(v@) == sv,
                    (None, None) => true,
                    _ => false,
                }
            }),
        decreases self.toks().len() - self.idx(), 4int,
    {
        let ghost ts = self.toks();
        let ghost i0 = self.idx();
        let ghost es0 = self.errs();
        if self.pos >= self.tokens.len() {
            let e = self.create_error(ErrorCode::EndOfFileWhileParsing(']'));
            self.errors.push(e);
            proof {
                assert(self.errs() =~= es0 + sp_elements(ts, i0).1);
            }
            return None;
        }
        let mut elements = Vec::<Value>::new();
        proof {
            assert(seq_value_view(elements@) =~= Seq::<ValueModel>::empty());
        }
        loop
            invariant_except_break
                self.wf(),
                self.toks() == ts,
                ts == old(self).toks(),
                i0 == old(self).idx(),
                0 <= i0 <= self.idx(),
                ({
                    let rt = sp_elements_loop(ts, i0, seq![]);
                    let rc = sp_elements_loop(ts, self.idx(), seq_value_view(elements@));
                    &&& rt.0 == (self.idx() - i0) + rc.0
                    &&& es0 + rt.1 == self.errs() + rc.1
                    &&& rt.2 == rc.2
                }),
            ensures
                self.wf(),
                self.toks() == ts,
                0 <= i0 <= self.idx(),
                ({
                    let rt = sp_elements_loop(ts, i0, seq![]);
                    &&& self.idx() == i0 + rt.0
                    &&& self.errs() == es0 + rt.1
                    &&& seq_value_view(elements@) == rt.2
                }),
            decreases ts.len() - self.idx(),
        {
            let ghost cur = self.idx();
            let ghost acc_cur = seq_value_view(elements@);
            let ghost es_cur = self.errs();
            let ghost rc0 = sp_elements_loop(ts, cur, acc_cur);
            self.parse_whitespace();
            proof {
                lemma_ws_end_bounds(ts, cur);
            }
            let ghost j0 = self.idx();
            let v = self.parse_value();
            let ghost rv = sp_value(ts, j0);
            proof {
                assert(adv(ts, j0, rv.0) == self.idx());
            }
            match v {
                Some(element) => {
                    let ghost pre = elements@;
                    elements.push(element);
                    proof {
                        assert(elements@.drop_last() =~= pre);
                        assert(seq_value_view(elements@) =~= acc_cur.push(element@));
                    }
                },
                None => {},
            }
            let ghost acc1 = seq_value_view(elements@);
            let ghost i1 = self.idx();
            let ghost es1 = self.errs();
            self.parse_until_comma_or_end(']');
            let ghost ru = sp_until(ts, i1, ']', false);
            let ghost i2 = self.idx();
            let ghost es2 = self.errs();
            let reached_end = self.parse_sequence_separator(']');
            let ghost rs = sp_sep(ts, i2, ']');
            let ghost i3 = self.idx();
            proof {
                assert(adv(ts, i1, ru.0) == i2);
                assert(adv(ts, i2, rs.0) == i3);
                assert(rc0.0 == (i3 - cur) + (if rs.2 {
                    0int
                } else {
                    sp_elements_loop(ts, i3, acc1).0
                }));
                assert(self.errs() =~= ((es_cur + rv.1) + ru.1) + rs.1);
                if rs.2 {
                    assert(rc0.1 == rv.1 + ru.1 + rs.1);
                    assert(es_cur + rc0.1 =~= self.errs());
                    assert(rc0.2 == acc1);
                } else {
                    let rn = sp_elements_loop(ts, i3, acc1);
                    assert(rc0.1 == rv.1 + ru.1 + rs.1 + rn.1);
                    assert(es_cur + rc0.1 =~= self.errs() + rn.1);
                    assert(rc0.2 == rn.2);
                }
            }
            if reached_end {
                proof {
                    let rt = sp_elements_loop(ts, i0, seq![]);
                    assert(es0 + rt.1 =~= self.errs());
                }
                break ;
            }
            proof {
                lemma_ws_end_bounds(ts, i2);
            }
        }
        Some(elements)
    }

    /// An object: the `{}` fast path, the unterminated-`{` report, or the
    /// member loop.
    fn parse_object(&mut self) -> (r: Option<Value>)
        requires
            old(self).wf(),
            old(self).idx() < old(self).toks().len(),
            old(self).toks()[old(self).idx()] == TokenModel::Punctuation('{'),
        ensures
            final(self).wf(),
            final(self).toks() == old(self).toks(),
            final(self).idx() >= old(self).idx(),
            ({
                let ro = sp_object(old(self).toks(), old(self).idx());
                &&& final(self).idx() == old(self).idx() + ro.0
                &&& final(self).errs() == old(self).errs() + ro.1
                &&& value_matches(r, ro.2)
            }),
        decreases self.toks().len() - self.idx(), 0int,
    {
        let ghost ts = self.toks();
        let ghost i0 = self.idx();
        let ghost es0 = self.errs();
        if self.pos + 1 >= self.tokens.len() {
            proof {
                lemma_step_fits(ts, i0);
            }
            self.col_number = self.col_number + 1;
            self.pos = self.pos + 1;
            let e = self.create_error(ErrorCode::EndOfFileWhileParsing('}'));
            self.errors.push(e);
            proof {
                assert(self.errs() =~= es0 + sp_object(ts, i0).1);
            }
            return None;
        }
        proof {
            assert(self.toks()[i0 + 1] == self.tokens@[self.pos + 1int]@);
        }
        let next_is_close = match &self.tokens[self.pos + 1] {
            Token::Punctuation(c) => *c == '}',
            _ => false,
        };
        if next_is_close {
            proof {
                lemma_step_fits(ts, i0);
                lemma_step_fits(ts, i0 + 1);
            }
            self.col_number = self.col_number + 2;
            self.pos = self.pos + 2;
            let r = Some(Value::Object(Vec::new()));
            proof {
                assert(self.errs() =~= es0 + sp_object(ts, i0).1);
                assert(members_view(Seq::<(String, Value)>::empty()) =~= Seq::<
                    (Seq<char>, ValueModel),
                >::empty());
            }
            return r;
        }
        proof {
            lemma_step_fits(ts, i0);
        }
        self.col_number = self.col_number + 1;
        self.pos = self.pos + 1;
        let members = self.parse_object_members();
        match members {
            Some(ms) => Some(Value::Object(ms)),
            None => None,
        }
    }


    /// One member step, entered at a non-whitespace token (or the end of
    /// input, where it does nothing and leaves the report to the
    /// separator decision).
    #[verifier::rlimit(100)]
    fn parse_member(&mut self, members: &mut Vec<(String, Value)>)
        requires
            old(self).wf(),
            keys_unique(members_view(old(members)@)),
            old(self).idx() < old(self).toks().len() ==> !token_is_ws(
                old(self).toks()[old(self).idx()],
            ),
        ensures
            final(self).wf(),
            final(self).toks() == old(self).toks(),
            final(self).idx() >= old(self).idx(),
            keys_unique(members_view(final(members)@)),
            ({
                let rm = sp_member(
                    old(self).toks(),
                    old(self).idx(),
                    pairs_to_map(members_view(old(members)@)),
                );
                &&& final(self).idx() == adv(old(self).toks(), old(self).idx(), rm.0)
                &&& final(self).errs() == old(self).errs() + rm.1
                &&& pairs_to_map(members_view(final(members)@)) == rm.2
            }),
        decreases self.toks().len() - self.idx(), 2int,
    {
        let ghost ts = self.toks();
        let ghost j0 = self.idx();
        let ghost acc_cur = pairs_to_map(members_view(members@));
        let ghost rm = sp_member(ts, j0, acc_cur);
        let ghost es_m = self.errs();
        if self.pos >= self.tokens.len() {
            // nothing left: the separator decision below reports it
        } else {
            proof {
                assert(self.toks()[self.idx()] == self.tokens@[self.pos as int]@);
            }
            let key_string: Option<String> = match &self.tokens[self.pos] {
                Token::String(s) => Some(s.clone()),
                _ => None,
            };
            let next_is_colon = if self.pos + 1 < self.tokens.len() {
                proof {
                    assert(self.toks()[self.idx() + 1] == self.tokens@[self.pos + 1int]@);
                }
                match &self.tokens[self.pos + 1] {
                    Token::Punctuation(c) => *c == ':',
                    _ => false,
                }
            } else {
                false
            };
            match key_string {
                Some(raw) => {
                    if next_is_colon {
                        let key_chars = raw.as_str().unicode_len();
                        proof {
                            lemma_step_fits(ts, j0);
                            lemma_step_fits(ts, j0 + 1);
                        }
                        self.col_number = self.col_number + key_chars;
                        self.pos = self.pos + 1;
                        self.col_number = self.col_number + 1;
                        self.pos = self.pos + 1;
                        let valid = string_is_valid(raw.as_str());
                        if valid {
                            let key = string_text(raw.as_str());
                            let val = self.parse_value();
                            proof {
                                assert(adv(ts, j0 + 2, sp_value(ts, j0 + 2).0) == self.idx());
                            }
                            match val {
                                Some(v) => {
                                    proof {
                                        assert(pairs_to_map(members_view(members@))
                                            == acc_cur);
                                    }
                                    insert_member(members, key, v);
                                    proof {
                                        assert(pairs_to_map(members_view(members@)) == rm.2);
                                    }
                                },
                                None => {},
                            }
                        } else {
                            let e = self.create_error(ErrorCode::ExpectedDoubleQuote);
                            self.errors.push(e);
                            let _ = self.parse_value();
                            proof {
                                let rv = sp_value(ts, j0 + 2);
                                assert(adv(ts, j0 + 2, rv.0) == self.idx());
                                assert(self.errs() =~= es_m + (seq![
                                    err_at(ts, j0 + 2, ErrorCode::ExpectedDoubleQuote),
                                ] + rv.1));
                            }
                        }
                    } else {
                        let e = self.create_error(ErrorCode::ExpectedColon);
                        self.errors.push(e);
                        let key_chars = raw.as_str().unicode_len();
                        proof {
                            lemma_step_fits(ts, j0);
                        }
                        self.col_number = self.col_number + key_chars;
                        self.pos = self.pos + 1;
                        proof {
                            assert(self.errs() =~= es_m + seq![
                                err_at(ts, j0, ErrorCode::ExpectedColon),
                            ]);
                        }
                    }
                },
                None => {
                    if next_is_colon {
                        let e = self.create_error(ErrorCode::KeyMustBeAString);
                        self.errors.push(e);
                        let tl = self.tokens[self.pos].len();
                        proof {
                            lemma_step_fits(ts, j0);
                            lemma_step_fits(ts, j0 + 1);
                        }
                        self.col_number = self.col_number + tl;
                        self.pos = self.pos + 1;
                        self.col_number = self.col_number + 1;
                        self.pos = self.pos + 1;
                        let _ = self.parse_value();
                        proof {
                            let rv = sp_value(ts, j0 + 2);
                            assert(adv(ts, j0 + 2, rv.0) == self.idx());
                            assert(self.errs() =~= es_m + (seq![
                                err_at(ts, j0, ErrorCode::KeyMustBeAString),
                            ] + rv.1));
                        }
                    } else {
                        let is_colon = match &self.tokens[self.pos] {
                            Token::Punctuation(c) => *c == ':',
                            _ => false,
                        };
                        let e = self.create_error(ErrorCode::KeyMustBeAString);
                        self.errors.push(e);
                        if is_colon {
                            proof {
                                lemma_step_fits(ts, j0);
                            }
                            self.col_number = self.col_number + 1;
                            self.pos = self.pos + 1;
                            let _ = self.parse_value();
                            proof {
                                let rv = sp_value(ts, j0 + 1);
                                assert(adv(ts, j0 + 1, rv.0) == self.idx());
                                assert(self.errs() =~= es_m + (seq![
                                    err_at(ts, j0, ErrorCode::KeyMustBeAString),
                                ] + rv.1));
                            }
                        } else {
                            let tl = self.tokens[self.pos].len();
                            proof {
                                lemma_step_fits(ts, j0);
                            }
                            self.col_number = self.col_number + tl;
                            self.pos = self.pos + 1;
                            proof {
                                assert(self.errs() =~= es_m + seq![
                                    err_at(ts, j0, ErrorCode::KeyMustBeAString),
                                ]);
                            }
                        }
                    }
                },
            }
        }
        proof {
            assert(self.idx() == adv(ts, j0, rm.0));
            assert(self.errs() == es_m + rm.1);
            assert(pairs_to_map(members_view(members@)) == rm.2);
        }
    }

    /// The member list of an object, entered just past its `{`.
    #[verifier::rlimit(100)]
    fn parse_object_members(&mut self) -> (r: Option<Vec<(String, Value)>>)
        requires
            old(self).wf(),
        ensures
            final(self).wf(),
            final(self).toks() == old(self).toks(),
            final(self).idx() >= old(self).idx(),
            ({
                let re = sp_members(old(self).toks(), old(self).idx());
                &&& final(self).idx() == old(self).idx() + re.0
                &&& final(self).errs() == old(self).errs() + re.1
                &&& match (r, re.2) {
                    (Some(ms), Some(sm)) => pairs_to_map(members_view(ms@)) == sm,
                    (None, None) => true,
                    _ => false,
                }
            }),
        decreases self.toks().len() - self.idx(), 4int,
    {
        let ghost ts = self.toks();
        let ghost i0 = self.idx();
        let ghost es0 = self.errs();
        if self.pos >= self.tokens.len() {
            let e = self.create_error(ErrorCode::EndOfFileWhileParsing('}'));
            self.errors.push(e);
            proof {
                assert(self.errs() =~= es0 + sp_members(ts, i0).1);
            }
            return None;
        }
        let mut members = Vec::<(String, Value)>::new();
        proof {
            assert(members_view(members@) =~= Seq::<(Seq<char>, ValueModel)>::empty());
        }
        loop
            invariant_except_break
                self.wf(),
                self.toks() == ts,
                ts == old(self).toks(),
                i0 == old(self).idx(),
                0 <= i0 <= self.idx(),
                keys_unique(members_view(members@)),
                ({
                    let rt = sp_members_loop(ts, i0, Map::empty());
                    let rc = sp_members_loop(ts, self.idx(), pairs_to_map(members_view(members@)));
                    &&& rt.0 == (self.idx() - i0) + rc.0
                    &&& es0 + rt.1 == self.errs() + rc.1
                    &&& rt.2 == rc.2
                }),
            ensures
                self.wf(),
                self.toks() == ts,
                0 <= i0 <= self.idx(),
                ({
                    let rt = sp_members_loop(ts, i0, Map::empty());
                    &&& self.idx() == i0 + rt.0
                    &&& self.errs() == es0 + rt.1
                    &&& pairs_to_map(members_view(members@)) == rt.2
                }),
            decreases ts.len() - self.idx(),
        {
            let ghost cur = self.idx();
            let ghost acc_cur = pairs_to_map(members_view(members@));
            let ghost es_cur = self.errs();
            let ghost rc0 = sp_members_loop(ts, cur, acc_cur);
            self.parse_whitespace();
            proof {
                lemma_ws_end_bounds(ts, cur);
            }
            let ghost j0 = self.idx();
            let ghost rm = sp_member(ts, j0, acc_cur);
            let ghost es_m = self.errs();
            self.parse_member(&mut members);
            proof {
                assert(self.idx() == adv(ts, j0, rm.0));
                assert(self.errs() == es_m + rm.1);
                assert(pairs_to_map(members_view(members@)) == rm.2);
            }
            let ghost acc1 = pairs_to_map(members_view(members@));
            let ghost i1 = self.idx();
            let ghost es1 = self.errs();
            self.parse_until_comma_or_end('}');
            let ghost ru = sp_until(ts, i1, '}', false);
            let ghost i2 = self.idx();
            let reached_end = self.parse_sequence_separator('}');
            let ghost rs = sp_sep(ts, i2, '}');
            let ghost i3 = self.idx();
            proof {
                assert(adv(ts, i1, ru.0) == i2);
                assert(adv(ts, i2, rs.0) == i3);
                assert(self.errs() =~= ((es_cur + rm.1) + ru.1) + rs.1);
                if rs.2 {
                    assert(rc0.1 == rm.1 + ru.1 + rs.1);
                    assert(es_cur + rc0.1 =~= self.errs());
                    assert(rc0.2 == acc1);
                } else {
                    let rn = sp_members_loop(ts, i3, acc1);
                    assert(rc0.1 == rm.1 + ru.1 + rs.1 + rn.1);
                    assert(es_cur + rc0.1 =~= self.errs() + rn.1);
                    assert(rc0.2 == rn.2);
                }
            }
            if reached_end {
                proof {
                    let rt = sp_members_loop(ts, i0, Map::empty());
                    assert(es0 + rt.1 =~= self.errs());
                }
                break ;
            }
            proof {
                lemma_ws_end_bounds(ts, i2);
            }
        }
        Some(members)
    }
}

proof fn lemma_token_stream_bounds(us: Seq<Seq<char>>, k: int)
    requires
        0 <= k <= us.len(),
    ensures
        sum_token_lens(ok_tokens(lex_results(us).take(k))) <= crate::lexical::sum_lens(us.take(k)),
        ok_tokens(lex_results(us).take(k)).len() <= k,
    decreases k,
{
    if k > 0 {
        lemma_token_stream_bounds(us, k - 1);
        let rs = lex_results(us);
        assert(rs.take(k).drop_last() =~= rs.take(k - 1));
        assert(rs.take(k).last() == rs[k - 1]);
        crate::lexical::lemma_sum_lens_take_step(us, k - 1);
        match rs[k - 1] {
            Ok(t) => {
                crate::lexical::lemma_classified_len(us[k - 1]);
                let prev = ok_tokens(rs.take(k - 1));
                assert(ok_tokens(rs.take(k)) == prev + seq![t]);
                assert((prev + seq![t]).drop_last() =~= prev);
                assert(sum_token_lens(prev + seq![t]) == sum_token_lens(prev) + token_len(t));
            },
            Err(_) => {
                assert(ok_tokens(rs.take(k)) == ok_tokens(rs.take(k - 1)) + Seq::<
                    TokenModel,
                >::empty());
                assert(ok_tokens(rs.take(k)) =~= ok_tokens(rs.take(k - 1)));
            },
        }
    } else {
        assert(lex_results(us).take(0) =~= Seq::<Result<TokenModel, ErrorModel>>::empty());
        assert(us.take(0) =~= Seq::<Seq<char>>::empty());
    }
}

impl Parser {
    /// Parses a complete text: tokenizes, parses exactly one value, then
    /// requires all remaining tokens to be whitespace.  Returns the value
    /// when no diagnostics arose, and otherwise every diagnostic in source
    /// order — so the outcome is exactly `sp_parse` of the input.  The
    /// input must hold fewer characters than the machine can count, so
    /// that line and column arithmetic stays in bounds.
    pub fn parse(json: &str) -> (r: Result<Value, Vec<Error>>)
        requires
            json@.len() < usize::MAX,
        ensures
            match r {
                Ok(v) => sp_parse(json@) == Ok::<ValueModel, Seq<ErrorModel>>(v@),
                Err(es) => sp_parse(json@) == Err::<ValueModel, Seq<ErrorModel>>(es.deep_view())
                    && es@.len() > 0,
            },
    {
        let tokens = match Token::try_from_json(json) {
            Ok(ts) => ts,
            Err(es) => {
                proof {
                    assert(es.deep_view().len() == es@.len());
                }
                return Err(es);
            },
        };
        let ghost s = json@;
        let ghost us = crate::lexical::raw_units(s);
        let ghost ts = tokens.deep_view();
        proof {
            crate::lexical::lemma_units_len_sum(s, 0);
            crate::lexical::lemma_units_nonempty(s, 0);
            crate::lexical::lemma_unit_count_le_sum(us);
            lemma_token_stream_bounds(us, us.len() as int);
            assert(lex_results(us).take(us.len() as int) =~= lex_results(us));
            assert(us.take(us.len() as int) =~= us);
        }
        let mut parser = Parser {
            tokens,
            pos: 0,
            line_number: 1,
            col_number: 1,
            errors: Vec::new(),
        };
        proof {
            assert(parser.wf());
            assert(parser.errs() =~= Seq::<ErrorModel>::empty());
        }
        let value_opt = parser.parse_value();
        let ghost rv = sp_value(ts, 0);
        proof {
            assert(adv(ts, 0, rv.0) == parser.idx());
            assert(parser.errs() =~= Seq::<ErrorModel>::empty() + rv.1);
            assert(parser.errs() =~= rv.1);
        }
        if parser.errors.len() > 0 {
            proof {
                assert(parser.errs().len() == parser.errors@.len());
            }
            return Err(parser.errors);
        }
        match value_opt {
            Some(v) => {
                if parser.rest_is_whitespace() {
                    Ok(v)
                } else {
                    let e = parser.create_error(ErrorCode::EndOfFileExpected);
                    let mut es = Vec::<Error>::new();
                    es.push(e);
                    proof {
                        assert(es.deep_view() =~= seq![
                            err_at(ts, adv(ts, 0, rv.0), ErrorCode::EndOfFileExpected),
                        ]);
                    }
                    Err(es)
                }
            },
            None => {
                let e = parser.create_error(ErrorCode::EndOfFileExpected);
                let mut es = Vec::<Error>::new();
                es.push(e);
                proof {
                    assert(es.deep_view() =~= seq![
                        err_at(ts, adv(ts, 0, rv.0), ErrorCode::EndOfFileExpected),
                    ]);
                }
                Err(es)
            },
        }
    }
}

} // verus!
