//! The round trip: a syntactically valid literal, written out canonically,
//! parses back to exactly the value a reference builder would construct.
//!
//! `Literal` describes such a literal: null, booleans, well-formed number
//! spans, strings without quotes or backslashes inside, and arbitrarily
//! nested arrays and objects of the same.  `unparse` writes it out with no
//! interior whitespace; `sem` is the value a builder constructs from it,
//! inserting object members in order so that a later duplicate key
//! overwrites an earlier one.  The law at the bottom states that `sp_parse`
//! — the function the executable parser is proved to implement — maps the
//! written text to exactly that value, with no diagnostics.

use vstd::prelude::*;

use crate::errors::ErrorModel;
use crate::lexical::{
    classify, is_newline_char, is_punct_char, is_space_char, lex_results, ok_tokens, err_list,
    raw_units, spec_try_from_json, token_end, token_is_ws, unit_at, unit_end, units_from, TokenModel,
};
use crate::number::number_ok;
use crate::parsing::{
    sp_array, sp_elements, sp_elements_loop, sp_member, sp_members, sp_members_loop, sp_object,
    sp_parse, sp_parse_tokens, sp_sep, sp_until, sp_value, string_content, string_valid,
    unescaped_quotes, ws_end, ValueModel,
};

verus! {

broadcast use vstd::seq::group_seq_axioms;

/// A literal a caller could hand to a builder: the shapes whose canonical
/// text is syntactically valid JSON with no malformed interior.
pub enum Literal {
    Null,
    Bool(bool),
    Number(Seq<char>),
    String(Seq<char>),
    Array(Seq<Literal>),
    Object(Seq<(Seq<char>, Literal)>),
}

/// A character that neither delimits units nor takes part in string
/// capture: it can stand inside a bare token span.
pub open spec fn tame_char(c: char) -> bool {
    !is_punct_char(c) && !is_space_char(c) && !is_newline_char(c) && c != '"' && c != '\\'
}

/// Every character of `t` is tame.
pub open spec fn span_ok(t: Seq<char>) -> bool {
    forall|k: int| 0 <= k < t.len() ==> tame_char(#[trigger] t[k])
}

/// String contents must not hold a quote or a backslash: escape sequences
/// are not interpreted, so there is no way to write either one inside a
/// well-formed string.
pub open spec fn content_ok(t: Seq<char>) -> bool {
    forall|k: int| 0 <= k < t.len() ==> #[trigger] t[k] != '"' && t[k] != '\\'
}

/// Is the literal well-formed: numbers are decodable bare spans starting
/// as a number token must, and string contents are representable?
pub open spec fn literal_wf(l: Literal) -> bool
    decreases l,
{
    match l {
        Literal::Null => true,
        Literal::Bool(_) => true,
        Literal::Number(raw) => raw.len() >= 1 && (raw[0] == '-' || ('0' <= raw[0] && raw[0]
            <= '9')) && number_ok(raw) && span_ok(raw),
        Literal::String(c) => content_ok(c),
        Literal::Array(items) => forall|k: int|
            0 <= k < items.len() ==> literal_wf(#[trigger] items[k]),
        Literal::Object(ps) => forall|k: int|
            0 <= k < ps.len() ==> content_ok((#[trigger] ps[k]).0) && literal_wf(ps[k].1),
    }
}

/// A string span: the content between its two quotes.
pub open spec fn quoted(c: Seq<char>) -> Seq<char> {
    seq!['"'] + c + seq!['"']
}

/// The canonical text of a literal: no whitespace anywhere.
pub open spec fn unparse(l: Literal) -> Seq<char>
    decreases l,
{
    match l {
        Literal::Null => seq!['n', 'u', 'l', 'l'],
        Literal::Bool(b) => if b {
            seq!['t', 'r', 'u', 'e']
        } else {
            seq!['f', 'a', 'l', 's', 'e']
        },
        Literal::Number(raw) => raw,
        Literal::String(c) => quoted(c),
        Literal::Array(items) => seq!['['] + unparse_items(items) + seq![']'],
        Literal::Object(ps) => seq!['{'] + unparse_members(ps) + seq!['}'],
    }
}

/// The canonical text of array elements, comma-separated.
pub open spec fn unparse_items(items: Seq<Literal>) -> Seq<char>
    decreases items,
{
    if items.len() == 0 {
        seq![]
    } else if items.len() == 1 {
        unparse(items[0])
    } else {
        unparse(items[0]) + seq![','] + unparse_items(items.drop_first())
    }
}

/// The canonical text of object members, comma-separated.
pub open spec fn unparse_members(ps: Seq<(Seq<char>, Literal)>) -> Seq<char>
    decreases ps,
{
    if ps.len() == 0 {
        seq![]
    } else {
        let head = quoted(ps[0].0) + seq![':'] + unparse(ps[0].1);
        if ps.len() == 1 {
            head
        } else {
            head + seq![','] + unparse_members(ps.drop_first())
        }
    }
}

/// The units the splitter finds in a literal's canonical text, in order.
pub open spec fn atoms(l: Literal) -> Seq<Seq<char>>
    decreases l,
{
    match l {
        Literal::Array(items) => seq![seq!['[']] + atoms_items(items) + seq![seq![']']],
        Literal::Object(ps) => seq![seq!['{']] + atoms_members(ps) + seq![seq!['}']],
        _ => seq![unparse(l)],
    }
}

/// The units of comma-separated array elements.
pub open spec fn atoms_items(items: Seq<Literal>) -> Seq<Seq<char>>
    decreases items,
{
    if items.len() == 0 {
        seq![]
    } else if items.len() == 1 {
        atoms(items[0])
    } else {
        atoms(items[0]) + seq![seq![',']] + atoms_items(items.drop_first())
    }
}

/// The units of comma-separated object members.
pub open spec fn atoms_members(ps: Seq<(Seq<char>, Literal)>) -> Seq<Seq<char>>
    decreases ps,
{
    if ps.len() == 0 {
        seq![]
    } else {
        let head = seq![quoted(ps[0].0), seq![':']] + atoms(ps[0].1);
        if ps.len() == 1 {
            head
        } else {
            head + seq![seq![',']] + atoms_members(ps.drop_first())
        }
    }
}

/// The tokens those units classify to, in order.
pub open spec fn toks(l: Literal) -> Seq<TokenModel>
    decreases l,
{
    match l {
        Literal::Null => seq![TokenModel::Null],
        Literal::Bool(b) => seq![TokenModel::Bool(b)],
        Literal::Number(raw) => seq![TokenModel::Number(raw)],
        Literal::String(c) => seq![TokenModel::String(quoted(c))],
        Literal::Array(items) => seq![TokenModel::Punctuation('[')] + toks_items(items) + seq![
            TokenModel::Punctuation(']'),
        ],
        Literal::Object(ps) => seq![TokenModel::Punctuation('{')] + toks_members(ps) + seq![
            TokenModel::Punctuation('}'),
        ],
    }
}

/// The tokens of comma-separated array elements.
pub open spec fn toks_items(items: Seq<Literal>) -> Seq<TokenModel>
    decreases items,
{
    if items.len() == 0 {
        seq![]
    } else if items.len() == 1 {
        toks(items[0])
    } else {
        toks(items[0]) + seq![TokenModel::Punctuation(',')] + toks_items(items.drop_first())
    }
}

/// The tokens of comma-separated object members.
pub open spec fn toks_members(ps: Seq<(Seq<char>, Literal)>) -> Seq<TokenModel>
    decreases ps,
{
    if ps.len() == 0 {
        seq![]
    } else {
        let head = seq![TokenModel::String(quoted(ps[0].0)), TokenModel::Punctuation(':')] + toks(
            ps[0].1,
        );
        if ps.len() == 1 {
            head
        } else {
            head + seq![TokenModel::Punctuation(',')] + toks_members(ps.drop_first())
        }
    }
}

/// The value a reference builder constructs from the literal, members
/// inserted in order so a later duplicate key overwrites an earlier one.
pub open spec fn sem(l: Literal) -> ValueModel
    decreases l,
{
    match l {
        Literal::Null => ValueModel::Null,
        Literal::Bool(b) => ValueModel::Bool(b),
        Literal::Number(raw) => ValueModel::Number(raw),
        Literal::String(c) => ValueModel::String(c),
        Literal::Array(items) => ValueModel::Array(sem_items(items)),
        Literal::Object(ps) => ValueModel::Object(sem_members(Map::empty(), ps)),
    }
}

/// The values of the elements, in order.
pub open spec fn sem_items(items: Seq<Literal>) -> Seq<ValueModel>
    decreases items,
{
    if items.len() == 0 {
        seq![]
    } else {
        seq![sem(items[0])] + sem_items(items.drop_first())
    }
}

/// The mapping after inserting every member in order, starting from `acc`.
pub open spec fn sem_members(
    acc: Map<Seq<char>, ValueModel>,
    ps: Seq<(Seq<char>, Literal)>,
) -> Map<Seq<char>, ValueModel>
    decreases ps,
{
    if ps.len() == 0 {
        acc
    } else {
        sem_members(acc.insert(ps[0].0, sem(ps[0].1)), ps.drop_first())
    }
}

/// A unit may end a bare span: a delimiter of any kind, or the end.
spec fn breaks_bare(s: Seq<char>, j: int) -> bool {
    j == s.len() || is_punct_char(s[j]) || is_space_char(s[j]) || is_newline_char(s[j])
}

/// A span of tame characters scans to exactly its own end.
proof fn lemma_scan_tame(s: Seq<char>, i: int, j: int)
    requires
        0 <= i <= j <= s.len(),
        forall|k: int| i <= k < j ==> tame_char(#[trigger] s[k]),
        breaks_bare(s, j),
    ensures
        token_end(s, i, false) == j,
    decreases j - i,
{
    if i < j {
        lemma_scan_tame(s, i + 1, j);
    }
}

/// Inside string capture, clean characters scan straight through.
proof fn lemma_scan_in_quotes(s: Seq<char>, k: int, j: int)
    requires
        0 <= k <= j < s.len(),
        forall|m: int| k <= m < j ==> #[trigger] s[m] != '"' && s[m] != '\\',
    ensures
        token_end(s, k, true) == token_end(s, j, true),
    decreases j - k,
{
    if k < j {
        lemma_scan_in_quotes(s, k + 1, j);
    }
}

/// A quoted span with clean content scans to just past its closing quote.
proof fn lemma_scan_string(s: Seq<char>, i: int, j: int)
    requires
        0 <= i < j <= s.len(),
        j - i >= 2,
        s[i] == '"',
        s[j - 1] == '"',
        forall|m: int| i < m < j - 1 ==> #[trigger] s[m] != '"' && s[m] != '\\',
        breaks_bare(s, j),
    ensures
        token_end(s, i, false) == j,
{
    assert(token_end(s, i, false) == token_end(s, i + 1, true));
    lemma_scan_in_quotes(s, i + 1, j - 1);
    assert(token_end(s, j - 1, true) == token_end(s, j, false));
    if j < s.len() {
        assert(token_end(s, j, false) == j);
    }
}

/// Wrapping clean content in quotes gives a decodable string span whose
/// content is exactly what was wrapped.
proof fn lemma_quoted_valid(c: Seq<char>)
    requires
        content_ok(c),
    ensures
        string_valid(quoted(c)),
        string_content(quoted(c)) == c,
{
    let u = quoted(c);
    assert(u.len() == c.len() + 2);
    assert(u[0] == '"');
    assert(u.last() == '"');
    lemma_quote_run(u, 1);
    assert(unescaped_quotes(u, 0) == 2);
    assert(string_content(u) =~= c);
}

/// From inside a clean quoted span, exactly one quote (the closer) is
/// still to come.
proof fn lemma_quote_run(u: Seq<char>, k: int)
    requires
        u.len() >= 2,
        u.last() == '"',
        forall|m: int| 1 <= m < u.len() - 1 ==> #[trigger] u[m] != '"' && u[m] != '\\',
        1 <= k <= u.len() - 1,
    ensures
        unescaped_quotes(u, k) == 1,
    decreases u.len() - k,
{
    if k < u.len() - 1 {
        lemma_quote_run(u, k + 1);
        assert(u[k] != '"' && u[k] != '\\');
        assert(unescaped_quotes(u, k) == unescaped_quotes(u, k + 1));
    } else {
        assert(u[k] == u.last());
        assert(unescaped_quotes(u, u.len() as int) == 0);
    }
}

/// One bare span embedded at `i` is one unit.
proof fn a_bare(s: Seq<char>, i: int, t: Seq<char>)
    requires
        t.len() >= 1,
        span_ok(t),
        0 <= i,
        i + t.len() <= s.len(),
        s.subrange(i, i + t.len()) == t,
        breaks_bare(s, i + t.len()),
    ensures
        units_from(s, i) == seq![t] + units_from(s, i + t.len()),
{
    assert forall|k: int| i <= k < i + t.len() implies tame_char(#[trigger] s[k]) by {
        assert(s[k] == s.subrange(i, i + t.len())[k - i]);
    }
    lemma_scan_tame(s, i, i + t.len());
    assert(s[i] == t[0]) by {
        assert(s[i] == s.subrange(i, i + t.len())[0]);
    }
    assert(unit_end(s, i) == i + t.len());
    assert(unit_at(s, i) == s.subrange(i, i + t.len()));
    assert(units_from(s, i) =~= seq![t] + units_from(s, i + t.len()));
}

/// One quoted span embedded at `i` is one unit.
proof fn a_quoted(s: Seq<char>, i: int, c: Seq<char>)
    requires
        content_ok(c),
        0 <= i,
        i + c.len() + 2 <= s.len(),
        s.subrange(i, i + c.len() + 2) == quoted(c),
        breaks_bare(s, i + c.len() + 2),
    ensures
        units_from(s, i) == seq![quoted(c)] + units_from(s, i + c.len() + 2),
{
    let n = c.len() + 2;
    assert forall|k: int| i <= k < i + n implies s[k] == quoted(c)[k - i] by {
        assert(s[k] == s.subrange(i, i + n)[k - i]);
    }
    assert(s[i] == '"');
    assert(s[i + n - 1] == '"');
    assert forall|m: int| i < m < i + n - 1 implies #[trigger] s[m] != '"' && s[m] != '\\' by {
        assert(s[m] == quoted(c)[m - i]);
        assert(quoted(c)[m - i] == c[m - i - 1]);
    }
    lemma_scan_string(s, i, i + n);
    assert(!is_punct_char('"') && !is_space_char('"') && !is_newline_char('"'));
    assert(unit_end(s, i) == i + n);
    assert(unit_at(s, i) == s.subrange(i, i + n));
    assert(units_from(s, i) =~= seq![quoted(c)] + units_from(s, i + n));
}

/// One punctuation character embedded at `i` is one unit.
proof fn a_punct(s: Seq<char>, i: int)
    requires
        0 <= i < s.len(),
        is_punct_char(s[i]),
    ensures
        units_from(s, i) == seq![seq![s[i]]] + units_from(s, i + 1),
{
    assert(unit_end(s, i) == i + 1);
    assert(unit_at(s, i) =~= seq![s[i]]);
    assert(units_from(s, i) =~= seq![seq![s[i]]] + units_from(s, i + 1));
}

/// The canonical text of a literal, embedded before a delimiter or the
/// end of input, splits into exactly its atoms.
proof fn a_value(l: Literal, s: Seq<char>, i: int)
    requires
        literal_wf(l),
        0 <= i,
        i + unparse(l).len() <= s.len(),
        s.subrange(i, i + unparse(l).len()) == unparse(l),
        i + unparse(l).len() == s.len() || is_punct_char(s[i + unparse(l).len()]),
    ensures
        units_from(s, i) == atoms(l) + units_from(s, i + unparse(l).len()),
    decreases l,
{
    let u = unparse(l);
    let n = u.len();
    match l {
        Literal::Null => {
            assert(span_ok(u)) by {
                assert(u[0] == 'n' && u[1] == 'u' && u[2] == 'l' && u[3] == 'l');
            }
            a_bare(s, i, u);
        },
        Literal::Bool(b) => {
            assert(span_ok(u)) by {
                if b {
                    assert(u[0] == 't' && u[1] == 'r' && u[2] == 'u' && u[3] == 'e');
                } else {
                    assert(u[0] == 'f' && u[1] == 'a' && u[2] == 'l' && u[3] == 's' && u[4]
                        == 'e');
                }
            }
            a_bare(s, i, u);
        },
        Literal::Number(raw) => {
            a_bare(s, i, raw);
        },
        Literal::String(c) => {
            a_quoted(s, i, c);
        },
        Literal::Array(items) => {
            let m = unparse_items(items).len();
            assert forall|p: int| i <= p < i + n implies #[trigger] s[p] == u[p - i] by {
                assert(s.subrange(i, i + n)[p - i] == s[p]);
            }
            assert(u[0] == '[');
            assert(s[i] == '[');
            a_punct(s, i);
            if items.len() == 0 {
                assert(s[i + 1] == ']');
                a_punct(s, i + 1);
                assert(units_from(s, i) =~= atoms(l) + units_from(s, i + n));
            } else {
                assert(s.subrange(i + 1, i + 1 + m) =~= unparse_items(items));
                assert(s[i + 1 + m] == ']');
                a_items(items, s, i + 1);
                a_punct(s, i + 1 + m);
                assert(units_from(s, i) =~= atoms(l) + units_from(s, i + n));
            }
        },
        Literal::Object(ps) => {
            let m = unparse_members(ps).len();
            assert forall|p: int| i <= p < i + n implies #[trigger] s[p] == u[p - i] by {
                assert(s.subrange(i, i + n)[p - i] == s[p]);
            }
            assert(u[0] == '{');
            assert(s[i] == '{');
            a_punct(s, i);
            if ps.len() == 0 {
                assert(s[i + 1] == '}');
                a_punct(s, i + 1);
                assert(units_from(s, i) =~= atoms(l) + units_from(s, i + n));
            } else {
                assert(s.subrange(i + 1, i + 1 + m) =~= unparse_members(ps));
                assert(s[i + 1 + m] == '}');
                a_members(ps, s, i + 1);
                a_punct(s, i + 1 + m);
                assert(units_from(s, i) =~= atoms(l) + units_from(s, i + n));
            }
        },
    }
}

/// Comma-separated elements embedded before their `]` split into exactly
/// their atoms.
proof fn a_items(items: Seq<Literal>, s: Seq<char>, i: int)
    requires
        items.len() >= 1,
        forall|k: int| 0 <= k < items.len() ==> literal_wf(#[trigger] items[k]),
        0 <= i,
        i + unparse_items(items).len() < s.len(),
        s.subrange(i, i + unparse_items(items).len()) == unparse_items(items),
        s[i + unparse_items(items).len()] == ']',
    ensures
        units_from(s, i) == atoms_items(items) + units_from(s, i + unparse_items(items).len()),
    decreases items,
{
    let m = unparse_items(items).len();
    if items.len() == 1 {
        assert(unparse_items(items) == unparse(items[0]));
        a_value(items[0], s, i);
    } else {
        let u0 = unparse(items[0]);
        let rest = unparse_items(items.drop_first());
        assert(unparse_items(items) == u0 + seq![','] + rest);
        assert forall|p: int| i <= p < i + m implies #[trigger] s[p] == unparse_items(items)[p
            - i] by {
            assert(s.subrange(i, i + m)[p - i] == s[p]);
        }
        assert(s.subrange(i, i + u0.len()) =~= u0);
        assert(s[i + u0.len()] == ',');
        a_value(items[0], s, i);
        a_punct(s, i + u0.len());
        assert(s.subrange(i + u0.len() + 1, i + u0.len() + 1 + rest.len()) =~= rest);
        assert forall|k: int| 0 <= k < items.drop_first().len() implies literal_wf(
            #[trigger] items.drop_first()[k],
        ) by {
            assert(items.drop_first()[k] == items[k + 1]);
        }
        a_items(items.drop_first(), s, i + u0.len() + 1);
        assert(atoms_items(items) == atoms(items[0]) + seq![seq![',']] + atoms_items(
            items.drop_first(),
        ));
        assert(units_from(s, i) =~= atoms_items(items) + units_from(s, i + m));
    }
}

/// Comma-separated members embedded before their `}` split into exactly
/// their atoms.
proof fn a_members(ps: Seq<(Seq<char>, Literal)>, s: Seq<char>, i: int)
    requires
        ps.len() >= 1,
        forall|k: int| 0 <= k < ps.len() ==> content_ok((#[trigger] ps[k]).0) && literal_wf(
            ps[k].1,
        ),
        0 <= i,
        i + unparse_members(ps).len() < s.len(),
        s.subrange(i, i + unparse_members(ps).len()) == unparse_members(ps),
        s[i + unparse_members(ps).len()] == '}',
    ensures
        units_from(s, i) == atoms_members(ps) + units_from(s, i + unparse_members(ps).len()),
    decreases ps,
{
    let m = unparse_members(ps).len();
    let key = ps[0].0;
    let v = ps[0].1;
    let kq = quoted(key);
    let uv = unparse(v);
    let head = kq + seq![':'] + uv;
    assert forall|p: int| i <= p < i + m implies #[trigger] s[p] == unparse_members(ps)[p - i] by {
        assert(s.subrange(i, i + m)[p - i] == s[p]);
    }
    if ps.len() == 1 {
        assert(unparse_members(ps) == head);
        assert(s.subrange(i, i + kq.len()) =~= kq);
        assert(s[i + kq.len()] == ':');
        a_quoted(s, i, key);
        a_punct(s, i + kq.len());
        assert(s.subrange(i + kq.len() + 1, i + kq.len() + 1 + uv.len()) =~= uv);
        assert(s[i + kq.len() + 1 + uv.len()] == '}');
        a_value(v, s, i + kq.len() + 1);
        assert(atoms_members(ps) == seq![kq, seq![':']] + atoms(v));
        assert(units_from(s, i) =~= atoms_members(ps) + units_from(s, i + m));
    } else {
        let rest = unparse_members(ps.drop_first());
        assert(unparse_members(ps) == head + seq![','] + rest);
        assert(s.subrange(i, i + kq.len()) =~= kq);
        assert(s[i + kq.len()] == ':');
        a_quoted(s, i, key);
        a_punct(s, i + kq.len());
        assert(s.subrange(i + kq.len() + 1, i + kq.len() + 1 + uv.len()) =~= uv);
        assert(s[i + kq.len() + 1 + uv.len()] == ',');
        a_value(v, s, i + kq.len() + 1);
        a_punct(s, i + head.len());
        assert(s.subrange(i + head.len() + 1, i + head.len() + 1 + rest.len()) =~= rest);
        assert forall|k: int| 0 <= k < ps.drop_first().len() implies content_ok(
            (#[trigger] ps.drop_first()[k]).0,
        ) && literal_wf(ps.drop_first()[k].1) by {
            assert(ps.drop_first()[k] == ps[k + 1]);
        }
        a_members(ps.drop_first(), s, i + head.len() + 1);
        assert(atoms_members(ps) == seq![kq, seq![':']] + atoms(v) + seq![seq![',']]
            + atoms_members(ps.drop_first()));
        assert(units_from(s, i) =~= atoms_members(ps) + units_from(s, i + m));
    }
}

/// Every unit classifies, and to the matching token.
spec fn all_classified(asq: Seq<Seq<char>>, tsq: Seq<TokenModel>) -> bool {
    asq.len() == tsq.len() && forall|k: int|
        0 <= k < asq.len() ==> #[trigger] classify(asq[k]) == Some(tsq[k])
}

proof fn lemma_all_classified_concat(
    a1: Seq<Seq<char>>,
    t1: Seq<TokenModel>,
    a2: Seq<Seq<char>>,
    t2: Seq<TokenModel>,
)
    requires
        all_classified(a1, t1),
        all_classified(a2, t2),
    ensures
        all_classified(a1 + a2, t1 + t2),
{
    assert forall|k: int| 0 <= k < (a1 + a2).len() implies #[trigger] classify((a1 + a2)[k])
        == Some((t1 + t2)[k]) by {
        if k < a1.len() {
            assert((a1 + a2)[k] == a1[k]);
            assert((t1 + t2)[k] == t1[k]);
        } else {
            assert((a1 + a2)[k] == a2[k - a1.len()]);
            assert((t1 + t2)[k] == t2[k - a1.len()]);
        }
    }
}

/// A literal's atoms classify to exactly its tokens.
proof fn c_value(l: Literal)
    requires
        literal_wf(l),
    ensures
        all_classified(atoms(l), toks(l)),
    decreases l,
{
    match l {
        Literal::Null => {
            let u = unparse(l);
            assert(u == seq!['n', 'u', 'l', 'l']);
            assert(classify(u) == Some(TokenModel::Null));
        },
        Literal::Bool(b) => {
            let u = unparse(l);
            assert(classify(u) == Some(TokenModel::Bool(b)));
        },
        Literal::Number(raw) => {
            assert(tame_char(raw[0]));
            assert(raw != seq!['n', 'u', 'l', 'l'] && raw != seq!['f', 'a', 'l', 's', 'e'] && raw
                != seq!['t', 'r', 'u', 'e']) by {
                assert(seq!['n', 'u', 'l', 'l'][0] == 'n');
                assert(seq!['f', 'a', 'l', 's', 'e'][0] == 'f');
                assert(seq!['t', 'r', 'u', 'e'][0] == 't');
            }
            assert(classify(raw) == Some(TokenModel::Number(raw)));
        },
        Literal::String(c) => {
            let u = quoted(c);
            assert(u[0] == '"');
            assert(u != seq!['n', 'u', 'l', 'l'] && u != seq!['f', 'a', 'l', 's', 'e'] && u
                != seq!['t', 'r', 'u', 'e']) by {
                assert(seq!['n', 'u', 'l', 'l'][0] == 'n');
                assert(seq!['f', 'a', 'l', 's', 'e'][0] == 'f');
                assert(seq!['t', 'r', 'u', 'e'][0] == 't');
            }
            assert(classify(u) == Some(TokenModel::String(u)));
        },
        Literal::Array(items) => {
            assert(classify(seq!['[']) == Some(TokenModel::Punctuation('[')));
            assert(classify(seq![']']) == Some(TokenModel::Punctuation(']')));
            c_items(items);
            lemma_all_classified_concat(
                seq![seq!['[']],
                seq![TokenModel::Punctuation('[')],
                atoms_items(items),
                toks_items(items),
            );
            lemma_all_classified_concat(
                seq![seq!['[']] + atoms_items(items),
                seq![TokenModel::Punctuation('[')] + toks_items(items),
                seq![seq![']']],
                seq![TokenModel::Punctuation(']')],
            );
        },
        Literal::Object(ps) => {
            assert(classify(seq!['{']) == Some(TokenModel::Punctuation('{')));
            assert(classify(seq!['}']) == Some(TokenModel::Punctuation('}')));
            c_members(ps);
            lemma_all_classified_concat(
                seq![seq!['{']],
                seq![TokenModel::Punctuation('{')],
                atoms_members(ps),
                toks_members(ps),
            );
            lemma_all_classified_concat(
                seq![seq!['{']] + atoms_members(ps),
                seq![TokenModel::Punctuation('{')] + toks_members(ps),
                seq![seq!['}']],
                seq![TokenModel::Punctuation('}')],
            );
        },
    }
}

proof fn c_items(items: Seq<Literal>)
    requires
        forall|k: int| 0 <= k < items.len() ==> literal_wf(#[trigger] items[k]),
    ensures
        all_classified(atoms_items(items), toks_items(items)),
    decreases items,
{
    if items.len() == 0 {
    } else if items.len() == 1 {
        c_value(items[0]);
    } else {
        c_value(items[0]);
        assert(classify(seq![',']) == Some(TokenModel::Punctuation(',')));
        assert forall|k: int| 0 <= k < items.drop_first().len() implies literal_wf(
            #[trigger] items.drop_first()[k],
        ) by {
            assert(items.drop_first()[k] == items[k + 1]);
        }
        c_items(items.drop_first());
        lemma_all_classified_concat(
            atoms(items[0]),
            toks(items[0]),
            seq![seq![',']],
            seq![TokenModel::Punctuation(',')],
        );
        lemma_all_classified_concat(
            atoms(items[0]) + seq![seq![',']],
            toks(items[0]) + seq![TokenModel::Punctuation(',')],
            atoms_items(items.drop_first()),
            toks_items(items.drop_first()),
        );
    }
}

proof fn c_members(ps: Seq<(Seq<char>, Literal)>)
    requires
        forall|k: int| 0 <= k < ps.len() ==> content_ok((#[trigger] ps[k]).0) && literal_wf(
            ps[k].1,
        ),
    ensures
        all_classified(atoms_members(ps), toks_members(ps)),
    decreases ps,
{
    if ps.len() == 0 {
    } else {
        let kq = quoted(ps[0].0);
        assert(kq[0] == '"');
        assert(kq != seq!['n', 'u', 'l', 'l'] && kq != seq!['f', 'a', 'l', 's', 'e'] && kq
            != seq!['t', 'r', 'u', 'e']) by {
            assert(seq!['n', 'u', 'l', 'l'][0] == 'n');
            assert(seq!['f', 'a', 'l', 's', 'e'][0] == 'f');
            assert(seq!['t', 'r', 'u', 'e'][0] == 't');
        }
        assert(classify(kq) == Some(TokenModel::String(kq)));
        assert(classify(seq![':']) == Some(TokenModel::Punctuation(':')));
        c_value(ps[0].1);
        lemma_all_classified_concat(
            seq![kq, seq![':']],
            seq![TokenModel::String(kq), TokenModel::Punctuation(':')],
            atoms(ps[0].1),
            toks(ps[0].1),
        );
        if ps.len() > 1 {
            assert(classify(seq![',']) == Some(TokenModel::Punctuation(',')));
            assert forall|k: int| 0 <= k < ps.drop_first().len() implies content_ok(
                (#[trigger] ps.drop_first()[k]).0,
            ) && literal_wf(ps.drop_first()[k].1) by {
                assert(ps.drop_first()[k] == ps[k + 1]);
            }
            c_members(ps.drop_first());
            let head = seq![kq, seq![':']] + atoms(ps[0].1);
            let thead = seq![TokenModel::String(kq), TokenModel::Punctuation(':')] + toks(
                ps[0].1,
            );
            lemma_all_classified_concat(
                head,
                thead,
                seq![seq![',']],
                seq![TokenModel::Punctuation(',')],
            );
            lemma_all_classified_concat(
                head + seq![seq![',']],
                thead + seq![TokenModel::Punctuation(',')],
                atoms_members(ps.drop_first()),
                toks_members(ps.drop_first()),
            );
        }
    }
}

/// A stream whose units all classify has no lexical failures, and its
/// tokens are exactly the classifications.
proof fn lemma_clean_stream(asq: Seq<Seq<char>>, tsq: Seq<TokenModel>)
    requires
        all_classified(asq, tsq),
    ensures
        err_list(lex_results(asq)) == Seq::<ErrorModel>::empty(),
        ok_tokens(lex_results(asq)) == tsq,
    decreases asq.len(),
{
    let rs = lex_results(asq);
    if asq.len() == 0 {
        assert(rs =~= Seq::<Result<TokenModel, ErrorModel>>::empty());
        assert(tsq =~= Seq::<TokenModel>::empty());
    } else {
        let a1 = asq.drop_last();
        let t1 = tsq.drop_last();
        assert(all_classified(a1, t1)) by {
            assert forall|k: int| 0 <= k < a1.len() implies #[trigger] classify(a1[k]) == Some(
                t1[k],
            ) by {
                assert(a1[k] == asq[k]);
                assert(t1[k] == tsq[k]);
            }
        }
        lemma_clean_stream(a1, t1);
        assert(rs.drop_last() =~= lex_results(a1)) by {
            assert forall|k: int| 0 <= k < rs.drop_last().len() implies rs.drop_last()[k]
                == lex_results(a1)[k] by {
                assert(a1[k] == asq[k]);
                assert(classify(asq[k]) == Some(tsq[k]));
            }
        }
        assert(rs.last() == Ok::<TokenModel, ErrorModel>(tsq.last())) by {
            assert(classify(asq[asq.len() - 1]) == Some(tsq[asq.len() - 1]));
        }
        assert(err_list(rs) =~= Seq::<ErrorModel>::empty());
        assert(ok_tokens(rs) =~= tsq);
    }
}

/// Tokens that may begin a value.
spec fn value_start(t: TokenModel) -> bool {
    match t {
        TokenModel::Null => true,
        TokenModel::Bool(_) => true,
        TokenModel::Number(_) => true,
        TokenModel::String(_) => true,
        TokenModel::Punctuation(c) => c == '[' || c == '{',
        _ => false,
    }
}

proof fn lemma_adv_exact(ts: Seq<TokenModel>, x: int, n: int)
    requires
        0 <= x,
        0 <= n,
        x + n <= ts.len(),
    ensures
        crate::parsing::adv(ts, x, n) == x + n,
{
}

/// A literal's token sequence is nonempty and begins with a value
/// starter.
proof fn b_first(l: Literal)
    ensures
        toks(l).len() >= 1,
        value_start(toks(l)[0]),
{
    match l {
        Literal::Array(items) => {
            assert(toks(l)[0] == TokenModel::Punctuation('['));
        },
        Literal::Object(ps) => {
            assert(toks(l)[0] == TokenModel::Punctuation('{'));
        },
        _ => {},
    }
}

/// The first token of a nonempty element list is the first element's.
proof fn b_items_first(items: Seq<Literal>)
    requires
        items.len() >= 1,
    ensures
        toks_items(items).len() >= 1,
        toks_items(items)[0] == toks(items[0])[0],
        value_start(toks_items(items)[0]),
{
    b_first(items[0]);
    if items.len() > 1 {
        assert(toks_items(items)[0] == toks(items[0])[0]);
    }
}

/// The first token of a nonempty member list is its first key's string.
proof fn b_members_first(ps: Seq<(Seq<char>, Literal)>)
    requires
        ps.len() >= 1,
    ensures
        toks_members(ps).len() >= 2,
        toks_members(ps)[0] == TokenModel::String(quoted(ps[0].0)),
        toks_members(ps)[1] == TokenModel::Punctuation(':'),
{
    b_first(ps[0].1);
}

/// A literal's token sequence, embedded in a stream, parses as one value:
/// exactly its tokens consumed, no diagnostics, and the built value.
proof fn b_value(l: Literal, ts: Seq<TokenModel>, i: int)
    requires
        literal_wf(l),
        0 <= i,
        i + toks(l).len() <= ts.len(),
        ts.subrange(i, i + toks(l).len()) == toks(l),
    ensures
        sp_value(ts, i).0 == toks(l).len(),
        sp_value(ts, i).1 == Seq::<ErrorModel>::empty(),
        sp_value(ts, i).2 == Some(sem(l)),
    decreases l, 2int,
{
    let tl = toks(l);
    let n = tl.len() as int;
    assert forall|p: int| i <= p < i + n implies #[trigger] ts[p] == tl[p - i] by {
        assert(ts.subrange(i, i + n)[p - i] == ts[p]);
    }
    b_first(l);
    assert(ts[i] == tl[0]);
    assert(!token_is_ws(ts[i]));
    assert(ws_end(ts, i) == i);
    match l {
        Literal::Null => {
            assert(sp_value(ts, i).1 =~= Seq::<ErrorModel>::empty());
        },
        Literal::Bool(b) => {
            assert(sp_value(ts, i).1 =~= Seq::<ErrorModel>::empty());
        },
        Literal::Number(raw) => {
            assert(ts[i] == TokenModel::Number(raw));
            assert(sp_value(ts, i).1 =~= Seq::<ErrorModel>::empty());
        },
        Literal::String(c) => {
            lemma_quoted_valid(c);
            assert(ts[i] == TokenModel::String(quoted(c)));
            assert(sp_value(ts, i).1 =~= Seq::<ErrorModel>::empty());
        },
        Literal::Array(items) => {
            assert(ts[i] == TokenModel::Punctuation('['));
            b_array(items, ts, i);
            assert(sp_value(ts, i).0 == toks(l).len());
        },
        Literal::Object(ps) => {
            assert(ts[i] == TokenModel::Punctuation('{'));
            b_object(ps, ts, i);
            assert(sp_value(ts, i).0 == toks(l).len());
        },
    }
}

/// An array's token sequence, embedded in a stream, parses as that array.
proof fn b_array(items: Seq<Literal>, ts: Seq<TokenModel>, i: int)
    requires
        forall|k: int| 0 <= k < items.len() ==> literal_wf(#[trigger] items[k]),
        0 <= i,
        i + toks(Literal::Array(items)).len() <= ts.len(),
        ts.subrange(i, i + toks(Literal::Array(items)).len()) == toks(Literal::Array(items)),
    ensures
        sp_array(ts, i).0 == toks(Literal::Array(items)).len(),
        sp_array(ts, i).1 == Seq::<ErrorModel>::empty(),
        sp_array(ts, i).2 == Some(ValueModel::Array(sem_items(items))),
    decreases items, 1int,
{
    let tl = toks(Literal::Array(items));
    let n = tl.len() as int;
    let m = toks_items(items).len() as int;
    assert forall|p: int| i <= p < i + n implies #[trigger] ts[p] == tl[p - i] by {
        assert(ts.subrange(i, i + n)[p - i] == ts[p]);
    }
    assert(ts[i] == TokenModel::Punctuation('['));
    if items.len() == 0 {
        assert(ts[i + 1] == TokenModel::Punctuation(']'));
        assert(sem_items(items) =~= Seq::<ValueModel>::empty());
        assert(sp_array(ts, i).1 =~= Seq::<ErrorModel>::empty());
    } else {
        b_items_first(items);
        assert(ts[i + 1] == toks_items(items)[0]);
        assert(ts[i + 1] != TokenModel::Punctuation(']'));
        assert(ts.subrange(i + 1, i + 1 + m) =~= toks_items(items));
        assert(ts[i + 1 + m] == TokenModel::Punctuation(']'));
        b_elements_loop(items, ts, i + 1, Seq::<ValueModel>::empty());
        assert(sp_elements(ts, i + 1).0 == m + 1);
        assert(sp_elements(ts, i + 1).2 == Some(Seq::<ValueModel>::empty() + sem_items(items)));
        assert(Seq::<ValueModel>::empty() + sem_items(items) =~= sem_items(items));
        assert(sp_array(ts, i).0 == 1 + m + 1);
    }
}

/// An object's token sequence, embedded in a stream, parses as that
/// object.
proof fn b_object(ps: Seq<(Seq<char>, Literal)>, ts: Seq<TokenModel>, i: int)
    requires
        forall|k: int| 0 <= k < ps.len() ==> content_ok((#[trigger] ps[k]).0) && literal_wf(
            ps[k].1,
        ),
        0 <= i,
        i + toks(Literal::Object(ps)).len() <= ts.len(),
        ts.subrange(i, i + toks(Literal::Object(ps)).len()) == toks(Literal::Object(ps)),
    ensures
        sp_object(ts, i).0 == toks(Literal::Object(ps)).len(),
        sp_object(ts, i).1 == Seq::<ErrorModel>::empty(),
        sp_object(ts, i).2 == Some(ValueModel::Object(sem_members(Map::empty(), ps))),
    decreases ps, 1int,
{
    let tl = toks(Literal::Object(ps));
    let n = tl.len() as int;
    let m = toks_members(ps).len() as int;
    assert forall|p: int| i <= p < i + n implies #[trigger] ts[p] == tl[p - i] by {
        assert(ts.subrange(i, i + n)[p - i] == ts[p]);
    }
    assert(ts[i] == TokenModel::Punctuation('{'));
    if ps.len() == 0 {
        assert(ts[i + 1] == TokenModel::Punctuation('}'));
        assert(sp_object(ts, i).1 =~= Seq::<ErrorModel>::empty());
    } else {
        b_members_first(ps);
        assert(ts[i + 1] == toks_members(ps)[0]);
        assert(ts[i + 1] != TokenModel::Punctuation('}'));
        assert(ts.subrange(i + 1, i + 1 + m) =~= toks_members(ps));
        assert(ts[i + 1 + m] == TokenModel::Punctuation('}'));
        b_members_loop(ps, ts, i + 1, Map::empty());
        assert(sp_members(ts, i + 1).0 == m + 1);
        assert(sp_object(ts, i).0 == 1 + m + 1);
    }
}

/// A nonempty element list followed by `]` runs the element loop to just
/// past the `]`, with no diagnostics, appending the elements' values.
proof fn b_elements_loop(
    items: Seq<Literal>,
    ts: Seq<TokenModel>,
    i: int,
    acc: Seq<ValueModel>,
)
    requires
        items.len() >= 1,
        forall|k: int| 0 <= k < items.len() ==> literal_wf(#[trigger] items[k]),
        0 <= i,
        i + toks_items(items).len() + 1 <= ts.len(),
        ts.subrange(i, i + toks_items(items).len()) == toks_items(items),
        ts[i + toks_items(items).len()] == TokenModel::Punctuation(']'),
    ensures
        sp_elements_loop(ts, i, acc).0 == toks_items(items).len() + 1,
        sp_elements_loop(ts, i, acc).1 == Seq::<ErrorModel>::empty(),
        sp_elements_loop(ts, i, acc).2 == acc + sem_items(items),
    decreases items, 0int,
{
    let m = toks_items(items).len() as int;
    assert forall|p: int| i <= p < i + m implies #[trigger] ts[p] == toks_items(items)[p - i] by {
        assert(ts.subrange(i, i + m)[p - i] == ts[p]);
    }
    b_items_first(items);
    assert(ts[i] == toks_items(items)[0]);
    assert(!token_is_ws(ts[i]));
    assert(ws_end(ts, i) == i);
    let n0 = toks(items[0]).len() as int;
    let sem0 = sem(items[0]);
    if items.len() == 1 {
        assert(toks_items(items) == toks(items[0]));
        b_value(items[0], ts, i);
        lemma_adv_exact(ts, i, n0);
        let i1 = i + n0;
        assert(ts[i1] == TokenModel::Punctuation(']'));
        assert(ws_end(ts, i1) == i1);
        assert(sp_until(ts, i1, ']', false).0 == 0);
        assert(sp_until(ts, i1, ']', false).1 == Seq::<ErrorModel>::empty());
        lemma_adv_exact(ts, i1, 0);
        assert(sp_sep(ts, i1, ']').0 == 1);
        assert(sp_sep(ts, i1, ']').2 == true);
        lemma_adv_exact(ts, i1, 1);
        assert(sp_elements_loop(ts, i, acc).1 =~= Seq::<ErrorModel>::empty());
        assert(items.drop_first().len() == 0);
        assert(sem_items(items.drop_first()) == Seq::<ValueModel>::empty());
        assert(sem_items(items) =~= seq![sem0]);
        assert(acc.push(sem0) =~= acc + sem_items(items));
    } else {
        let rest = items.drop_first();
        assert(toks_items(items) == toks(items[0]) + seq![TokenModel::Punctuation(',')]
            + toks_items(rest));
        assert(ts.subrange(i, i + n0) =~= toks(items[0]));
        b_value(items[0], ts, i);
        lemma_adv_exact(ts, i, n0);
        let i1 = i + n0;
        assert(ts[i1] == TokenModel::Punctuation(','));
        assert(ws_end(ts, i1) == i1);
        assert(sp_until(ts, i1, ']', false).0 == 0);
        assert(sp_until(ts, i1, ']', false).1 == Seq::<ErrorModel>::empty());
        lemma_adv_exact(ts, i1, 0);
        assert forall|k: int| 0 <= k < rest.len() implies literal_wf(#[trigger] rest[k]) by {
            assert(rest[k] == items[k + 1]);
        }
        b_items_first(rest);
        let rm = toks_items(rest).len() as int;
        assert(ts[i1 + 1] == toks_items(rest)[0]);
        assert(ts[i1 + 1] != TokenModel::Punctuation(']'));
        assert(sp_sep(ts, i1, ']').0 == 1);
        assert(sp_sep(ts, i1, ']').1 == Seq::<ErrorModel>::empty());
        assert(sp_sep(ts, i1, ']').2 == false);
        lemma_adv_exact(ts, i1, 1);
        let i3 = i1 + 1;
        assert(ts.subrange(i3, i3 + rm) =~= toks_items(rest));
        assert(ts[i3 + rm] == TokenModel::Punctuation(']'));
        b_elements_loop(rest, ts, i3, acc.push(sem0));
        assert(sp_elements_loop(ts, i, acc).0 == (i3 - i) + (rm + 1));
        assert(sp_elements_loop(ts, i, acc).1 =~= Seq::<ErrorModel>::empty());
        assert(sem_items(items) == seq![sem0] + sem_items(rest));
        assert(acc.push(sem0) + sem_items(rest) =~= acc + sem_items(items));
    }
}

/// A nonempty member list followed by `}` runs the member loop to just
/// past the `}`, with no diagnostics, inserting the members in order.
proof fn b_members_loop(
    ps: Seq<(Seq<char>, Literal)>,
    ts: Seq<TokenModel>,
    i: int,
    acc: Map<Seq<char>, ValueModel>,
)
    requires
        ps.len() >= 1,
        forall|k: int| 0 <= k < ps.len() ==> content_ok((#[trigger] ps[k]).0) && literal_wf(
            ps[k].1,
        ),
        0 <= i,
        i + toks_members(ps).len() + 1 <= ts.len(),
        ts.subrange(i, i + toks_members(ps).len()) == toks_members(ps),
        ts[i + toks_members(ps).len()] == TokenModel::Punctuation('}'),
    ensures
        sp_members_loop(ts, i, acc).0 == toks_members(ps).len() + 1,
        sp_members_loop(ts, i, acc).1 == Seq::<ErrorModel>::empty(),
        sp_members_loop(ts, i, acc).2 == sem_members(acc, ps),
    decreases ps, 0int,
{
    let m = toks_members(ps).len() as int;
    assert forall|p: int| i <= p < i + m implies #[trigger] ts[p] == toks_members(ps)[p - i] by {
        assert(ts.subrange(i, i + m)[p - i] == ts[p]);
    }
    let key = ps[0].0;
    let v = ps[0].1;
    let kq = quoted(key);
    let nv = toks(v).len() as int;
    let semv = sem(v);
    let thead = seq![TokenModel::String(kq), TokenModel::Punctuation(':')] + toks(v);
    b_first(v);
    b_members_first(ps);
    assert(ts[i] == TokenModel::String(kq));
    assert(!token_is_ws(ts[i]));
    assert(ws_end(ts, i) == i);
    assert(ts[i + 1] == TokenModel::Punctuation(':'));
    assert(ts.subrange(i + 2, i + 2 + nv) =~= toks(v));
    b_value(v, ts, i + 2);
    lemma_adv_exact(ts, i + 2, nv);
    lemma_quoted_valid(key);
    let i1 = i + 2 + nv;
    assert(sp_member(ts, i, acc).0 == i1 - i);
    assert(sp_member(ts, i, acc).1 == Seq::<ErrorModel>::empty());
    assert(sp_member(ts, i, acc).2 == acc.insert(key, semv));
    lemma_adv_exact(ts, i, i1 - i);
    let acc1 = acc.insert(key, semv);
    if ps.len() == 1 {
        assert(toks_members(ps) == thead);
        assert(ts[i1] == TokenModel::Punctuation('}'));
        assert(ws_end(ts, i1) == i1);
        assert(sp_until(ts, i1, '}', false).0 == 0);
        assert(sp_until(ts, i1, '}', false).1 == Seq::<ErrorModel>::empty());
        lemma_adv_exact(ts, i1, 0);
        assert(sp_sep(ts, i1, '}').0 == 1);
        assert(sp_sep(ts, i1, '}').2 == true);
        lemma_adv_exact(ts, i1, 1);
        assert(sp_members_loop(ts, i, acc).1 =~= Seq::<ErrorModel>::empty());
        assert(sem_members(acc, ps) == sem_members(acc1, ps.drop_first()));
        assert(ps.drop_first().len() == 0);
        assert(sem_members(acc1, ps.drop_first()) == acc1);
    } else {
        let rest = ps.drop_first();
        assert(toks_members(ps) == thead + seq![TokenModel::Punctuation(',')] + toks_members(
            rest,
        ));
        assert(ts[i1] == TokenModel::Punctuation(','));
        assert(ws_end(ts, i1) == i1);
        assert(sp_until(ts, i1, '}', false).0 == 0);
        assert(sp_until(ts, i1, '}', false).1 == Seq::<ErrorModel>::empty());
        lemma_adv_exact(ts, i1, 0);
        assert forall|k: int| 0 <= k < rest.len() implies content_ok((#[trigger] rest[k]).0)
            && literal_wf(rest[k].1) by {
            assert(rest[k] == ps[k + 1]);
        }
        b_members_first(rest);
        let rm = toks_members(rest).len() as int;
        assert(ts[i1 + 1] == toks_members(rest)[0]);
        assert(ts[i1 + 1] != TokenModel::Punctuation('}'));
        assert(sp_sep(ts, i1, '}').0 == 1);
        assert(sp_sep(ts, i1, '}').1 == Seq::<ErrorModel>::empty());
        assert(sp_sep(ts, i1, '}').2 == false);
        lemma_adv_exact(ts, i1, 1);
        let i3 = i1 + 1;
        assert(ts.subrange(i3, i3 + rm) =~= toks_members(rest));
        assert(ts[i3 + rm] == TokenModel::Punctuation('}'));
        b_members_loop(rest, ts, i3, acc1);
        assert(sp_members_loop(ts, i, acc).0 == (i3 - i) + (rm + 1));
        assert(sp_members_loop(ts, i, acc).1 =~= Seq::<ErrorModel>::empty());
        assert(sem_members(acc, ps) == sem_members(acc1, rest));
    }
}

/// The round trip: the canonical text of every well-formed literal parses
/// back, with no diagnostics, to exactly the value a reference builder
/// constructs from it — object member order carrying no meaning, and a
/// later duplicate key overwriting an earlier one.
pub proof fn lemma_round_trip(l: Literal)
    requires
        literal_wf(l),
    ensures
        sp_parse(unparse(l)) == Ok::<ValueModel, Seq<ErrorModel>>(sem(l)),
{
    let s = unparse(l);
    let n = s.len() as int;
    assert(s.subrange(0, n) =~= s);
    a_value(l, s, 0);
    assert(units_from(s, n) =~= Seq::<Seq<char>>::empty());
    assert(raw_units(s) =~= atoms(l));
    c_value(l);
    lemma_clean_stream(atoms(l), toks(l));
    assert(spec_try_from_json(s) == Ok::<Seq<TokenModel>, Seq<ErrorModel>>(toks(l)));
    let ts = toks(l);
    assert(ts.subrange(0, ts.len() as int) =~= ts);
    b_value(l, ts, 0);
    b_first(l);
    lemma_adv_exact(ts, 0, ts.len() as int);
    assert(crate::parsing::all_ws_from(ts, ts.len() as int));
    assert(sp_parse_tokens(ts) == Ok::<ValueModel, Seq<ErrorModel>>(sem(l)));
}

} // verus!
