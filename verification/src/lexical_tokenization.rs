//! A simpler, flat splitter: it drops whitespace between units instead of
//! reporting it, and keeps no record of line breaks.
//!
//! A `"` toggles string-capture mode; whitespace inside the mode is kept
//! as a single space each.  Outside the mode, punctuation is a unit of its
//! own and whitespace only separates units.  Unlike the splitter in
//! `lexical`, this one is not escape-aware: a backslash is an ordinary
//! character, so an escaped quote ends a capture.

use vstd::prelude::*;

use crate::lexical::{is_newline_char, is_punct_char, is_space_char, push_char};

verus! {

/// Any of the four blank characters.
pub open spec fn is_blank_char(c: char) -> bool {
    is_space_char(c) || is_newline_char(c)
}

/// What remains to be emitted when scanning `s` from `i` in string-capture
/// mode `in_quotes` with the unit `cur` in progress.
pub open spec fn flat_split(s: Seq<char>, i: int, in_quotes: bool, cur: Seq<char>) -> Seq<
    Seq<char>,
>
    decreases s.len() - i,
{
    if !(0 <= i < s.len()) {
        if cur.len() == 0 {
            seq![]
        } else {
            seq![cur]
        }
    } else {
        let c = s[i];
        if c == '"' {
            flat_split(s, i + 1, !in_quotes, cur.push('"'))
        } else if in_quotes && is_blank_char(c) {
            flat_split(s, i + 1, in_quotes, cur.push(' '))
        } else if !in_quotes && is_punct_char(c) {
            (if cur.len() == 0 {
                seq![]
            } else {
                seq![cur]
            }) + seq![seq![c]] + flat_split(s, i + 1, false, seq![])
        } else if !in_quotes && is_blank_char(c) {
            (if cur.len() == 0 {
                seq![]
            } else {
                seq![cur]
            }) + flat_split(s, i + 1, false, seq![])
        } else {
            flat_split(s, i + 1, in_quotes, cur.push(c))
        }
    }
}

/// The flat units of a whole text.
pub open spec fn flat_units(s: Seq<char>) -> Seq<Seq<char>> {
    flat_split(s, 0, false, seq![])
}

/// Splits text into flat units: string-capture spans with their inner
/// whitespace kept as spaces, punctuation on its own, everything between
/// whitespace grouped — the whitespace itself dropped.
pub fn tokenize_into_strings(possible_json: &str) -> (r: Vec<String>)
    ensures
        r.deep_view() == flat_units(possible_json@),
{
    let ghost s = possible_json@;
    let n = possible_json.unicode_len();
    let mut out = Vec::<String>::new();
    let mut cur = String::new();
    let mut in_quotes: bool = false;
    let mut i: usize = 0;
    while i < n
        invariant
            s == possible_json@,
            n == s.len(),
            i <= n,
            flat_units(s) == out.deep_view() + flat_split(s, i as int, in_quotes, cur@),
        decreases n - i,
    {
        let c = possible_json.get_char(i);
        let ghost pre_out = out.deep_view();
        let ghost pre_cur = cur@;
        if c == '"' {
            push_char(&mut cur, '"');
            in_quotes = !in_quotes;
        } else if in_quotes && (c == ' ' || c == '\t' || c == '\n' || c == '\r') {
            push_char(&mut cur, ' ');
        } else if !in_quotes && (c == ',' || c == ':' || c == '{' || c == '}' || c == '[' || c
            == ']') {
            let ghost flushed: Seq<Seq<char>> = if pre_cur.len() == 0 {
                pre_out
            } else {
                pre_out.push(pre_cur)
            };
            if cur.as_str().unicode_len() > 0 {
                out.push(cur);
                cur = String::new();
                proof {
                    assert(out.deep_view() =~= flushed);
                }
            }
            let mut punct = String::new();
            push_char(&mut punct, c);
            proof {
                assert(punct@ =~= seq![c]);
            }
            out.push(punct);
            proof {
                assert(out.deep_view() =~= flushed.push(seq![c]));
                assert(cur@ =~= Seq::<char>::empty());
                assert(out.deep_view() + flat_split(s, i + 1, false, cur@) =~= pre_out + ((if
                    pre_cur.len() == 0 {
                    seq![]
                } else {
                    seq![pre_cur]
                }) + seq![seq![c]] + flat_split(s, i + 1, false, seq![])));
            }
        } else if !in_quotes && (c == ' ' || c == '\t' || c == '\n' || c == '\r') {
            let ghost flushed: Seq<Seq<char>> = if pre_cur.len() == 0 {
                pre_out
            } else {
                pre_out.push(pre_cur)
            };
            if cur.as_str().unicode_len() > 0 {
                out.push(cur);
                cur = String::new();
                proof {
                    assert(out.deep_view() =~= flushed);
                }
            }
            proof {
                assert(cur@ =~= Seq::<char>::empty());
                assert(out.deep_view() + flat_split(s, i + 1, false, cur@) =~= pre_out + ((if
                    pre_cur.len() == 0 {
                    seq![]
                } else {
                    seq![pre_cur]
                }) + flat_split(s, i + 1, false, seq![])));
            }
        } else {
            push_char(&mut cur, c);
        }
        i = i + 1;
    }
    if cur.as_str().unicode_len() > 0 {
        let ghost pre_out = out.deep_view();
        let ghost pre_cur = cur@;
        out.push(cur);
        proof {
            assert(out.deep_view() =~= pre_out + seq![pre_cur]);
        }
    }
    proof {
        assert(out.deep_view() =~= flat_units(s));
    }
    out
}

} // verus!
