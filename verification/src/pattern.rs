//! Byte signatures with wildcards, such as `48 8B ?? ?? 89`, and the rule by
//! which a signature matches bytes.

use vstd::prelude::*;
use crate::number::{digit_value, digits_value, from_str_radix, parse_radix, radix_digits};
use crate::disasm::{hex_digit_upper, hex_pair};
use crate::text::{
    char_is_whitespace, chars_of, is_white_space, lemma_split_ws_step, split_ws, split_ws_from,
    string_from_chars,
};

verus! {

/// A byte signature: `Some(b)` must equal the byte at its position,
/// `None` matches any byte.
#[derive(Debug, Clone)]
pub struct Pattern(pub Vec<Option<u8>>);

impl View for Pattern {
    type V = Seq<Option<u8>>;

    open spec fn view(&self) -> Seq<Option<u8>> {
        self.0@
    }
}

/// Why a signature text was refused.
#[derive(Debug, Clone, PartialEq, Eq)]
pub enum PatternError {
    /// A token is neither `?`, `??` nor a hexadecimal byte; it holds the token.
    InvalidByte(String),
    /// The text holds no token.
    Empty,
}

/// The meaning of one token: `Some(None)` for a wildcard, `Some(Some(b))` for
/// a byte written in base 16 (as `u8::from_str_radix` reads it), `None` when
/// the token is neither.
pub open spec fn token_byte(t: Seq<char>) -> Option<Option<u8>> {
    if t =~= seq!['?'] || t =~= seq!['?', '?'] {
        Some(None)
    } else {
        match from_str_radix(t, 16, 255) {
            Some(v) => Some(Some(v as u8)),
            None => None,
        }
    }
}

/// Reads tokens in order: the bytes of all of them, or the first token that
/// is not a byte.
pub open spec fn parse_tokens(toks: Seq<Seq<char>>) -> Result<Seq<Option<u8>>, Seq<char>>
    decreases toks.len(),
{
    if toks.len() == 0 {
        Ok(seq![])
    } else {
        match token_byte(toks[0]) {
            None => Err(toks[0]),
            Some(b) => match parse_tokens(toks.drop_first()) {
                Ok(rest) => Ok(seq![b] + rest),
                Err(e) => Err(e),
            },
        }
    }
}

/// What `Pattern::parse` gives for the text `s`: the bytes of its
/// whitespace-separated tokens; `Err(Some(t))` for the first token `t` that
/// is not a byte; `Err(None)` when there is no token.
pub open spec fn spec_parse_pattern(s: Seq<char>) -> Result<Seq<Option<u8>>, Option<Seq<char>>> {
    match parse_tokens(split_ws(s)) {
        Err(t) => Err(Some(t)),
        Ok(v) => if v.len() == 0 {
            Err(None)
        } else {
            Ok(v)
        },
    }
}

/// Places `done` in front of the bytes of a token read.
pub open spec fn prepend_bytes(done: Seq<Option<u8>>, r: Result<Seq<Option<u8>>, Seq<char>>) -> Result<
    Seq<Option<u8>>,
    Seq<char>,
> {
    match r {
        Ok(v) => Ok(done + v),
        Err(e) => Err(e),
    }
}

proof fn lemma_parse_tokens_cons(t: Seq<char>, rest: Seq<Seq<char>>)
    ensures
        parse_tokens(seq![t] + rest) == (match token_byte(t) {
            None => Err(t),
            Some(b) => prepend_bytes(seq![b], parse_tokens(rest)),
        }),
{
    let all = seq![t] + rest;
    assert(all[0] == t);
    assert(all.drop_first() =~= rest);
}

/// Reads one token.
fn parse_token(t: &Vec<char>) -> (r: Option<Option<u8>>)
    ensures
        r == token_byte(t@),
{
    if (t.len() == 1 && t[0] == '?') || (t.len() == 2 && t[0] == '?' && t[1] == '?') {
        assert(t@ =~= seq!['?'] || t@ =~= seq!['?', '?']);
        return Some(None);
    }
    assert(!(t@ =~= seq!['?']) && !(t@ =~= seq!['?', '?'])) by {
        if t@ =~= seq!['?'] {
            assert(t@[0] == '?');
        }
        if t@ =~= seq!['?', '?'] {
            assert(t@[0] == '?' && t@[1] == '?');
        }
    }
    match parse_radix(t, 16, 255) {
        Some(v) => Some(Some(v as u8)),
        None => None,
    }
}

impl Pattern {
    /// Parses a signature such as `48 8B ?? ?? 89`: whitespace-separated
    /// tokens, each `?`, `??` (any byte) or a byte in base 16.
    pub fn parse(input: &str) -> (r: Result<Pattern, PatternError>)
        ensures
            match spec_parse_pattern(input@) {
                Ok(v) => r matches Ok(p) && p@ == v,
                Err(Some(t)) => r matches Err(PatternError::InvalidByte(s)) && s@ == t,
                Err(None) => r == Err::<Pattern, PatternError>(PatternError::Empty),
            },
    {
        let s = chars_of(input);
        let n = s.len();
        let mut bytes: Vec<Option<u8>> = Vec::new();
        let mut cur: Vec<char> = Vec::new();
        let mut i: usize = 0;
        assert(s@.subrange(0, n as int) =~= s@);
        while i < n
            invariant
                n == s@.len(),
                s@ == input@,
                0 <= i <= n,
                parse_tokens(split_ws(s@)) == prepend_bytes(
                    bytes@,
                    parse_tokens(split_ws_from(s@.subrange(i as int, n as int), cur@)),
                ),
            decreases n - i,
        {
            let c = s[i];
            proof {
                lemma_split_ws_step(s@, i as int, cur@);
            }
            if char_is_whitespace(c) {
                let ghost rest = split_ws_from(s@.subrange(i + 1, n as int), seq![]);
                if cur.len() > 0 {
                    proof {
                        lemma_parse_tokens_cons(cur@, rest);
                    }
                    match parse_token(&cur) {
                        None => {
                            return Err(PatternError::InvalidByte(string_from_chars(cur)));
                        },
                        Some(b) => {
                            assert(prepend_bytes(bytes@, prepend_bytes(seq![b], parse_tokens(rest)))
                                == prepend_bytes(bytes@.push(b), parse_tokens(rest))) by {
                                assert(bytes@ + seq![b] =~= bytes@.push(b));
                                match parse_tokens(rest) {
                                    Ok(v) => {
                                        assert(bytes@ + (seq![b] + v) =~= bytes@.push(b) + v);
                                    },
                                    Err(_) => {},
                                }
                            }
                            bytes.push(b);
                        },
                    }
                } else {
                    assert(Seq::<Seq<char>>::empty() + rest =~= rest);
                }
                cur = Vec::new();
            } else {
                cur.push(c);
            }
            i = i + 1;
        }
        assert(s@.subrange(n as int, n as int) =~= Seq::<char>::empty());
        if cur.len() > 0 {
            proof {
                lemma_parse_tokens_cons(cur@, seq![]);
                assert(seq![cur@] + Seq::<Seq<char>>::empty() =~= seq![cur@]);
            }
            match parse_token(&cur) {
                None => {
                    return Err(PatternError::InvalidByte(string_from_chars(cur)));
                },
                Some(b) => {
                    bytes.push(b);
                },
            }
        }
        if bytes.len() == 0 {
            return Err(PatternError::Empty);
        }
        Ok(Pattern(bytes))
    }
}

/// Whether the signature matches `data` at offset `at`: every byte it fixes
/// equals the byte of `data` at the same distance from `at`.
pub open spec fn window_matches(pattern: Seq<Option<u8>>, data: Seq<u8>, at: int) -> bool {
    forall|i: int|
        0 <= i < pattern.len() ==> match #[trigger] pattern[i] {
            Some(b) => data[at + i] == b,
            None => true,
        }
}

/// Compares the signature against `data` at offset `at`.
pub fn matches_at(pattern: &Vec<Option<u8>>, data: &Vec<u8>, at: usize) -> (r: bool)
    requires
        at + pattern@.len() <= data@.len(),
    ensures
        r == window_matches(pattern@, data@, at as int),
        r <==> forall|i: int|
            0 <= i < pattern@.len() && (#[trigger] pattern@[i]) is Some ==> data@[at + i] == pattern@[i]->0,
{
    let m = pattern.len();
    let dl = data.len();
    for i in 0..m
        invariant
            m == pattern@.len(),
            dl == data@.len(),
            at + m <= data@.len(),
            forall|j: int|
                0 <= j < i ==> match #[trigger] pattern@[j] {
                    Some(b) => data@[at + j] == b,
                    None => true,
                },
    {
        match pattern[i] {
            Some(b) => {
                assert(at + i < data@.len());
                if data[at + i] != b {
                    assert(pattern@[i as int] is Some && data@[at + i] != pattern@[i as int]->0);
                    assert(!window_matches(pattern@, data@, at as int)) by {
                        assert(match pattern@[i as int] {
                            Some(b) => data@[at + i] == b,
                            None => true,
                        } == false);
                    }
                    return false;
                }
            },
            None => {},
        }
    }
    assert forall|i: int| 0 <= i < pattern@.len() && (#[trigger] pattern@[i]) is Some implies data@[at + i]
        == pattern@[i]->0 by {
        assert(match pattern@[i] {
            Some(b) => data@[at + i] == b,
            None => true,
        });
    }
    true
}


proof fn lemma_parse_tokens(toks: Seq<Seq<char>>)
    ensures
        parse_tokens(toks) matches Ok(v) ==> v.len() == toks.len() && forall|i: int|
            0 <= i < v.len() ==> token_byte(#[trigger] toks[i]) == Some(v[i]),
        parse_tokens(toks) matches Err(t) ==> exists|i: int|
            0 <= i < toks.len() && #[trigger] toks[i] == t && token_byte(t) is None,
    decreases toks.len(),
{
    if toks.len() > 0 {
        let rest = toks.drop_first();
        lemma_parse_tokens(rest);
        match token_byte(toks[0]) {
            None => {},
            Some(b) => match parse_tokens(rest) {
                Ok(w) => {
                    let v = seq![b] + w;
                    assert forall|i: int| 0 <= i < v.len() implies token_byte(#[trigger] toks[i]) == Some(v[i]) by {
                        if i > 0 {
                            assert(toks[i] == rest[i - 1]);
                        }
                    }
                },
                Err(t) => {
                    let i = choose|i: int| 0 <= i < rest.len() && #[trigger] rest[i] == t && token_byte(t) is None;
                    assert(toks[i + 1] == t);
                },
            },
        }
    }
}

/// Parsing: a signature text that parses has exactly one entry per
/// whitespace-separated token, and each entry is its token's meaning (a
/// wildcard for `?` or `??`, else the token's base-16 value); a text that is
/// refused for a token is refused for one of its tokens that means nothing.
pub proof fn law_parse_one_entry_per_token(s: Seq<char>)
    ensures
        spec_parse_pattern(s) matches Ok(v) ==> v.len() == split_ws(s).len() && forall|i: int|
            0 <= i < v.len() ==> token_byte(#[trigger] split_ws(s)[i]) == Some(v[i]),
        spec_parse_pattern(s) matches Err(Some(t)) ==> exists|i: int|
            0 <= i < split_ws(s).len() && #[trigger] split_ws(s)[i] == t && token_byte(t) is None,
{
    lemma_parse_tokens(split_ws(s));
}

/// Matching: a signature made only of wildcards matches at every offset.
pub proof fn law_wildcards_match_anything(pattern: Seq<Option<u8>>, data: Seq<u8>, at: int)
    requires
        forall|i: int| 0 <= i < pattern.len() ==> (#[trigger] pattern[i]) is None,
    ensures
        window_matches(pattern, data, at),
{
}


proof fn lemma_split_ws_join(a: Seq<char>, b: Seq<char>, cur: Seq<char>)
    ensures
        split_ws_from(a + seq![' '] + b, cur) == split_ws_from(a, cur) + split_ws(b),
    decreases a.len(),
{
    let s = a + seq![' '] + b;
    let head = if cur.len() > 0 {
        seq![cur]
    } else {
        Seq::<Seq<char>>::empty()
    };
    if a.len() == 0 {
        assert(s[0] == ' ');
        assert(is_white_space(' '));
        assert(s.drop_first() =~= b);
        assert(split_ws_from(a, cur) == head);
    } else {
        assert(s[0] == a[0]);
        assert(s.drop_first() =~= a.drop_first() + seq![' '] + b);
        if is_white_space(a[0]) {
            lemma_split_ws_join(a.drop_first(), b, seq![]);
            assert(head + (split_ws_from(a.drop_first(), seq![]) + split_ws(b)) =~= (head + split_ws_from(
                a.drop_first(),
                seq![],
            )) + split_ws(b));
        } else {
            lemma_split_ws_join(a.drop_first(), b, cur.push(a[0]));
        }
    }
}

proof fn lemma_parse_tokens_concat(t1: Seq<Seq<char>>, t2: Seq<Seq<char>>)
    requires
        parse_tokens(t1) is Ok,
        parse_tokens(t2) is Ok,
    ensures
        parse_tokens(t1 + t2) == Ok::<Seq<Option<u8>>, Seq<char>>(
            parse_tokens(t1)->Ok_0 + parse_tokens(t2)->Ok_0,
        ),
    decreases t1.len(),
{
    let y = parse_tokens(t2)->Ok_0;
    if t1.len() == 0 {
        assert(t1 + t2 =~= t2);
        assert(parse_tokens(t1)->Ok_0 + y =~= y);
    } else {
        let t = t1 + t2;
        assert(t[0] == t1[0]);
        assert(t.drop_first() =~= t1.drop_first() + t2);
        lemma_parse_tokens_concat(t1.drop_first(), t2);
        let b = token_byte(t1[0])->0;
        let r = parse_tokens(t1.drop_first())->Ok_0;
        assert(seq![b] + (r + y) =~= (seq![b] + r) + y);
    }
}

/// Parsing concatenates: when two signature texts parse, the text made of
/// the first, a space and the second parses to the first's entries followed
/// by the second's.
pub proof fn law_parse_concatenates(a: Seq<char>, b: Seq<char>)
    requires
        spec_parse_pattern(a) is Ok,
        spec_parse_pattern(b) is Ok,
    ensures
        spec_parse_pattern(a + seq![' '] + b) == Ok::<Seq<Option<u8>>, Option<Seq<char>>>(
            spec_parse_pattern(a)->Ok_0 + spec_parse_pattern(b)->Ok_0,
        ),
{
    lemma_split_ws_join(a, b, seq![]);
    lemma_parse_tokens_concat(split_ws(a), split_ws(b));
}


/// Matching: a signature matches at `at` exactly when every byte it fixes
/// equals the byte of `data` at the same distance from `at`; a fixed byte
/// that differs from the data byte there rules the window out.
pub proof fn law_window_is_byte_equality(pattern: Seq<Option<u8>>, data: Seq<u8>, at: int)
    ensures
        window_matches(pattern, data, at) <==> forall|i: int|
            0 <= i < pattern.len() && (#[trigger] pattern[i]) is Some ==> data[at + i] == pattern[i]->0,
        forall|i: int, b: u8|
            0 <= i < pattern.len() && pattern[i] == Some(b) && data[at + i] != b ==> !window_matches(
                pattern,
                data,
                at,
            ),
{
    if window_matches(pattern, data, at) {
        assert forall|i: int| 0 <= i < pattern.len() && (#[trigger] pattern[i]) is Some implies data[at + i]
            == pattern[i]->0 by {
            assert(match pattern[i] {
                Some(b) => data[at + i] == b,
                None => true,
            });
        }
    }
    if forall|i: int|
        0 <= i < pattern.len() && (#[trigger] pattern[i]) is Some ==> data[at + i] == pattern[i]->0 {
        assert forall|i: int| 0 <= i < pattern.len() implies match #[trigger] pattern[i] {
            Some(b) => data[at + i] == b,
            None => true,
        } by {
            if pattern[i] is Some {
                assert(data[at + i] == pattern[i]->0);
            }
        }
    }
}

/// Parsing: in a signature that parses, an entry is a wildcard exactly when
/// its token is `?` or `??`, and every other token gives the byte that
/// `from_str_radix` reads from it in base 16.
pub proof fn law_token_meaning(s: Seq<char>, i: int)
    requires
        spec_parse_pattern(s) is Ok,
        0 <= i < spec_parse_pattern(s)->Ok_0.len(),
    ensures
        i < split_ws(s).len(),
        (spec_parse_pattern(s)->Ok_0[i] is None) <==> (split_ws(s)[i] == seq!['?'] || split_ws(s)[i] == seq!['?', '?']),
        spec_parse_pattern(s)->Ok_0[i] matches Some(b) ==> from_str_radix(split_ws(s)[i], 16, 255) == Some(b as nat),
{
    lemma_parse_tokens(split_ws(s));
    let t = split_ws(s)[i];
    assert(token_byte(t) == Some(spec_parse_pattern(s)->Ok_0[i]));
    if t == seq!['?'] || t == seq!['?', '?'] {
        assert(t =~= seq!['?'] || t =~= seq!['?', '?']);
    }
}

proof fn lemma_split_ws_single(t: Seq<char>, cur: Seq<char>)
    requires
        cur.len() + t.len() > 0,
        forall|j: int| 0 <= j < t.len() ==> !is_white_space(#[trigger] t[j]),
    ensures
        split_ws_from(t, cur) == seq![cur + t],
    decreases t.len(),
{
    if t.len() == 0 {
        assert(cur + t =~= cur);
    } else {
        assert(!is_white_space(t[0]));
        assert forall|j: int| 0 <= j < t.drop_first().len() implies !is_white_space(#[trigger] t.drop_first()[j]) by {
            assert(t.drop_first()[j] == t[j + 1]);
        }
        lemma_split_ws_single(t.drop_first(), cur.push(t[0]));
        assert(cur.push(t[0]) + t.drop_first() =~= cur + t);
    }
}

/// A token of hex digits that `from_str_radix` reads as `b` parses to the
/// one fixed byte `b`.
proof fn lemma_parse_hex_token(t: Seq<char>, b: u8)
    requires
        t.len() > 0,
        forall|j: int| 0 <= j < t.len() ==> digit_value(#[trigger] t[j], 16) is Some,
        from_str_radix(t, 16, 255) == Some(b as nat),
    ensures
        spec_parse_pattern(t) == Ok::<Seq<Option<u8>>, Option<Seq<char>>>(seq![Some(b)]),
{
    assert forall|j: int| 0 <= j < t.len() implies !is_white_space(#[trigger] t[j]) by {
        assert(digit_value(t[j], 16) is Some);
    }
    lemma_split_ws_single(t, seq![]);
    assert(seq![] + t =~= t);
    assert(split_ws(t) == seq![t]);
    assert(digit_value(t[0], 16) is Some);
    assert(t[0] != '?');
    assert(!(t =~= seq!['?']) && !(t =~= seq!['?', '?']));
    assert(token_byte(t) == Some(Some(b)));
    let toks = seq![t];
    assert(toks.drop_first() =~= Seq::<Seq<char>>::empty());
    assert(parse_tokens(toks.drop_first()) == Ok::<Seq<Option<u8>>, Seq<char>>(seq![]));
    assert(seq![Some(b)] + Seq::<Option<u8>>::empty() =~= seq![Some(b)]);
}

/// Parsing reads back the byte notation: for every byte `b`, its two
/// upper-case hex digits (as the disassembler writes bytes) and its hex
/// digits without leading zeros in either case each parse to the one fixed
/// byte `b`; no byte value, zero included, is read as a wildcard.
pub proof fn law_parse_reads_every_byte(b: u8, upper: bool)
    ensures
        spec_parse_pattern(hex_pair(b)) == Ok::<Seq<Option<u8>>, Option<Seq<char>>>(seq![Some(b)]),
        spec_parse_pattern(radix_digits(b as nat, 16, upper)) == Ok::<Seq<Option<u8>>, Option<Seq<char>>>(
            seq![Some(b)],
        ),
{
    let hi = b / 16;
    let lo = b % 16;
    let t = hex_pair(b);
    assert(digit_value(hex_digit_upper(hi), 16) == Some(hi as nat));
    assert(digit_value(hex_digit_upper(lo), 16) == Some(lo as nat));
    assert(t.drop_last() =~= seq![hex_digit_upper(hi)]);
    assert(seq![hex_digit_upper(hi)].drop_last() =~= Seq::<char>::empty());
    assert(digits_value(Seq::<char>::empty(), 16) == Some(0nat));
    assert(seq![hex_digit_upper(hi)].last() == hex_digit_upper(hi));
    assert(digits_value(seq![hex_digit_upper(hi)], 16) == Some(hi as nat));
    assert(t.last() == hex_digit_upper(lo));
    assert(digits_value(t, 16) == Some((hi * 16 + lo) as nat));
    assert(hi * 16 + lo == b);
    assert(t[0] != '+');
    lemma_parse_hex_token(t, b);
    crate::number::lemma_radix_digits(b as nat, 16, upper);
    let r = radix_digits(b as nat, 16, upper);
    assert(digit_value(r[0], 16) is Some);
    assert(r[0] != '+');
    lemma_parse_hex_token(r, b);
}

} // verus!
