//! Character-level helpers shared by the parsers of this crate: the Unicode
//! whitespace class, whitespace splitting, trimming, ASCII case folding and
//! string building.

use vstd::prelude::*;

verus! {

/// The Unicode `White_Space` property, which is what `char::is_whitespace`
/// tests.
pub open spec fn is_white_space(c: char) -> bool {
    let u = c as u32;
    ||| 0x09 <= u <= 0x0d
    ||| u == 0x20
    ||| u == 0x85
    ||| u == 0xa0
    ||| u == 0x1680
    ||| 0x2000 <= u <= 0x200a
    ||| u == 0x2028
    ||| u == 0x2029
    ||| u == 0x202f
    ||| u == 0x205f
    ||| u == 0x3000
}

/// Tests a character against the Unicode `White_Space` property.
pub fn char_is_whitespace(c: char) -> (b: bool)
    ensures
        b == is_white_space(c),
{
    let u = c as u32;
    (0x09 <= u && u <= 0x0d) || u == 0x20 || u == 0x85 || u == 0xa0 || u == 0x1680 || (0x2000
        <= u && u <= 0x200a) || u == 0x2028 || u == 0x2029 || u == 0x202f || u == 0x205f || u
        == 0x3000
}

/// The tokens of `s` that `str::split_whitespace` yields, given the token
/// `cur` that is being built when `s` starts: maximal runs of characters
/// that are not whitespace, in order.
pub open spec fn split_ws_from(s: Seq<char>, cur: Seq<char>) -> Seq<Seq<char>>
    decreases s.len(),
{
    if s.len() == 0 {
        if cur.len() > 0 {
            seq![cur]
        } else {
            seq![]
        }
    } else if is_white_space(s[0]) {
        (if cur.len() > 0 {
            seq![cur]
        } else {
            Seq::<Seq<char>>::empty()
        }) + split_ws_from(s.drop_first(), seq![])
    } else {
        split_ws_from(s.drop_first(), cur.push(s[0]))
    }
}

/// The whitespace-separated tokens of `s`.
pub open spec fn split_ws(s: Seq<char>) -> Seq<Seq<char>> {
    split_ws_from(s, seq![])
}

/// Every token of a whitespace split is non-empty and holds no whitespace.
pub proof fn lemma_split_ws_tokens(s: Seq<char>, cur: Seq<char>)
    requires
        forall|j: int| 0 <= j < cur.len() ==> !is_white_space(#[trigger] cur[j]),
    ensures
        forall|k: int|
            0 <= k < split_ws_from(s, cur).len() ==> (#[trigger] split_ws_from(s, cur)[k]).len()
                > 0,
        forall|k: int, j: int|
            0 <= k < split_ws_from(s, cur).len() && 0 <= j < split_ws_from(s, cur)[k].len()
                ==> !is_white_space(#[trigger] split_ws_from(s, cur)[k][j]),
    decreases s.len(),
{
    if s.len() == 0 {
        if cur.len() > 0 {
            assert(split_ws_from(s, cur) == seq![cur]);
            assert(seq![cur][0] == cur);
        } else {
            assert(split_ws_from(s, cur).len() == 0);
        }
    } else if is_white_space(s[0]) {
        lemma_split_ws_tokens(s.drop_first(), seq![]);
        let head = if cur.len() > 0 {
            seq![cur]
        } else {
            Seq::<Seq<char>>::empty()
        };
        let tail = split_ws_from(s.drop_first(), seq![]);
        assert(split_ws_from(s, cur) == head + tail);
        assert forall|k: int| 0 <= k < (head + tail).len() implies (#[trigger] (head + tail)[k]).len()
            > 0 by {
            if k >= head.len() {
                assert((head + tail)[k] == tail[k - head.len()]);
            } else {
                assert(head[k] == cur);
            }
        }
        assert forall|k: int, j: int|
            0 <= k < (head + tail).len() && 0 <= j < (head + tail)[k].len() implies !is_white_space(
            #[trigger] (head + tail)[k][j],
        ) by {
            if k >= head.len() {
                assert((head + tail)[k] == tail[k - head.len()]);
            } else {
                assert(head[k] == cur);
            }
        }
    } else {
        let c2 = cur.push(s[0]);
        assert forall|j: int| 0 <= j < c2.len() implies !is_white_space(#[trigger] c2[j]) by {
            if j < cur.len() {
                assert(c2[j] == cur[j]);
            }
        }
        lemma_split_ws_tokens(s.drop_first(), c2);
        assert(split_ws_from(s, cur) == split_ws_from(s.drop_first(), c2));
    }
}

/// Splitting `a + b` with a pending token equals splitting `a`'s leading part
/// and continuing: the split of `s` from index `i` on, with the token `cur`
/// built from the characters before `i` since the last whitespace.
pub proof fn lemma_split_ws_step(s: Seq<char>, i: int, cur: Seq<char>)
    requires
        0 <= i < s.len(),
    ensures
        split_ws_from(s.subrange(i, s.len() as int), cur) == (if is_white_space(s[i]) {
            (if cur.len() > 0 {
                seq![cur]
            } else {
                Seq::<Seq<char>>::empty()
            }) + split_ws_from(s.subrange(i + 1, s.len() as int), seq![])
        } else {
            split_ws_from(s.subrange(i + 1, s.len() as int), cur.push(s[i]))
        }),
{
    let t = s.subrange(i, s.len() as int);
    assert(t[0] == s[i]);
    assert(t.drop_first() =~= s.subrange(i + 1, s.len() as int));
}

/// The result of `str::trim_start`: `s` without its leading whitespace.
pub open spec fn trim_start(s: Seq<char>) -> Seq<char>
    decreases s.len(),
{
    if s.len() > 0 && is_white_space(s[0]) {
        trim_start(s.drop_first())
    } else {
        s
    }
}

/// The result of `str::trim_end`: `s` without its trailing whitespace.
pub open spec fn trim_end(s: Seq<char>) -> Seq<char>
    decreases s.len(),
{
    if s.len() > 0 && is_white_space(s.last()) {
        trim_end(s.drop_last())
    } else {
        s
    }
}

/// The result of `str::trim`.
pub open spec fn trim(s: Seq<char>) -> Seq<char> {
    trim_end(trim_start(s))
}

/// The first index of `s` from `i` on whose character is not whitespace.
proof fn lemma_trim_start_from(s: Seq<char>, i: int)
    requires
        0 <= i <= s.len(),
        forall|j: int| 0 <= j < i ==> is_white_space(#[trigger] s[j]),
    ensures
        trim_start(s) == trim_start(s.subrange(i, s.len() as int)),
    decreases i,
{
    if i > 0 {
        lemma_trim_start_from(s.drop_first(), i - 1);
        assert(s.drop_first().subrange(i - 1, s.drop_first().len() as int) =~= s.subrange(
            i,
            s.len() as int,
        ));
    } else {
        assert(s.subrange(0, s.len() as int) =~= s);
    }
}

proof fn lemma_trim_end_to(s: Seq<char>, k: int)
    requires
        0 <= k <= s.len(),
        forall|j: int| k <= j < s.len() ==> is_white_space(#[trigger] s[j]),
    ensures
        trim_end(s) == trim_end(s.subrange(0, k)),
    decreases s.len() - k,
{
    if k < s.len() {
        lemma_trim_end_to(s.drop_last(), k);
        assert(s.drop_last().subrange(0, k) =~= s.subrange(0, k));
    } else {
        assert(s.subrange(0, k) =~= s);
    }
}

/// Removes leading and trailing whitespace.
pub fn trim_chars(s: &Vec<char>) -> (r: Vec<char>)
    ensures
        r@ == trim(s@),
{
    let n = s.len();
    let mut i: usize = 0;
    while i < n && char_is_whitespace(s[i])
        invariant
            n == s@.len(),
            0 <= i <= n,
            forall|j: int| 0 <= j < i ==> is_white_space(#[trigger] s@[j]),
        decreases n - i,
    {
        i = i + 1;
    }
    proof {
        lemma_trim_start_from(s@, i as int);
        if i < n {
            assert(!is_white_space(s@[i as int]));
        }
    }
    let ghost start = s@.subrange(i as int, n as int);
    assert(trim_start(start) == start);
    let mut k: usize = n;
    while k > i && char_is_whitespace(s[k - 1])
        invariant
            n == s@.len(),
            i <= k <= n,
            forall|j: int| k <= j < n ==> is_white_space(#[trigger] s@[j]),
        decreases k,
    {
        k = k - 1;
    }
    proof {
        lemma_trim_end_to(start, k - i);
        assert(start.subrange(0, k - i) =~= s@.subrange(i as int, k as int));
        let mid = s@.subrange(i as int, k as int);
        if mid.len() > 0 {
            assert(mid.last() == s@[k - 1]);
        }
    }
    let mut r: Vec<char> = Vec::new();
    let mut j: usize = i;
    while j < k
        invariant
            n == s@.len(),
            i <= j <= k <= n,
            r@ == s@.subrange(i as int, j as int),
        decreases k - j,
    {
        r.push(s[j]);
        j = j + 1;
        assert(r@ =~= s@.subrange(i as int, j as int));
    }
    r
}

/// The ASCII lower-case form of a character's code point, the comparison key
/// of `eq_ignore_ascii_case` and `to_ascii_lowercase`.
pub open spec fn ascii_lower(c: char) -> u32 {
    let u = c as u32;
    if 0x41 <= u <= 0x5a {
        (u + 0x20) as u32
    } else {
        u
    }
}

/// Whether two strings are equal when ASCII letters are compared without
/// regard to case.
pub open spec fn eq_ignore_ascii_case(a: Seq<char>, b: Seq<char>) -> bool {
    &&& a.len() == b.len()
    &&& forall|i: int| 0 <= i < a.len() ==> ascii_lower(#[trigger] a[i]) == ascii_lower(b[i])
}

/// Compares two character sequences, ignoring the case of ASCII letters.
pub fn chars_eq_ignore_ascii_case(a: &Vec<char>, b: &Vec<char>) -> (r: bool)
    ensures
        r == eq_ignore_ascii_case(a@, b@),
{
    if a.len() != b.len() {
        return false;
    }
    let n = a.len();
    for i in 0..n
        invariant
            n == a@.len(),
            n == b@.len(),
            forall|j: int| 0 <= j < i ==> ascii_lower(#[trigger] a@[j]) == ascii_lower(b@[j]),
    {
        let x = a[i] as u32;
        let y = b[i] as u32;
        let lx = if 0x41 <= x && x <= 0x5a {
            x + 0x20
        } else {
            x
        };
        let ly = if 0x41 <= y && y <= 0x5a {
            y + 0x20
        } else {
            y
        };
        if lx != ly {
            assert(ascii_lower(a@[i as int]) != ascii_lower(b@[i as int]));
            return false;
        }
    }
    true
}

/// Collects the characters of a string slice, in order.
pub fn chars_of(s: &str) -> (r: Vec<char>)
    ensures
        r@ == s@,
{
    let mut r: Vec<char> = Vec::new();
    for c in it: s.chars()
        invariant
            r@ == it.seq().take(it.index() as int),
    {
        r.push(c);
    }
    r
}

/// Builds a `String` from characters; `String::from_iter` over `char`s
/// yields exactly those characters in order.
#[verifier::external_body]
pub(crate) fn string_from_chars(chars: Vec<char>) -> (s: String)
    ensures
        s@ == chars@,
{
    String::from_iter(chars)
}


/// Strict lexicographic order of character sequences by code point, the
/// order of `str` and `String` comparisons.
pub open spec fn chars_lt(a: Seq<char>, b: Seq<char>) -> bool
    decreases a.len(),
{
    if a.len() == 0 {
        b.len() > 0
    } else if b.len() == 0 {
        false
    } else if a[0] != b[0] {
        (a[0] as u32) < (b[0] as u32)
    } else {
        chars_lt(a.drop_first(), b.drop_first())
    }
}

/// `chars_lt` is a strict total order.
pub proof fn lemma_chars_lt_order(a: Seq<char>, b: Seq<char>, c: Seq<char>)
    ensures
        !chars_lt(a, a),
        chars_lt(a, b) ==> !chars_lt(b, a),
        chars_lt(a, b) || a == b || chars_lt(b, a),
        chars_lt(a, b) && chars_lt(b, c) ==> chars_lt(a, c),
    decreases a.len(),
{
    if a.len() > 0 {
        lemma_chars_lt_order(a.drop_first(), a.drop_first(), a.drop_first());
        if b.len() > 0 {
            lemma_chars_lt_order(a.drop_first(), b.drop_first(), b.drop_first());
            if c.len() > 0 {
                lemma_chars_lt_order(a.drop_first(), b.drop_first(), c.drop_first());
            }
            if a[0] != b[0] {
                vstd::utf8::char_u32_cast(a[0], a[0] as u32);
                vstd::utf8::char_u32_cast(b[0], b[0] as u32);
                assert((a[0] as u32) != (b[0] as u32));
            }
            if a[0] == b[0] && a.drop_first() == b.drop_first() {
                assert(a =~= b) by {
                    assert forall|i: int| 0 <= i < a.len() implies a[i] == b[i] by {
                        if i > 0 {
                            assert(a[i] == a.drop_first()[i - 1]);
                            assert(b[i] == b.drop_first()[i - 1]);
                        }
                    }
                }
            }
        }
    } else {
        if b.len() == 0 {
            assert(a =~= b);
        }
    }
}

/// Whether `a` comes before `b` in the order of `chars_lt`, which is the
/// order that `<` on string slices gives (byte order of UTF-8 is code-point
/// order).
pub fn str_lt(a: &str, b: &str) -> (r: bool)
    ensures
        r == chars_lt(a@, b@),
{
    let x = chars_of(a);
    let y = chars_of(b);
    let xn = x.len();
    let yn = y.len();
    let mut i: usize = 0;
    assert(x@.skip(0) =~= x@ && y@.skip(0) =~= y@);
    while i < xn && i < yn && x[i] == y[i]
        invariant
            xn == x@.len(),
            yn == y@.len(),
            x@ == a@,
            y@ == b@,
            i <= xn,
            i <= yn,
            chars_lt(a@, b@) == chars_lt(x@.skip(i as int), y@.skip(i as int)),
        decreases xn - i,
    {
        assert(x@.skip(i as int).drop_first() =~= x@.skip(i + 1));
        assert(y@.skip(i as int).drop_first() =~= y@.skip(i + 1));
        i = i + 1;
    }
    let ghost xs = x@.skip(i as int);
    let ghost ys = y@.skip(i as int);
    if i == xn {
        assert(xs.len() == 0);
        i < yn
    } else if i == yn {
        assert(xs.len() > 0 && ys.len() == 0);
        false
    } else {
        assert(xs[0] == x@[i as int] && ys[0] == y@[i as int]);
        assert(xs.len() > 0 && ys.len() > 0 && xs[0] != ys[0]);
        (x[i] as u32) < (y[i] as u32)
    }
}

} // verus!
