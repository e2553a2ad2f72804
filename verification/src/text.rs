//! Small verified text helpers shared by the codecs: character
//! classification, decimal numbers, and splitting.

use vstd::prelude::*;
use vstd::string::StrSliceExecFns;

verus! {

/// Relies on String::push: appends exactly the one character `c` to the
/// end of the string.
#[verifier::external_body]
pub fn push_char(s: &mut String, c: char)
    ensures
        final(s)@ == old(s)@.push(c),
{
    s.push(c);
}

/// Collects the characters of a string slice into a vector.
#[verifier::loop_isolation(false)]
pub fn str_chars(s: &str) -> (r: Vec<char>)
    ensures
        r@ == s@,
{
    let n = s.unicode_len();
    let mut r: Vec<char> = Vec::new();
    let mut i: usize = 0;
    while i < n
        invariant
            i <= n,
            r@ == s@.take(i as int),
        decreases n - i,
    {
        r.push(s.get_char(i));
        proof {
            assert(r@ =~= s@.take(i + 1));
        }
        i = i + 1;
    }
    proof {
        assert(r@ =~= s@);
    }
    r
}

/// The character for the decimal digit `d`.
pub open spec fn digit_char(d: int) -> char {
    ((48 + d) as u8) as char
}

/// The digit `c` stands for.
pub open spec fn digit_val(c: char) -> int {
    c as int - 48
}

/// `c` is a decimal digit.
pub open spec fn is_digit_char(c: char) -> bool {
    48 <= c as int <= 57
}

/// Every character of `s` is a decimal digit.
pub open spec fn all_digits(s: Seq<char>) -> bool {
    forall|i: int| 0 <= i < s.len() ==> is_digit_char(#[trigger] s[i])
}

/// The value of the digit string `s`, most significant digit first.
pub open spec fn digits_val(s: Seq<char>) -> int
    decreases s.len(),
{
    if s.len() == 0 {
        0
    } else {
        digits_val(s.drop_last()) * 10 + digit_val(s.last())
    }
}

/// The character for digit `d`.
pub fn digit_to_char(d: usize) -> (c: char)
    requires
        d < 10,
    ensures
        c == digit_char(d as int),
{
    (48 + d as u8) as char
}

/// The value of a digit string is never negative.
pub proof fn lemma_digits_val_nonneg(s: Seq<char>)
    requires
        all_digits(s),
    ensures
        digits_val(s) >= 0,
    decreases s.len(),
{
    if s.len() > 0 {
        lemma_digits_val_nonneg(s.drop_last());
    }
}

/// The value of a prefix of a digit string is at most the whole value.
pub proof fn lemma_digits_val_prefix(s: Seq<char>, i: int)
    requires
        all_digits(s),
        0 <= i <= s.len(),
    ensures
        digits_val(s.take(i)) <= digits_val(s),
    decreases s.len() - i,
{
    if i == s.len() {
        assert(s.take(i) =~= s);
    } else {
        lemma_digits_val_prefix(s.drop_last(), i);
        assert(s.drop_last().take(i) =~= s.take(i));
        lemma_digits_val_nonneg(s.drop_last());
        lemma_digits_val_nonneg(s.take(i));
    }
}

/// The decimal digits of `n`, most significant first.
pub open spec fn dec_digits(n: int) -> Seq<char>
    decreases n,
{
    if n < 10 {
        seq![digit_char(n)]
    } else {
        dec_digits(n / 10).push(digit_char(n % 10))
    }
}

/// Formats `n` in decimal.
pub fn usize_to_string(n: usize) -> (r: String)
    ensures
        r@ == dec_digits(n as int),
    decreases n,
{
    if n < 10 {
        let mut s = String::new();
        push_char(&mut s, digit_to_char(n));
        proof {
            assert(s@ =~= dec_digits(n as int));
        }
        s
    } else {
        let mut s = usize_to_string(n / 10);
        push_char(&mut s, digit_to_char(n % 10));
        s
    }
}

/// The parse of a decimal token with Rust's integer grammar: an
/// optional leading plus sign, then at least one digit, the value
/// fitting the type; anything else fails.
pub open spec fn parse_usize_opt_spec(s: Seq<char>) -> Option<usize> {
    let body = if s.len() >= 1 && s[0] == '+' {
        s.skip(1)
    } else {
        s
    };
    if body.len() > 0 && all_digits(body) && digits_val(body) <= usize::MAX {
        Some(digits_val(body) as usize)
    } else {
        None
    }
}

/// The parse of a decimal token, with `default` for a malformed or
/// out-of-range token.
pub open spec fn parse_usize_spec(s: Seq<char>, default: usize) -> usize {
    match parse_usize_opt_spec(s) {
        Some(v) => v,
        None => default,
    }
}

/// Parses a decimal token, falling back to `default` when the token is
/// malformed or out of range.
pub fn parse_usize(tok: &Vec<char>, default: usize) -> (r: usize)
    ensures
        r == parse_usize_spec(tok@, default),
{
    match parse_usize_opt(tok) {
        Some(v) => v,
        None => default,
    }
}

/// Parses a decimal token, failing when the token is malformed or out
/// of range.
#[verifier::loop_isolation(false)]
pub fn parse_usize_opt(tok: &Vec<char>) -> (r: Option<usize>)
    ensures
        r == parse_usize_opt_spec(tok@),
{
    let ghost body: Seq<char> = if tok@.len() >= 1 && tok@[0] == '+' {
        tok@.skip(1)
    } else {
        tok@
    };
    let start: usize = if tok.len() >= 1 && tok[0] == '+' {
        1
    } else {
        0
    };
    proof {
        assert(body =~= tok@.skip(start as int));
    }
    if tok.len() == start {
        return None;
    }
    let mut acc: usize = 0;
    let mut i: usize = start;
    while i < tok.len()
        invariant
            start <= i <= tok@.len(),
            forall|k: int| 0 <= k < i - start ==> is_digit_char(#[trigger] body[k]),
            acc == digits_val(body.take(i - start)),
        decreases tok@.len() - i,
    {
        let c = tok[i];
        proof {
            assert(body[i - start] == c);
        }
        if c < '0' || c > '9' {
            proof {
                assert(!is_digit_char(body[i - start]));
                assert(!all_digits(body));
            }
            return None;
        }
        let d = (c as u32 - 48) as usize;
        proof {
            assert(digit_val(c) == d as int);
            assert(body.take(i + 1 - start).drop_last() =~= body.take(i - start));
            assert(body.take(i + 1 - start).last() == c);
            assert(digits_val(body.take(i + 1 - start)) == acc * 10 + d);
        }
        if acc > (usize::MAX - d) / 10 {
            proof {
                assert(acc * 10 + d > usize::MAX) by (nonlinear_arith)
                    requires
                        acc > (usize::MAX - d) / 10,
                        d < 10,
                ;
                if all_digits(body) && digits_val(body) <= usize::MAX {
                    lemma_digits_val_prefix(body, i + 1 - start);
                    assert(false);
                }
            }
            return None;
        }
        proof {
            assert(acc * 10 + d <= usize::MAX) by (nonlinear_arith)
                requires
                    acc <= (usize::MAX - d) / 10,
                    d < 10,
            ;
        }
        acc = acc * 10 + d;
        i = i + 1;
    }
    proof {
        assert(body.take(tok@.len() - start) =~= body);
        assert(all_digits(body));
        lemma_digits_val_nonneg(body);
    }
    Some(acc)
}

/// A sequence with leading whitespace removed.
pub open spec fn trim_start_spec(s: Seq<char>) -> Seq<char>
    decreases s.len(),
{
    if s.len() > 0 && is_ws(s[0]) {
        trim_start_spec(s.skip(1))
    } else {
        s
    }
}

/// A sequence with trailing whitespace removed.
pub open spec fn trim_end_spec(s: Seq<char>) -> Seq<char>
    decreases s.len(),
{
    if s.len() > 0 && is_ws(s.last()) {
        trim_end_spec(s.drop_last())
    } else {
        s
    }
}

/// A sequence with surrounding whitespace removed.
pub open spec fn trim_spec(s: Seq<char>) -> Seq<char> {
    trim_end_spec(trim_start_spec(s))
}

/// Removes surrounding whitespace.
#[verifier::loop_isolation(false)]
pub fn trim_chars(s: &Vec<char>) -> (r: Vec<char>)
    ensures
        r@ == trim_spec(s@),
{
    let n = s.len();
    proof {
        assert(s@.skip(0) =~= s@);
    }
    let mut start: usize = 0;
    while start < n && (s[start] == ' ' || s[start] == '\t' || s[start] == '\n' || s[start]
        == '\r')
        invariant
            start <= n,
            trim_start_spec(s@) == trim_start_spec(s@.skip(start as int)),
        decreases n - start,
    {
        proof {
            assert(s@.skip(start as int).skip(1) =~= s@.skip(start + 1));
        }
        start = start + 1;
    }
    proof {
        if start < n {
            assert(s@.skip(start as int)[0] == s@[start as int]);
        }
        assert(trim_start_spec(s@) == s@.skip(start as int));
    }
    let mut end: usize = n;
    while end > start && (s[end - 1] == ' ' || s[end - 1] == '\t' || s[end - 1] == '\n' || s[end
        - 1] == '\r')
        invariant
            start <= end <= n,
            trim_end_spec(s@.skip(start as int)) == trim_end_spec(
                s@.subrange(start as int, end as int),
            ),
        decreases end,
    {
        proof {
            assert(s@.subrange(start as int, end as int).drop_last() =~= s@.subrange(
                start as int,
                end - 1,
            ));
            assert(s@.subrange(start as int, end as int).last() == s@[end - 1]);
        }
        end = end - 1;
    }
    proof {
        assert(s@.skip(start as int) =~= s@.subrange(start as int, n as int));
        if end > start {
            assert(s@.subrange(start as int, end as int).last() == s@[end - 1]);
        }
        assert(trim_spec(s@) == s@.subrange(start as int, end as int));
    }
    let mut r: Vec<char> = Vec::new();
    let mut i: usize = start;
    while i < end
        invariant
            start <= i <= end,
            r@ == s@.subrange(start as int, i as int),
        decreases end - i,
    {
        r.push(s[i]);
        proof {
            assert(r@ =~= s@.subrange(start as int, i + 1));
        }
        i = i + 1;
    }
    proof {
        assert(r@ =~= trim_spec(s@));
    }
    r
}

/// A line with a trailing carriage return removed.
pub open spec fn strip_cr(l: Seq<char>) -> Seq<char> {
    if l.len() > 0 && l.last() == '\r' {
        l.drop_last()
    } else {
        l
    }
}

/// The lines of `s`: pieces split at line breaks, each stripped of a
/// trailing carriage return, without a final empty piece.
pub open spec fn lines_spec(s: Seq<char>) -> Seq<Seq<char>> {
    let ps = split_char(s, '\n').map_values(|l: Seq<char>| strip_cr(l));
    if ps.len() > 0 && ps.last().len() == 0 {
        ps.drop_last()
    } else {
        ps
    }
}

/// Splits `s` into lines.
#[verifier::loop_isolation(false)]
pub fn lines_chars(s: &Vec<char>) -> (r: Vec<Vec<char>>)
    ensures
        r@.map_values(|t: Vec<char>| t@) == lines_spec(s@),
{
    let ghost view_of = |t: Vec<char>| t@;
    let ghost g_strip = |l: Seq<char>| strip_cr(l);
    let mut pieces = split_char_exec(s, '\n');
    let ghost raw = split_char(s@, '\n');
    let mut k: usize = 0;
    while k < pieces.len()
        invariant
            k <= pieces@.len(),
            pieces@.len() == raw.len(),
            forall|m: int| 0 <= m < k ==> (#[trigger] pieces@[m])@ == strip_cr(raw[m]),
            forall|m: int| k <= m < raw.len() ==> (#[trigger] pieces@[m])@ == raw[m],
        decreases pieces@.len() - k,
    {
        let plen = pieces[k].len();
        if plen > 0 && pieces[k][plen - 1] == '\r' {
            let piece = &mut pieces[k];
            piece.pop();
            proof {
                assert(pieces@[k as int]@ =~= strip_cr(raw[k as int]));
            }
        }
        k = k + 1;
    }
    proof {
        assert(pieces@.map_values(view_of) =~= raw.map_values(g_strip));
    }
    let m = pieces.len();
    if m > 0 && pieces[m - 1].len() == 0 {
        pieces.pop();
        proof {
            assert(pieces@.map_values(view_of) =~= raw.map_values(g_strip).drop_last());
        }
    }
    proof {
        assert(pieces@.map_values(view_of) =~= lines_spec(s@));
    }
    pieces
}

/// The first position in `s` holding a comma followed by a space, at
/// or after `i`.
pub open spec fn comma_sp_pos(s: Seq<char>, i: int) -> Option<int>
    decreases s.len() - i,
{
    if i < 0 || i + 2 > s.len() {
        None
    } else if s[i] == ',' && s[i + 1] == ' ' {
        Some(i)
    } else {
        comma_sp_pos(s, i + 1)
    }
}

/// `s` split at the first comma-space separator, if it has one.
pub open spec fn comma_split_spec(s: Seq<char>) -> Option<(Seq<char>, Seq<char>)> {
    match comma_sp_pos(s, 0) {
        None => None,
        Some(ix) => Some((s.take(ix), s.skip(ix + 2))),
    }
}

/// Splits at the first comma-space separator, if any.
#[verifier::loop_isolation(false)]
pub fn comma_split(s: &Vec<char>) -> (r: Option<(Vec<char>, Vec<char>)>)
    ensures
        match r {
            Some(parts) => comma_split_spec(s@) == Some((parts.0@, parts.1@)),
            None => comma_split_spec(s@) is None,
        },
{
    let n = s.len();
    let mut i: usize = 0;
    while n >= 2 && i <= n - 2
        invariant
            i <= n,
            comma_sp_pos(s@, 0) == comma_sp_pos(s@, i as int),
        decreases n - i,
    {
        if s[i] == ',' && s[i + 1] == ' ' {
            let mut left: Vec<char> = Vec::new();
            let mut k: usize = 0;
            while k < i
                invariant
                    k <= i,
                    i < n == s@.len(),
                    left@ == s@.take(i as int).take(k as int),
                decreases i - k,
            {
                left.push(s[k]);
                proof {
                    assert(left@ =~= s@.take(i as int).take(k + 1));
                }
                k = k + 1;
            }
            let mut right: Vec<char> = Vec::new();
            let mut k: usize = i + 2;
            while k < n
                invariant
                    i + 2 <= k <= n,
                    n == s@.len(),
                    right@ == s@.skip(i + 2).take(k - (i + 2)),
                decreases n - k,
            {
                right.push(s[k]);
                proof {
                    assert(right@ =~= s@.skip(i + 2).take(k + 1 - (i + 2)));
                }
                k = k + 1;
            }
            proof {
                assert(left@ =~= s@.take(i as int));
                assert(right@ =~= s@.skip(i + 2));
            }
            return Some((left, right));
        }
        i = i + 1;
    }
    None
}

/// `c` is an ASCII whitespace character.
pub open spec fn is_ws(c: char) -> bool {
    c == ' ' || c == '\t' || c == '\n' || c == '\r'
}

/// The whitespace-separated tokens of `s` from position `i` on, with
/// `cur` the partial token already read.
pub open spec fn split_ws_from(s: Seq<char>, i: int, cur: Seq<char>) -> Seq<Seq<char>>
    decreases s.len() - i,
{
    if i < 0 || i >= s.len() {
        if cur.len() > 0 {
            seq![cur]
        } else {
            Seq::empty()
        }
    } else if is_ws(s[i]) {
        (if cur.len() > 0 {
            seq![cur]
        } else {
            Seq::empty()
        }) + split_ws_from(s, i + 1, Seq::empty())
    } else {
        split_ws_from(s, i + 1, cur.push(s[i]))
    }
}

/// The whitespace-separated tokens of `s`.
pub open spec fn split_ws(s: Seq<char>) -> Seq<Seq<char>> {
    split_ws_from(s, 0, Seq::empty())
}

/// Splits `s` into its whitespace-separated tokens.
#[verifier::loop_isolation(false)]
pub fn split_whitespace_chars(s: &Vec<char>) -> (r: Vec<Vec<char>>)
    ensures
        r@.map_values(|t: Vec<char>| t@) == split_ws(s@),
{
    let ghost view_of = |t: Vec<char>| t@;
    let mut r: Vec<Vec<char>> = Vec::new();
    let mut cur: Vec<char> = Vec::new();
    let mut i: usize = 0;
    while i < s.len()
        invariant
            i <= s@.len(),
            r@.map_values(view_of) + split_ws_from(s@, i as int, cur@) == split_ws(s@),
        decreases s@.len() - i,
    {
        let c = s[i];
        if c == ' ' || c == '\t' || c == '\n' || c == '\r' {
            let ghost prev = r@.map_values(view_of);
            let ghost cur_seq = cur@;
            if cur.len() > 0 {
                let done = cur;
                cur = Vec::new();
                r.push(done);
                proof {
                    assert(r@.map_values(view_of) =~= prev + seq![cur_seq]);
                    assert(prev + seq![cur_seq] + split_ws_from(s@, i + 1, cur@) =~= prev + (seq![
                        cur_seq,
                    ] + split_ws_from(s@, i + 1, cur@)));
                    assert(r@.map_values(view_of) + split_ws_from(s@, i + 1, cur@) =~= split_ws(
                        s@,
                    ));
                }
            } else {
                proof {
                    assert(cur_seq =~= Seq::<char>::empty());
                    assert(split_ws_from(s@, i as int, cur_seq) == Seq::<Seq<char>>::empty()
                        + split_ws_from(s@, i + 1, cur_seq));
                    assert(Seq::<Seq<char>>::empty() + split_ws_from(s@, i + 1, cur_seq)
                        =~= split_ws_from(s@, i + 1, cur_seq));
                    assert(r@.map_values(view_of) + split_ws_from(s@, i + 1, cur@) =~= split_ws(
                        s@,
                    ));
                }
            }
        } else {
            cur.push(c);
        }
        i = i + 1;
    }
    let ghost prev = r@.map_values(view_of);
    let ghost cur_seq = cur@;
    if cur.len() > 0 {
        r.push(cur);
        proof {
            assert(r@.map_values(view_of) =~= prev + seq![cur_seq]);
        }
    }
    proof {
        assert(r@.map_values(view_of) =~= split_ws(s@));
    }
    r
}

/// The pieces of `s` from position `i` on when split at every
/// occurrence of `sep`, with `cur` the partial piece already read; a
/// split always yields at least one piece, and empty pieces are kept.
pub open spec fn split_char_from(s: Seq<char>, sep: char, i: int, cur: Seq<char>) -> Seq<Seq<char>>
    decreases s.len() - i,
{
    if i < 0 || i >= s.len() {
        seq![cur]
    } else if s[i] == sep {
        seq![cur] + split_char_from(s, sep, i + 1, Seq::empty())
    } else {
        split_char_from(s, sep, i + 1, cur.push(s[i]))
    }
}

/// The pieces of `s` split at every occurrence of `sep`.
pub open spec fn split_char(s: Seq<char>, sep: char) -> Seq<Seq<char>> {
    split_char_from(s, sep, 0, Seq::empty())
}

/// Splits `s` at every occurrence of `sep`, keeping empty pieces.
#[verifier::loop_isolation(false)]
pub fn split_char_exec(s: &Vec<char>, sep: char) -> (r: Vec<Vec<char>>)
    ensures
        r@.map_values(|t: Vec<char>| t@) == split_char(s@, sep),
{
    let ghost view_of = |t: Vec<char>| t@;
    let mut r: Vec<Vec<char>> = Vec::new();
    let mut cur: Vec<char> = Vec::new();
    let mut i: usize = 0;
    while i < s.len()
        invariant
            i <= s@.len(),
            r@.map_values(view_of) + split_char_from(s@, sep, i as int, cur@) == split_char(
                s@,
                sep,
            ),
        decreases s@.len() - i,
    {
        let c = s[i];
        if c == sep {
            let ghost prev = r@.map_values(view_of);
            let ghost cur_seq = cur@;
            let done = cur;
            cur = Vec::new();
            r.push(done);
            proof {
                assert(r@.map_values(view_of) =~= prev + seq![cur_seq]);
                assert(prev + seq![cur_seq] + split_char_from(s@, sep, i + 1, cur@) =~= prev + (
                seq![cur_seq] + split_char_from(s@, sep, i + 1, cur@)));
                assert(r@.map_values(view_of) + split_char_from(s@, sep, i + 1, cur@)
                    =~= split_char(s@, sep));
            }
        } else {
            cur.push(c);
        }
        i = i + 1;
    }
    let ghost prev = r@.map_values(view_of);
    let ghost cur_seq = cur@;
    r.push(cur);
    proof {
        assert(r@.map_values(view_of) =~= prev + seq![cur_seq]);
        assert(r@.map_values(view_of) =~= split_char(s@, sep));
    }
    r
}


/// Collects the characters back into a string.
#[verifier::loop_isolation(false)]
pub fn chars_string(v: &Vec<char>) -> (r: String)
    ensures
        r@ == v@,
{
    let mut r = String::new();
    let mut i: usize = 0;
    while i < v.len()
        invariant
            i <= v@.len(),
            r@ == v@.take(i as int),
        decreases v@.len() - i,
    {
        push_char(&mut r, v[i]);
        proof {
            assert(r@ =~= v@.take(i + 1));
        }
        i = i + 1;
    }
    proof {
        assert(r@ =~= v@);
    }
    r
}

/// Compares two character vectors.
#[verifier::loop_isolation(false)]
pub fn chars_eq(a: &Vec<char>, b: &Vec<char>) -> (r: bool)
    ensures
        r == (a@ == b@),
{
    if a.len() != b.len() {
        return false;
    }
    let mut i: usize = 0;
    while i < a.len()
        invariant
            i <= a@.len(),
            a@.len() == b@.len(),
            forall|k: int| 0 <= k < i ==> a@[k] == b@[k],
        decreases a@.len() - i,
    {
        if a[i] != b[i] {
            return false;
        }
        i = i + 1;
    }
    proof {
        assert(a@ =~= b@);
    }
    true
}

/// Copies the characters between two positions.
#[verifier::loop_isolation(false)]
pub fn subrange_chars(v: &Vec<char>, a: usize, b: usize) -> (r: Vec<char>)
    requires
        a <= b <= v@.len(),
    ensures
        r@ == v@.subrange(a as int, b as int),
{
    let mut r: Vec<char> = Vec::new();
    let mut i: usize = a;
    while i < b
        invariant
            a <= i <= b,
            r@ == v@.subrange(a as int, i as int),
        decreases b - i,
    {
        r.push(v[i]);
        proof {
            assert(r@ =~= v@.subrange(a as int, i + 1));
        }
        i = i + 1;
    }
    r
}

} // verus!
