//! Synthesis of JSON-Pointer style paths.
//!
//! A path is `""` for the root, and otherwise a sequence of `/`-led
//! segments.  Object keys are escaped segment-wise: `~` becomes `~0` first,
//! then `/` becomes `~1`, so a key never introduces a spurious segment
//! boundary.  Array positions are written as canonical decimal numerals and
//! are not escaped.

use vstd::prelude::*;
use vstd::string::StringExecFns;
use vstd::string::StrSliceExecFns;

verus! {

/// One key character after escaping: `~` to `~0`, `/` to `~1`, all else kept.
pub open spec fn escaped_char(c: char) -> Seq<char> {
    if c == '~' {
        seq!['~', '0']
    } else if c == '/' {
        seq!['~', '1']
    } else {
        seq![c]
    }
}

/// An object key after escaping, character by character.
pub open spec fn escaped_key(k: Seq<char>) -> Seq<char>
    decreases k.len(),
{
    if k.len() == 0 {
        Seq::empty()
    } else {
        escaped_char(k[0]) + escaped_key(k.drop_first())
    }
}

/// A raw segment after undoing the escaping: `~1` back to `/` first, then
/// `~0` back to `~`; scanned left to right, a `~` followed by neither digit
/// is kept as it stands.
pub open spec fn unescaped_seg(s: Seq<char>) -> Seq<char>
    decreases s.len(),
{
    if s.len() == 0 {
        Seq::empty()
    } else if s.len() >= 2 && s[0] == '~' && s[1] == '1' {
        seq!['/'] + unescaped_seg(s.subrange(2, s.len() as int))
    } else if s.len() >= 2 && s[0] == '~' && s[1] == '0' {
        seq!['~'] + unescaped_seg(s.subrange(2, s.len() as int))
    } else {
        seq![s[0]] + unescaped_seg(s.drop_first())
    }
}

pub open spec fn is_digit(c: char) -> bool {
    c == '0' || c == '1' || c == '2' || c == '3' || c == '4' || c == '5' || c == '6' || c == '7'
        || c == '8' || c == '9'
}

pub open spec fn digit_char(d: int) -> char {
    if d == 0 {
        '0'
    } else if d == 1 {
        '1'
    } else if d == 2 {
        '2'
    } else if d == 3 {
        '3'
    } else if d == 4 {
        '4'
    } else if d == 5 {
        '5'
    } else if d == 6 {
        '6'
    } else if d == 7 {
        '7'
    } else if d == 8 {
        '8'
    } else {
        '9'
    }
}

pub open spec fn digit_val(c: char) -> int {
    if c == '0' {
        0
    } else if c == '1' {
        1
    } else if c == '2' {
        2
    } else if c == '3' {
        3
    } else if c == '4' {
        4
    } else if c == '5' {
        5
    } else if c == '6' {
        6
    } else if c == '7' {
        7
    } else if c == '8' {
        8
    } else {
        9
    }
}

/// The canonical decimal numeral of `n`, most significant digit first.
pub open spec fn dec_digits(n: nat) -> Seq<char>
    decreases n,
{
    if n < 10 {
        seq![digit_char(n as int)]
    } else {
        dec_digits(n / 10).push(digit_char((n % 10) as int))
    }
}

/// The number a sequence of digit characters denotes.
pub open spec fn dec_value(s: Seq<char>) -> int
    decreases s.len(),
{
    if s.len() == 0 {
        0
    } else {
        dec_value(s.subrange(0, s.len() - 1)) * 10 + digit_val(s[s.len() - 1])
    }
}

/// A segment that addresses an array position: digits only, and no leading
/// zero unless the numeral is `0` itself.
pub open spec fn is_canonical_index(s: Seq<char>) -> bool {
    &&& s.len() > 0
    &&& forall|i: int| 0 <= i < s.len() ==> is_digit(s[i])
    &&& (s.len() > 1 ==> s[0] != '0')
}

/// Position of the first `/` in `p`, or `p.len()` if there is none.
pub open spec fn first_slash(p: Seq<char>) -> int
    decreases p.len(),
{
    if p.len() == 0 {
        0
    } else if p[0] == '/' {
        0
    } else {
        1 + first_slash(p.drop_first())
    }
}

/// `p` split on every `/`, as Rust's `split('/')` does: an empty input
/// gives one empty segment, and adjacent separators give empty segments.
pub open spec fn split_on_slash(p: Seq<char>) -> Seq<Seq<char>>
    decreases p.len(),
{
    let j = first_slash(p);
    if j >= p.len() {
        seq![p]
    } else {
        proof {
            lemma_first_slash(p);
        }
        seq![p.subrange(0, j)] + split_on_slash(p.subrange(j + 1, p.len() as int))
    }
}

/// The segments a non-empty path consists of; the root path has none.
pub open spec fn path_segs(p: Seq<char>) -> Seq<Seq<char>> {
    if p.len() == 0 {
        Seq::empty()
    } else {
        split_on_slash(p.drop_first())
    }
}

/// The path of an object member: the parent path, `/`, then the escaped key.
pub open spec fn appended_key(p: Seq<char>, k: Seq<char>) -> Seq<char> {
    p + seq!['/'] + escaped_key(k)
}

/// The path of an array element: the parent path, `/`, then the decimal
/// position.
pub open spec fn appended_index(p: Seq<char>, i: int) -> Seq<char> {
    p + seq!['/'] + dec_digits(i as nat)
}

/// Relies on String::push: appends the one character to the end.
#[verifier::external_body]
fn push_char(s: &mut String, c: char)
    ensures
        final(s)@ == old(s)@.push(c),
{
    s.push(c)
}

/// Escaping one more trailing character extends the escaped key.
pub proof fn lemma_escaped_key_snoc(k: Seq<char>, c: char)
    ensures
        escaped_key(k.push(c)) == escaped_key(k) + escaped_char(c),
    decreases k.len(),
{
    if k.len() == 0 {
        assert(k.push(c)[0] == c);
        assert(k.push(c).drop_first() =~= Seq::<char>::empty());
        assert(escaped_key(k.push(c)) =~= escaped_char(c) + escaped_key(Seq::empty()));
        assert(escaped_key(k.push(c)) =~= escaped_char(c));
        assert(escaped_key(k) + escaped_char(c) =~= escaped_char(c));
    } else {
        assert(k.push(c)[0] == k[0]);
        assert(k.push(c).drop_first() =~= k.drop_first().push(c));
        lemma_escaped_key_snoc(k.drop_first(), c);
        assert(escaped_key(k.push(c)) =~= escaped_key(k) + escaped_char(c));
    }
}

/// Escaped keys never contain a segment separator.
pub proof fn lemma_escaped_key_no_slash(k: Seq<char>)
    ensures
        forall|i: int| 0 <= i < escaped_key(k).len() ==> escaped_key(k)[i] != '/',
    decreases k.len(),
{
    if k.len() > 0 {
        lemma_escaped_key_no_slash(k.drop_first());
        let head = escaped_char(k[0]);
        let rest = escaped_key(k.drop_first());
        assert forall|i: int|
            0 <= i < escaped_key(k).len() implies escaped_key(k)[i] != '/' by {
            if i < head.len() {
                assert(escaped_key(k)[i] == head[i]);
            } else {
                assert(escaped_key(k)[i] == rest[i - head.len()]);
            }
        }
    }
}

/// Undoing the two substitutions in the opposite order restores any key.
pub proof fn lemma_escape_round_trip(k: Seq<char>)
    ensures
        unescaped_seg(escaped_key(k)) == k,
    decreases k.len(),
{
    if k.len() == 0 {
        assert(unescaped_seg(escaped_key(k)) =~= k);
    } else {
        let e = escaped_key(k);
        let rest = escaped_key(k.drop_first());
        lemma_escape_round_trip(k.drop_first());
        if k[0] == '~' {
            assert(e =~= seq!['~', '0'] + rest);
            assert(e.subrange(2, e.len() as int) =~= rest);
            assert(unescaped_seg(e) =~= seq!['~'] + k.drop_first());
            assert(unescaped_seg(e) =~= k);
        } else if k[0] == '/' {
            assert(e =~= seq!['~', '1'] + rest);
            assert(e.subrange(2, e.len() as int) =~= rest);
            assert(unescaped_seg(e) =~= seq!['/'] + k.drop_first());
            assert(unescaped_seg(e) =~= k);
        } else {
            assert(e =~= seq![k[0]] + rest);
            assert(e.drop_first() =~= rest);
            assert(unescaped_seg(e) =~= seq![k[0]] + k.drop_first());
            assert(unescaped_seg(e) =~= k);
        }
    }
}

/// A segment without tildes is its own unescaping.
pub proof fn lemma_unescape_plain(s: Seq<char>)
    requires
        forall|i: int| 0 <= i < s.len() ==> s[i] != '~',
    ensures
        unescaped_seg(s) == s,
    decreases s.len(),
{
    if s.len() > 0 {
        let rest = s.drop_first();
        assert(forall|i: int| 0 <= i < rest.len() ==> rest[i] == #[trigger] s[i + 1]);
        lemma_unescape_plain(rest);
        assert(unescaped_seg(s) =~= seq![s[0]] + rest);
        assert(seq![s[0]] + rest =~= s);
    }
}

/// Decimal numerals are canonical index segments and denote their number.
pub proof fn lemma_dec_digits(n: nat)
    ensures
        is_canonical_index(dec_digits(n)),
        dec_value(dec_digits(n)) == n,
        forall|i: int| 0 <= i < dec_digits(n).len() ==> dec_digits(n)[i] != '/',
    decreases n,
{
    if n < 10 {
        let d = dec_digits(n);
        assert(d =~= seq![digit_char(n as int)]);
        assert(d[0] == digit_char(n as int));
        assert(is_digit(d[0]));
        assert(forall|i: int| 0 <= i < d.len() ==> is_digit(#[trigger] d[i]));
        assert(d.subrange(0, 0) =~= Seq::<char>::empty());
        assert(dec_value(Seq::<char>::empty()) == 0);
        assert(dec_value(d) == dec_value(d.subrange(0, 0)) * 10 + digit_val(d[0]));
        assert(digit_val(digit_char(n as int)) == n);
    } else {
        lemma_dec_digits(n / 10);
        let d = dec_digits(n);
        let pre = dec_digits(n / 10);
        assert(d =~= pre.push(digit_char((n % 10) as int)));
        assert(d.subrange(0, d.len() - 1) =~= pre);
        assert(d[0] == pre[0]);
        assert(n / 10 >= 1);
        if pre.len() == 1 {
            assert(pre.subrange(0, 0) =~= Seq::<char>::empty());
            assert(dec_value(Seq::<char>::empty()) == 0);
            assert(dec_value(pre) == digit_val(pre[0]));
            if pre[0] == '0' {
                assert(n / 10 == 0);
                assert(false);
            }
        }
        assert(pre[0] != '0');
        assert forall|i: int| 0 <= i < d.len() implies is_digit(#[trigger] d[i]) by {
            if i < d.len() - 1 {
                assert(d[i] == pre[i]);
            } else {
                assert(d[i] == digit_char((n % 10) as int));
            }
        }
        assert(digit_val(digit_char((n % 10) as int)) == n % 10);
        assert(dec_value(d) == dec_value(pre) * 10 + digit_val(d[d.len() - 1]));
        assert(n == (n / 10) * 10 + n % 10) by (nonlinear_arith);
        assert(dec_value(d) == n);
    }
}

/// A digit sequence denotes a number, never something negative.
pub proof fn lemma_dec_value_nonneg(s: Seq<char>)
    requires
        forall|i: int| 0 <= i < s.len() ==> is_digit(s[i]),
    ensures
        dec_value(s) >= 0,
    decreases s.len(),
{
    if s.len() > 0 {
        let pre = s.subrange(0, s.len() - 1);
        assert(forall|i: int| 0 <= i < pre.len() ==> pre[i] == #[trigger] s[i]);
        lemma_dec_value_nonneg(pre);
        assert(digit_val(s[s.len() - 1]) >= 0);
        assert(dec_value(pre) * 10 >= 0) by (nonlinear_arith)
            requires
                dec_value(pre) >= 0,
        ;
    }
}

/// Dropping trailing digits never increases the denoted number.
pub proof fn lemma_dec_value_monotone(s: Seq<char>, t: int)
    requires
        forall|i: int| 0 <= i < s.len() ==> is_digit(s[i]),
        0 <= t <= s.len(),
    ensures
        dec_value(s.subrange(0, t)) <= dec_value(s),
    decreases s.len() - t,
{
    if t == s.len() {
        assert(s.subrange(0, t) =~= s);
    } else {
        let next = s.subrange(0, t + 1);
        assert(forall|i: int| 0 <= i < next.len() ==> next[i] == #[trigger] s[i]);
        assert(next.subrange(0, t) =~= s.subrange(0, t));
        lemma_dec_value_nonneg(s.subrange(0, t));
        assert(dec_value(next) == dec_value(s.subrange(0, t)) * 10 + digit_val(next[t]));
        assert(dec_value(s.subrange(0, t)) * 10 >= dec_value(s.subrange(0, t)))
            by (nonlinear_arith)
            requires
                dec_value(s.subrange(0, t)) >= 0,
        ;
        assert(digit_val(next[t]) >= 0);
        lemma_dec_value_monotone(s, t + 1);
    }
}

/// Splitting after appending a separator and a separator-free segment
/// appends that segment to the split.
pub proof fn lemma_split_append(x: Seq<char>, e: Seq<char>)
    requires
        forall|i: int| 0 <= i < e.len() ==> e[i] != '/',
    ensures
        split_on_slash(x + seq!['/'] + e) == split_on_slash(x).push(e),
    decreases x.len(),
{
    let whole = x + seq!['/'] + e;
    let j = first_slash(x);
    lemma_first_slash(x);
    lemma_first_slash(e);
    lemma_first_slash(whole);
    if j >= x.len() {
        // x has no separator: the first separator of the whole is the
        // appended one.
        assert(forall|i: int| 0 <= i < x.len() ==> whole[i] == #[trigger] x[i]);
        assert(whole[x.len() as int] == '/');
        lemma_first_slash_at(whole, x.len() as int);
        assert(whole.subrange(0, x.len() as int) =~= x);
        assert(whole.subrange(x.len() as int + 1, whole.len() as int) =~= e);
        assert(first_slash(e) >= e.len());
        assert(split_on_slash(e) =~= seq![e]);
        assert(split_on_slash(whole) =~= seq![x] + seq![e]);
        assert(split_on_slash(x) =~= seq![x]);
        assert(split_on_slash(whole) =~= split_on_slash(x).push(e));
    } else {
        assert(forall|i: int| 0 <= i <= j ==> whole[i] == #[trigger] x[i]);
        lemma_first_slash_at(whole, j);
        let xr = x.subrange(j + 1, x.len() as int);
        assert(whole.subrange(0, j) =~= x.subrange(0, j));
        assert(whole.subrange(j + 1, whole.len() as int) =~= xr + seq!['/'] + e);
        lemma_split_append(xr, e);
        assert(split_on_slash(whole) =~= seq![x.subrange(0, j)] + split_on_slash(xr).push(e));
        assert(split_on_slash(x) =~= seq![x.subrange(0, j)] + split_on_slash(xr));
        assert(split_on_slash(whole) =~= split_on_slash(x).push(e));
    }
}

/// What `first_slash` returns: the least separator position, or the length.
pub proof fn lemma_first_slash(p: Seq<char>)
    ensures
        0 <= first_slash(p) <= p.len(),
        first_slash(p) < p.len() ==> p[first_slash(p)] == '/',
        forall|i: int| 0 <= i < first_slash(p) ==> p[i] != '/',
    decreases p.len(),
{
    if p.len() > 0 && p[0] != '/' {
        let rest = p.drop_first();
        lemma_first_slash(rest);
        let j = first_slash(rest);
        assert(forall|i: int| 0 <= i < rest.len() ==> #[trigger] rest[i] == p[i + 1]);
        if j < rest.len() {
            assert(p[first_slash(p)] == rest[j]);
        }
        assert forall|i: int| 0 <= i < first_slash(p) implies p[i] != '/' by {
            if i > 0 {
                assert(rest[i - 1] == p[i]);
            }
        }
    }
}

/// A position holding `/` with none before it is `first_slash`.
pub proof fn lemma_first_slash_at(p: Seq<char>, j: int)
    requires
        0 <= j < p.len(),
        p[j] == '/',
        forall|i: int| 0 <= i < j ==> p[i] != '/',
    ensures
        first_slash(p) == j,
    decreases p.len(),
{
    if j > 0 {
        assert(forall|i: int|
            0 <= i < j - 1 ==> p.drop_first()[i] == #[trigger] p[i + 1]);
        lemma_first_slash_at(p.drop_first(), j - 1);
    }
}

/// A separator-free sequence splits into itself alone.
pub proof fn lemma_split_whole(e: Seq<char>)
    requires
        forall|i: int| 0 <= i < e.len() ==> e[i] != '/',
    ensures
        split_on_slash(e) == seq![e],
{
    lemma_first_slash(e);
    if first_slash(e) < e.len() {
        assert(e[first_slash(e)] == '/');
        assert(false);
    }
}

/// Appending a separator-free segment appends it to the path's segments.
pub proof fn lemma_path_segs_append(p: Seq<char>, e: Seq<char>)
    requires
        forall|i: int| 0 <= i < e.len() ==> e[i] != '/',
    ensures
        path_segs(p + seq!['/'] + e) == path_segs(p).push(e),
{
    let whole = p + seq!['/'] + e;
    assert(whole.len() > 0);
    if p.len() == 0 {
        assert(whole.drop_first() =~= e);
        lemma_split_whole(e);
        assert(path_segs(whole) =~= seq![e]);
        assert(path_segs(p).push(e) =~= seq![e]);
    } else {
        assert(whole.drop_first() =~= p.drop_first() + seq!['/'] + e);
        lemma_split_append(p.drop_first(), e);
    }
}

/// Escapes an object key for use as one path segment.
pub fn escape_key(k: &str) -> (r: String)
    ensures
        r@ == escaped_key(k@),
{
    let n = k.unicode_len();
    let mut out = String::new();
    let mut i: usize = 0;
    while i < n
        invariant
            n == k@.len(),
            0 <= i <= n,
            out@ == escaped_key(k@.subrange(0, i as int)),
        decreases n - i,
    {
        let c = k.get_char(i);
        if c == '~' {
            out.append("~0");
            proof {
                reveal_strlit("~0");
            }
        } else if c == '/' {
            out.append("~1");
            proof {
                reveal_strlit("~1");
            }
        } else {
            push_char(&mut out, c);
        }
        proof {
            lemma_escaped_key_snoc(k@.subrange(0, i as int), c);
            assert(k@.subrange(0, i + 1) =~= k@.subrange(0, i as int).push(c));
            assert(out@ =~= escaped_key(k@.subrange(0, i + 1)));
        }
        i = i + 1;
    }
    proof {
        assert(k@.subrange(0, n as int) =~= k@);
    }
    out
}

/// Undoes the escaping of one raw path segment.
pub fn unescape_segment(s: &str) -> (r: String)
    ensures
        r@ == unescaped_seg(s@),
{
    let n = s.unicode_len();
    let mut out = String::new();
    let mut i: usize = 0;
    proof {
        assert(s@.subrange(0, n as int) =~= s@);
        assert(Seq::<char>::empty() + unescaped_seg(s@) =~= unescaped_seg(s@));
    }
    while i < n
        invariant
            n == s@.len(),
            0 <= i <= n,
            unescaped_seg(s@) == out@ + unescaped_seg(s@.subrange(i as int, n as int)),
        decreases n - i,
    {
        let ghost rest = s@.subrange(i as int, n as int);
        let c = s.get_char(i);
        if c == '~' && i + 1 < n && (s.get_char(i + 1) == '0' || s.get_char(i + 1) == '1') {
            let d = s.get_char(i + 1);
            if d == '1' {
                push_char(&mut out, '/');
            } else {
                push_char(&mut out, '~');
            }
            proof {
                assert(rest.len() >= 2 && rest[0] == '~' && (rest[1] == '0' || rest[1] == '1'));
                assert(rest.subrange(2, rest.len() as int)
                    =~= s@.subrange(i + 2, n as int));
                assert(unescaped_seg(s@) =~= out@ + unescaped_seg(s@.subrange(i + 2, n as int)));
            }
            i = i + 2;
        } else {
            push_char(&mut out, c);
            proof {
                assert(rest.len() >= 1 && rest[0] == c);
                if rest.len() >= 2 && rest[0] == '~' && (rest[1] == '1' || rest[1] == '0') {
                    assert(false);
                }
                assert(rest.drop_first() =~= s@.subrange(i + 1, n as int));
                assert(unescaped_seg(rest) =~= seq![c] + unescaped_seg(rest.drop_first()));
                assert(unescaped_seg(s@) =~= out@ + unescaped_seg(s@.subrange(i + 1, n as int)));
            }
            i = i + 1;
        }
    }
    proof {
        assert(s@.subrange(n as int, n as int) =~= Seq::<char>::empty());
        assert(out@ =~= unescaped_seg(s@));
    }
    out
}

fn digit_of(d: usize) -> (c: char)
    requires
        d < 10,
    ensures
        c == digit_char(d as int),
{
    if d == 0 {
        '0'
    } else if d == 1 {
        '1'
    } else if d == 2 {
        '2'
    } else if d == 3 {
        '3'
    } else if d == 4 {
        '4'
    } else if d == 5 {
        '5'
    } else if d == 6 {
        '6'
    } else if d == 7 {
        '7'
    } else if d == 8 {
        '8'
    } else {
        '9'
    }
}

/// The canonical decimal numeral of an array position.
pub fn index_segment(i: usize) -> (r: String)
    ensures
        r@ == dec_digits(i as nat),
{
    let mut rev: Vec<char> = Vec::new();
    let mut n = i;
    while n >= 10
        invariant
            dec_digits(i as nat) == dec_digits(n as nat) + rev@.reverse(),
        decreases n,
    {
        let d = digit_of(n % 10);
        proof {
            assert(dec_digits(n as nat) =~= dec_digits((n as nat) / 10).push(d));
            assert(rev@.push(d).reverse() =~= seq![d] + rev@.reverse());
            assert(dec_digits((n as nat) / 10).push(d) + rev@.reverse()
                =~= dec_digits((n as nat) / 10) + rev@.push(d).reverse());
        }
        rev.push(d);
        n = n / 10;
    }
    let d0 = digit_of(n);
    proof {
        assert(dec_digits(n as nat) =~= seq![d0]);
        assert(rev@.push(d0).reverse() =~= seq![d0] + rev@.reverse());
        assert(dec_digits(i as nat) =~= rev@.push(d0).reverse());
    }
    rev.push(d0);
    let mut out = String::new();
    let mut j: usize = rev.len();
    while j > 0
        invariant
            j <= rev@.len(),
            dec_digits(i as nat) == rev@.reverse(),
            out@ == rev@.reverse().subrange(0, rev@.len() - j),
        decreases j,
    {
        let c = rev[j - 1];
        push_char(&mut out, c);
        proof {
            assert(rev@.reverse()[rev@.len() - j] == rev@[j - 1]);
            assert(out@ =~= rev@.reverse().subrange(0, rev@.len() - (j - 1)));
        }
        j = j - 1;
    }
    proof {
        assert(rev@.reverse().subrange(0, rev@.len() as int) =~= rev@.reverse());
    }
    out
}

/// The character sequences of a list of strings, from position `i` on.
pub open spec fn views_from(s: Seq<String>, i: int) -> Seq<Seq<char>>
    decreases s.len() - i,
{
    if i < 0 || i >= s.len() {
        Seq::empty()
    } else {
        seq![s[i]@] + views_from(s, i + 1)
    }
}

/// Appending a string appends its characters to the views.
pub proof fn lemma_views_from_push(s: Seq<String>, x: String, i: int)
    requires
        0 <= i <= s.len(),
    ensures
        views_from(s.push(x), i) == views_from(s, i).push(x@),
    decreases s.len() - i,
{
    if i == s.len() {
        assert(s.push(x)[i] == x);
        assert(views_from(s.push(x), i + 1) =~= Seq::<Seq<char>>::empty());
        assert(views_from(s.push(x), i) =~= seq![x@]);
        assert(views_from(s, i).push(x@) =~= seq![x@]);
    } else {
        lemma_views_from_push(s, x, i + 1);
        assert(s.push(x)[i] == s[i]);
        assert(views_from(s.push(x), i) =~= views_from(s, i).push(x@));
    }
}

/// Splits off every raw segment of `p` onto `out`, in order.
fn split_rest(p: &str, out: &mut Vec<String>)
    ensures
        views_from(final(out)@, 0) == views_from(old(out)@, 0) + split_on_slash(p@),
    decreases p@.len(),
{
    let n = p.unicode_len();
    let mut j: usize = 0;
    while j < n && p.get_char(j) != '/'
        invariant
            0 <= j <= n,
            n == p@.len(),
            forall|k: int| 0 <= k < j ==> p@[k] != '/',
        decreases n - j,
    {
        j = j + 1;
    }
    proof {
        if j < n {
            lemma_first_slash_at(p@, j as int);
        } else {
            lemma_first_slash(p@);
            if first_slash(p@) < n {
                assert(p@[first_slash(p@)] == '/');
                assert(false);
            }
        }
        assert(first_slash(p@) == j);
    }
    let seg = p.substring_char(0, j);
    let seg_string = String::from_str(seg);
    proof {
        assert(seg@ =~= p@.subrange(0, j as int));
        lemma_views_from_push(out@, seg_string, 0);
    }
    let ghost mid0 = out@;
    out.push(seg_string);
    if j == n {
        proof {
            assert(p@.subrange(0, j as int) =~= p@);
            assert(split_on_slash(p@) =~= seq![p@]);
            assert(views_from(out@, 0) =~= views_from(mid0, 0) + split_on_slash(p@));
        }
    } else {
        let rest = p.substring_char(j + 1, n);
        proof {
            assert(rest@ =~= p@.subrange(j + 1, n as int));
        }
        let ghost mid = out@;
        split_rest(rest, out);
        proof {
            assert(split_on_slash(p@) =~= seq![p@.subrange(0, j as int)] + split_on_slash(
                rest@,
            ));
            assert(views_from(mid, 0) =~= views_from(mid0, 0).push(seg@));
            assert(views_from(out@, 0) =~= views_from(mid0, 0) + split_on_slash(p@));
        }
    }
}

/// The raw segments of a path: none for the root, else one per `/`-led
/// step, unescaped as they stand.
pub fn split_segments(p: &str) -> (r: Vec<String>)
    requires
        p@.len() == 0 || p@[0] == '/',
    ensures
        views_from(r@, 0) == path_segs(p@),
{
    let mut out: Vec<String> = Vec::new();
    let n = p.unicode_len();
    if n == 0 {
        proof {
            assert(views_from(out@, 0) =~= path_segs(p@));
        }
        return out;
    }
    let rest = p.substring_char(1, n);
    proof {
        assert(rest@ =~= p@.drop_first());
    }
    split_rest(rest, &mut out);
    proof {
        assert(views_from(out@, 0) =~= path_segs(p@));
    }
    out
}

/// Whether `q` lies strictly below the path `p`: it extends it through at
/// least one further `/`-led step.
pub open spec fn path_below(q: Seq<char>, p: Seq<char>) -> bool {
    q.len() > p.len() && q.subrange(0, p.len() as int) == p && q[p.len() as int] == '/'
}

/// The first segment of `q` below `p`.
pub open spec fn seg_below(q: Seq<char>, p: Seq<char>) -> Seq<char> {
    let rest = q.subrange(p.len() as int + 1, q.len() as int);
    rest.subrange(0, first_slash(rest))
}

/// A segment and a tail that is empty or `/`-led decompose a remainder
/// unambiguously.
pub proof fn lemma_seg_tail_unique(s1: Seq<char>, t1: Seq<char>, s2: Seq<char>, t2: Seq<char>)
    requires
        s1 + t1 == s2 + t2,
        forall|i: int| 0 <= i < s1.len() ==> s1[i] != '/',
        forall|i: int| 0 <= i < s2.len() ==> s2[i] != '/',
        t1.len() == 0 || t1[0] == '/',
        t2.len() == 0 || t2[0] == '/',
    ensures
        s1 == s2,
        t1 == t2,
{
    let w = s1 + t1;
    if s1.len() < s2.len() {
        assert(w[s1.len() as int] == s2[s1.len() as int]);
        assert(t1.len() > 0);
        assert(w[s1.len() as int] == t1[0]);
        assert(false);
    } else if s2.len() < s1.len() {
        assert(w[s2.len() as int] == s1[s2.len() as int]);
        assert(t2.len() > 0);
        assert((s2 + t2)[s2.len() as int] == t2[0]);
        assert(false);
    } else {
        assert forall|i: int| 0 <= i < s1.len() implies s1[i] == s2[i] by {
            assert(w[i] == s1[i] && (s2 + t2)[i] == s2[i]);
        }
        assert(s1 =~= s2);
        assert forall|i: int| 0 <= i < t1.len() implies t1[i] == t2[i] by {
            assert(w[s1.len() + i] == t1[i] && (s2 + t2)[s2.len() + i] == t2[i]);
        }
        assert(t1.len() == t2.len());
        assert(t1 =~= t2);
    }
}

/// A path, a separator, a separator-free segment and a well-shaped tail
/// compose to a path below the first, with that very first segment.
pub proof fn lemma_below_parts(p: Seq<char>, s: Seq<char>, t: Seq<char>)
    requires
        forall|i: int| 0 <= i < s.len() ==> s[i] != '/',
        t.len() == 0 || t[0] == '/',
    ensures
        path_below(p + seq!['/'] + s + t, p),
        seg_below(p + seq!['/'] + s + t, p) == s,
{
    let q = p + seq!['/'] + s + t;
    assert(q.subrange(0, p.len() as int) =~= p);
    assert(q[p.len() as int] == '/');
    let rest = q.subrange(p.len() as int + 1, q.len() as int);
    assert(rest =~= s + t);
    if t.len() == 0 {
        assert(rest =~= s);
        lemma_first_slash(rest);
        if first_slash(rest) < rest.len() {
            assert(rest[first_slash(rest)] == '/');
            assert(false);
        }
        assert(rest.subrange(0, first_slash(rest)) =~= s);
    } else {
        assert(forall|i: int| 0 <= i < s.len() ==> rest[i] == #[trigger] s[i]);
        assert(rest[s.len() as int] == t[0]);
        lemma_first_slash_at(rest, s.len() as int);
        assert(rest.subrange(0, s.len() as int) =~= s);
    }
}

/// A path below `p` is the composition of `p`, its first segment below
/// `p`, and a tail that is empty or `/`-led.
pub proof fn lemma_below_decompose(q: Seq<char>, p: Seq<char>)
    requires
        path_below(q, p),
    ensures
        q == p + seq!['/'] + seg_below(q, p) + q.subrange(
            p.len() as int + 1 + seg_below(q, p).len(),
            q.len() as int,
        ),
        forall|i: int| 0 <= i < seg_below(q, p).len() ==> seg_below(q, p)[i] != '/',
        ({
            let t = q.subrange(p.len() as int + 1 + seg_below(q, p).len(), q.len() as int);
            t.len() == 0 || t[0] == '/'
        }),
{
    let rest = q.subrange(p.len() as int + 1, q.len() as int);
    lemma_first_slash(rest);
    let s = seg_below(q, p);
    assert(s =~= rest.subrange(0, first_slash(rest)));
    let t = q.subrange(p.len() as int + 1 + s.len(), q.len() as int);
    assert(t =~= rest.subrange(first_slash(rest), rest.len() as int));
    assert forall|i: int| 0 <= i < s.len() implies s[i] != '/' by {
        assert(s[i] == rest[i]);
    }
    if t.len() > 0 {
        assert(t[0] == rest[first_slash(rest)]);
    }
    assert(q =~= p + seq!['/'] + s + t);
}

/// Lying below a path that itself lies below `p` keeps the first segment
/// seen from `p`.
pub proof fn lemma_below_trans(d: Seq<char>, c: Seq<char>, p: Seq<char>)
    requires
        path_below(d, c),
        path_below(c, p),
    ensures
        path_below(d, p),
        seg_below(d, p) == seg_below(c, p),
{
    lemma_below_decompose(c, p);
    lemma_below_decompose(d, c);
    let s = seg_below(c, p);
    let t = c.subrange(p.len() as int + 1 + s.len(), c.len() as int);
    let t2 = d.subrange(c.len() as int, d.len() as int);
    assert(t2.len() > 0 && t2[0] == '/') by {
        assert(d[c.len() as int] == '/');
        assert(t2[0] == d[c.len() as int]);
    }
    assert(d =~= c + t2);
    assert(d =~= p + seq!['/'] + s + (t + t2));
    assert(t + t2 =~= d.subrange(p.len() as int + 1 + s.len(), d.len() as int));
    lemma_below_parts(p, s, t + t2);
}

/// Whether two strings hold the same characters.
pub fn str_eq(a: &str, b: &str) -> (r: bool)
    ensures
        r == (a@ == b@),
{
    let na = a.unicode_len();
    let nb = b.unicode_len();
    if na != nb {
        return false;
    }
    let mut i: usize = 0;
    while i < na
        invariant
            na == a@.len(),
            na == b@.len(),
            0 <= i <= na,
            forall|k: int| 0 <= k < i ==> a@[k] == b@[k],
        decreases na - i,
    {
        if a.get_char(i) != b.get_char(i) {
            return false;
        }
        i = i + 1;
    }
    proof {
        assert(a@ =~= b@);
    }
    true
}

/// The path of an object member below `p`.
pub fn append_key(p: &str, k: &str) -> (r: String)
    ensures
        r@ == appended_key(p@, k@),
{
    let mut out = String::from_str(p);
    out.append("/");
    proof {
        reveal_strlit("/");
        assert(out@ =~= p@ + seq!['/']);
    }
    let esc = escape_key(k);
    out.append(esc.as_str());
    proof {
        assert(out@ =~= appended_key(p@, k@));
    }
    out
}

/// The path of an array element below `p`.
pub fn append_index(p: &str, i: usize) -> (r: String)
    ensures
        r@ == appended_index(p@, i as int),
{
    let mut out = String::from_str(p);
    out.append("/");
    proof {
        reveal_strlit("/");
        assert(out@ =~= p@ + seq!['/']);
    }
    let seg = index_segment(i);
    out.append(seg.as_str());
    proof {
        assert(out@ =~= appended_index(p@, i as int));
    }
    out
}

} // verus!
