//! Character-level text utilities: splitting, lines, trimming, ordering and
//! number parsing over sequences of `char`, each with its mathematical model.
use vstd::prelude::*;
use vstd::arithmetic::power2::{pow2, lemma_pow2_unfold, lemma2_to64};

verus! {

/// Unicode `White_Space` (the set `char::is_whitespace` accepts).
pub open spec fn is_ws(c: char) -> bool {
    ||| '\u{9}' <= c <= '\u{D}'
    ||| c == ' '
    ||| c == '\u{85}'
    ||| c == '\u{A0}'
    ||| c == '\u{1680}'
    ||| '\u{2000}' <= c <= '\u{200A}'
    ||| c == '\u{2028}'
    ||| c == '\u{2029}'
    ||| c == '\u{202F}'
    ||| c == '\u{205F}'
    ||| c == '\u{3000}'
}

/// Whether `c` is Unicode white space.
pub fn is_whitespace(c: char) -> (b: bool)
    ensures
        b == is_ws(c),
{
    ('\u{9}' <= c && c <= '\u{D}') || c == ' ' || c == '\u{85}' || c == '\u{A0}' || c
        == '\u{1680}' || ('\u{2000}' <= c && c <= '\u{200A}') || c == '\u{2028}' || c
        == '\u{2029}' || c == '\u{202F}' || c == '\u{205F}' || c == '\u{3000}'
}

/// Whether some character of `s` is white space.
pub open spec fn has_ws(s: Seq<char>) -> bool {
    exists|i: int| 0 <= i < s.len() && is_ws(#[trigger] s[i])
}

/// Whether some character of `s` is white space.
pub fn contains_whitespace(s: &Vec<char>) -> (b: bool)
    ensures
        b == has_ws(s@),
{
    let mut i: usize = 0;
    while i < s.len()
        invariant
            i <= s.len(),
            forall|j: int| 0 <= j < i ==> !is_ws(#[trigger] s@[j]),
        decreases s.len() - i,
    {
        if is_whitespace(s[i]) {
            return true;
        }
        i = i + 1;
    }
    false
}

/// The characters of `s`, in order.
pub fn chars_of(s: &str) -> (v: Vec<char>)
    ensures
        v@ == s@,
{
    let mut v: Vec<char> = Vec::new();
    for c in it: s.chars()
        invariant
            v@ == it.seq().take(it.index()),
            it.seq() == s@,
    {
        v.push(c);
    }
    v
}

/// `String::push`: appends one character.
#[verifier::external_body]
fn push_char(s: &mut String, c: char)
    ensures
        final(s)@ == old(s)@.push(c),
{
    s.push(c);
}

/// The string made of the characters `v`.
pub fn string_of(v: &[char]) -> (s: String)
    ensures
        s@ == v@,
{
    let mut s = String::new();
    let mut i: usize = 0;
    while i < v.len()
        invariant
            i <= v.len(),
            s@ == v@.take(i as int),
        decreases v.len() - i,
    {
        push_char(&mut s, v[i]);
        i = i + 1;
        assert(v@.take(i as int) == v@.take(i - 1).push(v@[i - 1]));
    }
    assert(v@.take(v.len() as int) == v@);
    s
}

/// The pieces of `s` between occurrences of `sep`, as `str::split` yields
/// them: `n` separators give `n + 1` pieces, empty ones included.
pub open spec fn split_on(s: Seq<char>, sep: char) -> Seq<Seq<char>>
    decreases s.len(),
{
    if s.len() == 0 {
        seq![Seq::<char>::empty()]
    } else {
        let p = split_on(s.drop_last(), sep);
        if s.last() == sep {
            p.push(Seq::<char>::empty())
        } else {
            p.update(p.len() - 1, p.last().push(s.last()))
        }
    }
}

/// A split always has at least one piece.
pub proof fn lemma_split_nonempty(s: Seq<char>, sep: char)
    ensures
        split_on(s, sep).len() >= 1,
    decreases s.len(),
{
    if s.len() > 0 {
        lemma_split_nonempty(s.drop_last(), sep);
    }
}

/// Splits `s` at every `sep`.
pub fn split_chars(s: &[char], sep: char) -> (parts: Vec<Vec<char>>)
    ensures
        parts@.len() == split_on(s@, sep).len(),
        forall|i: int| 0 <= i < parts@.len() ==> #[trigger] parts@[i]@ == split_on(s@, sep)[i],
{
    let mut parts: Vec<Vec<char>> = Vec::new();
    let mut cur: Vec<char> = Vec::new();
    let mut i: usize = 0;
    while i < s.len()
        invariant
            i <= s.len(),
            parts@.len() + 1 == split_on(s@.take(i as int), sep).len(),
            forall|j: int| 0 <= j < parts@.len() ==> #[trigger] parts@[j]@ == split_on(s@.take(i as int), sep)[j],
            cur@ == split_on(s@.take(i as int), sep).last(),
        decreases s.len() - i,
    {
        let c = s[i];
        let ghost before = s@.take(i as int);
        proof {
            lemma_split_nonempty(before, sep);
            assert(s@.take(i + 1).drop_last() == before);
        }
        if c == sep {
            parts.push(cur);
            cur = Vec::new();
        } else {
            cur.push(c);
        }
        i = i + 1;
    }
    parts.push(cur);
    assert(s@.take(s.len() as int) == s@);
    parts
}

/// Removes one trailing `'\r'`, if there is one.
pub open spec fn strip_cr(s: Seq<char>) -> Seq<char> {
    if s.len() > 0 && s.last() == '\r' {
        s.drop_last()
    } else {
        s
    }
}

/// The lines of `s` as `str::lines` yields them: split at `'\n'`, a
/// `'\r'` just before a `'\n'` dropped, and a final empty piece (after a
/// final line ending, or of the empty text) left out.
pub open spec fn lines_of(s: Seq<char>) -> Seq<Seq<char>> {
    let p = split_on(s, '\n');
    let ended = Seq::new((p.len() - 1) as nat, |i: int| strip_cr(p[i]));
    if p.last().len() == 0 {
        ended
    } else {
        ended.push(p.last())
    }
}

/// The lines of `s`.
pub fn lines(s: &[char]) -> (ls: Vec<Vec<char>>)
    ensures
        ls@.len() == lines_of(s@).len(),
        forall|i: int| 0 <= i < ls@.len() ==> #[trigger] ls@[i]@ == lines_of(s@)[i],
{
    let parts = split_chars(s, '\n');
    proof {
        lemma_split_nonempty(s@, '\n');
    }
    let n = parts.len();
    let mut ls: Vec<Vec<char>> = Vec::new();
    let mut i: usize = 0;
    while i + 1 < n
        invariant
            n == parts@.len(),
            n == split_on(s@, '\n').len(),
            n >= 1,
            i + 1 <= n,
            forall|j: int| 0 <= j < n ==> #[trigger] parts@[j]@ == split_on(s@, '\n')[j],
            ls@.len() == i,
            forall|j: int| 0 <= j < i ==> #[trigger] ls@[j]@ == strip_cr(split_on(s@, '\n')[j]),
        decreases n - i,
    {
        let p = &parts[i];
        let mut line: Vec<char> = Vec::new();
        let mut end = p.len();
        if end > 0 && p[end - 1] == '\r' {
            end = end - 1;
        }
        let mut k: usize = 0;
        while k < end
            invariant
                end <= p@.len(),
                k <= end,
                line@ == p@.take(k as int),
            decreases end - k,
        {
            line.push(p[k]);
            k = k + 1;
            assert(p@.take(k as int) == p@.take(k - 1).push(p@[k - 1]));
        }
        assert(line@ == strip_cr(p@)) by {
            if p@.len() > 0 && p@.last() == '\r' {
                assert(p@.drop_last() == p@.take(end as int));
            } else {
                assert(p@ == p@.take(end as int));
            }
        }
        ls.push(line);
        i = i + 1;
    }
    let last = &parts[n - 1];
    if last.len() > 0 {
        let mut line: Vec<char> = Vec::new();
        let mut k: usize = 0;
        while k < last.len()
            invariant
                k <= last@.len(),
                line@ == last@.take(k as int),
            decreases last.len() - k,
        {
            line.push(last[k]);
            k = k + 1;
            assert(last@.take(k as int) == last@.take(k - 1).push(last@[k - 1]));
        }
        assert(last@.take(last@.len() as int) == last@);
        ls.push(line);
    }
    ls
}


/// `s` without its leading white space.
pub open spec fn trim_start(s: Seq<char>) -> Seq<char>
    decreases s.len(),
{
    if s.len() > 0 && is_ws(s[0]) {
        trim_start(s.drop_first())
    } else {
        s
    }
}

/// `s` without its trailing white space.
pub open spec fn trim_end(s: Seq<char>) -> Seq<char>
    decreases s.len(),
{
    if s.len() > 0 && is_ws(s.last()) {
        trim_end(s.drop_last())
    } else {
        s
    }
}

/// `s` without leading and trailing white space, as `str::trim` gives it.
pub open spec fn trim(s: Seq<char>) -> Seq<char> {
    trim_end(trim_start(s))
}

/// `s` without leading and trailing white space.
pub fn trimmed(s: &[char]) -> (t: Vec<char>)
    ensures
        t@ == trim(s@),
{
    let mut lo: usize = 0;
    assert(s@.skip(0) == s@);
    while lo < s.len() && is_whitespace(s[lo])
        invariant
            lo <= s.len(),
            trim_start(s@) == trim_start(s@.skip(lo as int)),
        decreases s.len() - lo,
    {
        assert(s@.skip(lo as int).drop_first() == s@.skip(lo + 1));
        lo = lo + 1;
    }
    assert(trim_start(s@) == s@.skip(lo as int)) by {
        if lo < s.len() {
            assert(s@.skip(lo as int)[0] == s@[lo as int]);
        }
    }
    let mut hi: usize = s.len();
    while hi > lo && is_whitespace(s[hi - 1])
        invariant
            lo <= hi <= s.len(),
            trim(s@) == trim_end(s@.subrange(lo as int, hi as int)),
        decreases hi,
    {
        assert(s@.subrange(lo as int, hi as int).drop_last() == s@.subrange(lo as int, hi - 1));
        hi = hi - 1;
    }
    let mut t: Vec<char> = Vec::new();
    let mut k: usize = lo;
    while k < hi
        invariant
            lo <= k <= hi,
            hi <= s.len(),
            t@ == s@.subrange(lo as int, k as int),
        decreases hi - k,
    {
        t.push(s[k]);
        k = k + 1;
        assert(s@.subrange(lo as int, k as int) == s@.subrange(lo as int, k - 1).push(s@[k - 1]));
    }
    t
}

/// Whether `a` and `b` hold the same characters.
pub fn same_chars(a: &[char], b: &[char]) -> (r: bool)
    ensures
        r == (a@ == b@),
{
    if a.len() != b.len() {
        return false;
    }
    let mut i: usize = 0;
    while i < a.len()
        invariant
            a@.len() == b@.len(),
            i <= a.len(),
            forall|j: int| 0 <= j < i ==> a@[j] == b@[j],
        decreases a.len() - i,
    {
        if a[i] != b[i] {
            return false;
        }
        i = i + 1;
    }
    assert(a@ == b@);
    true
}

/// Lexicographic order of character sequences by code point; on strings it
/// is the order of `String`'s `Ord` (UTF-8 keeps code point order).
pub open spec fn lex_lt(a: Seq<char>, b: Seq<char>) -> bool
    decreases a.len(),
{
    if b.len() == 0 {
        false
    } else if a.len() == 0 {
        true
    } else if a[0] != b[0] {
        a[0] < b[0]
    } else {
        lex_lt(a.drop_first(), b.drop_first())
    }
}

/// No sequence comes before itself.
pub proof fn lemma_lex_irreflexive(a: Seq<char>)
    ensures
        !lex_lt(a, a),
    decreases a.len(),
{
    if a.len() > 0 {
        lemma_lex_irreflexive(a.drop_first());
    }
}

/// The order is transitive.
pub proof fn lemma_lex_transitive(a: Seq<char>, b: Seq<char>, c: Seq<char>)
    requires
        lex_lt(a, b),
        lex_lt(b, c),
    ensures
        lex_lt(a, c),
    decreases a.len(),
{
    if a.len() > 0 && a[0] == b[0] && b[0] == c[0] {
        lemma_lex_transitive(a.drop_first(), b.drop_first(), c.drop_first());
    }
}

/// Of two different sequences, exactly one comes first.
pub proof fn lemma_lex_total(a: Seq<char>, b: Seq<char>)
    ensures
        a != b ==> (lex_lt(a, b) || lex_lt(b, a)),
        !(lex_lt(a, b) && lex_lt(b, a)),
    decreases a.len(),
{
    if a.len() > 0 && b.len() > 0 && a[0] == b[0] {
        lemma_lex_total(a.drop_first(), b.drop_first());
        if a.drop_first() == b.drop_first() {
            assert(a == seq![a[0]] + a.drop_first());
            assert(b == seq![b[0]] + b.drop_first());
        }
    } else if a.len() > 0 && b.len() > 0 {
    } else if a.len() == 0 && b.len() == 0 {
        assert(a == b);
    }
}

/// Whether `a` comes before `b`.
pub fn lex_less(a: &[char], b: &[char]) -> (r: bool)
    ensures
        r == lex_lt(a@, b@),
{
    let mut i: usize = 0;
    assert(a@.skip(0) == a@);
    assert(b@.skip(0) == b@);
    while i < a.len() && i < b.len() && a[i] == b[i]
        invariant
            i <= a.len(),
            i <= b.len(),
            lex_lt(a@, b@) == lex_lt(a@.skip(i as int), b@.skip(i as int)),
        decreases a.len() - i,
    {
        assert(a@.skip(i as int).drop_first() == a@.skip(i + 1));
        assert(b@.skip(i as int).drop_first() == b@.skip(i + 1));
        i = i + 1;
    }
    if i == b.len() {
        false
    } else if i == a.len() {
        true
    } else {
        assert(a@.skip(i as int)[0] == a@[i as int]);
        assert(b@.skip(i as int)[0] == b@[i as int]);
        a[i] < b[i]
    }
}

/// Whether string `a` comes before string `b`.
pub fn str_less(a: &str, b: &str) -> (r: bool)
    ensures
        r == lex_lt(a@, b@),
{
    let x = chars_of(a);
    let y = chars_of(b);
    lex_less(x.as_slice(), y.as_slice())
}

/// Whether `c` is a digit of base `radix` (at most ten).
pub open spec fn is_digit(c: char, radix: nat) -> bool {
    '0' <= c && (c as int) < ('0' as int) + radix
}

/// Whether every character of `s` is a digit of base `radix`.
pub open spec fn all_digits(s: Seq<char>, radix: nat) -> bool {
    forall|i: int| 0 <= i < s.len() ==> is_digit(#[trigger] s[i], radix)
}

/// The number that the digits `s` write in base `radix`.
pub open spec fn digits_value(s: Seq<char>, radix: nat) -> nat
    decreases s.len(),
{
    if s.len() == 0 {
        0
    } else {
        digits_value(s.drop_last(), radix) * radix + (s.last() as int - '0' as int) as nat
    }
}

/// What `u64::from_str_radix(s, radix)` gives (for a radix up to ten), as an
/// `Option`: an optional `'+'`, then at least one digit, and a value that
/// fits in a `u64`.
pub open spec fn parse_u64_spec(s: Seq<char>, radix: nat) -> Option<u64> {
    if s.len() == 0 || (s[0] == '+' && s.len() == 1) {
        None
    } else {
        let d = if s[0] == '+' {
            s.drop_first()
        } else {
            s
        };
        if all_digits(d, radix) && digits_value(d, radix) <= u64::MAX {
            Some(digits_value(d, radix) as u64)
        } else {
            None
        }
    }
}

/// Adding digits never lowers the value.
proof fn lemma_value_prefix(d: Seq<char>, j: int, radix: nat)
    requires
        0 <= j <= d.len(),
        radix >= 1,
        all_digits(d, radix),
    ensures
        digits_value(d.take(j), radix) <= digits_value(d, radix),
    decreases d.len(),
{
    if j < d.len() {
        let e = d.drop_last();
        assert(e.take(j) == d.take(j));
        assert(all_digits(e, radix)) by {
            assert forall|i: int| 0 <= i < e.len() implies is_digit(#[trigger] e[i], radix) by {
                assert(e[i] == d[i]);
            }
        }
        lemma_value_prefix(e, j, radix);
        let v = digits_value(e, radix);
        assert(v * radix >= v) by (nonlinear_arith)
            requires
                radix >= 1,
        ;
    } else {
        assert(d.take(j) == d);
    }
}

/// The value of a decimal digit character.
fn digit_of(c: char) -> (r: Option<u64>)
    ensures
        r matches Some(v) ==> '0' <= c <= '9' && v == c as int - '0' as int,
        r is None ==> !('0' <= c <= '9'),
{
    match c {
        '0' => Some(0),
        '1' => Some(1),
        '2' => Some(2),
        '3' => Some(3),
        '4' => Some(4),
        '5' => Some(5),
        '6' => Some(6),
        '7' => Some(7),
        '8' => Some(8),
        '9' => Some(9),
        _ => None,
    }
}

/// Parses `s` as `u64::from_str_radix` does, for a radix from two to ten.
pub fn parse_u64(s: &[char], radix: u64) -> (r: Option<u64>)
    requires
        2 <= radix <= 10,
    ensures
        r == parse_u64_spec(s@, radix as nat),
{
    if s.len() == 0 || (s[0] == '+' && s.len() == 1) {
        return None;
    }
    let start: usize = if s[0] == '+' {
        1
    } else {
        0
    };
    let ghost d = if s@[0] == '+' {
        s@.drop_first()
    } else {
        s@
    };
    assert(d == s@.skip(start as int));
    let mut acc: u64 = 0;
    let mut i: usize = start;
    while i < s.len()
        invariant
            start <= i <= s.len(),
            2 <= radix <= 10,
            d == s@.skip(start as int),
            s@.len() > 0,
            !(s@[0] == '+' && s@.len() == 1),
            d == (if s@[0] == '+' { s@.drop_first() } else { s@ }),
            all_digits(d.take(i - start), radix as nat),
            acc == digits_value(d.take(i - start), radix as nat),
        decreases s.len() - i,
    {
        let c = s[i];
        let k = i - start;
        assert(d[k as int] == c);
        let dv: u64 = match digit_of(c) {
            Some(v) if v < radix => v,
            _ => {
                assert(!all_digits(d, radix as nat)) by {
                    assert(!is_digit(d[k as int], radix as nat));
                }
                return None;
            },
        };
        assert(d.take(k + 1).drop_last() == d.take(k as int));
        assert(d.take(k + 1).last() == c);
        assert(all_digits(d.take(k + 1), radix as nat)) by {
            assert forall|j: int| 0 <= j < k + 1 implies is_digit(#[trigger] d.take(k + 1)[j], radix as nat) by {
                if j < k {
                    assert(d.take(k + 1)[j] == d.take(k as int)[j]);
                }
            }
        }
        match acc.checked_mul(radix) {
            None => {
                proof {
                    if all_digits(d, radix as nat) {
                        lemma_value_prefix(d, k + 1, radix as nat);
                    }
                }
                return None;
            },
            Some(m) => {
                match m.checked_add(dv) {
                    None => {
                        proof {
                            if all_digits(d, radix as nat) {
                                lemma_value_prefix(d, k + 1, radix as nat);
                            }
                        }
                        return None;
                    },
                    Some(v) => {
                        acc = v;
                    },
                }
            },
        }
        i = i + 1;
    }
    assert(d.take(s.len() - start) == d);
    Some(acc)
}

/// The number of one bits of `x`.
pub open spec fn ones(x: nat) -> nat
    decreases x,
{
    if x == 0 {
        0
    } else {
        (x % 2) + ones(x / 2)
    }
}

/// A number below `2^k` has at most `k` one bits.
pub proof fn lemma_ones_bound(x: nat, k: nat)
    requires
        x < pow2(k),
    ensures
        ones(x) <= k,
    decreases k,
{
    if k > 0 && x > 0 {
        lemma_pow2_unfold(k);
        lemma_ones_bound(x / 2, (k - 1) as nat);
    } else if k == 0 {
        lemma2_to64();
    }
}

/// The number of one bits of `x`, as `u64::count_ones` gives it.
pub fn count_ones(x: u64) -> (c: u64)
    ensures
        c == ones(x as nat),
        c <= 64,
{
    proof {
        lemma2_to64();
        lemma_ones_bound(x as nat, 64);
    }
    let mut y: u64 = x;
    let mut c: u64 = 0;
    while y > 0
        invariant
            c + ones(y as nat) == ones(x as nat),
            ones(x as nat) <= 64,
        decreases y,
    {
        c = c + y % 2;
        y = y / 2;
    }
    c
}


/// The pieces `p` joined, with `sep` between each two.
pub open spec fn join_with(p: Seq<Seq<char>>, sep: char) -> Seq<char>
    decreases p.len(),
{
    if p.len() == 0 {
        Seq::empty()
    } else if p.len() == 1 {
        p[0]
    } else {
        join_with(p.drop_last(), sep).push(sep) + p.last()
    }
}

/// Splitting undoes joining: the pieces of a split, joined with the
/// separator, give back the text, and no piece holds the separator.
pub proof fn lemma_split_join(s: Seq<char>, sep: char)
    ensures
        join_with(split_on(s, sep), sep) == s,
        forall|i: int, j: int|
            0 <= i < split_on(s, sep).len() && 0 <= j < split_on(s, sep)[i].len() ==> #[trigger] split_on(
                s,
                sep,
            )[i][j] != sep,
    decreases s.len(),
{
    if s.len() > 0 {
        let t = s.drop_last();
        lemma_split_join(t, sep);
        lemma_split_nonempty(t, sep);
        let p = split_on(t, sep);
        let q = split_on(s, sep);
        if s.last() == sep {
            assert(q == p.push(Seq::<char>::empty()));
            assert(q.drop_last() == p);
            assert(join_with(q, sep) == join_with(p, sep).push(sep) + Seq::<char>::empty());
            assert(s == t.push(sep));
            assert forall|i: int, j: int| 0 <= i < q.len() && 0 <= j < q[i].len() implies #[trigger] q[i][j] != sep by {
                assert(q[i] == p[i]);
            }
        } else {
            let x = p.last().push(s.last());
            assert(q == p.update(p.len() - 1, x));
            if p.len() == 1 {
                assert(join_with(q, sep) == x);
                assert(join_with(p, sep) == p[0]);
            } else {
                assert(q.drop_last() == p.drop_last());
                assert(join_with(q, sep) == join_with(p.drop_last(), sep).push(sep) + x);
            }
            assert(s == t.push(s.last()));
            assert forall|i: int, j: int| 0 <= i < q.len() && 0 <= j < q[i].len() implies #[trigger] q[i][j] != sep by {
                if i < q.len() - 1 {
                    assert(q[i] == p[i]);
                } else if j < q[i].len() - 1 {
                    assert(q[i][j] == p[i][j]);
                }
            }
        }
    }
}


/// Appending text only adds to the pieces of a split: the pieces before the
/// last one stay, and there are at least as many.
pub proof fn lemma_split_append(a: Seq<char>, b: Seq<char>, sep: char)
    ensures
        split_on(a + b, sep).len() >= split_on(a, sep).len(),
        forall|i: int|
            0 <= i < split_on(a, sep).len() - 1 ==> #[trigger] split_on(a + b, sep)[i] == split_on(a, sep)[i],
    decreases b.len(),
{
    if b.len() == 0 {
        assert(a + b == a);
    } else {
        lemma_split_append(a, b.drop_last(), sep);
        assert((a + b).drop_last() == a + b.drop_last());
        lemma_split_nonempty(a + b.drop_last(), sep);
    }
}


/// Appending text without the separator extends the last piece only.
pub proof fn lemma_split_extend(a: Seq<char>, b: Seq<char>, sep: char)
    requires
        forall|i: int| 0 <= i < b.len() ==> b[i] != sep,
    ensures
        split_on(a + b, sep) == split_on(a, sep).update(
            split_on(a, sep).len() - 1,
            split_on(a, sep).last() + b,
        ),
    decreases b.len(),
{
    lemma_split_nonempty(a, sep);
    if b.len() == 0 {
        assert(a + b == a);
        assert(split_on(a, sep).last() + b == split_on(a, sep).last());
        assert(split_on(a, sep).update(split_on(a, sep).len() - 1, split_on(a, sep).last())
            == split_on(a, sep));
    } else {
        let c = b.drop_last();
        lemma_split_extend(a, c, sep);
        assert((a + b).drop_last() == a + c);
        assert((a + b).last() == b.last());
        assert(b.last() == b[b.len() - 1]);
        assert(split_on(a, sep).last() + c + seq![b.last()] == split_on(a, sep).last() + b);
        assert((split_on(a, sep).last() + c).push(b.last()) == split_on(a, sep).last() + b);
    }
}

/// Text without the separator is a single piece.
pub proof fn lemma_split_single(b: Seq<char>, sep: char)
    requires
        forall|i: int| 0 <= i < b.len() ==> b[i] != sep,
    ensures
        split_on(b, sep) == seq![b],
{
    let e = Seq::<char>::empty();
    lemma_split_extend(e, b, sep);
    assert(e + b == b);
    assert(e + b == b);
}

/// Joining undoes splitting: pieces without the separator, joined with it,
/// split back into the same pieces.
pub proof fn lemma_join_split(p: Seq<Seq<char>>, sep: char)
    requires
        p.len() >= 1,
        forall|i: int, j: int| 0 <= i < p.len() && 0 <= j < p[i].len() ==> #[trigger] p[i][j] != sep,
    ensures
        split_on(join_with(p, sep), sep) == p,
    decreases p.len(),
{
    if p.len() == 1 {
        assert forall|j: int| 0 <= j < p[0].len() implies p[0][j] != sep by {
            assert(p[0][j] != sep);
        }
        lemma_split_single(p[0], sep);
        assert(seq![p[0]] == p);
    } else {
        let q = p.drop_last();
        assert forall|i: int, j: int| 0 <= i < q.len() && 0 <= j < q[i].len() implies #[trigger] q[i][j] != sep by {
            assert(q[i] == p[i]);
        }
        lemma_join_split(q, sep);
        let a = join_with(q, sep).push(sep);
        let b = p.last();
        assert forall|j: int| 0 <= j < b.len() implies b[j] != sep by {
            assert(p[p.len() - 1][j] != sep);
        }
        lemma_split_extend(a, b, sep);
        assert(a.drop_last() == join_with(q, sep));
        assert(split_on(a, sep) == q.push(Seq::<char>::empty()));
        assert(Seq::<char>::empty() + b == b);
        assert(q.push(Seq::<char>::empty()).update(q.len() as int, b) == p);
    }
}

/// Text that splits into two or more pieces holds the separator.
pub proof fn lemma_split_has_sep(s: Seq<char>, sep: char)
    requires
        split_on(s, sep).len() >= 2,
    ensures
        exists|i: int| 0 <= i < s.len() && s[i] == sep,
{
    if !(exists|i: int| 0 <= i < s.len() && s[i] == sep) {
        lemma_split_single(s, sep);
    }
}

/// Writing a number in binary: doubling appends a zero bit, which adds no one
/// bit; doubling and adding one appends a one bit, which adds one.
pub proof fn lemma_ones_double(x: nat)
    ensures
        ones(2 * x) == ones(x),
        ones(2 * x + 1) == ones(x) + 1,
{
    if x > 0 {
        assert((2 * x) % 2 == 0 && (2 * x) / 2 == x);
    }
    assert((2 * x + 1) % 2 == 1 && (2 * x + 1) / 2 == x);
}

/// Whether bit `i` of `x` is set.
pub open spec fn bit_set(x: u64, i: u64) -> bool {
    (x >> i) & 1 == 1
}

/// The bits of `x` set among its lowest `n`.
pub open spec fn low_bits_set(x: u64, n: nat) -> nat
    decreases n,
{
    if n == 0 {
        0
    } else {
        low_bits_set(x, (n - 1) as nat) + if bit_set(x, (n - 1) as u64) {
            1nat
        } else {
            0nat
        }
    }
}

/// Shifting `x` right by one moves each bit down by one place.
proof fn lemma_low_bits_shift(x: u64, n: nat)
    requires
        n < 64,
    ensures
        low_bits_set(x, n + 1) == (if bit_set(x, 0) { 1nat } else { 0nat }) + low_bits_set(x >> 1, n),
    decreases n,
{
    if n == 0 {
        assert(((1 - 1) as nat) as u64 == 0u64);
        assert(low_bits_set(x, 1) == low_bits_set(x, 0) + (if bit_set(x, 0) { 1nat } else { 0nat }));
    } else {
        lemma_low_bits_shift(x, (n - 1) as nat);
        let m: u64 = n as u64;
        let y: u64 = x >> 1;
        assert(bit_set(x, m) == bit_set(y, (m - 1) as u64)) by {
            assert(((x >> m) & 1) == (((x >> 1) >> ((m - 1) as u64)) & 1)) by (bit_vector)
                requires
                    1 <= m < 64,
            ;
        }
        assert((n + 1 - 1) as nat == n);
        assert(((n + 1 - 1) as nat) as u64 == m);
        assert(((n - 1) as nat) as u64 == (m - 1) as u64);
        assert(low_bits_set(x, n + 1) == low_bits_set(x, n) + (if bit_set(x, m) { 1nat } else { 0nat }));
        assert(low_bits_set(y, n) == low_bits_set(y, (n - 1) as nat) + (if bit_set(y, (m - 1) as u64) {
            1nat
        } else {
            0nat
        }));
    }
}

/// `ones` counts the one bits: for a `u64`, it is the number of its 64 bits
/// that are set.
pub proof fn lemma_ones_are_set_bits(x: u64)
    ensures
        ones(x as nat) == low_bits_set(x, 64),
{
    lemma2_to64();
    lemma_ones_low_bits(x, 64);
}

proof fn lemma_ones_low_bits(x: u64, n: nat)
    requires
        n <= 64,
        (x as nat) < pow2(n),
    ensures
        ones(x as nat) == low_bits_set(x, n),
    decreases n,
{
    if n == 0 {
        lemma2_to64();
        lemma_low_zero(x, 0);
    } else {
        lemma_pow2_unfold(n);
        let y = x >> 1;
        assert(x >> 1 == x / 2) by (bit_vector);
        assert(bit_set(x, 0) <==> x % 2 == 1) by {
            assert(((x >> 0u64) & 1 == 1) <==> x % 2 == 1) by (bit_vector);
        }
        lemma_ones_low_bits(y, (n - 1) as nat);
        lemma_low_bits_shift(x, (n - 1) as nat);
        assert((n - 1 + 1) as nat == n);
    }
    if n == 64 {
        lemma2_to64();
    }
}

proof fn lemma_low_zero(x: u64, n: nat)
    requires
        x == 0,
    ensures
        low_bits_set(x, n) == 0,
    decreases n,
{
    if n > 0 {
        lemma_low_zero(x, (n - 1) as nat);
        let m = (n - 1) as u64;
        assert((0u64 >> m) & 1 == 0) by (bit_vector);
        assert(!bit_set(x, m));
    }
}


/// Digits written after others shift them up: the value of `a + b` is the
/// value of `a` times `radix` to the number of digits of `b`, plus the value
/// of `b` (so `"16"` is 1 * 10 + 6).
pub proof fn lemma_digits_concat(a: Seq<char>, b: Seq<char>, radix: nat)
    ensures
        digits_value(a + b, radix) == digits_value(a, radix) * vstd::arithmetic::power::pow(
            radix as int,
            b.len(),
        ) + digits_value(b, radix),
    decreases b.len(),
{
    reveal(vstd::arithmetic::power::pow);
    if b.len() == 0 {
        assert(a + b == a);
        assert(digits_value(a, radix) * 1 == digits_value(a, radix));
    } else {
        let c = b.drop_last();
        lemma_digits_concat(a, c, radix);
        assert((a + b).drop_last() == a + c);
        assert((a + b).last() == b.last());
        let va = digits_value(a, radix) as int;
        let vc = digits_value(c, radix) as int;
        let p = vstd::arithmetic::power::pow(radix as int, c.len());
        assert((va * p + vc) * radix == va * (radix * p) + vc * radix) by (nonlinear_arith);
        let d = (b.last() as int - '0' as int) as nat;
        assert(digits_value(a + b, radix) == digits_value(a + c, radix) * radix + d);
        assert(digits_value(b, radix) == digits_value(c, radix) * radix + d);
        assert(vstd::arithmetic::power::pow(radix as int, b.len()) == radix * p);
        assert(digits_value(a + c, radix) == va * p + vc);
    }
}


/// Text made of lines joined by line feeds reads back as those lines, with
/// or without a final line feed (for lines without `'\n'` that do not end in
/// `'\r'`, the last of them not empty).
pub proof fn lemma_lines_of_joined(p: Seq<Seq<char>>)
    requires
        p.len() >= 1,
        p.last().len() > 0,
        forall|i: int, j: int| 0 <= i < p.len() && 0 <= j < p[i].len() ==> #[trigger] p[i][j] != '\n',
        forall|i: int| 0 <= i < p.len() ==> (#[trigger] p[i]).len() == 0 || p[i].last() != '\r',
    ensures
        lines_of(join_with(p, '\n')) == p,
        lines_of(join_with(p, '\n').push('\n')) == p,
{
    let t = join_with(p, '\n');
    lemma_join_split(p, '\n');
    assert(lines_of(t) =~= p) by {
        assert forall|i: int| 0 <= i < p.len() - 1 implies strip_cr(#[trigger] p[i]) == p[i] by {
            assert(p[i].len() == 0 || p[i].last() != '\r');
        }
    }
    let u = t.push('\n');
    assert(u.drop_last() == t);
    assert(split_on(u, '\n') == p.push(Seq::<char>::empty()));
    assert(lines_of(u) =~= p) by {
        assert forall|i: int| 0 <= i < p.len() implies strip_cr(#[trigger] p[i]) == p[i] by {
            assert(p[i].len() == 0 || p[i].last() != '\r');
        }
        assert(p.push(Seq::<char>::empty()).last().len() == 0);
    }
}

/// Trimming drops exactly the white space around the text: white space
/// `w1`, then text `c` that starts and ends with other characters, then
/// white space `w2`, trims to `c`.
pub proof fn lemma_trim_around(w1: Seq<char>, c: Seq<char>, w2: Seq<char>)
    requires
        c.len() > 0,
        !is_ws(c[0]),
        !is_ws(c.last()),
        forall|i: int| 0 <= i < w1.len() ==> is_ws(#[trigger] w1[i]),
        forall|i: int| 0 <= i < w2.len() ==> is_ws(#[trigger] w2[i]),
    ensures
        trim(w1 + c + w2) == c,
{
    lemma_trim_start_ws(w1, c + w2);
    assert(w1 + c + w2 == w1 + (c + w2));
    assert((c + w2)[0] == c[0]);
    lemma_trim_end_ws(c, w2);
}

proof fn lemma_trim_start_ws(w: Seq<char>, r: Seq<char>)
    requires
        r.len() > 0,
        !is_ws(r[0]),
        forall|i: int| 0 <= i < w.len() ==> is_ws(#[trigger] w[i]),
    ensures
        trim_start(w + r) == r,
    decreases w.len(),
{
    if w.len() == 0 {
        assert(w + r == r);
    } else {
        assert((w + r)[0] == w[0]);
        assert((w + r).drop_first() == w.drop_first() + r);
        assert forall|i: int| 0 <= i < w.drop_first().len() implies is_ws(#[trigger] w.drop_first()[i]) by {
            assert(w.drop_first()[i] == w[i + 1]);
        }
        lemma_trim_start_ws(w.drop_first(), r);
    }
}

proof fn lemma_trim_end_ws(r: Seq<char>, w: Seq<char>)
    requires
        r.len() > 0,
        !is_ws(r.last()),
        forall|i: int| 0 <= i < w.len() ==> is_ws(#[trigger] w[i]),
    ensures
        trim_end(r + w) == r,
    decreases w.len(),
{
    if w.len() == 0 {
        assert(r + w == r);
    } else {
        assert((r + w).last() == w.last());
        assert(w.last() == w[w.len() - 1]);
        assert((r + w).drop_last() == r + w.drop_last());
        lemma_trim_end_ws(r, w.drop_last());
    }
}

/// A text comes before every longer text that it begins.
pub proof fn lemma_lex_prefix(a: Seq<char>, b: Seq<char>)
    requires
        b.len() > 0,
    ensures
        lex_lt(a, a + b),
    decreases a.len(),
{
    if a.len() > 0 {
        assert((a + b)[0] == a[0]);
        assert((a + b).drop_first() == a.drop_first() + b);
        lemma_lex_prefix(a.drop_first(), b);
    } else {
        assert(a + b == b);
    }
}

} // verus!
