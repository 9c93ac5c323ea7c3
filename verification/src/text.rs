//! Character-level building blocks of the on-disk format: decimal numbers,
//! escaped quoted strings, and splitting a document into lines.
//!
//! Every encoder here has a matching decoder and a proved round-trip lemma;
//! the document codec is built on top of these.

use vstd::prelude::*;

verus! {

// ---------------------------------------------------------------------------
// Decimal numbers
// ---------------------------------------------------------------------------

pub open spec fn is_digit(c: char) -> bool {
    48 <= c as u32 <= 57
}

pub open spec fn digit_val(c: char) -> nat {
    (c as u32 - 48) as nat
}

pub open spec fn char_of_digit(d: nat) -> char {
    if d == 0 {
        '0'
    } else if d == 1 {
        '1'
    } else if d == 2 {
        '2'
    } else if d == 3 {
        '3'
    } else if d == 4 {
        '4'
    } else if d == 5 {
        '5'
    } else if d == 6 {
        '6'
    } else if d == 7 {
        '7'
    } else if d == 8 {
        '8'
    } else {
        '9'
    }
}

/// Decimal rendering of a number, most significant digit first.
pub open spec fn dec_digits(n: nat) -> Seq<char>
    decreases n,
{
    if n < 10 {
        seq![char_of_digit(n)]
    } else {
        dec_digits(n / 10) + seq![char_of_digit(n % 10)]
    }
}

pub open spec fn all_digits(s: Seq<char>) -> bool {
    forall|i: int| 0 <= i < s.len() ==> is_digit(#[trigger] s[i])
}

/// Value of a digit string, read left to right.
pub open spec fn digits_val(s: Seq<char>) -> nat
    decreases s.len(),
{
    if s.len() == 0 {
        0
    } else {
        digits_val(s.drop_last()) * 10 + digit_val(s.last())
    }
}

/// A digit string denotes a number iff it is non-empty, all digits, and fits in `u64`.
pub open spec fn parse_u64_spec(s: Seq<char>) -> Option<u64> {
    if s.len() > 0 && all_digits(s) && digits_val(s) <= u64::MAX {
        Some(digits_val(s) as u64)
    } else {
        None
    }
}

pub proof fn lemma_char_digit_inverse(d: nat)
    requires
        d < 10,
    ensures
        is_digit(char_of_digit(d)),
        digit_val(char_of_digit(d)) == d,
{
}

pub proof fn lemma_dec_digits_ok(n: nat)
    ensures
        dec_digits(n).len() >= 1,
        all_digits(dec_digits(n)),
        digits_val(dec_digits(n)) == n,
    decreases n,
{
    if n < 10 {
        lemma_char_digit_inverse(n);
        let s = dec_digits(n);
        assert(s.drop_last() =~= Seq::<char>::empty());
        assert(digits_val(Seq::<char>::empty()) == 0);
        assert(s.last() == char_of_digit(n));
    } else {
        lemma_dec_digits_ok(n / 10);
        lemma_char_digit_inverse(n % 10);
        let a = dec_digits(n / 10);
        let s = a + seq![char_of_digit(n % 10)];
        assert(s.drop_last() =~= a);
        assert(s.last() == char_of_digit(n % 10));
        assert(digits_val(s) == (n / 10) * 10 + n % 10);
        assert((n / 10) * 10 + n % 10 == n) by (nonlinear_arith);
        assert forall|i: int| 0 <= i < s.len() implies is_digit(#[trigger] s[i]) by {
            if i < a.len() {
                assert(s[i] == a[i]);
            } else {
                assert(s[i] == char_of_digit(n % 10));
            }
        }
    }
}

pub proof fn lemma_digits_val_snoc(s: Seq<char>, c: char)
    ensures
        digits_val(s.push(c)) == digits_val(s) * 10 + digit_val(c),
{
    assert(s.push(c).drop_last() =~= s);
    assert(s.push(c).last() == c);
}

/// The value of a digit string is at least the value of any of its prefixes.
pub proof fn lemma_digits_val_prefix_le(s: Seq<char>, i: int)
    requires
        0 <= i <= s.len(),
    ensures
        digits_val(s.subrange(0, i)) <= digits_val(s),
    decreases s.len() - i,
{
    if i < s.len() {
        lemma_digits_val_prefix_le(s, i + 1);
        let a = s.subrange(0, i);
        let b = s.subrange(0, i + 1);
        assert(a.push(s[i]) =~= b);
        lemma_digits_val_snoc(a, s[i]);
        assert(digits_val(a) * 10 >= digits_val(a)) by (nonlinear_arith);
    } else {
        assert(s.subrange(0, i) =~= s);
    }
}

fn digit_char(d: u64) -> (c: char)
    requires
        d < 10,
    ensures
        c == char_of_digit(d as nat),
{
    if d == 0 {
        '0'
    } else if d == 1 {
        '1'
    } else if d == 2 {
        '2'
    } else if d == 3 {
        '3'
    } else if d == 4 {
        '4'
    } else if d == 5 {
        '5'
    } else if d == 6 {
        '6'
    } else if d == 7 {
        '7'
    } else if d == 8 {
        '8'
    } else {
        '9'
    }
}

/// Appends the decimal rendering of `n` to `out`.
pub fn push_u64_chars(out: &mut Vec<char>, n: u64)
    ensures
        final(out)@ == old(out)@ + dec_digits(n as nat),
    decreases n,
{
    if n < 10 {
        out.push(digit_char(n));
        assert(out@ =~= old(out)@ + dec_digits(n as nat));
    } else {
        push_u64_chars(out, n / 10);
        out.push(digit_char(n % 10));
        assert(out@ =~= old(out)@ + dec_digits(n as nat));
    }
}

/// Reads `v[start..end]` as a decimal `u64`, rejecting junk and overflow.
pub fn parse_u64_range(v: &Vec<char>, start: usize, end: usize) -> (r: Option<u64>)
    requires
        start <= end <= v@.len(),
    ensures
        r == parse_u64_spec(v@.subrange(start as int, end as int)),
{
    let ghost s = v@.subrange(start as int, end as int);
    if start == end {
        return None;
    }
    let mut acc: u64 = 0;
    let mut i: usize = start;
    while i < end
        invariant
            start <= i <= end <= v@.len(),
            s == v@.subrange(start as int, end as int),
            all_digits(s.subrange(0, i - start)),
            acc as nat == digits_val(s.subrange(0, i - start)),
        decreases end - i,
    {
        let c = v[i];
        assert(c == s[i - start]);
        let u = c as u32;
        if u < 48 || u > 57 {
            assert(!is_digit(s[i - start]));
            return None;
        }
        let d = (u - 48) as u64;
        assert(d == digit_val(s[i - start]));
        let ghost pre = s.subrange(0, i - start);
        proof {
            assert(pre.push(s[i - start]) =~= s.subrange(0, i - start + 1));
            lemma_digits_val_snoc(pre, s[i - start]);
        }
        if acc > (u64::MAX - d) / 10 {
            proof {
                let q = ((u64::MAX - d) / 10) as int;
                assert(q * 10 + ((u64::MAX - d) % 10) as int == u64::MAX - d);
                assert(acc as int >= q + 1);
                assert(acc as int * 10 >= (q + 1) * 10);
                assert(digits_val(s.subrange(0, i - start + 1)) > u64::MAX);
                lemma_digits_val_prefix_le(s, i - start + 1);
            }
            return None;
        }
        proof {
            let q = ((u64::MAX - d) / 10) as int;
            assert(q * 10 + ((u64::MAX - d) % 10) as int == u64::MAX - d);
            assert(q * 10 <= u64::MAX - d);
            assert(acc as int * 10 <= q * 10);
        }
        acc = acc * 10 + d;
        i = i + 1;
    }
    assert(s.subrange(0, end - start) =~= s);
    Some(acc)
}

// ---------------------------------------------------------------------------
// Escaped quoted strings
// ---------------------------------------------------------------------------

/// Escaping of one character inside a quoted string.
pub open spec fn esc_char(c: char) -> Seq<char> {
    if c == '\\' {
        seq!['\\', '\\']
    } else if c == '"' {
        seq!['\\', '"']
    } else if c == '\n' {
        seq!['\\', 'n']
    } else if c == '\t' {
        seq!['\\', 't']
    } else if c == '\r' {
        seq!['\\', 'r']
    } else {
        seq![c]
    }
}

pub open spec fn escape(s: Seq<char>) -> Seq<char>
    decreases s.len(),
{
    if s.len() == 0 {
        Seq::empty()
    } else {
        esc_char(s[0]) + escape(s.skip(1))
    }
}

/// A string value as it stands on disk: quoted and escaped.
pub open spec fn quote(s: Seq<char>) -> Seq<char> {
    seq!['"'] + escape(s) + seq!['"']
}

pub open spec fn unesc_char(c: char) -> Option<char> {
    if c == '\\' {
        Some('\\')
    } else if c == '"' {
        Some('"')
    } else if c == 'n' {
        Some('\n')
    } else if c == 't' {
        Some('\t')
    } else if c == 'r' {
        Some('\r')
    } else {
        None
    }
}

/// Reads a quoted-string body: everything after the opening quote up to a
/// closing quote that must end the input.
pub open spec fn unescape_body(s: Seq<char>) -> Option<Seq<char>>
    decreases s.len(),
{
    if s.len() == 0 {
        None
    } else if s[0] == '"' {
        if s.len() == 1 {
            Some(Seq::empty())
        } else {
            None
        }
    } else if s[0] == '\\' {
        if s.len() >= 2 {
            match (unesc_char(s[1]), unescape_body(s.skip(2))) {
                (Some(c), Some(rest)) => Some(seq![c] + rest),
                _ => None,
            }
        } else {
            None
        }
    } else {
        match unescape_body(s.skip(1)) {
            Some(rest) => Some(seq![s[0]] + rest),
            None => None,
        }
    }
}

/// A whole quoted value: an opening quote, then an escaped body.
pub open spec fn parse_qstring_spec(s: Seq<char>) -> Option<Seq<char>> {
    if s.len() >= 1 && s[0] == '"' {
        unescape_body(s.skip(1))
    } else {
        None
    }
}

pub proof fn lemma_escape_snoc(s: Seq<char>, c: char)
    ensures
        escape(s.push(c)) == escape(s) + esc_char(c),
    decreases s.len(),
{
    if s.len() == 0 {
        assert(s.push(c)[0] == c);
        assert(s.push(c).skip(1) =~= Seq::<char>::empty());
        assert(escape(Seq::<char>::empty()) == Seq::<char>::empty());
        assert(escape(s.push(c)) == esc_char(c) + escape(Seq::<char>::empty()));
        assert(escape(s.push(c)) =~= escape(s) + esc_char(c));
    } else {
        assert(s.push(c)[0] == s[0]);
        assert(s.push(c).skip(1) =~= s.skip(1).push(c));
        lemma_escape_snoc(s.skip(1), c);
        assert(escape(s.push(c)) =~= escape(s) + esc_char(c));
    }
}

/// Escaped text never contains a raw newline, so a quoted value stays on
/// one line.
pub proof fn lemma_escape_clean(s: Seq<char>)
    ensures
        forall|i: int| 0 <= i < escape(s).len() ==> #[trigger] escape(s)[i] != '\n',
    decreases s.len(),
{
    if s.len() > 0 {
        lemma_escape_clean(s.skip(1));
        assert forall|i: int| 0 <= i < escape(s).len() implies #[trigger] escape(s)[i]
            != '\n' by {
            let e = esc_char(s[0]);
            if i < e.len() {
                assert(escape(s)[i] == e[i]);
            } else {
                assert(escape(s)[i] == escape(s.skip(1))[i - e.len()]);
            }
        }
    }
}

/// Round trip for string values: unescaping an escaped body gives the
/// original characters back.
pub proof fn lemma_unescape_escape(s: Seq<char>)
    ensures
        unescape_body(escape(s) + seq!['"']) == Some(s),
    decreases s.len(),
{
    let w = escape(s) + seq!['"'];
    if s.len() == 0 {
        assert(w =~= seq!['"']);
    } else {
        let c = s[0];
        let e = esc_char(c);
        lemma_unescape_escape(s.skip(1));
        let tail = escape(s.skip(1)) + seq!['"'];
        assert(w =~= e + tail);
        if c == '\\' || c == '"' || c == '\n' || c == '\t' || c == '\r' {
            assert(e.len() == 2);
            assert(w[0] == '\\');
            assert(unesc_char(w[1]) == Some(c));
            assert(w.skip(2) =~= tail);
            assert(unescape_body(w) == Some(seq![c] + s.skip(1)));
            assert(seq![c] + s.skip(1) =~= s);
        } else {
            assert(e =~= seq![c]);
            assert(w[0] == c);
            assert(w[0] != '"' && w[0] != '\\');
            assert(w.skip(1) =~= tail);
            assert(unescape_body(w) == Some(seq![c] + s.skip(1)));
            assert(seq![c] + s.skip(1) =~= s);
        }
    }
}

/// Appends the quoted, escaped form of `s` to `out`.
pub fn push_quoted(out: &mut Vec<char>, s: &Vec<char>)
    ensures
        final(out)@ == old(out)@ + quote(s@),
{
    out.push('"');
    let ghost after_open = out@;
    let mut i: usize = 0;
    while i < s.len()
        invariant
            i <= s@.len(),
            after_open == old(out)@ + seq!['"'],
            out@ == after_open + escape(s@.subrange(0, i as int)),
        decreases s@.len() - i,
    {
        let c = s[i];
        proof {
            let pre = s@.subrange(0, i as int);
            assert(pre.push(c) =~= s@.subrange(0, i as int + 1));
            lemma_escape_snoc(pre, c);
        }
        if c == '\\' {
            out.push('\\');
            out.push('\\');
        } else if c == '"' {
            out.push('\\');
            out.push('"');
        } else if c == '\n' {
            out.push('\\');
            out.push('n');
        } else if c == '\t' {
            out.push('\\');
            out.push('t');
        } else if c == '\r' {
            out.push('\\');
            out.push('r');
        } else {
            out.push(c);
        }
        assert(out@ =~= after_open + escape(s@.subrange(0, i as int + 1)));
        i = i + 1;
    }
    assert(s@.subrange(0, s@.len() as int) =~= s@);
    out.push('"');
    assert(out@ =~= old(out)@ + quote(s@));
}

/// Links the whole body scan with the part still to scan: `acc` is what the
/// scan has produced from the part already consumed.
pub open spec fn body_link(whole: Seq<char>, acc: Seq<char>, rest: Seq<char>) -> bool {
    match unescape_body(rest) {
        Some(y) => unescape_body(whole) == Some(acc + y),
        None => unescape_body(whole) is None,
    }
}

/// Reads the quoted value standing at `v[start..end]`.
pub fn parse_qstring_range(v: &Vec<char>, start: usize, end: usize) -> (r: Option<Vec<char>>)
    requires
        start <= end <= v@.len(),
    ensures
        match r {
            Some(x) => parse_qstring_spec(v@.subrange(start as int, end as int)) == Some(x@),
            None => parse_qstring_spec(v@.subrange(start as int, end as int)) is None,
        },
{
    let ghost s = v@.subrange(start as int, end as int);
    if start == end || v[start] != '"' {
        return None;
    }
    let ghost whole = s.skip(1);
    let mut out: Vec<char> = Vec::new();
    let mut i: usize = start + 1;
    proof {
        assert(whole =~= v@.subrange(start as int + 1, end as int));
        assert(v@.subrange(i as int, end as int) =~= whole);
    }
    while i < end
        invariant
            start + 1 <= i <= end <= v@.len(),
            s == v@.subrange(start as int, end as int),
            s.len() >= 1 && s[0] == '"',
            whole == s.skip(1),
            body_link(whole, out@, v@.subrange(i as int, end as int)),
        decreases end - i,
    {
        let ghost rest = v@.subrange(i as int, end as int);
        let c = v[i];
        assert(c == rest[0]);
        if c == '"' {
            if i == end - 1 {
                assert(rest =~= seq!['"']);
                assert(unescape_body(rest) == Some(Seq::<char>::empty()));
                assert(out@ + Seq::<char>::empty() =~= out@);
                return Some(out);
            } else {
                assert(rest.len() > 1);
                assert(unescape_body(rest) is None);
                return None;
            }
        } else if c == '\\' {
            if i + 1 >= end {
                assert(rest.len() == 1);
                assert(unescape_body(rest) is None);
                return None;
            }
            let d = v[i + 1];
            assert(d == rest[1]);
            let u: Option<char> = if d == '\\' {
                Some('\\')
            } else if d == '"' {
                Some('"')
            } else if d == 'n' {
                Some('\n')
            } else if d == 't' {
                Some('\t')
            } else if d == 'r' {
                Some('\r')
            } else {
                None
            };
            assert(u == unesc_char(d));
            match u {
                None => {
                    assert(unescape_body(rest) is None);
                    return None;
                },
                Some(uc) => {
                    proof {
                        assert(rest.skip(2) =~= v@.subrange(i as int + 2, end as int));
                        if unescape_body(rest.skip(2)) is Some {
                            let y = unescape_body(rest.skip(2))->Some_0;
                            assert(unescape_body(rest) == Some(seq![uc] + y));
                            assert(out@ + (seq![uc] + y) =~= out@.push(uc) + y);
                        }
                    }
                    out.push(uc);
                    i = i + 2;
                },
            }
        } else {
            proof {
                assert(rest.skip(1) =~= v@.subrange(i as int + 1, end as int));
                if unescape_body(rest.skip(1)) is Some {
                    let y = unescape_body(rest.skip(1))->Some_0;
                    assert(unescape_body(rest) == Some(seq![c] + y));
                    assert(out@ + (seq![c] + y) =~= out@.push(c) + y);
                }
            }
            out.push(c);
            i = i + 1;
        }
    }
    assert(v@.subrange(i as int, end as int) =~= Seq::<char>::empty());
    None
}

// ---------------------------------------------------------------------------
// Lines
// ---------------------------------------------------------------------------

/// Index of the first newline in `s`, or `s.len()` if there is none.
pub open spec fn first_nl(s: Seq<char>) -> nat
    decreases s.len(),
{
    if s.len() == 0 {
        0
    } else if s[0] == '\n' {
        0
    } else {
        1 + first_nl(s.skip(1))
    }
}

pub proof fn lemma_first_nl_at(s: Seq<char>, k: int)
    requires
        0 <= k <= s.len(),
        forall|j: int| 0 <= j < k ==> #[trigger] s[j] != '\n',
        k == s.len() || s[k] == '\n',
    ensures
        first_nl(s) == k,
    decreases s.len(),
{
    if s.len() > 0 && s[0] != '\n' {
        assert forall|j: int| 0 <= j < k - 1 implies #[trigger] s.skip(1)[j] != '\n' by {
            assert(s.skip(1)[j] == s[j + 1]);
        }
        if k < s.len() {
            assert(s.skip(1)[k - 1] == s[k]);
        }
        lemma_first_nl_at(s.skip(1), k - 1);
    }
}

/// The lines of a document: pieces between newlines. A trailing newline does
/// not produce an extra empty line.
pub open spec fn split_lines(s: Seq<char>) -> Seq<Seq<char>>
    decreases s.len(),
{
    if s.len() == 0 {
        seq![]
    } else {
        let i = first_nl(s) as int;
        if i >= s.len() {
            seq![s]
        } else {
            seq![s.subrange(0, i)] + split_lines(s.skip(i + 1))
        }
    }
}

pub proof fn lemma_split_prepend(line: Seq<char>, rest: Seq<char>)
    requires
        forall|j: int| 0 <= j < line.len() ==> #[trigger] line[j] != '\n',
    ensures
        split_lines(line + seq!['\n'] + rest) == seq![line] + split_lines(rest),
{
    let s = line + seq!['\n'] + rest;
    assert forall|j: int| 0 <= j < line.len() implies #[trigger] s[j] != '\n' by {
        assert(s[j] == line[j]);
    }
    assert(s[line.len() as int] == '\n');
    lemma_first_nl_at(s, line.len() as int);
    assert(s.subrange(0, line.len() as int) =~= line);
    assert(s.skip(line.len() as int + 1) =~= rest);
}

/// Joins lines back into a document, one newline after each line.
pub open spec fn join_nl(lines: Seq<Seq<char>>) -> Seq<char>
    decreases lines.len(),
{
    if lines.len() == 0 {
        Seq::empty()
    } else {
        lines[0] + seq!['\n'] + join_nl(lines.skip(1))
    }
}

pub open spec fn line_clean(l: Seq<char>) -> bool {
    forall|j: int| 0 <= j < l.len() ==> #[trigger] l[j] != '\n'
}

/// Round trip for the line layer: splitting a joined document gives the
/// lines back, provided no line contains a newline of its own.
pub proof fn lemma_split_join(lines: Seq<Seq<char>>)
    requires
        forall|i: int| 0 <= i < lines.len() ==> line_clean(#[trigger] lines[i]),
    ensures
        split_lines(join_nl(lines)) == lines,
    decreases lines.len(),
{
    if lines.len() > 0 {
        lemma_split_join(lines.skip(1));
        lemma_split_prepend(lines[0], join_nl(lines.skip(1)));
        assert(split_lines(join_nl(lines)) =~= lines);
    }
}

pub proof fn lemma_join_peel(l: Seq<char>, rest: Seq<Seq<char>>)
    ensures
        join_nl(seq![l] + rest) == l + seq!['\n'] + join_nl(rest),
{
    let w = seq![l] + rest;
    assert(w[0] == l);
    assert(w.skip(1) =~= rest);
}

pub proof fn lemma_join_append(a: Seq<Seq<char>>, b: Seq<Seq<char>>)
    ensures
        join_nl(a + b) == join_nl(a) + join_nl(b),
    decreases a.len(),
{
    if a.len() == 0 {
        assert(a + b =~= b);
        assert(join_nl(a) == Seq::<char>::empty());
        assert(join_nl(a + b) =~= join_nl(a) + join_nl(b));
    } else {
        assert((a + b)[0] == a[0]);
        assert((a + b).skip(1) =~= a.skip(1) + b);
        lemma_join_append(a.skip(1), b);
        assert(join_nl(a + b) =~= join_nl(a) + join_nl(b));
    }
}

// ---------------------------------------------------------------------------
// Small string helpers
// ---------------------------------------------------------------------------

/// Character-for-character equality of two string slices.
pub fn str_eq(a: &str, b: &str) -> (r: bool)
    ensures
        r == (a@ == b@),
{
    let na = a.unicode_len();
    let nb = b.unicode_len();
    if na != nb {
        return false;
    }
    let mut i: usize = 0;
    while i < na
        invariant
            i <= na,
            na == a@.len() && na == b@.len(),
            forall|j: int| 0 <= j < i ==> a@[j] == b@[j],
        decreases na - i,
    {
        if a.get_char(i) != b.get_char(i) {
            return false;
        }
        i = i + 1;
    }
    proof {
        assert(a@ =~= b@);
    }
    true
}

/// Appends every character of a string slice to `out`.
pub fn push_str_chars(out: &mut Vec<char>, s: &str)
    ensures
        final(out)@ == old(out)@ + s@,
{
    let n = s.unicode_len();
    let mut i: usize = 0;
    while i < n
        invariant
            i <= n,
            n == s@.len(),
            out@ == old(out)@ + s@.subrange(0, i as int),
        decreases n - i,
    {
        out.push(s.get_char(i));
        assert(out@ =~= old(out)@ + s@.subrange(0, i as int + 1));
        i = i + 1;
    }
    assert(s@.subrange(0, n as int) =~= s@);
}

/// Relies on `String::from_iter` (through `collect`): the resulting string
/// holds exactly the given characters, in order.
#[verifier::external_body]
pub fn chars_to_string(v: &Vec<char>) -> (r: String)
    ensures
        r@ == v@,
{
    v.iter().collect()
}

/// The characters of a string slice, in order.
pub fn str_chars(s: &str) -> (v: Vec<char>)
    ensures
        v@ == s@,
{
    let n = s.unicode_len();
    let mut v: Vec<char> = Vec::new();
    let mut i: usize = 0;
    while i < n
        invariant
            i <= n,
            n == s@.len(),
            v@ == s@.subrange(0, i as int),
        decreases n - i,
    {
        v.push(s.get_char(i));
        assert(v@ =~= s@.subrange(0, i as int + 1));
        i = i + 1;
    }
    assert(s@.subrange(0, n as int) =~= s@);
    v
}

} // verus!
