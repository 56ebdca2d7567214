use vstd::prelude::*;

verus! {

/// `String::push` appends one character at the end of the string.
pub assume_specification[ String::push ](s: &mut String, ch: char)
    ensures
        final(s)@ == old(s)@.push(ch),
;

/// The characters of `s`, in order.
pub fn chars_of(s: &str) -> (v: Vec<char>)
    ensures
        v@ == s@,
{
    let mut v: Vec<char> = Vec::new();
    for c in it: s.chars()
        invariant
            v@ == it.seq().take(it.index() as int),
            it.seq() == s@,
    {
        v.push(c);
    }
    v
}

/// Whether the text of `a` equals `b`.
pub fn same_text(a: &String, b: &str) -> (r: bool)
    ensures
        r == (a@ == b@),
{
    let other = String::from_str(b);
    *a == other
}

/// Each character of `s` replaced by `f` of it, the pieces joined in order.
pub open spec fn concat_map(s: Seq<char>, f: spec_fn(char) -> Seq<char>) -> Seq<char>
    decreases s.len(),
{
    if s.len() == 0 {
        seq![]
    } else {
        concat_map(s.drop_last(), f) + f(s.last())
    }
}

pub proof fn lemma_concat_map_push(s: Seq<char>, c: char, f: spec_fn(char) -> Seq<char>)
    ensures
        concat_map(s.push(c), f) == concat_map(s, f) + f(c),
{
    assert(s.push(c).drop_last() =~= s);
}

pub proof fn lemma_concat_map_append(a: Seq<char>, b: Seq<char>, f: spec_fn(char) -> Seq<char>)
    ensures
        concat_map(a + b, f) == concat_map(a, f) + concat_map(b, f),
    decreases b.len(),
{
    if b.len() == 0 {
        assert(a + b =~= a);
        assert(concat_map(a, f) + seq![] =~= concat_map(a, f));
    } else {
        lemma_concat_map_append(a, b.drop_last(), f);
        assert((a + b).drop_last() =~= a + b.drop_last());
        assert((a + b).last() == b.last());
        assert(concat_map(a, f) + concat_map(b.drop_last(), f) + f(b.last()) =~= concat_map(a, f)
            + (concat_map(b.drop_last(), f) + f(b.last())));
    }
}

/// `s` with its first character split off.
pub proof fn lemma_concat_map_first(s: Seq<char>, f: spec_fn(char) -> Seq<char>)
    requires
        s.len() > 0,
    ensures
        concat_map(s, f) == f(s[0]) + concat_map(s.drop_first(), f),
{
    assert(s =~= seq![s[0]] + s.drop_first());
    lemma_concat_map_append(seq![s[0]], s.drop_first(), f);
    assert(seq![s[0]].drop_last() =~= Seq::<char>::empty());
    assert(concat_map(Seq::<char>::empty(), f) == Seq::<char>::empty());
    assert(concat_map(seq![s[0]], f) =~= f(s[0]));
}

/// The piece that stands for `c` inside a JSON string.
pub open spec fn escape_char(c: char) -> Seq<char> {
    if c == '"' {
        seq!['\\', '"']
    } else if c == '\\' {
        seq!['\\', '\\']
    } else if c == '\n' {
        seq!['\\', 'n']
    } else if c == '\r' {
        seq!['\\', 'r']
    } else if c == '\t' {
        seq!['\\', 't']
    } else {
        seq![c]
    }
}

/// `s` written as the inside of a JSON string.
pub open spec fn escape_text(s: Seq<char>) -> Seq<char> {
    concat_map(s, |c: char| escape_char(c))
}

/// Writes `s` as the inside of a JSON string: quote, backslash, newline,
/// carriage return and tab become escape sequences.
pub fn escape_json_str(s: &str) -> (out: String)
    ensures
        out@ == escape_text(s@),
{
    let chars = chars_of(s);
    let mut out = String::new();
    let ghost f = |c: char| escape_char(c);
    let mut i: usize = 0;
    while i < chars.len()
        invariant
            chars@ == s@,
            i <= chars@.len(),
            out@ == concat_map(chars@.take(i as int), f),
            f == (|c: char| escape_char(c)),
        decreases chars@.len() - i,
    {
        let c = chars[i];
        let ghost before = out@;
        if c == '"' {
            out.push('\\');
            out.push('"');
        } else if c == '\\' {
            out.push('\\');
            out.push('\\');
        } else if c == '\n' {
            out.push('\\');
            out.push('n');
        } else if c == '\r' {
            out.push('\\');
            out.push('r');
        } else if c == '\t' {
            out.push('\\');
            out.push('t');
        } else {
            out.push(c);
        }
        proof {
            assert(out@ =~= before + escape_char(c));
            assert(chars@.take(i + 1) =~= chars@.take(i as int).push(c));
            lemma_concat_map_push(chars@.take(i as int), c, f);
            assert(f(c) == escape_char(c));
        }
        i = i + 1;
    }
    proof {
        assert(chars@.take(i as int) =~= s@);
    }
    out
}

/// The piece that stands for `c` inside single quotes for the shell.
pub open spec fn shell_char(c: char) -> Seq<char> {
    if c == '\'' {
        seq!['\'', '\\', '\'', '\'']
    } else {
        seq![c]
    }
}

/// `s` in single quotes, each single quote inside written as `'\''`.
pub open spec fn shell_quoted(s: Seq<char>) -> Seq<char> {
    seq!['\''] + concat_map(s, |c: char| shell_char(c)) + seq!['\'']
}

/// Quotes `s` for a POSIX shell.
pub fn shell_quote(s: &str) -> (out: String)
    ensures
        out@ == shell_quoted(s@),
{
    let chars = chars_of(s);
    let mut out = String::new();
    out.push('\'');
    let ghost f = |c: char| shell_char(c);
    let mut i: usize = 0;
    while i < chars.len()
        invariant
            chars@ == s@,
            i <= chars@.len(),
            out@ == seq!['\''] + concat_map(chars@.take(i as int), f),
            f == (|c: char| shell_char(c)),
        decreases chars@.len() - i,
    {
        let c = chars[i];
        let ghost before = out@;
        if c == '\'' {
            out.push('\'');
            out.push('\\');
            out.push('\'');
            out.push('\'');
        } else {
            out.push(c);
        }
        proof {
            assert(out@ =~= before + shell_char(c));
            assert(chars@.take(i + 1) =~= chars@.take(i as int).push(c));
            lemma_concat_map_push(chars@.take(i as int), c, f);
            assert(f(c) == shell_char(c));
            assert(out@ =~= seq!['\''] + concat_map(chars@.take(i + 1), f));
        }
        i = i + 1;
    }
    out.push('\'');
    proof {
        assert(chars@.take(i as int) =~= s@);
        assert(out@ =~= shell_quoted(s@));
    }
    out
}


/// What a POSIX shell makes of a word, read strictly: inside single quotes
/// every character but `'` stands for itself; outside them only a
/// backslash-escaped character may appear, since any bare character (a space,
/// `(`, `;`, `$`, `&` and so on) may be special to the shell. The result is
/// the characters the word stands for, or `None` when a quote is left open,
/// a backslash ends the word, or a bare character stands outside the quotes.
/// `inside` says whether the reading starts inside single quotes.
pub open spec fn shell_read(q: Seq<char>, inside: bool) -> Option<Seq<char>>
    decreases q.len(),
{
    if q.len() == 0 {
        if inside {
            None
        } else {
            Some(seq![])
        }
    } else if inside {
        if q[0] == '\'' {
            shell_read(q.drop_first(), false)
        } else {
            match shell_read(q.drop_first(), true) {
                Some(r) => Some(seq![q[0]] + r),
                None => None,
            }
        }
    } else if q[0] == '\'' {
        shell_read(q.drop_first(), true)
    } else if q[0] == '\\' {
        if q.len() < 2 {
            None
        } else {
            match shell_read(q.skip(2), false) {
                Some(r) => Some(seq![q[1]] + r),
                None => None,
            }
        }
    } else {
        None
    }
}

pub proof fn lemma_shell_read_inside(s: Seq<char>)
    ensures
        shell_read(concat_map(s, |c: char| shell_char(c)) + seq!['\''], true) == Some(s),
    decreases s.len(),
{
    let f = |c: char| shell_char(c);
    if s.len() == 0 {
        assert(concat_map(s, f) + seq!['\''] =~= seq!['\'']);
        assert(seq!['\''].drop_first() =~= Seq::<char>::empty());
        assert(shell_read(seq!['\''], true) == shell_read(Seq::<char>::empty(), false));
        assert(s =~= Seq::<char>::empty());
    } else {
        let c = s[0];
        let rest = s.drop_first();
        lemma_concat_map_first(s, f);
        lemma_shell_read_inside(rest);
        let x = concat_map(rest, f) + seq!['\''];
        let q = concat_map(s, f) + seq!['\''];
        assert(q =~= f(c) + x);
        if c == '\'' {
            assert(q.drop_first() =~= seq!['\\', '\'', '\''] + x);
            let q1 = q.drop_first();
            assert(q1.skip(2) =~= seq!['\''] + x);
            assert((seq!['\''] + x).drop_first() =~= x);
            assert(seq![c] + rest =~= s);
            assert(shell_read(seq!['\''] + x, false) == shell_read(x, true));
            assert(q1[1] == '\'');
            assert(shell_read(q1, false) == Some(seq!['\''] + rest));
            assert(shell_read(q, true) == shell_read(q1, false));
        } else {
            assert(q.drop_first() =~= x);
            assert(seq![c] + rest =~= s);
            assert(q[0] == c);
            assert(shell_read(q, true) == Some(seq![c] + rest));
        }
    }
}

/// What `shell_quote` writes, the shell reads back as the quoted text itself,
/// with no character left bare outside the quotes.
pub proof fn law_shell_quote_reads_back(s: Seq<char>)
    ensures
        shell_read(shell_quoted(s), false) == Some(s),
{
    lemma_shell_read_inside(s);
    let q = shell_quoted(s);
    assert(q.drop_first() =~= concat_map(s, |c: char| shell_char(c)) + seq!['\'']);
}

/// Text with no single quote in it is quoted by wrapping it in single quotes
/// and nothing else.
pub proof fn law_shell_quote_plain(s: Seq<char>)
    requires
        forall|i: int| 0 <= i < s.len() ==> #[trigger] s[i] != '\'',
    ensures
        shell_quoted(s) == seq!['\''] + s + seq!['\''],
{
    lemma_shell_plain(s);
}

proof fn lemma_shell_plain(s: Seq<char>)
    requires
        forall|i: int| 0 <= i < s.len() ==> #[trigger] s[i] != '\'',
    ensures
        concat_map(s, |c: char| shell_char(c)) == s,
    decreases s.len(),
{
    let f = |c: char| shell_char(c);
    if s.len() > 0 {
        let t = s.drop_last();
        assert forall|i: int| 0 <= i < t.len() implies #[trigger] t[i] != '\'' by {
            assert(t[i] == s[i]);
        }
        lemma_shell_plain(t);
        assert(s.last() == s[s.len() - 1]);
        lemma_concat_map_push(t, s.last(), f);
        assert(t.push(s.last()) =~= s);
        assert(f(s.last()) == seq![s.last()]);
        assert(concat_map(t, f) + seq![s.last()] =~= s);
    }
}

// ---------------------------------------------------------------------------
// Trimming.
// ---------------------------------------------------------------------------

/// Whitespace as Unicode's `White_Space` property defines it, which is what
/// `str::trim` removes.
pub open spec fn is_unicode_ws(c: char) -> bool {
    let n = c as int;
    ||| 0x9 <= n <= 0xD
    ||| n == 0x20
    ||| n == 0x85
    ||| n == 0xA0
    ||| n == 0x1680
    ||| 0x2000 <= n <= 0x200A
    ||| n == 0x2028
    ||| n == 0x2029
    ||| n == 0x202F
    ||| n == 0x205F
    ||| n == 0x3000
}

fn is_unicode_ws_char(c: char) -> (b: bool)
    ensures
        b == is_unicode_ws(c),
{
    ('\u{9}' <= c && c <= '\u{D}') || c == ' ' || c == '\u{85}' || c == '\u{A0}' || c
        == '\u{1680}' || ('\u{2000}' <= c && c <= '\u{200A}') || c == '\u{2028}' || c
        == '\u{2029}' || c == '\u{202F}' || c == '\u{205F}' || c == '\u{3000}'
}

/// `s` without its leading whitespace.
pub open spec fn trim_front(s: Seq<char>) -> Seq<char>
    decreases s.len(),
{
    if s.len() > 0 && is_unicode_ws(s[0]) {
        trim_front(s.drop_first())
    } else {
        s
    }
}

/// `s` without its trailing whitespace.
pub open spec fn trim_back(s: Seq<char>) -> Seq<char>
    decreases s.len(),
{
    if s.len() > 0 && is_unicode_ws(s.last()) {
        trim_back(s.drop_last())
    } else {
        s
    }
}

/// `s` without leading and trailing whitespace.
pub open spec fn trimmed(s: Seq<char>) -> Seq<char> {
    trim_back(trim_front(s))
}

/// Trimming never makes text longer.
pub proof fn lemma_trimmed_len(s: Seq<char>)
    ensures
        trimmed(s).len() <= s.len(),
{
    lemma_trim_front_len(s);
    lemma_trim_back_len(trim_front(s));
}

proof fn lemma_trim_front_len(s: Seq<char>)
    ensures
        trim_front(s).len() <= s.len(),
    decreases s.len(),
{
    if s.len() > 0 && is_unicode_ws(s[0]) {
        lemma_trim_front_len(s.drop_first());
    }
}

proof fn lemma_trim_back_len(s: Seq<char>)
    ensures
        trim_back(s).len() <= s.len(),
    decreases s.len(),
{
    if s.len() > 0 && is_unicode_ws(s.last()) {
        lemma_trim_back_len(s.drop_last());
    }
}

/// Removes leading and trailing whitespace, as `str::trim` does.
pub fn trim_text(s: &str) -> (r: String)
    ensures
        r@ == trimmed(s@),
{
    let c = chars_of(s);
    let mut i: usize = 0;
    assert(c@.skip(0) =~= c@);
    while i < c.len() && is_unicode_ws_char(c[i])
        invariant
            c@ == s@,
            i <= c@.len(),
            trim_front(s@) == trim_front(c@.skip(i as int)),
        decreases c@.len() - i,
    {
        assert(c@.skip(i as int).drop_first() =~= c@.skip(i + 1));
        i = i + 1;
    }
    assert(trim_front(s@) == c@.skip(i as int));
    let mut j: usize = c.len();
    assert(c@.subrange(i as int, j as int) =~= c@.skip(i as int));
    while j > i && is_unicode_ws_char(c[j - 1])
        invariant
            c@ == s@,
            i <= j <= c@.len(),
            trimmed(s@) == trim_back(c@.subrange(i as int, j as int)),
        decreases j,
    {
        assert(c@.subrange(i as int, j as int).drop_last() =~= c@.subrange(i as int, j - 1));
        j = j - 1;
    }
    let mut r = String::new();
    let mut k: usize = i;
    while k < j
        invariant
            c@ == s@,
            i <= k <= j <= c@.len(),
            r@ == c@.subrange(i as int, k as int),
        decreases j - k,
    {
        r.push(c[k]);
        assert(c@.subrange(i as int, k + 1) =~= c@.subrange(i as int, k as int).push(c@[k as int]));
        k = k + 1;
    }
    r
}

// ---------------------------------------------------------------------------
// Decimal numbers.
// ---------------------------------------------------------------------------

/// The character of a decimal digit.
pub open spec fn digit_char(d: nat) -> char {
    if d == 0 {
        '0'
    } else if d == 1 {
        '1'
    } else if d == 2 {
        '2'
    } else if d == 3 {
        '3'
    } else if d == 4 {
        '4'
    } else if d == 5 {
        '5'
    } else if d == 6 {
        '6'
    } else if d == 7 {
        '7'
    } else if d == 8 {
        '8'
    } else {
        '9'
    }
}

/// The value of a decimal digit character, if it is one.
pub open spec fn digit_value(c: char) -> Option<nat> {
    if c == '0' {
        Some(0)
    } else if c == '1' {
        Some(1)
    } else if c == '2' {
        Some(2)
    } else if c == '3' {
        Some(3)
    } else if c == '4' {
        Some(4)
    } else if c == '5' {
        Some(5)
    } else if c == '6' {
        Some(6)
    } else if c == '7' {
        Some(7)
    } else if c == '8' {
        Some(8)
    } else if c == '9' {
        Some(9)
    } else {
        None
    }
}

/// `n` written in decimal, without leading zeros.
pub open spec fn decimal(n: nat) -> Seq<char>
    decreases n,
{
    if n < 10 {
        seq![digit_char(n)]
    } else {
        decimal(n / 10).push(digit_char(n % 10))
    }
}

fn digit_to_char(d: usize) -> (c: char)
    requires
        d < 10,
    ensures
        c == digit_char(d as nat),
{
    if d == 0 {
        '0'
    } else if d == 1 {
        '1'
    } else if d == 2 {
        '2'
    } else if d == 3 {
        '3'
    } else if d == 4 {
        '4'
    } else if d == 5 {
        '5'
    } else if d == 6 {
        '6'
    } else if d == 7 {
        '7'
    } else if d == 8 {
        '8'
    } else {
        '9'
    }
}

/// Appends `n` written in decimal.
pub fn push_decimal(out: &mut String, n: usize)
    ensures
        final(out)@ == old(out)@ + decimal(n as nat),
    decreases n,
{
    if n < 10 {
        out.push(digit_to_char(n));
    } else {
        push_decimal(out, n / 10);
        out.push(digit_to_char(n % 10));
    }
}


/// The value of a run of decimal digits, if every character is one.
pub open spec fn digits_value(s: Seq<char>) -> Option<nat>
    decreases s.len(),
{
    if s.len() == 0 {
        Some(0)
    } else {
        match (digits_value(s.drop_last()), digit_value(s.last())) {
            (Some(v), Some(d)) => Some(v * 10 + d),
            _ => None,
        }
    }
}

/// The number that `s` writes in decimal as `str::parse` reads an unsigned
/// integer: an optional `+`, then at least one digit and nothing else.
pub open spec fn unsigned_value(s: Seq<char>) -> Option<nat> {
    let body = if s.len() > 0 && s[0] == '+' {
        s.drop_first()
    } else {
        s
    };
    if body.len() == 0 {
        None
    } else {
        digits_value(body)
    }
}

/// What `s.parse::<usize>()` gives: the value, if `s` writes one that fits.
pub open spec fn parsed_usize(s: Seq<char>) -> Option<usize> {
    match unsigned_value(s) {
        Some(v) => if v <= usize::MAX {
            Some(v as usize)
        } else {
            None
        },
        None => None,
    }
}

pub proof fn lemma_digits_prefix(t: Seq<char>, k: int)
    requires
        0 <= k <= t.len(),
    ensures
        digits_value(t.take(k)) is None ==> digits_value(t) is None,
        digits_value(t.take(k)) is Some && digits_value(t) is Some ==> digits_value(t)->0
            >= digits_value(t.take(k))->0,
    decreases t.len(),
{
    if k == t.len() {
        assert(t.take(k) =~= t);
    } else {
        assert(t.drop_last().take(k) =~= t.take(k));
        lemma_digits_prefix(t.drop_last(), k);
    }
}

proof fn lemma_decimal_digits(n: nat)
    ensures
        digits_value(decimal(n)) == Some(n),
        decimal(n).len() > 0,
        digit_value(decimal(n)[0]) is Some,
    decreases n,
{
    let d = decimal(n);
    assert(digit_value(digit_char(n % 10)) == Some(n % 10));
    if n >= 10 {
        lemma_decimal_digits(n / 10);
        assert(d.drop_last() =~= decimal(n / 10));
        assert(d.last() == digit_char(n % 10));
        assert(d[0] == decimal(n / 10)[0]);
        assert((n / 10) * 10 + n % 10 == n);
        assert(digits_value(d) == Some((n / 10) * 10 + n % 10));
    } else {
        assert(d.drop_last() =~= Seq::<char>::empty());
        assert(digits_value(Seq::<char>::empty()) == Some(0nat));
        assert(n % 10 == n);
        assert(digits_value(d) == Some(0 * 10 + n % 10));
    }
}

/// A number written in decimal, as the listings write it, reads back as the
/// same number.
pub proof fn law_decimal_reads_back(n: usize)
    ensures
        parsed_usize(decimal(n as nat)) == Some(n),
{
    lemma_decimal_digits(n as nat);
}

fn char_digit(c: char) -> (d: Option<usize>)
    ensures
        match digit_value(c) {
            Some(v) => d == Some(v as usize),
            None => d is None,
        },
{
    if c == '0' {
        Some(0)
    } else if c == '1' {
        Some(1)
    } else if c == '2' {
        Some(2)
    } else if c == '3' {
        Some(3)
    } else if c == '4' {
        Some(4)
    } else if c == '5' {
        Some(5)
    } else if c == '6' {
        Some(6)
    } else if c == '7' {
        Some(7)
    } else if c == '8' {
        Some(8)
    } else if c == '9' {
        Some(9)
    } else {
        None
    }
}

/// Reads `s` as an unsigned decimal number, as `s.parse::<usize>()` does.
pub fn parse_usize(s: &str) -> (r: Option<usize>)
    ensures
        r == parsed_usize(s@),
{
    let chars = chars_of(s);
    let mut i: usize = 0;
    if chars.len() > 0 && chars[0] == '+' {
        i = 1;
    }
    let ghost body = if s@.len() > 0 && s@[0] == '+' {
        s@.drop_first()
    } else {
        s@
    };
    assert(body =~= chars@.subrange(i as int, chars@.len() as int));
    if i == chars.len() {
        return None;
    }
    let start = i;
    let mut value: usize = 0;
    assert(chars@.subrange(start as int, i as int) =~= Seq::<char>::empty());
    while i < chars.len()
        invariant
            chars@ == s@,
            start <= i <= chars@.len(),
            body == chars@.subrange(start as int, chars@.len() as int),
            body.len() > 0,
            unsigned_value(s@) == digits_value(body),
            digits_value(chars@.subrange(start as int, i as int)) == Some(value as nat),
        decreases chars@.len() - i,
    {
        let ghost next = chars@.subrange(start as int, i + 1);
        assert(next.drop_last() =~= chars@.subrange(start as int, i as int));
        assert(next.last() == chars@[i as int]);
        assert(body.take(i + 1 - start) =~= next);
        proof {
            lemma_digits_prefix(body, i + 1 - start);
        }
        let d = match char_digit(chars[i]) {
            Some(d) => d,
            None => return None,
        };
        assert(digits_value(next) == Some((value * 10 + d) as nat));
        let v10 = match value.checked_mul(10) {
            Some(v) => v,
            None => return None,
        };
        value = match v10.checked_add(d) {
            Some(v) => v,
            None => return None,
        };
        i = i + 1;
    }
    assert(chars@.subrange(start as int, i as int) =~= body);
    Some(value)
}

} // verus!
