//! Character-level text handling used by the configuration and client-input
//! parsers: Unicode whitespace, splitting into words and on a separator,
//! trimming, searching, and parsing unsigned numbers as `str::parse` does.
use vstd::prelude::*;

verus! {

/// `String::push` appends one character.
pub assume_specification[ String::push ](s: &mut String, ch: char)
    ensures
        final(s)@ == old(s)@.push(ch),
;

// ---------------------------------------------------------------------------
// Specifications
// ---------------------------------------------------------------------------

/// The Unicode `White_Space` property, which `char::is_whitespace` tests.
pub open spec fn is_ws(c: char) -> bool {
    let u = c as u32;
    ||| 9 <= u <= 13
    ||| u == 32
    ||| u == 0x85
    ||| u == 0xA0
    ||| u == 0x1680
    ||| 0x2000 <= u <= 0x200A
    ||| u == 0x2028
    ||| u == 0x2029
    ||| u == 0x202F
    ||| u == 0x205F
    ||| u == 0x3000
}

/// Some character of `s` is whitespace.
pub open spec fn has_ws(s: Seq<char>) -> bool {
    exists|i: int| 0 <= i < s.len() && is_ws(#[trigger] s[i])
}

/// No character of `s` is whitespace.
pub open spec fn no_ws(s: Seq<char>) -> bool {
    forall|i: int| 0 <= i < s.len() ==> !is_ws(#[trigger] s[i])
}

/// The maximal runs of non-whitespace characters of `s`, in order
/// (what `str::split_whitespace` yields).
pub open spec fn words(s: Seq<char>) -> Seq<Seq<char>>
    decreases s.len(),
{
    if s.len() == 0 {
        seq![]
    } else if is_ws(s[0]) {
        words(s.drop_first())
    } else {
        let w = words(s.drop_first());
        if s.len() > 1 && !is_ws(s[1]) {
            w.update(0, seq![s[0]] + w[0])
        } else {
            seq![seq![s[0]]] + w
        }
    }
}

/// The pieces of `s` between occurrences of `sep`, empty pieces included
/// (what `str::split` with a one-character pattern yields).
pub open spec fn split_on(s: Seq<char>, sep: char) -> Seq<Seq<char>>
    decreases s.len(),
{
    if s.len() == 0 {
        seq![seq![]]
    } else {
        let rest = split_on(s.drop_first(), sep);
        if s[0] == sep {
            seq![seq![]] + rest
        } else {
            rest.update(0, seq![s[0]] + rest[0])
        }
    }
}

/// `s` without its leading whitespace.
pub open spec fn trim_start(s: Seq<char>) -> Seq<char>
    decreases s.len(),
{
    if s.len() > 0 && is_ws(s[0]) {
        trim_start(s.drop_first())
    } else {
        s
    }
}

/// `s` without its trailing whitespace.
pub open spec fn trim_end(s: Seq<char>) -> Seq<char>
    decreases s.len(),
{
    if s.len() > 0 && is_ws(s.last()) {
        trim_end(s.drop_last())
    } else {
        s
    }
}

/// `s` without leading and trailing whitespace (`str::trim`).
pub open spec fn trim(s: Seq<char>) -> Seq<char> {
    trim_end(trim_start(s))
}

/// Index of the first occurrence of `c` in `s` (`str::find` with a character).
pub open spec fn first_index(s: Seq<char>, c: char) -> Option<int>
    decreases s.len(),
{
    if s.len() == 0 {
        None
    } else if s[0] == c {
        Some(0)
    } else {
        match first_index(s.drop_first(), c) {
            Some(i) => Some(i + 1),
            None => None,
        }
    }
}

/// Index of the last occurrence of `c` in `s` (`str::rfind` with a character).
pub open spec fn last_index(s: Seq<char>, c: char) -> Option<int>
    decreases s.len(),
{
    if s.len() == 0 {
        None
    } else if s.last() == c {
        Some(s.len() - 1)
    } else {
        last_index(s.drop_last(), c)
    }
}

/// `c` is a digit of the given radix (at most ten).
pub open spec fn is_digit(c: char, radix: nat) -> bool {
    48 <= (c as u32) && (c as u32) < 48 + radix
}

pub open spec fn digit_value(c: char) -> nat {
    ((c as u32) - 48) as nat
}

pub open spec fn all_digits(s: Seq<char>, radix: nat) -> bool {
    forall|i: int| 0 <= i < s.len() ==> is_digit(#[trigger] s[i], radix)
}

/// The number that the digits of `s` write in the given radix.
pub open spec fn digits_value(s: Seq<char>, radix: nat) -> nat
    decreases s.len(),
{
    if s.len() == 0 {
        0
    } else {
        digits_value(s.drop_last(), radix) * radix + digit_value(s.last())
    }
}

/// What `from_str_radix` of an unsigned type whose largest value is `max`
/// gives for `s`: an optional `+`, then at least one digit, and a value that fits.
pub open spec fn parse_unsigned(s: Seq<char>, radix: nat, max: nat) -> Option<nat> {
    let d = if s.len() > 0 && s[0] == '+' {
        s.drop_first()
    } else {
        s
    };
    if d.len() == 0 || !all_digits(d, radix) || digits_value(d, radix) > max {
        None
    } else {
        Some(digits_value(d, radix))
    }
}

/// What `str::parse::<bool>` gives.
pub open spec fn parse_bool(s: Seq<char>) -> Option<bool> {
    if s == seq!['t', 'r', 'u', 'e'] {
        Some(true)
    } else if s == seq!['f', 'a', 'l', 's', 'e'] {
        Some(false)
    } else {
        None
    }
}

/// The lower case of `c` where it is a single ASCII character or `c` itself.
/// The only characters outside ASCII whose lower case is ASCII is the
/// Kelvin sign, whose lower case is `k`.
pub open spec fn ascii_lower(c: char) -> char {
    if 'A' <= c <= 'Z' {
        ((c as u32) + 32) as char
    } else if c == '\u{212A}' {
        'k'
    } else {
        c
    }
}

/// `s.to_lowercase() == t` for a `t` made of lower-case ASCII letters and digits.
pub open spec fn lower_equals(s: Seq<char>, t: Seq<char>) -> bool {
    &&& s.len() == t.len()
    &&& forall|i: int| 0 <= i < s.len() ==> ascii_lower(#[trigger] s[i]) == t[i]
}

/// The views of a sequence of strings.
pub open spec fn strings_view(v: Seq<String>) -> Seq<Seq<char>> {
    Seq::new(v.len(), |i: int| v[i]@)
}

// ---------------------------------------------------------------------------
// Lemmas
// ---------------------------------------------------------------------------

/// A non-empty run of non-whitespace followed by whitespace (or nothing)
/// is one word.
pub proof fn lemma_words_run(cur: Seq<char>, r: Seq<char>)
    requires
        cur.len() > 0,
        no_ws(cur),
        r.len() == 0 || is_ws(r[0]),
    ensures
        words(cur + r) == seq![cur] + words(r),
    decreases cur.len(),
{
    let s = cur + r;
    assert(s[0] == cur[0]);
    assert(s.drop_first() == cur.drop_first() + r);
    if cur.len() == 1 {
        assert(cur.drop_first() + r == r);
        assert(seq![cur[0]] == cur);
    } else {
        assert(s[1] == cur[1]);
        lemma_words_run(cur.drop_first(), r);
        let w = words(cur.drop_first() + r);
        assert(seq![s[0]] + w[0] == cur);
        assert(w.update(0, seq![s[0]] + w[0]) == seq![cur] + words(r));
    }
}

pub proof fn lemma_split_on_len(s: Seq<char>, sep: char)
    ensures
        split_on(s, sep).len() >= 1,
    decreases s.len(),
{
    if s.len() > 0 {
        lemma_split_on_len(s.drop_first(), sep);
    }
}

/// A prefix without the separator joins the first piece.
pub proof fn lemma_split_on_prefix(cur: Seq<char>, r: Seq<char>, sep: char)
    requires
        forall|i: int| 0 <= i < cur.len() ==> cur[i] != sep,
    ensures
        split_on(cur + r, sep) == split_on(r, sep).update(0, cur + split_on(r, sep)[0]),
    decreases cur.len(),
{
    lemma_split_on_len(r, sep);
    if cur.len() == 0 {
        assert(cur + r == r);
        assert(cur + split_on(r, sep)[0] == split_on(r, sep)[0]);
        assert(split_on(r, sep).update(0, split_on(r, sep)[0]) == split_on(r, sep));
    } else {
        let s = cur + r;
        assert(s[0] == cur[0]);
        assert(s.drop_first() == cur.drop_first() + r);
        lemma_split_on_prefix(cur.drop_first(), r, sep);
        lemma_split_on_len(s.drop_first(), sep);
        let rest = split_on(s.drop_first(), sep);
        assert(seq![s[0]] + (cur.drop_first() + split_on(r, sep)[0]) == cur + split_on(r, sep)[0]);
        assert(rest.update(0, seq![s[0]] + rest[0]) == split_on(r, sep).update(
            0,
            cur + split_on(r, sep)[0],
        ));
    }
}

pub proof fn lemma_trim_start_skip(s: Seq<char>, a: int)
    requires
        0 <= a <= s.len(),
        forall|i: int| 0 <= i < a ==> is_ws(#[trigger] s[i]),
        a == s.len() || !is_ws(s[a]),
    ensures
        trim_start(s) == s.skip(a),
    decreases a,
{
    if a == 0 {
        assert(s.skip(0) == s);
    } else {
        assert(is_ws(s[0]));
        assert(s.drop_first().skip(a - 1) == s.skip(a));
        assert forall|i: int| 0 <= i < a - 1 implies is_ws(#[trigger] s.drop_first()[i]) by {
            assert(s.drop_first()[i] == s[i + 1]);
        }
        lemma_trim_start_skip(s.drop_first(), a - 1);
    }
}

pub proof fn lemma_trim_end_take(s: Seq<char>, b: int)
    requires
        0 <= b <= s.len(),
        forall|i: int| b <= i < s.len() ==> is_ws(#[trigger] s[i]),
        b == 0 || !is_ws(s[b - 1]),
    ensures
        trim_end(s) == s.take(b),
    decreases s.len() - b,
{
    if b == s.len() {
        assert(s.take(b) == s);
    } else {
        assert(is_ws(s.last()));
        assert(s.drop_last().take(b) == s.take(b));
        lemma_trim_end_take(s.drop_last(), b);
    }
}

pub proof fn lemma_first_index_found(s: Seq<char>, c: char, p: int)
    requires
        0 <= p < s.len(),
        s[p] == c,
        forall|i: int| 0 <= i < p ==> s[i] != c,
    ensures
        first_index(s, c) == Some(p),
    decreases p,
{
    if p > 0 {
        lemma_first_index_found(s.drop_first(), c, p - 1);
    }
}

pub proof fn lemma_first_index_none(s: Seq<char>, c: char)
    requires
        forall|i: int| 0 <= i < s.len() ==> s[i] != c,
    ensures
        first_index(s, c) == None::<int>,
    decreases s.len(),
{
    if s.len() > 0 {
        lemma_first_index_none(s.drop_first(), c);
    }
}

pub proof fn lemma_last_index_found(s: Seq<char>, c: char, p: int)
    requires
        0 <= p < s.len(),
        s[p] == c,
        forall|i: int| p < i < s.len() ==> s[i] != c,
    ensures
        last_index(s, c) == Some(p),
    decreases s.len(),
{
    if p < s.len() - 1 {
        lemma_last_index_found(s.drop_last(), c, p);
    }
}

pub proof fn lemma_last_index_none(s: Seq<char>, c: char)
    requires
        forall|i: int| 0 <= i < s.len() ==> s[i] != c,
    ensures
        last_index(s, c) == None::<int>,
    decreases s.len(),
{
    if s.len() > 0 {
        lemma_last_index_none(s.drop_last(), c);
    }
}

/// Appending digits never makes the value smaller.
pub proof fn lemma_digits_value_grows(s: Seq<char>, radix: nat, k: int)
    requires
        0 <= k <= s.len(),
        radix >= 1,
    ensures
        digits_value(s.take(k), radix) <= digits_value(s, radix),
    decreases s.len() - k,
{
    if k < s.len() {
        lemma_digits_value_grows(s.drop_last(), radix, k);
        assert(s.drop_last().take(k) == s.take(k));
        let v = digits_value(s.drop_last(), radix);
        assert(v <= v * radix) by (nonlinear_arith)
            requires
                radix >= 1,
        ;
    } else {
        assert(s.take(k) == s);
    }
}

// ---------------------------------------------------------------------------
// Executable functions
// ---------------------------------------------------------------------------

/// The characters of `s`.
pub fn chars_of(s: &str) -> (v: Vec<char>)
    ensures
        v@ == s@,
{
    let mut v: Vec<char> = Vec::new();
    for c in it: s.chars()
        invariant
            v@ == it.seq().take(it.index() as int),
    {
        v.push(c);
    }
    v
}

/// A string made of the characters of `v[from..to]`.
pub fn string_of(v: &Vec<char>, from: usize, to: usize) -> (s: String)
    requires
        from <= to <= v.len(),
    ensures
        s@ == v@.subrange(from as int, to as int),
{
    let mut s = String::new();
    let mut i: usize = from;
    while i < to
        invariant
            from <= i <= to <= v.len(),
            s@ == v@.subrange(from as int, i as int),
        decreases to - i,
    {
        s.push(v[i]);
        assert(v@.subrange(from as int, i + 1) == v@.subrange(from as int, i as int).push(
            v@[i as int],
        ));
        i = i + 1;
    }
    s
}

/// `char::is_whitespace`.
pub fn is_whitespace(c: char) -> (b: bool)
    ensures
        b == is_ws(c),
{
    let u = c as u32;
    (9 <= u && u <= 13) || u == 32 || u == 0x85 || u == 0xA0 || u == 0x1680 || (0x2000 <= u && u
        <= 0x200A) || u == 0x2028 || u == 0x2029 || u == 0x202F || u == 0x205F || u == 0x3000
}

/// Whether some character of `v` is whitespace.
pub fn contains_whitespace(v: &Vec<char>) -> (b: bool)
    ensures
        b == has_ws(v@),
{
    let mut i: usize = 0;
    while i < v.len()
        invariant
            i <= v.len(),
            forall|j: int| 0 <= j < i ==> !is_ws(#[trigger] v@[j]),
        decreases v.len() - i,
    {
        if is_whitespace(v[i]) {
            return true;
        }
        i = i + 1;
    }
    false
}

/// The words of `s`, as `str::split_whitespace` gives them.
pub fn split_whitespace(s: &str) -> (r: Vec<String>)
    ensures
        strings_view(r@) == words(s@),
{
    let cs = chars_of(s);
    let n = cs.len();
    let mut out: Vec<String> = Vec::new();
    let mut start: usize = 0;
    let mut i: usize = 0;
    assert(cs@.subrange(0, n as int) == cs@);
    assert(strings_view(out@) == Seq::<Seq<char>>::empty());
    // `cs[start..i]` is the word being read; it is empty between words.
    while i < n
        invariant
            n == cs@.len(),
            cs@ == s@,
            start <= i <= n,
            no_ws(cs@.subrange(start as int, i as int)),
            words(s@) == strings_view(out@) + words(cs@.subrange(start as int, n as int)),
        decreases n - i,
    {
        let ghost cur = cs@.subrange(start as int, i as int);
        assert(cs@.subrange(start as int, n as int) == cur + cs@.subrange(i as int, n as int));
        if is_whitespace(cs[i]) {
            let ghost r = cs@.subrange(i as int, n as int);
            if start < i {
                proof {
                    lemma_words_run(cur, r);
                }
                let w = string_of(&cs, start, i);
                let ghost prev = out@;
                out.push(w);
                assert(out@ == prev.push(w));
                assert(strings_view(out@) == strings_view(prev).push(w@));
            } else {
                assert(cur + r == r);
            }
            assert(r.drop_first() == cs@.subrange(i + 1, n as int));
            i = i + 1;
            start = i;
        } else {
            assert(cs@.subrange(start as int, i + 1) == cur.push(cs@[i as int]));
            i = i + 1;
        }
    }
    let ghost cur = cs@.subrange(start as int, i as int);
    if start < i {
        proof {
            lemma_words_run(cur, seq![]);
            assert(cur + seq![] == cur);
        }
        let w = string_of(&cs, start, i);
        let ghost prev = out@;
        out.push(w);
        assert(out@ == prev.push(w));
        assert(strings_view(out@) == strings_view(prev).push(w@));
    } else {
        assert(cs@.subrange(start as int, n as int) =~= seq![]);
    }
    out
}

/// The pieces of `v` between occurrences of `sep`, as `str::split` with a
/// one-character pattern gives them; each piece is returned as characters.
pub fn split_chars(v: &Vec<char>, sep: char) -> (r: Vec<Vec<char>>)
    ensures
        r@.map_values(|p: Vec<char>| p@) == split_on(v@, sep),
{
    let n = v.len();
    let mut out: Vec<Vec<char>> = Vec::new();
    let mut cur: Vec<char> = Vec::new();
    let mut i: usize = 0;
    assert(v@.subrange(0, n as int) == v@);
    while i < n
        invariant
            n == v@.len(),
            i <= n,
            forall|j: int| 0 <= j < cur@.len() ==> cur@[j] != sep,
            split_on(v@, sep) == out@.map_values(|p: Vec<char>| p@) + split_on(
                cur@ + v@.subrange(i as int, n as int),
                sep,
            ),
        decreases n - i,
    {
        let ghost r = v@.subrange(i as int, n as int);
        assert(r.drop_first() == v@.subrange(i + 1, n as int));
        if v[i] == sep {
            proof {
                lemma_split_on_prefix(cur@, r, sep);
                lemma_split_on_len(r.drop_first(), sep);
                assert(split_on(r, sep) == seq![Seq::<char>::empty()] + split_on(r.drop_first(), sep));
                assert(cur@ + Seq::<char>::empty() == cur@);
                assert(split_on(r, sep).update(0, cur@ + split_on(r, sep)[0]) == seq![cur@]
                    + split_on(r.drop_first(), sep));
                assert(Seq::<char>::empty() + r.drop_first() == r.drop_first());
            }
            let ghost prev = out@;
            let ghost piece = cur@;
            out.push(cur);
            assert(out@.map_values(|p: Vec<char>| p@) == prev.map_values(|p: Vec<char>| p@).push(
                piece,
            ));
            cur = Vec::new();
            assert(cur@ + v@.subrange(i + 1, n as int) == v@.subrange(i + 1, n as int));
        } else {
            let ghost old_cur = cur@;
            cur.push(v[i]);
            assert(old_cur + r == cur@ + v@.subrange(i + 1, n as int));
        }
        i = i + 1;
    }
    proof {
        let e = Seq::<char>::empty();
        assert(v@.subrange(n as int, n as int) == e);
        assert(cur@ + e == cur@);
        lemma_split_on_prefix(cur@, e, sep);
        assert(split_on(e, sep) == seq![e]);
        assert(cur@ + e == cur@);
        assert(split_on(cur@, sep) == seq![cur@]);
    }
    let ghost prev = out@;
    let ghost piece = cur@;
    out.push(cur);
    assert(out@.map_values(|p: Vec<char>| p@) == prev.map_values(|p: Vec<char>| p@).push(piece));
    out
}

/// The bounds of `v` without leading and trailing whitespace (`str::trim`).
pub fn trim_bounds(v: &Vec<char>) -> (r: (usize, usize))
    ensures
        r.0 <= r.1 <= v@.len(),
        trim(v@) == v@.subrange(r.0 as int, r.1 as int),
{
    let n = v.len();
    let mut a: usize = 0;
    while a < n && is_whitespace(v[a])
        invariant
            a <= n == v@.len(),
            forall|i: int| 0 <= i < a ==> is_ws(#[trigger] v@[i]),
        decreases n - a,
    {
        a = a + 1;
    }
    proof {
        lemma_trim_start_skip(v@, a as int);
    }
    let mut b: usize = n;
    while b > a && is_whitespace(v[b - 1])
        invariant
            a <= b <= n == v@.len(),
            forall|i: int| b <= i < n ==> is_ws(#[trigger] v@[i]),
        decreases b,
    {
        b = b - 1;
    }
    proof {
        let t = v@.skip(a as int);
        let k = b - a;
        assert forall|i: int| k <= i < t.len() implies is_ws(#[trigger] t[i]) by {
            assert(t[i] == v@[i + a]);
        }
        if k > 0 {
            assert(t[k - 1] == v@[b - 1]);
        }
        lemma_trim_end_take(t, k as int);
        assert(t.take(k as int) == v@.subrange(a as int, b as int));
    }
    (a, b)
}

/// The characters of `v` without leading whitespace (`str::trim_start`).
pub fn trim_start_chars(v: &Vec<char>) -> (r: Vec<char>)
    ensures
        r@ == trim_start(v@),
{
    let n = v.len();
    let mut a: usize = 0;
    while a < n && is_whitespace(v[a])
        invariant
            a <= n == v@.len(),
            forall|i: int| 0 <= i < a ==> is_ws(#[trigger] v@[i]),
        decreases n - a,
    {
        a = a + 1;
    }
    proof {
        lemma_trim_start_skip(v@, a as int);
        assert(v@.skip(a as int) == v@.subrange(a as int, n as int));
    }
    sub_chars(v, a, n)
}

/// The characters of `v` without leading and trailing whitespace.
pub fn trim_chars(v: &Vec<char>) -> (r: Vec<char>)
    ensures
        r@ == trim(v@),
{
    let (a, b) = trim_bounds(v);
    let mut r: Vec<char> = Vec::new();
    let mut i: usize = a;
    while i < b
        invariant
            a <= i <= b <= v@.len(),
            r@ == v@.subrange(a as int, i as int),
        decreases b - i,
    {
        r.push(v[i]);
        assert(v@.subrange(a as int, i + 1) == v@.subrange(a as int, i as int).push(v@[i as int]));
        i = i + 1;
    }
    r
}

/// `s` without leading and trailing whitespace (`str::trim`).
pub fn trim_string(s: &str) -> (r: String)
    ensures
        r@ == trim(s@),
{
    let cs = chars_of(s);
    let (a, b) = trim_bounds(&cs);
    string_of(&cs, a, b)
}

/// The index of the first `c` in `v` (`str::find`).
pub fn find_char(v: &Vec<char>, c: char) -> (r: Option<usize>)
    ensures
        match r {
            Some(p) => first_index(v@, c) == Some(p as int) && p < v@.len(),
            None => first_index(v@, c) == None::<int>,
        },
{
    let mut i: usize = 0;
    while i < v.len()
        invariant
            i <= v@.len(),
            forall|j: int| 0 <= j < i ==> v@[j] != c,
        decreases v.len() - i,
    {
        if v[i] == c {
            proof {
                lemma_first_index_found(v@, c, i as int);
            }
            return Some(i);
        }
        i = i + 1;
    }
    proof {
        lemma_first_index_none(v@, c);
    }
    None
}

/// The index of the last `c` in `v` (`str::rfind`).
pub fn rfind_char(v: &Vec<char>, c: char) -> (r: Option<usize>)
    ensures
        match r {
            Some(p) => last_index(v@, c) == Some(p as int) && p < v@.len(),
            None => last_index(v@, c) == None::<int>,
        },
{
    let mut i: usize = v.len();
    while i > 0
        invariant
            i <= v@.len(),
            forall|j: int| i <= j < v@.len() ==> v@[j] != c,
        decreases i,
    {
        if v[i - 1] == c {
            proof {
                lemma_last_index_found(v@, c, i - 1);
            }
            return Some(i - 1);
        }
        i = i - 1;
    }
    proof {
        lemma_last_index_none(v@, c);
    }
    None
}

/// `from_str_radix` for an unsigned type whose largest value is `max`
/// (`radix` is 8 or 10).
pub fn parse_unsigned_chars(v: &Vec<char>, radix: u64, max: u64) -> (r: Option<u64>)
    requires
        1 <= radix <= 10,
    ensures
        match parse_unsigned(v@, radix as nat, max as nat) {
            Some(x) => r == Some(x as u64),
            None => r is None,
        },
{
    let n = v.len();
    let start: usize = if n > 0 && v[0] == '+' {
        1
    } else {
        0
    };
    let ghost d = if v@.len() > 0 && v@[0] == '+' {
        v@.drop_first()
    } else {
        v@
    };
    assert(d == v@.skip(start as int));
    if start == n {
        return None;
    }
    let mut acc: u64 = 0;
    let mut i: usize = start;
    assert(d.take(0) == Seq::<char>::empty());
    while i < n
        invariant
            start <= i <= n == v@.len(),
            d == v@.skip(start as int),
            d == (if v@.len() > 0 && v@[0] == '+' {
                v@.drop_first()
            } else {
                v@
            }),
            1 <= radix <= 10,
            acc as nat == digits_value(d.take(i - start), radix as nat),
            acc <= max,
            all_digits(d.take(i - start), radix as nat),
        decreases n - i,
    {
        let c = v[i];
        let k = i - start;
        assert(d[k as int] == c);
        let cu = c as u32;
        if !(48 <= cu && cu < 48 + (radix as u32)) {
            assert(!is_digit(d[k as int], radix as nat));
            assert(!all_digits(d, radix as nat));
            return None;
        }
        let dv = (cu - 48) as u64;
        assert(d.take(k + 1).drop_last() == d.take(k as int));
        assert(d.take(k + 1).last() == c);
        assert((acc as u128) * (radix as u128) <= (max as u128) * 10) by (nonlinear_arith)
            requires
                acc <= max,
                radix <= 10,
        ;
        let wide: u128 = (acc as u128) * (radix as u128) + (dv as u128);
        if wide > max as u128 {
            proof {
                lemma_digits_value_grows(d, radix as nat, k + 1);
            }
            return None;
        }
        acc = wide as u64;
        assert forall|j: int| 0 <= j < k + 1 implies is_digit(#[trigger] d.take(k + 1)[j], radix as nat) by {
            if j < k {
                assert(d.take(k + 1)[j] == d.take(k as int)[j]);
            }
        }
        i = i + 1;
    }
    assert(d.take(n - start) == d);
    Some(acc)
}

/// `str::parse::<bool>`.
pub fn parse_bool_chars(v: &Vec<char>) -> (r: Option<bool>)
    ensures
        r == parse_bool(v@),
{
    if v.len() == 4 && v[0] == 't' && v[1] == 'r' && v[2] == 'u' && v[3] == 'e' {
        assert(v@ == seq!['t', 'r', 'u', 'e']);
        Some(true)
    } else if v.len() == 5 && v[0] == 'f' && v[1] == 'a' && v[2] == 'l' && v[3] == 's' && v[4]
        == 'e' {
        assert(v@ == seq!['f', 'a', 'l', 's', 'e']);
        Some(false)
    } else {
        assert(v@ != seq!['t', 'r', 'u', 'e']);
        assert(v@ != seq!['f', 'a', 'l', 's', 'e']);
        None
    }
}

fn lower_char(c: char) -> (r: char)
    ensures
        r == ascii_lower(c),
{
    if 'A' <= c && c <= 'Z' {
        char_from_ascii_upper(c)
    } else if c == '\u{212A}' {
        'k'
    } else {
        c
    }
}

fn char_from_ascii_upper(c: char) -> (r: char)
    requires
        'A' <= c <= 'Z',
    ensures
        r == ((c as u32) + 32) as char,
{
    let u = (c as u32) + 32;
    let b = u as u8;
    b as char
}

/// Whether the lower case of `v` is `t` (`t` made of lower-case ASCII).
pub fn lower_equals_chars(v: &Vec<char>, t: &Vec<char>) -> (r: bool)
    ensures
        r == lower_equals(v@, t@),
{
    if v.len() != t.len() {
        return false;
    }
    let mut i: usize = 0;
    while i < v.len()
        invariant
            i <= v@.len() == t@.len(),
            forall|j: int| 0 <= j < i ==> ascii_lower(#[trigger] v@[j]) == t@[j],
        decreases v.len() - i,
    {
        if lower_char(v[i]) != t[i] {
            return false;
        }
        i = i + 1;
    }
    true
}

/// Whether two strings hold the same characters.
pub fn str_eq(a: &str, b: &str) -> (r: bool)
    ensures
        r == (a@ == b@),
{
    let x = chars_of(a);
    let y = chars_of(b);
    if x.len() != y.len() {
        return false;
    }
    let mut i: usize = 0;
    while i < x.len()
        invariant
            i <= x@.len() == y@.len(),
            x@ == a@,
            y@ == b@,
            forall|j: int| 0 <= j < i ==> x@[j] == y@[j],
        decreases x.len() - i,
    {
        if x[i] != y[i] {
            assert(a@[i as int] != b@[i as int]);
            return false;
        }
        i = i + 1;
    }
    assert(x@ == y@);
    true
}

/// The characters `v[from..to]`.
pub fn sub_chars(v: &Vec<char>, from: usize, to: usize) -> (r: Vec<char>)
    requires
        from <= to <= v@.len(),
    ensures
        r@ == v@.subrange(from as int, to as int),
{
    let mut r: Vec<char> = Vec::new();
    let mut i: usize = from;
    while i < to
        invariant
            from <= i <= to <= v@.len(),
            r@ == v@.subrange(from as int, i as int),
        decreases to - i,
    {
        r.push(v[i]);
        assert(v@.subrange(from as int, i + 1) == v@.subrange(from as int, i as int).push(v@[i as int]));
        i = i + 1;
    }
    r
}

} // verus!
