//! Character-level helpers for the kernel's text tables: lines, whitespace-separated
//! fields, trimming, and unsigned numbers in decimal and hexadecimal.
use vstd::prelude::*;

verus! {

broadcast use vstd::string::group_string_axioms;

/// `String::push` appends exactly the given character to the end of the string.
pub assume_specification[ String::push ](s: &mut String, c: char)
    ensures
        final(s)@ == old(s)@.push(c),
;

/// The characters with the Unicode property `White_Space`.
pub open spec fn is_space(c: char) -> bool {
    let n = c as u32;
    ||| 0x09 <= n <= 0x0d
    ||| n == 0x20
    ||| n == 0x85
    ||| n == 0xa0
    ||| n == 0x1680
    ||| 0x2000 <= n <= 0x200a
    ||| n == 0x2028
    ||| n == 0x2029
    ||| n == 0x202f
    ||| n == 0x205f
    ||| n == 0x3000
}

/// Position of the first `c` in `s` at or after `i`, or the length of `s` if there is none.
pub open spec fn index_of(s: Seq<char>, c: char, i: int) -> int
    decreases s.len() - i,
{
    if i < 0 || i >= s.len() {
        s.len() as int
    } else if s[i] == c {
        i
    } else {
        index_of(s, c, i + 1)
    }
}

/// Position of the last `c` among the first `n` characters of `s`, or -1 if there is none.
pub open spec fn last_index_of(s: Seq<char>, c: char, n: int) -> int
    decreases n,
{
    if n <= 0 || n > s.len() {
        -1
    } else if s[n - 1] == c {
        n - 1
    } else {
        last_index_of(s, c, n - 1)
    }
}

/// A line that a line feed ends, as `str::lines` yields it: a carriage return right before
/// the line feed is dropped.
pub open spec fn without_cr(raw: Seq<char>) -> Seq<char> {
    if raw.len() > 0 && raw.last() == '\r' {
        raw.drop_last()
    } else {
        raw
    }
}

/// The lines of `s` that start at or after position `i`.
pub open spec fn lines_from(s: Seq<char>, i: int) -> Seq<Seq<char>>
    decreases s.len() - i,
{
    if i < 0 || i >= s.len() {
        Seq::empty()
    } else {
        let e = index_of(s, '\n', i);
        if i <= e < s.len() {
            seq![without_cr(s.subrange(i, e))] + lines_from(s, e + 1)
        } else {
            seq![s.subrange(i, s.len() as int)]
        }
    }
}

/// The lines of a text: the runs between line feeds, without their line endings. A final
/// line feed opens no further line.
pub open spec fn lines(s: Seq<char>) -> Seq<Seq<char>> {
    lines_from(s, 0)
}

/// Position of the first white-space character at or after `i`, or the length of `s`.
pub open spec fn word_end(s: Seq<char>, i: int) -> int
    decreases s.len() - i,
{
    if i < 0 || i >= s.len() {
        s.len() as int
    } else if is_space(s[i]) {
        i
    } else {
        word_end(s, i + 1)
    }
}

/// The white-space separated fields of `s` that start at or after position `i`.
pub open spec fn fields_from(s: Seq<char>, i: int) -> Seq<Seq<char>>
    decreases s.len() - i,
{
    if i < 0 || i >= s.len() {
        Seq::empty()
    } else if is_space(s[i]) {
        fields_from(s, i + 1)
    } else {
        let e = word_end(s, i);
        if i < e < s.len() {
            seq![s.subrange(i, e)] + fields_from(s, e)
        } else {
            seq![s.subrange(i, s.len() as int)]
        }
    }
}

/// The maximal runs of characters of `s` that hold no white space, in order.
pub open spec fn fields(s: Seq<char>) -> Seq<Seq<char>> {
    fields_from(s, 0)
}

/// Position of the first character at or after `i` that is no white space, or the length.
pub open spec fn trim_start_at(s: Seq<char>, i: int) -> int
    decreases s.len() - i,
{
    if i < 0 || i >= s.len() {
        s.len() as int
    } else if !is_space(s[i]) {
        i
    } else {
        trim_start_at(s, i + 1)
    }
}

/// End of the last character before `n` that is no white space, or 0.
pub open spec fn trim_end_at(s: Seq<char>, n: int) -> int
    decreases n,
{
    if n <= 0 || n > s.len() {
        0
    } else if !is_space(s[n - 1]) {
        n
    } else {
        trim_end_at(s, n - 1)
    }
}

/// `s` without its leading and trailing white space.
pub open spec fn trimmed(s: Seq<char>) -> Seq<char> {
    let a = trim_start_at(s, 0);
    let b = trim_end_at(s, s.len() as int);
    if a < b {
        s.subrange(a, b)
    } else {
        Seq::empty()
    }
}

/// The radix of hexadecimal or of decimal notation.
pub open spec fn radix_of(hex: bool) -> nat {
    if hex {
        16
    } else {
        10
    }
}

/// The value of `c` as a digit in the given radix, for radix 10 and 16.
pub open spec fn digit_value(c: char, radix: nat) -> Option<nat> {
    if '0' <= c <= '9' {
        Some((c as u32 - '0' as u32) as nat)
    } else if radix == 16 && 'a' <= c <= 'f' {
        Some((c as u32 - 'a' as u32 + 10) as nat)
    } else if radix == 16 && 'A' <= c <= 'F' {
        Some((c as u32 - 'A' as u32 + 10) as nat)
    } else {
        None
    }
}

/// The number that the digits `s` spell in the given radix, where every character is a
/// digit and no prefix exceeds `max`.
pub open spec fn digits_value(s: Seq<char>, radix: nat, max: nat) -> Option<nat>
    decreases s.len(),
{
    if s.len() == 0 {
        Some(0)
    } else {
        match (digits_value(s.drop_last(), radix, max), digit_value(s.last(), radix)) {
            (Some(h), Some(d)) => if h * radix + d <= max {
                Some(h * radix + d)
            } else {
                None
            },
            _ => None,
        }
    }
}

/// What the standard library's unsigned parsers accept: an optional `+`, then at least one
/// digit, the value not above `max`.
pub open spec fn unsigned_value(s: Seq<char>, radix: nat, max: nat) -> Option<nat> {
    let body = if s.len() > 0 && s[0] == '+' {
        s.skip(1)
    } else {
        s
    };
    if body.len() == 0 {
        None
    } else {
        digits_value(body, radix, max)
    }
}

/// A port in hexadecimal, as the protocol tables write it: a 16-bit unsigned number.
pub open spec fn hex_port(s: Seq<char>) -> Option<nat> {
    unsigned_value(s, 16, 0xffff)
}

/// Whether a directory name is a process identifier: an unsigned 64-bit decimal number.
pub open spec fn is_pid(s: Seq<char>) -> bool {
    unsigned_value(s, 10, 0xffff_ffff_ffff_ffff) is Some
}

/// The character of a decimal digit.
pub open spec fn digit_char(d: nat) -> char
    recommends
        d < 10,
{
    (('0' as u32 + d) as u32) as char
}

/// The decimal notation of `n`, without leading zeros.
pub open spec fn decimal(n: nat) -> Seq<char>
    decreases n,
{
    if n < 10 {
        seq![digit_char(n)]
    } else {
        decimal(n / 10).push(digit_char(n % 10))
    }
}

/// Where `c` does not occur in `s`, the search for it ends at the length of `s`.
pub proof fn lemma_index_of_absent(s: Seq<char>, c: char, i: int)
    requires
        !s.contains(c),
        0 <= i,
    ensures
        index_of(s, c, i) == s.len(),
    decreases s.len() - i,
{
    if i < s.len() {
        assert(s[i] != c) by {
            if s[i] == c {
                assert(s.contains(c));
            }
        }
        lemma_index_of_absent(s, c, i + 1);
    }
}

/// A word: at least one character, and no white space.
pub open spec fn is_word(w: Seq<char>) -> bool {
    w.len() > 0 && forall|j: int| 0 <= j < w.len() ==> !is_space(#[trigger] w[j])
}

/// A word that starts at `i` ends after `i` and holds no white space.
pub proof fn lemma_word_end(s: Seq<char>, i: int)
    requires
        0 <= i < s.len(),
        !is_space(s[i]),
    ensures
        i < word_end(s, i) <= s.len(),
        forall|j: int| i <= j < word_end(s, i) ==> !is_space(#[trigger] s[j]),
    decreases s.len() - i,
{
    let next = word_end(s, i + 1);
    if i + 1 >= s.len() {
        assert(next == s.len());
    } else if is_space(s[i + 1]) {
        assert(next == i + 1);
    } else {
        lemma_word_end(s, i + 1);
    }
}

/// Every field holds at least one character and no white space.
pub proof fn lemma_fields_are_words(s: Seq<char>, i: int)
    requires
        0 <= i,
    ensures
        forall|k: int| 0 <= k < fields_from(s, i).len() ==> is_word(#[trigger] fields_from(s, i)[k]),
    decreases s.len() - i,
{
    if i < s.len() {
        if is_space(s[i]) {
            lemma_fields_are_words(s, i + 1);
            assert(fields_from(s, i) == fields_from(s, i + 1));
        } else {
            lemma_word_end(s, i);
            let e = word_end(s, i);
            let all = fields_from(s, i);
            let word = s.subrange(i, e);
            if e < s.len() {
                lemma_fields_are_words(s, e);
                assert(all == seq![word] + fields_from(s, e));
            } else {
                assert(all == seq![word]);
            }
            assert(is_word(word)) by {
                assert forall|j: int| 0 <= j < word.len() implies !is_space(#[trigger] word[j]) by {
                    assert(word[j] == s[i + j]);
                }
            }
            assert forall|k: int| 0 <= k < all.len() implies is_word(#[trigger] all[k]) by {
                if k == 0 {
                    assert(all[k] == word);
                } else {
                    assert(all[k] == fields_from(s, e)[k - 1]);
                }
            }
        }
    }
}

/// The character sequences that a vector of strings holds.
pub open spec fn strs(v: Seq<String>) -> Seq<Seq<char>> {
    v.map_values(|x: String| x@)
}

/// The values of `xs` for which `f` gives one, in order.
pub open spec fn pick<A, T>(xs: Seq<A>, f: spec_fn(A) -> Option<T>) -> Seq<T>
    decreases xs.len(),
{
    if xs.len() == 0 {
        Seq::empty()
    } else {
        let prev = pick(xs.drop_last(), f);
        match f(xs.last()) {
            Some(t) => prev.push(t),
            None => prev,
        }
    }
}

/// The character sequences that a vector of character vectors holds.
pub open spec fn views(v: Seq<Vec<char>>) -> Seq<Seq<char>> {
    v.map_values(|x: Vec<char>| x@)
}

/// Whether `c` is white space.
pub fn is_space_char(c: char) -> (b: bool)
    ensures
        b == is_space(c),
{
    let n: u32 = c as u32;
    (0x09 <= n && n <= 0x0d) || n == 0x20 || n == 0x85 || n == 0xa0 || n == 0x1680 || (0x2000
        <= n && n <= 0x200a) || n == 0x2028 || n == 0x2029 || n == 0x202f || n == 0x205f || n
        == 0x3000
}

/// The characters of a string, in order.
pub fn chars_of(s: &str) -> (v: Vec<char>)
    ensures
        v@ == s@,
{
    let mut v: Vec<char> = Vec::new();
    for c in it: s.chars()
        invariant
            it.seq() == s@,
            v@.len() == it.index(),
            forall|j: int| 0 <= j < v@.len() ==> v@[j] == it.seq()[j],
    {
        v.push(c);
    }
    assert(v@ =~= s@);
    v
}

/// The string made of the characters `s[from..to]`.
pub fn string_of(s: &Vec<char>, from: usize, to: usize) -> (r: String)
    requires
        from <= to <= s@.len(),
    ensures
        r@ == s@.subrange(from as int, to as int),
{
    let mut r = String::new();
    let mut i: usize = from;
    while i < to
        invariant
            from <= i <= to <= s@.len(),
            r@ == s@.subrange(from as int, i as int),
        decreases to - i,
    {
        r.push(s[i]);
        i = i + 1;
        assert(r@ =~= s@.subrange(from as int, i as int));
    }
    r
}

/// Appends the characters of `s` to `r`.
pub fn append_chars(r: &mut String, s: &Vec<char>)
    ensures
        final(r)@ == old(r)@ + s@,
{
    let mut i: usize = 0;
    assert(r@ =~= old(r)@ + s@.take(0));
    while i < s.len()
        invariant
            i <= s@.len(),
            r@ == old(r)@ + s@.take(i as int),
        decreases s@.len() - i,
    {
        r.push(s[i]);
        i = i + 1;
        assert(r@ =~= old(r)@ + s@.take(i as int));
    }
    assert(s@.take(s@.len() as int) =~= s@);
}

/// A copy of the characters `s[from..to]`.
pub fn slice_of(s: &Vec<char>, from: usize, to: usize) -> (r: Vec<char>)
    requires
        from <= to <= s@.len(),
    ensures
        r@ == s@.subrange(from as int, to as int),
{
    let mut r: Vec<char> = Vec::new();
    let mut i: usize = from;
    while i < to
        invariant
            from <= i <= to <= s@.len(),
            r@ == s@.subrange(from as int, i as int),
        decreases to - i,
    {
        r.push(s[i]);
        i = i + 1;
        assert(r@ =~= s@.subrange(from as int, i as int));
    }
    r
}

/// Whether two character sequences are the same.
pub fn same_chars(a: &Vec<char>, b: &Vec<char>) -> (r: bool)
    ensures
        r == (a@ == b@),
{
    if a.len() != b.len() {
        return false;
    }
    let mut i: usize = 0;
    while i < a.len()
        invariant
            i <= a@.len(),
            a@.len() == b@.len(),
            forall|j: int| 0 <= j < i ==> a@[j] == b@[j],
        decreases a@.len() - i,
    {
        if a[i] != b[i] {
            return false;
        }
        i = i + 1;
    }
    assert(a@ =~= b@);
    true
}

/// Finds the first `c` at or after `from`; gives the length where there is none.
pub fn find_char(s: &Vec<char>, c: char, from: usize) -> (r: usize)
    requires
        from <= s@.len(),
    ensures
        r == index_of(s@, c, from as int),
        from <= r <= s@.len(),
{
    let mut i: usize = from;
    while i < s.len() && s[i] != c
        invariant
            from <= i <= s@.len(),
            index_of(s@, c, i as int) == index_of(s@, c, from as int),
        decreases s@.len() - i,
    {
        i = i + 1;
    }
    i
}

/// Finds the last `c`.
pub fn find_last_char(s: &Vec<char>, c: char) -> (r: Option<usize>)
    ensures
        match r {
            Some(i) => i == last_index_of(s@, c, s@.len() as int),
            None => last_index_of(s@, c, s@.len() as int) == -1,
        },
        r is Some ==> r->0 < s@.len() <= usize::MAX,
{
    let mut n: usize = s.len();
    while n > 0 && s[n - 1] != c
        invariant
            n <= s@.len(),
            last_index_of(s@, c, n as int) == last_index_of(s@, c, s@.len() as int),
        decreases n,
    {
        n = n - 1;
    }
    if n == 0 {
        None
    } else {
        Some(n - 1)
    }
}

/// Splits a text into its lines.
pub fn split_lines(s: &Vec<char>) -> (out: Vec<Vec<char>>)
    ensures
        views(out@) == lines(s@),
{
    let mut out: Vec<Vec<char>> = Vec::new();
    let mut i: usize = 0;
    assert(views(out@) =~= Seq::empty());
    while i < s.len()
        invariant
            i <= s@.len(),
            views(out@) + lines_from(s@, i as int) == lines(s@),
        decreases s@.len() - i,
    {
        let e = find_char(s, '\n', i);
        let stop = if e < s.len() && e > i && s[e - 1] == '\r' {
            e - 1
        } else {
            e
        };
        let line = slice_of(s, i, stop);
        let next = if e < s.len() {
            e + 1
        } else {
            e
        };
        proof {
            let raw = s@.subrange(i as int, e as int);
            if e < s.len() {
                if e > i && s[e - 1] == '\r' {
                    assert(raw.last() == '\r');
                    assert(raw.drop_last() =~= s@.subrange(i as int, stop as int));
                }
                assert(line@ == without_cr(raw));
            }
            assert(lines_from(s@, i as int) =~= seq![line@] + lines_from(s@, next as int));
            assert(views(out@).push(line@) + lines_from(s@, next as int) =~= views(out@) + (
            seq![line@] + lines_from(s@, next as int)));
        }
        let ghost before = out@;
        out.push(line);
        assert(views(out@) =~= views(before).push(line@));
        i = next;
    }
    assert(views(out@) + Seq::<Seq<char>>::empty() =~= views(out@));
    out
}

/// Splits a line into its white-space separated fields.
pub fn split_fields(s: &Vec<char>) -> (out: Vec<Vec<char>>)
    ensures
        views(out@) == fields(s@),
{
    let mut out: Vec<Vec<char>> = Vec::new();
    let mut i: usize = 0;
    assert(views(out@) =~= Seq::empty());
    while i < s.len()
        invariant
            i <= s@.len(),
            views(out@) + fields_from(s@, i as int) == fields(s@),
        decreases s@.len() - i,
    {
        if is_space_char(s[i]) {
            i = i + 1;
        } else {
            let mut e: usize = i + 1;
            while e < s.len() && !is_space_char(s[e])
                invariant
                    i < e <= s@.len(),
                    word_end(s@, e as int) == word_end(s@, i as int),
                decreases s@.len() - e,
            {
                e = e + 1;
            }
            let word = slice_of(s, i, e);
            proof {
                assert(fields_from(s@, i as int) =~= seq![word@] + fields_from(s@, e as int));
                assert(views(out@).push(word@) + fields_from(s@, e as int) =~= views(out@) + (
                seq![word@] + fields_from(s@, e as int)));
            }
            let ghost before = out@;
            out.push(word);
            assert(views(out@) =~= views(before).push(word@));
            i = e;
        }
    }
    assert(views(out@) + Seq::<Seq<char>>::empty() =~= views(out@));
    out
}

/// The string that `s[from..to]` leaves when white space at both ends is taken away.
pub fn trim_string(s: &Vec<char>, from: usize, to: usize) -> (r: String)
    requires
        from <= to <= s@.len(),
    ensures
        r@ == trimmed(s@.subrange(from as int, to as int)),
{
    let ghost t = s@.subrange(from as int, to as int);
    let mut a: usize = from;
    while a < to && is_space_char(s[a])
        invariant
            from <= a <= to <= s@.len(),
            t == s@.subrange(from as int, to as int),
            trim_start_at(t, a - from) == trim_start_at(t, 0),
        decreases to - a,
    {
        a = a + 1;
    }
    let mut b: usize = to;
    while b > a && is_space_char(s[b - 1])
        invariant
            from <= a <= b <= to <= s@.len(),
            t == s@.subrange(from as int, to as int),
            trim_end_at(t, b - from) == trim_end_at(t, t.len() as int),
        decreases b,
    {
        b = b - 1;
    }
    proof {
        if a < b {
            assert(trim_start_at(t, a - from) == a - from);
            assert(trim_end_at(t, b - from) == b - from);
            assert(t.subrange(a - from, b - from) =~= s@.subrange(a as int, b as int));
        } else {
            assert(a == b);
            if a < to {
                assert(trim_start_at(t, a - from) == a - from);
                lemma_trim_end_max(t, b - from);
            } else {
                assert(trim_start_at(t, a - from) == t.len());
                lemma_trim_end_max(t, t.len() as int);
            }
            assert(s@.subrange(a as int, b as int) =~= Seq::<char>::empty());
        }
    }
    string_of(s, a, b)
}

/// Trimming at the end never moves forward.
proof fn lemma_trim_end_max(s: Seq<char>, n: int)
    requires
        0 <= n <= s.len(),
    ensures
        trim_end_at(s, n) <= n,
    decreases n,
{
    if n > 0 && is_space(s[n - 1]) {
        lemma_trim_end_max(s, n - 1);
    }
}

/// The value of a digit.
fn digit_of(c: char, radix: u32) -> (r: Option<u32>)
    requires
        radix == 10 || radix == 16,
    ensures
        match r {
            Some(d) => digit_value(c, radix as nat) == Some(d as nat) && d < radix,
            None => digit_value(c, radix as nat) is None,
        },
{
    let n: u32 = c as u32;
    if '0' <= c && c <= '9' {
        Some(n - 0x30)
    } else if radix == 16 && 'a' <= c && c <= 'f' {
        Some(n - 0x61 + 10)
    } else if radix == 16 && 'A' <= c && c <= 'F' {
        Some(n - 0x41 + 10)
    } else {
        None
    }
}

/// Reads `s[from..]` as an unsigned number, hexadecimal or decimal, that does not
/// exceed `max`.
pub fn parse_unsigned(s: &Vec<char>, from: usize, hex: bool, max: u64) -> (r: Option<u64>)
    requires
        from <= s@.len(),
    ensures
        match r {
            Some(v) => unsigned_value(s@.skip(from as int), radix_of(hex), max as nat) == Some(
                v as nat,
            ),
            None => unsigned_value(s@.skip(from as int), radix_of(hex), max as nat) is None,
        },
{
    let radix: u32 = if hex {
        16
    } else {
        10
    };
    let ghost t = s@.skip(from as int);
    let start: usize = if from < s.len() && s[from] == '+' {
        from + 1
    } else {
        from
    };
    let ghost body = s@.skip(start as int);
    assert(body == if t.len() > 0 && t[0] == '+' {
        t.skip(1)
    } else {
        t
    }) by {
        if start > from {
            assert(t.skip(1) =~= body);
        }
    }
    if start == s.len() {
        return None;
    }
    let mut acc: Option<u64> = Some(0);
    let mut i: usize = start;
    assert(body.subrange(0, 0) =~= Seq::<char>::empty());
    while i < s.len()
        invariant
            start <= i <= s@.len(),
            radix == radix_of(hex),
            body == s@.skip(start as int),
            match acc {
                Some(v) => digits_value(body.subrange(0, i - start), radix as nat, max as nat)
                    == Some(v as nat) && v <= max,
                None => digits_value(body.subrange(0, i - start), radix as nat, max as nat)
                    is None,
            },
        decreases s@.len() - i,
    {
        let d = digit_of(s[i], radix);
        proof {
            let next = body.subrange(0, i + 1 - start);
            assert(next.drop_last() =~= body.subrange(0, i - start));
            assert(next.last() == s@[i as int]);
        }
        acc = match (acc, d) {
            (Some(v), Some(d)) => {
                assert((v as u128) * (radix as u128) <= 0xffff_ffff_ffff_ffff * 16)
                    by (nonlinear_arith)
                    requires
                        v <= 0xffff_ffff_ffff_ffff,
                        radix <= 16,
                ;
                let wide: u128 = (v as u128) * (radix as u128) + (d as u128);
                if wide <= max as u128 {
                    Some(wide as u64)
                } else {
                    None
                }
            },
            _ => None,
        };
        i = i + 1;
    }
    assert(body.subrange(0, s@.len() - start) =~= body);
    acc
}

/// The decimal notation of a 16-bit number.
pub fn decimal_chars(n: u16) -> (v: Vec<char>)
    ensures
        v@ == decimal(n as nat),
    decreases n,
{
    if n < 10 {
        let c: char = ((0x30 + n) as u8) as char;
        let mut v: Vec<char> = Vec::new();
        v.push(c);
        assert(v@ =~= seq![digit_char(n as nat)]);
        v
    } else {
        let mut v = decimal_chars(n / 10);
        let c: char = ((0x30 + n % 10) as u8) as char;
        v.push(c);
        v
    }
}

} // verus!
