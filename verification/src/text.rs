use vstd::prelude::*;
use vstd::utf8::*;

verus! {

broadcast use vstd::utf8::group_utf8_lib;

// ---------------------------------------------------------------------------
// Specifications
// ---------------------------------------------------------------------------

/// `s` followed by as many copies of `fill` as it takes to reach `width` characters;
/// `s` itself when it is already that long.
pub open spec fn padded(s: Seq<char>, fill: char, width: nat) -> Seq<char> {
    if s.len() >= width {
        s
    } else {
        s + Seq::new((width - s.len()) as nat, |_i: int| fill)
    }
}

/// `s` with every occurrence of `c` taken out, the rest in order.
pub open spec fn without<A>(s: Seq<A>, c: A) -> Seq<A>
    decreases s.len(),
{
    if s.len() == 0 {
        s
    } else if s.last() == c {
        without(s.drop_last(), c)
    } else {
        without(s.drop_last(), c).push(s.last())
    }
}

/// The character of the decimal digit `d` (`d < 10`).
pub open spec fn digit_char(d: nat) -> char {
    (d + 48) as char
}

/// The decimal representation of `n`, most significant digit first, without leading zeros.
pub open spec fn decimal(n: nat) -> Seq<char>
    decreases n,
{
    if n < 10 {
        seq![digit_char(n)]
    } else {
        decimal(n / 10).push(digit_char(n % 10))
    }
}

pub open spec fn is_digit(c: char) -> bool {
    '0' <= c <= '9'
}

pub open spec fn all_digits(s: Seq<char>) -> bool {
    forall|i: int| 0 <= i < s.len() ==> is_digit(#[trigger] s[i])
}

/// The number that the decimal digits `s` denote.
pub open spec fn digits_value(s: Seq<char>) -> nat
    decreases s.len(),
{
    if s.len() == 0 {
        0
    } else {
        digits_value(s.drop_last()) * 10 + ((s.last() as nat) - 48) as nat
    }
}

/// The digits of an unsigned number in text form: a single leading `+` is allowed.
pub open spec fn unsigned_body(s: Seq<char>) -> Seq<char> {
    if s.len() > 0 && s[0] == '+' {
        s.drop_first()
    } else {
        s
    }
}

/// What parsing `s` as a `u32` gives, as std's `u32::from_str` does it: an optional `+`,
/// then at least one decimal digit and nothing else, denoting a value that fits.
pub open spec fn parsed_u32(s: Seq<char>) -> Option<u32> {
    let d = unsigned_body(s);
    if d.len() > 0 && all_digits(d) && digits_value(d) <= u32::MAX {
        Some(digits_value(d) as u32)
    } else {
        None
    }
}

/// `s` without the copies of `c` at its start.
pub open spec fn strip_start(s: Seq<char>, c: char) -> Seq<char>
    decreases s.len(),
{
    if s.len() > 0 && s[0] == c {
        strip_start(s.drop_first(), c)
    } else {
        s
    }
}

/// `s` without the copies of `c` at its end.
pub open spec fn strip_end(s: Seq<char>, c: char) -> Seq<char>
    decreases s.len(),
{
    if s.len() > 0 && s.last() == c {
        strip_end(s.drop_last(), c)
    } else {
        s
    }
}

/// `s` without the copies of `c` at either end (std's `trim_matches` with one char).
pub open spec fn trimmed(s: Seq<char>, c: char) -> Seq<char> {
    strip_end(strip_start(s, c), c)
}

/// The pieces of `s` between occurrences of `sep`, as std's `str::split` with a single
/// character gives them: one more piece than there are separators, empty pieces included.
pub open spec fn pieces(s: Seq<char>, sep: char) -> Seq<Seq<char>>
    decreases s.len(),
{
    if s.len() == 0 {
        seq![Seq::empty()]
    } else {
        let r = pieces(s.drop_last(), sep);
        if s.last() == sep {
            r.push(Seq::empty())
        } else {
            r.update(r.len() - 1, r.last().push(s.last()))
        }
    }
}

/// The pieces of `parts` with `sep` between each two of them (the inverse of `pieces`).
pub open spec fn joined(parts: Seq<Seq<char>>, sep: char) -> Seq<char>
    decreases parts.len(),
{
    if parts.len() == 0 {
        Seq::empty()
    } else if parts.len() == 1 {
        parts[0]
    } else {
        joined(parts.drop_last(), sep).push(sep) + parts.last()
    }
}

// ---------------------------------------------------------------------------
// Lemmas
// ---------------------------------------------------------------------------

pub proof fn lemma_pieces_nonempty(s: Seq<char>, sep: char)
    ensures
        pieces(s, sep).len() >= 1,
    decreases s.len(),
{
    if s.len() > 0 {
        lemma_pieces_nonempty(s.drop_last(), sep);
    }
}


// ---------------------------------------------------------------------------
// Calls into std that vstd leaves unspecified
// ---------------------------------------------------------------------------

/// Appends one character to a `String` (std's `String::push`): the text grows by exactly
/// that character.
#[verifier::external_body]
pub(crate) fn push_char(s: &mut String, c: char)
    ensures
        final(s)@ == old(s)@.push(c),
{
    s.push(c);
}

/// Reads bytes as UTF-8 text (std's `std::str::from_utf8`): the text is there exactly when
/// the bytes are valid UTF-8, and its encoding is then those very bytes.
#[verifier::external_body]
pub(crate) fn str_from_utf8(bytes: &[u8]) -> (res: Option<&str>)
    ensures
        res is Some <==> valid_utf8(bytes@),
        res matches Some(t) ==> encode_utf8(t@) == bytes@,
{
    match std::str::from_utf8(bytes) {
        Ok(t) => Some(t),
        Err(_) => None,
    }
}

// ---------------------------------------------------------------------------
// Text operations
// ---------------------------------------------------------------------------

/// The characters of `s`, in order.
pub fn chars_of(s: &str) -> (res: Vec<char>)
    ensures
        res@ == s@,
{
    let mut v: Vec<char> = Vec::new();
    for c in it: s.chars()
        invariant
            v@ == it.seq().take(it.index() as int),
    {
        v.push(c);
    }
    v
}

/// The text made of the characters `cs[lo..hi]`.
pub fn string_of(cs: &Vec<char>, lo: usize, hi: usize) -> (res: String)
    requires
        lo <= hi <= cs.len(),
    ensures
        res@ == cs@.subrange(lo as int, hi as int),
{
    let mut s = String::new();
    let mut i = lo;
    while i < hi
        invariant
            lo <= i <= hi <= cs.len(),
            s@ == cs@.subrange(lo as int, i as int),
        decreases hi - i,
    {
        push_char(&mut s, cs[i]);
        i += 1;
        assert(s@ =~= cs@.subrange(lo as int, i as int));
    }
    s
}

/// `s` padded on the right with `fill` to `width` characters.
pub fn pad_right(s: String, fill: char, width: usize) -> (res: String)
    ensures
        res@ == padded(s@, fill, width as nat),
{
    let ghost s0 = s@;
    let n = s.as_str().unicode_len();
    if n >= width {
        return s;
    }
    let mut r = s;
    let mut k = n;
    while k < width
        invariant
            n == s0.len(),
            n <= k <= width,
            r@ =~= s0 + Seq::new((k - n) as nat, |_i: int| fill),
        decreases width - k,
    {
        push_char(&mut r, fill);
        k += 1;
    }
    r
}

/// `s` with every occurrence of `c` taken out.
pub fn remove_char(s: &str, c: char) -> (res: String)
    ensures
        res@ == without(s@, c),
{
    let cs = chars_of(s);
    let mut r = String::new();
    let mut i: usize = 0;
    while i < cs.len()
        invariant
            i <= cs.len(),
            cs@ == s@,
            r@ == without(cs@.take(i as int), c),
        decreases cs.len() - i,
    {
        assert(cs@.take(i + 1).drop_last() =~= cs@.take(i as int));
        if cs[i] != c {
            push_char(&mut r, cs[i]);
        }
        i += 1;
    }
    assert(cs@.take(cs.len() as int) =~= cs@);
    r
}

/// Appends the decimal representation of `n` to `s`.
fn push_decimal(s: &mut String, n: u32)
    ensures
        final(s)@ == old(s)@ + decimal(n as nat),
    decreases n,
{
    if n >= 10 {
        push_decimal(s, n / 10);
    }
    let d: u8 = (n % 10) as u8;
    let c: char = (48u8 + d) as char;
    push_char(s, c);
    assert(final(s)@ =~= old(s)@ + decimal(n as nat));
}

/// The decimal representation of `n` (what `n.to_string()` gives).
pub fn decimal_string(n: u32) -> (res: String)
    ensures
        res@ == decimal(n as nat),
{
    let mut s = String::new();
    push_decimal(&mut s, n);
    assert(s@ =~= decimal(n as nat));
    s
}


/// A longer run of digits never denotes a smaller number than its prefix.
pub proof fn lemma_digits_prefix(s: Seq<char>, k: int)
    requires
        0 <= k <= s.len(),
    ensures
        digits_value(s.take(k)) <= digits_value(s),
    decreases s.len(),
{
    if k < s.len() {
        assert(s.drop_last().take(k) =~= s.take(k));
        lemma_digits_prefix(s.drop_last(), k);
    } else {
        assert(s.take(k) =~= s);
    }
}


/// Taking a character out twice is taking it out once.
pub proof fn lemma_without_idempotent<A>(s: Seq<A>, c: A)
    ensures
        without(without(s, c), c) == without(s, c),
    decreases s.len(),
{
    if s.len() > 0 {
        lemma_without_idempotent(s.drop_last(), c);
        if s.last() != c {
            let r = without(s.drop_last(), c);
            assert(r.push(s.last()).drop_last() =~= r);
        }
    }
}

/// Taking out an element that does not occur changes nothing.
pub proof fn lemma_without_absent<A>(s: Seq<A>, c: A)
    requires
        !s.contains(c),
    ensures
        without(s, c) == s,
    decreases s.len(),
{
    if s.len() > 0 {
        assert(!s.drop_last().contains(c)) by {
            if s.drop_last().contains(c) {
                let k = choose|k: int| 0 <= k < s.drop_last().len() && s.drop_last()[k] == c;
                assert(s[k] == c);
            }
        }
        lemma_without_absent(s.drop_last(), c);
        assert(s.last() != c) by {
            assert(s[s.len() - 1] == s.last());
        }
        assert(s.drop_last().push(s.last()) =~= s);
    }
}

/// Taking out an element distributes over concatenation.
pub proof fn lemma_without_concat<A>(a: Seq<A>, b: Seq<A>, c: A)
    ensures
        without(a + b, c) == without(a, c) + without(b, c),
    decreases b.len(),
{
    if b.len() == 0 {
        assert(a + b =~= a);
        assert(without(a, c) + without(b, c) =~= without(a, c));
    } else {
        assert((a + b).drop_last() =~= a + b.drop_last());
        lemma_without_concat(a, b.drop_last(), c);
        if b.last() != c {
            assert(without(a, c) + without(b.drop_last(), c).push(b.last()) =~= (without(a, c)
                + without(b.drop_last(), c)).push(b.last()));
        }
    }
}

/// A run of copies of `c` vanishes when `c` is taken out.
pub proof fn lemma_without_run<A>(n: nat, c: A)
    ensures
        without(Seq::new(n, |_i: int| c), c) == Seq::<A>::empty(),
    decreases n,
{
    if n > 0 {
        let s = Seq::new(n, |_i: int| c);
        assert(s.drop_last() =~= Seq::new((n - 1) as nat, |_i: int| c));
        lemma_without_run((n - 1) as nat, c);
    }
}

/// Padding with a character that the text does not hold is undone by taking that
/// character out.
pub proof fn lemma_unpad(s: Seq<char>, fill: char, width: nat)
    requires
        !s.contains(fill),
    ensures
        without(padded(s, fill, width), fill) == s,
{
    lemma_without_absent(s, fill);
    if s.len() < width {
        let run = Seq::new((width - s.len()) as nat, |_i: int| fill);
        lemma_without_concat(s, run, fill);
        lemma_without_run((width - s.len()) as nat, fill);
        assert(s + Seq::<char>::empty() =~= s);
    }
}

/// The UTF-8 encoding of ASCII text is its characters' codes, one byte each.
pub proof fn lemma_ascii_encoding(t: Seq<char>)
    requires
        is_ascii_chars(t),
    ensures
        encode_utf8(t) == t.map_values(|c: char| c as u8),
{
    is_ascii_chars_encode_utf8(t);
    assert(encode_utf8(t) =~= t.map_values(|c: char| c as u8));
}

/// A prefix of the encoding of ASCII text is the encoding of the matching prefix.
pub proof fn lemma_ascii_encoding_prefix(t: Seq<char>, k: int)
    requires
        is_ascii_chars(t),
        0 <= k <= t.len(),
    ensures
        encode_utf8(t).subrange(0, k) == encode_utf8(t.take(k)),
        is_ascii_chars(t.take(k)),
        encode_utf8(t).len() == t.len(),
{
    lemma_ascii_encoding(t);
    assert(is_ascii_chars(t.take(k)));
    lemma_ascii_encoding(t.take(k));
    assert(encode_utf8(t).subrange(0, k) =~= encode_utf8(t.take(k)));
}

/// Padding ASCII text with an ASCII character gives ASCII text of at least that width.
pub proof fn lemma_padded_ascii(s: Seq<char>, fill: char, width: nat)
    requires
        is_ascii_chars(s),
        '\0' <= fill <= '\u{7f}',
    ensures
        is_ascii_chars(padded(s, fill, width)),
        s.len() <= width ==> padded(s, fill, width).len() == width,
        padded(s, fill, width).take(s.len() as int) == s,
{
    let p = padded(s, fill, width);
    assert forall|i: int| 0 <= i < p.len() implies '\0' <= #[trigger] p[i] <= '\u{7f}' by {
        if i < s.len() {
            assert(p[i] == s[i]);
        }
    }
    assert(p.take(s.len() as int) =~= s);
}


/// Splitting text without the separator gives the text itself as the only piece.
pub proof fn lemma_pieces_single(b: Seq<char>, sep: char)
    requires
        !b.contains(sep),
    ensures
        pieces(b, sep) == seq![b],
    decreases b.len(),
{
    if b.len() > 0 {
        assert(!b.drop_last().contains(sep)) by {
            if b.drop_last().contains(sep) {
                let k = choose|k: int| 0 <= k < b.drop_last().len() && b.drop_last()[k] == sep;
                assert(b[k] == sep);
            }
        }
        lemma_pieces_single(b.drop_last(), sep);
        assert(b[b.len() - 1] == b.last());
        assert(b.drop_last().push(b.last()) =~= b);
        assert(seq![b.drop_last()].update(0, b.drop_last().push(b.last())) =~= seq![b]);
    } else {
        assert(b =~= Seq::<char>::empty());
    }
}

/// A separator followed by text without it adds exactly one piece.
pub proof fn lemma_pieces_append(a: Seq<char>, b: Seq<char>, sep: char)
    requires
        !b.contains(sep),
    ensures
        pieces(a.push(sep) + b, sep) == pieces(a, sep).push(b),
    decreases b.len(),
{
    if b.len() == 0 {
        assert(a.push(sep) + b =~= a.push(sep));
        assert(a.push(sep).drop_last() =~= a);
        assert(b =~= Seq::<char>::empty());
    } else {
        assert(!b.drop_last().contains(sep)) by {
            if b.drop_last().contains(sep) {
                let k = choose|k: int| 0 <= k < b.drop_last().len() && b.drop_last()[k] == sep;
                assert(b[k] == sep);
            }
        }
        lemma_pieces_append(a, b.drop_last(), sep);
        assert((a.push(sep) + b).drop_last() =~= a.push(sep) + b.drop_last());
        assert(b[b.len() - 1] == b.last());
        assert(b.drop_last().push(b.last()) =~= b);
        let r = pieces(a, sep).push(b.drop_last());
        assert(r.update(r.len() - 1, r.last().push(b.last())) =~= pieces(a, sep).push(b));
    }
}

/// Splitting joined pieces gives them back, when none of them holds the separator.
pub proof fn lemma_pieces_joined(parts: Seq<Seq<char>>, sep: char)
    requires
        parts.len() > 0,
        forall|i: int| 0 <= i < parts.len() ==> !(#[trigger] parts[i]).contains(sep),
    ensures
        pieces(joined(parts, sep), sep) == parts,
    decreases parts.len(),
{
    if parts.len() == 1 {
        lemma_pieces_single(parts[0], sep);
        assert(seq![parts[0]] =~= parts);
    } else {
        let init = parts.drop_last();
        assert forall|i: int| 0 <= i < init.len() implies !(#[trigger] init[i]).contains(sep) by {
            assert(init[i] == parts[i]);
        }
        lemma_pieces_joined(init, sep);
        assert(parts[parts.len() - 1] == parts.last());
        lemma_pieces_append(joined(init, sep), parts.last(), sep);
        assert(init.push(parts.last()) =~= parts);
    }
}

/// The character of a digit is a digit, whose code is 48 more than the digit.
pub proof fn lemma_digit_char(d: nat)
    requires
        d < 10,
    ensures
        is_digit(digit_char(d)),
        digit_char(d) as nat == d + 48,
{
    let u: u32 = (d + 48) as u32;
    assert(u as char == digit_char(d));
}

/// The decimal representation of `n` is a non-empty run of digits denoting `n`.
pub proof fn lemma_decimal(n: nat)
    ensures
        decimal(n).len() > 0,
        all_digits(decimal(n)),
        digits_value(decimal(n)) == n,
    decreases n,
{
    lemma_digit_char(n % 10);
    if n < 10 {
        assert(decimal(n).drop_last() =~= Seq::<char>::empty());
        assert(decimal(n).last() == digit_char(n));
        assert(digits_value(decimal(n).drop_last()) == 0);
    } else {
        lemma_decimal(n / 10);
        let d = decimal(n / 10);
        assert(decimal(n).drop_last() =~= d);
        assert(decimal(n).last() == digit_char(n % 10));
        assert(digits_value(decimal(n)) == digits_value(d) * 10 + (n % 10));
        assert((n / 10) * 10 + n % 10 == n);
        assert forall|i: int| 0 <= i < decimal(n).len() implies is_digit(#[trigger] decimal(n)[i]) by {
            if i < d.len() {
                assert(decimal(n)[i] == d[i]);
            }
        }
    }
}

/// Reading the decimal representation of a 32-bit number gives the number.
pub proof fn lemma_parse_decimal(n: u32)
    ensures
        parsed_u32(decimal(n as nat)) == Some(n),
        !decimal(n as nat).contains(','),
        !decimal(n as nat).contains(';'),
        trimmed(decimal(n as nat), '\0') == decimal(n as nat),
{
    lemma_decimal(n as nat);
    let d = decimal(n as nat);
    assert(is_digit(d[0]));
    assert(unsigned_body(d) == d);
    assert(!d.contains(',')) by {
        if d.contains(',') {
            let k = choose|k: int| 0 <= k < d.len() && d[k] == ',';
            assert(is_digit(d[k]));
        }
    }
    assert(!d.contains(';')) by {
        if d.contains(';') {
            let k = choose|k: int| 0 <= k < d.len() && d[k] == ';';
            assert(is_digit(d[k]));
        }
    }
    assert(strip_start(d, '\0') == d);
    assert(is_digit(d[d.len() - 1]));
    assert(strip_end(d, '\0') == d);
}

/// The contents of each of the vectors `v`.
pub open spec fn views(v: Seq<Vec<char>>) -> Seq<Seq<char>> {
    v.map_values(|p: Vec<char>| p@)
}

/// `s` read as an unsigned 32-bit number, as `s.parse::<u32>().ok()` reads it.
pub fn parse_u32(s: &str) -> (res: Option<u32>)
    ensures
        res == parsed_u32(s@),
{
    let cs = chars_of(s);
    let n = cs.len();
    let start: usize = if n > 0 && cs[0] == '+' { 1 } else { 0 };
    let ghost d = unsigned_body(cs@);
    assert(d =~= cs@.subrange(start as int, n as int));
    if start >= n {
        return None;
    }
    let mut acc: u64 = 0;
    let mut i = start;
    assert(d.take(0) =~= Seq::<char>::empty());
    while i < n
        invariant
            start <= i <= n,
            n == cs.len(),
            d == cs@.subrange(start as int, n as int),
            d == unsigned_body(s@),
            cs@ == s@,
            acc == digits_value(d.take(i - start)),
            all_digits(d.take(i - start)),
            acc <= u32::MAX,
        decreases n - i,
    {
        let c = cs[i];
        if !(c >= '0' && c <= '9') {
            assert(!is_digit(d[i - start]));
            return None;
        }
        let v: u64 = (c as u32 - 48) as u64;
        assert(d.take(i - start + 1).drop_last() =~= d.take(i - start));
        assert(d.take(i - start + 1).last() == c);
        acc = acc * 10 + v;
        assert(all_digits(d.take(i - start + 1)));
        if acc > 4294967295u64 {
            proof {
                lemma_digits_prefix(d, i - start + 1);
            }
            return None;
        }
        i += 1;
    }
    assert(d.take(n - start) =~= d);
    Some(acc as u32)
}

/// `s` without the copies of `c` at either end.
pub fn trim_char(s: &str, c: char) -> (res: String)
    ensures
        res@ == trimmed(s@, c),
{
    let cs = chars_of(s);
    let n = cs.len();
    let mut lo: usize = 0;
    assert(cs@.skip(0) =~= cs@);
    while lo < n && cs[lo] == c
        invariant
            lo <= n,
            n == cs.len(),
            strip_start(cs@, c) == strip_start(cs@.skip(lo as int), c),
        decreases n - lo,
    {
        assert(cs@.skip(lo as int).drop_first() =~= cs@.skip(lo + 1));
        lo += 1;
    }
    let ghost front = cs@.skip(lo as int);
    assert(strip_start(front, c) == front);
    assert(front =~= cs@.subrange(lo as int, n as int));
    let mut hi: usize = n;
    while hi > lo && cs[hi - 1] == c
        invariant
            lo <= hi <= n,
            n == cs.len(),
            strip_end(front, c) == strip_end(cs@.subrange(lo as int, hi as int), c),
            front == cs@.subrange(lo as int, n as int),
        decreases hi,
    {
        assert(cs@.subrange(lo as int, hi as int).drop_last() =~= cs@.subrange(
            lo as int,
            hi - 1,
        ));
        hi -= 1;
    }
    string_of(&cs, lo, hi)
}

/// The pieces of `s` between occurrences of `sep` (what `split` gives).
pub fn split_on(s: &Vec<char>, sep: char) -> (res: Vec<Vec<char>>)
    ensures
        views(res@) == pieces(s@, sep),
{
    let mut parts: Vec<Vec<char>> = Vec::new();
    let mut cur: Vec<char> = Vec::new();
    let mut i: usize = 0;
    assert(s@.take(0) =~= Seq::<char>::empty());
    assert(views(parts@).push(cur@) =~= pieces(s@.take(0), sep));
    while i < s.len()
        invariant
            i <= s.len(),
            views(parts@).push(cur@) == pieces(s@.take(i as int), sep),
        decreases s.len() - i,
    {
        let c = s[i];
        assert(s@.take(i + 1).drop_last() =~= s@.take(i as int));
        let ghost before = views(parts@);
        if c == sep {
            parts.push(cur);
            cur = Vec::new();
            assert(views(parts@) =~= pieces(s@.take(i as int), sep));
        } else {
            let ghost old_cur = cur@;
            cur.push(c);
            assert(views(parts@) =~= before);
            proof {
                lemma_pieces_nonempty(s@.take(i as int), sep);
            }
            assert(views(parts@).push(cur@) =~= before.push(old_cur).update(
                before.len() as int,
                old_cur.push(c),
            ));
        }
        i += 1;
    }
    parts.push(cur);
    assert(s@.take(s.len() as int) =~= s@);
    parts
}


/// Appends the characters of `t` to `s`.
pub fn push_text(s: &mut String, t: &str)
    ensures
        final(s)@ == old(s)@ + t@,
{
    let cs = chars_of(t);
    let mut i: usize = 0;
    while i < cs.len()
        invariant
            i <= cs.len(),
            cs@ == t@,
            s@ == old(s)@ + cs@.take(i as int),
        decreases cs.len() - i,
    {
        push_char(s, cs[i]);
        i += 1;
        assert(s@ =~= old(s)@ + cs@.take(i as int));
    }
    assert(cs@.take(cs.len() as int) =~= cs@);
}

} // verus!
