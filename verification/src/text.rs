//! Text primitives on `&str`: character classes, cutting, trimming, lines and
//! decimal numbers, each specified over the sequence of characters.
use vstd::prelude::*;
use vstd::string::*;
use vstd::utf8::*;

verus! {

/// ASCII letters.
pub open spec fn is_alpha(c: char) -> bool {
    ('a' <= c && c <= 'z') || ('A' <= c && c <= 'Z')
}

/// ASCII decimal digits.
pub open spec fn is_digit(c: char) -> bool {
    '0' <= c && c <= '9'
}

/// ASCII letters and digits.
pub open spec fn is_alnum(c: char) -> bool {
    is_alpha(c) || is_digit(c)
}

/// The characters with the Unicode property `White_Space`.
pub open spec fn is_space(c: char) -> bool {
    ||| '\u{9}' <= c && c <= '\u{d}'
    ||| c == ' '
    ||| c == '\u{85}'
    ||| c == '\u{a0}'
    ||| c == '\u{1680}'
    ||| '\u{2000}' <= c && c <= '\u{200a}'
    ||| c == '\u{2028}'
    ||| c == '\u{2029}'
    ||| c == '\u{202f}'
    ||| c == '\u{205f}'
    ||| c == '\u{3000}'
}

/// The index of the first `c` in `s`, or the length of `s` where there is none.
pub open spec fn find(s: Seq<char>, c: char) -> nat
    decreases s.len(),
{
    if s.len() == 0 || s[0] == c {
        0
    } else {
        1 + find(s.drop_first(), c)
    }
}

/// `s` before and after its first `c`.
pub open spec fn cut(s: Seq<char>, c: char) -> Option<(Seq<char>, Seq<char>)> {
    if find(s, c) < s.len() {
        Some((s.take(find(s, c) as int), s.skip(find(s, c) as int + 1)))
    } else {
        None
    }
}

/// `s` without the white space it begins with.
pub open spec fn trim_front(s: Seq<char>) -> Seq<char>
    decreases s.len(),
{
    if s.len() > 0 && is_space(s[0]) {
        trim_front(s.drop_first())
    } else {
        s
    }
}

/// `s` without the white space it ends with.
pub open spec fn trim_back(s: Seq<char>) -> Seq<char>
    decreases s.len(),
{
    if s.len() > 0 && is_space(s.last()) {
        trim_back(s.drop_last())
    } else {
        s
    }
}

/// `s` without the white space around it.
pub open spec fn trimmed(s: Seq<char>) -> Seq<char> {
    trim_back(trim_front(s))
}

/// A line that was ended by a line feed, without the carriage return before it.
pub open spec fn chomped(s: Seq<char>) -> Seq<char> {
    if s.len() > 0 && s.last() == '\r' {
        s.drop_last()
    } else {
        s
    }
}

/// The first line of `s` and what follows its line feed.
pub open spec fn first_line(s: Seq<char>) -> (Seq<char>, Seq<char>) {
    match cut(s, '\n') {
        Some((line, rest)) => (chomped(line), rest),
        None => (s, Seq::empty()),
    }
}

/// The lines of `s`. A line feed ends a line, so none follows the last one.
pub open spec fn lines(s: Seq<char>) -> Seq<Seq<char>>
    decreases s.len(),
{
    if s.len() == 0 {
        Seq::empty()
    } else if first_line(s).1.len() < s.len() {
        seq![first_line(s).0] + lines(first_line(s).1)
    } else {
        Seq::empty()
    }
}

/// `find` is a first index.
pub proof fn lemma_find(s: Seq<char>, c: char)
    ensures
        find(s, c) <= s.len(),
        forall|i: int| 0 <= i < find(s, c) ==> s[i] != c,
        find(s, c) < s.len() ==> s[find(s, c) as int] == c,
        find(s, c) < s.len() <==> s.contains(c),
    decreases s.len(),
{
    if s.len() == 0 || s[0] == c {
        if s.len() > 0 {
            assert(s.contains(s[0]));
        }
    } else {
        let t = s.drop_first();
        lemma_find(t, c);
        assert forall|i: int| 0 <= i < find(s, c) implies s[i] != c by {
            if i > 0 {
                assert(t[i - 1] == s[i]);
            }
        }
        if t.contains(c) {
            let k = choose|k: int| 0 <= k < t.len() && t[k] == c;
            assert(s[k + 1] == c);
        }
        if s.contains(c) {
            let k = choose|k: int| 0 <= k < s.len() && s[k] == c;
            assert(t[k - 1] == c);
        }
    }
}

/// A first index is what `find` gives.
pub proof fn lemma_find_is(s: Seq<char>, c: char, k: int)
    requires
        0 <= k <= s.len(),
        forall|i: int| 0 <= i < k ==> s[i] != c,
        k < s.len() ==> s[k] == c,
    ensures
        find(s, c) == k,
{
    lemma_find(s, c);
}

/// Encoding a concatenation encodes the parts.
pub proof fn lemma_encode_concat(a: Seq<char>, b: Seq<char>)
    ensures
        encode_utf8(a + b) == encode_utf8(a) + encode_utf8(b),
    decreases a.len(),
{
    if a.len() == 0 {
        assert(a + b =~= b);
        assert(encode_utf8(a) + encode_utf8(b) =~= encode_utf8(b));
    } else {
        lemma_encode_concat(a.drop_first(), b);
        assert((a + b).drop_first() =~= a.drop_first() + b);
        assert((a + b)[0] == a[0]);
        assert(encode_utf8(a + b) =~= encode_utf8(a) + encode_utf8(b));
    }
}

/// A text has no more characters than bytes.
pub proof fn lemma_encode_len(s: Seq<char>)
    ensures
        s.len() <= encode_utf8(s).len(),
    decreases s.len(),
{
    if s.len() > 0 {
        lemma_encode_len(s.drop_first());
        lemma_scalar_bytes(s[0]);
    }
}

/// Two texts with the same bytes are the same text.
pub proof fn lemma_encode_injective(a: Seq<char>, b: Seq<char>)
    requires
        encode_utf8(a) == encode_utf8(b),
    ensures
        a == b,
{
    encode_utf8_decode_utf8(a);
    encode_utf8_decode_utf8(b);
}

/// The end of a prefix of a text is a boundary between characters.
proof fn lemma_boundary(a: Seq<char>, b: Seq<char>)
    ensures
        is_char_boundary(encode_utf8(a + b), encode_utf8(a).len() as int),
    decreases a.len(),
{
    encode_utf8_valid_utf8(a + b);
    if a.len() > 0 {
        let s = a + b;
        let bytes = encode_utf8(s);
        encode_utf8_first_scalar(s);
        encode_utf8_valid_utf8(s.drop_first());
        assert(s.drop_first() =~= a.drop_first() + b);
        assert(pop_first_scalar(bytes) =~= encode_utf8(s.drop_first()));
        lemma_boundary(a.drop_first(), b);
        lemma_encode_concat(a, b);
    }
}

/// A text splits at the end of the encoding of its first `k` characters.
proof fn lemma_split(s: Seq<char>, k: int)
    requires
        0 <= k <= s.len(),
    ensures
        is_char_boundary(encode_utf8(s), encode_utf8(s.take(k)).len() as int),
        encode_utf8(s) == encode_utf8(s.take(k)) + encode_utf8(s.skip(k)),
{
    assert(s.take(k) + s.skip(k) =~= s);
    lemma_boundary(s.take(k), s.skip(k));
    lemma_encode_concat(s.take(k), s.skip(k));
}

/// The encoding of one more character.
proof fn lemma_encode_step(s: Seq<char>, k: int)
    requires
        0 <= k < s.len(),
    ensures
        encode_utf8(s.take(k + 1)) == encode_utf8(s.take(k)) + encode_scalar(s[k] as u32),
        encode_utf8(s.take(k + 1)).len() <= encode_utf8(s).len(),
{
    assert(s.take(k + 1) =~= s.take(k) + seq![s[k]]);
    lemma_encode_concat(s.take(k), seq![s[k]]);
    assert(seq![s[k]].drop_first() =~= Seq::<char>::empty());
    assert(encode_utf8(seq![s[k]]) =~= encode_scalar(s[k] as u32)) by {
        reveal_with_fuel(encode_utf8, 2);
    }
    lemma_split(s, k + 1);
}

/// The number of bytes that encode `c`.
fn width(c: char) -> (n: usize)
    ensures
        n == encode_scalar(c as u32).len(),
{
    let v = c as u32;
    if v <= 0x7f {
        1
    } else if v <= 0x7ff {
        2
    } else if v <= 0xffff {
        3
    } else {
        4
    }
}

/// Splits `s` after its first `k` characters, which `at` bytes encode.
fn split_after<'a>(s: &'a str, at: usize, k: Ghost<int>) -> (r: (&'a str, &'a str))
    requires
        0 <= k@ <= s@.len(),
        at == encode_utf8(s@.take(k@)).len(),
    ensures
        r.0@ == s@.take(k@),
        r.1@ == s@.skip(k@),
{
    proof {
        lemma_split(s@, k@);
    }
    let r = s.split_at(at);
    proof {
        let a = encode_utf8(s@.take(k@));
        let b = encode_utf8(s@.skip(k@));
        assert((a + b).subrange(0, at as int) =~= a);
        assert((a + b).subrange(at as int, (a + b).len() as int) =~= b);
        lemma_encode_injective(r.0@, s@.take(k@));
        lemma_encode_injective(r.1@, s@.skip(k@));
    }
    r
}

/// `s` before and after its first `c`, as `str::split_once` gives them.
pub fn split_once<'a>(s: &'a str, c: char) -> (r: Option<(&'a str, &'a str)>)
    ensures
        match r {
            Some((a, b)) => cut(s@, c) == Some((a@, b@)),
            None => cut(s@, c) is None,
        },
{
    let mut at: usize = 0;
    let total: usize = s.as_bytes().len();
    for ch in it: s.chars()
        invariant
            it.seq() == s@,
            at == encode_utf8(s@.take(it.index() as int)).len(),
            total == encode_utf8(s@).len(),
            forall|i: int| 0 <= i < it.index() ==> s@[i] != c,
    {
        let ghost k = it.index() as int;
        proof {
            lemma_encode_step(s@, k);
        }
        if ch == c {
            let (a, rest) = split_after(s, at, Ghost(k));
            let (mid, b) = split_after(s, at + width(ch), Ghost(k + 1));
            proof {
                lemma_find_is(s@, c, k);
            }
            return Some((a, b));
        }
        at = at + width(ch);
    }
    proof {
        lemma_find_is(s@, c, s@.len() as int);
    }
    None
}

/// The characters of `s` from `i` up to `j`, which stand in the bytes from `from` up to `to`.
fn slice<'a>(s: &'a str, from: usize, to: usize, i: Ghost<int>, j: Ghost<int>) -> (r: &'a str)
    requires
        0 <= i@ <= j@ <= s@.len(),
        from == encode_utf8(s@.take(i@)).len(),
        to == encode_utf8(s@.take(j@)).len(),
    ensures
        r@ == s@.subrange(i@, j@),
{
    let (front, rest) = split_after(s, from, i);
    proof {
        assert(s@.take(j@) =~= s@.take(i@) + s@.skip(i@).take(j@ - i@));
        lemma_encode_concat(s@.take(i@), s@.skip(i@).take(j@ - i@));
    }
    let (middle, back) = split_after(rest, to - from, Ghost(j@ - i@));
    assert(s@.skip(i@).take(j@ - i@) =~= s@.subrange(i@, j@));
    middle
}

/// What is left when white space is taken from the front.
pub proof fn lemma_trim_front(s: Seq<char>, i: int)
    requires
        0 <= i <= s.len(),
        forall|k: int| 0 <= k < i ==> is_space(s[k]),
        i < s.len() ==> !is_space(s[i]),
    ensures
        trim_front(s) == s.skip(i),
    decreases i,
{
    if i == 0 {
        assert(s.skip(0) =~= s);
    } else {
        assert forall|k: int| 0 <= k < i - 1 implies is_space(s.drop_first()[k]) by {
            assert(s.drop_first()[k] == s[k + 1]);
        }
        lemma_trim_front(s.drop_first(), i - 1);
        assert(s.drop_first().skip(i - 1) =~= s.skip(i));
    }
}

proof fn lemma_trim_back(s: Seq<char>, j: int)
    requires
        0 <= j <= s.len(),
        forall|k: int| j <= k < s.len() ==> is_space(s[k]),
        0 < j ==> !is_space(s[j - 1]),
    ensures
        trim_back(s) == s.take(j),
    decreases s.len() - j,
{
    if j == s.len() {
        assert(s.take(j) =~= s);
    } else {
        lemma_trim_back(s.drop_last(), j);
        assert(s.drop_last().take(j) =~= s.take(j));
    }
}

/// What is left of `s` when white space is taken from both ends.
pub proof fn lemma_trimmed(s: Seq<char>, i: int, j: int)
    requires
        0 <= i <= j <= s.len(),
        forall|k: int| 0 <= k < i ==> is_space(s[k]),
        forall|k: int| j <= k < s.len() ==> is_space(s[k]),
        i < j ==> !is_space(s[i]) && !is_space(s[j - 1]),
    ensures
        trimmed(s) == s.subrange(i, j),
{
    if i == j {
        lemma_trim_front(s, s.len() as int);
        assert(s.skip(s.len() as int) =~= Seq::<char>::empty());
        assert(s.subrange(i, j) =~= Seq::<char>::empty());
    } else {
        lemma_trim_front(s, i);
        lemma_trim_back(s.skip(i), j - i);
        assert(s.skip(i).take(j - i) =~= s.subrange(i, j));
    }
}

/// Whether `c` has the Unicode property `White_Space`, as `char::is_whitespace` says.
pub fn space(c: char) -> (r: bool)
    ensures
        r == is_space(c),
{
    ('\u{9}' <= c && c <= '\u{d}') || c == ' ' || c == '\u{85}' || c == '\u{a0}' || c == '\u{1680}'
        || ('\u{2000}' <= c && c <= '\u{200a}') || c == '\u{2028}' || c == '\u{2029}' || c
        == '\u{202f}' || c == '\u{205f}' || c == '\u{3000}'
}

/// Whether `c` is an ASCII letter.
pub fn alpha(c: char) -> (r: bool)
    ensures
        r == is_alpha(c),
{
    ('a' <= c && c <= 'z') || ('A' <= c && c <= 'Z')
}

/// Whether `c` is an ASCII digit.
pub fn digit(c: char) -> (r: bool)
    ensures
        r == is_digit(c),
{
    '0' <= c && c <= '9'
}

/// Whether `c` is an ASCII letter or digit.
pub fn alnum(c: char) -> (r: bool)
    ensures
        r == is_alnum(c),
{
    alpha(c) || digit(c)
}

/// `s` without the white space around it, as `str::trim` gives it.
pub fn trim<'a>(s: &'a str) -> (r: &'a str)
    ensures
        r@ == trimmed(s@),
{
    let total: usize = s.as_bytes().len();
    let mut at: usize = 0;
    let mut from: usize = 0;
    let mut to: usize = 0;
    let mut seen: bool = false;
    let ghost mut i: int = 0;
    let ghost mut j: int = 0;
    for ch in it: s.chars()
        invariant
            it.seq() == s@,
            total == encode_utf8(s@).len(),
            at == encode_utf8(s@.take(it.index() as int)).len(),
            0 <= i <= j <= it.index(),
            from == encode_utf8(s@.take(i)).len(),
            to == encode_utf8(s@.take(j)).len(),
            forall|k: int| 0 <= k < i ==> is_space(s@[k]),
            forall|k: int| j <= k < it.index() ==> is_space(s@[k]),
            seen <==> i < j,
            !seen ==> i == 0 && j == 0,
            i < j ==> !is_space(s@[i]) && !is_space(s@[j - 1]),
    {
        proof {
            lemma_encode_step(s@, it.index() as int);
        }
        let next: usize = at + width(ch);
        if !space(ch) {
            if !seen {
                seen = true;
                from = at;
                proof {
                    i = it.index() as int;
                }
            }
            to = next;
            proof {
                j = it.index() as int + 1;
            }
        }
        at = next;
    }
    proof {
        lemma_trimmed(s@, i, j);
    }
    slice(s, from, to, Ghost(i), Ghost(j))
}

/// Whether two texts are equal.
pub fn same(a: &str, b: &str) -> (r: bool)
    ensures
        r == (a@ == b@),
{
    let x = a.as_bytes();
    let y = b.as_bytes();
    if x.len() != y.len() {
        return false;
    }
    let mut i: usize = 0;
    while i < x.len()
        invariant
            i <= x@.len(),
            x@.len() == y@.len(),
            x@ == encode_utf8(a@),
            y@ == encode_utf8(b@),
            x@.take(i as int) =~= y@.take(i as int),
        decreases x@.len() - i,
    {
        if x[i] != y[i] {
            return false;
        }
        i = i + 1;
    }
    proof {
        assert(x@.take(i as int) =~= x@);
        assert(y@.take(i as int) =~= y@);
        lemma_encode_injective(a@, b@);
    }
    true
}

/// A text whose bytes begin with those of `p` begins with `p`.
proof fn lemma_byte_prefix(s: Seq<char>, p: Seq<char>)
    requires
        encode_utf8(p).is_prefix_of(encode_utf8(s)),
    ensures
        p.is_prefix_of(s),
    decreases p.len(),
{
    if p.len() > 0 {
        let x = encode_utf8(p);
        let y = encode_utf8(s);
        encode_utf8_first_scalar(p);
        assert(y.len() > 0);
        encode_utf8_first_scalar(s);
        assert(forall|i: int| 0 <= i < x.len() ==> x[i] == y[i]);
        assert(decode_first_scalar(x) == decode_first_scalar(y));
        char_u32_cast(p[0], decode_first_scalar(x));
        char_u32_cast(s[0], decode_first_scalar(y));
        assert(p[0] == s[0]);
        let n = encode_scalar(p[0] as u32).len();
        let xs = encode_utf8(p.drop_first());
        let ys = encode_utf8(s.drop_first());
        assert forall|i: int| 0 <= i < xs.len() implies xs[i] == ys[i] by {
            assert(x[n + i] == y[n + i]);
        }
        assert(xs =~= ys.subrange(0, xs.len() as int));
        lemma_byte_prefix(s.drop_first(), p.drop_first());
        assert forall|i: int| 0 <= i < p.len() implies p[i] == s[i] by {
            if i > 0 {
                assert(p.drop_first()[i - 1] == s.drop_first()[i - 1]);
            }
        }
    }
    assert(p =~= s.subrange(0, p.len() as int));
}

/// Whether `s` begins with `p`.
pub fn starts_with(s: &str, p: &str) -> (r: bool)
    ensures
        r == p@.is_prefix_of(s@),
{
    let x = p.as_bytes();
    let y = s.as_bytes();
    proof {
        if p@.is_prefix_of(s@) {
            lemma_split(s@, p@.len() as int);
            assert(s@.take(p@.len() as int) =~= p@);
        }
    }
    if x.len() > y.len() {
        return false;
    }
    let mut i: usize = 0;
    while i < x.len()
        invariant
            i <= x@.len() <= y@.len(),
            x@ == encode_utf8(p@),
            y@ == encode_utf8(s@),
            p@.is_prefix_of(s@) ==> forall|k: int| 0 <= k < x@.len() ==> x@[k] == y@[k],
            forall|k: int| 0 <= k < i ==> x@[k] == y@[k],
        decreases x@.len() - i,
    {
        if x[i] != y[i] {
            return false;
        }
        i = i + 1;
    }
    proof {
        assert(x@ =~= y@.subrange(0, x@.len() as int));
        lemma_byte_prefix(s@, p@);
    }
    true
}

/// `s` without the prefix `p`.
pub fn strip_prefix<'a>(s: &'a str, p: &str) -> (r: Option<&'a str>)
    ensures
        match r {
            Some(t) => s@ == p@ + t@,
            None => !p@.is_prefix_of(s@),
        },
{
    if starts_with(s, p) {
        assert(s@.take(p@.len() as int) =~= p@);
        let (front, rest) = split_after(s, p.as_bytes().len(), Ghost(p@.len() as int));
        assert(s@ =~= p@ + s@.skip(p@.len() as int));
        Some(rest)
    } else {
        None
    }
}

/// The first line of `s` and what follows it, as `str::lines` takes them off.
pub fn next_line<'a>(s: &'a str) -> (r: (&'a str, &'a str))
    ensures
        (r.0@, r.1@) == first_line(s@),
{
    match split_once(s, '\n') {
        Some((line, rest)) => (chomp(line), rest),
        None => {
            assert(s@.take(s@.len() as int) =~= s@);
            assert(s@.skip(s@.len() as int) =~= Seq::<char>::empty());
            let (all, rest) = split_after(s, s.as_bytes().len(), Ghost(s@.len() as int));
            (s, rest)
        },
    }
}

/// `s` without one carriage return at its end.
fn chomp<'a>(s: &'a str) -> (r: &'a str)
    ensures
        r@ == chomped(s@),
{
    let b = s.as_bytes();
    let n: usize = b.len();
    proof {
        lemma_last_ascii(s@, '\r');
    }
    if n > 0 && b[n - 1] == 13 {
        assert(s@.take(s@.len() as int - 1) =~= s@.drop_last());
        let (front, back) = split_after(s, n - 1, Ghost(s@.len() as int - 1));
        front
    } else {
        s
    }
}

/// The bytes of a character: itself where it is ASCII, otherwise none that is.
proof fn lemma_scalar_bytes(c: char)
    ensures
        (c as u32) < 0x80 ==> encode_scalar(c as u32) == seq![c as u8],
        (c as u32) >= 0x80 ==> forall|i: int|
            0 <= i < encode_scalar(c as u32).len() ==> #[trigger] encode_scalar(c as u32)[i]
                >= 0x80,
        encode_scalar(c as u32).len() > 0,
{
    let v = c as u32;
    if v < 0x80 {
        assert((v & 0x7f) as u8 == v as u8) by (bit_vector)
            requires
                v < 0x80,
        ;
        assert(encode_scalar(v) =~= seq![c as u8]);
    } else {
        assert((0x80u8 | ((v & 0x3f) as u8)) >= 0x80) by (bit_vector);
        assert((0x80u8 | (((v >> 6) & 0x3f) as u8)) >= 0x80) by (bit_vector);
        assert((0x80u8 | (((v >> 12) & 0x3f) as u8)) >= 0x80) by (bit_vector);
        assert((0xc0u8 | (((v >> 6) & 0x1f) as u8)) >= 0x80) by (bit_vector);
        assert((0xe0u8 | (((v >> 12) & 0x0f) as u8)) >= 0x80) by (bit_vector);
        assert((0xf0u8 | (((v >> 18) & 0x7) as u8)) >= 0x80) by (bit_vector);
    }
}

/// ASCII characters with the same byte are the same.
proof fn lemma_ascii_distinct(a: char, b: char)
    requires
        (b as u32) < 0x80,
    ensures
        (a as u32) < 0x80 && a as u8 == b as u8 ==> a == b,
{
}

/// A text ends with an ASCII character exactly if its bytes do.
proof fn lemma_last_ascii(s: Seq<char>, c: char)
    requires
        (c as u32) < 0x80,
    ensures
        (s.len() > 0 && s.last() == c) <==> (encode_utf8(s).len() > 0 && encode_utf8(s).last()
            == c as u8),
        s.len() > 0 && s.last() == c ==> encode_utf8(s.drop_last()).len() == encode_utf8(s).len()
            - 1,
{
    if s.len() > 0 {
        let k = s.len() as int - 1;
        lemma_encode_step(s, k);
        assert(s.take(k + 1) =~= s);
        assert(s.take(k) =~= s.drop_last());
        lemma_scalar_bytes(s[k]);
        assert(encode_utf8(s).last() == encode_scalar(s[k] as u32).last());
        if s[k] != c {
            lemma_ascii_distinct(s[k], c);
        }
    }
}

/// A text of one ASCII character has one byte.
pub proof fn lemma_ascii_one(c: char)
    requires
        (c as u32) < 0x80,
    ensures
        encode_utf8(seq![c]) == seq![c as u8],
{
    lemma_scalar_bytes(c);
    reveal_with_fuel(encode_utf8, 2);
    assert(seq![c].drop_first() =~= Seq::<char>::empty());
    assert(encode_utf8(seq![c]) =~= seq![c as u8]);
}

/// An ASCII character occurs in a text exactly if its byte does.
pub proof fn lemma_ascii_byte(s: Seq<char>, c: char)
    requires
        (c as u32) < 0x80,
    ensures
        s.contains(c) <==> encode_utf8(s).contains(c as u8),
    decreases s.len(),
{
    if s.len() > 0 {
        let first = encode_scalar(s[0] as u32);
        let t = s.drop_first();
        let rest = encode_utf8(t);
        let all = encode_utf8(s);
        lemma_ascii_byte(t, c);
        lemma_scalar_bytes(s[0]);
        lemma_ascii_distinct(s[0], c);
        if s.contains(c) {
            let i = choose|i: int| 0 <= i < s.len() && s[i] == c;
            if i == 0 {
                assert(all[0] == c as u8);
            } else {
                assert(t[i - 1] == c);
                let k = choose|k: int| 0 <= k < rest.len() && rest[k] == c as u8;
                assert(all[first.len() + k] == c as u8);
            }
        }
        if all.contains(c as u8) {
            let k = choose|k: int| 0 <= k < all.len() && all[k] == c as u8;
            if k < first.len() {
                assert(first[k] == c as u8);
                assert(s[0] == c);
            } else {
                assert(rest[k - first.len()] == c as u8);
                let i = choose|i: int| 0 <= i < t.len() && t[i] == c;
                assert(s[i + 1] == c);
            }
        }
    }
}

/// `s` without the suffix `p`.
pub fn strip_suffix<'a>(s: &'a str, p: &str) -> (r: Option<&'a str>)
    ensures
        match r {
            Some(t) => s@ == t@ + p@,
            None => !p@.is_suffix_of(s@),
        },
{
    let x = p.as_bytes();
    let y = s.as_bytes();
    proof {
        if p@.is_suffix_of(s@) {
            let k = s@.len() - p@.len();
            lemma_split(s@, k);
            assert(s@.skip(k) =~= p@);
        }
    }
    if x.len() > y.len() {
        return None;
    }
    let end: usize = y.len();
    let at: usize = end - x.len();
    let mut i: usize = 0;
    while i < x.len()
        invariant
            i <= x@.len() <= y@.len(),
            end == y@.len(),
            at == y@.len() - x@.len(),
            x@ == encode_utf8(p@),
            y@ == encode_utf8(s@),
            p@.is_suffix_of(s@) ==> forall|k: int| 0 <= k < x@.len() ==> x@[k] == y@[at + k],
            forall|k: int| 0 <= k < i ==> x@[k] == #[trigger] y@[at + k],
        decreases x@.len() - i,
    {
        if x[i] != y[at + i] {
            return None;
        }
        i = i + 1;
    }
    proof {
        lemma_byte_suffix(s@, p@);
    }
    let (front, back) = s.split_at(at);
    proof {
        let whole = encode_utf8(s@);
        assert(whole =~= whole.subrange(0, at as int) + whole.subrange(
            at as int,
            whole.len() as int,
        ));
        lemma_encode_concat(front@, back@);
        lemma_encode_injective(s@, front@ + back@);
        assert forall|k: int| 0 <= k < x@.len() implies x@[k] == whole.subrange(
            at as int,
            whole.len() as int,
        )[k] by {
            assert(x@[k] == y@[at + k]);
        }
        assert(whole.subrange(at as int, whole.len() as int) =~= x@);
        lemma_encode_injective(back@, p@);
    }
    Some(front)
}

/// Where the bytes of a text end with those of `p`, a character begins there.
proof fn lemma_byte_suffix(s: Seq<char>, p: Seq<char>)
    requires
        encode_utf8(p).len() <= encode_utf8(s).len(),
        forall|k: int|
            0 <= k < encode_utf8(p).len() ==> encode_utf8(p)[k] == #[trigger] encode_utf8(
                s,
            )[encode_utf8(s).len() - encode_utf8(p).len() + k],
    ensures
        is_char_boundary(encode_utf8(s), encode_utf8(s).len() - encode_utf8(p).len()),
{
    let x = encode_utf8(p);
    let y = encode_utf8(s);
    let at = y.len() - x.len();
    encode_utf8_valid_utf8(s);
    encode_utf8_valid_utf8(p);
    if x.len() == 0 {
        is_char_boundary_start_end_of_seq(y);
    } else {
        is_char_boundary_start_end_of_seq(x);
        is_char_boundary_iff_not_is_continuation_byte(x, 0);
        assert(x[0] == y[at + 0]);
        is_char_boundary_iff_not_is_continuation_byte(y, at);
    }
}

/// Whether `c` occurs in `s`.
pub fn contains(s: &str, c: char) -> (r: bool)
    ensures
        r == s@.contains(c),
{
    proof {
        lemma_find(s@, c);
    }
    split_once(s, c).is_some()
}

/// The digit of a number below ten.
pub open spec fn digit_char(d: nat) -> char {
    (48 + d) as char
}

/// `n` in decimal notation.
pub open spec fn decimal(n: nat) -> Seq<char>
    decreases n,
{
    if n < 10 {
        seq![digit_char(n)]
    } else {
        decimal(n / 10).push(digit_char(n % 10))
    }
}

/// `String::push` appends one character.
pub assume_specification[ String::push ](s: &mut String, c: char)
    ensures
        final(s)@ == old(s)@.push(c),
;

/// `String::into_bytes` gives the bytes of the text in UTF-8.
pub assume_specification[ String::into_bytes ](s: String) -> (bytes: Vec<u8>)
    ensures
        bytes@ == encode_utf8(s@),
;

/// `n` in decimal notation.
pub fn decimal_text(n: u64) -> (r: String)
    ensures
        r@ == decimal(n as nat),
    decreases n,
{
    let mut r = if n < 10 {
        String::new()
    } else {
        decimal_text(n / 10)
    };
    let d: u8 = 48 + (n % 10) as u8;
    r.push(d as char);
    proof {
        if n < 10 {
            assert(r@ =~= seq![digit_char(n as nat)]);
        }
    }
    r
}

/// The number of ASCII digits that `s` begins with.
pub open spec fn digit_count(s: Seq<char>) -> nat
    decreases s.len(),
{
    if s.len() > 0 && is_digit(s[0]) {
        1 + digit_count(s.drop_first())
    } else {
        0
    }
}

/// The number that decimal digits denote.
pub open spec fn number_value(digits: Seq<char>) -> nat
    decreases digits.len(),
{
    if digits.len() == 0 {
        0
    } else {
        (number_value(digits.drop_last()) * 10 + (digits.last() as int - 48)) as nat
    }
}

/// Where the digits that a text begins with end.
pub proof fn lemma_digit_count(s: Seq<char>, k: int)
    requires
        0 <= k <= s.len(),
        forall|i: int| 0 <= i < k ==> is_digit(s[i]),
        k < s.len() ==> !is_digit(s[k]),
    ensures
        digit_count(s) == k,
    decreases k,
{
    if k > 0 {
        lemma_digit_count(s.drop_first(), k - 1);
    }
}

/// `s` cut after the digits that it begins with.
pub fn split_digits<'a>(s: &'a str) -> (r: (&'a str, &'a str))
    ensures
        digit_count(s@) <= s@.len(),
        r.0@ == s@.take(digit_count(s@) as int),
        r.1@ == s@.skip(digit_count(s@) as int),
        forall|i: int| 0 <= i < r.0@.len() ==> is_digit(#[trigger] r.0@[i]),
{
    let mut at: usize = 0;
    let total: usize = s.as_bytes().len();
    assert(s@.take(0) =~= Seq::<char>::empty());
    for c in it: s.chars()
        invariant
            it.seq() == s@,
            at == encode_utf8(s@.take(it.index() as int)).len(),
            total == encode_utf8(s@).len(),
            forall|i: int| 0 <= i < it.index() ==> is_digit(#[trigger] s@[i]),
    {
        let ghost k = it.index() as int;
        assert(s@[k] == c);
        proof {
            lemma_encode_step(s@, k);
        }
        if !digit(c) {
            proof {
                lemma_digit_count(s@, k);
            }
            return split_after(s, at, Ghost(k));
        }
        at = at + width(c);
    }
    proof {
        lemma_digit_count(s@, s@.len() as int);
    }
    split_after(s, at, Ghost(s@.len() as int))
}

/// More digits denote no smaller number.
proof fn lemma_number_grows(s: Seq<char>, k: int)
    requires
        0 <= k <= s.len(),
        forall|i: int| 0 <= i < s.len() ==> is_digit(#[trigger] s[i]),
    ensures
        number_value(s.take(k)) <= number_value(s),
    decreases s.len() - k,
{
    if k < s.len() {
        lemma_number_grows(s, k + 1);
        assert(s.take(k + 1).drop_last() =~= s.take(k));
        assert(is_digit(s[k]));
        assert(s.take(k + 1).last() == s[k]);
    } else {
        assert(s.take(k) =~= s);
    }
}

/// The number that digits denote, or `None` where it has more than 64 bits.
pub fn number(digits: &str) -> (r: Option<u64>)
    requires
        forall|i: int| 0 <= i < digits@.len() ==> is_digit(#[trigger] digits@[i]),
    ensures
        match r {
            Some(n) => n == number_value(digits@),
            None => number_value(digits@) > u64::MAX,
        },
{
    let mut n: u64 = 0;
    assert(digits@.take(0) =~= Seq::<char>::empty());
    for c in it: digits.chars()
        invariant
            it.seq() == digits@,
            n == number_value(digits@.take(it.index() as int)),
            forall|i: int| 0 <= i < digits@.len() ==> is_digit(#[trigger] digits@[i]),
    {
        let ghost k = it.index() as int;
        assert(digits@[k] == c);
        proof {
            assert(digits@.take(k + 1).drop_last() =~= digits@.take(k));
            assert(digits@.take(k + 1).last() == c);
            lemma_number_grows(digits@, k + 1);
        }
        let d: u64 = (c as u32 - 48) as u64;
        match n.checked_mul(10) {
            Some(tens) => match tens.checked_add(d) {
                Some(sum) => {
                    n = sum;
                },
                None => {
                    return None;
                },
            },
            None => {
                return None;
            },
        }
    }
    assert(digits@.take(digits@.len() as int) =~= digits@);
    Some(n)
}

/// The digit of a number below ten is a digit, and denotes it.
proof fn lemma_digit_char(d: nat)
    requires
        d < 10,
    ensures
        is_digit(digit_char(d)),
        digit_char(d) as int - 48 == d,
{
}

/// The decimal notation of a number is made of digits, and denotes it.
pub proof fn lemma_decimal(n: nat)
    ensures
        decimal(n).len() > 0,
        forall|i: int| 0 <= i < decimal(n).len() ==> is_digit(#[trigger] decimal(n)[i]),
        number_value(decimal(n)) == n,
    decreases n,
{
    if n < 10 {
        lemma_digit_char(n);
        assert(decimal(n).drop_last() =~= Seq::<char>::empty());
        assert(number_value(Seq::<char>::empty()) == 0);
    } else {
        lemma_decimal(n / 10);
        lemma_digit_char(n % 10);
        assert(decimal(n).drop_last() =~= decimal(n / 10));
    }
}

/// `n` in decimal notation, with a sign where it is negative.
pub open spec fn signed_decimal(n: int) -> Seq<char> {
    if n < 0 {
        seq!['-'] + decimal((-n) as nat)
    } else {
        decimal(n as nat)
    }
}

/// `n` in decimal notation, with a sign where it is negative.
pub fn signed_text(n: i32) -> (r: String)
    ensures
        r@ == signed_decimal(n as int),
{
    if n < 0 {
        let mut r = String::new();
        r.push('-');
        r.append(decimal_text((-(n as i64)) as u64).as_str());
        assert(r@ =~= signed_decimal(n as int));
        r
    } else {
        decimal_text(n as u64)
    }
}

/// The 32-bit number that a text denotes: digits, with a sign before them or not.
pub open spec fn signed_value(s: Seq<char>) -> Option<int> {
    let signed = s.len() > 0 && (s[0] == '-' || s[0] == '+');
    let digits = if signed {
        s.skip(1)
    } else {
        s
    };
    let n = if signed && s[0] == '-' {
        -number_value(digits)
    } else {
        number_value(digits) as int
    };
    if digits.len() > 0 && digit_count(digits) == digits.len() && i32::MIN <= n <= i32::MAX {
        Some(n)
    } else {
        None
    }
}

/// The 32-bit number that a text denotes, as `str::parse` finds it.
pub fn signed(s: &str) -> (r: Option<i32>)
    ensures
        match r {
            Some(n) => signed_value(s@) == Some(n as int),
            None => signed_value(s@) is None,
        },
{
    let (negative, digits) = match strip_prefix(s, "-") {
        Some(rest) => {
            proof {
                reveal_strlit("-");
                assert(s@.skip(1) =~= rest@);
            }
            (true, rest)
        },
        None => match strip_prefix(s, "+") {
            Some(rest) => {
                proof {
                    reveal_strlit("+");
                    assert(s@.skip(1) =~= rest@);
                }
                (false, rest)
            },
            None => (false, s),
        },
    };
    proof {
        reveal_strlit("-");
        reveal_strlit("+");
        if s@.len() > 0 && s@[0] == '-' {
            assert("-"@ =~= s@.subrange(0, 1));
        }
        if s@.len() > 0 && s@[0] == '+' {
            assert("+"@ =~= s@.subrange(0, 1));
        }
        if "-"@.is_prefix_of(s@) {
            assert("-"@[0] == s@.subrange(0, 1)[0]);
        }
        if "+"@.is_prefix_of(s@) {
            assert("+"@[0] == s@.subrange(0, 1)[0]);
        }
    }
    let (front, rest) = split_digits(digits);
    if front.is_empty() || !rest.is_empty() {
        return None;
    }
    assert(front@ =~= digits@);
    match number(front) {
        Some(n) => if negative && n <= 0x8000_0000 {
            Some((-(n as i64)) as i32)
        } else if !negative && n <= 0x7fff_ffff {
            Some(n as i32)
        } else {
            None
        },
        None => None,
    }
}

/// The notation of a number denotes it.
pub proof fn lemma_signed(n: int)
    requires
        i32::MIN <= n <= i32::MAX,
    ensures
        signed_value(signed_decimal(n)) == Some(n),
{
    let s = signed_decimal(n);
    let d = if n < 0 {
        decimal((-n) as nat)
    } else {
        decimal(n as nat)
    };
    lemma_decimal(
        if n < 0 {
            (-n) as nat
        } else {
            n as nat
        },
    );
    lemma_digit_count(d, d.len() as int);
    assert(is_digit(d[0]));
    if n < 0 {
        assert(s.skip(1) =~= d);
    }
}

/// ASCII letters and digits, `-`, `_` and `.`.
pub open spec fn is_plain(c: char) -> bool {
    is_alnum(c) || c == '-' || c == '_' || c == '.'
}

/// How `s` is shown in a message: in double quotes, with the escapes of Rust's
/// `Debug` for text.
pub uninterp spec fn debug_text(s: Seq<char>) -> Seq<char>;

/// `s` in double quotes, as `Debug` for `str` formats it. The escapes are those of
/// the standard library; the result is only named.
#[verifier::external_body]
pub(crate) fn quoted(s: &str) -> (r: String)
    ensures
        r@ == debug_text(s@),
{
    format!("{s:?}")
}

/// `std::str::from_utf8`: the text that bytes encode, where they do encode one.
#[verifier::external_body]
pub(crate) fn from_utf8<'a>(bytes: &'a [u8]) -> (r: Option<&'a str>)
    ensures
        match r {
            Some(s) => valid_utf8(bytes@) && s@ == decode_utf8(bytes@),
            None => !valid_utf8(bytes@),
        },
{
    std::str::from_utf8(bytes).ok()
}

/// Two texts one after the other.
pub fn join2(a: &str, b: &str) -> (r: String)
    ensures
        r@ == a@ + b@,
{
    let mut r = a.to_owned();
    r.append(b);
    r
}

/// Three texts one after the other.
pub fn join3(a: &str, b: &str, c: &str) -> (r: String)
    ensures
        r@ == a@ + b@ + c@,
{
    let mut r = a.to_owned();
    r.append(b);
    r.append(c);
    r
}

/// Four texts one after the other.
pub fn join4(a: &str, b: &str, c: &str, d: &str) -> (r: String)
    ensures
        r@ == a@ + b@ + c@ + d@,
{
    let mut r = a.to_owned();
    r.append(b);
    r.append(c);
    r.append(d);
    r
}

/// Five texts one after the other.
pub fn join5(a: &str, b: &str, c: &str, d: &str, e: &str) -> (r: String)
    ensures
        r@ == a@ + b@ + c@ + d@ + e@,
{
    let mut r = a.to_owned();
    r.append(b);
    r.append(c);
    r.append(d);
    r.append(e);
    r
}

/// The character classes by their code points: digits, letters, those two, those and
/// `-`, `.` and `_`, and the white space of Unicode.
pub proof fn law_classes(c: char)
    ensures
        is_digit(c) <==> 48 <= c as int <= 57,
        is_alpha(c) <==> 65 <= c as int <= 90 || 97 <= c as int <= 122,
        is_alnum(c) <==> 48 <= c as int <= 57 || 65 <= c as int <= 90 || 97 <= c as int <= 122,
        is_plain(c) <==> is_alnum(c) || seq![45int, 46, 95].contains(c as int),
        is_space(c) <==> 9 <= c as int <= 13 || 0x2000 <= c as int <= 0x200a || seq![
            0x20int,
            0x85,
            0xa0,
            0x1680,
            0x2028,
            0x2029,
            0x202f,
            0x205f,
            0x3000,
        ].contains(c as int),
{
    let few = seq![45int, 46, 95];
    assert(few[0] == 45 && few[1] == 46 && few[2] == 95);
    let spaces = seq![0x20int, 0x85, 0xa0, 0x1680, 0x2028, 0x2029, 0x202f, 0x205f, 0x3000];
    assert(spaces[0] == 0x20 && spaces[1] == 0x85 && spaces[2] == 0xa0 && spaces[3] == 0x1680);
    assert(spaces[4] == 0x2028 && spaces[5] == 0x2029 && spaces[6] == 0x202f);
    assert(spaces[7] == 0x205f && spaces[8] == 0x3000);
}

/// A text is cut at its first separator, whatever stands on either side, and is not cut
/// where it has none.
pub proof fn law_cut(a: Seq<char>, c: char, b: Seq<char>)
    requires
        !a.contains(c),
    ensures
        cut(a + seq![c] + b, c) == Some((a, b)),
        cut(a, c) is None,
{
    let s = a + seq![c] + b;
    assert forall|i: int| 0 <= i < a.len() implies s[i] != c && a[i] != c by {
        assert(a.contains(a[i]));
    }
    lemma_find_is(s, c, a.len() as int);
    lemma_find_is(a, c, a.len() as int);
    assert(s.take(a.len() as int) =~= a);
    assert(s.skip(a.len() as int + 1) =~= b);
}

/// Every text is one that is cut, or holds no separator.
pub proof fn lemma_cut_any(s: Seq<char>, c: char)
    ensures
        match cut(s, c) {
            Some((a, b)) => s == a + seq![c] + b && !a.contains(c),
            None => !s.contains(c),
        },
{
    lemma_find(s, c);
    if let Some((a, b)) = cut(s, c) {
        assert(s =~= a + seq![c] + b);
        if a.contains(c) {
            let i = choose|i: int| 0 <= i < a.len() && a[i] == c;
            assert(s[i] == c);
        }
    }
}

/// Whether a text is white space throughout.
pub open spec fn is_blank(s: Seq<char>) -> bool {
    forall|i: int| 0 <= i < s.len() ==> is_space(#[trigger] s[i])
}

/// Whether a text neither begins nor ends with white space.
pub open spec fn is_tight(s: Seq<char>) -> bool {
    s.len() > 0 ==> !is_space(s[0]) && !is_space(s.last())
}

/// Trimming takes off the white space around a text, all of it and nothing else.
pub proof fn law_trimmed(a: Seq<char>, m: Seq<char>, b: Seq<char>)
    requires
        is_blank(a),
        is_blank(b),
        is_tight(m),
    ensures
        trimmed(a + m + b) == m,
        m.len() > 0 ==> trim_front(a + m + b) == m + b,
        m.len() == 0 ==> trim_front(a + m + b).len() == 0,
{
    let s = a + m + b;
    let i = a.len() as int;
    if m.len() > 0 {
        assert forall|k: int| 0 <= k < i implies is_space(s[k]) by {
            assert(is_space(a[k]));
        }
        assert(s[i] == m[0]);
        let j = i + m.len();
        assert(s[j - 1] == m.last());
        assert forall|k: int| j <= k < s.len() implies is_space(s[k]) by {
            assert(is_space(b[k - j]));
        }
        lemma_trimmed(s, i, j);
        assert(s.subrange(i, j) =~= m);
        lemma_trim_front(s, i);
        assert(s.skip(i) =~= m + b);
    } else {
        assert forall|k: int| 0 <= k < s.len() implies is_space(s[k]) by {
            if k < i {
                assert(is_space(a[k]));
            } else {
                assert(is_space(b[k - i]));
            }
        }
        lemma_trim_front(s, s.len() as int);
        assert(trim_front(s) =~= Seq::<char>::empty());
        assert(trimmed(s) =~= m);
    }
}

/// Lines are what line feeds end: each is a line without its line feed, and without the
/// carriage return before that; a last one may have neither.
pub proof fn law_lines(line: Seq<char>, rest: Seq<char>)
    requires
        !line.contains('\n'),
    ensures
        lines(Seq::<char>::empty()) == Seq::<Seq<char>>::empty(),
        line.len() > 0 ==> lines(line) == seq![line],
        line.len() == 0 || line.last() != '\r' ==> lines(line + seq!['\n'] + rest) == seq![line]
            + lines(rest),
        lines(line + seq!['\r', '\n'] + rest) == seq![line] + lines(rest),
{
    if line.len() > 0 {
        law_cut(line, '\n', rest);
        reveal_with_fuel(lines, 2);
        assert(lines(line) =~= seq![line]);
    }
    law_cut(line, '\n', rest);
    assert(lines(line + seq!['\n'] + rest).len() > 0);
    let cr = line.push('\r');
    assert(!cr.contains('\n')) by {
        if cr.contains('\n') {
            let i = choose|i: int| 0 <= i < cr.len() && cr[i] == '\n';
            assert(line[i] == '\n');
        }
    }
    law_cut(cr, '\n', rest);
    assert(cr + seq!['\n'] + rest =~= line + seq!['\r', '\n'] + rest);
    assert(cr.drop_last() =~= line);
}

/// A number is written in digits, of which the first is `0` only where it is the number's
/// only one, and each digit counts ten times the one after it.
pub proof fn law_decimal(n: nat)
    ensures
        decimal(n).len() > 0,
        decimal(n).len() > 1 ==> decimal(n)[0] != '0',
        forall|i: int|
            0 <= i < decimal(n).len() ==> 48 <= #[trigger] decimal(n)[i] as int <= 57,
        number_value(decimal(n)) == n,
    decreases n,
{
    lemma_decimal(n);
    assert forall|i: int| 0 <= i < decimal(n).len() implies 48 <= #[trigger] decimal(n)[i] as int
        <= 57 by {
        assert(is_digit(decimal(n)[i]));
    }
    if n >= 10 {
        law_decimal(n / 10);
        if n / 10 < 10 {
            lemma_digit_char(n / 10);
            assert(decimal(n / 10)[0] == digit_char(n / 10));
        } else {
            lemma_decimal(n / 10 / 10);
        }
        assert(decimal(n)[0] == decimal(n / 10)[0]);
    }
}

/// The value of digits is that of the first ones, moved up by the number of the others,
/// and that of the others.
pub proof fn law_number(a: Seq<char>, b: Seq<char>, c: char)
    requires
        forall|i: int| 0 <= i < a.len() ==> is_digit(#[trigger] a[i]),
        forall|i: int| 0 <= i < b.len() ==> is_digit(#[trigger] b[i]),
        is_digit(c),
    ensures
        number_value(seq![c]) == c as int - 48,
        number_value(a + b) == number_value(a) * vstd::arithmetic::power::pow(10, b.len())
            + number_value(b),
    decreases b.len(),
{
    assert(seq![c].drop_last() =~= Seq::<char>::empty());
    assert(number_value(Seq::<char>::empty()) == 0);
    if b.len() == 0 {
        assert(a + b =~= a);
        vstd::arithmetic::power::lemma_pow0(10);
    } else {
        let less = b.drop_last();
        law_number(a, less, c);
        assert((a + b).drop_last() =~= a + less);
        assert((a + b).last() == b.last());
        assert(is_digit(b[b.len() - 1]));
        vstd::arithmetic::power::lemma_pow_adds(10, less.len(), 1);
        vstd::arithmetic::power::lemma_pow1(10);
        let x = number_value(a) as int;
        let p = vstd::arithmetic::power::pow(10, less.len());
        assert(vstd::arithmetic::power::pow(10, b.len()) == p * 10);
        assert((x * p) * 10 == x * (p * 10)) by (nonlinear_arith);
    }
}

/// The digits that a text begins with are counted up to the first character that is none.
pub proof fn law_digit_count(digits: Seq<char>, rest: Seq<char>)
    requires
        forall|i: int| 0 <= i < digits.len() ==> is_digit(#[trigger] digits[i]),
        rest.len() > 0 ==> !is_digit(rest[0]),
    ensures
        digit_count(digits + rest) == digits.len(),
{
    let s = digits + rest;
    assert forall|i: int| 0 <= i < digits.len() implies is_digit(s[i]) by {
        assert(is_digit(digits[i]));
    }
    lemma_digit_count(s, digits.len() as int);
}

/// A 32-bit number is read from digits, with a sign before them or not, if it is in range,
/// and from nothing else.
pub proof fn law_signed(digits: Seq<char>, s: Seq<char>)
    requires
        digits.len() > 0,
        forall|i: int| 0 <= i < digits.len() ==> is_digit(#[trigger] digits[i]),
    ensures
        number_value(digits) <= 0x7fff_ffff ==> signed_value(digits) == Some(
            number_value(digits) as int,
        ) && signed_value(seq!['+'] + digits) == Some(number_value(digits) as int),
        number_value(digits) > 0x7fff_ffff ==> signed_value(digits) is None && signed_value(
            seq!['+'] + digits,
        ) is None,
        number_value(digits) <= 0x8000_0000 ==> signed_value(seq!['-'] + digits) == Some(
            -(number_value(digits) as int),
        ),
        number_value(digits) > 0x8000_0000 ==> signed_value(seq!['-'] + digits) is None,
        s.len() == 0 ==> signed_value(s) is None,
        s.len() == 1 && (s[0] == '-' || s[0] == '+') ==> signed_value(s) is None,
        (exists|i: int| 0 < i < s.len() && !is_digit(#[trigger] s[i])) ==> signed_value(s) is None,
        s.len() > 0 && !is_digit(s[0]) && s[0] != '-' && s[0] != '+' ==> signed_value(s) is None,
{
    lemma_digit_count(digits, digits.len() as int);
    assert(is_digit(digits[0]));
    assert((seq!['-'] + digits).skip(1) =~= digits);
    assert((seq!['+'] + digits).skip(1) =~= digits);
    if s.len() > 0 {
        let rest = if s[0] == '-' || s[0] == '+' {
            s.skip(1)
        } else {
            s
        };
        if exists|i: int| 0 < i < s.len() && !is_digit(#[trigger] s[i]) {
            let i = choose|i: int| 0 < i < s.len() && !is_digit(#[trigger] s[i]);
            let k = if s[0] == '-' || s[0] == '+' {
                i - 1
            } else {
                i
            };
            assert(rest[k] == s[i]);
            lemma_not_all_digits(rest, k);
        } else if s[0] != '-' && s[0] != '+' && !is_digit(s[0]) {
            lemma_not_all_digits(s, 0);
        }
    }
}

/// A text with a character that is no digit has fewer digits at its start than characters.
proof fn lemma_not_all_digits(s: Seq<char>, k: int)
    requires
        0 <= k < s.len(),
        !is_digit(s[k]),
    ensures
        digit_count(s) <= k,
    decreases k,
{
    if k > 0 && is_digit(s[0]) {
        lemma_not_all_digits(s.drop_first(), k - 1);
    }
}

/// Every text is one that neither begins nor ends with white space, with white space
/// around it.
pub proof fn lemma_parts(s: Seq<char>) -> (parts: (Seq<char>, Seq<char>, Seq<char>))
    ensures
        s == parts.0 + parts.1 + parts.2,
        is_blank(parts.0),
        is_tight(parts.1),
        is_blank(parts.2),
    decreases s.len(),
{
    if s.len() > 0 && is_space(s[0]) {
        let (a, m, b) = lemma_parts(s.drop_first());
        let front = seq![s[0]] + a;
        assert(s =~= seq![s[0]] + s.drop_first());
        assert(front + m + b =~= seq![s[0]] + (a + m + b));
        assert forall|i: int| 0 <= i < front.len() implies is_space(#[trigger] front[i]) by {
            if i > 0 {
                assert(is_space(a[i - 1]));
            }
        }
        (front, m, b)
    } else if s.len() > 0 && is_space(s.last()) {
        let (a, m, b) = lemma_parts(s.drop_last());
        let back = b.push(s.last());
        assert(s =~= s.drop_last().push(s.last()));
        assert(a + m + back =~= (a + m + b).push(s.last()));
        assert forall|i: int| 0 <= i < back.len() implies is_space(#[trigger] back[i]) by {
            if i < b.len() {
                assert(is_space(b[i]));
            }
        }
        (a, m, back)
    } else {
        let none = Seq::<char>::empty();
        assert(s =~= none + s + none);
        (none, s, none)
    }
}

/// White space at the end of a text does not change what it is trimmed to.
pub proof fn lemma_trimmed_more(s: Seq<char>, c: char)
    requires
        is_space(c),
    ensures
        trimmed(s.push(c)) == trimmed(s),
{
    let (a, m, b) = lemma_parts(s);
    let more = b.push(c);
    assert forall|i: int| 0 <= i < more.len() implies is_space(#[trigger] more[i]) by {
        if i < b.len() {
            assert(is_space(b[i]));
        }
    }
    assert(s.push(c) =~= a + m + more);
    law_trimmed(a, m, b);
    law_trimmed(a, m, more);
}

/// What is in neither of two texts is not in the two together.
pub proof fn lemma_not_in(a: Seq<char>, b: Seq<char>, c: char)
    requires
        !a.contains(c),
        !b.contains(c),
    ensures
        !(a + b).contains(c),
{
    let s = a + b;
    if s.contains(c) {
        let i = choose|i: int| 0 <= i < s.len() && s[i] == c;
        if i < a.len() {
            assert(a[i] == c);
        } else {
            assert(b[i - a.len()] == c);
        }
    }
}

/// A number that is not negative is written without a sign, and one that is with a `-`
/// before the number that it is less than nothing by.
pub proof fn law_signed_decimal(n: nat)
    ensures
        signed_decimal(n as int) == decimal(n),
        n > 0 ==> signed_decimal(-(n as int)) == seq!['-'] + decimal(n),
{
}

} // verus!
