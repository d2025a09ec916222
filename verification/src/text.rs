//! Characters and strings: the views the contracts speak of, and the small
//! operations the rest of the library is built from.
use vstd::prelude::*;
use vstd::utf8::*;

verus! {

// ---------------------------------------------------------------- views

/// The contents of a list of strings.
pub open spec fn texts(v: Seq<String>) -> Seq<Seq<char>> {
    Seq::new(v.len(), |i: int| v[i]@)
}

/// The contents of an optional string.
pub open spec fn opt_text(o: Option<String>) -> Option<Seq<char>> {
    match o {
        Some(s) => Some(s@),
        None => None,
    }
}

/// The first position at which `x` stands in `s`.
pub open spec fn first_index(s: Seq<Seq<char>>, x: Seq<char>) -> Option<int>
    decreases s.len(),
{
    if s.len() == 0 {
        None
    } else if s[0] == x {
        Some(0)
    } else {
        match first_index(s.drop_first(), x) {
            Some(i) => Some(i + 1),
            None => None,
        }
    }
}

/// What `first_index` means: the least index that holds `x`, if any does.
pub proof fn lemma_first_index(s: Seq<Seq<char>>, x: Seq<char>)
    ensures
        match first_index(s, x) {
            Some(i) => 0 <= i < s.len() && s[i] == x && forall|j: int|
                0 <= j < i ==> #[trigger] s[j] != x,
            None => forall|j: int| 0 <= j < s.len() ==> #[trigger] s[j] != x,
        },
        first_index(s, x) is Some <==> s.contains(x),
    decreases s.len(),
{
    if s.len() > 0 {
        let t = s.drop_first();
        lemma_first_index(t, x);
        if s[0] != x {
            assert forall|j: int| 0 < j < s.len() implies s[j] == #[trigger] t[j - 1] by {}
            match first_index(t, x) {
                Some(i) => {
                    assert(s[i + 1] == t[i]);
                    assert forall|j: int| 0 <= j < i + 1 implies #[trigger] s[j] != x by {
                        if j > 0 {
                            assert(t[j - 1] == s[j]);
                        }
                    }
                },
                None => {
                    assert forall|j: int| 0 <= j < s.len() implies #[trigger] s[j] != x by {
                        if j > 0 {
                            assert(t[j - 1] == s[j]);
                        }
                    }
                },
            }
        } else {
            assert(s.contains(x));
        }
    }
}

/// An index that holds `x` with none before it is the first one.
pub proof fn lemma_first_index_at(s: Seq<Seq<char>>, x: Seq<char>, i: int)
    requires
        0 <= i < s.len(),
        s[i] == x,
        forall|j: int| 0 <= j < i ==> #[trigger] s[j] != x,
    ensures
        first_index(s, x) == Some(i),
{
    lemma_first_index(s, x);
    let k = first_index(s, x)->0;
    if k < i {
        assert(s[k] != x);
    }
}

// ---------------------------------------------------------------- std

/// `str == str` compares the characters.
pub assume_specification[ <str as PartialEq>::eq ](a: &str, b: &str) -> (r: bool)
    ensures
        r == (a@ == b@),
;

/// `String::push` appends one character.
pub assume_specification[ String::push ](s: &mut String, c: char)
    ensures
        final(s)@ == old(s)@.push(c),
;

/// What `str::to_lowercase` makes of a string.
pub uninterp spec fn lowercase(s: Seq<char>) -> Seq<char>;

/// `str::to_lowercase`: the Unicode lowercase mapping of the whole string, a
/// function of the string alone.
#[verifier::external_body]
pub(crate) fn to_lowercase(s: &str) -> (r: String)
    ensures
        r@ == lowercase(s@),
{
    s.to_lowercase()
}

/// The first character that `char::to_lowercase` yields.
pub uninterp spec fn lowercase_first(c: char) -> char;

/// An ASCII decimal digit.
pub open spec fn digit_char(c: char) -> bool {
    '0' <= c <= '9'
}

/// The character by which `c` is ordered: its lowercase form, and for a digit the
/// digit itself. No character but a digit is ordered as a digit.
pub open spec fn folded(c: char) -> char {
    if digit_char(c) || digit_char(lowercase_first(c)) {
        c
    } else {
        lowercase_first(c)
    }
}

/// `char::to_lowercase`, of which the first character is taken. A character
/// without a lowercase form is mapped to itself, the digits among them, and no
/// other character has a digit for its lowercase form.
#[verifier::external_body]
pub(crate) fn char_lowercase_first(c: char) -> (r: char)
    ensures
        r == lowercase_first(c),
        r == folded(c),
{
    c.to_lowercase().next().unwrap_or(c)
}

/// What `String::from_utf8_lossy` makes of a run of bytes.
pub uninterp spec fn utf8_lossy(b: Seq<u8>) -> Seq<char>;

/// The text in a run of bytes: its UTF-8 decoding, and the lossy one where the
/// bytes are not UTF-8.
pub open spec fn utf8_text(b: Seq<u8>) -> Seq<char> {
    if valid_utf8(b) {
        decode_utf8(b)
    } else {
        utf8_lossy(b)
    }
}

/// `String::from_utf8_lossy`: valid UTF-8 is decoded as it stands; of other bytes
/// the result is a function of the bytes alone.
#[verifier::external_body]
pub(crate) fn from_utf8_lossy(b: &[u8]) -> (r: String)
    ensures
        r@ == utf8_lossy(b@),
        r@ == utf8_text(b@),
{
    String::from_utf8_lossy(b).to_string()
}

/// The UTF-8 bytes of a text read back as the text.
pub proof fn lemma_utf8_round_trip(s: Seq<char>)
    ensures
        utf8_text(encode_utf8(s)) == s,
{
    encode_utf8_valid_utf8(s);
    encode_utf8_decode_utf8(s);
}

// ---------------------------------------------------------------- characters

/// A code point of general category Cc.
pub open spec fn control_char(c: char) -> bool {
    c <= '\u{1f}' || '\u{7f}' <= c <= '\u{9f}'
}

/// Whether `c` is a control character.
pub fn is_control(c: char) -> (r: bool)
    ensures
        r == control_char(c),
{
    c <= '\u{1f}' || ('\u{7f}' <= c && c <= '\u{9f}')
}

/// A code point with the Unicode property White_Space.
pub open spec fn white_char(c: char) -> bool {
    ||| '\u{9}' <= c <= '\u{d}'
    ||| c == ' ' || c == '\u{85}' || c == '\u{a0}' || c == '\u{1680}'
    ||| '\u{2000}' <= c <= '\u{200a}'
    ||| c == '\u{2028}' || c == '\u{2029}' || c == '\u{202f}' || c == '\u{205f}' || c
        == '\u{3000}'
}

/// Whether `c` is white space.
pub fn is_whitespace(c: char) -> (r: bool)
    ensures
        r == white_char(c),
{
    ('\u{9}' <= c && c <= '\u{d}') || c == ' ' || c == '\u{85}' || c == '\u{a0}' || c == '\u{1680}'
        || ('\u{2000}' <= c && c <= '\u{200a}') || c == '\u{2028}' || c == '\u{2029}' || c
        == '\u{202f}' || c == '\u{205f}' || c == '\u{3000}'
}

/// Whether `c` is an ASCII decimal digit.
pub fn is_digit(c: char) -> (r: bool)
    ensures
        r == digit_char(c),
{
    '0' <= c && c <= '9'
}

// ---------------------------------------------------------------- strings

/// Whether two strings hold the same characters.
pub fn same(a: &str, b: &str) -> (r: bool)
    ensures
        r == (a@ == b@),
{
    *a == *b
}

/// The characters of a string.
pub fn chars_of(s: &str) -> (r: Vec<char>)
    ensures
        r@ == s@,
{
    let mut out: Vec<char> = Vec::new();
    for c in it: s.chars()
        invariant
            out@ == it.seq().subrange(0, it.index() as int),
            it.seq() == s@,
    {
        out.push(c);
    }
    out
}

/// The string made of the characters `v[from..to]`.
pub fn string_of(v: &Vec<char>, from: usize, to: usize) -> (r: String)
    requires
        from <= to <= v.len(),
    ensures
        r@ == v@.subrange(from as int, to as int),
{
    let mut out = String::new();
    let mut i: usize = from;
    while i < to
        invariant
            from <= i <= to <= v.len(),
            out@ == v@.subrange(from as int, i as int),
        decreases to - i,
    {
        out.push(v[i]);
        i = i + 1;
        assert(out@ =~= v@.subrange(from as int, i as int));
    }
    out
}

/// A copy of a string slice.
pub fn own(s: &str) -> (r: String)
    ensures
        r@ == s@,
{
    s.to_owned()
}

/// Two strings joined.
pub fn join2(a: &str, b: &str) -> (r: String)
    ensures
        r@ == a@ + b@,
{
    let mut out = a.to_owned();
    out.append(b);
    out
}

/// `s` without its leading white space.
pub open spec fn trim_start(s: Seq<char>) -> Seq<char>
    decreases s.len(),
{
    if s.len() > 0 && white_char(s[0]) {
        trim_start(s.drop_first())
    } else {
        s
    }
}

/// `s` without its trailing white space.
pub open spec fn trim_end(s: Seq<char>) -> Seq<char>
    decreases s.len(),
{
    if s.len() > 0 && white_char(s.last()) {
        trim_end(s.drop_last())
    } else {
        s
    }
}

/// `s` without leading and trailing white space.
pub open spec fn trimmed(s: Seq<char>) -> Seq<char> {
    trim_end(trim_start(s))
}

/// A text that starts with no white space is not trimmed to nothing.
pub proof fn lemma_trimmed_keeps_start(s: Seq<char>)
    requires
        s.len() > 0,
        !white_char(s[0]),
    ensures
        trimmed(s).len() > 0,
    decreases s.len(),
{
    if white_char(s.last()) {
        assert(s.len() > 1);
        assert(s.drop_last()[0] == s[0]);
        lemma_trimmed_keeps_start(s.drop_last());
    }
}

/// `s` without leading and trailing white space.
pub fn trim(s: &str) -> (r: String)
    ensures
        r@ == trimmed(s@),
{
    let v = chars_of(s);
    let mut lo: usize = 0;
    proof {
        assert(v@.subrange(0, v.len() as int) =~= v@);
    }
    while lo < v.len() && is_whitespace(v[lo])
        invariant
            lo <= v.len(),
            trim_start(v@) == trim_start(v@.subrange(lo as int, v.len() as int)),
        decreases v.len() - lo,
    {
        proof {
            let t = v@.subrange(lo as int, v.len() as int);
            assert(t[0] == v@[lo as int]);
            assert(t.drop_first() =~= v@.subrange(lo as int + 1, v.len() as int));
        }
        lo = lo + 1;
    }
    let ghost rest = v@.subrange(lo as int, v.len() as int);
    proof {
        if lo < v.len() {
            assert(rest[0] == v@[lo as int]);
        }
        assert(trim_start(v@) == rest);
    }
    let mut hi: usize = v.len();
    while hi > lo && is_whitespace(v[hi - 1])
        invariant
            lo <= hi <= v.len(),
            trim_end(rest) == trim_end(v@.subrange(lo as int, hi as int)),
        decreases hi - lo,
    {
        proof {
            let t = v@.subrange(lo as int, hi as int);
            assert(t.last() == v@[hi as int - 1]);
            assert(t.drop_last() =~= v@.subrange(lo as int, hi as int - 1));
        }
        hi = hi - 1;
    }
    proof {
        let t = v@.subrange(lo as int, hi as int);
        if hi > lo {
            assert(t.last() == v@[hi as int - 1]);
        }
    }
    string_of(&v, lo, hi)
}

/// The decimal digit of value `d`.
pub open spec fn digit_of(d: nat) -> char {
    (48 + d) as char
}

/// `n` in decimal.
pub open spec fn decimal(n: nat) -> Seq<char>
    decreases n,
{
    if n < 10 {
        seq![digit_of(n)]
    } else {
        decimal(n / 10).push(digit_of(n % 10))
    }
}

/// `n` in decimal.
pub fn decimal_string(n: u64) -> (r: String)
    ensures
        r@ == decimal(n as nat),
    decreases n,
{
    let d: u8 = (n % 10) as u8;
    let c: char = (48 + d) as char;
    if n < 10 {
        let mut out = String::new();
        out.push(c);
        assert(out@ =~= seq![digit_of(n as nat)]);
        out
    } else {
        let mut out = decimal_string(n / 10);
        out.push(c);
        out
    }
}

/// `s` ends in `t`.
pub open spec fn ends_in(s: Seq<char>, t: Seq<char>) -> bool {
    t.len() <= s.len() && s.subrange(s.len() - t.len(), s.len() as int) == t
}

/// Whether `s` ends in `t`.
pub fn ends_with(s: &Vec<char>, t: &Vec<char>) -> (r: bool)
    ensures
        r == ends_in(s@, t@),
{
    if t.len() > s.len() {
        return false;
    }
    let shift: usize = s.len() - t.len();
    let mut i: usize = 0;
    while i < t.len()
        invariant
            i <= t.len(),
            shift == s.len() - t.len(),
            forall|j: int| 0 <= j < i ==> #[trigger] t@[j] == s@[shift + j],
        decreases t.len() - i,
    {
        if s[shift + i] != t[i] {
            proof {
                let u = s@.subrange(shift as int, s@.len() as int);
                assert(u[i as int] == s@[shift + i]);
            }
            return false;
        }
        i = i + 1;
    }
    assert(s@.subrange(shift as int, s@.len() as int) =~= t@);
    true
}

/// The part of `s` before the first `stop`, all of it where there is none.
pub open spec fn before(s: Seq<char>, stop: char) -> Seq<char>
    decreases s.len(),
{
    if s.len() == 0 || s[0] == stop {
        Seq::empty()
    } else {
        seq![s[0]] + before(s.drop_first(), stop)
    }
}

/// `before` is the longest prefix without `stop`.
pub proof fn lemma_before(s: Seq<char>, stop: char, i: int)
    requires
        0 <= i <= s.len(),
        forall|j: int| 0 <= j < i ==> #[trigger] s[j] != stop,
        i == s.len() || s[i] == stop,
    ensures
        before(s, stop) == s.subrange(0, i),
    decreases s.len(),
{
    if i > 0 {
        let t = s.drop_first();
        assert forall|j: int| 0 <= j < i - 1 implies #[trigger] t[j] != stop by {
            assert(s[j + 1] != stop);
        }
        lemma_before(t, stop, i - 1);
        assert(s[0] != stop);
        assert(seq![s[0]] + t.subrange(0, i - 1) =~= s.subrange(0, i));
    } else {
        assert(s.subrange(0, 0) =~= Seq::empty());
    }
}

/// The number of characters before the first `stop`.
pub fn len_before(s: &Vec<char>, stop: char) -> (r: usize)
    ensures
        r <= s.len(),
        before(s@, stop) == s@.subrange(0, r as int),
        forall|j: int| 0 <= j < r ==> #[trigger] s@[j] != stop,
        r < s.len() ==> s@[r as int] == stop,
{
    let mut i: usize = 0;
    while i < s.len() && s[i] != stop
        invariant
            i <= s.len(),
            forall|j: int| 0 <= j < i ==> #[trigger] s@[j] != stop,
        decreases s.len() - i,
    {
        i = i + 1;
    }
    proof {
        lemma_before(s@, stop, i as int);
    }
    i
}

// ---------------------------------------------------------------- lists of strings

/// The first position of `x` in `list`.
pub fn position_of(list: &Vec<String>, x: &str) -> (r: Option<usize>)
    ensures
        match r {
            Some(i) => first_index(texts(list@), x@) == Some(i as int),
            None => first_index(texts(list@), x@) is None,
        },
        r is Some <==> texts(list@).contains(x@),
{
    let mut i: usize = 0;
    while i < list.len()
        invariant
            i <= list.len(),
            forall|j: int| 0 <= j < i ==> #[trigger] texts(list@)[j] != x@,
        decreases list.len() - i,
    {
        if same(list[i].as_str(), x) {
            proof {
                lemma_first_index_at(texts(list@), x@, i as int);
                lemma_first_index(texts(list@), x@);
            }
            return Some(i);
        }
        i = i + 1;
    }
    proof {
        lemma_first_index(texts(list@), x@);
    }
    None
}

/// Whether `x` stands in `list`.
pub fn has_text(list: &Vec<String>, x: &str) -> (r: bool)
    ensures
        r == texts(list@).contains(x@),
{
    position_of(list, x).is_some()
}

/// A copy of a list of strings.
pub fn copy_texts(list: &Vec<String>) -> (r: Vec<String>)
    ensures
        r@ == list@,
        texts(r@) == texts(list@),
{
    let mut out: Vec<String> = Vec::new();
    for i in 0..list.len()
        invariant
            out@ == list@.subrange(0, i as int),
    {
        out.push(list[i].clone());
        assert(out@ =~= list@.subrange(0, i as int + 1));
    }
    assert(out@ =~= list@);
    out
}

/// The entries of `parts`, with `sep` between them.
pub open spec fn joined(parts: Seq<Seq<char>>, sep: Seq<char>) -> Seq<char>
    decreases parts.len(),
{
    if parts.len() == 0 {
        Seq::empty()
    } else if parts.len() == 1 {
        parts[0]
    } else {
        joined(parts.drop_last(), sep) + sep + parts.last()
    }
}

/// The entries of `parts`, with `sep` between them.
pub fn join(parts: &Vec<String>, sep: &str) -> (r: String)
    ensures
        r@ == joined(texts(parts@), sep@),
{
    let ghost p = texts(parts@);
    let mut out = String::new();
    let mut i: usize = 0;
    assert(p.take(0) =~= Seq::empty());
    assert(out@ =~= Seq::empty());
    while i < parts.len()
        invariant
            i <= parts.len(),
            p == texts(parts@),
            out@ == joined(p.take(i as int), sep@),
        decreases parts.len() - i,
    {
        assert(p.take(i + 1).drop_last() =~= p.take(i as int));
        assert(p.take(i + 1).last() == parts@[i as int]@);
        if i > 0 {
            out = join2(out.as_str(), sep);
            out = join2(out.as_str(), parts[i].as_str());
        } else {
            out = parts[i].clone();
        }
        i = i + 1;
    }
    assert(p.take(p.len() as int) =~= p);
    out
}

// ---------------------------------------------------------------- numbers

/// All characters are digits.
pub open spec fn all_digits(s: Seq<char>) -> bool {
    forall|i: int| 0 <= i < s.len() ==> digit_char(#[trigger] s[i])
}

/// The value of digits.
pub open spec fn digits_value(s: Seq<char>) -> nat
    decreases s.len(),
{
    if s.len() == 0 {
        0
    } else {
        digits_value(s.drop_last()) * 10 + (s.last() as int - '0' as int) as nat
    }
}

/// A number without its sign.
pub open spec fn unsigned_part(s: Seq<char>, minus: bool) -> Seq<char> {
    if s.len() > 0 && (s[0] == '+' || (minus && s[0] == '-')) {
        s.drop_first()
    } else {
        s
    }
}

/// The number that `s` writes, of at most `limit`: digits, after a `+` or not.
pub open spec fn number_in(s: Seq<char>, limit: nat) -> Option<nat> {
    let d = unsigned_part(s, false);
    if d.len() > 0 && all_digits(d) && digits_value(d) <= limit {
        Some(digits_value(d))
    } else {
        None
    }
}

/// The number that `s` writes, in the range of `i32`: digits, after a sign or not.
pub open spec fn signed_number_in(s: Seq<char>) -> Option<int> {
    let d = unsigned_part(s, true);
    if d.len() > 0 && all_digits(d) {
        if s[0] == '-' {
            if digits_value(d) <= 0x8000_0000 {
                Some(-(digits_value(d) as int))
            } else {
                None
            }
        } else if digits_value(d) <= 0x7fff_ffff {
            Some(digits_value(d) as int)
        } else {
            None
        }
    } else {
        None
    }
}

/// The value of the digits of `v` from `from` on, but at most one more than
/// `u32::MAX`; none where there are none or one is no digit.
fn value_from(v: &Vec<char>, from: usize) -> (r: Option<u64>)
    requires
        from <= v.len(),
    ensures
        ({
            let d = v@.skip(from as int);
            match r {
                Some(n) => d.len() > 0 && all_digits(d) && (n <= u32::MAX ==> n == digits_value(d))
                    && (n > u32::MAX ==> digits_value(d) > u32::MAX),
                None => d.len() == 0 || !all_digits(d),
            }
        }),
{
    let ghost d = v@.skip(from as int);
    if from >= v.len() {
        return None;
    }
    let mut n: u64 = 0;
    let mut i: usize = from;
    assert(d.take(0) =~= Seq::empty());
    while i < v.len()
        invariant
            from <= i <= v.len(),
            d == v@.skip(from as int),
            d.len() > 0,
            n <= 0x1_0000_0000,
            n <= u32::MAX ==> n == digits_value(d.take(i - from)),
            n > u32::MAX ==> digits_value(d.take(i - from)) > u32::MAX,
            forall|k: int| 0 <= k < i - from ==> digit_char(#[trigger] d[k]),
        decreases v.len() - i,
    {
        let c = v[i];
        assert(d[i - from] == c);
        if !is_digit(c) {
            return None;
        }
        assert(d.take(i + 1 - from).drop_last() =~= d.take(i - from));
        assert(d.take(i + 1 - from).last() == c);
        let x: u64 = (c as u32 - '0' as u32) as u64;
        let next: u64 = n * 10 + x;
        n = if next > 0xffff_ffff {
            0x1_0000_0000
        } else {
            next
        };
        i = i + 1;
    }
    assert(d.take(d.len() as int) =~= d);
    Some(n)
}

/// The number that `s` writes, in the range of `u32`.
pub fn parse_u32(s: &str) -> (r: Option<u32>)
    ensures
        match r {
            Some(n) => number_in(s@, u32::MAX as nat) == Some(n as nat),
            None => number_in(s@, u32::MAX as nat) is None,
        },
{
    let v = chars_of(s);
    let from: usize = if v.len() > 0 && v[0] == '+' {
        1
    } else {
        0
    };
    assert(v@.skip(from as int) =~= unsigned_part(s@, false));
    match value_from(&v, from) {
        None => None,
        Some(n) => {
            if n <= 0xffff_ffff {
                Some(n as u32)
            } else {
                None
            }
        },
    }
}

/// The number that `s` writes, in the range of `i32`.
pub fn parse_i32(s: &str) -> (r: Option<i32>)
    ensures
        match r {
            Some(n) => signed_number_in(s@) == Some(n as int),
            None => signed_number_in(s@) is None,
        },
{
    let v = chars_of(s);
    let from: usize = if v.len() > 0 && (v[0] == '+' || v[0] == '-') {
        1
    } else {
        0
    };
    assert(v@.skip(from as int) =~= unsigned_part(s@, true));
    match value_from(&v, from) {
        None => None,
        Some(n) => {
            if v[0] == '-' {
                if n <= 0x8000_0000 {
                    Some((-(n as i64)) as i32)
                } else {
                    None
                }
            } else if n <= 0x7fff_ffff {
                Some(n as i32)
            } else {
                None
            }
        },
    }
}

/// The decimal digits of `n`, at least `width` of them.
pub open spec fn padded(n: nat, width: nat) -> Seq<char> {
    let d = decimal(n);
    if d.len() < width {
        Seq::new((width - d.len()) as nat, |i: int| '0') + d
    } else {
        d
    }
}

/// The decimal digits of `n`, at least `width` of them.
pub fn padded_string(n: u64, width: usize) -> (r: String)
    ensures
        r@ == padded(n as nat, width as nat),
{
    let d = chars_of(decimal_string(n).as_str());
    let mut out: Vec<char> = Vec::new();
    let missing: usize = if d.len() < width {
        width - d.len()
    } else {
        0
    };
    let mut i: usize = 0;
    while i < missing
        invariant
            i <= missing,
            out@ == Seq::new(i as nat, |k: int| '0'),
        decreases missing - i,
    {
        out.push('0');
        assert(out@ =~= Seq::new((i + 1) as nat, |k: int| '0'));
        i = i + 1;
    }
    let ghost zeros = out@;
    let mut j: usize = 0;
    while j < d.len()
        invariant
            j <= d.len(),
            out@ == zeros + d@.take(j as int),
        decreases d.len() - j,
    {
        out.push(d[j]);
        assert(out@ =~= zeros + d@.take(j + 1));
        j = j + 1;
    }
    assert(out@ =~= padded(n as nat, width as nat));
    let r = string_of(&out, 0, out.len());
    assert(out@.subrange(0, out@.len() as int) =~= out@);
    r
}

// ---------------------------------------------------------------- laws

proof fn lemma_trim_start(s: Seq<char>) -> (a: int)
    ensures
        0 <= a <= s.len(),
        trim_start(s) == s.skip(a),
        forall|i: int| 0 <= i < a ==> white_char(#[trigger] s[i]),
        a < s.len() ==> !white_char(s[a]),
    decreases s.len(),
{
    if s.len() > 0 && white_char(s[0]) {
        let t = s.drop_first();
        let b = lemma_trim_start(t);
        assert(t.skip(b) =~= s.skip(b + 1));
        assert forall|i: int| 0 <= i < b + 1 implies white_char(#[trigger] s[i]) by {
            if i > 0 {
                assert(t[i - 1] == s[i]);
            }
        }
        b + 1
    } else {
        assert(s.skip(0) =~= s);
        0
    }
}

proof fn lemma_trim_end(s: Seq<char>) -> (b: int)
    ensures
        0 <= b <= s.len(),
        trim_end(s) == s.take(b),
        forall|i: int| b <= i < s.len() ==> white_char(#[trigger] s[i]),
        b > 0 ==> !white_char(s[b - 1]),
    decreases s.len(),
{
    if s.len() > 0 && white_char(s.last()) {
        let t = s.drop_last();
        let b = lemma_trim_end(t);
        assert(t.take(b) =~= s.take(b));
        assert forall|i: int| b <= i < s.len() implies white_char(#[trigger] s[i]) by {
            if i < t.len() {
                assert(t[i] == s[i]);
            }
        }
        b
    } else {
        assert(s.take(s.len() as int) =~= s);
        s.len() as int
    }
}

/// A trimmed text is the part between the white space around it: it neither begins nor
/// ends with any, and all that was cut off is white space.
pub proof fn law_trimmed_is_the_middle(s: Seq<char>)
    ensures
        trimmed(s).len() > 0 ==> !white_char(trimmed(s)[0]) && !white_char(trimmed(s).last()),
        exists|a: int, b: int|
            {
                &&& 0 <= a <= b <= s.len()
                &&& trimmed(s) == #[trigger] s.subrange(a, b)
                &&& forall|i: int| 0 <= i < a ==> white_char(#[trigger] s[i])
                &&& forall|i: int| b <= i < s.len() ==> white_char(#[trigger] s[i])
            },
{
    let a = lemma_trim_start(s);
    let t = s.skip(a);
    let n = lemma_trim_end(t);
    let b = a + n;
    assert(t.take(n) =~= s.subrange(a, b));
    assert forall|i: int| b <= i < s.len() implies white_char(#[trigger] s[i]) by {
        assert(t[i - a] == s[i]);
    }
    if n > 0 {
        assert(t[0] == s[a]);
        assert(trimmed(s)[0] == t[0]);
        assert(trimmed(s).last() == t[n - 1]);
    }
    assert(trimmed(s) == s.subrange(a, b));
}

/// Digits write a number in base ten.
pub proof fn law_digits_have_their_value(s: Seq<char>, c: char)
    requires
        '0' <= c <= '9',
    ensures
        digits_value(Seq::empty()) == 0,
        digits_value(s.push(c)) == 10 * digits_value(s) + (c as int - '0' as int),
{
    assert(s.push(c).drop_last() =~= s);
}

/// A number in decimal is digits only, with no 0 before it, and reads back as the number.
pub proof fn law_decimal_reads_back(n: nat)
    ensures
        decimal(n).len() > 0,
        all_digits(decimal(n)),
        digits_value(decimal(n)) == n,
        n > 0 ==> decimal(n)[0] != '0',
        n == 0 ==> decimal(n).len() == 1,
    decreases n,
{
    let d = decimal(n);
    if n < 10 {
        assert(digit_char(digit_of(n)));
        assert(d.drop_last() =~= Seq::<char>::empty());
        assert(digits_value(d.drop_last()) == 0);
    } else {
        law_decimal_reads_back(n / 10);
        let p = decimal(n / 10);
        assert(digit_char(digit_of(n % 10)));
        assert(d.drop_last() =~= p);
        assert forall|i: int| 0 <= i < d.len() implies digit_char(#[trigger] d[i]) by {
            if i < p.len() {
                assert(d[i] == p[i]);
            }
        }
        assert(d[0] == p[0]);
    }
}

/// A number that is written is read: after a `+` or without one, and after a `-` as its
/// opposite where a sign is read.
pub proof fn law_written_numbers_are_read(n: nat, limit: nat)
    ensures
        number_in(decimal(n), limit) == (if n <= limit {
            Some(n)
        } else {
            None
        }),
        number_in(seq!['+'] + decimal(n), limit) == number_in(decimal(n), limit),
        number_in(seq!['-'] + decimal(n), limit) is None,
        n <= i32::MAX ==> signed_number_in(decimal(n)) == Some(n as int),
        n > i32::MAX ==> signed_number_in(decimal(n)) is None,
        n <= i32::MAX + 1 ==> signed_number_in(seq!['-'] + decimal(n)) == Some(-(n as int)),
        n > i32::MAX + 1 ==> signed_number_in(seq!['-'] + decimal(n)) is None,
        number_in(Seq::empty(), limit) is None,
{
    law_decimal_reads_back(n);
    let d = decimal(n);
    assert(digit_char(d[0]));
    assert((seq!['+'] + d).drop_first() =~= d);
    let m = seq!['-'] + d;
    assert(m.drop_first() =~= d);
    assert(m[0] == '-');
    assert(!digit_char(m[0]));
    assert(!all_digits(m));
}

/// A text that holds anything but digits, after its sign, is no number.
pub proof fn law_only_digits_are_numbers(s: Seq<char>, limit: nat, i: int)
    requires
        0 < i < s.len(),
        !('0' <= s[i] <= '9'),
    ensures
        number_in(s, limit) is None,
        signed_number_in(s) is None,
{
    let t = s.drop_first();
    assert(t[i - 1] == s[i]);
    assert(!digit_char(t[i - 1]));
    assert(!digit_char(s[i]));
    assert(!all_digits(t));
    assert(!all_digits(s));
}

/// Joined parts follow each other with the separator between them.
pub proof fn law_parts_are_joined(parts: Seq<Seq<char>>, sep: Seq<char>, x: Seq<char>)
    ensures
        joined(Seq::empty(), sep) == Seq::<char>::empty(),
        joined(seq![x], sep) == x,
        parts.len() > 0 ==> joined(parts.push(x), sep) == joined(parts, sep) + sep + x,
{
    assert(parts.push(x).drop_last() =~= parts);
}

/// A text ends in another if and only if that follows some beginning of it.
pub proof fn law_ends_in_what_follows(p: Seq<char>, s: Seq<char>, t: Seq<char>)
    ensures
        ends_in(p + t, t),
        ends_in(s, t) ==> t.len() <= s.len() && s == s.take(s.len() - t.len()) + t,
{
    assert((p + t).subrange((p + t).len() - t.len(), (p + t).len() as int) =~= t);
    if ends_in(s, t) {
        let n = s.len() - t.len();
        assert(s =~= s.take(n) + s.subrange(n, s.len() as int));
    }
}

/// What comes before a character holds none of it, and is all of the text or is followed
/// by it.
pub proof fn law_before_the_first(s: Seq<char>, stop: char)
    ensures
        !before(s, stop).contains(stop),
        before(s, stop).len() <= s.len(),
        before(s, stop) == s.take(before(s, stop).len() as int),
        before(s, stop).len() < s.len() ==> s[before(s, stop).len() as int] == stop,
    decreases s.len(),
{
    let b = before(s, stop);
    if s.len() > 0 && s[0] != stop {
        let t = s.drop_first();
        law_before_the_first(t, stop);
        let c = before(t, stop);
        assert(b =~= seq![s[0]] + c);
        assert(b =~= s.take(b.len() as int)) by {
            assert forall|i: int| 0 <= i < b.len() implies b[i] == s[i] by {
                if i > 0 {
                    assert(c[i - 1] == t[i - 1]);
                }
            }
        }
        if b.contains(stop) {
            let i = choose|i: int| 0 <= i < b.len() && b[i] == stop;
            assert(c[i - 1] == stop);
        }
    } else {
        assert(b =~= s.take(0));
    }
}

/// A padded number has zeros before it up to its width, and its value.
pub proof fn law_padding_keeps_the_value(n: nat, width: nat)
    ensures
        padded(n, width).len() >= width,
        padded(n, width).len() == width || padded(n, width) == decimal(n),
        ends_in(padded(n, width), decimal(n)),
        forall|i: int|
            0 <= i < padded(n, width).len() - decimal(n).len() ==> #[trigger] padded(n, width)[i]
                == '0',
        digits_value(padded(n, width)) == n,
{
    let d = decimal(n);
    law_decimal_reads_back(n);
    if d.len() < width {
        let k = (width - d.len()) as nat;
        let z = Seq::new(k, |i: int| '0');
        law_ends_in_what_follows(z, d, d);
        lemma_zeros(k, d);
    } else {
        law_ends_in_what_follows(Seq::empty(), d, d);
        assert(Seq::<char>::empty() + d =~= d);
    }
}

proof fn lemma_zeros(k: nat, d: Seq<char>)
    ensures
        digits_value(Seq::new(k, |i: int| '0') + d) == digits_value(d),
    decreases k + d.len(),
{
    let z = Seq::new(k, |i: int| '0');
    let s = z + d;
    if d.len() > 0 {
        lemma_zeros(k, d.drop_last());
        assert(s.drop_last() =~= z + d.drop_last());
    } else if k > 0 {
        let y = Seq::new((k - 1) as nat, |i: int| '0');
        lemma_zeros((k - 1) as nat, d);
        assert(s.drop_last() =~= y + d);
        assert(s.last() == '0');
    }
}

/// White space is what Unicode calls so: the controls from tab to carriage return, the next
/// line, the line and paragraph separators, and the spaces, those without a break among them.
pub proof fn law_white_space_is_unicodes(c: char)
    ensures
        white_char(c) <==> seq![
            0x9u32,
            0xa,
            0xb,
            0xc,
            0xd,
            0x20,
            0x85,
            0xa0,
            0x1680,
            0x2000,
            0x2001,
            0x2002,
            0x2003,
            0x2004,
            0x2005,
            0x2006,
            0x2007,
            0x2008,
            0x2009,
            0x200a,
            0x2028,
            0x2029,
            0x202f,
            0x205f,
            0x3000,
        ].contains(c as u32),
{
    let s = seq![
        0x9u32,
        0xa,
        0xb,
        0xc,
        0xd,
        0x20,
        0x85,
        0xa0,
        0x1680,
        0x2000,
        0x2001,
        0x2002,
        0x2003,
        0x2004,
        0x2005,
        0x2006,
        0x2007,
        0x2008,
        0x2009,
        0x200a,
        0x2028,
        0x2029,
        0x202f,
        0x205f,
        0x3000,
    ];
    let n = c as u32;
    if white_char(c) {
        let i = if n <= 0xd {
            n - 0x9
        } else if n == 0x20 {
            5
        } else if n == 0x85 {
            6
        } else if n == 0xa0 {
            7
        } else if n == 0x1680 {
            8
        } else if n <= 0x200a {
            n - 0x2000 + 9
        } else if n == 0x2028 {
            20
        } else if n == 0x2029 {
            21
        } else if n == 0x202f {
            22
        } else if n == 0x205f {
            23
        } else {
            24
        };
        assert(s[i] == n);
    }
}

} // verus!
