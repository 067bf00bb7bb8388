//! Text: comparison, search, decimal numbers, and the few conversions the standard library does.

use vstd::prelude::*;
use vstd::string::StringExecFns;
use vstd::utf8::is_ascii_chars;

verus! {

/// `String::push`: appends one character to the text.
pub assume_specification[ String::push ](s: &mut String, c: char)
    ensures
        final(s)@ == old(s)@.push(c),
;

/// What `String::from_utf8_lossy` makes of a byte string.
pub uninterp spec fn lossy_text(bytes: Seq<u8>) -> Seq<char>;

/// What `str::to_lowercase` makes of a text.
pub uninterp spec fn lowercase_text(s: Seq<char>) -> Seq<char>;

/// `String::from_utf8_lossy`: decodes UTF-8, with replacement characters where the input is not
/// valid. Valid UTF-8 decodes to the text that it encodes.
#[verifier::external_body]
pub(crate) fn decode_lossy(bytes: &[u8]) -> (r: String)
    ensures
        r@ == lossy_text(bytes@),
        vstd::utf8::valid_utf8(bytes@) ==> r@ == vstd::utf8::decode_utf8(bytes@),
{
    String::from_utf8_lossy(bytes).into_owned()
}

/// The lower case of an ASCII letter. Any other character stays.
pub open spec fn lower_char(c: char) -> char {
    if 'A' <= c && c <= 'Z' {
        (c as u32 + 32) as char
    } else {
        c
    }
}

/// A text with its ASCII letters in lower case.
pub open spec fn lower_ascii(s: Seq<char>) -> Seq<char> {
    s.map_values(|c: char| lower_char(c))
}

/// The lower case of a text: letter by letter where it is ASCII, else as Unicode defines it.
pub open spec fn lowered_text(s: Seq<char>) -> Seq<char> {
    if is_ascii_chars(s) {
        lower_ascii(s)
    } else {
        lowercase_text(s)
    }
}

/// `str::to_lowercase`: maps the text to lower case as Unicode defines it. In an ASCII text that
/// maps each of the letters from `A` to `Z` to its lower case, and leaves every other character.
/// What becomes of other texts is left to the name.
#[verifier::external_body]
pub(crate) fn lowercase(s: &str) -> (r: String)
    ensures
        r@ == lowercase_text(s@),
        is_ascii_chars(s@) ==> r@ == lower_ascii(s@),
{
    s.to_lowercase()
}

/// Whether a character is white space as Unicode defines it.
pub open spec fn is_white(c: char) -> bool {
    ||| '\u{9}' <= c && c <= '\u{d}'
    ||| c == '\u{20}'
    ||| c == '\u{85}'
    ||| c == '\u{a0}'
    ||| c == '\u{1680}'
    ||| '\u{2000}' <= c && c <= '\u{200a}'
    ||| c == '\u{2028}'
    ||| c == '\u{2029}'
    ||| c == '\u{202f}'
    ||| c == '\u{205f}'
    ||| c == '\u{3000}'
}

/// A text without its leading and trailing white space.
pub open spec fn trimmed_text(s: Seq<char>) -> Seq<char>
    decreases s.len(),
{
    if s.len() == 0 {
        s
    } else if is_white(s[0]) {
        trimmed_text(s.skip(1))
    } else if is_white(s.last()) {
        trimmed_text(s.drop_last())
    } else {
        s
    }
}

fn white(c: char) -> (r: bool)
    ensures
        r == is_white(c),
{
    ('\u{9}' <= c && c <= '\u{d}') || c == '\u{20}' || c == '\u{85}' || c == '\u{a0}' || c
        == '\u{1680}' || ('\u{2000}' <= c && c <= '\u{200a}') || c == '\u{2028}' || c
        == '\u{2029}' || c == '\u{202f}' || c == '\u{205f}' || c == '\u{3000}'
}

/// A text without its leading and trailing white space.
pub fn trim(s: &str) -> (r: String)
    ensures
        r@ == trimmed_text(s@),
{
    let chars = chars_of(s);
    let mut start: usize = 0;
    let mut end: usize = chars.len();
    assert(chars@.subrange(0, end as int) =~= s@);
    while start < end && white(chars[start])
        invariant
            start <= end == chars.len(),
            trimmed_text(s@) == trimmed_text(chars@.subrange(start as int, end as int)),
        decreases end - start,
    {
        assert(chars@.subrange(start as int, end as int).skip(1) =~= chars@.subrange(
            start + 1,
            end as int,
        ));
        start += 1;
    }
    while start < end && white(chars[end - 1])
        invariant
            start <= end <= chars.len(),
            start < end ==> !is_white(chars@[start as int]),
            trimmed_text(s@) == trimmed_text(chars@.subrange(start as int, end as int)),
        decreases end - start,
    {
        assert(chars@.subrange(start as int, end as int).drop_last() =~= chars@.subrange(
            start as int,
            end - 1,
        ));
        end -= 1;
    }
    let mut out = String::new();
    let mut i: usize = start;
    while i < end
        invariant
            start <= i <= end <= chars.len(),
            out@ == chars@.subrange(start as int, i as int),
        decreases end - i,
    {
        out.push(chars[i]);
        i += 1;
        assert(out@ =~= chars@.subrange(start as int, i as int));
    }
    out
}

/// A text for a program in C, which ends a text at a zero: one that holds a zero is left empty.
pub open spec fn c_text(s: Seq<char>) -> Seq<char> {
    if s.contains('\0') {
        Seq::empty()
    } else {
        s
    }
}

/// A text for a program in C.
pub fn text_for_c(s: &str) -> (r: String)
    ensures
        r@ == c_text(s@),
{
    let chars = chars_of(s);
    for i in 0..chars.len()
        invariant
            chars@ == s@,
            forall|k: int| 0 <= k < i ==> #[trigger] chars@[k] != '\0',
    {
        if chars[i] == '\0' {
            assert(s@.contains(chars@[i as int]));
            return String::new();
        }
    }
    s.to_owned()
}

/// Whether two texts are equal.
pub fn text_is(a: &str, b: &str) -> (r: bool)
    ensures
        r == (a@ == b@),
{
    a.to_owned() == b.to_owned()
}

/// The characters of a text.
pub fn chars_of(s: &str) -> (r: Vec<char>)
    ensures
        r@ == s@,
{
    let mut out: Vec<char> = Vec::new();
    for c in it: s.chars()
        invariant
            it.seq() == s@,
            out@ == s@.take(it.index()),
    {
        assert(s@.take(it.index() + 1) =~= s@.take(it.index()).push(c));
        out.push(c);
    }
    assert(s@.take(s@.len() as int) =~= s@);
    out
}

/// Whether `needle` stands in `hay` at position `i`.
pub open spec fn occurs_at(hay: Seq<char>, needle: Seq<char>, i: int) -> bool {
    0 <= i && i + needle.len() <= hay.len() && hay.subrange(i, i + needle.len()) == needle
}

/// Whether `needle` occurs in `hay`.
pub open spec fn occurs_in(hay: Seq<char>, needle: Seq<char>) -> bool {
    exists|i: int| #[trigger] occurs_at(hay, needle, i)
}

fn matches_at(hay: &Vec<char>, needle: &Vec<char>, i: usize) -> (r: bool)
    requires
        i + needle@.len() <= hay@.len(),
    ensures
        r == occurs_at(hay@, needle@, i as int),
{
    let mut j: usize = 0;
    while j < needle.len()
        invariant
            i + needle@.len() <= hay.len(),
            j <= needle@.len(),
            forall|k: int| 0 <= k < j ==> hay@[i + k] == needle@[k],
        decreases needle@.len() - j,
    {
        if hay[i + j] != needle[j] {
            assert(hay@.subrange(i as int, i + needle@.len())[j as int] != needle@[j as int]);
            return false;
        }
        j += 1;
    }
    assert(hay@.subrange(i as int, i + needle@.len()) =~= needle@);
    true
}

/// Whether `needle` occurs in `hay`.
pub fn contains_text(hay: &str, needle: &str) -> (r: bool)
    ensures
        r == occurs_in(hay@, needle@),
{
    let h = chars_of(hay);
    let n = chars_of(needle);
    if n.len() > h.len() {
        return false;
    }
    let last: usize = h.len() - n.len();
    let mut i: usize = 0;
    while i <= last
        invariant
            h@ == hay@,
            n@ == needle@,
            last + n@.len() == h@.len(),
            i <= last + 1,
            forall|k: int| 0 <= k < i ==> !occurs_at(hay@, needle@, k),
        decreases last + 1 - i,
    {
        if matches_at(&h, &n, i) {
            return true;
        }
        if i == last {
            assert forall|k: int| !occurs_at(hay@, needle@, k) by {}
            return false;
        }
        i += 1;
    }
    false
}

/// Whether a character is an ASCII digit.
pub open spec fn is_digit(c: char) -> bool {
    '0' <= c && c <= '9'
}

/// Whether a text is a non-empty run of ASCII digits.
pub open spec fn is_digits(s: Seq<char>) -> bool {
    s.len() > 0 && forall|i: int| 0 <= i < s.len() ==> is_digit(#[trigger] s[i])
}

/// The number that a run of decimal digits stands for.
pub open spec fn digits_value(s: Seq<char>) -> nat
    decreases s.len(),
{
    if s.len() == 0 {
        0
    } else {
        10 * digits_value(s.drop_last()) + (s.last() as nat - '0' as nat) as nat
    }
}

/// The integer that a text denotes: an optional sign, then one or more digits. A minus sign
/// stands only where `signed` holds.
pub open spec fn integer_text(s: Seq<char>, signed: bool) -> Option<int> {
    if s.len() > 0 && s[0] == '-' && signed {
        if is_digits(s.skip(1)) {
            Some(-(digits_value(s.skip(1)) as int))
        } else {
            None
        }
    } else if s.len() > 0 && s[0] == '+' {
        if is_digits(s.skip(1)) {
            Some(digits_value(s.skip(1)) as int)
        } else {
            None
        }
    } else if is_digits(s) {
        Some(digits_value(s) as int)
    } else {
        None
    }
}

/// The 32-bit signed integer that a text denotes.
pub open spec fn i32_text(s: Seq<char>) -> Option<i32> {
    match integer_text(s, true) {
        Some(v) => if i32::MIN <= v <= i32::MAX {
            Some(v as i32)
        } else {
            None
        },
        None => None,
    }
}

/// The 32-bit unsigned integer that a text denotes.
pub open spec fn u32_text(s: Seq<char>) -> Option<u32> {
    match integer_text(s, false) {
        Some(v) => if v <= u32::MAX {
            Some(v as u32)
        } else {
            None
        },
        None => None,
    }
}

/// Reads the digits from `start` on. Values of 2^32 and more come out as 2^32.
fn read_digits(s: &Vec<char>, start: usize) -> (r: Option<u64>)
    requires
        start <= s@.len(),
    ensures
        r is Some <==> is_digits(s@.skip(start as int)),
        r matches Some(v) ==> {
            let d = digits_value(s@.skip(start as int));
            v == if d < 0x1_0000_0000 { d as int } else { 0x1_0000_0000 }
        },
{
    let ghost t = s@.skip(start as int);
    if start >= s.len() {
        return None;
    }
    let mut acc: u64 = 0;
    let mut i: usize = start;
    assert(t.take(0) =~= Seq::<char>::empty());
    while i < s.len()
        invariant
            start <= i <= s@.len(),
            t == s@.skip(start as int),
            forall|k: int| 0 <= k < i - start ==> is_digit(#[trigger] t[k]),
            acc == if digits_value(t.take(i - start)) < 0x1_0000_0000 {
                digits_value(t.take(i - start)) as int
            } else {
                0x1_0000_0000
            },
        decreases s@.len() - i,
    {
        let c: char = s[i];
        assert(t[i - start] == c);
        if !('0' <= c && c <= '9') {
            return None;
        }
        assert(t.take(i - start + 1).drop_last() =~= t.take(i - start));
        assert(t.take(i - start + 1).last() == c);
        let next: u64 = 10 * acc + (c as u64 - '0' as u64);
        acc = if next < 0x1_0000_0000 {
            next
        } else {
            0x1_0000_0000
        };
        i += 1;
    }
    assert(t.take(t.len() as int) =~= t);
    Some(acc)
}

/// Parses a 32-bit signed decimal integer.
pub fn parse_i32(text: &str) -> (r: Option<i32>)
    ensures
        r == i32_text(text@),
{
    let s = chars_of(text);
    assert(s@.skip(0) =~= s@);
    if s.len() > 0 && s[0] == '-' {
        match read_digits(&s, 1) {
            Some(v) => if v <= 0x8000_0000 {
                Some((-(v as i64)) as i32)
            } else {
                None
            },
            None => None,
        }
    } else {
        let start: usize = if s.len() > 0 && s[0] == '+' {
            1
        } else {
            0
        };
        match read_digits(&s, start) {
            Some(v) => if v <= 0x7fff_ffff {
                Some(v as i32)
            } else {
                None
            },
            None => None,
        }
    }
}

/// Parses a 32-bit unsigned decimal integer.
pub fn parse_u32(text: &str) -> (r: Option<u32>)
    ensures
        r == u32_text(text@),
{
    let s = chars_of(text);
    assert(s@.skip(0) =~= s@);
    let start: usize = if s.len() > 0 && s[0] == '+' {
        1
    } else {
        0
    };
    match read_digits(&s, start) {
        Some(v) => if v <= 0xffff_ffff {
            Some(v as u32)
        } else {
            None
        },
        None => None,
    }
}

/// The decimal digits of a natural number, without leading zeros.
pub open spec fn natural_digits(n: nat) -> Seq<char>
    decreases n,
{
    if n < 10 {
        seq![(n + '0' as nat) as char]
    } else {
        natural_digits(n / 10).push((n % 10 + '0' as nat) as char)
    }
}

/// The decimal text of an integer.
pub open spec fn decimal_text(v: int) -> Seq<char> {
    if v < 0 {
        seq!['-'] + natural_digits((-v) as nat)
    } else {
        natural_digits(v as nat)
    }
}

fn push_natural(out: &mut String, n: u64)
    ensures
        final(out)@ == old(out)@ + natural_digits(n as nat),
    decreases n,
{
    if n >= 10 {
        push_natural(out, n / 10);
    }
    let d: u8 = (n % 10) as u8 + 48;
    out.push(d as char);
    assert(out@ =~= old(out)@ + natural_digits(n as nat));
}

/// Appends the decimal text of `v`.
pub fn push_decimal(out: &mut String, v: i64)
    ensures
        final(out)@ == old(out)@ + decimal_text(v as int),
{
    if v < 0 {
        out.push('-');
        let n: u64 = (-(v as i128)) as u64;
        push_natural(out, n);
    } else {
        push_natural(out, v as u64);
    }
    assert(out@ =~= old(out)@ + decimal_text(v as int));
}

/// A text without its trailing slashes.
pub open spec fn strip_slashes(s: Seq<char>) -> Seq<char>
    decreases s.len(),
{
    if s.len() > 0 && s.last() == '/' {
        strip_slashes(s.drop_last())
    } else {
        s
    }
}

/// The database directory of a world: `db` below the world's own directory. All dimensions
/// share it.
pub fn resolve_db_path(world_path: &str, _dim_id: u8) -> (r: String)
    ensures
        r@ == strip_slashes(world_path@) + "/db"@,
{
    let s = chars_of(world_path);
    let mut end: usize = s.len();
    assert(s@.take(end as int) =~= s@);
    while end > 0 && s[end - 1] == '/'
        invariant
            s@ == world_path@,
            end <= s@.len(),
            strip_slashes(s@.take(end as int)) == strip_slashes(world_path@),
        decreases end,
    {
        assert(s@.take(end as int).drop_last() =~= s@.take(end - 1));
        end -= 1;
    }
    let mut out: String = String::new();
    let mut i: usize = 0;
    while i < end
        invariant
            i <= end <= s@.len(),
            out@ == s@.take(i as int),
        decreases end - i,
    {
        assert(s@.take(i + 1) =~= s@.take(i as int).push(s@[i as int]));
        out.push(s[i]);
        i += 1;
    }
    out.append("/db");
    out
}

proof fn lemma_digits_read_back(n: nat)
    ensures
        is_digits(natural_digits(n)),
        digits_value(natural_digits(n)) == n,
    decreases n,
{
    let s = natural_digits(n);
    if n < 10 {
        assert(s.drop_last() =~= Seq::empty());
        assert(s.last() as nat == n + '0' as nat);
        assert(digits_value(s.drop_last()) == 0);
    } else {
        lemma_digits_read_back(n / 10);
        let front = natural_digits(n / 10);
        assert(s.drop_last() =~= front);
        assert(s.last() as nat == n % 10 + '0' as nat);
        assert(s.last() == s[s.len() - 1]);
        assert forall|i: int| 0 <= i < s.len() implies is_digit(#[trigger] s[i]) by {
            if i < front.len() {
                assert(s[i] == front[i]);
            }
        }
    }
}

/// An integer survives being written in decimal and read back, with or without a sign.
pub proof fn law_decimal_round_trip(v: int)
    ensures
        i32::MIN <= v <= i32::MAX ==> i32_text(decimal_text(v)) == Some(v as i32),
        0 <= v <= i32::MAX ==> i32_text(seq!['+'] + decimal_text(v)) == Some(v as i32),
        0 <= v <= u32::MAX ==> u32_text(decimal_text(v)) == Some(v as u32),
        v < 0 ==> u32_text(decimal_text(v)) is None,
        v > i32::MAX || v < i32::MIN ==> i32_text(decimal_text(v)) is None,
        v > u32::MAX ==> u32_text(decimal_text(v)) is None,
{
    let n = if v < 0 { (-v) as nat } else { v as nat };
    lemma_digits_read_back(n);
    let s = natural_digits(n);
    assert(is_digit(s[0]));
    assert((seq!['-'] + s).skip(1) =~= s);
    assert((seq!['+'] + s).skip(1) =~= s);
    if v < 0 {
        let t = seq!['-'] + s;
        assert(t[0] == '-');
        assert(!is_digit(t[0]));
    }
}

/// The digits of a number are those of its tenth with one more behind them.
pub proof fn law_digits(n: nat, d: nat)
    requires
        d < 10,
    ensures
        decimal_text(d as int) == seq![(d + '0' as nat) as char],
        n > 0 ==> decimal_text((10 * n + d) as int) == decimal_text(n as int).push(
            (d + '0' as nat) as char,
        ),
        n > 0 ==> decimal_text(-(n as int)) == seq!['-'] + decimal_text(n as int),
{
}

/// A text stands in another exactly if the other is something, the text and something in a row.
pub proof fn law_occurs(hay: Seq<char>, needle: Seq<char>, front: Seq<char>, back: Seq<char>)
    ensures
        occurs_in(front + needle + back, needle),
        occurs_in(hay, needle) ==> exists|a: Seq<char>, b: Seq<char>|
            hay == #[trigger] (a + needle + b),
{
    let all = front + needle + back;
    assert(all.subrange(front.len() as int, (front.len() + needle.len()) as int) =~= needle);
    assert(occurs_at(all, needle, front.len() as int));
    if occurs_in(hay, needle) {
        let i = choose|i: int| #[trigger] occurs_at(hay, needle, i);
        let a = hay.take(i);
        let b = hay.skip(i + needle.len());
        assert(hay =~= a + hay.subrange(i, i + needle.len()) + b);
        assert(hay == a + needle + b);
    }
}

/// A database stands in the directory `db` of its world, whether or not slashes end the path.
pub proof fn law_slashes(path: Seq<char>)
    ensures
        path.len() > 0 && path.last() != '/' ==> strip_slashes(path) == path,
        strip_slashes(path + "/"@) == strip_slashes(path),
{
    reveal_strlit("/");
    assert((path + "/"@).drop_last() =~= path);
    assert((path + "/"@).last() == '/');
}

/// A text goes to C as it is, but one with a zero character in it goes as the empty text.
pub proof fn law_text_for_c(s: Seq<char>, i: int)
    ensures
        0 <= i < s.len() && s[i] == '\0' ==> c_text(s).len() == 0,
        (forall|k: int| 0 <= k < s.len() ==> #[trigger] s[k] != '\0') ==> c_text(s) == s,
{
}

} // verus!
