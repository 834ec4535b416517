//! Building text out of characters, digits and bytes.

use vstd::prelude::*;
use vstd::string::StringSliceAdditionalSpecFns;

verus! {

/// `String::push` appends the character.
pub assume_specification[ String::push ](s: &mut String, c: char)
    ensures
        final(s)@ == old(s)@.push(c),
;

/// The characters of a piece of text.
pub fn chars_of(s: &str) -> (chars: Vec<char>)
    ensures
        chars@ == s@,
{
    let mut out: Vec<char> = Vec::new();
    for c in it: s.chars()
        invariant
            out@ == it.seq().take(it.index() as int),
    {
        out.push(c);
    }
    out
}

/// The text made of `chars[from..to]`.
pub fn string_of(chars: &[char], from: usize, to: usize) -> (text: String)
    requires
        from <= to <= chars@.len(),
    ensures
        text@ == chars@.subrange(from as int, to as int),
{
    let mut out: String = String::new();
    let mut i: usize = from;
    while i < to
        invariant
            from <= i <= to <= chars@.len(),
            out@ == chars@.subrange(from as int, i as int),
        decreases to - i,
    {
        out.push(chars[i]);
        i += 1;
        assert(chars@.subrange(from as int, i as int) =~= chars@.subrange(from as int, i - 1).push(
            chars@[i - 1],
        ));
    }
    out
}

/// The lower-case hexadecimal digit of a number below sixteen.
pub open spec fn hex_digit(n: int) -> char {
    if n < 10 {
        ('0' as int + n) as char
    } else {
        ('a' as int + (n - 10)) as char
    }
}

/// Two lower-case hexadecimal digits per byte, the high one first.
pub open spec fn hex(bytes: Seq<u8>) -> Seq<char> {
    Seq::new(
        2 * bytes.len(),
        |i: int|
            if i % 2 == 0 {
                hex_digit(bytes[i / 2] as int / 16)
            } else {
                hex_digit(bytes[i / 2] as int % 16)
            },
    )
}

/// The lower-case hexadecimal digit of a number below sixteen.
pub fn digit_of(n: u8) -> (c: char)
    requires
        n < 16,
    ensures
        c == hex_digit(n as int),
{
    if n < 10 {
        (48 + n) as char
    } else {
        (87 + n) as char
    }
}

/// Bytes as lower-case hexadecimal.
pub fn hex_of(bytes: &[u8]) -> (text: String)
    ensures
        text@ == hex(bytes@),
{
    let mut out: String = String::new();
    let mut i: usize = 0;
    while i < bytes.len()
        invariant
            i <= bytes@.len(),
            out@ == hex(bytes@.take(i as int)),
        decreases bytes@.len() - i,
    {
        out.push(digit_of(bytes[i] / 16));
        out.push(digit_of(bytes[i] % 16));
        i += 1;
        assert(out@ =~= hex(bytes@.take(i as int)));
    }
    assert(bytes@.take(i as int) =~= bytes@);
    out
}

/// The decimal digit of a number below ten.
pub open spec fn digit(n: nat) -> char {
    ('0' as int + n) as char
}

/// A number in decimal, without leading zeros.
pub open spec fn decimal(n: nat) -> Seq<char>
    decreases n,
{
    if n < 10 {
        seq![digit(n)]
    } else {
        decimal(n / 10).push(digit(n % 10))
    }
}

/// A number in decimal, without leading zeros.
pub fn decimal_of(n: u64) -> (text: String)
    ensures
        text@ == decimal(n as nat),
    decreases n,
{
    let mut out: String = String::new();
    if n >= 10 {
        out = decimal_of(n / 10);
    }
    out.push((48 + (n % 10) as u8) as char);
    assert(n < 10 ==> out@ =~= seq![digit(n as nat)]);
    out
}

/// `n` in decimal, with zeros in front up to `width` characters.
pub open spec fn zero_padded(n: nat, width: nat) -> Seq<char> {
    let digits = decimal(n);
    if digits.len() >= width {
        digits
    } else {
        Seq::new((width - digits.len()) as nat, |i: int| '0') + digits
    }
}

/// `n` in decimal, with zeros in front up to `width` characters, the sign
/// counted among them.
pub open spec fn padded(n: int, width: nat) -> Seq<char> {
    if n < 0 {
        seq!['-'] + zero_padded((-n) as nat, if width == 0 { 0 } else { (width - 1) as nat })
    } else {
        zero_padded(n as nat, width)
    }
}

/// `n` in decimal, with zeros in front up to `width` characters.
pub fn zero_padded_of(n: u64, width: usize) -> (text: String)
    ensures
        text@ == zero_padded(n as nat, width as nat),
{
    let digits: String = decimal_of(n);
    let len: usize = digits.as_str().unicode_len();
    if len >= width {
        return digits;
    }
    let mut out: String = String::new();
    let mut i: usize = 0;
    while i < width - len
        invariant
            len < width,
            i <= width - len,
            out@ == Seq::new(i as nat, |j: int| '0'),
        decreases width - len - i,
    {
        out.push('0');
        i += 1;
        assert(out@ =~= Seq::new(i as nat, |j: int| '0'));
    }
    out.concat(&digits)
}

/// `n` in decimal, with zeros in front up to `width` characters, the sign
/// counted among them.
pub fn padded_of(n: i64, width: usize) -> (text: String)
    requires
        n > i64::MIN,
    ensures
        text@ == padded(n as int, width as nat),
{
    if n < 0 {
        let mut out: String = String::new();
        out.push('-');
        let rest: usize = if width == 0 {
            0
        } else {
            width - 1
        };
        assert(out@ =~= seq!['-']);
        out.concat(&zero_padded_of((-n) as u64, rest))
    } else {
        zero_padded_of(n as u64, width)
    }
}

/// The last position of `c`, or -1.
pub open spec fn last_of(s: Seq<char>, c: char) -> int
    decreases s.len(),
{
    if s.len() == 0 {
        -1
    } else if s.last() == c {
        s.len() - 1
    } else {
        last_of(s.drop_last(), c)
    }
}

/// A position that holds the character, with none behind it that does, is the
/// last one.
pub proof fn last_of_is(s: Seq<char>, c: char, at: int)
    requires
        -1 <= at < s.len(),
        at >= 0 ==> s[at] == c,
        forall|i: int| at < i < s.len() ==> s[i] != c,
    ensures
        last_of(s, c) == at,
{
    last_of_range(s, c);
    let found = last_of(s, c);
    if found < at {
        assert(s[at] != c);
    }
    if found > at {
        assert(s[found] != c);
    }
}

/// Hexadecimal digits are no dots and no slashes.
pub proof fn hex_is_plain(bytes: Seq<u8>)
    ensures
        forall|i: int| 0 <= i < hex(bytes).len() ==> hex(bytes)[i] != '.' && hex(bytes)[i] != '/',
{
}

/// Decimal digits are no dots and no slashes.
pub proof fn decimal_is_plain(n: nat)
    ensures
        forall|i: int|
            0 <= i < decimal(n).len() ==> decimal(n)[i] != '.' && decimal(n)[i] != '/',
    decreases n,
{
    if n >= 10 {
        decimal_is_plain(n / 10);
        let rest = decimal(n / 10);
        assert(digit(n % 10) != '.' && digit(n % 10) != '/');
        assert(decimal(n) == rest.push(digit(n % 10)));
        assert forall|i: int| 0 <= i < decimal(n).len() implies decimal(n)[i] != '.' && decimal(
            n,
        )[i] != '/' by {
            if i < rest.len() {
                assert(decimal(n)[i] == rest[i]);
            }
        }
    } else {
        assert(decimal(n) == seq![digit(n)]);
    }
}

/// A number with zeros in front holds no dots and no slashes.
pub proof fn padded_is_plain(n: int, width: nat)
    ensures
        forall|i: int|
            0 <= i < padded(n, width).len() ==> padded(n, width)[i] != '.' && padded(n, width)[i]
                != '/',
{
    decimal_is_plain(if n < 0 {
        (-n) as nat
    } else {
        n as nat
    });
}

/// A last position is a position, and holds the character.
pub proof fn last_of_range(s: Seq<char>, c: char)
    ensures
        -1 <= last_of(s, c) < s.len(),
        last_of(s, c) >= 0 ==> s[last_of(s, c)] == c,
        forall|i: int| last_of(s, c) < i < s.len() ==> s[i] != c,
    decreases s.len(),
{
    if s.len() > 0 && s.last() != c {
        let t = s.drop_last();
        last_of_range(t, c);
        assert forall|i: int| last_of(s, c) < i < s.len() implies s[i] != c by {
            if i < t.len() {
                assert(s[i] == t[i]);
            }
        }
    }
}

/// The last position of `c` at `from` or later.
pub fn last_position(chars: &[char], from: usize, c: char) -> (found: Option<usize>)
    requires
        from <= chars@.len(),
    ensures
        match found {
            Some(i) => i == from + last_of(chars@.skip(from as int), c) && from <= i < chars@.len(),
            None => last_of(chars@.skip(from as int), c) == -1,
        },
{
    let mut i: usize = chars.len();
    let ghost s = chars@.skip(from as int);
    assert(s.take(s.len() as int) =~= s);
    while i > from
        invariant
            from <= i <= chars@.len(),
            s == chars@.skip(from as int),
            last_of(s, c) == last_of(s.take(i - from), c),
        decreases i,
    {
        assert(s.take(i - from).drop_last() =~= s.take(i - from - 1));
        i -= 1;
        if chars[i] == c {
            return Some(i);
        }
    }
    None
}

/// The value of a hexadecimal digit of either case, or -1.
pub open spec fn hex_value(c: char) -> int {
    if '0' <= c <= '9' {
        c as int - '0' as int
    } else if 'a' <= c <= 'f' {
        c as int - 'a' as int + 10
    } else if 'A' <= c <= 'F' {
        c as int - 'A' as int + 10
    } else {
        -1
    }
}

/// Whether a text is 64 hexadecimal digits, of either case.
pub open spec fn is_hex(s: Seq<char>) -> bool {
    &&& s.len() == 64
    &&& forall|i: int| 0 <= i < s.len() ==> #[trigger] hex_value(s[i]) >= 0
}

/// An ASCII text in lower case.
pub open spec fn lowered(s: Seq<char>) -> Seq<char> {
    Seq::new(s.len(), |i: int| ascii_lower(s[i]))
}

pub(crate) fn hex_value_of(c: char) -> (value: Option<u8>)
    ensures
        match value {
            Some(v) => v == hex_value(c) && v < 16,
            None => hex_value(c) == -1,
        },
{
    if '0' <= c && c <= '9' {
        Some(c as u8 - 48)
    } else if 'a' <= c && c <= 'f' {
        Some(c as u8 - 87)
    } else if 'A' <= c && c <= 'F' {
        Some(c as u8 - 55)
    } else {
        None
    }
}

/// Reads 32 bytes from 64 hexadecimal digits of either case, and nothing from
/// any other text.
pub fn bytes_of_hex(digits: &[char]) -> (bytes: Option<[u8; 32]>)
    ensures
        match bytes {
            Some(b) => is_hex(digits@) && hex(b@) == lowered(digits@),
            None => !is_hex(digits@),
        },
{
    if digits.len() != 64 {
        return None;
    }
    let mut out: [u8; 32] = [0u8; 32];
    let mut i: usize = 0;
    while i < 32
        invariant
            i <= 32,
            digits@.len() == 64,
            forall|j: int| 0 <= j < 2 * i ==> #[trigger] hex_value(digits@[j]) >= 0,
            forall|j: int| 0 <= j < 2 * i ==> #[trigger] lowered(digits@)[j] == hex(out@)[j],
        decreases 32 - i,
    {
        match (hex_value_of(digits[2 * i]), hex_value_of(digits[2 * i + 1])) {
            (Some(high), Some(low)) => {
                let ghost before = out@;
                out[i] = 16 * high + low;
                proof {
                    let n = out@[i as int] as int;
                    assert(n / 16 == high && n % 16 == low);
                    assert forall|j: int| 0 <= j < 2 * (i + 1) implies #[trigger] lowered(
                        digits@,
                    )[j] == hex(out@)[j] by {
                        if j < 2 * i {
                            assert(lowered(digits@)[j] == hex(before)[j]);
                            assert(out@[j / 2] == before[j / 2]);
                        } else {
                            assert(j / 2 == i);
                        }
                    }
                }
            },
            _ => {
                assert(hex_value(digits@[2 * i as int]) < 0 || hex_value(
                    digits@[2 * i as int + 1],
                ) < 0);
                return None;
            },
        }
        i += 1;
    }
    assert(hex(out@) =~= lowered(digits@));
    Some(out)
}

/// The digits that are written for 32 bytes are 64 digits and lower-case
/// letters, none of them a separator.
pub proof fn hex_is_lower(bytes: Seq<u8>)
    ensures
        forall|i: int|
            #![trigger hex(bytes)[i]]
            0 <= i < hex(bytes).len() ==> {
                &&& !separator(hex(bytes)[i])
                &&& ascii_lower(hex(bytes)[i]) == hex(bytes)[i]
                &&& hex_value(hex(bytes)[i]) >= 0
                &&& (hex(bytes)[i] as int) < 128
            },
        bytes.len() == 32 ==> is_hex(hex(bytes)),
        lowered(hex(bytes)) == hex(bytes),
{
    assert(lowered(hex(bytes)) =~= hex(bytes));
}

/// A text is written for one string of bytes only.
pub proof fn hex_of_unique(a: Seq<u8>, b: Seq<u8>)
    requires
        hex(a) == hex(b),
    ensures
        a == b,
{
    assert(hex(a).len() == 2 * a.len());
    assert(hex(b).len() == 2 * b.len());
    assert forall|i: int| 0 <= i < a.len() implies a[i] == b[i] by {
        assert((2 * i) / 2 == i && (2 * i) % 2 == 0);
        assert((2 * i + 1) / 2 == i && (2 * i + 1) % 2 == 1);
        assert(hex(a)[2 * i] == hex_digit(a[i] as int / 16));
        assert(hex(b)[2 * i] == hex_digit(b[i] as int / 16));
        assert(hex(a)[2 * i + 1] == hex_digit(a[i] as int % 16));
        assert(hex(b)[2 * i + 1] == hex_digit(b[i] as int % 16));
    }
    assert(a =~= b);
}

/// The first position of `c`, or -1.
pub open spec fn first_of(s: Seq<char>, c: char) -> int
    decreases s.len(),
{
    if s.len() == 0 {
        -1
    } else {
        let before = first_of(s.drop_last(), c);
        if before >= 0 {
            before
        } else if s.last() == c {
            s.len() - 1
        } else {
            -1
        }
    }
}

/// The first position of `c`.
pub fn first_position(chars: &[char], c: char) -> (found: Option<usize>)
    ensures
        match found {
            Some(i) => i == first_of(chars@, c) && i < chars@.len() && chars@[i as int] == c,
            None => first_of(chars@, c) == -1,
        },
{
    let mut i: usize = 0;
    while i < chars.len()
        invariant
            i <= chars@.len(),
            first_of(chars@.take(i as int), c) == -1,
        decreases chars@.len() - i,
    {
        assert(chars@.take(i + 1).drop_last() =~= chars@.take(i as int));
        if chars[i] == c {
            proof {
                first_of_prefix(chars@, i + 1, c);
            }
            return Some(i);
        }
        i += 1;
    }
    assert(chars@.take(i as int) =~= chars@);
    None
}

/// What comes first in a prefix comes first.
proof fn first_of_prefix(s: Seq<char>, n: int, c: char)
    requires
        0 <= n <= s.len(),
        first_of(s.take(n), c) >= 0,
    ensures
        first_of(s, c) == first_of(s.take(n), c),
    decreases s.len() - n,
{
    if n < s.len() {
        assert(s.take(n + 1).drop_last() =~= s.take(n));
        first_of_prefix(s, n + 1, c);
    } else {
        assert(s.take(n) =~= s);
    }
}

/// What other tools print between the bytes of a fingerprint.
pub open spec fn separator(c: char) -> bool {
    c == ':' || c == ' ' || c == '-'
}

/// What other tools print between the bytes of a fingerprint.
pub fn is_separator(c: char) -> (yes: bool)
    ensures
        yes == separator(c),
{
    c == ':' || c == ' ' || c == '-'
}

/// The lower-case form of an ASCII character.
pub open spec fn ascii_lower(c: char) -> char {
    if 'A' <= c && c <= 'Z' {
        (c as int + 32) as char
    } else {
        c
    }
}

/// The lower-case form of an ASCII character.
pub fn lower_of(c: char) -> (l: char)
    ensures
        l == ascii_lower(c),
{
    if 'A' <= c && c <= 'Z' {
        ((c as u8) + 32) as char
    } else {
        c
    }
}

/// The lower-case form of a character, which may be more than one character.
pub uninterp spec fn lowercase(c: char) -> Seq<char>;

/// `char::to_lowercase`: the mapping depends on the character alone, and for an
/// ASCII character it is the ASCII one.
#[verifier::external_body]
pub(crate) fn lowercase_of(c: char) -> (lower: Vec<char>)
    ensures
        lower@ == lowercase(c),
        (c as int) < 128 ==> lower@ == seq![ascii_lower(c)],
{
    c.to_lowercase().collect()
}

/// The text with `chars` behind it.
pub fn joined(head: String, chars: &[char]) -> (text: String)
    ensures
        text@ == head@ + chars@,
{
    let mut out: String = head;
    let mut i: usize = 0;
    assert(head@ + chars@.take(0) =~= head@);
    while i < chars.len()
        invariant
            i <= chars@.len(),
            out@ == head@ + chars@.take(i as int),
        decreases chars@.len() - i,
    {
        out.push(chars[i]);
        i += 1;
        assert(out@ =~= head@ + chars@.take(i as int));
    }
    assert(chars@.take(i as int) =~= chars@);
    out
}

/// Whether `s` starts with `prefix`.
pub open spec fn has_prefix(s: Seq<char>, prefix: Seq<char>) -> bool {
    prefix.len() <= s.len() && s.take(prefix.len() as int) == prefix
}

/// Whether `chars` from `from` on starts with `prefix`.
pub fn starts_with(chars: &[char], from: usize, prefix: &str) -> (yes: bool)
    requires
        from <= chars@.len(),
    ensures
        yes == has_prefix(chars@.skip(from as int), prefix@),
{
    let ghost s = chars@.skip(from as int);
    let p: Vec<char> = chars_of(prefix);
    if p.len() > chars.len() - from {
        return false;
    }
    let len: usize = chars.len();
    let mut i: usize = 0;
    while i < p.len()
        invariant
            i <= p@.len() <= len - from,
            p@ == prefix@,
            len == chars@.len(),
            s == chars@.skip(from as int),
            forall|j: int| 0 <= j < i ==> #[trigger] p@[j] == s[j],
        decreases p@.len() - i,
    {
        if p[i] != chars[from + i] {
            assert(s.take(p@.len() as int)[i as int] != p@[i as int]);
            return false;
        }
        i += 1;
    }
    assert(s.take(p@.len() as int) =~= p@);
    true
}

/// Whether two texts are the same.
pub fn same_text(a: &str, b: &str) -> (same: bool)
    ensures
        same == (a@ == b@),
{
    let p: Vec<char> = chars_of(a);
    let q: Vec<char> = chars_of(b);
    if p.len() != q.len() {
        return false;
    }
    let mut i: usize = 0;
    while i < p.len()
        invariant
            i <= p@.len() == q@.len(),
            p@ == a@,
            q@ == b@,
            forall|j: int| 0 <= j < i ==> #[trigger] p@[j] == q@[j],
        decreases p@.len() - i,
    {
        if p[i] != q[i] {
            assert(p@[i as int] != q@[i as int]);
            return false;
        }
        i += 1;
    }
    assert(p@ =~= q@);
    true
}

/// One path under another.
pub open spec fn path_joined(base: Seq<char>, rest: Seq<char>) -> Seq<char> {
    if base.len() == 0 || base.last() == '/' {
        base + rest
    } else {
        base + "/"@ + rest
    }
}

/// One path under another. `rest` is relative.
pub fn path_under(base: &str, rest: &str) -> (path: String)
    ensures
        path@ == path_joined(base@, rest@),
{
    let chars: Vec<char> = chars_of(base);
    if chars.len() == 0 || chars[chars.len() - 1] == '/' {
        base.to_owned().concat(rest)
    } else {
        base.to_owned().concat("/").concat(rest)
    }
}

/// The digits of the first bytes come first.
pub proof fn hex_of_prefix(bytes: Seq<u8>, n: int)
    requires
        0 <= n <= bytes.len(),
    ensures
        hex(bytes.take(n)) == hex(bytes).take(2 * n),
{
    assert(hex(bytes.take(n)) =~= hex(bytes).take(2 * n));
}

/// The number that decimal digits spell.
pub open spec fn spelled(s: Seq<char>) -> int
    decreases s.len(),
{
    if s.len() == 0 {
        0
    } else {
        10 * spelled(s.drop_last()) + (s.last() as int - '0' as int)
    }
}

/// A number is written as the digits that spell it, with no zero before it.
pub proof fn law_a_number_is_written_as_it_is_spelled(n: nat)
    ensures
        spelled(decimal(n)) == n,
        decimal(n).len() > 0,
        n > 0 ==> decimal(n)[0] != '0',
        forall|i: int| 0 <= i < decimal(n).len() ==> '0' <= #[trigger] decimal(n)[i] <= '9',
    decreases n,
{
    if n >= 10 {
        law_a_number_is_written_as_it_is_spelled(n / 10);
        let before = decimal(n / 10);
        assert(decimal(n).drop_last() =~= before);
        assert forall|i: int| 0 <= i < decimal(n).len() implies '0' <= #[trigger] decimal(n)[i]
            <= '9' by {
            if i < before.len() {
                assert(decimal(n)[i] == before[i]);
            }
        }
        assert(decimal(n)[0] == before[0]);
    } else {
        assert(decimal(n).drop_last() =~= Seq::<char>::empty());
        assert(spelled(Seq::<char>::empty()) == 0);
    }
}

/// Zeros before a number change nothing of what it spells; there are as many as it
/// takes to fill the width.
pub proof fn law_padding_changes_no_number(n: nat, width: nat)
    ensures
        spelled(zero_padded(n, width)) == n,
        zero_padded(n, width).len() == if decimal(n).len() >= width {
            decimal(n).len()
        } else {
            width
        },
{
    law_a_number_is_written_as_it_is_spelled(n);
    let digits = decimal(n);
    if digits.len() < width {
        zeros_spell_nothing((width - digits.len()) as nat, digits);
    }
}

proof fn zeros_spell_nothing(k: nat, digits: Seq<char>)
    ensures
        spelled(Seq::new(k, |i: int| '0') + digits) == spelled(digits),
    decreases digits.len(), k,
{
    let zeros = Seq::new(k, |i: int| '0');
    let s = zeros + digits;
    if digits.len() > 0 {
        assert(s.drop_last() =~= zeros + digits.drop_last());
        assert(s.last() == digits.last());
        zeros_spell_nothing(k, digits.drop_last());
    } else if k > 0 {
        let fewer = Seq::new((k - 1) as nat, |i: int| '0');
        assert(s.drop_last() =~= fewer + digits);
        assert(s.last() == '0');
        zeros_spell_nothing((k - 1) as nat, digits);
    } else {
        assert(s =~= digits);
    }
}

/// Two digits of hex spell each byte, the higher half first, and nothing else is
/// written.
pub proof fn law_hex_spells_each_byte(bytes: Seq<u8>, i: int)
    requires
        0 <= i < bytes.len(),
    ensures
        hex(bytes).len() == 2 * bytes.len(),
        16 * hex_value(hex(bytes)[2 * i]) + hex_value(hex(bytes)[2 * i + 1]) == bytes[i],
{
    let b = bytes[i] as int;
    assert((2 * i) / 2 == i && (2 * i) % 2 == 0 && (2 * i + 1) / 2 == i && (2 * i + 1) % 2 == 1);
    digit_has_its_value(b / 16);
    digit_has_its_value(b % 16);
}

proof fn digit_has_its_value(n: int)
    requires
        0 <= n < 16,
    ensures
        hex_value(hex_digit(n)) == n,
{
}

/// The first place of a character is where it stands and has not stood before, and
/// there is none exactly where it does not stand at all.
pub proof fn law_the_first_place_is_found(s: Seq<char>, c: char)
    ensures
        -1 <= first_of(s, c) < s.len(),
        first_of(s, c) >= 0 ==> s[first_of(s, c)] == c && forall|i: int|
            #![trigger s[i]]
            0 <= i < first_of(s, c) ==> s[i] != c,
        first_of(s, c) < 0 ==> forall|i: int| #![trigger s[i]] 0 <= i < s.len() ==> s[i] != c,
    decreases s.len(),
{
    if s.len() > 0 {
        let rest = s.drop_last();
        law_the_first_place_is_found(rest, c);
        let at = first_of(s, c);
        assert(s[s.len() - 1] == s.last());
        assert forall|i: int|
            #![trigger s[i]]
            0 <= i < s.len() && (at < 0 || i < at) implies s[i] != c by {
            if i < rest.len() {
                assert(rest[i] == s[i]);
            }
        }
        if first_of(rest, c) >= 0 {
            assert(rest[at] == s[at]);
        }
    }
}

/// The last place of a character is where it stands and does not stand again, and
/// there is none exactly where it does not stand at all.
pub proof fn law_the_last_place_is_found(s: Seq<char>, c: char)
    ensures
        -1 <= last_of(s, c) < s.len(),
        last_of(s, c) >= 0 ==> s[last_of(s, c)] == c,
        forall|i: int| last_of(s, c) < i < s.len() ==> s[i] != c,
{
    last_of_range(s, c);
}

/// A path is put under another with one separator between them, where there is not
/// one already.
pub proof fn law_paths_are_put_together_with_one_separator(base: Seq<char>, rest: Seq<char>)
    requires
        base.len() > 0,
    ensures
        base.last() != '/' ==> path_joined(base, rest) == base.push('/') + rest,
        base.last() == '/' ==> path_joined(base, rest) == base + rest,
        path_joined(base, rest) == path_joined(
            if base.last() == '/' {
                base
            } else {
                base.push('/')
            },
            rest,
        ),
{
    reveal_strlit("/");
    assert(base + "/"@ =~= base.push('/'));
}

/// Digits of hex are read in either case, and what is put between them for the eye is
/// none of them.
pub proof fn law_hex_is_read_in_either_case(c: char)
    ensures
        hex_value(ascii_lower(c)) == hex_value(c),
        'A' <= c <= 'F' ==> hex_value(c) == c as int - 'A' as int + 10,
        'a' <= c <= 'f' ==> hex_value(c) == c as int - 'a' as int + 10,
        '0' <= c <= '9' ==> hex_value(c) == c as int - '0' as int,
        !('A' <= c <= 'F') && !('a' <= c <= 'f') && !('0' <= c <= '9') ==> hex_value(c) < 0,
        separator(c) ==> hex_value(c) < 0,
        separator(':') && separator(' ') && separator('-'),
{
}

} // verus!
