//! Text as sequences of characters.
use vstd::prelude::*;
use vstd::string::*;
use vstd::utf8::*;

verus! {

/// `String::push` appends one character.
pub assume_specification[ String::push ](s: &mut String, c: char)
    ensures
        final(s)@ == old(s)@.push(c),
;

/// Whether Unicode gives the character the `White_Space` property.
pub open spec fn white_space(c: char) -> bool {
    let n = c as u32;
    9 <= n <= 13 || n == 0x20 || n == 0x85 || n == 0xa0 || n == 0x1680 || 0x2000 <= n <= 0x200a || n
        == 0x2028 || n == 0x2029 || n == 0x202f || n == 0x205f || n == 0x3000
}

/// `char::is_whitespace` tells whether a character has the `White_Space` property of the Unicode
/// Character Database.
pub assume_specification[ char::is_whitespace ](c: char) -> (r: bool)
    ensures
        r == white_space(c),
;

/// The texts of a list of strings.
pub open spec fn texts(ss: Seq<String>) -> Seq<Seq<char>> {
    ss.map_values(|s: String| s@)
}

/// The texts of a list of pairs of strings.
pub open spec fn text_pairs(ps: Seq<(String, String)>) -> Seq<(Seq<char>, Seq<char>)> {
    ps.map_values(|p: (String, String)| (p.0@, p.1@))
}

/// The characters of a text.
pub fn chars_of(s: &str) -> (r: Vec<char>)
    ensures
        r@ == s@,
{
    let mut out: Vec<char> = Vec::new();
    for c in it: s.chars()
        invariant
            it.seq() == s@,
            out@ == s@.take(it.index() as int),
    {
        assert(s@.take(it.index() + 1) =~= s@.take(it.index() as int).push(c));
        out.push(c);
    }
    assert(s@.take(s@.len() as int) =~= s@);
    out
}

/// The text that the characters from `from` up to `to` make up.
pub fn text_between(cs: &Vec<char>, from: usize, to: usize) -> (r: String)
    requires
        from <= to <= cs.len(),
    ensures
        r@ == cs@.subrange(from as int, to as int),
{
    let mut out = String::new();
    for i in from..to
        invariant
            from <= to <= cs.len(),
            out@ == cs@.subrange(from as int, i as int),
    {
        assert(cs@.subrange(from as int, i + 1) =~= cs@.subrange(from as int, i as int).push(
            cs@[i as int],
        ));
        out.push(cs[i]);
    }
    out
}

/// Whether two texts are the same.
pub fn same_text(a: &str, b: &str) -> (r: bool)
    ensures
        r == (a@ == b@),
{
    broadcast use encode_utf8_decode_utf8;

    let x = a.as_bytes();
    let y = b.as_bytes();
    if x.len() != y.len() {
        return false;
    }
    for i in 0..x.len()
        invariant
            x@ == a.spec_bytes(),
            y@ == b.spec_bytes(),
            x.len() == y.len(),
            forall|j: int| 0 <= j < i ==> x@[j] == y@[j],
    {
        if x[i] != y[i] {
            return false;
        }
    }
    proof {
        assert(x@ =~= y@);
        assert(decode_utf8(encode_utf8(a@)) == a@);
        assert(decode_utf8(encode_utf8(b@)) == b@);
    }
    true
}

/// Putting texts together puts their bytes together.
pub proof fn lemma_encode_concat(a: Seq<char>, b: Seq<char>)
    ensures
        encode_utf8(a + b) == encode_utf8(a) + encode_utf8(b),
    decreases a.len(),
{
    if a.len() == 0 {
        assert(a + b =~= b);
        assert(encode_utf8(a) + encode_utf8(b) =~= encode_utf8(b));
    } else {
        assert((a + b).drop_first() =~= a.drop_first() + b);
        lemma_encode_concat(a.drop_first(), b);
        assert(encode_utf8(a + b) =~= encode_utf8(a) + encode_utf8(b));
    }
}

/// Only a line feed is encoded with the byte of a line feed.
proof fn lemma_scalar_no_line_feed(c: char)
    requires
        c != '\n',
    ensures
        forall|i: int|
            0 <= i < encode_scalar(c as u32).len() ==> #[trigger] encode_scalar(c as u32)[i] != 10,
{
    let v = c as u32;
    char_is_scalar(c);
    assert(v != 10);
    assert(has_width_1_encoding(v) && v != 10 ==> leading_byte_width_1(v) != 10) by (bit_vector);
    assert(leading_byte_width_2(v) != 10) by (bit_vector);
    assert(leading_byte_width_3(v) != 10) by (bit_vector);
    assert(leading_byte_width_4(v) != 10) by (bit_vector);
    assert(last_continuation_byte(v) != 10) by (bit_vector);
    assert(second_last_continuation_byte(v) != 10) by (bit_vector);
    assert(third_last_continuation_byte(v) != 10) by (bit_vector);
}

/// A text of one line has no line feed among its bytes.
pub proof fn lemma_encode_no_line_feed(s: Seq<char>)
    requires
        forall|i: int| 0 <= i < s.len() ==> #[trigger] s[i] != '\n',
    ensures
        forall|i: int| 0 <= i < encode_utf8(s).len() ==> #[trigger] encode_utf8(s)[i] != 10,
    decreases s.len(),
{
    if s.len() > 0 {
        lemma_scalar_no_line_feed(s[0]);
        assert forall|i: int| 0 <= i < s.drop_first().len() implies #[trigger] s.drop_first()[i]
            != '\n' by {
            assert(s[i + 1] != '\n');
        }
        lemma_encode_no_line_feed(s.drop_first());
        let head = encode_scalar(s[0] as u32);
        let tail = encode_utf8(s.drop_first());
        assert forall|i: int| 0 <= i < encode_utf8(s).len() implies #[trigger] encode_utf8(s)[i]
            != 10 by {
            if i < head.len() {
                assert(encode_utf8(s)[i] == head[i]);
            } else {
                assert(encode_utf8(s)[i] == tail[i - head.len()]);
            }
        }
    }
}

/// The small letter of an ASCII capital; every other character as it is.
pub open spec fn lower_char(c: char) -> char {
    if 'A' <= c <= 'Z' {
        ((c as u8) + 32) as char
    } else {
        c
    }
}

/// A text with its ASCII capitals made small.
pub open spec fn lower(s: Seq<char>) -> Seq<char> {
    s.map_values(|c: char| lower_char(c))
}

pub fn to_lower(s: &str) -> (r: String)
    ensures
        r@ == lower(s@),
{
    let mut out = String::new();
    for c in it: s.chars()
        invariant
            it.seq() == s@,
            out@ == lower(s@.take(it.index() as int)),
    {
        proof {
            assert(s@.take(it.index() + 1) =~= s@.take(it.index() as int).push(c));
            assert(lower(s@.take(it.index() + 1)) =~= lower(s@.take(it.index() as int)).push(
                lower_char(c),
            ));
        }
        if c >= 'A' && c <= 'Z' {
            out.push((c as u8 + 32) as char);
        } else {
            out.push(c);
        }
    }
    assert(s@.take(s@.len() as int) =~= s@);
    out
}

/// Whether two texts are the same but for the case of ASCII letters.
pub open spec fn same_name(a: Seq<char>, b: Seq<char>) -> bool {
    lower(a) == lower(b)
}

pub fn eq_ignore_case(a: &str, b: &str) -> (r: bool)
    ensures
        r == same_name(a@, b@),
{
    let x = to_lower(a);
    let y = to_lower(b);
    same_text(x.as_str(), y.as_str())
}

/// A text without its leading white space.
pub open spec fn trim_left(s: Seq<char>) -> Seq<char>
    decreases s.len(),
{
    if s.len() > 0 && white_space(s[0]) {
        trim_left(s.drop_first())
    } else {
        s
    }
}

/// A text without its trailing white space.
pub open spec fn trim_right(s: Seq<char>) -> Seq<char>
    decreases s.len(),
{
    if s.len() > 0 && white_space(s.last()) {
        trim_right(s.drop_last())
    } else {
        s
    }
}

/// A text without the white space at its ends.
pub open spec fn trimmed(s: Seq<char>) -> Seq<char> {
    trim_right(trim_left(s))
}

pub fn trim(s: &str) -> (r: String)
    ensures
        r@ == trimmed(s@),
{
    let cs = chars_of(s);
    let mut from: usize = 0;
    assert(cs@.subrange(0, cs@.len() as int) =~= cs@);
    while from < cs.len() && cs[from].is_whitespace()
        invariant
            from <= cs.len(),
            trim_left(cs@) == trim_left(cs@.subrange(from as int, cs@.len() as int)),
        decreases cs.len() - from,
    {
        assert(cs@.subrange(from as int, cs@.len() as int).drop_first() =~= cs@.subrange(
            from + 1,
            cs@.len() as int,
        ));
        from = from + 1;
    }
    let mut to: usize = cs.len();
    while to > from && cs[to - 1].is_whitespace()
        invariant
            from <= to <= cs.len(),
            trim_right(cs@.subrange(from as int, cs@.len() as int)) == trim_right(
                cs@.subrange(from as int, to as int),
            ),
        decreases to,
    {
        assert(cs@.subrange(from as int, to as int).drop_last() =~= cs@.subrange(
            from as int,
            to - 1,
        ));
        to = to - 1;
    }
    text_between(&cs, from, to)
}

/// A text without the run of `c` at its end.
pub open spec fn trim_end_of(s: Seq<char>, c: char) -> Seq<char>
    decreases s.len(),
{
    if s.len() > 0 && s.last() == c {
        trim_end_of(s.drop_last(), c)
    } else {
        s
    }
}

/// Trimming stops at a character that is not to be trimmed.
pub proof fn lemma_trim_end_keeps(s: Seq<char>, c: char, n: int)
    requires
        0 < n <= s.len(),
        s[n - 1] != c,
    ensures
        trim_end_of(s, c).len() >= n,
        trim_end_of(s, c).take(n) == s.take(n),
    decreases s.len(),
{
    if s.last() == c {
        lemma_trim_end_keeps(s.drop_last(), c, n);
        assert(s.drop_last().take(n) =~= s.take(n));
    }
}

pub fn trim_end_matches(s: &str, c: char) -> (r: String)
    ensures
        r@ == trim_end_of(s@, c),
{
    let cs = chars_of(s);
    let mut to: usize = cs.len();
    assert(cs@.subrange(0, cs@.len() as int) =~= cs@);
    while to > 0 && cs[to - 1] == c
        invariant
            to <= cs.len(),
            trim_end_of(cs@, c) == trim_end_of(cs@.subrange(0, to as int), c),
        decreases to,
    {
        assert(cs@.subrange(0, to as int).drop_last() =~= cs@.subrange(0, to - 1));
        to = to - 1;
    }
    text_between(&cs, 0, to)
}

/// Whether `s` ends in `tail`.
pub open spec fn has_suffix(s: Seq<char>, tail: Seq<char>) -> bool {
    s.len() >= tail.len() && s.subrange(s.len() - tail.len(), s.len() as int) == tail
}

pub fn ends_with(s: &str, tail: &str) -> (r: bool)
    ensures
        r == has_suffix(s@, tail@),
{
    let cs = chars_of(s);
    let ts = chars_of(tail);
    if cs.len() < ts.len() {
        return false;
    }
    let end = text_between(&cs, cs.len() - ts.len(), cs.len());
    same_text(end.as_str(), tail)
}

/// What follows `head` in `s`, where `s` begins with it.
pub open spec fn after_prefix(s: Seq<char>, head: Seq<char>) -> Option<Seq<char>> {
    if s.len() >= head.len() && s.subrange(0, head.len() as int) == head {
        Some(s.subrange(head.len() as int, s.len() as int))
    } else {
        None
    }
}

pub fn strip_prefix(s: &str, head: &str) -> (r: Option<String>)
    ensures
        match r {
            Some(rest) => after_prefix(s@, head@) == Some(rest@),
            None => after_prefix(s@, head@) is None,
        },
{
    let cs = chars_of(s);
    let hs = chars_of(head);
    if cs.len() < hs.len() {
        return None;
    }
    let start = text_between(&cs, 0, hs.len());
    if same_text(start.as_str(), head) {
        Some(text_between(&cs, hs.len(), cs.len()))
    } else {
        None
    }
}

/// The decimal digit of a number below ten.
pub open spec fn digit(d: nat) -> char {
    (48 + d) as char
}

/// The decimal digits of a number, without leading zeros.
pub open spec fn digits(n: nat) -> Seq<char>
    decreases n,
{
    if n < 10 {
        seq![digit(n)]
    } else {
        digits(n / 10).push(digit(n % 10))
    }
}

/// A number in decimal.
pub open spec fn decimal(n: int) -> Seq<char> {
    if n < 0 {
        seq!['-'] + digits((-n) as nat)
    } else {
        digits(n as nat)
    }
}

fn push_digits(out: &mut String, n: u64)
    ensures
        final(out)@ == old(out)@ + digits(n as nat),
    decreases n,
{
    if n >= 10 {
        push_digits(out, n / 10);
    }
    out.push((48u8 + (n % 10) as u8) as char);
    proof {
        if n >= 10 {
            assert(digits(n as nat) == digits((n / 10) as nat).push(digit((n % 10) as nat)));
            assert(old(out)@ + digits(n as nat) =~= (old(out)@ + digits((n / 10) as nat)).push(
                digit((n % 10) as nat),
            ));
        } else {
            assert(old(out)@ + digits(n as nat) =~= old(out)@.push(digit(n as nat)));
        }
    }
}

/// An unsigned number in decimal.
pub fn decimal_u64(n: u64) -> (r: String)
    ensures
        r@ == decimal(n as int),
{
    let mut out = String::new();
    push_digits(&mut out, n);
    assert(Seq::<char>::empty() + digits(n as nat) =~= digits(n as nat));
    out
}

/// A signed number in decimal.
pub fn decimal_i64(n: i64) -> (r: String)
    ensures
        r@ == decimal(n as int),
{
    if n >= 0 {
        return decimal_u64(n as u64);
    }
    let mut out = String::new();
    out.push('-');
    let m: u64 = (-(n + 1)) as u64 + 1;
    push_digits(&mut out, m);
    assert(out@ =~= seq!['-'] + digits(m as nat));
    out
}

/// A text is trimmed of white space at its ends, of all of it, and of nothing else.
pub proof fn law_trimmed(s: Seq<char>) -> (from: int)
    ensures
        ({
            let t = trimmed(s);
            &&& 0 <= from
            &&& from + t.len() <= s.len()
            &&& t == s.subrange(from, from + t.len())
            &&& forall|i: int| 0 <= i < from ==> white_space(#[trigger] s[i])
            &&& forall|i: int| from + t.len() <= i < s.len() ==> white_space(#[trigger] s[i])
            &&& t.len() > 0 ==> !white_space(t[0]) && !white_space(t.last())
        }),
{
    let from = lemma_trim_left(s);
    let rest = trim_left(s);
    lemma_trim_right(rest);
    let t = trimmed(s);
    assert(t =~= s.subrange(from, from + t.len()));
    assert forall|i: int| from + t.len() <= i < s.len() implies white_space(#[trigger] s[i]) by {
        assert(rest[i - from] == s[i]);
    }
    if t.len() > 0 {
        assert(t[0] == rest[0]);
    }
    from
}

proof fn lemma_trim_left(s: Seq<char>) -> (from: int)
    ensures
        0 <= from <= s.len(),
        trim_left(s) == s.skip(from),
        forall|i: int| 0 <= i < from ==> white_space(#[trigger] s[i]),
        from < s.len() ==> !white_space(s[from]),
    decreases s.len(),
{
    if s.len() > 0 && white_space(s[0]) {
        let rest = s.drop_first();
        let k = lemma_trim_left(rest);
        assert(rest.skip(k) =~= s.skip(k + 1));
        assert forall|i: int| 0 <= i < k + 1 implies white_space(#[trigger] s[i]) by {
            if i > 0 {
                assert(rest[i - 1] == s[i]);
            }
        }
        if k + 1 < s.len() {
            assert(rest[k] == s[k + 1]);
        }
        k + 1
    } else {
        assert(s.skip(0) =~= s);
        0
    }
}

proof fn lemma_trim_right(s: Seq<char>)
    ensures
        trim_right(s).len() <= s.len(),
        trim_right(s) == s.take(trim_right(s).len() as int),
        forall|i: int| trim_right(s).len() <= i < s.len() ==> white_space(#[trigger] s[i]),
        trim_right(s).len() > 0 ==> !white_space(trim_right(s).last()),
    decreases s.len(),
{
    if s.len() > 0 && white_space(s.last()) {
        let front = s.drop_last();
        lemma_trim_right(front);
        let n = trim_right(front).len() as int;
        assert(front.take(n) =~= s.take(n));
        assert forall|i: int| n <= i < s.len() implies white_space(#[trigger] s[i]) by {
            if i < front.len() {
                assert(front[i] == s[i]);
            }
        }
    } else {
        assert(s.take(s.len() as int) =~= s);
    }
}

/// A text is trimmed of a character at its end: of all of them there, and of nothing else.
pub proof fn law_trim_end(s: Seq<char>, c: char)
    ensures
        ({
            let t = trim_end_of(s, c);
            &&& t.len() <= s.len()
            &&& t == s.take(t.len() as int)
            &&& forall|i: int| t.len() <= i < s.len() ==> #[trigger] s[i] == c
            &&& t.len() > 0 ==> t.last() != c
        }),
    decreases s.len(),
{
    if s.len() > 0 && s.last() == c {
        let front = s.drop_last();
        law_trim_end(front, c);
        let n = trim_end_of(front, c).len() as int;
        assert(front.take(n) =~= s.take(n));
        assert forall|i: int| n <= i < s.len() implies #[trigger] s[i] == c by {
            if i < front.len() {
                assert(front[i] == s[i]);
            }
        }
    } else {
        assert(s.take(s.len() as int) =~= s);
    }
}

/// Making a text small changes the ASCII capitals, each to its small letter, and nothing else.
pub proof fn law_lower(s: Seq<char>, i: int)
    requires
        0 <= i < s.len(),
    ensures
        lower(s).len() == s.len(),
        'A' <= s[i] <= 'Z' ==> lower(s)[i] as int == s[i] as int - 'A' as int + 'a' as int,
        !('A' <= s[i] <= 'Z') ==> lower(s)[i] == s[i],
{
}

/// Texts are the same name where they differ only in whether ASCII letters are capitals.
pub proof fn law_same_name(a: Seq<char>, b: Seq<char>, c: Seq<char>)
    ensures
        same_name(a, a),
        same_name(a, lower(a)),
        same_name(a, b) ==> same_name(b, a),
        same_name(a, b) && same_name(b, c) ==> same_name(a, c),
        same_name(a, b) ==> a.len() == b.len(),
        lower(lower(a)) == lower(a),
{
    assert(lower(lower(a)) =~= lower(a));
    if same_name(a, b) {
        assert(lower(a).len() == a.len());
        assert(lower(b).len() == b.len());
    }
}

/// A text ends in what is put at its end, and in nothing else of that length.
pub proof fn law_suffix(s: Seq<char>, tail: Seq<char>)
    ensures
        has_suffix(s + tail, tail),
        has_suffix(s, tail) ==> s == s.take(s.len() - tail.len()) + tail,
{
    assert((s + tail).subrange(s.len() as int, (s + tail).len() as int) =~= tail);
    if has_suffix(s, tail) {
        assert(s =~= s.take(s.len() - tail.len()) + s.subrange(
            s.len() - tail.len(),
            s.len() as int,
        ));
    }
}

/// What follows the beginning of a text is the rest of the text.
pub proof fn law_prefix(s: Seq<char>, head: Seq<char>, rest: Seq<char>)
    ensures
        after_prefix(head + rest, head) == Some(rest),
        after_prefix(s, head) == Some(rest) ==> s == head + rest,
        after_prefix(s, head) is None ==> s != head + rest,
{
    assert((head + rest).subrange(0, head.len() as int) =~= head);
    assert((head + rest).subrange(head.len() as int, (head + rest).len() as int) =~= rest);
    if after_prefix(s, head) == Some(rest) {
        assert(s =~= s.subrange(0, head.len() as int) + s.subrange(
            head.len() as int,
            s.len() as int,
        ));
    }
}

/// The number that decimal digits stand for.
pub open spec fn digits_value(s: Seq<char>) -> int
    decreases s.len(),
{
    if s.len() == 0 {
        0
    } else {
        10 * digits_value(s.drop_last()) + (s.last() as int - '0' as int)
    }
}

/// A number in decimal is made of digits, with no zero before others, and stands for the number.
pub proof fn law_digits(n: nat)
    ensures
        digits(n).len() > 0,
        forall|i: int| 0 <= i < digits(n).len() ==> '0' <= (#[trigger] digits(n)[i]) <= '9',
        digits_value(digits(n)) == n,
        n > 0 ==> digits(n)[0] != '0',
    decreases n,
{
    if n < 10 {
        assert(digits(n).drop_last() =~= Seq::empty());
        assert(digits_value(digits(n).drop_last()) == 0);
    } else {
        law_digits(n / 10);
        assert(digits(n).drop_last() =~= digits(n / 10));
    }
}

/// A number in decimal has a minus sign where it is negative, and only there.
pub proof fn law_decimal(n: int)
    ensures
        n >= 0 ==> digits_value(decimal(n)) == n && decimal(n)[0] != '-',
        n < 0 ==> decimal(n)[0] == '-' && digits_value(decimal(n).drop_first()) == -n,
{
    if n >= 0 {
        law_digits(n as nat);
        assert('0' <= digits(n as nat)[0]);
    } else {
        law_digits((-n) as nat);
        assert(decimal(n).drop_first() =~= digits((-n) as nat));
    }
}

} // verus!
