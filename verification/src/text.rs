//! Text as sequences of characters: lines, words, searching and numbers.

use vstd::prelude::*;
use vstd::string::StringExecFns;

verus! {

/// `String::push` appends one character.
pub assume_specification[ String::push ](text: &mut String, c: char)
    ensures
        final(text)@ == old(text)@.push(c),
;

/// What `String::from_utf8_lossy` makes of bytes.
pub uninterp spec fn lossy(bytes: Seq<u8>) -> Seq<char>;

/// Calls `String::from_utf8_lossy`. Its outcome depends on the bytes alone, and
/// is called `lossy`. Bytes that are valid UTF-8 are taken as they stand.
#[verifier::external_body]
pub(crate) fn shown(bytes: &[u8]) -> (text: String)
    ensures
        text@ == lossy(bytes@),
        vstd::utf8::valid_utf8(bytes@) ==> text@ == vstd::utf8::decode_utf8(bytes@),
{
    String::from_utf8_lossy(bytes).into_owned()
}

/// Whether two names are made of the same bytes.
pub fn same_bytes(a: &Vec<u8>, b: &Vec<u8>) -> (result: bool)
    ensures
        result == (a@ == b@),
{
    if a.len() != b.len() {
        return false;
    }
    let mut i: usize = 0;
    while i < a.len()
        invariant
            i <= a.len(),
            a.len() == b.len(),
            forall|j: int| 0 <= j < i ==> #[trigger] a@[j] == b@[j],
        decreases a.len() - i,
    {
        if a[i] != b[i] {
            return false;
        }
        i = i + 1;
    }
    assert(a@ =~= b@);
    true
}

/// The bytes of a list of names.
pub open spec fn byte_views(list: Seq<Vec<u8>>) -> Seq<Seq<u8>> {
    Seq::new(list.len(), |i: int| list[i]@)
}

/// Whether two texts hold the same characters.
pub fn same(a: &str, b: &str) -> (result: bool)
    ensures
        result == (a@ == b@),
{
    a.to_owned() == b.to_owned()
}

/// The characters of a text.
pub fn chars_of(text: &str) -> (chars: Vec<char>)
    ensures
        chars@ == text@,
{
    let mut chars: Vec<char> = Vec::new();
    for c in it: text.chars()
        invariant
            it.seq() == text@,
            chars@ == it.seq().take(it.index() as int),
    {
        chars.push(c);
    }
    chars
}

/// The text made of the characters from `from` up to `to`.
pub fn text_of(chars: &Vec<char>, from: usize, to: usize) -> (text: String)
    requires
        from <= to <= chars.len(),
    ensures
        text@ == chars@.subrange(from as int, to as int),
{
    let mut text = String::new();
    let mut i: usize = from;
    while i < to
        invariant
            from <= i <= to <= chars.len(),
            text@ =~= chars@.subrange(from as int, i as int),
        decreases to - i,
    {
        text.push(chars[i]);
        i = i + 1;
    }
    text
}

/// One text after the other.
pub fn joined(a: &str, b: &str) -> (text: String)
    ensures
        text@ == a@ + b@,
{
    let mut text = a.to_owned();
    text.append(b);
    text
}

/// The character of a digit below sixteen.
pub open spec fn digit_char(digit: int) -> char {
    if digit < 10 {
        ('0' as u8 + digit) as char
    } else {
        ('a' as u8 + (digit - 10)) as char
    }
}

/// The digits of a number in the given base, the most significant first.
pub open spec fn digits(n: nat, base: nat) -> Seq<char>
    decreases n,
{
    if base < 2 || n < base {
        seq![digit_char(n as int)]
    } else {
        proof {
            assert(n / base < n) by (nonlinear_arith)
                requires
                    2 <= base <= n,
            ;
        }
        digits(n / base, base).push(digit_char((n % base) as int))
    }
}

/// A number in decimal notation.
pub open spec fn decimal(n: nat) -> Seq<char> {
    digits(n, 10)
}

/// A number in decimal notation, with a sign if it is negative.
pub open spec fn signed_decimal(n: int) -> Seq<char> {
    if n < 0 {
        seq!['-'] + decimal((-n) as nat)
    } else {
        decimal(n as nat)
    }
}

/// The number that decimal digits stand for.
pub open spec fn number(text: Seq<char>) -> int
    decreases text.len(),
{
    if text.len() == 0 {
        0
    } else {
        10 * number(text.drop_last()) + (text.last() as int - '0' as int)
    }
}

/// Decimal notation can be read back.
proof fn lemma_decimal_number(n: nat)
    ensures
        number(decimal(n)) == n,
    decreases n,
{
    let text = decimal(n);
    if n < 10 {
        assert(text.drop_last() =~= Seq::<char>::empty());
        assert(number(text.drop_last()) == 0);
        assert(text.last() == digit_char(n as int));
    } else {
        lemma_decimal_number(n / 10);
        assert(text.drop_last() =~= decimal(n / 10));
        assert(text.last() == digit_char((n % 10) as int));
    }
}

/// Different numbers have different decimal notations.
pub proof fn lemma_decimal_injective(a: nat, b: nat)
    requires
        decimal(a) == decimal(b),
    ensures
        a == b,
{
    lemma_decimal_number(a);
    lemma_decimal_number(b);
}

/// Decimal notation is made of digits.
pub proof fn lemma_decimal_plain(n: nat)
    ensures
        forall|i: int| 0 <= i < decimal(n).len() ==> '0' <= #[trigger] decimal(n)[i] <= '9',
    decreases n,
{
    if n >= 10 {
        lemma_decimal_plain(n / 10);
        assert forall|i: int| 0 <= i < decimal(n).len() implies '0' <= #[trigger] decimal(n)[i] <= '9' by {
            if i < decimal(n / 10).len() {
                assert(decimal(n)[i] == decimal(n / 10)[i]);
            }
        }
    }
}

/// What stands before the first mark, and behind it, can be told apart.
pub proof fn lemma_cut(a: Seq<char>, b: Seq<char>, mark: char, x: Seq<char>, y: Seq<char>)
    requires
        forall|i: int| 0 <= i < a.len() ==> #[trigger] a[i] != mark,
        forall|i: int| 0 <= i < b.len() ==> #[trigger] b[i] != mark,
        a.push(mark) + x == b.push(mark) + y,
    ensures
        a == b,
        x == y,
{
    let left = a.push(mark) + x;
    let right = b.push(mark) + y;
    assert(left.len() == a.len() + 1 + x.len());
    assert(right.len() == b.len() + 1 + y.len());
    assert(left[a.len() as int] == mark);
    assert(right[b.len() as int] == mark);
    if a.len() < b.len() {
        assert(right[a.len() as int] == b[a.len() as int]);
    }
    if b.len() < a.len() {
        assert(left[b.len() as int] == a[b.len() as int]);
    }
    assert forall|i: int| 0 <= i < a.len() implies a[i] == b[i] by {
        assert(left[i] == a[i]);
        assert(right[i] == b[i]);
    }
    assert(a =~= b);
    assert forall|i: int| 0 <= i < x.len() implies x[i] == y[i] by {
        assert(left[a.len() + 1 + i] == x[i]);
        assert(right[a.len() + 1 + i] == y[i]);
    }
    assert(x =~= y);
}

/// The character of a digit below sixteen.
fn digit_of(digit: u8) -> (c: char)
    requires
        digit < 16,
    ensures
        c == digit_char(digit as int),
{
    if digit < 10 {
        (48u8 + digit) as char
    } else {
        (97u8 + (digit - 10)) as char
    }
}

fn digits_text(n: u128, base: u128) -> (text: String)
    requires
        2 <= base <= 16,
    ensures
        text@ == digits(n as nat, base as nat),
    decreases n,
{
    if n < base {
        let mut text = String::new();
        text.push(digit_of(n as u8));
        assert(text@ =~= digits(n as nat, base as nat));
        text
    } else {
        proof {
            assert(n / base < n) by (nonlinear_arith)
                requires
                    2 <= base <= n,
            ;
        }
        let mut text = digits_text(n / base, base);
        proof {
            assert(n % base < base) by (nonlinear_arith)
                requires
                    2 <= base,
            ;
        }
        text.push(digit_of((n % base) as u8));
        text
    }
}

/// A number in decimal notation.
pub fn decimal_text(n: u128) -> (text: String)
    ensures
        text@ == decimal(n as nat),
{
    digits_text(n, 10)
}

/// A number in decimal notation, with a sign if it is negative.
pub fn signed_decimal_text(n: i64) -> (text: String)
    ensures
        text@ == signed_decimal(n as int),
{
    if n < 0 {
        let magnitude: i128 = -(n as i128);
        let digits = digits_text(magnitude as u128, 10);
        proof {
            reveal_strlit("-");
            assert("-"@ =~= seq!['-']);
        }
        joined("-", &digits)
    } else {
        digits_text(n as u128, 10)
    }
}

/// A number in hexadecimal notation, in lower case.
pub fn hex_text(n: u64) -> (text: String)
    ensures
        text@ == digits(n as nat, 16),
{
    digits_text(n as u128, 16)
}

/// Whether a character is white space: the characters that Unicode lists
/// under the property White_Space.
pub open spec fn is_space(c: char) -> bool {
    let code = c as u32;
    ||| 0x09 <= code <= 0x0d
    ||| code == 0x20
    ||| code == 0x85
    ||| code == 0xa0
    ||| code == 0x1680
    ||| 0x2000 <= code <= 0x200a
    ||| code == 0x2028
    ||| code == 0x2029
    ||| code == 0x202f
    ||| code == 0x205f
    ||| code == 0x3000
}

/// Whether a character is white space.
pub fn is_white_space(c: char) -> (result: bool)
    ensures
        result == is_space(c),
{
    let code: u32 = c as u32;
    (0x09 <= code && code <= 0x0d) || code == 0x20 || code == 0x85 || code == 0xa0 || code == 0x1680
        || (0x2000 <= code && code <= 0x200a) || code == 0x2028 || code == 0x2029 || code == 0x202f
        || code == 0x205f || code == 0x3000
}

/// `part` stands in `text` at place `at`.
pub open spec fn occurs_at(text: Seq<char>, part: Seq<char>, at: int) -> bool {
    0 <= at && at + part.len() <= text.len() && text.subrange(at, at + part.len()) == part
}

/// `part` stands somewhere in `text`.
pub open spec fn occurs(text: Seq<char>, part: Seq<char>) -> bool {
    exists|at: int| occurs_at(text, part, at)
}

/// `at` is the first place at which `part` stands in `text`.
pub open spec fn occurs_first(text: Seq<char>, part: Seq<char>, at: int) -> bool {
    occurs_at(text, part, at) && forall|before: int|
        0 <= before < at ==> !occurs_at(text, part, before)
}

/// Whether `part` stands in `text` at place `at`.
pub fn stands_at(text: &Vec<char>, part: &Vec<char>, at: usize) -> (result: bool)
    requires
        at + part.len() <= text.len(),
    ensures
        result == occurs_at(text@, part@, at as int),
{
    let mut i: usize = 0;
    while i < part.len()
        invariant
            i <= part.len(),
            at + part.len() <= text.len(),
            forall|j: int| 0 <= j < i ==> text[at + j] == #[trigger] part[j],
        decreases part.len() - i,
    {
        if text[at + i] != part[i] {
            proof {
                let found = text@.subrange(at as int, at + part@.len());
                assert(found[i as int] != part@[i as int]);
            }
            return false;
        }
        i = i + 1;
    }
    assert(text@.subrange(at as int, at + part@.len()) =~= part@);
    true
}

/// The first place at which `part` stands in `text`.
pub fn find(text: &Vec<char>, part: &Vec<char>) -> (place: Option<usize>)
    ensures
        match place {
            Some(at) => occurs_first(text@, part@, at as int),
            None => !occurs(text@, part@),
        },
{
    if part.len() > text.len() {
        return None;
    }
    let last: usize = text.len() - part.len();
    let mut at: usize = 0;
    loop
        invariant
            at <= last,
            last + part.len() == text.len(),
            forall|before: int| 0 <= before < at ==> !occurs_at(text@, part@, before),
        decreases last - at,
    {
        if stands_at(text, part, at) {
            return Some(at);
        }
        if at == last {
            return None;
        }
        at = at + 1;
    }
}

/// Whether `part` stands somewhere in `text`.
pub fn contains(text: &str, part: &str) -> (result: bool)
    ensures
        result == occurs(text@, part@),
{
    find(&chars_of(text), &chars_of(part)).is_some()
}

/// Whether `text` begins with `part`.
pub fn starts_with(text: &Vec<char>, part: &str) -> (result: bool)
    ensures
        result == part@.is_prefix_of(text@),
{
    let part = chars_of(part);
    part.len() <= text.len() && stands_at(text, &part, 0)
}

/// Whether `text` ends with `part`.
pub fn ends_with(text: &Vec<char>, part: &str) -> (result: bool)
    ensures
        result == part@.is_suffix_of(text@),
{
    let part = chars_of(part);
    part.len() <= text.len() && stands_at(text, &part, text.len() - part.len())
}

/// A text without the white space at its start.
pub open spec fn trim_start(text: Seq<char>) -> Seq<char>
    decreases text.len(),
{
    if text.len() > 0 && is_space(text[0]) {
        trim_start(text.drop_first())
    } else {
        text
    }
}

/// A text without the white space at its end.
pub open spec fn trim_end(text: Seq<char>) -> Seq<char>
    decreases text.len(),
{
    if text.len() > 0 && is_space(text.last()) {
        trim_end(text.drop_last())
    } else {
        text
    }
}

/// A text without the white space around it.
pub open spec fn trimmed(text: Seq<char>) -> Seq<char> {
    trim_end(trim_start(text))
}

/// The characters from `from` up to `to`.
pub fn part_of(chars: &Vec<char>, from: usize, to: usize) -> (part: Vec<char>)
    requires
        from <= to <= chars.len(),
    ensures
        part@ == chars@.subrange(from as int, to as int),
{
    let mut part: Vec<char> = Vec::new();
    let mut i: usize = from;
    while i < to
        invariant
            from <= i <= to <= chars.len(),
            part@ =~= chars@.subrange(from as int, i as int),
        decreases to - i,
    {
        part.push(chars[i]);
        i = i + 1;
    }
    part
}

/// The place of the first character that is not white space, from `from` on.
fn skip_space(chars: &Vec<char>, from: usize) -> (place: usize)
    requires
        from <= chars.len(),
    ensures
        from <= place <= chars.len(),
        trim_start(chars@.skip(from as int)) == chars@.skip(place as int),
        place < chars.len() ==> !is_space(chars[place as int]),
{
    let mut i: usize = from;
    while i < chars.len() && is_white_space(chars[i])
        invariant
            from <= i <= chars.len(),
            trim_start(chars@.skip(from as int)) == trim_start(chars@.skip(i as int)),
        decreases chars.len() - i,
    {
        assert(chars@.skip(i as int).drop_first() =~= chars@.skip(i + 1));
        i = i + 1;
    }
    i
}

/// A text without the white space around it.
pub fn trim(chars: &Vec<char>) -> (result: Vec<char>)
    ensures
        result@ == trimmed(chars@),
{
    assert(chars@.skip(0) =~= chars@);
    let start: usize = skip_space(chars, 0);
    let mut end: usize = chars.len();
    assert(chars@.skip(start as int) =~= chars@.subrange(start as int, end as int));
    while start < end && is_white_space(chars[end - 1])
        invariant
            start <= end <= chars.len(),
            trim_end(trim_start(chars@)) == trim_end(chars@.subrange(start as int, end as int)),
        decreases end,
    {
        assert(chars@.subrange(start as int, end as int).drop_last() =~= chars@.subrange(
            start as int,
            end - 1,
        ));
        end = end - 1;
    }
    part_of(chars, start, end)
}

/// How many characters stand before the first line feed.
pub open spec fn line_length(text: Seq<char>) -> nat
    decreases text.len(),
{
    if text.len() == 0 || text[0] == '\n' {
        0
    } else {
        1 + line_length(text.drop_first())
    }
}

/// A line without the carriage return at its end.
pub open spec fn without_return(line: Seq<char>) -> Seq<char> {
    if line.len() > 0 && line.last() == '\r' {
        line.drop_last()
    } else {
        line
    }
}

/// The lines of a text. A line ends with a line feed, or a carriage return and
/// a line feed; the last line may end without.
pub open spec fn lines(text: Seq<char>) -> Seq<Seq<char>>
    decreases text.len(),
{
    if text.len() == 0 {
        Seq::empty()
    } else {
        let n = line_length(text);
        if n >= text.len() {
            seq![text]
        } else {
            seq![without_return(text.take(n as int))] + lines(text.skip(n as int + 1))
        }
    }
}

/// The texts that a list of character vectors holds.
pub open spec fn texts(list: Seq<Vec<char>>) -> Seq<Seq<char>> {
    Seq::new(list.len(), |i: int| list[i]@)
}

/// The texts of a list of strings.
pub open spec fn string_views(list: Seq<String>) -> Seq<Seq<char>> {
    Seq::new(list.len(), |i: int| list[i]@)
}

/// The lines of a text.
pub fn lines_of(text: &str) -> (result: Vec<Vec<char>>)
    ensures
        texts(result@) == lines(text@),
{
    let chars = chars_of(text);
    let mut result: Vec<Vec<char>> = Vec::new();
    let mut start: usize = 0;
    assert(chars@.skip(0) =~= chars@);
    assert(texts(result@) =~= Seq::<Seq<char>>::empty());
    while start < chars.len()
        invariant
            start <= chars.len(),
            texts(result@) + lines(chars@.skip(start as int)) =~= lines(chars@),
        decreases chars.len() - start,
    {
        let ghost rest = chars@.skip(start as int);
        let ghost before = texts(result@);
        let mut end: usize = start;
        while end < chars.len() && chars[end] != '\n'
            invariant
                start <= end <= chars.len(),
                rest == chars@.skip(start as int),
                line_length(rest) == end - start + line_length(chars@.skip(end as int)),
            decreases chars.len() - end,
        {
            assert(chars@.skip(end as int).drop_first() =~= chars@.skip(end + 1));
            end = end + 1;
        }
        assert(line_length(rest) == end - start);
        if end < chars.len() {
            let ghost line = rest.take(end - start);
            assert(line =~= chars@.subrange(start as int, end as int));
            assert(rest.skip(end - start + 1) =~= chars@.skip(end + 1));
            if start < end && chars[end - 1] == '\r' {
                let found = part_of(&chars, start, end - 1);
                assert(found@ =~= without_return(line));
                result.push(found);
            } else {
                let found = part_of(&chars, start, end);
                assert(found@ =~= without_return(line));
                result.push(found);
            }
            assert(texts(result@) =~= before.push(without_return(line)));
            start = end + 1;
        } else {
            let found = part_of(&chars, start, end);
            assert(found@ =~= rest);
            result.push(found);
            assert(texts(result@) =~= before.push(rest));
            assert(chars@.skip(end as int) =~= Seq::<char>::empty());
            start = end;
        }
    }
    assert(chars@.skip(start as int) =~= Seq::<char>::empty());
    result
}

/// How many characters stand before the first white space.
pub open spec fn word_length(text: Seq<char>) -> nat
    decreases text.len(),
{
    if text.len() == 0 || is_space(text[0]) {
        0
    } else {
        1 + word_length(text.drop_first())
    }
}

/// Trimming does not lengthen a text, and what is left starts with no white space.
pub proof fn lemma_trim_start_len(text: Seq<char>)
    ensures
        trim_start(text).len() <= text.len(),
        trim_start(text).len() > 0 ==> !is_space(trim_start(text)[0]),
    decreases text.len(),
{
    if text.len() > 0 && is_space(text[0]) {
        lemma_trim_start_len(text.drop_first());
    }
}

/// The words of a text: what stands between white space.
pub open spec fn words(text: Seq<char>) -> Seq<Seq<char>>
    decreases text.len(),
{
    let rest = trim_start(text);
    let n = word_length(rest);
    if rest.len() == 0 || n > rest.len() {
        Seq::empty()
    } else {
        proof {
            lemma_trim_start_len(text);
        }
        seq![rest.take(n as int)] + words(rest.skip(n as int))
    }
}

/// The words of a text.
pub fn words_of(chars: &Vec<char>) -> (result: Vec<Vec<char>>)
    ensures
        texts(result@) == words(chars@),
{
    let mut result: Vec<Vec<char>> = Vec::new();
    assert(chars@.skip(0) =~= chars@);
    let mut start: usize = skip_space(chars, 0);
    assert(texts(result@) =~= Seq::<Seq<char>>::empty());
    proof {
        lemma_words_trimmed(chars@);
    }
    while start < chars.len()
        invariant
            start <= chars.len(),
            start < chars.len() ==> !is_space(chars[start as int]),
            texts(result@) + words(chars@.skip(start as int)) =~= words(chars@),
        decreases chars.len() - start,
    {
        let ghost rest = chars@.skip(start as int);
        let ghost before = texts(result@);
        let mut end: usize = start;
        while end < chars.len() && !is_white_space(chars[end])
            invariant
                start <= end <= chars.len(),
                rest == chars@.skip(start as int),
                word_length(rest) == end - start + word_length(chars@.skip(end as int)),
            decreases chars.len() - end,
        {
            assert(chars@.skip(end as int).drop_first() =~= chars@.skip(end + 1));
            end = end + 1;
        }
        assert(word_length(rest) == end - start);
        assert(trim_start(rest) == rest);
        let found = part_of(chars, start, end);
        assert(found@ =~= rest.take(end - start));
        assert(rest.skip(end - start) =~= chars@.skip(end as int));
        result.push(found);
        assert(texts(result@) =~= before.push(found@));
        start = skip_space(chars, end);
        proof {
            lemma_words_trimmed(chars@.skip(end as int));
        }
    }
    assert(chars@.skip(start as int) =~= Seq::<char>::empty());
    result
}

proof fn lemma_words_trimmed(text: Seq<char>)
    ensures
        words(trim_start(text)) == words(text),
{
    lemma_trim_start_len(text);
    let rest = trim_start(text);
    assert(trim_start(rest) == rest);
}

/// Of the ASCII characters, the space, the tabulators, the line and form feeds
/// and the carriage return are white space. Letters, digits and punctuation are
/// not.
pub proof fn law_ascii_space(c: char)
    requires
        (c as u32) < 128,
    ensures
        is_space(c) <==> c == ' ' || c == '\t' || c == '\n' || c == '\u{b}' || c == '\u{c}' || c
            == '\r',
{
}

/// Beyond ASCII, these are white space: the next line and no-break space, the
/// Ogham mark, the spaces of general punctuation, the line and paragraph
/// separators, the narrow and mathematical spaces, and the ideographic one.
pub proof fn law_other_space(c: char)
    requires
        (c as u32) >= 128,
    ensures
        is_space(c) <==> c == '\u{85}' || c == '\u{a0}' || c == '\u{1680}' || ('\u{2000}' <= c && c
            <= '\u{200a}') || c == '\u{2028}' || c == '\u{2029}' || c == '\u{202f}' || c
            == '\u{205f}' || c == '\u{3000}',
{
}

/// A text that is not empty and holds no line feed is one line.
pub proof fn law_one_line(text: Seq<char>)
    requires
        text.len() > 0,
        forall|i: int| 0 <= i < text.len() ==> #[trigger] text[i] != '\n',
    ensures
        lines(text) == seq![text],
{
    lemma_line_length(text, text.len());
}

proof fn lemma_line_length(text: Seq<char>, n: nat)
    requires
        n <= text.len(),
        forall|i: int| 0 <= i < n ==> #[trigger] text[i] != '\n',
        n < text.len() ==> text[n as int] == '\n',
    ensures
        line_length(text) == n,
    decreases n,
{
    if n > 0 {
        let rest = text.drop_first();
        assert forall|i: int| 0 <= i < n - 1 implies #[trigger] rest[i] != '\n' by {
            assert(rest[i] == text[i + 1]);
        }
        lemma_line_length(rest, (n - 1) as nat);
    }
}

/// The first line of a text ends at its first line feed, without a carriage
/// return before that. The other lines are those of what follows.
pub proof fn law_first_line(first: Seq<char>, rest: Seq<char>)
    requires
        forall|i: int| 0 <= i < first.len() ==> #[trigger] first[i] != '\n',
    ensures
        lines(first.push('\n') + rest) == seq![
            if first.len() > 0 && first.last() == '\r' {
                first.drop_last()
            } else {
                first
            },
        ] + lines(rest),
        lines(Seq::<char>::empty()) == Seq::<Seq<char>>::empty(),
{
    let text = first.push('\n') + rest;
    assert(text[first.len() as int] == '\n');
    assert forall|i: int| 0 <= i < first.len() implies #[trigger] text[i] != '\n' by {
        assert(text[i] == first[i]);
    }
    lemma_line_length(text, first.len());
    assert(text.take(first.len() as int) =~= first);
    assert(text.skip(first.len() as int + 1) =~= rest);
}

/// A line is a part of its text.
pub proof fn lemma_line_stands_in_text(text: Seq<char>, i: int)
    requires
        0 <= i < lines(text).len(),
    ensures
        occurs(text, lines(text)[i]),
    decreases text.len(),
{
    let n = line_length(text);
    if n >= text.len() {
        assert(text.subrange(0, text.len() as int) =~= text);
        assert(occurs_at(text, lines(text)[i], 0));
    } else {
        let line = text.take(n as int);
        let rest = text.skip(n as int + 1);
        if i == 0 {
            let first = lines(text)[0];
            assert(first == without_return(line));
            assert(text.subrange(0, first.len() as int) =~= first);
            assert(occurs_at(text, first, 0));
        } else {
            assert(lines(text)[i] == lines(rest)[i - 1]);
            lemma_line_stands_in_text(rest, i - 1);
            let part = lines(rest)[i - 1];
            let at = choose|at: int| occurs_at(rest, part, at);
            assert(text.subrange(at + n + 1, at + n + 1 + part.len()) =~= part) by {
                assert(rest.subrange(at, at + part.len()) == part);
            }
            assert(occurs_at(text, part, at + n + 1));
        }
    }
}

/// What stands in a part of a text stands in the text.
pub proof fn lemma_part_of_part(text: Seq<char>, part: Seq<char>, inner: Seq<char>)
    requires
        occurs(text, part),
        occurs(part, inner),
    ensures
        occurs(text, inner),
{
    let at = choose|at: int| occurs_at(text, part, at);
    let place = choose|place: int| occurs_at(part, inner, place);
    assert(text.subrange(at, at + part.len()) == part);
    assert(text.subrange(at + place, at + place + inner.len()) =~= inner) by {
        assert(part.subrange(place, place + inner.len()) == inner);
    }
    assert(occurs_at(text, inner, at + place));
}

/// What is left of a text when it is trimmed is what stands between the white
/// space at its two ends.
pub proof fn law_trimmed(text: Seq<char>) -> (ends: (int, int))
    ensures
        0 <= ends.0 <= ends.1 <= text.len(),
        trimmed(text) == text.subrange(ends.0, ends.1),
        forall|i: int| 0 <= i < ends.0 ==> is_space(#[trigger] text[i]),
        forall|i: int| ends.1 <= i < text.len() ==> is_space(#[trigger] text[i]),
        ends.0 < ends.1 ==> !is_space(text[ends.0]) && !is_space(text[ends.1 - 1]),
{
    let start = lemma_trimmed_start(text);
    let rest = text.skip(start);
    let length = lemma_trimmed_end(rest);
    assert(rest.take(length) =~= text.subrange(start, start + length));
    if length == 0 && rest.len() > 0 {
        assert(is_space(rest[0]));
        assert(rest[0] == text[start]);
    }
    assert forall|i: int| start + length <= i < text.len() implies is_space(#[trigger] text[i]) by {
        assert(rest[i - start] == text[i]);
    }
    if length > 0 {
        assert(rest[length - 1] == text[start + length - 1]);
    }
    (start, start + length)
}

proof fn lemma_trimmed_start(text: Seq<char>) -> (start: int)
    ensures
        0 <= start <= text.len(),
        trim_start(text) == text.skip(start),
        forall|i: int| 0 <= i < start ==> is_space(#[trigger] text[i]),
        start < text.len() ==> !is_space(text[start]),
    decreases text.len(),
{
    if text.len() > 0 && is_space(text[0]) {
        let rest = text.drop_first();
        let start = lemma_trimmed_start(rest);
        assert(rest.skip(start) =~= text.skip(start + 1));
        assert forall|i: int| 0 <= i < start + 1 implies is_space(#[trigger] text[i]) by {
            if i > 0 {
                assert(rest[i - 1] == text[i]);
            }
        }
        if start < rest.len() {
            assert(rest[start] == text[start + 1]);
        }
        start + 1
    } else {
        assert(text.skip(0) =~= text);
        0
    }
}

proof fn lemma_trimmed_end(text: Seq<char>) -> (length: int)
    ensures
        0 <= length <= text.len(),
        trim_end(text) == text.take(length),
        forall|i: int| length <= i < text.len() ==> is_space(#[trigger] text[i]),
        length > 0 ==> !is_space(text[length - 1]),
    decreases text.len(),
{
    if text.len() > 0 && is_space(text.last()) {
        let rest = text.drop_last();
        let length = lemma_trimmed_end(rest);
        assert(rest.take(length) =~= text.take(length));
        assert forall|i: int| length <= i < text.len() implies is_space(#[trigger] text[i]) by {
            if i < rest.len() {
                assert(rest[i] == text[i]);
            }
        }
        if length > 0 {
            assert(rest[length - 1] == text[length - 1]);
        }
        length
    } else {
        assert(text.take(text.len() as int) =~= text);
        text.len() as int
    }
}

/// A run of characters without white space is one word.
pub proof fn law_one_word(text: Seq<char>)
    requires
        text.len() > 0,
        forall|i: int| 0 <= i < text.len() ==> !is_space(#[trigger] text[i]),
    ensures
        words(text) == seq![text],
{
    lemma_word_length(text, text.len());
    assert(text.take(text.len() as int) =~= text);
    assert(text.skip(text.len() as int) =~= Seq::<char>::empty());
    assert(words(Seq::<char>::empty()) =~= Seq::<Seq<char>>::empty());
}

proof fn lemma_word_length(text: Seq<char>, n: nat)
    requires
        n <= text.len(),
        forall|i: int| 0 <= i < n ==> !is_space(#[trigger] text[i]),
        n < text.len() ==> is_space(text[n as int]),
    ensures
        word_length(text) == n,
    decreases n,
{
    if n > 0 {
        let rest = text.drop_first();
        assert forall|i: int| 0 <= i < n - 1 implies !is_space(#[trigger] rest[i]) by {
            assert(rest[i] == text[i + 1]);
        }
        lemma_word_length(rest, (n - 1) as nat);
    }
}

/// The first word of a text ends at the first white space behind it. White space
/// before it does not matter, and the other words are those of what follows.
pub proof fn law_first_word(space: char, first: Seq<char>, after: char, rest: Seq<char>)
    requires
        is_space(space),
        is_space(after),
        first.len() > 0,
        forall|i: int| 0 <= i < first.len() ==> !is_space(#[trigger] first[i]),
    ensures
        words(first.push(after) + rest) == seq![first] + words(rest),
        words(seq![space] + rest) == words(rest),
{
    let text = first.push(after) + rest;
    assert(text[0] == first[0]);
    assert forall|i: int| 0 <= i < first.len() implies !is_space(#[trigger] text[i]) by {
        assert(text[i] == first[i]);
    }
    assert(text[first.len() as int] == after);
    lemma_word_length(text, first.len());
    assert(text.take(first.len() as int) =~= first);
    assert(text.skip(first.len() as int) =~= seq![after] + rest);
    assert((seq![after] + rest).drop_first() =~= rest);
    lemma_words_trimmed(seq![after] + rest);
    lemma_words_trimmed(rest);
    assert((seq![space] + rest).drop_first() =~= rest);
    lemma_words_trimmed(seq![space] + rest);
}

/// The value of a digit: that of its place in the notation.
pub open spec fn digit_value(c: char) -> int {
    if '0' <= c && c <= '9' {
        c as int - '0' as int
    } else if 'a' <= c && c <= 'f' {
        c as int - 'a' as int + 10
    } else {
        -1
    }
}

/// What digits stand for in a base.
pub open spec fn value_in(text: Seq<char>, base: nat) -> int
    decreases text.len(),
{
    if text.len() == 0 {
        0
    } else {
        base * value_in(text.drop_last(), base) + digit_value(text.last())
    }
}

/// Decimal and hexadecimal notation stand for the number that was written down,
/// in digits of the base and without a zero before others.
pub proof fn law_digits(n: nat, base: nat)
    requires
        base == 10 || base == 16,
    ensures
        value_in(digits(n, base), base) == n,
        digits(n, base).len() > 0,
        n > 0 ==> digits(n, base)[0] != '0',
        n == 0 ==> digits(n, base) == seq!['0'],
        forall|i: int|
            0 <= i < digits(n, base).len() ==> 0 <= digit_value(#[trigger] digits(n, base)[i])
                < base,
    decreases n,
{
    let text = digits(n, base);
    if n < base {
        assert(text.drop_last() =~= Seq::<char>::empty());
        assert(value_in(text.drop_last(), base) == 0);
        assert(text.last() == digit_char(n as int));
        assert(base * value_in(text.drop_last(), base) == 0);
        assert(digit_value(text[0]) == n);
    } else {
        let m = n / base;
        assert(m < n && m > 0 && n == base * m + n % base && 0 <= n % base < base) by {
            if base == 10 {
                assert(n == 10 * (n / 10) + n % 10);
            } else {
                assert(n == 16 * (n / 16) + n % 16);
            }
        }
        law_digits(m, base);
        let before = digits(m, base);
        assert(text.drop_last() =~= before);
        assert(text.last() == digit_char((n % base) as int));
        assert(digit_value(text.last()) == n % base);
        assert(text[0] == before[0]);
        assert forall|i: int| 0 <= i < text.len() implies 0 <= digit_value(#[trigger] text[i])
            < base by {
            if i < before.len() {
                assert(text[i] == before[i]);
            }
        }
    }
}

/// A negative number is written with a sign before its magnitude.
pub proof fn law_signed_decimal(n: int)
    ensures
        n >= 0 ==> signed_decimal(n) == digits(n as nat, 10),
        n < 0 ==> signed_decimal(n) == seq!['-'] + digits((-n) as nat, 10),
{
}

/// A part stands in a text exactly if the text is something, the part, and
/// something else. It stands first where it does not stand in anything shorter.
pub proof fn law_occurs(text: Seq<char>, part: Seq<char>, before: Seq<char>, after: Seq<char>)
    ensures
        text == before + part + after ==> occurs(text, part) && occurs_at(
            text,
            part,
            before.len() as int,
        ),
        occurs(text, part) ==> exists|at: int|
            0 <= at <= text.len() - part.len() && #[trigger] text.subrange(at, at + part.len())
                == part,
        occurs_first(text, part, before.len() as int) ==> text.len() >= before.len() + part.len()
            && text.subrange(before.len() as int, (before.len() + part.len()) as int) == part
            && !occurs(text.take((before.len() + part.len() - 1) as int), part) || part.len() == 0,
{
    if text == before + part + after {
        let at = before.len() as int;
        assert(text.subrange(at, at + part.len()) =~= part);
        assert(occurs_at(text, part, at));
    }
    if occurs(text, part) {
        let at = choose|at: int| occurs_at(text, part, at);
        assert(text.subrange(at, at + part.len()) == part);
    }
    if occurs_first(text, part, before.len() as int) && part.len() > 0 {
        let start = text.take((before.len() + part.len() - 1) as int);
        if occurs(start, part) {
            let at = choose|at: int| occurs_at(start, part, at);
            assert(start.subrange(at, at + part.len()) =~= text.subrange(at, at + part.len()));
            assert(occurs_at(text, part, at));
        }
    }
}

} // verus!
