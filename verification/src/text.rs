//! Text helpers: characters, UTF-8, decimal numbers and the order of strings.
use vstd::prelude::*;

verus! {

/// [`String::push`] appends one character to the end of the string.
pub assume_specification[ std::string::String::push ](s: &mut std::string::String, c: char)
    ensures
        final(s)@ == old(s)@.push(c),
;

/// Calls [`std::str::from_utf8`]: bytes that are valid UTF-8 give the string that they
/// encode, and all other bytes give nothing.
#[verifier::external_body]
pub(crate) fn checked_utf8(bytes: &[u8]) -> (r: Option<&str>)
    ensures
        r is Some <==> vstd::utf8::valid_utf8(bytes@),
        r matches Some(s) ==> vstd::utf8::encode_utf8(s@) == bytes@,
{
    std::str::from_utf8(bytes).ok()
}

/// The text that `bytes` encode in UTF-8, if they are valid UTF-8.
pub fn utf8_text(bytes: &[u8]) -> (r: Option<String>)
    ensures
        r is Some <==> vstd::utf8::valid_utf8(bytes@),
        r matches Some(s) ==> s@ == vstd::utf8::decode_utf8(bytes@),
{
    broadcast use vstd::utf8::encode_utf8_decode_utf8;
    match checked_utf8(bytes) {
        Some(s) => Some(s.to_owned()),
        None => None,
    }
}

/// The characters of a string.
pub fn chars_of(s: &str) -> (r: Vec<char>)
    ensures
        r@ == s@,
{
    let mut v: Vec<char> = Vec::new();
    for c in it: s.chars()
        invariant
            v@ == it.seq().take(it.index() as int),
    {
        v.push(c);
    }
    v
}

/// The string made of the characters `from..to` of `chars`.
pub fn string_of(chars: &Vec<char>, from: usize, to: usize) -> (r: String)
    requires
        from <= to <= chars@.len(),
    ensures
        r@ == chars@.subrange(from as int, to as int),
{
    let mut s = String::new();
    let mut i: usize = from;
    while i < to
        invariant
            from <= i <= to <= chars@.len(),
            s@ == chars@.subrange(from as int, i as int),
        decreases to - i,
    {
        s.push(chars[i]);
        i += 1;
        assert(s@ =~= chars@.subrange(from as int, i as int));
    }
    s
}

// ---------------------------------------------------------------------------
// Pieces of text
// ---------------------------------------------------------------------------

/// How many characters stand before the first `c`; all of them, if there is none.
pub open spec fn prefix_len(s: Seq<char>, c: char) -> int
    decreases s.len(),
{
    if s.len() == 0 || s[0] == c {
        0
    } else {
        1 + prefix_len(s.skip(1), c)
    }
}

/// What [`prefix_len`] means: a `c` stands there, and none before.
pub proof fn prefix_len_is_first(s: Seq<char>, c: char)
    ensures
        0 <= prefix_len(s, c) <= s.len(),
        prefix_len(s, c) < s.len() ==> s[prefix_len(s, c)] == c,
        forall|i: int| 0 <= i < prefix_len(s, c) ==> #[trigger] s[i] != c,
    decreases s.len(),
{
    if s.len() > 0 && s[0] != c {
        prefix_len_is_first(s.skip(1), c);
        assert forall|i: int| 0 <= i < prefix_len(s, c) implies #[trigger] s[i] != c by {
            if i > 0 {
                assert(s.skip(1)[i - 1] == s[i]);
            }
        }
        assert(prefix_len(s, c) < s.len() ==> s.skip(1)[prefix_len(s, c) - 1] == s[prefix_len(
            s,
            c,
        )]);
    }
}

/// The first `c` is the only place where a `c` stands with none before.
pub proof fn prefix_len_unique(s: Seq<char>, c: char, n: int)
    requires
        0 <= n <= s.len(),
        n < s.len() ==> s[n] == c,
        forall|i: int| 0 <= i < n ==> #[trigger] s[i] != c,
    ensures
        prefix_len(s, c) == n,
{
    prefix_len_is_first(s, c);
    let m = prefix_len(s, c);
    if m < n {
        assert(s[m] != c);
    } else if n < m {
        assert(s[n] != c);
    }
}

/// The position of the first `c` at or behind `from`, or the length of the text.
pub fn find_char(chars: &Vec<char>, from: usize, c: char) -> (r: usize)
    requires
        from <= chars@.len(),
    ensures
        r == from + prefix_len(chars@.skip(from as int), c),
        from <= r <= chars@.len(),
        r < chars@.len() ==> chars@[r as int] == c,
{
    let mut i: usize = from;
    while i < chars.len() && chars[i] != c
        invariant
            from <= i <= chars@.len(),
            forall|k: int| from <= k < i ==> #[trigger] chars@[k] != c,
        decreases chars@.len() - i,
    {
        i += 1;
    }
    proof {
        let s = chars@.skip(from as int);
        assert forall|k: int| 0 <= k < i - from implies #[trigger] s[k] != c by {
            assert(s[k] == chars@[from + k]);
        }
        prefix_len_unique(s, c, i - from);
    }
    i
}

/// The pieces of a text between the characters `c`.
pub open spec fn split_at_each(s: Seq<char>, c: char) -> Seq<Seq<char>>
    decreases s.len(),
{
    let i = prefix_len(s, c);
    if i < 0 || i >= s.len() {
        seq![s]
    } else {
        seq![s.take(i)] + split_at_each(s.skip(i + 1), c)
    }
}

/// A piece that is put behind a text with a `c` between them is one more piece of the text.
pub proof fn split_at_each_push(s: Seq<char>, c: char, piece: Seq<char>)
    requires
        forall|i: int| 0 <= i < piece.len() ==> #[trigger] piece[i] != c,
    ensures
        split_at_each(s + seq![c] + piece, c) == split_at_each(s, c).push(piece),
    decreases s.len(),
{
    let all = s + seq![c] + piece;
    let i = prefix_len(s, c);
    prefix_len_is_first(s, c);
    assert forall|k: int| 0 <= k < i implies #[trigger] all[k] != c by {
        assert(all[k] == s[k]);
    }
    prefix_len_unique(all, c, i);
    assert(all.take(i) =~= s.take(i));
    if i == s.len() {
        assert(s.take(i) =~= s);
        assert(all.skip(i + 1) =~= piece);
        prefix_len_unique(piece, c, piece.len() as int);
        assert(split_at_each(piece, c) == seq![piece]);
        assert(split_at_each(s, c) == seq![s]);
        assert(split_at_each(all, c) =~= split_at_each(s, c).push(piece));
    } else {
        assert(all.skip(i + 1) =~= s.skip(i + 1) + seq![c] + piece);
        split_at_each_push(s.skip(i + 1), c, piece);
        assert(split_at_each(all, c) =~= split_at_each(s, c).push(piece));
    }
}

/// What some strings hold.
pub open spec fn texts_of(strings: Seq<String>) -> Seq<Seq<char>> {
    Seq::new(strings.len(), |i: int| strings[i]@)
}

/// The pieces of a string between the characters `c`.
pub fn split(s: &str, c: char) -> (r: Vec<String>)
    ensures
        texts_of(r@) == split_at_each(s@, c),
        r@.len() > 0,
{
    let chars = chars_of(s);
    let mut r: Vec<String> = Vec::new();
    let mut at: usize = 0;
    assert(chars@.skip(0) =~= chars@);
    assert(texts_of(r@) + split_at_each(s@, c) =~= split_at_each(s@, c));
    loop
        invariant
            at <= chars@.len(),
            chars@ == s@,
            split_at_each(s@, c) == texts_of(r@) + split_at_each(chars@.skip(at as int), c),
        decreases chars@.len() - at,
    {
        let end: usize = find_char(&chars, at, c);
        let ghost before = texts_of(r@);
        let ghost left = chars@.skip(at as int);
        r.push(string_of(&chars, at, end));
        assert(chars@.subrange(at as int, end as int) =~= left.take(end - at));
        assert(texts_of(r@) =~= before.push(left.take(end - at)));
        if end == chars.len() {
            assert(left.take(end - at) =~= left);
            assert(before + seq![left] =~= texts_of(r@));
            return r;
        }
        assert(left.skip(end - at + 1) =~= chars@.skip(end + 1));
        assert(before + (seq![left.take(end - at)] + split_at_each(chars@.skip(end + 1), c))
            =~= texts_of(r@) + split_at_each(chars@.skip(end + 1), c));
        at = end + 1;
    }
}

// ---------------------------------------------------------------------------
// Decimal numbers
// ---------------------------------------------------------------------------

/// The character of a decimal digit.
pub open spec fn digit_char(d: nat) -> char {
    (48 + d) as char
}

/// A natural number in decimal, without leading zeros.
pub open spec fn decimal(n: nat) -> Seq<char>
    decreases n,
{
    if n < 10 {
        seq![digit_char(n)]
    } else {
        decimal(n / 10).push(digit_char(n % 10))
    }
}

/// An integer in decimal, with a minus sign in front of a negative one.
pub open spec fn signed_decimal(n: int) -> Seq<char> {
    if n < 0 {
        seq!['-'] + decimal((-n) as nat)
    } else {
        decimal(n as nat)
    }
}

/// Appends a number in decimal.
pub fn push_decimal(buf: &mut String, n: u64)
    ensures
        final(buf)@ == old(buf)@ + decimal(n as nat),
    decreases n,
{
    let ghost before = buf@;
    if n >= 10 {
        push_decimal(buf, n / 10);
    }
    let d: u8 = (n % 10) as u8;
    let c: char = (48 + d) as char;
    buf.push(c);
    assert(buf@ =~= before + decimal(n as nat));
}

/// Appends a signed number in decimal.
pub fn push_signed_decimal(buf: &mut String, n: i64)
    ensures
        final(buf)@ == old(buf)@ + signed_decimal(n as int),
{
    let ghost before = buf@;
    if n < 0 {
        buf.push('-');
        let m: u64 = if n == i64::MIN { 0x8000_0000_0000_0000 } else { (-n) as u64 };
        push_decimal(buf, m);
        assert(buf@ =~= before + signed_decimal(n as int));
    } else {
        push_decimal(buf, n as u64);
    }
}

// ---------------------------------------------------------------------------
// Order of strings
// ---------------------------------------------------------------------------

/// Lexicographic order by code point.
pub open spec fn text_less(a: Seq<char>, b: Seq<char>) -> bool
    decreases a.len(),
{
    if b.len() == 0 {
        false
    } else if a.len() == 0 {
        true
    } else if a[0] != b[0] {
        a[0] < b[0]
    } else {
        text_less(a.drop_first(), b.drop_first())
    }
}

/// No text stands before itself.
pub proof fn text_less_irreflexive(a: Seq<char>)
    ensures
        !text_less(a, a),
    decreases a.len(),
{
    if a.len() > 0 {
        text_less_irreflexive(a.drop_first());
    }
}

/// The order of texts is transitive.
pub proof fn text_less_transitive(a: Seq<char>, b: Seq<char>, c: Seq<char>)
    requires
        text_less(a, b),
        text_less(b, c),
    ensures
        text_less(a, c),
    decreases a.len(),
{
    if a.len() > 0 && b.len() > 0 && c.len() > 0 && a[0] == b[0] && b[0] == c[0] {
        text_less_transitive(a.drop_first(), b.drop_first(), c.drop_first());
    }
}

/// Two different texts are ordered one way or the other.
pub proof fn text_less_total(a: Seq<char>, b: Seq<char>)
    ensures
        a == b || text_less(a, b) || text_less(b, a),
    decreases a.len(),
{
    if a.len() > 0 && b.len() > 0 && a[0] == b[0] {
        text_less_total(a.drop_first(), b.drop_first());
        if a.drop_first() == b.drop_first() {
            assert(a =~= seq![a[0]] + a.drop_first());
            assert(b =~= seq![b[0]] + b.drop_first());
        }
    } else if a.len() == 0 && b.len() == 0 {
        assert(a =~= b);
    }
}

/// How one text stands to another.
#[derive(Debug, Clone, Copy, PartialEq, Eq, Structural)]
pub enum Standing {
    Before,
    Same,
    After,
}

/// What [`Standing`] says of two texts.
pub open spec fn standing(a: Seq<char>, b: Seq<char>) -> Standing {
    if a == b {
        Standing::Same
    } else if text_less(a, b) {
        Standing::Before
    } else {
        Standing::After
    }
}

/// Orders two strings.
pub fn text_standing(a: &str, b: &str) -> (r: Standing)
    ensures
        r == standing(a@, b@),
{
    let x = chars_of(a);
    let y = chars_of(b);
    let mut i: usize = 0;
    assert(x@.skip(0) =~= x@);
    assert(y@.skip(0) =~= y@);
    while i < x.len() && i < y.len() && x[i] == y[i]
        invariant
            i <= x.len(),
            i <= y.len(),
            x@ == a@,
            y@ == b@,
            x@.take(i as int) == y@.take(i as int),
            text_less(a@, b@) == text_less(x@.skip(i as int), y@.skip(i as int)),
        decreases x.len() - i,
    {
        assert(x@.skip(i as int).drop_first() =~= x@.skip(i + 1));
        assert(y@.skip(i as int).drop_first() =~= y@.skip(i + 1));
        i += 1;
        assert(x@.take(i as int) =~= x@.take(i - 1).push(x@[i - 1]));
        assert(y@.take(i as int) =~= y@.take(i - 1).push(y@[i - 1]));
    }
    assert(i < x.len() ==> x@.skip(i as int)[0] == x@[i as int]);
    assert(i < y.len() ==> y@.skip(i as int)[0] == y@[i as int]);
    if i == x.len() {
        if i == y.len() {
            assert(x@.take(i as int) =~= x@);
            assert(y@.take(i as int) =~= y@);
            Standing::Same
        } else {
            Standing::Before
        }
    } else if i == y.len() {
        Standing::After
    } else if x[i] < y[i] {
        Standing::Before
    } else {
        Standing::After
    }
}

/// Whether two strings are the same.
pub fn same_text(a: &str, b: &str) -> (r: bool)
    ensures
        r == (a@ == b@),
{
    text_standing(a, b) == Standing::Same
}

// ---------------------------------------------------------------------------
// What texts and numbers are
// ---------------------------------------------------------------------------

/// A text in which no `c` stands is its only piece. With [`split_at_each_push`] this says what the
/// pieces of any text are.
pub proof fn split_at_each_plain(s: Seq<char>, c: char)
    requires
        forall|i: int| 0 <= i < s.len() ==> #[trigger] s[i] != c,
    ensures
        split_at_each(s, c) == seq![s],
{
    prefix_len_unique(s, c, s.len() as int);
}

/// The number that decimal digits stand for.
pub open spec fn digits_value(digits: Seq<char>) -> int
    decreases digits.len(),
{
    if digits.len() == 0 {
        0
    } else {
        digits_value(digits.drop_last()) * 10 + (digits.last() as int - '0' as int)
    }
}

/// A natural number is written in decimal digits that stand for it, without a zero in front unless
/// it is zero.
pub proof fn decimal_stands_for_its_number(n: nat)
    ensures
        digits_value(decimal(n)) == n,
        decimal(n).len() > 0,
        forall|i: int| 0 <= i < decimal(n).len() ==> '0' <= #[trigger] decimal(n)[i] <= '9',
        n > 0 ==> decimal(n)[0] != '0',
        n == 0 ==> decimal(n) == seq!['0'],
    decreases n,
{
    if n < 10 {
        assert(decimal(n).drop_last() =~= Seq::empty());
        assert(digits_value(decimal(n).drop_last()) == 0);
    } else {
        decimal_stands_for_its_number(n / 10);
        assert(decimal(n).drop_last() =~= decimal(n / 10));
    }
}

/// A negative number is written as a minus sign and its absolute value, any other number as it is.
pub proof fn signed_decimal_has_a_sign(n: int)
    ensures
        n < 0 ==> signed_decimal(n).len() > 0 && signed_decimal(n)[0] == '-' && signed_decimal(n).skip(
            1,
        ) == decimal((-n) as nat),
        n >= 0 ==> signed_decimal(n) == decimal(n as nat),
{
    if n < 0 {
        assert(signed_decimal(n).skip(1) =~= decimal((-n) as nat));
    }
}

/// The first place where two texts differ decides how they stand to each other, and a text stands
/// before any longer one that starts with it.
pub proof fn first_difference_decides(a: Seq<char>, b: Seq<char>, k: int)
    requires
        0 <= k <= a.len(),
        k <= b.len(),
        forall|i: int| 0 <= i < k ==> #[trigger] a[i] == b[i],
        k < a.len() && k < b.len() ==> a[k] != b[k],
    ensures
        text_less(a, b) == (k < b.len() && (k == a.len() || a[k] < b[k])),
        standing(a, b) == if k == a.len() && k == b.len() {
            Standing::Same
        } else if k < b.len() && (k == a.len() || a[k] < b[k]) {
            Standing::Before
        } else {
            Standing::After
        },
    decreases k,
{
    if k == a.len() && k == b.len() {
        assert(a =~= b);
    } else if k < a.len() && k < b.len() {
        assert(a[k] != b[k]);
    }
    if k > 0 {
        let x = a.drop_first();
        let y = b.drop_first();
        assert(a[0] == b[0]);
        assert forall|i: int| 0 <= i < k - 1 implies #[trigger] x[i] == y[i] by {
            assert(x[i] == a[i + 1] && y[i] == b[i + 1]);
        }
        first_difference_decides(x, y, k - 1);
    }
}

/// What some strings hold is what each of them holds.
pub proof fn texts_are_those_of_the_strings(strings: Seq<String>, i: int)
    requires
        0 <= i < strings.len(),
    ensures
        texts_of(strings).len() == strings.len(),
        texts_of(strings)[i] == strings[i]@,
{
}

} // verus!
