//! Text as sequences of characters: numbers in and out of it, and the cuts
//! the command line and the control protocol make in it.

use vstd::prelude::*;

verus! {

/// `String::push` appends the character at the end.
pub assume_specification[ String::push ](s: &mut String, c: char)
    ensures
        final(s)@ == old(s)@.push(c),
;

/// The characters of a string, in order.
pub fn chars_of(s: &str) -> (v: Vec<char>)
    ensures
        v@ == s@,
{
    let mut v: Vec<char> = Vec::new();
    for c in it: s.chars()
        invariant
            v@ == it.seq().take(it.index() as int),
            it.seq() == s@,
    {
        v.push(c);
    }
    v
}

/// The string of the characters from `from` up to `to`.
pub fn string_of(v: &Vec<char>, from: usize, to: usize) -> (s: String)
    requires
        from <= to <= v@.len(),
    ensures
        s@ == v@.subrange(from as int, to as int),
{
    let mut s = String::new();
    let mut i: usize = from;
    while i < to
        invariant
            from <= i <= to <= v@.len(),
            s@ == v@.subrange(from as int, i as int),
        decreases to - i,
    {
        s.push(v[i]);
        i += 1;
    }
    s
}

/// Whether two strings hold the same characters.
pub fn same(a: &str, b: &str) -> (r: bool)
    ensures
        r == (a@ == b@),
{
    let x = chars_of(a);
    let y = chars_of(b);
    if x.len() != y.len() {
        return false;
    }
    let mut i: usize = 0;
    while i < x.len()
        invariant
            i <= x@.len() == y@.len(),
            forall|k: int| 0 <= k < i ==> x@[k] == y@[k],
            x@ == a@,
            y@ == b@,
        decreases x@.len() - i,
    {
        if x[i] != y[i] {
            return false;
        }
        i += 1;
    }
    assert(x@ =~= y@);
    true
}

// ---------------------------------------------------------------------------
// Cuts.

/// Where a character first stands in a text, or the text's length.
pub open spec fn first_index(s: Seq<char>, c: char) -> nat
    decreases s.len(),
{
    if s.len() == 0 || s[0] == c {
        0
    } else {
        1 + first_index(s.skip(1), c)
    }
}

pub proof fn lemma_first_index(s: Seq<char>, c: char)
    ensures
        first_index(s, c) <= s.len(),
        forall|i: int| 0 <= i < first_index(s, c) ==> s[i] != c,
        first_index(s, c) < s.len() ==> s[first_index(s, c) as int] == c,
    decreases s.len(),
{
    if s.len() > 0 && s[0] != c {
        lemma_first_index(s.skip(1), c);
        assert forall|i: int| 0 <= i < first_index(s, c) implies s[i] != c by {
            if i > 0 {
                assert(s[i] == s.skip(1)[i - 1]);
            }
        }
    }
}

/// The first index is the only one with the character there and nowhere
/// before it.
pub proof fn lemma_first_index_is(s: Seq<char>, c: char, k: int)
    requires
        0 <= k <= s.len(),
        forall|i: int| 0 <= i < k ==> s[i] != c,
        k == s.len() || s[k] == c,
    ensures
        first_index(s, c) == k,
{
    lemma_first_index(s, c);
}

/// Where `c` first stands in `v` from `from` on, or its length.
pub fn index_from(v: &Vec<char>, from: usize, c: char) -> (k: usize)
    requires
        from <= v@.len(),
    ensures
        from <= k <= v@.len(),
        k == from + first_index(v@.skip(from as int), c),
{
    let mut i: usize = from;
    while i < v.len() && v[i] != c
        invariant
            from <= i <= v@.len(),
            forall|j: int| from <= j < i ==> v@[j] != c,
        decreases v@.len() - i,
    {
        i += 1;
    }
    proof {
        lemma_first_index_is(v@.skip(from as int), c, i - from);
    }
    i
}

/// How many of a character stand at the start of a text.
pub open spec fn lead_len(s: Seq<char>, c: char) -> nat
    decreases s.len(),
{
    if s.len() > 0 && s[0] == c {
        1 + lead_len(s.skip(1), c)
    } else {
        0
    }
}

/// What is left of a text without the `c`s at its start.
pub open spec fn trim_lead(s: Seq<char>, c: char) -> Seq<char> {
    s.skip(lead_len(s, c) as int)
}

pub proof fn lemma_lead_len(s: Seq<char>, c: char)
    ensures
        lead_len(s, c) <= s.len(),
        forall|i: int| 0 <= i < lead_len(s, c) ==> s[i] == c,
        lead_len(s, c) < s.len() ==> s[lead_len(s, c) as int] != c,
    decreases s.len(),
{
    if s.len() > 0 && s[0] == c {
        lemma_lead_len(s.skip(1), c);
        assert forall|i: int| 0 <= i < lead_len(s, c) implies s[i] == c by {
            if i > 0 {
                assert(s[i] == s.skip(1)[i - 1]);
            }
        }
    }
}

pub proof fn lemma_lead_len_is(s: Seq<char>, c: char, k: int)
    requires
        0 <= k <= s.len(),
        forall|i: int| 0 <= i < k ==> s[i] == c,
        k == s.len() || s[k] != c,
    ensures
        lead_len(s, c) == k,
{
    lemma_lead_len(s, c);
}

pub fn lead(v: &Vec<char>, c: char) -> (k: usize)
    ensures
        k == lead_len(v@, c),
        k <= v@.len(),
{
    let mut i: usize = 0;
    while i < v.len() && v[i] == c
        invariant
            i <= v@.len(),
            forall|j: int| 0 <= j < i ==> v@[j] == c,
        decreases v@.len() - i,
    {
        i += 1;
    }
    proof {
        lemma_lead_len_is(v@, c, i as int);
    }
    i
}

/// Whether a text begins with another.
pub fn begins_with(s: &str, p: &str) -> (r: bool)
    ensures
        r == p@.is_prefix_of(s@),
{
    let a = chars_of(s);
    let b = chars_of(p);
    if b.len() > a.len() {
        return false;
    }
    let mut i: usize = 0;
    while i < b.len()
        invariant
            a@ == s@,
            b@ == p@,
            i <= b@.len() <= a@.len(),
            forall|k: int| 0 <= k < i ==> a@[k] == b@[k],
        decreases b@.len() - i,
    {
        if a[i] != b[i] {
            assert(s@.subrange(0, p@.len() as int)[i as int] != p@[i as int]);
            return false;
        }
        i += 1;
    }
    assert(p@ =~= s@.subrange(0, p@.len() as int));
    true
}

/// Bytes as the characters of the same codes.
pub open spec fn latin(b: Seq<u8>) -> Seq<char> {
    Seq::new(b.len(), |i: int| b[i] as char)
}

pub fn latin_string(b: &[u8]) -> (s: String)
    ensures
        s@ == latin(b@),
{
    let mut s = String::new();
    let mut i: usize = 0;
    while i < b.len()
        invariant
            i <= b@.len(),
            s@ == latin(b@.take(i as int)),
        decreases b@.len() - i,
    {
        s.push(b[i] as char);
        i += 1;
        assert(s@ =~= latin(b@.take(i as int)));
    }
    assert(b@.take(i as int) =~= b@);
    s
}

/// The texts of strings.
pub open spec fn texts(s: Seq<String>) -> Seq<Seq<char>> {
    Seq::new(s.len(), |i: int| s[i]@)
}

/// How Rust's `{:?}` writes a text: in quotes, what does not print escaped.
pub uninterp spec fn debug_text(s: Seq<char>) -> Seq<char>;

/// Whether a text is of printable ASCII characters that stand for themselves in a
/// string literal.
pub open spec fn is_plain(s: Seq<char>) -> bool {
    forall|i: int|
        0 <= i < s.len() ==> ' ' <= (#[trigger] s[i]) <= '~' && s[i] != '"' && s[i] != '\''
            && s[i] != '\\'
}

/// The `{:?}` form of a string, by `format!`. What it writes is a function of
/// the characters alone: a plain text in quotes. Which other characters it
/// escapes is not said here.
#[verifier::external_body]
pub(crate) fn debug_string(s: &str) -> (r: String)
    ensures
        r@ == debug_text(s@),
        is_plain(s@) ==> r@ == seq!['"'] + s@ + seq!['"'],
{
    format!("{:?}", s)
}

// ---------------------------------------------------------------------------
// Decimal numbers.

pub open spec fn is_digit(c: char) -> bool {
    '0' <= c && c <= '9'
}

/// The digit of a number below ten.
pub open spec fn digit_char(d: nat) -> char {
    (('0' as nat) + d) as char
}

pub open spec fn digit_value(c: char) -> nat {
    ((c as int) - ('0' as int)) as nat
}

/// A number in decimal, with no leading zeros.
pub open spec fn decimal(n: nat) -> Seq<char>
    decreases n,
{
    if n < 10 {
        seq![digit_char(n)]
    } else {
        decimal(n / 10).push(digit_char(n % 10))
    }
}

/// A number in decimal, with a minus sign in front of a negative one.
pub open spec fn signed_decimal(n: int) -> Seq<char> {
    if n < 0 {
        seq!['-'] + decimal((-n) as nat)
    } else {
        decimal(n as nat)
    }
}

pub open spec fn all_digits(s: Seq<char>) -> bool {
    forall|i: int| 0 <= i < s.len() ==> is_digit(#[trigger] s[i])
}

/// The number a sequence of digits stands for.
pub open spec fn value_of(s: Seq<char>) -> nat
    decreases s.len(),
{
    if s.len() == 0 {
        0
    } else {
        10 * value_of(s.drop_last()) + digit_value(s.last())
    }
}

pub proof fn lemma_decimal_digits(n: nat)
    ensures
        decimal(n).len() >= 1,
        all_digits(decimal(n)),
        value_of(decimal(n)) == n,
    decreases n,
{
    reveal_with_fuel(value_of, 2);
    if n < 10 {
        assert(decimal(n).drop_last() =~= Seq::<char>::empty());
    } else {
        lemma_decimal_digits(n / 10);
        assert(decimal(n).drop_last() =~= decimal(n / 10));
    }
}

pub fn u128_text(n: u128) -> (s: String)
    ensures
        s@ == decimal(n as nat),
{
    let mut rev: Vec<char> = Vec::new();
    let mut m: u128 = n;
    while m >= 10
        invariant
            decimal(n as nat) == decimal(m as nat) + rev@.reverse(),
        decreases m,
    {
        let d: u8 = (m % 10) as u8;
        let c: char = (48u8 + d) as char;
        let ghost before = rev@;
        rev.push(c);
        proof {
            assert(decimal(m as nat) == decimal((m / 10) as nat).push(digit_char((m % 10) as nat)));
            assert(c == digit_char((m % 10) as nat));
            assert(rev@.reverse() =~= seq![c] + before.reverse());
            assert(decimal((m / 10) as nat).push(c) + before.reverse() =~= decimal((m / 10) as nat) + (seq![c]
                + before.reverse()));
        }
        m = m / 10;
    }
    let c: char = (48u8 + m as u8) as char;
    let mut s = String::new();
    s.push(c);
    let mut i: usize = rev.len();
    assert(s@ =~= decimal(m as nat) + rev@.reverse().take(0));
    while i > 0
        invariant
            i <= rev@.len(),
            s@ == decimal(m as nat) + rev@.reverse().take(rev@.len() - i),
        decreases i,
    {
        i -= 1;
        s.push(rev[i]);
        assert(rev@.reverse().take(rev@.len() - i) =~= rev@.reverse().take(rev@.len() - i - 1).push(
            rev@[i as int],
        ));
    }
    assert(rev@.reverse().take(rev@.len() as int) =~= rev@.reverse());
    s
}

pub fn u64_text(n: u64) -> (s: String)
    ensures
        s@ == decimal(n as nat),
{
    u128_text(n as u128)
}

pub fn usize_text(n: usize) -> (s: String)
    ensures
        s@ == decimal(n as nat),
{
    u128_text(n as u128)
}

pub fn i64_text(n: i64) -> (s: String)
    ensures
        s@ == signed_decimal(n as int),
{
    if n < 0 {
        let m: u128 = (-(n as i128)) as u128;
        let mut s = String::new();
        s.push('-');
        let t = u128_text(m);
        s.append(t.as_str());
        assert(s@ =~= seq!['-'] + decimal((-(n as int)) as nat));
        s
    } else {
        u128_text(n as u128)
    }
}

pub open spec fn hex_char(d: nat) -> char {
    if d < 10 {
        digit_char(d)
    } else {
        (('a' as nat) + d - 10) as char
    }
}

/// A number in hexadecimal, with no leading zeros.
pub open spec fn hex(n: nat) -> Seq<char>
    decreases n,
{
    if n < 16 {
        seq![hex_char(n)]
    } else {
        hex(n / 16).push(hex_char(n % 16))
    }
}

fn hex_digit(d: u64) -> (c: char)
    requires
        d < 16,
    ensures
        c == hex_char(d as nat),
{
    if d < 10 {
        (48u8 + d as u8) as char
    } else {
        (87u8 + d as u8) as char
    }
}

fn push_hex(s: &mut String, n: u64)
    ensures
        final(s)@ == old(s)@ + hex(n as nat),
    decreases n,
{
    let ghost before = s@;
    if n >= 16 {
        push_hex(s, n / 16);
    }
    s.push(hex_digit(n % 16));
    assert(s@ =~= before + hex(n as nat));
}

/// A number in hexadecimal, behind `0x`.
pub fn hex_text(n: u64) -> (s: String)
    ensures
        s@ == "0x"@ + hex(n as nat),
{
    let mut s = "0x".to_owned();
    push_hex(&mut s, n);
    s
}


/// What is left of a number after a plus sign in front of it.
pub open spec fn after_plus(s: Seq<char>) -> Seq<char> {
    if s.len() > 0 && s[0] == '+' {
        s.skip(1)
    } else {
        s
    }
}

/// The number of one or more digits, if it is at most `max`.
pub open spec fn digits_number(s: Seq<char>, max: nat) -> Option<nat> {
    if s.len() > 0 && all_digits(s) && value_of(s) <= max {
        Some(value_of(s))
    } else {
        None
    }
}

/// The unsigned number a text stands for: digits, and a plus sign in front of
/// them or not.
pub open spec fn unsigned_number(s: Seq<char>, max: nat) -> Option<nat> {
    digits_number(after_plus(s), max)
}

/// The signed number a text stands for: digits, and a sign in front of them
/// or not.
pub open spec fn signed_number(s: Seq<char>, min: int, max: int) -> Option<int> {
    if s.len() > 0 && s[0] == '-' {
        match digits_number(s.skip(1), (-min) as nat) {
            Some(n) => Some(-n),
            None => None,
        }
    } else {
        match digits_number(after_plus(s), max as nat) {
            Some(n) => Some(n as int),
            None => None,
        }
    }
}

proof fn lemma_value_prefix(s: Seq<char>, k: int)
    requires
        0 <= k <= s.len(),
    ensures
        value_of(s.take(k)) <= value_of(s),
    decreases s.len(),
{
    if k == s.len() {
        assert(s.take(k) =~= s);
    } else {
        lemma_value_prefix(s.drop_last(), k);
        assert(s.drop_last().take(k) =~= s.take(k));
    }
}

fn parse_digits(v: &Vec<char>, from: usize, max: u128) -> (r: Option<u128>)
    requires
        from <= v@.len(),
        max <= u128::MAX / 20,
    ensures
        (match r {
            Some(n) => Some(n as nat),
            None => None::<nat>,
        }) == digits_number(v@.skip(from as int), max as nat),
{
    let ghost s = v@.skip(from as int);
    if from == v.len() {
        return None;
    }
    let mut n: u128 = 0;
    let mut i: usize = from;
    assert(s.take(0) =~= Seq::<char>::empty());
    while i < v.len()
        invariant
            from <= i <= v@.len(),
            from < v@.len(),
            s == v@.skip(from as int),
            n == value_of(s.take(i - from)),
            n <= max <= u128::MAX / 20,
            all_digits(s.take(i - from)),
        decreases v@.len() - i,
    {
        let c: char = v[i];
        let ghost p = s.take(i + 1 - from);
        proof {
            assert(p.drop_last() =~= s.take(i - from));
            assert(p.last() == c);
            assert(s[i - from] == c);
        }
        if !('0' <= c && c <= '9') {
            return None;
        }
        let d: u128 = (c as u128) - 48;
        n = n * 10 + d;
        proof {
            assert(n == value_of(p));
            lemma_value_prefix(s, i + 1 - from);
            assert forall|k: int| 0 <= k < p.len() implies is_digit(#[trigger] p[k]) by {
                if k < i - from {
                    assert(p[k] == s.take(i - from)[k]);
                }
            }
        }
        if n > max {
            return None;
        }
        i += 1;
    }
    assert(s.take(v@.len() - from) =~= s);
    Some(n)
}

fn parse_unsigned(s: &str, max: u128) -> (r: Option<u128>)
    requires
        max <= u128::MAX / 20,
    ensures
        (match r {
            Some(n) => Some(n as nat),
            None => None::<nat>,
        }) == unsigned_number(s@, max as nat),
{
    let v = chars_of(s);
    let from: usize = if v.len() > 0 && v[0] == '+' {
        1
    } else {
        0
    };
    assert(v@.skip(0) =~= v@);
    parse_digits(&v, from, max)
}

pub fn parse_u64(s: &str) -> (r: Option<u64>)
    ensures
        (match r {
            Some(n) => Some(n as nat),
            None => None::<nat>,
        }) == unsigned_number(s@, u64::MAX as nat),
{
    match parse_unsigned(s, u64::MAX as u128) {
        Some(n) => Some(n as u64),
        None => None,
    }
}

pub fn parse_usize(s: &str) -> (r: Option<usize>)
    ensures
        (match r {
            Some(n) => Some(n as nat),
            None => None::<nat>,
        }) == unsigned_number(s@, usize::MAX as nat),
{
    match parse_unsigned(s, usize::MAX as u128) {
        Some(n) => Some(n as usize),
        None => None,
    }
}

pub fn parse_u16(s: &str) -> (r: Option<u16>)
    ensures
        (match r {
            Some(n) => Some(n as nat),
            None => None::<nat>,
        }) == unsigned_number(s@, u16::MAX as nat),
{
    match parse_unsigned(s, u16::MAX as u128) {
        Some(n) => Some(n as u16),
        None => None,
    }
}

pub fn parse_i64(s: &str) -> (r: Option<i64>)
    ensures
        (match r {
            Some(n) => Some(n as int),
            None => None::<int>,
        }) == signed_number(s@, i64::MIN as int, i64::MAX as int),
{
    let v = chars_of(s);
    if v.len() > 0 && v[0] == '-' {
        match parse_digits(&v, 1, 9_223_372_036_854_775_808) {
            Some(n) => Some((-(n as i128)) as i64),
            None => None,
        }
    } else {
        match parse_unsigned(s, i64::MAX as u128) {
            Some(n) => Some(n as i64),
            None => None,
        }
    }
}

pub fn parse_i32(s: &str) -> (r: Option<i32>)
    ensures
        (match r {
            Some(n) => Some(n as int),
            None => None::<int>,
        }) == signed_number(s@, i32::MIN as int, i32::MAX as int),
{
    let v = chars_of(s);
    if v.len() > 0 && v[0] == '-' {
        match parse_digits(&v, 1, 2_147_483_648) {
            Some(n) => Some((-(n as i128)) as i32),
            None => None,
        }
    } else {
        match parse_unsigned(s, i32::MAX as u128) {
            Some(n) => Some(n as i32),
            None => None,
        }
    }
}

/// A signed number reads back as itself from its decimal text.
pub proof fn signed_decimal_reads_back(n: int, min: int, max: int)
    requires
        min <= 0,
        min <= n <= max,
    ensures
        signed_number(signed_decimal(n), min, max) == Some(n),
{
    if n < 0 {
        lemma_decimal_digits((-n) as nat);
        assert(signed_decimal(n).skip(1) =~= decimal((-n) as nat));
    } else {
        lemma_decimal_digits(n as nat);
        assert(is_digit(decimal(n as nat)[0]));
    }
}

/// An unsigned number reads back as itself from its decimal text.
pub proof fn decimal_reads_back(n: nat, max: nat)
    requires
        n <= max,
    ensures
        unsigned_number(decimal(n), max) == Some(n),
{
    lemma_decimal_digits(n);
    assert(is_digit(decimal(n)[0]));
}

/// Whether bytes are those of a text of characters of one byte each.
pub open spec fn spells(b: Seq<u8>, s: Seq<char>) -> bool {
    &&& b.len() == s.len()
    &&& forall|i: int| 0 <= i < b.len() ==> (#[trigger] b[i]) as int == s[i] as int
}

/// Bytes read as a text exactly if they spell it.
pub proof fn reads_what_is_spelled(b: Seq<u8>, s: Seq<char>)
    ensures
        latin(b) == s <==> spells(b, s),
{
    if spells(b, s) {
        assert(latin(b) =~= s);
    } else if latin(b) == s {
        assert forall|i: int| 0 <= i < b.len() implies (#[trigger] b[i]) as int == s[i] as int by {
            assert(latin(b)[i] == s[i]);
        }
    }
}

/// A number of one digit is written as that digit, and the digits of a longer one
/// are those of its tens, with that of its ones behind them.
pub proof fn a_number_is_written_digit_by_digit(n: nat, d: nat)
    requires
        d < 10,
    ensures
        decimal(d).len() == 1,
        decimal(d)[0] as int == '0' as int + d,
        n > 0 ==> decimal(10 * n + d) == decimal(n) + decimal(d),
        n > 0 ==> signed_decimal(-(n as int)) == seq!['-'] + decimal(n),
        signed_decimal(n as int) == decimal(n),
{
    if n > 0 {
        assert((10 * n + d) / 10 == n);
        assert((10 * n + d) % 10 == d);
        assert(decimal(10 * n + d) =~= decimal(n) + decimal(d));
    }
}

/// Digits read as the number that they stand for, as far as it fits: one more
/// behind them adds its value to ten times theirs. A plus sign in front changes
/// nothing; no digits, or anything among them that is none, is no number.
pub proof fn a_number_is_read_digit_by_digit(s: Seq<char>, c: char, max: nat)
    ensures
        unsigned_number(Seq::empty(), max) is None,
        unsigned_number(seq!['+'], max) is None,
        '0' <= c <= '9' ==> {
            let d = (c as int - '0' as int) as nat;
            &&& unsigned_number(seq![c], max) == (if d <= max {
                Some(d)
            } else {
                None
            })
            &&& unsigned_number(s, max) matches Some(n) ==> unsigned_number(s.push(c), max) == (if 10
                * n + d <= max {
                Some(10 * n + d)
            } else {
                None
            })
        },
        s.len() > 0 && !('0' <= c <= '9') ==> unsigned_number(s.push(c), max) is None,
        s.len() > 0 && s[0] != '+' ==> unsigned_number(seq!['+'] + s, max) == unsigned_number(
            s,
            max,
        ),
{
    reveal_with_fuel(value_of, 3);
    assert(seq![c].drop_last() =~= Seq::<char>::empty());
    assert(s.push(c).drop_last() =~= s);
    assert(after_plus(seq!['+']) =~= Seq::<char>::empty());
    if '0' <= c <= '9' {
        assert(after_plus(seq![c]) == seq![c]);
    }
    if s.len() > 0 {
        assert(after_plus(s.push(c)) =~= after_plus(s).push(c));
        assert(after_plus(s).push(c).drop_last() =~= after_plus(s));
        assert(after_plus(seq!['+'] + s) =~= s);
        let t = after_plus(s);
        assert(t.push(c).last() == c);
        if unsigned_number(s, max) is Some && '0' <= c <= '9' {
            assert forall|i: int| 0 <= i < t.push(c).len() implies is_digit(
                #[trigger] t.push(c)[i],
            ) by {
                if i < t.len() {
                    assert(is_digit(t[i]));
                }
            }
        }
        if !('0' <= c <= '9') {
            assert(!is_digit(t.push(c)[t.len() as int]));
        }
    }
}

/// A number below sixteen is written as its hexadecimal digit, and one above with
/// the digits of its sixteenths in front.
pub proof fn a_code_is_written_digit_by_digit(n: nat, d: nat)
    requires
        d < 16,
    ensures
        hex(d).len() == 1,
        d < 10 ==> hex(d)[0] as int == '0' as int + d,
        d >= 10 ==> hex(d)[0] as int == 'a' as int + d - 10,
        n > 0 ==> hex(16 * n + d) == hex(n) + hex(d),
{
    if n > 0 {
        assert((16 * n + d) / 16 == n);
        assert((16 * n + d) % 16 == d);
        assert(hex(16 * n + d) =~= hex(n) + hex(d));
    }
}

} // verus!
