//! Text at the level of characters: comparison, white space, decimal numbers.

use vstd::prelude::*;
use vstd::std_specs::iter::IteratorSpec;

verus! {

/// `str`'s `==` from the standard library: two string slices are equal
/// exactly when they hold the same characters.
pub assume_specification[ <str as PartialEq>::eq ](a: &str, b: &str) -> (r: bool)
    ensures
        r == (a@ == b@),
;

/// `String::push` from the standard library: the character is added at the end.
pub assume_specification[ std::string::String::push ](s: &mut std::string::String, c: char)
    ensures
        final(s)@ == old(s)@.push(c),
;

/// The characters of an optional text.
pub open spec fn opt_view(s: Option<String>) -> Option<Seq<char>> {
    match s {
        Some(t) => Some(t@),
        None => None,
    }
}

/// The characters of an optional borrowed text.
pub open spec fn opt_str_view(s: Option<&str>) -> Option<Seq<char>> {
    match s {
        Some(t) => Some(t@),
        None => None,
    }
}

/// The characters of each text of a list.
pub open spec fn texts_view(v: Seq<String>) -> Seq<Seq<char>> {
    v.map_values(|s: String| s@)
}

/// The characters of `s`, in order.
pub fn chars_of(s: &str) -> (r: Vec<char>)
    ensures
        r@ == s@,
{
    let mut v: Vec<char> = Vec::new();
    let mut it = s.chars();
    loop
        invariant
            v@ + it.remaining() == s@,
            it.obeys_prophetic_iter_laws(),
            it.decrease() is Some,
        ensures
            it.remaining().len() == 0,
        decreases it.decrease()->0,
    {
        match it.next() {
            Some(c) => {
                v.push(c);
            },
            None => {
                break ;
            },
        }
    }
    assert(v@ =~= s@);
    v
}

/// The string made of the characters `v[from..to]`.
pub fn string_of(v: &Vec<char>, from: usize, to: usize) -> (r: String)
    requires
        from <= to <= v.len(),
    ensures
        r@ == v@.subrange(from as int, to as int),
{
    let mut s = String::new();
    let mut i: usize = from;
    while i < to
        invariant
            from <= i <= to <= v.len(),
            s@ == v@.subrange(from as int, i as int),
        decreases to - i,
    {
        s.push(v[i]);
        assert(s@ =~= v@.subrange(from as int, i + 1));
        i += 1;
    }
    s
}

/// White space as Unicode defines it (the property `White_Space`).
pub open spec fn is_space(c: char) -> bool {
    let n = c as u32;
    ||| 0x09 <= n <= 0x0D
    ||| n == 0x20
    ||| n == 0x85
    ||| n == 0xA0
    ||| n == 0x1680
    ||| 0x2000 <= n <= 0x200A
    ||| n == 0x2028
    ||| n == 0x2029
    ||| n == 0x202F
    ||| n == 0x205F
    ||| n == 0x3000
}

pub fn is_whitespace(c: char) -> (r: bool)
    ensures
        r == is_space(c),
{
    let n: u32 = c as u32;
    (0x09 <= n && n <= 0x0D) || n == 0x20 || n == 0x85 || n == 0xA0 || n == 0x1680 || (0x2000 <= n
        && n <= 0x200A) || n == 0x2028 || n == 0x2029 || n == 0x202F || n == 0x205F || n == 0x3000
}

/// `s` without its leading white space.
pub open spec fn trim_front(s: Seq<char>) -> Seq<char>
    decreases s.len(),
{
    if s.len() > 0 && is_space(s[0]) {
        trim_front(s.drop_first())
    } else {
        s
    }
}

/// `s` without its trailing white space.
pub open spec fn trim_back(s: Seq<char>) -> Seq<char>
    decreases s.len(),
{
    if s.len() > 0 && is_space(s.last()) {
        trim_back(s.drop_last())
    } else {
        s
    }
}

/// `s` without leading and trailing white space.
pub open spec fn trimmed(s: Seq<char>) -> Seq<char> {
    trim_back(trim_front(s))
}

/// A text is blank when nothing is left of it after trimming.
pub open spec fn is_blank(s: Seq<char>) -> bool {
    trimmed(s).len() == 0
}

pub proof fn lemma_trim_front_skip(s: Seq<char>, k: int)
    requires
        0 <= k <= s.len(),
        forall|i: int| 0 <= i < k ==> is_space(s[i]),
        k == s.len() || !is_space(s[k]),
    ensures
        trim_front(s) == s.skip(k),
    decreases k,
{
    if k == 0 {
        assert(s.skip(0) =~= s);
    } else {
        let t = s.drop_first();
        assert forall|i: int| 0 <= i < k - 1 implies is_space(t[i]) by {
            assert(t[i] == s[i + 1]);
        }
        lemma_trim_front_skip(t, k - 1);
        assert(t.skip(k - 1) =~= s.skip(k));
    }
}

pub proof fn lemma_trim_back_take(s: Seq<char>, k: int)
    requires
        0 <= k <= s.len(),
        forall|i: int| k <= i < s.len() ==> is_space(s[i]),
        k == 0 || !is_space(s[k - 1]),
    ensures
        trim_back(s) == s.take(k),
    decreases s.len() - k,
{
    if k == s.len() {
        assert(s.take(k) =~= s);
    } else {
        let t = s.drop_last();
        lemma_trim_back_take(t, k);
        assert(t.take(k) =~= s.take(k));
    }
}

/// The part of `s` between its leading and its trailing white space.
pub fn trim(s: &str) -> (r: &str)
    ensures
        r@ == trimmed(s@),
{
    let v = chars_of(s);
    let n = v.len();
    let mut a: usize = 0;
    while a < n && is_whitespace(v[a])
        invariant
            a <= n == v.len(),
            forall|i: int| 0 <= i < a ==> is_space(v@[i]),
        decreases n - a,
    {
        a += 1;
    }
    let mut b: usize = n;
    while b > a && is_whitespace(v[b - 1])
        invariant
            a <= b <= n == v.len(),
            forall|i: int| b <= i < n ==> is_space(v@[i]),
        decreases b,
    {
        b -= 1;
    }
    proof {
        lemma_trim_front_skip(s@, a as int);
        let t = s@.skip(a as int);
        lemma_trim_back_take(t, b - a);
        assert(t.take(b - a) =~= s@.subrange(a as int, b as int));
    }
    s.substring_char(a, b)
}

/// The decimal digits.
pub open spec fn is_digit(c: char) -> bool {
    '0' <= c <= '9'
}

pub open spec fn all_digits(s: Seq<char>) -> bool {
    forall|i: int| 0 <= i < s.len() ==> is_digit(#[trigger] s[i])
}

pub open spec fn digit_value(c: char) -> int {
    c as u32 - '0' as u32
}

/// The number that a run of decimal digits writes.
pub open spec fn digits_value(s: Seq<char>) -> int
    decreases s.len(),
{
    if s.len() == 0 {
        0
    } else {
        digits_value(s.drop_last()) * 10 + digit_value(s.last())
    }
}

/// What is left of `s` after one leading sign, if it has one.
pub open spec fn unsigned_part(s: Seq<char>) -> Seq<char> {
    if s.len() > 0 && (s[0] == '+' || s[0] == '-') {
        s.skip(1)
    } else {
        s
    }
}

/// The integer that `s` writes in decimal: an optional sign (`-` only where
/// `signed`), then at least one digit and nothing else.
pub open spec fn integer_text(s: Seq<char>, signed: bool) -> Option<int> {
    let negative = s.len() > 0 && s[0] == '-';
    let body = unsigned_part(s);
    if body.len() == 0 || !all_digits(body) || (negative && !signed) {
        None
    } else if negative {
        Some(-digits_value(body))
    } else {
        Some(digits_value(body))
    }
}

/// `integer_text`, kept to the numbers from `min` to `max`.
pub open spec fn integer_between(s: Seq<char>, signed: bool, min: int, max: int) -> Option<int> {
    match integer_text(s, signed) {
        Some(n) => if min <= n <= max {
            Some(n)
        } else {
            None
        },
        None => None,
    }
}

pub proof fn lemma_digits_value_grows(s: Seq<char>, k: int)
    requires
        all_digits(s),
        0 <= k <= s.len(),
    ensures
        0 <= digits_value(s.take(k)) <= digits_value(s),
    decreases s.len() - k,
{
    if k == s.len() {
        assert(s.take(k) =~= s);
        lemma_digits_value_nonnegative(s);
    } else {
        let t = s.drop_last();
        assert(is_digit(s.last()));
        lemma_digits_value_grows(t, k);
        assert(t.take(k) =~= s.take(k));
    }
}

pub proof fn lemma_digits_value_nonnegative(s: Seq<char>)
    requires
        all_digits(s),
    ensures
        0 <= digits_value(s),
    decreases s.len(),
{
    if s.len() > 0 {
        assert(is_digit(s.last()));
        lemma_digits_value_nonnegative(s.drop_last());
    }
}

/// The largest number that `read_digits` tells apart from larger ones.
pub open spec fn digits_cap() -> int {
    0x8000_0000_0000_0000
}

/// The value of the digits `v[start..]`; a number above `digits_cap()` stands
/// for every value above it. `None` where a character is no digit.
pub fn read_digits(v: &Vec<char>, start: usize) -> (r: Option<i128>)
    requires
        start <= v.len(),
    ensures
        r is Some <==> all_digits(v@.skip(start as int)),
        r matches Some(x) ==> {
            let value = digits_value(v@.skip(start as int));
            &&& 0 <= x <= 10 * digits_cap() + 9
            &&& if value <= digits_cap() {
                x == value
            } else {
                x > digits_cap()
            }
        },
{
    let n = v.len();
    let ghost body = v@.skip(start as int);
    let mut acc: i128 = 0;
    let mut i: usize = start;
    while i < n
        invariant
            start <= i <= n == v.len(),
            body == v@.skip(start as int),
            forall|j: int| 0 <= j < i - start ==> is_digit(#[trigger] body[j]),
            acc == digits_value(body.take(i - start)),
            0 <= acc <= digits_cap(),
        decreases n - i,
    {
        let c = v[i];
        assert(body[i - start] == c);
        if !('0' <= c && c <= '9') {
            return None;
        }
        let d: u32 = c as u32 - '0' as u32;
        proof {
            assert(body.take(i + 1 - start).drop_last() =~= body.take(i - start));
            assert(body.take(i + 1 - start).last() == c);
        }
        acc = acc * 10 + d as i128;
        i += 1;
        if acc > 0x8000_0000_0000_0000 {
            let rest = all_digits_from(v, i);
            proof {
                if rest {
                    assert forall|j: int| 0 <= j < body.len() implies is_digit(#[trigger] body[j]) by {
                        if j >= i - start {
                            assert(body[j] == v@.skip(i as int)[j - (i - start)]);
                        }
                    }
                    lemma_digits_value_grows(body, i - start);
                } else {
                    let k = choose|k: int| 0 <= k < v@.skip(i as int).len() && !is_digit(#[trigger] v@.skip(i as int)[k]);
                    assert(body[k + i - start] == v@.skip(i as int)[k]);
                }
            }
            return if rest {
                Some(acc)
            } else {
                None
            };
        }
    }
    assert(body.take(n - start) =~= body);
    Some(acc)
}

/// Whether `v[start..]` holds digits only.
pub fn all_digits_from(v: &Vec<char>, start: usize) -> (r: bool)
    requires
        start <= v.len(),
    ensures
        r == all_digits(v@.skip(start as int)),
{
    let n = v.len();
    let ghost body = v@.skip(start as int);
    let mut i: usize = start;
    while i < n
        invariant
            start <= i <= n == v.len(),
            body == v@.skip(start as int),
            forall|j: int| 0 <= j < i - start ==> is_digit(#[trigger] body[j]),
        decreases n - i,
    {
        let c = v[i];
        assert(body[i - start] == c);
        if !('0' <= c && c <= '9') {
            return false;
        }
        i += 1;
    }
    true
}

/// Reads a decimal integer between `min` and `max`.
pub fn parse_integer(s: &str, signed: bool, min: i64, max: i64) -> (r: Option<i64>)
    ensures
        match r {
            Some(n) => integer_between(s@, signed, min as int, max as int) == Some(n as int),
            None => integer_between(s@, signed, min as int, max as int) is None,
        },
{
    let v = chars_of(s);
    let n = v.len();
    if n == 0 {
        return None;
    }
    let negative = v[0] == '-';
    let start: usize = if v[0] == '+' || v[0] == '-' {
        1
    } else {
        0
    };
    assert(s@.skip(0) =~= s@);
    assert(unsigned_part(s@) == s@.skip(start as int));
    if start == n || (negative && !signed) {
        return None;
    }
    match read_digits(&v, start) {
        None => None,
        Some(acc) => {
            let value: i128 = if negative {
                -acc
            } else {
                acc
            };
            if min as i128 <= value && value <= max as i128 {
                Some(value as i64)
            } else {
                None
            }
        },
    }
}

/// The character that writes the digit `d`.
pub open spec fn digit_char(d: int) -> char {
    if d == 0 {
        '0'
    } else if d == 1 {
        '1'
    } else if d == 2 {
        '2'
    } else if d == 3 {
        '3'
    } else if d == 4 {
        '4'
    } else if d == 5 {
        '5'
    } else if d == 6 {
        '6'
    } else if d == 7 {
        '7'
    } else if d == 8 {
        '8'
    } else {
        '9'
    }
}

/// The number `n` written in decimal, without leading zeros.
pub open spec fn decimal(n: nat) -> Seq<char>
    decreases n,
{
    if n < 10 {
        seq![digit_char(n as int)]
    } else {
        decimal(n / 10).push(digit_char((n % 10) as int))
    }
}

fn digit(d: u64) -> (r: char)
    requires
        d < 10,
    ensures
        r == digit_char(d as int),
{
    if d == 0 {
        '0'
    } else if d == 1 {
        '1'
    } else if d == 2 {
        '2'
    } else if d == 3 {
        '3'
    } else if d == 4 {
        '4'
    } else if d == 5 {
        '5'
    } else if d == 6 {
        '6'
    } else if d == 7 {
        '7'
    } else if d == 8 {
        '8'
    } else {
        '9'
    }
}

/// A number written in decimal reads back as the number.
pub proof fn lemma_decimal_reads_back(n: nat)
    ensures
        all_digits(decimal(n)),
        decimal(n).len() > 0,
        digits_value(decimal(n)) == n,
    decreases n,
{
    if n < 10 {
        assert(decimal(n).drop_last() =~= Seq::<char>::empty());
        assert(digits_value(decimal(n).drop_last()) == 0);
        assert(decimal(n).last() == digit_char(n as int));
    } else {
        lemma_decimal_reads_back(n / 10);
        let d = decimal(n);
        assert(d.drop_last() =~= decimal(n / 10));
        assert(d.last() == digit_char((n % 10) as int));
        assert forall|i: int| 0 <= i < d.len() implies is_digit(#[trigger] d[i]) by {
            if i < d.len() - 1 {
                assert(d[i] == decimal(n / 10)[i]);
            }
        }
    }
}

/// Writes a number in decimal.
pub fn decimal_string(n: u64) -> (r: String)
    ensures
        r@ == decimal(n as nat),
{
    // The digits, last first.
    let mut digits: Vec<char> = Vec::new();
    let mut rest: u64 = n;
    digits.push(digit(rest % 10));
    rest = rest / 10;
    let ghost mut tail: Seq<char> = seq![digit_char((n % 10) as int)];
    while rest > 0
        invariant
            digits@.len() > 0,
            digits@ == tail.reverse(),
            tail.len() == digits@.len(),
            if rest == 0 {
                decimal(n as nat) == tail
            } else {
                decimal(n as nat) == decimal(rest as nat) + tail
            },
        decreases rest,
    {
        let d = digit(rest % 10);
        proof {
            let ghost before = tail;
            tail = seq![d] + before;
            assert(tail.reverse() =~= before.reverse().push(d));
            if rest < 10 {
                assert(decimal(rest as nat) + before =~= tail);
            } else {
                assert(decimal(rest as nat) + before =~= decimal((rest / 10) as nat) + tail);
            }
        }
        digits.push(d);
        rest = rest / 10;
    }
    let mut s = String::new();
    let mut i: usize = digits.len();
    while i > 0
        invariant
            i <= digits@.len(),
            digits@ == tail.reverse(),
            tail.len() == digits@.len(),
            s@ == tail.take(digits@.len() - i),
        decreases i,
    {
        i -= 1;
        s.push(digits[i]);
        assert(s@ =~= tail.take(digits@.len() - i));
    }
    assert(tail.take(tail.len() as int) =~= tail);
    s
}

/// The number `n` written in decimal, with a minus sign if it is below nothing.
pub open spec fn signed_decimal(n: int) -> Seq<char> {
    if n < 0 {
        seq!['-'] + decimal((-n) as nat)
    } else {
        decimal(n as nat)
    }
}

/// Writes a number in decimal, with its sign if it is below nothing.
pub fn signed_decimal_string(n: i64) -> (r: String)
    ensures
        r@ == signed_decimal(n as int),
{
    if n < 0 {
        let m: u64 = if n == i64::MIN {
            0x8000_0000_0000_0000
        } else {
            (-n) as u64
        };
        let mut s = String::new();
        s.push('-');
        s.append(decimal_string(m).as_str());
        assert(s@ =~= seq!['-'] + decimal(m as nat));
        s
    } else {
        decimal_string(n as u64)
    }
}

/// What a field holds: nothing if it is blank, else what is left after trimming.
pub open spec fn blank_is_none(s: Option<Seq<char>>) -> Option<Seq<char>> {
    match s {
        Some(t) => if is_blank(t) {
            None
        } else {
            Some(trimmed(t))
        },
        None => None,
    }
}

/// A text is clean if it is not blank and neither begins nor ends with
/// white space: trimming leaves it as it is.
pub open spec fn is_clean(s: Seq<char>) -> bool {
    s.len() > 0 && !is_space(s[0]) && !is_space(s.last())
}

/// What trimming a text that is not blank leaves is clean.
pub proof fn lemma_trimmed_is_clean(s: Seq<char>)
    requires
        !is_blank(s),
    ensures
        is_clean(trimmed(s)),
{
    lemma_trim_front_shape(s);
    lemma_trim_back_shape(trim_front(s));
}

proof fn lemma_trim_front_shape(s: Seq<char>)
    ensures
        trim_front(s).len() == 0 || !is_space(trim_front(s)[0]),
    decreases s.len(),
{
    if s.len() > 0 && is_space(s[0]) {
        lemma_trim_front_shape(s.drop_first());
    }
}

proof fn lemma_trim_back_shape(s: Seq<char>)
    ensures
        trim_back(s).len() == 0 || !is_space(trim_back(s).last()),
        trim_back(s).len() > 0 ==> trim_back(s)[0] == s[0],
        trim_back(s).len() <= s.len(),
    decreases s.len(),
{
    if s.len() > 0 && is_space(s.last()) {
        lemma_trim_back_shape(s.drop_last());
    }
}

/// Trimming leaves a clean text as it is, and a clean text is not blank.
pub proof fn lemma_clean_stays(s: Seq<char>)
    requires
        is_clean(s),
    ensures
        trimmed(s) == s,
        !is_blank(s),
        blank_is_none(Some(s)) == Some(s),
{
}

/// A number written in decimal is a clean text.
pub proof fn lemma_decimal_is_clean(n: int)
    ensures
        is_clean(signed_decimal(n)),
        n >= 0 ==> is_clean(decimal(n as nat)),
{
    if n < 0 {
        lemma_decimal_reads_back((-n) as nat);
        let d = decimal((-n) as nat);
        let s = signed_decimal(n);
        assert(s[0] == '-');
        assert(s.last() == d.last());
        assert(is_digit(d[d.len() - 1]));
    } else {
        lemma_decimal_reads_back(n as nat);
        let d = decimal(n as nat);
        assert(is_digit(d[0]));
        assert(is_digit(d[d.len() - 1]));
    }
}

/// A number written in decimal reads back as the number, sign and all.
pub proof fn lemma_signed_decimal_reads_back(n: int, min: int, max: int)
    requires
        min <= n <= max,
    ensures
        integer_between(signed_decimal(n), true, min, max) == Some(n),
        n >= 0 ==> integer_between(decimal(n as nat), false, min, max) == Some(n),
{
    if n < 0 {
        lemma_decimal_reads_back((-n) as nat);
        let d = decimal((-n) as nat);
        let s = signed_decimal(n);
        assert(s[0] == '-');
        assert(s.skip(1) =~= d);
    } else {
        lemma_decimal_reads_back(n as nat);
        let d = decimal(n as nat);
        assert(is_digit(d[0]));
    }
}

/// `a` comes before `b` as texts are ordered: character by character, a
/// text before every text that it begins.
pub open spec fn text_before(a: Seq<char>, b: Seq<char>) -> bool
    decreases a.len(),
{
    if b.len() == 0 {
        false
    } else if a.len() == 0 {
        true
    } else if a[0] != b[0] {
        (a[0] as u32) < (b[0] as u32)
    } else {
        text_before(a.drop_first(), b.drop_first())
    }
}

/// No text comes before itself.
pub proof fn lemma_text_before_irreflexive(a: Seq<char>)
    ensures
        !text_before(a, a),
    decreases a.len(),
{
    if a.len() > 0 {
        lemma_text_before_irreflexive(a.drop_first());
    }
}

/// What comes before a text comes before all that the text comes before.
pub proof fn lemma_text_before_transitive(a: Seq<char>, b: Seq<char>, c: Seq<char>)
    requires
        text_before(a, b),
        text_before(b, c),
    ensures
        text_before(a, c),
    decreases a.len(),
{
    if a.len() > 0 && a[0] == b[0] && b[0] == c[0] {
        lemma_text_before_transitive(a.drop_first(), b.drop_first(), c.drop_first());
    }
}

/// Whether `a` comes before `b` as texts are ordered.
pub fn is_text_before(a: &str, b: &str) -> (r: bool)
    ensures
        r == text_before(a@, b@),
{
    let x = chars_of(a);
    let y = chars_of(b);
    let n = x.len();
    let m = y.len();
    let mut i: usize = 0;
    assert(a@.skip(0) =~= a@ && b@.skip(0) =~= b@);
    while i < n && i < m
        invariant
            i <= n == x@.len(),
            i <= m == y@.len(),
            x@ == a@,
            y@ == b@,
            text_before(a@, b@) == text_before(a@.skip(i as int), b@.skip(i as int)),
        decreases n - i,
    {
        proof {
            assert(a@.skip(i as int).drop_first() =~= a@.skip(i + 1));
            assert(b@.skip(i as int).drop_first() =~= b@.skip(i + 1));
            assert(a@.skip(i as int)[0] == x@[i as int]);
            assert(b@.skip(i as int)[0] == y@[i as int]);
        }
        if x[i] != y[i] {
            return (x[i] as u32) < (y[i] as u32);
        }
        i += 1;
    }
    i < m
}

} // verus!
