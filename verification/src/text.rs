//! Small text operations over `&str` and `String`, each specified on the characters it works on.
use vstd::prelude::*;
use vstd::string::*;
use vstd::utf8::*;

verus! {

/// `String::push`: the character is added at the end of the string.
pub assume_specification[ String::push ](s: &mut String, c: char)
    ensures
        final(s)@ == old(s)@.push(c),
;

/// `str::from_utf8` of std, with its error dropped: the bytes decode exactly when they are valid
/// UTF-8, and what they decode to is the text they encode.
#[verifier::external_body]
pub(crate) fn utf8_text(bytes: &[u8]) -> (text: Option<&str>)
    ensures
        text is Some <==> valid_utf8(bytes@),
        text matches Some(t) ==> t@ == decode_utf8(bytes@),
{
    std::str::from_utf8(bytes).ok()
}

/// Equal text is equal bytes.
pub proof fn lemma_same_bytes(a: Seq<char>, b: Seq<char>)
    ensures
        a == b <==> encode_utf8(a) == encode_utf8(b),
{
    encode_utf8_decode_utf8(a);
    encode_utf8_decode_utf8(b);
}

/// Whether two strings hold the same text.
pub fn same(a: &str, b: &str) -> (r: bool)
    ensures
        r == (a@ == b@),
{
    let x = a.as_bytes();
    let y = b.as_bytes();
    proof {
        lemma_same_bytes(a@, b@);
    }
    if x.len() != y.len() {
        return false;
    }
    let mut i: usize = 0;
    while i < x.len()
        invariant
            i <= x.len(),
            x@.len() == y@.len(),
            forall|k: int| 0 <= k < i ==> x@[k] == y@[k],
            (a@ == b@) == (x@ == y@),
        decreases x.len() - i,
    {
        if x[i] != y[i] {
            return false;
        }
        i = i + 1;
    }
    assert(x@ =~= y@);
    true
}

/// The view of a list of strings.
pub open spec fn texts(list: Seq<String>) -> Seq<Seq<char>> {
    list.map_values(|s: String| s@)
}

/// The view of a list of borrowed strings.
pub open spec fn str_texts(list: Seq<&str>) -> Seq<Seq<char>> {
    list.map_values(|s: &str| s@)
}

/// The view of optional text.
pub open spec fn opt_text(s: Option<String>) -> Option<Seq<char>> {
    match s {
        Some(t) => Some(t@),
        None => None,
    }
}

/// The view of optional borrowed text.
pub open spec fn opt_str(s: Option<&str>) -> Option<Seq<char>> {
    match s {
        Some(t) => Some(t@),
        None => None,
    }
}

/// A copy of optional text.
pub fn copy_opt(s: &Option<String>) -> (r: Option<String>)
    ensures
        opt_text(r) == opt_text(*s),
{
    match s {
        Some(t) => Some(t.clone()),
        None => None,
    }
}

/// A copy of a list of strings.
pub fn copy_texts(list: &Vec<String>) -> (r: Vec<String>)
    ensures
        texts(r@) == texts(list@),
{
    let mut out: Vec<String> = Vec::new();
    let mut i: usize = 0;
    while i < list.len()
        invariant
            i <= list.len(),
            out@.len() == i,
            forall|k: int| 0 <= k < i ==> (#[trigger] out@[k])@ == list@[k]@,
        decreases list.len() - i,
    {
        out.push(list[i].clone());
        i = i + 1;
    }
    assert(texts(out@) =~= texts(list@));
    out
}

/// The characters of a string.
pub fn chars_of(s: &str) -> (r: Vec<char>)
    ensures
        r@ == s@,
{
    let mut out: Vec<char> = Vec::new();
    for c in it: s.chars()
        invariant
            out@ =~= s@.take(it.index() as int),
            it.seq() == s@,
    {
        out.push(c);
    }
    assert(out@ =~= s@);
    out
}

/// Whether `part` stands in `whole` somewhere.
pub open spec fn holds_part(whole: Seq<char>, part: Seq<char>) -> bool {
    exists|i: int| #[trigger] stands_at(whole, part, i)
}

/// Whether `part` stands in `whole` from position `i` on.
pub open spec fn stands_at(whole: Seq<char>, part: Seq<char>, i: int) -> bool {
    0 <= i && i + part.len() <= whole.len() && whole.subrange(i, i + part.len()) == part
}

/// Whether `part` stands in `whole` somewhere.
pub fn contains_part(whole: &str, part: &str) -> (r: bool)
    ensures
        r == holds_part(whole@, part@),
{
    let w = chars_of(whole);
    let p = chars_of(part);
    if p.len() > w.len() {
        return false;
    }
    let last: usize = w.len() - p.len();
    let mut i: usize = 0;
    while i <= last
        invariant
            w@ == whole@,
            p@ == part@,
            last == w.len() - p.len(),
            i <= last + 1,
            forall|k: int| 0 <= k < i ==> !#[trigger] stands_at(w@, p@, k),
        decreases last + 1 - i,
    {
        let mut k: usize = 0;
        while k < p.len() && w[i + k] == p[k]
            invariant
                i <= last,
                last == w.len() - p.len(),
                k <= p@.len(),
                forall|j: int| 0 <= j < k ==> w@[i + j] == p@[j],
            decreases p.len() - k,
        {
            k = k + 1;
        }
        if k == p.len() {
            assert(w@.subrange(i as int, i + p@.len()) =~= p@);
            assert(stands_at(w@, p@, i as int));
            return true;
        }
        assert(w@.subrange(i as int, i + p@.len())[k as int] == w@[i + k]);
        if i == last {
            assert forall|j: int| !#[trigger] stands_at(w@, p@, j) by {}
            return false;
        }
        i = i + 1;
    }
    false
}

/// `s` without the slashes it starts with.
pub open spec fn without_leading_slashes(s: Seq<char>) -> Seq<char>
    decreases s.len(),
{
    if s.len() > 0 && s[0] == '/' {
        without_leading_slashes(s.skip(1))
    } else {
        s
    }
}

/// `s` without the slashes it ends with.
pub open spec fn without_trailing_slashes(s: Seq<char>) -> Seq<char>
    decreases s.len(),
{
    if s.len() > 0 && s.last() == '/' {
        without_trailing_slashes(s.drop_last())
    } else {
        s
    }
}

/// `path` without the slashes and the parts `.` at its end.
pub open spec fn without_trailing_dots(path: Seq<char>) -> Seq<char>
    decreases path.len(),
{
    let n = path.len() as int;
    if n > 0 && path[n - 1] == '/' {
        without_trailing_dots(path.drop_last())
    } else if n > 1 && path[n - 1] == '.' && path[n - 2] == '/' {
        without_trailing_dots(path.drop_last())
    } else {
        path
    }
}

/// `path` with every backslash made a slash.
pub open spec fn forward_slashes(path: Seq<char>) -> Seq<char> {
    path.map_values(
        |c: char|
            if c == '\\' {
                '/'
            } else {
                c
            },
    )
}

/// `path` with every backslash made a slash.
pub fn with_forward_slashes(path: &str) -> (r: String)
    ensures
        r@ == forward_slashes(path@),
{
    let chars = chars_of(path);
    let mut out = String::new();
    let mut i: usize = 0;
    while i < chars.len()
        invariant
            chars@ == path@,
            i <= chars@.len(),
            out@ =~= forward_slashes(path@).take(i as int),
        decreases chars.len() - i,
    {
        if chars[i] == '\\' {
            out.push('/');
        } else {
            out.push(chars[i]);
        }
        i = i + 1;
    }
    assert(out@ =~= forward_slashes(path@));
    out
}

/// The character of one decimal digit.
pub open spec fn digit(d: int) -> char {
    if d == 0 {
        '0'
    } else if d == 1 {
        '1'
    } else if d == 2 {
        '2'
    } else if d == 3 {
        '3'
    } else if d == 4 {
        '4'
    } else if d == 5 {
        '5'
    } else if d == 6 {
        '6'
    } else if d == 7 {
        '7'
    } else if d == 8 {
        '8'
    } else {
        '9'
    }
}

/// `n` in decimal, with no leading zero.
pub open spec fn digits(n: nat) -> Seq<char>
    decreases n,
{
    if n < 10 {
        seq![digit(n as int)]
    } else {
        digits(n / 10).push(digit((n % 10) as int))
    }
}

/// `n` in decimal, with a leading `-` when it is negative.
pub open spec fn decimal(n: int) -> Seq<char> {
    if n < 0 {
        seq!['-'] + digits((-n) as nat)
    } else {
        digits(n as nat)
    }
}

fn digit_char(d: u64) -> (c: char)
    requires
        d < 10,
    ensures
        c == digit(d as int),
{
    match d {
        0 => '0',
        1 => '1',
        2 => '2',
        3 => '3',
        4 => '4',
        5 => '5',
        6 => '6',
        7 => '7',
        8 => '8',
        _ => '9',
    }
}

fn push_digits(out: &mut String, n: u64)
    ensures
        final(out)@ == old(out)@ + digits(n as nat),
    decreases n,
{
    if n >= 10 {
        push_digits(out, n / 10);
    }
    out.push(digit_char(n % 10));
    assert(out@ =~= old(out)@ + digits(n as nat));
}

/// Appends `n` in decimal.
pub fn push_decimal(out: &mut String, n: i64)
    ensures
        final(out)@ == old(out)@ + decimal(n as int),
{
    let magnitude: u64 = if n < 0 {
        out.push('-');
        (0i128 - n as i128) as u64
    } else {
        n as u64
    };
    push_digits(out, magnitude);
    assert(out@ =~= old(out)@ + decimal(n as int));
}

/// No decimal holds a character outside the digits and the sign.
proof fn lemma_digits_only_digits(n: nat, c: char)
    requires
        digits(n).contains(c),
    ensures
        exists|d: int| 0 <= d < 10 && c == #[trigger] digit(d),
    decreases n,
{
    let i = choose|i: int| 0 <= i < digits(n).len() && digits(n)[i] == c;
    if n < 10 {
        assert(c == digit(n as int));
    } else if i == digits(n).len() - 1 {
        assert(c == digit((n % 10) as int));
    } else {
        assert(digits(n / 10)[i] == c);
        lemma_digits_only_digits(n / 10, c);
    }
}

/// A decimal never holds a colon.
pub proof fn lemma_decimal_has_no_colon(n: int)
    ensures
        !decimal(n).contains(':'),
{
    if decimal(n).contains(':') {
        let m: nat = if n < 0 {
            (-n) as nat
        } else {
            n as nat
        };
        let i = choose|i: int| 0 <= i < decimal(n).len() && decimal(n)[i] == ':';
        if n < 0 {
            assert(i > 0);
            assert(digits(m)[i - 1] == ':');
        } else {
            assert(digits(m)[i] == ':');
        }
        lemma_digits_only_digits(m, ':');
    }
}

proof fn lemma_digit_injective(a: int, b: int)
    requires
        0 <= a < 10,
        0 <= b < 10,
        digit(a) == digit(b),
    ensures
        a == b,
{
}

proof fn lemma_digits_len(n: nat)
    ensures
        n < 10 ==> digits(n).len() == 1,
        n >= 10 ==> digits(n).len() >= 2,
        digits(n).last() == digit((n % 10) as int),
        n >= 10 ==> digits(n).drop_last() == digits(n / 10),
{
    if n >= 10 {
        lemma_digits_nonempty(n / 10);
        assert(digits(n) == digits(n / 10).push(digit((n % 10) as int)));
        assert(digits(n / 10).push(digit((n % 10) as int)).drop_last() =~= digits(n / 10));
    } else {
        assert(digits(n) == seq![digit(n as int)]);
        assert(n % 10 == n);
    }
}

proof fn lemma_digits_injective(m: nat, n: nat)
    requires
        digits(m) == digits(n),
    ensures
        m == n,
    decreases m,
{
    lemma_digits_len(m);
    lemma_digits_len(n);
    lemma_digit_injective((m % 10) as int, (n % 10) as int);
    if m >= 10 {
        lemma_digits_injective(m / 10, n / 10);
    }
}

proof fn lemma_digits_nonempty(n: nat)
    ensures
        digits(n).len() >= 1,
    decreases n,
{
    if n >= 10 {
        lemma_digits_nonempty(n / 10);
    }
}

/// Different numbers have different decimals.
pub proof fn lemma_decimal_injective(m: int, n: int)
    requires
        decimal(m) == decimal(n),
    ensures
        m == n,
{
    let a: nat = if m < 0 {
        (-m) as nat
    } else {
        m as nat
    };
    let b: nat = if n < 0 {
        (-n) as nat
    } else {
        n as nat
    };
    lemma_digits_nonempty(a);
    lemma_digits_nonempty(b);
    if m < 0 && n >= 0 {
        assert(digits(b)[0] == '-');
        assert(digits(b).contains('-'));
        lemma_digits_only_digits(b, '-');
    } else if m >= 0 && n < 0 {
        assert(digits(a)[0] == '-');
        assert(digits(a).contains('-'));
        lemma_digits_only_digits(a, '-');
    } else {
        if m < 0 {
            assert(decimal(m).skip(1) =~= digits(a));
            assert(decimal(n).skip(1) =~= digits(b));
        }
        lemma_digits_injective(a, b);
    }
}

/// A number's decimal is its digits from the highest to the lowest, behind a `-` where it is negative.
pub proof fn decimal_is_the_digits_in_order(n: nat, d: int)
    requires
        0 <= d < 10,
    ensures
        decimal(d) == seq![('0' as int + d) as char],
        n > 0 ==> decimal(n * 10 + d) == decimal(n as int).push(('0' as int + d) as char),
        n > 0 ==> decimal(-(n as int)) == seq!['-'] + decimal(n as int),
{
    assert(digit(d) == ('0' as int + d) as char);
    if n > 0 {
        let m = (n * 10 + d) as nat;
        assert(m / 10 == n);
        assert(m % 10 == d);
    }
}

} // verus!
