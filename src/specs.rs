use vstd::prelude::*;

verus! {

/// The byte `-` that opens a version hint.
pub const DASH: u8 = 45;

/// The byte `.` that separates two digit runs.
pub const DOT: u8 = 46;

pub open spec fn is_digit(b: u8) -> bool {
    48 <= b <= 57
}

pub open spec fn all_digits(d: Seq<u8>) -> bool {
    forall|k: int| 0 <= k < d.len() ==> is_digit(#[trigger] d[k])
}

/// Decimal value of a run of ASCII digits.
pub open spec fn digits_value(d: Seq<u8>) -> int
    decreases d.len(),
{
    if d.len() == 0 {
        0
    } else {
        10 * digits_value(d.drop_last()) + (d.last() as int - 48)
    }
}

/// Index of the first byte at or after `i` that is not an ASCII digit
/// (the length of `s` when there is none).
pub open spec fn run_end(s: Seq<u8>, i: int) -> int
    decreases s.len() - i,
{
    if i < 0 || i >= s.len() {
        s.len() as int
    } else if is_digit(s[i]) {
        run_end(s, i + 1)
    } else {
        i
    }
}

/// What one digit run of `s` starting at `i` reads as, with values above
/// `max` refused, and the index where reading goes on after it.
pub open spec fn part_at(s: Seq<u8>, i: int, max: int) -> (SpecPart<int>, int) {
    let e = run_end(s, i);
    let v = digits_value(s.subrange(i, e));
    if e == i || v > max || (e < s.len() && s[e] != DOT) {
        (SpecPart::Invalid, e)
    } else if e == s.len() {
        (SpecPart::Number(v), e)
    } else {
        (SpecPart::NumberDot(v), e + 1)
    }
}

/// A number type that digit runs can be read into.
pub trait DecimalNumber: Sized + Copy {
    spec fn value(self) -> int;

    spec fn max_value() -> int;

    fn zero() -> (r: Self)
        ensures
            r.value() == 0,
    ;

    /// Appends one decimal digit, or returns `None` when the result would
    /// exceed the type's bound.
    fn push_digit(self, digit: u8) -> (r: Option<Self>)
        requires
            0 <= self.value() <= Self::max_value(),
            digit < 10,
        ensures
            match r {
                Some(n) => n.value() == self.value() * 10 + digit && n.value() <= Self::max_value(),
                None => self.value() * 10 + digit > Self::max_value(),
            },
    ;
}

impl DecimalNumber for u8 {
    open spec fn value(self) -> int {
        self as int
    }

    open spec fn max_value() -> int {
        255
    }

    fn zero() -> (r: u8) {
        0
    }

    fn push_digit(self, digit: u8) -> (r: Option<u8>) {
        let v: u32 = self as u32 * 10 + digit as u32;
        if v <= 255 {
            Some(v as u8)
        } else {
            None
        }
    }
}

impl DecimalNumber for i16 {
    open spec fn value(self) -> int {
        self as int
    }

    open spec fn max_value() -> int {
        32767
    }

    fn zero() -> (r: i16) {
        0
    }

    fn push_digit(self, digit: u8) -> (r: Option<i16>) {
        let v: i32 = self as i32 * 10 + digit as i32;
        if v <= 32767 {
            Some(v as i16)
        } else {
            None
        }
    }
}

/// One digit run: at the end of the input, before a dot, or not a run at all.
#[derive(Debug, PartialEq, Eq)]
pub enum SpecPart<T> {
    Number(T),
    NumberDot(T),
    Invalid,
}

pub open spec fn part_value<T: DecimalNumber>(r: SpecPart<T>) -> SpecPart<int> {
    match r {
        SpecPart::Number(n) => SpecPart::Number(n.value()),
        SpecPart::NumberDot(n) => SpecPart::NumberDot(n.value()),
        SpecPart::Invalid => SpecPart::Invalid,
    }
}

/// A parsed version hint.
#[derive(Debug, Clone, Copy, PartialEq, Eq, Structural)]
pub enum Spec {
    /// Only the major version.
    Major(u8),
    /// Major and minor version.
    Minor(u8, u8),
}

/// The hint that `s` spells: `-X` or `-X.Y`, each number a non-empty run of
/// digits that fits in a byte.
pub open spec fn spec_of(s: Seq<u8>) -> Option<Spec> {
    if s.len() == 0 || s[0] != DASH {
        None
    } else {
        let (first, next) = part_at(s, 1, 255);
        match first {
            SpecPart::Invalid => None,
            SpecPart::Number(x) => Some(Spec::Major(x as u8)),
            SpecPart::NumberDot(x) => match part_at(s, next, 255).0 {
                SpecPart::Number(y) => Some(Spec::Minor(x as u8, y as u8)),
                _ => None,
            },
        }
    }
}

/// A run of digits has a value of at least zero.
proof fn lemma_digits_value_nonneg(d: Seq<u8>)
    requires
        all_digits(d),
    ensures
        digits_value(d) >= 0,
    decreases d.len(),
{
    if d.len() > 0 {
        lemma_digits_value_nonneg(d.drop_last());
    }
}

/// A run of digits from `a` to `b` is skipped by `run_end`.
proof fn lemma_run_end_skip(s: Seq<u8>, a: int, b: int)
    requires
        0 <= a <= b <= s.len(),
        forall|k: int| a <= k < b ==> is_digit(#[trigger] s[k]),
    ensures
        run_end(s, a) == run_end(s, b),
    decreases b - a,
{
    if a < b {
        lemma_run_end_skip(s, a + 1, b);
    }
}

/// Every byte before `run_end` is a digit, and the one at it is not.
proof fn lemma_run_end_bounds(s: Seq<u8>, i: int)
    requires
        0 <= i <= s.len(),
    ensures
        i <= run_end(s, i) <= s.len(),
        forall|k: int| i <= k < run_end(s, i) ==> is_digit(#[trigger] s[k]),
        run_end(s, i) < s.len() ==> !is_digit(s[run_end(s, i)]),
    decreases s.len() - i,
{
    if i < s.len() && is_digit(s[i]) {
        lemma_run_end_bounds(s, i + 1);
    }
}

/// The value of a digit run grows as the run is extended.
proof fn lemma_value_grows(s: Seq<u8>, a: int, j: int, e: int)
    requires
        0 <= a <= j <= e <= s.len(),
        forall|k: int| a <= k < e ==> is_digit(#[trigger] s[k]),
    ensures
        digits_value(s.subrange(a, j)) <= digits_value(s.subrange(a, e)),
    decreases e - j,
{
    if j < e {
        lemma_value_grows(s, a, j, e - 1);
        let d = s.subrange(a, e);
        assert(d.drop_last() =~= s.subrange(a, e - 1));
        assert(all_digits(s.subrange(a, e - 1)));
        lemma_digits_value_nonneg(s.subrange(a, e - 1));
    }
}

/// The bytes of a hint that reads as something: a dash, digits, and at most
/// one dot at `p` (`p` is the length when there is none), never last.
proof fn lemma_spec_shape(s: Seq<u8>) -> (p: int)
    requires
        spec_of(s) is Some,
    ensures
        2 <= p <= s.len(),
        s[0] == DASH,
        is_digit(s[s.len() - 1]),
        p < s.len() ==> s[p] == DOT,
        forall|k: int| 1 <= k < s.len() && k != p ==> is_digit(#[trigger] s[k]),
{
    lemma_run_end_bounds(s, 1);
    let e1 = run_end(s, 1);
    if e1 < s.len() {
        lemma_run_end_bounds(s, e1 + 1);
    }
    e1
}

/// A dash followed by one run of digits whose value fits in a byte reads as
/// a major version of that value.
pub proof fn dash_digits_is_major(d: Seq<u8>)
    requires
        d.len() > 0,
        all_digits(d),
        digits_value(d) <= 255,
    ensures
        spec_of(seq![DASH] + d) == Some(Spec::Major(digits_value(d) as u8)),
{
    let s = seq![DASH] + d;
    assert forall|k: int| 1 <= k < s.len() implies is_digit(#[trigger] s[k]) by {
        assert(s[k] == d[k - 1]);
    }
    lemma_run_end_skip(s, 1, s.len() as int);
    assert(s.subrange(1, s.len() as int) =~= d);
}

/// A dash, a run of digits, a dot and a second run of digits, each value
/// fitting in a byte, read as a major and minor version of those values.
pub proof fn dash_digits_dot_digits_is_minor(d1: Seq<u8>, d2: Seq<u8>)
    requires
        d1.len() > 0,
        d2.len() > 0,
        all_digits(d1),
        all_digits(d2),
        digits_value(d1) <= 255,
        digits_value(d2) <= 255,
    ensures
        spec_of(seq![DASH] + d1 + seq![DOT] + d2) == Some(
            Spec::Minor(digits_value(d1) as u8, digits_value(d2) as u8),
        ),
{
    let s = seq![DASH] + d1 + seq![DOT] + d2;
    let e = d1.len() as int + 1;
    assert forall|k: int| 1 <= k < e implies is_digit(#[trigger] s[k]) by {
        assert(s[k] == d1[k - 1]);
    }
    assert forall|k: int| e + 1 <= k < s.len() implies is_digit(#[trigger] s[k]) by {
        assert(s[k] == d2[k - e - 1]);
    }
    assert(s[e] == DOT);
    lemma_run_end_skip(s, 1, e);
    lemma_run_end_skip(s, e + 1, s.len() as int);
    assert(s.subrange(1, e) =~= d1);
    assert(s.subrange(e + 1, s.len() as int) =~= d2);
}

/// Without a leading dash, nothing reads as a hint.
pub proof fn missing_dash_is_no_spec(s: Seq<u8>)
    requires
        s.len() == 0 || s[0] != DASH,
    ensures
        spec_of(s) is None,
{
}

/// A trailing dot makes any hint invalid.
pub proof fn trailing_dot_is_no_spec(s: Seq<u8>)
    ensures
        spec_of(s.push(DOT)) is None,
{
    if spec_of(s.push(DOT)) is Some {
        lemma_spec_shape(s.push(DOT));
    }
}

/// A second dot makes any hint invalid.
pub proof fn second_dot_is_no_spec(s: Seq<u8>, i: int, j: int)
    requires
        0 <= i < j < s.len(),
        s[i] == DOT,
        s[j] == DOT,
    ensures
        spec_of(s) is None,
{
    if spec_of(s) is Some {
        let p = lemma_spec_shape(s);
        assert(!is_digit(s[i]) && !is_digit(s[j]));
    }
}

/// A byte after the dash that is neither a digit nor a dot makes any hint
/// invalid.
pub proof fn stray_byte_is_no_spec(s: Seq<u8>, i: int)
    requires
        1 <= i < s.len(),
        !is_digit(s[i]),
        s[i] != DOT,
    ensures
        spec_of(s) is None,
{
    if spec_of(s) is Some {
        let p = lemma_spec_shape(s);
    }
}

/// A non-empty run of digits `d` at `i`, followed by the end of `s` or by
/// a dot, reads as its value.
pub(crate) proof fn lemma_part_of_run(s: Seq<u8>, i: int, d: Seq<u8>, max: int)
    requires
        0 <= i,
        i + d.len() <= s.len(),
        s.subrange(i, i + d.len()) == d,
        d.len() > 0,
        all_digits(d),
        digits_value(d) <= max,
        i + d.len() == s.len() || s[i + d.len()] == DOT,
    ensures
        i + d.len() == s.len() ==> part_at(s, i, max) == (
        SpecPart::Number(digits_value(d)),
        s.len() as int,
        ),
        i + d.len() < s.len() ==> part_at(s, i, max) == (
        SpecPart::NumberDot(digits_value(d)),
        i + d.len() + 1,
        ),
{
    let e = i + d.len();
    assert forall|k: int| i <= k < e implies is_digit(#[trigger] s[k]) by {
        assert(s[k] == s.subrange(i, e)[k - i]);
    }
    lemma_run_end_skip(s, i, e);
}

/// Where a digit run reads as something, the bytes it spans are digits and
/// a final dot.
pub(crate) proof fn lemma_part_at_bytes(s: Seq<u8>, i: int, max: int)
    requires
        0 <= i <= s.len(),
        !(part_at(s, i, max).0 is Invalid),
    ensures
        i < part_at(s, i, max).1 <= s.len(),
        part_at(s, i, max).0 is Number ==> part_at(s, i, max).1 == s.len(),
        forall|k: int|
            i <= k < part_at(s, i, max).1 ==> is_digit(#[trigger] s[k]) || s[k] == DOT,
{
    lemma_run_end_bounds(s, i);
}

/// Reads one digit run of `bytes` from `*pos`, into the number type `T`.
/// On `Number` and `NumberDot`, `*pos` moves past the run and its dot.
pub fn parse_spec_part<T: DecimalNumber>(bytes: &[u8], pos: &mut usize) -> (r: SpecPart<T>)
    requires
        *old(pos) <= bytes@.len(),
        T::max_value() >= 0,
    ensures
        *final(pos) <= bytes@.len(),
        part_value(r) == part_at(bytes@, *old(pos) as int, T::max_value()).0,
        !(r is Invalid) ==> *final(pos) == part_at(bytes@, *old(pos) as int, T::max_value()).1,
{
    let ghost s = bytes@;
    let start = *pos;
    let mut number = T::zero();
    let mut i: usize = start;
    proof {
        assert(s.subrange(start as int, start as int) =~= Seq::<u8>::empty());
    }
    while i < bytes.len()
        invariant
            s == bytes@,
            start <= i <= bytes.len(),
            start == *old(pos),
            start == *pos,
            T::max_value() >= 0,
            forall|k: int| start <= k < i ==> is_digit(#[trigger] s[k]),
            number.value() == digits_value(s.subrange(start as int, i as int)),
            0 <= number.value() <= T::max_value(),
        decreases bytes.len() - i,
    {
        let b = bytes[i];
        proof {
            lemma_run_end_skip(s, start as int, i as int);
        }
        if 48 <= b && b <= 57 {
            proof {
                let d = s.subrange(start as int, i as int + 1);
                assert(d.drop_last() =~= s.subrange(start as int, i as int));
            }
            match number.push_digit(b - 48) {
                Some(n) => {
                    number = n;
                },
                None => {
                    proof {
                        lemma_run_end_bounds(s, start as int);
                        lemma_run_end_skip(s, start as int, i as int + 1);
                        lemma_run_end_bounds(s, i as int + 1);
                        lemma_value_grows(s, start as int, i as int + 1, run_end(s, start as int));
                    }
                    return SpecPart::Invalid;
                },
            }
        } else if b == DOT {
            if i == start {
                return SpecPart::Invalid;
            }
            *pos = i + 1;
            return SpecPart::NumberDot(number);
        } else {
            return SpecPart::Invalid;
        }
        i = i + 1;
    }
    proof {
        lemma_run_end_skip(s, start as int, i as int);
    }
    if i == start {
        SpecPart::Invalid
    } else {
        *pos = i;
        SpecPart::Number(number)
    }
}

/// Parses a version hint of the form `-X` or `-X.Y`.
pub fn parse_spec(bytes: &[u8]) -> (r: Option<Spec>)
    ensures
        r == spec_of(bytes@),
{
    if bytes.len() == 0 || bytes[0] != DASH {
        return None;
    }
    let mut pos: usize = 1;
    let major: u8 = match parse_spec_part::<u8>(bytes, &mut pos) {
        SpecPart::Invalid => {
            return None;
        },
        SpecPart::Number(n) => {
            return Some(Spec::Major(n));
        },
        SpecPart::NumberDot(n) => n,
    };
    match parse_spec_part::<u8>(bytes, &mut pos) {
        SpecPart::Number(n) => Some(Spec::Minor(major, n)),
        _ => None,
    }
}

} // verus!
