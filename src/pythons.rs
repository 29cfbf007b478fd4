use vstd::prelude::*;
use vstd::string::*;

use crate::specs::{
    all_digits, digits_value, is_digit, lemma_part_at_bytes, lemma_part_of_run, part_at,
    parse_spec_part, Spec, SpecPart, DOT,
};

verus! {

/// Major, minor and patch. A component is `UNKNOWN` when the name it was
/// read from does not say it; any known component is at least zero.
pub type Version = (i16, i16, i16);

/// The component that a name leaves unstated; it sorts below every known one.
pub const UNKNOWN: i16 = -1;

/// Largest component that a name can state.
pub open spec fn component_max() -> int {
    32767
}

/// What fills the components that a name leaves out.
#[derive(Debug, Clone, Copy, PartialEq, Eq, Structural)]
pub enum VersionPad {
    /// A release named by its version: "3.6" is 3.6.0.
    Zero,
    /// An executable named by a version prefix: "3.6" says nothing of the patch.
    Unknown,
}

impl VersionPad {
    pub open spec fn spec_value(self) -> i16 {
        match self {
            VersionPad::Zero => 0,
            VersionPad::Unknown => UNKNOWN,
        }
    }

    pub fn value(self) -> (r: i16)
        ensures
            r == self.spec_value(),
    {
        match self {
            VersionPad::Zero => 0,
            VersionPad::Unknown => UNKNOWN,
        }
    }
}

/// The version that `s` spells from index `i` on: one to three digit runs
/// joined by dots and nothing after them, the missing ones filled by `pad`.
pub open spec fn version_at(s: Seq<u8>, i: int, pad: i16) -> Option<Version> {
    let (a, n1) = part_at(s, i, component_max());
    match a {
        SpecPart::Invalid => None,
        SpecPart::Number(x) => Some((x as i16, pad, pad)),
        SpecPart::NumberDot(x) => {
            let (b, n2) = part_at(s, n1, component_max());
            match b {
                SpecPart::Invalid => None,
                SpecPart::Number(y) => Some((x as i16, y as i16, pad)),
                SpecPart::NumberDot(y) => match part_at(s, n2, component_max()).0 {
                    SpecPart::Number(z) => Some((x as i16, y as i16, z as i16)),
                    _ => None,
                },
            }
        },
    }
}

/// The bytes of "CPython-", a prefix that some installers put on release names.
pub open spec fn cpython_prefix() -> Seq<u8> {
    seq![67u8, 80u8, 121u8, 116u8, 104u8, 111u8, 110u8, 45u8]
}

/// The bytes of "python", the interpreter's command name.
pub open spec fn python_prefix() -> Seq<u8> {
    seq![112u8, 121u8, 116u8, 104u8, 111u8, 110u8]
}

pub open spec fn has_prefix(s: Seq<u8>, p: Seq<u8>) -> bool {
    p.len() <= s.len() && s.subrange(0, p.len() as int) == p
}

/// The version of a managed installation named `name`: a full version,
/// possibly after "CPython-", with missing components zero.
pub open spec fn managed_version(name: Seq<u8>) -> Option<Version> {
    if has_prefix(name, cpython_prefix()) {
        version_at(name, cpython_prefix().len() as int, 0)
    } else {
        version_at(name, 0, 0)
    }
}

/// The version of an executable named `name`: "python" alone is of unknown
/// version; after "python" may come a major and a minor version, with the
/// missing ones unknown. Anything else names no interpreter.
pub open spec fn executable_version(name: Seq<u8>) -> Option<Version> {
    if !has_prefix(name, python_prefix()) {
        None
    } else if name.len() == python_prefix().len() {
        Some((UNKNOWN, UNKNOWN, UNKNOWN))
    } else {
        match version_at(name, python_prefix().len() as int, UNKNOWN) {
            Some(v) => if v.2 == UNKNOWN {
                Some(v)
            } else {
                None
            },
            None => None,
        }
    }
}

fn starts_with(s: &[u8], prefix: &[u8]) -> (r: bool)
    ensures
        r == has_prefix(s@, prefix@),
{
    if prefix.len() > s.len() {
        return false;
    }
    let mut i: usize = 0;
    while i < prefix.len()
        invariant
            prefix.len() <= s.len(),
            i <= prefix.len(),
            forall|k: int| 0 <= k < i ==> s@[k] == prefix@[k],
        decreases prefix.len() - i,
    {
        if s[i] != prefix[i] {
            assert(s@.subrange(0, prefix@.len() as int)[i as int] != prefix@[i as int]);
            return false;
        }
        i = i + 1;
    }
    assert(s@.subrange(0, prefix@.len() as int) =~= prefix@);
    true
}

/// Reads a version from `bytes` at `start`; see `version_at`.
fn version_from(bytes: &[u8], start: usize, pad: i16) -> (r: Option<Version>)
    requires
        start <= bytes@.len(),
    ensures
        r == version_at(bytes@, start as int, pad),
{
    let mut pos = start;
    let major = match parse_spec_part::<i16>(bytes, &mut pos) {
        SpecPart::Invalid => {
            return None;
        },
        SpecPart::Number(n) => {
            return Some((n, pad, pad));
        },
        SpecPart::NumberDot(n) => n,
    };
    let minor = match parse_spec_part::<i16>(bytes, &mut pos) {
        SpecPart::Invalid => {
            return None;
        },
        SpecPart::Number(n) => {
            return Some((major, n, pad));
        },
        SpecPart::NumberDot(n) => n,
    };
    match parse_spec_part::<i16>(bytes, &mut pos) {
        SpecPart::Number(n) => Some((major, minor, n)),
        _ => None,
    }
}

/// Reads `major[.minor[.patch]]` from a name, filling what is left out by `pad`.
pub fn parse_version_from_name(name: &str, pad: VersionPad) -> (r: Option<Version>)
    ensures
        r == version_at(name.spec_bytes(), 0, pad.spec_value()),
{
    version_from(name.as_bytes(), 0, pad.value())
}

/// Reads the version of a managed installation from its directory name.
pub fn parse_managed_root_path(name: &str) -> (r: Option<Version>)
    ensures
        r == managed_version(name.spec_bytes()),
{
    let bytes = name.as_bytes();
    let prefix: [u8; 8] = [67, 80, 121, 116, 104, 111, 110, 45];
    assert(prefix@ =~= cpython_prefix());
    if starts_with(bytes, prefix.as_slice()) {
        version_from(bytes, 8, 0)
    } else {
        version_from(bytes, 0, 0)
    }
}

/// Reads the version of an interpreter from its executable's file name.
pub fn parse_executable_path(name: &str) -> (r: Option<Version>)
    ensures
        r == executable_version(name.spec_bytes()),
{
    let bytes = name.as_bytes();
    let prefix: [u8; 6] = [112, 121, 116, 104, 111, 110];
    assert(prefix@ =~= python_prefix());
    if !starts_with(bytes, prefix.as_slice()) {
        return None;
    }
    if bytes.len() == 6 {
        return Some((UNKNOWN, UNKNOWN, UNKNOWN));
    }
    match version_from(bytes, 6, UNKNOWN) {
        Some(v) => if v.2 == UNKNOWN {
            Some(v)
        } else {
            None
        },
        None => None,
    }
}

/// `a` is a higher version than `b`, comparing major, then minor, then patch.
pub open spec fn version_gt(a: Version, b: Version) -> bool {
    a.0 > b.0 || (a.0 == b.0 && (a.1 > b.1 || (a.1 == b.1 && a.2 > b.2)))
}

/// Whether a version is one that `spec` asks for; the patch never counts.
pub open spec fn version_matches(v: Version, spec: Spec) -> bool {
    match spec {
        Spec::Major(x) => v.0 == x as i16,
        Spec::Minor(x, y) => v.0 == x as i16 && v.1 == y as i16,
    }
}

/// One interpreter that was found.
#[derive(Debug)]
pub struct Python {
    pub location: String,
    pub version: Version,
    /// Tie breaker: where it was found (e.g. its directory's place in the
    /// search path); smaller is preferred.
    pub order: usize,
}

/// `a` is preferred to `b`: a higher version, or the same version found
/// earlier.
pub open spec fn ranks_above(a: Python, b: Python) -> bool {
    version_gt(a.version, b.version) || (a.version == b.version && a.order < b.order)
}

impl Python {
    /// A managed installation named `name`, whose interpreter is at `location`.
    pub fn from_managed(name: &str, location: String, order: usize) -> (r: Option<Python>)
        ensures
            r == match managed_version(name.spec_bytes()) {
                Some(v) => Some(Python { location, version: v, order }),
                None => None,
            },
    {
        let version = parse_managed_root_path(name);
        match version {
            Some(v) => Some(Python { location, version: v, order }),
            None => None,
        }
    }

    /// An executable named `name` at `location`, found in a searched directory.
    pub fn from_in_path(name: &str, location: String, order: usize) -> (r: Option<Python>)
        ensures
            r == match executable_version(name.spec_bytes()) {
                Some(v) => Some(Python { location, version: v, order }),
                None => None,
            },
    {
        let version = parse_executable_path(name);
        match version {
            Some(v) => Some(Python { location, version: v, order }),
            None => None,
        }
    }

    /// Whether this interpreter is of the version that `spec` asks for.
    pub fn matches(&self, spec: &Spec) -> (r: bool)
        ensures
            r == version_matches(self.version, *spec),
    {
        match spec {
            Spec::Major(x) => self.version.0 == *x as i16,
            Spec::Minor(x, y) => self.version.0 == *x as i16 && self.version.1 == *y as i16,
        }
    }

    pub fn location(&self) -> (r: &str)
        ensures
            r@ == self.location@,
    {
        self.location.as_str()
    }

    /// Whether this interpreter is preferred to `other`.
    pub fn ranks_above(&self, other: &Python) -> (r: bool)
        ensures
            r == ranks_above(*self, *other),
    {
        let (a, b) = (self.version, other.version);
        if a.0 != b.0 {
            a.0 > b.0
        } else if a.1 != b.1 {
            a.1 > b.1
        } else if a.2 != b.2 {
            a.2 > b.2
        } else {
            self.order < other.order
        }
    }
}

impl PartialEq for Python {
    /// Two interpreters are equal when neither is preferred to the other.
    fn eq(&self, other: &Python) -> (r: bool) {
        self.version.0 == other.version.0 && self.version.1 == other.version.1
            && self.version.2 == other.version.2 && self.order == other.order
    }
}

impl vstd::std_specs::cmp::PartialEqSpecImpl for Python {
    open spec fn obeys_eq_spec() -> bool {
        true
    }

    open spec fn eq_spec(&self, other: &Python) -> bool {
        self.version == other.version && self.order == other.order
    }
}

impl PartialOrd for Python {
    /// Orders interpreters by preference: the preferred one is greater.
    fn partial_cmp(&self, other: &Python) -> (r: Option<core::cmp::Ordering>) {
        if self.ranks_above(other) {
            Some(core::cmp::Ordering::Greater)
        } else if other.ranks_above(self) {
            Some(core::cmp::Ordering::Less)
        } else {
            Some(core::cmp::Ordering::Equal)
        }
    }
}

impl vstd::std_specs::cmp::PartialOrdSpecImpl for Python {
    open spec fn obeys_partial_cmp_spec() -> bool {
        true
    }

    open spec fn partial_cmp_spec(&self, other: &Python) -> Option<core::cmp::Ordering> {
        if ranks_above(*self, *other) {
            Some(core::cmp::Ordering::Greater)
        } else if ranks_above(*other, *self) {
            Some(core::cmp::Ordering::Less)
        } else {
            Some(core::cmp::Ordering::Equal)
        }
    }
}

/// Reading a version is a function of the name alone: equal names read
/// alike, as managed names, as executable names and with either padding.
pub proof fn version_reading_is_pure(a: &str, b: &str, pad: VersionPad)
    requires
        a@ == b@,
    ensures
        version_at(a.spec_bytes(), 0, pad.spec_value()) == version_at(
            b.spec_bytes(),
            0,
            pad.spec_value(),
        ),
        managed_version(a.spec_bytes()) == managed_version(b.spec_bytes()),
        executable_version(a.spec_bytes()) == executable_version(b.spec_bytes()),
{
}

/// Where a version reads from `i` on, every byte from `i` on is a digit or
/// a dot.
proof fn lemma_version_bytes(s: Seq<u8>, i: int, pad: i16)
    requires
        0 <= i <= s.len(),
        version_at(s, i, pad) is Some,
    ensures
        forall|k: int| i <= k < s.len() ==> is_digit(#[trigger] s[k]) || s[k] == DOT,
{
    let (a, n1) = part_at(s, i, component_max());
    lemma_part_at_bytes(s, i, component_max());
    if a is NumberDot {
        let (b, n2) = part_at(s, n1, component_max());
        lemma_part_at_bytes(s, n1, component_max());
        if b is NumberDot {
            lemma_part_at_bytes(s, n2, component_max());
        }
    }
}

/// A managed name of one digit run reads as that major version with zero
/// minor and patch; of two runs joined by a dot, as that major and minor
/// version with a zero patch.
pub proof fn managed_name_pads_with_zero(d1: Seq<u8>, d2: Seq<u8>)
    requires
        d1.len() > 0,
        d2.len() > 0,
        all_digits(d1),
        all_digits(d2),
        digits_value(d1) <= component_max(),
        digits_value(d2) <= component_max(),
    ensures
        managed_version(d1) == Some((digits_value(d1) as i16, 0i16, 0i16)),
        managed_version(d1 + seq![DOT] + d2) == Some(
            (digits_value(d1) as i16, digits_value(d2) as i16, 0i16),
        ),
{
    let m = component_max();
    assert(!is_digit(cpython_prefix()[0]));
    assert(!has_prefix(d1, cpython_prefix())) by {
        if has_prefix(d1, cpython_prefix()) {
            assert(d1[0] == d1.subrange(0, 8)[0]);
        }
    }
    assert(d1.subrange(0, d1.len() as int) =~= d1);
    lemma_part_of_run(d1, 0, d1, m);

    let s = d1 + seq![DOT] + d2;
    let e = d1.len() as int;
    assert(!has_prefix(s, cpython_prefix())) by {
        if has_prefix(s, cpython_prefix()) {
            assert(s[0] == s.subrange(0, 8)[0]);
            assert(s[0] == d1[0]);
        }
    }
    assert(s.subrange(0, e) =~= d1);
    assert(s[e] == DOT);
    lemma_part_of_run(s, 0, d1, m);
    assert(s.subrange(e + 1, s.len() as int) =~= d2);
    lemma_part_of_run(s, e + 1, d2, m);
}

/// "python" alone reads as a fully unknown version; "python" and one digit
/// run as that major version with the rest unknown; "python" and two runs
/// joined by a dot as that major and minor version with the patch unknown.
pub proof fn executable_name_pads_with_unknown(d1: Seq<u8>, d2: Seq<u8>)
    requires
        d1.len() > 0,
        d2.len() > 0,
        all_digits(d1),
        all_digits(d2),
        digits_value(d1) <= component_max(),
        digits_value(d2) <= component_max(),
    ensures
        executable_version(python_prefix()) == Some((UNKNOWN, UNKNOWN, UNKNOWN)),
        executable_version(python_prefix() + d1) == Some(
            (digits_value(d1) as i16, UNKNOWN, UNKNOWN),
        ),
        executable_version(python_prefix() + d1 + seq![DOT] + d2) == Some(
            (digits_value(d1) as i16, digits_value(d2) as i16, UNKNOWN),
        ),
{
    let m = component_max();
    let p = python_prefix();
    assert(p.subrange(0, 6) =~= p);

    let s1 = p + d1;
    assert(s1.subrange(0, 6) =~= p);
    assert(s1.subrange(6, s1.len() as int) =~= d1);
    lemma_part_of_run(s1, 6, d1, m);

    let s2 = p + d1 + seq![DOT] + d2;
    let e = 6 + d1.len() as int;
    assert(s2.subrange(0, 6) =~= p);
    assert(s2.subrange(6, e) =~= d1);
    assert(s2[e] == DOT);
    lemma_part_of_run(s2, 6, d1, m);
    assert(s2.subrange(e + 1, s2.len() as int) =~= d2);
    lemma_part_of_run(s2, e + 1, d2, m);
}

/// A name that does not start with "python", or that holds after it a byte
/// that is neither a digit nor a dot, names no interpreter.
pub proof fn invalid_executable_name_is_rejected(s: Seq<u8>, i: int)
    requires
        !has_prefix(s, python_prefix()) || (python_prefix().len() <= i < s.len() && !is_digit(
            s[i],
        ) && s[i] != DOT),
    ensures
        executable_version(s) is None,
{
    if has_prefix(s, python_prefix()) && s.len() > python_prefix().len() && version_at(
        s,
        python_prefix().len() as int,
        UNKNOWN,
    ) is Some {
        lemma_version_bytes(s, python_prefix().len() as int, UNKNOWN);
    }
}

/// Of two interpreters that differ only in the patch, the higher patch is
/// preferred; of two of the same version, the one found first.
pub proof fn higher_patch_then_earlier_order_wins(a: Python, b: Python)
    ensures
        a.version.0 == b.version.0 && a.version.1 == b.version.1 && a.version.2 > b.version.2
            ==> ranks_above(a, b) && !ranks_above(b, a),
        a.version == b.version && a.order < b.order ==> ranks_above(a, b) && !ranks_above(b, a),
{
}

} // verus!
