use vstd::prelude::*;
use vstd::string::*;
use vstd::utf8::encode_utf8;

use crate::specs::{parse_spec, spec_of, Spec, DASH};

verus! {

/// What a command line asks the launcher for.
#[derive(Debug, Clone, Copy, PartialEq, Eq, Structural)]
pub enum Invocation {
    /// Show the launcher's help, then the interpreter's.
    Help,
    /// Run the default interpreter.
    Default,
    /// Run an interpreter of the given version.
    Spec(Spec),
}

/// The bytes of "-h" or of "--help".
pub open spec fn is_help_flag(b: Seq<u8>) -> bool {
    b == seq![45u8, 104u8] || b == seq![45u8, 45u8, 104u8, 101u8, 108u8, 112u8]
}

/// What the arguments after the program name ask for: help when the only
/// argument is a help flag; else the version hint that the first argument
/// spells, if it spells one; else the default interpreter.
pub open spec fn invocation_of(args: Seq<String>) -> Invocation {
    if args.len() == 0 {
        Invocation::Default
    } else if args.len() == 1 && is_help_flag(encode_utf8(args[0]@)) {
        Invocation::Help
    } else {
        match spec_of(encode_utf8(args[0]@)) {
            None => Invocation::Default,
            Some(s) => Invocation::Spec(s),
        }
    }
}

fn is_help(b: &[u8]) -> (r: bool)
    ensures
        r == is_help_flag(b@),
{
    if b.len() == 2 {
        let r = b[0] == 45 && b[1] == 104;
        assert(r ==> b@ =~= seq![45u8, 104u8]);
        r
    } else if b.len() == 6 {
        let r = b[0] == 45 && b[1] == 45 && b[2] == 104 && b[3] == 101 && b[4] == 108 && b[5]
            == 112;
        assert(r ==> b@ =~= seq![45u8, 45u8, 104u8, 101u8, 108u8, 112u8]);
        r
    } else {
        false
    }
}

/// Decides what to launch from the arguments that follow the program name.
pub fn get_invocation(args: &Vec<String>) -> (r: Invocation)
    ensures
        r == invocation_of(args@),
{
    if args.len() == 0 {
        return Invocation::Default;
    }
    let arg = args[0].as_str().as_bytes();
    if args.len() == 1 && is_help(arg) {
        return Invocation::Help;
    }
    match parse_spec(arg) {
        None => Invocation::Default,
        Some(s) => Invocation::Spec(s),
    }
}

/// Which configured default a hint is completed from.
#[derive(Debug, Clone, Copy, PartialEq, Eq, Structural)]
pub enum DefaultLookup {
    /// A major and minor version is complete already.
    Unneeded,
    /// The default for one major version.
    ForMajor(u8),
    /// The default when no version is asked for.
    General,
}

pub open spec fn lookup_for(spec: Option<Spec>) -> DefaultLookup {
    match spec {
        Some(Spec::Minor(_, _)) => DefaultLookup::Unneeded,
        Some(Spec::Major(x)) => DefaultLookup::ForMajor(x),
        None => DefaultLookup::General,
    }
}

/// The configured default that completes `spec`.
pub fn default_lookup(spec: Option<Spec>) -> (r: DefaultLookup)
    ensures
        r == lookup_for(spec),
{
    match spec {
        Some(Spec::Minor(_, _)) => DefaultLookup::Unneeded,
        Some(Spec::Major(x)) => DefaultLookup::ForMajor(x),
        None => DefaultLookup::General,
    }
}

/// The hint that a configured default `c` ("X" or "X.Y") stands for.
pub open spec fn configured_spec(c: Seq<u8>) -> Option<Spec> {
    spec_of(seq![DASH] + c)
}

/// The hint to search for, given `spec` and the value `configured` of the
/// default that `lookup_for(spec)` names: a major and minor version stays;
/// a major version, or no hint, is replaced by the configured default where
/// one is set, and a major version stays where none is.
pub open spec fn resolved(spec: Option<Spec>, configured: Option<Seq<u8>>) -> Option<Spec> {
    match spec {
        Some(Spec::Minor(_, _)) => spec,
        Some(Spec::Major(_)) => match configured {
            None => spec,
            Some(c) => configured_spec(c),
        },
        None => match configured {
            None => None,
            Some(c) => configured_spec(c),
        },
    }
}

fn parse_configured(c: &str) -> (r: Option<Spec>)
    ensures
        r == configured_spec(c.spec_bytes()),
{
    let bytes = c.as_bytes();
    let mut hint: Vec<u8> = Vec::new();
    hint.push(DASH);
    let mut i: usize = 0;
    while i < bytes.len()
        invariant
            i <= bytes@.len(),
            hint@ == seq![DASH] + bytes@.subrange(0, i as int),
        decreases bytes.len() - i,
    {
        hint.push(bytes[i]);
        proof {
            assert(bytes@.subrange(0, i as int + 1) =~= bytes@.subrange(0, i as int).push(
                bytes@[i as int],
            ));
        }
        i = i + 1;
    }
    proof {
        assert(bytes@.subrange(0, bytes@.len() as int) =~= bytes@);
    }
    parse_spec(hint.as_slice())
}

/// Completes a hint from the configured default; see `resolved`.
pub fn resolve_spec(spec: Option<Spec>, configured: Option<&str>) -> (r: Option<Spec>)
    ensures
        r == resolved(
            spec,
            match configured {
                Some(c) => Some(c.spec_bytes()),
                None => None,
            },
        ),
{
    match spec {
        Some(Spec::Minor(_, _)) => spec,
        Some(Spec::Major(_)) => match configured {
            None => spec,
            Some(c) => parse_configured(c),
        },
        None => match configured {
            None => None,
            Some(c) => parse_configured(c),
        },
    }
}

} // verus!
