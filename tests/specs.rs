use py_launcher::specs::{parse_spec, parse_spec_part, Spec, SpecPart};

#[test]
fn test_parse_spec_part_number() {
    assert_eq!(parse_spec_part::<u8>(b"2", &mut 0), SpecPart::Number(2));
    assert_eq!(parse_spec_part::<u8>(b"12", &mut 0), SpecPart::Number(12));
}

#[test]
fn test_parse_spec_part_number_dot() {
    assert_eq!(parse_spec_part::<u8>(b"3.", &mut 0), SpecPart::NumberDot(3));
    assert_eq!(parse_spec_part::<u8>(b"23.", &mut 0), SpecPart::NumberDot(23));
    assert_eq!(parse_spec_part::<u8>(b"3..", &mut 0), SpecPart::NumberDot(3));
    assert_eq!(parse_spec_part::<u8>(b"23..", &mut 0), SpecPart::NumberDot(23));
}

#[test]
fn test_parse_spec_part_only_dot() {
    assert_eq!(parse_spec_part::<u8>(b"...", &mut 0), SpecPart::Invalid);
}

#[test]
fn test_parse_spec_major() {
    assert_eq!(parse_spec(b"-3"), Some(Spec::Major(3)));
    assert_eq!(parse_spec(b"-0"), Some(Spec::Major(0)));
}

#[test]
fn test_parse_spec_minor() {
    assert_eq!(parse_spec(b"-3.4"), Some(Spec::Minor(3, 4)));
    assert_eq!(parse_spec(b"-3.0"), Some(Spec::Minor(3, 0)));
}

#[test]
fn test_parse_spec_trailing_garbage() {
    assert_eq!(parse_spec(b"-3.4-32"), None);
}

#[test]
fn test_parse_spec_wrong_dash() {
    assert_eq!(parse_spec(b"--3.4"), None);
    assert_eq!(parse_spec(b"3.4"), None);
    assert_eq!(parse_spec(b"-"), None);
}

#[test]
fn test_parse_spec_trailing_dot() {
    assert_eq!(parse_spec(b"-3.4."), None);
    assert_eq!(parse_spec(b"-3."), None);
    assert_eq!(parse_spec(b"-."), None);
}

#[test]
fn spec_part_moves_past_run_and_dot() {
    let mut pos: usize = 1;
    assert_eq!(parse_spec_part::<u8>(b"-27.4", &mut pos), SpecPart::NumberDot(27));
    assert_eq!(pos, 4);
    assert_eq!(parse_spec_part::<u8>(b"-27.4", &mut pos), SpecPart::Number(4));
    assert_eq!(pos, 5);
}

#[test]
fn spec_part_rejects_stray_byte_and_empty() {
    assert_eq!(parse_spec_part::<u8>(b"3a", &mut 0), SpecPart::Invalid);
    assert_eq!(parse_spec_part::<u8>(b"", &mut 0), SpecPart::Invalid);
}

#[test]
fn spec_part_refuses_values_over_the_bound() {
    assert_eq!(parse_spec_part::<u8>(b"255", &mut 0), SpecPart::Number(255));
    assert_eq!(parse_spec_part::<u8>(b"256", &mut 0), SpecPart::Invalid);
    assert_eq!(parse_spec_part::<i16>(b"32767.", &mut 0), SpecPart::NumberDot(32767));
    assert_eq!(parse_spec_part::<i16>(b"32768", &mut 0), SpecPart::Invalid);
}

#[test]
fn spec_multi_digit_runs() {
    assert_eq!(parse_spec(b"-12"), Some(Spec::Major(12)));
    assert_eq!(parse_spec(b"-12.34"), Some(Spec::Minor(12, 34)));
    assert_eq!(parse_spec(b"-255.255"), Some(Spec::Minor(255, 255)));
}

#[test]
fn spec_rejects_second_dot_stray_bytes_and_overflow() {
    assert_eq!(parse_spec(b"-3.4.5"), None);
    assert_eq!(parse_spec(b"-3x"), None);
    assert_eq!(parse_spec(b"-3.x"), None);
    assert_eq!(parse_spec(b"-.4"), None);
    assert_eq!(parse_spec(b""), None);
    assert_eq!(parse_spec(b"-256"), None);
    assert_eq!(parse_spec(b"-3.256"), None);
}
