use ahc_solvers::text::{push_decimal, push_signed_decimal};

#[test]
fn decimal_text() {
    let mut out = vec![];
    push_decimal(&mut out, 0);
    out.push(' ');
    push_decimal(&mut out, 1203);
    out.push(' ');
    push_signed_decimal(&mut out, -45);
    out.push(' ');
    push_signed_decimal(&mut out, i64::MIN);
    let s: String = out.into_iter().collect();
    assert_eq!(s, format!("0 1203 -45 {}", i64::MIN));
}
