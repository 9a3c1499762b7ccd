use pdfrs::serde_pdf::{CheckedAdd, CheckedMul};

#[test]
fn checked_add_reports_overflow() {
    assert_eq!(CheckedAdd::checked_add(&200u8, &55u8), Some(255u8));
    assert_eq!(CheckedAdd::checked_add(&200u8, &56u8), None);
    assert_eq!(CheckedAdd::checked_add(&i32::MIN, &-1i32), None);
    assert_eq!(CheckedAdd::checked_add(&-5i64, &7i64), Some(2i64));
}

#[test]
fn checked_mul_reports_overflow() {
    assert_eq!(CheckedMul::checked_mul(&16u16, &4096u16), None);
    assert_eq!(CheckedMul::checked_mul(&16u16, &4095u16), Some(65520u16));
    assert_eq!(CheckedMul::checked_mul(&-2i64, &i64::MAX), None);
    assert_eq!(CheckedMul::checked_mul(&-3i8, &42i8), Some(-126i8));
}
