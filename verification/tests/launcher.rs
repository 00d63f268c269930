//! Texts of the launcher.

use viewr_core::launcher::nul_terminated_utf16;

#[test]
fn texts_are_terminated_by_their_only_nul() {
    assert_eq!(nul_terminated_utf16(""), [0]);
    assert_eq!(nul_terminated_utf16("Vi\0r"), [86, 105, 0xfffd, 114, 0]);
    let text = "Gr\u{fc}\u{df}e \u{1f600}\u{10ffff}\r\n";
    let mut expected: Vec<u16> = text.encode_utf16().collect();
    expected.push(0);
    assert_eq!(nul_terminated_utf16(text), expected);
}
