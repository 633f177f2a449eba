use project::ctype::{isalpha, isascii, isdigit_l, islower_l, isspace, isupper_l, iswlower_l, isxdigit_l, tolower, toupper};

#[test]
fn case_mapping_changes_only_ascii_letters() {
    assert_eq!(tolower('A' as i32), 'a' as i32);
    assert_eq!(tolower('Z' as i32), 'z' as i32);
    assert_eq!(tolower('a' as i32), 'a' as i32);
    assert_eq!(tolower('@' as i32), '@' as i32);
    assert_eq!(tolower('[' as i32), '[' as i32);
    assert_eq!(toupper('a' as i32), 'A' as i32);
    assert_eq!(toupper('z' as i32), 'Z' as i32);
    assert_eq!(toupper('Z' as i32), 'Z' as i32);
    assert_eq!(toupper('{' as i32), '{' as i32);
    assert_eq!(toupper(-1), -1);
    assert_eq!(toupper(tolower('Q' as i32)), 'Q' as i32);
}

#[test]
fn classification_reads_the_low_byte() {
    assert_eq!(isspace(' ' as i32), 1);
    assert_eq!(isspace('\t' as i32), 1);
    assert_eq!(isspace('\n' as i32), 1);
    assert_eq!(isspace(0x0c), 1);
    assert_eq!(isspace('\r' as i32), 1);
    assert_eq!(isspace(0x0b), 0);
    assert_eq!(isspace('x' as i32), 0);
    assert_eq!(isspace(256 + 32), 1);
    assert_eq!(isalpha('g' as i32), 1);
    assert_eq!(isalpha('G' as i32), 1);
    assert_eq!(isalpha('1' as i32), 0);
    assert_eq!(isalpha(256 + 'A' as i32), 1);
    assert_eq!(isdigit_l('7' as i32, 0), 1);
    assert_eq!(isdigit_l('a' as i32, 0), 0);
    assert_eq!(isxdigit_l('f' as i32, 0), 1);
    assert_eq!(isxdigit_l('F' as i32, 0), 1);
    assert_eq!(isxdigit_l('g' as i32, 0), 0);
    assert_eq!(islower_l('q' as i32, 0), 1);
    assert_eq!(islower_l('Q' as i32, 0), 0);
    assert_eq!(iswlower_l('q' as i32, 0), 1);
    assert_eq!(isupper_l('Q' as i32, 0), 1);
    assert_eq!(isupper_l('q' as i32, 0), 0);
}

#[test]
fn ascii_range() {
    assert_eq!(isascii(0), 1);
    assert_eq!(isascii(127), 1);
    assert_eq!(isascii(128), 0);
    assert_eq!(isascii(-1), 0);
}
