use ds1054z::bitmap::Bitmap;
use ds1054z::block::{decode_block, decode_line};
use ds1054z::command::{format_command, Argument};
use ds1054z::error::ScopeError;
use ds1054z::scope::{Scope, Step};

const PNG_3X2: [u8; 80] = [
    137, 80, 78, 71, 13, 10, 26, 10, 0, 0, 0, 13, 73, 72, 68, 82, 0, 0, 0, 3, 0, 0, 0, 2, 8, 2,
    0, 0, 0, 18, 22, 241, 77, 0, 0, 0, 23, 73, 68, 65, 84, 120, 156, 99, 248, 207, 192, 192, 0,
    193, 92, 34, 114, 26, 70, 54, 110, 1, 81, 0, 51, 89, 4, 192, 228, 36, 152, 203, 0, 0, 0, 0,
    73, 69, 78, 68, 174, 66, 96, 130,
];

const PNG_3X2_PIXELS: [u8; 18] = [
    255, 0, 0, 0, 255, 0, 0, 0, 255, 10, 20, 30, 40, 50, 60, 70, 80, 90,
];

fn framed(payload: &[u8]) -> Vec<u8> {
    let mut v = format!("#9{:09}", payload.len()).into_bytes();
    v.extend_from_slice(payload);
    v.push(b'\n');
    v
}

fn ready<T: std::fmt::Debug>(s: Step<T>) -> T {
    match s {
        Step::Ready(t) => t,
        Step::Pending => panic!("step is pending"),
    }
}

#[test]
fn block_returns_payload_and_leaves_rest() {
    let mut s = b"#15hello\nNEXT".to_vec();
    let (r, used) = decode_block(&s, false);
    assert_eq!(r, Some(Ok(b"hello".to_vec())));
    assert_eq!(used, 9);
    s.drain(..used);
    assert_eq!(s, b"NEXT".to_vec());
}

#[test]
fn block_with_carriage_return_before_newline() {
    let (r, used) = decode_block(b"#203abc\r\n*", true);
    assert_eq!(r, Some(Ok(b"abc".to_vec())));
    assert_eq!(used, 9);
}

#[test]
fn block_digit_count_out_of_range_is_format_error() {
    let (r, used) = decode_block(b"#:0000000005hello\n", false);
    assert_eq!(r, Some(Err(ScopeError::Format)));
    assert_eq!(used, 2);
}

#[test]
fn block_bad_marker_is_format_error() {
    let (r, used) = decode_block(b"$15hello\n", false);
    assert_eq!(r, Some(Err(ScopeError::Format)));
    assert_eq!(used, 2);
}

#[test]
fn block_non_digit_length_is_format_error() {
    let (r, used) = decode_block(b"#31x5hello\n", false);
    assert_eq!(r, Some(Err(ScopeError::Format)));
    assert_eq!(used, 5);
}

#[test]
fn block_signed_length_is_format_error() {
    let (r, _) = decode_block(b"#2+5hello\n", false);
    assert_eq!(r, Some(Err(ScopeError::Format)));
}

#[test]
fn block_empty_length_field_is_format_error() {
    let (r, used) = decode_block(b"#0\n", false);
    assert_eq!(r, Some(Err(ScopeError::Format)));
    assert_eq!(used, 2);
}

#[test]
fn block_incomplete_waits_or_fails_at_end() {
    assert_eq!(decode_block(b"#15hel", false), (None, 0));
    assert_eq!(decode_block(b"#", false), (None, 0));
    assert_eq!(decode_block(b"#15hello", false), (None, 0));
    assert_eq!(decode_block(b"#15hel", true), (Some(Err(ScopeError::Io)), 6));
    assert_eq!(decode_block(b"#15hello", true), (Some(Ok(b"hello".to_vec())), 8));
    assert_eq!(decode_block(b"#15helloXY", true), (Some(Err(ScopeError::Io)), 10));
}

#[test]
fn line_decoding() {
    assert_eq!(decode_line(b"abc\ndef", false), (Some(Ok(b"abc".to_vec())), 4));
    assert_eq!(decode_line(b"abc", false), (None, 0));
    assert_eq!(decode_line(b"", true), (Some(Ok(Vec::new())), 0));
    assert_eq!(decode_line(b"abc", true), (Some(Err(ScopeError::Io)), 3));
}

#[test]
fn format_capture_command() {
    let args = [Argument::Discrete("ON"), Argument::Bool(false), Argument::Discrete("PNG")];
    let line = format_command(":DISPlay:DATA?", &args);
    assert_eq!(line, b":DISPlay:DATA? ON,0,PNG\n".to_vec());
    let text = String::from_utf8(line).unwrap();
    let (mnemonic, rest) = text.trim_end_matches('\n').split_once(' ').unwrap();
    let fields: Vec<&str> = rest.split(',').collect();
    assert_eq!(mnemonic, ":DISPlay:DATA?");
    assert_eq!(fields, vec!["ON", "0", "PNG"]);
    assert_eq!(fields[1] == "1", false);
}

#[test]
fn format_other_arguments() {
    assert_eq!(format_command("*IDN?", &[]), b"*IDN?\n".to_vec());
    let args = [Argument::Bool(true), Argument::Text(String::from("abc"))];
    assert_eq!(format_command(":X", &args), b":X 1,abc\n".to_vec());
}

#[test]
fn identity_query_scenario() {
    let mut scope = Scope::new();
    assert!(matches!(scope.info(), Step::Pending));
    assert_eq!(scope.take_output(), b":*IDN?\n".to_vec());
    scope.receive(b"RIGOL,DS1054Z,X,Y\n");
    assert_eq!(ready(scope.info()), Ok(String::from("RIGOL,DS1054Z,X,Y")));
    assert!(scope.take_output().is_empty());
}

#[test]
fn identity_query_trims_carriage_return() {
    let mut scope = Scope::new();
    scope.receive(b"RIGOL,DS1054Z,X,Y \r\n");
    assert_eq!(ready(scope.info()), Ok(String::from("RIGOL,DS1054Z,X,Y")));
}

#[test]
fn identity_query_in_pieces() {
    let mut scope = Scope::new();
    scope.receive(b"RIGOL,");
    assert!(matches!(scope.info(), Step::Pending));
    scope.receive(b"DS1054Z\n");
    assert_eq!(ready(scope.info()), Ok(String::from("RIGOL,DS1054Z")));
    assert_eq!(scope.take_output(), b":*IDN?\n".to_vec());
}

#[test]
fn repeated_identity_queries_are_independent() {
    let mut scope = Scope::new();
    scope.receive(b"RIGOL,A\nRIGOL,B\n");
    assert_eq!(ready(scope.info()), Ok(String::from("RIGOL,A")));
    assert_eq!(ready(scope.info()), Ok(String::from("RIGOL,B")));
    assert_eq!(scope.take_output(), b":*IDN?\n:*IDN?\n".to_vec());
    assert!(matches!(scope.info(), Step::Pending));
}

#[test]
fn read_line_invalid_utf8_is_io_error() {
    let mut scope = Scope::new();
    scope.receive(&[0xff, 0xfe, b'\n']);
    assert_eq!(ready(scope.read_line()), Err(ScopeError::Io));
}

#[test]
fn read_line_after_end_of_stream() {
    let mut scope = Scope::new();
    scope.receive(b"abc\n");
    scope.end_of_stream();
    assert_eq!(ready(scope.read_line()), Ok(String::from("abc")));
    assert_eq!(ready(scope.read_line()), Ok(String::new()));
}

#[test]
fn zero_block_reads_then_fails_to_decode() {
    let mut scope = Scope::new();
    let mut reply = b"#800000010".to_vec();
    reply.extend_from_slice(&[0u8; 10]);
    reply.push(b'\n');
    scope.receive(&reply);
    assert_eq!(ready(scope.read_tmc()), Ok(vec![0u8; 10]));

    let mut scope = Scope::new();
    scope.receive(&reply);
    assert_eq!(ready(scope.grab_screen()).unwrap_err(), ScopeError::Decode);
    assert_eq!(scope.take_output(), b":DISPlay:DATA? ON,0,PNG\n".to_vec());
}

#[test]
fn capture_decodes_png() {
    let mut scope = Scope::new();
    assert!(matches!(scope.grab_screen(), Step::Pending));
    assert_eq!(scope.take_output(), b":DISPlay:DATA? ON,0,PNG\n".to_vec());
    let reply = framed(&PNG_3X2);
    scope.receive(&reply[..40]);
    assert!(matches!(scope.grab_screen(), Step::Pending));
    scope.receive(&reply[40..]);
    let bmp = ready(scope.grab_screen()).unwrap();
    assert_eq!(bmp.width(), 3);
    assert_eq!(bmp.height(), 2);
    assert_eq!(bmp.data(), &PNG_3X2_PIXELS[..]);
    assert!(scope.take_output().is_empty());
}

#[test]
fn capture_format_error_is_reported() {
    let mut scope = Scope::new();
    scope.receive(b"#X\n");
    assert_eq!(ready(scope.grab_screen()).unwrap_err(), ScopeError::Format);
}

#[test]
fn bitmap_from_png_bytes() {
    let bmp = Bitmap::new_from_png(PNG_3X2.to_vec()).unwrap();
    assert_eq!((bmp.width(), bmp.height()), (3, 2));
    assert_eq!(bmp.data().len(), 18);
    assert!(Bitmap::new_from_png(vec![1, 2, 3]).is_none());
}

#[test]
fn identity_query_trims_both_ends() {
    let mut scope = Scope::new();
    scope.receive(b" A\n\t B \x0b\x0c\r\n\xc2\xa0C\xe3\x80\x80\n");
    assert_eq!(ready(scope.info()), Ok(String::from("A")));
    assert_eq!(ready(scope.info()), Ok(String::from("B")));
    assert_eq!(ready(scope.info()), Ok(String::from("C")));
    assert_eq!(scope.take_output(), b":*IDN?\n:*IDN?\n:*IDN?\n".to_vec());
}

#[test]
fn identity_query_keeps_inner_spaces() {
    let mut scope = Scope::new();
    scope.receive(b"  RIGOL TECHNOLOGIES,DS1054Z  \n");
    assert_eq!(ready(scope.info()), Ok(String::from("RIGOL TECHNOLOGIES,DS1054Z")));
}

#[test]
fn identity_query_blank_reply() {
    let mut scope = Scope::new();
    scope.receive(b" \t\r\n");
    assert_eq!(ready(scope.info()), Ok(String::new()));
}

#[test]
fn format_numeric_arguments() {
    let args = [Argument::Number(0), Argument::Number(7), Argument::Number(1200), Argument::Number(u64::MAX)];
    assert_eq!(
        format_command(":TIM:SCAL", &args),
        b":TIM:SCAL 0,7,1200,18446744073709551615\n".to_vec()
    );
}

#[test]
fn bitmap_clone_keeps_pixels() {
    let bmp = Bitmap::new_from_png(PNG_3X2.to_vec()).unwrap();
    let copy = bmp.clone();
    assert_eq!((copy.width(), copy.height()), (3, 2));
    assert_eq!(copy.data(), &PNG_3X2_PIXELS[..]);
}
