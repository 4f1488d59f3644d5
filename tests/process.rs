use loe::{process, Config, Encoding, ParseError, Processor, TransformMode, BUFFER_SIZE};

const LF_BYTE: u8 = b'\n';
const CR_BYTE: u8 = b'\r';

fn run(input: &[u8], config: Config) -> Result<Vec<u8>, ParseError> {
    let mut output = Vec::new();
    process(input, &mut output, config).map(|_| output)
}

fn filter(bytes: &[u8]) -> Vec<u8> {
    bytes
        .iter()
        .copied()
        .filter(|b| *b != LF_BYTE && *b != CR_BYTE)
        .collect()
}

fn invalid_encoding_name(result: Result<Vec<u8>, ParseError>) -> String {
    match result {
        Err(ParseError::InvalidEncoding(name)) => name,
        other => panic!("expected an encoding error, got {:?}", other),
    }
}

#[test]
fn basic() {
    let input = "hello\r\nworld!\r\n";
    let expected = "hello\nworld!\n";
    let mut output = Vec::new();

    assert!(process(input.as_bytes(), &mut output, Config::default()).is_ok());
    let output = String::from_utf8(output);
    assert!(output.is_ok());
    let output = output.unwrap();
    assert_eq!(output, expected);
}

#[test]
fn ascii_to_crlf() {
    let config = Config::default()
        .encoding(Encoding::Ascii)
        .transform(TransformMode::Crlf);
    assert_eq!(run(b"hello\nworld!\n", config).unwrap(), b"hello\r\nworld!\r\n");
}

#[test]
fn non_ascii_input_is_refused() {
    let config = Config::default().encoding(Encoding::Ascii);
    let result = run("ahoj\r\nsvěte!\r\n".as_bytes(), config);
    assert_eq!(invalid_encoding_name(result), "Ascii");
}

#[test]
fn invalid_utf8_continuation_is_refused() {
    let config = Config::default()
        .encoding(Encoding::Utf8)
        .transform(TransformMode::Lf);
    let result = run(&[0xC0, 0x7F], config);
    assert_eq!(invalid_encoding_name(result), "UTF-8");
}

#[test]
fn valid_utf8_is_accepted() {
    let config = Config::new().encoding(Encoding::Utf8).transform(TransformMode::Crlf);
    assert_eq!(
        run("ahoj\nsvěte!\r\n".as_bytes(), config).unwrap(),
        "ahoj\r\nsvěte!\r\n".as_bytes()
    );
}

#[test]
fn empty_input_gives_empty_output() {
    assert_eq!(run(b"", Config::new()).unwrap(), b"");
    let config = Config::new().encoding(Encoding::Utf8).transform(TransformMode::Crlf);
    assert_eq!(run(b"", config).unwrap(), b"");
}

#[test]
fn output_is_appended() {
    let mut output = b"head:".to_vec();
    process(b"a\r\nb", &mut output, Config::new()).unwrap();
    assert_eq!(output, b"head:a\nb");
}

#[test]
fn lf_output_has_no_cr() {
    let input = b"a\r\rb\n\r\nc\r";
    let output = run(input, Config::new().transform(TransformMode::Lf)).unwrap();
    assert!(!output.contains(&CR_BYTE));
    assert_eq!(output, b"ab\n\nc");
}

#[test]
fn crlf_output_has_no_lone_lf() {
    let input = b"a\n\n\r\nb\rc\n";
    let output = run(input, Config::new().transform(TransformMode::Crlf)).unwrap();
    for (i, b) in output.iter().enumerate() {
        if *b == LF_BYTE {
            assert!(i > 0 && output[i - 1] == CR_BYTE);
        }
    }
    assert_eq!(output, b"a\r\n\r\n\r\nbc\r\n");
}

#[test]
fn lf_after_crlf_has_no_cr() {
    let input = b"x\ry\r\n\nz";
    let crlf = run(input, Config::new().transform(TransformMode::Crlf)).unwrap();
    let lf = run(&crlf, Config::new().transform(TransformMode::Lf)).unwrap();
    assert!(!lf.contains(&CR_BYTE));
    assert_eq!(lf, run(input, Config::new()).unwrap());
}

#[test]
fn round_trip_without_cr() {
    let input = "line one\nline two\n\nčtyři\n".as_bytes();
    let crlf = run(input, Config::new().transform(TransformMode::Crlf)).unwrap();
    let back = run(&crlf, Config::new().transform(TransformMode::Lf)).unwrap();
    assert_eq!(back, input);
}

#[test]
fn content_other_than_line_endings_is_kept() {
    let input = "a\r\nb\rc\nd ě\r\n\n".as_bytes();
    for mode in [TransformMode::Lf, TransformMode::Crlf] {
        let output = run(input, Config::new().transform(mode)).unwrap();
        assert_eq!(filter(&output), filter(input));
    }
}

#[test]
fn crlf_split_across_chunks() {
    let mut input = vec![b'a'; BUFFER_SIZE - 1];
    input.extend_from_slice(b"\r\nb\n");
    let lf = run(&input, Config::new()).unwrap();
    let mut expected = vec![b'a'; BUFFER_SIZE - 1];
    expected.extend_from_slice(b"\nb\n");
    assert_eq!(lf, expected);

    let crlf = run(&input, Config::new().transform(TransformMode::Crlf)).unwrap();
    let mut expected = vec![b'a'; BUFFER_SIZE - 1];
    expected.extend_from_slice(b"\r\nb\r\n");
    assert_eq!(crlf, expected);
}

#[test]
fn utf8_sequence_split_across_chunks() {
    let mut input = vec![b'a'; BUFFER_SIZE - 1];
    input.extend_from_slice("ě\n".as_bytes());
    let config = Config::new().encoding(Encoding::Utf8);
    assert_eq!(run(&input, config).unwrap(), input);
}

#[test]
fn error_keeps_the_chunks_before_it() {
    let mut input = vec![b'\n'; BUFFER_SIZE];
    input.extend_from_slice(b"ok\n\xff\n");
    let mut output = Vec::new();
    let config = Config::new()
        .encoding(Encoding::Ascii)
        .transform(TransformMode::Crlf);
    let result = process(&input, &mut output, config);
    assert!(matches!(result, Err(ParseError::InvalidEncoding(ref name)) if name == "Ascii"));
    assert_eq!(output.len(), 2 * BUFFER_SIZE);
    assert!(output.chunks(2).all(|pair| pair == b"\r\n"));
}

#[test]
fn error_in_first_chunk_writes_nothing() {
    let mut output = Vec::new();
    let config = Config::new().encoding(Encoding::Utf8);
    assert!(process(b"fine\n\x80", &mut output, config).is_err());
    assert!(output.is_empty());
}

#[test]
fn processor_carries_state_between_chunks() {
    let config = Config::new().encoding(Encoding::Utf8).transform(TransformMode::Crlf);
    let mut processor = Processor::new(config);
    let mut write_buffer = vec![0u8; 8];
    let first = [b'\n', 0xc4];
    let n = processor.process_chunk(&first, &mut write_buffer).unwrap();
    assert_eq!(&write_buffer[..n], b"\r\n\xc4");
    let second = [0x9b, b'\r'];
    let n = processor.process_chunk(&second, &mut write_buffer).unwrap();
    assert_eq!(&write_buffer[..n], b"\x9b");
    let third = [0x9b];
    assert!(matches!(
        processor.process_chunk(&third, &mut write_buffer),
        Err(ParseError::InvalidEncoding(ref name)) if name == "UTF-8"
    ));
}
