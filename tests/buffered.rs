use linetime::buffered::LineWriteDecorator;

/// Writes `input` through `decorator`, each complete line to `inner` whole, and
/// reports how many bytes were taken.
fn write_through(decorator: &mut LineWriteDecorator, inner: &mut Vec<u8>, input: &[u8]) -> usize {
    for line in decorator.write(input) {
        inner.extend_from_slice(&line);
    }
    input.len()
}

#[test]
fn decorator_does_not_write_to_inner_without_newline() {
    let mut inner = Vec::<u8>::new();
    let mut decorator = LineWriteDecorator::new();
    assert_eq!(5, write_through(&mut decorator, &mut inner, b"Hello"));
    assert!(inner.is_empty());
}

#[test]
fn decorator_writes_to_inner_with_newline() {
    let mut inner = Vec::<u8>::new();
    let mut decorator = LineWriteDecorator::new();
    assert_eq!(6, write_through(&mut decorator, &mut inner, b"Hello\n"));
    assert_eq!(b"Hello\n", inner.as_slice());
}

#[test]
fn decorator_writes_to_inner_at_flush() {
    let mut inner = Vec::<u8>::new();
    let mut decorator = LineWriteDecorator::new();
    assert_eq!(5, write_through(&mut decorator, &mut inner, b"Hello"));
    inner.extend_from_slice(decorator.held());
    decorator.flush();
    assert_eq!(b"Hello", inner.as_slice());
}

#[test]
fn several_lines_come_out_one_by_one() {
    let mut decorator = LineWriteDecorator::new();
    assert!(decorator.write(b"ab").is_empty());
    let lines = decorator.write(b"c\nd\n\nef");
    assert_eq!(vec![b"abc\n".to_vec(), b"d\n".to_vec(), b"\n".to_vec()], lines);
    assert_eq!(b"ef", decorator.held());
    assert_eq!(b"ef", decorator.held());
    decorator.flush();
    assert!(decorator.held().is_empty());
}

#[test]
fn lines_of_two_writers_never_interleave() {
    // The two writers take turns byte by byte, the worst order two threads could
    // run in; what reaches the shared destination is still whole lines.
    let mut sink = Vec::<u8>::new();
    let mut first = LineWriteDecorator::new();
    let mut second = LineWriteDecorator::new();
    let (a, b) = (b"hello\n", b"world\n");
    for i in 0..a.len() {
        for line in first.write(&a[i..i + 1]) {
            sink.extend_from_slice(&line);
        }
        for line in second.write(&b[i..i + 1]) {
            sink.extend_from_slice(&line);
        }
    }
    assert_eq!(b"hello\nworld\n".to_vec(), sink);
}
