use hyper_pattern_matching::shared_buffer::SharedBuffer;

#[test]
fn test_push_and_pop() {
    let buffer = SharedBuffer::new();
    let source = buffer.make_source();
    let mut sink = buffer.make_sink();

    source.push("hello");
    source.push("world");

    assert_eq!(sink.pop(), Some("hello"));
    assert_eq!(sink.pop(), Some("world"));
    assert_eq!(sink.pop(), None);
}

#[test]
fn test_shared_access() {
    let buffer = SharedBuffer::new();
    let source = buffer.make_source();
    let mut sink1 = buffer.make_sink();
    let mut sink2 = buffer.make_sink();

    source.push("data1");
    source.push("data2");

    assert_eq!(sink1.pop(), Some("data1"));
    assert_eq!(sink2.pop(), Some("data1"));
    assert_eq!(sink1.pop(), Some("data2"));
    assert_eq!(sink2.pop(), Some("data2"));
}

#[test]
fn test_read_line_trait() {
    let mut buffer = SharedBuffer::new();
    buffer.push("line1");
    buffer.push("line2");

    let mut output: String = "".to_string();
    assert_eq!(buffer.read_line(&mut output).unwrap(), 6);
    assert_eq!(&output, "line1\n");

    output.clear();
    assert_eq!(buffer.read_line(&mut output).unwrap(), 6);
    assert_eq!(&output, "line2\n");

    assert_eq!(buffer.read_line(&mut output).unwrap(), 0);
}

#[test]
fn test_buf_read_trait() {
    let mut buffer = SharedBuffer::new();
    buffer.push("line1");
    buffer.push("line2");

    assert_eq!(buffer.fill_buf().unwrap(), b"line1\n");
    buffer.consume(6);

    assert_eq!(buffer.fill_buf().unwrap(), b"line2\n");
    buffer.consume(6);

    assert_eq!(buffer.fill_buf().unwrap(), b"");
}

#[test]
fn partial_consume_then_read_line() {
    let mut buffer = SharedBuffer::new();
    buffer.push("abc");
    assert_eq!(buffer.fill_buf().unwrap(), b"abc\n");
    buffer.consume(1);
    let mut out = String::new();
    assert_eq!(buffer.read_line(&mut out).unwrap(), 3);
    assert_eq!(out, "bc\n");
}
