use hyper_pattern_matching::multi_stream_reader::MultiStreamReader;
use hyper_pattern_matching::shared_buffer::SharedBuffer;
use std::io;

#[test]
fn test_dynamic_buffer() -> io::Result<()> {
    let buffer1 = SharedBuffer::new();
    let buffer2 = SharedBuffer::new();

    buffer1.push("dynamic line1");
    buffer1.push("dynamic line2");
    buffer2.push("buffer lineA");
    buffer2.push("buffer lineB");

    let sources = vec![buffer1, buffer2];
    let mut multi_reader = MultiStreamReader::new(sources);

    assert_eq!(multi_reader.read_line(0)?, "dynamic line1\n");
    assert_eq!(multi_reader.read_line(0)?, "dynamic line2\n");
    assert_eq!(multi_reader.read_line(1)?, "buffer lineA\n");
    assert_eq!(multi_reader.read_line(1)?, "buffer lineB\n");

    Ok(())
}

#[test]
fn test_is_available_with_dynamic_buffer() -> io::Result<()> {
    let buffer1 = SharedBuffer::new();
    let buffer2 = SharedBuffer::new();

    buffer1.push("dynamic line1");
    buffer2.push("buffer lineA");

    let buffer_source1 = buffer1.make_source();
    let buffer_source2 = buffer2.make_source();

    let sources = vec![buffer1.clone(), buffer2.clone()];
    let mut multi_reader = MultiStreamReader::new(sources);

    assert!(multi_reader.is_available(0).is_ok_and(|x| x));
    assert_eq!(multi_reader.read_line(0)?, "dynamic line1\n");
    assert!(multi_reader.is_available(0).is_ok_and(|x| !x));

    assert!(multi_reader.is_available(1).is_ok_and(|x| x));
    assert_eq!(multi_reader.read_line(1)?, "buffer lineA\n");
    assert!(multi_reader.is_available(1).is_ok_and(|x| !x));

    buffer_source1.push("dynamic line2");
    assert!(multi_reader.is_available(0).is_ok_and(|x| x));
    assert_eq!(multi_reader.read_line(0)?, "dynamic line2\n");

    buffer_source2.push("buffer lineB");
    assert!(multi_reader.is_available(1).is_ok_and(|x| x));
    assert_eq!(multi_reader.read_line(1)?, "buffer lineB\n");

    Ok(())
}

#[test]
fn invalid_index_is_an_error() {
    let buffer = SharedBuffer::new();
    buffer.push("x");
    let mut reader = MultiStreamReader::new(vec![buffer]);
    assert_eq!(reader.size(), 1);
    assert!(reader.read_line(1).is_err());
    assert!(reader.is_available(1).is_err());
}
