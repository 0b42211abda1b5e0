use memfs::error::FileSystemError;
use memfs::FileSystem;

#[test]
fn test_basic_operations() {
    let mut fs = FileSystem::new();

    fs.touch("/log.txt").unwrap();

    fs.write("/log.txt", 0, b"hello").unwrap();
    fs.write("/log.txt", 5, b" world").unwrap();

    let content = fs.read("/log.txt", 0, 11).unwrap();
    assert_eq!(content, b"hello world");
}

#[test]
fn test_read_beyond_file() {
    let mut fs = FileSystem::new();

    fs.touch("/test.txt").unwrap();
    fs.write("/test.txt", 0, b"hello").unwrap();

    let content = fs.read("/test.txt", 3, 10).unwrap();
    assert_eq!(content, b"lo");

    let content = fs.read("/test.txt", 10, 5).unwrap();
    assert_eq!(content, b"");
}

#[test]
fn test_write_with_gap() {
    let mut fs = FileSystem::new();

    fs.touch("/gap.txt").unwrap();

    fs.write("/gap.txt", 5, b"world").unwrap();

    let content = fs.read("/gap.txt", 0, 10).unwrap();
    assert_eq!(content, b"\0\0\0\0\0world");
}

#[test]
fn test_write_with_gap_2() {
    let mut fs = FileSystem::new();

    fs.touch("/gap2.txt").unwrap();

    fs.write("/gap2.txt", 0, b"hello").unwrap();
    fs.write("/gap2.txt", 10, b"world").unwrap();

    let content = fs.read("/gap2.txt", 0, 15).unwrap();
    assert_eq!(content, b"hello\0\0\0\0\0world");
}

#[test]
fn test_override() {
    let mut fs = FileSystem::new();

    fs.touch("/override.txt").unwrap();

    fs.write("/override.txt", 0, b"hello dlrow").unwrap();

    fs.write("/override.txt", 6, b"world").unwrap();

    let content = fs.read("/override.txt", 0, 11).unwrap();
    assert_eq!(content, b"hello world");
}

#[test]
fn test_nonexistent_file() {
    let fs = FileSystem::new();

    let content = fs.read("/nonexistent.txt", 0, 10);
    assert!(matches!(content, Err(FileSystemError::FileNotFound(_))));
}

#[test]
fn test_write_without_touch() {
    let mut fs = FileSystem::new();

    fs.write("/auto.txt", 0, b"created").unwrap();

    let content = fs.read("/auto.txt", 0, 7).unwrap();
    assert_eq!(content, b"created");
}

#[test]
fn test_multiple_files() {
    let mut fs = FileSystem::new();

    fs.touch("/file1.txt").unwrap();
    fs.touch("/file2.txt").unwrap();

    fs.write("/file1.txt", 0, b"first").unwrap();
    fs.write("/file2.txt", 0, b"second").unwrap();

    let content1 = fs.read("/file1.txt", 0, 5).unwrap();
    let content2 = fs.read("/file2.txt", 0, 6).unwrap();

    assert_eq!(content1, b"first");
    assert_eq!(content2, b"second");
}

#[test]
fn test_error_handling() {
    let mut fs = FileSystem::new();

    let result = fs.touch("");
    assert!(matches!(result, Err(FileSystemError::InvalidPath(_))));

    let result = fs.write("", 0, b"test");
    assert!(matches!(result, Err(FileSystemError::InvalidPath(_))));

    let result = fs.read("", 0, 5);
    assert!(matches!(result, Err(FileSystemError::InvalidPath(_))));

    let result = fs.write("/test.txt", usize::MAX, b"data");
    assert!(matches!(result, Err(FileSystemError::WriteError(_))));

    let result = fs.read("/test.txt", usize::MAX, 10);
    assert!(matches!(result, Err(FileSystemError::ReadError(_))));
}

#[test]
fn test_write_zero_length() {
    let mut fs = FileSystem::new();

    fs.write("/empty.txt", 0, b"").unwrap();
    let content = fs.read("/empty.txt", 0, 5).unwrap();
    assert_eq!(content, b"");
}

#[test]
fn test_write_zero_length_at_offset() {
    let mut fs = FileSystem::new();

    // A zero-length write creates the entry but leaves its contents
    // untouched, so the file stays empty and the read returns nothing.
    fs.write("/empty.txt", 10, b"").unwrap();
    let content = fs.read("/empty.txt", 0, 5).unwrap();
    assert_eq!(content, b"");
}

#[test]
fn test_read_zero_length() {
    let mut fs = FileSystem::new();

    fs.write("/test.txt", 0, b"hello").unwrap();
    let content = fs.read("/test.txt", 0, 0).unwrap();
    assert_eq!(content, b"");
}

#[test]
fn test_write_empty_data_at_offset() {
    let mut fs = FileSystem::new();

    // As above: no bytes are placed and no gap is filled, so the file
    // exists but is empty.
    fs.write("/empty_offset.txt", 5, b"").unwrap();

    let content = fs.read("/empty_offset.txt", 0, 10).unwrap();
    assert_eq!(content, b"");
}

#[test]
fn test_concurrent_reads_same_file() {
    let mut fs = FileSystem::new();
    fs.write("/shared.txt", 0, b"hello world from rust").unwrap();

    let result1 = fs.read("/shared.txt", 0, 5);
    let result2 = fs.read("/shared.txt", 6, 5);
    let result3 = fs.read("/shared.txt", 12, 9);

    assert_eq!(result1.unwrap(), b"hello");
    assert_eq!(result2.unwrap(), b"world");
    assert_eq!(result3.unwrap(), b"from rust");
}

#[test]
fn test_concurrent_writes_different_files() {
    let mut fs = FileSystem::new();

    let result1 = fs.write("/file1.txt", 0, b"content1");
    let result2 = fs.write("/file2.txt", 0, b"content2");
    let result3 = fs.write("/file3.txt", 0, b"content3");

    result1.unwrap();
    result2.unwrap();
    result3.unwrap();

    assert_eq!(fs.read("/file1.txt", 0, 8).unwrap(), b"content1");
    assert_eq!(fs.read("/file2.txt", 0, 8).unwrap(), b"content2");
    assert_eq!(fs.read("/file3.txt", 0, 8).unwrap(), b"content3");
}

#[test]
fn test_concurrent_writes_same_file_different_offsets() {
    let mut fs = FileSystem::new();
    fs.touch("/concurrent.txt").unwrap();

    let result1 = fs.write("/concurrent.txt", 0, b"AAA");
    let result2 = fs.write("/concurrent.txt", 5, b"BBB");
    let result3 = fs.write("/concurrent.txt", 10, b"CCC");

    result1.unwrap();
    result2.unwrap();
    result3.unwrap();

    let content = fs.read("/concurrent.txt", 0, 13).unwrap();
    assert_eq!(content, b"AAA\0\0BBB\0\0CCC");
}

#[test]
fn test_concurrent_read_write() {
    let mut fs = FileSystem::new();
    fs.write("/test.txt", 0, b"initial content").unwrap();

    let before = fs.read("/test.txt", 0, 100).unwrap();
    fs.write("/test.txt", 8, b"modified").unwrap();
    let after = fs.read("/test.txt", 0, 100).unwrap();

    let results = vec![before, after];
    assert!(!results.is_empty());
    for result in results {
        assert!(result == b"initial content" || result == b"initial modified");
    }
}
