use tar_minimal::builder::{member_name, name_from_path, name_in_archive, FinishStep};
use tar_minimal::Builder;

#[test]
fn finish_writes_trailer_once() {
    let mut b = Builder::new(Vec::<u8>::new());
    assert!(!b.is_finished());
    match b.finish() {
        FinishStep::WriteTrailer(bytes) => {
            assert_eq!(bytes.len(), 1024);
            assert!(bytes.iter().all(|&x| x == 0));
            b.writer_mut().extend_from_slice(&bytes);
            b.mark_finished();
        }
        FinishStep::AlreadyFinished => panic!("not finished yet"),
    }
    assert!(b.is_finished());
    assert_eq!(b.finish(), FinishStep::AlreadyFinished);
    assert_eq!(b.writer_mut().len(), 1024);
}

#[test]
fn name_from_path_strips_one_slash() {
    assert_eq!(name_from_path(b"/tmp/data.txt"), b"tmp/data.txt");
    assert_eq!(name_from_path(b"//tmp"), b"/tmp");
    assert_eq!(name_from_path(b"rel/x"), b"rel/x");
    assert_eq!(name_from_path(b""), b"");
}

#[test]
fn name_in_archive_strips_all_slashes() {
    assert_eq!(name_in_archive(b"///a/b"), b"a/b");
    assert_eq!(name_in_archive(b"test_env/test_file.txt"), b"test_env/test_file.txt");
    assert_eq!(name_in_archive(b"///"), b"");
}

#[test]
fn member_name_joins_with_slash() {
    assert_eq!(member_name("source_folder", "file1.txt"), "source_folder/file1.txt");
    assert_eq!(member_name("source_folder/subdir", "file2.txt"), "source_folder/subdir/file2.txt");
    assert_eq!(member_name("", "x"), "/x");
}
