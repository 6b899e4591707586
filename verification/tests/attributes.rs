use ntfs_reader::file_info::FileInfo;
use ntfs_reader::mft::{FileNameAttribute, Mft, NtfsAttribute, NtfsFile, Volume};

const ROOT: u64 = 0;

fn file_with_attributes(attributes: Vec<NtfsAttribute>) -> NtfsFile {
    NtfsFile {
        number: 42,
        sequence_value: 3,
        is_directory: false,
        file_name: Some(FileNameAttribute { name: String::from("a.txt"), parent: ROOT }),
        attributes,
    }
}

fn empty_table() -> Mft {
    Mft::new(Volume { path: String::from("C:\\") }, ROOT)
}

#[test]
fn identity_and_directory_flag_are_read() {
    let mut file = file_with_attributes(Vec::new());
    file.is_directory = true;
    let info = FileInfo::new(&empty_table(), &file);
    assert_eq!(info.file_id, (3u64 << 48) | 42);
    assert!(info.is_directory);
}

#[test]
fn missing_standard_information_leaves_timestamps_absent() {
    let info = FileInfo::new(&empty_table(), &file_with_attributes(Vec::new()));
    assert_eq!(info.created, None);
    assert_eq!(info.accessed, None);
    assert_eq!(info.modified, None);
    assert_eq!(info.size, 0);
}

#[test]
fn standard_information_timestamps_convert_to_unix_seconds() {
    let unix_epoch: u64 = 116_444_736_000_000_000;
    let attrs = vec![NtfsAttribute::StandardInformation {
        creation_time: unix_epoch,
        access_time: unix_epoch + 10_000_000,
        modification_time: unix_epoch + 20_000_000,
    }];
    let info = FileInfo::new(&empty_table(), &file_with_attributes(attrs));
    assert_eq!(info.created, Some(0));
    assert_eq!(info.accessed, Some(1));
    assert_eq!(info.modified, Some(2));
}

#[test]
fn later_standard_information_overwrites_earlier() {
    let unix_epoch: u64 = 116_444_736_000_000_000;
    let attrs = vec![
        NtfsAttribute::StandardInformation {
            creation_time: unix_epoch,
            access_time: unix_epoch,
            modification_time: unix_epoch,
        },
        NtfsAttribute::Other,
        NtfsAttribute::StandardInformation {
            creation_time: unix_epoch + 50_000_000,
            access_time: unix_epoch + 60_000_000,
            modification_time: unix_epoch + 70_000_000,
        },
    ];
    let info = FileInfo::new(&empty_table(), &file_with_attributes(attrs));
    assert_eq!(info.created, Some(5));
    assert_eq!(info.accessed, Some(6));
    assert_eq!(info.modified, Some(7));
}

#[test]
fn resident_data_attribute_sets_size() {
    let attrs = vec![NtfsAttribute::ResidentData { value_length: 123 }];
    let info = FileInfo::new(&empty_table(), &file_with_attributes(attrs));
    assert_eq!(info.size, 123);
}

#[test]
fn non_resident_data_attribute_sets_size() {
    let attrs = vec![NtfsAttribute::NonResidentData { data_size: 1 << 40 }];
    let info = FileInfo::new(&empty_table(), &file_with_attributes(attrs));
    assert_eq!(info.size, 1 << 40);
}

#[test]
fn last_data_attribute_wins() {
    let attrs = vec![
        NtfsAttribute::ResidentData { value_length: 10 },
        NtfsAttribute::NonResidentData { data_size: 999 },
    ];
    let info = FileInfo::new(&empty_table(), &file_with_attributes(attrs));
    assert_eq!(info.size, 999);
}
