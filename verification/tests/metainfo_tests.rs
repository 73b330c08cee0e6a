use bittorrent_tracker::metainfo::InfoInner;
use bittorrent_tracker::metainfo::MetaInfo;
use bittorrent_tracker::metainfo::MetaInfoFile;

#[test]
fn basic_test() {
    let metainfo_single = MetaInfo {
        announce: "https://some_url".to_string(),
        info: InfoInner::SingleFile {
            name: "filename".to_string(),
            piece_length: 10,
            pieces: "abc".to_string(),
            length: 100,
            md5sum: None,
        },
    };
    assert_eq!(
        String::from_utf8(metainfo_single.bencode()).unwrap(),
        "d8:announce16:https://some_url4:infod6:lengthi100e4:name8:filename12:piece lengthi10e6:pieces3:abcee"
    );
}

#[test]
fn multiple_file_test() {
    let metainfo = MetaInfo {
        announce: "https://some_url".to_string(),
        info: InfoInner::MultipleFile {
            name: "dir".to_string(),
            piece_length: 7,
            pieces: "xyz".to_string(),
            files: vec![MetaInfoFile {
                length: 3,
                path: vec!["sub".to_string(), "file".to_string()],
                md5sum: None,
            }],
        },
    };
    assert_eq!(
        String::from_utf8(metainfo.bencode()).unwrap(),
        "d8:announce16:https://some_url4:infod5:filesld6:lengthi3e4:pathl3:sub4:fileeee4:name3:dir12:piece lengthi7e6:pieces3:xyzee"
    );
}
