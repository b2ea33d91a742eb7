use file_server::codec::{
    chars_to_string, decode_command, decode_response_bytes, decode_response_directory,
    encode_command, encode_response_bytes, encode_response_directory, str_to_chars,
};
use file_server::command::{Command, Question, Response};
use file_server::folder_info::{Directory, DirContent, FileInfo, FolderInfo, SymlinkInfo};
use file_server::protocol::{download_reply, folder_reply, plan_line, Step};

#[test]
fn command_round_trip_folder_info() {
    let c = Command { id: 7, path: String::from("./a"), ask: Question::FolderInfo };
    let line = encode_command(&c);
    assert_eq!(line, "{\"id\":7,\"path\":\"./a\",\"ask\":\"FolderInfo\"}");
    let back = decode_command(&line).expect("canonical line must decode");
    assert_eq!(back.id, 7);
    assert_eq!(back.path, "./a");
    assert_eq!(back.ask, Question::FolderInfo);
}

#[test]
fn command_round_trip_download() {
    let c = Command { id: 42, path: String::from("data/big.bin"), ask: Question::Download(3) };
    let line = encode_command(&c);
    assert_eq!(line, "{\"id\":42,\"path\":\"data/big.bin\",\"ask\":{\"Download\":3}}");
    let back = decode_command(&line).expect("canonical line must decode");
    assert_eq!(back.id, 42);
    assert_eq!(back.path, "data/big.bin");
    assert_eq!(back.ask, Question::Download(3));
}

#[test]
fn command_round_trip_escaped_path() {
    let path = String::from("a\"b\\c\nd\te\rf");
    let c = Command { id: 0, path: path.clone(), ask: Question::FolderInfo };
    let line = encode_command(&c);
    // the framing is line-based: the escaper must keep the line free of newlines
    assert!(!line.contains('\n'));
    assert!(!line.contains('\r'));
    let back = decode_command(&line).expect("canonical line must decode");
    assert_eq!(back.path, path);
}

#[test]
fn command_round_trip_control_character_path() {
    // control characters are written as \u00XX, so the line is valid JSON
    let path = String::from("a\u{1}b\u{1f}c");
    let c = Command { id: 3, path: path.clone(), ask: Question::FolderInfo };
    let line = encode_command(&c);
    assert_eq!(line, "{\"id\":3,\"path\":\"a\\u0001b\\u001fc\",\"ask\":\"FolderInfo\"}");
    let back = decode_command(&line).expect("canonical line must decode");
    assert_eq!(back.path, path);
}

#[test]
fn command_decode_accepts_hex_escapes() {
    // \u00XX spellings of the named escapes decode to the same character
    let line = "{\"id\":1,\"path\":\"a\\u000ab\\u0041\",\"ask\":\"FolderInfo\"}";
    let back = decode_command(line).expect("hex escapes must decode");
    assert_eq!(back.path, "a\nbA");
    // a dangling or non-hex escape is rejected
    assert!(decode_command("{\"id\":1,\"path\":\"\\u00\",\"ask\":\"FolderInfo\"}").is_none());
    assert!(decode_command("{\"id\":1,\"path\":\"\\u00zz\",\"ask\":\"FolderInfo\"}").is_none());
}

#[test]
fn command_decode_rejects_garbage() {
    assert!(decode_command("hello there").is_none());
    assert!(decode_command("").is_none());
    assert!(decode_command("{\"id\":}").is_none());
    assert!(decode_command("{\"id\":1,\"path\":\"a\",\"ask\":\"Nonsense\"}").is_none());
}

#[test]
fn command_decode_rejects_trailing_text() {
    let c = Command { id: 1, path: String::from("a"), ask: Question::FolderInfo };
    let mut line = encode_command(&c);
    line.push('x');
    assert!(decode_command(&line).is_none());
}

#[test]
fn command_decode_rejects_oversized_id() {
    // more digits than any machine word holds
    let line = "{\"id\":99999999999999999999999999999999999,\"path\":\"a\",\"ask\":\"FolderInfo\"}";
    assert!(decode_command(line).is_none());
}

#[test]
fn response_directory_round_trip_all_variants() {
    let childs = vec![
        DirContent::Folder(FolderInfo::new(String::from("/srv/d"))),
        DirContent::File(FileInfo::new(String::from("/srv/f"))),
        DirContent::Symlink(SymlinkInfo::new(String::from("/srv/s"))),
    ];
    let dir = Directory { path: String::from("/srv"), childs };
    let resp = folder_reply(9, dir);
    let line = encode_response_directory(&resp);
    assert_eq!(
        line,
        "{\"to_id\":9,\"response\":{\"path\":\"/srv\",\"childs\":[\
         {\"Folder\":{\"name\":\"/srv/d\"}},\
         {\"File\":{\"name\":\"/srv/f\"}},\
         {\"Symlink\":{\"name\":\"/srv/s\"}}]}}"
    );
    let back = decode_response_directory(&line).expect("canonical line must decode");
    assert_eq!(back.to_id, 9);
    assert_eq!(back.response.path, "/srv");
    assert_eq!(back.response.childs.len(), 3);
    match &back.response.childs[0] {
        DirContent::Folder(f) => assert_eq!(f.name(), "/srv/d"),
        _ => panic!("first child must be a folder"),
    }
    match &back.response.childs[1] {
        DirContent::File(f) => assert_eq!(f.name(), "/srv/f"),
        _ => panic!("second child must be a file"),
    }
    match &back.response.childs[2] {
        DirContent::Symlink(l) => assert_eq!(l.name(), "/srv/s"),
        _ => panic!("third child must be a symlink"),
    }
}

#[test]
fn response_directory_round_trip_empty() {
    let dir = Directory { path: String::from("."), childs: Vec::new() };
    let resp = folder_reply(0, dir);
    let line = encode_response_directory(&resp);
    assert_eq!(line, "{\"to_id\":0,\"response\":{\"path\":\".\",\"childs\":[]}}");
    let back = decode_response_directory(&line).expect("canonical line must decode");
    assert_eq!(back.to_id, 0);
    assert!(back.response.childs.is_empty());
}

#[test]
fn response_bytes_round_trip() {
    let resp = download_reply(1, vec![0u8, 255, 10, 7]);
    let line = encode_response_bytes(&resp);
    assert_eq!(line, "{\"to_id\":1,\"response\":[0,255,10,7]}");
    let back = decode_response_bytes(&line).expect("canonical line must decode");
    assert_eq!(back.to_id, 1);
    assert_eq!(back.response, vec![0u8, 255, 10, 7]);
}

#[test]
fn response_bytes_round_trip_empty() {
    let resp = download_reply(12, Vec::new());
    let line = encode_response_bytes(&resp);
    assert_eq!(line, "{\"to_id\":12,\"response\":[]}");
    let back = decode_response_bytes(&line).expect("canonical line must decode");
    assert_eq!(back.to_id, 12);
    assert!(back.response.is_empty());
}

#[test]
fn response_bytes_decode_rejects_oversized_value() {
    assert!(decode_response_bytes("{\"to_id\":1,\"response\":[256]}").is_none());
}

#[test]
fn dispatch_routes_each_question() {
    let folder = encode_command(&Command {
        id: 5,
        path: String::from("docs"),
        ask: Question::FolderInfo,
    });
    match plan_line(&folder) {
        Step::FolderQuery { id, path } => {
            assert_eq!(id, 5);
            assert_eq!(path, "docs");
        }
        _ => panic!("a folder question must dispatch to the lister"),
    }
    let download = encode_command(&Command {
        id: 6,
        path: String::from("big.iso"),
        ask: Question::Download(2),
    });
    match plan_line(&download) {
        Step::DownloadQuery { id, path, part } => {
            assert_eq!(id, 6);
            assert_eq!(path, "big.iso");
            assert_eq!(part, 2);
        }
        _ => panic!("a download question must dispatch to the chunk reader"),
    }
}

#[test]
fn malformed_line_closes_connection() {
    assert!(matches!(plan_line("this is not a command"), Step::Close));
    assert!(matches!(plan_line(""), Step::Close));
    assert!(matches!(plan_line("{\"id\":1,\"path\":\"a\""), Step::Close));
}

#[test]
fn order_preservation_over_one_connection() {
    // requests with ids 1, 2, 3 in order: replies echo 1, 2, 3 in order
    let mut echoed: Vec<usize> = Vec::new();
    for id in [1usize, 2, 3] {
        let line = encode_command(&Command {
            id,
            path: String::from("x"),
            ask: Question::Download(0),
        });
        match plan_line(&line) {
            Step::DownloadQuery { id, .. } => {
                let reply = download_reply(id, vec![1, 2]);
                let encoded = encode_response_bytes(&reply);
                let back = decode_response_bytes(&encoded).expect("reply must decode");
                echoed.push(back.to_id);
            }
            _ => panic!("a download command must dispatch as one"),
        }
    }
    assert_eq!(echoed, vec![1, 2, 3]);
}

#[test]
fn chars_round_trip_keeps_unicode() {
    let s = "héllo wörld ✓";
    let chars = str_to_chars(s);
    assert_eq!(chars.len(), 13);
    assert_eq!(chars_to_string(&chars), s);
}
