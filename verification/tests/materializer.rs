use parcel_lib::filesystem::FileSystem;
use parcel_lib::filesystem::IoPhase;
use parcel_lib::filesystem::IoRequest;
use parcel_lib::protocol::Instruction;
use parcel_lib::protocol::TreePartition;

fn add(name: &str, partition: TreePartition) -> Instruction {
    Instruction::AddToTree { name: name.to_string(), partition }
}

fn bare() -> TreePartition {
    TreePartition { path: None, children: Vec::new() }
}

fn with_path(path: &str) -> TreePartition {
    TreePartition { path: Some(path.to_string()), children: Vec::new() }
}

#[test]
fn keys_sorted_regardless_of_arrival_order() {
    let mut fs = FileSystem::from_root("/out".to_string());
    assert!(fs.read_instruction(add("B", bare())).is_none());
    assert!(fs.read_instruction(add("A", bare())).is_none());
    assert!(fs.read_instruction(add("C", bare())).is_none());
    let d = fs.finish_instructions();
    assert_eq!(d.path, "/out/default.project.json");
    assert_eq!(
        d.contents,
        "{\n  \"$className\": \"DataModel\",\n  \"A\": {},\n  \"B\": {},\n  \"C\": {}\n}"
    );
    assert!(!fs.has_errors());
}

#[test]
fn duplicate_name_keeps_first_and_logs_once() {
    let mut fs = FileSystem::from_root("/out".to_string());
    fs.read_instruction(add("A", with_path("one")));
    fs.read_instruction(add("A", with_path("two")));
    let d = fs.finish_instructions();
    assert_eq!(
        d.contents,
        "{\n  \"$className\": \"DataModel\",\n  \"A\": {\n    \"path\": \"src/one\"\n  }\n}"
    );
    assert!(fs.has_errors());
    assert_eq!(fs.get_errors().len(), 1);
    assert_eq!(fs.get_errors()[0], "Duplicate item in tree (skipping): A");
}

#[test]
fn paths_prefixed_one_level_deep() {
    let grandchild = with_path("deep");
    let child = TreePartition {
        path: Some("bar".to_string()),
        children: vec![("Deep".to_string(), grandchild)],
    };
    let partition = TreePartition {
        path: Some("foo".to_string()),
        children: vec![("Kid".to_string(), child)],
    };
    let mut fs = FileSystem::from_root("/out".to_string());
    fs.read_instruction(add("Tree", partition));
    let d = fs.finish_instructions();
    let expected = "{\n  \"$className\": \"DataModel\",\n  \"Tree\": {\n    \"path\": \"src/foo\",\n    \"Kid\": {\n      \"path\": \"src/bar\",\n      \"Deep\": {\n        \"path\": \"deep\"\n      }\n    }\n  }\n}";
    assert_eq!(d.contents, expected);
    assert!(!fs.has_errors());
}

#[test]
fn create_file_requests_write_under_source() {
    let mut fs = FileSystem::from_root("/out".to_string());
    let r = fs.read_instruction(Instruction::CreateFile {
        filename: "x.txt".to_string(),
        contents: b"hello".to_vec(),
    });
    match r {
        Some(IoRequest::WriteFile { path, contents }) => {
            assert_eq!(path, "/out/src/x.txt");
            assert_eq!(contents, b"hello".to_vec());
        }
        _ => panic!("expected a file write request"),
    }
    let r2 = fs.read_instruction(Instruction::CreateFile {
        filename: "x.txt".to_string(),
        contents: b"bye".to_vec(),
    });
    match r2 {
        Some(IoRequest::WriteFile { path, contents }) => {
            assert_eq!(path, "/out/src/x.txt");
            assert_eq!(contents, b"bye".to_vec());
        }
        _ => panic!("expected a file write request"),
    }
    assert!(!fs.has_errors());
}

#[test]
fn create_folder_requests_are_idempotent() {
    let mut fs = FileSystem::from_root("/out".to_string());
    let r = fs.read_instruction(Instruction::CreateFolder { folder: "a/b/c".to_string() });
    let r2 = fs.read_instruction(Instruction::CreateFolder { folder: "a/b/c".to_string() });
    for req in [r, r2] {
        match req {
            Some(IoRequest::CreateDirAll { path }) => assert_eq!(path, "/out/src/a/b/c"),
            _ => panic!("expected a folder request"),
        }
    }
    assert!(!fs.has_errors());
}

#[test]
fn failures_logged_once_each_in_order() {
    let mut fs = FileSystem::from_root("/out".to_string());
    fs.read_instruction(Instruction::CreateFile {
        filename: "f1".to_string(),
        contents: Vec::new(),
    });
    fs.report_file_failure(&"f1".to_string(), IoPhase::Create, &"denied".to_string());
    fs.read_instruction(Instruction::CreateFile {
        filename: "f2".to_string(),
        contents: Vec::new(),
    });
    fs.report_file_failure(&"f2".to_string(), IoPhase::Write, &"device full".to_string());
    fs.read_instruction(Instruction::CreateFolder { folder: "d1".to_string() });
    fs.report_folder_failure(&"d1".to_string(), &"denied".to_string());
    fs.finish_instructions();
    fs.report_descriptor_failure(IoPhase::Create, &"denied".to_string());
    assert!(fs.has_errors());
    let errors = fs.get_errors();
    assert_eq!(errors.len(), 4);
    assert_eq!(errors[0], "Failed to create file f1: denied");
    assert_eq!(errors[1], "Failed to write to file f2: device full");
    assert_eq!(errors[2], "Failed to create folder d1: denied");
    assert_eq!(errors[3], "Failed to create project file: denied");
}

#[test]
fn descriptor_write_failure_message() {
    let mut fs = FileSystem::from_root("/out".to_string());
    fs.report_descriptor_failure(IoPhase::Write, &"short write".to_string());
    assert_eq!(fs.get_errors()[0], "Failed to write project file: short write");
}

#[test]
fn empty_stream_still_produces_descriptor() {
    let fs = FileSystem::from_root("/out".to_string());
    let d = fs.finish_instructions();
    assert_eq!(d.path, "/out/default.project.json");
    assert_eq!(d.contents, "{\n  \"$className\": \"DataModel\"\n}");
}

#[test]
fn setup_request_names_source_directory() {
    let fs = FileSystem::from_root("/out".to_string());
    match fs.setup_request() {
        IoRequest::CreateDirAll { path } => assert_eq!(path, "/out/src"),
        _ => panic!("expected a folder request"),
    }
}

#[test]
fn branch_names_escaped_in_descriptor() {
    let mut fs = FileSystem::from_root("/out".to_string());
    fs.read_instruction(add("a\u{1}b", bare()));
    fs.read_instruction(add("q\"\\\n", bare()));
    let d = fs.finish_instructions();
    assert_eq!(
        d.contents,
        "{\n  \"$className\": \"DataModel\",\n  \"a\\u0001b\": {},\n  \"q\\\"\\\\\\n\": {}\n}"
    );
}

#[test]
fn metadata_only_branch_has_no_path_entry() {
    let child = bare();
    let partition = TreePartition { path: None, children: vec![("Kid".to_string(), child)] };
    let mut fs = FileSystem::from_root("/out".to_string());
    fs.read_instruction(add("Meta", partition));
    let d = fs.finish_instructions();
    assert_eq!(
        d.contents,
        "{\n  \"$className\": \"DataModel\",\n  \"Meta\": {\n    \"Kid\": {}\n  }\n}"
    );
}

#[test]
fn child_paths_prefixed_without_own_path() {
    let child = with_path("kid");
    let partition = TreePartition { path: None, children: vec![("Kid".to_string(), child)] };
    let mut fs = FileSystem::from_root("/out".to_string());
    fs.read_instruction(add("Meta", partition));
    let d = fs.finish_instructions();
    let expected = "{\n  \"$className\": \"DataModel\",\n  \"Meta\": {\n    \"Kid\": {\n      \"path\": \"src/kid\"\n    }\n  }\n}";
    assert_eq!(d.contents, expected);
}
