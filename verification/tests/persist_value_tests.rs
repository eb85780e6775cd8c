use nkv::persist_value::{relative_path_to_key, FileStorage};

#[test]
fn test_file_storage_key_to_path_to_key() {
    let key = "keyspace1.keyspace2.keyspace3.keyspace4.keyspace5.key";
    let path = "keyspace1/keyspace2/keyspace3/keyspace4/keyspace5/key.json";
    let prefix = "some/kind/of/folders/";

    assert_eq!(path, FileStorage::key_to_path(key));
    assert_eq!(
        key,
        FileStorage::path_to_key(&(prefix.to_string() + path), prefix)
    )
}

#[test]
fn key_to_path_of_a_plain_key_adds_json() {
    assert_eq!(FileStorage::key_to_path("key1"), "key1.json");
    assert_eq!(FileStorage::key_to_path(""), ".json");
}

#[test]
fn path_outside_the_prefix_reads_as_no_key() {
    let got = FileStorage::path_to_key("/elsewhere/a.json", "/root/digest");
    assert_eq!(got, "");
}

#[test]
fn relative_path_without_json_reads_as_no_key() {
    assert_eq!(relative_path_to_key("a/b/c.txt"), "");
    assert_eq!(relative_path_to_key("a/b"), "");
}

#[test]
fn relative_path_drops_every_trailing_json() {
    assert_eq!(relative_path_to_key("a/b.json"), "a.b");
    assert_eq!(relative_path_to_key("a/b.json.json"), "a.b");
    assert_eq!(relative_path_to_key(".json"), "");
}

#[test]
fn key_file_reads_back_as_its_key() {
    for key in ["k", "a.b.c", "ingest.key4", "a.json"] {
        assert_eq!(relative_path_to_key(&FileStorage::key_to_path(key)), key);
    }
}

#[test]
fn layout_places_ingest_and_digest_below_the_root() {
    let fs = FileStorage::layout("/data/nkv".to_string());
    assert_eq!(fs.root(), "/data/nkv");
    assert_eq!(fs.ingest(), "/data/nkv/ingest/");
    assert_eq!(fs.digest(), "/data/nkv/digest/");
    assert_eq!(fs.file_for("a.b"), "/data/nkv/digest/a/b.json");
}

#[test]
fn recorded_files_are_found_by_key_and_by_wildcard() {
    let mut fs = FileStorage::layout("/data".to_string());
    fs.record("a.b", "/data/digest/a/b.json".to_string());
    fs.record("a.c", "/data/digest/a/c.json".to_string());
    fs.record("a.*", "/ignored".to_string());
    assert_eq!(fs.files_for("a.b"), vec!["/data/digest/a/b.json"]);
    assert_eq!(fs.files_for("a.*").len(), 2);
    assert!(fs.files_for("a").is_empty());
}

#[test]
fn record_file_reads_the_key_from_the_path() {
    let mut fs = FileStorage::layout("/data".to_string());
    let file = fs.file_for("a.b");
    assert_eq!(file, "/data/digest/a/b.json");
    assert_eq!(fs.record_file(file.clone()), "a.b");
    assert_eq!(fs.files_for("a.b"), vec![&file]);
    assert_eq!(fs.record_file("/data/digest/notes.txt".to_string()), "");
    assert_eq!(fs.record_file("/elsewhere/x.json".to_string()), "");
    assert_eq!(fs.files_for("a.*").len(), 1);
}

#[test]
fn a_file_written_for_a_key_is_found_under_that_key() {
    let fs = FileStorage::layout("/data".to_string());
    for key in ["key1", "ingest.key4", "digest.key4", "a.b.c"] {
        let file = fs.file_for(key);
        assert_eq!(FileStorage::path_to_key(&file, fs.digest()), key);
    }
}

#[test]
fn test_file_storage_restore() {
    let before = FileStorage::layout("/tmp/store".to_string());
    let keys = ["key1", "key2", "key3", "ingest.key4", "digest.key4"];
    let files: Vec<String> = keys.iter().map(|k| before.file_for(k)).collect();

    let mut after = FileStorage::layout("/tmp/store".to_string());
    for f in &files {
        after.record_file(f.clone());
    }
    for (k, f) in keys.iter().zip(files.iter()) {
        assert_eq!(after.files_for(k), vec![f]);
    }
}
