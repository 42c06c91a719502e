use donutdb::codec::LangMap;
use donutdb::crypto::decrypt_data;
use donutdb::error::CoreError;
use donutdb::model::TranslateRequest;
use donutdb::table::{
    build_index, build_meta, build_schema, column_file_name, column_text, join_texts,
    plan_write, prepare_write, read_table, reconstruct_rows, render_table, split_lines,
    validate_request, WritePlan,
};

fn strings(v: &[&str]) -> Vec<String> {
    v.iter().map(|s| s.to_string()).collect()
}

fn rows(v: &[&[&str]]) -> Vec<Vec<String>> {
    v.iter().map(|r| strings(r)).collect()
}

fn digit_map() -> LangMap {
    let mut m = LangMap::new();
    for (c, s) in [('1', "#one"), ('2', "#two"), ('3', "#three"), ('4', "#four")] {
        m.insert(c, s.to_string());
    }
    m
}

fn request(dataset: &str, slot: &[&str], data: &[&[&str]]) -> TranslateRequest {
    TranslateRequest { dataset: dataset.to_string(), slot: strings(slot), data: rows(data) }
}

fn read_back(token: &str, plan: &WritePlan, m: &LangMap) -> Result<String, CoreError> {
    let blobs: Vec<Option<Vec<u8>>> = plan.columns.iter().map(|c| Some(c.blob.clone())).collect();
    read_table(token, &plan.meta, &plan.schema, &blobs, &m.reverse())
}

#[test]
fn write_then_read_keeps_rows_in_order() {
    let m = digit_map();
    let req = request("t", &["a", "b"], &[&["1", "2"], &["3", "4"]]);
    let plan = plan_write("key1", &req, &m).unwrap();
    let text = read_back("key1", &plan, &m).unwrap();
    assert_eq!(text, "dataset t(SLOT:a, SLOT:b) {\n    a,b\n    1,2\n    3,4\n}");
}

#[test]
fn column_files_hold_encoded_column_text() {
    let m = digit_map();
    let req = request("t", &["a", "b"], &[&["1", "2"], &["3", "x"]]);
    let plan = prepare_write("key1", &req, &m, "2024-01-01T00:00:00+00:00".to_string()).unwrap();
    assert_eq!(plan.columns.len(), 2);
    assert_eq!(plan.columns[0].file_name, "a.odb.part1");
    assert_eq!(plan.columns[1].file_name, "b.odb.part1");
    assert_eq!(decrypt_data(&plan.columns[0].blob, "key1"), Ok("#one\n#three\n".to_string()));
    assert_eq!(decrypt_data(&plan.columns[1].blob, "key1"), Ok("#two\nx\n".to_string()));
    assert_eq!(plan.meta.table_name, "t");
    assert_eq!(plan.meta.record_count, 2);
    assert_eq!(plan.meta.partition_count, 1);
    assert_eq!(plan.meta.created_at, "2024-01-01T00:00:00+00:00");
    assert_eq!(plan.meta.updated_at, "2024-01-01T00:00:00+00:00");
    assert_eq!(plan.schema.columns.len(), 2);
    assert_eq!(plan.schema.columns[1].name, "b");
    assert_eq!(plan.schema.columns[1].column_type, "string");
    assert_eq!(plan.index.primary_key, "a");
    assert_eq!(plan.index.indexes.len(), 2);
}

#[test]
fn mismatched_row_length_is_rejected() {
    let m = digit_map();
    let req = request("t", &["a", "b"], &[&["1", "2"], &["3"]]);
    assert_eq!(validate_request(&req), Err(CoreError::MalformedRequest));
    assert!(matches!(plan_write("key1", &req, &m), Err(CoreError::MalformedRequest)));
}

#[test]
fn empty_slot_is_rejected() {
    let m = digit_map();
    let req = request("t", &[], &[]);
    assert_eq!(validate_request(&req), Err(CoreError::MalformedRequest));
    assert!(matches!(plan_write("key1", &req, &m), Err(CoreError::MalformedRequest)));
}

#[test]
fn table_without_rows_is_accepted() {
    let m = digit_map();
    let req = request("t", &["a"], &[]);
    assert_eq!(validate_request(&req), Ok(()));
    let plan = plan_write("key1", &req, &m).unwrap();
    assert_eq!(read_back("key1", &plan, &m).unwrap(), "dataset t(SLOT:a) {\n    a\n\n}");
}

#[test]
fn second_write_replaces_first() {
    let m = digit_map();
    let first = plan_write("key1", &request("t", &["a"], &[&["1"], &["2"]]), &m).unwrap();
    let second = plan_write("key1", &request("t", &["a"], &[&["3"]]), &m).unwrap();
    assert_eq!(read_back("key1", &first, &m).unwrap(), "dataset t(SLOT:a) {\n    a\n    1\n    2\n}");
    assert_eq!(read_back("key1", &second, &m).unwrap(), "dataset t(SLOT:a) {\n    a\n    3\n}");
}

#[test]
fn reading_with_another_token_fails() {
    let m = digit_map();
    let plan = plan_write("key1", &request("t", &["a"], &[&["1"]]), &m).unwrap();
    assert_eq!(read_back("key2", &plan, &m), Err(CoreError::DecryptionFailed));
}

#[test]
fn column_text_joins_cells_with_newlines() {
    let r = rows(&[&["x", "y"], &["z", "w"]]);
    assert_eq!(column_text(&r, 1), "y\nw\n");
    assert_eq!(column_text(&r, 0), "x\nz\n");
    assert_eq!(column_text(&Vec::new(), 0), "");
}

#[test]
fn split_lines_matches_str_split() {
    assert_eq!(split_lines("a\nb\n"), strings(&["a", "b", ""]));
    assert_eq!(split_lines(""), strings(&[""]));
    assert_eq!(split_lines("ab"), strings(&["ab"]));
    assert_eq!(split_lines("\n\n"), strings(&["", "", ""]));
}

#[test]
fn index_has_sequential_ids_and_offsets() {
    let idx = build_index(&"id".to_string(), 3);
    assert_eq!(idx.primary_key, "id");
    let ids: Vec<u64> = idx.indexes.iter().map(|e| e.id).collect();
    let offsets: Vec<u64> = idx.indexes.iter().map(|e| e.offset).collect();
    assert_eq!(ids, vec![1, 2, 3]);
    assert_eq!(offsets, vec![0, 10, 20]);
    assert!(idx.indexes.iter().all(|e| e.partition == "id.odb.part1"));
}

#[test]
fn schema_and_meta_builders() {
    let s = build_schema(&strings(&["p", "q"]));
    assert_eq!(s.columns.len(), 2);
    assert_eq!(s.columns[0].name, "p");
    assert_eq!(s.columns[0].column_type, "string");
    let m = build_meta(&"ds".to_string(), 5, "now".to_string());
    assert_eq!(m.table_name, "ds");
    assert_eq!(m.record_count, 5);
    assert_eq!(m.partition_count, 1);
    assert_eq!(m.created_at, "now");
    assert_eq!(m.updated_at, "now");
    assert_eq!(column_file_name(&"c".to_string()), "c.odb.part1");
}

#[test]
fn short_columns_leave_cells_out() {
    let mut m = LangMap::new();
    m.insert('a', "A".to_string());
    let r = m.reverse();
    let cols = rows(&[&["A", "A", ""], &["A"]]);
    let out = reconstruct_rows(3, &cols, &r);
    assert_eq!(out, rows(&[&["a", "a"], &["a"], &[""]]));
}

#[test]
fn render_table_layout() {
    let out = render_table(&"d".to_string(), &strings(&["x", "y"]), &rows(&[&["1", "2"]]));
    assert_eq!(out, "dataset d(SLOT:x, SLOT:y) {\n    x,y\n    1,2\n}");
    assert_eq!(join_texts(&strings(&["a", "b", "c"]), "-"), "a-b-c");
    assert_eq!(join_texts(&Vec::new(), "-"), "");
}

#[test]
fn missing_column_file_is_file_not_found() {
    let m = digit_map();
    let plan = plan_write("key1", &request("t", &["a", "b"], &[&["1", "2"]]), &m).unwrap();
    let blobs = vec![Some(plan.columns[0].blob.clone()), None];
    let r = read_table("key1", &plan.meta, &plan.schema, &blobs, &m.reverse());
    assert_eq!(r, Err(CoreError::FileNotFound));
}

#[test]
fn earlier_column_error_comes_first() {
    let m = digit_map();
    let plan = plan_write("key1", &request("t", &["a", "b"], &[&["1", "2"]]), &m).unwrap();
    let mut bad = plan.columns[0].blob.clone();
    bad[12] ^= 1;
    let blobs = vec![Some(bad), None];
    let r = read_table("key1", &plan.meta, &plan.schema, &blobs, &m.reverse());
    assert_eq!(r, Err(CoreError::DecryptionFailed));
}
