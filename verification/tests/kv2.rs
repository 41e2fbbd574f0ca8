use mctocs_rust::kv2::{i32_text, usize_text, DataStream, KV2Writer};

fn strings(v: &[&str]) -> Vec<String> {
    v.iter().map(|s| s.to_string()).collect()
}

#[test]
fn decimal_texts() {
    assert_eq!(usize_text(0), "0");
    assert_eq!(usize_text(7), "7");
    assert_eq!(usize_text(1234567890), "1234567890");
    assert_eq!(i32_text(0), "0");
    assert_eq!(i32_text(-42), "-42");
    assert_eq!(i32_text(i32::MIN), "-2147483648");
    assert_eq!(i32_text(i32::MAX), "2147483647");
}

#[test]
fn lines_and_blocks() {
    let mut w = KV2Writer::new(16);
    w.w("top");
    w.begin("\"elem\"");
    w.prop("id", "int", "5");
    w.blank();
    w.end();
    assert_eq!(w.finish(), "top\n\"elem\"\n{\n\t\"id\" \"int\" \"5\"\n\n}\n");
}

#[test]
fn arrays_put_commas_between_items() {
    let mut w = KV2Writer::new(0);
    w.begin_array("a", "string_array");
    w.array_item_comma("x");
    w.array_item("y");
    w.end_array();
    assert_eq!(w.finish(), "\"a\" \"string_array\" \n[\n\t\"x\",\n\t\"y\"\n]\n");
}

#[test]
fn write_items_empty_one_many() {
    let mut w = KV2Writer::new(0);
    w.write_items(&Vec::new());
    w.write_items(&strings(&["p"]));
    w.write_items(&strings(&["q", "r", "s"]));
    assert_eq!(w.finish(), "\"p\"\n\"q\",\n\"r\",\n\"s\"\n");
}

#[test]
fn write_array_matches_begin_items_end() {
    let mut w = KV2Writer::new(0);
    w.begin("\"x\"");
    w.write_array("ints", "int_array", &strings(&["1", "2"]));
    w.end();
    assert_eq!(w.finish(), "\"x\"\n{\n\t\"ints\" \"int_array\" \n\t[\n\t\t\"1\",\n\t\t\"2\"\n\t]\n}\n");
}

#[test]
fn trailing_comma_goes_before_last_newline() {
    let mut w = KV2Writer::new(0);
    w.w("a");
    w.w("}");
    w.trailing_comma();
    assert_eq!(w.finish(), "a\n},\n");
}

#[test]
fn trailing_comma_goes_on_last_non_empty_line() {
    let mut w = KV2Writer::new(0);
    w.w("}");
    w.blank();
    w.trailing_comma();
    assert_eq!(w.finish(), "},\n\n");
}

#[test]
fn trailing_comma_ignores_leading_or_missing_newline() {
    let mut w = KV2Writer::new(0);
    w.blank();
    w.trailing_comma();
    assert_eq!(w.finish(), "\n");
    let mut w2 = KV2Writer::new(0);
    w2.trailing_comma();
    assert_eq!(w2.finish(), "");
}

#[test]
fn trailing_comma_before_inner_newline() {
    let mut w = KV2Writer::new(0);
    w.w("a");
    w.prop("k", "t", "v");
    w.trailing_comma();
    assert_eq!(w.finish(), "a\n\"k\" \"t\" \"v\",\n");
}

fn stream(id: &str, name: &str, data: &[&str]) -> DataStream {
    DataStream {
        id: id.to_string(),
        name: name.to_string(),
        standard_attr: name.to_string(),
        semantic: name.to_string(),
        sem_idx: 0,
        data_state: 3,
        dtype: "int_array".to_string(),
        data: strings(data),
    }
}

fn expected_stream(ind: usize, id: &str, name: &str, data: &[&str], comma: bool) -> String {
    let t = "\t".repeat(ind);
    let t1 = "\t".repeat(ind + 1);
    let t2 = "\t".repeat(ind + 2);
    let mut s = String::new();
    s += &format!("{t}\"CDmePolygonMeshDataStream\"\n{t}{{\n");
    s += &format!("{t1}\"id\" \"elementid\" \"{id}\"\n");
    s += &format!("{t1}\"name\" \"string\" \"{name}:0\"\n");
    s += &format!("{t1}\"standardAttributeName\" \"string\" \"{name}\"\n");
    s += &format!("{t1}\"semanticName\" \"string\" \"{name}\"\n");
    s += &format!("{t1}\"semanticIndex\" \"int\" \"0\"\n");
    s += &format!("{t1}\"vertexBufferLocation\" \"int\" \"0\"\n");
    s += &format!("{t1}\"dataStateFlags\" \"int\" \"3\"\n");
    s += &format!("{t1}\"subdivisionBinding\" \"element\" \"\"\n");
    s += &format!("{t1}\"data\" \"int_array\" \n{t1}[\n");
    for (i, d) in data.iter().enumerate() {
        let c = if i + 1 < data.len() { "," } else { "" };
        s += &format!("{t2}\"{d}\"{c}\n");
    }
    s += &format!("{t1}]\n");
    s += &format!("{t}}}{}\n", if comma { "," } else { "" });
    s
}

#[test]
fn data_stream_text() {
    let mut w = KV2Writer::new(0);
    w.write_data_stream("ID", "flags", "flags", "flags", 0, 3, "int_array", &strings(&["0", "1"]));
    assert_eq!(w.finish(), expected_stream(0, "ID", "flags", &["0", "1"], false));
}

#[test]
fn data_stream_name_carries_semantic_index() {
    let mut w = KV2Writer::new(0);
    w.write_data_stream("i", "uv", "texcoord", "tc", -3, 7, "vector2_array", &Vec::new());
    let text = w.finish();
    assert!(text.contains("\t\"name\" \"string\" \"uv:-3\"\n"));
    assert!(text.contains("\t\"standardAttributeName\" \"string\" \"texcoord\"\n"));
    assert!(text.contains("\t\"semanticName\" \"string\" \"tc\"\n"));
    assert!(text.contains("\t\"semanticIndex\" \"int\" \"-3\"\n"));
    assert!(text.contains("\t\"dataStateFlags\" \"int\" \"7\"\n"));
    assert!(text.contains("\t\"data\" \"vector2_array\" \n\t[\n\t]\n"));
}

#[test]
fn data_array_separates_streams_with_commas() {
    let mut w = KV2Writer::new(0);
    let streams = vec![stream("s1", "a", &["1"]), stream("s2", "b", &["2", "3"])];
    w.write_data_array("arr", "A", 12, &streams);
    let mut want = String::new();
    want += "\"arr\" \"CDmePolygonMeshDataArray\"\n{\n";
    want += "\t\"id\" \"elementid\" \"A\"\n";
    want += "\t\"size\" \"int\" \"12\"\n";
    want += "\t\"streams\" \"element_array\" \n\t[\n";
    want += &expected_stream(2, "s1", "a", &["1"], true);
    want += &expected_stream(2, "s2", "b", &["2", "3"], false);
    want += "\t]\n}\n";
    assert_eq!(w.finish(), want);
}

#[test]
fn data_array_without_streams() {
    let mut w = KV2Writer::new(0);
    w.write_data_array("e", "Z", 0, &Vec::new());
    assert_eq!(
        w.finish(),
        "\"e\" \"CDmePolygonMeshDataArray\"\n{\n\t\"id\" \"elementid\" \"Z\"\n\t\"size\" \"int\" \"0\"\n\t\"streams\" \"element_array\" \n\t[\n\t]\n}\n"
    );
}

#[test]
fn end_undoes_the_step_in_of_begin() {
    let mut w = KV2Writer::new(0);
    w.begin("a");
    w.begin("b");
    w.end();
    w.w("c");
    w.end();
    assert_eq!(w.finish(), "a\n{\n\tb\n\t{\n\t}\n\tc\n}\n");
}
