//! Metadata of images.

use cull::json::Json;
use cull::meta::{
    extract_meta, id_before, is_sampler, link_target, meta_from, node_text, pick_text, sort_ids,
    walk_graph, Meta, SamplerPrompt, TextChunks,
};

/// A 1x1 grayscale PNG, with an optional tEXt chunk.
fn png(text: Option<(&str, &str)>) -> Vec<u8> {
    let mut file = Vec::new();
    let mut encoder = png::Encoder::new(&mut file, 1, 1);
    encoder.set_color(png::ColorType::Grayscale);
    encoder.set_depth(png::BitDepth::Eight);
    if let Some((k, t)) = text {
        encoder
            .add_text_chunk(k.to_string(), t.to_string())
            .unwrap();
    }
    let mut writer = encoder.write_header().unwrap();
    writer.write_image_data(&[0u8]).unwrap();
    drop(writer);
    file
}

fn meta_of(text: Option<(&str, &str)>) -> Meta {
    extract_meta(Some(png(text).as_slice()))
}

fn text(t: &str) -> Json {
    Json::Text(t.to_string())
}

fn object(entries: Vec<(&str, Json)>) -> Json {
    Json::Object(
        entries
            .into_iter()
            .map(|(k, v)| (k.to_string(), v))
            .collect(),
    )
}

#[test]
fn extracts_positive_and_negative() {
    let graph = r#"{
            "3": {"class_type":"KSampler","inputs":{"positive":["6",0],"negative":["7",0],"seed":1}},
            "6": {"class_type":"CLIPTextEncode","inputs":{"text":"a beautiful sunset"}},
            "7": {"class_type":"CLIPTextEncode","inputs":{"text":"ugly, blurry"}}
        }"#;
    let meta = meta_of(Some(("prompt", graph)));
    assert!(meta.raw.is_some());
    assert_eq!(
        meta.prompts,
        vec![SamplerPrompt {
            sampler_node: "3".to_string(),
            positive: Some("a beautiful sunset".to_string()),
            negative: Some("ugly, blurry".to_string()),
        }]
    );
}

#[test]
fn sdxl_dual_encoder_combines_text_g_and_l() {
    let graph = r#"{
            "3": {"class_type":"KSamplerAdvanced","inputs":{"positive":["6",0],"negative":["7",0]}},
            "6": {"class_type":"CLIPTextEncodeSDXL","inputs":{"text_g":"big","text_l":"small"}},
            "7": {"class_type":"CLIPTextEncodeSDXL","inputs":{"text_g":"neg","text_l":"neg"}}
        }"#;
    let meta = meta_of(Some(("prompt", graph)));
    assert_eq!(meta.prompts.len(), 1);
    assert_eq!(meta.prompts[0].positive.as_deref(), Some("big\nsmall"));
    assert_eq!(meta.prompts[0].negative.as_deref(), Some("neg"));
}

#[test]
fn linked_text_input_falls_back_to_none() {
    let graph = r#"{
            "3": {"class_type":"KSampler","inputs":{"positive":["6",0],"negative":["7",0]}},
            "6": {"class_type":"CLIPTextEncode","inputs":{"text":["10",0]}},
            "7": {"class_type":"CLIPTextEncode","inputs":{"text":"neg"}},
            "10": {"class_type":"PrimitiveNode","inputs":{}}
        }"#;
    let meta = meta_of(Some(("prompt", graph)));
    assert_eq!(meta.prompts.len(), 1);
    assert_eq!(meta.prompts[0].positive, None);
    assert_eq!(meta.prompts[0].negative.as_deref(), Some("neg"));
}

#[test]
fn multiple_samplers_enumerated_in_node_id_order() {
    let graph = r#"{
            "10": {"class_type":"KSampler","inputs":{"positive":["11",0],"negative":["12",0]}},
            "11": {"class_type":"CLIPTextEncode","inputs":{"text":"second pos"}},
            "12": {"class_type":"CLIPTextEncode","inputs":{"text":"second neg"}},
            "3": {"class_type":"KSampler","inputs":{"positive":["6",0],"negative":["7",0]}},
            "6": {"class_type":"CLIPTextEncode","inputs":{"text":"first pos"}},
            "7": {"class_type":"CLIPTextEncode","inputs":{"text":"first neg"}}
        }"#;
    let meta = meta_of(Some(("prompt", graph)));
    // Numeric order: node 3 before node 10.
    let ids: Vec<&str> = meta
        .prompts
        .iter()
        .map(|s| s.sampler_node.as_str())
        .collect();
    assert_eq!(ids, vec!["3", "10"]);
    assert_eq!(meta.prompts[0].positive.as_deref(), Some("first pos"));
    assert_eq!(meta.prompts[1].positive.as_deref(), Some("second pos"));
}

#[test]
fn no_sampler_yields_raw_only() {
    let graph = r#"{"1":{"class_type":"LoadImage","inputs":{"image":"x.png"}}}"#;
    let meta = meta_of(Some(("prompt", graph)));
    assert!(meta.raw.is_some());
    assert!(meta.prompts.is_empty());
}

#[test]
fn broken_json_yields_raw_text_only() {
    let meta = meta_of(Some(("prompt", "{ this is not json")));
    assert_eq!(meta.raw.as_deref(), Some("{ this is not json"));
    assert!(meta.prompts.is_empty());
}

#[test]
fn png_without_text_chunk_yields_empty_meta() {
    assert_eq!(meta_of(None), Meta::empty());
}

#[test]
fn non_png_file_yields_empty_meta() {
    assert_eq!(
        extract_meta(Some(b"this is not a png".as_slice())),
        Meta::empty()
    );
}

#[test]
fn unreadable_file_yields_empty_meta() {
    assert_eq!(extract_meta(None), Meta::empty());
}

#[test]
fn workflow_used_when_prompt_absent() {
    let wf = r#"{"nodes":[{"id":3,"type":"KSampler"}]}"#;
    let meta = meta_of(Some(("workflow", wf)));
    assert!(meta.raw.is_some());
    assert!(meta.prompts.is_empty());
}

#[test]
fn json_is_shown_over_several_lines() {
    let meta = meta_of(Some(("prompt", r#"{"b":[1,2.5],"a":null}"#)));
    assert_eq!(
        meta.raw.as_deref(),
        Some("{\n  \"a\": null,\n  \"b\": [\n    1,\n    2.5\n  ]\n}")
    );
}

#[test]
fn json_that_is_no_object_has_no_prompts() {
    for text in ["[1,2]", "\"text\"", "12", "null", "true"] {
        let meta = meta_of(Some(("prompt", text)));
        assert!(meta.raw.is_some());
        assert!(meta.prompts.is_empty());
    }
}

#[test]
fn every_kind_of_value_is_taken_over() {
    let graph = r#"{
        "1": {"class_type":"S","inputs":{"positive":["2",0],"negative":[],"x":null,"y":true,"z":-1.5e3}},
        "2": {"class_type":"MyCLIPTextEncodePlus","inputs":{"text":"found"}}
    }"#;
    let meta = meta_of(Some(("prompt", graph)));
    assert_eq!(
        meta.prompts,
        vec![SamplerPrompt {
            sampler_node: "1".to_string(),
            positive: Some("found".to_string()),
            negative: None,
        }]
    );
}

#[test]
fn compressed_and_unicode_chunks_are_read() {
    let mut file = Vec::new();
    let mut encoder = png::Encoder::new(&mut file, 1, 1);
    encoder.set_color(png::ColorType::Grayscale);
    encoder.set_depth(png::BitDepth::Eight);
    encoder
        .add_itxt_chunk("prompt".to_string(), "\u{4f60}\u{597d}".to_string())
        .unwrap();
    encoder
        .add_ztxt_chunk("workflow".to_string(), "compressed".to_string())
        .unwrap();
    let mut writer = encoder.write_header().unwrap();
    writer.write_image_data(&[0u8]).unwrap();
    drop(writer);
    let meta = extract_meta(Some(file.as_slice()));
    assert_eq!(meta.raw.as_deref(), Some("\u{4f60}\u{597d}"));

    let mut file = Vec::new();
    let mut encoder = png::Encoder::new(&mut file, 1, 1);
    encoder.set_color(png::ColorType::Grayscale);
    encoder.set_depth(png::BitDepth::Eight);
    encoder
        .add_text_chunk("Comment".to_string(), "plain".to_string())
        .unwrap();
    encoder
        .add_ztxt_chunk("workflow".to_string(), "compressed".to_string())
        .unwrap();
    let mut writer = encoder.write_header().unwrap();
    writer.write_image_data(&[0u8]).unwrap();
    drop(writer);
    let meta = extract_meta(Some(file.as_slice()));
    assert_eq!(meta.raw.as_deref(), Some("compressed"));
}

#[test]
fn prompt_is_preferred_to_workflow_to_the_first() {
    let pair = |k: &str, t: &str| (k.to_string(), t.to_string());
    let maybe = |k: &str, t: Option<&str>| (k.to_string(), t.map(|t| t.to_string()));
    let picked = |latin, compressed, unicode| {
        pick_text(TextChunks {
            latin,
            compressed,
            unicode,
        })
    };
    assert_eq!(
        picked(
            vec![pair("a", "1"), pair("workflow", "2")],
            vec![],
            vec![maybe("prompt", Some("3"))]
        )
        .as_deref(),
        Some("3")
    );
    assert_eq!(
        picked(
            vec![pair("a", "1"), pair("workflow", "2"), pair("workflow", "9")],
            vec![],
            vec![maybe("prompt", None)]
        )
        .as_deref(),
        Some("2")
    );
    assert_eq!(
        picked(
            vec![],
            vec![maybe("x", None), maybe("y", Some("4"))],
            vec![maybe("z", Some("5"))]
        )
        .as_deref(),
        Some("4")
    );
    assert_eq!(picked(vec![], vec![maybe("x", None)], vec![]), None);
}

#[test]
fn sampler_needs_both_inputs() {
    let node = |keys: Vec<&str>| {
        object(vec![(
            "inputs",
            object(keys.into_iter().map(|k| (k, Json::Null)).collect()),
        )])
    };
    assert!(is_sampler(&node(vec!["positive", "negative"])));
    assert!(!is_sampler(&node(vec!["positive"])));
    assert!(!is_sampler(&node(vec!["negative"])));
    assert!(!is_sampler(&object(vec![("inputs", Json::Null)])));
    assert!(!is_sampler(&Json::Bool(true)));
}

#[test]
fn link_names_a_node() {
    assert_eq!(
        link_target(&Json::Array(vec![text("6"), Json::Number("0".to_string())])),
        Some("6")
    );
    assert_eq!(
        link_target(&Json::Array(vec![Json::Number("6".to_string())])),
        None
    );
    assert_eq!(link_target(&Json::Array(vec![])), None);
    assert_eq!(link_target(&text("6")), None);
}

#[test]
fn encoder_text_by_its_inputs() {
    let node = |class: &str, inputs: Vec<(&str, Json)>| {
        object(vec![
            ("class_type", text(class)),
            ("inputs", object(inputs)),
        ])
    };
    let encoder = |inputs| node_text(&node("CLIPTextEncode", inputs));
    assert_eq!(
        encoder(vec![("text", text("t")), ("text_g", text("g"))]).as_deref(),
        Some("t")
    );
    assert_eq!(
        encoder(vec![("text_g", text("g"))]).as_deref(),
        Some("g")
    );
    assert_eq!(
        encoder(vec![("text_l", text("l"))]).as_deref(),
        Some("l")
    );
    assert_eq!(
        encoder(vec![("text", Json::Null), ("text_l", text("l"))]).as_deref(),
        Some("l")
    );
    assert_eq!(encoder(vec![]), None);
    assert_eq!(
        node_text(&node("ClipTextEncode", vec![("text", text("t"))])),
        None
    );
    assert_eq!(node_text(&object(vec![("class_type", text("CLIPTextEncode"))])), None);
}

#[test]
fn ids_by_number_then_by_text() {
    assert!(id_before("9", "10"));
    assert!(!id_before("10", "9"));
    assert!(id_before("10", "1x"));
    assert!(id_before("1x", "9"));
    assert!(!id_before("1", "01"));
    assert!(!id_before("01", "1"));
    // Too large for a number: compared as text.
    assert!(id_before("18446744073709551616", "2"));
    let ids = |texts: &[&str]| texts.iter().map(|t| t.to_string()).collect::<Vec<_>>();
    assert_eq!(
        sort_ids(ids(&["10", "3", "7", "1"])),
        ids(&["1", "3", "7", "10"])
    );
    assert_eq!(sort_ids(ids(&["b", "a", "c"])), ids(&["a", "b", "c"]));
    // Equal numbers stay as they were.
    assert_eq!(sort_ids(ids(&["1", "01", "0"])), ids(&["0", "1", "01"]));
    assert_eq!(sort_ids(ids(&["1x", "10", "9"])).len(), 3);
}

#[test]
fn samplers_without_texts_are_left_out() {
    let sampler = |to: &str| {
        object(vec![(
            "inputs",
            object(vec![
                ("positive", Json::Array(vec![text(to)])),
                ("negative", Json::Null),
            ]),
        )])
    };
    let graph = object(vec![
        ("1", sampler("3")),
        ("2", sampler("nowhere")),
        (
            "3",
            object(vec![
                ("class_type", text("CLIPTextEncode")),
                ("inputs", object(vec![("text", text("words"))])),
            ]),
        ),
    ]);
    assert_eq!(
        walk_graph(&graph),
        vec![SamplerPrompt {
            sampler_node: "1".to_string(),
            positive: Some("words".to_string()),
            negative: None,
        }]
    );
    assert_eq!(walk_graph(&Json::Array(vec![])), vec![]);
}

#[test]
fn every_sampler_with_a_text_is_listed_once_and_in_order() {
    let node = |kind: &str, inputs: Json| object(vec![("class_type", text(kind)), ("inputs", inputs)]);
    let link = |id: &str| Json::Array(vec![text(id), Json::Number("0".to_string())]);
    let sampler = |positive: &str, negative: &str| {
        node(
            "KSampler",
            object(vec![("positive", link(positive)), ("negative", link(negative))]),
        )
    };
    let graph = object(vec![
        ("12", sampler("1", "2")),
        ("1", node("CLIPTextEncode", object(vec![("text", text("plus"))]))),
        ("2", node("CLIPTextEncode", object(vec![("text", text("minus"))]))),
        ("3", sampler("nowhere", "nowhere")),
        ("9", sampler("1", "nowhere")),
        ("4", sampler("nowhere", "2")),
    ]);
    let found: Vec<(String, bool, bool)> = walk_graph(&graph)
        .into_iter()
        .map(|p| (p.sampler_node, p.positive.is_some(), p.negative.is_some()))
        .collect();
    assert_eq!(
        found,
        vec![
            ("4".to_string(), false, true),
            ("9".to_string(), true, false),
            ("12".to_string(), true, true),
        ]
    );
}

#[test]
fn text_is_shown_if_it_does_not_print() {
    let meta = meta_from("as it stands".to_string(), Some((Json::Null, None)));
    assert_eq!(meta.raw.as_deref(), Some("as it stands"));
    let meta = meta_from("x".to_string(), Some((Json::Null, Some("null".to_string()))));
    assert_eq!(meta.raw.as_deref(), Some("null"));
}
