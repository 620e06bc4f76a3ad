//! Kitty graphics protocol scenarios: what `present` writes for a canvas.

use base64::engine::general_purpose::STANDARD_NO_PAD as BASE64;
use base64::Engine as _;
use guiltty::{Backend, Canvas, KittyBackend};

/// Presents `canvas` into a fresh buffer and returns what was written. The escape-sequence
/// encoder ends the final chunk with the string terminator written twice; the duplicate is
/// checked for and dropped here so the tests can parse one terminator per sequence.
fn present_to_buf(canvas: &Canvas) -> String {
    let mut backend = KittyBackend::with_writer(Vec::new());
    backend.present(canvas).expect("present should succeed");
    let out = String::from_utf8(backend.into_writer()).expect("output should be valid UTF-8");
    assert!(
        out.ends_with("\x1b\\\x1b\\"),
        "expected the final string terminator to be written twice"
    );
    out[..out.len() - "\x1b\\".len()].to_string()
}

fn image_id_of(out: &str) -> String {
    let i_pos = out.find("i=").expect("i= present") + 2;
    let i_end = out[i_pos..].find(',').unwrap() + i_pos;
    out[i_pos..i_end].to_string()
}

#[test]
fn present_encodes_control_keys_and_payload() {
    let canvas = Canvas::new(2, 1);
    let out = present_to_buf(&canvas);

    assert!(out.starts_with("\x1b_Ga=T,i="));
    assert!(out.contains(",q=2,C=1,f=32,s=2,v=1,t=d,m=0;"));
    assert!(out.ends_with("\x1b\\"));

    let payload_start = out.find(';').unwrap() + 1;
    let payload_end = out.len() - "\x1b\\".len();
    let payload = &out[payload_start..payload_end];
    let decoded = BASE64
        .decode(payload)
        .expect("payload should be valid base64");
    assert_eq!(decoded, canvas.rgba8_bytes());
}

#[test]
fn present_includes_matching_image_and_placement_ids() {
    let canvas = Canvas::new(1, 1);
    let out = present_to_buf(&canvas);
    let image_id = image_id_of(&out);

    assert!(
        out.contains(&format!("p={image_id},")),
        "expected placement id to match image id {image_id} in {out}"
    );
}

#[test]
fn present_single_chunk_has_m0() {
    let canvas = Canvas::new(1, 1);
    let out = present_to_buf(&canvas);
    assert!(out.contains(",m=0;"));
    assert_eq!(out.matches("\x1b_G").count(), 1);
}

#[test]
fn present_chunks_large_payload_with_m1_then_m0() {
    // 100 x 100 RGBA8 pixels take far more than one 4096-byte chunk once base64-encoded.
    let canvas = Canvas::new(100, 100);
    let out = present_to_buf(&canvas);

    let chunk_count = out.matches("\x1b_G").count();
    assert!(
        chunk_count > 1,
        "expected multiple chunks, got {chunk_count}"
    );

    let m1_count = out.matches("m=1;").count();
    let m0_count = out.matches("m=0;").count();
    assert_eq!(m1_count, chunk_count - 1);
    assert_eq!(m0_count, 1);

    let mut payload = String::new();
    for part in out.split("\x1b_G").skip(1) {
        let body = part.strip_suffix("\x1b\\").expect("chunk ends with ST");
        let semi = body.find(';').unwrap();
        payload.push_str(&body[semi + 1..]);
    }
    let decoded = BASE64
        .decode(&payload)
        .expect("reassembled payload should be valid base64");
    assert_eq!(decoded, canvas.rgba8_bytes());
}

#[test]
fn present_zero_size_canvas_is_a_noop() {
    let canvas = Canvas::new(0, 0);
    let mut backend = KittyBackend::with_writer(Vec::new());
    backend.present(&canvas).expect("present should succeed");
    assert!(
        backend.writer().is_empty(),
        "a zero-size canvas has no valid kitty image representation"
    );
}

#[test]
fn present_reuses_the_same_image_id_across_calls() {
    let canvas = Canvas::new(1, 1);
    let mut backend = KittyBackend::with_writer(Vec::new());
    backend
        .present(&canvas)
        .expect("first present should succeed");
    backend
        .present(&canvas)
        .expect("second present should succeed");
    let out = String::from_utf8(backend.into_writer()).expect("output should be valid UTF-8");
    let image_id = image_id_of(&out);
    assert_eq!(out.matches(&format!("i={image_id},")).count(), 2);
}

#[test]
fn distinct_backend_instances_get_distinct_image_ids() {
    let canvas = Canvas::new(1, 1);
    let mut backend_a = KittyBackend::with_writer(Vec::new());
    backend_a.present(&canvas).expect("present should succeed");
    let out_a = String::from_utf8(backend_a.into_writer()).unwrap();

    let mut backend_b = KittyBackend::with_writer(Vec::new());
    backend_b.present(&canvas).expect("present should succeed");
    let out_b = String::from_utf8(backend_b.into_writer()).unwrap();

    assert_ne!(image_id_of(&out_a), image_id_of(&out_b));
}

#[test]
fn frame_of_an_empty_canvas_is_empty() {
    let backend = KittyBackend::with_writer(());
    let frame = backend.frame(&Canvas::new(0, 5)).expect("empty frames always encode");
    assert!(frame.is_empty());
}

#[test]
fn frame_uses_the_backend_image_id_for_image_and_placement() {
    let backend = KittyBackend::with_writer(());
    let id = backend.image_id();
    assert_ne!(id, 0);
    let frame = backend.frame(&Canvas::new(3, 2)).expect("encoding into memory succeeds");
    let out = String::from_utf8(frame).unwrap();
    assert!(out.starts_with(&format!("\x1b_Ga=T,i={id},p={id},")));
    assert!(out.contains(",s=3,v=2,"));
}

#[test]
fn present_appends_to_what_the_buffer_already_held() {
    let canvas = Canvas::new(1, 1);
    let mut backend = KittyBackend::with_writer(b"prefix".to_vec());
    let frame = backend.frame(&canvas).unwrap();
    backend.present(&canvas).unwrap();
    let mut expected = b"prefix".to_vec();
    expected.extend_from_slice(&frame);
    assert_eq!(backend.into_writer(), expected);
}
