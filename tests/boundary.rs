use inject_browser_sdk::boundary::{
    injector_cleanup, injector_create, injector_end, injector_write, BytesSlice, Injector,
    InjectorResult,
};
use inject_browser_sdk::injector::Origin;

fn forward(injector: &Injector, result: &InjectorResult, chunk: &[u8], output: &mut Vec<u8>) {
    assert!(result.slices_length <= 4);
    for slice in &result.slices[..result.slices_length as usize] {
        assert!(slice.length > 0);
        let bytes = injector.bytes(slice, chunk);
        assert_eq!(bytes.len(), slice.length as usize);
        let pointer = bytes.as_ptr() as usize;
        let min = chunk.as_ptr() as usize;
        let in_chunk = !chunk.is_empty() && min <= pointer && pointer < min + chunk.len();
        assert_eq!(slice.from_incoming_chunk, in_chunk);
        output.extend_from_slice(bytes);
    }
}

fn drive(snippet: &[u8], chunks: &[&[u8]]) -> (Vec<u8>, bool) {
    let mut injector = injector_create(snippet);
    let mut output = Vec::new();
    for chunk in chunks {
        let result = injector_write(&mut injector, chunk);
        forward(&injector, &result, chunk, &mut output);
    }
    let result = injector_end(&mut injector);
    forward(&injector, &result, &[], &mut output);
    injector_cleanup(injector);
    (output, result.injected)
}

#[test]
fn boundary_injects_across_chunks() {
    let (output, injected) = drive(b"<snippet>", &[b"abc</he", b"ad>def"]);
    assert_eq!(output, b"abc<snippet></head>def".to_vec());
    assert!(injected);
}

#[test]
fn boundary_pads_without_tag() {
    let (output, injected) = drive(b"<snippet>", &[b"abc"]);
    assert_eq!(output, b"abc         ".to_vec());
    assert!(!injected);
}

#[test]
fn boundary_slot_layout() {
    let mut injector = injector_create(b"<s>");
    let result = injector_write(&mut injector, b"x</");
    assert_eq!(result.slices_length, 1);
    assert_eq!(result.slices[0].length, 1);
    assert!(result.slices[0].from_incoming_chunk);
    let chunk = b"b</head>";
    let result = injector_write(&mut injector, chunk);
    assert!(result.injected);
    assert_eq!(result.slices_length, 4);
    let lengths: Vec<u32> = result.slices.iter().map(|s| s.length).collect();
    assert_eq!(lengths, vec![2, 1, 3, 7]);
    assert_eq!(result.slices[0].origin, Origin::Buffered);
    assert_eq!(result.slices[2].origin, Origin::Snippet);
    assert_eq!(injector.bytes(&result.slices[0], chunk), b"</");
    assert_eq!(injector.bytes(&result.slices[3], chunk), b"</head>");
    let result = injector_end(&mut injector);
    assert_eq!(result.slices_length, 0);
    assert!(result.injected);
    injector_cleanup(injector);
}

#[test]
fn boundary_empty_slot() {
    let slot = BytesSlice::empty();
    assert_eq!(slot.length, 0);
    assert!(!slot.from_incoming_chunk);
}

#[test]
fn boundary_end_pads_in_last_slot() {
    let mut injector = injector_create(b"<snippet>");
    let chunk = b"abc</he";
    let result = injector_write(&mut injector, chunk);
    assert_eq!(result.slices_length, 1);
    let result = injector_end(&mut injector);
    assert_eq!(result.slices_length, 2);
    assert!(!result.injected);
    let last = result.slices[1];
    assert_eq!(last.length, 9);
    assert_eq!(injector.bytes(&last, &[]), b"         ");
    assert_eq!(injector.bytes(&result.slices[0], &[]), b"</he");
    assert_eq!(result.slices[2], BytesSlice::empty());
    injector_cleanup(injector);
}
