use inject_browser_sdk::injector::{BytesSlice, Injector, Origin};

const SNIPPET: &[u8] = b"<snippet>";

/// Forwards the slices of one result, checking where each lives.
fn forward(injector: &Injector, slices: &[BytesSlice], chunk: &[u8], output: &mut Vec<u8>) {
    for slice in slices {
        let bytes = injector.bytes(slice, chunk);
        assert!(!bytes.is_empty());
        let pointer = bytes.as_ptr() as usize;
        let min = chunk.as_ptr() as usize;
        let max = min + chunk.len();
        let in_chunk = !chunk.is_empty() && min <= pointer && pointer < max;
        assert_eq!(slice.from_incoming_chunk, in_chunk);
        assert_eq!(slice.from_incoming_chunk, slice.origin == Origin::IncomingChunk);
        output.extend_from_slice(bytes);
    }
}

fn run(snippet: &[u8], chunks: &[&[u8]]) -> Vec<u8> {
    let mut injector = Injector::new(snippet);
    let mut output = Vec::new();
    let mut injected = false;
    for chunk in chunks {
        let result = injector.write(chunk);
        assert!(result.length <= 4);
        let slices = result.iter();
        forward(&injector, &slices, chunk, &mut output);
        if !injected && !snippet.is_empty() {
            injected = output.windows(snippet.len()).any(|w| w == snippet);
        }
        if !snippet.is_empty() {
            assert_eq!(result.injected, injected);
        }
        injected = result.injected;
    }
    let result = injector.end();
    let slices = result.iter();
    forward(&injector, &slices, &[], &mut output);
    assert_eq!(result.injected, injected);
    output
}

fn test_injector(chunks: &[&str], expected: &str) {
    let chunks: Vec<&[u8]> = chunks.iter().map(|c| c.as_bytes()).collect();
    let output = run(SNIPPET, &chunks);
    assert_eq!(
        String::from_utf8(output).unwrap(),
        expected,
        "with chunks {:?}",
        chunks
    );
}

#[test]
fn injector_basic() {
    test_injector(&["abc</head>def"], "abc<snippet></head>def");
    test_injector(&["abc</he", "ad>def"], "abc<snippet></head>def");
    test_injector(&["abc", "</head>def"], "abc<snippet></head>def");
    test_injector(&["abc</head>", "def"], "abc<snippet></head>def");
    test_injector(&["abc</h", "ea", "d>def"], "abc<snippet></head>def");
    test_injector(&["abc", "</hea", "d>def"], "abc<snippet></head>def");
}

#[test]
fn no_head() {
    test_injector(&["abc"], "abc         ");
    test_injector(&["abc</hea"], "abc</hea         ");
}

#[test]
fn empty() {
    test_injector(&[], "         ");
    test_injector(&[""], "         ");
    test_injector(&["", ""], "         ");
}

#[test]
fn multiple_head() {
    test_injector(
        &["abc</head>def</head>ghi"],
        "abc<snippet></head>def</head>ghi",
    );
    test_injector(
        &["abc</head>def</h", "ead>ghi"],
        "abc<snippet></head>def</head>ghi",
    );
    test_injector(
        &["abc</head>d", "ef</head>ghi"],
        "abc<snippet></head>def</head>ghi",
    );
}

#[test]
fn incomplete_head() {
    test_injector(&["abc</he</head>def"], "abc</he<snippet></head>def");
    test_injector(&["abc</he", "</head>def"], "abc</he<snippet></head>def");
    test_injector(&["abc</he", "</", "head>def"], "abc</he<snippet></head>def");
}

#[test]
fn injector_casing() {
    test_injector(&["abc</HeAd>def"], "abc<snippet></HeAd>def");
    test_injector(&["abc</HEAD>def"], "abc<snippet></HEAD>def");
}

#[test]
fn spaces() {
    test_injector(&["abc </head>def"], "abc <snippet></head>def");
    test_injector(&["abc< /head>def"], "abc< /head>def         ");
    test_injector(&["abc</ head>def"], "abc<snippet></ head>def");
    test_injector(&["abc</h ead>def"], "abc</h ead>def         ");
    test_injector(&["abc</he ad>def"], "abc</he ad>def         ");
    test_injector(&["abc</hea d>def"], "abc</hea d>def         ");
    test_injector(&["abc</head >def"], "abc<snippet></head >def");
    test_injector(&["abc</head> def"], "abc<snippet></head> def");
}

/// A small xorshift generator, enough to vary the inputs reproducibly.
struct Generator(u64);

impl Generator {
    fn below(&mut self, bound: usize) -> usize {
        self.0 ^= self.0 << 13;
        self.0 ^= self.0 >> 7;
        self.0 ^= self.0 << 17;
        (self.0 % bound as u64) as usize
    }
}

#[test]
fn fuzzy() {
    let parts: [(&str, bool); 16] = [
        ("</head>", true),
        ("</ head>", true),
        ("</HeAd>", true),
        ("</HEAD>", true),
        ("</h ead>", false),
        ("</he ad>", false),
        ("</header>", false),
        ("</h", false),
        ("</", false),
        ("<", false),
        (" ", false),
        ("foo", false),
        ("bar", false),
        ("&nbsp;", false),
        ("😊", false),
        ("网络", false),
    ];
    let mut rng = Generator(0x9e37_79b9_7f4a_7c15);

    for _ in 0..1000 {
        let mut input = String::new();
        let mut expected = String::new();
        let mut has_head = false;

        // Distinct parts, as a random choice without repetition.
        let mut order: Vec<usize> = (0..parts.len()).collect();
        let count = rng.below(20).min(parts.len());
        for k in 0..count {
            let pick = k + rng.below(parts.len() - k);
            order.swap(k, pick);
            let (string, head) = parts[order[k]];
            input.push_str(string);
            if !has_head && head {
                expected.push_str("<snippet>");
                has_head = true;
            }
            expected.push_str(string);
        }
        if !has_head {
            expected.push_str("         ");
        }

        // Random cuts, which may fall inside a character.
        let bytes = input.as_bytes();
        let mut chunks: Vec<&[u8]> = Vec::new();
        let mut rest = bytes;
        while !rest.is_empty() {
            let size = rng.below(bytes.len() + 1).min(rest.len());
            chunks.push(&rest[..size]);
            rest = &rest[size..];
        }

        let output = run(SNIPPET, &chunks);
        assert_eq!(String::from_utf8(output).unwrap(), expected, "with chunks {:?}", chunks);
    }
}

#[test]
fn pass_through_after_injection() {
    let mut injector = Injector::new(SNIPPET);
    let result = injector.write(b"a</head>");
    assert!(result.injected);
    let chunk = b"rest of the page";
    let result = injector.write(chunk);
    assert!(result.injected);
    assert_eq!(result.length, 1);
    let slice = result.slices[0];
    assert!(slice.from_incoming_chunk);
    assert_eq!(injector.bytes(&slice, chunk), chunk);
    let result = injector.write(b"");
    assert!(result.injected);
    assert_eq!(result.length, 0);
}

#[test]
fn first_tag_wins() {
    test_injector(&["abc</head>def</head>ghi"], "abc<snippet></head>def</head>ghi");
}

#[test]
fn case_and_whitespace_tolerance() {
    test_injector(&["</head>"], "<snippet></head>");
    test_injector(&["</HEAD>"], "<snippet></HEAD>");
    test_injector(&["</HeAd>"], "<snippet></HeAd>");
    test_injector(&["</ \t\nhead \n>"], "<snippet></ \t\nhead \n>");
    test_injector(&["</he ad>"], "</he ad>         ");
    test_injector(&["</hea d>"], "</hea d>         ");
}

#[test]
fn no_tag_padding() {
    let output = run(SNIPPET, &[b"abc"]);
    assert_eq!(output, b"abc         ".to_vec());
    assert_eq!(output.len(), 3 + 9);
}

#[test]
fn chunk_boundary_invariance() {
    let document = b"x<y></ Head\t><p>";
    let whole = run(SNIPPET, &[document]);
    assert_eq!(whole, b"x<y><snippet></ Head\t><p>".to_vec());
    for a in 0..=document.len() {
        for b in a..=document.len() {
            let chunks: [&[u8]; 4] = [&document[..a], &document[a..b], b"", &document[b..]];
            assert_eq!(run(SNIPPET, &chunks), whole);
        }
    }
    let singles: Vec<&[u8]> = document.chunks(1).collect();
    assert_eq!(run(SNIPPET, &singles), whole);
}

#[test]
fn result_slot_count_at_most_four() {
    let mut injector = Injector::new(SNIPPET);
    let result = injector.write(b"ab</h");
    assert_eq!(result.length, 1);
    let result = injector.write(b"ead");
    assert_eq!(result.length, 0);
    assert!(!result.injected);
    let chunk = b"x</ab</head>y";
    let result = injector.write(chunk);
    assert_eq!(result.length, 4);
    let origins: Vec<Origin> = result.iter().iter().map(|s| s.origin).collect();
    assert_eq!(
        origins,
        vec![Origin::Buffered, Origin::IncomingChunk, Origin::Snippet, Origin::IncomingChunk]
    );
    let result = injector.end();
    assert_eq!(result.length, 0);
    assert!(result.injected);
}

#[test]
fn held_back_bytes_released_on_end() {
    let mut injector = Injector::new(b"<s>");
    let result = injector.write(b"ab</hea");
    let slices = result.iter();
    assert_eq!(slices.len(), 1);
    assert_eq!(injector.bytes(&slices[0], b"ab</hea"), b"ab");
    let result = injector.end();
    let slices = result.iter();
    assert_eq!(slices.len(), 2);
    assert_eq!(slices[0].origin, Origin::Buffered);
    assert_eq!(injector.bytes(&slices[0], &[]), b"</hea");
    assert_eq!(slices[1].origin, Origin::Padding);
    assert_eq!(injector.bytes(&slices[1], &[]), b"   ");
    assert!(!result.injected);
}

#[test]
fn empty_snippet() {
    assert_eq!(run(b"", &[b"ab</head>c"]), b"ab</head>c".to_vec());
    assert_eq!(run(b"", &[b"abc"]), b"abc".to_vec());
}

#[test]
fn empty_slice_descriptor() {
    let slice = BytesSlice::empty();
    assert_eq!(slice.start, slice.end);
    assert!(!slice.from_incoming_chunk);
}

fn described(injector: &Injector, slices: &[BytesSlice], chunk: &[u8]) -> Vec<(Vec<u8>, bool)> {
    slices
        .iter()
        .map(|s| (injector.bytes(s, chunk).to_vec(), s.from_incoming_chunk))
        .collect()
}

#[test]
fn slices_when_tag_spans_chunks() {
    let mut injector = Injector::new(SNIPPET);
    let first = b"foo</he";
    let result = injector.write(first);
    assert_eq!(described(&injector, &result.iter(), first), vec![(b"foo".to_vec(), true)]);
    assert!(!result.injected);
    let second = b"ad>bar";
    let result = injector.write(second);
    assert_eq!(
        described(&injector, &result.iter(), second),
        vec![
            (b"<snippet>".to_vec(), false),
            (b"</he".to_vec(), false),
            (b"ad>bar".to_vec(), true),
        ]
    );
    assert!(result.injected);
}

#[test]
fn slices_when_candidate_dismissed() {
    let mut injector = Injector::new(SNIPPET);
    let first = b"foo</he";
    injector.write(first);
    let second = b"ader>bar</";
    let result = injector.write(second);
    assert_eq!(
        described(&injector, &result.iter(), second),
        vec![(b"</he".to_vec(), false), (b"ader>bar".to_vec(), true)]
    );
    assert!(!result.injected);
    let result = injector.end();
    assert_eq!(
        described(&injector, &result.iter(), &[]),
        vec![(b"</".to_vec(), false), (b"         ".to_vec(), false)]
    );
    assert!(!result.injected);
}

#[test]
fn fresh_session_end_is_one_padding_slice() {
    let mut injector = Injector::new(SNIPPET);
    let result = injector.end();
    assert_eq!(result.length, 1);
    assert_eq!(result.slices[0].origin, Origin::Padding);
    assert_eq!(injector.bytes(&result.slices[0], &[]), b"         ");
    for k in 1..4 {
        assert_eq!(result.slices[k], BytesSlice::empty());
    }
}

#[test]
fn empty_write_returns_nothing() {
    let mut injector = Injector::new(SNIPPET);
    let result = injector.write(b"ab</h");
    assert_eq!(result.length, 1);
    let result = injector.write(b"");
    assert_eq!(result.length, 0);
    assert!(!result.injected);
    let chunk = b"ead>";
    let result = injector.write(chunk);
    assert_eq!(
        described(&injector, &result.iter(), chunk),
        vec![(b"<snippet>".to_vec(), false), (b"</h".to_vec(), false), (b"ead>".to_vec(), true)]
    );
}
