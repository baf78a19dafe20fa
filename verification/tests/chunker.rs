use contextd::chunk::{chunk_by_type, chunk_markdown, chunk_text, Chunk};
use contextd::lang::{chunk_go, chunk_javascript, chunk_python, chunk_rust, chunk_typescript};

#[test]
fn test_chunk_text() {
    let content = "Para 1\n\nPara 2";
    let chunks = chunk_text(content).unwrap();
    assert_eq!(chunks.len(), 2);
    assert_eq!(chunks[0].content, "Para 1");
    assert_eq!(chunks[1].content, "Para 2");
}

#[test]
fn test_chunk_text_empty() {
    let content = "";
    let chunks = chunk_text(content).unwrap();
    assert_eq!(chunks.len(), 0);
}

#[test]
fn test_chunk_text_offsets() {
    let content = "Para 1\n\nPara 2";
    let chunks = chunk_text(content).unwrap();
    assert_eq!((chunks[0].start, chunks[0].end), (0, 6));
    assert_eq!((chunks[1].start, chunks[1].end), (8, 14));
}

#[test]
fn test_chunk_text_skips_empty_pieces() {
    let content = "\n\nTail";
    let chunks = chunk_text(content).unwrap();
    assert_eq!(chunks.len(), 1);
    assert_eq!(chunks[0].content, "Tail");
    assert_eq!(chunks[0].start, 2);
}

#[test]
fn test_chunk_rust() {
    let content = "\nfn foo() {\n    println!(\"Hello\");\n}\n\nstruct Bar {\n    x: i32,\n}\n";
    let chunks = chunk_rust(content).unwrap();
    assert_eq!(chunks.len(), 2);
    assert!(chunks[0].content.contains("fn foo"));
    assert!(chunks[1].content.contains("struct Bar"));
}

#[test]
fn test_chunk_rust_absorbs_comments() {
    let content = "/// Doc line\nfn foo() {}\n";
    let chunks = chunk_rust(content).unwrap();
    assert_eq!(chunks.len(), 1);
    assert!(chunks[0].content.starts_with("/// Doc line"));
    assert_eq!(chunks[0].start, 0);
}

#[test]
fn test_chunk_markdown() {
    let content = "# Header 1\nSome text.\n\n## Header 2\nMore text.\n";
    let chunks = chunk_markdown(content).unwrap();
    assert_eq!(chunks.len(), 2);
    assert!(chunks[0].content.contains("# Header 1"));
    assert!(chunks[1].content.contains("## Header 2"));
}

#[test]
fn test_chunk_markdown_header_stack() {
    let content = "# Header 1\nSome text.\n\n## Header 2\nMore text.\n";
    let chunks = chunk_markdown(content).unwrap();
    let meta = chunks[1].metadata.as_ref().expect("second chunk carries metadata");
    let headers = meta.headers.as_ref().expect("metadata carries the heading stack");
    assert_eq!(headers.len(), 2);
    assert_eq!(headers[0], "Header 1");
    assert_eq!(headers[1], "Header 2");
}

#[test]
fn test_chunk_pdf_logic() {
    // page breaks divide extracted text into page-sized chunks
    let content = "Page 1 content\x0cPage 2 content\x0cPage 3 content";

    let mut chunks = Vec::new();
    let mut start = 0;
    for page in content.split('\x0c') {
        let len = page.len() as u64;
        chunks.push(Chunk {
            start,
            end: start + len,
            content: page.to_string(),
            metadata: None,
        });
        start += len + 1;
    }

    assert_eq!(chunks.len(), 3);
    assert_eq!(chunks[0].content, "Page 1 content");
    assert_eq!(chunks[1].content, "Page 2 content");
    assert_eq!(chunks[2].content, "Page 3 content");
}

#[test]
fn test_chunk_python() {
    let content = "\ndef hello():\n    print(\"Hello\")\n\nclass Greeter:\n    def greet(self):\n        return \"Hi\"\n";
    let chunks = chunk_python(content).unwrap();
    assert_eq!(chunks.len(), 2);
    assert!(chunks[0].content.contains("def hello"));
    assert!(chunks[1].content.contains("class Greeter"));
}

#[test]
fn test_chunk_javascript() {
    let content = "\nfunction greet() {\n    console.log(\"Hello\");\n}\n\nclass Person {\n    constructor(name) {\n        this.name = name;\n    }\n}\n";
    let chunks = chunk_javascript(content).unwrap();
    assert_eq!(chunks.len(), 2);
    assert!(chunks[0].content.contains("function greet"));
    assert!(chunks[1].content.contains("class Person"));
}

#[test]
fn test_chunk_typescript() {
    let content = "\ninterface User {\n    name: string;\n    age: number;\n}\n\nfunction getUser(): User {\n    return { name: \"Alice\", age: 30 };\n}\n\ntype ID = string | number;\n";
    let chunks = chunk_typescript(content).unwrap();
    assert!(chunks.len() >= 2);
    assert!(chunks.iter().any(|c| c.content.contains("interface User")));
    assert!(chunks.iter().any(|c| c.content.contains("function getUser")));
}

#[test]
fn test_chunk_go() {
    let content = "\npackage main\n\nfunc hello() {\n    fmt.Println(\"Hello\")\n}\n\ntype Person struct {\n    Name string\n    Age  int\n}\n\nfunc (p Person) Greet() string {\n    return \"Hi \" + p.Name\n}\n";
    let chunks = chunk_go(content).unwrap();
    assert!(chunks.len() >= 2);
    assert!(chunks.iter().any(|c| c.content.contains("func hello")));
    assert!(chunks.iter().any(|c| c.content.contains("type Person")));
}

#[test]
fn test_chunk_by_type_dispatch() {
    let md = chunk_by_type("# T\nbody\n", "md").unwrap();
    assert!(md[0].content.contains("# T"));
    let txt = chunk_by_type("a\n\nb", "log").unwrap();
    assert_eq!(txt.len(), 2);
    let rs = chunk_by_type("fn solo() {}\n", "rs").unwrap();
    assert!(rs[0].content.contains("fn solo"));
}

#[test]
fn test_chunk_rust_falls_back_to_text() {
    // only comments at top level: the structural pass yields nothing
    let content = "// a note\n\n// another note";
    let chunks = chunk_rust(content).unwrap();
    assert_eq!(chunks.len(), 2);
    assert_eq!(chunks[0].content, "// a note");
    assert_eq!(chunks[1].content, "// another note");
}

#[test]
fn test_chunk_markdown_crlf() {
    let content = "# A\r\nline one\r\n\r\n## B\r\nline two\r\n";
    let chunks = chunk_markdown(content).unwrap();
    assert_eq!(chunks.len(), 2);
    assert!(chunks[0].content.contains("# A"));
    assert!(!chunks[0].content.contains('\r'));
}

#[test]
fn test_chunk_text_trailing_separator() {
    let content = "solo\n\n";
    let chunks = chunk_text(content).unwrap();
    assert_eq!(chunks.len(), 1);
    assert_eq!(chunks[0].content, "solo");
    assert_eq!((chunks[0].start, chunks[0].end), (0, 4));
}

#[test]
fn test_chunk_pdf_pages() {
    // page breaks in extracted text divide it into paragraph chunks
    let text = "Page 1 content\x0cPage 2 content\x0cPage 3 content";
    let chunks = contextd::pdf::chunk_pdf(text).unwrap();
    assert_eq!(chunks.len(), 3);
    assert_eq!(chunks[0].content, "Page 1 content");
    assert_eq!(chunks[1].content, "Page 2 content");
    assert_eq!(chunks[2].content, "Page 3 content");
    // offsets are positions in the normalized text and strictly increase
    assert_eq!((chunks[0].start, chunks[0].end), (0, 14));
    assert_eq!((chunks[1].start, chunks[1].end), (16, 30));
    assert_eq!((chunks[2].start, chunks[2].end), (32, 46));
}

#[test]
fn test_chunk_pdf_trims_and_skips_blanks() {
    let text = "  padded  \n\n   \n\nnext";
    let chunks = contextd::pdf::chunk_pdf(text).unwrap();
    assert_eq!(chunks.len(), 2);
    assert_eq!(chunks[0].content, "padded");
    assert_eq!((chunks[0].start, chunks[0].end), (0, 10));
    assert_eq!(chunks[1].content, "next");
    assert_eq!(chunks[1].start, 17);
}

#[test]
fn test_chunk_markdown_offsets() {
    // each chunk starts at the byte offset of its first line
    let content = "# A\nx\n# B\n";
    let chunks = chunk_markdown(content).unwrap();
    assert_eq!(chunks.len(), 2);
    assert_eq!(chunks[0].start, 0);
    assert_eq!(chunks[0].content, "# A\nx\n");
    assert_eq!(chunks[0].end, 6);
    assert_eq!(chunks[1].start, 6);
    assert_eq!(chunks[1].content, "# B\n");
    assert_eq!(chunks[1].end, 10);
}

#[test]
fn test_chunk_markdown_preamble_offsets() {
    // text before the first heading forms a preamble chunk at offset zero
    let content = "intro\n\n# H\nbody\n";
    let chunks = chunk_markdown(content).unwrap();
    assert_eq!(chunks.len(), 2);
    assert_eq!(chunks[0].start, 0);
    assert_eq!(chunks[0].content, "intro\n\n");
    assert_eq!(chunks[1].start, 7);
}

#[test]
fn test_chunk_markdown_end_stays_in_content() {
    // no trailing newline: the span must still end inside the content
    let content = "# T\nbody";
    let chunks = chunk_markdown(content).unwrap();
    assert_eq!(chunks.len(), 1);
    assert_eq!(chunks[0].start, 0);
    assert_eq!(chunks[0].end, 8);
    assert_eq!(chunks[0].content, "# T\nbody\n");
}
