use chidori_core::cells::{CellTypes, CodeCell, SupportedLanguage, TextRange};
use chidori_core::code_cell::{code_cell, DependencyReport};
use chidori_core::md::{
    extract_code_blocks, interpret_markdown_code_block, parsed_file_from_source,
    should_load_extension, split_frontmatter, InterpretError, MarkdownCodeBlock,
};
use chidori_core::operation::InputType;

fn example_document() -> String {
    let mut s = String::new();
    s.push_str("Generation\n\n");
    s.push_str("```python\ny = 20\ndef add(a, b):\n    return a + b\n```\n\n");
    s.push_str("```javascript\n---\na: 2\n---\nconst x = add(2,2);\n```\n\n");
    s.push_str("```prompt (multi_prompt)\nMultiply {y} times {x}\n```\n\n");
    s.push_str("```html (named_html)\n<div>Example</div>\n```\n");
    s
}

#[test]
fn test_extract_markdown() {
    let extracted = extract_code_blocks(&example_document());
    assert_eq!(extracted.len(), 4);

    assert_eq!(extracted[0].tag, "python");
    assert_eq!(extracted[0].name, None);
    assert_eq!(extracted[0].body, "y = 20\ndef add(a, b):\n    return a + b");
    assert_eq!(extracted[0].range, TextRange { start: 15, end: 61 });

    assert_eq!(extracted[1].tag, "javascript");
    assert_eq!(extracted[1].name, None);
    assert_eq!(extracted[1].body, "---\na: 2\n---\nconst x = add(2,2);");
    assert_eq!(extracted[1].range, TextRange { start: 69, end: 113 });

    assert_eq!(extracted[2].tag, "prompt");
    assert_eq!(extracted[2].name, Some("multi_prompt".to_string()));
    assert_eq!(extracted[2].body, "Multiply {y} times {x}");
    assert_eq!(extracted[2].range, TextRange { start: 121, end: 166 });

    assert_eq!(extracted[3].tag, "html");
    assert_eq!(extracted[3].name, Some("named_html".to_string()));
    assert_eq!(extracted[3].body, "<div>Example</div>");
    assert_eq!(extracted[3].range, TextRange { start: 174, end: 211 });
}

#[test]
fn test_extract_ranges_are_byte_offsets() {
    // A two-byte character before the fences shifts the recorded range by
    // one relative to the character positions.
    let blocks = extract_code_blocks("\u{e9}```a\nb```");
    assert_eq!(blocks.len(), 1);
    assert_eq!(blocks[0].tag, "a");
    assert_eq!(blocks[0].body, "b");
    assert_eq!(blocks[0].range, TextRange { start: 5, end: 8 });
}

#[test]
fn test_extract_handles_crlf_and_unclosed_fences() {
    let blocks = extract_code_blocks("```py\r\na = 1\r\n```\n```dangling");
    assert_eq!(blocks.len(), 1);
    assert_eq!(blocks[0].tag, "py");
    assert_eq!(blocks[0].body, "a = 1");
}

#[test]
fn test_split_frontmatter_cases() {
    let (fm, body) = split_frontmatter("---\na: 2\n---\nrest").unwrap();
    assert_eq!(fm, "a: 2\n");
    assert_eq!(body, "rest");

    let (fm, body) = split_frontmatter("no frontmatter here").unwrap();
    assert_eq!(fm, "");
    assert_eq!(body, "no frontmatter here");

    let err = split_frontmatter("---\nnever closed").unwrap_err();
    assert!(matches!(err, InterpretError::FrontmatterSplitError(_)));
}

fn block(tag: &str, name: Option<&str>, body: &str) -> MarkdownCodeBlock {
    MarkdownCodeBlock {
        tag: tag.to_string(),
        name: name.map(|n| n.to_string()),
        body: body.to_string(),
        range: TextRange { start: 3, end: 9 },
    }
}

#[test]
fn test_interpret_code_block() {
    let b = block("python", Some("cellname"), "x = 1");
    let cell = interpret_markdown_code_block(&b, Some("doc.md".to_string())).unwrap().unwrap();
    match cell {
        CellTypes::Code(code, range) => {
            assert!(matches!(code.language, SupportedLanguage::PyO3));
            assert_eq!(code.source_code, "x = 1");
            assert_eq!(code.name, Some("cellname".to_string()));
            assert!(code.function_invocation.is_none());
            let backing = code.backing_file_reference.unwrap();
            assert_eq!(backing.path, "doc.md");
            assert_eq!(backing.text_range, Some(TextRange { start: 3, end: 9 }));
            assert_eq!(range, TextRange { start: 3, end: 9 });
        },
        _ => panic!("expected a code cell"),
    }

    let b = block("ts", None, "let x = 1;");
    let cell = interpret_markdown_code_block(&b, None).unwrap().unwrap();
    match cell {
        CellTypes::Code(code, _) => {
            assert!(matches!(code.language, SupportedLanguage::Deno));
            assert!(code.backing_file_reference.is_none());
        },
        _ => panic!("expected a code cell"),
    }
}

#[test]
fn test_interpret_prompt_block() {
    let b = block("prompt", Some("p"), "---\nmodel: best\n---\nMultiply {y} by {x}");
    let cell = interpret_markdown_code_block(&b, None).unwrap().unwrap();
    match cell {
        CellTypes::Prompt(prompt, _) => {
            let chidori_core::cells::LLMPromptCell::Chat {
                is_function_invocation,
                name,
                complete_body,
                req,
                ..
            } = prompt;
            assert!(!is_function_invocation);
            assert_eq!(name, Some("p".to_string()));
            assert_eq!(complete_body, "---\nmodel: best\n---\nMultiply {y} by {x}");
            assert_eq!(req, "Multiply {y} by {x}");
        },
        _ => panic!("expected a prompt cell"),
    }
}

#[test]
fn test_interpret_prompt_bad_yaml() {
    let b = block("prompt", None, "---\n[\n---\nrequest");
    match interpret_markdown_code_block(&b, None) {
        Err(InterpretError::YamlDeserializeError(_)) => {},
        _ => panic!("expected a yaml deserialize error"),
    }
}

#[test]
fn test_interpret_template_and_unknown() {
    let b = block("template", None, "<div>{x}</div>");
    let cell = interpret_markdown_code_block(&b, None).unwrap().unwrap();
    match cell {
        CellTypes::Template(t, _) => {
            assert_eq!(t.body, "<div>{x}</div>");
        },
        _ => panic!("expected a template cell"),
    }

    let b = block("mystery", None, "???");
    assert!(interpret_markdown_code_block(&b, None).unwrap().is_none());
}

#[test]
fn test_parsed_file_from_source() {
    let source = example_document();
    let parsed = parsed_file_from_source(Some("core.md".to_string()), source.clone());
    assert_eq!(parsed.filename, Some("core.md".to_string()));
    assert_eq!(parsed.code, Some(source));
    assert_eq!(parsed.num_lines, 22);
    assert_eq!(parsed.result.len(), 4);
}

#[test]
fn test_should_load_extension() {
    assert!(should_load_extension("md"));
    assert!(should_load_extension("py"));
    assert!(should_load_extension("js"));
    assert!(should_load_extension("ts"));
    assert!(!should_load_extension("rs"));
    assert!(!should_load_extension(""));
}

#[test]
fn test_code_cell_compiles_report() {
    let cell = CodeCell {
        backing_file_reference: None,
        name: Some("mycell".to_string()),
        language: SupportedLanguage::PyO3,
        source_code: "y = x".to_string(),
        function_invocation: None,
    };
    let report = DependencyReport {
        cell_depended_values: vec!["x".to_string(), "x".to_string(), "w".to_string()],
        cell_exposed_values: vec!["y".to_string()],
        triggerable_functions: vec!["f".to_string()],
    };
    let node = code_cell(&cell, &report);
    assert_eq!(node.name, Some("mycell".to_string()));
    assert_eq!(node.dependency_count, 2);
    assert_eq!(node.input_signature.globals.len(), 2);
    assert_eq!(node.input_signature.globals[0].0, "x");
    assert_eq!(node.input_signature.globals[1].0, "w");
    assert!(matches!(node.input_signature.globals[0].1.ty, Some(InputType::String)));
    assert!(node.input_signature.globals[0].1.default.is_none());
    assert_eq!(node.output_signature.globals.len(), 1);
    assert_eq!(node.output_signature.globals[0].0, "y");
    assert_eq!(node.output_signature.functions.len(), 1);
    assert_eq!(node.output_signature.functions[0].0, "f");
    assert!(matches!(node.output_signature.functions[0].1.ty, Some(InputType::Function)));
}

#[test]
fn test_code_cell_starlark_passthrough_shape() {
    let cell = CodeCell {
        backing_file_reference: None,
        name: None,
        language: SupportedLanguage::Starlark,
        source_code: "x".to_string(),
        function_invocation: None,
    };
    let report = DependencyReport {
        cell_depended_values: vec!["ignored".to_string()],
        cell_exposed_values: vec![],
        triggerable_functions: vec![],
    };
    let node = code_cell(&cell, &report);
    assert_eq!(node.dependency_count, 0);
    assert!(node.input_signature.globals.is_empty());
    assert!(node.output_signature.globals.is_empty());
    assert!(node.output_signature.functions.is_empty());
}
