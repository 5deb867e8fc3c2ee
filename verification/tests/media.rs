use sha2::{Digest, Sha256};
use docsy::media::{prepare, prepare_checked, MediaError, MAX_MARKDOWN_BYTES};

#[test]
fn parser_preserves_code_currency_and_escaped_delimiters() {
    let text = "正文 $x^2$ 与 \\(a+b\\)。\n\n$$\\frac{1}{2}$$\n\n\\[x+y\\]\n\n```mermaid\ngraph LR\n A-->B\n```\n\n`$code$`\n\n```txt\n$not_math$\n\\(not_math\\)\n```\n\n价格 \\$5 和 \\$10\n\\\\(literal\\\\)";
    let plan = prepare(text);
    let currency = prepare("价格 $5 和 $10，预算 US$20");
    assert!(currency.items.is_empty());
    assert_eq!(plan.items.len(), 5);
    assert_eq!(plan.items[0].source, "x^2");
    assert_eq!(plan.items[1].source, "a+b");
    assert_eq!(plan.items[4].kind, "mermaid");
    for (index, item) in plan.items.iter().enumerate() {
        assert_eq!(item.id, format!("docsy-media-{index}"));
    }
    assert_eq!(plan.items[2].source, "\\frac{1}{2}");
    assert!(plan.items[2].display);
    assert_eq!(plan.items[3].source, "x+y");
    assert!(plan.items[3].display);
    assert!(!plan.items[1].display);
    assert_eq!(&text[plan.items[1].range.clone()], "\\(a+b\\)");
    assert_eq!(plan.items[4].source, "graph LR\n A-->B\n");
}

#[test]
fn multilingual_offsets_text_and_currency_survive_export() {
    let body = "Français café cœur e\u{301} — 日本語 かな カナ — 한국어 한글 😀";
    let text = format!("{body} $x^2$ fin\n\n\\[y+1\\]\n\n```mermaid\ngraph LR\nA[日本語]-->B[한국어]\n```\n\nPrix $5 et $10 ; 価格 US$20 ; 가격 ₩2000");
    let plan = prepare(&text);
    assert_eq!(plan.items.len(), 3);
    assert_eq!(plan.items[0].source, "x^2");
    assert_eq!(&text[plan.items[1].range.clone()], "\\[y+1\\]");
    assert_eq!(plan.items[2].kind, "mermaid");
}

#[test]
fn conversion_enforces_limits_without_prepare_command() {
    let big = "x".repeat(MAX_MARKDOWN_BYTES + 1);
    assert!(matches!(prepare_checked(&big), Err(MediaError::TextTooLarge)));
    let many = "$x$ ".repeat(501);
    let err = prepare_checked(&many).err().unwrap();
    assert_eq!(err, MediaError::TooManyItems);
    assert!(err.message().contains("过多"));
    let long = format!("$${}$$", "x".repeat(50_001));
    let err = prepare_checked(&long).err().unwrap();
    assert!(err.message().contains("过长"));
    assert!(prepare_checked(&"$x$ ".repeat(500)).is_ok());
}

#[test]
fn source_hash_is_sha256_hex() {
    assert_eq!(
        prepare("").source_hash,
        "e3b0c44298fc1c149afbf4c8996fb92427ae41e4649b934ca495991b7852b855"
    );
    assert_eq!(
        prepare("abc").source_hash,
        "ba7816bf8f01cfea414140de5dae2223b00361a396177a9cb410ff61f20015ad"
    );
}

#[test]
fn escaped_and_protected_delimiters_are_skipped() {
    assert!(prepare("\\\\(not math\\\\)").items.is_empty());
    assert!(prepare("`\\(code\\)`").items.is_empty());
    assert!(prepare("\\(   \\)").items.is_empty());
    let plan = prepare("a \\(b\\) c \\[d\\]");
    let sources: Vec<&str> = plan.items.iter().map(|i| i.source.as_str()).collect();
    assert_eq!(sources, vec!["b", "d"]);
    assert_eq!(plan.items[0].range, 2..7);
    let upper = prepare("```MERMAID extra\ngraph\n```");
    assert_eq!(upper.items.len(), 1);
    assert_eq!(upper.items[0].kind, "mermaid");
    assert!(prepare("```text\ngraph\n```").items.is_empty());
}

#[test]
fn equation_token_names_digest_and_id() {
    let text = "公式 $x$";
    let token = docsy::media::unused_equation_token(text, "docsy-media-0");
    assert_eq!(token, format!("DOCSYOMML{:x}docsymedia0END", Sha256::digest(text.as_bytes())));
    assert!(!text.contains(&token));
}
