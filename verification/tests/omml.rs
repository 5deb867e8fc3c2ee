use docsy::omml::from_mathml;

#[test]
fn native_fraction_roots_scripts_and_matrix() {
    let xml = r#"<math xmlns="http://www.w3.org/1998/Math/MathML"><mfrac><msup><mi>x</mi><mn>2</mn></msup><msqrt><mi>y</mi></msqrt></mfrac><mtable><mtr><mtd><mn>1</mn></mtd><mtd><mn>2</mn></mtd></mtr></mtable></math>"#;
    let result = from_mathml(xml).unwrap();
    for tag in ["<m:oMath>", "<m:f>", "<m:sSup>", "<m:rad>", "<m:m>", "<m:num>", "<m:den>"] {
        assert!(result.contains(tag), "{tag}");
    }
    assert!(from_mathml("<math><mi>x</mi><mspace width=\"0.2em\"/><mo>&lt;</mo><mn>2</mn></math>")
        .unwrap()
        .contains("&lt;"));
}

#[test]
fn unsupported_or_untrusted_math_uses_image_fallback() {
    assert!(from_mathml("<math><menclose notation=\"box\"><mi>x</mi></menclose></math>").is_none());
    assert!(from_mathml("<math><mi mathvariant=\"double-struck\">R</mi></math>").is_none());
    assert!(from_mathml("<!DOCTYPE math [<!ENTITY x SYSTEM 'file:///etc/passwd'>]><math>&x;</math>").is_none());
    assert!(from_mathml("<math><mfrac><mi>x</mi></mfrac></math>").is_none());
}

#[test]
fn exact_omml_of_simple_expressions() {
    let run = |t: &str, plain: bool| {
        format!(
            "<m:r>{}<w:rPr><w:rFonts w:ascii=\"Cambria Math\" w:hAnsi=\"Cambria Math\"/></w:rPr><m:t xml:space=\"preserve\">{}</m:t></m:r>",
            if plain { "<m:rPr><m:sty m:val=\"p\"/></m:rPr>" } else { "" },
            t
        )
    };
    assert_eq!(
        from_mathml("<math><msub><mi>a</mi><mn>1</mn></msub></math>").unwrap(),
        format!("<m:oMath><m:sSub><m:e>{}</m:e><m:sub>{}</m:sub></m:sSub></m:oMath>", run("a", false), run("1", true))
    );
    assert_eq!(
        from_mathml("<math><mi mathvariant=\"bold\">v</mi></math>").unwrap(),
        format!("<m:oMath>{}</m:oMath>", run("v", false).replace("<w:rPr>", "<w:rPr><w:b/>"))
    );
    assert_eq!(
        from_mathml("<math><mfenced open=\"[\"><mn>2</mn></mfenced></math>").unwrap(),
        format!(
            "<m:oMath><m:d><m:dPr><m:begChr m:val=\"[\"/><m:endChr m:val=\")\"/></m:dPr><m:e>{}</m:e></m:d></m:oMath>",
            run("2", true)
        )
    );
    assert!(from_mathml("<mrow><mi>x</mi></mrow>").is_none());
    assert!(from_mathml("<math><mi>x</mi></math><math/>").is_none());
    assert!(from_mathml(&format!("<math>{}</math>", "x".repeat(600_000))).is_none());
    assert!(from_mathml("<math><mtable><mtr><mtd><mn>1</mn></mtd></mtr><mtr></mtr></mtable></math>").is_none());
}
