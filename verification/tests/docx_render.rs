use docsy::docx_markdown::ExportedImage;
use docsy::docx_render::{
    collect_image_rids, exported_images, image_extension, render_document, render_paragraph, BoxItem, CellItem,
    ListState, ParaItem, RunItem, WordBlock, WordCell, WordContext, WordDocument, WordLink, WordParagraph,
    WordRun, WordTable,
};

fn run(text: &str) -> WordRun {
    WordRun {
        bold: false,
        italic: false,
        strike: false,
        double_strike: false,
        ascii_font: None,
        underline: None,
        children: vec![RunItem::Text(text.to_string())],
    }
}

fn bold(mut r: WordRun) -> WordRun {
    r.bold = true;
    r
}

fn paragraph(items: Vec<ParaItem>) -> WordParagraph {
    WordParagraph { style: None, numbering: None, bottom_border: false, shading_fill: None, children: items }
}

fn para(text: &str) -> WordParagraph {
    paragraph(vec![ParaItem::Run(run(text))])
}

fn context() -> WordContext {
    WordContext {
        heading_styles: vec![],
        hyperlinks: vec![],
        images: vec![],
        numberings: vec![],
        abstract_levels: vec![],
        exported: vec![],
    }
}

fn cell(paragraphs: Vec<WordParagraph>) -> WordCell {
    WordCell {
        grid_span: None,
        vertical_merge: None,
        contents: paragraphs.into_iter().map(CellItem::Paragraph).collect(),
    }
}

fn markdown(blocks: Vec<WordBlock>, context: WordContext) -> String {
    render_document(&WordDocument { blocks, context })
}

#[test]
fn extracts_heading_and_inline_marks() {
    let mut ctx = context();
    ctx.heading_styles = vec![("Heading1".to_string(), 1), ("Heading2".to_string(), 2)];
    let mut h1 = para("证据目录");
    h1.style = Some("Heading1".to_string());
    let mut h2 = para("第二节");
    h2.style = Some("Heading2".to_string());
    let mixed = paragraph(vec![
        ParaItem::Run(run("普通")),
        ParaItem::Run(bold(run("加粗"))),
        ParaItem::Run(bold(run("再加粗"))),
    ]);
    let mut italic = run("斜体");
    italic.italic = true;
    let mut strike = run("删除");
    strike.strike = true;
    let mut code = run("代码");
    code.ascii_font = Some("Consolas".to_string());
    let marks = paragraph(vec![ParaItem::Run(italic), ParaItem::Run(strike), ParaItem::Run(code)]);
    let whole = paragraph(vec![ParaItem::Run(bold(run("整段加粗")))]);
    let md = markdown(
        vec![
            WordBlock::Paragraph(h1),
            WordBlock::Paragraph(h2),
            WordBlock::Paragraph(mixed),
            WordBlock::Paragraph(marks),
            WordBlock::Paragraph(whole),
        ],
        ctx,
    );
    assert!(md.contains("# 证据目录"), "md:\n{md}");
    assert!(md.contains("## 第二节"), "md:\n{md}");
    assert!(md.contains("普通**加粗再加粗**"), "md:\n{md}");
    assert!(!md.contains("****"), "md:\n{md}");
    assert!(md.contains("*斜体*"), "md:\n{md}");
    assert!(md.contains("~~删除~~"), "md:\n{md}");
    assert!(md.contains("`代码`"), "md:\n{md}");
    assert!(md.contains("**整段加粗**"), "md:\n{md}");
    assert!(!md.contains("# **整段加粗**"), "md:\n{md}");
}

#[test]
fn extracts_lists_with_counters() {
    let mut ctx = context();
    ctx.numberings = vec![(1, 1), (2, 2)];
    ctx.abstract_levels =
        vec![(1, vec![(0, "bullet".to_string())]), (2, vec![(0, "decimal".to_string())])];
    let item = |text: &str, id: usize| {
        let mut p = para(text);
        p.numbering = Some((id, Some(0)));
        WordBlock::Paragraph(p)
    };
    let md = markdown(
        vec![
            item("无序一", 1),
            item("无序二", 1),
            WordBlock::Paragraph(para("中间普通段落")),
            item("有序一", 2),
            item("有序二", 2),
        ],
        ctx,
    );
    assert!(md.contains("- 无序一"), "md:\n{md}");
    assert!(md.contains("- 无序二"), "md:\n{md}");
    assert!(md.contains("1. 有序一"), "md:\n{md}");
    assert!(md.contains("2. 有序二"), "md:\n{md}");
}

#[test]
fn extracts_table_and_merges_cell_lines() {
    let header = vec![cell(vec![para("列一")]), cell(vec![para("列二")])];
    let body = vec![cell(vec![para("第一行"), para("第二行")]), cell(vec![para("含|竖线")])];
    let md = markdown(vec![WordBlock::Table(WordTable { rows: vec![header, body] })], context());
    assert!(md.contains("| 列一 | 列二 |"), "md:\n{md}");
    assert!(md.contains("| --- | --- |"), "md:\n{md}");
    assert!(md.contains("| 第一行 第二行 | 含\\|竖线 |"), "md:\n{md}");
}

#[test]
fn extracts_underline_as_inline_html() {
    let underline = |mut r: WordRun| {
        r.underline = Some("single".to_string());
        r
    };
    let first = paragraph(vec![
        ParaItem::Run(run("普通")),
        ParaItem::Run(underline(run("下划线"))),
        ParaItem::Run(underline(run("再加下划线"))),
    ]);
    let second = paragraph(vec![ParaItem::Run(underline(bold(run("粗下划"))))]);
    let md = markdown(vec![WordBlock::Paragraph(first), WordBlock::Paragraph(second)], context());
    assert!(md.contains("普通<u>下划线再加下划线</u>"), "md:\n{md}");
    assert!(md.contains("<u>**粗下划**</u>"), "md:\n{md}");
}

#[test]
fn extracts_merged_cells() {
    let mut spanning = cell(vec![para("横向合并")]);
    spanning.grid_span = Some(2);
    let row1 = vec![spanning, cell(vec![para("列三")])];
    let mut start = cell(vec![para("纵向起点")]);
    start.vertical_merge = Some("restart".to_string());
    let row2 = vec![start, cell(vec![para("占位")]), cell(vec![para("数据一")])];
    let mut cont = cell(vec![para("不应出现")]);
    cont.vertical_merge = Some("continue".to_string());
    let row3 = vec![cont, cell(vec![para("占位")]), cell(vec![para("数据二")])];
    let md = markdown(vec![WordBlock::Table(WordTable { rows: vec![row1, row2, row3] })], context());
    assert!(md.contains("| 横向合并 |  | 列三 |"), "md:\n{md}");
    assert!(md.contains("|  | 占位 | 数据二 |"), "md:\n{md}");
    assert!(!md.contains("不应出现"), "md:\n{md}");
    assert!(md.contains("| 纵向起点 | 占位 | 数据一 |"), "md:\n{md}");
}

#[test]
fn extracts_textbox_content_as_paragraph_text() {
    let text_box = vec![
        BoxItem::Paragraph(vec![ParaItem::Run(run("框内文字"))]),
        BoxItem::Paragraph(vec![ParaItem::Run(bold(run("第二段")))]),
    ];
    let mut r = run("");
    r.children = vec![RunItem::TextBox(text_box)];
    let p = paragraph(vec![ParaItem::Run(r)]);
    let mut state = ListState { counters: vec![], last_list_num: None };
    let md = render_paragraph(&p, &context(), &mut state).unwrap();
    assert!(md.contains("框内文字"), "md:\n{md}");
    assert!(md.contains("**第二段**"), "md:\n{md}");
}

#[test]
fn links_pictures_breaks_and_code_blocks() {
    let mut ctx = context();
    ctx.hyperlinks = vec![("rId5".to_string(), "https://example.com".to_string())];
    ctx.images = vec![("rId7".to_string(), "media/image1.png".to_string())];
    ctx.exported = vec![(
        "rId8".to_string(),
        ExportedImage { name: "image1".to_string(), rel_path: "合同_assets/image1.png".to_string() },
    )];
    let mut linked = run("链接");
    linked.underline = Some("single".to_string());
    let link = WordLink { external_rid: Some("rId5".to_string()), children: vec![ParaItem::Run(linked)] };
    let mut pictures = run("");
    pictures.children = vec![
        RunItem::Picture("rId8".to_string()),
        RunItem::Break,
        RunItem::Picture("rId7".to_string()),
        RunItem::Picture("rId9".to_string()),
    ];
    let mut code1 = para("fn main() {}");
    code1.shading_fill = Some("f5f5f5".to_string());
    let mut code2 = para("let x = 1;");
    code2.shading_fill = Some("F5F5F5".to_string());
    let mut rule = paragraph(vec![]);
    rule.bottom_border = true;
    let blocks = vec![
        WordBlock::Paragraph(paragraph(vec![ParaItem::Hyperlink(link)])),
        WordBlock::Paragraph(paragraph(vec![ParaItem::Run(pictures)])),
        WordBlock::Paragraph(code1),
        WordBlock::Paragraph(code2),
        WordBlock::Paragraph(rule),
    ];
    let rids = collect_image_rids(&blocks);
    assert_eq!(rids, vec!["rId8", "rId7", "rId9"]);
    let md = markdown(blocks, ctx);
    assert_eq!(
        md,
        "[链接](https://example.com)\n\n![image1](合同_assets/image1.png)  \n![image](media/image1.png)![image]\n\n```\nfn main() {}\nlet x = 1;\n```\n\n---\n"
    );
}

#[test]
fn exported_images_are_numbered_in_order() {
    let pictures = vec![("rId3".to_string(), "png".to_string()), ("rId1".to_string(), "jpeg".to_string())];
    let out = exported_images("合同", &pictures);
    assert_eq!(out.len(), 2);
    assert_eq!(out[0].0, "rId3");
    assert_eq!(out[0].1.name, "image1");
    assert_eq!(out[0].1.rel_path, "合同_assets/image1.png");
    assert_eq!(out[1].1.rel_path, "合同_assets/image2.jpeg");
    assert_eq!(image_extension("media/image1.PNG"), "png");
    assert_eq!(image_extension("media/image1"), "png");
}
