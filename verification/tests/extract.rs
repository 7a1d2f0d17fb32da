use reader::extract::epub;
use reader::extract::epub::{
    assemble_book, meta_text, opf_path, section_from_elements, section_from_xhtml, spine_paths,
    Document,
};
use reader::extract::html::HtmlElement;
use reader::extract::paragraphs::group_lines;
use reader::extract::paths::{file_stem, normalize_path, percent_decode};
use reader::extract::pdf;
use reader::extract::pdf::{
    converter_args, extract_direct, next_conversion, pages_of_output, strip_bad_chars, temp_stem,
    unique_suffix, Conversion,
};
use reader::extract::xml::XmlNode;
use reader::extract::{
    detect_kind, extract, finish, ExtractError, ExtractOptions, Extracted, Kind, Paragraph,
    Section,
};
use std::io::{Cursor, Write};
use zip::write::SimpleFileOptions;

// -------------------------------------------------------------------------------- epub

fn archive(entries: &[(&str, &[u8])]) -> Vec<u8> {
    let mut buf = Cursor::new(Vec::new());
    {
        let mut w = zip::ZipWriter::new(&mut buf);
        for (name, data) in entries {
            w.start_file(*name, SimpleFileOptions::default()).unwrap();
            w.write_all(data).unwrap();
        }
        w.finish().unwrap();
    }
    buf.into_inner()
}

const CONTAINER: &str = r#"<?xml version="1.0"?><container xmlns="urn:oasis:names:tc:opendocument:xmlns:container"><rootfiles><rootfile full-path="OEBPS/content.opf" media-type="application/oebps-package+xml"/></rootfiles></container>"#;

const PACKAGE: &str = r#"<?xml version="1.0"?><package xmlns="http://www.idpf.org/2007/opf" xmlns:dc="http://purl.org/dc/elements/1.1/"><metadata><dc:title>Livro de Teste</dc:title><dc:language>pt-BR</dc:language></metadata><manifest><item id="c1" href="cap%201.xhtml" media-type="application/xhtml+xml"/><item id="c2" href="cap2.xhtml" media-type="application/xhtml+xml"/></manifest><spine><itemref idref="c1"/><itemref idref="c2"/></spine></package>"#;

fn tiny_epub() -> Vec<u8> {
    archive(&[
        ("mimetype", b"application/epub+zip"),
        ("META-INF/container.xml", CONTAINER.as_bytes()),
        ("OEBPS/content.opf", PACKAGE.as_bytes()),
        (
            "OEBPS/cap 1.xhtml",
            r#"<html><head><title>x</title></head><body><h1>Capítulo   Um</h1><p>Primeiro <em>parágrafo</em>.</p><ul><li><p>Item com p dentro.</p></li></ul><script>ignorar()</script></body></html>"#.as_bytes(),
        ),
        (
            "OEBPS/cap2.xhtml",
            r#"<html><body><blockquote>Uma citação.</blockquote></body></html>"#.as_bytes(),
        ),
    ])
}

#[test]
fn extrai_metadata_e_secoes() {
    let ex = epub::extract(&tiny_epub()).unwrap();
    assert_eq!(ex.title, "Livro de Teste");
    assert_eq!(ex.lang, "pt-BR");
    assert_eq!(ex.sections.len(), 2);
    let s0 = &ex.sections[0];
    assert_eq!(s0.title, "Capítulo Um");
    let texts: Vec<&str> = s0.paragraphs.iter().map(|p| p.text.as_str()).collect();
    assert_eq!(texts, vec!["Capítulo Um", "Primeiro parágrafo.", "Item com p dentro."]);
    assert_eq!(s0.paragraphs[0].kind, "h1");
    assert_eq!(s0.paragraphs[2].kind, "p");
    assert_eq!(ex.sections[1].paragraphs[0].kind, "blockquote");
    assert_eq!(ex.sections[1].title, "Seção 2");
}

#[test]
fn normaliza_caminhos() {
    assert_eq!(normalize_path("OEBPS/../text/./a.xhtml"), "text/a.xhtml");
    assert_eq!(normalize_path("OEBPS/a.xhtml"), "OEBPS/a.xhtml");
}

#[test]
fn paths_never_leave_their_root() {
    assert_eq!(normalize_path("../../a//b/"), "a/b");
    assert_eq!(normalize_path(".."), "");
    let once = normalize_path("/x/./../y/..z/");
    assert_eq!(once, "y/..z");
    assert_eq!(normalize_path(&once), once);
}

#[test]
fn percent_sequences_are_decoded() {
    assert_eq!(percent_decode("cap%201.xhtml"), "cap 1.xhtml");
    assert_eq!(percent_decode("%C3%a1%2"), "á%2");
    assert_eq!(percent_decode("%zz%ff"), "%zz\u{fffd}");
}

fn message(bytes: &[u8]) -> String {
    epub::extract(bytes).unwrap_err().message()
}

#[test]
fn each_epub_error_has_its_cause() {
    let bad: &[u8] = b"\xff\xfe";
    let no_zip = zip::ZipArchive::new(Cursor::new(b"nada")).err().unwrap();
    assert_eq!(message(b"nada"), format!("abrindo zip do EPUB: {no_zip}"));
    assert!(message(b"nada").len() > "abrindo zip do EPUB: ".len());
    let missing = "specified file not found in archive";
    assert_eq!(
        message(&archive(&[])),
        format!("META-INF/container.xml não existe no EPUB: {missing}")
    );
    let c = "META-INF/container.xml";
    assert_eq!(
        message(&archive(&[(c, bad)])),
        "lendo META-INF/container.xml: stream did not contain valid UTF-8"
    );
    let xml = |s: &str| roxmltree::Document::parse(s).unwrap_err();
    assert_eq!(message(&archive(&[(c, b"<a>")])), format!("container.xml: {}", xml("<a>")));
    assert_eq!(message(&archive(&[(c, b"<a/>")])), "container.xml sem rootfile");
    let ok = (c, CONTAINER.as_bytes());
    assert_eq!(
        message(&archive(&[ok])),
        format!("OEBPS/content.opf não existe no EPUB: {missing}")
    );
    assert_eq!(
        message(&archive(&[ok, ("OEBPS/content.opf", b"<")])),
        format!("OPF: {}", xml("<"))
    );
    let empty = archive(&[ok, ("OEBPS/content.opf", PACKAGE.as_bytes())]);
    assert_eq!(message(&empty), "EPUB sem texto legível no spine");
}

fn node(name: &str, attributes: &[(&str, &str)], text: Option<&str>) -> XmlNode {
    XmlNode {
        name: name.to_string(),
        attributes: attributes.iter().map(|(a, b)| (a.to_string(), b.to_string())).collect(),
        text: text.map(|t| t.to_string()),
    }
}

#[test]
fn package_nodes_lead_to_paths() {
    let nodes = vec![
        node("title", &[], Some(" Um \n livro ")),
        node("title", &[], Some("outro")),
        node("item", &[("id", "a"), ("href", "velho.xhtml")], None),
        node("item", &[("id", "a"), ("href", "../t/n%20o.xhtml#p1")], None),
        node("item", &[("id", "b")], None),
        node("itemref", &[("idref", "b")], None),
        node("itemref", &[("idref", "a")], None),
        node("itemref", &[], None),
        node("rootfile", &[("full-path", "x/y.opf"), ("full-path", "z")], None),
    ];
    assert_eq!(meta_text(&nodes, "title"), "Um livro");
    assert_eq!(meta_text(&nodes, "language"), "");
    assert_eq!(spine_paths("OEBPS/content.opf", &nodes), vec!["t/n o.xhtml"]);
    assert_eq!(spine_paths("content.opf", &nodes), vec!["t/n o.xhtml"]);
    assert_eq!(opf_path(&nodes), Some("x/y.opf".to_string()));
    assert_eq!(opf_path(&nodes[..3]), None);
}

fn element(name: &str, ancestors: &[&str], inside: &[&str], text: &str) -> HtmlElement {
    HtmlElement {
        name: name.to_string(),
        ancestors: ancestors.iter().map(|a| Some(a.to_string())).collect(),
        inside: inside.iter().map(|a| a.to_string()).collect(),
        text: text.to_string(),
    }
}

#[test]
fn elements_become_a_section() {
    let blocks = vec![
        element("p", &["table", "body"], &[], "em tabela"),
        element("li", &["body"], &["p"], "com p"),
        element("p", &["li", "body"], &[], " com \n p "),
        element("p", &["body"], &[], "  "),
        element("h2", &["body"], &[], "Título"),
        element("h1", &["body"], &[], "Outro"),
    ];
    let s = section_from_elements(&blocks, &[], 3).unwrap();
    assert_eq!(s.title, "Título");
    let got: Vec<(&str, &str)> =
        s.paragraphs.iter().map(|p| (p.kind.as_str(), p.text.as_str())).collect();
    assert_eq!(got, vec![("p", "com p"), ("h2", "Título"), ("h1", "Outro")]);

    let title = vec![element("title", &[], &[], " Do documento ")];
    let s = section_from_elements(&blocks[2..3], &title, 3).unwrap();
    assert_eq!(s.title, "Do documento");
    let s = section_from_elements(&blocks[2..3], &[element("title", &[], &[], " ")], 12).unwrap();
    assert_eq!(s.title, "Seção 12");
    assert!(section_from_elements(&blocks[..2], &title, 1).is_none());
}

#[test]
fn documents_become_a_book() {
    let nodes = vec![
        node("title", &[], Some("Um  livro")),
        node("language", &[], Some(" pt ")),
    ];
    let doc = |text: &str| {
        Some(Document { blocks: vec![element("p", &["body"], &[], text)], titles: vec![] })
    };
    let ex = assemble_book(&nodes, &[doc("a"), None, doc(" "), doc("b")]).unwrap();
    assert_eq!((ex.title.as_str(), ex.lang.as_str()), ("Um livro", "pt"));
    let got: Vec<(&str, &str)> = ex
        .sections
        .iter()
        .map(|s| (s.title.as_str(), s.paragraphs[0].text.as_str()))
        .collect();
    assert_eq!(got, vec![("Seção 1", "a"), ("Seção 2", "b")]);
    assert!(matches!(assemble_book(&nodes, &[doc(" "), None]), Err(ExtractError::NoText)));
    assert!(matches!(assemble_book(&nodes, &[]), Err(ExtractError::NoText)));
}

#[test]
fn markup_becomes_a_section() {
    let html = "<title> T </title><ul><li>um<li>dois <b>três</b></ul><nav><p>não</p></nav>";
    let s = section_from_xhtml(html, 7).unwrap();
    assert_eq!(s.title, "T");
    let got: Vec<(&str, &str)> =
        s.paragraphs.iter().map(|p| (p.kind.as_str(), p.text.as_str())).collect();
    assert_eq!(got, vec![("li", "um"), ("li", "dois três")]);
    assert_eq!(section_from_xhtml("<p>x", 7).unwrap().title, "Seção 7");
    assert!(section_from_xhtml("<div>x</div>", 7).is_none());
}

// -------------------------------------------------------------------------- paragraphs

#[test]
fn junta_linhas_e_fecha_em_pontuacao() {
    let lines = [
        "Era uma vez um leitor que gostava de livros",
        "longos e de café. Ele lia todos os dias.",
        "No dia seguinte, o leitor voltou.",
    ];
    let p = group_lines(&lines);
    assert_eq!(p.len(), 2);
    assert_eq!(
        p[0],
        "Era uma vez um leitor que gostava de livros longos e de café. Ele lia todos os dias."
    );
    assert_eq!(p[1], "No dia seguinte, o leitor voltou.");
}

#[test]
fn hifen_no_fim_emenda_sem_espaco() {
    let lines = [
        "Este é um texto com uma palavra hifeni-",
        "zada no meio da frase que continua aqui.",
    ];
    let p = group_lines(&lines);
    assert_eq!(p.len(), 1);
    assert!(p[0].contains("hifenizada"));
}

#[test]
fn linha_curta_e_linha_vazia_fecham() {
    let lines = [
        "Capítulo 1",
        "",
        "Uma linha razoavelmente longa que não termina em pontuação",
        "e outra linha razoavelmente longa que também não termina",
        "fim",
    ];
    let p = group_lines(&lines);
    assert_eq!(p[0], "Capítulo 1");
    assert_eq!(p.len(), 2);
    assert!(p[1].ends_with("termina fim"));
}

#[test]
fn short_broken_line_is_mended() {
    assert_eq!(group_lines(&["traba-", "lho"]), vec!["trabalho"]);
    assert_eq!(group_lines(&["um -", "dois"]), vec!["um -", "dois"]);
    assert_eq!(group_lines(&["a-", "b-", "c", "d"]), vec!["abc", "d"]);
    assert_eq!(group_lines(&["a-", "-", "b"]), vec!["ab"]);
    assert_eq!(group_lines(&["traba-", "", "lho"]), vec!["traba-", "lho"]);
    assert_eq!(group_lines(&["a-", "fim.", "b"]), vec!["afim.", "b"]);
}

#[test]
fn grouping_loses_nothing_but_hyphens() {
    let lines = [
        "-",
        "uma linha que não acaba com um sinal de fim -",
        "outra que foi partida no meio de uma pala-",
        "vra e segue mais um pouco até o fim da pági-",
        "",
        "fim-",
    ];
    let core = |s: &str| -> String {
        s.chars().filter(|c| !c.is_whitespace() && *c != '-').collect()
    };
    let groups = group_lines(&lines);
    assert_eq!(core(&groups.concat()), core(&lines.concat()));
    assert!(groups.concat().contains("fim - outra"));
    assert!(groups.concat().contains("palavra"));
    assert_eq!(groups.last().unwrap(), "fim-");
}

#[test]
fn colapsa_espacos_internos() {
    let p = group_lines(&["a   b\t c."]);
    assert_eq!(p, vec!["a b c."]);
}

#[test]
fn spaced_hyphen_is_a_dash() {
    let long = "uma linha comprida o bastante para continuar -";
    let p = group_lines(&[long, "assim."]);
    assert_eq!(p, vec![format!("{long} assim.")]);
    assert_eq!(group_lines(&["", "  "]), Vec::<String>::new());
}

#[test]
fn short_limit_follows_the_median() {
    // Lines of 60 characters make lines under 36 short, and 37 is not.
    let l60 = "x".repeat(60);
    let l35 = "y".repeat(35);
    let l36 = "z".repeat(36);
    let p = group_lines(&[&l60, &l60, &l35, &l60]);
    assert_eq!(p.len(), 2);
    let p = group_lines(&[&l60, &l60, &l36, &l60]);
    assert_eq!(p.len(), 1);
}

// --------------------------------------------------------------------------------- pdf

/// A small PDF of two pages, with text in Helvetica.
fn tiny_pdf() -> Vec<u8> {
    let page_text = [
        "BT /F1 12 Tf 50 700 Td (Hello reader, this is page one.) Tj ET",
        "BT /F1 12 Tf 50 700 Td (Second page starts here.) Tj ET",
    ];
    let mut objs: Vec<String> = Vec::new();
    objs.push("<< /Type /Catalog /Pages 2 0 R >>".into());
    objs.push("<< /Type /Pages /Kids [3 0 R 5 0 R] /Count 2 >>".into());
    for (i, t) in page_text.iter().enumerate() {
        let content_id = 4 + i * 2;
        objs.push(format!(
            "<< /Type /Page /Parent 2 0 R /MediaBox [0 0 612 792] /Contents {content_id} 0 R /Resources << /Font << /F1 7 0 R >> >> >>"
        ));
        objs.push(format!("<< /Length {} >>\nstream\n{}\nendstream", t.len(), t));
    }
    objs.push(
        "<< /Type /Font /Subtype /Type1 /BaseFont /Helvetica /Encoding /WinAnsiEncoding >>".into(),
    );
    build_pdf(&objs)
}

fn build_pdf(objs: &[String]) -> Vec<u8> {
    let mut out = Vec::new();
    out.extend_from_slice(b"%PDF-1.4\n");
    let mut offsets = Vec::new();
    for (i, o) in objs.iter().enumerate() {
        offsets.push(out.len());
        out.extend_from_slice(format!("{} 0 obj\n{}\nendobj\n", i + 1, o).as_bytes());
    }
    let xref = out.len();
    out.extend_from_slice(format!("xref\n0 {}\n0000000000 65535 f \n", objs.len() + 1).as_bytes());
    for off in offsets {
        out.extend_from_slice(format!("{off:010} 00000 n \n").as_bytes());
    }
    out.extend_from_slice(
        format!(
            "trailer\n<< /Size {} /Root 1 0 R >>\nstartxref\n{}\n%%EOF\n",
            objs.len() + 1,
            xref
        )
        .as_bytes(),
    );
    out
}

fn pages_via_pdf_extract(bytes: &[u8]) -> Result<Vec<String>, String> {
    pdf_extract::extract_text_from_mem_by_pages(bytes).map_err(|e| format!("pdf-extract: {e}"))
}

#[test]
fn extrai_uma_secao_por_pagina() {
    let pages = pages_via_pdf_extract(&tiny_pdf()).expect("pdf-extract");
    let ex = extract_direct(&pages);
    check_tiny_pdf_sections(&ex);
}

#[test]
fn ebook_convert_ausente_cai_pro_pdf_extract_direto() {
    // Without a converter there is no EPUB, and the pages are taken as they are.
    let opts = ExtractOptions {
        pdftotext: None,
        ebook_convert: "reader-test-ebook-convert-inexistente",
        epubcheck: None,
    };
    assert!(opts.pdftotext.is_none() && opts.epubcheck.is_none());
    let bytes = tiny_pdf();
    let ex = pdf::extract(None, || pages_via_pdf_extract(&bytes))
        .expect("fallback pro pdf-extract direto");
    check_tiny_pdf_sections(&ex);
}

fn check_tiny_pdf_sections(ex: &Extracted) {
    assert_eq!(ex.sections.len(), 2);
    assert_eq!(ex.sections[0].title, "Página 1");
    assert!(
        ex.sections[0].paragraphs[0].text.contains("page one"),
        "{:?}",
        ex.sections[0]
    );
    assert!(ex.sections[1].paragraphs[0].text.contains("Second page"));
}

#[test]
fn nul_de_ligadura_sem_tounicode_vira_espaco_sem_colar_palavras() {
    let page = "\u{0}is book isn't about music history.\nSecond\u{1}line.";
    let clean = strip_bad_chars(page);
    assert!(!clean.chars().any(|c| c.is_control() && c != '\n'));
    assert_eq!(clean.lines().count(), 2, "não pode fundir linhas");
    assert_eq!(clean.lines().next().unwrap(), " is book isn't about music history.");
    assert_eq!(clean.lines().nth(1).unwrap(), "Second line.", "não pode colar as palavras");
}

#[test]
fn detecta_kind_por_magic() {
    assert_eq!(detect_kind("x.bin", b"%PDF-1.7"), Some(Kind::Pdf));
    assert_eq!(detect_kind("x.epub", b"PK\x03\x04"), Some(Kind::Epub));
    assert_eq!(detect_kind("x.txt", b"hello"), None);
}

#[test]
fn kind_falls_back_to_the_name() {
    assert_eq!(detect_kind("A.PDF", b""), Some(Kind::Pdf));
    assert_eq!(detect_kind("a.Epub", b"%PD"), Some(Kind::Epub));
    assert_eq!(detect_kind("a.epub", b"%PDF"), Some(Kind::Pdf));
    assert_eq!((Kind::Pdf.as_str(), Kind::Epub.as_str()), ("pdf", "epub"));
}

#[test]
fn converted_book_wins_over_pages() {
    let book = tiny_epub();
    let ex = pdf::extract(Some(&book), || panic!("não é preciso")).unwrap();
    assert_eq!(ex.title, "Livro de Teste");
    let ex = pdf::extract(Some(b"lixo"), || Ok(vec!["Uma página.".to_string()])).unwrap();
    assert_eq!(ex.sections[0].title, "Página 1");
    let e = pdf::extract(None, || Err("sem páginas".to_string())).unwrap_err();
    assert_eq!(e.message(), "sem páginas");
}

#[test]
fn empty_pages_are_counted_but_no_sections() {
    let pages = vec!["\u{0}\n ".to_string(), "Texto.\nMais.".to_string()];
    let ex = extract_direct(&pages);
    assert_eq!(
        ex.sections,
        vec![Section {
            title: "Página 2".to_string(),
            paragraphs: vec![
                Paragraph { kind: "p".to_string(), text: "Texto.".to_string() },
                Paragraph { kind: "p".to_string(), text: "Mais.".to_string() },
            ],
        }]
    );
    assert_eq!(pages_of_output(b"a\x0cb\xff"), vec!["a", "b\u{fffd}"]);
}

#[test]
fn conversion_goes_through_the_versions() {
    let version = |c: Conversion| match c {
        Conversion::Try(v) => v,
        _ => "",
    };
    assert_eq!(version(next_conversion(None)), "2");
    assert_eq!(version(next_conversion(Some(("2", false)))), "3");
    assert!(matches!(next_conversion(Some(("3", false))), Conversion::GiveUp));
    assert!(matches!(next_conversion(Some(("2", true))), Conversion::Read));
    assert_eq!(
        converter_args("3"),
        vec!["--enable-heuristics", "--filter-css", "--epub-version", "3"]
    );
    assert_eq!(unique_suffix(2, 5), 2_000_011);
    assert_eq!(unique_suffix(u64::MAX, 1), u64::MAX - 1_000_001);
    assert_eq!(temp_stem(7, 12), "reader-pdf2epub-7-12");
}

// -------------------------------------------------------------------------------- files

#[test]
fn file_without_title_is_called_by_its_name() {
    let no_pages = || Ok(vec!["Um texto.".to_string()]);
    let ex = extract(Kind::Pdf, "dir/Meu livro.v2.pdf", b"", None, no_pages).unwrap();
    assert_eq!(ex.title, "Meu livro.v2");
    let ex = extract(Kind::Epub, "x.epub", &tiny_epub(), None, no_pages).unwrap();
    assert_eq!(ex.title, "Livro de Teste");
    let ex = extract(Kind::Pdf, "..", b"", None, no_pages).unwrap();
    assert_eq!(ex.title, "Sem título");
}

#[test]
fn file_without_text_is_refused() {
    let e = extract(Kind::Pdf, "a.pdf", b"", None, || Ok(vec![])).unwrap_err();
    assert_eq!(e.message(), "nenhum texto legível encontrado");
    let none = Extracted { title: "t".to_string(), lang: String::new(), sections: vec![] };
    assert!(matches!(finish("a", none), Err(ExtractError::Empty)));
}

#[test]
fn stems_are_those_of_the_standard_library() {
    for p in [
        "", "/", ".", "..", "a", "a.b", "a.b.c", ".a", "a.", "x/y.z", "x/y/", "x/./", "x/..",
        "./", "..a", "a/b/.c.d", "...",
    ] {
        let want = std::path::Path::new(p).file_stem().map(|s| s.to_string_lossy().to_string());
        assert_eq!(file_stem(p), want, "{p:?}");
    }
}
