use reader::tts::chunk::{sentences, split, split_long, MAX_CHARS};

#[test]
fn agrupa_frases_ate_o_limite() {
    let p = "Primeira frase. Segunda frase! Terceira?";
    let c = split(p);
    assert_eq!(c.len(), 1);
    assert_eq!(c[0].text, p);
    assert_eq!(c[0].offset, 0);
}

#[test]
fn quebra_em_fim_de_frase_e_offsets_fecham() {
    let a = "a".repeat(250) + ". ";
    let b = "b".repeat(250) + ".";
    let p = format!("{a}{b}");
    let c = split(&p);
    assert_eq!(c.len(), 2);
    assert_eq!(c[0].offset, 0);
    assert_eq!(c[1].offset, 252);
    let js_like: Vec<u16> = p.encode_utf16().collect();
    let slice =
        String::from_utf16(&js_like[c[1].offset..c[1].offset + c[1].text.encode_utf16().count()])
            .unwrap();
    assert_eq!(slice, c[1].text);
}

#[test]
fn offset_em_utf16_com_emoji() {
    let p = "Olá 😀 mundo. Segunda frase bem longa ".to_string() + &"x".repeat(370) + ".";
    let c = split(&p);
    assert_eq!(c.len(), 2, "{c:?}");
    // "Olá 😀 mundo. " has 13 characters but 14 UTF-16 code units.
    assert_eq!(c[1].offset, 14);
}

#[test]
fn frase_gigante_e_cortada() {
    let p = "palavra ".repeat(80);
    let c = split(&p);
    assert!(c.len() >= 2);
    assert!(c.iter().all(|c| c.text.chars().count() <= MAX_CHARS));
}

#[test]
fn frase_gigante_corta_na_ultima_virgula_que_coube() {
    let p = format!(
        "{}, {}, {}.",
        "aa ".repeat(50).trim_end(),
        "bb ".repeat(66).trim_end(),
        "cc ".repeat(100).trim_end()
    );
    let c = split(&p);
    assert!(c[0].text.ends_with("bb,"), "{:?}", c[0].text);
    assert!(c[0].text.chars().count() > 300);
    assert_eq!(c[1].offset, c[0].text.encode_utf16().count() + 1);
    let all: String = c.iter().map(|c| c.text.as_str()).collect::<Vec<_>>().join(" ");
    assert_eq!(all, p);
}

#[test]
fn nunca_corta_frase_que_cabe() {
    let s = "palavra ".repeat(40).trim_end().to_string() + ".";
    let p = format!("Curta. {s} Outra curta.");
    let c = split(&p);
    assert!(c.iter().any(|c| c.text.contains(&s)), "{c:?}");
    assert!(c.iter().all(|c| c.text.ends_with('.')), "{c:?}");
}

#[test]
fn paragrafo_que_cabe_vira_um_chunk() {
    let p = "Frase um. Frase dois, com vírgula! Frase três? ".repeat(6);
    let c = split(&p);
    assert_eq!(c.len(), 1, "{c:?}");
    assert_eq!(c[0].text, p.trim());
}

#[test]
fn nao_quebra_em_ponto_decimal() {
    let s = sentences("Pi é 3.14 e ponto. Fim.");
    assert_eq!(s, vec!["Pi é 3.14 e ponto. ", "Fim."]);
}

#[test]
fn blank_paragraph_has_no_chunk() {
    assert_eq!(split("").len(), 0);
    assert_eq!(split(" \n\t ").len(), 0);
}

#[test]
fn chunks_are_numbered_and_keep_everything() {
    let p = "Uma frase de tamanho médio para somar. ".repeat(40);
    let c = split(&p);
    assert!(c.len() > 2);
    for (i, x) in c.iter().enumerate() {
        assert_eq!(x.idx, i);
        assert_eq!(x.text, x.text.trim());
    }
    let solid = |s: &str| s.chars().filter(|c| !c.is_whitespace()).collect::<String>();
    let all: String = c.iter().map(|x| solid(&x.text)).collect();
    assert_eq!(all, solid(&p));
}

#[test]
fn sentences_rebuild_the_text() {
    let p = "“Sim.” Ele disse: não… Talvez?! Fim";
    assert_eq!(sentences(p).concat(), p);
    let long = "um dois, três; ".repeat(60);
    assert_eq!(split_long(&long).concat(), long);
}

#[test]
fn word_without_spaces_is_cut_only_where_it_can_be() {
    let p = "x".repeat(500);
    let c = split(&p);
    assert_eq!(c.iter().map(|x| x.text.as_str()).collect::<String>(), p);
}

#[test]
fn no_chunk_with_a_space_is_too_long() {
    let p = "a".repeat(110) + ", " + &"b ".repeat(140) + &"c".repeat(200);
    let c = split(&p);
    assert!(c.iter().all(|c| c.text.chars().count() <= MAX_CHARS), "{c:?}");
    let texts: Vec<&str> = c.iter().map(|c| c.text.as_str()).collect();
    let first = "a".repeat(110) + ",";
    let bs = "b ".repeat(140);
    let last = "c".repeat(200);
    assert_eq!(texts, vec![first.as_str(), bs.trim_end(), last.as_str()]);
    assert_eq!(split_long(&p).concat(), p);
    let comma = "a".repeat(300) + "," + &"b".repeat(300);
    let texts: Vec<usize> = split(&comma).iter().map(|c| c.text.len()).collect();
    assert_eq!(texts, vec![301, 300]);
    let late = "oi ".to_string() + &"a".repeat(450) + ":" + &"b".repeat(399) + ", fim";
    let texts: Vec<usize> = split(&late).iter().map(|c| c.text.chars().count()).collect();
    assert_eq!(texts, vec![2, 851, 3]);
    let early = "a,".to_string() + &"b".repeat(600);
    assert_eq!(split(&early).len(), 1);
    let word = "d".repeat(500);
    assert_eq!(split(&word)[0].text, word);
}

#[test]
fn chunks_are_packed_as_full_as_they_can_be() {
    let s = |c: &str, n: usize| c.repeat(n) + ". ";
    let p = s("a", 150) + &s("b", 150) + &s("c", 97) + &s("d", 150) + &s("e", 150);
    let c = split(&p);
    assert_eq!(c.len(), 3);
    assert!(c[0].text.ends_with("b."));
    assert!(c[1].text.starts_with("ccc") && c[1].text.ends_with("d."));
    assert!(c[2].text.starts_with("eee"));
    let p = s("a", 150) + &s("b", 150) + &s("c", 94) + &s("d", 150);
    assert!(split(&p)[0].text.ends_with("c."));
}

#[test]
fn white_space_at_the_ends_does_not_count_after_a_cut() {
    let p = "a".repeat(110) + ", " + &"b ".repeat(100) + &"c".repeat(199) + " d.";
    let texts: Vec<String> = split(&p).into_iter().map(|c| c.text).collect();
    let middle = "b ".repeat(100) + &"c".repeat(199);
    assert_eq!(middle.len(), 399);
    assert_eq!(texts, vec!["a".repeat(110) + ",", middle, "d.".to_string()]);
}
