use mochi_lib::generate_html;
use mochi_lib::generate_html_for_accent;
use mochi_lib::load_accents;
use mochi_lib::Accent;
use mochi_lib::AccentType;
use mochi_lib::KanaString;

fn dict_resource() -> &'static str {
    "サッカー\t\t1\n\
     箸\tはし\t1\n\
     橋\tはし\t2\n\
     端\tはし\t0\n\
     鼻\tはな\t0\n\
     花\tはな\t2\n\
     あの方\tあのかた\t3,4\n\
     この後\tこのあと\t3\n\
     この後\tこののち\t4,0\n\
     かちかち\tかちかち\t(形動)0,(副;名)1\n"
}

#[test]
fn test_generate_html_for_accent() {
    let accents = load_accents(dict_resource()).unwrap();
    let rows = accents.get(&"あの方".to_string()).unwrap();
    let t1 = &rows[0];
    let r1 = generate_html_for_accent(
        &t1.kana,
        &t1.accents
            .iter()
            .find(|a| a.accent_type == AccentType::Nakadaka(3))
            .unwrap(),
    );
    assert_eq!(r1, "<span style=\"BORDER-BOTTOM: #FF6633 medium solid;\">あ</span><span style=\"BORDER-LEFT: #FF6633 medium solid;BORDER-TOP: #FF6633 medium solid;\">の</span><span style=\"BORDER-TOP: #FF6633 medium solid;\">か</span><span style=\"BORDER-LEFT: #FF6633 medium solid;BORDER-BOTTOM: #FF6633 medium solid;\">た</span><span style=\"BORDER-BOTTOM: #FF6633 medium solid;\">…</span>");

    let rows2 = accents.get(&"かちかち".to_string()).unwrap();
    let t2 = &rows2[0];
    let r2 = generate_html_for_accent(
        &t2.kana,
        &t2.accents
            .iter()
            .find(|a| a.accent_type == AccentType::Heiban)
            .unwrap(),
    );

    assert_eq!(r2, "<span style=\"font-weight:bold\">形動: </span><span style=\"BORDER-BOTTOM: #FF6633 medium solid;\">か</span><span style=\"BORDER-LEFT: #FF6633 medium solid;BORDER-TOP: #FF6633 medium solid;\">ち</span><span style=\"BORDER-TOP: #FF6633 medium solid;\">か</span><span style=\"BORDER-TOP: #FF6633 medium solid;\">ち</span><span style=\"BORDER-TOP: #FF6633 medium solid;\">…</span>");
}

#[test]
fn test_generate_html() {
    let accents = load_accents(dict_resource()).unwrap();
    let t1 = generate_html(&"あの方".to_string(), &accents);
    assert_eq!(t1, "<div style=\"text-align: center\"><span style=\"BORDER-BOTTOM: #FF6633 medium solid;\">あ</span><span style=\"BORDER-LEFT: #FF6633 medium solid;BORDER-TOP: #FF6633 medium solid;\">の</span><span style=\"BORDER-TOP: #FF6633 medium solid;\">か</span><span style=\"BORDER-LEFT: #FF6633 medium solid;BORDER-BOTTOM: #FF6633 medium solid;\">た</span><span style=\"BORDER-BOTTOM: #FF6633 medium solid;\">…</span>・<span style=\"BORDER-BOTTOM: #FF6633 medium solid;\">あ</span><span style=\"BORDER-LEFT: #FF6633 medium solid;BORDER-TOP: #FF6633 medium solid;\">の</span><span style=\"BORDER-TOP: #FF6633 medium solid;\">か</span><span style=\"BORDER-TOP: #FF6633 medium solid;\">た</span><span style=\"BORDER-LEFT: #FF6633 medium solid;BORDER-BOTTOM: #FF6633 medium solid;\">…</span></div>");

    let t2 = generate_html(&"この後".to_string(), &accents);
    assert_eq!(t2, "<div style=\"text-align: center\"><span style=\"BORDER-BOTTOM: #FF6633 medium solid;\">こ</span><span style=\"BORDER-LEFT: #FF6633 medium solid;BORDER-TOP: #FF6633 medium solid;\">の</span><span style=\"BORDER-TOP: #FF6633 medium solid;\">あ</span><span style=\"BORDER-LEFT: #FF6633 medium solid;BORDER-BOTTOM: #FF6633 medium solid;\">と</span><span style=\"BORDER-BOTTOM: #FF6633 medium solid;\">…</span><div style=\"line-height:100%;\"><br></div><span style=\"BORDER-BOTTOM: #FF6633 medium solid;\">こ</span><span style=\"BORDER-LEFT: #FF6633 medium solid;BORDER-TOP: #FF6633 medium solid;\">の</span><span style=\"BORDER-TOP: #FF6633 medium solid;\">の</span><span style=\"BORDER-TOP: #FF6633 medium solid;\">ち</span><span style=\"BORDER-LEFT: #FF6633 medium solid;BORDER-BOTTOM: #FF6633 medium solid;\">…</span>・<span style=\"BORDER-BOTTOM: #FF6633 medium solid;\">こ</span><span style=\"BORDER-LEFT: #FF6633 medium solid;BORDER-TOP: #FF6633 medium solid;\">の</span><span style=\"BORDER-TOP: #FF6633 medium solid;\">の</span><span style=\"BORDER-TOP: #FF6633 medium solid;\">ち</span><span style=\"BORDER-TOP: #FF6633 medium solid;\">…</span></div>");
}

#[test]
fn unknown_word_renders_as_empty_wrapper() {
    let accents = load_accents(dict_resource()).unwrap();
    let html = generate_html(&"知らない".to_string(), &accents);
    assert_eq!(html, "<div style=\"text-align: center\"></div>");

    let empty = load_accents("").unwrap();
    let html = generate_html(&"箸".to_string(), &empty);
    assert_eq!(html, "<div style=\"text-align: center\"></div>");
}

#[test]
fn loading_twice_renders_identically() {
    let first = load_accents(dict_resource()).unwrap();
    let second = load_accents(dict_resource()).unwrap();
    for word in ["サッカー", "箸", "橋", "端", "鼻", "花", "あの方", "この後", "かちかち", "ない言葉"] {
        let w = word.to_string();
        assert_eq!(generate_html(&w, &first), generate_html(&w, &second));
    }
}

#[test]
fn nakadaka_three_markup_over_four_morae() {
    let kana = KanaString::from("あのかた".to_string());
    let accent = Accent {
        accent_type: AccentType::Nakadaka(3),
        note: None,
    };
    let html = generate_html_for_accent(&kana, &accent);
    // edges [{Bottom}, {Left,Top}, {Top}, {Left,Bottom}, {Bottom}] over あ の か た …
    assert_eq!(html, "<span style=\"BORDER-BOTTOM: #FF6633 medium solid;\">あ</span><span style=\"BORDER-LEFT: #FF6633 medium solid;BORDER-TOP: #FF6633 medium solid;\">の</span><span style=\"BORDER-TOP: #FF6633 medium solid;\">か</span><span style=\"BORDER-LEFT: #FF6633 medium solid;BORDER-BOTTOM: #FF6633 medium solid;\">た</span><span style=\"BORDER-BOTTOM: #FF6633 medium solid;\">…</span>");
}

#[test]
fn empty_reading_renders_the_trailing_position_alone() {
    let kana = KanaString::from(String::new());
    let accent = Accent {
        accent_type: AccentType::Heiban,
        note: None,
    };
    let html = generate_html_for_accent(&kana, &accent);
    // one position: the ellipsis for the following particle, high pitch
    assert_eq!(
        html,
        "<span style=\"BORDER-TOP: #FF6633 medium solid;\">…</span>"
    );
}
