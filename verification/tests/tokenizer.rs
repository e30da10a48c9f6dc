use file_index::tokenizer::tokenize;

#[test]
fn accepts_non_ascii_paths() {
    let cases = [
        (
            "/home/用户/文档/报告.txt",
            vec!["home", "用户", "文档", "报告", "txt"],
        ),
        (
            "/home/josé/música/canción.mp3",
            vec!["home", "josé", "música", "canción", "mp3"],
        ),
        ("/tmp/日本語/写真.png", vec!["tmp", "日本語", "写真", "png"]),
        (
            "/пользователь/документы/файл.rs",
            vec!["пользователь", "документы", "файл", "rs"],
        ),
    ];

    for (path, expected) in cases {
        assert_eq!(tokenize(path), expected, "failed for path: {path}");
    }
}

#[test]
fn lower_cases_ascii_letters() {
    assert_eq!(tokenize("/Home/ReadMe.TXT"), vec!["home", "readme", "txt"]);
}

#[test]
fn keeps_non_ascii_case() {
    assert_eq!(tokenize("Ärger/ÖL"), vec!["Ärger", "Öl"]);
}

#[test]
fn splits_on_every_non_alphanumeric_character() {
    assert_eq!(
        tokenize("a-b_c.d e\tf//g"),
        vec!["a", "b", "c", "d", "e", "f", "g"]
    );
}

#[test]
fn keeps_digits() {
    assert_eq!(tokenize("v2/report-2024.pdf"), vec!["v2", "report", "2024", "pdf"]);
}

#[test]
fn empty_and_separator_only_inputs_have_no_tokens() {
    assert!(tokenize("").is_empty());
    assert!(tokenize("/.-_ /").is_empty());
}

#[test]
fn tokenizing_ignores_ascii_case() {
    assert_eq!(tokenize("Src/Main.RS"), tokenize("src/main.rs"));
}

#[test]
fn a_separator_splits_the_tokens_in_two() {
    let left = "/home/José/Música";
    let right = "Canción.MP3";
    for separator in ['/', '.', '-', ' '] {
        let joined = format!("{left}{separator}{right}");
        assert_eq!(tokenize(&joined), [tokenize(left), tokenize(right)].concat());
    }
}

#[test]
fn tokenizing_tokens_gives_them_back() {
    for s in ["/home/José/Música/Canción.MP3", "/tmp/日本語/写真.png", "a--B__c", ""] {
        let tokens = tokenize(s);
        assert_eq!(tokenize(&tokens.join(" ")), tokens);
    }
}
