use docsy::anti_copy::{
    detection_from_fonts, font_backup_key, has_pua_mappings, is_already_protected,
    parse_font_backup_key, process_copy, scramble_cmap, scramble_hex, AntiCopyDetection,
    AntiCopyError, AntiCopyMethod, protect_font, restore_font, ProtectEdit, RestoreEdit,
};

const CMAP: &str = "begincmap\n1 begincodespacerange\n<00> <FF>\nendcodespacerange\n1 beginbfchar\n<41> <0041>\nendbfchar\nendcmap\n";

#[test]
fn method_parse_defaults_to_scramble() {
    assert_eq!(AntiCopyMethod::parse("cmap_remove"), AntiCopyMethod::CmapRemove);
    assert_eq!(AntiCopyMethod::parse("cmap_scramble"), AntiCopyMethod::CmapScramble);
    assert_eq!(AntiCopyMethod::parse("anything"), AntiCopyMethod::CmapScramble);
}

#[test]
fn scrambled_cmap_is_marked_and_targets_move_to_private_use() {
    let scrambled = scramble_cmap(CMAP);
    assert!(scrambled.starts_with("% Docsy anti-copy protection\n% Original CMap replaced with garbled mappings\n"));
    assert!(is_already_protected(&scrambled));
    assert!(!is_already_protected(CMAP));
    let hex: Vec<char> = "0041".chars().collect();
    let target: String = scramble_hex(&hex).into_iter().collect();
    // 0x30,0x30,0x34,0x31 hashed with h = h * 31 + b
    let hash: u32 = "0041".bytes().fold(0u32, |acc, b| acc.wrapping_mul(31).wrapping_add(b as u32));
    assert_eq!(target, format!("{:04X}", 0xE000 + (hash % 0x1000)));
    assert!(scrambled.contains(&format!("<41>> <{target}>>")));
    assert!(scrambled.contains("\n1 begincodespacerange\n"));
}

#[test]
fn private_use_mappings_are_detected() {
    let mut text = String::new();
    for i in 0..6 {
        text.push_str(&format!("<{:02X}> <E{:03X}>\n", i, i));
    }
    assert!(has_pua_mappings(&text));
    assert!(!has_pua_mappings(CMAP));
    let few = "<01> <E001>\n<02> <E002>\n";
    assert!(!has_pua_mappings(few));
}

#[test]
fn detection_counts_protected_fonts() {
    let scrambled = scramble_cmap(CMAP).into_bytes();
    let fonts = vec![Some(CMAP.as_bytes().to_vec()), Some(scrambled), None];
    let d = detection_from_fonts(&fonts, false);
    assert_eq!(d.total_fonts, 3);
    assert_eq!(d.protected_fonts, 1);
    assert_eq!(d.method.as_deref(), Some("CMap 篡改"));
    assert!(d.has_protection);
    let removed = detection_from_fonts(&[None], true);
    assert_eq!(removed.protected_fonts, 1);
    assert_eq!(removed.method.as_deref(), Some("CMap 移除"));
    let clean = detection_from_fonts(&[Some(CMAP.as_bytes().to_vec())], false);
    assert!(!clean.has_protection);
    assert_eq!(clean.method, None);
}

#[test]
fn backup_keys_round_trip() {
    assert_eq!(font_backup_key(12, 0), "(12, 0)");
    assert_eq!(parse_font_backup_key("(12, 0)"), Some((12, 0)));
    assert_eq!(parse_font_backup_key("((7,70000))"), Some((7, 4464)));
    assert_eq!(parse_font_backup_key("(12)"), None);
    assert_eq!(parse_font_backup_key("(a, 1, 2)"), Some((1, 2)));
}

#[test]
fn protecting_twice_or_restoring_without_backup_is_refused() {
    let protected = AntiCopyDetection { has_protection: true, method: None, total_fonts: 1, protected_fonts: 1, has_backup: true };
    let clean = AntiCopyDetection { has_protection: false, method: None, total_fonts: 1, protected_fonts: 0, has_backup: false };
    assert_eq!(process_copy(&protected, "/tmp/out.pdf", Some(AntiCopyMethod::CmapScramble)), Err(AntiCopyError::AlreadyProtected));
    assert_eq!(process_copy(&clean, "/tmp/out.pdf", None), Err(AntiCopyError::NoBackup));
    let path = process_copy(&clean, "/tmp/docsy-nonexistent-dir-xyz/out.pdf", Some(AntiCopyMethod::CmapRemove)).unwrap();
    assert_eq!(path, "/tmp/docsy-nonexistent-dir-xyz/out.pdf");
}

#[test]
fn protecting_fonts_scrambles_or_removes_once() {
    assert!(matches!(protect_font(AntiCopyMethod::CmapScramble, None), ProtectEdit::Keep));
    assert!(matches!(protect_font(AntiCopyMethod::CmapRemove, Some(CMAP.as_bytes())), ProtectEdit::Remove));
    match protect_font(AntiCopyMethod::CmapScramble, Some(CMAP.as_bytes())) {
        ProtectEdit::Replace(bytes) => {
            let text = String::from_utf8(bytes).unwrap();
            assert_eq!(text, scramble_cmap(CMAP));
            assert!(is_already_protected(&text));
            assert!(matches!(
                protect_font(AntiCopyMethod::CmapScramble, Some(text.as_bytes())),
                ProtectEdit::Keep
            ));
        }
        _ => panic!("an unprotected CMap is scrambled"),
    }
}

#[test]
fn restoring_fonts_prefers_the_copy_on_the_font() {
    let scrambled = scramble_cmap(CMAP);
    match restore_font(Some(CMAP.as_bytes()), Some("other"), Some(scrambled.as_bytes())) {
        RestoreEdit::FromFont(bytes) => assert_eq!(bytes, CMAP.as_bytes()),
        _ => panic!("the copy on the font comes first"),
    }
    match restore_font(None, Some(CMAP), Some(scrambled.as_bytes())) {
        RestoreEdit::FromBackup(bytes) => assert_eq!(bytes, CMAP.as_bytes()),
        _ => panic!("then the document backup"),
    }
    assert!(matches!(restore_font(None, None, Some(scrambled.as_bytes())), RestoreEdit::RemoveScrambled));
    assert!(matches!(restore_font(None, None, Some(CMAP.as_bytes())), RestoreEdit::Keep));
    assert!(matches!(restore_font(None, None, None), RestoreEdit::Keep));
}

#[test]
fn protect_then_restore_gives_back_the_kept_cmap() {
    let original = CMAP.as_bytes();
    for method in [AntiCopyMethod::CmapScramble, AntiCopyMethod::CmapRemove] {
        let protected: Option<Vec<u8>> = match protect_font(method, Some(original)) {
            ProtectEdit::Replace(bytes) => Some(bytes),
            ProtectEdit::Remove => None,
            ProtectEdit::Keep => panic!("an unprotected CMap is changed"),
        };
        match restore_font(Some(original), None, protected.as_deref()) {
            RestoreEdit::FromFont(bytes) => assert_eq!(bytes, original),
            _ => panic!("the copy kept on the font comes back"),
        }
        match restore_font(None, Some(CMAP), protected.as_deref()) {
            RestoreEdit::FromBackup(bytes) => assert_eq!(bytes, original),
            _ => panic!("the document backup comes back"),
        }
    }
}
