use dtstree::extlinux::{Extlinux, ExtlinuxEntry};
use dtstree::text::parse_usize;

fn fresh() -> Extlinux {
    Extlinux {
        timeout: None,
        default: None,
        menu_title: None,
        entries: Vec::new(),
    }
}

const CONF: &str = "TIMEOUT 30\nDEFAULT primary\nMENU TITLE Boot Options\n\nLABEL primary\n\tMENU LABEL primary kernel\n\tLINUX /boot/Image\n\tFDT /boot/board.dtb\n\tINITRD /boot/initrd\n\tAPPEND root=/dev/mmcblk0p1 rw\n\nLABEL backup\n\tMENU LABEL backup kernel\n\tLINUX /boot/Image.backup\n\tFDT /boot/board_backup.dtb\n\tINITRD /boot/initrd.backup\n\tAPPEND root=/dev/mmcblk0p1 ro\n";

#[test]
fn top_level_keys_are_read() {
    let mut conf = fresh();
    conf.init(CONF.to_string());
    assert_eq!(conf.timeout, Some(30));
    assert_eq!(conf.default.as_deref(), Some("primary"));
    assert_eq!(conf.menu_title.as_deref(), Some("Boot Options"));
}

#[test]
fn entries_are_split_at_label_lines() {
    let mut conf = fresh();
    conf.init(CONF.to_string());
    assert_eq!(conf.entries.len(), 2);
    let first = &conf.entries[0];
    assert_eq!(first.label.as_deref(), Some("primary"));
    assert_eq!(first.menu_label.as_deref(), Some("primary kernel"));
    assert_eq!(first.linux.as_deref(), Some("/boot/Image"));
    assert_eq!(first.fdt.as_deref(), Some("/boot/board.dtb"));
    assert_eq!(first.initrd.as_deref(), Some("/boot/initrd"));
    assert_eq!(first.append.as_deref(), Some("root=/dev/mmcblk0p1 rw"));
    let second = &conf.entries[1];
    assert_eq!(second.label.as_deref(), Some("backup"));
    assert_eq!(second.fdt.as_deref(), Some("/boot/board_backup.dtb"));
}

#[test]
fn last_matching_line_wins() {
    let mut conf = fresh();
    conf.init("TIMEOUT 10\nTIMEOUT 20\nDEFAULT a\nDEFAULT b\n".to_string());
    assert_eq!(conf.timeout, Some(20));
    assert_eq!(conf.default.as_deref(), Some("b"));
}

#[test]
fn entry_fields_are_trimmed_and_indented_lines_match() {
    let mut entry = ExtlinuxEntry {
        label: None,
        menu_label: None,
        linux: None,
        fdt: None,
        initrd: None,
        append: None,
    };
    let lines: Vec<String> = vec![
        "LABEL  spaced  ".to_string(),
        "   LINUX   /img  ".to_string(),
        "\tFDT /tree.dtb".to_string(),
    ];
    entry.init(&lines);
    assert_eq!(entry.label.as_deref(), Some("spaced"));
    assert_eq!(entry.linux.as_deref(), Some("/img"));
    assert_eq!(entry.fdt.as_deref(), Some("/tree.dtb"));
    assert_eq!(entry.menu_label, None);
    assert_eq!(entry.initrd, None);
    assert_eq!(entry.append, None);
}

#[test]
fn indented_label_does_not_start_an_entry() {
    let mut conf = fresh();
    conf.init("\tLABEL hidden\nLABEL real\n".to_string());
    assert_eq!(conf.entries.len(), 1);
    assert_eq!(conf.entries[0].label.as_deref(), Some("real"));
}

#[test]
fn unparsable_timeout_is_none() {
    let mut conf = fresh();
    conf.init("TIMEOUT soon\n".to_string());
    assert_eq!(conf.timeout, None);
}

#[test]
fn parse_usize_exact_values() {
    assert_eq!(parse_usize("0"), Some(0));
    assert_eq!(parse_usize("30"), Some(30));
    assert_eq!(parse_usize("18446744073709551615"), Some(usize::MAX));
    assert_eq!(parse_usize("18446744073709551616"), None);
    assert_eq!(parse_usize(""), None);
    assert_eq!(parse_usize("1x"), None);
    assert_eq!(parse_usize("-1"), None);
}
