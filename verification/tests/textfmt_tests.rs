use csv_split::textfmt::{file_name, padded_number, render_trigger, replace_all, split_file_name,
                         usize_to_string};

#[test]
fn trigger_scenario_echo_name_and_rows() {
    // A rotation that finished 00001.csv with 1000 rows renders the
    // template "echo {/} {rows}" to a literal shell command.
    let rendered = render_trigger(
        "echo {/} {rows}",
        "/data/out/00001.csv",
        "00001.csv",
        1000,
    );
    assert_eq!(rendered, "echo 00001.csv 1000");
}

#[test]
fn trigger_substitutes_all_three_placeholders() {
    let rendered = render_trigger("cp {} /backup/{/}-{rows}", "/out/a.csv", "a.csv", 42);
    assert_eq!(rendered, "cp /out/a.csv /backup/a.csv-42");
}

#[test]
fn trigger_without_placeholders_is_unchanged() {
    let rendered = render_trigger("echo done", "/out/a.csv", "a.csv", 7);
    assert_eq!(rendered, "echo done");
}

#[test]
fn replace_all_replaces_every_occurrence() {
    assert_eq!(replace_all("aXbXc", "X", "--"), "a--b--c");
    assert_eq!(replace_all("XX", "X", "y"), "yy");
    assert_eq!(replace_all("abc", "X", "y"), "abc");
    assert_eq!(replace_all("", "X", "y"), "");
}

#[test]
fn replace_all_does_not_rescan_its_own_output() {
    assert_eq!(replace_all("ab", "ab", "ab ab"), "ab ab");
    assert_eq!(replace_all("aaa", "aa", "b"), "ba");
}

#[test]
fn decimal_spellings() {
    assert_eq!(usize_to_string(0), "0");
    assert_eq!(usize_to_string(9), "9");
    assert_eq!(usize_to_string(10), "10");
    assert_eq!(usize_to_string(1000), "1000");
    assert_eq!(usize_to_string(987654), "987654");
}

#[test]
fn padded_numbers() {
    assert_eq!(padded_number(1, 5), "00001");
    assert_eq!(padded_number(123, 5), "00123");
    assert_eq!(padded_number(123456, 5), "123456");
    assert_eq!(padded_number(7, 1), "7");
    assert_eq!(padded_number(7, 0), "7");
}

#[test]
fn split_file_names() {
    assert_eq!(split_file_name(1, 5, ".csv"), "00001.csv");
    assert_eq!(split_file_name(2, 5, ".csv"), "00002.csv");
    assert_eq!(split_file_name(12, 2, ".csv.gz"), "12.csv.gz");
}

#[test]
fn file_name_takes_the_text_after_the_last_separator() {
    assert_eq!(file_name("/data/out/00001.csv"), "00001.csv");
    assert_eq!(file_name("00001.csv"), "00001.csv");
    assert_eq!(file_name("a/b/c"), "c");
    assert_eq!(file_name("a/b/"), "");
    assert_eq!(file_name(""), "");
}
