use std::collections::HashMap;
use swendsen_wang::parameter_reader::{
    char_is_whitespace, find_first, slice, split_lines, to_chars, to_text, trimmed, ParameterReader,
};

const PARAMETERS: [&str; 7] =
    ["rows", "cols", "therm_steps", "measure_steps", "outputfile", "temperatures", "measure_struct_fact"];

fn names(list: &[&str]) -> Vec<String> {
    list.iter().map(|name| name.to_string()).collect()
}

fn chars(text: &str) -> Vec<char> {
    text.chars().collect()
}

/// The same reading written with the standard library's string functions.
fn reference(content: &str, parameters: &[&str], delimiter: &str) -> Result<Vec<String>, String> {
    let mut map: HashMap<&str, String> = HashMap::new();
    for line in content.lines() {
        for name in parameters {
            if line.contains(name) {
                let Some((_, value)) = line.split_once(delimiter) else {
                    return Err(String::from("Bad delimiter"));
                };
                map.insert(name, value.trim().to_owned());
            }
        }
    }
    for name in parameters {
        if !map.contains_key(name) {
            return Err(format!("Missing parameter: {name}"));
        }
    }
    Ok(parameters.iter().map(|name| map[name].clone()).collect())
}

fn read(content: &str, parameters: &[&str], delimiter: &str) -> Result<Vec<String>, String> {
    ParameterReader::build(content.to_string(), names(parameters)).parse_parameters(delimiter)
}

#[test]
fn a_full_parameter_file_is_read() {
    let content = "rows: 16\ncols: 32\ntherm_steps: 1000\nmeasure_steps : 5000\n\
                   outputfile:   results/out.csv  \ntemperatures: 1.0, 2.0 ,2.269, 3.5\n\
                   measure_struct_fact: True\n";
    let values = read(content, &PARAMETERS, ":").unwrap();
    assert_eq!(values, vec!["16", "32", "1000", "5000", "results/out.csv", "1.0, 2.0 ,2.269, 3.5", "True"]);
    assert_eq!(Ok(values), reference(content, &PARAMETERS, ":"));
}

#[test]
fn a_missing_parameter_is_named() {
    let content = "rows: 16\ncols: 32\n";
    assert_eq!(read(content, &PARAMETERS, ":"), Err("Missing parameter: therm_steps".to_string()));
    assert_eq!(read("", &["rows"], ":"), Err("Missing parameter: rows".to_string()));
    assert_eq!(read("cols = 3", &["rows", "cols"], "="), Err("Missing parameter: rows".to_string()));
}

#[test]
fn a_line_without_delimiter_is_refused() {
    assert_eq!(read("rows 16\ncols: 32\n", &["rows", "cols"], ":"), Err("Bad delimiter".to_string()));
    // The bad line counts even where a parameter is missing as well.
    assert_eq!(read("rows 16\n", &["rows", "cols"], ":"), Err("Bad delimiter".to_string()));
    // A line that mentions no parameter needs no delimiter.
    assert_eq!(read("# settings\nrows: 2\n", &["rows"], ":"), Ok(vec!["2".to_string()]));
}

#[test]
fn the_last_mention_wins() {
    assert_eq!(read("rows: 1\nrows: 2\nrows:3", &["rows"], ":"), Ok(vec!["3".to_string()]));
}

#[test]
fn a_name_inside_another_word_counts_as_a_mention() {
    // "rows" stands in "arrows", and "cols" in the value of the first line.
    let content = "arrows: cols\ncols: 4";
    assert_eq!(read(content, &["rows", "cols"], ":"), Ok(vec!["cols".to_string(), "4".to_string()]));
    assert_eq!(read(content, &["rows", "cols"], ":"), reference(content, &["rows", "cols"], ":"));
}

#[test]
fn the_value_follows_the_first_delimiter() {
    assert_eq!(read("outputfile: C:\\data\\out", &["outputfile"], ":"), Ok(vec!["C:\\data\\out".to_string()]));
    assert_eq!(read("rows => 7 => 8", &["rows"], "=>"), Ok(vec!["7 => 8".to_string()]));
    assert_eq!(read("rows:", &["rows"], ":"), Ok(vec![String::new()]));
}

#[test]
fn an_empty_delimiter_is_found_at_the_start() {
    assert_eq!(read("rows 7", &["rows"], ""), Ok(vec!["rows 7".to_string()]));
    assert_eq!(read("rows 7", &["rows"], ""), reference("rows 7", &["rows"], ""));
}

#[test]
fn carriage_returns_end_lines_only_before_a_line_feed() {
    assert_eq!(read("rows: 3\r\ncols: 4\r\n", &["rows", "cols"], ":"), Ok(vec!["3".to_string(), "4".to_string()]));
    let lonely = "rows: 3\rcols: 4";
    assert_eq!(read(lonely, &["rows", "cols"], ":"), reference(lonely, &["rows", "cols"], ":"));
    assert_eq!(read(lonely, &["rows", "cols"], ":"), Ok(vec!["3\rcols: 4".to_string(), "3\rcols: 4".to_string()]));
}

#[test]
fn reading_agrees_with_the_standard_library() {
    let contents = [
        "",
        "\n",
        "\n\n",
        "rows:1",
        "rows:1\n",
        "rows:1\n\ncols:2",
        "rows:1\r\n\r\ncols:2\r\n",
        "rows:1\rcols:2\r",
        " rows \t:\u{a0} 1 \u{3000}\n\u{2003}cols\u{2003}:\u{2003}2\u{2003}",
        "rowscols: 5",
        "cols: rows\nrows",
        "rows cols\nrows: 1",
        "x:rows\ny:cols\nz: rows cols",
        "rôws: 1\ncöls: 2\nrows: é\ncols: ü ",
        ":rows\n:cols",
    ];
    let parameter_sets: [&[&str]; 5] = [&["rows", "cols"], &["cols", "rows"], &["rows"], &[], &["", "rows"]];
    for content in contents {
        for parameters in parameter_sets {
            for delimiter in [":", "=", ": ", "", "rows"] {
                assert_eq!(
                    read(content, parameters, delimiter),
                    reference(content, parameters, delimiter),
                    "{content:?} {parameters:?} {delimiter:?}"
                );
            }
        }
    }
}

#[test]
fn white_space_is_what_the_standard_library_says() {
    for code in 0..=0x10FFFFu32 {
        if let Some(c) = char::from_u32(code) {
            assert_eq!(char_is_whitespace(c), c.is_whitespace(), "{code:#x}");
        }
    }
}

#[test]
fn lines_are_what_the_standard_library_says() {
    for text in ["", "a", "a\n", "a\nb", "a\n\nb\n", "\n", "\r\n", "a\r\nb\r", "a\rb\n", "\r", "\n\r\n\r"] {
        let expected: Vec<Vec<char>> = text.lines().map(chars).collect();
        assert_eq!(split_lines(&chars(text)), expected, "{text:?}");
    }
}

#[test]
fn trimming_is_what_the_standard_library_says() {
    for text in ["", " ", "a", "  a b  ", "\t\na\u{a0}", "\u{3000}", " é ", "x  "] {
        for from in 0..=text.chars().count() {
            let tail: String = text.chars().skip(from).collect();
            assert_eq!(trimmed(&chars(text), from), chars(tail.trim()), "{text:?} {from}");
        }
    }
}

#[test]
fn searching_finds_the_first_occurrence() {
    assert_eq!(find_first(&chars("abcabc"), &chars("bc")), Some(1));
    assert_eq!(find_first(&chars("abcabc"), &chars("abc")), Some(0));
    assert_eq!(find_first(&chars("abcabc"), &chars("cab")), Some(2));
    assert_eq!(find_first(&chars("abcabc"), &chars("abcabc")), Some(0));
    assert_eq!(find_first(&chars("abcabc"), &chars("abcabca")), None);
    assert_eq!(find_first(&chars("abcabc"), &chars("ca")), Some(2));
    assert_eq!(find_first(&chars("abcabc"), &chars("d")), None);
    assert_eq!(find_first(&chars("abc"), &chars("")), Some(0));
    assert_eq!(find_first(&chars(""), &chars("")), Some(0));
    assert_eq!(find_first(&chars(""), &chars("a")), None);
    assert_eq!(find_first(&chars("aaab"), &chars("aab")), Some(1));
}

#[test]
fn characters_and_text_convert_both_ways() {
    for text in ["", "rows: 16", "é\u{1F600}ü", "a\nb"] {
        assert_eq!(to_chars(text), chars(text));
        assert_eq!(to_text(&chars(text)), text);
    }
    assert_eq!(slice(&chars("abcdef"), 2, 5), chars("cde"));
    assert_eq!(slice(&chars("abcdef"), 3, 3), chars(""));
}
