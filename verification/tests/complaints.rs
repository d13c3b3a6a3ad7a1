//! The complaints about the text of a file, held against those of `serde_json` for a
//! struct of the same fields.

use nam_rs::NamModel;
use serde::de::{Deserialize, Deserializer, Error, IgnoredAny, MapAccess, SeqAccess, Visitor};
use std::fmt::{Formatter, Result as Written};

/// The fields of a file.
struct Raw;

const FIELDS: &[&str] = &[
    "version",
    "architecture",
    "config",
    "weights",
    "sample_rate",
    "metadata",
];

/// Which of them a name is; their number, where it is none.
struct Field(usize);

struct FieldVisitor;

impl<'de> Visitor<'de> for FieldVisitor {
    type Value = Field;

    fn expecting(&self, f: &mut Formatter<'_>) -> Written {
        f.write_str("field identifier")
    }

    fn visit_str<E: Error>(self, name: &str) -> Result<Field, E> {
        let at = FIELDS.iter().position(|f| *f == name);
        Ok(Field(at.unwrap_or(FIELDS.len())))
    }
}

impl<'de> Deserialize<'de> for Field {
    fn deserialize<D: Deserializer<'de>>(d: D) -> Result<Field, D::Error> {
        d.deserialize_identifier(FieldVisitor)
    }
}

struct RawVisitor;

impl<'de> Visitor<'de> for RawVisitor {
    type Value = Raw;

    fn expecting(&self, f: &mut Formatter<'_>) -> Written {
        f.write_str("struct Raw")
    }

    fn visit_map<M: MapAccess<'de>>(self, mut map: M) -> Result<Raw, M::Error> {
        let mut seen = [false; 6];
        while let Some(Field(i)) = map.next_key()? {
            if i == FIELDS.len() {
                map.next_value::<IgnoredAny>()?;
                continue;
            }
            if seen[i] {
                return Err(Error::duplicate_field(FIELDS[i]));
            }
            seen[i] = true;
            match i {
                0 | 1 => drop(map.next_value::<String>()?),
                2 => drop(map.next_value::<serde_json::Value>()?),
                3 => drop(map.next_value::<Vec<f32>>()?),
                4 => drop(map.next_value::<Option<f64>>()?),
                _ => drop(map.next_value::<Option<serde_json::Value>>()?),
            }
        }
        match seen[..4].iter().position(|s| !s) {
            Some(i) => Err(Error::missing_field(FIELDS[i])),
            None => Ok(Raw),
        }
    }

    fn visit_seq<S: SeqAccess<'de>>(self, mut seq: S) -> Result<Raw, S::Error> {
        for i in 0..6 {
            let there = match i {
                0 | 1 => seq.next_element::<String>()?.is_some(),
                2 => seq.next_element::<serde_json::Value>()?.is_some(),
                3 => seq.next_element::<Vec<f32>>()?.is_some(),
                4 => seq.next_element::<Option<f64>>()?.is_some(),
                _ => seq.next_element::<Option<serde_json::Value>>()?.is_some(),
            };
            if !there && i < 4 {
                return Err(Error::invalid_length(i, &"struct Raw with 6 elements"));
            }
        }
        Ok(Raw)
    }
}

impl<'de> Deserialize<'de> for Raw {
    fn deserialize<D: Deserializer<'de>>(d: D) -> Result<Raw, D::Error> {
        d.deserialize_struct("Raw", FIELDS, RawVisitor)
    }
}

/// The complaint about a text by `serde_json`, and that of the library, if they differ.
/// Where the fields are right, only that the text is read is compared.
fn difference(text: &str) -> Option<(String, String)> {
    let got = match NamModel::from_json_str(text) {
        Ok(_) => String::new(),
        Err(e) => e.message(),
    };
    match serde_json::from_str::<Raw>(text) {
        Err(e) => {
            let expected = format!("failed to parse .nam JSON: {e}");
            if got == expected {
                None
            } else {
                Some((expected, got))
            }
        }
        Ok(_) => {
            if got.contains(" at line ") {
                Some((String::new(), got))
            } else {
                None
            }
        }
    }
}

fn agree(texts: &[String]) {
    let mut bad = Vec::new();
    for text in texts {
        if let Some((expected, got)) = difference(text) {
            bad.push(format!("{text}\n  expected {expected}\n  got      {got}"));
        }
    }
    assert!(
        bad.is_empty(),
        "{} of {}:\n{}",
        bad.len(),
        texts.len(),
        bad[..bad.len().min(40)].join("\n")
    );
}

/// A file in several lines, with what it does not know, and letters of every width.
const OBJECT: &str = "\n { \"version\" : \"0.5é\",\n\t\"x\": [1e999, {\"ü\": null}],\
    \"architecture\": \"LSTM\" ,\r\n \"config\": {\"input_size\": 1, \"hidden_size\": 1,\n\
    \"num_layers\": 0}, \"\u{1F600}\": -0.5e1,\n\"weights\": [ 0.5 , -1\n, 2e3],\
    \"sample_rate\": 48000, \"metadata\": {\"a\": [true]} } \n";

const ARRAY: &str = " [\"0.5é\",\n \"LSTM\", {\"input_size\": 1, \"hidden_size\": 1,\
    \"num_layers\": 0},\n [0.5, -1 ,\n 2e3] , null\n, {\"a\": 1}] ";

/// A text with each of its characters left out, and with each replaced.
fn mutations(text: &str) -> Vec<String> {
    let chars: Vec<char> = text.chars().collect();
    let mut out = Vec::new();
    for i in 0..chars.len() {
        let front: String = chars[..i].iter().collect();
        let back: String = chars[i + 1..].iter().collect();
        out.push(front.clone());
        out.push(format!("{front}{back}"));
        for c in ['[', ']', '{', '}', ',', ':', '"', '\\', '7', 'x', ' ', '\n', 'é'] {
            out.push(format!("{front}{c}{back}"));
            out.push(format!("{front}{c}{}{back}", chars[i]));
        }
    }
    out
}

#[test]
fn the_files_themselves_are_read() {
    // They lack nothing but their weights.
    for text in [OBJECT, ARRAY] {
        assert!(NamModel::from_json_str(text).is_ok());
    }
}

#[test]
fn damaged_objects_are_complained_of_in_the_same_words() {
    agree(&mutations(OBJECT));
}

#[test]
fn damaged_arrays_are_complained_of_in_the_same_words() {
    agree(&mutations(ARRAY));
}

#[test]
fn wrong_values_are_complained_of_in_the_same_words() {
    let values = [
        "null", "true", "falsex", "nul", "7", "-3", "-", "01", "2.5", "1e", "1e5x", "1e999",
        "12-3", "\"a\\\"b\\u0001\n\u{e9}\"", "\"\"", "\"\\ud800\"", "\"open", "[1]", "[]", "{}",
        "{\"a\": 1}", "[\"x\"]", "[1.5, ]", "[1,, 2]", "[null]", "[0.5,\n  true , 1]", "[1, [2]]",
        "[1, {", "[\n]", "[1 2]", "[1e999]", "[1, 2", "[", "{", "", "é", "x", "}", "]", ",",
    ];
    let mut texts = Vec::new();
    for v in values {
        texts.push(v.to_string());
        for name in ["version", "weights", "config", "sample_rate", "metadata", "other"] {
            texts.push(format!("{{\"{name}\": {v}}}"));
            texts.push(format!("{{\"other\": 1e999,\n \"{name}\": {v}, \"version\": 5}}"));
            texts.push(format!("{{\"metadata\": 1, \"{name}\" : {v}"));
            texts.push(format!("{{\"version\": \"\",\n \"{name}\"  {v}"));
            texts.push(format!("{{\"version\": \"é\", \"{name}\": {v}, \"weights\": [1], x}}"));
        }
        for at in 0..8 {
            let mut items = vec!["\"0\"", "\"é\"", "{}", "[1]", "null", "null", "7", "8"];
            items[at] = v;
            texts.push(format!("[{}]", items.join(", ")));
            texts.push(format!("[{}", items[..at + 1].join(",\n")));
            texts.push(format!(" [{} ]", items[..at + 1].join(",")));
        }
    }
    agree(&texts);
}

#[test]
fn what_follows_a_file_is_looked_at_last() {
    for text in [OBJECT, ARRAY] {
        for more in ["x", "é", " , ", "\n}", "]", "{}", "\n\n  \"", "0"] {
            agree(&[format!("{text}{more}"), format!("{}{more}", text.trim())]);
        }
        // A config that makes no sense is complained of before.
        let bad = text.replace("\"num_layers\": 0", "\"num_layers\": true");
        let err = NamModel::from_json_str(&format!("{bad} x")).unwrap_err();
        assert_eq!(
            err.message(),
            "failed to parse .nam JSON: invalid type: boolean `true`, expected usize"
        );
    }
    let longer = |more: &str| format!("{}{more}", ARRAY.trim().strip_suffix(']').unwrap());
    for more in [",", ", ]", ", 7]", ";", "", ",\n é", "  x]", "}"] {
        agree(&[longer(more)]);
    }
}

#[test]
fn long_lists_are_read_in_one_go() {
    let weights = |last: &str| {
        let all: Vec<String> = (0..200_000).map(|i| format!("{}.5", i)).collect();
        OBJECT.replace("2e3", &format!("{}, {last}", all.join(",\n")))
    };
    let model = NamModel::from_json_str(&weights("7")).unwrap();
    assert_eq!(model.weights.len(), 200_003);
    agree(&[weights("true"), weights("oops"), weights("[")]);
}
