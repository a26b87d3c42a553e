use ini::{check_lines_split_cleanly, DebugText, Ini, IniCategory, IniDecoder, IniEncoder, IniVariable, PlainText, TrimmedText};

fn names_of(ini: &Ini<String, String>) -> Vec<String> {
    ini.categories.iter().map(|c| c.name.clone()).collect()
}

fn variables_of(category: &IniCategory<String, String>) -> Vec<(String, String)> {
    category.variables.iter().map(|v| (v.name.clone(), v.value.clone())).collect()
}

#[test]
fn written_text_reads_back_to_the_same_document() {
    let text = "[First]\nalpha=1\nbeta=two words\n\n[Second]\ngamma=x=y\n\n[]\n=empty name";
    let ini: Ini<String, String> = Ini::from_contents(text);
    assert_eq!(ini.to_string(), text);
    let again: Ini<String, String> = Ini::from_contents(&ini.to_string());
    assert_eq!(names_of(&again), names_of(&ini));
    for i in 0..ini.categories.len() {
        assert_eq!(variables_of(&again.categories[i]), variables_of(&ini.categories[i]));
    }
}

#[test]
fn built_document_reads_back_after_writing() {
    let mut ini: Ini<String, String> = Ini::from_contents("");
    ini.set_variable("server", "host", " example.org ".to_string());
    ini.set_variable("server", "port", "8080".to_string());
    ini.set_variable("client", "retries", "3".to_string());
    let text = ini.to_string();
    assert_eq!(text, "[server]\nhost= example.org \nport=8080\n\n[client]\nretries=3");
    let again: Ini<String, String> = Ini::from_contents(&text);
    assert_eq!(names_of(&again), vec!["server".to_string(), "client".to_string()]);
    assert_eq!(again.get_variable("server", "host").unwrap().value, " example.org ");
    assert_eq!(again.get_variable("client", "retries").unwrap().value, "3");
}

#[test]
fn get_after_set_gives_the_value() {
    let mut ini: Ini<String, String> = Ini::from_contents("[a]\nx=1\ny=2\n[b]\nx=3");
    ini.set_variable("a", "y", "20".to_string());
    assert_eq!(ini.get_variable("a", "y").unwrap().value, "20");
    ini.set_variable("b", "z", "4".to_string());
    assert_eq!(ini.get_variable("b", "z").unwrap().value, "4");
    ini.set_variable("c", "w", "5".to_string());
    assert_eq!(ini.get_variable("c", "w").unwrap().value, "5");
}

#[test]
fn set_leaves_other_variables_alone() {
    let mut ini: Ini<String, String> = Ini::from_contents("[a]\nx=1\ny=2\n[b]\nx=3");
    ini.set_variable("a", "x", "10".to_string());
    assert_eq!(ini.get_variable("a", "y").unwrap().value, "2");
    assert_eq!(ini.get_variable("b", "x").unwrap().value, "3");
    assert!(ini.get_variable("a", "z").is_none());
    assert_eq!(ini.to_string(), "[a]\nx=10\ny=2\n\n[b]\nx=3");
}

#[test]
fn set_twice_keeps_the_last_value() {
    let mut twice: Ini<String, String> = Ini::from_contents("[a]\nx=1");
    twice.set_variable("a", "k", "first".to_string());
    twice.set_variable("a", "k", "second".to_string());
    let mut once: Ini<String, String> = Ini::from_contents("[a]\nx=1");
    once.set_variable("a", "k", "second".to_string());
    assert_eq!(twice.to_string(), once.to_string());
}

#[test]
fn set_to_the_held_value_changes_nothing() {
    let mut ini: Ini<String, String> = Ini::from_contents("[a]\nx=1\ny=2");
    let before = ini.to_string();
    ini.set_variable("a", "y", "2".to_string());
    assert_eq!(ini.to_string(), before);
}

#[test]
fn set_category_adds_once() {
    let mut ini: Ini<String, String> = Ini::from_contents("[a]\nx=1");
    ini.set_category("b");
    assert_eq!(names_of(&ini), vec!["a".to_string(), "b".to_string()]);
    ini.set_category("b");
    ini.set_category("a");
    assert_eq!(names_of(&ini), vec!["a".to_string(), "b".to_string()]);
    assert!(ini.get_category("b").unwrap().variables.is_empty());
    assert_eq!(ini.to_string(), "[a]\nx=1\n\n[b]\n");
}

#[test]
fn parsed_categories_all_hold_variables() {
    let ini: Ini<String, String> = Ini::from_contents("[a]\n[b]\n\n[c]\nk=v\n[d]\n[e]");
    assert_eq!(names_of(&ini), vec!["c".to_string()]);
    for category in ini.categories.iter() {
        assert!(!category.variables.is_empty());
    }
}

#[test]
fn lookups_find_the_first_of_a_name() {
    let ini: Ini<String, String> = Ini::from_contents("[a]\nk=1\nk=2\n[a]\nk=3\nj=4");
    assert_eq!(ini.categories.len(), 2);
    assert_eq!(ini.get_variable("a", "k").unwrap().value, "1");
    assert!(ini.get_variable("a", "j").is_none());
    assert_eq!(ini.categories[1].get_variable("j").unwrap().value, "4");
}

#[test]
fn every_line_break_ends_a_line() {
    let ini: Ini<String, String> = Ini::from_contents("[a]\r\nk=1\r\n\r\n[b]\rj=2\n");
    assert_eq!(names_of(&ini), vec!["a".to_string(), "b".to_string()]);
    assert_eq!(ini.get_variable("a", "k").unwrap().value, "1");
    assert_eq!(ini.get_variable("b", "j").unwrap().value, "2");
}

#[test]
fn names_are_trimmed_and_values_kept() {
    let ini: Ini<String, String> = Ini::from_contents("  [ spaced ]  \n\t key \t=  value  \n");
    assert_eq!(names_of(&ini), vec![" spaced ".to_string()]);
    let variable = ini.get_variable(" spaced ", "key").unwrap();
    assert_eq!(variable.name, "key");
    assert_eq!(variable.value, "  value  ");
}

#[test]
fn unicode_white_space_is_trimmed() {
    let ini: Ini<String, String> =
        Ini::from_contents("\u{3000}[wide]\u{3000}\n key\t=v\u{3000}\n\u{2028}\n");
    assert_eq!(names_of(&ini), vec!["wide".to_string()]);
    assert_eq!(ini.get_variable("wide", "key").unwrap().value, "v\u{3000}");
    assert!(!check_lines_split_cleanly("\u{a0}key\u{2003}=v"));
}

#[test]
fn value_runs_from_the_first_equals_sign() {
    let ini: Ini<String, String> = Ini::from_contents("[a]\nk=x=y=z\n==\n");
    assert_eq!(ini.get_variable("a", "k").unwrap().value, "x=y=z");
    assert_eq!(ini.get_variable("a", "").unwrap().value, "=");
}

#[test]
fn header_holding_an_equals_sign_also_adds_a_variable() {
    let ini: Ini<String, String> = Ini::from_contents("[a=b]\n");
    assert_eq!(names_of(&ini), vec!["a=b".to_string()]);
    assert_eq!(variables_of(&ini.categories[0]), vec![("[a".to_string(), "b]".to_string())]);
}

#[test]
fn variables_before_any_header_go_to_the_unnamed_category() {
    let ini: Ini<String, String> = Ini::from_contents("top=1\n[a]\nk=v");
    assert_eq!(names_of(&ini), vec!["".to_string(), "a".to_string()]);
    assert_eq!(ini.get_variable("", "top").unwrap().value, "1");
    assert_eq!(ini.to_string(), "[]\ntop=1\n\n[a]\nk=v");
}

#[test]
fn non_ascii_category_names_and_values() {
    let text = "[Größe]\nkey=wert ü\nname=値";
    assert!(check_lines_split_cleanly(text));
    let ini: Ini<String, String> = Ini::from_contents(text);
    assert_eq!(ini.get_variable("Größe", "key").unwrap().value, "wert ü");
    assert_eq!(ini.get_variable("Größe", "name").unwrap().value, "値");
    assert_eq!(ini.to_string(), text);
}

#[test]
fn non_ascii_before_equals_cuts_at_the_byte_position() {
    let text = "[a]\nüa=1";
    assert!(check_lines_split_cleanly(text));
    let ini: Ini<String, String> = Ini::from_contents(text);
    assert_eq!(variables_of(&ini.categories[0]), vec![("ü".to_string(), "=1".to_string())]);
}

#[test]
fn cuts_inside_a_character_are_found() {
    assert!(!check_lines_split_cleanly("[a]\nü=1"));
    assert!(!check_lines_split_cleanly("名前=値"));
    assert!(check_lines_split_cleanly("[ü]\nk=ü\n\nplain line ü"));
    assert!(check_lines_split_cleanly(""));
}

#[test]
fn get_category_mut_changes_the_document() {
    let mut ini: Ini<String, String> = Ini::from_contents("[a]\nk=1\n[b]\nj=2");
    {
        let category = ini.get_category_mut("b").unwrap();
        category.set_variable("j", "20".to_string());
        category.name = "renamed".to_string();
    }
    assert!(ini.get_category_mut("missing").is_none());
    assert_eq!(ini.to_string(), "[a]\nk=1\n\n[renamed]\nj=20");
}

#[test]
fn get_variable_mut_changes_the_document() {
    let mut ini: Ini<String, String> = Ini::from_contents("[a]\nk=1\nj=2");
    ini.get_variable_mut("a", "j").unwrap().value = "changed".to_string();
    assert!(ini.get_variable_mut("a", "missing").is_none());
    assert!(ini.get_variable_mut("missing", "k").is_none());
    assert_eq!(ini.to_string(), "[a]\nk=1\nj=changed");
}

#[test]
fn source_file_is_recorded() {
    let mut ini: Ini<String, String> = Ini::from_contents("[a]\nk=1");
    assert!(ini.source_file().is_none());
    ini.set_source_file("settings.ini");
    assert_eq!(ini.source_file(), Some("settings.ini"));
    assert_eq!(ini.to_string(), "[a]\nk=1");
}

#[test]
fn category_new_and_set_variable() {
    let mut category: IniCategory<String, String> = IniCategory::new("c");
    assert_eq!(category.name, "c");
    assert!(category.variables.is_empty());
    assert!(category.get_variable("k").is_none());
    category.set_variable("k", "1".to_string());
    category.set_variable("j", "2".to_string());
    category.set_variable("k", "3".to_string());
    assert_eq!(category.get_variable("k").unwrap().value, "3");
    category.get_variable_mut("j").unwrap().value = "4".to_string();
    assert!(category.get_variable_mut("x").is_none());
    assert_eq!(category.to_encoded_string(&PlainText, &PlainText), "[c]\nk=3\nj=4");
}

#[test]
fn category_without_variables_is_written_as_its_header() {
    let category: IniCategory<String, String> = IniCategory::new("empty");
    assert_eq!(category.to_encoded_string(&PlainText, &PlainText), "[empty]\n");
}

#[test]
fn variable_new_and_encoded_string() {
    let variable: IniVariable<String, String> =
        IniVariable::new("name".to_string(), "a value".to_string());
    assert_eq!(variable.name, "name");
    assert_eq!(variable.value, "a value");
    assert_eq!(variable.to_encoded_string(&PlainText, &PlainText), "name=a value");
    assert_eq!(variable.debug_string(), "\"name\"=\"a value\"");
}

#[test]
fn category_debug_string() {
    let mut category: IniCategory<String, usize> = IniCategory::new("n");
    category.set_variable("one", 1);
    category.set_variable("two", 2);
    assert_eq!(category.debug_string(), "[n]\n\"one\"=1\n\"two\"=2");
}

#[test]
fn debug_text_uses_debug_formatting() {
    let value = vec![1usize, 2];
    assert_eq!(DebugText.encode(&value), "[1, 2]");
    assert_eq!(DebugText.encode(&"q\"uote".to_string()), "\"q\\\"uote\"");
}

#[test]
fn default_coders() {
    assert_eq!(TrimmedText.decode("  a b \t"), "a b");
    assert_eq!(TrimmedText.decode(" \u{3000} "), "");
    assert_eq!(PlainText.decode("  a b \t"), "  a b \t");
    assert_eq!(PlainText.encode(&" x ".to_string()), " x ");
}

struct Length;

impl IniDecoder<usize> for Length {
    fn decode(&self, raw: &str) -> usize {
        raw.chars().count()
    }
}

struct Stars;

impl IniEncoder<usize> for Stars {
    fn encode(&self, value: &usize) -> String {
        "*".repeat(*value)
    }
}

#[test]
fn value_decoder_sees_the_raw_value() {
    let ini: Ini<String, usize, PlainText, Stars> =
        Ini::from_contents_with_encoding("[a]\nk= ab \n", TrimmedText, PlainText, Length, Stars);
    assert_eq!(ini.get_variable("a", "k").unwrap().value, 4);
    assert_eq!(ini.to_string(), "[a]\nk=****");
}

#[test]
fn empty_and_blank_texts_give_no_categories() {
    let ini: Ini<String, String> = Ini::from_contents("\n\r\n   \n\t");
    assert!(ini.categories.is_empty());
    assert_eq!(ini.to_string(), "");
}

struct Number;

impl IniDecoder<u64> for Number {
    fn decode(&self, raw: &str) -> u64 {
        raw.parse::<u64>().unwrap()
    }
}

impl IniEncoder<u64> for Number {
    fn encode(&self, value: &u64) -> String {
        value.to_string()
    }
}

#[test]
fn crlf_line_ends_read_like_lf() {
    let text = "[a]\nk=1\n\nj = 2\r\n[b]\nx=y";
    let lf: Ini<String, String> = Ini::from_contents(text);
    let crlf: Ini<String, String> = Ini::from_contents(&text.replace("\n", "\r\n"));
    assert_eq!(names_of(&crlf), names_of(&lf));
    for i in 0..lf.categories.len() {
        assert_eq!(variables_of(&crlf.categories[i]), variables_of(&lf.categories[i]));
    }
}

#[test]
fn ignored_lines_change_nothing() {
    let plain: Ini<String, String> = Ini::from_contents("[a]\nk=1\nj=2");
    let with_noise: Ini<String, String> =
        Ini::from_contents("[a]\nk=1\n  just words \n[unclosed\n\t\nj=2");
    assert_eq!(with_noise.to_string(), plain.to_string());
}

#[test]
fn inverse_coders_read_back() {
    let mut ini: Ini<String, u64, PlainText, Number> =
        Ini::from_contents_with_encoding("", PlainText, PlainText, Number, Number);
    ini.set_variable("limits", "low", 3);
    ini.set_variable("limits", "high", 400);
    ini.set_variable("other", "zero", 0);
    let text = ini.to_string();
    let again: Ini<String, u64, PlainText, Number> =
        Ini::from_contents_with_encoding(&text, PlainText, PlainText, Number, Number);
    assert_eq!(again.categories().len(), 2);
    assert_eq!(again.get_variable("limits", "low").unwrap().value, 3);
    assert_eq!(again.get_variable("limits", "high").unwrap().value, 400);
    assert_eq!(again.get_variable("other", "zero").unwrap().value, 0);
    assert_eq!(again.to_string(), text);
}

#[test]
fn categories_accessor_gives_the_categories() {
    let ini: Ini<String, String> = Ini::from_contents("[a]\nk=1\n[b]\nj=2");
    let categories = ini.categories();
    assert_eq!(categories.len(), 2);
    assert_eq!(categories[1].name, "b");
    assert_eq!(categories[1].variables[0].value, "2");
}

#[test]
fn save_path_needs_a_source_file() {
    let mut ini: Ini<String, String> = Ini::from_contents("[a]\nk=1");
    assert_eq!(
        ini.save_path(),
        Err("Could not safe ini to origin file, ini did not come from a file.".to_string())
    );
    ini.set_source_file("origin.ini");
    assert_eq!(ini.save_path(), Ok("origin.ini"));
}
