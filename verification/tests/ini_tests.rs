use ini::{Ini, IniDecoder, IniEncoder, PlainText, TrimmedText};

struct UnderscoresAsSpaces;

impl IniDecoder<String> for UnderscoresAsSpaces {
    fn decode(&self, raw: &str) -> String {
        raw.replace("_", " ")
    }
}

struct SpacesAsUnderscores;

impl IniEncoder<String> for SpacesAsUnderscores {
    fn encode(&self, value: &String) -> String {
        value.replace(" ", "_")
    }
}

struct ParseNumber;

impl IniDecoder<usize> for ParseNumber {
    fn decode(&self, raw: &str) -> usize {
        raw.parse::<usize>().unwrap()
    }
}

struct WriteNumber;

impl IniEncoder<usize> for WriteNumber {
    fn encode(&self, value: &usize) -> String {
        value.to_string()
    }
}

struct ParseNumberList;

impl IniDecoder<Vec<usize>> for ParseNumberList {
    fn decode(&self, raw: &str) -> Vec<usize> {
        raw.split(',').map(|number| number.parse::<usize>().unwrap()).collect::<Vec<usize>>()
    }
}

struct WriteNumberList;

impl IniEncoder<Vec<usize>> for WriteNumberList {
    fn encode(&self, numbers: &Vec<usize>) -> String {
        numbers.iter().map(|number| number.to_string()).collect::<Vec<String>>().join(", ")
    }
}

#[test]
fn test_from_contents_valid() {
    let contents: &str = "[Category1]\nkey1=value1\nkey2=value2\n\n[Category2]\nkey3=value3\n";
    let ini: Ini<String, String> = Ini::from_contents(contents);

    println!("{:?}", ini.categories.iter().map(|c| &c.name).collect::<Vec<&String>>());
    assert_eq!(ini.categories.len(), 2);
    assert_eq!(ini.get_category("Category1").unwrap().variables.len(), 2);
    assert_eq!(ini.get_variable("Category1", "key1").unwrap().value, "value1");
    assert_eq!(ini.get_variable("Category2", "key3").unwrap().value, "value3");
}

#[test]
fn test_to_string_encoded_values() {
    let contents: &str = "[Category1]\nkey1=value1\nkey2=value2\n";
    let ini: Ini<String, String> = Ini::from_contents(contents);
    let encoded: String = ini.to_string();

    let expected: &str = "[Category1]\nkey1=value1\nkey2=value2";
    assert_eq!(encoded, expected);
}

#[test]
fn test_empty_file() {
    let contents: &str = "";
    let ini: Ini<String, String> = Ini::from_contents(contents);

    assert_eq!(ini.categories.len(), 0);
}

#[test]
fn test_invalid_line() {
    let contents: &str = "Invalid line here";
    let ini: Ini<String, String> = Ini::from_contents(contents);

    assert!(ini.categories.is_empty());
}

#[test]
fn test_malformed_category() {
    let contents: &str = "[Category1\nkey=value\n";
    let ini: Ini<String, String> = Ini::from_contents(contents);

    assert!(ini.categories[0].name.is_empty());
    assert_eq!(ini.categories[0].variables[0].name, "key");
    assert_eq!(ini.categories[0].variables[0].value, "value");
}

#[test]
fn test_category_without_variables() {
    let contents: &str = "[Category1]\n[Category2]\nkey=value\n";
    let ini: Ini<String, String> = Ini::from_contents(contents);

    assert!(ini.get_category("Category1").is_none());
    assert_eq!(ini.get_variable("Category2", "key").unwrap().value, "value");
}

#[test]
fn test_special_characters() {
    let contents: &str = "[Special]\nkey=special value!@#$%^&*()";
    let ini: Ini<String, String> = Ini::from_contents(contents);

    assert_eq!(ini.get_variable("Special", "key").unwrap().value, "special value!@#$%^&*()");
    assert_eq!(ini.to_string(), contents);
}

#[test]
fn test_encoding_decoding() {
    let contents: &str = "[EncodeTest]\nkey1 =hello_world\nkey2 =rust ini\n";
    let ini = Ini::from_contents_with_encoding(
        contents,
        TrimmedText,
        PlainText,
        UnderscoresAsSpaces,
        SpacesAsUnderscores,
    );

    assert_eq!(ini.get_variable("EncodeTest", "key1").unwrap().value, "hello world");
    assert_eq!(ini.to_string(), "[EncodeTest]\nkey1=hello_world\nkey2=rust_ini");
}

#[test]
fn test_missing_variable() {
    let contents: &str = "[Missing]\n";
    let ini: Ini<String, String> = Ini::from_contents(contents);

    assert!(ini.get_variable("Missing", "key").is_none());
}

#[test]
fn test_create_variable() {
    let contents: &str = "[Missing]\n";
    let mut ini: Ini<String, String> = Ini::from_contents(contents);
    ini.set_variable("NotMissing", "key", "value".to_string());

    assert_eq!(ini.get_variable("NotMissing", "key").unwrap().value, "value");
}

#[test]
fn test_generic_type() {
    let contents: &str = "[Category1]\nkey1=1\nkey2=2\n\n[Category2]\nkey3=3";
    let ini: Ini<String, usize, PlainText, WriteNumber> = Ini::from_contents_with_encoding(
        contents,
        PlainText,
        PlainText,
        ParseNumber,
        WriteNumber,
    );

    println!("{:?}", ini.categories.iter().map(|c| &c.name).collect::<Vec<&String>>());
    assert_eq!(ini.categories.len(), 2);
    assert_eq!(ini.get_category("Category1").unwrap().variables.len(), 2);
    assert_eq!(ini.get_variable("Category1", "key1").unwrap().value, 1);
    assert_eq!(ini.get_variable("Category2", "key3").unwrap().value, 3);
}

#[test]
fn test_debug_print() {
    let contents: &str = "[Category1]\nkey1=0\nkey2=1,2\n\n[Category2]\nkey3=3,4\n";
    let ini: Ini<String, Vec<usize>, PlainText, WriteNumberList> = Ini::from_contents_with_encoding(
        contents,
        PlainText,
        PlainText,
        ParseNumberList,
        WriteNumberList,
    );

    assert_eq!(
        &ini.debug_string(),
        "[Category1]\n\"key1\"=[0]\n\"key2\"=[1, 2]\n\n[Category2]\n\"key3\"=[3, 4]"
    );
}
