use json_tree::{JsonValue, JSON};

fn uint(n: u64) -> JsonValue {
    JsonValue::UInt(n)
}

fn text(s: &str) -> JsonValue {
    JsonValue::Text(String::from(s))
}

#[test]
fn test_vector_get() {
    // Parse JSON string with a vector
    let json_str = r#"{
            "data": [10, 20, 30]
        }"#;
    let parsed_json = JSON::from_text(json_str).unwrap();

    // Get a vector value
    let data = parsed_json.get("data").unwrap();
    assert_eq!(data, &JsonValue::List(vec![uint(10), uint(20), uint(30)]));
}

#[test]
fn test_vector_update() {
    // Parse JSON string with a vector
    let json_str = r#"{
            "data": [10, 20, 30]
        }"#;
    let mut parsed_json = JSON::from_text(json_str).unwrap();

    // Update a vector value
    let new_data = JsonValue::List(vec![uint(40), uint(50)]);
    parsed_json.update("data", new_data).unwrap();

    // Get the updated vector value
    let updated_data = parsed_json.get("data").unwrap();
    assert_eq!(updated_data, &JsonValue::List(vec![uint(40), uint(50)]));
}

#[test]
fn test_nested_array_update() {
    // Parse JSON string with an array of nested objects
    let json_str = r#"
        {
            "data": [
                {
                    "numbers": [10, 20, 30]
                },
                {
                    "numbers": [40, 50, 60]
                }
            ]
        }"#;

    let mut parsed_json = JSON::from_text(json_str).unwrap();

    // Get the array of nested objects
    let array_value = parsed_json.get("data").unwrap();
    assert_eq!(
        array_value,
        &JsonValue::List(vec![
            JsonValue::Object(vec![(
                text("numbers"),
                JsonValue::List(vec![uint(10), uint(20), uint(30)]),
            )]),
            JsonValue::Object(vec![(
                text("numbers"),
                JsonValue::List(vec![uint(40), uint(50), uint(60)]),
            )]),
        ])
    );
    println!("{parsed_json:?}");

    // Update the array value in the nested object at index 1
    let new_value = JsonValue::List(vec![uint(70), uint(80)]);
    parsed_json
        .update("data.1.numbers", new_value.duplicate())
        .unwrap();
    println!("{parsed_json:?}");

    // Get the updated array value in the nested object at index 1
    let updated_array_value = parsed_json.get("data.1.numbers").unwrap();
    assert_eq!(updated_array_value, &new_value);

    parsed_json.update("data.1.numbers.1", uint(10)).unwrap();
    println!("{parsed_json:?}");

    // Get the updated array value in the nested object at index 1
    let updated_array_value = parsed_json.get("data.1.numbers.1").unwrap();
    assert_eq!(updated_array_value, &uint(10));
}

#[test]
fn test_binary_update() {
    let mut data = std::collections::BTreeMap::new();
    data.insert(String::from("address"), String::from("address"));
    data.insert(String::from("owner"), String::from("owner"));
    let encoded = cosmwasm_std::to_binary(&data).unwrap();

    // Start parsing
    let mut parsed_json = JSON::from_binary(encoded.as_slice()).unwrap();

    // Update a vector value
    parsed_json.update("owner", text("new_owner")).unwrap();

    // Get the updated vector value
    let updated_data = parsed_json.get("owner").unwrap();
    assert_eq!(updated_data, &text("new_owner"));

    data.insert(String::from("owner"), String::from("new_owner"));
    let encoded = cosmwasm_std::to_binary(&data).unwrap();
    let json_encoded = cosmwasm_std::Binary::from(parsed_json.to_text().unwrap().into_bytes());
    assert_eq!(encoded, json_encoded);

    // Also check the deserialized comparison for the values
    let round: std::collections::BTreeMap<String, String> =
        serde_json_wasm::from_str(&parsed_json.to_text().unwrap()).unwrap();
    assert_eq!(data, round);
}
