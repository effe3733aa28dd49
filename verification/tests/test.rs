use schema_expand::doc::Document;
use schema_expand::engine::expand;
use schema_expand::registry::{Handler, HandlerFailure, Registry};

fn text(s: &str) -> Document {
    Document::Text(String::from(s))
}

fn entry(k: &str, v: Document) -> (String, Document) {
    (String::from(k), v)
}

fn string_field(name: &str) -> (String, Document) {
    entry(name, Document::Object(vec![entry("type", text("string"))]))
}

fn address_schema(description: &str, fields: &[&str]) -> Document {
    let props = Document::Object(fields.iter().map(|f| string_field(f)).collect());
    let required = Document::Array(fields.iter().map(|f| text(f)).collect());
    Document::Object(vec![
        entry("description", text(description)),
        entry("type", text("object")),
        entry("properties", props),
        entry("required", required),
    ])
}

fn us_address() -> Document {
    address_schema("US Address", &["street", "city", "state", "zip"])
}

fn uk_address() -> Document {
    address_schema(
        "UK Address",
        &["buildingName", "street", "city", "county", "postalCode"],
    )
}

fn japan_address() -> Document {
    address_schema(
        "Japan Address",
        &["postalCode", "prefecture", "city", "streetNumber"],
    )
}

struct JsonAddressList;

impl Handler for JsonAddressList {
    fn call(&self, arg: &Document) -> Result<Document, HandlerFailure> {
        match arg {
            Document::Array(countries) => {
                let mut out = Vec::new();
                for country in countries {
                    match country {
                        Document::Text(code) => match code.as_str() {
                            "US" => out.push(us_address()),
                            "UK" => out.push(uk_address()),
                            "JP" => out.push(japan_address()),
                            other => {
                                return Err(HandlerFailure::Failed(format!(
                                    "unknown country code '{}'",
                                    other
                                )))
                            }
                        },
                        _ => {
                            return Err(HandlerFailure::Failed(String::from(
                                "expected countries to be an array of strings",
                            )))
                        }
                    }
                }
                Ok(Document::Array(out))
            }
            _ => Err(HandlerFailure::Failed(String::from(
                "expected countries to be an array of strings",
            ))),
        }
    }
}

fn addresses_schema_document() -> Document {
    Document::Object(vec![
        entry("description", text("Address list")),
        entry("type", text("array")),
        entry(
            "items",
            Document::Object(vec![entry(
                "%{json_address_list}%",
                Document::Array(vec![text("US"), text("UK"), text("JP")]),
            )]),
        ),
    ])
}

#[test]
fn test() {
    let mut registry: Registry<JsonAddressList> = Registry::new();
    registry
        .register(String::from("json_address_list"), JsonAddressList)
        .unwrap();
    let schema = expand(addresses_schema_document(), &registry).unwrap();

    let expected = Document::Object(vec![
        entry("description", text("Address list")),
        entry("type", text("array")),
        entry(
            "items",
            Document::Array(vec![us_address(), uk_address(), japan_address()]),
        ),
    ]);
    assert!(schema.deep_eq(&expected));
}

#[test]
fn test_addresses() {
    let mut registry: Registry<JsonAddressList> = Registry::new();
    registry
        .register(String::from("json_address_list"), JsonAddressList)
        .unwrap();
    let schema = expand(addresses_schema_document(), &registry).unwrap();

    match &schema {
        Document::Object(entries) => {
            let items = entries
                .iter()
                .find(|(k, _)| k == "items")
                .map(|(_, v)| v)
                .unwrap();
            match items {
                Document::Array(list) => {
                    assert_eq!(list.len(), 3);
                    assert!(list[0].deep_eq(&us_address()));
                    assert!(list[1].deep_eq(&uk_address()));
                    assert!(list[2].deep_eq(&japan_address()));
                }
                _ => panic!("expected the items entry to be an array"),
            }
        }
        _ => panic!("expected the expanded schema to be an object"),
    }
}

#[test]
fn unknown_country_code_fails_the_handler() {
    let mut registry: Registry<JsonAddressList> = Registry::new();
    registry
        .register(String::from("json_address_list"), JsonAddressList)
        .unwrap();
    let doc = Document::Object(vec![entry(
        "%{json_address_list}%",
        Document::Array(vec![text("XX")]),
    )]);
    let err = expand(doc, &registry).unwrap_err();
    match err {
        schema_expand::registry::ExpandError::HandlerError(m) => {
            assert_eq!(m, "unknown country code 'XX'")
        }
        other => panic!("expected a handler error, got {:?}", marker(&other)),
    }
}

fn marker(e: &schema_expand::registry::ExpandError) -> &'static str {
    match e {
        schema_expand::registry::ExpandError::DuplicateHandler(_) => "DuplicateHandler",
        schema_expand::registry::ExpandError::UnknownHandler(_) => "UnknownHandler",
        schema_expand::registry::ExpandError::MalformedInvocation => "MalformedInvocation",
        schema_expand::registry::ExpandError::ArgumentDecodeError(_) => "ArgumentDecodeError",
        schema_expand::registry::ExpandError::HandlerError(_) => "HandlerError",
    }
}
