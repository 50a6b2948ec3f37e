use kon_rs::http::rest_type::{BodyType, ContenType, UserType, ViewType};
use kon_rs::http::{parse_u64, Content, User};

#[test]
fn content_from_payload() {
    let payload = ContenType {
        id: "2765729402".to_string(),
        title: "spring rehearsal".to_string(),
        body: BodyType {
            view: ViewType {
                value: "<div></div>".to_string(),
            },
        },
    };
    let content = Content::new(&payload);
    assert_eq!(content.id(), 2765729402);
    assert_eq!(content.title(), "spring rehearsal");
    assert_eq!(content.raw_content(), "<div></div>");
}

#[test]
fn parse_u64_edges() {
    assert_eq!(parse_u64("0"), Some(0));
    assert_eq!(parse_u64("18446744073709551615"), Some(u64::MAX));
    assert_eq!(parse_u64("18446744073709551616"), None);
    assert_eq!(parse_u64(""), None);
    assert_eq!(parse_u64("12a"), None);
}

#[test]
fn user_payload_fields() {
    let user = User::new(UserType {
        username: "edogawa_conan".to_string(),
        userKey: "k0000".to_string(),
        displayName: "Conan Edogawa".to_string(),
    });
    assert_eq!(user.name(), "edogawa_conan");
    assert_eq!(user.display_name(), "Conan Edogawa");
}
