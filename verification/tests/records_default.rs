use buscame_db::records::{PDFItem, User};

#[test]
fn pdf_item_default_is_empty() {
    let item = PDFItem::default();
    assert_eq!(item.name, "");
    assert_eq!(item.rut, None);
    assert_eq!(item.pdf_url, "");
    assert_eq!(item.user, None);
}

#[test]
fn user_fields_are_kept() {
    let u = User { user_id: "1".to_string(), login: "ana".to_string() };
    assert_eq!(u.clone(), u);
    assert_eq!(u.login, "ana");
}
