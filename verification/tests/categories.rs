use charmap::categories::{CategoryBitMap, UnicodeCategory};

#[test]
fn categories_are_combinable() {
    let mut categories = CategoryBitMap::new();
    categories.add_category(UnicodeCategory::Cs);
    categories.add_category(UnicodeCategory::Zs);
    categories.add_category(UnicodeCategory::Zl);
    assert_eq!(categories.to_vec_str(), vec!["Zl", "Zs", "Cs"])
}

#[test]
fn categories_display() {
    let mut categories = CategoryBitMap::new();
    categories.add_category(UnicodeCategory::Cs);
    categories.add_category(UnicodeCategory::Zs);
    categories.add_category(UnicodeCategory::Zl);
    assert_eq!(categories.display_string(), "Zl, Zs, Cs")
}

#[test]
fn try_extend_accepts_codes_and_major_classes() {
    let mut set = CategoryBitMap::new();
    assert!(set.try_extend("Lu").is_ok());
    assert!(set.try_extend("N").is_ok());
    assert_eq!(set.to_vec_str(), vec!["Nd", "Nl", "No", "Lu"]);
}

#[test]
fn try_extend_rejects_unknown_tokens() {
    let mut set = CategoryBitMap::new();
    assert!(matches!(
        set.try_extend("XX"),
        Err(charmap::Error::InvalidCategory("XX"))
    ));
    assert!(set.is_empty());
}

#[test]
fn set_operations_follow_membership() {
    let mut a = CategoryBitMap::new();
    a.add_category(UnicodeCategory::Lu);
    a.add_category(UnicodeCategory::Ll);
    let mut b = CategoryBitMap::new();
    b.add_category(UnicodeCategory::Ll);
    b.add_category(UnicodeCategory::Nd);
    assert_eq!(a.union(b).to_vec_str(), vec!["Nd", "Ll", "Lu"]);
    assert_eq!(a.intersection(b).to_vec_str(), vec!["Ll"]);
    assert_eq!(a.symmetric_difference(b).to_vec_str(), vec!["Nd", "Lu"]);
}

#[test]
fn first_index_is_lowest_bit() {
    let mut set = CategoryBitMap::new();
    assert_eq!(set.first_index(), None);
    set.add_category(UnicodeCategory::Zs);
    set.add_category(UnicodeCategory::Nd);
    assert_eq!(set.first_index(), Some(5));
}

#[test]
fn full_set_contains_every_category() {
    assert!(CategoryBitMap::full().is_full());
    assert_eq!(CategoryBitMap::full().to_vec_str().len(), 30);
    assert!(!CategoryBitMap::new().is_full());
}
