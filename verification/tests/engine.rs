use charmap::categories::{CategoryBitMap, UnicodeCategory};
use charmap::categories::UnicodeCategory::{
    Cc, Cf, Cn, Co, Cs, Ll, Lm, Lo, Lt, Lu, Mc, Me, Mn, Nd, Nl, No, Pc, Pd, Pe, Pf, Pi, Po, Ps,
    Sc, Sk, Sm, So, Zl, Zp, Zs,
};
use charmap::engine::{CategoryQueryEngine, Table, UnicodeVersion};
use charmap::intervals::union_intervals;
use charmap::Error;

/// A complete test table: one row per category, rows together covering
/// every codepoint exactly. Interval counts are arranged so that the
/// canonical order puts `Me` before `Lu` and the number categories in the
/// order `Nl`, `Nd`, `No`.
fn test_table() -> Table {
    vec![
        (Pe, vec![(0, 9)]),
        (Pc, vec![(10, 19)]),
        (Cc, vec![(20, 29)]),
        (Sc, vec![(30, 39)]),
        (Pd, vec![(40, 49)]),
        (Nd, vec![(50, 57), (60, 61)]),
        (Me, vec![(58, 59)]),
        (Pf, vec![(62, 64)]),
        (Cf, vec![(91, 99)]),
        (Pi, vec![(100, 109)]),
        (Nl, vec![(110, 119)]),
        (Zl, vec![(8232, 8232)]),
        (Ll, vec![(120, 129)]),
        (Sm, vec![(130, 139)]),
        (Lm, vec![(140, 149)]),
        (Sk, vec![(150, 159)]),
        (Mn, vec![(160, 169)]),
        (Ps, vec![(170, 179)]),
        (Lo, vec![(180, 189)]),
        (No, vec![(190, 193), (194, 196), (197, 199)]),
        (Po, vec![(211, 220)]),
        (So, vec![(221, 230)]),
        (Zp, vec![(8233, 8233)]),
        (Co, vec![(57344, 63743), (983040, 1048573), (1048576, 1114109)]),
        (Zs, vec![(231, 240)]),
        (Mc, vec![(241, 250)]),
        (Cs, vec![(251, 260)]),
        (Lt, vec![(261, 270)]),
        (Cn, vec![
            (271, 8231),
            (8234, 57343),
            (63744, 983039),
            (1048574, 1048575),
            (1114110, 1114111),
        ]),
        (Lu, vec![(65, 90), (200, 210)]),
    ]
}

fn engine() -> CategoryQueryEngine {
    CategoryQueryEngine::new(UnicodeVersion::V13, test_table())
}

#[test]
fn make_categories_forces_controls_last() {
    let cats = charmap::engine::make_categories(&test_table());
    assert_eq!(cats.len(), 30);
    assert_eq!(cats[28], UnicodeCategory::Cc);
    assert_eq!(cats[29], UnicodeCategory::Cs);
}

#[test]
fn categories_orders_numbers_by_size() {
    let eng = engine();
    let labels = eng.categories();
    assert_eq!(labels.len(), 30);
    let nl = labels.iter().position(|l| *l == "Nl").unwrap();
    let nd = labels.iter().position(|l| *l == "Nd").unwrap();
    let no = labels.iter().position(|l| *l == "No").unwrap();
    assert!(nl < nd && nd < no);
}

#[test]
fn test_category_key() {
    let eng = engine();
    let mut exclude = CategoryBitMap::new();
    exclude.try_extend("So").unwrap();
    let mut included = CategoryBitMap::new();
    for name in ["Lu", "Me", "Cs", "So"] {
        included.try_extend(name).unwrap();
    }
    assert_eq!(
        eng.category_key(&exclude, Some(&included)),
        vec![Me, Lu, Cs]
    );
}

#[test]
fn test_query_for_key() {
    let mut eng = engine();
    assert_eq!(
        eng.query_for_key(&vec![Zl, Zp, Co]),
        vec![
            (8232, 8233),
            (57344, 63743),
            (983040, 1048573),
            (1048576, 1114109)
        ]
    );
}

#[test]
fn test_query_for_key_all() {
    let all = vec![
        Pe, Pc, Cc, Sc, Pd, Nd, Me, Pf, Cf, Pi, Nl, Zl, Ll, Sm, Lm, Sk, Mn, Ps, Lo, No, Po, So,
        Zp, Co, Zs, Mc, Cs, Lt, Cn, Lu,
    ];
    let mut eng = engine();
    assert_eq!(eng.query_for_key(&all), vec![(0, 1114111)]);
    // Any order gives the same full range.
    let reversed: Vec<UnicodeCategory> = all.iter().rev().copied().collect();
    assert_eq!(eng.query_for_key(&reversed), vec![(0, 1114111)]);
    // Duplicates change nothing.
    let mut doubled = all.clone();
    doubled.push(Lu);
    doubled.push(Sm);
    assert_eq!(eng.query_for_key(&doubled), vec![(0, 1114111)]);
}

#[test]
fn successive_union() {
    let eng = engine();
    let mut x: Vec<(u32, u32)> = vec![];
    for lists in eng.charmap() {
        x = union_intervals(x, lists.clone());
    }
    assert_eq!(x, vec![(0, 1114111)]);
}

#[test]
fn as_general_categories_work() {
    let eng = engine();
    assert_eq!(
        eng.as_general_categories(&["N"]).unwrap(),
        vec!["Nl", "Nd", "No"]
    );
    assert_eq!(
        eng.as_general_categories(&["N", "N"]).unwrap(),
        vec!["Nl", "Nd", "No"]
    );
}

#[test]
fn as_general_categories_rejects_unknown_names() {
    let eng = engine();
    assert!(matches!(
        eng.as_general_categories(&["N", "XX"]),
        Err(Error::InvalidCategory("XX"))
    ));
    assert_eq!(eng.as_general_categories(&[]).unwrap(), Vec::<&str>::new());
}

#[test]
fn query_works() {
    let mut eng = engine();
    assert_eq!(
        eng.query(None, None, None, None, None, None).unwrap(),
        vec![(0, 1114111)]
    );
    assert_eq!(
        eng.query(None, None, Some(0), Some(128), None, None).unwrap(),
        vec![(0, 128)]
    );
    assert_eq!(
        eng.query(None, Some(&["Lu"]), Some(0), Some(128), None, None)
            .unwrap(),
        vec![(65, 90)]
    );
    assert_eq!(
        eng.query(None, Some(&["Lu"]), Some(0), Some(128), Some("\u{2603}"), None)
            .unwrap(),
        vec![(65, 90), (9731, 9731)]
    );
    assert_eq!(
        eng.query(None, None, Some(0), Some(68104), Some("\u{10A07}"), None)
            .unwrap(),
        vec![(0, 68104)]
    );
}

#[test]
fn query_is_stable_across_repeats() {
    let mut eng = engine();
    let first = eng
        .query(None, Some(&["Lu"]), Some(0), Some(128), None, None)
        .unwrap();
    let second = eng
        .query(None, Some(&["Lu"]), Some(0), Some(128), None, None)
        .unwrap();
    assert_eq!(first, second);
}

#[test]
fn query_subtracts_excluded_characters() {
    let mut eng = engine();
    assert_eq!(
        eng.query(None, Some(&["Lu"]), Some(0), Some(128), None, Some("B"))
            .unwrap(),
        vec![(65, 65), (67, 90)]
    );
}

#[test]
fn query_rejects_invalid_categories() {
    let mut eng = engine();
    assert!(matches!(
        eng.query(Some(&["XX"]), None, None, None, None, None),
        Err(Error::InvalidCategory("XX"))
    ));
    assert!(matches!(
        eng.query(None, Some(&["YY"]), None, None, None, None),
        Err(Error::InvalidCategory("YY"))
    ));
}

#[test]
fn query_rejects_inverted_codepoint_bounds() {
    let mut eng = engine();
    assert!(matches!(
        eng.query(None, None, Some(10), Some(5), None, None),
        Err(Error::InvalidCodepoints(10, 5))
    ));
}

#[test]
fn table_accessor_returns_the_raw_rows() {
    let eng = engine();
    assert_eq!(eng.table().len(), 30);
    assert_eq!(eng.version(), UnicodeVersion::V13);
    assert_eq!(
        eng.category_intervals(UnicodeCategory::Lu),
        &vec![(65, 90), (200, 210)]
    );
}
